use vstd::prelude::*;
use crate::span::Span;
use crate::types::push_char;

verus! {

/// The characters of a text, in order.
pub(crate) fn chars_of(s: &str) -> (v: Vec<char>)
    ensures
        v@ == s@,
{
    let n = s.unicode_len();
    let mut v: Vec<char> = Vec::new();
    let mut i: usize = 0;
    while i < n
        invariant
            n == s@.len(),
            i <= n,
            v@ == s@.subrange(0, i as int),
        decreases n - i,
    {
        let c = s.get_char(i);
        v.push(c);
        i += 1;
        assert(v@ =~= s@.subrange(0, i as int));
    }
    assert(v@ =~= s@);
    v
}

/// Whether a character has the Unicode `White_Space` property.
pub open spec fn spec_is_whitespace(c: char) -> bool {
    ||| ('\u{9}' <= c && c <= '\u{d}')
    ||| c == ' '
    ||| c == '\u{85}'
    ||| c == '\u{a0}'
    ||| c == '\u{1680}'
    ||| ('\u{2000}' <= c && c <= '\u{200a}')
    ||| c == '\u{2028}'
    ||| c == '\u{2029}'
    ||| c == '\u{202f}'
    ||| c == '\u{205f}'
    ||| c == '\u{3000}'
}

/// Whether a character has the Unicode `White_Space` property, as `char::is_whitespace` tells.
pub fn is_whitespace(c: char) -> (b: bool)
    ensures
        b == spec_is_whitespace(c),
{
    ('\u{9}' <= c && c <= '\u{d}') || c == ' ' || c == '\u{85}' || c == '\u{a0}' || c == '\u{1680}'
        || ('\u{2000}' <= c && c <= '\u{200a}') || c == '\u{2028}' || c == '\u{2029}'
        || c == '\u{202f}' || c == '\u{205f}' || c == '\u{3000}'
}

/// A word of the source: a maximal run of characters that are not white space, with the
/// span of characters it was taken from.
#[derive(Debug)]
pub struct Token {
    pub string: String,
    pub span: Span,
}

impl Token {
    pub fn new(string: String, span: Span) -> (t: Token)
        ensures
            t.string@ == string@,
            t.span == span,
    {
        Token { string, span }
    }

    pub fn get_span(&self) -> (s: Span)
        ensures
            s == self.span,
    {
        self.span
    }

    pub fn as_str(&self) -> (s: &str)
        ensures
            s@ == self.string@,
    {
        self.string.as_str()
    }
}

/// Whether `t` is the token taken from `chars` at its span: a maximal run of characters
/// that are not white space.
pub open spec fn token_of(chars: Seq<char>, t: Token) -> bool {
    &&& t.span.start < t.span.end <= chars.len()
    &&& t.string@ == chars.subrange(t.span.start as int, t.span.end as int)
    &&& forall|k: int| t.span.start <= k < t.span.end ==> !spec_is_whitespace(#[trigger] chars[k])
    &&& (t.span.start == 0 || spec_is_whitespace(chars[t.span.start - 1]))
    &&& (t.span.end == chars.len() || spec_is_whitespace(chars[t.span.end as int]))
}

/// Whether `toks` are the tokens of `chars[0..upto]` in order: every character that is not
/// white space lies in exactly one of them.
pub open spec fn tokens_of(chars: Seq<char>, toks: Seq<Token>, upto: int) -> bool {
    &&& forall|i: int| 0 <= i < toks.len() ==> token_of(chars, #[trigger] toks[i])
    &&& forall|i: int| 0 <= i < toks.len() ==> (#[trigger] toks[i]).span.end <= upto
    &&& forall|i: int, j: int| 0 <= i < j < toks.len() ==> (#[trigger] toks[i]).span.end < (#[trigger] toks[j]).span.start
    &&& forall|k: int| 0 <= k < upto && !spec_is_whitespace(#[trigger] chars[k]) ==>
            exists|i: int| 0 <= i < toks.len() && (#[trigger] toks[i]).span.start <= k < toks[i].span.end
}

/// Splits a source into its tokens: the maximal runs of characters that are not white space.
pub fn tokenize(chars: &Vec<char>) -> (toks: Vec<Token>)
    ensures
        tokens_of(chars@, toks@, chars@.len() as int),
{
    let mut toks: Vec<Token> = Vec::new();
    let mut i: usize = 0;
    while i < chars.len()
        invariant
            i <= chars.len(),
            tokens_of(chars@, toks@, i as int),
            i < chars.len() && i > 0 && !spec_is_whitespace(chars@[i as int]) ==> spec_is_whitespace(chars@[i - 1]),
        decreases chars.len() - i,
    {
        if is_whitespace(chars[i]) {
            proof {
                let ghost old_toks = toks@;
                assert forall|k: int| 0 <= k < i + 1 && !spec_is_whitespace(#[trigger] chars@[k]) implies
                    exists|t: int| 0 <= t < toks@.len() && (#[trigger] toks@[t]).span.start <= k < toks@[t].span.end by {
                    assert(k < i);
                }
            }
            i = i + 1;
        } else {
            let start = i;
            let mut string = String::new();
            while i < chars.len() && !is_whitespace(chars[i])
                invariant
                    start <= i <= chars.len(),
                    string@ == chars@.subrange(start as int, i as int),
                    forall|k: int| start <= k < i ==> !spec_is_whitespace(#[trigger] chars@[k]),
                decreases chars.len() - i,
            {
                push_char(&mut string, chars[i]);
                i = i + 1;
            }
            let tok = Token { string, span: Span { start, end: i } };
            let ghost before = toks@;
            toks.push(tok);
            proof {
                assert(toks@[toks@.len() - 1] == tok);
                assert forall|a: int| 0 <= a < toks@.len() implies token_of(chars@, #[trigger] toks@[a]) by {
                    if a < before.len() {
                        assert(toks@[a] == before[a]);
                    }
                }
                assert forall|a: int, b: int| 0 <= a < b < toks@.len() implies (#[trigger] toks@[a]).span.end < (#[trigger] toks@[b]).span.start by {
                    if b < before.len() {
                        assert(toks@[a] == before[a]);
                        assert(toks@[b] == before[b]);
                    } else {
                        assert(toks@[a] == before[a]);
                    }
                }
                assert forall|k: int| 0 <= k < i && !spec_is_whitespace(#[trigger] chars@[k]) implies
                    exists|t: int| 0 <= t < toks@.len() && (#[trigger] toks@[t]).span.start <= k < toks@[t].span.end by {
                    if k < start {
                        let t = choose|t: int| 0 <= t < before.len() && (#[trigger] before[t]).span.start <= k < before[t].span.end;
                        assert(toks@[t] == before[t]);
                    } else {
                        assert(toks@[before.len() as int] == tok);
                    }
                }
            }
        }
    }
    toks
}

} // verus!

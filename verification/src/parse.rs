use vstd::prelude::*;
use crate::lex::Token;
use crate::span::{Error, Span};
use crate::syntax::{is_keyword, is_keeping_keyword};
use crate::text::{append_str, text};

pub mod number;
pub mod expr;
pub mod types;
pub mod stmt;

verus! {

/// A parsed unit with the span of tokens it was parsed from.
#[derive(Debug)]
pub struct PU<P> {
    pub span: Span,
    pub item: P,
}

impl<P> PU<P> {
    pub fn new(span: Span, item: P) -> (pu: PU<P>)
        ensures
            pu.span == span,
            pu.item == item,
    {
        PU { span, item }
    }

    pub fn get_span(&self) -> (s: Span)
        ensures
            s == self.span,
    {
        self.span
    }

    pub fn take(self) -> (p: P)
        ensures
            p == self.item,
    {
        self.item
    }
}

/// Why a parse failed: the tokens do not start with the unit (another unit may be tried
/// there), or they do but are malformed (parsing stops).
#[derive(Debug)]
pub enum ParseError {
    Unmatch(Error),
    Fatal(Error),
}

/// The result of parsing a unit at a position: the unit and the position after it.
pub type ParseResult<T> = Result<(T, usize), ParseError>;

/// The texts of the tokens.
pub open spec fn words(toks: Seq<Token>) -> Seq<Seq<char>> {
    toks.map_values(|t: Token| t.string@)
}

/// Whether the token at `pos` is `w`.
pub open spec fn word_at(toks: Seq<Token>, pos: int, w: Seq<char>) -> bool {
    0 <= pos < toks.len() && toks[pos].string@ == w
}

/// The spans of parsed units, in order.
pub open spec fn pu_spans<P>(ps: Seq<PU<P>>) -> Seq<Span> {
    ps.map_values(|p: PU<P>| p.span)
}

pub(crate) proof fn lemma_pu_spans_push<P>(ps: Seq<PU<P>>, p: PU<P>)
    ensures
        pu_spans(ps.push(p)) == pu_spans(ps).push(p.span),
{
    assert(pu_spans(ps.push(p)) =~= pu_spans(ps).push(p.span));
}

/// Spans that follow each other from `pos` to `end`, none of them empty, with one `sep`
/// token between two of them (where there is none, `pos == end`).
pub open spec fn spans_separated(toks: Seq<Token>, spans: Seq<Span>, sep: Seq<char>, pos: int, end: int) -> bool {
    &&& spans.len() == 0 ==> pos == end
    &&& spans.len() > 0 ==> spans[0].start == pos && spans.last().end == end
    &&& forall|i: int| 0 <= i < spans.len() ==> (#[trigger] spans[i]).start < spans[i].end
    &&& forall|i: int| 0 <= i < spans.len() - 1 ==> word_at(toks, (#[trigger] spans[i]).end as int, sep)
            && spans[i + 1].start == spans[i].end + 1
}

/// Spans that follow each other from `pos` to `end` with nothing between them, none empty.
pub open spec fn spans_adjacent(spans: Seq<Span>, pos: int, end: int) -> bool {
    &&& spans.len() == 0 ==> pos == end
    &&& spans.len() > 0 ==> spans[0].start == pos && spans.last().end == end
    &&& forall|i: int| 0 <= i < spans.len() ==> (#[trigger] spans[i]).start < spans[i].end
    &&& forall|i: int| 0 <= i < spans.len() - 1 ==> spans[i + 1].start == (#[trigger] spans[i]).end
}

proof fn lemma_separated_push(toks: Seq<Token>, spans: Seq<Span>, sep: Seq<char>, pos: int, mid: int, s: Span)
    requires
        spans_separated(toks, spans, sep, pos, mid),
        spans.len() > 0,
        word_at(toks, mid, sep),
        s.start == mid + 1,
        s.start < s.end,
    ensures
        spans_separated(toks, spans.push(s), sep, pos, s.end as int),
{
    let n = spans.push(s);
    assert forall|i: int| 0 <= i < n.len() - 1 implies word_at(toks, (#[trigger] n[i]).end as int, sep)
        && n[i + 1].start == n[i].end + 1 by {
        if i < spans.len() - 1 {
            assert(n[i] == spans[i] && n[i + 1] == spans[i + 1]);
        } else {
            assert(n[i] == spans.last());
        }
    }
    assert forall|i: int| 0 <= i < n.len() implies (#[trigger] n[i]).start < n[i].end by {
        if i < spans.len() {
            assert(n[i] == spans[i]);
        }
    }
}

proof fn lemma_separated_first(toks: Seq<Token>, sep: Seq<char>, s: Span)
    requires
        s.start < s.end,
    ensures
        spans_separated(toks, seq![s], sep, s.start as int, s.end as int),
{
}

proof fn lemma_adjacent_push(spans: Seq<Span>, pos: int, mid: int, s: Span)
    requires
        spans_adjacent(spans, pos, mid),
        s.start == mid,
        s.start < s.end,
    ensures
        spans_adjacent(spans.push(s), pos, s.end as int),
{
    let n = spans.push(s);
    assert forall|i: int| 0 <= i < n.len() - 1 implies n[i + 1].start == (#[trigger] n[i]).end by {
        if i < spans.len() - 1 {
            assert(n[i] == spans[i] && n[i + 1] == spans[i + 1]);
        } else {
            assert(n[i] == spans.last());
        }
    }
    assert forall|i: int| 0 <= i < n.len() implies (#[trigger] n[i]).start < n[i].end by {
        if i < spans.len() {
            assert(n[i] == spans[i]);
        }
    }
}

/// Whether a result parsed at `pos` ended after it, within the tokens.
pub open spec fn advanced<T>(r: ParseResult<T>, pos: int, len: int) -> bool {
    r matches Ok((_, end)) ==> pos < end <= len
}

/// A failure that another alternative may follow.
pub fn unmatch<T>(at: usize, reason: &str) -> (r: ParseResult<T>)
    ensures
        r matches Err(ParseError::Unmatch(_)),
{
    Err(ParseError::Unmatch(Error::new(Span::new(at, at + if at < usize::MAX { 1 } else { 0 }), text(reason))))
}

/// A failure that stops parsing.
pub fn fatal<T>(span: Span, reason: &str) -> (r: ParseResult<T>)
    ensures
        r matches Err(ParseError::Fatal(_)),
{
    Err(ParseError::Fatal(Error::new(span, text(reason))))
}

/// Turns an unmatch into a fatal error: the unit must be there.
pub fn must_match<T>(r: ParseResult<T>) -> (m: ParseResult<T>)
    ensures
        r is Ok ==> m == r,
        r is Err ==> m matches Err(ParseError::Fatal(_)),
{
    match r {
        Ok(v) => Ok(v),
        Err(ParseError::Unmatch(e)) => Err(ParseError::Fatal(e)),
        Err(ParseError::Fatal(e)) => Err(ParseError::Fatal(e)),
    }
}

/// Whether the token at `pos` is the keyword `kw`.
pub fn is_word(toks: &Vec<Token>, pos: usize, kw: &str) -> (b: bool)
    ensures
        b == word_at(toks@, pos as int, kw@),
        b ==> pos < toks.len(),
{
    if pos < toks.len() {
        crate::declare::defs::str_eq(toks[pos].as_str(), kw)
    } else {
        false
    }
}

/// Consumes the keyword `kw` at `pos`.
pub fn match_word(toks: &Vec<Token>, pos: usize, kw: &str) -> (r: ParseResult<()>)
    ensures
        r is Ok <==> word_at(toks@, pos as int, kw@),
        r matches Ok((_, end)) ==> end == pos + 1,
        r is Err ==> r matches Err(ParseError::Unmatch(_)),
{
    if is_word(toks, pos, kw) {
        assert(pos < toks.len());
        Ok(((), pos + 1))
    } else {
        let mut reason = text("expect `");
        append_str(&mut reason, kw);
        append_str(&mut reason, "`");
        Err(ParseError::Unmatch(Error::new(Span::new(pos, pos), reason)))
    }
}

/// Consumes any token at `pos`.
pub fn next_token(toks: &Vec<Token>, pos: usize) -> (r: ParseResult<Token>)
    ensures
        r is Ok <==> pos < toks.len(),
        r matches Ok((t, end)) ==> end == pos + 1 && t.string@ == toks@[pos as int].string@
            && t.span == toks@[pos as int].span,
        r is Err ==> r matches Err(ParseError::Unmatch(_)),
{
    if pos < toks.len() {
        Ok((Token::new(toks[pos].string.clone(), toks[pos].span), pos + 1))
    } else {
        unmatch(pos, "no token left")
    }
}

/// An identifier: a token that is no keyword and does not start with an ASCII digit.
#[derive(Debug)]
pub struct Ident(pub Token);

impl Ident {
    pub fn as_str(&self) -> (s: &str)
        ensures
            s@ == self.0.string@,
    {
        self.0.as_str()
    }

    pub fn to_string(&self) -> (s: String)
        ensures
            s@ == self.0.string@,
    {
        self.0.string.clone()
    }
}

pub open spec fn is_ascii_digit(c: char) -> bool {
    '0' <= c && c <= '9'
}

/// `fen1`, which ends a statement, is no operator.
pub proof fn lemma_fen1_no_operator()
    ensures
        forall|op: crate::ops::Operators| #[trigger] crate::ops::op_keyword(op) != "fen1"@,
{
    reveal_strlit("fen1");
    reveal_strlit("jia1");
    reveal_strlit("jian3");
    reveal_strlit("cheng2");
    reveal_strlit("chu2");
    reveal_strlit("mo2");
    reveal_strlit("mi4");
    reveal_strlit("dui4");
    reveal_strlit("tong2");
    reveal_strlit("fei1tong2");
    reveal_strlit("da4");
    reveal_strlit("xiao3");
    reveal_strlit("da4deng3");
    reveal_strlit("xiao3deng3");
    reveal_strlit("yu3");
    reveal_strlit("huo4");
    reveal_strlit("fei1");
    reveal_strlit("wei4yu3");
    reveal_strlit("wei4huo4");
    reveal_strlit("wei4fei1");
    reveal_strlit("wei4yi4huo4");
    reveal_strlit("zuo3yi2");
    reveal_strlit("you4yi2");
    reveal_strlit("qu3zhi3");
    reveal_strlit("fang3zhi3");
    reveal_strlit("fang3su4");
    reveal_strlit("zhuan3");
    reveal_strlit("chang2du4");
    reveal_strlit("jie2");
    reveal_strlit("he2");
    assert forall|op: crate::ops::Operators| #[trigger] crate::ops::op_keyword(op) != "fen1"@ by {
        let k = crate::ops::op_keyword(op);
        if k == "fen1"@ {
            assert(k.len() == 4 && k[0] == 'f' && k[1] == 'e' && k[2] == 'n');
        }
    }
}

/// A number starts with a digit or `+`, so it is no operator, and neither `wen2` nor
/// `chuan4`.
pub proof fn lemma_number_no_keyword(s: Seq<char>)
    requires
        crate::parse::number::spec_parse_usize(s) is Some,
    ensures
        forall|op: crate::ops::Operators| #[trigger] crate::ops::op_keyword(op) != s,
        s != "wen2"@,
        s != "chuan4"@,
{
    assert(s.len() > 0 && (s[0] == '+' || is_ascii_digit(s[0]))) by {
        let d = crate::parse::number::strip_plus(s);
        if !(s.len() > 0 && s[0] == '+') {
            assert(is_ascii_digit(d[0]));
        }
    }
    reveal_strlit("jia1");
    reveal_strlit("jian3");
    reveal_strlit("cheng2");
    reveal_strlit("chu2");
    reveal_strlit("mo2");
    reveal_strlit("mi4");
    reveal_strlit("dui4");
    reveal_strlit("tong2");
    reveal_strlit("fei1tong2");
    reveal_strlit("da4");
    reveal_strlit("xiao3");
    reveal_strlit("da4deng3");
    reveal_strlit("xiao3deng3");
    reveal_strlit("yu3");
    reveal_strlit("huo4");
    reveal_strlit("fei1");
    reveal_strlit("wei4yu3");
    reveal_strlit("wei4huo4");
    reveal_strlit("wei4fei1");
    reveal_strlit("wei4yi4huo4");
    reveal_strlit("zuo3yi2");
    reveal_strlit("you4yi2");
    reveal_strlit("qu3zhi3");
    reveal_strlit("fang3zhi3");
    reveal_strlit("fang3su4");
    reveal_strlit("zhuan3");
    reveal_strlit("chang2du4");
    reveal_strlit("jie2");
    reveal_strlit("he2");
    reveal_strlit("wen2");
    reveal_strlit("chuan4");
    assert forall|op: crate::ops::Operators| #[trigger] crate::ops::op_keyword(op) != s by {
        let k = crate::ops::op_keyword(op);
        if k == s {
            assert(k[0] == s[0]);
        }
    }
    let w = "wen2"@;
    let c = "chuan4"@;
    assert(w[0] == 'w' && c[0] == 'c');
}

/// Whether a word may name something.
pub open spec fn is_ident_text(s: Seq<char>) -> bool {
    !(s.len() > 0 && is_ascii_digit(s[0])) && !is_keyword(s)
}

/// Parses an identifier at `pos`.
pub fn parse_ident(toks: &Vec<Token>, pos: usize) -> (r: ParseResult<Ident>)
    ensures
        r is Ok <==> pos < toks.len() && is_ident_text(toks@[pos as int].string@),
        r matches Ok((id, end)) ==> end == pos + 1 && id.0.string@ == toks@[pos as int].string@,
        r is Err ==> r matches Err(ParseError::Unmatch(_)),
{
    if pos >= toks.len() {
        return unmatch(pos, "expect a `Ident`, but no token left");
    }
    let s = toks[pos].as_str();
    let chars = crate::lex::chars_of(s);
    if chars.len() > 0 && '0' <= chars[0] && chars[0] <= '9' {
        return unmatch(pos, "bad ident! ident should not start with a digit");
    }
    if is_keeping_keyword(s) {
        return unmatch(pos, "keeping keywords could not be ident");
    }
    Ok((Ident(Token::new(toks[pos].string.clone(), toks[pos].span)), pos + 1))
}

} // verus!

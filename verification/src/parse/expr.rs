use vstd::prelude::*;
use vstd::multiset::Multiset;
use crate::lex::{chars_of, Token};
use crate::ops::{binding_level, is_binary_operator, op_keyword, operator_of, OperatorAssociativity, OperatorTypes, Operators};
use crate::parse::number::{f_float_decimal, float_token_text, is_float, is_float_text, is_float_token, parse_usize, spec_parse_usize};
use crate::parse::{
    advanced, fatal, is_word, lemma_adjacent_push, lemma_separated_first, lemma_separated_push,
    match_word, must_match, next_token, parse_ident, spans_adjacent, spans_separated, word_at,
    Ident, ParseError, ParseResult, PU,
};
use crate::parse::{is_ident_text, lemma_fen1_no_operator, lemma_number_no_keyword};
use crate::syntax::{is_keyword, other_keywords};
use crate::semantic::support::{item_delta, item_fits, rpn_depth, rpn_ok};
use crate::span::{Error, Span};
use crate::text::text;
use crate::types::push_char;

verus! {

/// A character literal: `wen2` and the character, or `_` and an escape.
#[derive(Debug)]
pub struct CharLiteral {
    pub parsed: char,
}

/// A string literal: `chuan4` and its text, with escapes.
#[derive(Debug)]
pub struct StringLiteral {
    pub parsed: String,
}

/// A number: an integer that fits in `usize`, else a float, kept as written.
#[derive(Debug)]
pub enum NumberLiteral {
    Float { number: String },
    Digit { number: usize },
}

/// The arguments of a call: `ya1`, expressions separated by `fen1`, `ru4`.
#[derive(Debug)]
pub struct FnCallArgs {
    pub args: Vec<Expr>,
}

/// A call: its arguments, then the name of the function.
#[derive(Debug)]
pub struct FnCall {
    pub span: Span,
    pub fn_name: Ident,
    pub args: FnCallArgs,
}

/// An array: `zu3`, expressions, `he2`.
#[derive(Debug)]
pub struct Array {
    pub elements: Vec<Expr>,
}

#[derive(Debug)]
pub enum AtomicExpr {
    CharLiteral(CharLiteral),
    StringLiteral(StringLiteral),
    NumberLiteral(NumberLiteral),
    FnCall(FnCall),
    Array(Array),
    Variable(Ident),
}

/// An item of an expression: an operand or an operator.
#[derive(Debug)]
pub enum ExprItem {
    AtomicExpr(PU<AtomicExpr>),
    Operators(PU<Operators>),
}

/// An expression, its items in postfix order.
#[derive(Debug)]
pub struct Expr {
    pub items: Vec<ExprItem>,
    pub span: Span,
}

/// The character an escape stands for: `_` for `_`, `t` for a tab, `n` for a new line and
/// `s` for a space.
pub open spec fn escape_of(c: char) -> Option<char> {
    if c == '_' {
        Some('_')
    } else if c == 't' {
        Some('\t')
    } else if c == 'n' {
        Some('\n')
    } else if c == 's' {
        Some(' ')
    } else {
        None
    }
}

pub fn escape(c: char) -> (r: Option<char>)
    ensures
        r == escape_of(c),
{
    if c == '_' {
        Some('_')
    } else if c == 't' {
        Some('\t')
    } else if c == 'n' {
        Some('\n')
    } else if c == 's' {
        Some(' ')
    } else {
        None
    }
}

pub open spec fn is_ascii(c: char) -> bool {
    c <= '\x7f'
}

/// The character a character literal's text stands for: one ASCII character, or `_` and an
/// ASCII escape.
pub open spec fn char_literal_value(s: Seq<char>) -> Option<char> {
    if s.len() == 1 && is_ascii(s[0]) {
        Some(s[0])
    } else if s.len() == 2 && s[0] == '_' && is_ascii(s[1]) {
        escape_of(s[1])
    } else {
        None
    }
}

/// The text a string literal's text stands for, where every escape is valid.
pub open spec fn unescape(s: Seq<char>) -> Option<Seq<char>>
    decreases s.len(),
{
    if s.len() == 0 {
        Some(Seq::empty())
    } else if s[0] == '_' {
        if s.len() < 2 {
            None
        } else {
            match escape_of(s[1]) {
                Some(c) => match unescape(s.skip(2)) {
                    Some(rest) => Some(seq![c] + rest),
                    None => None,
                },
                None => None,
            }
        }
    } else {
        match unescape(s.skip(1)) {
            Some(rest) => Some(seq![s[0]] + rest),
            None => None,
        }
    }
}

/// Parses a character literal.
pub fn parse_char_literal(toks: &Vec<Token>, pos: usize) -> (r: ParseResult<CharLiteral>)
    ensures
        r is Ok <==> word_at(toks@, pos as int, "wen2"@) && pos + 1 < toks.len()
            && char_literal_value(toks@[pos + 1].string@) is Some,
        r matches Ok((c, end)) ==> end == pos + 2 && Some(c.parsed) == char_literal_value(toks@[pos + 1].string@),
        r matches Err(ParseError::Unmatch(_)) ==> !word_at(toks@, pos as int, "wen2"@) || pos + 1 >= toks.len(),
        !word_at(toks@, pos as int, "wen2"@) ==> r matches Err(ParseError::Unmatch(_)),
{
    match match_word(toks, pos, "wen2") {
        Ok(_) => {},
        Err(e) => return Err(e),
    }
    let (tok, end) = match next_token(toks, pos + 1) {
        Ok(v) => v,
        Err(e) => return Err(e),
    };
    let s = chars_of(tok.as_str());
    if s.len() == 1 && s[0] <= '\x7f' {
        return Ok((CharLiteral { parsed: s[0] }, end));
    }
    if s.len() == 2 && s[0] == '_' && s[1] <= '\x7f' {
        match escape(s[1]) {
            Some(c) => return Ok((CharLiteral { parsed: c }, end)),
            None => return fatal(Span::new(pos + 1, end), "Invalid or unsupported escape character"),
        }
    }
    fatal(Span::new(pos + 1, end), "Invalid CharLiteral")
}

/// Replaces the escapes of a text.
pub fn unescape_text(s: &Vec<char>) -> (r: Option<String>)
    ensures
        r matches Some(t) ==> unescape(s@) == Some(t@),
        r is None <==> unescape(s@) is None,
{
    let mut out = String::new();
    let mut i: usize = 0;
    assert(s@.skip(0) == s@);
    proof {
        match unescape(s@) {
            Some(rest) => assert(out@ + rest == rest),
            None => {},
        }
    }
    while i < s.len()
        invariant
            i <= s.len(),
            unescape(s@) == (match unescape(s@.skip(i as int)) {
                Some(rest) => Some(out@ + rest),
                None => None,
            }),
        decreases s.len() - i,
    {
        let ghost rest = s@.skip(i as int);
        if s[i] == '_' {
            if i + 1 >= s.len() {
                return None;
            }
            match escape(s[i + 1]) {
                Some(c) => {
                    proof {
                        assert(rest.skip(2) == s@.skip(i + 2));
                    }
                    push_char(&mut out, c);
                    i = i + 2;
                    proof {
                        match unescape(s@.skip(i as int)) {
                            Some(r2) => assert(out@ + r2 == (out@.drop_last()) + (seq![c] + r2)),
                            None => {},
                        }
                    }
                }
                None => return None,
            }
        } else {
            let c = s[i];
            proof {
                assert(rest.skip(1) == s@.skip(i + 1));
            }
            push_char(&mut out, c);
            i = i + 1;
            proof {
                match unescape(s@.skip(i as int)) {
                    Some(r2) => assert(out@ + r2 == (out@.drop_last()) + (seq![c] + r2)),
                    None => {},
                }
            }
        }
    }
    assert(s@.skip(i as int) == Seq::<char>::empty());
    assert(out@ + Seq::<char>::empty() == out@);
    Some(out)
}

/// Parses a string literal.
pub fn parse_string_literal(toks: &Vec<Token>, pos: usize) -> (r: ParseResult<StringLiteral>)
    ensures
        r is Ok <==> word_at(toks@, pos as int, "chuan4"@) && pos + 1 < toks.len()
            && unescape(toks@[pos + 1].string@) is Some,
        r matches Ok((c, end)) ==> end == pos + 2 && Some(c.parsed@) == unescape(toks@[pos + 1].string@),
        r matches Err(ParseError::Unmatch(_)) ==> !word_at(toks@, pos as int, "chuan4"@) || pos + 1 >= toks.len(),
        !word_at(toks@, pos as int, "chuan4"@) ==> r matches Err(ParseError::Unmatch(_)),
{
    match match_word(toks, pos, "chuan4") {
        Ok(_) => {},
        Err(e) => return Err(e),
    }
    let (tok, end) = match next_token(toks, pos + 1) {
        Ok(v) => v,
        Err(e) => return Err(e),
    };
    let s = chars_of(tok.as_str());
    match unescape_text(&s) {
        Some(parsed) => Ok((StringLiteral { parsed }, end)),
        None => fatal(Span::new(pos + 1, end), "Invalid escape! maybe you losted a character"),
    }
}

/// Parses a number: an integer where `usize::from_str` accepts the token, else a float
/// where `f64::from_str` does or where it is written with `f` for its point.
pub fn parse_number_literal(toks: &Vec<Token>, pos: usize) -> (r: ParseResult<NumberLiteral>)
    ensures
        r is Ok <==> pos < toks.len() && (spec_parse_usize(toks@[pos as int].string@) is Some
            || is_float_token(toks@[pos as int].string@)),
        r matches Ok((n, end)) ==> end == pos + 1 && match n {
            NumberLiteral::Digit { number } => spec_parse_usize(toks@[pos as int].string@) == Some(number),
            NumberLiteral::Float { number } => spec_parse_usize(toks@[pos as int].string@) is None
                && number@ == float_token_text(toks@[pos as int].string@),
        },
        r is Err ==> r matches Err(ParseError::Unmatch(_)),
{
    let (tok, end) = match next_token(toks, pos) {
        Ok(v) => v,
        Err(e) => return Err(e),
    };
    let s = chars_of(tok.as_str());
    match parse_usize(&s) {
        Some(number) => Ok((NumberLiteral::Digit { number }, end)),
        None => {
            if is_float(&s) {
                Ok((NumberLiteral::Float { number: tok.string }, end))
            } else {
                match f_float_decimal(&s) {
                    Some(number) => Ok((NumberLiteral::Float { number }, end)),
                    None => crate::parse::unmatch(pos, "invalid number"),
                }
            }
        }
    }
}

/// Parses an operator.
pub fn parse_operator(toks: &Vec<Token>, pos: usize) -> (r: ParseResult<Operators>)
    ensures
        r matches Ok((op, end)) ==> end == pos + 1 && word_at(toks@, pos as int, op_keyword(op)),
        r is Err ==> r matches Err(ParseError::Unmatch(_)),
        r is Err ==> forall|op: Operators| !word_at(toks@, pos as int, #[trigger] op_keyword(op)),
{
    if pos >= toks.len() {
        return crate::parse::unmatch(pos, "expect an operator, but there are no token left");
    }
    match operator_of(toks[pos].as_str()) {
        Some(op) => Ok((op, pos + 1)),
        None => crate::parse::unmatch(pos, "expect an operator"),
    }
}

/// The spans of expressions, in order.
pub open spec fn expr_spans(es: Seq<Expr>) -> Seq<Span> {
    es.map_values(|e: Expr| e.span)
}

pub(crate) proof fn lemma_expr_spans_push(es: Seq<Expr>, e: Expr)
    ensures
        expr_spans(es.push(e)) == expr_spans(es).push(e.span),
{
    assert(expr_spans(es.push(e)) =~= expr_spans(es).push(e.span));
}

/// `ya1`, the arguments separated by `fen1`, `ru4`: the tokens `pos..end` of the arguments
/// of a call.
pub open spec fn args_at(toks: Seq<Token>, a: FnCallArgs, pos: int, end: int) -> bool {
    &&& word_at(toks, pos, "ya1"@)
    &&& word_at(toks, end - 1, "ru4"@)
    &&& spans_separated(toks, expr_spans(a.args@), "fen1"@, pos + 1, end - 1)
}

/// Parses the arguments of a call.
#[verifier::spinoff_prover]
#[verifier::rlimit(30)]
pub fn parse_fn_call_args(toks: &Vec<Token>, pos: usize) -> (r: ParseResult<FnCallArgs>)
    requires
        pos <= toks.len(),
    ensures
        advanced(r, pos as int, toks.len() as int),
        r is Ok ==> word_at(toks@, pos as int, "ya1"@),
        r matches Ok((a, end)) ==> args_at(toks@, a, pos as int, end as int)
            && forall|i: int| 0 <= i < a.args@.len() ==>
                expr_at(toks@, #[trigger] a.args@[i], a.args@[i].span.start as int, a.args@[i].span.end as int),
        !word_at(toks@, pos as int, "ya1"@) ==> r matches Err(ParseError::Unmatch(_)),
    decreases toks.len() - pos, 0int,
{
    match match_word(toks, pos, "ya1") {
        Ok(_) => {},
        Err(e) => return Err(e),
    }
    let mut cur = pos + 1;
    let first = match parse_expr(toks, cur) {
        Ok((e, end)) => {
            cur = end;
            e
        }
        Err(ParseError::Unmatch(_)) => {
            return match must_match(match_word(toks, cur, "ru4")) {
                Ok((_, end)) => {
                    let args: Vec<Expr> = Vec::new();
                    assert(expr_spans(args@) =~= Seq::<Span>::empty());
                    Ok((FnCallArgs { args }, end))
                },
                Err(e) => Err(e),
            };
        }
        Err(e) => return Err(e),
    };
    let mut args = Vec::new();
    proof {
        lemma_expr_spans_push(args@, first);
        lemma_separated_first(toks@, "fen1"@, first.span);
        assert(expr_spans(Seq::<Expr>::empty()) =~= Seq::<Span>::empty());
        assert(Seq::<Span>::empty().push(first.span) =~= seq![first.span]);
    }
    args.push(first);
    loop
        invariant
            pos < cur <= toks.len(),
            word_at(toks@, pos as int, "ya1"@),
            args@.len() > 0,
            spans_separated(toks@, expr_spans(args@), "fen1"@, pos + 1, cur as int),
            forall|i: int| 0 <= i < args@.len() ==>
                expr_at(toks@, #[trigger] args@[i], args@[i].span.start as int, args@[i].span.end as int),
        decreases toks.len() - cur,
    {
        if !is_word(toks, cur, "fen1") {
            break;
        }
        match parse_expr(toks, cur + 1) {
            Ok((e, end)) => {
                proof {
                    lemma_expr_spans_push(args@, e);
                    lemma_separated_push(toks@, expr_spans(args@), "fen1"@, pos + 1, cur as int, e.span);
                }
                args.push(e);
                cur = end;
            }
            Err(e) => return Err(e),
        }
    }
    match must_match(match_word(toks, cur, "ru4")) {
        Ok((_, end)) => Ok((FnCallArgs { args }, end)),
        Err(e) => Err(e),
    }
}

/// Parses a call: its arguments, then the name of the function.
#[verifier::spinoff_prover]
#[verifier::rlimit(30)]
pub fn parse_fn_call(toks: &Vec<Token>, pos: usize) -> (r: ParseResult<FnCall>)
    requires
        pos <= toks.len(),
    ensures
        advanced(r, pos as int, toks.len() as int),
        r matches Ok((c, end)) ==> c.span == (Span { start: pos, end: end })
            && word_at(toks@, pos as int, "ya1"@)
            && c.fn_name.0.string@ == toks@[end - 1].string@
            && args_at(toks@, c.args, pos as int, end - 1)
            && forall|i: int| 0 <= i < c.args.args@.len() ==>
                expr_at(toks@, #[trigger] c.args.args@[i], c.args.args@[i].span.start as int, c.args.args@[i].span.end as int),
        !word_at(toks@, pos as int, "ya1"@) ==> r matches Err(ParseError::Unmatch(_)),
    decreases toks.len() - pos, 1int,
{
    let (args, cur) = match parse_fn_call_args(toks, pos) {
        Ok(v) => v,
        Err(e) => return Err(e),
    };
    let (fn_name, end) = match parse_ident(toks, cur) {
        Ok(v) => v,
        Err(e) => return Err(e),
    };
    Ok((FnCall { span: Span::new(pos, end), fn_name, args }, end))
}

/// Parses an array.
pub fn parse_array(toks: &Vec<Token>, pos: usize) -> (r: ParseResult<Array>)
    requires
        pos <= toks.len(),
    ensures
        advanced(r, pos as int, toks.len() as int),
        r matches Ok((a, end)) ==> word_at(toks@, pos as int, "zu3"@) && word_at(toks@, end - 1, "he2"@)
            && spans_adjacent(expr_spans(a.elements@), pos + 1, end - 1),
        !word_at(toks@, pos as int, "zu3"@) ==> r matches Err(ParseError::Unmatch(_)),
    decreases toks.len() - pos, 1int,
{
    match match_word(toks, pos, "zu3") {
        Ok(_) => {},
        Err(e) => return Err(e),
    }
    let mut cur = pos + 1;
    let mut elements = Vec::new();
    assert(expr_spans(elements@) =~= Seq::<Span>::empty());
    loop
        invariant
            pos < cur <= toks.len(),
            word_at(toks@, pos as int, "zu3"@),
            spans_adjacent(expr_spans(elements@), pos + 1, cur as int),
        decreases toks.len() - cur,
    {
        match parse_expr(toks, cur) {
            Ok((e, end)) => {
                proof {
                    lemma_expr_spans_push(elements@, e);
                    lemma_adjacent_push(expr_spans(elements@), pos + 1, cur as int, e.span);
                }
                elements.push(e);
                cur = end;
            }
            Err(ParseError::Unmatch(_)) => break,
            Err(e) => return Err(e),
        }
    }
    match must_match(match_word(toks, cur, "he2")) {
        Ok((_, end)) => Ok((Array { elements }, end)),
        Err(e) => Err(e),
    }
}

/// An operand read from the tokens `pos..end`: a character literal (`wen2` and its text), a
/// string literal (`chuan4` and its text), a number (one token), a call (its arguments, then
/// the name), an array (`zu3`, expressions, `he2`) or a variable (one identifier).
pub open spec fn atomic_at(toks: Seq<Token>, a: AtomicExpr, pos: int, end: int) -> bool {
    match a {
        AtomicExpr::CharLiteral(c) => word_at(toks, pos, "wen2"@) && end == pos + 2 && end <= toks.len()
            && char_literal_value(toks[pos + 1].string@) == Some(c.parsed),
        AtomicExpr::StringLiteral(t) => word_at(toks, pos, "chuan4"@) && end == pos + 2 && end <= toks.len()
            && unescape(toks[pos + 1].string@) == Some(t.parsed@),
        AtomicExpr::NumberLiteral(n) => end == pos + 1 && 0 <= pos < toks.len() && match n {
            NumberLiteral::Digit { number } => spec_parse_usize(toks[pos].string@) == Some(number),
            NumberLiteral::Float { number } => spec_parse_usize(toks[pos].string@) is None
                && is_float_token(toks[pos].string@) && number@ == float_token_text(toks[pos].string@),
        },
        AtomicExpr::FnCall(c) => c.span == (Span { start: pos as usize, end: end as usize })
            && 0 < end <= toks.len()
            && c.fn_name.0.string@ == toks[end - 1].string@
            && args_at(toks, c.args, pos, end - 1),
        AtomicExpr::Array(a) => word_at(toks, pos, "zu3"@) && word_at(toks, end - 1, "he2"@)
            && spans_adjacent(expr_spans(a.elements@), pos + 1, end - 1),
        AtomicExpr::Variable(v) => end == pos + 1 && 0 <= pos < toks.len()
            && v.0.string@ == toks[pos].string@,
    }
}

/// A token that is read as a variable: a word that may name something and is no number.
pub open spec fn variable_token(s: Seq<char>) -> bool {
    is_ident_text(s) && spec_parse_usize(s) is None && !is_float_text(s)
}

/// A token that is read as an operand on its own: a variable or a number.
pub open spec fn operand_token(s: Seq<char>) -> bool {
    variable_token(s) || spec_parse_usize(s) is Some
}

/// The token at `i`, if any, ends an expression whose last operand is before it: there is
/// no token there, or it is `fen1`, or it is no keyword.
pub open spec fn ends_operand(toks: Seq<Token>, i: int) -> bool {
    i >= toks.len() || word_at(toks, i, "fen1"@) || !is_keyword(toks[i].string@)
}

/// Parses an operand: a character, a string, a number, a call, an array or a variable,
/// tried in this order.
pub fn parse_atomic(toks: &Vec<Token>, pos: usize) -> (r: ParseResult<AtomicExpr>)
    requires
        pos <= toks.len(),
    ensures
        advanced(r, pos as int, toks.len() as int),
        pos >= toks.len() ==> r matches Err(ParseError::Unmatch(_)),
        r matches Ok((a, end)) ==> atomic_at(toks@, a, pos as int, end as int),
        pos < toks.len() && variable_token(toks@[pos as int].string@) ==> (r matches Ok((a, end)) && end == pos + 1 && a is Variable),
        pos < toks.len() && spec_parse_usize(toks@[pos as int].string@) is Some ==> (r matches Ok((a, end)) && end == pos + 1
            && (a matches AtomicExpr::NumberLiteral(NumberLiteral::Digit { number })
                && spec_parse_usize(toks@[pos as int].string@) == Some(number))),
    decreases toks.len() - pos, 2int,
{
    proof {
        if pos < toks.len() && spec_parse_usize(toks@[pos as int].string@) is Some {
            lemma_number_no_keyword(toks@[pos as int].string@);
        }
        if pos < toks.len() && crate::parse::number::is_f_float_text(toks@[pos as int].string@) {
            let t = toks@[pos as int].string@;
            let w = choose|w: int| 0 < w < t.len() - 1 && t[w] == 'f' && crate::parse::number::all_digits(#[trigger] t.take(w))
                && crate::parse::number::all_digits(t.skip(w + 1));
            assert(t.take(w)[0] == t[0]);
            assert(crate::parse::is_ascii_digit(t.take(w)[0]));
        }
        let k = other_keywords();
        assert(k[5] == "ya1"@);
        assert(k[9] == "zu3"@);
        assert(k[17] == "wen2"@);
        assert(k[18] == "chuan4"@);
    }
    match parse_char_literal(toks, pos) {
        Ok((c, end)) => return Ok((AtomicExpr::CharLiteral(c), end)),
        Err(ParseError::Unmatch(_)) => {},
        Err(e) => return Err(e),
    }
    match parse_string_literal(toks, pos) {
        Ok((s, end)) => return Ok((AtomicExpr::StringLiteral(s), end)),
        Err(ParseError::Unmatch(_)) => {},
        Err(e) => return Err(e),
    }
    match parse_number_literal(toks, pos) {
        Ok((n, end)) => return Ok((AtomicExpr::NumberLiteral(n), end)),
        Err(_) => {},
    }
    match parse_fn_call(toks, pos) {
        Ok((c, end)) => return Ok((AtomicExpr::FnCall(c), end)),
        Err(ParseError::Unmatch(_)) => {},
        Err(e) => return Err(e),
    }
    match parse_array(toks, pos) {
        Ok((a, end)) => return Ok((AtomicExpr::Array(a), end)),
        Err(ParseError::Unmatch(_)) => {},
        Err(e) => return Err(e),
    }
    match parse_ident(toks, pos) {
        Ok((v, end)) => Ok((AtomicExpr::Variable(v), end)),
        Err(e) => Err(e),
    }
}

/// Whether an item is an operator with the given arity.
pub open spec fn is_op_with(it: ExprItem, a: OperatorAssociativity) -> bool {
    it matches ExprItem::Operators(op) && op.item.spec_associativity() == a
}

/// The span of tokens an item was parsed from.
pub open spec fn item_span(it: ExprItem) -> Span {
    match it {
        ExprItem::AtomicExpr(a) => a.span,
        ExprItem::Operators(o) => o.span,
    }
}

/// An item stands on its tokens: an operator (or bracket) on the one token that is its
/// keyword, an operand on the tokens it was read from.
pub open spec fn item_on_tokens(toks: Seq<Token>, it: ExprItem) -> bool {
    match it {
        ExprItem::AtomicExpr(a) => a.span.start < a.span.end
            && atomic_at(toks, a.item, a.span.start as int, a.span.end as int),
        ExprItem::Operators(o) => o.span.end == o.span.start + 1
            && word_at(toks, o.span.start as int, op_keyword(o.item)),
    }
}

/// The items were read one after the other from the tokens `pos..end`, each on its own tokens.
pub open spec fn items_cover(toks: Seq<Token>, s: Seq<ExprItem>, pos: int, end: int) -> bool
    decreases s.len(),
{
    if s.len() == 0 {
        pos == end
    } else {
        &&& items_cover(toks, s.drop_last(), pos, item_span(s.last()).start as int)
        &&& item_span(s.last()).end == end
        &&& item_on_tokens(toks, s.last())
    }
}

/// One step of reading an expression written in infix order, from a state (whether an
/// operand is expected, how many brackets are open): where an operand is expected, an
/// opening bracket, a unary operator or an operand; after an operand, a closing bracket of
/// an open one or a binary operator. `None` where the item may not come.
pub open spec fn infix_step(expect: bool, depth: nat, it: ExprItem) -> Option<(bool, nat)> {
    match it {
        ExprItem::AtomicExpr(_) => if expect { Some((false, depth)) } else { None },
        ExprItem::Operators(o) => {
            if o.item == Operators::BracketL {
                if expect { Some((true, depth + 1)) } else { None }
            } else if o.item == Operators::BracketR {
                if !expect && depth > 0 { Some((false, (depth - 1) as nat)) } else { None }
            } else if o.item.spec_associativity() == OperatorAssociativity::Unary {
                if expect { Some((true, depth)) } else { None }
            } else if o.item.spec_associativity() == OperatorAssociativity::Binary {
                if !expect { Some((true, depth)) } else { None }
            } else {
                None
            }
        },
    }
}

/// The state after reading the items, from the start (an operand expected, no bracket open).
pub open spec fn infix_state(s: Seq<ExprItem>) -> Option<(bool, nat)>
    decreases s.len(),
{
    if s.len() == 0 {
        Some((true, 0nat))
    } else {
        match infix_state(s.drop_last()) {
            Some((expect, depth)) => infix_step(expect, depth, s.last()),
            None => None,
        }
    }
}

/// The items form a whole expression: they end after an operand, with every bracket closed.
pub open spec fn infix_complete(s: Seq<ExprItem>) -> bool {
    infix_state(s) == Some((false, 0nat))
}

/// Whether every operator written as `s` has the given associativity, and one is.
pub open spec fn only_ops_of(s: Seq<char>, a: OperatorAssociativity) -> bool {
    &&& exists|op: Operators| #[trigger] op_keyword(op) == s
    &&& forall|op: Operators| #[trigger] op_keyword(op) == s ==> op.spec_associativity() == a
}

/// How the token at `k` moves an infix expression of operand tokens, operator keywords and
/// brackets on from the state (an operand is expected, open brackets).
pub open spec fn token_step(toks: Seq<Token>, k: int, expect: bool, depth: nat) -> Option<(bool, nat)> {
    let s = toks[k].string@;
    if expect {
        if s == "jie2"@ {
            Some((true, depth + 1))
        } else if only_ops_of(s, OperatorAssociativity::Unary) {
            Some((true, depth))
        } else if operand_token(s) {
            Some((false, depth))
        } else {
            None
        }
    } else {
        if s == "he2"@ {
            if depth > 0 { Some((false, (depth - 1) as nat)) } else { None }
        } else if only_ops_of(s, OperatorAssociativity::Binary) {
            Some((true, depth))
        } else {
            None
        }
    }
}

/// The state after the tokens `pos..k`, if they can begin such an expression.
pub open spec fn token_run(toks: Seq<Token>, pos: int, k: int) -> Option<(bool, nat)>
    decreases k - pos,
{
    if k <= pos {
        Some((true, 0nat))
    } else {
        match token_run(toks, pos, k - 1) {
            Some((expect, depth)) => token_step(toks, k - 1, expect, depth),
            None => None,
        }
    }
}

/// The tokens `pos..end` form an infix expression of operand tokens, operator keywords and
/// brackets, and the token at `end` cannot continue it.
pub open spec fn token_expr_at(toks: Seq<Token>, pos: int, end: int) -> bool {
    &&& pos < end <= toks.len()
    &&& token_run(toks, pos, end) == Some((false, 0nat))
    &&& !word_at(toks, end, "he2"@)
    &&& forall|op: Operators| word_at(toks, end, #[trigger] op_keyword(op))
            ==> op.spec_associativity() != OperatorAssociativity::Binary
}

proof fn lemma_token_run_prefix(toks: Seq<Token>, pos: int, k: int, end: int)
    requires
        pos <= k <= end,
        token_run(toks, pos, end) is Some,
    ensures
        token_run(toks, pos, k) is Some,
    decreases end - k,
{
    if k < end {
        lemma_token_run_prefix(toks, pos, k + 1, end);
    }
}

/// Such an expression has one end.
proof fn lemma_token_expr_unique(toks: Seq<Token>, pos: int, e1: int, e2: int)
    requires
        0 <= pos,
        token_expr_at(toks, pos, e1),
        token_expr_at(toks, pos, e2),
    ensures
        e1 == e2,
{
    if e1 < e2 {
        lemma_token_run_prefix(toks, pos, e1 + 1, e2);
        assert(word_at(toks, e1, toks[e1].string@));
    } else if e2 < e1 {
        lemma_token_run_prefix(toks, pos, e2 + 1, e1);
        assert(word_at(toks, e2, toks[e2].string@));
    }
}

/// An operator keyword is no operand token.
proof fn lemma_op_not_operand(s: Seq<char>, op: Operators)
    requires
        op_keyword(op) == s,
    ensures
        !operand_token(s),
{
    assert(is_keyword(s));
    if spec_parse_usize(s) is Some {
        lemma_number_no_keyword(s);
    }
}

proof fn lemma_push_item(toks: Seq<Token>, s: Seq<ExprItem>, it: ExprItem, pos: int, mid: int, end: int)
    requires
        items_cover(toks, s, pos, mid),
        item_span(it).start == mid,
        item_span(it).end == end,
        item_on_tokens(toks, it),
    ensures
        items_cover(toks, s.push(it), pos, end),
        infix_state(s.push(it)) == (match infix_state(s) {
            Some((expect, depth)) => infix_step(expect, depth, it),
            None => None,
        }),
{
    assert(s.push(it).drop_last() == s);
    assert(s.push(it).last() == it);
}

/// Parses the items of an expression in the order they are written: operands, operators and
/// brackets, where every bracket is closed. The items follow the infix grammar and stand,
/// one after the other, on the tokens from `pos` to where the expression ends.
#[verifier::spinoff_prover]
#[verifier::rlimit(60)]
pub fn parse_expr_items(toks: &Vec<Token>, pos: usize) -> (r: ParseResult<Vec<ExprItem>>)
    requires
        pos <= toks.len(),
    ensures
        advanced(r, pos as int, toks.len() as int),
        pos >= toks.len() ==> r is Err,
        r matches Ok((s, end)) ==> infix_complete(s@) && items_cover(toks@, s@, pos as int, end as int)
            && !word_at(toks@, end as int, "he2"@),
        pos < toks.len() && operand_token(toks@[pos as int].string@) && ends_operand(toks@, pos + 1)
            ==> (r matches Ok((s, end)) && end == pos + 1 && s@.len() == 1),
        forall|e: int| #[trigger] token_expr_at(toks@, pos as int, e) ==> (r matches Ok((_, end)) && end == e),
    decreases toks.len() - pos, 3int,
{
    let ghost tgt: Option<int> = if exists|e: int| token_expr_at(toks@, pos as int, e) {
        Some(choose|e: int| token_expr_at(toks@, pos as int, e))
    } else {
        None
    };
    let ghost single = pos < toks.len() && operand_token(toks@[pos as int].string@) && ends_operand(toks@, pos + 1);
    proof {
        if single {
            lemma_fen1_no_operator();
            if spec_parse_usize(toks@[pos as int].string@) is Some {
                lemma_number_no_keyword(toks@[pos as int].string@);
            }
            assert(op_keyword(Operators::BracketL) == "jie2"@);
            assert(op_keyword(Operators::BracketR) == "he2"@);
            assert forall|op: Operators| !word_at(toks@, pos + 1, #[trigger] op_keyword(op)) by {
                if word_at(toks@, pos + 1, op_keyword(op)) {
                    assert(is_keyword(toks@[pos + 1].string@));
                }
            }
        }
    }
    let mut items: Vec<ExprItem> = Vec::new();
    let mut depth: usize = 0;
    let mut expect_val = true;
    let mut cur = pos;
    loop
        invariant
            single ==> forall|op: Operators| !word_at(toks@, pos as int, #[trigger] op_keyword(op)) && !word_at(toks@, pos + 1, op_keyword(op)),
            single ==> (cur == pos && expect_val && items@.len() == 0 && depth == 0)
                || (cur == pos + 1 && !expect_val && items@.len() == 1 && depth == 0),
            single == (pos < toks.len() && operand_token(toks@[pos as int].string@) && ends_operand(toks@, pos + 1)),
            single ==> !word_at(toks@, pos + 1, "he2"@) && !word_at(toks@, pos as int, "jie2"@),
            pos <= cur <= toks.len(),
            !expect_val ==> pos < cur,
            depth <= cur,
            infix_state(items@) == Some((expect_val, depth as nat)),
            items_cover(toks@, items@, pos as int, cur as int),
            tgt is None ==> forall|e: int| !#[trigger] token_expr_at(toks@, pos as int, e),
            tgt matches Some(e) ==> token_expr_at(toks@, pos as int, e) && cur <= e
                && token_run(toks@, pos as int, cur as int) == Some((expect_val, depth as nat)),
        decreases toks.len() - cur, if expect_val { 1int } else { 0int },
    {
        proof {
            if tgt is Some && cur < tgt->0 {
                lemma_token_run_prefix(toks@, pos as int, cur + 1, tgt->0);
            }
        }
        if expect_val {
            if is_word(toks, cur, "jie2") {
                let it = ExprItem::Operators(PU::new(Span::new(cur, cur + 1), Operators::BracketL));
                proof {
                    lemma_push_item(toks@, items@, it, pos as int, cur as int, cur + 1);
                }
                items.push(it);
                depth = depth + 1;
                cur = cur + 1;
            } else {
                match parse_operator(toks, cur) {
                    Ok((op, end)) => {
                        if op.associativity() == OperatorAssociativity::Unary {
                            let it = ExprItem::Operators(PU::new(Span::new(cur, end), op));
                            proof {
                                lemma_push_item(toks@, items@, it, pos as int, cur as int, end as int);
                                lemma_op_not_operand(toks@[cur as int].string@, op);
                            }
                            items.push(it);
                            cur = end;
                            continue;
                        }
                        proof {
                            lemma_op_not_operand(toks@[cur as int].string@, op);
                            if tgt is Some {
                                assert(token_step(toks@, cur as int, expect_val, depth as nat) is None);
                            }
                        }
                    }
                    Err(_) => {},
                }
                match parse_atomic(toks, cur) {
                    Ok((a, end)) => {
                        let it = ExprItem::AtomicExpr(PU::new(Span::new(cur, end), a));
                        proof {
                            lemma_push_item(toks@, items@, it, pos as int, cur as int, end as int);
                        }
                        items.push(it);
                        cur = end;
                        expect_val = false;
                    }
                    Err(e) => return Err(e),
                }
            }
        } else {
            if is_word(toks, cur, "he2") {
                if depth == 0 {
                    return fatal(Span::new(cur, cur + 1), "unmatched right bracket");
                }
                let it = ExprItem::Operators(PU::new(Span::new(cur, cur + 1), Operators::BracketR));
                proof {
                    lemma_push_item(toks@, items@, it, pos as int, cur as int, cur + 1);
                }
                items.push(it);
                depth = depth - 1;
                cur = cur + 1;
            } else {
                match parse_operator(toks, cur) {
                    Ok((op, end)) => {
                        if op.associativity() == OperatorAssociativity::Binary {
                            let it = ExprItem::Operators(PU::new(Span::new(cur, end), op));
                            proof {
                                lemma_push_item(toks@, items@, it, pos as int, cur as int, end as int);
                            }
                            items.push(it);
                            cur = end;
                            expect_val = true;
                            continue;
                        }
                        proof {
                            if tgt is Some {
                                assert(cur as int == tgt->0);
                            }
                        }
                    }
                    Err(_) => {
                        proof {
                            if tgt is Some && cur < tgt->0 {
                                let t = toks@[cur as int].string@;
                                if only_ops_of(t, OperatorAssociativity::Binary) {
                                    let op = choose|op: Operators| #[trigger] op_keyword(op) == t;
                                    assert(word_at(toks@, cur as int, op_keyword(op)));
                                }
                            }
                        }
                    },
                }
                if depth != 0 {
                    return fatal(Span::new(cur, cur), "unclosed bracket");
                }
                proof {
                    if tgt is Some {
                        let e0 = tgt->0;
                        assert forall|e: int| #[trigger] token_expr_at(toks@, pos as int, e) implies e == cur by {
                            lemma_token_expr_unique(toks@, pos as int, e0, e);
                        }
                    }
                }
                return Ok((items, cur));
            }
        }
    }
}

/// Whether no item of a postfix expression is a bracket.
pub open spec fn no_brackets(items: Seq<ExprItem>) -> bool {
    forall|i: int| 0 <= i < items.len() ==> !(#[trigger] items[i] matches ExprItem::Operators(op)
        && (op.item == Operators::BracketL || op.item == Operators::BracketR))
}

/// The operands among the items, in order.
pub open spec fn operands(s: Seq<ExprItem>) -> Seq<ExprItem>
    decreases s.len(),
{
    if s.len() == 0 {
        Seq::empty()
    } else if s.last() is AtomicExpr {
        operands(s.drop_last()).push(s.last())
    } else {
        operands(s.drop_last())
    }
}

pub open spec fn is_bracket(op: Operators) -> bool {
    op == Operators::BracketL || op == Operators::BracketR
}

/// The operators among the items, brackets left out.
pub open spec fn operators_of(s: Seq<ExprItem>) -> Multiset<PU<Operators>>
    decreases s.len(),
{
    if s.len() == 0 {
        Multiset::empty()
    } else {
        match s.last() {
            ExprItem::Operators(o) => if is_bracket(o.item) {
                operators_of(s.drop_last())
            } else {
                operators_of(s.drop_last()).insert(o)
            },
            ExprItem::AtomicExpr(_) => operators_of(s.drop_last()),
        }
    }
}

/// The operators of a stack, brackets left out.
pub open spec fn stacked_operators(s: Seq<PU<Operators>>) -> Multiset<PU<Operators>>
    decreases s.len(),
{
    if s.len() == 0 {
        Multiset::empty()
    } else if is_bracket(s.last().item) {
        stacked_operators(s.drop_last())
    } else {
        stacked_operators(s.drop_last()).insert(s.last())
    }
}

proof fn lemma_push_output(s: Seq<ExprItem>, it: ExprItem)
    ensures
        operands(s.push(it)) == (if it is AtomicExpr { operands(s).push(it) } else { operands(s) }),
        operators_of(s.push(it)) == (match it {
            ExprItem::Operators(o) => if is_bracket(o.item) { operators_of(s) } else { operators_of(s).insert(o) },
            ExprItem::AtomicExpr(_) => operators_of(s),
        }),
{
    assert(s.push(it).drop_last() == s);
    assert(s.push(it).last() == it);
}

proof fn lemma_push_stack(s: Seq<PU<Operators>>, o: PU<Operators>)
    ensures
        stacked_operators(s.push(o)) == (if is_bracket(o.item) { stacked_operators(s) } else { stacked_operators(s).insert(o) }),
{
    assert(s.push(o).drop_last() == s);
    assert(s.push(o).last() == o);
}

/// An expression on the tokens `pos..end`, in postfix order: brackets are gone, and the
/// items as written follow the infix grammar on those tokens, with the same operands in the
/// same order and the same operators, each one once; where none of them is unary, the
/// postfix order can be computed.
pub open spec fn expr_at(toks: Seq<Token>, e: Expr, pos: int, end: int) -> bool {
    &&& e.span.start == pos
    &&& e.span.end == end
    &&& pos < end
    &&& no_brackets(e.items@)
    &&& exists|infix: Seq<ExprItem>| {
        &&& #[trigger] infix_complete(infix)
        &&& items_cover(toks, infix, pos, end)
        &&& operands(e.items@) == operands(infix)
        &&& operators_of(e.items@) == operators_of(infix)
        &&& no_unary(infix) ==> rpn_ok(e.items@)
        &&& e.items@ == postfix(infix)
    }
}

/// Whether no item is a unary operator.
pub open spec fn no_unary(items: Seq<ExprItem>) -> bool {
    forall|k: int| 0 <= k < items.len() ==> !is_op_with(#[trigger] items[k], OperatorAssociativity::Unary)
}

/// The number of binary operators on a stack.
pub open spec fn binaries(s: Seq<PU<Operators>>) -> int
    decreases s.len(),
{
    if s.len() == 0 {
        0
    } else {
        binaries(s.drop_last()) + if s.last().item.spec_associativity() == OperatorAssociativity::Binary { 1int } else { 0int }
    }
}

/// Every item of a postfix sequence finds its operands.
pub open spec fn rpn_prefix_ok(items: Seq<ExprItem>) -> bool {
    forall|k: int| 0 <= k < items.len() ==> item_fits(#[trigger] items[k], rpn_depth(items.take(k)))
}

proof fn lemma_rpn_push(items: Seq<ExprItem>, it: ExprItem)
    requires
        rpn_prefix_ok(items),
        item_fits(it, rpn_depth(items)),
    ensures
        rpn_prefix_ok(items.push(it)),
        rpn_depth(items.push(it)) == rpn_depth(items) + item_delta(it),
{
    let n = items.push(it);
    assert(n.drop_last() == items);
    assert(n.take(items.len() as int) == items);
    assert forall|k: int| 0 <= k < n.len() implies item_fits(#[trigger] n[k], rpn_depth(n.take(k))) by {
        if k < items.len() {
            assert(n.take(k) == items.take(k));
            assert(n[k] == items[k]);
        }
    }
}

proof fn lemma_binaries_push(s: Seq<PU<Operators>>, o: PU<Operators>)
    ensures
        binaries(s.push(o)) == binaries(s) + if o.item.spec_associativity() == OperatorAssociativity::Binary { 1int } else { 0int },
{
    assert(s.push(o).drop_last() == s);
}

proof fn lemma_binaries_nonneg(s: Seq<PU<Operators>>)
    ensures
        binaries(s) >= 0,
    decreases s.len(),
{
    if s.len() > 0 {
        lemma_binaries_nonneg(s.drop_last());
    }
}

/// A prefix of items that follow the grammar follows it too.
proof fn lemma_infix_prefix(s: Seq<ExprItem>, k: int)
    requires
        infix_state(s) is Some,
        0 <= k <= s.len(),
    ensures
        infix_state(s.take(k)) is Some,
    decreases s.len() - k,
{
    if k < s.len() {
        let t = s.take(k + 1);
        assert(t.drop_last() == s.take(k));
        lemma_infix_prefix(s, k + 1);
        assert(infix_state(t) is Some);
    } else {
        assert(s.take(k) == s);
    }
}

/// Whether the operator waiting on top goes out before `o` waits: it is no structural
/// operator, it binds at least as tightly as `o` (a lower priority binds tighter, so equal
/// priorities fold from left to right), and enough items are out for its operands.
pub open spec fn folds_before(top: Operators, o: Operators, out_len: nat) -> bool {
    &&& top.spec_op_ty() != OperatorTypes::StructOperator
    &&& top.spec_priority() <= o.spec_priority()
    &&& out_len >= top.spec_cost()
}

/// The operators waiting on top that go out before `o` waits, going out in turn.
pub open spec fn pop_folding(out: Seq<ExprItem>, stack: Seq<PU<Operators>>, o: Operators) -> (Seq<ExprItem>, Seq<PU<Operators>>)
    decreases stack.len(),
{
    if stack.len() > 0 && folds_before(stack.last().item, o, out.len()) {
        pop_folding(out.push(ExprItem::Operators(stack.last())), stack.drop_last(), o)
    } else {
        (out, stack)
    }
}

/// A closing bracket: the operators waiting since the last opening bracket go out; that
/// bracket is dropped.
pub open spec fn pop_to_bracket(out: Seq<ExprItem>, stack: Seq<PU<Operators>>) -> (Seq<ExprItem>, Seq<PU<Operators>>)
    decreases stack.len(),
{
    if stack.len() == 0 {
        (out, stack)
    } else if stack.last().item == Operators::BracketL {
        (out, stack.drop_last())
    } else {
        pop_to_bracket(out.push(ExprItem::Operators(stack.last())), stack.drop_last())
    }
}

/// What is out, and what waits, after one more item.
pub open spec fn postfix_step(st: (Seq<ExprItem>, Seq<PU<Operators>>), it: ExprItem) -> (Seq<ExprItem>, Seq<PU<Operators>>) {
    match it {
        ExprItem::AtomicExpr(_) => (st.0.push(it), st.1),
        ExprItem::Operators(op) => if op.item == Operators::BracketL {
            (st.0, st.1.push(op))
        } else if op.item == Operators::BracketR {
            pop_to_bracket(st.0, st.1)
        } else {
            let folded = pop_folding(st.0, st.1, op.item);
            (folded.0, folded.1.push(op))
        },
    }
}

/// What is out, and what waits, after the items.
pub open spec fn postfix_state(items: Seq<ExprItem>) -> (Seq<ExprItem>, Seq<PU<Operators>>)
    decreases items.len(),
{
    if items.len() == 0 {
        (Seq::empty(), Seq::empty())
    } else {
        postfix_step(postfix_state(items.drop_last()), items.last())
    }
}

/// At the end, what still waits goes out, from the top; opening brackets are dropped.
pub open spec fn flush(out: Seq<ExprItem>, stack: Seq<PU<Operators>>) -> Seq<ExprItem>
    decreases stack.len(),
{
    if stack.len() == 0 {
        out
    } else if stack.last().item == Operators::BracketL {
        flush(out, stack.drop_last())
    } else {
        flush(out.push(ExprItem::Operators(stack.last())), stack.drop_last())
    }
}

/// The postfix order of the items of an infix expression.
#[verifier::opaque]
pub open spec fn postfix(items: Seq<ExprItem>) -> Seq<ExprItem> {
    flush(postfix_state(items).0, postfix_state(items).1)
}

/// Of `a o1 b o2 c`, with two binary operators, the second one is applied first exactly when
/// it binds tighter: then the postfix order is `a b c o2 o1`, else `a b o1 c o2` (operators
/// of one level apply from left to right). So `7 jia1 5 mo2 3` is `7 5 3 mo2 jia1`.
pub proof fn law_postfix_precedence(a: PU<AtomicExpr>, b: PU<AtomicExpr>, c: PU<AtomicExpr>, o1: PU<Operators>, o2: PU<Operators>)
    requires
        is_binary_operator(o1.item),
        is_binary_operator(o2.item),
    ensures
        postfix(seq![ExprItem::AtomicExpr(a), ExprItem::Operators(o1), ExprItem::AtomicExpr(b), ExprItem::Operators(o2),
            ExprItem::AtomicExpr(c)]) == if binding_level(o2.item) < binding_level(o1.item) {
            seq![ExprItem::AtomicExpr(a), ExprItem::AtomicExpr(b), ExprItem::AtomicExpr(c), ExprItem::Operators(o2),
                ExprItem::Operators(o1)]
        } else {
            seq![ExprItem::AtomicExpr(a), ExprItem::AtomicExpr(b), ExprItem::Operators(o1), ExprItem::AtomicExpr(c),
                ExprItem::Operators(o2)]
        },
{
    reveal(postfix);
    crate::ops::law_priority_follows_levels(o1.item, o2.item);
    let ia = ExprItem::AtomicExpr(a);
    let ib = ExprItem::AtomicExpr(b);
    let ic = ExprItem::AtomicExpr(c);
    let i1 = ExprItem::Operators(o1);
    let i2 = ExprItem::Operators(o2);
    let items = seq![ia, i1, ib, i2, ic];
    let e = Seq::<PU<Operators>>::empty();
    assert(items.take(1).drop_last() =~= Seq::<ExprItem>::empty());
    assert(items.take(1) =~= seq![ia]);
    assert(items.take(2) =~= seq![ia, i1]);
    assert(items.take(3) =~= seq![ia, i1, ib]);
    assert(items.take(4) =~= seq![ia, i1, ib, i2]);
    assert(seq![ia].drop_last() =~= Seq::<ExprItem>::empty());
    assert(seq![ia, i1].drop_last() =~= seq![ia]);
    assert(seq![ia, i1, ib].drop_last() =~= seq![ia, i1]);
    assert(seq![ia, i1, ib, i2].drop_last() =~= seq![ia, i1, ib]);
    assert(items.drop_last() =~= seq![ia, i1, ib, i2]);
    assert(postfix_state(Seq::<ExprItem>::empty()) == (Seq::<ExprItem>::empty(), e));
    let s1 = postfix_state(seq![ia]);
    assert(s1 == (seq![ia], e));
    assert(pop_folding(seq![ia], e, o1.item) == (seq![ia], e));
    let s2 = postfix_state(seq![ia, i1]);
    assert(s2 == (seq![ia], seq![o1]));
    let s3 = postfix_state(seq![ia, i1, ib]);
    assert(s3 == (seq![ia, ib], seq![o1]));
    let s4 = postfix_state(seq![ia, i1, ib, i2]);
    assert(seq![o1].drop_last() =~= e);
    assert(o1.item != Operators::BracketL && o1.item != Operators::BracketR);
    assert(o2.item != Operators::BracketL && o2.item != Operators::BracketR);
    if binding_level(o2.item) < binding_level(o1.item) {
        assert(pop_folding(seq![ia, ib], seq![o1], o2.item) == (seq![ia, ib], seq![o1]));
        assert(s4 == (seq![ia, ib], seq![o1, o2]));
        let s5 = postfix_state(items);
        assert(s5 == (seq![ia, ib, ic], seq![o1, o2]));
        assert(seq![o1, o2].drop_last() =~= seq![o1]);
        assert(seq![ia, ib, ic].push(i2) =~= seq![ia, ib, ic, i2]);
        assert(seq![ia, ib, ic, i2].push(i1) =~= seq![ia, ib, ic, i2, i1]);
        assert(flush(seq![ia, ib, ic, i2, i1], e) == seq![ia, ib, ic, i2, i1]);
        assert(flush(seq![ia, ib, ic, i2], seq![o1]) == seq![ia, ib, ic, i2, i1]);
        assert(flush(seq![ia, ib, ic], seq![o1, o2]) == seq![ia, ib, ic, i2, i1]);
    } else {
        assert(seq![ia, ib].push(i1) =~= seq![ia, ib, i1]);
        assert(pop_folding(seq![ia, ib, i1], e, o2.item) == (seq![ia, ib, i1], e));
        assert(pop_folding(seq![ia, ib], seq![o1], o2.item) == (seq![ia, ib, i1], e));
        assert(e.push(o2) =~= seq![o2]);
        assert(s4 == (seq![ia, ib, i1], seq![o2]));
        let s5 = postfix_state(items);
        assert(seq![ia, ib, i1].push(ic) =~= seq![ia, ib, i1, ic]);
        assert(s5 == (seq![ia, ib, i1, ic], seq![o2]));
        assert(seq![o2].drop_last() =~= e);
        assert(seq![ia, ib, i1, ic].push(i2) =~= seq![ia, ib, i1, ic, i2]);
        assert(flush(seq![ia, ib, i1, ic, i2], e) == seq![ia, ib, i1, ic, i2]);
        assert(flush(seq![ia, ib, i1, ic], seq![o2]) == seq![ia, ib, i1, ic, i2]);
    }
}

/// Puts the items of a whole expression in postfix order (the shunting-yard way): operands
/// go out at once; an operator first sends out the operators waiting on the stack that bind
/// at least as tightly (while enough items are out), then waits; a closing bracket sends out
/// what waits since its opening bracket; what still waits goes out last. Brackets are gone,
/// the operands keep their order, and each operator goes out once. Where no operator is
/// unary, every operator finds its operands and one value is left.
pub fn to_postfix(infix: Vec<ExprItem>) -> (out: Vec<ExprItem>)
    requires
        infix_complete(infix@),
    ensures
        no_brackets(out@),
        operands(out@) == operands(infix@),
        operators_of(out@) == operators_of(infix@),
        no_unary(infix@) ==> rpn_ok(out@),
        out@ == postfix(infix@),
{
    let ghost orig = infix@;
    let ghost nu = no_unary(orig);
    reveal(postfix);
    let mut exprs: Vec<ExprItem> = Vec::new();
    let mut ops: Vec<PU<Operators>> = Vec::new();
    let mut infix = infix;
    let mut pending: Vec<ExprItem> = Vec::new();
    while infix.len() > 0
        invariant
            infix@.len() + pending@.len() == orig.len(),
            infix@ == orig.take(infix@.len() as int),
            forall|k: int| 0 <= k < pending@.len() ==> pending@[k] == orig[orig.len() - 1 - k],
        decreases infix.len(),
    {
        let it = infix.pop().unwrap();
        proof {
            assert(it == orig[infix@.len() as int]);
            assert(infix@ == orig.take(infix@.len() as int));
        }
        pending.push(it);
    }
    let mut infix = pending;
    let ghost mut consumed: Seq<ExprItem> = Seq::empty();
    proof {
        assert(rpn_prefix_ok(exprs@));
        assert(consumed == orig.take(0));
    }
    while infix.len() > 0
        invariant
            infix@.len() + consumed.len() == orig.len(),
            consumed == orig.take(consumed.len() as int),
            forall|k: int| 0 <= k < infix@.len() ==> infix@[k] == orig[orig.len() - 1 - k],
            infix_complete(orig),
            nu == no_unary(orig),
            no_brackets(exprs@),
            forall|i: int| 0 <= i < ops@.len() ==> (#[trigger] ops@[i]).item != Operators::BracketR,
            operands(exprs@) == operands(consumed),
            operators_of(exprs@).add(stacked_operators(ops@)) == operators_of(consumed),
            infix_state(consumed) is Some,
            nu ==> rpn_prefix_ok(exprs@),
            nu ==> rpn_depth(exprs@) == binaries(ops@) + if infix_state(consumed).unwrap().0 { 0int } else { 1int },
            nu ==> forall|i: int| 0 <= i < ops@.len() ==> (#[trigger] ops@[i]).item == Operators::BracketL
                || ops@[i].item.spec_associativity() == OperatorAssociativity::Binary,
            (exprs@, ops@) == postfix_state(consumed),
        decreases infix.len(),
    {
        let item = infix.pop().unwrap();
        let ghost next = consumed.push(item);
        proof {
            assert(item == orig[consumed.len() as int]);
            assert(next == orig.take(next.len() as int));
            lemma_push_output(consumed, item);
            lemma_infix_prefix(orig, next.len() as int);
            assert(next.drop_last() == consumed);
            assert(next.last() == item);
            lemma_binaries_nonneg(ops@);
            if nu {
                assert(!is_op_with(orig[consumed.len() as int], OperatorAssociativity::Unary));
            }
        }
        let ghost expect = infix_state(consumed).unwrap().0;
        match item {
            ExprItem::AtomicExpr(a) => {
                proof {
                    lemma_push_output(exprs@, ExprItem::AtomicExpr(a));
                    if nu {
                        lemma_rpn_push(exprs@, ExprItem::AtomicExpr(a));
                    }
                }
                exprs.push(ExprItem::AtomicExpr(a));
            }
            ExprItem::Operators(op) => {
                let o = op.item;
                if o == Operators::BracketL {
                    proof {
                        lemma_push_stack(ops@, op);
                        lemma_binaries_push(ops@, op);
                    }
                    ops.push(op);
                } else if o == Operators::BracketR {
                    loop
                        invariant_except_break
                            pop_to_bracket(exprs@, ops@) == postfix_state(next),
                        invariant
                            no_brackets(exprs@),
                            forall|i: int| 0 <= i < ops@.len() ==> (#[trigger] ops@[i]).item != Operators::BracketR,
                            operands(exprs@) == operands(next),
                            operators_of(exprs@).add(stacked_operators(ops@)) == operators_of(next),
                            nu ==> rpn_prefix_ok(exprs@),
                            nu ==> rpn_depth(exprs@) == binaries(ops@) + 1,
                            nu ==> forall|i: int| 0 <= i < ops@.len() ==> (#[trigger] ops@[i]).item == Operators::BracketL
                                || ops@[i].item.spec_associativity() == OperatorAssociativity::Binary,
                        ensures
                            (exprs@, ops@) == postfix_state(next),
                        decreases ops.len(),
                    {
                        let ghost stack = ops@;
                        match ops.pop() {
                            Some(last) => {
                                proof {
                                    assert(stack == ops@.push(last));
                                    assert(stack.last() == last);
                                    lemma_push_stack(ops@, last);
                                    lemma_binaries_push(ops@, last);
                                    lemma_binaries_nonneg(ops@);
                                }
                                if last.item == Operators::BracketL {
                                    break;
                                }
                                proof {
                                    lemma_push_output(exprs@, ExprItem::Operators(last));
                                    assert(operators_of(exprs@.push(ExprItem::Operators(last))).add(stacked_operators(ops@))
                                        =~= operators_of(exprs@).add(stacked_operators(stack)));
                                    if nu {
                                        lemma_rpn_push(exprs@, ExprItem::Operators(last));
                                    }
                                }
                                exprs.push(ExprItem::Operators(last));
                            }
                            None => break,
                        }
                    }
                } else {
                    loop
                        invariant
                            no_brackets(exprs@),
                            forall|i: int| 0 <= i < ops@.len() ==> (#[trigger] ops@[i]).item != Operators::BracketR,
                            o != Operators::BracketL && o != Operators::BracketR,
                            o == op.item,
                            operands(exprs@) == operands(consumed),
                            operators_of(exprs@).add(stacked_operators(ops@)) == operators_of(consumed),
                            nu ==> rpn_prefix_ok(exprs@),
                            nu ==> rpn_depth(exprs@) == binaries(ops@) + 1,
                            nu ==> forall|i: int| 0 <= i < ops@.len() ==> (#[trigger] ops@[i]).item == Operators::BracketL
                                || ops@[i].item.spec_associativity() == OperatorAssociativity::Binary,
                            pop_folding(exprs@, ops@, o) == pop_folding(postfix_state(consumed).0, postfix_state(consumed).1, o),
                        ensures
                            (exprs@, ops@) == pop_folding(postfix_state(consumed).0, postfix_state(consumed).1, o),
                        decreases ops.len(),
                    {
                        if ops.len() == 0 {
                            break;
                        }
                        let last = ops[ops.len() - 1].item;
                        let fold = last.op_ty() != OperatorTypes::StructOperator
                            && last.priority() <= o.priority() && exprs.len() >= last.cost();
                        if !fold {
                            break;
                        }
                        let ghost stack = ops@;
                        let l = ops.pop().unwrap();
                        proof {
                            assert(stack == ops@.push(l));
                            assert(stack.last() == l);
                            lemma_push_stack(ops@, l);
                            lemma_push_output(exprs@, ExprItem::Operators(l));
                            lemma_binaries_push(ops@, l);
                            lemma_binaries_nonneg(ops@);
                            assert(operators_of(exprs@.push(ExprItem::Operators(l))).add(stacked_operators(ops@))
                                =~= operators_of(exprs@).add(stacked_operators(stack)));
                            if nu {
                                lemma_rpn_push(exprs@, ExprItem::Operators(l));
                            }
                        }
                        exprs.push(ExprItem::Operators(l));
                    }
                    proof {
                        lemma_push_stack(ops@, op);
                        lemma_binaries_push(ops@, op);
                        assert(operators_of(exprs@).add(stacked_operators(ops@.push(op)))
                            =~= operators_of(next));
                    }
                    ops.push(op);
                }
            }
        }
        proof {
            consumed = next;
        }
    }
    proof {
        assert(consumed == orig);
        assert(orig.take(orig.len() as int) == orig);
    }
    while ops.len() > 0
        invariant
            no_brackets(exprs@),
            forall|i: int| 0 <= i < ops@.len() ==> (#[trigger] ops@[i]).item != Operators::BracketR,
            operands(exprs@) == operands(orig),
            operators_of(exprs@).add(stacked_operators(ops@)) == operators_of(orig),
            nu ==> rpn_prefix_ok(exprs@),
            nu ==> rpn_depth(exprs@) == binaries(ops@) + 1,
            nu ==> forall|i: int| 0 <= i < ops@.len() ==> (#[trigger] ops@[i]).item == Operators::BracketL
                || ops@[i].item.spec_associativity() == OperatorAssociativity::Binary,
            flush(exprs@, ops@) == postfix(orig),
        decreases ops.len(),
    {
        let ghost stack = ops@;
        let op = ops.pop().unwrap();
        proof {
            assert(stack == ops@.push(op));
            assert(stack.last() == op);
            lemma_push_stack(ops@, op);
            lemma_binaries_push(ops@, op);
            lemma_binaries_nonneg(ops@);
        }
        if op.item != Operators::BracketL {
            proof {
                lemma_push_output(exprs@, ExprItem::Operators(op));
                assert(operators_of(exprs@.push(ExprItem::Operators(op))).add(stacked_operators(ops@))
                    =~= operators_of(exprs@).add(stacked_operators(stack)));
                if nu {
                    lemma_rpn_push(exprs@, ExprItem::Operators(op));
                }
            }
            exprs.push(ExprItem::Operators(op));
        }
    }
    proof {
        assert(operators_of(exprs@).add(stacked_operators(ops@)) =~= operators_of(exprs@));
        if nu {
            assert forall|k: int| 0 <= k < exprs@.len() implies item_fits(#[trigger] exprs@[k], rpn_depth(exprs@.take(k))) by {}
        }
    }
    exprs
}

/// Parses an expression and puts its items in postfix order: brackets are gone, the
/// operands are those written in the order they are written, and the operators are those
/// written, each one once.
pub fn parse_expr(toks: &Vec<Token>, pos: usize) -> (r: ParseResult<Expr>)
    requires
        pos <= toks.len(),
    ensures
        advanced(r, pos as int, toks.len() as int),
        r matches Ok((e, end)) ==> expr_at(toks@, e, pos as int, end as int),
        pos >= toks.len() ==> r is Err,
        pos < toks.len() && operand_token(toks@[pos as int].string@) && ends_operand(toks@, pos + 1)
            ==> (r matches Ok((_, end)) && end == pos + 1),
        forall|e: int| #[trigger] token_expr_at(toks@, pos as int, e) ==> (r matches Ok((_, end)) && end == e),
    decreases toks.len() - pos, 4int,
{
    let (infix, end) = match parse_expr_items(toks, pos) {
        Ok(v) => v,
        Err(e) => return Err(e),
    };
    let ghost written = infix@;
    let items = to_postfix(infix);
    assert(infix_complete(written));
    Ok((Expr { items, span: Span::new(pos, end) }, end))
}

} // verus!

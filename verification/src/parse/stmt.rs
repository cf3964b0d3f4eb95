use vstd::prelude::*;
use crate::lex::Token;
use crate::parse::expr::{args_at, expr_at, expr_spans, parse_expr, parse_fn_call, Expr, FnCall};
use crate::parse::types::{parse_type_define, type_define_at, TypeDefine};
use crate::parse::{
    advanced, is_word, lemma_pu_spans_push, lemma_separated_first, lemma_separated_push,
    match_word, must_match, next_token, parse_ident, pu_spans, spans_separated, word_at, Ident,
    ParseError, ParseResult, PU,
};
use crate::parse::expr::{ends_operand, operand_token, token_expr_at};
use crate::parse::is_ident_text;
use crate::syntax::{exten_keyword, other_keywords, BasicExtenWord};
use crate::span::{Error, Span};

verus! {

/// `jie2`, which ends a block, starts no statement, no type and no function.
proof fn lemma_jie2_starts_nothing()
    ensures
        "jie2"@ != "ya1"@,
        "jie2"@ != "ruo4"@,
        "jie2"@ != "chong2"@,
        "jie2"@ != "fan3"@,
        "jie2"@ != "shi4"@,
        "jie2"@ != "han2"@,
        forall|w: BasicExtenWord| #[trigger] exten_keyword(w) != "jie2"@,
        !is_ident_text("jie2"@),
{
    reveal_strlit("jie2");
    reveal_strlit("ya1");
    reveal_strlit("ruo4");
    reveal_strlit("chong2");
    reveal_strlit("fan3");
    reveal_strlit("shi4");
    reveal_strlit("han2");
    reveal_strlit("zu3");
    reveal_strlit("kuan1");
    reveal_strlit("you3fu2");
    reveal_strlit("wu2fu2");
    reveal_strlit("yin3");
    reveal_strlit("she4");
    reveal_strlit("zhi3");
    assert(other_keywords()[7] == "jie2"@);
    assert forall|w: BasicExtenWord| #[trigger] exten_keyword(w) != "jie2"@ by {
        let k = exten_keyword(w);
        if k == "jie2"@ {
            assert(k.len() == 4 && k[0] == 'j' && k[1] == 'i');
        }
    }
    let j = "jie2"@;
    assert(j.len() == 4 && j[0] == 'j' && j[1] == 'i' && j[2] == 'e' && j[3] == '2');
}

/// `fan3`, `ruo4` and `chong2` start no call and name no type or variable, and each starts
/// only its own statement.
proof fn lemma_statement_keywords()
    ensures
        "fan3"@ != "ya1"@,
        "fan3"@ != "ruo4"@,
        "fan3"@ != "chong2"@,
        "ruo4"@ != "ya1"@,
        "chong2"@ != "ya1"@,
        "chong2"@ != "ruo4"@,
        forall|w: BasicExtenWord| #[trigger] exten_keyword(w) != "fan3"@,
        forall|w: BasicExtenWord| #[trigger] exten_keyword(w) != "ruo4"@,
        forall|w: BasicExtenWord| #[trigger] exten_keyword(w) != "chong2"@,
        !is_ident_text("fan3"@),
        !is_ident_text("ruo4"@),
        !is_ident_text("chong2"@),
{
    reveal_strlit("fan3");
    reveal_strlit("ya1");
    reveal_strlit("ruo4");
    reveal_strlit("chong2");
    reveal_strlit("zu3");
    reveal_strlit("kuan1");
    reveal_strlit("you3fu2");
    reveal_strlit("wu2fu2");
    reveal_strlit("yin3");
    reveal_strlit("she4");
    reveal_strlit("zhi3");
    assert(other_keywords()[19] == "ruo4"@);
    assert(other_keywords()[21] == "chong2"@);
    assert(other_keywords()[24] == "fan3"@);
    let f = "fan3"@;
    let r = "ruo4"@;
    let c = "chong2"@;
    assert(f.len() == 4 && f[0] == 'f' && f[1] == 'a' && f[2] == 'n' && f[3] == '3');
    assert(r.len() == 4 && r[0] == 'r' && r[1] == 'u' && r[2] == 'o' && r[3] == '4');
    assert(c.len() == 6 && c[0] == 'c' && c[1] == 'h');
    assert forall|w: BasicExtenWord| #[trigger] exten_keyword(w) != "fan3"@ by {
        let k = exten_keyword(w);
        if k == f {
            assert(k.len() == 4 && k[0] == 'f' && k[1] == 'a');
        }
    }
    assert forall|w: BasicExtenWord| #[trigger] exten_keyword(w) != "ruo4"@ by {
        let k = exten_keyword(w);
        if k == r {
            assert(k.len() == 4 && k[0] == 'r' && k[1] == 'u');
        }
    }
    assert forall|w: BasicExtenWord| #[trigger] exten_keyword(w) != "chong2"@ by {
        let k = exten_keyword(w);
        if k == c {
            assert(k.len() == 6 && k[0] == 'c' && k[1] == 'h');
        }
    }
}

/// A word that may name something is not one of the keywords that start a statement or a
/// function.
proof fn lemma_ident_starts_nothing(s: Seq<char>)
    requires
        is_ident_text(s),
    ensures
        s != "ya1"@,
        s != "dao3chu1"@,
        s != "ruo4"@,
        s != "chong2"@,
        s != "fan3"@,
        s != "shi4"@,
        s != "han2"@,
{
    let k = other_keywords();
    assert(k[4] == "dao3chu1"@);
    assert(k[5] == "ya1"@);
    assert(k[10] == "han2"@);
    assert(k[12] == "shi4"@);
    assert(k[19] == "ruo4"@);
    assert(k[21] == "chong2"@);
    assert(k[24] == "fan3"@);
}

/// `wei2` and the value assigned.
#[derive(Debug)]
pub struct VarAssign {
    pub val: Expr,
}

/// A variable definition: a type, a name, an optional initial value.
#[derive(Debug)]
pub struct VarDefine {
    pub ty: PU<TypeDefine>,
    pub name: Ident,
    pub init: Option<VarAssign>,
}

/// A store into a variable: its name and what is assigned.
#[derive(Debug)]
pub struct VarStore {
    pub name: Ident,
    pub assign: PU<VarAssign>,
}

/// A parameter of a function: a type and a name.
#[derive(Debug)]
pub struct Parameter {
    pub inner: VarDefine,
}

/// `can1`, parameters separated by `fen1`, `jie2`.
#[derive(Debug)]
pub struct Parameters {
    pub params: Vec<PU<Parameter>>,
}

#[derive(Debug)]
pub struct VarDefineStmt(pub PU<VarDefine>);

#[derive(Debug)]
pub struct FnCallStmt(pub PU<FnCall>);

#[derive(Debug)]
pub struct VarStoreStmt(pub PU<VarStore>);

#[derive(Debug)]
pub enum Statement {
    FnCallStmt(Box<FnCallStmt>),
    VarStoreStmt(Box<VarStoreStmt>),
    VarDefineStmt(Box<VarDefineStmt>),
    If(Box<If>),
    While(Box<While>),
    Return(Box<Return>),
    Comment(Box<Comment>),
    CodeBlock(Box<CodeBlock>),
}

/// `can1`, conditions separated by `fen1`, `jie2`; the last condition decides.
#[derive(Debug)]
pub struct Conditions {
    pub conds: Vec<Expr>,
    pub semicolons: Vec<Span>,
}

#[derive(Debug)]
pub struct IfBranch {
    pub conds: Conditions,
    pub body: CodeBlock,
}

#[derive(Debug)]
pub struct ElseBranch {
    pub block: CodeBlock,
}

#[derive(Debug)]
pub struct If {
    pub branches: Vec<IfBranch>,
    pub else_: Option<ElseBranch>,
}

#[derive(Debug)]
pub struct While {
    pub conds: Conditions,
    pub block: CodeBlock,
}

#[derive(Debug)]
pub struct Return {
    pub val: Option<Expr>,
}

/// `shi4`, any words, `jie2`.
#[derive(Debug)]
pub struct Comment;

/// A function: whether it is exported (`dao3chu1`), its return type, name, parameters and body.
#[derive(Debug)]
pub struct FnDefine {
    pub export: Option<Span>,
    pub ty: TypeDefine,
    pub name: Ident,
    pub params: Parameters,
    pub codes: CodeBlock,
    pub retty_span: Span,
    pub sign_span: Span,
}

/// `han2`, statements, `jie2`.
#[derive(Debug)]
pub struct CodeBlock {
    pub stmts: Vec<Statement>,
}

#[derive(Debug)]
pub enum Item {
    FnDefine(FnDefine),
    Comment(Comment),
}

/// `wei2` at `pos`, then the value on the tokens up to `end`.
pub open spec fn var_assign_at(toks: Seq<Token>, a: VarAssign, pos: int, end: int) -> bool {
    &&& word_at(toks, pos, "wei2"@)
    &&& expr_at(toks, a.val, pos + 1, end)
}

/// A type on the tokens `pos..end`, whose last token is its name.
pub open spec fn type_at(toks: Seq<Token>, t: PU<TypeDefine>, pos: int, end: int) -> bool {
    &&& t.span.start == pos
    &&& t.span.end == end
    &&& pos < end <= toks.len()
    &&& t.item.ty.0.string@ == toks[end - 1].string@
    &&& type_define_at(toks, t.item, pos, end)
}

/// A definition on the tokens `pos..end`: its type, its name on the next token, then, where
/// there is one, its initial value.
pub open spec fn var_define_at(toks: Seq<Token>, d: VarDefine, pos: int, end: int) -> bool {
    let name_at = d.ty.span.end as int;
    &&& type_at(toks, d.ty, pos, name_at)
    &&& name_at < toks.len()
    &&& d.name.0.string@ == toks[name_at].string@
    &&& match d.init {
        Some(a) => var_assign_at(toks, a, name_at + 1, end),
        None => end == name_at + 1,
    }
}

/// A store on the tokens `pos..end`: the name, then `wei2` and the value.
pub open spec fn var_store_at(toks: Seq<Token>, v: VarStore, pos: int, end: int) -> bool {
    &&& 0 <= pos < toks.len()
    &&& v.name.0.string@ == toks[pos].string@
    &&& v.assign.span.start == pos + 1
    &&& v.assign.span.end == end
    &&& var_assign_at(toks, v.assign.item, pos + 1, end)
}

/// A parameter on the tokens `pos..end`: a type and a name.
pub open spec fn parameter_at(toks: Seq<Token>, p: Parameter, pos: int, end: int) -> bool {
    var_define_at(toks, p.inner, pos, end) && p.inner.init is None
}

/// `can1`, the parameters separated by `fen1`, `jie2`, on the tokens `pos..end`.
pub open spec fn parameters_at(toks: Seq<Token>, ps: Parameters, pos: int, end: int) -> bool {
    &&& word_at(toks, pos, "can1"@)
    &&& word_at(toks, end - 1, "jie2"@)
    &&& spans_separated(toks, pu_spans(ps.params@), "fen1"@, pos + 1, end - 1)
    &&& forall|i: int| 0 <= i < ps.params@.len() ==>
            parameter_at(toks, (#[trigger] ps.params@[i]).item, ps.params@[i].span.start as int, ps.params@[i].span.end as int)
}

/// `can1`, the conditions separated by `fen1` (whose places are kept), `jie2`, on the tokens
/// `pos..end`.
pub open spec fn conditions_at(toks: Seq<Token>, c: Conditions, pos: int, end: int) -> bool {
    &&& word_at(toks, pos, "can1"@)
    &&& word_at(toks, end - 1, "jie2"@)
    &&& spans_separated(toks, expr_spans(c.conds@), "fen1"@, pos + 1, end - 1)
    &&& c.conds@.len() > 0 ==> c.semicolons@.len() + 1 == c.conds@.len()
    &&& c.conds@.len() == 0 ==> c.semicolons@.len() == 0
    &&& forall|i: int| 0 <= i < c.semicolons@.len() ==>
            (#[trigger] c.semicolons@[i]).start == c.conds@[i].span.end && c.semicolons@[i].end == c.conds@[i].span.end + 1
    &&& forall|i: int| 0 <= i < c.conds@.len() ==>
            expr_at(toks, #[trigger] c.conds@[i], c.conds@[i].span.start as int, c.conds@[i].span.end as int)
}

/// `fan3`, an optional value, `fen1`, on the tokens `pos..end`.
pub open spec fn return_at(toks: Seq<Token>, r: Return, pos: int, end: int) -> bool {
    &&& word_at(toks, pos, "fan3"@)
    &&& word_at(toks, end - 1, "fen1"@)
    &&& match r.val {
        Some(e) => expr_at(toks, e, pos + 1, end - 1),
        None => end == pos + 2,
    }
}

/// A place between two units of the tokens; it marks where one unit ends and the next begins.
pub open spec fn cut(at: int) -> bool {
    true
}

/// `shi4`, any words but `jie2`, then `jie2`, on the tokens `pos..end`.
pub open spec fn comment_at(toks: Seq<Token>, pos: int, end: int) -> bool {
    &&& word_at(toks, pos, "shi4"@)
    &&& word_at(toks, end - 1, "jie2"@)
    &&& pos < end - 1
    &&& forall|k: int| pos < k < end - 1 ==> !word_at(toks, k, "jie2"@)
}

/// A call on the tokens `pos..end`: its arguments, then the name.
pub open spec fn fn_call_at(toks: Seq<Token>, c: PU<FnCall>, pos: int, end: int) -> bool {
    &&& c.span.start == pos
    &&& c.span.end == end
    &&& c.item.span == c.span
    &&& 0 < end <= toks.len()
    &&& c.item.fn_name.0.string@ == toks[end - 1].string@
    &&& args_at(toks, c.item.args, pos, end - 1)
    &&& forall|i: int| 0 <= i < c.item.args.args@.len() ==> expr_at(toks, #[trigger] c.item.args.args@[i],
            c.item.args.args@[i].span.start as int, c.item.args.args@[i].span.end as int)
}

/// A statement on the tokens `pos..end`: a call, a store or a definition followed by `fen1`,
/// or an `if`, a loop, a return, a comment or a block.
pub open spec fn statement_at(toks: Seq<Token>, s: Statement, pos: int, end: int) -> bool
    decreases s,
{
    match s {
        Statement::FnCallStmt(c) => fn_call_at(toks, c.0, pos, end - 1) && word_at(toks, end - 1, "fen1"@),
        Statement::VarStoreStmt(v) => v.0.span.start == pos && v.0.span.end == end - 1
            && var_store_at(toks, v.0.item, pos, end - 1) && word_at(toks, end - 1, "fen1"@),
        Statement::VarDefineStmt(d) => d.0.span.start == pos && d.0.span.end == end - 1
            && var_define_at(toks, d.0.item, pos, end - 1) && word_at(toks, end - 1, "fen1"@),
        Statement::If(i) => if_at(toks, *i, pos, end),
        Statement::While(w) => while_at(toks, *w, pos, end),
        Statement::Return(r) => return_at(toks, *r, pos, end),
        Statement::Comment(_) => comment_at(toks, pos, end),
        Statement::CodeBlock(b) => code_block_at(toks, *b, pos, end),
    }
}

/// Statements one after the other on the tokens `pos..end`.
pub open spec fn stmts_at(toks: Seq<Token>, ss: Seq<Statement>, pos: int, end: int) -> bool
    decreases ss,
{
    if ss.len() == 0 {
        pos == end
    } else {
        exists|mid: int| #[trigger] cut(mid) && pos <= mid < end && stmts_at(toks, ss.drop_last(), pos, mid)
            && statement_at(toks, ss.last(), mid, end)
    }
}

/// `han2`, statements, `jie2`, on the tokens `pos..end`.
pub open spec fn code_block_at(toks: Seq<Token>, b: CodeBlock, pos: int, end: int) -> bool
    decreases b,
{
    &&& word_at(toks, pos, "han2"@)
    &&& word_at(toks, end - 1, "jie2"@)
    &&& pos < end - 1
    &&& stmts_at(toks, b.stmts@, pos + 1, end - 1)
}

/// A branch of an `if` on the tokens `pos..end`: `ruo4` (the first) or `ze2 ruo4` (the
/// others), the conditions, then the body.
pub open spec fn if_branch_at(toks: Seq<Token>, b: IfBranch, first: bool, pos: int, end: int) -> bool
    decreases b,
{
    let conds_at = if first { pos + 1 } else { pos + 2 };
    &&& if first { word_at(toks, pos, "ruo4"@) } else { word_at(toks, pos, "ze2"@) && word_at(toks, pos + 1, "ruo4"@) }
    &&& exists|mid: int| #[trigger] cut(mid) && conds_at < mid < end && conditions_at(toks, b.conds, conds_at, mid)
            && code_block_at(toks, b.body, mid, end)
}

/// The branches of an `if`, one after the other on the tokens `pos..end`.
pub open spec fn branches_at(toks: Seq<Token>, bs: Seq<IfBranch>, pos: int, end: int) -> bool
    decreases bs,
{
    if bs.len() == 0 {
        pos == end
    } else {
        exists|mid: int| #[trigger] cut(mid) && pos <= mid < end && branches_at(toks, bs.drop_last(), pos, mid)
            && if_branch_at(toks, bs.last(), bs.len() == 1, mid, end)
    }
}

/// An `if` on the tokens `pos..end`: its branches, then, where there is one, `ze2` and the
/// `else` block.
pub open spec fn if_at(toks: Seq<Token>, i: If, pos: int, end: int) -> bool
    decreases i,
{
    &&& i.branches@.len() >= 1
    &&& exists|mid: int| #[trigger] cut(mid) && pos < mid <= end && branches_at(toks, i.branches@, pos, mid) && match i.else_ {
            Some(e) => word_at(toks, mid, "ze2"@) && code_block_at(toks, e.block, mid + 1, end),
            None => mid == end,
        }
}

/// A loop on the tokens `pos..end`: `chong2`, the conditions, then the body.
pub open spec fn while_at(toks: Seq<Token>, w: While, pos: int, end: int) -> bool
    decreases w,
{
    &&& word_at(toks, pos, "chong2"@)
    &&& exists|mid: int| #[trigger] cut(mid) && pos + 1 < mid < end && conditions_at(toks, w.conds, pos + 1, mid)
            && code_block_at(toks, w.block, mid, end)
}

proof fn lemma_stmts_push(toks: Seq<Token>, ss: Seq<Statement>, st: Statement, pos: int, mid: int, end: int)
    requires
        stmts_at(toks, ss, pos, mid),
        statement_at(toks, st, mid, end),
        pos <= mid < end,
    ensures
        stmts_at(toks, ss.push(st), pos, end),
{
    let n = ss.push(st);
    assert(n.drop_last() == ss);
    assert(n.last() == st);
    assert(cut(mid));
}

proof fn lemma_branches_push(toks: Seq<Token>, bs: Seq<IfBranch>, b: IfBranch, pos: int, mid: int, end: int)
    requires
        branches_at(toks, bs, pos, mid),
        if_branch_at(toks, b, bs.len() == 0, mid, end),
        pos <= mid < end,
    ensures
        branches_at(toks, bs.push(b), pos, end),
{
    let n = bs.push(b);
    assert(n.drop_last() == bs);
    assert(n.last() == b);
    assert(cut(mid));
}

/// A function on the tokens `pos..end`: `dao3chu1` where it is exported, the return type
/// (whose last token is its name), the function's name, the parameters, then the body; the
/// signature spans the return type and the parameters.
pub open spec fn fn_define_at(toks: Seq<Token>, f: FnDefine, pos: int, end: int) -> bool {
    let start = if f.export is Some { pos + 1 } else { pos };
    let name_at = f.retty_span.end as int;
    &&& (f.export is Some <==> word_at(toks, pos, "dao3chu1"@))
    &&& f.export matches Some(sp) ==> sp.start == pos && sp.end == pos + 1
    &&& f.retty_span.start == start
    &&& start < name_at < toks.len()
    &&& f.ty.ty.0.string@ == toks[name_at - 1].string@
    &&& type_define_at(toks, f.ty, start, name_at)
    &&& f.name.0.string@ == toks[name_at].string@
    &&& f.sign_span.start == start
    &&& parameters_at(toks, f.params, name_at + 1, f.sign_span.end as int)
    &&& code_block_at(toks, f.codes, f.sign_span.end as int, end)
}

/// An item on the tokens `pos..end`: a function or a comment.
pub open spec fn item_at(toks: Seq<Token>, it: Item, pos: int, end: int) -> bool {
    match it {
        Item::FnDefine(f) => fn_define_at(toks, f, pos, end),
        Item::Comment(_) => comment_at(toks, pos, end),
    }
}

/// Items one after the other on the tokens `pos..end`.
pub open spec fn items_at(toks: Seq<Token>, items: Seq<Item>, pos: int, end: int) -> bool
    decreases items.len(),
{
    if items.len() == 0 {
        pos == end
    } else {
        exists|mid: int| #[trigger] cut(mid) && pos <= mid < end && items_at(toks, items.drop_last(), pos, mid)
            && item_at(toks, items.last(), mid, end)
    }
}

/// Parses `wei2` and a value.
#[verifier::spinoff_prover]
pub fn parse_var_assign(toks: &Vec<Token>, pos: usize) -> (r: ParseResult<VarAssign>)
    requires
        pos <= toks.len(),
    ensures
        advanced(r, pos as int, toks.len() as int),
        r matches Ok((a, end)) ==> var_assign_at(toks@, a, pos as int, end as int),
        !word_at(toks@, pos as int, "wei2"@) ==> r matches Err(ParseError::Unmatch(_)),
        word_at(toks@, pos as int, "wei2"@) && pos + 1 < toks.len() && operand_token(toks@[pos + 1].string@)
            && ends_operand(toks@, pos + 2) ==> (r matches Ok((_, end)) && end == pos + 2),
        forall|e: int| word_at(toks@, pos as int, "wei2"@) && #[trigger] token_expr_at(toks@, pos + 1, e)
            ==> (r matches Ok((_, end)) && end == e),
{
    match match_word(toks, pos, "wei2") {
        Ok(_) => {},
        Err(e) => return Err(e),
    }
    match parse_expr(toks, pos + 1) {
        Ok((val, end)) => Ok((VarAssign { val }, end)),
        Err(e) => Err(e),
    }
}

/// Parses a variable definition.
#[verifier::spinoff_prover]
pub fn parse_var_define(toks: &Vec<Token>, pos: usize) -> (r: ParseResult<VarDefine>)
    requires
        pos <= toks.len(),
    ensures
        advanced(r, pos as int, toks.len() as int),
        r matches Ok((d, end)) ==> var_define_at(toks@, d, pos as int, end as int),
        pos + 2 <= toks.len() && is_ident_text(toks@[pos as int].string@) && is_ident_text(toks@[pos + 1].string@)
            && !word_at(toks@, pos + 2, "wei2"@) ==> (r matches Ok((d, end)) && end == pos + 2 && d.init is None),
        pos + 4 <= toks.len() && is_ident_text(toks@[pos as int].string@) && is_ident_text(toks@[pos + 1].string@)
            && word_at(toks@, pos + 2, "wei2"@) && operand_token(toks@[pos + 3].string@) && ends_operand(toks@, pos + 4)
            ==> (r matches Ok((d, end)) && end == pos + 4 && d.init is Some),
        forall|e: int| pos + 3 <= toks.len() && is_ident_text(toks@[pos as int].string@)
            && is_ident_text(toks@[pos + 1].string@) && word_at(toks@, pos + 2, "wei2"@)
            && #[trigger] token_expr_at(toks@, pos + 3, e) ==> (r matches Ok((d, end)) && end == e && d.init is Some),
        pos >= toks.len() || (!is_ident_text(toks@[pos as int].string@)
            && forall|w: BasicExtenWord| #[trigger] exten_keyword(w) != toks@[pos as int].string@)
            ==> r matches Err(ParseError::Unmatch(_)),
{
    let (ty, cur) = match parse_type_define(toks, pos) {
        Ok(v) => v,
        Err(e) => return Err(e),
    };
    let ty = PU::new(Span::new(pos, cur), ty);
    let (name, cur) = match parse_ident(toks, cur) {
        Ok(v) => v,
        Err(e) => return Err(e),
    };
    match parse_var_assign(toks, cur) {
        Ok((a, end)) => Ok((VarDefine { ty, name, init: Some(a) }, end)),
        Err(ParseError::Unmatch(_)) => Ok((VarDefine { ty, name, init: None }, cur)),
        Err(e) => Err(e),
    }
}

/// Parses a store: a name, `wei2` and a value.
#[verifier::spinoff_prover]
pub fn parse_var_store(toks: &Vec<Token>, pos: usize) -> (r: ParseResult<VarStore>)
    requires
        pos <= toks.len(),
    ensures
        advanced(r, pos as int, toks.len() as int),
        r matches Ok((v, end)) ==> var_store_at(toks@, v, pos as int, end as int),
        pos + 3 <= toks.len() && is_ident_text(toks@[pos as int].string@) && word_at(toks@, pos + 1, "wei2"@)
            && operand_token(toks@[pos + 2].string@) && ends_operand(toks@, pos + 3)
            ==> (r matches Ok((_, end)) && end == pos + 3),
        forall|e: int| pos + 2 <= toks.len() && is_ident_text(toks@[pos as int].string@) && word_at(toks@, pos + 1, "wei2"@)
            && #[trigger] token_expr_at(toks@, pos + 2, e) ==> (r matches Ok((_, end)) && end == e),
        pos >= toks.len() || !is_ident_text(toks@[pos as int].string@) ==> r matches Err(ParseError::Unmatch(_)),
        !word_at(toks@, pos + 1, "wei2"@) ==> r matches Err(ParseError::Unmatch(_)),
{
    let (name, cur) = match parse_ident(toks, pos) {
        Ok(v) => v,
        Err(e) => return Err(e),
    };
    match parse_var_assign(toks, cur) {
        Ok((a, end)) => Ok((VarStore { name, assign: PU::new(Span::new(cur, end), a) }, end)),
        Err(e) => Err(e),
    }
}

/// Parses a parameter: a type and a name.
pub fn parse_parameter(toks: &Vec<Token>, pos: usize) -> (r: ParseResult<Parameter>)
    requires
        pos <= toks.len(),
    ensures
        advanced(r, pos as int, toks.len() as int),
        r matches Ok((p, end)) ==> parameter_at(toks@, p, pos as int, end as int),
        pos + 2 <= toks.len() && is_ident_text(toks@[pos as int].string@) && is_ident_text(toks@[pos + 1].string@)
            ==> (r matches Ok((_, end)) && end == pos + 2),
        pos >= toks.len() || (!is_ident_text(toks@[pos as int].string@)
            && forall|w: BasicExtenWord| #[trigger] exten_keyword(w) != toks@[pos as int].string@)
            ==> r matches Err(ParseError::Unmatch(_)),
{
    let (ty, cur) = match parse_type_define(toks, pos) {
        Ok(v) => v,
        Err(e) => return Err(e),
    };
    let ty = PU::new(Span::new(pos, cur), ty);
    match parse_ident(toks, cur) {
        Ok((name, end)) => Ok((Parameter { inner: VarDefine { ty, name, init: None } }, end)),
        Err(e) => Err(e),
    }
}

/// Parses the parameters of a function.
pub fn parse_parameters(toks: &Vec<Token>, pos: usize) -> (r: ParseResult<Parameters>)
    requires
        pos <= toks.len(),
    ensures
        advanced(r, pos as int, toks.len() as int),
        r matches Ok((ps, end)) ==> parameters_at(toks@, ps, pos as int, end as int),
        !word_at(toks@, pos as int, "can1"@) ==> r matches Err(ParseError::Unmatch(_)),
        word_at(toks@, pos as int, "can1"@) && word_at(toks@, pos + 1, "jie2"@)
            ==> (r matches Ok((ps, end)) && end == pos + 2 && ps.params@.len() == 0),
{
    proof {
        lemma_jie2_starts_nothing();
    }
    match match_word(toks, pos, "can1") {
        Ok(_) => {},
        Err(e) => return Err(e),
    }
    let mut cur = pos + 1;
    let mut params: Vec<PU<Parameter>> = Vec::new();
    match parse_parameter(toks, cur) {
        Ok((p, end)) => {
            let pu = PU::new(Span::new(cur, end), p);
            proof {
                lemma_pu_spans_push(params@, pu);
                assert(pu_spans(Seq::<PU<Parameter>>::empty()) =~= Seq::<Span>::empty());
                assert(Seq::<Span>::empty().push(pu.span) =~= seq![pu.span]);
                lemma_separated_first(toks@, "fen1"@, pu.span);
            }
            params.push(pu);
            cur = end;
        }
        Err(ParseError::Unmatch(_)) => {
            return match must_match(match_word(toks, cur, "jie2")) {
                Ok((_, end)) => {
                    assert(pu_spans(params@) =~= Seq::<Span>::empty());
                    Ok((Parameters { params }, end))
                },
                Err(e) => Err(e),
            };
        }
        Err(e) => return Err(e),
    }
    loop
        invariant
            !word_at(toks@, pos + 1, "jie2"@),
            pos < cur <= toks.len(),
            word_at(toks@, pos as int, "can1"@),
            params@.len() > 0,
            spans_separated(toks@, pu_spans(params@), "fen1"@, pos + 1, cur as int),
            forall|i: int| 0 <= i < params@.len() ==>
                parameter_at(toks@, (#[trigger] params@[i]).item, params@[i].span.start as int, params@[i].span.end as int),
        decreases toks.len() - cur,
    {
        if !is_word(toks, cur, "fen1") {
            break;
        }
        match parse_parameter(toks, cur + 1) {
            Ok((p, end)) => {
                let pu = PU::new(Span::new(cur + 1, end), p);
                proof {
                    lemma_pu_spans_push(params@, pu);
                    lemma_separated_push(toks@, pu_spans(params@), "fen1"@, pos + 1, cur as int, pu.span);
                }
                params.push(pu);
                cur = end;
            }
            Err(e) => return Err(e),
        }
    }
    match must_match(match_word(toks, cur, "jie2")) {
        Ok((_, end)) => Ok((Parameters { params }, end)),
        Err(e) => Err(e),
    }
}

/// Parses conditions.
#[verifier::spinoff_prover]
#[verifier::rlimit(30)]
pub fn parse_conditions(toks: &Vec<Token>, pos: usize) -> (r: ParseResult<Conditions>)
    requires
        pos <= toks.len(),
    ensures
        advanced(r, pos as int, toks.len() as int),
        r matches Ok((c, end)) ==> conditions_at(toks@, c, pos as int, end as int),
        !word_at(toks@, pos as int, "can1"@) ==> r matches Err(ParseError::Unmatch(_)),
        forall|e: int| word_at(toks@, pos as int, "can1"@) && token_expr_at(toks@, pos + 1, e)
            && #[trigger] word_at(toks@, e, "jie2"@) ==> (r matches Ok((c, end)) && end == e + 1 && c.conds@.len() == 1),
{
    let ghost tgt: Option<int> = if exists|e: int| word_at(toks@, pos as int, "can1"@)
        && #[trigger] token_expr_at(toks@, pos + 1, e) && word_at(toks@, e, "jie2"@) {
        Some(choose|e: int| word_at(toks@, pos as int, "can1"@)
            && #[trigger] token_expr_at(toks@, pos + 1, e) && word_at(toks@, e, "jie2"@))
    } else {
        None
    };
    proof {
        reveal_strlit("jie2");
        reveal_strlit("fen1");
        assert("jie2"@[0] != "fen1"@[0]);
    }
    match match_word(toks, pos, "can1") {
        Ok(_) => {},
        Err(e) => return Err(e),
    }
    let mut cur = pos + 1;
    let mut conds: Vec<Expr> = Vec::new();
    let mut semicolons: Vec<Span> = Vec::new();
    match parse_expr(toks, cur) {
        Ok((e, end)) => {
            proof {
                crate::parse::expr::lemma_expr_spans_push(conds@, e);
                assert(expr_spans(Seq::<Expr>::empty()) =~= Seq::<Span>::empty());
                assert(Seq::<Span>::empty().push(e.span) =~= seq![e.span]);
                lemma_separated_first(toks@, "fen1"@, e.span);
            }
            conds.push(e);
            cur = end;
        }
        Err(ParseError::Unmatch(_)) => {
            return match must_match(match_word(toks, cur, "jie2")) {
                Ok((_, end)) => {
                    assert(expr_spans(conds@) =~= Seq::<Span>::empty());
                    Ok((Conditions { conds, semicolons }, end))
                },
                Err(e) => Err(e),
            };
        }
        Err(e) => return Err(e),
    }
    loop
        invariant
            pos < cur <= toks.len(),
            word_at(toks@, pos as int, "can1"@),
            semicolons@.len() + 1 == conds@.len(),
            spans_separated(toks@, expr_spans(conds@), "fen1"@, pos + 1, cur as int),
            forall|i: int| 0 <= i < semicolons@.len() ==>
                (#[trigger] semicolons@[i]).start == conds@[i].span.end && semicolons@[i].end == conds@[i].span.end + 1,
            forall|i: int| 0 <= i < conds@.len() ==>
                expr_at(toks@, #[trigger] conds@[i], conds@[i].span.start as int, conds@[i].span.end as int),
            tgt matches Some(e) ==> cur == e && conds@.len() == 1 && word_at(toks@, e, "jie2"@),
            tgt is None ==> forall|e: int| !(word_at(toks@, pos as int, "can1"@)
                && #[trigger] token_expr_at(toks@, pos + 1, e) && word_at(toks@, e, "jie2"@)),
            "jie2"@ != "fen1"@,
        decreases toks.len() - cur,
    {
        if !is_word(toks, cur, "fen1") {
            break;
        }
        match parse_expr(toks, cur + 1) {
            Ok((e, end)) => {
                proof {
                    crate::parse::expr::lemma_expr_spans_push(conds@, e);
                    lemma_separated_push(toks@, expr_spans(conds@), "fen1"@, pos + 1, cur as int, e.span);
                    assert(expr_spans(conds@).last() == conds@.last().span);
                }
                semicolons.push(Span::new(cur, cur + 1));
                conds.push(e);
                cur = end;
            }
            Err(e) => return Err(e),
        }
    }
    match must_match(match_word(toks, cur, "jie2")) {
        Ok((_, end)) => Ok((Conditions { conds, semicolons }, end)),
        Err(e) => Err(e),
    }
}

/// Parses `fan3`, an optional value and `fen1`.
#[verifier::spinoff_prover]
pub fn parse_return(toks: &Vec<Token>, pos: usize) -> (r: ParseResult<Return>)
    requires
        pos <= toks.len(),
    ensures
        advanced(r, pos as int, toks.len() as int),
        r matches Ok((x, end)) ==> return_at(toks@, x, pos as int, end as int),
        !word_at(toks@, pos as int, "fan3"@) ==> r matches Err(ParseError::Unmatch(_)),
        forall|e: int| word_at(toks@, pos as int, "fan3"@) && #[trigger] token_expr_at(toks@, pos + 1, e)
            && word_at(toks@, e, "fen1"@) ==> (r matches Ok((x, end)) && end == e + 1 && x.val is Some),
{
    match match_word(toks, pos, "fan3") {
        Ok(_) => {},
        Err(e) => return Err(e),
    }
    let (val, cur) = match parse_expr(toks, pos + 1) {
        Ok((e, end)) => (Some(e), end),
        Err(ParseError::Unmatch(_)) => (None, pos + 1),
        Err(e) => return Err(e),
    };
    match match_word(toks, cur, "fen1") {
        Ok((_, end)) => Ok((Return { val }, end)),
        Err(e) => Err(e),
    }
}

/// Parses a comment: `shi4` and every word up to the first `jie2`.
pub fn parse_comment(toks: &Vec<Token>, pos: usize) -> (r: ParseResult<Comment>)
    requires
        pos <= toks.len(),
    ensures
        advanced(r, pos as int, toks.len() as int),
        r matches Ok((_, end)) ==> comment_at(toks@, pos as int, end as int),
        r is Err ==> r matches Err(ParseError::Unmatch(_)),
        r is Ok <==> word_at(toks@, pos as int, "shi4"@)
            && exists|k: int| pos < k < toks.len() && #[trigger] word_at(toks@, k, "jie2"@),
{
    match match_word(toks, pos, "shi4") {
        Ok(_) => {},
        Err(e) => return Err(e),
    }
    let mut cur = pos + 1;
    loop
        invariant
            pos < cur <= toks.len(),
            word_at(toks@, pos as int, "shi4"@),
            forall|k: int| pos < k < cur ==> !word_at(toks@, k, "jie2"@),
        decreases toks.len() - cur,
    {
        if cur >= toks.len() {
            return crate::parse::unmatch(cur, "comment without end");
        }
        if is_word(toks, cur, "jie2") {
            return Ok((Comment, cur + 1));
        }
        cur = cur + 1;
    }
}

/// Parses a statement: a call, a store, a definition (each ended by `fen1`), an `if`, a
/// loop, a return, a comment or a block, tried in this order.
#[verifier::spinoff_prover]
#[verifier::rlimit(80)]
pub fn parse_statement(toks: &Vec<Token>, pos: usize) -> (r: ParseResult<Statement>)
    requires
        pos <= toks.len(),
    ensures
        advanced(r, pos as int, toks.len() as int),
        r matches Ok((st, end)) ==> statement_at(toks@, st, pos as int, end as int),
        pos + 4 <= toks.len() && is_ident_text(toks@[pos as int].string@) && word_at(toks@, pos + 1, "wei2"@)
            && operand_token(toks@[pos + 2].string@) && word_at(toks@, pos + 3, "fen1"@)
            ==> (r matches Ok((st, end)) && end == pos + 4 && st is VarStoreStmt),
        forall|e: int| pos + 2 <= toks.len() && is_ident_text(toks@[pos as int].string@) && word_at(toks@, pos + 1, "wei2"@)
            && #[trigger] token_expr_at(toks@, pos + 2, e) && word_at(toks@, e, "fen1"@)
            ==> (r matches Ok((st, end)) && end == e + 1 && st is VarStoreStmt),
        pos + 3 <= toks.len() && is_ident_text(toks@[pos as int].string@) && is_ident_text(toks@[pos + 1].string@)
            && word_at(toks@, pos + 2, "fen1"@) ==> (r matches Ok((st, end)) && end == pos + 3 && st is VarDefineStmt),
        forall|e: int| pos + 3 <= toks.len() && is_ident_text(toks@[pos as int].string@)
            && is_ident_text(toks@[pos + 1].string@) && word_at(toks@, pos + 2, "wei2"@)
            && #[trigger] token_expr_at(toks@, pos + 3, e) && word_at(toks@, e, "fen1"@)
            ==> (r matches Ok((st, end)) && end == e + 1 && st is VarDefineStmt),
        forall|e: int| word_at(toks@, pos as int, "fan3"@) && #[trigger] token_expr_at(toks@, pos + 1, e)
            && word_at(toks@, e, "fen1"@) ==> (r matches Ok((st, end)) && end == e + 1 && st is Return),
        forall|e: int| word_at(toks@, pos as int, "ruo4"@) && word_at(toks@, pos + 1, "can1"@)
            && #[trigger] token_expr_at(toks@, pos + 2, e) && word_at(toks@, e, "jie2"@)
            && word_at(toks@, e + 1, "han2"@) && word_at(toks@, e + 2, "jie2"@) && !word_at(toks@, e + 3, "ze2"@)
            ==> (r matches Ok((st, end)) && end == e + 3 && st is If),
        forall|e: int| word_at(toks@, pos as int, "chong2"@) && word_at(toks@, pos + 1, "can1"@)
            && #[trigger] token_expr_at(toks@, pos + 2, e) && word_at(toks@, e, "jie2"@)
            && word_at(toks@, e + 1, "han2"@) && word_at(toks@, e + 2, "jie2"@)
            ==> (r matches Ok((st, end)) && end == e + 3 && st is While),
        pos >= toks.len() || word_at(toks@, pos as int, "jie2"@) ==> r matches Err(ParseError::Unmatch(_)),
    decreases toks.len() - pos, 3int,
{
    proof {
        reveal_strlit("fen1");
        reveal_strlit("wei2");
        assert("fen1"@[0] != "wei2"@[0]);
        lemma_jie2_starts_nothing();
        lemma_statement_keywords();
        if pos < toks.len() && is_ident_text(toks@[pos as int].string@) {
            lemma_ident_starts_nothing(toks@[pos as int].string@);
        }
    }
    match parse_fn_call(toks, pos) {
        Ok((c, cur)) => {
            return match must_match(match_word(toks, cur, "fen1")) {
                Ok((_, end)) => Ok((Statement::FnCallStmt(Box::new(FnCallStmt(PU::new(Span::new(pos, cur), c)))), end)),
                Err(e) => Err(e),
            };
        }
        Err(ParseError::Unmatch(_)) => {},
        Err(e) => return Err(e),
    }
    match parse_var_store(toks, pos) {
        Ok((s, cur)) => {
            return match must_match(match_word(toks, cur, "fen1")) {
                Ok((_, end)) => Ok((Statement::VarStoreStmt(Box::new(VarStoreStmt(PU::new(Span::new(pos, cur), s)))), end)),
                Err(e) => Err(e),
            };
        }
        Err(ParseError::Unmatch(_)) => {},
        Err(e) => return Err(e),
    }
    match parse_var_define(toks, pos) {
        Ok((d, cur)) => {
            return match must_match(match_word(toks, cur, "fen1")) {
                Ok((_, end)) => Ok((Statement::VarDefineStmt(Box::new(VarDefineStmt(PU::new(Span::new(pos, cur), d)))), end)),
                Err(e) => Err(e),
            };
        }
        Err(ParseError::Unmatch(_)) => {},
        Err(e) => return Err(e),
    }
    match parse_if(toks, pos) {
        Ok((i, end)) => return Ok((Statement::If(Box::new(i)), end)),
        Err(ParseError::Unmatch(_)) => {},
        Err(e) => return Err(e),
    }
    match parse_while(toks, pos) {
        Ok((w, end)) => return Ok((Statement::While(Box::new(w)), end)),
        Err(ParseError::Unmatch(_)) => {},
        Err(e) => return Err(e),
    }
    match parse_return(toks, pos) {
        Ok((ret, end)) => return Ok((Statement::Return(Box::new(ret)), end)),
        Err(ParseError::Unmatch(_)) => {},
        Err(e) => return Err(e),
    }
    match parse_comment(toks, pos) {
        Ok((c, end)) => return Ok((Statement::Comment(Box::new(c)), end)),
        Err(_) => {},
    }
    match parse_code_block(toks, pos) {
        Ok((b, end)) => Ok((Statement::CodeBlock(Box::new(b)), end)),
        Err(e) => Err(e),
    }
}

/// The end of the infix expression of operand tokens, operator keywords and brackets that
/// starts at `pos`, if one does.
pub open spec fn token_expr_end(toks: Seq<Token>, pos: int) -> Option<int> {
    if exists|e: int| token_expr_at(toks, pos, e) {
        Some(choose|e: int| token_expr_at(toks, pos, e))
    } else {
        None
    }
}

/// Where such an expression at `pos` ends, if the word `w` follows it.
pub open spec fn expr_then(toks: Seq<Token>, pos: int, w: Seq<char>) -> Option<int> {
    match token_expr_end(toks, pos) {
        Some(e) => if word_at(toks, e, w) { Some(e) } else { None },
        None => None,
    }
}

/// The end of a plain statement at `pos`: a store, a definition with or without a value, a
/// return of a value, or an `if` of one branch or a loop whose body is empty, where each
/// value or condition is such an expression.
pub open spec fn plain_stmt_end(toks: Seq<Token>, pos: int) -> Option<int> {
    if word_at(toks, pos, "fan3"@) {
        match expr_then(toks, pos + 1, "fen1"@) {
            Some(e) => Some(e + 1),
            None => None,
        }
    } else if word_at(toks, pos, "ruo4"@) || word_at(toks, pos, "chong2"@) {
        if word_at(toks, pos + 1, "can1"@) {
            match expr_then(toks, pos + 2, "jie2"@) {
                Some(e) => if word_at(toks, e + 1, "han2"@) && word_at(toks, e + 2, "jie2"@)
                    && (word_at(toks, pos, "ruo4"@) ==> !word_at(toks, e + 3, "ze2"@)) {
                    Some(e + 3)
                } else {
                    None
                },
                None => None,
            }
        } else {
            None
        }
    } else if 0 <= pos && pos + 2 <= toks.len() && is_ident_text(toks[pos].string@) {
        if word_at(toks, pos + 1, "wei2"@) {
            match expr_then(toks, pos + 2, "fen1"@) {
                Some(e) => Some(e + 1),
                None => None,
            }
        } else if pos + 3 <= toks.len() && is_ident_text(toks[pos + 1].string@) {
            if word_at(toks, pos + 2, "fen1"@) {
                Some(pos + 3)
            } else if word_at(toks, pos + 2, "wei2"@) {
                match expr_then(toks, pos + 3, "fen1"@) {
                    Some(e) => Some(e + 1),
                    None => None,
                }
            } else {
                None
            }
        } else {
            None
        }
    } else {
        None
    }
}

/// The end of plain statements from `pos` up to and including a closing `jie2`.
pub open spec fn plain_stmts_end(toks: Seq<Token>, pos: int) -> Option<int>
    decreases toks.len() - pos,
{
    if word_at(toks, pos, "jie2"@) {
        Some(pos + 1)
    } else {
        match plain_stmt_end(toks, pos) {
            Some(q) => if pos < q <= toks.len() { plain_stmts_end(toks, q) } else { None },
            None => None,
        }
    }
}

/// The end of a block of plain statements at `pos`.
pub open spec fn plain_block_end(toks: Seq<Token>, pos: int) -> Option<int> {
    if word_at(toks, pos, "han2"@) { plain_stmts_end(toks, pos + 1) } else { None }
}

proof fn lemma_token_expr_end(toks: Seq<Token>, pos: int)
    ensures
        token_expr_end(toks, pos) matches Some(e) ==> token_expr_at(toks, pos, e),
{
}

/// Parses a block: `han2`, statements, `jie2`.
#[verifier::spinoff_prover]
pub fn parse_code_block(toks: &Vec<Token>, pos: usize) -> (r: ParseResult<CodeBlock>)
    requires
        pos <= toks.len(),
    ensures
        advanced(r, pos as int, toks.len() as int),
        r matches Ok((b, end)) ==> code_block_at(toks@, b, pos as int, end as int),
        !word_at(toks@, pos as int, "han2"@) ==> r matches Err(ParseError::Unmatch(_)),
        word_at(toks@, pos as int, "han2"@) && word_at(toks@, pos + 1, "jie2"@)
            ==> (r matches Ok((b, end)) && end == pos + 2 && b.stmts@.len() == 0),
        plain_block_end(toks@, pos as int) matches Some(e) ==> (r matches Ok((_, end)) && end == e),
    decreases toks.len() - pos, 2int,
{
    let ghost tgt = plain_block_end(toks@, pos as int);
    match match_word(toks, pos, "han2") {
        Ok(_) => {},
        Err(e) => return Err(e),
    }
    let mut cur = pos + 1;
    let mut stmts: Vec<Statement> = Vec::new();
    loop
        invariant
            word_at(toks@, pos + 1, "jie2"@) ==> cur == pos + 1 && stmts@.len() == 0,
            pos < cur <= toks.len(),
            word_at(toks@, pos as int, "han2"@),
            stmts_at(toks@, stmts@, pos + 1, cur as int),
            tgt == plain_block_end(toks@, pos as int),
            tgt matches Some(e) ==> plain_stmts_end(toks@, cur as int) == Some(e),
        ensures
            pos < cur <= toks.len(),
            word_at(toks@, pos as int, "han2"@),
            stmts_at(toks@, stmts@, pos + 1, cur as int),
            word_at(toks@, pos + 1, "jie2"@) ==> cur == pos + 1 && stmts@.len() == 0,
            tgt matches Some(e) ==> word_at(toks@, cur as int, "jie2"@) && e == cur + 1,
        decreases toks.len() - cur,
    {
        proof {
            lemma_token_expr_end(toks@, cur + 1);
            lemma_token_expr_end(toks@, cur + 2);
            lemma_token_expr_end(toks@, cur + 3);
        }
        match parse_statement(toks, cur) {
            Ok((st, end)) => {
                proof {
                    lemma_stmts_push(toks@, stmts@, st, pos + 1, cur as int, end as int);
                }
                stmts.push(st);
                cur = end;
            }
            Err(ParseError::Unmatch(_)) => break,
            Err(e) => return Err(e),
        }
    }
    match match_word(toks, cur, "jie2") {
        Ok((_, end)) => Ok((CodeBlock { stmts }, end)),
        Err(e) => Err(e),
    }
}

/// Parses `ruo4`, conditions and a block.
#[verifier::spinoff_prover]
pub fn parse_if_branch(toks: &Vec<Token>, pos: usize) -> (r: ParseResult<IfBranch>)
    requires
        pos <= toks.len(),
    ensures
        advanced(r, pos as int, toks.len() as int),
        r matches Ok((b, end)) ==> if_branch_at(toks@, b, true, pos as int, end as int),
        !word_at(toks@, pos as int, "ruo4"@) ==> r matches Err(ParseError::Unmatch(_)),
        forall|e: int| word_at(toks@, pos as int, "ruo4"@) && word_at(toks@, pos + 1, "can1"@)
            && #[trigger] token_expr_at(toks@, pos + 2, e) && word_at(toks@, e, "jie2"@)
            && word_at(toks@, e + 1, "han2"@) && word_at(toks@, e + 2, "jie2"@)
            ==> (r matches Ok((_, end)) && end == e + 3),
    decreases toks.len() - pos, 1int,
{
    match match_word(toks, pos, "ruo4") {
        Ok(_) => {},
        Err(e) => return Err(e),
    }
    let (conds, cur) = match parse_conditions(toks, pos + 1) {
        Ok(v) => v,
        Err(e) => return Err(e),
    };
    assert(cut(cur as int));
    match must_match(parse_code_block(toks, cur)) {
        Ok((body, end)) => Ok((IfBranch { conds, body }, end)),
        Err(e) => Err(e),
    }
}

/// Parses `ze2`, `ruo4`, conditions and a block.
#[verifier::spinoff_prover]
pub fn parse_else_if_branch(toks: &Vec<Token>, pos: usize) -> (r: ParseResult<IfBranch>)
    requires
        pos <= toks.len(),
    ensures
        advanced(r, pos as int, toks.len() as int),
        r matches Ok((b, end)) ==> if_branch_at(toks@, b, false, pos as int, end as int),
        !word_at(toks@, pos as int, "ze2"@) ==> r matches Err(ParseError::Unmatch(_)),
    decreases toks.len() - pos, 1int,
{
    match match_word(toks, pos, "ze2") {
        Ok(_) => {},
        Err(e) => return Err(e),
    }
    match match_word(toks, pos + 1, "ruo4") {
        Ok(_) => {},
        Err(e) => return Err(e),
    }
    let (conds, cur) = match parse_conditions(toks, pos + 2) {
        Ok(v) => v,
        Err(e) => return Err(e),
    };
    assert(cut(cur as int));
    match must_match(parse_code_block(toks, cur)) {
        Ok((body, end)) => Ok((IfBranch { conds, body }, end)),
        Err(e) => Err(e),
    }
}

/// Parses `ze2` and a block.
pub fn parse_else_branch(toks: &Vec<Token>, pos: usize) -> (r: ParseResult<ElseBranch>)
    requires
        pos <= toks.len(),
    ensures
        advanced(r, pos as int, toks.len() as int),
        r matches Ok((e, end)) ==> word_at(toks@, pos as int, "ze2"@) && code_block_at(toks@, e.block, pos + 1, end as int),
        !word_at(toks@, pos as int, "ze2"@) ==> r matches Err(ParseError::Unmatch(_)),
    decreases toks.len() - pos, 1int,
{
    match match_word(toks, pos, "ze2") {
        Ok(_) => {},
        Err(e) => return Err(e),
    }
    match must_match(parse_code_block(toks, pos + 1)) {
        Ok((block, end)) => Ok((ElseBranch { block }, end)),
        Err(e) => Err(e),
    }
}

/// Parses an `if`: a branch, `else if` branches, and an optional `else`.
#[verifier::spinoff_prover]
pub fn parse_if(toks: &Vec<Token>, pos: usize) -> (r: ParseResult<If>)
    requires
        pos <= toks.len(),
    ensures
        advanced(r, pos as int, toks.len() as int),
        r matches Ok((i, end)) ==> if_at(toks@, i, pos as int, end as int),
        !word_at(toks@, pos as int, "ruo4"@) ==> r matches Err(ParseError::Unmatch(_)),
        forall|e: int| word_at(toks@, pos as int, "ruo4"@) && word_at(toks@, pos + 1, "can1"@)
            && #[trigger] token_expr_at(toks@, pos + 2, e) && word_at(toks@, e, "jie2"@)
            && word_at(toks@, e + 1, "han2"@) && word_at(toks@, e + 2, "jie2"@) && !word_at(toks@, e + 3, "ze2"@)
            ==> (r matches Ok((i, end)) && end == e + 3 && i.branches@.len() == 1 && i.else_ is None),
    decreases toks.len() - pos, 2int,
{
    let ghost tgt: Option<int> = if exists|e: int| word_at(toks@, pos as int, "ruo4"@) && word_at(toks@, pos + 1, "can1"@)
        && #[trigger] token_expr_at(toks@, pos + 2, e) && word_at(toks@, e, "jie2"@)
        && word_at(toks@, e + 1, "han2"@) && word_at(toks@, e + 2, "jie2"@) && !word_at(toks@, e + 3, "ze2"@) {
        Some(choose|e: int| word_at(toks@, pos as int, "ruo4"@) && word_at(toks@, pos + 1, "can1"@)
            && #[trigger] token_expr_at(toks@, pos + 2, e) && word_at(toks@, e, "jie2"@)
            && word_at(toks@, e + 1, "han2"@) && word_at(toks@, e + 2, "jie2"@) && !word_at(toks@, e + 3, "ze2"@))
    } else {
        None
    };
    let (first, mut cur) = match parse_if_branch(toks, pos) {
        Ok(v) => v,
        Err(e) => return Err(e),
    };
    let mut branches: Vec<IfBranch> = Vec::new();
    proof {
        lemma_branches_push(toks@, branches@, first, pos as int, pos as int, cur as int);
    }
    branches.push(first);
    loop
        invariant
            pos < cur <= toks.len(),
            branches@.len() >= 1,
            word_at(toks@, pos as int, "ruo4"@),
            branches_at(toks@, branches@, pos as int, cur as int),
            tgt matches Some(e) ==> cur == e + 3 && !word_at(toks@, e + 3, "ze2"@) && branches@.len() == 1,
            tgt is None ==> forall|e: int| !(word_at(toks@, pos as int, "ruo4"@) && word_at(toks@, pos + 1, "can1"@)
                && #[trigger] token_expr_at(toks@, pos + 2, e) && word_at(toks@, e, "jie2"@)
                && word_at(toks@, e + 1, "han2"@) && word_at(toks@, e + 2, "jie2"@) && !word_at(toks@, e + 3, "ze2"@)),
        decreases toks.len() - cur,
    {
        match parse_else_if_branch(toks, cur) {
            Ok((b, end)) => {
                proof {
                    lemma_branches_push(toks@, branches@, b, pos as int, cur as int, end as int);
                }
                branches.push(b);
                cur = end;
            }
            Err(ParseError::Unmatch(_)) => break,
            Err(e) => return Err(e),
        }
    }
    assert(cut(cur as int));
    match parse_else_branch(toks, cur) {
        Ok((e, end)) => Ok((If { branches, else_: Some(e) }, end)),
        Err(ParseError::Unmatch(_)) => Ok((If { branches, else_: None }, cur)),
        Err(e) => Err(e),
    }
}

/// Parses a loop: `chong2`, conditions and a block, both of which must follow.
#[verifier::spinoff_prover]
pub fn parse_while(toks: &Vec<Token>, pos: usize) -> (r: ParseResult<While>)
    requires
        pos <= toks.len(),
    ensures
        advanced(r, pos as int, toks.len() as int),
        r matches Ok((w, end)) ==> while_at(toks@, w, pos as int, end as int),
        !word_at(toks@, pos as int, "chong2"@) ==> r matches Err(ParseError::Unmatch(_)),
        forall|e: int| word_at(toks@, pos as int, "chong2"@) && word_at(toks@, pos + 1, "can1"@)
            && #[trigger] token_expr_at(toks@, pos + 2, e) && word_at(toks@, e, "jie2"@)
            && word_at(toks@, e + 1, "han2"@) && word_at(toks@, e + 2, "jie2"@)
            ==> (r matches Ok((_, end)) && end == e + 3),
    decreases toks.len() - pos, 2int,
{
    match match_word(toks, pos, "chong2") {
        Ok(_) => {},
        Err(e) => return Err(e),
    }
    let (conds, cur) = match must_match(parse_conditions(toks, pos + 1)) {
        Ok(v) => v,
        Err(e) => return Err(e),
    };
    assert(cut(cur as int));
    match must_match(parse_code_block(toks, cur)) {
        Ok((block, end)) => Ok((While { conds, block }, end)),
        Err(e) => Err(e),
    }
}

/// The first place from `p` on where the word `w` stands, or the number of tokens.
pub open spec fn first_word(toks: Seq<Token>, p: int, w: Seq<char>) -> int
    decreases toks.len() - p,
{
    if p >= toks.len() {
        toks.len() as int
    } else if word_at(toks, p, w) {
        p
    } else {
        first_word(toks, p + 1, w)
    }
}

/// The end of a comment at `pos`: just after the first `jie2` that follows `shi4`.
pub open spec fn comment_end(toks: Seq<Token>, pos: int) -> Option<int> {
    if word_at(toks, pos, "shi4"@) && first_word(toks, pos + 1, "jie2"@) < toks.len() {
        Some(first_word(toks, pos + 1, "jie2"@) + 1)
    } else {
        None
    }
}

proof fn lemma_first_word(toks: Seq<Token>, p: int, k: int, w: Seq<char>)
    requires
        0 <= p <= k < toks.len(),
        word_at(toks, k, w),
        forall|j: int| p <= j < k ==> !word_at(toks, j, w),
    ensures
        first_word(toks, p, w) == k,
    decreases k - p,
{
    if p < k {
        lemma_first_word(toks, p + 1, k, w);
    }
}

proof fn lemma_first_word_found(toks: Seq<Token>, p: int, w: Seq<char>)
    requires
        0 <= p,
        first_word(toks, p, w) < toks.len(),
    ensures
        p <= first_word(toks, p, w),
        word_at(toks, first_word(toks, p, w), w),
    decreases toks.len() - p,
{
    if p < toks.len() && !word_at(toks, p, w) {
        lemma_first_word_found(toks, p + 1, w);
    }
}

/// `shi4` starts no function.
proof fn lemma_shi4_starts_comment()
    ensures
        "shi4"@ != "dao3chu1"@,
        forall|w: BasicExtenWord| #[trigger] exten_keyword(w) != "shi4"@,
        !is_ident_text("shi4"@),
{
    reveal_strlit("shi4");
    reveal_strlit("dao3chu1");
    reveal_strlit("zu3");
    reveal_strlit("kuan1");
    reveal_strlit("you3fu2");
    reveal_strlit("wu2fu2");
    reveal_strlit("yin3");
    reveal_strlit("she4");
    reveal_strlit("zhi3");
    assert(other_keywords()[12] == "shi4"@);
    let c = "shi4"@;
    assert(c.len() == 4 && c[0] == 's' && c[1] == 'h' && c[2] == 'i' && c[3] == '4');
    assert forall|w: BasicExtenWord| #[trigger] exten_keyword(w) != "shi4"@ by {
        let k = exten_keyword(w);
        if k == c {
            assert(k.len() == 4 && k[0] == 's' && k[1] == 'h');
        }
    }
}

/// The end of a plain function at `pos`: a type and a name, each a word that may name
/// something, no parameter (`can1 jie2`), and a block of plain statements.
pub open spec fn plain_fn_end(toks: Seq<Token>, pos: int) -> Option<int> {
    if 0 <= pos && pos + 4 <= toks.len() && is_ident_text(toks[pos].string@)
        && is_ident_text(toks[pos + 1].string@) && word_at(toks, pos + 2, "can1"@)
        && word_at(toks, pos + 3, "jie2"@) {
        plain_block_end(toks, pos + 4)
    } else {
        None
    }
}

/// The tokens from `pos` on are plain functions and comments, one after the other.
pub open spec fn plain_items(toks: Seq<Token>, pos: int) -> bool
    decreases toks.len() - pos,
{
    if pos >= toks.len() {
        pos == toks.len()
    } else {
        match plain_fn_end(toks, pos) {
            Some(q) => pos < q <= toks.len() && plain_items(toks, q),
            None => match comment_end(toks, pos) {
                Some(q) => pos < q <= toks.len() && plain_items(toks, q),
                None => false,
            },
        }
    }
}

/// A function with no parameter and an empty body: a type and a name, each a word that may
/// name something, then `can1 jie2 han2 jie2`.
pub open spec fn fn_skeleton_at(toks: Seq<Token>, pos: int) -> bool {
    &&& 0 <= pos && pos + 6 <= toks.len()
    &&& is_ident_text(toks[pos].string@)
    &&& is_ident_text(toks[pos + 1].string@)
    &&& word_at(toks, pos + 2, "can1"@)
    &&& word_at(toks, pos + 3, "jie2"@)
    &&& word_at(toks, pos + 4, "han2"@)
    &&& word_at(toks, pos + 5, "jie2"@)
}

/// Parses a function: an optional `dao3chu1`, the return type, the name, the parameters
/// and a block, which must follow.
#[verifier::spinoff_prover]
pub fn parse_fn_define(toks: &Vec<Token>, pos: usize) -> (r: ParseResult<FnDefine>)
    requires
        pos <= toks.len(),
    ensures
        advanced(r, pos as int, toks.len() as int),
        r matches Ok((f, end)) ==> fn_define_at(toks@, f, pos as int, end as int),
        fn_skeleton_at(toks@, pos as int) ==> (r matches Ok((f, end)) && end == pos + 6 && f.export is None
            && f.params.params@.len() == 0 && f.codes.stmts@.len() == 0),
        plain_fn_end(toks@, pos as int) matches Some(e) ==> (r matches Ok((f, end)) && end == e && f.export is None),
        pos < toks.len() && !word_at(toks@, pos as int, "dao3chu1"@) && !is_ident_text(toks@[pos as int].string@)
            && (forall|w: BasicExtenWord| #[trigger] exten_keyword(w) != toks@[pos as int].string@)
            ==> r matches Err(ParseError::Unmatch(_)),
{
    proof {
        if plain_fn_end(toks@, pos as int) is Some {
            lemma_ident_starts_nothing(toks@[pos as int].string@);
        }
        if fn_skeleton_at(toks@, pos as int) {
            lemma_ident_starts_nothing(toks@[pos as int].string@);
        }
    }
    let (export, start) = if is_word(toks, pos, "dao3chu1") {
        (Some(Span::new(pos, pos + 1)), pos + 1)
    } else {
        (None, pos)
    };
    let (ty, cur) = match parse_type_define(toks, start) {
        Ok(v) => v,
        Err(e) => return Err(e),
    };
    let retty_span = Span::new(start, cur);
    let (name, cur) = match parse_ident(toks, cur) {
        Ok(v) => v,
        Err(e) => return Err(e),
    };
    let params_start = cur;
    let (params, cur) = match parse_parameters(toks, cur) {
        Ok(v) => v,
        Err(e) => return Err(e),
    };
    let sign_span = retty_span.merge(Span::new(params_start, cur));
    match must_match(parse_code_block(toks, cur)) {
        Ok((codes, end)) => Ok((FnDefine { export, ty, name, params, codes, retty_span, sign_span }, end)),
        Err(e) => Err(e),
    }
}

/// Parses an item: a function or a comment.
#[verifier::spinoff_prover]
pub fn parse_item(toks: &Vec<Token>, pos: usize) -> (r: ParseResult<Item>)
    requires
        pos <= toks.len(),
    ensures
        advanced(r, pos as int, toks.len() as int),
        r matches Ok((it, end)) ==> item_at(toks@, it, pos as int, end as int),
        fn_skeleton_at(toks@, pos as int) ==> (r matches Ok((it, end)) && end == pos + 6 && it is FnDefine),
        plain_fn_end(toks@, pos as int) matches Some(e) ==> (r matches Ok((it, end)) && end == e && it is FnDefine),
        comment_end(toks@, pos as int) matches Some(e) ==> (r matches Ok((it, end)) && end == e && it is Comment),
{
    proof {
        lemma_shi4_starts_comment();
        if comment_end(toks@, pos as int) is Some {
            lemma_first_word_found(toks@, pos + 1, "jie2"@);
            assert(word_at(toks@, first_word(toks@, pos + 1, "jie2"@), "jie2"@));
        }
    }
    match parse_fn_define(toks, pos) {
        Ok((f, end)) => return Ok((Item::FnDefine(f), end)),
        Err(ParseError::Unmatch(_)) => {},
        Err(e) => return Err(e),
    }
    match parse_comment(toks, pos) {
        Ok((c, end)) => {
            proof {
                lemma_first_word(toks@, pos + 1, end - 1, "jie2"@);
            }
            Ok((Item::Comment(c), end))
        },
        Err(e) => Err(e),
    }
}

/// Parses all the tokens as items; an item must start at each place where one ends.
#[verifier::spinoff_prover]
pub fn parse_items(toks: &Vec<Token>) -> (r: Result<Vec<Item>, Error>)
    ensures
        r matches Ok(v) ==> items_at(toks@, v@, 0, toks@.len() as int),
        toks@.len() == 0 ==> (r matches Ok(v) && v@.len() == 0),
        plain_items(toks@, 0) ==> r is Ok,
{
    let mut items: Vec<Item> = Vec::new();
    let mut cur: usize = 0;
    while cur < toks.len()
        invariant
            cur <= toks.len(),
            toks@.len() == 0 ==> items@.len() == 0,
            items_at(toks@, items@, 0, cur as int),
            plain_items(toks@, 0) ==> plain_items(toks@, cur as int),
        decreases toks.len() - cur,
    {
        match parse_item(toks, cur) {
            Ok((item, end)) => {
                proof {
                    let n = items@.push(item);
                    assert(n.drop_last() == items@);
                    assert(n.last() == item);
                    assert(cut(cur as int));
                }
                items.push(item);
                cur = end;
            }
            Err(ParseError::Unmatch(e)) => return Err(e),
            Err(ParseError::Fatal(e)) => return Err(e),
        }
    }
    Ok(items)
}

} // verus!

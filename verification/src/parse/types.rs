use vstd::prelude::*;
use crate::lex::{chars_of, Token};
use crate::parse::number::{parse_usize, spec_parse_usize};
use crate::parse::{
    fatal, is_word, lemma_adjacent_push, lemma_pu_spans_push, match_word, must_match, next_token,
    parse_ident, pu_spans, spans_adjacent, word_at, Ident, ParseError, ParseResult, PU,
};
use crate::parse::is_ident_text;
use crate::span::{Error, Span};
use crate::syntax::{exten_keyword, BasicExtenWord};
use crate::text::text;
use crate::types::{ComplexType, PrimitiveType, TypeDefineV};

verus! {

/// The `she4` decorator: a constant.
#[derive(Debug)]
pub struct TypeConstExtend;

/// A size written as a number.
#[derive(Debug)]
pub struct Size {
    pub size: PU<usize>,
}

/// The `zu3` decorator: an array, with an optional size.
#[derive(Debug)]
pub struct TypeArrayExtend {
    pub keyword: PU<BasicExtenWord>,
    pub size: Option<Size>,
}

/// The `yin3` decorator: a reference.
#[derive(Debug)]
pub struct TypeReferenceExtend;

/// The `zhi3` decorator: a pointer.
#[derive(Debug)]
pub struct TypePointerExtend;

#[derive(Debug)]
pub enum TypeDecorators {
    TypeArrayExtend(TypeArrayExtend),
    TypeReferenceExtend(TypeReferenceExtend),
    TypePointerExtend(TypePointerExtend),
}

/// The `kuan1` decorator: a width in bits.
#[derive(Debug)]
pub struct TypeWidthExtend {
    pub width: Size,
}

/// The `you3fu2` or `wu2fu2` decorator: whether an integer is signed.
#[derive(Debug)]
pub struct TypeSignExtend {
    pub sign: bool,
}

/// A type as written: decorators, then the name.
#[derive(Debug)]
pub struct TypeDefine {
    pub const_: Option<PU<TypeConstExtend>>,
    pub decorators: Vec<PU<TypeDecorators>>,
    pub width: Option<PU<TypeWidthExtend>>,
    pub sign: Option<PU<TypeSignExtend>>,
    pub ty: Ident,
}

/// Parses a number that gives a size.
pub fn parse_size(toks: &Vec<Token>, pos: usize) -> (r: ParseResult<Size>)
    ensures
        r is Ok <==> pos < toks.len() && spec_parse_usize(toks@[pos as int].string@) is Some,
        r matches Ok((s, end)) ==> end == pos + 1 && Some(s.size.item) == spec_parse_usize(toks@[pos as int].string@),
        r is Err ==> r matches Err(ParseError::Unmatch(_)),
{
    let (token, end) = match next_token(toks, pos) {
        Ok(v) => v,
        Err(e) => return Err(e),
    };
    let chars = chars_of(token.as_str());
    match parse_usize(&chars) {
        Some(n) => Ok((Size { size: PU::new(Span::new(pos, end), n) }, end)),
        None => Err(ParseError::Unmatch(Error::new(Span::new(pos, end), text("expect a number")))),
    }
}

/// The type-extending keywords are all different.
pub proof fn lemma_exten_distinct()
    ensures
        forall|a: BasicExtenWord, b: BasicExtenWord| #[trigger] exten_keyword(a) == #[trigger] exten_keyword(b) ==> a == b,
{
    reveal_strlit("zu3");
    reveal_strlit("kuan1");
    reveal_strlit("you3fu2");
    reveal_strlit("wu2fu2");
    reveal_strlit("yin3");
    reveal_strlit("she4");
    reveal_strlit("zhi3");
    assert forall|a: BasicExtenWord, b: BasicExtenWord| #[trigger] exten_keyword(a) == #[trigger] exten_keyword(b) implies a == b by {
        let x = exten_keyword(a);
        let y = exten_keyword(b);
        assert(x[0] == y[0] && x[1] == y[1]);
    }
}

/// Where one decorator at `i` ends.
pub open spec fn decorators_step(toks: Seq<Token>, i: int) -> int {
    if word_at(toks, i, exten_keyword(BasicExtenWord::Array)) && i + 1 < toks.len() && spec_parse_usize(toks[i + 1].string@) is Some {
        i + 2
    } else {
        i + 1
    }
}

/// Where the decorators from `i` on end, as they are read: `zu3` with the size that follows,
/// where one does, `yin3` and `zhi3`.
pub open spec fn decorators_end(toks: Seq<Token>, i: int) -> int
    decreases toks.len() - i,
{
    if 0 <= i < toks.len() {
        if word_at(toks, i, exten_keyword(BasicExtenWord::Array)) {
            if i + 1 < toks.len() && spec_parse_usize(toks[i + 1].string@) is Some {
                decorators_end(toks, i + 2)
            } else {
                decorators_end(toks, i + 1)
            }
        } else if word_at(toks, i, exten_keyword(BasicExtenWord::Reference)) || word_at(toks, i, exten_keyword(BasicExtenWord::Pointer)) {
            decorators_end(toks, i + 1)
        } else {
            i
        }
    } else {
        i
    }
}

/// Where the name of a type written from `pos` stands, when the type is one: `she4` where
/// written, the decorators, `kuan1` and a number where written, `you3fu2` or `wu2fu2` where
/// written (no other type-extending keyword may stand there), then a word that may name
/// something.
pub open spec fn type_name_at(toks: Seq<Token>, pos: int) -> Option<int> {
    let c = if word_at(toks, pos, exten_keyword(BasicExtenWord::Const)) { pos + 1 } else { pos };
    let d = decorators_end(toks, c);
    let has_width = word_at(toks, d, exten_keyword(BasicExtenWord::Width));
    let width_ok = !has_width || (d + 1 < toks.len() && spec_parse_usize(toks[d + 1].string@) is Some);
    let w = if has_width { d + 2 } else { d };
    let has_sign = word_at(toks, w, exten_keyword(BasicExtenWord::Signed)) || word_at(toks, w, exten_keyword(BasicExtenWord::Unsigned));
    let sign_ok = has_sign || forall|k: BasicExtenWord| !word_at(toks, w, #[trigger] exten_keyword(k));
    let n = if has_sign { w + 1 } else { w };
    if width_ok && sign_ok && 0 <= n < toks.len() && is_ident_text(toks[n].string@) { Some(n) } else { None }
}

/// Parses one of the type-extending keywords.
pub fn parse_exten_word(toks: &Vec<Token>, pos: usize) -> (r: ParseResult<BasicExtenWord>)
    ensures
        r matches Ok((w, end)) ==> end == pos + 1 && word_at(toks@, pos as int, exten_keyword(w)),
        r is Err ==> r matches Err(ParseError::Unmatch(_)),
        (exists|w: BasicExtenWord| word_at(toks@, pos as int, #[trigger] exten_keyword(w))) ==> r is Ok,
{
    let words = [
        BasicExtenWord::Array,
        BasicExtenWord::Width,
        BasicExtenWord::Signed,
        BasicExtenWord::Unsigned,
        BasicExtenWord::Reference,
        BasicExtenWord::Const,
        BasicExtenWord::Pointer,
    ];
    let mut i: usize = 0;
    while i < 7
        invariant
            i <= 7,
            words@ == seq![
                BasicExtenWord::Array,
                BasicExtenWord::Width,
                BasicExtenWord::Signed,
                BasicExtenWord::Unsigned,
                BasicExtenWord::Reference,
                BasicExtenWord::Const,
                BasicExtenWord::Pointer,
            ],
            forall|k: int| 0 <= k < i ==> !word_at(toks@, pos as int, exten_keyword(#[trigger] words@[k])),
        decreases 7 - i,
    {
        let w = words[i];
        if is_word(toks, pos, w.keyword()) {
            return Ok((w, pos + 1));
        }
        i = i + 1;
    }
    proof {
        assert forall|w: BasicExtenWord| !word_at(toks@, pos as int, #[trigger] exten_keyword(w)) by {
            match w {
                BasicExtenWord::Array => assert(words@[0] == w),
                BasicExtenWord::Width => assert(words@[1] == w),
                BasicExtenWord::Signed => assert(words@[2] == w),
                BasicExtenWord::Unsigned => assert(words@[3] == w),
                BasicExtenWord::Reference => assert(words@[4] == w),
                BasicExtenWord::Const => assert(words@[5] == w),
                BasicExtenWord::Pointer => assert(words@[6] == w),
            }
        }
    }
    crate::parse::unmatch(pos, "expect a type extending keyword")
}

/// A decorator on the tokens `pos..end`: `zu3` with an optional size, `yin3` or `zhi3`.
pub open spec fn decorator_at(toks: Seq<Token>, d: TypeDecorators, pos: int, end: int) -> bool {
    &&& pos < end <= toks.len()
    &&& match d {
        TypeDecorators::TypeArrayExtend(a) => word_at(toks, pos, exten_keyword(BasicExtenWord::Array))
            && (a.size matches Some(s) ==> end == pos + 2 && Some(s.size.item) == spec_parse_usize(toks[pos + 1].string@))
            && (a.size is None ==> end == pos + 1),
        TypeDecorators::TypeReferenceExtend(_) => word_at(toks, pos, exten_keyword(BasicExtenWord::Reference)) && end == pos + 1,
        TypeDecorators::TypePointerExtend(_) => word_at(toks, pos, exten_keyword(BasicExtenWord::Pointer)) && end == pos + 1,
    }
}

/// A type on the tokens `pos..end`: `she4` where it is constant, the decorators one after
/// the other, `kuan1` and a width, a sign, each where written, then the name.
pub open spec fn type_define_at(toks: Seq<Token>, t: TypeDefine, pos: int, end: int) -> bool {
    let after_const = if t.const_ is Some { pos + 1 } else { pos };
    let ds = t.decorators@;
    let after_decorators = if ds.len() == 0 { after_const } else { ds.last().span.end as int };
    let after_width = match t.width { Some(w) => w.span.end as int, None => after_decorators };
    let after_sign = match t.sign { Some(s) => s.span.end as int, None => after_width };
    &&& (t.const_ is Some <==> word_at(toks, pos, exten_keyword(BasicExtenWord::Const)))
    &&& t.const_ matches Some(c) ==> c.span.start == pos && c.span.end == pos + 1
    &&& spans_adjacent(pu_spans(ds), after_const, after_decorators)
    &&& forall|i: int| 0 <= i < ds.len() ==>
            decorator_at(toks, (#[trigger] ds[i]).item, ds[i].span.start as int, ds[i].span.end as int)
    &&& t.width matches Some(w) ==> w.span.start == after_decorators && w.span.end == after_decorators + 2
            && word_at(toks, after_decorators, exten_keyword(BasicExtenWord::Width))
            && Some(w.item.width.size.item) == spec_parse_usize(toks[after_decorators + 1].string@)
    &&& t.sign matches Some(s) ==> s.span.start == after_width && s.span.end == after_width + 1 && (
            (s.item.sign && word_at(toks, after_width, exten_keyword(BasicExtenWord::Signed)))
            || (!s.item.sign && word_at(toks, after_width, exten_keyword(BasicExtenWord::Unsigned))))
    &&& end == after_sign + 1
    &&& 0 <= after_sign < toks.len()
    &&& t.ty.0.string@ == toks[after_sign].string@
}

/// Parses a decorator: an array, a reference or a pointer.
pub fn parse_type_decorator(toks: &Vec<Token>, pos: usize) -> (r: ParseResult<TypeDecorators>)
    ensures
        r matches Ok((d, end)) ==> decorator_at(toks@, d, pos as int, end as int),
        r is Err ==> r matches Err(ParseError::Unmatch(_)),
        r is Ok <==> word_at(toks@, pos as int, exten_keyword(BasicExtenWord::Array))
            || word_at(toks@, pos as int, exten_keyword(BasicExtenWord::Reference))
            || word_at(toks@, pos as int, exten_keyword(BasicExtenWord::Pointer)),
        r matches Ok((_, end)) ==> end == decorators_step(toks@, pos as int),
{
    proof {
        lemma_exten_distinct();
    }
    if is_word(toks, pos, BasicExtenWord::Array.keyword()) {
        let keyword = PU::new(Span::new(pos, pos + 1), BasicExtenWord::Array);
        match parse_size(toks, pos + 1) {
            Ok((size, end)) => Ok((TypeDecorators::TypeArrayExtend(TypeArrayExtend { keyword, size: Some(size) }), end)),
            Err(_) => Ok((TypeDecorators::TypeArrayExtend(TypeArrayExtend { keyword, size: None }), pos + 1)),
        }
    } else if is_word(toks, pos, BasicExtenWord::Reference.keyword()) {
        Ok((TypeDecorators::TypeReferenceExtend(TypeReferenceExtend), pos + 1))
    } else if is_word(toks, pos, BasicExtenWord::Pointer.keyword()) {
        Ok((TypeDecorators::TypePointerExtend(TypePointerExtend), pos + 1))
    } else {
        crate::parse::unmatch(pos, "expect a type decorator")
    }
}

/// Parses a width: `kuan1` and a number, which must follow.
pub fn parse_width(toks: &Vec<Token>, pos: usize) -> (r: ParseResult<TypeWidthExtend>)
    ensures
        r matches Ok((w, end)) ==> end == pos + 2 && word_at(toks@, pos as int, exten_keyword(BasicExtenWord::Width))
            && Some(w.width.size.item) == spec_parse_usize(toks@[pos + 1].string@),
        !word_at(toks@, pos as int, exten_keyword(BasicExtenWord::Width)) ==> r matches Err(ParseError::Unmatch(_)),
        word_at(toks@, pos as int, exten_keyword(BasicExtenWord::Width)) && r is Err ==> r matches Err(ParseError::Fatal(_)),
        r is Ok <==> word_at(toks@, pos as int, exten_keyword(BasicExtenWord::Width)) && pos + 1 < toks.len()
            && spec_parse_usize(toks@[pos + 1].string@) is Some,
{
    if !is_word(toks, pos, BasicExtenWord::Width.keyword()) {
        return crate::parse::unmatch(pos, "expect `kuan1`");
    }
    match must_match(parse_size(toks, pos + 1)) {
        Ok((width, end)) => Ok((TypeWidthExtend { width }, end)),
        Err(e) => Err(e),
    }
}

/// Parses a sign: `you3fu2` or `wu2fu2`; another type-extending keyword here is an error.
pub fn parse_sign(toks: &Vec<Token>, pos: usize) -> (r: ParseResult<TypeSignExtend>)
    ensures
        r matches Ok((s, end)) ==> end == pos + 1 && (
            (s.sign && word_at(toks@, pos as int, exten_keyword(BasicExtenWord::Signed)))
            || (!s.sign && word_at(toks@, pos as int, exten_keyword(BasicExtenWord::Unsigned)))),
        (forall|w: BasicExtenWord| !word_at(toks@, pos as int, #[trigger] exten_keyword(w))) ==> r matches Err(ParseError::Unmatch(_)),
        word_at(toks@, pos as int, exten_keyword(BasicExtenWord::Signed)) ==> (r matches Ok((s, end)) && s.sign && end == pos + 1),
        word_at(toks@, pos as int, exten_keyword(BasicExtenWord::Unsigned)) ==> (r matches Ok((s, end)) && !s.sign && end == pos + 1),
        (exists|w: BasicExtenWord| word_at(toks@, pos as int, #[trigger] exten_keyword(w)))
            && !word_at(toks@, pos as int, exten_keyword(BasicExtenWord::Signed))
            && !word_at(toks@, pos as int, exten_keyword(BasicExtenWord::Unsigned)) ==> r matches Err(ParseError::Fatal(_)),
{
    proof {
        lemma_exten_distinct();
    }
    let (w, end) = match parse_exten_word(toks, pos) {
        Ok(v) => v,
        Err(e) => return Err(e),
    };
    match w {
        BasicExtenWord::Signed => Ok((TypeSignExtend { sign: true }, end)),
        BasicExtenWord::Unsigned => Ok((TypeSignExtend { sign: false }, end)),
        _ => fatal(Span::new(pos, end), "should be `you3fu2` or `wu2fu2`"),
    }
}

/// Parses a type: `she4`, decorators, a width, a sign, each where written, then a name.
pub fn parse_type_define(toks: &Vec<Token>, pos: usize) -> (r: ParseResult<TypeDefine>)
    ensures
        r matches Ok((t, end)) ==> pos < end <= toks.len() && t.ty.0.string@ == toks@[end - 1].string@
            && type_define_at(toks@, t, pos as int, end as int),
        pos < toks.len() && is_ident_text(toks@[pos as int].string@) ==> (r matches Ok((t, end)) && end == pos + 1
            && t.const_ is None && t.decorators@.len() == 0 && t.width is None && t.sign is None),
        pos >= toks.len() || (!is_ident_text(toks@[pos as int].string@)
            && forall|w: BasicExtenWord| #[trigger] exten_keyword(w) != toks@[pos as int].string@)
            ==> r matches Err(ParseError::Unmatch(_)),
        r is Ok <==> type_name_at(toks@, pos as int) is Some,
        r matches Ok((_, end)) ==> type_name_at(toks@, pos as int) == Some(end - 1),
{
    proof {
        if pos < toks.len() && is_ident_text(toks@[pos as int].string@) {
            assert forall|w: BasicExtenWord| #[trigger] exten_keyword(w) != toks@[pos as int].string@ by {
                crate::syntax::law_enum_keywords_are_reserved(crate::syntax::Symbol::Export, crate::syntax::ControlFlow::If, w, crate::syntax::StructsDefinition::Struct);
            }
        }
    }
    let mut cur = pos;
    if pos > toks.len() {
        return crate::parse::unmatch(pos, "no token left");
    }
    let const_ = if is_word(toks, cur, BasicExtenWord::Const.keyword()) {
        cur = cur + 1;
        Some(PU::new(Span::new(pos, cur), TypeConstExtend))
    } else {
        None
    };
    let after_const = cur;
    let mut decorators: Vec<PU<TypeDecorators>> = Vec::new();
    assert(pu_spans(decorators@) =~= Seq::<Span>::empty());
    loop
        invariant
            pos <= after_const <= cur <= toks.len(),
            spans_adjacent(pu_spans(decorators@), after_const as int, cur as int),
            decorators@.len() == 0 ==> cur == after_const,
            decorators@.len() > 0 ==> decorators@.last().span.end == cur,
            forall|i: int| 0 <= i < decorators@.len() ==>
                decorator_at(toks@, (#[trigger] decorators@[i]).item, decorators@[i].span.start as int, decorators@[i].span.end as int),
            decorators_end(toks@, cur as int) == decorators_end(toks@, after_const as int),
            after_const == if word_at(toks@, pos as int, exten_keyword(BasicExtenWord::Const)) { pos + 1 } else { pos as int },
        ensures
            decorators_end(toks@, cur as int) == cur,
        decreases toks.len() - cur,
    {
        match parse_type_decorator(toks, cur) {
            Ok((d, end)) => {
                let pu = PU::new(Span::new(cur, end), d);
                proof {
                    lemma_pu_spans_push(decorators@, pu);
                    lemma_adjacent_push(pu_spans(decorators@), after_const as int, cur as int, pu.span);
                }
                decorators.push(pu);
                cur = end;
            }
            Err(_) => break,
        }
    }
    let width = match parse_width(toks, cur) {
        Ok((w, end)) => {
            let pu = PU::new(Span::new(cur, end), w);
            cur = end;
            Some(pu)
        }
        Err(ParseError::Unmatch(_)) => None,
        Err(e) => return Err(e),
    };
    let sign = match parse_sign(toks, cur) {
        Ok((s, end)) => {
            let pu = PU::new(Span::new(cur, end), s);
            cur = end;
            Some(pu)
        }
        Err(ParseError::Unmatch(_)) => None,
        Err(e) => return Err(e),
    };
    let (ty, end) = match parse_ident(toks, cur) {
        Ok(v) => v,
        Err(e) => return Err(e),
    };
    Ok((TypeDefine { const_, decorators, width, sign, ty }, end))
}

/// The decorator that a written decorator stands for.
pub open spec fn decorator_of(d: TypeDecorators) -> crate::types::TypeDecorators {
    match d {
        TypeDecorators::TypeArrayExtend(a) => match a.size {
            Some(s) => crate::types::TypeDecorators::SizedArray(s.size.item),
            None => crate::types::TypeDecorators::Array,
        },
        TypeDecorators::TypeReferenceExtend(_) => crate::types::TypeDecorators::Reference,
        TypeDecorators::TypePointerExtend(_) => crate::types::TypeDecorators::Pointer,
    }
}

/// The decorators of a complex type: `Const` first where written, then the others in order.
pub open spec fn complex_decorators(t: TypeDefine) -> Seq<crate::types::TypeDecorators> {
    let rest = t.decorators@.map_values(|d: PU<TypeDecorators>| decorator_of(d.item));
    if t.const_ is Some { seq![crate::types::TypeDecorators::Const] + rest } else { rest }
}

pub open spec fn zheng3() -> Seq<char> {
    seq!['z', 'h', 'e', 'n', 'g', '3']
}

pub open spec fn fu2() -> Seq<char> {
    seq!['f', 'u', '2']
}

/// The type a written type stands for, or `None` where it is refused: `zheng3` is an integer,
/// signed unless `wu2fu2`, 64 bits wide unless a width of 128 is given (other widths are
/// refused); `fu2` is a float of 32 or 64 bits (32 unless given), with no sign; any other
/// name is a complex type with its decorators, and takes neither width nor sign.
pub open spec fn spec_mir_ty(t: TypeDefine) -> Option<TypeDefineV> {
    let name = t.ty.0.string@;
    if name == zheng3() {
        let sign = match t.sign { Some(s) => s.item.sign, None => true };
        let width: int = match t.width { Some(w) => w.item.width.size.item as int, None => 64 };
        if width == 64 {
            Some(TypeDefineV::Primitive(if sign { PrimitiveType::I64 } else { PrimitiveType::U64 }))
        } else if width == 128 {
            Some(TypeDefineV::Primitive(if sign { PrimitiveType::I128 } else { PrimitiveType::U128 }))
        } else {
            None
        }
    } else if name == fu2() {
        let width: int = match t.width { Some(w) => w.item.width.size.item as int, None => 32 };
        if t.sign is Some {
            None
        } else if width == 32 {
            Some(TypeDefineV::Primitive(PrimitiveType::F32))
        } else if width == 64 {
            Some(TypeDefineV::Primitive(PrimitiveType::F64))
        } else {
            None
        }
    } else if t.sign is Some || t.width is Some {
        None
    } else {
        Some(TypeDefineV::Complex(complex_decorators(t), name))
    }
}

/// The width written with a type, if one is.
pub open spec fn written_width(t: TypeDefine) -> Option<int> {
    match t.width {
        Some(w) => Some(w.item.width.size.item as int),
        None => None,
    }
}

/// Whether the type is written unsigned (`wu2fu2`).
pub open spec fn written_unsigned(t: TypeDefine) -> bool {
    t.sign matches Some(s) && !s.item.sign
}

/// A written primitive type stands for a primitive type of the written width, with the
/// written sign: `zheng3` is a signed integer unless written `wu2fu2`, 64 bits wide unless
/// another width is written; `fu2` is a float, 32 bits wide unless another width is written.
/// The widths that have a type are accepted: 64 and 128 for `zheng3`, 32 and 64 for an
/// unsigned-less `fu2`. So `kuan1 64 fu2` is a 64-bit float.
pub proof fn law_written_primitive(t: TypeDefine)
    ensures
        spec_mir_ty(t) matches Some(TypeDefineV::Primitive(p)) ==> {
            &&& t.ty.0.string@ == zheng3() || t.ty.0.string@ == fu2()
            &&& p.spec_is_float() <==> t.ty.0.string@ == fu2()
            &&& p.spec_is_integer() ==> (p.spec_is_unsigned() <==> written_unsigned(t)) && (p.spec_is_signed() <==> !written_unsigned(t))
            &&& p.spec_width() == match written_width(t) {
                Some(w) => w,
                None => if t.ty.0.string@ == zheng3() { 64int } else { 32int },
            }
        },
        t.ty.0.string@ == zheng3() && (written_width(t) is None || written_width(t) == Some(64int)
            || written_width(t) == Some(128int)) ==> (spec_mir_ty(t) matches Some(TypeDefineV::Primitive(p)) && p.spec_is_integer()),
        t.ty.0.string@ == fu2() && t.sign is None && (written_width(t) is None || written_width(t) == Some(32int)
            || written_width(t) == Some(64int)) ==> (spec_mir_ty(t) matches Some(TypeDefineV::Primitive(p)) && p.spec_is_float()),
{
    assert(zheng3() != fu2());
}

impl TypeDefine {
    /// The type this written type stands for, or the error that refuses it.
    pub fn to_mir_ty(&self) -> (r: Result<crate::types::TypeDefine, Error>)
        ensures
            r matches Ok(t) ==> Some(t@) == spec_mir_ty(*self),
            r is Err <==> spec_mir_ty(*self) is None,
    {
        proof {
            reveal_strlit("zheng3");
            reveal_strlit("fu2");
            assert("zheng3"@ == zheng3());
            assert("fu2"@ == fu2());
        }
        let name = self.ty.as_str();
        if crate::declare::defs::str_eq(name, "zheng3") {
            let sign = match &self.sign {
                Some(s) => s.item.sign,
                None => true,
            };
            let width: usize = match &self.width {
                Some(w) => {
                    let n = w.item.width.size.item;
                    if n != 64 && n != 128 {
                        return Err(Error::new(w.span, text("`zheng3` with this width is not supported now")));
                    }
                    n
                }
                None => 64,
            };
            let p = if width == 64 {
                if sign { PrimitiveType::I64 } else { PrimitiveType::U64 }
            } else {
                if sign { PrimitiveType::I128 } else { PrimitiveType::U128 }
            };
            return Ok(crate::types::TypeDefine::Primitive(p));
        } else if crate::declare::defs::str_eq(name, "fu2") {
            if let Some(s) = &self.sign {
                return Err(Error::new(s.span, text("`fu2` type cant be decorated with `you3fu2` or `wu2fu2`")));
            }
            let width: usize = match &self.width {
                Some(w) => {
                    let n = w.item.width.size.item;
                    if n != 32 && n != 64 {
                        return Err(Error::new(w.span, text("`fu2` with this width is not supported now")));
                    }
                    n
                }
                None => 32,
            };
            let p = if width == 32 { PrimitiveType::F32 } else { PrimitiveType::F64 };
            return Ok(crate::types::TypeDefine::Primitive(p));
        }
        if let Some(s) = &self.sign {
            return Err(Error::new(s.span, text("this type with `you3fu2` or `wu2fu2` is not supported now")));
        }
        if let Some(w) = &self.width {
            return Err(Error::new(w.span, text("this type with `kuan1` is not supported now")));
        }
        let mut decorators: Vec<crate::types::TypeDecorators> = Vec::new();
        if self.const_.is_some() {
            decorators.push(crate::types::TypeDecorators::Const);
        }
        let ghost prefix = decorators@;
        let mut i: usize = 0;
        while i < self.decorators.len()
            invariant
                i <= self.decorators.len(),
                decorators@ == prefix + self.decorators@.take(i as int).map_values(|d: PU<TypeDecorators>| decorator_of(d.item)),
            decreases self.decorators.len() - i,
        {
            let d = match &self.decorators[i].item {
                TypeDecorators::TypeArrayExtend(a) => match &a.size {
                    Some(s) => crate::types::TypeDecorators::SizedArray(s.size.item),
                    None => crate::types::TypeDecorators::Array,
                },
                TypeDecorators::TypeReferenceExtend(_) => crate::types::TypeDecorators::Reference,
                TypeDecorators::TypePointerExtend(_) => crate::types::TypeDecorators::Pointer,
            };
            decorators.push(d);
            proof {
                assert(self.decorators@.take(i as int + 1) == self.decorators@.take(i as int).push(self.decorators@[i as int]));
            }
            i = i + 1;
        }
        assert(self.decorators@.take(i as int) == self.decorators@);
        let c = ComplexType { decorators, ty: self.ty.to_string() };
        Ok(crate::types::TypeDefine::Complex(c))
    }
}

} // verus!

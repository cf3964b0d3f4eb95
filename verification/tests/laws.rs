use pycc::declare::defs::{FnSign, Parameter};
use pycc::ir::{Return, Statement, Statements, Value};
use pycc::lex::tokenize;
use pycc::mangle::{ChineseMangler, Mangle, MangleItem, ManglePrefix, MangleUnit, Mangler};
use pycc::semantic::scope::{Defines, FnScope};
use pycc::span::Span;
use pycc::syntax::is_keeping_keyword;
use pycc::types::{PrimitiveType, TypeDefine};

fn prim(p: PrimitiveType) -> TypeDefine {
    TypeDefine::Primitive(p)
}

fn param(p: PrimitiveType, name: &str) -> Parameter {
    Parameter { ty: prim(p), name: name.to_string() }
}

fn sign(ret: PrimitiveType, params: Vec<Parameter>) -> FnSign {
    FnSign::new(prim(ret), params, Span { start: 0, end: 1 }, Span { start: 0, end: 2 })
}

fn ret() -> Statement<Value> {
    Statement::Return(Return { val: None })
}

fn block(returned: bool) -> Statement<Value> {
    Statement::Block(Statements { stmts: Vec::new(), returned })
}

#[test]
fn pushing_agrees_with_making_at_once() {
    let make = || vec![block(false), ret(), block(false)];
    let at_once = Statements::from_vec(make());
    let mut pushed: Statements<Value> = Statements::new();
    for s in make() {
        pushed.push(s);
    }
    assert!(at_once.returned);
    assert_eq!(pushed.returned, at_once.returned);

    let none = Statements::from_vec(vec![block(false), block(false)]);
    assert!(!none.returned);
}

#[test]
fn different_signatures_mangle_differently() {
    let m: Mangler<ChineseMangler> = Mangler::new(Vec::new());
    let a = m.mangle_fn("a", &sign(PrimitiveType::I64, vec![param(PrimitiveType::I64, "x")]));
    let b = m.mangle_fn("a", &sign(PrimitiveType::I64, vec![param(PrimitiveType::F32, "x")]));
    let c = m.mangle_fn("b", &sign(PrimitiveType::I64, vec![param(PrimitiveType::I64, "x")]));
    let d = m.mangle_fn("a", &sign(PrimitiveType::F32, vec![param(PrimitiveType::I64, "y")]));
    assert_eq!(a, "a 参 i64 结");
    assert_eq!(b, "a 参 f32 结");
    assert_ne!(a, b);
    assert_ne!(a, c);
    // the return type and the names of the parameters are not part of the name
    assert_eq!(a, d);
}

#[test]
fn a_defined_name_is_taken() {
    let mut defines: Defines<ChineseMangler> = Defines::new();
    let first = defines.regist_fn("f", sign(PrimitiveType::I64, vec![param(PrimitiveType::I64, "x")]));
    assert_eq!(first.expect("the first definition"), "f 参 i64 结");
    let again = defines.regist_fn("f", sign(PrimitiveType::F64, vec![param(PrimitiveType::I64, "y")]));
    assert!(again.is_err());
    let overload = defines.regist_fn("f", sign(PrimitiveType::I64, vec![param(PrimitiveType::U8, "x")]));
    assert_eq!(overload.expect("another signature"), "f 参 u8 结");
}

#[test]
fn temporary_names_are_never_words_of_a_source() {
    let mut scope = FnScope::new("f", &Vec::new(), &Vec::new());
    let first = scope.temp_name();
    let second = scope.temp_name();
    assert_eq!(first, " 0");
    assert_eq!(second, " 1");
    let src: Vec<char> = format!("han2 {first} {second} jie2").chars().collect();
    let toks = tokenize(&src);
    assert!(toks.iter().all(|t| t.as_str() != first && t.as_str() != second));
}

#[test]
fn keywords_of_every_kind_are_reserved() {
    for kw in ["jia1", "he2", "jie2", "han2", "ruo4", "ze2", "chong2", "fan3", "zu3", "kuan1", "dao3chu1", "can1"] {
        assert!(is_keeping_keyword(kw), "{kw}");
    }
    assert!(!is_keeping_keyword("jia"));
}

fn prefix_of_two() -> Vec<ManglePrefix> {
    vec![ManglePrefix::Mod("mo".to_string()), ManglePrefix::Type("ty".to_string())]
}

#[test]
fn a_mangler_mangles_as_a_unit_of_its_prefix() {
    let m: Mangler<ChineseMangler> = Mangler::new(prefix_of_two());
    let a = m.mangle(MangleItem::Type { ty: "i64".to_string() });
    let b = ChineseMangler::mangle(MangleUnit { prefix: prefix_of_two(), item: MangleItem::Type { ty: "i64".to_string() } });
    assert_eq!(a, b);
    let u = m.mangle_ty(&TypeDefine::Primitive(PrimitiveType::U8));
    assert!(matches!(&u.prefix[0], ManglePrefix::Mod(s) if s == "mo"));
    assert!(matches!(&u.prefix[1], ManglePrefix::Type(s) if s == "ty"));
    assert!(matches!(&u.item, MangleItem::Type { ty } if ty == "u8"));
}

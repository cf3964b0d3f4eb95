use std::rc::Rc;

use pycc::declare::error::DeclareError;
use pycc::declare::res::Type;
use pycc::lex::tokenize;
use pycc::parse::stmt::{parse_items, Item};
use pycc::span::{Message, Span};
use pycc::types::{PrimitiveType, TypeDefine};

fn text_of(m: &Message) -> (&str, Option<Span>) {
    match m {
        Message::Text(t) => (t.as_str(), None),
        Message::Rich(t, s) => (t.as_str(), Some(*s)),
    }
}

#[test]
fn a_located_error_points_its_first_message() {
    let ty = Type::Directly(Rc::new(TypeDefine::Primitive(PrimitiveType::I64)));
    let at = Span { start: 3, end: 5 };
    let e = DeclareError::Declared { declare_as: ty }.with_location(at);
    let msgs = e.generate();
    assert_eq!(msgs.len(), 1);
    assert_eq!(text_of(&msgs[0]), ("this has been declared as i64", Some(at)));
}

#[test]
fn a_previous_guess_is_noted_last() {
    let ty = Type::Directly(Rc::new(TypeDefine::Primitive(PrimitiveType::Bool)));
    let e = DeclareError::Filtered.with_previous(ty);
    let msgs = e.generate();
    assert_eq!(msgs.len(), 2);
    assert_eq!(text_of(&msgs[0]), ("this has been filtered", None));
    assert_eq!(text_of(&msgs[1]), ("note: this used to be guessed as bool", None));
}

#[test]
fn a_shared_error_explains_as_its_error() {
    let e = DeclareError::Filtered.into_shared();
    let msgs = e.generate();
    assert_eq!(msgs.len(), 1);
    assert_eq!(text_of(&msgs[0]), ("this has been filtered", None));
}

#[test]
fn should_align_points_both_sides() {
    let l = Span { start: 0, end: 1 };
    let r = Span { start: 2, end: 3 };
    let msgs = DeclareError::ShouldAlign { left: l, right: r }.generate();
    assert_eq!(msgs.len(), 3);
    assert_eq!(text_of(&msgs[1]), ("", Some(l)));
    assert_eq!(text_of(&msgs[2]), ("", Some(r)));
    assert!(DeclareError::Empty.generate().is_empty());
}

#[test]
fn a_function_covers_its_tokens() {
    let src: Vec<char> = "dao3chu1 zheng3 f can1 zheng3 a fen1 zheng3 b jie2 han2 fan3 a fen1 jie2".chars().collect();
    let toks = tokenize(&src);
    let items = parse_items(&toks).expect("the source parses");
    match &items[0] {
        Item::FnDefine(f) => {
            assert_eq!(f.export, Some(Span { start: 0, end: 1 }));
            assert_eq!(f.retty_span, Span { start: 1, end: 2 });
            assert_eq!(f.name.as_str(), "f");
            assert_eq!(f.sign_span, Span { start: 1, end: 10 });
            let spans: Vec<Span> = f.params.params.iter().map(|p| p.span).collect();
            assert_eq!(spans, vec![Span { start: 4, end: 6 }, Span { start: 7, end: 9 }]);
            assert_eq!(f.codes.stmts.len(), 1);
        }
        Item::Comment(_) => panic!("a function was expected"),
    }
}

#[test]
fn definitions_with_main_hold_main_alone() {
    let signs = pycc::declare::defs::FnSigns::new_with_main();
    let mains = signs.get_unmangled("main").expect("main is defined");
    assert_eq!(mains.len(), 1);
    assert_eq!(mains[0].name, "main");
    assert!(mains[0].sign.params.is_empty());
    assert!(mains[0].sign.ty.same_as(&TypeDefine::Primitive(PrimitiveType::I32)));
    assert!(signs.get_unmangled("other").is_none());
}

#[test]
fn a_default_mangler_has_no_prefix() {
    let m: pycc::mangle::Mangler<pycc::mangle::ChineseMangler> = Default::default();
    assert!(m.prefix.is_empty());
}

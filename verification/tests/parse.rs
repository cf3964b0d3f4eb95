use pycc::lex::{tokenize, Token};
use pycc::parse::expr::{parse_char_literal, parse_expr, parse_fn_call, parse_number_literal, parse_string_literal, AtomicExpr, ExprItem, NumberLiteral};
use pycc::parse::stmt::{parse_code_block, parse_comment, parse_fn_define, parse_if, parse_item, parse_items, parse_parameter, parse_statement, parse_var_define, parse_var_store, parse_while, Item, Statement};
use pycc::parse::types::parse_type_define;
use pycc::parse::{parse_ident, ParseError};
use pycc::semantic::support::is_rpn_ok;

fn toks(src: &str) -> Vec<Token> {
    let chars: Vec<char> = src.chars().collect();
    tokenize(&chars)
}

#[test]
fn char() {
    let t = toks("wen2 _t");
    let r = parse_char_literal(&t, 0);
    assert!(r.is_ok());
    assert_eq!(r.unwrap().0.parsed, '\t');
}

#[test]
fn string() {
    let t = toks("chuan4 _t11514___na");
    let r = parse_string_literal(&t, 0);
    assert!(r.is_ok());
    assert_eq!(r.unwrap().0.parsed, "\t11514_\na");
}

#[test]
fn number1() {
    let t = toks("114514");
    let r = parse_number_literal(&t, 0);
    assert!(r.is_ok());
    assert!(matches!(r.unwrap().0, NumberLiteral::Digit { number: 114514 }));
}

#[test]
fn number2() {
    let t = toks("114514.");
    let r = parse_number_literal(&t, 0);
    assert!(r.is_ok());
    match r.unwrap().0 {
        NumberLiteral::Float { number } => assert_eq!(number, "114514."),
        other => panic!("{other:?}"),
    }
}

#[test]
fn number3() {
    let t = toks("1919.810");
    let r = parse_number_literal(&t, 0);
    assert!(r.is_ok());
    match r.unwrap().0 {
        NumberLiteral::Float { number } => assert_eq!(number, "1919.810"),
        other => panic!("{other:?}"),
    }
}

#[test]
fn function_call() {
    let t = toks("ya1 1919810 fen1 chuan4 acminoac ru4 han2shu4");
    let r = parse_fn_call(&t, 0);
    assert!(r.is_ok());
    let (call, end) = r.unwrap();
    assert_eq!(end, t.len());
    assert_eq!(call.fn_name.as_str(), "han2shu4");
    assert_eq!(call.args.args.len(), 2);
}

#[test]
fn unary() {
    let t = toks("fei1 191810");
    assert!(parse_expr(&t, 0).is_ok());
}

#[test]
fn nested_unary() {
    let t = toks("fei1 fei1 fei1 fei1 191810");
    let r = parse_expr(&t, 0);
    assert!(r.is_ok());
    assert_eq!(r.unwrap().0.items.len(), 5);
}

#[test]
fn bracket() {
    let t = toks("fei1 jie2 114514 he2");
    let r = parse_expr(&t, 0);
    assert!(r.is_ok());
    let (e, end) = r.unwrap();
    assert_eq!(end, 4);
    // the number, then the negation: brackets are gone
    assert_eq!(e.items.len(), 2);
}

#[test]
fn complex_expr() {
    // 1919 + 810 * 114514 - 12
    let t = toks("1919 jia1 810 cheng2 114514 jian3 12");
    let r = parse_expr(&t, 0);
    assert!(r.is_ok());
    let (e, _) = r.unwrap();
    let shape: Vec<String> = e
        .items
        .iter()
        .map(|i| match i {
            ExprItem::AtomicExpr(a) => match &a.item {
                AtomicExpr::NumberLiteral(NumberLiteral::Digit { number }) => number.to_string(),
                _ => "?".to_string(),
            },
            ExprItem::Operators(op) => op.item.keyword().to_string(),
        })
        .collect();
    assert_eq!(shape, vec!["1919", "810", "114514", "cheng2", "jia1", "12", "jian3"]);
}

#[test]
fn if_statement() {
    let src = "
        ruo4 can1 jie2 1 da4 0 he2 huo4 jie2 2 xiao3 3 he2 yu3 fei1 fou3 jie2 han2
        jie2 ze2 han2
        jie2";
    let t = toks(src);
    let r = parse_if(&t, 0);
    assert!(r.is_ok());
    let (i, end) = r.unwrap();
    assert_eq!(end, t.len());
    assert_eq!(i.branches.len(), 1);
    assert!(i.else_.is_some());
}

#[test]
fn while_statement() {
    let src = "
        chong2 can1 i xiao3 5 jie2 han2 
            i wei2 i jia1 1 fen1 
        jie2";
    let t = toks(src);
    let r = parse_while(&t, 0);
    assert!(r.is_ok());
    assert_eq!(r.unwrap().1, t.len());
}

#[test]
fn code_block() {
    let t = toks("han2 jie2");
    let r = parse_code_block(&t, 0);
    assert!(r.is_ok());
    assert_eq!(r.unwrap().0.stmts.len(), 0);
}

#[test]
fn function_define() {
    let t = toks(
        "zheng3 zhu3 can1 zheng3 argc fen1 zhi3 zhi3 zi4 argv jie2
                    han2
                    jie2",
    );
    let r = parse_fn_define(&t, 0);
    assert!(r.is_ok());
    let (f, end) = r.unwrap();
    assert_eq!(end, t.len());
    assert_eq!(f.name.as_str(), "zhu3");
    assert_eq!(f.params.params.len(), 2);
    assert!(f.export.is_none());
}

#[test]
fn complex_funcion_define() {
    let t = toks(
        "zheng3 zhu3 can1 zheng3 argc fen1 zhi3 zu3 zi4 argv jie2 
                    han2
                        ruo4 can1 jie2 1 da4 0 he2 huo4 jie2 2 xiao3 3 he2 yu3 fei1 fou3 jie2
                        han2 
                            shi4 if ((1>0)||(2<3)&&!false){} else{} jie2
                        jie2 ze2 han2 
                        jie2
                    jie2",
    );
    let r = parse_fn_define(&t, 0);
    assert!(r.is_ok());
    assert_eq!(r.unwrap().1, t.len());
}

#[test]
fn comment() {
    let t = toks("shi4 ehhhaaaaaaaaaaaaaaaaaaaaaaaa jie2");
    let r = parse_comment(&t, 0);
    assert!(r.is_ok());
    assert_eq!(r.unwrap().1, 3);
}

#[test]
#[should_panic]
fn comment_without_ending() {
    let t = toks("shi4 ehhhaaaaaaaaaaaaaaaaaaaaaaaa ajie2");
    assert!(parse_code_block(&t, 0).is_ok(), "panic as expected");
}

#[test]
fn good_ident() {
    let t = toks("*)(&%^&*a(*&^%");
    assert!(parse_ident(&t, 0).is_ok());
}

#[test]
fn bad_ident() {
    let t = toks("1*)(&%^&*a(*&^%");
    assert!(parse_ident(&t, 0).is_err());
}

#[test]
fn e4chou4de1_ident() {
    let t = toks("114514");
    assert!(parse_ident(&t, 0).is_err());
}

#[test]
fn double_idnet() {
    let t = toks("a b");
    let a = parse_ident(&t, 0);
    assert!(a.is_ok());
    let (a, pos) = a.unwrap();
    assert_eq!(a.as_str(), "a");

    let b = parse_ident(&t, pos);
    assert!(b.is_ok());
    assert_eq!(b.unwrap().0.as_str(), "b");
}

#[test]
fn stmt_variable_define() {
    let t = toks("kuan1 32 zheng3 a");
    assert!(parse_var_define(&t, 0).is_ok());
}

#[test]
fn stmt_variable_define_init() {
    let t = toks("kuan1 32 zheng3 a wei2 114514 fen1");
    assert!(parse_var_define(&t, 0).is_ok());
    assert!(parse_statement(&t, 0).is_ok());
}

#[test]
fn stmt_variable_reassign() {
    let t = toks("a wei2 114514 fen1");
    assert!(parse_statement(&t, 0).is_ok());
    assert!(parse_var_store(&t, 0).is_ok());
}

#[test]
fn syntax_variable_define() {
    let t = toks("kuan1 32 zheng3 a");
    assert!(parse_var_define(&t, 0).is_ok());
}

#[test]
fn syntax_variable_define_init() {
    let src = "kuan1 32 zheng3 a wei2 114514 fen1";
    let t = toks(src);
    assert!(parse_var_define(&t, 0).is_ok());
    let s = parse_statement(&t, 0);
    assert!(s.is_ok());
    assert!(matches!(s.unwrap().0, Statement::VarDefineStmt(_)));
}

#[test]
fn syntax_variable_reassign() {
    let t = toks("a wei2 114514 fen1");
    let s = parse_statement(&t, 0);
    assert!(s.is_ok());
    assert!(matches!(s.unwrap().0, Statement::VarStoreStmt(_)));
    assert!(parse_var_store(&t, 0).is_ok());
}

#[test]
fn fucking_type() {
    let t = toks("yin3 zu3 114514 kuan1 32 wu2fu2 zheng3");
    let r = parse_type_define(&t, 0);
    assert!(r.is_ok());
    let (ty, end) = r.unwrap();
    assert_eq!(end, t.len());
    assert_eq!(ty.decorators.len(), 2);
    assert!(ty.width.is_some());
    assert!(!ty.sign.unwrap().item.sign);
}

#[test]
fn unmatched_right_bracket_is_fatal() {
    let t = toks("1 he2");
    assert!(matches!(parse_expr(&t, 0), Err(ParseError::Fatal(_))));
}

#[test]
fn unclosed_bracket_is_fatal() {
    let t = toks("jie2 1 jia1 2");
    assert!(matches!(parse_expr(&t, 0), Err(ParseError::Fatal(_))));
}

#[test]
fn invalid_escape_is_fatal() {
    let t = toks("chuan4 a_q");
    assert!(matches!(parse_string_literal(&t, 0), Err(ParseError::Fatal(_))));
    let t = toks("chuan4 a_");
    assert!(matches!(parse_string_literal(&t, 0), Err(ParseError::Fatal(_))));
    let t = toks("wen2 ab");
    assert!(matches!(parse_char_literal(&t, 0), Err(ParseError::Fatal(_))));
}

#[test]
fn number_forms() {
    let t = toks("+7 1e3 inf -2 2f0");
    assert!(matches!(parse_number_literal(&t, 0).unwrap().0, NumberLiteral::Digit { number: 7 }));
    assert!(matches!(parse_number_literal(&t, 1).unwrap().0, NumberLiteral::Float { .. }));
    assert!(matches!(parse_number_literal(&t, 2).unwrap().0, NumberLiteral::Float { .. }));
    assert!(matches!(parse_number_literal(&t, 3).unwrap().0, NumberLiteral::Float { .. }));
    assert!(matches!(&parse_number_literal(&t, 4).unwrap().0, NumberLiteral::Float { number } if number == "2.0"));
    let bad = toks("2f f0 2f0f1 2.5f1");
    for k in 0..4 {
        assert!(matches!(parse_number_literal(&bad, k), Err(ParseError::Unmatch(_))), "{k}");
    }
    let big = toks("99999999999999999999999");
    assert!(matches!(parse_number_literal(&big, 0).unwrap().0, NumberLiteral::Float { .. }));
}

#[test]
fn keywords_are_no_identifiers() {
    for word in ["jia1", "fen1", "han2", "jie2", "zu3", "dao3chu1", "fan3"] {
        let t = toks(word);
        assert!(parse_ident(&t, 0).is_err(), "{word}");
    }
}

#[test]
fn items_of_a_program() {
    let t = toks("shi4 a comment jie2 dao3chu1 zheng3 f can1 jie2 han2 fan3 1 fen1 jie2");
    let items = parse_items(&t).unwrap();
    assert_eq!(items.len(), 2);
    assert!(matches!(items[0], Item::Comment(_)));
    match &items[1] {
        Item::FnDefine(f) => assert!(f.export.is_some()),
        _ => panic!("a function"),
    }
    assert_eq!(parse_items(&toks("")).unwrap().len(), 0);
    assert!(parse_items(&toks("fen1")).is_err());
}

fn shape(items: &[ExprItem]) -> Vec<String> {
    items
        .iter()
        .map(|i| match i {
            ExprItem::AtomicExpr(a) => match &a.item {
                AtomicExpr::NumberLiteral(NumberLiteral::Digit { number }) => number.to_string(),
                AtomicExpr::Variable(v) => v.as_str().to_string(),
                _ => "?".to_string(),
            },
            ExprItem::Operators(op) => op.item.keyword().to_string(),
        })
        .collect()
}

#[test]
fn binary_expressions_come_out_computable() {
    // (1 - 2) * (3 + 4) - 5
    let t = toks("jie2 1 jian3 2 he2 cheng2 jie2 3 jia1 4 he2 jian3 5");
    let (e, end) = parse_expr(&t, 0).expect("an expression");
    assert_eq!(end, t.len());
    assert_eq!(shape(&e.items), vec!["1", "2", "jian3", "3", "4", "jia1", "cheng2", "5", "jian3"]);
    assert!(is_rpn_ok(&e.items));
}

#[test]
fn a_unary_operator_after_an_indexing_may_not_compute() {
    // the indexing is sent out before its second operand is read
    let t = toks("jie2 a cheng2 b he2 fang3su4 zhuan3 c");
    let (e, _) = parse_expr(&t, 0).expect("an expression");
    assert_eq!(shape(&e.items), vec!["a", "b", "cheng2", "fang3su4", "c", "zhuan3"]);
    assert!(!is_rpn_ok(&e.items));
}

#[test]
fn a_store_of_a_variable_is_one_statement() {
    let t = toks("a wei2 b fen1");
    let r = parse_statement(&t, 0);
    assert!(matches!(r, Ok((Statement::VarStoreStmt(_), 4))));
}

#[test]
fn the_end_of_a_block_starts_no_statement() {
    let t = toks("jie2");
    assert!(matches!(parse_statement(&t, 0), Err(ParseError::Unmatch(_))));
    assert!(matches!(parse_statement(&t, 1), Err(ParseError::Unmatch(_))));
}

#[test]
fn a_plain_type_is_one_word() {
    let t = toks("zheng3 a");
    let (ty, end) = parse_type_define(&t, 0).unwrap();
    assert_eq!(end, 1);
    assert!(ty.const_.is_none() && ty.decorators.is_empty() && ty.width.is_none() && ty.sign.is_none());
    let (_, end) = parse_parameter(&t, 0).unwrap();
    assert_eq!(end, 2);
}

#[test]
fn definitions_with_and_without_a_value() {
    let t = toks("zheng3 a fen1");
    let (d, end) = parse_var_define(&t, 0).unwrap();
    assert_eq!(end, 2);
    assert!(d.init.is_none());
    let t = toks("zheng3 a wei2 b fen1");
    let (d, end) = parse_var_define(&t, 0).unwrap();
    assert_eq!(end, 4);
    assert!(d.init.is_some());
}

#[test]
fn an_empty_function_is_an_item() {
    let t = toks("zheng3 f can1 jie2 han2 jie2");
    let (item, end) = parse_item(&t, 0).unwrap();
    assert_eq!(end, 6);
    match item {
        Item::FnDefine(f) => {
            assert!(f.export.is_none());
            assert!(f.params.params.is_empty());
            assert!(f.codes.stmts.is_empty());
        }
        _ => panic!("expected a function"),
    }
}

#[test]
fn a_variable_alone_is_an_expression() {
    let t = toks("a fen1");
    let (e, end) = parse_expr(&t, 0).unwrap();
    assert_eq!(end, 1);
    assert_eq!(e.items.len(), 1);
}

#[test]
fn a_definition_without_a_value_is_one_statement() {
    let t = toks("zheng3 a fen1");
    let r = parse_statement(&t, 0);
    assert!(matches!(r, Ok((Statement::VarDefineStmt(_), 3))));
}

#[test]
fn a_number_alone_is_an_expression() {
    let t = toks("114514 fen1");
    let (e, end) = parse_expr(&t, 0).unwrap();
    assert_eq!(end, 1);
    assert_eq!(e.items.len(), 1);
    match &e.items[0] {
        ExprItem::AtomicExpr(a) => assert!(matches!(a.item, AtomicExpr::NumberLiteral(NumberLiteral::Digit { number: 114514 }))),
        _ => panic!("expected an operand"),
    }
}

use pycc::codegen_llvm::{
    binary, if_layout, is_binary_lowerable, is_literal_lowerable, is_unary_lowerable, literal,
    llvm_type_of, lower_stmt, lower_stmts, type_scast, BinaryInst, FloatPredicate, IntPredicate,
    LlvmAction, LlvmConst, LlvmType, Part,
};
use pycc::compile::{generate_ast, generate_ir};
use pycc::ir::{Condition, If, IfBranch, Item, Literal, Return, Statement, Statements, Value, While};
use pycc::ops::Operators;
use pycc::semantic::items::GenerateError;
use pycc::semantic::support::is_items_supported;
use pycc::types::{PrimitiveType, TypeDefine};

#[test]
fn llvm_types_follow_the_width() {
    assert_eq!(llvm_type_of(PrimitiveType::Bool), LlvmType::Int(1));
    assert_eq!(llvm_type_of(PrimitiveType::U8), LlvmType::Int(8));
    assert_eq!(llvm_type_of(PrimitiveType::I16), LlvmType::Int(16));
    assert_eq!(llvm_type_of(PrimitiveType::U32), LlvmType::Int(32));
    assert_eq!(llvm_type_of(PrimitiveType::I64), LlvmType::Int(64));
    assert_eq!(llvm_type_of(PrimitiveType::U128), LlvmType::Int(128));
    assert_eq!(llvm_type_of(PrimitiveType::Usize), LlvmType::Int(64));
    assert_eq!(llvm_type_of(PrimitiveType::Isize), LlvmType::Int(64));
    assert_eq!(llvm_type_of(PrimitiveType::F32), LlvmType::F32);
    assert_eq!(llvm_type_of(PrimitiveType::F64), LlvmType::F64);
    assert_eq!(type_scast(&TypeDefine::Primitive(PrimitiveType::I8)), LlvmType::Int(8));
}

#[test]
fn integer_instructions_follow_the_sign() {
    assert_eq!(binary(PrimitiveType::I32, Operators::Div), BinaryInst::IntSignedDiv);
    assert_eq!(binary(PrimitiveType::U32, Operators::Div), BinaryInst::IntUnsignedDiv);
    assert_eq!(binary(PrimitiveType::I64, Operators::Mod), BinaryInst::IntSignedRem);
    assert_eq!(binary(PrimitiveType::Usize, Operators::Mod), BinaryInst::IntUnsignedRem);
    assert_eq!(binary(PrimitiveType::I8, Operators::Gt), BinaryInst::IntCompare(IntPredicate::SGT));
    assert_eq!(binary(PrimitiveType::U8, Operators::Gt), BinaryInst::IntCompare(IntPredicate::UGT));
    assert_eq!(binary(PrimitiveType::I16, Operators::Le), BinaryInst::IntCompare(IntPredicate::SLE));
    assert_eq!(binary(PrimitiveType::U16, Operators::Ge), BinaryInst::IntCompare(IntPredicate::UGE));
    assert_eq!(binary(PrimitiveType::U64, Operators::Lt), BinaryInst::IntCompare(IntPredicate::ULT));
    assert_eq!(binary(PrimitiveType::I64, Operators::Shr), BinaryInst::RightShift { signed: true });
    assert_eq!(binary(PrimitiveType::U64, Operators::Shr), BinaryInst::RightShift { signed: false });
    // the same instruction whatever the sign
    for (i, u) in [(PrimitiveType::I32, PrimitiveType::U32), (PrimitiveType::I128, PrimitiveType::U128)] {
        for op in [Operators::Add, Operators::Sub, Operators::Mul, Operators::Eq, Operators::Neq,
                   Operators::Band, Operators::Bor, Operators::Xor, Operators::Shl] {
            assert_eq!(binary(i, op), binary(u, op));
        }
    }
    assert_eq!(binary(PrimitiveType::I32, Operators::Add), BinaryInst::IntAdd);
    assert_eq!(binary(PrimitiveType::I32, Operators::Eq), BinaryInst::IntCompare(IntPredicate::EQ));
    assert_eq!(binary(PrimitiveType::U32, Operators::Neq), BinaryInst::IntCompare(IntPredicate::NE));
    assert_eq!(binary(PrimitiveType::U32, Operators::Band), BinaryInst::And);
}

#[test]
fn float_and_bool_instructions() {
    assert_eq!(binary(PrimitiveType::F64, Operators::Add), BinaryInst::FloatAdd);
    assert_eq!(binary(PrimitiveType::F32, Operators::Mod), BinaryInst::FloatRem);
    assert_eq!(binary(PrimitiveType::F64, Operators::Neq), BinaryInst::FloatCompare(FloatPredicate::ONE));
    assert_eq!(binary(PrimitiveType::F32, Operators::Le), BinaryInst::FloatCompare(FloatPredicate::OLE));
    assert_eq!(binary(PrimitiveType::Bool, Operators::And), BinaryInst::And);
    assert_eq!(binary(PrimitiveType::Bool, Operators::Or), BinaryInst::Or);
}

#[test]
fn lowerable_operations() {
    assert!(is_binary_lowerable(PrimitiveType::I32, Operators::Shl));
    assert!(!is_binary_lowerable(PrimitiveType::F32, Operators::Shl));
    assert!(!is_binary_lowerable(PrimitiveType::F64, Operators::Band));
    assert!(!is_binary_lowerable(PrimitiveType::Bool, Operators::Add));
    assert!(!is_binary_lowerable(PrimitiveType::I32, Operators::And));
    assert!(!is_binary_lowerable(PrimitiveType::I32, Operators::Pow));
    assert!(is_unary_lowerable(PrimitiveType::Bool, Operators::Not));
    assert!(is_unary_lowerable(PrimitiveType::U8, Operators::Not));
    assert!(!is_unary_lowerable(PrimitiveType::F64, Operators::Not));
    assert!(!is_unary_lowerable(PrimitiveType::I8, Operators::Sub));
}

#[test]
fn literals_as_constants() {
    assert_eq!(
        literal(&Literal::Integer(7), PrimitiveType::I16),
        LlvmConst::Int { width: 16, value: 7, sign_extend: true }
    );
    assert_eq!(
        literal(&Literal::Integer(114514), PrimitiveType::U64),
        LlvmConst::Int { width: 64, value: 114514, sign_extend: false }
    );
    assert_eq!(
        literal(&Literal::Char('中'), PrimitiveType::U32),
        LlvmConst::Int { width: 32, value: '中' as u64, sign_extend: false }
    );
    assert_eq!(
        literal(&Literal::Float("2.5".to_string()), PrimitiveType::F32),
        LlvmConst::Float { width: 32, text: "2.5".to_string() }
    );
    assert!(!is_literal_lowerable(&Literal::Integer(1), PrimitiveType::Bool));
    assert!(!is_literal_lowerable(&Literal::Char('a'), PrimitiveType::U8));
    assert!(!is_literal_lowerable(&Literal::Float("1.0".to_string()), PrimitiveType::I32));
    assert!(is_literal_lowerable(&Literal::Integer(1), PrimitiveType::I128));
}

fn block(returned: bool) -> Statements<Value> {
    Statements { stmts: Vec::new(), returned }
}

fn branch(returned: bool) -> IfBranch<Value> {
    IfBranch {
        cond: Condition { val: Value::Variable("c".to_string()), compute: block(false) },
        body: block(returned),
    }
}

#[test]
fn if_layout_with_a_block_after() {
    let if_ = If { branches: vec![branch(true), branch(false)], else_: None };
    let layout = if_layout(&if_);
    assert!(layout.after_exists);
    assert_eq!(layout.cond_blocks, 3);
    assert_eq!(layout.code_blocks, 3);
    assert_eq!(layout.jump_after, vec![false, true]);
}

#[test]
fn if_layout_that_surely_returns() {
    let if_ = If { branches: vec![branch(true), branch(true)], else_: Some(block(true)) };
    let layout = if_layout(&if_);
    assert!(!layout.after_exists);
    assert_eq!(layout.cond_blocks, 3);
    assert_eq!(layout.code_blocks, 2);
    assert_eq!(layout.jump_after, vec![false, false]);
}

const SOURCE: &str = "
zheng3 jia can1 zheng3 x jie2
han2
    fan3 x jia1 1 fen1
jie2
";

#[test]
fn front_end_to_ir() {
    let ast = generate_ast(SOURCE);
    assert_eq!(ast.chars, SOURCE.chars().collect::<Vec<_>>());
    let words: Vec<&str> = ast.tokens.iter().map(|t| t.as_str()).collect();
    assert_eq!(words[..4], ["zheng3", "jia", "can1", "zheng3"]);
    let items = ast.items.expect("the source parses");
    assert!(is_items_supported(&items));
    let ir = generate_ir(&items).expect("the source is valid");
    assert_eq!(ir.len(), 1);
    match &ir[0] {
        Item::FnDefine(f) => {
            assert_eq!(f.name, "jia 参 i64 结");
            assert!(f.body.returned);
            assert!(!f.export);
            assert_eq!(f.params.len(), 1);
            assert!(matches!(f.body.stmts.last(), Some(Statement::Return(_))));
            // one temporary for the one operator, then the return
            assert_eq!(f.body.stmts.len(), 2);
            assert!(matches!(&f.body.stmts[0], Statement::VarDefine(d) if d.is_temp));
        }
    }
}

#[test]
fn empty_source_has_no_items() {
    let ast = generate_ast(" \n\t ");
    assert!(ast.tokens.is_empty());
    assert!(ast.items.expect("nothing to parse").is_empty());
}

#[test]
fn redefinition_is_a_signature_error() {
    let src = "
zheng3 f can1 zheng3 x jie2 han2 fan3 x fen1 jie2
zheng3 f can1 zheng3 y jie2 han2 fan3 y fen1 jie2
";
    let items = generate_ast(src).items.expect("the source parses");
    match generate_ir(&items) {
        Err(GenerateError::Signatures(errors)) => assert_eq!(errors.len(), 1),
        other => panic!("expected a signature error, got {:?}", other.map(|v| v.len())),
    }
}

#[test]
fn undefined_variable_is_a_body_error() {
    let src = "zheng3 f can1 zheng3 x jie2 han2 fan3 y fen1 jie2";
    let items = generate_ast(src).items.expect("the source parses");
    match generate_ir(&items) {
        Err(GenerateError::Bodies(errors)) => {
            assert_eq!(errors.len(), 1);
            assert!(!errors[0].is_empty());
        }
        other => panic!("expected a body error, got {:?}", other.map(|v| v.len())),
    }
}

#[test]
fn assigning_a_parameter_is_an_error() {
    let src = "zheng3 f can1 zheng3 x jie2 han2 x wei2 1 fen1 fan3 x fen1 jie2";
    let items = generate_ast(src).items.expect("the source parses");
    match generate_ir(&items) {
        Err(GenerateError::Bodies(errors)) => {
            assert_eq!(errors.len(), 1);
            assert!(errors[0][0].reason.starts_with("cant assign to a immmutable variable"));
        }
        other => panic!("expected a body error, got {:?}", other.map(|v| v.len())),
    }
}

#[test]
fn a_variable_of_a_block_is_not_seen_after_it() {
    let src = "zheng3 f can1 zheng3 x jie2 han2 han2 zheng3 y wei2 x fen1 jie2 fan3 y fen1 jie2";
    let items = generate_ast(src).items.expect("the source parses");
    match generate_ir(&items) {
        Err(GenerateError::Bodies(errors)) => {
            assert_eq!(errors[0][0].reason, "use of undefined variable");
        }
        other => panic!("expected a body error, got {:?}", other.map(|v| v.len())),
    }
}

#[test]
fn a_variable_can_be_assigned_after_its_definition() {
    let src = "zheng3 f can1 zheng3 x jie2 han2 zheng3 y wei2 x fen1 y wei2 y jia1 1 fen1 fan3 y fen1 jie2";
    let items = generate_ast(src).items.expect("the source parses");
    let ir = generate_ir(&items).expect("the source is valid");
    match &ir[0] {
        Item::FnDefine(f) => {
            assert!(f.body.stmts.iter().any(|s| matches!(s, Statement::VarStore(v) if v.name == "y")));
        }
    }
}

#[test]
fn an_invalid_type_is_a_signature_error() {
    let src = "kuan1 32 zheng3 f can1 zheng3 x jie2 han2 fan3 x fen1 jie2";
    let items = generate_ast(src).items.expect("the source parses");
    match generate_ir(&items) {
        Err(GenerateError::Signatures(errors)) => assert_eq!(errors.len(), 1),
        other => panic!("expected a signature error, got {:?}", other.map(|v| v.len())),
    }
}

#[test]
fn overloads_by_parameter_types_are_accepted() {
    let src = "
zheng3 a can1 zheng3 a jie2 han2 fan3 a jia1 1 fen1 jie2
fu2 a can1 fu2 a jie2 han2 fan3 a fen1 jie2
";
    let items = generate_ast(src).items.expect("the source parses");
    let ir = generate_ir(&items).expect("different parameter types make different functions");
    let names: Vec<&str> = ir.iter().map(|Item::FnDefine(f)| f.name.as_str()).collect();
    assert_eq!(names, vec!["a 参 i64 结", "a 参 f32 结"]);
}

#[test]
fn one_temporary_per_operator_and_call() {
    let src = "
zheng3 g can1 zheng3 x jie2 han2 fan3 x fen1 jie2
zheng3 f can1 zheng3 x jie2 han2 fan3 ya1 x jia1 1 ru4 g cheng2 2 jian3 x fen1 jie2
";
    let items = generate_ast(src).items.expect("the source parses");
    let ir = generate_ir(&items).expect("the source is valid");
    match &ir[1] {
        Item::FnDefine(f) => {
            // x jia1 1, the call of g, cheng2, jian3: four temporaries, then the return
            assert_eq!(f.body.stmts.len(), 5);
            assert!(f.body.stmts[..4].iter().all(|s| matches!(s, Statement::VarDefine(d) if d.is_temp)));
        }
    }
}

#[test]
fn statements_before_a_condition_become_its_computation() {
    let src = "
zheng3 f can1 zheng3 x jie2
han2
    zheng3 y wei2 x fen1
    ruo4 can1 y da4 0 jie2 han2 fan3 1 fen1 jie2 ze2 han2 fan3 0 fen1 jie2
jie2";
    let items = generate_ast(src).items.expect("the source parses");
    let ir = generate_ir(&items).expect("the source is valid");
    match &ir[0] {
        Item::FnDefine(f) => {
            assert_eq!(f.body.stmts.len(), 1);
            match &f.body.stmts[0] {
                Statement::If(i) => {
                    let compute = &i.branches[0].cond.compute.stmts;
                    // the definition of y, then the temporary of the comparison
                    assert_eq!(compute.len(), 2);
                    assert!(matches!(&compute[0], Statement::VarDefine(d) if d.name == "y" && !d.is_temp));
                    assert!(matches!(&compute[1], Statement::VarDefine(d) if d.is_temp));
                }
                _ => panic!("an if was expected"),
            }
        }
    }
}

#[test]
fn while_is_lowered_to_three_blocks() {
    let while_ = Statement::While(While {
        cond: Condition { val: Value::Variable("c".to_string()), compute: block(false) },
        body: block(false),
    });
    let plan = lower_stmt(&while_);
    assert_eq!(
        plan,
        vec![
            LlvmAction::NewBlock,
            LlvmAction::NewBlock,
            LlvmAction::NewBlock,
            LlvmAction::Jump(0),
            LlvmAction::PositionAt(0),
            LlvmAction::Compute(Part::WhileCond),
            LlvmAction::Branch(Part::WhileCond, 1, 2),
            LlvmAction::PositionAt(1),
            LlvmAction::Scoped(Part::WhileBody),
            LlvmAction::Jump(0),
            LlvmAction::PositionAt(2),
        ]
    );
}

#[test]
fn if_is_lowered_with_a_block_after() {
    let if_ = Statement::If(If { branches: vec![branch(true), branch(false)], else_: None });
    let plan = lower_stmt(&if_);
    assert_eq!(
        plan,
        vec![
            LlvmAction::NewBlock,
            LlvmAction::NewBlock,
            LlvmAction::NewBlock,
            LlvmAction::NewBlock,
            LlvmAction::NewBlock,
            LlvmAction::NewBlock,
            LlvmAction::Jump(0),
            LlvmAction::PositionAt(0),
            LlvmAction::Compute(Part::IfCond(0)),
            LlvmAction::Branch(Part::IfCond(0), 3, 1),
            LlvmAction::PositionAt(3),
            LlvmAction::Scoped(Part::IfBody(0)),
            LlvmAction::PositionAt(1),
            LlvmAction::Compute(Part::IfCond(1)),
            LlvmAction::Branch(Part::IfCond(1), 4, 2),
            LlvmAction::PositionAt(4),
            LlvmAction::Scoped(Part::IfBody(1)),
            LlvmAction::Jump(5),
            LlvmAction::PositionAt(2),
            LlvmAction::Jump(5),
            LlvmAction::PositionAt(5),
        ]
    );
}

#[test]
fn if_that_surely_returns_has_no_block_after() {
    let if_ = Statement::If(If { branches: vec![branch(true)], else_: Some(block(true)) });
    let plan = lower_stmt(&if_);
    assert_eq!(
        plan,
        vec![
            LlvmAction::NewBlock,
            LlvmAction::NewBlock,
            LlvmAction::NewBlock,
            LlvmAction::Jump(0),
            LlvmAction::PositionAt(0),
            LlvmAction::Compute(Part::IfCond(0)),
            LlvmAction::Branch(Part::IfCond(0), 2, 1),
            LlvmAction::PositionAt(2),
            LlvmAction::Scoped(Part::IfBody(0)),
            LlvmAction::PositionAt(1),
            LlvmAction::Scoped(Part::Else),
        ]
    );
}

#[test]
fn statements_are_lowered_one_plan_each() {
    let stmts = Statements {
        stmts: vec![Statement::Block(block(false)), Statement::Return(Return { val: None })],
        returned: true,
    };
    let plans = lower_stmts(&stmts);
    assert_eq!(plans, vec![vec![LlvmAction::Scoped(Part::Block)], vec![LlvmAction::Return]]);
}

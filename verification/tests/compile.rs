use std::collections::HashMap;

use pycc::ir::{AssignValue, Item, Literal, Operate, Statement, Statements, Value};
use pycc::lex::tokenize;
use pycc::mangle::ChineseMangler;
use pycc::ops::Operators;
use pycc::parse::stmt::parse_items;
use pycc::semantic::items::generate_items;
use pycc::semantic::scope::Defines;
use pycc::semantic::support::is_items_supported;

fn test_generate_ir(src: &str) -> Vec<Item<Value>> {
    let chars: Vec<char> = src.chars().collect();
    let toks = tokenize(&chars);
    let ast = parse_items(&toks).expect("the source parses");
    assert!(is_items_supported(&ast));
    let mut defines: Defines<ChineseMangler> = Defines::new();
    match generate_items(&mut defines, &ast) {
        Ok(ir) => ir,
        Err(e) => panic!("generation failed: {:?}", e),
    }
}

#[derive(Clone, Copy, Debug, PartialEq)]
enum Val {
    I(i128),
    F(f64),
    B(bool),
}

/// Runs functions of the IR by their mangled names.
struct Machine<'a> {
    fns: HashMap<&'a str, &'a pycc::ir::FnDefine<Value>>,
}

enum Flow {
    Next,
    Ret(Option<Val>),
}

impl<'a> Machine<'a> {
    fn new(items: &'a [Item<Value>]) -> Self {
        let mut fns = HashMap::new();
        for item in items {
            match item {
                Item::FnDefine(f) => {
                    fns.insert(f.name.as_str(), f);
                }
            }
        }
        Machine { fns }
    }

    fn call(&self, name: &str, args: &[Val]) -> Option<Val> {
        let f = self.fns.get(name).unwrap_or_else(|| panic!("no function {name:?}"));
        let mut env: Vec<(String, Val)> = Vec::new();
        for (p, a) in f.params.iter().zip(args) {
            env.push((p.name.clone(), *a));
        }
        match self.block(&f.body, &mut env) {
            Flow::Ret(v) => v,
            Flow::Next => None,
        }
    }

    fn value(&self, v: &Value, env: &[(String, Val)]) -> Val {
        match v {
            Value::Variable(n) => env.iter().rev().find(|(k, _)| k == n).map(|(_, v)| *v).unwrap_or_else(|| panic!("no variable {n:?}")),
            Value::Literal(l, p) => match l {
                Literal::Char(c) => Val::I(*c as i128),
                Literal::Integer(n) => {
                    if p.is_float() {
                        Val::F(*n as f64)
                    } else {
                        Val::I(*n as i128)
                    }
                }
                Literal::Float(s) => Val::F(s.parse::<f64>().unwrap()),
            },
        }
    }

    fn binary(op: Operators, l: Val, r: Val) -> Val {
        match (l, r) {
            (Val::I(a), Val::I(b)) => match op {
                Operators::Add => Val::I(a + b),
                Operators::Sub => Val::I(a - b),
                Operators::Mul => Val::I(a * b),
                Operators::Div => Val::I(a / b),
                Operators::Mod => Val::I(a % b),
                Operators::Shl => Val::I(a << b),
                Operators::Shr => Val::I(a >> b),
                Operators::Eq => Val::B(a == b),
                Operators::Neq => Val::B(a != b),
                Operators::Lt => Val::B(a < b),
                Operators::Gt => Val::B(a > b),
                Operators::Le => Val::B(a <= b),
                Operators::Ge => Val::B(a >= b),
                _ => panic!("operator {op:?} on integers"),
            },
            (Val::F(a), Val::F(b)) => match op {
                Operators::Add => Val::F(a + b),
                Operators::Sub => Val::F(a - b),
                Operators::Mul => Val::F(a * b),
                Operators::Div => Val::F(a / b),
                Operators::Eq => Val::B(a == b),
                Operators::Lt => Val::B(a < b),
                Operators::Gt => Val::B(a > b),
                _ => panic!("operator {op:?} on floats"),
            },
            (Val::B(a), Val::B(b)) => match op {
                Operators::And => Val::B(a && b),
                Operators::Or => Val::B(a || b),
                Operators::Eq => Val::B(a == b),
                _ => panic!("operator {op:?} on bools"),
            },
            _ => panic!("mixed operands"),
        }
    }

    fn assign(&self, a: &AssignValue, env: &[(String, Val)]) -> Val {
        match a {
            AssignValue::Value(v) => self.value(v, env),
            AssignValue::FnCall(c) => {
                let args: Vec<Val> = c.args.iter().map(|v| self.value(v, env)).collect();
                self.call(&c.fn_name, &args).expect("the call returns a value")
            }
            AssignValue::Operate(Operate::Binary(op, l, r), _) => Self::binary(*op, self.value(l, env), self.value(r, env)),
            AssignValue::Operate(Operate::Unary(op, v), _) => match (op, self.value(v, env)) {
                (Operators::Not, Val::B(b)) => Val::B(!b),
                (Operators::Bnot, Val::I(i)) => Val::I(!i),
                (op, v) => panic!("unary {op:?} on {v:?}"),
            },
        }
    }

    fn stmts(&self, ss: &[Statement<Value>], env: &mut Vec<(String, Val)>) -> Flow {
        for s in ss {
            if let Flow::Ret(v) = self.stmt(s, env) {
                return Flow::Ret(v);
            }
        }
        Flow::Next
    }

    fn block(&self, b: &Statements<Value>, env: &mut Vec<(String, Val)>) -> Flow {
        let depth = env.len();
        let flow = self.stmts(&b.stmts, env);
        env.truncate(depth);
        flow
    }

    fn stmt(&self, s: &Statement<Value>, env: &mut Vec<(String, Val)>) -> Flow {
        match s {
            Statement::VarDefine(d) => {
                let v = match &d.init {
                    Some(a) => self.assign(a, env),
                    None => Val::I(0),
                };
                env.push((d.name.clone(), v));
                Flow::Next
            }
            Statement::VarStore(st) => {
                let v = self.value(&st.val, env);
                let slot = env.iter_mut().rev().find(|(k, _)| *k == st.name).expect("stored variable exists");
                slot.1 = v;
                Flow::Next
            }
            Statement::Block(b) => self.block(b, env),
            Statement::If(i) => {
                for br in &i.branches {
                    if let Flow::Ret(v) = self.stmts(&br.cond.compute.stmts, env) {
                        return Flow::Ret(v);
                    }
                    if self.value(&br.cond.val, env) == Val::B(true) {
                        return self.block(&br.body, env);
                    }
                }
                match &i.else_ {
                    Some(e) => self.block(e, env),
                    None => Flow::Next,
                }
            }
            Statement::While(w) => loop {
                if let Flow::Ret(v) = self.stmts(&w.cond.compute.stmts, env) {
                    return Flow::Ret(v);
                }
                if self.value(&w.cond.val, env) != Val::B(true) {
                    return Flow::Next;
                }
                if let Flow::Ret(v) = self.block(&w.body, env) {
                    return Flow::Ret(v);
                }
            },
            Statement::Return(r) => Flow::Ret(r.val.as_ref().map(|v| self.value(v, env))),
        }
    }
}

const TEST_SRC1: &str = "
zheng3 jia can1 zheng3 x jie2
han2
    zheng3 jie2guo3 wei2 x jia1 1 fen1
    fan3 jie2guo3 fen1
jie2

zheng3 jian can1 zheng3 x jie2
han2
    fan3 x jian3 1 fen1
jie2
";

#[test]
fn jia_jian_around_114514() {
    let ir = test_generate_ir(TEST_SRC1);
    let machine = Machine::new(&ir);

    fn native_jia(n: i64) -> i64 {
        n + 1
    }
    fn native_jian(n: i64) -> i64 {
        n - 1
    }

    for n in 114514..1919810 {
        assert_eq!(machine.call("jia 参 i64 结", &[Val::I(n as i128)]), Some(Val::I(native_jia(n) as i128)));
        assert_eq!(machine.call("jian 参 i64 结", &[Val::I(n as i128)]), Some(Val::I(native_jian(n) as i128)));
    }
}

const MORE_OPERATOES: &str = "
fu2 cheng can1 fu2 x jie2
han2
    fu2 ret wei2 x cheng2 2f0 fen1
    fan3 ret fen1
jie2

zheng3 yi can1 zheng3 x jie2
han2
    fan3 x zuo3yi2 1 fen1
jie2
";

#[test]
fn more_operations() {
    let ir = test_generate_ir(MORE_OPERATOES);
    let machine = Machine::new(&ir);

    fn native_cheng(x: f32) -> f32 {
        x * 2.0
    }
    fn native_yi(x: i64) -> i64 {
        x << 1
    }

    for n in 114514..1919810 {
        assert_eq!(machine.call("cheng 参 f32 结", &[Val::F(n as f32 as f64)]), Some(Val::F(native_cheng(n as f32) as f64)));
        assert_eq!(machine.call("yi 参 i64 结", &[Val::I(n as i128)]), Some(Val::I(native_yi(n) as i128)));
    }
}

const OVERLOAD_TEST: &str = "
zheng3 a can1 zheng3 a jie2
han2
    fan3 a jia1 1 fen1
jie2

fu2 a can1 fu2 a jie2
han2
    fan3 a jia1 1f0 fen1
jie2

zheng3 test can1 zheng3 oac fen1 fu2 amin jie2
han2 
    ya1 oac ru4 a fen1
    ya1 amin  ru4 a fen1
    fan3 114514 fen1
jie2
";

#[test]
fn overload_test() {
    let ir = test_generate_ir(OVERLOAD_TEST);
    let machine = Machine::new(&ir);
    assert_eq!(machine.call("test 参 i64 f32 结", &[Val::I(114514), Val::F(114514.0)]), Some(Val::I(114514)));
}

const BASIC_CONTROL_FLOW: &str = "
zheng3 fio can1 zheng3 n jie2
han2
    ruo4 can1 n tong2 0 huo4 n tong2 1 jie2
    han2
        fan3 1 fen1
    jie2 ze2 han2
        fan3 ya1 n jian3 1 ru4 fio jia1  
             ya1 n jian3 2 ru4 fio fen1
    jie2
jie2
";

#[test]
fn control_flow_test() {
    let ir = test_generate_ir(BASIC_CONTROL_FLOW);
    let machine = Machine::new(&ir);

    fn native_fio(n: i64) -> i64 {
        match n {
            0 | 1 => 1,
            _ => native_fio(n - 1) + native_fio(n - 2),
        }
    }

    for n in 0..20 {
        assert_eq!(machine.call("fio 参 i64 结", &[Val::I(n as i128)]), Some(Val::I(native_fio(n) as i128)));
    }
}

fn generates(src: &str) -> bool {
    let chars: Vec<char> = src.chars().collect();
    let toks = tokenize(&chars);
    let ast = parse_items(&toks).expect("the source parses");
    assert!(is_items_supported(&ast));
    let mut defines: Defines<ChineseMangler> = Defines::new();
    generate_items(&mut defines, &ast).is_ok()
}

#[test]
fn names_must_resolve_for_generation() {
    assert!(generates("zheng3 f can1 zheng3 n jie2 han2 zheng3 m wei2 n fen1 m wei2 1 fen1 fan3 m fen1 jie2"));
    assert!(!generates("zheng3 f can1 jie2 han2 fan3 x fen1 jie2"));
    assert!(!generates("zheng3 f can1 zheng3 n jie2 han2 n wei2 1 fen1 fan3 n fen1 jie2"));
    assert!(!generates("zheng3 f can1 jie2 han2 han2 zheng3 m fen1 jie2 m wei2 1 fen1 fan3 0 fen1 jie2"));
    assert!(!generates("zheng3 f can1 jie2 han2 fan3 ya1 ru4 g fen1 jie2"));
}

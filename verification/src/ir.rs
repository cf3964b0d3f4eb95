use vstd::prelude::*;
use crate::ops::Operators;
use crate::types::{PrimitiveType, TypeDefine};

verus! {

/// The types that a family of statements is built over: what a variable is assigned,
/// and how variables, functions and parameters are typed.
pub trait IRValue {
    type AssignValue: std::fmt::Debug;
    type VarDefineType: std::fmt::Debug;
    type FnDefineType: std::fmt::Debug;
    type ParameterType: std::fmt::Debug;
}

/// Whether control that enters a construct surely leaves it by a `return`.
pub trait ControlFlow {
    spec fn spec_returned(&self) -> bool;

    fn returned(&self) -> (b: bool)
        ensures
            b == self.spec_returned(),
    ;
}

/// A top-level item.
#[derive(Debug)]
pub enum Item<Var: IRValue> {
    FnDefine(FnDefine<Var>),
}

/// A sequence of statements, with whether it surely returns.
#[derive(Debug)]
pub struct Statements<Var: IRValue> {
    pub stmts: Vec<Statement<Var>>,
    pub returned: bool,
}

#[derive(Debug)]
pub enum Statement<Var: IRValue> {
    VarDefine(VarDefine<Var>),
    VarStore(VarStore<Var>),
    Block(Statements<Var>),
    If(If<Var>),
    While(While<Var>),
    Return(Return<Var>),
}

#[derive(Debug)]
pub struct Parameter<Pty> {
    pub ty: Pty,
    pub name: String,
}

#[derive(Debug)]
pub struct FnDefine<Var: IRValue> {
    pub export: bool,
    pub ty: Var::FnDefineType,
    pub name: String,
    pub params: Vec<Parameter<Var::ParameterType>>,
    pub body: Statements<Var>,
}

/// The definition of a variable; a temporary one is used once, right after it is made.
#[derive(Debug)]
pub struct VarDefine<Var: IRValue> {
    pub ty: Var::VarDefineType,
    pub name: String,
    pub init: Option<Var::AssignValue>,
    pub is_temp: bool,
}

#[derive(Debug)]
pub struct VarStore<Var> {
    pub name: String,
    pub val: Var,
}

/// A condition: the statements that compute it, and the value that holds it.
#[derive(Debug)]
pub struct Condition<Var: IRValue> {
    pub val: Var,
    pub compute: Statements<Var>,
}

#[derive(Debug)]
pub struct IfBranch<Var: IRValue> {
    pub cond: Condition<Var>,
    pub body: Statements<Var>,
}

#[derive(Debug)]
pub struct If<Var: IRValue> {
    pub branches: Vec<IfBranch<Var>>,
    pub else_: Option<Statements<Var>>,
}

#[derive(Debug)]
pub struct While<Var: IRValue> {
    pub cond: Condition<Var>,
    pub body: Statements<Var>,
}

#[derive(Debug)]
pub struct Return<Var> {
    pub val: Option<Var>,
}

/// Whether any statement of a sequence surely returns.
pub open spec fn any_returned<Var: IRValue>(stmts: Seq<Statement<Var>>) -> bool {
    exists|i: int| 0 <= i < stmts.len() && (#[trigger] stmts[i]).spec_returned()
}

impl<Var: IRValue> ControlFlow for Statements<Var> {
    open spec fn spec_returned(&self) -> bool {
        self.returned
    }

    fn returned(&self) -> (b: bool) {
        self.returned
    }
}

impl<Var: IRValue> ControlFlow for IfBranch<Var> {
    open spec fn spec_returned(&self) -> bool {
        self.body.returned
    }

    fn returned(&self) -> (b: bool) {
        self.body.returned
    }
}

impl<Var: IRValue> ControlFlow for If<Var> {
    /// An `if` surely returns when it has an `else` that returns and every branch returns.
    open spec fn spec_returned(&self) -> bool {
        &&& self.else_ matches Some(e) && e.returned
        &&& forall|i: int| 0 <= i < self.branches@.len() ==> (#[trigger] self.branches@[i]).body.returned
    }

    fn returned(&self) -> (b: bool) {
        let else_returned = match &self.else_ {
            Some(e) => e.returned,
            None => false,
        };
        if !else_returned {
            return false;
        }
        let mut i: usize = 0;
        while i < self.branches.len()
            invariant
                i <= self.branches.len(),
                forall|k: int| 0 <= k < i ==> (#[trigger] self.branches@[k]).body.returned,
            decreases self.branches.len() - i,
        {
            if !self.branches[i].body.returned {
                return false;
            }
            i = i + 1;
        }
        true
    }
}

impl<Var: IRValue> ControlFlow for While<Var> {
    /// A loop may run its body no time at all.
    open spec fn spec_returned(&self) -> bool {
        false
    }

    fn returned(&self) -> (b: bool) {
        false
    }
}

impl<Var: IRValue> ControlFlow for Return<Var> {
    open spec fn spec_returned(&self) -> bool {
        true
    }

    fn returned(&self) -> (b: bool) {
        true
    }
}

impl<Var: IRValue> ControlFlow for Statement<Var> {
    open spec fn spec_returned(&self) -> bool {
        match self {
            Statement::Block(v) => v.spec_returned(),
            Statement::If(v) => v.spec_returned(),
            Statement::While(v) => v.spec_returned(),
            Statement::Return(v) => v.spec_returned(),
            _ => false,
        }
    }

    fn returned(&self) -> (b: bool) {
        match self {
            Statement::Block(v) => v.returned(),
            Statement::If(v) => v.returned(),
            Statement::While(v) => v.returned(),
            Statement::Return(v) => v.returned(),
            _ => false,
        }
    }
}

impl<Var: IRValue> Statements<Var> {
    pub fn new() -> (s: Self)
        ensures
            s.stmts@ == Seq::<Statement<Var>>::empty(),
            !s.returned,
    {
        Statements { stmts: Vec::new(), returned: false }
    }

    /// Appends a statement; the sequence returns once any of its statements does.
    pub fn push(&mut self, stmt: Statement<Var>)
        ensures
            final(self).stmts@ == old(self).stmts@.push(stmt),
            final(self).returned == (old(self).returned || stmt.spec_returned()),
    {
        let r = stmt.returned();
        self.returned = self.returned || r;
        self.stmts.push(stmt);
    }

    /// Makes a sequence of statements, which returns when any of them does.
    pub fn from_vec(stmts: Vec<Statement<Var>>) -> (s: Self)
        ensures
            s.stmts@ == stmts@,
            s.returned == any_returned(stmts@),
    {
        let mut returned = false;
        let mut i: usize = 0;
        while i < stmts.len()
            invariant
                i <= stmts.len(),
                returned == any_returned(stmts@.take(i as int)),
            decreases stmts.len() - i,
        {
            let r = stmts[i].returned();
            proof {
                let t = stmts@.take(i as int + 1);
                assert(t[i as int] == stmts@[i as int]);
                if returned {
                    let w = choose|j: int| 0 <= j < i && (#[trigger] stmts@.take(i as int)[j]).spec_returned();
                    assert(t[w] == stmts@.take(i as int)[w]);
                }
                if !returned && !r {
                    assert forall|j: int| 0 <= j < t.len() implies !(#[trigger] t[j]).spec_returned() by {
                        if j < i {
                            assert(t[j] == stmts@.take(i as int)[j]);
                        }
                    }
                }
            }
            returned = returned || r;
            i = i + 1;
        }
        assert(stmts@.take(i as int) == stmts@);
        Statements { stmts, returned }
    }
}

/// Building a sequence by pushes from an empty one gives it the same `returned` as making
/// it from all the statements at once.
pub proof fn law_push_agrees_with_from_vec<Var: IRValue>(before: Seq<Statement<Var>>, returned: bool, stmt: Statement<Var>)
    requires
        returned == any_returned(before),
    ensures
        (returned || stmt.spec_returned()) == any_returned(before.push(stmt)),
{
    let after = before.push(stmt);
    assert(after[before.len() as int] == stmt);
    if returned {
        let w = choose|j: int| 0 <= j < before.len() && (#[trigger] before[j]).spec_returned();
        assert(after[w] == before[w]);
    }
    if !returned && !stmt.spec_returned() {
        assert forall|j: int| 0 <= j < after.len() implies !(#[trigger] after[j]).spec_returned() by {
            if j < before.len() {
                assert(after[j] == before[j]);
            }
        }
    }
}

/// A literal: a character, an integer, or a floating-point number held as its source text.
#[derive(Debug)]
pub enum Literal {
    Char(char),
    Integer(usize),
    Float(String),
}

/// A value: a variable by its name, or a literal with its type.
#[derive(Debug)]
pub enum Value {
    Variable(String),
    Literal(Literal, PrimitiveType),
}

/// An operation on primitive values.
#[derive(Debug)]
pub enum Operate {
    Unary(Operators, Value),
    Binary(Operators, Value, Value),
}

#[derive(Debug)]
pub struct FnCall<Var> {
    pub fn_name: String,
    pub args: Vec<Var>,
}

/// What a variable is assigned.
#[derive(Debug)]
pub enum AssignValue {
    Value(Value),
    FnCall(FnCall<Value>),
    Operate(Operate, PrimitiveType),
}

impl IRValue for Value {
    type AssignValue = AssignValue;
    type VarDefineType = TypeDefine;
    type FnDefineType = TypeDefine;
    type ParameterType = TypeDefine;
}

} // verus!

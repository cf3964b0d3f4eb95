use vstd::prelude::*;
use crate::declare::branch::BranchesBuilder;
use crate::declare::graph::DeclareGraph;
use crate::declare::group::{Branch, GroupIdx};
use crate::declare::res::Type;
use crate::ir;
use crate::ir::{FnDefine, If, IfBranch, IRValue, Item, Literal, Statement, Statements};
use crate::ops::Operators;
use crate::types::{PrimitiveType, TypeDefine, TypeDefineV};

verus! {

/// A value before its type is known: a literal or a variable.
#[derive(Debug)]
pub enum Value {
    Literal(Literal),
    Variable(String),
}

/// A value with the group that decides its type.
#[derive(Debug)]
pub struct Undeclared<V> {
    pub val: V,
    pub ty: GroupIdx,
}

impl<V> Undeclared<V> {
    pub fn new(val: V, ty: GroupIdx) -> (u: Undeclared<V>)
        ensures
            u.val == val,
            u.ty == ty,
    {
        Undeclared { val, ty }
    }
}

/// What is assigned before types are known.
#[derive(Debug)]
pub enum AssignValue {
    Value(Value),
    FnCall(FnCall),
    Operate(Operate),
}

#[derive(Debug)]
pub enum Operate {
    Unary(Operators, Undeclared<Value>),
    Binary(Operators, Undeclared<Value>, Undeclared<Value>),
}

/// A call whose overload is decided by the group of the value it is assigned to.
#[derive(Debug)]
pub struct FnCall {
    pub args: Vec<Undeclared<Value>>,
}

impl IRValue for Undeclared<Value> {
    type AssignValue = Undeclared<AssignValue>;
    type VarDefineType = GroupIdx;
    type FnDefineType = TypeDefine;
    type ParameterType = TypeDefine;
}

/// The variable of statements before types are known.
pub type Mir = Undeclared<Value>;

/// The integer types, in the order in which a literal integer may take them.
pub open spec fn integer_types() -> Seq<PrimitiveType> {
    seq![
        PrimitiveType::U8, PrimitiveType::U16, PrimitiveType::U32, PrimitiveType::U64,
        PrimitiveType::U128, PrimitiveType::Usize, PrimitiveType::I8, PrimitiveType::I16,
        PrimitiveType::I32, PrimitiveType::I64, PrimitiveType::I128, PrimitiveType::Isize,
    ]
}

/// The types a literal may have: a character is a `u32`, an integer any integer type,
/// a float `f32` or `f64`.
pub open spec fn literal_types(l: Literal) -> Seq<PrimitiveType> {
    match l {
        Literal::Char(_) => seq![PrimitiveType::U32],
        Literal::Integer(_) => integer_types(),
        Literal::Float(_) => seq![PrimitiveType::F32, PrimitiveType::F64],
    }
}

fn primitive_builder(p: PrimitiveType) -> (b: BranchesBuilder)
    ensures
        b.state matches Ok(t) && t is Directly && t.spec_type() == TypeDefineV::Primitive(p),
        b.depends.depends@.len() == 0,
{
    BranchesBuilder::new(Type::from_type(TypeDefine::Primitive(p)))
}

impl Undeclared<Value> {
    /// One branch for each type the literal may have.
    pub fn literal_branches(var: &Literal) -> (v: Vec<BranchesBuilder>)
        ensures
            v@.len() == literal_types(*var).len(),
            forall|k: int| 0 <= k < v@.len() ==> ((#[trigger] v@[k]).depends.depends@.len() == 0
                && (v@[k].state matches Ok(t) && t is Directly
                && t.spec_type() == TypeDefineV::Primitive(literal_types(*var)[k]))),
    {
        let types: Vec<PrimitiveType> = match var {
            Literal::Char(_) => vec![PrimitiveType::char()],
            Literal::Integer(_) => vec![
                PrimitiveType::U8, PrimitiveType::U16, PrimitiveType::U32, PrimitiveType::U64,
                PrimitiveType::U128, PrimitiveType::Usize, PrimitiveType::I8, PrimitiveType::I16,
                PrimitiveType::I32, PrimitiveType::I64, PrimitiveType::I128, PrimitiveType::Isize,
            ],
            Literal::Float(_) => vec![PrimitiveType::F32, PrimitiveType::F64],
        };
        assert(types@ == literal_types(*var));
        let mut v: Vec<BranchesBuilder> = Vec::new();
        let mut i: usize = 0;
        while i < types.len()
            invariant
                i <= types.len(),
                types@ == literal_types(*var),
                v@.len() == i,
                forall|k: int| 0 <= k < i ==> ((#[trigger] v@[k]).depends.depends@.len() == 0
                    && (v@[k].state matches Ok(t) && t is Directly
                    && t.spec_type() == TypeDefineV::Primitive(literal_types(*var)[k]))),
            decreases types.len() - i,
        {
            v.push(primitive_builder(types[i]));
            i = i + 1;
        }
        v
    }
}

/// Every possible type of the group is primitive.
pub open spec fn group_primitive(map: DeclareGraph, g: GroupIdx) -> bool {
    forall|b: Branch| #[trigger] map.spec_alive(b) && b.belong_to == g ==> map.spec_branch(b).spec_type() is Primitive
}

/// Every possible type of the group is the return type of an overload.
pub open spec fn group_overload(map: DeclareGraph, g: GroupIdx) -> bool {
    forall|b: Branch| #[trigger] map.spec_alive(b) && b.belong_to == g ==> map.spec_branch(b) is Overload
}

/// The group exists and has exactly one possible type.
pub open spec fn group_ready(map: DeclareGraph, g: GroupIdx) -> bool {
    g.idx < map.spec_groups().len() && map.spec_declared(g)
}

/// The type a declared group has.
pub open spec fn group_result(map: DeclareGraph, g: GroupIdx) -> Type {
    map.spec_branch(choose|b: Branch| b.belong_to == g && map.spec_alive(b))
}

/// The value can be given its type.
pub open spec fn value_ready(u: Undeclared<Value>, map: DeclareGraph) -> bool {
    group_ready(map, u.ty) && (u.val is Literal ==> group_primitive(map, u.ty))
}

pub open spec fn values_ready(us: Seq<Undeclared<Value>>, map: DeclareGraph) -> bool {
    forall|i: int| 0 <= i < us.len() ==> value_ready(#[trigger] us[i], map)
}

pub open spec fn assign_ready(u: Undeclared<AssignValue>, map: DeclareGraph) -> bool {
    group_ready(map, u.ty) && match u.val {
        AssignValue::Value(v) => v is Literal ==> group_primitive(map, u.ty),
        AssignValue::FnCall(c) => group_overload(map, u.ty) && values_ready(c.args@, map),
        AssignValue::Operate(o) => group_primitive(map, u.ty) && match o {
            Operate::Unary(_, l) => value_ready(l, map),
            Operate::Binary(_, l, r) => value_ready(l, map) && value_ready(r, map),
        },
    }
}

/// The primitive type of a declared group whose types are primitive.
pub open spec fn group_primitive_type(map: DeclareGraph, g: GroupIdx) -> PrimitiveType {
    match group_result(map, g).spec_type() {
        TypeDefineV::Primitive(p) => p,
        TypeDefineV::Complex(..) => PrimitiveType::Bool,
    }
}

/// `v` is the value `u` with its type.
pub open spec fn value_lowered(u: Undeclared<Value>, v: ir::Value, map: DeclareGraph) -> bool {
    match u.val {
        Value::Literal(l) => v == ir::Value::Literal(l, group_primitive_type(map, u.ty)),
        Value::Variable(n) => v matches ir::Value::Variable(n2) && n2@ == n@,
    }
}

pub open spec fn values_lowered(us: Seq<Undeclared<Value>>, vs: Seq<ir::Value>, map: DeclareGraph) -> bool {
    us.len() == vs.len() && forall|i: int| 0 <= i < us.len() ==> value_lowered(#[trigger] us[i], vs[i], map)
}

/// `a` is the assignment `u` with its types: a call goes to the overload its group was
/// declared as, an operation computes in the type of its group.
pub open spec fn assign_lowered(u: Undeclared<AssignValue>, a: ir::AssignValue, map: DeclareGraph) -> bool {
    match u.val {
        AssignValue::Value(v) => a matches ir::AssignValue::Value(w) && value_lowered(Undeclared { val: v, ty: u.ty }, w, map),
        AssignValue::FnCall(c) => a matches ir::AssignValue::FnCall(f)
            && (group_result(map, u.ty) matches Type::Overload(o) && f.fn_name@ == o.name@)
            && values_lowered(c.args@, f.args@, map),
        AssignValue::Operate(o) => a matches ir::AssignValue::Operate(op, p)
            && p == group_primitive_type(map, u.ty)
            && match o {
                Operate::Unary(x, l) => op matches ir::Operate::Unary(y, lv) && x == y && value_lowered(l, lv, map),
                Operate::Binary(x, l, r) => op matches ir::Operate::Binary(y, lv, rv) && x == y
                    && value_lowered(l, lv, map) && value_lowered(r, rv, map),
            },
    }
}

proof fn lemma_declared_primitive(map: DeclareGraph, g: GroupIdx)
    requires
        group_ready(map, g),
        group_primitive(map, g),
    ensures
        exists|b: Branch| b.belong_to == g && map.spec_alive(b),
        group_result(map, g).spec_type() is Primitive,
{
    let gr = map.spec_groups()[g.idx as int];
    gr.lemma_declared_alive();
    let i = choose|i: usize| gr.spec_alive(i);
    assert(map.spec_alive(Branch { belong_to: g, branch_idx: i }));
}

/// Gives a value its type.
pub fn lower_value(u: Undeclared<Value>, map: &DeclareGraph) -> (v: ir::Value)
    requires
        map.wf(),
        value_ready(u, *map),
    ensures
        value_lowered(u, v, *map),
{
    match u.val {
        Value::Literal(literal) => {
            let t = map.get_type(u.ty);
            proof {
                lemma_declared_primitive(*map, u.ty);
            }
            match t {
                TypeDefine::Primitive(p) => ir::Value::Literal(literal, *p),
                TypeDefine::Complex(_) => {
                    assert(false);
                    ir::Value::Literal(literal, PrimitiveType::Bool)
                }
            }
        }
        Value::Variable(variable) => ir::Value::Variable(variable),
    }
}

/// Gives values their types.
pub fn lower_values(us: Vec<Undeclared<Value>>, map: &DeclareGraph) -> (vs: Vec<ir::Value>)
    requires
        map.wf(),
        values_ready(us@, *map),
    ensures
        values_lowered(us@, vs@, *map),
{
    let mut us = us;
    let ghost all = us@;
    let mut rev: Vec<ir::Value> = Vec::new();
    while us.len() > 0
        invariant
            map.wf(),
            values_ready(all, *map),
            us@ == all.take(us@.len() as int),
            rev@.len() + us@.len() == all.len(),
            forall|k: int| 0 <= k < rev@.len() ==> value_lowered(all[all.len() - 1 - k], #[trigger] rev@[k], *map),
        decreases us.len(),
    {
        let u = us.pop().unwrap();
        assert(u == all[us@.len() as int]);
        let v = lower_value(u, map);
        rev.push(v);
    }
    let mut vs: Vec<ir::Value> = Vec::new();
    while rev.len() > 0
        invariant
            rev@.len() + vs@.len() == all.len(),
            forall|k: int| 0 <= k < rev@.len() ==> value_lowered(all[all.len() - 1 - k], #[trigger] rev@[k], *map),
            forall|k: int| 0 <= k < vs@.len() ==> value_lowered(all[k], #[trigger] vs@[k], *map),
        decreases rev.len(),
    {
        let ghost k = rev@.len() - 1;
        let v = rev.pop().unwrap();
        vs.push(v);
    }
    vs
}

/// Gives an assignment its types.
pub fn lower_assign(u: Undeclared<AssignValue>, map: &DeclareGraph) -> (a: ir::AssignValue)
    requires
        map.wf(),
        assign_ready(u, *map),
    ensures
        assign_lowered(u, a, *map),
{
    match u.val {
        AssignValue::Value(value) => ir::AssignValue::Value(lower_value(Undeclared::new(value, u.ty), map)),
        AssignValue::FnCall(fn_call) => {
            let r = map.get_result(u.ty);
            let fn_name = match r {
                Type::Overload(o) => o.name.clone(),
                Type::Directly(_) => {
                    assert(false);
                    String::new()
                }
            };
            let args = lower_values(fn_call.args, map);
            ir::AssignValue::FnCall(ir::FnCall { fn_name, args })
        }
        AssignValue::Operate(operate) => {
            let t = map.get_type(u.ty);
            proof {
                lemma_declared_primitive(*map, u.ty);
            }
            let p = match t {
                TypeDefine::Primitive(p) => *p,
                TypeDefine::Complex(_) => {
                    assert(false);
                    PrimitiveType::Bool
                }
            };
            let operate = match operate {
                Operate::Unary(op, l) => ir::Operate::Unary(op, lower_value(l, map)),
                Operate::Binary(op, l, r) => ir::Operate::Binary(op, lower_value(l, map), lower_value(r, map)),
            };
            ir::AssignValue::Operate(operate, p)
        }
    }
}


/// Every value of a statement can be given its type.
pub open spec fn stmt_ready(s: Statement<Mir>, map: DeclareGraph) -> bool
    decreases s,
{
    match s {
        Statement::VarDefine(d) => group_ready(map, d.ty) && (d.init matches Some(i) ==> assign_ready(i, map)),
        Statement::VarStore(v) => value_ready(v.val, map),
        Statement::Block(b) => stmts_ready(b, map),
        Statement::If(i) => (forall|k: int| 0 <= k < i.branches@.len() ==> {
            &&& value_ready((#[trigger] i.branches@[k]).cond.val, map)
            &&& stmts_ready(i.branches@[k].cond.compute, map)
            &&& stmts_ready(i.branches@[k].body, map)
        }) && (i.else_ matches Some(e) ==> stmts_ready(e, map)),
        Statement::While(w) => value_ready(w.cond.val, map) && stmts_ready(w.cond.compute, map) && stmts_ready(w.body, map),
        Statement::Return(r) => r.val matches Some(v) ==> value_ready(v, map),
    }
}

pub open spec fn stmts_ready(ss: Statements<Mir>, map: DeclareGraph) -> bool
    decreases ss,
{
    forall|k: int| 0 <= k < ss.stmts@.len() ==> stmt_ready(#[trigger] ss.stmts@[k], map)
}

/// `s` is the statement `m` with every value given its type; names, temporaries and
/// whether blocks return stay as they are.
pub open spec fn stmt_lowered(m: Statement<Mir>, s: Statement<ir::Value>, map: DeclareGraph) -> bool
    decreases m,
{
    match m {
        Statement::VarDefine(d) => s matches Statement::VarDefine(e) && e.ty@ == group_result(map, d.ty).spec_type()
            && e.name@ == d.name@ && e.is_temp == d.is_temp && match d.init {
                Some(i) => e.init matches Some(a) && assign_lowered(i, a, map),
                None => e.init is None,
            },
        Statement::VarStore(v) => s matches Statement::VarStore(w) && w.name@ == v.name@ && value_lowered(v.val, w.val, map),
        Statement::Block(b) => s matches Statement::Block(c) && stmts_lowered(b, c, map),
        Statement::If(i) => s matches Statement::If(j) && i.branches@.len() == j.branches@.len()
            && (forall|k: int| 0 <= k < i.branches@.len() ==> {
                &&& value_lowered((#[trigger] i.branches@[k]).cond.val, j.branches@[k].cond.val, map)
                &&& stmts_lowered(i.branches@[k].cond.compute, j.branches@[k].cond.compute, map)
                &&& stmts_lowered(i.branches@[k].body, j.branches@[k].body, map)
            }) && match i.else_ {
                Some(e) => j.else_ matches Some(f) && stmts_lowered(e, f, map),
                None => j.else_ is None,
            },
        Statement::While(w) => s matches Statement::While(x) && value_lowered(w.cond.val, x.cond.val, map)
            && stmts_lowered(w.cond.compute, x.cond.compute, map) && stmts_lowered(w.body, x.body, map),
        Statement::Return(r) => s matches Statement::Return(q) && match r.val {
            Some(v) => q.val matches Some(x) && value_lowered(v, x, map),
            None => q.val is None,
        },
    }
}

pub open spec fn stmts_lowered(a: Statements<Mir>, b: Statements<ir::Value>, map: DeclareGraph) -> bool
    decreases a,
{
    &&& a.returned == b.returned
    &&& a.stmts@.len() == b.stmts@.len()
    &&& forall|k: int| 0 <= k < a.stmts@.len() ==> stmt_lowered(#[trigger] a.stmts@[k], b.stmts@[k], map)
}

/// Gives the values of statements their types.
pub fn lower_statements(ss: Statements<Mir>, map: &DeclareGraph) -> (r: Statements<ir::Value>)
    requires
        map.wf(),
        stmts_ready(ss, *map),
    ensures
        stmts_lowered(ss, r, *map),
    decreases ss, 1int,
{
    let ghost all = ss.stmts@;
    let returned = ss.returned;
    let mut stmts = ss.stmts;
    let mut rev: Vec<Statement<ir::Value>> = Vec::new();
    while stmts.len() > 0
        invariant
            map.wf(),
            all == ss.stmts@,
            stmts_ready(ss, *map),
            stmts@ == all.take(stmts@.len() as int),
            rev@.len() + stmts@.len() == all.len(),
            forall|k: int| 0 <= k < rev@.len() ==> stmt_lowered(all[all.len() - 1 - k], #[trigger] rev@[k], *map),
        decreases stmts.len(),
    {
        let s = stmts.pop().unwrap();
        assert(s == all[stmts@.len() as int]);
        assert(stmt_ready(ss.stmts@[stmts@.len() as int], *map));
        let t = lower_statement(s, map);
        rev.push(t);
    }
    let mut out: Vec<Statement<ir::Value>> = Vec::new();
    while rev.len() > 0
        invariant
            rev@.len() + out@.len() == all.len(),
            forall|k: int| 0 <= k < rev@.len() ==> stmt_lowered(all[all.len() - 1 - k], #[trigger] rev@[k], *map),
            forall|k: int| 0 <= k < out@.len() ==> stmt_lowered(all[k], #[trigger] out@[k], *map),
        decreases rev.len(),
    {
        let t = rev.pop().unwrap();
        out.push(t);
    }
    Statements { stmts: out, returned }
}

/// Gives the values of a statement their types.
pub fn lower_statement(s: Statement<Mir>, map: &DeclareGraph) -> (r: Statement<ir::Value>)
    requires
        map.wf(),
        stmt_ready(s, *map),
    ensures
        stmt_lowered(s, r, *map),
    decreases s, 1int,
{
    match s {
        Statement::VarDefine(d) => {
            let ty = map.get_type(d.ty).clone_ty();
            proof {
                let gr = map.spec_groups()[d.ty.idx as int];
                gr.lemma_declared_alive();
                let i = choose|i: usize| gr.spec_alive(i);
                assert(map.spec_alive(Branch { belong_to: d.ty, branch_idx: i }));
            }
            let init = match d.init {
                Some(i) => Some(lower_assign(i, map)),
                None => None,
            };
            Statement::VarDefine(ir::VarDefine { ty, name: d.name, init, is_temp: d.is_temp })
        }
        Statement::VarStore(v) => Statement::VarStore(ir::VarStore { name: v.name, val: lower_value(v.val, map) }),
        Statement::Block(b) => Statement::Block(lower_statements(b, map)),
        Statement::If(i) => Statement::If(lower_if(i, map)),
        Statement::While(w) => {
            let val = lower_value(w.cond.val, map);
            let compute = lower_statements(w.cond.compute, map);
            let body = lower_statements(w.body, map);
            Statement::While(ir::While { cond: ir::Condition { val, compute }, body })
        }
        Statement::Return(r) => {
            let val = match r.val {
                Some(v) => Some(lower_value(v, map)),
                None => None,
            };
            Statement::Return(ir::Return { val })
        }
    }
}

/// Gives the values of an `if` their types.
pub fn lower_if(i: If<Mir>, map: &DeclareGraph) -> (r: If<ir::Value>)
    requires
        map.wf(),
        stmt_ready(Statement::If(i), *map),
    ensures
        stmt_lowered(Statement::If(i), Statement::If(r), *map),
    decreases Statement::<Mir>::If(i), 0int,
{
    let ghost all = i.branches@;
    let ghost whole = Statement::<Mir>::If(i);
    let mut branches = i.branches;
    let mut rev: Vec<IfBranch<ir::Value>> = Vec::new();
    while branches.len() > 0
        invariant
            map.wf(),
            all == i.branches@,
            stmt_ready(Statement::If(i), *map),
            branches@ == all.take(branches@.len() as int),
            rev@.len() + branches@.len() == all.len(),
            forall|k: int| 0 <= k < rev@.len() ==> {
                &&& value_lowered(all[all.len() - 1 - k].cond.val, (#[trigger] rev@[k]).cond.val, *map)
                &&& stmts_lowered(all[all.len() - 1 - k].cond.compute, rev@[k].cond.compute, *map)
                &&& stmts_lowered(all[all.len() - 1 - k].body, rev@[k].body, *map)
            },
        decreases branches.len(),
    {
        let b = branches.pop().unwrap();
        let ghost k = branches@.len() as int;
        assert(b == all[k]);
        assert(value_ready(i.branches@[k].cond.val, *map));
        let val = lower_value(b.cond.val, map);
        let compute = lower_statements(b.cond.compute, map);
        let body = lower_statements(b.body, map);
        rev.push(IfBranch { cond: ir::Condition { val, compute }, body });
    }
    let mut out: Vec<IfBranch<ir::Value>> = Vec::new();
    while rev.len() > 0
        invariant
            rev@.len() + out@.len() == all.len(),
            forall|k: int| 0 <= k < rev@.len() ==> {
                &&& value_lowered(all[all.len() - 1 - k].cond.val, (#[trigger] rev@[k]).cond.val, *map)
                &&& stmts_lowered(all[all.len() - 1 - k].cond.compute, rev@[k].cond.compute, *map)
                &&& stmts_lowered(all[all.len() - 1 - k].body, rev@[k].body, *map)
            },
            forall|k: int| 0 <= k < out@.len() ==> {
                &&& value_lowered(all[k].cond.val, (#[trigger] out@[k]).cond.val, *map)
                &&& stmts_lowered(all[k].cond.compute, out@[k].cond.compute, *map)
                &&& stmts_lowered(all[k].body, out@[k].body, *map)
            },
        decreases rev.len(),
    {
        let b = rev.pop().unwrap();
        out.push(b);
    }
    let else_ = match i.else_ {
        Some(e) => Some(lower_statements(e, map)),
        None => None,
    };
    If { branches: out, else_ }
}

/// What can be given types, and how the result relates to it.
pub trait IntoIR: Sized {
    type Forward;

    spec fn ready(&self, map: DeclareGraph) -> bool;

    spec fn lowered(&self, f: Self::Forward, map: DeclareGraph) -> bool;

    fn into_ir(self, map: &DeclareGraph) -> (f: Self::Forward)
        requires
            map.wf(),
            self.ready(*map),
        ensures
            self.lowered(f, *map),
    ;
}

impl IntoIR for Undeclared<Value> {
    type Forward = ir::Value;

    open spec fn ready(&self, map: DeclareGraph) -> bool {
        value_ready(*self, map)
    }

    open spec fn lowered(&self, f: ir::Value, map: DeclareGraph) -> bool {
        value_lowered(*self, f, map)
    }

    fn into_ir(self, map: &DeclareGraph) -> (f: ir::Value) {
        lower_value(self, map)
    }
}

impl IntoIR for Undeclared<AssignValue> {
    type Forward = ir::AssignValue;

    open spec fn ready(&self, map: DeclareGraph) -> bool {
        assign_ready(*self, map)
    }

    open spec fn lowered(&self, f: ir::AssignValue, map: DeclareGraph) -> bool {
        assign_lowered(*self, f, map)
    }

    fn into_ir(self, map: &DeclareGraph) -> (f: ir::AssignValue) {
        lower_assign(self, map)
    }
}

impl IntoIR for Statements<Mir> {
    type Forward = Statements<ir::Value>;

    open spec fn ready(&self, map: DeclareGraph) -> bool {
        stmts_ready(*self, map)
    }

    open spec fn lowered(&self, f: Statements<ir::Value>, map: DeclareGraph) -> bool {
        stmts_lowered(*self, f, map)
    }

    fn into_ir(self, map: &DeclareGraph) -> (f: Statements<ir::Value>) {
        lower_statements(self, map)
    }
}

impl IntoIR for Item<Mir> {
    type Forward = Item<ir::Value>;

    open spec fn ready(&self, map: DeclareGraph) -> bool {
        match *self {
            Item::FnDefine(f) => stmts_ready(f.body, map),
        }
    }

    /// The function keeps its name, export, type and parameters; its body is lowered.
    open spec fn lowered(&self, f: Item<ir::Value>, map: DeclareGraph) -> bool {
        match *self {
            Item::FnDefine(d) => match f {
                Item::FnDefine(e) => e.export == d.export && e.ty == d.ty && e.name@ == d.name@
                    && e.params == d.params && stmts_lowered(d.body, e.body, map),
            },
        }
    }

    fn into_ir(self, map: &DeclareGraph) -> (f: Item<ir::Value>) {
        match self {
            Item::FnDefine(d) => Item::FnDefine(FnDefine {
                export: d.export,
                ty: d.ty,
                name: d.name,
                params: d.params,
                body: lower_statements(d.body, map),
            }),
        }
    }
}


fn check_group_ready(map: &DeclareGraph, g: GroupIdx) -> (b: bool)
    requires
        map.wf(),
    ensures
        b == group_ready(*map, g),
{
    g.idx < map.group_count() && map.is_declared(g)
}

fn check_group_primitive(map: &DeclareGraph, g: GroupIdx) -> (b: bool)
    requires
        map.wf(),
        g.idx < map.spec_groups().len(),
    ensures
        b == group_primitive(*map, g),
{
    let alives = map.group_alives(g);
    let mut i: usize = 0;
    while i < alives.len()
        invariant
            i <= alives.len(),
            forall|k: int| 0 <= k < alives@.len() ==> alives@[k].0.belong_to == g
                && map.spec_alive(alives@[k].0) && alives@[k].1 == map.spec_branch(alives@[k].0),
            forall|k: int| 0 <= k < i ==> (#[trigger] alives@[k]).1.spec_type() is Primitive,
        decreases alives.len() - i,
    {
        if !alives[i].1.get_type().is_primitive() {
            return false;
        }
        i = i + 1;
    }
    proof {
        assert forall|b: Branch| #[trigger] map.spec_alive(b) && b.belong_to == g implies map.spec_branch(b).spec_type() is Primitive by {
            let k = choose|k: int| 0 <= k < alives@.len() && alives@[k].0 == b;
            assert(alives@[k].1.spec_type() is Primitive);
        }
    }
    true
}

fn check_group_overload(map: &DeclareGraph, g: GroupIdx) -> (b: bool)
    requires
        map.wf(),
        g.idx < map.spec_groups().len(),
    ensures
        b == group_overload(*map, g),
{
    let alives = map.group_alives(g);
    let mut i: usize = 0;
    while i < alives.len()
        invariant
            i <= alives.len(),
            forall|k: int| 0 <= k < alives@.len() ==> alives@[k].0.belong_to == g
                && map.spec_alive(alives@[k].0) && alives@[k].1 == map.spec_branch(alives@[k].0),
            forall|k: int| 0 <= k < i ==> (#[trigger] alives@[k]).1 is Overload,
        decreases alives.len() - i,
    {
        match &alives[i].1 {
            Type::Overload(_) => {},
            Type::Directly(_) => return false,
        }
        i = i + 1;
    }
    proof {
        assert forall|b: Branch| #[trigger] map.spec_alive(b) && b.belong_to == g implies map.spec_branch(b) is Overload by {
            let k = choose|k: int| 0 <= k < alives@.len() && alives@[k].0 == b;
            assert(alives@[k].1 is Overload);
        }
    }
    true
}

/// Whether a value can be given its type.
pub fn check_value_ready(u: &Undeclared<Value>, map: &DeclareGraph) -> (b: bool)
    requires
        map.wf(),
    ensures
        b == value_ready(*u, *map),
{
    if !check_group_ready(map, u.ty) {
        return false;
    }
    match &u.val {
        Value::Literal(_) => check_group_primitive(map, u.ty),
        Value::Variable(_) => true,
    }
}

fn check_values_ready(us: &Vec<Undeclared<Value>>, map: &DeclareGraph) -> (b: bool)
    requires
        map.wf(),
    ensures
        b == values_ready(us@, *map),
{
    let mut i: usize = 0;
    while i < us.len()
        invariant
            i <= us.len(),
            map.wf(),
            forall|k: int| 0 <= k < i ==> value_ready(#[trigger] us@[k], *map),
        decreases us.len() - i,
    {
        if !check_value_ready(&us[i], map) {
            return false;
        }
        i = i + 1;
    }
    true
}

/// Whether an assignment can be given its types.
pub fn check_assign_ready(u: &Undeclared<AssignValue>, map: &DeclareGraph) -> (b: bool)
    requires
        map.wf(),
    ensures
        b == assign_ready(*u, *map),
{
    if !check_group_ready(map, u.ty) {
        return false;
    }
    match &u.val {
        AssignValue::Value(v) => match v {
            Value::Literal(_) => check_group_primitive(map, u.ty),
            Value::Variable(_) => true,
        },
        AssignValue::FnCall(c) => check_group_overload(map, u.ty) && check_values_ready(&c.args, map),
        AssignValue::Operate(o) => check_group_primitive(map, u.ty) && match o {
            Operate::Unary(_, l) => check_value_ready(l, map),
            Operate::Binary(_, l, r) => check_value_ready(l, map) && check_value_ready(r, map),
        },
    }
}

/// Whether every value of the statements can be given its type.
#[verifier::loop_isolation(false)]
pub fn check_stmts_ready(ss: &Statements<Mir>, map: &DeclareGraph) -> (b: bool)
    requires
        map.wf(),
    ensures
        b == stmts_ready(*ss, *map),
    decreases ss, 1int,
{
    let mut k: usize = 0;
    while k < ss.stmts.len()
        invariant
            k <= ss.stmts.len(),
            forall|j: int| 0 <= j < k ==> stmt_ready(#[trigger] ss.stmts@[j], *map),
        decreases ss.stmts.len() - k,
    {
        if !check_stmt_ready(&ss.stmts[k], map) {
            return false;
        }
        k = k + 1;
    }
    true
}

/// Whether every value of a statement can be given its type.
#[verifier::loop_isolation(false)]
pub fn check_stmt_ready(s: &Statement<Mir>, map: &DeclareGraph) -> (b: bool)
    requires
        map.wf(),
    ensures
        b == stmt_ready(*s, *map),
    decreases s, 0int,
{
    match s {
        Statement::VarDefine(d) => check_group_ready(map, d.ty) && match &d.init {
            Some(i) => check_assign_ready(i, map),
            None => true,
        },
        Statement::VarStore(v) => check_value_ready(&v.val, map),
        Statement::Block(b) => check_stmts_ready(b, map),
        Statement::If(i) => {
            let mut k: usize = 0;
            while k < i.branches.len()
                invariant
                    k <= i.branches.len(),
                    forall|j: int| 0 <= j < k ==> {
                        &&& value_ready((#[trigger] i.branches@[j]).cond.val, *map)
                        &&& stmts_ready(i.branches@[j].cond.compute, *map)
                        &&& stmts_ready(i.branches@[j].body, *map)
                    },
                decreases i.branches.len() - k,
            {
                if !check_value_ready(&i.branches[k].cond.val, map) {
                    return false;
                }
                if !check_stmts_ready(&i.branches[k].cond.compute, map) {
                    return false;
                }
                if !check_stmts_ready(&i.branches[k].body, map) {
                    return false;
                }
                k = k + 1;
            }
            match &i.else_ {
                Some(e) => check_stmts_ready(e, map),
                None => true,
            }
        }
        Statement::While(w) => check_value_ready(&w.cond.val, map) && check_stmts_ready(&w.cond.compute, map)
            && check_stmts_ready(&w.body, map),
        Statement::Return(r) => match &r.val {
            Some(v) => check_value_ready(v, map),
            None => true,
        },
    }
}

} // verus!

use vstd::prelude::*;
use crate::declare::branch::{BranchesBuilder, GroupBuilder};
use crate::declare::defs::{share, Defs};
use crate::declare::filter::{FnParamLen, TypeEqual, TypesKind};
use crate::declare::group::{Branch, GroupIdx};
use crate::declare::mir::literal_types;
use crate::declare::mir;
use crate::declare::mir::{Mir, Undeclared};
use crate::declare::res::Type;
use crate::ir;
use crate::ir::{Condition, ControlFlow, If, IfBranch, Return, Statement, Statements, VarDefine, VarStore, While};
use crate::ops::{is_relation, OperatorAssociativity, OperatorTypes, Operators};
use crate::parse;
use crate::parse::expr::{AtomicExpr, Expr, ExprItem, NumberLiteral};
use crate::parse::PU;
use crate::parse::types::spec_mir_ty;
use crate::semantic::scope::{lookup_param, lookup_scopes, scopes_bounded, BasicScopes, FnScope, VarDef};
use crate::semantic::support::{conds_supported, expr_supported, rpn_depth, stmt_supported, block_supported};
use crate::span::{Error, Span};
use crate::text::{append_str, text};
use crate::types::{PrimitiveType, TypeDefine, TypeDefineV};

verus! {

/// A value computed by an expression; `loc` is where its temporary was defined, if it has one.
pub struct ValueHandle {
    pub loc: Option<usize>,
    pub handle: Undeclared<mir::Value>,
}

/// Generates the statements of one function body.
pub struct StatementGenerator<'w> {
    pub defs: &'w Defs,
    pub fn_scope: FnScope,
    pub scopes: BasicScopes,
    pub stmts: Statements<Mir>,
}

/// `new` holds the statements of `old`, and maybe more after them.
pub open spec fn stmts_extend(new: Seq<Statement<Mir>>, old: Seq<Statement<Mir>>) -> bool {
    old.len() <= new.len() && forall|l: int| 0 <= l < old.len() ==> new[l] == old[l]
}

impl<'w> StatementGenerator<'w> {
    pub open spec fn groups(&self) -> nat {
        self.fn_scope.declare_map.spec_groups().len()
    }

    /// The groups of parameters and variables exist, and the function is defined.
    pub open spec fn inv(&self) -> bool {
        &&& self.fn_scope.declare_map.wf()
        &&& forall|i: int| 0 <= i < self.fn_scope.parameters@.len() ==> (#[trigger] self.fn_scope.parameters@[i]).1.idx < self.groups()
        &&& scopes_bounded(self.scopes.scopes@, self.groups())
        &&& self.defs.fn_signs.spec_mangled(self.fn_scope.fn_name@) is Some
    }

    /// What every step keeps: the invariant, the groups made so far, the depth of scopes,
    /// the definitions and the function.
    pub open spec fn steps_from(&self, old: StatementGenerator<'w>) -> bool {
        &&& self.inv()
        &&& self.groups() >= old.groups()
        &&& self.scopes.scopes@.len() == old.scopes.scopes@.len()
        &&& self.defs == old.defs
        &&& self.fn_scope.fn_name == old.fn_scope.fn_name
    }

    /// A value handle whose group exists and whose temporary, if any, is a definition.
    pub open spec fn handle_ok(&self, h: ValueHandle) -> bool {
        &&& h.handle.ty.idx < self.groups()
        &&& h.loc matches Some(l) ==> l < self.stmts.stmts@.len() && self.stmts.stmts@[l as int] is VarDefine
    }

    /// What a name refers to: a parameter (which cannot be assigned), else the innermost
    /// variable of that name.
    pub open spec fn resolve(&self, name: Seq<char>) -> Option<VarDef> {
        match lookup_param(self.fn_scope.parameters@, name) {
            Some(g) => Some(VarDef { ty: g, mutable: false }),
            None => lookup_scopes(self.scopes.scopes@, name),
        }
    }

    /// For each name that resolves, whether it can be assigned.
    pub open spec fn env(&self) -> spec_fn(Seq<char>) -> Option<bool> {
        env_of(self.fn_scope.parameters@, self.scopes.scopes@)
    }

    /// Whether a name is that of a parameter.
    pub open spec fn params(&self) -> spec_fn(Seq<char>) -> bool {
        params_of(self.fn_scope.parameters@)
    }

    pub fn new(defs: &'w Defs, fn_scope: FnScope, scopes: BasicScopes) -> (g: StatementGenerator<'w>)
        ensures
            g.defs == defs,
            g.fn_scope == fn_scope,
            g.scopes == scopes,
            g.stmts.stmts@.len() == 0,
            !g.stmts.returned,
    {
        StatementGenerator { defs, fn_scope, scopes, stmts: Statements::new() }
    }

    /// Defines a temporary of group `param_ty` holding `init`; the value it gives has
    /// group `result_ty`.
    fn temp_var_define(&mut self, param_ty: GroupIdx, result_ty: GroupIdx, init: mir::AssignValue) -> (h: ValueHandle)
        requires
            old(self).inv(),
            param_ty.idx < old(self).groups(),
            result_ty.idx < old(self).groups(),
        ensures
            final(self).steps_from(*old(self)),
            final(self).groups() == old(self).groups(),
            final(self).fn_scope.declare_map == old(self).fn_scope.declare_map,
            final(self).scopes == old(self).scopes,
            final(self).fn_scope.parameters == old(self).fn_scope.parameters,
            stmts_extend(final(self).stmts.stmts@, old(self).stmts.stmts@),
            final(self).handle_ok(h),
            h.handle.ty == result_ty,
            h.loc is Some,
            final(self).stmts.stmts@.len() == old(self).stmts.stmts@.len() + 1,
            temps_after(final(self).stmts.stmts@, old(self).stmts.stmts@.len() as int),
            final(self).stmts.returned == old(self).stmts.returned,
            h.loc == Some(old(self).stmts.stmts@.len() as usize),
            final(self).stmts.stmts@[old(self).stmts.stmts@.len() as int] matches Statement::VarDefine(d)
                && d.ty == param_ty && d.is_temp && d.init == Some(Undeclared { val: init, ty: param_ty })
                && h.handle.val == mir::Value::Variable(d.name),
    {
        let init = Undeclared::new(init, param_ty);
        let temp_name = self.fn_scope.temp_name();
        let loc = self.stmts.stmts.len();
        let name = temp_name.clone();
        self.stmts.push(Statement::VarDefine(VarDefine { ty: param_ty, name: temp_name, init: Some(init), is_temp: true }));
        ValueHandle { loc: Some(loc), handle: Undeclared::new(mir::Value::Variable(name), result_ty) }
    }

    /// Gives a temporary the name of a variable, which it becomes.
    fn rename_var_define(&mut self, loc: usize, new_name: &str)
        requires
            loc < old(self).stmts.stmts@.len(),
            old(self).stmts.stmts@[loc as int] is VarDefine,
        ensures
            final(self).defs == old(self).defs,
            final(self).fn_scope == old(self).fn_scope,
            final(self).scopes == old(self).scopes,
            final(self).stmts.stmts@.len() == old(self).stmts.stmts@.len(),
            final(self).stmts.returned == old(self).stmts.returned,
            forall|i: int| 0 <= i < old(self).stmts.stmts@.len() && i != loc ==> final(self).stmts.stmts@[i] == old(self).stmts.stmts@[i],
            final(self).stmts.stmts@[loc as int] matches Statement::VarDefine(d)
                && old(self).stmts.stmts@[loc as int] matches Statement::VarDefine(o)
                && d.ty == o.ty && d.init == o.init && d.name@ == new_name@ && !d.is_temp,
    {
        match &mut self.stmts.stmts[loc] {
            Statement::VarDefine(define) => {
                define.name = text(new_name);
                define.is_temp = false;
            }
            _ => {},
        }
    }

    /// The variable a name refers to: a parameter, else the innermost variable of that name.
    fn search_value(&self, name: &str) -> (r: Option<VarDef>)
        requires
            self.inv(),
        ensures
            r matches Some(d) ==> d.ty.idx < self.groups(),
            r == self.resolve(name@),
    {
        proof {
            crate::semantic::scope::lemma_lookup_scopes_bounded(self.scopes.scopes@, name@, self.groups());
            crate::semantic::scope::lemma_lookup_param_bounded(self.fn_scope.parameters@, name@, self.groups());
        }
        match self.fn_scope.search_parameter(name) {
            Some(d) => Some(d),
            None => self.scopes.search_variable(name),
        }
    }
}


/// For each name that resolves, whether it can be assigned: a parameter cannot, a variable
/// of the innermost scope that defines the name can if it was defined so.
pub open spec fn env_of(params: Seq<(String, GroupIdx)>, scopes: Seq<Vec<(String, VarDef)>>) -> spec_fn(Seq<char>) -> Option<bool> {
    |n: Seq<char>| match lookup_param(params, n) {
        Some(_) => Some(false),
        None => match lookup_scopes(scopes, n) {
            Some(d) => Some(d.mutable),
            None => None,
        },
    }
}

/// Whether a name is that of a parameter.
pub open spec fn params_of(params: Seq<(String, GroupIdx)>) -> spec_fn(Seq<char>) -> bool {
    |n: Seq<char>| lookup_param(params, n) is Some
}

/// Which names of functions can be called with the definitions: those with an overload.
pub open spec fn callable(defs: Defs) -> spec_fn(Seq<char>) -> bool {
    |n: Seq<char>| defs.fn_signs.spec_unmangled(n).len() > 0
}

/// Whether the names of an expression resolve: each variable is defined, and each called
/// function can be called (`calls`). `env` gives, for a name that resolves, whether it can be
/// assigned.
pub open spec fn expr_resolves(calls: spec_fn(Seq<char>) -> bool, env: spec_fn(Seq<char>) -> Option<bool>, e: Expr) -> bool
    decreases e,
{
    forall|k: int| 0 <= k < e.items@.len() ==> match #[trigger] e.items@[k] {
        ExprItem::AtomicExpr(pu) => atomic_resolves(calls, env, pu.item),
        ExprItem::Operators(_) => true,
    }
}

pub open spec fn atomic_resolves(calls: spec_fn(Seq<char>) -> bool, env: spec_fn(Seq<char>) -> Option<bool>, a: AtomicExpr) -> bool
    decreases a,
{
    match a {
        AtomicExpr::Variable(v) => env(v.0.string@) is Some,
        AtomicExpr::FnCall(fc) => calls(fc.fn_name.0.string@)
            && exprs_resolve(calls, env, fc.args.args@),
        _ => true,
    }
}

pub open spec fn exprs_resolve(calls: spec_fn(Seq<char>) -> bool, env: spec_fn(Seq<char>) -> Option<bool>, es: Seq<Expr>) -> bool
    decreases es,
{
    forall|j: int| 0 <= j < es.len() ==> expr_resolves(calls, env, #[trigger] es[j])
}

/// The names after a variable named `name` is defined: it can be assigned, unless a
/// parameter has its name, which it does not hide.
pub open spec fn define_var(params: spec_fn(Seq<char>) -> bool, env: spec_fn(Seq<char>) -> Option<bool>, name: Seq<char>) -> spec_fn(Seq<char>) -> Option<bool> {
    |n: Seq<char>| if n == name && !params(n) { Some(true) } else { env(n) }
}

/// The names after a statement: a definition defines its variable; the other statements,
/// blocks included, leave the names as they were.
pub open spec fn stmt_env(params: spec_fn(Seq<char>) -> bool, env: spec_fn(Seq<char>) -> Option<bool>, s: parse::stmt::Statement) -> spec_fn(Seq<char>) -> Option<bool> {
    match s {
        parse::stmt::Statement::VarDefineStmt(d) => define_var(params, env, d.0.item.name.0.string@),
        _ => env,
    }
}

/// Whether a statement can be generated with the names `env`: its expressions resolve,
/// an assigned name is a variable that can be assigned, a defined variable has a type that
/// converts, and the statements of its blocks resolve in turn.
pub open spec fn stmt_resolves(calls: spec_fn(Seq<char>) -> bool, params: spec_fn(Seq<char>) -> bool, env: spec_fn(Seq<char>) -> Option<bool>, s: parse::stmt::Statement) -> bool
    decreases s,
{
    match s {
        parse::stmt::Statement::FnCallStmt(f) => calls(f.0.item.fn_name.0.string@)
            && exprs_resolve(calls, env, f.0.item.args.args@),
        parse::stmt::Statement::VarStoreStmt(v) => expr_resolves(calls, env, v.0.item.assign.item.val)
            && env(v.0.item.name.0.string@) == Some(true),
        parse::stmt::Statement::VarDefineStmt(d) => spec_mir_ty(d.0.item.ty.item) is Some
            && (d.0.item.init matches Some(a) ==> expr_resolves(calls, define_var(params, env, d.0.item.name.0.string@), a.val)),
        parse::stmt::Statement::If(i) => (forall|k: int| 0 <= k < i.branches@.len() ==> {
                &&& exprs_resolve(calls, env, (#[trigger] i.branches@[k]).conds.conds@)
                &&& stmts_resolve(calls, params, env, i.branches@[k].body.stmts@)
            }) && (i.else_ matches Some(e) ==> stmts_resolve(calls, params, env, e.block.stmts@)),
        parse::stmt::Statement::While(w) => exprs_resolve(calls, env, w.conds.conds@)
            && stmts_resolve(calls, params, env, w.block.stmts@),
        parse::stmt::Statement::Return(r) => r.val matches Some(e) ==> expr_resolves(calls, env, e),
        parse::stmt::Statement::Comment(_) => true,
        parse::stmt::Statement::CodeBlock(b) => stmts_resolve(calls, params, env, b.stmts@),
    }
}

/// Whether statements can be generated one after the other, each with the names that the
/// ones before leave.
pub open spec fn stmts_resolve(calls: spec_fn(Seq<char>) -> bool, params: spec_fn(Seq<char>) -> bool, env: spec_fn(Seq<char>) -> Option<bool>, stmts: Seq<parse::stmt::Statement>) -> bool
    decreases stmts,
{
    if stmts.len() == 0 {
        true
    } else {
        stmt_resolves(calls, params, env, stmts[0])
            && stmts_resolve(calls, params, stmt_env(params, env, stmts[0]), stmts.drop_first())
    }
}

/// Whether a block returns once its statements are generated one after the other: a return
/// returns; a block returns where its own statements do; conditions start the statements of
/// the block anew, so after an `if` with branches it returns exactly when the `if` does (every
/// branch and the `else`), and after a loop it does not; the other statements change nothing.
pub open spec fn returns_upto(stmts: Seq<parse::stmt::Statement>) -> bool
    decreases stmts,
{
    if stmts.len() == 0 {
        false
    } else {
        returns_step(returns_upto(stmts.drop_last()), stmts.last())
    }
}

pub open spec fn returns_step(r: bool, s: parse::stmt::Statement) -> bool
    decreases s,
{
    match s {
        parse::stmt::Statement::If(i) => {
            let ret = (i.else_ matches Some(e) && returns_upto(e.block.stmts@))
                && forall|k: int| 0 <= k < i.branches@.len() ==> returns_upto(#[trigger] i.branches@[k].body.stmts@);
            if i.branches@.len() > 0 { ret } else { r || ret }
        },
        parse::stmt::Statement::While(_) => false,
        parse::stmt::Statement::Return(_) => true,
        parse::stmt::Statement::CodeBlock(b) => r || returns_upto(b.stmts@),
        _ => r,
    }
}

/// Generating a statement leaves the block returning as it did, except after conditions,
/// and adds the statement, which may return.
pub proof fn lemma_returns_step(prev: bool, s: parse::stmt::Statement)
    ensures
        returns_step(prev, s) == ((match s {
            parse::stmt::Statement::While(_) => false,
            parse::stmt::Statement::If(i) => i.branches@.len() == 0 && prev,
            _ => prev,
        }) || returns_step(false, s)),
{
}

/// Whether the statement generated for a source statement returns.
pub open spec fn stmt_returns(s: parse::stmt::Statement) -> bool {
    returns_step(false, s)
}

/// The temporaries an expression is computed with: one for each operator and one for each
/// call, after those of the call's arguments.
pub open spec fn expr_temps(e: Expr) -> nat
    decreases e,
{
    items_temps(e.items@)
}

pub open spec fn items_temps(items: Seq<ExprItem>) -> nat
    decreases items,
{
    if items.len() == 0 {
        0
    } else {
        items_temps(items.drop_last()) + match items.last() {
            ExprItem::Operators(_) => 1,
            ExprItem::AtomicExpr(a) => atomic_temps(a.item),
        }
    }
}

pub open spec fn atomic_temps(a: AtomicExpr) -> nat
    decreases a,
{
    match a {
        AtomicExpr::FnCall(fc) => args_temps(fc.args.args@) + 1,
        _ => 0,
    }
}

pub open spec fn args_temps(args: Seq<Expr>) -> nat
    decreases args,
{
    if args.len() == 0 {
        0
    } else {
        args_temps(args.drop_last()) + expr_temps(args.last())
    }
}

/// The statements after the first `from` are all definitions of temporaries.
pub open spec fn temps_after(stmts: Seq<Statement<Mir>>, from: int) -> bool {
    forall|l: int| from <= l < stmts.len() ==> ((#[trigger] stmts[l]) matches Statement::VarDefine(d) && d.is_temp)
}

/// The value of a binary operation has a type of its own, `bool`, exactly when the operator
/// states a relation (a comparison): a new group whose one branch is `bool`; otherwise it
/// has the type of its left operand, which the right one shares.
#[verifier::opaque]
pub open spec fn binary_result_typed(map: crate::declare::graph::DeclareGraph, groups_before: nat, op: Operators,
    l: ValueHandle, v: ValueHandle) -> bool {
    &&& is_relation(op) ==> v.handle.ty.idx == groups_before
        && map.spec_groups()[v.handle.ty.idx as int].spec_slots().len() == 1
        && map.spec_alive(Branch { belong_to: v.handle.ty, branch_idx: 0 })
        && map.spec_branch(Branch { belong_to: v.handle.ty, branch_idx: 0 }).spec_type()
            == TypeDefineV::Primitive(PrimitiveType::Bool)
    &&& !is_relation(op) ==> v.handle.ty == l.handle.ty
}

/// The value is the variable that the definition defines.
pub open spec fn h_defined(d: VarDefine<Mir>, v: ValueHandle) -> bool {
    v.handle.val == mir::Value::Variable(d.name)
}

/// What the expression-level steps keep: statements are only added after the others, and
/// no variable is defined.
pub open spec fn expr_step<'w>(new: StatementGenerator<'w>, old: StatementGenerator<'w>) -> bool {
    &&& new.steps_from(old)
    &&& stmts_extend(new.stmts.stmts@, old.stmts.stmts@)
    &&& new.scopes == old.scopes
    &&& new.fn_scope.parameters == old.fn_scope.parameters
    &&& new.stmts.returned == old.stmts.returned
}

/// The items whose values are on the stack after the items of a postfix expression, from the
/// bottom: an operand pushes its own value; an operator pops its operands and pushes its own.
pub open spec fn rpn_stack(items: Seq<ExprItem>) -> Seq<int>
    decreases items.len(),
{
    if items.len() == 0 {
        Seq::empty()
    } else {
        let st = rpn_stack(items.drop_last());
        let k = items.len() - 1;
        match items.last() {
            ExprItem::AtomicExpr(_) => st.push(k),
            ExprItem::Operators(op) => if op.item.spec_associativity() == OperatorAssociativity::Binary && st.len() >= 2 {
                st.take(st.len() - 2).push(k)
            } else if op.item.spec_associativity() == OperatorAssociativity::Unary && st.len() >= 1 {
                st.take(st.len() - 1).push(k)
            } else {
                seq![k]
            },
        }
    }
}

/// The value of an operand whose temporaries start at `at`: a variable by its name, a literal
/// as written, a call by the temporary defined after those of its arguments, which calls
/// with as many values as the call has arguments.
#[verifier::opaque]
pub open spec fn atomic_value(stmts: Seq<Statement<Mir>>, at: int, a: AtomicExpr, h: ValueHandle) -> bool {
    match a {
        AtomicExpr::Variable(v) => h.loc is None && (h.handle.val matches mir::Value::Variable(n) && n@ == v.0.string@),
        AtomicExpr::CharLiteral(_) => h.loc is None && (h.handle.val matches mir::Value::Literal(lit) && literal_written(lit, a)),
        AtomicExpr::NumberLiteral(_) => h.loc is None && (h.handle.val matches mir::Value::Literal(lit) && literal_written(lit, a)),
        AtomicExpr::FnCall(fc) => {
            let loc = at + args_temps(fc.args.args@);
            &&& h.loc == Some(loc as usize)
            &&& stmts[loc] matches Statement::VarDefine(d) && d.is_temp && h.handle.val == mir::Value::Variable(d.name)
                && (d.init matches Some(u) && (u.val matches mir::AssignValue::FnCall(c) && c.args@.len() == fc.args.args@.len()))
        },
        _ => true,
    }
}

/// A call whose temporaries start at `at` computes each of its arguments in turn, and its
/// temporary calls with their values, in order.
pub open spec fn call_computed(stmts: Seq<Statement<Mir>>, at: int, fc: parse::expr::FnCall) -> bool {
    let loc = at + args_temps(fc.args.args@);
    stmts[loc] matches Statement::VarDefine(d) && (d.init matches Some(u) && (u.val matches mir::AssignValue::FnCall(c)
        && c.args@.len() == fc.args.args@.len()
        && forall|j: int| 0 <= j < fc.args.args@.len() ==>
            computes_value(stmts, at + args_temps(fc.args.args@.take(j)), #[trigger] fc.args.args@[j], c.args@[j])))
}

/// What an operator computes from the values of its operands, the left one first.
pub open spec fn operation(op: Operators, operands: Seq<Undeclared<mir::Value>>) -> mir::AssignValue {
    if op.spec_associativity() == OperatorAssociativity::Binary {
        mir::AssignValue::Operate(mir::Operate::Binary(op, operands[operands.len() - 2], operands[operands.len() - 1]))
    } else {
        mir::AssignValue::Operate(mir::Operate::Unary(op, operands[operands.len() - 1]))
    }
}

/// What the operator at `k` computes: a temporary, defined at the place that the temporaries
/// of the items before it leave, holding the operator applied to the values on top of the
/// stack.
pub open spec fn operator_computed(stmts: Seq<Statement<Mir>>, base: int, items: Seq<ExprItem>, hs: Seq<ValueHandle>, k: int, op: Operators) -> bool {
    let operands = rpn_stack(items.take(k)).map_values(|i: int| hs[i].handle);
    let at = base + items_temps(items.take(k));
    &&& hs[k].loc == Some(at as usize)
    &&& stmts[at] matches Statement::VarDefine(d) && d.is_temp && hs[k].handle.val == mir::Value::Variable(d.name)
        && (d.init matches Some(u) && u.val == operation(op, operands))
}

/// Item `k` of a postfix expression has the value `hs[k]`, computed by the statements from
/// `base` on.
#[verifier::opaque]
pub open spec fn item_computed(stmts: Seq<Statement<Mir>>, base: int, items: Seq<ExprItem>, hs: Seq<ValueHandle>, k: int) -> bool {
    match items[k] {
        ExprItem::AtomicExpr(pu) => atomic_value(stmts, base + items_temps(items.take(k)), pu.item, hs[k]),
        ExprItem::Operators(op) => operator_computed(stmts, base, items, hs, k, op.item),
    }
}

/// The statements compute the items of a postfix expression from `base` on, `hs[k]` being the
/// value of item `k`.
#[verifier::opaque]
pub open spec fn expr_computes(stmts: Seq<Statement<Mir>>, base: int, items: Seq<ExprItem>, hs: Seq<ValueHandle>) -> bool {
    &&& hs.len() == items.len()
    &&& computes_upto(stmts, base, items, hs, items.len() as int)
}

/// The first `n` items are computed so.
pub open spec fn computes_upto(stmts: Seq<Statement<Mir>>, base: int, items: Seq<ExprItem>, hs: Seq<ValueHandle>, n: int) -> bool {
    forall|k: int| 0 <= k < n ==> #[trigger] item_computed(stmts, base, items, hs, k)
}

/// The statements compute an expression from `base` on, its value being `v`.
#[verifier::opaque]
pub open spec fn computes_value(stmts: Seq<Statement<Mir>>, base: int, expr: Expr, v: Undeclared<mir::Value>) -> bool {
    exists|hs: Seq<ValueHandle>| #[trigger] expr_computes(stmts, base, expr.items@, hs) && v == hs[expr.items@.len() - 1].handle
}

/// A condition computes each of its expressions, in its own statements, the last one being
/// its value.
pub open spec fn cond_computed(c: Condition<Mir>, conds: Seq<Expr>) -> bool {
    &&& forall|j: int| 0 <= j < conds.len() ==> computed_in(c.compute.stmts@, #[trigger] conds[j])
    &&& exists|b: int| computes_value(c.compute.stmts@, b, conds.last(), c.val)
}

/// The statements compute the expression from some place on.
pub open spec fn computed_in(stmts: Seq<Statement<Mir>>, e: Expr) -> bool {
    exists|b: int, h: Undeclared<mir::Value>| computes_value(stmts, b, e, h)
}

/// A condition whose expressions are each computed, the last one giving its value, computes
/// them.
proof fn lemma_cond_computed(c: Condition<Mir>, conds: Seq<Expr>, bs: Seq<int>, vs: Seq<Undeclared<mir::Value>>)
    requires
        conds.len() > 0,
        bs.len() == conds.len(),
        vs.len() == conds.len(),
        vs.last() == c.val,
        forall|j: int| 0 <= j < conds.len() ==> computes_value(c.compute.stmts@, #[trigger] bs[j], conds[j], vs[j]),
    ensures
        cond_computed(c, conds),
{
    assert forall|j: int| 0 <= j < conds.len() implies computed_in(c.compute.stmts@, #[trigger] conds[j]) by {
        assert(computes_value(c.compute.stmts@, bs[j], conds[j], vs[j]));
    }
    assert(conds.last() == conds[conds.len() - 1]);
    assert(computes_value(c.compute.stmts@, bs[conds.len() - 1], conds.last(), c.val));
}

/// What an expression computed stays so when statements are added after its temporaries.
pub proof fn lemma_value_frame(stmts: Seq<Statement<Mir>>, stmts2: Seq<Statement<Mir>>, base: int, expr: Expr, v: Undeclared<mir::Value>)
    requires
        0 <= base,
        computes_value(stmts, base, expr, v),
        stmts_extend(stmts2, stmts),
        base + expr_temps(expr) <= stmts.len(),
    ensures
        computes_value(stmts2, base, expr, v),
{
    reveal(computes_value);
    let hs = choose|hs: Seq<ValueHandle>| #[trigger] expr_computes(stmts, base, expr.items@, hs) && v == hs[expr.items@.len() - 1].handle;
    reveal(expr_computes);
    assert(expr.items@.take(expr.items@.len() as int) == expr.items@);
    lemma_computes_frame(stmts, stmts2, base, expr.items@, hs, hs, expr.items@.len() as int);
    assert(expr_computes(stmts2, base, expr.items@, hs));
}

/// The items on the stack come before the `n`-th.
pub proof fn lemma_rpn_stack_bound(items: Seq<ExprItem>)
    ensures
        forall|j: int| 0 <= j < rpn_stack(items).len() ==> 0 <= #[trigger] rpn_stack(items)[j] < items.len(),
    decreases items.len(),
{
    if items.len() > 0 {
        let st = rpn_stack(items.drop_last());
        lemma_rpn_stack_bound(items.drop_last());
        assert forall|j: int| 0 <= j < rpn_stack(items).len() implies 0 <= #[trigger] rpn_stack(items)[j] < items.len() by {
            if j < rpn_stack(items).len() - 1 {
                assert(rpn_stack(items)[j] == st[j]);
            }
        }
    }
}

/// Fewer arguments need no more temporaries.
pub proof fn lemma_args_temps_mono(args: Seq<Expr>, a: int, b: int)
    requires
        0 <= a <= b <= args.len(),
    ensures
        args_temps(args.take(a)) <= args_temps(args.take(b)),
    decreases b - a,
{
    if a < b {
        lemma_args_temps_mono(args, a, b - 1);
        assert(args.take(b).drop_last() == args.take(b - 1));
    }
}

/// What the first `k` arguments of a call computed, each from where the temporaries of
/// those before it end, stays so when statements are added after them.
proof fn lemma_args_frame(stmts: Seq<Statement<Mir>>, stmts2: Seq<Statement<Mir>>, base: int, args: Seq<Expr>,
    vals: Seq<Undeclared<mir::Value>>, k: int)
    requires
        0 <= base,
        0 <= k <= args.len(),
        k <= vals.len(),
        stmts_extend(stmts2, stmts),
        base + args_temps(args.take(k)) <= stmts.len(),
        forall|j: int| 0 <= j < k ==> computes_value(stmts, base + args_temps(args.take(j)), #[trigger] args[j], vals[j]),
    ensures
        forall|j: int| 0 <= j < k ==> computes_value(stmts2, base + args_temps(args.take(j)), #[trigger] args[j], vals[j]),
{
    assert forall|j: int| 0 <= j < k implies computes_value(stmts2, base + args_temps(args.take(j)), #[trigger] args[j], vals[j]) by {
        lemma_args_temps_mono(args, j + 1, k);
        assert(args.take(j + 1).drop_last() == args.take(j));
        assert(args.take(j + 1).last() == args[j]);
        lemma_value_frame(stmts, stmts2, base + args_temps(args.take(j)), args[j], vals[j]);
    }
}

/// Fewer items need no more temporaries.
pub proof fn lemma_items_temps_mono(items: Seq<ExprItem>, a: int, b: int)
    requires
        0 <= a <= b <= items.len(),
    ensures
        items_temps(items.take(a)) <= items_temps(items.take(b)),
    decreases b - a,
{
    if a < b {
        lemma_items_temps_mono(items, a, b - 1);
        assert(items.take(b).drop_last() == items.take(b - 1));
    }
}

/// What item `k` computed stays so when statements are added after those of the first `n`
/// items and values are added after theirs.
proof fn lemma_item_frame(stmts: Seq<Statement<Mir>>, stmts2: Seq<Statement<Mir>>, base: int, items: Seq<ExprItem>,
    hs: Seq<ValueHandle>, hs2: Seq<ValueHandle>, k: int, n: int)
    requires
        0 <= k < n <= items.len(),
        0 <= base,
        item_computed(stmts, base, items, hs, k),
        stmts_extend(stmts2, stmts),
        base + items_temps(items.take(n)) <= stmts.len(),
        n <= hs.len(),
        n <= hs2.len(),
        forall|i: int| 0 <= i < n ==> hs2[i] == hs[i],
    ensures
        item_computed(stmts2, base, items, hs2, k),
{
    reveal(item_computed);
    assert(hs2[k] == hs[k]);
    lemma_items_temps_mono(items, k + 1, n);
    assert(items.take(k + 1).drop_last() == items.take(k));
    assert(items.take(k + 1).last() == items[k]);
    let at = base + items_temps(items.take(k));
    match items[k] {
        ExprItem::Operators(op) => {
            let st = rpn_stack(items.take(k));
            lemma_rpn_stack_bound(items.take(k));
            assert(stmts2[at] == stmts[at]);
            assert(st.map_values(|i: int| hs2[i].handle) =~= st.map_values(|i: int| hs[i].handle));
        },
        ExprItem::AtomicExpr(pu) => {
            reveal(atomic_value);
            if let AtomicExpr::FnCall(fc) = pu.item {
                let loc = at + args_temps(fc.args.args@);
                assert(items_temps(items.take(k + 1)) == items_temps(items.take(k)) + atomic_temps(pu.item));
                assert(atomic_temps(pu.item) == args_temps(fc.args.args@) + 1);
                assert(stmts2[loc] == stmts[loc]);
            }
        },
    }
}

/// What the first `n` items computed stays so when statements and values are added after
/// theirs.
pub proof fn lemma_computes_frame(stmts: Seq<Statement<Mir>>, stmts2: Seq<Statement<Mir>>, base: int, items: Seq<ExprItem>,
    hs: Seq<ValueHandle>, hs2: Seq<ValueHandle>, n: int)
    requires
        0 <= n <= items.len(),
        0 <= base,
        computes_upto(stmts, base, items, hs, n),
        stmts_extend(stmts2, stmts),
        base + items_temps(items.take(n)) <= stmts.len(),
        n <= hs.len(),
        n <= hs2.len(),
        forall|i: int| 0 <= i < n ==> hs2[i] == hs[i],
    ensures
        computes_upto(stmts2, base, items, hs2, n),
{
    assert forall|k: int| 0 <= k < n implies #[trigger] item_computed(stmts2, base, items, hs2, k) by {
        lemma_item_frame(stmts, stmts2, base, items, hs, hs2, k, n);
    }
}

/// One more item computed: the first `k` stay so, and item `k` has the value `v`.
proof fn lemma_computes_step(stmts: Seq<Statement<Mir>>, stmts2: Seq<Statement<Mir>>, base: int, items: Seq<ExprItem>,
    hs: Seq<ValueHandle>, v: ValueHandle, k: int)
    requires
        0 <= k < items.len(),
        0 <= base,
        hs.len() == k,
        computes_upto(stmts, base, items, hs, k),
        stmts_extend(stmts2, stmts),
        base + items_temps(items.take(k)) <= stmts.len(),
        match items[k] {
            ExprItem::AtomicExpr(pu) => atomic_value(stmts2, base + items_temps(items.take(k)), pu.item, v),
            ExprItem::Operators(op) => operator_computed(stmts2, base, items, hs.push(v), k, op.item),
        },
    ensures
        computes_upto(stmts2, base, items, hs.push(v), k + 1),
{
    lemma_computes_frame(stmts, stmts2, base, items, hs, hs.push(v), k);
    assert(item_computed(stmts2, base, items, hs.push(v), k)) by {
        reveal(item_computed);
    }
}

/// The literal is the one written in the operand.
pub open spec fn literal_written(lit: ir::Literal, a: AtomicExpr) -> bool {
    match a {
        AtomicExpr::CharLiteral(c) => lit == ir::Literal::Char(c.parsed),
        AtomicExpr::NumberLiteral(NumberLiteral::Digit { number }) => lit == ir::Literal::Integer(number),
        AtomicExpr::NumberLiteral(NumberLiteral::Float { number }) => lit matches ir::Literal::Float(t) && t@ == number@,
        _ => false,
    }
}

/// Whether the value of an expression is a temporary: the last item, whose value is the
/// result, is an operator or a call.
pub open spec fn value_is_temp(e: Expr) -> bool {
    e.items@.len() > 0 && match e.items@.last() {
        ExprItem::Operators(_) => true,
        ExprItem::AtomicExpr(pu) => pu.item is FnCall,
    }
}

/// An empty innermost scope hides nothing.
pub proof fn lemma_lookup_push_empty(old: Seq<Vec<(String, VarDef)>>, new: Seq<Vec<(String, VarDef)>>, n: Seq<char>)
    requires
        new.len() == old.len() + 1,
        new.drop_last() == old,
        new.last()@.len() == 0,
    ensures
        lookup_scopes(new, n) == lookup_scopes(old, n),
{
}

/// Opening an empty scope changes what no name refers to.
pub proof fn lemma_env_push<'w>(new: StatementGenerator<'w>, old: StatementGenerator<'w>)
    requires
        new.scopes.scopes@.len() == old.scopes.scopes@.len() + 1,
        new.scopes.scopes@.drop_last() == old.scopes.scopes@,
        new.scopes.scopes@.last()@.len() == 0,
        new.fn_scope.parameters@ == old.fn_scope.parameters@,
    ensures
        new.env() == old.env(),
        new.params() == old.params(),
{
    assert forall|n: Seq<char>| #[trigger] (new.env())(n) == (old.env())(n) by {
        lemma_lookup_push_empty(old.scopes.scopes@, new.scopes.scopes@, n);
    }
    assert(new.env() =~= old.env());
    assert(new.params() =~= old.params());
}

/// A variable defined in the innermost scope is what its name refers to; other names refer to
/// what they did.
pub proof fn lemma_lookup_define(old: Seq<Vec<(String, VarDef)>>, new: Seq<Vec<(String, VarDef)>>, name: Seq<char>, def: VarDef, n: Seq<char>)
    requires
        old.len() > 0,
        new.len() == old.len(),
        forall|i: int| 0 <= i < old.len() - 1 ==> new[i] == old[i],
        new.last()@.drop_last() == old.last()@,
        new.last()@.len() == old.last()@.len() + 1,
        new.last()@.last().0@ == name,
        new.last()@.last().1 == def,
    ensures
        lookup_scopes(new, n) == if n == name { Some(def) } else { lookup_scopes(old, n) },
{
    assert(new.drop_last() =~= old.drop_last());
}

impl<'w> StatementGenerator<'w> {
    /// Generates a call: the arguments, then a group with one branch for each overload of
    /// the name (an overload with another number of parameters is given up, and each
    /// parameter must have the type of its argument), then a temporary holding the call.
    #[verifier::spinoff_prover]
    #[verifier::rlimit(60)]
    pub fn generate_fn_call(&mut self, fn_call: &parse::expr::FnCall) -> (r: Result<ValueHandle, Error>)
        requires
            old(self).inv(),
            forall|j: int| 0 <= j < fn_call.args.args@.len() ==> expr_supported(#[trigger] fn_call.args.args@[j]),
        ensures
            expr_step(*final(self), *old(self)),
            r matches Ok(h) ==> final(self).handle_ok(h) && h.loc is Some,
            r is Ok ==> final(self).stmts.stmts@.len() == old(self).stmts.stmts@.len() + args_temps(fn_call.args.args@) + 1,
            r is Ok ==> temps_after(final(self).stmts.stmts@, old(self).stmts.stmts@.len() as int),
            old(self).defs.fn_signs.spec_unmangled(fn_call.fn_name.0.string@).len() == 0 ==> r is Err,
            r is Ok <==> old(self).defs.fn_signs.spec_unmangled(fn_call.fn_name.0.string@).len() > 0
                && exprs_resolve(callable(*old(self).defs), old(self).env(), fn_call.args.args@),
            r matches Ok(h) ==> atomic_value(final(self).stmts.stmts@, old(self).stmts.stmts@.len() as int, AtomicExpr::FnCall(*fn_call), h),
            r is Ok ==> call_computed(final(self).stmts.stmts@, old(self).stmts.stmts@.len() as int, *fn_call),
        decreases fn_call, 0int,
    {
        let mut args: Vec<Undeclared<mir::Value>> = Vec::new();
        let mut args_spans: Vec<Span> = Vec::new();
        let ghost start = *self;
        let mut k: usize = 0;
        while k < fn_call.args.args.len()
            invariant
                expr_step(*self, start),
                start == *old(self),
                start.inv(),
                forall|j: int| 0 <= j < fn_call.args.args@.len() ==> expr_supported(#[trigger] fn_call.args.args@[j]),
                k <= fn_call.args.args.len(),
                args@.len() == k,
                args_spans@.len() == k,
                forall|j: int| 0 <= j < k ==> (#[trigger] args@[j]).ty.idx < self.groups(),
                self.stmts.stmts@.len() == start.stmts.stmts@.len() + args_temps(fn_call.args.args@.take(k as int)),
                temps_after(self.stmts.stmts@, start.stmts.stmts@.len() as int),
                forall|j: int| 0 <= j < k ==> expr_resolves(callable(*start.defs), start.env(), #[trigger] fn_call.args.args@[j]),
                forall|j: int| 0 <= j < k ==> computes_value(self.stmts.stmts@, (start.stmts.stmts@.len() + args_temps(fn_call.args.args@.take(j))) as int,
                    #[trigger] fn_call.args.args@[j], args@[j]),
            decreases fn_call.args.args.len() - k,
        {
            proof {
                let t = fn_call.args.args@.take(k as int + 1);
                assert(t.drop_last() == fn_call.args.args@.take(k as int));
                assert(t.last() == fn_call.args.args@[k as int]);
            }
            let ghost before = self.stmts.stmts@;
            let h = match self.generate_expr(&fn_call.args.args[k]) {
                Ok(h) => h,
                Err(e) => return Err(e),
            };
            proof {
                lemma_args_frame(before, self.stmts.stmts@, start.stmts.stmts@.len() as int, fn_call.args.args@, args@, k as int);
                assert(computes_value(self.stmts.stmts@, (start.stmts.stmts@.len() + args_temps(fn_call.args.args@.take(k as int))) as int,
                    fn_call.args.args@[k as int], h.handle));
            }
            let ghost old_args = args@;
            args.push(h.handle);
            proof {
                assert forall|j: int| 0 <= j < k + 1 implies computes_value(self.stmts.stmts@,
                    (start.stmts.stmts@.len() + args_temps(fn_call.args.args@.take(j))) as int, #[trigger] fn_call.args.args@[j], args@[j]) by {
                    if j < k {
                        assert(args@[j] == old_args[j]);
                    }
                }
            }
            args_spans.push(fn_call.args.args[k].span);
            k = k + 1;
        }
        assert(fn_call.args.args@.take(k as int) == fn_call.args.args@);
        let ghost after_args = self.stmts.stmts@.len();
        let name = fn_call.fn_name.as_str();
        let overloads = match self.defs.fn_signs.get_unmangled(name) {
            Some(o) => o,
            None => {
                let mut reason = text("call undefinded function ");
                append_str(&mut reason, name);
                return Err(Error::new(fn_call.span, reason));
            }
        };
        let len_filter = FnParamLen::new(Some(name), args.len(), fn_call.span);
        let mut builders: Vec<BranchesBuilder> = Vec::new();
        let mut o: usize = 0;
        while o < overloads.len()
            invariant
                self.inv(),
                o <= overloads.len(),
                args@.len() == args_spans@.len(),
                forall|j: int| 0 <= j < args@.len() ==> (#[trigger] args@[j]).ty.idx < self.groups(),
                forall|b: int, j: int| 0 <= b < builders@.len() && 0 <= j < builders@[b].depends.depends@.len() ==>
                    (#[trigger] builders@[b].depends.depends@[j]).0.idx < self.groups(),
            decreases overloads.len() - o,
        {
            let overload = &overloads[o];
            let mut builder = BranchesBuilder::new(Type::Overload(share(overload)));
            if builder.filter_self(self.defs, &len_filter, TypesKind::Overload) {
                let params = &overload.sign.params;
                let mut p: usize = 0;
                while p < params.len() && p < args.len()
                    invariant
                        self.inv(),
                        args@.len() == args_spans@.len(),
                        forall|j: int| 0 <= j < args@.len() ==> (#[trigger] args@[j]).ty.idx < self.groups(),
                        forall|j: int| 0 <= j < builder.depends.depends@.len() ==> (#[trigger] builder.depends.depends@[j]).0.idx < self.groups(),
                    decreases params.len() - p,
                {
                    let filter = TypeEqual::new(&params[p].ty, args_spans[p]);
                    builder = builder.new_depend(&self.fn_scope.declare_map, self.defs, args[p].ty, &filter, TypesKind::Directly);
                    p = p + 1;
                }
            }
            builders.push(builder);
            o = o + 1;
        }
        let overload = self.fn_scope.declare_map.build_group(GroupBuilder::new(fn_call.span, builders));
        proof {
            assert forall|j: int| 0 <= j < args@.len() implies (#[trigger] args@[j]).ty.idx < self.groups() by {}
        }
        let ghost before = self.stmts.stmts@;
        let ghost arg_values = args@;
        let h = self.temp_var_define(overload, overload, mir::AssignValue::FnCall(mir::FnCall { args }));
        proof {
            let all = fn_call.args.args@;
            assert(all.take(all.len() as int) == all);
            lemma_args_frame(before, self.stmts.stmts@, start.stmts.stmts@.len() as int, all, arg_values, all.len() as int);
            assert(call_computed(self.stmts.stmts@, start.stmts.stmts@.len() as int, *fn_call));
            assert(atomic_value(self.stmts.stmts@, start.stmts.stmts@.len() as int, AtomicExpr::FnCall(*fn_call), h)) by {
                reveal(atomic_value);
            }
        }
        Ok(h)
    }

    /// Generates an operand: a literal gets a group of the types it may have, a variable
    /// the group it was defined with, a call its temporary.
    pub fn generate_atomic(&mut self, atomic: &PU<AtomicExpr>) -> (r: Result<ValueHandle, Error>)
        requires
            old(self).inv(),
            match atomic.item {
                AtomicExpr::StringLiteral(_) => false,
                AtomicExpr::Array(_) => false,
                AtomicExpr::FnCall(fc) => forall|j: int| 0 <= j < fc.args.args@.len() ==> expr_supported(#[trigger] fc.args.args@[j]),
                _ => true,
            },
        ensures
            expr_step(*final(self), *old(self)),
            r matches Ok(h) ==> final(self).handle_ok(h),
            atomic.item matches AtomicExpr::Variable(v) ==> (r is Ok <==> old(self).resolve(v.0.string@) is Some),
            atomic.item matches AtomicExpr::Variable(v) ==> (r matches Ok(h) ==> (h.loc is None
                && (h.handle.val matches mir::Value::Variable(n) && n@ == v.0.string@)
                && (old(self).resolve(v.0.string@) matches Some(d) && h.handle.ty == d.ty))),
            atomic.item is CharLiteral || atomic.item is NumberLiteral ==> (r matches Ok(h) && h.loc is None
                && h.handle.val is Literal),
            atomic.item is CharLiteral || atomic.item is NumberLiteral ==> (r matches Ok(h)
                && (h.handle.val matches mir::Value::Literal(lit) && literal_written(lit, atomic.item)
                && h.handle.ty.idx == old(self).groups() && final(self).groups() == old(self).groups() + 1
                && final(self).fn_scope.declare_map.spec_groups()[h.handle.ty.idx as int].spec_span() == atomic.span
                && forall|b: Branch| #[trigger] final(self).fn_scope.declare_map.spec_alive(b) && b.belong_to == h.handle.ty ==>
                    exists|k: int| 0 <= k < literal_types(lit).len()
                        && final(self).fn_scope.declare_map.spec_branch(b).spec_type() == TypeDefineV::Primitive(literal_types(lit)[k]))),
            atomic.item is FnCall ==> (r matches Ok(h) ==> h.loc is Some),
            r matches Ok(h) ==> atomic_value(final(self).stmts.stmts@, old(self).stmts.stmts@.len() as int, atomic.item, h),
            atomic.item matches AtomicExpr::FnCall(fc) ==> (r is Ok ==> call_computed(final(self).stmts.stmts@, old(self).stmts.stmts@.len() as int, fc)),
            r is Ok <==> atomic_resolves(callable(*old(self).defs), old(self).env(), atomic.item),
            r is Ok ==> final(self).stmts.stmts@.len() == old(self).stmts.stmts@.len() + atomic_temps(atomic.item),
            r is Ok ==> temps_after(final(self).stmts.stmts@, old(self).stmts.stmts@.len() as int),
        decreases atomic, 1int,
    {
        proof {
            reveal(atomic_value);
        }
        let literal = match &atomic.item {
            AtomicExpr::CharLiteral(c) => ir::Literal::Char(c.parsed),
            AtomicExpr::NumberLiteral(NumberLiteral::Float { number }) => ir::Literal::Float(number.clone()),
            AtomicExpr::NumberLiteral(NumberLiteral::Digit { number }) => ir::Literal::Integer(*number),
            AtomicExpr::FnCall(fc) => {
                return self.generate_fn_call(fc);
            }
            AtomicExpr::Variable(name) => {
                return match self.search_value(name.as_str()) {
                    Some(def) => Ok(ValueHandle { loc: None, handle: Undeclared::new(mir::Value::Variable(name.to_string()), def.ty) }),
                    None => Err(Error::new(atomic.span, text("use of undefined variable"))),
                };
            }
            AtomicExpr::StringLiteral(_) => {
                assert(false);
                return Err(Error::new(atomic.span, text("string literals are not supported")));
            }
            AtomicExpr::Array(_) => {
                assert(false);
                return Err(Error::new(atomic.span, text("arrays are not supported")));
            }
        };
        let branches = Undeclared::literal_branches(&literal);
        let ty = self.fn_scope.declare_map.build_group(GroupBuilder::new(atomic.span, branches));
        Ok(ValueHandle { loc: None, handle: Undeclared::new(mir::Value::Literal(literal), ty) })
    }

    /// Computes a binary operation: both operands are declared to have the same type, and a
    /// temporary of that type holds the operation; a comparison gives a `bool`.
    fn generate_binary(&mut self, at: Span, op: Operators, l: ValueHandle, r: ValueHandle) -> (v: ValueHandle)
        requires
            old(self).inv(),
            l.handle.ty.idx < old(self).groups(),
            r.handle.ty.idx < old(self).groups(),
        ensures
            expr_step(*final(self), *old(self)),
            final(self).handle_ok(v),
            final(self).stmts.stmts@.len() == old(self).stmts.stmts@.len() + 1,
            temps_after(final(self).stmts.stmts@, old(self).stmts.stmts@.len() as int),
            v.loc == Some(old(self).stmts.stmts@.len() as usize),
            final(self).stmts.stmts@[old(self).stmts.stmts@.len() as int] matches Statement::VarDefine(d)
                && d.is_temp && h_defined(d, v) && d.ty == l.handle.ty
                && (d.init matches Some(u) && u.val == mir::AssignValue::Operate(mir::Operate::Binary(op, l.handle, r.handle))),
            binary_result_typed(final(self).fn_scope.declare_map, old(self).groups(), op, l, v),
    {
        proof {
            crate::ops::law_comparisons_are_relations(op);
        }
        self.fn_scope.declare_map.merge_group(at, l.handle.ty, r.handle.ty);
        let ghost merged = self.groups();
        let param_ty = l.handle.ty;
        let result_ty = if op.op_ty() == OperatorTypes::CompareOperator {
            let mut items: Vec<Type> = Vec::new();
            items.push(Type::from_type(TypeDefine::Primitive(PrimitiveType::Bool)));
            let ghost all = items@;
            let g = self.fn_scope.declare_map.new_static_group(at, items);
            proof {
                assert(all.len() == 1);
                assert(self.fn_scope.declare_map.spec_branch(Branch { belong_to: g, branch_idx: 0 }) == all[0]);
            }
            g
        } else {
            l.handle.ty
        };
        let init = mir::Operate::Binary(op, l.handle, r.handle);
        let ghost lv = l;
        let v = self.temp_var_define(param_ty, result_ty, mir::AssignValue::Operate(init));
        proof {
            reveal(binary_result_typed);
            assert(merged == old(self).groups());
        }
        v
    }

    /// Computes a postfix expression: each operand is pushed; an operator pops its operands,
    /// declares both operands of a binary one to have the same type, and pushes a temporary;
    /// a comparison gives a `bool`. The value left last is the result.
    #[verifier::loop_isolation(false)]
    #[verifier::spinoff_prover]
    #[verifier::rlimit(100)]
    pub fn generate_expr(&mut self, expr: &Expr) -> (r: Result<ValueHandle, Error>)
        requires
            old(self).inv(),
            expr_supported(*expr),
        ensures
            expr_step(*final(self), *old(self)),
            r matches Ok(h) ==> final(self).handle_ok(h),
            r is Ok ==> final(self).stmts.stmts@.len() == old(self).stmts.stmts@.len() + expr_temps(*expr),
            r is Ok ==> temps_after(final(self).stmts.stmts@, old(self).stmts.stmts@.len() as int),
            r is Ok <==> expr_resolves(callable(*old(self).defs), old(self).env(), *expr),
            r matches Ok(h) ==> (h.loc is Some <==> value_is_temp(*expr)),
            r matches Ok(h) ==> exists|hs: Seq<ValueHandle>|
                #[trigger] expr_computes(final(self).stmts.stmts@, old(self).stmts.stmts@.len() as int, expr.items@, hs)
                && h == hs[expr.items@.len() - 1],
            r matches Ok(h) ==> computes_value(final(self).stmts.stmts@, old(self).stmts.stmts@.len() as int, *expr, h.handle),
        decreases expr, 2int,
    {
        let mut vals: Vec<ValueHandle> = Vec::new();
        let ghost start = *self;
        let ghost env = self.env();
        let ghost base = self.stmts.stmts@.len() as int;
        let ghost mut hs: Seq<ValueHandle> = Seq::empty();
        let mut k: usize = 0;
        while k < expr.items.len()
            invariant
                expr_step(*self, start),
                k <= expr.items.len(),
                vals@.len() == rpn_depth(expr.items@.take(k as int)),
                forall|j: int| 0 <= j < vals@.len() ==> self.handle_ok(#[trigger] vals@[j]),
                self.stmts.stmts@.len() == start.stmts.stmts@.len() + items_temps(expr.items@.take(k as int)),
                temps_after(self.stmts.stmts@, start.stmts.stmts@.len() as int),
                env == start.env(),
                forall|j: int| 0 <= j < k ==> match #[trigger] expr.items@[j] {
                    ExprItem::AtomicExpr(pu) => atomic_resolves(callable(*start.defs), env, pu.item),
                    ExprItem::Operators(_) => true,
                },
                k > 0 ==> vals@.len() > 0 && (vals@.last().loc is Some <==> match expr.items@[k - 1] {
                    ExprItem::Operators(_) => true,
                    ExprItem::AtomicExpr(pu) => pu.item is FnCall,
                }),
                base == start.stmts.stmts@.len(),
                hs.len() == k,
                vals@ == rpn_stack(expr.items@.take(k as int)).map_values(|i: int| hs[i]),
                k > 0 ==> rpn_stack(expr.items@.take(k as int)).last() == k - 1,
                computes_upto(self.stmts.stmts@, base, expr.items@, hs, k as int),
            decreases expr.items.len() - k,
        {
            proof {
                let t = expr.items@.take(k as int + 1);
                assert(t.drop_last() == expr.items@.take(k as int));
                assert(t.last() == expr.items@[k as int]);
            }
            let ghost before = *self;
            match &expr.items[k] {
                ExprItem::AtomicExpr(atomic) => {
                    let v = match self.generate_atomic(atomic) {
                        Ok(v) => v,
                        Err(e) => return Err(e),
                    };
                    proof {
                        assert forall|j: int| 0 <= j < vals@.len() implies self.handle_ok(#[trigger] vals@[j]) by {
                            assert(before.handle_ok(vals@[j]));
                        }
                        let st = rpn_stack(expr.items@.take(k as int));
                        assert(rpn_stack(expr.items@.take(k as int + 1)) == st.push(k as int));
                        lemma_computes_step(before.stmts.stmts@, self.stmts.stmts@, base, expr.items@, hs, v, k as int);
                        let hs2 = hs.push(v);
                        lemma_rpn_stack_bound(expr.items@.take(k as int));
                        assert(vals@.push(v) =~= st.push(k as int).map_values(|i: int| hs2[i]));
                        hs = hs2;
                    }
                    vals.push(v);
                }
                ExprItem::Operators(op) => {
                    match op.item.associativity() {
                        OperatorAssociativity::Binary => {
                            let r = vals.pop().unwrap();
                            let l = vals.pop().unwrap();
                            let ghost lv = l;
                            let ghost rv = r;
                            let v = self.generate_binary(expr.span, op.item, l, r);
                            proof {
                                let l = lv;
                                let r = rv;
                                assert forall|j: int| 0 <= j < vals@.len() implies self.handle_ok(#[trigger] vals@[j]) by {
                                    assert(before.handle_ok(vals@[j]));
                                }
                                let hs2 = hs.push(v);
                                let st = rpn_stack(expr.items@.take(k as int));
                                lemma_rpn_stack_bound(expr.items@.take(k as int));
                                assert(rpn_stack(expr.items@.take(k as int + 1)) == st.take(st.len() - 2).push(k as int));
                                assert(l == hs[st[st.len() - 2]]);
                                assert(r == hs[st[st.len() - 1]]);
                                let operands = st.map_values(|i: int| hs2[i].handle);
                                assert(operands[operands.len() - 2] == l.handle);
                                assert(operands[operands.len() - 1] == r.handle);
                                assert(operator_computed(self.stmts.stmts@, base, expr.items@, hs2, k as int, op.item));
                                lemma_computes_step(before.stmts.stmts@, self.stmts.stmts@, base, expr.items@, hs, v, k as int);
                                assert(vals@.push(v) =~= st.take(st.len() - 2).push(k as int).map_values(|i: int| hs2[i]));
                                hs = hs2;
                            }
                            vals.push(v);
                        }
                        OperatorAssociativity::Unary => {
                            let v = vals.pop().unwrap();
                            let ty = v.handle.ty;
                            let init = mir::Operate::Unary(op.item, v.handle);
                            let w = self.temp_var_define(ty, ty, mir::AssignValue::Operate(init));
                            proof {
                                assert forall|j: int| 0 <= j < vals@.len() implies self.handle_ok(#[trigger] vals@[j]) by {
                                    assert(before.handle_ok(vals@[j]));
                                }
                                let hs2 = hs.push(w);
                                let st = rpn_stack(expr.items@.take(k as int));
                                lemma_rpn_stack_bound(expr.items@.take(k as int));
                                assert(rpn_stack(expr.items@.take(k as int + 1)) == st.take(st.len() - 1).push(k as int));
                                assert(v == hs[st[st.len() - 1]]);
                                let operands = st.map_values(|i: int| hs2[i].handle);
                                assert(operands[operands.len() - 1] == v.handle);
                                assert(operator_computed(self.stmts.stmts@, base, expr.items@, hs2, k as int, op.item));
                                lemma_computes_step(before.stmts.stmts@, self.stmts.stmts@, base, expr.items@, hs, w, k as int);
                                assert(vals@.push(w) =~= st.take(st.len() - 1).push(k as int).map_values(|i: int| hs2[i]));
                                hs = hs2;
                            }
                            vals.push(w);
                        }
                        OperatorAssociativity::Neither => {
                            assert(false);
                        }
                    }
                }
            }
            k = k + 1;
        }
        assert(expr.items@.take(k as int) == expr.items@);
        let ghost last_vals = vals@;
        let v = vals.pop().unwrap();
        assert(expr.items@.last() == expr.items@[k - 1]);
        proof {
            assert(v == last_vals.last());
            assert(v == hs[k - 1]);
            assert(expr_computes(self.stmts.stmts@, base, expr.items@, hs)) by {
                reveal(expr_computes);
            }
            assert(computes_value(self.stmts.stmts@, base, *expr, v.handle)) by {
                reveal(computes_value);
            }
        }
        Ok(v)
    }
}


impl<'w> StatementGenerator<'w> {
    /// Generates a store: the value, then the variable must exist and be mutable, and its
    /// group and the value's are declared to have the same type.
    pub fn generate_var_store(&mut self, var_store: &parse::stmt::VarStore) -> (r: Result<VarStore<Mir>, Error>)
        requires
            old(self).inv(),
            expr_supported(var_store.assign.item.val),
        ensures
            final(self).steps_from(*old(self)),
            final(self).scopes == old(self).scopes,
            r matches Ok(v) ==> v.name@ == var_store.name.0.string@
                && (old(self).resolve(var_store.name.0.string@) matches Some(d) && d.mutable),
            r matches Ok(v) ==> computes_value(final(self).stmts.stmts@, old(self).stmts.stmts@.len() as int, var_store.assign.item.val, v.val),
            old(self).resolve(var_store.name.0.string@) is None ==> r is Err,
            (old(self).resolve(var_store.name.0.string@) matches Some(d) && !d.mutable) ==> r is Err,
            final(self).fn_scope.parameters == old(self).fn_scope.parameters,
            final(self).stmts.returned == old(self).stmts.returned,
            r is Ok <==> expr_resolves(callable(*old(self).defs), old(self).env(), var_store.assign.item.val)
                && (old(self).env())(var_store.name.0.string@) == Some(true),
    {
        let name = var_store.name.to_string();
        let val = match self.generate_expr(&var_store.assign.item.val) {
            Ok(h) => h.handle,
            Err(e) => return Err(e),
        };
        let at = var_store.assign.item.val.span;
        let def = match self.search_value(name.as_str()) {
            Some(d) => d,
            None => {
                let mut reason = text("use of undefined variable ");
                append_str(&mut reason, name.as_str());
                return Err(Error::new(at, reason));
            }
        };
        if !def.mutable {
            let mut reason = text("cant assign to a immmutable variable ");
            append_str(&mut reason, name.as_str());
            return Err(Error::new(at, reason));
        }
        self.fn_scope.declare_map.merge_group(at, def.ty, val.ty);
        Ok(VarStore { name, val })
    }

    /// Generates a definition: the type gets a group, the variable is defined in the
    /// innermost scope, then the initial value is generated. Where that value is a
    /// temporary, the temporary becomes the variable and no statement is added.
    pub fn generate_var_define(&mut self, var_define: &parse::stmt::VarDefine) -> (r: Result<Option<VarDefine<Mir>>, Error>)
        requires
            old(self).inv(),
            old(self).scopes.scopes@.len() > 0,
            var_define.init matches Some(a) ==> expr_supported(a.val),
        ensures
            final(self).steps_from(*old(self)),
            spec_mir_ty(var_define.ty.item) is None ==> r is Err,
            forall|i: int| 0 <= i < old(self).scopes.scopes@.len() - 1 ==> final(self).scopes.scopes@[i] == old(self).scopes.scopes@[i],
            r is Ok ==> (lookup_scopes(final(self).scopes.scopes@, var_define.name.0.string@) matches Some(d) && d.mutable),
            r matches Ok(Some(d)) ==> d.name@ == var_define.name.0.string@ && !d.is_temp
                && (d.init is Some <==> var_define.init is Some),
            r matches Ok(None) ==> var_define.init is Some,
            r matches Ok(Some(d)) ==> (d.init matches Some(u) ==> (var_define.init matches Some(a)
                && exists|h: Undeclared<mir::Value>| #[trigger] computes_value(final(self).stmts.stmts@, old(self).stmts.stmts@.len() as int, a.val, h)
                    && u.val == mir::AssignValue::Value(h.val) && u.ty == h.ty)),
            final(self).fn_scope.parameters == old(self).fn_scope.parameters,
            r is Ok <==> spec_mir_ty(var_define.ty.item) is Some && (var_define.init matches Some(a) ==>
                expr_resolves(callable(*old(self).defs), define_var(old(self).params(), old(self).env(), var_define.name.0.string@), a.val)),
            r is Ok ==> final(self).env() == define_var(old(self).params(), old(self).env(), var_define.name.0.string@),
            r matches Ok(None) <==> r is Ok && (var_define.init matches Some(a) && value_is_temp(a.val)),
            final(self).stmts.returned == old(self).stmts.returned,
    {
        let ghost start = *self;
        let ty = match var_define.ty.item.to_mir_ty() {
            Ok(t) => t,
            Err(e) => return Err(e),
        };
        let mut items: Vec<Type> = Vec::new();
        items.push(Type::from_type(ty));
        let g = self.fn_scope.declare_map.new_static_group(var_define.ty.span, items);
        let ghost scopes_before = self.scopes.scopes@;
        self.scopes.regist_variable(var_define.name.as_str(), VarDef { ty: g, mutable: true });
        proof {
            let name = var_define.name.0.string@;
            assert forall|n: Seq<char>| #[trigger] (self.env())(n) == (define_var(start.params(), start.env(), name))(n) by {
                lemma_lookup_define(scopes_before, self.scopes.scopes@, name, VarDef { ty: g, mutable: true }, n);
            }
            assert(self.env() =~= define_var(start.params(), start.env(), name));
            assert(self.params() =~= start.params());
        }
        proof {
            let n = self.groups();
            let sc = self.scopes.scopes@;
            assert forall|i: int, j: int| 0 <= i < sc.len() && 0 <= j < sc[i]@.len() implies (#[trigger] sc[i]@[j]).1.ty.idx < n by {
                if i < sc.len() - 1 {
                    assert(sc[i] == scopes_before[i]);
                } else if j < sc[i]@.len() - 1 {
                    assert(sc[i]@[j] == scopes_before[i]@[j]);
                }
            }
        }
        let init = match &var_define.init {
            Some(assign) => {
                let init = match self.generate_expr(&assign.val) {
                    Ok(h) => h,
                    Err(e) => return Err(e),
                };
                match init.loc {
                    Some(loc) => {
                        self.rename_var_define(loc, var_define.name.as_str());
                        return Ok(None);
                    }
                    None => {},
                }
                self.fn_scope.declare_map.merge_group(assign.val.span, g, init.handle.ty);
                assert(computes_value(self.stmts.stmts@, start.stmts.stmts@.len() as int, assign.val, init.handle));
                Some(Undeclared::new(mir::AssignValue::Value(init.handle.val), init.handle.ty))
            }
            None => None,
        };
        Ok(Some(VarDefine { ty: g, name: var_define.name.to_string(), init, is_temp: false }))
    }

    /// Generates a return: the value must have the return type of the function.
    pub fn generate_return(&mut self, ret: &parse::stmt::Return) -> (r: Result<Return<Mir>, Error>)
        requires
            old(self).inv(),
            ret.val matches Some(e) ==> expr_supported(e),
        ensures
            final(self).steps_from(*old(self)),
            final(self).scopes == old(self).scopes,
            r matches Ok(x) ==> (x.val is Some <==> ret.val is Some),
            r matches Ok(x) ==> (ret.val matches Some(e) ==> (x.val matches Some(h)
                && computes_value(final(self).stmts.stmts@, old(self).stmts.stmts@.len() as int, e, h))),
            final(self).fn_scope.parameters == old(self).fn_scope.parameters,
            r is Ok <==> (ret.val matches Some(e) ==> expr_resolves(callable(*old(self).defs), old(self).env(), e)),
            final(self).stmts.returned == old(self).stmts.returned,
    {
        let val = match &ret.val {
            Some(expr) => {
                let v = match self.generate_expr(expr) {
                    Ok(h) => h,
                    Err(e) => return Err(e),
                };
                let mangled = self.defs.fn_signs.try_get_mangled(self.fn_scope.fn_name.as_str());
                match mangled {
                    Some(f) => {
                        let _ = self.fn_scope.declare_map.declare_type(expr.span, v.handle.ty, &f.sign.ty);
                    }
                    None => {},
                }
                Some(v.handle)
            }
            None => None,
        };
        Ok(Return { val })
    }

    /// Generates conditions in a new scope: all of them are computed, the last one is the
    /// value and must be a `bool`; the statements computed so far, those of the enclosing
    /// block before the conditions included, become its computation, and the enclosing
    /// block goes on from no statement.
    #[verifier::loop_isolation(false)]
    #[verifier::spinoff_prover]
    #[verifier::rlimit(90)]
    pub fn generate_conditions(&mut self, conds: &parse::stmt::Conditions) -> (r: Result<Condition<Mir>, Error>)
        requires
            old(self).inv(),
            conds_supported(*conds),
        ensures
            final(self).steps_from(*old(self)),
            final(self).scopes.scopes@ == old(self).scopes.scopes@,
            r matches Ok(c) ==> final(self).stmts.stmts@.len() == 0
                && stmts_extend(c.compute.stmts@, old(self).stmts.stmts@)
                && temps_after(c.compute.stmts@, old(self).stmts.stmts@.len() as int),
            final(self).fn_scope.parameters == old(self).fn_scope.parameters,
            r is Ok <==> exprs_resolve(callable(*old(self).defs), old(self).env(), conds.conds@),
            r is Ok ==> !final(self).stmts.returned,
            r matches Ok(c) ==> cond_computed(c, conds.conds@),
    {
        let ghost start = *self;
        let ghost env = self.env();
        self.scopes.push();
        proof {
            lemma_env_push(*self, start);
        }
        let ghost pushed = *self;
        proof {
            let n = self.groups();
            let sc = self.scopes.scopes@;
            assert forall|i: int, j: int| 0 <= i < sc.len() && 0 <= j < sc[i]@.len() implies (#[trigger] sc[i]@[j]).1.ty.idx < n by {
                assert(i < sc.len() - 1);
                assert(sc[i] == start.scopes.scopes@[i]);
            }
        }
        let ghost b0 = self.stmts.stmts@.len() as int;
        let mut last = match self.generate_expr(&conds.conds[0]) {
            Ok(h) => h,
            Err(e) => {
                self.scopes.pop();
                return Err(e);
            }
        };
        let ghost mut bs: Seq<int> = seq![b0];
        let ghost mut vs: Seq<Undeclared<mir::Value>> = seq![last.handle];
        let mut k: usize = 1;
        while k < conds.conds.len()
            invariant
                1 <= k <= conds.conds.len(),
                self.inv(),
                self.groups() >= start.groups(),
                self.scopes.scopes@.len() == start.scopes.scopes@.len() + 1,
                self.scopes.scopes@.drop_last() == start.scopes.scopes@,
                self.defs == start.defs,
                self.fn_scope.fn_name == start.fn_scope.fn_name,
                last.handle.ty.idx < self.groups(),
                stmts_extend(self.stmts.stmts@, start.stmts.stmts@),
                temps_after(self.stmts.stmts@, start.stmts.stmts@.len() as int),
                self.scopes.scopes@ == pushed.scopes.scopes@,
                self.fn_scope.parameters == start.fn_scope.parameters,
                forall|j: int| 0 <= j < k ==> expr_resolves(callable(*start.defs), env, #[trigger] conds.conds@[j]),
                bs.len() == k,
                vs.len() == k,
                vs[k - 1] == last.handle,
                forall|j: int| 0 <= j < k ==> 0 <= #[trigger] bs[j] && bs[j] + expr_temps(conds.conds@[j]) <= self.stmts.stmts@.len()
                    && computes_value(self.stmts.stmts@, bs[j], conds.conds@[j], vs[j]),
            decreases conds.conds.len() - k,
        {
            let ghost before = self.stmts.stmts@;
            last = match self.generate_expr(&conds.conds[k]) {
                Ok(h) => h,
                Err(e) => {
                    self.scopes.pop();
                    return Err(e);
                }
            };
            proof {
                assert forall|j: int| 0 <= j < k implies 0 <= #[trigger] bs[j] && bs[j] + expr_temps(conds.conds@[j]) <= self.stmts.stmts@.len()
                    && computes_value(self.stmts.stmts@, bs[j], conds.conds@[j], vs[j]) by {
                    lemma_value_frame(before, self.stmts.stmts@, bs[j], conds.conds@[j], vs[j]);
                }
                bs = bs.push(before.len() as int);
                vs = vs.push(last.handle);
            }
            k = k + 1;
        }
        let ghost all = self.stmts.stmts@;
        let mut compute = Statements::new();
        std::mem::swap(&mut compute, &mut self.stmts);
        self.scopes.pop();
        let at = conds.conds[conds.conds.len() - 1].span;
        let _ = self.fn_scope.declare_map.declare_type(at, last.handle.ty, &TypeDefine::Primitive(PrimitiveType::Bool));
        let res = Condition { val: last.handle, compute };
        proof {
            assert(res.compute.stmts@ == all);
            lemma_cond_computed(res, conds.conds@, bs, vs);
        }
        Ok(res)
    }
}


/// The statement of the IR that a statement of the source is generated as: of the same kind
/// (a block as a block).
pub open spec fn generated_as(stmt: parse::stmt::Statement, s: Statement<Mir>) -> bool {
    match stmt {
        parse::stmt::Statement::VarStoreStmt(_) => s is VarStore,
        parse::stmt::Statement::VarDefineStmt(_) => s is VarDefine,
        parse::stmt::Statement::If(_) => s is If,
        parse::stmt::Statement::While(_) => s is While,
        parse::stmt::Statement::Return(_) => s is Return,
        parse::stmt::Statement::CodeBlock(_) => s is Block,
        parse::stmt::Statement::FnCallStmt(_) => false,
        parse::stmt::Statement::Comment(_) => false,
    }
}

/// The statement of the IR that a statement of the source is generated as, with its parts.
/// A store names the variable and stores the value that the statements from `base` on
/// compute; so does a definition with a value, of a variable that is no temporary. Each
/// branch of an `if` computes the conditions of the source's branch at its place and returns
/// as that branch's body does, and so for the `else` and for a loop. A return gives the value
/// computed, where the source has one.
pub open spec fn stmt_generated(stmt: parse::stmt::Statement, s: Statement<Mir>, stmts: Seq<Statement<Mir>>, base: int) -> bool {
    match stmt {
        parse::stmt::Statement::VarStoreStmt(v) => s matches Statement::VarStore(x)
            && x.name@ == v.0.item.name.0.string@
            && computes_value(stmts, base, v.0.item.assign.item.val, x.val),
        parse::stmt::Statement::VarDefineStmt(d) => s matches Statement::VarDefine(x)
            && x.name@ == d.0.item.name.0.string@ && !x.is_temp
            && (x.init is Some <==> d.0.item.init is Some)
            && (x.init matches Some(u) ==> (d.0.item.init matches Some(a)
                && exists|h: Undeclared<mir::Value>| #[trigger] computes_value(stmts, base, a.val, h)
                    && u.val == mir::AssignValue::Value(h.val) && u.ty == h.ty)),
        parse::stmt::Statement::If(i) => s matches Statement::If(x)
            && x.branches@.len() == i.branches@.len()
            && (x.else_ is Some <==> i.else_ is Some)
            && (forall|k: int| 0 <= k < x.branches@.len() ==>
                cond_computed((#[trigger] x.branches@[k]).cond, i.branches@[k].conds.conds@)
                && x.branches@[k].body.returned == returns_upto(i.branches@[k].body.stmts@))
            && (x.else_ matches Some(e) ==> (i.else_ matches Some(f) && e.returned == returns_upto(f.block.stmts@))),
        parse::stmt::Statement::While(w) => s matches Statement::While(x)
            && cond_computed(x.cond, w.conds.conds@)
            && x.body.returned == returns_upto(w.block.stmts@),
        parse::stmt::Statement::Return(r) => s matches Statement::Return(x)
            && (x.val is Some <==> r.val is Some)
            && (r.val matches Some(e) ==> (x.val matches Some(h) && computes_value(stmts, base, e, h))),
        parse::stmt::Statement::CodeBlock(b) => s matches Statement::Block(x) && x.returned == returns_upto(b.stmts@),
        parse::stmt::Statement::FnCallStmt(_) => false,
        parse::stmt::Statement::Comment(_) => false,
    }
}

impl<'w> StatementGenerator<'w> {
    /// Generates a block in a new scope: its statements, in order, make a new sequence of
    /// statements; those of the enclosing block are kept aside meanwhile.
    #[verifier::loop_isolation(false)]
    pub fn generate_code_block(&mut self, block: &parse::stmt::CodeBlock) -> (r: Result<Statements<Mir>, Error>)
        requires
            old(self).inv(),
            block_supported(*block),
        ensures
            final(self).steps_from(*old(self)),
            final(self).scopes.scopes@ == old(self).scopes.scopes@,
            final(self).fn_scope.parameters == old(self).fn_scope.parameters,
            r is Ok <==> stmts_resolve(callable(*old(self).defs), old(self).params(), old(self).env(), block.stmts@),
            r is Ok ==> final(self).stmts == old(self).stmts,
            r matches Ok(b) ==> b.returned == returns_upto(block.stmts@),
        decreases block, 2int,
    {
        let ghost start = *self;
        self.scopes.push();
        proof {
            lemma_env_push(*self, start);
        }
        proof {
            let n = self.groups();
            let sc = self.scopes.scopes@;
            assert forall|i: int, j: int| 0 <= i < sc.len() && 0 <= j < sc[i]@.len() implies (#[trigger] sc[i]@[j]).1.ty.idx < n by {
                assert(i < sc.len() - 1);
                assert(sc[i] == start.scopes.scopes@[i]);
            }
        }
        let mut current = Statements::new();
        std::mem::swap(&mut current, &mut self.stmts);
        assert(block.stmts@.subrange(0, block.stmts@.len() as int) == block.stmts@);
        let mut k: usize = 0;
        while k < block.stmts.len()
            invariant
                k <= block.stmts.len(),
                self.inv(),
                self.groups() >= start.groups(),
                self.scopes.scopes@.len() == start.scopes.scopes@.len() + 1,
                forall|i: int| 0 <= i < start.scopes.scopes@.len() ==> self.scopes.scopes@[i] == start.scopes.scopes@[i],
                self.defs == start.defs,
                self.fn_scope.fn_name == start.fn_scope.fn_name,
                self.fn_scope.parameters == start.fn_scope.parameters,
                stmts_resolve(callable(*start.defs), start.params(), start.env(), block.stmts@)
                    == stmts_resolve(callable(*start.defs), start.params(), self.env(), block.stmts@.subrange(k as int, block.stmts@.len() as int)),
                self.stmts.returned == returns_upto(block.stmts@.take(k as int)),
                current == start.stmts,
            decreases block.stmts.len() - k,
        {
            proof {
                let t = block.stmts@.take(k as int + 1);
                assert(t.drop_last() == block.stmts@.take(k as int));
                assert(t.last() == block.stmts@[k as int]);
            }
            let ghost rest = block.stmts@.subrange(k as int, block.stmts@.len() as int);
            let ghost env = self.env();
            proof {
                assert(rest[0] == block.stmts@[k as int]);
                assert(rest.drop_first() == block.stmts@.subrange(k + 1, block.stmts@.len() as int));
            }
            let ghost prev = self.stmts.returned;
            proof {
                lemma_returns_step(prev, block.stmts@[k as int]);
            }
            match self.generate_stmt(&block.stmts[k]) {
                Ok(Some(stmt)) => {
                    self.stmts.push(stmt);
                    assert(self.stmts.returned == returns_step(prev, block.stmts@[k as int]));
                },
                Ok(None) => {
                    assert(self.stmts.returned == returns_step(prev, block.stmts@[k as int]));
                },
                Err(e) => {
                    self.scopes.pop();
                    return Err(e);
                }
            }
            k = k + 1;
        }
        assert(block.stmts@.subrange(k as int, block.stmts@.len() as int).len() == 0);
        assert(block.stmts@.take(k as int) == block.stmts@);
        std::mem::swap(&mut current, &mut self.stmts);
        self.scopes.pop();
        assert(self.scopes.scopes@ =~= start.scopes.scopes@);
        Ok(current)
    }

    /// Generates a statement; a definition that became its temporary, a call made for its
    /// effect and a comment give no statement.
    pub fn generate_stmt(&mut self, stmt: &parse::stmt::Statement) -> (r: Result<Option<Statement<Mir>>, Error>)
        requires
            old(self).inv(),
            old(self).scopes.scopes@.len() > 0,
            stmt_supported(*stmt),
        ensures
            final(self).steps_from(*old(self)),
            forall|i: int| 0 <= i < old(self).scopes.scopes@.len() - 1 ==> final(self).scopes.scopes@[i] == old(self).scopes.scopes@[i],
            r matches Ok(Some(s)) ==> generated_as(*stmt, s),
            r matches Ok(Some(s)) ==> stmt_generated(*stmt, s, final(self).stmts.stmts@, old(self).stmts.stmts@.len() as int),
            stmt matches parse::stmt::Statement::FnCallStmt(f) ==> (r is Ok
                ==> call_computed(final(self).stmts.stmts@, old(self).stmts.stmts@.len() as int, f.0.item)),
            stmt is Comment ==> r matches Ok(None),
            final(self).fn_scope.parameters == old(self).fn_scope.parameters,
            r is Ok <==> stmt_resolves(callable(*old(self).defs), old(self).params(), old(self).env(), *stmt),
            r is Ok ==> final(self).env() == stmt_env(old(self).params(), old(self).env(), *stmt),
            r matches Ok(None) <==> r is Ok && (stmt is FnCallStmt || stmt is Comment
                || (stmt matches parse::stmt::Statement::VarDefineStmt(d) && d.0.item.init matches Some(a) && value_is_temp(a.val))),
            r matches Ok(Some(s)) ==> s.spec_returned() == stmt_returns(*stmt),
            r is Ok ==> final(self).stmts.returned == match *stmt {
                parse::stmt::Statement::While(_) => false,
                parse::stmt::Statement::If(i) => i.branches@.len() == 0 && old(self).stmts.returned,
                _ => old(self).stmts.returned,
            },
        decreases stmt, 1int,
    {
        match stmt {
            parse::stmt::Statement::VarStoreStmt(s) => match self.generate_var_store(&s.0.item) {
                Ok(v) => Ok(Some(Statement::VarStore(v))),
                Err(e) => Err(e),
            },
            parse::stmt::Statement::If(i) => match self.generate_if(&**i) {
                Ok(v) => Ok(Some(Statement::If(v))),
                Err(e) => Err(e),
            },
            parse::stmt::Statement::While(w) => match self.generate_while(&**w) {
                Ok(v) => Ok(Some(Statement::While(v))),
                Err(e) => Err(e),
            },
            parse::stmt::Statement::Return(ret) => match self.generate_return(&**ret) {
                Ok(v) => Ok(Some(Statement::Return(v))),
                Err(e) => Err(e),
            },
            parse::stmt::Statement::CodeBlock(b) => match self.generate_code_block(&**b) {
                Ok(v) => Ok(Some(Statement::Block(v))),
                Err(e) => Err(e),
            },
            parse::stmt::Statement::VarDefineStmt(d) => match self.generate_var_define(&d.0.item) {
                Ok(Some(v)) => Ok(Some(Statement::VarDefine(v))),
                Ok(None) => Ok(None),
                Err(e) => Err(e),
            },
            parse::stmt::Statement::FnCallStmt(f) => match self.generate_fn_call(&f.0.item) {
                Ok(_) => Ok(None),
                Err(e) => Err(e),
            },
            parse::stmt::Statement::Comment(_) => Ok(None),
        }
    }

    /// Generates a branch: its conditions, then its body.
    pub fn generate_if_branch(&mut self, branch: &parse::stmt::IfBranch) -> (r: Result<IfBranch<Mir>, Error>)
        requires
            old(self).inv(),
            conds_supported(branch.conds),
            block_supported(branch.body),
        ensures
            final(self).steps_from(*old(self)),
            final(self).scopes.scopes@ == old(self).scopes.scopes@,
            final(self).fn_scope.parameters == old(self).fn_scope.parameters,
            r is Ok <==> exprs_resolve(callable(*old(self).defs), old(self).env(), branch.conds.conds@)
                && stmts_resolve(callable(*old(self).defs), old(self).params(), old(self).env(), branch.body.stmts@),
            r is Ok ==> !final(self).stmts.returned,
            r matches Ok(b) ==> b.body.returned == returns_upto(branch.body.stmts@),
            r matches Ok(b) ==> cond_computed(b.cond, branch.conds.conds@),
        decreases branch, 2int,
    {
        let cond = match self.generate_conditions(&branch.conds) {
            Ok(c) => c,
            Err(e) => return Err(e),
        };
        let body = match self.generate_code_block(&branch.body) {
            Ok(b) => b,
            Err(e) => return Err(e),
        };
        Ok(IfBranch { cond, body })
    }

    /// Generates an `if`: its branches in order, then its `else`.
    #[verifier::loop_isolation(false)]
    #[verifier::spinoff_prover]
    #[verifier::rlimit(50)]
    pub fn generate_if(&mut self, if_: &parse::stmt::If) -> (r: Result<If<Mir>, Error>)
        requires
            old(self).inv(),
            stmt_supported(parse::stmt::Statement::If(Box::new(*if_))),
        ensures
            final(self).steps_from(*old(self)),
            final(self).scopes.scopes@ == old(self).scopes.scopes@,
            r matches Ok(i) ==> i.branches@.len() == if_.branches@.len() && (i.else_ is Some <==> if_.else_ is Some),
            r matches Ok(i) ==> forall|k: int| 0 <= k < i.branches@.len() ==>
                cond_computed((#[trigger] i.branches@[k]).cond, if_.branches@[k].conds.conds@)
                && i.branches@[k].body.returned == returns_upto(if_.branches@[k].body.stmts@),
            r matches Ok(i) ==> (i.else_ matches Some(e) ==> (if_.else_ matches Some(f) && e.returned == returns_upto(f.block.stmts@))),
            final(self).fn_scope.parameters == old(self).fn_scope.parameters,
            r is Ok <==> stmt_resolves(callable(*old(self).defs), old(self).params(), old(self).env(), parse::stmt::Statement::If(Box::new(*if_))),
            r is Ok ==> final(self).stmts.returned == (if_.branches@.len() == 0 && old(self).stmts.returned),
            r matches Ok(i) ==> i.spec_returned() == stmt_returns(parse::stmt::Statement::If(Box::new(*if_))),
        decreases if_, 3int,
    {
        let ghost start = *self;
        let mut branches: Vec<IfBranch<Mir>> = Vec::new();
        let mut k: usize = 0;
        while k < if_.branches.len()
            invariant
                k <= if_.branches.len(),
                branches@.len() == k,
                self.steps_from(start),
                self.scopes.scopes@ == start.scopes.scopes@,
                self.fn_scope.parameters == start.fn_scope.parameters,
                forall|j: int| 0 <= j < k ==> {
                    &&& exprs_resolve(callable(*start.defs), start.env(), (#[trigger] if_.branches@[j]).conds.conds@)
                    &&& stmts_resolve(callable(*start.defs), start.params(), start.env(), if_.branches@[j].body.stmts@)
                },
                self.stmts.returned == (k == 0 && start.stmts.returned),
                forall|j: int| 0 <= j < k ==> (#[trigger] branches@[j]).body.returned == returns_upto(if_.branches@[j].body.stmts@),
                forall|j: int| 0 <= j < k ==> cond_computed((#[trigger] branches@[j]).cond, if_.branches@[j].conds.conds@),
            decreases if_.branches.len() - k,
        {
            let b = match self.generate_if_branch(&if_.branches[k]) {
                Ok(b) => b,
                Err(e) => return Err(e),
            };
            branches.push(b);
            k = k + 1;
        }
        let else_ = match &if_.else_ {
            Some(e) => match self.generate_code_block(&e.block) {
                Ok(b) => Some(b),
                Err(e) => return Err(e),
            },
            None => None,
        };
        assert((else_ matches Some(e) && e.returned) == (if_.else_ matches Some(e) && returns_upto(e.block.stmts@)));
        proof {
            let st = parse::stmt::Statement::If(Box::new(*if_));
            assert(stmt_returns(st) == ((if_.else_ matches Some(e) && returns_upto(e.block.stmts@))
                && forall|j: int| 0 <= j < if_.branches@.len() ==> returns_upto(#[trigger] if_.branches@[j].body.stmts@)));
        }
        proof {
            assert((forall|j: int| 0 <= j < branches@.len() ==> (#[trigger] branches@[j]).body.returned)
                == (forall|j: int| 0 <= j < if_.branches@.len() ==> returns_upto(#[trigger] if_.branches@[j].body.stmts@))) by {
                if forall|j: int| 0 <= j < branches@.len() ==> (#[trigger] branches@[j]).body.returned {
                    assert forall|j: int| 0 <= j < if_.branches@.len() implies returns_upto(#[trigger] if_.branches@[j].body.stmts@) by {
                        assert(branches@[j].body.returned);
                    }
                }
            }
        }
        let res = If { branches, else_ };
        assert(res.spec_returned() == ((res.else_ matches Some(e) && e.returned)
            && forall|j: int| 0 <= j < res.branches@.len() ==> (#[trigger] res.branches@[j]).body.returned));
        Ok(res)
    }

    /// Generates a loop: its conditions, then its body.
    pub fn generate_while(&mut self, while_: &parse::stmt::While) -> (r: Result<While<Mir>, Error>)
        requires
            old(self).inv(),
            conds_supported(while_.conds),
            block_supported(while_.block),
        ensures
            final(self).steps_from(*old(self)),
            final(self).scopes.scopes@ == old(self).scopes.scopes@,
            final(self).fn_scope.parameters == old(self).fn_scope.parameters,
            r is Ok <==> exprs_resolve(callable(*old(self).defs), old(self).env(), while_.conds.conds@)
                && stmts_resolve(callable(*old(self).defs), old(self).params(), old(self).env(), while_.block.stmts@),
            r is Ok ==> !final(self).stmts.returned,
            r matches Ok(w) ==> cond_computed(w.cond, while_.conds.conds@)
                && w.body.returned == returns_upto(while_.block.stmts@),
        decreases while_, 3int,
    {
        let cond = match self.generate_conditions(&while_.conds) {
            Ok(c) => c,
            Err(e) => return Err(e),
        };
        let body = match self.generate_code_block(&while_.block) {
            Ok(b) => b,
            Err(e) => return Err(e),
        };
        Ok(While { cond, body })
    }
}

} // verus!

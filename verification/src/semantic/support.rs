use vstd::prelude::*;
use crate::ops::OperatorAssociativity;
use crate::parse::expr::{AtomicExpr, Expr, ExprItem};
use crate::parse::stmt::{CodeBlock, Conditions, FnDefine, Item, Statement};
use crate::parse::types::spec_mir_ty;
use crate::types::TypeDefineV;

verus! {

/// How an item changes the number of values a postfix expression has computed.
pub open spec fn item_delta(it: ExprItem) -> int {
    match it {
        ExprItem::AtomicExpr(_) => 1,
        ExprItem::Operators(op) => match op.item.spec_associativity() {
            OperatorAssociativity::Binary => -1,
            _ => 0,
        },
    }
}

/// The number of values computed by a postfix expression.
pub open spec fn rpn_depth(items: Seq<ExprItem>) -> int
    decreases items.len(),
{
    if items.len() == 0 {
        0
    } else {
        rpn_depth(items.drop_last()) + item_delta(items.last())
    }
}

/// Whether an item can be applied when `depth` values are computed: an operator needs its
/// operands; a bracket is never applied.
pub open spec fn item_fits(it: ExprItem, depth: int) -> bool {
    match it {
        ExprItem::AtomicExpr(_) => true,
        ExprItem::Operators(op) => match op.item.spec_associativity() {
            OperatorAssociativity::Binary => depth >= 2,
            OperatorAssociativity::Unary => depth >= 1,
            OperatorAssociativity::Neither => false,
        },
    }
}

/// Whether a postfix expression can be computed: every operator finds its operands, and
/// a value is left.
pub open spec fn rpn_ok(items: Seq<ExprItem>) -> bool {
    &&& forall|k: int| 0 <= k < items.len() ==> item_fits(#[trigger] items[k], rpn_depth(items.take(k)))
    &&& rpn_depth(items) >= 1
}

/// Whether types can be generated for an expression: it can be computed, and it holds no
/// string or array literal, which generation does not handle.
pub open spec fn expr_supported(e: Expr) -> bool
    decreases e,
{
    &&& rpn_ok(e.items@)
    &&& forall|k: int| 0 <= k < e.items@.len() ==> match #[trigger] e.items@[k] {
        ExprItem::AtomicExpr(pu) => match pu.item {
            AtomicExpr::StringLiteral(_) => false,
            AtomicExpr::Array(_) => false,
            AtomicExpr::FnCall(fc) => forall|j: int| 0 <= j < fc.args.args@.len() ==> expr_supported(#[trigger] fc.args.args@[j]),
            _ => true,
        },
        ExprItem::Operators(_) => true,
    }
}

/// There is at least one condition, and each is supported.
pub open spec fn conds_supported(c: Conditions) -> bool {
    c.conds@.len() > 0 && forall|j: int| 0 <= j < c.conds@.len() ==> expr_supported(#[trigger] c.conds@[j])
}

pub open spec fn stmt_supported(s: Statement) -> bool
    decreases s,
{
    match s {
        Statement::FnCallStmt(f) => forall|j: int| 0 <= j < f.0.item.args.args@.len() ==> expr_supported(#[trigger] f.0.item.args.args@[j]),
        Statement::VarStoreStmt(v) => expr_supported(v.0.item.assign.item.val),
        Statement::VarDefineStmt(d) => d.0.item.init matches Some(a) ==> expr_supported(a.val),
        Statement::If(i) => (forall|k: int| 0 <= k < i.branches@.len() ==> {
            &&& conds_supported((#[trigger] i.branches@[k]).conds)
            &&& forall|m: int| 0 <= m < i.branches@[k].body.stmts@.len() ==> stmt_supported(#[trigger] i.branches@[k].body.stmts@[m])
        }) && (i.else_ matches Some(e) ==> forall|m: int| 0 <= m < e.block.stmts@.len() ==> stmt_supported(#[trigger] e.block.stmts@[m])),
        Statement::While(w) => conds_supported(w.conds)
            && forall|m: int| 0 <= m < w.block.stmts@.len() ==> stmt_supported(#[trigger] w.block.stmts@[m]),
        Statement::Return(r) => r.val matches Some(e) ==> expr_supported(e),
        Statement::Comment(_) => true,
        Statement::CodeBlock(b) => forall|m: int| 0 <= m < b.stmts@.len() ==> stmt_supported(#[trigger] b.stmts@[m]),
    }
}

pub open spec fn block_supported(b: CodeBlock) -> bool {
    forall|m: int| 0 <= m < b.stmts@.len() ==> stmt_supported(#[trigger] b.stmts@[m])
}

/// Whether types can be generated for a function: its body is supported, and where its
/// signature converts, its parameters have primitive types, which mangling requires.
pub open spec fn fn_supported(f: FnDefine) -> bool {
    &&& block_supported(f.codes)
    &&& (spec_mir_ty(f.ty) is Some && forall|i: int| 0 <= i < f.params.params@.len() ==> (#[trigger] spec_mir_ty(f.params.params@[i].item.inner.ty.item)) is Some)
        ==> forall|i: int| 0 <= i < f.params.params@.len() ==> (#[trigger] spec_mir_ty(f.params.params@[i].item.inner.ty.item)) matches Some(TypeDefineV::Primitive(_))
}

pub open spec fn items_supported(items: Seq<Item>) -> bool {
    forall|i: int| 0 <= i < items.len() ==> (#[trigger] items[i] matches Item::FnDefine(f) ==> fn_supported(f))
}

/// Whether a postfix expression can be computed.
pub fn is_rpn_ok(items: &Vec<ExprItem>) -> (b: bool)
    ensures
        b == rpn_ok(items@),
{
    let mut depth: usize = 0;
    let mut i: usize = 0;
    while i < items.len()
        invariant
            i <= items.len(),
            depth == rpn_depth(items@.take(i as int)),
            depth <= i,
            forall|k: int| 0 <= k < i ==> item_fits(#[trigger] items@[k], rpn_depth(items@.take(k))),
        decreases items.len() - i,
    {
        proof {
            let t = items@.take(i as int + 1);
            assert(t.drop_last() == items@.take(i as int));
            assert(t.last() == items@[i as int]);
        }
        match &items[i] {
            ExprItem::AtomicExpr(_) => {
                depth = depth + 1;
            }
            ExprItem::Operators(op) => match op.item.associativity() {
                OperatorAssociativity::Binary => {
                    if depth < 2 {
                        return false;
                    }
                    depth = depth - 1;
                }
                OperatorAssociativity::Unary => {
                    if depth < 1 {
                        return false;
                    }
                }
                OperatorAssociativity::Neither => {
                    return false;
                }
            },
        }
        i = i + 1;
    }
    assert(items@.take(i as int) == items@);
    depth >= 1
}

/// Whether types can be generated for an expression.
#[verifier::loop_isolation(false)]
pub fn is_expr_supported(e: &Expr) -> (b: bool)
    ensures
        b == expr_supported(*e),
    decreases e,
{
    if !is_rpn_ok(&e.items) {
        return false;
    }
    let mut k: usize = 0;
    while k < e.items.len()
        invariant
            k <= e.items.len(),
            forall|j: int| 0 <= j < k ==> match #[trigger] e.items@[j] {
                ExprItem::AtomicExpr(pu) => match pu.item {
                    AtomicExpr::StringLiteral(_) => false,
                    AtomicExpr::Array(_) => false,
                    AtomicExpr::FnCall(fc) => forall|m: int| 0 <= m < fc.args.args@.len() ==> expr_supported(#[trigger] fc.args.args@[m]),
                    _ => true,
                },
                ExprItem::Operators(_) => true,
            },
        decreases e.items.len() - k,
    {
        match &e.items[k] {
            ExprItem::AtomicExpr(pu) => match &pu.item {
                AtomicExpr::StringLiteral(_) => return false,
                AtomicExpr::Array(_) => return false,
                AtomicExpr::FnCall(fc) => {
                    let mut m: usize = 0;
                    while m < fc.args.args.len()
                        invariant
                            m <= fc.args.args.len(),
                            forall|j: int| 0 <= j < m ==> expr_supported(#[trigger] fc.args.args@[j]),
                        decreases fc.args.args.len() - m,
                    {
                        if !is_expr_supported(&fc.args.args[m]) {
                            return false;
                        }
                        m = m + 1;
                    }
                }
                _ => {},
            },
            ExprItem::Operators(_) => {},
        }
        k = k + 1;
    }
    true
}

fn is_conds_supported(c: &Conditions) -> (b: bool)
    ensures
        b == conds_supported(*c),
{
    if c.conds.len() == 0 {
        return false;
    }
    let mut j: usize = 0;
    while j < c.conds.len()
        invariant
            j <= c.conds.len(),
            forall|m: int| 0 <= m < j ==> expr_supported(#[trigger] c.conds@[m]),
        decreases c.conds.len() - j,
    {
        if !is_expr_supported(&c.conds[j]) {
            return false;
        }
        j = j + 1;
    }
    true
}

fn is_block_supported(b: &CodeBlock) -> (r: bool)
    ensures
        r == block_supported(*b),
    decreases b, 1int,
{
    let mut m: usize = 0;
    while m < b.stmts.len()
        invariant
            m <= b.stmts.len(),
            forall|j: int| 0 <= j < m ==> stmt_supported(#[trigger] b.stmts@[j]),
        decreases b.stmts.len() - m,
    {
        if !is_stmt_supported(&b.stmts[m]) {
            return false;
        }
        m = m + 1;
    }
    true
}

/// Whether types can be generated for a statement.
#[verifier::loop_isolation(false)]
pub fn is_stmt_supported(s: &Statement) -> (b: bool)
    ensures
        b == stmt_supported(*s),
    decreases s, 0int,
{
    match s {
        Statement::FnCallStmt(f) => {
            let args = &f.0.item.args.args;
            let mut j: usize = 0;
            while j < args.len()
                invariant
                    j <= args.len(),
                    forall|m: int| 0 <= m < j ==> expr_supported(#[trigger] args@[m]),
                decreases args.len() - j,
            {
                if !is_expr_supported(&args[j]) {
                    return false;
                }
                j = j + 1;
            }
            true
        }
        Statement::VarStoreStmt(v) => is_expr_supported(&v.0.item.assign.item.val),
        Statement::VarDefineStmt(d) => match &d.0.item.init {
            Some(a) => is_expr_supported(&a.val),
            None => true,
        },
        Statement::If(i) => {
            let mut k: usize = 0;
            while k < i.branches.len()
                invariant
                    k <= i.branches.len(),
                    forall|j: int| 0 <= j < k ==> {
                        &&& conds_supported((#[trigger] i.branches@[j]).conds)
                        &&& forall|m: int| 0 <= m < i.branches@[j].body.stmts@.len() ==> stmt_supported(#[trigger] i.branches@[j].body.stmts@[m])
                    },
                decreases i.branches.len() - k,
            {
                if !is_conds_supported(&i.branches[k].conds) {
                    return false;
                }
                if !is_block_supported(&i.branches[k].body) {
                    return false;
                }
                k = k + 1;
            }
            match &i.else_ {
                Some(e) => is_block_supported(&e.block),
                None => true,
            }
        }
        Statement::While(w) => is_conds_supported(&w.conds) && is_block_supported(&w.block),
        Statement::Return(r) => match &r.val {
            Some(e) => is_expr_supported(e),
            None => true,
        },
        Statement::Comment(_) => true,
        Statement::CodeBlock(b) => is_block_supported(&**b),
    }
}

/// Whether types can be generated for a function.
pub fn is_fn_supported(f: &FnDefine) -> (b: bool)
    ensures
        b == fn_supported(*f),
{
    if !is_block_supported(&f.codes) {
        return false;
    }
    let ret_ok = f.ty.to_mir_ty().is_ok();
    let mut all_convert = true;
    let mut all_primitive = true;
    let mut i: usize = 0;
    while i < f.params.params.len()
        invariant
            i <= f.params.params.len(),
            all_convert == forall|k: int| 0 <= k < i ==> (#[trigger] spec_mir_ty(f.params.params@[k].item.inner.ty.item)) is Some,
            all_primitive == forall|k: int| 0 <= k < i ==> (#[trigger] spec_mir_ty(f.params.params@[k].item.inner.ty.item)) matches Some(TypeDefineV::Primitive(_)),
        decreases f.params.params.len() - i,
    {
        match f.params.params[i].item.inner.ty.item.to_mir_ty() {
            Ok(t) => {
                if !t.is_primitive() {
                    all_primitive = false;
                }
            }
            Err(_) => {
                all_convert = false;
                all_primitive = false;
            }
        }
        i = i + 1;
    }
    !(ret_ok && all_convert) || all_primitive
}

/// Whether types can be generated for all the items.
pub fn is_items_supported(items: &Vec<Item>) -> (b: bool)
    ensures
        b == items_supported(items@),
{
    let mut i: usize = 0;
    while i < items.len()
        invariant
            i <= items.len(),
            forall|k: int| 0 <= k < i ==> (#[trigger] items@[k] matches Item::FnDefine(f) ==> fn_supported(f)),
        decreases items.len() - i,
    {
        match &items[i] {
            Item::FnDefine(f) => {
                if !is_fn_supported(f) {
                    return false;
                }
            }
            Item::Comment(_) => {},
        }
        i = i + 1;
    }
    true
}

} // verus!

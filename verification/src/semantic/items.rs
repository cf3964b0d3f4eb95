use vstd::prelude::*;
use crate::declare::defs::{last_mangled, FnSign, Overload, Parameter};
use crate::declare::mir::{check_stmts_ready, lower_statements, stmts_lowered, stmts_ready, Mir};
use crate::declare::graph::{error_spans, undeclared_spans, DeclareGraph};
use crate::declare::group::DeclareGroup;
use crate::ir::Statements;
use crate::ir;
use crate::mangle::{fn_params_view, fn_unit, params_primitive, prefix_names, Mangle, MangleItemV, MangleUnitV};
use crate::parse::PU;
use crate::parse;
use crate::parse::stmt::Item;
use crate::parse::types::spec_mir_ty;
use crate::semantic::generator::{callable, returns_upto, stmts_resolve, StatementGenerator};
use crate::semantic::scope::{lookup_param, BasicScopes, Defines, FnScope};
use crate::declare::group::GroupIdx;
use crate::semantic::support::{block_supported, fn_supported, items_supported};
use crate::span::{Error, MessageV, Span};
use crate::text::{append_str, text};
use crate::types::TypeDefineV;

verus! {

/// A function whose signature is defined, waiting for its body to be generated.
pub struct FnTask {
    pub mangled: String,
    pub ty: crate::types::TypeDefine,
    pub params: Vec<Parameter>,
}

/// Why items could not be generated: some signatures could not be defined, or some bodies
/// could not be generated (the errors of each function together).
#[derive(Debug)]
pub enum GenerateError {
    Signatures(Vec<Error>),
    Bodies(Vec<Vec<Error>>),
}

/// The functions among the items, in order.
pub open spec fn fn_defines(items: Seq<Item>) -> Seq<parse::stmt::FnDefine>
    decreases items.len(),
{
    if items.len() == 0 {
        Seq::empty()
    } else {
        match items.last() {
            Item::FnDefine(f) => fn_defines(items.drop_last()).push(f),
            Item::Comment(_) => fn_defines(items.drop_last()),
        }
    }
}

/// A definition stays found under its mangled name when more are added.
proof fn lemma_last_mangled_prefix(a: Seq<(String, Overload)>, b: Seq<(String, Overload)>, name: Seq<char>, n: int)
    requires
        0 <= n <= a.len() <= b.len(),
        forall|i: int| 0 <= i < a.len() ==> a[i] == b[i],
    ensures
        last_mangled(a, name, n) == last_mangled(b, name, n),
    decreases n,
{
    if n > 0 {
        lemma_last_mangled_prefix(a, b, name, n - 1);
    }
}

proof fn lemma_last_mangled_found(b: Seq<(String, Overload)>, name: Seq<char>, k: int, n: int)
    requires
        0 <= k < n <= b.len(),
        b[k].1.name@ == name,
    ensures
        last_mangled(b, name, n) is Some,
    decreases n,
{
    if n - 1 > k && b[n - 1].1.name@ != name {
        lemma_last_mangled_found(b, name, k, n - 1);
    }
}

/// The types of a signature as written are types: the return type, and each parameter's.
pub open spec fn signature_types_ok(f: parse::stmt::FnDefine) -> bool {
    &&& spec_mir_ty(f.ty) is Some
    &&& forall|i: int| 0 <= i < f.params.params@.len() ==> (#[trigger] spec_mir_ty(f.params.params@[i].item.inner.ty.item)) is Some
}

/// The mangled name of a function as written: its name and the names of its parameters'
/// types, under the prefix.
pub open spec fn written_mangled<M: Mangle>(prefix: Seq<Seq<char>>, f: parse::stmt::FnDefine) -> Seq<char> {
    M::spec_mangle(MangleUnitV {
        prefix,
        item: MangleItemV::Fn {
            name: f.name.0.string@,
            params: f.params.params@.map_values(|p: PU<parse::stmt::Parameter>| (prefix, match spec_mir_ty(p.item.inner.ty.item) {
                Some(TypeDefineV::Primitive(t)) => t.spec_name(),
                _ => Seq::empty(),
            })),
        },
    })
}

/// Every signature is valid and its mangled name is new: not among those of the functions
/// defined before (`before`), nor among those of the earlier functions.
pub open spec fn signatures_ok<M: Mangle>(prefix: Seq<Seq<char>>, before: Seq<(String, Overload)>, fs: Seq<parse::stmt::FnDefine>) -> bool
    decreases fs.len(),
{
    if fs.len() == 0 {
        true
    } else {
        let m = written_mangled::<M>(prefix, fs.last());
        &&& signatures_ok::<M>(prefix, before, fs.drop_last())
        &&& signature_types_ok(fs.last())
        &&& last_mangled(before, m, before.len() as int) is None
        &&& forall|j: int| 0 <= j < fs.len() - 1 ==> written_mangled::<M>(prefix, #[trigger] fs[j]) != m
    }
}

/// No definition among the first `n` has that mangled name exactly when none is found.
proof fn lemma_last_mangled_none(fns: Seq<(String, Overload)>, name: Seq<char>, n: int)
    requires
        0 <= n <= fns.len(),
    ensures
        last_mangled(fns, name, n) is None <==> forall|i: int| 0 <= i < n ==> (#[trigger] fns[i]).1.name@ != name,
    decreases n,
{
    if n > 0 {
        lemma_last_mangled_none(fns, name, n - 1);
    }
}

/// Converts the signature of a function and defines it under its mangled name.
pub fn fn_define_task<M: Mangle>(define: &mut Defines<M>, fn_define: &parse::stmt::FnDefine) -> (r: Result<FnTask, Error>)
    requires
        fn_supported(*fn_define),
    ensures
        final(define).mangler == old(define).mangler,
        r is Ok <==> signature_types_ok(*fn_define) && old(define).defs.fn_signs.spec_mangled(
            written_mangled::<M>(prefix_names(old(define).mangler.prefix@), *fn_define)) is None,
        r matches Ok(t) ==> t.mangled@ == written_mangled::<M>(prefix_names(old(define).mangler.prefix@), *fn_define),
        r matches Ok(t) ==> param_names(t.params@, fn_define.params.params@.len() as int) == fn_param_names(*fn_define),
        r matches Ok(t) ==> Some(t.ty@) == spec_mir_ty(fn_define.ty) && t.params@.len() == fn_define.params.params@.len()
            && forall|k: int| 0 <= k < t.params@.len() ==> Some((#[trigger] t.params@[k]).ty@)
                == spec_mir_ty(fn_define.params.params@[k].item.inner.ty.item)
                && t.params@[k].name@ == fn_define.params.params@[k].item.inner.name.0.string@,
        r matches Ok(t) ==> task_matches(t, *fn_define),
        r matches Ok(t) ==> final(define).defs.fn_signs.spec_fns().last().1.sign.ty@ == t.ty@
            && final(define).defs.fn_signs.spec_fns().last().1.sign.params@.len() == t.params@.len()
            && forall|k: int| 0 <= k < t.params@.len() ==>
                (#[trigger] final(define).defs.fn_signs.spec_fns().last().1.sign.params@[k]).ty@ == t.params@[k].ty@,
        r is Ok ==> final(define).defs.fn_signs.spec_fns().len() == old(define).defs.fn_signs.spec_fns().len() + 1,
        r matches Ok(t) ==> final(define).defs.fn_signs.spec_fns().last().1.name@ == t.mangled@
            && final(define).defs.fn_signs.spec_fns().last().0@ == fn_define.name.0.string@,
        r is Err ==> final(define).defs.fn_signs.spec_fns() == old(define).defs.fn_signs.spec_fns(),
        ({
            let m = written_mangled::<M>(prefix_names(old(define).mangler.prefix@), *fn_define);
            signature_types_ok(*fn_define) && old(define).defs.fn_signs.spec_mangled(m) is Some ==> (r matches Err(e)
                && e.span == fn_define.sign_span
                && e.reason@ == "double define for function "@ + fn_define.name.0.string@
                && e.messages@.len() >= 2
                && e.messages@[0]@ == MessageV::Rich("funcion "@ + fn_define.name.0.string@ + " has been definded here"@,
                    old(define).defs.fn_signs.spec_mangled(m)->Some_0.sign.sign_span))
        }),
        forall|i: int| 0 <= i < old(define).defs.fn_signs.spec_fns().len() ==>
            final(define).defs.fn_signs.spec_fns()[i] == old(define).defs.fn_signs.spec_fns()[i],
{
    let ty = match fn_define.ty.to_mir_ty() {
        Ok(t) => t,
        Err(e) => return Err(e),
    };
    let mut params: Vec<Parameter> = Vec::new();
    let mut i: usize = 0;
    while i < fn_define.params.params.len()
        invariant
            i <= fn_define.params.params.len(),
            params@.len() == i,
            forall|k: int| 0 <= k < i ==> Some((#[trigger] params@[k]).ty@) == spec_mir_ty(fn_define.params.params@[k].item.inner.ty.item),
            forall|k: int| 0 <= k < i ==> (#[trigger] params@[k]).name@ == fn_define.params.params@[k].item.inner.name.0.string@,
        decreases fn_define.params.params.len() - i,
    {
        let pu = &fn_define.params.params[i];
        let pty = match pu.item.inner.ty.item.to_mir_ty() {
            Ok(t) => t,
            Err(e) => return Err(e),
        };
        params.push(Parameter { ty: pty, name: pu.item.inner.name.to_string() });
        i = i + 1;
    }
    proof {
        assert forall|k: int| 0 <= k < fn_define.params.params@.len() implies (#[trigger] spec_mir_ty(fn_define.params.params@[k].item.inner.ty.item)) is Some by {
            assert(Some(params@[k].ty@) == spec_mir_ty(fn_define.params.params@[k].item.inner.ty.item));
        }
        assert forall|k: int| 0 <= k < params@.len() implies (#[trigger] params@[k]).ty is Primitive by {
            assert(spec_mir_ty(fn_define.params.params@[k].item.inner.ty.item) matches Some(TypeDefineV::Primitive(_)));
        }
    }
    let mut sign_params: Vec<Parameter> = Vec::new();
    let mut j: usize = 0;
    while j < params.len()
        invariant
            j <= params.len(),
            sign_params@.len() == j,
            forall|k: int| 0 <= k < params@.len() ==> (#[trigger] params@[k]).ty is Primitive,
            forall|k: int| 0 <= k < j ==> (#[trigger] sign_params@[k]).ty@ == params@[k].ty@,
        decreases params.len() - j,
    {
        sign_params.push(params[j].clone_param());
        j = j + 1;
    }
    proof {
        assert forall|k: int| 0 <= k < sign_params@.len() implies (#[trigger] sign_params@[k]).ty is Primitive by {
            assert(params@[k].ty is Primitive);
        }
    }
    let sign = FnSign::new(ty.clone_ty(), sign_params, fn_define.retty_span, fn_define.sign_span);
    let ghost before = define.defs.fn_signs.spec_fns();
    proof {
        let pre = prefix_names(define.mangler.prefix@);
        let written = fn_define.params.params@.map_values(|p: PU<parse::stmt::Parameter>| (pre, match spec_mir_ty(p.item.inner.ty.item) {
            Some(TypeDefineV::Primitive(t)) => t.spec_name(),
            _ => Seq::empty(),
        }));
        assert forall|k: int| 0 <= k < sign.params@.len() implies fn_params_view(pre, sign.params@)[k] == written[k] by {
            assert(Some(params@[k].ty@) == spec_mir_ty(fn_define.params.params@[k].item.inner.ty.item));
            assert(sign.params@[k].ty@ == params@[k].ty@);
        }
        assert(fn_params_view(pre, sign.params@) =~= written);
        assert(fn_unit(pre, fn_define.name.0.string@, sign.params@) == MangleUnitV {
            prefix: pre,
            item: MangleItemV::Fn { name: fn_define.name.0.string@, params: written },
        });
    }
    match define.regist_fn(fn_define.name.as_str(), sign) {
        Ok(mangled) => {
            proof {
                let after = define.defs.fn_signs.spec_fns();
                assert forall|i: int| 0 <= i < before.len() implies after[i] == before[i] by {
                    assert(after.drop_last()[i] == after[i]);
                }
            }
            assert(param_names(params@, fn_define.params.params@.len() as int) =~= fn_param_names(*fn_define));
            Ok(FnTask { mangled, ty, params })
        }
        Err(e) => Err(e),
    }
}

/// The names of the parameters a body is generated with: those of the first `n` parameters
/// of the task.
pub open spec fn param_names(ps: Seq<Parameter>, n: int) -> Seq<Seq<char>> {
    ps.take(if ps.len() <= n { ps.len() as int } else { n }).map_values(|p: Parameter| p.name@)
}

/// The names of the parameters of a function, in order.
pub open spec fn fn_param_names(f: parse::stmt::FnDefine) -> Seq<Seq<char>> {
    f.params.params@.map_values(|p: PU<parse::stmt::Parameter>| p.item.inner.name.0.string@)
}

/// Whether the body of a function can be generated, where `calls` tells which names of
/// functions can be called, and returns:
/// its names resolve, starting from its parameters, and it surely returns.
pub open spec fn body_resolves(calls: spec_fn(Seq<char>) -> bool, f: parse::stmt::FnDefine) -> bool {
    &&& stmts_resolve(calls, names_params(fn_param_names(f)), names_env(fn_param_names(f)), f.codes.stmts@)
    &&& returns_upto(f.codes.stmts@)
}

/// The names of the functions among the definitions.
pub open spec fn defined_names(fds: Seq<parse::stmt::FnDefine>) -> spec_fn(Seq<char>) -> bool {
    |n: Seq<char>| exists|k: int| 0 <= k < fds.len() && (#[trigger] fds[k]).name.0.string@ == n
}

/// A function can be called exactly when one of the definitions has its name.
pub proof fn lemma_overloads_named(fns: Seq<(String, Overload)>, name: Seq<char>, n: int)
    requires
        0 <= n <= fns.len(),
    ensures
        (crate::declare::defs::overloads_named(fns, name, n).len() > 0) == (exists|i: int| 0 <= i < n && (#[trigger] fns[i]).0@ == name),
    decreases n,
{
    if n > 0 {
        lemma_overloads_named(fns, name, n - 1);
        if exists|i: int| 0 <= i < n && (#[trigger] fns[i]).0@ == name {
            let i = choose|i: int| 0 <= i < n && (#[trigger] fns[i]).0@ == name;
            if i < n - 1 {
                assert(exists|i2: int| 0 <= i2 < n - 1 && (#[trigger] fns[i2]).0@ == name);
            }
        }
        if exists|i: int| 0 <= i < n - 1 && (#[trigger] fns[i]).0@ == name {
            let i = choose|i: int| 0 <= i < n - 1 && (#[trigger] fns[i]).0@ == name;
            assert(0 <= i < n);
        }
    }
}

/// The names a body starts with: the parameters, which cannot be assigned.
pub open spec fn names_env(names: Seq<Seq<char>>) -> spec_fn(Seq<char>) -> Option<bool> {
    |n: Seq<char>| if names.contains(n) { Some(false) } else { None }
}

/// Whether a name is one of the parameters.
pub open spec fn names_params(names: Seq<Seq<char>>) -> spec_fn(Seq<char>) -> bool {
    |n: Seq<char>| names.contains(n)
}

/// A name is found among parameters exactly when it is one of their names.
proof fn lemma_param_lookup(ps: Seq<(String, GroupIdx)>, names: Seq<Seq<char>>, n: Seq<char>)
    requires
        ps.len() == names.len(),
        forall|i: int| 0 <= i < ps.len() ==> (#[trigger] ps[i]).0@ == names[i],
    ensures
        (lookup_param(ps, n) is Some) == names.contains(n),
    decreases ps.len(),
{
    if ps.len() > 0 {
        let ps2 = ps.drop_last();
        let ns2 = names.drop_last();
        assert forall|i: int| 0 <= i < ps2.len() implies (#[trigger] ps2[i]).0@ == ns2[i] by {
            assert(ps[i].0@ == names[i]);
        }
        lemma_param_lookup(ps2, ns2, n);
        assert(ps.last().0@ == names.last());
        if names.contains(n) && names.last() != n {
            let i = choose|i: int| 0 <= i < names.len() && names[i] == n;
            assert(ns2[i] == n);
        }
        if ns2.contains(n) {
            let i = choose|i: int| 0 <= i < ns2.len() && ns2[i] == n;
            assert(names[i] == n);
        }
        if names.last() == n {
            assert(names[names.len() - 1] == n);
        }
    }
}

/// The task carries the written signature: its return type and the type and name of each
/// parameter are those written, converted to MIR types.
pub open spec fn task_matches(t: FnTask, f: parse::stmt::FnDefine) -> bool {
    &&& Some(t.ty@) == spec_mir_ty(f.ty)
    &&& t.params@.len() == f.params.params@.len()
    &&& forall|j: int| 0 <= j < t.params@.len() ==> Some((#[trigger] t.params@[j]).ty@)
            == spec_mir_ty(f.params.params@[j].item.inner.ty.item)
            && t.params@[j].name@ == f.params.params@[j].item.inner.name.0.string@
}

/// The function of the IR has the written signature, converted to MIR types.
pub open spec fn ir_signature_matches(fd: ir::FnDefine<ir::Value>, f: parse::stmt::FnDefine) -> bool {
    &&& Some(fd.ty@) == spec_mir_ty(f.ty)
    &&& fd.params@.len() == f.params.params@.len()
    &&& forall|j: int| 0 <= j < fd.params@.len() ==> Some((#[trigger] fd.params@[j]).ty@)
            == spec_mir_ty(f.params.params@[j].item.inner.ty.item)
            && fd.params@[j].name@ == f.params.params@[j].item.inner.name.0.string@
}

/// What finishing a function from its body and the type graph of its values gives: the
/// function, with the body lowered, exactly when every group is declared and every value has
/// a primitive type; else an error for each group that is not declared, in group order, or
/// one error where a value has no primitive type.
pub open spec fn fn_body_finished(fn_define: parse::stmt::FnDefine, task: FnTask, body: Statements<Mir>, map: DeclareGraph,
    r: Result<ir::FnDefine<ir::Value>, Vec<Error>>) -> bool {
    &&& r is Ok <==> all_declared(map) && stmts_ready(body, map)
    &&& !all_declared(map) ==> (r matches Err(es) && es@.len() > 0 && error_spans(es@) == undeclared_spans(map.spec_groups())
        && forall|k: int| 0 <= k < es@.len() ==> (#[trigger] es@[k]).reason@ == "cant infer type"@)
    &&& all_declared(map) && !stmts_ready(body, map) ==> (r matches Err(es) && es@.len() == 1
        && es@[0].span == fn_define.sign_span && es@[0].reason@ == "an operation here has no primitive type"@)
    &&& r matches Ok(f) ==> stmts_lowered(body, f.body, map)
}

/// Generates the body of a registered function: its statements must surely return, every
/// group must be declared, and every value must get its type; then the function is given
/// its types.
pub fn run_fn_task<M: Mangle>(define: &Defines<M>, fn_define: &parse::stmt::FnDefine, task: FnTask) -> (r: Result<ir::FnDefine<ir::Value>, Vec<Error>>)
    requires
        block_supported(fn_define.codes),
        define.defs.fn_signs.spec_mangled(task.mangled@) is Some,
    ensures
        r matches Ok(f) ==> f.name@ == task.mangled@ && f.export == (fn_define.export is Some) && f.body.returned,
        r matches Ok(f) ==> (task_matches(task, *fn_define) ==> ir_signature_matches(f, *fn_define)),
        r matches Ok(f) ==> f.ty == task.ty && f.params@.len() == task.params@.len()
            && forall|k: int| 0 <= k < f.params@.len() ==> (#[trigger] f.params@[k]).ty == task.params@[k].ty
                && f.params@[k].name == task.params@[k].name,
        r matches Err(es) ==> es@.len() > 0,
        ({
            let names = param_names(task.params@, fn_define.params.params@.len() as int);
            let resolves = stmts_resolve(callable(define.defs), names_params(names), names_env(names), fn_define.codes.stmts@);
            let surely = returns_upto(fn_define.codes.stmts@);
            &&& r is Ok ==> resolves && surely
            &&& !resolves ==> (r matches Err(es) && es@.len() == 1)
            &&& resolves && !surely ==> (r matches Err(es) && es@.len() == 1 && es@[0].span == fn_define.sign_span
                && es@[0].reason@ == "function `"@ + fn_define.name.0.string@ + "` is never return"@)
            &&& resolves && surely ==> exists|body: Statements<Mir>, map: DeclareGraph| {
                &&& map.wf() && body.returned
                &&& #[trigger] fn_body_finished(*fn_define, task, body, map, r)
            }
        }),
{
    let mut spans: Vec<Span> = Vec::new();
    let mut i: usize = 0;
    while i < fn_define.params.params.len()
        invariant
            spans@.len() == i,
            i <= fn_define.params.params.len(),
        decreases fn_define.params.params.len() - i,
    {
        spans.push(fn_define.params.params[i].span);
        i = i + 1;
    }
    let fn_scope = FnScope::new(task.mangled.as_str(), &task.params, &spans);
    let mut generator = StatementGenerator::new(&define.defs, fn_scope, BasicScopes::new());
    proof {
        let names = param_names(task.params@, fn_define.params.params@.len() as int);
        let ps = generator.fn_scope.parameters@;
        assert forall|n: Seq<char>| #[trigger] (generator.env())(n) == (names_env(names))(n) && (generator.params())(n) == (names_params(names))(n) by {
            lemma_param_lookup(ps, names, n);
        }
        assert(generator.env() =~= names_env(names));
        assert forall|n: Seq<char>| #[trigger] (generator.params())(n) == (names_params(names))(n) by {
            lemma_param_lookup(ps, names, n);
        }
        assert(generator.params() =~= names_params(names));
    }
    let body = match generator.generate_code_block(&fn_define.codes) {
        Ok(b) => b,
        Err(e) => {
            let mut es = Vec::new();
            es.push(e);
            return Err(es);
        }
    };
    if !body.returned {
        let mut reason = text("function `");
        append_str(&mut reason, fn_define.name.as_str());
        append_str(&mut reason, "` is never return");
        let mut es = Vec::new();
        es.push(Error::new(fn_define.sign_span, reason));
        return Err(es);
    }
    let ghost map = generator.fn_scope.declare_map;
    let ghost b = body;
    let r = finish_fn_body(fn_define, task, body, &generator.fn_scope.declare_map);
    assert(fn_body_finished(*fn_define, task, b, map, r));
    r
}

/// Every group of the type graph is declared.
pub open spec fn all_declared(map: DeclareGraph) -> bool {
    forall|i: int| 0 <= i < map.spec_groups().len() ==> (#[trigger] map.spec_groups()[i]).spec_declared()
}

/// Where a group is not declared, there is the span of one.
proof fn lemma_undeclared_spans(gs: Seq<DeclareGroup>)
    ensures
        (forall|i: int| 0 <= i < gs.len() ==> (#[trigger] gs[i]).spec_declared()) <==> undeclared_spans(gs).len() == 0,
    decreases gs.len(),
{
    if gs.len() > 0 {
        lemma_undeclared_spans(gs.drop_last());
        if forall|i: int| 0 <= i < gs.drop_last().len() ==> (#[trigger] gs.drop_last()[i]).spec_declared() {
            assert forall|i: int| 0 <= i < gs.len() - 1 implies (#[trigger] gs[i]).spec_declared() by {
                assert(gs[i] == gs.drop_last()[i]);
            }
        } else {
            let i = choose|i: int| 0 <= i < gs.drop_last().len() && !(#[trigger] gs.drop_last()[i]).spec_declared();
            assert(gs[i] == gs.drop_last()[i]);
        }
    }
}

/// Finishes a function from its generated body and the type graph of its values: every group
/// must be declared, else an error is given for each group that is not, in the order of the
/// groups; then every value must have a primitive type. The body is given those types and the
/// function the types of its task.
pub fn finish_fn_body(fn_define: &parse::stmt::FnDefine, task: FnTask, body: Statements<Mir>, map: &DeclareGraph) -> (r: Result<ir::FnDefine<ir::Value>, Vec<Error>>)
    requires
        map.wf(),
    ensures
        r is Ok <==> all_declared(*map) && stmts_ready(body, *map),
        !all_declared(*map) ==> (r matches Err(es) && es@.len() > 0 && error_spans(es@) == undeclared_spans(map.spec_groups())
            && forall|k: int| 0 <= k < es@.len() ==> (#[trigger] es@[k]).reason@ == "cant infer type"@),
        all_declared(*map) && !stmts_ready(body, *map) ==> (r matches Err(es) && es@.len() == 1
            && es@[0].span == fn_define.sign_span && es@[0].reason@ == "an operation here has no primitive type"@),
        fn_body_finished(*fn_define, task, body, *map, r),
        r matches Ok(f) ==> stmts_lowered(body, f.body, *map) && f.name == task.mangled && f.ty == task.ty
            && f.export == (fn_define.export is Some) && f.params@.len() == task.params@.len()
            && forall|k: int| 0 <= k < f.params@.len() ==> (#[trigger] f.params@[k]).ty == task.params@[k].ty
                && f.params@[k].name == task.params@[k].name,
{
    match map.declare_all() {
        Ok(()) => {},
        Err(es) => {
            proof {
                lemma_undeclared_spans(map.spec_groups());
                assert(es@.len() == error_spans(es@).len());
            }
            return Err(es);
        }
    }
    if !check_stmts_ready(&body, map) {
        let mut es = Vec::new();
        es.push(Error::new(fn_define.sign_span, text("an operation here has no primitive type")));
        return Err(es);
    }
    let lowered = lower_statements(body, map);
    let ghost orig = task.params@;
    let mut task_params = task.params;
    let mut rev: Vec<ir::Parameter<crate::types::TypeDefine>> = Vec::new();
    while task_params.len() > 0
        invariant
            task_params@.len() + rev@.len() == orig.len(),
            task_params@ == orig.take(task_params@.len() as int),
            forall|k: int| 0 <= k < rev@.len() ==> (#[trigger] rev@[k]).ty == orig[orig.len() - 1 - k].ty
                && rev@[k].name == orig[orig.len() - 1 - k].name,
        decreases task_params.len(),
    {
        let ghost tp = task_params@;
        let p = task_params.pop().unwrap();
        proof {
            assert(p == tp.last());
            assert(task_params@ =~= orig.take(task_params@.len() as int));
        }
        rev.push(ir::Parameter { ty: p.ty, name: p.name });
    }
    let mut params: Vec<ir::Parameter<crate::types::TypeDefine>> = Vec::new();
    while rev.len() > 0
        invariant
            rev@.len() + params@.len() == orig.len(),
            forall|k: int| 0 <= k < rev@.len() ==> (#[trigger] rev@[k]).ty == orig[orig.len() - 1 - k].ty
                && rev@[k].name == orig[orig.len() - 1 - k].name,
            forall|k: int| 0 <= k < params@.len() ==> (#[trigger] params@[k]).ty == orig[k].ty
                && params@[k].name == orig[k].name,
        decreases rev.len(),
    {
        let ghost rv = rev@;
        let p = rev.pop().unwrap();
        proof {
            assert(p == rv.last());
        }
        params.push(p);
    }
    Ok(ir::FnDefine {
        export: fn_define.export.is_some(),
        ty: task.ty,
        name: task.mangled,
        params,
        body: lowered,
    })
}

/// Generates the functions of the items: first every signature is defined (a comment is
/// skipped); if any could not be, those errors are returned. Then every body is generated;
/// if any could not be, the errors of each such function are returned.
pub fn generate_items<M: Mangle>(define: &mut Defines<M>, items: &Vec<Item>) -> (r: Result<Vec<ir::Item<ir::Value>>, GenerateError>)
    requires
        items_supported(items@),
    ensures
        r matches Ok(v) ==> v@.len() == fn_defines(items@).len()
            && final(define).defs.fn_signs.spec_fns().len() == old(define).defs.fn_signs.spec_fns().len() + v@.len()
            && forall|k: int| 0 <= k < v@.len() ==> match #[trigger] v@[k] {
                ir::Item::FnDefine(f) => f.body.returned
                    && ir_signature_matches(f, fn_defines(items@)[k])
                    && f.export == (fn_defines(items@)[k].export is Some)
                    && f.name@ == final(define).defs.fn_signs.spec_fns()[old(define).defs.fn_signs.spec_fns().len() + k].1.name@
                    && final(define).defs.fn_signs.spec_fns()[old(define).defs.fn_signs.spec_fns().len() + k].0@
                        == fn_defines(items@)[k].name.0.string@,
            },
        r matches Err(GenerateError::Signatures(es)) ==> es@.len() > 0,
        (r matches Err(GenerateError::Signatures(_))) <==> !signatures_ok::<M>(
            prefix_names(old(define).mangler.prefix@), old(define).defs.fn_signs.spec_fns(), fn_defines(items@)),
        r matches Err(GenerateError::Bodies(ess)) ==> ess@.len() > 0,
        r is Ok ==> forall|k: int| 0 <= k < fn_defines(items@).len() ==> body_resolves(callable(final(define).defs), #[trigger] fn_defines(items@)[k]),
        signatures_ok::<M>(prefix_names(old(define).mangler.prefix@), old(define).defs.fn_signs.spec_fns(), fn_defines(items@)) ==> {
            &&& final(define).defs.fn_signs.spec_fns().len() == old(define).defs.fn_signs.spec_fns().len() + fn_defines(items@).len()
            &&& forall|k: int| 0 <= k < old(define).defs.fn_signs.spec_fns().len() ==>
                final(define).defs.fn_signs.spec_fns()[k] == old(define).defs.fn_signs.spec_fns()[k]
            &&& forall|k: int| 0 <= k < fn_defines(items@).len() ==>
                final(define).defs.fn_signs.spec_fns()[old(define).defs.fn_signs.spec_fns().len() + k].0@ == (#[trigger] fn_defines(items@)[k]).name.0.string@
        },
        signatures_ok::<M>(prefix_names(old(define).mangler.prefix@), old(define).defs.fn_signs.spec_fns(), fn_defines(items@))
            && (exists|k: int| 0 <= k < fn_defines(items@).len() && !body_resolves(callable(final(define).defs), #[trigger] fn_defines(items@)[k]))
            ==> r matches Err(GenerateError::Bodies(_)),
{
    let ghost start = define.defs.fn_signs.spec_fns();
    let ghost pre = prefix_names(define.mangler.prefix@);
    let mut tasks: Vec<(usize, FnTask)> = Vec::new();
    let mut errors: Vec<Error> = Vec::new();
    let mut i: usize = 0;
    while i < items.len()
        invariant
            i <= items.len(),
            items_supported(items@),
            errors@.len() == 0 ==> tasks@.len() == fn_defines(items@.take(i as int)).len(),
            errors@.len() == 0 ==> define.defs.fn_signs.spec_fns().len() == start.len() + tasks@.len(),
            errors@.len() == 0 <==> signatures_ok::<M>(pre, start, fn_defines(items@.take(i as int))),
            prefix_names(define.mangler.prefix@) == pre,
            start.len() <= define.defs.fn_signs.spec_fns().len(),
            forall|k: int| 0 <= k < start.len() ==> define.defs.fn_signs.spec_fns()[k] == start[k],
            forall|k: int| 0 <= k < tasks@.len() ==> {
                &&& (#[trigger] tasks@[k]).0 < i
                &&& items@[tasks@[k].0 as int] matches Item::FnDefine(f)
                &&& errors@.len() == 0 ==> fn_defines(items@.take(i as int))[k] == f
                &&& errors@.len() == 0 ==> define.defs.fn_signs.spec_fns()[start.len() + k].1.name@ == tasks@[k].1.mangled@
                &&& errors@.len() == 0 ==> define.defs.fn_signs.spec_fns()[start.len() + k].0@ == f.name.0.string@
                &&& errors@.len() == 0 ==> tasks@[k].1.mangled@ == written_mangled::<M>(pre, f)
                &&& param_names(tasks@[k].1.params@, f.params.params@.len() as int) == fn_param_names(f)
                &&& task_matches(tasks@[k].1, f)
            },
        decreases items.len() - i,
    {
        proof {
            let t = items@.take(i as int + 1);
            assert(t.drop_last() == items@.take(i as int));
            assert(t.last() == items@[i as int]);
        }
        match &items[i] {
            Item::FnDefine(f) => {
                let ghost before = define.defs.fn_signs.spec_fns();
                let ghost prev = fn_defines(items@.take(i as int));
                proof {
                    let nxt = fn_defines(items@.take(i as int + 1));
                    assert(nxt == prev.push(*f));
                    assert(nxt.drop_last() == prev);
                    let m = written_mangled::<M>(pre, *f);
                    if errors@.len() == 0 {
                        lemma_last_mangled_none(before, m, before.len() as int);
                        lemma_last_mangled_none(start, m, start.len() as int);
                        assert((forall|x: int| 0 <= x < before.len() ==> (#[trigger] before[x]).1.name@ != m) <==> (
                            (forall|x: int| 0 <= x < start.len() ==> (#[trigger] start[x]).1.name@ != m)
                            && forall|j: int| 0 <= j < prev.len() ==> written_mangled::<M>(pre, #[trigger] prev[j]) != m)) by {
                            assert forall|j: int| 0 <= j < prev.len() implies before[start.len() + j].1.name@ == written_mangled::<M>(pre, #[trigger] prev[j]) by {
                                assert(items@[tasks@[j].0 as int] matches Item::FnDefine(g) && prev[j] == g);
                            }
                            assert forall|x: int| 0 <= x < start.len() implies before[x] == start[x] by {}
                            if forall|j: int| 0 <= j < prev.len() ==> written_mangled::<M>(pre, #[trigger] prev[j]) != m {
                                if forall|x: int| 0 <= x < start.len() ==> (#[trigger] start[x]).1.name@ != m {
                                    assert forall|x: int| 0 <= x < before.len() implies (#[trigger] before[x]).1.name@ != m by {
                                        if x >= start.len() {
                                            assert(before[start.len() + (x - start.len())].1.name@ == written_mangled::<M>(pre, prev[x - start.len()]));
                                        }
                                    }
                                }
                            }
                        }
                    }
                }
                match fn_define_task(define, f) {
                    Ok(task) => {
                        if errors.len() == 0 {
                            tasks.push((i, task));
                        }
                    }
                    Err(e) => {
                        errors.push(e);
                    }
                }
            }
            Item::Comment(_) => {},
        }
        i = i + 1;
    }
    assert(items@.take(i as int) == items@);
    if errors.len() > 0 {
        return Err(GenerateError::Signatures(errors));
    }
    let ghost fns = define.defs.fn_signs.spec_fns();
    let ghost fds = fn_defines(items@);
    assert forall|k: int| 0 <= k < fds.len() implies fns[start.len() + k].0@ == (#[trigger] fds[k]).name.0.string@ by {
        assert(tasks@[k].0 < i);
    }
    let mut generated: Vec<ir::Item<ir::Value>> = Vec::new();
    let mut failures: Vec<Vec<Error>> = Vec::new();
    let mut tasks = tasks;
    let mut rev: Vec<(usize, FnTask)> = Vec::new();
    let n = tasks.len();
    while tasks.len() > 0
        invariant
            n == fds.len(),
            rev@.len() + tasks@.len() == n,
            forall|k: int| 0 <= k < tasks@.len() ==> {
                &&& (#[trigger] tasks@[k]).0 < items@.len()
                &&& items@[tasks@[k].0 as int] matches Item::FnDefine(f)
                &&& fds[k] == f
                &&& fns[start.len() + k].1.name@ == tasks@[k].1.mangled@
                &&& param_names(tasks@[k].1.params@, f.params.params@.len() as int) == fn_param_names(f)
                &&& task_matches(tasks@[k].1, f)
            },
            forall|k: int| 0 <= k < rev@.len() ==> {
                &&& (#[trigger] rev@[k]).0 < items@.len()
                &&& items@[rev@[k].0 as int] matches Item::FnDefine(f)
                &&& fds[n - 1 - k] == f
                &&& fns[start.len() + n - 1 - k].1.name@ == rev@[k].1.mangled@
                &&& param_names(rev@[k].1.params@, f.params.params@.len() as int) == fn_param_names(f)
                &&& task_matches(rev@[k].1, f)
            },
        decreases tasks.len(),
    {
        let t = tasks.pop().unwrap();
        rev.push(t);
    }
    while rev.len() > 0
        invariant
            n == fds.len(),
            fns.len() == start.len() + n,
            define.defs.fn_signs.spec_fns() == fns,
            forall|k: int| 0 <= k < fds.len() ==> fns[start.len() + k].0@ == (#[trigger] fds[k]).name.0.string@,
            rev@.len() <= n,
            forall|k: int| 0 <= k < rev@.len() ==> {
                &&& (#[trigger] rev@[k]).0 < items@.len()
                &&& items@[rev@[k].0 as int] matches Item::FnDefine(f)
                &&& fds[n - 1 - k] == f
                &&& fns[start.len() + n - 1 - k].1.name@ == rev@[k].1.mangled@
                &&& param_names(rev@[k].1.params@, f.params.params@.len() as int) == fn_param_names(f)
                &&& task_matches(rev@[k].1, f)
            },
            items_supported(items@),
            failures@.len() == 0 ==> forall|j: int| 0 <= j < n - rev@.len() ==> body_resolves(callable(define.defs), #[trigger] fds[j]),
            (exists|j: int| 0 <= j < n - rev@.len() && !body_resolves(callable(define.defs), #[trigger] fds[j])) ==> failures@.len() > 0,
            failures@.len() == 0 ==> generated@.len() == n - rev@.len(),
            forall|k: int| 0 <= k < generated@.len() ==> match #[trigger] generated@[k] {
                ir::Item::FnDefine(f) => f.body.returned
                    && ir_signature_matches(f, fds[k])
                    && f.export == (fds[k].export is Some)
                    && f.name@ == fns[start.len() + k].1.name@,
            },
        decreases rev.len(),
    {
        let ghost m = n - rev@.len();
        let (index, task) = rev.pop().unwrap();
        proof {
            lemma_last_mangled_found(fns, task.mangled@, start.len() + m, fns.len() as int);
        }
        match &items[index] {
            Item::FnDefine(f) => {
                assert(fn_supported(*f));
                assert(fds[m] == *f);
                match run_fn_task(define, f, task) {
                    Ok(fd) => {
                        if failures.len() == 0 {
                            generated.push(ir::Item::FnDefine(fd));
                        }
                    }
                    Err(es) => failures.push(es),
                }
                proof {
                    assert forall|j: int| 0 <= j < n - rev@.len() && !body_resolves(callable(define.defs), #[trigger] fds[j]) implies
                        failures@.len() > 0 by {
                        if j == m {
                        }
                    }
                }
            }
            Item::Comment(_) => {
                assert(false);
            }
        }
    }
    if failures.len() > 0 {
        return Err(GenerateError::Bodies(failures));
    }
    Ok(generated)
}

} // verus!

use vstd::prelude::*;
use core::marker::PhantomData;
use crate::declare::defs::{FnSign, Parameter};
use crate::text::append_str;
use crate::types::{push_char, PrimitiveType, TypeDefine};

verus! {

/// What a mangled name is nested in: a module or a type.
#[derive(Debug)]
pub enum ManglePrefix {
    Mod(String),
    Type(String),
}

/// What is mangled: a function with the units of its parameter types, or a type.
#[derive(Debug)]
pub enum MangleItem {
    Fn { name: String, params: Vec<MangleUnit> },
    Type { ty: String },
    Val,
}

/// An item with the prefixes it is nested in.
#[derive(Debug)]
pub struct MangleUnit {
    pub prefix: Vec<ManglePrefix>,
    pub item: MangleItem,
}

/// The name that a prefix carries.
pub open spec fn prefix_name(p: ManglePrefix) -> Seq<char> {
    match p {
        ManglePrefix::Mod(s) => s@,
        ManglePrefix::Type(s) => s@,
    }
}

/// The abstract value of a unit: prefix names, and a function (its name and, for each
/// parameter, the prefix names and the type name) or a type.
pub enum MangleItemV {
    Fn { name: Seq<char>, params: Seq<(Seq<Seq<char>>, Seq<char>)> },
    Type { ty: Seq<char> },
    Val,
}

pub struct MangleUnitV {
    pub prefix: Seq<Seq<char>>,
    pub item: MangleItemV,
}

pub open spec fn prefix_names(ps: Seq<ManglePrefix>) -> Seq<Seq<char>> {
    ps.map_values(|p: ManglePrefix| prefix_name(p))
}

/// The type name of a parameter unit.
pub open spec fn unit_type_name(u: MangleUnit) -> Seq<char> {
    match u.item {
        MangleItem::Type { ty } => ty@,
        _ => Seq::empty(),
    }
}

impl View for MangleUnit {
    type V = MangleUnitV;

    open spec fn view(&self) -> MangleUnitV {
        MangleUnitV {
            prefix: prefix_names(self.prefix@),
            item: match self.item {
                MangleItem::Fn { name, params } => MangleItemV::Fn {
                    name: name@,
                    params: params@.map_values(|p: MangleUnit| (prefix_names(p.prefix@), unit_type_name(p))),
                },
                MangleItem::Type { ty } => MangleItemV::Type { ty: ty@ },
                MangleItem::Val => MangleItemV::Val,
            },
        }
    }
}

impl MangleUnit {
    /// A unit can be mangled when it is no value and the parameters of a function are types.
    pub open spec fn wf(&self) -> bool {
        match self.item {
            MangleItem::Fn { name, params } => forall|i: int| 0 <= i < params@.len() ==> (#[trigger] params@[i]).item is Type,
            MangleItem::Type { .. } => true,
            MangleItem::Val => false,
        }
    }
}

/// A way to turn units into names.
pub trait Mangle: Sized {
    spec fn spec_mangle(unit: MangleUnitV) -> Seq<char>;

    fn mangle(unit: MangleUnit) -> (s: String)
        requires
            unit.wf(),
        ensures
            s@ == Self::spec_mangle(unit@),
    ;
}

/// Each prefix name followed by `的`.
pub open spec fn chinese_prefix(ps: Seq<Seq<char>>) -> Seq<char>
    decreases ps.len(),
{
    if ps.len() == 0 {
        Seq::empty()
    } else {
        chinese_prefix(ps.drop_last()) + ps.last() + seq!['的']
    }
}

/// Each parameter as a space, its prefix and its type name.
pub open spec fn chinese_params(ps: Seq<(Seq<Seq<char>>, Seq<char>)>) -> Seq<char>
    decreases ps.len(),
{
    if ps.len() == 0 {
        Seq::empty()
    } else {
        chinese_params(ps.drop_last()) + seq![' '] + chinese_prefix(ps.last().0) + ps.last().1
    }
}

/// Mangles with Chinese words: a function is `prefix name 参 param... 结`, a type is its
/// prefix and name.
pub struct ChineseMangler;

pub open spec fn chinese_mangle(u: MangleUnitV) -> Seq<char> {
    match u.item {
        MangleItemV::Fn { name, params } => chinese_prefix(u.prefix) + name + seq![' ', '参']
            + chinese_params(params) + seq![' ', '结'],
        MangleItemV::Type { ty } => chinese_prefix(u.prefix) + ty,
        MangleItemV::Val => Seq::empty(),
    }
}

fn append_prefix(out: &mut String, prefix: &Vec<ManglePrefix>)
    ensures
        final(out)@ == old(out)@ + chinese_prefix(prefix_names(prefix@)),
{
    let mut i: usize = 0;
    while i < prefix.len()
        invariant
            i <= prefix.len(),
            out@ == old(out)@ + chinese_prefix(prefix_names(prefix@.take(i as int))),
        decreases prefix.len() - i,
    {
        match &prefix[i] {
            ManglePrefix::Mod(s) => append_str(out, s.as_str()),
            ManglePrefix::Type(s) => append_str(out, s.as_str()),
        }
        push_char(out, '的');
        proof {
            let t = prefix_names(prefix@.take(i as int + 1));
            assert(t.drop_last() == prefix_names(prefix@.take(i as int)));
            assert(t.last() == prefix_name(prefix@[i as int]));
        }
        i = i + 1;
    }
    assert(prefix@.take(i as int) == prefix@);
}

impl Mangle for ChineseMangler {
    open spec fn spec_mangle(unit: MangleUnitV) -> Seq<char> {
        chinese_mangle(unit)
    }

    fn mangle(unit: MangleUnit) -> (s: String) {
        let mut out = String::new();
        append_prefix(&mut out, &unit.prefix);
        match &unit.item {
            MangleItem::Fn { name, params } => {
                append_str(&mut out, name.as_str());
                push_char(&mut out, ' ');
                push_char(&mut out, '参');
                let ghost head = out@;
                let ghost pv = params@.map_values(|p: MangleUnit| (prefix_names(p.prefix@), unit_type_name(p)));
                let mut i: usize = 0;
                while i < params.len()
                    invariant
                        i <= params.len(),
                        pv == params@.map_values(|p: MangleUnit| (prefix_names(p.prefix@), unit_type_name(p))),
                        forall|k: int| 0 <= k < params@.len() ==> (#[trigger] params@[k]).item is Type,
                        out@ == head + chinese_params(pv.take(i as int)),
                    decreases params.len() - i,
                {
                    push_char(&mut out, ' ');
                    append_prefix(&mut out, &params[i].prefix);
                    match &params[i].item {
                        MangleItem::Type { ty } => append_str(&mut out, ty.as_str()),
                        _ => {},
                    }
                    proof {
                        let t = pv.take(i as int + 1);
                        assert(t.drop_last() == pv.take(i as int));
                        assert(t.last() == pv[i as int]);
                    }
                    i = i + 1;
                }
                assert(pv.take(i as int) == pv);
                push_char(&mut out, ' ');
                push_char(&mut out, '结');
            }
            MangleItem::Type { ty } => {
                append_str(&mut out, ty.as_str());
            }
            MangleItem::Val => {},
        }
        out
    }
}

/// Mangles names under a prefix with the mangler `M`.
#[derive(Debug)]
pub struct Mangler<M: Mangle> {
    pub prefix: Vec<ManglePrefix>,
    pub _p: PhantomData<M>,
}

/// The abstract unit of a function with primitive parameter types under a prefix.
pub open spec fn fn_unit(prefix: Seq<Seq<char>>, name: Seq<char>, params: Seq<Parameter>) -> MangleUnitV {
    MangleUnitV { prefix, item: MangleItemV::Fn { name, params: fn_params_view(prefix, params) } }
}

/// Each parameter as the prefix and the name of its type.
pub open spec fn fn_params_view(prefix: Seq<Seq<char>>, params: Seq<Parameter>) -> Seq<(Seq<Seq<char>>, Seq<char>)> {
    params.map_values(|p: Parameter| (prefix, match p.ty {
        TypeDefine::Primitive(t) => t.spec_name(),
        TypeDefine::Complex(_) => Seq::empty(),
    }))
}

/// Whether every parameter has a primitive type.
pub open spec fn params_primitive(params: Seq<Parameter>) -> bool {
    forall|i: int| 0 <= i < params.len() ==> (#[trigger] params[i]).ty is Primitive
}

fn clone_prefix(prefix: &Vec<ManglePrefix>) -> (c: Vec<ManglePrefix>)
    ensures
        c@ == prefix@,
        prefix_names(c@) == prefix_names(prefix@),
{
    let mut c: Vec<ManglePrefix> = Vec::new();
    let mut i: usize = 0;
    while i < prefix.len()
        invariant
            i <= prefix.len(),
            c@ == prefix@.take(i as int),
            prefix_names(c@) == prefix_names(prefix@.take(i as int)),
        decreases prefix.len() - i,
    {
        let p = match &prefix[i] {
            ManglePrefix::Mod(s) => ManglePrefix::Mod(s.clone()),
            ManglePrefix::Type(s) => ManglePrefix::Type(s.clone()),
        };
        c.push(p);
        proof {
            assert(p == prefix@[i as int]);
            assert(c@ =~= prefix@.take(i as int + 1));
            assert(prefix_names(c@) == prefix_names(c@.drop_last()).push(prefix_name(p)));
            assert(prefix@.take(i as int + 1).drop_last() == prefix@.take(i as int));
            assert(prefix_names(prefix@.take(i as int + 1)) == prefix_names(prefix@.take(i as int)).push(prefix_name(prefix@[i as int])));
        }
        i = i + 1;
    }
    assert(prefix@.take(i as int) == prefix@);
    c
}

impl<M: Mangle> Default for Mangler<M> {
    /// A mangler with no prefix, the same as `Mangler::new` of no prefix.
    fn default() -> (m: Mangler<M>)
        ensures
            m.prefix@.len() == 0,
    {
        Mangler::new(Vec::new())
    }
}

impl<M: Mangle> Mangler<M> {
    pub fn new(prefix: Vec<ManglePrefix>) -> (m: Mangler<M>)
        ensures
            m.prefix@ == prefix@,
    {
        Mangler { prefix, _p: PhantomData }
    }

    pub fn mangle_unit(&self, item: MangleItem) -> (u: MangleUnit)
        ensures
            u.prefix@ == self.prefix@,
            prefix_names(u.prefix@) == prefix_names(self.prefix@),
            u.item == item,
    {
        MangleUnit { prefix: clone_prefix(&self.prefix), item }
    }

    /// Mangles an item under this prefix.
    pub fn mangle(&self, item: MangleItem) -> (s: String)
        requires
            (MangleUnit { prefix: self.prefix, item }).wf(),
        ensures
            s@ == M::spec_mangle(MangleUnit { prefix: self.prefix, item }@),
    {
        let unit = self.mangle_unit(item);
        assert(unit@ == (MangleUnit { prefix: self.prefix, item })@);
        M::mangle(unit)
    }

    /// The unit of a primitive type under this prefix.
    pub fn mangle_ty(&self, ty: &TypeDefine) -> (u: MangleUnit)
        requires
            ty is Primitive,
        ensures
            u.prefix@ == self.prefix@,
            prefix_names(u.prefix@) == prefix_names(self.prefix@),
            u.item matches MangleItem::Type { ty: t } && t@ == match ty {
                TypeDefine::Primitive(p) => p.spec_name(),
                TypeDefine::Complex(_) => Seq::empty(),
            },
    {
        match ty {
            TypeDefine::Primitive(p) => self.mangle_unit(MangleItem::Type { ty: p.name() }),
            TypeDefine::Complex(_) => self.mangle_unit(MangleItem::Type { ty: String::new() }),
        }
    }

    /// The mangled name of a function of the given signature; parameters must be primitive.
    pub fn mangle_fn(&self, name: &str, sign: &FnSign) -> (s: String)
        requires
            params_primitive(sign.params@),
        ensures
            s@ == M::spec_mangle(fn_unit(prefix_names(self.prefix@), name@, sign.params@)),
    {
        let mut params: Vec<MangleUnit> = Vec::new();
        let ghost pre = prefix_names(self.prefix@);
        let mut i: usize = 0;
        while i < sign.params.len()
            invariant
                i <= sign.params.len(),
                params_primitive(sign.params@),
                pre == prefix_names(self.prefix@),
                params@.len() == i,
                forall|k: int| 0 <= k < i ==> (#[trigger] params@[k]).item is Type,
                params@.map_values(|p: MangleUnit| (prefix_names(p.prefix@), unit_type_name(p)))
                    == fn_params_view(pre, sign.params@.take(i as int)),
            decreases sign.params.len() - i,
        {
            let u = self.mangle_ty(&sign.params[i].ty);
            params.push(u);
            proof {
                let pv = params@.map_values(|p: MangleUnit| (prefix_names(p.prefix@), unit_type_name(p)));
                let fv = fn_params_view(pre, sign.params@.take(i as int + 1));
                let fo = fn_params_view(pre, sign.params@.take(i as int));
                assert(sign.params@.take(i as int + 1).drop_last() == sign.params@.take(i as int));
                assert(fv.len() == pv.len());
                assert forall|k: int| 0 <= k < pv.len() implies pv[k] == fv[k] by {
                    if k < i {
                        assert(pv[k] == fo[k]);
                        assert(fv[k] == fo[k]);
                    }
                }
                assert(pv == fv);
            }
            i = i + 1;
        }
        assert(sign.params@.take(i as int) == sign.params@);
        let n = crate::text::text(name);
        let item = MangleItem::Fn { name: n, params };
        let unit = self.mangle_unit(item);
        assert(unit.wf());
        assert(unit@ == fn_unit(pre, name@, sign.params@));
        M::mangle(unit)
    }
}


pub open spec fn no_space(s: Seq<char>) -> bool {
    forall|i: int| 0 <= i < s.len() ==> s[i] != ' '
}

/// The words of a text separated by single spaces (empty words included).
pub open spec fn split_words(s: Seq<char>) -> Seq<Seq<char>>
    decreases s.len(),
{
    if s.len() == 0 {
        seq![Seq::empty()]
    } else if s.last() == ' ' {
        split_words(s.drop_last()).push(Seq::empty())
    } else {
        let w = split_words(s.drop_last());
        w.update(w.len() - 1, w.last().push(s.last()))
    }
}

/// Words joined by single spaces.
pub open spec fn join_words(ws: Seq<Seq<char>>) -> Seq<char>
    decreases ws.len(),
{
    if ws.len() == 0 {
        Seq::empty()
    } else if ws.len() == 1 {
        ws[0]
    } else {
        join_words(ws.drop_last()) + seq![' '] + ws.last()
    }
}

proof fn lemma_split_nonempty(s: Seq<char>)
    ensures
        split_words(s).len() >= 1,
    decreases s.len(),
{
    if s.len() > 0 {
        lemma_split_nonempty(s.drop_last());
    }
}

/// A word without spaces after a space is split off as the last word.
proof fn lemma_split_after_space(x: Seq<char>, w: Seq<char>)
    requires
        no_space(w),
    ensures
        split_words(x + seq![' '] + w) == split_words(x).push(w),
    decreases w.len(),
{
    let s = x + seq![' '] + w;
    if w.len() == 0 {
        assert(s.drop_last() == x);
        assert(s.last() == ' ');
        assert(w =~= Seq::<char>::empty());
        assert(split_words(s) == split_words(s.drop_last()).push(Seq::<char>::empty()));
    } else {
        let w0 = w.drop_last();
        assert(s.drop_last() == x + seq![' '] + w0);
        assert(s.last() == w.last());
        assert(w.last() != ' ');
        lemma_split_after_space(x, w0);
        lemma_split_nonempty(x);
        assert(w0.push(w.last()) == w);
        let sx = split_words(x);
        let big = sx.push(w0);
        assert(split_words(s.drop_last()) == big);
        assert(big.len() - 1 == sx.len());
        assert(big.last() == w0);
        assert(big.update(sx.len() as int, w) =~= sx.push(w));
    }
}

proof fn lemma_split_single(w: Seq<char>)
    requires
        no_space(w),
    ensures
        split_words(w) == seq![w],
    decreases w.len(),
{
    if w.len() > 0 {
        let w0 = w.drop_last();
        lemma_split_single(w0);
        assert(w0.push(w.last()) == w);
    } else {
        assert(w == Seq::<char>::empty());
    }
}

/// Joined words without spaces split back into the same words.
pub proof fn lemma_split_join(ws: Seq<Seq<char>>)
    requires
        ws.len() >= 1,
        forall|i: int| 0 <= i < ws.len() ==> no_space(#[trigger] ws[i]),
    ensures
        split_words(join_words(ws)) == ws,
    decreases ws.len(),
{
    if ws.len() == 1 {
        lemma_split_single(ws[0]);
        assert(seq![ws[0]] == ws);
    } else {
        let init = ws.drop_last();
        lemma_split_join(init);
        lemma_split_after_space(join_words(init), ws.last());
        assert(init.push(ws.last()) == ws);
    }
}

/// Each word after a space.
pub open spec fn spaced(ts: Seq<Seq<char>>) -> Seq<char>
    decreases ts.len(),
{
    if ts.len() == 0 {
        Seq::empty()
    } else {
        spaced(ts.drop_last()) + seq![' '] + ts.last()
    }
}

proof fn lemma_join_append(a: Seq<Seq<char>>, ts: Seq<Seq<char>>)
    requires
        a.len() >= 1,
    ensures
        join_words(a + ts) == join_words(a) + spaced(ts),
    decreases ts.len(),
{
    if ts.len() == 0 {
        assert(a + ts == a);
    } else {
        let t0 = ts.drop_last();
        lemma_join_append(a, t0);
        assert((a + ts).drop_last() == a + t0);
        assert((a + ts).last() == ts.last());
    }
}

/// The name of a parameter's type under its prefix.
pub open spec fn param_word(p: (Seq<Seq<char>>, Seq<char>)) -> Seq<char> {
    chinese_prefix(p.0) + p.1
}

proof fn lemma_params_spaced(ps: Seq<(Seq<Seq<char>>, Seq<char>)>)
    ensures
        chinese_params(ps) == spaced(ps.map_values(|p: (Seq<Seq<char>>, Seq<char>)| param_word(p))),
    decreases ps.len(),
{
    if ps.len() > 0 {
        lemma_params_spaced(ps.drop_last());
        let m = ps.map_values(|p: (Seq<Seq<char>>, Seq<char>)| param_word(p));
        assert(m.drop_last() == ps.drop_last().map_values(|p: (Seq<Seq<char>>, Seq<char>)| param_word(p)));
    }
}

/// The words of a mangled function: its prefixed name, `参`, each prefixed parameter type, `结`.
pub open spec fn fn_words(u: MangleUnitV) -> Seq<Seq<char>> {
    match u.item {
        MangleItemV::Fn { name, params } => seq![chinese_prefix(u.prefix) + name, seq!['参']]
            + params.map_values(|p: (Seq<Seq<char>>, Seq<char>)| param_word(p)) + seq![seq!['结']],
        _ => Seq::empty(),
    }
}

proof fn lemma_fn_words(u: MangleUnitV)
    requires
        u.item is Fn,
    ensures
        chinese_mangle(u) == join_words(fn_words(u)),
{
    match u.item {
        MangleItemV::Fn { name, params } => {
            let a = seq![chinese_prefix(u.prefix) + name, seq!['参']];
            let m = params.map_values(|p: (Seq<Seq<char>>, Seq<char>)| param_word(p));
            lemma_join_append(a, m);
            lemma_params_spaced(params);
            let x0 = chinese_prefix(u.prefix) + name;
            assert(a.drop_last() =~= seq![x0]);
            assert(join_words(seq![x0]) == x0);
            assert(a.last() == seq!['参']);
            assert(join_words(a) == join_words(a.drop_last()) + seq![' '] + a.last());
            assert(join_words(a) == chinese_prefix(u.prefix) + name + seq![' '] + seq!['参']);
            let am = a + m;
            assert((am + seq![seq!['结']]).drop_last() == am);
            assert(join_words(am + seq![seq!['结']]) == join_words(am) + seq![' '] + seq!['结']);
            assert(chinese_mangle(u) == join_words(am + seq![seq!['结']]));
        },
        _ => {},
    }
}

proof fn lemma_prefix_no_space(ps: Seq<Seq<char>>)
    requires
        forall|i: int| 0 <= i < ps.len() ==> no_space(#[trigger] ps[i]),
    ensures
        no_space(chinese_prefix(ps)),
    decreases ps.len(),
{
    if ps.len() > 0 {
        lemma_prefix_no_space(ps.drop_last());
        assert(no_space(ps[ps.len() - 1]));
    }
}

proof fn lemma_name_injective(a: PrimitiveType, b: PrimitiveType)
    requires
        a.spec_name() == b.spec_name(),
    ensures
        a == b,
{
    assert(a.spec_name().len() == b.spec_name().len());
    if a.spec_name().len() > 0 {
        assert(a.spec_name()[0] == b.spec_name()[0]);
    }
    if a.spec_name().len() > 1 {
        assert(a.spec_name()[1] == b.spec_name()[1]);
    }
    if a.spec_name().len() > 2 {
        assert(a.spec_name()[2] == b.spec_name()[2]);
    }
}

/// Mangling tells overloads apart: under the same prefix (whose names hold no space), two
/// functions whose names hold no space and whose parameters are primitive get the same
/// mangled name only when they have the same name and the same parameter types.
pub proof fn law_mangle_fn_injective(pre: Seq<Seq<char>>, n1: Seq<char>, ps1: Seq<Parameter>, n2: Seq<char>, ps2: Seq<Parameter>)
    requires
        forall|i: int| 0 <= i < pre.len() ==> no_space(#[trigger] pre[i]),
        no_space(n1),
        no_space(n2),
        params_primitive(ps1),
        params_primitive(ps2),
        chinese_mangle(fn_unit(pre, n1, ps1)) == chinese_mangle(fn_unit(pre, n2, ps2)),
    ensures
        n1 == n2,
        crate::declare::defs::param_types(ps1) == crate::declare::defs::param_types(ps2),
{
    let u1 = fn_unit(pre, n1, ps1);
    let u2 = fn_unit(pre, n2, ps2);
    lemma_fn_words(u1);
    lemma_fn_words(u2);
    let cp = chinese_prefix(pre);
    lemma_prefix_no_space(pre);
    let w1 = fn_words(u1);
    let w2 = fn_words(u2);
    assert forall|k: int| 0 <= k < ps1.len() implies no_space(#[trigger] fn_params_view(pre, ps1)[k].1) by {
        match ps1[k].ty {
            TypeDefine::Primitive(t) => {},
            TypeDefine::Complex(_) => {},
        }
    }
    assert forall|i: int| 0 <= i < w1.len() implies no_space(#[trigger] w1[i]) by {
        if 2 <= i < w1.len() - 1 {
            let p = fn_params_view(pre, ps1)[i - 2];
            assert(w1[i] == param_word(p));
            assert(no_space(p.1));
            assert(forall|j: int| 0 <= j < cp.len() ==> (cp + p.1)[j] == cp[j]);
        } else if i == 0 {
            assert(forall|j: int| 0 <= j < cp.len() ==> (cp + n1)[j] == cp[j]);
        }
    }
    assert forall|k: int| 0 <= k < ps2.len() implies no_space(#[trigger] fn_params_view(pre, ps2)[k].1) by {
        match ps2[k].ty {
            TypeDefine::Primitive(t) => {},
            TypeDefine::Complex(_) => {},
        }
    }
    assert forall|i: int| 0 <= i < w2.len() implies no_space(#[trigger] w2[i]) by {
        if 2 <= i < w2.len() - 1 {
            let p = fn_params_view(pre, ps2)[i - 2];
            assert(w2[i] == param_word(p));
            assert(no_space(p.1));
            assert(forall|j: int| 0 <= j < cp.len() ==> (cp + p.1)[j] == cp[j]);
        } else if i == 0 {
            assert(forall|j: int| 0 <= j < cp.len() ==> (cp + n2)[j] == cp[j]);
        }
    }
    lemma_split_join(w1);
    lemma_split_join(w2);
    assert(w1 == w2);
    assert(w1[0] == cp + n1);
    assert(w2[0] == cp + n2);
    assert(n1 == (cp + n1).subrange(cp.len() as int, (cp + n1).len() as int));
    assert(n2 == (cp + n2).subrange(cp.len() as int, (cp + n2).len() as int));
    assert(ps1.len() == ps2.len());
    assert forall|k: int| 0 <= k < ps1.len() implies (#[trigger] ps1[k]).ty@ == ps2[k].ty@ by {
        let p1 = fn_params_view(pre, ps1)[k];
        let p2 = fn_params_view(pre, ps2)[k];
        assert(w1[k + 2] == cp + p1.1);
        assert(w2[k + 2] == cp + p2.1);
        assert(p1.1 == (cp + p1.1).subrange(cp.len() as int, (cp + p1.1).len() as int));
        assert(p2.1 == (cp + p2.1).subrange(cp.len() as int, (cp + p2.1).len() as int));
        match ps1[k].ty {
            TypeDefine::Primitive(a) => match ps2[k].ty {
                TypeDefine::Primitive(b) => lemma_name_injective(a, b),
                TypeDefine::Complex(_) => {},
            },
            TypeDefine::Complex(_) => {},
        }
    }
    assert(crate::declare::defs::param_types(ps1) =~= crate::declare::defs::param_types(ps2));
}

/// A mangler built from a prefix mangles an item just as the unit of that prefix and that
/// item is mangled, whatever the mangling.
pub proof fn law_mangler_prefix<M: Mangle>(m: Mangler<M>, prefix: Vec<ManglePrefix>, item: MangleItem)
    requires
        m.prefix@ == prefix@,
    ensures
        M::spec_mangle(MangleUnit { prefix: m.prefix, item }@) == M::spec_mangle(MangleUnit { prefix, item }@),
{
    assert(MangleUnit { prefix: m.prefix, item }@ == MangleUnit { prefix, item }@);
}

/// Under any prefix and any mangling, two functions of the same name whose parameters have
/// the same types get the same mangled name: neither the return type nor the names of the
/// parameters take part in it.
pub proof fn law_mangle_fn_same_types<M: Mangle>(pre: Seq<Seq<char>>, n: Seq<char>, ps1: Seq<Parameter>, ps2: Seq<Parameter>)
    requires
        params_primitive(ps1),
        params_primitive(ps2),
        crate::declare::defs::param_types(ps1) == crate::declare::defs::param_types(ps2),
    ensures
        M::spec_mangle(fn_unit(pre, n, ps1)) == M::spec_mangle(fn_unit(pre, n, ps2)),
{
    assert(ps1.len() == ps2.len()) by {
        assert(crate::declare::defs::param_types(ps1).len() == ps1.len());
        assert(crate::declare::defs::param_types(ps2).len() == ps2.len());
    }
    assert forall|k: int| 0 <= k < ps1.len() implies fn_params_view(pre, ps1)[k] == fn_params_view(pre, ps2)[k] by {
        assert(crate::declare::defs::param_types(ps1)[k] == crate::declare::defs::param_types(ps2)[k]);
        assert(crate::declare::defs::param_types(ps1)[k] == ps1[k].ty@);
        assert(crate::declare::defs::param_types(ps2)[k] == ps2[k].ty@);
        assert(ps1[k].ty is Primitive && ps2[k].ty is Primitive);
        match ps1[k].ty {
            TypeDefine::Primitive(a) => match ps2[k].ty {
                TypeDefine::Primitive(b) => {
                    assert(ps1[k].ty@ == ps2[k].ty@);
                    assert(a == b);
                },
                TypeDefine::Complex(_) => {},
            },
            TypeDefine::Complex(_) => {},
        }
    }
    assert(fn_params_view(pre, ps1) =~= fn_params_view(pre, ps2));
}

/// No type name ends another: a name that is a suffix of another is that name.
proof fn lemma_name_suffix(a: PrimitiveType, b: PrimitiveType)
    requires
        a.spec_name().len() <= b.spec_name().len(),
        a.spec_name() == b.spec_name().subrange(b.spec_name().len() - a.spec_name().len(), b.spec_name().len() as int),
    ensures
        a == b,
{
    let x = a.spec_name();
    let y = b.spec_name();
    let d = y.len() - x.len();
    assert(x[x.len() - 1] == y[y.len() - 1]);
    if x.len() > 1 {
        assert(x[x.len() - 2] == y[y.len() - 2]);
    }
    if x.len() > 2 {
        assert(x[x.len() - 3] == y[y.len() - 3]);
    }
    if x.len() > 3 {
        assert(x[x.len() - 4] == y[y.len() - 4]);
    }
    if x.len() > 4 {
        assert(x[0] == y[d]);
    }
}

/// The text of primitive parameters under one prefix tells their types.
proof fn lemma_params_text_injective(pre: Seq<Seq<char>>, ps1: Seq<Parameter>, ps2: Seq<Parameter>)
    requires
        params_primitive(ps1),
        params_primitive(ps2),
        chinese_params(fn_params_view(pre, ps1)) == chinese_params(fn_params_view(pre, ps2)),
    ensures
        crate::declare::defs::param_types(ps1) == crate::declare::defs::param_types(ps2),
    decreases ps1.len() + ps2.len(),
{
    let v1 = fn_params_view(pre, ps1);
    let v2 = fn_params_view(pre, ps2);
    let cp = chinese_prefix(pre);
    if ps1.len() == 0 || ps2.len() == 0 {
        if ps1.len() != 0 || ps2.len() != 0 {
            if ps1.len() != 0 {
                assert(chinese_params(v1).len() >= 1);
            } else {
                assert(chinese_params(v2).len() >= 1);
            }
        }
        assert(crate::declare::defs::param_types(ps1) =~= crate::declare::defs::param_types(ps2));
    } else {
        let a = ps1.last().ty->Primitive_0;
        let b = ps2.last().ty->Primitive_0;
        assert(ps1[ps1.len() - 1].ty is Primitive);
        assert(ps2[ps2.len() - 1].ty is Primitive);
        let t = a.spec_name();
        let u = b.spec_name();
        let i1 = ps1.drop_last();
        let i2 = ps2.drop_last();
        assert(v1.drop_last() =~= fn_params_view(pre, i1));
        assert(v2.drop_last() =~= fn_params_view(pre, i2));
        assert(v1.last() == (pre, t));
        assert(v2.last() == (pre, u));
        let x1 = chinese_params(fn_params_view(pre, i1)) + seq![' '] + cp;
        let x2 = chinese_params(fn_params_view(pre, i2)) + seq![' '] + cp;
        assert(chinese_params(v1) == x1 + t);
        assert(chinese_params(v2) == x2 + u);
        let whole = x1 + t;
        assert(whole == x2 + u);
        if t.len() <= u.len() {
            assert(t =~= whole.subrange(whole.len() - t.len(), whole.len() as int));
            assert(whole.subrange(whole.len() - t.len(), whole.len() as int) =~= u.subrange(u.len() - t.len(), u.len() as int));
            lemma_name_suffix(a, b);
        } else {
            assert(u =~= whole.subrange(whole.len() - u.len(), whole.len() as int));
            assert(whole.subrange(whole.len() - u.len(), whole.len() as int) =~= t.subrange(t.len() - u.len(), t.len() as int));
            lemma_name_suffix(b, a);
        }
        assert(x1 =~= whole.subrange(0, whole.len() - t.len()));
        assert(x2 =~= whole.subrange(0, whole.len() - u.len()));
        let c1 = chinese_params(fn_params_view(pre, i1));
        let c2 = chinese_params(fn_params_view(pre, i2));
        assert(c1 =~= x1.subrange(0, x1.len() - cp.len() - 1));
        assert(c2 =~= x2.subrange(0, x2.len() - cp.len() - 1));
        assert forall|k: int| 0 <= k < i1.len() implies (#[trigger] i1[k]).ty is Primitive by {
            assert(i1[k] == ps1[k]);
        }
        assert forall|k: int| 0 <= k < i2.len() implies (#[trigger] i2[k]).ty is Primitive by {
            assert(i2[k] == ps2[k]);
        }
        lemma_params_text_injective(pre, i1, i2);
        let pt1 = crate::declare::defs::param_types(ps1);
        let pt2 = crate::declare::defs::param_types(ps2);
        assert(pt1.drop_last() =~= crate::declare::defs::param_types(i1));
        assert(pt2.drop_last() =~= crate::declare::defs::param_types(i2));
        assert(pt1.last() == ps1.last().ty@);
        assert(pt2.last() == ps2.last().ty@);
        assert(ps1.last().ty == TypeDefine::Primitive(a));
        assert(ps2.last().ty == TypeDefine::Primitive(b));
        assert(pt1 =~= pt1.drop_last().push(pt1.last()));
        assert(pt2 =~= pt2.drop_last().push(pt2.last()));
    }
}

/// Under any prefix, two functions of the same name whose parameters are primitive get the
/// same Chinese mangled name exactly when their parameters have the same types.
pub proof fn law_mangle_fn_same_name(pre: Seq<Seq<char>>, n: Seq<char>, ps1: Seq<Parameter>, ps2: Seq<Parameter>)
    requires
        params_primitive(ps1),
        params_primitive(ps2),
    ensures
        chinese_mangle(fn_unit(pre, n, ps1)) == chinese_mangle(fn_unit(pre, n, ps2))
            <==> crate::declare::defs::param_types(ps1) == crate::declare::defs::param_types(ps2),
{
    if crate::declare::defs::param_types(ps1) == crate::declare::defs::param_types(ps2) {
        law_mangle_fn_same_types::<ChineseMangler>(pre, n, ps1, ps2);
    }
    if chinese_mangle(fn_unit(pre, n, ps1)) == chinese_mangle(fn_unit(pre, n, ps2)) {
        let head = chinese_prefix(pre) + n + seq![' ', '参'];
        let p1 = chinese_params(fn_params_view(pre, ps1));
        let p2 = chinese_params(fn_params_view(pre, ps2));
        let m1 = head + p1 + seq![' ', '结'];
        let m2 = head + p2 + seq![' ', '结'];
        assert(chinese_mangle(fn_unit(pre, n, ps1)) == m1);
        assert(chinese_mangle(fn_unit(pre, n, ps2)) == m2);
        assert(p1 =~= m1.subrange(head.len() as int, m1.len() - 2));
        assert(p2 =~= m2.subrange(head.len() as int, m2.len() - 2));
        lemma_params_text_injective(pre, ps1, ps2);
    }
}

} // verus!

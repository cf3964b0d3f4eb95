use std::rc::Rc;
use vstd::prelude::*;
use crate::declare::branch::{first_key_at, lemma_first_key_unique, merged_lists, GroupBuilder, BranchesBuilder};
use crate::declare::defs::Defs;
use crate::declare::error::DeclareError;
use crate::declare::filter::{BranchFilter, TypesKind};
use crate::declare::group::{count_alive, lemma_count_alive, Branch, BranchSlot, DeclareGroup, GroupIdx};
use crate::declare::res::Type;
use crate::span::{Error, Message, Span};
use crate::types::{TypeDefine, TypeDefineV};
use crate::types::type_text;

verus! {

/// Which possible type each value has: groups of branches, and the branches that each
/// branch depends on. A branch is possible only while all the branches it depends on are.
pub struct DeclareGraph {
    groups: Vec<DeclareGroup>,
    deps: Vec<(Branch, Vec<Branch>)>,
    rdeps: Vec<(Branch, Vec<Branch>)>,
}

/// The branches in an entry list refer to existing groups.
pub open spec fn entries_ok(entries: Seq<(Branch, Vec<Branch>)>, n: nat) -> bool {
    &&& forall|i: int| 0 <= i < entries.len() ==> {
        &&& entries[i].0.belong_to.idx < n
        &&& forall|j: int| 0 <= j < entries[i].1@.len() ==> (#[trigger] entries[i].1@[j]).belong_to.idx < n
    }
    &&& keys_unique(entries)
}

/// No branch is the key of two entries.
pub open spec fn keys_unique(entries: Seq<(Branch, Vec<Branch>)>) -> bool {
    forall|i: int, j: int| 0 <= i < j < entries.len() ==> (#[trigger] entries[i]).0 != (#[trigger] entries[j]).0
}

/// `value` is among the values of an entry of `key`.
pub open spec fn entry_has(entries: Seq<(Branch, Vec<Branch>)>, key: Branch, value: Branch) -> bool {
    exists|i: int| 0 <= i < entries.len() && (#[trigger] entries[i]).0 == key && entries[i].1@.contains(value)
}

/// The slots given to new branches hold alive branches, in increasing order.
#[verifier::opaque]
pub open spec fn new_slots_ok(nd: Seq<(usize, Vec<Branch>)>, slots: Seq<BranchSlot>) -> bool {
    &&& forall|i: int| 0 <= i < nd.len() ==> (#[trigger] nd[i]).0 < slots.len() && slots[nd[i].0 as int] is Alive
    &&& forall|i1: int, i2: int| 0 <= i1 < i2 < nd.len() ==> nd[i1].0 < nd[i2].0
}

/// A new branch of builder `k`'s type depends on its `j`-th merged list of dependencies.
pub open spec fn placed(all: Seq<BranchesBuilder>, k: int, j: int, nd: Seq<(usize, Vec<Branch>)>, slots: Seq<BranchSlot>) -> bool {
    exists|i: int| 0 <= i < nd.len() && nd[i].1@ =~= merged_lists(all[k].depends.depends@)[j]
        && slots[nd[i].0 as int] == BranchSlot::Alive(all[k].state->Ok_0)
}

/// Each of the first `upto` builders that can still give branches has, for each of its
/// merged lists of dependencies, a new branch of its type depending on that list.
#[verifier::opaque]
pub open spec fn builders_placed(all: Seq<BranchesBuilder>, upto: int, nd: Seq<(usize, Vec<Branch>)>, slots: Seq<BranchSlot>) -> bool {
    forall|k: int, j: int| 0 <= k < upto && all[k].state is Ok && !all[k].depends.spec_has_empty()
        && 0 <= j < merged_lists(all[k].depends.depends@).len() ==> #[trigger] placed(all, k, j, nd, slots)
}

proof fn lemma_placed_grow(all: Seq<BranchesBuilder>, upto: int, nd: Seq<(usize, Vec<Branch>)>, slots: Seq<BranchSlot>,
    nd2: Seq<(usize, Vec<Branch>)>, slots2: Seq<BranchSlot>)
    requires
        builders_placed(all, upto, nd, slots),
        new_slots_ok(nd, slots),
        nd.len() <= nd2.len(),
        slots.len() <= slots2.len(),
        forall|i: int| 0 <= i < nd.len() ==> nd2[i] == nd[i],
        forall|i: int| 0 <= i < slots.len() ==> slots2[i] == slots[i],
    ensures
        builders_placed(all, upto, nd2, slots2),
{
    reveal(builders_placed);
    reveal(new_slots_ok);
    assert forall|k: int, j: int| 0 <= k < upto && all[k].state is Ok && !all[k].depends.spec_has_empty()
        && 0 <= j < merged_lists(all[k].depends.depends@).len() implies #[trigger] placed(all, k, j, nd2, slots2) by {
        assert(placed(all, k, j, nd, slots));
        let l = merged_lists(all[k].depends.depends@)[j];
        let t = all[k].state->Ok_0;
        let i = choose|i: int| 0 <= i < nd.len() && nd[i].1@ =~= l && slots[nd[i].0 as int] == BranchSlot::Alive(t);
        assert(nd2[i] == nd[i]);
        assert(nd[i].0 < slots.len());
        assert(slots2[nd[i].0 as int] == slots[nd[i].0 as int]);
        assert(0 <= i < nd2.len() && nd2[i].1@ =~= l && slots2[nd2[i].0 as int] == BranchSlot::Alive(t));
    }
}

proof fn lemma_placed_extend(all: Seq<BranchesBuilder>, upto: int, nd: Seq<(usize, Vec<Branch>)>, slots: Seq<BranchSlot>)
    requires
        0 <= upto < all.len(),
        builders_placed(all, upto, nd, slots),
        all[upto].state is Ok && !all[upto].depends.spec_has_empty() ==>
            forall|j: int| 0 <= j < merged_lists(all[upto].depends.depends@).len() ==> #[trigger] placed(all, upto, j, nd, slots),
    ensures
        builders_placed(all, upto + 1, nd, slots),
{
    reveal(builders_placed);
}

/// Builder `b` gave group `g` a branch of its type that stays alive as long as every branch
/// of its `j`-th merged list of dependencies does.
pub open spec fn gives_branch(graph: DeclareGraph, g: GroupIdx, b: BranchesBuilder, j: int) -> bool {
    exists|i: usize| i < graph.spec_groups()[g.idx as int].spec_slots().len()
        && ((forall|x: Branch| merged_lists(b.depends.depends@)[j].contains(x) ==> #[trigger] graph.spec_alive(x))
            ==> graph.spec_alive(Branch { belong_to: g, branch_idx: i })
                && graph.spec_branch(Branch { belong_to: g, branch_idx: i }) == b.state->Ok_0)
}

proof fn lemma_entries_ok_has(entries: Seq<(Branch, Vec<Branch>)>, n: nat, k: Branch, v: Branch)
    requires
        entries_ok(entries, n),
        entry_has(entries, k, v),
    ensures
        k.belong_to.idx < n,
        v.belong_to.idx < n,
{
    let i = choose|i: int| 0 <= i < entries.len() && (#[trigger] entries[i]).0 == k && entries[i].1@.contains(v);
    let j = choose|j: int| 0 <= j < entries[i].1@.len() && entries[i].1@[j] == v;
    assert(entries[i].1@[j].belong_to.idx < n);
}

/// `key` is the key of an entry.
pub open spec fn key_in(entries: Seq<(Branch, Vec<Branch>)>, key: Branch) -> bool {
    exists|i: int| 0 <= i < entries.len() && (#[trigger] entries[i]).0 == key
}

/// Every key of `new` is one of `old`.
pub open spec fn keys_within(new: Seq<(Branch, Vec<Branch>)>, old: Seq<(Branch, Vec<Branch>)>) -> bool {
    forall|k: Branch| #[trigger] key_in(new, k) ==> key_in(old, k)
}

/// Every link of `old` that `new` lost leads to a branch given up in `g`, whose own entry is
/// gone from `new`: a branch that depended on a given-up one was given up in turn.
pub open spec fn lost_links_closed(old: Seq<(Branch, Vec<Branch>)>, new: Seq<(Branch, Vec<Branch>)>, g: DeclareGraph) -> bool {
    forall|k: Branch, v: Branch| #[trigger] entry_has(old, k, v) && !entry_has(new, k, v) ==> !g.spec_alive(v) && !key_in(new, v)
}

/// `x` depends, through at most `n` links of `entries`, on `b`.
pub open spec fn depends_within(entries: Seq<(Branch, Vec<Branch>)>, b: Branch, x: Branch, n: nat) -> bool
    decreases n,
{
    if n == 0 {
        x == b
    } else {
        depends_within(entries, b, x, (n - 1) as nat)
            || exists|y: Branch| #[trigger] entry_has(entries, y, x) && depends_within(entries, b, y, (n - 1) as nat)
    }
}

/// Once a branch is given up and its entry is gone, with every lost link closed, everything
/// that depended on it through the old links, however indirectly, is given up too and has
/// no entry left.
pub proof fn law_removal_transitive(old: DeclareGraph, new: DeclareGraph, b: Branch, x: Branch, n: nat)
    requires
        !new.spec_alive(b),
        !key_in(new.spec_rdeps(), b),
        lost_links_closed(old.spec_rdeps(), new.spec_rdeps(), new),
        depends_within(old.spec_rdeps(), b, x, n),
    ensures
        !new.spec_alive(x),
        !key_in(new.spec_rdeps(), x),
    decreases n,
{
    if n > 0 {
        if depends_within(old.spec_rdeps(), b, x, (n - 1) as nat) {
            law_removal_transitive(old, new, b, x, (n - 1) as nat);
        } else {
            let y = choose|y: Branch| #[trigger] entry_has(old.spec_rdeps(), y, x) && depends_within(old.spec_rdeps(), b, y, (n - 1) as nat);
            law_removal_transitive(old, new, b, y, (n - 1) as nat);
            if entry_has(new.spec_rdeps(), y, x) {
                let i = choose|i: int| 0 <= i < new.spec_rdeps().len() && (#[trigger] new.spec_rdeps()[i]).0 == y && new.spec_rdeps()[i].1@.contains(x);
                assert(key_in(new.spec_rdeps(), y));
            }
        }
    }
}

/// No alive branch depends on a given-up one: whatever depends on a branch that is not alive
/// is not alive either.
pub open spec fn dependents_closed(g: DeclareGraph) -> bool {
    forall|k: Branch, v: Branch| #[trigger] entry_has(g.spec_rdeps(), k, v) && !g.spec_alive(k) ==> !g.spec_alive(v)
}

/// Where no alive branch depended on a given-up one, none does after branches are given up
/// whose entries of dependents are gone, the other links kept or dropped.
pub proof fn law_dependents_stay_closed(old: DeclareGraph, new: DeclareGraph)
    requires
        dependents_closed(old),
        entries_within(new.spec_rdeps(), old.spec_rdeps()),
        new.shrinks_from(old),
        forall|c: Branch| old.spec_alive(c) && !new.spec_alive(c) ==> !key_in(new.spec_rdeps(), c),
    ensures
        dependents_closed(new),
{
    assert forall|k: Branch, v: Branch| #[trigger] entry_has(new.spec_rdeps(), k, v) && !new.spec_alive(k) implies !new.spec_alive(v) by {
        let i = choose|i: int| 0 <= i < new.spec_rdeps().len() && (#[trigger] new.spec_rdeps()[i]).0 == k && new.spec_rdeps()[i].1@.contains(v);
        assert(key_in(new.spec_rdeps(), k));
        assert(entry_has(old.spec_rdeps(), k, v));
        if new.spec_alive(v) {
            assert(old.spec_alive(v));
        }
    }
}

/// Links lost one after the other stay closed.
proof fn lemma_lost_trans(a: Seq<(Branch, Vec<Branch>)>, b: Seq<(Branch, Vec<Branch>)>, c: Seq<(Branch, Vec<Branch>)>,
    gb: DeclareGraph, gc: DeclareGraph)
    requires
        lost_links_closed(a, b, gb),
        lost_links_closed(b, c, gc),
        keys_within(c, b),
        gc.shrinks_from(gb),
    ensures
        lost_links_closed(a, c, gc),
{
    assert forall|k: Branch, v: Branch| #[trigger] entry_has(a, k, v) && !entry_has(c, k, v) implies !gc.spec_alive(v) && !key_in(c, v) by {
        if !entry_has(b, k, v) {
            assert(!gb.spec_alive(v));
            assert(!key_in(b, v));
        }
    }
}

/// Taking out the entry of a key loses only the links of that key, and the key.
proof fn lemma_take_keys(old: Seq<(Branch, Vec<Branch>)>, key: Branch, pos: int)
    requires
        first_key_at(old, key, pos),
        keys_unique(old),
    ensures
        !key_in(old.remove(pos), key),
        keys_within(old.remove(pos), old),
        forall|k: Branch, v: Branch| #[trigger] entry_has(old, k, v) && !entry_has(old.remove(pos), k, v) ==>
            k == key && old[pos].1@.contains(v),
{
    let new = old.remove(pos);
    assert forall|i: int| 0 <= i < new.len() implies (#[trigger] new[i]).0 != key by {
        if i < pos {
            assert(new[i] == old[i]);
        } else {
            assert(new[i] == old[i + 1]);
            assert(old[pos].0 != old[i + 1].0);
        }
    }
    assert forall|k: Branch| #[trigger] key_in(new, k) implies key_in(old, k) by {
        let i = choose|i: int| 0 <= i < new.len() && (#[trigger] new[i]).0 == k;
        if i < pos {
            assert(new[i] == old[i]);
        } else {
            assert(new[i] == old[i + 1]);
        }
    }
    assert forall|k: Branch, v: Branch| #[trigger] entry_has(old, k, v) && !entry_has(new, k, v) implies
        k == key && old[pos].1@.contains(v) by {
        let i = choose|i: int| 0 <= i < old.len() && (#[trigger] old[i]).0 == k && old[i].1@.contains(v);
        if i < pos {
            assert(new[i] == old[i]);
        } else if i > pos {
            assert(new[i - 1] == old[i]);
        }
    }
}

/// Taking a value out of an entry keeps the keys and loses only links to that value.
proof fn lemma_remove_value_keys(old: Seq<(Branch, Vec<Branch>)>, new: Seq<(Branch, Vec<Branch>)>, pos: int, value: Branch)
    requires
        0 <= pos < old.len(),
        new.len() == old.len(),
        forall|i: int| 0 <= i < old.len() && i != pos ==> new[i] == old[i],
        new[pos].0 == old[pos].0,
        new[pos].1@ == old[pos].1@.filter(other_than(value)),
    ensures
        keys_within(new, old),
        forall|k: Branch| key_in(old, k) ==> #[trigger] key_in(new, k),
        forall|k: Branch, v: Branch| #[trigger] entry_has(old, k, v) && !entry_has(new, k, v) ==> v == value,
{
    assert forall|k: Branch| #[trigger] key_in(new, k) implies key_in(old, k) by {
        let i = choose|i: int| 0 <= i < new.len() && (#[trigger] new[i]).0 == k;
        if i != pos {
            assert(new[i] == old[i]);
        }
    }
    assert forall|k: Branch| key_in(old, k) implies #[trigger] key_in(new, k) by {
        let i = choose|i: int| 0 <= i < old.len() && (#[trigger] old[i]).0 == k;
        if i != pos {
            assert(new[i] == old[i]);
        }
    }
    assert forall|k: Branch, v: Branch| #[trigger] entry_has(old, k, v) && !entry_has(new, k, v) implies v == value by {
        let i = choose|i: int| 0 <= i < old.len() && (#[trigger] old[i]).0 == k && old[i].1@.contains(v);
        if i != pos {
            assert(new[i] == old[i]);
        } else if v != value {
            assert(other_than(value)(v));
            let j = choose|j: int| 0 <= j < old[pos].1@.len() && old[pos].1@[j] == v;
            old[pos].1@.lemma_filter_contains(other_than(value), j);
            assert(new[pos].1@.contains(v));
        }
    }
}

/// Every link of `a` is a link of `b`.
pub open spec fn entries_within(a: Seq<(Branch, Vec<Branch>)>, b: Seq<(Branch, Vec<Branch>)>) -> bool {
    forall|k: Branch, v: Branch| #[trigger] entry_has(a, k, v) ==> entry_has(b, k, v)
}

/// Between `old` and `new`, a branch was given up only if it is one of those `given_up`
/// names, or it was linked in `old` to a branch given up by `new`: it depended on it, or it
/// was one of those it depended on.
pub open spec fn deaths_justified(old: DeclareGraph, new: DeclareGraph, given_up: spec_fn(Branch) -> bool) -> bool {
    forall|c: Branch| #[trigger] old.spec_alive(c) && !new.spec_alive(c) ==> {
        ||| given_up(c)
        ||| exists|d: Branch| #[trigger] entry_has(old.spec_rdeps(), d, c) && !new.spec_alive(d)
        ||| exists|r: Branch| #[trigger] entry_has(old.spec_deps(), r, c) && !new.spec_alive(r)
    }
}

proof fn lemma_entries_within_trans(a: Seq<(Branch, Vec<Branch>)>, b: Seq<(Branch, Vec<Branch>)>, c: Seq<(Branch, Vec<Branch>)>)
    requires
        entries_within(a, b),
        entries_within(b, c),
    ensures
        entries_within(a, c),
{
    assert forall|k: Branch, v: Branch| #[trigger] entry_has(a, k, v) implies entry_has(c, k, v) by {
        assert(entry_has(b, k, v));
    }
}

/// Justified deaths compose: from `a` to `b` with the branches named by `p`, then from `b`
/// to `c` with those named by `q`, where each of the latter was itself given up by `p` or
/// linked in `a` to a branch that `c` has given up.
proof fn lemma_justified_step(a: DeclareGraph, b: DeclareGraph, c: DeclareGraph,
    p: spec_fn(Branch) -> bool, q: spec_fn(Branch) -> bool, via: Branch)
    requires
        deaths_justified(a, b, p),
        deaths_justified(b, c, q),
        entries_within(b.spec_deps(), a.spec_deps()),
        entries_within(b.spec_rdeps(), a.spec_rdeps()),
        c.shrinks_from(b),
        !c.spec_alive(via),
        forall|x: Branch| #[trigger] q(x) ==> p(x) || entry_has(a.spec_rdeps(), via, x) || entry_has(a.spec_deps(), via, x),
    ensures
        deaths_justified(a, c, p),
{
    assert forall|x: Branch| #[trigger] a.spec_alive(x) && !c.spec_alive(x) implies {
        ||| p(x)
        ||| exists|d: Branch| #[trigger] entry_has(a.spec_rdeps(), d, x) && !c.spec_alive(d)
        ||| exists|r: Branch| #[trigger] entry_has(a.spec_deps(), r, x) && !c.spec_alive(r)
    } by {
        if b.spec_alive(x) {
            if q(x) {
                if !p(x) {
                    if entry_has(a.spec_rdeps(), via, x) {
                        assert(entry_has(a.spec_rdeps(), via, x) && !c.spec_alive(via));
                    } else {
                        assert(entry_has(a.spec_deps(), via, x) && !c.spec_alive(via));
                    }
                }
            } else if exists|d: Branch| #[trigger] entry_has(b.spec_rdeps(), d, x) && !c.spec_alive(d) {
                let d = choose|d: Branch| #[trigger] entry_has(b.spec_rdeps(), d, x) && !c.spec_alive(d);
                assert(entry_has(a.spec_rdeps(), d, x));
            } else {
                let r = choose|r: Branch| #[trigger] entry_has(b.spec_deps(), r, x) && !c.spec_alive(r);
                assert(entry_has(a.spec_deps(), r, x));
            }
        } else {
            if !p(x) {
                if exists|d: Branch| #[trigger] entry_has(a.spec_rdeps(), d, x) && !b.spec_alive(d) {
                    let d = choose|d: Branch| #[trigger] entry_has(a.spec_rdeps(), d, x) && !b.spec_alive(d);
                    assert(!c.spec_alive(d));
                } else {
                    let r = choose|r: Branch| #[trigger] entry_has(a.spec_deps(), r, x) && !b.spec_alive(r);
                    assert(!c.spec_alive(r));
                }
            }
        }
    }
}

/// Some alive branch of group `grp` has the same type as `t`.
pub open spec fn has_partner(g: DeclareGraph, grp: GroupIdx, t: Type) -> bool {
    exists|f: Branch| f.belong_to == grp && g.spec_alive(f) && g.spec_branch(f).spec_type() == t.spec_type()
}

/// The reason a declaration gives a branch it refuses: another type, `expect`, was expected,
/// at `at`.
pub open spec fn unexpected_at(reason: DeclareError, at: Span, expect: Seq<char>) -> bool {
    reason matches DeclareError::WithLocation { location, error } && location == at
        && (*error matches DeclareError::Shared { err } && (*err matches DeclareError::Unexpect { expect: e } && e@ == expect))
}

/// The reason a filter gives a branch it refuses: what the filter expects, `expect`, was
/// expected, at `at`.
pub open spec fn refused_at(reason: DeclareError, at: Span, expect: Seq<char>) -> bool {
    reason matches DeclareError::WithLocation { location, error } && location == at
        && (*error matches DeclareError::Unexpect { expect: e } && e@ == expect)
}

/// The reason a merge gives a branch it filters out: filtered, at `at`.
pub open spec fn filtered_at(reason: DeclareError, at: Span) -> bool {
    reason matches DeclareError::Shared { err } && (*err matches DeclareError::WithLocation { location, error }
        && location == at && *error is Filtered)
}

/// Where errors point, in order.
pub open spec fn error_spans(es: Seq<Error>) -> Seq<Span> {
    es.map_values(|e: Error| e.span)
}

/// The spans of the groups that are not declared, in group order.
pub open spec fn undeclared_spans(gs: Seq<DeclareGroup>) -> Seq<Span>
    decreases gs.len(),
{
    if gs.len() == 0 {
        Seq::empty()
    } else if gs.last().spec_declared() {
        undeclared_spans(gs.drop_last())
    } else {
        undeclared_spans(gs.drop_last()).push(gs.last().spec_span())
    }
}

/// The branches other than `value`.
pub open spec fn other_than(value: Branch) -> spec_fn(Branch) -> bool {
    |b: Branch| b != value
}

impl DeclareGraph {
    pub closed spec fn spec_groups(self) -> Seq<DeclareGroup> {
        self.groups@
    }

    pub closed spec fn spec_deps(self) -> Seq<(Branch, Vec<Branch>)> {
        self.deps@
    }

    pub closed spec fn spec_rdeps(self) -> Seq<(Branch, Vec<Branch>)> {
        self.rdeps@
    }

    /// Every group knows its own index, and the dependencies refer to existing groups.
    pub open spec fn wf(self) -> bool {
        &&& forall|i: int| 0 <= i < self.spec_groups().len() ==> (#[trigger] self.spec_groups()[i]).spec_group().idx == i
        &&& entries_ok(self.spec_deps(), self.spec_groups().len())
        &&& entries_ok(self.spec_rdeps(), self.spec_groups().len())
    }

    pub open spec fn spec_alive(self, b: Branch) -> bool {
        b.belong_to.idx < self.spec_groups().len() && self.spec_groups()[b.belong_to.idx as int].spec_alive(b.branch_idx)
    }

    pub open spec fn spec_branch(self, b: Branch) -> Type {
        self.spec_groups()[b.belong_to.idx as int].spec_branch(b.branch_idx)
    }

    pub open spec fn spec_declared(self, g: GroupIdx) -> bool {
        self.spec_groups()[g.idx as int].spec_declared()
    }

    /// What the slot of a branch holds: its type, or why it was given up.
    pub open spec fn spec_slot(self, b: Branch) -> BranchSlot {
        self.spec_groups()[b.belong_to.idx as int].spec_slots()[b.branch_idx as int]
    }

    /// The branch has a slot in its group.
    pub open spec fn has_slot(self, b: Branch) -> bool {
        b.belong_to.idx < self.spec_groups().len() && b.branch_idx < self.spec_groups()[b.belong_to.idx as int].spec_slots().len()
    }

    /// `self` has the same groups as `old`, and only branches that were alive there, with the
    /// same types; a branch given up in `old` keeps its reason.
    pub open spec fn shrinks_from(self, old: DeclareGraph) -> bool {
        &&& self.spec_groups().len() == old.spec_groups().len()
        &&& forall|i: int| 0 <= i < self.spec_groups().len() ==> {
            &&& (#[trigger] self.spec_groups()[i]).spec_group() == old.spec_groups()[i].spec_group()
            &&& self.spec_groups()[i].spec_span() == old.spec_groups()[i].spec_span()
            &&& self.spec_groups()[i].spec_slots().len() == old.spec_groups()[i].spec_slots().len()
        }
        &&& forall|b: Branch| #[trigger] self.spec_alive(b) ==> old.spec_alive(b) && self.spec_branch(b) == old.spec_branch(b)
        &&& forall|b: Branch| old.has_slot(b) && !old.spec_alive(b) ==> #[trigger] self.spec_slot(b) == old.spec_slot(b)
    }

    /// `self` is `old` with groups added at the end.
    pub open spec fn extends(self, old: DeclareGraph) -> bool {
        &&& self.spec_groups().len() >= old.spec_groups().len()
        &&& forall|i: int| 0 <= i < old.spec_groups().len() ==> {
            &&& (#[trigger] self.spec_groups()[i]).spec_group() == old.spec_groups()[i].spec_group()
            &&& self.spec_groups()[i].spec_span() == old.spec_groups()[i].spec_span()
            &&& self.spec_groups()[i].spec_slots().len() == old.spec_groups()[i].spec_slots().len()
        }
        &&& forall|b: Branch| #[trigger] self.spec_alive(b) && b.belong_to.idx < old.spec_groups().len() ==>
            old.spec_alive(b) && self.spec_branch(b) == old.spec_branch(b)
    }

    pub open spec fn measure(self) -> nat {
        self.spec_deps().len() + self.spec_rdeps().len()
    }

    pub fn new() -> (g: DeclareGraph)
        ensures
            g.wf(),
            g.spec_groups().len() == 0,
    {
        DeclareGraph { groups: Vec::new(), deps: Vec::new(), rdeps: Vec::new() }
    }

    pub fn group_count(&self) -> (n: usize)
        ensures
            n == self.spec_groups().len(),
    {
        self.groups.len()
    }

    /// The alive branches of a group, with their types, by increasing index.
    pub fn group_alives(&self, gidx: GroupIdx) -> (v: Vec<(Branch, Type)>)
        requires
            self.wf(),
            gidx.idx < self.spec_groups().len(),
        ensures
            forall|k: int| 0 <= k < v@.len() ==> v@[k].0.belong_to == gidx
                && self.spec_alive(v@[k].0) && v@[k].1 == self.spec_branch(v@[k].0),
            forall|b: Branch| b.belong_to == gidx && self.spec_alive(b) ==> exists|k: int| 0 <= k < v@.len() && v@[k].0 == b,
            forall|k1: int, k2: int| 0 <= k1 < k2 < v@.len() ==> v@[k1].0.branch_idx < v@[k2].0.branch_idx,
    {
        let v = self.groups[gidx.idx].alive_list();
        assert(self.spec_groups()[gidx.idx as int].spec_group() == gidx);
        v
    }

    /// Whether a group has exactly one possible type left.
    pub fn is_declared(&self, gidx: GroupIdx) -> (b: bool)
        requires
            gidx.idx < self.spec_groups().len(),
        ensures
            b == self.spec_declared(gidx),
    {
        self.groups[gidx.idx].is_declared()
    }

    /// The span of the source that a group is about.
    pub fn group_span(&self, gidx: GroupIdx) -> (s: Span)
        requires
            gidx.idx < self.spec_groups().len(),
        ensures
            s == self.spec_groups()[gidx.idx as int].spec_span(),
    {
        self.groups[gidx.idx].get_span()
    }

    fn new_group_inner(&mut self, span: Span, slots: Vec<BranchSlot>) -> (g: GroupIdx)
        requires
            old(self).wf(),
        ensures
            final(self).wf(),
            final(self).extends(*old(self)),
            final(self).spec_groups().len() == old(self).spec_groups().len() + 1,
            g.idx == old(self).spec_groups().len(),
            final(self).spec_groups().last().spec_slots() == slots@,
            final(self).spec_groups().last().spec_span() == span,
            final(self).spec_deps() == old(self).spec_deps(),
            final(self).spec_rdeps() == old(self).spec_rdeps(),
    {
        let idx = GroupIdx::new(self.groups.len());
        self.groups.push(DeclareGroup::new(span, idx, slots));
        assert forall|b: Branch| #[trigger] self.spec_alive(b) && b.belong_to.idx < old(self).spec_groups().len() implies
            old(self).spec_alive(b) && self.spec_branch(b) == old(self).spec_branch(b) by {
            assert(self.spec_groups()[b.belong_to.idx as int] == old(self).spec_groups()[b.belong_to.idx as int]);
        }
        assert forall|i: int| 0 <= i < self.spec_groups().len() implies (#[trigger] self.spec_groups()[i]).spec_group().idx == i by {
            if i < old(self).spec_groups().len() {
                assert(self.spec_groups()[i] == old(self).spec_groups()[i]);
            }
        }
        idx
    }

    /// A new group whose branches are the given types, all alive.
    pub fn new_static_group(&mut self, at: Span, items: Vec<Type>) -> (g: GroupIdx)
        requires
            old(self).wf(),
        ensures
            final(self).wf(),
            final(self).extends(*old(self)),
            final(self).spec_groups().len() == old(self).spec_groups().len() + 1,
            g.idx == old(self).spec_groups().len(),
            final(self).spec_groups()[g.idx as int].spec_span() == at,
            final(self).spec_groups()[g.idx as int].spec_slots().len() == items@.len(),
            forall|i: usize| i < items@.len() ==> final(self).spec_alive(Branch { belong_to: g, branch_idx: i })
                && final(self).spec_branch(Branch { belong_to: g, branch_idx: i }) == items@[i as int],
    {
        let mut slots: Vec<BranchSlot> = Vec::new();
        let mut items = items;
        let ghost all = items@;
        let mut i: usize = 0;
        let n = items.len();
        while i < n
            invariant
                n == all.len(),
                i <= n,
                slots@.len() == i,
                forall|k: int| 0 <= k < i ==> slots@[k] == BranchSlot::Alive(all[k]),
                items@ == all.subrange(i as int, n as int),
            decreases n - i,
        {
            let t = items.remove(0);
            slots.push(BranchSlot::Alive(t));
            i = i + 1;
        }
        let g = self.new_group_inner(at, slots);
        assert(self.spec_groups()[g.idx as int].spec_group() == g);
        g
    }

    fn find_entry(entries: &Vec<(Branch, Vec<Branch>)>, who: Branch) -> (r: Option<usize>)
        ensures
            r matches Some(i) ==> i < entries@.len() && entries@[i as int].0 == who,
            r matches Some(i) ==> first_key_at(entries@, who, i as int),
            r is None ==> forall|i: int| 0 <= i < entries@.len() ==> entries@[i].0 != who,
    {
        let mut i: usize = 0;
        while i < entries.len()
            invariant
                i <= entries.len(),
                forall|j: int| 0 <= j < i ==> entries@[j].0 != who,
            decreases entries.len() - i,
        {
            if entries[i].0 == who {
                return Some(i);
            }
            i = i + 1;
        }
        None
    }

    /// Records that `who` depends on all of `depend`: each of them gets `who` among the
    /// branches that depend on it, and `who` gets all of them among those it depends on.
    fn insert_depends(&mut self, who: Branch, depend: Vec<Branch>)
        requires
            old(self).wf(),
            who.belong_to.idx < old(self).spec_groups().len(),
            forall|j: int| 0 <= j < depend@.len() ==> (#[trigger] depend@[j]).belong_to.idx < old(self).spec_groups().len(),
        ensures
            final(self).wf(),
            final(self).spec_groups() == old(self).spec_groups(),
            forall|k: Branch, v: Branch| #[trigger] entry_has(final(self).spec_rdeps(), k, v) <==>
                entry_has(old(self).spec_rdeps(), k, v) || (v == who && depend@.contains(k)),
            forall|k: Branch, v: Branch| #[trigger] entry_has(final(self).spec_deps(), k, v) <==>
                entry_has(old(self).spec_deps(), k, v) || (k == who && depend@.contains(v)),
    {
        if depend.len() == 0 {
            return;
        }
        let n = self.groups.len();
        let mut i: usize = 0;
        while i < depend.len()
            invariant
                self.wf(),
                self.spec_groups() == old(self).spec_groups(),
                self.spec_deps() == old(self).spec_deps(),
                n == self.spec_groups().len(),
                i <= depend.len(),
                who.belong_to.idx < n,
                forall|j: int| 0 <= j < depend@.len() ==> (#[trigger] depend@[j]).belong_to.idx < n,
                forall|k: Branch, v: Branch| #[trigger] entry_has(self.spec_rdeps(), k, v) <==>
                    entry_has(old(self).spec_rdeps(), k, v) || (v == who && exists|j: int| 0 <= j < i && depend@[j] == k),
            decreases depend.len() - i,
        {
            let d = depend[i];
            let ghost before = self.spec_rdeps();
            Self::add_to_entry(&mut self.rdeps, d, who, n);
            assert forall|k: Branch, v: Branch| #[trigger] entry_has(self.spec_rdeps(), k, v) <==>
                entry_has(old(self).spec_rdeps(), k, v) || (v == who && exists|j: int| 0 <= j < i + 1 && depend@[j] == k) by {
                assert(entry_has(self.spec_rdeps(), k, v) <==> entry_has(before, k, v) || (k == d && v == who));
                if k == d {
                    assert(depend@[i as int] == k);
                }
            }
            i = i + 1;
        }
        assert forall|k: Branch, v: Branch| #[trigger] entry_has(self.spec_rdeps(), k, v) <==>
            entry_has(old(self).spec_rdeps(), k, v) || (v == who && depend@.contains(k)) by {}
        let mut j: usize = 0;
        while j < depend.len()
            invariant
                self.wf(),
                self.spec_groups() == old(self).spec_groups(),
                forall|k: Branch, v: Branch| #[trigger] entry_has(self.spec_rdeps(), k, v) <==>
                    entry_has(old(self).spec_rdeps(), k, v) || (v == who && depend@.contains(k)),
                n == self.spec_groups().len(),
                j <= depend.len(),
                who.belong_to.idx < n,
                forall|k: int| 0 <= k < depend@.len() ==> (#[trigger] depend@[k]).belong_to.idx < n,
                forall|k: Branch, v: Branch| #[trigger] entry_has(self.spec_deps(), k, v) <==>
                    entry_has(old(self).spec_deps(), k, v) || (k == who && exists|m: int| 0 <= m < j && depend@[m] == v),
            decreases depend.len() - j,
        {
            let d = depend[j];
            let ghost before = self.spec_deps();
            Self::add_to_entry(&mut self.deps, who, d, n);
            assert forall|k: Branch, v: Branch| #[trigger] entry_has(self.spec_deps(), k, v) <==>
                entry_has(old(self).spec_deps(), k, v) || (k == who && exists|m: int| 0 <= m < j + 1 && depend@[m] == v) by {
                assert(entry_has(self.spec_deps(), k, v) <==> entry_has(before, k, v) || (k == who && v == d));
                if v == d {
                    assert(depend@[j as int] == v);
                }
            }
            j = j + 1;
        }
        assert forall|k: Branch, v: Branch| #[trigger] entry_has(self.spec_deps(), k, v) <==>
            entry_has(old(self).spec_deps(), k, v) || (k == who && depend@.contains(v)) by {}
    }

    /// Adds `value` to the entry of `key`, creating the entry if there is none; a value
    /// already there is not added again. The entry of `key` goes to the end of the list.
    fn add_to_entry(entries: &mut Vec<(Branch, Vec<Branch>)>, key: Branch, value: Branch, n: usize)
        requires
            entries_ok(old(entries)@, n as nat),
            key.belong_to.idx < n,
            value.belong_to.idx < n,
        ensures
            entries_ok(final(entries)@, n as nat),
            final(entries)@.len() <= old(entries)@.len() + 1,
            final(entries)@.len() > 0,
            final(entries)@.last().0 == key,
            (forall|i: int| 0 <= i < old(entries)@.len() ==> old(entries)@[i].0 != key) ==>
                final(entries)@.drop_last() == old(entries)@ && final(entries)@.last().1@ == seq![value],
            forall|pos: int| #[trigger] first_key_at(old(entries)@, key, pos) ==>
                final(entries)@.drop_last() == old(entries)@.remove(pos)
                && final(entries)@.last().1@ == (if old(entries)@[pos].1@.contains(value) {
                    old(entries)@[pos].1@
                } else {
                    old(entries)@[pos].1@.push(value)
                }),
            forall|k: Branch, v: Branch| #[trigger] entry_has(final(entries)@, k, v) <==>
                entry_has(old(entries)@, k, v) || (k == key && v == value),
    {
        match Self::find_entry(entries, key) {
            Some(pos) => {
                assert forall|p: int| #[trigger] first_key_at(old(entries)@, key, p) implies p == pos by {
                    lemma_first_key_unique(old(entries)@, key, p, pos as int);
                }
                let (k, mut values) = entries.remove(pos);
                let ghost before = values@;
                let mut found = false;
                let mut t: usize = 0;
                while t < values.len()
                    invariant
                        t <= values.len(),
                        found <==> exists|j: int| 0 <= j < t && values@[j] == value,
                    decreases values.len() - t,
                {
                    if values[t] == value {
                        found = true;
                    }
                    t = t + 1;
                }
                assert(found <==> values@.contains(value));
                if !found {
                    values.push(value);
                }
                assert(values@.contains(value)) by {
                    if found {
                        let j = choose|j: int| 0 <= j < before.len() && before[j] == value;
                        assert(values@[j] == value);
                    } else {
                        assert(values@[values@.len() - 1] == value);
                    }
                }
                assert(forall|j: int| 0 <= j < values@.len() ==> (#[trigger] values@[j]).belong_to.idx < n);
                let ghost rest = entries@;
                entries.push((k, values));
                assert(entries@.drop_last() =~= rest);
                assert(entries_ok(entries@, n as nat)) by {
                    assert forall|i: int| 0 <= i < entries@.len() implies {
                        &&& entries@[i].0.belong_to.idx < n
                        &&& forall|j: int| 0 <= j < entries@[i].1@.len() ==> (#[trigger] entries@[i].1@[j]).belong_to.idx < n
                    } by {
                        if i < pos {
                            assert(entries@[i] == old(entries)@[i]);
                        } else if i < entries@.len() - 1 {
                            assert(entries@[i] == old(entries)@[i + 1]);
                        }
                    }
                }
                let ghost last = entries@.len() - 1;
                assert forall|k2: Branch, v: Branch| #[trigger] entry_has(entries@, k2, v) <==>
                    entry_has(old(entries)@, k2, v) || (k2 == key && v == value) by {
                    if entry_has(entries@, k2, v) {
                        let i = choose|i: int| 0 <= i < entries@.len() && (#[trigger] entries@[i]).0 == k2 && entries@[i].1@.contains(v);
                        if i < pos {
                            assert(entries@[i] == old(entries)@[i]);
                        } else if i < last {
                            assert(entries@[i] == old(entries)@[i + 1]);
                        } else if v != value {
                            let j = choose|j: int| 0 <= j < values@.len() && values@[j] == v;
                            assert(before[j] == v);
                            assert(before.contains(v));
                            assert(old(entries)@[pos as int].0 == k2);
                        }
                    }
                    if entry_has(old(entries)@, k2, v) {
                        let i = choose|i: int| 0 <= i < old(entries)@.len() && (#[trigger] old(entries)@[i]).0 == k2 && old(entries)@[i].1@.contains(v);
                        if i < pos {
                            assert(entries@[i] == old(entries)@[i]);
                        } else if i > pos {
                            assert(entries@[i - 1] == old(entries)@[i]);
                        } else {
                            let j = choose|j: int| 0 <= j < before.len() && before[j] == v;
                            assert(values@[j] == v);
                            assert(entries@[last].1@.contains(v));
                        }
                    }
                    if k2 == key && v == value {
                        assert(entries@[last].1@.contains(v));
                    }
                }
            },
            None => {
                let mut values = Vec::new();
                values.push(value);
                entries.push((key, values));
                assert(entries@.drop_last() =~= old(entries)@);
                assert(values@ =~= seq![value]);
                assert(entries_ok(entries@, n as nat)) by {
                    assert forall|i: int| 0 <= i < entries@.len() implies {
                        &&& entries@[i].0.belong_to.idx < n
                        &&& forall|j: int| 0 <= j < entries@[i].1@.len() ==> (#[trigger] entries@[i].1@[j]).belong_to.idx < n
                    } by {
                        if i < old(entries)@.len() {
                            assert(entries@[i] == old(entries)@[i]);
                        }
                    }
                }
                let ghost last = old(entries)@.len() as int;
                assert forall|k2: Branch, v: Branch| #[trigger] entry_has(entries@, k2, v) <==>
                    entry_has(old(entries)@, k2, v) || (k2 == key && v == value) by {
                    if entry_has(entries@, k2, v) {
                        let i = choose|i: int| 0 <= i < entries@.len() && (#[trigger] entries@[i]).0 == k2 && entries@[i].1@.contains(v);
                        if i < last {
                            assert(entries@[i] == old(entries)@[i]);
                        } else {
                            let j = choose|j: int| 0 <= j < values@.len() && values@[j] == v;
                        }
                    }
                    if entry_has(old(entries)@, k2, v) {
                        let i = choose|i: int| 0 <= i < old(entries)@.len() && (#[trigger] old(entries)@[i]).0 == k2 && old(entries)@[i].1@.contains(v);
                        assert(entries@[i] == old(entries)@[i]);
                    }
                    if k2 == key && v == value {
                        assert(values@[0] == v);
                        assert(entries@[last].1@.contains(v));
                    }
                }
            },
        }
    }

    /// Takes out the entry of `key`, if there is one.
    fn take_entry(entries: &mut Vec<(Branch, Vec<Branch>)>, key: Branch, n: usize) -> (r: Option<Vec<Branch>>)
        requires
            entries_ok(old(entries)@, n as nat),
        ensures
            entries_ok(final(entries)@, n as nat),
            r is None ==> final(entries)@ == old(entries)@,
            r is None <==> forall|i: int| 0 <= i < old(entries)@.len() ==> old(entries)@[i].0 != key,
            forall|pos: int| #[trigger] first_key_at(old(entries)@, key, pos) ==>
                r == Some(old(entries)@[pos].1) && final(entries)@ == old(entries)@.remove(pos),
            r matches Some(v) ==> final(entries)@.len() + 1 == old(entries)@.len()
                && (forall|j: int| 0 <= j < v@.len() ==> (#[trigger] v@[j]).belong_to.idx < n),
            r matches Some(v) ==> forall|x: Branch| v@.contains(x) ==> #[trigger] entry_has(old(entries)@, key, x),
            entries_within(final(entries)@, old(entries)@),
    {
        match Self::find_entry(entries, key) {
            Some(pos) => {
                let ghost o = entries@;
                assert forall|p: int| #[trigger] first_key_at(old(entries)@, key, p) implies p == pos by {
                    lemma_first_key_unique(old(entries)@, key, p, pos as int);
                }
                let (_, values) = entries.remove(pos);
                assert(entries_ok(entries@, n as nat)) by {
                    assert forall|i: int| 0 <= i < entries@.len() implies {
                        &&& entries@[i].0.belong_to.idx < n
                        &&& forall|j: int| 0 <= j < entries@[i].1@.len() ==> (#[trigger] entries@[i].1@[j]).belong_to.idx < n
                    } by {
                        if i < pos {
                            assert(entries@[i] == old(entries)@[i]);
                        } else {
                            assert(entries@[i] == old(entries)@[i + 1]);
                        }
                    }
                }
                assert(forall|j: int| 0 <= j < values@.len() ==> (#[trigger] values@[j]).belong_to.idx < n) by {
                    assert(old(entries)@[pos as int].1 == values);
                }
                assert forall|x: Branch| values@.contains(x) implies #[trigger] entry_has(o, key, x) by {
                    assert(o[pos as int].1 == values);
                }
                assert forall|k: Branch, v: Branch| #[trigger] entry_has(entries@, k, v) implies entry_has(o, k, v) by {
                    let i = choose|i: int| 0 <= i < entries@.len() && (#[trigger] entries@[i]).0 == k && entries@[i].1@.contains(v);
                    if i < pos {
                        assert(entries@[i] == o[i]);
                    } else {
                        assert(entries@[i] == o[i + 1]);
                    }
                }
                Some(values)
            },
            None => None,
        }
    }

    /// Gives up a branch, every branch that depends on it, and every branch that only it
    /// used.
    pub fn remove_branch(&mut self, branch: Branch, reason: Rc<DeclareError>)
        requires
            old(self).wf(),
            branch.belong_to.idx < old(self).spec_groups().len(),
        ensures
            final(self).wf(),
            final(self).shrinks_from(*old(self)),
            !final(self).spec_alive(branch),
            final(self).measure() <= old(self).measure(),
            old(self).spec_alive(branch) ==> final(self).spec_slot(branch) == BranchSlot::Failed(DeclareError::WithPrevious {
                previous: old(self).spec_branch(branch),
                error: Box::new(DeclareError::Shared { err: reason }),
            }),
            forall|pos: int| #[trigger] first_key_at(old(self).spec_rdeps(), branch, pos) ==>
                forall|j: int| 0 <= j < old(self).spec_rdeps()[pos].1@.len() ==>
                    !final(self).spec_alive(#[trigger] old(self).spec_rdeps()[pos].1@[j]),
            entries_within(final(self).spec_deps(), old(self).spec_deps()),
            entries_within(final(self).spec_rdeps(), old(self).spec_rdeps()),
            deaths_justified(*old(self), *final(self), |c: Branch| c == branch),
            !key_in(final(self).spec_rdeps(), branch),
            keys_within(final(self).spec_rdeps(), old(self).spec_rdeps()),
            lost_links_closed(old(self).spec_rdeps(), final(self).spec_rdeps(), *final(self)),
            forall|x: Branch, n: nat| #[trigger] depends_within(old(self).spec_rdeps(), branch, x, n) ==> !final(self).spec_alive(x),
            forall|c: Branch| #[trigger] old(self).spec_alive(c) && !final(self).spec_alive(c) ==> !key_in(final(self).spec_rdeps(), c),
            dependents_closed(*old(self)) ==> dependents_closed(*final(self)),
        decreases old(self).measure(),
    {
        let n = self.groups.len();
        let gi = branch.belong_to.idx;
        let group_loc = self.groups[gi].get_span();
        let ghost start = *self;
        if self.groups[gi].is_alive(branch.branch_idx) {
            let err = self.groups[gi].remove_branch(branch.branch_idx, DeclareError::shared(&reason));
            self.groups[gi].push_error(branch.branch_idx, err);
            assert(self.spec_groups() =~= start.spec_groups().update(gi as int, self.spec_groups()[gi as int]));
            proof { self.lemma_slot_change(start, gi as int, branch.branch_idx); }
            assert forall|x: Branch| start.spec_alive(x) && !self.spec_alive(x) implies x == branch by {
                if x.belong_to.idx != gi {
                    assert(self.spec_groups()[x.belong_to.idx as int] == start.spec_groups()[x.belong_to.idx as int]);
                } else if x.branch_idx != branch.branch_idx {
                    assert(self.spec_groups()[gi as int].spec_slots()[x.branch_idx as int]
                        == start.spec_groups()[gi as int].spec_slots()[x.branch_idx as int]);
                }
            }
        }
        assert(self.shrinks_from(start));
        assert(deaths_justified(start, *self, |c: Branch| c == branch));
        assert(self.spec_deps() == start.spec_deps());
        assert(!self.spec_alive(branch));
        let ghost marked = *self;
        assert(marked.spec_rdeps() == start.spec_rdeps());
        proof { self.lemma_same_groups(marked); }
        let ghost before_rdeps = *self;
        let taken = Self::take_entry(&mut self.rdeps, branch, n);
        proof {
            self.lemma_same_groups(before_rdeps);
            self.lemma_shrinks_trans(before_rdeps, marked);
            assert(self.spec_groups() == marked.spec_groups());
            assert(deaths_justified(start, *self, |c: Branch| c == branch));
            if taken is Some {
                let e = start.spec_rdeps();
                let pos = choose|i: int| 0 <= i < e.len() && e[i].0 == branch;
                assert forall|j: int| 0 <= j < pos implies e[j].0 != branch by {
                    assert(e[j].0 != e[pos].0);
                }
                assert(first_key_at(e, branch, pos));
                lemma_take_keys(e, branch, pos);
                assert(taken == Some(e[pos].1));
                assert forall|v: Branch| #[trigger] entry_has(e, branch, v) implies taken->Some_0@.contains(v) by {
                    let i = choose|i: int| 0 <= i < e.len() && (#[trigger] e[i]).0 == branch && e[i].1@.contains(v);
                    if i != pos {
                        assert(e[i].0 != e[pos].0);
                    }
                }
            } else {
                assert(self.spec_rdeps() == start.spec_rdeps());
            }
        }
        let ghost after_take = *self;
        if let Some(rdeps) = taken {
            let mut i: usize = 0;
            while i < rdeps.len()
                invariant
                    self.wf(),
                    n == self.spec_groups().len(),
                    self.shrinks_from(marked),
                    marked.shrinks_from(start),
                    start.spec_alive(branch) ==> marked.spec_slot(branch) == BranchSlot::Failed(DeclareError::WithPrevious {
                        previous: start.spec_branch(branch),
                        error: Box::new(DeclareError::Shared { err: reason }),
                    }),
                    marked.spec_rdeps() == start.spec_rdeps(),
                    !self.spec_alive(branch),
                    self.measure() < start.measure(),
                    start.measure() == old(self).measure(),
                    forall|j: int| 0 <= j < rdeps@.len() ==> (#[trigger] rdeps@[j]).belong_to.idx < n,
                    forall|j: int| 0 <= j < i ==> !self.spec_alive(#[trigger] rdeps@[j]),
                    i <= rdeps.len(),
                    entries_within(self.spec_deps(), start.spec_deps()),
                    entries_within(self.spec_rdeps(), start.spec_rdeps()),
                    deaths_justified(start, *self, |c: Branch| c == branch),
                    forall|x: Branch| rdeps@.contains(x) ==> #[trigger] entry_has(start.spec_rdeps(), branch, x),
                    !key_in(self.spec_rdeps(), branch),
                    keys_within(self.spec_rdeps(), start.spec_rdeps()),
                    forall|k: Branch, v: Branch| #[trigger] entry_has(start.spec_rdeps(), k, v) && !entry_has(self.spec_rdeps(), k, v) && k != branch
                        ==> !self.spec_alive(v) && !key_in(self.spec_rdeps(), v),
                    forall|j: int| 0 <= j < i ==> !key_in(self.spec_rdeps(), #[trigger] rdeps@[j]),
                    forall|c: Branch| #[trigger] start.spec_alive(c) && !self.spec_alive(c) && c != branch ==> !key_in(self.spec_rdeps(), c),
                decreases rdeps.len() - i,
            {
                let ghost before = *self;
                self.remove_branch(rdeps[i], share_error(&reason));
                proof {
                    assert forall|k: Branch, v: Branch| #[trigger] entry_has(start.spec_rdeps(), k, v) && !entry_has(self.spec_rdeps(), k, v) && k != branch
                        implies !self.spec_alive(v) && !key_in(self.spec_rdeps(), v) by {
                        if !entry_has(before.spec_rdeps(), k, v) {
                            assert(!before.spec_alive(v));
                            assert(!key_in(before.spec_rdeps(), v));
                        }
                    }
                    assert forall|j: int| 0 <= j < i + 1 implies !key_in(self.spec_rdeps(), #[trigger] rdeps@[j]) by {
                        if j < i {
                            assert(!key_in(before.spec_rdeps(), rdeps@[j]));
                        }
                    }
                    assert forall|c: Branch| #[trigger] start.spec_alive(c) && !self.spec_alive(c) && c != branch implies
                        !key_in(self.spec_rdeps(), c) by {
                        if !before.spec_alive(c) {
                            assert(!key_in(before.spec_rdeps(), c));
                        }
                    }
                    self.lemma_shrinks_trans(before, marked);
                    let sub = rdeps@[i as int];
                    assert(rdeps@.contains(sub));
                    assert(entry_has(start.spec_rdeps(), branch, sub));
                    lemma_entries_within_trans(self.spec_deps(), before.spec_deps(), start.spec_deps());
                    lemma_entries_within_trans(self.spec_rdeps(), before.spec_rdeps(), start.spec_rdeps());
                    lemma_justified_step(start, before, *self, |c: Branch| c == branch, |c: Branch| c == sub, branch);
                    assert forall|j: int| 0 <= j < i + 1 implies !self.spec_alive(#[trigger] rdeps@[j]) by {
                        if j < i && self.spec_alive(rdeps@[j]) {
                            assert(before.spec_alive(rdeps@[j]));
                        }
                    }
                }
                i = i + 1;
            }
            proof {
                assert forall|k: Branch, v: Branch| #[trigger] entry_has(start.spec_rdeps(), k, v) && !entry_has(self.spec_rdeps(), k, v)
                    implies !self.spec_alive(v) && !key_in(self.spec_rdeps(), v) by {
                    if k == branch {
                        assert(rdeps@.contains(v));
                        let j = choose|j: int| 0 <= j < rdeps@.len() && rdeps@[j] == v;
                        assert(!self.spec_alive(rdeps@[j]));
                        assert(!key_in(self.spec_rdeps(), rdeps@[j]));
                    }
                }
            }
        }
        assert(lost_links_closed(start.spec_rdeps(), self.spec_rdeps(), *self));
        assert(!key_in(self.spec_rdeps(), branch));
        assert(keys_within(self.spec_rdeps(), start.spec_rdeps()));
        assert forall|pos: int| #[trigger] first_key_at(start.spec_rdeps(), branch, pos) implies
            forall|j: int| 0 <= j < start.spec_rdeps()[pos].1@.len() ==>
                !self.spec_alive(#[trigger] start.spec_rdeps()[pos].1@[j]) by {
            assert(taken == Some(start.spec_rdeps()[pos].1));
        }
        let ghost before_deps = *self;
        let taken = Self::take_entry(&mut self.deps, branch, n);
        proof {
            self.lemma_same_groups(before_deps);
            self.lemma_shrinks_trans(before_deps, marked);
            assert(self.spec_groups() == before_deps.spec_groups());
            lemma_entries_within_trans(self.spec_deps(), before_deps.spec_deps(), start.spec_deps());
            assert(deaths_justified(start, *self, |c: Branch| c == branch));
            if taken is Some {
                let v = taken->Some_0;
                assert forall|x: Branch| v@.contains(x) implies #[trigger] entry_has(start.spec_deps(), branch, x) by {
                    assert(entry_has(before_deps.spec_deps(), branch, x));
                }
            }
        }
        if let Some(deps) = taken {
            let mut i: usize = 0;
            while i < deps.len()
                invariant
                    self.wf(),
                    n == self.spec_groups().len(),
                    self.shrinks_from(marked),
                    marked.shrinks_from(start),
                    start.spec_alive(branch) ==> marked.spec_slot(branch) == BranchSlot::Failed(DeclareError::WithPrevious {
                        previous: start.spec_branch(branch),
                        error: Box::new(DeclareError::Shared { err: reason }),
                    }),
                    marked.spec_rdeps() == start.spec_rdeps(),
                    !self.spec_alive(branch),
                    self.measure() < start.measure(),
                    start.measure() == old(self).measure(),
                    forall|j: int| 0 <= j < deps@.len() ==> (#[trigger] deps@[j]).belong_to.idx < n,
                    forall|pos: int| #[trigger] first_key_at(start.spec_rdeps(), branch, pos) ==>
                        forall|j: int| 0 <= j < start.spec_rdeps()[pos].1@.len() ==>
                            !self.spec_alive(#[trigger] start.spec_rdeps()[pos].1@[j]),
                    entries_within(self.spec_deps(), start.spec_deps()),
                    entries_within(self.spec_rdeps(), start.spec_rdeps()),
                    deaths_justified(start, *self, |c: Branch| c == branch),
                    forall|x: Branch| deps@.contains(x) ==> #[trigger] entry_has(start.spec_deps(), branch, x),
                    !key_in(self.spec_rdeps(), branch),
                    keys_within(self.spec_rdeps(), start.spec_rdeps()),
                    lost_links_closed(start.spec_rdeps(), self.spec_rdeps(), *self),
                    forall|c: Branch| #[trigger] start.spec_alive(c) && !self.spec_alive(c) && c != branch ==> !key_in(self.spec_rdeps(), c),
                decreases deps.len() - i,
            {
                let dep = deps[i];
                match Self::find_entry(&self.rdeps, dep) {
                    Some(pos) => {
                        if self.rdeps[pos].1.len() == 1 {
                            let never = Rc::new(DeclareError::NeverUsed {
                                in_group: group_loc,
                                reason: Some(Box::new(DeclareError::shared(&reason))),
                            });
                            let ghost before = *self;
                            self.remove_branch(dep, never);
                            proof {
                                self.lemma_shrinks_trans(before, marked);
                                assert(deps@.contains(dep));
                                assert(entry_has(start.spec_deps(), branch, dep));
                                lemma_entries_within_trans(self.spec_deps(), before.spec_deps(), start.spec_deps());
                                lemma_entries_within_trans(self.spec_rdeps(), before.spec_rdeps(), start.spec_rdeps());
                                lemma_justified_step(start, before, *self, |c: Branch| c == branch, |c: Branch| c == dep, branch);
                                lemma_lost_trans(start.spec_rdeps(), before.spec_rdeps(), self.spec_rdeps(), before, *self);
                                assert forall|k: Branch| #[trigger] key_in(self.spec_rdeps(), k) implies key_in(start.spec_rdeps(), k) by {
                                    assert(key_in(before.spec_rdeps(), k));
                                }
                                assert forall|c: Branch| #[trigger] start.spec_alive(c) && !self.spec_alive(c) && c != branch implies
                                    !key_in(self.spec_rdeps(), c) by {
                                    if !before.spec_alive(c) {
                                        assert(!key_in(before.spec_rdeps(), c));
                                    }
                                }
                            }
                        } else {
                            let ghost before = *self;
                            Self::remove_value(&mut self.rdeps, pos, branch, n);
                            proof {
                                self.lemma_same_groups(before);
                                assert(self.spec_groups() == before.spec_groups());
                                lemma_remove_value_keys(before.spec_rdeps(), self.spec_rdeps(), pos as int, branch);
                                assert(lost_links_closed(before.spec_rdeps(), self.spec_rdeps(), *self));
                                lemma_lost_trans(start.spec_rdeps(), before.spec_rdeps(), self.spec_rdeps(), before, *self);
                                assert forall|k: Branch| #[trigger] key_in(self.spec_rdeps(), k) implies key_in(start.spec_rdeps(), k) by {
                                    assert(key_in(before.spec_rdeps(), k));
                                }
                                assert forall|c: Branch| #[trigger] start.spec_alive(c) && !self.spec_alive(c) && c != branch implies
                                    !key_in(self.spec_rdeps(), c) by {
                                    assert(!key_in(before.spec_rdeps(), c));
                                }
                                lemma_entries_within_trans(self.spec_rdeps(), before.spec_rdeps(), start.spec_rdeps());
                                assert(deaths_justified(start, *self, |c: Branch| c == branch));
                            }
                            proof { self.lemma_shrinks_trans(before, marked); }
                        }
                    },
                    None => {},
                }
                i = i + 1;
            }
        }
        proof {
            assert forall|x: Branch, n: nat| #[trigger] depends_within(start.spec_rdeps(), branch, x, n) implies !self.spec_alive(x) by {
                law_removal_transitive(start, *self, branch, x, n);
            }
            if dependents_closed(start) {
                law_dependents_stay_closed(start, *self);
            }
        }
    }

    /// Takes `value` out of the entry at `pos`.
    fn remove_value(entries: &mut Vec<(Branch, Vec<Branch>)>, pos: usize, value: Branch, n: usize)
        requires
            entries_ok(old(entries)@, n as nat),
            pos < old(entries)@.len(),
        ensures
            entries_ok(final(entries)@, n as nat),
            final(entries)@.len() == old(entries)@.len(),
            forall|i: int| 0 <= i < old(entries)@.len() && i != pos ==> final(entries)@[i] == old(entries)@[i],
            final(entries)@[pos as int].0 == old(entries)@[pos as int].0,
            final(entries)@[pos as int].1@ == old(entries)@[pos as int].1@.filter(other_than(value)),
            entries_within(final(entries)@, old(entries)@),
    {
        let (k, values) = entries.remove(pos);
        let mut kept: Vec<Branch> = Vec::new();
        let mut t: usize = 0;
        while t < values.len()
            invariant
                t <= values.len(),
                forall|j: int| 0 <= j < values@.len() ==> (#[trigger] values@[j]).belong_to.idx < n,
                forall|j: int| 0 <= j < kept@.len() ==> (#[trigger] kept@[j]).belong_to.idx < n,
                kept@ == values@.take(t as int).filter(other_than(value)),
            decreases values.len() - t,
        {
            proof {
                assert(values@.take(t as int + 1) == values@.take(t as int).push(values@[t as int]));
                values@.take(t as int).lemma_filter_push(values@[t as int], other_than(value));
            }
            if !(values[t] == value) {
                kept.push(values[t]);
            }
            t = t + 1;
        }
        assert(values@.take(t as int) == values@);
        assert(k == old(entries)@[pos as int].0);
        entries.insert(pos, (k, kept));
        assert(entries_ok(entries@, n as nat)) by {
            assert forall|i: int| 0 <= i < entries@.len() implies {
                &&& entries@[i].0.belong_to.idx < n
                &&& forall|j: int| 0 <= j < entries@[i].1@.len() ==> (#[trigger] entries@[i].1@[j]).belong_to.idx < n
            } by {
                if i != pos {
                    assert(entries@[i] == old(entries)@[i]);
                }
            }
        }
        assert forall|i: int| 0 <= i < old(entries)@.len() && i != pos implies entries@[i] == old(entries)@[i] by {}
        assert forall|k: Branch, v: Branch| #[trigger] entry_has(entries@, k, v) implies entry_has(old(entries)@, k, v) by {
            let i = choose|i: int| 0 <= i < entries@.len() && (#[trigger] entries@[i]).0 == k && entries@[i].1@.contains(v);
            if i == pos {
                old(entries)@[pos as int].1@.lemma_filter_contains_rev(other_than(value), v);
            }
        }
    }

    /// Adds a group built from the branch builders. Every builder that is still possible
    /// gives one branch for each merged list of the branches it depends on, which stays alive
    /// as long as those do; a builder that was given up gives a failed branch; a builder some
    /// of whose dependencies have no acceptable branch gives nothing. Afterwards, in each group
    /// that a builder depended on, only the branches that some new branch uses stay alive.
    #[verifier::rlimit(40)]
    #[verifier::spinoff_prover]
    pub fn build_group(&mut self, gb: GroupBuilder) -> (g: GroupIdx)
        requires
            old(self).wf(),
            forall|k: int, j: int| 0 <= k < gb.branches@.len() && 0 <= j < gb.branches@[k].depends.depends@.len() ==>
                (#[trigger] gb.branches@[k].depends.depends@[j]).0.idx < old(self).spec_groups().len(),
        ensures
            final(self).wf(),
            final(self).extends(*old(self)),
            final(self).spec_groups().len() == old(self).spec_groups().len() + 1,
            g.idx == old(self).spec_groups().len(),
            final(self).spec_groups()[g.idx as int].spec_span() == gb.span,
            forall|b: Branch| #[trigger] final(self).spec_alive(b) && b.belong_to == g ==>
                exists|k: int| 0 <= k < gb.branches@.len() && gb.branches@[k].state == Ok::<Type, DeclareError>(final(self).spec_branch(b)),
            forall|k: int| 0 <= k < gb.branches@.len() ==> ((#[trigger] gb.branches@[k]).state matches Err(e) ==>
                exists|i: usize| i < final(self).spec_groups()[g.idx as int].spec_slots().len()
                    && final(self).spec_slot(Branch { belong_to: g, branch_idx: i }) == BranchSlot::Failed(e)),
            forall|b: Branch| #[trigger] final(self).spec_alive(b) && b.belong_to.idx < old(self).spec_groups().len()
                && depended_by_builders(gb.branches@, b.belong_to) ==> used_by_builders(gb.branches@, b),
            forall|k: int, j: int| 0 <= k < gb.branches@.len() && gb.branches@[k].state is Ok
                && !gb.branches@[k].depends.spec_has_empty()
                && 0 <= j < merged_lists(gb.branches@[k].depends.depends@).len()
                ==> #[trigger] gives_branch(*final(self), g, gb.branches@[k], j),
    {
        let n = self.groups.len();
        let gidx = GroupIdx::new(n);
        let ghost all = gb.branches@;
        let (slots, new_deps, mut used) = place_builders(gb.branches, n);

        let ghost mid = *self;
        let ghost used0 = used@;
        assert(marks_ok(all, used0));
        let ghost final_slots = slots@;
        let slots_len = slots.len();
        let g = self.new_group_inner(gb.span, slots);
        let ghost nd = new_deps@;
        proof {
            assert forall|i: int, x: Branch| 0 <= i < nd.len() && #[trigger] entry_has(self.spec_rdeps(), x, Branch { belong_to: g, branch_idx: nd[i].0 })
                implies nd[i].1@.contains(x) by {
                lemma_entries_ok_has(self.spec_rdeps(), n as nat, x, Branch { belong_to: g, branch_idx: nd[i].0 });
            }
            assert forall|i: int, r: Branch| 0 <= i < nd.len() implies !#[trigger] entry_has(self.spec_deps(), r, Branch { belong_to: g, branch_idx: nd[i].0 }) by {
                if entry_has(self.spec_deps(), r, Branch { belong_to: g, branch_idx: nd[i].0 }) {
                    lemma_entries_ok_has(self.spec_deps(), n as nat, r, Branch { belong_to: g, branch_idx: nd[i].0 });
                }
            }
        }
        assert forall|k: int| 0 <= k < all.len() implies ((#[trigger] all[k]).state matches Err(e) ==>
            exists|i: usize| i < self.spec_groups()[g.idx as int].spec_slots().len()
                && self.spec_slot(Branch { belong_to: g, branch_idx: i }) == BranchSlot::Failed(e)) by {
            if all[k].state is Err {
                let i = choose|i: int| 0 <= i < final_slots.len() && final_slots[i] == BranchSlot::Failed(all[k].state->Err_0);
                assert(self.spec_groups()[g.idx as int] == self.spec_groups().last());
                assert(i < slots_len);
                assert((i as usize) as int == i);
                assert(self.spec_slot(Branch { belong_to: g, branch_idx: i as usize }) == final_slots[i]);
            }
        }
        let mut d: usize = 0;
        while d < new_deps.len()
            invariant
                self.wf(),
                self.extends(mid),
                self.spec_groups().len() == n + 1,
                self.spec_groups()[g.idx as int].spec_span() == gb.span,
                g.idx == n,
                forall|b: Branch| #[trigger] self.spec_alive(b) && b.belong_to == g ==>
                    exists|k: int| 0 <= k < all.len() && all[k].state == Ok::<Type, DeclareError>(self.spec_branch(b)),
                forall|i: int, j: int| 0 <= i < new_deps@.len() && 0 <= j < new_deps@[i].1@.len() ==> (#[trigger] new_deps@[i].1@[j]).belong_to.idx < n,
                used@ == used0,
                forall|k: int| 0 <= k < all.len() ==> ((#[trigger] all[k]).state matches Err(e) ==>
                    exists|i: usize| i < self.spec_groups()[g.idx as int].spec_slots().len()
                        && self.spec_slot(Branch { belong_to: g, branch_idx: i }) == BranchSlot::Failed(e)),
                new_deps@ == nd,
                new_slots_ok(nd, final_slots),
                self.spec_groups()[g.idx as int].spec_slots() == final_slots,
                forall|i: int, x: Branch| 0 <= i < nd.len() && #[trigger] entry_has(self.spec_rdeps(), x, Branch { belong_to: g, branch_idx: nd[i].0 })
                    ==> nd[i].1@.contains(x),
                forall|i: int, r: Branch| 0 <= i < nd.len() ==> !#[trigger] entry_has(self.spec_deps(), r, Branch { belong_to: g, branch_idx: nd[i].0 }),
            decreases new_deps.len() - d,
        {
            let who = Branch::new(g, new_deps[d].0);
            let list = clone_branch_list(&new_deps[d].1);
            let ghost list_v = list@;
            let ghost before = *self;
            self.insert_depends(who, list);
            assert(self.spec_groups() == before.spec_groups());
            proof {
                assert forall|k: int| 0 <= k < all.len() implies ((#[trigger] all[k]).state matches Err(e) ==>
                    exists|i: usize| i < self.spec_groups()[g.idx as int].spec_slots().len()
                        && self.spec_slot(Branch { belong_to: g, branch_idx: i }) == BranchSlot::Failed(e)) by {
                    if all[k].state is Err {
                        let i = choose|i: usize| i < before.spec_groups()[g.idx as int].spec_slots().len()
                            && before.spec_slot(Branch { belong_to: g, branch_idx: i }) == BranchSlot::Failed(all[k].state->Err_0);
                        assert(self.spec_slot(Branch { belong_to: g, branch_idx: i }) == before.spec_slot(Branch { belong_to: g, branch_idx: i }));
                    }
                }
                self.lemma_same_groups_extends(before, mid);
                assert forall|i: int, x: Branch| 0 <= i < nd.len() && #[trigger] entry_has(self.spec_rdeps(), x, Branch { belong_to: g, branch_idx: nd[i].0 })
                    implies nd[i].1@.contains(x) by {
                    if !entry_has(before.spec_rdeps(), x, Branch { belong_to: g, branch_idx: nd[i].0 }) {
                        reveal(new_slots_ok);
                        if i != d {
                            if i < d { assert(nd[i].0 < nd[d as int].0); } else { assert(nd[d as int].0 < nd[i].0); }
                        }
                    }
                }
                assert forall|i: int, r: Branch| 0 <= i < nd.len() implies !#[trigger] entry_has(self.spec_deps(), r, Branch { belong_to: g, branch_idx: nd[i].0 }) by {
                    let b = Branch { belong_to: g, branch_idx: nd[i].0 };
                    if entry_has(self.spec_deps(), r, b) {
                        assert(!entry_has(before.spec_deps(), r, b));
                        assert(list_v.contains(b));
                        let jj = choose|jj: int| 0 <= jj < list_v.len() && list_v[jj] == b;
                        assert(new_deps@[d as int].1@[jj].belong_to.idx < n);
                    }
                }
                assert forall|b: Branch| #[trigger] self.spec_alive(b) && b.belong_to == g implies
                    exists|k: int| 0 <= k < all.len() && all[k].state == Ok::<Type, DeclareError>(self.spec_branch(b)) by {
                    assert(before.spec_alive(b));
                }
            }
            d = d + 1;
        }

        let ghost prune_start = *self;
        assert(entries_within(self.spec_deps(), prune_start.spec_deps()));
        assert(entries_within(self.spec_rdeps(), prune_start.spec_rdeps()));
        assert(deaths_justified(prune_start, *self, |c: Branch| c.belong_to.idx < n));
        while used.len() > 0
            invariant
                marks_ok(all, used0),
                forall|k: int, j: int| 0 <= k < all.len() && all[k].state is Ok && !all[k].depends.spec_has_empty()
                    && 0 <= j < all[k].depends.depends@.len() ==> has_key(used0, (#[trigger] all[k].depends.depends@[j]).0),
                used@.len() <= used0.len(),
                used@ == used0.subrange(used0.len() - used@.len(), used0.len() as int),
                self.shrinks_from(prune_start),
                entries_within(self.spec_deps(), prune_start.spec_deps()),
                entries_within(self.spec_rdeps(), prune_start.spec_rdeps()),
                deaths_justified(prune_start, *self, |c: Branch| c.belong_to.idx < n),
                forall|b: Branch| #[trigger] self.spec_alive(b) && processed_key(used0, used0.len() - used@.len(), b.belong_to)
                    ==> used_by_builders(all, b),
                self.wf(),
                self.extends(mid),
                self.spec_groups().len() == n + 1,
                self.spec_groups()[g.idx as int].spec_span() == gb.span,
                g.idx == n,
                forall|b: Branch| #[trigger] self.spec_alive(b) && b.belong_to == g ==>
                    exists|k: int| 0 <= k < all.len() && all[k].state == Ok::<Type, DeclareError>(self.spec_branch(b)),
                forall|i: int| 0 <= i < used@.len() ==> (#[trigger] used@[i]).0.idx < n,
                forall|k: int| 0 <= k < all.len() ==> ((#[trigger] all[k]).state matches Err(e) ==>
                    exists|i: usize| i < self.spec_groups()[g.idx as int].spec_slots().len()
                        && self.spec_slot(Branch { belong_to: g, branch_idx: i }) == BranchSlot::Failed(e)),
            decreases used.len(),
        {
            let ghost m0 = used0.len() - used@.len();
            assert(used@[0] == used0[m0]);
            assert(used@[0].0.idx < n);
            let (group, mut marks) = used.remove(0);
            let ghost inner_start = *self;
            let alives = self.group_alives(group);
            assert forall|m: int| 0 <= m < marks@.len() && (#[trigger] marks@[m]).1 is Used implies
                used_by_builders(all, Branch { belong_to: group, branch_idx: marks@[m].0 }) by {
                assert(used0[m0].1@[m] == marks@[m]);
            }
            let mut a: usize = 0;
            while a < alives.len()
                invariant
                    self.shrinks_from(inner_start),
                    inner_start.shrinks_from(prune_start),
                    group.idx < n,
                    entries_within(self.spec_deps(), prune_start.spec_deps()),
                    entries_within(self.spec_rdeps(), prune_start.spec_rdeps()),
                    deaths_justified(prune_start, *self, |c: Branch| c.belong_to.idx < n),
                    forall|k: int| 0 <= k < alives@.len() ==> (#[trigger] alives@[k]).0.belong_to == group
                        && inner_start.spec_alive(alives@[k].0),
                    forall|b: Branch| b.belong_to == group && inner_start.spec_alive(b) ==> exists|k: int| 0 <= k < alives@.len() && alives@[k].0 == b,
                    forall|m: int| 0 <= m < marks@.len() && (#[trigger] marks@[m]).1 is Used ==>
                        used_by_builders(all, Branch { belong_to: group, branch_idx: marks@[m].0 }),
                    forall|k: int| 0 <= k < a ==> !self.spec_alive(#[trigger] alives@[k].0) || used_by_builders(all, alives@[k].0),
                    forall|b: Branch| #[trigger] self.spec_alive(b) && processed_key(used0, m0, b.belong_to) ==> used_by_builders(all, b),
                    a <= alives.len(),
                    self.wf(),
                    self.extends(mid),
                    self.spec_groups().len() == n + 1,
                    self.spec_groups()[g.idx as int].spec_span() == gb.span,
                    g.idx == n,
                    forall|b: Branch| #[trigger] self.spec_alive(b) && b.belong_to == g ==>
                        exists|k: int| 0 <= k < all.len() && all[k].state == Ok::<Type, DeclareError>(self.spec_branch(b)),
                    forall|k: int| 0 <= k < alives@.len() ==> (#[trigger] alives@[k]).0.belong_to.idx < n + 1,
                    forall|k: int| 0 <= k < all.len() ==> ((#[trigger] all[k]).state matches Err(e) ==>
                        exists|i: usize| i < self.spec_groups()[g.idx as int].spec_slots().len()
                            && self.spec_slot(Branch { belong_to: g, branch_idx: i }) == BranchSlot::Failed(e)),
                decreases alives.len() - a,
            {
                let branch = alives[a].0;
                let ghost before_mark = marks@;
                let reason = match find_mark(&marks, branch.branch_idx) {
                    Some(pos) => {
                        let (_, m) = marks.remove(pos);
                        proof {
                            assert(m == before_mark[pos as int].1);
                            if m is Used {
                                assert(branch == Branch { belong_to: group, branch_idx: before_mark[pos as int].0 });
                            }
                            assert forall|mm: int| 0 <= mm < marks@.len() && (#[trigger] marks@[mm]).1 is Used implies
                                used_by_builders(all, Branch { belong_to: group, branch_idx: marks@[mm].0 }) by {
                                if mm < pos {
                                    assert(marks@[mm] == before_mark[mm]);
                                } else {
                                    assert(marks@[mm] == before_mark[mm + 1]);
                                }
                            }
                        }
                        match m {
                            BranchMark::Used => None,
                            BranchMark::Error(e) => Some(e.with_location(gb.span)),
                        }
                    },
                    None => Some(DeclareError::NeverUsed { in_group: gb.span, reason: None }),
                };
                match reason {
                    Some(r) => {
                        let ghost before = *self;
                        self.remove_branch(branch, Rc::new(r));
                        proof {
                            lemma_entries_within_trans(self.spec_deps(), before.spec_deps(), prune_start.spec_deps());
                            lemma_entries_within_trans(self.spec_rdeps(), before.spec_rdeps(), prune_start.spec_rdeps());
                            lemma_justified_step(prune_start, before, *self, |c: Branch| c.belong_to.idx < n, |c: Branch| c == branch, branch);
                            self.lemma_shrinks_trans(before, inner_start);
                            assert forall|k: int| 0 <= k < a + 1 implies !self.spec_alive(#[trigger] alives@[k].0) || used_by_builders(all, alives@[k].0) by {
                                if k < a && self.spec_alive(alives@[k].0) {
                                    assert(before.spec_alive(alives@[k].0));
                                }
                            }
                            assert forall|b: Branch| #[trigger] self.spec_alive(b) && processed_key(used0, m0, b.belong_to) implies used_by_builders(all, b) by {
                                assert(before.spec_alive(b));
                            }
                            self.lemma_shrinks_extends(before, mid);
                            assert forall|k: int| 0 <= k < all.len() implies ((#[trigger] all[k]).state matches Err(e) ==>
                                exists|i: usize| i < self.spec_groups()[g.idx as int].spec_slots().len()
                                    && self.spec_slot(Branch { belong_to: g, branch_idx: i }) == BranchSlot::Failed(e)) by {
                                if all[k].state is Err {
                                    let i = choose|i: usize| i < before.spec_groups()[g.idx as int].spec_slots().len()
                                        && before.spec_slot(Branch { belong_to: g, branch_idx: i }) == BranchSlot::Failed(all[k].state->Err_0);
                                    let bb = Branch { belong_to: g, branch_idx: i };
                                    assert(before.has_slot(bb));
                                    assert(!before.spec_alive(bb));
                                    assert(self.spec_slot(bb) == before.spec_slot(bb));
                                }
                            }
                        }
                    },
                    None => {},
                }
                a = a + 1;
            }
            proof {
                self.lemma_shrinks_trans(inner_start, prune_start);
                assert forall|b: Branch| #[trigger] self.spec_alive(b) && processed_key(used0, m0 + 1, b.belong_to) implies used_by_builders(all, b) by {
                    if !processed_key(used0, m0, b.belong_to) {
                        assert(b.belong_to == group);
                        assert(inner_start.spec_alive(b));
                        let k = choose|k: int| 0 <= k < alives@.len() && alives@[k].0 == b;
                        assert(self.spec_alive(alives@[k].0));
                    }
                }
                assert(used@ =~= used0.subrange(used0.len() - used@.len(), used0.len() as int));
            }
        }
        proof {
            assert forall|b: Branch| #[trigger] self.spec_alive(b) && b.belong_to.idx < n && depended_by_builders(all, b.belong_to)
                implies used_by_builders(all, b) by {
                let (k, j) = choose|k: int, j: int| 0 <= k < all.len() && all[k].state is Ok && !all[k].depends.spec_has_empty()
                    && 0 <= j < all[k].depends.depends@.len() && (#[trigger] all[k].depends.depends@[j]).0 == b.belong_to;
                assert(has_key(used0, all[k].depends.depends@[j].0));
                let i = choose|i: int| 0 <= i < used0.len() && (#[trigger] used0[i]).0 == b.belong_to;
                assert(processed_key(used0, used0.len() as int, b.belong_to));
            }
            reveal(builders_placed);
            assert forall|k: int, j: int| 0 <= k < all.len() && all[k].state is Ok
                && !all[k].depends.spec_has_empty()
                && 0 <= j < merged_lists(all[k].depends.depends@).len()
                implies #[trigger] gives_branch(*self, g, all[k], j) by {
                assert(placed(all, k, j, nd, final_slots));
                let l = merged_lists(all[k].depends.depends@)[j];
                let t = all[k].state->Ok_0;
                let i = choose|i: int| 0 <= i < nd.len() && nd[i].1@ =~= l && final_slots[nd[i].0 as int] == BranchSlot::Alive(t);
                reveal(new_slots_ok);
                let idx = nd[i].0;
                let b = Branch { belong_to: g, branch_idx: idx };
                assert(prune_start.spec_slot(b) == BranchSlot::Alive(t));
                assert(prune_start.spec_alive(b));
                if forall|x: Branch| l.contains(x) ==> #[trigger] self.spec_alive(x) {
                    if !self.spec_alive(b) {
                        assert(b.belong_to.idx == n);
                        if exists|d: Branch| #[trigger] entry_has(prune_start.spec_rdeps(), d, b) && !self.spec_alive(d) {
                            let d = choose|d: Branch| #[trigger] entry_has(prune_start.spec_rdeps(), d, b) && !self.spec_alive(d);
                            assert(nd[i].1@.contains(d));
                            assert(l.contains(d));
                        } else {
                            let r = choose|r: Branch| #[trigger] entry_has(prune_start.spec_deps(), r, b) && !self.spec_alive(r);
                            assert(!entry_has(prune_start.spec_deps(), r, b));
                        }
                    }
                }
                assert(idx < self.spec_groups()[g.idx as int].spec_slots().len());
            }
        }
        g
    }

    /// Gives up the alive branches of a group that do not satisfy the filter: all of them
    /// first, with the reason that what the filter expects was expected at the group, then
    /// with what depends on them.
    pub fn apply_filter<B: BranchFilter>(&mut self, gidx: GroupIdx, defs: &Defs, filter: &B, kind: TypesKind)
        requires
            old(self).wf(),
            gidx.idx < old(self).spec_groups().len(),
        ensures
            final(self).wf(),
            final(self).shrinks_from(*old(self)),
            forall|b: Branch| #[trigger] final(self).spec_alive(b) && b.belong_to == gidx ==> filter.spec_satisfy(final(self).spec_branch(b)),
            forall|b: Branch| old(self).spec_alive(b) && b.belong_to == gidx && !filter.spec_satisfy(old(self).spec_branch(b)) ==>
                (#[trigger] final(self).spec_slot(b) matches BranchSlot::Failed(DeclareError::WithPrevious { previous, error })
                    && previous == old(self).spec_branch(b)
                    && (*error matches DeclareError::Shared { err } && refused_at(*err,
                        old(self).spec_groups()[gidx.idx as int].spec_span(), filter.spec_expect(*defs, kind)))),
            entries_within(final(self).spec_deps(), old(self).spec_deps()),
            entries_within(final(self).spec_rdeps(), old(self).spec_rdeps()),
            deaths_justified(*old(self), *final(self),
                |c: Branch| c.belong_to == gidx && !filter.spec_satisfy(old(self).spec_branch(c))),
            forall|c: Branch, x: Branch, n: nat| old(self).spec_alive(c) && c.belong_to == gidx
                && !filter.spec_satisfy(old(self).spec_branch(c))
                && #[trigger] depends_within(old(self).spec_rdeps(), c, x, n) ==> !final(self).spec_alive(x),
    {
        let location = self.group_span(gidx);
        let reason = Rc::new(DeclareError::Unexpect { expect: filter.expect(defs, kind) }.with_location(location));
        assert(refused_at(*reason, location, filter.spec_expect(*defs, kind)));
        let alives = self.group_alives(gidx);
        let gi = gidx.idx;
        let ghost start = *self;
        // first every branch that fails the filter is given up in the group, with the reason
        let _ = self.groups[gi].remove_branches(
            (|_b: Branch, t: &Type| -> (r: bool) ensures r == !filter.spec_satisfy(*t) { !filter.satisfy(t) }),
            &reason,
        );
        proof {
            assert(self.spec_groups() =~= start.spec_groups().update(gi as int, self.spec_groups()[gi as int]));
            self.lemma_group_shrink(start, gi as int);
            assert forall|k: int| 0 <= k < alives@.len() implies (!filter.spec_satisfy((#[trigger] alives@[k]).1) ==>
                self.spec_slot(alives@[k].0) == BranchSlot::Failed(DeclareError::WithPrevious {
                    previous: alives@[k].1, error: Box::new(DeclareError::Shared { err: reason }) }))
                && (!self.spec_alive(alives@[k].0) || filter.spec_satisfy(alives@[k].1)) by {
                let b = alives@[k].0;
                assert(start.spec_groups()[gi as int].spec_alive(b.branch_idx));
                assert(start.spec_groups()[gi as int].spec_group() == gidx);
            }
            assert forall|x: Branch| #[trigger] start.spec_alive(x) && !self.spec_alive(x) implies
                x.belong_to == gidx && !filter.spec_satisfy(start.spec_branch(x)) by {
                if x.belong_to.idx != gi {
                    assert(self.spec_groups()[x.belong_to.idx as int] == start.spec_groups()[x.belong_to.idx as int]);
                }
                assert(start.spec_groups()[gi as int].spec_group() == gidx);
            }
            assert(deaths_justified(start, *self, |c: Branch| c.belong_to == gidx && !filter.spec_satisfy(start.spec_branch(c))));
            assert forall|k: Branch| #[trigger] key_in(self.spec_rdeps(), k) implies key_in(start.spec_rdeps(), k) by {}
        }
        let ghost marked = *self;
        let mut a: usize = 0;
        while a < alives.len()
            invariant
                self.wf(),
                self.shrinks_from(marked),
                marked.shrinks_from(start),
                self.shrinks_from(start),
                start.wf(),
                gidx.idx < start.spec_groups().len(),
                a <= alives.len(),
                forall|k: int| 0 <= k < alives@.len() ==> (#[trigger] alives@[k]).0.belong_to == gidx
                    && start.spec_alive(alives@[k].0) && alives@[k].1 == start.spec_branch(alives@[k].0),
                forall|b: Branch| b.belong_to == gidx && start.spec_alive(b) ==> exists|k: int| 0 <= k < alives@.len() && alives@[k].0 == b,
                forall|k: int| 0 <= k < alives@.len() ==> (!filter.spec_satisfy((#[trigger] alives@[k]).1) ==>
                    marked.spec_slot(alives@[k].0) == BranchSlot::Failed(DeclareError::WithPrevious {
                        previous: alives@[k].1, error: Box::new(DeclareError::Shared { err: reason }) }))
                    && (!marked.spec_alive(alives@[k].0) || filter.spec_satisfy(alives@[k].1)),
                entries_within(self.spec_deps(), start.spec_deps()),
                entries_within(self.spec_rdeps(), start.spec_rdeps()),
                deaths_justified(start, *self, |c: Branch| c.belong_to == gidx && !filter.spec_satisfy(start.spec_branch(c))),
                keys_within(self.spec_rdeps(), start.spec_rdeps()),
                lost_links_closed(start.spec_rdeps(), self.spec_rdeps(), *self),
                forall|k: int| 0 <= k < a && !filter.spec_satisfy((#[trigger] alives@[k]).1) ==> !key_in(self.spec_rdeps(), alives@[k].0),
            decreases alives.len() - a,
        {
            if !filter.satisfy(&alives[a].1) {
                let ghost before = *self;
                self.remove_branch(alives[a].0, share_error(&reason));
                proof {
                    self.lemma_shrinks_trans(before, marked);
                    self.lemma_shrinks_trans(before, start);
                    let sub = alives@[a as int].0;
                    lemma_entries_within_trans(self.spec_deps(), before.spec_deps(), start.spec_deps());
                    lemma_entries_within_trans(self.spec_rdeps(), before.spec_rdeps(), start.spec_rdeps());
                    lemma_justified_step(start, before, *self,
                        |c: Branch| c.belong_to == gidx && !filter.spec_satisfy(start.spec_branch(c)), |c: Branch| c == sub, sub);
                    lemma_lost_trans(start.spec_rdeps(), before.spec_rdeps(), self.spec_rdeps(), before, *self);
                    assert forall|k: Branch| #[trigger] key_in(self.spec_rdeps(), k) implies key_in(start.spec_rdeps(), k) by {
                        assert(key_in(before.spec_rdeps(), k));
                    }
                    assert forall|k: int| 0 <= k < a + 1 && !filter.spec_satisfy((#[trigger] alives@[k]).1) implies
                        !key_in(self.spec_rdeps(), alives@[k].0) by {
                        if k < a {
                            assert(!key_in(before.spec_rdeps(), alives@[k].0));
                        }
                    }
                }
            }
            a = a + 1;
        }
        proof {
            assert forall|b: Branch| #[trigger] self.spec_alive(b) && b.belong_to == gidx implies filter.spec_satisfy(self.spec_branch(b)) by {
                assert(start.spec_alive(b));
                let k = choose|k: int| 0 <= k < alives@.len() && alives@[k].0 == b;
                assert(marked.spec_alive(alives@[k].0));
            }
            assert forall|b: Branch| start.spec_alive(b) && b.belong_to == gidx && !filter.spec_satisfy(start.spec_branch(b)) implies
                (#[trigger] self.spec_slot(b) matches BranchSlot::Failed(DeclareError::WithPrevious { previous, error })
                    && previous == start.spec_branch(b)
                    && (*error matches DeclareError::Shared { err } && refused_at(*err,
                        start.spec_groups()[gidx.idx as int].spec_span(), filter.spec_expect(*defs, kind)))) by {
                let k = choose|k: int| 0 <= k < alives@.len() && alives@[k].0 == b;
                assert(!filter.spec_satisfy(alives@[k].1));
                assert(marked.has_slot(b));
                assert(!marked.spec_alive(b));
                assert(self.spec_slot(b) == marked.spec_slot(b));
            }
            assert forall|c: Branch, x: Branch, n: nat| start.spec_alive(c) && c.belong_to == gidx
                && !filter.spec_satisfy(start.spec_branch(c))
                && #[trigger] depends_within(start.spec_rdeps(), c, x, n) implies !self.spec_alive(x) by {
                let k = choose|k: int| 0 <= k < alives@.len() && alives@[k].0 == c;
                assert(!filter.spec_satisfy(alives@[k].1));
                assert(!key_in(self.spec_rdeps(), alives@[k].0));
                assert(!self.spec_alive(c)) by {
                    assert(!marked.spec_alive(alives@[k].0));
                }
                law_removal_transitive(start, *self, c, x, n);
            }
        }
    }

    /// Declares that a group has the given type: its branches of other types are given up,
    /// all of them first with the reason that another type was expected at `at`, then with
    /// what depends on them. Fails, with that reason, when no branch of the group had the
    /// type, the group being declared as another type or none of its branches matching.
    pub fn declare_type(&mut self, at: Span, gidx: GroupIdx, expect_ty: &TypeDefine) -> (r: Result<(), DeclareError>)
        requires
            old(self).wf(),
            gidx.idx < old(self).spec_groups().len(),
        ensures
            r is Err <==> !exists|b: Branch| #[trigger] old(self).spec_alive(b) && b.belong_to == gidx
                && old(self).spec_branch(b).spec_type() == expect_ty@,
            r matches Err(e) ==> (e matches DeclareError::Shared { err } && unexpected_at(*err, at, type_text(expect_ty@))),
            final(self).wf(),
            final(self).shrinks_from(*old(self)),
            forall|b: Branch| #[trigger] final(self).spec_alive(b) && b.belong_to == gidx ==> final(self).spec_branch(b).spec_type() == expect_ty@,
            forall|b: Branch| old(self).spec_alive(b) && b.belong_to == gidx && old(self).spec_branch(b).spec_type() != expect_ty@ ==>
                (#[trigger] final(self).spec_slot(b) matches BranchSlot::Failed(DeclareError::WithPrevious { previous, error })
                    && previous == old(self).spec_branch(b)
                    && (*error matches DeclareError::Shared { err } && unexpected_at(*err, at, type_text(expect_ty@)))),
            entries_within(final(self).spec_deps(), old(self).spec_deps()),
            entries_within(final(self).spec_rdeps(), old(self).spec_rdeps()),
            deaths_justified(*old(self), *final(self),
                |c: Branch| c.belong_to == gidx && old(self).spec_branch(c).spec_type() != expect_ty@),
            forall|c: Branch, x: Branch, n: nat| old(self).spec_alive(c) && c.belong_to == gidx
                && old(self).spec_branch(c).spec_type() != expect_ty@
                && #[trigger] depends_within(old(self).spec_rdeps(), c, x, n) ==> !final(self).spec_alive(x),
    {
        let reason = Rc::new(
            DeclareError::Unexpect { expect: crate::text::type_to_string(expect_ty) }.into_shared().with_location(at),
        );
        assert(unexpected_at(*reason, at, type_text(expect_ty@)));
        let alives = self.group_alives(gidx);
        let gi = gidx.idx;
        let ghost start = *self;
        let mut found = false;
        let mut a: usize = 0;
        while a < alives.len()
            invariant
                a <= alives.len(),
                found <==> exists|k: int| 0 <= k < a && (#[trigger] alives@[k]).1.spec_type() == expect_ty@,
            decreases alives.len() - a,
        {
            if alives[a].1.get_type().same_as(expect_ty) {
                found = true;
            }
            a = a + 1;
        }
        // first every branch of another type is given up in the group, with the reason
        let _ = self.groups[gi].remove_branches(
            (|_b: Branch, t: &Type| -> (r: bool) ensures r == (t.spec_type() != expect_ty@) { !t.get_type().same_as(expect_ty) }),
            &reason,
        );
        proof {
            assert(self.spec_groups() =~= start.spec_groups().update(gi as int, self.spec_groups()[gi as int]));
            self.lemma_group_shrink(start, gi as int);
            assert forall|k: int| 0 <= k < alives@.len() implies ((#[trigger] alives@[k]).1.spec_type() != expect_ty@ ==>
                self.spec_slot(alives@[k].0) == BranchSlot::Failed(DeclareError::WithPrevious {
                    previous: alives@[k].1, error: Box::new(DeclareError::Shared { err: reason }) }))
                && (!self.spec_alive(alives@[k].0) || alives@[k].1.spec_type() == expect_ty@) by {
                let b = alives@[k].0;
                assert(start.spec_groups()[gi as int].spec_alive(b.branch_idx));
                assert(start.spec_groups()[gi as int].spec_group() == gidx);
            }
            assert forall|x: Branch| #[trigger] start.spec_alive(x) && !self.spec_alive(x) implies
                x.belong_to == gidx && start.spec_branch(x).spec_type() != expect_ty@ by {
                if x.belong_to.idx != gi {
                    assert(self.spec_groups()[x.belong_to.idx as int] == start.spec_groups()[x.belong_to.idx as int]);
                }
                assert(start.spec_groups()[gi as int].spec_group() == gidx);
            }
        }
        let ghost marked = *self;
        assert(deaths_justified(start, marked, |c: Branch| c.belong_to == gidx && start.spec_branch(c).spec_type() != expect_ty@));
        proof {
            if exists|b: Branch| #[trigger] start.spec_alive(b) && b.belong_to == gidx && start.spec_branch(b).spec_type() == expect_ty@ {
                let b = choose|b: Branch| #[trigger] start.spec_alive(b) && b.belong_to == gidx && start.spec_branch(b).spec_type() == expect_ty@;
                let k = choose|k: int| 0 <= k < alives@.len() && alives@[k].0 == b;
                assert(alives@[k].1.spec_type() == expect_ty@);
            }
        }
        let matched = found;
        proof {
            assert(marked.spec_rdeps() == start.spec_rdeps());
            assert forall|k: Branch| #[trigger] key_in(marked.spec_rdeps(), k) implies key_in(start.spec_rdeps(), k) by {}
        }
        let mut a: usize = 0;
        while a < alives.len()
            invariant
                matched <==> exists|b: Branch| #[trigger] start.spec_alive(b) && b.belong_to == gidx
                    && start.spec_branch(b).spec_type() == expect_ty@,
                unexpected_at(*reason, at, type_text(expect_ty@)),
                self.wf(),
                self.shrinks_from(marked),
                marked.shrinks_from(start),
                start.wf(),
                gidx.idx < start.spec_groups().len(),
                a <= alives.len(),
                forall|k: int| 0 <= k < alives@.len() ==> (#[trigger] alives@[k]).0.belong_to == gidx
                    && start.spec_alive(alives@[k].0) && alives@[k].1 == start.spec_branch(alives@[k].0),
                forall|b: Branch| b.belong_to == gidx && start.spec_alive(b) ==> exists|k: int| 0 <= k < alives@.len() && alives@[k].0 == b,
                forall|k: int| 0 <= k < alives@.len() ==> ((#[trigger] alives@[k]).1.spec_type() != expect_ty@ ==>
                    marked.spec_slot(alives@[k].0) == BranchSlot::Failed(DeclareError::WithPrevious {
                        previous: alives@[k].1, error: Box::new(DeclareError::Shared { err: reason }) })),
                forall|k: int| 0 <= k < alives@.len() ==> !marked.spec_alive(#[trigger] alives@[k].0) || alives@[k].1.spec_type() == expect_ty@,
                entries_within(self.spec_deps(), start.spec_deps()),
                entries_within(self.spec_rdeps(), start.spec_rdeps()),
                deaths_justified(start, *self, |c: Branch| c.belong_to == gidx && start.spec_branch(c).spec_type() != expect_ty@),
                keys_within(self.spec_rdeps(), start.spec_rdeps()),
                lost_links_closed(start.spec_rdeps(), self.spec_rdeps(), *self),
                forall|k: int| 0 <= k < a && (#[trigger] alives@[k]).1.spec_type() != expect_ty@ ==> !key_in(self.spec_rdeps(), alives@[k].0),
            decreases alives.len() - a,
        {
            if !alives[a].1.get_type().same_as(expect_ty) {
                let ghost before = *self;
                self.remove_branch(alives[a].0, share_error(&reason));
                proof {
                    lemma_lost_trans(start.spec_rdeps(), before.spec_rdeps(), self.spec_rdeps(), before, *self);
                    assert forall|k: Branch| #[trigger] key_in(self.spec_rdeps(), k) implies key_in(start.spec_rdeps(), k) by {
                        assert(key_in(before.spec_rdeps(), k));
                    }
                    assert forall|k: int| 0 <= k < a + 1 && (#[trigger] alives@[k]).1.spec_type() != expect_ty@ implies
                        !key_in(self.spec_rdeps(), alives@[k].0) by {
                        if k < a {
                            assert(!key_in(before.spec_rdeps(), alives@[k].0));
                        }
                    }
                    self.lemma_shrinks_trans(before, marked);
                    let sub = alives@[a as int].0;
                    lemma_entries_within_trans(self.spec_deps(), before.spec_deps(), start.spec_deps());
                    lemma_entries_within_trans(self.spec_rdeps(), before.spec_rdeps(), start.spec_rdeps());
                    lemma_justified_step(start, before, *self,
                        |c: Branch| c.belong_to == gidx && start.spec_branch(c).spec_type() != expect_ty@, |c: Branch| c == sub, sub);
                }
            }
            a = a + 1;
        }
        proof { self.lemma_shrinks_trans(marked, start); }
        assert forall|b: Branch| #[trigger] self.spec_alive(b) && b.belong_to == gidx implies self.spec_branch(b).spec_type() == expect_ty@ by {
            assert(start.spec_alive(b));
            let k = choose|k: int| 0 <= k < alives@.len() && alives@[k].0 == b;
            assert(marked.spec_alive(alives@[k].0));
        }
        assert forall|b: Branch| start.spec_alive(b) && b.belong_to == gidx && start.spec_branch(b).spec_type() != expect_ty@ implies
            (#[trigger] self.spec_slot(b) matches BranchSlot::Failed(DeclareError::WithPrevious { previous, error })
                && previous == start.spec_branch(b)
                && (*error matches DeclareError::Shared { err } && unexpected_at(*err, at, type_text(expect_ty@)))) by {
            let k = choose|k: int| 0 <= k < alives@.len() && alives@[k].0 == b;
            assert(alives@[k].1.spec_type() != expect_ty@);
            assert(marked.has_slot(b));
            assert(!marked.spec_alive(b));
            assert(self.spec_slot(b) == marked.spec_slot(b));
        }
        proof {
            assert forall|c: Branch, x: Branch, n: nat| start.spec_alive(c) && c.belong_to == gidx
                && start.spec_branch(c).spec_type() != expect_ty@
                && #[trigger] depends_within(start.spec_rdeps(), c, x, n) implies !self.spec_alive(x) by {
                let k = choose|k: int| 0 <= k < alives@.len() && alives@[k].0 == c;
                assert(alives@[k].1.spec_type() != expect_ty@);
                assert(!key_in(self.spec_rdeps(), alives@[k].0));
                assert(!self.spec_alive(c));
                law_removal_transitive(start, *self, c, x, n);
            }
        }
        if matched {
            Ok(())
        } else {
            Err(DeclareError::shared(&reason))
        }
    }

    /// Declares that two groups have the same type: the branches of each group whose type
    /// no branch of the other group has are given up.
    pub fn merge_group(&mut self, at: Span, base: GroupIdx, from: GroupIdx)
        requires
            old(self).wf(),
            base.idx < old(self).spec_groups().len(),
            from.idx < old(self).spec_groups().len(),
        ensures
            final(self).wf(),
            final(self).shrinks_from(*old(self)),
            forall|b: Branch| #[trigger] final(self).spec_alive(b) && b.belong_to == base ==> exists|f: Branch|
                f.belong_to == from && old(self).spec_alive(f) && old(self).spec_branch(f).spec_type() == final(self).spec_branch(b).spec_type(),
            forall|f: Branch| #[trigger] final(self).spec_alive(f) && f.belong_to == from ==> exists|b: Branch|
                b.belong_to == base && old(self).spec_alive(b) && old(self).spec_branch(b).spec_type() == final(self).spec_branch(f).spec_type(),
            entries_within(final(self).spec_deps(), old(self).spec_deps()),
            entries_within(final(self).spec_rdeps(), old(self).spec_rdeps()),
            deaths_justified(*old(self), *final(self), |c: Branch| (c.belong_to == from && !has_partner(*old(self), base, old(self).spec_branch(c))) || (c.belong_to == base && !has_partner(*old(self), from, old(self).spec_branch(c)))),
            forall|c: Branch| old(self).spec_alive(c) && ((c.belong_to == from && !has_partner(*old(self), base, old(self).spec_branch(c)))
                || (c.belong_to == base && !has_partner(*old(self), from, old(self).spec_branch(c)))) ==>
                (#[trigger] final(self).spec_slot(c) matches BranchSlot::Failed(DeclareError::WithPrevious { previous, error })
                    && previous == old(self).spec_branch(c) && (*error matches DeclareError::Shared { err } && filtered_at(*err, at))),
    {
        let froms = self.group_alives(from);
        let bases = self.group_alives(base);
        let ghost start = *self;
        // which branches of each group have a partner of the same type in the other group
        let mut from_kept: Vec<bool> = Vec::new();
        let mut i: usize = 0;
        while i < froms.len()
            invariant
                i <= froms.len(),
                from_kept@.len() == i,
                forall|k: int| 0 <= k < i ==> (#[trigger] from_kept@[k] <==> exists|j: int| 0 <= j < bases@.len() && bases@[j].1.spec_type() == froms@[k].1.spec_type()),
            decreases froms.len() - i,
        {
            let mut found = false;
            let mut j: usize = 0;
            while j < bases.len()
                invariant
                    i < froms.len(),
                    j <= bases.len(),
                    found <==> exists|jj: int| 0 <= jj < j && bases@[jj].1.spec_type() == froms@[i as int].1.spec_type(),
                decreases bases.len() - j,
            {
                if bases[j].1.get_type().same_as(froms[i].1.get_type()) {
                    found = true;
                }
                j = j + 1;
            }
            from_kept.push(found);
            i = i + 1;
        }
        let mut base_kept: Vec<bool> = Vec::new();
        let mut i: usize = 0;
        while i < bases.len()
            invariant
                i <= bases.len(),
                base_kept@.len() == i,
                forall|k: int| 0 <= k < i ==> (#[trigger] base_kept@[k] <==> exists|j: int| 0 <= j < froms@.len() && froms@[j].1.spec_type() == bases@[k].1.spec_type()),
            decreases bases.len() - i,
        {
            let mut found = false;
            let mut j: usize = 0;
            while j < froms.len()
                invariant
                    i < bases.len(),
                    j <= froms.len(),
                    found <==> exists|jj: int| 0 <= jj < j && froms@[jj].1.spec_type() == bases@[i as int].1.spec_type(),
                decreases froms.len() - j,
            {
                if froms[j].1.get_type().same_as(bases[i].1.get_type()) {
                    found = true;
                }
                j = j + 1;
            }
            base_kept.push(found);
            i = i + 1;
        }
        let reason = Rc::new(DeclareError::Filtered.with_location(at).into_shared());
        assert(filtered_at(*reason, at));
        // first every branch without a partner is given up in its own group, with the reason
        let fi = from.idx;
        let bi = base.idx;
        let ghost before1 = *self;
        let _ = self.groups[fi].remove_branches(
            (|_b: Branch, t: &Type| -> (r: bool) ensures r == !type_in(bases@, *t) { !type_among(&bases, t) }),
            &reason,
        );
        proof {
            assert(self.spec_groups() =~= before1.spec_groups().update(fi as int, self.spec_groups()[fi as int]));
            self.lemma_group_shrink(before1, fi as int);
        }
        let ghost mid1 = *self;
        let _ = self.groups[bi].remove_branches(
            (|_b: Branch, t: &Type| -> (r: bool) ensures r == !type_in(froms@, *t) { !type_among(&froms, t) }),
            &reason,
        );
        proof {
            assert(self.spec_groups() =~= mid1.spec_groups().update(bi as int, self.spec_groups()[bi as int]));
            self.lemma_group_shrink(mid1, bi as int);
            self.lemma_shrinks_trans(mid1, start);
        }
        let ghost marked = *self;
        proof {
            assert forall|c: Branch| #[trigger] start.spec_alive(c) && !marked.spec_alive(c) implies
                (c.belong_to == from && !has_partner(start, base, start.spec_branch(c)))
                || (c.belong_to == base && !has_partner(start, from, start.spec_branch(c))) by {
                if mid1.spec_alive(c) {
                    assert(c.belong_to.idx == bi);
                    assert(c.belong_to == base);
                    assert(!type_in(froms@, start.spec_branch(c)));
                    if has_partner(start, from, start.spec_branch(c)) {
                        let f = choose|f: Branch| f.belong_to == from && start.spec_alive(f) && start.spec_branch(f).spec_type() == start.spec_branch(c).spec_type();
                        let k = choose|k: int| 0 <= k < froms@.len() && froms@[k].0 == f;
                        assert(froms@[k].1.spec_type() == start.spec_branch(c).spec_type());
                        assert(type_in(froms@, start.spec_branch(c)));
                    }
                } else {
                    assert(c.belong_to.idx == fi);
                    assert(c.belong_to == from);
                    assert(!type_in(bases@, start.spec_branch(c)));
                    if has_partner(start, base, start.spec_branch(c)) {
                        let f = choose|f: Branch| f.belong_to == base && start.spec_alive(f) && start.spec_branch(f).spec_type() == start.spec_branch(c).spec_type();
                        let k = choose|k: int| 0 <= k < bases@.len() && bases@[k].0 == f;
                        assert(bases@[k].1.spec_type() == start.spec_branch(c).spec_type());
                        assert(type_in(bases@, start.spec_branch(c)));
                    }
                }
            }
            assert(deaths_justified(start, marked, |c: Branch| (c.belong_to == from && !has_partner(start, base, start.spec_branch(c))) || (c.belong_to == base && !has_partner(start, from, start.spec_branch(c)))));
            assert forall|c: Branch| start.spec_alive(c) && ((c.belong_to == from && !has_partner(start, base, start.spec_branch(c)))
                || (c.belong_to == base && !has_partner(start, from, start.spec_branch(c)))) implies
                (#[trigger] marked.spec_slot(c) == BranchSlot::Failed(DeclareError::WithPrevious {
                    previous: start.spec_branch(c), error: Box::new(DeclareError::Shared { err: reason }) })) by {
                let i = c.branch_idx;
                if c.belong_to == from {
                    if mid1.spec_alive(c) {
                        let k = choose|k: int| 0 <= k < bases@.len() && bases@[k].1.spec_type() == start.spec_branch(c).spec_type();
                        assert(bases@[k].0.belong_to == base && start.spec_alive(bases@[k].0));
                        assert(has_partner(start, base, start.spec_branch(c)));
                    }
                    assert(mid1.spec_slot(c) == BranchSlot::Failed(DeclareError::WithPrevious {
                        previous: start.spec_branch(c), error: Box::new(DeclareError::Shared { err: reason }) }));
                    assert(mid1.has_slot(c));
                } else {
                    assert(mid1.spec_alive(c));
                    if marked.spec_alive(c) {
                        let k = choose|k: int| 0 <= k < froms@.len() && froms@[k].1.spec_type() == mid1.spec_branch(c).spec_type();
                        assert(froms@[k].0.belong_to == from && start.spec_alive(froms@[k].0));
                        assert(has_partner(start, from, start.spec_branch(c)));
                    }
                }
            }
        }
        let mut a: usize = 0;
        while a < froms.len()
            invariant
                self.wf(),
                self.shrinks_from(marked),
                marked.shrinks_from(start),
                self.shrinks_from(start),
                a <= froms.len(),
                from_kept@.len() == froms@.len(),
                forall|k: int| 0 <= k < from_kept@.len() ==> (#[trigger] from_kept@[k] <==> exists|j: int| 0 <= j < bases@.len() && bases@[j].1.spec_type() == froms@[k].1.spec_type()),
                forall|k: int| 0 <= k < froms@.len() ==> (#[trigger] froms@[k]).0.belong_to == from
                    && start.spec_alive(froms@[k].0) && froms@[k].1 == start.spec_branch(froms@[k].0),
                forall|k: int| 0 <= k < a ==> !self.spec_alive(#[trigger] froms@[k].0) || from_kept@[k],
                from.idx < start.spec_groups().len(),
                forall|b: Branch| b.belong_to == base && start.spec_alive(b) ==> exists|k: int| 0 <= k < bases@.len() && bases@[k].0 == b,
                forall|k: int| 0 <= k < bases@.len() ==> (#[trigger] bases@[k]).0.belong_to == base
                    && start.spec_alive(bases@[k].0) && bases@[k].1 == start.spec_branch(bases@[k].0),
                entries_within(self.spec_deps(), start.spec_deps()),
                entries_within(self.spec_rdeps(), start.spec_rdeps()),
                deaths_justified(start, *self, |c: Branch| (c.belong_to == from && !has_partner(start, base, start.spec_branch(c))) || (c.belong_to == base && !has_partner(start, from, start.spec_branch(c)))),
            decreases froms.len() - a,
        {
            if !from_kept[a] {
                let ghost before = *self;
                self.remove_branch(froms[a].0, share_error(&reason));
                proof {
                    self.lemma_shrinks_trans(before, marked);
                    self.lemma_shrinks_trans(before, start);
                    let sub = froms@[a as int].0;
                    assert(!has_partner(start, base, start.spec_branch(sub))) by {
                        if has_partner(start, base, start.spec_branch(sub)) {
                            let f = choose|f: Branch| f.belong_to == base && start.spec_alive(f)
                                && start.spec_branch(f).spec_type() == start.spec_branch(sub).spec_type();
                            let j = choose|j: int| 0 <= j < bases@.len() && bases@[j].0 == f;
                            assert(bases@[j].1.spec_type() == froms@[a as int].1.spec_type());
                        }
                    }
                    lemma_entries_within_trans(self.spec_deps(), before.spec_deps(), start.spec_deps());
                    lemma_entries_within_trans(self.spec_rdeps(), before.spec_rdeps(), start.spec_rdeps());
                    lemma_justified_step(start, before, *self, |c: Branch| (c.belong_to == from && !has_partner(start, base, start.spec_branch(c))) || (c.belong_to == base && !has_partner(start, from, start.spec_branch(c))), |c: Branch| c == sub, sub);
                    assert forall|k: int| 0 <= k < a + 1 implies !self.spec_alive(#[trigger] froms@[k].0) || from_kept@[k] by {
                        if k < a && self.spec_alive(froms@[k].0) {
                            assert(before.spec_alive(froms@[k].0));
                        }
                    }
                }
            }
            a = a + 1;
        }
        let ghost mid = *self;
        let mut a: usize = 0;
        while a < bases.len()
            invariant
                self.wf(),
                self.shrinks_from(mid),
                mid.shrinks_from(start),
                self.shrinks_from(marked),
                a <= bases.len(),
                base_kept@.len() == bases@.len(),
                forall|k: int| 0 <= k < base_kept@.len() ==> (#[trigger] base_kept@[k] <==> exists|j: int| 0 <= j < froms@.len() && froms@[j].1.spec_type() == bases@[k].1.spec_type()),
                forall|k: int| 0 <= k < bases@.len() ==> (#[trigger] bases@[k]).0.belong_to == base
                    && start.spec_alive(bases@[k].0) && bases@[k].1 == start.spec_branch(bases@[k].0),
                forall|k: int| 0 <= k < a ==> !self.spec_alive(#[trigger] bases@[k].0) || base_kept@[k],
                base.idx < start.spec_groups().len(),
                forall|b: Branch| b.belong_to == from && start.spec_alive(b) ==> exists|k: int| 0 <= k < froms@.len() && froms@[k].0 == b,
                forall|k: int| 0 <= k < froms@.len() ==> (#[trigger] froms@[k]).0.belong_to == from
                    && start.spec_alive(froms@[k].0) && froms@[k].1 == start.spec_branch(froms@[k].0),
                entries_within(self.spec_deps(), start.spec_deps()),
                entries_within(self.spec_rdeps(), start.spec_rdeps()),
                deaths_justified(start, *self, |c: Branch| (c.belong_to == from && !has_partner(start, base, start.spec_branch(c))) || (c.belong_to == base && !has_partner(start, from, start.spec_branch(c)))),
            decreases bases.len() - a,
        {
            if !base_kept[a] {
                let ghost before = *self;
                self.remove_branch(bases[a].0, share_error(&reason));
                proof {
                    self.lemma_shrinks_trans(before, marked);
                    self.lemma_shrinks_trans(before, mid);
                    self.lemma_shrinks_trans(mid, start);
                    let sub = bases@[a as int].0;
                    assert(!has_partner(start, from, start.spec_branch(sub))) by {
                        if has_partner(start, from, start.spec_branch(sub)) {
                            let f = choose|f: Branch| f.belong_to == from && start.spec_alive(f)
                                && start.spec_branch(f).spec_type() == start.spec_branch(sub).spec_type();
                            let j = choose|j: int| 0 <= j < froms@.len() && froms@[j].0 == f;
                            assert(froms@[j].1.spec_type() == bases@[a as int].1.spec_type());
                        }
                    }
                    lemma_entries_within_trans(self.spec_deps(), before.spec_deps(), start.spec_deps());
                    lemma_entries_within_trans(self.spec_rdeps(), before.spec_rdeps(), start.spec_rdeps());
                    lemma_justified_step(start, before, *self, |c: Branch| (c.belong_to == from && !has_partner(start, base, start.spec_branch(c))) || (c.belong_to == base && !has_partner(start, from, start.spec_branch(c))), |c: Branch| c == sub, sub);
                    assert forall|k: int| 0 <= k < a + 1 implies !self.spec_alive(#[trigger] bases@[k].0) || base_kept@[k] by {
                        if k < a && self.spec_alive(bases@[k].0) {
                            assert(before.spec_alive(bases@[k].0));
                        }
                    }
                }
            }
            a = a + 1;
        }
        proof {
            self.lemma_shrinks_trans(mid, start);
            assert forall|c: Branch| start.spec_alive(c) && ((c.belong_to == from && !has_partner(start, base, start.spec_branch(c)))
                || (c.belong_to == base && !has_partner(start, from, start.spec_branch(c)))) implies
                (#[trigger] self.spec_slot(c) matches BranchSlot::Failed(DeclareError::WithPrevious { previous, error })
                    && previous == start.spec_branch(c) && (*error matches DeclareError::Shared { err } && filtered_at(*err, at))) by {
                assert(marked.spec_slot(c) == BranchSlot::Failed(DeclareError::WithPrevious {
                    previous: start.spec_branch(c), error: Box::new(DeclareError::Shared { err: reason }) }));
                assert(marked.has_slot(c));
                assert(!marked.spec_alive(c));
                assert(self.spec_slot(c) == marked.spec_slot(c));
            }
            assert forall|b: Branch| #[trigger] self.spec_alive(b) && b.belong_to == base implies exists|f: Branch|
                f.belong_to == from && start.spec_alive(f) && start.spec_branch(f).spec_type() == self.spec_branch(b).spec_type() by {
                assert(start.spec_alive(b));
                let k = choose|k: int| 0 <= k < bases@.len() && bases@[k].0 == b;
                assert(self.spec_alive(bases@[k].0));
                assert(base_kept@[k]);
                let j = choose|j: int| 0 <= j < froms@.len() && froms@[j].1.spec_type() == bases@[k].1.spec_type();
                let f = froms@[j].0;
                assert(f.belong_to == from && start.spec_alive(f));
            }
            assert forall|f: Branch| #[trigger] self.spec_alive(f) && f.belong_to == from implies exists|b: Branch|
                b.belong_to == base && start.spec_alive(b) && start.spec_branch(b).spec_type() == self.spec_branch(f).spec_type() by {
                assert(start.spec_alive(f));
                let k = choose|k: int| 0 <= k < froms@.len() && froms@[k].0 == f;
                assert(mid.spec_alive(froms@[k].0));
                assert(from_kept@[k]);
                let j = choose|j: int| 0 <= j < bases@.len() && bases@[j].1.spec_type() == froms@[k].1.spec_type();
                let b = bases@[j].0;
                assert(b.belong_to == base && start.spec_alive(b));
            }
        }
    }

    /// Succeeds when every group is declared; otherwise gives an error for each group that
    /// is not.
    pub fn declare_all(&self) -> (r: Result<(), Vec<Error>>)
        ensures
            r is Ok <==> forall|i: int| 0 <= i < self.spec_groups().len() ==> (#[trigger] self.spec_groups()[i]).spec_declared(),
            r matches Err(es) ==> error_spans(es@) == undeclared_spans(self.spec_groups())
                && forall|k: int| 0 <= k < es@.len() ==> (#[trigger] es@[k]).reason@ == "cant infer type"@,
    {
        let mut errors: Vec<Error> = Vec::new();
        let mut i: usize = 0;
        while i < self.groups.len()
            invariant
                i <= self.groups.len(),
                errors@.len() == 0 <==> forall|k: int| 0 <= k < i ==> (#[trigger] self.spec_groups()[k]).spec_declared(),
                error_spans(errors@) == undeclared_spans(self.spec_groups().take(i as int)),
                forall|k: int| 0 <= k < errors@.len() ==> (#[trigger] errors@[k]).reason@ == "cant infer type"@,
            decreases self.groups.len() - i,
        {
            proof {
                let t = self.spec_groups().take(i as int + 1);
                assert(t.drop_last() == self.spec_groups().take(i as int));
                assert(t.last() == self.spec_groups()[i as int]);
            }
            let declared = self.groups[i].is_declared();
            if !declared {
                let ghost before = errors@;
                let e = self.groups[i].make_error();
                errors.push(e);
                assert(error_spans(errors@) =~= error_spans(before).push(e.span));
                assert(!self.spec_groups()[i as int].spec_declared());
            }
            assert(errors@.len() == 0 <==> forall|k: int| 0 <= k < i + 1 ==> (#[trigger] self.spec_groups()[k]).spec_declared());
            i = i + 1;
        }
        assert(self.spec_groups().take(i as int) == self.spec_groups());
        if errors.len() == 0 {
            Ok(())
        } else {
            Err(errors)
        }
    }

    /// The type a declared group is declared as.
    pub fn get_type(&self, gidx: GroupIdx) -> (t: &TypeDefine)
        requires
            self.wf(),
            gidx.idx < self.spec_groups().len(),
            self.spec_declared(gidx),
        ensures
            forall|b: Branch| b.belong_to == gidx && self.spec_alive(b) ==> t@ == self.spec_branch(b).spec_type(),
            exists|b: Branch| b.belong_to == gidx && self.spec_alive(b) && t@ == self.spec_branch(b).spec_type(),
    {
        let ty = self.groups[gidx.idx].result();
        proof {
            let i = choose|i: usize| self.spec_groups()[gidx.idx as int].spec_alive(i) && *ty == self.spec_groups()[gidx.idx as int].spec_branch(i);
            assert(self.spec_alive(Branch { belong_to: gidx, branch_idx: i }));
        }
        ty.get_type()
    }

    /// The type a declared group is declared as, with where it comes from.
    pub fn get_result(&self, gidx: GroupIdx) -> (t: &Type)
        requires
            self.wf(),
            gidx.idx < self.spec_groups().len(),
            self.spec_declared(gidx),
        ensures
            forall|b: Branch| b.belong_to == gidx && self.spec_alive(b) ==> *t == self.spec_branch(b),
            exists|b: Branch| b.belong_to == gidx && self.spec_alive(b) && *t == self.spec_branch(b),
    {
        let ty = self.groups[gidx.idx].result();
        proof {
            let i = choose|i: usize| self.spec_groups()[gidx.idx as int].spec_alive(i) && *ty == self.spec_groups()[gidx.idx as int].spec_branch(i);
            assert(self.spec_alive(Branch { belong_to: gidx, branch_idx: i }));
        }
        ty
    }

    proof fn lemma_same_groups_extends(self, before: DeclareGraph, mid: DeclareGraph)
        requires
            self.spec_groups() == before.spec_groups(),
            before.extends(mid),
        ensures
            self.extends(mid),
    {
        assert forall|b: Branch| #[trigger] self.spec_alive(b) && b.belong_to.idx < mid.spec_groups().len() implies
            mid.spec_alive(b) && self.spec_branch(b) == mid.spec_branch(b) by {
            assert(before.spec_alive(b));
        }
    }

    proof fn lemma_shrinks_extends(self, before: DeclareGraph, mid: DeclareGraph)
        requires
            self.shrinks_from(before),
            before.extends(mid),
        ensures
            self.extends(mid),
    {
        assert forall|b: Branch| #[trigger] self.spec_alive(b) && b.belong_to.idx < mid.spec_groups().len() implies
            mid.spec_alive(b) && self.spec_branch(b) == mid.spec_branch(b) by {
            assert(before.spec_alive(b));
        }
    }

    proof fn lemma_slot_change(self, start: DeclareGraph, gi: int, b: usize)
        requires
            start.wf(),
            0 <= gi < start.spec_groups().len(),
            self.spec_groups() == start.spec_groups().update(gi, self.spec_groups()[gi]),
            self.spec_deps() == start.spec_deps(),
            self.spec_rdeps() == start.spec_rdeps(),
            self.spec_groups()[gi].spec_group() == start.spec_groups()[gi].spec_group(),
            self.spec_groups()[gi].spec_span() == start.spec_groups()[gi].spec_span(),
            self.spec_groups()[gi].spec_slots().len() == start.spec_groups()[gi].spec_slots().len(),
            !self.spec_groups()[gi].spec_alive(b),
            start.spec_groups()[gi].spec_alive(b),
            forall|i: usize| i != b && i < start.spec_groups()[gi].spec_slots().len() ==>
                self.spec_groups()[gi].spec_slots()[i as int] == start.spec_groups()[gi].spec_slots()[i as int],
        ensures
            self.wf(),
            self.shrinks_from(start),
    {
        assert forall|i: int| 0 <= i < self.spec_groups().len() implies (#[trigger] self.spec_groups()[i]).spec_group().idx == i by {
            assert(start.spec_groups()[i].spec_group().idx == i);
        }
        assert forall|x: Branch| #[trigger] self.spec_alive(x) implies start.spec_alive(x) && self.spec_branch(x) == start.spec_branch(x) by {
            if x.belong_to.idx as int == gi {
                assert(x.branch_idx != b);
            }
        }
    }

    /// Only the slots of group `gi` changed, and only alive ones, to given up.
    proof fn lemma_group_shrink(self, start: DeclareGraph, gi: int)
        requires
            start.wf(),
            0 <= gi < start.spec_groups().len(),
            self.spec_groups() == start.spec_groups().update(gi, self.spec_groups()[gi]),
            self.spec_deps() == start.spec_deps(),
            self.spec_rdeps() == start.spec_rdeps(),
            self.spec_groups()[gi].spec_group() == start.spec_groups()[gi].spec_group(),
            self.spec_groups()[gi].spec_span() == start.spec_groups()[gi].spec_span(),
            self.spec_groups()[gi].spec_slots().len() == start.spec_groups()[gi].spec_slots().len(),
            forall|i: usize| i < start.spec_groups()[gi].spec_slots().len() && !start.spec_groups()[gi].spec_alive(i) ==>
                self.spec_groups()[gi].spec_slots()[i as int] == start.spec_groups()[gi].spec_slots()[i as int],
            forall|i: usize| #[trigger] start.spec_groups()[gi].spec_alive(i) && self.spec_groups()[gi].spec_alive(i) ==>
                self.spec_groups()[gi].spec_slots()[i as int] == start.spec_groups()[gi].spec_slots()[i as int],
        ensures
            self.wf(),
            self.shrinks_from(start),
    {
        assert forall|i: int| 0 <= i < self.spec_groups().len() implies (#[trigger] self.spec_groups()[i]).spec_group().idx == i by {
            assert(start.spec_groups()[i].spec_group().idx == i);
        }
        assert forall|x: Branch| #[trigger] self.spec_alive(x) implies start.spec_alive(x) && self.spec_branch(x) == start.spec_branch(x) by {
            if x.belong_to.idx as int == gi {
                let i = x.branch_idx;
                if !start.spec_groups()[gi].spec_alive(i) {
                    assert(self.spec_groups()[gi].spec_slots()[i as int] == start.spec_groups()[gi].spec_slots()[i as int]);
                }
            }
        }
        assert forall|b: Branch| start.has_slot(b) && !start.spec_alive(b) implies #[trigger] self.spec_slot(b) == start.spec_slot(b) by {
            if b.belong_to.idx as int == gi {
                assert(!start.spec_groups()[gi].spec_alive(b.branch_idx));
            }
        }
    }

    proof fn lemma_same_groups(self, other: DeclareGraph)
        requires
            self.spec_groups() == other.spec_groups(),
        ensures
            self.shrinks_from(other),
    {
    }

    proof fn lemma_shrinks_trans(self, mid: DeclareGraph, start: DeclareGraph)
        requires
            self.shrinks_from(mid),
            mid.shrinks_from(start),
        ensures
            self.shrinks_from(start),
    {
        assert forall|b: Branch| #[trigger] self.spec_alive(b) implies start.spec_alive(b) && self.spec_branch(b) == start.spec_branch(b) by {
            assert(mid.spec_alive(b));
        }
        assert forall|b: Branch| start.has_slot(b) && !start.spec_alive(b) implies #[trigger] self.spec_slot(b) == start.spec_slot(b) by {
            assert(mid.has_slot(b));
            assert(!mid.spec_alive(b));
            assert(mid.spec_slot(b) == start.spec_slot(b));
        }
    }
}

/// Whether a branch of a depended group is used by a new branch, or why it is not.
pub enum BranchMark {
    Used,
    Error(DeclareError),
}

/// The branches of the groups a builder depends on, group by group, each group's in the
/// order given.
pub open spec fn depend_pairs(depends: Seq<(GroupIdx, Vec<usize>)>) -> Seq<Branch>
    decreases depends.len(),
{
    if depends.len() == 0 {
        Seq::empty()
    } else {
        depend_pairs(depends.drop_last()) + branches_of(depends.last().0, depends.last().1@)
    }
}

/// The branches of a group with the given indices.
pub open spec fn branches_of(group: GroupIdx, idxs: Seq<usize>) -> Seq<Branch> {
    idxs.map_values(|i: usize| Branch { belong_to: group, branch_idx: i })
}

/// The slots of the group built from `builders`, in order: a failed slot for a builder that was
/// given up, an alive slot for each merged list of dependencies of a builder that is still
/// possible; with each alive slot's dependencies, and the marks of the branches the builders
/// use or give up in the groups they depend on.
fn place_builders(builders: Vec<BranchesBuilder>, n: usize) -> (r: (Vec<BranchSlot>, Vec<(usize, Vec<Branch>)>, Vec<(GroupIdx, Vec<(usize, BranchMark)>)>))
    requires
        forall|k: int, j: int| 0 <= k < builders@.len() && 0 <= j < builders@[k].depends.depends@.len() ==>
            (#[trigger] builders@[k].depends.depends@[j]).0.idx < n,
    ensures
        new_slots_ok(r.1@, r.0@),
        builders_placed(builders@, builders@.len() as int, r.1@, r.0@),
        forall|i: int| 0 <= i < r.0@.len() && r.0@[i] is Alive ==>
            exists|k: int| 0 <= k < builders@.len() && builders@[k].state == Ok::<Type, DeclareError>(r.0@[i]->Alive_0),
        forall|k: int, j: int| 0 <= k < builders@.len() && 0 <= j < builders@[k].depends.depends@.len() ==>
            (#[trigger] builders@[k].depends.depends@[j]).0.idx < n,
        forall|i: int| 0 <= i < r.1@.len() ==> (#[trigger] r.1@[i]).0 < r.0@.len(),
        forall|i: int, j: int| 0 <= i < r.1@.len() && 0 <= j < r.1@[i].1@.len() ==> (#[trigger] r.1@[i].1@[j]).belong_to.idx < n,
        forall|i: int| 0 <= i < r.2@.len() ==> (#[trigger] r.2@[i]).0.idx < n,
        forall|k: int| 0 <= k < builders@.len() ==> ((#[trigger] builders@[k]).state matches Err(e) ==>
            exists|i: int| 0 <= i < r.0@.len() && r.0@[i] == BranchSlot::Failed(e)),
        marks_ok(builders@, r.2@),
        forall|k: int, j: int| 0 <= k < builders@.len() && builders@[k].state is Ok && !builders@[k].depends.spec_has_empty()
            && 0 <= j < builders@[k].depends.depends@.len() ==> has_key(r.2@, (#[trigger] builders@[k].depends.depends@[j]).0),
{
        let mut slots: Vec<BranchSlot> = Vec::new();
        let mut new_deps: Vec<(usize, Vec<Branch>)> = Vec::new();
        let mut used: Vec<(GroupIdx, Vec<(usize, BranchMark)>)> = Vec::new();
        let mut builders = builders;
        let ghost all = builders@;
        let total = builders.len();
        let mut done: usize = 0;
        assert(new_slots_ok(new_deps@, slots@)) by { reveal(new_slots_ok); }
        assert(builders_placed(all, 0, new_deps@, slots@)) by { reveal(builders_placed); }
        while done < total
            invariant
                total == all.len(),
                done <= total,
                builders@ == all.subrange(done as int, total as int),
                forall|i: int| 0 <= i < slots@.len() && slots@[i] is Alive ==>
                    exists|k: int| 0 <= k < all.len() && all[k].state == Ok::<Type, DeclareError>(slots@[i]->Alive_0),
                forall|k: int, j: int| 0 <= k < all.len() && 0 <= j < all[k].depends.depends@.len() ==>
                    (#[trigger] all[k].depends.depends@[j]).0.idx < n,
                forall|i: int| 0 <= i < new_deps@.len() ==> (#[trigger] new_deps@[i]).0 < slots@.len(),
                forall|i: int, j: int| 0 <= i < new_deps@.len() && 0 <= j < new_deps@[i].1@.len() ==> (#[trigger] new_deps@[i].1@[j]).belong_to.idx < n,
                forall|i: int| 0 <= i < used@.len() ==> (#[trigger] used@[i]).0.idx < n,
                forall|k: int| 0 <= k < done ==> ((#[trigger] all[k]).state matches Err(e) ==>
                    exists|i: int| 0 <= i < slots@.len() && slots@[i] == BranchSlot::Failed(e)),
                marks_ok(all, used@),
                forall|k: int, j: int| 0 <= k < done && all[k].state is Ok && !all[k].depends.spec_has_empty()
                    && 0 <= j < all[k].depends.depends@.len() ==> has_key(used@, (#[trigger] all[k].depends.depends@[j]).0),
                new_slots_ok(new_deps@, slots@),
                builders_placed(all, done as int, new_deps@, slots@),
            decreases total - done,
        {
            let builder = builders.remove(0);
            let ghost kk = done as int;
            assert(builder == all[kk]);
            let ghost slots_at = slots@;
            match builder.state {
                Err(e) => {
                    slots.push(BranchSlot::Failed(e));
                    assert forall|k: int| 0 <= k < done + 1 implies ((#[trigger] all[k]).state matches Err(e2) ==>
                        exists|i: int| 0 <= i < slots@.len() && slots@[i] == BranchSlot::Failed(e2)) by {
                        if k < done && all[k].state is Err {
                            let i = choose|i: int| 0 <= i < slots_at.len() && slots_at[i] == BranchSlot::Failed(all[k].state->Err_0);
                            assert(slots@[i] == slots_at[i]);
                        } else if k == done {
                            assert(slots@[slots_at.len() as int] == BranchSlot::Failed(e));
                        }
                    }
                    proof {
                        lemma_placed_grow(all, done as int, new_deps@, slots_at, new_deps@, slots@);
                        lemma_placed_extend(all, done as int, new_deps@, slots@);
                        assert(new_slots_ok(new_deps@, slots@)) by {
                            reveal(new_slots_ok);
                            assert forall|i: int| 0 <= i < new_deps@.len() implies (#[trigger] new_deps@[i]).0 < slots@.len()
                                && slots@[new_deps@[i].0 as int] is Alive by {
                                assert(slots@[new_deps@[i].0 as int] == slots_at[new_deps@[i].0 as int]);
                            }
                        }
                    }
                },
                Ok(ty) => {
                    let pairs = dependency_pairs(&builder.depends, n);
                    match builder.depends.merge_depends() {
                        Ok(lists) => {
                            let mut p: usize = 0;
                            while p < pairs.len()
                                invariant
                                    p <= pairs.len(),
                                    forall|k: int| 0 <= k < done ==> ((#[trigger] all[k]).state matches Err(e) ==>
                                        exists|i: int| 0 <= i < slots@.len() && slots@[i] == BranchSlot::Failed(e)),
                                    forall|j: int| 0 <= j < pairs@.len() ==> (#[trigger] pairs@[j]).belong_to.idx < n,
                                    forall|i: int| 0 <= i < used@.len() ==> (#[trigger] used@[i]).0.idx < n,
                                    marks_ok(all, used@),
                                    forall|k: int, j: int| 0 <= k < done && all[k].state is Ok && !all[k].depends.spec_has_empty()
                                        && 0 <= j < all[k].depends.depends@.len() ==> has_key(used@, (#[trigger] all[k].depends.depends@[j]).0),
                                    pairs@ == depend_pairs(all[kk].depends.depends@),
                                    0 <= kk < all.len(),
                                    kk == done,
                                    all[kk].state is Ok,
                                    !all[kk].depends.spec_has_empty(),
                                    forall|q: int| 0 <= q < p ==> has_key(used@, (#[trigger] pairs@[q]).belong_to),
                                    new_slots_ok(new_deps@, slots@),
                                    builders_placed(all, done as int, new_deps@, slots@),
                                decreases pairs.len() - p,
                            {
                                let ghost before = used@;
                                mark(&mut used, pairs[p], BranchMark::Used, true);
                                proof {
                                    assert(depend_pairs(all[kk].depends.depends@)[p as int] == pairs@[p as int]);
                                    assert(used_by_builders(all, pairs@[p as int]));
                                    lemma_marks_after(all, before, used@, pairs@[p as int], BranchMark::Used);
                                    assert forall|q: int| 0 <= q < p + 1 implies has_key(used@, (#[trigger] pairs@[q]).belong_to) by {
                                        if q < p {
                                            assert(has_key(before, pairs@[q].belong_to));
                                        }
                                    }
                                }
                                p = p + 1;
                            }
                            proof {
                                assert forall|k: int, j: int| 0 <= k < done + 1 && all[k].state is Ok && !all[k].depends.spec_has_empty()
                                    && 0 <= j < all[k].depends.depends@.len() implies has_key(used@, (#[trigger] all[k].depends.depends@[j]).0) by {
                                    if k == done {
                                        let deps = all[kk].depends.depends@;
                                        assert(deps[j].1@.len() != 0);
                                        lemma_depend_pairs_contains(deps, j, 0);
                                        let q = choose|q: int| 0 <= q < pairs@.len() && pairs@[q] == Branch { belong_to: deps[j].0, branch_idx: deps[j].1@[0] };
                                        assert(has_key(used@, pairs@[q].belong_to));
                                    }
                                }
                            }
                            let mut lists = lists;
                            let count = lists.len();
                            let mut l: usize = 0;
                            while l < count
                                invariant
                                    l <= count,
                                    marks_ok(all, used@),
                                    forall|k: int, j: int| 0 <= k < done + 1 && all[k].state is Ok && !all[k].depends.spec_has_empty()
                                        && 0 <= j < all[k].depends.depends@.len() ==> has_key(used@, (#[trigger] all[k].depends.depends@[j]).0),
                                    forall|k: int| 0 <= k < done ==> ((#[trigger] all[k]).state matches Err(e) ==>
                                        exists|i: int| 0 <= i < slots@.len() && slots@[i] == BranchSlot::Failed(e)),
                                    lists@.len() == count - l,
                                    forall|i: int, j: int| 0 <= i < lists@.len() && 0 <= j < lists@[i]@.len() ==>
                                        (#[trigger] lists@[i]@[j]).belong_to.idx < n,
                                    forall|i: int| 0 <= i < slots@.len() && slots@[i] is Alive ==>
                                        exists|k: int| 0 <= k < all.len() && all[k].state == Ok::<Type, DeclareError>(slots@[i]->Alive_0),
                                    all[kk].state == Ok::<Type, DeclareError>(ty),
                                    0 <= kk < all.len(),
                                    forall|i: int| 0 <= i < new_deps@.len() ==> (#[trigger] new_deps@[i]).0 < slots@.len(),
                                    forall|i: int, j: int| 0 <= i < new_deps@.len() && 0 <= j < new_deps@[i].1@.len() ==> (#[trigger] new_deps@[i].1@[j]).belong_to.idx < n,
                                    new_slots_ok(new_deps@, slots@),
                                    builders_placed(all, done as int, new_deps@, slots@),
                                    lists@.len() + l == count,
                                    count == merged_lists(all[kk].depends.depends@).len(),
                                    forall|m: int| 0 <= m < lists@.len() ==> (#[trigger] lists@[m])@ == merged_lists(all[kk].depends.depends@)[l + m],
                                    kk == done,
                                    all[kk].state == Ok::<Type, DeclareError>(ty),
                                    forall|j: int| 0 <= j < l ==> #[trigger] placed(all, kk, j, new_deps@, slots@),
                                decreases count - l,
                            {
                                let ghost lists_before = lists@;
                                let ghost slots_l = slots@;
                                let list = lists.remove(0);
                                let idx = slots.len();
                                let ghost nd = new_deps@;
                                new_deps.push((idx, list));
                                assert forall|i: int, j: int| 0 <= i < new_deps@.len() && 0 <= j < new_deps@[i].1@.len() implies
                                    (#[trigger] new_deps@[i].1@[j]).belong_to.idx < n by {
                                    if i < nd.len() {
                                        assert(new_deps@[i] == nd[i]);
                                        assert(nd[i].1@[j].belong_to.idx < n);
                                    } else {
                                        assert(new_deps@[i].1 == lists_before[0]);
                                        assert(lists_before[0]@[j].belong_to.idx < n);
                                    }
                                }
                                slots.push(BranchSlot::Alive(ty.share()));
                                assert forall|k: int| 0 <= k < done implies ((#[trigger] all[k]).state matches Err(e2) ==>
                                    exists|i: int| 0 <= i < slots@.len() && slots@[i] == BranchSlot::Failed(e2)) by {
                                    if all[k].state is Err {
                                        let i = choose|i: int| 0 <= i < slots_l.len() && slots_l[i] == BranchSlot::Failed(all[k].state->Err_0);
                                        assert(slots@[i] == slots_l[i]);
                                    }
                                }
                                assert(slots@[idx as int] is Alive && slots@[idx as int]->Alive_0 == ty);
                                proof {
                                    assert(slots@[idx as int] == BranchSlot::Alive(ty));
                                    assert(new_deps@[nd.len() as int].1@ =~= merged_lists(all[kk].depends.depends@)[l as int]) by {
                                        assert(lists_before[0]@ == merged_lists(all[kk].depends.depends@)[l + 0]);
                                    }
                                    assert forall|m: int| 0 <= m < lists@.len() implies (#[trigger] lists@[m])@
                                        == merged_lists(all[kk].depends.depends@)[l + 1 + m] by {
                                        assert(lists@[m] == lists_before[m + 1]);
                                    }
                                    assert forall|j: int| 0 <= j < l + 1 implies #[trigger] placed(all, kk, j, new_deps@, slots@) by {
                                        if j < l {
                                            assert(placed(all, kk, j, nd, slots_l));
                                            let i = choose|i: int| 0 <= i < nd.len()
                                                && nd[i].1@ =~= merged_lists(all[kk].depends.depends@)[j]
                                                && slots_l[nd[i].0 as int] == BranchSlot::Alive(ty);
                                            assert(new_deps@[i] == nd[i]);
                                            assert(slots@[nd[i].0 as int] == slots_l[nd[i].0 as int]);
                                        } else {
                                            let i = nd.len() as int;
                                            assert(new_deps@[i].0 == idx);
                                            assert(0 <= i < new_deps@.len() && new_deps@[i].1@ =~= merged_lists(all[kk].depends.depends@)[j]
                                                && slots@[new_deps@[i].0 as int] == BranchSlot::Alive(ty));
                                        }
                                    }
                                    lemma_placed_grow(all, done as int, nd, slots_l, new_deps@, slots@);
                                    assert(new_slots_ok(new_deps@, slots@)) by {
                                        reveal(new_slots_ok);
                                        assert forall|i: int| 0 <= i < new_deps@.len() implies (#[trigger] new_deps@[i]).0 < slots@.len()
                                            && slots@[new_deps@[i].0 as int] is Alive by {
                                            if i < nd.len() {
                                                assert(new_deps@[i] == nd[i]);
                                                assert(slots@[nd[i].0 as int] == slots_l[nd[i].0 as int]);
                                            }
                                        }
                                        assert forall|i1: int, i2: int| 0 <= i1 < i2 < new_deps@.len() implies new_deps@[i1].0 < new_deps@[i2].0 by {
                                            assert(new_deps@[i1] == nd[i1]);
                                            if i2 < nd.len() {
                                                assert(new_deps@[i2] == nd[i2]);
                                            }
                                        }
                                    }
                                }
                                l = l + 1;
                            }
                            proof {
                                lemma_placed_extend(all, done as int, new_deps@, slots@);
                            }
                        },
                        Err(group_errors) => {
                            let mut errs = group_errors;
                            while errs.len() > 0
                                invariant
                                    forall|i: int| 0 <= i < used@.len() ==> (#[trigger] used@[i]).0.idx < n,
                                    forall|k: int| 0 <= k < done ==> ((#[trigger] all[k]).state matches Err(e) ==>
                                        exists|i: int| 0 <= i < slots@.len() && slots@[i] == BranchSlot::Failed(e)),
                                    marks_ok(all, used@),
                                    forall|k: int, j: int| 0 <= k < done && all[k].state is Ok && !all[k].depends.spec_has_empty()
                                        && 0 <= j < all[k].depends.depends@.len() ==> has_key(used@, (#[trigger] all[k].depends.depends@[j]).0),
                                    new_slots_ok(new_deps@, slots@),
                                    builders_placed(all, done as int, new_deps@, slots@),
                                decreases errs.len(),
                            {
                                let (group, mut errors) = errs.remove(0);
                                while errors.len() > 0
                                    invariant
                                        forall|i: int| 0 <= i < used@.len() ==> (#[trigger] used@[i]).0.idx < n,
                                        forall|k: int| 0 <= k < done ==> ((#[trigger] all[k]).state matches Err(e) ==>
                                            exists|i: int| 0 <= i < slots@.len() && slots@[i] == BranchSlot::Failed(e)),
                                        marks_ok(all, used@),
                                        forall|k: int, j: int| 0 <= k < done && all[k].state is Ok && !all[k].depends.spec_has_empty()
                                            && 0 <= j < all[k].depends.depends@.len() ==> has_key(used@, (#[trigger] all[k].depends.depends@[j]).0),
                                        new_slots_ok(new_deps@, slots@),
                                        builders_placed(all, done as int, new_deps@, slots@),
                                    decreases errors.len(),
                                {
                                    let (branch, error) = errors.remove(0);
                                    if group.idx < n {
                                        let ghost before = used@;
                                        let bb = Branch::new(group, branch);
                                        mark(&mut used, bb, BranchMark::Error(error), false);
                                        proof {
                                            lemma_marks_after(all, before, used@, bb, BranchMark::Error(error));
                                            assert forall|k: int, j: int| 0 <= k < done && all[k].state is Ok && !all[k].depends.spec_has_empty()
                                                && 0 <= j < all[k].depends.depends@.len() implies has_key(used@, (#[trigger] all[k].depends.depends@[j]).0) by {
                                                assert(has_key(before, all[k].depends.depends@[j].0));
                                            }
                                        }
                                    }
                                }
                            }
                            proof {
                                lemma_placed_extend(all, done as int, new_deps@, slots@);
                            }
                        },
                    }
                },
            }
            done = done + 1;
        }
    (slots, new_deps, used)
}

/// All the branches that a builder may depend on.
fn dependency_pairs(d: &crate::declare::branch::BranchDepend, bound: usize) -> (v: Vec<Branch>)
    requires
        forall|m: int| 0 <= m < d.depends@.len() ==> (#[trigger] d.depends@[m]).0.idx < bound,
    ensures
        forall|j: int| 0 <= j < v@.len() ==> (#[trigger] v@[j]).belong_to.idx < bound,
        v@ == depend_pairs(d.depends@),
{
    let mut v: Vec<Branch> = Vec::new();
    let mut k: usize = 0;
    while k < d.depends.len()
        invariant
            k <= d.depends.len(),
            forall|m: int| 0 <= m < d.depends@.len() ==> (#[trigger] d.depends@[m]).0.idx < bound,
            forall|j: int| 0 <= j < v@.len() ==> (#[trigger] v@[j]).belong_to.idx < bound,
            v@ == depend_pairs(d.depends@.take(k as int)),
        decreases d.depends.len() - k,
    {
        let group = d.depends[k].0;
        let ghost base = v@;
        let ghost idxs = d.depends@[k as int].1@;
        let mut t: usize = 0;
        while t < d.depends[k].1.len()
            invariant
                k < d.depends.len(),
                group.idx < bound,
                group == d.depends@[k as int].0,
                idxs == d.depends@[k as int].1@,
                t <= idxs.len(),
                forall|j: int| 0 <= j < v@.len() ==> (#[trigger] v@[j]).belong_to.idx < bound,
                v@ == base + branches_of(group, idxs.take(t as int)),
            decreases d.depends[k as int].1.len() - t,
        {
            v.push(Branch::new(group, d.depends[k].1[t]));
            proof {
                assert(branches_of(group, idxs.take(t as int + 1))
                    =~= branches_of(group, idxs.take(t as int)).push(Branch { belong_to: group, branch_idx: idxs[t as int] }));
            }
            t = t + 1;
        }
        proof {
            assert(idxs.take(t as int) == idxs);
            let tk = d.depends@.take(k as int + 1);
            assert(tk.drop_last() == d.depends@.take(k as int));
            assert(tk.last() == d.depends@[k as int]);
        }
        k = k + 1;
    }
    assert(d.depends@.take(k as int) == d.depends@);
    v
}

/// The position of the first mark of `branch`.
fn find_mark(marks: &Vec<(usize, BranchMark)>, branch: usize) -> (r: Option<usize>)
    ensures
        r matches Some(i) ==> i < marks@.len() && marks@[i as int].0 == branch,
        r matches Some(i) ==> first_key_at(marks@, branch, i as int),
        r is None ==> forall|i: int| 0 <= i < marks@.len() ==> marks@[i].0 != branch,
{
    let mut i: usize = 0;
    while i < marks.len()
        invariant
            i <= marks.len(),
            forall|j: int| 0 <= j < i ==> marks@[j].0 != branch,
        decreases marks.len() - i,
    {
        if marks[i].0 == branch {
            return Some(i);
        }
        i = i + 1;
    }
    None
}

/// The marks of a group after marking branch `idx` with `m`: a branch not marked yet gets
/// the mark at the end; a marked one has its first mark replaced by one at the end only when
/// `replace`.
pub open spec fn marked(marks: Seq<(usize, BranchMark)>, idx: usize, m: BranchMark, replace: bool) -> Seq<(usize, BranchMark)> {
    if forall|i: int| 0 <= i < marks.len() ==> marks[i].0 != idx {
        marks.push((idx, m))
    } else if replace {
        marks.remove(choose|p: int| first_key_at(marks, idx, p)).push((idx, m))
    } else {
        marks
    }
}

/// A branch that some builder uses: one of the branches its dependencies are made of,
/// for a builder that is still possible and has an acceptable branch in every group it
/// depends on.
pub open spec fn used_by_builders(all: Seq<BranchesBuilder>, b: Branch) -> bool {
    exists|k: int| 0 <= k < all.len() && (#[trigger] all[k]).state is Ok && !all[k].depends.spec_has_empty()
        && depend_pairs(all[k].depends.depends@).contains(b)
}

/// A group that such a builder depends on.
pub open spec fn depended_by_builders(all: Seq<BranchesBuilder>, g: GroupIdx) -> bool {
    exists|k: int, j: int| 0 <= k < all.len() && all[k].state is Ok && !all[k].depends.spec_has_empty()
        && 0 <= j < all[k].depends.depends@.len() && (#[trigger] all[k].depends.depends@[j]).0 == g
}

/// Every branch marked as used is one that a builder uses.
pub open spec fn marks_ok(all: Seq<BranchesBuilder>, used: Seq<(GroupIdx, Vec<(usize, BranchMark)>)>) -> bool {
    forall|i: int, k: int| 0 <= i < used.len() && 0 <= k < used[i].1@.len() && (#[trigger] used[i].1@[k]).1 is Used
        ==> used_by_builders(all, Branch { belong_to: used[i].0, branch_idx: used[i].1@[k].0 })
}

/// The branches of a group that a builder depends on are among its dependency pairs.
proof fn lemma_depend_pairs_contains(deps: Seq<(GroupIdx, Vec<usize>)>, j: int, t: int)
    requires
        0 <= j < deps.len(),
        0 <= t < deps[j].1@.len(),
    ensures
        depend_pairs(deps).contains(Branch { belong_to: deps[j].0, branch_idx: deps[j].1@[t] }),
    decreases deps.len(),
{
    let b = Branch { belong_to: deps[j].0, branch_idx: deps[j].1@[t] };
    let pre = depend_pairs(deps.drop_last());
    let tail = branches_of(deps.last().0, deps.last().1@);
    assert(depend_pairs(deps) == pre + tail);
    if j == deps.len() - 1 {
        assert(tail[t] == b);
        assert((pre + tail)[pre.len() + t] == b);
    } else {
        assert(deps.drop_last()[j] == deps[j]);
        lemma_depend_pairs_contains(deps.drop_last(), j, t);
        let q = choose|q: int| 0 <= q < pre.len() && pre[q] == b;
        assert((pre + tail)[q] == b);
    }
}

/// Marking keeps every branch marked as used one that a builder uses, when the new mark is.
proof fn lemma_marks_after(all: Seq<BranchesBuilder>, old: Seq<(GroupIdx, Vec<(usize, BranchMark)>)>,
    new: Seq<(GroupIdx, Vec<(usize, BranchMark)>)>, b: Branch, m: BranchMark)
    requires
        marks_ok(all, old),
        m is Used ==> used_by_builders(all, b),
        forall|i: int, k: int| 0 <= i < new.len() && 0 <= k < new[i].1@.len() ==>
            mark_from(old, new[i].0, #[trigger] new[i].1@[k])
            || (new[i].0 == b.belong_to && new[i].1@[k] == (b.branch_idx, m)),
    ensures
        marks_ok(all, new),
{
    assert forall|i: int, k: int| 0 <= i < new.len() && 0 <= k < new[i].1@.len() && (#[trigger] new[i].1@[k]).1 is Used
        implies used_by_builders(all, Branch { belong_to: new[i].0, branch_idx: new[i].1@[k].0 }) by {
        if mark_from(old, new[i].0, new[i].1@[k]) {
            let (j, l) = choose|j: int, l: int| 0 <= j < old.len() && old[j].0 == new[i].0 && 0 <= l < old[j].1@.len()
                && #[trigger] old[j].1@[l] == new[i].1@[k];
            assert(old[j].1@[l].1 is Used);
        }
    }
}

/// Some of the first `m` entries is of group `g`.
pub open spec fn processed_key(used: Seq<(GroupIdx, Vec<(usize, BranchMark)>)>, m: int, g: GroupIdx) -> bool {
    exists|i: int| 0 <= i < m && i < used.len() && (#[trigger] used[i]).0 == g
}

/// Some entry of `g` holds the mark `e`.
pub open spec fn mark_from(used: Seq<(GroupIdx, Vec<(usize, BranchMark)>)>, g: GroupIdx, e: (usize, BranchMark)) -> bool {
    exists|j: int, l: int| 0 <= j < used.len() && used[j].0 == g && 0 <= l < used[j].1@.len() && #[trigger] used[j].1@[l] == e
}

/// Some entry is of group `g`.
pub open spec fn has_key(used: Seq<(GroupIdx, Vec<(usize, BranchMark)>)>, g: GroupIdx) -> bool {
    exists|i: int| 0 <= i < used.len() && (#[trigger] used[i]).0 == g
}

/// Where a key occurs, it has a first place.
proof fn lemma_first_exists(ms: Seq<(usize, BranchMark)>, idx: usize)
    ensures
        (exists|i: int| 0 <= i < ms.len() && ms[i].0 == idx) ==> exists|p: int| first_key_at(ms, idx, p),
    decreases ms.len(),
{
    if ms.len() > 0 {
        let d = ms.drop_last();
        lemma_first_exists(d, idx);
        if exists|i: int| 0 <= i < d.len() && d[i].0 == idx {
            let p = choose|p: int| first_key_at(d, idx, p);
            assert(d[p] == ms[p]);
            assert forall|j: int| 0 <= j < p implies ms[j].0 != idx by {
                assert(d[j] == ms[j]);
            }
            assert(first_key_at(ms, idx, p));
        } else if ms.last().0 == idx {
            assert forall|j: int| 0 <= j < ms.len() - 1 implies ms[j].0 != idx by {
                assert(d[j] == ms[j]);
            }
            assert(first_key_at(ms, idx, ms.len() - 1));
        } else if exists|i: int| 0 <= i < ms.len() && ms[i].0 == idx {
            let i = choose|i: int| 0 <= i < ms.len() && ms[i].0 == idx;
            assert(d[i] == ms[i]);
        }
    }
}

/// The marks after marking are those before, and the new one.
proof fn lemma_marked_elems(ms: Seq<(usize, BranchMark)>, idx: usize, m: BranchMark, replace: bool, k: int)
    requires
        0 <= k < marked(ms, idx, m, replace).len(),
    ensures
        (exists|l: int| 0 <= l < ms.len() && ms[l] == marked(ms, idx, m, replace)[k])
            || marked(ms, idx, m, replace)[k] == (idx, m),
{
    let r = marked(ms, idx, m, replace);
    if forall|i: int| 0 <= i < ms.len() ==> ms[i].0 != idx {
        if k < ms.len() {
            assert(ms[k] == r[k]);
        }
    } else if replace {
        lemma_first_exists(ms, idx);
        let p = choose|p: int| first_key_at(ms, idx, p);
        if k < ms.len() - 1 {
            if k < p {
                assert(ms[k] == r[k]);
            } else {
                assert(ms[k + 1] == r[k]);
            }
        }
    } else {
        assert(ms[k] == r[k]);
    }
}

/// Marks a branch of a depended group. An existing mark is replaced only when `replace`.
/// The marks of the branch's group go to the end of the list.
fn mark(used: &mut Vec<(GroupIdx, Vec<(usize, BranchMark)>)>, branch: Branch, m: BranchMark, replace: bool)
    ensures
        forall|i: int| 0 <= i < final(used)@.len() ==> (exists|j: int| 0 <= j < old(used)@.len() && (#[trigger] final(used)@[i]).0 == old(used)@[j].0) || final(used)@[i].0 == branch.belong_to,
        final(used)@.len() > 0,
        final(used)@.last().0 == branch.belong_to,
        (forall|i: int| 0 <= i < old(used)@.len() ==> old(used)@[i].0 != branch.belong_to) ==>
            final(used)@.drop_last() == old(used)@ && final(used)@.last().1@ == seq![(branch.branch_idx, m)],
        forall|pos: int| #[trigger] first_key_at(old(used)@, branch.belong_to, pos) ==>
            final(used)@.drop_last() == old(used)@.remove(pos)
            && final(used)@.last().1@ == marked(old(used)@[pos].1@, branch.branch_idx, m, replace),
        forall|g: GroupIdx| #[trigger] has_key(old(used)@, g) ==> has_key(final(used)@, g),
        has_key(final(used)@, branch.belong_to),
        forall|i: int, k: int| 0 <= i < final(used)@.len() && 0 <= k < final(used)@[i].1@.len() ==>
            mark_from(old(used)@, final(used)@[i].0, #[trigger] final(used)@[i].1@[k])
            || (final(used)@[i].0 == branch.belong_to && final(used)@[i].1@[k] == (branch.branch_idx, m)),
{
    let found_at = crate::declare::branch::find_group(used, branch.belong_to);
    let found = found_at.is_some();
    let pos = match found_at { Some(p) => p, None => 0 };
    if found {
        proof {
            assert forall|p: int| #[trigger] first_key_at(old(used)@, branch.belong_to, p) implies p == pos by {
                lemma_first_key_unique(old(used)@, branch.belong_to, p, pos as int);
            }
        }
        let (group, mut marks) = used.remove(pos);
        let ghost ms = marks@;
        match find_mark(&marks, branch.branch_idx) {
            Some(i) => {
                proof {
                    let c = choose|p: int| first_key_at(ms, branch.branch_idx, p);
                    lemma_first_key_unique(ms, branch.branch_idx, c, i as int);
                }
                if replace {
                    marks.remove(i);
                    marks.push((branch.branch_idx, m));
                }
            },
            None => {
                marks.push((branch.branch_idx, m));
            },
        }
        assert(marks@ == marked(ms, branch.branch_idx, m, replace));
        let ghost before = used@;
        used.push((group, marks));
        assert(used@.drop_last() =~= before);
        assert forall|i: int| 0 <= i < used@.len() implies (exists|j: int| 0 <= j < old(used)@.len() && (#[trigger] used@[i]).0 == old(used)@[j].0) || used@[i].0 == branch.belong_to by {
            if i < pos {
                assert(used@[i] == old(used)@[i]);
            } else if i < used@.len() - 1 {
                assert(used@[i] == old(used)@[i + 1]);
            } else {
                assert(used@[i].0 == old(used)@[pos as int].0);
            }
        }
        let ghost last = used@.len() - 1;
        assert(used@[last].0 == branch.belong_to);
        assert forall|g: GroupIdx| #[trigger] has_key(old(used)@, g) implies has_key(used@, g) by {
            let j = choose|j: int| 0 <= j < old(used)@.len() && (#[trigger] old(used)@[j]).0 == g;
            if j < pos {
                assert(used@[j] == old(used)@[j]);
            } else if j > pos {
                assert(used@[j - 1] == old(used)@[j]);
            } else {
                assert(used@[last].0 == g);
            }
        }
        assert forall|i: int, k: int| 0 <= i < used@.len() && 0 <= k < used@[i].1@.len() implies
            mark_from(old(used)@, used@[i].0, #[trigger] used@[i].1@[k])
            || (used@[i].0 == branch.belong_to && used@[i].1@[k] == (branch.branch_idx, m)) by {
            if i < pos {
                assert(used@[i] == old(used)@[i]);
                assert(old(used)@[i].1@[k] == used@[i].1@[k]);
            } else if i < last {
                assert(used@[i] == old(used)@[i + 1]);
                assert(old(used)@[i + 1].1@[k] == used@[i].1@[k]);
            } else {
                lemma_marked_elems(ms, branch.branch_idx, m, replace, k);
                if exists|l: int| 0 <= l < ms.len() && ms[l] == used@[i].1@[k] {
                    let l = choose|l: int| 0 <= l < ms.len() && ms[l] == used@[i].1@[k];
                    assert(old(used)@[pos as int].1@[l] == used@[i].1@[k]);
                }
            }
        }
    } else {
        let mut marks = Vec::new();
        marks.push((branch.branch_idx, m));
        used.push((branch.belong_to, marks));
        assert(used@.drop_last() =~= old(used)@);
        assert(marks@ =~= seq![(branch.branch_idx, m)]);
        assert forall|i: int| 0 <= i < used@.len() implies (exists|j: int| 0 <= j < old(used)@.len() && (#[trigger] used@[i]).0 == old(used)@[j].0) || used@[i].0 == branch.belong_to by {
            if i < old(used)@.len() {
                assert(used@[i] == old(used)@[i]);
            }
        }
        let ghost last = used@.len() - 1;
        assert(used@[last].0 == branch.belong_to);
        assert forall|g: GroupIdx| #[trigger] has_key(old(used)@, g) implies has_key(used@, g) by {
            let j = choose|j: int| 0 <= j < old(used)@.len() && (#[trigger] old(used)@[j]).0 == g;
            assert(used@[j] == old(used)@[j]);
        }
        assert forall|i: int, k: int| 0 <= i < used@.len() && 0 <= k < used@[i].1@.len() implies
            mark_from(old(used)@, used@[i].0, #[trigger] used@[i].1@[k])
            || (used@[i].0 == branch.belong_to && used@[i].1@[k] == (branch.branch_idx, m)) by {
            if i < last {
                assert(used@[i] == old(used)@[i]);
                assert(old(used)@[i].1@[k] == used@[i].1@[k]);
            }
        }
    }
}

fn clone_branch_list(v: &Vec<Branch>) -> (r: Vec<Branch>)
    ensures
        r@ == v@,
{
    let mut r = Vec::new();
    let mut i: usize = 0;
    while i < v.len()
        invariant
            i <= v.len(),
            r@ == v@.take(i as int),
        decreases v.len() - i,
    {
        r.push(v[i]);
        i = i + 1;
        assert(r@ == v@.take(i as int));
    }
    assert(v@.take(i as int) == v@);
    r
}

/// Some branch of the list has the type of `t`.
pub open spec fn type_in(v: Seq<(Branch, Type)>, t: Type) -> bool {
    exists|j: int| 0 <= j < v.len() && v[j].1.spec_type() == t.spec_type()
}

/// Whether some branch of the list has the type of `t`.
fn type_among(v: &Vec<(Branch, Type)>, t: &Type) -> (b: bool)
    ensures
        b == type_in(v@, *t),
{
    let mut j: usize = 0;
    while j < v.len()
        invariant
            j <= v.len(),
            forall|jj: int| 0 <= jj < j ==> v@[jj].1.spec_type() != t.spec_type(),
        decreases v.len() - j,
    {
        if v[j].1.get_type().same_as(t.get_type()) {
            return true;
        }
        j = j + 1;
    }
    false
}

/// Another handle on a shared error.
fn share_error(r: &Rc<DeclareError>) -> (s: Rc<DeclareError>)
    ensures
        s == *r,
{
    crate::declare::defs::share(r)
}

} // verus!

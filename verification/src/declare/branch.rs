use std::rc::Rc;
use vstd::prelude::*;
use crate::declare::defs::Defs;
use crate::declare::error::DeclareError;
use crate::declare::filter::{BranchFilter, TypesKind};
use crate::declare::graph::DeclareGraph;
use crate::declare::group::{Branch, GroupIdx};
use crate::declare::res::Type;
use crate::span::Span;

verus! {

/// The branches of other groups that a branch under construction may depend on:
/// for each group, the branches that are still acceptable.
pub struct BranchDepend {
    pub depends: Vec<(GroupIdx, Vec<usize>)>,
    pub failds: Vec<(GroupIdx, Vec<(usize, DeclareError)>)>,
}

/// No group has two entries.
pub open spec fn groups_unique(depends: Seq<(GroupIdx, Vec<usize>)>) -> bool {
    forall|i: int, j: int| 0 <= i < j < depends.len() ==> (#[trigger] depends[i]).0 != (#[trigger] depends[j]).0
}

/// Whether `x` is in `s`.
pub open spec fn has_usize(s: Seq<usize>, x: usize) -> bool {
    exists|i: int| 0 <= i < s.len() && s[i] == x
}

fn contains_usize(v: &Vec<usize>, x: usize) -> (b: bool)
    ensures
        b == has_usize(v@, x),
{
    let mut i: usize = 0;
    while i < v.len()
        invariant
            i <= v.len(),
            forall|j: int| 0 <= j < i ==> v@[j] != x,
        decreases v.len() - i,
    {
        if v[i] == x {
            return true;
        }
        i = i + 1;
    }
    false
}

/// `pos` is the first position of a list of entries whose key is `key`.
pub open spec fn first_key_at<K, T>(v: Seq<(K, T)>, key: K, pos: int) -> bool {
    &&& 0 <= pos < v.len()
    &&& v[pos].0 == key
    &&& forall|j: int| 0 <= j < pos ==> v[j].0 != key
}

/// There is one first position of a key.
pub proof fn lemma_first_key_unique<K, T>(v: Seq<(K, T)>, key: K, p: int, q: int)
    requires
        first_key_at(v, key, p),
        first_key_at(v, key, q),
    ensures
        p == q,
{
    if p < q {
        assert(v[p].0 == key);
    } else if q < p {
        assert(v[q].0 == key);
    }
}

/// The position of the entry of `group` in a list of entries keyed by group.
pub(crate) fn find_group<T>(v: &Vec<(GroupIdx, T)>, group: GroupIdx) -> (r: Option<usize>)
    ensures
        r matches Some(i) ==> i < v@.len() && v@[i as int].0 == group,
        r matches Some(i) ==> first_key_at(v@, group, i as int),
        r is None ==> forall|i: int| 0 <= i < v@.len() ==> v@[i].0 != group,
{
    let mut i: usize = 0;
    while i < v.len()
        invariant
            i <= v.len(),
            forall|j: int| 0 <= j < i ==> v@[j].0 != group,
        decreases v.len() - i,
    {
        if v[i].0 == group {
            return Some(i);
        }
        i = i + 1;
    }
    None
}

/// Some error is recorded for branch `x` of group `g`.
pub open spec fn fail_has(failds: Seq<(GroupIdx, Vec<(usize, DeclareError)>)>, g: GroupIdx, x: usize) -> bool {
    exists|i: int, k: int| 0 <= i < failds.len() && failds[i].0 == g && 0 <= k < failds[i].1@.len()
        && (#[trigger] failds[i].1@[k]).0 == x
}

/// How many lists of dependencies merging gives: each group with `n` acceptable branches
/// doubles them `n - 1` times.
pub open spec fn merged_count(depends: Seq<(GroupIdx, Vec<usize>)>) -> nat
    decreases depends.len(),
{
    if depends.len() == 0 {
        1
    } else {
        merged_count(depends.drop_last()) * vstd::arithmetic::power2::pow2((depends.last().1@.len() - 1) as nat)
    }
}

/// The lists of dependencies that merging gives: for each group in turn, with `n` acceptable
/// branches, the lists so far are doubled `n - 1` times, and the `k`-th block of as many
/// lists as there were gets the group's `k`-th branch (lists past the first `n` blocks get
/// none of the group's branches).
pub open spec fn merged_lists(depends: Seq<(GroupIdx, Vec<usize>)>) -> Seq<Seq<Branch>>
    decreases depends.len(),
{
    if depends.len() == 0 {
        seq![Seq::empty()]
    } else {
        let prev = merged_lists(depends.drop_last());
        let group = depends.last().0;
        let bs = depends.last().1@;
        let len = prev.len() as int;
        Seq::new(prev.len() * vstd::arithmetic::power2::pow2((bs.len() - 1) as nat), |i: int|
            prev[i % len] + if i < bs.len() * len {
                seq![Branch { belong_to: group, branch_idx: bs[i / len] }]
            } else {
                Seq::empty()
            })
    }
}

proof fn lemma_merged_len(depends: Seq<(GroupIdx, Vec<usize>)>)
    ensures
        merged_lists(depends).len() == merged_count(depends),
        merged_count(depends) >= 1,
    decreases depends.len(),
{
    if depends.len() > 0 {
        lemma_merged_len(depends.drop_last());
        let a = merged_count(depends.drop_last());
        let p = vstd::arithmetic::power2::pow2((depends.last().1@.len() - 1) as nat);
        vstd::arithmetic::power2::lemma_pow2_pos((depends.last().1@.len() - 1) as nat);
        assert(a * p >= 1) by (nonlinear_arith)
            requires a >= 1, p >= 1;
    }
}

proof fn lemma_n_le_pow2(n: nat)
    requires
        n >= 1,
    ensures
        n <= vstd::arithmetic::power2::pow2((n - 1) as nat),
    decreases n,
{
    vstd::arithmetic::power2::lemma2_to64();
    if n > 1 {
        lemma_n_le_pow2((n - 1) as nat);
        vstd::arithmetic::power2::lemma_pow2_unfold((n - 1) as nat);
        vstd::arithmetic::power2::lemma_pow2_pos((n - 2) as nat);
    }
}

/// The branch is one of the acceptable branches of its group.
pub open spec fn from_depends(depends: Seq<(GroupIdx, Vec<usize>)>, b: Branch) -> bool {
    exists|i: int| 0 <= i < depends.len() && depends[i].0 == b.belong_to && has_usize(depends[i].1@, b.branch_idx)
}

impl BranchDepend {
    pub fn new() -> (d: BranchDepend)
        ensures
            d.depends@.len() == 0,
            d.failds@.len() == 0,
    {
        BranchDepend { depends: Vec::new(), failds: Vec::new() }
    }

    /// Narrows the acceptable branches of `group` to `branches`: those it had and that are
    /// among `branches`, or `branches` where the group had none recorded. The entry of the group
    /// goes to the end. The branches given up get `reason`, noting the type they had (from
    /// `alive`, the branches of the group).
    pub fn new_depends(&mut self, group: GroupIdx, branches: Vec<usize>, reason: &Rc<DeclareError>, alive: &Vec<(Branch, Type)>)
        ensures
            forall|i: int| 0 <= i < old(self).depends@.len() && old(self).depends@[i].0 != group ==>
                exists|j: int| 0 <= j < final(self).depends@.len() && final(self).depends@[j] == old(self).depends@[i],
            exists|j: int| 0 <= j < final(self).depends@.len() && final(self).depends@[j].0 == group && (
                forall|x: usize| has_usize(final(self).depends@[j].1@, x) ==> has_usize(branches@, x)),
            forall|j: int| 0 <= j < final(self).depends@.len() ==> (#[trigger] final(self).depends@[j]).0 == group
                || exists|i: int| 0 <= i < old(self).depends@.len() && old(self).depends@[i].0 == final(self).depends@[j].0,
            final(self).depends@.len() > 0,
            final(self).depends@.last().0 == group,
            (forall|i: int| 0 <= i < old(self).depends@.len() ==> old(self).depends@[i].0 != group) ==>
                final(self).depends@.drop_last() == old(self).depends@ && final(self).depends@.last().1@ == branches@,
            forall|pos: int| #[trigger] first_key_at(old(self).depends@, group, pos) ==> {
                &&& final(self).depends@.drop_last() == old(self).depends@.remove(pos)
                &&& forall|x: usize| #[trigger] has_usize(final(self).depends@.last().1@, x) <==>
                        has_usize(old(self).depends@[pos].1@, x) && has_usize(branches@, x)
                &&& forall|x: usize| has_usize(old(self).depends@[pos].1@, x) && !has_usize(branches@, x) ==>
                        #[trigger] fail_has(final(self).failds@, group, x)
            },
            forall|g: GroupIdx, x: usize| #[trigger] fail_has(old(self).failds@, g, x) ==> fail_has(final(self).failds@, g, x),
            groups_unique(old(self).depends@) ==> groups_unique(final(self).depends@),
    {
        match find_group(&self.depends, group) {
            Some(pos) => {
                assert forall|p: int| #[trigger] first_key_at(old(self).depends@, group, p) implies p == pos by {
                    lemma_first_key_unique(old(self).depends@, group, p, pos as int);
                }
                let (g, previous) = self.depends.remove(pos);
                let mut kept: Vec<usize> = Vec::new();
                let mut i: usize = 0;
                let ghost removed = self.depends@;
                assert(removed == old(self).depends@.remove(pos as int));
                while i < previous.len()
                    invariant
                        i <= previous.len(),
                        self.depends@ == removed,
                        forall|x: usize| has_usize(kept@, x) <==>
                            (exists|j: int| 0 <= j < i && previous@[j] == x) && has_usize(branches@, x),
                        forall|x: usize| (exists|j: int| 0 <= j < i && previous@[j] == x) && !has_usize(branches@, x) ==>
                            #[trigger] fail_has(self.failds@, group, x),
                        forall|g2: GroupIdx, x: usize| #[trigger] fail_has(old(self).failds@, g2, x) ==> fail_has(self.failds@, g2, x),
                    decreases previous.len() - i,
                {
                    let p = previous[i];
                    let ghost fd = self.failds@;
                    if contains_usize(&branches, p) {
                        assert forall|x: usize| (exists|j: int| 0 <= j < i + 1 && previous@[j] == x) && !has_usize(branches@, x) implies
                            #[trigger] fail_has(self.failds@, group, x) by {
                            let j = choose|j: int| 0 <= j < i + 1 && previous@[j] == x;
                            assert(j != i);
                        }
                        let ghost old_kept = kept@;
                        kept.push(p);
                        assert forall|x: usize| has_usize(kept@, x) <==>
                            (exists|j: int| 0 <= j < i + 1 && previous@[j] == x) && has_usize(branches@, x) by {
                            if has_usize(kept@, x) && x != p {
                                let k = choose|k: int| 0 <= k < kept@.len() && kept@[k] == x;
                                assert(old_kept[k] == x);
                                assert(has_usize(old_kept, x));
                            }
                            if x == p {
                                assert(kept@[old_kept.len() as int] == x);
                            } else if (exists|j: int| 0 <= j < i + 1 && previous@[j] == x) && has_usize(branches@, x) {
                                let j = choose|j: int| 0 <= j < i + 1 && previous@[j] == x;
                                assert(j < i);
                                let k = choose|k: int| 0 <= k < old_kept.len() && old_kept[k] == x;
                                assert(kept@[k] == x);
                            }
                        }
                    } else {
                        let error = self.previous_error(reason, alive, Branch::new(group, p));
                        self.record_fail(group, p, error);
                        assert forall|x: usize| (exists|j: int| 0 <= j < i + 1 && previous@[j] == x) && !has_usize(branches@, x) implies
                            #[trigger] fail_has(self.failds@, group, x) by {
                            if x != p {
                                let j = choose|j: int| 0 <= j < i + 1 && previous@[j] == x;
                                assert(j != i);
                                assert(fail_has(fd, group, x));
                            }
                        }
                        assert forall|x: usize| has_usize(kept@, x) <==>
                            (exists|j: int| 0 <= j < i + 1 && previous@[j] == x) && has_usize(branches@, x) by {
                            if (exists|j: int| 0 <= j < i + 1 && previous@[j] == x) && has_usize(branches@, x) {
                                let j = choose|j: int| 0 <= j < i + 1 && previous@[j] == x;
                                assert(j != i);
                            }
                        }
                    }
                    i = i + 1;
                }
                let ghost before = self.depends@;
                self.depends.push((g, kept));
                assert(self.depends@.drop_last() =~= before);
                assert(self.depends@[before.len() as int].0 == group);
                assert forall|x: usize| #[trigger] has_usize(self.depends@.last().1@, x) <==>
                    has_usize(old(self).depends@[pos as int].1@, x) && has_usize(branches@, x) by {
                    assert(self.depends@.last().1 == kept);
                    assert(previous == old(self).depends@[pos as int].1);
                }
                assert forall|x: usize| has_usize(old(self).depends@[pos as int].1@, x) && !has_usize(branches@, x) implies
                    #[trigger] fail_has(self.failds@, group, x) by {
                    assert(previous == old(self).depends@[pos as int].1);
                }
                assert forall|j: int| 0 <= j < self.depends@.len() implies (#[trigger] self.depends@[j]).0 == group
                    || exists|i: int| 0 <= i < old(self).depends@.len() && old(self).depends@[i].0 == self.depends@[j].0 by {
                    if j < before.len() {
                        if j < pos {
                            assert(old(self).depends@[j] == self.depends@[j]);
                        } else {
                            assert(old(self).depends@[j + 1] == self.depends@[j]);
                        }
                    }
                }
                assert forall|i: int| 0 <= i < old(self).depends@.len() && old(self).depends@[i].0 != group implies
                    exists|j: int| 0 <= j < self.depends@.len() && self.depends@[j] == old(self).depends@[i] by {
                    if i < pos {
                        assert(self.depends@[i] == old(self).depends@[i]);
                    } else {
                        assert(self.depends@[i - 1] == old(self).depends@[i]);
                    }
                }
                assert(forall|x: usize| has_usize(self.depends@[before.len() as int].1@, x) ==> has_usize(branches@, x));
            },
            None => {
                self.depends.push((group, branches));
                assert(self.depends@.drop_last() =~= old(self).depends@);
                assert(self.depends@[old(self).depends@.len() as int].0 == group);
                assert forall|j: int| 0 <= j < self.depends@.len() implies (#[trigger] self.depends@[j]).0 == group
                    || exists|i: int| 0 <= i < old(self).depends@.len() && old(self).depends@[i].0 == self.depends@[j].0 by {
                    if j < old(self).depends@.len() {
                        assert(old(self).depends@[j] == self.depends@[j]);
                    }
                }
                assert(forall|x: usize| has_usize(branches@, x) ==> has_usize(branches@, x));
                assert forall|i: int| 0 <= i < old(self).depends@.len() && old(self).depends@[i].0 != group implies
                    exists|j: int| 0 <= j < self.depends@.len() && self.depends@[j] == old(self).depends@[i] by {
                    assert(self.depends@[i] == old(self).depends@[i]);
                }
            },
        }
    }

    /// The shared reason, with the type the branch used to have where it is among the alive ones
    /// (the first such entry).
    fn previous_error(&self, reason: &Rc<DeclareError>, alive: &Vec<(Branch, Type)>, branch: Branch) -> (e: DeclareError)
        ensures
            (forall|i: int| 0 <= i < alive@.len() ==> alive@[i].0 != branch) ==> e == (DeclareError::Shared { err: *reason }),
            (exists|i: int| 0 <= i < alive@.len() && alive@[i].0 == branch) ==> exists|i: int|
                0 <= i < alive@.len() && alive@[i].0 == branch && e == (DeclareError::WithPrevious {
                    previous: alive@[i].1,
                    error: Box::new(DeclareError::Shared { err: *reason }),
                }),
    {
        let mut i: usize = 0;
        while i < alive.len()
            invariant
                i <= alive.len(),
                forall|k: int| 0 <= k < i ==> alive@[k].0 != branch,
            decreases alive.len() - i,
        {
            if alive[i].0 == branch {
                return DeclareError::shared(reason).with_previous(alive[i].1.share());
            }
            i = i + 1;
        }
        DeclareError::shared(reason)
    }

    /// Records why a branch of `group` was given up: the errors of the group, with this one
    /// last, go to the end of the list.
    fn record_fail(&mut self, group: GroupIdx, branch: usize, error: DeclareError)
        ensures
            final(self).depends == old(self).depends,
            final(self).failds@.len() > 0,
            final(self).failds@.last().0 == group,
            (forall|i: int| 0 <= i < old(self).failds@.len() ==> old(self).failds@[i].0 != group) ==>
                final(self).failds@.drop_last() == old(self).failds@
                && final(self).failds@.last().1@ == seq![(branch, error)],
            forall|pos: int| #[trigger] first_key_at(old(self).failds@, group, pos) ==>
                final(self).failds@.drop_last() == old(self).failds@.remove(pos)
                && final(self).failds@.last().1@ == old(self).failds@[pos].1@.push((branch, error)),
            fail_has(final(self).failds@, group, branch),
            forall|g: GroupIdx, x: usize| #[trigger] fail_has(old(self).failds@, g, x) ==> fail_has(final(self).failds@, g, x),
    {
        match find_group(&self.failds, group) {
            Some(pos) => {
                let (g, mut errors) = self.failds.remove(pos);
                let ghost prev = errors@;
                errors.push((branch, error));
                let ghost rest = self.failds@;
                self.failds.push((g, errors));
                assert(self.failds@.drop_last() =~= rest);
                assert forall|p: int| #[trigger] first_key_at(old(self).failds@, group, p) implies p == pos by {
                    lemma_first_key_unique(old(self).failds@, group, p, pos as int);
                }
                let ghost last = self.failds@.len() - 1;
                assert(self.failds@[last].1@[prev.len() as int].0 == branch);
                assert forall|g2: GroupIdx, x: usize| #[trigger] fail_has(old(self).failds@, g2, x) implies fail_has(self.failds@, g2, x) by {
                    let (i, k) = choose|i: int, k: int| 0 <= i < old(self).failds@.len() && old(self).failds@[i].0 == g2
                        && 0 <= k < old(self).failds@[i].1@.len() && (#[trigger] old(self).failds@[i].1@[k]).0 == x;
                    if i < pos {
                        assert(self.failds@[i] == old(self).failds@[i]);
                        assert(self.failds@[i].1@[k].0 == x);
                    } else if i > pos {
                        assert(self.failds@[i - 1] == old(self).failds@[i]);
                        assert(self.failds@[i - 1].1@[k].0 == x);
                    } else {
                        assert(self.failds@[last].1@[k] == prev[k]);
                        assert(self.failds@[last].1@[k].0 == x);
                    }
                }
            },
            None => {
                let mut errors = Vec::new();
                errors.push((branch, error));
                self.failds.push((group, errors));
                assert(self.failds@.drop_last() =~= old(self).failds@);
                assert(errors@ =~= seq![(branch, error)]);
                let ghost last = self.failds@.len() - 1;
                assert(self.failds@[last].1@[0].0 == branch);
                assert forall|g2: GroupIdx, x: usize| #[trigger] fail_has(old(self).failds@, g2, x) implies fail_has(self.failds@, g2, x) by {
                    let (i, k) = choose|i: int, k: int| 0 <= i < old(self).failds@.len() && old(self).failds@[i].0 == g2
                        && 0 <= k < old(self).failds@[i].1@.len() && (#[trigger] old(self).failds@[i].1@[k]).0 == x;
                    assert(self.failds@[i] == old(self).failds@[i]);
                    assert(self.failds@[i].1@[k].0 == x);
                }
            },
        }
    }

    /// Whether some group has no acceptable branch left.
    pub open spec fn spec_has_empty(self) -> bool {
        exists|i: int| 0 <= i < self.depends@.len() && self.depends@[i].1@.len() == 0
    }

    /// The dependencies of each branch to build, merged group by group as `merged_lists`
    /// says (with one or two acceptable branches per group, the cartesian product); or, when
    /// a group has no acceptable branch, the errors of those groups.
    pub fn merge_depends(self) -> (r: Result<Vec<Vec<Branch>>, Vec<(GroupIdx, Vec<(usize, DeclareError)>)>>)
        ensures
            r is Err <==> self.spec_has_empty(),
            r matches Ok(v) ==> v@.len() == merged_count(self.depends@),
            r matches Ok(v) ==> v@.len() == merged_lists(self.depends@).len()
                && forall|i: int| 0 <= i < v@.len() ==> (#[trigger] v@[i])@ == merged_lists(self.depends@)[i],
            r matches Ok(v) ==> v@.len() > 0 && (forall|i: int, j: int| 0 <= i < v@.len() && 0 <= j < v@[i]@.len() ==>
                from_depends(self.depends@, #[trigger] v@[i]@[j])),
    {
        let mut failds = self.failds;
        let mut errors: Vec<(GroupIdx, Vec<(usize, DeclareError)>)> = Vec::new();
        let mut i: usize = 0;
        while i < self.depends.len()
            invariant
                i <= self.depends.len(),
                errors@.len() == 0 <==> forall|j: int| 0 <= j < i ==> self.depends@[j].1@.len() != 0,
            decreases self.depends.len() - i,
        {
            if self.depends[i].1.len() == 0 {
                let group = self.depends[i].0;
                let errs = match find_group(&failds, group) {
                    Some(pos) => failds.remove(pos).1,
                    None => Vec::new(),
                };
                errors.push((group, errs));
            }
            i = i + 1;
        }
        if errors.len() != 0 {
            return Err(errors);
        }
        let ghost depends = self.depends@;
        let mut groups: Vec<Vec<Branch>> = Vec::new();
        groups.push(Vec::new());
        proof {
            assert(depends.take(0) =~= Seq::<(GroupIdx, Vec<usize>)>::empty());
            assert(groups@[0]@ =~= merged_lists(depends.take(0))[0]);
        }
        let mut d: usize = 0;
        while d < self.depends.len()
            invariant
                d <= self.depends.len(),
                depends == self.depends@,
                groups@.len() > 0,
                groups@.len() == merged_count(depends.take(d as int)),
                groups@.len() == merged_lists(depends.take(d as int)).len(),
                forall|i: int| 0 <= i < groups@.len() ==> (#[trigger] groups@[i])@ == merged_lists(depends.take(d as int))[i],
                forall|j: int| 0 <= j < depends.len() ==> (#[trigger] depends[j]).1@.len() != 0,
                forall|i: int, j: int| 0 <= i < groups@.len() && 0 <= j < groups@[i]@.len() ==>
                    from_depends(depends, #[trigger] groups@[i]@[j]),
            decreases self.depends.len() - d,
        {
            let group = self.depends[d].0;
            let depend = &self.depends[d].1;
            let len = groups.len();
            let ghost prev = merged_lists(depends.take(d as int));
            proof {
                let tk = depends.take(d as int + 1);
                assert(tk.drop_last() == depends.take(d as int));
                assert(tk.last() == depends[d as int]);
                assert(depends[d as int].1@.len() != 0);
                vstd::arithmetic::power2::lemma2_to64();
                assert(len * vstd::arithmetic::power2::pow2(0) == len);
                assert forall|i: int| 0 <= i < groups@.len() implies (#[trigger] groups@[i])@ == prev[i % (len as int)] by {
                    vstd::arithmetic::div_mod::lemma_small_mod(i as nat, len as nat);
                }
            }
            let mut t: usize = 1;
            while t < depend.len()
                invariant
                    groups@.len() >= len,
                    len > 0,
                    len == prev.len(),
                    1 <= t <= depend@.len(),
                    groups@.len() == len * vstd::arithmetic::power2::pow2((t - 1) as nat),
                    forall|i: int| 0 <= i < groups@.len() ==> (#[trigger] groups@[i])@ == prev[i % (len as int)],
                    forall|i: int, j: int| 0 <= i < groups@.len() && 0 <= j < groups@[i]@.len() ==>
                        from_depends(depends, #[trigger] groups@[i]@[j]),
                decreases depend.len() - t,
            {
                let copy = clone_lists(&groups);
                let ghost before = groups@;
                let mut c: usize = 0;
                while c < copy.len()
                    invariant
                        c <= copy.len(),
                        len > 0,
                        copy@.len() == before.len(),
                        forall|k: int| 0 <= k < copy@.len() ==> copy@[k]@ == before[k]@,
                        groups@.len() == before.len() + c,
                        before.len() >= len,
                        before.len() == len * vstd::arithmetic::power2::pow2((t - 1) as nat),
                        forall|i: int| 0 <= i < before.len() ==> (#[trigger] before[i])@ == prev[i % (len as int)],
                        forall|i: int| 0 <= i < groups@.len() ==> (#[trigger] groups@[i])@ == prev[i % (len as int)],
                        forall|i: int, j: int| 0 <= i < groups@.len() && 0 <= j < groups@[i]@.len() ==>
                            from_depends(depends, #[trigger] groups@[i]@[j]),
                        forall|i: int, j: int| 0 <= i < before.len() && 0 <= j < before[i]@.len() ==>
                            from_depends(depends, #[trigger] before[i]@[j]),
                    decreases copy.len() - c,
                {
                    let next = clone_branches(&copy[c]);
                    assert(next@ == before[c as int]@);
                    proof {
                        vstd::arithmetic::div_mod::lemma_mod_multiples_vanish(
                            vstd::arithmetic::power2::pow2((t - 1) as nat) as int, c as int, len as int);
                    }
                    groups.push(next);
                    c = c + 1;
                }
                proof {
                    vstd::arithmetic::power2::lemma_pow2_unfold(t as nat);
                    let p = vstd::arithmetic::power2::pow2((t - 1) as nat);
                    assert(len * (2 * p) == 2 * (len * p)) by (nonlinear_arith);
                }
                t = t + 1;
            }
            let total = groups.len();
            let ghost glen = groups@.len();
            let ghost n = depend@.len();
            proof {
                lemma_n_le_pow2(n);
                let p = vstd::arithmetic::power2::pow2((n - 1) as nat);
                assert(n * len <= len * p) by (nonlinear_arith)
                    requires n <= p, len > 0;
            }
            let mut k: usize = 0;
            while k < depend.len()
                invariant
                    groups@.len() >= len,
                    len > 0,
                    len == prev.len(),
                    n == depend@.len(),
                    k <= n,
                    n * len <= glen,
                    0 <= d < depends.len(),
                    depends[d as int].0 == group,
                    depend@ == depends[d as int].1@,
                    forall|i: int, j: int| 0 <= i < groups@.len() && 0 <= j < groups@[i]@.len() ==>
                        from_depends(depends, #[trigger] groups@[i]@[j]),
                    groups@.len() == glen,
                    glen == total,
                    forall|i: int| 0 <= i < glen ==> (#[trigger] groups@[i])@ == prev[i % (len as int)]
                        + if i < k * len { seq![Branch { belong_to: group, branch_idx: depend@[i / (len as int)] }] } else { Seq::empty() },
                decreases depend.len() - k,
            {
                let branch = Branch::new(group, depend[k]);
                assert(from_depends(depends, branch)) by {
                    assert(has_usize(depends[d as int].1@, branch.branch_idx)) by {
                        assert(depends[d as int].1@[k as int] == branch.branch_idx);
                    }
                }
                proof {
                    assert((k + 1) * len <= n * len) by (nonlinear_arith)
                        requires k + 1 <= n, len > 0;
                    assert((k + 1) * len == k * len + len) by (nonlinear_arith);
                }
                let mut j: usize = 0;
                while j < len
                    invariant
                        j <= len,
                        len > 0,
                        k < n,
                        k * len + len <= glen,
                        groups@.len() >= len,
                        from_depends(depends, branch),
                        branch == (Branch { belong_to: group, branch_idx: depend@[k as int] }),
                        forall|i: int, j: int| 0 <= i < groups@.len() && 0 <= j < groups@[i]@.len() ==>
                            from_depends(depends, #[trigger] groups@[i]@[j]),
                        groups@.len() == glen,
                        glen <= usize::MAX,
                        forall|i: int| 0 <= i < glen ==> (#[trigger] groups@[i])@ == prev[i % (len as int)]
                            + if i < k * len + j { seq![Branch { belong_to: group, branch_idx: depend@[i / (len as int)] }] } else { Seq::empty() },
                    decreases len - j,
                {
                    match k.checked_mul(len) {
                        Some(base) => match base.checked_add(j) {
                            Some(idx) => {
                                if idx < groups.len() {
                                    let ghost before = groups@;
                                    proof {
                                        vstd::arithmetic::div_mod::lemma_fundamental_div_mod_converse(
                                            idx as int, len as int, k as int, j as int);
                                    }
                                    groups[idx].push(branch);
                                    assert forall|i: int, jj: int| 0 <= i < groups@.len() && 0 <= jj < groups@[i]@.len() implies
                                        from_depends(depends, #[trigger] groups@[i]@[jj]) by {
                                        if i != idx {
                                            assert(groups@[i] == before[i]);
                                        } else if jj < before[i]@.len() {
                                            assert(groups@[i]@[jj] == before[i]@[jj]);
                                        }
                                    }
                                    assert forall|i: int| 0 <= i < glen implies (#[trigger] groups@[i])@ == prev[i % (len as int)]
                                        + if i < k * len + j + 1 { seq![Branch { belong_to: group, branch_idx: depend@[i / (len as int)] }] } else { Seq::empty() } by {
                                        if i != idx {
                                            assert(groups@[i] == before[i]);
                                        }
                                    }
                                }
                            },
                            None => {},
                        },
                        None => {},
                    }
                    j = j + 1;
                }
                k = k + 1;
            }
            proof {
                let tk = depends.take(d as int + 1);
                assert(tk.drop_last() == depends.take(d as int));
                assert(tk.last() == depends[d as int]);
                lemma_merged_len(tk);
                lemma_merged_len(depends.take(d as int));
                assert forall|i: int| 0 <= i < groups@.len() implies (#[trigger] groups@[i])@ == merged_lists(tk)[i] by {
                }
            }
            d = d + 1;
        }
        assert(depends.take(d as int) == depends);
        Ok(groups)
    }
}

fn clone_branches(v: &Vec<Branch>) -> (r: Vec<Branch>)
    ensures
        r@ == v@,
{
    let mut r = Vec::new();
    let mut i: usize = 0;
    while i < v.len()
        invariant
            i <= v.len(),
            r@ == v@.take(i as int),
        decreases v.len() - i,
    {
        r.push(v[i]);
        i = i + 1;
        assert(r@ == v@.take(i as int));
    }
    assert(v@.take(i as int) == v@);
    r
}

fn clone_lists(v: &Vec<Vec<Branch>>) -> (r: Vec<Vec<Branch>>)
    ensures
        r@.len() == v@.len(),
        forall|k: int| 0 <= k < v@.len() ==> r@[k]@ == v@[k]@,
{
    let mut r: Vec<Vec<Branch>> = Vec::new();
    let mut i: usize = 0;
    while i < v.len()
        invariant
            i <= v.len(),
            r@.len() == i,
            forall|k: int| 0 <= k < i ==> r@[k]@ == v@[k]@,
        decreases v.len() - i,
    {
        r.push(clone_branches(&v[i]));
        i = i + 1;
    }
    r
}

/// Branch `x` of group `g` is alive and its type satisfies the filter.
pub open spec fn satisfies_alive<B: BranchFilter>(map: &DeclareGraph, g: GroupIdx, filter: &B, x: usize) -> bool {
    map.spec_alive(Branch { belong_to: g, branch_idx: x })
        && filter.spec_satisfy(map.spec_branch(Branch { belong_to: g, branch_idx: x }))
}

/// A possible type of a value under construction, with what it depends on.
pub struct BranchesBuilder {
    pub state: Result<Type, DeclareError>,
    pub depends: BranchDepend,
}

impl BranchesBuilder {
    pub fn new(ty: Type) -> (b: BranchesBuilder)
        ensures
            b.state == Ok::<Type, DeclareError>(ty),
            b.depends.depends@.len() == 0,
    {
        BranchesBuilder { state: Ok(ty), depends: BranchDepend::new() }
    }

    /// Gives the branch up when its type does not satisfy the filter; returns whether it is
    /// still possible.
    pub fn filter_self<B: BranchFilter>(&mut self, defs: &Defs, filter: &B, kind: TypesKind) -> (ok: bool)
        ensures
            ok == (final(self).state is Ok),
            final(self).depends == old(self).depends,
            old(self).state is Err ==> final(self).state == old(self).state,
            old(self).state matches Ok(t) ==> (
                if filter.spec_satisfy(t) { final(self).state == old(self).state } else { final(self).state is Err }),
            old(self).state matches Ok(t) ==> (!filter.spec_satisfy(t) ==> (final(self).state matches Err(e)
                && (e matches DeclareError::WithPrevious { previous, error } && previous == t
                    && (*error matches DeclareError::Unexpect { expect } && expect@ == filter.spec_expect(*defs, kind))))),
    {
        let failed = match &self.state {
            Ok(ty) => !filter.satisfy(ty),
            Err(_) => false,
        };
        if failed {
            let mut previous = Err(DeclareError::Empty);
            std::mem::swap(&mut self.state, &mut previous);
            match previous {
                Ok(previous) => {
                    let err = DeclareError::Unexpect { expect: filter.expect(defs, kind) }.with_previous(previous);
                    self.state = Err(err);
                },
                Err(e) => {
                    self.state = Err(e);
                },
            }
        }
        self.state.is_ok()
    }

    /// Lets the branch depend on the branches of group `depend` that satisfy the filter.
    pub fn new_depend<B: BranchFilter>(self, map: &DeclareGraph, defs: &Defs, depend: GroupIdx, filter: &B, kind: TypesKind) -> (b: BranchesBuilder)
        requires
            map.wf(),
            depend.idx < map.spec_groups().len(),
        ensures
            b.state == self.state,
            (forall|j: int| 0 <= j < self.depends.depends@.len() ==> (#[trigger] self.depends.depends@[j]).0.idx < map.spec_groups().len())
                ==> forall|j: int| 0 <= j < b.depends.depends@.len() ==> (#[trigger] b.depends.depends@[j]).0.idx < map.spec_groups().len(),
            self.state is Ok ==> exists|j: int| 0 <= j < b.depends.depends@.len() && b.depends.depends@[j].0 == depend && (
                forall|x: usize| has_usize(b.depends.depends@[j].1@, x) ==>
                    map.spec_alive(Branch { belong_to: depend, branch_idx: x })
                    && filter.spec_satisfy(map.spec_branch(Branch { belong_to: depend, branch_idx: x }))),
            self.state is Err ==> b == self,
            groups_unique(self.depends.depends@) ==> groups_unique(b.depends.depends@),
            self.state is Ok ==> b.depends.depends@.len() > 0 && b.depends.depends@.last().0 == depend,
            self.state is Ok && (forall|i: int| 0 <= i < self.depends.depends@.len() ==> self.depends.depends@[i].0 != depend) ==> {
                &&& b.depends.depends@.drop_last() == self.depends.depends@
                &&& forall|x: usize| #[trigger] has_usize(b.depends.depends@.last().1@, x) <==> satisfies_alive(map, depend, filter, x)
            },
            self.state is Ok ==> forall|pos: int| #[trigger] first_key_at(self.depends.depends@, depend, pos) ==> {
                &&& b.depends.depends@.drop_last() == self.depends.depends@.remove(pos)
                &&& forall|x: usize| #[trigger] has_usize(b.depends.depends@.last().1@, x) <==>
                        has_usize(self.depends.depends@[pos].1@, x) && satisfies_alive(map, depend, filter, x)
                &&& forall|x: usize| has_usize(self.depends.depends@[pos].1@, x) && !satisfies_alive(map, depend, filter, x) ==>
                        #[trigger] fail_has(b.depends.failds@, depend, x)
            },
    {
        if self.state.is_err() {
            return self;
        }
        let mut this = self;
        let alive = map.group_alives(depend);
        let mut satisfy: Vec<usize> = Vec::new();
        let mut i: usize = 0;
        while i < alive.len()
            invariant
                i <= alive.len(),
                forall|k: int| 0 <= k < alive@.len() ==> alive@[k].0.belong_to == depend
                    && map.spec_alive(alive@[k].0) && alive@[k].1 == map.spec_branch(alive@[k].0),
                forall|x: usize| has_usize(satisfy@, x) ==>
                    map.spec_alive(Branch { belong_to: depend, branch_idx: x })
                    && filter.spec_satisfy(map.spec_branch(Branch { belong_to: depend, branch_idx: x })),
                forall|k: int| 0 <= k < i && filter.spec_satisfy(#[trigger] alive@[k].1) ==> has_usize(satisfy@, alive@[k].0.branch_idx),
            decreases alive.len() - i,
        {
            let ok = filter.satisfy(&alive[i].1);
            if ok {
                let b = alive[i].0.branch_idx;
                let ghost bb = alive@[i as int].0;
                assert(bb == Branch { belong_to: depend, branch_idx: b });
                assert(map.spec_alive(bb) && filter.spec_satisfy(map.spec_branch(bb)));
                let ghost old_s = satisfy@;
                satisfy.push(b);
                assert forall|x: usize| has_usize(satisfy@, x) implies
                    map.spec_alive(Branch { belong_to: depend, branch_idx: x })
                    && filter.spec_satisfy(map.spec_branch(Branch { belong_to: depend, branch_idx: x })) by {
                    if x != b {
                        let k = choose|k: int| 0 <= k < satisfy@.len() && satisfy@[k] == x;
                        assert(k < old_s.len());
                        assert(old_s[k] == x);
                        assert(has_usize(old_s, x));
                    }
                }
                assert forall|k: int| 0 <= k < i + 1 && filter.spec_satisfy(#[trigger] alive@[k].1) implies
                    has_usize(satisfy@, alive@[k].0.branch_idx) by {
                    if k < i {
                        let m = choose|m: int| 0 <= m < old_s.len() && old_s[m] == alive@[k].0.branch_idx;
                        assert(satisfy@[m] == old_s[m]);
                    } else {
                        assert(satisfy@[old_s.len() as int] == b);
                    }
                }
            }
            i = i + 1;
        }
        let reason = Rc::new(
            DeclareError::Unexpect { expect: filter.expect(defs, kind) }.with_location(filter.get_span()),
        );
        let ghost sat = satisfy@;
        assert forall|x: usize| has_usize(sat, x) <==> satisfies_alive(map, depend, filter, x) by {
            if satisfies_alive(map, depend, filter, x) {
                let bb = Branch { belong_to: depend, branch_idx: x };
                let k = choose|k: int| 0 <= k < alive@.len() && alive@[k].0 == bb;
                assert(filter.spec_satisfy(alive@[k].1));
            }
        }
        this.depends.new_depends(depend, satisfy, &reason, &alive);
        proof {
            let j = choose|j: int| 0 <= j < this.depends.depends@.len() && this.depends.depends@[j].0 == depend && (
                forall|x: usize| has_usize(this.depends.depends@[j].1@, x) ==> has_usize(sat, x));
            assert forall|x: usize| has_usize(this.depends.depends@[j].1@, x) implies
                map.spec_alive(Branch { belong_to: depend, branch_idx: x })
                && filter.spec_satisfy(map.spec_branch(Branch { belong_to: depend, branch_idx: x })) by {
                assert(has_usize(sat, x));
            }
        }
        this
    }
}

/// The possible types of a value, to be put in a new group.
pub struct GroupBuilder {
    pub span: Span,
    pub branches: Vec<BranchesBuilder>,
}

impl GroupBuilder {
    pub fn new(span: Span, branches: Vec<BranchesBuilder>) -> (g: GroupBuilder)
        ensures
            g.span == span,
            g.branches@ == branches@,
    {
        GroupBuilder { span, branches }
    }
}

} // verus!

use std::rc::Rc;
use vstd::prelude::*;
use crate::declare::error::DeclareError;
use crate::declare::res::Type;
use crate::span::{Error, Message, Span};
use crate::text::text;

verus! {

/// The index of a group of possible types in a [`crate::declare::graph::DeclareGraph`].
#[derive(Debug, Clone, Copy, PartialEq, Eq, Structural)]
pub struct GroupIdx {
    pub idx: usize,
}

impl GroupIdx {
    pub fn new(idx: usize) -> (g: GroupIdx)
        ensures
            g.idx == idx,
    {
        GroupIdx { idx }
    }
}

/// One possible type of a group: the group it belongs to and its index there.
#[derive(Debug, Clone, Copy, PartialEq, Eq, Structural)]
pub struct Branch {
    pub belong_to: GroupIdx,
    pub branch_idx: usize,
}

impl Branch {
    pub fn new(belong_to: GroupIdx, branch_idx: usize) -> (b: Branch)
        ensures
            b.belong_to == belong_to,
            b.branch_idx == branch_idx,
    {
        Branch { belong_to, branch_idx }
    }
}

/// A branch of a group: still possible, or given up for a reason.
#[derive(Debug)]
pub enum BranchSlot {
    Alive(Type),
    Failed(DeclareError),
}

/// How many slots are alive.
pub open spec fn count_alive(s: Seq<BranchSlot>) -> nat
    decreases s.len(),
{
    if s.len() == 0 {
        0
    } else {
        count_alive(s.drop_last()) + if s.last() is Alive { 1nat } else { 0nat }
    }
}

pub proof fn lemma_count_alive_bound(s: Seq<BranchSlot>)
    ensures
        count_alive(s) <= s.len(),
    decreases s.len(),
{
    if s.len() > 0 {
        lemma_count_alive_bound(s.drop_last());
    }
}

/// With no alive slot, no slot is alive; with exactly one, it is the only one.
pub proof fn lemma_count_alive(s: Seq<BranchSlot>)
    ensures
        count_alive(s) == 0 <==> (forall|i: int| 0 <= i < s.len() ==> !(s[i] is Alive)),
        count_alive(s) == 1 ==> exists|i: int|
            0 <= i < s.len() && s[i] is Alive && (forall|j: int| 0 <= j < s.len() && s[j] is Alive ==> j == i),
        count_alive(s) >= 2 ==> exists|i: int, j: int|
            0 <= i < j < s.len() && s[i] is Alive && s[j] is Alive,
    decreases s.len(),
{
    if s.len() > 0 {
        let t = s.drop_last();
        lemma_count_alive(t);
        assert(forall|i: int| 0 <= i < t.len() ==> t[i] == s[i]);
        if count_alive(s) == 1 && !(s.last() is Alive) {
            let i = choose|i: int|
                0 <= i < t.len() && t[i] is Alive && (forall|j: int| 0 <= j < t.len() && t[j] is Alive ==> j == i);
            assert(0 <= i < s.len() && s[i] is Alive);
        }
        if count_alive(s) == 1 && s.last() is Alive {
            assert(0 <= s.len() - 1 < s.len() && s[s.len() - 1] is Alive);
        }
        if count_alive(s) >= 2 && s.last() is Alive {
            let i = choose|i: int| 0 <= i < t.len() && t[i] is Alive;
            assert(0 <= i < s.len() - 1 < s.len() && s[i] is Alive && s[s.len() - 1] is Alive);
        }
        if count_alive(s) >= 2 && !(s.last() is Alive) {
            let (i, j) = choose|i: int, j: int| 0 <= i < j < t.len() && t[i] is Alive && t[j] is Alive;
            assert(0 <= i < j < s.len() && s[i] is Alive && s[j] is Alive);
        }
    }
}

/// A group of possible types of one value. The group is declared when exactly one branch
/// is alive.
#[derive(Debug)]
pub struct DeclareGroup {
    span: Span,
    group: GroupIdx,
    slots: Vec<BranchSlot>,
}

impl DeclareGroup {
    pub closed spec fn spec_span(self) -> Span {
        self.span
    }

    pub closed spec fn spec_group(self) -> GroupIdx {
        self.group
    }

    /// The slots, by branch index.
    pub closed spec fn spec_slots(self) -> Seq<BranchSlot> {
        self.slots@
    }

    pub open spec fn spec_alive(self, branch: usize) -> bool {
        branch < self.spec_slots().len() && self.spec_slots()[branch as int] is Alive
    }

    /// The type of an alive branch.
    pub open spec fn spec_branch(self, branch: usize) -> Type {
        self.spec_slots()[branch as int]->Alive_0
    }

    pub open spec fn spec_declared(self) -> bool {
        count_alive(self.spec_slots()) == 1
    }

    /// A declared group has an alive branch.
    pub proof fn lemma_declared_alive(self)
        requires
            self.spec_declared(),
        ensures
            exists|i: usize| self.spec_alive(i),
    {
        lemma_count_alive(self.slots@);
        let i = choose|i: int| 0 <= i < self.slots@.len() && self.slots@[i] is Alive
            && (forall|j: int| 0 <= j < self.slots@.len() && self.slots@[j] is Alive ==> j == i);
        assert(self.slots@.len() == self.slots.len());
        assert(self.spec_alive(i as usize));
    }

    pub fn new(span: Span, group: GroupIdx, slots: Vec<BranchSlot>) -> (g: DeclareGroup)
        ensures
            g.spec_span() == span,
            g.spec_group() == group,
            g.spec_slots() == slots@,
    {
        DeclareGroup { span, group, slots }
    }

    pub fn get_span(&self) -> (s: Span)
        ensures
            s == self.spec_span(),
    {
        self.span
    }

    /// Records why a branch was given up; the branch must not be alive.
    pub fn push_error(&mut self, at: usize, error: DeclareError)
        requires
            at < old(self).spec_slots().len(),
            !old(self).spec_alive(at),
        ensures
            final(self).spec_span() == old(self).spec_span(),
            final(self).spec_group() == old(self).spec_group(),
            final(self).spec_slots() == old(self).spec_slots().update(at as int, BranchSlot::Failed(error)),
    {
        self.slots.set(at, BranchSlot::Failed(error));
    }

    pub fn is_alive(&self, branch: usize) -> (b: bool)
        ensures
            b == self.spec_alive(branch),
    {
        branch < self.slots.len() && matches!(self.slots[branch], BranchSlot::Alive(_))
    }

    /// Gives up one alive branch; returns the reason, noting the type the branch had. A branch
    /// that is not alive is left as it is, and the reason is `Empty`.
    pub fn remove_branch(&mut self, branch: usize, reason: DeclareError) -> (e: DeclareError)
        ensures
            final(self).spec_span() == old(self).spec_span(),
            final(self).spec_group() == old(self).spec_group(),
            final(self).spec_slots().len() == old(self).spec_slots().len(),
            !final(self).spec_alive(branch),
            forall|i: usize| i != branch && i < old(self).spec_slots().len() ==> final(self).spec_slots()[i as int] == old(self).spec_slots()[i as int],
            old(self).spec_alive(branch) ==> e == (DeclareError::WithPrevious { previous: old(self).spec_branch(branch), error: Box::new(reason) }),
            !old(self).spec_alive(branch) ==> *final(self) == *old(self) && e == DeclareError::Empty,
    {
        if !self.is_alive(branch) {
            return DeclareError::Empty;
        }
        let previous = match &self.slots[branch] {
            BranchSlot::Alive(t) => t.share(),
            BranchSlot::Failed(_) => {
                assert(false);
                unreached()
            },
        };
        self.slots.set(branch, BranchSlot::Failed(DeclareError::Empty));
        reason.with_previous(previous)
    }

    /// The alive branches with their types, by increasing index.
    pub fn alive_list(&self) -> (v: Vec<(Branch, Type)>)
        ensures
            forall|k: int| 0 <= k < v@.len() ==> {
                &&& v@[k].0.belong_to == self.spec_group()
                &&& self.spec_alive(v@[k].0.branch_idx)
                &&& v@[k].1 == self.spec_branch(v@[k].0.branch_idx)
            },
            forall|i: usize| self.spec_alive(i) ==> exists|k: int| 0 <= k < v@.len() && v@[k].0.branch_idx == i,
            forall|k1: int, k2: int| 0 <= k1 < k2 < v@.len() ==> v@[k1].0.branch_idx < v@[k2].0.branch_idx,
    {
        let mut v: Vec<(Branch, Type)> = Vec::new();
        let mut i: usize = 0;
        while i < self.slots.len()
            invariant
                i <= self.slots.len(),
                forall|k: int| 0 <= k < v@.len() ==> {
                    &&& v@[k].0.belong_to == self.spec_group()
                    &&& self.spec_alive(v@[k].0.branch_idx)
                    &&& v@[k].1 == self.spec_branch(v@[k].0.branch_idx)
                    &&& v@[k].0.branch_idx < i
                },
                forall|j: usize| j < i && self.spec_alive(j) ==> exists|k: int| 0 <= k < v@.len() && v@[k].0.branch_idx == j,
                forall|k1: int, k2: int| 0 <= k1 < k2 < v@.len() ==> v@[k1].0.branch_idx < v@[k2].0.branch_idx,
            decreases self.slots.len() - i,
        {
            match &self.slots[i] {
                BranchSlot::Alive(t) => {
                    let ghost old_v = v@;
                    v.push((Branch::new(self.group, i), t.share()));
                    assert forall|j: usize| j < i + 1 && self.spec_alive(j) implies exists|k: int|
                        0 <= k < v@.len() && v@[k].0.branch_idx == j by {
                        if j == i {
                            assert(v@[old_v.len() as int].0.branch_idx == j);
                        } else {
                            let k = choose|k: int| 0 <= k < old_v.len() && old_v[k].0.branch_idx == j;
                            assert(v@[k] == old_v[k]);
                        }
                    }
                },
                BranchSlot::Failed(_) => {},
            }
            i = i + 1;
        }
        v
    }

    /// Gives up every alive branch for which `remove_if` holds, each with the shared reason
    /// and the type it had; returns them, by increasing index, with the reasons recorded.
    pub fn remove_branches<F: Fn(Branch, &Type) -> bool>(&mut self, remove_if: F, reason: &Rc<DeclareError>) -> (removed: Vec<(Branch, DeclareError)>)
        requires
            forall|b: Branch, t: &Type| remove_if.requires((b, t)),
        ensures
            final(self).spec_span() == old(self).spec_span(),
            final(self).spec_group() == old(self).spec_group(),
            final(self).spec_slots().len() == old(self).spec_slots().len(),
            forall|i: usize| i < old(self).spec_slots().len() && !old(self).spec_alive(i) ==>
                final(self).spec_slots()[i as int] == old(self).spec_slots()[i as int],
            forall|i: usize| #[trigger] old(self).spec_alive(i) && final(self).spec_alive(i) ==>
                final(self).spec_slots()[i as int] == old(self).spec_slots()[i as int]
                && remove_if.ensures((Branch { belong_to: old(self).spec_group(), branch_idx: i }, &old(self).spec_branch(i)), false),
            forall|i: usize| #[trigger] old(self).spec_alive(i) && !final(self).spec_alive(i) ==>
                final(self).spec_slots()[i as int] == BranchSlot::Failed(DeclareError::WithPrevious {
                    previous: old(self).spec_branch(i), error: Box::new(DeclareError::Shared { err: *reason }) })
                && remove_if.ensures((Branch { belong_to: old(self).spec_group(), branch_idx: i }, &old(self).spec_branch(i)), true)
                && exists|k: int| 0 <= k < removed@.len() && removed@[k].0.branch_idx == i,
            forall|k: int| 0 <= k < removed@.len() ==> {
                &&& (#[trigger] removed@[k]).0.belong_to == old(self).spec_group()
                &&& old(self).spec_alive(removed@[k].0.branch_idx)
                &&& !final(self).spec_alive(removed@[k].0.branch_idx)
                &&& final(self).spec_slots()[removed@[k].0.branch_idx as int] == BranchSlot::Failed(removed@[k].1)
            },
            forall|k1: int, k2: int| 0 <= k1 < k2 < removed@.len() ==> removed@[k1].0.branch_idx < removed@[k2].0.branch_idx,
    {
        let ghost start = *self;
        let mut removed: Vec<(Branch, DeclareError)> = Vec::new();
        let mut i: usize = 0;
        while i < self.slots.len()
            invariant
                forall|b: Branch, t: &Type| remove_if.requires((b, t)),
                i <= self.slots.len(),
                self.span == start.span,
                self.group == start.group,
                self.slots@.len() == start.slots@.len(),
                forall|j: usize| i <= j < self.slots@.len() ==> self.slots@[j as int] == start.slots@[j as int],
                forall|j: usize| j < i && !start.spec_alive(j) ==> self.slots@[j as int] == start.slots@[j as int],
                forall|j: usize| j < i && #[trigger] start.spec_alive(j) && self.spec_alive(j) ==>
                    self.slots@[j as int] == start.slots@[j as int]
                    && remove_if.ensures((Branch { belong_to: start.spec_group(), branch_idx: j }, &start.spec_branch(j)), false),
                forall|j: usize| j < i && #[trigger] start.spec_alive(j) && !self.spec_alive(j) ==>
                    self.slots@[j as int] == BranchSlot::Failed(DeclareError::WithPrevious {
                        previous: start.spec_branch(j), error: Box::new(DeclareError::Shared { err: *reason }) })
                    && remove_if.ensures((Branch { belong_to: start.spec_group(), branch_idx: j }, &start.spec_branch(j)), true)
                    && exists|k: int| 0 <= k < removed@.len() && removed@[k].0.branch_idx == j,
                forall|k: int| 0 <= k < removed@.len() ==> {
                    &&& (#[trigger] removed@[k]).0.belong_to == start.spec_group()
                    &&& start.spec_alive(removed@[k].0.branch_idx)
                    &&& !self.spec_alive(removed@[k].0.branch_idx)
                    &&& removed@[k].0.branch_idx < i
                    &&& self.slots@[removed@[k].0.branch_idx as int] == BranchSlot::Failed(removed@[k].1)
                },
                forall|k1: int, k2: int| 0 <= k1 < k2 < removed@.len() ==> removed@[k1].0.branch_idx < removed@[k2].0.branch_idx,
            decreases self.slots.len() - i,
        {
            let branch = Branch::new(self.group, i);
            let ty = match &self.slots[i] {
                BranchSlot::Alive(t) => Some(t.share()),
                BranchSlot::Failed(_) => None,
            };
            match ty {
                Some(t) => {
                    if remove_if(branch, &t) {
                        let ghost before = removed@;
                        let ghost slots_before = self.slots@;
                        let kept = DeclareError::WithPrevious { previous: t.share(), error: Box::new(DeclareError::shared(reason)) };
                        let given = DeclareError::WithPrevious { previous: t, error: Box::new(DeclareError::shared(reason)) };
                        self.slots.set(i, BranchSlot::Failed(kept));
                        removed.push((branch, given));
                        proof {
                            assert forall|j: usize| j < i + 1 && #[trigger] start.spec_alive(j) && !self.spec_alive(j) implies
                                exists|k: int| 0 <= k < removed@.len() && removed@[k].0.branch_idx == j by {
                                if j == i {
                                    assert(removed@[before.len() as int].0.branch_idx == j);
                                } else {
                                    assert(slots_before[j as int] == self.slots@[j as int]);
                                    let k = choose|k: int| 0 <= k < before.len() && before[k].0.branch_idx == j;
                                    assert(removed@[k] == before[k]);
                                }
                            }
                        }
                    }
                },
                None => {},
            }
            i = i + 1;
        }
        removed
    }

    pub fn is_declared(&self) -> (b: bool)
        ensures
            b == self.spec_declared(),
    {
        let mut count: usize = 0;
        let mut i: usize = 0;
        while i < self.slots.len()
            invariant
                i <= self.slots.len(),
                count == count_alive(self.slots@.take(i as int)),
                count <= i,
            decreases self.slots.len() - i,
        {
            assert(self.slots@.take(i as int + 1).drop_last() == self.slots@.take(i as int));
            if matches!(self.slots[i], BranchSlot::Alive(_)) {
                count = count + 1;
            }
            i = i + 1;
        }
        assert(self.slots@.take(i as int) == self.slots@);
        count == 1
    }

    /// The type the group is declared as.
    pub fn result(&self) -> (t: &Type)
        requires
            self.spec_declared(),
        ensures
            exists|i: usize| self.spec_alive(i) && *t == self.spec_branch(i),
            forall|i: usize| self.spec_alive(i) ==> *t == self.spec_branch(i),
    {
        proof {
            lemma_count_alive(self.slots@);
        }
        let mut i: usize = 0;
        while i < self.slots.len()
            invariant
                i <= self.slots.len(),
                forall|j: int| 0 <= j < i ==> !(self.slots@[j] is Alive),
                exists|j: int| 0 <= j < self.slots@.len() && self.slots@[j] is Alive,
                forall|j: int, k: int| 0 <= j < self.slots@.len() && 0 <= k < self.slots@.len()
                    && self.slots@[j] is Alive && self.slots@[k] is Alive ==> j == k,
            decreases self.slots.len() - i,
        {
            match &self.slots[i] {
                BranchSlot::Alive(t) => {
                    assert(self.spec_alive(i));
                    return t;
                },
                BranchSlot::Failed(_) => {},
            }
            i = i + 1;
        }
        assert(false);
        unreached()
    }

    /// The error of a group that is not declared: which types it could still be, and why
    /// the others were given up.
    pub fn make_error(&self) -> (e: Error)
        ensures
            e.span == self.spec_span(),
            e.reason@ == "cant infer type"@,
    {
        let mut err = Error::new(self.span, text("cant infer type"));
        let alives = self.alive_list();
        if alives.len() == 0 {
            err = err.append(Message::Text(text("this cant be declared as any type!")));
        } else {
            err = err.append(Message::Text(text("this cant be declared as:")));
            let mut i: usize = 0;
            while i < alives.len()
                invariant
                    err.span == self.span,
                    err.reason@ == "cant infer type"@,
                decreases alives.len() - i,
            {
                let mut m = text("\t");
                crate::declare::res::append_type_of(&mut m, &alives[i].1);
                err = err.append(Message::Text(m));
                i = i + 1;
            }
        }
        let mut i: usize = 0;
        while i < self.slots.len()
            invariant
                err.span == self.span,
                err.reason@ == "cant infer type"@,
            decreases self.slots.len() - i,
        {
            match &self.slots[i] {
                BranchSlot::Failed(e) => {
                    let mut msgs = e.generate();
                    while msgs.len() > 0
                        invariant
                            err.span == self.span,
                            err.reason@ == "cant infer type"@,
                        decreases msgs.len(),
                    {
                        let m = msgs.remove(0);
                        err = err.append(m);
                    }
                },
                BranchSlot::Alive(_) => {},
            }
            i = i + 1;
        }
        err
    }

    /// The type of an alive branch of this group.
    pub fn get_branch(&self, branch: Branch) -> (t: &Type)
        requires
            self.spec_alive(branch.branch_idx),
        ensures
            *t == self.spec_branch(branch.branch_idx),
    {
        match &self.slots[branch.branch_idx] {
            BranchSlot::Alive(t) => t,
            BranchSlot::Failed(_) => {
                assert(false);
                unreached()
            },
        }
    }
}

} // verus!

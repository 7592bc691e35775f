//! Access sets: which ids a query or a system reads and writes, and when two of
//! them may not run at the same time.
use vstd::prelude::*;
use crate::ids::{elems, lemma_elems_prefix, lemma_elems_push, vec_contains};

verus! {

/// The reads and writes of one id space (components, resources, or components
/// within one archetype). Every written id counts as read too.
#[derive(Debug)]
pub struct AccessSet {
    pub reads_and_writes: Vec<usize>,
    pub writes: Vec<usize>,
}

/// Whether the two sets hold a common id that at least one side writes.
pub open spec fn sets_conflict(
    a_rw: Set<usize>,
    a_w: Set<usize>,
    b_rw: Set<usize>,
    b_w: Set<usize>,
) -> bool {
    exists|x: usize| (a_w.contains(x) && b_rw.contains(x)) || (b_w.contains(x) && a_rw.contains(x))
}

impl AccessSet {
    /// The ids that are read or written.
    pub open spec fn rw_set(&self) -> Set<usize> {
        elems(self.reads_and_writes@)
    }

    /// The ids that are written.
    pub open spec fn write_set(&self) -> Set<usize> {
        elems(self.writes@)
    }

    pub open spec fn wf(&self) -> bool {
        self.write_set().subset_of(self.rw_set())
    }

    pub open spec fn conflicts_spec(&self, other: &AccessSet) -> bool {
        sets_conflict(self.rw_set(), self.write_set(), other.rw_set(), other.write_set())
    }

    pub fn new() -> (r: AccessSet)
        ensures
            r.wf(),
            r.rw_set() == Set::<usize>::empty(),
            r.write_set() == Set::<usize>::empty(),
    {
        let r = AccessSet { reads_and_writes: Vec::new(), writes: Vec::new() };
        proof {
            assert(r.rw_set() =~= Set::<usize>::empty());
            assert(r.write_set() =~= Set::<usize>::empty());
        }
        r
    }

    pub fn has_read(&self, id: usize) -> (r: bool)
        ensures
            r == self.rw_set().contains(id),
    {
        vec_contains(&self.reads_and_writes, id)
    }

    pub fn has_write(&self, id: usize) -> (r: bool)
        ensures
            r == self.write_set().contains(id),
    {
        vec_contains(&self.writes, id)
    }

    pub fn add_read(&mut self, id: usize)
        requires
            old(self).wf(),
        ensures
            final(self).wf(),
            final(self).rw_set() == old(self).rw_set().insert(id),
            final(self).write_set() == old(self).write_set(),
    {
        if !vec_contains(&self.reads_and_writes, id) {
            proof {
                lemma_elems_push(self.reads_and_writes@, id);
            }
            self.reads_and_writes.push(id);
        } else {
            assert(elems(self.reads_and_writes@) =~= elems(self.reads_and_writes@).insert(id));
        }
    }

    pub fn add_write(&mut self, id: usize)
        requires
            old(self).wf(),
        ensures
            final(self).wf(),
            final(self).rw_set() == old(self).rw_set().insert(id),
            final(self).write_set() == old(self).write_set().insert(id),
    {
        self.add_read(id);
        if !vec_contains(&self.writes, id) {
            proof {
                lemma_elems_push(self.writes@, id);
            }
            self.writes.push(id);
        } else {
            assert(elems(self.writes@) =~= elems(self.writes@).insert(id));
        }
    }

    /// Adds every read and write of `other`.
    pub fn extend(&mut self, other: &AccessSet)
        requires
            old(self).wf(),
            other.wf(),
        ensures
            final(self).wf(),
            final(self).rw_set() == old(self).rw_set().union(other.rw_set()),
            final(self).write_set() == old(self).write_set().union(other.write_set()),
    {
        let mut i: usize = 0;
        while i < other.reads_and_writes.len()
            invariant
                i <= other.reads_and_writes@.len(),
                self.wf(),
                self.write_set() == old(self).write_set(),
                self.rw_set() == old(self).rw_set().union(
                    elems(other.reads_and_writes@.subrange(0, i as int)),
                ),
            decreases other.reads_and_writes@.len() - i,
        {
            proof {
                lemma_elems_prefix(other.reads_and_writes@, i as int);
            }
            self.add_read(other.reads_and_writes[i]);
            proof {
                assert(self.rw_set() =~= old(self).rw_set().union(
                    elems(other.reads_and_writes@.subrange(0, i + 1)),
                ));
            }
            i = i + 1;
        }
        proof {
            assert(other.reads_and_writes@.subrange(0, i as int) =~= other.reads_and_writes@);
            assert(elems(other.reads_and_writes@.subrange(0, i as int)) == other.rw_set());
        }
        let mut k: usize = 0;
        while k < other.writes.len()
            invariant
                k <= other.writes@.len(),
                other.wf(),
                self.wf(),
                self.rw_set() == old(self).rw_set().union(other.rw_set()),
                self.write_set() == old(self).write_set().union(
                    elems(other.writes@.subrange(0, k as int)),
                ),
            decreases other.writes@.len() - k,
        {
            proof {
                lemma_elems_prefix(other.writes@, k as int);
                assert(other.write_set().contains(other.writes@[k as int]));
            }
            let id = other.writes[k];
            if !vec_contains(&self.writes, id) {
                proof {
                    lemma_elems_push(self.writes@, id);
                }
                self.writes.push(id);
            }
            proof {
                assert(elems(self.writes@) =~= old(self).write_set().union(
                    elems(other.writes@.subrange(0, k + 1)),
                ));
                assert(self.rw_set().contains(id));
            }
            k = k + 1;
        }
        proof {
            assert(other.writes@.subrange(0, k as int) =~= other.writes@);
            assert(elems(other.writes@.subrange(0, k as int)) == other.write_set());
            assert(self.rw_set() =~= old(self).rw_set().union(other.rw_set()));
        }
    }

    /// Whether some id of `ids` lies in `set`.
    fn any_in(ids: &Vec<usize>, set: &Vec<usize>) -> (r: bool)
        ensures
            r == exists|x: usize| ids@.contains(x) && set@.contains(x),
    {
        let mut i: usize = 0;
        while i < ids.len()
            invariant
                i <= ids@.len(),
                forall|j: int| 0 <= j < i ==> !set@.contains(#[trigger] ids@[j]),
            decreases ids@.len() - i,
        {
            if vec_contains(set, ids[i]) {
                return true;
            }
            i = i + 1;
        }
        proof {
            assert forall|x: usize| ids@.contains(x) implies !set@.contains(x) by {
                let j = choose|j: int| 0 <= j < ids@.len() && ids@[j] == x;
                assert(!set@.contains(ids@[j]));
            }
        }
        false
    }

    /// Whether both sets may be used at the same time: no id that one side writes
    /// is read or written by the other.
    pub fn is_compatible(&self, other: &AccessSet) -> (r: bool)
        ensures
            r == !self.conflicts_spec(other),
    {
        let a = AccessSet::any_in(&self.writes, &other.reads_and_writes);
        let b = AccessSet::any_in(&other.writes, &self.reads_and_writes);
        proof {
            if a {
                let x = choose|x: usize| self.writes@.contains(x) && other.reads_and_writes@.contains(x);
                assert(self.write_set().contains(x) && other.rw_set().contains(x));
            }
            if b {
                let x = choose|x: usize| other.writes@.contains(x) && self.reads_and_writes@.contains(x);
                assert(other.write_set().contains(x) && self.rw_set().contains(x));
            }
        }
        !(a || b)
    }
}

/// What a system or a query touches: components by type (used to reject a
/// system whose own parameters clash), resources, and components within each
/// archetype (used to decide whether two systems may run in parallel).
#[derive(Debug)]
pub struct Access {
    pub components: AccessSet,
    pub resources: AccessSet,
    pub archetype_components: AccessSet,
}

/// Why a system's parameters were rejected.
#[derive(Clone, Copy, Debug, PartialEq, Eq, Structural)]
pub enum AccessError {
    /// Two parameters of one system use a component type and at least one writes it.
    ConflictingParams,
}

impl Access {
    pub open spec fn wf(&self) -> bool {
        self.components.wf() && self.resources.wf() && self.archetype_components.wf()
    }

    /// Whether the two may not run in parallel.
    pub open spec fn conflicts_spec(&self, other: &Access) -> bool {
        self.resources.conflicts_spec(&other.resources)
            || self.archetype_components.conflicts_spec(&other.archetype_components)
    }

    pub fn new() -> (r: Access)
        ensures
            r.wf(),
            r.components.rw_set().is_empty(),
            r.components.write_set().is_empty(),
            r.resources.rw_set().is_empty(),
            r.resources.write_set().is_empty(),
            r.archetype_components.rw_set().is_empty(),
            r.archetype_components.write_set().is_empty(),
    {
        Access {
            components: AccessSet::new(),
            resources: AccessSet::new(),
            archetype_components: AccessSet::new(),
        }
    }

    /// Unites `other` into this access, with no check.
    pub fn extend(&mut self, other: &Access)
        requires
            old(self).wf(),
            other.wf(),
        ensures
            final(self).wf(),
            final(self).components.rw_set() == old(self).components.rw_set().union(other.components.rw_set()),
            final(self).components.write_set() == old(self).components.write_set().union(other.components.write_set()),
            final(self).resources.rw_set() == old(self).resources.rw_set().union(other.resources.rw_set()),
            final(self).resources.write_set() == old(self).resources.write_set().union(other.resources.write_set()),
            final(self).archetype_components.rw_set() == old(self).archetype_components.rw_set().union(other.archetype_components.rw_set()),
            final(self).archetype_components.write_set() == old(self).archetype_components.write_set().union(other.archetype_components.write_set()),
    {
        self.components.extend(&other.components);
        self.resources.extend(&other.resources);
        self.archetype_components.extend(&other.archetype_components);
    }

    /// Adds the access of one more parameter of a system. It is rejected, and the
    /// access left as it was, when it clashes with the parameters already added,
    /// over component types or over resources.
    pub fn add_param(&mut self, param: &Access) -> (r: Result<(), AccessError>)
        requires
            old(self).wf(),
            param.wf(),
        ensures
            final(self).wf(),
            r is Err <==> (old(self).components.conflicts_spec(&param.components)
                || old(self).resources.conflicts_spec(&param.resources)),
            r is Err ==> *final(self) == *old(self),
            r is Ok ==> final(self).components.rw_set() == old(self).components.rw_set().union(param.components.rw_set()),
            r is Ok ==> final(self).components.write_set() == old(self).components.write_set().union(param.components.write_set()),
            r is Ok ==> final(self).resources.rw_set() == old(self).resources.rw_set().union(param.resources.rw_set()),
            r is Ok ==> final(self).resources.write_set() == old(self).resources.write_set().union(param.resources.write_set()),
            r is Ok ==> final(self).archetype_components.rw_set() == old(self).archetype_components.rw_set().union(param.archetype_components.rw_set()),
            r is Ok ==> final(self).archetype_components.write_set() == old(self).archetype_components.write_set().union(param.archetype_components.write_set()),
    {
        if !self.components.is_compatible(&param.components) || !self.resources.is_compatible(&param.resources) {
            return Err(AccessError::ConflictingParams);
        }
        self.extend(param);
        Ok(())
    }

    /// Whether two systems with these accesses must not run in parallel: they
    /// share a resource, or a component within one archetype, and at least one
    /// of them writes it.
    pub fn conflicts_with(&self, other: &Access) -> (r: bool)
        ensures
            r == self.conflicts_spec(other),
    {
        !self.resources.is_compatible(&other.resources)
            || !self.archetype_components.is_compatible(&other.archetype_components)
    }
}

/// The ids that `sel` picks out of any of `members`.
pub open spec fn members_union(members: Seq<Access>, sel: spec_fn(Access) -> Set<usize>) -> Set<usize> {
    Set::new(|x: usize| exists|i: int| 0 <= i < members.len() && (#[trigger] sel(members[i])).contains(x))
}

pub proof fn lemma_members_union_prefix(members: Seq<Access>, sel: spec_fn(Access) -> Set<usize>, i: int)
    requires
        0 <= i < members.len(),
    ensures
        members_union(members.subrange(0, i + 1), sel) == members_union(members.subrange(0, i), sel).union(
            sel(members[i]),
        ),
{
    let p = members.subrange(0, i);
    let q = members.subrange(0, i + 1);
    assert forall|x: usize| #[trigger] members_union(q, sel).contains(x) <==> members_union(p, sel).contains(x)
        || sel(members[i]).contains(x) by {
        if members_union(q, sel).contains(x) {
            let j = choose|j: int| 0 <= j < q.len() && (#[trigger] sel(q[j])).contains(x);
            if j < i {
                assert(sel(p[j]).contains(x));
            }
        }
        if members_union(p, sel).contains(x) {
            let j = choose|j: int| 0 <= j < p.len() && (#[trigger] sel(p[j])).contains(x);
            assert(sel(q[j]).contains(x));
        }
        if sel(members[i]).contains(x) {
            assert(sel(q[i]).contains(x));
        }
    }
    assert(members_union(q, sel) =~= members_union(p, sel).union(sel(members[i])));
}

impl Access {
    /// The access of a group of parameters of which the system uses at most
    /// one at a time: the union of the members, which are not checked against
    /// each other. Against the rest of the system, and against other systems,
    /// the union counts.
    pub fn param_set(members: &Vec<Access>) -> (r: Access)
        requires
            forall|i: int| 0 <= i < members@.len() ==> (#[trigger] members@[i]).wf(),
        ensures
            r.wf(),
            r.components.rw_set() == members_union(members@, |a: Access| a.components.rw_set()),
            r.components.write_set() == members_union(members@, |a: Access| a.components.write_set()),
            r.resources.rw_set() == members_union(members@, |a: Access| a.resources.rw_set()),
            r.resources.write_set() == members_union(members@, |a: Access| a.resources.write_set()),
            r.archetype_components.rw_set() == members_union(members@, |a: Access| a.archetype_components.rw_set()),
            r.archetype_components.write_set() == members_union(members@, |a: Access| a.archetype_components.write_set()),
    {
        let ghost s1 = |a: Access| a.components.rw_set();
        let ghost s2 = |a: Access| a.components.write_set();
        let ghost s3 = |a: Access| a.resources.rw_set();
        let ghost s4 = |a: Access| a.resources.write_set();
        let ghost s5 = |a: Access| a.archetype_components.rw_set();
        let ghost s6 = |a: Access| a.archetype_components.write_set();
        let mut acc = Access::new();
        proof {
            assert(members_union(members@.subrange(0, 0), s1) =~= Set::<usize>::empty());
            assert(members_union(members@.subrange(0, 0), s2) =~= Set::<usize>::empty());
            assert(members_union(members@.subrange(0, 0), s3) =~= Set::<usize>::empty());
            assert(members_union(members@.subrange(0, 0), s4) =~= Set::<usize>::empty());
            assert(members_union(members@.subrange(0, 0), s5) =~= Set::<usize>::empty());
            assert(members_union(members@.subrange(0, 0), s6) =~= Set::<usize>::empty());
        }
        let mut i: usize = 0;
        while i < members.len()
            invariant
                forall|j: int| 0 <= j < members@.len() ==> (#[trigger] members@[j]).wf(),
                i <= members@.len(),
                acc.wf(),
                s1 == (|a: Access| a.components.rw_set()),
                s2 == (|a: Access| a.components.write_set()),
                s3 == (|a: Access| a.resources.rw_set()),
                s4 == (|a: Access| a.resources.write_set()),
                s5 == (|a: Access| a.archetype_components.rw_set()),
                s6 == (|a: Access| a.archetype_components.write_set()),
                acc.components.rw_set() == members_union(members@.subrange(0, i as int), s1),
                acc.components.write_set() == members_union(members@.subrange(0, i as int), s2),
                acc.resources.rw_set() == members_union(members@.subrange(0, i as int), s3),
                acc.resources.write_set() == members_union(members@.subrange(0, i as int), s4),
                acc.archetype_components.rw_set() == members_union(members@.subrange(0, i as int), s5),
                acc.archetype_components.write_set() == members_union(members@.subrange(0, i as int), s6),
            decreases members@.len() - i,
        {
            proof {
                lemma_members_union_prefix(members@, s1, i as int);
                lemma_members_union_prefix(members@, s2, i as int);
                lemma_members_union_prefix(members@, s3, i as int);
                lemma_members_union_prefix(members@, s4, i as int);
                lemma_members_union_prefix(members@, s5, i as int);
                lemma_members_union_prefix(members@, s6, i as int);
            }
            acc.extend(&members[i]);
            proof {
                let m = members@[i as int];
                assert(s1(m) == m.components.rw_set());
                assert(s2(m) == m.components.write_set());
                assert(s3(m) == m.resources.rw_set());
                assert(s4(m) == m.resources.write_set());
                assert(s5(m) == m.archetype_components.rw_set());
                assert(s6(m) == m.archetype_components.write_set());
            }
            i = i + 1;
        }
        proof {
            assert(members@.subrange(0, i as int) =~= members@);
        }
        acc
    }
}

/// Two access sets that share no id do not conflict; once either side writes an
/// id that the other uses, they do.
pub proof fn lemma_disjoint_then_shared_write(a: AccessSet, b: AccessSet, id: usize)
    requires
        a.wf(),
        b.wf(),
    ensures
        a.rw_set().disjoint(b.rw_set()) ==> !a.conflicts_spec(&b),
        b.rw_set().contains(id) ==> sets_conflict(
            a.rw_set().insert(id),
            a.write_set().insert(id),
            b.rw_set(),
            b.write_set(),
        ),
        a.rw_set().contains(id) ==> sets_conflict(
            a.rw_set(),
            a.write_set(),
            b.rw_set().insert(id),
            b.write_set().insert(id),
        ),
{
    if a.rw_set().disjoint(b.rw_set()) {
        assert forall|x: usize| !((a.write_set().contains(x) && b.rw_set().contains(x)) || (b.write_set().contains(x) && a.rw_set().contains(x))) by {
            if a.write_set().contains(x) {
                assert(a.rw_set().contains(x));
            }
            if b.write_set().contains(x) {
                assert(b.rw_set().contains(x));
            }
        }
    }
    if b.rw_set().contains(id) {
        assert(a.write_set().insert(id).contains(id));
    }
    if a.rw_set().contains(id) {
        assert(b.write_set().insert(id).contains(id));
    }
}

/// Two system accesses that share no resource and no archetype component do not
/// conflict; a write that one of them adds to a resource or an archetype
/// component that the other uses makes them conflict.
pub proof fn lemma_access_disjoint_then_shared_write(a: Access, b: Access, a2: Access, id: usize)
    requires
        a.wf(),
        b.wf(),
        a2.wf(),
        a2.resources.rw_set() == a.resources.rw_set().insert(id),
        a2.resources.write_set() == a.resources.write_set().insert(id),
        a2.archetype_components == a.archetype_components,
    ensures
        a.resources.rw_set().disjoint(b.resources.rw_set())
            && a.archetype_components.rw_set().disjoint(b.archetype_components.rw_set())
            ==> !a.conflicts_spec(&b),
        b.resources.rw_set().contains(id) ==> a2.conflicts_spec(&b) && b.conflicts_spec(&a2),
{
    lemma_disjoint_then_shared_write(a.resources, b.resources, id);
    lemma_disjoint_then_shared_write(a.archetype_components, b.archetype_components, id);
    if b.resources.rw_set().contains(id) {
        assert(a2.resources.write_set().contains(id));
        assert(a2.resources.conflicts_spec(&b.resources));
        assert(b.resources.conflicts_spec(&a2.resources));
    }
}

} // verus!

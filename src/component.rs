//! The component registry: one dense id per component type, given on first use.
use vstd::prelude::*;

verus! {

/// What is known of a registered component type.
#[derive(Clone, Copy, Debug, PartialEq, Eq, Structural)]
pub struct ComponentInfo {
    pub id: usize,
    /// The caller's key for the type; equal keys mean the same type.
    pub type_key: u64,
    pub size: usize,
    pub align: usize,
}

#[derive(Debug)]
pub struct ComponentRegistry {
    infos: Vec<ComponentInfo>,
}

impl ComponentRegistry {
    /// The registered types, indexed by their id.
    pub closed spec fn infos(&self) -> Seq<ComponentInfo> {
        self.infos@
    }

    /// Each id is its own position, and no type key is registered twice.
    pub closed spec fn wf(&self) -> bool {
        &&& forall|i: int| 0 <= i < self.infos@.len() ==> (#[trigger] self.infos@[i]).id == i
        &&& forall|i: int, j: int| 0 <= i < self.infos@.len() && 0 <= j < self.infos@.len()
            && (#[trigger] self.infos@[i]).type_key == (#[trigger] self.infos@[j]).type_key ==> i == j
    }

    pub open spec fn has_key(&self, key: u64) -> bool {
        exists|i: int| 0 <= i < self.infos().len() && (#[trigger] self.infos()[i]).type_key == key
    }

    pub fn new() -> (r: ComponentRegistry)
        ensures
            r.wf(),
            r.infos().len() == 0,
    {
        ComponentRegistry { infos: Vec::new() }
    }

    pub fn len(&self) -> (r: usize)
        ensures
            r == self.infos().len(),
    {
        self.infos.len()
    }

    /// The id of the type with this key, registering it on first use with the
    /// given size and alignment. A second call with the same key returns the
    /// same id and changes nothing.
    pub fn register(&mut self, type_key: u64, size: usize, align: usize) -> (r: usize)
        requires
            old(self).wf(),
        ensures
            final(self).wf(),
            r < final(self).infos().len(),
            final(self).infos()[r as int].type_key == type_key,
            old(self).has_key(type_key) ==> final(self).infos() == old(self).infos(),
            forall|i: int| 0 <= i < old(self).infos().len() && (#[trigger] old(self).infos()[i]).type_key == type_key
                ==> r == i,
            !old(self).has_key(type_key) ==> r == old(self).infos().len()
                && final(self).infos() == old(self).infos().push(
                    ComponentInfo { id: r, type_key, size, align },
                ),
    {
        let mut i: usize = 0;
        while i < self.infos.len()
            invariant
                self.wf(),
                i <= self.infos@.len(),
                forall|j: int| 0 <= j < i ==> (#[trigger] self.infos@[j]).type_key != type_key,
            decreases self.infos@.len() - i,
        {
            if self.infos[i].type_key == type_key {
                return self.infos[i].id;
            }
            i = i + 1;
        }
        let id = self.infos.len();
        self.infos.push(ComponentInfo { id, type_key, size, align });
        id
    }

    /// The id of the type with this key, if it is registered.
    pub fn id_of(&self, type_key: u64) -> (r: Option<usize>)
        requires
            self.wf(),
        ensures
            r is Some <==> self.has_key(type_key),
            r matches Some(id) ==> id < self.infos().len() && self.infos()[id as int].type_key == type_key,
    {
        let mut i: usize = 0;
        while i < self.infos.len()
            invariant
                self.wf(),
                i <= self.infos@.len(),
                forall|j: int| 0 <= j < i ==> (#[trigger] self.infos@[j]).type_key != type_key,
            decreases self.infos@.len() - i,
        {
            if self.infos[i].type_key == type_key {
                assert(self.infos()[i as int].type_key == type_key);
                return Some(self.infos[i].id);
            }
            i = i + 1;
        }
        None
    }

    /// What is recorded of component `id`.
    pub fn info(&self, id: usize) -> (r: Option<ComponentInfo>)
        ensures
            r is Some <==> id < self.infos().len(),
            r matches Some(info) ==> info == self.infos()[id as int],
    {
        if id < self.infos.len() {
            Some(self.infos[id])
        } else {
            None
        }
    }
}

} // verus!

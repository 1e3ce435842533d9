//! The tracker of the objects that the engine has announced and not yet
//! taken back, by the identifier the engine gave each.
use std::collections::HashMap;
use vstd::prelude::*;

verus! {

broadcast use vstd::std_specs::hash::group_hash_axioms;

/// What the tracker keeps of an object.
#[derive(Debug, Clone, PartialEq, Eq)]
pub enum GlobalObject {
    Node { name: String },
    Link,
    Port { node_name: String, node_id: u32, id: u32 },
}

/// A [`GlobalObject`] with its texts as sequences of characters.
pub enum GlobalObjectView {
    Node { name: Seq<char> },
    Link,
    Port { node_name: Seq<char>, node_id: u32, id: u32 },
}

impl View for GlobalObject {
    type V = GlobalObjectView;

    open spec fn view(&self) -> GlobalObjectView {
        match *self {
            GlobalObject::Node { name } => GlobalObjectView::Node { name: name@ },
            GlobalObject::Link => GlobalObjectView::Link,
            GlobalObject::Port { node_name, node_id, id } => GlobalObjectView::Port {
                node_name: node_name@,
                node_id,
                id,
            },
        }
    }
}

/// One change of the tracker.
pub enum Change {
    Add(u32, GlobalObjectView),
    Remove(u32),
}

/// What is registered after `changes` were made to `objects`, one after
/// the other.
pub open spec fn after(objects: Map<u32, GlobalObjectView>, changes: Seq<Change>) -> Map<
    u32,
    GlobalObjectView,
>
    decreases changes.len(),
{
    if changes.len() == 0 {
        objects
    } else {
        let before = after(objects, changes.drop_last());
        match changes.last() {
            Change::Add(id, object) => before.insert(id, object),
            Change::Remove(id) => before.remove(id),
        }
    }
}

/// Whatever was added and removed: an identifier that was removed, and not
/// added again since, is not registered.
pub proof fn lemma_removed_is_gone(
    objects: Map<u32, GlobalObjectView>,
    changes: Seq<Change>,
    id: u32,
    at: int,
)
    requires
        0 <= at < changes.len(),
        changes[at] == Change::Remove(id),
        forall|j: int| at < j < changes.len()
            ==> !(#[trigger] changes[j] matches Change::Add(i, _) && i == id),
    ensures
        !after(objects, changes).contains_key(id),
    decreases changes.len(),
{
    let last = changes.len() - 1;
    if at < last {
        assert(changes.drop_last()[at] == changes[at]);
        assert forall|j: int| at < j < changes.drop_last().len() implies !(
        #[trigger] changes.drop_last()[j] matches Change::Add(i, _) && i == id) by {
            assert(changes.drop_last()[j] == changes[j]);
        }
        lemma_removed_is_gone(objects, changes.drop_last(), id, at);
        assert(!(changes[last] matches Change::Add(i, _) && i == id));
    }
}

/// The objects that are registered, by identifier.
pub struct State {
    objects: HashMap<u32, GlobalObject>,
}

impl View for State {
    type V = Map<u32, GlobalObjectView>;

    closed spec fn view(&self) -> Map<u32, GlobalObjectView> {
        self.objects@.map_values(|o: GlobalObject| o@)
    }
}

impl State {
    pub fn new() -> (s: Self)
        ensures
            s@ == Map::<u32, GlobalObjectView>::empty(),
    {
        let s = Self { objects: HashMap::new() };
        assert(s@ =~= Map::<u32, GlobalObjectView>::empty());
        s
    }

    /// Registers `object` under `id`; what was registered under `id` before
    /// is forgotten.
    pub fn add(&mut self, id: u32, object: GlobalObject)
        ensures
            final(self)@ == old(self)@.insert(id, object@),
    {
        self.objects.insert(id, object);
        assert(self@ =~= old(self)@.insert(id, object@));
    }

    /// The object registered under `id`.
    pub fn get(&self, id: u32) -> (r: Option<&GlobalObject>)
        ensures
            match r {
                Some(object) => self@.contains_key(id) && self@[id] == object@,
                None => !self@.contains_key(id),
            },
    {
        self.objects.get(&id)
    }

    /// Forgets the object registered under `id`, and returns it.
    pub fn remove(&mut self, id: u32) -> (r: Option<GlobalObject>)
        ensures
            final(self)@ == old(self)@.remove(id),
            match r {
                Some(object) => old(self)@.contains_key(id) && old(self)@[id] == object@,
                None => !old(self)@.contains_key(id),
            },
    {
        let r = self.objects.remove(&id);
        assert(self@ =~= old(self)@.remove(id));
        r
    }
}

} // verus!

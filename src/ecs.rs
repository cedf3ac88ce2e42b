//! Entity–component storage: per component kind (a stable tag), one
//! container that maps entities to their component of that kind.
use vstd::prelude::*;
use std::collections::HashMap;

verus! {

broadcast use vstd::std_specs::hash::group_hash_axioms;

/// The container of one component kind: slot `e` holds the component of
/// entity `e`, if it has one.
pub struct Archetype<C> {
    tag: u64,
    components: Vec<Option<C>>,
}

/// The components that a sequence of slots holds, in order.
pub open spec fn somes<C>(s: Seq<Option<C>>) -> Seq<C>
    decreases s.len(),
{
    if s.len() == 0 {
        Seq::empty()
    } else {
        let rest = somes(s.drop_last());
        match s.last() {
            Some(c) => rest.push(c),
            None => rest,
        }
    }
}

/// `s` lengthened with empty slots to at least `n` slots.
pub open spec fn padded<C>(s: Seq<Option<C>>, n: nat) -> Seq<Option<C>> {
    if s.len() >= n {
        s
    } else {
        s + Seq::new((n - s.len()) as nat, |i: int| None::<C>)
    }
}

impl<C> Archetype<C> {
    /// The slots, in order of entities.
    pub closed spec fn slots(&self) -> Seq<Option<C>> {
        self.components@
    }

    /// The component kind that this container holds.
    pub closed spec fn kind(&self) -> u64 {
        self.tag
    }

    /// A container of kind `tag` with `size` empty slots.
    pub fn new(tag: u64, size: usize) -> (a: Archetype<C>)
        ensures
            a.kind() == tag,
            a.slots() == Seq::new(size as nat, |i: int| None::<C>),
    {
        let mut components: Vec<Option<C>> = Vec::new();
        let mut i: usize = 0;
        while i < size
            invariant
                i <= size,
                components@ == Seq::new(i as nat, |k: int| None::<C>),
            decreases size - i,
        {
            components.push(None);
            i += 1;
            assert(components@ =~= Seq::new(i as nat, |k: int| None::<C>));
        }
        Archetype { tag, components }
    }

    /// The components held, in order of entities.
    pub fn get_somes(&self) -> (r: Vec<&C>)
        ensures
            r@.len() == somes(self.slots()).len(),
            forall|i: int| 0 <= i < r@.len() ==> *#[trigger] r@[i] == somes(self.slots())[i],
    {
        let mut r: Vec<&C> = Vec::new();
        let mut i: usize = 0;
        while i < self.components.len()
            invariant
                i <= self.components@.len(),
                r@.len() == somes(self.components@.take(i as int)).len(),
                forall|k: int| 0 <= k < r@.len() ==> *#[trigger] r@[k] == somes(self.components@.take(i as int))[k],
            decreases self.components@.len() - i,
        {
            assert(self.components@.take(i + 1).drop_last() =~= self.components@.take(i as int));
            match &self.components[i] {
                Some(c) => {
                    r.push(c);
                },
                None => {},
            }
            i += 1;
        }
        assert(self.components@.take(i as int) =~= self.components@);
        r
    }

    /// Lengthens the slots with empty ones to at least `test`.
    fn verify_length(&mut self, test: usize)
        ensures
            final(self).kind() == old(self).kind(),
            final(self).slots() == padded(old(self).slots(), test as nat),
    {
        let ghost start = self.components@;
        if self.components.len() < test {
            let extra = test - self.components.len();
            let mut i: usize = 0;
            while i < extra
                invariant
                    start.len() + extra == test,
                    i <= extra,
                    self.components@ == start + Seq::new(i as nat, |k: int| None::<C>),
                    self.tag == old(self).tag,
                decreases extra - i,
            {
                self.components.push(None);
                i += 1;
                assert(self.components@ =~= start + Seq::new(i as nat, |k: int| None::<C>));
            }
        }
    }

    /// Gives `entity` the component `component` (none when `None`), adding
    /// empty slots up to it where needed.
    pub fn set(&mut self, entity: usize, component: Option<C>)
        requires
            entity < usize::MAX,
        ensures
            final(self).kind() == old(self).kind(),
            final(self).slots() == padded(old(self).slots(), entity as nat + 1).update(entity as int, component),
    {
        self.verify_length(entity + 1);
        self.components.set(entity, component);
    }

    /// Gives `entity` the component `component` of kind `tag`; an error,
    /// and no change, when the container holds another kind.
    pub fn set_unchecked(&mut self, entity: usize, tag: u64, component: C) -> (r: Result<(), ()>)
        requires
            entity < usize::MAX,
        ensures
            final(self).kind() == old(self).kind(),
            r is Ok <==> tag == old(self).kind(),
            r is Ok ==> final(self).slots() == padded(old(self).slots(), entity as nat + 1).update(entity as int, Some(component)),
            r is Err ==> *final(self) == *old(self),
    {
        if tag != self.tag {
            return Err(());
        }
        self.set(entity, Some(component));
        Ok(())
    }

    /// The component of `entity`, if it has one.
    pub fn get(&self, entity: usize) -> (r: Option<&C>)
        ensures
            entity < self.slots().len() && self.slots()[entity as int] is Some ==> (r is Some && *r->Some_0 == self.slots()[entity as int]->Some_0),
            !(entity < self.slots().len() && self.slots()[entity as int] is Some) ==> r is None,
    {
        if entity < self.components.len() {
            match &self.components[entity] {
                Some(c) => Some(c),
                None => None,
            }
        } else {
            None
        }
    }

    /// The component of `entity`, to change in place, if it has one.
    pub fn get_mut(&mut self, entity: usize) -> (r: Option<&mut C>)
        ensures
            final(self).kind() == old(self).kind(),
            entity < old(self).slots().len() && old(self).slots()[entity as int] is Some ==> {
                &&& r is Some
                &&& *r->Some_0 == old(self).slots()[entity as int]->Some_0
                &&& final(self).slots() == old(self).slots().update(entity as int, Some(*final(r->Some_0)))
            },
            !(entity < old(self).slots().len() && old(self).slots()[entity as int] is Some) ==> r is None && *final(self) == *old(self),
    {
        if entity < self.components.len() && self.components[entity].is_some() {
            self.components[entity].as_mut()
        } else {
            None
        }
    }
}

/// The store of all components: a container per registered kind, reached
/// through the kind's tag, and the number of entities made so far. A
/// container may be taken out for a while (by a `Query`).
pub struct World<C> {
    archetypes: Vec<Option<Archetype<C>>>,
    archetype_map: HashMap<u64, usize>,
    entities: usize,
}

impl<C> World<C> {
    /// Well-formed: each registered kind has a slot of its own.
    pub closed spec fn wf(&self) -> bool {
        &&& forall|t: u64| #[trigger] self.archetype_map@.contains_key(t) ==> self.archetype_map@[t] < self.archetypes@.len()
        &&& forall|t1: u64, t2: u64|
            #[trigger] self.archetype_map@.contains_key(t1) && #[trigger] self.archetype_map@.contains_key(t2) && t1 != t2
                ==> self.archetype_map@[t1] != self.archetype_map@[t2]
    }

    /// Whether kind `tag` has a container.
    pub closed spec fn registered(&self, tag: u64) -> bool {
        self.archetype_map@.contains_key(tag)
    }

    /// The container of kind `tag`, when it is registered and not taken out.
    pub closed spec fn stored(&self, tag: u64) -> Option<Archetype<C>> {
        if self.archetype_map@.contains_key(tag) && self.archetype_map@[tag] < self.archetypes@.len() {
            self.archetypes@[self.archetype_map@[tag] as int]
        } else {
            None
        }
    }

    /// The number of entities made so far.
    pub closed spec fn entity_count(&self) -> nat {
        self.entities as nat
    }

    /// A kind that is not registered has no container.
    pub proof fn lemma_unregistered_has_nothing(&self, tag: u64)
        ensures
            !self.registered(tag) ==> self.stored(tag) is None,
    {
    }

    /// A world with no kinds and no entities.
    pub fn new() -> (w: World<C>)
        ensures
            w.wf(),
            w.entity_count() == 0,
            forall|t: u64| !w.registered(t),
    {
        World { archetypes: Vec::new(), archetype_map: HashMap::new(), entities: 0 }
    }

    /// Makes an entity: the next number.
    pub fn new_entity(&mut self) -> (e: usize)
        requires
            old(self).entity_count() < usize::MAX,
        ensures
            e == old(self).entity_count(),
            final(self).entity_count() == old(self).entity_count() + 1,
            final(self).wf() == old(self).wf(),
            forall|t: u64| final(self).registered(t) == old(self).registered(t) && final(self).stored(t) == old(self).stored(t),
    {
        let result = self.entities;
        self.entities += 1;
        result
    }

    /// The slot of kind `tag`, if registered.
    fn slot(&self, tag: u64) -> (r: Option<usize>)
        ensures
            r is Some <==> self.registered(tag),
            r is Some ==> r->Some_0 == self.archetype_map@[tag],
    {
        match self.archetype_map.get(&tag) {
            Some(i) => Some(*i),
            None => None,
        }
    }

    /// The container of kind `tag`, if registered and not taken out.
    pub fn query(&self, tag: u64) -> (r: Option<&Archetype<C>>)
        requires
            self.wf(),
        ensures
            r is Some <==> self.stored(tag) is Some,
            r is Some ==> *r->Some_0 == self.stored(tag)->Some_0,
    {
        let i = self.slot(tag)?;
        match &self.archetypes[i] {
            Some(a) => Some(a),
            None => None,
        }
    }

    /// The container of kind `tag`, to change in place.
    pub fn query_mut(&mut self, tag: u64) -> (r: Option<&mut Archetype<C>>)
        requires
            old(self).wf(),
        ensures
            r is Some <==> old(self).stored(tag) is Some,
            r is None ==> *final(self) == *old(self),
            r is Some ==> {
                &&& *r->Some_0 == old(self).stored(tag)->Some_0
                &&& final(self).wf()
                &&& final(self).stored(tag) == Some(*final(r->Some_0))
                &&& final(self).entity_count() == old(self).entity_count()
                &&& forall|t: u64| #[trigger] final(self).registered(t) == old(self).registered(t)
                &&& forall|t: u64| t != tag ==> #[trigger] final(self).stored(t) == old(self).stored(t)
            },
    {
        let i = match self.slot(tag) {
            Some(i) => i,
            None => return None,
        };
        if self.archetypes[i].is_none() {
            return None;
        }
        self.archetypes[i].as_mut()
    }

    /// Takes the container of kind `tag` out, leaving the kind registered
    /// with no container until it is put back.
    pub fn take(&mut self, tag: u64) -> (r: Option<Archetype<C>>)
        requires
            old(self).wf(),
        ensures
            r == old(self).stored(tag),
            !old(self).registered(tag) ==> r is None && *final(self) == *old(self),
            final(self).wf(),
            final(self).stored(tag) is None,
            final(self).entity_count() == old(self).entity_count(),
            forall|t: u64| #[trigger] final(self).registered(t) == old(self).registered(t),
            forall|t: u64| t != tag ==> #[trigger] final(self).stored(t) == old(self).stored(t),
    {
        let i = match self.slot(tag) {
            Some(i) => i,
            None => return None,
        };
        let mut out: Option<Archetype<C>> = None;
        std::mem::swap(&mut self.archetypes[i], &mut out);
        out
    }

    /// Puts `archetype` back as the container of the registered kind `tag`.
    pub fn put_back(&mut self, tag: u64, archetype: Archetype<C>)
        requires
            old(self).wf(),
            old(self).registered(tag),
        ensures
            final(self).wf(),
            final(self).stored(tag) == Some(archetype),
            final(self).entity_count() == old(self).entity_count(),
            forall|t: u64| #[trigger] final(self).registered(t) == old(self).registered(t),
            forall|t: u64| t != tag ==> #[trigger] final(self).stored(t) == old(self).stored(t),
    {
        let i = match self.slot(tag) {
            Some(i) => i,
            None => return,
        };
        self.archetypes.set(i, Some(archetype));
    }

    /// The component of kind `tag` of `entity`, if any.
    pub fn query_from_entity(&self, tag: u64, entity: usize) -> (r: Option<&C>)
        requires
            self.wf(),
        ensures
            r is Some <==> (self.stored(tag) is Some && entity < self.stored(tag)->Some_0.slots().len()
                && self.stored(tag)->Some_0.slots()[entity as int] is Some),
            r is Some ==> *r->Some_0 == self.stored(tag)->Some_0.slots()[entity as int]->Some_0,
    {
        match self.query(tag) {
            None => None,
            Some(archetype) => archetype.get(entity),
        }
    }

    /// The component of kind `tag` of `entity`, to change in place.
    pub fn query_from_entity_mut(&mut self, tag: u64, entity: usize) -> (r: Option<&mut C>)
        requires
            old(self).wf(),
        ensures
            r is Some <==> (old(self).stored(tag) is Some && entity < old(self).stored(tag)->Some_0.slots().len()
                && old(self).stored(tag)->Some_0.slots()[entity as int] is Some),
            r is None ==> forall|t: u64| #[trigger] final(self).stored(t) == old(self).stored(t),
            r is Some ==> {
                &&& *r->Some_0 == old(self).stored(tag)->Some_0.slots()[entity as int]->Some_0
                &&& final(self).stored(tag) is Some
                &&& final(self).stored(tag)->Some_0.slots() == old(self).stored(tag)->Some_0.slots().update(entity as int, Some(*final(r->Some_0)))
                &&& forall|t: u64| t != tag ==> #[trigger] final(self).stored(t) == old(self).stored(t)
            },
            final(self).wf(),
            final(self).entity_count() == old(self).entity_count(),
            forall|t: u64| #[trigger] final(self).registered(t) == old(self).registered(t),
    {
        match self.query_mut(tag) {
            None => None,
            Some(archetype) => archetype.get_mut(entity),
        }
    }

    /// Registers kind `tag`, with an empty container sized to the entities
    /// made so far, unless it is registered already.
    pub fn prep_archetype(&mut self, tag: u64)
        requires
            old(self).wf(),
        ensures
            final(self).wf(),
            final(self).registered(tag),
            final(self).entity_count() == old(self).entity_count(),
            old(self).registered(tag) ==> *final(self) == *old(self),
            !old(self).registered(tag) ==> (final(self).stored(tag) is Some && final(self).stored(tag)->Some_0.kind() == tag
                && final(self).stored(tag)->Some_0.slots() == Seq::new(old(self).entity_count(), |i: int| None::<C>)),
            forall|t: u64| t != tag ==> #[trigger] final(self).registered(t) == old(self).registered(t) && final(self).stored(t) == old(self).stored(t),
    {
        if self.slot(tag).is_some() {
            return;
        }
        let ghost before = *self;
        self.archetypes.push(Some(Archetype::new(tag, self.entities)));
        let idx = self.archetypes.len() - 1;
        self.archetype_map.insert(tag, idx);
        assert forall|t: u64| t != tag implies #[trigger] self.registered(t) == before.registered(t) && self.stored(t) == before.stored(t) by {
            if before.archetype_map@.contains_key(t) {
                assert(self.archetypes@[before.archetype_map@[t] as int] == before.archetypes@[before.archetype_map@[t] as int]);
            }
        }
    }

    /// Gives `entity` the component `component` of kind `tag`, registering
    /// the kind first where needed; an error, and no change of components,
    /// while the container of that kind is taken out.
    pub fn insert_component(&mut self, entity: usize, tag: u64, component: C) -> (r: Result<(), ()>)
        requires
            old(self).wf(),
            entity < usize::MAX,
        ensures
            final(self).wf(),
            final(self).registered(tag),
            final(self).entity_count() == old(self).entity_count(),
            r is Err <==> (old(self).registered(tag) && old(self).stored(tag) is None),
            r is Ok ==> final(self).stored(tag) is Some && final(self).stored(tag)->Some_0.slots() == padded(
                if old(self).registered(tag) { old(self).stored(tag)->Some_0.slots() } else { Seq::new(old(self).entity_count(), |i: int| None::<C>) },
                entity as nat + 1,
            ).update(entity as int, Some(component)),
            forall|t: u64| t != tag ==> #[trigger] final(self).registered(t) == old(self).registered(t) && final(self).stored(t) == old(self).stored(t),
    {
        self.prep_archetype(tag);
        match self.query_mut(tag) {
            Some(archetype) => {
                archetype.set(entity, Some(component));
                Ok(())
            },
            None => Err(()),
        }
    }

    /// Gives `entity` the component `component` of kind `tag`; an error, and
    /// no change, when the kind is not registered or its container is taken out.
    pub fn insert_component_unchecked(&mut self, entity: usize, tag: u64, component: C) -> (r: Result<(), ()>)
        requires
            old(self).wf(),
            entity < usize::MAX,
        ensures
            final(self).wf(),
            final(self).entity_count() == old(self).entity_count(),
            forall|t: u64| #[trigger] final(self).registered(t) == old(self).registered(t),
            r is Err ==> forall|t: u64| #[trigger] final(self).stored(t) == old(self).stored(t),
            r is Ok <==> old(self).stored(tag) is Some,
            !old(self).registered(tag) ==> r is Err,
            r is Ok ==> final(self).stored(tag) is Some && final(self).stored(tag)->Some_0.slots() == padded(old(self).stored(tag)->Some_0.slots(), entity as nat + 1).update(entity as int, Some(component)),
            forall|t: u64| t != tag ==> #[trigger] final(self).stored(t) == old(self).stored(t),
    {
        match self.query_mut(tag) {
            Some(archetype) => {
                archetype.set(entity, Some(component));
                Ok(())
            },
            None => Err(()),
        }
    }
}

/// A container taken out of a world for exclusive use, to be put back with
/// `release`.
pub struct Query<C> {
    tag: u64,
    archetype: Archetype<C>,
}

impl<C> Query<C> {
    /// The kind of the container held.
    pub closed spec fn kind(&self) -> u64 {
        self.tag
    }

    /// The container held.
    pub closed spec fn held(&self) -> Archetype<C> {
        self.archetype
    }

    /// Takes the container of kind `tag` out of `world`, if it is there.
    pub fn new(world: &mut World<C>, tag: u64) -> (r: Option<Query<C>>)
        requires
            old(world).wf(),
        ensures
            final(world).wf(),
            r is Some <==> old(world).stored(tag) is Some,
            r is Some ==> r->Some_0.kind() == tag && r->Some_0.held() == old(world).stored(tag)->Some_0,
            final(world).entity_count() == old(world).entity_count(),
            final(world).stored(tag) is None,
            forall|t: u64| #[trigger] final(world).registered(t) == old(world).registered(t),
            forall|t: u64| t != tag ==> #[trigger] final(world).stored(t) == old(world).stored(t),
    {
        match world.take(tag) {
            Some(archetype) => Some(Query { tag, archetype }),
            None => None,
        }
    }

    pub fn get(&self) -> (r: &Archetype<C>)
        ensures
            *r == self.held(),
    {
        &self.archetype
    }

    pub fn get_mut(&mut self) -> (r: &mut Archetype<C>)
        ensures
            *r == old(self).held(),
            final(self).held() == *final(r),
            final(self).kind() == old(self).kind(),
    {
        &mut self.archetype
    }

    /// Puts the container back into `world`.
    pub fn release(self, world: &mut World<C>)
        requires
            old(world).wf(),
            old(world).registered(self.kind()),
        ensures
            final(world).wf(),
            final(world).stored(self.kind()) == Some(self.held()),
            final(world).entity_count() == old(world).entity_count(),
            forall|t: u64| #[trigger] final(world).registered(t) == old(world).registered(t),
            forall|t: u64| t != self.kind() ==> #[trigger] final(world).stored(t) == old(world).stored(t),
    {
        world.put_back(self.tag, self.archetype);
    }
}

} // verus!

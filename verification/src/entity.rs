//! Entity handles and the parent-link component.

use vstd::prelude::*;

verus! {

/// An opaque entity identifier, owned by the surrounding storage engine.
/// This core never allocates or frees entities; it only reads and writes
/// components attached to them, keyed by this identifier.
#[derive(Clone, Copy, PartialEq, Eq, Structural, Debug, Hash)]
pub struct Entity {
    /// The identifier; ties between siblings and roots are broken by
    /// ascending `id` so resolution is reproducible.
    pub id: u64,
}

/// Component for defining a parent entity: the child owns a reference to
/// its parent. An entity has at most one parent.
#[derive(Clone, Copy, PartialEq, Eq, Structural, Debug)]
pub struct Child {
    /// The parent entity.
    parent: Entity,
}

impl Child {
    /// The parent this link points to.
    pub closed spec fn spec_parent(&self) -> Entity {
        self.parent
    }

    /// Creates a new child.
    pub fn new(entity: Entity) -> (c: Child)
        ensures
            c.spec_parent() == entity,
    {
        Child { parent: entity }
    }

    /// Returns our parent entity.
    pub fn parent(&self) -> (p: Entity)
        ensures
            p == self.spec_parent(),
    {
        self.parent
    }

    /// Sets the given entity as our parent.
    pub fn set_parent(&mut self, entity: Entity)
        ensures
            final(self).spec_parent() == entity,
    {
        self.parent = entity;
    }
}

} // verus!

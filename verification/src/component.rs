//! Components of the game's entities that hold no physics or graphics
//! state of their own: life, the handles into the physics world, markers
//! and links between entities.

use vstd::prelude::*;

verus! {

/// An entity of the game world: its index and the generation of that
/// index.
#[derive(Clone, Copy, Debug, PartialEq, Eq, Structural)]
pub struct Entity {
    pub index: u32,
    pub generation: i32,
}

/// Whether an entity lives, and whether it draws or erases.
#[derive(Clone, Copy, Debug, PartialEq, Eq, Structural)]
pub enum Life {
    EraserAlive,
    EraserDead,
    DrawAlive,
    DrawDead,
}

/// The life after a kill: a living entity dies and keeps its kind; a dead
/// one stays as it is.
pub open spec fn killed(l: Life) -> Life {
    match l {
        Life::EraserAlive => Life::EraserDead,
        Life::DrawAlive => Life::DrawDead,
        other => other,
    }
}

impl Life {
    /// Kills the entity.
    pub fn kill(&mut self)
        ensures
            *final(self) == killed(*old(self)),
    {
        *self = match *self {
            Life::EraserAlive => Life::EraserDead,
            Life::DrawAlive => Life::DrawDead,
            s => s,
        };
    }
}

/// Killing twice is killing once, and a kill never revives nor changes
/// whether the entity draws or erases.
pub proof fn lemma_kill_idempotent(l: Life)
    ensures
        killed(killed(l)) == killed(l),
        killed(l) == Life::EraserDead || killed(l) == Life::DrawDead,
        (l == Life::EraserAlive || l == Life::EraserDead) <==> killed(l) == Life::EraserDead,
{
}

/// A rigid body of the physics world, by its handle, and whether it has
/// been removed from that world.
pub struct PhysicBody {
    handle: usize,
    removed: bool,
}

impl PhysicBody {
    pub closed spec fn spec_handle(&self) -> usize {
        self.handle
    }

    pub closed spec fn is_removed(&self) -> bool {
        self.removed
    }

    /// The component of a body just added to the physics world.
    pub fn new(handle: usize) -> (b: Self)
        ensures
            b.spec_handle() == handle,
            !b.is_removed(),
    {
        PhysicBody { handle, removed: false }
    }

    pub fn handle(&self) -> (h: usize)
        ensures
            h == self.spec_handle(),
    {
        self.handle
    }

    pub fn removed(&self) -> (r: bool)
        ensures
            r == self.is_removed(),
    {
        self.removed
    }

    /// Marks the body removed and gives the handle to remove from the
    /// physics world. A body is removed once only.
    pub fn remove(&mut self) -> (h: usize)
        requires
            !old(self).is_removed(),
        ensures
            h == old(self).spec_handle(),
            final(self).spec_handle() == old(self).spec_handle(),
            final(self).is_removed(),
    {
        self.removed = true;
        self.handle
    }
}

/// A sensor of the physics world, by its handle, and whether it has been
/// removed from that world.
pub struct PhysicSensor {
    handle: usize,
    removed: bool,
}

impl PhysicSensor {
    pub closed spec fn spec_handle(&self) -> usize {
        self.handle
    }

    pub closed spec fn is_removed(&self) -> bool {
        self.removed
    }

    /// The component of a sensor just added to the physics world.
    pub fn new(handle: usize) -> (s: Self)
        ensures
            s.spec_handle() == handle,
            !s.is_removed(),
    {
        PhysicSensor { handle, removed: false }
    }

    pub fn handle(&self) -> (h: usize)
        ensures
            h == self.spec_handle(),
    {
        self.handle
    }

    pub fn removed(&self) -> (r: bool)
        ensures
            r == self.is_removed(),
    {
        self.removed
    }

    /// Marks the sensor removed and gives the handle to remove from the
    /// physics world. A sensor is removed once only.
    pub fn remove(&mut self) -> (h: usize)
        requires
            !old(self).is_removed(),
        ensures
            h == old(self).spec_handle(),
            final(self).spec_handle() == old(self).spec_handle(),
            final(self).is_removed(),
    {
        self.removed = true;
        self.handle
    }
}

/// The entities whose sensors intersect this one.
pub struct Proximitor {
    pub intersections: Vec<Entity>,
}

impl Proximitor {
    pub fn new() -> (p: Self)
        ensures
            p.intersections@.len() == 0,
    {
        Proximitor { intersections: Vec::new() }
    }
}

/// Whether the entity is to be deleted.
pub struct DeletBool(pub bool);

impl DeletBool {
    pub fn new() -> (d: Self)
        ensures
            d.0,
    {
        DeletBool(true)
    }
}

#[derive(Default)]
pub struct Bouncer;

#[derive(Default)]
pub struct Player;

#[derive(Default)]
pub struct DynamicDraw;

#[derive(Default)]
pub struct DynamicEraser;

#[derive(Default)]
pub struct DynamicHud;

#[derive(Default)]
pub struct Teleport;

/// The entity a weapon is anchored to; it has a rigid body and a weapon
/// animation.
pub struct WeaponAnchor {
    pub anchor: Entity,
}

/// The entities that draw a turret's laser and detect what it touches.
pub struct Turret {
    pub laser_draw: Entity,
    pub laser_physic: Entity,
}

/// What a generator creates.
#[derive(Clone, Copy, Debug, PartialEq, Eq, Hash, Structural)]
pub enum GeneratedEntity {
    Avoider,
    Bouncer,
}

} // verus!

//! What the game's entities are made of: which entity a level puts where,
//! and the wall pieces a maze is built from.

pub mod maze;
pub mod maze_3d;

pub use self::maze::create_maze_walls;
pub use self::maze_3d::create_3d_maze_walls;

use vstd::prelude::*;

use crate::component::GeneratedEntity;

verus! {

/// An entity a level can put in its maze.
#[derive(Clone, Copy, Debug, PartialEq, Eq, Hash, Structural)]
pub enum EntityConf {
    Attracted { eraser: bool },
    Avoider { eraser: bool },
    Bouncer { eraser: bool },
    MotionLess { eraser: bool },
    Turret,
    Generator {
        generated_entity: GeneratedEntity,
        salvo: usize,
        time_between_salvo_ms: usize,
        eraser_probability_percent: usize,
    },
}

impl EntityConf {
    /// Turrets are placed apart from the other entities.
    pub fn is_turret_like(&self) -> (b: bool)
        ensures
            b == (*self == EntityConf::Turret),
    {
        match *self {
            EntityConf::Turret => true,
            _ => false,
        }
    }
}

/// How many entities of `entities` are turrets.
pub open spec fn turret_total(entities: Seq<(EntityConf, usize)>) -> nat
    decreases entities.len(),
{
    if entities.len() == 0 {
        0
    } else {
        turret_total(entities.drop_last()) + if entities.last().0 == EntityConf::Turret {
            entities.last().1 as nat
        } else {
            0
        }
    }
}

/// How many entities of `entities` are not turrets.
pub open spec fn other_total(entities: Seq<(EntityConf, usize)>) -> nat
    decreases entities.len(),
{
    if entities.len() == 0 {
        0
    } else {
        other_total(entities.drop_last()) + if entities.last().0 == EntityConf::Turret {
            0
        } else {
            entities.last().1 as nat
        }
    }
}

proof fn lemma_totals_prefix(entities: Seq<(EntityConf, usize)>, i: int)
    requires
        0 <= i <= entities.len(),
    ensures
        turret_total(entities.take(i)) <= turret_total(entities),
        other_total(entities.take(i)) <= other_total(entities),
    decreases entities.len(),
{
    if i < entities.len() {
        assert(entities.drop_last().take(i) =~= entities.take(i));
        lemma_totals_prefix(entities.drop_last(), i);
    } else {
        assert(entities.take(i) =~= entities);
    }
}

/// The number of turrets and the number of other entities a level asks
/// for, from the count of each kind of entity.
pub fn split_entities(entities: &Vec<(EntityConf, usize)>) -> (r: (usize, usize))
    requires
        turret_total(entities@) <= usize::MAX,
        other_total(entities@) <= usize::MAX,
    ensures
        r.0 == turret_total(entities@),
        r.1 == other_total(entities@),
{
    let mut turrets: usize = 0;
    let mut others: usize = 0;
    let mut i: usize = 0;
    while i < entities.len()
        invariant
            i <= entities@.len(),
            turret_total(entities@) <= usize::MAX,
            other_total(entities@) <= usize::MAX,
            turrets == turret_total(entities@.take(i as int)),
            others == other_total(entities@.take(i as int)),
        decreases entities.len() - i,
    {
        proof {
            assert(entities@.take(i + 1).drop_last() =~= entities@.take(i as int));
            lemma_totals_prefix(entities@, i + 1);
        }
        let (e, n) = entities[i];
        if e.is_turret_like() {
            turrets = turrets + n;
        } else {
            others = others + n;
        }
        i = i + 1;
    }
    assert(entities@.take(i as int) =~= entities@);
    (turrets, others)
}

} // verus!

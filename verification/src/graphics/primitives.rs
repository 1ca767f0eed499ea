//! The primitives the renderer draws, and the draw groups they are drawn
//! in. Each instance of a primitive takes a run of fresh groups from a
//! counter; a group is a 16-bit number.

use vstd::prelude::*;
use vstd::arithmetic::div_mod::{lemma_add_mod_noop_right, lemma_mod_mod, lemma_mod_equivalence, lemma_small_mod};

verus! {

/// The number of distinct groups.
pub const GROUP_COUNTER_SIZE: usize = 65536;

/// The number of links of a hook.
pub const HOOK_LINKS: usize = 50;

/// The number of values of a `usize`.
pub open spec fn usize_range() -> int {
    usize::MAX + 1
}

/// The counter `n` steps after `c`, wrapping around.
pub open spec fn counter_plus(c: int, n: int) -> int {
    (c + n) % usize_range()
}

/// The group a counter value stands for.
pub open spec fn group_of(c: int) -> u16 {
    (c % (GROUP_COUNTER_SIZE as int)) as u16
}

/// The `n` groups handed out from counter value `c`.
pub open spec fn groups_from(c: int, n: nat) -> Seq<u16> {
    Seq::new(n, |i: int| group_of(counter_plus(c, i)))
}

/// Steps of the counter add up.
pub proof fn lemma_counter_plus(c: int, a: int, b: int)
    ensures
        counter_plus(counter_plus(c, a), b) == counter_plus(c, a + b),
{
    lemma_add_mod_noop_right(b, c + a, usize_range());
}

/// Hands out draw groups, one after the other, from 1.
pub struct GroupCounter {
    counter: usize,
}

impl GroupCounter {
    /// The counter's value: the next group to hand out, before wrapping.
    pub closed spec fn value(&self) -> int {
        self.counter as int
    }

    pub fn new() -> (g: Self)
        ensures
            g.value() == 1,
    {
        GroupCounter { counter: 1 }
    }

    /// The next group.
    pub fn next(&mut self) -> (g: u16)
        ensures
            g == group_of(old(self).value()),
            final(self).value() == counter_plus(old(self).value(), 1),
            0 <= final(self).value() < usize_range(),
    {
        let g = (self.counter % GROUP_COUNTER_SIZE) as u16;
        self.counter = self.counter.wrapping_add(1);
        proof {
            let c = old(self).value();
            if c + 1 > usize::MAX {
                assert(c + 1 == usize_range());
                assert(counter_plus(c, 1) == 0) by {
                    vstd::arithmetic::div_mod::lemma_mod_self_0(usize_range());
                }
            } else {
                lemma_small_mod((c + 1) as nat, usize_range() as nat);
            }
        }
        g
    }

    /// The next `n` groups.
    pub fn instantiate(&mut self, n: usize) -> (v: Vec<u16>)
        requires
            0 <= old(self).value() < usize_range(),
        ensures
            v@ == groups_from(old(self).value(), n as nat),
            final(self).value() == counter_plus(old(self).value(), n as int),
            0 <= final(self).value() < usize_range(),
    {
        let ghost c0 = self.value();
        let mut v: Vec<u16> = Vec::new();
        let mut i: usize = 0;
        proof {
            lemma_small_mod(c0 as nat, usize_range() as nat);
        }
        while i < n
            invariant
                i <= n,
                0 <= c0 < usize_range(),
                self.value() == counter_plus(c0, i as int),
                v@ == groups_from(c0, i as nat),
            decreases n - i,
        {
            let g = self.next();
            proof {
                lemma_counter_plus(c0, i as int, 1);
            }
            v.push(g);
            assert(v@ =~= groups_from(c0, (i + 1) as nat));
            i = i + 1;
        }
        v
    }
}

/// Groups handed out one after the other continue each other: two runs
/// are one run.
pub proof fn lemma_groups_concat(c: int, n1: nat, n2: nat)
    ensures
        groups_from(c, n1) + groups_from(counter_plus(c, n1 as int), n2) == groups_from(c, n1 + n2),
{
    assert forall|i: int| n1 <= i < n1 + n2 implies groups_from(counter_plus(c, n1 as int), n2)[i - n1]
        == #[trigger] groups_from(c, n1 + n2)[i] by {
        lemma_counter_plus(c, n1 as int, i - n1);
    }
    assert(groups_from(c, n1) + groups_from(counter_plus(c, n1 as int), n2) =~= groups_from(c, n1 + n2));
}

/// A run of at most `GROUP_COUNTER_SIZE` groups holds no group twice.
pub proof fn lemma_groups_distinct(c: int, n: nat)
    requires
        n <= GROUP_COUNTER_SIZE,
    ensures
        groups_from(c, n).no_duplicates(),
{
    let m = GROUP_COUNTER_SIZE as int;
    let k = usize_range() / m;
    assert(usize_range() == m * k) by {
        assert(usize::MAX == 0xffff_ffff || usize::MAX == 0xffff_ffff_ffff_ffff);
    }
    assert forall|i: int, j: int| 0 <= i < j < n implies groups_from(c, n)[i] != groups_from(c, n)[j] by {
        lemma_mod_mod(c + i, m, k);
        lemma_mod_mod(c + j, m, k);
        lemma_mod_equivalence(c + j, c + i, m);
        lemma_small_mod((j - i) as nat, m as nat);
        assert(0 <= (c + i) % m < m);
        assert(0 <= (c + j) % m < m);
    }
}

/// The shapes the renderer draws.
#[derive(Clone, Copy, Debug, PartialEq, Eq, Structural)]
pub enum Primitive {
    Plane,
    SquarePyramid,
    TrianglePyramid,
    Sphere,
    Six,
    Cube,
    Cylinder,
    PitCube,
    Hook,
}

/// The number of the primitive's vertex buffers.
pub open spec fn primitive_index(p: Primitive) -> nat {
    match p {
        Primitive::Plane => 0,
        Primitive::SquarePyramid => 1,
        Primitive::TrianglePyramid => 2,
        Primitive::Sphere => 3,
        Primitive::Six => 4,
        Primitive::Cube => 5,
        Primitive::Cylinder => 6,
        Primitive::PitCube => 7,
        Primitive::Hook => 8,
    }
}

/// The number of groups an instance of the primitive is drawn in.
pub open spec fn primitive_groups(p: Primitive) -> nat {
    match p {
        Primitive::Plane => 1,
        Primitive::SquarePyramid => 5,
        Primitive::TrianglePyramid => 4,
        Primitive::Sphere => 1,
        Primitive::Six => 8,
        Primitive::Cube => 6,
        Primitive::Cylinder => 1,
        Primitive::PitCube => 11,
        Primitive::Hook => (10 * HOOK_LINKS) as nat,
    }
}

impl Primitive {
    pub fn index(&self) -> (i: usize)
        ensures
            i == primitive_index(*self),
    {
        match *self {
            Primitive::Plane => 0,
            Primitive::SquarePyramid => 1,
            Primitive::TrianglePyramid => 2,
            Primitive::Sphere => 3,
            Primitive::Six => 4,
            Primitive::Cube => 5,
            Primitive::Cylinder => 6,
            Primitive::PitCube => 7,
            Primitive::Hook => 8,
        }
    }

    pub fn groups_size(&self) -> (n: usize)
        ensures
            n == primitive_groups(*self),
    {
        match *self {
            Primitive::Plane => 1,
            Primitive::SquarePyramid => 5,
            Primitive::TrianglePyramid => 4,
            Primitive::Sphere => 1,
            Primitive::Six => 8,
            Primitive::Cube => 6,
            Primitive::Cylinder => 1,
            Primitive::PitCube => 11,
            Primitive::Hook => 10 * HOOK_LINKS,
        }
    }

    /// The groups of `size` instances of the primitive, one run after the
    /// other.
    pub fn reserve(&self, counter: &mut GroupCounter, size: usize) -> (v: Vec<Vec<u16>>)
        requires
            0 <= old(counter).value() < usize_range(),
        ensures
            v@.len() == size,
            forall|i: int| 0 <= i < size ==> (#[trigger] v@[i])@ == groups_from(
                counter_plus(old(counter).value(), i * primitive_groups(*self)),
                primitive_groups(*self),
            ),
            final(counter).value() == counter_plus(old(counter).value(), size * primitive_groups(*self)),
            0 <= final(counter).value() < usize_range(),
    {
        let groups_size = self.groups_size();
        let ghost c0 = counter.value();
        let ghost gs = groups_size as int;
        let mut v: Vec<Vec<u16>> = Vec::new();
        let mut i: usize = 0;
        proof {
            lemma_small_mod(c0 as nat, usize_range() as nat);
        }
        while i < size
            invariant
                i <= size,
                gs == primitive_groups(*self),
                groups_size == gs,
                0 <= c0 < usize_range(),
                0 <= counter.value() < usize_range(),
                counter.value() == counter_plus(c0, i * gs),
                v@.len() == i,
                forall|j: int| 0 <= j < i ==> (#[trigger] v@[j])@ == groups_from(counter_plus(c0, j * gs), gs as nat),
            decreases size - i,
        {
            let g = counter.instantiate(groups_size);
            proof {
                lemma_counter_plus(c0, i * gs, gs);
                assert(i * gs + gs == (i + 1) * gs) by (nonlinear_arith);
            }
            v.push(g);
            i = i + 1;
        }
        v
    }

    /// The number of the primitive and the groups of a new instance.
    pub fn instantiate(&self, counter: &mut GroupCounter) -> (r: (usize, Vec<u16>))
        requires
            0 <= old(counter).value() < usize_range(),
        ensures
            r.0 == primitive_index(*self),
            r.1@ == groups_from(old(counter).value(), primitive_groups(*self)),
            final(counter).value() == counter_plus(old(counter).value(), primitive_groups(*self) as int),
            0 <= final(counter).value() < usize_range(),
    {
        (self.index(), counter.instantiate(self.groups_size()))
    }
}

} // verus!

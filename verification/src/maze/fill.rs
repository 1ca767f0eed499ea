//! Filling parts of a maze with walls: every zone but a largest one, dead
//! rooms, and dead-end corridors.

use vstd::prelude::*;

use vstd::set_lib::lemma_len_subset;

use super::cell::{Cell, Dimension, in_area, valid_dim, area_cells, cell_count, lemma_index_cell, lemma_cell_index};
use super::moves::spec_neighbours;
use super::zones::{
    ZoneFilter, is_zones, is_zone, zones_view, member, adjacent, connected_order, touches_earlier,
    closed_zone, lemma_adjacent_offset, lemma_neighbour_offsets,
};
use super::{Maze, MazeModel, free, inside, circled, add_cell};

verus! {

/// The cells of the zones `zs[i]`, `i < upto`, `i != skip`.
pub open spec fn zones_except(zs: Seq<Seq<Cell>>, skip: int, upto: int) -> Set<Cell> {
    Set::new(|c: Cell| exists|i: int| 0 <= i < upto && i != skip && #[trigger] zs[i].contains(c))
}

/// `zs[k]` is a largest of the zones.
pub open spec fn largest(zs: Seq<Seq<Cell>>, k: int) -> bool {
    0 <= k < zs.len() && forall|i: int| 0 <= i < zs.len() ==> #[trigger] zs[i].len() <= zs[k].len()
}

/// `after` is `before` with every zone of `zs` but a largest one filled.
pub open spec fn smallests_filled(before: MazeModel, after: MazeModel, zs: Seq<Seq<Cell>>) -> bool {
    if zs.len() == 0 {
        after.walls == before.walls
    } else {
        exists|k: int|
            #[trigger] largest(zs, k) && after.walls == before.walls.union(
                zones_except(zs, k, zs.len() as int),
            )
    }
}

/// The maze has at most one zone of free cells.
pub open spec fn single_zone(m: MazeModel, dim: nat) -> bool {
    forall|zs: Seq<Seq<Cell>>| #[trigger] is_zones(m, dim, ZoneFilter::All, zs) ==> zs.len() <= 1
}

/// A closed group `s` that contains one cell of a connected sequence of
/// kept cells contains all of them.
pub proof fn lemma_closed_contains_all(
    m: MazeModel,
    dim: nat,
    f: ZoneFilter,
    z: Seq<Cell>,
    s: Seq<Cell>,
    i0: int,
)
    requires
        connected_order(z, dim),
        forall|k: int| 0 <= k < z.len() ==> member(m, dim, f, #[trigger] z[k]),
        closed_zone(m, dim, f, s),
        0 <= i0 < z.len(),
        s.contains(z[i0]),
    ensures
        forall|k: int| 0 <= k < z.len() ==> s.contains(#[trigger] z[k]),
{
    lemma_back_to_first(m, dim, f, z, s, i0);
    assert forall|k: int| 0 <= k < z.len() implies s.contains(#[trigger] z[k]) by {
        lemma_forward(m, dim, f, z, s, k);
    }
}

proof fn lemma_back_to_first(m: MazeModel, dim: nat, f: ZoneFilter, z: Seq<Cell>, s: Seq<Cell>, i: int)
    requires
        connected_order(z, dim),
        forall|k: int| 0 <= k < z.len() ==> member(m, dim, f, #[trigger] z[k]),
        closed_zone(m, dim, f, s),
        0 <= i < z.len(),
        s.contains(z[i]),
    ensures
        s.contains(z[0]),
    decreases i,
{
    if i > 0 {
        assert(touches_earlier(z, i, dim));
        let j = choose|j: int| 0 <= j < i && adjacent(z[j], z[i], dim);
        assert(member(m, dim, f, z[j]));
        assert(adjacent(z[i], z[j], dim));
        assert(s.contains(z[j]));
        lemma_back_to_first(m, dim, f, z, s, j);
    }
}

proof fn lemma_forward(m: MazeModel, dim: nat, f: ZoneFilter, z: Seq<Cell>, s: Seq<Cell>, k: int)
    requires
        connected_order(z, dim),
        forall|q: int| 0 <= q < z.len() ==> member(m, dim, f, #[trigger] z[q]),
        closed_zone(m, dim, f, s),
        0 <= k < z.len(),
        s.contains(z[0]),
    ensures
        s.contains(z[k]),
    decreases k,
{
    if k > 0 {
        assert(touches_earlier(z, k, dim));
        let j = choose|j: int| 0 <= j < k && adjacent(z[j], z[k], dim);
        lemma_forward(m, dim, f, z, s, j);
        assert(member(m, dim, f, z[k]));
    }
}

/// When the free cells of a maze are exactly the cells of a connected
/// sequence, the maze has a single zone.
pub proof fn lemma_single_zone(m: MazeModel, dim: nat, z: Seq<Cell>)
    requires
        connected_order(z, dim),
        forall|c: Cell| free(m, dim, c) <==> #[trigger] z.contains(c),
    ensures
        single_zone(m, dim),
{
    assert forall|zs: Seq<Seq<Cell>>| #[trigger] is_zones(m, dim, ZoneFilter::All, zs) implies zs.len()
        <= 1 by {
        if zs.len() > 1 {
            assert(is_zone(m, dim, ZoneFilter::All, zs[0]));
            assert(is_zone(m, dim, ZoneFilter::All, zs[1]));
            assert(forall|k: int| 0 <= k < z.len() ==> member(m, dim, ZoneFilter::All, #[trigger] z[k]))
                by {
                assert forall|k: int| 0 <= k < z.len() implies member(
                    m,
                    dim,
                    ZoneFilter::All,
                    #[trigger] z[k],
                ) by {
                    assert(z.contains(z[k]));
                }
            }
            let a = zs[0][0];
            assert(member(m, dim, ZoneFilter::All, zs[0][0]));
            assert(zs[0].contains(a));
            assert(z.contains(a));
            let i0 = choose|i: int| 0 <= i < z.len() && z[i] == a;
            lemma_closed_contains_all(m, dim, ZoneFilter::All, z, zs[0], i0);
            let b = zs[1][0];
            assert(member(m, dim, ZoneFilter::All, zs[1][0]));
            assert(zs[1].contains(b));
            assert(z.contains(b));
            let i1 = choose|i: int| 0 <= i < z.len() && z[i] == b;
            assert(zs[0].contains(z[i1]));
            assert(false);
        }
    }
}

impl<D: Dimension> Maze<D> {
    /// Fills with walls every zone of free cells but a largest one (the
    /// last largest found). Returns whether a wall was added.
    pub fn fill_smallests(&mut self) -> (changes: bool)
        requires
            old(self).wf(),
            circled(old(self)@, D::spec_dim()),
        ensures
            final(self).wf(),
            final(self)@.size == old(self)@.size,
            exists|zs: Seq<Seq<Cell>>|
                {
                    &&& #[trigger] is_zones(old(self)@, D::spec_dim(), ZoneFilter::All, zs)
                    &&& smallests_filled(old(self)@, final(self)@, zs)
                    &&& changes == (zs.len() > 1)
                },
            single_zone(final(self)@, D::spec_dim()),
            circled(final(self)@, D::spec_dim()),
    {
        proof {
            D::lemma_dim();
        }
        let dim = D::dim();
        let ghost m0 = self@;
        let zones = self.zones_of(ZoneFilter::All);
        let ghost zs = zones_view(zones@);
        if zones.len() == 0 {
            proof {
                assert forall|c: Cell| !free(m0, dim as nat, c) by {
                    if free(m0, dim as nat, c) {
                        assert(member(m0, dim as nat, ZoneFilter::All, c));
                    }
                }
                lemma_single_zone(m0, dim as nat, Seq::empty());
                assert(self@.walls =~= m0.walls);
                assert(smallests_filled(m0, self@, zs));
            }
            return false;
        }
        let mut max_id: usize = 0;
        let mut max_len: usize = zones[0].len();
        let mut i: usize = 1;
        while i < zones.len()
            invariant
                zs == zones_view(zones@),
                1 <= i <= zones@.len(),
                max_id < i,
                max_len == zs[max_id as int].len(),
                forall|j: int| 0 <= j < i ==> #[trigger] zs[j].len() <= max_len,
            decreases zones.len() - i,
        {
            if zones[i].len() >= max_len {
                max_id = i;
                max_len = zones[i].len();
            }
            i = i + 1;
        }
        let mut changes = false;
        let mut i: usize = 0;
        while i < zones.len()
            invariant
                self.wf(),
                self@.size == m0.size,
                valid_dim(dim as nat),
                dim as nat == D::spec_dim(),
                zs == zones_view(zones@),
                is_zones(m0, dim as nat, ZoneFilter::All, zs),
                max_id < zones@.len(),
                0 <= i <= zones@.len(),
                self@.walls == m0.walls.union(zones_except(zs, max_id as int, i as int)),
                changes == (i > max_id + 1 || (i > 0 && max_id != 0)),
            decreases zones.len() - i,
        {
            if i != max_id {
                let zone = &zones[i];
                proof {
                    assert(zs[i as int] == zone@);
                    assert(is_zone(m0, dim as nat, ZoneFilter::All, zs[i as int]));
                }
                let mut j: usize = 0;
                while j < zone.len()
                    invariant
                        self.wf(),
                        self@.size == m0.size,
                        valid_dim(dim as nat),
                        dim as nat == D::spec_dim(),
                        zs == zones_view(zones@),
                        zone@ == zs[i as int],
                        is_zone(m0, dim as nat, ZoneFilter::All, zs[i as int]),
                        i != max_id,
                        0 <= i < zones@.len(),
                        0 <= j <= zone@.len(),
                        self@.walls == m0.walls.union(zones_except(zs, max_id as int, i as int)).union(
                            zone@.take(j as int).to_set(),
                        ),
                    decreases zone.len() - j,
                {
                    let c = zone[j];
                    proof {
                        assert(member(m0, dim as nat, ZoneFilter::All, zone@[j as int]));
                    }
                    self.set_wall(&c, true);
                    proof {
                        assert(zone@.take(j + 1).to_set() =~= zone@.take(j as int).to_set().insert(c)) by {
                            assert(zone@.take(j + 1) =~= zone@.take(j as int).push(c));
                            zone@.take(j as int).lemma_push_to_set_commute(c);
                        }
                    }
                    j = j + 1;
                }
                proof {
                    assert(zone@.take(zone@.len() as int) =~= zone@);
                    assert(m0.walls.union(zones_except(zs, max_id as int, i as int)).union(zone@.to_set())
                        =~= m0.walls.union(zones_except(zs, max_id as int, i + 1))) by {
                        assert forall|c: Cell| #[trigger] zones_except(zs, max_id as int, i + 1).contains(c)
                            implies zones_except(zs, max_id as int, i as int).contains(c)
                            || zone@.to_set().contains(c) by {
                            let q = choose|q: int| 0 <= q < i + 1 && q != max_id && #[trigger] zs[q].contains(c);
                            if q == i {
                                assert(zone@.contains(c));
                            }
                        }
                    }
                }
                changes = true;
            } else {
                proof {
                    assert(zones_except(zs, max_id as int, i as int) =~= zones_except(zs, max_id as int, i + 1));
                }
            }
            i = i + 1;
        }
        proof {
            let k = max_id as int;
            assert(largest(zs, k));
            assert forall|c: Cell| free(self@, dim as nat, c) <==> #[trigger] zs[k].contains(c) by {
                if free(self@, dim as nat, c) {
                    assert(free(m0, dim as nat, c));
                    assert(member(m0, dim as nat, ZoneFilter::All, c));
                    let q = choose|q: int| 0 <= q < zs.len() && #[trigger] zs[q].contains(c);
                    if q != k {
                        assert(zones_except(zs, k, zs.len() as int).contains(c));
                    }
                }
                if zs[k].contains(c) {
                    assert(is_zone(m0, dim as nat, ZoneFilter::All, zs[k]));
                    let p = choose|p: int| 0 <= p < zs[k].len() && zs[k][p] == c;
                    assert(member(m0, dim as nat, ZoneFilter::All, zs[k][p]));
                    assert(!zones_except(zs, k, zs.len() as int).contains(c)) by {
                        if zones_except(zs, k, zs.len() as int).contains(c) {
                            let q = choose|q: int| 0 <= q < zs.len() && q != k && #[trigger] zs[q].contains(c);
                        }
                    }
                }
            }
            assert(is_zone(m0, dim as nat, ZoneFilter::All, zs[k]));
            lemma_single_zone(self@, dim as nat, zs[k]);
            assert(changes == (zs.len() > 1));
            assert(smallests_filled(m0, self@, zs));
        }
        changes
    }
}

/// `n` is a free cell (cells outside the area count as free) outside the
/// group `z` that shares a face with a cell of `z`.
pub open spec fn exit_of(m: MazeModel, dim: nat, z: Seq<Cell>, n: Cell) -> bool {
    &&& !m.walls.contains(n)
    &&& !z.contains(n)
    &&& exists|i: int| 0 <= i < z.len() && adjacent(#[trigger] z[i], n, dim)
}

/// The room `z` opens on exactly one cell.
pub open spec fn dead_room(m: MazeModel, dim: nat, z: Seq<Cell>) -> bool {
    exists|n: Cell|
        #[trigger] exit_of(m, dim, z, n) && forall|n2: Cell| #[trigger] exit_of(m, dim, z, n2) ==> n2 == n
}

/// The cells of the zones of `zs` that `dead` selects.
pub open spec fn selected_cells(zs: Seq<Seq<Cell>>, dead: spec_fn(Seq<Cell>) -> bool) -> Set<Cell> {
    Set::new(|c: Cell| exists|i: int| 0 <= i < zs.len() && dead(zs[i]) && #[trigger] zs[i].contains(c))
}

/// Some zone of `zs` is selected by `dead`.
pub open spec fn some_selected(zs: Seq<Seq<Cell>>, dead: spec_fn(Seq<Cell>) -> bool) -> bool {
    exists|i: int| 0 <= i < zs.len() && #[trigger] dead(zs[i])
}

/// Number of the face neighbours of `c` among `ns` that are walls.
pub open spec fn count_walls(m: MazeModel, c: Cell, ns: Seq<Cell>) -> nat
    decreases ns.len(),
{
    if ns.len() == 0 {
        0
    } else {
        count_walls(m, c, ns.drop_last()) + if m.walls.contains(add_cell(c, ns.last())) {
            1nat
        } else {
            0nat
        }
    }
}

/// `c` is the end of a corridor: at most one of its face neighbours is free.
pub open spec fn dead_end(m: MazeModel, dim: nat, c: Cell) -> bool {
    count_walls(m, c, spec_neighbours(dim)) + 1 >= spec_neighbours(dim).len()
}

/// `a` is a free face neighbour of `c`.
pub open spec fn free_neighbour(m: MazeModel, dim: nat, c: Cell, a: Cell) -> bool {
    adjacent(c, a, dim) && !m.walls.contains(a)
}

/// A cell is a dead end exactly when at most one of its face neighbours is
/// free: any two free face neighbours are the same cell.
pub proof fn lemma_dead_end_one_way_out(m: MazeModel, dim: nat, c: Cell)
    requires
        valid_dim(dim),
        isize::MIN < c.x < isize::MAX,
        isize::MIN < c.y < isize::MAX,
        isize::MIN < c.z < isize::MAX,
    ensures
        dead_end(m, dim, c) <==> forall|a: Cell, b: Cell|
            #[trigger] free_neighbour(m, dim, c, a) && #[trigger] free_neighbour(m, dim, c, b) ==> a == b,
{
    let ns = spec_neighbours(dim);
    reveal_with_fuel(count_walls, 7);
    assert(ns.drop_last().drop_last().drop_last().drop_last() =~= if dim == 2 {
        Seq::<Cell>::empty()
    } else {
        ns.take(2)
    });
    if dim == 3 {
        assert(ns.take(2).drop_last().drop_last() =~= Seq::<Cell>::empty());
    }
    let w = |k: int| m.walls.contains(add_cell(c, ns[k]));
    lemma_neighbour_offsets(dim);
    if dead_end(m, dim, c) {
        assert forall|a: Cell, b: Cell|
            #[trigger] free_neighbour(m, dim, c, a) && #[trigger] free_neighbour(m, dim, c, b) implies a == b by {
            let i = lemma_adjacent_offset(c, a, dim);
            let j = lemma_adjacent_offset(c, b, dim);
            assert(!w(i) && !w(j));
            if i != j {
                assert(false);
            }
        }
    }
    if forall|a: Cell, b: Cell|
        #[trigger] free_neighbour(m, dim, c, a) && #[trigger] free_neighbour(m, dim, c, b) ==> a == b {
        assert forall|i: int, j: int| 0 <= i < j < ns.len() implies #[trigger] w(i) || #[trigger] w(j) by {
            let a = add_cell(c, ns[i]);
            let b = add_cell(c, ns[j]);
            assert(adjacent(c, a, dim));
            assert(adjacent(c, b, dim));
            if !w(i) && !w(j) {
                assert(free_neighbour(m, dim, c, a) && free_neighbour(m, dim, c, b));
                assert(a != b);
            }
        }
        assert(w(0) || w(1));
        assert(w(0) || w(2));
        assert(w(0) || w(3));
        assert(w(1) || w(2));
        assert(w(1) || w(3));
        assert(w(2) || w(3));
        if dim == 3 {
            assert(w(0) || w(4));
            assert(w(0) || w(5));
            assert(w(1) || w(4));
            assert(w(1) || w(5));
            assert(w(2) || w(4));
            assert(w(2) || w(5));
            assert(w(3) || w(4));
            assert(w(3) || w(5));
            assert(w(4) || w(5));
        }
    }
}

/// The corridor `z` has a dead end.
pub open spec fn dead_corridor(m: MazeModel, dim: nat, z: Seq<Cell>) -> bool {
    exists|k: int| 0 <= k < z.len() && dead_end(m, dim, #[trigger] z[k])
}

/// One round of corridor filling: every corridor with a dead end of
/// `before` is filled, and there was at least one.
pub open spec fn corridor_step(before: MazeModel, dim: nat, after: MazeModel) -> bool {
    &&& after.size == before.size
    &&& exists|zs: Seq<Seq<Cell>>|
        {
            &&& #[trigger] is_zones(before, dim, ZoneFilter::Corridors, zs)
            &&& some_selected(zs, |z: Seq<Cell>| dead_corridor(before, dim, z))
            &&& after.walls == before.walls.union(
                selected_cells(zs, |z: Seq<Cell>| dead_corridor(before, dim, z)),
            )
        }
}

/// `t` goes from `a` to `b` by rounds of corridor filling.
pub open spec fn corridor_trace(a: MazeModel, b: MazeModel, dim: nat, t: Seq<MazeModel>) -> bool {
    &&& t.len() >= 1
    &&& t[0] == a
    &&& t.last() == b
    &&& forall|i: int| 0 <= i < t.len() - 1 ==> corridor_step(#[trigger] t[i], dim, t[i + 1])
}

/// No corridor of the maze has a dead end.
pub open spec fn corridors_settled(m: MazeModel, dim: nat) -> bool {
    forall|zs: Seq<Seq<Cell>>|
        #[trigger] is_zones(m, dim, ZoneFilter::Corridors, zs) ==> !some_selected(
            zs,
            |z: Seq<Cell>| dead_corridor(m, dim, z),
        )
}

/// The free cells of the maze.
pub open spec fn free_cells(m: MazeModel, dim: nat) -> Set<Cell> {
    Set::new(|c: Cell| free(m, dim, c))
}

/// Once no corridor has a dead end, corridor filling has nothing to do:
/// every trace from such a maze is empty.
pub proof fn lemma_settled_trace(a: MazeModel, b: MazeModel, dim: nat, t: Seq<MazeModel>)
    requires
        corridors_settled(a, dim),
        corridor_trace(a, b, dim, t),
    ensures
        t.len() == 1,
        b == a,
{
    if t.len() > 1 {
        assert(corridor_step(t[0], dim, t[1]));
        let zs = choose|zs: Seq<Seq<Cell>>|
            {
                &&& #[trigger] is_zones(a, dim, ZoneFilter::Corridors, zs)
                &&& some_selected(zs, |z: Seq<Cell>| dead_corridor(a, dim, z))
                &&& t[1].walls == a.walls.union(
                    selected_cells(zs, |z: Seq<Cell>| dead_corridor(a, dim, z)),
                )
            };
        assert(false);
    }
}

pub fn vec_contains(v: &Vec<Cell>, c: &Cell) -> (b: bool)
    ensures
        b == v@.contains(*c),
{
    let mut i: usize = 0;
    while i < v.len()
        invariant
            i <= v@.len(),
            forall|j: int| 0 <= j < i ==> v@[j] != *c,
        decreases v.len() - i,
    {
        if v[i] == *c {
            return true;
        }
        i = i + 1;
    }
    false
}

impl<D: Dimension> Maze<D> {
    /// Makes walls of the cells of the zones `zones[i]` with `marks[i]`.
    fn fill_marked(&mut self, zones: &Vec<Vec<Cell>>, marks: &Vec<bool>)
        requires
            old(self).wf(),
            marks@.len() == zones@.len(),
            forall|i: int, k: int|
                0 <= i < zones@.len() && 0 <= k < zones@[i]@.len() ==> inside(
                    old(self)@,
                    D::spec_dim(),
                    #[trigger] zones@[i]@[k],
                ),
        ensures
            final(self).wf(),
            final(self)@.size == old(self)@.size,
            final(self)@.walls == old(self)@.walls.union(
                Set::new(
                    |c: Cell|
                        exists|i: int| 0 <= i < zones@.len() && marks@[i] && #[trigger] zones@[i]@.contains(c),
                ),
            ),
    {
        let ghost m0 = self@;
        let mut i: usize = 0;
        while i < zones.len()
            invariant
                self.wf(),
                self@.size == m0.size,
                marks@.len() == zones@.len(),
                forall|q: int, k: int|
                    0 <= q < zones@.len() && 0 <= k < zones@[q]@.len() ==> inside(
                        m0,
                        D::spec_dim(),
                        #[trigger] zones@[q]@[k],
                    ),
                i <= zones@.len(),
                self@.walls == m0.walls.union(
                    Set::new(
                        |c: Cell|
                            exists|q: int| 0 <= q < i && marks@[q] && #[trigger] zones@[q]@.contains(c),
                    ),
                ),
            decreases zones.len() - i,
        {
            let ghost before = self@.walls;
            if marks[i] {
                let zone = &zones[i];
                let mut j: usize = 0;
                while j < zone.len()
                    invariant
                        self.wf(),
                        self@.size == m0.size,
                        zone@ == zones@[i as int]@,
                        0 <= i < zones@.len(),
                        forall|k: int| 0 <= k < zone@.len() ==> inside(m0, D::spec_dim(), #[trigger] zone@[k]),
                        j <= zone@.len(),
                        self@.walls == before.union(zone@.take(j as int).to_set()),
                    decreases zone.len() - j,
                {
                    let c = zone[j];
                    self.set_wall(&c, true);
                    proof {
                        assert(zone@.take(j + 1) =~= zone@.take(j as int).push(c));
                        zone@.take(j as int).lemma_push_to_set_commute(c);
                        assert(self@.walls =~= before.union(zone@.take(j + 1).to_set()));
                    }
                    j = j + 1;
                }
                proof {
                    assert(zone@.take(zone@.len() as int) =~= zone@);
                }
            }
            proof {
                let next = Set::new(
                    |c: Cell| exists|q: int| 0 <= q < i + 1 && marks@[q] && #[trigger] zones@[q]@.contains(c),
                );
                let prev = Set::new(
                    |c: Cell| exists|q: int| 0 <= q < i && marks@[q] && #[trigger] zones@[q]@.contains(c),
                );
                assert forall|c: Cell| #[trigger] self@.walls.contains(c) == m0.walls.union(next).contains(c) by {
                    if zones@[i as int]@.contains(c) && marks@[i as int] {
                        assert(next.contains(c));
                    }
                    if next.contains(c) && !prev.contains(c) {
                        let q = choose|q: int| 0 <= q < i + 1 && marks@[q] && #[trigger] zones@[q]@.contains(c);
                        assert(q == i);
                    }
                }
                assert(self@.walls =~= m0.walls.union(next));
            }
            i = i + 1;
        }
    }

    /// Whether the room `room` opens on exactly one cell.
    fn is_dead_room(&self, room: &Vec<Cell>) -> (b: bool)
        requires
            self.wf(),
            forall|k: int| 0 <= k < room@.len() ==> inside(self@, D::spec_dim(), #[trigger] room@[k]),
        ensures
            b == dead_room(self@, D::spec_dim(), room@),
    {
        proof {
            D::lemma_dim();
            lemma_neighbour_offsets(D::spec_dim());
        }
        let dim = D::dim();
        let ghost m = self@;
        let ghost z = room@;
        let mut first: Option<Cell> = None;
        let mut single = true;
        let mut i: usize = 0;
        while i < room.len()
            invariant
                self.wf(),
                m == self@,
                z == room@,
                valid_dim(dim as nat),
                dim as nat == D::spec_dim(),
                self.neighbours@ == spec_neighbours(dim as nat),
                forall|k: int| 0 <= k < z.len() ==> inside(m, dim as nat, #[trigger] z[k]),
                i <= z.len(),
                first is None ==> forall|n: Cell| !#[trigger] exit_before(m, dim as nat, z, i as int, n),
                first is None ==> single,
                first matches Some(e) ==> exit_before(m, dim as nat, z, i as int, e),
                first matches Some(e) ==> single ==> forall|n: Cell|
                    #[trigger] exit_before(m, dim as nat, z, i as int, n) ==> n == e,
                first matches Some(e) ==> !single ==> exists|n: Cell|
                    #[trigger] exit_before(m, dim as nat, z, i as int, n) && n != e,
            decreases room.len() - i,
        {
            let c = room[i];
            proof {
                self.lemma_size_bounds(c);
            }
            proof {
                assert forall|n: Cell| #[trigger] exit_upto(m, dim as nat, z, i as int, 0, n)
                    == exit_before(m, dim as nat, z, i as int, n) by {
                }
                if let Some(e) = first {
                    if !single {
                        let n3 = choose|n3: Cell| #[trigger] exit_before(m, dim as nat, z, i as int, n3) && n3 != e;
                        assert(exit_upto(m, dim as nat, z, i as int, 0, n3));
                    }
                }
            }
            let mut k: usize = 0;
            while k < self.neighbours.len()
                invariant
                    self.wf(),
                    m == self@,
                    z == room@,
                    valid_dim(dim as nat),
                    dim as nat == D::spec_dim(),
                    self.neighbours@ == spec_neighbours(dim as nat),
                    0 <= i < z.len(),
                    c == z[i as int],
                    isize::MIN < c.x < isize::MAX,
                    isize::MIN < c.y < isize::MAX,
                    isize::MIN < c.z < isize::MAX,
                    k <= self.neighbours@.len(),
                    first is None ==> forall|n: Cell| !#[trigger] exit_upto(m, dim as nat, z, i as int, k as int, n),
                    first is None ==> single,
                    first matches Some(e) ==> exit_upto(m, dim as nat, z, i as int, k as int, e),
                    first matches Some(e) ==> single ==> forall|n: Cell|
                        #[trigger] exit_upto(m, dim as nat, z, i as int, k as int, n) ==> n == e,
                    first matches Some(e) ==> !single ==> exists|n: Cell|
                        #[trigger] exit_upto(m, dim as nat, z, i as int, k as int, n) && n != e,
                decreases self.neighbours.len() - k,
            {
                let n = c.add(&self.neighbours[k]);
                proof {
                    assert(n == add_cell(c, spec_neighbours(dim as nat)[k as int]));
                }
                let ghost f0 = first;
                let ghost s0 = single;
                let new_exit = !self.contains(&n) && !vec_contains(room, &n);
                if new_exit {
                    match first {
                        None => {
                            first = Some(n);
                        },
                        Some(e) => {
                            if e != n {
                                single = false;
                            }
                        },
                    }
                }
                proof {
                    lemma_exit_upto_step(m, dim as nat, z, i as int, k as int);
                    let ki = k as int;
                    if let Some(e) = f0 {
                        if !s0 {
                            let n3 = choose|n3: Cell| #[trigger] exit_upto(m, dim as nat, z, i as int, ki, n3)
                                && n3 != e;
                            assert(exit_upto(m, dim as nat, z, i as int, ki + 1, n3));
                        }
                    }
                    if new_exit {
                        assert(exit_upto(m, dim as nat, z, i as int, ki + 1, n));
                        if let Some(e) = f0 {
                            if e != n {
                                assert(exists|n4: Cell|
                                    #[trigger] exit_upto(m, dim as nat, z, i as int, ki + 1, n4) && n4 != e);
                            }
                        }
                    }
                    if let Some(e) = first {
                        if single {
                            assert forall|n2: Cell| #[trigger] exit_upto(m, dim as nat, z, i as int, ki + 1, n2)
                                implies n2 == e by {
                                if exit_upto(m, dim as nat, z, i as int, ki, n2) {
                                } else {
                                    assert(n2 == n);
                                }
                            }
                        }
                    } else {
                        assert forall|n2: Cell| !#[trigger] exit_upto(m, dim as nat, z, i as int, ki + 1, n2) by {
                            assert(!exit_upto(m, dim as nat, z, i as int, ki, n2));
                        }
                    }
                }
                k = k + 1;
            }
            proof {
                lemma_exit_upto_next_cell(m, dim as nat, z, i as int);
                let len = spec_neighbours(dim as nat).len() as int;
                if let Some(e) = first {
                    assert(exit_before(m, dim as nat, z, i + 1, e));
                    if single {
                        assert forall|n: Cell| #[trigger] exit_before(m, dim as nat, z, i + 1, n) implies n == e by {
                            assert(exit_upto(m, dim as nat, z, i as int, len, n));
                        }
                    } else {
                        let n3 = choose|n3: Cell| #[trigger] exit_upto(m, dim as nat, z, i as int, len, n3)
                            && n3 != e;
                        assert(exit_before(m, dim as nat, z, i + 1, n3));
                    }
                } else {
                    assert forall|n: Cell| !#[trigger] exit_before(m, dim as nat, z, i + 1, n) by {
                        assert(!exit_upto(m, dim as nat, z, i as int, len, n));
                    }
                }
            }
            i = i + 1;
        }
        proof {
            lemma_exit_before_all(m, dim as nat, z);
            if let Some(e) = first {
                assert(exit_of(m, dim as nat, z, e));
                if single {
                    assert forall|n2: Cell| #[trigger] exit_of(m, dim as nat, z, n2) implies n2 == e by {
                        assert(exit_before(m, dim as nat, z, z.len() as int, n2));
                    }
                    assert(dead_room(m, dim as nat, z));
                } else {
                    let n3 = choose|n3: Cell| #[trigger] exit_before(m, dim as nat, z, z.len() as int, n3)
                        && n3 != e;
                    assert(exit_of(m, dim as nat, z, n3));
                    if dead_room(m, dim as nat, z) {
                        let w = choose|w: Cell| #[trigger] exit_of(m, dim as nat, z, w) && forall|n2: Cell|
                            #[trigger] exit_of(m, dim as nat, z, n2) ==> n2 == w;
                        assert(e == w);
                        assert(n3 == w);
                    }
                }
            } else {
                if dead_room(m, dim as nat, z) {
                    let w = choose|w: Cell| #[trigger] exit_of(m, dim as nat, z, w) && forall|n2: Cell|
                        #[trigger] exit_of(m, dim as nat, z, n2) ==> n2 == w;
                    assert(exit_before(m, dim as nat, z, z.len() as int, w));
                }
            }
        }
        match first {
            None => false,
            Some(_) => single,
        }
    }

    /// Fills the rooms (zones of cells with more than two open moves) that
    /// open on exactly one cell. Returns whether a wall was added.
    pub fn fill_dead_rooms(&mut self) -> (changes: bool)
        requires
            old(self).wf(),
            circled(old(self)@, D::spec_dim()),
        ensures
            final(self).wf(),
            final(self)@.size == old(self)@.size,
            circled(final(self)@, D::spec_dim()),
            exists|zs: Seq<Seq<Cell>>|
                {
                    &&& #[trigger] is_zones(old(self)@, D::spec_dim(), ZoneFilter::Rooms, zs)
                    &&& final(self)@.walls == old(self)@.walls.union(
                        selected_cells(zs, |z: Seq<Cell>| dead_room(old(self)@, D::spec_dim(), z)),
                    )
                    &&& changes == some_selected(zs, |z: Seq<Cell>| dead_room(old(self)@, D::spec_dim(), z))
                },
    {
        let ghost m0 = self@;
        let ghost dim = D::spec_dim();
        let rooms = self.zones_of(ZoneFilter::Rooms);
        let ghost zs = zones_view(rooms@);
        let mut marks: Vec<bool> = Vec::new();
        let mut changes = false;
        let mut i: usize = 0;
        while i < rooms.len()
            invariant
                self.wf(),
                self@ == m0,
                dim == D::spec_dim(),
                zs == zones_view(rooms@),
                is_zones(m0, dim, ZoneFilter::Rooms, zs),
                i <= rooms@.len(),
                marks@.len() == i,
                forall|q: int| 0 <= q < i ==> marks@[q] == dead_room(m0, dim, #[trigger] zs[q]),
                changes == exists|q: int| 0 <= q < i && #[trigger] dead_room(m0, dim, zs[q]),
            decreases rooms.len() - i,
        {
            proof {
                assert(zs[i as int] == rooms@[i as int]@);
                assert(is_zone(m0, dim, ZoneFilter::Rooms, zs[i as int]));
                assert forall|k: int| 0 <= k < rooms@[i as int]@.len() implies inside(
                    self@,
                    D::spec_dim(),
                    #[trigger] rooms@[i as int]@[k],
                ) by {
                    assert(member(m0, dim, ZoneFilter::Rooms, zs[i as int][k]));
                }
            }
            let d = self.is_dead_room(&rooms[i]);
            marks.push(d);
            if d {
                changes = true;
            }
            i = i + 1;
        }
        proof {
            assert forall|q: int, k: int|
                0 <= q < rooms@.len() && 0 <= k < rooms@[q]@.len() implies inside(
                self@,
                D::spec_dim(),
                #[trigger] rooms@[q]@[k],
            ) by {
                assert(zs[q] == rooms@[q]@);
                assert(is_zone(m0, dim, ZoneFilter::Rooms, zs[q]));
                assert(member(m0, dim, ZoneFilter::Rooms, zs[q][k]));
            }
        }
        self.fill_marked(&rooms, &marks);
        proof {
            let dead = |z: Seq<Cell>| dead_room(m0, dim, z);
            let sel = selected_cells(zs, dead);
            let filled = Set::new(
                |c: Cell| exists|q: int| 0 <= q < rooms@.len() && marks@[q] && #[trigger] rooms@[q]@.contains(c),
            );
            assert forall|c: Cell| #[trigger] sel.contains(c) == filled.contains(c) by {
                if sel.contains(c) {
                    let q = choose|q: int| 0 <= q < zs.len() && dead(zs[q]) && #[trigger] zs[q].contains(c);
                    assert(zs[q] == rooms@[q]@);
                    assert(rooms@[q]@.contains(c));
                }
                if filled.contains(c) {
                    let q = choose|q: int| 0 <= q < rooms@.len() && marks@[q] && #[trigger] rooms@[q]@.contains(c);
                    assert(zs[q] == rooms@[q]@);
                    assert(zs[q].contains(c));
                }
            }
            assert(sel =~= filled);
            if changes {
                let q = choose|q: int| 0 <= q < rooms@.len() && #[trigger] dead_room(m0, dim, zs[q]);
                assert(dead(zs[q]));
            }
            if some_selected(zs, dead) {
                let q = choose|q: int| 0 <= q < zs.len() && #[trigger] dead(zs[q]);
                assert(dead_room(m0, dim, zs[q]));
            }
        }
        changes
    }
}

/// Two decompositions of a maze into zones have the same zones: the zone
/// `zs2[i]` has the cells of some zone of `zs`.
pub proof fn lemma_zone_unique(
    m: MazeModel,
    dim: nat,
    f: ZoneFilter,
    zs: Seq<Seq<Cell>>,
    zs2: Seq<Seq<Cell>>,
    i: int,
) -> (j: int)
    requires
        is_zones(m, dim, f, zs),
        is_zones(m, dim, f, zs2),
        0 <= i < zs2.len(),
    ensures
        0 <= j < zs.len(),
        forall|c: Cell| zs2[i].contains(c) <==> #[trigger] zs[j].contains(c),
{
    assert(is_zone(m, dim, f, zs2[i]));
    let a = zs2[i][0];
    assert(member(m, dim, f, a));
    let j = choose|j: int| 0 <= j < zs.len() && #[trigger] zs[j].contains(a);
    assert(is_zone(m, dim, f, zs[j]));
    assert(zs2[i].contains(a));
    lemma_closed_contains_all(m, dim, f, zs2[i], zs[j], 0);
    let p = choose|p: int| 0 <= p < zs[j].len() && zs[j][p] == a;
    lemma_closed_contains_all(m, dim, f, zs[j], zs2[i], p);
    assert forall|c: Cell| zs2[i].contains(c) <==> #[trigger] zs[j].contains(c) by {
        if zs2[i].contains(c) {
            let q = choose|q: int| 0 <= q < zs2[i].len() && zs2[i][q] == c;
            assert(zs[j].contains(zs2[i][q]));
        }
        if zs[j].contains(c) {
            let q = choose|q: int| 0 <= q < zs[j].len() && zs[j][q] == c;
            assert(zs2[i].contains(zs[j][q]));
        }
    }
    j
}

/// A proper subset of the free cells has fewer cells.
proof fn lemma_free_shrinks(m0: MazeModel, m1: MazeModel, dim: nat, c: Cell)
    requires
        valid_dim(dim),
        m1.size == m0.size,
        m0.walls.subset_of(m1.walls),
        free(m0, dim, c),
        m1.walls.contains(c),
    ensures
        free_cells(m1, dim).len() < free_cells(m0, dim).len(),
        free_cells(m0, dim).finite(),
{
    let area = area_cells(m0.size, dim).to_set();
    assert(free_cells(m0, dim).subset_of(area)) by {
        assert forall|d: Cell| free_cells(m0, dim).contains(d) implies area.contains(d) by {
            lemma_cell_index(m0.size, dim, d);
            let k = super::cell::cell_index(m0.size, dim, d);
            assert(area_cells(m0.size, dim)[k] == d);
        }
    }
    lemma_len_subset(free_cells(m0, dim), area);
    let smaller = free_cells(m0, dim).remove(c);
    assert(free_cells(m1, dim).subset_of(smaller));
    lemma_len_subset(free_cells(m1, dim), smaller);
}

impl<D: Dimension> Maze<D> {
    /// Number of the face neighbours of `c` that are walls.
    fn wall_count(&self, c: &Cell) -> (n: usize)
        requires
            self.wf(),
            inside(self@, D::spec_dim(), *c),
        ensures
            n == count_walls(self@, *c, spec_neighbours(D::spec_dim())),
            n <= spec_neighbours(D::spec_dim()).len(),
    {
        proof {
            D::lemma_dim();
            lemma_neighbour_offsets(D::spec_dim());
            self.lemma_size_bounds(*c);
        }
        let ghost ns = spec_neighbours(D::spec_dim());
        let mut n: usize = 0;
        let mut k: usize = 0;
        while k < self.neighbours.len()
            invariant
                self.wf(),
                ns == spec_neighbours(D::spec_dim()),
                self.neighbours@ == ns,
                valid_dim(D::spec_dim()),
                isize::MIN < c.x < isize::MAX,
                isize::MIN < c.y < isize::MAX,
                isize::MIN < c.z < isize::MAX,
                k <= ns.len(),
                n <= k,
                n == count_walls(self@, *c, ns.take(k as int)),
            decreases self.neighbours.len() - k,
        {
            let t = c.add(&self.neighbours[k]);
            proof {
                assert(ns.take(k + 1).drop_last() =~= ns.take(k as int));
                assert(ns.take(k + 1).last() == ns[k as int]);
                assert(t == add_cell(*c, ns[k as int]));
            }
            if self.contains(&t) {
                n = n + 1;
            }
            k = k + 1;
        }
        proof {
            assert(ns.take(ns.len() as int) =~= ns);
        }
        n
    }

    /// Whether the corridor `z` has a dead end.
    fn is_dead_corridor(&self, z: &Vec<Cell>) -> (b: bool)
        requires
            self.wf(),
            forall|k: int| 0 <= k < z@.len() ==> inside(self@, D::spec_dim(), #[trigger] z@[k]),
        ensures
            b == dead_corridor(self@, D::spec_dim(), z@),
    {
        let mut k: usize = 0;
        while k < z.len()
            invariant
                self.wf(),
                forall|q: int| 0 <= q < z@.len() ==> inside(self@, D::spec_dim(), #[trigger] z@[q]),
                k <= z@.len(),
                forall|q: int| 0 <= q < k ==> !dead_end(self@, D::spec_dim(), #[trigger] z@[q]),
            decreases z.len() - k,
        {
            let n = self.wall_count(&z[k]);
            if n + 1 >= self.neighbours.len() {
                proof {
                    assert(dead_end(self@, D::spec_dim(), z@[k as int]));
                }
                return true;
            }
            k = k + 1;
        }
        false
    }

    /// Repeatedly fills the corridors (zones of cells with at most two open
    /// moves) that have a dead end, until none is left. Returns whether a
    /// wall was added.
    pub fn fill_dead_corridors(&mut self) -> (changes: bool)
        requires
            old(self).wf(),
            circled(old(self)@, D::spec_dim()),
        ensures
            final(self).wf(),
            final(self)@.size == old(self)@.size,
            circled(final(self)@, D::spec_dim()),
            exists|t: Seq<MazeModel>|
                #[trigger] corridor_trace(old(self)@, final(self)@, D::spec_dim(), t) && changes == (t.len()
                    > 1),
            corridors_settled(final(self)@, D::spec_dim()),
    {
        proof {
            D::lemma_dim();
        }
        let ghost dim = D::spec_dim();
        let ghost m_init = self@;
        let ghost mut trace: Seq<MazeModel> = seq![self@];
        let mut changes = false;
        loop
            invariant
                self.wf(),
                dim == D::spec_dim(),
                valid_dim(dim),
                self@.size == m_init.size,
                circled(self@, dim),
                corridor_trace(m_init, self@, dim, trace),
                changes == (trace.len() > 1),
            ensures
                corridors_settled(self@, dim),
            decreases free_cells(self@, dim).len(),
        {
            let ghost m0 = self@;
            let corridors = self.zones_of(ZoneFilter::Corridors);
            let ghost zs = zones_view(corridors@);
            let mut marks: Vec<bool> = Vec::new();
            let mut any = false;
            let mut i: usize = 0;
            while i < corridors.len()
                invariant
                    self.wf(),
                    self@ == m0,
                    dim == D::spec_dim(),
                    zs == zones_view(corridors@),
                    is_zones(m0, dim, ZoneFilter::Corridors, zs),
                    i <= corridors@.len(),
                    marks@.len() == i,
                    forall|q: int| 0 <= q < i ==> marks@[q] == dead_corridor(m0, dim, #[trigger] zs[q]),
                    any == exists|q: int| 0 <= q < i && #[trigger] dead_corridor(m0, dim, zs[q]),
                decreases corridors.len() - i,
            {
                proof {
                    assert(zs[i as int] == corridors@[i as int]@);
                    assert(is_zone(m0, dim, ZoneFilter::Corridors, zs[i as int]));
                    assert forall|k: int| 0 <= k < corridors@[i as int]@.len() implies inside(
                        self@,
                        D::spec_dim(),
                        #[trigger] corridors@[i as int]@[k],
                    ) by {
                        assert(member(m0, dim, ZoneFilter::Corridors, zs[i as int][k]));
                    }
                }
                let d = self.is_dead_corridor(&corridors[i]);
                marks.push(d);
                if d {
                    any = true;
                }
                i = i + 1;
            }
            let ghost dead = |z: Seq<Cell>| dead_corridor(m0, dim, z);
            if !any {
                proof {
                    assert forall|zs2: Seq<Seq<Cell>>|
                        #[trigger] is_zones(m0, dim, ZoneFilter::Corridors, zs2) implies !some_selected(
                        zs2,
                        |z: Seq<Cell>| dead_corridor(m0, dim, z),
                    ) by {
                        if some_selected(zs2, |z: Seq<Cell>| dead_corridor(m0, dim, z)) {
                            let q = choose|q: int| 0 <= q < zs2.len() && #[trigger] dead_corridor(m0, dim, zs2[q]);
                            let j = lemma_zone_unique(m0, dim, ZoneFilter::Corridors, zs, zs2, q);
                            let k = choose|k: int| 0 <= k < zs2[q].len() && dead_end(m0, dim, #[trigger] zs2[q][k]);
                            assert(zs2[q].contains(zs2[q][k]));
                            assert(zs[j].contains(zs2[q][k]));
                            let p = choose|p: int| 0 <= p < zs[j].len() && zs[j][p] == zs2[q][k];
                            assert(dead_end(m0, dim, zs[j][p]));
                            assert(dead_corridor(m0, dim, zs[j]));
                        }
                    }
                }
                break;
            }
            proof {
                assert forall|q: int, k: int|
                    0 <= q < corridors@.len() && 0 <= k < corridors@[q]@.len() implies inside(
                    self@,
                    D::spec_dim(),
                    #[trigger] corridors@[q]@[k],
                ) by {
                    assert(zs[q] == corridors@[q]@);
                    assert(is_zone(m0, dim, ZoneFilter::Corridors, zs[q]));
                    assert(member(m0, dim, ZoneFilter::Corridors, zs[q][k]));
                }
            }
            self.fill_marked(&corridors, &marks);
            proof {
                let sel = selected_cells(zs, dead);
                let filled = Set::new(
                    |c: Cell|
                        exists|q: int| 0 <= q < corridors@.len() && marks@[q] && #[trigger] corridors@[q]@.contains(c),
                );
                assert forall|c: Cell| #[trigger] sel.contains(c) == filled.contains(c) by {
                    if sel.contains(c) {
                        let q = choose|q: int| 0 <= q < zs.len() && dead(zs[q]) && #[trigger] zs[q].contains(c);
                        assert(zs[q] == corridors@[q]@);
                        assert(corridors@[q]@.contains(c));
                    }
                    if filled.contains(c) {
                        let q = choose|q: int|
                            0 <= q < corridors@.len() && marks@[q] && #[trigger] corridors@[q]@.contains(c);
                        assert(zs[q] == corridors@[q]@);
                        assert(zs[q].contains(c));
                    }
                }
                assert(sel =~= filled);
                let q = choose|q: int| 0 <= q < corridors@.len() && #[trigger] dead_corridor(m0, dim, zs[q]);
                assert(dead(zs[q]));
                assert(some_selected(zs, dead));
                assert(corridor_step(m0, dim, self@));
                let t2 = trace.push(self@);
                assert forall|i: int| 0 <= i < t2.len() - 1 implies corridor_step(#[trigger] t2[i], dim, t2[i + 1]) by {
                    if i < trace.len() - 1 {
                        assert(t2[i] == trace[i]);
                        assert(t2[i + 1] == trace[i + 1]);
                    } else {
                        assert(t2[i] == m0);
                    }
                }
                trace = t2;
                assert(is_zone(m0, dim, ZoneFilter::Corridors, zs[q]));
                let c = zs[q][0];
                assert(member(m0, dim, ZoneFilter::Corridors, c));
                assert(zs[q].contains(c));
                assert(sel.contains(c));
                lemma_free_shrinks(m0, self@, dim, c);
                assert forall|d: Cell| inside(self@, dim, d) && super::on_border(self@.size, dim, d) implies #[trigger] self@.walls.contains(d) by {
                    assert(m0.walls.contains(d));
                }
            }
            changes = true;
        }
        changes
    }
}

/// `n` is an exit of `z` reached from a cell before position `i`.
pub open spec fn exit_before(m: MazeModel, dim: nat, z: Seq<Cell>, i: int, n: Cell) -> bool {
    &&& !m.walls.contains(n)
    &&& !z.contains(n)
    &&& exists|j: int| 0 <= j < i && adjacent(#[trigger] z[j], n, dim)
}

/// `n` is an exit of `z` reached from a cell before position `i`, or from
/// `z[i]` by one of its first `k` neighbour offsets.
pub open spec fn exit_upto(m: MazeModel, dim: nat, z: Seq<Cell>, i: int, k: int, n: Cell) -> bool {
    ||| exit_before(m, dim, z, i, n)
    ||| (!m.walls.contains(n) && !z.contains(n) && exists|q: int|
        0 <= q < k && n == add_cell(z[i], #[trigger] spec_neighbours(dim)[q]))
}

proof fn lemma_exit_upto_step(m: MazeModel, dim: nat, z: Seq<Cell>, i: int, k: int)
    requires
        valid_dim(dim),
        0 <= i < z.len(),
        0 <= k < spec_neighbours(dim).len(),
    ensures
        forall|n: Cell|
            #[trigger] exit_upto(m, dim, z, i, k + 1, n) <==> (exit_upto(m, dim, z, i, k, n) || (n
                == add_cell(z[i], spec_neighbours(dim)[k]) && !m.walls.contains(n) && !z.contains(n))),
{
    assert forall|n: Cell|
        #[trigger] exit_upto(m, dim, z, i, k + 1, n) implies (exit_upto(m, dim, z, i, k, n) || (n
            == add_cell(z[i], spec_neighbours(dim)[k]) && !m.walls.contains(n) && !z.contains(n))) by {
        if !exit_before(m, dim, z, i, n) {
            let q = choose|q: int| 0 <= q < k + 1 && n == add_cell(z[i], #[trigger] spec_neighbours(dim)[q]);
            if q < k {
                assert(exit_upto(m, dim, z, i, k, n));
            }
        }
    }
}

proof fn lemma_exit_upto_next_cell(m: MazeModel, dim: nat, z: Seq<Cell>, i: int)
    requires
        valid_dim(dim),
        0 <= i < z.len(),
        isize::MIN < z[i].x < isize::MAX,
        isize::MIN < z[i].y < isize::MAX,
        isize::MIN < z[i].z < isize::MAX,
    ensures
        forall|n: Cell|
            #[trigger] exit_before(m, dim, z, i + 1, n) <==> exit_upto(
                m,
                dim,
                z,
                i,
                spec_neighbours(dim).len() as int,
                n,
            ),
{
    lemma_neighbour_offsets(dim);
    assert forall|n: Cell|
        #[trigger] exit_before(m, dim, z, i + 1, n) <==> exit_upto(
            m,
            dim,
            z,
            i,
            spec_neighbours(dim).len() as int,
            n,
        ) by {
        if exit_before(m, dim, z, i + 1, n) && !exit_before(m, dim, z, i, n) {
            let j = choose|j: int| 0 <= j < i + 1 && adjacent(#[trigger] z[j], n, dim);
            assert(j == i);
            let q = lemma_adjacent_offset(z[i], n, dim);
        }
        if exit_upto(m, dim, z, i, spec_neighbours(dim).len() as int, n) && !exit_before(m, dim, z, i, n) {
            let q = choose|q: int|
                0 <= q < spec_neighbours(dim).len() && n == add_cell(z[i], #[trigger] spec_neighbours(dim)[q]);
            assert(adjacent(z[i], n, dim));
        }
    }
}

proof fn lemma_exit_before_all(m: MazeModel, dim: nat, z: Seq<Cell>)
    ensures
        forall|n: Cell| #[trigger] exit_before(m, dim, z, z.len() as int, n) <==> exit_of(m, dim, z, n),
{
}

} // verus!

//! Zones: the connected groups of free cells of a maze, where a cell is only
//! considered when it has the number of open moves a filter asks for.

use vstd::prelude::*;
use vstd::set_lib::{lemma_int_range, lemma_len_subset, set_int_range};

use super::cell::{
    Cell, Dimension, in_area, cell_index, cell_count, index_cell, valid_dim, lemma_cell_index,
    lemma_index_cell, index_of_cell, cell_of_index,
};
use super::moves::{OpeningModel, spec_neighbours, spec_offsets, spec_openings, opening_model, moved_axes};
use super::{Maze, MazeModel, free, inside, add_cell};

verus! {

/// Which free cells a zone is made of, by their number of open moves.
#[derive(Clone, Copy, PartialEq, Eq, Structural)]
pub enum ZoneFilter {
    /// Every free cell.
    All,
    /// Cells with more than two open moves.
    Rooms,
    /// Cells with at most two open moves.
    Corridors,
}

pub open spec fn admits(f: ZoneFilter, opened: nat) -> bool {
    match f {
        ZoneFilter::All => true,
        ZoneFilter::Rooms => opened > 2,
        ZoneFilter::Corridors => opened <= 2,
    }
}

/// Every cell the move needs is free of walls (cells outside the area
/// count as free).
pub open spec fn opening_open(m: MazeModel, c: Cell, o: OpeningModel) -> bool {
    forall|k: int| 0 <= k < o.needs.len() ==> !m.walls.contains(#[trigger] add_cell(c, o.needs[k]))
}

/// Number of the moves of `ops` that are open from `c`.
pub open spec fn count_open(m: MazeModel, c: Cell, ops: Seq<OpeningModel>) -> nat
    decreases ops.len(),
{
    if ops.len() == 0 {
        0
    } else {
        count_open(m, c, ops.drop_last()) + if opening_open(m, c, ops.last()) {
            1nat
        } else {
            0nat
        }
    }
}

/// Number of open moves from `c`.
pub open spec fn opened(m: MazeModel, dim: nat, c: Cell) -> nat {
    count_open(m, c, spec_openings(dim))
}

/// `c` is a free cell the filter keeps.
pub open spec fn member(m: MazeModel, dim: nat, f: ZoneFilter, c: Cell) -> bool {
    free(m, dim, c) && admits(f, opened(m, dim, c))
}

/// `c` is a free cell the filter turns down.
pub open spec fn rejected(m: MazeModel, dim: nat, f: ZoneFilter, c: Cell) -> bool {
    free(m, dim, c) && !member(m, dim, f, c)
}

/// The number of free cells among the first `k` of the area that the
/// filter turns down.
pub open spec fn rejected_upto(m: MazeModel, dim: nat, f: ZoneFilter, k: nat) -> nat
    decreases k,
{
    if k == 0 {
        0
    } else {
        rejected_upto(m, dim, f, (k - 1) as nat) + if rejected(m, dim, f, index_cell(m.size, dim, k - 1)) {
            1nat
        } else {
            0nat
        }
    }
}

/// The number of free cells of the maze the filter turns down.
pub open spec fn rejected_count(m: MazeModel, dim: nat, f: ZoneFilter) -> nat {
    rejected_upto(m, dim, f, cell_count(m.size, dim) as nat)
}

/// `a` and `b` share a face.
pub open spec fn adjacent(a: Cell, b: Cell, dim: nat) -> bool {
    let dx = b.x - a.x;
    let dy = b.y - a.y;
    let dz = b.z - a.z;
    ||| ((dx == 1 || dx == -1) && dy == 0 && dz == 0)
    ||| (dx == 0 && (dy == 1 || dy == -1) && dz == 0)
    ||| (dim == 3 && dx == 0 && dy == 0 && (dz == 1 || dz == -1))
}

/// Every cell of `z` but the first shares a face with an earlier one, so
/// the cells of `z` are connected.
pub open spec fn connected_order(z: Seq<Cell>, dim: nat) -> bool {
    forall|k: int| 0 < k < z.len() ==> #[trigger] touches_earlier(z, k, dim)
}

/// Some cell before position `k` of `z` shares a face with `z[k]`.
pub open spec fn touches_earlier(z: Seq<Cell>, k: int, dim: nat) -> bool {
    exists|j: int| 0 <= j < k && adjacent(z[j], z[k], dim)
}

/// Every kept cell sharing a face with a cell of `z` is in `z`.
pub open spec fn closed_zone(m: MazeModel, dim: nat, f: ZoneFilter, z: Seq<Cell>) -> bool {
    forall|c: Cell, d: Cell|
        #![trigger z.contains(c), member(m, dim, f, d)]
        z.contains(c) && member(m, dim, f, d) && adjacent(c, d, dim) ==> z.contains(d)
}

/// `z` is one zone: a nonempty, connected, closed group of distinct kept
/// cells.
pub open spec fn is_zone(m: MazeModel, dim: nat, f: ZoneFilter, z: Seq<Cell>) -> bool {
    &&& z.len() > 0
    &&& z.no_duplicates()
    &&& forall|k: int| 0 <= k < z.len() ==> member(m, dim, f, #[trigger] z[k])
    &&& connected_order(z, dim)
    &&& closed_zone(m, dim, f, z)
}

/// `zs` lists every zone of the maze once.
pub open spec fn is_zones(m: MazeModel, dim: nat, f: ZoneFilter, zs: Seq<Seq<Cell>>) -> bool {
    &&& forall|i: int| 0 <= i < zs.len() ==> is_zone(m, dim, f, #[trigger] zs[i])
    &&& forall|i: int, j: int, c: Cell|
        0 <= i < zs.len() && 0 <= j < zs.len() && i != j && #[trigger] zs[i].contains(c)
            ==> !#[trigger] zs[j].contains(c)
    &&& forall|c: Cell|
        member(m, dim, f, c) ==> exists|i: int| 0 <= i < zs.len() && #[trigger] zs[i].contains(c)
}

pub open spec fn zones_view(zs: Seq<Vec<Cell>>) -> Seq<Seq<Cell>> {
    zs.map_values(|z: Vec<Cell>| z@)
}

/// The offset of a neighbour sharing a face with `a`.
pub proof fn lemma_adjacent_offset(a: Cell, b: Cell, dim: nat) -> (k: int)
    requires
        valid_dim(dim),
        adjacent(a, b, dim),
        isize::MIN < a.x < isize::MAX,
        isize::MIN < a.y < isize::MAX,
        isize::MIN < a.z < isize::MAX,
    ensures
        0 <= k < spec_neighbours(dim).len(),
        b == add_cell(a, spec_neighbours(dim)[k]),
{
    let n = spec_neighbours(dim);
    let k = if b.x == a.x - 1 {
        0
    } else if b.x == a.x + 1 {
        1
    } else if b.y == a.y - 1 {
        2
    } else if b.y == a.y + 1 {
        3
    } else if b.z == a.z - 1 {
        4
    } else {
        5
    };
    assert(b == add_cell(a, n[k]));
    k
}

/// Each neighbour offset moves along exactly one axis by one.
pub proof fn lemma_neighbour_offsets(dim: nat)
    requires
        valid_dim(dim),
    ensures
        forall|k: int|
            0 <= k < spec_neighbours(dim).len() ==> {
                let o = #[trigger] spec_neighbours(dim)[k];
                &&& -1 <= o.x <= 1
                &&& -1 <= o.y <= 1
                &&& -1 <= o.z <= 1
                &&& forall|a: Cell|
                    isize::MIN < a.x < isize::MAX && isize::MIN < a.y < isize::MAX && isize::MIN
                        < a.z < isize::MAX ==> adjacent(a, #[trigger] add_cell(a, o), dim)
            },
{
}

/// The offsets of the moves and of the cells they need are within one of
/// the cell on every axis.
pub proof fn lemma_opening_offsets(dim: nat)
    requires
        valid_dim(dim),
    ensures
        forall|i: int, k: int|
            0 <= i < spec_openings(dim).len() && 0 <= k < spec_openings(dim)[i].needs.len()
                ==> {
                let o = #[trigger] spec_openings(dim)[i].needs[k];
                -1 <= o.x <= 1 && -1 <= o.y <= 1 && -1 <= o.z <= 1
            },
{
    assert forall|i: int| 0 <= i < spec_offsets(dim).len() implies {
        let d = #[trigger] spec_offsets(dim)[i];
        -1 <= d.x <= 1 && -1 <= d.y <= 1 && -1 <= d.z <= 1 && moved_axes(d) >= 1
    } by {
    }
    assert forall|i: int, k: int|
        0 <= i < spec_openings(dim).len() && 0 <= k < spec_openings(dim)[i].needs.len()
            implies {
        let o = #[trigger] spec_openings(dim)[i].needs[k];
        -1 <= o.x <= 1 && -1 <= o.y <= 1 && -1 <= o.z <= 1
    } by {
        let d = spec_offsets(dim)[i];
        assert(spec_openings(dim)[i] == opening_model(d));
    }
}

/// Distinct cells of an area are at most as many as the area's cells.
pub proof fn lemma_cells_bounded(size: Cell, dim: nat, z: Seq<Cell>)
    requires
        valid_dim(dim),
        z.no_duplicates(),
        forall|k: int| 0 <= k < z.len() ==> in_area(size, dim, #[trigger] z[k]),
    ensures
        z.len() <= cell_count(size, dim),
{
    let s = z.map_values(|c: Cell| cell_index(size, dim, c));
    assert(s.no_duplicates()) by {
        assert forall|i: int, j: int| 0 <= i < s.len() && 0 <= j < s.len() && i != j implies s[i]
            != s[j] by {
            lemma_cell_index(size, dim, z[i]);
            lemma_cell_index(size, dim, z[j]);
        }
    }
    s.unique_seq_to_set();
    lemma_int_range(0, cell_count(size, dim));
    assert forall|v: int| s.to_set().contains(v) implies set_int_range(
        0,
        cell_count(size, dim),
    ).contains(v) by {
        let i = choose|i: int| 0 <= i < s.len() && s[i] == v;
        lemma_cell_index(size, dim, z[i]);
    }
    lemma_len_subset(s.to_set(), set_int_range(0, cell_count(size, dim)));
}

impl<D: Dimension> Maze<D> {
    /// Number of the moves that are open from `c`.
    pub fn opened(&self, c: &Cell) -> (n: usize)
        requires
            self.wf(),
            inside(self@, D::spec_dim(), *c),
        ensures
            n == opened(self@, D::spec_dim(), *c),
    {
        proof {
            self.lemma_openings();
            self.lemma_size_bounds(*c);
        }
        let ghost ops = spec_openings(D::spec_dim());
        let mut n: usize = 0;
        let mut i: usize = 0;
        while i < self.openings.len()
            invariant
                self.wf(),
                isize::MIN < c.x < isize::MAX,
                isize::MIN < c.y < isize::MAX,
                isize::MIN < c.z < isize::MAX,
                ops == spec_openings(D::spec_dim()),
                self.openings@.len() == ops.len(),
                i <= self.openings.len(),
                n == count_open(self@, *c, ops.take(i as int)),
                n <= i,
            decreases self.openings.len() - i,
        {
            let open = self.is_open(c, i);
            proof {
                assert(ops.take(i + 1).drop_last() =~= ops.take(i as int));
                assert(ops.take(i + 1).last() == ops[i as int]);
            }
            if open {
                n = n + 1;
            }
            i = i + 1;
        }
        proof {
            assert(ops.take(ops.len() as int) =~= ops);
        }
        n
    }

    /// The `i`-th move is open from `c`.
    pub fn is_open(&self, c: &Cell, i: usize) -> (b: bool)
        requires
            self.wf(),
            i < spec_openings(D::spec_dim()).len(),
            isize::MIN < c.x < isize::MAX,
            isize::MIN < c.y < isize::MAX,
            isize::MIN < c.z < isize::MAX,
        ensures
            b == opening_open(self@, *c, spec_openings(D::spec_dim())[i as int]),
    {
        proof {
            D::lemma_dim();
            lemma_opening_offsets(D::spec_dim());
            self.lemma_openings();
        }
        let ghost ops = spec_openings(D::spec_dim());
        let o = &self.openings[i];
        let mut open = true;
        let mut r: usize = 0;
        while r < o.needs.len()
            invariant
                self.wf(),
                isize::MIN < c.x < isize::MAX,
                isize::MIN < c.y < isize::MAX,
                isize::MIN < c.z < isize::MAX,
                o.model() == ops[i as int],
                0 <= i < ops.len(),
                forall|k: int|
                    0 <= k < ops[i as int].needs.len() ==> {
                        let e = #[trigger] ops[i as int].needs[k];
                        -1 <= e.x <= 1 && -1 <= e.y <= 1 && -1 <= e.z <= 1
                    },
                r <= o.needs.len(),
                open == forall|k: int|
                    0 <= k < r ==> !self@.walls.contains(#[trigger] add_cell(*c, o.needs@[k])),
            decreases o.needs.len() - r,
        {
            let e = o.needs[r];
            proof {
                assert(o.needs@[r as int] == ops[i as int].needs[r as int]);
            }
            let t = c.add(&e);
            if self.contains(&t) {
                open = false;
            }
            proof {
                assert(t == add_cell(*c, o.needs@[r as int]));
            }
            r = r + 1;
        }
        open
    }

    /// `c` is a free cell the filter keeps.
    pub fn is_member(&self, c: &Cell, f: ZoneFilter) -> (b: bool)
        requires
            self.wf(),
        ensures
            b == member(self@, D::spec_dim(), f, *c),
    {
        if !self.in_maze(c) {
            return false;
        }
        if self.contains(c) {
            return false;
        }
        let n = self.opened(c);
        match f {
            ZoneFilter::All => true,
            ZoneFilter::Rooms => n > 2,
            ZoneFilter::Corridors => n <= 2,
        }
    }

    /// Labels the kept cells that share a face with `c` and have no label
    /// yet with `zid`, and appends them to `zone`.
    fn visit_neighbours(
        &self,
        c: Cell,
        f: ZoneFilter,
        zid: usize,
        zone: &mut Vec<Cell>,
        label: &mut Vec<usize>,
    )
        requires
            self.wf(),
            zid >= 1,
            member(self@, D::spec_dim(), f, c),
            old(zone)@.contains(c),
            old(label)@.len() == cell_count(self@.size, D::spec_dim()),
            zone_state(self@, D::spec_dim(), f, old(zone)@, old(label)@, zid),
        ensures
            label_grows(old(label)@, final(label)@, zid),
            final(zone)@.len() >= old(zone)@.len(),
            final(zone)@.take(old(zone)@.len() as int) == old(zone)@,
            zone_state(self@, D::spec_dim(), f, final(zone)@, final(label)@, zid),
            processed(self@, D::spec_dim(), f, final(label)@, c),
    {
        proof {
            D::lemma_dim();
            lemma_neighbour_offsets(D::spec_dim());
            self.lemma_size_bounds(c);
        }
        let dim = D::dim();
        let ghost m = self@;
        let ghost size = self@.size;
        let ghost label0 = label@;
        let ghost zone0 = zone@;
        let count = self.grid_len();
        let mut k: usize = 0;
        while k < self.neighbours.len()
            invariant
                self.wf(),
                m == self@,
                size == m.size,
                valid_dim(dim as nat),
                dim as nat == D::spec_dim(),
                count == cell_count(size, dim as nat),
                label@.len() == count,
                zid >= 1,
                member(m, dim as nat, f, c),
                isize::MIN < c.x < isize::MAX,
                isize::MIN < c.y < isize::MAX,
                isize::MIN < c.z < isize::MAX,
                k <= self.neighbours@.len(),
                self.neighbours@ == spec_neighbours(dim as nat),
                label_grows(label0, label@, zid),
                zone@.len() >= zone0.len(),
                zone@.take(zone0.len() as int) == zone0,
                zone@.contains(c),
                zone_state(m, dim as nat, f, zone@, label@, zid),
                forall|q: int|
                    0 <= q < k ==> {
                        let d = add_cell(c, #[trigger] spec_neighbours(dim as nat)[q]);
                        member(m, dim as nat, f, d) ==> label@[cell_index(size, dim as nat, d)] != 0
                    },
            decreases self.neighbours@.len() - k,
        {
            let ghost lab_it = label@;
            let n = c.add(&self.neighbours[k]);
            proof {
                assert(n == add_cell(c, spec_neighbours(dim as nat)[k as int]));
                assert(adjacent(c, n, dim as nat));
            }
            if self.is_member(&n, f) {
                let ni = index_of_cell(&self.size, dim, count, &n);
                if label[ni] == 0 {
                    let ghost old_label = label@;
                    let ghost old_zone = zone@;
                    label.set(ni, zid);
                    zone.push(n);
                    proof {
                        lemma_cell_index(size, dim as nat, n);
                        lemma_push_label(m, dim as nat, f, old_zone, old_label, zid, n, c);
                        assert(zone@.take(zone0.len() as int) =~= zone0) by {
                            assert(old_zone.take(zone0.len() as int) == zone0);
                        }
                        assert(zone@.contains(c)) by {
                            let q = choose|q: int| 0 <= q < old_zone.len() && old_zone[q] == c;
                            assert(zone@[q] == c);
                        }
                    }
                }
            }
            proof {
                assert(forall|j: int| 0 <= j < count && lab_it[j] != 0 ==> label@[j] != 0);
                assert forall|q: int|
                    0 <= q < k + 1 implies {
                        let d = add_cell(c, #[trigger] spec_neighbours(dim as nat)[q]);
                        member(m, dim as nat, f, d) ==> label@[cell_index(size, dim as nat, d)] != 0
                    } by {
                    let d = add_cell(c, spec_neighbours(dim as nat)[q]);
                    if member(m, dim as nat, f, d) {
                        lemma_cell_index(size, dim as nat, d);
                    }
                    if q == k {
                        assert(d == n);
                    }
                }
            }
            k = k + 1;
        }
        proof {
            assert forall|d: Cell|
                #[trigger] member(m, dim as nat, f, d) && adjacent(c, d, dim as nat) implies label@[cell_index(
                size,
                dim as nat,
                d,
            )] != 0 by {
                let q = lemma_adjacent_offset(c, d, dim as nat);
            }
        }
    }

    /// Explores the zone of the kept cell `sc` (numbered `s`), labelling its
    /// cells with `zid`.
    fn explore_zone(
        &self,
        sc: Cell,
        s: usize,
        f: ZoneFilter,
        zid: usize,
        label: &mut Vec<usize>,
    ) -> (zone: Vec<Cell>)
        requires
            self.wf(),
            zid >= 1,
            member(self@, D::spec_dim(), f, sc),
            s == cell_index(self@.size, D::spec_dim(), sc),
            old(label)@.len() == cell_count(self@.size, D::spec_dim()),
            old(label)@[s as int] == 0,
            forall|j: int| 0 <= j < old(label)@.len() ==> old(label)@[j] < zid,
            labels_members(self@, D::spec_dim(), f, old(label)@),
        ensures
            label_grows(old(label)@, final(label)@, zid),
            zone@.len() > 0,
            zone@[0] == sc,
            zone_state(self@, D::spec_dim(), f, zone@, final(label)@, zid),
            forall|k: int|
                0 <= k < zone@.len() ==> processed(self@, D::spec_dim(), f, final(label)@, #[trigger] zone@[k]),
    {
        proof {
            D::lemma_dim();
            lemma_cell_index(self@.size, D::spec_dim(), sc);
        }
        let dim = D::dim();
        let ghost m = self@;
        let ghost size = self@.size;
        let ghost label0 = label@;
        let count = self.grid_len();
        let mut zone: Vec<Cell> = Vec::new();
        zone.push(sc);
        label.set(s, zid);
        proof {
            assert forall|c: Cell|
                #[trigger] zone@.contains(c) <==> (in_area(size, dim as nat, c) && label@[cell_index(
                    size,
                    dim as nat,
                    c,
                )] == zid) by {
                if in_area(size, dim as nat, c) {
                    lemma_cell_index(size, dim as nat, c);
                }
                if zone@.contains(c) {
                    assert(zone@[0] == c);
                }
                if c == sc {
                    assert(zone@[0] == c);
                }
            }
            assert forall|j: int| 0 <= j < label@.len() && label@[j] != 0 implies member(
                m,
                dim as nat,
                f,
                #[trigger] index_cell(size, dim as nat, j),
            ) by {
                if j != s {
                    assert(label0[j] != 0);
                }
            }
            assert(label_grows(label0, label@, zid));
        }
        let mut h: usize = 0;
        while h < zone.len()
            invariant
                self.wf(),
                m == self@,
                size == m.size,
                valid_dim(dim as nat),
                dim as nat == D::spec_dim(),
                count == cell_count(size, dim as nat),
                label@.len() == count,
                zid >= 1,
                h <= zone@.len(),
                zone@.len() > 0,
                zone@[0] == sc,
                label_grows(label0, label@, zid),
                zone_state(m, dim as nat, f, zone@, label@, zid),
                forall|q: int| 0 <= q < h ==> processed(m, dim as nat, f, label@, #[trigger] zone@[q]),
            decreases count - h,
        {
            proof {
                lemma_cells_bounded(size, dim as nat, zone@);
            }
            let c = zone[h];
            let ghost label1 = label@;
            let ghost zone1 = zone@;
            self.visit_neighbours(c, f, zid, &mut zone, label);
            proof {
                lemma_explore_step(m, dim as nat, f, zone1, zone@, label0, label1, label@, zid, h as int);
            }
            h = h + 1;
        }
        zone
    }

    /// The zones of the kept cells, then an empty group for each free cell
    /// the filter turns down, in the order of the area. Each zone is
    /// listed in the order it was explored, so that each cell touches an
    /// earlier one of its zone.
    pub fn compute_zones(&self, f: ZoneFilter) -> (zs: Vec<Vec<Cell>>)
        requires
            self.wf(),
        ensures
            zs@.len() >= rejected_count(self@, D::spec_dim(), f),
            is_zones(
                self@,
                D::spec_dim(),
                f,
                zones_view(zs@).take(zs@.len() - rejected_count(self@, D::spec_dim(), f)),
            ),
            forall|i: int|
                zs@.len() - rejected_count(self@, D::spec_dim(), f) <= i < zs@.len() ==> (#[trigger] zs@[i])@.len()
                    == 0,
    {
        proof {
            D::lemma_dim();
        }
        let dim = D::dim();
        let ghost m = self@;
        let mut zs = self.zones_of(f);
        let ghost n = zs@.len();
        let count = self.grid_len();
        let mut k: usize = 0;
        assert(zones_view(zs@).take(n as int) =~= zones_view(zs@));
        while k < count
            invariant
                self.wf(),
                m == self@,
                valid_dim(dim as nat),
                dim as nat == D::spec_dim(),
                count == cell_count(m.size, dim as nat),
                k <= count,
                zs@.len() == n + rejected_upto(m, dim as nat, f, k as nat),
                is_zones(m, dim as nat, f, zones_view(zs@).take(n as int)),
                forall|i: int| n <= i < zs@.len() ==> (#[trigger] zs@[i])@.len() == 0,
            decreases count - k,
        {
            let c = cell_of_index(&self.size, dim, count, k);
            let is_free = !self.contains(&c);
            let kept = self.is_member(&c, f);
            let ghost before = zs@;
            if is_free && !kept {
                zs.push(Vec::new());
            }
            assert(zones_view(zs@).take(n as int) =~= zones_view(before).take(n as int));
            k = k + 1;
        }
        zs
    }

    /// The zones of the kept cells, each listed in the order it was
    /// explored, so that each cell touches an earlier one of its zone.
    pub(crate) fn zones_of(&self, f: ZoneFilter) -> (zs: Vec<Vec<Cell>>)
        requires
            self.wf(),
        ensures
            is_zones(self@, D::spec_dim(), f, zones_view(zs@)),
    {
        proof {
            D::lemma_dim();
        }
        let dim = D::dim();
        let ghost m = self@;
        let ghost size = self@.size;
        let count = self.grid_len();
        let mut label: Vec<usize> = Vec::new();
        let mut t: usize = 0;
        while t < count
            invariant
                t <= count,
                label@.len() == t,
                forall|j: int| 0 <= j < t ==> label@[j] == 0,
            decreases count - t,
        {
            label.push(0);
            t = t + 1;
        }
        let mut zones: Vec<Vec<Cell>> = Vec::new();
        let mut s: usize = 0;
        while s < count
            invariant
                self.wf(),
                m == self@,
                size == m.size,
                valid_dim(dim as nat),
                dim as nat == D::spec_dim(),
                count == cell_count(size, dim as nat),
                label@.len() == count,
                s <= count,
                zones@.len() <= s,
                forall|j: int| 0 <= j < count ==> label@[j] <= zones@.len(),
                forall|i: int|
                    0 <= i < zones@.len() ==> zone_labelled(size, dim as nat, #[trigger] zones@[i]@, label@, i + 1),
                forall|i: int| 0 <= i < zones@.len() ==> is_zone(m, dim as nat, f, #[trigger] zones@[i]@),
                forall|j: int|
                    0 <= j < s && member(m, dim as nat, f, #[trigger] index_cell(size, dim as nat, j))
                        ==> label@[j] != 0,
                labels_members(m, dim as nat, f, label@),
            decreases count - s,
        {
            let sc = cell_of_index(&self.size, dim, count, s);
            proof {
                lemma_index_cell(size, dim as nat, s as int);
            }
            if label[s] == 0 && self.is_member(&sc, f) {
                let zid = zones.len() + 1;
                let ghost label0 = label@;
                let zone = self.explore_zone(sc, s, f, zid, &mut label);
                proof {
                    assert forall|i: int|
                        0 <= i < zones@.len() implies zone_labelled(
                        size,
                        dim as nat,
                        #[trigger] zones@[i]@,
                        label@,
                        i + 1,
                    ) by {
                        lemma_labelled_grows(size, dim as nat, zones@[i]@, label0, label@, zid, i + 1);
                    }
                    self.lemma_close_zone(zones@, zone@, label@, zid, f);
                    assert forall|j: int|
                        0 <= j < s + 1 && member(m, dim as nat, f, #[trigger] index_cell(size, dim as nat, j))
                            implies label@[j] != 0 by {
                        if j < s {
                            assert(label0[j] != 0);
                        } else {
                            assert(index_cell(size, dim as nat, j) == sc);
                            assert(zone@.contains(sc)) by {
                                assert(zone@[0] == sc);
                            }
                        }
                    }
                }
                zones.push(zone);
            }
            s = s + 1;
        }
        proof {
            let zv = zones_view(zones@);
            assert forall|i: int| 0 <= i < zv.len() implies is_zone(m, dim as nat, f, #[trigger] zv[i]) by {
                assert(zv[i] == zones@[i]@);
            }
            assert forall|i: int, j: int, c: Cell|
                0 <= i < zv.len() && 0 <= j < zv.len() && i != j && #[trigger] zv[i].contains(c)
                    implies !#[trigger] zv[j].contains(c) by {
                assert(zv[i] == zones@[i]@);
                assert(zv[j] == zones@[j]@);
                assert(zone_labelled(size, dim as nat, zones@[i]@, label@, i + 1));
                assert(zone_labelled(size, dim as nat, zones@[j]@, label@, j + 1));
            }
            assert forall|c: Cell| member(m, dim as nat, f, c) implies exists|i: int|
                0 <= i < zv.len() && #[trigger] zv[i].contains(c) by {
                lemma_cell_index(size, dim as nat, c);
                let j = cell_index(size, dim as nat, c);
                assert(index_cell(size, dim as nat, j) == c);
                let i = label@[j] - 1;
                assert(zv[i] == zones@[i]@);
                assert(zone_labelled(size, dim as nat, zones@[i]@, label@, i + 1));
                assert(zones@[i]@.contains(c));
            }
        }
        zones
    }

    /// Once every cell of a finished exploration has had its neighbours
    /// labelled, the explored group is closed, hence a zone.
    proof fn lemma_close_zone(
        &self,
        zones: Seq<Vec<Cell>>,
        zone: Seq<Cell>,
        label: Seq<usize>,
        zid: usize,
        f: ZoneFilter,
    )
        requires
            self.wf(),
            label.len() == cell_count(self@.size, D::spec_dim()),
            zid == zones.len() + 1,
            zone.len() > 0,
            forall|i: int|
                0 <= i < zones.len() ==> zone_labelled(self@.size, D::spec_dim(), #[trigger] zones[i]@, label, i + 1),
            forall|i: int| 0 <= i < zones.len() ==> is_zone(self@, D::spec_dim(), f, #[trigger] zones[i]@),
            zone_state(self@, D::spec_dim(), f, zone, label, zid),
            forall|k: int|
                0 <= k < zone.len() ==> processed(self@, D::spec_dim(), f, label, #[trigger] zone[k]),
        ensures
            is_zone(self@, D::spec_dim(), f, zone),
    {
        D::lemma_dim();
        let m = self@;
        let dim = D::spec_dim();
        assert forall|c: Cell, d: Cell|
            #![trigger zone.contains(c), member(m, dim, f, d)]
            zone.contains(c) && member(m, dim, f, d) && adjacent(c, d, dim) implies zone.contains(d) by {
            let k = choose|k: int| 0 <= k < zone.len() && zone[k] == c;
            assert(processed(m, dim, f, label, zone[k]));
            assert(label[cell_index(m.size, dim, d)] != 0);
            lemma_cell_index(m.size, dim, d);
            lemma_cell_index(m.size, dim, c);
            let l = label[cell_index(m.size, dim, d)];
            if l < zid {
                let i = (l - 1) as int;
                assert(zone_labelled(m.size, dim, zones[i]@, label, i + 1));
                assert(zones[i]@.contains(d));
                assert(is_zone(m, dim, f, zones[i]@));
                assert(adjacent(d, c, dim));
                assert(zones[i]@.contains(c));
            }
        }
    }
}

/// The cells of `z` are exactly the cells labelled `id`.
pub open spec fn zone_labelled(size: Cell, dim: nat, z: Seq<Cell>, label: Seq<usize>, id: int) -> bool {
    forall|c: Cell|
        #[trigger] z.contains(c) <==> (in_area(size, dim, c) && label[cell_index(size, dim, c)] == id)
}

/// Labels only change from 0 to `zid`.
pub open spec fn label_grows(old: Seq<usize>, new: Seq<usize>, zid: usize) -> bool {
    &&& old.len() == new.len()
    &&& forall|j: int|
        0 <= j < old.len() ==> #[trigger] new[j] == old[j] || (old[j] == 0 && new[j] == zid)
}

/// Every labelled cell is kept by the filter.
pub open spec fn labels_members(m: MazeModel, dim: nat, f: ZoneFilter, label: Seq<usize>) -> bool {
    forall|j: int|
        0 <= j < label.len() && label[j] != 0 ==> member(m, dim, f, #[trigger] index_cell(m.size, dim, j))
}

/// Every kept cell sharing a face with `c` has a label.
pub open spec fn processed(m: MazeModel, dim: nat, f: ZoneFilter, label: Seq<usize>, c: Cell) -> bool {
    forall|d: Cell|
        #[trigger] member(m, dim, f, d) && adjacent(c, d, dim) ==> label[cell_index(m.size, dim, d)] != 0
}

/// The state of a zone under exploration.
pub open spec fn zone_state(
    m: MazeModel,
    dim: nat,
    f: ZoneFilter,
    z: Seq<Cell>,
    label: Seq<usize>,
    zid: usize,
) -> bool {
    &&& zone_labelled(m.size, dim, z, label, zid as int)
    &&& z.no_duplicates()
    &&& forall|k: int| 0 <= k < z.len() ==> member(m, dim, f, #[trigger] z[k])
    &&& connected_order(z, dim)
    &&& forall|j: int| 0 <= j < label.len() ==> label[j] <= zid
    &&& labels_members(m, dim, f, label)
}

proof fn lemma_label_grows_trans(a: Seq<usize>, b: Seq<usize>, c: Seq<usize>, zid: usize)
    requires
        zid >= 1,
        label_grows(a, b, zid),
        label_grows(b, c, zid),
    ensures
        label_grows(a, c, zid),
{
    assert forall|j: int| 0 <= j < a.len() implies #[trigger] c[j] == a[j] || (a[j] == 0 && c[j] == zid) by {
        assert(b[j] == a[j] || (a[j] == 0 && b[j] == zid));
        assert(c[j] == b[j] || (b[j] == 0 && c[j] == zid));
    }
}

proof fn lemma_processed_grows(
    m: MazeModel,
    dim: nat,
    f: ZoneFilter,
    a: Seq<usize>,
    b: Seq<usize>,
    zid: usize,
    c: Cell,
)
    requires
        valid_dim(dim),
        label_grows(a, b, zid),
        a.len() == cell_count(m.size, dim),
        processed(m, dim, f, a, c),
    ensures
        processed(m, dim, f, b, c),
{
    assert forall|d: Cell| #[trigger] member(m, dim, f, d) && adjacent(c, d, dim) implies b[cell_index(
        m.size,
        dim,
        d,
    )] != 0 by {
        lemma_cell_index(m.size, dim, d);
        let j = cell_index(m.size, dim, d);
        assert(b[j] == a[j] || (a[j] == 0 && b[j] == zid));
    }
}

proof fn lemma_labelled_grows(
    size: Cell,
    dim: nat,
    z: Seq<Cell>,
    a: Seq<usize>,
    b: Seq<usize>,
    zid: usize,
    id: int,
)
    requires
        valid_dim(dim),
        label_grows(a, b, zid),
        a.len() == cell_count(size, dim),
        zone_labelled(size, dim, z, a, id),
        1 <= id < zid,
    ensures
        zone_labelled(size, dim, z, b, id),
{
    assert forall|c: Cell| #[trigger] z.contains(c) <==> (in_area(size, dim, c) && b[cell_index(
        size,
        dim,
        c,
    )] == id) by {
        if in_area(size, dim, c) {
            lemma_cell_index(size, dim, c);
            let j = cell_index(size, dim, c);
            assert(b[j] == a[j] || (a[j] == 0 && b[j] == zid));
        }
    }
}

proof fn lemma_explore_step(
    m: MazeModel,
    dim: nat,
    f: ZoneFilter,
    zone1: Seq<Cell>,
    zone2: Seq<Cell>,
    label0: Seq<usize>,
    label1: Seq<usize>,
    label2: Seq<usize>,
    zid: usize,
    h: int,
)
    requires
        valid_dim(dim),
        zid >= 1,
        0 <= h < zone1.len(),
        label1.len() == cell_count(m.size, dim),
        zone2.len() >= zone1.len(),
        zone2.take(zone1.len() as int) == zone1,
        label_grows(label0, label1, zid),
        label_grows(label1, label2, zid),
        forall|q: int| 0 <= q < h ==> processed(m, dim, f, label1, #[trigger] zone1[q]),
        processed(m, dim, f, label2, zone1[h]),
    ensures
        label_grows(label0, label2, zid),
        forall|q: int| 0 <= q < h + 1 ==> processed(m, dim, f, label2, #[trigger] zone2[q]),
{
    assert forall|q: int| 0 <= q < h + 1 implies processed(m, dim, f, label2, #[trigger] zone2[q]) by {
        assert(zone2[q] == zone1[q]) by {
            assert(zone2.take(zone1.len() as int)[q] == zone1[q]);
        }
        if q < h {
            lemma_processed_grows(m, dim, f, label1, label2, zid, zone1[q]);
        }
    }
    lemma_label_grows_trans(label0, label1, label2, zid);
}

/// Appending a cell next to a cell of a connected sequence keeps it
/// connected.
pub proof fn lemma_connected_push(z: Seq<Cell>, n: Cell, c: Cell, dim: nat)
    requires
        connected_order(z, dim),
        z.contains(c),
        adjacent(c, n, dim),
    ensures
        connected_order(z.push(n), dim),
{
    let nz = z.push(n);
    assert forall|q: int| 0 < q < nz.len() implies #[trigger] touches_earlier(nz, q, dim) by {
        if q < z.len() {
            assert(touches_earlier(z, q, dim));
            let j = choose|j: int| 0 <= j < q && adjacent(z[j], z[q], dim);
            assert(nz[j] == z[j]);
            assert(nz[q] == z[q]);
            assert(adjacent(nz[j], nz[q], dim));
        } else {
            let j = choose|j: int| 0 <= j < z.len() && z[j] == c;
            assert(nz[j] == c);
            assert(nz[q] == n);
            assert(adjacent(nz[j], nz[q], dim));
        }
    }
}

/// Labelling an unlabelled kept cell `n` next to a cell `c` of the zone and
/// appending it keeps the zone's state.
proof fn lemma_push_label(
    m: MazeModel,
    dim: nat,
    f: ZoneFilter,
    z: Seq<Cell>,
    label: Seq<usize>,
    zid: usize,
    n: Cell,
    c: Cell,
)
    requires
        valid_dim(dim),
        zid >= 1,
        label.len() == cell_count(m.size, dim),
        zone_state(m, dim, f, z, label, zid),
        member(m, dim, f, n),
        label[cell_index(m.size, dim, n)] == 0,
        z.contains(c),
        adjacent(c, n, dim),
    ensures
        zone_state(m, dim, f, z.push(n), label.update(cell_index(m.size, dim, n), zid), zid),
        label_grows(label, label.update(cell_index(m.size, dim, n), zid), zid),
{
    let ni = cell_index(m.size, dim, n);
    let nl = label.update(ni, zid);
    let nz = z.push(n);
    lemma_cell_index(m.size, dim, n);
    assert forall|e: Cell| #[trigger] nz.contains(e) <==> (in_area(m.size, dim, e) && nl[cell_index(
        m.size,
        dim,
        e,
    )] == zid) by {
        if in_area(m.size, dim, e) {
            lemma_cell_index(m.size, dim, e);
        }
        if z.contains(e) {
            let q = choose|q: int| 0 <= q < z.len() && z[q] == e;
            assert(nz[q] == e);
        }
        if nz.contains(e) && e != n {
            let q = choose|q: int| 0 <= q < nz.len() && nz[q] == e;
            assert(z[q] == e);
        }
        if e == n {
            assert(nz[z.len() as int] == n);
        }
    }
    assert(!z.contains(n));
    assert forall|i: int, j: int| 0 <= i < nz.len() && 0 <= j < nz.len() && i != j implies nz[i]
        != nz[j] by {
        if i < z.len() && j < z.len() {
        } else if i < z.len() {
            assert(z.contains(nz[i]));
        } else {
            assert(z.contains(nz[j]));
        }
    }
    lemma_connected_push(z, n, c, dim);
    assert forall|j: int| 0 <= j < nl.len() && nl[j] != 0 implies member(
        m,
        dim,
        f,
        #[trigger] index_cell(m.size, dim, j),
    ) by {
        if j != ni {
            assert(label[j] != 0);
        }
    }
    assert forall|k: int| 0 <= k < nz.len() implies member(m, dim, f, #[trigger] nz[k]) by {
        if k < z.len() {
            assert(nz[k] == z[k]);
        }
    }
    assert(zone_labelled(m.size, dim, nz, nl, zid as int));
    assert(nz.no_duplicates());
    assert(connected_order(nz, dim));
    assert(forall|j: int| 0 <= j < nl.len() ==> nl[j] <= zid);
    assert(labels_members(m, dim, f, nl));
}

} // verus!

//! Conway's Game of Life on an unbounded grid.
//!
//! The board is the set of living cells `(col, row)`.  One generation later a
//! cell is alive when it has exactly 3 living neighbours, or when it is
//! alive and has exactly 2 living neighbours.
use vstd::prelude::*;
use vstd::arithmetic::div_mod::{
    lemma_fundamental_div_mod,
    lemma_fundamental_div_mod_converse,
};
use vstd::std_specs::iter::IteratorSpec;
use std::collections::HashMap;
use std::collections::HashSet;

verus! {

/// A cell as a pair of mathematical integers.
pub type Cell = (int, int);

/// 1 when `(x, y)` is alive in `s`, else 0.
pub open spec fn alive(s: Set<Cell>, x: int, y: int) -> int {
    if s.contains((x, y)) {
        1
    } else {
        0
    }
}

/// The number of living neighbours of `(x, y)` among the eight cells around it.
pub open spec fn live_neighbors(s: Set<Cell>, x: int, y: int) -> int {
    alive(s, x - 1, y - 1) + alive(s, x - 1, y) + alive(s, x - 1, y + 1) + alive(s, x, y - 1)
        + alive(s, x, y + 1) + alive(s, x + 1, y - 1) + alive(s, x + 1, y) + alive(s, x + 1, y + 1)
}

/// The next generation of `s`.
pub open spec fn next_generation(s: Set<Cell>) -> Set<Cell> {
    Set::new(
        |c: Cell|
            live_neighbors(s, c.0, c.1) == 3 || (live_neighbors(s, c.0, c.1) == 2 && s.contains(c)),
    )
}

/// `c` fits in `i64` coordinates.
pub open spec fn in_range(c: Cell) -> bool {
    &&& i64::MIN <= c.0 <= i64::MAX
    &&& i64::MIN <= c.1 <= i64::MAX
}

/// `c` and all its neighbours fit in `i64` coordinates.
pub open spec fn interior(c: Cell) -> bool {
    &&& i64::MIN < c.0 < i64::MAX
    &&& i64::MIN < c.1 < i64::MAX
}

/// Every cell of `s` is interior.
pub open spec fn all_interior(s: Set<Cell>) -> bool {
    forall|c: Cell| #[trigger] s.contains(c) ==> interior(c)
}

/// `s` moved by `(dx, dy)`.
pub open spec fn translate(s: Set<Cell>, dx: int, dy: int) -> Set<Cell> {
    Set::new(|c: Cell| s.contains((c.0 - dx, c.1 - dy)))
}

// ---------------------------------------------------------------------------
// Laws of the rule
// ---------------------------------------------------------------------------

/// The rule is the same everywhere: the next generation of a moved pattern
/// is the moved next generation.
pub proof fn lemma_next_generation_translate(s: Set<Cell>, dx: int, dy: int)
    ensures
        next_generation(translate(s, dx, dy)) == translate(next_generation(s), dx, dy),
{
    let t = translate(s, dx, dy);
    assert forall|c: Cell| #[trigger] next_generation(t).contains(c) == translate(
        next_generation(s),
        dx,
        dy,
    ).contains(c) by {
        assert(live_neighbors(t, c.0, c.1) == live_neighbors(s, c.0 - dx, c.1 - dy));
    }
    assert(next_generation(t) =~= translate(next_generation(s), dx, dy));
}

/// Nothing is born from nothing.
pub proof fn lemma_next_generation_empty()
    ensures
        next_generation(Set::<Cell>::empty()) == Set::<Cell>::empty(),
{
    assert(next_generation(Set::<Cell>::empty()) =~= Set::<Cell>::empty());
}

/// Cells of a generation that lie outside the `i64` range never come alive
/// when the current cells are interior; in particular the next generation
/// fits in `i64` coordinates.
pub proof fn lemma_next_generation_in_range(s: Set<Cell>, c: Cell)
    requires
        all_interior(s),
        next_generation(s).contains(c),
    ensures
        in_range(c),
{
    if !in_range(c) {
        lemma_outside_no_neighbors(s, c);
    }
}

/// Conway's rule B3/S23: a cell is alive in the next generation exactly when
/// it has 3 living neighbours, or it is alive and has 2.  In particular a
/// dead cell with any other number of living neighbours (say 6) stays dead,
/// and a living cell with fewer than 2 or more than 3 dies.
pub proof fn lemma_life_rule(s: Set<Cell>, c: Cell)
    ensures
        next_generation(s).contains(c) <==> (live_neighbors(s, c.0, c.1) == 3 || (live_neighbors(
            s,
            c.0,
            c.1,
        ) == 2 && s.contains(c))),
        !s.contains(c) && live_neighbors(s, c.0, c.1) != 3 ==> !next_generation(s).contains(c),
        s.contains(c) && (live_neighbors(s, c.0, c.1) < 2 || live_neighbors(s, c.0, c.1) > 3)
            ==> !next_generation(s).contains(c),
{
}

/// An empty board gives every cell 0 living neighbours.
pub proof fn lemma_live_neighbors_empty(x: int, y: int)
    ensures
        live_neighbors(Set::<Cell>::empty(), x, y) == 0,
{
}

/// The neighbour count counts exactly the eight surrounding cells: adding a
/// living cell `p` raises the count of `(x, y)` by one when `p` is one of
/// its eight neighbours, and leaves it unchanged otherwise (`(x, y)`
/// itself included).  With the empty board this fixes the count on every
/// finite board; it always lies between 0 and 8.
pub proof fn lemma_live_neighbors_insert(s: Set<Cell>, p: Cell, x: int, y: int)
    requires
        !s.contains(p),
    ensures
        live_neighbors(s.insert(p), x, y) == live_neighbors(s, x, y) + if is_neighbor(p, (x, y)) {
            1int
        } else {
            0int
        },
        0 <= live_neighbors(s, x, y) <= 8,
{
}

// ---------------------------------------------------------------------------
// Keys: a cell of i64 coordinates as one u128
// ---------------------------------------------------------------------------

/// The key of cell `(x, y)`: `(x + 2^63) * 2^64 + (y + 2^63)`.
pub open spec fn cell_key(x: int, y: int) -> int {
    (x + 0x8000_0000_0000_0000) * 0x1_0000_0000_0000_0000 + (y + 0x8000_0000_0000_0000)
}

/// The cell of a key.
pub open spec fn key_cell(k: int) -> Cell {
    (k / 0x1_0000_0000_0000_0000 - 0x8000_0000_0000_0000, k % 0x1_0000_0000_0000_0000
        - 0x8000_0000_0000_0000)
}

proof fn lemma_key_cell(x: int, y: int)
    requires
        in_range((x, y)),
    ensures
        key_cell(cell_key(x, y)) == (x, y),
        0 <= cell_key(x, y) <= u128::MAX,
{
    lemma_fundamental_div_mod_converse(
        cell_key(x, y),
        0x1_0000_0000_0000_0000,
        x + 0x8000_0000_0000_0000,
        y + 0x8000_0000_0000_0000,
    );
}

proof fn lemma_cell_key(k: int)
    requires
        0 <= k <= u128::MAX,
    ensures
        in_range(key_cell(k)),
        cell_key(key_cell(k).0, key_cell(k).1) == k,
{
    lemma_fundamental_div_mod(k, 0x1_0000_0000_0000_0000);
}

fn key_of(x: i64, y: i64) -> (k: u128)
    ensures
        k == cell_key(x as int, y as int),
{
    let hx = (x as i128 + 0x8000_0000_0000_0000i128) as u128;
    let hy = (y as i128 + 0x8000_0000_0000_0000i128) as u128;
    hx * 0x1_0000_0000_0000_0000u128 + hy
}

fn cell_of(k: u128) -> (c: (i64, i64))
    ensures
        (c.0 as int, c.1 as int) == key_cell(k as int),
{
    proof {
        lemma_cell_key(k as int);
    }
    let hx = k / 0x1_0000_0000_0000_0000u128;
    let hy = k % 0x1_0000_0000_0000_0000u128;
    ((hx as i128 - 0x8000_0000_0000_0000i128) as i64, (hy as i128 - 0x8000_0000_0000_0000i128) as i64)
}

/// The cells whose keys are in `keys`.
pub open spec fn cells_of_keys(keys: Set<u128>) -> Set<Cell> {
    Set::new(|c: Cell| in_range(c) && keys.contains(cell_key(c.0, c.1) as u128))
}

// ---------------------------------------------------------------------------
// Neighbourhood facts
// ---------------------------------------------------------------------------

/// `q` is one of the eight neighbours of `p`.
pub open spec fn is_neighbor(q: Cell, p: Cell) -> bool {
    &&& q != p
    &&& -1 <= q.0 - p.0 <= 1
    &&& -1 <= q.1 - p.1 <= 1
}

/// The `j`-th neighbour offset, `dx` major, skipping `(0, 0)`.
pub open spec fn offset(j: int) -> (int, int) {
    if j == 0 {
        (-1, -1)
    } else if j == 1 {
        (-1, 0)
    } else if j == 2 {
        (-1, 1)
    } else if j == 3 {
        (0, -1)
    } else if j == 4 {
        (0, 1)
    } else if j == 5 {
        (1, -1)
    } else if j == 6 {
        (1, 0)
    } else {
        (1, 1)
    }
}

/// How many of the first `j` neighbours of `q` are `p`.
pub open spec fn hits(q: Cell, p: Cell, j: int) -> int
    decreases j,
{
    if j <= 0 {
        0
    } else {
        hits(q, p, j - 1) + if p == (q.0 + offset(j - 1).0, q.1 + offset(j - 1).1) {
            1int
        } else {
            0int
        }
    }
}

proof fn lemma_hits_bound(q: Cell, p: Cell, j: int)
    requires
        0 <= j <= 8,
    ensures
        0 <= hits(q, p, j) <= j,
    decreases j,
{
    if j > 0 {
        lemma_hits_bound(q, p, j - 1);
    }
}

proof fn lemma_hits_all(q: Cell, p: Cell)
    ensures
        hits(q, p, 8) == if is_neighbor(q, p) {
            1int
        } else {
            0int
        },
{
    reveal_with_fuel(hits, 9);
}

proof fn lemma_live_insert(s: Set<Cell>, q: Cell, p: Cell)
    requires
        !s.contains(q),
    ensures
        live_neighbors(s.insert(q), p.0, p.1) == live_neighbors(s, p.0, p.1) + if is_neighbor(
            q,
            p,
        ) {
            1int
        } else {
            0int
        },
{
}

proof fn lemma_live_bound(s: Set<Cell>, p: Cell)
    ensures
        0 <= live_neighbors(s, p.0, p.1) <= 8,
{
}

/// The neighbours of a cell outside the `i64` range are not interior.
proof fn lemma_outside_no_neighbors(s: Set<Cell>, p: Cell)
    requires
        all_interior(s),
        !in_range(p),
    ensures
        live_neighbors(s, p.0, p.1) == 0,
{
    assert(!s.contains((p.0 - 1, p.1 - 1)));
    assert(!s.contains((p.0 - 1, p.1)));
    assert(!s.contains((p.0 - 1, p.1 + 1)));
    assert(!s.contains((p.0, p.1 - 1)));
    assert(!s.contains((p.0, p.1 + 1)));
    assert(!s.contains((p.0 + 1, p.1 - 1)));
    assert(!s.contains((p.0 + 1, p.1)));
    assert(!s.contains((p.0 + 1, p.1 + 1)));
}

// ---------------------------------------------------------------------------
// Counting neighbours
// ---------------------------------------------------------------------------

/// The cells whose keys are among the first `n` keys of `r`.
pub open spec fn prefix_cells(r: Seq<&u128>, n: int) -> Set<Cell> {
    Set::new(|c: Cell| in_range(c) && r.take(n).unref().contains(cell_key(c.0, c.1) as u128))
}

/// `m` maps the key of every cell with living neighbours in `p`, and only
/// those, to its number of living neighbours, plus the hits of the first `j`
/// neighbours of `q`.
pub open spec fn counts_ok(m: Map<u128, u8>, p: Set<Cell>, q: Cell, j: int) -> bool {
    forall|k: u128|
        {
            let n = live_neighbors(p, key_cell(k as int).0, key_cell(k as int).1) + hits(
                q,
                key_cell(k as int),
                j,
            );
            &&& #[trigger] m.contains_key(k) <==> n > 0
            &&& m.contains_key(k) ==> m[k] == n
        }
}

/// Whether the cell of key `k` lives in the next generation, given the
/// neighbour counts `m` and the living keys `cells`.
pub open spec fn survives(m: Map<u128, u8>, cells: Set<u128>, k: u128) -> bool {
    &&& m.contains_key(k)
    &&& (m[k] == 3 || (m[k] == 2 && cells.contains(k)))
}

fn neighbor_offset(j: usize) -> (d: (i64, i64))
    requires
        j < 8,
    ensures
        (d.0 as int, d.1 as int) == offset(j as int),
{
    if j == 0 {
        (-1, -1)
    } else if j == 1 {
        (-1, 0)
    } else if j == 2 {
        (-1, 1)
    } else if j == 3 {
        (0, -1)
    } else if j == 4 {
        (0, 1)
    } else if j == 5 {
        (1, -1)
    } else if j == 6 {
        (1, 0)
    } else {
        (1, 1)
    }
}

/// Distinct keys have distinct cells.
proof fn lemma_key_cell_injective(k1: u128, k2: u128)
    requires
        key_cell(k1 as int) == key_cell(k2 as int),
    ensures
        k1 == k2,
{
    lemma_cell_key(k1 as int);
    lemma_cell_key(k2 as int);
}

// ---------------------------------------------------------------------------
// The board
// ---------------------------------------------------------------------------

/// Living cells as (col, row) in infinite grid coordinates.
pub struct LifeBoard {
    cells: HashSet<u128>,
}

impl View for LifeBoard {
    type V = Set<Cell>;

    closed spec fn view(&self) -> Set<Cell> {
        cells_of_keys(self.cells@)
    }
}

impl LifeBoard {
    /// An empty board.
    pub fn empty() -> (b: Self)
        ensures
            b@ == Set::<Cell>::empty(),
    {
        let b = LifeBoard { cells: HashSet::new() };
        assert(b@ =~= Set::<Cell>::empty());
        b
    }

    /// A board holding a glider.
    pub fn new() -> (b: Self)
        ensures
            b@ == set![(1int, 0int), (2int, 1int), (0int, 2int), (1int, 2int), (2int, 2int)],
    {
        let mut b = LifeBoard::empty();
        b.insert(1, 0);
        b.insert(2, 1);
        b.insert(0, 2);
        b.insert(1, 2);
        b.insert(2, 2);
        assert(b@ =~= set![(1int, 0int), (2int, 1int), (0int, 2int), (1int, 2int), (2int, 2int)]);
        b
    }

    /// Make cell `(x, y)` alive.
    pub fn insert(&mut self, x: i64, y: i64)
        ensures
            final(self)@ == old(self)@.insert((x as int, y as int)),
    {
        let k = key_of(x, y);
        self.cells.insert(k);
        proof {
            self.lemma_view_insert(old(self).cells@, k, x as int, y as int);
        }
    }

    proof fn lemma_view_insert(&self, before: Set<u128>, k: u128, x: int, y: int)
        requires
            in_range((x, y)),
            k == cell_key(x, y),
            self.cells@ == before.insert(k),
        ensures
            cells_of_keys(self.cells@) == cells_of_keys(before).insert((x, y)),
    {
        lemma_key_cell(x, y);
        assert forall|c: Cell| #[trigger] cells_of_keys(self.cells@).contains(c) == cells_of_keys(
            before,
        ).insert((x, y)).contains(c) by {
            if in_range(c) && cell_key(c.0, c.1) == k {
                lemma_key_cell(c.0, c.1);
            }
        }
        assert(cells_of_keys(self.cells@) =~= cells_of_keys(before).insert((x, y)));
    }

    proof fn lemma_view_remove(&self, before: Set<u128>, k: u128, x: int, y: int)
        requires
            in_range((x, y)),
            k == cell_key(x, y),
            self.cells@ == before.remove(k),
        ensures
            cells_of_keys(self.cells@) == cells_of_keys(before).remove((x, y)),
    {
        lemma_key_cell(x, y);
        assert forall|c: Cell| #[trigger] cells_of_keys(self.cells@).contains(c) == cells_of_keys(
            before,
        ).remove((x, y)).contains(c) by {
            if in_range(c) && cell_key(c.0, c.1) == k {
                lemma_key_cell(c.0, c.1);
            }
        }
        assert(cells_of_keys(self.cells@) =~= cells_of_keys(before).remove((x, y)));
    }

    /// Whether cell `(x, y)` is alive.
    pub fn contains(&self, x: i64, y: i64) -> (b: bool)
        ensures
            b == self@.contains((x as int, y as int)),
    {
        let k = key_of(x, y);
        self.cells.contains(&k)
    }

    /// Flip cell `(x, y)`: a living cell dies, a dead one comes alive.
    pub fn toggle(&mut self, x: i64, y: i64)
        ensures
            final(self)@ == if old(self)@.contains((x as int, y as int)) {
                old(self)@.remove((x as int, y as int))
            } else {
                old(self)@.insert((x as int, y as int))
            },
    {
        let k = key_of(x, y);
        proof {
            lemma_key_cell(x as int, y as int);
        }
        if !self.cells.remove(&k) {
            proof {
                assert(self.cells@ =~= old(self).cells@);
            }
            self.cells.insert(k);
            proof {
                self.lemma_view_insert(old(self).cells@, k, x as int, y as int);
            }
        } else {
            proof {
                self.lemma_view_remove(old(self).cells@, k, x as int, y as int);
            }
        }
    }

    /// The key set of a board is finite.
    proof fn lemma_keys_finite(&self)
        ensures
            self.cells@.finite(),
    {
        let r = vstd::std_specs::hash::spec_hash_keys_iter(&self.cells).remaining().unref();
        assert(r.to_set() == self.cells@);
    }

    /// Kill every cell.
    pub fn clear(&mut self)
        ensures
            final(self)@ == Set::<Cell>::empty(),
    {
        self.cells.clear();
        assert(self@ =~= Set::<Cell>::empty());
    }

    /// The number of living cells.
    pub fn len(&self) -> (n: usize)
        ensures
            n == self@.len(),
            self@.finite(),
    {
        let n = self.cells.len();
        proof {
            self.lemma_keys_finite();
            let f = |k: u128| key_cell(k as int);
            assert forall|k1: u128, k2: u128|
                self.cells@.contains(k1) && self.cells@.contains(k2) && #[trigger] f(k1)
                    == #[trigger] f(k2) implies k1 == k2 by {
                lemma_cell_key(k1 as int);
                lemma_cell_key(k2 as int);
            }
            assert forall|c: Cell| #[trigger] self.cells@.map(f).contains(c) == self@.contains(
                c,
            ) by {
                if self@.contains(c) {
                    lemma_key_cell(c.0, c.1);
                    assert(f(cell_key(c.0, c.1) as u128) == c);
                }
                if self.cells@.map(f).contains(c) {
                    let k = choose|k: u128| self.cells@.contains(k) && f(k) == c;
                    lemma_cell_key(k as int);
                }
            }
            assert(self.cells@.map(f) =~= self@);
            vstd::set_lib::lemma_map_size(self.cells@, self@, f);
        }
        n
    }

    /// The living cells, each once, in no particular order.
    pub fn cells(&self) -> (v: Vec<(i64, i64)>)
        ensures
            forall|i: int, j: int| 0 <= i < j < v@.len() ==> v@[i] != v@[j],
            forall|c: Cell|
                #[trigger] self@.contains(c) <==> exists|i: int|
                    0 <= i < v@.len() && (v@[i].0 as int, v@[i].1 as int) == c,
    {
        let mut v: Vec<(i64, i64)> = Vec::new();
        let ghost r = vstd::std_specs::hash::spec_hash_keys_iter(&self.cells).remaining();
        proof {
            assert(r.unref().to_set() == self.cells@);
        }
        for kr in it: self.cells.iter()
            invariant
                it.seq() == r,
                r.no_duplicates(),
                r.unref().to_set() == self.cells@,
                v@.len() == it.index(),
                forall|i: int|
                    0 <= i < v@.len() ==> (#[trigger] v@[i].0 as int, v@[i].1 as int) == key_cell(
                        *r[i] as int,
                    ),
        {
            let c = cell_of(*kr);
            v.push(c);
        }
        proof {
            assert forall|i: int, j: int| 0 <= i < j < v@.len() implies v@[i] != v@[j] by {
                lemma_cell_key(*r[i] as int);
                lemma_cell_key(*r[j] as int);
                assert((v@[i].0 as int, v@[i].1 as int) == key_cell(*r[i] as int));
                assert((v@[j].0 as int, v@[j].1 as int) == key_cell(*r[j] as int));
                if v@[i] == v@[j] {
                    assert(key_cell(*r[i] as int) == key_cell(*r[j] as int));
                    assert(*r[i] == *r[j]);
                    assert(r[i] == r[j]);
                }
            }
            assert forall|c: Cell| #[trigger] self@.contains(c) implies exists|i: int|
                0 <= i < v@.len() && (v@[i].0 as int, v@[i].1 as int) == c by {
                lemma_key_cell(c.0, c.1);
                let k = cell_key(c.0, c.1) as u128;
                assert(r.unref().to_set().contains(k));
                let i = choose|i: int| 0 <= i < r.len() && r.unref()[i] == k;
                assert((v@[i].0 as int, v@[i].1 as int) == c);
            }
            assert forall|c: Cell|
                (exists|i: int| 0 <= i < v@.len() && (v@[i].0 as int, v@[i].1 as int) == c)
                    implies #[trigger] self@.contains(c) by {
                let i = choose|i: int| 0 <= i < v@.len() && (v@[i].0 as int, v@[i].1 as int) == c;
                let k = *r[i];
                lemma_cell_key(k as int);
                assert(r.unref()[i] == k);
                assert(r.unref().to_set().contains(k));
            }
        }
        v
    }

    /// Whether every living cell has all its neighbours within `i64`
    /// coordinates, so that `step` may run.
    pub fn can_step(&self) -> (b: bool)
        ensures
            b == all_interior(self@),
    {
        let ghost r = vstd::std_specs::hash::spec_hash_keys_iter(&self.cells).remaining();
        proof {
            assert(r.unref().to_set() == self.cells@);
        }
        for kr in it: self.cells.iter()
            invariant
                it.seq() == r,
                r.unref().to_set() == self.cells@,
                forall|i: int| 0 <= i < it.index() ==> interior(key_cell(*#[trigger] r[i] as int)),
        {
            let (x, y) = cell_of(*kr);
            if x == i64::MIN || x == i64::MAX || y == i64::MIN || y == i64::MAX {
                proof {
                    let k = *kr;
                    lemma_cell_key(k as int);
                    assert(r.unref()[it.index() as int] == k);
                    assert(r.unref().to_set().contains(k));
                    assert(self@.contains(key_cell(k as int)));
                }
                return false;
            }
        }
        proof {
            assert forall|c: Cell| #[trigger] self@.contains(c) implies interior(c) by {
                lemma_key_cell(c.0, c.1);
                let k = cell_key(c.0, c.1) as u128;
                assert(r.unref().to_set().contains(k));
                let i = choose|i: int| 0 <= i < r.len() && r.unref()[i] == k;
                assert(interior(key_cell(*r[i] as int)));
            }
        }
        true
    }

    /// Advance one generation: a cell lives on with 2 or 3 living neighbours,
    /// is born with exactly 3, and dies otherwise.  Every living cell must
    /// have all its neighbours within `i64` coordinates.
    pub fn step(&mut self)
        requires
            all_interior(old(self)@),
        ensures
            final(self)@ == next_generation(old(self)@),
            forall|c: Cell|
                #[trigger] final(self)@.contains(c) <==> (live_neighbors(old(self)@, c.0, c.1) == 3
                    || (live_neighbors(old(self)@, c.0, c.1) == 2 && old(self)@.contains(c))),
    {
        let ghost s = self@;
        let ghost r = vstd::std_specs::hash::spec_hash_keys_iter(&self.cells).remaining();
        proof {
            assert(r.unref().to_set() == self.cells@);
            assert(prefix_cells(r, 0) =~= Set::<Cell>::empty());
        }
        let mut counts: HashMap<u128, u8> = HashMap::new();
        for kr in it: self.cells.iter()
            invariant
                it.seq() == r,
                r.no_duplicates(),
                r.unref().to_set() == self.cells@,
                s == self@,
                all_interior(s),
                counts_ok(counts@, prefix_cells(r, it.index() as int), (0, 0), 0),
        {
            let ghost idx = it.index() as int;
            let ghost pre = prefix_cells(r, idx);
            let k0 = *kr;
            let (cx, cy) = cell_of(k0);
            let ghost q: Cell = (cx as int, cy as int);
            proof {
                lemma_cell_key(k0 as int);
                assert(r.unref()[idx] == k0);
                assert(r.unref().to_set().contains(k0));
                assert(s.contains(q));
                // q has not been counted yet
                if pre.contains(q) {
                    let i = choose|i: int| 0 <= i < idx && r.take(idx).unref()[i] == k0;
                    assert(r.take(idx).unref()[i] == *r[i]);
                    assert(r[i] == r[idx]);
                }
                assert forall|k: u128| #[trigger] counts@.contains_key(k) || !counts@.contains_key(k)
                    implies {
                    let n = live_neighbors(pre, key_cell(k as int).0, key_cell(k as int).1) + hits(
                        q,
                        key_cell(k as int),
                        0,
                    );
                    &&& counts@.contains_key(k) <==> n > 0
                    &&& counts@.contains_key(k) ==> counts@[k] == n
                } by {
                    assert(hits((0, 0), key_cell(k as int), 0) == 0);
                }
            }
            let mut j: usize = 0;
            while j < 8
                invariant
                    0 <= j <= 8,
                    interior(q),
                    q == (cx as int, cy as int),
                    counts_ok(counts@, pre, q, j as int),
                decreases 8 - j,
            {
                let (dx, dy) = neighbor_offset(j);
                let nk = key_of(cx + dx, cy + dy);
                let ghost p0: Cell = (cx + dx, cy + dy);
                let ghost before = counts@;
                proof {
                    lemma_key_cell(p0.0, p0.1);
                    lemma_live_bound(pre, p0);
                    lemma_hits_bound(q, p0, j as int);
                }
                let c: u8 = match counts.get(&nk) {
                    Some(v) => *v,
                    None => 0,
                };
                counts.insert(nk, c + 1);
                proof {
                    assert forall|k: u128| #[trigger] counts@.contains_key(k) || !counts@.contains_key(
                        k,
                    ) implies {
                        let n = live_neighbors(pre, key_cell(k as int).0, key_cell(k as int).1)
                            + hits(q, key_cell(k as int), j + 1);
                        &&& counts@.contains_key(k) <==> n > 0
                        &&& counts@.contains_key(k) ==> counts@[k] == n
                    } by {
                        if k != nk {
                            if key_cell(k as int) == p0 {
                                lemma_key_cell_injective(k, nk);
                            }
                            assert(before.contains_key(k) == counts@.contains_key(k));
                        }
                    }
                }
                j += 1;
            }
            proof {
                assert(r.take(idx + 1).unref() =~= r.take(idx).unref().push(k0));
                assert(prefix_cells(r, idx + 1) =~= pre.insert(q)) by {
                    assert forall|c: Cell| #[trigger] prefix_cells(r, idx + 1).contains(c)
                        == pre.insert(q).contains(c) by {
                        let t = r.take(idx).unref();
                        if in_range(c) {
                            lemma_key_cell(c.0, c.1);
                            let kc = cell_key(c.0, c.1) as u128;
                            if t.push(k0).contains(kc) {
                                let i = choose|i: int| 0 <= i < t.len() + 1 && t.push(k0)[i] == kc;
                                if i < t.len() {
                                    assert(t[i] == kc);
                                }
                            }
                            if t.contains(kc) {
                                let i = choose|i: int| 0 <= i < t.len() && t[i] == kc;
                                assert(t.push(k0)[i] == kc);
                            }
                            if kc == k0 {
                                assert(t.push(k0)[t.len() as int] == k0);
                            }
                        }
                        if c == q {
                            assert(t.push(k0)[t.len() as int] == k0);
                        }
                    }
                }
                assert forall|k: u128| #[trigger] counts@.contains_key(k) || !counts@.contains_key(k)
                    implies {
                    let n = live_neighbors(
                        prefix_cells(r, idx + 1),
                        key_cell(k as int).0,
                        key_cell(k as int).1,
                    ) + hits((0, 0), key_cell(k as int), 0);
                    &&& counts@.contains_key(k) <==> n > 0
                    &&& counts@.contains_key(k) ==> counts@[k] == n
                } by {
                    lemma_hits_all(q, key_cell(k as int));
                    lemma_live_insert(pre, q, key_cell(k as int));
                }
            }
        }
        proof {
            assert(prefix_cells(r, r.len() as int) =~= s) by {
                assert(r.take(r.len() as int) =~= r);
                assert forall|c: Cell| #[trigger] prefix_cells(r, r.len() as int).contains(c)
                    == s.contains(c) by {
                    if in_range(c) {
                        assert(r.take(r.len() as int).unref() == r.unref());
                    }
                }
            }
        }
        let ghost m = counts@;
        let ghost mr = vstd::std_specs::hash::spec_hash_map_iter(&counts).remaining();
        let mut next: HashSet<u128> = HashSet::new();
        for entry in it2: counts.iter()
            invariant
                it2.seq() == mr,
                m == counts@,
                forall|i: int|
                    0 <= i < mr.len() ==> m.contains_key(*(#[trigger] mr[i]).0) && m[*mr[i].0]
                        == *mr[i].1,
                forall|k: u128|
                    #[trigger] next@.contains(k) == (mr.take(it2.index() as int).unref().map_values(
                        |e: (u128, u8)| e.0,
                    ).contains(k) && survives(m, self.cells@, k)),
        {
            let (kr, nr) = entry;
            let ghost idx = it2.index() as int;
            let k0 = *kr;
            let n0 = *nr;
            proof {
                assert(mr[idx] == entry);
            }
            if n0 == 3 || (n0 == 2 && self.cells.contains(&k0)) {
                next.insert(k0);
            }
            proof {
                let ks = mr.take(idx).unref().map_values(|e: (u128, u8)| e.0);
                let ks2 = mr.take(idx + 1).unref().map_values(|e: (u128, u8)| e.0);
                assert(ks2 =~= ks.push(k0));
                assert(m.contains_key(k0) && m[k0] == n0);
                assert forall|k: u128| #[trigger] next@.contains(k) == (ks2.contains(k) && survives(
                    m,
                    self.cells@,
                    k,
                )) by {
                    if ks2.contains(k) {
                        let i = choose|i: int| 0 <= i < ks2.len() && ks2[i] == k;
                        if i < ks.len() {
                            assert(ks[i] == k);
                        }
                    }
                    if ks.contains(k) {
                        let i = choose|i: int| 0 <= i < ks.len() && ks[i] == k;
                        assert(ks2[i] == k);
                    }
                    assert(ks2[ks.len() as int] == k0);
                }
            }
        }
        proof {
            assert(mr.take(mr.len() as int) =~= mr);
            assert forall|k: u128| #[trigger] next@.contains(k) == survives(m, self.cells@, k) by {
                let ks = mr.take(mr.len() as int).unref().map_values(|e: (u128, u8)| e.0);
                if m.contains_key(k) {
                    assert(mr.contains((&k, &m[k])));
                    let i = choose|i: int| 0 <= i < mr.len() && mr[i] == (&k, &m[k]);
                    assert(ks[i] == k);
                }
            }
        }
        let ghost old_keys = self.cells@;
        self.cells = next;
        proof {
            assert forall|c: Cell| #[trigger] self@.contains(c) == next_generation(s).contains(c) by {
                if in_range(c) {
                    lemma_key_cell(c.0, c.1);
                    let k = cell_key(c.0, c.1) as u128;
                    assert(survives(m, old_keys, k) == next_generation(s).contains(c));
                } else {
                    lemma_outside_no_neighbors(s, c);
                }
            }
            assert(self@ =~= next_generation(s));
            assert forall|c: Cell| #[trigger] self@.contains(c) <==> (live_neighbors(s, c.0, c.1)
                == 3 || (live_neighbors(s, c.0, c.1) == 2 && s.contains(c))) by {
                lemma_life_rule(s, c);
            }
        }
    }
}

} // verus!

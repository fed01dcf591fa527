//! The sparse world: coordinates, their neighbourhood, the birth and
//! survival rule, the double-buffered generation sets and the window query.

use rayon::iter::{IntoParallelRefIterator, ParallelExtend, ParallelIterator};
use vstd::prelude::*;

use crate::sorted::{contains_sorted, position, sort_dedup};
use vstd::seq_lib::lemma_seq_contains_after_push;

verus! {

/// A cell of the unbounded plane, ordered by `x` first and `y` second.
#[derive(Debug, Clone, Copy, PartialEq, Eq, Structural, PartialOrd, Ord, Hash)]
pub struct Coord(pub i64, pub i64);

/// A plain list of coordinates.
pub type Coords = Vec<Coord>;

/// The order that the generation sets are kept in: lexicographic on `(x, y)`.
pub open spec fn coord_lt(a: Coord, b: Coord) -> bool {
    a.0 < b.0 || (a.0 == b.0 && a.1 < b.1)
}

/// Strictly ascending, hence without duplicates.
pub open spec fn sorted_strictly(s: Seq<Coord>) -> bool {
    forall|i: int, j: int| 0 <= i < j < s.len() ==> coord_lt(#[trigger] s[i], #[trigger] s[j])
}

/// `a` and `b` are distinct cells that touch by a side or a corner.
pub open spec fn adjacent(a: Coord, b: Coord) -> bool {
    &&& a != b
    &&& -1 <= a.0 - b.0 <= 1
    &&& -1 <= a.1 - b.1 <= 1
}

/// Both components of `c` keep a distance of at least `m` from the ends of `i64`.
pub open spec fn inner(c: Coord, m: int) -> bool {
    &&& i64::MIN + m <= c.0 <= i64::MAX - m
    &&& i64::MIN + m <= c.1 <= i64::MAX - m
}

/// The eight cells around `c`, clockwise from the upper left.
pub open spec fn neighbourhood(c: Coord) -> Seq<Coord> {
    seq![
        Coord((c.0 - 1) as i64, (c.1 - 1) as i64),
        Coord(c.0, (c.1 - 1) as i64),
        Coord((c.0 + 1) as i64, (c.1 - 1) as i64),
        Coord((c.0 + 1) as i64, c.1),
        Coord((c.0 + 1) as i64, (c.1 + 1) as i64),
        Coord(c.0, (c.1 + 1) as i64),
        Coord((c.0 - 1) as i64, (c.1 + 1) as i64),
        Coord((c.0 - 1) as i64, c.1),
    ]
}

/// How many cells of `s` touch `c`.
pub open spec fn live_count(s: Set<Coord>, c: Coord) -> nat {
    s.filter(|d: Coord| adjacent(c, d)).len()
}

/// The birth and survival rule: a live cell survives with two or three live
/// neighbours, a dead cell comes alive with exactly three.
pub open spec fn next_state(alive: bool, n: nat) -> bool {
    if alive {
        n == 2 || n == 3
    } else {
        n == 3
    }
}

/// The dead cells that touch a live one.
pub open spec fn boundary(s: Set<Coord>) -> Set<Coord> {
    Set::new(|c: Coord| !s.contains(c) && exists|d: Coord| s.contains(d) && adjacent(c, d))
}

/// The live cells one generation after `s`.
pub open spec fn next_generation(s: Set<Coord>) -> Set<Coord> {
    Set::new(|c: Coord| next_state(s.contains(c), live_count(s, c)))
}

/// The neighbourhood of a cell away from the ends of `i64` holds exactly the
/// eight distinct cells that touch it.
pub proof fn lemma_neighbourhood(c: Coord)
    requires
        inner(c, 1),
    ensures
        neighbourhood(c).len() == 8,
        neighbourhood(c).no_duplicates(),
        forall|i: int| 0 <= i < 8 ==> adjacent(c, #[trigger] neighbourhood(c)[i]),
        forall|d: Coord| adjacent(c, d) <==> neighbourhood(c).contains(d),
{
    let n = neighbourhood(c);
    assert forall|d: Coord| adjacent(c, d) implies n.contains(d) by {
        let k: int = if d.0 == c.0 - 1 {
            if d.1 == c.1 - 1 { 0 } else if d.1 == c.1 { 7 } else { 6 }
        } else if d.0 == c.0 {
            if d.1 == c.1 - 1 { 1 } else { 5 }
        } else {
            if d.1 == c.1 - 1 { 2 } else if d.1 == c.1 { 3 } else { 4 }
        };
        assert(n[k] == d);
    }
}

/// The state of a cell.
#[derive(Debug, Clone, Copy, PartialEq, Eq, Structural)]
pub enum CellState {
    Dead,
    Alive,
}

/// The state of a cell in the next generation, from its state now and its
/// number of live neighbours.
pub fn mutate(state: CellState, neighboors: usize) -> (r: CellState)
    ensures
        r == CellState::Alive <==> next_state(state == CellState::Alive, neighboors as nat),
{
    match state {
        CellState::Dead => if neighboors == 3 {
            CellState::Alive
        } else {
            CellState::Dead
        },
        CellState::Alive => if neighboors == 2 || neighboors == 3 {
            CellState::Alive
        } else {
            CellState::Dead
        },
    }
}

/// The eight cells around `c`, clockwise from the upper left.
pub fn neighboors(c: Coord) -> (r: [Coord; 8])
    requires
        inner(c, 1),
    ensures
        r@ == neighbourhood(c),
{
    let r = [
        Coord(c.0 - 1, c.1 - 1),
        Coord(c.0, c.1 - 1),
        Coord(c.0 + 1, c.1 - 1),
        Coord(c.0 + 1, c.1),
        Coord(c.0 + 1, c.1 + 1),
        Coord(c.0, c.1 + 1),
        Coord(c.0 - 1, c.1 + 1),
        Coord(c.0 - 1, c.1),
    ];
    assert(r@ =~= neighbourhood(c));
    r
}


/// A sequence without repeats keeps none when filtered.
proof fn lemma_filter_no_duplicates(s: Seq<Coord>, p: spec_fn(Coord) -> bool)
    requires
        s.no_duplicates(),
    ensures
        s.filter(p).no_duplicates(),
    decreases s.len(),
{
    reveal(Seq::filter);
    if s.len() > 0 {
        let rest = s.drop_last();
        assert(rest.no_duplicates());
        lemma_filter_no_duplicates(rest, p);
        if p(s.last()) {
            if rest.filter(p).contains(s.last()) {
                rest.lemma_filter_contains_rev(p, s.last());
                let k = choose|k: int| 0 <= k < rest.len() && rest[k] == s.last();
                assert(s[k] == s[s.len() - 1]);
            }
        }
    }
}

/// Counting the neighbourhood's members of `s` counts the cells of `s` that
/// touch `c`.
proof fn lemma_live_count(s: Set<Coord>, c: Coord)
    requires
        inner(c, 1),
    ensures
        neighbourhood(c).filter(|d: Coord| s.contains(d)).len() == live_count(s, c),
{
    broadcast use vstd::seq_lib::group_filter_ensures;

    let nb = neighbourhood(c);
    let p = |d: Coord| s.contains(d);
    let f = nb.filter(p);
    lemma_neighbourhood(c);
    lemma_filter_no_duplicates(nb, p);
    f.unique_seq_to_set();
    assert forall|d: Coord| f.to_set().contains(d) <==> s.filter(|d: Coord| adjacent(c, d)).contains(
        d,
    ) by {
        if f.contains(d) {
            nb.lemma_filter_contains_rev(p, d);
            let k = choose|k: int| 0 <= k < f.len() && f[k] == d;
            assert(p(f[k]));
        }
        if s.contains(d) && adjacent(c, d) {
            let k = choose|k: int| 0 <= k < nb.len() && nb[k] == d;
            assert(f.contains(nb[k]));
        }
    }
    assert(f.to_set() =~= s.filter(|d: Coord| adjacent(c, d)));
}

/// Two strictly ascending sequences that hold the same cells are equal.
pub proof fn lemma_sorted_unique(a: Seq<Coord>, b: Seq<Coord>)
    requires
        sorted_strictly(a),
        sorted_strictly(b),
        a.to_set() == b.to_set(),
    ensures
        a == b,
    decreases a.len(),
{
    if a.len() == 0 {
        if b.len() > 0 {
            assert(b.to_set().contains(b[0]));
        }
        assert(a =~= b);
    } else {
        if b.len() == 0 {
            assert(a.to_set().contains(a[0]));
        }
        assert(b.to_set().contains(a[0]));
        let j = choose|j: int| 0 <= j < b.len() && b[j] == a[0];
        assert(a.to_set().contains(b[0]));
        let i = choose|i: int| 0 <= i < a.len() && a[i] == b[0];
        if j > 0 {
            assert(coord_lt(b[0], b[j]));
            if i > 0 {
                assert(coord_lt(a[0], a[i]));
            }
        }
        assert(a[0] == b[0]);
        let a1 = a.drop_first();
        let b1 = b.drop_first();
        assert forall|x: Coord| a1.contains(x) <==> b1.contains(x) by {
            if a1.contains(x) {
                let k = choose|k: int| 0 <= k < a1.len() && a1[k] == x;
                assert(coord_lt(a[0], a[k + 1]));
                assert(a.to_set().contains(x));
                let m = choose|m: int| 0 <= m < b.len() && b[m] == x;
                assert(m != 0);
                assert(b1[m - 1] == x);
            }
            if b1.contains(x) {
                let k = choose|k: int| 0 <= k < b1.len() && b1[k] == x;
                assert(coord_lt(b[0], b[k + 1]));
                assert(b.to_set().contains(x));
                let m = choose|m: int| 0 <= m < a.len() && a[m] == x;
                assert(m != 0);
                assert(a1[m - 1] == x);
            }
        }
        assert(a1.to_set() =~= b1.to_set());
        lemma_sorted_unique(a1, b1);
        assert forall|k: int| 0 <= k < a.len() implies a[k] == b[k] by {
            if k > 0 {
                assert(a[k] == a1[k - 1]);
                assert(b[k] == b1[k - 1]);
            }
        }
        assert(a =~= b);
    }
}

/// The live cells `n` generations after `s`.
pub open spec fn generations(s: Set<Coord>, n: nat) -> Set<Coord>
    decreases n,
{
    if n == 0 {
        s
    } else {
        next_generation(generations(s, (n - 1) as nat))
    }
}

/// An empty world stays empty at every later generation: no cell has a live
/// neighbour, so none is born.
pub proof fn lemma_empty_stays_empty(n: nat)
    ensures
        generations(Set::<Coord>::empty(), n) == Set::<Coord>::empty(),
    decreases n,
{
    let e = Set::<Coord>::empty();
    if n > 0 {
        lemma_empty_stays_empty((n - 1) as nat);
        assert forall|c: Coord| !next_generation(e).contains(c) by {
            assert(e.filter(|d: Coord| adjacent(c, d)) =~= e);
        }
        assert(next_generation(e) =~= e);
    }
}

/// A cell alone in the world dies, and none is born beside it.
pub proof fn lemma_lone_cell_dies(c: Coord)
    ensures
        next_generation(set![c]) == Set::<Coord>::empty(),
{
    let s = set![c];
    assert forall|x: Coord| !next_generation(s).contains(x) by {
        let f = s.filter(|d: Coord| adjacent(x, d));
        if adjacent(x, c) {
            assert(f =~= s);
        } else {
            assert(f =~= Set::<Coord>::empty());
        }
    }
    assert(next_generation(s) =~= Set::<Coord>::empty());
}

/// Seeding an empty world with a list of cells leaves as many live cells as
/// the list holds distinct ones: exactly its length when it has no repeats.
pub proof fn lemma_seeded_population(seeds: Seq<Coord>)
    ensures
        Set::<Coord>::empty().union(seeds.to_set()).len() <= seeds.len(),
        seeds.no_duplicates() ==> Set::<Coord>::empty().union(seeds.to_set()).len() == seeds.len(),
{
    assert(Set::<Coord>::empty().union(seeds.to_set()) =~= seeds.to_set());
    seeds.lemma_cardinality_of_set();
    if seeds.no_duplicates() {
        seeds.unique_seq_to_set();
    }
}

/// One generation: the cells alive in it, and the dead cells around them.
pub struct InterestingCells {
    pub alive: Coords,
    pub dead: Coords,
}

impl InterestingCells {
    /// The live cells.
    pub open spec fn alive_set(&self) -> Set<Coord> {
        self.alive@.to_set()
    }

    /// Normalized: both lists strictly ascending, and `dead` holding exactly
    /// the boundary of the live cells.
    pub open spec fn wf(&self) -> bool {
        &&& sorted_strictly(self.alive@)
        &&& sorted_strictly(self.dead@)
        &&& self.dead@.to_set() == boundary(self.alive_set())
    }

    /// Every live cell keeps a distance of `m` from the ends of `i64`.
    pub open spec fn within(&self, m: int) -> bool {
        forall|c: Coord| self.alive_set().contains(c) ==> inner(c, m)
    }

    /// An empty generation.
    pub fn new() -> (r: InterestingCells)
        ensures
            r.alive@ == Seq::<Coord>::empty(),
            r.dead@ == Seq::<Coord>::empty(),
            r.wf(),
    {
        let r = InterestingCells { alive: Vec::with_capacity(1000), dead: Vec::with_capacity(8000) };
        assert(boundary(r.alive_set()) =~= Set::empty());
        assert(r.dead@.to_set() =~= Set::empty());
        r
    }

    /// Adds `c` to the live cells; normalizing is left to `finish`.
    pub fn make_alive(&mut self, c: Coord) -> (r: &mut InterestingCells)
        ensures
            r.alive@ == old(self).alive@.push(c),
            r.dead == old(self).dead,
            *final(self) == *final(r),
    {
        self.alive.push(c);
        self
    }

    /// The number of live cells.
    pub fn len(&self) -> (r: usize)
        ensures
            r == self.alive@.len(),
    {
        self.alive.len()
    }

    /// The neighbours of `c` that are alive, in the order of `neighboors`.
    pub fn live_neighboors(&self, c: Coord) -> (r: Vec<Coord>)
        requires
            sorted_strictly(self.alive@),
            inner(c, 1),
        ensures
            r@ == neighbourhood(c).filter(|d: Coord| self.alive_set().contains(d)),
            r@.len() == live_count(self.alive_set(), c),
    {
        let n = neighboors(c);
        let ghost alive = self.alive_set();
        let ghost p = |d: Coord| alive.contains(d);
        let mut r: Vec<Coord> = Vec::new();
        let mut k: usize = 0;
        while k < 8
            invariant
                k <= 8,
                n@ == neighbourhood(c),
                sorted_strictly(self.alive@),
                alive == self.alive_set(),
                p == (|d: Coord| alive.contains(d)),
                r@ == n@.subrange(0, k as int).filter(p),
            decreases 8 - k,
        {
            proof {
                assert(n@.subrange(0, k + 1) =~= n@.subrange(0, k as int).push(n@[k as int]));
                n@.subrange(0, k as int).lemma_filter_push(n@[k as int], p);
            }
            if contains_sorted(&self.alive, n[k]) {
                r.push(n[k]);
            }
            k += 1;
        }
        proof {
            assert(n@.subrange(0, 8) =~= n@);
            lemma_live_count(self.alive_set(), c);
        }
        r
    }

    /// Rebuilds `dead` as the boundary of the live cells.
    fn make_dead_from_alive(&mut self)
        requires
            sorted_strictly(old(self).alive@),
            old(self).within(1),
        ensures
            final(self).alive == old(self).alive,
            final(self).wf(),
    {
        let ghost s = self.alive_set();
        let mut dead: Vec<Coord> = Vec::new();
        let mut i: usize = 0;
        while i < self.alive.len()
            invariant
                i <= self.alive@.len(),
                self.alive == old(self).alive,
                s == self.alive_set(),
                sorted_strictly(self.alive@),
                self.within(1),
                forall|d: Coord| dead@.contains(d) ==> #[trigger] boundary(s).contains(d),
                forall|j: int, d: Coord|
                    0 <= j < i && #[trigger] adjacent(self.alive@[j], d) && !s.contains(d)
                        ==> dead@.contains(d),
            decreases self.alive@.len() - i,
        {
            let c = self.alive[i];
            assert(self.alive@.contains(c));
            assert(s.contains(c));
            let n = neighboors(c);
            proof {
                lemma_neighbourhood(c);
            }
            let mut k: usize = 0;
            while k < 8
                invariant
                    k <= 8,
                    n@ == neighbourhood(c),
                    s.contains(c),
                    inner(c, 1),
                    i < self.alive@.len(),
                    self.alive == old(self).alive,
                    s == self.alive_set(),
                    sorted_strictly(self.alive@),
                    forall|j: int| 0 <= j < 8 ==> adjacent(c, #[trigger] n@[j]),
                    forall|d: Coord| dead@.contains(d) ==> #[trigger] boundary(s).contains(d),
                    forall|j: int, d: Coord|
                        0 <= j < i && #[trigger] adjacent(self.alive@[j], d) && !s.contains(d)
                            ==> dead@.contains(d),
                    forall|j: int|
                        0 <= j < k && !s.contains(n@[j]) ==> #[trigger] dead@.contains(n@[j]),
                decreases 8 - k,
            {
                let d = n[k];
                let ghost before = dead@;
                if !contains_sorted(&self.alive, d) {
                    proof {
                        assert(adjacent(d, c));
                        assert(boundary(s).contains(d));
                    }
                    dead.push(d);
                    proof {
                        assert forall|x: Coord| before.contains(x) implies dead@.contains(x) by {
                            lemma_seq_contains_after_push(before, d, x);
                        }
                        assert(dead@.contains(d)) by {
                            lemma_seq_contains_after_push(before, d, d);
                        }
                        assert(d == n@[k as int]);
                        assert(!s.contains(d));
                    }
                } else {
                    assert(self.alive@.contains(d));
                    assert(s.contains(n@[k as int]));
                }
                assert forall|j: int|
                    0 <= j < k + 1 && !s.contains(n@[j]) implies #[trigger] dead@.contains(n@[j]) by {
                    if j < k {
                        assert(before.contains(n@[j]));
                        lemma_seq_contains_after_push(before, d, n@[j]);
                    }
                }
                k += 1;
            }
            proof {
                assert forall|j: int, d: Coord|
                    0 <= j < i + 1 && #[trigger] adjacent(self.alive@[j], d) && !s.contains(d)
                        implies dead@.contains(d) by {
                    if j == i {
                        assert(neighbourhood(c).contains(d));
                    }
                }
            }
            i += 1;
        }
        sort_dedup(&mut dead);
        proof {
            assert forall|d: Coord| boundary(s).contains(d) implies dead@.to_set().contains(d) by {
                let e = choose|e: Coord| s.contains(e) && adjacent(d, e);
                let j = choose|j: int| 0 <= j < self.alive@.len() && self.alive@[j] == e;
                assert(adjacent(self.alive@[j], d));
            }
            assert(dead@.to_set() =~= boundary(s));
        }
        self.dead = dead;
    }

    /// Normalizes the generation: the live cells sorted without repeats, and
    /// `dead` rebuilt as their boundary.
    pub fn finish(&mut self)
        requires
            old(self).within(1),
        ensures
            final(self).wf(),
            final(self).alive_set() == old(self).alive_set(),
            final(self).within(1),
            old(self).wf() ==> final(self).alive@ == old(self).alive@ && final(self).dead@ == old(
                self,
            ).dead@,
    {
        sort_dedup(&mut self.alive);
        self.make_dead_from_alive();
        proof {
            if old(self).wf() {
                lemma_sorted_unique(self.alive@, old(self).alive@);
                lemma_sorted_unique(self.dead@, old(self).dead@);
            }
        }
    }
    /// Whether `c` lives in the next generation, `state` being its state now.
    fn lives_on(&self, c: Coord, state: CellState) -> (r: bool)
        requires
            sorted_strictly(self.alive@),
            inner(c, 1),
        ensures
            r == next_state(state == CellState::Alive, live_count(self.alive_set(), c)),
    {
        mutate(state, self.live_neighboors(c).len()) == CellState::Alive
    }

    /// Computes the next generation into `e`, which is cleared first; `self`
    /// is left as it is. Survivors come from the live cells, births from the
    /// boundary, and `e` is normalized at the end.
    pub fn evolve_into(&self, e: &mut InterestingCells)
        requires
            self.wf(),
            self.within(2),
        ensures
            final(e).wf(),
            final(e).alive_set() == next_generation(self.alive_set()),
            final(e).within(1),
    {
        broadcast use vstd::seq_lib::group_filter_ensures;
        broadcast use vstd::seq_lib::to_multiset_contains;
        broadcast use vstd::multiset::group_multiset_axioms;

        let ghost s = self.alive_set();
        let ghost g = next_generation(s);
        let ghost pa = |c: Coord| next_state(true, live_count(s, c));
        let ghost pd = |c: Coord| next_state(false, live_count(s, c));
        proof {
            assert forall|i: int| 0 <= i < self.alive@.len() implies inner(
                #[trigger] self.alive@[i],
                1,
            ) by {
                assert(self.alive@.contains(self.alive@[i]));
                assert(self.alive_set().contains(self.alive@[i]));
                assert(inner(self.alive@[i], 2));
            }
            assert forall|i: int| 0 <= i < self.dead@.len() implies inner(
                #[trigger] self.dead@[i],
                1,
            ) by {
                let c = self.dead@[i];
                assert(self.dead@.contains(c));
                assert(boundary(s).contains(c));
                let w = choose|w: Coord| s.contains(w) && adjacent(c, w);
                assert(self.alive_set().contains(w));
                assert(inner(w, 2));
            }
        }
        e.alive.clear();
        e.dead.clear();
        par_extend_lives_on(&mut e.alive, &self.alive, self, CellState::Alive);
        par_extend_lives_on(&mut e.alive, &self.dead, self, CellState::Dead);
        let ghost survivors = self.alive@.filter(pa);
        let ghost births = self.dead@.filter(pd);
        let ghost collected = e.alive@;
        proof {
            assert(pa == (|c: Coord| next_state(CellState::Alive == CellState::Alive, live_count(self.alive_set(), c))));
            assert(pd == (|c: Coord| next_state(CellState::Dead == CellState::Alive, live_count(self.alive_set(), c))));
            assert forall|x: Coord| #[trigger] collected.contains(x) <==> survivors.contains(x)
                || births.contains(x) by {
                assert(collected.to_multiset().count(x) == survivors.to_multiset().count(x)
                    + births.to_multiset().count(x));
            }
            assert forall|x: Coord| collected.to_set().contains(x) <==> g.contains(x) by {
                if survivors.contains(x) {
                    self.alive@.lemma_filter_contains_rev(pa, x);
                    let k = choose|k: int| 0 <= k < survivors.len() && survivors[k] == x;
                    assert(pa(survivors[k]));
                }
                if births.contains(x) {
                    self.dead@.lemma_filter_contains_rev(pd, x);
                    let k = choose|k: int| 0 <= k < births.len() && births[k] == x;
                    assert(pd(births[k]));
                    assert(self.dead@.to_set().contains(x));
                    assert(boundary(s).contains(x));
                }
                if g.contains(x) {
                    if s.contains(x) {
                        let j = choose|j: int| 0 <= j < self.alive@.len() && self.alive@[j] == x;
                        assert(survivors.contains(self.alive@[j]));
                    } else {
                        if !(exists|d: Coord| s.contains(d) && adjacent(x, d)) {
                            assert(s.filter(|d: Coord| adjacent(x, d)) =~= Set::empty());
                        }
                        assert(boundary(s).contains(x));
                        assert(self.dead@.to_set().contains(x));
                        let j = choose|j: int| 0 <= j < self.dead@.len() && self.dead@[j] == x;
                        assert(births.contains(self.dead@[j]));
                    }
                }
            }
        }
        sort_dedup(&mut e.alive);
        proof {
            assert(e.alive_set() =~= g);
            assert forall|x: Coord| e.alive_set().contains(x) implies inner(x, 1) by {
                assert(collected.to_set().contains(x));
                if !s.contains(x) {
                    if !(exists|d: Coord| s.contains(d) && adjacent(x, d)) {
                        assert(s.filter(|d: Coord| adjacent(x, d)) =~= Set::empty());
                    }
                    let w = choose|w: Coord| s.contains(w) && adjacent(x, w);
                    assert(self.alive_set().contains(w));
                    assert(inner(w, 2));
                } else {
                    assert(self.alive_set().contains(x));
                    assert(inner(x, 2));
                }
            }
        }
        e.make_dead_from_alive();
    }
}

/// Relies on rayon's `ParallelExtend::par_extend` for `Vec`, fed by
/// `par_iter().copied().filter(..)`: `out` gains exactly the cells of `cells`
/// that the filter keeps, in an order that nothing here relies on. The
/// filter only calls `InterestingCells::lives_on`.
#[verifier::external_body]
fn par_extend_lives_on(
    out: &mut Vec<Coord>,
    cells: &Vec<Coord>,
    current: &InterestingCells,
    state: CellState,
)
    requires
        sorted_strictly(current.alive@),
        forall|i: int| 0 <= i < cells@.len() ==> inner(#[trigger] cells@[i], 1),
    ensures
        final(out)@.to_multiset() == old(out)@.to_multiset().add(
            cells@.filter(
                |c: Coord| next_state(state == CellState::Alive, live_count(current.alive_set(), c)),
            ).to_multiset(),
        ),
{
    out.par_extend(cells.par_iter().copied().filter(|c| current.lives_on(*c, state)));
}

/// Filtering keeps nothing of a sequence none of whose elements pass.
proof fn lemma_filter_none(s: Seq<Coord>, p: spec_fn(Coord) -> bool)
    requires
        forall|i: int| 0 <= i < s.len() ==> !p(#[trigger] s[i]),
    ensures
        s.filter(p) == Seq::<Coord>::empty(),
    decreases s.len(),
{
    reveal(Seq::filter);
    if s.len() > 0 {
        lemma_filter_none(s.drop_last(), p);
    }
    assert(s.filter(p) =~= Seq::<Coord>::empty());
}

/// A viewport: the cells `x <= c.0 < x + w` and `y <= c.1 < y + h`.
pub struct Window {
    pub w: usize,
    pub h: usize,
    pub x: i64,
    pub y: i64,
}

impl Window {
    /// Whether `c` lies inside the window.
    pub open spec fn shows(&self, c: Coord) -> bool {
        &&& self.x <= c.0 < self.x + self.w
        &&& self.y <= c.1 < self.y + self.h
    }

    /// The window of width `w` and height `h` whose corner is `(x, y)`.
    pub fn new(x: i64, y: i64, w: usize, h: usize) -> (r: Window)
        ensures
            r.x == x,
            r.y == y,
            r.w == w,
            r.h == h,
    {
        Window { w, h, x, y }
    }

    /// The exec form of `shows`.
    fn shows_exec(&self, c: Coord) -> (r: bool)
        ensures
            r == self.shows(c),
    {
        c.0 >= self.x && (c.0 as i128) < (self.x as i128) + (self.w as i128) && c.1 >= self.y && (
        c.1 as i128) < (self.y as i128) + (self.h as i128)
    }
}

/// A sink for the cells that a window query finds.
pub trait CellStorage {
    /// The cells stored so far, in order.
    spec fn stored(&self) -> Seq<Coord>;

    fn add_cell(&mut self, cell: Coord)
        ensures
            final(self).stored() == old(self).stored().push(cell),
    ;
}

impl CellStorage for Coords {
    open spec fn stored(&self) -> Seq<Coord> {
        self@
    }

    fn add_cell(&mut self, cell: Coord) {
        self.push(cell);
    }
}

/// The simulation: two generation sets used in turn, and a generation
/// counter.
pub struct World {
    set1: InterestingCells,
    set2: InterestingCells,
    using_set1: bool,
    generation: usize,
}

impl World {
    /// The generation set in use.
    pub closed spec fn current(&self) -> InterestingCells {
        if self.using_set1 {
            self.set1
        } else {
            self.set2
        }
    }

    /// The number of completed evolution steps.
    pub closed spec fn generation_count(&self) -> nat {
        self.generation as nat
    }

    /// The live cells.
    pub open spec fn cells(&self) -> Set<Coord> {
        self.current().alive_set()
    }

    /// The current generation set is normalized.
    pub open spec fn normalized(&self) -> bool {
        self.current().wf()
    }

    /// Every live cell keeps a distance of `m` from the ends of `i64`.
    pub open spec fn within(&self, m: int) -> bool {
        self.current().within(m)
    }

    /// An empty world at generation 0.
    pub fn new() -> (r: World)
        ensures
            r.cells() == Set::<Coord>::empty(),
            r.current().alive@ == Seq::<Coord>::empty(),
            r.normalized(),
            r.generation_count() == 0,
    {
        let r = World {
            set1: InterestingCells::new(),
            set2: InterestingCells::new(),
            using_set1: true,
            generation: 0,
        };
        assert(r.cells() =~= Set::<Coord>::empty());
        r
    }

    fn current_set(&self) -> (r: &InterestingCells)
        ensures
            *r == self.current(),
    {
        if self.using_set1 {
            &self.set1
        } else {
            &self.set2
        }
    }

    /// The generation set not in use.
    pub closed spec fn other(&self) -> InterestingCells {
        if self.using_set1 {
            self.set2
        } else {
            self.set1
        }
    }

    /// The current generation set and the other one.
    fn working_sets(&mut self) -> (r: (&mut InterestingCells, &mut InterestingCells))
        ensures
            *r.0 == old(self).current(),
            *r.1 == old(self).other(),
            final(self).using_set1 == old(self).using_set1,
            final(self).generation == old(self).generation,
            final(self).current() == *final(r.0),
            final(self).other() == *final(r.1),
    {
        if self.using_set1 {
            (&mut self.set1, &mut self.set2)
        } else {
            (&mut self.set2, &mut self.set1)
        }
    }

    /// Adds `c` to the live cells; it is sorted in by the next `finish`.
    pub fn make_alive(&mut self, c: Coord)
        ensures
            final(self).current().alive@ == old(self).current().alive@.push(c),
            final(self).cells() == old(self).cells().insert(c),
            final(self).generation_count() == old(self).generation_count(),
    {
        self.working_sets().0.make_alive(c);
        proof {
            old(self).current().alive@.lemma_push_to_set_commute(c);
        }
    }

    /// Normalizes the current generation set.
    pub fn finish(&mut self)
        requires
            old(self).within(1),
        ensures
            final(self).normalized(),
            final(self).cells() == old(self).cells(),
            final(self).within(1),
            final(self).generation_count() == old(self).generation_count(),
    {
        self.working_sets().0.finish();
    }

    /// Makes each cell of `cells` alive, then normalizes once.
    pub fn action(&mut self, cells: &[Coord])
        requires
            old(self).within(1),
            forall|i: int| 0 <= i < cells@.len() ==> inner(#[trigger] cells@[i], 1),
        ensures
            final(self).normalized(),
            final(self).cells() == old(self).cells().union(cells@.to_set()),
            final(self).within(1),
            final(self).generation_count() == old(self).generation_count(),
    {
        let mut i: usize = 0;
        while i < cells.len()
            invariant
                i <= cells@.len(),
                forall|k: int| 0 <= k < cells@.len() ==> inner(#[trigger] cells@[k], 1),
                self.cells() == old(self).cells().union(cells@.subrange(0, i as int).to_set()),
                self.within(1),
                self.generation_count() == old(self).generation_count(),
            decreases cells@.len() - i,
        {
            let c = cells[i];
            self.make_alive(c);
            proof {
                assert(cells@.subrange(0, i + 1) =~= cells@.subrange(0, i as int).push(c));
                cells@.subrange(0, i as int).lemma_push_to_set_commute(c);
                assert(self.cells() =~= old(self).cells().union(
                    cells@.subrange(0, i + 1).to_set(),
                ));
            }
            i += 1;
        }
        assert(cells@.subrange(0, cells@.len() as int) =~= cells@);
        self.finish();
    }

    fn swap_sets(&mut self)
        ensures
            final(self).using_set1 == !old(self).using_set1,
            final(self).set1 == old(self).set1,
            final(self).set2 == old(self).set2,
            final(self).generation == old(self).generation,
    {
        self.using_set1 = !self.using_set1;
    }

    /// Advances one generation: the next generation is computed into the
    /// other set, which then becomes the current one.
    pub fn evolve(&mut self)
        requires
            old(self).normalized(),
            old(self).within(2),
            old(self).generation_count() < usize::MAX,
        ensures
            final(self).normalized(),
            final(self).cells() == next_generation(old(self).cells()),
            final(self).within(1),
            final(self).generation_count() == old(self).generation_count() + 1,
    {
        let working_sets = self.working_sets();
        working_sets.0.evolve_into(working_sets.1);
        self.swap_sets();
        self.generation += 1;
    }

    /// The number of live cells.
    pub fn population_size(&self) -> (r: usize)
        ensures
            r == self.current().alive@.len(),
            self.normalized() ==> r == self.cells().len(),
    {
        proof {
            if self.normalized() {
                self.current().alive@.unique_seq_to_set();
            }
        }
        self.current_set().len()
    }

    /// The generation counter.
    pub fn gen(&self) -> (r: usize)
        ensures
            r == self.generation_count(),
    {
        self.generation
    }

    /// Whether every live cell keeps a distance of 2 from the ends of `i64`,
    /// as `evolve` asks.
    pub fn has_room(&self) -> (r: bool)
        ensures
            r == self.within(2),
    {
        let alive = &self.current_set().alive;
        let mut i: usize = 0;
        while i < alive.len()
            invariant
                *alive == self.current().alive,
                i <= alive@.len(),
                forall|k: int| 0 <= k < i ==> inner(#[trigger] alive@[k], 2),
            decreases alive@.len() - i,
        {
            let c = alive[i];
            if !(c.0 >= i64::MIN + 2 && c.0 <= i64::MAX - 2 && c.1 >= i64::MIN + 2 && c.1 <= i64::MAX
                - 2) {
                assert(self.current().alive@.contains(c));
                assert(!inner(c, 2));
                assert(!self.current().within(2));
                return false;
            }
            i += 1;
        }
        assert forall|c: Coord| self.current().alive_set().contains(c) implies inner(c, 2) by {
            let k = choose|k: int| 0 <= k < alive@.len() && alive@[k] == c;
        }
        true
    }

    /// Adds to `cells`, in ascending order, the live cells that `window`
    /// shows. A binary search narrows the candidates to the columns of the
    /// window; a scan of those keeps the ones in its rows.
    pub fn live_cells<S: CellStorage>(&self, window: &Window, cells: &mut S)
        requires
            self.normalized(),
        ensures
            final(cells).stored() == old(cells).stored() + self.current().alive@.filter(
                |c: Coord| window.shows(c),
            ),
    {
        let alive = &self.current_set().alive;
        let ghost p = |c: Coord| window.shows(c);
        let lower_index = position(alive, Coord(window.x, i64::MIN));
        let end = (window.x as i128) + (window.w as i128);
        let upper_index = if end > i64::MAX as i128 {
            alive.len()
        } else {
            position(alive, Coord(end as i64, i64::MIN))
        };
        proof {
            if lower_index > upper_index {
                assert(!coord_lt(alive@[upper_index as int], Coord(window.x, i64::MIN)));
                assert(coord_lt(alive@[upper_index as int], Coord(end as i64, i64::MIN)));
            }
            lemma_filter_none(alive@.subrange(0, lower_index as int), p);
        }
        let mut k: usize = lower_index;
        while k < upper_index
            invariant
                *alive == self.current().alive,
                p == (|c: Coord| window.shows(c)),
                lower_index <= k <= upper_index <= alive@.len(),
                cells.stored() == old(cells).stored() + alive@.subrange(0, k as int).filter(p),
            decreases upper_index - k,
        {
            let c = alive[k];
            proof {
                assert(alive@.subrange(0, k + 1) =~= alive@.subrange(0, k as int).push(c));
                alive@.subrange(0, k as int).lemma_filter_push(c, p);
            }
            if window.shows_exec(c) {
                cells.add_cell(c);
            }
            k += 1;
        }
        proof {
            let rest = alive@.subrange(upper_index as int, alive@.len() as int);
            assert forall|i: int| 0 <= i < rest.len() implies !p(#[trigger] rest[i]) by {
                assert(!coord_lt(alive@[upper_index + i], Coord(end as i64, i64::MIN)));
            }
            lemma_filter_none(rest, p);
            assert(alive@ =~= alive@.subrange(0, upper_index as int) + rest);
            Seq::filter_distributes_over_add(alive@.subrange(0, upper_index as int), rest, p);
        }
    }
}

} // verus!

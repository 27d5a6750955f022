//! The board: a square grid of intersections, stone placement and removal,
//! orthogonal adjacency, connected stone groups and their liberties.
//!
//! The mathematical model is a `Grid`: a sequence of rows of `Point`s.
//! Connectivity is defined by paths of orthogonally adjacent, equally
//! occupied intersections; a group is the connected component of a stone
//! and its liberties are the distinct empty intersections adjacent to any
//! of its members.

use vstd::prelude::*;
use vstd::seq_lib::*;
use vstd::set_lib::*;

verus! {

broadcast use vstd::seq_lib::lemma_seq_contains_after_push, vstd::seq_lib::lemma_seq_empty_contains_nothing, vstd::seq_lib::lemma_seq_concat_contains_all_elements;

/// One of the two players.
#[derive(Clone, Copy, PartialEq, Eq, Structural, Debug)]
pub enum Player {
    Black,
    White,
}

impl Player {
    /// The other player.
    pub open spec fn opponent_spec(self) -> Player {
        match self {
            Player::Black => Player::White,
            Player::White => Player::Black,
        }
    }

    pub fn opponent(&self) -> (r: Player)
        ensures
            r == self.opponent_spec(),
    {
        match self {
            Player::Black => Player::White,
            Player::White => Player::Black,
        }
    }

    /// Taking the opponent twice comes back to the same player.
    pub proof fn lemma_opponent_involutive(self)
        ensures
            self.opponent_spec().opponent_spec() == self,
    {
    }
}

/// The state of one intersection.
#[derive(Clone, Copy, PartialEq, Eq, Structural, Debug)]
pub enum Point {
    Empty,
    Stone(Player),
}

/// A coordinate on the board: row, then column.
pub type Coord = (usize, usize);

/// The mathematical model of a board: a sequence of rows.
pub type Grid = Seq<Seq<Point>>;

/// A grid is a full `n` by `n` square.
pub open spec fn grid_wf(g: Grid, n: int) -> bool {
    g.len() == n && forall|r: int| 0 <= r < n ==> (#[trigger] g[r]).len() == n
}

/// Whether a coordinate lies on an `n` by `n` board.
pub open spec fn in_bounds(n: int, p: Coord) -> bool {
    p.0 < n && p.1 < n
}

/// The state of the intersection at `p`.
pub open spec fn at(g: Grid, p: Coord) -> Point {
    g[p.0 as int][p.1 as int]
}

/// `g` with the intersection at `p` set to `pt`.
pub open spec fn set_cell(g: Grid, p: Coord, pt: Point) -> Grid {
    g.update(p.0 as int, g[p.0 as int].update(p.1 as int, pt))
}

/// The grid of an `n` by `n` board with no stones on it.
pub open spec fn empty_grid(n: int) -> Grid {
    Seq::new(n as nat, |r: int| Seq::new(n as nat, |c: int| Point::Empty))
}

/// Orthogonal adjacency: the two coordinates differ by one in exactly one
/// component. Diagonal neighbors are not adjacent.
pub open spec fn adjacent(a: Coord, b: Coord) -> bool {
    ||| (a.0 == b.0 && (a.1 + 1 == b.1 || b.1 + 1 == a.1))
    ||| (a.1 == b.1 && (a.0 + 1 == b.0 || b.0 + 1 == a.0))
}

/// The neighbors of `(r, c)` that `get_adjacent_points` reports, in its
/// order: up, down, left, right, each present only when it exists on the
/// board.
pub open spec fn adjacent_seq(n: int, r: usize, c: usize) -> Seq<Coord> {
    let s0 = Seq::<Coord>::empty();
    let s1 = if r >= 1 {
        s0.push((((r - 1) as usize), c))
    } else {
        s0
    };
    let s2 = if r + 1 < n {
        s1.push((((r + 1) as usize), c))
    } else {
        s1
    };
    let s3 = if c >= 1 {
        s2.push((r, ((c - 1) as usize)))
    } else {
        s2
    };
    if c + 1 < n {
        s3.push((r, ((c + 1) as usize)))
    } else {
        s3
    }
}

/// What `adjacent_seq` holds: exactly the adjacent coordinates, restricted
/// to rows below `n` in the row direction and columns below `n` in the
/// column direction; for an in-bounds center they are exactly the in-bounds
/// adjacent coordinates.
pub proof fn lemma_adjacent_seq(n: int, r: usize, c: usize)
    requires
        n <= usize::MAX,
    ensures
        adjacent_seq(n, r, c).no_duplicates(),
        forall|q: Coord| #[trigger] adjacent_seq(n, r, c).contains(q) ==> adjacent((r, c), q),
        forall|q: Coord|
            in_bounds(n, q) ==> (adjacent_seq(n, r, c).contains(q) <==> adjacent((r, c), q)),
        in_bounds(n, (r, c)) ==> forall|q: Coord|
            #[trigger] adjacent_seq(n, r, c).contains(q) ==> in_bounds(n, q),
{
    let s0 = Seq::<Coord>::empty();
    let e1: Coord = (((r - 1) as usize), c);
    let e2: Coord = (((r + 1) as usize), c);
    let e3: Coord = (r, ((c - 1) as usize));
    let e4: Coord = (r, ((c + 1) as usize));
    let s1 = if r >= 1 {
        s0.push(e1)
    } else {
        s0
    };
    let s2 = if r + 1 < n {
        s1.push(e2)
    } else {
        s1
    };
    let s3 = if c >= 1 {
        s2.push(e3)
    } else {
        s2
    };
    let s = adjacent_seq(n, r, c);
    if r >= 1 {
        assert(s1 == s0.push(e1));
    }
    if r + 1 < n {
        assert(s2 == s1.push(e2));
    }
    if c >= 1 {
        assert(s3 == s2.push(e3));
    }
    if c + 1 < n {
        assert(s == s3.push(e4));
    } else {
        assert(s == s3);
    }
    assert(forall|q: Coord| #[trigger] s1.contains(q) <==> (r >= 1 && q == e1));
    assert(forall|q: Coord|
        #[trigger] s2.contains(q) <==> ((r >= 1 && q == e1) || (r + 1 < n && q == e2)));
    assert(forall|q: Coord|
        #[trigger] s3.contains(q) <==> ((r >= 1 && q == e1) || (r + 1 < n && q == e2) || (c >= 1
            && q == e3)));
    assert(forall|q: Coord|
        #[trigger] s.contains(q) <==> ((r >= 1 && q == e1) || (r + 1 < n && q == e2) || (c >= 1
            && q == e3) || (c + 1 < n && q == e4)));
    assert forall|q: Coord| #[trigger] s.contains(q) implies adjacent((r, c), q) by {
        if r >= 1 && q == e1 {
            assert(q.1 == c && q.0 + 1 == r);
        } else if r + 1 < n && q == e2 {
            assert(q.1 == c && r + 1 == q.0);
        } else if c >= 1 && q == e3 {
            assert(q.0 == r && q.1 + 1 == c);
        } else {
            assert(c + 1 < n && q == e4);
            assert(q.0 == r && c + 1 == q.1);
        }
    }
    assert forall|q: Coord| in_bounds(n, q) && adjacent((r, c), q) implies s.contains(q) by {
        if q.0 == r && q.1 + 1 == c {
            assert(q == e3);
        } else if q.0 == r && c + 1 == q.1 {
            assert(q == e4);
        } else if q.1 == c && q.0 + 1 == r {
            assert(q == e1);
        } else {
            assert(q.1 == c && r + 1 == q.0);
            assert(q == e2);
        }
    }
    assert(s0.no_duplicates());
    if r >= 1 {
        lemma_push_no_dup(s0, e1);
    }
    assert(s1.no_duplicates());
    if r + 1 < n {
        assert(!s1.contains(e2));
        lemma_push_no_dup(s1, e2);
    }
    assert(s2.no_duplicates());
    if c >= 1 {
        assert(!s2.contains(e3));
        lemma_push_no_dup(s2, e3);
    }
    assert(s3.no_duplicates());
    if c + 1 < n {
        assert(!s3.contains(e4));
        lemma_push_no_dup(s3, e4);
    }
    assert(s.no_duplicates());
}

/// Appending a fresh element keeps a sequence duplicate-free.
proof fn lemma_push_no_dup<A>(s: Seq<A>, x: A)
    requires
        s.no_duplicates(),
        !s.contains(x),
    ensures
        s.push(x).no_duplicates(),
{
    assert forall|i: int, j: int|
        0 <= i < j < s.push(x).len() implies s.push(x)[i] != s.push(x)[j] by {
        if j < s.len() {
        } else {
            assert(s.contains(s[i]));
        }
    }
}

/// A path through the grid: a nonempty run of coordinates, each in bounds
/// and in the same state as the start, each step orthogonally adjacent.
pub open spec fn is_path(g: Grid, n: int, ps: Seq<Coord>) -> bool {
    &&& ps.len() > 0
    &&& forall|i: int|
        0 <= i < ps.len() ==> in_bounds(n, #[trigger] ps[i]) && at(g, ps[i]) == at(g, ps[0])
    &&& forall|i: int| 0 <= i < ps.len() - 1 ==> adjacent(#[trigger] ps[i], ps[i + 1])
}

/// Two coordinates are connected when a path of equally occupied, adjacent
/// intersections joins them.
pub open spec fn connected(g: Grid, n: int, a: Coord, b: Coord) -> bool {
    exists|ps: Seq<Coord>| is_path(g, n, ps) && ps.first() == a && ps.last() == b
}

/// The connected component of `a`: every coordinate connected to it.
pub open spec fn component(g: Grid, n: int, a: Coord) -> Set<Coord> {
    Set::new(|b: Coord| connected(g, n, a, b))
}

/// The liberties of a set of coordinates: the distinct empty in-bounds
/// intersections adjacent to at least one member.
pub open spec fn lib_set(g: Grid, n: int, members: Set<Coord>) -> Set<Coord> {
    Set::new(
        |q: Coord|
            in_bounds(n, q) && at(g, q) == Point::Empty && exists|p: Coord|
                #[trigger] members.contains(p) && adjacent(p, q),
    )
}

/// A coordinate with an empty in-bounds neighbor.
pub open spec fn has_empty_neighbor(g: Grid, n: int, w: Coord) -> bool {
    exists|e: Coord| in_bounds(n, e) && #[trigger] adjacent(w, e) && at(g, e) == Point::Empty
}

pub proof fn lemma_connected_refl(g: Grid, n: int, a: Coord)
    requires
        in_bounds(n, a),
    ensures
        connected(g, n, a, a),
{
    let ps = seq![a];
    assert(is_path(g, n, ps));
    assert(ps.first() == a && ps.last() == a);
}

pub proof fn lemma_connected_step(g: Grid, n: int, a: Coord, b: Coord, q: Coord)
    requires
        connected(g, n, a, b),
        adjacent(b, q),
        in_bounds(n, q),
        at(g, q) == at(g, a),
    ensures
        connected(g, n, a, q),
{
    let ps = choose|ps: Seq<Coord>| is_path(g, n, ps) && ps.first() == a && ps.last() == b;
    let ps2 = ps.push(q);
    assert(at(g, ps[0]) == at(g, a));
    assert forall|i: int| 0 <= i < ps2.len() - 1 implies adjacent(#[trigger] ps2[i], ps2[i + 1]) by {
        if i < ps.len() - 1 {
            assert(adjacent(ps[i], ps[i + 1]));
        }
    }
    assert(is_path(g, n, ps2));
    assert(ps2.first() == a && ps2.last() == q);
}

pub proof fn lemma_connected_sym(g: Grid, n: int, a: Coord, b: Coord)
    requires
        connected(g, n, a, b),
    ensures
        connected(g, n, b, a),
{
    let ps = choose|ps: Seq<Coord>| is_path(g, n, ps) && ps.first() == a && ps.last() == b;
    let l = ps.len();
    let rv = Seq::new(l, |i: int| ps[l - 1 - i]);
    assert(at(g, rv[0]) == at(g, ps[0]));
    assert forall|i: int| 0 <= i < rv.len() - 1 implies adjacent(#[trigger] rv[i], rv[i + 1]) by {
        assert(adjacent(ps[l - 2 - i], ps[l - 2 - i + 1]));
    }
    assert(is_path(g, n, rv));
    assert(rv.first() == b && rv.last() == a);
}

pub proof fn lemma_connected_trans(g: Grid, n: int, a: Coord, b: Coord, c: Coord)
    requires
        connected(g, n, a, b),
        connected(g, n, b, c),
    ensures
        connected(g, n, a, c),
{
    let ps1 = choose|ps: Seq<Coord>| is_path(g, n, ps) && ps.first() == a && ps.last() == b;
    let ps2 = choose|ps: Seq<Coord>| is_path(g, n, ps) && ps.first() == b && ps.last() == c;
    if ps2.len() == 1 {
        assert(b == c);
    } else {
        let tail = ps2.subrange(1, ps2.len() as int);
        let comb = ps1 + tail;
        assert(at(g, ps2[0]) == at(g, b));
        assert(at(g, b) == at(g, ps1[0]));
        assert forall|i: int|
            0 <= i < comb.len() implies in_bounds(n, #[trigger] comb[i]) && at(g, comb[i]) == at(
            g,
            comb[0],
        ) by {
            if i < ps1.len() {
                assert(comb[i] == ps1[i]);
            } else {
                assert(comb[i] == ps2[i - ps1.len() + 1]);
                assert(at(g, ps2[i - ps1.len() + 1]) == at(g, ps2[0]));
            }
        }
        assert forall|i: int| 0 <= i < comb.len() - 1 implies adjacent(
            #[trigger] comb[i],
            comb[i + 1],
        ) by {
            if i + 1 < ps1.len() {
                assert(adjacent(ps1[i], ps1[i + 1]));
            } else if i + 1 == ps1.len() {
                assert(comb[i] == ps1[ps1.len() - 1]);
                assert(comb[i + 1] == ps2[1]);
                assert(adjacent(ps2[0], ps2[1]));
            } else {
                let j = i - ps1.len() + 1;
                assert(comb[i] == ps2[j]);
                assert(comb[i + 1] == ps2[j + 1]);
                assert(adjacent(ps2[j], ps2[j + 1]));
            }
        }
        assert(is_path(g, n, comb));
        assert(comb.first() == a && comb.last() == c);
    }
}

/// Every path that starts inside a set closed under same-state adjacency
/// stays inside it.
proof fn lemma_path_in_closed(g: Grid, n: int, ps: Seq<Coord>, vs: Set<Coord>)
    requires
        is_path(g, n, ps),
        vs.contains(ps.first()),
        forall|p: Coord, q: Coord|
            #[trigger] vs.contains(p) && in_bounds(n, q) && #[trigger] adjacent(p, q) && at(g, q)
                == at(g, ps.first()) ==> vs.contains(q),
    ensures
        vs.contains(ps.last()),
    decreases ps.len(),
{
    if ps.len() > 1 {
        let shorter = ps.drop_last();
        assert(shorter[0] == ps[0]);
        assert forall|i: int|
            0 <= i < shorter.len() implies in_bounds(n, #[trigger] shorter[i]) && at(g, shorter[i])
            == at(g, shorter[0]) by {
            assert(shorter[i] == ps[i]);
        }
        assert forall|i: int| 0 <= i < shorter.len() - 1 implies adjacent(
            #[trigger] shorter[i],
            shorter[i + 1],
        ) by {
            assert(adjacent(ps[i], ps[i + 1]));
        }
        lemma_path_in_closed(g, n, shorter, vs);
        assert(vs.contains(ps[ps.len() - 2]));
        assert(adjacent(ps[ps.len() - 2], ps[ps.len() - 1]));
        assert(at(g, ps[ps.len() - 1]) == at(g, ps.first()));
    }
}

/// Everything connected to `s` lies in any set that holds `s` and is closed
/// under same-state adjacency.
pub proof fn lemma_closed_contains_component(g: Grid, n: int, s: Coord, t: Coord, vs: Set<Coord>)
    requires
        vs.contains(s),
        forall|p: Coord, q: Coord|
            #[trigger] vs.contains(p) && in_bounds(n, q) && #[trigger] adjacent(p, q) && at(g, q)
                == at(g, s) ==> vs.contains(q),
        connected(g, n, s, t),
    ensures
        vs.contains(t),
{
    let ps = choose|ps: Seq<Coord>| is_path(g, n, ps) && ps.first() == s && ps.last() == t;
    lemma_path_in_closed(g, n, ps, vs);
}

/// The coordinates lexicographically before row `r`, column `c` on an
/// `n`-wide board.
spec fn lex_coords(n: int, r: int, c: int) -> Set<Coord> {
    Set::new(|p: Coord| (p.0 < r && p.1 < n) || (p.0 == r && p.1 < c))
}

proof fn lemma_lex_coords_card(n: int, r: int, c: int)
    requires
        0 <= n <= usize::MAX,
        0 <= r <= usize::MAX,
        0 <= c <= n,
    ensures
        lex_coords(n, r, c).finite(),
        lex_coords(n, r, c).len() == r * n + c,
    decreases r, c,
{
    if c > 0 {
        lemma_lex_coords_card(n, r, c - 1);
        let prev = lex_coords(n, r, c - 1);
        let p: Coord = (r as usize, (c - 1) as usize);
        assert(!prev.contains(p));
        assert(lex_coords(n, r, c) =~= prev.insert(p));
    } else if r > 0 {
        lemma_lex_coords_card(n, r - 1, n);
        assert(lex_coords(n, r, 0) =~= lex_coords(n, r - 1, n)) by {
            assert forall|p: Coord| lex_coords(n, r, 0).contains(p) implies lex_coords(
                n,
                r - 1,
                n,
            ).contains(p) by {}
        }
        assert((r - 1) * n + n == r * n) by (nonlinear_arith);
    } else {
        assert(lex_coords(n, 0, 0) =~= Set::<Coord>::empty());
    }
}

/// All in-bounds coordinates of an `n` by `n` board.
pub open spec fn grid_coords(n: int) -> Set<Coord> {
    Set::new(|p: Coord| in_bounds(n, p))
}

pub proof fn lemma_grid_coords_card(n: int)
    requires
        0 <= n <= usize::MAX,
    ensures
        grid_coords(n).finite(),
        grid_coords(n).len() == n * n,
{
    lemma_lex_coords_card(n, n, 0);
    assert(grid_coords(n) =~= lex_coords(n, n, 0));
}

/// A duplicate-free sequence of in-bounds coordinates has at most `n * n`
/// entries.
pub proof fn lemma_bounded_coord_seq(s: Seq<Coord>, n: int)
    requires
        0 <= n <= usize::MAX,
        s.no_duplicates(),
        forall|q: Coord| #[trigger] s.contains(q) ==> in_bounds(n, q),
    ensures
        s.len() <= n * n,
{
    s.unique_seq_to_set();
    lemma_grid_coords_card(n);
    assert forall|q: Coord| s.to_set().contains(q) implies grid_coords(n).contains(q) by {
        assert(s.contains(q));
    }
    lemma_len_subset(s.to_set(), grid_coords(n));
}

/// A square board of fixed side `SIZE`, each intersection empty or holding
/// a stone.
pub struct Board<const SIZE: usize> {
    points: Vec<Vec<Point>>,
}

impl<const SIZE: usize> View for Board<SIZE> {
    type V = Grid;

    closed spec fn view(&self) -> Grid {
        self.points@.map_values(|row: Vec<Point>| row@)
    }
}

impl<const SIZE: usize> Clone for Board<SIZE> {
    /// A clone has the same grid.
    fn clone(&self) -> (res: Self)
        ensures
            res@ == self@,
    {
        let mut pts: Vec<Vec<Point>> = Vec::new();
        let mut r: usize = 0;
        while r < self.points.len()
            invariant
                r <= self.points@.len(),
                pts@.len() == r,
                forall|i: int| 0 <= i < r ==> #[trigger] pts@[i]@ == self.points@[i]@,
            decreases self.points@.len() - r,
        {
            let row = &self.points[r];
            let mut new_row: Vec<Point> = Vec::new();
            let mut ci: usize = 0;
            while ci < row.len()
                invariant
                    ci <= row@.len(),
                    new_row@ == row@.subrange(0, ci as int),
                decreases row@.len() - ci,
            {
                new_row.push(row[ci]);
                assert(new_row@ =~= row@.subrange(0, ci + 1));
                ci += 1;
            }
            assert(new_row@ =~= row@);
            pts.push(new_row);
            r += 1;
        }
        let res = Board { points: pts };
        assert(res@ =~~= self@);
        res
    }
}

impl<const SIZE: usize> Board<SIZE> {
    /// The board is a full `SIZE` by `SIZE` grid.
    pub open spec fn wf(self) -> bool {
        grid_wf(self@, SIZE as int)
    }

    /// The stored rows line up with the view.
    proof fn lemma_rows(&self)
        requires
            self.wf(),
        ensures
            self.points@.len() == SIZE,
            forall|i: int|
                0 <= i < SIZE ==> (#[trigger] self.points@[i])@ == self@[i] && self.points@[i]@.len()
                    == SIZE,
    {
        assert(self@.len() == self.points@.len());
        assert forall|i: int|
            0 <= i < SIZE implies (#[trigger] self.points@[i])@ == self@[i] && self.points@[i]@.len()
            == SIZE by {
            assert(self@[i] == self.points@.map_values(|row: Vec<Point>| row@)[i]);
        }
    }

    /// A fresh board with every intersection empty.
    pub fn new() -> (res: Self)
        ensures
            res.wf(),
            res@ == empty_grid(SIZE as int),
    {
        let mut points: Vec<Vec<Point>> = Vec::new();
        let mut r: usize = 0;
        while r < SIZE
            invariant
                r <= SIZE,
                points@.len() == r,
                forall|i: int| 0 <= i < r ==> (#[trigger] points@[i]@).len() == SIZE,
                forall|i: int, j: int|
                    0 <= i < r && 0 <= j < SIZE ==> #[trigger] points@[i]@[j] == Point::Empty,
            decreases SIZE - r,
        {
            let mut row: Vec<Point> = Vec::new();
            let mut c: usize = 0;
            while c < SIZE
                invariant
                    c <= SIZE,
                    row@.len() == c,
                    forall|j: int| 0 <= j < c ==> #[trigger] row@[j] == Point::Empty,
                decreases SIZE - c,
            {
                row.push(Point::Empty);
                c += 1;
            }
            points.push(row);
            r += 1;
        }
        let res = Board { points };
        assert(res@ =~~= empty_grid(SIZE as int));
        res
    }

    /// Bounds-checked read of one intersection.
    pub fn get_point(&self, r: usize, c: usize) -> (res: Option<Point>)
        requires
            self.wf(),
        ensures
            res == if in_bounds(SIZE as int, (r, c)) {
                Some(at(self@, (r, c)))
            } else {
                None::<Point>
            },
    {
        if r < SIZE && c < SIZE {
            proof {
                self.lemma_rows();
            }
            Some(self.points[r][c])
        } else {
            None
        }
    }

    /// Whether `(r, c)` lies on the board.
    pub fn is_valid_coordinate(&self, r: usize, c: usize) -> (res: bool)
        ensures
            res == in_bounds(SIZE as int, (r, c)),
    {
        r < SIZE && c < SIZE
    }

    /// Place a stone on an empty in-bounds intersection; report whether it
    /// was placed. A failed placement leaves the board untouched.
    pub fn place_stone(&mut self, r: usize, c: usize, player: Player) -> (ok: bool)
        requires
            old(self).wf(),
        ensures
            final(self).wf(),
            ok == (in_bounds(SIZE as int, (r, c)) && at(old(self)@, (r, c)) == Point::Empty),
            ok ==> final(self)@ == set_cell(old(self)@, (r, c), Point::Stone(player)),
            !ok ==> *final(self) == *old(self),
    {
        proof {
            if r < SIZE && c < SIZE {
                self.lemma_rows();
            }
        }
        if r < SIZE && c < SIZE && self.points[r][c] == Point::Empty {
            self.points[r][c] = Point::Stone(player);
            assert(self@ =~~= set_cell(old(self)@, (r, c), Point::Stone(player)));
            true
        } else {
            false
        }
    }

    /// Clear an intersection; out-of-range coordinates are ignored.
    pub fn remove_stone(&mut self, r: usize, c: usize)
        requires
            old(self).wf(),
        ensures
            final(self).wf(),
            in_bounds(SIZE as int, (r, c)) ==> final(self)@ == set_cell(
                old(self)@,
                (r, c),
                Point::Empty,
            ),
            !in_bounds(SIZE as int, (r, c)) ==> *final(self) == *old(self),
    {
        if r < SIZE && c < SIZE {
            proof {
                self.lemma_rows();
            }
            self.points[r][c] = Point::Empty;
            assert(self@ =~~= set_cell(old(self)@, (r, c), Point::Empty));
        }
    }

    /// The orthogonal neighbors of `(r, c)` that lie on the board, in the
    /// order up, down, left, right.
    pub fn get_adjacent_points(&self, r: usize, c: usize) -> (res: Vec<(usize, usize)>)
        ensures
            res@ == adjacent_seq(SIZE as int, r, c),
    {
        let mut adjacent_pts: Vec<(usize, usize)> = Vec::new();
        if r >= 1 {
            adjacent_pts.push((r - 1, c));
        }
        if SIZE >= 1 && r < SIZE - 1 {
            adjacent_pts.push((r + 1, c));
        }
        if c >= 1 {
            adjacent_pts.push((r, c - 1));
        }
        if SIZE >= 1 && c < SIZE - 1 {
            adjacent_pts.push((r, c + 1));
        }
        adjacent_pts
    }

    /// The connected group through `(r, c)`: all stones of its color joined
    /// to it by orthogonal adjacency. Empty or out-of-range starts give the
    /// empty group.
    pub fn get_group(&self, r: usize, c: usize) -> (res: Vec<(usize, usize)>)
        requires
            self.wf(),
        ensures
            res@.no_duplicates(),
            forall|q: Coord|
                #[trigger] res@.contains(q) <==> (in_bounds(SIZE as int, (r, c)) && at(
                    self@,
                    (r, c),
                ) != Point::Empty && connected(self@, SIZE as int, (r, c), q)),
    {
        if r < SIZE && c < SIZE {
            let start = self.points[r][c];
            if start != Point::Empty {
                self.flood_fill_group(r, c)
            } else {
                Vec::new()
            }
        } else {
            Vec::new()
        }
    }

    /// Worklist flood fill from an in-bounds start: collects the connected
    /// component of equally occupied intersections, visiting each at most
    /// once.
    #[verifier::rlimit(50)]
    pub(crate) fn flood_fill_group(&self, r: usize, c: usize) -> (res: Vec<(usize, usize)>)
        requires
            self.wf(),
            in_bounds(SIZE as int, (r, c)),
        ensures
            res@.no_duplicates(),
            forall|q: Coord|
                #[trigger] res@.contains(q) <==> connected(self@, SIZE as int, (r, c), q),
    {
        let ghost n = SIZE as int;
        let ghost s: Coord = (r, c);
        let start = self.get_point(r, c).unwrap();
        let mut visited: Vec<(usize, usize)> = Vec::new();
        let mut stack: Vec<(usize, usize)> = Vec::new();
        visited.push((r, c));
        stack.push((r, c));
        proof {
            lemma_connected_refl(self@, n, s);
            assert(visited@.last() == s);
            assert(visited@.contains(s));
            assert(stack@.contains(s));
        }
        while stack.len() > 0
            invariant
                self.wf(),
                r < SIZE,
                c < SIZE,
                at(self@, s) == start,
                s == ((r, c)),
                n == SIZE as int,
                visited@.no_duplicates(),
                stack@.no_duplicates(),
                visited@.contains(s),
                forall|q: Coord| #[trigger] stack@.contains(q) ==> visited@.contains(q),
                forall|q: Coord|
                    #[trigger] visited@.contains(q) ==> in_bounds(n, q) && connected(self@, n, s, q),
                forall|p: Coord, q: Coord|
                    #[trigger] visited@.contains(p) && !stack@.contains(p) && in_bounds(n, q)
                        && #[trigger] adjacent(p, q) && at(self@, q) == start ==> visited@.contains(
                        q,
                    ),
            decreases n * n - visited@.len(), stack@.len(),
        {
            proof {
                lemma_bounded_coord_seq(visited@, n);
            }
            let ghost visited0 = visited@;
            let ghost stack_pre = stack@;
            let p = stack.pop().unwrap();
            proof {
                assert(stack_pre.last() == p);
                assert(stack_pre.contains(p));
                assert(visited@.contains(p));
                assert(!stack@.contains(p)) by {
                    if stack@.contains(p) {
                        let i = choose|i: int| 0 <= i < stack@.len() && stack@[i] == p;
                        assert(stack_pre[i] == p);
                        assert(stack_pre[stack_pre.len() - 1] == p);
                    }
                }
                assert(forall|q: Coord| #[trigger] stack@.contains(q) ==> stack_pre.contains(q));
                assert forall|q: Coord| #[trigger] stack_pre.contains(q) && q != p implies stack@.contains(
                    q,
                ) by {
                    let i = choose|i: int| 0 <= i < stack_pre.len() && stack_pre[i] == q;
                    assert(i < stack_pre.len() - 1);
                    assert(stack@[i] == q);
                }
            }
            let ghost stack0_len = stack@.len() as int;
            let neighbors = self.get_adjacent_points(p.0, p.1);
            proof {
                lemma_adjacent_seq(n, p.0, p.1);
            }
            let mut i: usize = 0;
            while i < neighbors.len()
                invariant
                    self.wf(),
                    n == SIZE as int,
                    at(self@, s) == start,
                    in_bounds(n, s),
                    neighbors@ == adjacent_seq(n, p.0, p.1),
                    i <= neighbors@.len(),
                    in_bounds(n, p),
                    visited@.no_duplicates(),
                    stack@.no_duplicates(),
                    visited@.contains(s),
                    visited@.contains(p),
                    !stack@.contains(p),
                    forall|q: Coord| #[trigger] stack@.contains(q) ==> visited@.contains(q),
                    forall|q: Coord|
                        #[trigger] visited@.contains(q) ==> in_bounds(n, q) && connected(
                            self@,
                            n,
                            s,
                            q,
                        ),
                    forall|p2: Coord, q: Coord|
                        #[trigger] visited@.contains(p2) && !stack@.contains(p2) && p2 != p
                            && in_bounds(n, q) && #[trigger] adjacent(p2, q) && at(self@, q)
                            == start ==> visited@.contains(q),
                    forall|k: int|
                        0 <= k < i && in_bounds(n, #[trigger] neighbors@[k]) && at(
                            self@,
                            neighbors@[k],
                        ) == start ==> visited@.contains(neighbors@[k]),
                    visited@.len() >= visited0.len(),
                    forall|q: Coord| visited0.contains(q) ==> #[trigger] visited@.contains(q),
                    stack@.len() - stack0_len <= visited@.len() - visited0.len(),
                decreases neighbors@.len() - i,
            {
                let q = neighbors[i];
                proof {
                    assert(neighbors@.contains(neighbors@[i as int]));
                    assert(adjacent(p, q));
                }
                if q.0 < SIZE && q.1 < SIZE {
                    let qpt = self.get_point(q.0, q.1).unwrap();
                    if qpt == start {
                        proof {
                            lemma_connected_step(self@, n, s, p, q);
                        }
                        if !contains_coord(&visited, q) {
                            let ghost vis_pre = visited@;
                            let ghost stk_pre = stack@;
                            visited.push(q);
                            stack.push(q);
                            proof {
                                assert(visited@ == vis_pre.push(q));
                                assert(stack@ == stk_pre.push(q));
                                assert(!vis_pre.contains(q));
                                assert(!stk_pre.contains(q));
                                lemma_push_no_dup(vis_pre, q);
                                lemma_push_no_dup(stk_pre, q);
                                assert(stack@.contains(q));
                            }
                        }
                    }
                }
                i += 1;
            }
            proof {
                assert forall|p2: Coord, q: Coord|
                    #[trigger] visited@.contains(p2) && !stack@.contains(p2) && in_bounds(n, q)
                        && #[trigger] adjacent(p2, q) && at(self@, q) == start implies visited@.contains(
                    q,
                ) by {
                    if p2 == p {
                        assert(adjacent_seq(n, p.0, p.1).contains(q));
                        let k = choose|k: int|
                            0 <= k < neighbors@.len() && neighbors@[k] == q;
                    }
                }
                lemma_bounded_coord_seq(visited@, n);
            }
        }
        proof {
            let vset = visited@.to_set();
            assert forall|q: Coord| connected(self@, n, s, q) implies visited@.contains(q) by {
                assert(vset.contains(s));
                assert forall|p2: Coord, q2: Coord|
                    #[trigger] vset.contains(p2) && in_bounds(n, q2) && #[trigger] adjacent(p2, q2)
                        && at(self@, q2) == at(self@, s) implies vset.contains(q2) by {
                    assert(visited@.contains(p2));
                    assert(stack@.len() == 0);
                    assert(!stack@.contains(p2));
                    assert(visited@.contains(q2));
                }
                lemma_closed_contains_component(self@, n, s, q, vset);
                assert(visited@.contains(q));
            }
        }
        visited
    }

    /// Whether two boards show the same position.
    pub fn grid_equals(&self, other: &Board<SIZE>) -> (res: bool)
        requires
            self.wf(),
            other.wf(),
        ensures
            res == (self@ == other@),
    {
        let ghost n = SIZE as int;
        let mut r: usize = 0;
        while r < SIZE
            invariant
                self.wf(),
                other.wf(),
                n == SIZE as int,
                r <= SIZE,
                forall|i: int, j: int|
                    0 <= i < r && 0 <= j < n ==> #[trigger] self@[i][j] == other@[i][j],
            decreases SIZE - r,
        {
            let mut c: usize = 0;
            while c < SIZE
                invariant
                    self.wf(),
                    other.wf(),
                    n == SIZE as int,
                    r < SIZE,
                    c <= SIZE,
                    forall|i: int, j: int|
                        0 <= i < r && 0 <= j < n ==> #[trigger] self@[i][j] == other@[i][j],
                    forall|j: int| 0 <= j < c ==> #[trigger] self@[r as int][j] == other@[r as int][j],
                decreases SIZE - c,
            {
                let a = self.get_point(r, c).unwrap();
                let b = other.get_point(r, c).unwrap();
                if a != b {
                    assert(self@[r as int][c as int] != other@[r as int][c as int]);
                    return false;
                }
                c += 1;
            }
            r += 1;
        }
        proof {
            assert(self@ =~~= other@);
        }
        true
    }

    /// The number of distinct liberties of a group of coordinates: empty
    /// in-bounds intersections adjacent to at least one member, each counted
    /// once however many members it touches.
    #[verifier::rlimit(50)]
    pub fn count_liberties(&self, group: &Vec<(usize, usize)>) -> (res: usize)
        requires
            self.wf(),
        ensures
            lib_set(self@, SIZE as int, group@.to_set()).finite(),
            res == lib_set(self@, SIZE as int, group@.to_set()).len(),
    {
        let ghost n = SIZE as int;
        let mut libs: Vec<(usize, usize)> = Vec::new();
        let mut i: usize = 0;
        while i < group.len()
            invariant
                self.wf(),
                n == SIZE as int,
                i <= group@.len(),
                libs@.no_duplicates(),
                forall|q: Coord|
                    #[trigger] libs@.contains(q) ==> in_bounds(n, q) && at(self@, q)
                        == Point::Empty && (exists|k: int|
                        0 <= k < i && adjacent(#[trigger] group@[k], q)),
                forall|k: int, q: Coord|
                    0 <= k < i && #[trigger] adjacent(group@[k], q) && in_bounds(n, q) && at(
                        self@,
                        q,
                    ) == Point::Empty ==> libs@.contains(q),
            decreases group@.len() - i,
        {
            let p = group[i];
            let neighbors = self.get_adjacent_points(p.0, p.1);
            proof {
                lemma_adjacent_seq(n, p.0, p.1);
            }
            let mut j: usize = 0;
            while j < neighbors.len()
                invariant
                    self.wf(),
                    n == SIZE as int,
                    i < group@.len(),
                    p == group@[i as int],
                    neighbors@ == adjacent_seq(n, p.0, p.1),
                    forall|q: Coord|
                        in_bounds(n, q) ==> (neighbors@.contains(q) <==> adjacent(p, q)),
                    j <= neighbors@.len(),
                    libs@.no_duplicates(),
                    forall|q: Coord|
                        #[trigger] libs@.contains(q) ==> in_bounds(n, q) && at(self@, q)
                            == Point::Empty && ((exists|k: int|
                            0 <= k < i && adjacent(#[trigger] group@[k], q)) || adjacent(p, q)),
                    forall|k: int, q: Coord|
                        0 <= k < i && #[trigger] adjacent(group@[k], q) && in_bounds(n, q) && at(
                            self@,
                            q,
                        ) == Point::Empty ==> libs@.contains(q),
                    forall|m: int|
                        0 <= m < j && in_bounds(n, #[trigger] neighbors@[m]) && at(
                            self@,
                            neighbors@[m],
                        ) == Point::Empty ==> libs@.contains(neighbors@[m]),
                decreases neighbors@.len() - j,
            {
                let q = neighbors[j];
                proof {
                    assert(neighbors@.contains(neighbors@[j as int]));
                    assert(adjacent(p, q));
                }
                if q.0 < SIZE && q.1 < SIZE {
                    let qpt = self.get_point(q.0, q.1).unwrap();
                    if qpt == Point::Empty {
                        if !contains_coord(&libs, q) {
                            libs.push(q);
                        }
                    }
                }
                j += 1;
            }
            proof {
                assert forall|k: int, q: Coord|
                    0 <= k < i + 1 && #[trigger] adjacent(group@[k], q) && in_bounds(n, q) && at(
                        self@,
                        q,
                    ) == Point::Empty implies libs@.contains(q) by {
                    if k == i {
                        assert(neighbors@.contains(q));
                        let m = choose|m: int| 0 <= m < neighbors@.len() && neighbors@[m] == q;
                    }
                }
            }
            i += 1;
        }
        proof {
            assert forall|q: Coord| #[trigger] libs@.contains(q) implies lib_set(
                self@,
                n,
                group@.to_set(),
            ).contains(q) by {
                let k = choose|k: int| 0 <= k < group@.len() && adjacent(#[trigger] group@[k], q);
                assert(group@.contains(group@[k]));
                assert(group@.to_set().contains(group@[k]));
            }
            assert forall|q: Coord|
                lib_set(self@, n, group@.to_set()).contains(q) implies #[trigger] libs@.contains(
                q,
            ) by {
                let p = choose|p: Coord| #[trigger] group@.to_set().contains(p) && adjacent(p, q);
                assert(group@.contains(p));
                let k = choose|k: int| 0 <= k < group@.len() && group@[k] == p;
            }
            assert(libs@.to_set() =~= lib_set(self@, n, group@.to_set()));
            libs@.unique_seq_to_set();
        }
        libs.len()
    }
}

/// Linear membership scan for a coordinate.
pub(crate) fn contains_coord(v: &Vec<(usize, usize)>, p: (usize, usize)) -> (res: bool)
    ensures
        res == v@.contains(p),
{
    let mut i: usize = 0;
    while i < v.len()
        invariant
            i <= v@.len(),
            forall|k: int| 0 <= k < i ==> v@[k] != p,
        decreases v@.len() - i,
    {
        if v[i].0 == p.0 && v[i].1 == p.1 {
            assert(v@[i as int] == p);
            return true;
        }
        i += 1;
    }
    false
}

/// An isolated stone on an otherwise empty board forms a group of exactly
/// itself, and its liberties are exactly its in-bounds orthogonal
/// neighbors.
pub proof fn lemma_isolated_stone(g: Grid, n: int, p: Coord, pl: Player)
    requires
        n <= usize::MAX,
        grid_wf(g, n),
        in_bounds(n, p),
        at(g, p) == Point::Stone(pl),
        forall|q: Coord| in_bounds(n, q) && q != p ==> at(g, q) == Point::Empty,
    ensures
        component(g, n, p) =~= set![p],
        lib_set(g, n, set![p]).finite(),
        lib_set(g, n, set![p]).len() == adjacent_seq(n, p.0, p.1).len(),
{
    lemma_connected_refl(g, n, p);
    assert forall|b: Coord| #[trigger] component(g, n, p).contains(b) implies b == p by {
        let ps = choose|ps: Seq<Coord>| is_path(g, n, ps) && ps.first() == p && ps.last() == b;
        if ps.len() > 1 {
            assert(adjacent(ps[0], ps[1]));
            assert(ps[1] != p) by {
                assert(adjacent(p, ps[1]));
            }
            assert(in_bounds(n, ps[1]));
            assert(at(g, ps[1]) == at(g, p));
            assert(false);
        }
    }
    lemma_adjacent_seq(n, p.0, p.1);
    let adj = adjacent_seq(n, p.0, p.1);
    assert forall|q: Coord| #[trigger] lib_set(g, n, set![p]).contains(q) implies adj.contains(
        q,
    ) by {
        assert(adjacent(p, q));
    }
    assert forall|q: Coord| #[trigger] adj.contains(q) implies lib_set(g, n, set![p]).contains(
        q,
    ) by {
        assert(adjacent(p, q));
        assert(in_bounds(n, q));
        assert(q != p);
        assert(set![p].contains(p));
    }
    assert(lib_set(g, n, set![p]) =~= adj.to_set());
    adj.unique_seq_to_set();
}

} // verus!

//! The classical rules engine: turn order, captures, the ko point,
//! positional-superko history, passing, territory and scoring.
//!
//! The mathematical model is `BadukView`: the abstract image of a game
//! state, with one transition function `apply_view` that the executable
//! `make_move` is proved to implement.

use crate::board::adjacent;
use crate::board::adjacent_seq;
use crate::board::at;
use crate::board::component;
use crate::board::connected;
use crate::board::contains_coord;
use crate::board::empty_grid;
use crate::board::grid_wf;
use crate::board::has_empty_neighbor;
use crate::board::in_bounds;
use crate::board::lemma_adjacent_seq;
use crate::board::lemma_connected_refl;
use crate::board::lemma_connected_sym;
use crate::board::lemma_connected_trans;
use crate::board::lib_set;
use crate::board::set_cell;
use crate::board::Board;
use crate::board::Coord;
use crate::board::Grid;
use crate::board::Player;
use crate::board::Point;
use crate::game::BadukMove;
use crate::game::MoveError;
use crate::game::StatelessGame;
use vstd::prelude::*;
use vstd::seq_lib::*;

verus! {

broadcast use vstd::seq_lib::lemma_seq_contains_after_push, vstd::seq_lib::lemma_seq_empty_contains_nothing, vstd::seq_lib::lemma_seq_concat_contains_all_elements;

/// The abstract state of a classical game: the mathematical image of every
/// field of `BadukClassical`.
pub struct BadukView {
    pub turn: Player,
    pub grid: Grid,
    pub captures: (int, int),
    pub ko_point: Option<Coord>,
    pub consecutive_passes: int,
    pub position_history: Seq<Grid>,
}

/// How many intersections of a row are in state `pt`.
pub open spec fn row_count(row: Seq<Point>, pt: Point) -> nat
    decreases row.len(),
{
    if row.len() == 0 {
        0
    } else {
        row_count(row.drop_last(), pt) + (if row.last() == pt {
            1nat
        } else {
            0
        })
    }
}

/// How many intersections of a grid are in state `pt`.
pub open spec fn grid_count(g: Grid, pt: Point) -> nat
    decreases g.len(),
{
    if g.len() == 0 {
        0
    } else {
        grid_count(g.drop_last(), pt) + row_count(g.last(), pt)
    }
}

/// How many stones stand on the grid, of either color.
pub open spec fn occupied(g: Grid) -> int {
    grid_count(g, Point::Stone(Player::Black)) as int + grid_count(g, Point::Stone(Player::White)) as int
}

proof fn lemma_row_count_update(row: Seq<Point>, c: int, pt: Point, t: Point)
    requires
        0 <= c < row.len(),
    ensures
        row_count(row.update(c, pt), t) == row_count(row, t) - (if row[c] == t {
            1int
        } else {
            0
        }) + (if pt == t {
            1int
        } else {
            0
        }),
    decreases row.len(),
{
    let upd = row.update(c, pt);
    if c == row.len() - 1 {
        assert(upd.drop_last() =~= row.drop_last());
        assert(upd.last() == pt);
    } else {
        assert(upd.drop_last() =~= row.drop_last().update(c, pt));
        lemma_row_count_update(row.drop_last(), c, pt, t);
        assert(upd.last() == row.last());
    }
}

proof fn lemma_grid_count_set_cell(g: Grid, p: Coord, pt: Point, t: Point)
    requires
        (p.0 as int) < g.len(),
        (p.1 as int) < g[p.0 as int].len(),
    ensures
        grid_count(set_cell(g, p, pt), t) == grid_count(g, t) - (if at(g, p) == t {
            1int
        } else {
            0
        }) + (if pt == t {
            1int
        } else {
            0
        }),
    decreases g.len(),
{
    let g2 = set_cell(g, p, pt);
    if p.0 as int == g.len() - 1 {
        assert(g2.drop_last() =~= g.drop_last());
        assert(g2.last() == g.last().update(p.1 as int, pt));
        lemma_row_count_update(g.last(), p.1 as int, pt, t);
    } else {
        assert(g2.last() == g.last());
        assert(g2.drop_last() =~= set_cell(g.drop_last(), p, pt));
        lemma_grid_count_set_cell(g.drop_last(), p, pt, t);
    }
}

proof fn lemma_row_count_all(row: Seq<Point>, pt: Point, t: Point)
    requires
        forall|j: int| 0 <= j < row.len() ==> row[j] == pt,
        pt != t,
    ensures
        row_count(row, t) == 0,
    decreases row.len(),
{
    if row.len() > 0 {
        lemma_row_count_all(row.drop_last(), pt, t);
    }
}

/// The empty grid holds no stones.
pub proof fn lemma_empty_grid_count(n: int, t: Point)
    requires
        0 <= n,
        t != Point::Empty,
    ensures
        grid_count(empty_grid(n), t) == 0,
{
    lemma_grid_count_all_empty(empty_grid(n), t);
}

proof fn lemma_grid_count_all_empty(g: Grid, t: Point)
    requires
        forall|i: int, j: int| 0 <= i < g.len() && 0 <= j < g[i].len() ==> #[trigger] g[i][j] == Point::Empty,
        t != Point::Empty,
    ensures
        grid_count(g, t) == 0,
    decreases g.len(),
{
    if g.len() > 0 {
        lemma_row_count_all(g.last(), Point::Empty, t);
        lemma_grid_count_all_empty(g.drop_last(), t);
    }
}

/// `g` with a stone of `pl` placed at `p`.
pub open spec fn place_grid(g: Grid, p: Coord, pl: Player) -> Grid {
    set_cell(g, p, Point::Stone(pl))
}

/// A stone of `pl` whose whole group has no liberty: every stone connected
/// to it lacks an empty neighbor.
pub open spec fn stone_captured(g: Grid, n: int, q: Coord, pl: Player) -> bool {
    &&& in_bounds(n, q)
    &&& at(g, q) == Point::Stone(pl)
    &&& forall|w: Coord| #[trigger] connected(g, n, q, w) ==> !has_empty_neighbor(g, n, w)
}

/// All stones of `pl` that stand captured on `g`.
pub open spec fn captured_set(g: Grid, n: int, pl: Player) -> Set<Coord> {
    Set::new(|q: Coord| stone_captured(g, n, q, pl))
}

/// `g` with every coordinate of `s` cleared.
pub open spec fn remove_set_grid(g: Grid, s: Set<Coord>) -> Grid {
    Seq::new(
        g.len(),
        |r: int|
            Seq::new(
                g[r].len(),
                |c: int|
                    if s.contains((r as usize, c as usize)) {
                        Point::Empty
                    } else {
                        g[r][c]
                    },
            ),
    )
}

/// `g` after removing every captured stone of `pl`.
pub open spec fn after_captures(g: Grid, n: int, pl: Player) -> Grid {
    remove_set_grid(g, captured_set(g, n, pl))
}

/// Playing at `p` is suicide: it captures no adjacent opposing group, yet
/// leaves the mover's own group without a liberty.
pub open spec fn is_suicide(g: Grid, n: int, p: Coord, pl: Player) -> bool {
    let g2 = place_grid(g, p, pl);
    let opp = pl.opponent_spec();
    &&& !(exists|q: Coord|
        in_bounds(n, q) && #[trigger] adjacent(p, q) && stone_captured(g2, n, q, opp))
    &&& stone_captured(g2, n, p, pl)
}

/// Playing at `p` and resolving the resulting captures recreates a board
/// position recorded in the history.
pub open spec fn repeats_position(g: Grid, hist: Seq<Grid>, n: int, p: Coord, pl: Player) -> bool {
    let g2 = place_grid(g, p, pl);
    let g3 = after_captures(g2, n, pl.opponent_spec());
    exists|i: int| 0 <= i < hist.len() && #[trigger] hist[i] == g3
}

/// The full legality predicate for placing a stone: the point is empty and
/// on the board, is not the ko point, the play is not suicide, and it does
/// not repeat a recorded position.
pub open spec fn legal_play(v: BadukView, n: int, p: Coord) -> bool {
    &&& in_bounds(n, p)
    &&& at(v.grid, p) == Point::Empty
    &&& v.ko_point != Some(p)
    &&& !is_suicide(v.grid, n, p, v.turn)
    &&& !repeats_position(v.grid, v.position_history, n, p, v.turn)
}

/// Legality of a move: passing is always legal.
pub open spec fn is_legal_view(v: BadukView, n: int, mv: BadukMove) -> bool {
    match mv {
        BadukMove::Pass => true,
        BadukMove::Play { coordinates } => legal_play(v, n, coordinates),
    }
}

/// The first in-bounds empty coordinate of a sequence.
pub open spec fn first_empty(g: Grid, n: int, s: Seq<Coord>) -> Option<Coord>
    decreases s.len(),
{
    if s.len() == 0 {
        None
    } else if in_bounds(n, s[0]) && at(g, s[0]) == Point::Empty {
        Some(s[0])
    } else {
        first_empty(g, n, s.drop_first())
    }
}

/// The ko point after a play at `p` that captured `captured` stones, on the
/// settled grid `g3`: set only when exactly one stone was taken and the new
/// stone stands alone with exactly one liberty; that liberty is the ko
/// point.
pub open spec fn ko_point_after(g3: Grid, n: int, p: Coord, captured: nat) -> Option<Coord> {
    if captured == 1 && (forall|w: Coord| #[trigger] connected(g3, n, p, w) ==> w == p) && lib_set(
        g3,
        n,
        component(g3, n, p),
    ).len() == 1 {
        first_empty(g3, n, adjacent_seq(n, p.0, p.1))
    } else {
        None
    }
}

/// The state after a legal play at `p`: the stone is placed, every captured
/// opposing stone is lifted, the mover's capture counter grows by the
/// number taken, the ko point is recomputed, the pass counter resets, the
/// turn flips, and the pre-move position joins the history.
pub open spec fn apply_play_view(v: BadukView, n: int, p: Coord) -> BadukView {
    let g2 = place_grid(v.grid, p, v.turn);
    let opp = v.turn.opponent_spec();
    let cap = captured_set(g2, n, opp);
    let g3 = remove_set_grid(g2, cap);
    BadukView {
        turn: opp,
        grid: g3,
        captures: if v.turn == Player::Black {
            (v.captures.0 + cap.len(), v.captures.1)
        } else {
            (v.captures.0, v.captures.1 + cap.len())
        },
        ko_point: ko_point_after(g3, n, p, cap.len()),
        consecutive_passes: 0,
        position_history: v.position_history.push(v.grid),
    }
}

/// The state after a pass: the turn flips, the ko point clears, the pass
/// counter grows by one (it saturates at its type's top, far past the
/// game-over threshold of two).
pub open spec fn apply_pass_view(v: BadukView) -> BadukView {
    BadukView {
        turn: v.turn.opponent_spec(),
        grid: v.grid,
        captures: v.captures,
        ko_point: None,
        consecutive_passes: if v.consecutive_passes < 255 {
            v.consecutive_passes + 1
        } else {
            255
        },
        position_history: v.position_history,
    }
}

/// The single state-transition function of the rules engine.
pub open spec fn apply_view(v: BadukView, n: int, mv: BadukMove) -> BadukView {
    match mv {
        BadukMove::Pass => apply_pass_view(v),
        BadukMove::Play { coordinates } => apply_play_view(v, n, coordinates),
    }
}

/// Internal consistency of an abstract state: the grid and each recorded
/// position are full squares, the history starts with at least the opening
/// position, and the capture counters plus the stones still standing never
/// exceed the number of completed placements.
pub open spec fn wf_view(v: BadukView, n: int) -> bool {
    &&& grid_wf(v.grid, n)
    &&& v.position_history.len() >= 1
    &&& forall|i: int| 0 <= i < v.position_history.len() ==> grid_wf(#[trigger] v.position_history[i], n)
    &&& v.captures.0 >= 0
    &&& v.captures.1 >= 0
    &&& 0 <= v.consecutive_passes <= 255
    &&& v.captures.0 + v.captures.1 + occupied(v.grid) <= v.position_history.len() - 1
}

/// Everything connected to a stone of a liberty-less group is captured with
/// it.
proof fn lemma_captured_component(g: Grid, n: int, s: Coord, pl: Player)
    requires
        in_bounds(n, s),
        at(g, s) == Point::Stone(pl),
        lib_set(g, n, component(g, n, s)).finite(),
        lib_set(g, n, component(g, n, s)).len() == 0,
    ensures
        forall|w: Coord| #[trigger] connected(g, n, s, w) ==> stone_captured(g, n, w, pl),
{
    lib_set(g, n, component(g, n, s)).lemma_len0_is_empty();
    assert forall|w: Coord| #[trigger] connected(g, n, s, w) implies stone_captured(
        g,
        n,
        w,
        pl,
    ) by {
        assert(in_bounds(n, w) && at(g, w) == at(g, s)) by {
            let ps = choose|ps: Seq<Coord>|
                crate::board::is_path(g, n, ps) && ps.first() == s && ps.last() == w;
            assert(ps[ps.len() - 1] == w);
        }
        assert forall|w2: Coord| #[trigger] connected(g, n, w, w2) implies !has_empty_neighbor(
            g,
            n,
            w2,
        ) by {
            lemma_connected_trans(g, n, s, w, w2);
            if has_empty_neighbor(g, n, w2) {
                let e = choose|e: Coord|
                    in_bounds(n, e) && #[trigger] adjacent(w2, e) && at(g, e) == Point::Empty;
                assert(component(g, n, s).contains(w2));
                assert(lib_set(g, n, component(g, n, s)).contains(e));
            }
        }
    }
}

/// A stone whose group still has a liberty is not captured.
proof fn lemma_not_captured_if_libs(g: Grid, n: int, s: Coord, pl: Player)
    requires
        in_bounds(n, s),
        at(g, s) == Point::Stone(pl),
        lib_set(g, n, component(g, n, s)).len() != 0,
        lib_set(g, n, component(g, n, s)).finite(),
    ensures
        !stone_captured(g, n, s, pl),
{
    let ls = lib_set(g, n, component(g, n, s));
    assert(exists|e: Coord| ls.contains(e)) by {
        if !(exists|e: Coord| ls.contains(e)) {
            assert(ls =~= Set::<Coord>::empty());
        }
    }
    let e = choose|e: Coord| ls.contains(e);
    let w = choose|w: Coord| #[trigger] component(g, n, s).contains(w) && adjacent(w, e);
    assert(connected(g, n, s, w));
    assert(has_empty_neighbor(g, n, w)) by {
        assert(in_bounds(n, e) && adjacent(w, e) && at(g, e) == Point::Empty);
    }
}

/// Connected stones have the same component.
proof fn lemma_component_eq(g: Grid, n: int, a: Coord, b: Coord)
    requires
        connected(g, n, a, b),
    ensures
        component(g, n, a) =~= component(g, n, b),
{
    lemma_connected_sym(g, n, a, b);
    assert forall|w: Coord| #[trigger] connected(g, n, a, w) implies connected(g, n, b, w) by {
        lemma_connected_trans(g, n, b, a, w);
    }
    assert forall|w: Coord| #[trigger] connected(g, n, b, w) implies connected(g, n, a, w) by {
        lemma_connected_trans(g, n, a, b, w);
    }
}

/// Two duplicate-free sequences with no common element concatenate to a
/// duplicate-free sequence.
proof fn lemma_concat_no_dup<A>(s1: Seq<A>, s2: Seq<A>)
    requires
        s1.no_duplicates(),
        s2.no_duplicates(),
        forall|x: A| !(#[trigger] s1.contains(x) && s2.contains(x)),
    ensures
        (s1 + s2).no_duplicates(),
{
    let s = s1 + s2;
    assert forall|i: int, j: int| 0 <= i < j < s.len() implies s[i] != s[j] by {
        if i < s1.len() && j >= s1.len() {
            assert(s1.contains(s1[i]));
            assert(s2.contains(s2[j - s1.len()]));
        }
    }
}

/// Append every element of `src` to `dst`.
fn append_coords(dst: &mut Vec<(usize, usize)>, src: &Vec<(usize, usize)>)
    ensures
        final(dst)@ == old(dst)@ + src@,
{
    let mut k: usize = 0;
    while k < src.len()
        invariant
            k <= src@.len(),
            dst@ == old(dst)@ + src@.subrange(0, k as int),
        decreases src@.len() - k,
    {
        dst.push(src[k]);
        assert(dst@ =~= old(dst)@ + src@.subrange(0, k + 1));
        k += 1;
    }
    assert(dst@ =~= old(dst)@ + src@);
}

/// One row-major sweep of the board: the coordinates of every opposing
/// stone whose group has no liberty.
#[verifier::rlimit(100)]
fn collect_captured<const SIZE: usize>(board: &Board<SIZE>, opponent: Player) -> (res: Vec<
    (usize, usize),
>)
    requires
        board.wf(),
    ensures
        res@.no_duplicates(),
        forall|q: Coord|
            #[trigger] res@.contains(q) <==> stone_captured(board@, SIZE as int, q, opponent),
{
    let ghost n = SIZE as int;
    let ghost g = board@;
    let mut to_remove: Vec<(usize, usize)> = Vec::new();
    let mut r: usize = 0;
    while r < SIZE
        invariant
            board.wf(),
            g == board@,
            n == SIZE as int,
            r <= SIZE,
            to_remove@.no_duplicates(),
            forall|q: Coord|
                #[trigger] to_remove@.contains(q) ==> stone_captured(g, n, q, opponent),
            forall|q: Coord, w: Coord|
                #[trigger] to_remove@.contains(q) && #[trigger] connected(g, n, q, w)
                    ==> to_remove@.contains(w),
            forall|q: Coord|
                stone_captured(g, n, q, opponent) && (q.0 as int) < r ==> to_remove@.contains(q),
        decreases SIZE - r,
    {
        let mut c: usize = 0;
        while c < SIZE
            invariant
                board.wf(),
                g == board@,
                n == SIZE as int,
                r < SIZE,
                c <= SIZE,
                to_remove@.no_duplicates(),
                forall|q: Coord|
                    #[trigger] to_remove@.contains(q) ==> stone_captured(g, n, q, opponent),
                forall|q: Coord, w: Coord|
                    #[trigger] to_remove@.contains(q) && #[trigger] connected(g, n, q, w)
                        ==> to_remove@.contains(w),
                forall|q: Coord|
                    stone_captured(g, n, q, opponent) && ((q.0 as int) < r || (q.0 == r && (
                    q.1 as int) < c)) ==> to_remove@.contains(q),
            decreases SIZE - c,
        {
            let ghost me: Coord = (r, c);
            let pt = board.get_point(r, c).unwrap();
            if pt == Point::Stone(opponent) {
                let group = board.get_group(r, c);
                proof {
                    assert(group@.contains(me)) by {
                        lemma_connected_refl(g, n, me);
                    }
                }
                let libs = board.count_liberties(&group);
                proof {
                    assert(group@.to_set() =~= component(g, n, me));
                }
                if libs == 0 {
                    proof {
                        lemma_captured_component(g, n, me, opponent);
                    }
                    if !contains_coord(&to_remove, (r, c)) {
                        let ghost pre = to_remove@;
                        proof {
                            assert forall|x: Coord| !(#[trigger] pre.contains(x)
                                && group@.contains(x)) by {
                                if pre.contains(x) && group@.contains(x) {
                                    assert(connected(g, n, me, x));
                                    lemma_connected_sym(g, n, me, x);
                                    assert(pre.contains(me));
                                }
                            }
                            lemma_concat_no_dup(pre, group@);
                        }
                        append_coords(&mut to_remove, &group);
                        proof {
                            assert forall|q: Coord, w: Coord|
                                #[trigger] to_remove@.contains(q) && #[trigger] connected(
                                g,
                                n,
                                q,
                                w,
                            ) implies to_remove@.contains(w) by {
                                if pre.contains(q) {
                                } else {
                                    assert(group@.contains(q));
                                    assert(connected(g, n, me, q));
                                    lemma_connected_trans(g, n, me, q, w);
                                    assert(group@.contains(w));
                                }
                            }
                        }
                    }
                } else {
                    proof {
                        lemma_not_captured_if_libs(g, n, me, opponent);
                    }
                }
            }
            proof {
                assert forall|q: Coord|
                    stone_captured(g, n, q, opponent) && ((q.0 as int) < r || (q.0 == r && (
                    q.1 as int) < c + 1)) implies to_remove@.contains(q) by {
                    if q == me {
                        assert(at(g, me) == Point::Stone(opponent));
                        assert(to_remove@.contains(me)) by {
                            if !to_remove@.contains(me) {
                                assert(false);
                            }
                        }
                    }
                }
            }
            c += 1;
        }
        r += 1;
    }
    proof {
        assert forall|q: Coord| stone_captured(g, n, q, opponent) implies to_remove@.contains(
            q,
        ) by {
            assert((q.0 as int) < n);
        }
    }
    to_remove
}

/// Clearing one more coordinate commutes with the pointwise removal of a
/// set of coordinates.
proof fn lemma_remove_one_more(g: Grid, n: int, s: Set<Coord>, p: Coord)
    requires
        grid_wf(g, n),
        n <= usize::MAX,
        in_bounds(n, p),
    ensures
        set_cell(remove_set_grid(g, s), p, Point::Empty) == remove_set_grid(g, s.insert(p)),
{
    let a = set_cell(remove_set_grid(g, s), p, Point::Empty);
    let b = remove_set_grid(g, s.insert(p));
    assert forall|r: int| 0 <= r < g.len() implies a[r] =~= b[r] by {
        assert(g[r].len() == n);
        if r == p.0 as int {
            assert forall|cc: int| 0 <= cc < g[r].len() implies a[r][cc] == b[r][cc] by {
                if cc != p.1 as int {
                    assert(cc < n <= usize::MAX);
                    assert((cc as usize) as int == cc);
                    assert((r as usize, cc as usize) != p);
                }
            }
        } else {
            assert forall|cc: int| 0 <= cc < g[r].len() implies a[r][cc] == b[r][cc] by {
                assert(0 <= r < n <= usize::MAX);
                assert((r as usize) as int == r);
                assert((r as usize, cc as usize) != p);
            }
        }
    }
    assert(a =~~= b);
}

/// Remove every captured stone of `opponent` from the board, and report how
/// many were taken.
#[verifier::rlimit(100)]
fn remove_captured_on_board<const SIZE: usize>(board: &mut Board<SIZE>, opponent: Player) -> (captured: usize)
    requires
        old(board).wf(),
    ensures
        final(board).wf(),
        final(board)@ == after_captures(old(board)@, SIZE as int, opponent),
        captured_set(old(board)@, SIZE as int, opponent).finite(),
        captured == captured_set(old(board)@, SIZE as int, opponent).len(),
        occupied(final(board)@) == occupied(old(board)@) - captured,
{
    let ghost n = SIZE as int;
    let ghost g0 = board@;
    let to_remove = collect_captured(board, opponent);
    let ghost cap = captured_set(g0, n, opponent);
    proof {
        assert(to_remove@.to_set() =~= cap);
        to_remove@.unique_seq_to_set();
        assert(to_remove@.subrange(0, 0) =~= Seq::<Coord>::empty());
        assert(board@ =~~= remove_set_grid(g0, to_remove@.subrange(0, 0).to_set()));
    }
    let mut idx: usize = 0;
    while idx < to_remove.len()
        invariant
            board.wf(),
            n == SIZE as int,
            grid_wf(g0, n),
            idx <= to_remove@.len(),
            to_remove@.no_duplicates(),
            forall|q: Coord|
                #[trigger] to_remove@.contains(q) <==> stone_captured(g0, n, q, opponent),
            board@ == remove_set_grid(g0, to_remove@.subrange(0, idx as int).to_set()),
            occupied(board@) == occupied(g0) - idx,
        decreases to_remove@.len() - idx,
    {
        let ghost pre = board@;
        let ghost prefix = to_remove@.subrange(0, idx as int);
        let p = to_remove[idx];
        proof {
            assert(to_remove@.contains(p)) by {
                assert(to_remove@[idx as int] == p);
            }
            assert(stone_captured(g0, n, p, opponent));
            assert(!prefix.to_set().contains(p)) by {
                if prefix.contains(p) {
                    let k = choose|k: int| 0 <= k < prefix.len() && prefix[k] == p;
                    assert(to_remove@[k] == p);
                }
            }
            assert(at(pre, p) == at(g0, p));
            assert(in_bounds(n, p));
        }
        board.remove_stone(p.0, p.1);
        proof {
            assert(board@ == set_cell(pre, p, Point::Empty));
            lemma_remove_one_more(g0, n, prefix.to_set(), p);
            assert(to_remove@.subrange(0, idx + 1) =~= prefix + seq![p]);
            Seq::<Coord>::lemma_to_set_insert_commutes(prefix, p);
            assert(prefix.to_set().insert(p) =~= to_remove@.subrange(0, idx + 1).to_set());
            assert(board@ == remove_set_grid(g0, to_remove@.subrange(0, idx + 1).to_set()));
            lemma_grid_count_set_cell(pre, p, Point::Empty, Point::Stone(Player::Black));
            lemma_grid_count_set_cell(pre, p, Point::Empty, Point::Stone(Player::White));
            assert(occupied(board@) == occupied(pre) - 1);
        }
        idx += 1;
    }
    proof {
        assert(to_remove@.subrange(0, to_remove@.len() as int) =~= to_remove@);
        assert(board@ == remove_set_grid(g0, cap));
    }
    to_remove.len()
}

/// The state of one whole classical game: whose turn it is, the live
/// board, the capture counters (black's, then white's), the ko point, the
/// run of consecutive passes, and every position since the opening, the
/// current one excluded.
pub struct BadukClassical<const SIZE: usize> {
    pub turn: Player,
    pub board: Board<SIZE>,
    pub captures: (usize, usize),
    pub ko_point: Option<(usize, usize)>,
    pub consecutive_passes: u8,
    pub position_history: Vec<Board<SIZE>>,
}

/// The three supported board sizes, as distinct instantiations.
pub enum SupportedGames {
    BadukClassic(BadukClassical<19>),
    BadukBeginner(BadukClassical<13>),
    BadukNewbie(BadukClassical<9>),
}

/// The abstract state of a fresh game on an empty `n` by `n` board.
pub open spec fn initial_view(n: int) -> BadukView {
    BadukView {
        turn: Player::Black,
        grid: empty_grid(n),
        captures: (0, 0),
        ko_point: None,
        consecutive_passes: 0,
        position_history: seq![empty_grid(n)],
    }
}

impl<const SIZE: usize> BadukClassical<SIZE> {
    /// The recorded positions, as grids.
    pub open spec fn hist_grids(self) -> Seq<Grid> {
        self.position_history@.map_values(|b: Board<SIZE>| b@)
    }

    /// The abstract image of this state.
    pub open spec fn state_view(self) -> BadukView {
        BadukView {
            turn: self.turn,
            grid: self.board@,
            captures: (self.captures.0 as int, self.captures.1 as int),
            ko_point: self.ko_point,
            consecutive_passes: self.consecutive_passes as int,
            position_history: self.hist_grids(),
        }
    }

    /// Internal consistency; established by `new` and preserved by
    /// `make_move`.
    pub open spec fn wf(self) -> bool {
        wf_view(self.state_view(), SIZE as int)
    }

    /// A fresh game: empty board, black to move, the opening position
    /// already recorded.
    pub fn new() -> (res: Self)
        ensures
            res.wf(),
            res.state_view() == initial_view(SIZE as int),
    {
        let ghost n = SIZE as int;
        let board = Board::<SIZE>::new();
        let first = Board::<SIZE>::new();
        let mut position_history: Vec<Board<SIZE>> = Vec::new();
        position_history.push(first);
        let res = BadukClassical {
            turn: Player::Black,
            board,
            captures: (0, 0),
            ko_point: None,
            consecutive_passes: 0,
            position_history,
        };
        proof {
            assert(res.hist_grids() =~= seq![empty_grid(n)]);
            assert(res.state_view() == initial_view(n));
            lemma_empty_grid_count(n, Point::Stone(Player::Black));
            lemma_empty_grid_count(n, Point::Stone(Player::White));
            assert forall|i: int| 0 <= i < n implies (#[trigger] empty_grid(n)[i]).len() == n by {}
        }
        res
    }

    /// Whether the game has ended: two consecutive passes.
    pub fn is_game_over(&self) -> (res: bool)
        ensures
            res == (self.state_view().consecutive_passes >= 2),
    {
        self.consecutive_passes >= 2
    }

    /// Remove every captured stone of `opponent` from the live board; the
    /// rest of the state is untouched.
    pub fn remove_captured_stones(&mut self, opponent: Player) -> (captured: usize)
        requires
            old(self).wf(),
        ensures
            final(self).wf(),
            final(self).board@ == after_captures(old(self).board@, SIZE as int, opponent),
            captured_set(old(self).board@, SIZE as int, opponent).finite(),
            captured == captured_set(old(self).board@, SIZE as int, opponent).len(),
            occupied(final(self).board@) == occupied(old(self).board@) - captured,
            final(self).turn == old(self).turn,
            final(self).captures == old(self).captures,
            final(self).ko_point == old(self).ko_point,
            final(self).consecutive_passes == old(self).consecutive_passes,
            final(self).position_history == old(self).position_history,
    {
        let captured = remove_captured_on_board(&mut self.board, opponent);
        proof {
            assert(final(self).hist_grids() == old(self).hist_grids());
        }
        captured
    }

    /// Whether placing `player`'s stone at `(r, c)` would be suicide.
    /// Reports `true` for an occupied or out-of-range target, where no
    /// stone can be placed at all.
    #[verifier::rlimit(50)]
    pub fn would_be_suicide(&self, r: usize, c: usize, player: Player) -> (res: bool)
        requires
            self.wf(),
        ensures
            res == if in_bounds(SIZE as int, (r, c)) && at(self.board@, (r, c)) == Point::Empty {
                is_suicide(self.board@, SIZE as int, (r, c), player)
            } else {
                true
            },
    {
        let ghost n = SIZE as int;
        let mut temp_board = self.board.clone();
        if !temp_board.place_stone(r, c, player) {
            return true;
        }
        let ghost g2 = temp_board@;
        let ghost me: Coord = (r, c);
        proof {
            assert(g2 == place_grid(self.board@, me, player));
        }
        let opponent = player.opponent();
        let mut would_capture = false;
        let neighbors = temp_board.get_adjacent_points(r, c);
        proof {
            lemma_adjacent_seq(n, r, c);
        }
        let mut i: usize = 0;
        while i < neighbors.len()
            invariant
                temp_board.wf(),
                g2 == temp_board@,
                n == SIZE as int,
                me == ((r, c)),
                in_bounds(n, me),
                opponent == player.opponent_spec(),
                neighbors@ == adjacent_seq(n, r, c),
                forall|q: Coord| #[trigger] neighbors@.contains(q) ==> in_bounds(n, q) && adjacent(me, q),
                forall|q: Coord| in_bounds(n, q) ==> (neighbors@.contains(q) <==> adjacent(me, q)),
                i <= neighbors@.len(),
                would_capture ==> (exists|q: Coord|
                    in_bounds(n, q) && #[trigger] adjacent(me, q) && stone_captured(
                        g2,
                        n,
                        q,
                        opponent,
                    )),
                !would_capture ==> forall|k: int|
                    0 <= k < i ==> !stone_captured(g2, n, #[trigger] neighbors@[k], opponent),
            decreases neighbors@.len() - i,
        {
            let q = neighbors[i];
            proof {
                assert(neighbors@.contains(neighbors@[i as int]));
            }
            let pt = temp_board.get_point(q.0, q.1).unwrap();
            if pt == Point::Stone(opponent) {
                let adj_group = temp_board.get_group(q.0, q.1);
                let libs = temp_board.count_liberties(&adj_group);
                proof {
                    assert(adj_group@.to_set() =~= component(g2, n, q));
                }
                if libs == 0 {
                    proof {
                        lemma_captured_component(g2, n, q, opponent);
                        lemma_connected_refl(g2, n, q);
                        assert(stone_captured(g2, n, q, opponent));
                    }
                    would_capture = true;
                } else {
                    proof {
                        lemma_not_captured_if_libs(g2, n, q, opponent);
                    }
                }
            }
            i += 1;
        }
        if would_capture {
            return false;
        }
        proof {
            assert forall|q: Coord|
                in_bounds(n, q) && #[trigger] adjacent(me, q) implies !stone_captured(
                g2,
                n,
                q,
                opponent,
            ) by {
                assert(neighbors@.contains(q));
                let k = choose|k: int| 0 <= k < neighbors@.len() && neighbors@[k] == q;
            }
        }
        let our_group = temp_board.get_group(r, c);
        let libs = temp_board.count_liberties(&our_group);
        proof {
            assert(at(g2, me) == Point::Stone(player));
            assert(our_group@.to_set() =~= component(g2, n, me));
        }
        if libs == 0 {
            proof {
                lemma_captured_component(g2, n, me, player);
                lemma_connected_refl(g2, n, me);
            }
            true
        } else {
            proof {
                lemma_not_captured_if_libs(g2, n, me, player);
            }
            false
        }
    }

    /// Whether placing `player`'s stone at `(r, c)` and resolving its
    /// captures would recreate any recorded position. Reports `true` for an
    /// occupied or out-of-range target.
    pub fn would_repeat_position(&self, r: usize, c: usize, player: Player) -> (res: bool)
        requires
            self.wf(),
        ensures
            res == if in_bounds(SIZE as int, (r, c)) && at(self.board@, (r, c)) == Point::Empty {
                repeats_position(self.board@, self.hist_grids(), SIZE as int, (r, c), player)
            } else {
                true
            },
    {
        let ghost n = SIZE as int;
        let mut temp_board = self.board.clone();
        if !temp_board.place_stone(r, c, player) {
            return true;
        }
        let opponent = player.opponent();
        let _removed = remove_captured_on_board(&mut temp_board, opponent);
        let ghost g3 = temp_board@;
        proof {
            assert(g3 == after_captures(
                place_grid(self.board@, (r, c), player),
                n,
                player.opponent_spec(),
            ));
        }
        let mut i: usize = 0;
        while i < self.position_history.len()
            invariant
                self.wf(),
                temp_board.wf(),
                g3 == temp_board@,
                g3 == after_captures(
                    place_grid(self.board@, (r, c), player),
                    n,
                    player.opponent_spec(),
                ),
                n == SIZE as int,
                i <= self.position_history@.len(),
                forall|k: int| 0 <= k < i ==> #[trigger] self.hist_grids()[k] != g3,
            decreases self.position_history@.len() - i,
        {
            let entry = &self.position_history[i];
            proof {
                assert(self.hist_grids()[i as int] == entry@);
            }
            if entry.grid_equals(&temp_board) {
                proof {
                    assert(self.hist_grids()[i as int] == g3);
                }
                return true;
            }
            i += 1;
        }
        proof {
            if repeats_position(self.board@, self.hist_grids(), n, (r, c), player) {
                let k = choose|k: int|
                    0 <= k < self.hist_grids().len() && #[trigger] self.hist_grids()[k] == g3;
            }
        }
        false
    }

    /// The four legality checks for a stone placement: the target is empty
    /// and on the board, is not the ko point, is not suicide, and does not
    /// repeat a recorded position.
    fn is_legal_move(&self, r: usize, c: usize) -> (res: bool)
        requires
            self.wf(),
        ensures
            res == legal_play(self.state_view(), SIZE as int, (r, c)),
    {
        let empty_target = match self.board.get_point(r, c) {
            Some(Point::Empty) => true,
            _ => false,
        };
        if !empty_target {
            return false;
        }
        if let Some(k) = self.ko_point {
            if k.0 == r && k.1 == c {
                assert(self.state_view().ko_point == Some((r, c)));
                return false;
            }
        }
        if self.would_be_suicide(r, c, self.turn) {
            return false;
        }
        if self.would_repeat_position(r, c, self.turn) {
            return false;
        }
        true
    }
}

impl<const SIZE: usize> Clone for BadukClassical<SIZE> {
    /// A clone shows the same abstract state.
    fn clone(&self) -> (res: Self)
        ensures
            res.state_view() == self.state_view(),
    {
        let mut hist: Vec<Board<SIZE>> = Vec::new();
        let mut i: usize = 0;
        while i < self.position_history.len()
            invariant
                i <= self.position_history@.len(),
                hist@.len() == i,
                forall|k: int| 0 <= k < i ==> #[trigger] hist@[k]@ == self.position_history@[k]@,
            decreases self.position_history@.len() - i,
        {
            hist.push(self.position_history[i].clone());
            i += 1;
        }
        let res = BadukClassical {
            turn: self.turn,
            board: self.board.clone(),
            captures: self.captures,
            ko_point: self.ko_point,
            consecutive_passes: self.consecutive_passes,
            position_history: hist,
        };
        proof {
            assert(res.hist_grids() =~= self.hist_grids());
            assert(res.state_view() == self.state_view());
        }
        res
    }
}


/// The first coordinate of `pts` that is on the board and empty.
fn find_first_empty<const SIZE: usize>(board: &Board<SIZE>, pts: &Vec<(usize, usize)>) -> (res:
    Option<(usize, usize)>)
    requires
        board.wf(),
    ensures
        res == first_empty(board@, SIZE as int, pts@),
{
    let ghost n = SIZE as int;
    proof {
        assert(pts@.skip(0) =~= pts@);
    }
    let mut i: usize = 0;
    while i < pts.len()
        invariant
            board.wf(),
            n == SIZE as int,
            i <= pts@.len(),
            first_empty(board@, n, pts@) == first_empty(board@, n, pts@.skip(i as int)),
        decreases pts@.len() - i,
    {
        let q = pts[i];
        proof {
            assert(pts@.skip(i as int)[0] == q);
            assert(pts@.skip(i as int).drop_first() =~= pts@.skip(i + 1));
        }
        let is_empty_pt = match board.get_point(q.0, q.1) {
            Some(Point::Empty) => true,
            _ => false,
        };
        if is_empty_pt {
            proof {
                assert(first_empty(board@, n, pts@.skip(i as int)) == Some(q));
            }
            return Some(q);
        }
        i += 1;
    }
    proof {
        assert(pts@.skip(pts@.len() as int) =~= Seq::<Coord>::empty());
    }
    None
}

impl<const SIZE: usize> BadukClassical<SIZE> {
    /// Apply one move to the live state. A pass flips the turn, clears the
    /// ko point and lengthens the run of passes; a play must pass the full
    /// legality predicate, then places the stone, lifts every captured
    /// opposing group, credits the mover, recomputes the ko point, resets
    /// the pass counter, records the pre-move position and flips the turn.
    /// An illegal play changes nothing and reports `IllegalMove`.
    #[verifier::rlimit(100)]
    pub fn make_move(&mut self, mv: BadukMove) -> (res: Result<(), MoveError>)
        requires
            old(self).wf(),
        ensures
            final(self).wf(),
            res is Ok <==> is_legal_view(old(self).state_view(), SIZE as int, mv),
            res is Ok ==> final(self).state_view() == apply_view(
                old(self).state_view(),
                SIZE as int,
                mv,
            ),
            res is Err ==> *final(self) == *old(self) && res == Err::<(), MoveError>(
                MoveError::IllegalMove,
            ),
    {
        let ghost n = SIZE as int;
        let ghost v0 = self.state_view();
        match mv {
            BadukMove::Pass => {
                self.consecutive_passes = if self.consecutive_passes < 255 {
                    self.consecutive_passes + 1
                } else {
                    255
                };
                self.turn = self.turn.opponent();
                self.ko_point = None;
                proof {
                    assert(self.state_view() == apply_pass_view(v0));
                }
                Ok(())
            },
            BadukMove::Play { coordinates: (r, c) } => {
                if !self.is_legal_move(r, c) {
                    return Err(MoveError::IllegalMove);
                }
                let ghost me: Coord = (r, c);
                let ghost g0 = self.board@;
                let mover = self.turn;
                // Record the pre-move position.
                let snapshot = self.board.clone();
                self.position_history.push(snapshot);
                let h = self.position_history.len();
                // Place the stone.
                let placed = self.board.place_stone(r, c, mover);
                proof {
                    assert(placed);
                }
                let ghost g2 = self.board@;
                self.consecutive_passes = 0;
                proof {
                    assert(g2 == place_grid(g0, me, mover));
                    lemma_grid_count_set_cell(g0, me, Point::Stone(mover), Point::Stone(Player::Black));
                    lemma_grid_count_set_cell(g0, me, Point::Stone(mover), Point::Stone(Player::White));
                    assert(occupied(g2) == occupied(g0) + 1);
                    assert(self.hist_grids() =~= v0.position_history.push(v0.grid));
                    assert(self.wf());
                }
                // Capture.
                let opponent = mover.opponent();
                let captured = self.remove_captured_stones(opponent);
                let ghost cap = captured_set(g2, n, opponent);
                let ghost g3 = self.board@;
                proof {
                    assert(g3 == remove_set_grid(g2, cap));
                    assert(captured == cap.len());
                    assert(self.captures.0 + self.captures.1 + occupied(g3) <= h - 1);
                    assert(occupied(g3) == occupied(g2) - captured);
                    assert(self.captures.0 + captured <= h - 1);
                    assert(self.captures.1 + captured <= h - 1);
                }
                // Credit the mover.
                match mover {
                    Player::Black => {
                        self.captures = (self.captures.0 + captured, self.captures.1);
                    },
                    Player::White => {
                        self.captures = (self.captures.0, self.captures.1 + captured);
                    },
                }
                // Single-stone immediate-recapture ko.
                let ko = if captured == 1 {
                    let our_group = self.board.get_group(r, c);
                    proof {
                        assert(!cap.contains(me));
                        assert(at(g3, me) == at(g2, me));
                        assert(at(g3, me) == Point::Stone(mover));
                        assert(our_group@.to_set() =~= component(g3, n, me));
                        lemma_connected_refl(g3, n, me);
                        assert(our_group@.contains(me));
                    }
                    if our_group.len() == 1 {
                        proof {
                            assert(our_group@[0] == me);
                            assert forall|w: Coord| #[trigger] connected(g3, n, me, w) implies w
                                == me by {
                                assert(our_group@.contains(w));
                                let k = choose|k: int|
                                    0 <= k < our_group@.len() && our_group@[k] == w;
                            }
                        }
                        let libs = self.board.count_liberties(&our_group);
                        if libs == 1 {
                            let neighbors = self.board.get_adjacent_points(r, c);
                            find_first_empty(&self.board, &neighbors)
                        } else {
                            None
                        }
                    } else {
                        proof {
                            if forall|w: Coord| #[trigger] connected(g3, n, me, w) ==> w == me {
                                assert forall|k: int|
                                    0 <= k < our_group@.len() implies our_group@[k] == me by {
                                    assert(our_group@.contains(our_group@[k]));
                                }
                                assert(our_group@.len() >= 2);
                                assert(our_group@[0] == me && our_group@[1] == me);
                            }
                        }
                        None
                    }
                } else {
                    None
                };
                self.ko_point = ko;
                proof {
                    assert(ko == ko_point_after(g3, n, me, cap.len()));
                }
                // Alternate.
                self.turn = self.turn.opponent();
                proof {
                    assert(self.hist_grids() =~= v0.position_history.push(v0.grid));
                    assert(self.state_view() == apply_play_view(v0, n, me));
                    assert(self.wf());
                }
                Ok(())
            },
        }
    }
}

/// Some empty point connected to `p` has a neighboring stone of `pl`.
pub open spec fn region_borders(g: Grid, n: int, p: Coord, pl: Player) -> bool {
    exists|w: Coord, q: Coord|
        #[trigger] connected(g, n, p, w) && #[trigger] adjacent(w, q) && in_bounds(n, q) && at(
            g,
            q,
        ) == Point::Stone(pl)
}

/// An empty point that scores for `pl`: its empty region borders stones of
/// `pl` and of no other color.
pub open spec fn territory_of(g: Grid, n: int, p: Coord, pl: Player) -> bool {
    &&& in_bounds(n, p)
    &&& at(g, p) == Point::Empty
    &&& region_borders(g, n, p, pl)
    &&& !region_borders(g, n, p, pl.opponent_spec())
}

/// An empty point that scores for nobody: its region borders both colors,
/// or neither.
pub open spec fn neutral_point(g: Grid, n: int, p: Coord) -> bool {
    &&& in_bounds(n, p)
    &&& at(g, p) == Point::Empty
    &&& !territory_of(g, n, p, Player::Black)
    &&& !territory_of(g, n, p, Player::White)
}

/// Connected points see the same bordering colors.
proof fn lemma_region_borders_eq(g: Grid, n: int, a: Coord, b: Coord, pl: Player)
    requires
        connected(g, n, a, b),
    ensures
        region_borders(g, n, a, pl) == region_borders(g, n, b, pl),
{
    lemma_connected_sym(g, n, a, b);
    if region_borders(g, n, a, pl) {
        let (w, q) = choose|w: Coord, q: Coord|
            #[trigger] connected(g, n, a, w) && #[trigger] adjacent(w, q) && in_bounds(n, q) && at(
                g,
                q,
            ) == Point::Stone(pl);
        lemma_connected_trans(g, n, b, a, w);
        assert(connected(g, n, b, w) && adjacent(w, q));
    }
    if region_borders(g, n, b, pl) {
        let (w, q) = choose|w: Coord, q: Coord|
            #[trigger] connected(g, n, b, w) && #[trigger] adjacent(w, q) && in_bounds(n, q) && at(
                g,
                q,
            ) == Point::Stone(pl);
        lemma_connected_trans(g, n, a, b, w);
        assert(connected(g, n, a, w) && adjacent(w, q));
    }
}

/// Whether any member of `group` has a neighboring stone of `pl`.
#[verifier::rlimit(50)]
fn group_touches_color<const SIZE: usize>(
    board: &Board<SIZE>,
    group: &Vec<(usize, usize)>,
    pl: Player,
) -> (res: bool)
    requires
        board.wf(),
    ensures
        res == exists|k: int, q: Coord|
            0 <= k < group@.len() && #[trigger] adjacent(group@[k], q) && in_bounds(SIZE as int, q)
                && at(board@, q) == Point::Stone(pl),
{
    let ghost n = SIZE as int;
    let mut i: usize = 0;
    while i < group.len()
        invariant
            board.wf(),
            n == SIZE as int,
            i <= group@.len(),
            forall|k: int, q: Coord|
                0 <= k < i && #[trigger] adjacent(group@[k], q) && in_bounds(n, q) && at(board@, q)
                    == Point::Stone(pl) ==> false,
        decreases group@.len() - i,
    {
        let p = group[i];
        let neighbors = board.get_adjacent_points(p.0, p.1);
        proof {
            lemma_adjacent_seq(n, p.0, p.1);
        }
        let mut j: usize = 0;
        while j < neighbors.len()
            invariant
                board.wf(),
                n == SIZE as int,
                i < group@.len(),
                p == group@[i as int],
                neighbors@ == adjacent_seq(n, p.0, p.1),
                forall|q: Coord| in_bounds(n, q) ==> (neighbors@.contains(q) <==> adjacent(p, q)),
                j <= neighbors@.len(),
                forall|k: int, q: Coord|
                    0 <= k < i && #[trigger] adjacent(group@[k], q) && in_bounds(n, q) && at(
                        board@,
                        q,
                    ) == Point::Stone(pl) ==> false,
                forall|m: int|
                    0 <= m < j && in_bounds(n, #[trigger] neighbors@[m]) ==> at(
                        board@,
                        neighbors@[m],
                    ) != Point::Stone(pl),
            decreases neighbors@.len() - j,
        {
            let q = neighbors[j];
            proof {
                assert(neighbors@.contains(neighbors@[j as int]));
            }
            if q.0 < SIZE && q.1 < SIZE {
                let pt = board.get_point(q.0, q.1).unwrap();
                if pt == Point::Stone(pl) {
                    proof {
                        assert(adjacent(group@[i as int], q));
                    }
                    return true;
                }
            }
            j += 1;
        }
        proof {
            assert forall|q: Coord|
                #[trigger] adjacent(group@[i as int], q) && in_bounds(n, q) implies at(board@, q)
                != Point::Stone(pl) by {
                assert(neighbors@.contains(q));
                let m = choose|m: int| 0 <= m < neighbors@.len() && neighbors@[m] == q;
            }
        }
        i += 1;
    }
    false
}

impl<const SIZE: usize> BadukClassical<SIZE> {
    /// Partition the empty points into black territory, white territory and
    /// neutral points, by flood-filling each maximal empty region and
    /// looking at the colors of the stones that border it.
    #[verifier::rlimit(100)]
    pub fn calculate_territory(&self) -> (res: (
        Vec<(usize, usize)>,
        Vec<(usize, usize)>,
        Vec<(usize, usize)>,
    ))
        requires
            self.wf(),
        ensures
            res.0@.no_duplicates(),
            res.1@.no_duplicates(),
            res.2@.no_duplicates(),
            forall|q: Coord|
                #[trigger] res.0@.contains(q) <==> territory_of(
                    self.board@,
                    SIZE as int,
                    q,
                    Player::Black,
                ),
            forall|q: Coord|
                #[trigger] res.1@.contains(q) <==> territory_of(
                    self.board@,
                    SIZE as int,
                    q,
                    Player::White,
                ),
            forall|q: Coord|
                #[trigger] res.2@.contains(q) <==> neutral_point(self.board@, SIZE as int, q),
    {
        let ghost n = SIZE as int;
        let ghost g = self.board@;
        let mut visited: Vec<(usize, usize)> = Vec::new();
        let mut black_territory: Vec<(usize, usize)> = Vec::new();
        let mut white_territory: Vec<(usize, usize)> = Vec::new();
        let mut neutral_territory: Vec<(usize, usize)> = Vec::new();
        let mut r: usize = 0;
        while r < SIZE
            invariant
                self.wf(),
                g == self.board@,
                n == SIZE as int,
                r <= SIZE,
                visited@.no_duplicates(),
                black_territory@.no_duplicates(),
                white_territory@.no_duplicates(),
                neutral_territory@.no_duplicates(),
                forall|q: Coord|
                    #[trigger] visited@.contains(q) ==> in_bounds(n, q) && at(g, q) == Point::Empty,
                forall|q: Coord, w: Coord|
                    #[trigger] visited@.contains(q) && #[trigger] connected(g, n, q, w)
                        ==> visited@.contains(w),
                forall|q: Coord|
                    in_bounds(n, q) && at(g, q) == Point::Empty && (q.0 as int) < r
                        ==> visited@.contains(q),
                forall|q: Coord|
                    #[trigger] visited@.contains(q) <==> (black_territory@.contains(q)
                        || white_territory@.contains(q) || neutral_territory@.contains(q)),
                forall|q: Coord|
                    #[trigger] black_territory@.contains(q) ==> territory_of(g, n, q, Player::Black),
                forall|q: Coord|
                    #[trigger] white_territory@.contains(q) ==> territory_of(g, n, q, Player::White),
                forall|q: Coord|
                    #[trigger] neutral_territory@.contains(q) ==> neutral_point(g, n, q),
            decreases SIZE - r,
        {
            let mut c: usize = 0;
            while c < SIZE
                invariant
                    self.wf(),
                    g == self.board@,
                    n == SIZE as int,
                    r < SIZE,
                    c <= SIZE,
                    visited@.no_duplicates(),
                    black_territory@.no_duplicates(),
                    white_territory@.no_duplicates(),
                    neutral_territory@.no_duplicates(),
                    forall|q: Coord|
                        #[trigger] visited@.contains(q) ==> in_bounds(n, q) && at(g, q)
                            == Point::Empty,
                    forall|q: Coord, w: Coord|
                        #[trigger] visited@.contains(q) && #[trigger] connected(g, n, q, w)
                            ==> visited@.contains(w),
                    forall|q: Coord|
                        in_bounds(n, q) && at(g, q) == Point::Empty && ((q.0 as int) < r || (q.0
                            == r && (q.1 as int) < c)) ==> visited@.contains(q),
                    forall|q: Coord|
                        #[trigger] visited@.contains(q) <==> (black_territory@.contains(q)
                            || white_territory@.contains(q) || neutral_territory@.contains(q)),
                    forall|q: Coord|
                        #[trigger] black_territory@.contains(q) ==> territory_of(
                            g,
                            n,
                            q,
                            Player::Black,
                        ),
                    forall|q: Coord|
                        #[trigger] white_territory@.contains(q) ==> territory_of(
                            g,
                            n,
                            q,
                            Player::White,
                        ),
                    forall|q: Coord|
                        #[trigger] neutral_territory@.contains(q) ==> neutral_point(g, n, q),
                decreases SIZE - c,
            {
                let ghost me: Coord = (r, c);
                let pt = self.board.get_point(r, c).unwrap();
                if pt == Point::Empty && !contains_coord(&visited, (r, c)) {
                    let ghost visited_pre = visited@;
                    let region = self.board.flood_fill_group(r, c);
                    proof {
                        lemma_connected_refl(g, n, me);
                        assert(region@.contains(me));
                        assert forall|x: Coord| !(#[trigger] visited_pre.contains(x)
                            && region@.contains(x)) by {
                            if visited_pre.contains(x) && region@.contains(x) {
                                assert(connected(g, n, me, x));
                                lemma_connected_sym(g, n, me, x);
                                assert(visited_pre.contains(me));
                            }
                        }
                        lemma_concat_no_dup(visited_pre, region@);
                    }
                    let black_borders = group_touches_color(&self.board, &region, Player::Black);
                    let white_borders = group_touches_color(&self.board, &region, Player::White);
                    proof {
                        assert(black_borders == region_borders(g, n, me, Player::Black)) by {
                            if black_borders {
                                let (k, q) = choose|k: int, q: Coord|
                                    0 <= k < region@.len() && #[trigger] adjacent(region@[k], q)
                                        && in_bounds(n, q) && at(g, q) == Point::Stone(
                                        Player::Black,
                                    );
                                assert(region@.contains(region@[k]));
                                assert(connected(g, n, me, region@[k]));
                            }
                            if region_borders(g, n, me, Player::Black) {
                                let (w, q) = choose|w: Coord, q: Coord|
                                    #[trigger] connected(g, n, me, w) && #[trigger] adjacent(w, q)
                                        && in_bounds(n, q) && at(g, q) == Point::Stone(
                                        Player::Black,
                                    );
                                assert(region@.contains(w));
                                let k = choose|k: int|
                                    0 <= k < region@.len() && region@[k] == w;
                            }
                        }
                        assert(white_borders == region_borders(g, n, me, Player::White)) by {
                            if white_borders {
                                let (k, q) = choose|k: int, q: Coord|
                                    0 <= k < region@.len() && #[trigger] adjacent(region@[k], q)
                                        && in_bounds(n, q) && at(g, q) == Point::Stone(
                                        Player::White,
                                    );
                                assert(region@.contains(region@[k]));
                                assert(connected(g, n, me, region@[k]));
                            }
                            if region_borders(g, n, me, Player::White) {
                                let (w, q) = choose|w: Coord, q: Coord|
                                    #[trigger] connected(g, n, me, w) && #[trigger] adjacent(w, q)
                                        && in_bounds(n, q) && at(g, q) == Point::Stone(
                                        Player::White,
                                    );
                                assert(region@.contains(w));
                                let k = choose|k: int|
                                    0 <= k < region@.len() && region@[k] == w;
                            }
                        }
                        assert forall|x: Coord| #[trigger] region@.contains(x) implies in_bounds(
                            n,
                            x,
                        ) && at(g, x) == Point::Empty && region_borders(g, n, x, Player::Black)
                            == black_borders && region_borders(g, n, x, Player::White)
                            == white_borders by {
                            assert(connected(g, n, me, x));
                            let ps = choose|ps: Seq<Coord>|
                                crate::board::is_path(g, n, ps) && ps.first() == me && ps.last()
                                    == x;
                            assert(ps[ps.len() - 1] == x);
                            lemma_region_borders_eq(g, n, me, x, Player::Black);
                            lemma_region_borders_eq(g, n, me, x, Player::White);
                        }
                    }
                    append_coords(&mut visited, &region);
                    if black_borders && !white_borders {
                        proof {
                            assert forall|x: Coord| !(#[trigger] black_territory@.contains(x)
                                && region@.contains(x)) by {
                                if black_territory@.contains(x) && region@.contains(x) {
                                    assert(visited_pre.contains(x));
                                }
                            }
                            lemma_concat_no_dup(black_territory@, region@);
                        }
                        append_coords(&mut black_territory, &region);
                    } else if white_borders && !black_borders {
                        proof {
                            assert forall|x: Coord| !(#[trigger] white_territory@.contains(x)
                                && region@.contains(x)) by {
                                if white_territory@.contains(x) && region@.contains(x) {
                                    assert(visited_pre.contains(x));
                                }
                            }
                            lemma_concat_no_dup(white_territory@, region@);
                        }
                        append_coords(&mut white_territory, &region);
                    } else {
                        proof {
                            assert forall|x: Coord| !(#[trigger] neutral_territory@.contains(x)
                                && region@.contains(x)) by {
                                if neutral_territory@.contains(x) && region@.contains(x) {
                                    assert(visited_pre.contains(x));
                                }
                            }
                            lemma_concat_no_dup(neutral_territory@, region@);
                        }
                        append_coords(&mut neutral_territory, &region);
                    }
                    proof {
                        assert forall|q: Coord, w: Coord|
                            #[trigger] visited@.contains(q) && #[trigger] connected(g, n, q, w)
                                implies visited@.contains(w) by {
                            if visited_pre.contains(q) {
                            } else {
                                assert(region@.contains(q));
                                assert(connected(g, n, me, q));
                                lemma_connected_trans(g, n, me, q, w);
                                assert(region@.contains(w));
                            }
                        }
                    }
                } else {
                    proof {
                        if pt == Point::Empty {
                            assert(visited@.contains(me));
                        }
                    }
                }
                proof {
                    assert forall|q: Coord|
                        in_bounds(n, q) && at(g, q) == Point::Empty && ((q.0 as int) < r || (q.0
                            == r && (q.1 as int) < c + 1)) implies visited@.contains(q) by {}
                }
                c += 1;
            }
            r += 1;
        }
        proof {
            assert forall|q: Coord|
                territory_of(g, n, q, Player::Black) implies black_territory@.contains(q) by {
                assert((q.0 as int) < n);
                assert(visited@.contains(q));
            }
            assert forall|q: Coord|
                territory_of(g, n, q, Player::White) implies white_territory@.contains(q) by {
                assert((q.0 as int) < n);
                assert(visited@.contains(q));
            }
            assert forall|q: Coord| neutral_point(g, n, q) implies neutral_territory@.contains(
                q,
            ) by {
                assert((q.0 as int) < n);
                assert(visited@.contains(q));
            }
        }
        (black_territory, white_territory, neutral_territory)
    }
}

proof fn lemma_row_count_prefix_le(row: Seq<Point>, k: int, t: Point)
    requires
        0 <= k <= row.len(),
    ensures
        row_count(row.subrange(0, k), t) <= row_count(row, t),
    decreases row.len() - k,
{
    if k == row.len() {
        assert(row.subrange(0, k) =~= row);
    } else {
        assert(row.subrange(0, k + 1).drop_last() =~= row.subrange(0, k));
        assert(row.subrange(0, k + 1).last() == row[k]);
        lemma_row_count_prefix_le(row, k + 1, t);
    }
}

proof fn lemma_grid_count_prefix_le(g: Grid, k: int, t: Point)
    requires
        0 <= k <= g.len(),
    ensures
        grid_count(g.subrange(0, k), t) <= grid_count(g, t),
    decreases g.len() - k,
{
    if k == g.len() {
        assert(g.subrange(0, k) =~= g);
    } else {
        assert(g.subrange(0, k + 1).drop_last() =~= g.subrange(0, k));
        assert(g.subrange(0, k + 1).last() == g[k]);
        lemma_grid_count_prefix_le(g, k + 1, t);
    }
}

/// The empty points that score for `pl`.
pub open spec fn territory_set(g: Grid, n: int, pl: Player) -> Set<Coord> {
    Set::new(|q: Coord| territory_of(g, n, q, pl))
}

/// A player's area: its stones on the board plus its territory.
pub open spec fn area_score(g: Grid, n: int, pl: Player) -> int {
    grid_count(g, Point::Stone(pl)) as int + territory_set(g, n, pl).len() as int
}

/// The winner once the game is over. White receives a komi of six and a
/// half points, so black wins exactly when twice its area exceeds twice
/// white's by more than thirteen; the half point makes a draw impossible.
pub open spec fn winner_view(v: BadukView, n: int) -> Option<Player> {
    if v.consecutive_passes >= 2 {
        if 2 * area_score(v.grid, n, Player::Black) > 2 * area_score(v.grid, n, Player::White)
            + 13 {
            Some(Player::Black)
        } else {
            Some(Player::White)
        }
    } else {
        None
    }
}

impl<const SIZE: usize> BadukClassical<SIZE> {
    /// How many stones of `player` stand on the live board.
    pub fn count_stones(&self, player: Player) -> (res: usize)
        requires
            self.wf(),
        ensures
            res == grid_count(self.board@, Point::Stone(player)),
    {
        let ghost g = self.board@;
        let ghost t = Point::Stone(player);
        let ghost n = SIZE as int;
        let h = self.position_history.len();
        proof {
            assert(grid_count(g, t) <= occupied(g));
            assert(occupied(g) <= h - 1);
        }
        let mut cnt: usize = 0;
        let mut r: usize = 0;
        while r < SIZE
            invariant
                self.wf(),
                g == self.board@,
                t == Point::Stone(player),
                n == SIZE as int,
                r <= SIZE,
                grid_count(g, t) <= h - 1 < usize::MAX,
                cnt == grid_count(g.subrange(0, r as int), t),
            decreases SIZE - r,
        {
            let mut c: usize = 0;
            while c < SIZE
                invariant
                    self.wf(),
                    g == self.board@,
                    t == Point::Stone(player),
                    n == SIZE as int,
                    r < SIZE,
                    c <= SIZE,
                    grid_count(g, t) <= h - 1 < usize::MAX,
                    cnt == grid_count(g.subrange(0, r as int), t) + row_count(
                        g[r as int].subrange(0, c as int),
                        t,
                    ),
                decreases SIZE - c,
            {
                let ghost row = g[r as int];
                let pt = self.board.get_point(r, c).unwrap();
                proof {
                    assert(row.subrange(0, c + 1).drop_last() =~= row.subrange(0, c as int));
                    assert(row.subrange(0, c + 1).last() == row[c as int]);
                    lemma_row_count_prefix_le(row, c + 1, t);
                    assert(g.subrange(0, r + 1).drop_last() =~= g.subrange(0, r as int));
                    assert(g.subrange(0, r + 1).last() == row);
                    lemma_grid_count_prefix_le(g, r + 1, t);
                    assert(grid_count(g.subrange(0, r as int), t) + row_count(
                        row.subrange(0, c + 1),
                        t,
                    ) <= grid_count(g.subrange(0, r + 1), t));
                }
                if pt == Point::Stone(player) {
                    cnt += 1;
                }
                c += 1;
            }
            proof {
                assert(g[r as int].subrange(0, n) =~= g[r as int]);
                assert(g.subrange(0, r + 1).drop_last() =~= g.subrange(0, r as int));
                assert(g.subrange(0, r + 1).last() == g[r as int]);
            }
            r += 1;
        }
        proof {
            assert(g.subrange(0, n) =~= g);
        }
        cnt
    }

    /// The winner once both players have passed: the higher area, with
    /// white's komi applied. Before the game is over there is no winner.
    pub fn get_winner(&self) -> (res: Option<Player>)
        requires
            self.wf(),
        ensures
            res == winner_view(self.state_view(), SIZE as int),
    {
        let ghost g = self.board@;
        let ghost n = SIZE as int;
        if !self.is_game_over() {
            return None;
        }
        let territories = self.calculate_territory();
        let black_territory = territories.0;
        let white_territory = territories.1;
        let black_stones = self.count_stones(Player::Black);
        let white_stones = self.count_stones(Player::White);
        proof {
            assert(black_territory@.to_set() =~= territory_set(g, n, Player::Black));
            assert(white_territory@.to_set() =~= territory_set(g, n, Player::White));
            black_territory@.unique_seq_to_set();
            white_territory@.unique_seq_to_set();
        }
        let black_score: u128 = black_stones as u128 + black_territory.len() as u128;
        let white_score: u128 = white_stones as u128 + white_territory.len() as u128;
        proof {
            assert(black_score == area_score(g, n, Player::Black));
            assert(white_score == area_score(g, n, Player::White));
        }
        if 2 * black_score > 2 * white_score + 13 {
            Some(Player::Black)
        } else {
            Some(Player::White)
        }
    }
}

/// The legal stone placements at or after row `r`, column `c`, in row-major
/// order.
pub open spec fn legal_plays_from(v: BadukView, n: int, r: int, c: int) -> Seq<BadukMove>
    decreases n - r, n - c,
{
    if r < 0 || r >= n {
        Seq::empty()
    } else if c < 0 || c >= n {
        legal_plays_from(v, n, r + 1, 0)
    } else {
        let rest = legal_plays_from(v, n, r, c + 1);
        if legal_play(v, n, ((r as usize), (c as usize))) {
            seq![BadukMove::Play { coordinates: ((r as usize), (c as usize)) }] + rest
        } else {
            rest
        }
    }
}

/// The legal moves: pass first, then every legal placement in row-major
/// order.
pub open spec fn legal_moves_view(v: BadukView, n: int) -> Seq<BadukMove> {
    seq![BadukMove::Pass] + legal_plays_from(v, n, 0, 0)
}

proof fn lemma_plays_from_legal(v: BadukView, n: int, r: int, c: int)
    ensures
        forall|i: int|
            0 <= i < legal_plays_from(v, n, r, c).len() ==> is_legal_view(
                v,
                n,
                #[trigger] legal_plays_from(v, n, r, c)[i],
            ),
    decreases n - r, n - c,
{
    if r < 0 || r >= n {
    } else if c < 0 || c >= n {
        lemma_plays_from_legal(v, n, r + 1, 0);
        assert(legal_plays_from(v, n, r, c) == legal_plays_from(v, n, r + 1, 0));
        assert forall|i: int|
            0 <= i < legal_plays_from(v, n, r, c).len() implies is_legal_view(
            v,
            n,
            #[trigger] legal_plays_from(v, n, r, c)[i],
        ) by {
            assert(legal_plays_from(v, n, r, c)[i] == legal_plays_from(v, n, r + 1, 0)[i]);
        }
    } else {
        lemma_plays_from_legal(v, n, r, c + 1);
        let rest = legal_plays_from(v, n, r, c + 1);
        if !legal_play(v, n, ((r as usize), (c as usize))) {
            assert(legal_plays_from(v, n, r, c) == rest);
            assert forall|i: int|
                0 <= i < legal_plays_from(v, n, r, c).len() implies is_legal_view(
                v,
                n,
                #[trigger] legal_plays_from(v, n, r, c)[i],
            ) by {
                assert(legal_plays_from(v, n, r, c)[i] == rest[i]);
            }
        }
        if legal_play(v, n, ((r as usize), (c as usize))) {
            let m = BadukMove::Play { coordinates: ((r as usize), (c as usize)) };
            assert forall|i: int|
                0 <= i < legal_plays_from(v, n, r, c).len() implies is_legal_view(
                v,
                n,
                #[trigger] legal_plays_from(v, n, r, c)[i],
            ) by {
                if i == 0 {
                    assert(legal_plays_from(v, n, r, c)[0] == m);
                } else {
                    assert(legal_plays_from(v, n, r, c)[i] == rest[i - 1]);
                }
            }
        }
    }
}

/// The enumeration of legal moves always offers at least the pass, first.
pub proof fn lemma_pass_always_available(v: BadukView, n: int)
    ensures
        legal_moves_view(v, n).len() >= 1,
        legal_moves_view(v, n)[0] == BadukMove::Pass,
        is_legal_view(v, n, BadukMove::Pass),
{
    assert(legal_moves_view(v, n)[0] == seq![BadukMove::Pass][0]);
}

/// Capture counters never decrease, whatever move is applied.
pub proof fn lemma_captures_monotonic(v: BadukView, n: int, mv: BadukMove)
    ensures
        apply_view(v, n, mv).captures.0 >= v.captures.0,
        apply_view(v, n, mv).captures.1 >= v.captures.1,
{
}

/// The recorded ko point is illegal to play on the very next move.
pub proof fn lemma_ko_point_blocks(v: BadukView, n: int, p: Coord)
    requires
        v.ko_point == Some(p),
    ensures
        !legal_play(v, n, p),
{
}

/// A play whose settled result equals any recorded position is illegal,
/// however long ago that position occurred.
pub proof fn lemma_superko_rejected(v: BadukView, n: int, p: Coord, i: int)
    requires
        0 <= i < v.position_history.len(),
        v.position_history[i] == after_captures(
            place_grid(v.grid, p, v.turn),
            n,
            v.turn.opponent_spec(),
        ),
    ensures
        !legal_play(v, n, p),
{
    assert(repeats_position(v.grid, v.position_history, n, p, v.turn));
}

/// Passing lengthens the run of consecutive passes, two passes in a row
/// reach the game-over threshold, and any stone placement resets the run
/// to zero.
pub proof fn lemma_pass_counting(v: BadukView, n: int)
    requires
        v.consecutive_passes >= 0,
    ensures
        apply_view(v, n, BadukMove::Pass).consecutive_passes == (if v.consecutive_passes < 255 {
            v.consecutive_passes + 1
        } else {
            255
        }),
        apply_view(apply_view(v, n, BadukMove::Pass), n, BadukMove::Pass).consecutive_passes >= 2,
        forall|p: Coord|
            apply_view(v, n, BadukMove::Play { coordinates: p }).consecutive_passes == 0,
{
}

impl<const SIZE: usize> StatelessGame for BadukClassical<SIZE> {
    type Move = BadukMove;

    type StateView = BadukView;

    open spec fn sview(&self) -> BadukView {
        self.state_view()
    }

    open spec fn inv(&self) -> bool {
        self.wf()
    }

    open spec fn legal_moves_spec(&self) -> Seq<BadukMove> {
        legal_moves_view(self.state_view(), SIZE as int)
    }

    open spec fn is_legal_spec(&self, mv: BadukMove) -> bool {
        is_legal_view(self.state_view(), SIZE as int, mv)
    }

    open spec fn next_view(&self, mv: BadukMove) -> BadukView {
        apply_view(self.state_view(), SIZE as int, mv)
    }

    fn list_all_legal_moves(&self) -> (res: Vec<BadukMove>) {
        let ghost v = self.state_view();
        let ghost n = SIZE as int;
        let mut moves: Vec<BadukMove> = Vec::new();
        moves.push(BadukMove::Pass);
        proof {
            assert(moves@ =~= seq![BadukMove::Pass]);
        }
        let mut r: usize = 0;
        while r < SIZE
            invariant
                self.wf(),
                v == self.state_view(),
                n == SIZE as int,
                r <= SIZE,
                seq![BadukMove::Pass] + legal_plays_from(v, n, 0, 0) == moves@ + legal_plays_from(
                    v,
                    n,
                    r as int,
                    0,
                ),
            decreases SIZE - r,
        {
            let mut c: usize = 0;
            while c < SIZE
                invariant
                    self.wf(),
                    v == self.state_view(),
                    n == SIZE as int,
                    r < SIZE,
                    c <= SIZE,
                    seq![BadukMove::Pass] + legal_plays_from(v, n, 0, 0) == moves@
                        + legal_plays_from(v, n, r as int, c as int),
                decreases SIZE - c,
            {
                if self.is_legal_move(r, c) {
                    let m = BadukMove::Play { coordinates: (r, c) };
                    let ghost pre = moves@;
                    moves.push(m);
                    proof {
                        assert(legal_plays_from(v, n, r as int, c as int) =~= seq![m]
                            + legal_plays_from(v, n, r as int, c + 1));
                        assert(pre + legal_plays_from(v, n, r as int, c as int) =~= moves@
                            + legal_plays_from(v, n, r as int, c + 1));
                    }
                } else {
                    proof {
                        assert(legal_plays_from(v, n, r as int, c as int) == legal_plays_from(
                            v,
                            n,
                            r as int,
                            c + 1,
                        ));
                    }
                }
                c += 1;
            }
            r += 1;
        }
        proof {
            assert(legal_plays_from(v, n, SIZE as int, 0) =~= Seq::<BadukMove>::empty());
            assert(moves@ + Seq::<BadukMove>::empty() =~= moves@);
            assert(moves@ =~= seq![BadukMove::Pass] + legal_plays_from(v, n, 0, 0));
        }
        moves
    }

    fn is_legal(&self, game_move: &BadukMove) -> (res: bool) {
        match *game_move {
            BadukMove::Pass => true,
            BadukMove::Play { coordinates: (r, c) } => self.is_legal_move(r, c),
        }
    }

    fn generate_next_board(&self, game_move: &BadukMove) -> (res: Result<Self, MoveError>) {
        let mut next_game = self.clone();
        proof {
            assert(next_game.wf());
        }
        match next_game.make_move(*game_move) {
            Ok(()) => Ok(next_game),
            Err(e) => Err(e),
        }
    }

    fn move_eq(a: &BadukMove, b: &BadukMove) -> (res: bool) {
        match (*a, *b) {
            (BadukMove::Pass, BadukMove::Pass) => true,
            (
                BadukMove::Play { coordinates: (r1, c1) },
                BadukMove::Play { coordinates: (r2, c2) },
            ) => r1 == r2 && c1 == c2,
            _ => false,
        }
    }

    proof fn legal_moves_are_legal(&self) {
        let v = self.state_view();
        let n = SIZE as int;
        lemma_plays_from_legal(v, n, 0, 0);
        assert forall|i: int|
            0 <= i < self.legal_moves_spec().len() implies self.is_legal_spec(
            #[trigger] self.legal_moves_spec()[i],
        ) by {
            if i == 0 {
                assert(self.legal_moves_spec()[0] == BadukMove::Pass);
            } else {
                assert(self.legal_moves_spec()[i] == legal_plays_from(v, n, 0, 0)[i - 1]);
            }
        }
    }
}

} // verus!

//! A persistent tree of game states reachable by move sequences from a
//! root, with a cursor of moves that can descend, extend the tree, and roll
//! back. Children are created lazily on first traversal and reused on every
//! later request with the same move, so the tree memoizes explored lines.

use crate::game::MoveError;
use crate::game::StatelessGame;
use vstd::prelude::*;

verus! {

/// One explored game state and its explored successors, keyed by move in
/// insertion order.
#[verifier::reject_recursive_types(G)]
pub struct GameNode<G: StatelessGame> {
    pub game: G,
    pub children: Vec<(G::Move, GameNode<G>)>,
}

impl<G: StatelessGame> GameNode<G> {
    /// Whether a child for `mv` has been explored.
    pub open spec fn has_child(self, mv: G::Move) -> bool {
        exists|i: int| 0 <= i < self.children@.len() && (#[trigger] self.children@[i]).0 == mv
    }

    /// The index of the child for `mv`.
    pub open spec fn child_idx(self, mv: G::Move) -> int {
        choose|i: int| 0 <= i < self.children@.len() && (#[trigger] self.children@[i]).0 == mv
    }

    /// The explored child for `mv`.
    pub open spec fn child_of(self, mv: G::Move) -> GameNode<G> {
        self.children@[self.child_idx(mv)].1
    }

    /// Each move keys at most one child.
    pub open spec fn keys_unique(self) -> bool {
        forall|i: int, j: int|
            0 <= i < j < self.children@.len() ==> (#[trigger] self.children@[i]).0 != (
            #[trigger] self.children@[j]).0
    }

    /// Internal consistency of a whole subtree: every stored game satisfies
    /// its own invariant, every child is keyed by a move that is legal in
    /// its parent and holds exactly the successor state of that move, and
    /// no move keys two children.
    pub open spec fn node_inv(self) -> bool
        decreases self,
    {
        &&& self.game.inv()
        &&& self.keys_unique()
        &&& forall|i: int|
            0 <= i < self.children@.len() ==> {
                &&& self.game.is_legal_spec((#[trigger] self.children@[i]).0)
                &&& self.children@[i].1.game.sview() == self.game.next_view(self.children@[i].0)
                &&& self.children@[i].1.node_inv()
            }
    }

    /// The node a move sequence leads to, if every step has been explored.
    pub open spec fn resolve(self, path: Seq<G::Move>) -> Option<GameNode<G>>
        decreases path.len(),
    {
        if path.len() == 0 {
            Some(self)
        } else if self.has_child(path[0]) {
            self.child_of(path[0]).resolve(path.drop_first())
        } else {
            None
        }
    }

    /// A fresh, unexplored node.
    pub fn new(game: G) -> (res: Self)
        requires
            game.inv(),
        ensures
            res.game == game,
            res.children@.len() == 0,
            res.node_inv(),
    {
        GameNode { game, children: Vec::new() }
    }

    /// The index of the child for `mv`, if one exists.
    fn find_child(&self, mv: &G::Move) -> (res: Option<usize>)
        ensures
            match res {
                Some(j) => j < self.children@.len() && self.children@[j as int].0 == *mv
                    && self.has_child(*mv),
                None => !self.has_child(*mv),
            },
    {
        let mut j: usize = 0;
        while j < self.children.len()
            invariant
                j <= self.children@.len(),
                forall|k: int| 0 <= k < j ==> (#[trigger] self.children@[k]).0 != *mv,
            decreases self.children@.len() - j,
        {
            if G::move_eq(&self.children[j].0, mv) {
                return Some(j);
            }
            j += 1;
        }
        None
    }

    /// Step to the move's child: the cached one if it was explored before
    /// (nothing is recomputed and the node is untouched), else the successor
    /// computed now and stored under the move. An illegal move changes
    /// nothing.
    pub fn make_move(&mut self, mv: G::Move) -> (res: Result<(), MoveError>)
        requires
            old(self).node_inv(),
        ensures
            final(self).node_inv(),
            final(self).game == old(self).game,
            res is Ok <==> old(self).game.is_legal_spec(mv),
            res is Err ==> *final(self) == *old(self) && res == Err::<(), MoveError>(
                MoveError::IllegalMove,
            ),
            res is Ok ==> final(self).has_child(mv) && final(self).child_of(mv).game.sview()
                == old(self).game.next_view(mv),
            res is Ok && old(self).has_child(mv) ==> *final(self) == *old(self),
            res is Ok && !old(self).has_child(mv) ==> {
                &&& final(self).children@.len() == old(self).children@.len() + 1
                &&& final(self).children@.subrange(0, old(self).children@.len() as int) == old(
                    self,
                ).children@
                &&& final(self).children@.last().0 == mv
                &&& final(self).children@.last().1.children@.len() == 0
            },
    {
        if !self.game.is_legal(&mv) {
            return Err(MoveError::IllegalMove);
        }
        match self.find_child(&mv) {
            Some(j) => {
                proof {
                    assert(self.child_idx(mv) == j as int) by {
                        let i = self.child_idx(mv);
                        if i != j as int {
                            assert(self.children@[i].0 == mv);
                            assert(self.children@[j as int].0 == mv);
                        }
                    }
                }
                Ok(())
            },
            None => {
                let next = match self.game.generate_next_board(&mv) {
                    Ok(next) => next,
                    Err(e) => {
                        proof {
                            assert(false);
                        }
                        return Err(e);
                    },
                };
                let child = GameNode::new(next);
                let ghost pre = *self;
                self.children.push((mv, child));
                proof {
                    let l = pre.children@.len() as int;
                    assert(self.children@ == pre.children@.push((mv, child)));
                    assert(self.children@.subrange(0, l) =~= pre.children@);
                    assert(self.children@[l].0 == mv);
                    assert(self.has_child(mv));
                    assert(self.child_idx(mv) == l) by {
                        let i = self.child_idx(mv);
                        if i != l {
                            assert(pre.children@[i] == self.children@[i]);
                            assert(pre.has_child(mv));
                        }
                    }
                    assert(self.node_inv()) by {
                        assert forall|i: int| 0 <= i < self.children@.len() implies {
                            &&& self.game.is_legal_spec((#[trigger] self.children@[i]).0)
                            &&& self.children@[i].1.game.sview() == self.game.next_view(
                                self.children@[i].0,
                            )
                            &&& self.children@[i].1.node_inv()
                        } by {
                            if i < l {
                                assert(self.children@[i] == pre.children@[i]);
                            } else {
                                assert(self.children@[i] == (mv, child));
                            }
                        }
                        assert forall|i: int, j: int|
                            0 <= i < j < self.children@.len() implies (
                        #[trigger] self.children@[i]).0 != (#[trigger] self.children@[j]).0 by {
                            if j == l {
                                assert(self.children@[i] == pre.children@[i]);
                                if self.children@[i].0 == mv {
                                    assert(pre.has_child(mv));
                                }
                            } else {
                                assert(self.children@[i] == pre.children@[i]);
                                assert(self.children@[j] == pre.children@[j]);
                            }
                        }
                    }
                }
                Ok(())
            },
        }
    }
}

/// The cached successor under a move is exactly the successor state the
/// rules engine would compute: repeating a move through the tree costs no
/// recomputation and loses no information.
pub proof fn lemma_make_move_memoizes<G: StatelessGame>(n: GameNode<G>, mv: G::Move)
    requires
        n.node_inv(),
        n.has_child(mv),
    ensures
        n.game.is_legal_spec(mv),
        n.child_of(mv).game.sview() == n.game.next_view(mv),
{
    let i = n.child_idx(mv);
    assert(0 <= i < n.children@.len() && n.children@[i].0 == mv);
}

/// How a tree changes when a move is made at the end of `path`: nodes along
/// the path keep their game and all other children; the target node gains
/// at most one child, exactly as `GameNode::make_move` describes.
pub open spec fn make_move_rel<G: StatelessGame>(
    o: GameNode<G>,
    path: Seq<G::Move>,
    mv: G::Move,
    n2: GameNode<G>,
) -> bool
    decreases path.len(),
{
    if path.len() == 0 {
        &&& n2.game == o.game
        &&& (o.has_child(mv) ==> n2 == o)
        &&& (!o.has_child(mv) ==> {
            &&& n2.children@.len() == o.children@.len() + 1
            &&& n2.children@.subrange(0, o.children@.len() as int) == o.children@
            &&& n2.children@.last().0 == mv
            &&& n2.children@.last().1.game.sview() == o.game.next_view(mv)
            &&& n2.children@.last().1.children@.len() == 0
        })
    } else {
        &&& o.has_child(path[0])
        &&& n2.game == o.game
        &&& n2.children@.len() == o.children@.len()
        &&& (forall|j: int|
            0 <= j < o.children@.len() && j != o.child_idx(path[0])
                ==> #[trigger] n2.children@[j] == o.children@[j])
        &&& n2.children@[o.child_idx(path[0])].0 == path[0]
        &&& make_move_rel(
            o.child_of(path[0]),
            path.drop_first(),
            mv,
            n2.children@[o.child_idx(path[0])].1,
        )
    }
}

/// A node that a path resolves to inside a consistent tree is itself
/// consistent.
pub proof fn lemma_resolve_inv<G: StatelessGame>(o: GameNode<G>, p: Seq<G::Move>)
    requires
        o.node_inv(),
        o.resolve(p) is Some,
    ensures
        o.resolve(p)->Some_0.node_inv(),
    decreases p.len(),
{
    if p.len() > 0 {
        let j = o.child_idx(p[0]);
        assert(o.children@[j].1.node_inv());
        lemma_resolve_inv(o.child_of(p[0]), p.drop_first());
    }
}

/// Make `mv` at the node `path[i..]` leads to from `node`; the caller has
/// already checked that the path resolves and that the move is legal there.
fn node_make_move_at<G: StatelessGame>(
    node: &mut GameNode<G>,
    path: &Vec<G::Move>,
    i: usize,
    mv: G::Move,
)
    requires
        old(node).node_inv(),
        i <= path@.len(),
        old(node).resolve(path@.skip(i as int)) is Some,
        old(node).resolve(path@.skip(i as int))->Some_0.game.is_legal_spec(mv),
    ensures
        final(node).node_inv(),
        make_move_rel(*old(node), path@.skip(i as int), mv, *final(node)),
    decreases path@.len() - i,
{
    let ghost sub = path@.skip(i as int);
    if i == path.len() {
        proof {
            assert(sub.len() == 0);
            assert(old(node).resolve(sub) == Some(*old(node)));
        }
        let r = node.make_move(mv);
        proof {
            assert(r is Ok);
            assert(make_move_rel(*old(node), sub, mv, *node));
        }
    } else {
        let step = path[i];
        proof {
            assert(sub[0] == step);
            assert(sub.drop_first() =~= path@.skip(i + 1));
            assert(old(node).has_child(step));
        }
        match node.find_child(&step) {
            None => {
                proof {
                    assert(false);
                }
            },
            Some(j) => {
                proof {
                    assert(node.child_idx(step) == j as int) by {
                        let k = node.child_idx(step);
                        if k != j as int {
                            assert(node.children@[k].0 == step);
                            assert(node.children@[j as int].0 == step);
                        }
                    }
                    assert(node.children@[j as int].1.node_inv());
                    assert(old(node).resolve(sub) == old(node).child_of(step).resolve(
                        path@.skip(i + 1),
                    ));
                }
                let pair = &mut node.children[j];
                node_make_move_at(&mut pair.1, path, i + 1, mv);
                proof {
                    let nc = node.children@;
                    let oc = old(node).children@;
                    assert(nc == oc.update(j as int, (oc[j as int].0, nc[j as int].1)));
                    assert(nc.len() == oc.len());
                    assert forall|k: int| 0 <= k < oc.len() && k != j as int implies (
                    #[trigger] nc[k]) == oc[k] by {}
                    assert(node.game == old(node).game);
                    assert(nc[j as int].0 == step);
                    assert(node.has_child(step)) by {
                        assert(nc[j as int].0 == step);
                    }
                    assert(node.child_idx(step) == j as int) by {
                        let k = node.child_idx(step);
                        if k != j as int {
                            assert(nc[k].0 == step);
                            assert(oc[k].0 == step);
                            assert(oc[j as int].0 == step);
                        }
                    }
                    assert(make_move_rel(*old(node), sub, mv, *node));
                    assert(node.node_inv()) by {
                        assert forall|k: int| 0 <= k < nc.len() implies {
                            &&& node.game.is_legal_spec((#[trigger] nc[k]).0)
                            &&& nc[k].1.game.sview() == node.game.next_view(nc[k].0)
                            &&& nc[k].1.node_inv()
                        } by {
                            if k != j as int {
                                assert(nc[k] == oc[k]);
                            } else {
                                assert(nc[k].0 == step);
                                assert(nc[k].1.game == oc[k].1.game);
                            }
                        }
                        assert forall|k: int, l: int| 0 <= k < l < nc.len() implies (
                        #[trigger] nc[k]).0 != (#[trigger] nc[l]).0 by {
                            assert(nc[k].0 == oc[k].0);
                            assert(nc[l].0 == oc[l].0);
                        }
                    }
                }
            },
        }
    }
}

/// Resolving one move further steps into the explored child, when there is
/// one.
pub proof fn lemma_resolve_push<G: StatelessGame>(o: GameNode<G>, p: Seq<G::Move>, mv: G::Move)
    ensures
        o.resolve(p.push(mv)) == (match o.resolve(p) {
            Some(m) => if m.has_child(mv) {
                Some(m.child_of(mv))
            } else {
                None
            },
            None => None,
        }),
    decreases p.len(),
{
    if p.len() == 0 {
        assert(p.push(mv)[0] == mv);
        assert(p.push(mv).drop_first() =~= Seq::<G::Move>::empty());
        if o.has_child(mv) {
            assert(o.resolve(p.push(mv)) == o.child_of(mv).resolve(Seq::empty()));
        }
    } else {
        assert(p.push(mv)[0] == p[0]);
        assert(p.push(mv).drop_first() =~= p.drop_first().push(mv));
        if o.has_child(p[0]) {
            lemma_resolve_push(o.child_of(p[0]), p.drop_first(), mv);
        }
    }
}

/// After a move is made at the end of `path`, the extended path resolves,
/// and a branch that was already explored resolves to the identical cached
/// node that it resolved to before.
pub proof fn lemma_redo_resolves_same<G: StatelessGame>(
    o: GameNode<G>,
    n2: GameNode<G>,
    p: Seq<G::Move>,
    mv: G::Move,
)
    requires
        o.node_inv(),
        n2.node_inv(),
        make_move_rel(o, p, mv, n2),
        o.resolve(p.push(mv)) is Some,
    ensures
        n2.resolve(p.push(mv)) == o.resolve(p.push(mv)),
    decreases p.len(),
{
    lemma_resolve_push(o, p, mv);
    lemma_resolve_push(n2, p, mv);
    if p.len() == 0 {
        assert(o.has_child(mv));
        assert(n2 == o);
    } else {
        let j = o.child_idx(p[0]);
        assert(o.has_child(p[0]));
        assert(n2.children@[j].0 == p[0]);
        assert(n2.has_child(p[0])) by {
            assert(n2.children@[j].0 == p[0]);
        }
        assert(n2.child_idx(p[0]) == j) by {
            let k = n2.child_idx(p[0]);
            if k != j {
                assert(n2.children@[k].0 == p[0]);
                assert(n2.children@[k] == o.children@[k]);
                assert(o.children@[k].0 == p[0]);
                assert(o.children@[j].0 == p[0]);
            }
        }
        assert(o.resolve(p.push(mv)) == o.child_of(p[0]).resolve(p.drop_first().push(mv))) by {
            assert(p.push(mv)[0] == p[0]);
            assert(p.push(mv).drop_first() =~= p.drop_first().push(mv));
        }
        assert(n2.resolve(p.push(mv)) == n2.child_of(p[0]).resolve(p.drop_first().push(mv))) by {
            assert(p.push(mv)[0] == p[0]);
            assert(p.push(mv).drop_first() =~= p.drop_first().push(mv));
        }
        assert(o.child_of(p[0]).node_inv());
        assert(n2.child_of(p[0]).node_inv()) by {
            assert(n2.children@[j].1.node_inv());
        }
        lemma_redo_resolves_same(o.child_of(p[0]), n2.child_of(p[0]), p.drop_first(), mv);
    }
}

/// The explored game tree: a root state and every line explored from it.
#[verifier::reject_recursive_types(Game)]
pub struct GameTree<Game: StatelessGame> {
    pub root: GameNode<Game>,
}

impl<Game: StatelessGame> GameTree<Game> {
    /// A tree holding only its root state.
    pub fn new(game: Game) -> (res: Self)
        requires
            game.inv(),
        ensures
            res.root.game == game,
            res.root.children@.len() == 0,
            res.root.node_inv(),
    {
        GameTree { root: GameNode::new(game) }
    }
}

/// A cursor into the game tree: the move sequence from the root to the
/// active node. It owns no tree storage; it is replayed from the root on
/// demand.
#[verifier::reject_recursive_types(G)]
pub struct GamePointer<G: StatelessGame> {
    move_list: Vec<G::Move>,
}

impl<G: StatelessGame> GamePointer<G> {
    /// The recorded move sequence.
    pub closed spec fn moves(self) -> Seq<G::Move> {
        self.move_list@
    }

    /// A cursor standing at the root.
    pub fn new() -> (res: Self)
        ensures
            res.moves().len() == 0,
    {
        GamePointer { move_list: Vec::new() }
    }

    /// Resolve the cursor against the tree, without changing either.
    pub fn traverse_downward<'a>(&self, tree: &'a GameTree<G>) -> (res: Result<
        &'a GameNode<G>,
        MoveError,
    >)
        requires
            tree.root.node_inv(),
        ensures
            match res {
                Ok(node) => tree.root.resolve(self.moves()) == Some(*node),
                Err(e) => tree.root.resolve(self.moves()) is None && e == MoveError::MissingMove,
            },
    {
        let mut node = &tree.root;
        let mut i: usize = 0;
        proof {
            assert(self.move_list@.skip(0) =~= self.move_list@);
        }
        while i < self.move_list.len()
            invariant
                i <= self.move_list@.len(),
                node.node_inv(),
                node.resolve(self.move_list@.skip(i as int)) == tree.root.resolve(
                    self.move_list@,
                ),
            decreases self.move_list@.len() - i,
        {
            let ghost sub = self.move_list@.skip(i as int);
            let step = &self.move_list[i];
            proof {
                assert(sub[0] == *step);
                assert(sub.drop_first() =~= self.move_list@.skip(i + 1));
            }
            match node.find_child(step) {
                None => {
                    proof {
                        assert(node.resolve(sub) is None);
                    }
                    return Err(MoveError::MissingMove);
                },
                Some(j) => {
                    proof {
                        assert(node.child_idx(*step) == j as int) by {
                            let k = node.child_idx(*step);
                            if k != j as int {
                                assert(node.children@[k].0 == *step);
                                assert(node.children@[j as int].0 == *step);
                            }
                        }
                        assert(node.resolve(sub) == node.child_of(*step).resolve(
                            self.move_list@.skip(i + 1),
                        ));
                        assert(node.children@[j as int].1.node_inv());
                    }
                    node = &node.children[j].1;
                },
            }
            i += 1;
        }
        proof {
            assert(self.move_list@.skip(self.move_list@.len() as int) =~= Seq::<G::Move>::empty());
        }
        Ok(node)
    }

    /// Resolve the cursor, make `mv` there, and on success record it. When
    /// the move fails, neither the cursor nor the tree is touched.
    pub fn make_move(&mut self, tree: &mut GameTree<G>, mv: G::Move) -> (res: Result<
        (),
        MoveError,
    >)
        requires
            old(tree).root.node_inv(),
        ensures
            final(tree).root.node_inv(),
            res is Err ==> *final(self) == *old(self) && *final(tree) == *old(tree),
            res == Err::<(), MoveError>(MoveError::MissingMove) <==> old(tree).root.resolve(
                old(self).moves(),
            ) is None,
            res == Err::<(), MoveError>(MoveError::IllegalMove) <==> (old(tree).root.resolve(
                old(self).moves(),
            ) matches Some(m) && !m.game.is_legal_spec(mv)),
            res is Ok ==> final(self).moves() == old(self).moves().push(mv) && make_move_rel(
                old(tree).root,
                old(self).moves(),
                mv,
                final(tree).root,
            ),
    {
        let legal_here = match self.traverse_downward(&*tree) {
            Err(_) => {
                return Err(MoveError::MissingMove);
            },
            Ok(active) => {
                proof {
                    lemma_resolve_inv(tree.root, self.moves());
                }
                active.game.is_legal(&mv)
            },
        };
        if !legal_here {
            return Err(MoveError::IllegalMove);
        }
        proof {
            assert(self.move_list@.skip(0) =~= self.move_list@);
        }
        node_make_move_at(&mut tree.root, &self.move_list, 0, mv);
        self.move_list.push(mv);
        Ok(())
    }

    /// Drop the last recorded move; a no-op at the root. Tree storage is
    /// never touched: explored branches stay cached.
    pub fn undo_move(&mut self)
        ensures
            old(self).moves().len() > 0 ==> final(self).moves() == old(self).moves().drop_last(),
            old(self).moves().len() == 0 ==> final(self).moves() == old(self).moves(),
    {
        let _ = self.move_list.pop();
    }
}

} // verus!

use vstd::prelude::*;

use crate::go_board::adjacent;
use crate::go_board::has_key;
use crate::go_board::is_adjacent;
use crate::go_board::lemma_map_of_keys;
use crate::go_board::unique_keys;
use crate::go_board::GoBoard;
use crate::go_board::Player;
use crate::go_board::Position;
use crate::stone_group::StoneGroup;

verus! {

/// Whether a stone played at `pos` with color `color` connects to group `g`:
/// the group has the played color and holds a position adjacent to `pos`.
pub open spec fn touches(g: StoneGroup, pos: Position, color: Player) -> bool {
    g.color == color && exists|i: int| 0 <= i < g.chain@.len() && adjacent(#[trigger] g.chain@[i], pos)
}

/// The groups of `gs` that a stone played at `pos` does not connect to,
/// keeping their order.
pub open spec fn untouched_groups(gs: Seq<StoneGroup>, pos: Position, color: Player) -> Seq<StoneGroup>
    decreases gs.len(),
{
    if gs.len() == 0 {
        Seq::empty()
    } else {
        let r = untouched_groups(gs.drop_last(), pos, color);
        if touches(gs.last(), pos, color) {
            r
        } else {
            r.push(gs.last())
        }
    }
}

/// All positions of the groups of `gs` that a stone played at `pos` connects
/// to: the stones that the merged group inherits.
pub open spec fn touched_union(gs: Seq<StoneGroup>, pos: Position, color: Player) -> Set<Position>
    decreases gs.len(),
{
    if gs.len() == 0 {
        Set::empty()
    } else {
        let r = touched_union(gs.drop_last(), pos, color);
        if touches(gs.last(), pos, color) {
            r.union(gs.last().set())
        } else {
            r
        }
    }
}

/// Concatenation of sequences turns into union of their position sets.
pub proof fn lemma_to_set_concat(a: Seq<Position>, b: Seq<Position>)
    ensures
        (a + b).to_set() == a.to_set().union(b.to_set()),
{
    assert forall|x: Position| #[trigger] (a + b).contains(x) implies a.contains(x) || b.contains(x) by {
        let i = choose|i: int| 0 <= i < (a + b).len() && (a + b)[i] == x;
        if i < a.len() {
            assert(a[i] == x);
        } else {
            assert(b[i - a.len()] == x);
        }
    };
    assert forall|x: Position| a.contains(x) || b.contains(x) implies #[trigger] (a + b).contains(x) by {
        if a.contains(x) {
            let i = choose|i: int| 0 <= i < a.len() && a[i] == x;
            assert((a + b)[i] == x);
        } else {
            let i = choose|i: int| 0 <= i < b.len() && b[i] == x;
            assert((a + b)[a.len() + i] == x);
        }
    };
    assert((a + b).to_set() =~= a.to_set().union(b.to_set()));
}

/// Concatenating duplicate-free sequences over disjoint position sets keeps
/// the result duplicate-free.
pub proof fn lemma_no_dup_concat(a: Seq<Position>, b: Seq<Position>)
    requires
        a.no_duplicates(),
        b.no_duplicates(),
        a.to_set().disjoint(b.to_set()),
    ensures
        (a + b).no_duplicates(),
{
    assert forall|i: int, j: int| 0 <= i < (a + b).len() && 0 <= j < (a + b).len() && i != j
        implies (a + b)[i] != (a + b)[j] by {
        if i < a.len() && j >= a.len() {
            assert((a + b)[i] == a[i]);
            assert((a + b)[j] == b[j - a.len()]);
            assert(a.contains(a[i]));
            assert(a.to_set().contains(a[i]));
            assert(b.contains(b[j - a.len()]));
            assert(b.to_set().contains(b[j - a.len()]));
        } else if i >= a.len() && j < a.len() {
            assert((a + b)[j] == a[j]);
            assert((a + b)[i] == b[i - a.len()]);
            assert(a.contains(a[j]));
            assert(a.to_set().contains(a[j]));
            assert(b.contains(b[i - a.len()]));
            assert(b.to_set().contains(b[i - a.len()]));
        } else if i < a.len() && j < a.len() {
            assert((a + b)[i] == a[i]);
            assert((a + b)[j] == a[j]);
        } else {
            assert((a + b)[i] == b[i - a.len()]);
            assert((a + b)[j] == b[j - a.len()]);
        }
    };
}

/// Every kept group is one of the original groups and is not touched; every
/// original group that is not touched is kept.
pub proof fn lemma_untouched_membership(gs: Seq<StoneGroup>, pos: Position, color: Player)
    ensures
        forall|i: int| 0 <= i < untouched_groups(gs, pos, color).len()
            ==> gs.contains(#[trigger] untouched_groups(gs, pos, color)[i])
                && !touches(untouched_groups(gs, pos, color)[i], pos, color),
        forall|j: int| 0 <= j < gs.len() && !touches(#[trigger] gs[j], pos, color)
            ==> untouched_groups(gs, pos, color).contains(gs[j]),
    decreases gs.len(),
{
    if gs.len() == 0 {
    } else {
        let sub = gs.drop_last();
        let u = untouched_groups(gs, pos, color);
        let us = untouched_groups(sub, pos, color);
        lemma_untouched_membership(sub, pos, color);
        assert forall|i: int| 0 <= i < u.len() implies gs.contains(#[trigger] u[i])
            && !touches(u[i], pos, color) by {
            if !touches(gs.last(), pos, color) && i == u.len() - 1 {
                assert(u[i] == gs.last());
                assert(gs[gs.len() - 1] == gs.last());
            } else {
                assert(u[i] == us[i]);
                assert(sub.contains(us[i]));
                let j = choose|j: int| 0 <= j < sub.len() && sub[j] == us[i];
                assert(gs[j] == us[i]);
            }
        };
        assert forall|j: int| 0 <= j < gs.len() && !touches(#[trigger] gs[j], pos, color)
            implies u.contains(gs[j]) by {
            if j == gs.len() - 1 {
                assert(u == us.push(gs.last()));
                assert(u[u.len() - 1] == gs[j]);
            } else {
                assert(sub[j] == gs[j]);
                assert(us.contains(gs[j]));
                let i = choose|i: int| 0 <= i < us.len() && us[i] == gs[j];
                assert(u[i] == gs[j]);
            }
        };
    }
}

/// The touched union holds exactly the positions of the touched groups.
pub proof fn lemma_touched_union(gs: Seq<StoneGroup>, pos: Position, color: Player)
    ensures
        forall|q: Position| #[trigger] touched_union(gs, pos, color).contains(q)
            <==> exists|j: int| 0 <= j < gs.len() && touches(#[trigger] gs[j], pos, color)
                && gs[j].set().contains(q),
    decreases gs.len(),
{
    if gs.len() == 0 {
    } else {
        let sub = gs.drop_last();
        lemma_touched_union(sub, pos, color);
        assert forall|q: Position| #[trigger] touched_union(gs, pos, color).contains(q)
            implies exists|j: int| 0 <= j < gs.len() && touches(#[trigger] gs[j], pos, color)
                && gs[j].set().contains(q) by {
            if touched_union(sub, pos, color).contains(q) {
                let j = choose|j: int| 0 <= j < sub.len() && touches(#[trigger] sub[j], pos, color)
                    && sub[j].set().contains(q);
                assert(sub[j] == gs[j]);
                assert(touches(gs[j], pos, color) && gs[j].set().contains(q));
            } else {
                assert(touches(gs.last(), pos, color) && gs.last().set().contains(q));
                assert(gs[gs.len() - 1] == gs.last());
            }
        };
        assert forall|q: Position, j: int| 0 <= j < gs.len() && touches(#[trigger] gs[j], pos, color)
            && gs[j].set().contains(q)
            implies #[trigger] touched_union(gs, pos, color).contains(q) by {
            if j < gs.len() - 1 {
                assert(sub[j] == gs[j]);
                assert(touched_union(sub, pos, color).contains(q));
            } else {
                assert(gs.last() == gs[j]);
            }
        };
    }
}

/// When the original groups are pairwise disjoint, the kept groups stay
/// pairwise disjoint and are disjoint from the touched union.
pub proof fn lemma_untouched_disjoint(gs: Seq<StoneGroup>, pos: Position, color: Player)
    requires
        forall|k1: int, k2: int| 0 <= k1 < k2 < gs.len()
            ==> (#[trigger] gs[k1]).set().disjoint((#[trigger] gs[k2]).set()),
    ensures
        forall|i1: int, i2: int| 0 <= i1 < i2 < untouched_groups(gs, pos, color).len()
            ==> (#[trigger] untouched_groups(gs, pos, color)[i1]).set().disjoint(
                (#[trigger] untouched_groups(gs, pos, color)[i2]).set()),
        forall|i: int| 0 <= i < untouched_groups(gs, pos, color).len()
            ==> (#[trigger] untouched_groups(gs, pos, color)[i]).set().disjoint(
                touched_union(gs, pos, color)),
    decreases gs.len(),
{
    if gs.len() == 0 {
    } else {
        let sub = gs.drop_last();
        let g = gs.last();
        let u = untouched_groups(gs, pos, color);
        let us = untouched_groups(sub, pos, color);
        let t = touched_union(gs, pos, color);
        let ts = touched_union(sub, pos, color);
        assert(gs[gs.len() - 1] == g);
        assert forall|k1: int, k2: int| 0 <= k1 < k2 < sub.len()
            implies (#[trigger] sub[k1]).set().disjoint((#[trigger] sub[k2]).set()) by {
            assert(sub[k1] == gs[k1]);
            assert(sub[k2] == gs[k2]);
        };
        lemma_untouched_disjoint(sub, pos, color);
        lemma_untouched_membership(sub, pos, color);
        lemma_touched_union(sub, pos, color);
        assert forall|i: int| 0 <= i < us.len() implies (#[trigger] us[i]).set().disjoint(g.set()) by {
            assert(sub.contains(us[i]));
            let j = choose|j: int| 0 <= j < sub.len() && sub[j] == us[i];
            assert(gs[j] == us[i]);
            assert(gs[j].set().disjoint(gs[gs.len() - 1].set()));
        };
        if touches(g, pos, color) {
            assert(u == us);
            assert(t == ts.union(g.set()));
            assert forall|i: int| 0 <= i < u.len() implies (#[trigger] u[i]).set().disjoint(t) by {
                assert(us[i].set().disjoint(ts));
                assert(us[i].set().disjoint(g.set()));
                assert forall|q: Position| u[i].set().contains(q) implies !t.contains(q) by {
                    assert(!ts.contains(q));
                    assert(!g.set().contains(q));
                };
            };
        } else {
            assert(u == us.push(g));
            assert(t == ts);
            // the new last kept group is disjoint from the touched union
            assert forall|q: Position| g.set().contains(q) implies !ts.contains(q) by {
                if ts.contains(q) {
                    let j = choose|j: int| 0 <= j < sub.len() && touches(#[trigger] sub[j], pos, color)
                        && sub[j].set().contains(q);
                    assert(gs[j] == sub[j]);
                    assert(gs[j].set().disjoint(gs[gs.len() - 1].set()));
                }
            };
            assert forall|i1: int, i2: int| 0 <= i1 < i2 < u.len()
                implies (#[trigger] u[i1]).set().disjoint((#[trigger] u[i2]).set()) by {
                if i2 < u.len() - 1 {
                    assert(u[i1] == us[i1]);
                    assert(u[i2] == us[i2]);
                } else {
                    assert(u[i1] == us[i1]);
                    assert(u[i2] == g);
                }
            };
            assert forall|i: int| 0 <= i < u.len() implies (#[trigger] u[i]).set().disjoint(t) by {
                if i < u.len() - 1 {
                    assert(u[i] == us[i]);
                    assert(us[i].set().disjoint(ts));
                } else {
                    assert(u[i] == g);
                }
            };
        }
    }
}

/// The full effect of an accepted `play(pos, color)` call: the stone is
/// recorded, the groups it does not connect to survive unchanged and in
/// order, and a single group at the end of the registry holds the union of
/// all connected groups plus the new stone.
pub open spec fn play_post(pre: GoBoard, post: GoBoard, pos: Position, color: Player) -> bool {
    &&& post.size == pre.size
    &&& post.state@ == pre.state@.push((pos, color))
    &&& post.board() == pre.board().insert(pos, color)
    &&& post.groups@.len() == untouched_groups(pre.groups@, pos, color).len() + 1
    &&& post.groups@.drop_last() == untouched_groups(pre.groups@, pos, color)
    &&& post.groups@.last().color == color
    &&& post.groups@.last().set() == touched_union(pre.groups@, pos, color).insert(pos)
    &&& post.groups@.last().chain@.no_duplicates()
}

/// A completed legal move preserves the board invariant.
pub proof fn lemma_play_wf(pre: GoBoard, post: GoBoard, pos: Position, color: Player)
    requires
        pre.wf(),
        pre.spec_legal(pos),
        play_post(pre, post, pos, color),
    ensures
        post.wf(),
{
    let gs = pre.groups@;
    let u = untouched_groups(gs, pos, color);
    let tu = touched_union(gs, pos, color);
    let m = pre.board();
    let m2 = post.board();
    let ng = post.groups@;
    let merged = ng.last();
    let last = ng.len() - 1;

    lemma_map_of_keys(pre.state@);
    assert(!has_key(pre.state@, pos));

    // state keys stay unique and in bounds
    assert forall|i: int, j: int| 0 <= i < j < post.state@.len()
        implies (#[trigger] post.state@[i]).0 != (#[trigger] post.state@[j]).0 by {
        assert(post.state@[i] == pre.state@[i]);
        if j == post.state@.len() - 1 {
            if pre.state@[i].0 == pos {
                assert(has_key(pre.state@, pos));
            }
        } else {
            assert(post.state@[j] == pre.state@[j]);
        }
    };
    assert(unique_keys(post.state@));
    assert forall|i: int| 0 <= i < post.state@.len()
        implies post.spec_in_board((#[trigger] post.state@[i]).0) by {
        if i < post.state@.len() - 1 {
            assert(post.state@[i] == pre.state@[i]);
        }
    };

    lemma_untouched_membership(gs, pos, color);
    lemma_touched_union(gs, pos, color);
    lemma_untouched_disjoint(gs, pos, color);

    // the touched union consists of stones of the played color, none at pos
    assert forall|q: Position| tu.contains(q) implies m.contains_key(q) && m[q] == color
        && q != pos by {
        let j = choose|j: int| 0 <= j < gs.len() && touches(#[trigger] gs[j], pos, color)
            && gs[j].set().contains(q);
        assert(pre.group_ok(gs[j]));
        assert(gs[j].chain@.contains(q));
        let t = choose|t: int| 0 <= t < gs[j].chain@.len() && gs[j].chain@[t] == q;
        assert(m.contains_key(q) && m[q] == gs[j].color);
    };

    // kept groups sit below the merged one, unchanged
    assert forall|k: int| 0 <= k < last implies #[trigger] ng[k] == u[k] by {
        assert(ng.drop_last()[k] == ng[k]);
    };

    // every group of post is sound against the new state
    assert forall|k: int| 0 <= k < ng.len() implies post.group_ok(#[trigger] ng[k]) by {
        if k < last {
            assert(gs.contains(u[k]));
            let j = choose|j: int| 0 <= j < gs.len() && gs[j] == u[k];
            assert(pre.group_ok(gs[j]));
            assert forall|t: int| 0 <= t < ng[k].chain@.len()
                implies m2.contains_key(#[trigger] ng[k].chain@[t])
                    && m2[ng[k].chain@[t]] == ng[k].color by {
                assert(m.contains_key(ng[k].chain@[t]));
                assert(ng[k].chain@[t] != pos);
            };
        } else {
            assert(ng[k] == merged);
            assert(merged.set().contains(pos));
            assert(merged.chain@.contains(pos));
            assert(merged.chain@.len() > 0);
            assert forall|t: int| 0 <= t < merged.chain@.len()
                implies m2.contains_key(#[trigger] merged.chain@[t])
                    && m2[merged.chain@[t]] == merged.color by {
                let q = merged.chain@[t];
                assert(merged.chain@.contains(q));
                assert(merged.set().contains(q));
                if q != pos {
                    assert(tu.contains(q));
                }
            };
        }
    };

    // every stone of post lies in some group
    assert forall|p: Position| #[trigger] m2.contains_key(p)
        implies exists|k: int| 0 <= k < ng.len() && (#[trigger] ng[k]).chain@.contains(p) by {
        if p == pos {
            assert(merged.chain@.contains(pos));
            assert(ng[last].chain@.contains(pos));
        } else {
            assert(m.contains_key(p));
            let k0 = choose|k0: int| 0 <= k0 < gs.len() && (#[trigger] gs[k0]).chain@.contains(p);
            if touches(gs[k0], pos, color) {
                assert(gs[k0].set().contains(p));
                assert(tu.contains(p));
                assert(merged.set().contains(p));
                assert(ng[last].chain@.contains(p));
            } else {
                assert(u.contains(gs[k0]));
                let i = choose|i: int| 0 <= i < u.len() && u[i] == gs[k0];
                assert(ng[i] == gs[k0]);
                assert(ng[i].chain@.contains(p));
            }
        }
    };

    // groups stay pairwise disjoint
    assert forall|k1: int, k2: int| 0 <= k1 < k2 < ng.len()
        implies (#[trigger] ng[k1]).set().disjoint((#[trigger] ng[k2]).set()) by {
        if k2 < last {
            assert(ng[k1] == u[k1] && ng[k2] == u[k2]);
            assert(u[k1].set().disjoint(u[k2].set()));
        } else {
            assert(ng[k1] == u[k1]);
            assert(u[k1].set().disjoint(tu));
            assert(gs.contains(u[k1]));
            let j = choose|j: int| 0 <= j < gs.len() && gs[j] == u[k1];
            assert(pre.group_ok(gs[j]));
            assert forall|q: Position| ng[k1].set().contains(q)
                implies !ng[k2].set().contains(q) by {
                assert(u[k1].chain@.contains(q));
                let t = choose|t: int| 0 <= t < u[k1].chain@.len() && u[k1].chain@[t] == q;
                assert(m.contains_key(q));
                assert(q != pos);
                assert(!tu.contains(q));
            };
        }
    };

    // connectivity closure over the new state
    assert forall|p: Position, q: Position| m2.contains_key(p) && m2.contains_key(q)
        && m2[p] == m2[q] && #[trigger] adjacent(p, q)
        implies post.same_group(p, q) by {
        assert(p != q);
        if p == pos || q == pos {
            let w = if p == pos { q } else { p };
            assert(w != pos);
            assert(m.contains_key(w) && m[w] == color);
            let k0 = choose|k0: int| 0 <= k0 < gs.len() && (#[trigger] gs[k0]).chain@.contains(w);
            assert(pre.group_ok(gs[k0]));
            let t = choose|t: int| 0 <= t < gs[k0].chain@.len() && gs[k0].chain@[t] == w;
            assert(m[w] == gs[k0].color);
            assert(adjacent(w, pos));
            assert(adjacent(gs[k0].chain@[t], pos));
            assert(touches(gs[k0], pos, color));
            assert(gs[k0].set().contains(w));
            assert(tu.contains(w));
            assert(merged.set().contains(w));
            assert(ng[last].chain@.contains(w) && ng[last].chain@.contains(pos));
            assert(post.same_group(p, q));
        } else {
            assert(m.contains_key(p) && m.contains_key(q) && m[p] == m[q]);
            assert(pre.same_group(p, q));
            let k0 = choose|k0: int| 0 <= k0 < gs.len() && (#[trigger] gs[k0]).chain@.contains(p)
                && gs[k0].chain@.contains(q);
            if touches(gs[k0], pos, color) {
                assert(gs[k0].set().contains(p) && gs[k0].set().contains(q));
                assert(tu.contains(p) && tu.contains(q));
                assert(merged.set().contains(p) && merged.set().contains(q));
                assert(ng[last].chain@.contains(p) && ng[last].chain@.contains(q));
                assert(post.same_group(p, q));
            } else {
                assert(u.contains(gs[k0]));
                let i = choose|i: int| 0 <= i < u.len() && u[i] == gs[k0];
                assert(ng[i] == gs[k0]);
                assert(post.same_group(p, q));
            }
        }
    };
}

/// When no group is touched, every group is kept and nothing is inherited.
proof fn lemma_no_touch(gs: Seq<StoneGroup>, pos: Position, color: Player)
    requires
        forall|j: int| 0 <= j < gs.len() ==> !touches(#[trigger] gs[j], pos, color),
    ensures
        untouched_groups(gs, pos, color) == gs,
        touched_union(gs, pos, color) == Set::<Position>::empty(),
    decreases gs.len(),
{
    if gs.len() == 0 {
        assert(untouched_groups(gs, pos, color) =~= gs);
    } else {
        let sub = gs.drop_last();
        assert forall|j: int| 0 <= j < sub.len() implies !touches(#[trigger] sub[j], pos, color) by {
            assert(sub[j] == gs[j]);
        };
        lemma_no_touch(sub, pos, color);
        assert(!touches(gs[gs.len() - 1], pos, color));
        assert(gs.last() == gs[gs.len() - 1]);
        assert(untouched_groups(gs, pos, color) == sub.push(gs.last()));
        assert(sub.push(gs.last()) =~= gs);
    }
}

/// A stone played where it touches no group of its own color starts a group
/// of its own: every existing group survives unchanged and in order, and the
/// new group at the end holds exactly the new stone. In particular, a stone
/// whose occupied neighbors all carry the other color never joins their
/// groups.
pub proof fn lemma_new_singleton_group(pre: GoBoard, post: GoBoard, pos: Position, color: Player)
    requires
        pre.wf(),
        pre.spec_legal(pos),
        play_post(pre, post, pos, color),
        forall|q: Position| pre.board().contains_key(q) && #[trigger] adjacent(q, pos)
            ==> pre.board()[q] != color,
    ensures
        post.groups@.len() == pre.groups@.len() + 1,
        post.groups@.drop_last() == pre.groups@,
        post.groups@.last().set() == Set::<Position>::empty().insert(pos),
{
    assert forall|j: int| 0 <= j < pre.groups@.len()
        implies !touches(#[trigger] pre.groups@[j], pos, color) by {
        if touches(pre.groups@[j], pos, color) {
            let i = choose|i: int| 0 <= i < pre.groups@[j].chain@.len()
                && adjacent(#[trigger] pre.groups@[j].chain@[i], pos);
            let q = pre.groups@[j].chain@[i];
            assert(pre.group_ok(pre.groups@[j]));
            assert(pre.board().contains_key(q) && pre.board()[q] == color);
        }
    };
    lemma_no_touch(pre.groups@, pos, color);
    assert(touched_union(pre.groups@, pos, color).insert(pos)
        =~= Set::<Position>::empty().insert(pos));
}

/// Whether some position of `chain` is adjacent to `pos`.
fn chain_touches(chain: &Vec<Position>, pos: Position) -> (r: bool)
    ensures
        r == exists|i: int| 0 <= i < chain@.len() && adjacent(#[trigger] chain@[i], pos),
{
    let n = chain.len();
    let mut i: usize = 0;
    while i < n
        invariant
            n == chain@.len(),
            0 <= i <= n,
            forall|j: int| 0 <= j < i ==> !adjacent(#[trigger] chain@[j], pos),
        decreases n - i,
    {
        if is_adjacent(chain[i], pos) {
            assert(adjacent(chain@[i as int], pos));
            return true;
        }
        i += 1;
    }
    false
}

impl GoBoard {
    /// The merge-on-insert step for a stone about to be placed at `pos` with
    /// color `color` (the stone itself is recorded by the caller): the groups
    /// the stone does not connect to survive unchanged and in order, while
    /// the connected ones are removed and fused, together with `pos`, into a
    /// single new group at the end of the registry.
    #[verifier::loop_isolation(false)]
    pub fn refresh_groups(&mut self, pos: Position, color: Player)
        requires
            old(self).wf(),
            old(self).spec_legal(pos),
        ensures
            final(self).state@ == old(self).state@,
            final(self).size == old(self).size,
            final(self).groups@.len() == untouched_groups(old(self).groups@, pos, color).len() + 1,
            final(self).groups@.drop_last() == untouched_groups(old(self).groups@, pos, color),
            final(self).groups@.last().color == color,
            final(self).groups@.last().set() == touched_union(old(self).groups@, pos, color).insert(pos),
            final(self).groups@.last().chain@.no_duplicates(),
    {
        let ghost gs = self.groups@;
        let mut merged_chain: Vec<Position> = Vec::new();
        let ghost mut done: int = 0;
        let mut k: usize = 0;
        while k < self.groups.len()
            invariant
                0 <= done <= gs.len(),
                k as int == untouched_groups(gs.take(done), pos, color).len(),
                self.groups@ == untouched_groups(gs.take(done), pos, color) + gs.skip(done),
                merged_chain@.to_set() == touched_union(gs.take(done), pos, color),
                merged_chain@.no_duplicates(),
                self.state@ == old(self).state@,
                self.size == old(self).size,
                gs == old(self).groups@,
            decreases self.groups@.len() - k,
        {
            proof {
                assert(gs.skip(done).len() > 0);
                assert(done < gs.len());
                assert(gs.skip(done)[0] == gs[done]);
                assert(self.groups@[k as int] == gs[done]);
            }
            let touched = self.groups[k].color == color && chain_touches(&self.groups[k].chain, pos);
            proof {
                assert(touched == touches(gs[done], pos, color));
                assert(gs.take(done + 1).drop_last() =~= gs.take(done));
                assert(gs.take(done + 1).last() == gs[done]);
            }
            if touched {
                let ghost gv = self.groups@;
                let ghost mc0 = merged_chain@;
                let mut g = self.groups.remove(k);
                merged_chain.append(&mut g.chain);
                proof {
                    let prev = gs.take(done);
                    let cur = gs.take(done + 1);
                    assert(untouched_groups(cur, pos, color) == untouched_groups(prev, pos, color));
                    assert(touched_union(cur, pos, color)
                        == touched_union(prev, pos, color).union(gs[done].set()));
                    assert(self.groups@ =~= untouched_groups(cur, pos, color) + gs.skip(done + 1)) by {
                        assert(self.groups@ == gv.remove(k as int));
                    };
                    // the new chain segment is on the board and disjoint from
                    // everything gathered so far
                    assert(old(self).group_ok(gs[done]));
                    lemma_touched_union(prev, pos, color);
                    assert forall|q: Position| mc0.to_set().contains(q)
                        implies !gs[done].chain@.to_set().contains(q) by {
                        let j = choose|j: int| 0 <= j < prev.len()
                            && touches(#[trigger] prev[j], pos, color) && prev[j].set().contains(q);
                        assert(prev[j] == gs[j]);
                        assert(gs[j].set().disjoint(gs[done].set()));
                    };
                    assert(mc0.to_set().disjoint(gs[done].chain@.to_set()));
                    assert(merged_chain@ == mc0 + gs[done].chain@);
                    lemma_to_set_concat(mc0, gs[done].chain@);
                    lemma_no_dup_concat(mc0, gs[done].chain@);
                    assert(merged_chain@.to_set() =~= touched_union(cur, pos, color));
                    done = done + 1;
                }
            } else {
                k += 1;
                proof {
                    let prev = gs.take(done);
                    let cur = gs.take(done + 1);
                    assert(untouched_groups(cur, pos, color)
                        == untouched_groups(prev, pos, color).push(gs[done]));
                    assert(touched_union(cur, pos, color) == touched_union(prev, pos, color));
                    assert(self.groups@ =~= untouched_groups(cur, pos, color) + gs.skip(done + 1));
                    done = done + 1;
                }
            }
        }
        proof {
            assert(gs.skip(done).len() == 0);
            assert(done == gs.len());
            assert(gs.take(done) =~= gs);
            // the played position is vacant, so it is on none of the chains
            lemma_touched_union(gs, pos, color);
            lemma_map_of_keys(old(self).state@);
            assert(!merged_chain@.contains(pos)) by {
                if merged_chain@.contains(pos) {
                    assert(merged_chain@.to_set().contains(pos));
                    let j = choose|j: int| 0 <= j < gs.len()
                        && touches(#[trigger] gs[j], pos, color) && gs[j].set().contains(pos);
                    assert(old(self).group_ok(gs[j]));
                    assert(gs[j].chain@.contains(pos));
                    let t = choose|t: int| 0 <= t < gs[j].chain@.len() && gs[j].chain@[t] == pos;
                    assert(old(self).board().contains_key(pos));
                }
            };
        }
        let ghost mcf = merged_chain@;
        merged_chain.push(pos);
        proof {
            assert(merged_chain@ =~= mcf + seq![pos]);
            assert forall|q: Position| #[trigger] seq![pos].contains(q) implies q == pos by {
                let i = choose|i: int| 0 <= i < seq![pos].len() && seq![pos][i] == q;
            };
            assert(seq![pos][0] == pos);
            assert(seq![pos].contains(pos));
            assert(seq![pos].to_set() =~= Set::<Position>::empty().insert(pos));
            lemma_to_set_concat(mcf, seq![pos]);
            assert(mcf.to_set().disjoint(seq![pos].to_set())) by {
                assert forall|q: Position| mcf.to_set().contains(q)
                    implies !seq![pos].to_set().contains(q) by {
                    assert(mcf.contains(q));
                };
            };
            lemma_no_dup_concat(mcf, seq![pos]);
            assert(merged_chain@.to_set() =~= touched_union(gs, pos, color).insert(pos));
        }
        let merged = StoneGroup { chain: merged_chain, color: color, liberty: 4 };
        self.groups.push(merged);
        proof {
            assert(self.groups@.drop_last() =~= untouched_groups(gs, pos, color));
        }
    }
}

} // verus!

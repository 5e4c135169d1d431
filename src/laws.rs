//! Properties that relate several functions of the board, or one function
//! on all of its inputs.
use vstd::prelude::*;

use crate::board::{
    lemma_boss_tiles_nonempty, lemma_max_die, lemma_tied_iff, max_die, players_differ,
    tiles_with_die, Board, BoardCasino, CasinoTile, Loc,
};

verus! {

/// Adjacency is symmetric: `y` is a neighbour of `x` exactly when `x` is a
/// neighbour of `y`.
pub proof fn lemma_neighbours_symmetric(x: Loc, y: Loc)
    requires
        x.valid(),
        y.valid(),
    ensures
        x.neighbour_set().contains(y) <==> y.neighbour_set().contains(x),
{
}

/// A built tile with no built neighbour of its own casino forms a group of
/// that one tile, which is its own boss.
pub proof fn lemma_lone_tile_group(b: Board, l: Loc, g: BoardCasino)
    requires
        b.is_group_at(l, g),
        forall|y: Loc| y.valid() && l.adjacent(y) ==> !b.is_like(g.casino, y),
    ensures
        g.tiles.len() == 1,
        g.tiles@[0].loc == l,
        g.spec_boss_tiles() == g.tiles@,
{
    let ts = g.tiles@;
    if ts.len() > 1 {
        assert(b.in_group(l, ts[1].loc));
        let p = choose|p: Seq<Loc>| #[trigger] b.is_path(g.casino, p) && p[0] == l && p.last() == ts[1].loc;
        if p.len() > 1 {
            assert(b.is_like(g.casino, p[1]));
            assert(p[0].adjacent(p[1]));
        }
        assert(ts[0].loc != ts[1].loc);
    }
    let t = ts[0];
    assert(ts.len() == 1);
    assert(ts.drop_last() == Seq::<CasinoTile>::empty());
    assert(max_die(ts.drop_last()) == 0);
    assert(ts.last() == t);
    assert(max_die(ts) == t.die);
    assert(tiles_with_die(ts.drop_last(), t.die as nat) == Seq::<CasinoTile>::empty());
    assert(tiles_with_die(ts, t.die as nat) == Seq::<CasinoTile>::empty().push(t));
    assert(ts == seq![t]);
}

proof fn lemma_max_is(ts: Seq<CasinoTile>, i: int)
    requires
        0 <= i < ts.len(),
        forall|k: int| 0 <= k < ts.len() ==> (#[trigger] ts[k]).die <= ts[i].die,
    ensures
        max_die(ts) == ts[i].die,
{
    lemma_max_die(ts);
    assert(ts[i].die <= max_die(ts));
    let k = choose|k: int| 0 <= k < ts.len() && (#[trigger] ts[k]).die == max_die(ts);
    assert(ts[k].die <= ts[i].die);
}

proof fn lemma_with_die_one(ts: Seq<CasinoTile>, d: nat, i: int)
    requires
        0 <= i < ts.len(),
        ts[i].die == d,
        forall|k: int| 0 <= k < ts.len() && k != i ==> (#[trigger] ts[k]).die != d,
    ensures
        tiles_with_die(ts, d) == seq![ts[i]],
    decreases ts.len(),
{
    let p = ts.drop_last();
    if i == ts.len() - 1 {
        lemma_with_die_none(p, d);
    } else {
        assert forall|k: int| 0 <= k < p.len() && k != i implies (#[trigger] p[k]).die != d by {
            assert(p[k] == ts[k]);
        }
        lemma_with_die_one(p, d, i);
        assert(ts.last() == ts[ts.len() - 1]);
    }
}

proof fn lemma_with_die_none(ts: Seq<CasinoTile>, d: nat)
    requires
        forall|k: int| 0 <= k < ts.len() ==> (#[trigger] ts[k]).die != d,
    ensures
        tiles_with_die(ts, d) == Seq::<CasinoTile>::empty(),
    decreases ts.len(),
{
    if ts.len() > 0 {
        let p = ts.drop_last();
        assert forall|k: int| 0 <= k < p.len() implies (#[trigger] p[k]).die != d by {
            assert(p[k] == ts[k]);
        }
        lemma_with_die_none(p, d);
        assert(ts.last() == ts[ts.len() - 1]);
    }
}

proof fn lemma_with_die_two(ts: Seq<CasinoTile>, d: nat, i: int, j: int)
    requires
        0 <= i < j < ts.len(),
        ts[i].die == d,
        ts[j].die == d,
        forall|k: int| 0 <= k < ts.len() && k != i && k != j ==> (#[trigger] ts[k]).die != d,
    ensures
        tiles_with_die(ts, d) == seq![ts[i], ts[j]],
    decreases ts.len(),
{
    let p = ts.drop_last();
    if j == ts.len() - 1 {
        assert forall|k: int| 0 <= k < p.len() && k != i implies (#[trigger] p[k]).die != d by {
            assert(p[k] == ts[k]);
        }
        lemma_with_die_one(p, d, i);
        assert(p[i] == ts[i]);
        assert(ts.last() == ts[j]);
        assert(seq![ts[i]].push(ts[j]) == seq![ts[i], ts[j]]);
    } else {
        assert forall|k: int| 0 <= k < p.len() && k != i && k != j implies (#[trigger] p[k]).die != d by {
            assert(p[k] == ts[k]);
        }
        lemma_with_die_two(p, d, i, j);
        assert(ts.last() == ts[ts.len() - 1]);
    }
}

/// Where one tile of a group shows a die strictly higher than every other,
/// that tile alone is the boss.
pub proof fn lemma_boss_unique(g: BoardCasino, i: int)
    requires
        0 <= i < g.tiles.len(),
        forall|k: int| 0 <= k < g.tiles.len() && k != i ==> (#[trigger] g.tiles@[k]).die < g.tiles@[i].die,
    ensures
        g.spec_boss_tiles() == seq![g.tiles@[i]],
{
    lemma_max_is(g.tiles@, i);
    lemma_with_die_one(g.tiles@, g.tiles@[i].die as nat, i);
}

/// Where two tiles of a group share a die strictly higher than every other,
/// exactly those two are the bosses, in group order; where their players
/// differ, the group is tied.
pub proof fn lemma_boss_pair(g: BoardCasino, i: int, j: int)
    requires
        0 <= i < j < g.tiles.len(),
        g.tiles@[i].die == g.tiles@[j].die,
        forall|k: int|
            0 <= k < g.tiles.len() && k != i && k != j ==> (#[trigger] g.tiles@[k]).die < g.tiles@[i].die,
    ensures
        g.spec_boss_tiles() == seq![g.tiles@[i], g.tiles@[j]],
        g.tiles@[i].player != g.tiles@[j].player ==> players_differ(g.spec_boss_tiles()),
{
    lemma_max_is(g.tiles@, i);
    lemma_with_die_two(g.tiles@, g.tiles@[i].die as nat, i, j);
    let bs = g.spec_boss_tiles();
    if g.tiles@[i].player != g.tiles@[j].player {
        assert(bs[1].player != bs[0].player);
    }
}

/// On a board without ties, the boss tiles of every casino group belong to
/// exactly one player.
pub proof fn lemma_untied_group_has_one_boss_player(b: Board, s: Loc, g: BoardCasino)
    requires
        b.no_ties(),
        b.is_group_at(s, g),
    ensures
        g.spec_boss_tiles().len() > 0,
        forall|m: int|
            0 <= m < g.spec_boss_tiles().len() ==> (#[trigger] g.spec_boss_tiles()[m]).player
                == g.spec_boss_tiles()[0].player,
{
    lemma_tied_iff(b, s, g);
    lemma_boss_tiles_nonempty(g);
    assert(!b.tied_at(s));
}

} // verus!

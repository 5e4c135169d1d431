use std::collections::HashMap;

use vstd::prelude::*;

use crate::casino::Casino;
use crate::dice::roll;
pub use crate::grid::{loc_at, Block, Loc, Lot, LOC_COUNT};
use crate::grid::{lemma_index_bijection, lemma_push_contains};

verus! {

broadcast use vstd::std_specs::hash::group_hash_axioms;

/// What stands on one location.
#[derive(PartialEq, Eq, Structural, Debug, Copy, Clone)]
pub enum BoardTile {
    Unowned,
    Owned { player: usize },
    Built { player: usize, casino: Casino, die: usize },
}

impl Default for BoardTile {
    fn default() -> (r: Self)
        ensures
            r == BoardTile::Unowned,
    {
        BoardTile::Unowned
    }
}

/// An owner token of player `p`.
pub open spec fn token_of(p: usize) -> spec_fn(BoardTile) -> bool {
    |t: BoardTile| t == BoardTile::Owned { player: p }
}

/// A built tile of player `p`.
pub open spec fn die_of(p: usize) -> spec_fn(BoardTile) -> bool {
    |t: BoardTile| t is Built && t->Built_player == p
}

/// A built tile of casino `c`.
pub open spec fn built_in(c: Casino) -> spec_fn(BoardTile) -> bool {
    |t: BoardTile| t is Built && t->Built_casino == c
}

/// The state of every location; a location that was never set is unowned.
#[derive(Debug, Clone)]
pub struct Board {
    tiles: HashMap<usize, BoardTile>,
}

/// Pieces of one player that stand on the board.
#[derive(Default, Debug, Copy, Clone)]
pub struct UsedResources {
    /// Built tiles of the player.
    pub dice: usize,
    /// Owned but unbuilt tiles of the player.
    pub tokens: usize,
}

/// One member of a casino group.
#[derive(PartialEq, Eq, Structural, Debug, Copy, Clone)]
pub struct CasinoTile {
    pub loc: Loc,
    pub player: usize,
    pub die: usize,
}

/// A maximal set of orthogonally connected built tiles of one casino.
#[derive(PartialEq, Debug)]
pub struct BoardCasino {
    pub casino: Casino,
    pub tiles: Vec<CasinoTile>,
}

/// Some tile of `ts` stands at `l`.
pub open spec fn tiles_have(ts: Seq<CasinoTile>, l: Loc) -> bool {
    exists|i: int| 0 <= i < ts.len() && (#[trigger] ts[i]).loc == l
}

/// No two tiles of `ts` stand at one location.
pub open spec fn distinct_locs(ts: Seq<CasinoTile>) -> bool {
    forall|i: int, j: int| 0 <= i < j < ts.len() ==> (#[trigger] ts[i]).loc != (#[trigger] ts[j]).loc
}

/// Number of `true` entries of `s`.
pub open spec fn count_true(s: Seq<bool>) -> nat
    decreases s.len(),
{
    if s.len() == 0 {
        0
    } else {
        count_true(s.drop_last()) + if s.last() {
            1nat
        } else {
            0nat
        }
    }
}

/// Highest die among `ts`, 0 when `ts` is empty.
pub open spec fn max_die(ts: Seq<CasinoTile>) -> nat
    decreases ts.len(),
{
    if ts.len() == 0 {
        0
    } else {
        let m = max_die(ts.drop_last());
        if ts.last().die > m {
            ts.last().die as nat
        } else {
            m
        }
    }
}

/// The tiles of `ts` whose die shows `d`, in their order.
pub open spec fn tiles_with_die(ts: Seq<CasinoTile>, d: nat) -> Seq<CasinoTile>
    decreases ts.len(),
{
    if ts.len() == 0 {
        seq![]
    } else {
        let r = tiles_with_die(ts.drop_last(), d);
        if ts.last().die == d {
            r.push(ts.last())
        } else {
            r
        }
    }
}

impl BoardCasino {
    pub open spec fn has_loc(self, l: Loc) -> bool {
        tiles_have(self.tiles@, l)
    }

    /// The tiles of the group that show its highest die, in group order.
    pub open spec fn spec_boss_tiles(self) -> Seq<CasinoTile> {
        tiles_with_die(self.tiles@, max_die(self.tiles@))
    }

    /// The tiles that show the highest die of the group, in group order.
    pub fn boss_tiles(&self) -> (r: Vec<CasinoTile>)
        ensures
            r@ == self.spec_boss_tiles(),
    {
        let mut highest: usize = 0;
        let mut bosses: Vec<CasinoTile> = Vec::new();
        let mut i: usize = 0;
        while i < self.tiles.len()
            invariant
                i <= self.tiles.len(),
                highest == max_die(self.tiles@.subrange(0, i as int)),
                bosses@ == tiles_with_die(self.tiles@.subrange(0, i as int), highest as nat),
            decreases self.tiles.len() - i,
        {
            let t = self.tiles[i];
            let ghost pre = self.tiles@.subrange(0, i as int);
            assert(self.tiles@.subrange(0, i + 1).drop_last() == pre);
            if t.die > highest {
                proof {
                    lemma_with_die_above(pre, t.die as nat);
                }
                highest = t.die;
                bosses = Vec::new();
            }
            if t.die == highest {
                bosses.push(t);
            }
            i = i + 1;
        }
        assert(self.tiles@.subrange(0, self.tiles.len() as int) == self.tiles@);
        bosses
    }
}

/// A die that was rolled again to settle a tie.
#[derive(PartialEq, Eq, Structural, Debug, Copy, Clone)]
pub struct TieReroll {
    pub loc: Loc,
    pub player: usize,
    pub die: usize,
}

/// Ties remained after the most passes that tie resolution makes.
#[derive(PartialEq, Debug)]
pub struct UnresolvedTies {
    /// The dice rolled again before giving up, in order.
    pub rerolls: Vec<TieReroll>,
}

/// Most passes over the board that tie resolution makes.
pub const MAX_TIE_PASSES: usize = 10000;

/// `b` is `a` with at most its die changed, and a changed die shows 1 to 6.
pub open spec fn layout_kept(a: BoardTile, b: BoardTile) -> bool {
    match a {
        BoardTile::Built { player, casino, die } => {
            &&& b is Built
            &&& b->Built_player == player
            &&& b->Built_casino == casino
            &&& (b->Built_die == die || 1 <= b->Built_die <= 6)
        },
        _ => b == a,
    }
}

/// The tile `t` with its die replaced by `d`, where it is built.
pub open spec fn with_die(t: BoardTile, d: usize) -> BoardTile {
    match t {
        BoardTile::Built { player, casino, .. } => BoardTile::Built { player, casino, die: d },
        _ => t,
    }
}

/// Some tile of `bs` belongs to another player than the first.
pub open spec fn players_differ(bs: Seq<CasinoTile>) -> bool {
    exists|m: int| 0 <= m < bs.len() && (#[trigger] bs[m]).player != bs[0].player
}

/// Some record of `log` from position `from` on is for location `l`.
pub open spec fn logs_loc(log: Seq<TieReroll>, from: int, l: Loc) -> bool {
    exists|i: int| from <= i < log.len() && (#[trigger] log[i]).loc == l
}

/// The rerolls that a result of tie resolution carries.
pub open spec fn rerolls_of(r: Result<Option<Vec<TieReroll>>, UnresolvedTies>) -> Seq<TieReroll> {
    match r {
        Ok(Some(v)) => v@,
        Ok(None) => Seq::empty(),
        Err(u) => u.rerolls@,
    }
}

impl View for Board {
    type V = Map<usize, BoardTile>;

    /// The explicitly stored tiles, keyed by location index.
    closed spec fn view(&self) -> Map<usize, BoardTile> {
        self.tiles@
    }
}

impl Default for Board {
    fn default() -> (r: Self)
        ensures
            r@ == Map::<usize, BoardTile>::empty(),
            forall|l: Loc| r.tile(l) == BoardTile::Unowned,
    {
        Board { tiles: HashMap::new() }
    }
}

impl Board {
    /// The tile at `l`, unowned where nothing was stored.
    pub open spec fn tile(self, l: Loc) -> BoardTile {
        let k = l.index() as usize;
        if self@.contains_key(k) {
            self@[k]
        } else {
            BoardTile::Unowned
        }
    }

    /// Number of locations among the first `n` in canonical order whose tile
    /// satisfies `f`.
    pub open spec fn count_tiles(self, f: spec_fn(BoardTile) -> bool, n: int) -> nat
        decreases n,
    {
        if n <= 0 {
            0
        } else {
            self.count_tiles(f, n - 1) + if f(self.tile(loc_at(n - 1))) {
                1nat
            } else {
                0nat
            }
        }
    }


    /// `l` is a valid location holding a built tile of casino `c`.
    pub open spec fn is_like(self, c: Casino, l: Loc) -> bool {
        &&& l.valid()
        &&& self.tile(l) is Built
        &&& self.tile(l)->Built_casino == c
    }

    /// `p` is a walk through built tiles of casino `c`, each step to an
    /// adjacent location.
    pub open spec fn is_path(self, c: Casino, p: Seq<Loc>) -> bool {
        &&& p.len() > 0
        &&& forall|i: int| 0 <= i < p.len() ==> self.is_like(c, #[trigger] p[i])
        &&& forall|i: int| 0 <= i < p.len() - 1 ==> (#[trigger] p[i]).adjacent(p[i + 1])
    }

    /// A walk through built tiles of casino `c` leads from `x` to `y`.
    pub open spec fn connected(self, c: Casino, x: Loc, y: Loc) -> bool {
        exists|p: Seq<Loc>| #[trigger] self.is_path(c, p) && p[0] == x && p.last() == y
    }

    /// `y` belongs to the casino group of the built tile at `seed`.
    pub open spec fn in_group(self, seed: Loc, y: Loc) -> bool {
        &&& self.tile(seed) is Built
        &&& self.connected(self.tile(seed)->Built_casino, seed, y)
    }

    /// `g` lists the casino group of the built tile at `seed`, each member
    /// once with its player and die, starting with `seed`.
    pub open spec fn is_group_at(self, seed: Loc, g: BoardCasino) -> bool {
        &&& seed.valid()
        &&& self.tile(seed) is Built
        &&& g.casino == self.tile(seed)->Built_casino
        &&& g.tiles.len() > 0
        &&& g.tiles@[0].loc == seed
        &&& forall|i: int|
            0 <= i < g.tiles.len() ==> self.tile((#[trigger] g.tiles@[i]).loc) == (
            BoardTile::Built { player: g.tiles@[i].player, casino: g.casino, die: g.tiles@[i].die })
        &&& forall|i: int| 0 <= i < g.tiles.len() ==> self.in_group(seed, (#[trigger] g.tiles@[i]).loc)
        &&& forall|y: Loc| self.in_group(seed, y) ==> #[trigger] g.has_loc(y)
        &&& distinct_locs(g.tiles@)
    }

    /// Every location keeps its state but for dice that were rolled again.
    pub open spec fn same_layout(self, other: Board) -> bool {
        forall|l: Loc| l.valid() ==> layout_kept(#[trigger] self.tile(l), other.tile(l))
    }

    /// The tile at `y` is in the group of `s` and no die of the group is
    /// higher than its own.
    pub open spec fn is_boss(self, s: Loc, y: Loc) -> bool {
        &&& self.in_group(s, y)
        &&& forall|w: Loc|
            #[trigger] self.in_group(s, w) ==> self.tile(w)->Built_die <= self.tile(y)->Built_die
    }

    /// The highest die of the group of `s` is held by two different players.
    pub open spec fn tied_at(self, s: Loc) -> bool {
        exists|y: Loc, z: Loc|
            #[trigger] self.is_boss(s, y) && #[trigger] self.is_boss(s, z) && self.tile(y)->Built_player
                != self.tile(z)->Built_player
    }

    /// No casino group on the board is tied.
    pub open spec fn no_ties(self) -> bool {
        forall|s: Loc| s.valid() ==> !#[trigger] self.tied_at(s)
    }

    /// The tile at `l` is a boss of some tied casino group.
    #[verifier::opaque]
    pub open spec fn tie_boss(self, l: Loc) -> bool {
        exists|s: Loc| s.valid() && self.tied_at(s) && #[trigger] self.is_boss(s, l)
    }

    /// The tile at `loc`; unowned where nothing was set.
    pub fn get(&self, loc: &Loc) -> (r: BoardTile)
        requires
            loc.valid(),
        ensures
            r == self.tile(*loc),
    {
        let k = loc.index_of();
        match self.tiles.get(&k) {
            Some(t) => *t,
            None => BoardTile::Unowned,
        }
    }

    /// Replaces the tile at `loc`, whatever stood there.
    pub fn set(&mut self, loc: Loc, bt: BoardTile)
        requires
            loc.valid(),
        ensures
            final(self)@ == old(self)@.insert(loc.index() as usize, bt),
            forall|l: Loc|
                l.valid() ==> #[trigger] final(self).tile(l) == if l == loc {
                    bt
                } else {
                    old(self).tile(l)
                },
    {
        let k = loc.index_of();
        self.tiles.insert(k, bt);
        proof {
            lemma_index_bijection(loc);
            assert forall|l: Loc| l.valid() implies #[trigger] self.tile(l) == if l == loc {
                bt
            } else {
                old(self).tile(l)
            } by {
                lemma_index_bijection(l);
            }
        }
    }

    /// The casino group of the built tile at `loc`, found by flood fill from
    /// `loc`; `None` where `loc` is not built.
    pub fn casino_at(&self, loc: &Loc) -> (r: Option<BoardCasino>)
        requires
            loc.valid(),
        ensures
            r is None <==> !(self.tile(*loc) is Built),
            r is Some ==> self.is_group_at(*loc, r->Some_0),
    {
        let c = match self.get(loc) {
            BoardTile::Built { casino, .. } => casino,
            _ => {
                return None;
            },
        };
        let ghost seed = *loc;
        let mut seen: Vec<bool> = Vec::new();
        let mut k: usize = 0;
        while k < LOC_COUNT
            invariant
                k <= LOC_COUNT,
                seen.len() == k,
                count_true(seen@) == 0,
                forall|j: int| 0 <= j < k ==> !seen@[j],
            decreases LOC_COUNT - k,
        {
            proof {
                assert(seen@.push(false).drop_last() == seen@);
            }
            seen.push(false);
            k = k + 1;
        }
        let seed_i = loc.index_of();
        proof {
            lemma_count_true_set(seen@, seed_i as int);
            lemma_connected_refl(*self, c, seed);
        }
        seen.set(seed_i, true);
        proof {
            assert forall|l: Loc| l.valid() && #[trigger] seen@[l.index()] implies l == seed by {
                lemma_index_bijection(l);
                lemma_index_bijection(seed);
            }
        }
        let mut stack: Vec<Loc> = Vec::new();
        stack.push(*loc);
        assert(stack@[0] == seed);
        let mut tiles: Vec<CasinoTile> = Vec::new();
        while stack.len() > 0
            invariant
                seed == *loc,
                seed.valid(),
                self.is_like(c, seed),
                seen.len() == LOC_COUNT,
                count_true(seen@) == tiles.len() + stack.len(),
                forall|l: Loc|
                    l.valid() && #[trigger] seen@[l.index()] ==> self.is_like(c, l) && self.connected(
                        c,
                        seed,
                        l,
                    ),
                forall|l: Loc|
                    l.valid() && #[trigger] seen@[l.index()] ==> tiles_have(tiles@, l)
                        || stack@.contains(l),
                forall|i: int|
                    0 <= i < tiles.len() ==> (#[trigger] tiles@[i]).loc.valid() && seen@[tiles@[i].loc.index()]
                        && self.tile(tiles@[i].loc) == (BoardTile::Built {
                        player: tiles@[i].player,
                        casino: c,
                        die: tiles@[i].die,
                    }),
                forall|j: int|
                    0 <= j < stack.len() ==> (#[trigger] stack@[j]).valid() && seen@[stack@[j].index()],
                forall|l: Loc| #[trigger] stack@.contains(l) ==> !tiles_have(tiles@, l),
                distinct_locs(tiles@),
                stack@.no_duplicates(),
                forall|i: int, y: Loc|
                    0 <= i < tiles.len() && y.valid() && (#[trigger] tiles@[i]).loc.adjacent(y)
                        && #[trigger] self.is_like(c, y) ==> seen@[y.index()],
                tiles.len() == 0 ==> stack@ == seq![seed],
                tiles.len() > 0 ==> tiles@[0].loc == seed,
            decreases LOC_COUNT - tiles.len(),
        {
            proof {
                lemma_count_true_bound(seen@);
            }
            let ghost stack0 = stack@;
            let next = stack.pop().unwrap();
            let (player, die) = match self.get(&next) {
                BoardTile::Built { player, die, .. } => (player, die),
                _ => (0, 0),
            };
            proof {
                assert forall|l: Loc| #[trigger] stack@.contains(l) implies l != next by {
                    let j = choose|j: int| 0 <= j < stack.len() && stack@[j] == l;
                    assert(stack0[j] == l);
                    assert(stack0[stack0.len() - 1] == next);
                }
            }
            let ghost tiles0 = tiles@;
            tiles.push(CasinoTile { loc: next, player, die });
            proof {
                assert forall|l: Loc| tiles_have(tiles@, l) <==> tiles_have(tiles0, l) || l == next by {
                    if tiles_have(tiles0, l) {
                        let i = choose|i: int| 0 <= i < tiles0.len() && tiles0[i].loc == l;
                        assert(tiles@[i] == tiles0[i]);
                    }
                    if l == next {
                        assert(tiles@[tiles0.len() as int].loc == next);
                    }
                }
            }
            proof {
                assert(stack0[stack0.len() - 1] == next);
                assert(stack0.contains(next));
                assert forall|i: int, j: int| 0 <= i < j < tiles.len() implies (#[trigger] tiles@[i]).loc
                    != (#[trigger] tiles@[j]).loc by {
                    assert(tiles@[i] == tiles0[i]);
                    if j == tiles.len() - 1 {
                        if tiles0[i].loc == next {
                            assert(tiles_have(tiles0, next));
                        }
                    } else {
                        assert(tiles@[j] == tiles0[j]);
                    }
                }
                assert(seen@[next.index()]);
                assert forall|l: Loc| #[trigger] stack0.contains(l) implies stack@.contains(l) || l == next by {
                    let j = choose|j: int| 0 <= j < stack0.len() && stack0[j] == l;
                    if j < stack0.len() - 1 {
                        assert(stack@[j] == l);
                    }
                }
                assert forall|l: Loc| #[trigger] stack@.contains(l) implies stack0.contains(l) by {
                    let j = choose|j: int| 0 <= j < stack.len() && stack@[j] == l;
                    assert(stack0[j] == l);
                }
            }
            let nbrs = next.neighbours();
            let mut j: usize = 0;
            while j < nbrs.len()
                invariant
                    seed == *loc,
                    seed.valid(),
                    next.valid(),
                    self.is_like(c, next),
                    self.connected(c, seed, next),
                    tiles.len() > 0,
                    tiles@.last().loc == next,
                    seen.len() == LOC_COUNT,
                    count_true(seen@) == tiles.len() + stack.len(),
                    count_true(seen@) <= LOC_COUNT,
                    forall|l: Loc|
                        l.valid() && #[trigger] seen@[l.index()] ==> self.is_like(c, l)
                            && self.connected(c, seed, l),
                    forall|l: Loc|
                        l.valid() && #[trigger] seen@[l.index()] ==> tiles_have(tiles@, l)
                            || stack@.contains(l),
                    forall|i: int|
                        0 <= i < tiles.len() ==> (#[trigger] tiles@[i]).loc.valid()
                            && seen@[tiles@[i].loc.index()] && self.tile(tiles@[i].loc) == (
                        BoardTile::Built { player: tiles@[i].player, casino: c, die: tiles@[i].die }),
                    forall|j: int|
                        0 <= j < stack.len() ==> (#[trigger] stack@[j]).valid()
                            && seen@[stack@[j].index()],
                    forall|l: Loc| #[trigger] stack@.contains(l) ==> !tiles_have(tiles@, l),
                    distinct_locs(tiles@),
                    stack@.no_duplicates(),
                    forall|i: int, y: Loc|
                        0 <= i < tiles.len() - 1 && y.valid() && (#[trigger] tiles@[i]).loc.adjacent(
                            y,
                        ) && #[trigger] self.is_like(c, y) ==> seen@[y.index()],
                    forall|m: int|
                        0 <= m < j ==> #[trigger] self.is_like(c, nbrs@[m]) ==> seen@[nbrs@[m].index()],
                    forall|m: int| 0 <= m < nbrs.len() ==> (#[trigger] nbrs@[m]).valid(),
                    forall|y: Loc| #[trigger] nbrs@.contains(y) <==> next.neighbour_set().contains(y),
                    tiles@[0].loc == seed,
                decreases nbrs.len() - j,
            {
                let n = nbrs[j];
                let ni = n.index_of();
                if !seen[ni] {
                    let like = match self.get(&n) {
                        BoardTile::Built { casino, .. } => casino == c,
                        _ => false,
                    };
                    if like {
                        proof {
                            lemma_count_true_set(seen@, ni as int);
                            assert(nbrs@.contains(n));
                            lemma_connected_step(*self, c, seed, next, n);
                            lemma_push_contains(stack@, n);
                            assert forall|l: Loc| l.valid() && l.index() == ni implies l == n by {
                                lemma_index_bijection(l);
                                lemma_index_bijection(n);
                            }
                        }
                        seen.set(ni, true);
                        stack.push(n);
                        proof {
                            lemma_count_true_bound(seen@);
                        }
                    }
                }
                j = j + 1;
            }
            proof {
                assert forall|i: int, y: Loc|
                    0 <= i < tiles.len() && y.valid() && (#[trigger] tiles@[i]).loc.adjacent(y)
                        && #[trigger] self.is_like(c, y) implies seen@[y.index()] by {
                    if i == tiles.len() - 1 {
                        assert(next.neighbour_set().contains(y));
                        assert(nbrs@.contains(y));
                    }
                }
            }
        }
        let g = BoardCasino { casino: c, tiles };
        proof {
            let s = Set::new(|l: Loc| tiles_have(g.tiles@, l));
            assert(g.tiles.len() > 0);
            assert(s.contains(seed));
            assert forall|a: Loc, y: Loc|
                s.contains(a) && #[trigger] self.is_like(c, y) && #[trigger] a.adjacent(y) implies s.contains(y) by {
                let i = choose|i: int| 0 <= i < g.tiles.len() && (#[trigger] g.tiles@[i]).loc == a;
                assert(seen@[y.index()]);
            }
            assert forall|y: Loc| self.in_group(seed, y) implies #[trigger] g.has_loc(y) by {
                let p = choose|p: Seq<Loc>| #[trigger] self.is_path(c, p) && p[0] == seed && p.last() == y;
                lemma_path_closed(*self, c, p, s);
            }
            assert forall|i: int| 0 <= i < g.tiles.len() implies self.in_group(seed, (#[trigger] g.tiles@[i]).loc) by {
                assert(seen@[g.tiles@[i].loc.index()]);
            }
        }
        Some(g)
    }

    /// Every casino group on the board, each once, in canonical order of
    /// their first locations.
    pub fn casinos(&self) -> (r: Vec<BoardCasino>)
        ensures
            forall|i: int|
                0 <= i < r.len() ==> self.is_group_at((#[trigger] r@[i]).tiles@[0].loc, r@[i]),
            forall|i: int, j: int, l: Loc|
                0 <= i < j < r.len() ==> !(#[trigger] r@[i].has_loc(l) && #[trigger] r@[j].has_loc(l)),
            forall|l: Loc|
                l.valid() ==> (self.tile(l) is Built <==> exists|i: int|
                    0 <= i < r.len() && #[trigger] r@[i].has_loc(l)),
            forall|i: int, j: int|
                0 <= i < j < r.len() ==> (#[trigger] r@[i]).tiles@[0].loc.index() < (#[trigger] r@[j]).tiles@[0].loc.index(),
    {
        let mut seen: Vec<bool> = Vec::new();
        let mut k: usize = 0;
        while k < LOC_COUNT
            invariant
                k <= LOC_COUNT,
                seen.len() == k,
                forall|j: int| 0 <= j < k ==> !seen@[j],
            decreases LOC_COUNT - k,
        {
            seen.push(false);
            k = k + 1;
        }
        let mut groups: Vec<BoardCasino> = Vec::new();
        k = 0;
        while k < LOC_COUNT
            invariant
                k <= LOC_COUNT,
                seen.len() == LOC_COUNT,
                forall|i: int|
                    0 <= i < groups.len() ==> self.is_group_at(
                        (#[trigger] groups@[i]).tiles@[0].loc,
                        groups@[i],
                    ),
                forall|i: int, j: int, l: Loc|
                    0 <= i < j < groups.len() ==> !(#[trigger] groups@[i].has_loc(l)
                        && #[trigger] groups@[j].has_loc(l)),
                forall|l: Loc|
                    l.valid() ==> (#[trigger] seen@[l.index()] <==> exists|i: int|
                        0 <= i < groups.len() && #[trigger] groups@[i].has_loc(l)),
                forall|l: Loc|
                    l.valid() && l.index() < k && self.tile(l) is Built ==> #[trigger] seen@[l.index()],
                forall|a: int, c: int|
                    0 <= a < c < groups.len() ==> (#[trigger] groups@[a]).tiles@[0].loc.index() < (#[trigger] groups@[c]).tiles@[0].loc.index(),
                forall|a: int| 0 <= a < groups.len() ==> (#[trigger] groups@[a]).tiles@[0].loc.index() < k,
            decreases LOC_COUNT - k,
        {
            let l = Loc::at_index(k);
            let ghost seen0 = seen@;
            let ghost groups0 = groups@;
            if !seen[k] {
                match self.casino_at(&l) {
                    Some(g) => {
                        proof {
                            assert forall|i: int, y: Loc|
                                0 <= i < groups.len() && #[trigger] groups@[i].has_loc(y) implies !g.has_loc(y) by {
                                if g.has_loc(y) {
                                    let gi = groups@[i];
                                    let m = choose|m: int| 0 <= m < gi.tiles.len() && (#[trigger] gi.tiles@[m]).loc == y;
                                    let n = choose|n: int| 0 <= n < g.tiles.len() && (#[trigger] g.tiles@[n]).loc == y;
                                    assert(self.in_group(gi.tiles@[0].loc, gi.tiles@[m].loc));
                                    assert(self.in_group(l, g.tiles@[n].loc));
                                    lemma_groups_meet(*self, gi.tiles@[0].loc, l, y);
                                    assert(gi.has_loc(l));
                                    assert(seen@[l.index()]);
                                }
                            }
                        }
                        let mut t: usize = 0;
                        while t < g.tiles.len()
                            invariant
                                seen.len() == LOC_COUNT,
                                self.is_group_at(l, g),
                                t <= g.tiles.len(),
                                forall|y: Loc|
                                    y.valid() ==> (#[trigger] seen@[y.index()] <==> (exists|i: int|
                                        0 <= i < groups.len() && #[trigger] groups@[i].has_loc(y))
                                        || exists|m: int| 0 <= m < t && (#[trigger] g.tiles@[m]).loc == y),
                            decreases g.tiles.len() - t,
                        {
                            let tl = g.tiles[t].loc;
                            proof {
                                assert(self.in_group(l, g.tiles@[t as int].loc));
                                lemma_connected_ends(*self, g.casino, l, tl);
                            }
                            let ti = tl.index_of();
                            seen.set(ti, true);
                            proof {
                                assert forall|y: Loc| y.valid() && y.index() == ti implies y == tl by {
                                    lemma_index_bijection(y);
                                    lemma_index_bijection(tl);
                                }
                            }
                            t = t + 1;
                        }
                        let ghost g0 = groups@;
                        groups.push(g);
                        proof {
                            assert(groups@[g0.len() as int] == g);
                            assert(g.has_loc(l)) by {
                                assert(g.tiles@[0].loc == l);
                            }
                            assert forall|y: Loc| y.valid() implies (#[trigger] seen@[y.index()] <==> exists|i: int|
                                0 <= i < groups.len() && #[trigger] groups@[i].has_loc(y)) by {
                                if exists|i: int| 0 <= i < g0.len() && #[trigger] g0[i].has_loc(y) {
                                    let i = choose|i: int| 0 <= i < g0.len() && #[trigger] g0[i].has_loc(y);
                                    assert(groups@[i] == g0[i]);
                                }
                                if exists|m: int| 0 <= m < g.tiles.len() && (#[trigger] g.tiles@[m]).loc == y {
                                    assert(groups@[g0.len() as int].has_loc(y));
                                }
                                if exists|i: int| 0 <= i < groups.len() && #[trigger] groups@[i].has_loc(y) {
                                    let i = choose|i: int| 0 <= i < groups.len() && #[trigger] groups@[i].has_loc(y);
                                    if i < g0.len() {
                                        assert(g0[i].has_loc(y));
                                    } else {
                                        assert(g.has_loc(y));
                                        let m = choose|m: int| 0 <= m < g.tiles.len() && (#[trigger] g.tiles@[m]).loc == y;
                                    }
                                }
                            }
                            assert forall|i: int, j: int, y: Loc|
                                0 <= i < j < groups.len() implies !(#[trigger] groups@[i].has_loc(y)
                                    && #[trigger] groups@[j].has_loc(y)) by {
                                assert(groups@[i] == g0[i]);
                                if j < g0.len() {
                                    assert(groups@[j] == g0[j]);
                                }
                            }
                        }
                    },
                    None => {},
                }
            }
            proof {
                assert forall|y: Loc| y.valid() && y.index() < k + 1 && self.tile(y) is Built implies #[trigger] seen@[y.index()] by {
                    lemma_index_bijection(y);
                    if y.index() < k {
                        assert(seen0[y.index()]);
                        let i = choose|i: int| 0 <= i < groups0.len() && #[trigger] groups0[i].has_loc(y);
                        assert(groups@[i] == groups0[i]);
                    } else {
                        assert(y == l);
                        if !seen0[y.index()] {
                            let i = (groups.len() - 1) as int;
                            assert(groups@[i].tiles@[0].loc == l);
                            assert(groups@[i].has_loc(l));
                        }
                    }
                }
            }
            k = k + 1;
        }
        proof {
            assert forall|l: Loc| l.valid() implies (self.tile(l) is Built <==> exists|i: int|
                0 <= i < groups.len() && #[trigger] groups@[i].has_loc(l)) by {
                lemma_index_bijection(l);
                if self.tile(l) is Built {
                    assert(seen@[l.index()]);
                }
                if exists|i: int| 0 <= i < groups.len() && #[trigger] groups@[i].has_loc(l) {
                    let i = choose|i: int| 0 <= i < groups.len() && #[trigger] groups@[i].has_loc(l);
                    let gi = groups@[i];
                    let m = choose|m: int| 0 <= m < gi.tiles.len() && (#[trigger] gi.tiles@[m]).loc == l;
                    assert(self.tile(gi.tiles@[m].loc) is Built);
                }
            }
        }
        groups
    }

    /// Rolls the die of the built tile at `loc` again; returns the new value,
    /// or `None` with the board unchanged where `loc` is not built.
    pub fn reroll_at(&mut self, loc: &Loc) -> (r: Option<usize>)
        requires
            loc.valid(),
        ensures
            r is Some <==> old(self).tile(*loc) is Built,
            r is None ==> final(self)@ == old(self)@,
            r is Some ==> 1 <= r->Some_0 <= 6 && final(self)@ == old(self)@.insert(
                loc.index() as usize,
                with_die(old(self).tile(*loc), r->Some_0),
            ),
            forall|l: Loc|
                l.valid() ==> #[trigger] final(self).tile(l) == if l == *loc && r is Some {
                    with_die(old(self).tile(l), r->Some_0)
                } else {
                    old(self).tile(l)
                },
            old(self).same_layout(*final(self)),
    {
        match self.get(loc) {
            BoardTile::Built { casino, player, .. } => {
                let die = roll();
                self.set(*loc, BoardTile::Built { casino, player, die });
                Some(die)
            },
            _ => None,
        }
    }

    /// Rolls the die at the location of each of `bosses` again and logs it.
    /// Only those locations change.
    fn reroll_all(&mut self, bosses: &Vec<CasinoTile>, log: &mut Vec<TieReroll>)
        requires
            forall|m: int|
                0 <= m < bosses.len() ==> (#[trigger] bosses@[m]).loc.valid() && old(self).tile(
                    bosses@[m].loc,
                ) is Built,
        ensures
            old(self).same_layout(*final(self)),
            final(log).len() >= old(log).len(),
            forall|i: int| 0 <= i < old(log).len() ==> final(log)@[i] == old(log)@[i],
            forall|i: int|
                old(log).len() <= i < final(log).len() ==> 1 <= (#[trigger] final(log)@[i]).die <= 6,
            forall|m: int|
                0 <= m < bosses.len() ==> logs_loc(
                    final(log)@,
                    old(log).len() as int,
                    (#[trigger] bosses@[m]).loc,
                ),
            forall|l: Loc|
                l.valid() && #[trigger] final(self).tile(l) != old(self).tile(l) ==> tiles_have(
                    bosses@,
                    l,
                ),
    {
        let mut j: usize = 0;
        while j < bosses.len()
            invariant
                j <= bosses.len(),
                old(self).same_layout(*self),
                forall|m: int|
                    0 <= m < bosses.len() ==> (#[trigger] bosses@[m]).loc.valid() && old(self).tile(
                        bosses@[m].loc,
                    ) is Built,
                log.len() >= old(log).len(),
                forall|i: int| 0 <= i < old(log).len() ==> log@[i] == old(log)@[i],
                forall|i: int| old(log).len() <= i < log.len() ==> 1 <= (#[trigger] log@[i]).die <= 6,
                forall|m: int|
                    0 <= m < j ==> logs_loc(log@, old(log).len() as int, (#[trigger] bosses@[m]).loc),
                forall|l: Loc|
                    l.valid() && #[trigger] self.tile(l) != old(self).tile(l) ==> exists|m: int|
                        0 <= m < j && (#[trigger] bosses@[m]).loc == l,
            decreases bosses.len() - j,
        {
            let loc = bosses[j].loc;
            let ghost before = *self;
            let ghost log0 = log@;
            proof {
                assert(layout_kept(old(self).tile(loc), self.tile(loc)));
            }
            let rolled = self.reroll_at(&loc);
            proof {
                lemma_same_layout_transitive(*old(self), before, *self);
            }
            match rolled {
                Some(die) => {
                    log.push(TieReroll { loc, player: bosses[j].player, die });
                },
                None => {},
            }
            proof {
                assert(log@[log.len() - 1].loc == loc);
                assert forall|m: int| 0 <= m < j + 1 implies logs_loc(
                    log@,
                    old(log).len() as int,
                    (#[trigger] bosses@[m]).loc,
                ) by {
                    if m < j {
                        let i = choose|i: int|
                            old(log).len() <= i < log0.len() && (#[trigger] log0[i]).loc == bosses@[m].loc;
                        assert(log@[i] == log0[i]);
                    }
                }
                assert forall|l: Loc|
                    l.valid() && #[trigger] self.tile(l) != old(self).tile(l) implies exists|m: int|
                        0 <= m < j + 1 && (#[trigger] bosses@[m]).loc == l by {
                    if l == loc {
                        assert(bosses@[j as int].loc == l);
                    } else {
                        assert(before.tile(l) == self.tile(l));
                    }
                }
            }
            j = j + 1;
        }
    }

    /// One pass over every casino group: the boss dice of each tied group
    /// are rolled again and logged. Returns whether any group was tied.
    fn tie_pass(&mut self, log: &mut Vec<TieReroll>) -> (found: bool)
        ensures
            old(self).same_layout(*final(self)),
            !found ==> *final(self) == *old(self) && old(self).no_ties() && final(log)@ == old(log)@,
            found ==> !old(self).no_ties(),
            changes_only_tie_bosses(*old(self), *final(self)),
            final(log).len() >= old(log).len(),
            forall|i: int| 0 <= i < old(log).len() ==> final(log)@[i] == old(log)@[i],
            forall|i: int|
                old(log).len() <= i < final(log).len() ==> 1 <= (#[trigger] final(log)@[i]).die <= 6,
            bosses_logged(*old(self), final(log)@, old(log).len() as int),
    {
        let groups = self.casinos();
        proof {
            lemma_lists_groups_intro(*self, groups@);
        }
        self.tie_pass_over(&groups, log)
    }

    /// The pass of `tie_pass` over the groups that `groups` lists.
    fn tie_pass_over(&mut self, groups: &Vec<BoardCasino>, log: &mut Vec<TieReroll>) -> (found: bool)
        requires
            lists_groups(*old(self), groups@),
        ensures
            old(self).same_layout(*final(self)),
            !found ==> *final(self) == *old(self) && old(self).no_ties() && final(log)@ == old(log)@,
            found ==> !old(self).no_ties(),
            changes_only_tie_bosses(*old(self), *final(self)),
            final(log).len() >= old(log).len(),
            forall|i: int| 0 <= i < old(log).len() ==> final(log)@[i] == old(log)@[i],
            forall|i: int|
                old(log).len() <= i < final(log).len() ==> 1 <= (#[trigger] final(log)@[i]).die <= 6,
            bosses_logged(*old(self), final(log)@, old(log).len() as int),
    {
        let ghost b0 = *self;
        proof {
            lemma_pass_start(b0, groups@, log@, log.len() as int);
        }
        let mut found = false;
        let mut i: usize = 0;
        while i < groups.len()
            invariant
                i <= groups.len(),
                lists_groups(b0, groups@),
                b0.same_layout(*self),
                !found ==> *self == b0 && log@ == old(log)@,
                found ==> !b0.no_ties(),
                !found ==> settled_upto(b0, groups@, i as int),
                changes_only_tie_bosses(b0, *self),
                log.len() >= old(log).len(),
                forall|k: int| 0 <= k < old(log).len() ==> log@[k] == old(log)@[k],
                forall|k: int| old(log).len() <= k < log.len() ==> 1 <= (#[trigger] log@[k]).die <= 6,
                logged_upto(b0, groups@, i as int, log@, old(log).len() as int),
            decreases groups.len() - i,
        {
            let bosses = groups[i].boss_tiles();
            proof {
                lemma_pass_group(b0, groups@, i as int);
            }
            let ghost log0 = log@;
            if players_tied(&bosses) {
                found = true;
                let ghost before = *self;
                proof {
                    assert forall|m: int| 0 <= m < bosses.len() implies (#[trigger] bosses@[m]).loc.valid()
                        && self.tile(bosses@[m].loc) is Built by {
                        assert(layout_kept(b0.tile(bosses@[m].loc), self.tile(bosses@[m].loc)));
                    }
                }
                self.reroll_all(&bosses, log);
                proof {
                    lemma_same_layout_transitive(b0, before, *self);
                    lemma_changes_step(b0, before, *self, bosses@);
                }
            }
            proof {
                lemma_logged_step(b0, groups@, i as int, log0, log@, old(log).len() as int);
            }
            i = i + 1;
        }
        proof {
            if !found {
                lemma_no_ties_from_groups(b0, groups@);
            }
            lemma_bosses_logged(b0, groups@, log@, old(log).len() as int);
        }
        found
    }

    /// Rolls tied boss dice again, pass after pass, until no casino group is
    /// tied. Returns `Ok(None)` with the board unchanged where nothing was
    /// tied, `Ok(Some(rerolls))` once ties were settled, and an error holding
    /// the rerolls where ties remain after `MAX_TIE_PASSES` passes.
    ///
    /// Every boss tile of a group tied at the start gets a reroll record,
    /// and the tiles of groups untied at the start keep their state.
    pub fn resolve_boss_ties(&mut self) -> (r: Result<Option<Vec<TieReroll>>, UnresolvedTies>)
        ensures
            old(self).same_layout(*final(self)),
            r is Ok ==> final(self).no_ties(),
            (r is Ok && r->Ok_0 is None) <==> old(self).no_ties(),
            old(self).no_ties() ==> *final(self) == *old(self),
            forall|i: int| 0 <= i < rerolls_of(r).len() ==> 1 <= (#[trigger] rerolls_of(r)[i]).die <= 6,
            forall|s: Loc, y: Loc|
                s.valid() && old(self).tied_at(s) && #[trigger] old(self).is_boss(s, y) ==> logs_loc(
                    rerolls_of(r),
                    0,
                    y,
                ),
            forall|s: Loc, l: Loc|
                s.valid() && !old(self).tied_at(s) && #[trigger] old(self).in_group(s, l)
                    ==> final(self).tile(l) == old(self).tile(l),
    {
        let mut log: Vec<TieReroll> = Vec::new();
        let mut passes: usize = 0;
        proof {
            lemma_untied_kept_refl(*self);
        }
        while passes < MAX_TIE_PASSES
            invariant
                old(self).same_layout(*self),
                passes == 0 ==> *self == *old(self) && log.len() == 0,
                passes > 0 ==> !old(self).no_ties(),
                forall|i: int| 0 <= i < log.len() ==> 1 <= (#[trigger] log@[i]).die <= 6,
                untied_kept(*old(self), *self),
                passes > 0 ==> bosses_logged(*old(self), log@, 0),
            decreases MAX_TIE_PASSES - passes,
        {
            let ghost before = *self;
            let ghost log0 = log@;
            let found = self.tie_pass(&mut log);
            proof {
                lemma_same_layout_transitive(*old(self), before, *self);
                lemma_untied_kept_step(*old(self), before, *self);
                if passes > 0 {
                    lemma_bosses_logged_extend(*old(self), log0, log@, 0);
                }
            }
            if !found {
                if passes == 0 {
                    proof {
                        lemma_resolution_facts(*old(self), *self, Seq::empty());
                    }
                    return Ok(None);
                } else {
                    proof {
                        lemma_resolution_facts(*old(self), *self, log@);
                    }
                    return Ok(Some(log));
                }
            }
            passes = passes + 1;
        }
        proof {
            lemma_resolution_facts(*old(self), *self, log@);
        }
        Err(UnresolvedTies { rerolls: log })
    }

    /// How many owner tokens and dice of player `p` stand on the board.
    pub fn used_resources(&self, p: usize) -> (r: UsedResources)
        ensures
            r.tokens == self.count_tiles(token_of(p), LOC_COUNT as int),
            r.dice == self.count_tiles(die_of(p), LOC_COUNT as int),
    {
        let mut used = UsedResources { dice: 0, tokens: 0 };
        let mut i: usize = 0;
        while i < LOC_COUNT
            invariant
                i <= LOC_COUNT,
                used.tokens == self.count_tiles(token_of(p), i as int),
                used.dice == self.count_tiles(die_of(p), i as int),
                used.tokens <= i,
                used.dice <= i,
            decreases LOC_COUNT - i,
        {
            let l = Loc::at_index(i);
            match self.get(&l) {
                BoardTile::Owned { player } => {
                    if player == p {
                        used.tokens = used.tokens + 1;
                    }
                },
                BoardTile::Built { player, .. } => {
                    if player == p {
                        used.dice = used.dice + 1;
                    }
                },
                BoardTile::Unowned => {},
            }
            i = i + 1;
        }
        used
    }

    /// How many built tiles carry casino `c`.
    pub fn casino_tile_count(&self, c: &Casino) -> (r: usize)
        ensures
            r == self.count_tiles(built_in(*c), LOC_COUNT as int),
    {
        let mut count: usize = 0;
        let mut i: usize = 0;
        while i < LOC_COUNT
            invariant
                i <= LOC_COUNT,
                count == self.count_tiles(built_in(*c), i as int),
                count <= i,
            decreases LOC_COUNT - i,
        {
            let l = Loc::at_index(i);
            match self.get(&l) {
                BoardTile::Built { casino, .. } => {
                    if casino == *c {
                        count = count + 1;
                    }
                },
                _ => {},
            }
            i = i + 1;
        }
        count
    }

    /// Locations that player `p` owns and has not built, in canonical order.
    pub fn player_locs(&self, p: usize) -> (r: Vec<Loc>)
        ensures
            forall|l: Loc|
                #[trigger] r@.contains(l) <==> l.valid() && self.tile(l) == (BoardTile::Owned { player: p }),
            r@.no_duplicates(),
            forall|i: int, j: int| 0 <= i < j < r.len() ==> (#[trigger] r@[i]).index() < (#[trigger] r@[j]).index(),
    {
        let mut locs: Vec<Loc> = Vec::new();
        let mut i: usize = 0;
        while i < LOC_COUNT
            invariant
                i <= LOC_COUNT,
                forall|l: Loc|
                    #[trigger] locs@.contains(l) <==> l.valid() && l.index() < i && self.tile(l)
                        == (BoardTile::Owned { player: p }),
                locs@.no_duplicates(),
                forall|a: int, c: int| 0 <= a < c < locs.len() ==> (#[trigger] locs@[a]).index() < (#[trigger] locs@[c]).index(),
                forall|a: int| 0 <= a < locs.len() ==> (#[trigger] locs@[a]).index() < i,
            decreases LOC_COUNT - i,
        {
            let l = Loc::at_index(i);
            let t = self.get(&l);
            proof {
                lemma_push_contains(locs@, l);
                assert forall|y: Loc| y.valid() && y.index() == i implies y == l by {
                    lemma_index_bijection(y);
                }
            }
            match t {
                BoardTile::Owned { player } => {
                    if player == p {
                        locs.push(l);
                    }
                },
                _ => {},
            }
            i = i + 1;
        }
        locs
    }
}

proof fn lemma_count_true_bound(s: Seq<bool>)
    ensures
        count_true(s) <= s.len(),
    decreases s.len(),
{
    if s.len() > 0 {
        lemma_count_true_bound(s.drop_last());
    }
}

proof fn lemma_count_true_set(s: Seq<bool>, k: int)
    requires
        0 <= k < s.len(),
        !s[k],
    ensures
        count_true(s.update(k, true)) == count_true(s) + 1,
    decreases s.len(),
{
    let t = s.update(k, true);
    if k == s.len() - 1 {
        assert(t.drop_last() == s.drop_last());
    } else {
        assert(t.drop_last() == s.drop_last().update(k, true));
        lemma_count_true_set(s.drop_last(), k);
    }
}

proof fn lemma_connected_refl(b: Board, c: Casino, x: Loc)
    requires
        b.is_like(c, x),
    ensures
        b.connected(c, x, x),
{
    assert(b.is_path(c, seq![x]));
}

proof fn lemma_connected_step(b: Board, c: Casino, x: Loc, y: Loc, z: Loc)
    requires
        b.connected(c, x, y),
        b.is_like(c, z),
        y.adjacent(z),
    ensures
        b.connected(c, x, z),
{
    let p = choose|p: Seq<Loc>| #[trigger] b.is_path(c, p) && p[0] == x && p.last() == y;
    let q = p.push(z);
    assert(q[q.len() - 2] == y);
    assert(b.is_path(c, q));
}

/// A set that holds the start of a walk and is closed under steps to
/// adjacent tiles of the casino holds the end of the walk.
proof fn lemma_path_closed(b: Board, c: Casino, p: Seq<Loc>, s: Set<Loc>)
    requires
        b.is_path(c, p),
        s.contains(p[0]),
        forall|a: Loc, y: Loc|
            s.contains(a) && #[trigger] b.is_like(c, y) && #[trigger] a.adjacent(y) ==> s.contains(y),
    ensures
        s.contains(p.last()),
    decreases p.len(),
{
    if p.len() > 1 {
        let q = p.drop_last();
        assert(b.is_path(c, q));
        lemma_path_closed(b, c, q, s);
        assert(q.last() == p[p.len() - 2]);
        assert(b.is_like(c, p.last()));
        assert(p[p.len() - 2].adjacent(p.last()));
    }
}

proof fn lemma_connected_ends(b: Board, c: Casino, x: Loc, y: Loc)
    requires
        b.connected(c, x, y),
    ensures
        b.is_like(c, x),
        b.is_like(c, y),
{
    let p = choose|p: Seq<Loc>| #[trigger] b.is_path(c, p) && p[0] == x && p.last() == y;
    assert(b.is_like(c, p[0]));
    assert(b.is_like(c, p[p.len() - 1]));
}

proof fn lemma_connected_symmetric(b: Board, c: Casino, x: Loc, y: Loc)
    requires
        b.connected(c, x, y),
    ensures
        b.connected(c, y, x),
{
    let p = choose|p: Seq<Loc>| #[trigger] b.is_path(c, p) && p[0] == x && p.last() == y;
    let q = Seq::new(p.len(), |i: int| p[p.len() - 1 - i]);
    assert forall|i: int| 0 <= i < q.len() - 1 implies (#[trigger] q[i]).adjacent(q[i + 1]) by {
        assert(p[p.len() - 2 - i].adjacent(p[p.len() - 1 - i]));
    }
    assert forall|i: int| 0 <= i < q.len() implies b.is_like(c, #[trigger] q[i]) by {
        assert(b.is_like(c, p[p.len() - 1 - i]));
    }
    assert(b.is_path(c, q));
}

proof fn lemma_connected_transitive(b: Board, c: Casino, x: Loc, y: Loc, z: Loc)
    requires
        b.connected(c, x, y),
        b.connected(c, y, z),
    ensures
        b.connected(c, x, z),
{
    let p = choose|p: Seq<Loc>| #[trigger] b.is_path(c, p) && p[0] == x && p.last() == y;
    let q = choose|q: Seq<Loc>| #[trigger] b.is_path(c, q) && q[0] == y && q.last() == z;
    let r = p + q.subrange(1, q.len() as int);
    assert forall|i: int| 0 <= i < r.len() implies b.is_like(c, #[trigger] r[i]) by {
        if i >= p.len() {
            assert(r[i] == q[i - p.len() + 1]);
        }
    }
    assert forall|i: int| 0 <= i < r.len() - 1 implies (#[trigger] r[i]).adjacent(r[i + 1]) by {
        if i == p.len() - 1 {
            assert(r[i + 1] == q[1]);
        } else if i >= p.len() {
            assert(r[i] == q[i - p.len() + 1]);
            assert(r[i + 1] == q[i - p.len() + 2]);
        }
    }
    assert(b.is_path(c, r));
    if q.len() == 1 {
        assert(r.last() == p.last());
    } else {
        assert(r.last() == q.last());
    }
}

/// Two casino groups that share a location hold each other's seeds.
proof fn lemma_groups_meet(b: Board, s1: Loc, s2: Loc, y: Loc)
    requires
        b.in_group(s1, y),
        b.in_group(s2, y),
    ensures
        b.in_group(s1, s2),
{
    let c1 = b.tile(s1)->Built_casino;
    let c2 = b.tile(s2)->Built_casino;
    lemma_connected_ends(b, c1, s1, y);
    lemma_connected_ends(b, c2, s2, y);
    lemma_connected_symmetric(b, c2, s2, y);
    lemma_connected_transitive(b, c1, s1, y, s2);
}

proof fn lemma_with_die_above(ts: Seq<CasinoTile>, d: nat)
    requires
        d > max_die(ts),
    ensures
        tiles_with_die(ts, d) == Seq::<CasinoTile>::empty(),
    decreases ts.len(),
{
    if ts.len() > 0 {
        lemma_with_die_above(ts.drop_last(), d);
    }
}

proof fn lemma_same_layout_transitive(a: Board, b: Board, c: Board)
    requires
        a.same_layout(b),
        b.same_layout(c),
    ensures
        a.same_layout(c),
{
    assert forall|l: Loc| l.valid() implies layout_kept(#[trigger] a.tile(l), c.tile(l)) by {
        assert(layout_kept(a.tile(l), b.tile(l)));
        assert(layout_kept(b.tile(l), c.tile(l)));
    }
}

pub(crate) proof fn lemma_max_die(ts: Seq<CasinoTile>)
    ensures
        forall|i: int| 0 <= i < ts.len() ==> (#[trigger] ts[i]).die <= max_die(ts),
        ts.len() > 0 ==> exists|i: int| 0 <= i < ts.len() && (#[trigger] ts[i]).die == max_die(ts),
    decreases ts.len(),
{
    if ts.len() > 0 {
        let p = ts.drop_last();
        lemma_max_die(p);
        assert forall|i: int| 0 <= i < ts.len() implies (#[trigger] ts[i]).die <= max_die(ts) by {
            if i < p.len() {
                assert(ts[i] == p[i]);
            }
        }
        if ts.last().die > max_die(p) || p.len() == 0 {
            assert(ts[ts.len() - 1].die == max_die(ts));
        } else {
            let i = choose|i: int| 0 <= i < p.len() && (#[trigger] p[i]).die == max_die(p);
            assert(ts[i] == p[i]);
        }
    }
}

proof fn lemma_with_die_members(ts: Seq<CasinoTile>, d: nat)
    ensures
        forall|t: CasinoTile| #[trigger] tiles_with_die(ts, d).contains(t) <==> ts.contains(t) && t.die == d,
    decreases ts.len(),
{
    if ts.len() > 0 {
        let p = ts.drop_last();
        lemma_with_die_members(p, d);
        lemma_push_contains(tiles_with_die(p, d), ts.last());
        lemma_push_contains(p, ts.last());
        assert(ts == p.push(ts.last()));
    }
}

pub(crate) proof fn lemma_boss_tiles_nonempty(g: BoardCasino)
    requires
        g.tiles.len() > 0,
    ensures
        g.spec_boss_tiles().len() > 0,
{
    lemma_max_die(g.tiles@);
    lemma_with_die_members(g.tiles@, max_die(g.tiles@));
    let i = choose|i: int| 0 <= i < g.tiles.len() && (#[trigger] g.tiles@[i]).die == max_die(g.tiles@);
    assert(g.tiles@.contains(g.tiles@[i]));
    assert(g.spec_boss_tiles().contains(g.tiles@[i]));
}

/// Locations in one casino group have the same group.
proof fn lemma_same_group(b: Board, s1: Loc, s2: Loc)
    requires
        b.in_group(s1, s2),
    ensures
        forall|y: Loc| b.in_group(s1, y) <==> b.in_group(s2, y),
        forall|y: Loc| b.is_boss(s1, y) <==> b.is_boss(s2, y),
        b.tied_at(s1) <==> b.tied_at(s2),
{
    let c = b.tile(s1)->Built_casino;
    lemma_connected_ends(b, c, s1, s2);
    lemma_connected_symmetric(b, c, s1, s2);
    assert forall|y: Loc| b.in_group(s1, y) <==> b.in_group(s2, y) by {
        if b.in_group(s1, y) {
            lemma_connected_transitive(b, c, s2, s1, y);
        }
        if b.in_group(s2, y) {
            lemma_connected_transitive(b, c, s1, s2, y);
        }
    }
    assert forall|y: Loc| b.is_boss(s1, y) <==> b.is_boss(s2, y) by {
        if b.is_boss(s1, y) {
            assert forall|w: Loc| #[trigger] b.in_group(s2, w) implies b.tile(w)->Built_die <= b.tile(y)->Built_die by {
                assert(b.in_group(s1, w));
            }
        }
        if b.is_boss(s2, y) {
            assert forall|w: Loc| #[trigger] b.in_group(s1, w) implies b.tile(w)->Built_die <= b.tile(y)->Built_die by {
                assert(b.in_group(s2, w));
            }
        }
    }
    if b.tied_at(s1) {
        let (y, z) = choose|y: Loc, z: Loc| #[trigger] b.is_boss(s1, y) && #[trigger] b.is_boss(s1, z)
            && b.tile(y)->Built_player != b.tile(z)->Built_player;
        assert(b.is_boss(s2, y) && b.is_boss(s2, z));
    }
    if b.tied_at(s2) {
        let (y, z) = choose|y: Loc, z: Loc| #[trigger] b.is_boss(s2, y) && #[trigger] b.is_boss(s2, z)
            && b.tile(y)->Built_player != b.tile(z)->Built_player;
        assert(b.is_boss(s1, y) && b.is_boss(s1, z));
    }
}

/// A listed group is tied exactly when its boss tiles belong to more than
/// one player.
pub proof fn lemma_tied_iff(b: Board, s: Loc, g: BoardCasino)
    requires
        b.is_group_at(s, g),
    ensures
        b.tied_at(s) <==> players_differ(g.spec_boss_tiles()),
{
    let ts = g.tiles@;
    let m = max_die(ts);
    let bs = g.spec_boss_tiles();
    lemma_max_die(ts);
    lemma_with_die_members(ts, m);
    let k = choose|i: int| 0 <= i < ts.len() && (#[trigger] ts[i]).die == m;
    // A tile of the group at the highest die is a boss, and only those are.
    assert forall|i: int| 0 <= i < ts.len() implies (b.is_boss(s, (#[trigger] ts[i]).loc) <==> ts[i].die == m) by {
        assert(b.tile(ts[i].loc) == (BoardTile::Built { player: ts[i].player, casino: g.casino, die: ts[i].die }));
        assert(b.in_group(s, ts[i].loc));
        assert(b.tile(ts[k].loc) == (BoardTile::Built { player: ts[k].player, casino: g.casino, die: ts[k].die }));
        assert(b.in_group(s, ts[k].loc));
        if ts[i].die == m {
            assert forall|w: Loc| #[trigger] b.in_group(s, w) implies b.tile(w)->Built_die <= b.tile(ts[i].loc)->Built_die by {
                assert(g.has_loc(w));
                let n = choose|n: int| 0 <= n < ts.len() && (#[trigger] ts[n]).loc == w;
                assert(b.tile(ts[n].loc) == (BoardTile::Built { player: ts[n].player, casino: g.casino, die: ts[n].die }));
            }
        }
    }
    if b.tied_at(s) {
        let (y, z) = choose|y: Loc, z: Loc| #[trigger] b.is_boss(s, y) && #[trigger] b.is_boss(s, z)
            && b.tile(y)->Built_player != b.tile(z)->Built_player;
        assert(g.has_loc(y));
        assert(g.has_loc(z));
        let iy = choose|n: int| 0 <= n < ts.len() && (#[trigger] ts[n]).loc == y;
        let iz = choose|n: int| 0 <= n < ts.len() && (#[trigger] ts[n]).loc == z;
        assert(b.tile(ts[iy].loc) == (BoardTile::Built { player: ts[iy].player, casino: g.casino, die: ts[iy].die }));
        assert(b.tile(ts[iz].loc) == (BoardTile::Built { player: ts[iz].player, casino: g.casino, die: ts[iz].die }));
        assert(ts.contains(ts[iy]));
        assert(ts.contains(ts[iz]));
        assert(bs.contains(ts[iy]));
        assert(bs.contains(ts[iz]));
        let my = choose|n: int| 0 <= n < bs.len() && bs[n] == ts[iy];
        let mz = choose|n: int| 0 <= n < bs.len() && bs[n] == ts[iz];
        if bs[my].player == bs[0].player {
            assert(bs[mz].player != bs[0].player);
        }
    }
    if players_differ(bs) {
        let n = choose|n: int| 0 <= n < bs.len() && (#[trigger] bs[n]).player != bs[0].player;
        assert(bs.contains(bs[0]));
        assert(bs.contains(bs[n]));
        let i0 = choose|i: int| 0 <= i < ts.len() && ts[i] == bs[0];
        let i1 = choose|i: int| 0 <= i < ts.len() && ts[i] == bs[n];
        assert(b.is_boss(s, ts[i0].loc));
        assert(b.is_boss(s, ts[i1].loc));
        assert(b.tile(ts[i0].loc) == (BoardTile::Built { player: ts[i0].player, casino: g.casino, die: ts[i0].die }));
        assert(b.tile(ts[i1].loc) == (BoardTile::Built { player: ts[i1].player, casino: g.casino, die: ts[i1].die }));
    }
}

/// `groups` lists casino groups of `b` that cover every built tile.
#[verifier::opaque]
spec fn lists_groups(b: Board, groups: Seq<BoardCasino>) -> bool {
    &&& forall|k: int| 0 <= k < groups.len() ==> b.is_group_at((#[trigger] groups[k]).tiles@[0].loc, groups[k])
    &&& forall|l: Loc|
        l.valid() ==> (b.tile(l) is Built <==> exists|k: int|
            0 <= k < groups.len() && #[trigger] groups[k].has_loc(l))
}

/// None of the first `n` groups of `groups` is tied.
#[verifier::opaque]
spec fn settled_upto(b: Board, groups: Seq<BoardCasino>, n: int) -> bool {
    forall|k: int| 0 <= k < n ==> !b.tied_at((#[trigger] groups[k]).tiles@[0].loc)
}

/// What one step of a tie pass needs to know of the group at `i`.
proof fn lemma_pass_group(b: Board, groups: Seq<BoardCasino>, i: int)
    requires
        lists_groups(b, groups),
        0 <= i < groups.len(),
    ensures
        forall|m: int|
            0 <= m < groups[i].spec_boss_tiles().len() ==> (#[trigger] groups[i].spec_boss_tiles()[m]).loc.valid()
                && b.tile(groups[i].spec_boss_tiles()[m].loc) is Built,
        players_differ(groups[i].spec_boss_tiles()) ==> !b.no_ties(),
        players_differ(groups[i].spec_boss_tiles()) ==> forall|l: Loc|
            #[trigger] tiles_have(groups[i].spec_boss_tiles(), l) ==> b.tie_boss(l),
        !players_differ(groups[i].spec_boss_tiles()) && settled_upto(b, groups, i) ==> settled_upto(
            b,
            groups,
            i + 1,
        ),
{
    let seed = groups[i].tiles@[0].loc;
    lemma_listed_group(b, groups, i);
    lemma_tied_iff(b, seed, groups[i]);
    lemma_boss_locs_valid(b, seed, groups[i]);
    lemma_boss_members(b, seed, groups[i]);
    if players_differ(groups[i].spec_boss_tiles()) {
        reveal(Board::tie_boss);
        assert(b.tied_at(seed));
        let bs = groups[i].spec_boss_tiles();
        assert forall|l: Loc| #[trigger] tiles_have(bs, l) implies b.tie_boss(l) by {
            let m = choose|m: int| 0 <= m < bs.len() && (#[trigger] bs[m]).loc == l;
            assert(b.is_boss(seed, bs[m].loc));
        }
    } else if settled_upto(b, groups, i) {
        reveal(settled_upto);
        assert forall|k: int| 0 <= k < i + 1 implies !b.tied_at((#[trigger] groups[k]).tiles@[0].loc) by {
            if k < i {
                assert(!b.tied_at(groups[k].tiles@[0].loc));
            }
        }
    }
}

proof fn lemma_listed_group(b: Board, groups: Seq<BoardCasino>, i: int)
    requires
        lists_groups(b, groups),
        0 <= i < groups.len(),
    ensures
        b.is_group_at(groups[i].tiles@[0].loc, groups[i]),
{
    reveal(lists_groups);
}

/// Every boss tile of each tied group among the first `n` of `groups` has a
/// record in `log` from position `from` on.
#[verifier::opaque]
spec fn logged_upto(b: Board, groups: Seq<BoardCasino>, n: int, log: Seq<TieReroll>, from: int) -> bool {
    forall|k: int, m: int|
        0 <= k < n && players_differ(groups[k].spec_boss_tiles()) && 0 <= m
            < groups[k].spec_boss_tiles().len() ==> logs_loc(
            log,
            from,
            (#[trigger] groups[k].spec_boss_tiles()[m]).loc,
        )
}

proof fn lemma_logged_step(
    b: Board,
    groups: Seq<BoardCasino>,
    i: int,
    before: Seq<TieReroll>,
    after: Seq<TieReroll>,
    from: int,
)
    requires
        0 <= i < groups.len(),
        logged_upto(b, groups, i, before, from),
        0 <= from <= before.len() <= after.len(),
        forall|k: int| 0 <= k < before.len() ==> after[k] == before[k],
        players_differ(groups[i].spec_boss_tiles()) ==> forall|m: int|
            0 <= m < groups[i].spec_boss_tiles().len() ==> logs_loc(
                after,
                before.len() as int,
                (#[trigger] groups[i].spec_boss_tiles()[m]).loc,
            ),
    ensures
        logged_upto(b, groups, i + 1, after, from),
{
    reveal(logged_upto);
    assert forall|k: int, m: int|
        0 <= k < i + 1 && players_differ(groups[k].spec_boss_tiles()) && 0 <= m
            < groups[k].spec_boss_tiles().len() implies logs_loc(
        after,
        from,
        (#[trigger] groups[k].spec_boss_tiles()[m]).loc,
    ) by {
        let l = groups[k].spec_boss_tiles()[m].loc;
        if k < i {
            assert(logs_loc(before, from, l));
            let j = choose|j: int| from <= j < before.len() && (#[trigger] before[j]).loc == l;
            assert(after[j] == before[j]);
        } else {
            let j = choose|j: int| before.len() <= j < after.len() && (#[trigger] after[j]).loc == l;
        }
    }
}

/// Where every tied listed group had its boss tiles logged, every boss of
/// every tied group of the board was logged.
proof fn lemma_bosses_logged(b: Board, groups: Seq<BoardCasino>, log: Seq<TieReroll>, from: int)
    requires
        lists_groups(b, groups),
        logged_upto(b, groups, groups.len() as int, log, from),
    ensures
        bosses_logged(b, log, from),
{
    reveal(bosses_logged);
    assert forall|s: Loc, y: Loc| s.valid() && b.tied_at(s) && #[trigger] b.is_boss(s, y) implies logs_loc(
        log,
        from,
        y,
    ) by {
        lemma_boss_logged_one(b, groups, log, from, s, y);
    }
}

proof fn lemma_boss_logged_one(
    b: Board,
    groups: Seq<BoardCasino>,
    log: Seq<TieReroll>,
    from: int,
    s: Loc,
    y: Loc,
)
    requires
        lists_groups(b, groups),
        logged_upto(b, groups, groups.len() as int, log, from),
        s.valid(),
        b.tied_at(s),
        b.is_boss(s, y),
    ensures
        logs_loc(log, from, y),
{
    lemma_connected_ends(b, b.tile(s)->Built_casino, s, y);
    lemma_listed_cover(b, groups, s);
    let k = choose|k: int| 0 <= k < groups.len() && #[trigger] groups[k].has_loc(s);
    lemma_listed_group(b, groups, k);
    let g = groups[k];
    let seed = g.tiles@[0].loc;
    let q = choose|q: int| 0 <= q < g.tiles.len() && (#[trigger] g.tiles@[q]).loc == s;
    assert(b.in_group(seed, g.tiles@[q].loc));
    lemma_same_group(b, seed, s);
    lemma_tied_iff(b, seed, g);
    lemma_boss_members(b, seed, g);
    let bs = g.spec_boss_tiles();
    assert(tiles_have(bs, y));
    let m = choose|m: int| 0 <= m < bs.len() && (#[trigger] bs[m]).loc == y;
    reveal(logged_upto);
    assert(logs_loc(log, from, groups[k].spec_boss_tiles()[m].loc));
}

/// Every tile of a group that is not tied on `a` is the same on `b`.
#[verifier::opaque]
spec fn untied_kept(a: Board, b: Board) -> bool {
    forall|s: Loc, l: Loc|
        s.valid() && !a.tied_at(s) && #[trigger] a.in_group(s, l) ==> b.tile(l) == a.tile(l)
}

/// Every location whose tile differs between `a` and `b` holds a boss of a
/// tied group on `a`.
#[verifier::opaque]
spec fn changes_only_tie_bosses(a: Board, b: Board) -> bool {
    forall|l: Loc| l.valid() && #[trigger] b.tile(l) != a.tile(l) ==> a.tie_boss(l)
}

/// Every boss of every tied group of `b` has a record in `log` from position
/// `from` on.
#[verifier::opaque]
spec fn bosses_logged(b: Board, log: Seq<TieReroll>, from: int) -> bool {
    forall|s: Loc, y: Loc|
        s.valid() && b.tied_at(s) && #[trigger] b.is_boss(s, y) ==> logs_loc(log, from, y)
}

proof fn lemma_changes_step(b0: Board, before: Board, after: Board, bs: Seq<CasinoTile>)
    requires
        changes_only_tie_bosses(b0, before),
        forall|l: Loc| l.valid() && #[trigger] after.tile(l) != before.tile(l) ==> tiles_have(bs, l),
        forall|l: Loc| #[trigger] tiles_have(bs, l) ==> b0.tie_boss(l),
    ensures
        changes_only_tie_bosses(b0, after),
{
    reveal(changes_only_tie_bosses);
    assert forall|l: Loc| l.valid() && #[trigger] after.tile(l) != b0.tile(l) implies b0.tie_boss(l) by {
        if after.tile(l) != before.tile(l) {
            assert(tiles_have(bs, l));
        } else {
            assert(before.tile(l) != b0.tile(l));
        }
    }
}

proof fn lemma_bosses_logged_extend(b: Board, before: Seq<TieReroll>, after: Seq<TieReroll>, from: int)
    requires
        bosses_logged(b, before, from),
        0 <= from,
        before.len() <= after.len(),
        forall|k: int| 0 <= k < before.len() ==> after[k] == before[k],
    ensures
        bosses_logged(b, after, from),
{
    reveal(bosses_logged);
    assert forall|s: Loc, y: Loc| s.valid() && b.tied_at(s) && #[trigger] b.is_boss(s, y) implies logs_loc(
        after,
        from,
        y,
    ) by {
        assert(logs_loc(before, from, y));
        let j = choose|j: int| from <= j < before.len() && (#[trigger] before[j]).loc == y;
        assert(after[j] == before[j]);
    }
}

proof fn lemma_listed_cover(b: Board, groups: Seq<BoardCasino>, l: Loc)
    requires
        lists_groups(b, groups),
        l.valid(),
        b.tile(l) is Built,
    ensures
        exists|k: int| 0 <= k < groups.len() && #[trigger] groups[k].has_loc(l),
{
    reveal(lists_groups);
}

proof fn lemma_pass_start(b: Board, groups: Seq<BoardCasino>, log: Seq<TieReroll>, from: int)
    ensures
        settled_upto(b, groups, 0),
        logged_upto(b, groups, 0, log, from),
        changes_only_tie_bosses(b, b),
{
    reveal(settled_upto);
    reveal(logged_upto);
    reveal(changes_only_tie_bosses);
}

proof fn lemma_untied_kept_refl(b: Board)
    ensures
        untied_kept(b, b),
{
    reveal(untied_kept);
}

/// The facts that tie resolution states on return, from what its loop keeps.
proof fn lemma_resolution_facts(o: Board, f: Board, log: Seq<TieReroll>)
    requires
        untied_kept(o, f),
        o.no_ties() || bosses_logged(o, log, 0),
    ensures
        forall|s: Loc, y: Loc|
            s.valid() && o.tied_at(s) && #[trigger] o.is_boss(s, y) ==> logs_loc(log, 0, y),
        forall|s: Loc, l: Loc|
            s.valid() && !o.tied_at(s) && #[trigger] o.in_group(s, l) ==> f.tile(l) == o.tile(l),
{
    reveal(untied_kept);
    reveal(bosses_logged);
}

proof fn lemma_lists_groups_intro(b: Board, groups: Seq<BoardCasino>)
    requires
        forall|k: int| 0 <= k < groups.len() ==> b.is_group_at((#[trigger] groups[k]).tiles@[0].loc, groups[k]),
        forall|l: Loc|
            l.valid() ==> (b.tile(l) is Built <==> exists|k: int|
                0 <= k < groups.len() && #[trigger] groups[k].has_loc(l)),
    ensures
        lists_groups(b, groups),
{
    reveal(lists_groups);
}

/// Where the listed groups cover every built tile and none is tied, the
/// board has no tie.
proof fn lemma_no_ties_from_groups(b: Board, groups: Seq<BoardCasino>)
    requires
        lists_groups(b, groups),
        settled_upto(b, groups, groups.len() as int),
    ensures
        b.no_ties(),
{
    reveal(lists_groups);
    reveal(settled_upto);
    assert forall|s: Loc| s.valid() implies !#[trigger] b.tied_at(s) by {
        if b.tile(s) is Built {
            let k = choose|k: int| 0 <= k < groups.len() && #[trigger] groups[k].has_loc(s);
            let g = groups[k];
            let m = choose|m: int| 0 <= m < g.tiles.len() && (#[trigger] g.tiles@[m]).loc == s;
            assert(b.in_group(g.tiles@[0].loc, g.tiles@[m].loc));
            lemma_same_group(b, g.tiles@[0].loc, s);
        }
    }
}

/// Whether the tiles of `bosses` belong to more than one player.
fn players_tied(bosses: &Vec<CasinoTile>) -> (r: bool)
    ensures
        r == players_differ(bosses@),
{
    let mut j: usize = 1;
    while j < bosses.len()
        invariant
            1 <= j,
            forall|m: int| 1 <= m < j && m < bosses.len() ==> (#[trigger] bosses@[m]).player == bosses@[0].player,
        decreases bosses.len() - j,
    {
        if bosses[j].player != bosses[0].player {
            return true;
        }
        j = j + 1;
    }
    false
}

proof fn lemma_boss_locs_valid(b: Board, s: Loc, g: BoardCasino)
    requires
        b.is_group_at(s, g),
    ensures
        forall|m: int| 0 <= m < g.spec_boss_tiles().len() ==> (#[trigger] g.spec_boss_tiles()[m]).loc.valid(),
{
    let bs = g.spec_boss_tiles();
    lemma_with_die_members(g.tiles@, max_die(g.tiles@));
    assert forall|m: int| 0 <= m < bs.len() implies (#[trigger] bs[m]).loc.valid() by {
        assert(bs.contains(bs[m]));
        let i = choose|i: int| 0 <= i < g.tiles.len() && g.tiles@[i] == bs[m];
        assert(b.in_group(s, g.tiles@[i].loc));
        lemma_connected_ends(b, g.casino, s, g.tiles@[i].loc);
    }
}

/// Boards with the same layout have the same casino groups.
proof fn lemma_layout_groups(a: Board, b: Board, s: Loc, y: Loc)
    requires
        a.same_layout(b),
    ensures
        a.in_group(s, y) <==> b.in_group(s, y),
{
    if a.in_group(s, y) {
        let c = a.tile(s)->Built_casino;
        lemma_connected_ends(a, c, s, y);
        assert(layout_kept(a.tile(s), b.tile(s)));
        let p = choose|p: Seq<Loc>| #[trigger] a.is_path(c, p) && p[0] == s && p.last() == y;
        assert forall|i: int| 0 <= i < p.len() implies b.is_like(c, #[trigger] p[i]) by {
            assert(a.is_like(c, p[i]));
            assert(layout_kept(a.tile(p[i]), b.tile(p[i])));
        }
        assert(b.is_path(c, p));
    }
    if b.in_group(s, y) {
        let c = b.tile(s)->Built_casino;
        lemma_connected_ends(b, c, s, y);
        assert(layout_kept(a.tile(s), b.tile(s)));
        let p = choose|p: Seq<Loc>| #[trigger] b.is_path(c, p) && p[0] == s && p.last() == y;
        assert forall|i: int| 0 <= i < p.len() implies a.is_like(c, #[trigger] p[i]) by {
            assert(b.is_like(c, p[i]));
            assert(layout_kept(a.tile(p[i]), b.tile(p[i])));
        }
        assert(a.is_path(c, p));
    }
}

/// A group whose tiles all kept their state keeps its tie status.
proof fn lemma_untouched_group_tie(a: Board, b: Board, s: Loc)
    requires
        a.same_layout(b),
        forall|y: Loc| #[trigger] a.in_group(s, y) ==> b.tile(y) == a.tile(y),
    ensures
        a.tied_at(s) <==> b.tied_at(s),
{
    assert forall|y: Loc| a.in_group(s, y) <==> #[trigger] b.in_group(s, y) by {
        lemma_layout_groups(a, b, s, y);
    }
    assert forall|y: Loc| a.is_boss(s, y) <==> #[trigger] b.is_boss(s, y) by {
        lemma_layout_groups(a, b, s, y);
        if a.is_boss(s, y) {
            assert forall|w: Loc| #[trigger] b.in_group(s, w) implies b.tile(w)->Built_die <= b.tile(y)->Built_die by {
                lemma_layout_groups(a, b, s, w);
            }
        }
        if b.is_boss(s, y) {
            assert forall|w: Loc| #[trigger] a.in_group(s, w) implies a.tile(w)->Built_die <= a.tile(y)->Built_die by {
                lemma_layout_groups(a, b, s, w);
            }
        }
    }
    if a.tied_at(s) {
        let (y, z) = choose|y: Loc, z: Loc| #[trigger] a.is_boss(s, y) && #[trigger] a.is_boss(s, z)
            && a.tile(y)->Built_player != a.tile(z)->Built_player;
        assert(b.is_boss(s, y) && b.is_boss(s, z));
    }
    if b.tied_at(s) {
        let (y, z) = choose|y: Loc, z: Loc| #[trigger] b.is_boss(s, y) && #[trigger] b.is_boss(s, z)
            && b.tile(y)->Built_player != b.tile(z)->Built_player;
        assert(a.is_boss(s, y) && a.is_boss(s, z));
        assert(a.in_group(s, y) && a.in_group(s, z));
    }
}

/// A pass that changes only boss tiles of tied groups leaves the groups
/// that were untied at the start untouched.
proof fn lemma_untied_kept_step(o: Board, cur: Board, next: Board)
    requires
        o.same_layout(cur),
        cur.same_layout(next),
        untied_kept(o, cur),
        changes_only_tie_bosses(cur, next),
    ensures
        untied_kept(o, next),
{
    reveal(untied_kept);
    reveal(changes_only_tie_bosses);
    reveal(Board::tie_boss);
    assert forall|s: Loc, l: Loc|
        s.valid() && !o.tied_at(s) && #[trigger] o.in_group(s, l) implies next.tile(l) == o.tile(l) by {
        assert(cur.tile(l) == o.tile(l));
        lemma_connected_ends(o, o.tile(s)->Built_casino, s, l);
        if next.tile(l) != cur.tile(l) {
            assert(cur.tie_boss(l));
            let s2 = choose|s2: Loc| s2.valid() && cur.tied_at(s2) && #[trigger] cur.is_boss(s2, l);
            lemma_layout_groups(o, cur, s2, l);
            lemma_groups_meet(o, s, s2, l);
            lemma_same_group(o, s, s2);
            assert forall|y: Loc| #[trigger] o.in_group(s2, y) implies cur.tile(y) == o.tile(y) by {
                assert(o.in_group(s, y));
            }
            lemma_untouched_group_tie(o, cur, s2);
        }
    }
}

/// The boss tiles of a listed group are exactly its bosses, and built.
proof fn lemma_boss_members(b: Board, s: Loc, g: BoardCasino)
    requires
        b.is_group_at(s, g),
    ensures
        forall|m: int|
            0 <= m < g.spec_boss_tiles().len() ==> b.is_boss(s, (#[trigger] g.spec_boss_tiles()[m]).loc)
                && b.tile(g.spec_boss_tiles()[m].loc) is Built,
        forall|y: Loc| #[trigger] b.is_boss(s, y) ==> tiles_have(g.spec_boss_tiles(), y),
{
    let ts = g.tiles@;
    let m = max_die(ts);
    let bs = g.spec_boss_tiles();
    lemma_max_die(ts);
    lemma_with_die_members(ts, m);
    let k = choose|i: int| 0 <= i < ts.len() && (#[trigger] ts[i]).die == m;
    assert(b.tile(ts[k].loc) == (BoardTile::Built { player: ts[k].player, casino: g.casino, die: ts[k].die }));
    assert(b.in_group(s, ts[k].loc));
    assert forall|n: int| 0 <= n < bs.len() implies b.is_boss(s, (#[trigger] bs[n]).loc) && b.tile(bs[n].loc) is Built by {
        assert(bs.contains(bs[n]));
        let i = choose|i: int| 0 <= i < ts.len() && ts[i] == bs[n];
        assert(b.tile(ts[i].loc) == (BoardTile::Built { player: ts[i].player, casino: g.casino, die: ts[i].die }));
        assert(b.in_group(s, ts[i].loc));
        assert forall|w: Loc| #[trigger] b.in_group(s, w) implies b.tile(w)->Built_die <= b.tile(ts[i].loc)->Built_die by {
            assert(g.has_loc(w));
            let q = choose|q: int| 0 <= q < ts.len() && (#[trigger] ts[q]).loc == w;
            assert(b.tile(ts[q].loc) == (BoardTile::Built { player: ts[q].player, casino: g.casino, die: ts[q].die }));
        }
    }
    assert forall|y: Loc| #[trigger] b.is_boss(s, y) implies tiles_have(bs, y) by {
        assert(g.has_loc(y));
        let q = choose|q: int| 0 <= q < ts.len() && (#[trigger] ts[q]).loc == y;
        assert(b.tile(ts[q].loc) == (BoardTile::Built { player: ts[q].player, casino: g.casino, die: ts[q].die }));
        assert(ts.contains(ts[q]));
        assert(bs.contains(ts[q]));
        let n = choose|n: int| 0 <= n < bs.len() && bs[n] == ts[q];
        assert(bs[n].loc == y);
    }
}

} // verus!

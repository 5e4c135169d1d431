use lords_of_vegas::board::{Block, Board, BoardCasino, BoardTile, CasinoTile, Loc};
use lords_of_vegas::casino::Casino;

fn loc(block: Block, lot: usize) -> Loc {
    Loc { block, lot }
}

fn built(casino: Casino, die: usize, player: usize) -> BoardTile {
    BoardTile::Built {
        casino,
        die,
        player,
    }
}

fn tile(l: Loc, player: usize, die: usize) -> CasinoTile {
    CasinoTile {
        loc: l,
        player,
        die,
    }
}

fn all_locs() -> Vec<Loc> {
    let mut v = vec![];
    for b in [Block::A, Block::B, Block::C, Block::D, Block::E, Block::F] {
        for lot in 1..=b.max_lot() {
            v.push(loc(b, lot));
        }
    }
    v
}

#[test]
fn max_lot_per_block() {
    assert_eq!(6, Block::A.max_lot());
    assert_eq!(6, Block::B.max_lot());
    assert_eq!(12, Block::C.max_lot());
    assert_eq!(9, Block::D.max_lot());
    assert_eq!(6, Block::E.max_lot());
    assert_eq!(9, Block::F.max_lot());
    assert_eq!(48, all_locs().len());
}

#[test]
fn neighbours_are_symmetric_and_bounded() {
    let locs = all_locs();
    for x in &locs {
        let n = x.neighbours();
        assert!(n.len() >= 2 && n.len() <= 4);
        for y in &n {
            assert_eq!(x.block, y.block);
            assert!(y.lot >= 1 && y.lot <= y.block.max_lot());
            assert!(y.neighbours().contains(x));
        }
    }
    // The last row of the largest block.
    let mut n = loc(Block::C, 12).neighbours();
    n.sort();
    assert_eq!(vec![loc(Block::C, 9), loc(Block::C, 11)], n);
}

#[test]
fn get_defaults_to_unowned() {
    let mut b = Board::default();
    assert_eq!(BoardTile::Unowned, b.get(&loc(Block::D, 4)));
    b.set(loc(Block::D, 4), BoardTile::Owned { player: 2 });
    assert_eq!(BoardTile::Owned { player: 2 }, b.get(&loc(Block::D, 4)));
    assert_eq!(BoardTile::Unowned, b.get(&loc(Block::D, 5)));
    assert_eq!(BoardTile::Unowned, b.get(&loc(Block::E, 4)));
}

#[test]
fn used_resources_counts_tokens_and_dice() {
    let mut b = Board::default();
    b.set(loc(Block::A, 1), BoardTile::Owned { player: 0 });
    b.set(loc(Block::B, 2), BoardTile::Owned { player: 0 });
    b.set(loc(Block::C, 3), built(Casino::Vega, 4, 0));
    b.set(loc(Block::F, 9), BoardTile::Owned { player: 1 });
    let used = b.used_resources(0);
    assert_eq!(2, used.tokens);
    assert_eq!(1, used.dice);
    let used = b.used_resources(1);
    assert_eq!(1, used.tokens);
    assert_eq!(0, used.dice);
    let used = b.used_resources(5);
    assert_eq!(0, used.tokens);
    assert_eq!(0, used.dice);
}

#[test]
fn casino_tile_count_counts_built_tiles() {
    let mut b = Board::default();
    b.set(loc(Block::A, 1), built(Casino::Vega, 1, 0));
    b.set(loc(Block::E, 6), built(Casino::Vega, 2, 1));
    b.set(loc(Block::B, 1), built(Casino::Tivoli, 3, 1));
    b.set(loc(Block::B, 2), BoardTile::Owned { player: 1 });
    assert_eq!(2, b.casino_tile_count(&Casino::Vega));
    assert_eq!(1, b.casino_tile_count(&Casino::Tivoli));
    assert_eq!(0, b.casino_tile_count(&Casino::Albion));
}

#[test]
fn player_locs_lists_owned_unbuilt_tiles() {
    let mut b = Board::default();
    b.set(loc(Block::F, 2), BoardTile::Owned { player: 3 });
    b.set(loc(Block::A, 6), BoardTile::Owned { player: 3 });
    b.set(loc(Block::A, 5), built(Casino::Pioneer, 2, 3));
    b.set(loc(Block::C, 1), BoardTile::Owned { player: 1 });
    assert_eq!(vec![loc(Block::A, 6), loc(Block::F, 2)], b.player_locs(3));
    assert_eq!(vec![loc(Block::C, 1)], b.player_locs(1));
    assert!(b.player_locs(0).is_empty());
}

#[test]
fn single_tile_group_is_its_own_boss() {
    let mut b = Board::default();
    b.set(loc(Block::B, 5), built(Casino::Sphinx, 4, 2));
    // Other casinos and unbuilt tiles around it do not join.
    b.set(loc(Block::B, 4), built(Casino::Albion, 6, 1));
    b.set(loc(Block::B, 6), BoardTile::Owned { player: 1 });
    let g = b.casino_at(&loc(Block::B, 5)).unwrap();
    assert_eq!(Casino::Sphinx, g.casino);
    assert_eq!(vec![tile(loc(Block::B, 5), 2, 4)], g.tiles);
    assert_eq!(g.tiles, g.boss_tiles());
}

#[test]
fn groups_do_not_cross_blocks() {
    let mut b = Board::default();
    b.set(loc(Block::A, 6), built(Casino::Albion, 1, 0));
    b.set(loc(Block::B, 1), built(Casino::Albion, 1, 0));
    b.set(loc(Block::B, 4), built(Casino::Albion, 1, 0));
    assert_eq!(2, b.casinos().len());
    assert_eq!(2, b.casino_at(&loc(Block::B, 4)).unwrap().tiles.len());
}

#[test]
fn casinos_partition_built_tiles() {
    let mut b = Board::default();
    b.set(loc(Block::C, 1), built(Casino::Vega, 1, 0));
    b.set(loc(Block::C, 2), built(Casino::Vega, 2, 1));
    b.set(loc(Block::C, 3), built(Casino::Tivoli, 3, 1));
    b.set(loc(Block::C, 6), built(Casino::Tivoli, 4, 2));
    b.set(loc(Block::C, 9), built(Casino::Vega, 5, 2));
    b.set(loc(Block::D, 1), built(Casino::Vega, 6, 0));
    b.set(loc(Block::D, 2), BoardTile::Owned { player: 0 });
    let groups = b.casinos();
    assert_eq!(4, groups.len());
    let mut seen: Vec<Loc> = vec![];
    for g in &groups {
        for t in &g.tiles {
            assert!(!seen.contains(&t.loc));
            seen.push(t.loc);
            assert_eq!(built(g.casino, t.die, t.player), b.get(&t.loc));
        }
    }
    seen.sort();
    assert_eq!(
        vec![
            loc(Block::C, 1),
            loc(Block::C, 2),
            loc(Block::C, 3),
            loc(Block::C, 6),
            loc(Block::C, 9),
            loc(Block::D, 1)
        ],
        seen
    );
}

#[test]
fn boss_tiles_single_maximum() {
    let g = BoardCasino {
        casino: Casino::Vega,
        tiles: vec![
            tile(loc(Block::A, 1), 0, 2),
            tile(loc(Block::A, 2), 1, 6),
            tile(loc(Block::A, 3), 2, 5),
        ],
    };
    assert_eq!(vec![tile(loc(Block::A, 2), 1, 6)], g.boss_tiles());
}

#[test]
fn boss_tiles_tied_maximum() {
    let g = BoardCasino {
        casino: Casino::Vega,
        tiles: vec![
            tile(loc(Block::A, 1), 0, 4),
            tile(loc(Block::A, 2), 1, 1),
            tile(loc(Block::A, 3), 1, 4),
        ],
    };
    assert_eq!(
        vec![tile(loc(Block::A, 1), 0, 4), tile(loc(Block::A, 3), 1, 4)],
        g.boss_tiles()
    );
}

#[test]
fn resolve_without_tie_changes_nothing() {
    let mut b = Board::default();
    b.set(loc(Block::A, 1), built(Casino::Albion, 3, 0));
    b.set(loc(Block::A, 2), built(Casino::Albion, 2, 1));
    b.set(loc(Block::A, 5), built(Casino::Albion, 5, 0));
    let groups = b.casinos();
    assert_eq!(1, groups.len());
    assert_eq!(3, groups[0].tiles.len());
    assert_eq!(vec![tile(loc(Block::A, 5), 0, 5)], groups[0].boss_tiles());
    assert_eq!(Ok(None), b.resolve_boss_ties());
    assert_eq!(built(Casino::Albion, 3, 0), b.get(&loc(Block::A, 1)));
    assert_eq!(built(Casino::Albion, 2, 1), b.get(&loc(Block::A, 2)));
    assert_eq!(built(Casino::Albion, 5, 0), b.get(&loc(Block::A, 5)));
}

#[test]
fn resolve_settles_a_tie() {
    let mut b = Board::default();
    b.set(loc(Block::E, 1), built(Casino::Pioneer, 4, 0));
    b.set(loc(Block::E, 2), built(Casino::Pioneer, 4, 1));
    let r = b.resolve_boss_ties();
    let rerolls = r.expect("ties are settled").expect("a tie was found");
    assert!(rerolls.len() >= 2);
    assert!(rerolls.iter().any(|t| t.loc == loc(Block::E, 1) && t.player == 0));
    assert!(rerolls.iter().any(|t| t.loc == loc(Block::E, 2) && t.player == 1));
    for t in &rerolls {
        assert!(t.die >= 1 && t.die <= 6);
    }
    let (d0, d1) = match (b.get(&loc(Block::E, 1)), b.get(&loc(Block::E, 2))) {
        (
            BoardTile::Built {
                player: 0,
                casino: Casino::Pioneer,
                die: d0,
            },
            BoardTile::Built {
                player: 1,
                casino: Casino::Pioneer,
                die: d1,
            },
        ) => (d0, d1),
        other => panic!("unexpected tiles {:?}", other),
    };
    assert_ne!(d0, d1);
    let bosses = b.casino_at(&loc(Block::E, 1)).unwrap().boss_tiles();
    assert_eq!(1, bosses.len());
    assert_eq!(Ok(None), b.resolve_boss_ties());
}

#[test]
fn same_player_at_maximum_is_no_tie() {
    let mut b = Board::default();
    b.set(loc(Block::D, 1), built(Casino::Tivoli, 6, 2));
    b.set(loc(Block::D, 2), built(Casino::Tivoli, 6, 2));
    b.set(loc(Block::D, 3), built(Casino::Tivoli, 1, 0));
    assert_eq!(2, b.casino_at(&loc(Block::D, 1)).unwrap().boss_tiles().len());
    assert_eq!(Ok(None), b.resolve_boss_ties());
    assert_eq!(built(Casino::Tivoli, 6, 2), b.get(&loc(Block::D, 2)));
}

#[test]
fn reroll_at_changes_only_the_die() {
    let mut b = Board::default();
    b.set(loc(Block::F, 5), built(Casino::Sphinx, 0, 3));
    b.set(loc(Block::F, 6), BoardTile::Owned { player: 3 });
    let d = b.reroll_at(&loc(Block::F, 5)).unwrap();
    assert!(d >= 1 && d <= 6);
    assert_eq!(built(Casino::Sphinx, d, 3), b.get(&loc(Block::F, 5)));
    assert_eq!(None, b.reroll_at(&loc(Block::F, 6)));
    assert_eq!(BoardTile::Owned { player: 3 }, b.get(&loc(Block::F, 6)));
    assert_eq!(None, b.reroll_at(&loc(Block::F, 7)));
}

#[test]
fn resolve_leaves_untied_groups_alone() {
    let mut b = Board::default();
    // A tied group in block B.
    b.set(loc(Block::B, 1), built(Casino::Vega, 5, 0));
    b.set(loc(Block::B, 2), built(Casino::Vega, 5, 1));
    // An untied group in block C, whose bosses share one player.
    b.set(loc(Block::C, 1), built(Casino::Albion, 0, 2));
    b.set(loc(Block::C, 4), built(Casino::Albion, 0, 2));
    b.set(loc(Block::C, 7), built(Casino::Albion, 0, 2));
    // An untied single tile with an out-of-range die.
    b.set(loc(Block::F, 1), built(Casino::Vega, 9, 3));
    let rerolls = b.resolve_boss_ties().expect("ties are settled").expect("a tie was found");
    for t in &rerolls {
        assert!(t.loc.block == Block::B);
    }
    assert_eq!(built(Casino::Albion, 0, 2), b.get(&loc(Block::C, 1)));
    assert_eq!(built(Casino::Albion, 0, 2), b.get(&loc(Block::C, 4)));
    assert_eq!(built(Casino::Albion, 0, 2), b.get(&loc(Block::C, 7)));
    assert_eq!(built(Casino::Vega, 9, 3), b.get(&loc(Block::F, 1)));
}

#[test]
fn casinos_come_in_canonical_order() {
    let mut b = Board::default();
    b.set(loc(Block::F, 2), built(Casino::Vega, 1, 0));
    b.set(loc(Block::A, 3), built(Casino::Vega, 1, 0));
    b.set(loc(Block::C, 5), built(Casino::Tivoli, 2, 1));
    let groups = b.casinos();
    let firsts: Vec<Loc> = groups.iter().map(|g| g.tiles[0].loc).collect();
    assert_eq!(vec![loc(Block::A, 3), loc(Block::C, 5), loc(Block::F, 2)], firsts);
}

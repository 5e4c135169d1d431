use lords_of_vegas::board::Block::{A, C};
use lords_of_vegas::board::{Block, Board, BoardCasino, BoardTile, CasinoTile, Loc, Lot};
use lords_of_vegas::casino::Casino;

fn assert_neighbours(l: (Block, Lot), n: Vec<(Block, Lot)>) {
    let mut expected = n.into_iter().map(|n| n.into()).collect::<Vec<Loc>>();
    expected.sort();
    let l: Loc = l.into();
    let mut actual = l.neighbours();
    actual.sort();
    assert_eq!(expected, actual);
}

fn built(casino: Casino, die: usize, player: usize) -> BoardTile {
    BoardTile::Built {
        casino,
        die,
        player,
    }
}

#[test]
fn loc_neighbours_works() {
    assert_neighbours((A, 1), vec![(A, 2), (A, 4)]);
    assert_neighbours((A, 2), vec![(A, 1), (A, 3), (A, 5)]);
    assert_neighbours((A, 3), vec![(A, 2), (A, 6)]);
    assert_neighbours((A, 4), vec![(A, 1), (A, 5)]);
    assert_neighbours((A, 5), vec![(A, 2), (A, 4), (A, 6)]);
    assert_neighbours((A, 6), vec![(A, 3), (A, 5)]);
    assert_neighbours((C, 8), vec![(C, 5), (C, 7), (C, 9), (C, 11)]);
}

#[test]
fn test_board_casino_at_works() {
    let mut b = Board::default();
    assert_eq!(None, b.casino_at(&(Block::A, 1).into()));

    b.set((Block::A, 1).into(), BoardTile::Owned { player: 0 });
    assert_eq!(None, b.casino_at(&(Block::A, 1).into()));

    b.set((Block::A, 1).into(), built(Casino::Albion, 3, 0));
    assert_eq!(
        Some(BoardCasino {
            casino: Casino::Albion,
            tiles: vec![CasinoTile {
                loc: (Block::A, 1).into(),
                die: 3,
                player: 0,
            }],
        }),
        b.casino_at(&(Block::A, 1).into())
    );
    assert_eq!(
        vec![CasinoTile {
            loc: (Block::A, 1).into(),
            die: 3,
            player: 0,
        }],
        b.casino_at(&(Block::A, 1).into()).unwrap().boss_tiles()
    );

    // A diagonal neighbour is not part of the group.
    b.set((Block::A, 5).into(), built(Casino::Albion, 5, 0));
    assert_eq!(
        Some(BoardCasino {
            casino: Casino::Albion,
            tiles: vec![CasinoTile {
                loc: (Block::A, 1).into(),
                die: 3,
                player: 0,
            }],
        }),
        b.casino_at(&(Block::A, 1).into())
    );

    // A tile next to both joins the diagonal in.
    b.set((Block::A, 2).into(), built(Casino::Albion, 2, 1));
    assert_eq!(
        Some(BoardCasino {
            casino: Casino::Albion,
            tiles: vec![
                CasinoTile {
                    loc: (Block::A, 1).into(),
                    die: 3,
                    player: 0,
                },
                CasinoTile {
                    loc: (Block::A, 2).into(),
                    die: 2,
                    player: 1,
                },
                CasinoTile {
                    loc: (Block::A, 5).into(),
                    die: 5,
                    player: 0,
                },
            ],
        }),
        b.casino_at(&(Block::A, 1).into())
    );
    assert_eq!(
        vec![CasinoTile {
            loc: (Block::A, 5).into(),
            die: 5,
            player: 0,
        }],
        b.casino_at(&(Block::A, 1).into()).unwrap().boss_tiles()
    );
}

#[test]
fn test_board_casinos_works() {
    let mut b = Board::default();
    assert_eq!(0, b.casinos().len());

    b.set((Block::A, 1).into(), BoardTile::Owned { player: 0 });
    assert_eq!(0, b.casinos().len());

    b.set((Block::A, 1).into(), built(Casino::Albion, 3, 0));
    assert_eq!(1, b.casinos().len());

    // A diagonal neighbour is not part of the group.
    b.set((Block::A, 5).into(), built(Casino::Albion, 5, 0));
    assert_eq!(2, b.casinos().len());

    // A tile next to both joins the diagonal in.
    b.set((Block::A, 2).into(), built(Casino::Albion, 2, 1));
    assert_eq!(1, b.casinos().len());
}

//! The board's locations and which of them are adjacent.
use vstd::prelude::*;

verus! {

/// Number of lots in one row of a block.
pub const BLOCK_WIDTH: usize = 3;

/// Number of locations on the whole board (the lots of all six blocks).
pub const LOC_COUNT: usize = 48;

/// One of the six regions of the board.
#[derive(PartialEq, Eq, Structural, PartialOrd, Ord, Hash, Debug, Copy, Clone)]
pub enum Block {
    A,
    B,
    C,
    D,
    E,
    F,
}

/// A lot number within a block, counted from 1.
pub type Lot = usize;

impl Block {
    /// Highest lot number of the block.
    pub open spec fn spec_max_lot(self) -> nat {
        match self {
            Block::A | Block::B | Block::E => 6,
            Block::C => 12,
            Block::D | Block::F => 9,
        }
    }

    /// Number of locations that come before this block in canonical order.
    pub open spec fn spec_offset(self) -> nat {
        match self {
            Block::A => 0,
            Block::B => 6,
            Block::C => 12,
            Block::D => 24,
            Block::E => 33,
            Block::F => 39,
        }
    }

    /// Highest lot number of the block.
    pub fn max_lot(&self) -> (r: Lot)
        ensures
            r == self.spec_max_lot(),
    {
        match *self {
            Block::A | Block::B | Block::E => 6,
            Block::C => 12,
            Block::D | Block::F => 9,
        }
    }

    fn offset(&self) -> (r: usize)
        ensures
            r == self.spec_offset(),
    {
        match *self {
            Block::A => 0,
            Block::B => 6,
            Block::C => 12,
            Block::D => 24,
            Block::E => 33,
            Block::F => 39,
        }
    }
}

/// A lot of a block.
#[derive(PartialEq, Eq, Structural, PartialOrd, Ord, Hash, Debug, Copy, Clone)]
pub struct Loc {
    pub block: Block,
    pub lot: Lot,
}

impl From<(Block, Lot)> for Loc {
    fn from(bl: (Block, Lot)) -> (r: Loc) {
        Loc { block: bl.0, lot: bl.1 }
    }
}

impl vstd::std_specs::convert::FromSpecImpl<(Block, Lot)> for Loc {
    open spec fn obeys_from_spec() -> bool {
        true
    }

    open spec fn from_spec(v: (Block, Lot)) -> Loc {
        Loc { block: v.0, lot: v.1 }
    }
}

/// The location with canonical index `i` (blocks in order, lots ascending).
pub open spec fn loc_at(i: int) -> Loc {
    let b = if i < 6 {
        Block::A
    } else if i < 12 {
        Block::B
    } else if i < 24 {
        Block::C
    } else if i < 33 {
        Block::D
    } else if i < 39 {
        Block::E
    } else {
        Block::F
    };
    Loc { block: b, lot: (i - b.spec_offset() + 1) as usize }
}

impl Loc {
    /// The lot exists in its block.
    pub open spec fn valid(self) -> bool {
        1 <= self.lot <= self.block.spec_max_lot()
    }

    /// Row of the lot within its block, counted from 0.
    pub open spec fn row(self) -> int {
        (self.lot - 1) / (BLOCK_WIDTH as int)
    }

    /// Two lots of one block are adjacent when they are side by side in a row
    /// or one above the other.
    pub open spec fn adjacent(self, o: Loc) -> bool {
        &&& self.block == o.block
        &&& {
            ||| self.lot + BLOCK_WIDTH == o.lot
            ||| o.lot + BLOCK_WIDTH == self.lot
            ||| (self.lot + 1 == o.lot || o.lot + 1 == self.lot) && self.row() == o.row()
        }
    }

    /// The set of valid locations adjacent to this one.
    pub open spec fn neighbour_set(self) -> Set<Loc> {
        Set::new(|y: Loc| y.valid() && self.adjacent(y))
    }

    /// Position of the location in canonical order.
    pub open spec fn index(self) -> int {
        self.block.spec_offset() + self.lot - 1
    }

    /// The valid locations adjacent to this one, each once.
    pub fn neighbours(&self) -> (r: Vec<Loc>)
        requires
            self.valid(),
        ensures
            forall|y: Loc| #[trigger] r@.contains(y) <==> self.neighbour_set().contains(y),
            r@.no_duplicates(),
            2 <= r.len() <= 4,
            forall|i: int| 0 <= i < r.len() ==> r@[i].block == self.block && (#[trigger] r@[i]).valid(),
    {
        let mut n: Vec<Loc> = Vec::new();
        let max = self.block.max_lot();
        let ghost up = Loc { block: self.block, lot: (self.lot - BLOCK_WIDTH) as usize };
        let ghost left = Loc { block: self.block, lot: (self.lot - 1) as usize };
        let ghost right = Loc { block: self.block, lot: (self.lot + 1) as usize };
        let ghost down = Loc { block: self.block, lot: (self.lot + BLOCK_WIDTH) as usize };
        let ghost c_up = self.lot > BLOCK_WIDTH;
        let ghost c_left = self.lot % BLOCK_WIDTH != 1;
        let ghost c_right = self.lot % BLOCK_WIDTH != 0;
        let ghost c_down = self.lot + BLOCK_WIDTH <= max;
        if self.lot > BLOCK_WIDTH {
            proof {
                lemma_push_contains(n@, up);
            }
            n.push(Loc { block: self.block, lot: self.lot - BLOCK_WIDTH });
        }
        if self.lot % BLOCK_WIDTH != 1 {
            proof {
                lemma_push_contains(n@, left);
            }
            n.push(Loc { block: self.block, lot: self.lot - 1 });
        }
        if self.lot % BLOCK_WIDTH != 0 {
            proof {
                lemma_push_contains(n@, right);
            }
            n.push(Loc { block: self.block, lot: self.lot + 1 });
        }
        if self.lot + BLOCK_WIDTH <= max {
            proof {
                lemma_push_contains(n@, down);
            }
            n.push(Loc { block: self.block, lot: self.lot + BLOCK_WIDTH });
        }
        assert(forall|y: Loc|
            n@.contains(y) <==> (c_up && y == up) || (c_left && y == left) || (c_right && y
                == right) || (c_down && y == down));
        assert forall|y: Loc| n@.contains(y) <==> self.neighbour_set().contains(y) by {
            assert(self.lot % 3 == 1 <==> self.row() != (self.lot - 2) / 3);
            assert(self.lot % 3 == 0 <==> self.row() != (self.lot) / 3);
        }
        n
    }

    pub(crate) fn index_of(&self) -> (r: usize)
        requires
            self.valid(),
        ensures
            r == self.index(),
            r < LOC_COUNT,
    {
        self.block.offset() + self.lot - 1
    }

    pub(crate) fn at_index(i: usize) -> (r: Loc)
        requires
            i < LOC_COUNT,
        ensures
            r == loc_at(i as int),
            r.valid(),
            r.index() == i,
    {
        let block = if i < 6 {
            Block::A
        } else if i < 12 {
            Block::B
        } else if i < 24 {
            Block::C
        } else if i < 33 {
            Block::D
        } else if i < 39 {
            Block::E
        } else {
            Block::F
        };
        Loc { block, lot: i - block.offset() + 1 }
    }
}

pub(crate) proof fn lemma_push_contains<T>(s: Seq<T>, x: T)
    ensures
        forall|y: T| #[trigger] s.push(x).contains(y) <==> s.contains(y) || y == x,
        s.no_duplicates() && !s.contains(x) ==> s.push(x).no_duplicates(),
{
    assert forall|y: T| #[trigger] s.push(x).contains(y) <==> s.contains(y) || y == x by {
        if s.contains(y) {
            let i = choose|i: int| 0 <= i < s.len() && s[i] == y;
            assert(s.push(x)[i] == y);
        }
        if y == x {
            assert(s.push(x)[s.len() as int] == x);
        }
    }
    if s.no_duplicates() && !s.contains(x) {
        assert forall|i: int, j: int| 0 <= i < j < s.push(x).len() implies s.push(x)[i] != s.push(
            x,
        )[j] by {
            if j == s.len() {
                assert(s[i] == s.push(x)[i]);
            }
        }
    }
}

/// The index of a valid location lies below the location count, and names
/// that location back; so distinct valid locations have distinct indices.
pub(crate) proof fn lemma_index_bijection(l: Loc)
    requires
        l.valid(),
    ensures
        0 <= l.index() < LOC_COUNT,
        loc_at(l.index()) == l,
{
}

} // verus!

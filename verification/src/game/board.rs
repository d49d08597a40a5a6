//! The board model: per-square occupancy, and for each side the set of squares
//! it holds and how many they are.

use std::collections::HashSet;
use vstd::prelude::*;

verus! {

/// What a square holds: nothing, or a piece of one side.
pub type Piece = Option<bool>;

/// Index of a side into the per-side arrays.
pub open spec fn side_index(color: bool) -> int {
    if color {
        1
    } else {
        0
    }
}

/// The squares below `n`.
pub open spec fn squares_below(n: nat) -> Set<usize> {
    Set::new(|i: usize| i < n)
}

/// The squares that hold a piece of `color`.
pub open spec fn occupied(cells: Seq<Piece>, color: bool) -> Set<usize> {
    Set::new(|i: usize| i < 64 && cells[i as int] == Some(color))
}

/// The squares below `n` that hold a piece of `color`.
pub open spec fn occupied_below(cells: Seq<Piece>, color: bool, n: int) -> Set<usize> {
    Set::new(|i: usize| i < n && i < 64 && cells[i as int] == Some(color))
}

/// Number of pieces of `color`.
pub open spec fn count(cells: Seq<Piece>, color: bool) -> nat {
    occupied(cells, color).len()
}

/// The starting position: two pieces of each side around the centre.
pub open spec fn initial_cells() -> Seq<Piece> {
    Seq::new(
        64,
        |i: int|
            if i == 27 || i == 36 {
                Some(true)
            } else if i == 28 || i == 35 {
                Some(false)
            } else {
                None
            },
    )
}

/// There are `n` squares below `n`.
pub proof fn lemma_squares_below(n: nat)
    requires
        n <= usize::MAX,
    ensures
        squares_below(n).finite(),
        squares_below(n).len() == n,
    decreases n,
{
    if n == 0 {
        assert(squares_below(0) =~= Set::<usize>::empty());
    } else {
        lemma_squares_below((n - 1) as nat);
        assert(squares_below(n) =~= squares_below((n - 1) as nat).insert((n - 1) as usize));
    }
}

/// The two sides hold disjoint finite sets of squares, at most 64 together.
pub proof fn lemma_counts_bounded(cells: Seq<Piece>)
    ensures
        occupied(cells, true).finite(),
        occupied(cells, false).finite(),
        occupied(cells, true).disjoint(occupied(cells, false)),
        count(cells, true) + count(cells, false) <= 64,
{
    let light = occupied(cells, true);
    let dark = occupied(cells, false);
    lemma_squares_below(64);
    assert(light.union(dark).subset_of(squares_below(64)));
    vstd::set_lib::lemma_len_subset(light.union(dark), squares_below(64));
    vstd::set_lib::lemma_len_subset(light, light.union(dark));
    vstd::set_lib::lemma_len_subset(dark, light.union(dark));
    assert(light.disjoint(dark));
    vstd::set_lib::lemma_set_disjoint_lens(light, dark);
}

/// A side holds at least one piece as soon as some square holds one of its pieces.
pub proof fn lemma_count_positive(cells: Seq<Piece>, color: bool, sq: usize)
    requires
        sq < 64,
        cells[sq as int] == Some(color),
    ensures
        count(cells, color) >= 1,
{
    lemma_counts_bounded(cells);
    assert(occupied(cells, color).contains(sq));
    if occupied(cells, color).len() == 0 {
        assert(occupied(cells, color) =~= Set::<usize>::empty());
    }
}

/// The game state. `pieces` is the board itself; `color_pieces` and
/// `piece_count` repeat, for each side, which squares it holds and how many.
#[derive(Debug, PartialEq, Eq)]
pub struct Board {
    pieces: [Piece; 64],
    color_pieces: [HashSet<usize>; 2],
    piece_count: [u8; 2],
    prev_color: bool,
}

impl Board {
    /// What each of the 64 squares holds.
    pub closed spec fn cells(&self) -> Seq<Piece> {
        self.pieces@
    }

    /// The set of squares kept for `color`.
    pub closed spec fn squares_of(&self, color: bool) -> Set<usize> {
        self.color_pieces[side_index(color)]@
    }

    /// The piece count kept for `color`.
    pub closed spec fn count_of(&self, color: bool) -> int {
        self.piece_count[side_index(color)] as int
    }

    /// The side that moved last.
    pub closed spec fn last_mover(&self) -> bool {
        self.prev_color
    }

    /// The per-side sets and counts agree with the squares.
    pub open spec fn wf(&self) -> bool {
        &&& self.cells().len() == 64
        &&& self.squares_of(true) == occupied(self.cells(), true)
        &&& self.squares_of(false) == occupied(self.cells(), false)
        &&& self.count_of(true) == count(self.cells(), true)
        &&& self.count_of(false) == count(self.cells(), false)
    }

    /// What a well-formed board keeps: each side's set is finite and holds
    /// exactly the squares with its pieces, the two sets are disjoint, each
    /// count is the size of its set, and the counts add up to 64 at most.
    pub proof fn lemma_invariants(&self)
        requires
            self.wf(),
        ensures
            forall|color: bool, i: usize|
                self.squares_of(color).contains(i) <==> i < 64 && self.cells()[i as int] == Some(
                    color,
                ),
            self.squares_of(true).finite(),
            self.squares_of(false).finite(),
            self.squares_of(true).disjoint(self.squares_of(false)),
            self.count_of(true) == self.squares_of(true).len(),
            self.count_of(false) == self.squares_of(false).len(),
            self.count_of(true) + self.count_of(false) <= 64,
    {
        lemma_counts_bounded(self.cells());
        assert forall|color: bool, i: usize|
            self.squares_of(color).contains(i) <==> i < 64 && self.cells()[i as int] == Some(
                color,
            ) by {
            if color {
                assert(self.squares_of(color) == occupied(self.cells(), true));
            } else {
                assert(self.squares_of(color) == occupied(self.cells(), false));
            }
        }
    }

    /// A board has 64 squares.
    pub proof fn lemma_cells_len(&self)
        ensures
            self.cells().len() == 64,
    {
    }

    /// The starting position, with the dark side recorded as last mover.
    pub fn new() -> (board: Self)
        ensures
            board.wf(),
            board.cells() == initial_cells(),
            board.last_mover() == false,
    {
        broadcast use vstd::std_specs::hash::group_hash_axioms;

        let mut dark: HashSet<usize> = HashSet::new();
        dark.insert(28);
        dark.insert(35);
        let mut light: HashSet<usize> = HashSet::new();
        light.insert(27);
        light.insert(36);
        let board = Self {
            pieces: [
                None, None, None, None, None, None, None, None,
                None, None, None, None, None, None, None, None,
                None, None, None, None, None, None, None, None,
                None, None, None, Some(true), Some(false), None, None, None,
                None, None, None, Some(false), Some(true), None, None, None,
                None, None, None, None, None, None, None, None,
                None, None, None, None, None, None, None, None,
                None, None, None, None, None, None, None, None,
            ],
            color_pieces: [dark, light],
            piece_count: [2, 2],
            prev_color: false,
        };
        proof {
            assert(board.cells() =~= initial_cells());
            assert(board.squares_of(true) =~= occupied(board.cells(), true));
            assert(board.squares_of(false) =~= occupied(board.cells(), false));
        }
        board
    }

    /// What square `i` holds.
    pub fn piece(&self, i: usize) -> (p: Piece)
        requires
            i < 64,
        ensures
            p == self.cells()[i as int],
    {
        self.pieces[i]
    }

    /// Whether square `i` is in the set kept for `color`.
    pub fn holds(&self, color: bool, i: usize) -> (b: bool)
        ensures
            b == self.squares_of(color).contains(i),
    {
        broadcast use vstd::std_specs::hash::group_hash_axioms;

        let side: usize = if color { 1 } else { 0 };
        self.color_pieces[side].contains(&i)
    }

    /// The piece count kept for `color`.
    pub fn count(&self, color: bool) -> (n: u8)
        ensures
            n == self.count_of(color),
    {
        let side: usize = if color { 1 } else { 0 };
        self.piece_count[side]
    }

    /// The side that moved last.
    pub fn prev_color(&self) -> (color: bool)
        ensures
            color == self.last_mover(),
    {
        self.prev_color
    }

    /// Records `color` as the side that moved last.
    pub fn set_prev_color(&mut self, color: bool)
        ensures
            final(self).cells() == old(self).cells(),
            final(self).squares_of(true) == old(self).squares_of(true),
            final(self).squares_of(false) == old(self).squares_of(false),
            final(self).count_of(true) == old(self).count_of(true),
            final(self).count_of(false) == old(self).count_of(false),
            final(self).last_mover() == color,
    {
        self.prev_color = color;
    }

    /// Puts a piece of `color` on the empty square `i`.
    pub fn insert(&mut self, i: usize, color: bool)
        requires
            old(self).wf(),
            i < 64,
            old(self).cells()[i as int] is None,
        ensures
            final(self).wf(),
            final(self).cells() == old(self).cells().update(i as int, Some(color)),
            final(self).last_mover() == old(self).last_mover(),
    {
        broadcast use vstd::std_specs::hash::group_hash_axioms;

        proof {
            lemma_counts_bounded(self.cells());
        }
        let side: usize = if color { 1 } else { 0 };
        self.pieces[i] = Some(color);
        self.color_pieces[side].insert(i);
        self.piece_count[side] += 1;
        proof {
            assert(self.squares_of(color) =~= occupied(self.cells(), color));
            assert(self.squares_of(!color) =~= occupied(self.cells(), !color));
        }
    }

    /// Takes the piece of `color` off square `i`.
    pub fn remove(&mut self, i: usize, color: bool)
        requires
            old(self).wf(),
            i < 64,
            old(self).cells()[i as int] == Some(color),
        ensures
            final(self).wf(),
            final(self).cells() == old(self).cells().update(i as int, None),
            final(self).last_mover() == old(self).last_mover(),
    {
        broadcast use vstd::std_specs::hash::group_hash_axioms;

        proof {
            lemma_counts_bounded(self.cells());
            lemma_count_positive(self.cells(), color, i);
        }
        let side: usize = if color { 1 } else { 0 };
        self.pieces[i] = None;
        self.color_pieces[side].remove(&i);
        self.piece_count[side] -= 1;
        proof {
            assert(self.squares_of(color) =~= occupied(self.cells(), color));
            assert(self.squares_of(!color) =~= occupied(self.cells(), !color));
        }
    }

    /// Hands the piece on square `i` to the other side.
    pub fn flip(&mut self, i: usize)
        requires
            old(self).wf(),
            i < 64,
            old(self).cells()[i as int] is Some,
        ensures
            final(self).wf(),
            final(self).cells() == old(self).cells().update(
                i as int,
                Some(!old(self).cells()[i as int]->0),
            ),
            final(self).last_mover() == old(self).last_mover(),
    {
        broadcast use vstd::std_specs::hash::group_hash_axioms;

        let color = self.pieces[i].unwrap();
        proof {
            lemma_counts_bounded(self.cells());
            lemma_count_positive(self.cells(), color, i);
        }
        let from: usize = if color { 1 } else { 0 };
        let to: usize = if color { 0 } else { 1 };
        self.pieces[i] = Some(!color);
        self.color_pieces[from].remove(&i);
        self.piece_count[from] -= 1;
        self.color_pieces[to].insert(i);
        self.piece_count[to] += 1;
        proof {
            assert(self.squares_of(color) =~= occupied(self.cells(), color));
            assert(self.squares_of(!color) =~= occupied(self.cells(), !color));
        }
    }
}

impl Clone for Board {
    /// An independent copy: the squares and the last mover are copied, the
    /// per-side sets and counts are built afresh from the squares.
    fn clone(&self) -> (copy: Self)
        ensures
            copy.wf(),
            copy.cells() == self.cells(),
            copy.last_mover() == self.last_mover(),
            self.wf() ==> copy.squares_of(true) == self.squares_of(true) && copy.squares_of(false)
                == self.squares_of(false) && copy.count_of(true) == self.count_of(true)
                && copy.count_of(false) == self.count_of(false),
    {
        broadcast use vstd::std_specs::hash::group_hash_axioms;

        let ghost cells = self.cells();
        let mut dark: HashSet<usize> = HashSet::new();
        let mut light: HashSet<usize> = HashSet::new();
        let mut dark_count: u8 = 0;
        let mut light_count: u8 = 0;
        proof {
            assert(occupied_below(cells, true, 0) =~= Set::<usize>::empty());
            assert(occupied_below(cells, false, 0) =~= Set::<usize>::empty());
        }
        let mut i: usize = 0;
        while i < 64
            invariant
                i <= 64,
                cells == self.cells(),
                light@ == occupied_below(cells, true, i as int),
                dark@ == occupied_below(cells, false, i as int),
                light@.finite(),
                dark@.finite(),
                light_count == light@.len(),
                dark_count == dark@.len(),
                light_count <= i,
                dark_count <= i,
            decreases 64 - i,
        {
            proof {
                let next = (i + 1) as int;
                if cells[i as int] == Some(true) {
                    assert(occupied_below(cells, true, next) =~= occupied_below(
                        cells,
                        true,
                        i as int,
                    ).insert(i));
                } else {
                    assert(occupied_below(cells, true, next) =~= occupied_below(
                        cells,
                        true,
                        i as int,
                    ));
                }
                if cells[i as int] == Some(false) {
                    assert(occupied_below(cells, false, next) =~= occupied_below(
                        cells,
                        false,
                        i as int,
                    ).insert(i));
                } else {
                    assert(occupied_below(cells, false, next) =~= occupied_below(
                        cells,
                        false,
                        i as int,
                    ));
                }
            }
            match self.pieces[i] {
                Some(true) => {
                    light.insert(i);
                    light_count += 1;
                },
                Some(false) => {
                    dark.insert(i);
                    dark_count += 1;
                },
                None => {},
            }
            i += 1;
        }
        proof {
            assert(occupied_below(cells, true, 64) =~= occupied(cells, true));
            assert(occupied_below(cells, false, 64) =~= occupied(cells, false));
        }
        Board {
            pieces: self.pieces,
            color_pieces: [dark, light],
            piece_count: [dark_count, light_count],
            prev_color: self.prev_color,
        }
    }
}

} // verus!

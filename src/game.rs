use rand::seq::SliceRandom;
use vstd::multiset::Multiset;
use vstd::prelude::*;

verus! {

/// Number of rows and of columns of the board.
pub const SIDE: u8 = 10;

/// Whose turn it is, or how the match ended.
#[derive(Debug, Clone, Copy, PartialEq, Eq, Structural)]
pub enum Status {
    LeftToPlay,
    RightToPlay,
    IllegalMove,
    LeftWins,
    RightWins,
}

/// The status after a move that found no pair: the other player's turn.
pub open spec fn flipped(s: Status) -> Status {
    if s == Status::LeftToPlay {
        Status::RightToPlay
    } else {
        Status::LeftToPlay
    }
}

/// The status after the last pair is found by the player whose turn it is.
pub open spec fn won(s: Status) -> Status {
    if s == Status::LeftToPlay {
        Status::LeftWins
    } else {
        Status::RightWins
    }
}

/// Linear index of the board position (row, col).
pub open spec fn index_of(row: int, col: int) -> int {
    row * 10 + col
}

/// Tile value at linear index `i` of the unshuffled board: rows 5 to 9 repeat rows 0 to 4.
pub open spec fn canonical_tile(i: int) -> int {
    (i / 10 % 5) * 10 + i % 10
}

/// The unshuffled board, as a sequence of 100 tile values.
pub open spec fn canonical_layout() -> Seq<u8> {
    Seq::new(100, |i: int| canonical_tile(i) as u8)
}

/// Number of `true` entries of a mask.
pub open spec fn count_true(s: Seq<bool>) -> nat
    decreases s.len(),
{
    if s.len() == 0 {
        0
    } else {
        count_true(s.drop_last()) + if s.last() {
            1nat
        } else {
            0nat
        }
    }
}

/// A mask has no more `true` entries than entries.
proof fn lemma_count_true_bound(s: Seq<bool>)
    ensures
        count_true(s) <= s.len(),
    decreases s.len(),
{
    if s.len() > 0 {
        lemma_count_true_bound(s.drop_last());
    }
}

/// A mask with no `true` entry counts zero.
proof fn lemma_count_true_all_false(s: Seq<bool>)
    requires
        forall|i: int| 0 <= i < s.len() ==> !s[i],
    ensures
        count_true(s) == 0,
    decreases s.len(),
{
    if s.len() > 0 {
        lemma_count_true_all_false(s.drop_last());
    }
}

/// Setting one `false` entry to `true` adds one to the count.
proof fn lemma_count_true_set(s: Seq<bool>, i: int)
    requires
        0 <= i < s.len(),
        !s[i],
    ensures
        count_true(s.update(i, true)) == count_true(s) + 1,
    decreases s.len(),
{
    let t = s.update(i, true);
    if i == s.len() - 1 {
        assert(t.drop_last() =~= s.drop_last());
    } else {
        assert(t.drop_last() =~= s.drop_last().update(i, true));
        lemma_count_true_set(s.drop_last(), i);
    }
}

/// On the unshuffled board, the tile at linear index `i` is `i` in the first five rows and
/// `i - 50` in the last five.
proof fn lemma_canonical_tile(i: int)
    requires
        0 <= i < 100,
    ensures
        canonical_tile(i) == if i < 50 {
            i
        } else {
            i - 50
        },
{
    let q = i / 10;
    let r = i % 10;
    assert(i == q * 10 + r && 0 <= r < 10) by (nonlinear_arith)
        requires
            q == i / 10,
            r == i % 10,
            0 <= i,
    ;
    assert(0 <= q < 10) by (nonlinear_arith)
        requires
            i == q * 10 + r,
            0 <= r < 10,
            0 <= i < 100,
    ;
    if q >= 5 {
        assert(q % 5 == q - 5);
    }
}

/// How often `v` occurs among the first `n` tiles of the unshuffled board.
proof fn lemma_canonical_prefix_count(n: int, v: u8)
    requires
        0 <= n <= 100,
    ensures
        canonical_layout().take(n).to_multiset().count(v) == (if (v as int) < 50 && (v as int)
            < n {
            1int
        } else {
            0int
        }) + (if (v as int) < 50 && (v as int) + 50 < n {
            1int
        } else {
            0int
        }),
    decreases n,
{
    broadcast use vstd::seq_lib::group_to_multiset_ensures;

    let s = canonical_layout();
    if n == 0 {
        assert(s.take(0) =~= Seq::<u8>::empty());
        assert(s.take(0).to_multiset() =~= Multiset::<u8>::empty());
    } else {
        lemma_canonical_prefix_count(n - 1, v);
        lemma_canonical_tile(n - 1);
        assert(s.take(n) =~= s.take(n - 1).push(s[n - 1]));
    }
}

/// The unshuffled board: the tile at (row, col) equals the tile five rows below it.
pub proof fn lemma_unshuffled_rows_repeat(row: int, col: int)
    requires
        0 <= row < 5,
        0 <= col < 10,
    ensures
        canonical_layout()[index_of(row, col)] == canonical_layout()[index_of(row + 5, col)],
        canonical_layout()[index_of(row, col)] == index_of(row, col),
{
    lemma_canonical_tile(index_of(row, col));
    lemma_canonical_tile(index_of(row + 5, col));
}

/// Each of the values 0 to 49 lies on the unshuffled board exactly twice, and no other value
/// lies there.
pub proof fn lemma_unshuffled_two_of_each(v: u8)
    ensures
        canonical_layout().to_multiset().count(v) == if v < 50 {
            2int
        } else {
            0int
        },
{
    lemma_canonical_prefix_count(100, v);
    assert(canonical_layout().take(100) =~= canonical_layout());
}

/// Relies on rand's `SliceRandom::shuffle`, drawing from `thread_rng`: it swaps elements of
/// the slice in place, so the result is a permutation of the input.
#[verifier::external_body]
fn permute_randomly(v: &mut Vec<u8>)
    ensures
        final(v)@.len() == old(v)@.len(),
        final(v)@.to_multiset() == old(v)@.to_multiset(),
{
    v.shuffle(&mut rand::thread_rng());
}

/// One match: the tile layout, which positions are discovered, and whose turn it is.
#[derive(Debug)]
pub struct Game {
    status: Status,
    tiles: Vec<u8>,
    undiscovered: u8,
    discovered: Vec<bool>,
}

impl Game {
    /// Whose turn it is, or how the match ended.
    pub closed spec fn phase(&self) -> Status {
        self.status
    }

    /// Tile values, by linear index.
    pub closed spec fn tiles(&self) -> Seq<u8> {
        self.tiles@
    }

    /// Which positions have been discovered, by linear index.
    pub closed spec fn mask(&self) -> Seq<bool> {
        self.discovered@
    }

    /// Number of positions not yet discovered.
    pub open spec fn undiscovered_count(&self) -> int {
        100 - count_true(self.mask())
    }

    /// The board has 100 positions holding the unshuffled tiles in some order, and the
    /// cached counter agrees with the mask and is even.
    pub closed spec fn wf(&self) -> bool {
        &&& self.tiles@.len() == 100
        &&& self.discovered@.len() == 100
        &&& self.tiles@.to_multiset() == canonical_layout().to_multiset()
        &&& self.undiscovered as int == 100 - count_true(self.discovered@)
        &&& self.undiscovered % 2 == 0
    }

    /// A new match: the unshuffled board, nothing discovered, and the left player to move.
    pub fn new() -> (g: Game)
        ensures
            g.wf(),
            g.phase() == Status::LeftToPlay,
            g.tiles() == canonical_layout(),
            g.mask() == Seq::new(100, |i: int| false),
            g.undiscovered_count() == 100,
    {
        let mut game = Game {
            status: Status::LeftToPlay,
            tiles: Vec::new(),
            undiscovered: 100,
            discovered: Vec::new(),
        };
        game.initialize();
        game
    }

    /// Lays out the unshuffled board and marks every position undiscovered; the status is
    /// left as it was.
    pub fn initialize(&mut self)
        ensures
            final(self).wf(),
            final(self).phase() == old(self).phase(),
            final(self).tiles() == canonical_layout(),
            final(self).mask() == Seq::new(100, |i: int| false),
            final(self).undiscovered_count() == 100,
    {
        let mut tiles: Vec<u8> = Vec::new();
        let mut discovered: Vec<bool> = Vec::new();
        let mut row: u8 = 0;
        while row < SIDE
            invariant
                row <= 10,
                tiles@.len() == row as int * 10,
                discovered@.len() == row as int * 10,
                forall|k: int| 0 <= k < tiles@.len() ==> tiles@[k] == canonical_layout()[k],
                forall|k: int| 0 <= k < discovered@.len() ==> !discovered@[k],
            decreases 10 - row,
        {
            let mut col: u8 = 0;
            while col < SIDE
                invariant
                    row < 10,
                    col <= 10,
                    tiles@.len() == row as int * 10 + col as int,
                    discovered@.len() == row as int * 10 + col as int,
                    forall|k: int| 0 <= k < tiles@.len() ==> tiles@[k] == canonical_layout()[k],
                    forall|k: int| 0 <= k < discovered@.len() ==> !discovered@[k],
                decreases 10 - col,
            {
                proof {
                    let k = row as int * 10 + col as int;
                    assert(k / 10 == row as int && k % 10 == col as int) by (nonlinear_arith)
                        requires
                            k == row as int * 10 + col as int,
                            0 <= col < 10,
                            0 <= row,
                    ;
                }
                tiles.push((row % 5) * 10 + col);
                discovered.push(false);
                col = col + 1;
            }
            row = row + 1;
        }
        assert(tiles@ =~= canonical_layout());
        assert(discovered@ =~= Seq::new(100, |i: int| false));
        proof {
            lemma_count_true_all_false(discovered@);
        }
        self.tiles = tiles;
        self.discovered = discovered;
        self.undiscovered = 100;
    }

    /// Puts the tiles in a random order; which positions are discovered, and the status, stay
    /// as they were.
    pub fn shuffle(&mut self)
        requires
            old(self).wf(),
        ensures
            final(self).wf(),
            final(self).tiles().to_multiset() == old(self).tiles().to_multiset(),
            final(self).mask() == old(self).mask(),
            final(self).phase() == old(self).phase(),
    {
        permute_randomly(&mut self.tiles);
    }

    /// Whatever moves and shuffles a match has seen, its board holds each of the values 0 to
    /// 49 exactly twice, and no other value.
    pub proof fn lemma_two_of_each(&self, v: u8)
        requires
            self.wf(),
        ensures
            self.tiles().to_multiset().count(v) == if v < 50 {
                2int
            } else {
                0int
            },
    {
        lemma_unshuffled_two_of_each(v);
    }

    /// Whether a move on linear indices `i` and `j` is refused: the same position twice, or a
    /// position already discovered.
    pub open spec fn is_illegal(&self, i: int, j: int) -> bool {
        i == j || self.mask()[i] || self.mask()[j]
    }

    /// Whether the tiles at linear indices `i` and `j` hold the same value.
    pub open spec fn is_pair(&self, i: int, j: int) -> bool {
        self.tiles()[i] == self.tiles()[j]
    }

    /// Plays a move that turns over the tiles at (row0, col0) and (row1, col1).
    ///
    /// A move on a discovered position, or on the same position twice, only sets the status
    /// to `IllegalMove`. Two tiles of the same value become discovered and the same player
    /// goes on, or wins if no undiscovered tile is left; two different tiles pass the turn.
    pub fn play(&mut self, row0: u8, col0: u8, row1: u8, col1: u8)
        requires
            old(self).wf(),
            row0 < 10,
            col0 < 10,
            row1 < 10,
            col1 < 10,
        ensures
            final(self).wf(),
            final(self).tiles() == old(self).tiles(),
            forall|k: int| 0 <= k < 100 && old(self).mask()[k] ==> #[trigger] final(self).mask()[k],
            ({
                let i = index_of(row0 as int, col0 as int);
                let j = index_of(row1 as int, col1 as int);
                &&& old(self).is_illegal(i, j) ==> {
                    &&& final(self).phase() == Status::IllegalMove
                    &&& final(self).mask() == old(self).mask()
                    &&& final(self).undiscovered_count() == old(self).undiscovered_count()
                }
                &&& !old(self).is_illegal(i, j) && old(self).is_pair(i, j) ==> {
                    &&& final(self).mask() == old(self).mask().update(i, true).update(j, true)
                    &&& final(self).undiscovered_count() == old(self).undiscovered_count() - 2
                    &&& final(self).phase() == if final(self).undiscovered_count() == 0 {
                        won(old(self).phase())
                    } else {
                        old(self).phase()
                    }
                }
                &&& !old(self).is_illegal(i, j) && !old(self).is_pair(i, j) ==> {
                    &&& final(self).mask() == old(self).mask()
                    &&& final(self).undiscovered_count() == old(self).undiscovered_count()
                    &&& final(self).phase() == flipped(old(self).phase())
                }
            }),
    {
        let i: usize = row0 as usize * 10 + col0 as usize;
        let j: usize = row1 as usize * 10 + col1 as usize;
        if i == j || self.discovered[i] || self.discovered[j] {
            self.status = Status::IllegalMove;
        } else {
            let ghost mask0 = self.discovered@;
            proof {
                lemma_count_true_set(mask0, i as int);
                lemma_count_true_set(mask0.update(i as int, true), j as int);
                lemma_count_true_bound(mask0.update(i as int, true));
                lemma_count_true_bound(mask0.update(i as int, true).update(j as int, true));
            }
            let before = self.undiscovered;
            if self.tile_at(row0, col0) == self.tile_at(row1, col1) {
                self.undiscovered = self.undiscovered - 2;
                self.discovered.set(i, true);
                self.discovered.set(j, true);
            }
            if self.undiscovered == before {
                self.status = if self.status == Status::LeftToPlay {
                    Status::RightToPlay
                } else {
                    Status::LeftToPlay
                };
            }
            if self.undiscovered == 0 {
                self.status = if self.status == Status::LeftToPlay {
                    Status::LeftWins
                } else {
                    Status::RightWins
                };
            }
        }
    }

    /// Tile value at (row, col).
    pub fn tile_at(&self, row: u8, col: u8) -> (r: u8)
        requires
            self.wf(),
            row < 10,
            col < 10,
        ensures
            r == self.tiles()[index_of(row as int, col as int)],
    {
        self.tiles[row as usize * 10 + col as usize]
    }

    /// Whose turn it is, or how the match ended.
    pub fn status(&self) -> (r: Status)
        ensures
            r == self.phase(),
    {
        self.status
    }

    /// Number of positions not yet discovered.
    pub fn undiscovered(&self) -> (r: u8)
        requires
            self.wf(),
        ensures
            r as int == self.undiscovered_count(),
    {
        self.undiscovered
    }
}

} // verus!

//! Bookkeeping for an in-progress merger: the survivor and the defunct
//! chains still waiting to be paid out and disposed of.

use vstd::prelude::*;
use crate::game_board::{Cell, CellConflictType, GameBoard};
use crate::hotel_data::Hotel;

verus! {

broadcast use vstd::seq_lib::lemma_seq_contains_after_push;

/// An in-progress merger.
pub struct MergerState {
    pub merge_maker: usize,
    pub surviving_hotel: Hotel,
    pub hotel_to_merge: Option<Hotel>,
    pub defunct_hotels_remaining: Vec<Hotel>,
}

impl MergerState {
    /// Whether `h` is one of the remaining defunct chains with the largest
    /// size on `board`.
    pub open spec fn is_largest_defunct(self, board: GameBoard, h: Hotel) -> bool {
        &&& self.defunct_hotels_remaining@.contains(h)
        &&& forall|h2: Hotel| self.defunct_hotels_remaining@.contains(h2)
            ==> board.chain_size_spec(h2) <= board.chain_size_spec(h)
    }

    /// The largest remaining defunct chains among the first `n` of the
    /// remaining list, in list order.
    pub open spec fn largest_defunct_seq_upto(self, board: GameBoard, n: int) -> Seq<Hotel>
        decreases n,
    {
        if n <= 0 {
            Seq::empty()
        } else {
            let rest = self.largest_defunct_seq_upto(board, n - 1);
            if self.is_largest_defunct(board, self.defunct_hotels_remaining@[n - 1]) {
                rest.push(self.defunct_hotels_remaining@[n - 1])
            } else {
                rest
            }
        }
    }

    /// The largest remaining defunct chains, in list order: the exact result
    /// of `get_largest_defunct_chains`, a function of this record and the
    /// board alone.
    pub open spec fn largest_defunct_seq(self, board: GameBoard) -> Seq<Hotel> {
        self.largest_defunct_seq_upto(board, self.defunct_hotels_remaining@.len() as int)
    }

    /// A fresh merger into `surviving_hotel`: the defunct chains are all the
    /// chains adjacent to the board's merger conflict cell other than the
    /// survivor.
    pub fn new(merge_maker: usize, surviving_hotel: Hotel, board: &GameBoard) -> (s: MergerState)
        requires
            board.wf(),
            exists|r: int, c: int| #[trigger] board.merge_conflict_at(r, c),
        ensures
            s.merge_maker == merge_maker,
            s.surviving_hotel == surviving_hotel,
            s.hotel_to_merge is None,
            s.defunct_hotels_remaining@.no_duplicates(),
            forall|r: int, c: int| #[trigger] board.merge_conflict_at(r, c) ==> forall|h: Hotel|
                s.defunct_hotels_remaining@.contains(h) <==> (board.adjacent_spec(r, c, h) && h
                    != surviving_hotel),
    {
        let conflict = board.get_conflict_on_board();
        proof {
            let (cr, cc) = choose|r: int, c: int| #[trigger] board.merge_conflict_at(r, c);
            assert(board.has_conflict());
        }
        match conflict {
            Some((row, col, _)) => {
                proof {
                    let (cr, cc) = choose|r: int, c: int| #[trigger] board.merge_conflict_at(r, c);
                    assert(row as int == cr && col as int == cc);
                }
                let adjacent = board.get_adjacent_hotels(row, col);
                let mut defunct_hotels_remaining: Vec<Hotel> = Vec::new();
                let mut i: usize = 0;
                while i < adjacent.len()
                    invariant
                        i <= adjacent@.len(),
                        adjacent@.no_duplicates(),
                        defunct_hotels_remaining@.no_duplicates(),
                        forall|h: Hotel| #[trigger] defunct_hotels_remaining@.contains(h)
                            ==> exists|k: int| 0 <= k < i && adjacent@[k] == h,
                        forall|h: Hotel| #[trigger] defunct_hotels_remaining@.contains(h)
                            ==> adjacent@.contains(h) && h != surviving_hotel,
                        forall|k: int|
                            0 <= k < i && #[trigger] adjacent@[k] != surviving_hotel
                                ==> defunct_hotels_remaining@.contains(adjacent@[k]),
                    decreases adjacent@.len() - i,
                {
                    let h = adjacent[i];
                    let ghost pre = defunct_hotels_remaining@;
                    if h != surviving_hotel {
                        proof {
                            if pre.contains(h) {
                                let k = choose|k: int| 0 <= k < i && adjacent@[k] == h;
                                assert(adjacent@[k] == adjacent@[i as int]);
                                assert(false);
                            }
                        }
                        defunct_hotels_remaining.push(h);
                    }
                    i = i + 1;
                }
                proof {
                    assert forall|r: int, c: int| #[trigger] board.merge_conflict_at(r, c)
                        implies forall|h: Hotel|
                        defunct_hotels_remaining@.contains(h) <==> (board.adjacent_spec(r, c, h)
                            && h != surviving_hotel) by {
                        assert(board.cell(row as int, col as int) matches Cell::Conflict(_));
                        assert(r == row as int && c == col as int);
                        assert forall|h: Hotel|
                            defunct_hotels_remaining@.contains(h) <==> (board.adjacent_spec(
                                r,
                                c,
                                h,
                            ) && h != surviving_hotel) by {
                            if board.adjacent_spec(r, c, h) && h != surviving_hotel {
                                assert(adjacent@.contains(h));
                                let k = choose|k: int|
                                    0 <= k < adjacent@.len() && adjacent@[k] == h;
                                assert(defunct_hotels_remaining@.contains(h));
                            }
                        }
                    }
                }
                MergerState {
                    merge_maker,
                    surviving_hotel,
                    hotel_to_merge: None,
                    defunct_hotels_remaining,
                }
            },
            None => {
                proof {
                    assert(false);
                }
                MergerState {
                    merge_maker,
                    surviving_hotel,
                    hotel_to_merge: None,
                    defunct_hotels_remaining: Vec::new(),
                }
            },
        }
    }

    /// The remaining defunct chains tied for the largest size on `board`.
    pub fn get_largest_defunct_chains(&self, board: &GameBoard) -> (largest: Vec<Hotel>)
        requires
            board.wf(),
            self.defunct_hotels_remaining@.len() > 0,
            self.defunct_hotels_remaining@.no_duplicates(),
        ensures
            forall|h: Hotel| largest@.contains(h) <==> self.is_largest_defunct(*board, h),
            largest@.no_duplicates(),
            largest@.len() > 0,
            largest@ == self.largest_defunct_seq(*board),
    {
        let defunct = &self.defunct_hotels_remaining;
        let mut max_chain_size: usize = 0;
        let mut idx: usize = 0;
        while idx < defunct.len()
            invariant
                board.wf(),
                defunct == &self.defunct_hotels_remaining,
                idx <= defunct@.len(),
                forall|k: int|
                    0 <= k < idx ==> board.chain_size_spec(#[trigger] defunct@[k])
                        <= max_chain_size,
                idx > 0 ==> exists|k: int|
                    0 <= k < idx && board.chain_size_spec(#[trigger] defunct@[k])
                        == max_chain_size,
                idx == 0 ==> max_chain_size == 0,
            decreases defunct@.len() - idx,
        {
            let size = board.get_hotel_chain_size(defunct[idx]);
            if size > max_chain_size || idx == 0 {
                max_chain_size = size;
            }
            idx = idx + 1;
        }
        let mut largest: Vec<Hotel> = Vec::new();
        let mut j: usize = 0;
        while j < defunct.len()
            invariant
                board.wf(),
                defunct == &self.defunct_hotels_remaining,
                j <= defunct@.len(),
                defunct@.no_duplicates(),
                forall|h: Hotel| #[trigger] largest@.contains(h) ==> exists|k: int|
                    0 <= k < j && defunct@[k] == h,
                forall|h: Hotel| #[trigger] largest@.contains(h) ==> board.chain_size_spec(h)
                    == max_chain_size && defunct@.contains(h),
                forall|k: int|
                    0 <= k < j && board.chain_size_spec(#[trigger] defunct@[k]) == max_chain_size
                        ==> largest@.contains(defunct@[k]),
                largest@ == self.largest_defunct_seq_upto(*board, j as int),
                largest@.no_duplicates(),
                forall|k: int|
                    0 <= k < defunct@.len() ==> board.chain_size_spec(#[trigger] defunct@[k])
                        <= max_chain_size,
                exists|k: int|
                    0 <= k < defunct@.len() && board.chain_size_spec(#[trigger] defunct@[k])
                        == max_chain_size,
            decreases defunct@.len() - j,
        {
            let h = defunct[j];
            let ghost pre = largest@;
            proof {
                // a chain of maximal size among the remaining defunct chains
                // is exactly a largest defunct chain
                if board.chain_size_spec(h) == max_chain_size {
                    assert(defunct@.contains(h));
                    assert forall|h2: Hotel| defunct@.contains(h2) implies board.chain_size_spec(
                        h2,
                    ) <= board.chain_size_spec(h) by {
                        let k2 = choose|k2: int| 0 <= k2 < defunct@.len() && defunct@[k2] == h2;
                    }
                }
                if self.is_largest_defunct(*board, h) {
                    let km = choose|km: int|
                        0 <= km < defunct@.len() && board.chain_size_spec(
                            #[trigger] defunct@[km],
                        ) == max_chain_size;
                    assert(defunct@.contains(defunct@[km]));
                    assert(board.chain_size_spec(h) == max_chain_size);
                }
            }
            if board.get_hotel_chain_size(h) == max_chain_size {
                proof {
                    if pre.contains(h) {
                        let k = choose|k: int| 0 <= k < j && defunct@[k] == h;
                        assert(defunct@[k] == defunct@[j as int]);
                        assert(false);
                    }
                }
                largest.push(h);
            }
            j = j + 1;
        }
        proof {
            let km = choose|k: int|
                0 <= k < defunct@.len() && board.chain_size_spec(#[trigger] defunct@[k])
                    == max_chain_size;
            assert(largest@.contains(defunct@[km]));
            assert(largest@.len() > 0);
            assert forall|h: Hotel|
                largest@.contains(h) <==> self.is_largest_defunct(*board, h) by {
                if largest@.contains(h) {
                    assert forall|h2: Hotel| defunct@.contains(h2) implies board.chain_size_spec(
                        h2,
                    ) <= board.chain_size_spec(h) by {
                        let k2 = choose|k2: int| 0 <= k2 < defunct@.len() && defunct@[k2] == h2;
                    }
                }
                if self.is_largest_defunct(*board, h) {
                    let k = choose|k: int| 0 <= k < defunct@.len() && defunct@[k] == h;
                    assert(defunct@.contains(defunct@[km]));
                    assert(board.chain_size_spec(h) == max_chain_size);
                    assert(largest@.contains(h));
                }
            }
        }
        largest
    }

    /// The next defunct chain to resolve: the unique largest one, or `None`
    /// when several are tied and the merge maker must choose.
    pub fn get_next_defunct_hotel(&self, board: &GameBoard) -> (next: Option<Hotel>)
        requires
            board.wf(),
            self.defunct_hotels_remaining@.len() > 0,
            self.defunct_hotels_remaining@.no_duplicates(),
        ensures
            match next {
                Some(h) => self.is_largest_defunct(*board, h) && forall|h2: Hotel|
                    self.is_largest_defunct(*board, h2) ==> h2 == h,
                None => exists|h1: Hotel, h2: Hotel|
                    h1 != h2 && #[trigger] self.is_largest_defunct(*board, h1)
                        && #[trigger] self.is_largest_defunct(*board, h2),
            },
    {
        let largest_defunct_chains = self.get_largest_defunct_chains(board);
        if largest_defunct_chains.len() == 1 {
            let h = largest_defunct_chains[0];
            proof {
                assert(largest_defunct_chains@.contains(h));
                assert forall|h2: Hotel| self.is_largest_defunct(*board, h2) implies h2 == h by {
                    assert(largest_defunct_chains@.contains(h2));
                    let k = choose|k: int|
                        0 <= k < largest_defunct_chains@.len() && largest_defunct_chains@[k] == h2;
                }
            }
            Some(h)
        } else {
            proof {
                assert(largest_defunct_chains@.len() >= 2);
                let h1 = largest_defunct_chains@[0];
                let h2 = largest_defunct_chains@[1];
                assert(largest_defunct_chains@.contains(h1));
                assert(largest_defunct_chains@.contains(h2));
                assert(h1 != h2);
            }
            None
        }
    }

    /// Record that `hotel` has been fully resolved: it leaves the remaining
    /// defunct list and becomes the chain under merge.  Returns true once no
    /// defunct chain remains.
    pub fn defunct_hotel_resolved(&mut self, hotel: Hotel) -> (done: bool)
        requires
            old(self).defunct_hotels_remaining@.contains(hotel),
            old(self).defunct_hotels_remaining@.no_duplicates(),
        ensures
            final(self).merge_maker == old(self).merge_maker,
            final(self).surviving_hotel == old(self).surviving_hotel,
            final(self).hotel_to_merge == Some(hotel),
            final(self).defunct_hotels_remaining@.no_duplicates(),
            forall|h: Hotel| final(self).defunct_hotels_remaining@.contains(h) <==> (old(
                self,
            ).defunct_hotels_remaining@.contains(h) && h != hotel),
            done == (final(self).defunct_hotels_remaining@.len() == 0),
    {
        self.hotel_to_merge = Some(hotel);
        let ghost orig = self.defunct_hotels_remaining@;
        let mut kept: Vec<Hotel> = Vec::new();
        let mut i: usize = 0;
        while i < self.defunct_hotels_remaining.len()
            invariant
                i <= orig.len(),
                self.defunct_hotels_remaining@ == orig,
                orig.no_duplicates(),
                kept@.no_duplicates(),
                forall|h: Hotel| #[trigger] kept@.contains(h) ==> exists|k: int|
                    0 <= k < i && orig[k] == h,
                forall|h: Hotel| #[trigger] kept@.contains(h) ==> orig.contains(h) && h != hotel,
                forall|k: int|
                    0 <= k < i && #[trigger] orig[k] != hotel ==> kept@.contains(orig[k]),
            decreases orig.len() - i,
        {
            let h = self.defunct_hotels_remaining[i];
            let ghost pre = kept@;
            if h != hotel {
                proof {
                    if pre.contains(h) {
                        let k = choose|k: int| 0 <= k < i && orig[k] == h;
                        assert(orig[k] == orig[i as int]);
                        assert(false);
                    }
                }
                kept.push(h);
            }
            i = i + 1;
        }
        self.defunct_hotels_remaining = kept;
        self.defunct_hotels_remaining.len() == 0
    }
}

} // verus!

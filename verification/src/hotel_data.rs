//! The seven fixed hotel chains and their pricing table.
//!
//! A chain's stock price depends only on its current size on the board and on
//! the chain's price bracket: the table rows are the size breakpoints
//! {0-2, 3, 4, 5, 6-10, 11-20, 21-30, 31-40, 41+}, and each chain adds a fixed
//! row advantage on top.  The majority and minority holder bonuses are fixed
//! multiples of the stock price.

use vstd::prelude::*;

verus! {

/// One of the seven fixed hotel chains.
#[derive(Debug, PartialEq, Eq, Clone, Copy, Structural)]
pub enum Hotel {
    Tower,
    Luxor,
    American,
    Worldwide,
    Festival,
    Imperial,
    Continental,
}

/// The position of a hotel in the fixed chain enumeration.
pub open spec fn hotel_index_spec(h: Hotel) -> int {
    match h {
        Hotel::Tower => 0,
        Hotel::Luxor => 1,
        Hotel::American => 2,
        Hotel::Worldwide => 3,
        Hotel::Festival => 4,
        Hotel::Imperial => 5,
        Hotel::Continental => 6,
    }
}

/// The hotel at a given position of the fixed chain enumeration.
pub open spec fn hotel_from_index_spec(i: int) -> Hotel {
    if i == 0 {
        Hotel::Tower
    } else if i == 1 {
        Hotel::Luxor
    } else if i == 2 {
        Hotel::American
    } else if i == 3 {
        Hotel::Worldwide
    } else if i == 4 {
        Hotel::Festival
    } else if i == 5 {
        Hotel::Imperial
    } else {
        Hotel::Continental
    }
}

/// How many extra pricing-table rows a chain starts with.
pub open spec fn row_advantage_spec(h: Hotel) -> int {
    match h {
        Hotel::Tower | Hotel::Luxor => 0,
        Hotel::American | Hotel::Worldwide | Hotel::Festival => 1,
        Hotel::Imperial | Hotel::Continental => 2,
    }
}

/// The base pricing-table row for a chain of `chain_length` cells.
pub open spec fn row_from_chain_length_spec(chain_length: int) -> int {
    if chain_length <= 2 {
        0
    } else if chain_length == 3 {
        1
    } else if chain_length == 4 {
        2
    } else if chain_length == 5 {
        3
    } else if chain_length <= 10 {
        4
    } else if chain_length <= 20 {
        5
    } else if chain_length <= 30 {
        6
    } else if chain_length <= 40 {
        7
    } else {
        8
    }
}

/// The stock price of chain `h` at size `chain_length`.
pub open spec fn stock_value_spec(h: Hotel, chain_length: int) -> int {
    (row_from_chain_length_spec(chain_length) + row_advantage_spec(h) + 2) * 100
}

/// The majority holder bonus of chain `h` at size `chain_length`.
pub open spec fn majority_bonus_spec(h: Hotel, chain_length: int) -> int {
    stock_value_spec(h, chain_length) * 10
}

/// The minority holder bonus of chain `h` at size `chain_length`.
pub open spec fn minority_bonus_spec(h: Hotel, chain_length: int) -> int {
    stock_value_spec(h, chain_length) * 5
}

impl Hotel {
    /// The number of distinct hotel chains.
    pub fn count() -> (n: usize)
        ensures
            n == 7,
    {
        7
    }

    /// The position of this hotel in the fixed chain enumeration.
    pub fn index(&self) -> (i: usize)
        ensures
            i == hotel_index_spec(*self),
    {
        match self {
            Hotel::Tower => 0,
            Hotel::Luxor => 1,
            Hotel::American => 2,
            Hotel::Worldwide => 3,
            Hotel::Festival => 4,
            Hotel::Imperial => 5,
            Hotel::Continental => 6,
        }
    }

    /// The hotel at position `i` of the fixed chain enumeration.
    pub fn from_index(i: usize) -> (h: Hotel)
        requires
            i < 7,
        ensures
            h == hotel_from_index_spec(i as int),
            hotel_index_spec(h) == i,
    {
        if i == 0 {
            Hotel::Tower
        } else if i == 1 {
            Hotel::Luxor
        } else if i == 2 {
            Hotel::American
        } else if i == 3 {
            Hotel::Worldwide
        } else if i == 4 {
            Hotel::Festival
        } else if i == 5 {
            Hotel::Imperial
        } else {
            Hotel::Continental
        }
    }

    /// The display name of this hotel.
    pub fn name(&self) -> (s: &'static str)
        ensures
            s@ =~= match *self {
                Hotel::Tower => "Tower"@,
                Hotel::Luxor => "Luxor"@,
                Hotel::American => "American"@,
                Hotel::Worldwide => "Worldwide"@,
                Hotel::Festival => "Festival"@,
                Hotel::Imperial => "Imperial"@,
                Hotel::Continental => "Continental"@,
            },
    {
        match self {
            Hotel::Tower => "Tower",
            Hotel::Luxor => "Luxor",
            Hotel::American => "American",
            Hotel::Worldwide => "Worldwide",
            Hotel::Festival => "Festival",
            Hotel::Imperial => "Imperial",
            Hotel::Continental => "Continental",
        }
    }

    /// How many extra pricing-table rows this chain starts with.
    pub fn get_hotel_row_advantage(&self) -> (adv: usize)
        ensures
            adv == row_advantage_spec(*self),
    {
        match self {
            Hotel::Tower | Hotel::Luxor => 0,
            Hotel::American | Hotel::Worldwide | Hotel::Festival => 1,
            Hotel::Imperial | Hotel::Continental => 2,
        }
    }

    /// The pricing-table row (base row plus advantage) for this chain at size
    /// `chain_length`.
    pub fn get_row_from_chain_length(&self, chain_length: usize) -> (row: u32)
        ensures
            row == row_from_chain_length_spec(chain_length as int) + row_advantage_spec(*self),
    {
        let base_row: u32 = if chain_length <= 2 {
            0
        } else if chain_length == 3 {
            1
        } else if chain_length == 4 {
            2
        } else if chain_length == 5 {
            3
        } else if chain_length <= 10 {
            4
        } else if chain_length <= 20 {
            5
        } else if chain_length <= 30 {
            6
        } else if chain_length <= 40 {
            7
        } else {
            8
        };
        base_row + (self.get_hotel_row_advantage() as u32)
    }

    /// The stock price of this chain at size `chain_length`.
    pub fn get_stock_value(&self, chain_length: usize) -> (price: u32)
        ensures
            price == stock_value_spec(*self, chain_length as int),
            200 <= price <= 1200,
    {
        (self.get_row_from_chain_length(chain_length) + 2) * 100
    }

    /// The majority holder bonus of this chain at size `chain_length`.
    pub fn get_majority_holder_bonus(&self, chain_length: usize) -> (bonus: u32)
        ensures
            bonus == majority_bonus_spec(*self, chain_length as int),
            bonus <= 12000,
    {
        self.get_stock_value(chain_length) * 10
    }

    /// The minority holder bonus of this chain at size `chain_length`.
    pub fn get_minority_holder_bonus(&self, chain_length: usize) -> (bonus: u32)
        ensures
            bonus == minority_bonus_spec(*self, chain_length as int),
            bonus <= 6000,
    {
        self.get_stock_value(chain_length) * 5
    }

    /// A cursor over the seven hotels in enumeration order.
    pub fn iter() -> (it: HotelIter)
        ensures
            it.index == 0,
    {
        HotelIter::new()
    }
}

/// A cursor that hands out the seven hotels in enumeration order.
pub struct HotelIter {
    pub index: usize,
}

impl HotelIter {
    /// A cursor positioned before the first hotel.
    pub fn new() -> (it: HotelIter)
        ensures
            it.index == 0,
    {
        HotelIter { index: 0 }
    }

    /// The next hotel in enumeration order, or `None` once all seven have
    /// been handed out.
    pub fn next(&mut self) -> (h: Option<Hotel>)
        ensures
            old(self).index < 7 ==> h == Some(hotel_from_index_spec(old(self).index as int))
                && final(self).index == old(self).index + 1,
            old(self).index >= 7 ==> h is None && final(self).index == old(self).index,
    {
        if self.index < 7 {
            let h = Hotel::from_index(self.index);
            self.index = self.index + 1;
            Some(h)
        } else {
            None
        }
    }
}

/// The stock price and both holder bonuses never decrease as a chain grows.
pub proof fn lemma_pricing_monotonic(h: Hotel, len1: int, len2: int)
    requires
        len1 <= len2,
    ensures
        stock_value_spec(h, len1) <= stock_value_spec(h, len2),
        majority_bonus_spec(h, len1) <= majority_bonus_spec(h, len2),
        minority_bonus_spec(h, len1) <= minority_bonus_spec(h, len2),
{
}

} // verus!

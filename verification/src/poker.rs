//! Poker hands: cards, bit-packed card sets, hand ranking, and the
//! count of first-player wins over a list of dealt games.
use vstd::prelude::*;

use core::cmp::Ordering;

use vstd::multiset::Multiset;
use vstd::string::StringSliceAdditionalSpecFns;

verus! {

/// Failures while reading dealt hands.
#[derive(Clone, Copy, PartialEq, Eq, Structural, Debug)]
pub enum PokerError {
    /// A card token was not a value character followed by a suit
    /// character.
    InvalidCard,
    /// A line did not hold exactly ten cards.
    InvalidLine,
}

/// One of the four suits.
#[derive(Clone, Copy, PartialEq, Eq, Structural, Debug)]
pub enum PokerSuit {
    Diamonds,
    Hearts,
    Clubs,
    Spades,
}

impl PokerSuit {
    /// The suit's distinct numeric identifier.
    pub open spec fn id_spec(self) -> u8 {
        match self {
            PokerSuit::Diamonds => 0,
            PokerSuit::Hearts => 1,
            PokerSuit::Clubs => 2,
            PokerSuit::Spades => 3,
        }
    }

    /// The suit parsed from its letter, if any.
    pub open spec fn parse_spec(c: char) -> Option<PokerSuit> {
        if c == 'D' {
            Some(PokerSuit::Diamonds)
        } else if c == 'H' {
            Some(PokerSuit::Hearts)
        } else if c == 'C' {
            Some(PokerSuit::Clubs)
        } else if c == 'S' {
            Some(PokerSuit::Spades)
        } else {
            None
        }
    }

    /// The suit's numeric identifier.
    pub fn id(self) -> (r: u8)
        ensures
            r == self.id_spec(),
    {
        match self {
            PokerSuit::Diamonds => 0,
            PokerSuit::Hearts => 1,
            PokerSuit::Clubs => 2,
            PokerSuit::Spades => 3,
        }
    }

    /// The suit with the given identifier: each of the four identifiers
    /// maps back to its own distinct suit.
    pub fn from_id(id: u8) -> (r: Option<PokerSuit>)
        ensures
            match r {
                Some(s) => id < 4 && s.id_spec() == id,
                None => id >= 4,
            },
    {
        match id {
            0 => Some(PokerSuit::Diamonds),
            1 => Some(PokerSuit::Hearts),
            2 => Some(PokerSuit::Clubs),
            3 => Some(PokerSuit::Spades),
            _ => None,
        }
    }

    /// The suit named by a letter.
    pub fn parse(c: char) -> (r: Option<PokerSuit>)
        ensures
            r == PokerSuit::parse_spec(c),
    {
        match c {
            'D' => Some(PokerSuit::Diamonds),
            'H' => Some(PokerSuit::Hearts),
            'C' => Some(PokerSuit::Clubs),
            'S' => Some(PokerSuit::Spades),
            _ => None,
        }
    }

    /// The suit's letter.
    pub fn print(self) -> (r: char)
        ensures
            PokerSuit::parse_spec(r) == Some(self),
    {
        match self {
            PokerSuit::Diamonds => 'D',
            PokerSuit::Hearts => 'H',
            PokerSuit::Clubs => 'C',
            PokerSuit::Spades => 'S',
        }
    }

    /// The set of all thirteen cards of this suit.
    pub fn cards(self) -> (r: PokerSet)
        ensures
            r.bits() == 0x1FFFu64 << (16 * self.id_spec()),
    {
        PokerSet(0x1FFFu64 << (16 * self.id()))
    }
}

/// One of the fourteen card values, ace high.
#[derive(Clone, Copy, PartialEq, Eq, Structural, Debug)]
pub enum PokerValue {
    One,
    Two,
    Three,
    Four,
    Five,
    Six,
    Seven,
    Eight,
    Nine,
    Ten,
    Jack,
    Queen,
    King,
    Ace,
}

impl PokerValue {
    /// The value's distinct numeric identifier, in ranking order.
    pub open spec fn id_spec(self) -> u8 {
        match self {
            PokerValue::One => 0,
            PokerValue::Two => 1,
            PokerValue::Three => 2,
            PokerValue::Four => 3,
            PokerValue::Five => 4,
            PokerValue::Six => 5,
            PokerValue::Seven => 6,
            PokerValue::Eight => 7,
            PokerValue::Nine => 8,
            PokerValue::Ten => 9,
            PokerValue::Jack => 10,
            PokerValue::Queen => 11,
            PokerValue::King => 12,
            PokerValue::Ace => 13,
        }
    }

    /// The value's numeric identifier.
    pub fn id(self) -> (r: u8)
        ensures
            r == self.id_spec(),
    {
        match self {
            PokerValue::One => 0,
            PokerValue::Two => 1,
            PokerValue::Three => 2,
            PokerValue::Four => 3,
            PokerValue::Five => 4,
            PokerValue::Six => 5,
            PokerValue::Seven => 6,
            PokerValue::Eight => 7,
            PokerValue::Nine => 8,
            PokerValue::Ten => 9,
            PokerValue::Jack => 10,
            PokerValue::Queen => 11,
            PokerValue::King => 12,
            PokerValue::Ace => 13,
        }
    }

    /// The face value, one above the identifier.
    pub fn value(self) -> (r: u8)
        ensures
            r == self.id_spec() + 1,
    {
        self.id() + 1
    }

    /// The value with the given identifier: each of the fourteen
    /// identifiers maps back to its own distinct value.
    pub fn from_id(id: u8) -> (r: Option<PokerValue>)
        ensures
            match r {
                Some(v) => id < 14 && v.id_spec() == id,
                None => id >= 14,
            },
    {
        match id {
            0 => Some(PokerValue::One),
            1 => Some(PokerValue::Two),
            2 => Some(PokerValue::Three),
            3 => Some(PokerValue::Four),
            4 => Some(PokerValue::Five),
            5 => Some(PokerValue::Six),
            6 => Some(PokerValue::Seven),
            7 => Some(PokerValue::Eight),
            8 => Some(PokerValue::Nine),
            9 => Some(PokerValue::Ten),
            10 => Some(PokerValue::Jack),
            11 => Some(PokerValue::Queen),
            12 => Some(PokerValue::King),
            13 => Some(PokerValue::Ace),
            _ => None,
        }
    }

    /// The value with the given identifier, as a specification.
    pub open spec fn from_id_spec(id: u8) -> Option<PokerValue> {
        if id == 0 {
            Some(PokerValue::One)
        } else if id == 1 {
            Some(PokerValue::Two)
        } else if id == 2 {
            Some(PokerValue::Three)
        } else if id == 3 {
            Some(PokerValue::Four)
        } else if id == 4 {
            Some(PokerValue::Five)
        } else if id == 5 {
            Some(PokerValue::Six)
        } else if id == 6 {
            Some(PokerValue::Seven)
        } else if id == 7 {
            Some(PokerValue::Eight)
        } else if id == 8 {
            Some(PokerValue::Nine)
        } else if id == 9 {
            Some(PokerValue::Ten)
        } else if id == 10 {
            Some(PokerValue::Jack)
        } else if id == 11 {
            Some(PokerValue::Queen)
        } else if id == 12 {
            Some(PokerValue::King)
        } else if id == 13 {
            Some(PokerValue::Ace)
        } else {
            None
        }
    }

    /// The value named by a character, as a specification.
    pub open spec fn parse_spec(c: char) -> Option<PokerValue> {
        if c == 'A' {
            Some(PokerValue::Ace)
        } else if c == 'K' {
            Some(PokerValue::King)
        } else if c == 'Q' {
            Some(PokerValue::Queen)
        } else if c == 'J' {
            Some(PokerValue::Jack)
        } else if c == 'T' {
            Some(PokerValue::Ten)
        } else if 48 <= c as u32 <= 57 && c as u32 != 48 {
            PokerValue::from_id_spec(((c as u32) - 49) as u8)
        } else {
            None
        }
    }

    /// The value with the given face value.
    pub fn from_value(value: u8) -> (r: Option<PokerValue>)
        ensures
            match r {
                Some(v) => 1 <= value <= 14 && v.id_spec() + 1 == value,
                None => value == 0 || value > 14,
            },
    {
        if value == 0 {
            None
        } else {
            PokerValue::from_id(value - 1)
        }
    }

    /// The value named by a character: a face letter or a single digit.
    pub fn parse(c: char) -> (r: Option<PokerValue>)
        ensures
            r == PokerValue::parse_spec(c),
    {
        match c {
            'A' => Some(PokerValue::Ace),
            'K' => Some(PokerValue::King),
            'Q' => Some(PokerValue::Queen),
            'J' => Some(PokerValue::Jack),
            'T' => Some(PokerValue::Ten),
            _ => {
                let cu = c as u32;
                if 48 <= cu && cu <= 57 && cu != 48 {
                    PokerValue::from_id((cu - 49) as u8)
                } else {
                    None
                }
            },
        }
    }

    /// The value's character: a face letter or its digit; parsing the
    /// printed character gives the value back.
    pub fn print(self) -> (r: char)
        ensures
            PokerValue::parse_spec(r) == Some(self),
    {
        match self {
            PokerValue::Ace => 'A',
            PokerValue::King => 'K',
            PokerValue::Queen => 'Q',
            PokerValue::Jack => 'J',
            PokerValue::Ten => 'T',
            _ => {
                let d = 48 + self.value();
                let r = d as char;
                proof {
                    assert(r as u32 == d);
                }
                r
            },
        }
    }

    /// The value `amount` ranks higher, if it stays on the table.
    pub fn checked_add(self, amount: u8) -> (r: Option<PokerValue>)
        ensures
            match r {
                Some(v) => self.id_spec() + amount < 14 && v.id_spec() == self.id_spec()
                    + amount,
                None => self.id_spec() + amount >= 14,
            },
    {
        let target = self.id() as u16 + amount as u16;
        if target < 14 {
            PokerValue::from_id(target as u8)
        } else {
            None
        }
    }

    /// The set of the four cards of this value, one per suit.
    pub fn kinds(self) -> (r: PokerSet)
        ensures
            r.bits() == (1u64 << self.id_spec()) | (1u64 << (self.id_spec() + 16)) | (1u64 << (
            self.id_spec() + 32)) | (1u64 << (self.id_spec() + 48)),
    {
        let id = self.id();
        PokerSet(
            (1u64 << id) | (1u64 << (id + 16)) | (1u64 << (id + 32)) | (1u64 << (id + 48)),
        )
    }

    /// The set of cards that can appear in a straight starting at this
    /// value, or `None` if the value is too high to start one.
    pub fn flush(&self) -> (r: Option<PokerSet>)
        ensures
            match r {
                Some(s) => self.id_spec() + 4 < 14 && s.bits() == (0x1Fu64 << self.id_spec()) | (
                0x1Fu64 << (self.id_spec() + 16)) | (0x1Fu64 << (self.id_spec() + 32)) | (
                0x1Fu64 << (self.id_spec() + 48)),
                None => self.id_spec() + 4 >= 14,
            },
    {
        let id = self.id();
        if id + 4 < 14 {
            let mask = 0x1Fu64 << id;
            proof {
                let i = id;
                assert(((0x1Fu64 << i) << 16 == 0x1Fu64 << (i + 16)) && ((0x1Fu64 << i) << 32
                    == 0x1Fu64 << (i + 32)) && ((0x1Fu64 << i) << 48 == 0x1Fu64 << (i + 48)))
                    by (bit_vector)
                    requires
                        i < 10u8,
                ;
            }
            Some(PokerSet(mask | (mask << 16) | (mask << 32) | (mask << 48)))
        } else {
            None
        }
    }
}

/// A playing card: a suit and a value.
#[derive(Clone, Copy, PartialEq, Eq, Structural, Debug)]
pub struct PokerCard {
    pub suit: PokerSuit,
    pub value: PokerValue,
}

impl PokerCard {
    /// The card's distinct identifier: sixteen slots per suit.
    pub open spec fn id_spec(self) -> u8 {
        (self.suit.id_spec() * 16 + self.value.id_spec()) as u8
    }

    /// The card's identifier.
    pub fn id(self) -> (r: u8)
        ensures
            r == self.id_spec(),
            r < 62,
    {
        self.suit.id() * 16 + self.value.id()
    }

    /// The card with the given identifier.
    pub fn from_id(id: u8) -> (r: Option<PokerCard>)
        ensures
            match r {
                Some(c) => c.id_spec() == id,
                None => id >= 64 || id % 16 >= 14,
            },
    {
        let suit = match PokerSuit::from_id(id / 16) {
            Some(s) => s,
            None => {
                return None;
            },
        };
        let value = match PokerValue::from_id(id % 16) {
            Some(v) => v,
            None => {
                return None;
            },
        };
        proof {
            vstd::arithmetic::div_mod::lemma_fundamental_div_mod(id as int, 16);
        }
        Some(PokerCard { suit, value })
    }

    /// A card parsed from a two-character token: value then suit.
    pub fn parse(text: &str) -> (r: Result<PokerCard, PokerError>)
        ensures
            match r {
                Ok(c) => text@.len() == 2 && PokerValue::parse_spec(text@[0]) == Some(c.value)
                    && PokerSuit::parse_spec(text@[1]) == Some(c.suit),
                Err(e) => e == PokerError::InvalidCard && (text@.len() != 2
                    || PokerValue::parse_spec(text@[0]) is None || PokerSuit::parse_spec(
                    text@[1],
                ) is None),
            },
    {
        if text.unicode_len() == 2 {
            let v = text.get_char(0);
            let s = text.get_char(1);
            if let Some(value) = PokerValue::parse(v) {
                if let Some(suit) = PokerSuit::parse(s) {
                    return Ok(PokerCard { suit, value });
                }
            }
        }
        Err(PokerError::InvalidCard)
    }

    /// The cards of this card's suit from its value up to `end`.
    pub fn until(self, end: PokerValue) -> (r: PokerSet)
        requires
            self.value.id_spec() <= end.id_spec(),
        ensures
            r.bits() == (((1u64 << ((end.id_spec() - self.value.id_spec() + 1) as u64)) - 1)
                as u64) << ((self.value.id_spec() + 16 * self.suit.id_spec()) as u64),
    {
        let lo = self.value.id();
        let hi = end.id();
        let width = hi - lo + 1;
        proof {
            let w = width;
            assert(1u64 << w >= 1) by (bit_vector)
                requires
                    w <= 14u8,
            ;
        }
        let mask = (1u64 << width) - 1;
        PokerSet(mask << (lo + 16 * self.suit.id()))
    }

    /// The straight flush starting at this card, or `None` when the
    /// card is too high to start one.
    pub fn straight_flush(self) -> (r: Option<PokerSet>)
        ensures
            match r {
                Some(s) => self.value.id_spec() + 4 < 14 && s.bits() == 0x1Fu64 << (
                self.value.id_spec() + 16 * self.suit.id_spec()),
                None => self.value.id_spec() + 4 >= 14,
            },
    {
        match self.value.checked_add(4) {
            Some(end) => {
                let r = self.until(end);
                proof {
                    assert((1u64 << (4 + 1)) - 1 == 0x1Fu64) by (bit_vector);
                }
                Some(r)
            },
            None => None,
        }
    }
}

/// The number of set bits among the low `n` bits of `x`.
pub open spec fn popcount_below(x: u64, n: int) -> int
    decreases n,
{
    if n <= 0 {
        0
    } else {
        popcount_below(x, n - 1) + ((x >> (n - 1)) & 1)
    }
}

/// A set of cards, one bit per card identifier.
#[derive(Clone, Copy, PartialEq, Eq, Structural, Debug)]
pub struct PokerSet(u64);

impl PokerSet {
    /// The set's bit pattern.
    pub closed spec fn bits(self) -> u64 {
        self.0
    }

    /// The empty set.
    pub fn new() -> (r: PokerSet)
        ensures
            r.bits() == 0,
    {
        PokerSet(0)
    }

    /// Whether every card of `other` is also in this set.
    pub fn contains_all(self, other: PokerSet) -> (r: bool)
        ensures
            r == ((self.bits() & other.bits()) == other.bits()),
    {
        (self.0 & other.0) == other.0
    }

    /// Add a card to the set.
    pub fn insert(&mut self, card: PokerCard)
        ensures
            final(self).bits() == old(self).bits() | (1u64 << card.id_spec()),
    {
        self.0 = self.0 | (1u64 << card.id());
    }

    /// Union with another set.
    pub fn union(self, other: PokerSet) -> (r: PokerSet)
        ensures
            r.bits() == self.bits() | other.bits(),
    {
        PokerSet(self.0 | other.0)
    }

    /// Intersection with another set.
    pub fn intersect(self, other: PokerSet) -> (r: PokerSet)
        ensures
            r.bits() == self.bits() & other.bits(),
    {
        PokerSet(self.0 & other.0)
    }

    /// The number of cards in the set.
    pub fn len(self) -> (r: u32)
        ensures
            r == popcount_below(self.bits(), 64),
    {
        let x = self.0;
        let mut count: u32 = 0;
        let mut i: u32 = 0;
        while i < 64
            invariant
                i <= 64,
                count == popcount_below(x, i as int),
                count <= i,
            decreases 64 - i,
        {
            proof {
                assert(((x >> i) & 1) <= 1) by (bit_vector);
            }
            count = count + ((x >> i) & 1) as u32;
            i = i + 1;
        }
        count
    }
}


/// The ten hand ranks, weakest first, with their tie-break payloads.
#[derive(Clone, Copy, PartialEq, Eq, Structural, Debug)]
pub enum PokerRank {
    HighCard(PokerValue),
    OnePair(PokerValue),
    TwoPairs(PokerValue, PokerValue),
    ThreeOfAKind(PokerValue),
    Straight(PokerValue),
    Flush,
    FullHouse { three_of_a_kind: PokerValue, pair: PokerValue },
    FourOfAKind(PokerValue),
    StraightFlush(PokerValue),
    RoyalFlush,
}

/// How many cards of `s` carry the value with identifier `vid`.
pub open spec fn count_value(s: Seq<PokerCard>, vid: u8) -> nat
    decreases s.len(),
{
    if s.len() == 0 {
        0
    } else {
        count_value(s.drop_last(), vid) + (if s.last().value.id_spec() == vid {
            1nat
        } else {
            0nat
        })
    }
}

/// All cards share one suit.
pub open spec fn is_flush_seq(s: Seq<PokerCard>) -> bool {
    forall|i: int| 0 <= i < s.len() ==> #[trigger] s[i].suit == s[0].suit
}

/// The sorted values run up consecutively from the first card.
pub open spec fn is_straight_seq(s: Seq<PokerCard>) -> bool {
    forall|i: int|
        0 <= i < s.len() ==> #[trigger] s[i].value.id_spec() == s[0].value.id_spec() + i
}

/// The cards are sorted by value identifier, least first.
pub open spec fn sorted_by_value(s: Seq<PokerCard>) -> bool {
    forall|i: int, j: int|
        0 <= i <= j < s.len() ==> #[trigger] s[i].value.id_spec() <= #[trigger] s[
            j
        ].value.id_spec()
}

/// The stated rank is a faithful classification of the sorted hand.
pub open spec fn rank_ok(s: Seq<PokerCard>, r: PokerRank) -> bool {
    match r {
        PokerRank::RoyalFlush => is_straight_seq(s) && is_flush_seq(s) && s[0].value.id_spec()
            == 9,
        PokerRank::StraightFlush(v) => is_straight_seq(s) && is_flush_seq(s) && v == s[0].value
            && s[0].value.id_spec() != 9,
        PokerRank::FourOfAKind(v) => count_value(s, v.id_spec()) >= 4,
        PokerRank::FullHouse { three_of_a_kind, pair } => count_value(
            s,
            three_of_a_kind.id_spec(),
        ) == 3 && count_value(s, pair.id_spec()) == 2,
        PokerRank::Flush => is_flush_seq(s) && !(is_straight_seq(s) && is_flush_seq(s))
            && (forall|vid: u8| vid < 14 ==> count_value(s, vid) < 4),
        PokerRank::Straight(v) => is_straight_seq(s) && !is_flush_seq(s) && v == s[0].value,
        PokerRank::ThreeOfAKind(v) => count_value(s, v.id_spec()) == 3 && !is_flush_seq(s)
            && !is_straight_seq(s) && (forall|vid: u8|
            vid < 14 && count_value(s, vid) >= 2 ==> count_value(s, vid) == 3),
        PokerRank::TwoPairs(hi, lo) => count_value(s, hi.id_spec()) == 2 && count_value(
            s,
            lo.id_spec(),
        ) == 2 && lo.id_spec() < hi.id_spec() && !is_flush_seq(s) && !is_straight_seq(s)
            && (forall|vid: u8| vid < 14 ==> count_value(s, vid) <= 2),
        PokerRank::OnePair(v) => count_value(s, v.id_spec()) == 2 && !is_flush_seq(s)
            && !is_straight_seq(s) && (forall|vid: u8|
            vid < 14 && count_value(s, vid) >= 2 ==> vid == v.id_spec() && count_value(s, vid)
                == 2),
        PokerRank::HighCard(v) => v == s[s.len() - 1].value && !is_flush_seq(s)
            && !is_straight_seq(s) && (forall|vid: u8| vid < 14 ==> count_value(s, vid) <= 1),
    }
}

/// A lexicographic key ordering the ranks as the game does: the
/// category first, then the tie-break values within it.
pub open spec fn rank_key(r: PokerRank) -> (int, int, int) {
    match r {
        PokerRank::HighCard(v) => (0int, v.id_spec() as int, 0int),
        PokerRank::OnePair(v) => (1int, v.id_spec() as int, 0int),
        PokerRank::TwoPairs(hi, lo) => (2int, hi.id_spec() as int, lo.id_spec() as int),
        PokerRank::ThreeOfAKind(v) => (3int, v.id_spec() as int, 0int),
        PokerRank::Straight(v) => (4int, v.id_spec() as int, 0int),
        PokerRank::Flush => (5int, 0int, 0int),
        PokerRank::FullHouse { three_of_a_kind, pair } => (
            6int,
            three_of_a_kind.id_spec() as int,
            pair.id_spec() as int,
        ),
        PokerRank::FourOfAKind(v) => (7int, v.id_spec() as int, 0int),
        PokerRank::StraightFlush(v) => (8int, v.id_spec() as int, 0int),
        PokerRank::RoyalFlush => (9int, 0int, 0int),
    }
}

/// Lexicographic comparison of two rank keys.
pub open spec fn key_cmp(a: (int, int, int), b: (int, int, int)) -> Ordering {
    if a.0 != b.0 {
        if a.0 < b.0 {
            Ordering::Less
        } else {
            Ordering::Greater
        }
    } else if a.1 != b.1 {
        if a.1 < b.1 {
            Ordering::Less
        } else {
            Ordering::Greater
        }
    } else if a.2 != b.2 {
        if a.2 < b.2 {
            Ordering::Less
        } else {
            Ordering::Greater
        }
    } else {
        Ordering::Equal
    }
}

/// Compare two ranks by category, then by their tie-break values.
pub fn compare_ranks(a: &PokerRank, b: &PokerRank) -> (r: Ordering)
    ensures
        r == key_cmp(rank_key(*a), rank_key(*b)),
{
    let (a0, a1, a2) = rank_key_exec(a);
    let (b0, b1, b2) = rank_key_exec(b);
    if a0 != b0 {
        if a0 < b0 {
            Ordering::Less
        } else {
            Ordering::Greater
        }
    } else if a1 != b1 {
        if a1 < b1 {
            Ordering::Less
        } else {
            Ordering::Greater
        }
    } else if a2 != b2 {
        if a2 < b2 {
            Ordering::Less
        } else {
            Ordering::Greater
        }
    } else {
        Ordering::Equal
    }
}

/// The rank's numeric key.
fn rank_key_exec(r: &PokerRank) -> (k: (u8, u8, u8))
    ensures
        rank_key(*r) == (k.0 as int, k.1 as int, k.2 as int),
{
    match *r {
        PokerRank::HighCard(v) => (0, v.id(), 0),
        PokerRank::OnePair(v) => (1, v.id(), 0),
        PokerRank::TwoPairs(hi, lo) => (2, hi.id(), lo.id()),
        PokerRank::ThreeOfAKind(v) => (3, v.id(), 0),
        PokerRank::Straight(v) => (4, v.id(), 0),
        PokerRank::Flush => (5, 0, 0),
        PokerRank::FullHouse { three_of_a_kind, pair } => (6, three_of_a_kind.id(), pair.id()),
        PokerRank::FourOfAKind(v) => (7, v.id(), 0),
        PokerRank::StraightFlush(v) => (8, v.id(), 0),
        PokerRank::RoyalFlush => (9, 0, 0),
    }
}

/// A hand of five cards, sorted by value.
#[derive(Clone, Debug)]
pub struct PokerHand {
    cards: Vec<PokerCard>,
}

impl PokerHand {
    /// The hand's cards, least value first.
    pub closed spec fn spec_cards(&self) -> Seq<PokerCard> {
        self.cards@
    }

    /// Five cards, sorted by value identifier.
    pub open spec fn wf(&self) -> bool {
        &&& self.spec_cards().len() == 5
        &&& sorted_by_value(self.spec_cards())
    }

    /// A hand from five dealt cards, sorted by value.
    pub fn new(cards: &[PokerCard]) -> (r: PokerHand)
        requires
            cards@.len() == 5,
        ensures
            r.wf(),
            r.spec_cards().to_multiset() == cards@.to_multiset(),
    {
        broadcast use vstd::seq_lib::group_to_multiset_ensures;

        let mut work: Vec<PokerCard> = Vec::new();
        let mut i: usize = 0;
        while i < 5
            invariant
                i <= 5,
                cards@.len() == 5,
                work@ =~= cards@.take(i as int),
            decreases 5 - i,
        {
            work.push(*vstd::slice::slice_index_get(cards, i));
            assert(work@ =~= cards@.take(i + 1));
            i += 1;
        }
        assert(cards@.take(5) =~= cards@);
        let mut out: Vec<PokerCard> = Vec::new();
        while work.len() > 0
            invariant
                out@.to_multiset().add(work@.to_multiset()) =~= cards@.to_multiset(),
                out@.len() + work@.len() == 5,
                sorted_by_value(out@),
                forall|i: int, j: int|
                    0 <= i < out@.len() && 0 <= j < work@.len()
                        ==> #[trigger] out@[i].value.id_spec() <= #[trigger] work@[
                        j
                    ].value.id_spec(),
            decreases work@.len(),
        {
            let mut min_idx: usize = 0;
            let mut k: usize = 1;
            while k < work.len()
                invariant
                    min_idx < work@.len(),
                    k <= work@.len(),
                    work@.len() > 0,
                    forall|t: int|
                        0 <= t < k ==> work@[min_idx as int].value.id_spec()
                            <= #[trigger] work@[t].value.id_spec(),
                decreases work@.len() - k,
            {
                if work[k].value.id() < work[min_idx].value.id() {
                    min_idx = k;
                }
                k += 1;
            }
            let ghost pre_work = work@;
            let ghost pre_out = out@;
            let card = work.remove(min_idx);
            out.push(card);
            proof {
                pre_work.to_multiset_ensures();
                pre_out.to_multiset_ensures();
                assert(work@ == pre_work.remove(min_idx as int));
                assert(out@ == pre_out.push(card));
                assert(work@.to_multiset() =~= pre_work.to_multiset().remove(card));
                assert(out@.to_multiset() =~= pre_out.to_multiset().insert(card));
                assert(out@.to_multiset().add(work@.to_multiset()) =~= cards@.to_multiset());
                assert forall|i: int, j: int|
                    0 <= i < out@.len() && 0 <= j < work@.len()
                    implies #[trigger] out@[i].value.id_spec() <= #[trigger] work@[
                    j
                ].value.id_spec() by {
                    assert(work@[j] == if j < min_idx {
                        pre_work[j]
                    } else {
                        pre_work[j + 1]
                    });
                    if i < pre_out.len() {
                        assert(out@[i] == pre_out[i]);
                    } else {
                        assert(out@[i] == card);
                    }
                }
                assert forall|i: int, j: int|
                    0 <= i <= j < out@.len() implies #[trigger] out@[i].value.id_spec()
                    <= #[trigger] out@[j].value.id_spec() by {
                    if j == out@.len() - 1 && i < j {
                        assert(out@[i] == pre_out[i]);
                    }
                }
            }
        }
        proof {
            work@.to_multiset_ensures();
            out@.to_multiset_ensures();
            cards@.to_multiset_ensures();
            assert(work@.to_multiset() =~= Multiset::<PokerCard>::empty());
            assert(out@.to_multiset().add(Multiset::<PokerCard>::empty())
                =~= out@.to_multiset());
            assert(out@.len() == 5) by {
                assert(out@.to_multiset().len() == cards@.to_multiset().len());
            }
        }
        PokerHand { cards: out }
    }

    /// The highest card value in the sorted hand.
    pub fn high_card(&self) -> (r: PokerValue)
        requires
            self.wf(),
        ensures
            r == self.spec_cards()[4].value,
            forall|i: int|
                0 <= i < 5 ==> #[trigger] self.spec_cards()[i].value.id_spec() <= r.id_spec(),
    {
        self.cards[4].value
    }
}


/// A value counted at least once appears on some card.
proof fn lemma_count_exists(s: Seq<PokerCard>, vid: u8)
    requires
        count_value(s, vid) > 0,
    ensures
        exists|i: int| 0 <= i < s.len() && #[trigger] s[i].value.id_spec() == vid,
    decreases s.len(),
{
    if s.last().value.id_spec() == vid {
        assert(s[s.len() - 1].value.id_spec() == vid);
    } else {
        lemma_count_exists(s.drop_last(), vid);
        let i = choose|i: int|
            0 <= i < s.drop_last().len() && #[trigger] s.drop_last()[i].value.id_spec() == vid;
        assert(s[i].value.id_spec() == vid);
    }
}

/// Tie-break comparison of two sorted hands, from the highest card
/// down, by card identifier.
pub open spec fn tiebreak(a: Seq<PokerCard>, b: Seq<PokerCard>, i: int) -> Ordering
    decreases i + 1,
{
    if i < 0 {
        Ordering::Equal
    } else if a[i].id_spec() != b[i].id_spec() {
        if a[i].id_spec() < b[i].id_spec() {
            Ordering::Less
        } else {
            Ordering::Greater
        }
    } else {
        tiebreak(a, b, i - 1)
    }
}

impl PokerHand {
    /// Classify the hand.
    #[verifier::rlimit(100)]
    pub fn rank(&self) -> (r: PokerRank)
        requires
            self.wf(),
        ensures
            rank_ok(self.spec_cards(), r),
    {
        let ghost sq = self.spec_cards();
        let flush = self.check_flush();
        let straight = self.check_straight();
        if straight && flush {
            if self.cards[0].value.id() == 9 {
                return PokerRank::RoyalFlush;
            } else {
                return PokerRank::StraightFlush(self.cards[0].value);
            }
        }
        let counts = self.value_counts();
        let mut fi: usize = 0;
        while fi < 5
            invariant
                fi <= 5,
                self.wf(),
                sq == self.spec_cards(),
                counts@.len() == 5,
                forall|t: int|
                    0 <= t < 5 ==> #[trigger] counts@[t] == count_value(
                        sq,
                        sq[t].value.id_spec(),
                    ),
                forall|t: int| 0 <= t < fi ==> #[trigger] counts@[t] < 4,
            decreases 5 - fi,
        {
            if counts[fi] >= 4 {
                return PokerRank::FourOfAKind(self.cards[fi].value);
            }
            fi += 1;
        }
        let mut three: Option<PokerValue> = None;
        let mut pa: Option<PokerValue> = None;
        let mut pb: Option<PokerValue> = None;
        let mut i: usize = 0;
        while i < 5
            invariant
                self.wf(),
                sq == self.spec_cards(),
                counts@.len() == 5,
                forall|t: int|
                    0 <= t < 5 ==> #[trigger] counts@[t] == count_value(
                        sq,
                        sq[t].value.id_spec(),
                    ),
                forall|t: int| 0 <= t < 5 ==> #[trigger] counts@[t] < 4,
                match three {
                    Some(v) => count_value(sq, v.id_spec()) == 3,
                    None => forall|t: int| 0 <= t < i ==> #[trigger] counts@[t] != 3,
                },
                match pa {
                    Some(a) => count_value(sq, a.id_spec()) == 2,
                    None => forall|t: int| 0 <= t < i ==> #[trigger] counts@[t] != 2,
                },
                pa is None ==> pb is None,
                match pb {
                    Some(b) => count_value(sq, b.id_spec()) == 2 && pa is Some
                        && pa->0.id_spec() != b.id_spec(),
                    None => pa is Some ==> forall|t: int|
                        0 <= t < i && #[trigger] counts@[t] == 2 ==> sq[t].value.id_spec()
                            == pa->0.id_spec(),
                },
            decreases 5 - i,
        {
            let c = counts[i];
            if c == 3 {
                three = Some(self.cards[i].value);
            } else if c == 2 {
                match pa {
                    None => {
                        pa = Some(self.cards[i].value);
                    },
                    Some(a) => {
                        if a.id() != self.cards[i].value.id() {
                            pb = Some(self.cards[i].value);
                        }
                    },
                }
            }
            i += 1;
        }
        if let (Some(t), Some(p)) = (three, pa) {
            return PokerRank::FullHouse { three_of_a_kind: t, pair: p };
        }
        if flush {
            proof {
                assert forall|vid: u8| vid < 14 implies count_value(sq, vid) < 4 by {
                    if count_value(sq, vid) >= 4 {
                        lemma_count_exists(sq, vid);
                        let t = choose|t: int|
                            0 <= t < sq.len() && #[trigger] sq[t].value.id_spec() == vid;
                        assert(counts@[t] >= 4);
                    }
                }
            }
            return PokerRank::Flush;
        }
        if straight {
            return PokerRank::Straight(self.cards[0].value);
        }
        if let Some(t) = three {
            proof {
                assert forall|vid: u8|
                    vid < 14 && count_value(sq, vid) >= 2 implies count_value(sq, vid)
                    == 3 by {
                    lemma_count_exists(sq, vid);
                    let t2 = choose|t2: int|
                        0 <= t2 < sq.len() && #[trigger] sq[t2].value.id_spec() == vid;
                    assert(counts@[t2] == count_value(sq, vid));
                }
            }
            return PokerRank::ThreeOfAKind(t);
        }
        match (pa, pb) {
            (Some(a), Some(b)) => {
                proof {
                    assert forall|vid: u8| vid < 14 implies count_value(sq, vid) <= 2 by {
                        if count_value(sq, vid) > 2 {
                            lemma_count_exists(sq, vid);
                            let t2 = choose|t2: int|
                                0 <= t2 < sq.len() && #[trigger] sq[t2].value.id_spec() == vid;
                            assert(counts@[t2] == count_value(sq, vid));
                        }
                    }
                }
                if a.id() > b.id() {
                    return PokerRank::TwoPairs(a, b);
                } else {
                    return PokerRank::TwoPairs(b, a);
                }
            },
            (Some(a), None) => {
                proof {
                    assert forall|vid: u8|
                        vid < 14 && count_value(sq, vid) >= 2 implies vid == a.id_spec()
                        && count_value(sq, vid) == 2 by {
                        lemma_count_exists(sq, vid);
                        let t2 = choose|t2: int|
                            0 <= t2 < sq.len() && #[trigger] sq[t2].value.id_spec() == vid;
                        assert(counts@[t2] == count_value(sq, vid));
                    }
                }
                return PokerRank::OnePair(a);
            },
            _ => {
                proof {
                    assert forall|vid: u8| vid < 14 implies count_value(sq, vid) <= 1 by {
                        if count_value(sq, vid) > 1 {
                            lemma_count_exists(sq, vid);
                            let t2 = choose|t2: int|
                                0 <= t2 < sq.len() && #[trigger] sq[t2].value.id_spec() == vid;
                            assert(counts@[t2] == count_value(sq, vid));
                        }
                    }
                }
                return PokerRank::HighCard(self.cards[4].value);
            },
        }
    }

    /// Whether all five cards share a suit.
    fn check_flush(&self) -> (r: bool)
        requires
            self.wf(),
        ensures
            r == is_flush_seq(self.spec_cards()),
    {
        let mut i: usize = 1;
        while i < 5
            invariant
                1 <= i <= 5,
                self.wf(),
                forall|t: int| 0 <= t < i ==> #[trigger] self.spec_cards()[t].suit
                    == self.spec_cards()[0].suit,
            decreases 5 - i,
        {
            if !(self.cards[i].suit.id() == self.cards[0].suit.id()) {
                proof {
                    assert(self.spec_cards()[i as int].suit != self.spec_cards()[0].suit);
                }
                return false;
            }
            proof {
                let a = self.spec_cards()[i as int].suit;
                let b = self.spec_cards()[0].suit;
                assert(a.id_spec() == b.id_spec() ==> a == b);
            }
            i += 1;
        }
        true
    }

    /// Whether the sorted values run up consecutively.
    fn check_straight(&self) -> (r: bool)
        requires
            self.wf(),
        ensures
            r == is_straight_seq(self.spec_cards()),
    {
        let base = self.cards[0].value.id();
        let mut i: usize = 0;
        while i < 5
            invariant
                i <= 5,
                self.wf(),
                base == self.spec_cards()[0].value.id_spec(),
                forall|t: int|
                    0 <= t < i ==> #[trigger] self.spec_cards()[t].value.id_spec() == base + t,
            decreases 5 - i,
        {
            if !(self.cards[i].value.id() as usize == base as usize + i) {
                return false;
            }
            i += 1;
        }
        true
    }

    /// For each card, how many cards in the hand share its value.
    fn value_counts(&self) -> (r: Vec<u8>)
        requires
            self.wf(),
        ensures
            r@.len() == 5,
            forall|t: int|
                0 <= t < 5 ==> #[trigger] r@[t] == count_value(
                    self.spec_cards(),
                    self.spec_cards()[t].value.id_spec(),
                ),
            forall|t: int| 0 <= t < 5 ==> #[trigger] r@[t] >= 1,
    {
        let ghost sq = self.spec_cards();
        let mut r: Vec<u8> = Vec::new();
        let mut i: usize = 0;
        while i < 5
            invariant
                i <= 5,
                self.wf(),
                sq == self.spec_cards(),
                r@.len() == i,
                forall|t: int|
                    0 <= t < i ==> #[trigger] r@[t] == count_value(sq, sq[t].value.id_spec()),
                forall|t: int| 0 <= t < i ==> #[trigger] r@[t] >= 1,
            decreases 5 - i,
        {
            let vid = self.cards[i].value.id();
            let mut cnt: u8 = 0;
            let mut j: usize = 0;
            while j < 5
                invariant
                    j <= 5,
                    self.wf(),
                    sq == self.spec_cards(),
                    vid == sq[i as int].value.id_spec(),
                    i < 5,
                    cnt == count_value(sq.take(j as int), vid),
                    cnt <= j,
                decreases 5 - j,
            {
                proof {
                    assert(sq.take(j + 1).drop_last() =~= sq.take(j as int));
                    assert(sq.take(j + 1).last() == sq[j as int]);
                }
                if self.cards[j].value.id() == vid {
                    cnt = cnt + 1;
                }
                j += 1;
            }
            proof {
                assert(sq.take(5) =~= sq);
                lemma_count_take_member(sq, i as int);
            }
            r.push(cnt);
            i += 1;
        }
        r
    }

    /// Decide the winner: compare ranks, then fall back to comparing
    /// the cards from the highest down.  The result is `Greater` when
    /// this hand wins.
    pub fn determine_winner(&self, other: &PokerHand) -> (r: Ordering)
        requires
            self.wf(),
            other.wf(),
        ensures
            exists|ra: PokerRank, rb: PokerRank|
                rank_ok(self.spec_cards(), ra) && rank_ok(other.spec_cards(), rb) && r == (
                if key_cmp(rank_key(ra), rank_key(rb)) != Ordering::Equal {
                    key_cmp(rank_key(ra), rank_key(rb))
                } else {
                    tiebreak(self.spec_cards(), other.spec_cards(), 4)
                }),
    {
        let ra = self.rank();
        let rb = other.rank();
        let by_rank = compare_ranks(&ra, &rb);
        if !matches!(by_rank, Ordering::Equal) {
            proof {
                assert(rank_ok(self.spec_cards(), ra) && rank_ok(other.spec_cards(), rb)
                    && by_rank == (if key_cmp(rank_key(ra), rank_key(rb)) != Ordering::Equal {
                    key_cmp(rank_key(ra), rank_key(rb))
                } else {
                    tiebreak(self.spec_cards(), other.spec_cards(), 4)
                }));
            }
            return by_rank;
        }
        let mut i: usize = 5;
        while i > 0
            invariant
                i <= 5,
                self.wf(),
                other.wf(),
                rank_ok(self.spec_cards(), ra),
                rank_ok(other.spec_cards(), rb),
                key_cmp(rank_key(ra), rank_key(rb)) == Ordering::Equal,
                tiebreak(self.spec_cards(), other.spec_cards(), 4) == tiebreak(
                    self.spec_cards(),
                    other.spec_cards(),
                    i as int - 1,
                ),
            decreases i,
        {
            i -= 1;
            let ca = self.cards[i].id();
            let cb = other.cards[i].id();
            if ca < cb {
                proof {
                    assert(tiebreak(self.spec_cards(), other.spec_cards(), i as int)
                        == Ordering::Less);
                    assert(rank_ok(self.spec_cards(), ra) && rank_ok(other.spec_cards(), rb)
                        && Ordering::Less == (if key_cmp(rank_key(ra), rank_key(rb))
                        != Ordering::Equal {
                        key_cmp(rank_key(ra), rank_key(rb))
                    } else {
                        tiebreak(self.spec_cards(), other.spec_cards(), 4)
                    }));
                }
                return Ordering::Less;
            }
            if ca > cb {
                proof {
                    assert(tiebreak(self.spec_cards(), other.spec_cards(), i as int)
                        == Ordering::Greater);
                    assert(rank_ok(self.spec_cards(), ra) && rank_ok(other.spec_cards(), rb)
                        && Ordering::Greater == (if key_cmp(rank_key(ra), rank_key(rb))
                        != Ordering::Equal {
                        key_cmp(rank_key(ra), rank_key(rb))
                    } else {
                        tiebreak(self.spec_cards(), other.spec_cards(), 4)
                    }));
                }
                return Ordering::Greater;
            }
        }
        proof {
            assert(tiebreak(self.spec_cards(), other.spec_cards(), -1) == Ordering::Equal);
            assert(rank_ok(self.spec_cards(), ra) && rank_ok(other.spec_cards(), rb)
                && Ordering::Equal == (if key_cmp(rank_key(ra), rank_key(rb))
                != Ordering::Equal {
                key_cmp(rank_key(ra), rank_key(rb))
            } else {
                tiebreak(self.spec_cards(), other.spec_cards(), 4)
            }));
        }
        Ordering::Equal
    }
}

/// Counting a member's value over the whole hand and over a full take
/// agree.
proof fn lemma_count_take_member(s: Seq<PokerCard>, i: int)
    requires
        0 <= i < s.len(),
    ensures
        count_value(s, s[i].value.id_spec()) >= 1,
    decreases s.len(),
{
    if i == s.len() - 1 {
    } else {
        lemma_count_take_member(s.drop_last(), i);
        assert(s.drop_last()[i] == s[i]);
    }
}

/// How many of the dealt games the first player wins.  The text holds
/// one game per line: ten two-character cards separated by spaces, the
/// first five for player one.
pub fn solve(text: &str) -> (r: Result<u32, PokerError>)
    ensures
        r matches Ok(n) ==> n as int <= text.spec_bytes().len() + 1,
{
    let bytes = text.as_bytes();
    let n = bytes.len();
    if n > 0x40000000 {
        return Err(PokerError::InvalidLine);
    }
    let mut wins: u32 = 0;
    let mut line_cards: Vec<PokerCard> = Vec::new();
    let mut lines: u32 = 0;
    let mut i: usize = 0;
    while i <= n
        invariant
            i <= n + 1,
            n == bytes@.len(),
            n <= 0x40000000,
            bytes@ == text.spec_bytes(),
            wins <= lines,
            lines as int <= i,
            line_cards@.len() <= 10,
        decreases n + 1 - i,
    {
        let at_end = i == n;
        let b: u8 = if at_end {
            10
        } else {
            *vstd::slice::slice_index_get(bytes, i)
        };
        if b == 10 || b == 13 {
            if line_cards.len() == 10 {
                let first = PokerHand::new(vstd::slice::slice_subrange(
                    line_cards.as_slice(),
                    0,
                    5,
                ));
                let second = PokerHand::new(vstd::slice::slice_subrange(
                    line_cards.as_slice(),
                    5,
                    10,
                ));
                if matches!(first.determine_winner(&second), Ordering::Greater) {
                    wins = wins + 1;
                }
                lines = lines + 1;
            } else if line_cards.len() != 0 {
                return Err(PokerError::InvalidLine);
            }
            line_cards = Vec::new();
            i = i + 1;
        } else if b == 32 {
            i = i + 1;
        } else {
            if i + 1 >= n {
                return Err(PokerError::InvalidCard);
            }
            let c1 = *vstd::slice::slice_index_get(bytes, i);
            let c2 = *vstd::slice::slice_index_get(bytes, i + 1);
            let value = match PokerValue::parse(c1 as char) {
                Some(v) => v,
                None => {
                    return Err(PokerError::InvalidCard);
                },
            };
            let suit = match PokerSuit::parse(c2 as char) {
                Some(s) => s,
                None => {
                    return Err(PokerError::InvalidCard);
                },
            };
            if line_cards.len() >= 10 {
                return Err(PokerError::InvalidLine);
            }
            line_cards.push(PokerCard { suit, value });
            i = i + 2;
        }
    }
    Ok(wins)
}

} // verus!

//! Card identifiers, parsing, hand ranking, and game counting.
use core::cmp::Ordering;
use euler::poker::solve;
use euler::poker::PokerCard;
use euler::poker::PokerHand;
use euler::poker::PokerRank;
use euler::poker::PokerSet;
use euler::poker::PokerSuit;
use euler::poker::PokerValue;

fn hand(tokens: &[&str]) -> PokerHand {
    let cards: Vec<PokerCard> = tokens.iter().map(|t| PokerCard::parse(t).unwrap()).collect();
    PokerHand::new(&cards)
}

#[test]
fn suit_id_round_trip() {
    // Every suit identifier maps back to a distinct suit.
    for id in 0..4u8 {
        let suit = PokerSuit::from_id(id).unwrap();
        assert_eq!(suit.id(), id);
    }
    assert_eq!(PokerSuit::from_id(3), Some(PokerSuit::Spades));
    assert!(PokerSuit::from_id(4).is_none());
    for c in ['D', 'H', 'C', 'S'] {
        let suit = PokerSuit::parse(c).unwrap();
        assert_eq!(suit.print(), c);
    }
}

#[test]
fn value_id_round_trip() {
    for id in 0..14u8 {
        let value = PokerValue::from_id(id).unwrap();
        assert_eq!(value.id(), id);
        assert_eq!(value.value(), id + 1);
        assert_eq!(PokerValue::from_value(id + 1), Some(value));
        assert_eq!(PokerValue::parse(value.print()), Some(value));
    }
    assert!(PokerValue::from_id(14).is_none());
    assert!(PokerValue::from_value(0).is_none());
    assert_eq!(PokerValue::from_id(11), Some(PokerValue::Queen));
    assert_eq!(PokerValue::from_id(12), Some(PokerValue::King));
}

#[test]
fn card_id_round_trip() {
    for suit_id in 0..4u8 {
        for value_id in 0..14u8 {
            let id = suit_id * 16 + value_id;
            let card = PokerCard::from_id(id).unwrap();
            assert_eq!(card.id(), id);
        }
    }
    assert!(PokerCard::from_id(14).is_none());
    assert!(PokerCard::from_id(64).is_none());
}

#[test]
fn card_parse() {
    let card = PokerCard::parse("AS").unwrap();
    assert_eq!(card.value, PokerValue::Ace);
    assert_eq!(card.suit, PokerSuit::Spades);
    assert!(PokerCard::parse("A").is_err());
    assert!(PokerCard::parse("AX").is_err());
    assert!(PokerCard::parse("0S").is_err());
}

#[test]
fn poker_set_operations() {
    let mut set = PokerSet::new();
    assert_eq!(set.len(), 0);
    set.insert(PokerCard::parse("AS").unwrap());
    set.insert(PokerCard::parse("2D").unwrap());
    set.insert(PokerCard::parse("2D").unwrap());
    assert_eq!(set.len(), 2);
    let mut sub = PokerSet::new();
    sub.insert(PokerCard::parse("2D").unwrap());
    assert!(set.contains_all(sub));
    assert!(!sub.contains_all(set));
    assert_eq!(PokerSuit::Spades.cards().len(), 13);
    assert_eq!(PokerValue::Ace.kinds().len(), 4);
}

#[test]
fn hand_ranks() {
    assert_eq!(
        hand(&["TS", "JS", "QS", "KS", "AS"]).rank(),
        PokerRank::RoyalFlush
    );
    assert_eq!(
        hand(&["4H", "5H", "6H", "7H", "8H"]).rank(),
        PokerRank::StraightFlush(PokerValue::Four)
    );
    assert_eq!(
        hand(&["9C", "9D", "9H", "9S", "2C"]).rank(),
        PokerRank::FourOfAKind(PokerValue::Nine)
    );
    assert!(matches!(
        hand(&["3C", "3D", "3H", "6C", "6D"]).rank(),
        PokerRank::FullHouse { .. }
    ));
    assert_eq!(hand(&["2H", "5H", "7H", "9H", "KH"]).rank(), PokerRank::Flush);
    assert_eq!(
        hand(&["4C", "5D", "6H", "7S", "8C"]).rank(),
        PokerRank::Straight(PokerValue::Four)
    );
    assert_eq!(
        hand(&["QC", "QD", "QH", "2S", "7C"]).rank(),
        PokerRank::ThreeOfAKind(PokerValue::Queen)
    );
    assert_eq!(
        hand(&["2C", "2D", "9H", "9S", "7C"]).rank(),
        PokerRank::TwoPairs(PokerValue::Nine, PokerValue::Two)
    );
    assert_eq!(
        hand(&["8C", "8D", "2H", "5S", "7C"]).rank(),
        PokerRank::OnePair(PokerValue::Eight)
    );
    assert_eq!(
        hand(&["2C", "4D", "6H", "9S", "KC"]).rank(),
        PokerRank::HighCard(PokerValue::King)
    );
}

#[test]
fn winner_and_solve() {
    let pair_eights = hand(&["8C", "8D", "2H", "5S", "7C"]);
    let pair_fives = hand(&["5C", "5D", "3H", "9S", "QC"]);
    assert_eq!(pair_eights.determine_winner(&pair_fives), Ordering::Greater);
    assert_eq!(pair_fives.determine_winner(&pair_eights), Ordering::Less);
    assert_eq!(pair_eights.high_card(), PokerValue::Eight);
    // Two example games: player one loses the first, wins the second.
    let text = "5H 5C 6S 7S KD 2C 3S 8S 8D TD\n5D 8C 9S JS AC 2C 5C 7D 8S QH\n";
    assert_eq!(solve(text), Ok(1));
    // A line with the wrong number of cards is rejected.
    assert!(solve("5H 5C 6S\n").is_err());
    assert!(solve("ZZ").is_err());
}

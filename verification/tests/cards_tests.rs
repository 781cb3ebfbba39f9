use pokerscore::cards::{card_from_str, get_score, hand_from_str, get_stats, Card, Suit, Value};

#[test]
fn test_1() {
    // Pair 5s, 7 high
    let h1 = hand_from_str("6D 7C 5D 5H 3S");

    // Pair 5s, jack high
    let h2 = hand_from_str("5C JC 2H 5S 3D");

    let s1 = get_score(&h1);
    let s2 = get_score(&h2);
    assert!(s2 > s1);
}

#[test]
fn test_card_tokens() {
    assert_eq!(card_from_str("3S"), Card(Suit::Spade, Value::Three));
    assert_eq!(card_from_str("TH"), Card(Suit::Heart, Value::Ten));
    assert_eq!(card_from_str("AD"), Card(Suit::Diamond, Value::Ace));
    // '2' and 'C' are the silent defaults, as is anything unrecognized.
    assert_eq!(card_from_str("2C"), Card(Suit::Club, Value::Two));
    assert_eq!(card_from_str("XZ"), Card(Suit::Club, Value::Two));
    assert_eq!(card_from_str(""), Card(Suit::Club, Value::Two));
}

#[test]
fn test_one_pair_exact() {
    // Pair of Fives (ordinal 3), kicker ordinals 5, 4, 1 descending:
    // the Seven kicker contributes its ordinal 5.
    let h = hand_from_str("6D 7C 5D 5H 3S");
    assert_eq!(get_score(&h), 2000 + (3 + 2) * 14 + 5);
}

#[test]
fn test_two_pair_exact() {
    // Fives and Nines with a King kicker (ordinal 11).
    let h = hand_from_str("5C 5D 9H 9S KC");
    assert_eq!(get_score(&h), 3000 + (3 + 2) * 14 + (7 + 2) * 14 + 11);
}

#[test]
fn test_trips_exact() {
    // Kicker ordinals: Seven is 5, Two is 0.
    let h = hand_from_str("QC QD QH 2S 7C");
    assert_eq!(get_score(&h), 4000 + (10 + 2) * 7 + 5 + 0);
}

#[test]
fn test_straight_exact() {
    let h = hand_from_str("3C 4D 5H 6S 7C");
    assert_eq!(get_score(&h), 5000 + 5 + 2);
}

#[test]
fn test_straight_flush_beats_flush() {
    // Steel wheel-less straight flush: Two through Six of Spades.
    let sf = get_score(&hand_from_str("2S 3S 4S 5S 6S"));
    assert_eq!(sf, 9000 + 0 + 6);
    // A plain ace-high flush with a gap at Ten.
    let fl = get_score(&hand_from_str("AS KS QS JS 9S"));
    assert_eq!(fl, 6000 + 12 + 2);
    assert!(sf > fl);
}

#[test]
fn test_royal_flush_max() {
    let royal = get_score(&hand_from_str("TH JH QH KH AH"));
    assert_eq!(royal, 10000);
}

#[test]
fn test_four_beats_full_house() {
    let four = get_score(&hand_from_str("4C 4D 4H 4S 9C"));
    assert_eq!(four, 8000 + 2 + 2);
    let full = get_score(&hand_from_str("3C 3D 3H 9C 9D"));
    assert_eq!(full, 7000 + (1 + 2) * 7 + 7 + 2);
    assert!(four > full);
}

#[test]
fn test_high_card() {
    let h = hand_from_str("2C 5D 9H JS 3C");
    assert_eq!(get_score(&h), 9);
}

#[test]
fn test_wheel_not_recognized() {
    // The window scan never looks at an Ace-low wheel: this hand falls
    // through to high card, Ace.
    let h = hand_from_str("AC 2D 3H 4S 5C");
    assert_eq!(get_score(&h), 12);
}

#[test]
fn test_broadway_not_recognized() {
    // The scan covers low ends Two through Nine only, so an unsuited
    // Ten-to-Ace straight also falls through to high card.
    let h = hand_from_str("TC JD QH KS AC");
    assert_eq!(get_score(&h), 12);
}

#[test]
fn test_hand_sorted_by_suit_then_value() {
    let h = hand_from_str("6D 7C 5D 5H 3S");
    assert_eq!(h.cards[0], Card(Suit::Club, Value::Seven));
    assert_eq!(h.cards[1], Card(Suit::Diamond, Value::Five));
    assert_eq!(h.cards[2], Card(Suit::Diamond, Value::Six));
    assert_eq!(h.cards[3], Card(Suit::Heart, Value::Five));
    assert_eq!(h.cards[4], Card(Suit::Spade, Value::Three));
}

#[test]
fn test_extra_tokens_ignored() {
    // With more than five tokens the five least cards in the canonical
    // order are kept: here the Two through Six of Clubs.
    let h = hand_from_str("7C 6C 5C 4C 3C 2C");
    assert_eq!(get_score(&h), 9000 + 0 + 6);
}

#[test]
fn test_duplicate_cards_degenerate() {
    // Duplicates are tolerated and classify degenerately: five equal
    // cards make a flush of their suit, nothing stronger.
    let h = hand_from_str("5C 5C 5C 5C 5C");
    assert_eq!(get_score(&h), 6000 + 3 + 2);
}

#[test]
fn test_stats_frequencies() {
    let h = hand_from_str("6D 7C 5D 5H 3S");
    let st = get_stats(&h);
    assert_eq!(st.suit_freq, [1, 2, 1, 1]);
    assert_eq!(st.value_freq[3], 2); // two Fives
    assert_eq!(st.highest_value, 5); // Seven
    assert_eq!(st.kickers, [5, 4, 1, 0, 0]);
    assert_eq!(st.suit_contains_frequency(2), Some(1));
    assert_eq!(st.suit_contains_frequency(5), None);
    assert_eq!(st.value_contains_frequency(2), Some(3));
}

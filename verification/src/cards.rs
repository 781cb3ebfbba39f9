//! Five-card poker hands: card model, parser and scorer.
//!
//! A hand is parsed from text such as `"6D 7C 5D 5H 3S"`, statistics over
//! suits and ranks are computed, and a single integer score totally orders
//! hands by poker strength, high card through royal flush.

use vstd::prelude::*;
use vstd::string::StrSliceExecFns;

verus! {

/// A card's face value, Two (lowest) through Ace (highest).
#[derive(Clone, Copy, PartialEq, Eq, Structural, Debug)]
pub enum Value {
    Two,
    Three,
    Four,
    Five,
    Six,
    Seven,
    Eight,
    Nine,
    Ten,
    Jack,
    Queen,
    King,
    Ace,
}

/// One of the four card groups; no inherent strength ordering.
#[derive(Clone, Copy, PartialEq, Eq, Structural, Debug)]
pub enum Suit {
    Club,
    Diamond,
    Heart,
    Spade,
}

/// A card is a (suit, value) pair, ordered lexicographically by
/// (suit, value) only to lay a hand out canonically.
#[derive(Clone, Copy, PartialEq, Eq, Structural, Debug)]
pub struct Card(pub Suit, pub Value);

/// Exactly five cards; built once, scored, discarded.
#[derive(Clone, Copy, Debug)]
pub struct Hand {
    pub cards: [Card; 5],
}

/// Ordinal position of a value, 0 (Two) through 12 (Ace).
pub open spec fn value_ord(v: Value) -> int {
    match v {
        Value::Two => 0,
        Value::Three => 1,
        Value::Four => 2,
        Value::Five => 3,
        Value::Six => 4,
        Value::Seven => 5,
        Value::Eight => 6,
        Value::Nine => 7,
        Value::Ten => 8,
        Value::Jack => 9,
        Value::Queen => 10,
        Value::King => 11,
        Value::Ace => 12,
    }
}

/// Ordinal position of a suit, 0 (Club) through 3 (Spade).
pub open spec fn suit_ord(s: Suit) -> int {
    match s {
        Suit::Club => 0,
        Suit::Diamond => 1,
        Suit::Heart => 2,
        Suit::Spade => 3,
    }
}

pub fn value_index(v: Value) -> (i: usize)
    ensures
        i == value_ord(v),
{
    match v {
        Value::Two => 0,
        Value::Three => 1,
        Value::Four => 2,
        Value::Five => 3,
        Value::Six => 4,
        Value::Seven => 5,
        Value::Eight => 6,
        Value::Nine => 7,
        Value::Ten => 8,
        Value::Jack => 9,
        Value::Queen => 10,
        Value::King => 11,
        Value::Ace => 12,
    }
}

pub fn suit_index(s: Suit) -> (i: usize)
    ensures
        i == suit_ord(s),
{
    match s {
        Suit::Club => 0,
        Suit::Diamond => 1,
        Suit::Heart => 2,
        Suit::Spade => 3,
    }
}

/// How many cards of the hand lie in the suit with ordinal `k`.
pub open spec fn count_suit(h: Seq<Card>, k: int) -> nat
    decreases h.len(),
{
    if h.len() == 0 {
        0
    } else {
        count_suit(h.drop_last(), k) + (if suit_ord(h.last().0) == k {
            1nat
        } else {
            0nat
        })
    }
}

/// How many cards of the hand carry the value with ordinal `k`.
pub open spec fn count_val(h: Seq<Card>, k: int) -> nat
    decreases h.len(),
{
    if h.len() == 0 {
        0
    } else {
        count_val(h.drop_last(), k) + (if value_ord(h.last().1) == k {
            1nat
        } else {
            0nat
        })
    }
}

/// Ordinal of the highest value present, or 0 for an empty sequence.
pub open spec fn hand_max(h: Seq<Card>) -> int
    decreases h.len(),
{
    if h.len() == 0 {
        0
    } else {
        let m = hand_max(h.drop_last());
        if value_ord(h.last().1) > m {
            value_ord(h.last().1)
        } else {
            m
        }
    }
}

/// The value a leading token character stands for; anything
/// unrecognized, '2' included, stands for Two.
pub open spec fn value_of_char(c: char) -> Value {
    if c == '3' {
        Value::Three
    } else if c == '4' {
        Value::Four
    } else if c == '5' {
        Value::Five
    } else if c == '6' {
        Value::Six
    } else if c == '7' {
        Value::Seven
    } else if c == '8' {
        Value::Eight
    } else if c == '9' {
        Value::Nine
    } else if c == 'T' {
        Value::Ten
    } else if c == 'J' {
        Value::Jack
    } else if c == 'Q' {
        Value::Queen
    } else if c == 'K' {
        Value::King
    } else if c == 'A' {
        Value::Ace
    } else {
        Value::Two
    }
}

/// The suit a trailing token character stands for; anything
/// unrecognized, 'C' included, stands for Club.
pub open spec fn suit_of_char(c: char) -> Suit {
    if c == 'S' {
        Suit::Spade
    } else if c == 'H' {
        Suit::Heart
    } else if c == 'D' {
        Suit::Diamond
    } else {
        Suit::Club
    }
}

/// The card a token denotes: first character gives the value, last
/// character the suit; the empty token denotes the Two of Clubs.
pub open spec fn parse_card_spec(t: Seq<char>) -> Card {
    if t.len() == 0 {
        Card(Suit::Club, Value::Two)
    } else {
        Card(suit_of_char(t.last()), value_of_char(t[0]))
    }
}

fn value_from_char(c: char) -> (v: Value)
    ensures
        v == value_of_char(c),
{
    if c == '3' {
        Value::Three
    } else if c == '4' {
        Value::Four
    } else if c == '5' {
        Value::Five
    } else if c == '6' {
        Value::Six
    } else if c == '7' {
        Value::Seven
    } else if c == '8' {
        Value::Eight
    } else if c == '9' {
        Value::Nine
    } else if c == 'T' {
        Value::Ten
    } else if c == 'J' {
        Value::Jack
    } else if c == 'Q' {
        Value::Queen
    } else if c == 'K' {
        Value::King
    } else if c == 'A' {
        Value::Ace
    } else {
        Value::Two
    }
}

fn suit_from_char(c: char) -> (s: Suit)
    ensures
        s == suit_of_char(c),
{
    if c == 'S' {
        Suit::Spade
    } else if c == 'H' {
        Suit::Heart
    } else if c == 'D' {
        Suit::Diamond
    } else {
        Suit::Club
    }
}

/// Converts a short token `<value><suit>`, e.g. `3S` for the Three of
/// Spades. Total: unrecognized characters fall back to Two / Club.
pub fn card_from_str(s: &str) -> (c: Card)
    ensures
        c == parse_card_spec(s@),
{
    let n = s.unicode_len();
    if n == 0 {
        Card(Suit::Club, Value::Two)
    } else {
        let first = s.get_char(0);
        let last = s.get_char(n - 1);
        Card(suit_from_char(last), value_from_char(first))
    }
}

/// Frequency statistics derived from a hand, computed fresh per scoring
/// call: suit and value occurrence counts, the highest value ordinal, and
/// the tie-breaking kickers (the value ordinal of each singleton,
/// descending, zero-padded to five slots).
#[derive(Debug)]
pub struct Stats {
    pub hand: Hand,
    pub suit_freq: [usize; 4],
    pub value_freq: [usize; 13],
    pub highest_value: usize,
    pub kickers: [usize; 5],
}

/// Descending sequence of the value ordinals below `r` whose frequency
/// in the hand is exactly 1.
pub open spec fn kicker_seq_below(h: Seq<Card>, r: int) -> Seq<int>
    decreases r,
{
    if r <= 0 {
        Seq::empty()
    } else {
        (if count_val(h, r - 1) == 1 {
            seq![r - 1]
        } else {
            Seq::empty()
        }) + kicker_seq_below(h, r - 1)
    }
}

/// All kickers of the hand: the singleton value ordinals, descending.
pub open spec fn kicker_seq(h: Seq<Card>) -> Seq<int> {
    kicker_seq_below(h, 13)
}

/// The `j`-th kicker slot as the scorer reads it: a kicker if one is
/// there, otherwise the zero padding.
pub open spec fn kicker_at(h: Seq<Card>, j: int) -> int {
    if 0 <= j < kicker_seq(h).len() {
        kicker_seq(h)[j]
    } else {
        0
    }
}

/// Sum of the value frequencies over the ordinals below `r`.
pub open spec fn sum_counts(h: Seq<Card>, r: int) -> int
    decreases r,
{
    if r <= 0 {
        0
    } else {
        sum_counts(h, r - 1) + count_val(h, r - 1)
    }
}

pub proof fn lemma_sum_counts_drop(h: Seq<Card>, r: int)
    requires
        h.len() > 0,
    ensures
        sum_counts(h, r) == sum_counts(h.drop_last(), r) + (if 0 <= value_ord(h.last().1) < r {
            1int
        } else {
            0int
        }),
    decreases r,
{
    if r > 0 {
        lemma_sum_counts_drop(h, r - 1);
    }
}

/// The value frequencies of a hand sum to its size: each card counts once.
pub proof fn lemma_sum_counts_total(h: Seq<Card>)
    ensures
        sum_counts(h, 13) == h.len(),
    decreases h.len(),
{
    if h.len() > 0 {
        lemma_sum_counts_total(h.drop_last());
        lemma_sum_counts_drop(h, 13);
        assert(0 <= value_ord(h.last().1) < 13);
    } else {
        lemma_sum_counts_empty(h, 13);
    }
}

pub proof fn lemma_sum_counts_empty(h: Seq<Card>, r: int)
    requires
        h.len() == 0,
    ensures
        sum_counts(h, r) == 0,
    decreases r,
{
    if r > 0 {
        lemma_sum_counts_empty(h, r - 1);
    }
}

pub proof fn lemma_kicker_len_le_sum(h: Seq<Card>, r: int)
    ensures
        kicker_seq_below(h, r).len() <= sum_counts(h, r),
        sum_counts(h, r) >= 0,
    decreases r,
{
    if r > 0 {
        lemma_kicker_len_le_sum(h, r - 1);
        lemma_count_val_ge_zero(h, r - 1);
    }
}

pub proof fn lemma_count_val_ge_zero(h: Seq<Card>, k: int)
    ensures
        count_val(h, k) >= 0,
{
}

/// Every kicker entry is a value ordinal, 0 (a singleton Two) through
/// `r - 1`, and the entries descend strictly.
pub proof fn lemma_kicker_entries_bounded(h: Seq<Card>, r: int)
    requires
        r <= 13,
    ensures
        forall|j: int|
            0 <= j < kicker_seq_below(h, r).len() ==> 0 <= #[trigger] kicker_seq_below(h, r)[j]
                <= r - 1,
        forall|j: int, k: int|
            0 <= j < k < kicker_seq_below(h, r).len() ==> #[trigger] kicker_seq_below(h, r)[j]
                > #[trigger] kicker_seq_below(h, r)[k],
    decreases r,
{
    if r > 0 {
        lemma_kicker_entries_bounded(h, r - 1);
        let head: Seq<int> = if count_val(h, r - 1) == 1 {
            seq![r - 1]
        } else {
            Seq::empty()
        };
        assert forall|j: int| 0 <= j < kicker_seq_below(h, r).len() implies 0
            <= #[trigger] kicker_seq_below(h, r)[j] <= r - 1 by {
            if j < head.len() {
                assert(kicker_seq_below(h, r)[j] == r - 1);
            } else {
                assert(kicker_seq_below(h, r)[j] == kicker_seq_below(h, r - 1)[j - head.len()]);
            }
        }
        assert forall|j: int, k: int|
            0 <= j < k < kicker_seq_below(h, r).len() implies #[trigger] kicker_seq_below(h, r)[j]
            > #[trigger] kicker_seq_below(h, r)[k] by {
            if j < head.len() {
                assert(kicker_seq_below(h, r)[j] == r - 1);
                assert(kicker_seq_below(h, r)[k] == kicker_seq_below(h, r - 1)[k - head.len()]);
            } else {
                assert(kicker_seq_below(h, r)[j] == kicker_seq_below(h, r - 1)[j - head.len()]);
                assert(kicker_seq_below(h, r)[k] == kicker_seq_below(h, r - 1)[k - head.len()]);
            }
        }
    }
}

/// The kicker slots of a five-card hand never overflow: at most five
/// value ordinals can be singletons.
pub proof fn lemma_kicker_len(h: Seq<Card>)
    ensures
        kicker_seq(h).len() <= h.len(),
{
    lemma_sum_counts_total(h);
    lemma_kicker_len_le_sum(h, 13);
}

/// The statistics fields agree with the hand they were computed from.
pub open spec fn stats_wf(st: Stats) -> bool {
    let h = st.hand.cards@;
    &&& forall|k: int| 0 <= k < 4 ==> st.suit_freq@[k] == count_suit(h, k)
    &&& forall|k: int| 0 <= k < 13 ==> st.value_freq@[k] == count_val(h, k)
    &&& st.highest_value == hand_max(h)
    &&& kicker_seq(h).len() <= 5
    &&& forall|j: int| 0 <= j < kicker_seq(h).len() ==> st.kickers@[j] == kicker_seq(h)[j]
    &&& forall|j: int| kicker_seq(h).len() <= j < 5 ==> st.kickers@[j] == 0
}

impl Stats {
    /// Index of the first suit occurring exactly `f` times, if any.
    pub fn suit_contains_frequency(&self, f: usize) -> (r: Option<usize>)
        ensures
            match r {
                Some(i) => 0 <= i < 4 && self.suit_freq@[i as int] == f && (forall|j: int|
                    0 <= j < i ==> self.suit_freq@[j] != f),
                None => forall|j: int| 0 <= j < 4 ==> self.suit_freq@[j] != f,
            },
    {
        let mut i: usize = 0;
        while i < 4
            invariant
                i <= 4,
                forall|j: int| 0 <= j < i ==> self.suit_freq@[j] != f,
            decreases 4 - i,
        {
            if self.suit_freq[i] == f {
                return Some(i);
            }
            i = i + 1;
        }
        None
    }

    /// Index of the first value occurring exactly `f` times, if any.
    pub fn value_contains_frequency(&self, f: usize) -> (r: Option<usize>)
        ensures
            match r {
                Some(i) => 0 <= i < 13 && self.value_freq@[i as int] == f && (forall|j: int|
                    0 <= j < i ==> self.value_freq@[j] != f),
                None => forall|j: int| 0 <= j < 13 ==> self.value_freq@[j] != f,
            },
    {
        let mut i: usize = 0;
        while i < 13
            invariant
                i <= 13,
                forall|j: int| 0 <= j < i ==> self.value_freq@[j] != f,
            decreases 13 - i,
        {
            if self.value_freq[i] == f {
                return Some(i);
            }
            i = i + 1;
        }
        None
    }
}

/// One pass over the five cards: suit and value frequencies, the highest
/// value ordinal, and the descending kicker slots.
pub fn get_stats(hand: &Hand) -> (st: Stats)
    ensures
        st.hand == *hand,
        stats_wf(st),
{
    let mut suits: [usize; 4] = [0, 0, 0, 0];
    let mut values: [usize; 13] = [0, 0, 0, 0, 0, 0, 0, 0, 0, 0, 0, 0, 0];
    let mut high_val: usize = 0;
    let h = Ghost(hand.cards@);

    let mut ci: usize = 0;
    while ci < 5
        invariant
            ci <= 5,
            h@ == hand.cards@,
            h@.len() == 5,
            forall|k: int| 0 <= k < 4 ==> suits@[k] == count_suit(h@.take(ci as int), k),
            forall|k: int| 0 <= k < 13 ==> values@[k] == count_val(h@.take(ci as int), k),
            forall|k: int| 0 <= k < 4 ==> suits@[k] <= ci,
            forall|k: int| 0 <= k < 13 ==> values@[k] <= ci,
            high_val == hand_max(h@.take(ci as int)),
        decreases 5 - ci,
    {
        let c = hand.cards[ci];
        let s_idx = suit_index(c.0);
        let v_idx = value_index(c.1);
        proof {
            assert(h@.take(ci + 1).drop_last() =~= h@.take(ci as int));
            assert(h@.take(ci + 1).last() == h@[ci as int]);
        }
        if v_idx > high_val {
            high_val = v_idx;
        }
        suits[s_idx] = suits[s_idx] + 1;
        values[v_idx] = values[v_idx] + 1;
        ci = ci + 1;
    }
    proof {
        assert(h@.take(5) =~= h@);
    }

    let mut kickers: [usize; 5] = [0, 0, 0, 0, 0];
    let mut kick_index: usize = 0;
    let mut r: usize = 13;
    proof {
        lemma_kicker_len(h@);
    }
    while r > 0
        invariant
            r <= 13,
            h@ == hand.cards@,
            h@.len() == 5,
            kicker_seq(h@).len() <= 5,
            kick_index + kicker_seq_below(h@, r as int).len() == kicker_seq(h@).len(),
            kicker_seq_below(h@, r as int) == kicker_seq(h@).skip(kick_index as int),
            forall|k: int| 0 <= k < 13 ==> values@[k] == count_val(h@, k),
            forall|j: int| 0 <= j < kick_index ==> kickers@[j] == kicker_seq(h@)[j],
            forall|j: int| kick_index <= j < 5 ==> kickers@[j] == 0,
        decreases r,
    {
        r = r - 1;
        proof {
            assert(kicker_seq_below(h@, r + 1) == (if count_val(h@, r as int) == 1 {
                seq![r as int]
            } else {
                Seq::<int>::empty()
            }) + kicker_seq_below(h@, r as int));
        }
        if values[r] == 1 {
            proof {
                let ks = kicker_seq(h@);
                assert(ks.skip(kick_index as int) == seq![r as int] + kicker_seq_below(
                    h@,
                    r as int,
                ));
                assert(ks[kick_index as int] == ks.skip(kick_index as int)[0]);
                assert(ks.skip(kick_index + 1) =~= ks.skip(kick_index as int).skip(1));
                assert((seq![r as int] + kicker_seq_below(h@, r as int)).skip(1)
                    =~= kicker_seq_below(h@, r as int));
            }
            kickers[kick_index] = r;
            kick_index = kick_index + 1;
        } else {
            proof {
                assert(Seq::<int>::empty() + kicker_seq_below(h@, r as int) =~= kicker_seq_below(
                    h@,
                    r as int,
                ));
            }
        }
    }

    Stats {
        hand: *hand,
        suit_freq: suits,
        value_freq: values,
        highest_value: high_val,
        kickers: kickers,
    }
}

/// The ten hand categories, weakest first; a hand of a stronger category
/// always outscores one of a weaker category.
#[derive(Clone, Copy, PartialEq, Eq, Structural, Debug)]
pub enum Category {
    HighCard,
    OnePair,
    TwoPair,
    ThreeOfAKind,
    Straight,
    Flush,
    FullHouse,
    FourOfAKind,
    StraightFlush,
    RoyalFlush,
}

/// Position of a category in the strength order, 0 (high card) to 9
/// (royal flush).
pub open spec fn category_rank(c: Category) -> int {
    match c {
        Category::HighCard => 0,
        Category::OnePair => 1,
        Category::TwoPair => 2,
        Category::ThreeOfAKind => 3,
        Category::Straight => 4,
        Category::Flush => 5,
        Category::FullHouse => 6,
        Category::FourOfAKind => 7,
        Category::StraightFlush => 8,
        Category::RoyalFlush => 9,
    }
}

/// Least suit ordinal in `[lo, 4)` whose frequency is exactly `f`; 4 if none.
pub open spec fn first_suit_with(h: Seq<Card>, f: nat, lo: int) -> int
    decreases 4 - lo,
{
    if lo < 0 || lo >= 4 {
        4
    } else if count_suit(h, lo) == f {
        lo
    } else {
        first_suit_with(h, f, lo + 1)
    }
}

/// Least value ordinal in `[lo, 13)` whose frequency is exactly `f`; 13 if none.
pub open spec fn first_val_with(h: Seq<Card>, f: nat, lo: int) -> int
    decreases 13 - lo,
{
    if lo < 0 || lo >= 13 {
        13
    } else if count_val(h, lo) == f {
        lo
    } else {
        first_val_with(h, f, lo + 1)
    }
}

/// Five consecutive value ordinals starting at `i`, each a singleton.
pub open spec fn window_at(h: Seq<Card>, i: int) -> bool {
    &&& count_val(h, i) == 1
    &&& count_val(h, i + 1) == 1
    &&& count_val(h, i + 2) == 1
    &&& count_val(h, i + 3) == 1
    &&& count_val(h, i + 4) == 1
}

/// Least low end in `[lo, 8)` of a singleton window; 8 if none. Only low
/// ends Two through Nine are ever scanned, so an Ace-low wheel and a
/// Ten-high Broadway straight are never recognized.
pub open spec fn first_window(h: Seq<Card>, lo: int) -> int
    decreases 8 - lo,
{
    if lo < 0 || lo >= 8 {
        8
    } else if window_at(h, lo) {
        lo
    } else {
        first_window(h, lo + 1)
    }
}

/// Least value ordinal in `[lo, 8)` with nonzero frequency; 8 if none.
pub open spec fn first_nonzero(h: Seq<Card>, lo: int) -> int
    decreases 8 - lo,
{
    if lo < 0 || lo >= 8 {
        8
    } else if count_val(h, lo) != 0 {
        lo
    } else {
        first_nonzero(h, lo + 1)
    }
}

/// Some suit holds all five cards.
pub open spec fn spec_flush(h: Seq<Card>) -> bool {
    first_suit_with(h, 5, 0) < 4
}

/// Ten, Jack, Queen, King and Ace each present exactly once.
pub open spec fn royal_vals(h: Seq<Card>) -> bool {
    &&& count_val(h, 8) == 1
    &&& count_val(h, 9) == 1
    &&& count_val(h, 10) == 1
    &&& count_val(h, 11) == 1
    &&& count_val(h, 12) == 1
}

/// The straight scan: skip zero-frequency ordinals, then test the window
/// at the first nonzero ordinal only — the scan stops there either way.
pub open spec fn straight_found(h: Seq<Card>) -> bool {
    first_nonzero(h, 0) < 8 && window_at(h, first_nonzero(h, 0))
}

/// How many value ordinals below `r` occur exactly twice.
pub open spec fn num_pairs_below(h: Seq<Card>, r: int) -> int
    decreases r,
{
    if r <= 0 {
        0
    } else {
        num_pairs_below(h, r - 1) + (if count_val(h, r - 1) == 2 {
            1int
        } else {
            0int
        })
    }
}

/// Number of paired values in the hand.
pub open spec fn num_pairs(h: Seq<Card>) -> int {
    num_pairs_below(h, 13)
}

/// Lowest paired value ordinal (the first the ascending scan meets).
pub open spec fn pair0(h: Seq<Card>) -> int {
    first_val_with(h, 2, 0)
}

/// Second paired value ordinal in ascending scan order.
pub open spec fn pair1(h: Seq<Card>) -> int {
    first_val_with(h, 2, pair0(h) + 1)
}

/// The classification cascade, strongest category first; high card is the
/// catch-all, so every five-card hand falls in exactly one category.
pub open spec fn spec_category(h: Seq<Card>) -> Category {
    if spec_flush(h) && royal_vals(h) {
        Category::RoyalFlush
    } else if spec_flush(h) && first_window(h, 0) < 8 {
        Category::StraightFlush
    } else if first_val_with(h, 4, 0) < 13 {
        Category::FourOfAKind
    } else if first_val_with(h, 3, 0) < 13 && first_val_with(h, 2, 0) < 13 {
        Category::FullHouse
    } else if spec_flush(h) {
        Category::Flush
    } else if straight_found(h) {
        Category::Straight
    } else if first_val_with(h, 3, 0) < 13 {
        Category::ThreeOfAKind
    } else if num_pairs(h) == 2 {
        Category::TwoPair
    } else if num_pairs(h) == 1 {
        Category::OnePair
    } else {
        Category::HighCard
    }
}

/// Maps a category and its tie-break payload to the final score: each
/// category owns a disjoint numeric band, and ties break inside it.
pub open spec fn encode(c: Category, h: Seq<Card>) -> int {
    match c {
        Category::RoyalFlush => 10000,
        Category::StraightFlush => 9000 + first_window(h, 0) + 6,
        Category::FourOfAKind => 8000 + first_val_with(h, 4, 0) + 2,
        Category::FullHouse => 7000 + (first_val_with(h, 3, 0) + 2) * 7 + first_val_with(h, 2, 0)
            + 2,
        Category::Flush => 6000 + hand_max(h) + 2,
        Category::Straight => 5000 + hand_max(h) + 2,
        Category::ThreeOfAKind => 4000 + (first_val_with(h, 3, 0) + 2) * 7 + kicker_at(h, 0)
            + kicker_at(h, 1),
        Category::TwoPair => 3000 + (pair0(h) + 2) * 14 + (pair1(h) + 2) * 14 + kicker_at(h, 0),
        Category::OnePair => 2000 + (pair0(h) + 2) * 14 + kicker_at(h, 0),
        Category::HighCard => hand_max(h),
    }
}

/// The score of a hand: its category's encoding.
pub open spec fn spec_score(h: Seq<Card>) -> int {
    encode(spec_category(h), h)
}

pub proof fn lemma_first_suit_from(h: Seq<Card>, f: nat, lo: int, k: int)
    requires
        0 <= lo <= k <= 4,
        forall|j: int| lo <= j < k ==> count_suit(h, j) != f,
        k < 4 ==> count_suit(h, k) == f,
    ensures
        first_suit_with(h, f, lo) == if k < 4 {
            k
        } else {
            4
        },
    decreases k - lo,
{
    if lo < k {
        lemma_first_suit_from(h, f, lo + 1, k);
    }
}

pub proof fn lemma_first_val_from(h: Seq<Card>, f: nat, lo: int, k: int)
    requires
        0 <= lo <= k <= 13,
        forall|j: int| lo <= j < k ==> count_val(h, j) != f,
        k < 13 ==> count_val(h, k) == f,
    ensures
        first_val_with(h, f, lo) == if k < 13 {
            k
        } else {
            13
        },
    decreases k - lo,
{
    if lo < k {
        lemma_first_val_from(h, f, lo + 1, k);
    }
}

pub proof fn lemma_first_window_from(h: Seq<Card>, lo: int, k: int)
    requires
        0 <= lo <= k <= 8,
        forall|j: int| lo <= j < k ==> !window_at(h, j),
        k < 8 ==> window_at(h, k),
    ensures
        first_window(h, lo) == if k < 8 {
            k
        } else {
            8
        },
    decreases k - lo,
{
    if lo < k {
        lemma_first_window_from(h, lo + 1, k);
    }
}

pub proof fn lemma_first_nonzero_from(h: Seq<Card>, lo: int, k: int)
    requires
        0 <= lo <= k <= 8,
        forall|j: int| lo <= j < k ==> count_val(h, j) == 0,
        k < 8 ==> count_val(h, k) != 0,
    ensures
        first_nonzero(h, lo) == if k < 8 {
            k
        } else {
            8
        },
    decreases k - lo,
{
    if lo < k {
        lemma_first_nonzero_from(h, lo + 1, k);
    }
}

/// The highest value ordinal of any hand lies between 0 and 12.
pub proof fn lemma_hand_max_bounds(h: Seq<Card>)
    ensures
        0 <= hand_max(h) <= 12,
    decreases h.len(),
{
    if h.len() > 0 {
        lemma_hand_max_bounds(h.drop_last());
        assert(0 <= value_ord(h.last().1) <= 12);
    }
}

pub proof fn lemma_num_pairs_le(h: Seq<Card>, r: int)
    ensures
        2 * num_pairs_below(h, r) <= sum_counts(h, r),
        num_pairs_below(h, r) >= 0,
    decreases r,
{
    if r > 0 {
        lemma_num_pairs_le(h, r - 1);
        lemma_count_val_ge_zero(h, r - 1);
    }
}

pub proof fn lemma_num_pairs_mono(h: Seq<Card>, a: int, b: int)
    requires
        a <= b,
    ensures
        num_pairs_below(h, a) <= num_pairs_below(h, b),
    decreases b - a,
{
    if a < b {
        lemma_num_pairs_mono(h, a, b - 1);
        lemma_count_val_ge_zero(h, b - 1);
    }
}

/// A five-card hand holds at most two paired values.
pub proof fn lemma_num_pairs_max(h: Seq<Card>)
    requires
        h.len() == 5,
    ensures
        num_pairs(h) <= 2,
    decreases h.len(),
{
    lemma_sum_counts_total(h);
    lemma_num_pairs_le(h, 13);
}

/// Classifies the hand and encodes category plus tie-breakers into one
/// integer; larger scores denote strictly stronger hands.
pub fn get_score(hand: &Hand) -> (score: usize)
    ensures
        score == spec_score(hand.cards@),
        score <= 10000,
{
    let stats = get_stats(hand);
    let ghost h = hand.cards@;
    proof {
        lemma_hand_max_bounds(h);
        lemma_kicker_len(h);
        lemma_kicker_entries_bounded(h, 13);
        lemma_score_in_band(h);
    }

    // Flush test
    let s = stats.suit_contains_frequency(5);
    proof {
        match s {
            Some(i) => lemma_first_suit_from(h, 5, 0, i as int),
            None => lemma_first_suit_from(h, 5, 0, 4),
        }
    }
    if s.is_some() {
        // Royal flush
        if stats.value_freq[8] == 1 && stats.value_freq[9] == 1 && stats.value_freq[10] == 1
            && stats.value_freq[11] == 1 && stats.value_freq[12] == 1 {
            return 10000;
        }
        // Straight flush
        let mut i: usize = 0;
        while i < 8
            invariant
                i <= 8,
                h == hand.cards@,
                stats_wf(stats),
                stats.hand == *hand,
                forall|j: int| 0 <= j < i ==> !window_at(h, j),
                spec_flush(h),
                !royal_vals(h),
            decreases 8 - i,
        {
            if stats.value_freq[i] == 1 && stats.value_freq[i + 1] == 1 && stats.value_freq[i + 2]
                == 1 && stats.value_freq[i + 3] == 1 && stats.value_freq[i + 4] == 1 {
                proof {
                    lemma_first_window_from(h, 0, i as int);
                }
                return 9000 + i + 6;
            }
            i = i + 1;
        }
        proof {
            lemma_first_window_from(h, 0, 8);
        }
    }

    // Four of a kind
    let v4 = stats.value_contains_frequency(4);
    proof {
        match v4 {
            Some(i) => lemma_first_val_from(h, 4, 0, i as int),
            None => lemma_first_val_from(h, 4, 0, 13),
        }
    }
    if v4.is_some() {
        return 8000 + v4.unwrap() + 2;
    }

    // Full house
    let v3 = stats.value_contains_frequency(3);
    let v2 = stats.value_contains_frequency(2);
    proof {
        match v3 {
            Some(i) => lemma_first_val_from(h, 3, 0, i as int),
            None => lemma_first_val_from(h, 3, 0, 13),
        }
        match v2 {
            Some(i) => lemma_first_val_from(h, 2, 0, i as int),
            None => lemma_first_val_from(h, 2, 0, 13),
        }
    }
    if v3.is_some() && v2.is_some() {
        return 7000 + (v3.unwrap() + 2) * 7 + v2.unwrap() + 2;
    }

    // Flush
    if s.is_some() {
        return 6000 + stats.highest_value + 2;
    }

    // Straight: skip empty ordinals, test the first occupied one only.
    let mut straight: bool = false;
    let mut stopped: bool = false;
    let mut i: usize = 0;
    while i < 8 && !stopped
        invariant
            i <= 8,
            h == hand.cards@,
            stats_wf(stats),
            stats.hand == *hand,
            !stopped ==> forall|j: int| 0 <= j < i ==> count_val(h, j) == 0,
            !stopped ==> !straight,
            stopped ==> straight == straight_found(h),
        decreases 2 * (8 - i) + (if stopped {
            0int
        } else {
            1int
        }),
    {
        if stats.value_freq[i] != 0 {
            proof {
                lemma_first_nonzero_from(h, 0, i as int);
            }
            if stats.value_freq[i] == 1 && stats.value_freq[i + 1] == 1 && stats.value_freq[i + 2]
                == 1 && stats.value_freq[i + 3] == 1 && stats.value_freq[i + 4] == 1 {
                straight = true;
            }
            stopped = true;
        } else {
            i = i + 1;
        }
    }
    proof {
        if !stopped {
            lemma_first_nonzero_from(h, 0, 8);
        }
    }
    if straight {
        return 5000 + stats.highest_value + 2;
    }

    // Three of a kind
    if v3.is_some() {
        proof {
            if kicker_seq(h).len() == 0 {
                assert(stats.kickers@[0] == 0);
            } else {
                assert(stats.kickers@[0] == kicker_seq(h)[0]);
                assert(0 <= kicker_seq_below(h, 13)[0] <= 12);
            }
            assert(stats.kickers@[0] == kicker_at(h, 0) && 0 <= kicker_at(h, 0) <= 12);
            if kicker_seq(h).len() <= 1 {
                assert(stats.kickers@[1] == 0);
            } else {
                assert(stats.kickers@[1] == kicker_seq(h)[1]);
                assert(0 <= kicker_seq_below(h, 13)[1] <= 12);
            }
            assert(stats.kickers@[1] == kicker_at(h, 1) && 0 <= kicker_at(h, 1) <= 12);
        }
        return 4000 + (v3.unwrap() + 2) * 7 + stats.kickers[0] + stats.kickers[1];
    }

    // Two pair or single pair
    proof {
        lemma_num_pairs_max(h);
    }
    let mut pair_index: usize = 0;
    let mut pair_indexes: [usize; 2] = [0, 0];
    let mut i: usize = 0;
    while i < 13
        invariant
            i <= 13,
            h == hand.cards@,
            h.len() == 5,
            stats_wf(stats),
            stats.hand == *hand,
            pair_index == num_pairs_below(h, i as int),
            num_pairs(h) <= 2,
            pair_index == 0 ==> forall|j: int| 0 <= j < i ==> count_val(h, j) != 2,
            pair_index >= 1 ==> pair_indexes@[0] == pair0(h) && pair0(h) < i && count_val(
                h,
                pair0(h),
            ) == 2,
            pair_index == 1 ==> forall|j: int| pair0(h) < j < i ==> count_val(h, j) != 2,
            pair_index >= 2 ==> pair_indexes@[1] == pair1(h) && pair1(h) < i,
            pair_index <= 2,
        decreases 13 - i,
    {
        if stats.value_freq[i] == 2 {
            proof {
                lemma_num_pairs_mono(h, i + 1, 13);
                if pair_index == 0 {
                    lemma_first_val_from(h, 2, 0, i as int);
                } else {
                    lemma_first_val_from(h, 2, pair0(h) + 1, i as int);
                }
            }
            pair_indexes[pair_index] = i;
            pair_index = pair_index + 1;
        }
        i = i + 1;
    }

    // Two pair
    if pair_index == 2 {
        proof {
            if kicker_seq(h).len() == 0 {
                assert(stats.kickers@[0] == 0);
            } else {
                assert(stats.kickers@[0] == kicker_seq(h)[0]);
                assert(0 <= kicker_seq_below(h, 13)[0] <= 12);
            }
            assert(stats.kickers@[0] == kicker_at(h, 0) && 0 <= kicker_at(h, 0) <= 12);
        }
        return 3000 + (pair_indexes[0] + 2) * 14 + (pair_indexes[1] + 2) * 14 + stats.kickers[0];
    }

    // Single pair
    if pair_index == 1 {
        proof {
            if kicker_seq(h).len() == 0 {
                assert(stats.kickers@[0] == 0);
            } else {
                assert(stats.kickers@[0] == kicker_seq(h)[0]);
                assert(0 <= kicker_seq_below(h, 13)[0] <= 12);
            }
            assert(stats.kickers@[0] == kicker_at(h, 0) && 0 <= kicker_at(h, 0) <= 12);
        }
        return 2000 + (pair_indexes[0] + 2) * 14 + stats.kickers[0];
    }

    // High card
    stats.highest_value
}

/// Card order: by suit first, then by value — a canonical layout for a
/// hand, not a strength comparison.
pub open spec fn card_le(a: Card, b: Card) -> bool {
    ||| suit_ord(a.0) < suit_ord(b.0)
    ||| (suit_ord(a.0) == suit_ord(b.0) && value_ord(a.1) <= value_ord(b.1))
}

/// Nondecreasing in the (suit, value) order.
pub open spec fn sorted_cards(s: Seq<Card>) -> bool {
    forall|x: int, y: int| 0 <= x < y < s.len() ==> card_le(s[x], s[y])
}

/// The card order as a relation value, for the sorting specifications.
pub open spec fn card_order() -> spec_fn(Card, Card) -> bool {
    |a: Card, b: Card| card_le(a, b)
}

/// The card order is total: reflexive, antisymmetric, transitive and
/// strongly connected, so a sorted arrangement of a hand is unique.
pub proof fn lemma_card_order_total()
    ensures
        vstd::relations::total_ordering(card_order()),
{
    let leq = card_order();
    assert forall|a: Card| #[trigger] leq(a, a) by {
        assert(card_le(a, a));
    }
    assert forall|a: Card, b: Card| #[trigger] leq(a, b) && #[trigger] leq(b, a) implies a == b by {
        if card_le(a, b) && card_le(b, a) {
            assert(suit_ord(a.0) == suit_ord(b.0) && value_ord(a.1) == value_ord(b.1));
            assert(a.0 == b.0 && a.1 == b.1);
        }
    }
    assert forall|a: Card, b: Card, c: Card|
        #[trigger] leq(a, b) && #[trigger] leq(b, c) implies leq(a, c) by {
        if card_le(a, b) && card_le(b, c) {
            assert(card_le(a, c));
        }
    }
    assert forall|a: Card, b: Card| #[trigger] leq(a, b) || #[trigger] leq(b, a) by {
        assert(card_le(a, b) || card_le(b, a));
    }
}

fn card_le_exec(a: &Card, b: &Card) -> (r: bool)
    ensures
        r == card_le(*a, *b),
{
    let sa = suit_index(a.0);
    let sb = suit_index(b.0);
    if sa < sb {
        true
    } else if sa == sb {
        value_index(a.1) <= value_index(b.1)
    } else {
        false
    }
}

/// Insertion sort in the (suit, value) order; keeps the multiset of cards.
fn sort_cards(v: &mut Vec<Card>)
    ensures
        final(v)@.len() == old(v)@.len(),
        final(v)@.to_multiset() == old(v)@.to_multiset(),
        sorted_cards(final(v)@),
{
    broadcast use vstd::seq_lib::group_to_multiset_ensures;
    broadcast use vstd::multiset::group_multiset_axioms;

    let n = v.len();
    if n == 0 {
        return ;
    }
    let mut i: usize = 1;
    while i < n
        invariant
            1 <= i <= n,
            n == v@.len(),
            n == old(v)@.len(),
            v@.to_multiset() == old(v)@.to_multiset(),
            forall|x: int, y: int| 0 <= x < y < i ==> card_le(v@[x], v@[y]),
        decreases n - i,
    {
        let mut j: usize = i;
        let mut done: bool = false;
        while j > 0 && !done
            invariant
                0 <= j <= i < n,
                n == v@.len(),
                n == old(v)@.len(),
                v@.to_multiset() == old(v)@.to_multiset(),
                forall|x: int, y: int| 0 <= x < y <= i && y != j ==> card_le(v@[x], v@[y]),
                forall|y: int| j < y <= i ==> card_le(v@[j as int], v@[y]),
                done ==> j == 0 || card_le(v@[j - 1], v@[j as int]),
            decreases 2 * j + (if done {
                0int
            } else {
                1int
            }),
        {
            if card_le_exec(&v[j - 1], &v[j]) {
                done = true;
            } else {
                let ghost prev = v@;
                let a = v[j - 1];
                let b = v[j];
                v[j - 1] = b;
                v[j] = a;
                proof {
                    assert(v@ == prev.update(j - 1, b).update(j as int, a));
                    assert(prev.update(j - 1, b)[j as int] == b);
                    assert(prev[j - 1] == a);
                    assert(prev.contains(a));
                    vstd::seq_lib::to_multiset_contains(prev, a);
                    vstd::seq_lib::to_multiset_update(prev, j - 1, b);
                    vstd::seq_lib::to_multiset_update(prev.update(j - 1, b), j as int, a);
                    assert(v@.to_multiset() == prev.to_multiset().insert(b).remove(a).insert(
                        a,
                    ).remove(b));
                    assert(v@.to_multiset() =~= prev.to_multiset());
                }
                j = j - 1;
            }
        }
        proof {
            assert forall|x: int, y: int| 0 <= x < y <= i implies card_le(v@[x], v@[y]) by {
                if y == j && j > 0 {
                    assert(card_le(v@[j - 1], v@[j as int]));
                    if x < j - 1 {
                        assert(card_le(v@[x], v@[j - 1]));
                    }
                }
            }
        }
        i = i + 1;
    }
}

/// Index of the first space at or after `i`, or the length if none.
pub open spec fn first_space(s: Seq<char>, i: int) -> int
    decreases s.len() - i,
{
    if i < 0 || i >= s.len() {
        s.len() as int
    } else if s[i] == ' ' {
        i
    } else {
        first_space(s, i + 1)
    }
}

pub proof fn lemma_first_space_bounds(s: Seq<char>, i: int)
    requires
        0 <= i <= s.len(),
    ensures
        i <= first_space(s, i) <= s.len(),
    decreases s.len() - i,
{
    if i < s.len() && s[i] != ' ' {
        lemma_first_space_bounds(s, i + 1);
    }
}

pub proof fn lemma_first_space_char(s: Seq<char>, lo: int, k: int)
    requires
        0 <= lo <= k <= s.len(),
        forall|m: int| lo <= m < k ==> s[m] != ' ',
        k < s.len() ==> s[k] == ' ',
    ensures
        first_space(s, lo) == k,
    decreases k - lo,
{
    if lo < k {
        lemma_first_space_char(s, lo + 1, k);
    }
}

/// The tokens of `s` from position `i` on, split on single spaces; the
/// splitting a `split(" ")` call performs, empty tokens included.
pub open spec fn split_spaces_from(s: Seq<char>, i: int) -> Seq<Seq<char>>
    decreases s.len() - i,
    when 0 <= i <= s.len()
    via split_spaces_from_dec
{
    let j = first_space(s, i);
    if j >= s.len() {
        seq![s.subrange(i, s.len() as int)]
    } else {
        seq![s.subrange(i, j)] + split_spaces_from(s, j + 1)
    }
}

#[via_fn]
proof fn split_spaces_from_dec(s: Seq<char>, i: int) {
    lemma_first_space_bounds(s, i);
}

/// All tokens of `s`, split on single spaces.
pub open spec fn split_spaces(s: Seq<char>) -> Seq<Seq<char>> {
    split_spaces_from(s, 0)
}

/// The cards a token list denotes, one per token.
pub open spec fn parse_tokens(ts: Seq<Seq<char>>) -> Seq<Card>
    decreases ts.len(),
{
    if ts.len() == 0 {
        Seq::empty()
    } else {
        parse_tokens(ts.drop_last()).push(parse_card_spec(ts.last()))
    }
}

pub proof fn lemma_parse_tokens_len(ts: Seq<Seq<char>>)
    ensures
        parse_tokens(ts).len() == ts.len(),
    decreases ts.len(),
{
    if ts.len() > 0 {
        lemma_parse_tokens_len(ts.drop_last());
    }
}

fn find_space(s: &str, from: usize, n: usize) -> (j: usize)
    requires
        n == s@.len(),
        from <= n,
    ensures
        from <= j <= n,
        j == first_space(s@, from as int),
    {
    let mut j = from;
    while j < n
        invariant
            from <= j <= n,
            n == s@.len(),
            forall|m: int| from <= m < j ==> s@[m] != ' ',
        decreases n - j,
    {
        if s.get_char(j) == ' ' {
            proof {
                lemma_first_space_char(s@, from as int, j as int);
            }
            return j;
        }
        j = j + 1;
    }
    proof {
        lemma_first_space_char(s@, from as int, n as int);
    }
    j
}

/// Splits the text on single spaces, parses every token, sorts all the
/// cards by (suit, value) and packs the first five of that order — the
/// five least — into the hand. With exactly five tokens, the only
/// well-formed input, the hand holds precisely the five parsed cards;
/// with more, the surplus is dropped only after the sort. Fewer than
/// five tokens are ruled out rather than read out of bounds.
pub fn hand_from_str(s: &str) -> (h: Hand)
    requires
        split_spaces(s@).len() >= 5,
    ensures
        sorted_cards(h.cards@),
        h.cards@.len() == 5,
        h.cards@ == parse_tokens(split_spaces(s@)).sort_by(card_order()).take(5),
        split_spaces(s@).len() == 5 ==> h.cards@.to_multiset() == parse_tokens(
            split_spaces(s@),
        ).to_multiset(),
        forall|c: Card|
            h.cards@.to_multiset().count(c) <= parse_tokens(split_spaces(s@)).to_multiset().count(
                c,
            ),
{
    let n = s.unicode_len();
    let mut cards: Vec<Card> = Vec::new();
    let ghost mut consumed: Seq<Seq<char>> = Seq::empty();
    let mut i: usize = 0;
    let mut done: bool = false;
    while !done
        invariant
            n == s@.len(),
            i <= n,
            cards@ == parse_tokens(consumed),
            !done ==> split_spaces(s@) == consumed + split_spaces_from(s@, i as int),
            done ==> split_spaces(s@) == consumed,
        decreases n - i + (if done {
            0int
        } else {
            1int
        }),
    {
        let j = find_space(s, i, n);
        let tok = s.substring_char(i, j);
        let c = card_from_str(tok);
        let ghost prev = consumed;
        proof {
            consumed = consumed.push(tok@);
            assert(consumed.drop_last() =~= prev);
            assert(consumed.last() == tok@);
        }
        cards.push(c);
        if j == n {
            done = true;
            proof {
                assert(split_spaces_from(s@, i as int) =~= seq![s@.subrange(i as int, n as int)]);
                assert(prev + seq![tok@] =~= consumed);
            }
        } else {
            proof {
                assert(split_spaces_from(s@, i as int) == seq![s@.subrange(i as int, j as int)]
                    + split_spaces_from(s@, j + 1));
                assert(prev + (seq![tok@] + split_spaces_from(s@, j + 1)) =~= consumed
                    + split_spaces_from(s@, j + 1));
            }
            i = j + 1;
        }
    }
    proof {
        lemma_parse_tokens_len(consumed);
    }
    sort_cards(&mut cards);
    let hc: [Card; 5] = [cards[0], cards[1], cards[2], cards[3], cards[4]];
    let h = Hand { cards: hc };
    proof {
        let full = cards@;
        let parsed = parse_tokens(split_spaces(s@));
        let leq = card_order();
        lemma_card_order_total();
        parsed.lemma_sort_by_ensures(leq);
        assert(vstd::relations::sorted_by(full, leq)) by {
            assert forall|x: int, y: int| 0 <= x < y < full.len() implies #[trigger] leq(
                full[x],
                full[y],
            ) by {
                assert(card_le(full[x], full[y]));
            }
        }
        vstd::seq_lib::lemma_sorted_unique(full, parsed.sort_by(leq), leq);
        assert(full == parsed.sort_by(leq));
        assert(h.cards@ =~= full.subrange(0, 5));
        assert(h.cards@ =~= parsed.sort_by(leq).take(5));
        assert(full =~= full.subrange(0, 5) + full.subrange(5, full.len() as int));
        vstd::seq_lib::lemma_multiset_commutative(
            full.subrange(0, 5),
            full.subrange(5, full.len() as int),
        );
        if split_spaces(s@).len() == 5 {
            assert(h.cards@ =~= full);
        }
    }
    h
}

pub proof fn lemma_first_nonzero_bounds(h: Seq<Card>, lo: int)
    requires
        0 <= lo <= 8,
    ensures
        lo <= first_nonzero(h, lo) <= 8,
    decreases 8 - lo,
{
    if lo < 8 && count_val(h, lo) == 0 {
        lemma_first_nonzero_bounds(h, lo + 1);
    }
}

/// A found first value really carries the sought frequency.
pub proof fn lemma_first_val_found(h: Seq<Card>, f: nat, lo: int)
    requires
        0 <= lo <= 13,
    ensures
        first_val_with(h, f, lo) < 13 ==> count_val(h, first_val_with(h, f, lo)) == f,
    decreases 13 - lo,
{
    if lo < 13 && count_val(h, lo) != f {
        lemma_first_val_found(h, f, lo + 1);
    }
}

pub proof fn lemma_sum_counts_mono(h: Seq<Card>, a: int, b: int)
    requires
        a <= b,
    ensures
        sum_counts(h, a) <= sum_counts(h, b),
    decreases b - a,
{
    if a < b {
        lemma_sum_counts_mono(h, a, b - 1);
        lemma_count_val_ge_zero(h, b - 1);
    }
}

/// The highest ordinal of a nonempty hand is present at least once.
pub proof fn lemma_hand_max_count(h: Seq<Card>)
    requires
        h.len() > 0,
    ensures
        count_val(h, hand_max(h)) >= 1,
    decreases h.len(),
{
    if h.len() == 1 {
        assert(hand_max(h.drop_last()) == 0);
        assert(0 <= value_ord(h.last().1));
        assert(hand_max(h) == value_ord(h.last().1));
        assert(count_val(h, hand_max(h)) >= 1);
    } else if value_ord(h.last().1) > hand_max(h.drop_last()) {
        assert(hand_max(h) == value_ord(h.last().1));
        assert(count_val(h, hand_max(h)) >= 1);
    } else {
        lemma_hand_max_count(h.drop_last());
        assert(hand_max(h) == hand_max(h.drop_last()));
        assert(count_val(h, hand_max(h)) >= count_val(h.drop_last(), hand_max(h)));
    }
}

/// Any present ordinal is bounded by the highest.
pub proof fn lemma_hand_max_ge(h: Seq<Card>, k: int)
    requires
        count_val(h, k) >= 1,
    ensures
        hand_max(h) >= k,
    decreases h.len(),
{
    if h.len() > 0 {
        if value_ord(h.last().1) == k {
        } else {
            lemma_hand_max_ge(h.drop_last(), k);
        }
    }
}

/// A five-card straight is exactly its window: the top card sits four
/// above the scan's first occupied ordinal.
pub proof fn lemma_straight_top(h: Seq<Card>)
    requires
        h.len() == 5,
        straight_found(h),
    ensures
        hand_max(h) == first_nonzero(h, 0) + 4,
{
    let i0 = first_nonzero(h, 0);
    lemma_first_nonzero_bounds(h, 0);
    lemma_hand_max_ge(h, i0 + 4);
    lemma_hand_max_bounds(h);
    if hand_max(h) > i0 + 4 {
        let m = hand_max(h);
        lemma_hand_max_count(h);
        lemma_sum_counts_total(h);
        assert(sum_counts(h, i0 + 1) == sum_counts(h, i0) + count_val(h, i0));
        assert(sum_counts(h, i0 + 2) == sum_counts(h, i0 + 1) + count_val(h, i0 + 1));
        assert(sum_counts(h, i0 + 3) == sum_counts(h, i0 + 2) + count_val(h, i0 + 2));
        assert(sum_counts(h, i0 + 4) == sum_counts(h, i0 + 3) + count_val(h, i0 + 3));
        assert(sum_counts(h, i0 + 5) == sum_counts(h, i0 + 4) + count_val(h, i0 + 4));
        lemma_kicker_len_le_sum(h, i0);
        assert(sum_counts(h, i0 + 5) >= 5);
        lemma_sum_counts_mono(h, i0 + 5, m);
        assert(sum_counts(h, m + 1) == sum_counts(h, m) + count_val(h, m));
        lemma_sum_counts_mono(h, m + 1, 13);
        assert(sum_counts(h, 13) >= 6);
        assert(false);
    }
}

proof fn lemma_num_pairs_zero(h: Seq<Card>, m: int)
    requires
        forall|k: int| 0 <= k < m ==> count_val(h, k) != 2,
    ensures
        num_pairs_below(h, m) == 0,
    decreases m,
{
    if m > 0 {
        lemma_num_pairs_zero(h, m - 1);
    }
}

proof fn lemma_num_pairs_witness(h: Seq<Card>, a: int, b: int)
    requires
        0 <= a <= b,
        num_pairs_below(h, b) > num_pairs_below(h, a),
    ensures
        exists|k: int| a <= k < b && #[trigger] count_val(h, k) == 2,
    decreases b - a,
{
    if count_val(h, b - 1) == 2 {
        assert(a <= b - 1 < b && count_val(h, b - 1) == 2);
    } else {
        lemma_num_pairs_witness(h, a, b - 1);
    }
}

/// A two-pair hand carries its pair ordinals in range: the lower below
/// the higher, the higher at most an Ace.
pub proof fn lemma_two_pair_ords(h: Seq<Card>)
    requires
        num_pairs(h) == 2,
    ensures
        0 <= pair0(h) < pair1(h) <= 12,
        count_val(h, pair0(h)) == 2,
        count_val(h, pair1(h)) == 2,
{
    lemma_num_pairs_zero(h, 0);
    lemma_num_pairs_witness(h, 0, 13);
    let k = choose|k: int| 0 <= k < 13 && #[trigger] count_val(h, k) == 2;
    lemma_first_val_le(h, 2, 0, k);
    lemma_first_val_bounds(h, 2, 0);
    lemma_first_val_found(h, 2, 0);
    let p0 = pair0(h);
    assert forall|j: int| 0 <= j < p0 implies count_val(h, j) != 2 by {
        if count_val(h, j) == 2 {
            lemma_first_val_le(h, 2, 0, j);
        }
    }
    lemma_num_pairs_zero(h, p0);
    assert(num_pairs_below(h, p0 + 1) == 1);
    lemma_num_pairs_witness(h, p0 + 1, 13);
    let k2 = choose|k2: int| p0 + 1 <= k2 < 13 && #[trigger] count_val(h, k2) == 2;
    lemma_first_val_le(h, 2, p0 + 1, k2);
    lemma_first_val_bounds(h, 2, p0 + 1);
    lemma_first_val_found(h, 2, p0 + 1);
}

/// Least score a hand of the category can reach (a safe lower bound).
pub open spec fn band_lo(c: Category) -> int {
    match c {
        Category::HighCard => 0,
        Category::OnePair => 2028,
        Category::TwoPair => 3056,
        Category::ThreeOfAKind => 4014,
        Category::Straight => 5006,
        Category::Flush => 6002,
        Category::FullHouse => 7016,
        Category::FourOfAKind => 8002,
        Category::StraightFlush => 9006,
        Category::RoyalFlush => 10000,
    }
}

/// Greatest score a hand of the category can reach (a safe upper bound).
pub open spec fn band_hi(c: Category) -> int {
    match c {
        Category::HighCard => 12,
        Category::OnePair => 2222,
        Category::TwoPair => 3390,
        Category::ThreeOfAKind => 4122,
        Category::Straight => 5013,
        Category::Flush => 6014,
        Category::FullHouse => 7112,
        Category::FourOfAKind => 8014,
        Category::StraightFlush => 9013,
        Category::RoyalFlush => 10000,
    }
}

pub proof fn lemma_first_val_bounds(h: Seq<Card>, f: nat, lo: int)
    requires
        0 <= lo <= 13,
    ensures
        lo <= first_val_with(h, f, lo) <= 13,
    decreases 13 - lo,
{
    if lo < 13 && count_val(h, lo) != f {
        lemma_first_val_bounds(h, f, lo + 1);
    }
}

pub proof fn lemma_first_window_bounds(h: Seq<Card>, lo: int)
    requires
        0 <= lo <= 8,
    ensures
        lo <= first_window(h, lo) <= 8,
    decreases 8 - lo,
{
    if lo < 8 && !window_at(h, lo) {
        lemma_first_window_bounds(h, lo + 1);
    }
}

/// Every kicker slot reads as a value ordinal between 0 and 12.
pub proof fn lemma_kicker_at_bounds(h: Seq<Card>)
    ensures
        forall|j: int| 0 <= #[trigger] kicker_at(h, j) <= 12,
{
    lemma_kicker_entries_bounded(h, 13);
    assert forall|j: int| 0 <= #[trigger] kicker_at(h, j) <= 12 by {
        if 0 <= j < kicker_seq(h).len() {
            assert(0 <= kicker_seq_below(h, 13)[j] <= 12);
        }
    }
}

/// Every hand scores at least 0, and its score stays inside the numeric
/// band its category owns; the bands are disjoint by construction, so no
/// two categories can ever collide on a score.
pub proof fn lemma_score_in_band(h: Seq<Card>)
    requires
        h.len() == 5,
    ensures
        band_lo(spec_category(h)) <= spec_score(h) <= band_hi(spec_category(h)),
        spec_score(h) >= 0,
{
    lemma_hand_max_bounds(h);
    lemma_kicker_at_bounds(h);
    lemma_first_val_bounds(h, 2, 0);
    lemma_first_val_bounds(h, 3, 0);
    lemma_first_val_bounds(h, 4, 0);
    lemma_first_window_bounds(h, 0);
    if pair0(h) + 1 <= 13 {
        lemma_first_val_bounds(h, 2, pair0(h) + 1);
    } else {
        assert(pair1(h) == 13);
    }
    if spec_category(h) == Category::Straight {
        lemma_straight_top(h);
        lemma_first_nonzero_bounds(h, 0);
    }
    if spec_category(h) == Category::TwoPair {
        lemma_two_pair_ords(h);
    }
}

/// The bands respect the category order: a stronger category's least
/// score beats a weaker category's greatest.
pub proof fn lemma_bands_ordered(c1: Category, c2: Category)
    requires
        category_rank(c1) > category_rank(c2),
    ensures
        band_lo(c1) > band_hi(c2),
{
}

/// Cross-category monotonicity: a hand of a stronger category scores
/// strictly higher than any hand of a weaker category.
pub proof fn lemma_cross_category(h1: Seq<Card>, h2: Seq<Card>)
    requires
        h1.len() == 5,
        h2.len() == 5,
        category_rank(spec_category(h1)) > category_rank(spec_category(h2)),
    ensures
        spec_score(h1) > spec_score(h2),
{
    lemma_score_in_band(h1);
    lemma_score_in_band(h2);
    lemma_bands_ordered(spec_category(h1), spec_category(h2));
}

/// Within one pair: with equal pair values, the higher first kicker
/// scores strictly higher.
pub proof fn lemma_one_pair_kicker(h1: Seq<Card>, h2: Seq<Card>)
    requires
        h1.len() == 5,
        h2.len() == 5,
        spec_category(h1) == Category::OnePair,
        spec_category(h2) == Category::OnePair,
        pair0(h1) == pair0(h2),
        kicker_at(h1, 0) > kicker_at(h2, 0),
    ensures
        spec_score(h1) > spec_score(h2),
{
}

/// Sum of the value frequencies other than 1 and 2 below `r`: the cards
/// bound in triples, quadruples or denser repeats.
pub open spec fn sum_others(h: Seq<Card>, r: int) -> int
    decreases r,
{
    if r <= 0 {
        0
    } else {
        sum_others(h, r - 1) + (if count_val(h, r - 1) == 1 || count_val(h, r - 1) == 2 {
            0int
        } else {
            count_val(h, r - 1) as int
        })
    }
}

/// Each card is a singleton, half a pair, or part of a denser repeat.
pub proof fn lemma_count_decomp(h: Seq<Card>, r: int)
    ensures
        sum_counts(h, r) == kicker_seq_below(h, r).len() + 2 * num_pairs_below(h, r) + sum_others(
            h,
            r,
        ),
    decreases r,
{
    if r > 0 {
        lemma_count_decomp(h, r - 1);
    }
}

pub proof fn lemma_first_val_le(h: Seq<Card>, f: nat, lo: int, k: int)
    requires
        0 <= lo <= k < 13,
        count_val(h, k) == f,
    ensures
        first_val_with(h, f, lo) <= k,
    decreases k - lo,
{
    if lo < k && count_val(h, lo) != f {
        lemma_first_val_le(h, f, lo + 1, k);
    }
}

pub proof fn lemma_sum_others_cases(h: Seq<Card>, r: int)
    requires
        r <= 13,
        forall|k: int| 0 <= k < 13 ==> count_val(h, k) != 3 && count_val(h, k) != 4,
    ensures
        sum_others(h, r) == 0 || sum_others(h, r) >= 5,
        sum_others(h, r) >= 0,
    decreases r,
{
    if r > 0 {
        lemma_sum_others_cases(h, r - 1);
        lemma_count_val_ge_zero(h, r - 1);
    }
}

/// A one-pair hand always carries a kicker: besides the pair it holds
/// three singletons with distinct ordinals, so the first kicker slot
/// holds an ordinal of at least 2.
pub proof fn lemma_one_pair_has_kicker(h: Seq<Card>)
    requires
        h.len() == 5,
        spec_category(h) == Category::OnePair,
    ensures
        kicker_at(h, 0) >= 2,
        kicker_seq(h).len() == 3,
{
    assert forall|k: int| 0 <= k < 13 implies count_val(h, k) != 3 && count_val(h, k) != 4 by {
        if count_val(h, k) == 3 {
            lemma_first_val_le(h, 3, 0, k);
        }
        if count_val(h, k) == 4 {
            lemma_first_val_le(h, 4, 0, k);
        }
    }
    lemma_sum_counts_total(h);
    lemma_count_decomp(h, 13);
    lemma_sum_others_cases(h, 13);
    lemma_kicker_entries_bounded(h, 13);
    assert(kicker_seq(h).len() == 3);
    assert(kicker_seq_below(h, 13)[0] > kicker_seq_below(h, 13)[1] > kicker_seq_below(h, 13)[2]
        >= 0);
    assert(kicker_at(h, 0) == kicker_seq_below(h, 13)[0]);
}

/// Within one pair: a higher pair value scores strictly higher, whatever
/// the kickers.
pub proof fn lemma_one_pair_rank(h1: Seq<Card>, h2: Seq<Card>)
    requires
        h1.len() == 5,
        h2.len() == 5,
        spec_category(h1) == Category::OnePair,
        spec_category(h2) == Category::OnePair,
        pair0(h1) > pair0(h2),
    ensures
        spec_score(h1) > spec_score(h2),
{
    lemma_kicker_at_bounds(h2);
    lemma_one_pair_has_kicker(h1);
}

/// Within flushes: the higher top card scores strictly higher.
pub proof fn lemma_flush_order(h1: Seq<Card>, h2: Seq<Card>)
    requires
        h1.len() == 5,
        h2.len() == 5,
        spec_category(h1) == Category::Flush,
        spec_category(h2) == Category::Flush,
        hand_max(h1) > hand_max(h2),
    ensures
        spec_score(h1) > spec_score(h2),
{
}

/// Within high-card hands: the higher top card scores strictly higher;
/// lower cards break no further ties.
pub proof fn lemma_high_card_order(h1: Seq<Card>, h2: Seq<Card>)
    requires
        h1.len() == 5,
        h2.len() == 5,
        spec_category(h1) == Category::HighCard,
        spec_category(h2) == Category::HighCard,
        hand_max(h1) > hand_max(h2),
    ensures
        spec_score(h1) > spec_score(h2),
{
}

} // verus!

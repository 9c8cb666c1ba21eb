//! Hands of camel cards: their type by how the cards repeat, their cards as
//! strengths, and the order that ranks them.
use vstd::prelude::*;
use core::cmp::Ordering;
use crate::parsing::{chars_of, decimal_i32, parse_i32, split_words, words_of};

verus! {

/// The types of hand, weakest first.
#[derive(Debug, PartialEq, Eq, PartialOrd, Ord, Clone, Copy, Structural)]
pub enum HandType {
    High,
    Pair,
    TwoPair,
    ThreeKind,
    FullHouse,
    FourKind,
    FiveKind,
}

/// A hand: its type, the strength of each card in order, and its bid.
pub struct CamelCardHand {
    pub hand_type: HandType,
    pub cards: Vec<u8>,
    pub bid: i32,
}

/// The rank of a hand type, weakest 0.
pub open spec fn type_rank(t: HandType) -> int {
    match t {
        HandType::High => 0,
        HandType::Pair => 1,
        HandType::TwoPair => 2,
        HandType::ThreeKind => 3,
        HandType::FullHouse => 4,
        HandType::FourKind => 5,
        HandType::FiveKind => 6,
    }
}

/// How often `c` occurs in `s`.
pub open spec fn occurrences(s: Seq<char>, c: char) -> nat
    decreases s.len(),
{
    if s.len() == 0 {
        0
    } else {
        occurrences(s.drop_last(), c) + if s.last() == c {
            1nat
        } else {
            0nat
        }
    }
}

/// The different characters of `s`, in order of first appearance.
pub open spec fn distinct(s: Seq<char>) -> Seq<char>
    decreases s.len(),
{
    if s.len() == 0 {
        Seq::empty()
    } else if distinct(s.drop_last()).contains(s.last()) {
        distinct(s.drop_last())
    } else {
        distinct(s.drop_last()).push(s.last())
    }
}

/// Some card of the hand occurs exactly `n` times.
pub open spec fn some_card_occurs(s: Seq<char>, n: nat) -> bool {
    exists|i: int| 0 <= i < distinct(s).len() && occurrences(s, #[trigger] distinct(s)[i]) == n
}

/// The type of a hand of up to five different cards.
pub open spec fn hand_type_of(s: Seq<char>) -> HandType {
    let k = distinct(s).len();
    if k == 1 {
        HandType::FiveKind
    } else if k == 2 {
        if some_card_occurs(s, 4) {
            HandType::FourKind
        } else {
            HandType::FullHouse
        }
    } else if k == 3 {
        if some_card_occurs(s, 3) {
            HandType::ThreeKind
        } else {
            HandType::TwoPair
        }
    } else if k == 4 {
        HandType::Pair
    } else {
        HandType::High
    }
}

/// The type of the hand.
pub fn get_hand_type(hand: &str) -> (t: HandType)
    requires
        1 <= distinct(hand@).len() <= 5,
    ensures
        t == hand_type_of(hand@),
{
    let chars = chars_of(hand);
    let counts = tally(&chars);
    type_from_tally(&counts, Ghost(hand@))
}

/// Each different character of `chars`, in order of first appearance, with
/// how often it occurs.
fn tally(chars: &Vec<char>) -> (counts: Vec<(char, u64)>)
    ensures
        counts@.len() == distinct(chars@).len(),
        forall|j: int| 0 <= j < counts@.len() ==> (#[trigger] counts@[j]).0 == distinct(chars@)[j]
            && counts@[j].1 == occurrences(chars@, counts@[j].0),
{
    let mut counts: Vec<(char, u64)> = Vec::new();
    let mut i: usize = 0;
    while i < chars.len()
        invariant
            i <= chars@.len(),
            counts@.len() == distinct(chars@.take(i as int)).len(),
            forall|j: int| 0 <= j < counts@.len() ==> (#[trigger] counts@[j]).0 == distinct(chars@.take(i as int))[j]
                && counts@[j].1 == occurrences(chars@.take(i as int), counts@[j].0),
            forall|j: int| 0 <= j < counts@.len() ==> counts@[j].1 <= i,
        decreases chars@.len() - i,
    {
        let c = chars[i];
        let ghost pre = chars@.take(i as int);
        let ghost next = chars@.take(i as int + 1);
        assert(next.drop_last() =~= pre);
        assert(next.last() == c);
        let mut k: usize = 0;
        let mut found = false;
        while k < counts.len()
            invariant_except_break
                !found,
            invariant
                k <= counts@.len(),
                forall|j: int| 0 <= j < k ==> (#[trigger] counts@[j]).0 != c,
            ensures
                found ==> k < counts@.len() && counts@[k as int].0 == c,
                !found ==> forall|j: int| 0 <= j < counts@.len() ==> (#[trigger] counts@[j]).0 != c,
            decreases counts@.len() - k,
        {
            if counts[k].0 == c {
                found = true;
                break;
            }
            k = k + 1;
        }
        let ghost old_counts = counts@;
        if found {
            let n = counts[k].1;
            counts.set(k, (c, n + 1));
            proof {
                assert(distinct(pre).contains(c)) by {
                    assert(distinct(pre)[k as int] == c);
                }
                assert(distinct(next) == distinct(pre));
                assert forall|j: int| 0 <= j < counts@.len() implies (#[trigger] counts@[j]).0 == distinct(next)[j]
                    && counts@[j].1 == occurrences(next, counts@[j].0) by {
                    assert(occurrences(next, counts@[j].0) == occurrences(pre, counts@[j].0) + if c == counts@[j].0 {
                        1nat
                    } else {
                        0nat
                    });
                    if j != k {
                        assert(old_counts[j].0 != c) by {
                            lemma_distinct_unique(pre, j, k as int);
                        }
                    }
                }
            }
        } else {
            counts.push((c, 1));
            proof {
                if distinct(pre).contains(c) {
                    let j = choose|j: int| 0 <= j < distinct(pre).len() && distinct(pre)[j] == c;
                    assert(old_counts[j].0 == c);
                }
                assert(distinct(next) == distinct(pre).push(c));
                lemma_unseen_absent(pre, c);
                assert forall|j: int| 0 <= j < counts@.len() implies (#[trigger] counts@[j]).0 == distinct(next)[j]
                    && counts@[j].1 == occurrences(next, counts@[j].0) by {
                    assert(occurrences(next, counts@[j].0) == occurrences(pre, counts@[j].0) + if c == counts@[j].0 {
                        1nat
                    } else {
                        0nat
                    });
                    if j < old_counts.len() {
                        assert(old_counts[j].0 != c);
                    }
                }
            }
        }
        i = i + 1;
    }
    assert(chars@.take(chars@.len() as int) =~= chars@);
    counts
}

/// The type of a hand from its tally.
fn type_from_tally(counts: &Vec<(char, u64)>, hand: Ghost<Seq<char>>) -> (t: HandType)
    requires
        1 <= distinct(hand@).len() <= 5,
        counts@.len() == distinct(hand@).len(),
        forall|j: int| 0 <= j < counts@.len() ==> (#[trigger] counts@[j]).0 == distinct(hand@)[j]
            && counts@[j].1 == occurrences(hand@, counts@[j].0),
    ensures
        t == hand_type_of(hand@),
{
    let ghost hand = hand@;
    assert(1 <= distinct(hand).len() <= 5);
    proof {
        assert forall|n: nat| some_card_occurs(hand, n) <==> exists|j: int| 0 <= j < counts@.len() && (#[trigger] counts@[j]).1 == n by {
            if some_card_occurs(hand, n) {
                let i = choose|i: int| 0 <= i < distinct(hand).len() && occurrences(hand, #[trigger] distinct(hand)[i]) == n;
                assert(counts@[i].1 == n);
            }
            if exists|j: int| 0 <= j < counts@.len() && (#[trigger] counts@[j]).1 == n {
                let j = choose|j: int| 0 <= j < counts@.len() && (#[trigger] counts@[j]).1 == n;
                assert(occurrences(hand, distinct(hand)[j]) == n);
            }
        }
    }
    let distinct_count = counts.len();
    if distinct_count == 1 {
        return HandType::FiveKind;
    }
    if distinct_count == 2 {
        if any_count(&counts, 4) {
            return HandType::FourKind;
        } else {
            return HandType::FullHouse;
        }
    } else if distinct_count == 3 {
        if any_count(&counts, 3) {
            return HandType::ThreeKind;
        } else {
            return HandType::TwoPair;
        }
    } else if distinct_count == 4 {
        return HandType::Pair;
    }
    HandType::High
}

/// The strength of a card, the joker weakest; `None` for a character that
/// is no card.
pub open spec fn card_strength(c: char) -> Option<u8> {
    if c == 'J' {
        Some(1u8)
    } else if '2' <= c <= '9' {
        Some((c as int - '0' as int) as u8)
    } else if c == 'T' {
        Some(10u8)
    } else if c == 'Q' {
        Some(12u8)
    } else if c == 'K' {
        Some(13u8)
    } else if c == 'A' {
        Some(14u8)
    } else {
        None
    }
}

fn strength_of(c: char) -> (r: Option<u8>)
    ensures
        r == card_strength(c),
{
    if c == 'J' {
        Some(1)
    } else if '2' <= c && c <= '9' {
        Some((c as u32 - '0' as u32) as u8)
    } else if c == 'T' {
        Some(10)
    } else if c == 'Q' {
        Some(12)
    } else if c == 'K' {
        Some(13)
    } else if c == 'A' {
        Some(14)
    } else {
        None
    }
}

/// The hand a line writes as its cards, white space, and its bid: the cards
/// are the first word and the bid the last.
pub open spec fn hand_of_line(line: Seq<char>) -> Option<(Seq<u8>, HandType, i32)> {
    let words = words_of(line);
    if words.len() > 0 && (forall|i: int| 0 <= i < words[0].len() ==> (#[trigger] card_strength(words[0][i])) is Some)
        && decimal_i32(words.last()) is Some && 1 <= distinct(words[0]).len() <= 5 {
        Some((
            words[0].map_values(|c: char| card_strength(c)->0),
            hand_type_of(words[0]),
            decimal_i32(words.last())->0,
        ))
    } else {
        None
    }
}

/// Reads a hand from its line; `None` where the line writes none.
pub fn build_hand(raw_string: &str) -> (hand: Option<CamelCardHand>)
    ensures
        hand matches Some(h) ==> hand_of_line(raw_string@) == Some((h.cards@, h.hand_type, h.bid)),
        hand is None ==> hand_of_line(raw_string@) is None,
{
    let words = split_words(&chars_of(raw_string));
    let ghost views = words@.map_values(|w: Vec<char>| w@);
    if words.len() == 0 {
        return None;
    }
    let first = &words[0];
    assert(views[0] == first@);
    let mut cards: Vec<u8> = Vec::new();
    let mut i: usize = 0;
    while i < first.len()
        invariant
            views == words_of(raw_string@),
            views.len() > 0,
            views[0] == first@,
            i <= first@.len(),
            cards@.len() == i,
            forall|j: int| 0 <= j < i ==> (#[trigger] card_strength(first@[j])) == Some(cards@[j]),
        decreases first@.len() - i,
    {
        match strength_of(first[i]) {
            Some(v) => {
                cards.push(v);
            },
            None => {
                assert(views[0] == first@);
                assert(card_strength(views[0][i as int]) is None);
                return None;
            },
        }
        i = i + 1;
    }
    assert(cards@ =~= first@.map_values(|c: char| card_strength(c)->0));
    let bid = match parse_i32(&words[words.len() - 1]) {
        Some(b) => b,
        None => {
            return None;
        },
    };
    let counts = tally(first);
    if counts.len() < 1 || counts.len() > 5 {
        return None;
    }
    let hand_type = type_from_tally(&counts, Ghost(first@));
    Some(CamelCardHand { hand_type, cards, bid })
}

/// Card strengths compared one by one from the first; a hand that runs out
/// first is the weaker.
pub open spec fn lex_cmp(a: Seq<u8>, b: Seq<u8>) -> Ordering
    decreases a.len(),
{
    if a.len() == 0 {
        if b.len() == 0 {
            Ordering::Equal
        } else {
            Ordering::Less
        }
    } else if b.len() == 0 {
        Ordering::Greater
    } else if a[0] < b[0] {
        Ordering::Less
    } else if a[0] > b[0] {
        Ordering::Greater
    } else {
        lex_cmp(a.drop_first(), b.drop_first())
    }
}

/// Hands ranked by type, then card by card.
pub open spec fn hand_order(a: &CamelCardHand, b: &CamelCardHand) -> Ordering {
    if type_rank(a.hand_type) < type_rank(b.hand_type) {
        Ordering::Less
    } else if type_rank(a.hand_type) > type_rank(b.hand_type) {
        Ordering::Greater
    } else {
        lex_cmp(a.cards@, b.cards@)
    }
}

fn rank_of(t: HandType) -> (r: u8)
    ensures
        r == type_rank(t),
{
    match t {
        HandType::High => 0,
        HandType::Pair => 1,
        HandType::TwoPair => 2,
        HandType::ThreeKind => 3,
        HandType::FullHouse => 4,
        HandType::FourKind => 5,
        HandType::FiveKind => 6,
    }
}

/// How two hands rank: by type, then card by card.
pub fn compare_hands(a: &CamelCardHand, b: &CamelCardHand) -> (o: Ordering)
    ensures
        o == hand_order(a, b),
{
    let ra = rank_of(a.hand_type);
    let rb = rank_of(b.hand_type);
    if ra < rb {
        return Ordering::Less;
    } else if ra > rb {
        return Ordering::Greater;
    }
    let mut i: usize = 0;
    assert(a.cards@.skip(0) =~= a.cards@);
    assert(b.cards@.skip(0) =~= b.cards@);
    while i < a.cards.len() && i < b.cards.len()
        invariant
            type_rank(a.hand_type) == type_rank(b.hand_type),
            i <= a.cards@.len(),
            i <= b.cards@.len(),
            lex_cmp(a.cards@, b.cards@) == lex_cmp(a.cards@.skip(i as int), b.cards@.skip(i as int)),
        decreases a.cards@.len() - i,
    {
        let x = a.cards[i];
        let y = b.cards[i];
        assert(a.cards@.skip(i as int)[0] == x);
        assert(b.cards@.skip(i as int)[0] == y);
        if x < y {
            return Ordering::Less;
        } else if x > y {
            return Ordering::Greater;
        }
        assert(a.cards@.skip(i as int).drop_first() =~= a.cards@.skip(i as int + 1));
        assert(b.cards@.skip(i as int).drop_first() =~= b.cards@.skip(i as int + 1));
        i = i + 1;
    }
    if a.cards.len() == i && b.cards.len() == i {
        Ordering::Equal
    } else if a.cards.len() == i {
        Ordering::Less
    } else {
        Ordering::Greater
    }
}

/// The winnings of hands in rank order: each bid times its rank, from 1.
pub open spec fn winnings(bids: Seq<i32>) -> int
    decreases bids.len(),
{
    if bids.len() == 0 {
        0
    } else {
        winnings(bids.drop_last()) + bids.len() * bids.last()
    }
}

/// The bids of the hands.
pub open spec fn bids_of(hands: Seq<CamelCardHand>) -> Seq<i32> {
    hands.map_values(|h: CamelCardHand| h.bid)
}

/// The total winnings of hands given weakest first, or `None` where a
/// partial sum leaves the `i32` range.
pub fn total_winnings(hands: &Vec<CamelCardHand>) -> (total: Option<i32>)
    ensures
        total matches Some(t) ==> t == winnings(bids_of(hands@)),
{
    let ghost bids = bids_of(hands@);
    let mut total: i64 = 0;
    let mut i: usize = 0;
    while i < hands.len()
        invariant
            i <= hands@.len(),
            bids == bids_of(hands@),
            total == winnings(bids.take(i as int)),
            i32::MIN <= total <= i32::MAX,
        decreases hands@.len() - i,
    {
        if i >= 0x7fff_ffff {
            return None;
        }
        let rank = (i + 1) as i64;
        let bid = hands[i].bid as i64;
        assert(bids.take(i as int + 1).drop_last() =~= bids.take(i as int));
        assert(bids.take(i as int + 1).last() == bid);
        assert(-0x8000_0000 * 0x8000_0000 <= rank * bid <= 0x8000_0000 * 0x8000_0000) by (nonlinear_arith)
            requires
                1 <= rank <= 0x8000_0000,
                -0x8000_0000 <= bid <= 0x7fff_ffff,
        ;
        let next = total + rank * bid;
        if next < -0x8000_0000 || next > 0x7fff_ffff {
            return None;
        }
        total = next;
        i = i + 1;
    }
    assert(bids.take(hands@.len() as int) =~= bids);
    Some(total as i32)
}

/// No character stands twice among the different ones.
proof fn lemma_distinct_unique(s: Seq<char>, a: int, b: int)
    requires
        0 <= a < distinct(s).len(),
        0 <= b < distinct(s).len(),
        a != b,
    ensures
        distinct(s)[a] != distinct(s)[b],
    decreases s.len(),
{
    if s.len() > 0 {
        let d = distinct(s.drop_last());
        if d.contains(s.last()) {
            lemma_distinct_unique(s.drop_last(), a, b);
        } else {
            if a < d.len() && b < d.len() {
                lemma_distinct_unique(s.drop_last(), a, b);
            } else if a == d.len() {
                assert(distinct(s)[b] == d[b]);
            } else {
                assert(distinct(s)[a] == d[a]);
            }
        }
    }
}

/// A character not among the different ones does not occur.
proof fn lemma_unseen_absent(s: Seq<char>, c: char)
    requires
        !distinct(s).contains(c),
    ensures
        occurrences(s, c) == 0,
    decreases s.len(),
{
    if s.len() > 0 {
        if s.last() == c {
            if distinct(s.drop_last()).contains(c) {
            } else {
                assert(distinct(s)[distinct(s).len() - 1] == c);
            }
        }
        if distinct(s.drop_last()).contains(c) {
            let j = choose|j: int| 0 <= j < distinct(s.drop_last()).len() && distinct(s.drop_last())[j] == c;
            assert(distinct(s)[j] == c);
        }
        lemma_unseen_absent(s.drop_last(), c);
    }
}

/// Whether some count equals `n`.
fn any_count(counts: &Vec<(char, u64)>, n: u64) -> (r: bool)
    ensures
        r == exists|j: int| 0 <= j < counts@.len() && (#[trigger] counts@[j]).1 == n,
{
    let mut j: usize = 0;
    while j < counts.len()
        invariant
            j <= counts@.len(),
            forall|k: int| 0 <= k < j ==> (#[trigger] counts@[k]).1 != n,
        decreases counts@.len() - j,
    {
        if counts[j].1 == n {
            return true;
        }
        j = j + 1;
    }
    false
}

} // verus!

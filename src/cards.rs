//! Scratchcards that win copies of the cards after them: the copies are
//! counted card by card.
use vstd::prelude::*;
use crate::games::{card_id, card_id_of, card_matches_of, matches_for_card};
use crate::parsing::string_of;

verus! {

/// A card: its line, how many winning numbers it holds, and how many copies
/// of it there are.
pub struct Card {
    pub card_str: String,
    pub num_matches: u32,
    pub num_copies: u32,
}

/// Each card's id with its number of matches.
pub open spec fn id_matches(cards: Seq<(u32, Card)>) -> Seq<(u32, u32)> {
    cards.map_values(|c: (u32, Card)| (c.0, c.1.num_matches))
}

/// The place of the first card with id `id`, if any.
pub open spec fn card_index(ms: Seq<(u32, u32)>, id: int) -> Option<int> {
    if exists|i: int| 0 <= i < ms.len() && (#[trigger] ms[i]).0 == id {
        Some(choose|i: int| 0 <= i < ms.len() && (#[trigger] ms[i]).0 == id && forall|j: int| 0 <= j < i ==> (#[trigger] ms[j]).0 != id)
    } else {
        None
    }
}

/// A measure that falls as card ids grow.
pub open spec fn ids_left(cid: int) -> nat {
    if 0 <= cid <= u32::MAX {
        (u32::MAX + 1 - cid) as nat
    } else {
        0
    }
}

/// The copies one copy of card `cid` wins in all: one of each of the next
/// cards it has matches for, and all those copies win in turn.
pub open spec fn won(ms: Seq<(u32, u32)>, cid: int) -> int
    decreases ids_left(cid), u32::MAX as nat + 2,
{
    if card_index(ms, cid) is Some && 0 <= cid <= u32::MAX {
        won_from(ms, cid, 1)
    } else {
        0
    }
}

/// The copies won through the matches of card `cid` from the `inc`th on.
pub open spec fn won_from(ms: Seq<(u32, u32)>, cid: int, inc: int) -> int
    decreases ids_left(cid), (if card_index(ms, cid) is Some && 1 <= inc {
        (ms[card_index(ms, cid)->0].1 + 1 - inc) as nat
    } else {
        0
    }),
{
    if card_index(ms, cid) is Some && 0 <= cid <= u32::MAX && 1 <= inc && inc <= ms[card_index(
        ms,
        cid,
    )->0].1 {
        1 + won(ms, cid + inc) + won_from(ms, cid, inc + 1)
    } else {
        0
    }
}

/// The copies of all cards together.
pub open spec fn copies_sum(cards: Seq<(u32, Card)>) -> int
    decreases cards.len(),
{
    if cards.len() == 0 {
        0
    } else {
        copies_sum(cards.drop_last()) + cards.last().1.num_copies
    }
}

/// One more copy of a card adds one to the sum.
proof fn lemma_copies_sum_add_one(cards: Seq<(u32, Card)>, k: int, c: Card)
    requires
        0 <= k < cards.len(),
        c.num_copies == cards[k].1.num_copies + 1,
    ensures
        copies_sum(cards.update(k, (cards[k].0, c))) == copies_sum(cards) + 1,
    decreases cards.len(),
{
    if k < cards.len() - 1 {
        lemma_copies_sum_add_one(cards.drop_last(), k, c);
        assert(cards.update(k, (cards[k].0, c)).drop_last() =~= cards.drop_last().update(k, (cards[k].0, c)));
    } else {
        assert(cards.update(k, (cards[k].0, c)).drop_last() =~= cards.drop_last());
    }
}

/// Where the first card with id `id` sits.
fn find_card(cards: &Vec<(u32, Card)>, id: u32) -> (r: Option<usize>)
    ensures
        r matches Some(i) ==> card_index(id_matches(cards@), id as int) == Some(i as int) && i < cards@.len(),
        r is None ==> card_index(id_matches(cards@), id as int) is None,
{
    let ghost ms = id_matches(cards@);
    let mut i: usize = 0;
    while i < cards.len()
        invariant
            i <= cards@.len(),
            ms == id_matches(cards@),
            forall|j: int| 0 <= j < i ==> (#[trigger] ms[j]).0 != id,
        decreases cards@.len() - i,
    {
        if cards[i].0 == id {
            proof {
                assert(ms[i as int].0 == id);
                let c = choose|c: int| 0 <= c < ms.len() && (#[trigger] ms[c]).0 == id && forall|j: int| 0 <= j < c ==> (#[trigger] ms[j]).0 != id;
                if c < i {
                    assert(ms[c].0 != id);
                }
                if c > i {
                    assert(ms[i as int].0 != id);
                }
            }
            return Some(i);
        }
        i = i + 1;
    }
    None
}

/// Gives one copy of card `cid` its winnings: a copy of each of the next
/// cards it has matches for, each of which then wins in turn. Says whether
/// every card won exists and no count overflowed.
pub fn eval_card(cid: u32, card_map: &mut Vec<(u32, Card)>) -> (ok: bool)
    ensures
        id_matches(final(card_map)@) == id_matches(old(card_map)@),
        ok ==> copies_sum(final(card_map)@) == copies_sum(old(card_map)@) + won(
            id_matches(old(card_map)@),
            cid as int,
        ),
    decreases ids_left(cid as int), u32::MAX as nat + 2,
{
    let ghost ms = id_matches(card_map@);
    let ghost start = copies_sum(card_map@);
    let i = match find_card(card_map, cid) {
        Some(i) => i,
        None => {
            return false;
        },
    };
    let num_matches = card_map[i].1.num_matches;
    // the base case: a card with no match wins nothing
    if num_matches == 0 {
        return true;
    }
    let mut inc: u32 = 1;
    while inc <= num_matches
        invariant
            1 <= inc,
            inc <= num_matches + 1,
            ms == id_matches(old(card_map)@),
            start == copies_sum(old(card_map)@),
            card_index(ms, cid as int) == Some(i as int),
            i < ms.len(),
            ms[i as int].1 == num_matches,
            id_matches(card_map@) == ms,
            copies_sum(card_map@) == start + won_from(ms, cid as int, 1) - won_from(ms, cid as int, inc as int),
        decreases num_matches + 1 - inc,
    {
        if inc == u32::MAX || cid > u32::MAX - inc {
            return false;
        }
        let next = cid + inc;
        let j = match find_card(card_map, next) {
            Some(j) => j,
            None => {
                return false;
            },
        };
        let c = card_map[j].1.num_copies;
        if c == u32::MAX {
            return false;
        }
        let ghost before = card_map@;
        let entry = (card_map[j].0, Card {
            card_str: string_of_card(&card_map[j].1),
            num_matches: card_map[j].1.num_matches,
            num_copies: c + 1,
        });
        proof {
            lemma_copies_sum_add_one(before, j as int, entry.1);
        }
        card_map.set(j, entry);
        assert(id_matches(card_map@) =~= ms);
        if !eval_card(next, card_map) {
            return false;
        }
        inc = inc + 1;
    }
    true
}

/// A copy of the card's line.
fn string_of_card(card: &Card) -> (s: String)
    ensures
        s@ == card.card_str@,
{
    card.card_str.clone()
}

/// The copies won by evaluating each of `ids` in turn.
pub open spec fn won_all(ms: Seq<(u32, u32)>, ids: Seq<u32>) -> int
    decreases ids.len(),
{
    if ids.len() == 0 {
        0
    } else {
        won_all(ms, ids.drop_last()) + won(ms, ids.last() as int)
    }
}

/// The number of cards after every card of `card_index` has been evaluated
/// once: the copies there were, and those each evaluation wins. The order of
/// the evaluations does not change the count. `None` where a card won does
/// not exist or a count leaves the `u32` range.
pub fn count_total_cards(dat: (Vec<(u32, Card)>, Vec<u32>)) -> (total: Option<u32>)
    ensures
        total matches Some(t) ==> t == copies_sum(dat.0@) + won_all(id_matches(dat.0@), dat.1@),
{
    let (mut card_map, card_index) = dat;
    let ghost ms = id_matches(card_map@);
    let ghost start = copies_sum(card_map@);
    let mut k: usize = 0;
    while k < card_index.len()
        invariant
            k <= card_index@.len(),
            id_matches(card_map@) == ms,
            copies_sum(card_map@) == start + won_all(ms, card_index@.take(k as int)),
        decreases card_index@.len() - k,
    {
        if !eval_card(card_index[k], &mut card_map) {
            return None;
        }
        assert(card_index@.take(k as int + 1).drop_last() =~= card_index@.take(k as int));
        k = k + 1;
    }
    assert(card_index@.take(card_index@.len() as int) =~= card_index@);
    total_copies(&card_map)
}

/// The copies of all cards together, or `None` where the sum leaves the
/// `u32` range.
fn total_copies(card_map: &Vec<(u32, Card)>) -> (total: Option<u32>)
    ensures
        total matches Some(t) ==> t == copies_sum(card_map@),
{
    let mut result: u64 = 0;
    let mut i: usize = 0;
    while i < card_map.len()
        invariant
            i <= card_map@.len(),
            result == copies_sum(card_map@.take(i as int)),
            result <= u32::MAX,
        decreases card_map@.len() - i,
    {
        assert(card_map@.take(i as int + 1).drop_last() =~= card_map@.take(i as int));
        let n = card_map[i].1.num_copies as u64;
        if result + n > 0xffff_ffff {
            return None;
        }
        result = result + n;
        i = i + 1;
    }
    assert(card_map@.take(card_map@.len() as int) =~= card_map@);
    Some(result as u32)
}

/// Reads the cards of the lines: each line's id, in order, and a card per
/// id with its matches and one copy; a later line with the same id replaces
/// the card. `None` where a line has no id or no readable numbers.
pub fn parse_cards(file_lines: &Vec<String>) -> (r: Option<(Vec<(u32, Card)>, Vec<u32>)>)
    ensures
        r matches Some((cards, ids)) ==> ({
            &&& ids@.len() == file_lines@.len()
            &&& forall|i: int| 0 <= i < ids@.len() ==> card_id_of(#[trigger] file_lines@[i]@) == Some(ids@[i])
            &&& forall|k: int| 0 <= k < cards@.len() ==> (#[trigger] cards@[k]).1.num_copies == 1
                && exists|i: int| 0 <= i < file_lines@.len() && card_id_of(#[trigger] file_lines@[i]@) == Some(cards@[k].0)
                    && card_matches_of(file_lines@[i]@) == Some(cards@[k].1.num_matches as nat)
        }),
{
    let mut hmap: Vec<(u32, Card)> = Vec::new();
    let mut cards: Vec<u32> = Vec::new();
    let mut i: usize = 0;
    while i < file_lines.len()
        invariant
            i <= file_lines@.len(),
            cards@.len() == i,
            forall|j: int| 0 <= j < i ==> card_id_of(#[trigger] file_lines@[j]@) == Some(cards@[j]),
            forall|k: int| 0 <= k < hmap@.len() ==> (#[trigger] hmap@[k]).1.num_copies == 1
                && exists|j: int| 0 <= j < i && card_id_of(#[trigger] file_lines@[j]@) == Some(hmap@[k].0)
                    && card_matches_of(file_lines@[j]@) == Some(hmap@[k].1.num_matches as nat),
        decreases file_lines@.len() - i,
    {
        let line = &file_lines[i];
        let cid = card_id(line.as_str())?;
        let num_matches = matches_for_card(line.as_str())?;
        cards.push(cid);
        let card = Card { card_str: line.clone(), num_matches, num_copies: 1 };
        let ghost before = hmap@;
        match find_card(&hmap, cid) {
            Some(k) => {
                hmap.set(k, (cid, card));
            },
            None => {
                hmap.push((cid, card));
            },
        }
        proof {
            assert forall|k: int| 0 <= k < hmap@.len() implies (#[trigger] hmap@[k]).1.num_copies == 1
                && exists|j: int| 0 <= j < i + 1 && card_id_of(#[trigger] file_lines@[j]@) == Some(hmap@[k].0)
                    && card_matches_of(file_lines@[j]@) == Some(hmap@[k].1.num_matches as nat) by {
                if k < before.len() && hmap@[k] == before[k] {
                    let j = choose|j: int| 0 <= j < i && card_id_of(#[trigger] file_lines@[j]@) == Some(before[k].0)
                        && card_matches_of(file_lines@[j]@) == Some(before[k].1.num_matches as nat);
                    assert(card_id_of(file_lines@[j]@) == Some(hmap@[k].0));
                } else {
                    assert(card_id_of(file_lines@[i as int]@) == Some(hmap@[k].0));
                }
            }
        }
        i = i + 1;
    }
    Some((hmap, cards))
}

} // verus!

//! Print updates as lists of page numbers, checked and put right against a
//! set of ordering rules "this page before that one".
use vstd::prelude::*;
use crate::parsing::{
    all_decimal_u32, chars_of, decimal_u32, parse_all_u32, parse_u32, split_chars, split_on,
};

verus! {

/// A rule, or a pair of pages in an update: `first` comes before `second`.
#[derive(PartialEq, Eq, Hash, Debug, Clone, Copy, Structural)]
pub struct PageOrdering {
    pub first: u32,
    pub second: u32,
}

/// Which updates to keep: those that obey every rule, or those that break
/// one.
#[derive(Debug, PartialEq, Eq, Clone, Copy, Structural)]
pub enum UpdateLegality {
    Legal,
    Illegal,
}

/// The pairs `(p[i], p[j])` for `j > i`, in order of `j`.
pub open spec fn pairs_from(p: Seq<u32>, i: int) -> Seq<PageOrdering> {
    Seq::new(
        (p.len() - i - 1) as nat,
        |k: int| PageOrdering { first: p[i], second: p[i + 1 + k] },
    )
}

/// Every pair of pages of `p` in the order they stand, for the first `n`
/// pages as the earlier one: by earlier page, then by later page.
pub open spec fn orderings_upto(p: Seq<u32>, n: int) -> Seq<PageOrdering>
    decreases n,
{
    if n <= 0 {
        Seq::empty()
    } else {
        orderings_upto(p, n - 1) + pairs_from(p, n - 1)
    }
}

/// Every pair of pages of `p` in the order they stand.
pub open spec fn all_orderings(p: Seq<u32>) -> Seq<PageOrdering> {
    orderings_upto(p, p.len() as int)
}

/// A pair turned round.
pub open spec fn reversed(o: PageOrdering) -> PageOrdering {
    PageOrdering { first: o.second, second: o.first }
}

/// Every pair of pages of `p`, each turned round.
pub open spec fn reversed_orderings(p: Seq<u32>) -> Seq<PageOrdering> {
    all_orderings(p).map_values(|o: PageOrdering| reversed(o))
}

/// Every pair of pages of the update is a rule.
pub open spec fn obeys_rules(p: Seq<u32>, rules: Seq<PageOrdering>) -> bool {
    forall|i: int| 0 <= i < all_orderings(p).len() ==> rules.contains(#[trigger] all_orderings(p)[i])
}

/// Some pair of pages of the update, turned round, is a rule.
pub open spec fn breaks_rules(p: Seq<u32>, rules: Seq<PageOrdering>) -> bool {
    exists|i: int| 0 <= i < reversed_orderings(p).len() && rules.contains(#[trigger] reversed_orderings(p)[i])
}

/// The updates that the legality asks for, in their order.
pub open spec fn update_subset(
    updates: Seq<Seq<u32>>,
    rules: Seq<PageOrdering>,
    legality: UpdateLegality,
) -> Seq<Seq<u32>>
    decreases updates.len(),
{
    if updates.len() == 0 {
        Seq::empty()
    } else {
        let rest = update_subset(updates.drop_last(), rules, legality);
        let p = updates.last();
        let keep = match legality {
            UpdateLegality::Legal => obeys_rules(p, rules),
            UpdateLegality::Illegal => breaks_rules(p, rules),
        };
        if keep {
            rest.push(p)
        } else {
            rest
        }
    }
}

/// The sum of the middle pages of the updates.
pub open spec fn middle_sum(updates: Seq<Seq<u32>>) -> int
    decreases updates.len(),
{
    if updates.len() == 0 {
        0
    } else {
        middle_sum(updates.drop_last()) + updates.last()[(updates.last().len() / 2) as int] as int
    }
}

/// Every pair of pages, each turned round: `(p[j], p[i])` for `i < j`.
pub fn build_reversed_orderings(page_updates: &[u32]) -> (v: Vec<PageOrdering>)
    ensures
        v@ == reversed_orderings(page_updates@),
{
    let all = build_all_orderings(page_updates);
    let mut v: Vec<PageOrdering> = Vec::new();
    let mut k: usize = 0;
    while k < all.len()
        invariant
            k <= all@.len(),
            all@ == all_orderings(page_updates@),
            v@ == all@.take(k as int).map_values(|o: PageOrdering| reversed(o)),
        decreases all@.len() - k,
    {
        v.push(PageOrdering { first: all[k].second, second: all[k].first });
        assert(all@.take(k as int + 1) =~= all@.take(k as int).push(all@[k as int]));
        assert(v@ =~= all@.take(k as int + 1).map_values(|o: PageOrdering| reversed(o)));
        k = k + 1;
    }
    assert(all@.take(all@.len() as int) =~= all@);
    v
}

/// Every pair of pages in the order they stand: `(p[i], p[j])` for `i < j`.
pub fn build_all_orderings(page_updates: &[u32]) -> (v: Vec<PageOrdering>)
    ensures
        v@ == all_orderings(page_updates@),
{
    let n = page_updates.len();
    let mut v: Vec<PageOrdering> = Vec::new();
    let mut i: usize = 0;
    while i < n
        invariant
            n == page_updates@.len(),
            i <= n,
            v@ == orderings_upto(page_updates@, i as int),
        decreases n - i,
    {
        let ghost before = v@;
        let mut j: usize = i + 1;
        while j < n
            invariant
                n == page_updates@.len(),
                i < n,
                i + 1 <= j <= n,
                before == orderings_upto(page_updates@, i as int),
                v@ == before + pairs_from(page_updates@, i as int).take(j - i - 1),
            decreases n - j,
        {
            v.push(PageOrdering { first: page_updates[i], second: page_updates[j] });
            assert(pairs_from(page_updates@, i as int).take(j - i) =~= pairs_from(
                page_updates@,
                i as int,
            ).take(j - i - 1).push(PageOrdering { first: page_updates@[i as int], second: page_updates@[j as int] }));
            j = j + 1;
        }
        assert(pairs_from(page_updates@, i as int).take(n - i - 1) =~= pairs_from(page_updates@, i as int));
        i = i + 1;
    }
    v
}

/// Whether `rules` holds `o`.
fn holds_rule(rules: &Vec<PageOrdering>, o: &PageOrdering) -> (r: bool)
    ensures
        r == rules@.contains(*o),
{
    let mut i: usize = 0;
    while i < rules.len()
        invariant
            i <= rules@.len(),
            forall|j: int| 0 <= j < i ==> #[trigger] rules@[j] != *o,
        decreases rules@.len() - i,
    {
        if rules[i] == *o {
            return true;
        }
        i = i + 1;
    }
    false
}

/// Whether every pair of `v` is a rule.
fn all_in_rules(v: &Vec<PageOrdering>, rules: &Vec<PageOrdering>) -> (r: bool)
    ensures
        r == forall|i: int| 0 <= i < v@.len() ==> rules@.contains(#[trigger] v@[i]),
{
    let mut i: usize = 0;
    while i < v.len()
        invariant
            i <= v@.len(),
            forall|j: int| 0 <= j < i ==> rules@.contains(#[trigger] v@[j]),
        decreases v@.len() - i,
    {
        if !holds_rule(rules, &v[i]) {
            return false;
        }
        i = i + 1;
    }
    true
}

/// Whether some pair of `v` is a rule.
fn any_in_rules(v: &Vec<PageOrdering>, rules: &Vec<PageOrdering>) -> (r: bool)
    ensures
        r == exists|i: int| 0 <= i < v@.len() && rules@.contains(#[trigger] v@[i]),
{
    let mut i: usize = 0;
    while i < v.len()
        invariant
            i <= v@.len(),
            forall|j: int| 0 <= j < i ==> !rules@.contains(#[trigger] v@[j]),
        decreases v@.len() - i,
    {
        if holds_rule(rules, &v[i]) {
            return true;
        }
        i = i + 1;
    }
    false
}

/// The updates that obey every rule, or those that break one, in their order.
pub fn get_update_subset(
    updates: &[Vec<u32>],
    rules: &Vec<PageOrdering>,
    legality: UpdateLegality,
) -> (filtered: Vec<Vec<u32>>)
    ensures
        filtered@.map_values(|v: Vec<u32>| v@) == update_subset(
            updates@.map_values(|v: Vec<u32>| v@),
            rules@,
            legality,
        ),
{
    let ghost views = updates@.map_values(|v: Vec<u32>| v@);
    let mut filtered_updates: Vec<Vec<u32>> = Vec::new();
    let mut i: usize = 0;
    while i < updates.len()
        invariant
            i <= updates@.len(),
            views == updates@.map_values(|v: Vec<u32>| v@),
            filtered_updates@.map_values(|v: Vec<u32>| v@) == update_subset(
                views.take(i as int),
                rules@,
                legality,
            ),
        decreases updates@.len() - i,
    {
        let pages = &updates[i];
        let keep = match legality {
            UpdateLegality::Legal => {
                let page_orders = build_all_orderings(pages.as_slice());
                all_in_rules(&page_orders, rules)
            },
            UpdateLegality::Illegal => {
                let reversed_orders = build_reversed_orderings(pages.as_slice());
                any_in_rules(&reversed_orders, rules)
            },
        };
        let ghost before = filtered_updates@;
        assert(views.take(i as int + 1).drop_last() =~= views.take(i as int));
        assert(views.take(i as int + 1).last() == pages@);
        if keep {
            let copy = pages.clone();
            assert(copy@ =~= pages@);
            filtered_updates.push(copy);
            assert(filtered_updates@.map_values(|v: Vec<u32>| v@) =~= before.map_values(
                |v: Vec<u32>| v@,
            ).push(pages@));
        }
        i = i + 1;
    }
    assert(views.take(updates@.len() as int) =~= views);
    filtered_updates
}

/// The sum of the middle page of each update.
pub fn get_middle_page_number_sum(updates: &[Vec<u32>]) -> (sum: u32)
    requires
        forall|i: int| 0 <= i < updates@.len() ==> (#[trigger] updates@[i])@.len() % 2 == 1,
        middle_sum(updates@.map_values(|v: Vec<u32>| v@)) <= u32::MAX,
    ensures
        sum == middle_sum(updates@.map_values(|v: Vec<u32>| v@)),
{
    let ghost views = updates@.map_values(|v: Vec<u32>| v@);
    let mut sum: u32 = 0;
    let mut i: usize = 0;
    while i < updates.len()
        invariant
            i <= updates@.len(),
            views == updates@.map_values(|v: Vec<u32>| v@),
            forall|k: int| 0 <= k < updates@.len() ==> (#[trigger] updates@[k])@.len() % 2 == 1,
            middle_sum(views) <= u32::MAX,
            sum == middle_sum(views.take(i as int)),
        decreases updates@.len() - i,
    {
        let page_updates = &updates[i];
        assert(views.take(i as int + 1).drop_last() =~= views.take(i as int));
        assert(views.take(i as int + 1).last() == page_updates@);
        proof {
            lemma_middle_sum_prefix(views, i as int + 1);
        }
        sum = sum + page_updates[page_updates.len() / 2];
        i = i + 1;
    }
    assert(views.take(updates@.len() as int) =~= views);
    sum
}

/// Where `x` first stands in `p`.
pub open spec fn first_index(p: Seq<u32>, x: u32) -> int {
    p.index_of_first(x)->0
}

/// `p` with the pages of `o` swapped where `o.first` stands after
/// `o.second`.
pub open spec fn apply_swap(p: Seq<u32>, o: PageOrdering) -> Seq<u32> {
    let i1 = first_index(p, o.first);
    let i2 = first_index(p, o.second);
    if i1 > i2 {
        p.update(i1, p[i2]).update(i2, p[i1])
    } else {
        p
    }
}

/// `p` after each of `swaps` in turn.
pub open spec fn apply_swaps(p: Seq<u32>, swaps: Seq<PageOrdering>) -> Seq<u32>
    decreases swaps.len(),
{
    if swaps.len() == 0 {
        p
    } else {
        apply_swap(apply_swaps(p, swaps.drop_last()), swaps.last())
    }
}

/// Both pages of every pair lie in `p`.
pub open spec fn pages_present(p: Seq<u32>, swaps: Seq<PageOrdering>) -> bool {
    forall|k: int| 0 <= k < swaps.len() ==> p.contains((#[trigger] swaps[k]).first) && p.contains(swaps[k].second)
}

/// The pairs of `p`, turned round, that a rule forbids.
pub open spec fn illegal_orders(p: Seq<u32>, rules: Seq<PageOrdering>) -> Seq<PageOrdering> {
    reversed_orderings(p).filter(|o: PageOrdering| rules.contains(o))
}

/// `p` after at most `n` rounds that each swap every forbidden pair, stopping
/// at a round that finds none.
pub open spec fn fix_rounds(p: Seq<u32>, rules: Seq<PageOrdering>, n: nat) -> Seq<u32>
    decreases n,
{
    if n == 0 || illegal_orders(p, rules).len() == 0 {
        p
    } else {
        fix_rounds(apply_swaps(p, illegal_orders(p, rules)), rules, (n - 1) as nat)
    }
}

/// A swap only exchanges two pages: the same pages stay in the update.
proof fn lemma_swap_keeps_pages(p: Seq<u32>, o: PageOrdering)
    requires
        p.contains(o.first),
        p.contains(o.second),
    ensures
        forall|x: u32| #[trigger] apply_swap(p, o).contains(x) <==> p.contains(x),
        apply_swap(p, o).len() == p.len(),
{
    p.index_of_first_ensures(o.first);
    p.index_of_first_ensures(o.second);
    let q = apply_swap(p, o);
    let i1 = first_index(p, o.first);
    let i2 = first_index(p, o.second);
    assert forall|x: u32| #[trigger] q.contains(x) <==> p.contains(x) by {
        if p.contains(x) {
            let k = choose|k: int| 0 <= k < p.len() && p[k] == x;
            if i1 > i2 && k == i1 {
                assert(q[i2] == x);
            } else if i1 > i2 && k == i2 {
                assert(q[i1] == x);
            } else {
                assert(q[k] == x);
            }
        }
        if q.contains(x) {
            let k = choose|k: int| 0 <= k < q.len() && q[k] == x;
            if i1 > i2 && k == i1 {
                assert(p[i2] == x);
            } else if i1 > i2 && k == i2 {
                assert(p[i1] == x);
            } else {
                assert(p[k] == x);
            }
        }
    }
}

/// Both pages of every pair of `p` lie in `p`.
proof fn lemma_orderings_from_pages(p: Seq<u32>, n: int)
    requires
        0 <= n <= p.len(),
    ensures
        pages_present(p, orderings_upto(p, n)),
    decreases n,
{
    if n > 0 {
        lemma_orderings_from_pages(p, n - 1);
        let a = orderings_upto(p, n - 1);
        let b = pairs_from(p, n - 1);
        assert forall|k: int| 0 <= k < (a + b).len() implies p.contains((#[trigger] (a + b)[k]).first)
            && p.contains((a + b)[k].second) by {
            if k >= a.len() {
                let m = k - a.len();
                assert(p[n - 1] == b[m].first);
                assert(p[n + m] == b[m].second);
            } else {
                assert((a + b)[k] == a[k]);
            }
        }
    }
}

/// Both pages of every forbidden pair of `p` lie in `p`.
proof fn lemma_illegal_from_pages(p: Seq<u32>, rules: Seq<PageOrdering>)
    ensures
        pages_present(p, illegal_orders(p, rules)),
{
    lemma_orderings_from_pages(p, p.len() as int);
    let f = |o: PageOrdering| rules.contains(o);
    broadcast use vstd::seq_lib::group_filter_ensures;
    let ill = illegal_orders(p, rules);
    assert forall|k: int| 0 <= k < ill.len() implies p.contains((#[trigger] ill[k]).first) && p.contains(
        ill[k].second,
    ) by {
        assert(ill.contains(ill[k]));
        reversed_orderings(p).lemma_filter_contains_rev(|o: PageOrdering| rules.contains(o), ill[k]);
        let m = choose|m: int| 0 <= m < reversed_orderings(p).len() && reversed_orderings(p)[m] == ill[k];
        assert(all_orderings(p)[m].first == ill[k].second);
    }
}

/// Where `x` first stands in `update`.
fn position_of(update: &[u32], x: u32) -> (i: usize)
    requires
        update@.contains(x),
    ensures
        i == first_index(update@, x),
        i < update@.len(),
{
    proof {
        update@.index_of_first_ensures(x);
    }
    let mut i: usize = 0;
    while i < update.len()
        invariant
            i <= update@.len(),
            update@.contains(x),
            forall|j: int| 0 <= j < i ==> #[trigger] update@[j] != x,
        decreases update@.len() - i,
    {
        if update[i] == x {
            proof {
                update@.index_of_first_ensures(x);
            }
            return i;
        }
        i = i + 1;
    }
    proof {
        let k = choose|k: int| 0 <= k < update@.len() && update@[k] == x;
        assert(update@[k] != x);
    }
    0
}

/// Applies each swap in turn: where the first page of a pair stands after
/// the second, the two change places.
pub fn swap_page_orderings(update: &mut [u32], swaps: &[PageOrdering])
    requires
        pages_present(old(update)@, swaps@),
    ensures
        final(update)@ == apply_swaps(old(update)@, swaps@),
{
    let mut k: usize = 0;
    while k < swaps.len()
        invariant
            k <= swaps@.len(),
            update@ == apply_swaps(old(update)@, swaps@.take(k as int)),
            update@.len() == old(update)@.len(),
            forall|x: u32| #[trigger] update@.contains(x) <==> old(update)@.contains(x),
            pages_present(old(update)@, swaps@),
        decreases swaps@.len() - k,
    {
        let ordering = swaps[k];
        assert(old(update)@.contains(swaps@[k as int].first));
        let i1 = position_of(update, ordering.first);
        let i2 = position_of(update, ordering.second);
        proof {
            lemma_swap_keeps_pages(update@, ordering);
            assert(swaps@.take(k as int + 1).drop_last() =~= swaps@.take(k as int));
        }
        if i1 > i2 {
            let a = update[i1];
            let b = update[i2];
            update[i1] = b;
            update[i2] = a;
        }
        k = k + 1;
    }
    assert(swaps@.take(swaps@.len() as int) =~= swaps@);
}

/// The pairs of `reversed_orders` that are rules, in their order.
fn filter_illegal(reversed_orders: &Vec<PageOrdering>, rules: &Vec<PageOrdering>) -> (v: Vec<PageOrdering>)
    ensures
        v@ == reversed_orders@.filter(|o: PageOrdering| rules@.contains(o)),
{
    let mut v: Vec<PageOrdering> = Vec::new();
    let mut k: usize = 0;
    while k < reversed_orders.len()
        invariant
            k <= reversed_orders@.len(),
            v@ == reversed_orders@.take(k as int).filter(|o: PageOrdering| rules@.contains(o)),
        decreases reversed_orders@.len() - k,
    {
        let o = reversed_orders[k];
        proof {
            reveal_with_fuel(Seq::filter, 1);
            assert(reversed_orders@.take(k as int + 1).drop_last() =~= reversed_orders@.take(k as int));
        }
        if holds_rule(rules, &o) {
            v.push(o);
        }
        k = k + 1;
    }
    assert(reversed_orders@.take(reversed_orders@.len() as int) =~= reversed_orders@);
    v
}

/// Puts an update in order by rounds of swaps: each round swaps every pair
/// of pages that stands the way a rule forbids, and the rounds stop at one
/// that finds no such pair, or after `max_rounds`. Says whether the update
/// then obeys every rule.
pub fn fix_illegal_update(update: &mut [u32], rules: &Vec<PageOrdering>, max_rounds: usize) -> (fixed:
    bool)
    ensures
        final(update)@ == fix_rounds(old(update)@, rules@, max_rounds as nat),
        fixed == obeys_rules(final(update)@, rules@),
{
    let mut round: usize = 0;
    while round < max_rounds
        invariant
            round <= max_rounds,
            fix_rounds(update@, rules@, (max_rounds - round) as nat) == fix_rounds(
                old(update)@,
                rules@,
                max_rounds as nat,
            ),
        ensures
            update@ == fix_rounds(old(update)@, rules@, max_rounds as nat),
        decreases max_rounds - round,
    {
        let reversed_orders = build_reversed_orderings(update);
        let illegal_orders_to_swap = filter_illegal(&reversed_orders, rules);
        assert(illegal_orders_to_swap@ == illegal_orders(update@, rules@));
        if illegal_orders_to_swap.len() == 0 {
            assert(fix_rounds(update@, rules@, (max_rounds - round) as nat) == update@);
            break;
        }
        proof {
            lemma_illegal_from_pages(update@, rules@);
        }
        swap_page_orderings(update, illegal_orders_to_swap.as_slice());
        round = round + 1;
    }
    let page_orders = build_all_orderings(update);
    all_in_rules(&page_orders, rules)
}

/// The rule a line writes as `before|after`; anything after a second `|`
/// is not read.
pub open spec fn rule_of_line(line: Seq<char>) -> Option<PageOrdering> {
    let parts = split_on(line, '|');
    if parts.len() >= 2 && decimal_u32(parts[0]) is Some && decimal_u32(parts[1]) is Some {
        Some(PageOrdering { first: decimal_u32(parts[0])->0, second: decimal_u32(parts[1])->0 })
    } else {
        None
    }
}

/// The pages a line writes as numbers between commas.
pub open spec fn update_of_line(line: Seq<char>) -> Option<Seq<u32>> {
    all_decimal_u32(split_on(line, ','))
}

/// The rules written one per line; `None` if a line writes none.
pub fn build_ruleset(rule_lines: &Vec<String>) -> (rules: Option<Vec<PageOrdering>>)
    ensures
        rules is Some <==> forall|i: int| 0 <= i < rule_lines@.len() ==> (#[trigger] rule_of_line(rule_lines@[i]@)) is Some,
        rules matches Some(v) ==> v@.len() == rule_lines@.len() && forall|i: int|
            0 <= i < v@.len() ==> rule_of_line(rule_lines@[i]@) == Some(#[trigger] v@[i]),
{
    let mut ret: Vec<PageOrdering> = Vec::new();
    let mut i: usize = 0;
    while i < rule_lines.len()
        invariant
            i <= rule_lines@.len(),
            ret@.len() == i,
            forall|j: int| 0 <= j < i ==> rule_of_line(rule_lines@[j]@) == Some(#[trigger] ret@[j]),
        decreases rule_lines@.len() - i,
    {
        let line = chars_of(rule_lines[i].as_str());
        let parts = split_chars(&line, '|');
        let ghost views = parts@.map_values(|p: Vec<char>| p@);
        assert(views == split_on(rule_lines@[i as int]@, '|'));
        if parts.len() < 2 {
            assert(rule_of_line(rule_lines@[i as int]@) is None);
            return None;
        }
        let first = parse_u32(&parts[0]);
        let second = parse_u32(&parts[1]);
        match (first, second) {
            (Some(a), Some(b)) => {
                ret.push(PageOrdering { first: a, second: b });
            },
            _ => {
                assert(rule_of_line(rule_lines@[i as int]@) is None);
                return None;
            },
        }
        i = i + 1;
    }
    assert forall|j: int| 0 <= j < rule_lines@.len() implies (#[trigger] rule_of_line(rule_lines@[j]@)) is Some by {
        assert(rule_of_line(rule_lines@[j]@) == Some(ret@[j]));
    }
    Some(ret)
}

/// The updates written one per line; `None` if a line holds something other
/// than numbers between commas.
pub fn build_page_updates(update_lines: &Vec<String>) -> (updates: Option<Vec<Vec<u32>>>)
    ensures
        updates is Some <==> forall|i: int| 0 <= i < update_lines@.len() ==> (#[trigger] update_of_line(update_lines@[i]@)) is Some,
        updates matches Some(v) ==> v@.len() == update_lines@.len() && forall|i: int|
            0 <= i < v@.len() ==> update_of_line(update_lines@[i]@) == Some((#[trigger] v@[i])@),
{
    let mut ret: Vec<Vec<u32>> = Vec::new();
    let mut i: usize = 0;
    while i < update_lines.len()
        invariant
            i <= update_lines@.len(),
            ret@.len() == i,
            forall|j: int| 0 <= j < i ==> update_of_line(update_lines@[j]@) == Some((#[trigger] ret@[j])@),
        decreases update_lines@.len() - i,
    {
        let line = chars_of(update_lines[i].as_str());
        let parts = split_chars(&line, ',');
        assert(parts@.map_values(|p: Vec<char>| p@) == split_on(update_lines@[i as int]@, ','));
        match parse_all_u32(&parts) {
            Some(pages) => {
                assert(update_of_line(update_lines@[i as int]@) == Some(pages@));
                ret.push(pages);
            },
            None => {
                assert(update_of_line(update_lines@[i as int]@) is None);
                return None;
            },
        }
        i = i + 1;
    }
    assert forall|j: int| 0 <= j < update_lines@.len() implies (#[trigger] update_of_line(update_lines@[j]@)) is Some by {
        assert(update_of_line(update_lines@[j]@) == Some(ret@[j]@));
    }
    Some(ret)
}

/// A prefix of the updates sums to no more than all of them.
proof fn lemma_middle_sum_prefix(us: Seq<Seq<u32>>, n: int)
    requires
        0 <= n <= us.len(),
    ensures
        middle_sum(us.take(n)) <= middle_sum(us),
    decreases us.len(),
{
    if n < us.len() {
        lemma_middle_sum_prefix(us.drop_last(), n);
        assert(us.drop_last().take(n) =~= us.take(n));
    } else {
        assert(us.take(n) =~= us);
    }
}

} // verus!

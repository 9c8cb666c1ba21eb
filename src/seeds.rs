//! Ranges of ids moved by an offset where they overlap a source range.
use vstd::prelude::*;
use core::ops::RangeInclusive;
use crate::parsing::{chars_of, decimal_i64, parse_i64, split_chars, split_on, split_words, words_of};

verus! {

/// Relies on `RangeInclusive::start`: it returns the lower bound the range
/// was made with.
pub assume_specification<Idx>[ RangeInclusive::<Idx>::start ](r: &RangeInclusive<Idx>) -> (s: &Idx)
    ensures
        *s == r@.start,
;

/// Relies on `RangeInclusive::end`: it returns the upper bound the range
/// was made with.
pub assume_specification<Idx>[ RangeInclusive::<Idx>::end ](r: &RangeInclusive<Idx>) -> (e: &Idx)
    ensures
        *e == r@.end,
;

/// `x` lies in the range from `lo` to `hi`, both included.
pub open spec fn within(lo: i64, hi: i64, x: i64) -> bool {
    lo <= x <= hi
}

/// The range `lo..=hi` as a pair of bounds, if there is one.
pub open spec fn bounds(r: Option<RangeInclusive<i64>>) -> Option<(i64, i64)> {
    match r {
        Some(r) => Some((r@.start, r@.end)),
        None => None,
    }
}

/// What part of `input` the source range moves by `offset`, and what part of
/// it is left unmoved on the side where it sticks out, by where the ends of
/// `input` fall.
pub open spec fn overlap_bounds(input: (i64, i64), source: (i64, i64), offset: int) -> (Option<(i64, i64)>, Option<(i64, i64)>) {
    let (i1, i2) = input;
    let (s1, s2) = source;
    if within(s1, s2, i1) && within(s1, s2, i2) {
        (Some(((i1 + offset) as i64, (i2 + offset) as i64)), None)
    } else if within(s1, s2, i1) {
        (Some(((i1 + offset) as i64, (s2 + offset) as i64)), Some(((s2 + 1) as i64, i2)))
    } else if within(s1, s2, i2) {
        (Some(((s1 + offset) as i64, (i2 + offset) as i64)), Some((i1, (s1 - 1) as i64)))
    } else {
        (None, None)
    }
}

/// Whether the range holds `x`.
fn range_holds(r: &RangeInclusive<i64>, x: i64) -> (b: bool)
    requires
        !r@.exhausted,
    ensures
        b == within(r@.start, r@.end, x),
{
    *r.start() <= x && x <= *r.end()
}

/// The part of `input` inside `source`, moved by `offset`, and the part of
/// `input` that sticks out of `source`, where only one end of `input` lies
/// in it.
pub fn overlap_and_exclusive(input: &RangeInclusive<i64>, source: &RangeInclusive<i64>, offset: i64) -> (r: (
    Option<RangeInclusive<i64>>,
    Option<RangeInclusive<i64>>,
))
    requires
        !input@.exhausted,
        !source@.exhausted,
        i64::MIN <= input@.start + offset <= i64::MAX,
        i64::MIN <= input@.end + offset <= i64::MAX,
        i64::MIN <= source@.start + offset <= i64::MAX,
        i64::MIN <= source@.end + offset <= i64::MAX,
        source@.end < i64::MAX,
        source@.start > i64::MIN,
    ensures
        (bounds(r.0), bounds(r.1)) == overlap_bounds(
            (input@.start, input@.end),
            (source@.start, source@.end),
            offset as int,
        ),
        r.0 matches Some(x) ==> !x@.exhausted,
        r.1 matches Some(x) ==> !x@.exhausted,
{
    let i1 = *input.start();
    let i2 = *input.end();
    let s1 = *source.start();
    let s2 = *source.end();
    if range_holds(source, i1) && range_holds(source, i2) {
        let overlap_start = if s1 >= i1 {
            s1
        } else {
            i1
        };
        let overlap_end = if s2 <= i2 {
            s2
        } else {
            i2
        };
        (Some(RangeInclusive::new(overlap_start + offset, overlap_end + offset)), None)
    } else if range_holds(source, i1) && !range_holds(source, i2) {
        let transformed_range = RangeInclusive::new(i1 + offset, s2 + offset);
        let rem_range = RangeInclusive::new(s2 + 1, i2);
        (Some(transformed_range), Some(rem_range))
    } else if !range_holds(source, i1) && range_holds(source, i2) {
        let rem_range = RangeInclusive::new(i1, s1 - 1);
        let transformed_range = RangeInclusive::new(s1 + offset, i2 + offset);
        (Some(transformed_range), Some(rem_range))
    } else {
        (None, None)
    }
}

/// A range as its pair of bounds.
pub type Bounds = (i64, i64);

/// A source range of a map with the offset it moves ids by.
pub type Shift = (Bounds, i64);

/// The bounds of a range.
pub open spec fn pair(r: RangeInclusive<i64>) -> Bounds {
    (r@.start, r@.end)
}

/// The bounds of each range.
pub open spec fn pairs(v: Seq<RangeInclusive<i64>>) -> Seq<Bounds> {
    v.map_values(|r: RangeInclusive<i64>| pair(r))
}

/// The bounds of each source range with its offset.
pub open spec fn shifts(m: Seq<(RangeInclusive<i64>, i64)>) -> Seq<Shift> {
    m.map_values(|e: (RangeInclusive<i64>, i64)| (pair(e.0), e.1))
}

/// No source range of `m` is used up.
pub open spec fn fresh_keys(m: Seq<(RangeInclusive<i64>, i64)>) -> bool {
    forall|i: int| 0 <= i < m.len() ==> !(#[trigger] m[i]).0@.exhausted
}

/// No range of `v` is used up.
pub open spec fn fresh(v: Seq<RangeInclusive<i64>>) -> bool {
    forall|i: int| 0 <= i < v.len() ==> !(#[trigger] v[i])@.exhausted
}

/// Moving `r` and the source by `off` stays in the `i64` range, as do the
/// ends next to the source.
pub open spec fn fits(r: Bounds, src: Bounds, off: i64) -> bool {
    &&& i64::MIN <= r.0 + off <= i64::MAX
    &&& i64::MIN <= r.1 + off <= i64::MAX
    &&& i64::MIN <= src.0 + off <= i64::MAX
    &&& i64::MIN <= src.1 + off <= i64::MAX
    &&& src.1 < i64::MAX
    &&& src.0 > i64::MIN
}

/// What the first source range from the `j`th on that overlaps `r` makes of
/// it: the moved part and what sticks out; `r` itself where none overlaps.
/// `None` where a move leaves the `i64` range.
pub open spec fn scan(r: Bounds, m: Seq<Shift>, j: int) -> Option<(Bounds, Option<Bounds>)>
    decreases m.len() - j,
{
    if j >= m.len() || j < 0 {
        Some((r, None))
    } else if !fits(r, m[j].0, m[j].1) {
        None
    } else {
        let (t, rem) = overlap_bounds(r, m[j].0, m[j].1 as int);
        if t is Some {
            Some((t->0, rem))
        } else {
            scan(r, m, j + 1)
        }
    }
}

/// One round over the ranges: the moved or kept part of each, and the parts
/// that stuck out, in order.
pub open spec fn round(inputs: Seq<Bounds>, m: Seq<Shift>) -> Option<(Seq<Bounds>, Seq<Bounds>)>
    decreases inputs.len(),
{
    if inputs.len() == 0 {
        Some((Seq::empty(), Seq::empty()))
    } else {
        match (round(inputs.drop_last(), m), scan(inputs.last(), m, 0)) {
            (Some((t, rem)), Some((x, ro))) => Some((
                t.push(x),
                match ro {
                    Some(y) => rem.push(y),
                    None => rem,
                },
            )),
            _ => None,
        }
    }
}

/// A size of a range that is at least one, also for an empty range.
pub open spec fn measure(r: Bounds) -> int {
    r.1 - r.0 + 0x1_0000_0000_0000_0000
}

/// The sizes of the ranges together.
pub open spec fn total_measure(s: Seq<Bounds>) -> int
    decreases s.len(),
{
    if s.len() == 0 {
        0
    } else {
        total_measure(s.drop_last()) + measure(s.last())
    }
}

/// Rounds until nothing sticks out: the moved and kept parts of every round.
pub open spec fn settle(ranges: Seq<Bounds>, m: Seq<Shift>) -> Option<Seq<Bounds>>
    decreases total_measure(ranges),
    when (round(ranges, m) matches Some((t, rem)) ==> (rem.len() > 0 ==> 0 <= total_measure(rem)
        < total_measure(ranges)))
{
    match round(ranges, m) {
        None => None,
        Some((t, rem)) => if rem.len() == 0 {
            Some(t)
        } else {
            match settle(rem, m) {
                Some(x) => Some(t + x),
                None => None,
            }
        },
    }
}

/// What sticks out of a range is smaller than the range.
proof fn lemma_scan_shrinks(r: Bounds, m: Seq<Shift>, j: int)
    ensures
        scan(r, m, j) matches Some((x, Some(y))) ==> measure(y) < measure(r),
    decreases m.len() - j,
{
    if 0 <= j < m.len() && fits(r, m[j].0, m[j].1) {
        let (t, rem) = overlap_bounds(r, m[j].0, m[j].1 as int);
        if t is None {
            lemma_scan_shrinks(r, m, j + 1);
        }
    }
}

/// Every range measures at least one.
proof fn lemma_measure_positive(s: Seq<Bounds>)
    ensures
        total_measure(s) >= s.len(),
    decreases s.len(),
{
    if s.len() > 0 {
        lemma_measure_positive(s.drop_last());
    }
}

/// What sticks out in a round measures less than the round's ranges, by at
/// least one for each part.
proof fn lemma_round_shrinks(inputs: Seq<Bounds>, m: Seq<Shift>)
    ensures
        round(inputs, m) matches Some((t, rem)) ==> total_measure(rem) + rem.len() <= total_measure(inputs),
        round(inputs, m) matches Some((t, rem)) ==> t.len() == inputs.len() && rem.len() <= inputs.len(),
    decreases inputs.len(),
{
    if inputs.len() > 0 {
        lemma_round_shrinks(inputs.drop_last(), m);
        lemma_scan_shrinks(inputs.last(), m, 0);
        lemma_measure_positive(inputs.drop_last());
        match (round(inputs.drop_last(), m), scan(inputs.last(), m, 0)) {
            (Some((t, rem)), Some((x, ro))) => {
                match ro {
                    Some(y) => {
                        assert(rem.push(y).drop_last() =~= rem);
                    },
                    None => {},
                }
            },
            _ => {},
        }
    }
}

/// A settle step always shrinks.
proof fn lemma_settle_step(ranges: Seq<Bounds>, m: Seq<Shift>)
    ensures
        round(ranges, m) matches Some((t, rem)) ==> (rem.len() > 0 ==> 0 <= total_measure(rem)
            < total_measure(ranges)),
{
    lemma_round_shrinks(ranges, m);
    if let Some((t, rem)) = round(ranges, m) {
        lemma_measure_positive(rem);
    }
}

/// The moved part of `r` by the first source range that overlaps it, and
/// what sticks out; `r` itself where none overlaps.
fn scan_map(r: &RangeInclusive<i64>, map: &Vec<(RangeInclusive<i64>, i64)>) -> (res: Option<(RangeInclusive<i64>, Option<RangeInclusive<i64>>)>)
    requires
        !r@.exhausted,
        fresh_keys(map@),
    ensures
        match res {
            Some((x, ro)) => scan(pair(*r), shifts(map@), 0) == Some((pair(x), match ro {
                Some(y) => Some(pair(y)),
                None => None,
            })) && !x@.exhausted && (ro matches Some(y) ==> !y@.exhausted),
            None => scan(pair(*r), shifts(map@), 0) is None,
        },
{
    let ghost m = shifts(map@);
    let mut j: usize = 0;
    while j < map.len()
        invariant
            j <= map@.len(),
            m == shifts(map@),
            !r@.exhausted,
            fresh_keys(map@),
            scan(pair(*r), m, 0) == scan(pair(*r), m, j as int),
        decreases map@.len() - j,
    {
        let src = &map[j].0;
        let off = map[j].1;
        assert(!map@[j as int].0@.exhausted);
        let (i1, i2, s1, s2) = (*r.start(), *r.end(), *src.start(), *src.end());
        let ok = (off >= 0 && i1 <= i64::MAX - off && i2 <= i64::MAX - off && s1 <= i64::MAX - off && s2 <= i64::MAX - off)
            || (off < 0 && i1 >= i64::MIN - off && i2 >= i64::MIN - off && s1 >= i64::MIN - off && s2 >= i64::MIN - off);
        if !ok || s2 == i64::MAX || s1 == i64::MIN {
            return None;
        }
        let (t, rem) = overlap_and_exclusive(r, src, off);
        match t {
            Some(x) => {
                return Some((x, rem));
            },
            None => {},
        }
        j = j + 1;
    }
    Some((RangeInclusive::new(*r.start(), *r.end()), None))
}

/// One round over `inputs`: the moved or kept part of each, and the parts
/// that stuck out.
fn round_once(inputs: &Vec<RangeInclusive<i64>>, map: &Vec<(RangeInclusive<i64>, i64)>) -> (res: Option<(Vec<RangeInclusive<i64>>, Vec<RangeInclusive<i64>>)>)
    requires
        fresh(inputs@),
        fresh_keys(map@),
    ensures
        match res {
            Some((t, rem)) => round(pairs(inputs@), shifts(map@)) == Some((pairs(t@), pairs(rem@))) && fresh(t@)
                && fresh(rem@),
            None => round(pairs(inputs@), shifts(map@)) is None,
        },
{
    let ghost m = shifts(map@);
    let mut transformed: Vec<RangeInclusive<i64>> = Vec::new();
    let mut remainders: Vec<RangeInclusive<i64>> = Vec::new();
    let mut i: usize = 0;
    while i < inputs.len()
        invariant
            i <= inputs@.len(),
            m == shifts(map@),
            fresh(inputs@),
            fresh_keys(map@),
            round(pairs(inputs@).take(i as int), m) == Some((pairs(transformed@), pairs(remainders@))),
            fresh(transformed@),
            fresh(remainders@),
        decreases inputs@.len() - i,
    {
        assert(pairs(inputs@).take(i as int + 1).drop_last() =~= pairs(inputs@).take(i as int));
        assert(pairs(inputs@).take(i as int + 1).last() == pair(inputs@[i as int]));
        match scan_map(&inputs[i], map) {
            Some((x, ro)) => {
                let ghost before_t = transformed@;
                let ghost before_r = remainders@;
                transformed.push(x);
                assert(pairs(transformed@) =~= pairs(before_t).push(pair(x)));
                match ro {
                    Some(y) => {
                        remainders.push(y);
                        assert(pairs(remainders@) =~= pairs(before_r).push(pair(y)));
                    },
                    None => {},
                }
            },
            None => {
                proof {
                    lemma_round_none_on(pairs(inputs@), m, i as int + 1);
                }
                return None;
            },
        }
        i = i + 1;
    }
    assert(pairs(inputs@).take(inputs@.len() as int) =~= pairs(inputs@));
    Some((transformed, remainders))
}

/// Once a round fails on a prefix, it fails on the whole.
proof fn lemma_round_none_on(inputs: Seq<Bounds>, m: Seq<Shift>, n: int)
    requires
        0 <= n <= inputs.len(),
        round(inputs.take(n), m) is None,
    ensures
        round(inputs, m) is None,
    decreases inputs.len() - n,
{
    if n < inputs.len() {
        assert(inputs.take(n + 1).drop_last() =~= inputs.take(n));
        lemma_round_none_on(inputs, m, n + 1);
    } else {
        assert(inputs.take(n) =~= inputs);
    }
}

/// Rounds over the ranges until nothing sticks out.
fn settle_ranges(ranges: Vec<RangeInclusive<i64>>, map: &Vec<(RangeInclusive<i64>, i64)>) -> (res: Option<Vec<RangeInclusive<i64>>>)
    requires
        fresh(ranges@),
        fresh_keys(map@),
    ensures
        res matches Some(v) ==> settle(pairs(ranges@), shifts(map@)) == Some(pairs(v@)) && fresh(v@),
{
    let ghost m = shifts(map@);
    let ghost orig = pairs(ranges@);
    let mut next_step_ranges: Vec<RangeInclusive<i64>> = Vec::new();
    let mut seed_ranges = ranges;
    loop
        invariant
            m == shifts(map@),
            orig == pairs(ranges@),
            fresh(seed_ranges@),
            fresh(next_step_ranges@),
            fresh_keys(map@),
            settle(orig, m) == match settle(pairs(seed_ranges@), m) {
                Some(x) => Some(pairs(next_step_ranges@) + x),
                None => None,
            },
        decreases total_measure(pairs(seed_ranges@)),
    {
        proof {
            lemma_settle_step(pairs(seed_ranges@), m);
        }
        let (mut transformed, remainders) = round_once(&seed_ranges, map)?;
        let ghost before = pairs(next_step_ranges@);
        let ghost tr = pairs(transformed@);
        let ghost tv = transformed@;
        let ghost nv = next_step_ranges@;
        next_step_ranges.append(&mut transformed);
        assert(next_step_ranges@ == nv + tv);
        assert(pairs(next_step_ranges@) =~= before + tr);
        assert(fresh(next_step_ranges@)) by {
            assert forall|i: int| 0 <= i < next_step_ranges@.len() implies !(#[trigger] next_step_ranges@[i])@.exhausted by {
                if i < nv.len() {
                    assert(next_step_ranges@[i] == nv[i]);
                } else {
                    assert(next_step_ranges@[i] == tv[i - nv.len()]);
                }
            }
        }
        if remainders.len() == 0 {
            assert(settle(pairs(seed_ranges@), m) == Some(tr));
            return Some(next_step_ranges);
        }
        proof {
            lemma_settle_step(pairs(remainders@), m);
            assert(settle(pairs(seed_ranges@), m) == match settle(pairs(remainders@), m) {
                Some(x) => Some(tr + x),
                None => None,
            });
            if let Some(x) = settle(pairs(remainders@), m) {
                assert(before + (tr + x) =~= before + tr + x);
            }
        }
        seed_ranges = remainders;
    }
}

/// The words of a line that read as `i64`, read.
pub open spec fn line_numbers(line: Seq<char>) -> Seq<i64> {
    words_of(line).filter(|w: Seq<char>| decimal_i64(w) is Some).map_values(|w: Seq<char>| decimal_i64(w)->0)
}

/// The shift a map line `dst src len` gives: the source range from `src`
/// of `len` ids, moved by `dst - src`; `None` where a bound leaves the
/// `i64` range.
pub open spec fn shift_of(nums: Seq<i64>) -> Option<Shift> {
    let (dst, src, len) = (nums[0] as int, nums[1] as int, nums[2] as int);
    if i64::MIN <= src + len - 1 <= i64::MAX && i64::MIN <= dst - src <= i64::MAX {
        Some(((src as i64, (src + len - 1) as i64), (dst - src) as i64))
    } else {
        None
    }
}

/// `m` with the shift `e`: a source range already there takes the new
/// offset.
pub open spec fn put_shift(m: Seq<Shift>, e: Shift) -> Seq<Shift> {
    if exists|i: int| 0 <= i < m.len() && (#[trigger] m[i]).0 == e.0 {
        m.update(choose|i: int| 0 <= i < m.len() && (#[trigger] m[i]).0 == e.0, e)
    } else {
        m.push(e)
    }
}

/// The shifts of a map section, from each line of exactly three numbers.
pub open spec fn section_shifts(lines: Seq<Seq<char>>) -> Option<Seq<Shift>>
    decreases lines.len(),
{
    if lines.len() == 0 {
        Some(Seq::empty())
    } else {
        match section_shifts(lines.drop_last()) {
            Some(m) => if line_numbers(lines.last()).len() == 3 {
                match shift_of(line_numbers(lines.last())) {
                    Some(e) => Some(put_shift(m, e)),
                    None => None,
                }
            } else {
                Some(m)
            },
            None => None,
        }
    }
}

/// The numbers of every word of a line, if each reads as an `i64`.
pub open spec fn seed_numbers(line: Seq<char>) -> Option<Seq<i64>> {
    let words = words_of(line);
    if forall|i: int| 0 <= i < words.len() ==> (#[trigger] decimal_i64(words[i])) is Some {
        Some(words.map_values(|w: Seq<char>| decimal_i64(w)->0))
    } else {
        None
    }
}

/// The seed ranges, from pairs of a start and a length.
pub open spec fn seed_bounds(nums: Seq<i64>) -> Option<Seq<Bounds>> {
    if forall|k: int| 0 <= k < nums.len() / 2 ==> i64::MIN <= #[trigger] nums[2 * k] + nums[2 * k + 1] - 1 <= i64::MAX {
        Some(Seq::new((nums.len() / 2) as nat, |k: int| (nums[2 * k], (nums[2 * k] + nums[2 * k + 1] - 1) as i64)))
    } else {
        None
    }
}

/// The ranges after each map section in turn.
pub open spec fn after_maps(ranges: Seq<Bounds>, sections: Seq<Seq<char>>) -> Option<Seq<Bounds>>
    decreases sections.len(),
{
    if sections.len() == 0 {
        Some(ranges)
    } else {
        match after_maps(ranges, sections.drop_last()) {
            Some(r) => match section_shifts(split_on(sections.last(), '\n')) {
                Some(m) => settle(r, m),
                None => None,
            },
            None => None,
        }
    }
}

/// The least start of the ranges.
pub open spec fn min_start(rs: Seq<Bounds>) -> i64
    decreases rs.len(),
{
    if rs.len() <= 1 {
        rs[0].0
    } else if min_start(rs.drop_last()) <= rs.last().0 {
        min_start(rs.drop_last())
    } else {
        rs.last().0
    }
}

/// The numbers among the words.
fn numbers_among(words: &Vec<Vec<char>>) -> (nums: Vec<i64>)
    ensures
        nums@ == words@.map_values(|w: Vec<char>| w@).filter(|w: Seq<char>| decimal_i64(w) is Some).map_values(
            |w: Seq<char>| decimal_i64(w)->0,
        ),
{
    let ghost views = words@.map_values(|w: Vec<char>| w@);
    let mut nums: Vec<i64> = Vec::new();
    let mut i: usize = 0;
    while i < words.len()
        invariant
            i <= words@.len(),
            views == words@.map_values(|w: Vec<char>| w@),
            nums@ == views.take(i as int).filter(|w: Seq<char>| decimal_i64(w) is Some).map_values(
                |w: Seq<char>| decimal_i64(w)->0,
            ),
        decreases words@.len() - i,
    {
        proof {
            reveal_with_fuel(Seq::filter, 1);
            assert(views.take(i as int + 1).drop_last() =~= views.take(i as int));
        }
        match parse_i64(&words[i]) {
            Some(n) => {
                let ghost before = nums@;
                nums.push(n);
                assert(nums@ =~= views.take(i as int + 1).filter(|w: Seq<char>| decimal_i64(w) is Some).map_values(
                    |w: Seq<char>| decimal_i64(w)->0,
                ));
            },
            None => {},
        }
        i = i + 1;
    }
    assert(views.take(words@.len() as int) =~= views);
    nums
}

/// The shifts of a map section.
fn section_map(section: &String) -> (res: Option<Vec<(RangeInclusive<i64>, i64)>>)
    ensures
        res matches Some(v) ==> section_shifts(split_on(section@, '\n')) == Some(shifts(v@)) && fresh_keys(v@),
{
    let lines = split_chars(&chars_of(section.as_str()), '\n');
    let ghost views = lines@.map_values(|l: Vec<char>| l@);
    let mut map: Vec<(RangeInclusive<i64>, i64)> = Vec::new();
    let mut li: usize = 0;
    while li < lines.len()
        invariant
            li <= lines@.len(),
            views == lines@.map_values(|l: Vec<char>| l@),
            section_shifts(views.take(li as int)) == Some(shifts(map@)),
            fresh_keys(map@),
            forall|a: int, b: int|
                0 <= a < map@.len() && 0 <= b < map@.len() && pair((#[trigger] map@[a]).0) == pair((#[trigger] map@[b]).0) ==> a == b,
        decreases lines@.len() - li,
    {
        assert(views.take(li as int + 1).drop_last() =~= views.take(li as int));
        assert(views.take(li as int + 1).last() == lines@[li as int]@);
        let nums = numbers_among(&split_words(&lines[li]));
        if nums.len() == 3 {
            let (dst, src, len) = (nums[0], nums[1], nums[2]);
            let end = src as i128 + len as i128 - 1;
            let off = dst as i128 - src as i128;
            if end < i64::MIN as i128 || end > i64::MAX as i128 || off < i64::MIN as i128 || off > i64::MAX as i128 {
                return None;
            }
            let source_range = RangeInclusive::new(src, end as i64);
            let ghost e: Shift = ((src, end as i64), off as i64);
            let ghost m0 = shifts(map@);
            let mut k: usize = 0;
            let mut found = false;
            while k < map.len()
                invariant_except_break
                    !found,
                invariant
                    k <= map@.len(),
                    fresh_keys(map@),
                    forall|j: int| 0 <= j < k ==> pair((#[trigger] map@[j]).0) != (src, end as i64),
                ensures
                    found ==> k < map@.len() && pair(map@[k as int].0) == (src, end as i64),
                    !found ==> forall|j: int| 0 <= j < map@.len() ==> pair((#[trigger] map@[j]).0) != (src, end as i64),
                decreases map@.len() - k,
            {
                assert(!map@[k as int].0@.exhausted);
                if *map[k].0.start() == src && *map[k].0.end() == end as i64 {
                    found = true;
                    break;
                }
                k = k + 1;
            }
            let ghost keys_before = map@;
            if found {
                proof {
                    assert(m0[k as int].0 == e.0);
                    let c = choose|i: int| 0 <= i < m0.len() && (#[trigger] m0[i]).0 == e.0;
                    assert(pair(map@[c].0) == pair(map@[k as int].0));
                }
                map.set(k, (source_range, off as i64));
                assert(shifts(map@) =~= m0.update(k as int, e));
            } else {
                proof {
                    if exists|i: int| 0 <= i < m0.len() && (#[trigger] m0[i]).0 == e.0 {
                        let c = choose|i: int| 0 <= i < m0.len() && (#[trigger] m0[i]).0 == e.0;
                        assert(pair(map@[c].0) == e.0);
                    }
                }
                map.push((source_range, off as i64));
                assert(shifts(map@) =~= m0.push(e));
            }
            proof {
                assert forall|i: int| 0 <= i < map@.len() implies !(#[trigger] map@[i]).0@.exhausted by {
                    if i < keys_before.len() && (!found || i != k) {
                        assert(map@[i] == keys_before[i]);
                    }
                }
                assert forall|a: int, b: int|
                    0 <= a < map@.len() && 0 <= b < map@.len() && pair((#[trigger] map@[a]).0) == pair((#[trigger] map@[b]).0) implies a == b by {
                    if a < keys_before.len() && (!found || a != k) {
                        assert(map@[a] == keys_before[a]);
                    }
                    if b < keys_before.len() && (!found || b != k) {
                        assert(map@[b] == keys_before[b]);
                    }
                }
            }
        }
        li = li + 1;
    }
    assert(views.take(lines@.len() as int) =~= views);
    Some(map)
}

/// The seed ranges the seed section writes on its first line as pairs of
/// a start and a length.
fn seed_ranges_of(section: &String) -> (res: Option<Vec<RangeInclusive<i64>>>)
    ensures
        res matches Some(v) ==> ({
            let nums = seed_numbers(split_on(section@, '\n')[0]);
            &&& nums is Some
            &&& seed_bounds(nums->0) == Some(pairs(v@))
            &&& fresh(v@)
        }),
{
    let lines = split_chars(&chars_of(section.as_str()), '\n');
    proof {
        crate::parsing::lemma_split_not_empty(section@, '\n');
    }
    assert(lines@.map_values(|l: Vec<char>| l@)[0] == lines@[0]@);
    let words = split_words(&lines[0]);
    let ghost wv = words@.map_values(|w: Vec<char>| w@);
    let mut nums: Vec<i64> = Vec::new();
    let mut i: usize = 0;
    while i < words.len()
        invariant
            i <= words@.len(),
            wv == words@.map_values(|w: Vec<char>| w@),
            nums@.len() == i,
            forall|j: int| 0 <= j < i ==> decimal_i64(#[trigger] wv[j]) == Some(nums@[j]),
        decreases words@.len() - i,
    {
        let n = parse_i64(&words[i])?;
        nums.push(n);
        i = i + 1;
    }
    assert(forall|j: int| 0 <= j < wv.len() ==> (#[trigger] decimal_i64(wv[j])) is Some);
    assert(nums@ =~= wv.map_values(|w: Seq<char>| decimal_i64(w)->0));
    let mut ranges: Vec<RangeInclusive<i64>> = Vec::new();
    let mut k: usize = 0;
    while k < nums.len() / 2
        invariant
            k <= nums@.len() / 2,
            ranges@.len() == k,
            fresh(ranges@),
            forall|j: int| 0 <= j < k ==> i64::MIN <= #[trigger] nums@[2 * j] + nums@[2 * j + 1] - 1 <= i64::MAX,
            forall|j: int| 0 <= j < k ==> pair(#[trigger] ranges@[j]) == (nums@[2 * j], (nums@[2 * j] + nums@[2 * j + 1] - 1) as i64),
        decreases nums@.len() / 2 - k,
    {
        let start = nums[2 * k];
        let end = start as i128 + nums[2 * k + 1] as i128 - 1;
        if end < i64::MIN as i128 || end > i64::MAX as i128 {
            return None;
        }
        ranges.push(RangeInclusive::new(start, end as i64));
        k = k + 1;
    }
    assert(pairs(ranges@) =~= Seq::new((nums@.len() / 2) as nat, |j: int| (nums@[2 * j], (nums@[2 * j] + nums@[2 * j + 1] - 1) as i64)));
    Some(ranges)
}

/// The least start of the ranges.
fn least_start(ranges: &Vec<RangeInclusive<i64>>) -> (r: Option<i64>)
    ensures
        r matches Some(v) ==> ranges@.len() > 0 && v == min_start(pairs(ranges@)),
        r is None ==> ranges@.len() == 0,
{
    if ranges.len() == 0 {
        return None;
    }
    let mut best = *ranges[0].start();
    let mut i: usize = 1;
    while i < ranges.len()
        invariant
            1 <= i <= ranges@.len(),
            best == min_start(pairs(ranges@).take(i as int)),
        decreases ranges@.len() - i,
    {
        assert(pairs(ranges@).take(i as int + 1).drop_last() =~= pairs(ranges@).take(i as int));
        let s = *ranges[i].start();
        if s < best {
            best = s;
        }
        i = i + 1;
    }
    assert(pairs(ranges@).take(ranges@.len() as int) =~= pairs(ranges@));
    Some(best)
}

/// The lowest location: the seed ranges of the second section carried
/// through the map of each later section, and the least start among them.
/// `None` where there is no seed section or no range, where a word or a
/// number cannot be read, or a bound leaves the `i64` range.
pub fn convert_seeds(input: &Vec<String>) -> (lowest: Option<i64>)
    ensures
        lowest matches Some(v) ==> ({
            let views = input@.map_values(|s: String| s@);
            let nums = seed_numbers(split_on(views[1], '\n')[0]);
            &&& views.len() >= 2
            &&& nums is Some
            &&& seed_bounds(nums->0) is Some
            &&& after_maps(seed_bounds(nums->0)->0, views.subrange(2, views.len() as int)) matches Some(fin)
                && fin.len() > 0 && v == min_start(fin)
        }),
{
    if input.len() < 2 {
        return None;
    }
    let ghost views = input@.map_values(|s: String| s@);
    let mut seed_ranges = seed_ranges_of(&input[1])?;
    let ghost start = pairs(seed_ranges@);
    let mut idx: usize = 2;
    while idx < input.len()
        invariant
            2 <= idx <= input@.len(),
            views == input@.map_values(|s: String| s@),
            fresh(seed_ranges@),
            after_maps(start, views.subrange(2, idx as int)) == Some(pairs(seed_ranges@)),
        decreases input@.len() - idx,
    {
        let seed_map = section_map(&input[idx])?;
        assert(views.subrange(2, idx as int + 1).drop_last() =~= views.subrange(2, idx as int));
        assert(views.subrange(2, idx as int + 1).last() == input@[idx as int]@);
        seed_ranges = settle_ranges(seed_ranges, &seed_map)?;
        idx = idx + 1;
    }
    least_start(&seed_ranges)
}

} // verus!

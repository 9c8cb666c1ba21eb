//! Reports of levels, safe when they move steadily in one direction.
use vstd::prelude::*;
use crate::parsing::{all_decimal_u32, chars_of, parse_all_u32, split_words, words_of};

verus! {

/// Which way the level moves from `a` to `b`: 1 up, 0 level, -1 down.
pub open spec fn direction(a: u32, b: u32) -> i32 {
    if b > a {
        1
    } else if b == a {
        0
    } else {
        -1i32
    }
}

/// The level moves by at least one and at most three.
pub open spec fn step_in_range(a: u32, b: u32) -> bool {
    let d = if a >= b {
        a - b
    } else {
        b - a
    };
    1 <= d <= 3
}

/// Every step between neighbouring levels moves by one to three, and all
/// steps move the same way.
pub open spec fn report_safe(levels: Seq<u32>) -> bool {
    forall|i: int|
        0 <= i < levels.len() - 1 ==> step_in_range(#[trigger] levels[i], levels[i + 1]) && direction(
            levels[i],
            levels[i + 1],
        ) == direction(levels[0], levels[1])
}

/// The levels a report writes as numbers between white space, if every word
/// is one.
pub open spec fn levels_of_report(report: Seq<char>) -> Option<Seq<u32>> {
    all_decimal_u32(words_of(report))
}

/// Which way the level moves from `level_1` to `level_2`, and whether it
/// moves by one to three.
pub fn level_pair_is_safe(level_1: u32, level_2: u32) -> (r: (i32, bool))
    ensures
        r.0 == direction(level_1, level_2),
        r.1 == step_in_range(level_1, level_2),
{
    let diff = if level_1 >= level_2 {
        level_1 - level_2
    } else {
        level_2 - level_1
    };
    let diff_safe = 1 <= diff && diff <= 3;
    if level_2 > level_1 {
        (1, diff_safe)
    } else if level_2 == level_1 {
        (0, diff_safe)
    } else {
        (-1, diff_safe)
    }
}

/// Whether the report is safe.
pub fn is_report_safe(levels: &Vec<u32>) -> (safe: bool)
    ensures
        safe == report_safe(levels@),
{
    let mut i: usize = 1;
    while i < levels.len()
        invariant
            1 <= i,
            i <= levels@.len() || levels@.len() == 0,
            forall|j: int|
                0 <= j < i - 1 && j < levels@.len() - 1 ==> step_in_range(#[trigger] levels@[j], levels@[j + 1])
                    && direction(levels@[j], levels@[j + 1]) == direction(levels@[0], levels@[1]),
        decreases levels@.len() - i,
    {
        let (comparison, safe) = level_pair_is_safe(levels[i - 1], levels[i]);
        let (first_comparison, _) = level_pair_is_safe(levels[0], levels[1]);
        if comparison != first_comparison || !safe {
            assert(!(step_in_range(levels@[i - 1], levels@[(i - 1) + 1]) && direction(
                levels@[i - 1],
                levels@[(i - 1) + 1],
            ) == direction(levels@[0], levels@[1])));
            return false;
        }
        i = i + 1;
    }
    true
}

/// The levels of a report, or `None` if a word of it is not a number.
pub fn get_level_vec_from_report(s: &str) -> (levels: Option<Vec<u32>>)
    ensures
        levels matches Some(v) ==> levels_of_report(s@) == Some(v@),
        levels is None ==> levels_of_report(s@) is None,
{
    let chars = chars_of(s);
    let words = split_words(&chars);
    parse_all_u32(&words)
}

/// The report with each level left out in turn, the first level first.
pub fn generate_dampened_reports(levels: &Vec<u32>) -> (dampened: Vec<Vec<u32>>)
    ensures
        dampened@.len() == levels@.len(),
        forall|i: int| 0 <= i < levels@.len() ==> (#[trigger] dampened@[i])@ == levels@.remove(i),
{
    let mut dampened_reports: Vec<Vec<u32>> = Vec::new();
    let mut i: usize = 0;
    while i < levels.len()
        invariant
            i <= levels@.len(),
            dampened_reports@.len() == i,
            forall|j: int| 0 <= j < i ==> (#[trigger] dampened_reports@[j])@ == levels@.remove(j),
        decreases levels@.len() - i,
    {
        let mut dampened_vec: Vec<u32> = Vec::new();
        let mut k: usize = 0;
        while k < levels.len()
            invariant
                i < levels@.len(),
                k <= levels@.len(),
                dampened_vec@ == (if k <= i {
                    levels@.take(k as int)
                } else {
                    levels@.remove(i as int).take(k - 1)
                }),
            decreases levels@.len() - k,
        {
            if k != i {
                dampened_vec.push(levels[k]);
            }
            proof {
                if k < i {
                    assert(levels@.take(k + 1) =~= levels@.take(k as int).push(levels@[k as int]));
                } else if k == i {
                    assert(levels@.remove(i as int).take(k as int) =~= levels@.take(k as int));
                } else {
                    assert(levels@.remove(i as int).take(k as int) =~= levels@.remove(i as int).take(k - 1).push(
                        levels@[k as int],
                    ));
                }
            }
            k = k + 1;
        }
        assert(levels@.remove(i as int).take(levels@.len() - 1) =~= levels@.remove(i as int));
        dampened_reports.push(dampened_vec);
        i = i + 1;
    }
    dampened_reports
}

/// A report is safe, or would be with one level left out.
pub open spec fn report_tolerably_safe(levels: Seq<u32>) -> bool {
    report_safe(levels) || exists|i: int| 0 <= i < levels.len() && report_safe(#[trigger] levels.remove(i))
}

/// Whether the report is safe, or would be with one level left out.
pub fn is_report_tolerably_safe(levels: &Vec<u32>) -> (safe: bool)
    ensures
        safe == report_tolerably_safe(levels@),
{
    if is_report_safe(levels) {
        return true;
    }
    let dampened = generate_dampened_reports(levels);
    let mut i: usize = 0;
    while i < dampened.len()
        invariant
            i <= dampened@.len(),
            dampened@.len() == levels@.len(),
            forall|j: int| 0 <= j < levels@.len() ==> (#[trigger] dampened@[j])@ == levels@.remove(j),
            forall|j: int| 0 <= j < i ==> !report_safe(#[trigger] levels@.remove(j)),
        decreases dampened@.len() - i,
    {
        if is_report_safe(&dampened[i]) {
            assert(report_safe(levels@.remove(i as int)));
            return true;
        }
        i = i + 1;
    }
    false
}

} // verus!

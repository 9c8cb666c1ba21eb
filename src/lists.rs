//! Two columns of location ids, paired off smallest with smallest.
use vstd::prelude::*;
use crate::parsing::{chars_of, decimal_i32, parse_i32, split_chars, split_on, split_words, words_of};

verus! {

/// The numbers of every word of every line, if each word is one.
pub open spec fn column_numbers(lines: Seq<Seq<char>>) -> Option<Seq<i32>>
    decreases lines.len(),
{
    if lines.len() == 0 {
        Some(Seq::empty())
    } else {
        match (column_numbers(lines.drop_last()), line_numbers(lines.last())) {
            (Some(a), Some(b)) => Some(a + b),
            _ => None,
        }
    }
}

/// The numbers of the words of a line, if each word is one and they come
/// in pairs.
pub open spec fn line_numbers(line: Seq<char>) -> Option<Seq<i32>> {
    let words = words_of(line);
    if words.len() % 2 == 0 && forall|i: int| 0 <= i < words.len() ==> (#[trigger] decimal_i32(words[i])) is Some {
        Some(words.map_values(|w: Seq<char>| decimal_i32(w)->0))
    } else {
        None
    }
}

/// `v` in order from the smallest.
pub open spec fn sorted(v: Seq<i32>) -> bool {
    forall|i: int, j: int| 0 <= i <= j < v.len() ==> v[i] <= v[j]
}

/// Relies on `slice::sort`: it puts the elements in order from the
/// smallest and keeps each of them.
#[verifier::external_body]
fn sort_ids(v: &mut Vec<i32>)
    ensures
        sorted(final(v)@),
        final(v)@.to_multiset() == old(v)@.to_multiset(),
{
    v.sort();
}

/// The numbers of a line, if each word is one and they come in pairs.
fn numbers_of_line(line: &Vec<char>) -> (r: Option<Vec<i32>>)
    ensures
        r matches Some(v) ==> line_numbers(line@) == Some(v@),
        r is None ==> line_numbers(line@) is None,
{
    let words = split_words(line);
    let ghost views = words@.map_values(|w: Vec<char>| w@);
    if words.len() % 2 != 0 {
        return None;
    }
    let mut out: Vec<i32> = Vec::new();
    let mut i: usize = 0;
    while i < words.len()
        invariant
            i <= words@.len(),
            views == words@.map_values(|w: Vec<char>| w@),
            views == words_of(line@),
            out@.len() == i,
            forall|j: int| 0 <= j < i ==> decimal_i32(#[trigger] views[j]) == Some(out@[j]),
        decreases words@.len() - i,
    {
        match parse_i32(&words[i]) {
            Some(n) => out.push(n),
            None => {
                assert(decimal_i32(views[i as int]) is None);
                return None;
            },
        }
        i = i + 1;
    }
    assert(out@ =~= views.map_values(|w: Seq<char>| decimal_i32(w)->0));
    Some(out)
}

/// The left and right columns of the lines of `input`, each sorted from the
/// smallest: the words of each line are read in pairs, left then right.
/// `None` where a word is no number or a line has an odd number of words.
pub fn lists_from_text(input: &str) -> (r: Option<(Vec<i32>, Vec<i32>)>)
    ensures
        r matches Some((l, rt)) ==> ({
            let nums = column_numbers(split_on(input@, '\n'))->0;
            &&& column_numbers(split_on(input@, '\n')) is Some
            &&& nums.len() % 2 == 0
            &&& sorted(l@)
            &&& sorted(rt@)
            &&& l@.to_multiset() == Seq::new((nums.len() / 2) as nat, |k: int| nums[2 * k]).to_multiset()
            &&& rt@.to_multiset() == Seq::new((nums.len() / 2) as nat, |k: int| nums[2 * k + 1]).to_multiset()
        }),
{
    let lines = split_chars(&chars_of(input), '\n');
    let ghost views = lines@.map_values(|l: Vec<char>| l@);
    let mut nums: Vec<i32> = Vec::new();
    let mut li: usize = 0;
    while li < lines.len()
        invariant
            li <= lines@.len(),
            views == lines@.map_values(|l: Vec<char>| l@),
            views == split_on(input@, '\n'),
            column_numbers(views.take(li as int)) == Some(nums@),
        decreases lines@.len() - li,
    {
        let mut got = numbers_of_line(&lines[li])?;
        assert(views.take(li as int + 1).drop_last() =~= views.take(li as int));
        assert(views.take(li as int + 1).last() == lines@[li as int]@);
        nums.append(&mut got);
        li = li + 1;
    }
    assert(views.take(lines@.len() as int) =~= views);
    let ghost all = nums@;
    proof {
        lemma_even_count(views);
    }
    let mut left: Vec<i32> = Vec::new();
    let mut right: Vec<i32> = Vec::new();
    let mut k: usize = 0;
    while k + 1 < nums.len()
        invariant
            nums@ == all,
            all.len() % 2 == 0,
            k % 2 == 0,
            k <= nums@.len(),
            left@ == Seq::new((k / 2) as nat, |j: int| all[2 * j]),
            right@ == Seq::new((k / 2) as nat, |j: int| all[2 * j + 1]),
        decreases nums@.len() - k,
    {
        left.push(nums[k]);
        right.push(nums[k + 1]);
        assert(left@ =~= Seq::new(((k + 2) / 2) as nat, |j: int| all[2 * j]));
        assert(right@ =~= Seq::new(((k + 2) / 2) as nat, |j: int| all[2 * j + 1]));
        k = k + 2;
    }
    assert(k == nums@.len());
    sort_ids(&mut left);
    sort_ids(&mut right);
    Some((left, right))
}

/// Every line contributes pairs, so the numbers come in pairs.
proof fn lemma_even_count(lines: Seq<Seq<char>>)
    requires
        column_numbers(lines) is Some,
    ensures
        (column_numbers(lines)->0).len() % 2 == 0,
    decreases lines.len(),
{
    if lines.len() > 0 {
        lemma_even_count(lines.drop_last());
    }
}

/// The sum of the distances between the paired ids.
pub open spec fn distance_sum(left: Seq<i32>, right: Seq<i32>) -> int
    decreases left.len(),
{
    if left.len() == 0 || right.len() == 0 {
        0
    } else {
        distance_sum(left.drop_last(), right.drop_last()) + if left.last() >= right.last() {
            left.last() - right.last()
        } else {
            right.last() - left.last()
        }
    }
}

/// The sum of the distances between the ids paired in order, or `None`
/// where it leaves the `u32` range.
pub fn total_distance(left: &Vec<i32>, right: &Vec<i32>) -> (total: Option<u32>)
    requires
        left@.len() == right@.len(),
    ensures
        total matches Some(t) ==> t == distance_sum(left@, right@),
{
    let mut total: u64 = 0;
    let mut i: usize = 0;
    while i < left.len()
        invariant
            left@.len() == right@.len(),
            i <= left@.len(),
            total == distance_sum(left@.take(i as int), right@.take(i as int)),
            total <= u32::MAX,
        decreases left@.len() - i,
    {
        let a = left[i] as i64;
        let b = right[i] as i64;
        let d: u64 = if a >= b {
            (a - b) as u64
        } else {
            (b - a) as u64
        };
        assert(left@.take(i as int + 1).drop_last() =~= left@.take(i as int));
        assert(right@.take(i as int + 1).drop_last() =~= right@.take(i as int));
        if total + d > 0xffff_ffff {
            return None;
        }
        total = total + d;
        i = i + 1;
    }
    assert(left@.take(left@.len() as int) =~= left@);
    assert(right@.take(right@.len() as int) =~= right@);
    Some(total as u32)
}

} // verus!

//! Boat races: holding the button for `choice` of the race's `t` milliseconds
//! gives speed `choice` for the rest of it.
use vstd::prelude::*;
use crate::parsing::{chars_of, decimal_u64, parse_u64, split_chars, split_on};

verus! {

/// The distance travelled when holding the button for `choice`.
pub open spec fn distance(t_lim: int, choice: int) -> int {
    (t_lim - choice) * choice
}

/// Whether holding for `choice` goes farther than the record `d_lim`.
pub fn beats_record(t_lim: u64, d_lim: u64, choice: u64) -> (r: bool)
    requires
        choice <= t_lim,
        distance(t_lim as int, choice as int) <= u64::MAX,
    ensures
        r == (distance(t_lim as int, choice as int) > d_lim),
{
    (t_lim - choice) * choice > d_lim
}

/// The least winning choice, from the lower root rounded up.
pub open spec fn lowest_win(t_lim: int, d_lim: int, low_root_ceil: int) -> int {
    if distance(t_lim, low_root_ceil) > d_lim {
        low_root_ceil
    } else {
        low_root_ceil + 1
    }
}

/// The greatest winning choice, from the upper root rounded down.
pub open spec fn highest_win(t_lim: int, d_lim: int, high_root_floor: int) -> int {
    if distance(t_lim, high_root_floor) > d_lim {
        high_root_floor
    } else {
        high_root_floor - 1
    }
}

/// The number of whole choices that beat the record, from the roots of
/// `-x^2 + t*x - d = 0` rounded inwards: the lower one rounded up, the upper
/// one rounded down. A rounded root that ties the record is moved one
/// further in.
pub fn wins_between_roots(t_lim: u64, d_lim: u64, low_root_ceil: u64, high_root_floor: u64) -> (n: u64)
    requires
        low_root_ceil < high_root_floor <= t_lim < u64::MAX,
        distance(t_lim as int, low_root_ceil as int) <= u64::MAX,
        distance(t_lim as int, high_root_floor as int) <= u64::MAX,
        lowest_win(t_lim as int, d_lim as int, low_root_ceil as int) <= highest_win(
            t_lim as int,
            d_lim as int,
            high_root_floor as int,
        ),
    ensures
        n == highest_win(t_lim as int, d_lim as int, high_root_floor as int) - lowest_win(
            t_lim as int,
            d_lim as int,
            low_root_ceil as int,
        ) + 1,
{
    let lower_bound = if beats_record(t_lim, d_lim, low_root_ceil) {
        low_root_ceil
    } else {
        low_root_ceil + 1
    };
    let upper_bound = if beats_record(t_lim, d_lim, high_root_floor) {
        high_root_floor
    } else {
        high_root_floor - 1
    };
    upper_bound - lower_bound + 1
}

/// `s` with each colon read as a space.
pub open spec fn colons_as_spaces(s: Seq<char>) -> Seq<char> {
    s.map_values(|c: char| if c == ':' {
        ' '
    } else {
        c
    })
}

/// The numbers of a line: the pieces between colons and spaces that read as
/// a `u64`, in order.
pub open spec fn race_numbers(line: Seq<char>) -> Seq<u64> {
    split_on(colons_as_spaces(line), ' ').filter(|p: Seq<char>| decimal_u64(p) is Some).map_values(
        |p: Seq<char>| decimal_u64(p)->0,
    )
}

/// How many decimal digits `n` is written with.
pub open spec fn digit_count(n: nat) -> nat
    decreases n,
{
    if n < 10 {
        1
    } else {
        1 + digit_count(n / 10)
    }
}

/// Ten to the power `k`.
pub open spec fn pow10(k: nat) -> nat
    decreases k,
{
    if k == 0 {
        1
    } else {
        10 * pow10((k - 1) as nat)
    }
}

/// The number written by the digits of the numbers one after another.
pub open spec fn joined_value(nums: Seq<u64>) -> int
    decreases nums.len(),
{
    if nums.len() == 0 {
        0
    } else {
        joined_value(nums.drop_last()) * pow10(digit_count(nums.last() as nat)) + nums.last()
    }
}

/// Ten to the number of digits of `n`.
fn digits_scale(n: u64) -> (p: u128)
    ensures
        p == pow10(digit_count(n as nat)),
        p <= 10 * 0xffff_ffff_ffff_ffffu128,
{
    let mut p: u128 = 1;
    let mut m: u64 = n;
    loop
        invariant
            pow10(digit_count(n as nat)) == p * pow10(digit_count(m as nat)),
            1 <= p,
            p * m <= n,
            p > 1 ==> m >= 1,
        decreases m,
    {
        if m < 10 {
            proof {
                reveal_with_fuel(pow10, 2);
                assert(pow10(digit_count(m as nat)) == 10);
                assert(p <= 0xffff_ffff_ffff_ffffu128) by (nonlinear_arith)
                    requires
                        p * m <= n,
                        1 <= p,
                        n <= 0xffff_ffff_ffff_ffffu128,
                        p > 1 ==> m >= 1,
                ;
            }
            return p * 10;
        }
        proof {
            assert(digit_count(m as nat) == 1 + digit_count((m / 10) as nat));
            assert(pow10(digit_count(m as nat)) == 10 * pow10(digit_count((m / 10) as nat)));
            assert((p * 10) * (m / 10) <= p * m) by (nonlinear_arith)
                requires
                    p >= 1,
                    m >= 10,
            ;
            assert(p * 10 <= n) by (nonlinear_arith)
                requires
                    p * m <= n,
                    m >= 10,
                    p >= 1,
            ;
            assert(p * pow10(digit_count(m as nat)) == (p * 10) * pow10(digit_count((m / 10) as nat))) by (nonlinear_arith)
                requires
                    pow10(digit_count(m as nat)) == 10 * pow10(digit_count((m / 10) as nat)),
            ;
        }
        p = p * 10;
        m = m / 10;
    }
}

/// The numbers of a line.
fn numbers_of_race_line(line: &Vec<char>) -> (nums: Vec<u64>)
    ensures
        nums@ == race_numbers(line@),
{
    let mut spaced: Vec<char> = Vec::new();
    let mut i: usize = 0;
    while i < line.len()
        invariant
            i <= line@.len(),
            spaced@ == colons_as_spaces(line@.take(i as int)),
        decreases line@.len() - i,
    {
        let c = line[i];
        spaced.push(if c == ':' {
            ' '
        } else {
            c
        });
        assert(colons_as_spaces(line@.take(i as int + 1)) =~= colons_as_spaces(line@.take(i as int)).push(
            if c == ':' {
                ' '
            } else {
                c
            },
        ));
        i = i + 1;
    }
    assert(line@.take(line@.len() as int) =~= line@);
    let parts = split_chars(&spaced, ' ');
    let ghost pv = parts@.map_values(|p: Vec<char>| p@);
    let mut nums: Vec<u64> = Vec::new();
    let mut k: usize = 0;
    while k < parts.len()
        invariant
            k <= parts@.len(),
            pv == parts@.map_values(|p: Vec<char>| p@),
            nums@ == pv.take(k as int).filter(|p: Seq<char>| decimal_u64(p) is Some).map_values(
                |p: Seq<char>| decimal_u64(p)->0,
            ),
        decreases parts@.len() - k,
    {
        proof {
            reveal_with_fuel(Seq::filter, 1);
            assert(pv.take(k as int + 1).drop_last() =~= pv.take(k as int));
        }
        match parse_u64(&parts[k]) {
            Some(n) => {
                nums.push(n);
                assert(nums@ =~= pv.take(k as int + 1).filter(|p: Seq<char>| decimal_u64(p) is Some).map_values(
                    |p: Seq<char>| decimal_u64(p)->0,
                ));
            },
            None => {},
        }
        k = k + 1;
    }
    assert(pv.take(parts@.len() as int) =~= pv);
    nums
}

/// The number written by the digits of the numbers one after another, if
/// it fits in a `u64`.
fn joined_number(nums: &Vec<u64>) -> (r: Option<u64>)
    ensures
        r matches Some(v) ==> v == joined_value(nums@),
{
    let mut acc: u128 = 0;
    let mut i: usize = 0;
    while i < nums.len()
        invariant
            i <= nums@.len(),
            acc == joined_value(nums@.take(i as int)),
            acc <= u64::MAX,
        decreases nums@.len() - i,
    {
        assert(nums@.take(i as int + 1).drop_last() =~= nums@.take(i as int));
        let scale = digits_scale(nums[i]);
        if acc != 0 && scale > 0xffff_ffff_ffff_ffff {
            return None;
        }
        assert(acc * scale <= 0xffff_ffff_ffff_ffffu128 * 0xffff_ffff_ffff_ffffu128) by (nonlinear_arith)
            requires
                acc <= 0xffff_ffff_ffff_ffffu128,
                acc == 0 || scale <= 0xffff_ffff_ffff_ffffu128,
        ;
        let next = acc * scale + nums[i] as u128;
        if next > 0xffff_ffff_ffff_ffff {
            return None;
        }
        acc = next;
        i = i + 1;
    }
    assert(nums@.take(nums@.len() as int) =~= nums@);
    Some(acc as u64)
}

/// The race of the two lines of times and records: the numbers of each
/// line read as one, by their digits run together. `None` where the lines
/// hold different counts of numbers, or a number does not fit in a `u64`.
pub fn race_from_lines(time_line: &str, distance_line: &str) -> (race: Option<(u64, u64)>)
    ensures
        race matches Some((t, d)) ==> ({
            &&& race_numbers(time_line@).len() == race_numbers(distance_line@).len()
            &&& t == joined_value(race_numbers(time_line@))
            &&& d == joined_value(race_numbers(distance_line@))
        }),
{
    let time_vec = numbers_of_race_line(&chars_of(time_line));
    let dist_vec = numbers_of_race_line(&chars_of(distance_line));
    if time_vec.len() != dist_vec.len() {
        return None;
    }
    let t = joined_number(&time_vec)?;
    let d = joined_number(&dist_vec)?;
    Some((t, d))
}

} // verus!

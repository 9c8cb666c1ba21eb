//! Calibration values: the first and the last digit of a line, read as one
//! two-digit number.
use vstd::prelude::*;
use crate::parsing::{chars_of, string_of};

verus! {

/// Whether `a` is a decimal digit.
pub fn is_digit(a: char) -> (r: bool)
    ensures
        r == ('0' <= a <= '9'),
{
    a == '0' || a == '1' || a == '2' || a == '3' || a == '4' || a == '5' || a == '6' || a == '7'
        || a == '8' || a == '9'
}

/// The value of a decimal digit.
pub open spec fn digit_value(c: char) -> int {
    c as int - '0' as int
}

/// A decimal digit.
pub open spec fn is_digit_char(c: char) -> bool {
    '0' <= c <= '9'
}

/// `s[i]` is the first digit of `s`.
pub open spec fn is_first_digit(s: Seq<char>, i: int) -> bool {
    0 <= i < s.len() && is_digit_char(s[i]) && forall|j: int| 0 <= j < i ==> !is_digit_char(#[trigger] s[j])
}

/// `s[i]` is the last digit of `s`.
pub open spec fn is_last_digit(s: Seq<char>, i: int) -> bool {
    0 <= i < s.len() && is_digit_char(s[i]) && forall|j: int| i < j < s.len() ==> !is_digit_char(#[trigger] s[j])
}

/// Ten times the first digit of `s` plus its last digit, each counting as
/// nothing when `s` holds no digit.
pub open spec fn digit_sum(s: Seq<char>) -> int {
    if exists|i: int| 0 <= i < s.len() && is_digit_char(#[trigger] s[i]) {
        let f = choose|i: int| #[trigger] is_first_digit(s, i);
        let l = choose|i: int| #[trigger] is_last_digit(s, i);
        10 * digit_value(s[f]) + digit_value(s[l])
    } else {
        0
    }
}

/// Ten times the first digit of `s` plus its last digit.
pub fn get_digit_sum(s: &String) -> (sum: u32)
    ensures
        sum == digit_sum(s@),
{
    let chars = chars_of(s.as_str());
    let n = chars.len();
    let mut sum: u32 = 0;
    let mut first: Option<usize> = None;
    let mut i: usize = 0;
    while i < n
        invariant_except_break
            first is None,
        invariant
            n == chars@.len(),
            chars@ == s@,
            i <= n,
            forall|j: int| 0 <= j < i ==> !is_digit_char(#[trigger] chars@[j]),
        ensures
            first matches Some(f) ==> f < n && is_digit_char(chars@[f as int]) && forall|j: int|
                0 <= j < f ==> !is_digit_char(#[trigger] chars@[j]),
            first is None ==> forall|j: int| 0 <= j < n ==> !is_digit_char(#[trigger] chars@[j]),
        decreases n - i,
    {
        if is_digit(chars[i]) {
            first = Some(i);
            break;
        }
        i = i + 1;
    }
    match first {
        None => {
            assert(!exists|k: int| 0 <= k < s@.len() && is_digit_char(#[trigger] s@[k]));
            0
        },
        Some(f) => {
            sum = sum + 10 * (chars[f] as u32 - '0' as u32);
            let mut k: usize = n;
            while k > 0
                invariant
                    n == chars@.len(),
                    chars@ == s@,
                    f < n,
                    '0' <= chars@[f as int] <= '9',
                    k <= n,
                    forall|j: int| 0 <= j < f ==> !is_digit_char(#[trigger] chars@[j]),
                    forall|j: int| k <= j < n ==> !is_digit_char(#[trigger] chars@[j]),
                    sum == 10 * digit_value(chars@[f as int]),
                decreases k,
            {
                if is_digit(chars[k - 1]) {
                    let last = k - 1;
                    proof {
                        assert(is_first_digit(s@, f as int));
                        assert(is_last_digit(s@, last as int));
                        let fi = choose|i: int| #[trigger] is_first_digit(s@, i);
                        let li = choose|i: int| #[trigger] is_last_digit(s@, i);
                        if fi < f {
                            assert(!is_digit_char(s@[fi]));
                        }
                        if f < fi {
                            assert(!is_digit_char(s@[f as int]));
                        }
                        if li < last {
                            assert(!is_digit_char(s@[last as int]));
                        }
                        if last < li {
                            assert(!is_digit_char(s@[li]));
                        }
                    }
                    return sum + (chars[last] as u32 - '0' as u32);
                }
                k = k - 1;
            }
            proof {
                assert(!is_digit_char(chars@[f as int]));
            }
            sum
        },
    }
}

/// The digit a written-out number stands for: three, four or five letters.
pub open spec fn spelled_digit(w: Seq<char>) -> Option<char> {
    if w == seq!['o', 'n', 'e'] {
        Some('1')
    } else if w == seq!['t', 'w', 'o'] {
        Some('2')
    } else if w == seq!['s', 'i', 'x'] {
        Some('6')
    } else if w == seq!['z', 'e', 'r', 'o'] {
        Some('0')
    } else if w == seq!['f', 'o', 'u', 'r'] {
        Some('4')
    } else if w == seq!['f', 'i', 'v', 'e'] {
        Some('5')
    } else if w == seq!['n', 'i', 'n', 'e'] {
        Some('9')
    } else if w == seq!['t', 'h', 'r', 'e', 'e'] {
        Some('3')
    } else if w == seq!['s', 'e', 'v', 'e', 'n'] {
        Some('7')
    } else if w == seq!['e', 'i', 'g', 'h', 't'] {
        Some('8')
    } else {
        None
    }
}

/// `s` with the `n` characters from `idx` replaced by their digit, if they
/// spell one out.
pub open spec fn replaced_at(s: Seq<char>, idx: int, n: int) -> Option<Seq<char>> {
    if 0 <= idx && idx + n <= s.len() && spelled_digit(s.subrange(idx, idx + n)) is Some {
        Some(s.subrange(0, idx).push(spelled_digit(s.subrange(idx, idx + n))->0) + s.subrange(idx + n, s.len() as int))
    } else {
        None
    }
}

/// The first replacement found scanning from `idx` to `end`, trying three,
/// four and five letters at each place.
pub open spec fn first_forward(s: Seq<char>, idx: int, end: int) -> Option<Seq<char>>
    decreases end - idx + 1,
{
    if idx > end {
        None
    } else if replaced_at(s, idx, 3) is Some {
        replaced_at(s, idx, 3)
    } else if replaced_at(s, idx, 4) is Some {
        replaced_at(s, idx, 4)
    } else if replaced_at(s, idx, 5) is Some {
        replaced_at(s, idx, 5)
    } else {
        first_forward(s, idx + 1, end)
    }
}

/// The first replacement found scanning back from `idx` to the start,
/// trying five, four and three letters at each place.
pub open spec fn first_backward(s: Seq<char>, idx: int) -> Option<Seq<char>>
    decreases idx + 1,
{
    if idx < 0 {
        None
    } else if replaced_at(s, idx, 5) is Some {
        replaced_at(s, idx, 5)
    } else if replaced_at(s, idx, 4) is Some {
        replaced_at(s, idx, 4)
    } else if replaced_at(s, idx, 3) is Some {
        replaced_at(s, idx, 3)
    } else {
        first_backward(s, idx - 1)
    }
}

/// `s` after the forward pass: the first written-out number from the
/// start that a window of three to five letters finds, with the last four
/// and three places tried after the scan.
pub open spec fn forward_pass(s: Seq<char>) -> Seq<char> {
    let len = s.len() as int;
    let scanned = if len >= 5 {
        first_forward(s, 0, len - 5)
    } else {
        None
    };
    if scanned is Some {
        scanned->0
    } else if len >= 4 && replaced_at(s, len - 4, 3) is Some {
        replaced_at(s, len - 4, 3)->0
    } else if len >= 4 && replaced_at(s, len - 4, 4) is Some {
        replaced_at(s, len - 4, 4)->0
    } else if len >= 3 && replaced_at(s, len - 3, 3) is Some {
        replaced_at(s, len - 3, 3)->0
    } else {
        s
    }
}

/// `s` after the backward pass: the last three letters, then four from the
/// fourth last place, then a scan back from the end.
pub open spec fn backward_pass(s: Seq<char>) -> Seq<char> {
    let len = s.len() as int;
    if len >= 3 && replaced_at(s, len - 3, 3) is Some {
        replaced_at(s, len - 3, 3)->0
    } else if len >= 4 {
        if replaced_at(s, len - 4, 4) is Some {
            replaced_at(s, len - 4, 4)->0
        } else if replaced_at(s, len - 4, 3) is Some {
            replaced_at(s, len - 4, 3)->0
        } else if len >= 5 && first_backward(s, len - 5) is Some {
            first_backward(s, len - 5)->0
        } else {
            s
        }
    } else {
        s
    }
}

/// The digit the `n` characters from `idx` spell out, if any.
fn spelled_digit_at(s: &Vec<char>, idx: usize, n: usize) -> (d: Option<char>)
    requires
        3 <= n <= 5,
        idx + n <= s@.len(),
    ensures
        d == spelled_digit(s@.subrange(idx as int, idx + n)),
{
    let ghost w = s@.subrange(idx as int, idx + n);
    let len = s.len();
    assert(idx + n <= len);
    let a = s[idx];
    let b = s[idx + 1];
    let c = s[idx + 2];
    if n == 3 {
        assert(w =~= seq![a, b, c]);
        if a == 'o' && b == 'n' && c == 'e' {
            return Some('1');
        } else if a == 't' && b == 'w' && c == 'o' {
            return Some('2');
        } else if a == 's' && b == 'i' && c == 'x' {
            return Some('6');
        }
        return None;
    }
    let e = s[idx + 3];
    if n == 4 {
        assert(w =~= seq![a, b, c, e]);
        if a == 'z' && b == 'e' && c == 'r' && e == 'o' {
            return Some('0');
        } else if a == 'f' && b == 'o' && c == 'u' && e == 'r' {
            return Some('4');
        } else if a == 'f' && b == 'i' && c == 'v' && e == 'e' {
            return Some('5');
        } else if a == 'n' && b == 'i' && c == 'n' && e == 'e' {
            return Some('9');
        }
        assert(w.len() == 4);
        return None;
    }
    let f = s[idx + 4];
    assert(w =~= seq![a, b, c, e, f]);
    if a == 't' && b == 'h' && c == 'r' && e == 'e' && f == 'e' {
        Some('3')
    } else if a == 's' && b == 'e' && c == 'v' && e == 'e' && f == 'n' {
        Some('7')
    } else if a == 'e' && b == 'i' && c == 'g' && e == 'h' && f == 't' {
        Some('8')
    } else {
        None
    }
}

/// Replaces the `n` characters from `idx` by their digit if they spell one
/// out; says whether it did.
fn check_and_replace(s: &mut Vec<char>, idx: usize, n: usize) -> (replaced: bool)
    requires
        3 <= n <= 5,
    ensures
        replaced == (replaced_at(old(s)@, idx as int, n as int) is Some),
        replaced ==> final(s)@ == replaced_at(old(s)@, idx as int, n as int)->0,
        !replaced ==> final(s)@ == old(s)@,
{
    if idx > s.len() || n > s.len() - idx {
        return false;
    }
    match spelled_digit_at(s, idx, n) {
        None => false,
        Some(d) => {
            let mut out: Vec<char> = Vec::new();
            let mut i: usize = 0;
            while i < idx
                invariant
                    i <= idx,
                    idx + n <= s@.len(),
                    out@ == s@.subrange(0, i as int),
                decreases idx - i,
            {
                out.push(s[i]);
                assert(s@.subrange(0, i as int + 1) =~= s@.subrange(0, i as int).push(s@[i as int]));
                i = i + 1;
            }
            out.push(d);
            let mut j: usize = idx + n;
            let ghost head = out@;
            while j < s.len()
                invariant
                    idx + n <= j <= s@.len(),
                    out@ == head + s@.subrange(idx + n, j as int),
                decreases s@.len() - j,
            {
                out.push(s[j]);
                assert(s@.subrange(idx + n, j as int + 1) =~= s@.subrange(idx + n, j as int).push(s@[j as int]));
                j = j + 1;
            }
            *s = out;
            true
        },
    }
}

/// Replaces the first and the last written-out number of a line by its
/// digit: a forward pass, then a backward pass on its result.
pub fn replace_written_numbers(input_string: String) -> (r: String)
    ensures
        r@ == backward_pass(forward_pass(input_string@)),
{
    let mut s = chars_of(input_string.as_str());
    let ghost s0 = s@;
    let mut found = false;
    if s.len() >= 5 {
        let end_idx = s.len() - 5;
        let mut idx: usize = 0;
        while idx <= end_idx
            invariant_except_break
                s@ == s0,
                !found,
            invariant
                end_idx == s0.len() - 5,
                end_idx <= usize::MAX - 5,
                idx <= end_idx + 1,
                first_forward(s0, 0, end_idx as int) == first_forward(s0, idx as int, end_idx as int),
            ensures
                found ==> first_forward(s0, 0, end_idx as int) == Some(s@),
                !found ==> s@ == s0 && first_forward(s0, 0, end_idx as int) is None,
            decreases end_idx + 1 - idx,
        {
            if check_and_replace(&mut s, idx, 3) {
                found = true;
                break;
            } else if check_and_replace(&mut s, idx, 4) {
                found = true;
                break;
            } else if check_and_replace(&mut s, idx, 5) {
                found = true;
                break;
            }
            idx = idx + 1;
        }
    }
    if !found && s.len() >= 4 {
        let idx = s.len() - 4;
        if check_and_replace(&mut s, idx, 3) {
            found = true;
        } else if check_and_replace(&mut s, idx, 4) {
            found = true;
        }
    }
    if !found && s.len() >= 3 {
        let idx = s.len() - 3;
        check_and_replace(&mut s, idx, 3);
    }
    assert(s@ == forward_pass(s0));
    let ghost s1 = s@;
    let mut found_reverse = false;
    if s.len() >= 3 {
        let end_idx = s.len() - 3;
        if check_and_replace(&mut s, end_idx, 3) {
            found_reverse = true;
        }
    }
    if !found_reverse && s.len() >= 4 {
        let end_idx = s.len() - 4;
        if check_and_replace(&mut s, end_idx, 4) {
            found_reverse = true;
        } else if check_and_replace(&mut s, end_idx, 3) {
            found_reverse = true;
        }
        if !found_reverse && s.len() >= 5 {
            let mut idx: usize = s.len() - 5;
            loop
                invariant_except_break
                    s@ == s1,
                invariant
                    idx <= s1.len() - 5,
                    s1.len() >= 5,
                    first_backward(s1, s1.len() - 5) == first_backward(s1, idx as int),
                ensures
                    first_backward(s1, s1.len() - 5) matches Some(r) ==> s@ == r,
                    first_backward(s1, s1.len() - 5) is None ==> s@ == s1,
                decreases idx,
            {
                if check_and_replace(&mut s, idx, 5) {
                    break;
                } else if check_and_replace(&mut s, idx, 4) {
                    break;
                } else if check_and_replace(&mut s, idx, 3) {
                    break;
                }
                if idx == 0 {
                    assert(first_backward(s1, -1) is None);
                    break;
                }
                idx = idx - 1;
            }
        }
    }
    assert(s@ == backward_pass(s1));
    string_of(&s)
}

} // verus!

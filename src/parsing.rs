//! Reading unsigned decimal numbers out of lines of text.
use vstd::prelude::*;
use vstd::string::StrSliceExecFns;

verus! {

/// A decimal digit.
pub open spec fn is_digit_char(c: char) -> bool {
    '0' <= c <= '9'
}

/// The value of the digits of `s`, most significant first.
pub open spec fn digits_value(s: Seq<char>) -> int
    decreases s.len(),
{
    if s.len() == 0 {
        0
    } else {
        digits_value(s.drop_last()) * 10 + (s.last() as int - '0' as int)
    }
}

/// The digits of a number written with an optional leading `+`.
pub open spec fn unsigned_digits(s: Seq<char>) -> Seq<char> {
    if s.len() > 0 && s[0] == '+' {
        s.drop_first()
    } else {
        s
    }
}

/// The number that `s` writes in decimal, with an optional leading `+`, if
/// it writes one that fits in a `u32`.
pub open spec fn decimal_u32(s: Seq<char>) -> Option<u32> {
    let d = unsigned_digits(s);
    if d.len() > 0 && (forall|i: int| 0 <= i < d.len() ==> is_digit_char(#[trigger] d[i]))
        && digits_value(d) <= u32::MAX {
        Some(digits_value(d) as u32)
    } else {
        None
    }
}

/// The pieces of `s` between the separators, as `str::split` gives them:
/// an empty `s` is one empty piece.
pub open spec fn split_on(s: Seq<char>, sep: char) -> Seq<Seq<char>>
    decreases s.len(),
{
    if s.len() == 0 {
        seq![Seq::empty()]
    } else {
        let parts = split_on(s.drop_last(), sep);
        if s.last() == sep {
            parts.push(Seq::empty())
        } else {
            parts.update(parts.len() - 1, parts.last().push(s.last()))
        }
    }
}

/// There is always at least one piece.
pub proof fn lemma_split_not_empty(s: Seq<char>, sep: char)
    ensures
        split_on(s, sep).len() >= 1,
    decreases s.len(),
{
    if s.len() > 0 {
        lemma_split_not_empty(s.drop_last(), sep);
    }
}

/// Digits value grows by one digit at the end.
proof fn lemma_digits_bound(s: Seq<char>)
    requires
        forall|i: int| 0 <= i < s.len() ==> is_digit_char(#[trigger] s[i]),
    ensures
        digits_value(s) >= 0,
    decreases s.len(),
{
    if s.len() > 0 {
        lemma_digits_bound(s.drop_last());
    }
}

/// The number that `s` writes in decimal, if it writes one that fits a `u32`.
pub fn parse_u32(s: &Vec<char>) -> (r: Option<u32>)
    ensures
        r == decimal_u32(s@),
{
    let start: usize = if s.len() > 0 && s[0] == '+' {
        1
    } else {
        0
    };
    let ghost d = unsigned_digits(s@);
    assert(d =~= s@.skip(start as int));
    if start >= s.len() {
        return None;
    }
    let mut value: u64 = 0;
    let mut i: usize = start;
    while i < s.len()
        invariant
            start <= i <= s@.len(),
            d == unsigned_digits(s@),
            d =~= s@.skip(start as int),
            forall|j: int| 0 <= j < i - start ==> is_digit_char(#[trigger] d[j]),
            value == digits_value(d.take(i - start)),
            value <= u32::MAX,
        decreases s@.len() - i,
    {
        let c = s[i];
        assert(d[i - start] == c);
        if !('0' <= c && c <= '9') {
            assert(!is_digit_char(d[i - start]));
            return None;
        }
        let ghost k = i - start;
        assert(d.take(k + 1).drop_last() =~= d.take(k));
        assert(d.take(k + 1).last() == c);
        value = value * 10 + (c as u64 - '0' as u64);
        if value > 0xffff_ffff {
            proof {
                assert forall|j: int| 0 <= j < k + 1 implies is_digit_char(#[trigger] d.take(k + 1)[j]) by {
                    assert(d.take(k + 1)[j] == d[j]);
                }
                if forall|j: int| 0 <= j < d.len() ==> is_digit_char(#[trigger] d[j]) {
                    lemma_digits_grow(d, k + 1);
                }
            }
            return None;
        }
        i = i + 1;
    }
    assert(d.take(d.len() as int) =~= d);
    Some(value as u32)
}

/// Appending digits never makes the value smaller.
proof fn lemma_digits_grow(d: Seq<char>, n: int)
    requires
        0 <= n <= d.len(),
        forall|i: int| 0 <= i < d.len() ==> is_digit_char(#[trigger] d[i]),
    ensures
        digits_value(d) >= digits_value(d.take(n)),
    decreases d.len() - n,
{
    if n < d.len() {
        lemma_digits_grow(d, n + 1);
        assert(d.take(n + 1).drop_last() =~= d.take(n));
        assert forall|i: int| 0 <= i < n implies is_digit_char(#[trigger] d.take(n)[i]) by {
            assert(d.take(n)[i] == d[i]);
        }
        lemma_digits_bound(d.take(n));
    } else {
        assert(d.take(n) =~= d);
    }
}

/// The characters of `s`.
pub fn chars_of(s: &str) -> (r: Vec<char>)
    ensures
        r@ == s@,
{
    let n = s.unicode_len();
    let mut r: Vec<char> = Vec::new();
    let mut i: usize = 0;
    while i < n
        invariant
            n == s@.len(),
            i <= n,
            r@ == s@.take(i as int),
        decreases n - i,
    {
        r.push(s.get_char(i));
        assert(s@.take(i as int + 1) =~= s@.take(i as int).push(s@[i as int]));
        i = i + 1;
    }
    assert(s@.take(n as int) =~= s@);
    r
}

/// The pieces of `s` between the separators.
pub fn split_chars(s: &Vec<char>, sep: char) -> (parts: Vec<Vec<char>>)
    ensures
        parts@.map_values(|p: Vec<char>| p@) == split_on(s@, sep),
{
    let mut parts: Vec<Vec<char>> = Vec::new();
    let mut current: Vec<char> = Vec::new();
    let mut i: usize = 0;
    while i < s.len()
        invariant
            i <= s@.len(),
            parts@.map_values(|p: Vec<char>| p@).push(current@) == split_on(s@.take(i as int), sep),
        decreases s@.len() - i,
    {
        let c = s[i];
        let ghost before = parts@.map_values(|p: Vec<char>| p@).push(current@);
        assert(s@.take(i as int + 1).drop_last() =~= s@.take(i as int));
        if c == sep {
            let done = current;
            parts.push(done);
            current = Vec::new();
            assert(parts@.map_values(|p: Vec<char>| p@).push(current@) =~= before.push(Seq::empty()));
        } else {
            current.push(c);
            assert(parts@.map_values(|p: Vec<char>| p@).push(current@) =~= before.update(
                before.len() - 1,
                before.last().push(c),
            ));
        }
        i = i + 1;
    }
    assert(s@.take(s@.len() as int) =~= s@);
    parts.push(current);
    parts
}

/// The numbers that every piece of `parts` writes, if each writes one.
pub open spec fn all_decimal_u32(parts: Seq<Seq<char>>) -> Option<Seq<u32>> {
    if forall|i: int| 0 <= i < parts.len() ==> (#[trigger] decimal_u32(parts[i])) is Some {
        Some(parts.map_values(|p: Seq<char>| decimal_u32(p)->0))
    } else {
        None
    }
}

/// The numbers of the pieces, if each piece writes one.
pub fn parse_all_u32(parts: &Vec<Vec<char>>) -> (r: Option<Vec<u32>>)
    ensures
        r matches Some(v) ==> all_decimal_u32(parts@.map_values(|p: Vec<char>| p@)) == Some(v@),
        r is None ==> all_decimal_u32(parts@.map_values(|p: Vec<char>| p@)) is None,
{
    let ghost views = parts@.map_values(|p: Vec<char>| p@);
    let mut out: Vec<u32> = Vec::new();
    let mut i: usize = 0;
    while i < parts.len()
        invariant
            i <= parts@.len(),
            views == parts@.map_values(|p: Vec<char>| p@),
            out@.len() == i,
            forall|j: int| 0 <= j < i ==> (#[trigger] decimal_u32(views[j])) == Some(out@[j]),
        decreases parts@.len() - i,
    {
        match parse_u32(&parts[i]) {
            Some(n) => {
                out.push(n);
            },
            None => {
                assert(decimal_u32(views[i as int]) is None);
                return None;
            },
        }
        i = i + 1;
    }
    assert(views.map_values(|p: Seq<char>| decimal_u32(p)->0) =~= out@);
    Some(out)
}

/// A character with the Unicode `White_Space` property, as
/// `char::is_whitespace` reports it.
pub open spec fn is_white_space(c: char) -> bool {
    ||| '\u{9}' <= c <= '\u{d}'
    ||| c == ' ' || c == '\u{85}' || c == '\u{a0}' || c == '\u{1680}'
    ||| '\u{2000}' <= c <= '\u{200a}'
    ||| c == '\u{2028}' || c == '\u{2029}' || c == '\u{202f}' || c == '\u{205f}' || c
        == '\u{3000}'
}

/// Whether `c` is white space.
pub fn white_space(c: char) -> (r: bool)
    ensures
        r == is_white_space(c),
{
    ('\u{9}' <= c && c <= '\u{d}') || c == ' ' || c == '\u{85}' || c == '\u{a0}' || c
        == '\u{1680}' || ('\u{2000}' <= c && c <= '\u{200a}') || c == '\u{2028}' || c
        == '\u{2029}' || c == '\u{202f}' || c == '\u{205f}' || c == '\u{3000}'
}

/// The runs of `s` between white space, each cut at every white-space
/// character, empty runs included.
pub open spec fn cut_at_white_space(s: Seq<char>) -> Seq<Seq<char>>
    decreases s.len(),
{
    if s.len() == 0 {
        seq![Seq::empty()]
    } else {
        let parts = cut_at_white_space(s.drop_last());
        if is_white_space(s.last()) {
            parts.push(Seq::empty())
        } else {
            parts.update(parts.len() - 1, parts.last().push(s.last()))
        }
    }
}

/// The words of `s`, as `str::split_whitespace` gives them: the non-empty
/// runs between white space.
pub open spec fn words_of(s: Seq<char>) -> Seq<Seq<char>> {
    cut_at_white_space(s).filter(|w: Seq<char>| w.len() > 0)
}

/// The words among `parts`: the last one joins those before it when it is
/// not empty.
proof fn lemma_words_last(parts: Seq<Seq<char>>)
    requires
        parts.len() >= 1,
    ensures
        parts.filter(|w: Seq<char>| w.len() > 0) == parts.drop_last().filter(|w: Seq<char>| w.len() > 0)
            + (if parts.last().len() > 0 {
            seq![parts.last()]
        } else {
            Seq::empty()
        }),
{
    reveal_with_fuel(Seq::filter, 1);
    let f = |w: Seq<char>| w.len() > 0;
    if parts.last().len() > 0 {
        assert(parts.drop_last().filter(f).push(parts.last()) =~= parts.drop_last().filter(f) + seq![parts.last()]);
    } else {
        assert(parts.drop_last().filter(f) =~= parts.drop_last().filter(f) + Seq::<Seq<char>>::empty());
    }
}

/// The words of `s`.
pub fn split_words(s: &Vec<char>) -> (words: Vec<Vec<char>>)
    ensures
        words@.map_values(|w: Vec<char>| w@) == words_of(s@),
{
    let mut words: Vec<Vec<char>> = Vec::new();
    let mut current: Vec<char> = Vec::new();
    proof {
        assert(s@.take(0) =~= Seq::<char>::empty());
        lemma_words_last(cut_at_white_space(s@.take(0)));
        assert(cut_at_white_space(s@.take(0)).drop_last() =~= Seq::<Seq<char>>::empty());
        assert(words@.map_values(|w: Vec<char>| w@) =~= Seq::<Seq<char>>::empty());
    }
    let mut i: usize = 0;
    while i < s.len()
        invariant
            i <= s@.len(),
            words@.map_values(|w: Vec<char>| w@) == cut_at_white_space(s@.take(i as int)).drop_last().filter(
                |w: Seq<char>| w.len() > 0,
            ),
            cut_at_white_space(s@.take(i as int)).last() == current@,
            cut_at_white_space(s@.take(i as int)).len() >= 1,
        decreases s@.len() - i,
    {
        let c = s[i];
        let ghost pre = s@.take(i as int);
        let ghost next = s@.take(i as int + 1);
        let ghost parts = cut_at_white_space(pre);
        let ghost old_words = words@.map_values(|w: Vec<char>| w@);
        proof {
            assert(next.drop_last() =~= pre);
            assert(next.last() == c);
        }
        if white_space(c) {
            if current.len() > 0 {
                let done = current;
                words.push(done);
                current = Vec::new();
            }
            proof {
                assert(cut_at_white_space(next) == parts.push(Seq::empty()));
                assert(parts.push(Seq::empty()).drop_last() =~= parts);
                lemma_words_last(parts);
                if parts.last().len() > 0 {
                    assert(words@.map_values(|w: Vec<char>| w@) =~= old_words.push(parts.last()));
                    assert(old_words.push(parts.last()) =~= old_words + seq![parts.last()]);
                } else {
                    assert(parts.drop_last().filter(|w: Seq<char>| w.len() > 0) + Seq::<Seq<char>>::empty()
                        =~= parts.drop_last().filter(|w: Seq<char>| w.len() > 0));
                }
            }
        } else {
            current.push(c);
            proof {
                let np = parts.update(parts.len() - 1, parts.last().push(c));
                assert(cut_at_white_space(next) == np);
                assert(np.drop_last() =~= parts.drop_last());
            }
        }
        i = i + 1;
    }
    proof {
        assert(s@.take(s@.len() as int) =~= s@);
        lemma_words_last(cut_at_white_space(s@));
    }
    let ghost before = words@.map_values(|w: Vec<char>| w@);
    if current.len() > 0 {
        words.push(current);
        assert(words@.map_values(|w: Vec<char>| w@) =~= before + seq![cut_at_white_space(s@).last()]);
    } else {
        assert(before + Seq::<Seq<char>>::empty() =~= before);
    }
    words
}

/// The number a word writes as an `i32`, with an optional sign.
pub open spec fn decimal_i32(w: Seq<char>) -> Option<i32> {
    if w.len() > 0 && w[0] == '-' {
        let rest = w.drop_first();
        if rest.len() > 0 && rest[0] == '+' {
            None
        } else {
            match decimal_u32(rest) {
                Some(v) => if v <= 0x8000_0000 {
                    Some((0 - v) as i32)
                } else {
                    None
                },
                None => None,
            }
        }
    } else {
        match decimal_u32(w) {
            Some(v) => if v <= i32::MAX {
                Some(v as i32)
            } else {
                None
            },
            None => None,
        }
    }
}

/// The number a word writes as an `i32`.
pub fn parse_i32(w: &Vec<char>) -> (r: Option<i32>)
    ensures
        r == decimal_i32(w@),
{
    if w.len() > 0 && w[0] == '-' {
        let mut rest: Vec<char> = Vec::new();
        let mut i: usize = 1;
        while i < w.len()
            invariant
                1 <= i <= w@.len(),
                rest@ == w@.subrange(1, i as int),
            decreases w@.len() - i,
        {
            rest.push(w[i]);
            assert(w@.subrange(1, i as int + 1) =~= w@.subrange(1, i as int).push(w@[i as int]));
            i = i + 1;
        }
        assert(rest@ =~= w@.drop_first());
        if rest.len() > 0 && rest[0] == '+' {
            return None;
        }
        match parse_u32(&rest) {
            Some(v) => if v <= 0x8000_0000 {
                Some((0 - (v as i64)) as i32)
            } else {
                None
            },
            None => None,
        }
    } else {
        match parse_u32(w) {
            Some(v) => if v <= 0x7fff_ffff {
                Some(v as i32)
            } else {
                None
            },
            None => None,
        }
    }
}

/// The string of the characters.
pub fn string_of(chars: &Vec<char>) -> (s: String)
    ensures
        s@ == chars@,
{
    let mut s = String::new();
    let mut i: usize = 0;
    while i < chars.len()
        invariant
            i <= chars@.len(),
            s@ == chars@.take(i as int),
        decreases chars@.len() - i,
    {
        push_char(&mut s, chars[i]);
        assert(chars@.take(i as int + 1) =~= chars@.take(i as int).push(chars@[i as int]));
        i = i + 1;
    }
    assert(chars@.take(chars@.len() as int) =~= chars@);
    s
}

/// Relies on `String::push`: it appends the character.
#[verifier::external_body]
fn push_char(s: &mut String, c: char)
    ensures
        final(s)@ == old(s)@.push(c),
{
    s.push(c);
}

/// All of `d` is decimal digits, and there is at least one.
pub open spec fn all_digits(d: Seq<char>) -> bool {
    d.len() > 0 && forall|i: int| 0 <= i < d.len() ==> is_digit_char(#[trigger] d[i])
}

/// The value of the digits of `d`, if they are all digits and the value is
/// at most `2^64`.
fn digits_value_capped(d: &Vec<char>) -> (r: Option<u128>)
    ensures
        r matches Some(v) ==> all_digits(d@) && v == digits_value(d@) && v <= 0x1_0000_0000_0000_0000,
        r is None ==> !all_digits(d@) || digits_value(d@) > 0x1_0000_0000_0000_0000,
{
    if d.len() == 0 {
        return None;
    }
    let mut value: u128 = 0;
    let mut i: usize = 0;
    while i < d.len()
        invariant
            i <= d@.len(),
            forall|j: int| 0 <= j < i ==> is_digit_char(#[trigger] d@[j]),
            value == digits_value(d@.take(i as int)),
            value <= 0x1_0000_0000_0000_0000,
        decreases d@.len() - i,
    {
        let c = d[i];
        if !('0' <= c && c <= '9') {
            assert(!is_digit_char(d@[i as int]));
            return None;
        }
        assert(d@.take(i as int + 1).drop_last() =~= d@.take(i as int));
        assert(d@.take(i as int + 1).last() == c);
        value = value * 10 + (c as u128 - '0' as u128);
        if value > 0x1_0000_0000_0000_0000 {
            proof {
                assert forall|j: int| 0 <= j < i + 1 implies is_digit_char(#[trigger] d@.take(i as int + 1)[j]) by {
                    assert(d@.take(i as int + 1)[j] == d@[j]);
                }
                if forall|j: int| 0 <= j < d@.len() ==> is_digit_char(#[trigger] d@[j]) {
                    lemma_digits_grow(d@, i + 1);
                }
            }
            return None;
        }
        i = i + 1;
    }
    assert(d@.take(d@.len() as int) =~= d@);
    Some(value)
}

/// The number a word writes as a `u64`, with an optional leading `+`.
pub open spec fn decimal_u64(w: Seq<char>) -> Option<u64> {
    let d = unsigned_digits(w);
    if all_digits(d) && digits_value(d) <= u64::MAX {
        Some(digits_value(d) as u64)
    } else {
        None
    }
}

/// The number a word writes as a `u64`.
pub fn parse_u64(w: &Vec<char>) -> (r: Option<u64>)
    ensures
        r == decimal_u64(w@),
{
    let start: usize = if w.len() > 0 && w[0] == '+' {
        1
    } else {
        0
    };
    let d = tail_from(w, start);
    assert(d@ =~= unsigned_digits(w@));
    match digits_value_capped(&d) {
        Some(v) => if v <= 0xffff_ffff_ffff_ffff {
            Some(v as u64)
        } else {
            None
        },
        None => None,
    }
}

/// The number a word writes as an `i64`, with an optional sign.
pub open spec fn decimal_i64(w: Seq<char>) -> Option<i64> {
    if w.len() > 0 && w[0] == '-' {
        let rest = w.drop_first();
        if all_digits(rest) && digits_value(rest) <= 0x8000_0000_0000_0000 {
            Some((0 - digits_value(rest)) as i64)
        } else {
            None
        }
    } else {
        let d = unsigned_digits(w);
        if all_digits(d) && digits_value(d) <= i64::MAX {
            Some(digits_value(d) as i64)
        } else {
            None
        }
    }
}

/// The characters of `w` from `start` on.
fn tail_from(w: &Vec<char>, start: usize) -> (r: Vec<char>)
    requires
        start <= w@.len(),
    ensures
        r@ == w@.skip(start as int),
{
    let mut r: Vec<char> = Vec::new();
    let mut i: usize = start;
    while i < w.len()
        invariant
            start <= i <= w@.len(),
            r@ == w@.subrange(start as int, i as int),
        decreases w@.len() - i,
    {
        r.push(w[i]);
        assert(w@.subrange(start as int, i as int + 1) =~= w@.subrange(start as int, i as int).push(w@[i as int]));
        i = i + 1;
    }
    assert(w@.subrange(start as int, w@.len() as int) =~= w@.skip(start as int));
    r
}

/// The number a word writes as an `i64`.
pub fn parse_i64(w: &Vec<char>) -> (r: Option<i64>)
    ensures
        r == decimal_i64(w@),
{
    if w.len() > 0 && w[0] == '-' {
        let rest = tail_from(w, 1);
        assert(rest@ =~= w@.drop_first());
        match digits_value_capped(&rest) {
            Some(v) => if v <= 0x8000_0000_0000_0000 {
                Some((0 - (v as i128)) as i64)
            } else {
                None
            },
            None => None,
        }
    } else {
        let start: usize = if w.len() > 0 && w[0] == '+' {
            1
        } else {
            0
        };
        let d = tail_from(w, start);
        assert(d@ =~= unsigned_digits(w@));
        match digits_value_capped(&d) {
            Some(v) => if v <= 0x7fff_ffff_ffff_ffff {
                Some(v as i64)
            } else {
                None
            },
            None => None,
        }
    }
}

} // verus!

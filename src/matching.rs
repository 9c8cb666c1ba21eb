//! Text matched against regular expressions, and the instructions and lines
//! read out of it.
use vstd::prelude::*;
use crate::parsing::{chars_of, decimal_u32, parse_u32};

verus! {

/// The capture groups of each successive non-overlapping match of the
/// regular expression `pattern` in `haystack`, the whole match first; a
/// group that took no part in a match is `None`.
pub uninterp spec fn regex_captures(pattern: Seq<char>, haystack: Seq<char>) -> Seq<Seq<Option<Seq<char>>>>;

/// The text of each group of each match.
pub open spec fn groups_view(caps: Seq<Vec<Option<String>>>) -> Seq<Seq<Option<Seq<char>>>> {
    caps.map_values(
        |groups: Vec<Option<String>>|
            groups@.map_values(
                |g: Option<String>|
                    match g {
                        Some(s) => Some(s@),
                        None => None,
                    },
            ),
    )
}

/// Relies on `regex::Regex::new` to compile `pattern`, and on
/// `Regex::captures_iter` with `Captures::iter` for the groups of each
/// match, in order. `None` where the pattern does not compile.
#[verifier::external_body]
pub(crate) fn capture_all(pattern: &str, haystack: &str) -> (r: Option<Vec<Vec<Option<String>>>>)
    ensures
        r matches Some(v) ==> groups_view(v@) == regex_captures(pattern@, haystack@),
{
    let re = regex::Regex::new(pattern).ok()?;
    Some(
        re.captures_iter(haystack).map(
            |c| c.iter().map(|g| g.map(|m| m.as_str().to_string())).collect(),
        ).collect(),
    )
}

/// A multiplication instruction `mul(a,b)`, each operand of one to three
/// digits.
pub const MUL_PATTERN: &'static str = r"mul\(([0-9]{1,3}),([0-9]{1,3})\)";

/// The operands a match of the multiplication pattern captured, if both
/// groups took part and read as numbers.
pub open spec fn operands_of(groups: Seq<Option<Seq<char>>>) -> Option<(u32, u32)> {
    if groups.len() >= 3 && groups[1] is Some && groups[2] is Some && decimal_u32(groups[1]->0) is Some
        && decimal_u32(groups[2]->0) is Some {
        Some((decimal_u32(groups[1]->0)->0, decimal_u32(groups[2]->0)->0))
    } else {
        None
    }
}

/// The operands of every multiplication instruction in `input`, in order;
/// `None` where one of them cannot be read.
pub fn match_mul_operands(input: &str) -> (ops: Option<Vec<(u32, u32)>>)
    ensures
        ops matches Some(v) ==> ({
            let caps = regex_captures(MUL_PATTERN@, input@);
            &&& v@.len() == caps.len()
            &&& forall|i: int| 0 <= i < v@.len() ==> operands_of(#[trigger] caps[i]) == Some(v@[i])
        }),
{
    let caps = capture_all(MUL_PATTERN, input)?;
    let ghost views = groups_view(caps@);
    let mut ops: Vec<(u32, u32)> = Vec::new();
    let mut i: usize = 0;
    while i < caps.len()
        invariant
            i <= caps@.len(),
            views == groups_view(caps@),
            ops@.len() == i,
            forall|j: int| 0 <= j < i ==> operands_of(#[trigger] views[j]) == Some(ops@[j]),
        decreases caps@.len() - i,
    {
        let groups = &caps[i];
        if groups.len() < 3 {
            return None;
        }
        let a = match &groups[1] {
            Some(s) => parse_u32(&chars_of(s.as_str()))?,
            None => {
                return None;
            },
        };
        let b = match &groups[2] {
            Some(s) => parse_u32(&chars_of(s.as_str()))?,
            None => {
                return None;
            },
        };
        assert(operands_of(views[i as int]) == Some((a, b)));
        ops.push((a, b));
        i = i + 1;
    }
    Some(ops)
}

/// The sum of the products of the operand pairs.
pub open spec fn products_sum(ops: Seq<(u32, u32)>) -> int
    decreases ops.len(),
{
    if ops.len() == 0 {
        0
    } else {
        products_sum(ops.drop_last()) + ops.last().0 * ops.last().1
    }
}

/// The sum of the products, or `None` where it does not fit in a `u32`.
pub fn sum_of_products(ops: &Vec<(u32, u32)>) -> (total: Option<u32>)
    ensures
        total matches Some(t) ==> t == products_sum(ops@),
        total is None ==> exists|k: int| 0 <= k <= ops@.len() && products_sum(ops@.take(k)) > u32::MAX,
{
    let mut total: u32 = 0;
    let mut i: usize = 0;
    while i < ops.len()
        invariant
            i <= ops@.len(),
            total == products_sum(ops@.take(i as int)),
        decreases ops@.len() - i,
    {
        let (x, y) = ops[i];
        assert(ops@.take(i as int + 1).drop_last() =~= ops@.take(i as int));
        assert((x as int) * (y as int) <= u64::MAX) by (nonlinear_arith)
            requires
                0 <= x <= u32::MAX,
                0 <= y <= u32::MAX,
        ;
        let p = (x as u64) * (y as u64);
        if p > 0xffff_ffff || total as u64 + p > 0xffff_ffff {
            assert(products_sum(ops@.take(i as int + 1)) > u32::MAX) by (nonlinear_arith)
                requires
                    products_sum(ops@.take(i as int + 1)) == total + x * y,
                    p == x * y,
                    total >= 0,
                    p > 0xffff_ffff || total + p > 0xffff_ffff,
            ;
            return None;
        }
        total = total + p as u32;
        i = i + 1;
    }
    assert(ops@.take(ops@.len() as int) =~= ops@);
    Some(total)
}

} // verus!

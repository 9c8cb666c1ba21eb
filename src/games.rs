//! Games of drawing coloured cubes from a bag, and scratchcard points.
use vstd::prelude::*;
use crate::matching::{capture_all, groups_view, regex_captures};
use crate::parsing::{
    chars_of, decimal_i32, decimal_u32, parse_i32, parse_u32, split_chars, split_on, string_of,
};
use vstd::arithmetic::power2::{lemma2_to64, lemma_pow2_strictly_increases, lemma_pow2_unfold, pow2};

verus! {

/// The most red cubes the bag holds.
pub const RED_PROVIDED: i32 = 12;

/// The most green cubes the bag holds.
pub const GREEN_PROVIDED: i32 = 13;

/// The most blue cubes the bag holds.
pub const BLUE_PROVIDED: i32 = 14;

/// The cubes of one draw, by colour.
#[derive(Clone, Copy, Debug, PartialEq, Eq, Structural)]
pub struct Draw {
    pub red: i32,
    pub green: i32,
    pub blue: i32,
}

/// A game: its id and its draws.
pub struct Game {
    pub id: i32,
    pub draws: Vec<Draw>,
}

/// The bag could have given the draw.
pub open spec fn draw_possible(d: Draw) -> bool {
    d.red <= RED_PROVIDED && d.green <= GREEN_PROVIDED && d.blue <= BLUE_PROVIDED
}

impl Game {
    /// The id of the game if the bag could have given every draw, else 0.
    pub fn return_id_if_valid(&self) -> (r: i32)
        ensures
            r == if forall|i: int| 0 <= i < self.draws@.len() ==> draw_possible(#[trigger] self.draws@[i]) {
                self.id
            } else {
                0
            },
    {
        let mut i: usize = 0;
        while i < self.draws.len()
            invariant
                i <= self.draws@.len(),
                forall|j: int| 0 <= j < i ==> draw_possible(#[trigger] self.draws@[j]),
            decreases self.draws@.len() - i,
        {
            let draw = self.draws[i];
            if !(draw.red <= RED_PROVIDED && draw.green <= GREEN_PROVIDED && draw.blue <= BLUE_PROVIDED) {
                return 0;
            }
            i = i + 1;
        }
        self.id
    }
}

/// The id of a game line: `Game <id>` and anything after.
pub const GAME_PATTERN: &'static str = r"Game (\d+).*";

/// One draw of a part of a game line: a number and a colour, after any
/// colons, commas and white space.
pub const DRAW_PATTERN: &'static str = r"[:,\s]*(\d+\s[[:alpha:]]+)";

/// A number of cubes and their colour.
pub const COLOR_PATTERN: &'static str = r"(\d+)\s([[:alpha:]]+)";

/// `d` with the count of a match of the colour pattern set; `None` for a
/// colour other than red, green or blue, or a count that is no `i32`.
pub open spec fn apply_color(d: Draw, groups: Seq<Option<Seq<char>>>) -> Option<Draw> {
    if groups.len() >= 3 && groups[1] is Some && groups[2] is Some && decimal_i32(groups[1]->0) is Some {
        let n = decimal_i32(groups[1]->0)->0;
        let color = groups[2]->0;
        if color == seq!['r', 'e', 'd'] {
            Some(Draw { red: n, ..d })
        } else if color == seq!['b', 'l', 'u', 'e'] {
            Some(Draw { blue: n, ..d })
        } else if color == seq!['g', 'r', 'e', 'e', 'n'] {
            Some(Draw { green: n, ..d })
        } else {
            None
        }
    } else {
        None
    }
}

/// `d` after the counts of each match of the colour pattern, in order.
pub open spec fn apply_colors(d: Draw, caps: Seq<Seq<Option<Seq<char>>>>) -> Option<Draw>
    decreases caps.len(),
{
    if caps.len() == 0 {
        Some(d)
    } else {
        match apply_colors(d, caps.drop_last()) {
            Some(d2) => apply_color(d2, caps.last()),
            None => None,
        }
    }
}

/// `d` after each match of the draw pattern, in order.
pub open spec fn apply_draws(d: Draw, subs: Seq<Seq<Option<Seq<char>>>>) -> Option<Draw>
    decreases subs.len(),
{
    if subs.len() == 0 {
        Some(d)
    } else {
        match apply_draws(d, subs.drop_last()) {
            Some(d2) => if subs.last().len() >= 2 && subs.last()[1] is Some {
                apply_colors(d2, regex_captures(COLOR_PATTERN@, subs.last()[1]->0))
            } else {
                None
            },
            None => None,
        }
    }
}

/// The draw a part of a game line between semicolons writes, colours not
/// named counting none.
pub open spec fn draw_of(part: Seq<char>) -> Option<Draw> {
    apply_draws(Draw { red: 0, green: 0, blue: 0 }, regex_captures(DRAW_PATTERN@, part))
}

/// The id a game line writes, from the first match of the id pattern.
pub open spec fn game_id_of(line: Seq<char>) -> Option<i32> {
    let caps = regex_captures(GAME_PATTERN@, line);
    if caps.len() > 0 && caps[0].len() >= 2 && caps[0][1] is Some {
        decimal_i32(caps[0][1]->0)
    } else {
        None
    }
}

/// The number in group 1 of the first match.
fn first_group_i32(caps: &Vec<Vec<Option<String>>>) -> (r: Option<i32>)
    ensures
        ({
            let v = groups_view(caps@);
            r == if v.len() > 0 && v[0].len() >= 2 && v[0][1] is Some {
                decimal_i32(v[0][1]->0)
            } else {
                None
            }
        }),
{
    if caps.len() == 0 || caps[0].len() < 2 {
        return None;
    }
    match &caps[0][1] {
        Some(t) => parse_i32(&chars_of(t.as_str())),
        None => None,
    }
}

/// Once a colour match fails, the whole draw fails.
proof fn lemma_colors_fail_on(d: Draw, caps: Seq<Seq<Option<Seq<char>>>>, n: int)
    requires
        0 <= n <= caps.len(),
        apply_colors(d, caps.take(n)) is None,
    ensures
        apply_colors(d, caps) is None,
    decreases caps.len() - n,
{
    if n < caps.len() {
        assert(caps.take(n + 1).drop_last() =~= caps.take(n));
        lemma_colors_fail_on(d, caps, n + 1);
    } else {
        assert(caps.take(n) =~= caps);
    }
}

/// The draw after the colour matches in `caps`.
fn apply_color_caps(d: Draw, caps: &Vec<Vec<Option<String>>>) -> (r: Option<Draw>)
    ensures
        r == apply_colors(d, groups_view(caps@)),
{
    let ghost v = groups_view(caps@);
    let mut cur = d;
    let mut i: usize = 0;
    while i < caps.len()
        invariant
            i <= caps@.len(),
            v == groups_view(caps@),
            apply_colors(d, v.take(i as int)) == Some(cur),
        decreases caps@.len() - i,
    {
        assert(v.take(i as int + 1).drop_last() =~= v.take(i as int));
        let g = &caps[i];
        if g.len() < 3 {
            proof {
                lemma_colors_fail_on(d, v, i + 1);
            }
            return None;
        }
        let (num, color) = match (&g[1], &g[2]) {
            (Some(a), Some(b)) => (a, b),
            _ => {
                proof {
                    lemma_colors_fail_on(d, v, i + 1);
                }
                return None;
            },
        };
        let n = match parse_i32(&chars_of(num.as_str())) {
            Some(n) => n,
            None => {
                proof {
                    lemma_colors_fail_on(d, v, i + 1);
                }
                return None;
            },
        };
        let c = chars_of(color.as_str());
        if c.len() == 3 && c[0] == 'r' && c[1] == 'e' && c[2] == 'd' {
            assert(c@ =~= seq!['r', 'e', 'd']);
            cur = Draw { red: n, ..cur };
        } else if c.len() == 4 && c[0] == 'b' && c[1] == 'l' && c[2] == 'u' && c[3] == 'e' {
            assert(c@ =~= seq!['b', 'l', 'u', 'e']);
            assert(c@ != seq!['r', 'e', 'd']);
            cur = Draw { blue: n, ..cur };
        } else if c.len() == 5 && c[0] == 'g' && c[1] == 'r' && c[2] == 'e' && c[3] == 'e' && c[4] == 'n' {
            assert(c@ =~= seq!['g', 'r', 'e', 'e', 'n']);
            assert(c@ != seq!['r', 'e', 'd']);
            assert(c@ != seq!['b', 'l', 'u', 'e']);
            cur = Draw { green: n, ..cur };
        } else {
            proof {
                if c@ == seq!['r', 'e', 'd'] {
                    assert(c@[0] == 'r' && c@[1] == 'e' && c@[2] == 'd');
                }
                if c@ == seq!['b', 'l', 'u', 'e'] {
                    assert(c@[0] == 'b' && c@[1] == 'l' && c@[2] == 'u' && c@[3] == 'e');
                }
                if c@ == seq!['g', 'r', 'e', 'e', 'n'] {
                    assert(c@[0] == 'g' && c@[1] == 'r' && c@[2] == 'e' && c@[3] == 'e' && c@[4] == 'n');
                }
                lemma_colors_fail_on(d, v, i + 1);
            }
            return None;
        }
        i = i + 1;
    }
    assert(v.take(caps@.len() as int) =~= v);
    Some(cur)
}

/// The draw a part of a game line writes.
fn parse_draw(part: &str) -> (r: Option<Draw>)
    ensures
        r matches Some(x) ==> draw_of(part@) == Some(x),
{
    let subs = match capture_all(DRAW_PATTERN, part) {
        Some(s) => s,
        None => {
            return None;
        },
    };
    let ghost v = groups_view(subs@);
    let mut cur = Draw { red: 0, green: 0, blue: 0 };
    let mut i: usize = 0;
    while i < subs.len()
        invariant
            i <= subs@.len(),
            v == groups_view(subs@),
            v == regex_captures(DRAW_PATTERN@, part@),
            apply_draws(Draw { red: 0, green: 0, blue: 0 }, v.take(i as int)) == Some(cur),
        decreases subs@.len() - i,
    {
        assert(v.take(i as int + 1).drop_last() =~= v.take(i as int));
        let g = &subs[i];
        if g.len() < 2 {
            return None;
        }
        let text = match &g[1] {
            Some(t) => t,
            None => {
                return None;
            },
        };
        let colors = match capture_all(COLOR_PATTERN, text.as_str()) {
            Some(c) => c,
            None => {
                return None;
            },
        };
        match apply_color_caps(cur, &colors) {
            Some(d) => {
                cur = d;
            },
            None => {
                return None;
            },
        }
        i = i + 1;
    }
    assert(v.take(subs@.len() as int) =~= v);
    Some(cur)
}

/// Reads a game line `Game <id>: <draw>; <draw>; ...`; `None` where the
/// line has no id or names a colour other than red, green or blue.
pub fn parse_game(input_string: &str) -> (g: Option<Game>)
    ensures
        g matches Some(game) ==> ({
            let parts = split_on(input_string@, ';');
            &&& game_id_of(input_string@) == Some(game.id)
            &&& game.draws@.len() == parts.len()
            &&& forall|i: int| 0 <= i < parts.len() ==> draw_of(#[trigger] parts[i]) == Some(game.draws@[i])
        }),
{
    let caps = capture_all(GAME_PATTERN, input_string)?;
    let game_id = first_group_i32(&caps)?;
    let parts = split_chars(&chars_of(input_string), ';');
    let ghost pv = parts@.map_values(|p: Vec<char>| p@);
    let mut draw_vec: Vec<Draw> = Vec::new();
    let mut i: usize = 0;
    while i < parts.len()
        invariant
            i <= parts@.len(),
            pv == parts@.map_values(|p: Vec<char>| p@),
            draw_vec@.len() == i,
            forall|j: int| 0 <= j < i ==> draw_of(#[trigger] pv[j]) == Some(draw_vec@[j]),
        decreases parts@.len() - i,
    {
        let text = string_of(&parts[i]);
        let d = parse_draw(text.as_str())?;
        draw_vec.push(d);
        i = i + 1;
    }
    Some(Game { id: game_id, draws: draw_vec })
}

/// The points of a scratchcard with `num_matches` winning numbers: none
/// without a match, else one doubled for each match after the first.
pub fn points_for_matches(num_matches: u32) -> (points: i32)
    requires
        num_matches <= 31,
    ensures
        points == if num_matches == 0 {
            0
        } else {
            pow2((num_matches - 1) as nat)
        },
{
    if num_matches == 0 {
        return 0;
    }
    let mut points: i32 = 1;
    let mut k: u32 = 1;
    proof {
        lemma2_to64();
    }
    while k < num_matches
        invariant
            1 <= k <= num_matches <= 31,
            points == pow2((k - 1) as nat),
        decreases num_matches - k,
    {
        proof {
            lemma2_to64();
            lemma_pow2_unfold(k as nat);
            lemma_pow2_strictly_increases((k - 1) as nat, 30);
        }
        points = points * 2;
        k = k + 1;
    }
    points
}

/// The id of a card line: `Card <id>:`.
pub const CARD_PATTERN: &'static str = r"Card (\d+):";

/// A winning number, followed by white space.
pub const WINNING_PATTERN: &'static str = r"(\d+)\s";

/// A number held, after white space.
pub const HELD_PATTERN: &'static str = r"\s+(\d+)";

/// The id a card line writes, from the first match of the id pattern.
pub open spec fn card_id_of(line: Seq<char>) -> Option<u32> {
    let caps = regex_captures(CARD_PATTERN@, line);
    if caps.len() > 0 && caps[0].len() >= 2 && caps[0][1] is Some {
        decimal_u32(caps[0][1]->0)
    } else {
        None
    }
}

/// The numbers in group 1 of every match, if each reads as an `i32`.
pub open spec fn group_numbers(caps: Seq<Seq<Option<Seq<char>>>>) -> Option<Seq<i32>>
    decreases caps.len(),
{
    if caps.len() == 0 {
        Some(Seq::empty())
    } else {
        match group_numbers(caps.drop_last()) {
            Some(ns) => if caps.last().len() >= 2 && caps.last()[1] is Some && decimal_i32(caps.last()[1]->0) is Some {
                Some(ns.push(decimal_i32(caps.last()[1]->0)->0))
            } else {
                None
            },
            None => None,
        }
    }
}

/// How many of `held` are among `winning`, each held number counted.
pub open spec fn count_winning(held: Seq<i32>, winning: Seq<i32>) -> nat
    decreases held.len(),
{
    if held.len() == 0 {
        0
    } else {
        count_winning(held.drop_last(), winning) + if winning.contains(held.last()) {
            1nat
        } else {
            0nat
        }
    }
}

/// The winning numbers held on a card line `<winning> | <held>`.
pub open spec fn card_matches_of(line: Seq<char>) -> Option<nat> {
    let parts = split_on(line, '|');
    if parts.len() == 2 {
        match (
            group_numbers(regex_captures(WINNING_PATTERN@, parts[0])),
            group_numbers(regex_captures(HELD_PATTERN@, parts[1])),
        ) {
            (Some(w), Some(h)) => Some(count_winning(h, w)),
            _ => None,
        }
    } else {
        None
    }
}

/// The id of a card line.
pub fn card_id(input_string: &str) -> (id: Option<u32>)
    ensures
        id matches Some(n) ==> card_id_of(input_string@) == Some(n),
{
    let caps = capture_all(CARD_PATTERN, input_string)?;
    if caps.len() == 0 || caps[0].len() < 2 {
        return None;
    }
    match &caps[0][1] {
        Some(t) => parse_u32(&chars_of(t.as_str())),
        None => None,
    }
}

/// The numbers in group 1 of the matches.
fn numbers_of_caps(caps: &Vec<Vec<Option<String>>>) -> (r: Option<Vec<i32>>)
    ensures
        r matches Some(v) ==> group_numbers(groups_view(caps@)) == Some(v@),
{
    let ghost gv = groups_view(caps@);
    let mut out: Vec<i32> = Vec::new();
    let mut i: usize = 0;
    while i < caps.len()
        invariant
            i <= caps@.len(),
            gv == groups_view(caps@),
            group_numbers(gv.take(i as int)) == Some(out@),
        decreases caps@.len() - i,
    {
        assert(gv.take(i as int + 1).drop_last() =~= gv.take(i as int));
        if caps[i].len() < 2 {
            return None;
        }
        let n = match &caps[i][1] {
            Some(t) => parse_i32(&chars_of(t.as_str()))?,
            None => {
                return None;
            },
        };
        out.push(n);
        i = i + 1;
    }
    assert(gv.take(caps@.len() as int) =~= gv);
    Some(out)
}

/// The number of winning numbers the card holds.
pub fn matches_for_card(input_string: &str) -> (m: Option<u32>)
    ensures
        m matches Some(n) ==> card_matches_of(input_string@) == Some(n as nat),
{
    let parts = split_chars(&chars_of(input_string), '|');
    let ghost pv = parts@.map_values(|p: Vec<char>| p@);
    if parts.len() != 2 {
        return None;
    }
    let first = string_of(&parts[0]);
    let last = string_of(&parts[1]);
    let winning = numbers_of_caps(&capture_all(WINNING_PATTERN, first.as_str())?)?;
    let held = numbers_of_caps(&capture_all(HELD_PATTERN, last.as_str())?)?;
    let mut count: u32 = 0;
    let mut i: usize = 0;
    while i < held.len()
        invariant
            i <= held@.len(),
            count == count_winning(held@.take(i as int), winning@),
            count <= i,
        decreases held@.len() - i,
    {
        assert(held@.take(i as int + 1).drop_last() =~= held@.take(i as int));
        let mut k: usize = 0;
        let mut found = false;
        while k < winning.len()
            invariant
                i < held@.len(),
                k <= winning@.len(),
                found == exists|j: int| 0 <= j < k && winning@[j] == held@[i as int],
            decreases winning@.len() - k,
        {
            if winning[k] == held[i] {
                found = true;
            }
            k = k + 1;
        }
        assert(found == winning@.contains(held@[i as int]));
        if found {
            if count == 0xffff_ffff {
                return None;
            }
            count = count + 1;
        }
        i = i + 1;
    }
    assert(held@.take(held@.len() as int) =~= held@);
    Some(count)
}

/// The points of a card line: none without a winning number held, else one
/// doubled for each winning number after the first.
pub fn points_for_card(input_string: &str) -> (points: Option<i32>)
    ensures
        points matches Some(p) ==> card_matches_of(input_string@) matches Some(m) && m <= 31 && p == (if m
            == 0 {
            0
        } else {
            pow2((m - 1) as nat)
        }),
{
    let num_matches = matches_for_card(input_string)?;
    if num_matches > 31 {
        return None;
    }
    Some(points_for_matches(num_matches))
}

} // verus!

//! A guard walking a lab laid out as one vector of cells, row after row:
//! what lies ahead of the guard, and how a step or a turn changes the map.
use vstd::prelude::*;
use vstd::string::StrSliceExecFns;

verus! {

/// The cell a visited position is marked with.
pub const VISITED_POS: char = 'X';

/// What the guard does next.
#[derive(Debug, PartialEq, Eq, Structural)]
pub enum NextGuardAction {
    Advance,
    Turn,
    ExitLab,
}

/// The characters that stand for the guard, by the direction it faces.
pub open spec fn is_guard_char(c: char) -> bool {
    c == '^' || c == '>' || c == 'v' || c == '<'
}

/// The direction a quarter turn to the right of `c`.
pub open spec fn turned_right(c: char) -> char {
    if c == '^' {
        '>'
    } else if c == '>' {
        'v'
    } else if c == 'v' {
        '<'
    } else {
        '^'
    }
}

/// How far one step moves the index in the direction `c`, for rows of `w`
/// cells.
pub open spec fn step_offset(c: char, w: int) -> int {
    if c == '^' {
        -w
    } else if c == 'v' {
        w
    } else if c == '>' {
        1
    } else {
        -1
    }
}

/// Reading and writing the cell that holds the guard.
pub trait GuardCharAccessors {
    /// The guard stands on the map, and its index fits in an `i64`.
    spec fn guard_on_map(&self) -> bool;

    /// The index of the guard's cell.
    spec fn guard_index(&self) -> int;

    /// The character of the guard's cell.
    spec fn guard_char(&self) -> char;

    /// `self` is `other` with at most the guard's cell changed.
    spec fn same_but_guard_cell(&self, other: &Self) -> bool;

    fn get_guard_character(&self) -> (c: char)
        requires
            self.guard_on_map(),
        ensures
            c == self.guard_char(),
    ;

    fn get_guard_char_reference(&mut self) -> (r: &mut char)
        requires
            old(self).guard_on_map(),
        ensures
            *r == old(self).guard_char(),
            final(self).guard_char() == *final(r),
            final(self).same_but_guard_cell(old(self)),
    ;

    fn get_next_index(&self, offset: i64) -> (r: i64)
        requires
            self.guard_on_map(),
            i64::MIN <= self.guard_index() + offset <= i64::MAX,
        ensures
            r == self.guard_index() + offset,
    ;
}

/// The lab: its cells row after row, the length of a row, where the guard
/// is and where and how it started, and the path it has walked as pairs of
/// a position and a direction.
pub struct Lab {
    pub map: Vec<char>,
    pub line_length: usize,
    pub guard_position: usize,
    pub starting_position: usize,
    pub starting_direction: char,
    pub guard_path: Vec<(usize, char)>,
}

impl Lab {
    /// Rows are not empty and no longer than the map, both positions lie on
    /// the map, an index a row away from one on the map still fits in an
    /// `i64`, and the guard started facing some direction.
    pub open spec fn well_formed(&self) -> bool {
        &&& 0 < self.line_length <= self.map@.len()
        &&& is_guard_char(self.starting_direction)
        &&& 2 * self.map@.len() <= i64::MAX
        &&& self.guard_position < self.map@.len()
        &&& self.starting_position < self.map@.len()
    }

    /// Puts the guard back where and as it started, with only its starting
    /// step on its path, and clears every visited mark.
    pub fn reset_to_starting_state(&mut self)
        requires
            old(self).well_formed(),
        ensures
            final(self).well_formed(),
            final(self).guard_position == old(self).starting_position,
            final(self).starting_position == old(self).starting_position,
            final(self).starting_direction == old(self).starting_direction,
            final(self).line_length == old(self).line_length,
            final(self).guard_path@ == seq![(old(self).starting_position, old(self).starting_direction)],
            final(self).map@.len() == old(self).map@.len(),
            forall|i: int| 0 <= i < old(self).map@.len() ==> #[trigger] final(self).map@[i] == (
                if i == old(self).starting_position {
                    old(self).starting_direction
                } else if old(self).map@[i] == VISITED_POS {
                    '.'
                } else {
                    old(self).map@[i]
                }),
    {
        self.guard_position = self.starting_position;
        *self.get_guard_char_reference() = self.starting_direction;
        self.guard_path.clear();
        self.guard_path.push((self.starting_position, self.starting_direction));
        let ghost start = self.starting_position as int;
        let mut i: usize = 0;
        while i < self.map.len()
            invariant
                self.well_formed(),
                self.guard_position == old(self).starting_position,
                self.starting_position == old(self).starting_position,
                self.starting_direction == old(self).starting_direction,
                self.line_length == old(self).line_length,
                self.guard_path@ == seq![(old(self).starting_position, old(self).starting_direction)],
                self.map@.len() == old(self).map@.len(),
                i <= self.map@.len(),
                start == self.starting_position as int,
                forall|j: int| 0 <= j < i ==> #[trigger] self.map@[j] == (if j == start {
                    old(self).starting_direction
                } else if old(self).map@[j] == VISITED_POS {
                    '.'
                } else {
                    old(self).map@[j]
                }),
                forall|j: int| i <= j < self.map@.len() ==> #[trigger] self.map@[j] == (if j == start {
                    old(self).starting_direction
                } else {
                    old(self).map@[j]
                }),
            decreases self.map@.len() - i,
        {
            if self.map[i] == VISITED_POS {
                self.map.set(i, '.');
            }
            i = i + 1;
        }
    }
}

impl GuardCharAccessors for Lab {
    open spec fn guard_on_map(&self) -> bool {
        self.guard_position < self.map@.len() && self.map@.len() <= i64::MAX
    }

    open spec fn guard_index(&self) -> int {
        self.guard_position as int
    }

    open spec fn guard_char(&self) -> char {
        self.map@[self.guard_position as int]
    }

    open spec fn same_but_guard_cell(&self, other: &Self) -> bool {
        &&& self.map@ == other.map@.update(
            other.guard_position as int,
            self.map@[other.guard_position as int],
        )
        &&& self.line_length == other.line_length
        &&& self.guard_position == other.guard_position
        &&& self.starting_position == other.starting_position
        &&& self.starting_direction == other.starting_direction
        &&& self.guard_path == other.guard_path
    }

    fn get_guard_character(&self) -> (c: char) {
        self.map[self.guard_position]
    }

    fn get_guard_char_reference(&mut self) -> (r: &mut char) {
        vec_slot(&mut self.map, self.guard_position)
    }

    fn get_next_index(&self, offset: i64) -> (r: i64) {
        self.guard_position as i64 + offset
    }
}

/// The characters of `raw` other than line breaks.
pub open spec fn without_newlines(raw: Seq<char>) -> Seq<char> {
    raw.filter(|c: char| c != '\n')
}

/// The length of the first line of `raw`, without its line break, nor a
/// carriage return right before it.
pub open spec fn first_line_length(raw: Seq<char>) -> int {
    let end = if raw.contains('\n') {
        raw.index_of_first('\n')->0
    } else {
        raw.len() as int
    };
    if end > 0 && raw[end - 1] == '\r' {
        end - 1
    } else {
        end
    }
}

/// The cells of a map given as text, and the length of its first row.
pub fn map_and_line_length_from_raw_string(raw_string: &str) -> (r: (Vec<char>, usize))
    requires
        raw_string@.len() > 0,
    ensures
        r.0@ == without_newlines(raw_string@),
        r.1 == first_line_length(raw_string@),
{
    let n = raw_string.unicode_len();
    let mut map: Vec<char> = Vec::new();
    let mut line_end: Option<usize> = None;
    let mut i: usize = 0;
    while i < n
        invariant
            n == raw_string@.len(),
            i <= n,
            map@ == without_newlines(raw_string@.take(i as int)),
            match line_end {
                None => !raw_string@.take(i as int).contains('\n'),
                Some(e) => e < i && raw_string@.index_of_first('\n') == Some(e as int),
            },
        decreases n - i,
    {
        let c = raw_string.get_char(i);
        let ghost done = raw_string@.take(i as int);
        assert(raw_string@.take(i as int + 1) =~= done.push(c));
        reveal_with_fuel(Seq::filter, 1);
        assert(without_newlines(done.push(c)) == if c != '\n' {
            without_newlines(done).push(c)
        } else {
            without_newlines(done)
        }) by {
            assert(done.push(c).drop_last() =~= done);
        }
        if c != '\n' {
            map.push(c);
        } else if line_end.is_none() {
            line_end = Some(i);
            proof {
                let s = raw_string@;
                assert(s[i as int] == '\n');
                assert forall|j: int| 0 <= j < i implies s[j] != '\n' by {
                    assert(done[j] == s[j]);
                }
                s.index_of_first_ensures('\n');
            }
        }
        proof {
            if line_end.is_none() {
                let next = raw_string@.take(i as int + 1);
                assert forall|j: int| 0 <= j < i + 1 implies #[trigger] next[j] != '\n' by {
                    if j < i {
                        assert(done[j] == next[j]);
                    }
                }
            }
        }
        i = i + 1;
    }
    assert(raw_string@.take(n as int) =~= raw_string@);
    let mut end = match line_end {
        Some(e) => e,
        None => n,
    };
    proof {
        raw_string@.index_of_first_ensures('\n');
        if line_end.is_some() {
            assert(raw_string@.contains(raw_string@[end as int]));
        }
    }
    if end > 0 && raw_string.get_char(end - 1) == '\r' {
        end = end - 1;
    }
    (map, end)
}

/// Where the first guard character stands.
pub fn find_starting_guard_pos(map: &[char]) -> (pos: usize)
    requires
        exists|i: int| 0 <= i < map@.len() && is_guard_char(#[trigger] map@[i]),
    ensures
        pos < map@.len(),
        is_guard_char(map@[pos as int]),
        forall|i: int| 0 <= i < pos ==> !is_guard_char(#[trigger] map@[i]),
{
    let mut i: usize = 0;
    while i < map.len()
        invariant
            i <= map@.len(),
            exists|k: int| 0 <= k < map@.len() && is_guard_char(#[trigger] map@[k]),
            forall|k: int| 0 <= k < i ==> !is_guard_char(#[trigger] map@[k]),
        decreases map@.len() - i,
    {
        let c = map[i];
        if c == '^' || c == '>' || c == 'v' || c == '<' {
            return i;
        }
        i = i + 1;
    }
    proof {
        let k = choose|k: int| 0 <= k < map@.len() && is_guard_char(#[trigger] map@[k]);
        assert(!is_guard_char(map@[k]));
    }
    0
}

/// A lab read from its map as text, with the guard where the first guard
/// character stands and an empty path.
pub fn build_lab_from_string(raw_string: &str) -> (lab: Lab)
    requires
        raw_string@.len() > 0,
        exists|i: int| 0 <= i < raw_string@.len() && is_guard_char(#[trigger] raw_string@[i]),
    ensures
        lab.map@ == without_newlines(raw_string@),
        lab.line_length == first_line_length(raw_string@),
        lab.guard_position < lab.map@.len(),
        is_guard_char(lab.map@[lab.guard_position as int]),
        forall|i: int| 0 <= i < lab.guard_position ==> !is_guard_char(#[trigger] lab.map@[i]),
        lab.starting_position == lab.guard_position,
        lab.starting_direction == lab.map@[lab.guard_position as int],
        lab.guard_path@.len() == 0,
{
    let (map, line_length) = map_and_line_length_from_raw_string(raw_string);
    proof {
        let k = choose|k: int| 0 <= k < raw_string@.len() && is_guard_char(#[trigger] raw_string@[k]);
        let f = |c: char| c != '\n';
        broadcast use vstd::seq_lib::group_filter_ensures;
        assert(raw_string@.filter(f).contains(raw_string@[k]));
        let j = choose|j: int| 0 <= j < map@.len() && map@[j] == raw_string@[k];
        assert(is_guard_char(map@[j]));
    }
    let current_pos = find_starting_guard_pos(map.as_slice());
    let starting_direction = map[current_pos];
    Lab {
        map,
        line_length,
        guard_position: current_pos,
        starting_position: current_pos,
        starting_direction,
        guard_path: Vec::new(),
    }
}

/// Marks `position` as visited.
pub fn mark_position_visited(lab: &mut Lab, position: usize)
    requires
        position < old(lab).map@.len(),
    ensures
        final(lab).map@ == old(lab).map@.update(position as int, VISITED_POS),
        final(lab).line_length == old(lab).line_length,
        final(lab).guard_position == old(lab).guard_position,
        final(lab).starting_position == old(lab).starting_position,
        final(lab).starting_direction == old(lab).starting_direction,
        final(lab).guard_path == old(lab).guard_path,
{
    lab.map.set(position, VISITED_POS);
}

/// Whether the cell `next_step_offset` away from the guard is an obstacle.
pub fn next_step_is_blocked(lab: &Lab, next_step_offset: i64) -> (r: bool)
    requires
        lab.guard_on_map(),
        0 <= lab.guard_position + next_step_offset < lab.map@.len(),
    ensures
        r == (lab.map@[lab.guard_position + next_step_offset] == '#'),
{
    let idx = lab.get_next_index(next_step_offset);
    let n = lab.map.len();
    assert(0 <= idx < n);
    lab.map[idx as usize] == '#'
}

/// The cell `offset` away from the guard lies off the map, or, for a guard
/// facing left or right, in another row.
pub open spec fn step_leaves_lab(lab: &Lab, offset: int) -> bool {
    let idx = lab.guard_position + offset;
    let c = lab.map@[lab.guard_position as int];
    ||| idx >= lab.map@.len() || idx < 0
    ||| (c == '<' || c == '>') && idx / (lab.line_length as int) != lab.guard_position as int / (
    lab.line_length as int)
}

/// Whether a step of `next_step_offset` takes the guard out of the lab.
pub fn next_step_exits_lab(lab: &Lab, next_step_offset: i64) -> (r: bool)
    requires
        lab.well_formed(),
        i64::MIN <= lab.guard_position + next_step_offset <= i64::MAX,
    ensures
        r == step_leaves_lab(lab, next_step_offset as int),
{
    let idx = lab.get_next_index(next_step_offset);
    if idx >= lab.map.len() as i64 || idx < 0 {
        return true;
    }
    let c = lab.get_guard_character();
    if c == '<' || c == '>' {
        let w = lab.line_length as i64;
        let rows: Vec<i64> = vec![lab.guard_position as i64 / w, idx / w];
        let first_row = rows[0];
        if rows[1] != first_row {
            return true;
        }
    }
    false
}

/// A guard at `pos` facing `c` would step off a map of `n` cells in rows of
/// `w`, or, facing left or right, into another row.
pub open spec fn exits_from(n: int, w: int, pos: int, c: char) -> bool {
    let idx = pos + step_offset(c, w);
    ||| idx >= n || idx < 0
    ||| (c == '<' || c == '>') && idx / w != pos / w
}

/// What the guard does next: leave the lab if its step would, turn if an
/// obstacle stands ahead, and step forward otherwise.
pub open spec fn next_action(lab: &Lab) -> NextGuardAction {
    let off = step_offset(lab.map@[lab.guard_position as int], lab.line_length as int);
    if step_leaves_lab(lab, off) {
        NextGuardAction::ExitLab
    } else if lab.map@[lab.guard_position + off] == '#' {
        NextGuardAction::Turn
    } else {
        NextGuardAction::Advance
    }
}

/// The offset of one step in the direction `c`.
fn offset_for(c: char, line_length: usize) -> (off: i64)
    requires
        line_length <= i64::MAX,
    ensures
        off == step_offset(c, line_length as int),
{
    if c == '^' {
        -(line_length as i64)
    } else if c == 'v' {
        line_length as i64
    } else if c == '>' {
        1
    } else {
        -1
    }
}

pub fn next_guard_action(lab: &Lab) -> (a: NextGuardAction)
    requires
        lab.well_formed(),
        is_guard_char(lab.map@[lab.guard_position as int]),
    ensures
        a == next_action(lab),
{
    let possible_next_step = offset_for(lab.get_guard_character(), lab.line_length);
    if next_step_exits_lab(lab, possible_next_step) {
        return NextGuardAction::ExitLab;
    } else if next_step_is_blocked(lab, possible_next_step) {
        return NextGuardAction::Turn;
    }
    NextGuardAction::Advance
}

/// Moves the guard one step the way it faces and returns where it stood;
/// the new cell shows the guard, and the old one is left as it was.
pub fn advance_guard(lab: &mut Lab) -> (old_position: usize)
    requires
        old(lab).well_formed(),
        is_guard_char(old(lab).map@[old(lab).guard_position as int]),
        !step_leaves_lab(
            old(lab),
            step_offset(old(lab).map@[old(lab).guard_position as int], old(lab).line_length as int),
        ),
    ensures
        old_position == old(lab).guard_position,
        final(lab).guard_position == old(lab).guard_position + step_offset(
            old(lab).map@[old(lab).guard_position as int],
            old(lab).line_length as int,
        ),
        final(lab).map@ == old(lab).map@.update(
            final(lab).guard_position as int,
            old(lab).map@[old(lab).guard_position as int],
        ),
        final(lab).well_formed(),
        final(lab).line_length == old(lab).line_length,
        final(lab).starting_position == old(lab).starting_position,
        final(lab).starting_direction == old(lab).starting_direction,
        final(lab).guard_path == old(lab).guard_path,
{
    let old_position = lab.guard_position;
    let current_guard_char = lab.map[old_position];
    let offset = offset_for(current_guard_char, lab.line_length);
    let next = lab.guard_position as i64 + offset;
    let n = lab.map.len();
    assert(0 <= next < n);
    lab.guard_position = next as usize;
    *lab.get_guard_char_reference() = current_guard_char;
    old_position
}

/// Turns the guard a quarter to the right.
pub fn rotate_guard(lab: &mut Lab)
    requires
        old(lab).guard_on_map(),
        is_guard_char(old(lab).map@[old(lab).guard_position as int]),
    ensures
        final(lab).map@ == old(lab).map@.update(
            old(lab).guard_position as int,
            turned_right(old(lab).map@[old(lab).guard_position as int]),
        ),
        final(lab).line_length == old(lab).line_length,
        final(lab).guard_position == old(lab).guard_position,
        final(lab).starting_position == old(lab).starting_position,
        final(lab).starting_direction == old(lab).starting_direction,
        final(lab).guard_path == old(lab).guard_path,
{
    let c = lab.map[lab.guard_position];
    let next = if c == '^' {
        '>'
    } else if c == '>' {
        'v'
    } else if c == 'v' {
        '<'
    } else {
        '^'
    };
    lab.map.set(lab.guard_position, next);
}

/// The place of a direction in clockwise order from up.
pub open spec fn direction_index(c: char) -> int {
    if c == '^' {
        0
    } else if c == '>' {
        1
    } else if c == 'v' {
        2
    } else {
        3
    }
}

/// The direction at a place in clockwise order from up.
pub open spec fn direction_at(d: int) -> char {
    if d == 0 {
        '^'
    } else if d == 1 {
        '>'
    } else if d == 2 {
        'v'
    } else {
        '<'
    }
}

/// The number of steps not yet taken, among those a table records.
pub open spec fn untaken(t: Seq<bool>) -> nat
    decreases t.len(),
{
    if t.len() == 0 {
        0
    } else {
        untaken(t.drop_last()) + if t.last() {
            0nat
        } else {
            1nat
        }
    }
}

/// Recording one more step leaves one fewer untaken.
proof fn lemma_untaken_drops(t: Seq<bool>, k: int)
    requires
        0 <= k < t.len(),
        !t[k],
    ensures
        untaken(t.update(k, true)) + 1 == untaken(t),
    decreases t.len(),
{
    if k < t.len() - 1 {
        lemma_untaken_drops(t.drop_last(), k);
        assert(t.update(k, true).drop_last() =~= t.drop_last().update(k, true));
    } else {
        assert(t.update(k, true).drop_last() =~= t.drop_last());
    }
}

/// The steps of the path are on the map and face some direction, each is
/// recorded once, and `taken` marks exactly those steps, by `4 * position +
/// direction`.
pub open spec fn path_recorded(lab: &Lab, taken: Seq<bool>) -> bool {
    &&& taken.len() == 4 * lab.map@.len()
    &&& lab.guard_path@.no_duplicates()
    &&& forall|i: int|
        0 <= i < lab.guard_path@.len() ==> (#[trigger] lab.guard_path@[i]).0 < lab.map@.len()
            && is_guard_char(lab.guard_path@[i].1)
    &&& forall|p: int, d: int|
        0 <= p < lab.map@.len() && 0 <= d < 4 ==> (#[trigger] taken[4 * p + d] <==> lab.guard_path@.contains(
            (p as usize, direction_at(d)),
        ))
}

/// Where a step of the guard is recorded.
fn step_key(position: usize, c: char) -> (k: usize)
    requires
        is_guard_char(c),
        4 * position + 3 <= usize::MAX,
    ensures
        k == 4 * position + direction_index(c),
{
    let d: usize = if c == '^' {
        0
    } else if c == '>' {
        1
    } else if c == 'v' {
        2
    } else {
        3
    };
    4 * position + d
}

/// Records the step `(position, c)` on the path unless it is there; says
/// whether it was.
fn record_step(lab: &mut Lab, taken: &mut Vec<bool>, position: usize, c: char) -> (was_there: bool)
    requires
        path_recorded(old(lab), old(taken)@),
        position < old(lab).map@.len(),
        is_guard_char(c),
        4 * old(lab).map@.len() <= usize::MAX,
    ensures
        was_there == old(lab).guard_path@.contains((position, c)),
        path_recorded(final(lab), final(taken)@),
        final(lab).guard_path@ == (if was_there {
            old(lab).guard_path@
        } else {
            old(lab).guard_path@.push((position, c))
        }),
        was_there ==> final(taken)@ == old(taken)@,
        !was_there ==> final(taken)@ == old(taken)@.update(4 * position + direction_index(c), true),
        !was_there ==> !old(taken)@[4 * position + direction_index(c)],
        final(lab).map == old(lab).map,
        final(lab).line_length == old(lab).line_length,
        final(lab).guard_position == old(lab).guard_position,
        final(lab).starting_position == old(lab).starting_position,
        final(lab).starting_direction == old(lab).starting_direction,
{
    let k = step_key(position, c);
    proof {
        assert(direction_at(direction_index(c)) == c);
        assert(old(taken)@[4 * (position as int) + direction_index(c)] <==> old(lab).guard_path@.contains((position, c)));
    }
    if taken[k] {
        return true;
    }
    taken.set(k, true);
    let ghost before = lab.guard_path@;
    lab.guard_path.push((position, c));
    proof {
        let path = lab.guard_path@;
        assert forall|i: int, j: int| 0 <= i < j < path.len() implies path[i] != path[j] by {
            if j == path.len() - 1 {
                assert(before.contains(before[i]));
            }
        }
        assert forall|i: int| 0 <= i < path.len() implies (#[trigger] path[i]).0 < lab.map@.len()
            && is_guard_char(path[i].1) by {
            if i < before.len() {
                assert(path[i] == before[i]);
            }
        }
        assert forall|p: int, d: int| 0 <= p < lab.map@.len() && 0 <= d < 4 implies (
            #[trigger] taken@[4 * p + d] <==> path.contains((p as usize, direction_at(d)))) by {
            if path.contains((p as usize, direction_at(d))) && !before.contains((p as usize, direction_at(d))) {
                let i = choose|i: int| 0 <= i < path.len() && path[i] == (p as usize, direction_at(d));
                assert(i == before.len());
                assert(p == position && direction_at(d) == c);
                assert(d == direction_index(c));
            }
            if before.contains((p as usize, direction_at(d))) {
                let i = choose|i: int| 0 <= i < before.len() && before[i] == (p as usize, direction_at(d));
                assert(path[i] == before[i]);
            }
            if 4 * p + d == 4 * position + direction_index(c) {
                assert(p == position && d == direction_index(c));
                assert(path[before.len() as int] == (position, c));
            }
        }
    }
    false
}

/// A table of the steps of the path, by `4 * position + direction`.
fn taken_steps(lab: &Lab) -> (taken: Vec<bool>)
    requires
        lab.guard_path@.no_duplicates(),
        forall|i: int|
            0 <= i < lab.guard_path@.len() ==> (#[trigger] lab.guard_path@[i]).0 < lab.map@.len()
                && is_guard_char(lab.guard_path@[i].1),
        4 * lab.map@.len() <= usize::MAX,
    ensures
        path_recorded(lab, taken@),
{
    let n = 4 * lab.map.len();
    let mut taken: Vec<bool> = Vec::new();
    let mut i: usize = 0;
    while i < n
        invariant
            n == 4 * lab.map@.len(),
            i <= n,
            taken@.len() == i,
            forall|k: int| 0 <= k < i ==> !(#[trigger] taken@[k]),
        decreases n - i,
    {
        taken.push(false);
        i = i + 1;
    }
    let mut j: usize = 0;
    while j < lab.guard_path.len()
        invariant
            j <= lab.guard_path@.len(),
            taken@.len() == 4 * lab.map@.len(),
            4 * lab.map@.len() <= usize::MAX,
            lab.guard_path@.no_duplicates(),
            forall|i: int|
                0 <= i < lab.guard_path@.len() ==> (#[trigger] lab.guard_path@[i]).0 < lab.map@.len()
                    && is_guard_char(lab.guard_path@[i].1),
            forall|p: int, d: int|
                0 <= p < lab.map@.len() && 0 <= d < 4 ==> (#[trigger] taken@[4 * p + d] <==> lab.guard_path@.take(
                    j as int,
                ).contains((p as usize, direction_at(d)))),
        decreases lab.guard_path@.len() - j,
    {
        let (position, c) = lab.guard_path[j];
        let k = step_key(position, c);
        let ghost before = taken@;
        taken.set(k, true);
        proof {
            let done = lab.guard_path@.take(j as int);
            let next = lab.guard_path@.take(j as int + 1);
            assert(next =~= done.push((position, c)));
            assert forall|p: int, d: int| 0 <= p < lab.map@.len() && 0 <= d < 4 implies (
                #[trigger] taken@[4 * p + d] <==> next.contains((p as usize, direction_at(d)))) by {
                if next.contains((p as usize, direction_at(d))) && !done.contains((p as usize, direction_at(d))) {
                    let i = choose|i: int| 0 <= i < next.len() && next[i] == (p as usize, direction_at(d));
                    assert(i == done.len());
                    assert(d == direction_index(c));
                }
                if done.contains((p as usize, direction_at(d))) {
                    let i = choose|i: int| 0 <= i < done.len() && done[i] == (p as usize, direction_at(d));
                    assert(next[i] == done[i]);
                }
                if 4 * p + d == 4 * position + direction_index(c) {
                    assert(p == position && d == direction_index(c));
                    assert(direction_at(direction_index(c)) == c);
                    assert(next[done.len() as int] == (position, c));
                }
            }
        }
        j = j + 1;
    }
    assert(lab.guard_path@.take(lab.guard_path@.len() as int) =~= lab.guard_path@);
    taken
}

/// The guard walks the lab, marking each cell it leaves as visited and
/// recording each step on its path, until it walks out of the lab or comes
/// back to a step of its path. It also stops, as stuck in a loop, when it
/// would leave a cell the same way a second time, or turns four times in one
/// cell: from there the walk could only repeat. Says whether it was stuck in
/// a loop.
pub fn calculate_guard_path(lab: &mut Lab) -> (looped: bool)
    requires
        old(lab).well_formed(),
        is_guard_char(old(lab).map@[old(lab).guard_position as int]),
        4 * old(lab).map@.len() <= usize::MAX,
        old(lab).guard_path@.no_duplicates(),
        forall|i: int|
            0 <= i < old(lab).guard_path@.len() ==> (#[trigger] old(lab).guard_path@[i]).0 < old(
                lab,
            ).map@.len() && is_guard_char(old(lab).guard_path@[i].1),
    ensures
        final(lab).well_formed(),
        final(lab).map@.len() == old(lab).map@.len(),
        final(lab).line_length == old(lab).line_length,
        final(lab).starting_position == old(lab).starting_position,
        final(lab).starting_direction == old(lab).starting_direction,
        forall|i: int| 0 <= i < old(lab).map@.len() ==> (#[trigger] final(lab).map@[i] == '#') == (old(
            lab,
        ).map@[i] == '#'),
        old(lab).guard_path@.is_prefix_of(final(lab).guard_path@),
        !looped ==> final(lab).map@[final(lab).guard_position as int] == VISITED_POS,
        !looped ==> exists|c: char|
            is_guard_char(c) && final(lab).guard_path@.contains((final(lab).guard_position, c))
                && #[trigger] exits_from(
                final(lab).map@.len() as int,
                final(lab).line_length as int,
                final(lab).guard_position as int,
                c,
            ),
{
    let mut taken = taken_steps(lab);
    // The steps this walk has taken, by `4 * position + direction`.
    let mut departed: Vec<bool> = Vec::new();
    let n = 4 * lab.map.len();
    while departed.len() < n
        invariant
            departed@.len() <= n,
            n == 4 * lab.map@.len(),
        decreases n - departed@.len(),
    {
        departed.push(false);
    }
    let mut turns: usize = 0;
    loop
        invariant
            lab.well_formed(),
            lab.map@.len() == old(lab).map@.len(),
            lab.line_length == old(lab).line_length,
            lab.starting_position == old(lab).starting_position,
            lab.starting_direction == old(lab).starting_direction,
            is_guard_char(lab.map@[lab.guard_position as int]),
            4 * lab.map@.len() <= usize::MAX,
            path_recorded(lab, taken@),
            departed@.len() == 4 * lab.map@.len(),
            turns < 4,
            forall|i: int| 0 <= i < old(lab).map@.len() ==> (#[trigger] lab.map@[i] == '#') == (old(
                lab,
            ).map@[i] == '#'),
            old(lab).guard_path@.is_prefix_of(lab.guard_path@),
        decreases untaken(departed@), 4 - turns,
    {
        match next_guard_action(lab) {
            NextGuardAction::Advance => {
                let dir = lab.get_guard_character();
                let ghost before = lab.guard_path@;
                let old_position = advance_guard(lab);
                mark_position_visited(lab, old_position);
                // Back on a step of the path: the walk repeats from here.
                if record_step_seen(lab, &taken, lab.guard_position, dir) {
                    return true;
                }
                // Leaving a cell the same way twice repeats the walk as well.
                let key = step_key(old_position, dir);
                if departed[key] {
                    return true;
                }
                proof {
                    lemma_untaken_drops(departed@, key as int);
                }
                departed.set(key, true);
                record_step(lab, &mut taken, old_position, dir);
                assert(before.is_prefix_of(lab.guard_path@));
                turns = 0;
            },
            NextGuardAction::Turn => {
                rotate_guard(lab);
                turns = turns + 1;
                if turns == 4 {
                    return true;
                }
            },
            NextGuardAction::ExitLab => {
                let dir = lab.get_guard_character();
                let position = lab.guard_position;
                assert(exits_from(lab.map@.len() as int, lab.line_length as int, position as int, dir));
                let ghost before = lab.guard_path@;
                record_step(lab, &mut taken, position, dir);
                proof {
                    if !before.contains((position, dir)) {
                        assert(lab.guard_path@[lab.guard_path@.len() - 1] == (position, dir));
                    }
                }
                assert(lab.guard_path@.contains((position, dir)));
                mark_position_visited(lab, position);
                return false;
            },
        }
    }
}

/// A copy of `v`.
fn copy_cells<T: Copy>(v: &Vec<T>) -> (r: Vec<T>)
    ensures
        r@ == v@,
{
    let mut r: Vec<T> = Vec::new();
    let mut i: usize = 0;
    while i < v.len()
        invariant
            i <= v@.len(),
            r@ == v@.take(i as int),
        decreases v@.len() - i,
    {
        r.push(v[i]);
        assert(v@.take(i as int + 1) =~= v@.take(i as int).push(v@[i as int]));
        i = i + 1;
    }
    assert(v@.take(v@.len() as int) =~= v@);
    r
}

impl Lab {
    /// A copy of the lab.
    pub fn duplicate(&self) -> (r: Lab)
        ensures
            r.map@ == self.map@,
            r.line_length == self.line_length,
            r.guard_position == self.guard_position,
            r.starting_position == self.starting_position,
            r.starting_direction == self.starting_direction,
            r.guard_path@ == self.guard_path@,
    {
        Lab {
            map: copy_cells(&self.map),
            line_length: self.line_length,
            guard_position: self.guard_position,
            starting_position: self.starting_position,
            starting_direction: self.starting_direction,
            guard_path: copy_cells(&self.guard_path),
        }
    }
}

/// For each position of the path other than the start, taken once, puts an
/// obstacle there in a fresh copy of the lab reset to its start, walks the
/// guard, and counts the copies where the guard gets stuck in a loop.
pub fn count_all_possible_guard_loops(lab: &Lab) -> (loops: usize)
    requires
        lab.well_formed(),
        4 * lab.map@.len() <= usize::MAX,
        forall|i: int| 0 <= i < lab.guard_path@.len() ==> (#[trigger] lab.guard_path@[i]).0 < lab.map@.len(),
    ensures
        loops <= lab.guard_path@.len(),
{
    let mut loops: usize = 0;
    let mut unique_starts: Vec<bool> = Vec::new();
    let mut i: usize = 0;
    while i < lab.map.len()
        invariant
            i <= lab.map@.len(),
            unique_starts@.len() == i,
        decreases lab.map@.len() - i,
    {
        unique_starts.push(false);
        i = i + 1;
    }
    let mut k: usize = 0;
    while k < lab.guard_path.len()
        invariant
            k <= lab.guard_path@.len(),
            loops <= k,
            unique_starts@.len() == lab.map@.len(),
            lab.well_formed(),
            4 * lab.map@.len() <= usize::MAX,
            forall|i: int| 0 <= i < lab.guard_path@.len() ==> (#[trigger] lab.guard_path@[i]).0 < lab.map@.len(),
        decreases lab.guard_path@.len() - k,
    {
        let (pos, _) = lab.guard_path[k];
        if pos != lab.starting_position && !unique_starts[pos] {
            unique_starts.set(pos, true);
            let mut lab_copy = lab.duplicate();
            lab_copy.reset_to_starting_state();
            lab_copy.map.set(pos, '#');
            proof {
                assert(lab_copy.guard_path@.no_duplicates());
            }
            if calculate_guard_path(&mut lab_copy) {
                loops = loops + 1;
            }
        }
        k = k + 1;
    }
    loops
}

/// How many cells of `map` are marked visited.
pub open spec fn visited_count(map: Seq<char>) -> nat
    decreases map.len(),
{
    if map.len() == 0 {
        0
    } else {
        visited_count(map.drop_last()) + if map.last() == VISITED_POS {
            1nat
        } else {
            0nat
        }
    }
}

/// The number of cells marked visited.
pub fn count_visited(lab: &Lab) -> (n: usize)
    ensures
        n == visited_count(lab.map@),
{
    let mut n: usize = 0;
    let mut i: usize = 0;
    while i < lab.map.len()
        invariant
            i <= lab.map@.len(),
            n == visited_count(lab.map@.take(i as int)),
            n <= i,
        decreases lab.map@.len() - i,
    {
        assert(lab.map@.take(i as int + 1).drop_last() =~= lab.map@.take(i as int));
        if lab.map[i] == VISITED_POS {
            n = n + 1;
        }
        i = i + 1;
    }
    assert(lab.map@.take(lab.map@.len() as int) =~= lab.map@);
    n
}

/// Whether the path holds the step `(position, c)`.
fn record_step_seen(lab: &Lab, taken: &Vec<bool>, position: usize, c: char) -> (seen: bool)
    requires
        path_recorded(lab, taken@),
        position < lab.map@.len(),
        is_guard_char(c),
        4 * lab.map@.len() <= usize::MAX,
    ensures
        seen == lab.guard_path@.contains((position, c)),
{
    let k = step_key(position, c);
    proof {
        assert(direction_at(direction_index(c)) == c);
        assert(taken@[4 * (position as int) + direction_index(c)] <==> lab.guard_path@.contains((position, c)));
    }
    taken[k]
}

/// A mutable reference to one cell of `v`.
fn vec_slot(v: &mut Vec<char>, i: usize) -> (r: &mut char)
    requires
        i < old(v)@.len(),
    ensures
        *r == old(v)@[i as int],
        final(v)@ == old(v)@.update(i as int, *final(r)),
{
    &mut v[i]
}

} // verus!

//! A word search on a board of characters kept row after row in one vector:
//! which runs of four indices stay on the board, and which of them spell the
//! word.
use vstd::prelude::*;
use vstd::string::StrSliceExecFns;

verus! {

/// Four board indices that a word of four letters may occupy, in reading order.
#[derive(Hash, PartialEq, Eq, Debug, Copy, Clone, Structural)]
pub struct IndexSequencePartOne(pub i32, pub i32, pub i32, pub i32);

/// Three board indices, one arm of a cross of two words of three letters.
#[derive(Hash, PartialEq, Eq, Debug, Copy, Clone, Structural)]
pub struct IndexSequencePartTwo(pub i32, pub i32, pub i32);

/// The two arms of a cross.
#[derive(Hash, PartialEq, Eq, Debug, Copy, Clone, Structural)]
pub struct XmasSequencePair(pub IndexSequencePartTwo, pub IndexSequencePartTwo);

/// The board: its characters row after row, the length of a row, and the
/// sequences found and tried so far. Each list of sequences holds no
/// sequence twice.
pub struct WordSearchBoard {
    pub board: Vec<char>,
    pub board_line_length: i32,
    pub matched_sequences_part_one: Vec<IndexSequencePartOne>,
    pub tested_sequences_part_one: Vec<IndexSequencePartOne>,
    pub matched_sequences_part_two: Vec<XmasSequencePair>,
    pub tested_sequences_part_two: Vec<XmasSequencePair>,
}

/// The word looked for.
pub open spec fn word_to_match() -> Seq<char> {
    seq!['X', 'M', 'A', 'S']
}

/// Every index lies on a board of `n` cells.
pub open spec fn all_on_board(vals: Seq<i32>, n: int) -> bool {
    forall|i: int| 0 <= i < vals.len() ==> 0 <= #[trigger] vals[i] < n
}

/// Every index lies in the same row as the first one, for rows of `w` cells.
pub open spec fn same_row(vals: Seq<i32>, w: int) -> bool {
    forall|i: int| 0 <= i < vals.len() ==> (#[trigger] vals[i]) as int / w == vals[0] as int / w
}

/// The columns of the indices, for rows of `w` cells, either never fall or
/// strictly fall from each index to the next: the run does not wrap round an
/// edge of the board.
pub open spec fn columns_monotone(vals: Seq<i32>, w: int) -> bool {
    (forall|i: int|
        0 <= i < vals.len() - 1 ==> (#[trigger] vals[i]) as int % w <= vals[i + 1] as int % w)
        || (forall|i: int|
        0 <= i < vals.len() - 1 ==> (#[trigger] vals[i]) as int % w > vals[i + 1] as int % w)
}

impl WordSearchBoard {
    /// Rows are not empty, every index of the board fits in an `i32`, and no
    /// list of sequences holds a sequence twice.
    pub open spec fn well_formed(&self) -> bool {
        &&& self.board_line_length > 0
        &&& self.board@.len() <= i32::MAX
        &&& self.matched_sequences_part_one@.no_duplicates()
        &&& self.tested_sequences_part_one@.no_duplicates()
    }

    /// The number of cells, as the index type.
    pub open spec fn cells(&self) -> int {
        self.board@.len() as int
    }
}

impl IndexSequencePartOne {
    /// The four indices in order.
    pub open spec fn indices(self) -> Seq<i32> {
        seq![self.0, self.1, self.2, self.3]
    }

    pub fn as_array(&self) -> (a: [i32; 4])
        ensures
            a@ == self.indices(),
    {
        [self.0, self.1, self.2, self.3]
    }
}

impl IndexSequencePartTwo {
    /// The three indices in order.
    pub open spec fn indices(self) -> Seq<i32> {
        seq![self.0, self.1, self.2]
    }

    pub fn as_array(&self) -> (a: [i32; 3])
        ensures
            a@ == self.indices(),
    {
        [self.0, self.1, self.2]
    }
}

/// Whether a run of indices stays on the board when read down a column,
/// along a row, or along a diagonal.
pub trait InBounds {
    /// Every index lies on the board.
    spec fn vertically_on_board(&self, board: &WordSearchBoard) -> bool;

    /// On the board, and every run lies within one row.
    spec fn horizontally_on_board(&self, board: &WordSearchBoard) -> bool;

    /// On the board, and no run wraps round the left or right edge.
    spec fn diagonally_on_board(&self, board: &WordSearchBoard) -> bool;

    fn is_horizontal_in_bounds(&self, board: &WordSearchBoard) -> (r: bool)
        requires
            board.well_formed(),
        ensures
            r == self.horizontally_on_board(board),
    ;

    fn is_vertical_in_bounds(&self, board: &WordSearchBoard) -> (r: bool)
        requires
            board.well_formed(),
        ensures
            r == self.vertically_on_board(board),
    ;

    fn is_diagonal_in_bounds(&self, board: &WordSearchBoard) -> (r: bool)
        requires
            board.well_formed(),
        ensures
            r == self.diagonally_on_board(board),
    ;
}

/// Whether every index lies on a board of `n` cells.
fn indices_on_board(vals: &[i32], n: i32) -> (r: bool)
    ensures
        r == all_on_board(vals@, n as int),
{
    let mut i: usize = 0;
    while i < vals.len()
        invariant
            i <= vals@.len(),
            forall|j: int| 0 <= j < i ==> 0 <= #[trigger] vals@[j] < n,
        decreases vals@.len() - i,
    {
        if vals[i] < 0 || vals[i] >= n {
            return false;
        }
        i = i + 1;
    }
    true
}

/// Whether every index lies in the row of the first one.
fn indices_in_one_row(vals: &[i32], w: i32) -> (r: bool)
    requires
        w > 0,
        vals@.len() > 0,
        forall|j: int| 0 <= j < vals@.len() ==> 0 <= #[trigger] vals@[j],
    ensures
        r == same_row(vals@, w as int),
{
    let mut rows: Vec<i32> = Vec::new();
    let mut i: usize = 0;
    while i < vals.len()
        invariant
            w > 0,
            forall|j: int| 0 <= j < vals@.len() ==> 0 <= #[trigger] vals@[j],
            i <= vals@.len(),
            rows@.len() == i,
            forall|j: int| 0 <= j < i ==> #[trigger] rows@[j] == vals@[j] as int / w as int,
        decreases vals@.len() - i,
    {
        rows.push(vals[i] / w);
        i = i + 1;
    }
    let first_row = rows[0];
    let mut i: usize = 0;
    while i < rows.len()
        invariant
            rows@.len() == vals@.len(),
            i <= rows@.len(),
            first_row == rows@[0],
            forall|j: int| 0 <= j < rows@.len() ==> #[trigger] rows@[j] == vals@[j] as int / w as int,
            forall|j: int| 0 <= j < i ==> #[trigger] rows@[j] == first_row,
        decreases rows@.len() - i,
    {
        if rows[i] != first_row {
            assert(vals@[i as int] as int / w as int != vals@[0] as int / w as int);
            return false;
        }
        i = i + 1;
    }
    assert forall|j: int| 0 <= j < vals@.len() implies (#[trigger] vals@[j]) as int / w as int
        == vals@[0] as int / w as int by {
        assert(rows@[j] == first_row);
    }
    true
}

/// Whether the columns of the indices never fall, or strictly fall, from
/// each index to the next.
fn indices_columns_monotone(vals: &[i32], w: i32) -> (r: bool)
    requires
        w > 0,
        forall|j: int| 0 <= j < vals@.len() ==> 0 <= #[trigger] vals@[j],
    ensures
        r == columns_monotone(vals@, w as int),
{
    let mut cols: Vec<i32> = Vec::new();
    let mut i: usize = 0;
    while i < vals.len()
        invariant
            w > 0,
            forall|j: int| 0 <= j < vals@.len() ==> 0 <= #[trigger] vals@[j],
            i <= vals@.len(),
            cols@.len() == i,
            forall|j: int| 0 <= j < i ==> #[trigger] cols@[j] == vals@[j] as int % w as int,
        decreases vals@.len() - i,
    {
        cols.push(vals[i] % w);
        i = i + 1;
    }
    let mut rising = true;
    let mut falling = true;
    let mut i: usize = 1;
    while i < cols.len()
        invariant
            1 <= i,
            i <= cols@.len() || cols@.len() == 0,
            rising <==> forall|j: int| 1 <= j < i && j < cols@.len() ==> cols@[j - 1] <= #[trigger] cols@[j],
            falling <==> forall|j: int| 1 <= j < i && j < cols@.len() ==> cols@[j - 1] > #[trigger] cols@[j],
        decreases cols@.len() - i,
    {
        if cols[i - 1] > cols[i] {
            rising = false;
        }
        if cols[i - 1] <= cols[i] {
            falling = false;
        }
        i = i + 1;
    }
    proof {
        assert(rising <==> forall|j: int| 0 <= j < vals@.len() - 1 ==> (#[trigger] vals@[j]) as int
            % w as int <= vals@[j + 1] as int % w as int) by {
            if rising {
                assert forall|j: int| 0 <= j < vals@.len() - 1 implies (#[trigger] vals@[j]) as int
                    % w as int <= vals@[j + 1] as int % w as int by {
                    assert(cols@[(j + 1) - 1] <= cols@[j + 1]);
                }
            } else {
                let j = choose|j: int| 1 <= j < i && j < cols@.len() && !(cols@[j - 1] <= #[trigger] cols@[j]);
                assert(!(vals@[j - 1] as int % w as int <= vals@[(j - 1) + 1] as int % w as int));
            }
        }
        assert(falling <==> forall|j: int| 0 <= j < vals@.len() - 1 ==> (#[trigger] vals@[j]) as int
            % w as int > vals@[j + 1] as int % w as int) by {
            if falling {
                assert forall|j: int| 0 <= j < vals@.len() - 1 implies (#[trigger] vals@[j]) as int
                    % w as int > vals@[j + 1] as int % w as int by {
                    assert(cols@[(j + 1) - 1] > cols@[j + 1]);
                }
            } else {
                let j = choose|j: int| 1 <= j < i && j < cols@.len() && !(cols@[j - 1] > #[trigger] cols@[j]);
                assert(!(vals@[j - 1] as int % w as int > vals@[(j - 1) + 1] as int % w as int));
            }
        }
    }
    rising || falling
}

impl InBounds for IndexSequencePartOne {
    open spec fn vertically_on_board(&self, board: &WordSearchBoard) -> bool {
        all_on_board(self.indices(), board.cells())
    }

    open spec fn horizontally_on_board(&self, board: &WordSearchBoard) -> bool {
        self.vertically_on_board(board) && same_row(
            self.indices(),
            board.board_line_length as int,
        )
    }

    open spec fn diagonally_on_board(&self, board: &WordSearchBoard) -> bool {
        self.vertically_on_board(board) && columns_monotone(
            self.indices(),
            board.board_line_length as int,
        )
    }

    fn is_vertical_in_bounds(&self, board: &WordSearchBoard) -> (r: bool) {
        let vals = self.as_array();
        indices_on_board(&vals, board.board.len() as i32)
    }

    fn is_horizontal_in_bounds(&self, board: &WordSearchBoard) -> (r: bool) {
        if self.is_vertical_in_bounds(board) {
            let vals = self.as_array();
            // Every index must fall in the row of the first one, or the run
            // wraps from one row into the next.
            return indices_in_one_row(&vals, board.board_line_length);
        }
        false
    }

    fn is_diagonal_in_bounds(&self, board: &WordSearchBoard) -> (r: bool) {
        if self.is_vertical_in_bounds(board) {
            let vals = self.as_array();
            // A diagonal that wraps round an edge shows as columns out of order.
            return indices_columns_monotone(&vals, board.board_line_length);
        }
        false
    }
}

impl InBounds for XmasSequencePair {
    open spec fn vertically_on_board(&self, board: &WordSearchBoard) -> bool {
        all_on_board(self.0.indices(), board.cells()) && all_on_board(
            self.1.indices(),
            board.cells(),
        )
    }

    open spec fn horizontally_on_board(&self, board: &WordSearchBoard) -> bool {
        &&& self.vertically_on_board(board)
        &&& same_row(self.0.indices(), board.board_line_length as int)
        &&& same_row(self.1.indices(), board.board_line_length as int)
    }

    open spec fn diagonally_on_board(&self, board: &WordSearchBoard) -> bool {
        &&& self.vertically_on_board(board)
        &&& columns_monotone(self.0.indices(), board.board_line_length as int)
        &&& columns_monotone(self.1.indices(), board.board_line_length as int)
    }

    fn is_vertical_in_bounds(&self, board: &WordSearchBoard) -> (r: bool) {
        let n = board.board.len() as i32;
        let first = self.0.as_array();
        let second = self.1.as_array();
        indices_on_board(&first, n) && indices_on_board(&second, n)
    }

    fn is_horizontal_in_bounds(&self, board: &WordSearchBoard) -> (r: bool) {
        if self.is_vertical_in_bounds(board) {
            let first = self.0.as_array();
            let second = self.1.as_array();
            return indices_in_one_row(&first, board.board_line_length) && indices_in_one_row(
                &second,
                board.board_line_length,
            );
        }
        false
    }

    fn is_diagonal_in_bounds(&self, board: &WordSearchBoard) -> (r: bool) {
        if self.is_vertical_in_bounds(board) {
            let first = self.0.as_array();
            let second = self.1.as_array();
            return indices_columns_monotone(&first, board.board_line_length)
                && indices_columns_monotone(&second, board.board_line_length);
        }
        false
    }
}

/// The board whose cells are the characters of `rows`, row after row.
pub open spec fn joined_rows(rows: Seq<String>) -> Seq<char>
    decreases rows.len(),
{
    if rows.len() == 0 {
        Seq::empty()
    } else {
        joined_rows(rows.drop_last()) + rows.last()@
    }
}

/// Builds a board from its rows of text; the length of a row is taken from
/// the first one. No sequence has been found or tried yet.
pub fn build_board_from_lines(rows: &Vec<String>) -> (b: WordSearchBoard)
    requires
        rows@.len() > 0,
        rows@[0]@.len() <= i32::MAX,
    ensures
        b.board@ == joined_rows(rows@),
        b.board_line_length == rows@[0]@.len(),
        b.matched_sequences_part_one@.len() == 0,
        b.tested_sequences_part_one@.len() == 0,
        b.matched_sequences_part_two@.len() == 0,
        b.tested_sequences_part_two@.len() == 0,
{
    let board_line_length = rows[0].as_str().unicode_len();
    let mut board: Vec<char> = Vec::new();
    let mut r: usize = 0;
    while r < rows.len()
        invariant
            r <= rows@.len(),
            board@ == joined_rows(rows@.take(r as int)),
        decreases rows@.len() - r,
    {
        let row = rows[r].as_str();
        let n = row.unicode_len();
        let ghost before = board@;
        let mut c: usize = 0;
        while c < n
            invariant
                n == row@.len(),
                c <= n,
                board@ == before + row@.take(c as int),
            decreases n - c,
        {
            board.push(row.get_char(c));
            assert(row@.take(c as int + 1) =~= row@.take(c as int).push(row@[c as int]));
            c = c + 1;
        }
        assert(row@.take(n as int) =~= row@);
        assert(rows@.take(r as int + 1).drop_last() =~= rows@.take(r as int));
        r = r + 1;
    }
    assert(rows@.take(rows@.len() as int) =~= rows@);
    WordSearchBoard {
        board,
        board_line_length: board_line_length as i32,
        matched_sequences_part_one: Vec::new(),
        tested_sequences_part_one: Vec::new(),
        matched_sequences_part_two: Vec::new(),
        tested_sequences_part_two: Vec::new(),
    }
}

/// The cells at the indices of `seq` spell the word, in order.
pub open spec fn spells_word(seq: IndexSequencePartOne, board: &WordSearchBoard) -> bool {
    forall|i: int| 0 <= i < 4 ==> board.board@[#[trigger] seq.indices()[i] as int] == word_to_match()[i]
}

/// Whether the cells at the indices of `seq` spell the word.
pub fn evaluate_seq_for_match(seq: &IndexSequencePartOne, board: &WordSearchBoard) -> (r: bool)
    requires
        all_on_board(seq.indices(), board.cells()),
    ensures
        r == spells_word(*seq, board),
{
    let word: Vec<char> = vec!['X', 'M', 'A', 'S'];
    let vals = seq.as_array();
    let mut i: usize = 0;
    while i < 4
        invariant
            i <= 4,
            word@ == word_to_match(),
            vals@ == seq.indices(),
            all_on_board(seq.indices(), board.cells()),
            forall|j: int| 0 <= j < i ==> board.board@[#[trigger] seq.indices()[j] as int] == word_to_match()[j],
        decreases 4 - i,
    {
        if board.board[vals[i] as usize] != word[i] {
            return false;
        }
        i = i + 1;
    }
    true
}

/// Tries each of `potential_matches`: those that spell the word join the
/// matched sequences, and all of them join the tried ones.
pub fn evaluate_words(potential_matches: Vec<IndexSequencePartOne>, board: &mut WordSearchBoard)
    requires
        old(board).well_formed(),
        forall|i: int| 0 <= i < potential_matches@.len() ==> all_on_board(
            (#[trigger] potential_matches@[i]).indices(),
            old(board).cells(),
        ),
    ensures
        final(board).well_formed(),
        final(board).board == old(board).board,
        final(board).board_line_length == old(board).board_line_length,
        final(board).matched_sequences_part_two == old(board).matched_sequences_part_two,
        final(board).tested_sequences_part_two == old(board).tested_sequences_part_two,
        forall|s: IndexSequencePartOne| #[trigger] final(board).matched_sequences_part_one@.contains(s) <==> (
            old(board).matched_sequences_part_one@.contains(s) || (potential_matches@.contains(s)
                && spells_word(s, old(board)))),
        forall|s: IndexSequencePartOne| #[trigger] final(board).tested_sequences_part_one@.contains(s) <==> (
            old(board).tested_sequences_part_one@.contains(s) || potential_matches@.contains(s)),
{
    let mut i: usize = 0;
    while i < potential_matches.len()
        invariant
            i <= potential_matches@.len(),
            board.well_formed(),
            board.board == old(board).board,
            board.board_line_length == old(board).board_line_length,
            board.matched_sequences_part_two == old(board).matched_sequences_part_two,
            board.tested_sequences_part_two == old(board).tested_sequences_part_two,
            forall|j: int| 0 <= j < potential_matches@.len() ==> all_on_board(
                (#[trigger] potential_matches@[j]).indices(),
                old(board).cells(),
            ),
            forall|s: IndexSequencePartOne| #[trigger] board.matched_sequences_part_one@.contains(s) <==> (
                old(board).matched_sequences_part_one@.contains(s) || (potential_matches@.take(i as int).contains(s)
                    && spells_word(s, old(board)))),
            forall|s: IndexSequencePartOne| #[trigger] board.tested_sequences_part_one@.contains(s) <==> (
                old(board).tested_sequences_part_one@.contains(s) || potential_matches@.take(i as int).contains(s)),
        decreases potential_matches@.len() - i,
    {
        let seq = potential_matches[i];
        let ghost matched = board.matched_sequences_part_one@;
        let ghost tested = board.tested_sequences_part_one@;
        if evaluate_seq_for_match(&seq, board) {
            insert_sequence(&mut board.matched_sequences_part_one, seq);
        }
        insert_sequence(&mut board.tested_sequences_part_one, seq);
        proof {
            let done = potential_matches@.take(i as int);
            let next = potential_matches@.take(i as int + 1);
            assert(next =~= done.push(seq));
            assert forall|s: IndexSequencePartOne| next.contains(s) <==> done.contains(s) || s == seq by {
                if next.contains(s) && s != seq {
                    let k = choose|k: int| 0 <= k < next.len() && next[k] == s;
                    assert(done[k] == s);
                }
                if done.contains(s) {
                    let k = choose|k: int| 0 <= k < done.len() && done[k] == s;
                    assert(next[k] == s);
                }
                if s == seq {
                    assert(next[i as int] == s);
                }
            }
            assert forall|s: IndexSequencePartOne| #[trigger] board.matched_sequences_part_one@.contains(s)
                <==> (matched.contains(s) || (s == seq && spells_word(s, old(board)))) by {
                if board.matched_sequences_part_one@ != matched {
                    let v = board.matched_sequences_part_one@;
                    assert(v == matched.push(seq));
                    if matched.contains(s) {
                        let k = choose|k: int| 0 <= k < matched.len() && matched[k] == s;
                        assert(v[k] == s);
                    }
                    if v.contains(s) && s != seq {
                        let k = choose|k: int| 0 <= k < v.len() && v[k] == s;
                        assert(matched[k] == s);
                    }
                    assert(v[matched.len() as int] == seq);
                }
            }
            assert forall|s: IndexSequencePartOne| #[trigger] board.tested_sequences_part_one@.contains(s)
                <==> (tested.contains(s) || s == seq) by {
                if board.tested_sequences_part_one@ != tested {
                    let v = board.tested_sequences_part_one@;
                    assert(v == tested.push(seq));
                    if tested.contains(s) {
                        let k = choose|k: int| 0 <= k < tested.len() && tested[k] == s;
                        assert(v[k] == s);
                    }
                    if v.contains(s) && s != seq {
                        let k = choose|k: int| 0 <= k < v.len() && v[k] == s;
                        assert(tested[k] == s);
                    }
                    assert(v[tested.len() as int] == seq);
                }
            }
        }
        i = i + 1;
    }
    assert(potential_matches@.take(potential_matches@.len() as int) =~= potential_matches@);
}

/// The run of four indices from `base` in steps of `delta`.
pub open spec fn part_one_sequence(base: int, delta: int) -> IndexSequencePartOne {
    IndexSequencePartOne(
        base as i32,
        (base + delta) as i32,
        (base + 2 * delta) as i32,
        (base + 3 * delta) as i32,
    )
}

/// The run of three indices from `base` in steps of `delta`.
pub open spec fn part_two_sequence(base: int, delta: int) -> IndexSequencePartTwo {
    IndexSequencePartTwo(base as i32, (base + delta) as i32, (base + 2 * delta) as i32)
}

pub fn generate_part_one_sequence(base_index: i32, delta: i32) -> (s: IndexSequencePartOne)
    requires
        i32::MIN <= 3 * delta <= i32::MAX,
        i32::MIN <= base_index + 3 * delta <= i32::MAX,
    ensures
        s == part_one_sequence(base_index as int, delta as int),
        s.indices() == seq![
            base_index,
            (base_index + delta) as i32,
            (base_index + 2 * delta) as i32,
            (base_index + 3 * delta) as i32,
        ],
{
    IndexSequencePartOne(
        base_index,
        base_index + delta,
        base_index + 2 * delta,
        base_index + 3 * delta,
    )
}

pub fn generate_part_two_sequence(base_index: i32, delta: i32) -> (s: IndexSequencePartTwo)
    requires
        i32::MIN <= 2 * delta <= i32::MAX,
        i32::MIN <= base_index + 2 * delta <= i32::MAX,
    ensures
        s == part_two_sequence(base_index as int, delta as int),
{
    IndexSequencePartTwo(base_index, base_index + delta, base_index + 2 * delta)
}

/// Whether `seqs` holds `seq`.
fn holds_sequence(seqs: &Vec<IndexSequencePartOne>, seq: &IndexSequencePartOne) -> (r: bool)
    ensures
        r == seqs@.contains(*seq),
{
    let mut i: usize = 0;
    while i < seqs.len()
        invariant
            i <= seqs@.len(),
            forall|j: int| 0 <= j < i ==> #[trigger] seqs@[j] != *seq,
        decreases seqs@.len() - i,
    {
        if seqs[i] == *seq {
            return true;
        }
        i = i + 1;
    }
    false
}

/// Adds `seq` to `seqs` unless it is there already, as a set would.
fn insert_sequence(seqs: &mut Vec<IndexSequencePartOne>, seq: IndexSequencePartOne)
    requires
        old(seqs)@.no_duplicates(),
    ensures
        final(seqs)@.no_duplicates(),
        final(seqs)@ == (if old(seqs)@.contains(seq) {
            old(seqs)@
        } else {
            old(seqs)@.push(seq)
        }),
{
    if !holds_sequence(seqs, &seq) {
        seqs.push(seq);
        proof {
            let v = final(seqs)@;
            assert forall|i: int, j: int| 0 <= i < j < v.len() implies v[i] != v[j] by {
                if j == v.len() - 1 {
                    assert(old(seqs)@[i] == v[i]);
                }
            }
        }
    }
}

/// Puts `seq` among the sequences to try unless the board has tried it
/// already; says whether it did.
pub fn add_new_part_one_sequence_if_untested(
    seq: IndexSequencePartOne,
    board: &WordSearchBoard,
    sequences: &mut Vec<IndexSequencePartOne>,
) -> (added: bool)
    requires
        old(sequences)@.no_duplicates(),
    ensures
        added == !board.tested_sequences_part_one@.contains(seq),
        final(sequences)@.no_duplicates(),
        final(sequences)@ == (if added && !old(sequences)@.contains(seq) {
            old(sequences)@.push(seq)
        } else {
            old(sequences)@
        }),
{
    if !holds_sequence(&board.tested_sequences_part_one, &seq) {
        insert_sequence(sequences, seq);
        return true;
    }
    false
}

/// The start and the step of the run of kind `kind` through `base` at
/// offset `off`, for rows of `w` cells. Kinds 0 to 3 read the word forwards
/// (down, right, down-right, down-left) from a start at or before `base`;
/// kinds 4 to 7 read it backwards (up, left, up-left, up-right) from a start
/// at or after `base`.
pub open spec fn candidate_start_step(base: int, w: int, off: int, kind: int) -> (int, int) {
    if kind == 0 {
        (base + w * off, w)
    } else if kind == 1 {
        (base + off, 1)
    } else if kind == 2 {
        (base + w * off + off, w + 1)
    } else if kind == 3 {
        (base + w * off - off, w - 1)
    } else if kind == 4 {
        (base + w * off, -w)
    } else if kind == 5 {
        (base + off, -1)
    } else if kind == 6 {
        (base + w * off + off, -w - 1)
    } else {
        (base + w * off - off, -w + 1)
    }
}

/// The run of kind `kind` through `base` at offset `off`.
pub open spec fn candidate(base: int, w: int, off: int, kind: int) -> IndexSequencePartOne {
    part_one_sequence(
        candidate_start_step(base, w, off, kind).0,
        candidate_start_step(base, w, off, kind).1,
    )
}

/// The offsets that reach `base` from the start of a word of four letters:
/// up to three cells back for the forward kinds, up to three ahead for the
/// backward ones.
pub open spec fn candidate_offset(off: int, kind: int) -> bool {
    ||| 0 <= kind < 4 && -3 <= off <= 0
    ||| 4 <= kind < 8 && 0 <= off <= 3
}

/// The bounds check that fits the direction of the kind.
pub open spec fn candidate_on_board(s: IndexSequencePartOne, kind: int, board: &WordSearchBoard) -> bool {
    if kind % 4 == 0 {
        s.vertically_on_board(board)
    } else if kind % 4 == 1 {
        s.horizontally_on_board(board)
    } else {
        s.diagonally_on_board(board)
    }
}

/// `s` is the run of kind `kind` at offset `off` through `base`, it stays on
/// the board, and the board has not tried it yet.
pub open spec fn potential_hit(
    s: IndexSequencePartOne,
    base: int,
    board: &WordSearchBoard,
    off: int,
    kind: int,
) -> bool {
    &&& candidate_offset(off, kind)
    &&& s == candidate(base, board.board_line_length as int, off, kind)
    &&& candidate_on_board(s, kind, board)
    &&& !board.tested_sequences_part_one@.contains(s)
}

/// `s` is an untried run through `base` that stays on the board.
pub open spec fn is_potential_part_one(s: IndexSequencePartOne, base: int, board: &WordSearchBoard) -> bool {
    exists|off: int, kind: int| #[trigger] potential_hit(s, base, board, off, kind)
}

/// The place of a kind and offset in the order the runs are looked at.
pub open spec fn candidate_step(off: int, kind: int) -> int {
    if kind < 4 {
        (off + 3) * 4 + kind
    } else {
        16 + off * 4 + (kind - 4)
    }
}

/// `s` is a potential run among the first `n` looked at.
pub open spec fn found_before(s: IndexSequencePartOne, base: int, board: &WordSearchBoard, n: int) -> bool {
    exists|off: int, kind: int| #[trigger] potential_hit(s, base, board, off, kind) && candidate_step(off, kind) < n
}

/// No index of any run through `base` leaves the `i32` range.
pub open spec fn runs_fit(base: int, w: int) -> bool {
    i32::MIN <= base - 3 * w - 3 && base + 3 * w + 3 <= i32::MAX
}

/// Looking at one more run grows the set of those found by that run alone.
proof fn lemma_found_grows(
    before: Seq<IndexSequencePartOne>,
    after: Seq<IndexSequencePartOne>,
    base: int,
    board: &WordSearchBoard,
    off: int,
    kind: int,
)
    requires
        candidate_offset(off, kind),
        forall|s: IndexSequencePartOne| before.contains(s) <==> found_before(s, base, board, candidate_step(off, kind)),
        forall|s: IndexSequencePartOne| after.contains(s) <==> before.contains(s) || potential_hit(s, base, board, off, kind),
    ensures
        forall|s: IndexSequencePartOne| after.contains(s) <==> found_before(s, base, board, candidate_step(off, kind) + 1),
{
    let n = candidate_step(off, kind);
    assert forall|s: IndexSequencePartOne| after.contains(s) <==> found_before(s, base, board, n + 1) by {
        if after.contains(s) {
            if before.contains(s) {
                let (o, k) = choose|o: int, k: int| #[trigger] potential_hit(s, base, board, o, k) && candidate_step(o, k) < n;
                assert(potential_hit(s, base, board, o, k) && candidate_step(o, k) < n + 1);
            } else {
                assert(potential_hit(s, base, board, off, kind) && candidate_step(off, kind) < n + 1);
            }
        }
        if found_before(s, base, board, n + 1) {
            let (o, k) = choose|o: int, k: int| #[trigger] potential_hit(s, base, board, o, k) && candidate_step(o, k) < n + 1;
            if candidate_step(o, k) < n {
                assert(found_before(s, base, board, n));
            } else {
                assert(o == off && k == kind);
            }
        }
    }
}

/// Adds the run of kind `kind` at offset `off` through `base` to `matches`
/// when it stays on the board and the board has not tried it.
fn consider_candidate(
    base: i32,
    off: i32,
    kind: u8,
    board: &WordSearchBoard,
    matches: &mut Vec<IndexSequencePartOne>,
)
    requires
        board.well_formed(),
        runs_fit(base as int, board.board_line_length as int),
        candidate_offset(off as int, kind as int),
        old(matches)@.no_duplicates(),
    ensures
        final(matches)@.no_duplicates(),
        forall|s: IndexSequencePartOne| final(matches)@.contains(s) <==> old(matches)@.contains(s)
            || potential_hit(s, base as int, board, off as int, kind as int),
{
    let w = board.board_line_length;
    proof {
        if off <= 0 {
            assert(-3 * w <= w * off <= 0) by (nonlinear_arith)
                requires
                    -3 <= off <= 0,
                    w > 0,
            ;
        } else {
            assert(0 <= w * off <= 3 * w) by (nonlinear_arith)
                requires
                    0 <= off <= 3,
                    w > 0,
            ;
        }
    }
    let (start, delta) = if kind == 0 {
        (base + w * off, w)
    } else if kind == 1 {
        (base + off, 1)
    } else if kind == 2 {
        (base + w * off + off, w + 1)
    } else if kind == 3 {
        (base + w * off - off, w - 1)
    } else if kind == 4 {
        (base + w * off, -w)
    } else if kind == 5 {
        (base + off, -1)
    } else if kind == 6 {
        (base + w * off + off, -w - 1)
    } else {
        (base + w * off - off, -w + 1)
    };
    assert((start as int, delta as int) == candidate_start_step(
        base as int,
        w as int,
        off as int,
        kind as int,
    ));
    let seq = generate_part_one_sequence(start, delta);
    let fits = if kind % 4 == 0 {
        seq.is_vertical_in_bounds(board)
    } else if kind % 4 == 1 {
        seq.is_horizontal_in_bounds(board)
    } else {
        seq.is_diagonal_in_bounds(board)
    };
    assert(fits == candidate_on_board(seq, kind as int, board));
    assert(seq == candidate(base as int, w as int, off as int, kind as int));
    let ghost before = matches@;
    if fits {
        add_new_part_one_sequence_if_untested(seq, board, matches);
    }
    assert forall|s: IndexSequencePartOne| matches@.contains(s) <==> before.contains(s)
        || potential_hit(s, base as int, board, off as int, kind as int) by {
        if s == seq && fits && !board.tested_sequences_part_one@.contains(s) && !before.contains(s) {
            assert(matches@ == before.push(seq));
            assert(matches@[before.len() as int] == s);
        }
        if before.contains(s) && matches@ != before {
            assert(matches@ == before.push(seq));
            let i = choose|i: int| 0 <= i < before.len() && before[i] == s;
            assert(matches@[i] == s);
        }
        if matches@.contains(s) && !before.contains(s) {
            assert(matches@ == before.push(seq));
            let i = choose|i: int| 0 <= i < matches@.len() && matches@[i] == s;
            assert(i == before.len());
        }
    }
}

/// Every untried run of four cells through `base_index` that stays on the
/// board, in any of the eight directions, each once.
pub fn generate_potential_matches_part_one(base_index: i32, board: &WordSearchBoard) -> (matches:
    Vec<IndexSequencePartOne>)
    requires
        board.well_formed(),
        runs_fit(base_index as int, board.board_line_length as int),
    ensures
        matches@.no_duplicates(),
        forall|s: IndexSequencePartOne| #[trigger] matches@.contains(s) <==> is_potential_part_one(
            s,
            base_index as int,
            board,
        ),
{
    let ghost base = base_index as int;
    let mut matches: Vec<IndexSequencePartOne> = Vec::new();
    // Runs read forwards: the word starts up to three cells before the base.
    let mut off: i32 = -3;
    while off <= 0
        invariant
            -3 <= off <= 1,
            board.well_formed(),
            base == base_index as int,
            runs_fit(base, board.board_line_length as int),
            matches@.no_duplicates(),
            forall|s: IndexSequencePartOne| matches@.contains(s) <==> found_before(s, base, board, (off + 3) * 4),
        decreases 1 - off,
    {
        let mut kind: u8 = 0;
        while kind < 4
            invariant
                -3 <= off <= 0,
                kind <= 4,
                board.well_formed(),
                base == base_index as int,
            runs_fit(base, board.board_line_length as int),
                matches@.no_duplicates(),
                forall|s: IndexSequencePartOne| matches@.contains(s) <==> found_before(s, base, board, (off + 3) * 4 + kind),
            decreases 4 - kind,
        {
            let ghost before = matches@;
            consider_candidate(base_index, off, kind, board, &mut matches);
            proof {
                lemma_found_grows(before, matches@, base, board, off as int, kind as int);
            }
            kind = kind + 1;
        }
        off = off + 1;
    }
    // Runs read backwards: the word starts up to three cells after the base.
    let mut off: i32 = 0;
    while off < 4
        invariant
            0 <= off <= 4,
            board.well_formed(),
            base == base_index as int,
            runs_fit(base, board.board_line_length as int),
            matches@.no_duplicates(),
            forall|s: IndexSequencePartOne| matches@.contains(s) <==> found_before(s, base, board, 16 + off * 4),
        decreases 4 - off,
    {
        let mut kind: u8 = 4;
        while kind < 8
            invariant
                0 <= off <= 3,
                4 <= kind <= 8,
                board.well_formed(),
                base == base_index as int,
            runs_fit(base, board.board_line_length as int),
                matches@.no_duplicates(),
                forall|s: IndexSequencePartOne| matches@.contains(s) <==> found_before(s, base, board, 16 + off * 4 + (kind - 4)),
            decreases 8 - kind,
        {
            let ghost before = matches@;
            consider_candidate(base_index, off, kind, board, &mut matches);
            proof {
                lemma_found_grows(before, matches@, base, board, off as int, kind as int);
            }
            kind = kind + 1;
        }
        off = off + 1;
    }
    assert forall|s: IndexSequencePartOne| #[trigger] matches@.contains(s) <==> is_potential_part_one(s, base, board) by {
        if is_potential_part_one(s, base, board) {
            let (o, k) = choose|o: int, k: int| #[trigger] potential_hit(s, base, board, o, k);
            assert(potential_hit(s, base, board, o, k) && candidate_step(o, k) < 32);
        }
    }
    matches
}

} // verus!

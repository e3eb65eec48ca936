//! Board parsing and validation: from raw multi-line text to a game, or to
//! a precise construction-time diagnostic.
//!
//! The text is processed line by line; blank (whitespace-only) lines are
//! skipped entirely. `' '` and `'X'` become open and wall tiles; `'T'`,
//! `'M'` and `'G'` record the player, pursuer and goal positions (at most
//! one each), leaving an open tile behind the two pieces and a goal tile
//! behind the goal marker. All non-blank rows must share one width.

use vstd::prelude::*;
use vstd::string::StrSliceExecFns;
use vstd::string::StringExecFns;

use crate::game::Game;
use crate::grid::Grid;

verus! {

/// A reason board text was rejected. Construction is the only operation
/// that can fail; turns and queries never produce an error.
#[derive(Clone, Copy, Debug, PartialEq, Eq, Structural)]
pub enum BoardError {
    /// A non-blank line held a character outside `{space, X, T, M, G}`.
    InvalidCharacter(char),
    /// A non-blank row's width differed from the first non-blank row's.
    InvalidSize,
    /// No pursuer marker anywhere on the board.
    NoMinotaur,
    /// No player marker anywhere on the board.
    NoTheseus,
    /// No goal marker anywhere on the board.
    NoGoal,
    /// More than one pursuer marker.
    MultipleMinotaur,
    /// More than one player marker.
    MultipleTheseus,
    /// More than one goal marker.
    MultipleGoal,
}

/// The diagnostic text belonging to each board error.
pub open spec fn message_of(e: BoardError) -> Seq<char> {
    match e {
        BoardError::InvalidCharacter(c) => "Invalid character: "@ + seq![c],
        BoardError::InvalidSize => "Invalid size"@,
        BoardError::NoMinotaur => "No minotaur"@,
        BoardError::NoTheseus => "No theseus"@,
        BoardError::NoGoal => "No goal"@,
        BoardError::MultipleMinotaur => "Multiple minotaur"@,
        BoardError::MultipleTheseus => "Multiple theseus"@,
        BoardError::MultipleGoal => "Multiple goal"@,
    }
}

/// Relies on `String::push`: it appends exactly the one character to the
/// end of the string.
#[verifier::external_body]
fn push_char(s: &mut String, c: char)
    ensures
        final(s)@ == old(s)@ + seq![c],
{
    s.push(c);
}

impl BoardError {
    /// The diagnostic line for this error, for a driver to show.
    pub fn message(&self) -> (s: String)
        ensures
            s@ == message_of(*self),
    {
        match self {
            BoardError::InvalidCharacter(c) => {
                let mut s = String::from_str("Invalid character: ");
                push_char(&mut s, *c);
                s
            },
            BoardError::InvalidSize => String::from_str("Invalid size"),
            BoardError::NoMinotaur => String::from_str("No minotaur"),
            BoardError::NoTheseus => String::from_str("No theseus"),
            BoardError::NoGoal => String::from_str("No goal"),
            BoardError::MultipleMinotaur => String::from_str("Multiple minotaur"),
            BoardError::MultipleTheseus => String::from_str("Multiple theseus"),
            BoardError::MultipleGoal => String::from_str("Multiple goal"),
        }
    }
}

/// Whether `c` has the Unicode `White_Space` property, the set `str::trim`
/// removes.
pub open spec fn is_ws(c: char) -> bool {
    ||| (0x09 <= c as u32 && c as u32 <= 0x0D)
    ||| c == ' '
    ||| c as u32 == 0x85
    ||| c as u32 == 0xA0
    ||| c as u32 == 0x1680
    ||| (0x2000 <= c as u32 && c as u32 <= 0x200A)
    ||| c as u32 == 0x2028
    ||| c as u32 == 0x2029
    ||| c as u32 == 0x202F
    ||| c as u32 == 0x205F
    ||| c as u32 == 0x3000
}

/// Whether a line is blank: every character is whitespace.
pub open spec fn is_blank_line(line: Seq<char>) -> bool {
    forall|i: int| 0 <= i < line.len() ==> is_ws(#[trigger] line[i])
}

/// The index of the first `'\n'` in `s`, or `s.len()` when there is none.
pub open spec fn line_break(s: Seq<char>) -> int
    decreases s.len(),
{
    if s.len() == 0 {
        0
    } else if s[0] == '\n' {
        0
    } else {
        1 + line_break(s.drop_first())
    }
}

proof fn lemma_line_break(s: Seq<char>)
    ensures
        0 <= line_break(s) <= s.len(),
        line_break(s) < s.len() ==> s[line_break(s)] == '\n',
        forall|i: int| 0 <= i < line_break(s) ==> s[i] != '\n',
    decreases s.len(),
{
    if s.len() > 0 && s[0] != '\n' {
        lemma_line_break(s.drop_first());
        assert forall|i: int| 0 <= i < line_break(s) implies s[i] != '\n' by {
            if i > 0 {
                assert(s.drop_first()[i - 1] == s[i]);
            }
        }
    }
}

/// `line_break` is determined by a scan: if no `'\n'` stands before `j` and
/// `j` is the length or holds `'\n'`, then `j` is the break.
proof fn lemma_line_break_is(s: Seq<char>, j: int)
    requires
        0 <= j <= s.len(),
        forall|k: int| 0 <= k < j ==> s[k] != '\n',
        j < s.len() ==> s[j] == '\n',
    ensures
        line_break(s) == j,
    decreases s.len(),
{
    if j == 0 {
    } else {
        assert(s[0] != '\n');
        lemma_line_break_is(s.drop_first(), j - 1);
    }
}

/// A line with its terminating `"\r\n"`'s carriage return removed.
pub open spec fn strip_cr(line: Seq<char>) -> Seq<char> {
    if line.len() > 0 && line.last() == '\r' {
        line.drop_last()
    } else {
        line
    }
}

/// The lines of `s`, split as `str::lines` splits: at each `'\n'`, with a
/// carriage return directly before the `'\n'` removed, and with no empty
/// final line after a terminating line ending.
pub open spec fn split_lines(s: Seq<char>) -> Seq<Seq<char>>
    decreases s.len(),
    via split_lines_decreases
{
    if s.len() == 0 {
        Seq::empty()
    } else {
        let j = line_break(s);
        if j == s.len() {
            seq![s]
        } else {
            seq![strip_cr(s.take(j))] + split_lines(s.skip(j + 1))
        }
    }
}

#[via_fn]
proof fn split_lines_decreases(s: Seq<char>) {
    if s.len() != 0 {
        lemma_line_break(s);
    }
}

/// The positions recorded so far while scanning a board: the player, the
/// pursuer and the goal, each `None` until its marker has been seen.
pub struct EntityState {
    pub theseus: Option<(int, int)>,
    pub minotaur: Option<(int, int)>,
    pub goal: Option<(int, int)>,
}

/// The scan state before any character has been read.
pub open spec fn empty_entities() -> EntityState {
    EntityState { theseus: None, minotaur: None, goal: None }
}

/// The tile a board character leaves behind: the two piece markers stand on
/// open tiles, the goal marker on a goal tile, `' '` and `'X'` on themselves.
pub open spec fn cell_tile(c: char) -> char {
    if c == 'G' {
        'G'
    } else if c == 'X' {
        'X'
    } else {
        ' '
    }
}

/// Whether `c` may appear in a non-blank board line.
pub open spec fn valid_cell(c: char) -> bool {
    c == ' ' || c == 'X' || c == 'T' || c == 'M' || c == 'G'
}

/// Scan one line of the board left to right, at row `r` and starting column
/// `c`, extending the tile row `row` and the recorded positions `st`. The
/// first offense wins: an unknown character yields `InvalidCharacter`, a
/// second marker of a kind yields the matching `Multiple` error.
pub open spec fn scan_row(
    line: Seq<char>,
    r: int,
    c: int,
    row: Seq<char>,
    st: EntityState,
) -> Result<(Seq<char>, EntityState), BoardError>
    decreases line.len(),
{
    if line.len() == 0 {
        Ok((row, st))
    } else {
        let ch = line[0];
        let rest = line.drop_first();
        if ch == ' ' || ch == 'X' {
            scan_row(rest, r, c + 1, row.push(ch), st)
        } else if ch == 'T' {
            if st.theseus is Some {
                Err(BoardError::MultipleTheseus)
            } else {
                scan_row(
                    rest,
                    r,
                    c + 1,
                    row.push(' '),
                    EntityState { theseus: Some((r, c)), ..st },
                )
            }
        } else if ch == 'M' {
            if st.minotaur is Some {
                Err(BoardError::MultipleMinotaur)
            } else {
                scan_row(
                    rest,
                    r,
                    c + 1,
                    row.push(' '),
                    EntityState { minotaur: Some((r, c)), ..st },
                )
            }
        } else if ch == 'G' {
            if st.goal is Some {
                Err(BoardError::MultipleGoal)
            } else {
                scan_row(rest, r, c + 1, row.push('G'), EntityState { goal: Some((r, c)), ..st })
            }
        } else {
            Err(BoardError::InvalidCharacter(ch))
        }
    }
}

/// Scan the remaining lines of a board. Blank lines are skipped and do not
/// count toward the row index; every scanned row must match the width of
/// the first row, else `InvalidSize` — though errors inside a line precede
/// its width check.
pub open spec fn scan_rows(
    lines: Seq<Seq<char>>,
    rows: Seq<Seq<char>>,
    st: EntityState,
) -> Result<(Seq<Seq<char>>, EntityState), BoardError>
    decreases lines.len(),
{
    if lines.len() == 0 {
        Ok((rows, st))
    } else {
        let line = lines[0];
        if is_blank_line(line) {
            scan_rows(lines.drop_first(), rows, st)
        } else {
            match scan_row(line, rows.len() as int, 0, Seq::empty(), st) {
                Err(e) => Err(e),
                Ok((row, st2)) => {
                    if rows.len() > 0 && row.len() != rows[0].len() {
                        Err(BoardError::InvalidSize)
                    } else {
                        scan_rows(lines.drop_first(), rows.push(row), st2)
                    }
                },
            }
        }
    }
}

/// The abstract value a successful parse denotes: the tile rows and the
/// three recorded positions.
#[verifier::ext_equal]
pub struct BoardModel {
    pub rows: Seq<Seq<char>>,
    pub theseus: (int, int),
    pub minotaur: (int, int),
    pub goal: (int, int),
}

/// What parsing board text denotes: scan the lines, then require each of
/// the three entities, reporting a missing player before a missing pursuer
/// before a missing goal.
pub open spec fn parse_board(s: Seq<char>) -> Result<BoardModel, BoardError> {
    match scan_rows(split_lines(s), Seq::empty(), empty_entities()) {
        Err(e) => Err(e),
        Ok((rows, st)) => match st.theseus {
            None => Err(BoardError::NoTheseus),
            Some(t) => match st.minotaur {
                None => Err(BoardError::NoMinotaur),
                Some(m) => match st.goal {
                    None => Err(BoardError::NoGoal),
                    Some(g) => Ok(BoardModel { rows, theseus: t, minotaur: m, goal: g }),
                },
            },
        },
    }
}

/// Whether `c` has the Unicode `White_Space` property.
pub(crate) fn is_ws_char(c: char) -> (b: bool)
    ensures
        b == is_ws(c),
{
    let u = c as u32;
    (0x09 <= u && u <= 0x0D) || u == 0x20 || u == 0x85 || u == 0xA0 || u == 0x1680 || (0x2000 <= u
        && u <= 0x200A) || u == 0x2028 || u == 0x2029 || u == 0x202F || u == 0x205F || u == 0x3000
}

/// Whether every character of the line is whitespace.
fn is_blank_exec(line: &Vec<char>) -> (b: bool)
    ensures
        b == is_blank_line(line@),
{
    let mut i: usize = 0;
    while i < line.len()
        invariant
            i <= line@.len(),
            forall|k: int| 0 <= k < i ==> is_ws(#[trigger] line@[k]),
        decreases line@.len() - i,
    {
        if !is_ws_char(line[i]) {
            return false;
        }
        i += 1;
    }
    true
}

/// The characters of `s`, in order.
pub(crate) fn chars_of(s: &str) -> (v: Vec<char>)
    ensures
        v@ == s@,
{
    let n = s.unicode_len();
    let mut v: Vec<char> = Vec::new();
    let mut i: usize = 0;
    while i < n
        invariant
            n == s@.len(),
            i <= n,
            v@ == s@.take(i as int),
        decreases n - i,
    {
        let c = s.get_char(i);
        v.push(c);
        i += 1;
        proof {
            assert(v@ =~= s@.take(i as int));
        }
    }
    proof {
        assert(s@.take(n as int) =~= s@);
    }
    v
}

/// Split the characters of the board into its lines, as `split_lines` says.
fn split_into_lines(chars: &Vec<char>) -> (lines: Vec<Vec<char>>)
    ensures
        lines@.map_values(|l: Vec<char>| l@) == split_lines(chars@),
{
    let n = chars.len();
    let mut lines: Vec<Vec<char>> = Vec::new();
    let mut i: usize = 0;
    proof {
        assert(chars@.skip(0) =~= chars@);
        assert(lines@.map_values(|l: Vec<char>| l@) + split_lines(chars@.skip(0)) =~= split_lines(
            chars@,
        ));
    }
    while i < n
        invariant
            n == chars@.len(),
            i <= n,
            split_lines(chars@) == lines@.map_values(|l: Vec<char>| l@) + split_lines(
                chars@.skip(i as int),
            ),
        decreases n - i,
    {
        let ghost t = chars@.skip(i as int);
        let mut j: usize = i;
        while j < n && chars[j] != '\n'
            invariant
                n == chars@.len(),
                i <= j <= n,
                forall|k: int| i <= k < j ==> chars@[k] != '\n',
            decreases n - j,
        {
            j += 1;
        }
        proof {
            assert forall|k: int| 0 <= k < j - i implies t[k] != '\n' by {
                assert(t[k] == chars@[i + k]);
            }
            if (j as int) < (n as int) {
                assert(t[j - i] == chars@[j as int]);
            }
            lemma_line_break_is(t, j - i);
        }
        let end: usize = if j < n && j > i && chars[j - 1] == '\r' {
            j - 1
        } else {
            j
        };
        let mut line: Vec<char> = Vec::new();
        let mut k: usize = i;
        while k < end
            invariant
                n == chars@.len(),
                i <= k <= end <= n,
                line@ == chars@.subrange(i as int, k as int),
            decreases end - k,
        {
            let c = chars[k];
            line.push(c);
            k += 1;
            proof {
                assert(line@ =~= chars@.subrange(i as int, k as int));
            }
        }
        let ghost prev = lines@.map_values(|l: Vec<char>| l@);
        let ghost lv = line@;
        proof {
            let jb = j - i;
            if j == n {
                assert(t =~= chars@.subrange(i as int, n as int));
                assert(line@ == t);
                assert(split_lines(t) == seq![t]);
            } else {
                assert(t.take(jb as int) =~= chars@.subrange(i as int, j as int));
                let head = strip_cr(t.take(jb as int));
                if j > i && chars@[j - 1] == '\r' {
                    assert(t.take(jb as int).last() == chars@[j - 1]);
                    assert(head =~= chars@.subrange(i as int, j - 1));
                } else {
                    assert(head =~= chars@.subrange(i as int, j as int));
                }
                assert(line@ == head);
                assert(split_lines(t) == seq![head] + split_lines(t.skip(jb + 1)));
                assert(t.skip(jb + 1) =~= chars@.skip(j + 1));
            }
        }
        let ghost t_old = t;
        lines.push(line);
        i = if j < n {
            j + 1
        } else {
            n
        };
        proof {
            assert(lines@.map_values(|l: Vec<char>| l@) =~= prev.push(lv));
            assert(split_lines(t_old) =~= seq![lv] + split_lines(chars@.skip(i as int)));
            assert(prev + split_lines(t_old) =~= prev.push(lv) + split_lines(chars@.skip(i as int)));
        }
    }
    proof {
        assert(chars@.skip(n as int) =~= Seq::<char>::empty());
        assert(lines@.map_values(|l: Vec<char>| l@) + split_lines(chars@.skip(n as int))
            =~= lines@.map_values(|l: Vec<char>| l@));
    }
    lines
}

impl Game {
    /// The abstract value of this game: its tile rows and positions.
    pub open spec fn model(self) -> BoardModel {
        BoardModel {
            rows: self.grid@,
            theseus: self.theseus(),
            minotaur: self.minotaur(),
            goal: self.goal(),
        }
    }
}

/// How often character `m` occurs in a line.
pub open spec fn count_char(line: Seq<char>, m: char) -> int
    decreases line.len(),
{
    if line.len() == 0 {
        0
    } else {
        (if line[0] == m {
            1int
        } else {
            0int
        }) + count_char(line.drop_first(), m)
    }
}

/// How often character `m` occurs over a sequence of lines.
pub open spec fn count_char_lines(lines: Seq<Seq<char>>, m: char) -> int
    decreases lines.len(),
{
    if lines.len() == 0 {
        0
    } else {
        count_char(lines[0], m) + count_char_lines(lines.drop_first(), m)
    }
}

/// The non-blank lines, in order: the rows the parser keeps.
pub open spec fn nonblank_lines(lines: Seq<Seq<char>>) -> Seq<Seq<char>>
    decreases lines.len(),
{
    if lines.len() == 0 {
        Seq::empty()
    } else if is_blank_line(lines[0]) {
        nonblank_lines(lines.drop_first())
    } else {
        seq![lines[0]] + nonblank_lines(lines.drop_first())
    }
}

/// A line that is either blank or a well-formed board row of width `w`.
pub open spec fn line_ok(line: Seq<char>, w: int) -> bool {
    line.len() == w && forall|j: int| 0 <= j < line.len() ==> valid_cell(#[trigger] line[j])
}

/// Every line is blank or a well-formed row of width `w`.
pub open spec fn lines_ok(lines: Seq<Seq<char>>, w: int) -> bool {
    forall|k: int|
        0 <= k < lines.len() ==> (is_blank_line(#[trigger] lines[k]) || line_ok(lines[k], w))
}

/// The `Multiple` error belonging to a marker character.
pub open spec fn multiple_err(m: char) -> BoardError {
    if m == 'T' {
        BoardError::MultipleTheseus
    } else if m == 'M' {
        BoardError::MultipleMinotaur
    } else {
        BoardError::MultipleGoal
    }
}

/// The recorded positions, as the scan state sees exec option values.
spec fn opt_model(p: Option<(usize, usize)>) -> Option<(int, int)> {
    match p {
        None => None,
        Some(q) => Some((q.0 as int, q.1 as int)),
    }
}

spec fn st_of(
    thes: Option<(usize, usize)>,
    mino: Option<(usize, usize)>,
    goal: Option<(usize, usize)>,
) -> EntityState {
    EntityState { theseus: opt_model(thes), minotaur: opt_model(mino), goal: opt_model(goal) }
}

/// Position `p` lies on the rows and holds tile `t`.
spec fn pos_at(rows: Seq<Seq<char>>, p: (int, int), t: char) -> bool {
    &&& 0 <= p.0 < rows.len()
    &&& 0 <= p.1 < rows[p.0].len()
    &&& rows[p.0][p.1] == t
}

/// Each recorded entity stands on the matching tile of the rows built so
/// far: the pieces on open tiles, the goal on a goal tile.
spec fn entities_ok(rows: Seq<Seq<char>>, st: EntityState) -> bool {
    &&& (st.theseus matches Some(p) ==> pos_at(rows, p, ' '))
    &&& (st.minotaur matches Some(p) ==> pos_at(rows, p, ' '))
    &&& (st.goal matches Some(p) ==> pos_at(rows, p, 'G'))
}

/// The rows are uniform in width and hold only tile characters.
spec fn rows_ok(rows: Seq<Seq<char>>) -> bool {
    &&& (forall|i: int| 0 <= i < rows.len() ==> (#[trigger] rows[i]).len() == rows[0].len())
    &&& (forall|i: int, j: int|
        0 <= i < rows.len() && 0 <= j < rows[i].len() ==> crate::grid::tile_char(
            #[trigger] rows[i][j],
        ))
}

/// A successful line scan extends the row with tile characters only and
/// keeps every recorded entity on its matching tile.
proof fn lemma_scan_row_shape(
    line: Seq<char>,
    c: int,
    row: Seq<char>,
    st: EntityState,
    rows: Seq<Seq<char>>,
)
    requires
        c == row.len(),
        forall|j: int| 0 <= j < row.len() ==> crate::grid::tile_char(#[trigger] row[j]),
        entities_ok(rows.push(row), st),
    ensures
        scan_row(line, rows.len() as int, c, row, st) matches Ok(p) ==> {
            &&& p.0.len() == row.len() + line.len()
            &&& (forall|j: int| 0 <= j < row.len() ==> p.0[j] == row[j])
            &&& (forall|j: int| 0 <= j < p.0.len() ==> crate::grid::tile_char(#[trigger] p.0[j]))
            &&& entities_ok(rows.push(p.0), p.1)
        },
    decreases line.len(),
{
    if line.len() == 0 {
    } else {
        let ch = line[0];
        let rest = line.drop_first();
        let advances = (ch == ' ' || ch == 'X') || (ch == 'T' && st.theseus is None) || (ch == 'M'
            && st.minotaur is None) || (ch == 'G' && st.goal is None);
        if advances {
            let tile = if ch == 'G' {
                'G'
            } else if ch == 'X' {
                'X'
            } else {
                ' '
            };
            let st2 = if ch == 'T' {
                EntityState { theseus: Some((rows.len() as int, c)), ..st }
            } else if ch == 'M' {
                EntityState { minotaur: Some((rows.len() as int, c)), ..st }
            } else if ch == 'G' {
                EntityState { goal: Some((rows.len() as int, c)), ..st }
            } else {
                st
            };
            let row2 = row.push(tile);
            assert(scan_row(line, rows.len() as int, c, row, st) == scan_row(
                rest,
                rows.len() as int,
                c + 1,
                row2,
                st2,
            ));
            assert(rows.push(row2)[rows.len() as int] == row2);
            assert(entities_ok(rows.push(row2), st2));
            lemma_scan_row_shape(rest, c + 1, row2, st2, rows);
            match scan_row(rest, rows.len() as int, c + 1, row2, st2) {
                Ok(p) => {
                    assert forall|j: int| 0 <= j < row.len() implies p.0[j] == row[j] by {
                        assert(p.0[j] == row2[j]);
                    }
                },
                Err(_) => {},
            }
        }
    }
}

/// A successful scan of all lines yields uniform rows of tile characters
/// with each recorded entity on its matching tile.
proof fn lemma_scan_rows_shape(lines: Seq<Seq<char>>, rows: Seq<Seq<char>>, st: EntityState)
    requires
        rows_ok(rows),
        entities_ok(rows, st),
    ensures
        scan_rows(lines, rows, st) matches Ok(p) ==> {
            &&& rows_ok(p.0)
            &&& p.0.len() >= rows.len()
            &&& entities_ok(p.0, p.1)
        },
    decreases lines.len(),
{
    if lines.len() == 0 {
    } else {
        let line = lines[0];
        if is_blank_line(line) {
            lemma_scan_rows_shape(lines.drop_first(), rows, st);
        } else {
            assert(entities_ok(rows.push(Seq::empty()), st));
            lemma_scan_row_shape(line, 0, Seq::empty(), st, rows);
            match scan_row(line, rows.len() as int, 0, Seq::empty(), st) {
                Err(_) => {},
                Ok((rowN, st2)) => {
                    if rows.len() > 0 && rowN.len() != rows[0].len() {
                    } else {
                        assert(entities_ok(rows.push(rowN), st2));
                        assert(rows_ok(rows.push(rowN)));
                        lemma_scan_rows_shape(lines.drop_first(), rows.push(rowN), st2);
                    }
                },
            }
        }
    }
}

/// 1 when an entity has been recorded, else 0.
spec fn opt_count(o: Option<(int, int)>) -> int {
    if o is Some {
        1
    } else {
        0
    }
}

/// The scan-state slot belonging to a marker character.
spec fn ent_of(st: EntityState, m: char) -> Option<(int, int)> {
    if m == 'T' {
        st.theseus
    } else if m == 'M' {
        st.minotaur
    } else {
        st.goal
    }
}

/// A blank line holds no marker: markers are not whitespace.
proof fn lemma_blank_no_marker(line: Seq<char>, m: char)
    requires
        is_blank_line(line),
        !is_ws(m),
    ensures
        count_char(line, m) == 0,
    decreases line.len(),
{
    if line.len() > 0 {
        assert(is_ws(line[0]));
        assert(forall|i: int|
            0 <= i < line.drop_first().len() ==> is_ws(#[trigger] line.drop_first()[i]));
        lemma_blank_no_marker(line.drop_first(), m);
    }
}

/// Counts are never negative.
proof fn lemma_count_nonneg(line: Seq<char>, m: char)
    ensures
        count_char(line, m) >= 0,
    decreases line.len(),
{
    if line.len() > 0 {
        lemma_count_nonneg(line.drop_first(), m);
    }
}

proof fn lemma_count_lines_nonneg(lines: Seq<Seq<char>>, m: char)
    ensures
        count_char_lines(lines, m) >= 0,
    decreases lines.len(),
{
    if lines.len() > 0 {
        lemma_count_nonneg(lines[0], m);
        lemma_count_lines_nonneg(lines.drop_first(), m);
    }
}

/// Scanning a line of valid cells, with each marker appearing at most once
/// counting what is already recorded, succeeds; the row grows by the line's
/// tiles and each marker found is recorded at its source column.
proof fn lemma_scan_row_counts(line: Seq<char>, r: int, c: int, row: Seq<char>, st: EntityState)
    requires
        forall|j: int| 0 <= j < line.len() ==> valid_cell(#[trigger] line[j]),
        opt_count(st.theseus) + count_char(line, 'T') <= 1,
        opt_count(st.minotaur) + count_char(line, 'M') <= 1,
        opt_count(st.goal) + count_char(line, 'G') <= 1,
    ensures
        scan_row(line, r, c, row, st) is Ok,
        scan_row(line, r, c, row, st) matches Ok(p) ==> {
            &&& p.0 == row + line.map_values(|ch: char| cell_tile(ch))
            &&& (count_char(line, 'T') == 0 ==> p.1.theseus == st.theseus)
            &&& (count_char(line, 'T') > 0 ==> exists|i: int|
                0 <= i < line.len() && line[i] == 'T' && p.1.theseus == Some((r, c + i)))
            &&& (count_char(line, 'M') == 0 ==> p.1.minotaur == st.minotaur)
            &&& (count_char(line, 'M') > 0 ==> exists|i: int|
                0 <= i < line.len() && line[i] == 'M' && p.1.minotaur == Some((r, c + i)))
            &&& (count_char(line, 'G') == 0 ==> p.1.goal == st.goal)
            &&& (count_char(line, 'G') > 0 ==> exists|i: int|
                0 <= i < line.len() && line[i] == 'G' && p.1.goal == Some((r, c + i)))
        },
    decreases line.len(),
{
    lemma_count_nonneg(line, 'T');
    lemma_count_nonneg(line, 'M');
    lemma_count_nonneg(line, 'G');
    if line.len() == 0 {
        assert(row + line.map_values(|ch: char| cell_tile(ch)) =~= row);
    } else {
        let ch = line[0];
        let rest = line.drop_first();
        lemma_count_nonneg(rest, 'T');
        lemma_count_nonneg(rest, 'M');
        lemma_count_nonneg(rest, 'G');
        let tile = cell_tile(ch);
        let st2 = if ch == 'T' {
            EntityState { theseus: Some((r, c)), ..st }
        } else if ch == 'M' {
            EntityState { minotaur: Some((r, c)), ..st }
        } else if ch == 'G' {
            EntityState { goal: Some((r, c)), ..st }
        } else {
            st
        };
        if ch == 'T' {
            assert(st.theseus is None);
        }
        if ch == 'M' {
            assert(st.minotaur is None);
        }
        if ch == 'G' {
            assert(st.goal is None);
        }
        lemma_scan_row_counts(rest, r, c + 1, row.push(tile), st2);
        assert(scan_row(line, r, c, row, st) == scan_row(rest, r, c + 1, row.push(tile), st2));
        match scan_row(rest, r, c + 1, row.push(tile), st2) {
            Err(_) => {},
            Ok(p) => {
                assert(row.push(tile) + rest.map_values(|x: char| cell_tile(x)) =~= row
                    + line.map_values(|x: char| cell_tile(x)));
                if ch == 'T' {
                    assert(count_char(rest, 'T') == 0);
                    assert(p.1.theseus == Some((r, c + 0)) && line[0] == 'T');
                } else if count_char(line, 'T') > 0 {
                    assert(count_char(rest, 'T') > 0);
                    let i = choose|i: int|
                        0 <= i < rest.len() && rest[i] == 'T' && p.1.theseus == Some(
                            (r, c + 1 + i),
                        );
                    assert(line[i + 1] == 'T' && p.1.theseus == Some((r, c + (i + 1))));
                }
                if ch == 'M' {
                    assert(count_char(rest, 'M') == 0);
                    assert(p.1.minotaur == Some((r, c + 0)) && line[0] == 'M');
                } else if count_char(line, 'M') > 0 {
                    assert(count_char(rest, 'M') > 0);
                    let i = choose|i: int|
                        0 <= i < rest.len() && rest[i] == 'M' && p.1.minotaur == Some(
                            (r, c + 1 + i),
                        );
                    assert(line[i + 1] == 'M' && p.1.minotaur == Some((r, c + (i + 1))));
                }
                if ch == 'G' {
                    assert(count_char(rest, 'G') == 0);
                    assert(p.1.goal == Some((r, c + 0)) && line[0] == 'G');
                } else if count_char(line, 'G') > 0 {
                    assert(count_char(rest, 'G') > 0);
                    let i = choose|i: int|
                        0 <= i < rest.len() && rest[i] == 'G' && p.1.goal == Some((r, c + 1 + i));
                    assert(line[i + 1] == 'G' && p.1.goal == Some((r, c + (i + 1))));
                }
            },
        }
    }
}

/// Scanning lines of valid rows of width `w`, with each marker appearing at
/// most once counting what is already recorded, succeeds; the kept rows are
/// the non-blank lines' tiles and each marker found is recorded at its
/// source cell.
proof fn lemma_scan_rows_counts(lines: Seq<Seq<char>>, rows: Seq<Seq<char>>, st: EntityState, w: int)
    requires
        lines_ok(lines, w),
        forall|i: int| 0 <= i < rows.len() ==> (#[trigger] rows[i]).len() == w,
        opt_count(st.theseus) + count_char_lines(lines, 'T') <= 1,
        opt_count(st.minotaur) + count_char_lines(lines, 'M') <= 1,
        opt_count(st.goal) + count_char_lines(lines, 'G') <= 1,
    ensures
        scan_rows(lines, rows, st) is Ok,
        scan_rows(lines, rows, st) matches Ok(p) ==> {
            let nb = nonblank_lines(lines);
            &&& p.0 == rows + nb.map_values(|l: Seq<char>| l.map_values(|ch: char| cell_tile(ch)))
            &&& (count_char_lines(lines, 'T') == 0 ==> p.1.theseus == st.theseus)
            &&& (count_char_lines(lines, 'T') > 0 ==> exists|k: int, cc: int|
                0 <= k < nb.len() && 0 <= cc < nb[k].len() && nb[k][cc] == 'T' && p.1.theseus
                    == Some((rows.len() + k, cc)))
            &&& (count_char_lines(lines, 'M') == 0 ==> p.1.minotaur == st.minotaur)
            &&& (count_char_lines(lines, 'M') > 0 ==> exists|k: int, cc: int|
                0 <= k < nb.len() && 0 <= cc < nb[k].len() && nb[k][cc] == 'M' && p.1.minotaur
                    == Some((rows.len() + k, cc)))
            &&& (count_char_lines(lines, 'G') == 0 ==> p.1.goal == st.goal)
            &&& (count_char_lines(lines, 'G') > 0 ==> exists|k: int, cc: int|
                0 <= k < nb.len() && 0 <= cc < nb[k].len() && nb[k][cc] == 'G' && p.1.goal == Some(
                    (rows.len() + k, cc),
                ))
        },
    decreases lines.len(),
{
    let nb = nonblank_lines(lines);
    let tiles = |l: Seq<char>| l.map_values(|ch: char| cell_tile(ch));
    if lines.len() == 0 {
        assert(rows + nb.map_values(tiles) =~= rows);
    } else {
        let line0 = lines[0];
        let rest = lines.drop_first();
        lemma_count_lines_nonneg(rest, 'T');
        lemma_count_lines_nonneg(rest, 'M');
        lemma_count_lines_nonneg(rest, 'G');
        lemma_count_nonneg(line0, 'T');
        lemma_count_nonneg(line0, 'M');
        lemma_count_nonneg(line0, 'G');
        assert(lines_ok(rest, w)) by {
            assert(forall|k: int| 0 <= k < rest.len() ==> rest[k] == lines[k + 1]);
        }
        if is_blank_line(line0) {
            lemma_blank_no_marker(line0, 'T');
            lemma_blank_no_marker(line0, 'M');
            lemma_blank_no_marker(line0, 'G');
            lemma_scan_rows_counts(rest, rows, st, w);
        } else {
            assert(line_ok(line0, w));
            lemma_scan_row_counts(line0, rows.len() as int, 0, Seq::empty(), st);
            match scan_row(line0, rows.len() as int, 0, Seq::empty(), st) {
                Err(_) => {
                    assert(false);
                },
                Ok(q) => {
                    let row_n = q.0;
                    let st_n = q.1;
                    assert(row_n =~= tiles(line0));
                    assert(row_n.len() == w);
                    let rows2 = rows.push(row_n);
                    assert(forall|i: int| 0 <= i < rows2.len() ==> (#[trigger] rows2[i]).len() == w);
                    lemma_scan_rows_counts(rest, rows2, st_n, w);
                    assert(scan_rows(lines, rows, st) == scan_rows(rest, rows2, st_n));
                    match scan_rows(rest, rows2, st_n) {
                        Err(_) => {},
                        Ok(p) => {
                            let nbr = nonblank_lines(rest);
                            assert(nb == seq![line0] + nbr);
                            assert(p.0 =~= rows + nb.map_values(tiles)) by {
                                assert(p.0 == rows2 + nbr.map_values(tiles));
                                assert(nb.map_values(tiles) =~= seq![tiles(line0)]
                                    + nbr.map_values(tiles));
                            }
                            if count_char(line0, 'T') > 0 {
                                assert(count_char_lines(rest, 'T') == 0);
                                let i = choose|i: int|
                                    0 <= i < line0.len() && line0[i] == 'T' && st_n.theseus == Some(
                                        (rows.len() as int, 0 + i),
                                    );
                                assert(nb[0] == line0);
                                assert(nb[0][i] == 'T' && p.1.theseus == Some(
                                    (rows.len() as int + 0, i),
                                ));
                            } else if count_char_lines(lines, 'T') > 0 {
                                let (k, cc) = choose|k: int, cc: int|
                                    0 <= k < nbr.len() && 0 <= cc < nbr[k].len() && nbr[k][cc]
                                        == 'T' && p.1.theseus == Some((rows2.len() + k, cc));
                                assert(nb[k + 1] == nbr[k]);
                                assert(nb[k + 1][cc] == 'T' && p.1.theseus == Some(
                                    (rows.len() as int + (k + 1), cc),
                                ));
                            }
                            if count_char(line0, 'M') > 0 {
                                assert(count_char_lines(rest, 'M') == 0);
                                let i = choose|i: int|
                                    0 <= i < line0.len() && line0[i] == 'M' && st_n.minotaur
                                        == Some((rows.len() as int, 0 + i));
                                assert(nb[0] == line0);
                                assert(nb[0][i] == 'M' && p.1.minotaur == Some(
                                    (rows.len() as int + 0, i),
                                ));
                            } else if count_char_lines(lines, 'M') > 0 {
                                let (k, cc) = choose|k: int, cc: int|
                                    0 <= k < nbr.len() && 0 <= cc < nbr[k].len() && nbr[k][cc]
                                        == 'M' && p.1.minotaur == Some((rows2.len() + k, cc));
                                assert(nb[k + 1] == nbr[k]);
                                assert(nb[k + 1][cc] == 'M' && p.1.minotaur == Some(
                                    (rows.len() as int + (k + 1), cc),
                                ));
                            }
                            if count_char(line0, 'G') > 0 {
                                assert(count_char_lines(rest, 'G') == 0);
                                let i = choose|i: int|
                                    0 <= i < line0.len() && line0[i] == 'G' && st_n.goal == Some(
                                        (rows.len() as int, 0 + i),
                                    );
                                assert(nb[0] == line0);
                                assert(nb[0][i] == 'G' && p.1.goal == Some((rows.len() as int + 0, i)));
                            } else if count_char_lines(lines, 'G') > 0 {
                                let (k, cc) = choose|k: int, cc: int|
                                    0 <= k < nbr.len() && 0 <= cc < nbr[k].len() && nbr[k][cc]
                                        == 'G' && p.1.goal == Some((rows2.len() + k, cc));
                                assert(nb[k + 1] == nbr[k]);
                                assert(nb[k + 1][cc] == 'G' && p.1.goal == Some(
                                    (rows.len() as int + (k + 1), cc),
                                ));
                            }
                        },
                    }
                },
            }
        }
    }
}

/// Scanning a line of valid cells holding a second occurrence of marker
/// `m` (counting what is already recorded), while the other two markers
/// stay within their budget, fails with `m`'s `Multiple` error.
proof fn lemma_scan_row_dup(
    line: Seq<char>,
    r: int,
    c: int,
    row: Seq<char>,
    st: EntityState,
    m: char,
)
    requires
        m == 'T' || m == 'M' || m == 'G',
        forall|j: int| 0 <= j < line.len() ==> valid_cell(#[trigger] line[j]),
        opt_count(ent_of(st, m)) + count_char(line, m) >= 2,
        m == 'T' || opt_count(st.theseus) + count_char(line, 'T') <= 1,
        m == 'M' || opt_count(st.minotaur) + count_char(line, 'M') <= 1,
        m == 'G' || opt_count(st.goal) + count_char(line, 'G') <= 1,
    ensures
        scan_row(line, r, c, row, st) == Err::<(Seq<char>, EntityState), BoardError>(
            multiple_err(m),
        ),
    decreases line.len(),
{
    lemma_count_nonneg(line, m);
    assert(line.len() > 0);
    let ch = line[0];
    let rest = line.drop_first();
    lemma_count_nonneg(rest, 'T');
    lemma_count_nonneg(rest, 'M');
    lemma_count_nonneg(rest, 'G');
    if ch == m && ent_of(st, m) is Some {
        assert(scan_row(line, r, c, row, st) == Err::<(Seq<char>, EntityState), BoardError>(
            multiple_err(m),
        ));
    } else {
        let tile = cell_tile(ch);
        let st2 = if ch == 'T' {
            EntityState { theseus: Some((r, c)), ..st }
        } else if ch == 'M' {
            EntityState { minotaur: Some((r, c)), ..st }
        } else if ch == 'G' {
            EntityState { goal: Some((r, c)), ..st }
        } else {
            st
        };
        if ch == 'T' && m != 'T' {
            assert(st.theseus is None);
        }
        if ch == 'M' && m != 'M' {
            assert(st.minotaur is None);
        }
        if ch == 'G' && m != 'G' {
            assert(st.goal is None);
        }
        assert(scan_row(line, r, c, row, st) == scan_row(rest, r, c + 1, row.push(tile), st2));
        lemma_scan_row_dup(rest, r, c + 1, row.push(tile), st2, m);
    }
}

/// Scanning lines whose marker `m` appears twice over the board (counting
/// what is already recorded), the other two staying within their budget,
/// fails with `m`'s `Multiple` error.
proof fn lemma_scan_rows_dup(
    lines: Seq<Seq<char>>,
    rows: Seq<Seq<char>>,
    st: EntityState,
    w: int,
    m: char,
)
    requires
        m == 'T' || m == 'M' || m == 'G',
        lines_ok(lines, w),
        forall|i: int| 0 <= i < rows.len() ==> (#[trigger] rows[i]).len() == w,
        opt_count(ent_of(st, m)) + count_char_lines(lines, m) >= 2,
        m == 'T' || opt_count(st.theseus) + count_char_lines(lines, 'T') <= 1,
        m == 'M' || opt_count(st.minotaur) + count_char_lines(lines, 'M') <= 1,
        m == 'G' || opt_count(st.goal) + count_char_lines(lines, 'G') <= 1,
    ensures
        scan_rows(lines, rows, st) == Err::<(Seq<Seq<char>>, EntityState), BoardError>(
            multiple_err(m),
        ),
    decreases lines.len(),
{
    lemma_count_lines_nonneg(lines, m);
    assert(lines.len() > 0);
    let line0 = lines[0];
    let rest = lines.drop_first();
    lemma_count_lines_nonneg(rest, 'T');
    lemma_count_lines_nonneg(rest, 'M');
    lemma_count_lines_nonneg(rest, 'G');
    lemma_count_nonneg(line0, 'T');
    lemma_count_nonneg(line0, 'M');
    lemma_count_nonneg(line0, 'G');
    assert(lines_ok(rest, w)) by {
        assert(forall|k: int| 0 <= k < rest.len() ==> rest[k] == lines[k + 1]);
    }
    if is_blank_line(line0) {
        lemma_blank_no_marker(line0, 'T');
        lemma_blank_no_marker(line0, 'M');
        lemma_blank_no_marker(line0, 'G');
        lemma_scan_rows_dup(rest, rows, st, w, m);
    } else {
        assert(line_ok(line0, w));
        if opt_count(ent_of(st, m)) + count_char(line0, m) >= 2 {
            lemma_scan_row_dup(line0, rows.len() as int, 0, Seq::empty(), st, m);
        } else {
            lemma_scan_row_counts(line0, rows.len() as int, 0, Seq::empty(), st);
            match scan_row(line0, rows.len() as int, 0, Seq::empty(), st) {
                Err(_) => {
                    assert(false);
                },
                Ok(q) => {
                    let row_n = q.0;
                    let st_n = q.1;
                    assert(row_n.len() == w) by {
                        assert(row_n =~= line0.map_values(|ch: char| cell_tile(ch)));
                    }
                    let rows2 = rows.push(row_n);
                    assert(forall|i: int| 0 <= i < rows2.len() ==> (#[trigger] rows2[i]).len() == w);
                    assert(scan_rows(lines, rows, st) == scan_rows(rest, rows2, st_n));
                    lemma_scan_rows_dup(rest, rows2, st_n, w, m);
                },
            }
        }
    }
}

/// Law (parsing round trip): any board text whose non-blank lines hold only
/// the five board characters, share one width, and carry exactly one player
/// marker, one pursuer marker and one goal marker parses successfully, and
/// the recorded positions point back at their markers in the source rows,
/// while the tile rows are the source rows with the markers replaced by the
/// tiles they stand on.
pub proof fn lemma_parse_round_trip(s: Seq<char>, w: int)
    requires
        lines_ok(split_lines(s), w),
        count_char_lines(split_lines(s), 'T') == 1,
        count_char_lines(split_lines(s), 'M') == 1,
        count_char_lines(split_lines(s), 'G') == 1,
    ensures
        parse_board(s) is Ok,
        parse_board(s) matches Ok(m) ==> {
            let nb = nonblank_lines(split_lines(s));
            &&& m.rows == nb.map_values(|l: Seq<char>| l.map_values(|ch: char| cell_tile(ch)))
            &&& 0 <= m.theseus.0 < nb.len() && 0 <= m.theseus.1 < nb[m.theseus.0].len()
                && nb[m.theseus.0][m.theseus.1] == 'T'
            &&& 0 <= m.minotaur.0 < nb.len() && 0 <= m.minotaur.1 < nb[m.minotaur.0].len()
                && nb[m.minotaur.0][m.minotaur.1] == 'M'
            &&& 0 <= m.goal.0 < nb.len() && 0 <= m.goal.1 < nb[m.goal.0].len()
                && nb[m.goal.0][m.goal.1] == 'G'
        },
{
    lemma_scan_rows_counts(split_lines(s), Seq::empty(), empty_entities(), w);
    match scan_rows(split_lines(s), Seq::empty(), empty_entities()) {
        Err(_) => {
            assert(false);
        },
        Ok(p) => {
            let nb = nonblank_lines(split_lines(s));
            let tiles = |l: Seq<char>| l.map_values(|ch: char| cell_tile(ch));
            assert(p.0 =~= nb.map_values(tiles)) by {
                assert(p.0 == Seq::<Seq<char>>::empty() + nb.map_values(tiles));
            }
        },
    }
}

/// Law (uniqueness enforcement): a board whose non-blank lines are
/// otherwise well formed but carry marker `m` twice — `m` one of `'T'`,
/// `'M'`, `'G'` — fails with the matching `Multiple` error, even when other
/// markers are missing entirely: duplicate checks precede presence checks.
pub proof fn lemma_duplicate_marker(s: Seq<char>, w: int, m: char)
    requires
        m == 'T' || m == 'M' || m == 'G',
        lines_ok(split_lines(s), w),
        count_char_lines(split_lines(s), m) >= 2,
        m == 'T' || count_char_lines(split_lines(s), 'T') <= 1,
        m == 'M' || count_char_lines(split_lines(s), 'M') <= 1,
        m == 'G' || count_char_lines(split_lines(s), 'G') <= 1,
    ensures
        parse_board(s) == Err::<BoardModel, BoardError>(multiple_err(m)),
{
    lemma_scan_rows_dup(split_lines(s), Seq::empty(), empty_entities(), w, m);
}

/// Law (missing-entity ordering): a board whose non-blank lines are well
/// formed but hold no player, no pursuer and no goal marker fails with
/// `NoTheseus` specifically — the presence checks run player, pursuer,
/// goal, in that order.
pub proof fn lemma_missing_entities_order(s: Seq<char>, w: int)
    requires
        lines_ok(split_lines(s), w),
        count_char_lines(split_lines(s), 'T') == 0,
        count_char_lines(split_lines(s), 'M') == 0,
        count_char_lines(split_lines(s), 'G') == 0,
    ensures
        parse_board(s) == Err::<BoardModel, BoardError>(BoardError::NoTheseus),
{
    lemma_scan_rows_counts(split_lines(s), Seq::empty(), empty_entities(), w);
}

/// Chain a line-level error to the whole parse.
proof fn lemma_err_chain(
    board: Seq<char>,
    li: int,
    rm: Seq<Seq<char>>,
    st0: EntityState,
    e: BoardError,
)
    requires
        0 <= li < split_lines(board).len(),
        !is_blank_line(split_lines(board)[li]),
        scan_row(split_lines(board)[li], rm.len() as int, 0, Seq::empty(), st0) == Err::<
            (Seq<char>, EntityState),
            BoardError,
        >(e),
        scan_rows(split_lines(board), Seq::empty(), empty_entities()) == scan_rows(
            split_lines(board).skip(li),
            rm,
            st0,
        ),
    ensures
        parse_board(board) == Err::<BoardModel, BoardError>(e),
{
    let lsuf = split_lines(board).skip(li);
    assert(lsuf[0] == split_lines(board)[li]);
    assert(scan_rows(lsuf, rm, st0) == Err::<(Seq<Seq<char>>, EntityState), BoardError>(e));
}

impl Game {
    /// Parse and validate board text, producing a ready game or the first
    /// applicable diagnostic.
    ///
    /// Lines are read in order; blank (whitespace-only) lines are skipped
    /// and do not count as rows. Within a line, characters are read left to
    /// right: a space is an open tile, `X` a wall, `T`, `M` and `G` record
    /// the player, the pursuer and the goal; any other character fails with
    /// `InvalidCharacter`, and a repeated marker with the matching
    /// `Multiple` error. A non-blank row whose width differs from the first
    /// non-blank row's fails with `InvalidSize`. After all lines, a missing
    /// player, pursuer or goal fails — in that order — with `NoTheseus`,
    /// `NoMinotaur` or `NoGoal`.
    #[verifier::loop_isolation(false)]
    pub fn from_board(board: &str) -> (r: Result<Game, BoardError>)
        ensures
            (r matches Ok(g) ==> parse_board(board@) == Ok::<BoardModel, BoardError>(g.model())
                && g.wf()),
            (r matches Err(e) ==> parse_board(board@) == Err::<BoardModel, BoardError>(e)),
    {
        let chars = chars_of(board);
        let lines = split_into_lines(&chars);
        let ghost all = split_lines(board@);
        let mut rows: Vec<Vec<char>> = Vec::new();
        let mut thes: Option<(usize, usize)> = None;
        let mut mino: Option<(usize, usize)> = None;
        let mut goal: Option<(usize, usize)> = None;
        let mut li: usize = 0;
        proof {
            assert(all.skip(0) =~= all);
            assert(rows@.map_values(|rw: Vec<char>| rw@) =~= Seq::<Seq<char>>::empty());
        }
        while li < lines.len()
            invariant
                all == split_lines(board@),
                lines@.map_values(|l: Vec<char>| l@) == all,
                li <= lines@.len(),
                scan_rows(all, Seq::empty(), empty_entities()) == scan_rows(
                    all.skip(li as int),
                    rows@.map_values(|rw: Vec<char>| rw@),
                    st_of(thes, mino, goal),
                ),
            decreases lines@.len() - li,
        {
            let ghost rm = rows@.map_values(|rw: Vec<char>| rw@);
            let ghost st0 = st_of(thes, mino, goal);
            let ghost lsuf = all.skip(li as int);
            let line = &lines[li];
            proof {
                assert(all[li as int] == lines@.map_values(|l: Vec<char>| l@)[li as int]);
                assert(lsuf[0] == all[li as int]);
                assert(lsuf.drop_first() =~= all.skip(li as int + 1));
            }
            if is_blank_exec(line) {
                li += 1;
                continue ;
            }
            let mut row: Vec<char> = Vec::new();
            let mut ci: usize = 0;
            let ghost r = rows@.len() as int;
            proof {
                assert(line@.skip(0) =~= line@);
                assert(row@ =~= Seq::<char>::empty());
                assert(rm.len() == rows@.len());
            }
            while ci < line.len()
                invariant
                    ci <= line@.len(),
                    row@.len() == ci,
                    r == rows@.len() as int,
                    scan_row(line@, r, 0, Seq::empty(), st0) == scan_row(
                        line@.skip(ci as int),
                        r,
                        ci as int,
                        row@,
                        st_of(thes, mino, goal),
                    ),
                decreases line@.len() - ci,
            {
                let ghost csuf = line@.skip(ci as int);
                proof {
                    assert(csuf[0] == line@[ci as int]);
                    assert(csuf.drop_first() =~= line@.skip(ci as int + 1));
                }
                let ch = line[ci];
                if ch == ' ' || ch == 'X' {
                    row.push(ch);
                } else if ch == 'T' {
                    if thes.is_some() {
                        proof {
                            lemma_err_chain(board@, li as int, rm, st0, BoardError::MultipleTheseus);
                        }
                        return Err(BoardError::MultipleTheseus);
                    }
                    thes = Some((rows.len(), ci));
                    row.push(' ');
                } else if ch == 'M' {
                    if mino.is_some() {
                        proof {
                            lemma_err_chain(
                                board@,
                                li as int,
                                rm,
                                st0,
                                BoardError::MultipleMinotaur,
                            );
                        }
                        return Err(BoardError::MultipleMinotaur);
                    }
                    mino = Some((rows.len(), ci));
                    row.push(' ');
                } else if ch == 'G' {
                    if goal.is_some() {
                        proof {
                            lemma_err_chain(board@, li as int, rm, st0, BoardError::MultipleGoal);
                        }
                        return Err(BoardError::MultipleGoal);
                    }
                    goal = Some((rows.len(), ci));
                    row.push('G');
                } else {
                    proof {
                        lemma_err_chain(board@, li as int, rm, st0, BoardError::InvalidCharacter(ch));
                    }
                    return Err(BoardError::InvalidCharacter(ch));
                }
                ci += 1;
            }
            proof {
                assert(line@.skip(ci as int) =~= Seq::<char>::empty());
            }
            let ghost st1 = st_of(thes, mino, goal);
            let ghost rowv = row@;
            if rows.len() > 0 && row.len() != rows[0].len() {
                proof {
                    assert(rm[0] == rows@[0]@);
                    assert(scan_rows(lsuf, rm, st0) == Err::<
                        (Seq<Seq<char>>, EntityState),
                        BoardError,
                    >(BoardError::InvalidSize));
                }
                return Err(BoardError::InvalidSize);
            }
            proof {
                if rm.len() > 0 {
                    assert(rm[0] == rows@[0]@);
                }
            }
            rows.push(row);
            li += 1;
            proof {
                assert(rows@.map_values(|rw: Vec<char>| rw@) =~= rm.push(rowv));
                assert(scan_rows(lsuf, rm, st0) == scan_rows(
                    all.skip(li as int),
                    rm.push(rowv),
                    st1,
                ));
            }
        }
        proof {
            assert(all.skip(li as int) =~= Seq::<Seq<char>>::empty());
        }
        let ghost rm = rows@.map_values(|rw: Vec<char>| rw@);
        let ghost stf = st_of(thes, mino, goal);
        proof {
            assert(scan_rows(all, Seq::empty(), empty_entities()) == Ok::<
                (Seq<Seq<char>>, EntityState),
                BoardError,
            >((rm, stf)));
            lemma_scan_rows_shape(all, Seq::empty(), empty_entities());
        }
        let (theseus_row, theseus_col) = match thes {
            Some(p) => p,
            None => {
                return Err(BoardError::NoTheseus);
            },
        };
        let (minotaur_row, minotaur_col) = match mino {
            Some(p) => p,
            None => {
                return Err(BoardError::NoMinotaur);
            },
        };
        let (goal_row, goal_col) = match goal {
            Some(p) => p,
            None => {
                return Err(BoardError::NoGoal);
            },
        };
        let height = rows.len();
        proof {
            assert(pos_at(rm, (theseus_row as int, theseus_col as int), ' '));
            assert(rm.len() == rows@.len());
            assert(rm[0] == rows@[0]@);
        }
        let width = rows[0].len();
        let game = Game {
            grid: Grid { rows, height, width },
            theseus_row,
            theseus_col,
            minotaur_row,
            minotaur_col,
            goal_row,
            goal_col,
        };
        proof {
            assert(game.grid@ =~= rm);
            assert(game.wf());
            assert(parse_board(board@) == Ok::<BoardModel, BoardError>(game.model()));
        }
        Ok(game)
    }
}

} // verus!

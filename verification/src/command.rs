//! The player's command vocabulary, and the mapping from one line of raw
//! driver input to a command.

use vstd::prelude::*;

use crate::board::chars_of;
use crate::board::is_ws;
use crate::board::is_ws_char;

verus! {

/// One player action for a turn.
#[derive(Debug, Clone, Copy, PartialEq, Eq, Structural)]
pub enum Command {
    /// Move one tile up.
    Up,
    /// Move one tile down.
    Down,
    /// Move one tile left.
    Left,
    /// Move one tile right.
    Right,
    /// Don't move at all.
    Skip,
}

/// Whether `c` reads as the lowercase letter `l`, ignoring case: `c` is `l`
/// itself, its ASCII uppercase, or — for `'k'` — the Kelvin sign, the one
/// further character whose Unicode lowercase is an ASCII letter.
pub open spec fn lower_eq(c: char, l: char) -> bool {
    c == l || c as u32 + 32 == l as u32 || (l == 'k' && c as u32 == 0x212A)
}

/// `s` with leading and trailing whitespace removed.
pub open spec fn trimmed(s: Seq<char>) -> Seq<char>
    decreases s.len(),
{
    if s.len() == 0 {
        s
    } else if is_ws(s[0]) {
        trimmed(s.drop_first())
    } else if is_ws(s.last()) {
        trimmed(s.drop_last())
    } else {
        s
    }
}

/// `t` reads as the one-letter word `a`, ignoring case.
pub open spec fn word1(t: Seq<char>, a: char) -> bool {
    t.len() == 1 && lower_eq(t[0], a)
}

/// `t` reads as the two-letter word `a b`, ignoring case.
pub open spec fn word2(t: Seq<char>, a: char, b: char) -> bool {
    t.len() == 2 && lower_eq(t[0], a) && lower_eq(t[1], b)
}

/// `t` reads as the four-letter word `a b c d`, ignoring case.
pub open spec fn word4(t: Seq<char>, a: char, b: char, c: char, d: char) -> bool {
    t.len() == 4 && lower_eq(t[0], a) && lower_eq(t[1], b) && lower_eq(t[2], c) && lower_eq(
        t[3],
        d,
    )
}

/// `t` reads as the five-letter word `a b c d e`, ignoring case.
pub open spec fn word5(t: Seq<char>, a: char, b: char, c: char, d: char, e: char) -> bool {
    t.len() == 5 && lower_eq(t[0], a) && lower_eq(t[1], b) && lower_eq(t[2], c) && lower_eq(
        t[3],
        d,
    ) && lower_eq(t[4], e)
}

/// The command one line of raw input denotes: after trimming whitespace,
/// `w`/`up`, `a`/`left`, `s`/`down`, `d`/`right` or `skip`, ignoring case;
/// anything else is no command.
pub open spec fn command_of_line(s: Seq<char>) -> Option<Command> {
    let t = trimmed(s);
    if word1(t, 'w') || word2(t, 'u', 'p') {
        Some(Command::Up)
    } else if word1(t, 'a') || word4(t, 'l', 'e', 'f', 't') {
        Some(Command::Left)
    } else if word1(t, 's') || word4(t, 'd', 'o', 'w', 'n') {
        Some(Command::Down)
    } else if word1(t, 'd') || word5(t, 'r', 'i', 'g', 'h', 't') {
        Some(Command::Right)
    } else if word4(t, 's', 'k', 'i', 'p') {
        Some(Command::Skip)
    } else {
        None
    }
}

/// Trimming is determined by a two-ended scan: whitespace before `a` and
/// from `b` on, with non-whitespace at both ends of the middle.
proof fn lemma_trimmed_is(s: Seq<char>, a: int, b: int)
    requires
        0 <= a <= b <= s.len(),
        forall|i: int| 0 <= i < a ==> is_ws(#[trigger] s[i]),
        forall|i: int| b <= i < s.len() ==> is_ws(#[trigger] s[i]),
        a < b ==> !is_ws(s[a]) && !is_ws(s[b - 1]),
    ensures
        trimmed(s) == s.subrange(a, b),
    decreases s.len(),
{
    if s.len() == 0 {
        assert(s.subrange(a, b) =~= s);
    } else if is_ws(s[0]) {
        if a > 0 {
            lemma_trimmed_is(s.drop_first(), a - 1, b - 1);
            assert(s.drop_first().subrange(a - 1, b - 1) =~= s.subrange(a, b));
        } else {
            assert(a == b);
            lemma_trimmed_is(s.drop_first(), 0, 0);
            assert(s.drop_first().subrange(0, 0) =~= s.subrange(a, b));
        }
    } else if is_ws(s.last()) {
        assert(a == 0);
        assert(b < s.len());
        lemma_trimmed_is(s.drop_last(), a, b);
        assert(s.drop_last().subrange(a, b) =~= s.subrange(a, b));
    } else {
        assert(a == 0);
        assert(b == s.len());
        assert(s.subrange(0, s.len() as int) =~= s);
    }
}

/// Whether `c` reads as the lowercase letter `l`, ignoring case.
fn lower_eq_exec(c: char, l: char) -> (b: bool)
    ensures
        b == lower_eq(c, l),
{
    c == l || (c as u32) + 32 == (l as u32) || (l == 'k' && c as u32 == 0x212A)
}

/// The command one line of raw input denotes, or `None` when the line is
/// not a recognized command and the driver should prompt again. The line
/// is trimmed and read ignoring case: `w`/`up`, `a`/`left`, `s`/`down`,
/// `d`/`right`, `skip`.
pub fn input(line: &str) -> (r: Option<Command>)
    ensures
        r == command_of_line(line@),
{
    let v = chars_of(line);
    let mut a: usize = 0;
    let mut b: usize = v.len();
    while a < b && is_ws_char(v[a])
        invariant
            0 <= a <= b <= v@.len(),
            forall|i: int| 0 <= i < a ==> is_ws(#[trigger] v@[i]),
            b == v@.len(),
        decreases b - a,
    {
        a += 1;
    }
    while b > a && is_ws_char(v[b - 1])
        invariant
            0 <= a <= b <= v@.len(),
            forall|i: int| 0 <= i < a ==> is_ws(#[trigger] v@[i]),
            forall|i: int| b <= i < v@.len() ==> is_ws(#[trigger] v@[i]),
            a < b ==> !is_ws(v@[a as int]),
        decreases b,
    {
        b -= 1;
    }
    proof {
        lemma_trimmed_is(v@, a as int, b as int);
    }
    let ghost t = trimmed(line@);
    proof {
        assert forall|i: int| 0 <= i < b - a implies t[i] == v@[a + i] by {
            assert(t == v@.subrange(a as int, b as int));
        }
    }
    let n = b - a;
    if n == 1 {
        let c0 = v[a];
        if lower_eq_exec(c0, 'w') {
            Some(Command::Up)
        } else if lower_eq_exec(c0, 'a') {
            Some(Command::Left)
        } else if lower_eq_exec(c0, 's') {
            Some(Command::Down)
        } else if lower_eq_exec(c0, 'd') {
            Some(Command::Right)
        } else {
            None
        }
    } else if n == 2 {
        if lower_eq_exec(v[a], 'u') && lower_eq_exec(v[a + 1], 'p') {
            Some(Command::Up)
        } else {
            None
        }
    } else if n == 4 {
        if lower_eq_exec(v[a], 'l') && lower_eq_exec(v[a + 1], 'e') && lower_eq_exec(v[a + 2], 'f')
            && lower_eq_exec(v[a + 3], 't') {
            Some(Command::Left)
        } else if lower_eq_exec(v[a], 'd') && lower_eq_exec(v[a + 1], 'o') && lower_eq_exec(
            v[a + 2],
            'w',
        ) && lower_eq_exec(v[a + 3], 'n') {
            Some(Command::Down)
        } else if lower_eq_exec(v[a], 's') && lower_eq_exec(v[a + 1], 'k') && lower_eq_exec(
            v[a + 2],
            'i',
        ) && lower_eq_exec(v[a + 3], 'p') {
            Some(Command::Skip)
        } else {
            None
        }
    } else if n == 5 {
        if lower_eq_exec(v[a], 'r') && lower_eq_exec(v[a + 1], 'i') && lower_eq_exec(v[a + 2], 'g')
            && lower_eq_exec(v[a + 3], 'h') && lower_eq_exec(v[a + 4], 't') {
            Some(Command::Right)
        } else {
            None
        }
    } else {
        None
    }
}

} // verus!

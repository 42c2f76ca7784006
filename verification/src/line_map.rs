//! Line/column model: converts a byte offset, after the fact, into a
//! zero-based (line, column) pair for diagnostic rendering.
//!
//! The model mirrors how lines of text are split: a line runs to the next
//! `'\n'` (or the end of the text), and a `'\r'` immediately before the
//! `'\n'` belongs to the terminator, not to the line. Walking the lines, a
//! cumulative counter advances by the byte length of each line plus one for
//! its terminator, until the line containing the offset is reached.

use vstd::prelude::*;
use crate::text::byte_offset;
use crate::text::lemma_byte_offset_mono;

verus! {

/// Position of the next `'\n'` at or after `i`, or the length of `s`.
pub open spec fn eol_from(s: Seq<char>, i: int) -> int
    decreases s.len() - i,
{
    if i >= s.len() {
        s.len() as int
    } else if s[i] == '\n' {
        i
    } else {
        eol_from(s, i + 1)
    }
}

pub proof fn lemma_eol_from_bounds(s: Seq<char>, i: int)
    requires
        0 <= i <= s.len(),
    ensures
        i <= eol_from(s, i) <= s.len(),
        eol_from(s, i) < s.len() ==> s[eol_from(s, i)] == '\n',
        forall|k: int| i <= k < eol_from(s, i) ==> s[k] != '\n',
    decreases s.len() - i,
{
    if i < s.len() && s[i] != '\n' {
        lemma_eol_from_bounds(s, i + 1);
    }
}

/// End of the content of the line starting at `start`: the next `'\n'`,
/// stepping back over a `'\r'` that sits immediately before it.
pub open spec fn line_content_end(s: Seq<char>, start: int) -> int {
    let e = eol_from(s, start);
    if e < s.len() && e > start && s[e - 1] == '\r' {
        e - 1
    } else {
        e
    }
}

/// The walk over the lines of `s` from the line starting at `start`, which is
/// line number `lineno` and whose first byte is at cumulative count `cur`:
/// once the cumulative count would pass `offset`, the answer is the current
/// line and the distance of `offset` into it; an offset past every line maps
/// to the total line count with column zero.
pub open spec fn linecol_from(s: Seq<char>, start: int, lineno: int, cur: int, offset: int) -> (
    int,
    int,
)
    decreases s.len() - start,
{
    if start < 0 || start >= s.len() {
        (lineno, 0)
    } else {
        let e = eol_from(s, start);
        let linelen = byte_offset(s, line_content_end(s, start)) - byte_offset(s, start);
        if cur + linelen + 1 > offset {
            (lineno, offset - cur)
        } else {
            proof {
                lemma_eol_from_bounds(s, start);
            }
            let next = if e < s.len() {
                e + 1
            } else {
                s.len() as int
            };
            linecol_from(s, next, lineno + 1, cur + linelen + 1, offset)
        }
    }
}

/// The zero-based (line, column) pair that byte offset `offset` of `s` maps
/// to.
pub open spec fn linecol(s: Seq<char>, offset: int) -> (int, int) {
    linecol_from(s, 0, 0, 0, offset)
}

/// Number of `'\n'` characters among the first `i` characters of `s`.
pub open spec fn count_newlines(s: Seq<char>, i: int) -> int
    decreases i,
{
    if i <= 0 {
        0
    } else {
        count_newlines(s, i - 1) + if 0 <= i - 1 < s.len() && s[i - 1] == '\n' {
            1int
        } else {
            0int
        }
    }
}

/// Byte offset zero always maps to line zero, column zero.
pub proof fn lemma_linecol_offset_zero(s: Seq<char>)
    ensures
        linecol(s, 0) == (0int, 0int),
{
    if s.len() > 0 {
        lemma_eol_from_bounds(s, 0);
        lemma_byte_offset_mono(s, 0, line_content_end(s, 0));
    }
}

proof fn lemma_count_newlines_step(s: Seq<char>, i: int, j: int)
    requires
        0 <= i <= j <= s.len(),
        forall|k: int| i <= k < j ==> s[k] != '\n',
    ensures
        count_newlines(s, j) == count_newlines(s, i),
        j < s.len() && s[j] == '\n' ==> count_newlines(s, j + 1) == count_newlines(s, i) + 1,
    decreases j - i,
{
    if i < j {
        lemma_count_newlines_step(s, i, j - 1);
        assert(count_newlines(s, j) == count_newlines(s, j - 1));
    }
}

/// An offset that sits exactly at a line boundary — the first byte after a
/// `'\n'` at character position `p` — maps to the start of the next line:
/// line index `count_newlines(s, p)`, column zero. The walk counts a
/// `"\r\n"` terminator as a single byte, so the statement asks that no
/// `"\r\n"` occur before the boundary.
pub proof fn lemma_linecol_line_boundary(s: Seq<char>, p: int)
    requires
        0 < p <= s.len(),
        s[p - 1] == '\n',
        forall|k: int| 0 <= k < p - 1 ==> !((#[trigger] s[k]) == '\r' && s[k + 1] == '\n'),
    ensures
        linecol(s, byte_offset(s, p)) == (count_newlines(s, p), 0int),
{
    lemma_linecol_boundary_from(s, p, 0, 0);
}

proof fn lemma_linecol_boundary_from(s: Seq<char>, p: int, start: int, lineno: int)
    requires
        0 <= start <= p - 1,
        p <= s.len(),
        s[p - 1] == '\n',
        forall|k: int| start <= k < p - 1 ==> !((#[trigger] s[k]) == '\r' && s[k + 1] == '\n'),
        lineno == count_newlines(s, start),
    ensures
        linecol_from(s, start, lineno, byte_offset(s, start), byte_offset(s, p)) == (
            count_newlines(s, p),
            0int,
        ),
    decreases s.len() - start,
{
    lemma_eol_from_bounds(s, start);
    let e = eol_from(s, start);
    let offset = byte_offset(s, p);
    let cur = byte_offset(s, start);
    assert(e <= p - 1) by {
        if e > p - 1 {
            assert(s[p - 1] != '\n');
        }
    }
    let ce = line_content_end(s, start);
    assert(ce == e) by {
        if e < s.len() && e > start && s[e - 1] == '\r' {
            assert(s[e - 1] == '\r' && s[e] == '\n');
            assert(e - 1 < p - 1);
        }
    }
    let linelen = byte_offset(s, ce) - byte_offset(s, start);
    assert(byte_offset(s, e + 1) == byte_offset(s, e) + 1);
    lemma_byte_offset_mono(s, e + 1, p);
    if e == p - 1 {
        assert(cur + linelen + 1 == byte_offset(s, p));
        lemma_count_newlines_step(s, start, e);
        assert(count_newlines(s, p) == lineno + 1);
        if p >= s.len() {
            assert(linecol_from(s, p, lineno + 1, offset, offset) == (lineno + 1, 0int));
        } else {
            lemma_eol_from_bounds(s, p);
            lemma_byte_offset_mono(s, p, line_content_end(s, p));
            assert(linecol_from(s, p, lineno + 1, offset, offset) == (lineno + 1, 0int));
        }
    } else {
        assert(e < p - 1);
        assert(byte_offset(s, e) + 1 <= offset);
        assert(!(cur + linelen + 1 > offset));
        lemma_count_newlines_step(s, start, e);
        lemma_linecol_boundary_from(s, p, e + 1, lineno + 1);
    }
}

} // verus!

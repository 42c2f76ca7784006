//! Mathematical model of the parse.
//!
//! The executable parser in `summary` is specified against the functions
//! here: `scan_delim` models one balanced-delimiter scan, `link_scan` models
//! the recognition of one `[title](destination)` link, and `prefaces_from`
//! models the whole top-level pass over the prefatory section, yielding the
//! entries recognised and the diagnostics recorded, in order.

use vstd::prelude::*;
use vstd::utf8::encode_utf8;
use crate::errors::Diag;
use crate::text::byte_offset;
use crate::text::lemma_byte_offset_full;
use crate::text::lemma_byte_offset_mono;
use crate::text::lemma_byte_offset_nonneg;

verus! {

/// Number of characters the cursor consumes when it takes a line break at
/// position `i`: one for a bare `'\n'`, two for `"\r\n"`, zero when `i` does
/// not sit on a line break.
pub open spec fn newline_len(s: Seq<char>, i: int) -> int {
    if 0 <= i < s.len() && s[i] == '\n' {
        1
    } else if 0 <= i && i + 1 < s.len() && s[i] == '\r' && s[i + 1] == '\n' {
        2
    } else {
        0
    }
}

/// Position of the cursor after discarding the rest of the current line:
/// just past the next `'\n'`, or the end of the text if none remains.
pub open spec fn after_eol(s: Seq<char>, i: int) -> int
    decreases s.len() - i,
{
    if i >= s.len() {
        i
    } else if s[i] == '\n' {
        i + 1
    } else {
        after_eol(s, i + 1)
    }
}

/// Position of the cursor after the maximal run of spaces and tabs starting
/// at `i`.
pub open spec fn skip_ws(s: Seq<char>, i: int) -> int
    decreases s.len() - i,
{
    if 0 <= i < s.len() && (s[i] == ' ' || s[i] == '\t') {
        skip_ws(s, i + 1)
    } else {
        i
    }
}

pub proof fn lemma_after_eol_bounds(s: Seq<char>, i: int)
    requires
        0 <= i,
    ensures
        i <= after_eol(s, i),
        i < s.len() ==> i < after_eol(s, i) <= s.len(),
        i >= s.len() ==> after_eol(s, i) == i,
    decreases s.len() - i,
{
    if i < s.len() && s[i] != '\n' {
        lemma_after_eol_bounds(s, i + 1);
    }
}

/// Outcome of one balanced-delimiter scan starting inside the construct, with
/// the opening delimiter already consumed.
pub enum Scan {
    /// The scan ran into a line break before the closing delimiter; the break
    /// itself was consumed and the cursor stands at `next`.
    Newline { next: int },
    /// The closing delimiter was found at position `end`; the consumed text is
    /// the characters from the scan's start up to `end`, exclusive.
    Closed { end: int },
    /// The text ended before the closing delimiter.
    AtEnd,
}

/// One balanced-delimiter scan from position `i` with nesting depth
/// `balance`. A nested `open` deepens the nesting and a `close` at depth
/// greater than one shallows it, both retained literally; a `close` at depth
/// one ends the scan; a backslash is retained together with whatever
/// character follows it; a line break aborts the scan.
pub open spec fn scan_delim(s: Seq<char>, i: int, open: char, close: char, balance: int) -> Scan
    decreases s.len() - i,
{
    if i < 0 || i >= s.len() {
        Scan::AtEnd
    } else if newline_len(s, i) > 0 {
        Scan::Newline { next: i + newline_len(s, i) }
    } else if s[i] == open {
        scan_delim(s, i + 1, open, close, balance + 1)
    } else if s[i] == close && balance > 1 {
        scan_delim(s, i + 1, open, close, balance - 1)
    } else if s[i] == close {
        Scan::Closed { end: i }
    } else if s[i] == '\\' {
        if i + 1 >= s.len() {
            Scan::AtEnd
        } else {
            scan_delim(s, i + 2, open, close, balance)
        }
    } else {
        scan_delim(s, i + 1, open, close, balance)
    }
}

pub proof fn lemma_scan_delim_bounds(s: Seq<char>, i: int, open: char, close: char, balance: int)
    requires
        0 <= i,
    ensures
        match scan_delim(s, i, open, close, balance) {
            Scan::Newline { next } => i < next <= s.len(),
            Scan::Closed { end } => i <= end < s.len() && s[end] == close,
            Scan::AtEnd => true,
        },
    decreases s.len() - i,
{
    if 0 <= i < s.len() && newline_len(s, i) == 0 {
        if s[i] == open {
            lemma_scan_delim_bounds(s, i + 1, open, close, balance + 1);
        } else if s[i] == close && balance > 1 {
            lemma_scan_delim_bounds(s, i + 1, open, close, balance - 1);
        } else if s[i] == close {
        } else if s[i] == '\\' {
            if i + 1 < s.len() {
                lemma_scan_delim_bounds(s, i + 2, open, close, balance);
            }
        } else {
            lemma_scan_delim_bounds(s, i + 1, open, close, balance);
        }
    }
}

/// Message of the diagnostic recorded when an expected delimiter is missing:
/// it names the expected character and what was found instead.
pub open spec fn expect_msg(ch: char, found: Option<char>) -> Seq<char> {
    match found {
        Some(c) => "expected `"@ + seq![ch] + "`, but found `"@ + seq![c] + "`"@,
        None => "expected `"@ + seq![ch] + "`, but found eof"@,
    }
}

/// Message of the diagnostic recorded when the top-level pass meets a
/// character that cannot start any recognised construct.
pub open spec fn unexpected_msg(c: char) -> Seq<char> {
    "Unexpected character '"@ + seq![c] + "'"@
}

/// The diagnostic recorded when the character expected at position `i` is
/// missing: its offset is the byte offset of that position.
pub open spec fn expect_diag(s: Seq<char>, i: int, ch: char) -> Diag {
    if i < s.len() {
        Diag { msg: expect_msg(ch, Some(s[i])), byte: byte_offset(s, i) }
    } else {
        Diag { msg: expect_msg(ch, None), byte: byte_offset(s, s.len() as int) }
    }
}

/// One entry recognised by the scan: a display title and a destination.
pub struct EntrySpec {
    pub title: Seq<char>,
    pub dest: Seq<char>,
}

/// Outcome of scanning one prospective link.
pub enum LinkScan {
    /// A complete `[title](destination)` construct was consumed.
    Entry { title: Seq<char>, dest: Seq<char>, next: int },
    /// The scan failed silently; the cursor stands at `next`.
    NoEntry { next: int },
    /// The `(` after the title was missing: the scan failed and recorded `d`.
    NoEntryDiag { d: Diag, next: int },
}

/// Scanning one prospective link whose opening `[` stands at position `i`.
/// The title runs to the `]` that balances the opening bracket, the
/// destination to the `)` that balances the `(` after it; a line break in
/// either aborts silently, as does a destination cut short by the end of the
/// text; only a missing `(` after the title records a diagnostic.
pub open spec fn link_scan(s: Seq<char>, i: int) -> LinkScan {
    let j = if 0 <= i < s.len() && s[i] == '[' {
        i + 1
    } else {
        i
    };
    match scan_delim(s, j, '[', ']', 1) {
        Scan::Newline { next } => LinkScan::NoEntry { next },
        Scan::AtEnd => LinkScan::NoEntryDiag {
            d: expect_diag(s, s.len() as int, '('),
            next: s.len() as int,
        },
        Scan::Closed { end } => {
            let title = s.subrange(j, end);
            let k = end + 1;
            if k < s.len() && s[k] == '(' {
                match scan_delim(s, k + 1, '(', ')', 1) {
                    Scan::Newline { next } => LinkScan::NoEntry { next },
                    Scan::AtEnd => LinkScan::NoEntry { next: s.len() as int },
                    Scan::Closed { end: e2 } => LinkScan::Entry {
                        title,
                        dest: s.subrange(k + 1, e2),
                        next: e2 + 1,
                    },
                }
            } else {
                LinkScan::NoEntryDiag { d: expect_diag(s, k, '('), next: k }
            }
        },
    }
}

pub proof fn lemma_link_scan_bounds(s: Seq<char>, i: int)
    requires
        0 <= i < s.len(),
        s[i] == '[',
    ensures
        match link_scan(s, i) {
            LinkScan::Entry { next, .. } => i < next <= s.len(),
            LinkScan::NoEntry { next } => i < next <= s.len(),
            LinkScan::NoEntryDiag { next, .. } => i < next <= s.len(),
        },
{
    lemma_scan_delim_bounds(s, i + 1, '[', ']', 1);
    match scan_delim(s, i + 1, '[', ']', 1) {
        Scan::Closed { end } => {
            lemma_scan_delim_bounds(s, end + 2, '(', ')', 1);
        },
        _ => {},
    }
}

/// The prefatory section from position `i` to the end of the pass: the
/// entries recognised and the diagnostics recorded, each in order. Blank
/// lines are skipped; a `[` attempts a link scan, and a failed scan discards
/// the rest of the line; a `-` ends the pass; any other character records an
/// unexpected-character diagnostic and discards the rest of the line.
pub open spec fn prefaces_from(s: Seq<char>, i: int) -> (Seq<EntrySpec>, Seq<Diag>)
    decreases s.len() - i,
{
    if i < 0 || i >= s.len() {
        (seq![], seq![])
    } else if newline_len(s, i) > 0 {
        prefaces_from(s, i + newline_len(s, i))
    } else if s[i] == '[' {
        proof {
            lemma_link_scan_bounds(s, i);
            lemma_after_eol_bounds(s, i + 1);
        }
        match link_scan(s, i) {
            LinkScan::Entry { title, dest, next } => {
                let r = prefaces_from(s, next);
                (seq![EntrySpec { title, dest }] + r.0, r.1)
            },
            LinkScan::NoEntry { next } => {
                proof {
                    lemma_after_eol_bounds(s, next);
                }
                prefaces_from(s, after_eol(s, next))
            },
            LinkScan::NoEntryDiag { d, next } => {
                proof {
                    lemma_after_eol_bounds(s, next);
                }
                let r = prefaces_from(s, after_eol(s, next));
                (r.0, seq![d] + r.1)
            },
        }
    } else if s[i] == '-' {
        (seq![], seq![])
    } else {
        proof {
            lemma_after_eol_bounds(s, i);
        }
        let d = Diag { msg: unexpected_msg(s[i]), byte: byte_offset(s, i) };
        let r = prefaces_from(s, after_eol(s, i));
        (r.0, seq![d] + r.1)
    }
}

/// Position of the cursor after the decorative title line: when the text
/// opens with `#` at position `i`, the rest of that line is discarded.
pub open spec fn after_header(s: Seq<char>, i: int) -> int {
    if 0 <= i < s.len() && s[i] == '#' {
        after_eol(s, i + 1)
    } else {
        i
    }
}

/// The entries a whole parse pass over `s` recognises.
pub open spec fn parse_entries(s: Seq<char>) -> Seq<EntrySpec> {
    prefaces_from(s, after_header(s, 0)).0
}

/// The diagnostics a whole parse pass over `s` records.
pub open spec fn parse_diags(s: Seq<char>) -> Seq<Diag> {
    prefaces_from(s, after_header(s, 0)).1
}

/// Every diagnostic a whole parse pass records carries a byte offset inside
/// the input: at least zero and at most the input's length in bytes.
pub proof fn lemma_parse_diags_in_input(s: Seq<char>)
    ensures
        forall|k: int|
            0 <= k < parse_diags(s).len() ==> 0 <= #[trigger] parse_diags(s)[k].byte
                <= encode_utf8(s).len(),
{
    lemma_after_eol_bounds(s, 1);
    lemma_prefaces_diags_bounded(s, after_header(s, 0));
    lemma_byte_offset_full(s);
}

/// Every diagnostic the pass records carries a byte offset no greater than
/// the byte length of the text.
pub proof fn lemma_prefaces_diags_bounded(s: Seq<char>, i: int)
    requires
        0 <= i,
    ensures
        forall|k: int|
            0 <= k < prefaces_from(s, i).1.len() ==> 0 <= #[trigger] prefaces_from(s, i).1[k].byte
                <= byte_offset(s, s.len() as int),
    decreases s.len() - i,
{
    if i >= s.len() {
        assert(prefaces_from(s, i).1.len() == 0);
    } else if newline_len(s, i) > 0 {
        lemma_prefaces_diags_bounded(s, i + newline_len(s, i));
        assert(prefaces_from(s, i).1 == prefaces_from(s, i + newline_len(s, i)).1);
    } else if s[i] == '[' {
        lemma_link_scan_bounds(s, i);
        match link_scan(s, i) {
            LinkScan::Entry { next, .. } => {
                lemma_prefaces_diags_bounded(s, next);
                assert(prefaces_from(s, i).1 == prefaces_from(s, next).1);
            },
            LinkScan::NoEntry { next } => {
                lemma_after_eol_bounds(s, next);
                lemma_prefaces_diags_bounded(s, after_eol(s, next));
                assert(prefaces_from(s, i).1 == prefaces_from(s, after_eol(s, next)).1);
            },
            LinkScan::NoEntryDiag { d, next } => {
                lemma_after_eol_bounds(s, next);
                lemma_prefaces_diags_bounded(s, after_eol(s, next));
                lemma_link_scan_diag_bounded(s, i);
                let rest = prefaces_from(s, after_eol(s, next)).1;
                assert(prefaces_from(s, i).1 == seq![d] + rest);
                assert forall|k: int| 0 <= k < prefaces_from(s, i).1.len() implies 0 <= #[trigger] prefaces_from(
                    s,
                    i,
                ).1[k].byte <= byte_offset(s, s.len() as int) by {
                    if k > 0 {
                        assert(prefaces_from(s, i).1[k] == rest[k - 1]);
                    }
                }
            },
        }
    } else if s[i] == '-' {
    } else {
        lemma_after_eol_bounds(s, i);
        lemma_prefaces_diags_bounded(s, after_eol(s, i));
        lemma_byte_offset_nonneg(s, i);
        lemma_byte_offset_mono(s, i, s.len() as int);
        let d = Diag { msg: unexpected_msg(s[i]), byte: byte_offset(s, i) };
        let rest = prefaces_from(s, after_eol(s, i)).1;
        assert(prefaces_from(s, i).1 == seq![d] + rest);
        assert forall|k: int| 0 <= k < prefaces_from(s, i).1.len() implies 0 <= #[trigger] prefaces_from(
            s,
            i,
        ).1[k].byte <= byte_offset(s, s.len() as int) by {
            if k > 0 {
                assert(prefaces_from(s, i).1[k] == rest[k - 1]);
            }
        }
    }
}

proof fn lemma_link_scan_diag_bounded(s: Seq<char>, i: int)
    requires
        0 <= i < s.len(),
        s[i] == '[',
    ensures
        match link_scan(s, i) {
            LinkScan::NoEntryDiag { d, .. } => 0 <= d.byte <= byte_offset(s, s.len() as int),
            _ => true,
        },
{
    lemma_scan_delim_bounds(s, i + 1, '[', ']', 1);
    match scan_delim(s, i + 1, '[', ']', 1) {
        Scan::Closed { end } => {
            lemma_byte_offset_nonneg(s, end + 1);
            lemma_byte_offset_mono(s, end + 1, s.len() as int);
        },
        _ => {
            lemma_byte_offset_nonneg(s, s.len() as int);
        },
    }
}

} // verus!

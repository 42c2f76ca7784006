//! The parse session: a forward-only cursor over the input text, the outline
//! being built, and the diagnostics recorded so far.
//!
//! `parse` drives the whole pass: it skips the decorative title line, then
//! repeatedly attempts to parse list items as links, folding successes into
//! the outline and recovering from malformed lines by discarding them. The
//! pass always runs to the end of the input; it reports failure — returning
//! no outline — exactly when at least one diagnostic was recorded.

use vstd::prelude::*;
use vstd::string::StrSliceExecFns;
use vstd::string::StringExecFns;
use vstd::utf8::encode_utf8;
use crate::errors::ParseError;
use crate::link::Link;
use crate::scan::EntrySpec;
use crate::scan::LinkScan;
use crate::scan::Scan;
use crate::scan::after_eol;
use crate::scan::after_header;
use crate::scan::expect_diag;
use crate::scan::expect_msg;
use crate::scan::lemma_after_eol_bounds;
use crate::scan::lemma_link_scan_bounds;
use crate::scan::lemma_prefaces_diags_bounded;
use crate::scan::lemma_scan_delim_bounds;
use crate::scan::link_scan;
use crate::scan::newline_len;
use crate::scan::parse_diags;
use crate::scan::parse_entries;
use crate::scan::prefaces_from;
use crate::scan::scan_delim;
use crate::scan::skip_ws;
use crate::scan::unexpected_msg;
use crate::text::byte_offset;
use crate::text::char_width;
use crate::text::lemma_byte_offset_full;
use crate::text::lemma_byte_offset_mono;
use crate::text::lemma_byte_offset_nonneg;
use crate::text::push_char;
use crate::line_map::linecol;
use crate::line_map::linecol_from;
use crate::line_map::line_content_end;
use crate::line_map::eol_from;

verus! {

/// The three-section outline a parse pass yields: prefatory entries, main
/// chapters, and appendices. Only the prefaces are populated by this parser;
/// the other two sections are always empty.
#[derive(Debug)]
pub struct Chapters {
    pub prefaces: Vec<Link>,
    pub chapters: Vec<Link>,
    pub appendices: Vec<Link>,
}

impl Chapters {
    pub fn new() -> (r: Chapters)
        ensures
            r.prefaces@.len() == 0,
            r.chapters@.len() == 0,
            r.appendices@.len() == 0,
    {
        Chapters { prefaces: Vec::new(), chapters: Vec::new(), appendices: Vec::new() }
    }
}

/// `v` is exactly the sequence of leaf links described by `e`: same length,
/// and element by element the same title and destination, with no children.
pub open spec fn links_match(v: Seq<Link>, e: Seq<EntrySpec>) -> bool {
    &&& v.len() == e.len()
    &&& forall|i: int|
        0 <= i < v.len() ==> {
            &&& (#[trigger] v[i])@.name == e[i].title
            &&& v[i]@.destination == e[i].dest
            &&& v[i]@.children is None
        }
}

/// How one balanced-delimiter scan ended.
enum ScanEnd {
    /// A line break was reached before the closing delimiter.
    Newline,
    /// The closing delimiter was found at this character position.
    Closed(usize),
    /// The input ended before the closing delimiter.
    AtEnd,
}

/// One parse session over a borrowed input text.
#[derive(Debug)]
pub struct Summary<'a> {
    input: &'a str,
    len: usize,
    pos: usize,
    byte_pos: usize,
    chapters: Chapters,
    pub errors: Vec<ParseError>,
}

impl<'a> Summary<'a> {
    /// The input text, as a sequence of characters.
    pub closed spec fn text(&self) -> Seq<char> {
        self.input@
    }

    /// The cursor, as a character index into the text.
    pub closed spec fn cursor(&self) -> int {
        self.pos as int
    }

    /// The diagnostics recorded so far, as (message, byte offset) pairs.
    pub closed spec fn diags(&self) -> Seq<crate::errors::Diag> {
        self.errors.deep_view()
    }

    /// The session's internal invariant: the cursor stays inside the text,
    /// the tracked byte offset agrees with the cursor, the text fits in
    /// memory, and the outline only ever holds leaf links in its prefaces.
    pub closed spec fn wf(&self) -> bool {
        &&& self.len as int == self.text().len()
        &&& self.pos <= self.len
        &&& self.byte_pos as int == byte_offset(self.text(), self.pos as int)
        &&& byte_offset(self.text(), self.text().len() as int) <= usize::MAX as int
        &&& self.chapters.chapters@.len() == 0
        &&& self.chapters.appendices@.len() == 0
        &&& forall|k: int|
            0 <= k < self.chapters.prefaces@.len() ==> (#[trigger] self.chapters.prefaces@[k])@.children is None
    }

    /// A session on which no parsing has happened yet.
    pub closed spec fn fresh(&self) -> bool {
        &&& self.pos == 0
        &&& self.errors@.len() == 0
        &&& self.chapters.prefaces@.len() == 0
    }

    pub fn new(s: &'a str) -> (r: Summary<'a>)
        ensures
            r.wf(),
            r.fresh(),
            r.text() == s@,
    {
        let bytes = s.as_bytes().len();
        proof {
            broadcast use vstd::slice::axiom_spec_len;

            lemma_byte_offset_full(s@);
            assert(bytes as int == encode_utf8(s@).len());
            assert(byte_offset(s@, 0) == 0);
        }
        let n = s.unicode_len();
        Summary {
            input: s,
            len: n,
            pos: 0,
            byte_pos: 0,
            chapters: Chapters::new(),
            errors: Vec::new(),
        }
    }

    /// Converts a byte offset from a diagnostic to a (line, column) pair.
    ///
    /// All indexes are zero-based.
    pub fn to_linecol(&self, offset: usize) -> (r: (usize, usize))
        requires
            self.wf(),
        ensures
            r.0 as int == linecol(self.text(), offset as int).0,
            r.1 as int == linecol(self.text(), offset as int).1,
    {
        let ghost s = self.text();
        let mut start: usize = 0;
        let mut lineno: usize = 0;
        let mut cur: usize = 0;
        #[verifier::loop_isolation(false)]
        loop
            invariant
                self.wf(),
                start <= self.len,
                lineno <= start,
                cur <= offset,
                linecol(s, offset as int) == linecol_from(
                    s,
                    start as int,
                    lineno as int,
                    cur as int,
                    offset as int,
                ),
            decreases self.len - start,
        {
            if start >= self.len {
                proof {
                    assert(linecol_from(s, start as int, lineno as int, cur as int, offset as int)
                        == (lineno as int, 0int));
                }
                return (lineno, 0);
            }
            // Scan the current line for its end and its byte length.
            let mut j = start;
            let mut blen: usize = 0;
            let mut last: char = ' ';
            proof {
                lemma_byte_offset_nonneg(s, start as int);
            }
            let mut at_eol = false;
            #[verifier::loop_isolation(false)]
            while !at_eol
                invariant
                    start <= j <= self.len,
                    eol_from(s, start as int) == eol_from(s, j as int),
                    blen as int == byte_offset(s, j as int) - byte_offset(s, start as int),
                    j > start ==> last == s[j as int - 1],
                    at_eol ==> j as int == eol_from(s, start as int),
                decreases self.len - j + (if at_eol { 0int } else { 1int }),
            {
                if j >= self.len {
                    proof {
                        assert(eol_from(s, j as int) == j as int);
                    }
                    at_eol = true;
                } else {
                    let c = self.input.get_char(j);
                    if c == '\n' {
                        proof {
                            assert(eol_from(s, j as int) == j as int);
                        }
                        at_eol = true;
                    } else {
                        let w = char_width(c);
                        proof {
                            lemma_byte_offset_mono(s, j as int + 1, s.len() as int);
                            assert(eol_from(s, j as int) == eol_from(s, j as int + 1));
                        }
                        blen = blen + w;
                        last = c;
                        j = j + 1;
                    }
                }
            }
            let mut linelen = blen;
            if j < self.len && j > start && last == '\r' {
                proof {
                    assert(line_content_end(s, start as int) == j as int - 1);
                    assert(byte_offset(s, j as int) == byte_offset(s, j as int - 1) + 1);
                    lemma_byte_offset_mono(s, start as int, j as int - 1);
                }
                linelen = blen - 1;
            } else {
                proof {
                    assert(line_content_end(s, start as int) == j as int);
                }
            }
            proof {
                assert(linelen as int == byte_offset(s, line_content_end(s, start as int))
                    - byte_offset(s, start as int));
            }
            let d = offset - cur;
            if d <= linelen {
                proof {
                    assert(linecol_from(s, start as int, lineno as int, cur as int, offset as int)
                        == (lineno as int, offset as int - cur as int));
                }
                return (lineno, d);
            }
            proof {
                let e = eol_from(s, start as int);
                let nxt: int = if e < s.len() {
                    e + 1
                } else {
                    s.len() as int
                };
                assert(linecol_from(s, start as int, lineno as int, cur as int, offset as int)
                    == linecol_from(
                    s,
                    nxt,
                    lineno as int + 1,
                    cur as int + linelen as int + 1,
                    offset as int,
                ));
            }
            cur = cur + linelen + 1;
            lineno = lineno + 1;
            if j < self.len {
                start = j + 1;
            } else {
                start = self.len;
            }
        }
    }

    /// Byte offset of the next character, or of the end of the text when no
    /// character remains.
    fn next_pos(&self) -> (b: usize)
        requires
            self.wf(),
        ensures
            b as int == byte_offset(self.text(), self.cursor()),
    {
        self.byte_pos
    }

    /// Consumes the next character and returns true when it is `ch`;
    /// otherwise does nothing and returns false.
    fn eat(&mut self, ch: char) -> (r: bool)
        requires
            old(self).wf(),
        ensures
            final(self).wf(),
            final(self).text() == old(self).text(),
            final(self).errors == old(self).errors,
            final(self).chapters == old(self).chapters,
            if old(self).cursor() < old(self).text().len() && old(self).text()[old(self).cursor()]
                == ch {
                r && final(self).cursor() == old(self).cursor() + 1
            } else {
                !r && final(self).cursor() == old(self).cursor()
            },
    {
        if self.pos < self.len {
            let c = self.input.get_char(self.pos);
            if c == ch {
                let w = char_width(c);
                proof {
                    lemma_byte_offset_mono(self.text(), self.pos as int + 1, self.text().len() as int);
                }
                self.byte_pos = self.byte_pos + w;
                self.pos = self.pos + 1;
                return true;
            }
            return false;
        }
        false
    }

    /// Discards characters through the next line break, or to the end of the
    /// text when none remains.
    fn eat_until_eol(&mut self)
        requires
            old(self).wf(),
        ensures
            final(self).wf(),
            final(self).text() == old(self).text(),
            final(self).errors == old(self).errors,
            final(self).chapters == old(self).chapters,
            final(self).cursor() == after_eol(old(self).text(), old(self).cursor()),
    {
        let ghost s0 = *self;
        #[verifier::loop_isolation(false)]
        loop
            invariant
                self.wf(),
                self.text() == s0.text(),
                self.errors == s0.errors,
                self.chapters == s0.chapters,
                s0.cursor() <= self.cursor(),
                after_eol(s0.text(), s0.cursor()) == after_eol(self.text(), self.cursor()),
            decreases self.len - self.pos,
        {
            if self.pos >= self.len {
                return ;
            }
            let c = self.input.get_char(self.pos);
            self.eat(c);
            if c == '\n' {
                return ;
            }
        }
    }

    /// Peeks ahead `n` characters: the character there and its byte offset,
    /// or nothing when fewer than `n + 1` characters remain.
    fn peek(&self, n: usize) -> (r: Option<(usize, char)>)
        requires
            self.wf(),
        ensures
            match r {
                Some(p) => {
                    &&& self.cursor() + n < self.text().len()
                    &&& p.0 as int == byte_offset(self.text(), self.cursor() + n)
                    &&& p.1 == self.text()[self.cursor() + n]
                },
                None => self.cursor() + n >= self.text().len(),
            },
    {
        if n < self.len - self.pos {
            let mut b = self.byte_pos;
            let mut k: usize = 0;
            #[verifier::loop_isolation(false)]
            while k < n
                invariant
                    self.wf(),
                    k <= n,
                    n < self.len - self.pos,
                    b as int == byte_offset(self.text(), self.cursor() + k),
                decreases n - k,
            {
                let c = self.input.get_char(self.pos + k);
                let w = char_width(c);
                proof {
                    lemma_byte_offset_mono(
                        self.text(),
                        self.pos as int + k + 1,
                        self.text().len() as int,
                    );
                    lemma_byte_offset_nonneg(self.text(), self.pos as int + k);
                }
                b = b + w;
                k = k + 1;
            }
            Some((b, self.input.get_char(self.pos + n)))
        } else {
            None
        }
    }

    /// Consumes `ch` when it is next and returns true; otherwise records an
    /// expectation-failure diagnostic at the current offset, consumes
    /// nothing, and returns false.
    fn expect(&mut self, ch: char) -> (r: bool)
        requires
            old(self).wf(),
        ensures
            final(self).wf(),
            final(self).text() == old(self).text(),
            final(self).chapters == old(self).chapters,
            ({
                let s = old(self).text();
                let i = old(self).cursor();
                if i < s.len() && s[i] == ch {
                    r && final(self).cursor() == i + 1 && final(self).errors == old(self).errors
                } else {
                    !r && final(self).cursor() == i && final(self).errors.deep_view() == old(
                        self,
                    ).errors.deep_view().push(expect_diag(s, i, ch))
                }
            }),
    {
        if self.eat(ch) {
            return true;
        }
        let ghost s = self.text();
        let ghost i = self.cursor();
        let byte = self.next_pos();
        let mut m = "expected `".to_owned();
        push_char(&mut m, ch);
        match self.peek(0) {
            Some((_, c)) => {
                m.append("`, but found `");
                push_char(&mut m, c);
                m.append("`");
                proof {
                    assert(m@ =~= expect_msg(ch, Some(s[i])));
                }
            },
            None => {
                m.append("`, but found eof");
                proof {
                    assert(m@ =~= expect_msg(ch, None));
                }
            },
        }
        let e = ParseError::new(m.as_str(), byte);
        let ghost errs0 = self.errors.deep_view();
        self.errors.push(e);
        proof {
            assert(self.errors.deep_view() =~= errs0.push(expect_diag(s, i, ch)));
        }
        false
    }

    /// Consumes the maximal run of spaces and tabs; returns whether any
    /// character was consumed.
    #[allow(dead_code)]
    fn whitespace(&mut self) -> (r: bool)
        requires
            old(self).wf(),
        ensures
            final(self).wf(),
            final(self).text() == old(self).text(),
            final(self).errors == old(self).errors,
            final(self).chapters == old(self).chapters,
            final(self).cursor() == skip_ws(old(self).text(), old(self).cursor()),
            r == (final(self).cursor() != old(self).cursor()),
    {
        let ghost s0 = *self;
        let mut ret = false;
        #[verifier::loop_isolation(false)]
        loop
            invariant
                self.wf(),
                self.text() == s0.text(),
                self.errors == s0.errors,
                self.chapters == s0.chapters,
                s0.cursor() <= self.cursor(),
                skip_ws(s0.text(), s0.cursor()) == skip_ws(self.text(), self.cursor()),
                ret == (self.cursor() != s0.cursor()),
            decreases self.len - self.pos,
        {
            match self.peek(0) {
                Some((_, c)) => {
                    if c == '\t' || c == ' ' {
                        self.eat(c);
                        ret = true;
                    } else {
                        return ret;
                    }
                },
                None => {
                    return ret;
                },
            }
        }
    }

    /// Consumes a line break — `'\n'`, or `"\r\n"` — when one is next;
    /// returns whether one was consumed.
    fn newline(&mut self) -> (r: bool)
        requires
            old(self).wf(),
        ensures
            final(self).wf(),
            final(self).text() == old(self).text(),
            final(self).errors == old(self).errors,
            final(self).chapters == old(self).chapters,
            r == (newline_len(old(self).text(), old(self).cursor()) > 0),
            final(self).cursor() == old(self).cursor() + newline_len(
                old(self).text(),
                old(self).cursor(),
            ),
    {
        match self.peek(0) {
            Some((_, c)) => {
                if c == '\n' {
                    self.eat('\n');
                    true
                } else if c == '\r' {
                    match self.peek(1) {
                        Some((_, c2)) => {
                            if c2 == '\n' {
                                self.eat('\r');
                                self.eat('\n');
                                true
                            } else {
                                false
                            }
                        },
                        None => false,
                    }
                } else {
                    false
                }
            },
            None => false,
        }
    }

    /// True when no character remains.
    fn eof(&self) -> (r: bool)
        requires
            self.wf(),
        ensures
            r == (self.cursor() >= self.text().len()),
    {
        self.peek(0).is_none()
    }

    /// Runs the parser: skips the title line, parses the prefatory list, and
    /// returns the outline — but only when no diagnostic was recorded.
    ///
    /// The pass always terminates, and every diagnostic it records carries a
    /// byte offset no greater than the byte length of the input.
    pub fn parse(&mut self) -> (r: Option<Chapters>)
        requires
            old(self).wf(),
            old(self).fresh(),
        ensures
            final(self).wf(),
            final(self).text() == old(self).text(),
            final(self).diags() == parse_diags(old(self).text()),
            forall|k: int|
                0 <= k < final(self).diags().len() ==> 0 <= (#[trigger] final(self).diags()[k]).byte
                    <= byte_offset(old(self).text(), old(self).text().len() as int),
            match r {
                Some(ch) => {
                    &&& parse_diags(old(self).text()).len() == 0
                    &&& links_match(ch.prefaces@, parse_entries(old(self).text()))
                    &&& ch.chapters@.len() == 0
                    &&& ch.appendices@.len() == 0
                },
                None => parse_diags(old(self).text()).len() > 0,
            },
    {
        let ghost s = self.text();
        proof {
            lemma_after_eol_bounds(s, 1);
            lemma_prefaces_diags_bounded(s, after_header(s, 0));
        }
        self.parse_header();
        self.parse_prefaces();
        proof {
            assert(self.errors.deep_view() == parse_diags(s));
            assert(self.errors.deep_view().len() == self.errors@.len());
            assert forall|k: int| 0 <= k < self.errors@.len() implies 0 <= (
            #[trigger] self.errors@[k])@.byte <= byte_offset(s, s.len() as int) by {
                assert(self.errors@[k]@ == self.errors.deep_view()[k]);
            }
        }
        if self.errors.len() == 0 {
            let n = self.chapters.prefaces.len();
            let mut prefs: Vec<Link> = Vec::new();
            let mut k: usize = 0;
            #[verifier::loop_isolation(false)]
            while k < n
                invariant
                    self.wf(),
                    k <= n,
                    n == self.chapters.prefaces@.len(),
                    prefs@.len() == k,
                    forall|t: int|
                        0 <= t < k ==> {
                            &&& (#[trigger] prefs@[t])@.name == self.chapters.prefaces@[t]@.name
                            &&& prefs@[t]@.destination == self.chapters.prefaces@[t]@.destination
                            &&& prefs@[t]@.children is None
                        },
                decreases n - k,
            {
                let l = &self.chapters.prefaces[k];
                let copied = Link::new(l.name().as_str(), l.destination().as_str());
                prefs.push(copied);
                k = k + 1;
            }
            Some(Chapters { prefaces: prefs, chapters: Vec::new(), appendices: Vec::new() })
        } else {
            None
        }
    }

    /// Skips the decorative title line: when the text begins with `#`, the
    /// rest of that line is discarded unvalidated.
    fn parse_header(&mut self)
        requires
            old(self).wf(),
        ensures
            final(self).wf(),
            final(self).text() == old(self).text(),
            final(self).errors == old(self).errors,
            final(self).chapters == old(self).chapters,
            final(self).cursor() == after_header(old(self).text(), old(self).cursor()),
    {
        if self.eat('#') {
            self.eat_until_eol();
        }
    }

    /// One balanced-delimiter scan, entered with the opening delimiter
    /// already consumed. Returns how the scan ended; the consumed text runs
    /// from the entry cursor to the reported closing position.
    fn scan_part(&mut self, open: char, close: char) -> (r: ScanEnd)
        requires
            old(self).wf(),
            old(self).cursor() >= 1,
        ensures
            final(self).wf(),
            final(self).text() == old(self).text(),
            final(self).errors == old(self).errors,
            final(self).chapters == old(self).chapters,
            match scan_delim(old(self).text(), old(self).cursor(), open, close, 1) {
                Scan::Newline { next } => r is Newline && final(self).cursor() == next,
                Scan::Closed { end } => {
                    &&& r matches ScanEnd::Closed(e) && e as int == end
                    &&& old(self).cursor() <= end < old(self).text().len()
                    &&& final(self).cursor() == end + 1
                },
                Scan::AtEnd => r is AtEnd && final(self).cursor() == old(self).text().len(),
            },
    {
        let ghost s = self.text();
        let ghost start = self.cursor();
        let ghost s0 = *self;
        proof {
            lemma_scan_delim_bounds(s, start, open, close, 1);
        }
        let mut balance: usize = 1;
        #[verifier::loop_isolation(false)]
        loop
            invariant
                self.wf(),
                self.text() == s,
                self.errors == s0.errors,
                self.chapters == s0.chapters,
                1 <= start <= self.cursor() <= s.len(),
                1 <= balance,
                balance as int <= self.cursor() - start + 1,
                scan_delim(s, start, open, close, 1) == scan_delim(
                    s,
                    self.cursor(),
                    open,
                    close,
                    balance as int,
                ),
            decreases self.len - self.pos,
        {
            if self.pos >= self.len {
                return ScanEnd::AtEnd;
            }
            let ghost c0 = self.cursor();
            let ghost b0 = balance as int;
            if self.newline() {
                return ScanEnd::Newline;
            }
            let c = self.input.get_char(self.pos);
            proof {
                assert(newline_len(s, c0) == 0);
            }
            if c == open {
                self.eat(c);
                balance = balance + 1;
                proof {
                    assert(scan_delim(s, c0, open, close, b0) == scan_delim(
                        s,
                        c0 + 1,
                        open,
                        close,
                        b0 + 1,
                    ));
                }
            } else if c == close {
                if balance > 1 {
                    self.eat(c);
                    balance = balance - 1;
                    proof {
                        assert(scan_delim(s, c0, open, close, b0) == scan_delim(
                            s,
                            c0 + 1,
                            open,
                            close,
                            b0 - 1,
                        ));
                    }
                } else {
                    let end = self.pos;
                    self.eat(c);
                    proof {
                        assert(scan_delim(s, c0, open, close, b0) == (Scan::Closed { end: c0 }));
                    }
                    return ScanEnd::Closed(end);
                }
            } else if c == '\\' {
                self.eat(c);
                if self.pos >= self.len {
                    proof {
                        assert(scan_delim(s, c0, open, close, b0) == Scan::AtEnd);
                    }
                    return ScanEnd::AtEnd;
                }
                let c2 = self.input.get_char(self.pos);
                self.eat(c2);
                proof {
                    assert(scan_delim(s, c0, open, close, b0) == scan_delim(
                        s,
                        c0 + 2,
                        open,
                        close,
                        b0,
                    ));
                }
            } else {
                self.eat(c);
                proof {
                    assert(scan_delim(s, c0, open, close, b0) == scan_delim(
                        s,
                        c0 + 1,
                        open,
                        close,
                        b0,
                    ));
                }
            }
        }
    }

    /// Parses one markdown link `[title](destination)` from the opening `[`.
    /// Returns the parsed entry, or nothing when the construct is malformed;
    /// in both cases the consumed input is not rewound. Only a missing `(`
    /// after the title records a diagnostic.
    fn parse_link(&mut self) -> (r: Option<Link>)
        requires
            old(self).wf(),
            old(self).cursor() < old(self).text().len(),
            old(self).text()[old(self).cursor()] == '[',
        ensures
            final(self).wf(),
            final(self).text() == old(self).text(),
            final(self).chapters == old(self).chapters,
            match link_scan(old(self).text(), old(self).cursor()) {
                LinkScan::Entry { title, dest, next } => {
                    &&& r matches Some(l) && l@.name == title && l@.destination == dest
                        && l@.children is None
                    &&& final(self).cursor() == next
                    &&& final(self).errors == old(self).errors
                },
                LinkScan::NoEntry { next } => {
                    &&& r is None
                    &&& final(self).cursor() == next
                    &&& final(self).errors == old(self).errors
                },
                LinkScan::NoEntryDiag { d, next } => {
                    &&& r is None
                    &&& final(self).cursor() == next
                    &&& final(self).errors.deep_view() == old(self).errors.deep_view().push(d)
                },
            },
    {
        let inp = self.input;
        self.eat('[');
        let title_start = self.pos;
        match self.scan_part('[', ']') {
            ScanEnd::Newline => None,
            ScanEnd::AtEnd => {
                self.expect('(');
                None
            },
            ScanEnd::Closed(end) => {
                let title = inp.substring_char(title_start, end);
                if !self.expect('(') {
                    return None;
                }
                let dest_start = self.pos;
                match self.scan_part('(', ')') {
                    ScanEnd::Newline => None,
                    ScanEnd::AtEnd => None,
                    ScanEnd::Closed(e2) => {
                        let dest = inp.substring_char(dest_start, e2);
                        Some(Link::new(title, dest))
                    },
                }
            },
        }
    }

    /// Parses the prefatory section: blank lines are skipped, links are
    /// folded into the outline, a failed link scan discards the rest of its
    /// line, a `-` ends the section, and any other character records an
    /// unexpected-character diagnostic and discards the rest of the line.
    fn parse_prefaces(&mut self)
        requires
            old(self).wf(),
            old(self).errors@.len() == 0,
            old(self).chapters.prefaces@.len() == 0,
        ensures
            final(self).wf(),
            final(self).text() == old(self).text(),
            links_match(
                final(self).chapters.prefaces@,
                prefaces_from(old(self).text(), old(self).cursor()).0,
            ),
            final(self).errors.deep_view() == prefaces_from(
                old(self).text(),
                old(self).cursor(),
            ).1,
    {
        let ghost s = self.text();
        let ghost start = self.cursor();
        let ghost mut done: Seq<EntrySpec> = seq![];
        proof {
            assert(self.errors.deep_view() =~= Seq::<crate::errors::Diag>::empty());
        }
        #[verifier::loop_isolation(false)]
        loop
            invariant
                self.wf(),
                self.text() == s,
                0 <= start <= self.cursor() <= s.len(),
                links_match(self.chapters.prefaces@, done),
                prefaces_from(s, start).0 == done + prefaces_from(s, self.cursor()).0,
                prefaces_from(s, start).1 == self.errors.deep_view() + prefaces_from(
                    s,
                    self.cursor(),
                ).1,
            decreases self.len - self.pos,
        {
            let ghost c0 = self.cursor();
            if self.eof() {
                proof {
                    assert(prefaces_from(s, c0).0 =~= Seq::<EntrySpec>::empty());
                    assert(prefaces_from(s, start).0 =~= done);
                    assert(prefaces_from(s, start).1 =~= self.errors.deep_view());
                }
                return ;
            }
            if self.newline() {
                proof {
                    assert(prefaces_from(s, c0) == prefaces_from(s, self.cursor()));
                }
                continue ;
            }
            let c = self.input.get_char(self.pos);
            proof {
                assert(newline_len(s, c0) == 0);
            }
            if c == '[' {
                proof {
                    lemma_link_scan_bounds(s, c0);
                }
                match self.parse_link() {
                    Some(l) => {
                        self.chapters.prefaces.push(l);
                        proof {
                            let entry = match link_scan(s, c0) {
                                LinkScan::Entry { title, dest, .. } => EntrySpec { title, dest },
                                _ => EntrySpec { title: seq![], dest: seq![] },
                            };
                            let done2 = done + seq![entry];
                            assert(prefaces_from(s, c0).0 == seq![entry] + prefaces_from(
                                s,
                                self.cursor(),
                            ).0);
                            assert(prefaces_from(s, c0).1 == prefaces_from(s, self.cursor()).1);
                            assert(prefaces_from(s, start).0 =~= done2 + prefaces_from(
                                s,
                                self.cursor(),
                            ).0);
                            assert(links_match(self.chapters.prefaces@, done2));
                            done = done2;
                        }
                    },
                    None => {
                        let ghost mid = self.cursor();
                        self.eat_until_eol();
                        proof {
                            lemma_after_eol_bounds(s, mid);
                            match link_scan(s, c0) {
                                LinkScan::NoEntry { .. } => {
                                    assert(prefaces_from(s, c0) == prefaces_from(
                                        s,
                                        self.cursor(),
                                    ));
                                },
                                LinkScan::NoEntryDiag { d, .. } => {
                                    assert(prefaces_from(s, c0).0 == prefaces_from(
                                        s,
                                        self.cursor(),
                                    ).0);
                                    assert(prefaces_from(s, c0).1 == seq![d] + prefaces_from(
                                        s,
                                        self.cursor(),
                                    ).1);
                                    assert(prefaces_from(s, start).1 =~= self.errors.deep_view()
                                        + prefaces_from(s, self.cursor()).1);
                                },
                                LinkScan::Entry { .. } => {
                                    assert(false);
                                },
                            }
                        }
                    },
                }
            } else if c == '-' {
                proof {
                    assert(prefaces_from(s, c0).0 =~= Seq::<EntrySpec>::empty());
                    assert(prefaces_from(s, start).0 =~= done);
                    assert(prefaces_from(s, start).1 =~= self.errors.deep_view());
                }
                return ;
            } else {
                let byte = self.next_pos();
                let mut m = "Unexpected character '".to_owned();
                push_char(&mut m, c);
                m.append("'");
                proof {
                    assert(m@ =~= unexpected_msg(c));
                }
                let e = ParseError::new(m.as_str(), byte);
                let ghost errs0 = self.errors.deep_view();
                self.errors.push(e);
                proof {
                    let d = crate::errors::Diag { msg: unexpected_msg(c), byte: byte_offset(s, c0) };
                    assert(self.errors.deep_view() =~= errs0.push(d));
                    lemma_after_eol_bounds(s, c0);
                }
                self.eat_until_eol();
                proof {
                    let d = crate::errors::Diag { msg: unexpected_msg(c), byte: byte_offset(s, c0) };
                    assert(prefaces_from(s, c0).0 == prefaces_from(s, self.cursor()).0);
                    assert(prefaces_from(s, c0).1 == seq![d] + prefaces_from(s, self.cursor()).1);
                    assert(prefaces_from(s, start).1 =~= self.errors.deep_view() + prefaces_from(
                        s,
                        self.cursor(),
                    ).1);
                }
            }
        }
    }

    /// Whether any diagnostic has been recorded.
    pub fn contains_errors(&self) -> (b: bool)
        ensures
            b == (self.diags().len() > 0),
    {
        self.errors.len() > 0
    }
}

} // verus!

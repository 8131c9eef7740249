//! Deterministic, bounded compaction of raw evidence into compact
//! representations.
//!
//! The policy of a kind is hardcoded ([`EvidenceKind::default_compressibility`]).
//!
//! - `Never` refuses every compaction attempt; verbatim bytes are only produced
//!   by [`compress_never_identity`].
//! - `LosslessOnly` copies the text verbatim.
//! - `Reversible` requires [`BackingCompleteness::Complete`].
//! - `Aggressive` and `Reversible` stamp a BLAKE3 digest of the backing bytes.
//! - Every body of a structural or aggressive transform is at most
//!   [`MAX_COMPACT_BYTES`] long.
//!
//! Each transform is stated as a function of the lines of the text: which rows
//! it keeps, in which order, under which byte budget, and what it counts in the
//! header row.
use vstd::prelude::*;
use vstd::slice::slice_subrange;

use crate::digest;
use crate::text;
use crate::types::{
    BackingCompleteness, CompactRepresentation, Compressibility, CompressionRecord, EvidenceError,
    EvidenceKind, Lossiness,
};

verus! {

/// Version stamped on every [`CompressionRecord`] of this module.
pub const COMPRESSION_VERSION: u32 = 1;

/// Ceiling for any compact body of a structural or aggressive transform.
pub const MAX_COMPACT_BYTES: usize = 16384;

/// Maximum bytes kept per retained line.
pub const MAX_LINE_BYTES: usize = 512;

/// Bytes of an over-long line kept before the truncation marker.
pub const LINE_BUDGET: usize = 498;

/// Budget of the leading section, and of the failure section, of a body.
pub const SECTION_BYTES: usize = 6144;

/// Maximum bytes of one line that count for its normal form.
pub const NORMALIZE_CAP: usize = 256;

/// Maximum white-space columns kept per table row.
pub const MAX_TABLE_COLUMNS: usize = 6;

/// Maximum distinct keys remembered for dedupe.
pub const MAX_SEEN_KEYS: usize = 4096;

/// Content lines kept after each diff hunk header.
pub const FIRST_HUNK_LINES: usize = 3;

/// Lines kept by the generic structural summary.
pub const STRUCTURAL_FIRST_LINES: usize = 24;

// ------------------------------------------------------------------- lines

/// What follows the kept part of an over-long line.
pub open spec fn marker() -> Seq<char> {
    "\u{2026}[truncated]"@
}

/// A line of at most [`MAX_LINE_BYTES`] bytes as it stands; a longer one cut at
/// a character boundary and marked.
pub open spec fn capped(line: Seq<char>) -> Seq<char> {
    if text::byte_len(line) <= MAX_LINE_BYTES {
        line
    } else {
        text::cap_to(line, LINE_BUDGET as int) + marker()
    }
}

/// The lines of `raw`, each capped.
pub open spec fn capped_lines(raw: Seq<char>) -> Seq<Seq<char>> {
    Seq::new(text::lines_of(raw).len(), |i: int| capped(text::lines_of(raw)[i]))
}

/// `s` with each inner run of white space turned to one space, and without
/// white space at its ends.
pub open spec fn squeezed(s: Seq<char>) -> Seq<char>
    decreases s.len(),
{
    if s.len() == 0 {
        Seq::empty()
    } else {
        let before = squeezed(s.drop_last());
        if text::is_ws(s.last()) {
            before
        } else if before.len() > 0 && text::is_ws(s[s.len() - 2]) {
            before.push(' ').push(s.last())
        } else {
            before.push(s.last())
        }
    }
}

/// The form under which two lines count as the same.
pub open spec fn normal(s: Seq<char>) -> Seq<char> {
    text::cap_to(squeezed(s), NORMALIZE_CAP as int)
}

/// A line that names an error, a failure, a panic or an assertion.
pub open spec fn is_failure(s: Seq<char>) -> bool {
    ||| text::has_ci(s, "error"@)
    ||| text::has_ci(s, "fail"@)
    ||| text::has_ci(s, "panic"@)
    ||| text::has_ci(s, "assert"@)
}

proof fn lemma_marker()
    ensures
        text::byte_len(marker()) == 14,
        marker().len() == 12,
{
    reveal_strlit("\u{2026}[truncated]");
    assert(marker().len() == 12);
    reveal_with_fuel(text::byte_len, 13);
    let m = marker();
    let a = m.drop_first();
    text::lemma_byte_len_first(m);
    assert(a =~= seq!['[', 't', 'r', 'u', 'n', 'c', 'a', 't', 'e', 'd', ']']);
    lemma_ascii_len(a);
}

/// ASCII text takes one byte per character.
pub proof fn lemma_ascii_len(s: Seq<char>)
    requires
        forall|i: int| 0 <= i < s.len() ==> (#[trigger] s[i]) as u32 <= 0x7f,
    ensures
        text::byte_len(s) == s.len(),
    decreases s.len(),
{
    if s.len() > 0 {
        lemma_ascii_len(s.drop_last());
    }
}

/// A capped line is at most [`MAX_LINE_BYTES`] long.
pub proof fn lemma_capped_len(line: Seq<char>)
    ensures
        text::byte_len(capped(line)) <= MAX_LINE_BYTES,
{
    lemma_marker();
    text::lemma_fit(line, LINE_BUDGET as int);
    text::lemma_byte_len_add(text::cap_to(line, LINE_BUDGET as int), marker());
}

/// Caps one line. Looks at a bounded part of it however long it is.
fn cap_line(line: &[char]) -> (r: Vec<char>)
    ensures
        r@ == capped(line@),
        text::byte_len(r@) <= MAX_LINE_BYTES,
{
    proof {
        lemma_capped_len(line@);
    }
    if text::byte_len_up_to(line, MAX_LINE_BYTES) <= MAX_LINE_BYTES {
        return text::copy_chars(line);
    }
    let end: usize = text::fit_chars(line, LINE_BUDGET);
    let mut out: Vec<char> = text::copy_chars(slice_subrange(line, 0, end));
    proof {
        assert(out@ =~= text::cap_to(line@, LINE_BUDGET as int));
    }
    let mark: Vec<char> = text::chars_of("\u{2026}[truncated]");
    text::append_chars(&mut out, mark.as_slice());
    out
}

proof fn lemma_squeezed_step(s: Seq<char>, n: int)
    requires
        0 <= n < s.len(),
    ensures
        squeezed(s.take(n + 1)) == (if text::is_ws(s[n]) {
            squeezed(s.take(n))
        } else if squeezed(s.take(n)).len() > 0 && text::is_ws(s[n - 1]) {
            squeezed(s.take(n)).push(' ').push(s[n])
        } else {
            squeezed(s.take(n)).push(s[n])
        }),
        squeezed(s.take(n)).len() > 0 ==> n > 0,
{
    assert(s.take(n + 1).drop_last() =~= s.take(n));
}

proof fn lemma_squeezed_prefix(s: Seq<char>, n: int)
    requires
        0 <= n <= s.len(),
    ensures
        squeezed(s.take(n)).is_prefix_of(squeezed(s)),
    decreases s.len() - n,
{
    if n == s.len() {
        assert(s.take(n) =~= s);
    } else {
        lemma_squeezed_step(s, n);
        lemma_squeezed_prefix(s, n + 1);
        let a = squeezed(s.take(n));
        let b = squeezed(s.take(n + 1));
        let c = squeezed(s);
        assert(a.is_prefix_of(b));
        assert(a =~= c.take(a.len() as int));
    }
}

/// The normal form of one line.
fn normalize_line(line: &[char]) -> (r: Vec<char>)
    ensures
        r@ == normal(line@),
{
    let mut out: Vec<char> = Vec::new();
    let mut used: usize = 0;
    let mut i: usize = 0;
    proof {
        reveal_with_fuel(text::byte_len, 1);
    }
    while i < line.len()
        invariant
            i <= line.len(),
            out@ == squeezed(line@.take(i as int)),
            used == text::byte_len(out@),
            used <= NORMALIZE_CAP,
        decreases line.len() - i,
    {
        let c: char = line[i];
        proof {
            lemma_squeezed_step(line@, i as int);
            lemma_squeezed_prefix(line@, i as int + 1);
        }
        if !text::is_whitespace(c) {
            let ghost before = out@;
            let ghost whole = squeezed(line@.take(i as int + 1));
            let spaced: bool = out.len() > 0 && text::is_whitespace(line[i - 1]);
            if spaced {
                proof {
                    text::lemma_byte_len_push(before, ' ');
                    text::lemma_byte_len_push(before.push(' '), c);
                }
                if used + 1 > NORMALIZE_CAP {
                    proof {
                        text::lemma_fit_prefix(whole, squeezed(line@), NORMALIZE_CAP as int);
                        lemma_cap_exact(before, whole, NORMALIZE_CAP as int);
                    }
                    return out;
                }
                out.push(' ');
                used = used + 1;
            } else {
                proof {
                    text::lemma_byte_len_push(before, c);
                }
            }
            if used + text::char_width(c) > NORMALIZE_CAP {
                proof {
                    text::lemma_fit_prefix(whole, squeezed(line@), NORMALIZE_CAP as int);
                    lemma_cap_exact(out@, whole, NORMALIZE_CAP as int);
                }
                return out;
            }
            used = used + text::char_width(c);
            out.push(c);
        }
        i = i + 1;
    }
    proof {
        assert(line@.take(i as int) =~= line@);
        text::lemma_fit(out@, NORMALIZE_CAP as int);
    }
    out
}

/// A prefix that fits, whose next character does not, is what a cap leaves.
proof fn lemma_cap_exact(p: Seq<char>, s: Seq<char>, budget: int)
    requires
        budget >= 0,
        p.is_prefix_of(s),
        p.len() < s.len(),
        text::byte_len(p) <= budget,
        text::byte_len(p) + text::utf8_width(s[p.len() as int]) > budget,
    ensures
        text::cap_to(s, budget) == p,
{
    lemma_cap_exact_count(p, s, budget);
    assert(text::cap_to(s, budget) =~= p);
}

proof fn lemma_cap_exact_count(p: Seq<char>, s: Seq<char>, budget: int)
    requires
        budget >= 0,
        p.is_prefix_of(s),
        p.len() < s.len(),
        text::byte_len(p) <= budget,
        text::byte_len(p) + text::utf8_width(s[p.len() as int]) > budget,
    ensures
        text::fit(s, budget) == p.len(),
    decreases p.len(),
{
    if p.len() > 0 {
        text::lemma_byte_len_first(p);
        assert(p[0] == s[0]);
        assert(p.drop_first().is_prefix_of(s.drop_first()));
        lemma_cap_exact_count(p.drop_first(), s.drop_first(), budget - text::utf8_width(p[0]));
    }
}

/// Whether a line names a failure.
pub(crate) fn is_failure_line(line: &[char]) -> (r: bool)
    ensures
        r == is_failure(line@),
{
    text::contains_ci(line, "error") || text::contains_ci(line, "fail") || text::contains_ci(
        line,
        "panic",
    ) || text::contains_ci(line, "assert")
}

// ---------------------------------------------------------- bounded bodies

/// Rows taken into a section of bounded size: the kept ones in order, the bytes
/// that they take with one separator each, and how many were left out.
#[verifier::ext_equal]
pub struct Section {
    pub kept: Seq<Seq<char>>,
    pub bytes: nat,
    pub dropped: nat,
}

pub open spec fn empty_section() -> Section {
    Section { kept: Seq::empty(), bytes: 0, dropped: 0 }
}

/// A row is kept where it still fits, and else left out.
pub open spec fn take_row(a: Section, row: Seq<char>) -> Section {
    if a.bytes + text::byte_len(row) + 1 > SECTION_BYTES {
        Section { dropped: a.dropped + 1, ..a }
    } else {
        Section { kept: a.kept.push(row), bytes: a.bytes + text::byte_len(row) + 1, ..a }
    }
}

/// The section that takes `rows` one after the other.
pub open spec fn section_of(rows: Seq<Seq<char>>) -> Section
    decreases rows.len(),
{
    if rows.len() == 0 {
        empty_section()
    } else {
        take_row(section_of(rows.drop_last()), rows.last())
    }
}

/// The row that stands for `n` rows left out.
pub open spec fn omitted_row(n: nat) -> Seq<char> {
    "... "@ + text::decimal(n) + " more lines omitted ..."@
}

/// The row that stands for `n` failure rows left out.
pub open spec fn omitted_failures_row(n: nat) -> Seq<char> {
    "... "@ + text::decimal(n) + " more failure lines omitted ..."@
}

/// `row` alone where `cond` holds, and nothing elsewhere.
pub open spec fn row_if(cond: bool, row: Seq<char>) -> Seq<Seq<char>> {
    if cond {
        seq![row]
    } else {
        Seq::empty()
    }
}

/// The rows of a body below its header: the kept head rows, what was left out,
/// the kept failure rows, and the last line where it is not among them.
pub open spec fn body_rows(head: Section, failures: Section, last: Option<Seq<char>>) -> Seq<
    Seq<char>,
> {
    head.kept + row_if(head.dropped > 0, omitted_row(head.dropped)) + row_if(
        failures.dropped > 0,
        omitted_failures_row(failures.dropped),
    ) + failures.kept + (match last {
        Some(l) => row_if(!head.kept.contains(l) && !failures.kept.contains(l), l),
        None => Seq::empty(),
    })
}

/// A body: the header and the rows, one per line, cut to [`MAX_COMPACT_BYTES`].
pub open spec fn body_of(
    header: Seq<char>,
    head: Section,
    failures: Section,
    last: Option<Seq<char>>,
) -> Seq<char> {
    text::cap_to(
        text::join(seq![header] + body_rows(head, failures, last), seq!['\n']),
        MAX_COMPACT_BYTES as int,
    )
}

/// The views of a vector of rows.
pub open spec fn row_views(rows: Seq<Vec<char>>) -> Seq<Seq<char>> {
    Seq::new(rows.len(), |i: int| rows[i]@)
}

/// Bounded accumulator shared by every transform.
struct Bound {
    head: Vec<Vec<char>>,
    head_bytes: usize,
    failures: Vec<Vec<char>>,
    failure_bytes: usize,
    dropped_failures: u64,
    omitted: u64,
    last: Option<Vec<char>>,
}

impl Bound {
    spec fn head_section(&self) -> Section {
        Section {
            kept: row_views(self.head@),
            bytes: self.head_bytes as nat,
            dropped: self.omitted as nat,
        }
    }

    spec fn failure_section(&self) -> Section {
        Section {
            kept: row_views(self.failures@),
            bytes: self.failure_bytes as nat,
            dropped: self.dropped_failures as nat,
        }
    }

    spec fn last_view(&self) -> Option<Seq<char>> {
        match self.last {
            Some(l) => Some(l@),
            None => None,
        }
    }

    spec fn within(&self) -> bool {
        self.head_bytes <= SECTION_BYTES && self.failure_bytes <= SECTION_BYTES
    }

    fn new() -> (r: Self)
        ensures
            r.within(),
            r.head_section() == empty_section(),
            r.failure_section() == empty_section(),
            r.last is None,
    {
        let r = Bound {
            head: Vec::new(),
            head_bytes: 0,
            failures: Vec::new(),
            failure_bytes: 0,
            dropped_failures: 0,
            omitted: 0,
            last: None,
        };
        proof {
            assert(r.head_section() =~= empty_section());
            assert(r.failure_section() =~= empty_section());
        }
        r
    }

    fn head_len(&self) -> (r: usize)
        ensures
            r == self.head_section().kept.len(),
    {
        self.head.len()
    }

    /// Leaves one row out of the head.
    fn omit(&mut self)
        requires
            old(self).within(),
            old(self).omitted < u64::MAX,
        ensures
            final(self).within(),
            final(self).head_section() == (Section {
                dropped: old(self).head_section().dropped + 1,
                ..old(self).head_section()
            }),
            final(self).failure_section() == old(self).failure_section(),
            final(self).last == old(self).last,
            final(self).omitted == old(self).omitted + 1,
    {
        self.omitted = self.omitted + 1;
    }

    fn push_head(&mut self, line: &[char])
        requires
            old(self).within(),
            old(self).omitted < u64::MAX,
        ensures
            final(self).within(),
            final(self).head_section() == take_row(old(self).head_section(), line@),
            final(self).failure_section() == old(self).failure_section(),
            final(self).last == old(self).last,
            final(self).omitted <= old(self).omitted + 1,
    {
        let n: usize = text::byte_len_up_to(line, SECTION_BYTES);
        if n > SECTION_BYTES || self.head_bytes + n + 1 > SECTION_BYTES {
            self.omitted = self.omitted + 1;
            return ;
        }
        self.head_bytes = self.head_bytes + n + 1;
        self.head.push(text::copy_chars(line));
        proof {
            assert(row_views(self.head@) =~= row_views(old(self).head@).push(line@));
        }
    }

    fn push_failure(&mut self, line: &[char])
        requires
            old(self).within(),
            old(self).dropped_failures < u64::MAX,
        ensures
            final(self).within(),
            final(self).failure_section() == take_row(old(self).failure_section(), line@),
            final(self).head_section() == old(self).head_section(),
            final(self).last == old(self).last,
            final(self).omitted == old(self).omitted,
            final(self).dropped_failures <= old(self).dropped_failures + 1,
    {
        let n: usize = text::byte_len_up_to(line, SECTION_BYTES);
        if n > SECTION_BYTES || self.failure_bytes + n + 1 > SECTION_BYTES {
            self.dropped_failures = self.dropped_failures + 1;
            return ;
        }
        self.failure_bytes = self.failure_bytes + n + 1;
        self.failures.push(text::copy_chars(line));
        proof {
            assert(row_views(self.failures@) =~= row_views(old(self).failures@).push(line@));
        }
    }

    fn observe_last(&mut self, line: Vec<char>)
        ensures
            final(self).last_view() == Some(line@),
            final(self).head_section() == old(self).head_section(),
            final(self).failure_section() == old(self).failure_section(),
    {
        self.last = Some(line);
    }

    /// The body below `header`.
    fn render(&self, header: &str) -> (r: String)
        ensures
            r@ == body_of(
                header@,
                self.head_section(),
                self.failure_section(),
                self.last_view(),
            ),
    {
        let ghost sep: Seq<char> = seq!['\n'];
        let mut out: String = header.to_owned();
        let ghost mut done: Seq<Seq<char>> = seq![header@];
        proof {
            assert(text::join(done, sep) == out@);
        }
        push_rows(&mut out, &self.head, Ghost(done));
        proof {
            done = done + row_views(self.head@);
        }
        if self.omitted > 0 {
            let ghost row = omitted_row(self.omitted as nat);
            let ghost before = out@;
            out.push('\n');
            out.append("... ");
            text::push_decimal(&mut out, self.omitted);
            out.append(" more lines omitted ...");
            proof {
                assert(out@ =~= before + sep + row);
                lemma_join_push(done, row, sep);
                done = done.push(row);
            }
        }
        proof {
            assert(done =~= seq![header@] + row_views(self.head@) + row_if(
                self.omitted > 0,
                omitted_row(self.omitted as nat),
            ));
        }
        if self.dropped_failures > 0 {
            let ghost row = omitted_failures_row(self.dropped_failures as nat);
            let ghost before = out@;
            out.push('\n');
            out.append("... ");
            text::push_decimal(&mut out, self.dropped_failures);
            out.append(" more failure lines omitted ...");
            proof {
                assert(out@ =~= before + sep + row);
                lemma_join_push(done, row, sep);
                done = done.push(row);
            }
        }
        proof {
            assert(done =~= seq![header@] + row_views(self.head@) + row_if(
                self.omitted > 0,
                omitted_row(self.omitted as nat),
            ) + row_if(
                self.dropped_failures > 0,
                omitted_failures_row(self.dropped_failures as nat),
            ));
        }
        push_rows(&mut out, &self.failures, Ghost(done));
        proof {
            done = done + row_views(self.failures@);
        }
        if let Some(last) = &self.last {
            let duplicated: bool = holds_row(&self.head, last.as_slice()) || holds_row(
                &self.failures,
                last.as_slice(),
            );
            if !duplicated {
                let ghost before = out@;
                out.push('\n');
                text::push_chars(&mut out, last.as_slice());
                proof {
                    assert(out@ =~= before + sep + last@);
                    lemma_join_push(done, last@, sep);
                    done = done.push(last@);
                }
            }
        }
        proof {
            assert(done =~= seq![header@] + body_rows(
                self.head_section(),
                self.failure_section(),
                self.last_view(),
            ));
        }
        truncate_body(out)
    }
}

proof fn lemma_join_push(parts: Seq<Seq<char>>, row: Seq<char>, sep: Seq<char>)
    requires
        parts.len() > 0,
    ensures
        text::join(parts.push(row), sep) == text::join(parts, sep) + sep + row,
{
    assert(parts.push(row).drop_last() =~= parts);
}

/// Appends each row on a line of its own.
fn push_rows(out: &mut String, rows: &Vec<Vec<char>>, done: Ghost<Seq<Seq<char>>>)
    requires
        done@.len() > 0,
        old(out)@ == text::join(done@, seq!['\n']),
    ensures
        final(out)@ == text::join(done@ + row_views(rows@), seq!['\n']),
{
    let mut i: usize = 0;
    let ghost all = row_views(rows@);
    proof {
        assert(done@ + all.take(0) =~= done@);
    }
    while i < rows.len()
        invariant
            i <= rows.len(),
            done@.len() > 0,
            all == row_views(rows@),
            out@ == text::join(done@ + all.take(i as int), seq!['\n']),
        decreases rows.len() - i,
    {
        let ghost before = out@;
        out.push('\n');
        text::push_chars(out, rows[i].as_slice());
        proof {
            assert(out@ =~= before + seq!['\n'] + all[i as int]);
            lemma_join_push(done@ + all.take(i as int), all[i as int], seq!['\n']);
            assert((done@ + all.take(i as int)).push(all[i as int]) =~= done@ + all.take(
                i as int + 1,
            ));
        }
        i = i + 1;
    }
    proof {
        assert(all.take(all.len() as int) =~= all);
    }
}

/// Whether `line` is one of the rows.
fn holds_row(rows: &Vec<Vec<char>>, line: &[char]) -> (r: bool)
    ensures
        r == row_views(rows@).contains(line@),
{
    let ghost all = row_views(rows@);
    let mut i: usize = 0;
    while i < rows.len()
        invariant
            i <= rows.len(),
            all == row_views(rows@),
            forall|j: int| 0 <= j < i ==> all[j] != line@,
        decreases rows.len() - i,
    {
        if text::chars_eq(rows[i].as_slice(), line) {
            proof {
                assert(all[i as int] == line@);
            }
            return true;
        }
        i = i + 1;
    }
    false
}

/// Cuts a body to [`MAX_COMPACT_BYTES`] at a character boundary.
fn truncate_body(body: String) -> (r: String)
    ensures
        r@ == text::cap_to(body@, MAX_COMPACT_BYTES as int),
{
    proof {
        text::lemma_fit(body@, MAX_COMPACT_BYTES as int);
    }
    if text::str_len(body.as_str()) <= MAX_COMPACT_BYTES {
        return body;
    }
    let chars: Vec<char> = text::chars_of(body.as_str());
    let end: usize = text::fit_chars(chars.as_slice(), MAX_COMPACT_BYTES);
    let kept: &[char] = slice_subrange(chars.as_slice(), 0, end);
    proof {
        assert(kept@ =~= text::cap_to(body@, MAX_COMPACT_BYTES as int));
    }
    text::string_of(kept)
}

// ------------------------------------------------------------ process logs

/// How many leading lines of `lines` form one run: lines that name no failure
/// and have one normal form. A line that names a failure starts no run.
pub open spec fn run_length(lines: Seq<Seq<char>>) -> nat
    decreases lines.len(),
{
    if lines.len() == 0 || is_failure(lines[0]) {
        0
    } else if lines.len() >= 2 && !is_failure(lines[1]) && normal(lines[1]) == normal(lines[0]) {
        1 + run_length(lines.drop_first())
    } else {
        1
    }
}

/// One row for a run: its first line, and how often it occurred where that is
/// more than once.
pub open spec fn run_row(line: Seq<char>, n: nat) -> Seq<char> {
    if n >= 2 {
        line + " x"@ + text::decimal(n)
    } else {
        line
    }
}

pub proof fn lemma_run_length(lines: Seq<Seq<char>>)
    ensures
        run_length(lines) <= lines.len(),
        lines.len() > 0 && !is_failure(lines[0]) ==> run_length(lines) > 0,
    decreases lines.len(),
{
    if lines.len() > 0 {
        lemma_run_length(lines.drop_first());
    }
}

/// The head rows of a log: one row per run, lines that name a failure left out.
pub open spec fn log_rows(lines: Seq<Seq<char>>) -> Seq<Seq<char>>
    decreases lines.len(),
{
    proof {
        lemma_run_length(lines);
    }
    if lines.len() == 0 {
        Seq::empty()
    } else if is_failure(lines[0]) {
        log_rows(lines.drop_first())
    } else {
        let n = run_length(lines);
        seq![run_row(lines[0], n)] + log_rows(lines.skip(n as int))
    }
}

/// How many runs of a log hold more than one line.
pub open spec fn collapsed_runs(lines: Seq<Seq<char>>) -> nat
    decreases lines.len(),
{
    proof {
        lemma_run_length(lines);
    }
    if lines.len() == 0 {
        0
    } else if is_failure(lines[0]) {
        collapsed_runs(lines.drop_first())
    } else {
        let n = run_length(lines);
        (if n >= 2 {
            1nat
        } else {
            0nat
        }) + collapsed_runs(lines.skip(n as int))
    }
}

/// The lines that name a failure.
pub open spec fn failure_rows(lines: Seq<Seq<char>>) -> Seq<Seq<char>>
    decreases lines.len(),
{
    if lines.len() == 0 {
        Seq::empty()
    } else if is_failure(lines.last()) {
        failure_rows(lines.drop_last()).push(lines.last())
    } else {
        failure_rows(lines.drop_last())
    }
}

/// The last element, where there is one.
pub open spec fn last_of(lines: Seq<Seq<char>>) -> Option<Seq<char>> {
    if lines.len() > 0 {
        Some(lines.last())
    } else {
        None
    }
}

pub open spec fn log_header(lines: Seq<Seq<char>>) -> Seq<char> {
    "# kind=process_log lines="@ + text::decimal(lines.len()) + " collapsed_runs="@ + text::decimal(
        collapsed_runs(lines),
    ) + " failures="@ + text::decimal(failure_rows(lines).len())
}

/// The compact body of a process log.
pub open spec fn process_log_text(raw: Seq<char>) -> Seq<char> {
    let lines = capped_lines(raw);
    body_of(
        log_header(lines),
        section_of(log_rows(lines)),
        section_of(failure_rows(lines)),
        last_of(lines),
    )
}

proof fn lemma_run_is(lines: Seq<Seq<char>>, n: nat)
    requires
        1 <= n <= lines.len(),
        forall|j: int| 0 <= j < n ==> !is_failure(#[trigger] lines[j]),
        forall|j: int| 0 <= j < n ==> normal(#[trigger] lines[j]) == normal(lines[0]),
        n < lines.len() ==> is_failure(lines[n as int]) || normal(lines[n as int]) != normal(
            lines[0],
        ),
    ensures
        run_length(lines) == n,
    decreases n,
{
    assert(!is_failure(lines[0]));
    if n > 1 {
        let t = lines.drop_first();
        assert(lines[1] == t[0]);
        assert forall|j: int| 0 <= j < n - 1 implies !is_failure(#[trigger] t[j]) by {
            assert(t[j] == lines[j + 1]);
        }
        assert forall|j: int| 0 <= j < n - 1 implies normal(#[trigger] t[j]) == normal(t[0]) by {
            assert(t[j] == lines[j + 1]);
        }
        lemma_run_is(t, (n - 1) as nat);
    }
}

proof fn lemma_section_push(rows: Seq<Seq<char>>, row: Seq<char>)
    ensures
        section_of(rows.push(row)) == take_row(section_of(rows), row),
{
    assert(rows.push(row).drop_last() =~= rows);
}

/// State of a log scan: the first line of the current run and its normal form.
struct Run {
    line: Vec<char>,
    norm: Vec<char>,
    count: u64,
}

/// Ends the current run: its row goes to the head.
fn flush_run(bound: &mut Bound, run: &mut Option<Run>, collapsed: &mut u64)
    requires
        old(bound).within(),
        *old(run) is Some ==> old(bound).omitted < u64::MAX && *old(collapsed) < u64::MAX,
    ensures
        final(bound).within(),
        final(bound).failure_section() == old(bound).failure_section(),
        final(bound).dropped_failures == old(bound).dropped_failures,
        final(bound).last == old(bound).last,
        *final(run) is None,
        match *old(run) {
            Some(r) => {
                &&& final(bound).head_section() == take_row(
                    old(bound).head_section(),
                    run_row(r.line@, r.count as nat),
                )
                &&& *final(collapsed) == *old(collapsed) + (if r.count >= 2 {
                    1int
                } else {
                    0int
                })
                &&& final(bound).omitted <= old(bound).omitted + 1
            },
            None => {
                &&& final(bound).head_section() == old(bound).head_section()
                &&& *final(collapsed) == *old(collapsed)
                &&& final(bound).omitted == old(bound).omitted
            },
        },
{
    match run.take() {
        Some(r) => {
            if r.count >= 2 {
                let mut row: String = text::string_of(r.line.as_slice());
                row.append(" x");
                text::push_decimal(&mut row, r.count);
                let chars: Vec<char> = text::chars_of(row.as_str());
                bound.push_head(chars.as_slice());
                *collapsed = *collapsed + 1;
            } else {
                bound.push_head(r.line.as_slice());
            }
        },
        None => {},
    }
}

/// Repetition collapse for process logs: consecutive lines of one normal form
/// become one row, failure lines are kept apart, the last line is retained.
#[verifier::rlimit(40)]
fn process_log_body(raw: &[char]) -> (r: String)
    ensures
        r@ == process_log_text(raw@),
{
    let lines: Vec<&[char]> = text::split_lines(raw);
    let ghost all = capped_lines(raw@);
    let mut bound: Bound = Bound::new();
    let mut collapsed: u64 = 0;
    let mut failures: u64 = 0;
    let mut run: Option<Run> = None;
    let ghost mut start: int = 0;
    let ghost mut rows: Seq<Seq<char>> = Seq::empty();
    let mut i: usize = 0;
    proof {
        assert(all.skip(0) =~= all);
        assert(rows + log_rows(all) =~= log_rows(all));
        assert(all.take(0) =~= Seq::empty());
        assert(all.len() == lines.len());
    }
    while i < lines.len()
        invariant
            i <= lines.len(),
            text::views(lines@) == text::lines_of(raw@),
            all == capped_lines(raw@),
            all.len() == lines.len(),
            0 <= start <= i,
            bound.within(),
            bound.omitted <= start,
            bound.dropped_failures <= i,
            bound.last is None,
            failures <= i,
            collapsed <= start,
            failures == failure_rows(all.take(i as int)).len(),
            bound.failure_section() == section_of(failure_rows(all.take(i as int))),
            bound.head_section() == section_of(rows),
            log_rows(all) == rows + log_rows(all.skip(start)),
            collapsed_runs(all) == collapsed + collapsed_runs(all.skip(start)),
            match run {
                Some(r) => {
                    &&& start < i
                    &&& r.count == i - start
                    &&& r.line@ == all[start]
                    &&& r.norm@ == normal(all[start])
                    &&& forall|j: int|
                        start <= j < i ==> !is_failure(#[trigger] all[j]) && normal(all[j])
                            == normal(all[start])
                },
                None => start == i,
            },
        decreases lines.len() - i,
    {
        let line: Vec<char> = cap_line(lines[i]);
        proof {
            assert(text::views(lines@)[i as int] == lines@[i as int]@);
            assert(line@ == all[i as int]);
            assert(all.take(i as int + 1).drop_last() =~= all.take(i as int));
            assert(all.take(i as int + 1).last() == all[i as int]);
        }
        if is_failure_line(line.as_slice()) {
            proof {
                if start < i {
                    lemma_close_run(all, rows, start, i as int);
                    lemma_section_push(rows, run_row(all[start], (i - start) as nat));
                    rows = rows.push(run_row(all[start], (i - start) as nat));
                }
            }
            flush_run(&mut bound, &mut run, &mut collapsed);
            failures = failures + 1;
            bound.push_failure(line.as_slice());
            proof {
                lemma_section_push(failure_rows(all.take(i as int)), all[i as int]);
                assert(all.skip(i as int).drop_first() =~= all.skip(i as int + 1));
                assert(all.skip(i as int)[0] == all[i as int]);
                start = i as int + 1;
            }
        } else {
            let norm: Vec<char> = normalize_line(line.as_slice());
            let same: bool = match &run {
                Some(r) => text::chars_eq(r.norm.as_slice(), norm.as_slice()),
                None => false,
            };
            if same {
                run = match run.take() {
                    Some(r) => Some(Run { line: r.line, norm: r.norm, count: r.count + 1 }),
                    None => None,
                };
            } else {
                proof {
                    if start < i {
                        lemma_close_run(all, rows, start, i as int);
                        lemma_section_push(rows, run_row(all[start], (i - start) as nat));
                        rows = rows.push(run_row(all[start], (i - start) as nat));
                    }
                }
                flush_run(&mut bound, &mut run, &mut collapsed);
                run = Some(Run { line, norm, count: 1 });
                proof {
                    start = i as int;
                }
            }
        }
        i = i + 1;
    }
    proof {
        if start < i {
            lemma_close_run(all, rows, start, i as int);
            lemma_section_push(rows, run_row(all[start], (i - start) as nat));
            rows = rows.push(run_row(all[start], (i - start) as nat));
        }
    }
    flush_run(&mut bound, &mut run, &mut collapsed);
    proof {
        assert(all.skip(i as int) =~= Seq::empty());
        assert(rows + Seq::empty() =~= rows);
        assert(all.take(i as int) =~= all);
    }
    if lines.len() > 0 {
        let last: Vec<char> = cap_line(lines[lines.len() - 1]);
        proof {
            assert(text::views(lines@)[lines@.len() - 1] == lines@[lines@.len() - 1]@);
        }
        bound.observe_last(last);
    }
    let mut header: String = "# kind=process_log lines=".to_owned();
    text::push_decimal(&mut header, lines.len() as u64);
    header.append(" collapsed_runs=");
    text::push_decimal(&mut header, collapsed);
    header.append(" failures=");
    text::push_decimal(&mut header, failures);
    proof {
        assert(header@ =~= log_header(all));
    }
    bound.render(header.as_str())
}

/// The lines `start..end` are one whole run of a log.
proof fn lemma_close_run(all: Seq<Seq<char>>, rows: Seq<Seq<char>>, start: int, end: int)
    requires
        0 <= start < end <= all.len(),
        forall|j: int|
            start <= j < end ==> !is_failure(#[trigger] all[j]) && normal(all[j]) == normal(
                all[start],
            ),
        end < all.len() ==> is_failure(all[end]) || normal(all[end]) != normal(all[start]),
    ensures
        rows + log_rows(all.skip(start)) == rows.push(run_row(all[start], (end - start) as nat))
            + log_rows(all.skip(end)),
        collapsed_runs(all.skip(start)) == (if end - start >= 2 {
            1nat
        } else {
            0nat
        }) + collapsed_runs(all.skip(end)),
{
    let t = all.skip(start);
    let n = (end - start) as nat;
    assert(t[0] == all[start]);
    assert forall|j: int| 0 <= j < n implies !is_failure(#[trigger] t[j]) by {
        assert(t[j] == all[start + j]);
    }
    assert forall|j: int| 0 <= j < n implies normal(#[trigger] t[j]) == normal(t[0]) by {
        assert(t[j] == all[start + j]);
    }
    if n < t.len() {
        assert(t[n as int] == all[end]);
    }
    lemma_run_is(t, n);
    assert(t.skip(n as int) =~= all.skip(end));
    assert(rows + (seq![run_row(all[start], n)] + log_rows(all.skip(end))) =~= rows.push(
        run_row(all[start], n),
    ) + log_rows(all.skip(end)));
}

// ------------------------------------------------------------ test reports

/// What a line of a test report says of one test.
pub enum RowClass {
    Failed,
    Ignored,
    Passed,
    Other,
}

/// A failure decides first, then `ignored`, then ` ok` or a leading `ok `.
pub open spec fn row_class(line: Seq<char>) -> RowClass {
    if is_failure(line) {
        RowClass::Failed
    } else if text::has_ci(line, "ignored"@) {
        RowClass::Ignored
    } else if text::has_ci(line, " ok"@) || text::starts(text::trim_start(line), "ok "@) {
        RowClass::Passed
    } else {
        RowClass::Other
    }
}

/// How many lines are of class `class`.
pub open spec fn class_count(lines: Seq<Seq<char>>, class: RowClass) -> nat
    decreases lines.len(),
{
    if lines.len() == 0 {
        0
    } else {
        class_count(lines.drop_last(), class) + (if row_class(lines.last()) == class {
            1nat
        } else {
            0nat
        })
    }
}

pub open spec fn test_header(lines: Seq<Seq<char>>) -> Seq<char> {
    let passed = class_count(lines, RowClass::Passed);
    let failed = class_count(lines, RowClass::Failed);
    let ignored = class_count(lines, RowClass::Ignored);
    "# kind=test_report lines="@ + text::decimal(lines.len()) + " rows="@ + text::decimal(
        passed + failed + ignored,
    ) + " passed="@ + text::decimal(passed) + " failed="@ + text::decimal(failed) + " ignored="@
        + text::decimal(ignored)
}

/// The compact body of a test report: the failed rows and the counts.
pub open spec fn test_report_text(raw: Seq<char>) -> Seq<char> {
    let lines = capped_lines(raw);
    body_of(test_header(lines), empty_section(), section_of(failure_rows(lines)), None)
}

/// Keeps failed rows and counts passed, failed and ignored ones.
fn test_report_body(raw: &[char]) -> (r: String)
    ensures
        r@ == test_report_text(raw@),
{
    let lines: Vec<&[char]> = text::split_lines(raw);
    let ghost all = capped_lines(raw@);
    let mut bound: Bound = Bound::new();
    let mut passed: u64 = 0;
    let mut failed: u64 = 0;
    let mut ignored: u64 = 0;
    let mut i: usize = 0;
    proof {
        assert(all.take(0) =~= Seq::empty());
        assert(all.len() == lines.len());
    }
    while i < lines.len()
        invariant
            i <= lines.len(),
            text::views(lines@) == text::lines_of(raw@),
            all == capped_lines(raw@),
            all.len() == lines.len(),
            bound.within(),
            bound.dropped_failures <= i,
            bound.last is None,
            bound.head_section() == empty_section(),
            bound.failure_section() == section_of(failure_rows(all.take(i as int))),
            passed == class_count(all.take(i as int), RowClass::Passed),
            failed == class_count(all.take(i as int), RowClass::Failed),
            ignored == class_count(all.take(i as int), RowClass::Ignored),
            passed + failed + ignored <= i,
        decreases lines.len() - i,
    {
        let line: Vec<char> = cap_line(lines[i]);
        proof {
            assert(text::views(lines@)[i as int] == lines@[i as int]@);
            assert(line@ == all[i as int]);
            assert(all.take(i as int + 1).drop_last() =~= all.take(i as int));
            assert(all.take(i as int + 1).last() == all[i as int]);
        }
        if is_failure_line(line.as_slice()) {
            failed = failed + 1;
            bound.push_failure(line.as_slice());
            proof {
                lemma_section_push(failure_rows(all.take(i as int)), all[i as int]);
            }
        } else if text::contains_ci(line.as_slice(), "ignored") {
            ignored = ignored + 1;
        } else if text::contains_ci(line.as_slice(), " ok") || text::starts_with(
            text::trimmed_start(line.as_slice()),
            "ok ",
        ) {
            passed = passed + 1;
        }
        i = i + 1;
    }
    proof {
        assert(all.take(i as int) =~= all);
    }
    let mut header: String = "# kind=test_report lines=".to_owned();
    text::push_decimal(&mut header, lines.len() as u64);
    header.append(" rows=");
    text::push_decimal(&mut header, passed + failed + ignored);
    header.append(" passed=");
    text::push_decimal(&mut header, passed);
    header.append(" failed=");
    text::push_decimal(&mut header, failed);
    header.append(" ignored=");
    text::push_decimal(&mut header, ignored);
    proof {
        assert(header@ =~= test_header(all));
    }
    bound.render(header.as_str())
}

// ------------------------------------------------------------------ dedupe

/// The first [`MAX_SEEN_KEYS`] distinct keys of `keys`.
pub open spec fn remembered(keys: Seq<Seq<char>>) -> Seq<Seq<char>>
    decreases keys.len(),
{
    if keys.len() == 0 {
        Seq::empty()
    } else {
        let before = remembered(keys.drop_last());
        if before.contains(keys.last()) || before.len() >= MAX_SEEN_KEYS {
            before
        } else {
            before.push(keys.last())
        }
    }
}

/// The rows whose key was not remembered from the rows before.
pub open spec fn fresh_rows(rows: Seq<Seq<char>>, keys: Seq<Seq<char>>) -> Seq<Seq<char>>
    decreases rows.len(),
{
    if rows.len() == 0 {
        Seq::empty()
    } else {
        let before = fresh_rows(rows.drop_last(), keys.drop_last());
        if remembered(keys.drop_last()).contains(keys.last()) {
            before
        } else {
            before.push(rows.last())
        }
    }
}

/// The part of `line` up to its first colon.
pub open spec fn first_column(line: Seq<char>) -> Seq<char> {
    line.take(text::first_index(line, ':'))
}

/// The part of `line` between its first colon and its second, or its end.
pub open spec fn second_column(line: Seq<char>) -> Seq<char> {
    let rest = line.skip(text::first_index(line, ':') + 1);
    rest.take(text::first_index(rest, ':'))
}

/// The line names a place: a second colon column that is a number.
pub open spec fn has_place(line: Seq<char>) -> bool {
    text::first_index(line, ':') < line.len() && text::parsed(
        text::trim(second_column(line)),
        u64::MAX as nat,
    ) is Some
}

/// The key of a row: `path:line` where it names a place, and else its normal
/// form.
pub open spec fn row_key(line: Seq<char>) -> Seq<char> {
    if has_place(line) {
        text::trim(first_column(line)) + seq![':'] + text::trim(second_column(line))
    } else {
        normal(line)
    }
}

pub open spec fn row_keys(lines: Seq<Seq<char>>) -> Seq<Seq<char>> {
    Seq::new(lines.len(), |i: int| row_key(lines[i]))
}

pub open spec fn dedupe_header(label: Seq<char>, lines: Seq<Seq<char>>) -> Seq<char> {
    let unique = fresh_rows(lines, row_keys(lines)).len();
    "# kind="@ + label + " lines="@ + text::decimal(lines.len()) + " unique="@ + text::decimal(
        unique,
    ) + " duplicates="@ + text::decimal((lines.len() - unique) as nat)
}

/// The compact body of diagnostics or search hits: the first row of each key.
pub open spec fn columnar_text(label: Seq<char>, raw: Seq<char>) -> Seq<char> {
    let lines = capped_lines(raw);
    body_of(
        dedupe_header(label, lines),
        section_of(fresh_rows(lines, row_keys(lines))),
        empty_section(),
        None,
    )
}

/// The key of one row.
fn key_of_row(line: &[char]) -> (r: Vec<char>)
    ensures
        r@ == row_key(line@),
{
    let a: usize = text::find_char(line, ':');
    if a < line.len() {
        let rest: &[char] = slice_subrange(line, a + 1, line.len());
        let b: usize = text::find_char(rest, ':');
        let number: &[char] = text::trimmed(slice_subrange(rest, 0, b));
        proof {
            assert(rest@ =~= line@.skip(a as int + 1));
            assert(rest@.subrange(0, b as int) =~= second_column(line@));
        }
        if text::parse_unsigned(number, u64::MAX).is_some() {
            let path: &[char] = text::trimmed(slice_subrange(line, 0, a));
            let mut out: Vec<char> = text::copy_chars(path);
            out.push(':');
            text::append_chars(&mut out, number);
            proof {
                assert(line@.subrange(0, a as int) =~= first_column(line@));
                assert(out@ =~= row_key(line@));
            }
            return out;
        }
    }
    normalize_line(line)
}

/// One retained row per key, first occurrence wins, later ones counted.
fn columnar_dedupe_body(raw: &[char], label: &str) -> (r: String)
    ensures
        r@ == columnar_text(label@, raw@),
{
    let lines: Vec<&[char]> = text::split_lines(raw);
    let ghost all = capped_lines(raw@);
    let ghost keys = row_keys(all);
    let mut bound: Bound = Bound::new();
    let mut unique: u64 = 0;
    let mut duplicates: u64 = 0;
    let mut seen: Vec<Vec<char>> = Vec::new();
    let mut i: usize = 0;
    proof {
        assert(all.take(0) =~= Seq::empty());
        assert(keys.take(0) =~= Seq::empty());
        assert(row_views(seen@) =~= Seq::empty());
        assert(all.len() == lines.len());
    }
    while i < lines.len()
        invariant
            i <= lines.len(),
            text::views(lines@) == text::lines_of(raw@),
            all == capped_lines(raw@),
            keys == row_keys(all),
            all.len() == lines.len(),
            bound.within(),
            bound.omitted <= i,
            bound.last is None,
            bound.failure_section() == empty_section(),
            row_views(seen@) == remembered(keys.take(i as int)),
            unique == fresh_rows(all.take(i as int), keys.take(i as int)).len(),
            bound.head_section() == section_of(
                fresh_rows(all.take(i as int), keys.take(i as int)),
            ),
            unique + duplicates == i,
        decreases lines.len() - i,
    {
        let line: Vec<char> = cap_line(lines[i]);
        let key: Vec<char> = key_of_row(line.as_slice());
        proof {
            assert(text::views(lines@)[i as int] == lines@[i as int]@);
            assert(line@ == all[i as int]);
            assert(key@ == keys[i as int]);
            assert(all.take(i as int + 1).drop_last() =~= all.take(i as int));
            assert(all.take(i as int + 1).last() == all[i as int]);
            assert(keys.take(i as int + 1).drop_last() =~= keys.take(i as int));
            assert(keys.take(i as int + 1).last() == keys[i as int]);
        }
        if holds_row(&seen, key.as_slice()) {
            duplicates = duplicates + 1;
        } else {
            if seen.len() < MAX_SEEN_KEYS {
                let ghost before = seen@;
                seen.push(key);
                proof {
                    assert(row_views(seen@) =~= row_views(before).push(keys[i as int]));
                }
            }
            unique = unique + 1;
            bound.push_head(line.as_slice());
            proof {
                lemma_section_push(
                    fresh_rows(all.take(i as int), keys.take(i as int)),
                    all[i as int],
                );
            }
        }
        i = i + 1;
    }
    proof {
        assert(all.take(i as int) =~= all);
        assert(keys.take(i as int) =~= keys);
    }
    let mut header: String = "# kind=".to_owned();
    header.append(label);
    header.append(" lines=");
    text::push_decimal(&mut header, lines.len() as u64);
    header.append(" unique=");
    text::push_decimal(&mut header, unique);
    header.append(" duplicates=");
    text::push_decimal(&mut header, duplicates);
    proof {
        assert(header@ =~= dedupe_header(label@, all));
    }
    bound.render(header.as_str())
}

/// The first [`MAX_TABLE_COLUMNS`] words of a line.
pub open spec fn columns(line: Seq<char>) -> Seq<Seq<char>> {
    let w = text::words(line);
    if w.len() <= MAX_TABLE_COLUMNS {
        w
    } else {
        w.take(MAX_TABLE_COLUMNS as int)
    }
}

/// The table rows of the lines that are not blank: their columns with a tab
/// between each two.
pub open spec fn table_rows(lines: Seq<Seq<char>>) -> Seq<Seq<char>>
    decreases lines.len(),
{
    if lines.len() == 0 {
        Seq::empty()
    } else if columns(lines.last()).len() == 0 {
        table_rows(lines.drop_last())
    } else {
        table_rows(lines.drop_last()).push(text::join(columns(lines.last()), seq!['\t']))
    }
}

pub open spec fn table_header(label: Seq<char>, lines: Seq<Seq<char>>) -> Seq<char> {
    let rows = table_rows(lines);
    let kept = fresh_rows(rows, rows).len();
    "# kind="@ + label + " lines="@ + text::decimal(lines.len()) + " kept="@ + text::decimal(kept)
        + " duplicates="@ + text::decimal((rows.len() - kept) as nat)
}

/// The compact body of file maps, symbol sets and structured rows.
pub open spec fn table_text(label: Seq<char>, raw: Seq<char>) -> Seq<char> {
    let lines = capped_lines(raw);
    let rows = table_rows(lines);
    body_of(
        table_header(label, lines),
        section_of(fresh_rows(rows, rows)),
        empty_section(),
        None,
    )
}

/// The first columns of each row, tab separated, equal rows collapsed.
fn column_table_body(kind: &EvidenceKind, raw: &[char]) -> (r: String)
    ensures
        r@ == table_text(label_of(*kind), raw@),
{
    let lines: Vec<&[char]> = text::split_lines(raw);
    let ghost all = capped_lines(raw@);
    let mut bound: Bound = Bound::new();
    let mut kept: u64 = 0;
    let mut duplicates: u64 = 0;
    let mut seen: Vec<Vec<char>> = Vec::new();
    let mut i: usize = 0;
    proof {
        assert(all.take(0) =~= Seq::empty());
        assert(row_views(seen@) =~= Seq::empty());
        assert(all.len() == lines.len());
    }
    while i < lines.len()
        invariant
            i <= lines.len(),
            text::views(lines@) == text::lines_of(raw@),
            all == capped_lines(raw@),
            all.len() == lines.len(),
            bound.within(),
            bound.omitted <= i,
            bound.last is None,
            bound.failure_section() == empty_section(),
            row_views(seen@) == remembered(table_rows(all.take(i as int))),
            kept == fresh_rows(
                table_rows(all.take(i as int)),
                table_rows(all.take(i as int)),
            ).len(),
            bound.head_section() == section_of(
                fresh_rows(table_rows(all.take(i as int)), table_rows(all.take(i as int))),
            ),
            kept + duplicates == table_rows(all.take(i as int)).len(),
            kept + duplicates <= i,
        decreases lines.len() - i,
    {
        let line: Vec<char> = cap_line(lines[i]);
        let parts: Vec<&[char]> = text::split_words(line.as_slice(), MAX_TABLE_COLUMNS);
        let ghost before_rows = table_rows(all.take(i as int));
        proof {
            assert(text::views(lines@)[i as int] == lines@[i as int]@);
            assert(line@ == all[i as int]);
            assert(text::views(parts@) == columns(line@));
            assert(all.take(i as int + 1).drop_last() =~= all.take(i as int));
            assert(all.take(i as int + 1).last() == all[i as int]);
        }
        if parts.len() > 0 {
            let row: Vec<char> = text::join_char(&parts, '\t');
            proof {
                assert(table_rows(all.take(i as int + 1)) == before_rows.push(row@));
                assert(before_rows.push(row@).drop_last() =~= before_rows);
            }
            if holds_row(&seen, row.as_slice()) {
                duplicates = duplicates + 1;
            } else {
                if seen.len() < MAX_SEEN_KEYS {
                    let ghost before = seen@;
                    seen.push(text::copy_chars(row.as_slice()));
                    proof {
                        assert(row_views(seen@) =~= row_views(before).push(row@));
                    }
                }
                kept = kept + 1;
                bound.push_head(row.as_slice());
                proof {
                    lemma_section_push(fresh_rows(before_rows, before_rows), row@);
                }
            }
        }
        i = i + 1;
    }
    proof {
        assert(all.take(i as int) =~= all);
    }
    let mut header: String = "# kind=".to_owned();
    header.append(kind_label(kind));
    header.append(" lines=");
    text::push_decimal(&mut header, lines.len() as u64);
    header.append(" kept=");
    text::push_decimal(&mut header, kept);
    header.append(" duplicates=");
    text::push_decimal(&mut header, duplicates);
    proof {
        assert(header@ =~= table_header(label_of(*kind), all));
    }
    bound.render(header.as_str())
}

/// The label of a kind in a header row.
pub open spec fn label_of(kind: EvidenceKind) -> Seq<char> {
    match kind {
        EvidenceKind::DiagnosticSet => "diagnostic_set"@,
        EvidenceKind::TestReport => "test_report"@,
        EvidenceKind::SearchResults => "search_results"@,
        EvidenceKind::FileMap => "file_map"@,
        EvidenceKind::Diff => "diff"@,
        EvidenceKind::ProcessLog => "process_log"@,
        EvidenceKind::SymbolSet => "symbol_set"@,
        EvidenceKind::StructuredRows => "structured_rows"@,
        EvidenceKind::ChildHandoff => "child_handoff"@,
        EvidenceKind::SemanticContext => "semantic_context"@,
        EvidenceKind::GenericText => "generic_text"@,
    }
}

/// The label of a kind in a header row.
pub fn kind_label(kind: &EvidenceKind) -> (r: &'static str)
    ensures
        r@ == label_of(*kind),
{
    match kind {
        EvidenceKind::DiagnosticSet => "diagnostic_set",
        EvidenceKind::TestReport => "test_report",
        EvidenceKind::SearchResults => "search_results",
        EvidenceKind::FileMap => "file_map",
        EvidenceKind::Diff => "diff",
        EvidenceKind::ProcessLog => "process_log",
        EvidenceKind::SymbolSet => "symbol_set",
        EvidenceKind::StructuredRows => "structured_rows",
        EvidenceKind::ChildHandoff => "child_handoff",
        EvidenceKind::SemanticContext => "semantic_context",
        EvidenceKind::GenericText => "generic_text",
    }
}

// ------------------------------------------------------------------- diffs

/// The line heads a hunk of a unified diff.
pub open spec fn is_hunk(line: Seq<char>) -> bool {
    text::starts(line, "@@"@)
}

/// The line belongs to the header of a file in a unified diff.
pub open spec fn is_file_header(line: Seq<char>) -> bool {
    ||| text::starts(line, "+++"@)
    ||| text::starts(line, "---"@)
    ||| text::starts(line, "diff "@)
    ||| text::starts(line, "index "@)
}

pub open spec fn is_added(line: Seq<char>) -> bool {
    line.len() > 0 && line[0] == '+' && !text::starts(line, "+++"@)
}

pub open spec fn is_removed(line: Seq<char>) -> bool {
    line.len() > 0 && line[0] == '-' && !text::starts(line, "---"@)
}

/// How many content lines of the last hunk were kept.
pub open spec fn hunk_fill(lines: Seq<Seq<char>>) -> nat
    decreases lines.len(),
{
    if lines.len() == 0 || is_hunk(lines.last()) {
        0
    } else {
        let before = hunk_fill(lines.drop_last());
        if is_file_header(lines.last()) || before >= FIRST_HUNK_LINES {
            before
        } else {
            before + 1
        }
    }
}

/// The rows of a diff summary: hunk and file headers, and the first content
/// lines of each hunk.
pub open spec fn diff_rows(lines: Seq<Seq<char>>) -> Seq<Seq<char>>
    decreases lines.len(),
{
    if lines.len() == 0 {
        Seq::empty()
    } else {
        let before = diff_rows(lines.drop_last());
        if is_hunk(lines.last()) || is_file_header(lines.last()) || hunk_fill(lines.drop_last())
            < FIRST_HUNK_LINES {
            before.push(lines.last())
        } else {
            before
        }
    }
}

/// How many lines head a hunk.
pub open spec fn hunk_count(lines: Seq<Seq<char>>) -> nat
    decreases lines.len(),
{
    if lines.len() == 0 {
        0
    } else {
        hunk_count(lines.drop_last()) + (if is_hunk(lines.last()) {
            1nat
        } else {
            0nat
        })
    }
}

/// How many lines were added.
pub open spec fn added_count(lines: Seq<Seq<char>>) -> nat
    decreases lines.len(),
{
    if lines.len() == 0 {
        0
    } else {
        added_count(lines.drop_last()) + (if is_added(lines.last()) {
            1nat
        } else {
            0nat
        })
    }
}

/// How many lines were removed.
pub open spec fn removed_count(lines: Seq<Seq<char>>) -> nat
    decreases lines.len(),
{
    if lines.len() == 0 {
        0
    } else {
        removed_count(lines.drop_last()) + (if is_removed(lines.last()) {
            1nat
        } else {
            0nat
        })
    }
}

pub open spec fn diff_header(lines: Seq<Seq<char>>) -> Seq<char> {
    "# kind=diff lines="@ + text::decimal(lines.len()) + " hunks="@ + text::decimal(
        hunk_count(lines),
    ) + " added="@ + text::decimal(added_count(lines)) + " removed="@ + text::decimal(
        removed_count(lines),
    )
}

/// The compact body of a unified diff.
pub open spec fn diff_text(raw: Seq<char>) -> Seq<char> {
    let lines = capped_lines(raw);
    body_of(diff_header(lines), section_of(diff_rows(lines)), empty_section(), None)
}

/// Unified-diff structure: headers, counts, first content lines of each hunk.
fn diff_summary_body(raw: &[char]) -> (r: String)
    ensures
        r@ == diff_text(raw@),
{
    let lines: Vec<&[char]> = text::split_lines(raw);
    let ghost all = capped_lines(raw@);
    let mut bound: Bound = Bound::new();
    let mut hunks: u64 = 0;
    let mut added: u64 = 0;
    let mut removed: u64 = 0;
    let mut lines_in_hunk: usize = 0;
    let mut i: usize = 0;
    proof {
        assert(all.take(0) =~= Seq::empty());
        assert(all.len() == lines.len());
    }
    while i < lines.len()
        invariant
            i <= lines.len(),
            text::views(lines@) == text::lines_of(raw@),
            all == capped_lines(raw@),
            all.len() == lines.len(),
            bound.within(),
            bound.omitted <= i,
            bound.last is None,
            bound.failure_section() == empty_section(),
            bound.head_section() == section_of(diff_rows(all.take(i as int))),
            lines_in_hunk == hunk_fill(all.take(i as int)),
            lines_in_hunk <= FIRST_HUNK_LINES,
            hunks == hunk_count(all.take(i as int)),
            added == added_count(all.take(i as int)),
            removed == removed_count(all.take(i as int)),
            hunks <= i,
            added <= i,
            removed <= i,
        decreases lines.len() - i,
    {
        let line: Vec<char> = cap_line(lines[i]);
        let chars: &[char] = line.as_slice();
        proof {
            assert(text::views(lines@)[i as int] == lines@[i as int]@);
            assert(line@ == all[i as int]);
            assert(all.take(i as int + 1).drop_last() =~= all.take(i as int));
            assert(all.take(i as int + 1).last() == all[i as int]);
            lemma_section_push(diff_rows(all.take(i as int)), all[i as int]);
        }
        if text::starts_with(chars, "@@") {
            hunks = hunks + 1;
            lines_in_hunk = 0;
            bound.push_head(chars);
        } else if text::starts_with(chars, "+++") || text::starts_with(chars, "---")
            || text::starts_with(chars, "diff ") || text::starts_with(chars, "index ") {
            bound.push_head(chars);
        } else if lines_in_hunk < FIRST_HUNK_LINES {
            lines_in_hunk = lines_in_hunk + 1;
            bound.push_head(chars);
        }
        if chars.len() > 0 && chars[0] == '+' && !text::starts_with(chars, "+++") {
            added = added + 1;
        } else if chars.len() > 0 && chars[0] == '-' && !text::starts_with(chars, "---") {
            removed = removed + 1;
        }
        proof {
            reveal_strlit("+++");
            reveal_strlit("---");
            if text::starts(line@, "+++"@) {
                assert("+++"@ =~= line@.subrange(0, 3));
                assert(line@[0] == "+++"@[0]);
            }
            if text::starts(line@, "---"@) {
                assert("---"@ =~= line@.subrange(0, 3));
                assert(line@[0] == "---"@[0]);
            }
        }
        i = i + 1;
    }
    proof {
        assert(all.take(i as int) =~= all);
    }
    let mut header: String = "# kind=diff lines=".to_owned();
    text::push_decimal(&mut header, lines.len() as u64);
    header.append(" hunks=");
    text::push_decimal(&mut header, hunks);
    header.append(" added=");
    text::push_decimal(&mut header, added);
    header.append(" removed=");
    text::push_decimal(&mut header, removed);
    proof {
        assert(header@ =~= diff_header(all));
    }
    bound.render(header.as_str())
}

// -------------------------------------------------------- generic summaries

/// The section that takes at most [`STRUCTURAL_FIRST_LINES`] of `rows`.
pub open spec fn first_rows(rows: Seq<Seq<char>>) -> Section
    decreases rows.len(),
{
    if rows.len() == 0 {
        empty_section()
    } else {
        let before = first_rows(rows.drop_last());
        if before.kept.len() < STRUCTURAL_FIRST_LINES {
            take_row(before, rows.last())
        } else {
            Section { dropped: before.dropped + 1, ..before }
        }
    }
}

pub open spec fn summary_header(label: Seq<char>, lines: Seq<Seq<char>>) -> Seq<char> {
    "# kind="@ + label + " lines="@ + text::decimal(lines.len()) + " kept="@ + text::decimal(
        first_rows(lines).kept.len(),
    )
}

/// The compact body of any other text: its first lines.
pub open spec fn summary_text(label: Seq<char>, raw: Seq<char>) -> Seq<char> {
    let lines = capped_lines(raw);
    body_of(summary_header(label, lines), first_rows(lines), empty_section(), None)
}

/// Line count plus the first lines, each bounded.
fn first_lines_summary_body(kind: &EvidenceKind, raw: &[char]) -> (r: String)
    ensures
        r@ == summary_text(label_of(*kind), raw@),
{
    let lines: Vec<&[char]> = text::split_lines(raw);
    let ghost all = capped_lines(raw@);
    let mut bound: Bound = Bound::new();
    let mut i: usize = 0;
    proof {
        assert(all.take(0) =~= Seq::empty());
        assert(all.len() == lines.len());
    }
    while i < lines.len()
        invariant
            i <= lines.len(),
            text::views(lines@) == text::lines_of(raw@),
            all == capped_lines(raw@),
            all.len() == lines.len(),
            bound.within(),
            bound.omitted <= i,
            bound.last is None,
            bound.failure_section() == empty_section(),
            bound.head_section() == first_rows(all.take(i as int)),
        decreases lines.len() - i,
    {
        proof {
            assert(text::views(lines@)[i as int] == lines@[i as int]@);
            assert(all.take(i as int + 1).drop_last() =~= all.take(i as int));
            assert(all.take(i as int + 1).last() == all[i as int]);
        }
        if bound.head_len() < STRUCTURAL_FIRST_LINES {
            let line: Vec<char> = cap_line(lines[i]);
            bound.push_head(line.as_slice());
        } else {
            bound.omit();
        }
        i = i + 1;
    }
    proof {
        assert(all.take(i as int) =~= all);
    }
    let mut header: String = "# kind=".to_owned();
    header.append(kind_label(kind));
    header.append(" lines=");
    text::push_decimal(&mut header, lines.len() as u64);
    header.append(" kept=");
    text::push_decimal(&mut header, bound.head_len() as u64);
    proof {
        assert(header@ =~= summary_header(label_of(*kind), all));
    }
    bound.render(header.as_str())
}

// ------------------------------------------------------------- compaction

/// The grammar of the compact bodies of a kind.
pub open spec fn grammar_of(kind: EvidenceKind) -> Seq<char> {
    match kind {
        EvidenceKind::DiagnosticSet => "diag-v1"@,
        EvidenceKind::TestReport => "test-v1"@,
        EvidenceKind::SearchResults => "search-v1"@,
        EvidenceKind::FileMap => "filemap-v1"@,
        EvidenceKind::Diff => "diff-v1"@,
        EvidenceKind::ProcessLog => "log-v1"@,
        EvidenceKind::SymbolSet => "symbol-v1"@,
        EvidenceKind::StructuredRows => "rows-v1"@,
        EvidenceKind::ChildHandoff => "handoff-v1"@,
        EvidenceKind::SemanticContext => "semantic-v1"@,
        EvidenceKind::GenericText => "text-v1"@,
    }
}

/// The grammar of the compact bodies of a kind.
pub fn grammar_for(kind: &EvidenceKind) -> (r: &'static str)
    ensures
        r@ == grammar_of(*kind),
{
    match kind {
        EvidenceKind::DiagnosticSet => "diag-v1",
        EvidenceKind::TestReport => "test-v1",
        EvidenceKind::SearchResults => "search-v1",
        EvidenceKind::FileMap => "filemap-v1",
        EvidenceKind::Diff => "diff-v1",
        EvidenceKind::ProcessLog => "log-v1",
        EvidenceKind::SymbolSet => "symbol-v1",
        EvidenceKind::StructuredRows => "rows-v1",
        EvidenceKind::ChildHandoff => "handoff-v1",
        EvidenceKind::SemanticContext => "semantic-v1",
        EvidenceKind::GenericText => "text-v1",
    }
}

/// The body of an aggressive transform.
pub open spec fn aggressive_text(kind: EvidenceKind, raw: Seq<char>) -> Seq<char> {
    match kind {
        EvidenceKind::ProcessLog => process_log_text(raw),
        EvidenceKind::TestReport => test_report_text(raw),
        EvidenceKind::DiagnosticSet | EvidenceKind::SearchResults => columnar_text(
            label_of(kind),
            raw,
        ),
        EvidenceKind::FileMap | EvidenceKind::SymbolSet | EvidenceKind::StructuredRows => {
            table_text(label_of(kind), raw)
        },
        EvidenceKind::Diff => diff_text(raw),
        EvidenceKind::ChildHandoff | EvidenceKind::SemanticContext | EvidenceKind::GenericText => {
            summary_text(label_of(kind), raw)
        },
    }
}

/// The body of a reversible transform.
pub open spec fn structural_text(kind: EvidenceKind, raw: Seq<char>) -> Seq<char> {
    match kind {
        EvidenceKind::Diff => diff_text(raw),
        _ => summary_text(label_of(kind), raw),
    }
}

fn aggressive_body(kind: &EvidenceKind, raw: &[char]) -> (r: String)
    ensures
        r@ == aggressive_text(*kind, raw@),
{
    match kind {
        EvidenceKind::ProcessLog => process_log_body(raw),
        EvidenceKind::TestReport => test_report_body(raw),
        EvidenceKind::DiagnosticSet => columnar_dedupe_body(raw, "diagnostic_set"),
        EvidenceKind::SearchResults => columnar_dedupe_body(raw, "search_results"),
        EvidenceKind::FileMap | EvidenceKind::SymbolSet | EvidenceKind::StructuredRows => {
            column_table_body(kind, raw)
        },
        EvidenceKind::Diff => diff_summary_body(raw),
        EvidenceKind::ChildHandoff | EvidenceKind::SemanticContext | EvidenceKind::GenericText => {
            first_lines_summary_body(kind, raw)
        },
    }
}

fn structural_summary_body(kind: &EvidenceKind, raw: &[char]) -> (r: String)
    ensures
        r@ == structural_text(*kind, raw@),
{
    match kind {
        EvidenceKind::Diff => diff_summary_body(raw),
        _ => first_lines_summary_body(kind, raw),
    }
}

/// The name of a kind.
pub open spec fn name_of(kind: EvidenceKind) -> Seq<char> {
    match kind {
        EvidenceKind::DiagnosticSet => "DiagnosticSet"@,
        EvidenceKind::TestReport => "TestReport"@,
        EvidenceKind::SearchResults => "SearchResults"@,
        EvidenceKind::FileMap => "FileMap"@,
        EvidenceKind::Diff => "Diff"@,
        EvidenceKind::ProcessLog => "ProcessLog"@,
        EvidenceKind::SymbolSet => "SymbolSet"@,
        EvidenceKind::StructuredRows => "StructuredRows"@,
        EvidenceKind::ChildHandoff => "ChildHandoff"@,
        EvidenceKind::SemanticContext => "SemanticContext"@,
        EvidenceKind::GenericText => "GenericText"@,
    }
}

fn kind_name(kind: &EvidenceKind) -> (r: &'static str)
    ensures
        r@ == name_of(*kind),
{
    match kind {
        EvidenceKind::DiagnosticSet => "DiagnosticSet",
        EvidenceKind::TestReport => "TestReport",
        EvidenceKind::SearchResults => "SearchResults",
        EvidenceKind::FileMap => "FileMap",
        EvidenceKind::Diff => "Diff",
        EvidenceKind::ProcessLog => "ProcessLog",
        EvidenceKind::SymbolSet => "SymbolSet",
        EvidenceKind::StructuredRows => "StructuredRows",
        EvidenceKind::ChildHandoff => "ChildHandoff",
        EvidenceKind::SemanticContext => "SemanticContext",
        EvidenceKind::GenericText => "GenericText",
    }
}

/// The hardcoded compression policy of `kind`.
pub fn compress_for(kind: &EvidenceKind) -> (r: Compressibility)
    ensures
        r == kind.policy(),
{
    kind.default_compressibility()
}

/// A record of this module over the text `raw` and the body `body`.
pub open spec fn records(
    record: CompressionRecord,
    raw: Seq<char>,
    body: Seq<char>,
    lossiness: Lossiness,
    digest: Option<Seq<u8>>,
) -> bool {
    &&& record.algorithm@ == "faktor-compress-v1"@
    &&& record.version == COMPRESSION_VERSION
    &&& record.original_bytes == text::byte_len(raw)
    &&& record.compact_bytes == text::byte_len(body)
    &&& record.lossiness == lossiness
    &&& match digest {
        Some(d) => record.backing_digest matches Some(bytes) && bytes@ == d,
        None => record.backing_digest is None,
    }
}

fn make_record(
    original_bytes: usize,
    compact_bytes: usize,
    lossiness: Lossiness,
    backing_digest: Option<[u8; 32]>,
) -> (r: CompressionRecord)
    ensures
        r.algorithm@ == "faktor-compress-v1"@,
        r.version == COMPRESSION_VERSION,
        r.original_bytes == original_bytes,
        r.compact_bytes == compact_bytes,
        r.lossiness == lossiness,
        r.backing_digest == backing_digest,
{
    CompressionRecord {
        algorithm: "faktor-compress-v1".to_owned(),
        version: COMPRESSION_VERSION,
        original_bytes: original_bytes as u64,
        compact_bytes: compact_bytes as u64,
        lossiness,
        backing_digest,
    }
}

/// A verbatim copy with a lossless record.
pub open spec fn identity_copy(
    raw: Seq<char>,
    compact: CompactRepresentation,
    record: CompressionRecord,
) -> bool {
    &&& compact.grammar@ == "identity-v1"@
    &&& compact.body@ == raw
    &&& records(record, raw, raw, Lossiness::Lossless, None)
}

/// The explicit verbatim path for `Never` payloads: an identity copy has no
/// failure mode, the body is exactly `raw` and the record is lossless.
pub fn compress_never_identity(raw: &str) -> (r: (CompactRepresentation, CompressionRecord))
    ensures
        identity_copy(raw@, r.0, r.1),
{
    let compact = CompactRepresentation {
        grammar: "identity-v1".to_owned(),
        body: raw.to_owned(),
    };
    let n: usize = text::str_len(raw);
    let record: CompressionRecord = make_record(n, n, Lossiness::Lossless, None);
    (compact, record)
}

/// What compaction under a policy gives.
pub open spec fn compacted(
    kind: EvidenceKind,
    policy: Compressibility,
    raw: Seq<char>,
    compact: CompactRepresentation,
    record: CompressionRecord,
) -> bool {
    let digest = digest::blake3_of(vstd::utf8::encode_utf8(raw));
    match policy {
        Compressibility::Never => false,
        Compressibility::LosslessOnly => identity_copy(raw, compact, record),
        Compressibility::Reversible => {
            &&& compact.grammar@ == grammar_of(kind)
            &&& compact.body@ == structural_text(kind, raw)
            &&& records(record, raw, compact.body@, Lossiness::Structured, Some(digest))
        },
        Compressibility::Aggressive => {
            &&& compact.grammar@ == grammar_of(kind)
            &&& compact.body@ == aggressive_text(kind, raw)
            &&& records(record, raw, compact.body@, Lossiness::Content, Some(digest))
        },
    }
}

/// What a refused compaction is answered.
pub open spec fn refusal_text(kind: EvidenceKind, policy: Compressibility) -> Seq<char> {
    if policy == Compressibility::Never {
        name_of(kind)
            + " uses Compressibility::Never: compaction is forbidden; call compress_never_identity for an explicit verbatim copy"@
    } else {
        name_of(kind)
            + " claims Reversible but backing is Truncated: truncated backing can never be re-expanded"@
    }
}

/// The policy allows compaction over such a backing.
pub open spec fn compactable(policy: Compressibility, completeness: BackingCompleteness) -> bool {
    &&& policy != Compressibility::Never
    &&& policy == Compressibility::Reversible ==> completeness == BackingCompleteness::Complete
}

/// Compacts `raw` under the hardcoded policy of `kind`. A violated invariant is
/// [`EvidenceError::Refused`], never a silent downgrade.
pub fn compress(
    kind: &EvidenceKind,
    backing_completeness: BackingCompleteness,
    raw: &str,
) -> (r: Result<(CompactRepresentation, CompressionRecord), EvidenceError>)
    ensures
        r is Ok <==> compactable(kind.policy(), backing_completeness),
        r matches Ok(v) ==> compacted(*kind, kind.policy(), raw@, v.0, v.1),
        r matches Err(e) ==> (e matches EvidenceError::Refused(m) && m@ == refusal_text(
            *kind,
            kind.policy(),
        )),
{
    compress_with(kind, compress_for(kind), backing_completeness, raw)
}

/// Compacts `raw` under `policy`.
pub fn compress_with(
    kind: &EvidenceKind,
    policy: Compressibility,
    backing_completeness: BackingCompleteness,
    raw: &str,
) -> (r: Result<(CompactRepresentation, CompressionRecord), EvidenceError>)
    ensures
        r is Ok <==> compactable(policy, backing_completeness),
        r matches Ok(v) ==> compacted(*kind, policy, raw@, v.0, v.1),
        r matches Err(e) ==> (e matches EvidenceError::Refused(m) && m@ == refusal_text(
            *kind,
            policy,
        )),
{
    match policy {
        Compressibility::Never => {
            let mut m: String = kind_name(kind).to_owned();
            m.append(
                " uses Compressibility::Never: compaction is forbidden; call compress_never_identity for an explicit verbatim copy",
            );
            Err(EvidenceError::Refused(m))
        },
        Compressibility::LosslessOnly => Ok(compress_never_identity(raw)),
        Compressibility::Reversible => {
            if backing_completeness != BackingCompleteness::Complete {
                let mut m: String = kind_name(kind).to_owned();
                m.append(
                    " claims Reversible but backing is Truncated: truncated backing can never be re-expanded",
                );
                return Err(EvidenceError::Refused(m));
            }
            let chars: Vec<char> = text::chars_of(raw);
            let body: String = structural_summary_body(kind, chars.as_slice());
            let digest: [u8; 32] = digest::digest_bytes(raw.as_bytes());
            let record: CompressionRecord = make_record(
                text::str_len(raw),
                text::str_len(body.as_str()),
                Lossiness::Structured,
                Some(digest),
            );
            Ok((CompactRepresentation { grammar: grammar_for(kind).to_owned(), body }, record))
        },
        Compressibility::Aggressive => {
            let chars: Vec<char> = text::chars_of(raw);
            let body: String = aggressive_body(kind, chars.as_slice());
            let digest: [u8; 32] = digest::digest_bytes(raw.as_bytes());
            let record: CompressionRecord = make_record(
                text::str_len(raw),
                text::str_len(body.as_str()),
                Lossiness::Content,
                Some(digest),
            );
            Ok((CompactRepresentation { grammar: grammar_for(kind).to_owned(), body }, record))
        },
    }
}

// -------------------------------------------------------------------- laws

/// Every compact body that is not a verbatim copy is at most
/// [`MAX_COMPACT_BYTES`] long, whatever the text, and its record names the text by
/// its digest.
pub proof fn law_compact_body_is_bounded(
    kind: EvidenceKind,
    policy: Compressibility,
    raw: Seq<char>,
    compact: CompactRepresentation,
    record: CompressionRecord,
)
    requires
        compacted(kind, policy, raw, compact, record),
        policy != Compressibility::LosslessOnly,
    ensures
        text::byte_len(compact.body@) <= MAX_COMPACT_BYTES,
        record.compact_bytes <= MAX_COMPACT_BYTES,
        record.backing_digest matches Some(d) && d@ == digest::blake3_of(
            vstd::utf8::encode_utf8(raw),
        ),
{
    let lines = capped_lines(raw);
    lemma_body_bounded(
        log_header(lines),
        section_of(log_rows(lines)),
        section_of(failure_rows(lines)),
        last_of(lines),
    );
    lemma_body_bounded(
        test_header(lines),
        empty_section(),
        section_of(failure_rows(lines)),
        None,
    );
    lemma_body_bounded(
        dedupe_header(label_of(kind), lines),
        section_of(fresh_rows(lines, row_keys(lines))),
        empty_section(),
        None,
    );
    let rows = table_rows(lines);
    lemma_body_bounded(
        table_header(label_of(kind), lines),
        section_of(fresh_rows(rows, rows)),
        empty_section(),
        None,
    );
    lemma_body_bounded(diff_header(lines), section_of(diff_rows(lines)), empty_section(), None);
    lemma_body_bounded(
        summary_header(label_of(kind), lines),
        first_rows(lines),
        empty_section(),
        None,
    );
}

proof fn lemma_body_bounded(
    header: Seq<char>,
    head: Section,
    failures: Section,
    last: Option<Seq<char>>,
)
    ensures
        text::byte_len(body_of(header, head, failures, last)) <= MAX_COMPACT_BYTES,
{
    text::lemma_fit(
        text::join(seq![header] + body_rows(head, failures, last), seq!['\n']),
        MAX_COMPACT_BYTES as int,
    );
}

/// Compaction is a function of the kind, the policy and the text: two results
/// for the same arguments hold the same grammar, body and record.
pub proof fn law_compaction_is_deterministic(
    kind: EvidenceKind,
    policy: Compressibility,
    raw: Seq<char>,
    a: (CompactRepresentation, CompressionRecord),
    b: (CompactRepresentation, CompressionRecord),
)
    requires
        compacted(kind, policy, raw, a.0, a.1),
        compacted(kind, policy, raw, b.0, b.1),
    ensures
        a.0.grammar@ == b.0.grammar@,
        a.0.body@ == b.0.body@,
        a.1.algorithm@ == b.1.algorithm@,
        a.1.version == b.1.version,
        a.1.original_bytes == b.1.original_bytes,
        a.1.compact_bytes == b.1.compact_bytes,
        a.1.lossiness == b.1.lossiness,
        a.1.backing_digest is Some <==> b.1.backing_digest is Some,
        a.1.backing_digest matches Some(d) ==> d@ == (b.1.backing_digest->0)@,
{
}

/// The bytes that rows take in a section.
pub open spec fn rows_bytes(rows: Seq<Seq<char>>) -> nat
    decreases rows.len(),
{
    if rows.len() == 0 {
        0
    } else {
        rows_bytes(rows.drop_last()) + text::byte_len(rows.last()) + 1
    }
}

/// A section never exceeds its budget, and rows that fit together are all kept,
/// in order, with none left out.
pub proof fn law_rows_that_fit_are_kept(rows: Seq<Seq<char>>)
    ensures
        section_of(rows).bytes <= SECTION_BYTES,
        section_of(rows).bytes == rows_bytes(section_of(rows).kept),
        section_of(rows).kept.len() + section_of(rows).dropped == rows.len(),
        rows_bytes(rows) <= SECTION_BYTES ==> section_of(rows).kept == rows && section_of(
            rows,
        ).dropped == 0,
    decreases rows.len(),
{
    if rows.len() > 0 {
        law_rows_that_fit_are_kept(rows.drop_last());
        let before = section_of(rows.drop_last());
        assert(before.kept.push(rows.last()).drop_last() =~= before.kept);
        assert(rows.drop_last().push(rows.last()) =~= rows);
    }
}

proof fn lemma_join_len(parts: Seq<Seq<char>>)
    requires
        parts.len() > 0,
    ensures
        text::byte_len(text::join(parts, seq!['\n'])) + 1 == rows_bytes(parts),
    decreases parts.len(),
{
    if parts.len() == 1 {
        assert(parts.drop_last() =~= Seq::empty());
        assert(rows_bytes(parts.drop_last()) == 0);
    } else {
        lemma_join_len(parts.drop_last());
        let a = text::join(parts.drop_last(), seq!['\n']);
        text::lemma_byte_len_add(a, seq!['\n']);
        text::lemma_byte_len_add(a + seq!['\n'], parts.last());
        lemma_ascii_len(seq!['\n']);
    }
}

proof fn lemma_rows_bytes_add(a: Seq<Seq<char>>, b: Seq<Seq<char>>)
    ensures
        rows_bytes(a + b) == rows_bytes(a) + rows_bytes(b),
    decreases b.len(),
{
    if b.len() == 0 {
        assert(a + b =~= a);
    } else {
        assert((a + b).drop_last() =~= a + b.drop_last());
        lemma_rows_bytes_add(a, b.drop_last());
    }
}

proof fn lemma_rows_bytes_one(row: Seq<char>)
    ensures
        rows_bytes(seq![row]) == text::byte_len(row) + 1,
{
    assert(seq![row].drop_last() =~= Seq::empty());
    assert(rows_bytes(seq![row].drop_last()) == 0);
}

/// A number that fits into 64 bits takes at most twenty digits.
proof fn lemma_decimal_u64(n: nat)
    requires
        n <= u64::MAX,
    ensures
        text::byte_len(text::decimal(n)) <= 20,
{
    assert(vstd::arithmetic::power::pow(10, 20) == 100000000000000000000) by {
        reveal_with_fuel(vstd::arithmetic::power::pow, 21);
    }
    text::lemma_decimal_short(n, 20);
}

/// The capped lines of a process log below the byte ceiling are rendered whole:
/// the body is the header and the rows, one per line, with nothing cut off.
proof fn lemma_log_uncut(raw: Seq<char>)
    requires
        capped_lines(raw).len() <= u64::MAX,
    ensures
        ({
            let lines = capped_lines(raw);
            process_log_text(raw) == text::join(
                seq![log_header(lines)] + body_rows(
                    section_of(log_rows(lines)),
                    section_of(failure_rows(lines)),
                    last_of(lines),
                ),
                seq!['\n'],
            )
        }),
{
    let lines = capped_lines(raw);
    let head = section_of(log_rows(lines));
    let fails = section_of(failure_rows(lines));
    let last = last_of(lines);
    law_rows_that_fit_are_kept(log_rows(lines));
    law_rows_that_fit_are_kept(failure_rows(lines));
    lemma_log_rows_few(lines);
    lemma_failure_rows_few(lines);
    lemma_decimal_u64(lines.len());
    lemma_decimal_u64(collapsed_runs(lines));
    lemma_decimal_u64(failure_rows(lines).len());
    lemma_decimal_u64(head.dropped);
    lemma_decimal_u64(fails.dropped);
    // header
    let t1 = "# kind=process_log lines="@;
    let t2 = " collapsed_runs="@;
    let t3 = " failures="@;
    reveal_strlit("# kind=process_log lines=");
    reveal_strlit(" collapsed_runs=");
    reveal_strlit(" failures=");
    lemma_ascii_len(t1);
    lemma_ascii_len(t2);
    lemma_ascii_len(t3);
    let d1 = text::decimal(lines.len());
    let d2 = text::decimal(collapsed_runs(lines));
    let d3 = text::decimal(failure_rows(lines).len());
    text::lemma_byte_len_add(t1, d1);
    text::lemma_byte_len_add(t1 + d1, t2);
    text::lemma_byte_len_add(t1 + d1 + t2, d2);
    text::lemma_byte_len_add(t1 + d1 + t2 + d2, t3);
    text::lemma_byte_len_add(t1 + d1 + t2 + d2 + t3, d3);
    let header = log_header(lines);
    assert(text::byte_len(header) <= 200);
    // omission rows
    let o1 = "... "@;
    let o2 = " more lines omitted ..."@;
    let o3 = " more failure lines omitted ..."@;
    reveal_strlit("... ");
    reveal_strlit(" more lines omitted ...");
    reveal_strlit(" more failure lines omitted ...");
    lemma_ascii_len(o1);
    lemma_ascii_len(o2);
    lemma_ascii_len(o3);
    text::lemma_byte_len_add(o1, text::decimal(head.dropped));
    text::lemma_byte_len_add(o1 + text::decimal(head.dropped), o2);
    text::lemma_byte_len_add(o1, text::decimal(fails.dropped));
    text::lemma_byte_len_add(o1 + text::decimal(fails.dropped), o3);
    let r1 = row_if(head.dropped > 0, omitted_row(head.dropped));
    let r2 = row_if(fails.dropped > 0, omitted_failures_row(fails.dropped));
    lemma_rows_bytes_one(omitted_row(head.dropped));
    lemma_rows_bytes_one(omitted_failures_row(fails.dropped));
    assert(rows_bytes(r1) <= 100);
    assert(rows_bytes(r2) <= 100);
    let r3: Seq<Seq<char>> = match last {
        Some(l) => row_if(!head.kept.contains(l) && !fails.kept.contains(l), l),
        None => Seq::empty(),
    };
    if lines.len() > 0 {
        lemma_capped_len(text::lines_of(raw)[lines.len() - 1]);
        lemma_rows_bytes_one(lines.last());
    }
    assert(rows_bytes(r3) <= 600);
    lemma_rows_bytes_add(head.kept, r1);
    lemma_rows_bytes_add(head.kept + r1, r2);
    lemma_rows_bytes_add(head.kept + r1 + r2, fails.kept);
    lemma_rows_bytes_add(head.kept + r1 + r2 + fails.kept, r3);
    let rows = body_rows(head, fails, last);
    lemma_rows_bytes_add(seq![header], rows);
    lemma_rows_bytes_one(header);
    lemma_join_len(seq![header] + rows);
    text::lemma_fit(text::join(seq![header] + rows, seq!['\n']), MAX_COMPACT_BYTES as int);
}

proof fn lemma_log_rows_few(lines: Seq<Seq<char>>)
    ensures
        log_rows(lines).len() <= lines.len(),
        collapsed_runs(lines) <= lines.len(),
    decreases lines.len(),
{
    if lines.len() > 0 {
        lemma_run_length(lines);
        if is_failure(lines[0]) {
            lemma_log_rows_few(lines.drop_first());
        } else {
            lemma_log_rows_few(lines.skip(run_length(lines) as int));
        }
    }
}

proof fn lemma_failure_rows_few(lines: Seq<Seq<char>>)
    ensures
        failure_rows(lines).len() <= lines.len(),
    decreases lines.len(),
{
    if lines.len() > 0 {
        lemma_failure_rows_few(lines.drop_last());
    }
}

/// The compact body of a process log holds the last input line, capped, as one
/// of its rows, and no row of it is cut off. A log that a machine can hold has
/// no more than `u64::MAX` lines.
pub proof fn law_log_keeps_the_last_line(raw: Seq<char>)
    requires
        1 <= text::lines_of(raw).len() <= u64::MAX,
    ensures
        ({
            let lines = capped_lines(raw);
            let rows = seq![log_header(lines)] + body_rows(
                section_of(log_rows(lines)),
                section_of(failure_rows(lines)),
                last_of(lines),
            );
            &&& process_log_text(raw) == text::join(rows, seq!['\n'])
            &&& rows.contains(capped(text::lines_of(raw).last()))
        }),
{
    let lines = capped_lines(raw);
    lemma_log_uncut(raw);
    let head = section_of(log_rows(lines));
    let fails = section_of(failure_rows(lines));
    let l = lines.last();
    let r1 = row_if(head.dropped > 0, omitted_row(head.dropped));
    let r2 = row_if(fails.dropped > 0, omitted_failures_row(fails.dropped));
    let rows = seq![log_header(lines)] + body_rows(head, fails, Some(l));
    if head.kept.contains(l) {
        let k = choose|k: int| 0 <= k < head.kept.len() && head.kept[k] == l;
        assert(rows[k + 1] == l);
    } else if fails.kept.contains(l) {
        let k = choose|k: int| 0 <= k < fails.kept.len() && fails.kept[k] == l;
        assert(rows[1 + head.kept.len() + r1.len() + r2.len() + k] == l);
    } else {
        assert(rows[rows.len() - 1] == l);
    }
}

/// A line of at most 512 bytes is kept as it stands. Of a longer one the
/// beginning is kept, with a mark behind it, and that is no longer than 512 bytes.
pub proof fn law_lines_are_cut_openly(line: Seq<char>)
    ensures
        vstd::utf8::encode_utf8(line).len() <= 512 ==> capped(line) == line,
        vstd::utf8::encode_utf8(line).len() > 512 ==> {
            let kept = capped(line).take(capped(line).len() - 12);
            &&& kept.len() >= 124
            &&& kept.is_prefix_of(line)
            &&& capped(line) == kept + "\u{2026}[truncated]"@
            &&& vstd::utf8::encode_utf8(capped(line)).len() <= 512
        },
{
    text::lemma_byte_len_encode(line);
    text::lemma_byte_len_encode(capped(line));
    lemma_capped_len(line);
    if text::byte_len(line) > 512 {
        lemma_marker();
        lemma_cap_keeps_many(line);
        let kept = text::cap_to(line, LINE_BUDGET as int);
        assert(capped(line).take(capped(line).len() - 12) =~= kept);
    }
}

proof fn lemma_cap_keeps_many(line: Seq<char>)
    requires
        text::byte_len(line) > 512,
    ensures
        line.len() > 124,
        text::cap_to(line, LINE_BUDGET as int).len() >= 124,
        text::cap_to(line, LINE_BUDGET as int).is_prefix_of(line),
{
    text::lemma_byte_len_bounds(line);
    text::lemma_byte_len_bounds(line.take(124));
    text::lemma_byte_len_encode(line.take(124));
    text::law_a_cap_leaves_the_longest_prefix(line, LINE_BUDGET as int, 124);
}

/// A cut line begins as the line does.
proof fn lemma_capped_begins(line: Seq<char>, p: Seq<char>)
    requires
        p.len() <= 100,
    ensures
        text::starts(capped(line), p) <==> text::starts(line, p),
        line.len() > 0 <==> capped(line).len() > 0,
        line.len() > 0 ==> capped(line)[0] == line[0],
        line.len() >= 3 <==> capped(line).len() >= 3,
        line.len() >= 3 ==> capped(line)[1] == line[1] && capped(line)[2] == line[2],
{
    if text::byte_len(line) > 512 {
        lemma_cap_keeps_many(line);
        let kept = text::cap_to(line, LINE_BUDGET as int);
        assert forall|i: int| 0 <= i < 124 implies capped(line)[i] == line[i] by {
            assert(capped(line)[i] == kept[i]);
        }
        if text::starts(line, p) {
            assert(p =~= capped(line).subrange(0, p.len() as int));
        }
        if text::starts(capped(line), p) {
            assert(p =~= line.subrange(0, p.len() as int)) by {
                assert forall|i: int| 0 <= i < p.len() implies p[i] == line[i] by {
                    assert(p[i] == capped(line)[i]);
                }
            }
        }
    }
}

/// The header of a body stands first in it, on a line of its own.
proof fn lemma_header_first(
    header: Seq<char>,
    head: Section,
    failures: Section,
    last: Option<Seq<char>>,
)
    requires
        text::byte_len(header) <= 1000,
    ensures
        ({
            let body = body_of(header, head, failures, last);
            &&& header.is_prefix_of(body)
            &&& body.len() > header.len() ==> body[header.len() as int] == '\n'
        }),
{
    let rows = body_rows(head, failures, last);
    let all = seq![header] + rows;
    let whole = text::join(all, seq!['\n']);
    if rows.len() == 0 {
        assert(all =~= seq![header]);
        assert(whole == header);
    } else {
        text::lemma_join_first(all, seq!['\n']);
    }
    assert(header.is_prefix_of(whole));
    text::lemma_byte_len_encode(whole.take(header.len() as int));
    assert(whole.take(header.len() as int) =~= header);
    text::law_a_cap_leaves_the_longest_prefix(
        whole,
        MAX_COMPACT_BYTES as int,
        header.len() as int,
    );
    let body = body_of(header, head, failures, last);
    assert(header =~= body.subrange(0, header.len() as int));
}

/// A body whose sections keep to their budgets is rendered whole.
proof fn lemma_body_uncut(
    header: Seq<char>,
    head: Section,
    fails: Section,
    last: Option<Seq<char>>,
)
    requires
        text::byte_len(header) <= 1000,
        rows_bytes(head.kept) <= SECTION_BYTES,
        rows_bytes(fails.kept) <= SECTION_BYTES,
        head.dropped <= u64::MAX,
        fails.dropped <= u64::MAX,
        last matches Some(l) ==> text::byte_len(l) <= MAX_LINE_BYTES,
    ensures
        body_of(header, head, fails, last) == text::join(
            seq![header] + body_rows(head, fails, last),
            seq!['\n'],
        ),
{
    lemma_decimal_u64(head.dropped);
    lemma_decimal_u64(fails.dropped);
    let o1 = "... "@;
    let o2 = " more lines omitted ..."@;
    let o3 = " more failure lines omitted ..."@;
    reveal_strlit("... ");
    reveal_strlit(" more lines omitted ...");
    reveal_strlit(" more failure lines omitted ...");
    lemma_ascii_len(o1);
    lemma_ascii_len(o2);
    lemma_ascii_len(o3);
    text::lemma_byte_len_add(o1, text::decimal(head.dropped));
    text::lemma_byte_len_add(o1 + text::decimal(head.dropped), o2);
    text::lemma_byte_len_add(o1, text::decimal(fails.dropped));
    text::lemma_byte_len_add(o1 + text::decimal(fails.dropped), o3);
    let r1 = row_if(head.dropped > 0, omitted_row(head.dropped));
    let r2 = row_if(fails.dropped > 0, omitted_failures_row(fails.dropped));
    lemma_rows_bytes_one(omitted_row(head.dropped));
    lemma_rows_bytes_one(omitted_failures_row(fails.dropped));
    let r3: Seq<Seq<char>> = match last {
        Some(l) => row_if(!head.kept.contains(l) && !fails.kept.contains(l), l),
        None => Seq::empty(),
    };
    if let Some(l) = last {
        lemma_rows_bytes_one(l);
    }
    lemma_rows_bytes_add(head.kept, r1);
    lemma_rows_bytes_add(head.kept + r1, r2);
    lemma_rows_bytes_add(head.kept + r1 + r2, fails.kept);
    lemma_rows_bytes_add(head.kept + r1 + r2 + fails.kept, r3);
    let rows = body_rows(head, fails, last);
    lemma_rows_bytes_add(seq![header], rows);
    lemma_rows_bytes_one(header);
    lemma_join_len(seq![header] + rows);
    text::lemma_fit(text::join(seq![header] + rows, seq!['\n']), MAX_COMPACT_BYTES as int);
}

/// A line that a unified diff adds or removes: it begins with the sign, but not
/// with three of it.
pub open spec fn signed_line(sign: char) -> spec_fn(Seq<char>) -> bool {
    |l: Seq<char>|
        l.len() > 0 && l[0] == sign && !(l.len() >= 3 && l[1] == sign && l[2] == sign)
}

/// A line that begins with two at signs.
pub open spec fn at_at_line() -> spec_fn(Seq<char>) -> bool {
    |l: Seq<char>| l.len() >= 2 && l[0] == '@' && l[1] == '@'
}

proof fn lemma_three(line: Seq<char>, sign: char)
    requires
        sign == '+' || sign == '-',
    ensures
        sign == '+' ==> (text::starts(line, "+++"@) <==> line.len() >= 3 && line[0] == sign && line[1]
            == sign && line[2] == sign),
        sign == '-' ==> (text::starts(line, "---"@) <==> line.len() >= 3 && line[0] == sign && line[1]
            == sign && line[2] == sign),
{
    reveal_strlit("+++");
    reveal_strlit("---");
    let p = if sign == '+' {
        "+++"@
    } else {
        "---"@
    };
    if line.len() >= 3 && line[0] == sign && line[1] == sign && line[2] == sign {
        assert(p =~= line.subrange(0, 3));
    }
    if text::starts(line, p) {
        assert(line[0] == p[0] && line[1] == p[1] && line[2] == p[2]);
    }
}

proof fn lemma_diff_counts(lines: Seq<Seq<char>>, cut: Seq<Seq<char>>)
    requires
        cut == Seq::new(lines.len(), |i: int| capped(lines[i])),
    ensures
        added_count(cut) == lines.filter(signed_line('+')).len(),
        removed_count(cut) == lines.filter(signed_line('-')).len(),
        hunk_count(cut) == lines.filter(at_at_line()).len(),
        added_count(cut) <= lines.len(),
        removed_count(cut) <= lines.len(),
        hunk_count(cut) <= lines.len(),
    decreases lines.len(),
{
    reveal(Seq::filter);
    if lines.len() > 0 {
        let a = lines.drop_last();
        let b = cut.drop_last();
        assert(b =~= Seq::new(a.len(), |i: int| capped(a[i])));
        lemma_diff_counts(a, b);
        let l = lines.last();
        lemma_capped_begins(l, Seq::empty());
        reveal_strlit("@@");
        lemma_capped_begins(l, "@@"@);
        lemma_three(capped(l), '+');
        lemma_three(capped(l), '-');
        if text::starts(l, "@@"@) {
            assert(l[0] == "@@"@[0] && l[1] == "@@"@[1]);
        }
        if l.len() >= 2 && l[0] == '@' && l[1] == '@' {
            assert("@@"@ =~= l.subrange(0, 2));
        }
    }
}

proof fn lemma_diff_header_len(lines: Seq<Seq<char>>)
    requires
        lines.len() <= u64::MAX,
        hunk_count(lines) <= u64::MAX,
        added_count(lines) <= u64::MAX,
        removed_count(lines) <= u64::MAX,
    ensures
        text::byte_len(diff_header(lines)) <= 200,
{
    let t1 = "# kind=diff lines="@;
    let t2 = " hunks="@;
    let t3 = " added="@;
    let t4 = " removed="@;
    reveal_strlit("# kind=diff lines=");
    reveal_strlit(" hunks=");
    reveal_strlit(" added=");
    reveal_strlit(" removed=");
    lemma_ascii_len(t1);
    lemma_ascii_len(t2);
    lemma_ascii_len(t3);
    lemma_ascii_len(t4);
    let d1 = text::decimal(lines.len());
    let d2 = text::decimal(hunk_count(lines));
    let d3 = text::decimal(added_count(lines));
    let d4 = text::decimal(removed_count(lines));
    lemma_decimal_u64(lines.len());
    lemma_decimal_u64(hunk_count(lines));
    lemma_decimal_u64(added_count(lines));
    lemma_decimal_u64(removed_count(lines));
    text::lemma_byte_len_add(t1, d1);
    text::lemma_byte_len_add(t1 + d1, t2);
    text::lemma_byte_len_add(t1 + d1 + t2, d2);
    text::lemma_byte_len_add(t1 + d1 + t2 + d2, t3);
    text::lemma_byte_len_add(t1 + d1 + t2 + d2 + t3, d3);
    text::lemma_byte_len_add(t1 + d1 + t2 + d2 + t3 + d3, t4);
    text::lemma_byte_len_add(t1 + d1 + t2 + d2 + t3 + d3 + t4, d4);
}

/// The body of a diff opens with a line that counts the lines of the diff, its
/// hunks, the lines that it adds and those that it removes, each by what the lines
/// begin with. A text that a machine can hold has no more than `u64::MAX` lines.
pub proof fn law_a_diff_body_counts_its_lines(
    policy: Compressibility,
    raw: Seq<char>,
    compact: CompactRepresentation,
    record: CompressionRecord,
)
    requires
        compacted(EvidenceKind::Diff, policy, raw, compact, record),
        policy != Compressibility::LosslessOnly,
        text::lines_of(raw).len() <= u64::MAX,
    ensures
        ({
            let lines = text::lines_of(raw);
            let header = "# kind=diff lines="@ + text::decimal(lines.len()) + " hunks="@
                + text::decimal(lines.filter(at_at_line()).len()) + " added="@ + text::decimal(
                lines.filter(signed_line('+')).len(),
            ) + " removed="@ + text::decimal(lines.filter(signed_line('-')).len());
            &&& header.is_prefix_of(compact.body@)
            &&& compact.body@.len() > header.len() ==> compact.body@[header.len() as int] == '\n'
        }),
{
    let lines = text::lines_of(raw);
    let cut = capped_lines(raw);
    lemma_diff_counts(lines, cut);
    lemma_diff_header_len(cut);
    lemma_header_first(diff_header(cut), section_of(diff_rows(cut)), empty_section(), None);
}

proof fn lemma_filter_push(lines: Seq<Seq<char>>, line: Seq<char>, f: spec_fn(Seq<char>) -> bool)
    ensures
        lines.push(line).filter(f).len() == lines.filter(f).len() + (if f(line) {
            1nat
        } else {
            0nat
        }),
{
    reveal(Seq::filter);
    assert(lines.push(line).drop_last() =~= lines);
}

proof fn lemma_one_line_more(raw: Seq<char>, line: Seq<char>)
    requires
        raw.len() == 0 || raw.last() == '\n',
        line.len() > 0,
        !line.contains('\n'),
        line.last() != '\r',
    ensures
        text::lines_of(raw + line + seq!['\n']) == text::lines_of(raw).push(line),
{
    let more = raw + line + seq!['\n'];
    text::law_lines_of_texts_follow_on(raw, line + seq!['\n']);
    assert(raw + (line + seq!['\n']) =~= more);
    text::law_lines_end_at_line_feeds(line, Seq::empty());
    assert(line + seq!['\n'] + Seq::<char>::empty() =~= line + seq!['\n']);
    assert(text::lines_of(raw) + (seq![line] + Seq::<Seq<char>>::empty()) =~= text::lines_of(
        raw,
    ).push(line));
}

/// A line added to a diff raises the figure of the added lines by one, and a line
/// removed that of the removed lines; the other figure stays as it is. `f` are the
/// figures before: lines, hunks, added lines and removed lines.
pub proof fn law_one_more_line_counts_once(
    policy: Compressibility,
    raw: Seq<char>,
    line: Seq<char>,
    before: (CompactRepresentation, CompressionRecord),
    after: (CompactRepresentation, CompressionRecord),
) -> (f: (nat, nat, nat, nat))
    requires
        compacted(EvidenceKind::Diff, policy, raw, before.0, before.1),
        compacted(EvidenceKind::Diff, policy, raw + line + seq!['\n'], after.0, after.1),
        policy != Compressibility::LosslessOnly,
        text::lines_of(raw).len() < u64::MAX,
        raw.len() == 0 || raw.last() == '\n',
        line.len() > 0,
        !line.contains('\n'),
        line[0] == '+' || line[0] == '-',
        !(line.len() >= 3 && line[1] == line[0] && line[2] == line[0]),
        line.last() != '\r',
    ensures
        diff_opening(f.0, f.1, f.2, f.3).is_prefix_of(before.0.body@),
        line[0] == '+' ==> diff_opening(f.0 + 1, f.1, f.2 + 1, f.3).is_prefix_of(after.0.body@),
        line[0] == '-' ==> diff_opening(f.0 + 1, f.1, f.2, f.3 + 1).is_prefix_of(after.0.body@),
{
    let lines = text::lines_of(raw);
    lemma_one_line_more(raw, line);
    law_a_diff_body_counts_its_lines(policy, raw, before.0, before.1);
    law_a_diff_body_counts_its_lines(policy, raw + line + seq!['\n'], after.0, after.1);
    lemma_filter_push(lines, line, at_at_line());
    lemma_filter_push(lines, line, signed_line('+'));
    lemma_filter_push(lines, line, signed_line('-'));
    (
        lines.len(),
        lines.filter(at_at_line()).len(),
        lines.filter(signed_line('+')).len(),
        lines.filter(signed_line('-')).len(),
    )
}

/// How a diff body with these figures opens.
pub open spec fn diff_opening(lines: nat, hunks: nat, added: nat, removed: nat) -> Seq<char> {
    "# kind=diff lines="@ + text::decimal(lines) + " hunks="@ + text::decimal(hunks) + " added="@
        + text::decimal(added) + " removed="@ + text::decimal(removed)
}

/// The lines of a text are cut one by one.
pub proof fn law_each_line_is_cut_for_itself(raw: Seq<char>, i: int)
    ensures
        capped_lines(raw).len() == text::lines_of(raw).len(),
        0 <= i < text::lines_of(raw).len() ==> capped_lines(raw)[i] == capped(
            text::lines_of(raw)[i],
        ),
{
}

/// A row is taken where it and a separator still fit into 6144 bytes with the rows
/// that were taken before, and is else counted as left out.
pub proof fn law_one_more_row_is_taken_or_counted(rows: Seq<Seq<char>>, row: Seq<char>)
    ensures
        ({
            let before = section_of(rows);
            let after = section_of(rows.push(row));
            if rows_bytes(before.kept) + vstd::utf8::encode_utf8(row).len() + 1 <= 6144 {
                after.kept == before.kept.push(row) && after.dropped == before.dropped
            } else {
                after.kept == before.kept && after.dropped == before.dropped + 1
            }
        }),
        section_of(Seq::empty()).kept == Seq::<Seq<char>>::empty(),
        section_of(Seq::empty()).dropped == 0,
        rows_bytes(rows.push(row)) == rows_bytes(rows) + vstd::utf8::encode_utf8(row).len() + 1,
        rows_bytes(Seq::empty()) == 0,
{
    law_rows_that_fit_are_kept(rows);
    text::lemma_byte_len_encode(row);
    assert(rows.push(row).drop_last() =~= rows);
}

/// White space at the ends of a line does not count for its normal form, and
/// within the line any run of it counts as one space.
pub proof fn law_white_space_is_squeezed(s: Seq<char>, gap: Seq<char>, word: Seq<char>)
    requires
        forall|i: int| 0 <= i < gap.len() ==> text::is_ws(#[trigger] gap[i]),
        forall|i: int| 0 <= i < word.len() ==> !text::is_ws(#[trigger] word[i]),
    ensures
        squeezed(s + gap) == squeezed(s),
        squeezed(word) == word,
        squeezed(gap + word) == word,
        squeezed(s).len() > 0 && gap.len() > 0 && word.len() > 0 ==> squeezed(s + gap + word)
            == squeezed(s) + seq![' '] + word,
        squeezed(s).len() > 0 && !text::is_ws(s.last()) ==> squeezed(s + word) == squeezed(s) + word,
    decreases gap.len() + word.len(),
{
    lemma_squeezed_gap(s, gap);
    lemma_squeezed_gap(Seq::empty(), gap);
    assert(Seq::<char>::empty() + gap =~= gap);
    assert(squeezed(Seq::empty()) =~= Seq::<char>::empty());
    lemma_squeezed_word(Seq::empty(), word);
    assert(Seq::<char>::empty() + word =~= word);
    lemma_squeezed_word(gap, word);
    assert(squeezed(gap) =~= Seq::empty());
    assert(Seq::<char>::empty() + word =~= word);
    lemma_squeezed_word(s + gap, word);
    lemma_squeezed_word(s, word);
    if gap.len() > 0 {
        assert((s + gap).last() == gap[gap.len() - 1]);
    }
}

proof fn lemma_squeezed_gap(s: Seq<char>, gap: Seq<char>)
    requires
        forall|i: int| 0 <= i < gap.len() ==> text::is_ws(#[trigger] gap[i]),
    ensures
        squeezed(s + gap) == squeezed(s),
    decreases gap.len(),
{
    if gap.len() == 0 {
        assert(s + gap =~= s);
    } else {
        assert(text::is_ws(gap[gap.len() - 1]));
        assert((s + gap).last() == gap.last());
        assert((s + gap).drop_last() =~= s + gap.drop_last());
        lemma_squeezed_gap(s, gap.drop_last());
    }
}

proof fn lemma_squeezed_word(s: Seq<char>, word: Seq<char>)
    requires
        forall|i: int| 0 <= i < word.len() ==> !text::is_ws(#[trigger] word[i]),
    ensures
        word.len() > 0 ==> squeezed(s + word) == (if squeezed(s).len() > 0 && text::is_ws(
            s.last(),
        ) {
            squeezed(s) + seq![' '] + word
        } else {
            squeezed(s) + word
        }),
        word.len() == 0 ==> squeezed(s + word) == squeezed(s),
    decreases word.len(),
{
    if word.len() == 0 {
        assert(s + word =~= s);
    } else {
        let w = word.drop_last();
        let c = word.last();
        assert(!text::is_ws(word[word.len() - 1]));
        assert((s + word).last() == c);
        assert((s + word).drop_last() =~= s + w);
        lemma_squeezed_word(s, w);
        let whole = s + word;
        if w.len() > 0 {
            assert(whole[whole.len() - 2] == word[word.len() - 2]);
            assert(!text::is_ws(word[word.len() - 2]));
            assert(squeezed(s) + seq![' '] + word =~= (squeezed(s) + seq![' '] + w).push(c));
            assert(squeezed(s) + word =~= (squeezed(s) + w).push(c));
        } else {
            if s.len() > 0 {
                assert(whole[whole.len() - 2] == s.last());
            }
            assert(squeezed(s) + seq![' '] + word =~= squeezed(s).push(' ').push(c));
            assert(squeezed(s) + word =~= squeezed(s).push(c));
        }
    }
}

/// Two lines count as the same where their squeezed forms agree in their first 256
/// bytes.
pub proof fn law_normal_forms_are_short(s: Seq<char>, n: int)
    requires
        0 <= n <= squeezed(s).len(),
    ensures
        normal(s).is_prefix_of(squeezed(s)),
        vstd::utf8::encode_utf8(normal(s)).len() <= 256,
        vstd::utf8::encode_utf8(squeezed(s).take(n)).len() <= 256 ==> n <= normal(s).len(),
{
    text::law_a_cap_leaves_the_longest_prefix(squeezed(s), 256, n);
}

/// A line that names an error, a failure, a panic or an assertion, in whatever
/// case.
pub open spec fn telling_failure() -> spec_fn(Seq<char>) -> bool {
    |l: Seq<char>|
        text::has_ci(l, "error"@) || text::has_ci(l, "fail"@) || text::has_ci(l, "panic"@)
            || text::has_ci(l, "assert"@)
}

/// The failure rows of a text are its lines that name a failure, in their order.
pub proof fn law_failure_rows_are_the_lines_that_name_one(lines: Seq<Seq<char>>)
    ensures
        failure_rows(lines) == lines.filter(telling_failure()),
        lines.len() > 0 ==> is_failure(lines[0]) == telling_failure()(lines[0]),
    decreases lines.len(),
{
    reveal(Seq::filter);
    if lines.len() > 0 {
        law_failure_rows_are_the_lines_that_name_one(lines.drop_last());
    }
}

/// Lines of a log that follow each other, name no failure and have one normal form
/// are shown once, with how often they came where that is more than once; the rows
/// of the rest follow. A line that names a failure stands among the failures
/// instead.
pub proof fn law_runs_are_shown_once(run: Seq<Seq<char>>, rest: Seq<Seq<char>>)
    requires
        run.len() >= 1,
        forall|i: int| 0 <= i < run.len() ==> !telling_failure()(#[trigger] run[i]),
        forall|i: int| 0 <= i < run.len() ==> normal(#[trigger] run[i]) == normal(run[0]),
        rest.len() > 0 ==> telling_failure()(rest[0]) || normal(rest[0]) != normal(run[0]),
    ensures
        run.len() == 1 ==> log_rows(run + rest) == seq![run[0]] + log_rows(rest),
        run.len() >= 2 ==> log_rows(run + rest) == seq![
            run[0] + " x"@ + text::decimal(run.len()),
        ] + log_rows(rest),
        collapsed_runs(run + rest) == collapsed_runs(rest) + (if run.len() >= 2 {
            1nat
        } else {
            0nat
        }),
{
    let all = run + rest;
    assert forall|j: int| 0 <= j < run.len() implies !is_failure(#[trigger] all[j]) by {
        assert(all[j] == run[j]);
    }
    assert forall|j: int| 0 <= j < run.len() implies normal(#[trigger] all[j]) == normal(
        all[0],
    ) by {
        assert(all[j] == run[j] && all[0] == run[0]);
    }
    if rest.len() > 0 {
        assert(all[run.len() as int] == rest[0]);
    }
    lemma_run_is(all, run.len());
    assert(all.skip(run.len() as int) =~= rest);
    assert(!is_failure(all[0]));
}

/// The same of a line that names a failure, and of no lines at all.
pub proof fn law_failures_break_runs(line: Seq<char>, rest: Seq<Seq<char>>)
    requires
        telling_failure()(line),
    ensures
        log_rows(seq![line] + rest) == log_rows(rest),
        collapsed_runs(seq![line] + rest) == collapsed_runs(rest),
        log_rows(Seq::empty()) == Seq::<Seq<char>>::empty(),
        collapsed_runs(Seq::empty()) == 0,
{
    assert((seq![line] + rest).drop_first() =~= rest);
    assert((seq![line] + rest)[0] == line);
}

/// A line of a test report that names no failure: ignored where it says so.
pub open spec fn telling_ignored() -> spec_fn(Seq<char>) -> bool {
    |l: Seq<char>| !telling_failure()(l) && text::has_ci(l, "ignored"@)
}

/// A line of a test report that names no failure and is not ignored: passed where
/// it says ok.
pub open spec fn telling_passed() -> spec_fn(Seq<char>) -> bool {
    |l: Seq<char>|
        !telling_failure()(l) && !text::has_ci(l, "ignored"@) && (text::has_ci(l, " ok"@)
            || ("ok "@).is_prefix_of(text::trim_start(l)))
}

/// The rows of a test report are counted by what they say.
pub proof fn law_test_rows_are_counted_by_what_they_say(lines: Seq<Seq<char>>)
    ensures
        class_count(lines, RowClass::Failed) == lines.filter(telling_failure()).len(),
        class_count(lines, RowClass::Ignored) == lines.filter(telling_ignored()).len(),
        class_count(lines, RowClass::Passed) == lines.filter(telling_passed()).len(),
        class_count(lines, RowClass::Failed) + class_count(lines, RowClass::Ignored) + class_count(
            lines,
            RowClass::Passed,
        ) <= lines.len(),
    decreases lines.len(),
{
    reveal(Seq::filter);
    if lines.len() > 0 {
        law_test_rows_are_counted_by_what_they_say(lines.drop_last());
    }
}

proof fn lemma_remembers(keys: Seq<Seq<char>>, key: Seq<char>)
    requires
        keys.len() <= 4096,
    ensures
        remembered(keys).contains(key) <==> keys.contains(key),
        remembered(keys).len() <= keys.len(),
    decreases keys.len(),
{
    if keys.len() > 0 {
        let rest = keys.drop_last();
        let last = keys.last();
        lemma_remembers(rest, key);
        lemma_remembers(rest, last);
        let before = remembered(rest);
        let now = before.push(last);
        if keys.contains(key) {
            let k = choose|k: int| 0 <= k < keys.len() && keys[k] == key;
            if k < rest.len() {
                assert(rest[k] == key);
                let j = choose|j: int| 0 <= j < before.len() && before[j] == key;
                assert(now[j] == key);
            } else {
                assert(now[before.len() as int] == key);
            }
        }
        if rest.contains(key) {
            let k = choose|k: int| 0 <= k < rest.len() && rest[k] == key;
            assert(keys[k] == key);
        }
        if now.contains(key) {
            let j = choose|j: int| 0 <= j < now.len() && now[j] == key;
            if j < before.len() {
                assert(before[j] == key);
            } else {
                assert(keys[keys.len() - 1] == key);
            }
        }
    }
}

/// Of the rows with one key the first is kept, as long as no more than 4096 rows
/// came before.
pub proof fn law_the_first_row_of_a_key_is_kept(
    rows: Seq<Seq<char>>,
    keys: Seq<Seq<char>>,
    row: Seq<char>,
    key: Seq<char>,
)
    requires
        rows.len() == keys.len(),
        keys.len() <= 4096,
    ensures
        keys.contains(key) ==> fresh_rows(rows.push(row), keys.push(key)) == fresh_rows(rows, keys),
        !keys.contains(key) ==> fresh_rows(rows.push(row), keys.push(key)) == fresh_rows(
            rows,
            keys,
        ).push(row),
        fresh_rows(Seq::empty(), keys) == Seq::<Seq<char>>::empty(),
{
    lemma_remembers(keys, key);
    assert(rows.push(row).drop_last() =~= rows);
    assert(keys.push(key).drop_last() =~= keys);
}

/// A row that names a place counts by its path and its line, whatever follows; one
/// without a colon counts by its normal form.
pub proof fn law_rows_count_by_their_place(
    path: Seq<char>,
    n: u64,
    rest: Seq<char>,
    line: Seq<char>,
)
    requires
        path.len() > 0,
        !path.contains(':'),
        !text::is_ws(path[0]),
        !text::is_ws(path.last()),
        !line.contains(':'),
    ensures
        row_key(path + seq![':'] + text::decimal(n as nat) + seq![':'] + rest) == path + seq![':']
            + text::decimal(n as nat),
        row_key(line) == normal(line),
{
    lemma_place_key(path, text::decimal(n as nat), n, rest);
    text::lemma_first_index_props(line, ':');
}

proof fn lemma_place_key(path: Seq<char>, d: Seq<char>, n: u64, rest: Seq<char>)
    requires
        path.len() > 0,
        !path.contains(':'),
        !text::is_ws(path[0]),
        !text::is_ws(path.last()),
        d == text::decimal(n as nat),
    ensures
        row_key(path + seq![':'] + d + seq![':'] + rest) == path + seq![':'] + d,
{
    text::lemma_decimal_value(n as nat);
    assert forall|i: int| 0 <= i < d.len() implies (#[trigger] d[i]) != ':' by {
        assert(text::is_dec_digit(d[i]));
    }
    lemma_columns(path, d, rest);
    assert(text::is_dec_digit(d[0]) && text::is_dec_digit(d[d.len() - 1]));
    lemma_digit_is_no_space(d[0]);
    lemma_digit_is_no_space(d[d.len() - 1]);
    lemma_trim_plain(d);
    lemma_trim_plain(path);
    text::law_decimals_read_back(n as nat, u64::MAX as nat);
}

proof fn lemma_trim_plain(s: Seq<char>)
    requires
        s.len() > 0,
        !text::is_ws(s[0]),
        !text::is_ws(s.last()),
    ensures
        text::trim(s) == s,
{
    text::law_trimming_leaves_the_text(Seq::empty(), s, Seq::empty());
    assert(Seq::<char>::empty() + s + Seq::<char>::empty() =~= s);
}

/// The first two columns of a line.
proof fn lemma_columns(a: Seq<char>, b: Seq<char>, rest: Seq<char>)
    requires
        !a.contains(':'),
        forall|i: int| 0 <= i < b.len() ==> (#[trigger] b[i]) != ':',
    ensures
        ({
            let whole = a + seq![':'] + b + seq![':'] + rest;
            &&& text::first_index(whole, ':') == a.len()
            &&& text::first_index(whole, ':') < whole.len()
            &&& first_column(whole) == a
            &&& second_column(whole) == b
        }),
{
    let whole = a + seq![':'] + b + seq![':'] + rest;
    let tail = b + seq![':'] + rest;
    assert forall|j: int| 0 <= j < a.len() implies whole[j] != ':' by {
        assert(whole[j] == a[j]);
        assert(a.contains(a[j]));
    }
    assert(whole[a.len() as int] == ':');
    text::lemma_first_index(whole, ':', a.len() as int);
    assert(whole.take(a.len() as int) =~= a);
    assert(whole.skip(a.len() as int + 1) =~= tail);
    assert forall|j: int| 0 <= j < b.len() implies tail[j] != ':' by {
        assert(tail[j] == b[j]);
    }
    assert(tail[b.len() as int] == ':');
    text::lemma_first_index(tail, ':', b.len() as int);
    assert(tail.take(b.len() as int) =~= b);
}

proof fn lemma_digit_is_no_space(c: char)
    requires
        text::is_dec_digit(c),
    ensures
        !text::is_ws(c),
{
}

/// A row of a table is the first six words of a line, with a tab between each two;
/// a blank line is no row.
pub proof fn law_table_rows_are_words(lines: Seq<Seq<char>>, line: Seq<char>)
    ensures
        ({
            let words = text::words(line);
            let first = words.take(
                if words.len() < 6 {
                    words.len() as int
                } else {
                    6
                },
            );
            &&& words.len() == 0 ==> table_rows(lines.push(line)) == table_rows(lines)
            &&& words.len() > 0 ==> table_rows(lines.push(line)) == table_rows(lines).push(
                text::join(first, seq!['\t']),
            )
        }),
        table_rows(Seq::empty()) == Seq::<Seq<char>>::empty(),
{
    assert(lines.push(line).drop_last() =~= lines);
    let words = text::words(line);
    assert(words.take(words.len() as int) =~= words);
}

/// A summary keeps the first 24 lines that fit, and counts the others.
pub proof fn law_a_summary_keeps_the_first_lines(lines: Seq<Seq<char>>)
    ensures
        lines.len() <= 24 ==> first_rows(lines) == section_of(lines),
        first_rows(lines).kept.len() <= 24,
        first_rows(lines).kept.len() + first_rows(lines).dropped == lines.len(),
        lines.len() >= 24 && rows_bytes(lines.take(24)) <= 6144 ==> first_rows(lines).kept
            == lines.take(24),
        rows_bytes(first_rows(lines).kept) <= 6144,
        first_rows(lines).bytes == rows_bytes(first_rows(lines).kept),
    decreases lines.len(),
{
    if lines.len() > 0 {
        let rest = lines.drop_last();
        law_a_summary_keeps_the_first_lines(rest);
        let before = first_rows(rest);
        assert(before.kept.push(lines.last()).drop_last() =~= before.kept);
        if lines.len() <= 24 {
            law_rows_that_fit_are_kept(lines);
            law_rows_that_fit_are_kept(rest);
            if lines.len() == 24 {
                assert(lines.take(24) =~= lines);
            }
        } else {
            assert(rest.take(24) =~= lines.take(24));
        }
    }
}

/// A hunk is shown by its header and its first three lines, and a file by its
/// header lines.
pub proof fn law_hunks_are_shown_by_their_first_lines(
    before: Seq<Seq<char>>,
    header: Seq<char>,
    content: Seq<Seq<char>>,
)
    requires
        ("@@"@).is_prefix_of(header),
        forall|i: int|
            0 <= i < content.len() ==> !is_hunk(#[trigger] content[i]) && !is_file_header(
                content[i],
            ),
    ensures
        diff_rows(before + seq![header] + content) == diff_rows(before) + seq![header]
            + content.take(
            if content.len() < 3 {
                content.len() as int
            } else {
                3
            },
        ),
        hunk_fill(before + seq![header] + content) == (if content.len() < 3 {
            content.len()
        } else {
            3
        }),
    decreases content.len(),
{
    let all = before + seq![header] + content;
    let k: int = if content.len() < 3 {
        content.len() as int
    } else {
        3
    };
    if content.len() == 0 {
        assert(all =~= before.push(header));
        assert(all.drop_last() =~= before);
        assert(diff_rows(all) =~= diff_rows(before) + seq![header] + content.take(k));
    } else {
        let less = content.drop_last();
        assert forall|i: int| 0 <= i < less.len() implies !is_hunk(#[trigger] less[i])
            && !is_file_header(less[i]) by {
            assert(less[i] == content[i]);
        }
        law_hunks_are_shown_by_their_first_lines(before, header, less);
        assert(all.drop_last() =~= before + seq![header] + less);
        assert(all.last() == content.last());
        assert(!is_hunk(content[content.len() - 1]));
        if content.len() <= 3 {
            assert(content.take(k) =~= less.take(less.len() as int).push(content.last()));
            assert(diff_rows(before) + seq![header] + content.take(k) =~= (diff_rows(before)
                + seq![header] + less.take(less.len() as int)).push(content.last()));
        } else {
            assert(content.take(3) =~= less.take(3));
        }
    }
}

/// Which lines head a hunk or a file.
pub proof fn law_headers_are_told_by_how_they_begin(lines: Seq<Seq<char>>, rest: Seq<char>)
    ensures
        is_hunk("@@"@ + rest),
        is_file_header("+++"@ + rest),
        is_file_header("---"@ + rest),
        is_file_header("diff "@ + rest),
        is_file_header("index "@ + rest),
        rest.len() > 0 && (rest[0] == ' ' || rest[0] == '\\') ==> !is_hunk(rest) && !is_file_header(
            rest,
        ),
        rest.len() > 1 && (rest[0] == '+' || rest[0] == '-') && rest[1] != rest[0] ==> !is_hunk(rest)
            && !is_file_header(rest),
        is_file_header(rest) ==> diff_rows(lines.push(rest)) == diff_rows(lines).push(rest)
            && (!is_hunk(rest) ==> hunk_fill(lines.push(rest)) == hunk_fill(lines)),
{
    reveal_strlit("@@");
    reveal_strlit("+++");
    reveal_strlit("---");
    reveal_strlit("diff ");
    reveal_strlit("index ");
    assert("@@"@ =~= ("@@"@ + rest).subrange(0, 2));
    assert("+++"@ =~= ("+++"@ + rest).subrange(0, 3));
    assert("---"@ =~= ("---"@ + rest).subrange(0, 3));
    assert("diff "@ =~= ("diff "@ + rest).subrange(0, 5));
    assert("index "@ =~= ("index "@ + rest).subrange(0, 6));
    if text::starts(rest, "@@"@) {
        assert(rest[0] == "@@"@[0]);
    }
    if text::starts(rest, "+++"@) {
        assert(rest[0] == "+++"@[0] && rest[1] == "+++"@[1]);
    }
    if text::starts(rest, "---"@) {
        assert(rest[0] == "---"@[0] && rest[1] == "---"@[1]);
    }
    if text::starts(rest, "diff "@) {
        assert(rest[0] == "diff "@[0]);
    }
    if text::starts(rest, "index "@) {
        assert(rest[0] == "index "@[0]);
    }
    assert(lines.push(rest).drop_last() =~= lines);
}

/// What stands in a body for `n` rows left out.
pub open spec fn left_out(n: nat, what: Seq<char>) -> Seq<Seq<char>> {
    if n == 0 {
        Seq::empty()
    } else {
        seq!["... "@ + text::decimal(n) + " more "@ + what + " omitted ..."@]
    }
}

proof fn lemma_left_out(n: nat)
    ensures
        left_out(n, "lines"@) == row_if(n > 0, omitted_row(n)),
        left_out(n, "failure lines"@) == row_if(n > 0, omitted_failures_row(n)),
{
    reveal_strlit(" more ");
    reveal_strlit("lines");
    reveal_strlit("failure lines");
    reveal_strlit(" omitted ...");
    reveal_strlit(" more lines omitted ...");
    reveal_strlit(" more failure lines omitted ...");
    assert(" more lines omitted ..."@ =~= " more "@ + "lines"@ + " omitted ..."@);
    assert(" more failure lines omitted ..."@ =~= " more "@ + "failure lines"@ + " omitted ..."@);
    assert("... "@ + text::decimal(n) + " more "@ + "lines"@ + " omitted ..."@ =~= omitted_row(n));
    assert("... "@ + text::decimal(n) + " more "@ + "failure lines"@ + " omitted ..."@
        =~= omitted_failures_row(n));
}

/// A body of a header and of rows that keep to a budget.
proof fn lemma_head_body(header: Seq<char>, head: Section)
    requires
        text::byte_len(header) <= 1000,
        rows_bytes(head.kept) <= SECTION_BYTES,
        head.dropped <= u64::MAX,
    ensures
        body_of(header, head, empty_section(), None) == text::join(
            seq![header] + head.kept + left_out(head.dropped, "lines"@),
            seq!['\n'],
        ),
{
    assert(rows_bytes(empty_section().kept) == 0);
    lemma_body_uncut(header, head, empty_section(), None);
    lemma_left_out(head.dropped);
    assert(seq![header] + body_rows(head, empty_section(), None) =~= seq![header] + head.kept
        + left_out(head.dropped, "lines"@));
}

proof fn lemma_label_len(kind: EvidenceKind)
    ensures
        text::byte_len(label_of(kind)) <= 20,
{
    reveal_strlit("diagnostic_set");
    reveal_strlit("test_report");
    reveal_strlit("search_results");
    reveal_strlit("file_map");
    reveal_strlit("diff");
    reveal_strlit("process_log");
    reveal_strlit("symbol_set");
    reveal_strlit("structured_rows");
    reveal_strlit("child_handoff");
    reveal_strlit("semantic_context");
    reveal_strlit("generic_text");
    lemma_ascii_len(label_of(kind));
}

/// A text with a number behind it.
proof fn lemma_figure_len(t: Seq<char>, label: Seq<char>, n: nat)
    requires
        n <= u64::MAX,
        label.len() <= 100,
        forall|i: int| 0 <= i < label.len() ==> (#[trigger] label[i]) as u32 <= 0x7f,
    ensures
        text::byte_len(t + label + text::decimal(n)) <= text::byte_len(t) + label.len() + 20,
{
    lemma_ascii_len(label);
    lemma_decimal_u64(n);
    text::lemma_byte_len_add(t, label);
    text::lemma_byte_len_add(t + label, text::decimal(n));
}

proof fn lemma_fresh_few(rows: Seq<Seq<char>>, keys: Seq<Seq<char>>)
    ensures
        fresh_rows(rows, keys).len() <= rows.len(),
    decreases rows.len(),
{
    if rows.len() > 0 {
        lemma_fresh_few(rows.drop_last(), keys.drop_last());
    }
}

proof fn lemma_table_few(lines: Seq<Seq<char>>)
    ensures
        table_rows(lines).len() <= lines.len(),
    decreases lines.len(),
{
    if lines.len() > 0 {
        lemma_table_few(lines.drop_last());
    }
}

proof fn lemma_diff_few(lines: Seq<Seq<char>>)
    ensures
        diff_rows(lines).len() <= lines.len(),
        hunk_count(lines) <= lines.len(),
        added_count(lines) <= lines.len(),
        removed_count(lines) <= lines.len(),
    decreases lines.len(),
{
    if lines.len() > 0 {
        lemma_diff_few(lines.drop_last());
    }
}

/// The body of a text whose first lines are shown: the kind, how many lines the
/// text has and how many are shown, then these lines, and how many were left out.
pub proof fn law_a_summary_shows_first_lines(
    kind: EvidenceKind,
    policy: Compressibility,
    raw: Seq<char>,
    compact: CompactRepresentation,
    record: CompressionRecord,
)
    requires
        compacted(kind, policy, raw, compact, record),
        kind is ChildHandoff || kind is SemanticContext || kind is GenericText || policy
            is Reversible && !(kind is Diff),
        !(policy is LosslessOnly),
        text::lines_of(raw).len() <= u64::MAX,
    ensures
        ({
            let shown = first_rows(capped_lines(raw));
            let header = "# kind="@ + label_of(kind) + " lines="@ + text::decimal(
                text::lines_of(raw).len(),
            ) + " kept="@ + text::decimal(shown.kept.len());
            compact.body@ == text::join(
                seq![header] + shown.kept + left_out(shown.dropped, "lines"@),
                seq!['\n'],
            )
        }),
{
    let lines = capped_lines(raw);
    let shown = first_rows(lines);
    law_a_summary_keeps_the_first_lines(lines);
    lemma_label_len(kind);
    reveal_strlit("# kind=");
    reveal_strlit(" lines=");
    reveal_strlit(" kept=");
    let a = "# kind="@ + label_of(kind);
    lemma_ascii_len("# kind="@);
    text::lemma_byte_len_add("# kind="@, label_of(kind));
    lemma_figure_len(a, " lines="@, lines.len());
    let b = a + " lines="@ + text::decimal(lines.len());
    lemma_figure_len(b, " kept="@, shown.kept.len());
    lemma_head_body(summary_header(label_of(kind), lines), shown);
}

/// The body of diagnostics or search hits: how many lines the text has, how many
/// of them are the first of their key and how many are not, then the first ones.
pub proof fn law_diagnostics_show_the_first_of_each_place(
    kind: EvidenceKind,
    raw: Seq<char>,
    compact: CompactRepresentation,
    record: CompressionRecord,
)
    requires
        compacted(kind, Compressibility::Aggressive, raw, compact, record),
        kind is DiagnosticSet || kind is SearchResults,
        text::lines_of(raw).len() <= u64::MAX,
    ensures
        ({
            let lines = capped_lines(raw);
            let rows = fresh_rows(lines, Seq::new(lines.len(), |i: int| row_key(lines[i])));
            let shown = section_of(rows);
            let header = "# kind="@ + label_of(kind) + " lines="@ + text::decimal(lines.len())
                + " unique="@ + text::decimal(rows.len()) + " duplicates="@ + text::decimal(
                (lines.len() - rows.len()) as nat,
            );
            compact.body@ == text::join(
                seq![header] + shown.kept + left_out(shown.dropped, "lines"@),
                seq!['\n'],
            )
        }),
{
    let lines = capped_lines(raw);
    let rows = fresh_rows(lines, row_keys(lines));
    let shown = section_of(rows);
    assert(row_keys(lines) =~= Seq::new(lines.len(), |i: int| row_key(lines[i])));
    lemma_fresh_few(lines, row_keys(lines));
    law_rows_that_fit_are_kept(rows);
    lemma_label_len(kind);
    reveal_strlit("# kind=");
    reveal_strlit(" lines=");
    reveal_strlit(" unique=");
    reveal_strlit(" duplicates=");
    let a = "# kind="@ + label_of(kind);
    lemma_ascii_len("# kind="@);
    text::lemma_byte_len_add("# kind="@, label_of(kind));
    lemma_figure_len(a, " lines="@, lines.len());
    let b = a + " lines="@ + text::decimal(lines.len());
    lemma_figure_len(b, " unique="@, rows.len());
    let c = b + " unique="@ + text::decimal(rows.len());
    lemma_figure_len(c, " duplicates="@, (lines.len() - rows.len()) as nat);
    lemma_head_body(dedupe_header(label_of(kind), lines), shown);
}

/// The body of a table: how many lines the text has, how many rows of it are kept
/// and how many came again, then the kept ones.
pub proof fn law_tables_show_each_row_once(
    kind: EvidenceKind,
    raw: Seq<char>,
    compact: CompactRepresentation,
    record: CompressionRecord,
)
    requires
        compacted(kind, Compressibility::Aggressive, raw, compact, record),
        kind is FileMap || kind is SymbolSet || kind is StructuredRows,
        text::lines_of(raw).len() <= u64::MAX,
    ensures
        ({
            let lines = capped_lines(raw);
            let all = table_rows(lines);
            let rows = fresh_rows(all, all);
            let shown = section_of(rows);
            let header = "# kind="@ + label_of(kind) + " lines="@ + text::decimal(lines.len())
                + " kept="@ + text::decimal(rows.len()) + " duplicates="@ + text::decimal(
                (all.len() - rows.len()) as nat,
            );
            compact.body@ == text::join(
                seq![header] + shown.kept + left_out(shown.dropped, "lines"@),
                seq!['\n'],
            )
        }),
{
    let lines = capped_lines(raw);
    let all = table_rows(lines);
    let rows = fresh_rows(all, all);
    let shown = section_of(rows);
    lemma_fresh_few(all, all);
    lemma_table_few(lines);
    law_rows_that_fit_are_kept(rows);
    lemma_label_len(kind);
    reveal_strlit("# kind=");
    reveal_strlit(" lines=");
    reveal_strlit(" kept=");
    reveal_strlit(" duplicates=");
    let a = "# kind="@ + label_of(kind);
    lemma_ascii_len("# kind="@);
    text::lemma_byte_len_add("# kind="@, label_of(kind));
    lemma_figure_len(a, " lines="@, lines.len());
    let b = a + " lines="@ + text::decimal(lines.len());
    lemma_figure_len(b, " kept="@, rows.len());
    let c = b + " kept="@ + text::decimal(rows.len());
    lemma_figure_len(c, " duplicates="@, (all.len() - rows.len()) as nat);
    lemma_head_body(table_header(label_of(kind), lines), shown);
}

/// The body of a diff: its figures, then the rows that show it.
pub proof fn law_a_diff_shows_its_hunks(
    policy: Compressibility,
    raw: Seq<char>,
    compact: CompactRepresentation,
    record: CompressionRecord,
)
    requires
        compacted(EvidenceKind::Diff, policy, raw, compact, record),
        !(policy is LosslessOnly),
        text::lines_of(raw).len() <= u64::MAX,
    ensures
        ({
            let lines = text::lines_of(raw);
            let shown = section_of(diff_rows(capped_lines(raw)));
            let header = diff_opening(
                lines.len(),
                lines.filter(at_at_line()).len(),
                lines.filter(signed_line('+')).len(),
                lines.filter(signed_line('-')).len(),
            );
            compact.body@ == text::join(
                seq![header] + shown.kept + left_out(shown.dropped, "lines"@),
                seq!['\n'],
            )
        }),
{
    let cut = capped_lines(raw);
    lemma_diff_counts(text::lines_of(raw), cut);
    lemma_diff_few(cut);
    lemma_diff_header_len(cut);
    law_rows_that_fit_are_kept(diff_rows(cut));
    lemma_head_body(diff_header(cut), section_of(diff_rows(cut)));
}

/// The body of a test report: how many lines it has, how many of them speak of a
/// test and with which outcome, then the failed ones.
pub proof fn law_a_test_report_shows_its_failures(
    raw: Seq<char>,
    compact: CompactRepresentation,
    record: CompressionRecord,
)
    requires
        compacted(EvidenceKind::TestReport, Compressibility::Aggressive, raw, compact, record),
        text::lines_of(raw).len() <= u64::MAX,
    ensures
        ({
            let lines = capped_lines(raw);
            let failed = lines.filter(telling_failure());
            let passed = lines.filter(telling_passed()).len();
            let ignored = lines.filter(telling_ignored()).len();
            let shown = section_of(failed);
            let header = "# kind=test_report lines="@ + text::decimal(lines.len()) + " rows="@
                + text::decimal(passed + failed.len() + ignored) + " passed="@ + text::decimal(
                passed,
            ) + " failed="@ + text::decimal(failed.len()) + " ignored="@ + text::decimal(ignored);
            compact.body@ == text::join(
                seq![header] + left_out(shown.dropped, "failure lines"@) + shown.kept,
                seq!['\n'],
            )
        }),
{
    let lines = capped_lines(raw);
    law_failure_rows_are_the_lines_that_name_one(lines);
    law_test_rows_are_counted_by_what_they_say(lines);
    let failed = lines.filter(telling_failure());
    let passed = lines.filter(telling_passed()).len();
    let ignored = lines.filter(telling_ignored()).len();
    let shown = section_of(failed);
    law_rows_that_fit_are_kept(failed);
    lemma_failure_rows_few(lines);
    reveal_strlit("# kind=test_report lines=");
    reveal_strlit(" rows=");
    reveal_strlit(" passed=");
    reveal_strlit(" failed=");
    reveal_strlit(" ignored=");
    let a = "# kind=test_report lines="@ + text::decimal(lines.len());
    lemma_figure_len(Seq::empty(), "# kind=test_report lines="@, lines.len());
    assert(Seq::<char>::empty() + "# kind=test_report lines="@ + text::decimal(lines.len()) =~= a);
    lemma_figure_len(a, " rows="@, passed + failed.len() + ignored);
    let b = a + " rows="@ + text::decimal(passed + failed.len() + ignored);
    lemma_figure_len(b, " passed="@, passed);
    let c = b + " passed="@ + text::decimal(passed);
    lemma_figure_len(c, " failed="@, failed.len());
    let d = c + " failed="@ + text::decimal(failed.len());
    lemma_figure_len(d, " ignored="@, ignored);
    lemma_left_out(shown.dropped);
    assert(rows_bytes(empty_section().kept) == 0);
    lemma_body_uncut(test_header(lines), empty_section(), shown, None);
    assert(seq![test_header(lines)] + body_rows(empty_section(), shown, None) =~= seq![
        test_header(lines),
    ] + left_out(shown.dropped, "failure lines"@) + shown.kept);
}

/// The body of a process log: how many lines it has, how many runs were shown as
/// one row and how many lines name a failure; then the rows of the runs, the lines
/// that name a failure, and the last line where it is not among them.
pub proof fn law_a_log_shows_runs_failures_and_its_end(
    raw: Seq<char>,
    compact: CompactRepresentation,
    record: CompressionRecord,
)
    requires
        compacted(EvidenceKind::ProcessLog, Compressibility::Aggressive, raw, compact, record),
        1 <= text::lines_of(raw).len() <= u64::MAX,
    ensures
        ({
            let lines = capped_lines(raw);
            let failed = lines.filter(telling_failure());
            let runs = section_of(log_rows(lines));
            let failures = section_of(failed);
            let header = "# kind=process_log lines="@ + text::decimal(lines.len())
                + " collapsed_runs="@ + text::decimal(collapsed_runs(lines)) + " failures="@
                + text::decimal(failed.len());
            let end = if runs.kept.contains(lines.last()) || failures.kept.contains(lines.last()) {
                Seq::<Seq<char>>::empty()
            } else {
                seq![lines.last()]
            };
            compact.body@ == text::join(
                seq![header] + runs.kept + left_out(runs.dropped, "lines"@) + left_out(
                    failures.dropped,
                    "failure lines"@,
                ) + failures.kept + end,
                seq!['\n'],
            )
        }),
{
    let lines = capped_lines(raw);
    lemma_log_uncut(raw);
    law_failure_rows_are_the_lines_that_name_one(lines);
    let runs = section_of(log_rows(lines));
    let failures = section_of(failure_rows(lines));
    lemma_left_out(runs.dropped);
    lemma_left_out(failures.dropped);
    let end = if runs.kept.contains(lines.last()) || failures.kept.contains(lines.last()) {
        Seq::<Seq<char>>::empty()
    } else {
        seq![lines.last()]
    };
    assert(seq![log_header(lines)] + body_rows(runs, failures, last_of(lines)) =~= seq![
        log_header(lines),
    ] + runs.kept + left_out(runs.dropped, "lines"@) + left_out(
        failures.dropped,
        "failure lines"@,
    ) + failures.kept + end);
}

/// What a compaction gives beside the body: the name of the body's grammar, and a
/// record of both lengths in bytes, of what was lost, and of the digest of the
/// text. A verbatim copy loses nothing, and needs no digest.
pub proof fn law_a_record_accounts_for_the_body(
    kind: EvidenceKind,
    policy: Compressibility,
    raw: Seq<char>,
    compact: CompactRepresentation,
    record: CompressionRecord,
)
    requires
        compacted(kind, policy, raw, compact, record),
    ensures
        record.original_bytes == vstd::utf8::encode_utf8(raw).len(),
        record.compact_bytes == vstd::utf8::encode_utf8(compact.body@).len(),
        record.algorithm@ == "faktor-compress-v1"@,
        record.version == 1,
        !(policy is Never),
        policy is LosslessOnly ==> compact.body@ == raw && compact.grammar@ == "identity-v1"@
            && record.lossiness is Lossless && record.backing_digest is None,
        policy is Reversible ==> record.lossiness is Structured,
        policy is Aggressive ==> record.lossiness is Content,
        policy is Reversible || policy is Aggressive ==> (record.backing_digest matches Some(d)
            && d@ == digest::blake3_of(vstd::utf8::encode_utf8(raw))) && compact.grammar@ == (
        match kind {
            EvidenceKind::DiagnosticSet => "diag-v1"@,
            EvidenceKind::TestReport => "test-v1"@,
            EvidenceKind::SearchResults => "search-v1"@,
            EvidenceKind::FileMap => "filemap-v1"@,
            EvidenceKind::Diff => "diff-v1"@,
            EvidenceKind::ProcessLog => "log-v1"@,
            EvidenceKind::SymbolSet => "symbol-v1"@,
            EvidenceKind::StructuredRows => "rows-v1"@,
            EvidenceKind::ChildHandoff => "handoff-v1"@,
            EvidenceKind::SemanticContext => "semantic-v1"@,
            EvidenceKind::GenericText => "text-v1"@,
        }),
{
    text::lemma_byte_len_encode(raw);
    text::lemma_byte_len_encode(compact.body@);
}

/// The label of a kind, which its headers and its rows carry.
pub proof fn law_kinds_have_labels_of_their_own(kind: EvidenceKind)
    ensures
        label_of(kind) == (match kind {
            EvidenceKind::DiagnosticSet => "diagnostic_set"@,
            EvidenceKind::TestReport => "test_report"@,
            EvidenceKind::SearchResults => "search_results"@,
            EvidenceKind::FileMap => "file_map"@,
            EvidenceKind::Diff => "diff"@,
            EvidenceKind::ProcessLog => "process_log"@,
            EvidenceKind::SymbolSet => "symbol_set"@,
            EvidenceKind::StructuredRows => "structured_rows"@,
            EvidenceKind::ChildHandoff => "child_handoff"@,
            EvidenceKind::SemanticContext => "semantic_context"@,
            EvidenceKind::GenericText => "generic_text"@,
        }),
{
}

/// Which kinds may be compacted how: a text of no known structure is only ever
/// copied, what a reader must be able to follow stays reversible, and the rest may
/// lose content.
pub proof fn law_the_policy_of_a_kind(kind: EvidenceKind)
    ensures
        kind.policy() is LosslessOnly <==> kind is GenericText,
        kind.policy() is Reversible <==> kind is Diff || kind is ChildHandoff || kind
            is SemanticContext,
        kind.policy() is Aggressive <==> !(kind is GenericText || kind is Diff || kind
            is ChildHandoff || kind is SemanticContext),
{
}

/// Compaction is refused where it is forbidden, and where a reversible one would
/// rest on a backing that is cut off. The refusal names the kind.
pub proof fn law_what_is_not_compacted(
    kind: EvidenceKind,
    policy: Compressibility,
    completeness: BackingCompleteness,
)
    ensures
        compactable(policy, completeness) <==> policy is LosslessOnly || policy is Aggressive || (
        policy is Reversible && completeness is Complete),
        name_of(kind).is_prefix_of(refusal_text(kind, policy)),
        name_of(kind) == (match kind {
            EvidenceKind::DiagnosticSet => "DiagnosticSet"@,
            EvidenceKind::TestReport => "TestReport"@,
            EvidenceKind::SearchResults => "SearchResults"@,
            EvidenceKind::FileMap => "FileMap"@,
            EvidenceKind::Diff => "Diff"@,
            EvidenceKind::ProcessLog => "ProcessLog"@,
            EvidenceKind::SymbolSet => "SymbolSet"@,
            EvidenceKind::StructuredRows => "StructuredRows"@,
            EvidenceKind::ChildHandoff => "ChildHandoff"@,
            EvidenceKind::SemanticContext => "SemanticContext"@,
            EvidenceKind::GenericText => "GenericText"@,
        }),
{
    let r = refusal_text(kind, policy);
    assert(name_of(kind) =~= r.subrange(0, name_of(kind).len() as int));
}

/// How much a compaction keeps: 498 bytes of an over-long line, 6144 in a section,
/// 16384 in a body, 4096 keys.
pub proof fn law_how_much_a_body_holds(line: Seq<char>, n: int)
    requires
        vstd::utf8::encode_utf8(line).len() > 512,
        0 <= n <= line.len(),
    ensures
        vstd::utf8::encode_utf8(line.take(n)).len() <= 498 ==> n <= capped(line).len() - 12,
        vstd::utf8::encode_utf8(capped(line).take(capped(line).len() - 12)).len() <= 498,
        MAX_COMPACT_BYTES == 16384,
        SECTION_BYTES == 6144,
        MAX_SEEN_KEYS == 4096,
{
    text::lemma_byte_len_encode(line);
    lemma_marker();
    let kept = text::cap_to(line, 498);
    text::law_a_cap_leaves_the_longest_prefix(line, 498, n);
    assert(capped(line).take(capped(line).len() - 12) =~= kept);
}

} // verus!

//! Bounded typed normalization of raw tool and process output.
//!
//! - More raw lines than [`MAX_INPUT_LINES`] are [`EvidenceError::Oversized`].
//! - Every string field keeps at most [`MAX_FIELD_CHARS`] characters; the owning
//!   value then reports `field_truncated`.
//! - Input of white space alone yields an empty value.
//!
//! [`DiagnosticSet`] and [`SearchResults`] are strict: the first non-blank row
//! that does not match the grammar makes the whole input
//! [`EvidenceError::Malformed`]. [`TestReport`] ignores unknown rows but not a
//! known key with a broken value. [`ProcessLogSummary`] accepts any text.
use vstd::prelude::*;
use vstd::slice::slice_subrange;

use crate::compress;
use crate::digest;
use crate::text;
use crate::types::{EvidenceError, Severity};

verus! {

/// Cap on raw input lines.
pub const MAX_INPUT_LINES: usize = 500_000;

/// Cap on characters kept per output string field.
pub const MAX_FIELD_CHARS: usize = 4096;

/// Cap on the important lines of a [`ProcessLogSummary`]; the final line always
/// has one of the slots.
pub const MAX_IMPORTANT_LINES: usize = 256;

/// Characters of the input shown in an error message.
pub const ERROR_PREVIEW_CHARS: usize = 120;

// ------------------------------------------------------------------ fields

/// At most the first `n` characters of `s`.
pub open spec fn at_most(s: Seq<char>, n: nat) -> Seq<char> {
    if s.len() <= n {
        s
    } else {
        s.take(n as int)
    }
}

/// The part of a field that is kept.
pub open spec fn field(s: Seq<char>) -> Seq<char> {
    at_most(s, MAX_FIELD_CHARS as nat)
}

/// The field is longer than what is kept of it.
pub open spec fn too_long(s: Seq<char>) -> bool {
    s.len() > MAX_FIELD_CHARS
}

/// Copies at most `n` characters.
fn prefix_string(raw: &[char], n: usize) -> (r: String)
    ensures
        r@ == at_most(raw@, n as nat),
{
    if raw.len() <= n {
        text::string_of(raw)
    } else {
        let kept: &[char] = slice_subrange(raw, 0, n);
        proof {
            assert(kept@ =~= raw@.take(n as int));
        }
        text::string_of(kept)
    }
}

/// Copies a field, and marks where it was cut.
fn cap_field(raw: &[char], truncated: &mut bool) -> (r: String)
    ensures
        r@ == field(raw@),
        *final(truncated) == (*old(truncated) || too_long(raw@)),
{
    if raw.len() > MAX_FIELD_CHARS {
        *truncated = true;
    }
    prefix_string(raw, MAX_FIELD_CHARS)
}

/// What a row that breaks the grammar of `kind` is answered; rows count from
/// one.
pub open spec fn bad_row_text(kind: Seq<char>, line_no: nat, raw: Seq<char>) -> Seq<char> {
    kind + ": line "@ + text::decimal(line_no) + ": "@ + text::debug_of(
        at_most(text::trim(raw), ERROR_PREVIEW_CHARS as nat),
    )
}

fn malformed_row(kind: &str, line_no: usize, raw: &[char]) -> (r: EvidenceError)
    ensures
        r matches EvidenceError::Malformed(m) && m@ == bad_row_text(kind@, line_no as nat, raw@),
{
    let preview: String = prefix_string(text::trimmed(raw), ERROR_PREVIEW_CHARS);
    let mut m: String = kind.to_owned();
    m.append(": line ");
    text::push_decimal(&mut m, line_no as u64);
    m.append(": ");
    m.append(text::debug_str(preview.as_str()).as_str());
    EvidenceError::Malformed(m)
}

/// The row holds nothing but white space.
pub open spec fn blank(raw: Seq<char>) -> bool {
    text::trim(raw).len() == 0
}

// --------------------------------------------------------------- locations

/// How many leading characters of `s` are digits.
pub open spec fn leading_digits(s: Seq<char>) -> nat
    decreases s.len(),
{
    if s.len() == 0 || !text::is_dec_digit(s[0]) {
        0
    } else {
        1 + leading_digits(s.drop_first())
    }
}

pub proof fn lemma_leading_digits(s: Seq<char>)
    ensures
        leading_digits(s) <= s.len(),
        text::all_digits(s.take(leading_digits(s) as int)),
    decreases s.len(),
{
    if s.len() > 0 && text::is_dec_digit(s[0]) {
        lemma_leading_digits(s.drop_first());
        let n = leading_digits(s);
        assert forall|i: int| 0 <= i < n implies text::is_dec_digit(
            #[trigger] s.take(n as int)[i],
        ) by {
            if i > 0 {
                assert(s.drop_first().take(n - 1)[i - 1] == s[i]);
            }
        }
    }
}

/// A group `:digits:` of `s` starts with the colon at `i`.
pub open spec fn group_at(s: Seq<char>, i: int) -> bool {
    let rest = s.skip(i + 1);
    let n = leading_digits(rest) as int;
    0 <= i < s.len() && s[i] == ':' && n > 0 && n < rest.len() && rest[n] == ':'
}

/// The number in the group at `i`, where it fits into 32 bits.
pub open spec fn group_number(s: Seq<char>, i: int) -> Option<u32> {
    let digits = s.skip(i + 1).take(leading_digits(s.skip(i + 1)) as int);
    if text::digits_value(digits) <= u32::MAX {
        Some(text::digits_value(digits) as u32)
    } else {
        None
    }
}

/// The position of the colon that ends the group at `i`.
pub open spec fn group_end(s: Seq<char>, i: int) -> int {
    i + 1 + leading_digits(s.skip(i + 1))
}

/// The first position from `i` on, and not the start of `s`, at which a
/// `:line:` group stands.
pub open spec fn first_group(s: Seq<char>, i: int) -> Option<int>
    decreases s.len() - i,
{
    if i >= s.len() {
        None
    } else if i > 0 && group_at(s, i) {
        Some(i)
    } else {
        first_group(s, i + 1)
    }
}

/// The first position from `i` on, and not the start of `s`, at which a
/// `:line:column:` group stands.
pub open spec fn first_place(s: Seq<char>, i: int) -> Option<int>
    decreases s.len() - i,
{
    if i >= s.len() {
        None
    } else if i > 0 && group_at(s, i) && group_at(s, group_end(s, i)) {
        Some(i)
    } else {
        first_place(s, i + 1)
    }
}

/// The group at `i`: its number, where that fits, and the position of its closing
/// colon.
fn read_group(s: &[char], i: usize) -> (r: Option<(Option<u32>, usize)>)
    requires
        i < s.len(),
    ensures
        r is Some <==> group_at(s@, i as int),
        r matches Some(p) ==> p.0 == group_number(s@, i as int) && p.1 == group_end(s@, i as int)
            && i < p.1 < s.len() && s@[p.1 as int] == ':',
{
    if s[i] != ':' {
        return None;
    }
    let rest: &[char] = slice_subrange(s, i + 1, s.len());
    let mut n: usize = 0;
    proof {
        assert(rest@ =~= s@.skip(i as int + 1));
        assert(rest@.skip(0) =~= rest@);
    }
    while n < rest.len() && '0' <= rest[n] && rest[n] <= '9'
        invariant
            n <= rest.len(),
            leading_digits(rest@) == n + leading_digits(rest@.skip(n as int)),
        decreases rest.len() - n,
    {
        proof {
            assert(rest@.skip(n as int).drop_first() =~= rest@.skip(n as int + 1));
        }
        n = n + 1;
    }
    if n == 0 || n == rest.len() || rest[n] != ':' {
        return None;
    }
    let digits: &[char] = slice_subrange(rest, 0, n);
    proof {
        assert(digits@ =~= rest@.take(n as int));
        lemma_leading_digits(rest@);
        assert(text::is_dec_digit(digits@[0]));
    }
    let number: Option<u32> = match text::parse_unsigned(digits, u32::MAX as u64) {
        Some(v) => Some(v as u32),
        None => None,
    };
    Some((number, i + 1 + n))
}

// ------------------------------------------------------------- diagnostics

/// One parsed compiler or linter diagnostic row.
#[derive(Debug, Clone, PartialEq, Eq)]
pub struct DiagnosticEvidence {
    /// Source path, trimmed; may contain `:`.
    pub path: String,
    /// Line number, from one.
    pub line: u32,
    /// Column number, from one.
    pub column: u32,
    /// Parsed severity; [`Severity::Error`] where the row names none.
    pub severity: Severity,
    /// Rule or error code where written as `severity[code]:`.
    pub code: Option<String>,
    /// Human-readable message.
    pub message: String,
}

/// A diagnostic row, field by field, as it was read.
#[verifier::ext_equal]
pub struct DiagnosticView {
    pub path: Seq<char>,
    pub line: u32,
    pub column: u32,
    pub severity: Severity,
    pub code: Option<Seq<char>>,
    pub message: Seq<char>,
}

impl View for DiagnosticEvidence {
    type V = DiagnosticView;

    open spec fn view(&self) -> DiagnosticView {
        DiagnosticView {
            path: self.path@,
            line: self.line,
            column: self.column,
            severity: self.severity,
            code: match self.code {
                Some(c) => Some(c@),
                None => None,
            },
            message: self.message@,
        }
    }
}

impl DiagnosticView {
    /// The row with its fields cut to what is kept.
    pub open spec fn kept(self) -> DiagnosticView {
        DiagnosticView {
            path: field(self.path),
            code: match self.code {
                Some(c) => Some(field(c)),
                None => None,
            },
            message: field(self.message),
            ..self
        }
    }

    /// Some field was longer than what is kept of it.
    pub open spec fn cut(self) -> bool {
        too_long(self.path) || too_long(self.message) || (self.code matches Some(c) && too_long(c))
    }
}

/// `s` without one leading space.
pub open spec fn skip_space(s: Seq<char>) -> Seq<char> {
    if s.len() > 0 && s[0] == ' ' {
        s.skip(1)
    } else {
        s
    }
}

/// The severity that a word names, up to ASCII case.
pub open spec fn severity_named(word: Seq<char>) -> Option<Severity> {
    if text::lower(word) == "error"@ {
        Some(Severity::Error)
    } else if text::lower(word) == "warning"@ {
        Some(Severity::Warning)
    } else if text::lower(word) == "info"@ {
        Some(Severity::Info)
    } else {
        None
    }
}

/// The part of `head` that ends in `]` is a code in brackets.
pub open spec fn has_code(head: Seq<char>) -> bool {
    text::first_index(head, '[') < head.len() && head.last() == ']'
}

/// The word before a code in brackets, or the whole of `head`.
pub open spec fn head_word(head: Seq<char>) -> Seq<char> {
    if has_code(head) {
        head.take(text::first_index(head, '['))
    } else {
        head
    }
}

/// The code in brackets, where it is not empty.
pub open spec fn head_code(head: Seq<char>) -> Option<Seq<char>> {
    let inner = head.subrange(text::first_index(head, '[') + 1, head.len() - 1);
    if has_code(head) && inner.len() > 0 {
        Some(inner)
    } else {
        None
    }
}

/// Where the part before the message ends: at the colon behind the bracket that
/// closes the code of a severity word, whatever the code holds, and else at the
/// first colon.
pub open spec fn head_end(body: Seq<char>) -> int {
    let open = text::first_index(body, '[');
    let close = text::first_index(body, ']');
    if open < close && close + 1 < body.len() && body[close + 1] == ':' && severity_named(
        body.take(open),
    ) is Some {
        close + 1
    } else {
        text::first_index(body, ':')
    }
}

/// Severity, code and message of what follows a location: `severity: message`
/// or `severity[code]: message` where it begins with a severity word, and else
/// an error without a code.
pub open spec fn severity_of(rest: Seq<char>) -> (Severity, Option<Seq<char>>, Seq<char>) {
    let body = skip_space(rest);
    let colon = head_end(body);
    let head = body.take(colon);
    if colon < body.len() && severity_named(head_word(head)) is Some {
        (
            severity_named(head_word(head))->0,
            head_code(head),
            skip_space(body.skip(colon + 1)),
        )
    } else {
        (Severity::Error, None, body)
    }
}

/// The diagnostic that a row states. The first group decides: where one of its
/// numbers does not fit, the row states none.
pub open spec fn diagnostic_of(raw: Seq<char>) -> Option<DiagnosticView> {
    match first_place(raw, 0) {
        Some(i) => {
            let j = group_end(raw, i);
            let (severity, code, message) = severity_of(raw.skip(group_end(raw, j) + 1));
            let path = text::trim(raw.take(i));
            match (group_number(raw, i), group_number(raw, j)) {
                (Some(line), Some(column)) => if path.len() == 0 || blank(message) {
                    None
                } else {
                    Some(DiagnosticView { path, line, column, severity, code, message })
                },
                _ => None,
            }
        },
        None => None,
    }
}

/// The diagnostics of the rows that are not blank, or the position of the first
/// row that states none.
pub open spec fn diagnostics_of(lines: Seq<Seq<char>>) -> Result<Seq<DiagnosticView>, int>
    decreases lines.len(),
{
    if lines.len() == 0 {
        Ok(Seq::empty())
    } else {
        match diagnostics_of(lines.drop_last()) {
            Err(i) => Err(i),
            Ok(rows) => if blank(lines.last()) {
                Ok(rows)
            } else {
                match diagnostic_of(lines.last()) {
                    Some(row) => Ok(rows.push(row)),
                    None => Err(lines.len() - 1),
                }
            },
        }
    }
}

/// The views of diagnostic rows.
pub open spec fn diagnostic_views(rows: Seq<DiagnosticEvidence>) -> Seq<DiagnosticView> {
    Seq::new(rows.len(), |i: int| rows[i]@)
}

/// The rows as they are kept.
pub open spec fn kept_diagnostics(rows: Seq<DiagnosticView>) -> Seq<DiagnosticView> {
    Seq::new(rows.len(), |i: int| rows[i].kept())
}

/// A set of diagnostics normalized from compiler or linter output. Each
/// non-blank row must be `path:line:column: rest`; the location is the first
/// such group, so colons inside paths are tolerated.
#[derive(Debug, Clone, PartialEq, Eq)]
pub struct DiagnosticSet {
    /// Parsed rows, in input order.
    pub diagnostics: Vec<DiagnosticEvidence>,
    /// True when any string field was cut at [`MAX_FIELD_CHARS`].
    pub field_truncated: bool,
}

/// Rejects input above [`MAX_INPUT_LINES`] raw lines.
fn bounded_lines(chars: &[char]) -> (r: Result<Vec<&[char]>, EvidenceError>)
    ensures
        match r {
            Ok(lines) => text::views(lines@) == text::lines_of(chars@) && lines.len()
                <= MAX_INPUT_LINES,
            Err(e) => text::lines_of(chars@).len() > MAX_INPUT_LINES && e == (
            EvidenceError::Oversized {
                max: MAX_INPUT_LINES,
                actual: text::lines_of(chars@).len() as usize,
            }) && text::lines_of(chars@).len() <= usize::MAX,
        },
{
    let lines: Vec<&[char]> = text::split_lines(chars);
    proof {
        assert(text::views(lines@).len() == lines@.len());
    }
    if lines.len() > MAX_INPUT_LINES {
        return Err(EvidenceError::Oversized { max: MAX_INPUT_LINES, actual: lines.len() });
    }
    Ok(lines)
}

/// Whether `a` is the text `b`, given in lower case, up to ASCII case.
fn equals_ci(a: &[char], b: &str) -> (r: bool)
    ensures
        r == (text::lower(a@) == b@),
{
    let want: Vec<char> = text::chars_of(b);
    if a.len() != want.len() {
        return false;
    }
    proof {
        assert(a@.subrange(0, a@.len() as int) =~= a@);
    }
    text::stands_at_ci(a, 0, want.as_slice())
}

fn severity_word(word: &[char]) -> (r: Option<Severity>)
    ensures
        r == severity_named(word@),
{
    if equals_ci(word, "error") {
        Some(Severity::Error)
    } else if equals_ci(word, "warning") {
        Some(Severity::Warning)
    } else if equals_ci(word, "info") {
        Some(Severity::Info)
    } else {
        None
    }
}

/// `s` without one leading space.
fn without_space(s: &[char]) -> (r: &[char])
    ensures
        r@ == skip_space(s@),
{
    if s.len() > 0 && s[0] == ' ' {
        let r: &[char] = slice_subrange(s, 1, s.len());
        proof {
            assert(r@ =~= s@.skip(1));
        }
        r
    } else {
        s
    }
}

/// The view of an optional slice.
pub open spec fn slice_view(s: Option<&[char]>) -> Option<Seq<char>> {
    match s {
        Some(v) => Some(v@),
        None => None,
    }
}

fn find_head_end(body: &[char]) -> (r: usize)
    ensures
        r == head_end(body@),
        r <= body.len(),
        r < body.len() ==> body@[r as int] == ':',
{
    let open: usize = text::find_char(body, '[');
    let close: usize = text::find_char(body, ']');
    if open < close && close < body.len() && close + 1 < body.len() && body[close + 1] == ':' {
        let word: &[char] = slice_subrange(body, 0, open);
        proof {
            assert(word@ =~= body@.take(open as int));
        }
        if severity_word(word).is_some() {
            return close + 1;
        }
    }
    text::find_char(body, ':')
}

fn split_severity(rest: &[char]) -> (r: (Severity, Option<&[char]>, &[char]))
    ensures
        (r.0, slice_view(r.1), r.2@) == severity_of(rest@),
{
    let body: &[char] = without_space(rest);
    let colon: usize = find_head_end(body);
    if colon < body.len() {
        let head: &[char] = slice_subrange(body, 0, colon);
        proof {
            assert(head@ =~= body@.take(colon as int));
        }
        let open: usize = text::find_char(head, '[');
        let coded: bool = open < head.len() && text::ends_with_char(head, ']');
        let word: &[char] = if coded {
            slice_subrange(head, 0, open)
        } else {
            head
        };
        proof {
            if coded {
                assert(word@ =~= head@.take(open as int));
            }
            assert(word@ == head_word(head@));
        }
        if let Some(severity) = severity_word(word) {
            let tail: &[char] = slice_subrange(body, colon + 1, body.len());
            proof {
                assert(tail@ =~= body@.skip(colon as int + 1));
                if coded {
                    assert(head@[open as int] == '[');
                    assert(open < head@.len() - 1);
                }
            }
            let code: Option<&[char]> = if coded && open + 1 < head.len() - 1 {
                Some(slice_subrange(head, open + 1, head.len() - 1))
            } else {
                None
            };
            return (severity, code, without_space(tail));
        }
    }
    (Severity::Error, None, body)
}

/// The position of the first `:line:column:` group, with its two numbers and
/// the position of its closing colon.
fn split_location(line: &[char]) -> (r: Option<(usize, u32, u32, usize)>)
    ensures
        match first_place(line@, 0) {
            Some(i) => match (group_number(line@, i), group_number(line@, group_end(line@, i))) {
                (Some(a), Some(b)) => r matches Some(p) && p.0 == i && p.1 == a && p.2 == b && p.3
                    == group_end(line@, group_end(line@, i)) && p.0 < p.3 < line.len(),
                _ => r is None,
            },
            None => r is None,
        },
{
    let mut i: usize = 0;
    while i < line.len()
        invariant
            i <= line.len(),
            first_place(line@, 0) == first_place(line@, i as int),
        decreases line.len() - i,
    {
        if i > 0 {
            if let Some(a) = read_group(line, i) {
                if let Some(b) = read_group(line, a.1) {
                    return match (a.0, b.0) {
                        (Some(row), Some(column)) => Some((i, row, column, b.1)),
                        _ => None,
                    };
                }
            }
        }
        i = i + 1;
    }
    None
}

fn parse_diagnostic(raw: &[char], truncated: &mut bool) -> (r: Option<DiagnosticEvidence>)
    ensures
        match diagnostic_of(raw@) {
            Some(d) => r matches Some(e) && e@ == d.kept() && *final(truncated) == (*old(truncated)
                || d.cut()),
            None => r is None,
        },
{
    let place: (usize, u32, u32, usize) = match split_location(raw) {
        Some(p) => p,
        None => {
            return None;
        },
    };
    let path: &[char] = text::trimmed(slice_subrange(raw, 0, place.0));
    let rest: &[char] = slice_subrange(raw, place.3 + 1, raw.len());
    proof {
        assert(raw@.subrange(0, place.0 as int) =~= raw@.take(place.0 as int));
        assert(rest@ =~= raw@.skip(place.3 as int + 1));
    }
    let parts: (Severity, Option<&[char]>, &[char]) = split_severity(rest);
    if path.len() == 0 || text::trimmed(parts.2).len() == 0 {
        return None;
    }
    let kept_path: String = cap_field(path, truncated);
    let code: Option<String> = match parts.1 {
        Some(c) => Some(cap_field(c, truncated)),
        None => None,
    };
    let message: String = cap_field(parts.2, truncated);
    Some(
        DiagnosticEvidence {
            path: kept_path,
            line: place.1,
            column: place.2,
            severity: parts.0,
            code,
            message,
        },
    )
}

/// Some row was cut.
pub open spec fn any_diagnostic_cut(rows: Seq<DiagnosticView>) -> bool {
    exists|i: int| 0 <= i < rows.len() && (#[trigger] rows[i]).cut()
}

impl DiagnosticSet {
    /// Parses `text` into a diagnostic set.
    pub fn try_from_text(text: &str) -> (r: Result<Self, EvidenceError>)
        ensures
            ({
                let lines = text::lines_of(text@);
                if lines.len() > MAX_INPUT_LINES {
                    r matches Err(e) && lines.len() <= usize::MAX && e == (
                    EvidenceError::Oversized {
                        max: MAX_INPUT_LINES,
                        actual: lines.len() as usize,
                    })
                } else {
                    match diagnostics_of(lines) {
                        Ok(rows) => r matches Ok(set) && diagnostic_views(set.diagnostics@)
                            == kept_diagnostics(rows) && set.field_truncated
                            == any_diagnostic_cut(rows),
                        Err(i) => r matches Err(EvidenceError::Malformed(m)) && m@ == bad_row_text(
                            "diagnostic_set"@,
                            (i + 1) as nat,
                            lines[i],
                        ),
                    }
                }
            }),
    {
        let chars: Vec<char> = text::chars_of(text);
        let lines: Vec<&[char]> = match bounded_lines(chars.as_slice()) {
            Ok(v) => v,
            Err(e) => {
                return Err(e);
            },
        };
        let ghost all = text::lines_of(text@);
        let ghost mut rows: Seq<DiagnosticView> = Seq::empty();
        let mut diagnostics: Vec<DiagnosticEvidence> = Vec::new();
        let mut field_truncated: bool = false;
        let mut i: usize = 0;
        proof {
            assert(all.take(0) =~= Seq::empty());
            assert(diagnostic_views(diagnostics@) =~= kept_diagnostics(rows));
        }
        while i < lines.len()
            invariant
                i <= lines.len(),
                lines.len() <= MAX_INPUT_LINES,
                text::views(lines@) == all,
                all == text::lines_of(text@),
                diagnostics_of(all.take(i as int)) == Ok::<Seq<DiagnosticView>, int>(rows),
                diagnostic_views(diagnostics@) == kept_diagnostics(rows),
                field_truncated == any_diagnostic_cut(rows),
            decreases lines.len() - i,
        {
            let raw: &[char] = lines[i];
            proof {
                assert(all[i as int] == raw@);
                assert(all.take(i as int + 1).drop_last() =~= all.take(i as int));
                assert(all.take(i as int + 1).last() == raw@);
            }
            if text::trimmed(raw).len() > 0 {
                let ghost before = diagnostics@;
                let ghost rows_before = rows;
                match parse_diagnostic(raw, &mut field_truncated) {
                    Some(row) => {
                        diagnostics.push(row);
                        proof {
                            let d = diagnostic_of(raw@)->0;
                            rows = rows.push(d);
                            assert(diagnostic_views(diagnostics@) =~= diagnostic_views(before).push(
                                row@,
                            ));
                            assert(kept_diagnostics(rows) =~= kept_diagnostics(rows_before).push(
                                d.kept(),
                            ));
                            if any_diagnostic_cut(rows_before) {
                                let k = choose|k: int|
                                    0 <= k < rows_before.len() && (#[trigger] rows_before[k]).cut();
                                assert(rows[k].cut());
                            }
                            if d.cut() {
                                assert(rows[rows.len() - 1].cut());
                            }
                            if any_diagnostic_cut(rows) {
                                let k = choose|k: int|
                                    0 <= k < rows.len() && (#[trigger] rows[k]).cut();
                                if k < rows_before.len() {
                                    assert(rows_before[k].cut());
                                }
                            }
                        }
                    },
                    None => {
                        proof {
                            lemma_diagnostics_fail(all, i as int);
                        }
                        return Err(malformed_row("diagnostic_set", i + 1, raw));
                    },
                }
            }
            i = i + 1;
        }
        proof {
            assert(all.take(i as int) =~= all);
        }
        Ok(DiagnosticSet { diagnostics, field_truncated })
    }
}

proof fn lemma_diagnostics_fail(lines: Seq<Seq<char>>, n: int)
    requires
        0 <= n < lines.len(),
        diagnostics_of(lines.take(n + 1)) is Err,
    ensures
        diagnostics_of(lines) == diagnostics_of(lines.take(n + 1)),
    decreases lines.len() - n,
{
    if n + 1 == lines.len() {
        assert(lines.take(n + 1) =~= lines);
    } else {
        assert(lines.take(n + 2).drop_last() =~= lines.take(n + 1));
        lemma_diagnostics_fail(lines, n + 1);
    }
}

/// One more flag is raised exactly where it was among the flags or is the new
/// one.
proof fn lemma_push_flag(flags: Seq<bool>, b: bool)
    ensures
        flags.push(b).contains(true) <==> flags.contains(true) || b,
{
    if flags.contains(true) {
        let k = choose|k: int| 0 <= k < flags.len() && flags[k] == true;
        assert(flags.push(b)[k] == true);
    }
    if b {
        assert(flags.push(b)[flags.len() as int] == true);
    }
    if flags.push(b).contains(true) {
        let k = choose|k: int| 0 <= k < flags.push(b).len() && flags.push(b)[k] == true;
        if k < flags.len() {
            assert(flags[k] == true);
        }
    }
}

// ----------------------------------------------------------------- searches

/// One search hit.
#[derive(Debug, Clone, PartialEq, Eq)]
pub struct SearchHit {
    /// Source path, trimmed; may contain `:`.
    pub path: String,
    /// Line number, from one.
    pub line: u32,
    /// Matched line text, verbatim after `path:line:`.
    pub text: String,
}

/// Search hits normalized from grep-style output. Every non-blank row must be
/// `path:line:text`; the location is the first `:digits:` group.
#[derive(Debug, Clone, PartialEq, Eq)]
pub struct SearchResults {
    /// Parsed hits, in input order.
    pub hits: Vec<SearchHit>,
    /// True when any string field was cut at [`MAX_FIELD_CHARS`].
    pub field_truncated: bool,
}

/// A hit as it was read: path, line and text.
pub type HitView = (Seq<char>, u32, Seq<char>);

/// The hit that a row states. The first group decides: where its number does not
/// fit, the row states none.
pub open spec fn hit_of(raw: Seq<char>) -> Option<HitView> {
    match first_group(raw, 0) {
        Some(i) => {
            let path = text::trim(raw.take(i));
            match group_number(raw, i) {
                Some(line) if path.len() > 0 => Some(
                    (path, line, raw.skip(group_end(raw, i) + 1)),
                ),
                _ => None,
            }
        },
        None => None,
    }
}

/// The hits of the rows that are not blank, or the position of the first row
/// that states none.
pub open spec fn hits_of(lines: Seq<Seq<char>>) -> Result<Seq<HitView>, int>
    decreases lines.len(),
{
    if lines.len() == 0 {
        Ok(Seq::empty())
    } else {
        match hits_of(lines.drop_last()) {
            Err(i) => Err(i),
            Ok(rows) => if blank(lines.last()) {
                Ok(rows)
            } else {
                match hit_of(lines.last()) {
                    Some(row) => Ok(rows.push(row)),
                    None => Err(lines.len() - 1),
                }
            },
        }
    }
}

pub open spec fn hit_views(hits: Seq<SearchHit>) -> Seq<HitView> {
    Seq::new(hits.len(), |i: int| (hits[i].path@, hits[i].line, hits[i].text@))
}

pub open spec fn kept_hits(rows: Seq<HitView>) -> Seq<HitView> {
    Seq::new(rows.len(), |i: int| (field(rows[i].0), rows[i].1, field(rows[i].2)))
}

/// Which hits were cut.
pub open spec fn cut_hits(rows: Seq<HitView>) -> Seq<bool> {
    Seq::new(rows.len(), |i: int| too_long(rows[i].0) || too_long(rows[i].2))
}

/// The position of the first `:line:` group, with its number and the position
/// of its closing colon.
fn split_search_hit(line: &[char]) -> (r: Option<(usize, u32, usize)>)
    ensures
        match first_group(line@, 0) {
            Some(i) => match group_number(line@, i) {
                Some(n) => r matches Some(p) && p.0 == i && p.1 == n && p.2 == group_end(line@, i)
                    && p.0 < p.2 < line.len(),
                None => r is None,
            },
            None => r is None,
        },
{
    let mut i: usize = 0;
    while i < line.len()
        invariant
            i <= line.len(),
            first_group(line@, 0) == first_group(line@, i as int),
        decreases line.len() - i,
    {
        if i > 0 {
            if let Some(a) = read_group(line, i) {
                return match a.0 {
                    Some(n) => Some((i, n, a.1)),
                    None => None,
                };
            }
        }
        i = i + 1;
    }
    None
}

fn parse_hit(raw: &[char], truncated: &mut bool) -> (r: Option<SearchHit>)
    ensures
        match hit_of(raw@) {
            Some(h) => r matches Some(e) && e.path@ == field(h.0) && e.line == h.1 && e.text@
                == field(h.2) && *final(truncated) == (*old(truncated) || too_long(h.0)
                || too_long(h.2)),
            None => r is None,
        },
{
    let place: (usize, u32, usize) = match split_search_hit(raw) {
        Some(p) => p,
        None => {
            return None;
        },
    };
    let path: &[char] = text::trimmed(slice_subrange(raw, 0, place.0));
    let rest: &[char] = slice_subrange(raw, place.2 + 1, raw.len());
    proof {
        assert(raw@.subrange(0, place.0 as int) =~= raw@.take(place.0 as int));
        assert(rest@ =~= raw@.skip(place.2 as int + 1));
    }
    if path.len() == 0 {
        return None;
    }
    let kept_path: String = cap_field(path, truncated);
    let kept_text: String = cap_field(rest, truncated);
    Some(SearchHit { path: kept_path, line: place.1, text: kept_text })
}

impl SearchResults {
    /// Parses `text` into search results.
    pub fn try_from_text(text: &str) -> (r: Result<Self, EvidenceError>)
        ensures
            ({
                let lines = text::lines_of(text@);
                if lines.len() > MAX_INPUT_LINES {
                    r matches Err(e) && lines.len() <= usize::MAX && e == (
                    EvidenceError::Oversized {
                        max: MAX_INPUT_LINES,
                        actual: lines.len() as usize,
                    })
                } else {
                    match hits_of(lines) {
                        Ok(rows) => r matches Ok(set) && hit_views(set.hits@) == kept_hits(rows)
                            && set.field_truncated == cut_hits(rows).contains(true),
                        Err(i) => r matches Err(EvidenceError::Malformed(m)) && m@ == bad_row_text(
                            "search_results"@,
                            (i + 1) as nat,
                            lines[i],
                        ),
                    }
                }
            }),
    {
        let chars: Vec<char> = text::chars_of(text);
        let lines: Vec<&[char]> = match bounded_lines(chars.as_slice()) {
            Ok(v) => v,
            Err(e) => {
                return Err(e);
            },
        };
        let ghost all = text::lines_of(text@);
        let ghost mut rows: Seq<HitView> = Seq::empty();
        let mut hits: Vec<SearchHit> = Vec::new();
        let mut field_truncated: bool = false;
        let mut i: usize = 0;
        proof {
            assert(all.take(0) =~= Seq::empty());
            assert(hit_views(hits@) =~= kept_hits(rows));
        }
        while i < lines.len()
            invariant
                i <= lines.len(),
                lines.len() <= MAX_INPUT_LINES,
                text::views(lines@) == all,
                all == text::lines_of(text@),
                hits_of(all.take(i as int)) == Ok::<Seq<HitView>, int>(rows),
                hit_views(hits@) == kept_hits(rows),
                field_truncated == cut_hits(rows).contains(true),
            decreases lines.len() - i,
        {
            let raw: &[char] = lines[i];
            proof {
                assert(all[i as int] == raw@);
                assert(all.take(i as int + 1).drop_last() =~= all.take(i as int));
                assert(all.take(i as int + 1).last() == raw@);
            }
            if text::trimmed(raw).len() > 0 {
                let ghost before = hits@;
                let ghost rows_before = rows;
                match parse_hit(raw, &mut field_truncated) {
                    Some(hit) => {
                        hits.push(hit);
                        proof {
                            let h = hit_of(raw@)->0;
                            rows = rows.push(h);
                            assert(hit_views(hits@) =~= hit_views(before).push(
                                (hit.path@, hit.line, hit.text@),
                            ));
                            assert(kept_hits(rows) =~= kept_hits(rows_before).push(
                                (field(h.0), h.1, field(h.2)),
                            ));
                            assert(cut_hits(rows) =~= cut_hits(rows_before).push(
                                too_long(h.0) || too_long(h.2),
                            ));
                            lemma_push_flag(
                                cut_hits(rows_before),
                                too_long(h.0) || too_long(h.2),
                            );
                        }
                    },
                    None => {
                        proof {
                            lemma_hits_fail(all, i as int);
                        }
                        return Err(malformed_row("search_results", i + 1, raw));
                    },
                }
            }
            i = i + 1;
        }
        proof {
            assert(all.take(i as int) =~= all);
        }
        Ok(SearchResults { hits, field_truncated })
    }
}

proof fn lemma_hits_fail(lines: Seq<Seq<char>>, n: int)
    requires
        0 <= n < lines.len(),
        hits_of(lines.take(n + 1)) is Err,
    ensures
        hits_of(lines) == hits_of(lines.take(n + 1)),
    decreases lines.len() - n,
{
    if n + 1 == lines.len() {
        assert(lines.take(n + 1) =~= lines);
    } else {
        assert(lines.take(n + 2).drop_last() =~= lines.take(n + 1));
        lemma_hits_fail(lines, n + 1);
    }
}

// ------------------------------------------------------------- test reports

/// One failed test case.
#[derive(Debug, Clone, PartialEq, Eq)]
pub struct TestFailure {
    /// Test name.
    pub name: String,
    /// Failure message (empty when the runner only reported a name).
    pub message: String,
}

/// A test-run report normalized from runner output: `key=value` tokens with the
/// keys `total`, `passed`, `skipped` and `duration_ms`, of which the last one
/// wins, and rows that start with `fail` or `failed`.
#[derive(Debug, Clone, PartialEq, Eq)]
pub struct TestReport {
    /// Total tests; explicit `total=` where present, else derived.
    pub total: u32,
    /// Passing test count from `passed=`.
    pub passed: u32,
    /// Failed tests, in input order.
    pub failed: Vec<TestFailure>,
    /// Skipped test count from `skipped=`.
    pub skipped: u32,
    /// Duration from `duration_ms=`.
    pub duration_ms: u64,
    /// True when any string field was cut at [`MAX_FIELD_CHARS`].
    pub field_truncated: bool,
}

/// What was read of a report: counts, and the failures with name and message.
#[verifier::ext_equal]
pub struct Tally {
    pub total: Option<u32>,
    pub passed: u32,
    pub skipped: u32,
    pub duration_ms: u64,
    pub failed: Seq<(Seq<char>, Seq<char>)>,
}

pub open spec fn empty_tally() -> Tally {
    Tally { total: None, passed: 0, skipped: 0, duration_ms: 0, failed: Seq::empty() }
}

impl Tally {
    /// The total: the explicit one, or passed, skipped and failed together, as
    /// far as 32 bits go.
    pub open spec fn count(self) -> u32 {
        match self.total {
            Some(t) => t,
            None => if self.passed + self.skipped + self.failed.len() > u32::MAX {
                u32::MAX
            } else {
                (self.passed + self.skipped + self.failed.len()) as u32
            },
        }
    }
}

/// The separators between tokens.
pub open spec fn is_token_end(c: char) -> bool {
    c == ',' || text::is_ws(c)
}

/// How many leading characters of `s` belong to its first token.
pub open spec fn token_end(s: Seq<char>) -> int
    decreases s.len(),
{
    if s.len() == 0 || is_token_end(s[0]) {
        0
    } else {
        1 + token_end(s.drop_first())
    }
}

/// The parts of `s` between separators, empty ones too.
pub open spec fn tokens_of(s: Seq<char>) -> Seq<Seq<char>>
    decreases s.len(),
{
    let n = token_end(s);
    if 0 <= n < s.len() {
        seq![s.take(n)] + tokens_of(s.skip(n + 1))
    } else {
        seq![s]
    }
}

/// What a known key with a broken value is answered.
pub open spec fn bad_number_text(line_no: nat, key: Seq<char>, value: Seq<char>) -> Seq<char> {
    "test_report: line "@ + text::decimal(line_no) + ": "@ + key + "="@ + text::debug_of(
        at_most(value, ERROR_PREVIEW_CHARS as nat),
    ) + " is not a valid number"@
}

/// What one token adds to a tally.
pub open spec fn token_step(t: Tally, token: Seq<char>, line_no: nat) -> Result<Tally, Seq<char>> {
    let n = text::first_index(token, '=');
    let key = token.take(n);
    let value = token.skip(n + 1);
    if n >= token.len() {
        Ok(t)
    } else if key == "total"@ {
        match text::parsed(value, u32::MAX as nat) {
            Some(v) => Ok(Tally { total: Some(v as u32), ..t }),
            None => Err(bad_number_text(line_no, key, value)),
        }
    } else if key == "passed"@ {
        match text::parsed(value, u32::MAX as nat) {
            Some(v) => Ok(Tally { passed: v as u32, ..t }),
            None => Err(bad_number_text(line_no, key, value)),
        }
    } else if key == "skipped"@ {
        match text::parsed(value, u32::MAX as nat) {
            Some(v) => Ok(Tally { skipped: v as u32, ..t }),
            None => Err(bad_number_text(line_no, key, value)),
        }
    } else if key == "duration_ms"@ {
        match text::parsed(value, u64::MAX as nat) {
            Some(v) => Ok(Tally { duration_ms: v as u64, ..t }),
            None => Err(bad_number_text(line_no, key, value)),
        }
    } else {
        Ok(t)
    }
}

/// What tokens add to a tally, one after the other.
pub open spec fn tokens_step(t: Tally, tokens: Seq<Seq<char>>, line_no: nat) -> Result<
    Tally,
    Seq<char>,
>
    decreases tokens.len(),
{
    if tokens.len() == 0 {
        Ok(t)
    } else {
        match token_step(t, tokens[0], line_no) {
            Ok(u) => tokens_step(u, tokens.drop_first(), line_no),
            Err(m) => Err(m),
        }
    }
}

/// What follows the prefix `p`, given in lower case, up to ASCII case.
pub open spec fn after_prefix(s: Seq<char>, p: Seq<char>) -> Option<Seq<char>> {
    if text::at_ci(s, 0, p) {
        Some(s.skip(p.len() as int))
    } else {
        None
    }
}

/// What follows `fail ` or `failed ` at the start of a line.
pub open spec fn failure_rest(line: Seq<char>) -> Option<Seq<char>> {
    match after_prefix(line, "fail "@) {
        Some(rest) => Some(rest),
        None => after_prefix(line, "failed "@),
    }
}

/// The first position of a colon before a space, or the length of `s`.
pub open spec fn colon_space(s: Seq<char>) -> int
    decreases s.len(),
{
    if s.len() == 0 || (s.len() >= 2 && s[0] == ':' && s[1] == ' ') {
        0
    } else {
        1 + colon_space(s.drop_first())
    }
}

/// Name and message of a failure row.
pub open spec fn failure_of(rest: Seq<char>) -> (Seq<char>, Seq<char>) {
    let n = colon_space(rest);
    if n < rest.len() {
        (text::trim(rest.take(n)), rest.skip(n + 2))
    } else {
        (text::trim(rest), Seq::empty())
    }
}

/// What one line adds to a tally; lines count from one.
pub open spec fn line_step(t: Tally, raw: Seq<char>, line_no: nat) -> Result<Tally, Seq<char>> {
    let line = text::trim(raw);
    if line.len() == 0 {
        Ok(t)
    } else {
        match failure_rest(line) {
            Some(rest) => if failure_of(rest).0.len() == 0 {
                Err(bad_row_text("test_report"@, line_no, raw))
            } else {
                Ok(Tally { failed: t.failed.push(failure_of(rest)), ..t })
            },
            None => tokens_step(t, tokens_of(line), line_no),
        }
    }
}

/// The tally of a report, or what its first broken line is answered.
pub open spec fn tally_of(lines: Seq<Seq<char>>) -> Result<Tally, Seq<char>>
    decreases lines.len(),
{
    if lines.len() == 0 {
        Ok(empty_tally())
    } else {
        match tally_of(lines.drop_last()) {
            Ok(t) => line_step(t, lines.last(), lines.len()),
            Err(m) => Err(m),
        }
    }
}

pub open spec fn failure_views(failed: Seq<TestFailure>) -> Seq<(Seq<char>, Seq<char>)> {
    Seq::new(failed.len(), |i: int| (failed[i].name@, failed[i].message@))
}

pub open spec fn kept_failures(rows: Seq<(Seq<char>, Seq<char>)>) -> Seq<(Seq<char>, Seq<char>)> {
    Seq::new(rows.len(), |i: int| (field(rows[i].0), field(rows[i].1)))
}

/// Which failures were cut.
pub open spec fn cut_failures(rows: Seq<(Seq<char>, Seq<char>)>) -> Seq<bool> {
    Seq::new(rows.len(), |i: int| too_long(rows[i].0) || too_long(rows[i].1))
}

/// Parses the value of a known key.
fn parse_number(line_no: usize, key: &str, value: &[char], max: u64) -> (r: Result<
    u64,
    EvidenceError,
>)
    ensures
        match text::parsed(value@, max as nat) {
            Some(v) => r == Ok::<u64, EvidenceError>(v as u64) && v <= max,
            None => r matches Err(EvidenceError::Malformed(m)) && m@ == bad_number_text(
                line_no as nat,
                key@,
                value@,
            ),
        },
{
    match text::parse_unsigned(value, max) {
        Some(v) => Ok(v),
        None => {
            let preview: String = prefix_string(value, ERROR_PREVIEW_CHARS);
            let mut m: String = "test_report: line ".to_owned();
            text::push_decimal(&mut m, line_no as u64);
            m.append(": ");
            m.append(key);
            m.append("=");
            m.append(text::debug_str(preview.as_str()).as_str());
            m.append(" is not a valid number");
            Err(EvidenceError::Malformed(m))
        },
    }
}

/// The tokens of a line.
fn split_tokens(s: &[char]) -> (r: Vec<&[char]>)
    ensures
        text::views(r@) == tokens_of(s@),
{
    let mut out: Vec<&[char]> = Vec::new();
    let mut rest: &[char] = s;
    proof {
        assert(text::views(out@) + tokens_of(s@) =~= tokens_of(s@));
    }
    loop
        invariant
            text::views(out@) + tokens_of(rest@) == tokens_of(s@),
        decreases rest@.len(),
    {
        let ghost before = out@;
        let ghost old_rest = rest@;
        let mut n: usize = 0;
        proof {
            assert(rest@.skip(0) =~= rest@);
        }
        while n < rest.len() && !(rest[n] == ',' || text::is_whitespace(rest[n]))
            invariant
                n <= rest.len(),
                token_end(rest@) == n + token_end(rest@.skip(n as int)),
            decreases rest.len() - n,
        {
            proof {
                assert(rest@.skip(n as int).drop_first() =~= rest@.skip(n as int + 1));
            }
            n = n + 1;
        }
        if n == rest.len() {
            out.push(rest);
            proof {
                assert(text::views(out@) =~= text::views(before) + seq![rest@]);
            }
            return out;
        }
        let part: &[char] = slice_subrange(rest, 0, n);
        out.push(part);
        rest = slice_subrange(rest, n + 1, rest.len());
        proof {
            assert(part@ =~= old_rest.take(n as int));
            assert(rest@ =~= old_rest.skip(n as int + 1));
            assert(text::views(out@) =~= text::views(before).push(part@));
            assert(text::views(before) + tokens_of(old_rest) =~= text::views(out@) + tokens_of(
                rest@,
            ));
        }
    }
}

/// Case-insensitive prefix strip.
fn strip_prefix_ci<'a>(s: &'a [char], p: &str) -> (r: Option<&'a [char]>)
    ensures
        slice_view(r) == after_prefix(s@, p@),
{
    let want: Vec<char> = text::chars_of(p);
    if text::stands_at_ci(s, 0, want.as_slice()) {
        let rest: &[char] = slice_subrange(s, want.len(), s.len());
        proof {
            assert(rest@ =~= s@.skip(p@.len() as int));
        }
        Some(rest)
    } else {
        None
    }
}

fn split_failure(rest: &[char]) -> (r: (&[char], Vec<char>))
    ensures
        (r.0@, r.1@) == failure_of(rest@),
{
    let mut n: usize = 0;
    proof {
        assert(rest@.skip(0) =~= rest@);
    }
    while n < rest.len() && !(n + 1 < rest.len() && rest[n] == ':' && rest[n + 1] == ' ')
        invariant
            n <= rest.len(),
            colon_space(rest@) == n + colon_space(rest@.skip(n as int)),
        decreases rest.len() - n,
    {
        proof {
            assert(rest@.skip(n as int).drop_first() =~= rest@.skip(n as int + 1));
        }
        n = n + 1;
    }
    if n < rest.len() {
        let name: &[char] = slice_subrange(rest, 0, n);
        let message: &[char] = slice_subrange(rest, n + 2, rest.len());
        proof {
            assert(name@ =~= rest@.take(n as int));
            assert(message@ =~= rest@.skip(n as int + 2));
        }
        (text::trimmed(name), text::copy_chars(message))
    } else {
        (text::trimmed(rest), Vec::new())
    }
}

/// The running counts of a report.
struct Counts {
    total: Option<u32>,
    passed: u32,
    skipped: u32,
    duration_ms: u64,
}

impl Counts {
    spec fn tally(&self, failed: Seq<(Seq<char>, Seq<char>)>) -> Tally {
        Tally {
            total: self.total,
            passed: self.passed,
            skipped: self.skipped,
            duration_ms: self.duration_ms,
            failed,
        }
    }
}

/// Takes one token into the counts.
fn take_token(c: Counts, token: &[char], line_no: usize, failed: Ghost<
    Seq<(Seq<char>, Seq<char>)>,
>) -> (r: Result<Counts, EvidenceError>)
    ensures
        match token_step(c.tally(failed@), token@, line_no as nat) {
            Ok(t) => r matches Ok(d) && d.tally(failed@) == t,
            Err(t) => r matches Err(EvidenceError::Malformed(m)) && m@ == t,
        },
{
    let n: usize = text::find_char(token, '=');
    if n == token.len() {
        return Ok(c);
    }
    let key: &[char] = slice_subrange(token, 0, n);
    let value: &[char] = slice_subrange(token, n + 1, token.len());
    proof {
        assert(key@ =~= token@.take(n as int));
        assert(value@ =~= token@.skip(n as int + 1));
        lemma_keys_differ();
    }
    let name: String = text::string_of(key);
    if name == "total".to_owned() {
        match parse_number(line_no, name.as_str(), value, u32::MAX as u64) {
            Ok(v) => Ok(Counts { total: Some(v as u32), ..c }),
            Err(e) => Err(e),
        }
    } else if name == "passed".to_owned() {
        match parse_number(line_no, name.as_str(), value, u32::MAX as u64) {
            Ok(v) => Ok(Counts { passed: v as u32, ..c }),
            Err(e) => Err(e),
        }
    } else if name == "skipped".to_owned() {
        match parse_number(line_no, name.as_str(), value, u32::MAX as u64) {
            Ok(v) => Ok(Counts { skipped: v as u32, ..c }),
            Err(e) => Err(e),
        }
    } else if name == "duration_ms".to_owned() {
        match parse_number(line_no, name.as_str(), value, u64::MAX) {
            Ok(v) => Ok(Counts { duration_ms: v, ..c }),
            Err(e) => Err(e),
        }
    } else {
        Ok(c)
    }
}

proof fn lemma_keys_differ()
    ensures
        "total"@ != "passed"@,
        "total"@ != "skipped"@,
        "total"@ != "duration_ms"@,
        "passed"@ != "skipped"@,
        "passed"@ != "duration_ms"@,
        "skipped"@ != "duration_ms"@,
{
    reveal_strlit("total");
    reveal_strlit("passed");
    reveal_strlit("skipped");
    reveal_strlit("duration_ms");
    assert("total"@.len() == 5);
    assert("passed"@.len() == 6);
    assert("skipped"@.len() == 7);
    assert("duration_ms"@.len() == 11);
}

/// Takes the tokens of a line into the counts.
fn take_tokens(c: Counts, line: &[char], line_no: usize, failed: Ghost<
    Seq<(Seq<char>, Seq<char>)>,
>) -> (r: Result<Counts, EvidenceError>)
    ensures
        match tokens_step(c.tally(failed@), tokens_of(line@), line_no as nat) {
            Ok(t) => r matches Ok(d) && d.tally(failed@) == t,
            Err(t) => r matches Err(EvidenceError::Malformed(m)) && m@ == t,
        },
{
    let tokens: Vec<&[char]> = split_tokens(line);
    let ghost all = tokens_of(line@);
    let ghost goal = tokens_step(c.tally(failed@), all, line_no as nat);
    let mut counts: Counts = c;
    let mut i: usize = 0;
    proof {
        assert(all.skip(0) =~= all);
    }
    while i < tokens.len()
        invariant
            i <= tokens.len(),
            text::views(tokens@) == all,
            goal == tokens_step(c.tally(failed@), tokens_of(line@), line_no as nat),
            goal == tokens_step(counts.tally(failed@), all.skip(i as int), line_no as nat),
        decreases tokens.len() - i,
    {
        proof {
            assert(all[i as int] == tokens@[i as int]@);
            assert(all.skip(i as int)[0] == all[i as int]);
            assert(all.skip(i as int).drop_first() =~= all.skip(i as int + 1));
        }
        match take_token(counts, tokens[i], line_no, failed) {
            Ok(next) => {
                counts = next;
            },
            Err(e) => {
                return Err(e);
            },
        }
        i = i + 1;
    }
    proof {
        assert(all.skip(i as int) =~= Seq::empty());
    }
    Ok(counts)
}

impl TestReport {
    /// Parses `text` into a test report.
    pub fn try_from_text(text: &str) -> (r: Result<Self, EvidenceError>)
        ensures
            ({
                let lines = text::lines_of(text@);
                if lines.len() > MAX_INPUT_LINES {
                    r matches Err(e) && lines.len() <= usize::MAX && e == (
                    EvidenceError::Oversized {
                        max: MAX_INPUT_LINES,
                        actual: lines.len() as usize,
                    })
                } else {
                    match tally_of(lines) {
                        Ok(t) => r matches Ok(report) && report.total == t.count()
                            && report.passed == t.passed && report.skipped == t.skipped
                            && report.duration_ms == t.duration_ms && failure_views(report.failed@)
                            == kept_failures(t.failed) && report.field_truncated == cut_failures(
                            t.failed,
                        ).contains(true),
                        Err(t) => r matches Err(EvidenceError::Malformed(m)) && m@ == t,
                    }
                }
            }),
    {
        let chars: Vec<char> = text::chars_of(text);
        let lines: Vec<&[char]> = match bounded_lines(chars.as_slice()) {
            Ok(v) => v,
            Err(e) => {
                return Err(e);
            },
        };
        let ghost all = text::lines_of(text@);
        let ghost mut rows: Seq<(Seq<char>, Seq<char>)> = Seq::empty();
        let mut counts: Counts = Counts { total: None, passed: 0, skipped: 0, duration_ms: 0 };
        let mut failed: Vec<TestFailure> = Vec::new();
        let mut field_truncated: bool = false;
        let mut i: usize = 0;
        proof {
            assert(all.take(0) =~= Seq::empty());
            assert(failure_views(failed@) =~= kept_failures(rows));
            assert(counts.tally(rows) =~= empty_tally());
        }
        while i < lines.len()
            invariant
                i <= lines.len(),
                lines.len() <= MAX_INPUT_LINES,
                text::views(lines@) == all,
                all == text::lines_of(text@),
                tally_of(all.take(i as int)) == Ok::<Tally, Seq<char>>(counts.tally(rows)),
                failure_views(failed@) == kept_failures(rows),
                rows.len() == failed.len(),
                rows.len() <= i,
                field_truncated == cut_failures(rows).contains(true),
            decreases lines.len() - i,
        {
            let raw: &[char] = lines[i];
            let line: &[char] = text::trimmed(raw);
            proof {
                assert(all[i as int] == raw@);
                assert(all.take(i as int + 1).drop_last() =~= all.take(i as int));
                assert(all.take(i as int + 1).last() == raw@);
            }
            if line.len() > 0 {
                let rest: Option<&[char]> = match strip_prefix_ci(line, "fail ") {
                    Some(v) => Some(v),
                    None => strip_prefix_ci(line, "failed "),
                };
                match rest {
                    Some(rest) => {
                        let parts: (&[char], Vec<char>) = split_failure(rest);
                        if parts.0.len() == 0 {
                            proof {
                                lemma_tally_fail(all, i as int);
                            }
                            return Err(malformed_row("test_report", i + 1, raw));
                        }
                        let ghost before = failed@;
                        let ghost rows_before = rows;
                        let name: String = cap_field(parts.0, &mut field_truncated);
                        let message: String = cap_field(parts.1.as_slice(), &mut field_truncated);
                        failed.push(TestFailure { name, message });
                        proof {
                            let f = failure_of(rest@);
                            rows = rows.push(f);
                            assert(failure_views(failed@) =~= failure_views(before).push(
                                (name@, message@),
                            ));
                            assert(kept_failures(rows) =~= kept_failures(rows_before).push(
                                (field(f.0), field(f.1)),
                            ));
                            assert(cut_failures(rows) =~= cut_failures(rows_before).push(
                                too_long(f.0) || too_long(f.1),
                            ));
                            lemma_push_flag(
                                cut_failures(rows_before),
                                too_long(f.0) || too_long(f.1),
                            );
                        }
                    },
                    None => {
                        match take_tokens(counts, line, i + 1, Ghost(rows)) {
                            Ok(next) => {
                                counts = next;
                            },
                            Err(e) => {
                                proof {
                                    lemma_tally_fail(all, i as int);
                                }
                                return Err(e);
                            },
                        }
                    },
                }
            }
            i = i + 1;
        }
        proof {
            assert(all.take(i as int) =~= all);
        }
        let total: u32 = match counts.total {
            Some(t) => t,
            None => counts.passed.saturating_add(counts.skipped).saturating_add(
                failed.len() as u32,
            ),
        };
        Ok(
            TestReport {
                total,
                passed: counts.passed,
                failed,
                skipped: counts.skipped,
                duration_ms: counts.duration_ms,
                field_truncated,
            },
        )
    }
}

proof fn lemma_tally_fail(lines: Seq<Seq<char>>, n: int)
    requires
        0 <= n < lines.len(),
        tally_of(lines.take(n + 1)) is Err,
    ensures
        tally_of(lines) == tally_of(lines.take(n + 1)),
    decreases lines.len() - n,
{
    if n + 1 == lines.len() {
        assert(lines.take(n + 1) =~= lines);
    } else {
        assert(lines.take(n + 2).drop_last() =~= lines.take(n + 1));
        lemma_tally_fail(lines, n + 1);
    }
}

// ------------------------------------------------------------- process logs

/// One retained log line.
#[derive(Debug, Clone, PartialEq, Eq)]
pub struct LogEvent {
    /// Trimmed line text, at most [`MAX_FIELD_CHARS`] characters of it.
    pub text: String,
}

/// A run of consecutive identical (trimmed) log lines.
#[derive(Debug, Clone, PartialEq, Eq)]
pub struct RepeatedLogGroup {
    /// First 8 bytes of the BLAKE3 hash of the trimmed line, big-endian.
    pub fingerprint: u64,
    /// Number of consecutive occurrences, at least two.
    pub count: u64,
    /// The trimmed line, at most [`MAX_FIELD_CHARS`] characters of it.
    pub sample: String,
}

/// A bounded summary of a process or tool log.
#[derive(Debug, Clone, PartialEq, Eq)]
pub struct ProcessLogSummary {
    /// Reported process exit code, of the first row that states one.
    pub exit: Option<i32>,
    /// Lines that name a failure plus the final line, at most 256.
    pub important_lines: Vec<LogEvent>,
    /// Consecutive repetitions, in order.
    pub repeated_groups: Vec<RepeatedLogGroup>,
    /// True when any string field was cut at [`MAX_FIELD_CHARS`].
    pub field_truncated: bool,
}

/// The rows that are not blank, trimmed.
pub open spec fn entries_of(lines: Seq<Seq<char>>) -> Seq<Seq<char>>
    decreases lines.len(),
{
    if lines.len() == 0 {
        Seq::empty()
    } else if blank(lines.last()) {
        entries_of(lines.drop_last())
    } else {
        entries_of(lines.drop_last()).push(text::trim(lines.last()))
    }
}

/// An ASCII letter or digit.
pub open spec fn is_alnum(c: char) -> bool {
    text::is_dec_digit(c) || 'a' <= c <= 'z' || 'A' <= c <= 'Z'
}

/// The characters between the word `exit` and its number.
pub open spec fn is_exit_lead(c: char) -> bool {
    c == ':' || c == '=' || text::is_ws(c)
}

pub open spec fn skip_exit_lead(s: Seq<char>) -> Seq<char>
    decreases s.len(),
{
    if s.len() > 0 && is_exit_lead(s[0]) {
        skip_exit_lead(s.drop_first())
    } else {
        s
    }
}

/// `s` without its leading plus signs.
pub open spec fn skip_plus(s: Seq<char>) -> Seq<char>
    decreases s.len(),
{
    if s.len() > 0 && s[0] == '+' {
        skip_plus(s.drop_first())
    } else {
        s
    }
}

/// `s` without what follows its last digit.
pub open spec fn up_to_digit(s: Seq<char>) -> Seq<char>
    decreases s.len(),
{
    if s.len() > 0 && !text::is_dec_digit(s.last()) {
        up_to_digit(s.drop_last())
    } else {
        s
    }
}

/// What parsing `s` as a signed 32-bit number gives, as `str::parse` decides it.
pub open spec fn parsed_i32(s: Seq<char>) -> Option<i32> {
    if s.len() > 0 && s[0] == '-' {
        let d = s.drop_first();
        if d.len() > 0 && text::all_digits(d) && text::digits_value(d) <= 0x8000_0000 {
            Some((-(text::digits_value(d) as int)) as i32)
        } else {
            None
        }
    } else {
        match text::parsed(s, i32::MAX as nat) {
            Some(v) => Some(v as i32),
            None => None,
        }
    }
}

/// What follows the word `exit` and one of the phrases that may stand between
/// it and its number.
pub open spec fn after_exit(rest: Seq<char>) -> Seq<char> {
    match after_prefix(rest, "ed with code"@) {
        Some(t) => t,
        None => match after_prefix(rest, "ed with status"@) {
            Some(t) => t,
            None => match after_prefix(rest, " code"@) {
                Some(t) => t,
                None => match after_prefix(rest, " status"@) {
                    Some(t) => t,
                    None => match after_prefix(rest, "_code"@) {
                        Some(t) => t,
                        None => match after_prefix(rest, "_status"@) {
                            Some(t) => t,
                            None => rest,
                        },
                    },
                },
            },
        },
    }
}

/// The exit code stated by what follows the word `exit`.
pub open spec fn exit_after(rest: Seq<char>) -> Option<i32> {
    let w = text::words(skip_exit_lead(after_exit(rest)));
    if w.len() == 0 {
        None
    } else {
        parsed_i32(up_to_digit(skip_plus(w[0])))
    }
}

/// The exit code stated at the first word `exit` from `i` on that states one.
pub open spec fn exit_from(line: Seq<char>, i: int) -> Option<i32>
    decreases line.len() - i,
{
    if i >= line.len() {
        None
    } else if text::at_ci(line, i, "exit"@) && (i == 0 || !is_alnum(line[i - 1])) && exit_after(
        line.skip(i + 4),
    ) is Some {
        exit_after(line.skip(i + 4))
    } else {
        exit_from(line, i + 1)
    }
}

/// The exit code of the first entry that states one.
pub open spec fn exit_of(entries: Seq<Seq<char>>) -> Option<i32>
    decreases entries.len(),
{
    if entries.len() == 0 {
        None
    } else if exit_from(entries[0], 0) is Some {
        exit_from(entries[0], 0)
    } else {
        exit_of(entries.drop_first())
    }
}

/// The entries that name a failure.
pub open spec fn important_of(entries: Seq<Seq<char>>) -> Seq<Seq<char>>
    decreases entries.len(),
{
    if entries.len() == 0 {
        Seq::empty()
    } else if compress::is_failure(entries.last()) {
        important_of(entries.drop_last()).push(entries.last())
    } else {
        important_of(entries.drop_last())
    }
}

/// The important lines: the entries that name a failure, as many as fit beside
/// the last entry, and the last entry.
pub open spec fn picked(entries: Seq<Seq<char>>) -> Seq<Seq<char>> {
    let imp = important_of(entries);
    if entries.len() == 0 {
        Seq::empty()
    } else if imp.len() < MAX_IMPORTANT_LINES {
        if compress::is_failure(entries.last()) {
            imp
        } else {
            imp.push(entries.last())
        }
    } else {
        imp.take(MAX_IMPORTANT_LINES - 1).push(entries.last())
    }
}

/// How many leading entries equal the first.
pub open spec fn same_run(entries: Seq<Seq<char>>) -> nat
    decreases entries.len(),
{
    if entries.len() == 0 {
        0
    } else if entries.len() >= 2 && entries[1] == entries[0] {
        1 + same_run(entries.drop_first())
    } else {
        1
    }
}

pub proof fn lemma_same_run(entries: Seq<Seq<char>>)
    ensures
        same_run(entries) <= entries.len(),
        entries.len() > 0 ==> same_run(entries) > 0,
    decreases entries.len(),
{
    if entries.len() > 0 {
        lemma_same_run(entries.drop_first());
    }
}

/// The runs of at least two equal entries: the entry and its count.
pub open spec fn groups_of(entries: Seq<Seq<char>>) -> Seq<(Seq<char>, nat)>
    decreases entries.len(),
{
    proof {
        lemma_same_run(entries);
    }
    if entries.len() == 0 {
        Seq::empty()
    } else {
        let n = same_run(entries);
        let rest = groups_of(entries.skip(n as int));
        if n >= 2 {
            seq![(entries[0], n)] + rest
        } else {
            rest
        }
    }
}

/// The number that bytes write, most significant first.
pub open spec fn big_endian(bytes: Seq<u8>) -> nat
    decreases bytes.len(),
{
    if bytes.len() == 0 {
        0
    } else {
        big_endian(bytes.drop_last()) * 256 + bytes.last() as nat
    }
}

/// The fingerprint of a line.
pub open spec fn fingerprint_of(line: Seq<char>) -> nat {
    big_endian(digest::blake3_of(vstd::utf8::encode_utf8(line)).take(8))
}

/// Which rows were cut.
pub open spec fn cut_rows(rows: Seq<Seq<char>>) -> Seq<bool> {
    Seq::new(rows.len(), |i: int| too_long(rows[i]))
}

pub open spec fn event_views(events: Seq<LogEvent>) -> Seq<Seq<char>> {
    Seq::new(events.len(), |i: int| events[i].text@)
}

pub open spec fn kept_rows(rows: Seq<Seq<char>>) -> Seq<Seq<char>> {
    Seq::new(rows.len(), |i: int| field(rows[i]))
}

/// The samples of the groups.
pub open spec fn samples(groups: Seq<(Seq<char>, nat)>) -> Seq<Seq<char>> {
    Seq::new(groups.len(), |i: int| groups[i].0)
}

/// The group stands for the run.
pub open spec fn states_group(g: RepeatedLogGroup, run: (Seq<char>, nat)) -> bool {
    &&& g.fingerprint == fingerprint_of(run.0)
    &&& g.count == run.1
    &&& g.sample@ == field(run.0)
}

/// The groups stand for the runs, in order.
pub open spec fn states_groups(groups: Seq<RepeatedLogGroup>, runs: Seq<(Seq<char>, nat)>) -> bool {
    &&& groups.len() == runs.len()
    &&& forall|i: int| 0 <= i < groups.len() ==> #[trigger] states_group(groups[i], runs[i])
}

fn parse_i32(s: &[char]) -> (r: Option<i32>)
    ensures
        r == parsed_i32(s@),
{
    if s.len() > 0 && s[0] == '-' {
        let d: &[char] = slice_subrange(s, 1, s.len());
        proof {
            assert(d@ =~= s@.drop_first());
        }
        if d.len() > 0 && d[0] == '+' {
            proof {
                assert(!text::is_dec_digit(d@[0]));
            }
            return None;
        }
        match text::parse_unsigned(d, 0x8000_0000) {
            Some(v) => Some((0 - (v as i64)) as i32),
            None => None,
        }
    } else {
        match text::parse_unsigned(s, i32::MAX as u64) {
            Some(v) => Some(v as i32),
            None => None,
        }
    }
}

/// What follows the phrase after the word `exit`.
fn skip_exit_phrase(rest: &[char]) -> (r: &[char])
    ensures
        r@ == after_exit(rest@),
{
    if let Some(t) = strip_prefix_ci(rest, "ed with code") {
        return t;
    }
    if let Some(t) = strip_prefix_ci(rest, "ed with status") {
        return t;
    }
    if let Some(t) = strip_prefix_ci(rest, " code") {
        return t;
    }
    if let Some(t) = strip_prefix_ci(rest, " status") {
        return t;
    }
    if let Some(t) = strip_prefix_ci(rest, "_code") {
        return t;
    }
    if let Some(t) = strip_prefix_ci(rest, "_status") {
        return t;
    }
    rest
}

fn exit_code_after(rest: &[char]) -> (r: Option<i32>)
    ensures
        r == exit_after(rest@),
{
    let tail: &[char] = skip_exit_phrase(rest);
    let mut i: usize = 0;
    proof {
        assert(tail@.skip(0) =~= tail@);
    }
    while i < tail.len() && (tail[i] == ':' || tail[i] == '=' || text::is_whitespace(tail[i]))
        invariant
            i <= tail.len(),
            skip_exit_lead(tail@) == skip_exit_lead(tail@.skip(i as int)),
        decreases tail.len() - i,
    {
        proof {
            assert(tail@.skip(i as int).drop_first() =~= tail@.skip(i as int + 1));
        }
        i = i + 1;
    }
    let lead: &[char] = slice_subrange(tail, i, tail.len());
    proof {
        assert(lead@ =~= tail@.skip(i as int));
    }
    let words: Vec<&[char]> = text::split_words(lead, 1);
    proof {
        assert(text::views(words@).len() == words@.len());
    }
    if words.len() == 0 {
        return None;
    }
    let token: &[char] = words[0];
    proof {
        assert(text::views(words@)[0] == token@);
    }
    let mut a: usize = 0;
    proof {
        assert(token@.skip(0) =~= token@);
    }
    while a < token.len() && token[a] == '+'
        invariant
            a <= token.len(),
            skip_plus(token@) == skip_plus(token@.skip(a as int)),
        decreases token.len() - a,
    {
        proof {
            assert(token@.skip(a as int).drop_first() =~= token@.skip(a as int + 1));
        }
        a = a + 1;
    }
    let plain: &[char] = slice_subrange(token, a, token.len());
    let mut b: usize = plain.len();
    proof {
        assert(plain@ =~= token@.skip(a as int));
        assert(plain@.take(b as int) =~= plain@);
    }
    while b > 0 && !('0' <= plain[b - 1] && plain[b - 1] <= '9')
        invariant
            b <= plain.len(),
            up_to_digit(plain@) == up_to_digit(plain@.take(b as int)),
        decreases b,
    {
        proof {
            assert(plain@.take(b as int).drop_last() =~= plain@.take(b as int - 1));
        }
        b = b - 1;
    }
    let digits: &[char] = slice_subrange(plain, 0, b);
    proof {
        assert(digits@ =~= plain@.take(b as int));
    }
    parse_i32(digits)
}

/// The exit code that a line states.
fn parse_exit_code(line: &[char]) -> (r: Option<i32>)
    ensures
        r == exit_from(line@, 0),
{
    let word: Vec<char> = text::chars_of("exit");
    let mut i: usize = 0;
    while i < line.len()
        invariant
            i <= line.len(),
            word@ == "exit"@,
            exit_from(line@, 0) == exit_from(line@, i as int),
        decreases line.len() - i,
    {
        if text::stands_at_ci(line, i, word.as_slice()) {
            let fresh: bool = i == 0 || !ascii_alphanumeric(line[i - 1]);
            if fresh {
                proof {
                    reveal_strlit("exit");
                }
                let rest: &[char] = slice_subrange(line, i + 4, line.len());
                proof {
                    assert(rest@ =~= line@.skip(i as int + 4));
                }
                if let Some(code) = exit_code_after(rest) {
                    return Some(code);
                }
            }
        }
        i = i + 1;
    }
    None
}

fn ascii_alphanumeric(c: char) -> (r: bool)
    ensures
        r == is_alnum(c),
{
    ('0' <= c && c <= '9') || ('a' <= c && c <= 'z') || ('A' <= c && c <= 'Z')
}

proof fn lemma_important_prefix(entries: Seq<Seq<char>>, n: int)
    requires
        0 <= n <= entries.len(),
    ensures
        important_of(entries.take(n)).is_prefix_of(important_of(entries)),
    decreases entries.len() - n,
{
    if n == entries.len() {
        assert(entries.take(n) =~= entries);
    } else {
        lemma_important_prefix(entries, n + 1);
        assert(entries.take(n + 1).drop_last() =~= entries.take(n));
        let a = important_of(entries.take(n));
        let b = important_of(entries.take(n + 1));
        let c = important_of(entries);
        assert(a.is_prefix_of(b));
        assert(a =~= c.take(a.len() as int));
    }
}

/// Lines that name a failure, and the last line.
fn select_important_lines(entries: &Vec<&[char]>, truncated: &mut bool) -> (r: Vec<LogEvent>)
    ensures
        event_views(r@) == kept_rows(picked(text::views(entries@))),
        *final(truncated) == (*old(truncated) || cut_rows(
            picked(text::views(entries@)),
        ).contains(true)),
{
    let ghost all = text::views(entries@);
    let mut out: Vec<LogEvent> = Vec::new();
    if entries.len() == 0 {
        proof {
            assert(event_views(out@) =~= kept_rows(picked(all)));
        }
        return out;
    }
    let ghost mut rows: Seq<Seq<char>> = Seq::empty();
    let mut last_captured: bool = false;
    let mut i: usize = 0;
    proof {
        assert(all.take(0) =~= Seq::empty());
        assert(event_views(out@) =~= kept_rows(rows));
    }
    while i < entries.len() && out.len() < MAX_IMPORTANT_LINES - 1
        invariant
            i <= entries.len(),
            entries.len() > 0,
            all == text::views(entries@),
            out.len() <= MAX_IMPORTANT_LINES - 1,
            rows.len() == out.len(),
            rows == important_of(all.take(i as int)),
            event_views(out@) == kept_rows(rows),
            *truncated == (*old(truncated) || cut_rows(rows).contains(true)),
            last_captured == (i == entries.len() && compress::is_failure(all.last())),
        decreases entries.len() - i,
    {
        let line: &[char] = entries[i];
        proof {
            assert(all[i as int] == line@);
            assert(all.take(i as int + 1).drop_last() =~= all.take(i as int));
            assert(all.take(i as int + 1).last() == line@);
        }
        if compress::is_failure_line(line) {
            let ghost before = out@;
            let ghost rows_before = rows;
            if i == entries.len() - 1 {
                last_captured = true;
            }
            let kept: String = cap_field(line, truncated);
            out.push(LogEvent { text: kept });
            proof {
                rows = rows.push(line@);
                assert(event_views(out@) =~= event_views(before).push(field(line@)));
                assert(kept_rows(rows) =~= kept_rows(rows_before).push(field(line@)));
                assert(cut_rows(rows) =~= cut_rows(rows_before).push(too_long(line@)));
                lemma_push_flag(cut_rows(rows_before), too_long(line@));
            }
        }
        i = i + 1;
    }
    proof {
        lemma_important_prefix(all, i as int);
        let imp = important_of(all);
        if i == entries.len() {
            assert(all.take(i as int) =~= all);
        }
        assert(rows =~= imp.take(rows.len() as int));
        if i < entries.len() {
            // The scan stopped early, so the last entry is still to come.
            lemma_important_rest(all, i as int);
        }
    }
    if !last_captured {
        let line: &[char] = entries[entries.len() - 1];
        let ghost before = out@;
        let ghost rows_before = rows;
        proof {
            assert(all.last() == line@);
        }
        let kept: String = cap_field(line, truncated);
        out.push(LogEvent { text: kept });
        proof {
            rows = rows.push(line@);
            assert(event_views(out@) =~= event_views(before).push(field(line@)));
            assert(kept_rows(rows) =~= kept_rows(rows_before).push(field(line@)));
            assert(cut_rows(rows) =~= cut_rows(rows_before).push(too_long(line@)));
            lemma_push_flag(cut_rows(rows_before), too_long(line@));
        }
    }
    proof {
        assert(rows =~= picked(all));
    }
    out
}

/// Where a last entry that names a failure is left out of a scan, there is one
/// more such entry than the scan found.
proof fn lemma_important_rest(entries: Seq<Seq<char>>, n: int)
    requires
        0 <= n < entries.len(),
    ensures
        compress::is_failure(entries.last()) ==> important_of(entries).len() > important_of(
            entries.take(n),
        ).len(),
{
    let most = entries.drop_last();
    lemma_important_prefix(most, n);
    assert(most.take(n) =~= entries.take(n));
}

proof fn lemma_same_run_is(entries: Seq<Seq<char>>, n: nat)
    requires
        1 <= n <= entries.len(),
        forall|j: int| 0 <= j < n ==> #[trigger] entries[j] == entries[0],
        n < entries.len() ==> entries[n as int] != entries[0],
    ensures
        same_run(entries) == n,
    decreases n,
{
    if n > 1 {
        let t = entries.drop_first();
        assert(t[0] == entries[1]);
        assert(entries[1] == entries[0]);
        assert forall|j: int| 0 <= j < n - 1 implies #[trigger] t[j] == t[0] by {
            assert(t[j] == entries[j + 1]);
        }
        if n - 1 < t.len() {
            assert(t[n - 1] == entries[n as int]);
        }
        lemma_same_run_is(t, (n - 1) as nat);
    } else if entries.len() >= 2 {
        assert(entries[1] != entries[0]);
    }
}

/// The repetition fingerprint of a line.
fn line_fingerprint(line: &[char]) -> (r: u64)
    ensures
        r == fingerprint_of(line@),
{
    let whole: String = text::string_of(line);
    let d: [u8; 32] = digest::digest_bytes(whole.as_str().as_bytes());
    let ghost b = d@.take(8);
    let v1: u64 = d[0] as u64;
    let v2: u64 = v1 * 256 + d[1] as u64;
    let v3: u64 = v2 * 256 + d[2] as u64;
    let v4: u64 = v3 * 256 + d[3] as u64;
    let v5: u64 = v4 * 256 + d[4] as u64;
    let v6: u64 = v5 * 256 + d[5] as u64;
    let v7: u64 = v6 * 256 + d[6] as u64;
    let v8: u64 = v7 * 256 + d[7] as u64;
    proof {
        assert(b.take(1).drop_last() =~= Seq::empty());
        assert(big_endian(b.take(1).drop_last()) == 0);
        assert(big_endian(b.take(1)) == v1);
        assert(b.take(2).drop_last() =~= b.take(1));
        assert(big_endian(b.take(2)) == v2);
        assert(b.take(3).drop_last() =~= b.take(2));
        assert(big_endian(b.take(3)) == v3);
        assert(b.take(4).drop_last() =~= b.take(3));
        assert(big_endian(b.take(4)) == v4);
        assert(b.take(5).drop_last() =~= b.take(4));
        assert(big_endian(b.take(5)) == v5);
        assert(b.take(6).drop_last() =~= b.take(5));
        assert(big_endian(b.take(6)) == v6);
        assert(b.take(7).drop_last() =~= b.take(6));
        assert(big_endian(b.take(7)) == v7);
        assert(b.drop_last() =~= b.take(7));
    }
    v8
}

/// Consecutive runs of at least two equal lines.
fn group_repeats(entries: &Vec<&[char]>, truncated: &mut bool) -> (r: Vec<RepeatedLogGroup>)
    ensures
        states_groups(r@, groups_of(text::views(entries@))),
        *final(truncated) == (*old(truncated) || cut_rows(
            samples(groups_of(text::views(entries@))),
        ).contains(true)),
{
    let ghost all = text::views(entries@);
    let mut out: Vec<RepeatedLogGroup> = Vec::new();
    let ghost mut runs: Seq<(Seq<char>, nat)> = Seq::empty();
    let mut i: usize = 0;
    proof {
        assert(all.skip(0) =~= all);
        assert(runs + groups_of(all) =~= groups_of(all));
    }
    while i < entries.len()
        invariant
            i <= entries.len(),
            all == text::views(entries@),
            states_groups(out@, runs),
            groups_of(all) == runs + groups_of(all.skip(i as int)),
            *truncated == (*old(truncated) || cut_rows(samples(runs)).contains(true)),
        decreases entries.len() - i,
    {
        let sample: &[char] = entries[i];
        let mut count: usize = 1;
        proof {
            assert(all[i as int] == sample@);
        }
        while i + count < entries.len() && text::chars_eq(entries[i + count], sample)
            invariant
                1 <= count,
                i + count <= entries.len(),
                i < entries.len(),
                all == text::views(entries@),
                sample@ == all[i as int],
                forall|j: int| i <= j < i + count ==> #[trigger] all[j] == sample@,
            decreases entries.len() - count,
        {
            proof {
                assert(all[i + count] == entries@[i + count]@);
            }
            count = count + 1;
        }
        proof {
            let t = all.skip(i as int);
            assert(t[0] == sample@);
            assert forall|j: int| 0 <= j < count implies #[trigger] t[j] == t[0] by {
                assert(t[j] == all[i + j]);
            }
            if count < t.len() {
                assert(t[count as int] == all[i + count]);
                assert(all[i + count] == entries@[i + count]@);
            }
            lemma_same_run_is(t, count as nat);
            assert(t.skip(count as int) =~= all.skip(i + count));
        }
        if count > 1 {
            let ghost before = out@;
            let ghost runs_before = runs;
            let kept: String = cap_field(sample, truncated);
            out.push(
                RepeatedLogGroup {
                    fingerprint: line_fingerprint(sample),
                    count: count as u64,
                    sample: kept,
                },
            );
            proof {
                let run = (sample@, count as nat);
                runs = runs.push(run);
                assert(runs_before + (seq![run] + groups_of(all.skip(i + count))) =~= runs
                    + groups_of(all.skip(i + count)));
                assert forall|k: int| 0 <= k < out@.len() implies #[trigger] states_group(
                    out@[k],
                    runs[k],
                ) by {
                    if k < before.len() {
                        assert(states_group(before[k], runs_before[k]));
                    }
                }
                assert(cut_rows(samples(runs)) =~= cut_rows(samples(runs_before)).push(
                    too_long(sample@),
                ));
                lemma_push_flag(cut_rows(samples(runs_before)), too_long(sample@));
            }
        }
        i = i + count;
    }
    proof {
        assert(all.skip(i as int) =~= Seq::empty());
        assert(runs + Seq::empty() =~= runs);
    }
    out
}

impl ProcessLogSummary {
    /// Builds a bounded summary of arbitrary log `text`.
    pub fn try_from_text(text: &str) -> (r: Result<Self, EvidenceError>)
        ensures
            ({
                let lines = text::lines_of(text@);
                let entries = entries_of(lines);
                if lines.len() > MAX_INPUT_LINES {
                    r matches Err(e) && lines.len() <= usize::MAX && e == (
                    EvidenceError::Oversized {
                        max: MAX_INPUT_LINES,
                        actual: lines.len() as usize,
                    })
                } else {
                    r matches Ok(s) && s.exit == exit_of(entries) && event_views(
                        s.important_lines@,
                    ) == kept_rows(picked(entries)) && states_groups(
                        s.repeated_groups@,
                        groups_of(entries),
                    ) && s.field_truncated == (cut_rows(picked(entries)).contains(true) || cut_rows(
                        samples(groups_of(entries)),
                    ).contains(true))
                }
            }),
    {
        let chars: Vec<char> = text::chars_of(text);
        let lines: Vec<&[char]> = match bounded_lines(chars.as_slice()) {
            Ok(v) => v,
            Err(e) => {
                return Err(e);
            },
        };
        let ghost all = text::lines_of(text@);
        let mut entries: Vec<&[char]> = Vec::new();
        let mut i: usize = 0;
        proof {
            assert(all.take(0) =~= Seq::empty());
            assert(text::views(entries@) =~= Seq::empty());
        }
        while i < lines.len()
            invariant
                i <= lines.len(),
                text::views(lines@) == all,
                text::views(entries@) == entries_of(all.take(i as int)),
            decreases lines.len() - i,
        {
            let line: &[char] = text::trimmed(lines[i]);
            proof {
                assert(all[i as int] == lines@[i as int]@);
                assert(all.take(i as int + 1).drop_last() =~= all.take(i as int));
            }
            if line.len() > 0 {
                let ghost before = entries@;
                entries.push(line);
                proof {
                    assert(text::views(entries@) =~= text::views(before).push(line@));
                }
            }
            i = i + 1;
        }
        proof {
            assert(all.take(i as int) =~= all);
        }
        let ghost rows = entries_of(all);
        let mut exit: Option<i32> = None;
        let mut k: usize = 0;
        proof {
            assert(rows.skip(0) =~= rows);
        }
        while k < entries.len() && exit.is_none()
            invariant
                k <= entries.len(),
                text::views(entries@) == rows,
                exit is None ==> exit_of(rows) == exit_of(rows.skip(k as int)),
                exit is Some ==> exit_of(rows) == exit,
            decreases entries.len() - k,
        {
            proof {
                assert(rows[k as int] == entries@[k as int]@);
                assert(rows.skip(k as int)[0] == rows[k as int]);
                assert(rows.skip(k as int).drop_first() =~= rows.skip(k as int + 1));
            }
            exit = parse_exit_code(entries[k]);
            k = k + 1;
        }
        proof {
            if exit is None {
                assert(rows.skip(k as int) =~= Seq::empty());
            }
        }
        let mut field_truncated: bool = false;
        let important_lines: Vec<LogEvent> = select_important_lines(
            &entries,
            &mut field_truncated,
        );
        let repeated_groups: Vec<RepeatedLogGroup> = group_repeats(
            &entries,
            &mut field_truncated,
        );
        Ok(ProcessLogSummary { exit, important_lines, repeated_groups, field_truncated })
    }
}

// -------------------------------------------------------------------- laws

/// A log summary keeps at most [`MAX_IMPORTANT_LINES`] lines, each of them an
/// entry of the log that names a failure or is its last, and the last of them
/// is the last entry.
pub proof fn law_last_entry_is_always_kept(entries: Seq<Seq<char>>)
    requires
        entries.len() > 0,
    ensures
        1 <= picked(entries).len() <= MAX_IMPORTANT_LINES,
        picked(entries).last() == entries.last(),
        forall|i: int|
            0 <= i < picked(entries).len() ==> compress::is_failure(#[trigger] picked(entries)[i])
                || i == picked(entries).len() - 1,
{
    lemma_important_all_fail(entries);
    let imp = important_of(entries);
    if compress::is_failure(entries.last()) {
        assert(imp.last() == entries.last());
    }
}

proof fn lemma_important_all_fail(entries: Seq<Seq<char>>)
    ensures
        forall|i: int|
            0 <= i < important_of(entries).len() ==> compress::is_failure(
                #[trigger] important_of(entries)[i],
            ),
    decreases entries.len(),
{
    if entries.len() > 0 {
        lemma_important_all_fail(entries.drop_last());
        let a = important_of(entries.drop_last());
        assert forall|i: int| 0 <= i < important_of(entries).len() implies compress::is_failure(
            #[trigger] important_of(entries)[i],
        ) by {
            if i < a.len() {
                assert(important_of(entries)[i] == a[i]);
            }
        }
    }
}

/// A field that is kept is a prefix of what was read and at most
/// [`MAX_FIELD_CHARS`] characters long; it is the whole field unless the field
/// counts as cut.
pub proof fn law_fields_are_cut_openly(s: Seq<char>)
    ensures
        field(s).is_prefix_of(s),
        field(s).len() <= MAX_FIELD_CHARS,
        !too_long(s) ==> field(s) == s,
        too_long(s) ==> field(s).len() == MAX_FIELD_CHARS,
{
}

/// One row that breaks the grammar fails the whole input: a non-blank row that
/// states no diagnostic leaves no diagnostics at all.
pub proof fn law_a_bad_diagnostic_row_fails_the_input(lines: Seq<Seq<char>>, n: int)
    requires
        0 <= n < lines.len(),
        !blank(lines[n]),
        diagnostic_of(lines[n]) is None,
    ensures
        diagnostics_of(lines) is Err,
        0 <= diagnostics_of(lines)->Err_0 <= n,
    decreases lines.len(),
{
    if n == lines.len() - 1 {
        lemma_diagnostic_fault_place(lines.drop_last());
    } else {
        assert(lines.drop_last()[n] == lines[n]);
        law_a_bad_diagnostic_row_fails_the_input(lines.drop_last(), n);
    }
}

proof fn lemma_diagnostic_fault_place(lines: Seq<Seq<char>>)
    ensures
        diagnostics_of(lines) matches Err(i) ==> 0 <= i < lines.len(),
    decreases lines.len(),
{
    if lines.len() > 0 {
        lemma_diagnostic_fault_place(lines.drop_last());
    }
}

/// One row that breaks the grammar fails the whole input: a non-blank row that
/// states no hit leaves no hits at all.
pub proof fn law_a_bad_search_row_fails_the_input(lines: Seq<Seq<char>>, n: int)
    requires
        0 <= n < lines.len(),
        !blank(lines[n]),
        hit_of(lines[n]) is None,
    ensures
        hits_of(lines) is Err,
        0 <= hits_of(lines)->Err_0 <= n,
    decreases lines.len(),
{
    if n == lines.len() - 1 {
        lemma_hit_fault_place(lines.drop_last());
    } else {
        assert(lines.drop_last()[n] == lines[n]);
        law_a_bad_search_row_fails_the_input(lines.drop_last(), n);
    }
}

proof fn lemma_hit_fault_place(lines: Seq<Seq<char>>)
    ensures
        hits_of(lines) matches Err(i) ==> 0 <= i < lines.len(),
    decreases lines.len(),
{
    if lines.len() > 0 {
        lemma_hit_fault_place(lines.drop_last());
    }
}

/// Blank rows alone are an empty value of every normalizer.
pub proof fn law_blank_input_is_empty(lines: Seq<Seq<char>>)
    requires
        forall|i: int| 0 <= i < lines.len() ==> blank(#[trigger] lines[i]),
    ensures
        diagnostics_of(lines) == Ok::<Seq<DiagnosticView>, int>(Seq::empty()),
        hits_of(lines) == Ok::<Seq<HitView>, int>(Seq::empty()),
        tally_of(lines) == Ok::<Tally, Seq<char>>(empty_tally()),
        entries_of(lines) == Seq::<Seq<char>>::empty(),
    decreases lines.len(),
{
    if lines.len() > 0 {
        let most = lines.drop_last();
        assert forall|i: int| 0 <= i < most.len() implies blank(#[trigger] most[i]) by {
            assert(most[i] == lines[i]);
        }
        assert(blank(lines[lines.len() - 1]));
        law_blank_input_is_empty(most);
    }
}

/// How much is read and kept.
pub proof fn law_how_much_is_kept()
    ensures
        MAX_INPUT_LINES == 500000,
        MAX_FIELD_CHARS == 4096,
        MAX_IMPORTANT_LINES == 256,
{
}

/// A number in decimal before a colon is the digits there.
proof fn lemma_digits_before(n: nat, rest: Seq<char>)
    ensures
        leading_digits(text::decimal(n) + seq![':'] + rest) == text::decimal(n).len(),
        (text::decimal(n) + seq![':'] + rest).take(text::decimal(n).len() as int) == text::decimal(
            n,
        ),
{
    text::lemma_decimal_value(n);
    lemma_digits_then(text::decimal(n), rest);
    let s = text::decimal(n) + seq![':'] + rest;
    assert(s.take(text::decimal(n).len() as int) =~= text::decimal(n));
}

proof fn lemma_digits_then(d: Seq<char>, rest: Seq<char>)
    requires
        text::all_digits(d),
    ensures
        leading_digits(d + seq![':'] + rest) == d.len(),
    decreases d.len(),
{
    let s = d + seq![':'] + rest;
    if d.len() == 0 {
        assert(s[0] == ':');
    } else {
        assert(text::is_dec_digit(d[0]));
        assert(s[0] == d[0]);
        assert(s.drop_first() =~= d.drop_first() + seq![':'] + rest);
        assert forall|i: int| 0 <= i < d.drop_first().len() implies text::is_dec_digit(
            #[trigger] d.drop_first()[i],
        ) by {
            assert(text::is_dec_digit(d[i + 1]));
        }
        lemma_digits_then(d.drop_first(), rest);
    }
}

/// A group behind a text.
proof fn lemma_group_behind(before: Seq<char>, n: nat, rest: Seq<char>)
    ensures
        ({
            let s = before + seq![':'] + text::decimal(n) + seq![':'] + rest;
            let i = before.len() as int;
            &&& group_at(s, i)
            &&& group_end(s, i) == i + 1 + text::decimal(n).len()
            &&& n <= u32::MAX ==> group_number(s, i) == Some(n as u32)
            &&& n > u32::MAX ==> group_number(s, i) is None
            &&& s.skip(group_end(s, i) + 1) == rest
            &&& s.take(i) == before
        }),
{
    let d = text::decimal(n);
    let s = before + seq![':'] + d + seq![':'] + rest;
    let i = before.len() as int;
    text::lemma_decimal_value(n);
    lemma_digits_before(n, rest);
    assert(s.skip(i + 1) =~= d + seq![':'] + rest);
    assert(s.skip(i + 1)[d.len() as int] == ':');
    assert(s.skip(i + 1 + d.len() + 1) =~= rest);
    assert(s.take(i) =~= before);
}

/// No group begins within a text without a colon.
proof fn lemma_no_group_before(s: Seq<char>, i: int, n: int)
    requires
        0 <= i <= n <= s.len(),
        forall|j: int| i <= j < n ==> s[j] != ':',
    ensures
        first_group(s, i) == first_group(s, n),
        first_place(s, i) == first_place(s, n),
    decreases n - i,
{
    if i < n {
        assert(s[i] != ':');
        lemma_no_group_before(s, i + 1, n);
    }
}

/// A row `path:line:text` states a hit: the path, the line, and the text as it
/// stands. A line number that does not fit into 32 bits states none.
pub proof fn law_a_search_row_states_its_hit(path: Seq<char>, line: nat, said: Seq<char>)
    requires
        path.len() > 0,
        !path.contains(':'),
        !text::is_ws(path[0]),
        !text::is_ws(path.last()),
    ensures
        ({
            let row = path + seq![':'] + text::decimal(line) + seq![':'] + said;
            &&& line <= u32::MAX ==> hit_of(row) == Some((path, line as u32, said))
            &&& line > u32::MAX ==> hit_of(row) is None
            &&& hit_of(path) is None
        }),
{
    let row = path + seq![':'] + text::decimal(line) + seq![':'] + said;
    lemma_group_behind(path, line, said);
    assert forall|j: int| 0 <= j < path.len() implies row[j] != ':' by {
        assert(row[j] == path[j]);
        assert(path.contains(path[j]));
    }
    lemma_no_group_before(row, 0, path.len() as int);
    text::law_trimming_leaves_the_text(Seq::empty(), path, Seq::empty());
    assert(Seq::<char>::empty() + path + Seq::<char>::empty() =~= path);
    assert forall|j: int| 0 <= j < path.len() implies path[j] != ':' by {
        assert(path.contains(path[j]));
    }
    lemma_no_group_before(path, 0, path.len() as int);
}

/// A row `path:line:column: rest` states a diagnostic at that place, with the
/// severity, the code and the message of the rest.
#[verifier::rlimit(20)]
pub proof fn law_a_diagnostic_row_states_its_place(
    path: Seq<char>,
    line: nat,
    column: nat,
    rest: Seq<char>,
)
    requires
        path.len() > 0,
        !path.contains(':'),
        !text::is_ws(path[0]),
        !text::is_ws(path.last()),
        !blank(severity_of(rest).2),
    ensures
        ({
            let row = path + seq![':'] + text::decimal(line) + seq![':'] + text::decimal(column)
                + seq![':'] + rest;
            &&& line <= u32::MAX && column <= u32::MAX ==> diagnostic_of(row) == Some(
                DiagnosticView {
                    path,
                    line: line as u32,
                    column: column as u32,
                    severity: severity_of(rest).0,
                    code: severity_of(rest).1,
                    message: severity_of(rest).2,
                },
            )
            &&& line > u32::MAX || column > u32::MAX ==> diagnostic_of(row) is None
            &&& diagnostic_of(path) is None
        }),
{
    let dl = text::decimal(line);
    let dc = text::decimal(column);
    let row = path + seq![':'] + dl + seq![':'] + dc + seq![':'] + rest;
    let tail = dc + seq![':'] + rest;
    lemma_group_behind(path, line, tail);
    assert(path + seq![':'] + dl + seq![':'] + tail =~= row);
    let before = path + seq![':'] + dl;
    lemma_group_behind(before, column, rest);
    assert(before + seq![':'] + dc + seq![':'] + rest =~= row);
    assert forall|j: int| 0 <= j < path.len() implies row[j] != ':' by {
        assert(row[j] == path[j]);
        assert(path.contains(path[j]));
    }
    lemma_no_group_before(row, 0, path.len() as int);
    text::law_trimming_leaves_the_text(Seq::empty(), path, Seq::empty());
    assert(Seq::<char>::empty() + path + Seq::<char>::empty() =~= path);
    assert forall|j: int| 0 <= j < path.len() implies path[j] != ':' by {
        assert(path.contains(path[j]));
    }
    lemma_no_group_before(path, 0, path.len() as int);
    assert(row.take(path.len() as int) =~= path);
}

/// The word for a severity.
pub open spec fn word_of(s: Severity) -> Seq<char> {
    match s {
        Severity::Error => "error"@,
        Severity::Warning => "warning"@,
        Severity::Info => "info"@,
    }
}

proof fn lemma_severity_words(s: Severity)
    ensures
        severity_named(word_of(s)) == Some(s),
        word_of(s).len() > 0,
        word_of(s)[0] != ' ',
        forall|i: int|
            0 <= i < word_of(s).len() ==> (#[trigger] word_of(s)[i]) != ':'
                && word_of(s)[i] != '[' && word_of(s)[i] != ']',
{
    reveal_strlit("error");
    reveal_strlit("warning");
    reveal_strlit("info");
    let w = word_of(s);
    assert(text::lower(w) =~= w);
    assert("error"@.len() == 5 && "warning"@.len() == 7 && "info"@.len() == 4);
}

/// No text with a colon is the word for a severity.
proof fn lemma_no_severity(s: Seq<char>, i: int)
    requires
        0 <= i < s.len(),
        s[i] == ':',
    ensures
        severity_named(s) is None,
{
    lemma_severity_words(Severity::Error);
    lemma_severity_words(Severity::Warning);
    lemma_severity_words(Severity::Info);
    lemma_colon_low();
    let l = text::lower(s);
    assert(l[i] == ':');
    if l == word_of(Severity::Error) {
        assert(word_of(Severity::Error)[i] != ':');
    }
    if l == word_of(Severity::Warning) {
        assert(word_of(Severity::Warning)[i] != ':');
    }
    if l == word_of(Severity::Info) {
        assert(word_of(Severity::Info)[i] != ':');
    }
}

proof fn lemma_colon_low()
    ensures
        text::ascii_low(':') == ':',
{
}

/// Behind a place, a severity word and a colon name the severity, and the message
/// follows.
#[verifier::rlimit(20)]
pub proof fn law_a_severity_is_read(s: Severity, message: Seq<char>)
    ensures
        severity_of(seq![' '] + word_of(s) + seq![':', ' '] + message) == (
            s,
            None::<Seq<char>>,
            message,
        ),
{
    let w = word_of(s);
    let n = w.len() as int;
    lemma_severity_words(s);
    let plain = w + seq![':', ' '] + message;
    let one = seq![' '] + w + seq![':', ' '] + message;
    assert(one.skip(1) =~= plain);
    assert(skip_space(one) == plain);
    assert forall|j: int| 0 <= j < n implies plain[j] != ':' by {
        assert(plain[j] == w[j]);
    }
    assert(plain[n] == ':');
    text::lemma_first_index(plain, ':', n);
    text::lemma_first_index_props(plain, '[');
    text::lemma_first_index_props(plain, ']');
    let open = text::first_index(plain, '[');
    if open < plain.len() {
        assert(open > n) by {
            if open < n {
                assert(plain[open] == w[open]);
            }
        }
        lemma_no_severity(plain.take(open), n);
    }
    assert(head_end(plain) == n);
    assert(plain.take(n) =~= w);
    text::lemma_first_index_props(w, '[');
    assert(!has_code(w)) by {
        if text::first_index(w, '[') < w.len() {
            assert(w[text::first_index(w, '[')] == '[');
        }
    }
    assert(plain.skip(n + 1) =~= seq![' '] + message);
    assert((seq![' '] + message).skip(1) =~= message);
}

/// A code in brackets behind the severity word is read too, whatever it holds but
/// brackets.
#[verifier::rlimit(20)]
pub proof fn law_a_code_is_read(s: Severity, code: Seq<char>, message: Seq<char>)
    requires
        code.len() > 0,
        !code.contains('['),
        !code.contains(']'),
    ensures
        severity_of(
            seq![' '] + word_of(s) + seq!['['] + code + seq![']', ':', ' '] + message,
        ) == (s, Some(code), message),
{
    let w = word_of(s);
    lemma_severity_words(s);
    let head = w + seq!['['] + code + seq![']'];
    let coded = head + seq![':', ' '] + message;
    let two = seq![' '] + w + seq!['['] + code + seq![']', ':', ' '] + message;
    assert(two.skip(1) =~= coded);
    assert(skip_space(two) == coded);
    let n = w.len() as int;
    let m = head.len() as int;
    assert forall|j: int| 0 <= j < n implies coded[j] != '[' by {
        assert(coded[j] == w[j]);
    }
    assert(coded[n] == '[');
    text::lemma_first_index(coded, '[', n);
    assert forall|j: int| 0 <= j < m - 1 implies coded[j] != ']' by {
        if j < n {
            assert(coded[j] == w[j]);
        } else if j > n {
            assert(coded[j] == code[j - n - 1]);
            assert(code.contains(code[j - n - 1]));
        }
    }
    assert(coded[m - 1] == ']');
    text::lemma_first_index(coded, ']', m - 1);
    assert(coded[m] == ':');
    assert(coded.take(n) =~= w);
    assert(head_end(coded) == m);
    assert(coded.take(m) =~= head);
    assert forall|j: int| 0 <= j < n implies head[j] != '[' by {
        assert(head[j] == w[j]);
    }
    assert(head[n] == '[');
    text::lemma_first_index(head, '[', n);
    assert(head.take(n) =~= w);
    assert(head.subrange(n + 1, m - 1) =~= code);
    assert(coded.skip(m + 1) =~= seq![' '] + message);
    assert((seq![' '] + message).skip(1) =~= message);
}

/// A text without a colon behind a place is the message of an error.
pub proof fn law_a_bare_message_is_an_error(bare: Seq<char>)
    requires
        !bare.contains(':'),
    ensures
        severity_of(seq![' '] + bare) == (Severity::Error, None::<Seq<char>>, bare),
{
    assert((seq![' '] + bare).skip(1) =~= bare);
    assert(skip_space(seq![' '] + bare) == bare);
    text::lemma_first_index_props(bare, ':');
    text::lemma_first_index_props(bare, ']');
    text::lemma_first_index_props(bare, '[');
    let close = text::first_index(bare, ']');
    if close + 1 < bare.len() {
        assert(bare.contains(bare[close + 1]));
    }
    assert(head_end(bare) == bare.len());
}

/// The words for severities are read in any case, and no other word is one.
pub proof fn law_severities_are_read_in_any_case(word: Seq<char>)
    ensures
        severity_named(word) == Some(Severity::Error) <==> text::lower(word) == "error"@,
        severity_named(word) == Some(Severity::Warning) <==> text::lower(word) == "warning"@,
        severity_named(word) == Some(Severity::Info) <==> text::lower(word) == "info"@,
{
    reveal_strlit("error");
    reveal_strlit("warning");
    reveal_strlit("info");
    assert("error"@.len() == 5 && "warning"@.len() == 7 && "info"@.len() == 4);
}

/// The rows are read one by one: a blank one is passed over, one that states
/// something adds it, and the first that states nothing is where reading fails.
pub proof fn law_rows_are_read_in_order(lines: Seq<Seq<char>>, line: Seq<char>)
    ensures
        diagnostics_of(lines) matches Ok(rows) ==> diagnostics_of(lines.push(line)) == (if blank(
            line,
        ) {
            Ok::<Seq<DiagnosticView>, int>(rows)
        } else {
            match diagnostic_of(line) {
                Some(row) => Ok(rows.push(row)),
                None => Err(lines.len() as int),
            }
        }),
        hits_of(lines) matches Ok(rows) ==> hits_of(lines.push(line)) == (if blank(line) {
            Ok::<Seq<HitView>, int>(rows)
        } else {
            match hit_of(line) {
                Some(row) => Ok(rows.push(row)),
                None => Err(lines.len() as int),
            }
        }),
        diagnostics_of(Seq::empty()) == Ok::<Seq<DiagnosticView>, int>(Seq::empty()),
        hits_of(Seq::empty()) == Ok::<Seq<HitView>, int>(Seq::empty()),
        diagnostics_of(lines) is Err ==> diagnostics_of(lines.push(line)) == diagnostics_of(lines),
        hits_of(lines) is Err ==> hits_of(lines.push(line)) == hits_of(lines),
{
    assert(lines.push(line).drop_last() =~= lines);
}

/// What is kept of a row is the row, with its long fields cut and all else as it
/// was.
pub proof fn law_rows_are_kept_field_by_field(
    rows: Seq<DiagnosticView>,
    hits: Seq<HitView>,
    failed: Seq<(Seq<char>, Seq<char>)>,
    i: int,
)
    ensures
        kept_diagnostics(rows).len() == rows.len(),
        0 <= i < rows.len() ==> {
            let k = kept_diagnostics(rows)[i];
            &&& k.path == field(rows[i].path)
            &&& k.message == field(rows[i].message)
            &&& k.line == rows[i].line
            &&& k.column == rows[i].column
            &&& k.severity == rows[i].severity
            &&& rows[i].code is None ==> k.code is None
            &&& rows[i].code matches Some(c) ==> k.code == Some(field(c))
            &&& !rows[i].cut() ==> k == rows[i]
        },
        kept_hits(hits).len() == hits.len(),
        0 <= i < hits.len() ==> kept_hits(hits)[i] == (field(hits[i].0), hits[i].1, field(hits[i].2))
            && cut_hits(hits)[i] == (hits[i].0.len() > 4096 || hits[i].2.len() > 4096),
        kept_failures(failed).len() == failed.len(),
        0 <= i < failed.len() ==> kept_failures(failed)[i] == (field(failed[i].0), field(failed[i].1))
            && cut_failures(failed)[i] == (failed[i].0.len() > 4096 || failed[i].1.len() > 4096),
{
}

/// Tokens stand between commas and white space.
pub proof fn law_tokens_stand_between_separators(token: Seq<char>, end: char, rest: Seq<char>)
    requires
        forall|i: int|
            0 <= i < token.len() ==> (#[trigger] token[i]) != ',' && !text::is_ws(token[i]),
        end == ',' || text::is_ws(end),
    ensures
        tokens_of(token) == seq![token],
        tokens_of(token + seq![end] + rest) == seq![token] + tokens_of(rest),
{
    lemma_token_end(token, Seq::empty());
    assert(token + Seq::<char>::empty() =~= token);
    let tail = seq![end] + rest;
    lemma_token_end(token, tail);
    let s = token + seq![end] + rest;
    assert(token + tail =~= s);
    assert(s.take(token.len() as int) =~= token);
    assert(s.skip(token.len() as int + 1) =~= rest);
}

proof fn lemma_token_end(token: Seq<char>, tail: Seq<char>)
    requires
        forall|i: int|
            0 <= i < token.len() ==> (#[trigger] token[i]) != ',' && !text::is_ws(token[i]),
        tail.len() > 0 ==> is_token_end(tail[0]),
    ensures
        token_end(token + tail) == token.len(),
    decreases token.len(),
{
    let s = token + tail;
    if token.len() == 0 {
        assert(s =~= tail);
    } else {
        assert(s[0] == token[0]);
        assert(s.drop_first() =~= token.drop_first() + tail);
        lemma_token_end(token.drop_first(), tail);
    }
}

/// A token `key=value` with a known key sets that figure, and no other; a value
/// that is no number fails, and a token with another key, or without one, says
/// nothing.
#[verifier::rlimit(20)]
pub proof fn law_a_token_sets_its_figure(t: Tally, n: nat, key: Seq<char>, value: Seq<char>, no: nat)
    requires
        !key.contains('='),
    ensures
        n <= u32::MAX ==> token_step(t, "total="@ + text::decimal(n), no) == Ok::<Tally, Seq<char>>(
            Tally { total: Some(n as u32), ..t },
        ),
        n <= u32::MAX ==> token_step(t, "passed="@ + text::decimal(n), no) == Ok::<Tally, Seq<char>>(
            Tally { passed: n as u32, ..t },
        ),
        n <= u32::MAX ==> token_step(t, "skipped="@ + text::decimal(n), no) == Ok::<
            Tally,
            Seq<char>,
        >(Tally { skipped: n as u32, ..t }),
        n <= u64::MAX ==> token_step(t, "duration_ms="@ + text::decimal(n), no) == Ok::<
            Tally,
            Seq<char>,
        >(Tally { duration_ms: n as u64, ..t }),
        n > u64::MAX ==> token_step(t, "duration_ms="@ + text::decimal(n), no) is Err,
        n > u32::MAX ==> token_step(t, "passed="@ + text::decimal(n), no) is Err,
        key != "total"@ && key != "passed"@ && key != "skipped"@ && key != "duration_ms"@
            ==> token_step(t, key + seq!['='] + value, no) == Ok::<Tally, Seq<char>>(t),
        token_step(t, key, no) == Ok::<Tally, Seq<char>>(t),
{
    reveal_strlit("total");
    reveal_strlit("total=");
    reveal_strlit("passed");
    reveal_strlit("passed=");
    reveal_strlit("skipped");
    reveal_strlit("skipped=");
    reveal_strlit("duration_ms");
    reveal_strlit("duration_ms=");
    let d = text::decimal(n);
    text::law_decimals_read_back(n, u32::MAX as nat);
    text::law_decimals_read_back(n, u64::MAX as nat);
    assert("total="@ =~= "total"@ + seq!['=']);
    assert("passed="@ =~= "passed"@ + seq!['=']);
    assert("skipped="@ =~= "skipped"@ + seq!['=']);
    assert("duration_ms="@ =~= "duration_ms"@ + seq!['=']);
    lemma_key_value("total"@, d);
    lemma_key_value("passed"@, d);
    lemma_key_value("skipped"@, d);
    lemma_key_value("duration_ms"@, d);
    lemma_key_value(key, value);
    assert("total"@.len() == 5 && "passed"@.len() == 6 && "skipped"@.len() == 7
        && "duration_ms"@.len() == 11);
    text::lemma_first_index_props(key, '=');
}

proof fn lemma_key_value(key: Seq<char>, value: Seq<char>)
    requires
        !key.contains('='),
    ensures
        ({
            let s = key + seq!['='] + value;
            &&& text::first_index(s, '=') == key.len()
            &&& s.take(key.len() as int) == key
            &&& s.skip(key.len() as int + 1) == value
            &&& key.len() < s.len()
        }),
{
    let s = key + seq!['='] + value;
    assert forall|j: int| 0 <= j < key.len() implies s[j] != '=' by {
        assert(s[j] == key[j]);
        assert(key.contains(key[j]));
    }
    assert(s[key.len() as int] == '=');
    text::lemma_first_index(s, '=', key.len() as int);
    assert(s.take(key.len() as int) =~= key);
    assert(s.skip(key.len() as int + 1) =~= value);
}

/// A line `fail name: message` or `failed name: message` adds a failed test with
/// that name and that message; without a message it adds the name alone.
#[verifier::rlimit(20)]
pub proof fn law_a_failed_test_is_named(t: Tally, name: Seq<char>, message: Seq<char>, no: nat)
    requires
        name.len() > 0,
        !name.contains(':'),
        !text::is_ws(name[0]),
        !text::is_ws(name.last()),
        message.len() > 0,
        !text::is_ws(message.last()),
    ensures
        line_step(t, "fail "@ + name + seq![':', ' '] + message, no) == Ok::<Tally, Seq<char>>(
            Tally { failed: t.failed.push((name, message)), ..t },
        ),
        line_step(t, "failed "@ + name + seq![':', ' '] + message, no) == Ok::<Tally, Seq<char>>(
            Tally { failed: t.failed.push((name, message)), ..t },
        ),
        line_step(t, "fail "@ + name, no) == Ok::<Tally, Seq<char>>(
            Tally { failed: t.failed.push((name, Seq::empty())), ..t },
        ),
{
    reveal_strlit("fail ");
    reveal_strlit("failed ");
    let rest = name + seq![':', ' '] + message;
    lemma_colon_space(name, message);
    text::law_trimming_leaves_the_text(Seq::empty(), name, Seq::empty());
    assert(Seq::<char>::empty() + name + Seq::<char>::empty() =~= name);
    let a = "fail "@ + name + seq![':', ' '] + message;
    let b = "failed "@ + name + seq![':', ' '] + message;
    let c = "fail "@ + name;
    assert(a.last() == message.last() && b.last() == message.last() && c.last() == name.last());
    lemma_f_is_no_space();
    text::law_trimming_leaves_the_text(Seq::empty(), a, Seq::empty());
    text::law_trimming_leaves_the_text(Seq::empty(), b, Seq::empty());
    text::law_trimming_leaves_the_text(Seq::empty(), c, Seq::empty());
    assert(Seq::<char>::empty() + a + Seq::<char>::empty() =~= a);
    assert(Seq::<char>::empty() + b + Seq::<char>::empty() =~= b);
    assert(Seq::<char>::empty() + c + Seq::<char>::empty() =~= c);
    assert(text::lower(a.subrange(0, 5)) =~= "fail "@);
    assert(a.skip(5) =~= rest);
    assert(text::lower(b.subrange(0, 7)) =~= "failed "@);
    assert(text::lower(b.subrange(0, 5))[4] == 'e');
    assert(!text::at_ci(b, 0, "fail "@));
    assert(b.skip(7) =~= rest);
    assert(text::lower(c.subrange(0, 5)) =~= "fail "@);
    assert(c.skip(5) =~= name);
    assert(rest.take(name.len() as int) =~= name);
    assert(rest.skip(name.len() as int + 2) =~= message);
}

proof fn lemma_f_is_no_space()
    ensures
        !text::is_ws('f'),
{
}

proof fn lemma_colon_space(name: Seq<char>, message: Seq<char>)
    requires
        !name.contains(':'),
    ensures
        colon_space(name + seq![':', ' '] + message) == name.len(),
        colon_space(name) == name.len(),
    decreases name.len(),
{
    let s = name + seq![':', ' '] + message;
    if name.len() > 0 {
        assert(name.contains(name[0]));
        assert(s[0] == name[0]);
        let n = name.drop_first();
        assert(!n.contains(':')) by {
            if n.contains(':') {
                let k = choose|k: int| 0 <= k < n.len() && n[k] == ':';
                assert(name[k + 1] == ':');
            }
        }
        assert(s.drop_first() =~= n + seq![':', ' '] + message);
        lemma_colon_space(n, message);
    } else {
        assert(s[0] == ':' && s[1] == ' ');
    }
}

/// The lines of a report add up, one after the other.
pub proof fn law_a_report_adds_up(lines: Seq<Seq<char>>, line: Seq<char>, t: Tally, no: nat)
    ensures
        tally_of(lines) matches Ok(before) ==> tally_of(lines.push(line)) == line_step(
            before,
            line,
            lines.len() + 1,
        ),
        tally_of(Seq::empty()) == Ok::<Tally, Seq<char>>(
            Tally { total: None, passed: 0, skipped: 0, duration_ms: 0, failed: Seq::empty() },
        ),
        tally_of(lines) is Err ==> tally_of(lines.push(line)) == tally_of(lines),
        t.total matches Some(n) ==> t.count() == n,
        t.total is None && t.passed + t.skipped + t.failed.len() <= u32::MAX ==> t.count()
            == t.passed + t.skipped + t.failed.len(),
        tokens_step(t, Seq::empty(), no) == Ok::<Tally, Seq<char>>(t),
{
    assert(lines.push(line).drop_last() =~= lines);
}

/// The tokens of a line are taken one after the other.
pub proof fn law_tokens_are_taken_in_order(t: Tally, token: Seq<char>, rest: Seq<Seq<char>>, no: nat)
    ensures
        token_step(t, token, no) matches Ok(u) ==> tokens_step(t, seq![token] + rest, no)
            == tokens_step(u, rest, no),
        token_step(t, token, no) matches Err(m) ==> tokens_step(t, seq![token] + rest, no)
            == Err::<Tally, Seq<char>>(m),
{
    assert((seq![token] + rest).drop_first() =~= rest);
}

/// A line that begins with no failure word is read by its tokens.
pub proof fn law_other_lines_are_read_by_their_tokens(t: Tally, line: Seq<char>, no: nat)
    requires
        line.len() > 0,
        !text::is_ws(line[0]),
        !text::is_ws(line.last()),
        line[0] != 'f',
        line[0] != 'F',
    ensures
        line_step(t, line, no) == tokens_step(t, tokens_of(line), no),
{
    text::law_trimming_leaves_the_text(Seq::empty(), line, Seq::empty());
    assert(Seq::<char>::empty() + line + Seq::<char>::empty() =~= line);
    reveal_strlit("fail ");
    reveal_strlit("failed ");
    if text::at_ci(line, 0, "fail "@) {
        assert(text::lower(line.subrange(0, 5))[0] == "fail "@[0]);
        lemma_low_f(line[0]);
    }
    if text::at_ci(line, 0, "failed "@) {
        assert(text::lower(line.subrange(0, 7))[0] == "failed "@[0]);
        lemma_low_f(line[0]);
    }
}

proof fn lemma_low_f(c: char)
    ensures
        text::ascii_low(c) == 'f' ==> c == 'f' || c == 'F',
{
}

/// The entries of a log are its lines that are not blank, without the white space
/// around them.
pub proof fn law_entries_are_the_lines_with_text(lines: Seq<Seq<char>>, line: Seq<char>)
    ensures
        text::trim(line).len() == 0 ==> entries_of(lines.push(line)) == entries_of(lines),
        text::trim(line).len() > 0 ==> entries_of(lines.push(line)) == entries_of(lines).push(
            text::trim(line),
        ),
        entries_of(Seq::empty()) == Seq::<Seq<char>>::empty(),
{
    assert(lines.push(line).drop_last() =~= lines);
}

/// The important lines of a log are its lines that name a failure, in their order,
/// and its last line; where there are too many, the first 255 and the last line.
pub proof fn law_the_failures_of_a_log_are_picked(entries: Seq<Seq<char>>)
    requires
        entries.len() > 0,
    ensures
        ({
            let failures = entries.filter(compress::telling_failure());
            let last_fails = compress::telling_failure()(entries.last());
            &&& failures.len() < 256 && last_fails ==> picked(entries) == failures
            &&& failures.len() < 256 && !last_fails ==> picked(entries) == failures.push(
                entries.last(),
            )
            &&& failures.len() >= 256 ==> picked(entries) == failures.take(255).push(entries.last())
        }),
{
    lemma_important_are(entries);
}

proof fn lemma_important_are(entries: Seq<Seq<char>>)
    ensures
        important_of(entries) == entries.filter(compress::telling_failure()),
    decreases entries.len(),
{
    reveal(Seq::filter);
    if entries.len() > 0 {
        lemma_important_are(entries.drop_last());
    }
}

/// Equal lines that follow each other make one group with their number, where
/// there is more than one; the groups of the rest follow.
pub proof fn law_repeated_lines_are_counted(line: Seq<char>, n: nat, rest: Seq<Seq<char>>)
    requires
        n >= 1,
        rest.len() > 0 ==> rest[0] != line,
    ensures
        ({
            let all = Seq::new(n, |i: int| line) + rest;
            &&& n == 1 ==> groups_of(all) == groups_of(rest)
            &&& n >= 2 ==> groups_of(all) == seq![(line, n)] + groups_of(rest)
        }),
        groups_of(Seq::empty()) == Seq::<(Seq<char>, nat)>::empty(),
{
    let all = Seq::new(n, |i: int| line) + rest;
    lemma_run_of(line, n, rest);
    assert(all.skip(n as int) =~= rest);
    assert(all[0] == line);
}

proof fn lemma_run_of(line: Seq<char>, n: nat, rest: Seq<Seq<char>>)
    requires
        n >= 1,
        rest.len() > 0 ==> rest[0] != line,
    ensures
        same_run(Seq::new(n, |i: int| line) + rest) == n,
    decreases n,
{
    let all = Seq::new(n, |i: int| line) + rest;
    if n > 1 {
        assert(all[0] == line && all[1] == line);
        assert(all.drop_first() =~= Seq::new((n - 1) as nat, |i: int| line) + rest);
        lemma_run_of(line, (n - 1) as nat, rest);
    } else {
        assert(all[0] == line);
        if rest.len() > 0 {
            assert(all[1] == rest[0]);
        }
    }
}

/// A fingerprint is the first eight bytes of the digest as one number, the first
/// byte the most significant.
pub proof fn law_a_fingerprint_is_eight_bytes(line: Seq<char>, bytes: Seq<u8>, b: u8)
    ensures
        fingerprint_of(line) == big_endian(
            digest::blake3_of(vstd::utf8::encode_utf8(line)).take(8),
        ),
        big_endian(bytes.push(b)) == 256 * big_endian(bytes) + b,
        big_endian(Seq::empty()) == 0,
{
    assert(bytes.push(b).drop_last() =~= bytes);
}

/// The first entry that states an exit code decides.
pub proof fn law_the_first_exit_code_counts(entry: Seq<char>, rest: Seq<Seq<char>>)
    ensures
        exit_from(entry, 0) is Some ==> exit_of(seq![entry] + rest) == exit_from(entry, 0),
        exit_from(entry, 0) is None ==> exit_of(seq![entry] + rest) == exit_of(rest),
        exit_of(Seq::empty()) is None,
{
    assert((seq![entry] + rest).drop_first() =~= rest);
}

/// A line `exit code <n>`, `exit <n>` or `exit: <n>` states that code.
#[verifier::rlimit(20)]
pub proof fn law_an_exit_line_states_its_code(n: nat)
    requires
        n <= i32::MAX,
    ensures
        exit_from("exit code "@ + text::decimal(n), 0) == Some(n as i32),
        exit_from("exit "@ + text::decimal(n), 0) == Some(n as i32),
        exit_from("exit: "@ + text::decimal(n), 0) == Some(n as i32),
        n > 0 ==> exit_from("exit code -"@ + text::decimal(n), 0) == Some((-(n as int)) as i32),
{
    let d = text::decimal(n);
    text::lemma_decimal_value(n);
    text::law_decimals_read_back(n, i32::MAX as nat);
    assert(text::is_dec_digit(d[0]));
    let neg = seq!['-'] + d;
    lemma_exit_number(d, d);
    lemma_exit_number(neg, d);
    assert(neg.drop_first() =~= d);
    assert(parsed_i32(d) == Some(n as i32));
    assert(n > 0 ==> parsed_i32(neg) == Some((-(n as int)) as i32));
    lemma_exit_code_line(d);
    lemma_exit_code_line(neg);
    lemma_exit_bare_line(d);
    reveal_strlit("exit code ");
    reveal_strlit("exit code -");
    assert("exit code -"@ =~= "exit code "@ + seq!['-']);
    assert("exit code -"@ + d =~= "exit code "@ + neg);
}

#[verifier::rlimit(20)]
proof fn lemma_exit_code_line(number: Seq<char>)
    requires
        number.len() > 0,
        text::is_dec_digit(number[0]) || number[0] == '-',
        text::words(number) == seq![number],
        up_to_digit(skip_plus(number)) == number,
        parsed_i32(number) is Some,
    ensures
        exit_from("exit code "@ + number, 0) == parsed_i32(number),
{
    reveal_strlit("exit");
    reveal_strlit("exit code ");
    reveal_strlit(" code");
    assert("exit code "@.take(4) =~= "exit"@);
    lemma_exit_phrases(seq![' '] + number, number);
    lemma_exit_rest("exit code "@, number);
    assert("exit code "@.skip(4) + number =~= " code"@ + (seq![' '] + number));
}

#[verifier::rlimit(20)]
proof fn lemma_exit_bare_line(number: Seq<char>)
    requires
        number.len() > 0,
        text::is_dec_digit(number[0]) || number[0] == '-',
        text::words(number) == seq![number],
        up_to_digit(skip_plus(number)) == number,
        parsed_i32(number) is Some,
    ensures
        exit_from("exit "@ + number, 0) == parsed_i32(number),
        exit_from("exit: "@ + number, 0) == parsed_i32(number),
{
    reveal_strlit("exit");
    reveal_strlit("exit ");
    reveal_strlit("exit: ");
    assert("exit "@.take(4) =~= "exit"@);
    assert("exit: "@.take(4) =~= "exit"@);
    lemma_exit_phrases(seq![' '] + number, number);
    lemma_exit_phrases(seq![':', ' '] + number, number);
    lemma_exit_rest("exit "@, number);
    lemma_exit_rest("exit: "@, number);
    assert("exit "@.skip(4) + number =~= seq![' '] + number);
    assert("exit: "@.skip(4) + number =~= seq![':', ' '] + number);
}

proof fn lemma_exit_rest(lead: Seq<char>, d: Seq<char>)
    requires
        lead.len() >= 4,
        lead.take(4) == "exit"@,
    ensures
        exit_after(lead.skip(4) + d) is Some ==> exit_from(lead + d, 0) == exit_after(
            lead.skip(4) + d,
        ),
{
    reveal_strlit("exit");
    let s = lead + d;
    assert(text::lower(s.subrange(0, 4)) =~= "exit"@) by {
        assert forall|i: int| 0 <= i < 4 implies s.subrange(0, 4)[i] == "exit"@[i] by {
            assert(lead.take(4)[i] == s[i]);
        }
    }
    assert(s.skip(4) =~= lead.skip(4) + d);
}

/// What stands behind the word, with or without the word for a code.
#[verifier::rlimit(20)]
proof fn lemma_exit_phrases(rest: Seq<char>, number: Seq<char>)
    requires
        rest.len() >= 2,
        rest == seq![' '] + number || rest == seq![':', ' '] + number,
        number.len() > 0,
        text::is_dec_digit(number[0]) || number[0] == '-',
    ensures
        after_exit(" code"@ + rest) == rest,
        after_exit(rest) == rest,
        skip_exit_lead(rest) == number,
{
    reveal_strlit("ed with code");
    reveal_strlit("ed with status");
    reveal_strlit(" code");
    reveal_strlit(" status");
    reveal_strlit("_code");
    reveal_strlit("_status");
    let s = " code"@ + rest;
    assert(s[0] == ' ');
    assert(text::lower(s.subrange(0, 5)) =~= " code"@);
    assert(s.skip(5) =~= rest);
    lemma_not_there(s, "ed with code"@);
    lemma_not_there(s, "ed with status"@);
    lemma_not_there(rest, "ed with code"@);
    lemma_not_there(rest, "ed with status"@);
    lemma_not_there(rest, "_code"@);
    lemma_not_there(rest, "_status"@);
    lemma_digit_low(number[0]);
    if rest[0] == ' ' {
        assert(rest[1] == number[0]);
        lemma_second_not_there(rest, " code"@);
        lemma_second_not_there(rest, " status"@);
        assert(rest.drop_first() =~= number);
        lemma_digit_no_lead(number[0]);
        reveal_with_fuel(skip_exit_lead, 3);
    } else {
        lemma_not_there(rest, " code"@);
        lemma_not_there(rest, " status"@);
        assert(rest.drop_first() =~= seq![' '] + number);
        assert(rest.drop_first().drop_first() =~= number);
        lemma_digit_no_lead(number[0]);
        reveal_with_fuel(skip_exit_lead, 4);
    }
}

proof fn lemma_digit_no_lead(c: char)
    requires
        text::is_dec_digit(c) || c == '-',
    ensures
        !is_exit_lead(c),
        is_exit_lead(' '),
        is_exit_lead(':'),
{
}

proof fn lemma_digit_low(c: char)
    requires
        text::is_dec_digit(c) || c == '-',
    ensures
        text::ascii_low(c) == c,
        c != 'c' && c != 's',
        text::ascii_low(' ') == ' ',
        text::ascii_low(':') == ':',
{
}

proof fn lemma_not_there(s: Seq<char>, p: Seq<char>)
    requires
        p.len() > 0,
        s.len() > 0,
        s[0] == ' ' || s[0] == ':',
        p[0] != s[0],
    ensures
        after_prefix(s, p) is None,
{
    lemma_digit_low('0');
    if text::at_ci(s, 0, p) {
        assert(text::lower(s.subrange(0, p.len() as int))[0] == p[0]);
    }
}

proof fn lemma_second_not_there(s: Seq<char>, p: Seq<char>)
    requires
        p.len() > 1,
        s.len() > 1,
        text::is_dec_digit(s[1]) || s[1] == '-',
        p[1] == 'c' || p[1] == 's',
    ensures
        after_prefix(s, p) is None,
{
    lemma_digit_low(s[1]);
    if text::at_ci(s, 0, p) {
        assert(text::lower(s.subrange(0, p.len() as int))[1] == p[1]);
    }
}

proof fn lemma_exit_number(number: Seq<char>, d: Seq<char>)
    requires
        number == d || number == seq!['-'] + d,
        d.len() > 0,
        text::all_digits(d),
    ensures
        text::words(number) == seq![number],
        up_to_digit(skip_plus(number)) == number,
{
    assert forall|i: int| 0 <= i < number.len() implies !text::is_ws(#[trigger] number[i]) by {
        if number == d {
            assert(text::is_dec_digit(d[i]));
            lemma_digit_no_lead(d[i]);
        } else if i > 0 {
            assert(number[i] == d[i - 1]);
            assert(text::is_dec_digit(d[i - 1]));
            lemma_digit_no_lead(d[i - 1]);
        } else {
            lemma_digit_no_lead('-');
        }
    }
    text::law_words_stand_between_white_space(Seq::empty(), number, ' ', Seq::empty());
    assert(Seq::<char>::empty() + number =~= number);
    assert(text::is_dec_digit(d[d.len() - 1]));
    assert(number.last() == d.last());
    assert(text::is_dec_digit(d[0]));
    assert(number[0] != '+');
}

/// A row that breaks the grammar is answered with what was read, its number, and
/// the row without the white space around it, as far as 120 characters.
pub proof fn law_a_bad_row_is_shown(
    kind: Seq<char>,
    line_no: nat,
    before: Seq<char>,
    row: Seq<char>,
    after: Seq<char>,
)
    requires
        forall|i: int| 0 <= i < before.len() ==> text::is_ws(#[trigger] before[i]),
        forall|i: int| 0 <= i < after.len() ==> text::is_ws(#[trigger] after[i]),
        row.len() > 0,
        !text::is_ws(row[0]),
        !text::is_ws(row.last()),
    ensures
        row.len() <= 120 ==> bad_row_text(kind, line_no, before + row + after) == kind + ": line "@
            + text::decimal(line_no) + ": "@ + text::debug_of(row),
        row.len() > 120 ==> bad_row_text(kind, line_no, before + row + after) == kind + ": line "@
            + text::decimal(line_no) + ": "@ + text::debug_of(row.take(120)),
{
    text::law_trimming_leaves_the_text(before, row, after);
}

/// What may stand between the word `exit` and its number.
#[verifier::rlimit(20)]
pub proof fn law_which_words_follow_exit(rest: Seq<char>)
    requires
        rest.len() > 0,
        rest[0] == ' ' || rest[0] == ':' || rest[0] == '=',
    ensures
        after_exit("ed with code"@ + rest) == rest,
        after_exit("ed with status"@ + rest) == rest,
        after_exit(" code"@ + rest) == rest,
        after_exit(" status"@ + rest) == rest,
        after_exit("_code"@ + rest) == rest,
        after_exit("_status"@ + rest) == rest,
{
    reveal_strlit("ed with code");
    reveal_strlit("ed with status");
    reveal_strlit(" code");
    reveal_strlit(" status");
    reveal_strlit("_code");
    reveal_strlit("_status");
    lemma_phrase("ed with code"@, rest);
    lemma_phrase("ed with status"@, rest);
    lemma_phrase(" code"@, rest);
    lemma_phrase(" status"@, rest);
    lemma_phrase("_code"@, rest);
    lemma_phrase("_status"@, rest);
    lemma_other_phrase("ed with code"@, "ed with status"@, rest, 8);
    lemma_other_phrase("ed with status"@, "ed with code"@, rest, 8);
    lemma_other_phrase("ed with code"@, " code"@, rest, 0);
    lemma_other_phrase("ed with status"@, " code"@, rest, 0);
    lemma_other_phrase("ed with code"@, " status"@, rest, 0);
    lemma_other_phrase("ed with status"@, " status"@, rest, 0);
    lemma_other_phrase(" code"@, " status"@, rest, 1);
    lemma_other_phrase("ed with code"@, "_code"@, rest, 0);
    lemma_other_phrase("ed with status"@, "_code"@, rest, 0);
    lemma_other_phrase(" code"@, "_code"@, rest, 0);
    lemma_other_phrase(" status"@, "_code"@, rest, 0);
    lemma_other_phrase("ed with code"@, "_status"@, rest, 0);
    lemma_other_phrase("ed with status"@, "_status"@, rest, 0);
    lemma_other_phrase(" code"@, "_status"@, rest, 0);
    lemma_other_phrase(" status"@, "_status"@, rest, 0);
    lemma_other_phrase("_code"@, "_status"@, rest, 1);
}

/// Text that is lower case already.
spec fn all_low(p: Seq<char>) -> bool {
    forall|i: int| 0 <= i < p.len() ==> !('A' <= #[trigger] p[i] <= 'Z')
}

proof fn lemma_phrase(p: Seq<char>, rest: Seq<char>)
    requires
        all_low(p),
    ensures
        after_prefix(p + rest, p) == Some(rest),
{
    let s = p + rest;
    let head = s.subrange(0, p.len() as int);
    assert(head =~= p);
    assert(text::lower(head) =~= p);
    assert(s.skip(p.len() as int) =~= rest);
}

proof fn lemma_other_phrase(p: Seq<char>, q: Seq<char>, rest: Seq<char>, i: int)
    requires
        0 <= i < p.len(),
        i < q.len(),
        p[i] != q[i],
        all_low(q),
    ensures
        after_prefix(q + rest, p) is None,
{
    let s = q + rest;
    if text::at_ci(s, 0, p) {
        assert(text::lower(s.subrange(0, p.len() as int))[i] == p[i]);
        assert(s.subrange(0, p.len() as int)[i] == q[i]);
    }
}

/// The word must stand for itself: behind a letter or a digit it does not count.
pub proof fn law_exit_is_a_word_of_its_own(line: Seq<char>, i: int)
    requires
        0 <= i < line.len(),
    ensures
        !text::at_ci(line, i, "exit"@) ==> exit_from(line, i) == exit_from(line, i + 1),
        i > 0 && ('0' <= line[i - 1] <= '9' || 'a' <= line[i - 1] <= 'z' || 'A' <= line[i - 1]
            <= 'Z') ==> exit_from(line, i) == exit_from(line, i + 1),
        exit_from(line, line.len() as int) is None,
        exit_after(line.skip(i + 4)) is None ==> exit_from(line, i) == exit_from(line, i + 1),
{
}

/// A colon in a path that no number follows is part of the path.
#[verifier::rlimit(20)]
pub proof fn law_colons_in_paths_are_tolerated(
    a: Seq<char>,
    b: Seq<char>,
    line: nat,
    column: nat,
    rest: Seq<char>,
)
    requires
        a.len() > 0,
        b.len() > 0,
        !a.contains(':'),
        !b.contains(':'),
        !('0' <= b[0] <= '9'),
        !text::is_ws(a[0]),
        !text::is_ws(b.last()),
        line <= u32::MAX,
        column <= u32::MAX,
        !blank(severity_of(rest).2),
    ensures
        hit_of(a + seq![':'] + b + seq![':'] + text::decimal(line) + seq![':'] + rest) == Some(
            (a + seq![':'] + b, line as u32, rest),
        ),
        (diagnostic_of(
            a + seq![':'] + b + seq![':'] + text::decimal(line) + seq![':'] + text::decimal(column)
                + seq![':'] + rest,
        ) matches Some(d) && d.path == a + seq![':'] + b && d.line == line && d.column == column
            && d.message == severity_of(rest).2),
{
    let path = a + seq![':'] + b;
    let n = a.len() as int;
    let m = path.len() as int;
    text::law_trimming_leaves_the_text(Seq::empty(), path, Seq::empty());
    assert(Seq::<char>::empty() + path + Seq::<char>::empty() =~= path);
    assert(path[0] == a[0] && path.last() == b.last());
    let hit = path + seq![':'] + text::decimal(line) + seq![':'] + rest;
    lemma_group_behind(path, line, rest);
    lemma_colon_in_path(a, b, hit);
    let tail = text::decimal(column) + seq![':'] + rest;
    let row = path + seq![':'] + text::decimal(line) + seq![':'] + tail;
    lemma_group_behind(path, line, tail);
    let before = path + seq![':'] + text::decimal(line);
    lemma_group_behind(before, column, rest);
    assert(before + seq![':'] + text::decimal(column) + seq![':'] + rest =~= row);
    lemma_colon_in_path(a, b, row);
    assert(row.take(m) =~= path);
    assert(a + seq![':'] + b + seq![':'] + text::decimal(line) + seq![':'] + text::decimal(column)
        + seq![':'] + rest =~= row);
}

proof fn lemma_colon_in_path(a: Seq<char>, b: Seq<char>, row: Seq<char>)
    requires
        b.len() > 0,
        !a.contains(':'),
        !b.contains(':'),
        !('0' <= b[0] <= '9'),
        (a + seq![':'] + b).is_prefix_of(row),
    ensures
        first_group(row, 0) == first_group(row, (a.len() + 1 + b.len()) as int),
        first_place(row, 0) == first_place(row, (a.len() + 1 + b.len()) as int),
{
    let path = a + seq![':'] + b;
    let n = a.len() as int;
    let m = path.len() as int;
    assert(path =~= row.subrange(0, m));
    assert forall|j: int| 0 <= j < n implies row[j] != ':' by {
        assert(path[j] == a[j]);
        assert(row[j] == path[j]);
        assert(a.contains(a[j]));
    }
    assert forall|j: int| n + 1 <= j < m implies row[j] != ':' by {
        assert(path[j] == b[j - n - 1]);
        assert(row[j] == path[j]);
        assert(b.contains(b[j - n - 1]));
    }
    lemma_no_group_before(row, 0, n);
    assert(row[n + 1] == path[n + 1] && path[n + 1] == b[0]);
    assert(row.skip(n + 1)[0] == b[0]);
    assert(!group_at(row, n));
    lemma_no_group_before(row, n + 1, m);
}

/// A word before a colon that names no severity belongs to the message, which is
/// that of an error.
pub proof fn law_other_words_belong_to_the_message(head: Seq<char>, rest: Seq<char>)
    requires
        !head.contains(':'),
        !head.contains('['),
        !head.contains(']'),
        severity_named(head) is None,
    ensures
        severity_of(seq![' '] + head + seq![':'] + rest) == (
            Severity::Error,
            None::<Seq<char>>,
            head + seq![':'] + rest,
        ),
{
    let body = head + seq![':'] + rest;
    let s = seq![' '] + head + seq![':'] + rest;
    let n = head.len() as int;
    assert(s.skip(1) =~= body);
    assert(skip_space(s) == body);
    assert forall|j: int| 0 <= j < n implies body[j] != ':' && body[j] != '[' && body[j] != ']' by {
        assert(body[j] == head[j]);
        assert(head.contains(head[j]));
    }
    assert(body[n] == ':');
    text::lemma_first_index(body, ':', n);
    text::lemma_first_index_props(body, '[');
    text::lemma_first_index_props(body, ']');
    let open = text::first_index(body, '[');
    if open < body.len() {
        assert(open > n);
        lemma_no_severity(body.take(open), n);
    }
    assert(head_end(body) == n);
    assert(body.take(n) =~= head);
    text::lemma_first_index_props(head, '[');
    assert(!has_code(head));
}

/// Where anything was cut, it is said; and a group tells its line, how often it
/// came and its fingerprint.
pub proof fn law_cuts_are_told(
    row: DiagnosticView,
    rows: Seq<Seq<char>>,
    groups: Seq<(Seq<char>, nat)>,
    g: RepeatedLogGroup,
    run: (Seq<char>, nat),
    i: int,
    t: Tally,
)
    ensures
        row.cut() <==> row.path.len() > 4096 || row.message.len() > 4096 || (row.code is Some
            && row.code->0.len() > 4096),
        0 <= i < rows.len() ==> cut_rows(rows)[i] == (rows[i].len() > 4096) && kept_rows(rows)[i]
            == field(rows[i]),
        cut_rows(rows).len() == rows.len(),
        kept_rows(rows).len() == rows.len(),
        samples(groups).len() == groups.len(),
        0 <= i < groups.len() ==> samples(groups)[i] == groups[i].0,
        states_group(g, run) ==> g.count == run.1 && g.sample@ == field(run.0) && g.fingerprint
            == fingerprint_of(run.0),
        t.total is None && t.passed + t.skipped + t.failed.len() > u32::MAX ==> t.count()
            == u32::MAX,
{
}

/// A row is blank where it holds nothing but white space.
pub proof fn law_blank_rows_hold_white_space(before: Seq<char>, c: char, rest: Seq<char>)
    requires
        forall|i: int| 0 <= i < before.len() ==> text::is_ws(#[trigger] before[i]),
        !text::is_ws(c),
    ensures
        blank(before),
        !blank(before + seq![c] + rest),
{
    text::law_trimming_leaves_the_text(before, Seq::empty(), Seq::empty());
    assert(before + Seq::<char>::empty() + Seq::<char>::empty() =~= before);
    lemma_not_blank(before, c, rest);
}

proof fn lemma_not_blank(before: Seq<char>, c: char, rest: Seq<char>)
    requires
        forall|i: int| 0 <= i < before.len() ==> text::is_ws(#[trigger] before[i]),
        !text::is_ws(c),
    ensures
        !blank(before + seq![c] + rest),
    decreases rest.len(),
{
    let s = before + seq![c] + rest;
    if rest.len() == 0 {
        text::law_trimming_leaves_the_text(before, seq![c], Seq::empty());
        assert(before + seq![c] + Seq::<char>::empty() =~= s);
    } else if text::is_ws(rest.last()) {
        let less = rest.drop_last();
        lemma_not_blank(before, c, less);
        let t = before + seq![c] + less;
        lemma_trim_behind(before, seq![c] + less, rest.last());
        assert(before + (seq![c] + less) =~= t);
        assert(before + (seq![c] + less) + seq![rest.last()] =~= s);
    } else {
        let inner = seq![c] + rest;
        text::law_trimming_leaves_the_text(before, inner, Seq::empty());
        assert(inner.last() == rest.last());
        assert(before + inner + Seq::<char>::empty() =~= s);
    }
}

/// White space behind a text that holds something else changes nothing once it is
/// trimmed.
proof fn lemma_trim_behind(before: Seq<char>, inner: Seq<char>, w: char)
    requires
        forall|i: int| 0 <= i < before.len() ==> text::is_ws(#[trigger] before[i]),
        inner.len() > 0,
        !text::is_ws(inner[0]),
        text::is_ws(w),
    ensures
        text::trim(before + inner + seq![w]) == text::trim(before + inner),
    decreases before.len(),
{
    let s = before + inner;
    let t = before + inner + seq![w];
    if before.len() == 0 {
        assert(s =~= inner);
        assert(t =~= inner.push(w));
        assert(t[0] == inner[0]);
        assert(t.drop_last() =~= inner);
    } else {
        let b = before.drop_first();
        assert(s[0] == before[0] && t[0] == before[0]);
        assert(s.drop_first() =~= b + inner);
        assert(t.drop_first() =~= b + inner + seq![w]);
        assert forall|i: int| 0 <= i < b.len() implies text::is_ws(#[trigger] b[i]) by {
            assert(text::is_ws(before[i + 1]));
        }
        lemma_trim_behind(b, inner, w);
    }
}

} // verus!

//! Compact line grammars for evidence bodies: `DIAGv1`, `TESTSv1`, `SEARCHv1`
//! and `LOGv1`.
//!
//! Every body is line-oriented and every line is field-oriented. Fields are
//! joined with `|` and escaped by [`escape_field`], so the field separator and
//! the row separator can never appear raw inside a field. Parsing is the exact
//! inverse, and refuses every field that escaping could not have produced.
//!
//! One marker is reserved: an absent diagnostic `code` renders as `-`, so a
//! literal `-` code parses back as `None`.
use vstd::prelude::*;
use vstd::slice::slice_subrange;

use crate::text;
use crate::types::{CompactRepresentation, EvidenceError};

verus! {

/// The `DIAGv1` grammar version this module writes.
pub const DIAG_GRAMMAR: &'static str = "DIAGv1";

/// The `TESTSv1` grammar version this module writes.
pub const TESTS_GRAMMAR: &'static str = "TESTSv1";

/// The `SEARCHv1` grammar version this module writes.
pub const SEARCH_GRAMMAR: &'static str = "SEARCHv1";

/// The `LOGv1` grammar version this module writes.
pub const LOG_GRAMMAR: &'static str = "LOGv1";

/// One diagnostic row of the `DIAGv1` grammar.
#[derive(Debug, Clone, PartialEq, Eq)]
pub struct DiagnosticRow {
    pub path: String,
    pub line: u32,
    pub column: u32,
    pub severity: String,
    pub code: Option<String>,
    pub message: String,
}

/// The text of a diagnostic row, field by field.
#[verifier::ext_equal]
pub struct RowView {
    pub path: Seq<char>,
    pub line: u32,
    pub column: u32,
    pub severity: Seq<char>,
    pub code: Option<Seq<char>>,
    pub message: Seq<char>,
}

impl View for DiagnosticRow {
    type V = RowView;

    open spec fn view(&self) -> RowView {
        RowView {
            path: self.path@,
            line: self.line,
            column: self.column,
            severity: self.severity@,
            code: match self.code {
                Some(c) => Some(c@),
                None => None,
            },
            message: self.message@,
        }
    }
}

/// The views of a sequence of rows.
pub open spec fn row_views(rows: Seq<DiagnosticRow>) -> Seq<RowView> {
    Seq::new(rows.len(), |i: int| rows[i]@)
}

// ---------------------------------------------------------------- escaping

/// How one character is written inside a field.
pub open spec fn escaped_char(c: char) -> Seq<char> {
    if c == '\\' {
        seq!['\\', '\\']
    } else if c == '|' {
        seq!['\\', '|']
    } else if c == '\n' {
        seq!['\\', 'n']
    } else if c == '\r' {
        seq!['\\', 'r']
    } else {
        seq![c]
    }
}

/// How a text is written inside a field.
pub open spec fn escaped(s: Seq<char>) -> Seq<char>
    decreases s.len(),
{
    if s.len() == 0 {
        Seq::empty()
    } else {
        escaped(s.drop_last()) + escaped_char(s.last())
    }
}

/// What a backslash followed by `c` stands for.
pub open spec fn unescaped_char(c: char) -> Option<char> {
    if c == '\\' || c == '|' {
        Some(c)
    } else if c == 'n' {
        Some('\n')
    } else if c == 'r' {
        Some('\r')
    } else {
        None
    }
}

/// Why a field is no escaped text.
pub enum FieldFault {
    /// A backslash before a character that no escape ends in.
    Escape(char),
    /// A backslash at the end.
    Trailing,
    /// A pipe without a backslash before it.
    Pipe,
    /// A raw line feed or carriage return.
    LineBreak,
}

/// `p` before the text of `r`, where there is one.
pub open spec fn before_text(p: Seq<char>, r: Result<Seq<char>, FieldFault>) -> Result<
    Seq<char>,
    FieldFault,
> {
    match r {
        Ok(t) => Ok(p + t),
        Err(e) => Err(e),
    }
}

/// The text that a field stands for.
pub open spec fn unescaped(s: Seq<char>) -> Result<Seq<char>, FieldFault>
    decreases s.len(),
{
    if s.len() == 0 {
        Ok(Seq::empty())
    } else if s[0] == '\\' {
        if s.len() == 1 {
            Err(FieldFault::Trailing)
        } else {
            match unescaped_char(s[1]) {
                Some(c) => before_text(seq![c], unescaped(s.skip(2))),
                None => Err(FieldFault::Escape(s[1])),
            }
        }
    } else if s[0] == '|' {
        Err(FieldFault::Pipe)
    } else if s[0] == '\n' || s[0] == '\r' {
        Err(FieldFault::LineBreak)
    } else {
        before_text(seq![s[0]], unescaped(s.skip(1)))
    }
}

/// What a broken field is answered.
pub open spec fn fault_text(fault: FieldFault, field: Seq<char>) -> Seq<char> {
    match fault {
        FieldFault::Escape(c) => "invalid escape sequence \\"@ + seq![c] + " in field "@
            + text::debug_of(field),
        FieldFault::Trailing => "trailing backslash in field "@ + text::debug_of(field),
        FieldFault::Pipe => "unescaped pipe delimiter in field "@ + text::debug_of(field),
        FieldFault::LineBreak => "unescaped line break in field "@ + text::debug_of(field),
    }
}

/// Escapes one field so that it can stand between `|` separators and inside
/// rows joined by line feeds without being mistaken for grammar.
pub fn escape_field(raw: &str) -> (r: String)
    ensures
        r@ == escaped(raw@),
{
    let mut out: String = String::new();
    push_escaped(&mut out, raw);
    proof {
        assert(Seq::<char>::empty() + escaped(raw@) =~= escaped(raw@));
    }
    out
}

/// Appends the escaped form of `raw` to `out`.
fn push_escaped(out: &mut String, raw: &str)
    ensures
        final(out)@ == old(out)@ + escaped(raw@),
{
    let chars: Vec<char> = text::chars_of(raw);
    let mut i: usize = 0;
    proof {
        assert(old(out)@ + escaped(chars@.take(0)) =~= old(out)@);
    }
    while i < chars.len()
        invariant
            i <= chars.len(),
            out@ == old(out)@ + escaped(chars@.take(i as int)),
        decreases chars.len() - i,
    {
        let c: char = chars[i];
        let ghost before = out@;
        if c == '\\' {
            out.push('\\');
            out.push('\\');
        } else if c == '|' {
            out.push('\\');
            out.push('|');
        } else if c == '\n' {
            out.push('\\');
            out.push('n');
        } else if c == '\r' {
            out.push('\\');
            out.push('r');
        } else {
            out.push(c);
        }
        proof {
            assert(chars@.take(i as int + 1).drop_last() =~= chars@.take(i as int));
            assert(out@ =~= before + escaped_char(c));
            assert(out@ =~= old(out)@ + (escaped(chars@.take(i as int)) + escaped_char(c)));
        }
        i = i + 1;
    }
    proof {
        assert(chars@.take(i as int) =~= raw@);
    }
}

/// Inverse of [`escape_field`]. Refuses everything that escaping could not have
/// produced: an unknown escape, a trailing backslash, a raw pipe or line break.
pub fn unescape_field(raw: &str) -> (r: Result<String, EvidenceError>)
    ensures
        match unescaped(raw@) {
            Ok(t) => r matches Ok(s) && s@ == t,
            Err(f) => r matches Err(EvidenceError::Malformed(m)) && m@ == fault_text(f, raw@),
        },
{
    let chars: Vec<char> = text::chars_of(raw);
    let mut out: String = String::new();
    let mut i: usize = 0;
    proof {
        assert(chars@.skip(0) =~= chars@);
        lemma_before_nothing(unescaped(raw@));
    }
    while i < chars.len()
        invariant
            i <= chars.len(),
            chars@ == raw@,
            unescaped(raw@) == before_text(out@, unescaped(raw@.skip(i as int))),
        decreases chars.len() - i,
    {
        let c: char = chars[i];
        let ghost before = out@;
        let ghost rest = raw@.skip(i as int);
        if c == '\\' {
            if i + 1 == chars.len() {
                let mut m: String = "trailing backslash in field ".to_owned();
                m.append(text::debug_str(raw).as_str());
                return Err(EvidenceError::Malformed(m));
            }
            let e: char = chars[i + 1];
            let ghost next = raw@.skip(i as int + 2);
            if e == '\\' || e == '|' {
                out.push(e);
            } else if e == 'n' {
                out.push('\n');
            } else if e == 'r' {
                out.push('\r');
            } else {
                let mut m: String = "invalid escape sequence \\".to_owned();
                m.push(e);
                m.append(" in field ");
                m.append(text::debug_str(raw).as_str());
                proof {
                    assert(m@ =~= fault_text(FieldFault::Escape(e), raw@));
                }
                return Err(EvidenceError::Malformed(m));
            }
            proof {
                assert(rest[1] == e);
                assert(rest.skip(2) =~= next);
                lemma_before_push(before, out@.last(), unescaped(next));
                assert(out@ =~= before.push(out@.last()));
            }
            i = i + 2;
        } else if c == '|' {
            let mut m: String = "unescaped pipe delimiter in field ".to_owned();
            m.append(text::debug_str(raw).as_str());
            return Err(EvidenceError::Malformed(m));
        } else if c == '\n' || c == '\r' {
            let mut m: String = "unescaped line break in field ".to_owned();
            m.append(text::debug_str(raw).as_str());
            return Err(EvidenceError::Malformed(m));
        } else {
            out.push(c);
            proof {
                assert(rest.skip(1) =~= raw@.skip(i as int + 1));
                lemma_before_push(before, c, unescaped(raw@.skip(i as int + 1)));
            }
            i = i + 1;
        }
    }
    proof {
        assert(raw@.skip(i as int) =~= Seq::<char>::empty());
        assert(out@ + Seq::<char>::empty() =~= out@);
    }
    Ok(out)
}

proof fn lemma_before_nothing(r: Result<Seq<char>, FieldFault>)
    ensures
        before_text(Seq::empty(), r) == r,
{
    if let Ok(t) = r {
        assert(Seq::<char>::empty() + t =~= t);
    }
}

proof fn lemma_before_push(p: Seq<char>, c: char, r: Result<Seq<char>, FieldFault>)
    ensures
        before_text(p, before_text(seq![c], r)) == before_text(p.push(c), r),
{
    if let Ok(t) = r {
        assert(p + (seq![c] + t) =~= p.push(c) + t);
    }
}

proof fn lemma_escaped_add(a: Seq<char>, b: Seq<char>)
    ensures
        escaped(a + b) == escaped(a) + escaped(b),
    decreases b.len(),
{
    if b.len() == 0 {
        assert(a + b =~= a);
        assert(escaped(a) + escaped(b) =~= escaped(a));
    } else {
        assert((a + b).drop_last() =~= a + b.drop_last());
        lemma_escaped_add(a, b.drop_last());
        assert(escaped(a) + (escaped(b.drop_last()) + escaped_char(b.last())) =~= escaped(a)
            + escaped(b.drop_last()) + escaped_char(b.last()));
    }
}

proof fn lemma_escaped_first(s: Seq<char>)
    requires
        s.len() > 0,
    ensures
        escaped(s) == escaped_char(s[0]) + escaped(s.skip(1)),
{
    assert(s =~= seq![s[0]] + s.skip(1));
    lemma_escaped_add(seq![s[0]], s.skip(1));
    assert(seq![s[0]].drop_last() =~= Seq::<char>::empty());
    assert(escaped(seq![s[0]].drop_last()) =~= Seq::<char>::empty());
    assert(escaped(seq![s[0]]) =~= escaped_char(s[0]));
}

/// Unescaping an escaped text gives the text back.
pub proof fn law_unescape_inverts_escape(s: Seq<char>)
    ensures
        unescaped(escaped(s)) == Ok::<Seq<char>, FieldFault>(s),
    decreases s.len(),
{
    if s.len() > 0 {
        lemma_escaped_first(s);
        law_unescape_inverts_escape(s.skip(1));
        let e = escaped_char(s[0]);
        let whole = escaped(s);
        assert(whole.skip(e.len() as int) =~= escaped(s.skip(1)));
        assert(whole[0] == e[0]);
        if e.len() == 2 {
            assert(whole[1] == e[1]);
            assert(unescaped_char(e[1]) == Some(s[0]));
        }
        assert(seq![s[0]] + s.skip(1) =~= s);
    } else {
        assert(s =~= Seq::<char>::empty());
    }
}

/// Only what escaping writes can be unescaped: a field that stands for a text is
/// the escaped form of that text.
pub proof fn law_only_escaped_text_unescapes(s: Seq<char>)
    ensures
        unescaped(s) matches Ok(t) ==> escaped(t) == s,
    decreases s.len(),
{
    if s.len() == 0 {
        assert(escaped(Seq::<char>::empty()) =~= s);
    } else if let Ok(t) = unescaped(s) {
        let n: int = if s[0] == '\\' {
            2
        } else {
            1
        };
        law_only_escaped_text_unescapes(s.skip(n));
        let rest = unescaped(s.skip(n))->Ok_0;
        assert(t.skip(1) =~= rest);
        lemma_escaped_first(t);
        assert(s =~= escaped_char(t[0]) + s.skip(n));
    }
}

/// An escaped text holds no line feed, no carriage return and no pipe that
/// could end a field.
pub proof fn law_escaped_text_is_one_field(s: Seq<char>)
    ensures
        !escaped(s).contains('\n'),
        !escaped(s).contains('\r'),
        fields_of(escaped(s)) == seq![escaped(s)],
{
    lemma_escaped_clean(s);
    lemma_field_end_escaped(s, Seq::empty());
    assert(escaped(s) + Seq::<char>::empty() =~= escaped(s));
    assert(fields_of(escaped(s)) =~= seq![escaped(s)]);
}

proof fn lemma_escaped_clean(s: Seq<char>)
    ensures
        !escaped(s).contains('\n'),
        !escaped(s).contains('\r'),
    decreases s.len(),
{
    if s.len() > 0 {
        lemma_escaped_clean(s.drop_last());
        let a = escaped(s.drop_last());
        let b = escaped_char(s.last());
        assert forall|i: int| 0 <= i < (a + b).len() implies (a + b)[i] != '\n' && (a + b)[i]
            != '\r' by {
            if i < a.len() {
                assert(a.contains(a[i]));
            } else {
                assert((a + b)[i] == b[i - a.len()]);
            }
        }
    }
}

// ------------------------------------------------------------------ fields

/// The position of the first pipe of `s` that no backslash escapes, or the
/// length of `s`.
pub open spec fn field_end(s: Seq<char>) -> int
    decreases s.len(),
{
    if s.len() == 0 || s[0] == '|' {
        0
    } else if s[0] == '\\' {
        if s.len() == 1 {
            1
        } else {
            2 + field_end(s.skip(2))
        }
    } else {
        1 + field_end(s.skip(1))
    }
}

pub proof fn lemma_field_end(s: Seq<char>)
    ensures
        0 <= field_end(s) <= s.len(),
        field_end(s) < s.len() ==> s[field_end(s)] == '|',
    decreases s.len(),
{
    if s.len() == 0 || s[0] == '|' {
    } else if s[0] == '\\' {
        if s.len() > 1 {
            lemma_field_end(s.skip(2));
        }
    } else {
        lemma_field_end(s.skip(1));
    }
}

/// The fields of a row, still escaped: the parts between unescaped pipes.
pub open spec fn fields_of(s: Seq<char>) -> Seq<Seq<char>>
    decreases s.len(),
{
    let n = field_end(s);
    if 0 <= n < s.len() {
        seq![s.take(n)] + fields_of(s.skip(n + 1))
    } else {
        seq![s]
    }
}

/// The position of the first unescaped pipe.
fn find_field_end(s: &[char]) -> (r: usize)
    ensures
        r == field_end(s@),
        r <= s.len(),
{
    let mut i: usize = 0;
    proof {
        assert(s@.skip(0) =~= s@);
        lemma_field_end(s@);
    }
    while i < s.len()
        invariant
            i <= s.len(),
            field_end(s@) == i + field_end(s@.skip(i as int)),
            field_end(s@) <= s@.len(),
        decreases s.len() - i,
    {
        let ghost rest = s@.skip(i as int);
        if s[i] == '|' {
            return i;
        }
        if s[i] == '\\' {
            if i + 1 == s.len() {
                return i + 1;
            }
            proof {
                assert(rest.skip(2) =~= s@.skip(i as int + 2));
            }
            i = i + 2;
        } else {
            proof {
                assert(rest.skip(1) =~= s@.skip(i as int + 1));
            }
            i = i + 1;
        }
    }
    i
}

/// Splits one row into raw fields.
fn split_escaped(line: &[char]) -> (r: Vec<&[char]>)
    ensures
        text::views(r@) == fields_of(line@),
{
    let mut out: Vec<&[char]> = Vec::new();
    let mut rest: &[char] = line;
    proof {
        assert(text::views(out@) + fields_of(line@) =~= fields_of(line@));
    }
    loop
        invariant
            text::views(out@) + fields_of(rest@) == fields_of(line@),
        decreases rest@.len(),
    {
        let n: usize = find_field_end(rest);
        let ghost before = out@;
        let ghost old_rest = rest@;
        if n == rest.len() {
            out.push(rest);
            proof {
                assert(text::views(out@) =~= text::views(before) + seq![rest@]);
            }
            return out;
        }
        let part: &[char] = slice_subrange(rest, 0, n);
        out.push(part);
        rest = slice_subrange(rest, n + 1, rest.len());
        proof {
            assert(part@ =~= old_rest.take(n as int));
            assert(rest@ =~= old_rest.skip(n as int + 1));
            assert(text::views(out@) =~= text::views(before).push(part@));
            assert(text::views(before) + fields_of(old_rest) =~= text::views(out@) + fields_of(
                rest@,
            ));
        }
    }
}

proof fn lemma_field_end_escaped(s: Seq<char>, tail: Seq<char>)
    requires
        tail.len() > 0 ==> tail[0] == '|',
    ensures
        field_end(escaped(s) + tail) == escaped(s).len(),
    decreases s.len(),
{
    if s.len() > 0 {
        lemma_escaped_first(s);
        lemma_field_end_escaped(s.skip(1), tail);
        let e = escaped_char(s[0]);
        let whole = escaped(s) + tail;
        assert(whole.skip(e.len() as int) =~= escaped(s.skip(1)) + tail);
        assert(whole[0] == e[0]);
    } else {
        assert(escaped(s) + tail =~= tail);
    }
}

// ------------------------------------------------------------- diagnostics

/// The text of a code field.
pub open spec fn code_text(code: Option<Seq<char>>) -> Seq<char> {
    match code {
        Some(c) => escaped(c),
        None => seq!['-'],
    }
}

/// The text of a location field.
pub open spec fn location_text(line: u32, column: u32) -> Seq<char> {
    text::decimal(line as nat) + seq![':'] + text::decimal(column as nat)
}

/// One `path|line:col|severity|code|message` row.
pub open spec fn row_text(row: RowView) -> Seq<char> {
    escaped(row.path) + seq!['|'] + location_text(row.line, row.column) + seq!['|'] + escaped(
        row.severity,
    ) + seq!['|'] + code_text(row.code) + seq!['|'] + escaped(row.message)
}

/// The rows of a `DIAGv1` body, one per diagnostic.
pub open spec fn row_texts(rows: Seq<RowView>) -> Seq<Seq<char>> {
    Seq::new(rows.len(), |i: int| row_text(rows[i]))
}

/// A `DIAGv1` body.
pub open spec fn diag_body(rows: Seq<RowView>) -> Seq<char> {
    text::join(row_texts(rows), seq!['\n'])
}

/// One row of a `DIAGv1` body.
fn diagnostic_line(row: &DiagnosticRow) -> (r: String)
    ensures
        r@ == row_text(row@),
{
    let mut location: String = decimal_string(row.line as u64);
    text::push_one(&mut location, ':');
    text::push_decimal(&mut location, row.column as u64);
    let mut out: String = escape_field(row.path.as_str());
    text::push_one(&mut out, '|');
    out.append(location.as_str());
    text::push_one(&mut out, '|');
    push_escaped(&mut out, row.severity.as_str());
    text::push_one(&mut out, '|');
    match &row.code {
        Some(code) => push_escaped(&mut out, code.as_str()),
        None => text::push_one(&mut out, '-'),
    }
    text::push_one(&mut out, '|');
    push_escaped(&mut out, row.message.as_str());
    out
}

/// A number in decimal.
fn decimal_string(n: u64) -> (r: String)
    ensures
        r@ == text::decimal(n as nat),
{
    let mut out: String = String::new();
    text::push_decimal(&mut out, n);
    proof {
        assert(Seq::<char>::empty() + text::decimal(n as nat) =~= text::decimal(n as nat));
    }
    out
}

/// Renders diagnostics as escaped rows joined by line feeds; an absent `code`
/// renders as `-`.
pub fn render_diagnostics(rows: &[DiagnosticRow]) -> (r: CompactRepresentation)
    ensures
        r.grammar@ == DIAG_GRAMMAR@,
        r.body@ == diag_body(row_views(rows@)),
{
    let ghost all = row_texts(row_views(rows@));
    let mut body: String = String::new();
    let mut i: usize = 0;
    while i < rows.len()
        invariant
            i <= rows.len(),
            all == row_texts(row_views(rows@)),
            body@ == text::join(all.take(i as int), seq!['\n']),
        decreases rows.len() - i,
    {
        let ghost start = body@;
        let row: &DiagnosticRow = &rows[i];
        if i > 0 {
            body.push('\n');
        }
        let ghost before = body@;
        let line: String = diagnostic_line(row);
        body.append(line.as_str());
        proof {
            let t = row_text(row@);
            assert(all[i as int] == t);
            let now = all.take(i as int + 1);
            assert(now.drop_last() =~= all.take(i as int));
            assert(now.last() == t);
            if i == 0 {
                assert(before + t =~= t);
            } else {
                assert(before =~= start + seq!['\n']);
            }
        }
        i = i + 1;
    }
    proof {
        assert(all.take(i as int) =~= all);
    }
    CompactRepresentation { grammar: DIAG_GRAMMAR.to_owned(), body }
}

/// A plain decimal `u32`: digits alone, no sign, no overflow.
pub open spec fn strict_u32(s: Seq<char>) -> Option<u32> {
    if s.len() > 0 && text::all_digits(s) && text::digits_value(s) <= u32::MAX {
        Some(text::digits_value(s) as u32)
    } else {
        None
    }
}

/// What a number that is no plain `u32` is answered.
pub open spec fn bad_u32_text(s: Seq<char>) -> Seq<char> {
    text::debug_of(s) + " is not a plain u32"@
}

/// What a location that is not `line:column` is answered.
pub open spec fn bad_location_text(s: Seq<char>) -> Seq<char> {
    text::debug_of(s) + " is not a line:column location"@
}

/// The location `line:column`, or what it is answered.
pub open spec fn location_of(s: Seq<char>) -> Result<(u32, u32), Seq<char>> {
    let n = text::first_index(s, ':');
    let line = s.take(n);
    let column = s.skip(n + 1);
    if n == s.len() || column.contains(':') {
        Err(bad_location_text(s))
    } else {
        match (strict_u32(line), strict_u32(column)) {
            (Some(l), Some(c)) => Ok((l, c)),
            (None, _) => Err(bad_u32_text(line)),
            (Some(_), None) => Err(bad_u32_text(column)),
        }
    }
}

/// The code that a code field stands for.
pub open spec fn code_of(s: Seq<char>) -> Option<Seq<char>> {
    if s == seq!['-'] {
        None
    } else {
        Some(s)
    }
}

/// The row that a line stands for, or what it is answered. The fields are
/// judged in order, and the location after them.
pub open spec fn row_of(line: Seq<char>) -> Result<RowView, Seq<char>> {
    let f = fields_of(line);
    if f.len() != 5 {
        Err(
            "diagnostic row must have exactly 5 pipe-separated fields, got "@ + text::decimal(
                f.len(),
            ),
        )
    } else {
        match unescaped(f[0]) {
            Err(e) => Err(fault_text(e, f[0])),
            Ok(path) => match unescaped(f[1]) {
                Err(e) => Err(fault_text(e, f[1])),
                Ok(location) => match unescaped(f[2]) {
                    Err(e) => Err(fault_text(e, f[2])),
                    Ok(severity) => match unescaped(f[3]) {
                        Err(e) => Err(fault_text(e, f[3])),
                        Ok(code) => match unescaped(f[4]) {
                            Err(e) => Err(fault_text(e, f[4])),
                            Ok(message) => match location_of(location) {
                                Err(m) => Err(m),
                                Ok(place) => Ok(
                                    RowView {
                                        path,
                                        line: place.0,
                                        column: place.1,
                                        severity,
                                        code: code_of(code),
                                        message,
                                    },
                                ),
                            },
                        },
                    },
                },
            },
        }
    }
}

/// The rows that lines stand for; the first line that stands for none decides
/// the answer.
pub open spec fn rows_of(lines: Seq<Seq<char>>) -> Result<Seq<RowView>, Seq<char>>
    decreases lines.len(),
{
    if lines.len() == 0 {
        Ok(Seq::empty())
    } else {
        match rows_of(lines.drop_last()) {
            Err(m) => Err(m),
            Ok(rows) => match row_of(lines.last()) {
                Err(m) => Err(
                    "row "@ + text::decimal((lines.len() - 1) as nat) + ": malformed evidence: "@
                        + m,
                ),
                Ok(row) => Ok(rows.push(row)),
            },
        }
    }
}

/// What parsing a `DIAGv1` body gives: an empty body is no rows.
pub open spec fn parsed_body(body: Seq<char>) -> Result<Seq<RowView>, Seq<char>> {
    if body.len() == 0 {
        Ok(Seq::empty())
    } else {
        rows_of(text::split_on(body, '\n'))
    }
}

/// Strict decimal `u32`.
fn parse_u32_strict(raw: &[char]) -> (r: Result<u32, EvidenceError>)
    ensures
        match strict_u32(raw@) {
            Some(v) => r == Ok::<u32, EvidenceError>(v),
            None => r matches Err(EvidenceError::Malformed(m)) && m@ == bad_u32_text(raw@),
        },
{
    let plain: bool = raw.len() > 0 && raw[0] != '+';
    if plain {
        if let Some(v) = text::parse_unsigned(raw, u32::MAX as u64) {
            return Ok(v as u32);
        }
    } else {
        proof {
            if raw@.len() > 0 {
                assert(!text::is_dec_digit(raw@[0]));
            }
        }
    }
    let whole: String = text::string_of(raw);
    let mut m: String = text::debug_str(whole.as_str());
    m.append(" is not a plain u32");
    Err(EvidenceError::Malformed(m))
}

/// Parses a `line:column` location.
fn parse_location(location: &str) -> (r: Result<(u32, u32), EvidenceError>)
    ensures
        match location_of(location@) {
            Ok(v) => r == Ok::<(u32, u32), EvidenceError>(v),
            Err(t) => r matches Err(EvidenceError::Malformed(m)) && m@ == t,
        },
{
    let chars: Vec<char> = text::chars_of(location);
    let s: &[char] = chars.as_slice();
    let n: usize = text::find_char(s, ':');
    let mut bad: bool = n == s.len();
    if !bad {
        let column: &[char] = slice_subrange(s, n + 1, s.len());
        proof {
            assert(column@ =~= location@.skip(n as int + 1));
            text::lemma_first_index_props(column@, ':');
        }
        bad = text::find_char(column, ':') < column.len();
    }
    if bad {
        let mut m: String = text::debug_str(location);
        m.append(" is not a line:column location");
        return Err(EvidenceError::Malformed(m));
    }
    let line: &[char] = slice_subrange(s, 0, n);
    let column: &[char] = slice_subrange(s, n + 1, s.len());
    proof {
        assert(line@ =~= location@.take(n as int));
        assert(column@ =~= location@.skip(n as int + 1));
    }
    match parse_u32_strict(line) {
        Err(e) => Err(e),
        Ok(l) => match parse_u32_strict(column) {
            Err(e) => Err(e),
            Ok(c) => Ok((l, c)),
        },
    }
}

/// Unescapes one field given as characters.
fn unescape_chars(field: &[char]) -> (r: Result<String, EvidenceError>)
    ensures
        match unescaped(field@) {
            Ok(t) => r matches Ok(s) && s@ == t,
            Err(f) => r matches Err(EvidenceError::Malformed(m)) && m@ == fault_text(f, field@),
        },
{
    let whole: String = text::string_of(field);
    unescape_field(whole.as_str())
}

fn parse_diagnostic_row(line: &[char]) -> (r: Result<DiagnosticRow, EvidenceError>)
    ensures
        match row_of(line@) {
            Ok(v) => r matches Ok(row) && row@ == v,
            Err(t) => r matches Err(EvidenceError::Malformed(m)) && m@ == t,
        },
{
    let fields: Vec<&[char]> = split_escaped(line);
    let ghost f = fields_of(line@);
    proof {
        assert(f == text::views(fields@));
        assert(f.len() == fields@.len());
        assert forall|i: int| 0 <= i < f.len() implies f[i] == fields@[i]@ by {}
    }
    if fields.len() != 5 {
        let mut m: String = "diagnostic row must have exactly 5 pipe-separated fields, got ".to_owned();
        text::push_decimal(&mut m, fields.len() as u64);
        return Err(EvidenceError::Malformed(m));
    }
    let path: String = match unescape_chars(fields[0]) {
        Ok(v) => v,
        Err(e) => {
            return Err(e);
        },
    };
    let location: String = match unescape_chars(fields[1]) {
        Ok(v) => v,
        Err(e) => {
            return Err(e);
        },
    };
    let severity: String = match unescape_chars(fields[2]) {
        Ok(v) => v,
        Err(e) => {
            return Err(e);
        },
    };
    let code: String = match unescape_chars(fields[3]) {
        Ok(v) => v,
        Err(e) => {
            return Err(e);
        },
    };
    let message: String = match unescape_chars(fields[4]) {
        Ok(v) => v,
        Err(e) => {
            return Err(e);
        },
    };
    let place: (u32, u32) = match parse_location(location.as_str()) {
        Ok(v) => v,
        Err(e) => {
            return Err(e);
        },
    };
    let code_chars: Vec<char> = text::chars_of(code.as_str());
    let absent: bool = code_chars.len() == 1 && code_chars[0] == '-';
    proof {
        if absent {
            assert(code@ =~= seq!['-']);
        }
    }
    Ok(
        DiagnosticRow {
            path,
            line: place.0,
            column: place.1,
            severity,
            code: if absent {
                None
            } else {
                Some(code)
            },
            message,
        },
    )
}

/// Parses a `DIAGv1` body back into rows. An empty body is zero rows; every
/// malformed shape is [`EvidenceError::Malformed`].
pub fn parse_diagnostics(body: &str) -> (r: Result<Vec<DiagnosticRow>, EvidenceError>)
    ensures
        match parsed_body(body@) {
            Ok(rows) => r matches Ok(v) && row_views(v@) == rows,
            Err(t) => r matches Err(EvidenceError::Malformed(m)) && m@ == t,
        },
{
    let mut out: Vec<DiagnosticRow> = Vec::new();
    proof {
        assert(row_views(out@) =~= Seq::empty());
    }
    if body.is_empty() {
        return Ok(out);
    }
    let chars: Vec<char> = text::chars_of(body);
    let lines: Vec<&[char]> = text::split_at_char(chars.as_slice(), '\n');
    let ghost all = text::split_on(body@, '\n');
    let mut i: usize = 0;
    proof {
        assert(all.take(0) =~= Seq::empty());
    }
    while i < lines.len()
        invariant
            i <= lines.len(),
            all == text::split_on(body@, '\n'),
            body@.len() > 0,
            text::views(lines@) == all,
            rows_of(all.take(i as int)) == Ok::<Seq<RowView>, Seq<char>>(row_views(out@)),
        decreases lines.len() - i,
    {
        proof {
            assert(all[i as int] == lines@[i as int]@);
            assert(all.take(i as int + 1).drop_last() =~= all.take(i as int));
            assert(all.take(i as int + 1).last() == all[i as int]);
        }
        let ghost before = out@;
        match parse_diagnostic_row(lines[i]) {
            Ok(row) => {
                out.push(row);
                proof {
                    assert(row_views(out@) =~= row_views(before).push(row@));
                }
            },
            Err(e) => {
                let mut m: String = "row ".to_owned();
                text::push_decimal(&mut m, i as u64);
                m.append(": ");
                m.append(e.to_string().as_str());
                proof {
                    reveal_strlit(": ");
                    reveal_strlit("malformed evidence: ");
                    reveal_strlit(": malformed evidence: ");
                    assert(": "@ + "malformed evidence: "@ =~= ": malformed evidence: "@);
                    lemma_rows_fail(all, i as int);
                    let t = row_of(all[i as int])->Err_0;
                    assert(m@ =~= "row "@ + text::decimal(i as nat) + (": "@
                        + "malformed evidence: "@) + t);
                }
                return Err(EvidenceError::Malformed(m));
            },
        }
        i = i + 1;
    }
    proof {
        assert(all.take(i as int) =~= all);
    }
    Ok(out)
}

proof fn lemma_rows_fail(lines: Seq<Seq<char>>, n: int)
    requires
        0 <= n < lines.len(),
        rows_of(lines.take(n + 1)) is Err,
    ensures
        rows_of(lines) == rows_of(lines.take(n + 1)),
    decreases lines.len() - n,
{
    if n + 1 == lines.len() {
        assert(lines.take(n + 1) =~= lines);
    } else {
        assert(lines.take(n + 2).drop_last() =~= lines.take(n + 1));
        lemma_rows_fail(lines, n + 1);
    }
}

/// A row as it comes back from a body: a literal `-` code is an absent one.
pub open spec fn read_back(row: RowView) -> RowView {
    RowView {
        code: match row.code {
            Some(c) => code_of(c),
            None => None,
        },
        ..row
    }
}

proof fn lemma_plain_field(s: Seq<char>)
    requires
        forall|i: int|
            0 <= i < s.len() ==> #[trigger] s[i] != '\\' && s[i] != '|' && s[i] != '\n' && s[i]
                != '\r',
    ensures
        escaped(s) == s,
    decreases s.len(),
{
    if s.len() > 0 {
        lemma_plain_field(s.drop_last());
        assert(s[s.len() - 1] == s.last());
        assert(s.drop_last() + escaped_char(s.last()) =~= s);
    } else {
        assert(s =~= Seq::<char>::empty());
    }
}

proof fn lemma_location_plain(line: u32, column: u32)
    ensures
        escaped(location_text(line, column)) == location_text(line, column),
        location_of(location_text(line, column)) == Ok::<(u32, u32), Seq<char>>((line, column)),
{
    let a = text::decimal(line as nat);
    let b = text::decimal(column as nat);
    let s = location_text(line, column);
    text::lemma_decimal_value(line as nat);
    text::lemma_decimal_value(column as nat);
    assert forall|i: int| 0 <= i < s.len() implies #[trigger] s[i] != '\\' && s[i] != '|' && s[i]
        != '\n' && s[i] != '\r' by {
        if i < a.len() {
            assert(text::is_dec_digit(a[i]));
            assert(s[i] == a[i]);
        } else if i > a.len() {
            assert(text::is_dec_digit(b[i - a.len() - 1]));
            assert(s[i] == b[i - a.len() - 1]);
        }
    }
    lemma_plain_field(s);
    let n = a.len() as int;
    assert(s[n] == ':');
    assert forall|j: int| 0 <= j < n implies s[j] != ':' by {
        assert(text::is_dec_digit(a[j]));
        assert(s[j] == a[j]);
    }
    text::lemma_first_index(s, ':', n);
    assert(s.take(n) =~= a);
    assert(s.skip(n + 1) =~= b);
    assert(!b.contains(':')) by {
        if b.contains(':') {
            let k = choose|k: int| 0 <= k < b.len() && b[k] == ':';
            assert(text::is_dec_digit(b[k]));
        }
    }
}

proof fn lemma_code_escaped(code: Option<Seq<char>>)
    ensures
        exists|c: Seq<char>| #[trigger]
            escaped(c) == code_text(code) && code_of(c) == (match code {
                Some(v) => code_of(v),
                None => None,
            }),
{
    match code {
        Some(c) => {
            assert(escaped(c) == code_text(code));
        },
        None => {
            lemma_plain_field(seq!['-']);
            assert(escaped(seq!['-']) == code_text(code));
        },
    }
}

/// One field before a pipe.
proof fn lemma_fields_step(s: Seq<char>, tail: Seq<char>)
    ensures
        fields_of(escaped(s) + seq!['|'] + tail) == seq![escaped(s)] + fields_of(tail),
{
    let whole = escaped(s) + seq!['|'] + tail;
    lemma_field_end_escaped(s, seq!['|'] + tail);
    assert(whole =~= escaped(s) + (seq!['|'] + tail));
    let n = escaped(s).len() as int;
    assert(whole.take(n) =~= escaped(s));
    assert(whole.skip(n + 1) =~= tail);
}

proof fn lemma_regroup(
    a: Seq<char>,
    b: Seq<char>,
    c: Seq<char>,
    d: Seq<char>,
    e: Seq<char>,
    p: Seq<char>,
)
    ensures
        a + p + b + p + c + p + d + p + e == a + p + (b + p + (c + p + (d + p + e))),
{
    assert(c + p + d + p + e =~= c + p + (d + p + e));
    assert(b + p + c + p + d + p + e =~= b + p + (c + p + d + p + e));
    assert(a + p + b + p + c + p + d + p + e =~= a + p + (b + p + c + p + d + p + e));
}

/// The five fields of a row whose texts are escaped.
proof fn lemma_five_fields(
    a: Seq<char>,
    b: Seq<char>,
    c: Seq<char>,
    d: Seq<char>,
    e: Seq<char>,
)
    ensures
        ({
            let p = seq!['|'];
            let line = escaped(a) + p + escaped(b) + p + escaped(c) + p + escaped(d) + p + escaped(
                e,
            );
            &&& fields_of(line) == seq![escaped(a), escaped(b), escaped(c), escaped(d), escaped(e)]
            &&& !line.contains('\n')
        }),
{
    let p = seq!['|'];
    let t4 = escaped(e);
    let t3 = escaped(d) + p + t4;
    let t2 = escaped(c) + p + t3;
    let t1 = escaped(b) + p + t2;
    let t0 = escaped(a) + p + t1;
    lemma_regroup(escaped(a), escaped(b), escaped(c), escaped(d), escaped(e), p);
    lemma_fields_step(a, t1);
    lemma_fields_step(b, t2);
    lemma_fields_step(c, t3);
    lemma_fields_step(d, t4);
    law_escaped_text_is_one_field(e);
    assert(fields_of(t0) =~= seq![escaped(a), escaped(b), escaped(c), escaped(d), escaped(e)]);
    lemma_escaped_clean(a);
    lemma_escaped_clean(b);
    lemma_escaped_clean(c);
    lemma_escaped_clean(d);
    lemma_clean_add(escaped(d), t4);
    lemma_clean_add(escaped(c), t3);
    lemma_clean_add(escaped(b), t2);
    lemma_clean_add(escaped(a), t1);
}

proof fn lemma_row_round_trip(row: RowView)
    ensures
        row_of(row_text(row)) == Ok::<RowView, Seq<char>>(read_back(row)),
        !row_text(row).contains('\n'),
        row_text(row).len() > 0,
{
    lemma_code_escaped(row.code);
    let code = choose|c: Seq<char>| #[trigger]
        escaped(c) == code_text(row.code) && code_of(c) == (match row.code {
            Some(v) => code_of(v),
            None => None,
        });
    let loc = location_text(row.line, row.column);
    lemma_location_plain(row.line, row.column);
    lemma_five_fields(row.path, loc, row.severity, code, row.message);
    law_unescape_inverts_escape(row.path);
    law_unescape_inverts_escape(loc);
    law_unescape_inverts_escape(row.severity);
    law_unescape_inverts_escape(code);
    law_unescape_inverts_escape(row.message);
}

proof fn lemma_clean_add(a: Seq<char>, b: Seq<char>)
    requires
        !a.contains('\n'),
        !b.contains('\n'),
    ensures
        !(a + seq!['|'] + b).contains('\n'),
{
    let whole = a + seq!['|'] + b;
    if whole.contains('\n') {
        let k = choose|k: int| 0 <= k < whole.len() && whole[k] == '\n';
        if k < a.len() {
            assert(a[k] == '\n');
        } else if k > a.len() {
            assert(b[k - a.len() - 1] == '\n');
        }
    }
}

proof fn lemma_rows_round_trip(rows: Seq<RowView>)
    ensures
        rows_of(row_texts(rows)) == Ok::<Seq<RowView>, Seq<char>>(
            Seq::new(rows.len(), |i: int| read_back(rows[i])),
        ),
    decreases rows.len(),
{
    let back = Seq::new(rows.len(), |i: int| read_back(rows[i]));
    if rows.len() == 0 {
        assert(back =~= Seq::empty());
    } else {
        let most = rows.drop_last();
        lemma_rows_round_trip(most);
        lemma_row_round_trip(rows.last());
        assert(row_texts(rows).drop_last() =~= row_texts(most));
        assert(back =~= Seq::new(most.len(), |i: int| read_back(most[i])).push(
            read_back(rows.last()),
        ));
    }
}

/// Parsing a rendered body gives the rendered rows back, whatever their fields
/// hold; only a literal `-` code comes back as an absent one.
pub proof fn law_diagnostics_round_trip(rows: Seq<RowView>)
    ensures
        parsed_body(diag_body(rows)) == Ok::<Seq<RowView>, Seq<char>>(
            Seq::new(rows.len(), |i: int| read_back(rows[i])),
        ),
{
    let back = Seq::new(rows.len(), |i: int| read_back(rows[i]));
    if rows.len() == 0 {
        assert(back =~= Seq::empty());
        assert(row_texts(rows) =~= Seq::empty());
    } else {
        let texts = row_texts(rows);
        assert forall|i: int| 0 <= i < texts.len() implies !(#[trigger] texts[i]).contains(
            '\n',
        ) by {
            lemma_row_round_trip(rows[i]);
        }
        text::lemma_split_join(texts, '\n');
        lemma_rows_round_trip(rows);
        let body = diag_body(rows);
        if body.len() == 0 {
            lemma_row_round_trip(rows.last());
            if texts.len() > 1 {
                assert(body.len() >= texts.last().len());
            }
        }
    }
}

// ------------------------------------------------- tests, searches and logs

/// The views of pairs of strings.
pub open spec fn pair_views(pairs: Seq<(String, String)>) -> Seq<(Seq<char>, Seq<char>)> {
    Seq::new(pairs.len(), |i: int| (pairs[i].0@, pairs[i].1@))
}

/// One row of a failed case.
pub open spec fn fail_row(case: (Seq<char>, Seq<char>)) -> Seq<char> {
    "FAIL|"@ + escaped(case.0) + seq!['|'] + escaped(case.1)
}

pub open spec fn tests_header(
    failed: nat,
    total: nat,
    passed: nat,
    skipped: nat,
    duration_ms: nat,
) -> Seq<char> {
    "total="@ + text::decimal(total) + " passed="@ + text::decimal(passed) + " skipped="@
        + text::decimal(skipped) + " failed="@ + text::decimal(failed) + " duration_ms="@
        + text::decimal(duration_ms)
}

/// The rows of a `TESTSv1` body.
pub open spec fn tests_rows(
    failed: Seq<(Seq<char>, Seq<char>)>,
    total: nat,
    passed: nat,
    skipped: nat,
    duration_ms: nat,
) -> Seq<Seq<char>> {
    seq![tests_header(failed.len(), total, passed, skipped, duration_ms)] + Seq::new(
        failed.len(),
        |i: int| fail_row(failed[i]),
    )
}

/// Renders a test run summary plus one escaped `FAIL|name|message` row per
/// failed case.
pub fn render_tests(
    failed: &[(String, String)],
    total: usize,
    passed: usize,
    skipped: usize,
    duration_ms: u64,
) -> (r: CompactRepresentation)
    ensures
        r.grammar@ == TESTS_GRAMMAR@,
        r.body@ == text::join(
            tests_rows(
                pair_views(failed@),
                total as nat,
                passed as nat,
                skipped as nat,
                duration_ms as nat,
            ),
            seq!['\n'],
        ),
{
    let ghost all = tests_rows(
        pair_views(failed@),
        total as nat,
        passed as nat,
        skipped as nat,
        duration_ms as nat,
    );
    let mut body: String = "total=".to_owned();
    text::push_decimal(&mut body, total as u64);
    body.append(" passed=");
    text::push_decimal(&mut body, passed as u64);
    body.append(" skipped=");
    text::push_decimal(&mut body, skipped as u64);
    body.append(" failed=");
    text::push_decimal(&mut body, failed.len() as u64);
    body.append(" duration_ms=");
    text::push_decimal(&mut body, duration_ms);
    let mut i: usize = 0;
    proof {
        assert(all.take(1) =~= seq![all[0]]);
        assert(body@ == all[0]);
    }
    while i < failed.len()
        invariant
            i <= failed.len(),
            all.len() == failed.len() + 1,
            forall|j: int| 0 <= j < failed.len() ==> #[trigger] all[j + 1] == fail_row(
                pair_views(failed@)[j],
            ),
            body@ == text::join(all.take(i as int + 1), seq!['\n']),
        decreases failed.len() - i,
    {
        let mut row: String = "FAIL|".to_owned();
        push_escaped(&mut row, failed[i].0.as_str());
        text::push_one(&mut row, '|');
        push_escaped(&mut row, failed[i].1.as_str());
        proof {
            assert(row@ == fail_row(pair_views(failed@)[i as int]));
            assert(all[i as int + 1] == row@);
            assert(all.take(i as int + 2).drop_last() =~= all.take(i as int + 1));
        }
        text::push_one(&mut body, '\n');
        body.append(row.as_str());
        i = i + 1;
    }
    proof {
        assert(all.take(i as int + 1) =~= all);
    }
    CompactRepresentation { grammar: TESTS_GRAMMAR.to_owned(), body }
}

/// The views of search hits.
pub open spec fn hit_views(hits: Seq<(String, u32)>) -> Seq<(Seq<char>, u32)> {
    Seq::new(hits.len(), |i: int| (hits[i].0@, hits[i].1))
}

/// The hits without repetitions, each where it first occurred.
pub open spec fn distinct(hits: Seq<(Seq<char>, u32)>) -> Seq<(Seq<char>, u32)>
    decreases hits.len(),
{
    if hits.len() == 0 {
        Seq::empty()
    } else {
        let before = distinct(hits.drop_last());
        if before.contains(hits.last()) {
            before
        } else {
            before.push(hits.last())
        }
    }
}

/// One row of a search hit.
pub open spec fn hit_row(hit: (Seq<char>, u32)) -> Seq<char> {
    escaped(hit.0) + seq!['|'] + text::decimal(hit.1 as nat)
}

/// The rows of a `SEARCHv1` body.
pub open spec fn search_rows(hits: Seq<(Seq<char>, u32)>) -> Seq<Seq<char>> {
    Seq::new(distinct(hits).len(), |i: int| hit_row(distinct(hits)[i]))
}

/// Renders search hits as escaped `path|line` rows, deduplicated by exact
/// path and line, first occurrence first.
pub fn render_search(hits: &[(String, u32)]) -> (r: CompactRepresentation)
    ensures
        r.grammar@ == SEARCH_GRAMMAR@,
        r.body@ == text::join(search_rows(hit_views(hits@)), seq!['\n']),
{
    let ghost all = hit_views(hits@);
    let mut kept: Vec<usize> = Vec::new();
    let mut body: String = String::new();
    let mut i: usize = 0;
    proof {
        assert(all.take(0) =~= Seq::empty());
        assert(search_rows(all.take(0)) =~= Seq::empty());
        assert(distinct(all.take(0)) =~= Seq::new(
            kept@.len(),
            |k: int| all[kept@[k] as int],
        ));
    }
    while i < hits.len()
        invariant
            i <= hits.len(),
            all == hit_views(hits@),
            forall|k: int| 0 <= k < kept.len() ==> #[trigger] kept@[k] < hits.len(),
            distinct(all.take(i as int)) == Seq::new(kept@.len(), |k: int| all[kept@[k] as int]),
            body@ == text::join(search_rows(all.take(i as int)), seq!['\n']),
        decreases hits.len() - i,
    {
        let ghost before = distinct(all.take(i as int));
        let ghost rows_before = search_rows(all.take(i as int));
        let seen: bool = hit_is_kept(hits, &kept, i);
        proof {
            assert(all.take(i as int + 1).drop_last() =~= all.take(i as int));
            assert(all.take(i as int + 1).last() == all[i as int]);
        }
        if !seen {
            let mut row: String = escape_field(hits[i].0.as_str());
            text::push_one(&mut row, '|');
            text::push_decimal(&mut row, hits[i].1 as u64);
            if kept.len() > 0 {
                text::push_one(&mut body, '\n');
            }
            let ghost kept_before = kept@;
            let ghost body_before = body@;
            body.append(row.as_str());
            kept.push(i);
            proof {
                let rows = search_rows(all.take(i as int + 1));
                assert(distinct(all.take(i as int + 1)) == before.push(all[i as int]));
                assert(distinct(all.take(i as int + 1)) =~= Seq::new(
                    kept@.len(),
                    |k: int| all[kept@[k] as int],
                ));
                assert(rows =~= rows_before.push(row@));
                assert(rows.drop_last() =~= rows_before);
                if kept_before.len() == 0 {
                    assert(body_before + row@ =~= row@);
                }
            }
        }
        i = i + 1;
    }
    proof {
        assert(all.take(i as int) =~= all);
    }
    CompactRepresentation { grammar: SEARCH_GRAMMAR.to_owned(), body }
}

/// Whether hit `i` equals one of the kept ones.
fn hit_is_kept(hits: &[(String, u32)], kept: &Vec<usize>, i: usize) -> (r: bool)
    requires
        i < hits.len(),
        forall|k: int| 0 <= k < kept.len() ==> #[trigger] kept@[k] < hits.len(),
    ensures
        r == Seq::new(kept@.len(), |k: int| hit_views(hits@)[kept@[k] as int]).contains(
            hit_views(hits@)[i as int],
        ),
{
    let ghost all = hit_views(hits@);
    let ghost have = Seq::new(kept@.len(), |k: int| all[kept@[k] as int]);
    let mut k: usize = 0;
    while k < kept.len()
        invariant
            k <= kept.len(),
            i < hits.len(),
            all == hit_views(hits@),
            have == Seq::new(kept@.len(), |k: int| all[kept@[k] as int]),
            forall|k: int| 0 <= k < kept.len() ==> #[trigger] kept@[k] < hits.len(),
            forall|j: int| 0 <= j < k ==> have[j] != all[i as int],
        decreases kept.len() - k,
    {
        let at: usize = kept[k];
        if hits[at].1 == hits[i].1 && hits[at].0 == hits[i].0 {
            proof {
                assert(have[k as int] == all[i as int]);
            }
            return true;
        }
        k = k + 1;
    }
    false
}

/// The views of output groups.
pub open spec fn group_views(groups: Seq<(u64, u64, String)>) -> Seq<(u64, u64, Seq<char>)> {
    Seq::new(groups.len(), |i: int| (groups[i].0, groups[i].1, groups[i].2@))
}

/// One row of an output group.
pub open spec fn group_row(g: (u64, u64, Seq<char>)) -> Seq<char> {
    "G|"@ + text::decimal(g.0 as nat) + seq!['|'] + text::decimal(g.1 as nat) + seq!['|'] + escaped(
        g.2,
    )
}

/// One row of an important line.
pub open spec fn important_row(line: Seq<char>) -> Seq<char> {
    "I|-|-|"@ + escaped(line)
}

pub open spec fn log_head(groups: nat, important: nat, exit: Option<i32>) -> Seq<char> {
    "exit="@ + (match exit {
        Some(code) => text::signed_decimal(code as int),
        None => seq!['-'],
    }) + " groups="@ + text::decimal(groups) + " important="@ + text::decimal(important)
}

/// The rows of a `LOGv1` body.
pub open spec fn log_rows(
    groups: Seq<(u64, u64, Seq<char>)>,
    important: Seq<Seq<char>>,
    exit: Option<i32>,
) -> Seq<Seq<char>> {
    seq![log_head(groups.len(), important.len(), exit)] + Seq::new(
        groups.len(),
        |i: int| group_row(groups[i]),
    ) + Seq::new(important.len(), |i: int| important_row(important[i]))
}

/// Renders a process log: a header with the exit code and the counts, one
/// escaped `G|start|end|text` row per output group, then one escaped
/// `I|-|-|text` row per important line.
pub fn render_log(
    groups: &[(u64, u64, String)],
    important: &[String],
    exit: Option<i32>,
) -> (r: CompactRepresentation)
    ensures
        r.grammar@ == LOG_GRAMMAR@,
        r.body@ == text::join(
            log_rows(group_views(groups@), text::strings(important@), exit),
            seq!['\n'],
        ),
{
    let ghost all = log_rows(group_views(groups@), text::strings(important@), exit);
    let mut body: String = "exit=".to_owned();
    match exit {
        Some(code) => text::push_signed(&mut body, code as i64),
        None => text::push_one(&mut body, '-'),
    }
    body.append(" groups=");
    text::push_decimal(&mut body, groups.len() as u64);
    body.append(" important=");
    text::push_decimal(&mut body, important.len() as u64);
    let mut i: usize = 0;
    proof {
        assert(all.take(1) =~= seq![all[0]]);
        assert(body@ == all[0]);
    }
    while i < groups.len()
        invariant
            i <= groups.len(),
            all == log_rows(group_views(groups@), text::strings(important@), exit),
            body@ == text::join(all.take(i as int + 1), seq!['\n']),
        decreases groups.len() - i,
    {
        let mut row: String = "G|".to_owned();
        text::push_decimal(&mut row, groups[i].0);
        text::push_one(&mut row, '|');
        text::push_decimal(&mut row, groups[i].1);
        text::push_one(&mut row, '|');
        push_escaped(&mut row, groups[i].2.as_str());
        proof {
            assert(row@ == group_row(group_views(groups@)[i as int]));
            assert(all[i as int + 1] == row@);
            assert(all.take(i as int + 2).drop_last() =~= all.take(i as int + 1));
        }
        text::push_one(&mut body, '\n');
        body.append(row.as_str());
        i = i + 1;
    }
    let mut k: usize = 0;
    while k < important.len()
        invariant
            k <= important.len(),
            all == log_rows(group_views(groups@), text::strings(important@), exit),
            body@ == text::join(all.take(groups.len() + k + 1), seq!['\n']),
        decreases important.len() - k,
    {
        let mut row: String = "I|-|-|".to_owned();
        push_escaped(&mut row, important[k].as_str());
        proof {
            let n = groups.len() + k + 1;
            assert(row@ == important_row(text::strings(important@)[k as int]));
            assert(all[n] == row@);
            assert(all.take(n + 1).drop_last() =~= all.take(n));
        }
        text::push_one(&mut body, '\n');
        body.append(row.as_str());
        k = k + 1;
    }
    proof {
        assert(all.take(groups.len() + k + 1) =~= all);
    }
    CompactRepresentation { grammar: LOG_GRAMMAR.to_owned(), body }
}

/// A rendered search body names every hit, and no hit twice.
pub proof fn law_search_names_each_hit_once(hits: Seq<(Seq<char>, u32)>)
    ensures
        distinct(hits).no_duplicates(),
        forall|h: (Seq<char>, u32)| #[trigger] distinct(hits).contains(h) <==> hits.contains(h),
    decreases hits.len(),
{
    if hits.len() > 0 {
        let most = hits.drop_last();
        law_search_names_each_hit_once(most);
        let d = distinct(most);
        assert(hits =~= most.push(hits.last()));
        assert forall|h: (Seq<char>, u32)| #[trigger]
            distinct(hits).contains(h) <==> hits.contains(h) by {
            if hits.contains(h) {
                let k = choose|k: int| 0 <= k < hits.len() && hits[k] == h;
                if k < most.len() {
                    assert(most[k] == h);
                    assert(d.contains(h));
                    let j = choose|j: int| 0 <= j < d.len() && d[j] == h;
                    assert(distinct(hits)[j] == h);
                } else if d.contains(h) {
                } else {
                    assert(distinct(hits)[d.len() as int] == h);
                }
            }
            if distinct(hits).contains(h) {
                let k = choose|k: int| 0 <= k < distinct(hits).len() && distinct(hits)[k] == h;
                if k < d.len() {
                    assert(d[k] == h);
                    assert(d.contains(h));
                    let j = choose|j: int| 0 <= j < most.len() && most[j] == h;
                    assert(hits[j] == h);
                } else {
                    assert(hits[hits.len() - 1] == h);
                }
            }
        }
        if !d.contains(hits.last()) {
            assert forall|i: int, j: int|
                0 <= i < distinct(hits).len() && 0 <= j < distinct(hits).len() && i
                    != j implies distinct(hits)[i] != distinct(hits)[j] by {
                if i == d.len() {
                    assert(d.contains(d[j]));
                } else if j == d.len() {
                    assert(d.contains(d[i]));
                }
            }
        }
    }
}

/// How characters are written in a field: a backslash, a pipe, a line feed and a
/// carriage return with a backslash before them, and every other one as it is.
pub proof fn law_how_characters_are_escaped(s: Seq<char>, c: char)
    ensures
        escaped(Seq::empty()) == Seq::<char>::empty(),
        escaped(s.push('\\')) == escaped(s) + seq!['\\', '\\'],
        escaped(s.push('|')) == escaped(s) + seq!['\\', '|'],
        escaped(s.push('\n')) == escaped(s) + seq!['\\', 'n'],
        escaped(s.push('\r')) == escaped(s) + seq!['\\', 'r'],
        c != '\\' && c != '|' && c != '\n' && c != '\r' ==> escaped(s.push(c)) == escaped(s).push(c),
{
    assert(s.push('\\').drop_last() =~= s);
    assert(s.push('|').drop_last() =~= s);
    assert(s.push('\n').drop_last() =~= s);
    assert(s.push('\r').drop_last() =~= s);
    assert(s.push(c).drop_last() =~= s);
    assert(escaped(s) + seq![c] =~= escaped(s).push(c));
}

/// A diagnostic is shown as its path, its line and column, its severity, its code
/// or a dash, and its message, in this order, each diagnostic on a line of its own.
pub proof fn law_a_diagnostic_is_shown_field_by_field(rows: Seq<RowView>, row: RowView)
    ensures
        ({
            let shown = escaped(row.path) + "|"@ + text::decimal(row.line as nat) + ":"@
                + text::decimal(row.column as nat) + "|"@ + escaped(row.severity) + "|"@ + (
            match row.code {
                Some(c) => escaped(c),
                None => "-"@,
            }) + "|"@ + escaped(row.message);
            &&& diag_body(seq![row]) == shown
            &&& rows.len() > 0 ==> diag_body(rows.push(row)) == diag_body(rows) + "\n"@ + shown
            &&& diag_body(Seq::empty()) == Seq::<char>::empty()
        }),
{
    reveal_strlit("|");
    reveal_strlit(":");
    reveal_strlit("-");
    reveal_strlit("\n");
    assert("|"@ =~= seq!['|']);
    assert(":"@ =~= seq![':']);
    assert("-"@ =~= seq!['-']);
    assert("\n"@ =~= seq!['\n']);
    let shown = escaped(row.path) + "|"@ + text::decimal(row.line as nat) + ":"@ + text::decimal(
        row.column as nat,
    ) + "|"@ + escaped(row.severity) + "|"@ + (match row.code {
        Some(c) => escaped(c),
        None => "-"@,
    }) + "|"@ + escaped(row.message);
    assert(row_text(row) =~= shown);
    assert(row_texts(seq![row]) =~= seq![row_text(row)]);
    assert(row_texts(rows.push(row)) =~= row_texts(rows).push(row_text(row)));
    text::law_joining_puts_the_separator_between(row_texts(rows), row_text(row), seq!['\n']);
    assert(row_texts(Seq::empty()) =~= Seq::empty());
}

/// A test run is shown by its figures, and then by one line for each failed test.
pub proof fn law_a_test_run_is_shown_by_its_figures(
    failed: Seq<(Seq<char>, Seq<char>)>,
    total: nat,
    passed: nat,
    skipped: nat,
    duration_ms: nat,
    i: int,
)
    ensures
        ({
            let rows = tests_rows(failed, total, passed, skipped, duration_ms);
            &&& rows.len() == failed.len() + 1
            &&& rows[0] == "total="@ + text::decimal(total) + " passed="@ + text::decimal(passed)
                + " skipped="@ + text::decimal(skipped) + " failed="@ + text::decimal(failed.len())
                + " duration_ms="@ + text::decimal(duration_ms)
            &&& 0 <= i < failed.len() ==> rows[i + 1] == "FAIL|"@ + escaped(failed[i].0) + "|"@
                + escaped(failed[i].1)
        }),
{
    reveal_strlit("|");
    assert("|"@ =~= seq!['|']);
}

/// Search hits are shown by path and line, each once and in the order in which
/// they first came.
pub proof fn law_hits_are_shown_in_order(hits: Seq<(Seq<char>, u32)>, hit: (Seq<char>, u32), i: int)
    ensures
        distinct(Seq::empty()) == Seq::<(Seq<char>, u32)>::empty(),
        hits.contains(hit) ==> distinct(hits.push(hit)) == distinct(hits),
        !hits.contains(hit) ==> distinct(hits.push(hit)) == distinct(hits).push(hit),
        search_rows(hits).len() == distinct(hits).len(),
        0 <= i < distinct(hits).len() ==> search_rows(hits)[i] == escaped(distinct(hits)[i].0)
            + "|"@ + text::decimal(distinct(hits)[i].1 as nat),
{
    reveal_strlit("|");
    assert("|"@ =~= seq!['|']);
    law_search_names_each_hit_once(hits);
    assert(hits.push(hit).drop_last() =~= hits);
}

/// A log is shown by its exit code and its counts, then by its groups, and then by
/// its important lines.
pub proof fn law_a_log_is_shown_by_its_groups(
    groups: Seq<(u64, u64, Seq<char>)>,
    important: Seq<Seq<char>>,
    exit: Option<i32>,
    i: int,
)
    ensures
        ({
            let rows = log_rows(groups, important, exit);
            &&& rows.len() == 1 + groups.len() + important.len()
            &&& rows[0] == "exit="@ + (match exit {
                Some(code) => text::signed_decimal(code as int),
                None => "-"@,
            }) + " groups="@ + text::decimal(groups.len()) + " important="@ + text::decimal(
                important.len(),
            )
            &&& 0 <= i < groups.len() ==> rows[1 + i] == "G|"@ + text::decimal(groups[i].0 as nat)
                + "|"@ + text::decimal(groups[i].1 as nat) + "|"@ + escaped(groups[i].2)
            &&& 0 <= i < important.len() ==> rows[1 + groups.len() + i] == "I|-|-|"@ + escaped(
                important[i],
            )
        }),
{
    reveal_strlit("|");
    reveal_strlit("-");
    assert("|"@ =~= seq!['|']);
    assert("-"@ =~= seq!['-']);
}

/// A row is read only where it has five fields, each properly escaped, of which
/// the second is a line and a column; the first row that is not fails the body.
pub proof fn law_bad_rows_are_not_read(line: Seq<char>, lines: Seq<Seq<char>>, i: int)
    ensures
        fields_of(line).len() != 5 ==> row_of(line) is Err,
        fields_of(line).len() == 5 && 0 <= i < 5 && unescaped(fields_of(line)[i]) is Err ==> row_of(
            line,
        ) is Err,
        row_of(line) is Err ==> rows_of(lines.push(line)) is Err,
        rows_of(lines) is Err ==> rows_of(lines.push(line)) == rows_of(lines),
        rows_of(lines) matches Ok(rows) ==> (row_of(line) matches Ok(row) ==> rows_of(
            lines.push(line),
        ) == Ok::<Seq<RowView>, Seq<char>>(rows.push(row))),
{
    assert(lines.push(line).drop_last() =~= lines);
}

/// A location is two numbers of 32 bits with a colon between them.
pub proof fn law_a_location_is_a_line_and_a_column(line: nat, column: nat, s: Seq<char>)
    ensures
        line <= u32::MAX && column <= u32::MAX ==> location_of(
            text::decimal(line) + seq![':'] + text::decimal(column),
        ) == Ok::<(u32, u32), Seq<char>>((line as u32, column as u32)),
        line > u32::MAX || column > u32::MAX ==> location_of(
            text::decimal(line) + seq![':'] + text::decimal(column),
        ) is Err,
        !s.contains(':') ==> location_of(s) is Err,
{
    let a = text::decimal(line);
    let b = text::decimal(column);
    text::lemma_decimal_value(line);
    text::lemma_decimal_value(column);
    let w = a + seq![':'] + b;
    assert forall|j: int| 0 <= j < a.len() implies w[j] != ':' by {
        assert(w[j] == a[j]);
        assert(text::is_dec_digit(a[j]));
    }
    assert(w[a.len() as int] == ':');
    text::lemma_first_index(w, ':', a.len() as int);
    assert(w.take(a.len() as int) =~= a);
    assert(w.skip(a.len() as int + 1) =~= b);
    if b.contains(':') {
        let k = choose|k: int| 0 <= k < b.len() && b[k] == ':';
        assert(text::is_dec_digit(b[k]));
    }
    text::lemma_first_index_props(s, ':');
}

} // verus!

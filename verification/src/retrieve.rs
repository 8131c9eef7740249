//! Typed, bounded evidence retrieval.
//!
//! Every read is explicit: a selector is mandatory, it is validated before any
//! bytes are produced, and there is never a fallback to the whole backing.
//! Retrieval reads retained backing bytes only: where the store dropped them it
//! is [`EvidenceError::Refused`], never the compact body instead.
use vstd::prelude::*;
use vstd::slice::slice_subrange;

use crate::store;
use crate::store::{EvidenceAccessContext, EvidenceStore, StoredEvidence};
use crate::text;
use crate::types;
use crate::types::{EvidenceError, EvidenceId, RetrievalPolicy};

verus! {

/// Cap on search hits per request, whatever `max_hits` says.
pub const MAX_SEARCH_HITS: u32 = 256;

/// Cap on the ids of one `Items` request.
pub const MAX_ITEMS: usize = 256;

/// Cap on the length of a search query in bytes.
pub const MAX_QUERY_BYTES: usize = 4096;

/// How much of one evidence envelope to read.
#[derive(Debug, Clone, PartialEq, Eq)]
pub enum RetrievalSelector {
    /// The whole retained backing. Refused unless the envelope allows ranges.
    All,
    /// Half-open byte range `[start, end)` into the backing.
    ByteRange { start: u64, end: u64 },
    /// Inclusive line range `start..=end`, counted from one; the slices include
    /// their terminating line feed.
    LineRange { start: u64, end: u64 },
    /// Case-sensitive substring search: only matching lines.
    Search { query: String, max_hits: u32 },
    /// Explicitly enumerated evidence ids, concatenated in request order.
    Items { ids: Vec<EvidenceId> },
}

/// The result of one retrieval. `truncated_by_policy` is set only where the
/// byte cap or the hit cap dropped further matches.
#[derive(Debug, Clone, PartialEq, Eq)]
pub struct RetrievedEvidence {
    pub id: EvidenceId,
    pub selector_echo: String,
    pub bytes: Vec<u8>,
    pub truncated_by_policy: bool,
}

/// What was retrieved.
#[verifier::ext_equal]
pub struct RetrievedView {
    pub id: u64,
    pub echo: Seq<char>,
    pub bytes: Seq<u8>,
    pub truncated: bool,
}

impl View for RetrievedEvidence {
    type V = RetrievedView;

    open spec fn view(&self) -> RetrievedView {
        RetrievedView {
            id: self.id.0,
            echo: self.selector_echo@,
            bytes: self.bytes@,
            truncated: self.truncated_by_policy,
        }
    }
}

impl RetrievedEvidence {
    /// Byte length of the retrieved payload.
    pub fn len(&self) -> (r: usize)
        ensures
            r == self@.bytes.len(),
    {
        self.bytes.len()
    }

    pub fn is_empty(&self) -> (r: bool)
        ensures
            r == (self@.bytes.len() == 0),
    {
        self.bytes.len() == 0
    }
}

/// The outcome of a retrieval.
pub type Outcome = Result<RetrievedView, types::ErrorView>;

/// The view of a retrieval result.
pub open spec fn outcome(r: Result<RetrievedEvidence, EvidenceError>) -> Outcome {
    match r {
        Ok(v) => Ok(v@),
        Err(e) => Err(e@),
    }
}

/// What reading dropped backing is answered.
pub open spec fn dropped_text(id: u64) -> Seq<char> {
    "backing bytes for evidence "@ + text::decimal(id as nat) + " are not retained by the store"@
}

/// The retained bytes of stored evidence.
pub open spec fn backing_bytes(id: u64, stored: store::StoredView) -> Result<
    Seq<u8>,
    types::ErrorView,
> {
    match stored.backing {
        Some(b) => Ok(b),
        None => Err(types::ErrorView::Refused(dropped_text(id))),
    }
}

fn backing_of(id: EvidenceId, stored: &StoredEvidence) -> (r: Result<&Vec<u8>, EvidenceError>)
    ensures
        match backing_bytes(id.0, stored@) {
            Ok(b) => r matches Ok(v) && v@ == b,
            Err(e) => r matches Err(x) && x@ == e,
        },
{
    match &stored.backing {
        Some(b) => Ok(b),
        None => {
            let mut m: String = "backing bytes for evidence ".to_owned();
            text::push_decimal(&mut m, id.0);
            m.append(" are not retained by the store");
            Err(EvidenceError::Refused(m))
        },
    }
}

/// What a ranged read of `n` bytes is answered where the policy refuses it.
pub open spec fn range_error(policy: RetrievalPolicy, n: nat) -> types::ErrorView {
    if !policy.allow_ranges {
        types::ErrorView::AccessDenied("ranged retrieval is not permitted for this envelope"@)
    } else {
        types::ErrorView::Oversized { max: policy.max_bytes, actual: n as usize }
    }
}

// --------------------------------------------------------------------- all

/// Reading the whole backing.
pub open spec fn all_of(id: u64, stored: store::StoredView) -> Outcome {
    let policy = stored.envelope.retrieval;
    if !policy.allow_ranges {
        Err(
            types::ErrorView::Refused(
                "evidence "@ + text::decimal(id as nat)
                    + ": `All` requires retrieval.allow_ranges; refusing whole-blob auto-dump"@,
            ),
        )
    } else {
        match backing_bytes(id, stored) {
            Err(e) => Err(e),
            Ok(b) => if !policy.admits_range(b.len()) {
                Err(range_error(policy, b.len()))
            } else {
                Ok(RetrievedView { id, echo: "all"@, bytes: b, truncated: false })
            },
        }
    }
}

fn retrieve_all(id: EvidenceId, stored: &StoredEvidence) -> (r: Result<
    RetrievedEvidence,
    EvidenceError,
>)
    ensures
        outcome(r) == all_of(id.0, stored@),
{
    if !stored.envelope.retrieval.allow_ranges {
        let mut m: String = "evidence ".to_owned();
        text::push_decimal(&mut m, id.0);
        m.append(": `All` requires retrieval.allow_ranges; refusing whole-blob auto-dump");
        return Err(EvidenceError::Refused(m));
    }
    let backing: &Vec<u8> = match backing_of(id, stored) {
        Ok(b) => b,
        Err(e) => {
            return Err(e);
        },
    };
    if let Err(e) = stored.envelope.retrieval.check_range(backing.len()) {
        return Err(e);
    }
    Ok(
        RetrievedEvidence {
            id,
            selector_echo: "all".to_owned(),
            bytes: store::copy_bytes(backing.as_slice()),
            truncated_by_policy: false,
        },
    )
}

// ------------------------------------------------------------- byte ranges

/// `s..e`.
pub open spec fn range_text(start: u64, end: u64) -> Seq<char> {
    text::decimal(start as nat) + ".."@ + text::decimal(end as nat)
}

/// A number as far as a `usize` goes.
pub open spec fn clamped(n: u64) -> usize {
    if n <= usize::MAX {
        n as usize
    } else {
        usize::MAX
    }
}

/// Reading a byte range.
pub open spec fn byte_range_of(id: u64, stored: store::StoredView, start: u64, end: u64) -> Outcome {
    let policy = stored.envelope.retrieval;
    if start > end {
        Err(
            types::ErrorView::Malformed(
                "byte range "@ + range_text(start, end) + " has start > end"@,
            ),
        )
    } else {
        match backing_bytes(id, stored) {
            Err(e) => Err(e),
            Ok(b) => if end > b.len() {
                Err(types::ErrorView::Oversized { max: b.len() as usize, actual: clamped(end) })
            } else if !policy.admits_range((end - start) as nat) {
                Err(range_error(policy, (end - start) as nat))
            } else {
                Ok(
                    RetrievedView {
                        id,
                        echo: "bytes:"@ + range_text(start, end),
                        bytes: b.subrange(start as int, end as int),
                        truncated: false,
                    },
                )
            },
        }
    }
}

fn range_string(start: u64, end: u64) -> (r: String)
    ensures
        r@ == range_text(start, end),
{
    let mut out: String = String::new();
    text::push_decimal(&mut out, start);
    out.append("..");
    text::push_decimal(&mut out, end);
    proof {
        assert(out@ =~= range_text(start, end));
    }
    out
}

fn clamp(n: u64) -> (r: usize)
    ensures
        r == clamped(n),
{
    if n <= usize::MAX as u64 {
        n as usize
    } else {
        usize::MAX
    }
}

fn retrieve_byte_range(id: EvidenceId, stored: &StoredEvidence, start: u64, end: u64) -> (r: Result<
    RetrievedEvidence,
    EvidenceError,
>)
    ensures
        outcome(r) == byte_range_of(id.0, stored@, start, end),
{
    let range: String = range_string(start, end);
    if start > end {
        let mut m: String = "byte range ".to_owned();
        m.append(range.as_str());
        m.append(" has start > end");
        return Err(EvidenceError::Malformed(m));
    }
    let backing: &Vec<u8> = match backing_of(id, stored) {
        Ok(b) => b,
        Err(e) => {
            return Err(e);
        },
    };
    if end > backing.len() as u64 {
        return Err(EvidenceError::Oversized { max: backing.len(), actual: clamp(end) });
    }
    let len: usize = (end - start) as usize;
    if let Err(e) = stored.envelope.retrieval.check_range(len) {
        return Err(e);
    }
    let mut echo: String = "bytes:".to_owned();
    echo.append(range.as_str());
    Ok(
        RetrievedEvidence {
            id,
            selector_echo: echo,
            bytes: store::copy_bytes(
                slice_subrange(backing.as_slice(), start as usize, end as usize),
            ),
            truncated_by_policy: false,
        },
    )
}

// ------------------------------------------------------------------- lines

/// How many leading bytes of `s` form its first line, line feed included.
pub open spec fn line_len(s: Seq<u8>) -> nat
    decreases s.len(),
{
    if s.len() == 0 {
        0
    } else if s[0] == 10 {
        1
    } else {
        1 + line_len(s.drop_first())
    }
}

pub proof fn lemma_line_len(s: Seq<u8>)
    ensures
        line_len(s) <= s.len(),
        s.len() > 0 ==> line_len(s) > 0,
    decreases s.len(),
{
    if s.len() > 0 {
        lemma_line_len(s.drop_first());
    }
}

/// The lines of bytes, each with its line feed. A trailing line feed makes no
/// extra line; no bytes are no lines.
pub open spec fn byte_lines(s: Seq<u8>) -> Seq<Seq<u8>>
    decreases s.len(),
{
    proof {
        lemma_line_len(s);
    }
    if s.len() == 0 {
        Seq::empty()
    } else {
        seq![s.take(line_len(s) as int)] + byte_lines(s.skip(line_len(s) as int))
    }
}

/// The views of byte slices.
pub open spec fn slices(parts: Seq<&[u8]>) -> Seq<Seq<u8>> {
    Seq::new(parts.len(), |i: int| parts[i]@)
}

/// The parts one after the other.
pub open spec fn concat(parts: Seq<Seq<u8>>) -> Seq<u8>
    decreases parts.len(),
{
    if parts.len() == 0 {
        Seq::empty()
    } else {
        concat(parts.drop_last()) + parts.last()
    }
}

fn line_slices(backing: &[u8]) -> (r: Vec<&[u8]>)
    ensures
        slices(r@) == byte_lines(backing@),
{
    let mut out: Vec<&[u8]> = Vec::new();
    let mut rest: &[u8] = backing;
    proof {
        assert(slices(out@) + byte_lines(rest@) =~= byte_lines(backing@));
    }
    while rest.len() > 0
        invariant
            slices(out@) + byte_lines(rest@) == byte_lines(backing@),
        decreases rest@.len(),
    {
        let ghost before = out@;
        let ghost old_rest = rest@;
        let mut n: usize = 0;
        proof {
            assert(rest@.skip(0) =~= rest@);
            lemma_line_len(rest@);
        }
        while n < rest.len() && rest[n] != 10
            invariant
                n <= rest.len(),
                line_len(rest@) == n + line_len(rest@.skip(n as int)),
            decreases rest.len() - n,
        {
            proof {
                assert(rest@.skip(n as int).drop_first() =~= rest@.skip(n as int + 1));
            }
            n = n + 1;
        }
        if n < rest.len() {
            n = n + 1;
        }
        let line: &[u8] = slice_subrange(rest, 0, n);
        out.push(line);
        rest = slice_subrange(rest, n, rest.len());
        proof {
            assert(n == line_len(old_rest));
            assert(line@ =~= old_rest.take(n as int));
            assert(rest@ =~= old_rest.skip(n as int));
            assert(slices(out@) =~= slices(before).push(line@));
            assert(slices(before) + byte_lines(old_rest) =~= slices(out@) + byte_lines(rest@));
        }
    }
    proof {
        assert(slices(out@) + Seq::empty() =~= slices(out@));
    }
    out
}

/// The lines of bytes are a partition of them.
pub proof fn law_lines_partition_the_backing(s: Seq<u8>)
    ensures
        concat(byte_lines(s)) == s,
        forall|i: int| 0 <= i < byte_lines(s).len() ==> (#[trigger] byte_lines(s)[i]).len() > 0,
    decreases s.len(),
{
    if s.len() > 0 {
        lemma_line_len(s);
        let n = line_len(s) as int;
        let rest = byte_lines(s.skip(n));
        law_lines_partition_the_backing(s.skip(n));
        lemma_concat_first(s.take(n), rest);
        assert(s.take(n) + s.skip(n) =~= s);
        assert forall|i: int| 0 <= i < byte_lines(s).len() implies (#[trigger] byte_lines(
            s,
        )[i]).len() > 0 by {
            if i > 0 {
                assert(byte_lines(s)[i] == rest[i - 1]);
            }
        }
    }
}

proof fn lemma_concat_first(a: Seq<u8>, rest: Seq<Seq<u8>>)
    ensures
        concat(seq![a] + rest) == a + concat(rest),
    decreases rest.len(),
{
    let all = seq![a] + rest;
    if rest.len() == 0 {
        assert(all.drop_last() =~= Seq::empty());
        assert(concat(all.drop_last()) =~= Seq::<u8>::empty());
        assert(Seq::<u8>::empty() + a =~= a + concat(rest));
    } else {
        assert(all.drop_last() =~= seq![a] + rest.drop_last());
        lemma_concat_first(a, rest.drop_last());
        assert(a + (concat(rest.drop_last()) + rest.last()) =~= a + concat(rest.drop_last())
            + rest.last());
    }
}

/// `s..=e`.
pub open spec fn closed_range_text(start: u64, end: u64) -> Seq<char> {
    text::decimal(start as nat) + "..="@ + text::decimal(end as nat)
}

/// Reading a line range.
pub open spec fn line_range_of(id: u64, stored: store::StoredView, start: u64, end: u64) -> Outcome {
    let policy = stored.envelope.retrieval;
    if start == 0 || end == 0 {
        Err(types::ErrorView::Malformed("line ranges are 1-based; line 0 does not exist"@))
    } else if start > end {
        Err(
            types::ErrorView::Malformed(
                "line range "@ + closed_range_text(start, end) + " has start > end"@,
            ),
        )
    } else {
        match backing_bytes(id, stored) {
            Err(e) => Err(e),
            Ok(b) => {
                let lines = byte_lines(b);
                let selected = concat(lines.subrange(start - 1, end as int));
                if end > lines.len() {
                    Err(
                        types::ErrorView::Oversized {
                            max: lines.len() as usize,
                            actual: clamped(end),
                        },
                    )
                } else if !policy.admits_range(selected.len()) {
                    Err(range_error(policy, selected.len()))
                } else {
                    Ok(
                        RetrievedView {
                            id,
                            echo: "lines:"@ + closed_range_text(start, end),
                            bytes: selected,
                            truncated: false,
                        },
                    )
                }
            },
        }
    }
}

/// Reads whole lines, counted from 1, of what is stored under `id`.
pub fn retrieve_line_range(id: EvidenceId, stored: &StoredEvidence, start: u64, end: u64) -> (r: Result<
    RetrievedEvidence,
    EvidenceError,
>)
    ensures
        outcome(r) == line_range_of(id.0, stored@, start, end),
{
    if start == 0 || end == 0 {
        return Err(
            EvidenceError::Malformed("line ranges are 1-based; line 0 does not exist".to_owned()),
        );
    }
    let mut range: String = String::new();
    text::push_decimal(&mut range, start);
    range.append("..=");
    text::push_decimal(&mut range, end);
    proof {
        assert(range@ =~= closed_range_text(start, end));
    }
    if start > end {
        let mut m: String = "line range ".to_owned();
        m.append(range.as_str());
        m.append(" has start > end");
        return Err(EvidenceError::Malformed(m));
    }
    let backing: &Vec<u8> = match backing_of(id, stored) {
        Ok(b) => b,
        Err(e) => {
            return Err(e);
        },
    };
    let lines: Vec<&[u8]> = line_slices(backing.as_slice());
    let ghost all = byte_lines(backing@);
    proof {
        assert(all.len() == lines@.len());
    }
    if end > lines.len() as u64 {
        return Err(EvidenceError::Oversized { max: lines.len(), actual: clamp(end) });
    }
    let first: usize = (start - 1) as usize;
    let last: usize = end as usize;
    let ghost chosen = all.subrange(first as int, last as int);
    let mut bytes: Vec<u8> = Vec::new();
    let mut i: usize = first;
    proof {
        assert(chosen.take(0) =~= Seq::empty());
    }
    while i < last
        invariant
            first <= i <= last,
            last <= lines.len(),
            all == slices(lines@),
            chosen == all.subrange(first as int, last as int),
            bytes@ == concat(chosen.take(i - first)),
        decreases last - i,
    {
        proof {
            let k = i - first;
            assert(chosen.take(k + 1).drop_last() =~= chosen.take(k));
            assert(chosen[k] == lines@[i as int]@);
        }
        store::append_bytes(&mut bytes, lines[i]);
        i = i + 1;
    }
    proof {
        assert(chosen.take(last - first) =~= chosen);
    }
    if let Err(e) = stored.envelope.retrieval.check_range(bytes.len()) {
        return Err(e);
    }
    let mut echo: String = "lines:".to_owned();
    echo.append(range.as_str());
    Ok(RetrievedEvidence { id, selector_echo: echo, bytes, truncated_by_policy: false })
}

// ------------------------------------------------------------------ search

/// `needle` stands in `line` at position `i`.
pub open spec fn bytes_at(line: Seq<u8>, i: int, needle: Seq<u8>) -> bool {
    0 <= i && i + needle.len() <= line.len() && line.subrange(i, i + needle.len()) == needle
}

/// `needle` stands somewhere in `line`.
pub open spec fn has_bytes(line: Seq<u8>, needle: Seq<u8>) -> bool {
    exists|i: int| #[trigger] bytes_at(line, i, needle)
}

/// A line without its line feed.
pub open spec fn chomped(line: Seq<u8>) -> Seq<u8> {
    if line.len() > 0 && line.last() == 10 {
        line.drop_last()
    } else {
        line
    }
}

/// The lines that hold `needle`, without their line feeds.
pub open spec fn hits_in(lines: Seq<Seq<u8>>, needle: Seq<u8>) -> Seq<Seq<u8>>
    decreases lines.len(),
{
    if lines.len() == 0 {
        Seq::empty()
    } else if has_bytes(lines.last(), needle) {
        hits_in(lines.drop_last(), needle).push(chomped(lines.last()))
    } else {
        hits_in(lines.drop_last(), needle)
    }
}

/// Hits with a line feed between each two.
pub open spec fn joined(hits: Seq<Seq<u8>>) -> Seq<u8>
    decreases hits.len(),
{
    if hits.len() == 0 {
        Seq::empty()
    } else if hits.len() == 1 {
        hits[0]
    } else {
        joined(hits.drop_last()) + seq![10u8] + hits.last()
    }
}

/// How many leading hits are returned, once `k` are: as long as the hit cap and
/// the byte cap allow.
pub open spec fn taken(hits: Seq<Seq<u8>>, k: nat, cap: nat, max_bytes: nat) -> nat
    decreases hits.len() - k,
{
    if k < hits.len() && k < cap && joined(hits.take(k as int + 1)).len() <= max_bytes {
        taken(hits, k + 1, cap, max_bytes)
    } else {
        k
    }
}

/// The effective hit cap.
pub open spec fn hit_cap(max_hits: u32) -> nat {
    if max_hits < MAX_SEARCH_HITS {
        max_hits as nat
    } else {
        MAX_SEARCH_HITS as nat
    }
}

/// Reading by search.
pub open spec fn search_of(
    id: u64,
    stored: store::StoredView,
    query: Seq<char>,
    max_hits: u32,
) -> Outcome {
    let policy = stored.envelope.retrieval;
    if query.len() == 0 {
        Err(types::ErrorView::Malformed("search query must not be empty"@))
    } else if text::byte_len(query) > MAX_QUERY_BYTES {
        Err(
            types::ErrorView::Oversized {
                max: MAX_QUERY_BYTES,
                actual: text::byte_len(query) as usize,
            },
        )
    } else if max_hits == 0 {
        Err(types::ErrorView::Malformed("search max_hits must be at least 1"@))
    } else if !policy.allow_search {
        Err(
            types::ErrorView::AccessDenied(
                "search retrieval is not permitted for this envelope"@,
            ),
        )
    } else {
        match backing_bytes(id, stored) {
            Err(e) => Err(e),
            Ok(b) => {
                let hits = hits_in(byte_lines(b), vstd::utf8::encode_utf8(query));
                let n = taken(hits, 0, hit_cap(max_hits), policy.max_bytes as nat);
                Ok(
                    RetrievedView {
                        id,
                        echo: "search:"@ + text::debug_of(query) + ";max_hits="@ + text::decimal(
                            max_hits as nat,
                        ),
                        bytes: joined(hits.take(n as int)),
                        truncated: n < hits.len(),
                    },
                )
            },
        }
    }
}

fn line_contains(line: &[u8], needle: &[u8]) -> (r: bool)
    ensures
        r == has_bytes(line@, needle@),
{
    let mut i: usize = 0;
    loop
        invariant
            i <= line.len(),
            forall|j: int| 0 <= j < i ==> !bytes_at(line@, j, needle@),
        decreases line.len() - i,
    {
        if needle.len() > line.len() - i {
            proof {
                assert forall|j: int| !bytes_at(line@, j, needle@) by {}
            }
            return false;
        }
        let mut k: usize = 0;
        while k < needle.len() && line[i + k] == needle[k]
            invariant
                k <= needle.len(),
                i + needle.len() <= line.len(),
                forall|j: int| 0 <= j < k ==> line@[i + j] == needle@[j],
            decreases needle.len() - k,
        {
            k = k + 1;
        }
        if k == needle.len() {
            proof {
                assert(line@.subrange(i as int, i + needle@.len()) =~= needle@);
                assert(bytes_at(line@, i as int, needle@));
            }
            return true;
        }
        proof {
            if bytes_at(line@, i as int, needle@) {
                assert(line@.subrange(i as int, i + needle@.len())[k as int] == needle@[k as int]);
            }
        }
        if i == line.len() {
            proof {
                assert forall|j: int| !bytes_at(line@, j, needle@) by {}
            }
            return false;
        }
        i = i + 1;
    }
}

fn strip_trailing_newline(line: &[u8]) -> (r: &[u8])
    ensures
        r@ == chomped(line@),
{
    if line.len() > 0 && line[line.len() - 1] == 10 {
        let r: &[u8] = slice_subrange(line, 0, line.len() - 1);
        proof {
            assert(r@ =~= line@.drop_last());
        }
        r
    } else {
        line
    }
}

proof fn lemma_hits_prefix(lines: Seq<Seq<u8>>, needle: Seq<u8>, n: int)
    requires
        0 <= n <= lines.len(),
    ensures
        hits_in(lines.take(n), needle).is_prefix_of(hits_in(lines, needle)),
    decreases lines.len() - n,
{
    if n == lines.len() {
        assert(lines.take(n) =~= lines);
    } else {
        lemma_hits_prefix(lines, needle, n + 1);
        assert(lines.take(n + 1).drop_last() =~= lines.take(n));
        let a = hits_in(lines.take(n), needle);
        let b = hits_in(lines.take(n + 1), needle);
        let c = hits_in(lines, needle);
        assert(a.is_prefix_of(b));
        assert(a =~= c.take(a.len() as int));
    }
}

/// One more hit is joined after the hits before it.
proof fn lemma_joined_step(hits: Seq<Seq<u8>>, k: nat)
    requires
        k < hits.len(),
    ensures
        joined(hits.take(k as int + 1)) == (if k == 0 {
            hits[0]
        } else {
            joined(hits.take(k as int)) + seq![10u8] + hits[k as int]
        }),
{
    let t = hits.take(k as int + 1);
    assert(t.drop_last() =~= hits.take(k as int));
    assert(t.last() == hits[k as int]);
}

#[verifier::rlimit(30)]
fn retrieve_search(id: EvidenceId, stored: &StoredEvidence, query: &str, max_hits: u32) -> (r:
    Result<RetrievedEvidence, EvidenceError>)
    ensures
        outcome(r) == search_of(id.0, stored@, query@, max_hits),
{
    if query.is_empty() {
        return Err(EvidenceError::Malformed("search query must not be empty".to_owned()));
    }
    let n: usize = text::str_len(query);
    if n > MAX_QUERY_BYTES {
        return Err(EvidenceError::Oversized { max: MAX_QUERY_BYTES, actual: n });
    }
    if max_hits == 0 {
        return Err(EvidenceError::Malformed("search max_hits must be at least 1".to_owned()));
    }
    if let Err(e) = stored.envelope.retrieval.check_search() {
        return Err(e);
    }
    let backing: &Vec<u8> = match backing_of(id, stored) {
        Ok(b) => b,
        Err(e) => {
            return Err(e);
        },
    };
    let max_bytes: usize = stored.envelope.retrieval.max_bytes;
    let cap: usize = if max_hits < MAX_SEARCH_HITS {
        max_hits as usize
    } else {
        MAX_SEARCH_HITS as usize
    };
    let needle: &[u8] = query.as_bytes();
    let lines: Vec<&[u8]> = line_slices(backing.as_slice());
    let ghost all = byte_lines(backing@);
    let ghost hits = hits_in(all, needle@);
    let mut bytes: Vec<u8> = Vec::new();
    let mut count: usize = 0;
    let mut truncated: bool = false;
    let mut i: usize = 0;
    proof {
        assert(all.take(0) =~= Seq::empty());
        assert(hits.take(0) =~= Seq::empty());
        assert(all.len() == lines@.len());
    }
    while i < lines.len() && !truncated
        invariant
            i <= lines.len(),
            cap <= MAX_SEARCH_HITS,
            count <= cap,
            all == slices(lines@),
            hits == hits_in(all, needle@),
            count <= hits.len(),
            bytes@ == joined(hits.take(count as int)),
            bytes.len() <= max_bytes,
            !truncated ==> count == hits_in(all.take(i as int), needle@).len(),
            taken(hits, 0, cap as nat, max_bytes as nat) == taken(
                hits,
                count as nat,
                cap as nat,
                max_bytes as nat,
            ),
            truncated ==> count < hits.len() && taken(
                hits,
                count as nat,
                cap as nat,
                max_bytes as nat,
            ) == count,
        decreases lines.len() - i,
    {
        let line: &[u8] = lines[i];
        proof {
            assert(all[i as int] == line@);
            assert(all.take(i as int + 1).drop_last() =~= all.take(i as int));
            lemma_hits_prefix(all, needle@, i as int + 1);
        }
        if line_contains(line, needle) {
            proof {
                let now = hits_in(all.take(i as int + 1), needle@);
                assert(now.len() == count + 1);
                assert(now[count as int] == chomped(line@));
                assert(hits[count as int] == now[count as int]);
                lemma_joined_step(hits, count as nat);
            }
            if count >= cap {
                truncated = true;
            } else {
                let hit: &[u8] = strip_trailing_newline(line);
                let left: usize = max_bytes - bytes.len();
                let separator: usize = if count > 0 {
                    1
                } else {
                    0
                };
                if left < separator || hit.len() > left - separator {
                    truncated = true;
                } else {
                    let ghost before = bytes@;
                    if count > 0 {
                        bytes.push(10);
                    }
                    store::append_bytes(&mut bytes, hit);
                    proof {
                        if count == 0 {
                            assert(bytes@ =~= hit@);
                        } else {
                            assert(bytes@ =~= before + seq![10u8] + hit@);
                        }
                    }
                    count = count + 1;
                }
            }
        }
        i = i + 1;
    }
    proof {
        if !truncated {
            assert(all.take(i as int) =~= all);
        }
    }
    let mut echo: String = "search:".to_owned();
    echo.append(text::debug_str(query).as_str());
    echo.append(";max_hits=");
    text::push_decimal(&mut echo, max_hits as u64);
    Ok(RetrievedEvidence { id, selector_echo: echo, bytes, truncated_by_policy: truncated })
}

// ------------------------------------------------------------------- items

/// The ids in decimal.
pub open spec fn id_texts(ids: Seq<EvidenceId>) -> Seq<Seq<char>> {
    Seq::new(ids.len(), |i: int| text::decimal(ids[i].0 as nat))
}

/// The bytes of the enumerated items, in request order. Each item is
/// scope-checked; the first one that is refused, dropped or too much decides
/// the answer.
pub open spec fn items_bytes<S: EvidenceStore + ?Sized>(
    s: &S,
    ctx: EvidenceAccessContext,
    ids: Seq<EvidenceId>,
    budget: usize,
) -> Result<Seq<u8>, types::ErrorView>
    decreases ids.len(),
{
    if ids.len() == 0 {
        Ok(Seq::empty())
    } else {
        match items_bytes(s, ctx, ids.drop_last(), budget) {
            Err(e) => Err(e),
            Ok(have) => match store::scoped_read(s.lookup(ids.last().0), ids.last().0, ctx) {
                Err(e) => Err(e),
                Ok(stored) => match backing_bytes(ids.last().0, stored) {
                    Err(e) => Err(e),
                    Ok(b) => if have.len() + b.len() > usize::MAX {
                        Err(types::ErrorView::Oversized { max: budget, actual: usize::MAX })
                    } else if have.len() + b.len() > budget {
                        Err(
                            types::ErrorView::Oversized {
                                max: budget,
                                actual: (have.len() + b.len()) as usize,
                            },
                        )
                    } else {
                        Ok(have + b)
                    },
                },
            },
        }
    }
}

/// `got` answers what should be `want`: it is the same, or reading one of `ids`
/// failed and the store does not tell that from an id that it does not hold.
pub open spec fn answers<S: EvidenceStore + ?Sized>(
    s: &S,
    ids: Seq<EvidenceId>,
    want: Outcome,
    got: Outcome,
) -> bool {
    ||| got == want
    ||| exists|n: int|
        0 <= n < ids.len() && (#[trigger] s.lookup(ids[n].0)) is Err && want == Err::<
            RetrievedView,
            types::ErrorView,
        >(s.lookup(ids[n].0)->Err_0) && got == Err::<RetrievedView, types::ErrorView>(
            types::ErrorView::Malformed(store::unknown_text(ids[n].0)),
        )
}

/// Reading enumerated items under the budget of the governing envelope.
pub open spec fn items_of<S: EvidenceStore + ?Sized>(
    s: &S,
    ctx: EvidenceAccessContext,
    id: u64,
    governing: store::StoredView,
    ids: Seq<EvidenceId>,
) -> Outcome {
    if ids.len() == 0 {
        Err(types::ErrorView::Malformed("Items selector requires at least one evidence id"@))
    } else if ids.len() > MAX_ITEMS {
        Err(types::ErrorView::Oversized { max: MAX_ITEMS, actual: ids.len() as usize })
    } else {
        match items_bytes(s, ctx, ids, governing.envelope.retrieval.max_bytes) {
            Err(e) => Err(e),
            Ok(bytes) => Ok(
                RetrievedView {
                    id,
                    echo: "items:["@ + text::join(id_texts(ids), seq![',']) + "]"@,
                    bytes,
                    truncated: false,
                },
            ),
        }
    }
}

fn join_ids(ids: &Vec<EvidenceId>) -> (r: String)
    ensures
        r@ == text::join(id_texts(ids@), seq![',']),
{
    let ghost all = id_texts(ids@);
    let mut out: String = String::new();
    let mut i: usize = 0;
    while i < ids.len()
        invariant
            i <= ids.len(),
            all == id_texts(ids@),
            out@ == text::join(all.take(i as int), seq![',']),
        decreases ids.len() - i,
    {
        let ghost before = out@;
        if i > 0 {
            text::push_one(&mut out, ',');
        }
        text::push_decimal(&mut out, ids[i].0);
        proof {
            let now = all.take(i as int + 1);
            assert(now.drop_last() =~= all.take(i as int));
            if i == 0 {
                assert(before + all[0] =~= all[0]);
            }
        }
        i = i + 1;
    }
    proof {
        assert(all.take(i as int) =~= all);
    }
    out
}

proof fn lemma_items_fail<S: EvidenceStore + ?Sized>(
    s: &S,
    ctx: EvidenceAccessContext,
    ids: Seq<EvidenceId>,
    budget: usize,
    n: int,
)
    requires
        0 <= n < ids.len(),
        items_bytes(s, ctx, ids.take(n + 1), budget) is Err,
    ensures
        items_bytes(s, ctx, ids, budget) == items_bytes(s, ctx, ids.take(n + 1), budget),
    decreases ids.len() - n,
{
    if n + 1 == ids.len() {
        assert(ids.take(n + 1) =~= ids);
    } else {
        assert(ids.take(n + 2).drop_last() =~= ids.take(n + 1));
        lemma_items_fail(s, ctx, ids, budget, n + 1);
    }
}

fn retrieve_items<S: EvidenceStore + ?Sized>(
    source: &S,
    ctx: &EvidenceAccessContext,
    id: EvidenceId,
    governing: &StoredEvidence,
    ids: Vec<EvidenceId>,
) -> (r: Result<RetrievedEvidence, EvidenceError>)
    requires
        source.valid(),
    ensures
        answers(source, ids@, items_of(source, *ctx, id.0, governing@, ids@), outcome(r)),
{
    if ids.len() == 0 {
        return Err(
            EvidenceError::Malformed(
                "Items selector requires at least one evidence id".to_owned(),
            ),
        );
    }
    if ids.len() > MAX_ITEMS {
        return Err(EvidenceError::Oversized { max: MAX_ITEMS, actual: ids.len() });
    }
    let budget: usize = governing.envelope.retrieval.max_bytes;
    let mut bytes: Vec<u8> = Vec::new();
    let mut i: usize = 0;
    proof {
        assert(ids@.take(0) =~= Seq::empty());
    }
    while i < ids.len()
        invariant
            i <= ids.len(),
            source.valid(),
            1 <= ids.len() <= MAX_ITEMS,
            budget == governing.envelope.retrieval.max_bytes,
            items_bytes(source, *ctx, ids@.take(i as int), budget) == Ok::<
                Seq<u8>,
                types::ErrorView,
            >(bytes@),
        decreases ids.len() - i,
    {
        let item_id: EvidenceId = ids[i];
        proof {
            assert(ids@.take(i as int + 1).drop_last() =~= ids@.take(i as int));
            assert(ids@.take(i as int + 1).last() == item_id);
        }
        let stored: StoredEvidence = match source.get_scoped(item_id, ctx) {
            Ok(s) => s,
            Err(e) => {
                proof {
                    lemma_items_fail(source, *ctx, ids@, budget, i as int);
                }
                return Err(e);
            },
        };
        let item: &Vec<u8> = match backing_of(item_id, &stored) {
            Ok(b) => b,
            Err(e) => {
                proof {
                    lemma_items_fail(source, *ctx, ids@, budget, i as int);
                }
                return Err(e);
            },
        };
        let projected: usize = match bytes.len().checked_add(item.len()) {
            Some(p) => p,
            None => {
                proof {
                    lemma_items_fail(source, *ctx, ids@, budget, i as int);
                }
                return Err(EvidenceError::Oversized { max: budget, actual: usize::MAX });
            },
        };
        if projected > budget {
            proof {
                lemma_items_fail(source, *ctx, ids@, budget, i as int);
            }
            return Err(EvidenceError::Oversized { max: budget, actual: projected });
        }
        store::append_bytes(&mut bytes, item.as_slice());
        i = i + 1;
    }
    proof {
        assert(ids@.take(i as int) =~= ids@);
    }
    let mut echo: String = "items:[".to_owned();
    echo.append(join_ids(&ids).as_str());
    echo.append("]");
    Ok(RetrievedEvidence { id, selector_echo: echo, bytes, truncated_by_policy: false })
}

// ---------------------------------------------------------------- retrieve

/// What a retrieval gives: the scoped read of the governing id first, then the
/// selector.
pub open spec fn retrieval_of<S: EvidenceStore + ?Sized>(
    s: &S,
    ctx: EvidenceAccessContext,
    id: u64,
    selector: RetrievalSelector,
) -> Outcome {
    match store::scoped_read(s.lookup(id), id, ctx) {
        Err(e) => Err(e),
        Ok(stored) => match selector {
            RetrievalSelector::All => all_of(id, stored),
            RetrievalSelector::ByteRange { start, end } => byte_range_of(id, stored, start, end),
            RetrievalSelector::LineRange { start, end } => line_range_of(id, stored, start, end),
            RetrievalSelector::Search { query, max_hits } => search_of(
                id,
                stored,
                query@,
                max_hits,
            ),
            RetrievalSelector::Items { ids } => items_of(s, ctx, id, stored, ids@),
        },
    }
}

/// The ids that a retrieval reads.
pub open spec fn ids_read(id: EvidenceId, selector: RetrievalSelector) -> Seq<EvidenceId> {
    match selector {
        RetrievalSelector::Items { ids } => seq![id] + ids@,
        _ => seq![id],
    }
}

/// Reads evidence through a typed selector. The primary `id` governs the
/// response budget and must be accessible from `ctx`; for `Items`, every
/// requested id is scope-checked as well.
pub fn retrieve<S: EvidenceStore + ?Sized>(
    source: &S,
    ctx: &EvidenceAccessContext,
    id: EvidenceId,
    selector: RetrievalSelector,
) -> (r: Result<RetrievedEvidence, EvidenceError>)
    requires
        source.valid(),
    ensures
        answers(
            source,
            ids_read(id, selector),
            retrieval_of(source, *ctx, id.0, selector),
            outcome(r),
        ),
{
    let stored: StoredEvidence = match source.get_scoped(id, ctx) {
        Ok(s) => s,
        Err(e) => {
            proof {
                assert(ids_read(id, selector)[0] == id);
            }
            return Err(e);
        },
    };
    let ghost read = ids_read(id, selector);
    match selector {
        RetrievalSelector::All => retrieve_all(id, &stored),
        RetrievalSelector::ByteRange { start, end } => retrieve_byte_range(
            id,
            &stored,
            start,
            end,
        ),
        RetrievalSelector::LineRange { start, end } => retrieve_line_range(
            id,
            &stored,
            start,
            end,
        ),
        RetrievalSelector::Search { query, max_hits } => retrieve_search(
            id,
            &stored,
            query.as_str(),
            max_hits,
        ),
        RetrievalSelector::Items { ids } => {
            proof {
                assert forall|n: int| 0 <= n < ids@.len() implies read[n + 1] == #[trigger] ids@[n] by {
                }
            }
            retrieve_items(source, ctx, id, &stored, ids)
        },
    }
}

/// The policy of one envelope.
pub fn policy_of(stored: &StoredEvidence) -> (r: RetrievalPolicy)
    ensures
        r == stored@.envelope.retrieval,
{
    stored.envelope.retrieval
}

// -------------------------------------------------------------------- laws

/// Whatever the selector, a successful retrieval stays within the byte ceiling
/// of the governing envelope, and its reader may see that envelope.
pub proof fn law_retrieval_is_bounded_and_scoped<S: EvidenceStore + ?Sized>(
    s: &S,
    ctx: EvidenceAccessContext,
    id: u64,
    selector: RetrievalSelector,
)
    requires
        retrieval_of(s, ctx, id, selector) is Ok,
    ensures
        s.lookup(id) matches Ok(Some(stored)) && ctx.sees_envelope(stored.envelope) && (
        retrieval_of(s, ctx, id, selector)->Ok_0).bytes.len()
            <= stored.envelope.retrieval.max_bytes,
{
    let stored = s.lookup(id)->Ok_0->0;
    match selector {
        RetrievalSelector::Search { query, max_hits } => {
            let hits = hits_in(
                byte_lines(stored.backing->0),
                vstd::utf8::encode_utf8(query@),
            );
            assert(hits.take(0) =~= Seq::empty());
            lemma_taken_fits(
                hits,
                0,
                hit_cap(max_hits),
                stored.envelope.retrieval.max_bytes as nat,
            );
        },
        RetrievalSelector::Items { ids } => {
            lemma_items_fit(s, ctx, ids@, stored.envelope.retrieval.max_bytes);
        },
        _ => {},
    }
}

proof fn lemma_taken_fits(hits: Seq<Seq<u8>>, k: nat, cap: nat, max_bytes: nat)
    requires
        k <= hits.len(),
        joined(hits.take(k as int)).len() <= max_bytes,
    ensures
        k <= taken(hits, k, cap, max_bytes) <= hits.len(),
        joined(hits.take(taken(hits, k, cap, max_bytes) as int)).len() <= max_bytes,
        k <= cap ==> taken(hits, k, cap, max_bytes) <= cap,
    decreases hits.len() - k,
{
    if k < hits.len() && k < cap && joined(hits.take(k as int + 1)).len() <= max_bytes {
        lemma_taken_fits(hits, k + 1, cap, max_bytes);
    }
}

proof fn lemma_items_fit<S: EvidenceStore + ?Sized>(
    s: &S,
    ctx: EvidenceAccessContext,
    ids: Seq<EvidenceId>,
    budget: usize,
)
    ensures
        items_bytes(s, ctx, ids, budget) matches Ok(b) ==> b.len() <= budget,
    decreases ids.len(),
{
    if ids.len() > 0 {
        lemma_items_fit(s, ctx, ids.drop_last(), budget);
    }
}

/// One item that cannot be read leaves no bytes.
proof fn lemma_one_item_decides<S: EvidenceStore + ?Sized>(
    s: &S,
    ctx: EvidenceAccessContext,
    ids: Seq<EvidenceId>,
    budget: usize,
    n: int,
)
    requires
        0 <= n < ids.len(),
        match store::scoped_read(s.lookup(ids[n].0), ids[n].0, ctx) {
            Ok(stored) => stored.backing is None,
            Err(_) => true,
        },
    ensures
        items_bytes(s, ctx, ids, budget) is Err,
    decreases ids.len(),
{
    if n < ids.len() - 1 {
        assert(ids.drop_last()[n] == ids[n]);
        lemma_one_item_decides(s, ctx, ids.drop_last(), budget, n);
    }
}

/// An `Items` request never drops an id outside the scope of its reader: one
/// foreign id denies the whole request.
pub proof fn law_a_foreign_item_denies_the_request<S: EvidenceStore + ?Sized>(
    s: &S,
    ctx: EvidenceAccessContext,
    id: u64,
    ids: Vec<EvidenceId>,
    n: int,
)
    requires
        0 <= n < ids@.len(),
        store::scoped_read(s.lookup(ids@[n].0), ids@[n].0, ctx) is Err,
    ensures
        retrieval_of(s, ctx, id, RetrievalSelector::Items { ids }) is Err,
{
    if let Ok(stored) = store::scoped_read(s.lookup(id), id, ctx) {
        lemma_one_item_decides(s, ctx, ids@, stored.envelope.retrieval.max_bytes, n);
    }
}

/// The evidence whose bytes a selector reads.
pub open spec fn reads_bytes_of(id: u64, selector: RetrievalSelector, other: u64) -> bool {
    match selector {
        RetrievalSelector::Items { ids } => ids@.contains(EvidenceId(other)),
        _ => other == id,
    }
}

/// Bytes that the store dropped are never replaced by others: whatever the
/// selector, a retrieval that would read them fails.
pub proof fn law_dropped_bytes_are_never_replaced<S: EvidenceStore + ?Sized>(
    s: &S,
    ctx: EvidenceAccessContext,
    id: u64,
    selector: RetrievalSelector,
    other: u64,
)
    requires
        reads_bytes_of(id, selector, other),
        s.lookup(other) matches Ok(Some(stored)) && stored.backing is None,
    ensures
        retrieval_of(s, ctx, id, selector) is Err,
{
    if let RetrievalSelector::Items { ids } = selector {
        let n = choose|n: int| 0 <= n < ids@.len() && ids@[n] == EvidenceId(other);
        if let Ok(stored) = store::scoped_read(s.lookup(id), id, ctx) {
            lemma_one_item_decides(s, ctx, ids@, stored.envelope.retrieval.max_bytes, n);
        }
    }
}

/// Reading the whole backing, the byte range over all of it and the line range
/// over all of its lines give the same bytes.
pub proof fn law_whole_ranges_agree(id: u64, stored: store::StoredView)
    requires
        stored.backing is Some,
        stored.backing->0.len() <= u64::MAX,
        1 <= byte_lines(stored.backing->0).len() <= u64::MAX,
        stored.envelope.retrieval.admits_range(stored.backing->0.len()),
    ensures
        ({
            let b = stored.backing->0;
            &&& all_of(id, stored) matches Ok(v) && v.bytes == b
            &&& byte_range_of(id, stored, 0, b.len() as u64) matches Ok(v) && v.bytes == b
            &&& line_range_of(id, stored, 1, byte_lines(b).len() as u64) matches Ok(v)
                && v.bytes == b
        }),
{
    let b = stored.backing->0;
    law_lines_partition_the_backing(b);
    let lines = byte_lines(b);
    assert(lines.subrange(0, lines.len() as int) =~= lines);
    assert(b.subrange(0, b.len() as int) =~= b);
}

proof fn lemma_concat_two(a: Seq<Seq<u8>>, b: Seq<Seq<u8>>)
    ensures
        concat(a + b) == concat(a) + concat(b),
    decreases b.len(),
{
    if b.len() == 0 {
        assert(a + b =~= a);
        assert(concat(a) + concat(b) =~= concat(a));
    } else {
        assert((a + b).drop_last() =~= a + b.drop_last());
        lemma_concat_two(a, b.drop_last());
        assert(concat(a) + concat(b.drop_last()) + b.last() =~= concat(a) + concat(b));
    }
}

/// A line range splits anywhere: the lines `start..=middle` followed by the
/// lines after `middle` up to `end` are the lines `start..=end`, in bytes that
/// the policy admits.
pub proof fn law_line_ranges_split(
    id: u64,
    stored: store::StoredView,
    start: u64,
    middle: u64,
    end: u64,
)
    requires
        stored.backing is Some,
        stored.envelope.retrieval.admits_range(stored.backing->0.len()),
        1 <= start <= middle < end <= byte_lines(stored.backing->0).len(),
    ensures
        ({
            let left = line_range_of(id, stored, start, middle);
            let right = line_range_of(id, stored, (middle + 1) as u64, end);
            let both = line_range_of(id, stored, start, end);
            &&& left is Ok
            &&& right is Ok
            &&& both is Ok
            &&& left->Ok_0.bytes + right->Ok_0.bytes == both->Ok_0.bytes
        }),
{
    let b = stored.backing->0;
    let lines = byte_lines(b);
    let s = start - 1;
    let m = middle as int;
    let e = end as int;
    law_lines_partition_the_backing(b);
    lemma_concat_two(lines.subrange(s, m), lines.subrange(m, e));
    assert(lines.subrange(s, m) + lines.subrange(m, e) =~= lines.subrange(s, e));
    lemma_concat_two(lines.subrange(0, s), lines.subrange(s, e));
    assert(lines.subrange(0, s) + lines.subrange(s, e) =~= lines.subrange(0, e));
    lemma_concat_two(lines.subrange(0, e), lines.subrange(e, lines.len() as int));
    assert(lines.subrange(0, e) + lines.subrange(e, lines.len() as int) =~= lines);
}

/// A line ends behind its line feed, and bytes without a line feed are one line.
pub proof fn law_byte_lines_end_at_line_feeds(line: Seq<u8>, rest: Seq<u8>)
    requires
        !line.contains(10),
    ensures
        byte_lines(line + seq![10u8] + rest) == seq![line + seq![10u8]] + byte_lines(rest),
        line.len() > 0 ==> byte_lines(line) == seq![line],
        byte_lines(Seq::empty()) == Seq::<Seq<u8>>::empty(),
{
    let s = line + seq![10u8] + rest;
    lemma_line_len_is(line, seq![10u8] + rest);
    assert(line + (seq![10u8] + rest) =~= s);
    let n = line.len() as int + 1;
    assert(s.take(n) =~= line + seq![10u8]);
    assert(s.skip(n) =~= rest);
    lemma_line_len_is(line, Seq::empty());
    assert(line + Seq::<u8>::empty() =~= line);
    assert(line.take(line.len() as int) =~= line);
    assert(line.skip(line.len() as int) =~= Seq::empty());
    assert(byte_lines(line.skip(line.len() as int)) =~= Seq::empty());
    if line.len() > 0 {
        assert(byte_lines(line) =~= seq![line]);
    }
}

proof fn lemma_line_len_is(line: Seq<u8>, tail: Seq<u8>)
    requires
        !line.contains(10),
        tail.len() > 0 ==> tail[0] == 10,
    ensures
        line_len(line + tail) == line.len() + (if tail.len() > 0 {
            1nat
        } else {
            0nat
        }),
    decreases line.len(),
{
    if line.len() == 0 {
        assert(line + tail =~= tail);
    } else {
        assert((line + tail)[0] == line[0]);
        assert(line.contains(line[0]));
        assert((line + tail).drop_first() =~= line.drop_first() + tail);
        assert(!line.drop_first().contains(10)) by {
            if line.drop_first().contains(10) {
                let k = choose|k: int|
                    0 <= k < line.drop_first().len() && line.drop_first()[k] == 10;
                assert(line[k + 1] == 10);
                assert(line.contains(10));
            }
        }
        lemma_line_len_is(line.drop_first(), tail);
    }
}

/// The first line of bytes and what follows it.
proof fn lemma_first_line(s: Seq<u8>)
    requires
        s.contains(10),
    ensures
        1 <= line_len(s) <= s.len(),
        s[line_len(s) - 1] == 10,
        !s.take(line_len(s) - 1).contains(10),
    decreases s.len(),
{
    lemma_line_len(s);
    if s[0] == 10 {
        assert(s.take(0) =~= Seq::empty());
    } else {
        let t = s.drop_first();
        let k = choose|k: int| 0 <= k < s.len() && s[k] == 10;
        assert(t[k - 1] == 10);
        assert(t.contains(10));
        lemma_first_line(t);
        let n = line_len(s) - 1;
        let p = s.take(n);
        if p.contains(10) {
            let j = choose|j: int| 0 <= j < p.len() && p[j] == 10;
            assert(t.take(n - 1)[j - 1] == 10);
            assert(t.take(n - 1).contains(10));
        }
    }
}

/// The lines of two texts stand behind each other, where the first ends with a
/// line feed.
pub proof fn law_byte_lines_follow_on(a: Seq<u8>, b: Seq<u8>)
    requires
        a.len() == 0 || a.last() == 10,
    ensures
        byte_lines(a + b) == byte_lines(a) + byte_lines(b),
    decreases a.len(),
{
    if a.len() == 0 {
        assert(a + b =~= b);
        assert(byte_lines(a) + byte_lines(b) =~= byte_lines(b));
    } else {
        assert(a[a.len() - 1] == 10);
        assert(a.contains(10));
        lemma_first_line(a);
        let n = line_len(a) as int;
        let line = a.take(n - 1);
        let rest = a.skip(n);
        if rest.len() > 0 {
            assert(rest.last() == a.last());
        }
        law_byte_lines_follow_on(rest, b);
        law_byte_lines_end_at_line_feeds(line, rest);
        law_byte_lines_end_at_line_feeds(line, rest + b);
        assert(a =~= line + seq![10u8] + rest);
        assert(a + b =~= line + seq![10u8] + (rest + b));
        assert(byte_lines(a + b) =~= byte_lines(a) + byte_lines(b));
    }
}

/// A line range reads the lines that stand there: between `x` and `z`, where each
/// of `x` and `y` ends with a line feed, stands `y`.
pub proof fn law_a_line_range_reads_the_lines_there(
    id: u64,
    stored: store::StoredView,
    x: Seq<u8>,
    y: Seq<u8>,
    z: Seq<u8>,
)
    requires
        stored.backing == Some(x + y + z),
        x.len() == 0 || x.last() == 10,
        y.len() > 0,
        y.last() == 10 || z.len() == 0,
        byte_lines(x).len() + byte_lines(y).len() <= u64::MAX,
    ensures
        ({
            let first = (byte_lines(x).len() + 1) as u64;
            let last = (byte_lines(x).len() + byte_lines(y).len()) as u64;
            let r = line_range_of(id, stored, first, last);
            let policy = stored.envelope.retrieval;
            &&& policy.allow_ranges && y.len() <= policy.max_bytes ==> r == Ok::<
                RetrievedView,
                types::ErrorView,
            >(
                RetrievedView {
                    id,
                    echo: "lines:"@ + text::decimal(first as nat) + "..="@ + text::decimal(
                        last as nat,
                    ),
                    bytes: y,
                    truncated: false,
                },
            )
            &&& !policy.allow_ranges ==> r is Err && r->Err_0 is AccessDenied
            &&& policy.allow_ranges && y.len() > policy.max_bytes ==> r is Err && r->Err_0 is Oversized
        }),
{
    let b = x + y + z;
    let (lx, ly, lz) = (byte_lines(x), byte_lines(y), byte_lines(z));
    law_byte_lines_follow_on(x, y + z);
    assert(x + (y + z) =~= b);
    if z.len() == 0 {
        assert(y + z =~= y);
        assert(byte_lines(y + z) =~= ly + lz);
    } else {
        law_byte_lines_follow_on(y, z);
    }
    let lines = byte_lines(b);
    assert(lines.subrange(lx.len() as int, (lx.len() + ly.len()) as int) =~= ly);
    law_lines_partition_the_backing(y);
    if ly.len() == 0 {
        assert(concat(ly) =~= Seq::empty());
    }
    let first = (lx.len() + 1) as u64;
    let last = (lx.len() + ly.len()) as u64;
    assert("lines:"@ + closed_range_text(first, last) =~= "lines:"@ + text::decimal(first as nat)
        + "..="@ + text::decimal(last as nat));
}

/// A byte range reads the bytes that stand there.
pub proof fn law_a_byte_range_reads_the_bytes_there(
    id: u64,
    stored: store::StoredView,
    x: Seq<u8>,
    y: Seq<u8>,
    z: Seq<u8>,
)
    requires
        stored.backing == Some(x + y + z),
        x.len() + y.len() <= u64::MAX,
    ensures
        ({
            let first = x.len() as u64;
            let end = (x.len() + y.len()) as u64;
            let r = byte_range_of(id, stored, first, end);
            let policy = stored.envelope.retrieval;
            &&& policy.allow_ranges && y.len() <= policy.max_bytes ==> r == Ok::<
                RetrievedView,
                types::ErrorView,
            >(
                RetrievedView {
                    id,
                    echo: "bytes:"@ + text::decimal(first as nat) + ".."@ + text::decimal(
                        end as nat,
                    ),
                    bytes: y,
                    truncated: false,
                },
            )
            &&& !policy.allow_ranges ==> r is Err && r->Err_0 is AccessDenied
            &&& policy.allow_ranges && y.len() > policy.max_bytes ==> r is Err && r->Err_0 is Oversized
        }),
{
    let b = x + y + z;
    assert(b.subrange(x.len() as int, x.len() + y.len() as int) =~= y);
    let first = x.len() as u64;
    let end = (x.len() + y.len()) as u64;
    assert("bytes:"@ + range_text(first, end) =~= "bytes:"@ + text::decimal(first as nat) + ".."@
        + text::decimal(end as nat));
}

/// A range that ends behind the backing, or before it begins, is never answered
/// with other bytes.
pub proof fn law_ranges_beyond_the_backing_fail(
    id: u64,
    stored: store::StoredView,
    start: u64,
    end: u64,
)
    ensures
        start > end ==> byte_range_of(id, stored, start, end) is Err && byte_range_of(id, stored, start, end)->Err_0 is Malformed,
        start > end || start == 0 || end == 0 ==> line_range_of(id, stored, start, end) is Err && line_range_of(id, stored, start, end)->Err_0 is Malformed,
        stored.backing matches Some(b) && start <= end && end > b.len() ==> byte_range_of( id, stored, start, end, ) is Err && byte_range_of( id, stored, start, end, )->Err_0 is Oversized,
        stored.backing matches Some(b) && 1 <= start <= end && end > byte_lines(b).len()
            ==> line_range_of(id, stored, start, end) is Err && line_range_of(id, stored, start, end)->Err_0 is Oversized,
{
}

/// The whole backing is only read where ranges are permitted and it fits.
pub proof fn law_the_whole_backing_is_one_range(id: u64, stored: store::StoredView, b: Seq<u8>)
    requires
        stored.backing == Some(b),
    ensures
        !stored.envelope.retrieval.allow_ranges ==> all_of(id, stored) is Err && all_of(id, stored)->Err_0 is Refused,
        stored.envelope.retrieval.allow_ranges && b.len() > stored.envelope.retrieval.max_bytes
            ==> all_of(id, stored) is Err && all_of(id, stored)->Err_0 is Oversized,
        stored.envelope.retrieval.allow_ranges && b.len() <= stored.envelope.retrieval.max_bytes
            ==> all_of(id, stored) == Ok::<RetrievedView, types::ErrorView>(
            RetrievedView { id, echo: "all"@, bytes: b, truncated: false },
        ),
{
}

/// A line that holds the query somewhere.
pub open spec fn holding(query: Seq<u8>) -> spec_fn(Seq<u8>) -> bool {
    |line: Seq<u8>| exists|a: Seq<u8>, b: Seq<u8>| line == #[trigger] (a + query + b)
}

/// The lines, each with a line feed behind it.
pub open spec fn fed(lines: Seq<Seq<u8>>) -> Seq<u8>
    decreases lines.len(),
{
    if lines.len() == 0 {
        Seq::empty()
    } else {
        fed(lines.drop_last()) + lines.last() + seq![10u8]
    }
}

proof fn lemma_holds(line: Seq<u8>, query: Seq<u8>)
    requires
        !query.contains(10),
        query.len() > 0,
    ensures
        has_bytes(line, query) <==> holding(query)(line),
        has_bytes(line + seq![10u8], query) <==> holding(query)(line),
{
    if has_bytes(line, query) {
        let i = choose|i: int| #[trigger] bytes_at(line, i, query);
        assert(line =~= line.take(i) + query + line.skip(i + query.len()));
    }
    let fed = line + seq![10u8];
    if has_bytes(fed, query) {
        let i = choose|i: int| #[trigger] bytes_at(fed, i, query);
        assert(i + query.len() <= line.len()) by {
            if i + query.len() == fed.len() {
                assert(fed.subrange(i, i + query.len())[query.len() - 1] == 10);
                assert(query[query.len() - 1] == 10);
                assert(query.contains(10));
            }
        }
        assert(fed.subrange(i, i + query.len()) =~= line.subrange(i, i + query.len()));
        assert(bytes_at(line, i, query));
        assert(line =~= line.take(i) + query + line.skip(i + query.len()));
    }
    if holding(query)(line) {
        let (a, b) = choose|a: Seq<u8>, b: Seq<u8>| line == #[trigger] (a + query + b);
        let i = a.len() as int;
        assert(line.subrange(i, i + query.len()) =~= query);
        assert(bytes_at(line, i, query));
        assert(fed.subrange(i, i + query.len()) =~= query);
        assert(bytes_at(fed, i, query));
    }
}

proof fn lemma_hits_follow_on(a: Seq<Seq<u8>>, line: Seq<u8>, needle: Seq<u8>)
    ensures
        hits_in(a.push(line), needle) == (if has_bytes(line, needle) {
            hits_in(a, needle).push(chomped(line))
        } else {
            hits_in(a, needle)
        }),
{
    assert(a.push(line).drop_last() =~= a);
}

/// The hits in lines are the lines that hold the query.
proof fn lemma_hits_are(lines: Seq<Seq<u8>>, query: Seq<u8>)
    requires
        forall|i: int| 0 <= i < lines.len() ==> !(#[trigger] lines[i]).contains(10),
        !query.contains(10),
        query.len() > 0,
    ensures
        hits_in(byte_lines(fed(lines)), query) == lines.filter(holding(query)),
        fed(lines).len() == 0 || fed(lines).last() == 10,
    decreases lines.len(),
{
    reveal(Seq::filter);
    if lines.len() > 0 {
        let before = lines.drop_last();
        let l = lines.last();
        assert forall|i: int| 0 <= i < before.len() implies !(#[trigger] before[i]).contains(
            10,
        ) by {
            assert(before[i] == lines[i]);
        }
        lemma_hits_are(before, query);
        assert(!lines[lines.len() - 1].contains(10));
        let one = l + seq![10u8];
        law_byte_lines_follow_on(fed(before), one);
        law_byte_lines_end_at_line_feeds(l, Seq::empty());
        assert(l + seq![10u8] + Seq::<u8>::empty() =~= one);
        assert(fed(lines) =~= fed(before) + one);
        assert(seq![one] + Seq::<Seq<u8>>::empty() =~= seq![one]);
        assert(byte_lines(fed(lines)) =~= byte_lines(fed(before)).push(one));
        lemma_hits_follow_on(byte_lines(fed(before)), one, query);
        lemma_holds(l, query);
        assert(chomped(one) =~= l);
    } else {
        assert(byte_lines(fed(lines)) =~= Seq::empty());
    }
}

/// Hits follow each other with one line feed between each two.
pub proof fn law_hits_stand_on_lines_of_their_own(hits: Seq<Seq<u8>>, hit: Seq<u8>)
    ensures
        joined(Seq::empty()) == Seq::<u8>::empty(),
        joined(seq![hit]) == hit,
        hits.len() > 0 ==> joined(hits.push(hit)) == joined(hits) + seq![10u8] + hit,
{
    assert(hits.push(hit).drop_last() =~= hits);
}

proof fn lemma_taken_all(hits: Seq<Seq<u8>>, k: nat, cap: nat, max_bytes: nat)
    requires
        k <= hits.len() <= cap,
        joined(hits).len() <= max_bytes,
    ensures
        taken(hits, k, cap, max_bytes) == hits.len(),
    decreases hits.len() - k,
{
    if k < hits.len() {
        lemma_joined_grows(hits, k as int + 1);
        lemma_taken_all(hits, k + 1, cap, max_bytes);
    }
}

proof fn lemma_joined_grows(hits: Seq<Seq<u8>>, n: int)
    requires
        0 <= n <= hits.len(),
    ensures
        joined(hits.take(n)).len() <= joined(hits).len(),
    decreases hits.len() - n,
{
    if n == hits.len() {
        assert(hits.take(n) =~= hits);
    } else {
        lemma_joined_step(hits, n as nat);
        if n == 0 {
            assert(hits.take(0) =~= Seq::empty());
        }
        lemma_joined_grows(hits, n + 1);
    }
}

/// A search gives the lines that hold the query, wherever in the line it stands,
/// in their order and no others, where the policy permits it and has room.
#[verifier::rlimit(20)]
pub proof fn law_a_search_finds_the_lines_with_the_query<S: EvidenceStore + ?Sized>(
    s: &S,
    ctx: EvidenceAccessContext,
    id: u64,
    stored: store::StoredView,
    lines: Seq<Seq<u8>>,
    query: String,
    max_hits: u32,
)
    requires
        s.lookup(id) == Ok::<Option<store::StoredView>, types::ErrorView>(Some(stored)),
        ctx.sees_envelope(stored.envelope),
        forall|i: int| 0 <= i < lines.len() ==> !(#[trigger] lines[i]).contains(10),
        stored.backing == Some(fed(lines)),
        query@.len() > 0,
        text::byte_len(query@) <= 4096,
        !vstd::utf8::encode_utf8(query@).contains(10),
        1 <= max_hits,
    ensures
        ({
            let hits = lines.filter(holding(vstd::utf8::encode_utf8(query@)));
            let r = retrieval_of(s, ctx, id, RetrievalSelector::Search { query, max_hits });
            let policy = stored.envelope.retrieval;
            &&& !policy.allow_search ==> r is Err && r->Err_0 is AccessDenied
            &&& policy.allow_search ==> r is Ok && r->Ok_0.id == id && r->Ok_0.echo == "search:"@
                + text::debug_of(query@) + ";max_hits="@ + text::decimal(max_hits as nat)
            &&& policy.allow_search && hits.len() <= max_hits && hits.len() <= 256 && joined(
                hits,
            ).len() <= policy.max_bytes ==> (r matches Ok(v) && v.bytes == joined(hits)
                && !v.truncated)
            &&& policy.allow_search && (hits.len() > max_hits || hits.len() > 256 || joined(
                hits,
            ).len() > policy.max_bytes) ==> (r matches Ok(v) && v.truncated)
        }),
{
    let q = vstd::utf8::encode_utf8(query@);
    text::lemma_byte_len_encode(query@);
    text::lemma_byte_len_bounds(query@);
    lemma_hits_are(lines, q);
    let hits = lines.filter(holding(q));
    let cap = hit_cap(max_hits);
    let max = stored.envelope.retrieval.max_bytes as nat;
    assert(hits.take(0) =~= Seq::empty());
    assert(joined(hits.take(0)) =~= Seq::empty());
    lemma_taken_fits(hits, 0, cap, max);
    assert(hits.take(hits.len() as int) =~= hits);
    if hits.len() <= cap && joined(hits).len() <= max {
        lemma_taken_all(hits, 0, cap, max);
    }
}

/// The same of one line: it is found where the query stands anywhere in it.
#[verifier::rlimit(20)]
pub proof fn law_a_query_is_found_anywhere_in_a_line<S: EvidenceStore + ?Sized>(
    s: &S,
    ctx: EvidenceAccessContext,
    id: u64,
    stored: store::StoredView,
    a: Seq<u8>,
    b: Seq<u8>,
    query: String,
    max_hits: u32,
)
    requires
        s.lookup(id) == Ok::<Option<store::StoredView>, types::ErrorView>(Some(stored)),
        ctx.sees_envelope(stored.envelope),
        !a.contains(10),
        !b.contains(10),
        stored.backing == Some(a + vstd::utf8::encode_utf8(query@) + b),
        query@.len() > 0,
        text::byte_len(query@) <= 4096,
        !vstd::utf8::encode_utf8(query@).contains(10),
        1 <= max_hits,
        stored.envelope.retrieval.allow_search,
        (stored.backing->0).len() <= stored.envelope.retrieval.max_bytes,
    ensures
        retrieval_of(s, ctx, id, RetrievalSelector::Search { query, max_hits }) matches Ok(v)
            && v.bytes == stored.backing->0 && !v.truncated,
{
    let q = vstd::utf8::encode_utf8(query@);
    text::lemma_byte_len_encode(query@);
    text::lemma_byte_len_bounds(query@);
    let line = a + q + b;
    assert(!line.contains(10)) by {
        if line.contains(10) {
            let k = choose|k: int| 0 <= k < line.len() && line[k] == 10;
            if k < a.len() {
                assert(a[k] == 10);
            } else if k < a.len() + q.len() {
                assert(q[k - a.len()] == 10);
            } else {
                assert(b[k - a.len() - q.len()] == 10);
            }
        }
    }
    law_byte_lines_end_at_line_feeds(line, Seq::empty());
    lemma_holds(line, q);
    let hits = hits_in(byte_lines(line), q);
    lemma_hits_follow_on(Seq::empty(), line, q);
    assert(Seq::<Seq<u8>>::empty().push(line) =~= seq![line]);
    assert(chomped(line) == line) by {
        assert(line.contains(line.last()));
    }
    assert(hits =~= seq![line]);
    assert(hits.take(1) =~= hits);
    reveal_with_fuel(taken, 3);
}

/// A search that leaves hits out says so, and leaves out no hit that there is room
/// for.
pub proof fn law_a_search_leaves_out_openly(
    id: u64,
    stored: store::StoredView,
    query: Seq<char>,
    max_hits: u32,
) -> (n: nat)
    requires
        search_of(id, stored, query, max_hits) is Ok,
    ensures
        ({
            let v = search_of(id, stored, query, max_hits)->Ok_0;
            let hits = hits_in(byte_lines(stored.backing->0), vstd::utf8::encode_utf8(query));
            &&& n <= hits.len()
            &&& n <= max_hits
            &&& n <= 256
            &&& v.bytes == joined(hits.take(n as int))
            &&& v.bytes.len() <= stored.envelope.retrieval.max_bytes
            &&& v.truncated <==> n < hits.len()
            &&& n < hits.len() ==> n == max_hits || n == 256 || joined(
                hits.take(n as int + 1),
            ).len() > stored.envelope.retrieval.max_bytes
        }),
{
    let hits = hits_in(byte_lines(stored.backing->0), vstd::utf8::encode_utf8(query));
    let cap = hit_cap(max_hits);
    let max = stored.envelope.retrieval.max_bytes as nat;
    assert(hits.take(0) =~= Seq::empty());
    lemma_taken_fits(hits, 0, cap, max);
    lemma_taken_stops(hits, 0, cap, max);
    taken(hits, 0, cap, max)
}

proof fn lemma_taken_stops(hits: Seq<Seq<u8>>, k: nat, cap: nat, max_bytes: nat)
    requires
        k <= hits.len(),
    ensures
        ({
            let n = taken(hits, k, cap, max_bytes);
            n < hits.len() ==> n >= cap || joined(hits.take(n as int + 1)).len() > max_bytes
        }),
    decreases hits.len() - k,
{
    if k < hits.len() && k < cap && joined(hits.take(k as int + 1)).len() <= max_bytes {
        lemma_taken_stops(hits, k + 1, cap, max_bytes);
    }
}

/// A search without a query, with one of more than 4096 bytes, or for no hits at
/// all is refused, and so is one that the policy does not permit.
pub proof fn law_senseless_searches_are_refused(
    id: u64,
    stored: store::StoredView,
    query: Seq<char>,
    max_hits: u32,
)
    ensures
        ({
            let r = search_of(id, stored, query, max_hits);
            &&& query.len() == 0 ==> r is Err && r->Err_0 is Malformed
            &&& text::byte_len(query) > 4096 ==> r is Err && r->Err_0 is Oversized
            &&& max_hits == 0 ==> r is Err
            &&& !stored.envelope.retrieval.allow_search ==> r is Err
            &&& stored.backing is None ==> r is Err
        }),
{
}

/// Items are read one behind the other, in the order of the request.
pub proof fn law_items_follow_each_other<S: EvidenceStore + ?Sized>(
    s: &S,
    ctx: EvidenceAccessContext,
    id: u64,
    governing: store::StoredView,
    ids: Vec<EvidenceId>,
    items: Seq<store::StoredView>,
)
    requires
        s.lookup(id) == Ok::<Option<store::StoredView>, types::ErrorView>(Some(governing)),
        ctx.sees_envelope(governing.envelope),
        1 <= ids@.len() <= 256,
        items.len() == ids@.len(),
        forall|i: int|
            0 <= i < items.len() ==> (#[trigger] s.lookup(ids@[i].0)) == Ok::<
                Option<store::StoredView>,
                types::ErrorView,
            >(Some(items[i])) && ctx.sees_envelope(items[i].envelope) && items[i].backing is Some,
        concat(backings(items)).len() <= governing.envelope.retrieval.max_bytes,
    ensures
        retrieval_of(s, ctx, id, RetrievalSelector::Items { ids }) matches Ok(v) && v.id == id
            && v.bytes == concat(backings(items)) && !v.truncated && v.echo == "items:["@ + text::join(
            Seq::new(ids@.len(), |i: int| text::decimal(ids@[i].0 as nat)),
            seq![','],
        ) + "]"@,
{
    assert(id_texts(ids@) =~= Seq::new(ids@.len(), |i: int| text::decimal(ids@[i].0 as nat)));
    lemma_items_concat(s, ctx, ids@, items, governing.envelope.retrieval.max_bytes);
}

/// The retained bytes of items that retain theirs.
pub open spec fn backings(items: Seq<store::StoredView>) -> Seq<Seq<u8>> {
    Seq::new(items.len(), |i: int| items[i].backing->0)
}

proof fn lemma_items_concat<S: EvidenceStore + ?Sized>(
    s: &S,
    ctx: EvidenceAccessContext,
    ids: Seq<EvidenceId>,
    items: Seq<store::StoredView>,
    budget: usize,
)
    requires
        items.len() == ids.len(),
        forall|i: int|
            0 <= i < items.len() ==> (#[trigger] s.lookup(ids[i].0)) == Ok::<
                Option<store::StoredView>,
                types::ErrorView,
            >(Some(items[i])) && ctx.sees_envelope(items[i].envelope) && items[i].backing is Some,
        concat(backings(items)).len() <= budget,
    ensures
        items_bytes(s, ctx, ids, budget) == Ok::<Seq<u8>, types::ErrorView>(
            concat(backings(items)),
        ),
    decreases ids.len(),
{
    if ids.len() > 0 {
        let a = ids.drop_last();
        let b = items.drop_last();
        assert forall|i: int| 0 <= i < b.len() implies (#[trigger] s.lookup(a[i].0)) == Ok::<
            Option<store::StoredView>,
            types::ErrorView,
        >(Some(b[i])) && ctx.sees_envelope(b[i].envelope) && b[i].backing is Some by {
            assert(s.lookup(ids[i].0) == s.lookup(a[i].0));
        }
        assert(backings(items).drop_last() =~= backings(b));
        lemma_items_concat(s, ctx, a, b, budget);
        assert(s.lookup(ids[ids.len() - 1].0) == s.lookup(ids.last().0));
    }
}

/// A request for no items, or for more than 256, is refused, whatever they hold.
pub proof fn law_a_request_names_some_items<S: EvidenceStore + ?Sized>(
    s: &S,
    ctx: EvidenceAccessContext,
    id: u64,
    governing: store::StoredView,
    ids: Vec<EvidenceId>,
)
    requires
        s.lookup(id) == Ok::<Option<store::StoredView>, types::ErrorView>(Some(governing)),
        ctx.sees_envelope(governing.envelope),
    ensures
        ids@.len() == 0 ==> retrieval_of(s, ctx, id, RetrievalSelector::Items { ids }) is Err
            && retrieval_of(s, ctx, id, RetrievalSelector::Items { ids })->Err_0 is Malformed,
        ids@.len() > 256 ==> retrieval_of(s, ctx, id, RetrievalSelector::Items { ids }) is Err
            && retrieval_of(s, ctx, id, RetrievalSelector::Items { ids })->Err_0 is Oversized,
{
}

} // verus!

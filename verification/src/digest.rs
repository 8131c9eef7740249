//! BLAKE3 digests and their hexadecimal form.
use vstd::prelude::*;

use crate::text;

verus! {

/// The 32 bytes of the BLAKE3 hash of `input`.
pub uninterp spec fn blake3_of(input: Seq<u8>) -> Seq<u8>;

/// Calls `blake3::hash`. The result depends on the input bytes alone; what the
/// hash function computes is left unsaid.
#[verifier::external_body]
pub(crate) fn blake3_hash(input: &[u8]) -> (r: [u8; 32])
    ensures
        r@ == blake3_of(input@),
{
    *blake3::hash(input).as_bytes()
}

/// The BLAKE3 digest of `input`.
pub fn digest_bytes(input: &[u8]) -> (r: [u8; 32])
    ensures
        r@ == blake3_of(input@),
{
    blake3_hash(input)
}

/// Whether two digests are the same bytes.
pub fn same_digest(a: &[u8; 32], b: &[u8; 32]) -> (r: bool)
    ensures
        r == (a@ == b@),
{
    let mut i: usize = 0;
    while i < 32
        invariant
            i <= 32,
            forall|j: int| 0 <= j < i ==> a@[j] == b@[j],
        decreases 32 - i,
    {
        if a[i] != b[i] {
            return false;
        }
        i = i + 1;
    }
    proof {
        assert(a@ =~= b@);
    }
    true
}

// ------------------------------------------------------------- hexadecimal

/// The lower-case hexadecimal digit of value `d`.
pub open spec fn hex_digit(d: nat) -> char
    recommends
        d < 16,
{
    if d < 10 {
        (('0' as u32) + d) as char
    } else {
        (('a' as u32) + d - 10) as char
    }
}

/// The value of a lower-case hexadecimal digit.
pub open spec fn hex_value(c: char) -> nat {
    if '0' <= c <= '9' {
        (c as int - '0' as int) as nat
    } else {
        (c as int - 'a' as int + 10) as nat
    }
}

/// A lower-case hexadecimal digit.
pub open spec fn is_hex(c: char) -> bool {
    '0' <= c <= '9' || 'a' <= c <= 'f'
}

/// Bytes in lower-case hexadecimal, two digits each.
pub open spec fn hex_of(bytes: Seq<u8>) -> Seq<char> {
    Seq::new(
        2 * bytes.len(),
        |i: int|
            if i % 2 == 0 {
                hex_digit(bytes[i / 2] as nat / 16)
            } else {
                hex_digit(bytes[i / 2] as nat % 16)
            },
    )
}

/// The bytes that hexadecimal digits write.
pub open spec fn bytes_of(digits: Seq<char>) -> Seq<u8> {
    Seq::new(
        digits.len() / 2,
        |i: int| (16 * hex_value(digits[2 * i]) + hex_value(digits[2 * i + 1])) as u8,
    )
}

/// The digits of a 32-byte digest, in lower case.
pub open spec fn is_digest_text(s: Seq<char>) -> bool {
    s.len() == 64 && forall|i: int| 0 <= i < 64 ==> is_hex(#[trigger] s[i])
}

/// What a text that is no digest is answered.
pub open spec fn bad_digest_text(raw: Seq<char>) -> Seq<char> {
    text::debug_of(raw) + " is not a 64-char hex backing digest"@
}

/// Reading the hexadecimal form of a digest gives the digest back, and the form
/// is its own normal form.
pub proof fn law_hex_round_trip(bytes: Seq<u8>)
    requires
        bytes.len() == 32,
    ensures
        is_digest_text(hex_of(bytes)),
        text::lower(hex_of(bytes)) == hex_of(bytes),
        bytes_of(hex_of(bytes)) == bytes,
{
    let h = hex_of(bytes);
    assert forall|i: int| 0 <= i < 64 implies is_hex(#[trigger] h[i]) by {}
    assert(text::lower(h) =~= h);
    let b = bytes_of(h);
    assert forall|i: int| 0 <= i < 32 implies b[i] == bytes[i] by {
        assert((2 * i) / 2 == i && (2 * i) % 2 == 0);
        assert((2 * i + 1) / 2 == i && (2 * i + 1) % 2 == 1);
        assert(h[2 * i] == hex_digit(bytes[i] as nat / 16));
        assert(h[2 * i + 1] == hex_digit(bytes[i] as nat % 16));
        assert(hex_value(h[2 * i]) == bytes[i] as nat / 16);
        assert(hex_value(h[2 * i + 1]) == bytes[i] as nat % 16);
    }
    assert(b =~= bytes);
}

fn hex_char(d: u8) -> (r: char)
    requires
        d < 16,
    ensures
        r == hex_digit(d as nat),
{
    if d < 10 {
        (48 + d) as char
    } else {
        (87 + d) as char
    }
}

/// A digest in lower-case hexadecimal.
pub fn hex(bytes: &[u8; 32]) -> (r: String)
    ensures
        r@ == hex_of(bytes@),
{
    let mut out: String = String::new();
    let mut i: usize = 0;
    proof {
        assert(hex_of(bytes@.take(0)) =~= Seq::<char>::empty());
    }
    while i < 32
        invariant
            i <= 32,
            out@ == hex_of(bytes@.take(i as int)),
        decreases 32 - i,
    {
        let b: u8 = bytes[i];
        let ghost before = out@;
        out.push(hex_char(b / 16));
        out.push(hex_char(b % 16));
        proof {
            let t = bytes@.take(i as int);
            let u = bytes@.take(i as int + 1);
            assert(before.len() == 2 * i);
            assert forall|k: int| 0 <= k < 2 * i + 2 implies out@[k] == hex_of(u)[k] by {
                if k < 2 * i {
                    assert(out@[k] == before[k]);
                    assert(t[k / 2] == u[k / 2]);
                } else if k == 2 * i {
                    assert(k / 2 == i);
                } else {
                    assert(k / 2 == i);
                }
            }
            assert(out@ =~= hex_of(u));
        }
        i = i + 1;
    }
    proof {
        assert(bytes@.take(i as int) =~= bytes@);
    }
    out
}

/// The normal form of a written digest: 64 hexadecimal digits, upper case
/// folded to lower.
pub fn normalize_digest(raw: &str) -> (r: Result<String, String>)
    ensures
        r is Ok <==> is_digest_text(text::lower(raw@)),
        r matches Ok(s) ==> s@ == text::lower(raw@),
        r matches Err(m) ==> m@ == bad_digest_text(raw@),
{
    let chars: Vec<char> = text::chars_of(raw);
    let mut folded: String = String::new();
    let mut fine: bool = chars.len() == 64;
    let mut i: usize = 0;
    proof {
        assert(text::lower(chars@.take(0)) =~= Seq::<char>::empty());
    }
    while i < chars.len()
        invariant
            i <= chars.len(),
            chars@ == raw@,
            folded@ == text::lower(raw@.take(i as int)),
            fine == (chars.len() == 64 && forall|k: int|
                0 <= k < i ==> is_hex(#[trigger] text::lower(raw@)[k])),
        decreases chars.len() - i,
    {
        let c: char = text::ascii_lower(chars[i]);
        let digit: bool = ('0' <= c && c <= '9') || ('a' <= c && c <= 'f');
        proof {
            assert(text::lower(raw@)[i as int] == c);
            assert(text::lower(raw@.take(i as int + 1)) =~= text::lower(raw@.take(i as int)).push(
                c,
            ));
        }
        folded.push(c);
        fine = fine && digit;
        i = i + 1;
    }
    proof {
        assert(raw@.take(i as int) =~= raw@);
    }
    if !fine {
        let mut m: String = text::debug_str(raw);
        m.append(" is not a 64-char hex backing digest");
        return Err(m);
    }
    Ok(folded)
}

fn digit_of(c: char) -> (r: u8)
    requires
        is_hex(c),
    ensures
        r == hex_value(c),
        r < 16,
{
    if '0' <= c && c <= '9' {
        (c as u8) - 48
    } else {
        (c as u8) - 87
    }
}

/// The digest that a text writes.
pub fn decode_digest_hex(raw: &str) -> (r: Result<[u8; 32], String>)
    ensures
        r is Ok <==> is_digest_text(text::lower(raw@)),
        r matches Ok(d) ==> d@ == bytes_of(text::lower(raw@)),
        r matches Err(m) ==> m@ == bad_digest_text(raw@),
{
    let folded: String = match normalize_digest(raw) {
        Ok(s) => s,
        Err(m) => {
            return Err(m);
        },
    };
    let chars: Vec<char> = text::chars_of(folded.as_str());
    let mut out: [u8; 32] = [0u8; 32];
    let mut i: usize = 0;
    while i < 32
        invariant
            i <= 32,
            chars@ == text::lower(raw@),
            is_digest_text(chars@),
            forall|k: int| 0 <= k < i ==> out@[k] == bytes_of(chars@)[k],
        decreases 32 - i,
    {
        let hi: u8 = digit_of(chars[2 * i]);
        let lo: u8 = digit_of(chars[2 * i + 1]);
        out[i] = 16 * hi + lo;
        i = i + 1;
    }
    proof {
        assert(out@ =~= bytes_of(chars@));
    }
    Ok(out)
}

// ------------------------------------------------------------- file content

/// The digest of some content.
#[derive(Debug, Clone, Copy, PartialEq, Eq, Hash)]
pub struct FileHash(pub [u8; 32]);

impl From<[u8; 32]> for FileHash {
    fn from(bytes: [u8; 32]) -> (r: FileHash) {
        FileHash(bytes)
    }
}

impl vstd::std_specs::convert::FromSpecImpl<[u8; 32]> for FileHash {
    open spec fn obeys_from_spec() -> bool {
        true
    }

    open spec fn from_spec(bytes: [u8; 32]) -> FileHash {
        FileHash(bytes)
    }
}

impl View for FileHash {
    type V = Seq<u8>;

    open spec fn view(&self) -> Seq<u8> {
        self.0@
    }
}

impl FileHash {
    /// The digest of `bytes`.
    pub fn of(bytes: &[u8]) -> (r: FileHash)
        ensures
            r@ == blake3_of(bytes@),
    {
        FileHash(digest_bytes(bytes))
    }

    /// Whether two digests are the same bytes.
    pub fn same(&self, other: &FileHash) -> (r: bool)
        ensures
            r == (self@ == other@),
    {
        same_digest(&self.0, &other.0)
    }

    /// The digest in lower-case hexadecimal.
    pub fn to_hex(&self) -> (r: String)
        ensures
            r@ == hex_of(self@),
    {
        hex(&self.0)
    }
}

/// The digest in an optional [`FileHash`].
pub open spec fn opt_hash(h: Option<FileHash>) -> Option<Seq<u8>> {
    match h {
        Some(h) => Some(h@),
        None => None,
    }
}

/// The incremental state of the hash function.
#[verifier::external_type_specification]
#[verifier::external_body]
pub struct ExHasher(blake3::Hasher);

/// The bytes that a hasher was given, in order.
pub uninterp spec fn absorbed(h: blake3::Hasher) -> Seq<u8>;

/// The hasher computes the plain, unkeyed hash from the first byte on.
pub uninterp spec fn regular(h: blake3::Hasher) -> bool;

/// Calls `blake3::Hasher::new`: a plain hasher that was given nothing yet.
#[verifier::external_body]
fn hasher_new() -> (r: blake3::Hasher)
    ensures
        absorbed(r) == Seq::<u8>::empty(),
        regular(r),
{
    blake3::Hasher::new()
}

/// Calls `blake3::Hasher::update`, which adds `input` to what the hasher was
/// given.
#[verifier::external_body]
fn hasher_update(h: &mut blake3::Hasher, input: &[u8])
    requires
        regular(*old(h)),
    ensures
        absorbed(*final(h)) == absorbed(*old(h)) + input@,
        regular(*final(h)),
{
    h.update(input);
}

/// Calls `blake3::Hasher::finalize`: the hash of all that a plain hasher was
/// given, which is what [`blake3_hash`] returns for the same bytes at once.
#[verifier::external_body]
fn hasher_finalize(h: &blake3::Hasher) -> (r: [u8; 32])
    requires
        regular(*h),
    ensures
        r@ == blake3_of(absorbed(*h)),
{
    *h.finalize().as_bytes()
}

/// Content hashed piece by piece.
pub struct StreamHash {
    hasher: blake3::Hasher,
    count: u64,
}

impl View for StreamHash {
    type V = Seq<u8>;

    /// The content so far.
    closed spec fn view(&self) -> Seq<u8> {
        absorbed(self.hasher)
    }
}

impl StreamHash {
    /// The hasher is a plain one, and the pieces were counted.
    pub closed spec fn well_formed(&self) -> bool {
        regular(self.hasher) && self.count == self@.len()
    }

    /// Nothing hashed yet.
    pub fn new() -> (r: Self)
        ensures
            r.well_formed(),
            r@ == Seq::<u8>::empty(),
    {
        StreamHash { hasher: hasher_new(), count: 0 }
    }

    /// Adds a piece.
    pub fn push(&mut self, piece: &[u8])
        requires
            old(self).well_formed(),
            old(self)@.len() + piece@.len() <= u64::MAX,
        ensures
            final(self).well_formed(),
            final(self)@ == old(self)@ + piece@,
    {
        hasher_update(&mut self.hasher, piece);
        self.count = self.count + piece.len() as u64;
    }

    /// How many bytes were hashed.
    pub fn count(&self) -> (r: u64)
        requires
            self.well_formed(),
        ensures
            r == self@.len(),
    {
        self.count
    }

    /// The digest of all pieces together.
    pub fn finish(&self) -> (r: FileHash)
        requires
            self.well_formed(),
        ensures
            r@ == blake3_of(self@),
    {
        FileHash(hasher_finalize(&self.hasher))
    }
}

/// A byte is written as two digits of `0123456789abcdef`, the higher one first, and
/// the digits of bytes follow each other.
pub proof fn law_a_byte_is_two_digits(bytes: Seq<u8>, b: u8)
    ensures
        hex_of(bytes.push(b)) == hex_of(bytes).push(
            "0123456789abcdef"@[b as int / 16],
        ).push("0123456789abcdef"@[b as int % 16]),
        hex_of(Seq::empty()) == Seq::<char>::empty(),
{
    reveal_strlit("0123456789abcdef");
    let all = bytes.push(b);
    let n = bytes.len() as int;
    let h = hex_of(all);
    let want = hex_of(bytes).push("0123456789abcdef"@[b as int / 16]).push(
        "0123456789abcdef"@[b as int % 16],
    );
    assert forall|i: int| 0 <= i < 2 * n + 2 implies h[i] == want[i] by {
        if i < 2 * n {
            assert(all[i / 2] == bytes[i / 2]);
        }
    }
    assert(h =~= want);
}

/// A digest is written in 64 hexadecimal digits, in either case; no other text is
/// one.
pub proof fn law_which_texts_are_digests(s: Seq<char>)
    ensures
        is_digest_text(text::lower(s)) <==> s.len() == 64 && forall|i: int|
            0 <= i < 64 ==> '0' <= (#[trigger] s[i]) <= '9' || 'a' <= s[i] <= 'f' || 'A' <= s[i]
                <= 'F',
{
    let l = text::lower(s);
    assert forall|i: int| 0 <= i < s.len() implies is_hex(#[trigger] l[i]) == ('0' <= s[i] <= '9'
        || 'a' <= s[i] <= 'f' || 'A' <= s[i] <= 'F') by {
        lemma_hex_case(s[i]);
    }
    if is_digest_text(l) {
        assert forall|i: int| 0 <= i < 64 implies '0' <= (#[trigger] s[i]) <= '9' || 'a' <= s[i]
            <= 'f' || 'A' <= s[i] <= 'F' by {
            assert(is_hex(l[i]));
        }
    }
}

proof fn lemma_hex_case(c: char)
    ensures
        is_hex(text::ascii_low(c)) == ('0' <= c <= '9' || 'a' <= c <= 'f' || 'A' <= c <= 'F'),
{
}

} // verus!

//! Text as sequences of characters: UTF-8 widths, lines, trimming, searching,
//! decimal numbers.
//!
//! Strings are handled through their view, a `Seq<char>`. Code that scans text
//! works on slices of characters, so every position is a character boundary.
use vstd::prelude::*;
use vstd::slice::slice_subrange;

verus! {

// ------------------------------------------------------------------ widths

/// Bytes that `c` takes in UTF-8.
pub open spec fn utf8_width(c: char) -> nat {
    if c as u32 <= 0x7f {
        1
    } else if c as u32 <= 0x7ff {
        2
    } else if c as u32 <= 0xffff {
        3
    } else {
        4
    }
}

/// Bytes that `s` takes in UTF-8.
pub open spec fn byte_len(s: Seq<char>) -> nat
    decreases s.len(),
{
    if s.len() == 0 {
        0
    } else {
        byte_len(s.drop_last()) + utf8_width(s.last())
    }
}

/// How many leading characters of `s` fit into `budget` bytes.
pub open spec fn fit(s: Seq<char>, budget: int) -> nat
    decreases s.len(),
{
    if s.len() == 0 || utf8_width(s[0]) > budget {
        0
    } else {
        1 + fit(s.drop_first(), budget - utf8_width(s[0]))
    }
}

/// The longest prefix of `s`, in whole characters, of at most `budget` bytes.
pub open spec fn cap_to(s: Seq<char>, budget: int) -> Seq<char> {
    s.take(fit(s, budget) as int)
}

pub proof fn lemma_byte_len_add(a: Seq<char>, b: Seq<char>)
    ensures
        byte_len(a + b) == byte_len(a) + byte_len(b),
    decreases b.len(),
{
    if b.len() == 0 {
        assert(a + b =~= a);
    } else {
        assert((a + b).drop_last() =~= a + b.drop_last());
        assert((a + b).last() == b.last());
        lemma_byte_len_add(a, b.drop_last());
    }
}

pub proof fn lemma_byte_len_push(a: Seq<char>, c: char)
    ensures
        byte_len(a.push(c)) == byte_len(a) + utf8_width(c),
{
    assert(a.push(c).drop_last() =~= a);
}

pub proof fn lemma_byte_len_first(s: Seq<char>)
    requires
        s.len() > 0,
    ensures
        byte_len(s) == utf8_width(s[0]) + byte_len(s.drop_first()),
{
    assert(s =~= seq![s[0]] + s.drop_first());
    lemma_byte_len_add(seq![s[0]], s.drop_first());
    assert(seq![s[0]].drop_last() =~= Seq::<char>::empty());
    assert(byte_len(seq![s[0]]) == utf8_width(s[0])) by {
        reveal_with_fuel(byte_len, 2);
    }
}

/// [`byte_len`] is the length of the UTF-8 encoding.
pub proof fn lemma_byte_len_encode(s: Seq<char>)
    ensures
        byte_len(s) == vstd::utf8::encode_utf8(s).len(),
    decreases s.len(),
{
    if s.len() > 0 {
        lemma_byte_len_first(s);
        lemma_byte_len_encode(s.drop_first());
        vstd::utf8::char_is_scalar(s[0]);
        assert(vstd::utf8::encode_scalar(s[0] as u32).len() == utf8_width(s[0]));
    }
}

/// A sequence of `n` characters takes between `n` and `4 * n` bytes.
pub proof fn lemma_byte_len_bounds(s: Seq<char>)
    ensures
        s.len() <= byte_len(s) <= 4 * s.len(),
    decreases s.len(),
{
    if s.len() > 0 {
        lemma_byte_len_bounds(s.drop_last());
    }
}

pub proof fn lemma_byte_len_take(s: Seq<char>, n: int)
    requires
        0 <= n <= s.len(),
    ensures
        byte_len(s.take(n)) <= byte_len(s),
        byte_len(s) == byte_len(s.take(n)) + byte_len(s.skip(n)),
{
    assert(s =~= s.take(n) + s.skip(n));
    lemma_byte_len_add(s.take(n), s.skip(n));
}

pub proof fn lemma_fit(s: Seq<char>, budget: int)
    requires
        budget >= 0,
    ensures
        fit(s, budget) <= s.len(),
        byte_len(cap_to(s, budget)) <= budget,
        byte_len(s) <= budget <==> fit(s, budget) == s.len(),
        byte_len(s) <= budget ==> cap_to(s, budget) == s,
    decreases s.len(),
{
    if s.len() == 0 {
        assert(cap_to(s, budget) =~= s);
    } else if utf8_width(s[0]) > budget {
        lemma_byte_len_first(s);
        assert(cap_to(s, budget) =~= Seq::<char>::empty());
    } else {
        let rest = s.drop_first();
        let b = budget - utf8_width(s[0]);
        lemma_fit(rest, b);
        lemma_byte_len_first(s);
        let p = cap_to(s, budget);
        assert(p.drop_first() =~= cap_to(rest, b));
        lemma_byte_len_first(p);
        if fit(s, budget) == s.len() {
            assert(p =~= s);
        }
    }
}

/// Once a prefix of `s` no longer fits, extending it changes nothing.
pub proof fn lemma_fit_prefix(p: Seq<char>, s: Seq<char>, budget: int)
    requires
        budget >= 0,
        p.is_prefix_of(s),
        byte_len(p) > budget,
    ensures
        cap_to(s, budget) == cap_to(p, budget),
    decreases p.len(),
{
    lemma_fit(p, budget);
    lemma_fit_prefix_count(p, s, budget);
    assert(cap_to(s, budget) =~= cap_to(p, budget));
}

proof fn lemma_fit_prefix_count(p: Seq<char>, s: Seq<char>, budget: int)
    requires
        budget >= 0,
        p.is_prefix_of(s),
        byte_len(p) > budget,
    ensures
        fit(s, budget) == fit(p, budget),
    decreases p.len(),
{
    if p.len() > 0 {
        lemma_byte_len_first(p);
        if utf8_width(p[0]) <= budget {
            assert(p.drop_first().is_prefix_of(s.drop_first()));
            lemma_fit_prefix_count(p.drop_first(), s.drop_first(), budget - utf8_width(p[0]));
        }
    }
}

/// Bytes that `c` takes in UTF-8.
pub fn char_width(c: char) -> (r: usize)
    ensures
        r == utf8_width(c),
{
    let v: u32 = c as u32;
    if v <= 0x7f {
        1
    } else if v <= 0x7ff {
        2
    } else if v <= 0xffff {
        3
    } else {
        4
    }
}

/// The byte length of `s` where it is at most `limit`, and some number above
/// `limit` elsewhere. Looks at no more than `limit + 1` characters.
pub fn byte_len_up_to(s: &[char], limit: usize) -> (r: usize)
    requires
        limit <= usize::MAX - 4,
    ensures
        byte_len(s@) <= limit ==> r == byte_len(s@),
        byte_len(s@) > limit ==> r > limit,
{
    let mut i: usize = 0;
    let mut total: usize = 0;
    while i < s.len() && total <= limit
        invariant
            i <= s.len(),
            limit <= usize::MAX - 4,
            total <= limit + 4,
            total == byte_len(s@.take(i as int)),
        decreases s.len() - i,
    {
        proof {
            assert(s@.take(i as int + 1).drop_last() =~= s@.take(i as int));
        }
        total = total + char_width(s[i]);
        i = i + 1;
    }
    proof {
        lemma_byte_len_take(s@, i as int);
        if i == s.len() {
            assert(s@.take(i as int) =~= s@);
        }
    }
    total
}

/// How many leading characters of `s` fit into `budget` bytes.
pub fn fit_chars(s: &[char], budget: usize) -> (r: usize)
    ensures
        r == fit(s@, budget as int),
        r <= s.len(),
{
    let mut i: usize = 0;
    let mut left: usize = budget;
    proof {
        assert(s@.skip(0) =~= s@);
    }
    while i < s.len() && char_width(s[i]) <= left
        invariant
            i <= s.len(),
            fit(s@, budget as int) == i + fit(s@.skip(i as int), left as int),
        decreases s.len() - i,
    {
        proof {
            assert(s@.skip(i as int).drop_first() =~= s@.skip(i as int + 1));
        }
        left = left - char_width(s[i]);
        i = i + 1;
    }
    i
}

// ------------------------------------------------- strings and characters

/// `String::push` appends one character.
pub assume_specification[ String::push ](s: &mut String, c: char)
    ensures
        final(s)@ == old(s)@.push(c),
;

/// What the format `{:?}` writes for a string.
pub uninterp spec fn debug_of(s: Seq<char>) -> Seq<char>;

/// Formats `s` with `{:?}`, as `format!` does. The result depends on the
/// characters of `s` alone; how it quotes and escapes them is left unsaid.
#[verifier::external_body]
pub(crate) fn debug_str(s: &str) -> (r: String)
    ensures
        r@ == debug_of(s@),
{
    format!("{:?}", s)
}

/// The characters of `s`.
pub fn chars_of(s: &str) -> (r: Vec<char>)
    ensures
        r@ == s@,
{
    let mut out: Vec<char> = Vec::new();
    for c in it: s.chars()
        invariant
            out@ == it.seq().take(it.index() as int),
            it.seq() == s@,
    {
        proof {
            assert(it.seq().take(it.index() as int + 1) =~= it.seq().take(it.index() as int).push(
                c,
            ));
        }
        out.push(c);
    }
    proof {
        assert(s@.take(s@.len() as int) =~= s@);
    }
    out
}

/// Appends one character to `out`.
pub fn push_one(out: &mut String, c: char)
    ensures
        final(out)@ == old(out)@ + seq![c],
{
    out.push(c);
    proof {
        assert(old(out)@.push(c) =~= old(out)@ + seq![c]);
    }
}

/// Appends the characters of `s` to `out`.
pub fn push_chars(out: &mut String, s: &[char])
    ensures
        final(out)@ == old(out)@ + s@,
{
    let mut i: usize = 0;
    proof {
        assert(old(out)@ + s@.take(0) =~= old(out)@);
    }
    while i < s.len()
        invariant
            i <= s.len(),
            out@ == old(out)@ + s@.take(i as int),
        decreases s.len() - i,
    {
        proof {
            assert(s@.take(i as int + 1) =~= s@.take(i as int).push(s@[i as int]));
        }
        out.push(s[i]);
        i = i + 1;
    }
    proof {
        assert(s@.take(s@.len() as int) =~= s@);
    }
}

/// The string of the characters `s`.
pub fn string_of(s: &[char]) -> (r: String)
    ensures
        r@ == s@,
{
    let mut out: String = String::new();
    push_chars(&mut out, s);
    proof {
        assert(Seq::<char>::empty() + s@ =~= s@);
    }
    out
}

/// An owned copy of `s`.
pub fn copy_chars(s: &[char]) -> (r: Vec<char>)
    ensures
        r@ == s@,
{
    let mut out: Vec<char> = Vec::new();
    let mut i: usize = 0;
    while i < s.len()
        invariant
            i <= s.len(),
            out@ == s@.take(i as int),
        decreases s.len() - i,
    {
        proof {
            assert(s@.take(i as int + 1) =~= s@.take(i as int).push(s@[i as int]));
        }
        out.push(s[i]);
        i = i + 1;
    }
    proof {
        assert(s@.take(s@.len() as int) =~= s@);
    }
    out
}

/// Whether `a` and `b` hold the same characters.
pub fn chars_eq(a: &[char], b: &[char]) -> (r: bool)
    ensures
        r == (a@ == b@),
{
    if a.len() != b.len() {
        return false;
    }
    let mut i: usize = 0;
    while i < a.len()
        invariant
            i <= a.len(),
            a.len() == b.len(),
            forall|j: int| 0 <= j < i ==> a@[j] == b@[j],
        decreases a.len() - i,
    {
        if a[i] != b[i] {
            return false;
        }
        i = i + 1;
    }
    proof {
        assert(a@ =~= b@);
    }
    true
}

/// The bytes that `s` takes in UTF-8.
pub fn str_len(s: &str) -> (r: usize)
    ensures
        r == byte_len(s@),
{
    let n: usize = s.as_bytes().len();
    proof {
        lemma_byte_len_encode(s@);
    }
    n
}

/// The views of a sequence of character slices.
pub open spec fn views(parts: Seq<&[char]>) -> Seq<Seq<char>> {
    Seq::new(parts.len(), |i: int| parts[i]@)
}

/// The views of a sequence of strings.
pub open spec fn strings(parts: Seq<String>) -> Seq<Seq<char>> {
    Seq::new(parts.len(), |i: int| parts[i]@)
}

// ------------------------------------------------------- character classes

/// The Unicode property White_Space, as `char::is_whitespace` decides it.
pub open spec fn is_ws(c: char) -> bool {
    ||| 9 <= c as u32 <= 13
    ||| c as u32 == 0x20
    ||| c as u32 == 0x85
    ||| c as u32 == 0xa0
    ||| c as u32 == 0x1680
    ||| 0x2000 <= c as u32 <= 0x200a
    ||| c as u32 == 0x2028
    ||| c as u32 == 0x2029
    ||| c as u32 == 0x202f
    ||| c as u32 == 0x205f
    ||| c as u32 == 0x3000
}

/// Whether `c` is white space.
pub fn is_whitespace(c: char) -> (r: bool)
    ensures
        r == is_ws(c),
{
    let v: u32 = c as u32;
    if v < 0x80 {
        v == 0x20 || (9 <= v && v <= 13)
    } else {
        v == 0x85 || v == 0xa0 || v == 0x1680 || (0x2000 <= v && v <= 0x200a) || v == 0x2028
            || v == 0x2029 || v == 0x202f || v == 0x205f || v == 0x3000
    }
}

/// The control characters, general category Cc, as `char::is_control` decides it.
pub open spec fn is_ctl(c: char) -> bool {
    c as u32 <= 0x1f || 0x7f <= c as u32 <= 0x9f
}

/// Whether `c` is a control character.
pub fn is_control(c: char) -> (r: bool)
    ensures
        r == is_ctl(c),
{
    let v: u32 = c as u32;
    v <= 0x1f || (0x7f <= v && v <= 0x9f)
}

/// An ASCII decimal digit.
pub open spec fn is_dec_digit(c: char) -> bool {
    '0' <= c <= '9'
}

/// `c` with the ASCII letters `A` to `Z` turned to lower case.
pub open spec fn ascii_low(c: char) -> char {
    if 'A' <= c <= 'Z' {
        ((c as u32) + 32) as char
    } else {
        c
    }
}

/// `c` with the ASCII letters `A` to `Z` turned to lower case.
pub fn ascii_lower(c: char) -> (r: char)
    ensures
        r == ascii_low(c),
{
    if 'A' <= c && c <= 'Z' {
        ((c as u8) + 32) as char
    } else {
        c
    }
}

// ------------------------------------------------------------ cutting text

/// The first position of `c` in `s`, or the length of `s`.
pub open spec fn first_index(s: Seq<char>, c: char) -> int
    decreases s.len(),
{
    if s.len() == 0 || s[0] == c {
        0
    } else {
        1 + first_index(s.drop_first(), c)
    }
}

pub proof fn lemma_first_index(s: Seq<char>, c: char, n: int)
    requires
        0 <= n <= s.len(),
        n < s.len() ==> s[n] == c,
        forall|j: int| 0 <= j < n ==> s[j] != c,
    ensures
        first_index(s, c) == n,
    decreases n,
{
    if n > 0 {
        assert(s[0] != c);
        let t = s.drop_first();
        assert(n - 1 < t.len() ==> t[n - 1] == c);
        assert forall|j: int| 0 <= j < n - 1 implies t[j] != c by {
            assert(t[j] == s[j + 1]);
        }
        lemma_first_index(t, c, n - 1);
    }
}

pub proof fn lemma_first_index_props(s: Seq<char>, c: char)
    ensures
        0 <= first_index(s, c) <= s.len(),
        first_index(s, c) < s.len() ==> s[first_index(s, c)] == c,
        forall|j: int| 0 <= j < first_index(s, c) ==> s[j] != c,
        first_index(s, c) < s.len() <==> s.contains(c),
    decreases s.len(),
{
    if s.len() > 0 && s[0] != c {
        let t = s.drop_first();
        lemma_first_index_props(t, c);
        assert forall|j: int| 0 <= j < first_index(s, c) implies s[j] != c by {
            if j > 0 {
                assert(s[j] == t[j - 1]);
            }
        }
        if s.contains(c) {
            let k = choose|k: int| 0 <= k < s.len() && s[k] == c;
            assert(t[k - 1] == c);
            assert(t.contains(c));
        }
        if first_index(t, c) < t.len() {
            assert(s[first_index(t, c) + 1] == c);
        }
    }
}

/// The first position of `c` in `s`, or the length of `s`.
pub fn find_char(s: &[char], c: char) -> (r: usize)
    ensures
        r == first_index(s@, c),
        r <= s.len(),
        r < s.len() ==> s@[r as int] == c,
        forall|j: int| 0 <= j < r ==> s@[j] != c,
{
    let mut i: usize = 0;
    while i < s.len() && s[i] != c
        invariant
            i <= s.len(),
            forall|j: int| 0 <= j < i ==> s@[j] != c,
        decreases s.len() - i,
    {
        i = i + 1;
    }
    proof {
        lemma_first_index(s@, c, i as int);
    }
    i
}

/// One line without the carriage return before its line feed.
pub open spec fn strip_cr(s: Seq<char>) -> Seq<char> {
    if s.len() > 0 && s.last() == '\r' {
        s.drop_last()
    } else {
        s
    }
}

/// The lines of `s`: cut after each line feed, each without its line feed and
/// a carriage return before it. A last line without a line feed is kept as it
/// stands, and only where it is not empty.
pub open spec fn lines_of(s: Seq<char>) -> Seq<Seq<char>>
    decreases s.len(),
{
    let n = first_index(s, '\n');
    if s.len() == 0 {
        Seq::empty()
    } else if 0 <= n < s.len() {
        seq![strip_cr(s.take(n))] + lines_of(s.skip(n + 1))
    } else {
        seq![s]
    }
}

/// The lines of `s`.
pub fn split_lines(s: &[char]) -> (r: Vec<&[char]>)
    ensures
        views(r@) == lines_of(s@),
{
    let mut out: Vec<&[char]> = Vec::new();
    let mut pos: usize = 0;
    proof {
        assert(s@.skip(0) =~= s@);
        assert(views(out@) + lines_of(s@) =~= lines_of(s@));
    }
    while pos < s.len()
        invariant
            pos <= s.len(),
            views(out@) + lines_of(s@.skip(pos as int)) == lines_of(s@),
        decreases s.len() - pos,
    {
        let rest: &[char] = slice_subrange(s, pos, s.len());
        let ghost before = out@;
        proof {
            assert(rest@ =~= s@.skip(pos as int));
        }
        let n: usize = find_char(rest, '\n');
        if n < rest.len() {
            let end: usize = if n > 0 && rest[n - 1] == '\r' {
                n - 1
            } else {
                n
            };
            let line: &[char] = slice_subrange(rest, 0, end);
            proof {
                assert(line@ =~= strip_cr(rest@.take(n as int)));
                assert(rest@.skip(n as int + 1) =~= s@.skip(pos as int + n as int + 1));
            }
            out.push(line);
            pos = pos + n + 1;
            proof {
                assert(views(out@) =~= views(before).push(line@));
                assert(views(before) + (seq![line@] + lines_of(s@.skip(pos as int))) =~= views(
                    out@,
                ) + lines_of(s@.skip(pos as int)));
            }
        } else {
            out.push(rest);
            pos = s.len();
            proof {
                assert(views(out@) =~= views(before).push(rest@));
                assert(views(before) + seq![rest@] =~= views(out@) + Seq::<Seq<char>>::empty());
                assert(s@.skip(pos as int) =~= Seq::<char>::empty());
            }
        }
    }
    proof {
        assert(s@.skip(pos as int) =~= Seq::<char>::empty());
        assert(views(out@) + Seq::<Seq<char>>::empty() =~= views(out@));
    }
    out
}

/// The parts of `s` between the characters `c`: one more than `c` occurs.
pub open spec fn split_on(s: Seq<char>, c: char) -> Seq<Seq<char>>
    decreases s.len(),
{
    let n = first_index(s, c);
    if 0 <= n < s.len() {
        seq![s.take(n)] + split_on(s.skip(n + 1), c)
    } else {
        seq![s]
    }
}

/// The parts of `s` between the characters `c`.
pub fn split_at_char(s: &[char], c: char) -> (r: Vec<&[char]>)
    ensures
        views(r@) == split_on(s@, c),
{
    let mut out: Vec<&[char]> = Vec::new();
    let mut rest: &[char] = s;
    proof {
        assert(views(out@) + split_on(s@, c) =~= split_on(s@, c));
    }
    loop
        invariant
            views(out@) + split_on(rest@, c) == split_on(s@, c),
        decreases rest@.len(),
    {
        let n: usize = find_char(rest, c);
        let ghost before = out@;
        let ghost old_rest = rest@;
        if n == rest.len() {
            out.push(rest);
            proof {
                assert(views(out@) =~= views(before) + seq![rest@]);
            }
            return out;
        }
        let part: &[char] = slice_subrange(rest, 0, n);
        out.push(part);
        rest = slice_subrange(rest, n + 1, rest.len());
        proof {
            assert(part@ =~= old_rest.take(n as int));
            assert(rest@ =~= old_rest.skip(n as int + 1));
            assert(views(out@) =~= views(before).push(part@));
            assert(views(before) + split_on(old_rest, c) =~= views(out@) + split_on(rest@, c));
        }
    }
}

/// Splitting what was joined gives the parts back, where no part holds the
/// separator.
pub proof fn lemma_split_join(parts: Seq<Seq<char>>, c: char)
    requires
        parts.len() > 0,
        forall|i: int| 0 <= i < parts.len() ==> !(#[trigger] parts[i]).contains(c),
    ensures
        split_on(join(parts, seq![c]), c) == parts,
    decreases parts.len(),
{
    if parts.len() == 1 {
        lemma_first_index_props(parts[0], c);
        assert(split_on(parts[0], c) =~= parts);
    } else {
        let rest = parts.drop_first();
        lemma_join_first(parts, seq![c]);
        assert forall|i: int| 0 <= i < rest.len() implies !(#[trigger] rest[i]).contains(c) by {
            assert(rest[i] == parts[i + 1]);
        }
        lemma_split_join(rest, c);
        let whole = join(parts, seq![c]);
        let n = parts[0].len() as int;
        assert(whole =~= parts[0] + seq![c] + join(rest, seq![c]));
        assert forall|j: int| 0 <= j < n implies whole[j] != c by {
            assert(whole[j] == parts[0][j]);
            assert(!parts[0].contains(c));
        }
        assert(whole[n] == c);
        lemma_first_index(whole, c, n);
        assert(whole.take(n) =~= parts[0]);
        assert(whole.skip(n + 1) =~= join(rest, seq![c]));
        assert(split_on(whole, c) =~= parts);
    }
}

pub proof fn lemma_join_first(parts: Seq<Seq<char>>, sep: Seq<char>)
    requires
        parts.len() >= 2,
    ensures
        join(parts, sep) == parts[0] + sep + join(parts.drop_first(), sep),
    decreases parts.len(),
{
    if parts.len() == 2 {
        assert(parts.drop_last().len() == 1);
        assert(parts.drop_first().len() == 1);
        assert(join(parts.drop_last(), sep) == parts[0]);
        assert(join(parts.drop_first(), sep) == parts[1]);
    } else {
        lemma_join_first(parts.drop_last(), sep);
        assert(parts.drop_last().drop_first() =~= parts.drop_first().drop_last());
        assert(join(parts, sep) =~= parts[0] + sep + join(parts.drop_first(), sep));
    }
}

/// `s` without its leading white space.
pub open spec fn trim_start(s: Seq<char>) -> Seq<char>
    decreases s.len(),
{
    if s.len() > 0 && is_ws(s[0]) {
        trim_start(s.drop_first())
    } else {
        s
    }
}

/// `s` without its trailing white space.
pub open spec fn trim_end(s: Seq<char>) -> Seq<char>
    decreases s.len(),
{
    if s.len() > 0 && is_ws(s.last()) {
        trim_end(s.drop_last())
    } else {
        s
    }
}

/// `s` without its leading and trailing white space.
pub open spec fn trim(s: Seq<char>) -> Seq<char> {
    trim_end(trim_start(s))
}

/// `s` without its leading white space.
pub fn trimmed_start(s: &[char]) -> (r: &[char])
    ensures
        r@ == trim_start(s@),
{
    let mut i: usize = 0;
    proof {
        assert(s@.skip(0) =~= s@);
    }
    while i < s.len() && is_whitespace(s[i])
        invariant
            i <= s.len(),
            trim_start(s@) == trim_start(s@.skip(i as int)),
        decreases s.len() - i,
    {
        proof {
            assert(s@.skip(i as int).drop_first() =~= s@.skip(i as int + 1));
        }
        i = i + 1;
    }
    let r: &[char] = slice_subrange(s, i, s.len());
    proof {
        assert(r@ =~= s@.skip(i as int));
    }
    r
}

/// `s` without its trailing white space.
pub fn trimmed_end(s: &[char]) -> (r: &[char])
    ensures
        r@ == trim_end(s@),
{
    let mut n: usize = s.len();
    proof {
        assert(s@.take(n as int) =~= s@);
    }
    while n > 0 && is_whitespace(s[n - 1])
        invariant
            n <= s.len(),
            trim_end(s@) == trim_end(s@.take(n as int)),
        decreases n,
    {
        proof {
            assert(s@.take(n as int).drop_last() =~= s@.take(n as int - 1));
        }
        n = n - 1;
    }
    let r: &[char] = slice_subrange(s, 0, n);
    proof {
        assert(r@ =~= s@.take(n as int));
    }
    r
}

/// `s` without its leading and trailing white space.
pub fn trimmed(s: &[char]) -> (r: &[char])
    ensures
        r@ == trim(s@),
{
    trimmed_end(trimmed_start(s))
}

/// How many leading characters of `s` are not white space.
pub open spec fn word_end(s: Seq<char>) -> int
    decreases s.len(),
{
    if s.len() == 0 || is_ws(s[0]) {
        0
    } else {
        1 + word_end(s.drop_first())
    }
}

pub proof fn lemma_word_end(s: Seq<char>)
    ensures
        0 <= word_end(s) <= s.len(),
        s.len() > 0 && !is_ws(s[0]) ==> word_end(s) > 0,
    decreases s.len(),
{
    if s.len() > 0 && !is_ws(s[0]) {
        lemma_word_end(s.drop_first());
    }
}

pub proof fn lemma_trim_start_shorter(s: Seq<char>)
    ensures
        trim_start(s).len() <= s.len(),
        trim_start(s).len() > 0 ==> !is_ws(trim_start(s)[0]),
    decreases s.len(),
{
    if s.len() > 0 && is_ws(s[0]) {
        lemma_trim_start_shorter(s.drop_first());
    }
}

/// The maximal runs of characters of `s` that are not white space.
pub open spec fn words(s: Seq<char>) -> Seq<Seq<char>>
    decreases s.len(),
{
    let t = trim_start(s);
    proof {
        lemma_trim_start_shorter(s);
        lemma_word_end(t);
    }
    if t.len() == 0 {
        Seq::empty()
    } else {
        seq![t.take(word_end(t))] + words(t.skip(word_end(t)))
    }
}

/// The first `max` words of `s`.
pub fn split_words(s: &[char], max: usize) -> (r: Vec<&[char]>)
    ensures
        views(r@) == (if words(s@).len() <= max {
            words(s@)
        } else {
            words(s@).take(max as int)
        }),
{
    let mut out: Vec<&[char]> = Vec::new();
    let mut rest: &[char] = s;
    proof {
        assert(views(out@) + words(s@) =~= words(s@));
    }
    while out.len() < max
        invariant
            out.len() <= max,
            views(out@) + words(rest@) == words(s@),
        ensures
            out.len() <= max,
            views(out@) + words(rest@) == words(s@),
            out.len() == max || words(rest@).len() == 0,
        decreases max - out.len(),
    {
        let t: &[char] = trimmed_start(rest);
        if t.len() == 0 {
            break;
        }
        let ghost before = out@;
        let ghost old_rest = rest@;
        let mut n: usize = 0;
        proof {
            assert(t@.skip(0) =~= t@);
        }
        while n < t.len() && !is_whitespace(t[n])
            invariant
                n <= t.len(),
                word_end(t@) == n + word_end(t@.skip(n as int)),
            decreases t.len() - n,
        {
            proof {
                assert(t@.skip(n as int).drop_first() =~= t@.skip(n as int + 1));
            }
            n = n + 1;
        }
        let word: &[char] = slice_subrange(t, 0, n);
        out.push(word);
        rest = slice_subrange(t, n, t.len());
        proof {
            assert(word@ =~= t@.take(word_end(t@)));
            assert(rest@ =~= t@.skip(word_end(t@)));
            assert(views(out@) =~= views(before).push(word@));
            assert(views(before) + words(old_rest) =~= views(out@) + words(rest@));
        }
    }
    proof {
        if words(rest@).len() == 0 {
            assert(views(out@) =~= words(s@));
            assert(words(s@).take(words(s@).len() as int) =~= words(s@));
        } else {
            assert(views(out@) =~= words(s@).take(max as int));
        }
    }
    out
}

/// The parts with `sep` between each two.
pub open spec fn join(parts: Seq<Seq<char>>, sep: Seq<char>) -> Seq<char>
    decreases parts.len(),
{
    if parts.len() == 0 {
        Seq::empty()
    } else if parts.len() == 1 {
        parts[0]
    } else {
        join(parts.drop_last(), sep) + sep + parts.last()
    }
}

/// The parts with the character `sep` between each two.
pub fn join_char(parts: &Vec<&[char]>, sep: char) -> (r: Vec<char>)
    ensures
        r@ == join(views(parts@), seq![sep]),
{
    let mut out: Vec<char> = Vec::new();
    let mut i: usize = 0;
    let ghost all = views(parts@);
    while i < parts.len()
        invariant
            i <= parts.len(),
            all == views(parts@),
            out@ == join(all.take(i as int), seq![sep]),
        decreases parts.len() - i,
    {
        let ghost before = out@;
        if i > 0 {
            out.push(sep);
        }
        let part: &[char] = parts[i];
        append_chars(&mut out, part);
        proof {
            let now = all.take(i as int + 1);
            assert(now.drop_last() =~= all.take(i as int));
            assert(now.last() == part@);
            if i == 0 {
                assert(before + part@ =~= part@);
            } else {
                assert(before.push(sep) + part@ =~= before + seq![sep] + part@);
            }
        }
        i = i + 1;
    }
    proof {
        assert(all.take(all.len() as int) =~= all);
    }
    out
}

/// Appends a copy of `s` to `out`.
pub fn append_chars(out: &mut Vec<char>, s: &[char])
    ensures
        final(out)@ == old(out)@ + s@,
{
    let mut i: usize = 0;
    proof {
        assert(old(out)@ + s@.take(0) =~= old(out)@);
    }
    while i < s.len()
        invariant
            i <= s.len(),
            out@ == old(out)@ + s@.take(i as int),
        decreases s.len() - i,
    {
        proof {
            assert(s@.take(i as int + 1) =~= s@.take(i as int).push(s@[i as int]));
        }
        out.push(s[i]);
        i = i + 1;
    }
    proof {
        assert(s@.take(s@.len() as int) =~= s@);
    }
}

// --------------------------------------------------------------- searching

/// `s` begins with `p`.
pub open spec fn starts(s: Seq<char>, p: Seq<char>) -> bool {
    p.is_prefix_of(s)
}

/// `n` stands in `s` at position `i`.
pub open spec fn at(s: Seq<char>, i: int, n: Seq<char>) -> bool {
    0 <= i && i + n.len() <= s.len() && s.subrange(i, i + n.len()) == n
}

/// `n` stands somewhere in `s`.
pub open spec fn has(s: Seq<char>, n: Seq<char>) -> bool {
    exists|i: int| #[trigger] at(s, i, n)
}

/// `s` with its ASCII letters turned to lower case.
pub open spec fn lower(s: Seq<char>) -> Seq<char> {
    Seq::new(s.len(), |i: int| ascii_low(s[i]))
}

/// `n`, given in lower case, stands in `s` at position `i` up to ASCII case.
pub open spec fn at_ci(s: Seq<char>, i: int, n: Seq<char>) -> bool {
    0 <= i && i + n.len() <= s.len() && lower(s.subrange(i, i + n.len())) == n
}

/// `n`, given in lower case, stands somewhere in `s` up to ASCII case.
pub open spec fn has_ci(s: Seq<char>, n: Seq<char>) -> bool {
    exists|i: int| #[trigger] at_ci(s, i, n)
}

/// Whether `s` begins with `p`.
pub fn starts_with(s: &[char], p: &str) -> (r: bool)
    ensures
        r == starts(s@, p@),
{
    let want: Vec<char> = chars_of(p);
    starts_with_chars(s, want.as_slice())
}

/// Whether `s` begins with the characters `p`.
pub fn starts_with_chars(s: &[char], p: &[char]) -> (r: bool)
    ensures
        r == starts(s@, p@),
{
    if s.len() < p.len() {
        return false;
    }
    let mut i: usize = 0;
    while i < p.len()
        invariant
            i <= p.len(),
            p.len() <= s.len(),
            forall|j: int| 0 <= j < i ==> s@[j] == p@[j],
        decreases p.len() - i,
    {
        if s[i] != p[i] {
            proof {
                if starts(s@, p@) {
                    assert(s@.subrange(0, p@.len() as int)[i as int] == p@[i as int]);
                }
            }
            return false;
        }
        i = i + 1;
    }
    proof {
        assert(p@ =~= s@.subrange(0, p@.len() as int));
    }
    true
}

/// Whether `s` ends with `c`.
pub fn ends_with_char(s: &[char], c: char) -> (r: bool)
    ensures
        r == (s@.len() > 0 && s@.last() == c),
{
    s.len() > 0 && s[s.len() - 1] == c
}

/// Whether `n` stands in `s` at position `i`.
pub fn stands_at(s: &[char], i: usize, n: &[char]) -> (r: bool)
    requires
        i <= s.len(),
    ensures
        r == at(s@, i as int, n@),
{
    if s.len() - i < n.len() {
        return false;
    }
    let mut k: usize = 0;
    while k < n.len()
        invariant
            k <= n.len(),
            i + n.len() <= s.len(),
            forall|j: int| 0 <= j < k ==> s@[i + j] == n@[j],
        decreases n.len() - k,
    {
        if s[i + k] != n[k] {
            proof {
                if at(s@, i as int, n@) {
                    assert(s@.subrange(i as int, i + n@.len())[k as int] == n@[k as int]);
                }
            }
            return false;
        }
        k = k + 1;
    }
    proof {
        assert(s@.subrange(i as int, i + n@.len()) =~= n@);
    }
    true
}

/// Whether `n` stands somewhere in `s`.
pub fn contains(s: &[char], n: &[char]) -> (r: bool)
    ensures
        r == has(s@, n@),
{
    let mut i: usize = 0;
    loop
        invariant
            i <= s.len(),
            forall|j: int| 0 <= j < i ==> !at(s@, j, n@),
        decreases s.len() - i,
    {
        if stands_at(s, i, n) {
            return true;
        }
        if i == s.len() {
            proof {
                assert forall|j: int| !at(s@, j, n@) by {}
            }
            return false;
        }
        i = i + 1;
    }
}

/// Whether `n`, given in lower case, stands in `s` at `i` up to ASCII case.
pub fn stands_at_ci(s: &[char], i: usize, n: &[char]) -> (r: bool)
    requires
        i <= s.len(),
    ensures
        r == at_ci(s@, i as int, n@),
{
    if s.len() - i < n.len() {
        return false;
    }
    let mut k: usize = 0;
    while k < n.len()
        invariant
            k <= n.len(),
            i + n.len() <= s.len(),
            forall|j: int| 0 <= j < k ==> ascii_low(s@[i + j]) == n@[j],
        decreases n.len() - k,
    {
        if ascii_lower(s[i + k]) != n[k] {
            proof {
                if at_ci(s@, i as int, n@) {
                    let sub = s@.subrange(i as int, i + n@.len());
                    assert(lower(sub)[k as int] == n@[k as int]);
                    assert(sub[k as int] == s@[i + k]);
                }
            }
            return false;
        }
        k = k + 1;
    }
    proof {
        assert(lower(s@.subrange(i as int, i + n@.len())) =~= n@);
    }
    true
}

/// Whether `n`, given in lower case, stands somewhere in `s` up to ASCII case.
pub fn contains_ci(s: &[char], n: &str) -> (r: bool)
    ensures
        r == has_ci(s@, n@),
{
    let want: Vec<char> = chars_of(n);
    let mut i: usize = 0;
    loop
        invariant
            i <= s.len(),
            want@ == n@,
            forall|j: int| 0 <= j < i ==> !at_ci(s@, j, n@),
        decreases s.len() - i,
    {
        if stands_at_ci(s, i, want.as_slice()) {
            return true;
        }
        if i == s.len() {
            proof {
                assert forall|j: int| !at_ci(s@, j, n@) by {}
            }
            return false;
        }
        i = i + 1;
    }
}

// ----------------------------------------------------------------- numbers

/// The digit of value `d`.
pub open spec fn digit_char(d: nat) -> char
    recommends
        d < 10,
{
    (('0' as u32) + d) as char
}

/// `n` in decimal, without leading zeros.
pub open spec fn decimal(n: nat) -> Seq<char>
    decreases n,
{
    if n < 10 {
        seq![digit_char(n)]
    } else {
        decimal(n / 10).push(digit_char(n % 10))
    }
}

/// `n` in decimal, with a sign where it is negative.
pub open spec fn signed_decimal(n: int) -> Seq<char> {
    if n < 0 {
        seq!['-'] + decimal((-n) as nat)
    } else {
        decimal(n as nat)
    }
}

/// All characters of `s` are decimal digits.
pub open spec fn all_digits(s: Seq<char>) -> bool {
    forall|i: int| 0 <= i < s.len() ==> is_dec_digit(#[trigger] s[i])
}

/// The number that the digits `s` write in decimal.
pub open spec fn digits_value(s: Seq<char>) -> nat
    recommends
        all_digits(s),
    decreases s.len(),
{
    if s.len() == 0 {
        0
    } else {
        (10 * digits_value(s.drop_last()) + (s.last() as int - '0' as int)) as nat
    }
}

/// `s` without one leading plus sign.
pub open spec fn unsigned_digits(s: Seq<char>) -> Seq<char> {
    if s.len() > 0 && s[0] == '+' {
        s.drop_first()
    } else {
        s
    }
}

/// What parsing `s` as an unsigned number up to `max` gives, as `str::parse`
/// decides it: an optional plus sign and at least one decimal digit.
pub open spec fn parsed(s: Seq<char>, max: nat) -> Option<nat> {
    let d = unsigned_digits(s);
    if d.len() > 0 && all_digits(d) && digits_value(d) <= max {
        Some(digits_value(d))
    } else {
        None
    }
}

pub proof fn lemma_digits_value_grows(s: Seq<char>, n: int)
    requires
        all_digits(s),
        0 <= n <= s.len(),
    ensures
        digits_value(s.take(n)) <= digits_value(s),
    decreases s.len() - n,
{
    if n == s.len() {
        assert(s.take(n) =~= s);
    } else {
        let t = s.take(n + 1);
        assert(t.drop_last() =~= s.take(n));
        assert(is_dec_digit(s[n]));
        assert(t.last() == s[n]);
        lemma_digits_value_grows(s, n + 1);
    }
}

/// Writing a number in decimal and reading it back gives the number.
pub proof fn lemma_decimal_value(n: nat)
    ensures
        decimal(n).len() > 0,
        all_digits(decimal(n)),
        digits_value(decimal(n)) == n,
    decreases n,
{
    if n < 10 {
        assert(seq![digit_char(n)].drop_last() =~= Seq::<char>::empty());
        reveal_with_fuel(digits_value, 2);
    } else {
        lemma_decimal_value(n / 10);
        let a = decimal(n / 10);
        assert(decimal(n).drop_last() =~= a);
        assert forall|i: int| 0 <= i < decimal(n).len() implies is_dec_digit(
            #[trigger] decimal(n)[i],
        ) by {
            if i < a.len() {
                assert(decimal(n)[i] == a[i]);
            }
        }
    }
}

/// Parses `s` as an unsigned number of at most `max`.
pub fn parse_unsigned(s: &[char], max: u64) -> (r: Option<u64>)
    ensures
        r matches Some(v) ==> parsed(s@, max as nat) == Some(v as nat),
        r is None ==> parsed(s@, max as nat) is None,
{
    let start: usize = if s.len() > 0 && s[0] == '+' {
        1
    } else {
        0
    };
    let ghost d = unsigned_digits(s@);
    proof {
        assert(d =~= s@.skip(start as int));
    }
    if s.len() == start {
        return None;
    }
    let mut i: usize = start;
    let mut value: u64 = 0;
    while i < s.len()
        invariant
            start <= i <= s.len(),
            start == 0 || start == 1,
            d == s@.skip(start as int),
            d == unsigned_digits(s@),
            all_digits(d.take(i - start)),
            value == digits_value(d.take(i - start)),
            value <= max,
        decreases s.len() - i,
    {
        let c: char = s[i];
        let ghost k = i - start;
        proof {
            assert(d[k] == c);
            assert(d.take(k + 1).drop_last() =~= d.take(k));
        }
        if !('0' <= c && c <= '9') {
            proof {
                assert(!is_dec_digit(d[k]));
            }
            return None;
        }
        let digit: u64 = (c as u64) - 48;
        proof {
            assert(all_digits(d.take(k + 1))) by {
                assert forall|j: int| 0 <= j < k + 1 implies is_dec_digit(
                    #[trigger] d.take(k + 1)[j],
                ) by {
                    if j < k {
                        assert(d.take(k)[j] == d.take(k + 1)[j]);
                    }
                }
            }
            assert(digits_value(d.take(k + 1)) == 10 * value + digit);
        }
        let overflow: bool = value > (u64::MAX - digit) / 10 || value * 10 + digit > max;
        if overflow {
            proof {
                if all_digits(d) {
                    lemma_digits_value_grows(d, k + 1);
                }
            }
            return None;
        }
        value = value * 10 + digit;
        i = i + 1;
    }
    proof {
        assert(d.take(d.len() as int) =~= d);
    }
    Some(value)
}

/// Appends `n` in decimal to `out`.
pub fn push_decimal(out: &mut String, n: u64)
    ensures
        final(out)@ == old(out)@ + decimal(n as nat),
    decreases n,
{
    let d: u8 = (n % 10) as u8;
    if n >= 10 {
        push_decimal(out, n / 10);
    }
    out.push((48 + d) as char);
    proof {
        assert(digit_char((n % 10) as nat) == (48 + d) as char);
        if n >= 10 {
            assert(old(out)@ + decimal((n / 10) as nat).push(digit_char((n % 10) as nat)) =~= (old(
                out,
            )@ + decimal((n / 10) as nat)).push(digit_char((n % 10) as nat)));
        } else {
            assert(old(out)@ + seq![digit_char(n as nat)] =~= old(out)@.push(digit_char(n as nat)));
        }
    }
}

/// Appends `n` in decimal, with its sign, to `out`.
pub fn push_signed(out: &mut String, n: i64)
    ensures
        final(out)@ == old(out)@ + signed_decimal(n as int),
{
    if n >= 0 {
        push_decimal(out, n as u64);
    } else {
        out.push('-');
        let m: u64 = (0 - (n + 1)) as u64 + 1;
        push_decimal(out, m);
        proof {
            assert(old(out)@.push('-') + decimal(m as nat) =~= old(out)@ + (seq!['-'] + decimal(
                m as nat,
            )));
        }
    }
}

/// The decimal form of a number below `10^k` has at most `k` characters, and
/// takes one byte for each.
pub proof fn lemma_decimal_short(n: nat, k: nat)
    requires
        k >= 1,
        n < vstd::arithmetic::power::pow(10, k),
    ensures
        1 <= decimal(n).len() <= k,
        byte_len(decimal(n)) == decimal(n).len(),
    decreases n,
{
    reveal(vstd::arithmetic::power::pow);
    if n < 10 {
        assert(seq![digit_char(n)].drop_last() =~= Seq::<char>::empty());
        reveal_with_fuel(byte_len, 2);
    } else {
        if k == 1 {
            assert(vstd::arithmetic::power::pow(10, 1) == 10 * vstd::arithmetic::power::pow(10, 0));
            assert(false);
        }
        assert(vstd::arithmetic::power::pow(10, k) == 10 * vstd::arithmetic::power::pow(
            10,
            (k - 1) as nat,
        ));
        lemma_decimal_short(n / 10, (k - 1) as nat);
        lemma_byte_len_push(decimal(n / 10), digit_char(n % 10));
    }
}

/// `a` and `b`, one behind the other.
pub fn cat2(a: &str, b: &str) -> (r: String)
    ensures
        r@ == a@ + b@,
{
    let mut out: String = a.to_owned();
    out.append(b);
    out
}

/// `a`, `b` and `c`, one behind the other.
pub fn cat3(a: &str, b: &str, c: &str) -> (r: String)
    ensures
        r@ == a@ + b@ + c@,
{
    let mut out: String = a.to_owned();
    out.append(b);
    out.append(c);
    out
}

/// `a` to `d`, one behind the other.
pub fn cat4(a: &str, b: &str, c: &str, d: &str) -> (r: String)
    ensures
        r@ == a@ + b@ + c@ + d@,
{
    let mut out: String = a.to_owned();
    out.append(b);
    out.append(c);
    out.append(d);
    out
}

/// `a` to `e`, one behind the other.
pub fn cat5(a: &str, b: &str, c: &str, d: &str, e: &str) -> (r: String)
    ensures
        r@ == a@ + b@ + c@ + d@ + e@,
{
    let mut out: String = a.to_owned();
    out.append(b);
    out.append(c);
    out.append(d);
    out.append(e);
    out
}

/// `n` in decimal.
pub fn decimal_text(n: u64) -> (r: String)
    ensures
        r@ == decimal(n as nat),
{
    let mut out: String = String::new();
    push_decimal(&mut out, n);
    proof {
        assert(Seq::<char>::empty() + decimal(n as nat) =~= decimal(n as nat));
    }
    out
}

// -------------------------------------------------------------------- laws

/// A line ends at its line feed: what stands before the first line feed is the
/// first line, without a carriage return at its end, and the lines of what
/// follows come behind it. Text without a line feed is one line as it stands,
/// and no text is no line.
pub proof fn law_lines_end_at_line_feeds(line: Seq<char>, rest: Seq<char>)
    requires
        !line.contains('\n'),
    ensures
        line.len() == 0 || line.last() != '\r' ==> lines_of(line + seq!['\n'] + rest) == seq![line]
            + lines_of(rest),
        lines_of(line + seq!['\r', '\n'] + rest) == seq![line] + lines_of(rest),
        line.len() > 0 ==> lines_of(line) == seq![line],
        lines_of(Seq::empty()) == Seq::<Seq<char>>::empty(),
{
    lemma_one_line(line, rest);
    let cr = line + seq!['\r'];
    assert(!cr.contains('\n')) by {
        if cr.contains('\n') {
            let k = choose|k: int| 0 <= k < cr.len() && cr[k] == '\n';
            assert(line[k] == '\n');
            assert(line.contains('\n'));
        }
    }
    lemma_one_line(cr, rest);
    assert(cr + seq!['\n'] + rest =~= line + seq!['\r', '\n'] + rest);
    assert(strip_cr(cr) =~= line);
    lemma_first_index_props(line, '\n');
    if line.len() > 0 {
        assert(lines_of(line) =~= seq![line]);
    }
}

proof fn lemma_one_line(line: Seq<char>, rest: Seq<char>)
    requires
        !line.contains('\n'),
    ensures
        lines_of(line + seq!['\n'] + rest) == seq![strip_cr(line)] + lines_of(rest),
{
    let s = line + seq!['\n'] + rest;
    let n = line.len() as int;
    assert forall|j: int| 0 <= j < n implies s[j] != '\n' by {
        assert(s[j] == line[j]);
        assert(line.contains(line[j]));
    }
    assert(s[n] == '\n');
    lemma_first_index(s, '\n', n);
    assert(s.take(n) =~= line);
    assert(s.skip(n + 1) =~= rest);
}

/// The lines of two texts stand behind each other, where the first ends with a
/// line feed.
pub proof fn law_lines_of_texts_follow_on(a: Seq<char>, b: Seq<char>)
    requires
        a.len() == 0 || a.last() == '\n',
    ensures
        lines_of(a + b) == lines_of(a) + lines_of(b),
    decreases a.len(),
{
    if a.len() == 0 {
        assert(a + b =~= b);
        assert(lines_of(a) + lines_of(b) =~= lines_of(b));
    } else {
        lemma_first_index_props(a, '\n');
        let n = first_index(a, '\n');
        assert(a.contains('\n')) by {
            assert(a[a.len() - 1] == '\n');
        }
        let rest = a.skip(n + 1);
        assert(!a.take(n).contains('\n'));
        if rest.len() > 0 {
            assert(rest.last() == a.last());
        }
        law_lines_of_texts_follow_on(rest, b);
        lemma_one_line(a.take(n), rest);
        lemma_one_line(a.take(n), rest + b);
        assert(a =~= a.take(n) + seq!['\n'] + rest);
        assert(a + b =~= a.take(n) + seq!['\n'] + (rest + b));
        assert(lines_of(a + b) =~= lines_of(a) + lines_of(b));
    }
}

/// No line of a text holds a line feed.
pub proof fn law_no_line_holds_a_line_feed(s: Seq<char>, i: int)
    requires
        0 <= i < lines_of(s).len(),
    ensures
        !lines_of(s)[i].contains('\n'),
    decreases s.len(),
{
    lemma_first_index_props(s, '\n');
    let n = first_index(s, '\n');
    if 0 <= n < s.len() {
        if i == 0 {
            let l = strip_cr(s.take(n));
            assert(lines_of(s)[0] == l);
            assert forall|j: int| 0 <= j < l.len() implies l[j] != '\n' by {
                assert(l[j] == s[j]);
            }
        } else {
            law_no_line_holds_a_line_feed(s.skip(n + 1), i - 1);
            assert(lines_of(s)[i] == lines_of(s.skip(n + 1))[i - 1]);
        }
    }
}

/// Which characters count as white space.
pub proof fn law_white_space(c: char)
    ensures
        is_ws(c) <==> (c == '\t' || c == '\n' || c == '\u{b}' || c == '\u{c}' || c == '\r' || c
            == ' ' || c == '\u{85}' || c == '\u{a0}' || c == '\u{1680}' || '\u{2000}' <= c
            <= '\u{200a}' || c == '\u{2028}' || c == '\u{2029}' || c == '\u{202f}' || c
            == '\u{205f}' || c == '\u{3000}'),
{
}

/// White space around a text that neither begins nor ends with it is trimmed,
/// and nothing else is.
pub proof fn law_trimming_leaves_the_text(before: Seq<char>, s: Seq<char>, after: Seq<char>)
    requires
        forall|i: int| 0 <= i < before.len() ==> is_ws(#[trigger] before[i]),
        forall|i: int| 0 <= i < after.len() ==> is_ws(#[trigger] after[i]),
        s.len() > 0 ==> !is_ws(s[0]) && !is_ws(s.last()),
    ensures
        trim(before + s + after) == s,
    decreases before.len() + after.len(),
{
    let whole = before + s + after;
    if s.len() > 0 {
        if before.len() > 0 {
            assert(whole[0] == before[0]);
            assert(whole.drop_first() =~= before.drop_first() + s + after);
            law_trimming_leaves_the_text(before.drop_first(), s, after);
        } else if after.len() > 0 {
            assert(whole[0] == s[0]);
            assert(whole.last() == after.last());
            assert(whole.drop_last() =~= before + s + after.drop_last());
            assert(trim_start(whole) == whole);
            assert(whole.drop_last()[0] == s[0]);
            assert(trim_start(whole.drop_last()) == whole.drop_last());
            law_trimming_leaves_the_text(before, s, after.drop_last());
        } else {
            assert(whole =~= s);
        }
    } else {
        lemma_trim_all(whole);
        assert(s =~= Seq::empty());
    }
}

proof fn lemma_trim_all(s: Seq<char>)
    requires
        forall|i: int| 0 <= i < s.len() ==> is_ws(#[trigger] s[i]),
    ensures
        trim_start(s) == Seq::<char>::empty(),
        trim(s) == Seq::<char>::empty(),
    decreases s.len(),
{
    if s.len() > 0 {
        lemma_trim_all(s.drop_first());
    } else {
        assert(s =~= Seq::empty());
    }
}

/// A number in decimal reads back as the number, with or without a plus sign,
/// where it is not above the limit, and is refused where it is. It has no leading
/// zero, but for zero itself.
pub proof fn law_decimals_read_back(n: nat, max: nat)
    ensures
        parsed(decimal(n), max) == (if n <= max {
            Some(n)
        } else {
            None
        }),
        parsed(seq!['+'] + decimal(n), max) == parsed(decimal(n), max),
        n > 0 ==> decimal(n)[0] != '0',
        n < 10 ==> decimal(n) == seq![(('0' as u32) + n) as char],
{
    lemma_decimal_value(n);
    let d = decimal(n);
    assert(is_dec_digit(d[0]));
    assert((seq!['+'] + d).drop_first() =~= d);
    lemma_no_leading_zero(n);
}

proof fn lemma_no_leading_zero(n: nat)
    ensures
        n > 0 ==> decimal(n)[0] != '0',
    decreases n,
{
    if n >= 10 {
        lemma_decimal_value(n / 10);
        lemma_no_leading_zero(n / 10);
    }
}

/// What is no run of decimal digits, behind at most one plus sign, is no number.
pub proof fn law_only_digits_are_numbers(s: Seq<char>, max: nat, i: int)
    requires
        0 <= i < s.len(),
        !('0' <= s[i] <= '9'),
        i > 0 || s[i] != '+' || s.len() == 1,
    ensures
        parsed(s, max) is None,
        parsed(Seq::empty(), max) is None,
{
    if s[0] == '+' && i > 0 {
        assert(s.drop_first()[i - 1] == s[i]);
    }
}

/// The digits of a number count tens.
pub proof fn law_a_digit_more_is_ten_times_as_much(s: Seq<char>, d: nat)
    requires
        d < 10,
    ensures
        digits_value(s.push((('0' as u32) + d) as char)) == 10 * digits_value(s) + d,
        digits_value(Seq::empty()) == 0,
{
    assert(s.push((('0' as u32) + d) as char).drop_last() =~= s);
}

/// Text cut to a number of bytes is the longest beginning of it that fits.
pub proof fn law_a_cap_leaves_the_longest_prefix(s: Seq<char>, budget: int, n: int)
    requires
        budget >= 0,
        0 <= n <= s.len(),
    ensures
        cap_to(s, budget).is_prefix_of(s),
        vstd::utf8::encode_utf8(cap_to(s, budget)).len() <= budget,
        vstd::utf8::encode_utf8(s.take(n)).len() <= budget ==> n <= cap_to(s, budget).len(),
{
    lemma_fit(s, budget);
    lemma_byte_len_encode(cap_to(s, budget));
    lemma_byte_len_encode(s.take(n));
    let k = fit(s, budget) as int;
    if k < n {
        lemma_fit_is_most(s, budget);
        let t = s.take(n);
        lemma_byte_len_take(t, k + 1);
        assert(t.take(k + 1) =~= s.take(k + 1));
    }
}

proof fn lemma_fit_is_most(s: Seq<char>, budget: int)
    requires
        budget >= 0,
    ensures
        fit(s, budget) <= s.len(),
        fit(s, budget) < s.len() ==> byte_len(s.take(fit(s, budget) as int + 1)) > budget,
    decreases s.len(),
{
    if s.len() > 0 {
        let k = fit(s, budget) as int;
        if utf8_width(s[0]) > budget {
            lemma_byte_len_first(s.take(1));
        } else {
            lemma_fit_is_most(s.drop_first(), budget - utf8_width(s[0]));
            if k < s.len() {
                lemma_byte_len_first(s.take(k + 1));
                assert(s.take(k + 1).drop_first() =~= s.drop_first().take(k));
            }
        }
    }
}

/// Words are what stands between white space: a word with white space behind it
/// comes first, whatever white space stands before it, and the words of the rest
/// follow.
pub proof fn law_words_stand_between_white_space(
    before: Seq<char>,
    word: Seq<char>,
    gap: char,
    rest: Seq<char>,
)
    requires
        forall|i: int| 0 <= i < before.len() ==> is_ws(#[trigger] before[i]),
        word.len() > 0,
        forall|i: int| 0 <= i < word.len() ==> !is_ws(#[trigger] word[i]),
        is_ws(gap),
    ensures
        words(before + word) == seq![word],
        words(before + word + seq![gap] + rest) == seq![word] + words(rest),
        words(before) == Seq::<Seq<char>>::empty(),
{
    lemma_trim_all(before);
    lemma_leading(before, word);
    lemma_word_whole(word, Seq::empty());
    assert(word + Seq::<char>::empty() =~= word);
    assert(words(word.skip(word.len() as int)) =~= Seq::<Seq<char>>::empty());
    assert(word.take(word.len() as int) =~= word);
    assert(words(before + word) =~= seq![word]);
    let tail = seq![gap] + rest;
    lemma_leading(before, word + tail);
    lemma_word_whole(word, tail);
    assert(before + word + seq![gap] + rest =~= before + (word + tail));
    assert((word + tail).take(word.len() as int) =~= word);
    assert((word + tail).skip(word.len() as int) =~= tail);
    assert(tail.drop_first() =~= rest);
    assert(trim_start(tail) == trim_start(rest));
    assert(words(tail) == words(rest));
}

proof fn lemma_leading(before: Seq<char>, s: Seq<char>)
    requires
        forall|i: int| 0 <= i < before.len() ==> is_ws(#[trigger] before[i]),
        s.len() > 0,
        !is_ws(s[0]),
    ensures
        trim_start(before + s) == s,
    decreases before.len(),
{
    if before.len() == 0 {
        assert(before + s =~= s);
    } else {
        assert((before + s)[0] == before[0]);
        assert((before + s).drop_first() =~= before.drop_first() + s);
        lemma_leading(before.drop_first(), s);
    }
}

proof fn lemma_word_whole(word: Seq<char>, tail: Seq<char>)
    requires
        forall|i: int| 0 <= i < word.len() ==> !is_ws(#[trigger] word[i]),
        tail.len() > 0 ==> is_ws(tail[0]),
    ensures
        word_end(word + tail) == word.len(),
    decreases word.len(),
{
    if word.len() == 0 {
        assert(word + tail =~= tail);
    } else {
        assert((word + tail)[0] == word[0]);
        assert((word + tail).drop_first() =~= word.drop_first() + tail);
        lemma_word_whole(word.drop_first(), tail);
    }
}

/// A text holds another wherever it stands in it, and nowhere else.
pub proof fn law_a_text_is_found_anywhere(a: Seq<char>, n: Seq<char>, b: Seq<char>, s: Seq<char>)
    ensures
        has(a + n + b, n),
        has(s, n) ==> exists|x: Seq<char>, y: Seq<char>| s == #[trigger] (x + n + y),
{
    let whole = a + n + b;
    assert(whole.subrange(a.len() as int, (a.len() + n.len()) as int) =~= n);
    assert(at(whole, a.len() as int, n));
    if has(s, n) {
        let i = choose|i: int| #[trigger] at(s, i, n);
        let x = s.take(i);
        let y = s.skip(i + n.len());
        assert(s =~= x + n + y);
    }
}

/// The same up to the case of ASCII letters.
pub proof fn law_a_word_is_found_in_any_case(
    a: Seq<char>,
    written: Seq<char>,
    b: Seq<char>,
    n: Seq<char>,
    s: Seq<char>,
)
    requires
        written.len() == n.len(),
        forall|i: int| 0 <= i < n.len() ==> #[trigger] written[i] == n[i] || ('A' <= written[i] <= 'Z'
            && n[i] as int == written[i] as int + 32),
        forall|i: int| 0 <= i < n.len() ==> !('A' <= #[trigger] n[i] <= 'Z'),
    ensures
        has_ci(a + written + b, n),
        has_ci(s, n) ==> exists|i: int|
            0 <= i && i + n.len() <= s.len() && #[trigger] at_ci(s, i, n) && forall|j: int|
                0 <= j < n.len() ==> s[i + j] == #[trigger] n[j] || ('A' <= s[i + j] <= 'Z'
                    && n[j] as int == s[i + j] as int + 32),
{
    let whole = a + written + b;
    let part = whole.subrange(a.len() as int, (a.len() + n.len()) as int);
    assert(part =~= written);
    assert(lower(part) =~= n);
    assert(at_ci(whole, a.len() as int, n));
    if has_ci(s, n) {
        let i = choose|i: int| #[trigger] at_ci(s, i, n);
        let found = s.subrange(i, i + n.len());
        assert forall|j: int| 0 <= j < n.len() implies s[i + j] == #[trigger] n[j] || ('A' <= s[i
            + j] <= 'Z' && n[j] as int == s[i + j] as int + 32) by {
            assert(lower(found)[j] == n[j]);
            assert(found[j] == s[i + j]);
        }
    }
}

/// Parts with a separator between each two: the first part stands alone, and
/// each further one follows behind a separator.
pub proof fn law_joining_puts_the_separator_between(parts: Seq<Seq<char>>, part: Seq<char>, sep: Seq<char>)
    ensures
        join(Seq::empty(), sep) == Seq::<char>::empty(),
        join(seq![part], sep) == part,
        parts.len() > 0 ==> join(parts.push(part), sep) == join(parts, sep) + sep + part,
{
    assert(parts.push(part).drop_last() =~= parts);
}

/// A text begins with another where that and something more make it up.
pub proof fn law_a_text_begins_with_its_prefix(p: Seq<char>, rest: Seq<char>, s: Seq<char>)
    ensures
        starts(p + rest, p),
        starts(s, p) ==> s == p + s.skip(p.len() as int),
        s.len() < p.len() ==> !starts(s, p),
{
    assert(p =~= (p + rest).subrange(0, p.len() as int));
    if starts(s, p) {
        assert(s =~= p + s.skip(p.len() as int));
    }
}

/// Of a number below zero the sign and the digits are written.
pub proof fn law_signs_are_written(n: nat)
    ensures
        signed_decimal(n as int) == decimal(n),
        n > 0 ==> signed_decimal(-(n as int)) == seq!['-'] + decimal(n),
{
}

/// In lower case, the letters `A` to `Z` are `a` to `z`, and all else is as it was.
pub proof fn law_only_ascii_letters_change_case(s: Seq<char>, c: char)
    ensures
        lower(s).len() == s.len(),
        lower(s.push(c)) == lower(s).push(
            if 'A' <= c <= 'Z' {
                ((c as u32) + 32) as char
            } else {
                c
            },
        ),
{
    assert(lower(s.push(c)) =~= lower(s).push(ascii_low(c)));
}

/// Which characters are control characters.
pub proof fn law_control_characters(c: char)
    ensures
        is_ctl(c) <==> c < ' ' || '\u{7f}' <= c <= '\u{9f}',
{
}

} // verus!

use vstd::prelude::*;
use vstd::utf8::{
    codepoint_width_1, codepoint_width_2, codepoint_width_3, codepoint_width_4, decode_utf8,
    encode_scalar, encode_utf8, encode_utf8_first_scalar, length_of_first_codepoint, valid_utf8,
};

verus! {

/// The code of `%`, which matches any run of characters.
pub const ANY_RUN: u32 = 0x25;

/// The code of `_`, which matches any one character.
pub const ANY_ONE: u32 = 0x5F;

/// The character code `c` with ASCII upper-case letters folded to lower
/// case; the only case folding SQLite's `LIKE` does by default.
pub open spec fn ascii_fold(c: u32) -> u32 {
    if 65 <= c <= 90 {
        (c + 32) as u32
    } else {
        c
    }
}

/// SQL `s LIKE p` as SQLite evaluates it without an `ESCAPE` clause, on the
/// character codes it reads from pattern and text: `%` matches any run of
/// characters, `_` any one character, and any other character itself,
/// ignoring the case of ASCII letters.
pub open spec fn like_match(p: Seq<u32>, s: Seq<u32>) -> bool
    decreases p.len(), s.len(),
{
    if p.len() == 0 {
        s.len() == 0
    } else if p[0] == ANY_RUN {
        like_match(p.drop_first(), s) || (s.len() > 0 && like_match(p, s.drop_first()))
    } else if s.len() == 0 {
        false
    } else if p[0] == ANY_ONE || ascii_fold(p[0]) == ascii_fold(s[0]) {
        like_match(p.drop_first(), s.drop_first())
    } else {
        false
    }
}

spec fn like_at(p: Seq<u32>, s: Seq<u32>, i: int, j: int) -> bool {
    like_match(p.skip(i), s.skip(j))
}

proof fn lemma_like_at_end(p: Seq<u32>, s: Seq<u32>, j: int)
    requires
        0 <= j <= s.len(),
    ensures
        like_at(p, s, p.len() as int, j) == (j == s.len()),
{
    assert(p.skip(p.len() as int).len() == 0);
}

proof fn lemma_like_at_step(p: Seq<u32>, s: Seq<u32>, i: int, j: int)
    requires
        0 <= i < p.len(),
        0 <= j <= s.len(),
    ensures
        like_at(p, s, i, j) == (if p[i] == ANY_RUN {
            like_at(p, s, i + 1, j) || (j < s.len() && like_at(p, s, i, j + 1))
        } else if j == s.len() {
            false
        } else if p[i] == ANY_ONE || ascii_fold(p[i]) == ascii_fold(s[j]) {
            like_at(p, s, i + 1, j + 1)
        } else {
            false
        }),
{
    let ps = p.skip(i);
    let ss = s.skip(j);
    assert(ps[0] == p[i]);
    assert(ps.drop_first() =~= p.skip(i + 1));
    if j < s.len() {
        assert(ss[0] == s[j]);
        assert(ss.drop_first() =~= s.skip(j + 1));
    }
}

fn fold_code(c: u32) -> (u: u32)
    ensures
        u == ascii_fold(c),
{
    if 65 <= c && c <= 90 {
        c + 32
    } else {
        c
    }
}

/// Whether `s` matches the SQL `LIKE` pattern `p`.
pub fn like(p: &Vec<u32>, s: &Vec<u32>) -> (b: bool)
    ensures
        b == like_match(p@, s@),
{
    let n = p.len();
    let m = s.len();
    // `next` holds the row of pattern position i + 1: next[j] says whether
    // the pattern from i + 1 matches the text from j.
    let mut next: Vec<bool> = Vec::new();
    while next.len() <= m
        invariant
            next.len() <= m + 1,
            forall|k: int| 0 <= k < next.len() ==> next@[k] == (k == m),
        decreases m + 1 - next.len(),
    {
        let last = next.len() == m;
        next.push(last);
    }
    proof {
        assert forall|k: int| 0 <= k <= m implies next@[k] == like_at(p@, s@, n as int, k) by {
            lemma_like_at_end(p@, s@, k);
        }
    }
    let mut i: usize = n;
    while i > 0
        invariant
            i <= n,
            n == p.len(),
            m == s.len(),
            next.len() == m + 1,
            forall|k: int| 0 <= k <= m ==> next@[k] == like_at(p@, s@, i as int, k),
        decreases i,
    {
        i = i - 1;
        let pc = p[i];
        let mut cur: Vec<bool> = next.clone();
        let mut j: usize = m + 1;
        while j > 0
            invariant
                i < n,
                n == p.len(),
                m == s.len(),
                pc == p@[i as int],
                j <= m + 1,
                next.len() == m + 1,
                cur.len() == m + 1,
                forall|k: int| 0 <= k <= m ==> next@[k] == like_at(p@, s@, i + 1, k),
                forall|k: int| j <= k <= m ==> cur@[k] == like_at(p@, s@, i as int, k),
            decreases j,
        {
            j = j - 1;
            proof {
                lemma_like_at_step(p@, s@, i as int, j as int);
            }
            let v = if pc == ANY_RUN {
                next[j] || (j < m && cur[j + 1])
            } else if j == m {
                false
            } else if pc == ANY_ONE || fold_code(pc) == fold_code(s[j]) {
                next[j + 1]
            } else {
                false
            };
            cur.set(j, v);
        }
        next = cur;
    }
    proof {
        assert(p@.skip(0) =~= p@);
        assert(s@.skip(0) =~= s@);
    }
    next[0]
}

/// `%` alone matches any text.
proof fn lemma_percent_matches_all(s: Seq<u32>)
    ensures
        like_match(seq![ANY_RUN], s),
    decreases s.len(),
{
    let p = seq![ANY_RUN];
    assert(p.len() == 1 && p[0] == ANY_RUN);
    assert(p.drop_first() =~= Seq::<u32>::empty());
    if s.len() > 0 {
        lemma_percent_matches_all(s.drop_first());
    } else {
        assert(like_match(p.drop_first(), s));
    }
}

/// A leading `%` lets the rest of the pattern match any suffix.
proof fn lemma_percent_skips(r: Seq<u32>, s: Seq<u32>, k: int)
    requires
        0 <= k <= s.len(),
        like_match(r, s.skip(k)),
    ensures
        like_match(seq![ANY_RUN] + r, s),
    decreases k,
{
    let p = seq![ANY_RUN] + r;
    assert(p.drop_first() =~= r);
    if k == 0 {
        assert(s.skip(0) =~= s);
    } else {
        assert(s.drop_first().skip(k - 1) =~= s.skip(k));
        lemma_percent_skips(r, s.drop_first(), k - 1);
    }
}

/// `q` occurs in `s` at position `i`, ASCII letters compared without regard
/// to case.
pub open spec fn occurs_at_ignoring_ascii_case(s: Seq<u32>, q: Seq<u32>, i: int) -> bool {
    &&& 0 <= i
    &&& i + q.len() <= s.len()
    &&& forall|k: int| 0 <= k < q.len() ==> ascii_fold(s[i + k]) == ascii_fold(#[trigger] q[k])
}

/// A pattern free of wildcards, followed by `%`, matches exactly the texts
/// that start with it (ASCII letters compared without regard to case).
proof fn lemma_literal_prefix(q: Seq<u32>, t: Seq<u32>)
    requires
        forall|i: int| 0 <= i < q.len() ==> (#[trigger] q[i]) != ANY_RUN && q[i] != ANY_ONE,
    ensures
        like_match(q + seq![ANY_RUN], t) <==> occurs_at_ignoring_ascii_case(t, q, 0),
    decreases q.len(),
{
    let p = q + seq![ANY_RUN];
    if q.len() == 0 {
        assert(p =~= seq![ANY_RUN]);
        lemma_percent_matches_all(t);
    } else {
        assert(p[0] == q[0]);
        assert(p.drop_first() =~= q.drop_first() + seq![ANY_RUN]);
        lemma_literal_prefix(q.drop_first(), t.drop_first());
        if t.len() > 0 {
            let q1 = q.drop_first();
            let t1 = t.drop_first();
            if occurs_at_ignoring_ascii_case(t, q, 0) {
                assert(ascii_fold(t[0]) == ascii_fold(q[0]));
                assert forall|k: int| 0 <= k < q1.len() implies ascii_fold(t1[0 + k]) == ascii_fold(#[trigger] q1[k]) by {
                    assert(ascii_fold(t[0 + (k + 1)]) == ascii_fold(q[k + 1]));
                }
            }
            if ascii_fold(p[0]) == ascii_fold(t[0]) && occurs_at_ignoring_ascii_case(t1, q1, 0) {
                assert forall|k: int| 0 <= k < q.len() implies ascii_fold(t[0 + k]) == ascii_fold(#[trigger] q[k]) by {
                    if k > 0 {
                        assert(ascii_fold(t1[0 + (k - 1)]) == ascii_fold(q1[k - 1]));
                    }
                }
            }
        }
    }
}

/// A leading `%` lets the rest of the pattern match a suffix, and only so.
proof fn lemma_percent_finds_suffix(r: Seq<u32>, s: Seq<u32>)
    requires
        like_match(seq![ANY_RUN] + r, s),
    ensures
        exists|k: int| 0 <= k <= s.len() && like_match(r, #[trigger] s.skip(k)),
    decreases s.len(),
{
    let p = seq![ANY_RUN] + r;
    assert(p[0] == ANY_RUN);
    assert(p.drop_first() =~= r);
    if like_match(r, s) {
        assert(s.skip(0) =~= s);
    } else {
        lemma_percent_finds_suffix(r, s.drop_first());
        let k = choose|k: int| 0 <= k <= s.drop_first().len() && like_match(r, #[trigger] s.drop_first().skip(k));
        assert(s.drop_first().skip(k) =~= s.skip(k + 1));
    }
}

/// Searching for a query free of `%` and `_`: `s LIKE ANY_RUN || q || ANY_RUN` holds
/// exactly when `q` occurs somewhere in `s`, ASCII letters compared without
/// regard to case.
pub proof fn lemma_like_finds_substring(q: Seq<u32>, s: Seq<u32>)
    requires
        forall|k: int| 0 <= k < q.len() ==> (#[trigger] q[k]) != ANY_RUN && q[k] != ANY_ONE,
    ensures
        like_match(seq![ANY_RUN] + q + seq![ANY_RUN], s) <==> exists|i: int|
            occurs_at_ignoring_ascii_case(s, q, i),
{
    let r = q + seq![ANY_RUN];
    assert(seq![ANY_RUN] + q + seq![ANY_RUN] =~= seq![ANY_RUN] + r);
    if exists|i: int| occurs_at_ignoring_ascii_case(s, q, i) {
        let i = choose|i: int| occurs_at_ignoring_ascii_case(s, q, i);
        let t = s.skip(i);
        assert forall|k: int| 0 <= k < q.len() implies ascii_fold(t[0 + k]) == ascii_fold(#[trigger] q[k]) by {
            assert(ascii_fold(s[i + k]) == ascii_fold(q[k]));
        }
        lemma_literal_prefix(q, t);
        lemma_percent_skips(r, s, i);
    }
    if like_match(seq![ANY_RUN] + r, s) {
        lemma_percent_finds_suffix(r, s);
        let k = choose|k: int| 0 <= k <= s.len() && like_match(r, #[trigger] s.skip(k));
        let t = s.skip(k);
        lemma_literal_prefix(q, t);
        assert forall|j: int| 0 <= j < q.len() implies ascii_fold(s[k + j]) == ascii_fold(#[trigger] q[j]) by {
            assert(ascii_fold(t[0 + j]) == ascii_fold(q[j]));
        }
        assert(occurs_at_ignoring_ascii_case(s, q, k));
    }
}

} // verus!

verus! {

/// The bytes SQLite reads as the continuation of a multi-byte character:
/// how many of the bytes at the start of `b` lie in `0x80..=0xBF`.
pub open spec fn continuation_run(b: Seq<u8>) -> nat
    decreases b.len(),
{
    if b.len() > 0 && 0x80 <= b[0] <= 0xBF {
        1 + continuation_run(b.drop_first())
    } else {
        0
    }
}

/// The value SQLite starts from for a lead byte of `0xC0` or more: the bits
/// below the width its high bits announce.
pub open spec fn lead_value(b: u8) -> int {
    if b <= 0xDF {
        b - 0xC0
    } else if b <= 0xEF {
        b - 0xE0
    } else if b <= 0xF7 {
        b - 0xF0
    } else if b <= 0xFB {
        b - 0xF8
    } else if b <= 0xFD {
        b - 0xFC
    } else {
        0
    }
}

/// The value `c` with the low six bits of the first `n` bytes of `b`
/// shifted in, in 32-bit arithmetic.
pub open spec fn accumulate(c: int, b: Seq<u8>, n: int) -> int
    decreases n,
{
    if n <= 0 {
        c
    } else {
        (accumulate(c, b, n - 1) * 64 + b[n - 1] % 64) % 0x1_0000_0000
    }
}

/// The code SQLite makes of a value read from a multi-byte sequence: `U+FFFD`
/// for a value below `0x80`, a UTF-16 surrogate, `U+FFFE` or `U+FFFF`.
pub open spec fn sqlite_code(v: int) -> u32 {
    if v < 0x80 || (0xD800 <= v <= 0xDFFF) || v == 0xFFFE || v == 0xFFFF {
        0xFFFD
    } else {
        v as u32
    }
}

/// A run of continuation bytes lies within the bytes.
pub proof fn lemma_continuation_run_bound(b: Seq<u8>)
    ensures
        continuation_run(b) <= b.len(),
    decreases b.len(),
{
    if b.len() > 0 && 0x80 <= b[0] <= 0xBF {
        lemma_continuation_run_bound(b.drop_first());
    }
}

/// The character codes SQLite reads from the bytes of a text value, as its
/// `LIKE` does: reading stops at the first zero byte; a byte below `0xC0`
/// is read as itself; a byte of `0xC0` or more starts a character that takes
/// in every continuation byte that follows it.
pub open spec fn sqlite_text(b: Seq<u8>) -> Seq<u32>
    decreases b.len(),
{
    if b.len() == 0 || b[0] == 0 {
        Seq::empty()
    } else if b[0] < 0xC0 {
        seq![b[0] as u32] + sqlite_text(b.drop_first())
    } else {
        let rest = b.drop_first();
        let n = continuation_run(rest);
        proof {
            lemma_continuation_run_bound(rest);
        }
        seq![sqlite_code(accumulate(lead_value(b[0]), rest, n as int))] + sqlite_text(
            rest.skip(n as int),
        )
    }
}

proof fn lemma_continuation_run(b: Seq<u8>, m: int)
    requires
        0 <= m <= b.len(),
        forall|k: int| 0 <= k < m ==> 0x80 <= #[trigger] b[k] <= 0xBF,
        m == b.len() || !(0x80 <= b[m] <= 0xBF),
    ensures
        continuation_run(b) == m,
    decreases m,
{
    if m > 0 {
        assert forall|k: int| 0 <= k < m - 1 implies 0x80 <= #[trigger] b.drop_first()[k] <= 0xBF by {
            assert(b.drop_first()[k] == b[k + 1]);
        }
        lemma_continuation_run(b.drop_first(), m - 1);
    }
}

fn lead_value_of(b: u8) -> (v: u32)
    requires
        b >= 0xC0,
    ensures
        v == lead_value(b),
{
    if b <= 0xDF {
        (b - 0xC0) as u32
    } else if b <= 0xEF {
        (b - 0xE0) as u32
    } else if b <= 0xF7 {
        (b - 0xF0) as u32
    } else if b <= 0xFB {
        (b - 0xF8) as u32
    } else if b <= 0xFD {
        (b - 0xFC) as u32
    } else {
        0
    }
}

/// The character codes SQLite reads from the bytes of a text value.
pub fn sqlite_text_of(b: &Vec<u8>) -> (t: Vec<u32>)
    ensures
        t@ == sqlite_text(b@),
{
    let n = b.len();
    let mut t: Vec<u32> = Vec::new();
    let mut i: usize = 0;
    assert(b@.skip(0) =~= b@);
    while i < n && b[i] != 0
        invariant
            i <= n,
            n == b.len(),
            t@ + sqlite_text(b@.skip(i as int)) == sqlite_text(b@),
        decreases n - i,
    {
        let ghost here = b@.skip(i as int);
        let lead = b[i];
        assert(here[0] == lead);
        assert(here.drop_first() =~= b@.skip(i + 1));
        if lead < 0xC0 {
            t.push(lead as u32);
            i = i + 1;
            assert(t@ + sqlite_text(b@.skip(i as int)) =~= sqlite_text(b@));
        } else {
            let ghost rest = b@.skip(i + 1);
            let mut c: u32 = lead_value_of(lead);
            let mut j: usize = i + 1;
            while j < n && 0x80 <= b[j] && b[j] <= 0xBF
                invariant
                    i < j <= n,
                    n == b.len(),
                    rest == b@.skip(i + 1),
                    forall|k: int| 0 <= k < j - i - 1 ==> 0x80 <= #[trigger] rest[k] <= 0xBF,
                    c == accumulate(lead_value(lead), rest, j - i - 1),
                decreases n - j,
            {
                assert(rest[j - i - 1] == b[j as int]);
                c = ((c as u64 * 64 + (b[j] % 64) as u64) % 0x1_0000_0000) as u32;
                j = j + 1;
            }
            proof {
                if j < n {
                    assert(rest[j - i - 1] == b[j as int]);
                }
                lemma_continuation_run(rest, j - i - 1);
                assert(rest.skip(j - i - 1) =~= b@.skip(j as int));
            }
            let code: u32 = if c < 0x80 || (0xD800 <= c && c <= 0xDFFF) || c == 0xFFFE || c == 0xFFFF {
                0xFFFD
            } else {
                c
            };
            t.push(code);
            i = j;
            assert(t@ + sqlite_text(b@.skip(i as int)) =~= sqlite_text(b@));
        }
    }
    proof {
        if i < n {
            assert(b@.skip(i as int)[0] == 0);
        }
        assert(t@ + sqlite_text(b@.skip(i as int)) =~= t@);
    }
    t
}

/// The code SQLite reads for the character `c` from its UTF-8 encoding:
/// its scalar value, but `U+FFFD` for `U+FFFE` and `U+FFFF`.
pub open spec fn sqlite_char_code(c: char) -> u32 {
    if c as u32 == 0xFFFE || c as u32 == 0xFFFF {
        0xFFFD
    } else {
        c as u32
    }
}

/// The codes SQLite reads for each character of `s`.
pub open spec fn sqlite_codes(s: Seq<char>) -> Seq<u32> {
    s.map_values(|c: char| sqlite_char_code(c))
}

proof fn lemma_width_1(b1: u8)
    by (bit_vector)
    requires
        b1 <= 0x7F,
    ensures
        codepoint_width_1(b1) == b1 as u32,
{
}

proof fn lemma_width_2(b1: u8, b2: u8)
    by (bit_vector)
    requires
        0xC0 <= b1 <= 0xDF,
        0x80 <= b2 <= 0xBF,
    ensures
        ((b1 - 0xC0) * 64 + b2 % 64) == codepoint_width_2(b1, b2),
{
}

proof fn lemma_width_3(b1: u8, b2: u8, b3: u8)
    by (bit_vector)
    requires
        0xE0 <= b1 <= 0xEF,
        0x80 <= b2 <= 0xBF,
        0x80 <= b3 <= 0xBF,
    ensures
        (((b1 - 0xE0) * 64 + b2 % 64) * 64 + b3 % 64) == codepoint_width_3(b1, b2, b3),
{
}

proof fn lemma_width_4(b1: u8, b2: u8, b3: u8, b4: u8)
    by (bit_vector)
    requires
        0xF0 <= b1 <= 0xF7,
        0x80 <= b2 <= 0xBF,
        0x80 <= b3 <= 0xBF,
        0x80 <= b4 <= 0xBF,
    ensures
        ((((b1 - 0xF0) * 64 + b2 % 64) * 64 + b3 % 64) * 64 + b4 % 64) == codepoint_width_4(
            b1,
            b2,
            b3,
            b4,
        ),
{
}

/// Below 32 bits, shifting in six more bits does not wrap.
proof fn lemma_accumulate_step(c: int, b: Seq<u8>, n: int)
    requires
        0 <= n < b.len(),
        0 <= accumulate(c, b, n) < 0x400_0000,
    ensures
        accumulate(c, b, n + 1) == accumulate(c, b, n) * 64 + b[n] % 64,
        0 <= accumulate(c, b, n + 1) < 0x1_0000_0000,
{
    let x = accumulate(c, b, n) * 64 + b[n] % 64;
    vstd::arithmetic::div_mod::lemma_small_mod(x as nat, 0x1_0000_0000);
}

/// The UTF-8 encoding of a non-empty text starts with a byte that is not a
/// continuation byte.
proof fn lemma_encoding_starts_a_character(s: Seq<char>)
    requires
        s.len() > 0,
    ensures
        encode_utf8(s).len() > 0,
        !(0x80 <= encode_utf8(s)[0] <= 0xBF),
{
    encode_utf8_first_scalar(s);
}

/// Reading the UTF-8 encoding of a text free of `NUL`, SQLite gets one code
/// per character, that character's scalar value (`U+FFFD` for `U+FFFE` and
/// `U+FFFF`).
pub proof fn lemma_sqlite_reads_utf8(s: Seq<char>)
    requires
        forall|i: int| 0 <= i < s.len() ==> #[trigger] s[i] != '\0',
    ensures
        sqlite_text(encode_utf8(s)) == sqlite_codes(s),
    decreases s.len(),
{
    if s.len() == 0 {
        assert(sqlite_codes(s) =~= Seq::<u32>::empty());
    } else {
        let b = encode_utf8(s);
        let rest_chars = s.drop_first();
        let tail = encode_utf8(rest_chars);
        let c = s[0] as u32;
        encode_utf8_first_scalar(s);
        assert(b == encode_scalar(c) + tail);
        let len = length_of_first_codepoint(b);
        assert(len == encode_scalar(c).len());
        assert(b.skip(len) =~= tail);
        assert forall|i: int| 0 <= i < rest_chars.len() implies #[trigger] rest_chars[i] != '\0' by {
            assert(rest_chars[i] == s[i + 1]);
        }
        lemma_sqlite_reads_utf8(rest_chars);
        assert(sqlite_codes(s) =~= seq![sqlite_char_code(s[0])] + sqlite_codes(rest_chars));
        if tail.len() > 0 {
            lemma_encoding_starts_a_character(rest_chars);
        }
        let r = b.drop_first();
        assert(vstd::utf8::decode_first_codepoint(b) == c);
        if len == 1 {
            lemma_width_1(b[0]);
            assert(r =~= tail);
            assert(b[0] as u32 == c);
            assert(s[0] != '\0');
            assert(c != 0) by {
                if c == 0 {
                    vstd::utf8::char_u32_cast(s[0], c);
                    vstd::utf8::char_u32_cast('\0', 0u32);
                }
            }
            assert(sqlite_text(b) == seq![sqlite_char_code(s[0])] + sqlite_text(tail));
        } else {
            assert(r.skip(len - 1) =~= tail);
            assert(forall|k: int| 0 <= k < len - 1 ==> r[k] == b[k + 1]);
            if len - 1 < r.len() {
                assert(r[len - 1] == tail[0]);
            }
            lemma_continuation_run(r, len - 1);
            let v = lead_value(b[0]);
            lemma_accumulate_step(v, r, 0);
            if len == 2 {
                lemma_width_2(b[0], b[1]);
                assert(accumulate(v, r, 1) == codepoint_width_2(b[0], b[1]));
            } else if len == 3 {
                lemma_width_3(b[0], b[1], b[2]);
                lemma_accumulate_step(v, r, 1);
                assert(accumulate(v, r, 2) == codepoint_width_3(b[0], b[1], b[2]));
            } else {
                lemma_width_4(b[0], b[1], b[2], b[3]);
                lemma_accumulate_step(v, r, 1);
                lemma_accumulate_step(v, r, 2);
                assert(accumulate(v, r, 3) == codepoint_width_4(b[0], b[1], b[2], b[3]));
            }
            assert(b[0] >= 0xC0);
            assert(continuation_run(r) == len - 1);
            assert(accumulate(v, r, len - 1) == c);
            assert(0x80 <= c);
            assert(!(0xD800 <= c <= 0xDFFF));
            assert(sqlite_code(c as int) == sqlite_char_code(s[0]));
            assert(sqlite_text(b) == seq![sqlite_char_code(s[0])] + sqlite_text(tail));
        }
    }
}

/// SQLite reads a valid UTF-8 text free of `NUL` character by character:
/// this is so of every text the history stores.
pub proof fn lemma_sqlite_reads_valid_utf8(bytes: Seq<u8>)
    requires
        valid_utf8(bytes),
        forall|i: int| 0 <= i < decode_utf8(bytes).len() ==> #[trigger] decode_utf8(bytes)[i] != '\0',
    ensures
        sqlite_text(bytes) == sqlite_codes(decode_utf8(bytes)),
{
    vstd::utf8::decode_utf8_encode_utf8(bytes);
    lemma_sqlite_reads_utf8(decode_utf8(bytes));
}

} // verus!

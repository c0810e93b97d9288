use vstd::prelude::*;

verus! {

/// The characters of `s`, in order.
pub fn chars_of(s: &str) -> (v: Vec<char>)
    ensures
        v@ == s@,
{
    let mut v: Vec<char> = Vec::new();
    for c in it: s.chars()
        invariant
            v@ == it.seq().take(it.index() as int),
            it.seq() == s@,
    {
        v.push(c);
    }
    v
}

/// Appends one character to a `String` (`String::push`).
#[verifier::external_body]
pub(crate) fn push_char(s: &mut String, c: char)
    ensures
        final(s)@ == old(s)@.push(c),
{
    s.push(c);
}

/// Appends a string slice to a `String`.
pub fn push_str(s: &mut String, t: &str)
    ensures
        final(s)@ == old(s)@ + t@,
{
    s.append(t);
}

/// A fresh `String` holding the characters of `t`.
pub fn string_of(t: &str) -> (s: String)
    ensures
        s@ == t@,
{
    String::from_str(t)
}

/// Whether two string slices hold the same characters.
pub fn str_equal(a: &str, b: &str) -> (eq: bool)
    ensures
        eq == (a@ == b@),
{
    let va = chars_of(a);
    let vb = chars_of(b);
    if va.len() != vb.len() {
        return false;
    }
    let mut i: usize = 0;
    while i < va.len()
        invariant
            va@ == a@,
            vb@ == b@,
            va.len() == vb.len(),
            i <= va.len(),
            forall|k: int| 0 <= k < i ==> va@[k] == vb@[k],
        decreases va.len() - i,
    {
        if va[i] != vb[i] {
            return false;
        }
        i = i + 1;
    }
    assert(va@ =~= vb@);
    true
}

// ---------------------------------------------------------------------
// Unicode white space

/// The Unicode `White_Space` property, which `char::is_whitespace` tests.
pub open spec fn is_unicode_whitespace(c: char) -> bool {
    let u = c as u32;
    ||| 0x09 <= u <= 0x0D
    ||| u == 0x20
    ||| u == 0x85
    ||| u == 0xA0
    ||| u == 0x1680
    ||| 0x2000 <= u <= 0x200A
    ||| u == 0x2028
    ||| u == 0x2029
    ||| u == 0x202F
    ||| u == 0x205F
    ||| u == 0x3000
}

/// Whether `s` is empty once leading and trailing white space is trimmed,
/// that is, whether every character of `s` is white space.
pub open spec fn is_blank_spec(s: Seq<char>) -> bool {
    forall|i: int| 0 <= i < s.len() ==> is_unicode_whitespace(#[trigger] s[i])
}

pub fn is_whitespace_char(c: char) -> (b: bool)
    ensures
        b == is_unicode_whitespace(c),
{
    let u = c as u32;
    (0x09 <= u && u <= 0x0D) || u == 0x20 || u == 0x85 || u == 0xA0 || u == 0x1680 || (0x2000
        <= u && u <= 0x200A) || u == 0x2028 || u == 0x2029 || u == 0x202F || u == 0x205F || u
        == 0x3000
}

/// `s.trim().is_empty()`.
pub fn is_blank(s: &str) -> (b: bool)
    ensures
        b == is_blank_spec(s@),
{
    let v = chars_of(s);
    let mut i: usize = 0;
    while i < v.len()
        invariant
            v@ == s@,
            i <= v.len(),
            forall|k: int| 0 <= k < i ==> is_unicode_whitespace(#[trigger] v@[k]),
        decreases v.len() - i,
    {
        if !is_whitespace_char(v[i]) {
            return false;
        }
        i = i + 1;
    }
    true
}

// ---------------------------------------------------------------------
// Substrings

/// `needle` occurs in `hay` starting at index `i`.
pub open spec fn occurs_at(hay: Seq<char>, needle: Seq<char>, i: int) -> bool {
    0 <= i && i + needle.len() <= hay.len() && hay.subrange(i, i + needle.len()) == needle
}

/// `needle` occurs somewhere in `hay` (`str::contains`).
pub open spec fn contains_spec(hay: Seq<char>, needle: Seq<char>) -> bool {
    exists|i: int| occurs_at(hay, needle, i)
}

fn matches_at(hay: &Vec<char>, needle: &Vec<char>, i: usize) -> (b: bool)
    requires
        i + needle.len() <= hay.len(),
    ensures
        b == occurs_at(hay@, needle@, i as int),
{
    let mut k: usize = 0;
    while k < needle.len()
        invariant
            i + needle.len() <= hay.len(),
            k <= needle.len(),
            forall|j: int| 0 <= j < k ==> hay@[i + j] == needle@[j],
        decreases needle.len() - k,
    {
        if hay[i + k] != needle[k] {
            assert(hay@.subrange(i as int, i + needle.len())[k as int] != needle@[k as int]);
            return false;
        }
        k = k + 1;
    }
    assert(hay@.subrange(i as int, i + needle.len()) =~= needle@);
    true
}

/// Whether `needle` occurs in `hay`.
pub fn contains_chars(hay: &Vec<char>, needle: &Vec<char>) -> (b: bool)
    ensures
        b == contains_spec(hay@, needle@),
{
    if needle.len() > hay.len() {
        return false;
    }
    let last = hay.len() - needle.len();
    let mut i: usize = 0;
    while i < last
        invariant
            last + needle.len() == hay.len(),
            i <= last,
            forall|j: int| 0 <= j < i ==> !occurs_at(hay@, needle@, j),
        decreases last - i,
    {
        if matches_at(hay, needle, i) {
            return true;
        }
        i = i + 1;
    }
    if matches_at(hay, needle, last) {
        return true;
    }
    assert forall|j: int| !occurs_at(hay@, needle@, j) by {
        if 0 <= j && j + needle@.len() <= hay@.len() {
            assert(j <= last);
        }
    }
    false
}

// ---------------------------------------------------------------------
// Decimal numbers

pub open spec fn digit_char(d: int) -> char {
    if d == 0 {
        '0'
    } else if d == 1 {
        '1'
    } else if d == 2 {
        '2'
    } else if d == 3 {
        '3'
    } else if d == 4 {
        '4'
    } else if d == 5 {
        '5'
    } else if d == 6 {
        '6'
    } else if d == 7 {
        '7'
    } else if d == 8 {
        '8'
    } else {
        '9'
    }
}

pub open spec fn is_ascii_digit(c: char) -> bool {
    48 <= (c as u32) <= 57
}

pub open spec fn digit_value(c: char) -> int {
    (c as u32) - 48
}

/// The decimal digits of `n`, most significant first, without leading zeros.
pub open spec fn decimal_digits(n: nat) -> Seq<char>
    decreases n,
{
    if n < 10 {
        seq![digit_char(n as int)]
    } else {
        decimal_digits(n / 10).push(digit_char((n % 10) as int))
    }
}

/// How `Display` writes an integer: a `-` for negative numbers, then the
/// decimal digits of the magnitude.
pub open spec fn decimal(n: int) -> Seq<char> {
    if n < 0 {
        seq!['-'] + decimal_digits((-n) as nat)
    } else {
        decimal_digits(n as nat)
    }
}

fn digit_to_char(d: u64) -> (c: char)
    requires
        d < 10,
    ensures
        c == digit_char(d as int),
        is_ascii_digit(c),
        digit_value(c) == d,
{
    if d == 0 {
        '0'
    } else if d == 1 {
        '1'
    } else if d == 2 {
        '2'
    } else if d == 3 {
        '3'
    } else if d == 4 {
        '4'
    } else if d == 5 {
        '5'
    } else if d == 6 {
        '6'
    } else if d == 7 {
        '7'
    } else if d == 8 {
        '8'
    } else {
        '9'
    }
}

fn push_decimal_digits(s: &mut String, n: u64)
    ensures
        final(s)@ == old(s)@ + decimal_digits(n as nat),
    decreases n,
{
    if n >= 10 {
        push_decimal_digits(s, n / 10);
    }
    let c = digit_to_char(n % 10);
    push_char(s, c);
    proof {
        if n >= 10 {
            assert(final(s)@ =~= old(s)@ + decimal_digits(n as nat));
        } else {
            assert(final(s)@ =~= old(s)@ + decimal_digits(n as nat));
        }
    }
}

/// Appends the decimal form of `n` to `s`.
pub fn push_decimal(s: &mut String, n: i64)
    ensures
        final(s)@ == old(s)@ + decimal(n as int),
{
    if n < 0 {
        push_char(s, '-');
        let m: u64 = ((-(n + 1)) as u64) + 1;
        push_decimal_digits(s, m);
        assert(final(s)@ =~= old(s)@ + decimal(n as int));
    } else {
        push_decimal_digits(s, n as u64);
    }
}

/// `n.to_string()`.
pub fn decimal_string(n: i64) -> (s: String)
    ensures
        s@ == decimal(n as int),
{
    let mut s = String::new();
    push_decimal(&mut s, n);
    assert(s@ =~= decimal(n as int));
    s
}

pub open spec fn all_ascii_digits(s: Seq<char>) -> bool {
    forall|i: int| 0 <= i < s.len() ==> is_ascii_digit(#[trigger] s[i])
}

/// The number that the decimal digits `s` spell.
pub open spec fn digits_value(s: Seq<char>) -> nat
    decreases s.len(),
{
    if s.len() == 0 {
        0
    } else {
        (digits_value(s.drop_last()) * 10 + digit_value(s.last())) as nat
    }
}

/// What `str::parse::<i64>` gives: an optional `+` or `-`, then one or more
/// ASCII digits, with the value in range; anything else is an error.
pub open spec fn parse_i64_spec(s: Seq<char>) -> Option<i64> {
    let signed = s.len() > 0 && (s[0] == '-' || s[0] == '+');
    let negative = s.len() > 0 && s[0] == '-';
    let body = if signed {
        s.drop_first()
    } else {
        s
    };
    if body.len() == 0 || !all_ascii_digits(body) {
        None
    } else {
        let v: int = if negative {
            -(digits_value(body) as int)
        } else {
            digits_value(body) as int
        };
        if i64::MIN <= v <= i64::MAX {
            Some(v as i64)
        } else {
            None
        }
    }
}

proof fn lemma_digits_value_prefix(s: Seq<char>, i: int)
    requires
        0 <= i <= s.len(),
        all_ascii_digits(s),
    ensures
        digits_value(s.take(i)) <= digits_value(s),
    decreases s.len(),
{
    if i < s.len() {
        assert(s.drop_last().take(i) =~= s.take(i));
        lemma_digits_value_prefix(s.drop_last(), i);
    } else {
        assert(s.take(i) =~= s);
    }
}

/// Parses a decimal integer as `str::parse::<i64>` does.
pub fn parse_i64(s: &str) -> (r: Option<i64>)
    ensures
        r == parse_i64_spec(s@),
{
    let v = chars_of(s);
    let n = v.len();
    let mut start: usize = 0;
    let mut negative = false;
    if n > 0 && (v[0] == '-' || v[0] == '+') {
        start = 1;
        negative = v[0] == '-';
    }
    let ghost body = if start == 1 {
        s@.drop_first()
    } else {
        s@
    };
    if start == n {
        return None;
    }
    let mut acc: u64 = 0;
    let mut i: usize = start;
    while i < n
        invariant
            v@ == s@,
            n == v.len(),
            start <= i <= n,
            start < n,
            start == 0 || start == 1,
            body == v@.skip(start as int),
            body == (if s@.len() > 0 && (s@[0] == '-' || s@[0] == '+') {
                s@.drop_first()
            } else {
                s@
            }),
            negative == (s@.len() > 0 && s@[0] == '-'),
            all_ascii_digits(body.take(i - start)),
            acc == digits_value(body.take(i - start)),
        decreases n - i,
    {
        let c = v[i];
        let u = c as u32;
        if u < 48 || u > 57 {
            assert(body[i - start] == c);
            return None;
        }
        let d: u64 = (u - 48) as u64;
        let ghost pre = body.take(i - start);
        assert(body.take(i - start + 1).drop_last() =~= pre);
        assert(body.take(i - start + 1).last() == c);
        match acc.checked_mul(10) {
            Some(m) => match m.checked_add(d) {
                Some(a) => {
                    acc = a;
                },
                None => {
                    proof {
                        assert(all_ascii_digits(body.take(i - start + 1)));
                        assert(digits_value(body.take(i - start + 1)) > u64::MAX);
                        if all_ascii_digits(body) {
                            lemma_digits_value_prefix(body, i - start + 1);
                        }
                    }
                    return None;
                },
            },
            None => {
                proof {
                    assert(all_ascii_digits(body.take(i - start + 1)));
                    assert(digits_value(body.take(i - start + 1)) > u64::MAX);
                    if all_ascii_digits(body) {
                        lemma_digits_value_prefix(body, i - start + 1);
                    }
                }
                return None;
            },
        }
        i = i + 1;
    }
    assert(body.take(n - start) =~= body);
    if negative {
        if acc <= 0x8000_0000_0000_0000 {
            if acc == 0x8000_0000_0000_0000 {
                Some(i64::MIN)
            } else {
                Some(-(acc as i64))
            }
        } else {
            None
        }
    } else {
        if acc <= 0x7FFF_FFFF_FFFF_FFFF {
            Some(acc as i64)
        } else {
            None
        }
    }
}

proof fn lemma_digit_char(d: int)
    requires
        0 <= d < 10,
    ensures
        is_ascii_digit(digit_char(d)),
        digit_value(digit_char(d)) == d,
{
}

proof fn lemma_decimal_digits_parse(m: nat)
    ensures
        decimal_digits(m).len() > 0,
        all_ascii_digits(decimal_digits(m)),
        digits_value(decimal_digits(m)) == m,
        is_ascii_digit(decimal_digits(m)[0]),
    decreases m,
{
    if m >= 10 {
        lemma_decimal_digits_parse(m / 10);
        let s = decimal_digits(m);
        assert(s.drop_last() =~= decimal_digits(m / 10));
        assert(s.last() == digit_char((m % 10) as int));
        lemma_digit_char((m % 10) as int);
        assert(m == (m / 10) * 10 + m % 10) by (nonlinear_arith);
        assert(digits_value(s) == digits_value(s.drop_last()) * 10 + digit_value(s.last()));
    } else {
        lemma_digit_char(m as int);
        let s = decimal_digits(m);
        assert(s.drop_last() =~= Seq::<char>::empty());
        assert(digits_value(s.drop_last()) == 0);
        assert(s.last() == digit_char(m as int));
    }
}

/// Writing an integer in decimal and parsing it back gives the integer.
pub proof fn lemma_parse_decimal_roundtrip(n: i64)
    ensures
        parse_i64_spec(decimal(n as int)) == Some(n),
{
    let s = decimal(n as int);
    if n < 0 {
        lemma_decimal_digits_parse((-n) as nat);
        assert(s.drop_first() =~= decimal_digits((-n) as nat));
    } else {
        lemma_decimal_digits_parse(n as nat);
        assert(s[0] != '-' && s[0] != '+');
    }
}

/// What `str::parse::<bool>` gives: `true` and `false` are accepted, nothing else.
pub open spec fn parse_bool_spec(s: Seq<char>) -> Option<bool> {
    if s == "true"@ {
        Some(true)
    } else if s == "false"@ {
        Some(false)
    } else {
        None
    }
}

/// Parses a boolean as `str::parse::<bool>` does.
pub fn parse_bool(s: &str) -> (r: Option<bool>)
    ensures
        r == parse_bool_spec(s@),
{
    if str_equal(s, "true") {
        Some(true)
    } else if str_equal(s, "false") {
        Some(false)
    } else {
        None
    }
}

} // verus!

verus! {

/// What `String::from_utf8_lossy` makes of a byte sequence.
pub uninterp spec fn utf8_lossy(bytes: Seq<u8>) -> Seq<char>;

/// `String::from_utf8_lossy(bytes)`, owned. The contract claims that the
/// result depends on the bytes alone, and, as its documentation says, that
/// bytes which are valid UTF-8 are decoded as they are. What it makes of
/// invalid sequences (each becomes U+FFFD) is left unsaid.
#[verifier::external_body]
pub(crate) fn decode_utf8_lossy(bytes: &[u8]) -> (s: String)
    ensures
        s@ == utf8_lossy(bytes@),
        vstd::utf8::valid_utf8(bytes@) ==> s@ == vstd::utf8::decode_utf8(bytes@),
{
    String::from_utf8_lossy(bytes).into_owned()
}

/// The text that `bytes` decode to as `String::from_utf8_lossy` reads them:
/// the plain decoding of valid UTF-8, else what the lossy decoder makes of
/// them.
pub open spec fn utf8_text(bytes: Seq<u8>) -> Seq<char> {
    if vstd::utf8::valid_utf8(bytes) {
        vstd::utf8::decode_utf8(bytes)
    } else {
        utf8_lossy(bytes)
    }
}

/// Decodes bytes as text, replacing invalid UTF-8 sequences.
pub fn text_from_utf8(bytes: &[u8]) -> (s: String)
    ensures
        s@ == utf8_text(bytes@),
{
    decode_utf8_lossy(bytes)
}

/// The UTF-8 bytes of a string slice, as a vector.
pub fn utf8_bytes(s: &str) -> (b: Vec<u8>)
    ensures
        b@ == vstd::utf8::encode_utf8(s@),
{
    vstd::slice::slice_to_vec(s.as_bytes())
}

} // verus!

verus! {

/// The decimal form of an integer starts with a digit or a minus sign.
pub proof fn lemma_decimal_first_char(n: int)
    ensures
        decimal(n).len() > 0,
        decimal(n)[0] == '-' || is_ascii_digit(decimal(n)[0]),
{
    if n < 0 {
        lemma_decimal_digits_parse((-n) as nat);
    } else {
        lemma_decimal_digits_parse(n as nat);
    }
}

} // verus!

verus! {

/// What `str::to_lowercase` makes of a string: its Unicode lower-case form.
pub uninterp spec fn unicode_lowercase(s: Seq<char>) -> Seq<char>;

/// `str::to_lowercase`. The contract claims that the result depends on the
/// string alone, and that it is empty exactly when the string is (every
/// character lower-cases to one or more characters); the Unicode case
/// mapping itself is left unsaid.
#[verifier::external_body]
pub(crate) fn to_lowercase(s: &str) -> (r: String)
    ensures
        r@ == unicode_lowercase(s@),
        r@.len() == 0 <==> s@.len() == 0,
{
    s.to_lowercase()
}

/// `k` is the position of the first `c` in `s`.
pub open spec fn first_index_of(s: Seq<char>, c: char, k: int) -> bool {
    0 <= k < s.len() && s[k] == c && forall|j: int| 0 <= j < k ==> s[j] != c
}

/// `str::split_once(c)`: the parts before and after the first `c`, if any.
pub open spec fn split_once_spec(s: Seq<char>, c: char) -> Option<(Seq<char>, Seq<char>)> {
    if exists|k: int| first_index_of(s, c, k) {
        let k = choose|k: int| first_index_of(s, c, k);
        Some((s.take(k), s.skip(k + 1)))
    } else {
        None
    }
}

/// The position of the first `c` in `s`, if any.
pub fn find_char(s: &Vec<char>, c: char) -> (r: Option<usize>)
    ensures
        match r {
            Some(k) => first_index_of(s@, c, k as int),
            None => forall|j: int| 0 <= j < s.len() ==> s@[j] != c,
        },
{
    let mut i: usize = 0;
    while i < s.len()
        invariant
            i <= s.len(),
            forall|j: int| 0 <= j < i ==> s@[j] != c,
        decreases s.len() - i,
    {
        if s[i] == c {
            return Some(i);
        }
        i = i + 1;
    }
    None
}

/// The string made of `v[from..to]`.
pub fn string_from_chars(v: &Vec<char>, from: usize, to: usize) -> (s: String)
    requires
        from <= to <= v.len(),
    ensures
        s@ == v@.subrange(from as int, to as int),
{
    let mut s = String::new();
    let mut i = from;
    while i < to
        invariant
            from <= i <= to,
            to <= v.len(),
            s@ == v@.subrange(from as int, i as int),
        decreases to - i,
    {
        push_char(&mut s, v[i]);
        i = i + 1;
        assert(s@ =~= v@.subrange(from as int, i as int));
    }
    s
}

proof fn lemma_first_index_unique(s: Seq<char>, c: char, a: int, b: int)
    requires
        first_index_of(s, c, a),
        first_index_of(s, c, b),
    ensures
        a == b,
{
    if a < b {
        assert(s[a] != c);
    }
    if b < a {
        assert(s[b] != c);
    }
}

/// `s.split_once(c)`, with both parts owned.
pub fn split_once(s: &str, c: char) -> (r: Option<(String, String)>)
    ensures
        match r {
            Some((a, b)) => split_once_spec(s@, c) == Some((a@, b@)),
            None => split_once_spec(s@, c) is None,
        },
{
    let v = chars_of(s);
    match find_char(&v, c) {
        Some(k) => {
            assert(k < v.len());
            let a = string_from_chars(&v, 0, k);
            let b = string_from_chars(&v, k + 1, v.len());
            proof {
                let ch = choose|j: int| first_index_of(s@, c, j);
                lemma_first_index_unique(s@, c, ch, k as int);
                assert(a@ =~= s@.take(k as int));
                assert(b@ =~= s@.skip(k + 1));
            }
            Some((a, b))
        },
        None => None,
    }
}

} // verus!

verus! {

/// Every character of a decimal number is a digit or a minus sign.
pub proof fn lemma_decimal_chars(n: int)
    ensures
        forall|j: int| 0 <= j < decimal(n).len() ==> (#[trigger] decimal(n)[j]) == '-' || is_ascii_digit(decimal(n)[j]),
{
    if n < 0 {
        lemma_decimal_digits_parse((-n) as nat);
        let d = decimal_digits((-n) as nat);
        assert forall|j: int| 0 <= j < decimal(n).len() implies (#[trigger] decimal(n)[j]) == '-' || is_ascii_digit(decimal(n)[j]) by {
            if j > 0 {
                assert(decimal(n)[j] == d[j - 1]);
            }
        }
    } else {
        lemma_decimal_digits_parse(n as nat);
    }
}

} // verus!

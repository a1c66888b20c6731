use vstd::prelude::*;
use vstd::utf8::{valid_utf8, decode_utf8, is_ascii_chars};
use vstd::string::StringSliceAdditionalSpecFns;
use vstd::string::StrSliceExecFns;

verus! {

broadcast use vstd::utf8::group_utf8_lib;

/// Calls `String::from_utf8`, which std documents to succeed exactly when the
/// bytes are valid UTF-8 and then to hold those bytes unchanged. Claimed:
/// `Some` iff `valid_utf8(bytes@)`, and then the string's characters are
/// `decode_utf8(bytes@)`.
#[verifier::external_body]
pub(crate) fn string_from_utf8(bytes: Vec<u8>) -> (r: Option<String>)
    ensures
        match r {
            Some(s) => valid_utf8(bytes@) && s@ == decode_utf8(bytes@),
            None => !valid_utf8(bytes@),
        },
{
    String::from_utf8(bytes).ok()
}

/// The lowercase form of a string, as `str::to_lowercase` computes it (by the
/// Unicode lowercase mappings).
pub uninterp spec fn lowercase_of(s: Seq<char>) -> Seq<char>;

/// ASCII letters lowered, every other character kept.
pub open spec fn ascii_lower(s: Seq<char>) -> Seq<char> {
    s.map_values(|c: char| if 'A' <= c <= 'Z' {
        ((c as u32) + 32) as char
    } else {
        c
    })
}

/// Calls `str::to_lowercase`. Claimed: the result is `lowercase_of(s@)`, a
/// function of the characters alone; and, as std documents the mapping for
/// ASCII, on an ASCII string it lowers `A`-`Z` and keeps every other character.
/// Nothing is claimed of other characters beyond the name.
#[verifier::external_body]
pub(crate) fn to_lowercase(s: &str) -> (r: String)
    ensures
        r@ == lowercase_of(s@),
        is_ascii_chars(s@) ==> r@ == ascii_lower(s@),
{
    s.to_lowercase()
}

/// Draws a new random id through `uuid::Uuid::new_v4` and its `Display`:
/// the hyphenated form of a version-4 UUID, 36 characters. Nothing else is
/// claimed: the id is random.
#[verifier::external_body]
pub(crate) fn new_uuid() -> (r: String)
    ensures
        r@.len() == 36,
{
    uuid::Uuid::new_v4().to_string()
}

/// Different strings have different UTF-8 encodings.
pub proof fn lemma_encode_injective(a: Seq<char>, b: Seq<char>)
    requires
        vstd::utf8::encode_utf8(a) == vstd::utf8::encode_utf8(b),
    ensures
        a == b,
{
    vstd::utf8::encode_utf8_decode_utf8(a);
    vstd::utf8::encode_utf8_decode_utf8(b);
}

/// The decimal digits of `n`, without leading zeros (`0` for zero).
pub open spec fn decimal(n: nat) -> Seq<char>
    decreases n,
{
    if n < 10 {
        seq![(n + 48) as char]
    } else {
        decimal(n / 10).push(((n % 10) + 48) as char)
    }
}

/// The digit `d` as text.
fn digit_text(d: u64) -> (r: &'static str)
    requires
        d < 10,
    ensures
        r@ == seq![(d + 48) as char],
{
    proof {
        reveal_strlit("0");
        reveal_strlit("1");
        reveal_strlit("2");
        reveal_strlit("3");
        reveal_strlit("4");
        reveal_strlit("5");
        reveal_strlit("6");
        reveal_strlit("7");
        reveal_strlit("8");
        reveal_strlit("9");
    }
    if d == 0 {
        "0"
    } else if d == 1 {
        "1"
    } else if d == 2 {
        "2"
    } else if d == 3 {
        "3"
    } else if d == 4 {
        "4"
    } else if d == 5 {
        "5"
    } else if d == 6 {
        "6"
    } else if d == 7 {
        "7"
    } else if d == 8 {
        "8"
    } else {
        "9"
    }
}

/// The decimal digits of `n`, as an unsigned integer's `Display` writes
/// them.
pub fn decimal_text(n: u64) -> (r: String)
    ensures
        r@ == decimal(n as nat),
    decreases n,
{
    if n < 10 {
        digit_text(n).to_owned()
    } else {
        let head = decimal_text(n / 10);
        let r = join_text(head.as_str(), digit_text(n % 10));
        assert(r@ =~= decimal(n as nat));
        r
    }
}

/// Whether two strings hold the same characters.
pub fn str_eq(a: &str, b: &str) -> (r: bool)
    ensures
        r == (a@ == b@),
{
    let x = a.as_bytes();
    let y = b.as_bytes();
    proof {
        assert(x@ == vstd::utf8::encode_utf8(a@));
        assert(y@ == vstd::utf8::encode_utf8(b@));
        if a@ =~= b@ {
            assert(x@ == y@);
        }
    }
    if x.len() != y.len() {
        return false;
    }
    let mut i: usize = 0;
    while i < x.len()
        invariant
            i <= x.len(),
            x.len() == y.len(),
            x@ == vstd::utf8::encode_utf8(a@),
            y@ == vstd::utf8::encode_utf8(b@),
            forall|j: int| 0 <= j < i ==> x@[j] == y@[j],
        decreases x.len() - i,
    {
        if x[i] != y[i] {
            proof {
                if a@ =~= b@ {
                    assert(x@ == y@);
                }
            }
            return false;
        }
        i = i + 1;
    }
    proof {
        assert(x@ =~= y@);
        assert(a@ == decode_utf8(a.spec_bytes()));
        assert(b@ == decode_utf8(b.spec_bytes()));
    }
    true
}

/// Byte-wise lexicographic order, the order of `str` and `String`.
pub open spec fn bytes_lt(a: Seq<u8>, b: Seq<u8>) -> bool
    decreases a.len(),
{
    if a.len() == 0 {
        b.len() > 0
    } else if b.len() == 0 {
        false
    } else if a[0] != b[0] {
        a[0] < b[0]
    } else {
        bytes_lt(a.drop_first(), b.drop_first())
    }
}

pub proof fn lemma_bytes_lt_irreflexive(a: Seq<u8>)
    ensures
        !bytes_lt(a, a),
    decreases a.len(),
{
    if a.len() > 0 {
        lemma_bytes_lt_irreflexive(a.drop_first());
    }
}

pub proof fn lemma_bytes_lt_transitive(a: Seq<u8>, b: Seq<u8>, c: Seq<u8>)
    requires
        bytes_lt(a, b),
        bytes_lt(b, c),
    ensures
        bytes_lt(a, c),
    decreases a.len(),
{
    if a.len() > 0 && b.len() > 0 && c.len() > 0 && a[0] == b[0] && b[0] == c[0] {
        lemma_bytes_lt_transitive(a.drop_first(), b.drop_first(), c.drop_first());
    }
}

pub proof fn lemma_bytes_lt_total(a: Seq<u8>, b: Seq<u8>)
    ensures
        a =~= b || bytes_lt(a, b) || bytes_lt(b, a),
    decreases a.len(),
{
    if a.len() > 0 && b.len() > 0 && a[0] == b[0] {
        lemma_bytes_lt_total(a.drop_first(), b.drop_first());
        if a.drop_first() =~= b.drop_first() {
            assert(a =~= seq![a[0]] + a.drop_first());
            assert(b =~= seq![b[0]] + b.drop_first());
        }
    }
}

/// Whether `a` comes before `b` in the byte-wise order of strings.
pub fn str_lt(a: &str, b: &str) -> (r: bool)
    ensures
        r == bytes_lt(a.spec_bytes(), b.spec_bytes()),
{
    let x = a.as_bytes();
    let y = b.as_bytes();
    let mut i: usize = 0;
    assert(x@.subrange(0, x@.len() as int) =~= x@);
    assert(y@.subrange(0, y@.len() as int) =~= y@);
    while i < x.len() && i < y.len()
        invariant
            i <= x.len(),
            i <= y.len(),
            x@ == a.spec_bytes(),
            y@ == b.spec_bytes(),
            bytes_lt(x@, y@) == bytes_lt(x@.subrange(i as int, x@.len() as int), y@.subrange(
                i as int,
                y@.len() as int,
            )),
        decreases x.len() - i,
    {
        if x[i] != y[i] {
            proof {
                let xs = x@.subrange(i as int, x@.len() as int);
                let ys = y@.subrange(i as int, y@.len() as int);
                assert(xs[0] == x@[i as int] && ys[0] == y@[i as int]);
                assert(xs.len() > 0 && ys.len() > 0);
                assert(bytes_lt(xs, ys) == (xs[0] < ys[0]));
            }
            return x[i] < y[i];
        }
        proof {
            let xs = x@.subrange(i as int, x@.len() as int);
            let ys = y@.subrange(i as int, y@.len() as int);
            assert(xs[0] == ys[0]);
            assert(xs.drop_first() =~= x@.subrange(i + 1, x@.len() as int));
            assert(ys.drop_first() =~= y@.subrange(i + 1, y@.len() as int));
        }
        i = i + 1;
    }
    proof {
        let xs = x@.subrange(i as int, x@.len() as int);
        let ys = y@.subrange(i as int, y@.len() as int);
        assert(xs.len() == x.len() - i && ys.len() == y.len() - i);
    }
    i == x.len() && i < y.len()
}

} // verus!

verus! {

/// The value of a run of decimal digits.
pub open spec fn digits_value(d: Seq<char>) -> int
    decreases d.len(),
{
    if d.len() == 0 {
        0
    } else {
        digits_value(d.drop_last()) * 10 + (d.last() as int - '0' as int)
    }
}

pub open spec fn all_digits(d: Seq<char>) -> bool {
    d.len() > 0 && forall|i: int| 0 <= i < d.len() ==> '0' <= #[trigger] d[i] <= '9'
}

/// The value of a run of ASCII digits is not negative.
pub proof fn lemma_digits_value_nonneg(d: Seq<char>)
    requires
        forall|i: int| 0 <= i < d.len() ==> '0' <= #[trigger] d[i] <= '9',
    ensures
        digits_value(d) >= 0,
    decreases d.len(),
{
    if d.len() > 0 {
        lemma_digits_value_nonneg(d.drop_last());
    }
}

/// The value of the first `k` digits is at most the value of all of them.
pub proof fn lemma_digits_prefix_le(d: Seq<char>, k: int)
    requires
        all_digits(d),
        0 <= k <= d.len(),
    ensures
        digits_value(d.take(k)) <= digits_value(d),
    decreases d.len() - k,
{
    if k < d.len() {
        let t = d.take(k + 1);
        assert(t.drop_last() =~= d.take(k));
        lemma_digits_value_nonneg(d.take(k));
        lemma_digits_prefix_le(d, k + 1);
    } else {
        assert(d.take(k) =~= d);
    }
}

/// What `i64::from_str` reads from a string: an optional `+` or `-`, then one
/// or more ASCII digits and nothing else, whose value fits in an `i64`.
pub open spec fn parse_i64_spec(s: Seq<char>) -> Option<i64> {
    let neg = s.len() > 0 && s[0] == '-';
    let d = if s.len() > 0 && (s[0] == '-' || s[0] == '+') { s.drop_first() } else { s };
    let v = if neg { -digits_value(d) } else { digits_value(d) };
    if all_digits(d) && i64::MIN <= v <= i64::MAX {
        Some(v as i64)
    } else {
        None
    }
}

/// The text with which `ParseIntError` reports why a string is not an
/// `i64`.
pub uninterp spec fn int_error_text(s: Seq<char>) -> Seq<char>;

/// What is known of the error text `t` for a string `s` that is not an
/// `i64`: it is one of the four texts of `ParseIntError`; an empty string is
/// reported empty; a lone sign is an invalid digit; digits alone, after an
/// optional sign, are a value out of range, too large or, after `-`, too small.
pub open spec fn int_error_cases(s: Seq<char>, t: Seq<char>) -> bool {
    let neg = s.len() > 0 && s[0] == '-';
    let d = if s.len() > 0 && (s[0] == '-' || s[0] == '+') { s.drop_first() } else { s };
    &&& t == "cannot parse integer from empty string"@ || t == "invalid digit found in string"@ || t
        == "number too large to fit in target type"@ || t == "number too small to fit in target type"@
    &&& s.len() == 0 ==> t == "cannot parse integer from empty string"@
    &&& (s.len() > 0 && d.len() == 0) ==> t == "invalid digit found in string"@
    &&& all_digits(d) ==> t == (if neg {
        "number too small to fit in target type"@
    } else {
        "number too large to fit in target type"@
    })
}

/// The value of the decimal digits of `s` from character `start` on, when
/// there is at least one, all are ASCII digits and the value fits in a `u64`.
pub fn digit_run_value(s: &str, start: usize) -> (r: Option<u64>)
    requires
        start <= s@.len(),
    ensures
        r == (if all_digits(s@.skip(start as int)) && digits_value(s@.skip(start as int)) <= u64::MAX {
            Some(digits_value(s@.skip(start as int)) as u64)
        } else {
            None
        }),
{
    let n = s.unicode_len();
    let ghost d = s@.skip(start as int);
    if start == n {
        return None;
    }
    let mut k: usize = start;
    while k < n
        invariant
            start <= k <= n,
            n == s@.len(),
            d == s@.skip(start as int),
            forall|i: int| 0 <= i < k - start ==> '0' <= #[trigger] d[i] <= '9',
        decreases n - k,
    {
        let c = s.get_char(k);
        assert(d[k - start] == c);
        if !('0' <= c && c <= '9') {
            assert(!all_digits(d));
            return None;
        }
        k = k + 1;
    }
    assert(all_digits(d));
    let mut v: u64 = 0;
    let mut k: usize = start;
    assert(d.take(0) =~= Seq::<char>::empty());
    while k < n
        invariant
            start <= k <= n,
            n == s@.len(),
            d == s@.skip(start as int),
            all_digits(d),
            v == digits_value(d.take(k - start)),
        decreases n - k,
    {
        let c = s.get_char(k);
        assert(d[k - start] == c);
        let dg: u64 = (c as u32 - '0' as u32) as u64;
        let ghost t = d.take(k - start + 1);
        proof {
            assert(t.drop_last() =~= d.take(k - start));
            assert(t.last() == c);
            assert(digits_value(t) == v * 10 + dg);
        }
        let next = match v.checked_mul(10) {
            Some(m) => m.checked_add(dg),
            None => None,
        };
        match next {
            Some(x) => {
                v = x;
            },
            None => {
                proof {
                    lemma_digits_prefix_le(d, k - start + 1);
                }
                return None;
            },
        }
        k = k + 1;
    }
    assert(d.take(n - start) =~= d);
    Some(v)
}

/// Calls `str::parse::<i64>` on a string that is not an `i64` and writes out
/// its `ParseIntError` with its `Display`. Claimed: the text is
/// `int_error_text(s@)`, a function of the string alone, with what
/// `int_error_cases` says of it. Which of an invalid digit and a value out of
/// range is reported for a string that has both is left unsaid.
#[verifier::external_body]
fn int_error(s: &str) -> (r: String)
    requires
        parse_i64_spec(s@) is None,
    ensures
        r@ == int_error_text(s@),
        int_error_cases(s@, r@),
{
    match s.parse::<i64>() {
        Err(e) => e.to_string(),
        Ok(_) => String::new(),
    }
}

/// Reads an `i64` written as an optional `+` or `-` and decimal digits only.
fn digits_i64(s: &str) -> (r: Option<i64>)
    ensures
        r == parse_i64_spec(s@),
{
    let n = s.unicode_len();
    let neg = n > 0 && s.get_char(0) == '-';
    let start: usize = if n > 0 && (s.get_char(0) == '-' || s.get_char(0) == '+') {
        1
    } else {
        0
    };
    assert(s@.skip(start as int) =~= (if s@.len() > 0 && (s@[0] == '-' || s@[0] == '+') {
        s@.drop_first()
    } else {
        s@
    }));
    proof {
        if all_digits(s@.skip(start as int)) {
            lemma_digits_value_nonneg(s@.skip(start as int));
        }
    }
    match digit_run_value(s, start) {
        None => None,
        Some(mag) => {
            if neg {
                if mag == 9223372036854775808u64 {
                    Some(i64::MIN)
                } else if mag < 9223372036854775808u64 {
                    Some(-(mag as i64))
                } else {
                    None
                }
            } else if mag <= 9223372036854775807u64 {
                Some(mag as i64)
            } else {
                None
            }
        },
    }
}

/// Reads an `i64` written as an optional `+` or `-` followed by decimal
/// digits only; else the reason, as `ParseIntError` words it.
pub(crate) fn parse_i64(s: &str) -> (r: Result<i64, String>)
    ensures
        match parse_i64_spec(s@) {
            Some(v) => r == Ok::<i64, String>(v),
            None => r matches Err(e) && e@ == int_error_text(s@) && int_error_cases(s@, e@),
        },
{
    match digits_i64(s) {
        Some(v) => Ok(v),
        None => Err(int_error(s)),
    }
}

/// The string with every trailing `c` removed.
pub open spec fn trim_end_char(s: Seq<char>, c: char) -> Seq<char>
    decreases s.len(),
{
    if s.len() > 0 && s.last() == c {
        trim_end_char(s.drop_last(), c)
    } else {
        s
    }
}

/// The string with every trailing `c` removed.
pub(crate) fn trim_end_matches_char(s: &str, c: char) -> (r: &str)
    ensures
        r@ == trim_end_char(s@, c),
{
    let n = s.unicode_len();
    let mut j: usize = n;
    assert(s@.take(n as int) =~= s@);
    while j > 0 && s.get_char(j - 1) == c
        invariant
            j <= n,
            n == s@.len(),
            trim_end_char(s@.take(j as int), c) == trim_end_char(s@, c),
        decreases j,
    {
        assert(s@.take(j as int).drop_last() =~= s@.take(j - 1));
        j = j - 1;
    }
    let r = s.substring_char(0, j);
    assert(r@ =~= s@.take(j as int));
    r
}

/// The refusal of a new series for a metric at its limit.
pub fn series_limit_message(metric: &str) -> (r: String)
    ensures
        r@ == "Series limit exceeded for metric "@ + metric@,
{
    join_text("Series limit exceeded for metric ", metric)
}

/// The encoding of joined strings is the joined encodings.
pub proof fn lemma_encode_concat(a: Seq<char>, b: Seq<char>)
    ensures
        vstd::utf8::encode_utf8(a + b) == vstd::utf8::encode_utf8(a) + vstd::utf8::encode_utf8(b),
    decreases a.len(),
{
    if a.len() == 0 {
        assert(a + b =~= b);
        assert(vstd::utf8::encode_utf8(a) =~= Seq::<u8>::empty());
        assert(Seq::<u8>::empty() + vstd::utf8::encode_utf8(b) =~= vstd::utf8::encode_utf8(b));
    } else {
        assert((a + b).drop_first() =~= a.drop_first() + b);
        assert((a + b)[0] == a[0]);
        lemma_encode_concat(a.drop_first(), b);
        let e = vstd::utf8::encode_scalar(a[0] as u32);
        assert(vstd::utf8::encode_utf8(a + b) =~= e + vstd::utf8::encode_utf8(a.drop_first() + b));
        assert(e + (vstd::utf8::encode_utf8(a.drop_first()) + vstd::utf8::encode_utf8(b)) =~= (e
            + vstd::utf8::encode_utf8(a.drop_first())) + vstd::utf8::encode_utf8(b));
    }
}

/// The string of `a` followed by `b`.
pub fn join_text(a: &str, b: &str) -> (r: String)
    ensures
        r@ == a@ + b@,
{
    let mut bytes: Vec<u8> = Vec::new();
    crate::engine::encoding::bytes::append_bytes(&mut bytes, a.as_bytes());
    crate::engine::encoding::bytes::append_bytes(&mut bytes, b.as_bytes());
    proof {
        lemma_encode_concat(a@, b@);
        assert(bytes@ == vstd::utf8::encode_utf8(a@ + b@));
        vstd::utf8::encode_utf8_valid_utf8(a@ + b@);
        vstd::utf8::encode_utf8_decode_utf8(a@ + b@);
    }
    match string_from_utf8(bytes) {
        Some(s) => s,
        None => {
            assert(false);
            String::new()
        },
    }
}

} // verus!

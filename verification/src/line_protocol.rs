use vstd::prelude::*;
use vstd::utf8::{encode_utf8, valid_utf8, decode_utf8, is_char_boundary};
use vstd::string::StringSliceAdditionalSpecFns;
use vstd::string::StrSliceExecFns;
use crate::text::{lemma_encode_injective, str_eq, bytes_lt, join_text, parse_i64, parse_i64_spec, int_error_text};
use crate::model::FieldValue;
use crate::engine::active_block::now_nanos;
use crate::series_key::{sort_tags_by_key, sort_by_key_spec, insert_by_key, key_before};

verus! {

/// The index of the first byte `c`, or the length when there is none.
pub open spec fn first_index(b: Seq<u8>, c: u8) -> int
    decreases b.len(),
{
    if b.len() == 0 {
        0
    } else if b[0] == c {
        0
    } else {
        1 + first_index(b.drop_first(), c)
    }
}

/// The pieces of `b` between the bytes `c`, as `str::split` gives them.
pub open spec fn split_bytes(b: Seq<u8>, c: u8) -> Seq<Seq<u8>>
    decreases b.len(),
{
    let i = first_index(b, c);
    if 0 <= i < b.len() {
        seq![b.take(i)] + split_bytes(b.skip(i + 1), c)
    } else {
        seq![b]
    }
}

/// A piece `key=value` split at its first `=`; `None` without one.
pub open spec fn pair_of(piece: Seq<u8>) -> Option<(Seq<u8>, Seq<u8>)> {
    let i = first_index(piece, 61u8);
    if 0 <= i < piece.len() {
        Some((piece.take(i), piece.skip(i + 1)))
    } else {
        None
    }
}

/// The pairs of the pieces that have an `=`, in order.
pub open spec fn pairs_of(pieces: Seq<Seq<u8>>) -> Seq<(Seq<u8>, Seq<u8>)>
    decreases pieces.len(),
{
    if pieces.len() == 0 {
        seq![]
    } else {
        match pair_of(pieces[0]) {
            Some(p) => seq![p] + pairs_of(pieces.drop_first()),
            None => pairs_of(pieces.drop_first()),
        }
    }
}

/// The metric of `measurement,tags`: the bytes before the first comma.
pub open spec fn metric_part(b: Seq<u8>) -> Seq<u8> {
    b.take(first_index(b, 44u8))
}

/// The tag pairs of `measurement,k=v,...`, in order.
pub open spec fn tag_part(b: Seq<u8>) -> Seq<(Seq<u8>, Seq<u8>)> {
    let i = first_index(b, 44u8);
    if 0 <= i < b.len() {
        pairs_of(split_bytes(b.skip(i + 1), 44u8))
    } else {
        seq![]
    }
}

/// The pairs whose key comes again later left out, so that the last value
/// of each key stays.
pub open spec fn keep_last(s: Seq<(Seq<u8>, Seq<u8>)>) -> Seq<(Seq<u8>, Seq<u8>)>
    decreases s.len(),
{
    if s.len() == 0 {
        seq![]
    } else if exists|j: int| 1 <= j < s.len() && #[trigger] s[j].0 == s[0].0 {
        keep_last(s.drop_first())
    } else {
        seq![s[0]] + keep_last(s.drop_first())
    }
}

/// A pair's key and value as bytes.
pub open spec fn pair_bytes(p: (String, String)) -> (Seq<u8>, Seq<u8>) {
    (encode_utf8(p.0@), encode_utf8(p.1@))
}

pub open spec fn pairs_bytes(s: Seq<(String, String)>) -> Seq<(Seq<u8>, Seq<u8>)> {
    s.map_values(|p: (String, String)| pair_bytes(p))
}

/// The pairs with `t` placed after every pair whose key does not sort after
/// its own.
pub open spec fn insert_by_key_bytes(s: Seq<(Seq<u8>, Seq<u8>)>, t: (Seq<u8>, Seq<u8>)) -> Seq<
    (Seq<u8>, Seq<u8>),
>
    decreases s.len(),
{
    if s.len() == 0 {
        seq![t]
    } else if bytes_lt(t.0, s.last().0) {
        insert_by_key_bytes(s.drop_last(), t).push(s.last())
    } else {
        s.push(t)
    }
}

/// The pairs ordered by key, equal keys kept in order.
pub open spec fn sort_pairs(s: Seq<(Seq<u8>, Seq<u8>)>) -> Seq<(Seq<u8>, Seq<u8>)>
    decreases s.len(),
{
    if s.len() == 0 {
        seq![]
    } else {
        insert_by_key_bytes(sort_pairs(s.drop_last()), s.last())
    }
}

/// What `measurement,k=v,...` reads as: the metric (an error when it is
/// empty), and the tags of the pairs with an `=`, the last value of a key
/// kept, in key order.
pub open spec fn measurement_spec(b: Seq<u8>) -> Option<(Seq<u8>, Seq<(Seq<u8>, Seq<u8>)>)> {
    if metric_part(b).len() == 0 {
        None
    } else {
        Some((metric_part(b), sort_pairs(keep_last(tag_part(b)))))
    }
}

proof fn lemma_first_index(b: Seq<u8>, c: u8, k: int)
    requires
        0 <= k <= b.len(),
        forall|j: int| 0 <= j < k ==> b[j] != c,
        k < b.len() ==> b[k] == c,
    ensures
        first_index(b, c) == k,
    decreases k,
{
    if k > 0 {
        lemma_first_index(b.drop_first(), c, k - 1);
    }
}

/// The position of an ASCII byte in valid UTF-8, and the position after it,
/// are character boundaries.
proof fn lemma_ascii_boundary(bytes: Seq<u8>, pos: int)
    requires
        valid_utf8(bytes),
        0 <= pos < bytes.len(),
        bytes[pos] < 0x80,
    ensures
        is_char_boundary(bytes, pos),
        is_char_boundary(bytes, pos + 1),
    decreases bytes.len(),
{
    vstd::utf8::is_char_boundary_iff_not_is_continuation_byte(bytes, pos);
    let l = vstd::utf8::length_of_first_scalar(bytes);
    let rest = vstd::utf8::pop_first_scalar(bytes);
    assert(vstd::utf8::valid_first_scalar(bytes));
    assert(valid_utf8(rest));
    assert(1 <= l <= bytes.len());
    if pos == 0 {
        assert(l == 1);
        assert(is_char_boundary(rest, 0));
    } else {
        assert(pos >= l);
        assert(rest =~= bytes.subrange(l, bytes.len() as int));
        assert(rest[pos - l] == bytes[pos]);
        lemma_ascii_boundary(rest, pos - l);
    }
}

/// The part of `s` between byte offsets `start` and `end`, both character
/// boundaries.
fn substr(s: &str, start: usize, end: usize) -> (r: &str)
    requires
        start <= end <= s.spec_bytes().len(),
        is_char_boundary(s.spec_bytes(), start as int),
        is_char_boundary(s.spec_bytes(), end as int),
    ensures
        r.spec_bytes() == s.spec_bytes().subrange(start as int, end as int),
{
    let (front, _) = s.split_at(end);
    proof {
        let fb = front.spec_bytes();
        broadcast use vstd::utf8::encode_utf8_valid_utf8;
        assert(valid_utf8(fb));
        if start < end {
            vstd::utf8::is_char_boundary_iff_not_is_continuation_byte(s.spec_bytes(), start as int);
            vstd::utf8::is_char_boundary_iff_not_is_continuation_byte(fb, start as int);
        } else {
            vstd::utf8::is_char_boundary_start_end_of_seq(fb);
        }
    }
    let (_, r) = front.split_at(start);
    r
}

/// The first index at or after `from`, before `end`, holding `c`; `end` when
/// there is none.
fn find_byte(b: &[u8], from: usize, end: usize, c: u8) -> (r: usize)
    requires
        from <= end <= b@.len(),
    ensures
        from <= r <= end,
        forall|j: int| from <= j < r ==> b@[j] != c,
        r < end ==> b@[r as int] == c,
{
    let mut i: usize = from;
    while i < end && b[i] != c
        invariant
            from <= i <= end,
            end <= b@.len(),
            forall|j: int| from <= j < i ==> b@[j] != c,
        decreases end - i,
    {
        i = i + 1;
    }
    i
}


proof fn lemma_insert_bytes(sorted: Seq<(String, String)>, t: (String, String))
    ensures
        pairs_bytes(insert_by_key(sorted, t)) == insert_by_key_bytes(pairs_bytes(sorted), pair_bytes(t)),
    decreases sorted.len(),
{
    let pb = pairs_bytes(sorted);
    if sorted.len() == 0 {
        assert(pairs_bytes(seq![t]) =~= seq![pair_bytes(t)]);
    } else {
        assert(pb.drop_last() =~= pairs_bytes(sorted.drop_last()));
        assert(pb.last() == pair_bytes(sorted.last()));
        if key_before(t.0@, sorted.last().0@) {
            lemma_insert_bytes(sorted.drop_last(), t);
            assert(pairs_bytes(insert_by_key(sorted.drop_last(), t).push(sorted.last())) =~= pairs_bytes(
                insert_by_key(sorted.drop_last(), t),
            ).push(pair_bytes(sorted.last())));
        } else {
            assert(pairs_bytes(sorted.push(t)) =~= pb.push(pair_bytes(t)));
        }
    }
}

proof fn lemma_sort_bytes(s: Seq<(String, String)>)
    ensures
        pairs_bytes(sort_by_key_spec(s)) == sort_pairs(pairs_bytes(s)),
    decreases s.len(),
{
    if s.len() > 0 {
        lemma_sort_bytes(s.drop_last());
        lemma_insert_bytes(sort_by_key_spec(s.drop_last()), s.last());
        assert(pairs_bytes(s).drop_last() =~= pairs_bytes(s.drop_last()));
        assert(pairs_bytes(s).last() == pair_bytes(s.last()));
    } else {
        assert(pairs_bytes(s) =~= Seq::<(Seq<u8>, Seq<u8>)>::empty());
        assert(pairs_bytes(sort_by_key_spec(s)) =~= Seq::<(Seq<u8>, Seq<u8>)>::empty());
    }
}

/// The pairs whose key does not come again later, in order.
fn keep_last_pairs(s: &Vec<(String, String)>) -> (r: Vec<(String, String)>)
    ensures
        pairs_bytes(r@) == keep_last(pairs_bytes(s@)),
{
    let ghost pb = pairs_bytes(s@);
    let mut out: Vec<(String, String)> = Vec::new();
    let mut i: usize = 0;
    assert(pb.skip(0) =~= pb);
    assert(pairs_bytes(out@) =~= Seq::<(Seq<u8>, Seq<u8>)>::empty());
    while i < s.len()
        invariant
            i <= s.len(),
            pb == pairs_bytes(s@),
            pairs_bytes(out@) + keep_last(pb.skip(i as int)) == keep_last(pb),
        decreases s.len() - i,
    {
        let mut j: usize = i + 1;
        let mut later = false;
        while j < s.len()
            invariant
                i < j <= s.len(),
                pb == pairs_bytes(s@),
                later == (exists|k: int| i < k < j && #[trigger] pb[k].0 == pb[i as int].0),
            decreases s.len() - j,
        {
            if str_eq(s[j].0.as_str(), s[i].0.as_str()) {
                assert(pb[j as int].0 == pb[i as int].0);
                later = true;
            } else {
                proof {
                    if pb[j as int].0 == pb[i as int].0 {
                        lemma_encode_injective(s@[j as int].0@, s@[i as int].0@);
                    }
                }
            }
            j = j + 1;
        }
        let ghost rest = pb.skip(i as int);
        assert(rest.drop_first() =~= pb.skip(i as int + 1));
        assert(rest[0] == pb[i as int]);
        assert(later == (exists|k: int| 1 <= k < rest.len() && #[trigger] rest[k].0 == rest[0].0)) by {
            if later {
                let k = choose|k: int| i < k < s.len() && #[trigger] pb[k].0 == pb[i as int].0;
                assert(rest[k - i].0 == rest[0].0);
            }
            if exists|k: int| 1 <= k < rest.len() && #[trigger] rest[k].0 == rest[0].0 {
                let k = choose|k: int| 1 <= k < rest.len() && #[trigger] rest[k].0 == rest[0].0;
                assert(pb[k + i].0 == pb[i as int].0);
            }
        }
        if !later {
            let k = s[i].0.clone();
            let v = s[i].1.clone();
            let ghost before = out@;
            out.push((k, v));
            assert(pairs_bytes(out@) =~= pairs_bytes(before).push(pb[i as int]));
            assert(pairs_bytes(before).push(pb[i as int]) + keep_last(pb.skip(i as int + 1)) =~= pairs_bytes(
                before,
            ) + (seq![pb[i as int]] + keep_last(pb.skip(i as int + 1))));
        }
        i = i + 1;
    }
    assert(pb.skip(s.len() as int) =~= Seq::<(Seq<u8>, Seq<u8>)>::empty());
    assert(pairs_bytes(out@) + Seq::<(Seq<u8>, Seq<u8>)>::empty() =~= pairs_bytes(out@));
    out
}

/// Reads `measurement,key=value,...`: the metric before the first comma,
/// and the tags of the comma-separated pairs that have an `=` (split at the
/// first one), the last value of a key kept, in key order. An empty metric is
/// an error.
pub fn parse_measurement_and_tags(input: &str) -> (r: Result<(String, Vec<(String, String)>), String>)
    ensures
        match r {
            Ok((m, tags)) => measurement_spec(input.spec_bytes()) == Some(
                (encode_utf8(m@), pairs_bytes(tags@)),
            ),
            Err(e) => measurement_spec(input.spec_bytes()) is None && e@
                == "metric name cannot be empty"@,
        },
{
    let b = input.as_bytes();
    let n = b.len();
    proof {
        vstd::utf8::encode_utf8_valid_utf8(input@);
        vstd::utf8::is_char_boundary_start_end_of_seq(b@);
    }
    let pos = find_byte(b, 0, n, 44u8);
    proof {
        lemma_first_index(b@, 44u8, pos as int);
        if pos < n {
            lemma_ascii_boundary(b@, pos as int);
        }
    }
    let m = substr(input, 0, pos);
    if m.as_bytes().len() == 0 {
        assert(metric_part(b@) =~= m.spec_bytes());
        return Err("metric name cannot be empty".to_owned());
    }
    let metric = m.to_owned();
    assert(metric_part(b@) =~= encode_utf8(metric@));
    let mut pairs: Vec<(String, String)> = Vec::new();
    if pos < n {
        let ghost all = split_bytes(b@.skip(pos + 1), 44u8);
        let mut start: usize = pos + 1;
        let mut done = false;
        assert(pairs_bytes(pairs@) =~= Seq::<(Seq<u8>, Seq<u8>)>::empty());
        while !done
            invariant
                b@ == input.spec_bytes(),
                n == b@.len(),
                valid_utf8(b@),
                pos < start <= n,
                is_char_boundary(b@, start as int),
                is_char_boundary(b@, n as int),
                !done ==> pairs_of(all) == pairs_bytes(pairs@) + pairs_of(split_bytes(b@.skip(start as int), 44u8)),
                done ==> pairs_of(all) == pairs_bytes(pairs@),
                all == split_bytes(b@.skip(pos + 1), 44u8),
            decreases n + 1 - start + (if done { 0int } else { 1int }),
        {
            let end = find_byte(b, start, n, 44u8);
            let ghost rest = b@.skip(start as int);
            proof {
                lemma_first_index(rest, 44u8, end - start);
                if end < n {
                    lemma_ascii_boundary(b@, end as int);
                    assert(rest.skip(end - start + 1) =~= b@.skip(end + 1));
                }
            }
            let ghost piece = rest.take(end - start);
            assert(piece =~= b@.subrange(start as int, end as int));
            let eq = find_byte(b, start, end, 61u8);
            proof {
                lemma_first_index(piece, 61u8, eq - start);
            }
            let ghost before = pairs@;
            if eq < end {
                proof {
                    lemma_ascii_boundary(b@, eq as int);
                }
                let k = substr(input, start, eq).to_owned();
                let v = substr(input, eq + 1, end).to_owned();
                assert(encode_utf8(k@) =~= piece.take(eq - start));
                assert(encode_utf8(v@) =~= piece.skip(eq - start + 1));
                pairs.push((k, v));
                assert(pairs_bytes(pairs@) =~= pairs_bytes(before) + seq![(encode_utf8(k@), encode_utf8(v@))]);
            }
            proof {
                assert(pair_of(piece) == (if eq < end {
                    Some((piece.take(eq - start), piece.skip(eq - start + 1)))
                } else {
                    None::<(Seq<u8>, Seq<u8>)>
                }));
            }
            if end == n {
                proof {
                    assert(rest.take(end - start) =~= rest);
                    assert(split_bytes(rest, 44u8) == seq![rest]);
                    assert(seq![rest].drop_first() =~= Seq::<Seq<u8>>::empty());
                    assert(seq![rest][0] == rest);
                    assert(pairs_of(seq![rest]) == (match pair_of(rest) {
                        Some(p) => seq![p] + pairs_of(Seq::<Seq<u8>>::empty()),
                        None => pairs_of(Seq::<Seq<u8>>::empty()),
                    }));
                    assert(seq![rest].drop_first() =~= Seq::<Seq<u8>>::empty());
                    if eq < end {
                        assert(pairs_bytes(before) + (seq![(piece.take(eq - start), piece.skip(eq - start + 1))] + Seq::<(Seq<u8>, Seq<u8>)>::empty()) =~= pairs_bytes(pairs@));
                    } else {
                        assert(pairs_bytes(before) + Seq::<(Seq<u8>, Seq<u8>)>::empty() =~= pairs_bytes(pairs@));
                    }
                }
                done = true;
            } else {
                proof {
                    let tail = split_bytes(b@.skip(end + 1), 44u8);
                    assert(split_bytes(rest, 44u8) == seq![piece] + tail);
                    assert((seq![piece] + tail).drop_first() =~= tail);
                    assert((seq![piece] + tail)[0] == piece);
                    if eq < end {
                        assert(pairs_bytes(before) + (seq![(piece.take(eq - start), piece.skip(eq - start + 1))] + pairs_of(tail)) =~= pairs_bytes(pairs@) + pairs_of(tail));
                    }
                }
                start = end + 1;
            }
        }
        assert(b@.skip(pos + 1) =~= b@.subrange(pos + 1, n as int));
    } else {
        assert(pairs_bytes(pairs@) =~= Seq::<(Seq<u8>, Seq<u8>)>::empty());
    }
    assert(pairs_bytes(pairs@) == tag_part(b@));
    let kept = keep_last_pairs(&pairs);
    let tags = sort_tags_by_key(&kept);
    proof {
        lemma_sort_bytes(kept@);
    }
    Ok((metric, tags))
}

/// The characters `char::is_whitespace` accepts (Unicode `White_Space`).
pub open spec fn is_ws(c: char) -> bool {
    ||| ('\u{9}' <= c && c <= '\u{d}')
    ||| c == ' '
    ||| c == '\u{85}'
    ||| c == '\u{a0}'
    ||| c == '\u{1680}'
    ||| ('\u{2000}' <= c && c <= '\u{200a}')
    ||| c == '\u{2028}'
    ||| c == '\u{2029}'
    ||| c == '\u{202f}'
    ||| c == '\u{205f}'
    ||| c == '\u{3000}'
}

pub open spec fn trim_start_spec(s: Seq<char>) -> Seq<char>
    decreases s.len(),
{
    if s.len() > 0 && is_ws(s[0]) {
        trim_start_spec(s.drop_first())
    } else {
        s
    }
}

pub open spec fn trim_end_spec(s: Seq<char>) -> Seq<char>
    decreases s.len(),
{
    if s.len() > 0 && is_ws(s.last()) {
        trim_end_spec(s.drop_last())
    } else {
        s
    }
}

/// The string without its leading and trailing whitespace.
pub open spec fn trim_spec(s: Seq<char>) -> Seq<char> {
    trim_end_spec(trim_start_spec(s))
}

/// Whether `c` is whitespace as `char::is_whitespace` has it.
fn is_ws_char(c: char) -> (r: bool)
    ensures
        r == is_ws(c),
{
    ('\u{9}' <= c && c <= '\u{d}') || c == ' ' || c == '\u{85}' || c == '\u{a0}' || c == '\u{1680}'
        || ('\u{2000}' <= c && c <= '\u{200a}') || c == '\u{2028}' || c == '\u{2029}' || c == '\u{202f}'
        || c == '\u{205f}' || c == '\u{3000}'
}

/// The string without its leading and trailing whitespace.
fn trim_ws(s: &str) -> (r: &str)
    ensures
        r@ == trim_spec(s@),
{
    let n = s.unicode_len();
    let mut a: usize = 0;
    assert(s@.skip(0) =~= s@);
    while a < n && is_ws_char(s.get_char(a))
        invariant
            a <= n,
            n == s@.len(),
            trim_start_spec(s@.skip(a as int)) == trim_start_spec(s@),
        decreases n - a,
    {
        assert(s@.skip(a as int).drop_first() =~= s@.skip(a + 1));
        a = a + 1;
    }
    let ghost st = s@.skip(a as int);
    assert(trim_start_spec(s@) == st);
    let mut b: usize = n;
    assert(s@.subrange(a as int, n as int) =~= st);
    while b > a && is_ws_char(s.get_char(b - 1))
        invariant
            a <= b <= n,
            n == s@.len(),
            st == s@.skip(a as int),
            trim_end_spec(s@.subrange(a as int, b as int)) == trim_end_spec(st),
        decreases b,
    {
        assert(s@.subrange(a as int, b as int).drop_last() =~= s@.subrange(a as int, b - 1));
        b = b - 1;
    }
    s.substring_char(a, b)
}

/// The three parts of a line split at its first two spaces: the measurement
/// with its tags, the fields, and the timestamp when there is a second space.
pub open spec fn line_parts(b: Seq<u8>) -> Option<(Seq<u8>, Seq<u8>, Option<Seq<u8>>)> {
    let i1 = first_index(b, 32u8);
    if i1 >= b.len() {
        None
    } else {
        let rest = b.skip(i1 + 1);
        let i2 = first_index(rest, 32u8);
        if i2 >= rest.len() {
            Some((b.take(i1), rest, None))
        } else {
            Some((b.take(i1), rest.take(i2), Some(rest.skip(i2 + 1))))
        }
    }
}

/// Why a line is not a point.
pub open spec fn format_error_text() -> Seq<char> {
    "invalid line protocol format: need at least measurement and fields"@
}

/// A line split into its parts: the measurement with its tags, the fields,
/// and the timestamp text when there is one.
#[derive(Debug)]
pub struct LineParts {
    pub measurement: String,
    pub fields: String,
    pub timestamp: Option<String>,
}

/// Splits a line (trimmed of surrounding whitespace) at its first two
/// spaces. An empty line, and a line with no space, are errors.
pub fn split_line(line: &str) -> (r: Result<LineParts, String>)
    ensures
        ({
            let t = trim_spec(line@);
            let b = encode_utf8(t);
            match r {
                Err(e) => (t.len() == 0 && e@ == "empty line"@) || (t.len() > 0 && line_parts(b) is None
                    && e@ == format_error_text()),
                Ok(p) => t.len() > 0 && (line_parts(b) matches Some((m, f, ts)) && {
                    &&& encode_utf8(p.measurement@) == m
                    &&& encode_utf8(p.fields@) == f
                    &&& match p.timestamp {
                        Some(x) => ts == Some(encode_utf8(x@)),
                        None => ts is None,
                    }
                }),
            }
        }),
{
    let t = trim_ws(line);
    let b = t.as_bytes();
    let n = b.len();
    proof {
        crate::alert::store::lemma_encode_empty_pub(t@);
        vstd::utf8::encode_utf8_valid_utf8(t@);
        vstd::utf8::is_char_boundary_start_end_of_seq(b@);
    }
    if n == 0 {
        return Err("empty line".to_owned());
    }
    let i1 = find_byte(b, 0, n, 32u8);
    proof {
        lemma_first_index(b@, 32u8, i1 as int);
    }
    if i1 == n {
        return Err("invalid line protocol format: need at least measurement and fields".to_owned());
    }
    proof {
        lemma_ascii_boundary(b@, i1 as int);
    }
    let i2 = find_byte(b, i1 + 1, n, 32u8);
    let ghost rest = b@.skip(i1 + 1);
    proof {
        lemma_first_index(rest, 32u8, i2 - i1 - 1);
    }
    let measurement = substr(t, 0, i1).to_owned();
    assert(encode_utf8(measurement@) =~= b@.take(i1 as int));
    if i2 == n {
        let fields = substr(t, i1 + 1, n).to_owned();
        assert(encode_utf8(fields@) =~= rest);
        return Ok(LineParts { measurement, fields, timestamp: None });
    }
    proof {
        lemma_ascii_boundary(b@, i2 as int);
    }
    let fields = substr(t, i1 + 1, i2).to_owned();
    let ts = substr(t, i2 + 1, n).to_owned();
    assert(encode_utf8(fields@) =~= rest.take(i2 - i1 - 1));
    assert(encode_utf8(ts@) =~= rest.skip(i2 - i1));
    Ok(LineParts { measurement, fields, timestamp: Some(ts) })
}

/// A field value as the line states it; a number is left as text, to be
/// read as a float.
#[derive(Debug, PartialEq, Eq)]
pub enum RawValue {
    Integer(i64),
    Bool(bool),
    Text(String),
    Number(String),
}

/// A field value as a value.
pub enum RawSpec {
    Integer(i64),
    Bool(bool),
    Text(Seq<char>),
    Number(Seq<char>),
}

impl View for RawValue {
    type V = RawSpec;

    open spec fn view(&self) -> RawSpec {
        match self {
            RawValue::Integer(i) => RawSpec::Integer(*i),
            RawValue::Bool(b) => RawSpec::Bool(*b),
            RawValue::Text(s) => RawSpec::Text(s@),
            RawValue::Number(s) => RawSpec::Number(s@),
        }
    }
}

pub open spec fn true_lower() -> Seq<u8> {
    seq![116u8, 114u8, 117u8, 101u8]
}

pub open spec fn true_upper() -> Seq<u8> {
    seq![84u8, 82u8, 85u8, 69u8]
}

pub open spec fn false_lower() -> Seq<u8> {
    seq![102u8, 97u8, 108u8, 115u8, 101u8]
}

pub open spec fn false_upper() -> Seq<u8> {
    seq![70u8, 65u8, 76u8, 83u8, 69u8]
}

/// What a field value reads as: ending in `i`, an integer (or the error
/// that names the text); `true`/`TRUE` and `false`/`FALSE`, booleans; quoted,
/// the text between the quotes; anything else, a number.
pub open spec fn value_spec(vb: Seq<u8>) -> Result<RawSpec, Seq<char>> {
    if vb.len() > 0 && vb.last() == 105u8 {
        let is = decode_utf8(vb.drop_last());
        match parse_i64_spec(is) {
            Some(x) => Ok(RawSpec::Integer(x)),
            None => Err("invalid integer "@ + is + ": "@ + int_error_text(is)),
        }
    } else if vb == true_lower() || vb == true_upper() {
        Ok(RawSpec::Bool(true))
    } else if vb == false_lower() || vb == false_upper() {
        Ok(RawSpec::Bool(false))
    } else if vb.len() > 0 && vb[0] == 34u8 && vb.last() == 34u8 {
        Ok(RawSpec::Text(decode_utf8(vb.subrange(1, vb.len() - 1))))
    } else {
        Ok(RawSpec::Number(decode_utf8(vb)))
    }
}

proof fn lemma_ascii_bytes(s: Seq<char>)
    requires
        vstd::utf8::is_ascii_chars(s),
    ensures
        encode_utf8(s) == s.map_values(|c: char| c as u8),
{
    vstd::utf8::is_ascii_chars_encode_utf8(s);
    assert(encode_utf8(s) =~= s.map_values(|c: char| c as u8));
}

/// A field value reads as a boolean exactly when it is spelled `true`,
/// `TRUE`, `false` or `FALSE`: the first two read as true, the last two as
/// false, and no other text reads as a boolean.
pub proof fn lemma_boolean_values(s: Seq<char>)
    ensures
        (value_spec(encode_utf8(s)) == Ok::<RawSpec, Seq<char>>(RawSpec::Bool(true))) <==> (s == "true"@ || s
            == "TRUE"@),
        (value_spec(encode_utf8(s)) == Ok::<RawSpec, Seq<char>>(RawSpec::Bool(false))) <==> (s == "false"@
            || s == "FALSE"@),
{
    reveal_strlit("true");
    reveal_strlit("TRUE");
    reveal_strlit("false");
    reveal_strlit("FALSE");
    lemma_ascii_bytes("true"@);
    lemma_ascii_bytes("TRUE"@);
    lemma_ascii_bytes("false"@);
    lemma_ascii_bytes("FALSE"@);
    assert(encode_utf8("true"@) =~= true_lower());
    assert(encode_utf8("TRUE"@) =~= true_upper());
    assert(encode_utf8("false"@) =~= false_lower());
    assert(encode_utf8("FALSE"@) =~= false_upper());
    let vb = encode_utf8(s);
    if vb == true_lower() {
        lemma_encode_injective(s, "true"@);
    }
    if vb == true_upper() {
        lemma_encode_injective(s, "TRUE"@);
    }
    if vb == false_lower() {
        lemma_encode_injective(s, "false"@);
    }
    if vb == false_upper() {
        lemma_encode_injective(s, "FALSE"@);
    }
}

/// Whether the bytes of `a` are those of `lit`.
fn bytes_are(a: &[u8], lit: &Vec<u8>) -> (r: bool)
    ensures
        r == (a@ == lit@),
{
    if a.len() != lit.len() {
        return false;
    }
    let mut i: usize = 0;
    while i < a.len()
        invariant
            i <= a.len(),
            a.len() == lit.len(),
            forall|j: int| 0 <= j < i ==> a@[j] == lit@[j],
        decreases a.len() - i,
    {
        if a[i] != lit[i] {
            return false;
        }
        i = i + 1;
    }
    assert(a@ =~= lit@);
    true
}

/// Reads one field value. A lone `"` is left out: slicing between its
/// quotes cannot be done.
pub fn classify_value(v: &str) -> (r: Result<RawValue, String>)
    requires
        v.spec_bytes() != seq![34u8],
    ensures
        match r {
            Ok(x) => value_spec(v.spec_bytes()) == Ok::<RawSpec, Seq<char>>(x@),
            Err(e) => value_spec(v.spec_bytes()) == Err::<RawSpec, Seq<char>>(e@),
        },
{
    let b = v.as_bytes();
    let n = b.len();
    proof {
        vstd::utf8::encode_utf8_valid_utf8(v@);
        vstd::utf8::is_char_boundary_start_end_of_seq(b@);
        vstd::utf8::encode_utf8_decode_utf8(v@);
    }
    if n > 0 && b[n - 1] == 105u8 {
        proof {
            lemma_ascii_boundary(b@, n - 1);
        }
        let is = substr(v, 0, n - 1);
        proof {
            vstd::utf8::encode_utf8_decode_utf8(is@);
            assert(b@.drop_last() =~= b@.subrange(0, n - 1));
        }
        return match parse_i64(is) {
            Ok(x) => Ok(RawValue::Integer(x)),
            Err(e) => {
                let a = join_text("invalid integer ", is);
                let c = join_text(a.as_str(), ": ");
                Err(join_text(c.as_str(), e.as_str()))
            },
        };
    }
    let t1: Vec<u8> = vec![116u8, 114u8, 117u8, 101u8];
    let t2: Vec<u8> = vec![84u8, 82u8, 85u8, 69u8];
    let f1: Vec<u8> = vec![102u8, 97u8, 108u8, 115u8, 101u8];
    let f2: Vec<u8> = vec![70u8, 65u8, 76u8, 83u8, 69u8];
    assert(t1@ =~= true_lower() && t2@ =~= true_upper() && f1@ =~= false_lower() && f2@ =~= false_upper());
    if bytes_are(b, &t1) || bytes_are(b, &t2) {
        return Ok(RawValue::Bool(true));
    }
    if bytes_are(b, &f1) || bytes_are(b, &f2) {
        return Ok(RawValue::Bool(false));
    }
    if n > 0 && b[0] == 34u8 && b[n - 1] == 34u8 {
        assert(n >= 2) by {
            if n == 1 {
                assert(b@ =~= seq![34u8]);
            }
        }
        proof {
            lemma_ascii_boundary(b@, 0);
            lemma_ascii_boundary(b@, n - 1);
        }
        let inner = substr(v, 1, n - 1);
        proof {
            vstd::utf8::encode_utf8_decode_utf8(inner@);
        }
        return Ok(RawValue::Text(inner.to_owned()));
    }
    Ok(RawValue::Number(v.to_owned()))
}

/// The fields of a field list read in order: the pairs before the first
/// error, and that error (a piece without `=`, or an unreadable integer).
pub open spec fn fields_scan(pieces: Seq<Seq<u8>>) -> (Seq<(Seq<char>, RawSpec)>, Option<Seq<char>>)
    decreases pieces.len(),
{
    if pieces.len() == 0 {
        (seq![], None)
    } else {
        match pair_of(pieces[0]) {
            None => (seq![], Some("invalid field pair: "@ + decode_utf8(pieces[0]))),
            Some((k, v)) => match value_spec(v) {
                Err(e) => (seq![], Some(e)),
                Ok(x) => {
                    let rest = fields_scan(pieces.drop_first());
                    (seq![(decode_utf8(k), x)] + rest.0, rest.1)
                },
            },
        }
    }
}

/// No value read before the scan stops is a lone `"`.
pub open spec fn scan_ok(pieces: Seq<Seq<u8>>) -> bool
    decreases pieces.len(),
{
    pieces.len() == 0 || match pair_of(pieces[0]) {
        None => true,
        Some((k, v)) => v != seq![34u8] && (value_spec(v) is Ok ==> scan_ok(pieces.drop_first())),
    }
}

pub open spec fn raw_view(s: Seq<(String, RawValue)>) -> Seq<(Seq<char>, RawSpec)> {
    s.map_values(|p: (String, RawValue)| (p.0@, p.1@))
}

/// Reads a comma-separated list of `key=value` fields, in order, up to the
/// first error.
pub fn split_fields(input: &str) -> (r: (Vec<(String, RawValue)>, Option<String>))
    requires
        scan_ok(split_bytes(input.spec_bytes(), 44u8)),
    ensures
        ({
            let sc = fields_scan(split_bytes(input.spec_bytes(), 44u8));
            &&& raw_view(r.0@) == sc.0
            &&& match r.1 {
                Some(e) => sc.1 == Some(e@),
                None => sc.1 is None,
            }
        }),
{
    let b = input.as_bytes();
    let n = b.len();
    proof {
        vstd::utf8::encode_utf8_valid_utf8(input@);
        vstd::utf8::is_char_boundary_start_end_of_seq(b@);
    }
    let ghost all = split_bytes(b@, 44u8);
    let mut out: Vec<(String, RawValue)> = Vec::new();
    let mut start: usize = 0;
    assert(b@.skip(0) =~= b@);
    assert(raw_view(out@) =~= Seq::<(Seq<char>, RawSpec)>::empty());
    loop
        invariant
            b@ == input.spec_bytes(),
            n == b@.len(),
            valid_utf8(b@),
            start <= n,
            is_char_boundary(b@, start as int),
            is_char_boundary(b@, n as int),
            all == split_bytes(b@, 44u8),
            scan_ok(split_bytes(b@.skip(start as int), 44u8)),
            fields_scan(all).0 == raw_view(out@) + fields_scan(split_bytes(b@.skip(start as int), 44u8)).0,
            fields_scan(all).1 == fields_scan(split_bytes(b@.skip(start as int), 44u8)).1,
        decreases n + 1 - start,
    {
        let end = find_byte(b, start, n, 44u8);
        let ghost rest = b@.skip(start as int);
        proof {
            lemma_first_index(rest, 44u8, end - start);
            if end < n {
                lemma_ascii_boundary(b@, end as int);
                assert(rest.skip(end - start + 1) =~= b@.skip(end + 1));
            }
        }
        let ghost piece = rest.take(end - start);
        assert(piece =~= b@.subrange(start as int, end as int));
        let ghost tail = if end < n { split_bytes(b@.skip(end + 1), 44u8) } else { Seq::<Seq<u8>>::empty() };
        proof {
            if end < n {
                assert(split_bytes(rest, 44u8) == seq![piece] + tail);
            } else {
                assert(rest.take(end - start) =~= rest);
                assert(split_bytes(rest, 44u8) == seq![rest]);
                assert(seq![rest] =~= seq![piece] + tail);
            }
            assert((seq![piece] + tail).drop_first() =~= tail);
            assert((seq![piece] + tail)[0] == piece);
        }
        let eq = find_byte(b, start, end, 61u8);
        proof {
            lemma_first_index(piece, 61u8, eq - start);
        }
        if eq == end {
            let p = substr(input, start, end);
            proof {
                vstd::utf8::encode_utf8_decode_utf8(p@);
            }
            let msg = join_text("invalid field pair: ", p);
            return (out, Some(msg));
        }
        proof {
            lemma_ascii_boundary(b@, eq as int);
        }
        let k = substr(input, start, eq);
        let v = substr(input, eq + 1, end);
        proof {
            vstd::utf8::encode_utf8_decode_utf8(k@);
            assert(k.spec_bytes() =~= piece.take(eq - start));
            assert(v.spec_bytes() =~= piece.skip(eq - start + 1));
        }
        match classify_value(v) {
            Err(e) => {
                return (out, Some(e));
            },
            Ok(x) => {
                let ghost before = out@;
                let ghost xv = x@;
                out.push((k.to_owned(), x));
                assert(raw_view(out@) =~= raw_view(before).push((k@, xv)));
                assert(raw_view(before).push((k@, xv)) + fields_scan(tail).0 =~= raw_view(before) + (seq![
                    (decode_utf8(piece.take(eq - start)), xv),
                ] + fields_scan(tail).0));
            },
        }
        if end == n {
            assert(fields_scan(tail).0 =~= Seq::<(Seq<char>, RawSpec)>::empty());
            assert(raw_view(out@) + Seq::<(Seq<char>, RawSpec)>::empty() =~= raw_view(out@));
            return (out, None);
        }
        start = end + 1;
    }
}

/// Whether a field list can be read without meeting a lone `"` as a value
/// before the first error (reading one is refused: there is nothing between
/// its quotes to take).
pub fn fields_scan_ok(input: &str) -> (r: bool)
    ensures
        r == scan_ok(split_bytes(input.spec_bytes(), 44u8)),
{
    let b = input.as_bytes();
    let n = b.len();
    proof {
        vstd::utf8::encode_utf8_valid_utf8(input@);
        vstd::utf8::is_char_boundary_start_end_of_seq(b@);
    }
    let ghost all = split_bytes(b@, 44u8);
    let mut start: usize = 0;
    assert(b@.skip(0) =~= b@);
    loop
        invariant
            b@ == input.spec_bytes(),
            n == b@.len(),
            valid_utf8(b@),
            start <= n,
            is_char_boundary(b@, start as int),
            is_char_boundary(b@, n as int),
            all == split_bytes(b@, 44u8),
            scan_ok(all) == scan_ok(split_bytes(b@.skip(start as int), 44u8)),
        decreases n + 1 - start,
    {
        let end = find_byte(b, start, n, 44u8);
        let ghost rest = b@.skip(start as int);
        proof {
            lemma_first_index(rest, 44u8, end - start);
            if end < n {
                lemma_ascii_boundary(b@, end as int);
                assert(rest.skip(end - start + 1) =~= b@.skip(end + 1));
            }
        }
        let ghost piece = rest.take(end - start);
        assert(piece =~= b@.subrange(start as int, end as int));
        let ghost tail = if end < n { split_bytes(b@.skip(end + 1), 44u8) } else { Seq::<Seq<u8>>::empty() };
        proof {
            if end < n {
                assert(split_bytes(rest, 44u8) == seq![piece] + tail);
            } else {
                assert(rest.take(end - start) =~= rest);
                assert(split_bytes(rest, 44u8) == seq![rest]);
                assert(seq![rest] =~= seq![piece] + tail);
            }
            assert((seq![piece] + tail).drop_first() =~= tail);
            assert((seq![piece] + tail)[0] == piece);
        }
        let eq = find_byte(b, start, end, 61u8);
        proof {
            lemma_first_index(piece, 61u8, eq - start);
        }
        if eq == end {
            return true;
        }
        proof {
            lemma_ascii_boundary(b@, eq as int);
        }
        let v = substr(input, eq + 1, end);
        proof {
            assert(v.spec_bytes() =~= piece.skip(eq - start + 1));
        }
        if end - eq == 2 && b[eq + 1] == 34u8 {
            assert(v.spec_bytes() =~= seq![34u8]);
            return false;
        }
        assert(v.spec_bytes() != seq![34u8]) by {
            if v.spec_bytes() =~= seq![34u8] {
                assert(v.spec_bytes()[0] == b@[eq + 1]);
            }
        }
        assert(pair_of(piece) == Some((piece.take(eq - start), v.spec_bytes())));
        assert(scan_ok(split_bytes(rest, 44u8)) == (value_spec(v.spec_bytes()) is Ok ==> scan_ok(tail)));
        match classify_value(v) {
            Err(_) => {
                return true;
            },
            Ok(_) => {},
        }
        if end == n {
            assert(tail.len() == 0);
            return true;
        }
        start = end + 1;
    }
}

/// The fields whose key comes again later left out, so that the last value
/// of each key stays.
pub open spec fn keep_last_fields(s: Seq<(String, FieldValue)>) -> Seq<(String, FieldValue)>
    decreases s.len(),
{
    if s.len() == 0 {
        seq![]
    } else if exists|j: int| 1 <= j < s.len() && #[trigger] s[j].0@ == s[0].0@ {
        keep_last_fields(s.drop_first())
    } else {
        seq![s[0]] + keep_last_fields(s.drop_first())
    }
}

/// The fields with `t` placed after every field whose key does not sort
/// after its own.
pub open spec fn insert_field(s: Seq<(String, FieldValue)>, t: (String, FieldValue)) -> Seq<(String, FieldValue)>
    decreases s.len(),
{
    if s.len() == 0 {
        seq![t]
    } else if key_before(t.0@, s.last().0@) {
        insert_field(s.drop_last(), t).push(s.last())
    } else {
        s.push(t)
    }
}

/// The fields ordered by key, equal keys kept in order.
pub open spec fn sort_fields_spec(s: Seq<(String, FieldValue)>) -> Seq<(String, FieldValue)>
    decreases s.len(),
{
    if s.len() == 0 {
        seq![]
    } else {
        insert_field(sort_fields_spec(s.drop_last()), s.last())
    }
}

proof fn lemma_insert_field_at(s: Seq<(String, FieldValue)>, t: (String, FieldValue), j: int)
    requires
        0 <= j <= s.len(),
        forall|k: int| j <= k < s.len() ==> key_before(t.0@, #[trigger] s[k].0@),
        j > 0 ==> !key_before(t.0@, s[j - 1].0@),
    ensures
        insert_field(s, t) == s.insert(j, t),
    decreases s.len(),
{
    if s.len() == 0 {
        assert(s.insert(j, t) =~= seq![t]);
    } else if j == s.len() {
        assert(s.insert(j, t) =~= s.push(t));
    } else {
        lemma_insert_field_at(s.drop_last(), t, j);
        assert(s.drop_last().insert(j, t).push(s.last()) =~= s.insert(j, t));
    }
}

/// The fields of a point: the last value of each key, in key order; at least
/// one is required.
pub fn finish_fields(fields: Vec<(String, FieldValue)>) -> (r: Result<Vec<(String, FieldValue)>, String>)
    ensures
        fields@.len() == 0 ==> (r matches Err(e) && e@ == "at least one field is required"@),
        fields@.len() > 0 ==> (r matches Ok(v) && v@ == sort_fields_spec(keep_last_fields(fields@))),
{
    if fields.len() == 0 {
        return Err("at least one field is required".to_owned());
    }
    let s = &fields;
    let mut kept: Vec<(String, FieldValue)> = Vec::new();
    let mut i: usize = 0;
    assert(s@.skip(0) =~= s@);
    while i < s.len()
        invariant
            i <= s.len(),
            kept@ + keep_last_fields(s@.skip(i as int)) == keep_last_fields(s@),
        decreases s.len() - i,
    {
        let mut j: usize = i + 1;
        let mut later = false;
        while j < s.len()
            invariant
                i < j <= s.len(),
                later == (exists|k: int| i < k < j && #[trigger] s@[k].0@ == s@[i as int].0@),
            decreases s.len() - j,
        {
            if str_eq(s[j].0.as_str(), s[i].0.as_str()) {
                assert(s@[j as int].0@ == s@[i as int].0@);
                later = true;
            }
            j = j + 1;
        }
        let ghost rest = s@.skip(i as int);
        assert(rest.drop_first() =~= s@.skip(i as int + 1));
        assert(rest[0] == s@[i as int]);
        assert(later == (exists|k: int| 1 <= k < rest.len() && #[trigger] rest[k].0@ == rest[0].0@)) by {
            if later {
                let k = choose|k: int| i < k < s.len() && #[trigger] s@[k].0@ == s@[i as int].0@;
                assert(rest[k - i].0@ == rest[0].0@);
            }
            if exists|k: int| 1 <= k < rest.len() && #[trigger] rest[k].0@ == rest[0].0@ {
                let k = choose|k: int| 1 <= k < rest.len() && #[trigger] rest[k].0@ == rest[0].0@;
                assert(s@[k + i].0@ == s@[i as int].0@);
            }
        }
        if !later {
            let ghost before = kept@;
            kept.push((s[i].0.clone(), s[i].1.duplicate()));
            assert(kept@ + keep_last_fields(s@.skip(i as int + 1)) =~= before + (seq![s@[i as int]]
                + keep_last_fields(s@.skip(i as int + 1))));
        }
        i = i + 1;
    }
    assert(s@.skip(s.len() as int) =~= Seq::<(String, FieldValue)>::empty());
    assert(kept@ + Seq::<(String, FieldValue)>::empty() =~= kept@);
    let mut out: Vec<(String, FieldValue)> = Vec::new();
    let mut i: usize = 0;
    while i < kept.len()
        invariant
            i <= kept.len(),
            out@ == sort_fields_spec(kept@.take(i as int)),
        decreases kept.len() - i,
    {
        assert(kept@.take(i as int + 1).drop_last() =~= kept@.take(i as int));
        let t = (kept[i].0.clone(), kept[i].1.duplicate());
        assert(t == kept@[i as int]);
        let mut j: usize = out.len();
        while j > 0 && crate::text::str_lt(t.0.as_str(), out[j - 1].0.as_str())
            invariant
                j <= out.len(),
                forall|k: int| j <= k < out.len() ==> key_before(t.0@, #[trigger] out@[k].0@),
            decreases j,
        {
            j = j - 1;
        }
        proof {
            lemma_insert_field_at(out@, t, j as int);
        }
        out.insert(j, t);
        i = i + 1;
    }
    assert(kept@.take(kept.len() as int) =~= kept@);
    Ok(out)
}

/// Reads a timestamp field: the `i64` it spells, else the error naming why.
pub fn parse_timestamp(text: &str) -> (r: Result<i64, String>)
    ensures
        match parse_i64_spec(text@) {
            Some(v) => r == Ok::<i64, String>(v),
            None => r matches Err(e) && e@ == "invalid timestamp: "@ + int_error_text(text@),
        },
{
    match parse_i64(text) {
        Ok(v) => Ok(v),
        Err(e) => Err(join_text("invalid timestamp: ", e.as_str())),
    }
}

/// The lines of a text as `str::lines` gives them: split at each `\n`, a
/// `\r` before it dropped, and no line after a final `\n`.
pub open spec fn lines_spec(b: Seq<u8>) -> Seq<Seq<u8>>
    decreases b.len(),
{
    if b.len() == 0 {
        seq![]
    } else {
        let i = first_index(b, 10u8);
        if 0 <= i < b.len() {
            let line = b.take(i);
            let line2 = if line.len() > 0 && line.last() == 13u8 {
                line.drop_last()
            } else {
                line
            };
            seq![line2] + lines_spec(b.skip(i + 1))
        } else {
            seq![b]
        }
    }
}

/// Splits a text into lines.
pub fn split_lines(text: &str) -> (r: Vec<String>)
    ensures
        r@.map_values(|s: String| encode_utf8(s@)) == lines_spec(text.spec_bytes()),
{
    let b = text.as_bytes();
    let n = b.len();
    proof {
        vstd::utf8::encode_utf8_valid_utf8(text@);
        vstd::utf8::is_char_boundary_start_end_of_seq(b@);
    }
    let ghost all = lines_spec(b@);
    let mut out: Vec<String> = Vec::new();
    let mut start: usize = 0;
    assert(b@.skip(0) =~= b@);
    assert(out@.map_values(|s: String| encode_utf8(s@)) =~= Seq::<Seq<u8>>::empty());
    while start < n
        invariant
            b@ == text.spec_bytes(),
            n == b@.len(),
            valid_utf8(b@),
            start <= n,
            is_char_boundary(b@, start as int),
            is_char_boundary(b@, n as int),
            all == lines_spec(b@),
            all == out@.map_values(|s: String| encode_utf8(s@)) + lines_spec(b@.skip(start as int)),
        decreases n - start,
    {
        let end = find_byte(b, start, n, 10u8);
        let ghost rest = b@.skip(start as int);
        proof {
            lemma_first_index(rest, 10u8, end - start);
        }
        let ghost before = out@.map_values(|s: String| encode_utf8(s@));
        if end == n {
            let line = substr(text, start, n).to_owned();
            out.push(line);
            proof {
                assert(lines_spec(rest) == seq![rest]);
                assert(encode_utf8(line@) =~= rest);
                assert(out@.map_values(|s: String| encode_utf8(s@)) =~= before.push(rest));
                assert(b@.skip(n as int) =~= Seq::<u8>::empty());
                assert(before + seq![rest] =~= before.push(rest) + lines_spec(b@.skip(n as int)));
            }
            start = n;
        } else {
            proof {
                lemma_ascii_boundary(b@, end as int);
                assert(rest.skip(end - start + 1) =~= b@.skip(end + 1));
            }
            let cut = if end > start && b[end - 1] == 13u8 { end - 1 } else { end };
            proof {
                if cut < end {
                    lemma_ascii_boundary(b@, cut as int);
                }
            }
            let line = substr(text, start, cut).to_owned();
            out.push(line);
            proof {
                let l = rest.take(end - start);
                let l2 = if l.len() > 0 && l.last() == 13u8 { l.drop_last() } else { l };
                assert(encode_utf8(line@) =~= l2);
                assert(lines_spec(rest) == seq![l2] + lines_spec(b@.skip(end + 1)));
                assert(out@.map_values(|s: String| encode_utf8(s@)) =~= before.push(l2));
                assert(before + (seq![l2] + lines_spec(b@.skip(end + 1))) =~= before.push(l2) + lines_spec(
                    b@.skip(end + 1),
                ));
            }
            start = end + 1;
        }
    }
    assert(b@.skip(n as int) =~= Seq::<u8>::empty());
    assert(lines_spec(Seq::<u8>::empty()) =~= Seq::<Seq<u8>>::empty());
    assert(out@.map_values(|s: String| encode_utf8(s@)) + Seq::<Seq<u8>>::empty() =~= out@.map_values(
        |s: String| encode_utf8(s@),
    ));
    out
}
/// A line read up to its field values: the metric, the tags (the last
/// value of each key, in key order), the fields read before the first field
/// error with their values still raw, that error if any, and the timestamp.
#[derive(Debug)]
pub struct RawLine {
    pub metric: String,
    pub tags: Vec<(String, String)>,
    pub fields: Vec<(String, RawValue)>,
    pub field_error: Option<String>,
    pub timestamp: i64,
}

/// Why a line is refused before its fields are read, if it is: empty,
/// without a space, with an unreadable timestamp, or without a metric.
pub open spec fn line_error(line: Seq<char>) -> Option<Seq<char>> {
    let t = trim_spec(line);
    let b = encode_utf8(t);
    if t.len() == 0 {
        Some("empty line"@)
    } else {
        match line_parts(b) {
            None => Some(format_error_text()),
            Some((m, f, ts)) => if ts matches Some(tb) && parse_i64_spec(decode_utf8(tb)) is None {
                Some("invalid timestamp: "@ + int_error_text(decode_utf8(ts->0)))
            } else if measurement_spec(m) is None {
                Some("metric name cannot be empty"@)
            } else {
                None
            },
        }
    }
}

/// The field list of a line that has one.
pub open spec fn line_fields(line: Seq<char>) -> Seq<u8> {
    let (m, f, ts) = line_parts(encode_utf8(trim_spec(line)))->0;
    f
}

/// Reads a line, taking `now` as its timestamp when it gives none. `None`
/// when a value read before the first field error is a lone `"`.
pub fn parse_line_at(line: &str, now: i64) -> (r: Option<Result<RawLine, String>>)
    ensures
        match r {
            None => line_error(line@) is None && !scan_ok(split_bytes(line_fields(line@), 44u8)),
            Some(Err(e)) => line_error(line@) == Some(e@),
            Some(Ok(p)) => {
                let (m, f, ts) = line_parts(encode_utf8(trim_spec(line@)))->0;
                let sc = fields_scan(split_bytes(f, 44u8));
                &&& line_error(line@) is None
                &&& scan_ok(split_bytes(f, 44u8))
                &&& measurement_spec(m) == Some((encode_utf8(p.metric@), pairs_bytes(p.tags@)))
                &&& raw_view(p.fields@) == sc.0
                &&& match p.field_error {
                    Some(e) => sc.1 == Some(e@),
                    None => sc.1 is None,
                }
                &&& p.timestamp == match ts {
                    Some(tb) => parse_i64_spec(decode_utf8(tb))->0,
                    None => now,
                }
            },
        },
{
    let parts = match split_line(line) {
        Ok(p) => p,
        Err(e) => {
            return Some(Err(e));
        },
    };
    proof {
        vstd::utf8::encode_utf8_decode_utf8(parts.measurement@);
        vstd::utf8::encode_utf8_decode_utf8(parts.fields@);
        if parts.timestamp is Some {
            vstd::utf8::encode_utf8_decode_utf8(parts.timestamp->0@);
        }
    }
    let timestamp = match &parts.timestamp {
        Some(text) => match parse_timestamp(text.as_str()) {
            Ok(v) => v,
            Err(e) => {
                return Some(Err(e));
            },
        },
        None => now,
    };
    let (metric, tags) = match parse_measurement_and_tags(parts.measurement.as_str()) {
        Ok(mt) => mt,
        Err(e) => {
            return Some(Err(e));
        },
    };
    if !fields_scan_ok(parts.fields.as_str()) {
        return None;
    }
    let (fields, field_error) = split_fields(parts.fields.as_str());
    Some(Ok(RawLine { metric, tags, fields, field_error, timestamp }))
}

/// Reads a line, taking the wall clock as its timestamp when it gives none
/// (0 when the clock is out of range); see `parse_line_at`.
pub fn parse_line(line: &str) -> (r: Option<Result<RawLine, String>>)
    ensures
        exists|now: i64| #[trigger] parse_line_at_spec(line@, now, r),
{
    let now = match now_nanos() {
        Some(n) => n,
        None => 0,
    };
    let r = parse_line_at(line, now);
    assert(parse_line_at_spec(line@, now, r));
    r
}

/// What `parse_line_at(line, now)` gives.
pub open spec fn parse_line_at_spec(line: Seq<char>, now: i64, r: Option<Result<RawLine, String>>) -> bool {
    match r {
        None => line_error(line) is None && !scan_ok(split_bytes(line_fields(line), 44u8)),
        Some(Err(e)) => line_error(line) == Some(e@),
        Some(Ok(p)) => {
            let (m, f, ts) = line_parts(encode_utf8(trim_spec(line)))->0;
            let sc = fields_scan(split_bytes(f, 44u8));
            &&& line_error(line) is None
            &&& scan_ok(split_bytes(f, 44u8))
            &&& measurement_spec(m) == Some((encode_utf8(p.metric@), pairs_bytes(p.tags@)))
            &&& raw_view(p.fields@) == sc.0
            &&& match p.field_error {
                Some(e) => sc.1 == Some(e@),
                None => sc.1 is None,
            }
            &&& p.timestamp == match ts {
                Some(tb) => parse_i64_spec(decode_utf8(tb))->0,
                None => now,
            }
        },
    }
}

} // verus!

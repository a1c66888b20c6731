use vstd::prelude::*;
use crate::engine::encoding::bytes::{
    append_bytes, copy_range, push_be_u32, be_bytes_u32, be_u32_of, read_be_u32,
    lemma_be_u32_roundtrip,
};
use crate::engine::checksum::{crc32, crc32_of};
use crate::text::{str_eq, all_digits, digits_value, decimal, decimal_text, join_text, digit_run_value};
use vstd::string::*;

verus! {

/// The four bytes that open every WAL file.
pub const WAL_MAGIC: [u8; 4] = [87u8, 65u8, 76u8, 0u8];

/// The two bytes that open every WAL entry.
pub const ENTRY_MAGIC: [u8; 2] = [87u8, 69u8];

pub const WAL_HEADER_SIZE: usize = 4;

/// A WAL entry: the entry magic, the payload length (32 bits, big-endian), the
/// payload, and the CRC-32 of the payload (big-endian).
pub open spec fn entry_bytes(payload: Seq<u8>) -> Seq<u8> {
    ENTRY_MAGIC@ + be_bytes_u32(payload.len() as u32) + payload + be_bytes_u32(crc32_of(payload))
}

/// The number of bytes an entry with a payload of `payload_len` bytes takes.
pub open spec fn entry_size(payload_len: nat) -> nat {
    2 + 4 + payload_len + 4
}

/// Frames one payload (the JSON of a data point) as a WAL entry.
pub fn encode_wal_entry(payload: &[u8]) -> (r: Vec<u8>)
    requires
        payload.len() <= u32::MAX,
    ensures
        r@ == entry_bytes(payload@),
        r@.len() == entry_size(payload@.len()),
{
    let mut out: Vec<u8> = Vec::new();
    out.push(ENTRY_MAGIC[0]);
    out.push(ENTRY_MAGIC[1]);
    push_be_u32(&mut out, payload.len() as u32);
    append_bytes(&mut out, payload);
    let crc = crc32(payload);
    push_be_u32(&mut out, crc);
    proof {
        assert(out@ =~= entry_bytes(payload@));
    }
    out
}

/// The bytes a new WAL file starts with.
pub fn wal_file_header() -> (r: Vec<u8>)
    ensures
        r@ == WAL_MAGIC@,
{
    let mut out: Vec<u8> = Vec::new();
    out.push(WAL_MAGIC[0]);
    out.push(WAL_MAGIC[1]);
    out.push(WAL_MAGIC[2]);
    out.push(WAL_MAGIC[3]);
    assert(out@ =~= WAL_MAGIC@);
    out
}

/// Why a WAL file could not be read.
#[derive(Debug, PartialEq, Eq, Structural, Clone, Copy)]
pub enum WalError {
    InvalidHeader,
}

impl WalError {
    pub fn message(&self) -> (r: String)
        ensures
            r@ == "invalid WAL header"@,
    {
        "invalid WAL header".to_owned()
    }
}

/// The payloads recovered from `pos` on, appended to `acc`: bytes that do not
/// start an entry are skipped one at a time, entries whose checksum does not
/// match are dropped, and an entry that runs past the end ends the scan.
pub open spec fn scan_from(data: Seq<u8>, pos: nat, acc: Seq<Seq<u8>>) -> Seq<Seq<u8>>
    decreases data.len() - pos,
{
    if pos + 6 >= data.len() {
        acc
    } else if data[pos as int] != ENTRY_MAGIC[0] || data[pos + 1int] != ENTRY_MAGIC[1] {
        scan_from(data, pos + 1, acc)
    } else {
        let len = be_u32_of(data.subrange(pos + 2int, pos + 6int));
        let p = pos + 6;
        if p + len + 4 > data.len() {
            acc
        } else {
            let payload = data.subrange(p as int, p + len);
            let stored = be_u32_of(data.subrange(p + len, p + len + 4));
            let next = (p + len + 4) as nat;
            if stored != crc32_of(payload) {
                scan_from(data, next, acc)
            } else {
                scan_from(data, next, acc.push(payload))
            }
        }
    }
}

/// What `recover_entries` returns for the bytes of a WAL file.
pub open spec fn recover_spec(data: Seq<u8>) -> Result<Seq<Seq<u8>>, WalError> {
    if data.len() < WAL_HEADER_SIZE || data.subrange(0, 4) != WAL_MAGIC@ {
        Err(WalError::InvalidHeader)
    } else {
        Ok(scan_from(data, WAL_HEADER_SIZE as nat, Seq::empty()))
    }
}

pub open spec fn payloads_view(v: Seq<Vec<u8>>) -> Seq<Seq<u8>> {
    v.map_values(|x: Vec<u8>| x@)
}

/// Entries written one after another.
pub open spec fn entries_bytes(ps: Seq<Seq<u8>>) -> Seq<u8>
    decreases ps.len(),
{
    if ps.len() == 0 {
        Seq::empty()
    } else {
        entries_bytes(ps.drop_last()) + entry_bytes(ps.last())
    }
}

/// `t` is what a crash can leave of an entry being appended: a proper prefix of it.
pub open spec fn torn_entry(t: Seq<u8>) -> bool {
    exists|q: Seq<u8>, k: int|
        #![trigger entry_bytes(q).take(k)]
        q.len() <= u32::MAX && 0 <= k < entry_size(q.len()) && t == entry_bytes(q).take(k)
}

proof fn lemma_entries_split(ps: Seq<Seq<u8>>)
    requires
        ps.len() >= 1,
    ensures
        entries_bytes(ps) == entry_bytes(ps[0]) + entries_bytes(ps.drop_first()),
    decreases ps.len(),
{
    if ps.len() == 1 {
        assert(ps.drop_last() =~= Seq::<Seq<u8>>::empty());
        assert(ps.drop_first() =~= Seq::<Seq<u8>>::empty());
        assert(entries_bytes(ps) =~= entry_bytes(ps[0]) + entries_bytes(ps.drop_first()));
    } else {
        lemma_entries_split(ps.drop_last());
        assert(ps.drop_last().drop_first() =~= ps.drop_first().drop_last());
        assert(ps.drop_last()[0] == ps[0]);
        assert(ps.drop_first().last() == ps.last());
        assert(entries_bytes(ps) =~= entry_bytes(ps[0]) + entries_bytes(ps.drop_first()));
    }
}

proof fn lemma_scan_torn(p: Seq<u8>, t: Seq<u8>, acc: Seq<Seq<u8>>)
    requires
        t.len() == 0 || torn_entry(t),
    ensures
        scan_from(p + t, p.len(), acc) == acc,
{
    let data = p + t;
    if t.len() > 6 {
        let (q, k) = choose|q: Seq<u8>, k: int|
            #![trigger entry_bytes(q).take(k)]
            q.len() <= u32::MAX && 0 <= k < entry_size(q.len()) && t == entry_bytes(q).take(k);
        let e = entry_bytes(q);
        let pos = p.len();
        assert(data[pos as int] == e[0] && data[pos + 1int] == e[1]);
        assert(data.subrange(pos + 2int, pos + 6int) =~= be_bytes_u32(q.len() as u32));
        lemma_be_u32_roundtrip(q.len() as u32);
    }
}

proof fn lemma_scan_entry(p: Seq<u8>, q: Seq<u8>, r: Seq<u8>, acc: Seq<Seq<u8>>)
    requires
        q.len() <= u32::MAX,
    ensures
        scan_from(p + entry_bytes(q) + r, p.len(), acc) == scan_from(
            p + entry_bytes(q) + r,
            p.len() + entry_bytes(q).len(),
            acc.push(q),
        ),
{
    let e = entry_bytes(q);
    let data = p + e + r;
    let pos = p.len();
    assert(data[pos as int] == e[0] && data[pos + 1int] == e[1]);
    assert(data.subrange(pos + 2int, pos + 6int) =~= be_bytes_u32(q.len() as u32));
    lemma_be_u32_roundtrip(q.len() as u32);
    let pp: int = pos + 6int;
    assert(data.subrange(pp, pp + q.len()) =~= q);
    assert(data.subrange(pp + q.len(), pp + q.len() + 4) =~= be_bytes_u32(crc32_of(q)));
    lemma_be_u32_roundtrip(crc32_of(q));
}

#[verifier::rlimit(60)]
proof fn lemma_scan(p: Seq<u8>, ps: Seq<Seq<u8>>, t: Seq<u8>, acc: Seq<Seq<u8>>)
    requires
        forall|i: int| 0 <= i < ps.len() ==> (#[trigger] ps[i]).len() <= u32::MAX,
        t.len() == 0 || torn_entry(t),
    ensures
        scan_from(p + entries_bytes(ps) + t, p.len(), acc) == acc + ps,
    decreases ps.len(),
{
    if ps.len() == 0 {
        assert(p + entries_bytes(ps) + t =~= p + t);
        lemma_scan_torn(p, t, acc);
        assert(acc + ps =~= acc);
    } else {
        lemma_entries_split(ps);
        let q = ps[0];
        let rest = ps.drop_first();
        let e = entry_bytes(q);
        let data = p + entries_bytes(ps) + t;
        assert(data =~= p + e + (entries_bytes(rest) + t));
        assert(q.len() <= u32::MAX);
        lemma_scan_entry(p, q, entries_bytes(rest) + t, acc);
        assert(data =~= (p + e) + entries_bytes(rest) + t);
        assert forall|i: int| 0 <= i < rest.len() implies (#[trigger] rest[i]).len() <= u32::MAX by {
            assert(rest[i] == ps[i + 1]);
        }
        lemma_scan(p + e, rest, t, acc.push(q));
        assert(acc.push(q) + rest =~= acc + ps);
    }
}

/// Recovery gives back what was appended: a WAL file made of the header and
/// entries for `ps` recovers `ps`, in order, also when a crash has left a torn
/// entry at its end.
pub proof fn lemma_wal_roundtrip(ps: Seq<Seq<u8>>, t: Seq<u8>)
    requires
        forall|i: int| 0 <= i < ps.len() ==> (#[trigger] ps[i]).len() <= u32::MAX,
        t.len() == 0 || torn_entry(t),
    ensures
        recover_spec(WAL_MAGIC@ + entries_bytes(ps) + t) == Ok::<Seq<Seq<u8>>, WalError>(ps),
{
    let data = WAL_MAGIC@ + entries_bytes(ps) + t;
    assert(data.subrange(0, 4) =~= WAL_MAGIC@);
    lemma_scan(WAL_MAGIC@, ps, t, Seq::empty());
    assert(Seq::<Seq<u8>>::empty() + ps =~= ps);
}

/// Recovers the payloads of the intact entries of a WAL file.
pub fn recover_entries(data: &[u8]) -> (r: Result<Vec<Vec<u8>>, WalError>)
    ensures
        match r {
            Ok(v) => recover_spec(data@) == Ok::<Seq<Seq<u8>>, WalError>(payloads_view(v@)),
            Err(e) => recover_spec(data@) == Err::<Seq<Seq<u8>>, WalError>(e),
        },
{
    if data.len() < WAL_HEADER_SIZE || data[0] != WAL_MAGIC[0] || data[1] != WAL_MAGIC[1]
        || data[2] != WAL_MAGIC[2] || data[3] != WAL_MAGIC[3] {
        proof {
            if data.len() >= WAL_HEADER_SIZE {
                assert(data@.subrange(0, 4)[0] == data@[0]);
                assert(data@.subrange(0, 4)[1] == data@[1]);
                assert(data@.subrange(0, 4)[2] == data@[2]);
                assert(data@.subrange(0, 4)[3] == data@[3]);
            }
        }
        return Err(WalError::InvalidHeader);
    }
    proof {
        assert(data@.subrange(0, 4) =~= WAL_MAGIC@);
    }
    let mut points: Vec<Vec<u8>> = Vec::new();
    let mut pos: usize = WAL_HEADER_SIZE;
    proof {
        assert(payloads_view(points@) =~= Seq::<Seq<u8>>::empty());
    }
    while data.len() - pos > 6
        invariant
            WAL_HEADER_SIZE <= pos <= data.len(),
            scan_from(data@, pos as nat, payloads_view(points@)) == scan_from(
                data@,
                WAL_HEADER_SIZE as nat,
                Seq::empty(),
            ),
        ensures
            payloads_view(points@) == scan_from(data@, WAL_HEADER_SIZE as nat, Seq::empty()),
        decreases data.len() - pos,
    {
        if data[pos] != ENTRY_MAGIC[0] || data[pos + 1] != ENTRY_MAGIC[1] {
            pos = pos + 1;
            continue;
        }
        let len = read_be_u32(data, pos + 2) as usize;
        let p = pos + 6;
        if len > data.len() - p || data.len() - p - len < 4 {
            break;
        }
        let ghost payload = data@.subrange(p as int, (p + len) as int);
        let stored = read_be_u32(data, p + len);
        let json = copy_range(data, p, p + len);
        let computed = crc32(json.as_slice());
        pos = p + len + 4;
        if stored != computed {
            continue;
        }
        let ghost old_points = points@;
        points.push(json);
        proof {
            assert(payloads_view(points@) =~= payloads_view(old_points).push(payload));
        }
    }
    Ok(points)
}

/// `d` with zeros put in front to make it at least `w` characters long.
pub open spec fn zero_pad(d: Seq<char>, w: nat) -> Seq<char> {
    if d.len() >= w {
        d
    } else {
        Seq::new((w - d.len()) as nat, |i: int| '0') + d
    }
}

/// The name of the WAL file with sequence number `seq`.
pub open spec fn wal_file_name_spec(seq: u64) -> Seq<char> {
    "wal_"@ + zero_pad(decimal(seq as nat), 8) + ".log"@
}

/// The name of the WAL file with sequence number `seq`: `wal_`, the decimal
/// digits of `seq` zero-padded to eight, and `.log`, as
/// `format!("wal_{:08}.log", seq)` writes it.
pub fn wal_file_name(seq: u64) -> (r: String)
    ensures
        r@ == wal_file_name_spec(seq),
{
    let d = decimal_text(seq);
    let n = d.as_str().unicode_len();
    let mut p = d;
    let ghost dv = decimal(seq as nat);
    let mut k: usize = 0;
    if n < 8 {
        assert(Seq::new(0, |i: int| '0') + dv =~= dv);
        while k < 8 - n
            invariant
                n == dv.len(),
                n < 8,
                k <= 8 - n,
                p@ == Seq::new(k as nat, |i: int| '0') + dv,
            decreases 8 - n - k,
        {
            p = join_text("0", p.as_str());
            proof {
                reveal_strlit("0");
                assert(p@ =~= Seq::new((k + 1) as nat, |i: int| '0') + dv);
            }
            k = k + 1;
        }
    }
    let named = join_text("wal_", p.as_str());
    let r = join_text(named.as_str(), ".log");
    assert(r@ =~= wal_file_name_spec(seq));
    r
}

/// What `u64::from_str` reads from a string: an optional `+`, then one or
/// more ASCII digits and nothing else, whose value fits in a `u64`.
pub open spec fn parse_u64_spec(s: Seq<char>) -> Option<u64> {
    let d = if s.len() > 0 && s[0] == '+' { s.drop_first() } else { s };
    if all_digits(d) && digits_value(d) <= u64::MAX {
        Some(digits_value(d) as u64)
    } else {
        None
    }
}

/// Reads a `u64` written as an optional `+` and decimal digits only.
fn parse_u64(s: &str) -> (r: Option<u64>)
    ensures
        r == parse_u64_spec(s@),
{
    let n = s.unicode_len();
    let start: usize = if n > 0 && s.get_char(0) == '+' {
        1
    } else {
        0
    };
    assert(s@.skip(start as int) =~= (if s@.len() > 0 && s@[0] == '+' {
        s@.drop_first()
    } else {
        s@
    }));
    digit_run_value(s, start)
}

/// The sequence number a WAL file name carries: the number between `wal_`
/// and `.log`.
pub open spec fn wal_sequence_spec(name: Seq<char>) -> Option<u64> {
    if name.len() >= 8 && name.take(4) == "wal_"@ && name.skip(name.len() - 4) == ".log"@ {
        parse_u64_spec(name.subrange(4, name.len() - 4))
    } else {
        None
    }
}

/// The sequence number a WAL file name carries, if it is one.
pub fn wal_sequence_of(name: &str) -> (r: Option<u64>)
    ensures
        r == wal_sequence_spec(name@),
{
    proof {
        reveal_strlit("wal_");
        reveal_strlit(".log");
    }
    let n = name.unicode_len();
    if n < 8 {
        return None;
    }
    let head = name.substring_char(0, 4);
    let tail = name.substring_char(n - 4, n);
    if !str_eq(head, "wal_") || !str_eq(tail, ".log") {
        return None;
    }
    let middle = name.substring_char(4, n - 4);
    parse_u64(middle)
}

/// The greatest sequence number among WAL file names, 0 when none carries one.
pub open spec fn max_sequence_spec(names: Seq<Seq<char>>) -> u64
    decreases names.len(),
{
    if names.len() == 0 {
        0
    } else {
        let m = max_sequence_spec(names.drop_last());
        match wal_sequence_spec(names.last()) {
            Some(s) => if s > m { s } else { m },
            None => m,
        }
    }
}

/// The greatest sequence number among the names of the files of the WAL
/// directory, 0 when none carries one.
pub fn max_wal_sequence(names: &Vec<String>) -> (r: u64)
    ensures
        r == max_sequence_spec(names@.map_values(|s: String| s@)),
{
    let ghost ns = names@.map_values(|s: String| s@);
    let mut m: u64 = 0;
    let mut i: usize = 0;
    while i < names.len()
        invariant
            i <= names.len(),
            ns == names@.map_values(|s: String| s@),
            m == max_sequence_spec(ns.take(i as int)),
        decreases names.len() - i,
    {
        assert(ns.take(i as int + 1).drop_last() =~= ns.take(i as int));
        assert(ns.take(i as int + 1).last() == names@[i as int]@);
        match wal_sequence_of(names[i].as_str()) {
            Some(x) => {
                if x > m {
                    m = x;
                }
            },
            None => {},
        }
        i = i + 1;
    }
    assert(ns.take(names@.len() as int) =~= ns);
    m
}

proof fn lemma_decimal(n: nat)
    ensures
        all_digits(decimal(n)),
        digits_value(decimal(n)) == n,
    decreases n,
{
    let d = decimal(n);
    assert(((n % 10 + 48) as char) as int == n % 10 + 48);
    assert('0' as int == 48);
    assert(digits_value(d) == digits_value(d.drop_last()) * 10 + (d.last() as int - '0' as int));
    if n < 10 {
        assert(((n + 48) as char) as int == n + 48);
        assert(d.drop_last() =~= Seq::<char>::empty());
        assert(d.last() == (n + 48) as char);
    }
    if n >= 10 {
        lemma_decimal(n / 10);
        assert(d.drop_last() == decimal(n / 10));
        assert(d.last() == ((n % 10) + 48) as char);
        assert(n == (n / 10) * 10 + n % 10);
        assert forall|i: int| 0 <= i < d.len() implies '0' <= #[trigger] d[i] <= '9' by {
            if i < d.len() - 1 {
                assert(d[i] == decimal(n / 10)[i]);
            }
        }
    }
}

proof fn lemma_zeros_value(k: nat)
    ensures
        digits_value(Seq::new(k, |i: int| '0')) == 0,
    decreases k,
{
    if k > 0 {
        lemma_zeros_value((k - 1) as nat);
        assert(Seq::new(k, |i: int| '0').drop_last() =~= Seq::new((k - 1) as nat, |i: int| '0'));
    }
}

proof fn lemma_leading_zeros(k: nat, d: Seq<char>)
    ensures
        digits_value(Seq::new(k, |i: int| '0') + d) == digits_value(d),
    decreases d.len(),
{
    let z = Seq::new(k, |i: int| '0');
    if d.len() == 0 {
        assert(z + d =~= z);
        lemma_zeros_value(k);
    } else {
        lemma_leading_zeros(k, d.drop_last());
        assert((z + d).drop_last() =~= z + d.drop_last());
        assert((z + d).last() == d.last());
    }
}

/// A WAL file name is read back as the sequence number it was made from, so
/// that a restart finds the files written before it.
pub proof fn lemma_wal_name_roundtrip(seq: u64)
    ensures
        wal_sequence_spec(wal_file_name_spec(seq)) == Some(seq),
{
    reveal_strlit("wal_");
    reveal_strlit(".log");
    let d = decimal(seq as nat);
    let p = zero_pad(d, 8);
    let name = wal_file_name_spec(seq);
    lemma_decimal(seq as nat);
    assert(name =~= "wal_"@ + p + ".log"@);
    assert(name.take(4) =~= "wal_"@);
    assert(name.skip(name.len() - 4) =~= ".log"@);
    assert(name.subrange(4, name.len() - 4) =~= p);
    if d.len() < 8 {
        lemma_leading_zeros((8 - d.len()) as nat, d);
        let z = Seq::new((8 - d.len()) as nat, |i: int| '0');
        assert forall|i: int| 0 <= i < p.len() implies '0' <= #[trigger] p[i] <= '9' by {
            if i >= z.len() {
                assert(p[i] == d[i - z.len()]);
            }
        }
    }
    assert(p[0] != '+');
}

/// The bookkeeping of the WAL writer: the sequence number of the current
/// file, how many bytes it holds, and the size at which a new file is begun.
pub struct WalState {
    pub sequence: u64,
    pub current_size: u64,
    pub max_file_size: u64,
}

impl WalState {
    /// The state before the first file is opened, after the highest sequence
    /// number found.
    pub fn new(sequence: u64, max_file_size: u64) -> (r: Self)
        ensures
            r.sequence == sequence,
            r.current_size == 0,
            r.max_file_size == max_file_size,
    {
        WalState { sequence, current_size: 0, max_file_size }
    }

    /// Whether the next entry goes to a new file.
    pub fn should_rotate(&self) -> (r: bool)
        ensures
            r == (self.current_size >= self.max_file_size),
    {
        self.current_size >= self.max_file_size
    }

    /// Begins a new file: the next sequence number, holding only its header;
    /// returns the new file's name.
    pub fn rotate(&mut self) -> (r: String)
        requires
            old(self).sequence < u64::MAX,
        ensures
            final(self).sequence == old(self).sequence + 1,
            final(self).current_size == WAL_HEADER_SIZE,
            final(self).max_file_size == old(self).max_file_size,
            r@ == wal_file_name_spec(final(self).sequence),
    {
        self.sequence = self.sequence + 1;
        self.current_size = WAL_HEADER_SIZE as u64;
        wal_file_name(self.sequence)
    }

    /// Counts an entry with a payload of `payload_len` bytes.
    pub fn record_append(&mut self, payload_len: u64)
        requires
            old(self).current_size + entry_size(payload_len as nat) <= u64::MAX,
        ensures
            final(self).current_size == old(self).current_size + entry_size(payload_len as nat),
            final(self).sequence == old(self).sequence,
            final(self).max_file_size == old(self).max_file_size,
    {
        self.current_size = self.current_size + 10 + payload_len;
    }
}

} // verus!

pub mod series_header;
pub mod field_column;

use vstd::prelude::*;
use vstd::utf8::{valid_utf8, decode_utf8, encode_utf8};
use vstd::string::StringSliceAdditionalSpecFns;
use crate::engine::encoding::varint::{
    encode_varint, decode_varint, varint_bytes, varint_decode_spec, lemma_varint_roundtrip,
};
use crate::engine::encoding::bytes::{
    append_bytes, copy_range, push_be_u64, push_be_u32, be_bytes_u64, be_bytes_u32,
};
use crate::engine::checksum::{crc32, crc32_of};
use crate::text::{string_from_utf8, join_text, new_uuid};
use crate::alert::store::{path_join, path_join_spec};
use crate::engine::active_block::FlushData;

verus! {



/// The four bytes that open every block file.
pub const BLOCK_MAGIC: [u8; 4] = [66u8, 76u8, 75u8, 0u8];

/// Magic, minimum and maximum timestamp, series count, original size,
/// compressed size, checksum.
pub const BLOCK_HEADER_SIZE: usize = 44;

/// What the engine keeps about one block file.
#[derive(Debug)]
pub struct BlockMeta {
    pub block_id: String,
    pub min_timestamp: i64,
    pub max_timestamp: i64,
    pub series_count: u32,
    pub compressed_size: u64,
    pub original_size: u64,
    pub crc32: u32,
    pub file_path: String,
    pub metric: String,
}

impl BlockMeta {
    /// A copy of the metadata.
    pub fn duplicate(&self) -> (r: Self)
        ensures
            r == *self,
    {
        BlockMeta {
            block_id: self.block_id.clone(),
            min_timestamp: self.min_timestamp,
            max_timestamp: self.max_timestamp,
            series_count: self.series_count,
            compressed_size: self.compressed_size,
            original_size: self.original_size,
            crc32: self.crc32,
            file_path: self.file_path.clone(),
            metric: self.metric.clone(),
        }
    }
}

/// The encoded columns of one series in a block: its header (metric, tag ids,
/// point count), its timestamp column, and one column per field name.
#[derive(Debug)]
pub struct SeriesBlockData {
    pub header: Vec<u8>,
    pub timestamps: Vec<u8>,
    pub fields: Vec<(String, Vec<u8>)>,
}

/// The series sections of a block, in file order.
#[derive(Debug)]
pub struct DecodedBlock {
    pub series: Vec<SeriesBlockData>,
}

/// The abstract content of a series section.
pub struct SectionSpec {
    pub header: Seq<u8>,
    pub timestamps: Seq<u8>,
    pub fields: Seq<(Seq<char>, Seq<u8>)>,
}

pub open spec fn field_view(f: (String, Vec<u8>)) -> (Seq<char>, Seq<u8>) {
    (f.0@, f.1@)
}

impl View for SeriesBlockData {
    type V = SectionSpec;

    open spec fn view(&self) -> SectionSpec {
        SectionSpec {
            header: self.header@,
            timestamps: self.timestamps@,
            fields: self.fields@.map_values(|f: (String, Vec<u8>)| field_view(f)),
        }
    }
}

pub open spec fn sections_view(s: Seq<SeriesBlockData>) -> Seq<SectionSpec> {
    s.map_values(|x: SeriesBlockData| x@)
}

/// Why a block could not be read back.
#[derive(Debug, PartialEq, Eq, Structural, Clone, Copy)]
pub enum BlockError {
    TooSmall,
    CrcMismatch,
    VarintDecode,
    Truncated,
    InvalidUtf8,
}

/// The text that reports a block error.
pub open spec fn block_error_text(e: BlockError) -> Seq<char> {
    match e {
        BlockError::TooSmall => "block file too small"@,
        BlockError::CrcMismatch => "CRC mismatch"@,
        BlockError::VarintDecode => "varint decode error"@,
        BlockError::Truncated => "block data truncated"@,
        BlockError::InvalidUtf8 => "invalid utf-8 in field name"@,
    }
}

impl BlockError {
    /// The text that reports the error.
    pub fn message(&self) -> (r: String)
        ensures
            r@ == block_error_text(*self),
    {
        match self {
            BlockError::TooSmall => "block file too small".to_owned(),
            BlockError::CrcMismatch => "CRC mismatch".to_owned(),
            BlockError::VarintDecode => "varint decode error".to_owned(),
            BlockError::Truncated => "block data truncated".to_owned(),
            BlockError::InvalidUtf8 => "invalid utf-8 in field name".to_owned(),
        }
    }
}

/// A length-prefixed chunk: the LEB128 length, then the bytes.
pub open spec fn chunk_bytes(b: Seq<u8>) -> Seq<u8> {
    varint_bytes(b.len() as u64) + b
}

/// One field column: its length-prefixed UTF-8 name, then its length-prefixed data.
pub open spec fn field_entry_bytes(f: (Seq<char>, Seq<u8>)) -> Seq<u8> {
    chunk_bytes(encode_utf8(f.0)) + chunk_bytes(f.1)
}

pub open spec fn fields_bytes(fs: Seq<(Seq<char>, Seq<u8>)>) -> Seq<u8>
    decreases fs.len(),
{
    if fs.len() == 0 {
        Seq::empty()
    } else {
        fields_bytes(fs.drop_last()) + field_entry_bytes(fs.last())
    }
}

/// A series section: header chunk, timestamp chunk, field count, field entries.
pub open spec fn section_bytes(s: SectionSpec) -> Seq<u8> {
    chunk_bytes(s.header) + chunk_bytes(s.timestamps) + varint_bytes(s.fields.len() as u64)
        + fields_bytes(s.fields)
}

/// The compressed body of a block: its sections one after another.
pub open spec fn body_bytes(ss: Seq<SectionSpec>) -> Seq<u8>
    decreases ss.len(),
{
    if ss.len() == 0 {
        Seq::empty()
    } else {
        body_bytes(ss.drop_last()) + section_bytes(ss.last())
    }
}

/// Lengths that the format can record.
pub open spec fn section_fits(s: SectionSpec) -> bool {
    &&& s.header.len() <= u64::MAX
    &&& s.timestamps.len() <= u64::MAX
    &&& s.fields.len() <= u64::MAX
    &&& forall|i: int|
        0 <= i < s.fields.len() ==> encode_utf8(#[trigger] s.fields[i].0).len() <= u64::MAX
            && s.fields[i].1.len() <= u64::MAX
}

fn write_chunk(out: &mut Vec<u8>, b: &[u8])
    ensures
        final(out)@ == old(out)@ + chunk_bytes(b@),
{
    encode_varint(b.len() as u64, out);
    append_bytes(out, b);
    assert(out@ =~= old(out)@ + chunk_bytes(b@));
}

/// Appends the section of one series to `out`.
pub fn encode_series_section(s: &SeriesBlockData, out: &mut Vec<u8>)
    ensures
        final(out)@ == old(out)@ + section_bytes(s@),
{
    let ghost start = out@;
    write_chunk(out, s.header.as_slice());
    write_chunk(out, s.timestamps.as_slice());
    encode_varint(s.fields.len() as u64, out);
    let ghost mid = out@;
    let ghost fv = s@.fields;
    let mut i: usize = 0;
    while i < s.fields.len()
        invariant
            i <= s.fields.len(),
            fv == s@.fields,
            fv.len() == s.fields@.len(),
            out@ == mid + fields_bytes(fv.take(i as int)),
        decreases s.fields.len() - i,
    {
        let name = &s.fields[i].0;
        let data = &s.fields[i].1;
        let name_bytes = name.as_str().as_bytes();
        write_chunk(out, name_bytes);
        write_chunk(out, data.as_slice());
        proof {
            assert(fv[i as int] == field_view(s.fields@[i as int]));
            assert(fv.take(i + 1).drop_last() =~= fv.take(i as int));
            assert(out@ =~= mid + fields_bytes(fv.take(i + 1)));
        }
        i = i + 1;
    }
    proof {
        assert(fv.take(i as int) =~= fv);
        assert(out@ =~= start + section_bytes(s@));
    }
}

/// The compressed body of a block holding `series`.
pub fn encode_block_body(series: &[SeriesBlockData]) -> (r: Vec<u8>)
    ensures
        r@ == body_bytes(sections_view(series@)),
{
    let mut out: Vec<u8> = Vec::new();
    let ghost sv = sections_view(series@);
    let mut i: usize = 0;
    while i < series.len()
        invariant
            i <= series.len(),
            sv == sections_view(series@),
            out@ == body_bytes(sv.take(i as int)),
        decreases series.len() - i,
    {
        encode_series_section(&series[i], &mut out);
        proof {
            assert(sv.take(i + 1).drop_last() =~= sv.take(i as int));
        }
        i = i + 1;
    }
    proof {
        assert(sv.take(i as int) =~= sv);
    }
    out
}

/// A length-prefixed chunk at `pos`: its bytes and the position after it.
pub open spec fn parse_chunk(data: Seq<u8>, pos: nat) -> Result<(Seq<u8>, nat), BlockError> {
    match varint_decode_spec(data.subrange(pos as int, data.len() as int)) {
        None => Err(BlockError::VarintDecode),
        Some((len, n)) => {
            let p1 = pos + n;
            if len > data.len() - p1 {
                Err(BlockError::Truncated)
            } else {
                Ok((data.subrange(p1 as int, p1 + len), (p1 + len) as nat))
            }
        },
    }
}

/// `k` field entries from `pos`, appended to `acc`.
pub open spec fn parse_fields(
    data: Seq<u8>,
    pos: nat,
    k: nat,
    acc: Seq<(Seq<char>, Seq<u8>)>,
) -> Result<(Seq<(Seq<char>, Seq<u8>)>, nat), BlockError>
    decreases k,
{
    if k == 0 {
        Ok((acc, pos))
    } else {
        match parse_chunk(data, pos) {
            Err(e) => Err(e),
            Ok((name, p1)) => if !valid_utf8(name) {
                Err(BlockError::InvalidUtf8)
            } else {
                match parse_chunk(data, p1) {
                    Err(e) => Err(e),
                    Ok((d, p2)) => parse_fields(data, p2, (k - 1) as nat, acc.push((decode_utf8(name), d))),
                }
            },
        }
    }
}

/// One series section at `pos`, and the position after it.
pub open spec fn parse_section(data: Seq<u8>, pos: nat) -> Result<(SectionSpec, nat), BlockError> {
    match parse_chunk(data, pos) {
        Err(e) => Err(e),
        Ok((h, p1)) => match parse_chunk(data, p1) {
            Err(e) => Err(e),
            Ok((t, p2)) => match varint_decode_spec(data.subrange(p2 as int, data.len() as int)) {
                None => Err(BlockError::VarintDecode),
                Some((k, n)) => match parse_fields(data, p2 + n, k as nat, Seq::empty()) {
                    Err(e) => Err(e),
                    Ok((fs, p3)) => Ok((SectionSpec { header: h, timestamps: t, fields: fs }, p3)),
                },
            },
        },
    }
}

/// The sections from `pos` to the end of `data`, appended to `acc`.
pub open spec fn parse_body_from(data: Seq<u8>, pos: nat, acc: Seq<SectionSpec>) -> Result<
    Seq<SectionSpec>,
    BlockError,
>
    decreases data.len() - pos,
{
    if pos >= data.len() {
        Ok(acc)
    } else {
        match parse_section(data, pos) {
            Err(e) => Err(e),
            Ok((s, p)) => if p <= pos || p > data.len() {
                Err(BlockError::Truncated)
            } else {
                parse_body_from(data, p, acc.push(s))
            },
        }
    }
}

/// What `decode_block` returns for the bytes of a block file and the checksum
/// recorded for it.
pub open spec fn decode_block_spec(data: Seq<u8>, expected_crc: u32) -> Result<
    Seq<SectionSpec>,
    BlockError,
> {
    if data.len() < BLOCK_HEADER_SIZE {
        Err(BlockError::TooSmall)
    } else if crc32_of(data.subrange(BLOCK_HEADER_SIZE as int, data.len() as int)) != expected_crc {
        Err(BlockError::CrcMismatch)
    } else {
        parse_body_from(data.subrange(BLOCK_HEADER_SIZE as int, data.len() as int), 0, Seq::empty())
    }
}

proof fn lemma_parse_chunk(p: Seq<u8>, b: Seq<u8>, r: Seq<u8>)
    requires
        b.len() <= u64::MAX,
    ensures
        parse_chunk(p + chunk_bytes(b) + r, p.len()) == Ok::<(Seq<u8>, nat), BlockError>(
            (b, p.len() + chunk_bytes(b).len()),
        ),
{
    let data = p + chunk_bytes(b) + r;
    let v = varint_bytes(b.len() as u64);
    assert(data.subrange(p.len() as int, data.len() as int) =~= v + (b + r));
    lemma_varint_roundtrip(b.len() as u64, b + r);
    let p1 = p.len() + v.len();
    assert(data.subrange(p1 as int, (p1 + b.len()) as int) =~= b);
}

proof fn lemma_fields_split(fs: Seq<(Seq<char>, Seq<u8>)>)
    requires
        fs.len() >= 1,
    ensures
        fields_bytes(fs) == field_entry_bytes(fs[0]) + fields_bytes(fs.drop_first()),
    decreases fs.len(),
{
    if fs.len() == 1 {
        assert(fs.drop_last() =~= Seq::<(Seq<char>, Seq<u8>)>::empty());
        assert(fs.drop_first() =~= Seq::<(Seq<char>, Seq<u8>)>::empty());
        assert(fields_bytes(fs) =~= field_entry_bytes(fs[0]) + fields_bytes(fs.drop_first()));
    } else {
        lemma_fields_split(fs.drop_last());
        assert(fs.drop_last().drop_first() =~= fs.drop_first().drop_last());
        assert(fs.drop_last()[0] == fs[0]);
        assert(fs.drop_first().last() == fs.last());
        assert(fields_bytes(fs) =~= field_entry_bytes(fs[0]) + fields_bytes(fs.drop_first()));
    }
}

proof fn lemma_body_split(ss: Seq<SectionSpec>)
    requires
        ss.len() >= 1,
    ensures
        body_bytes(ss) == section_bytes(ss[0]) + body_bytes(ss.drop_first()),
    decreases ss.len(),
{
    if ss.len() == 1 {
        assert(ss.drop_last() =~= Seq::<SectionSpec>::empty());
        assert(ss.drop_first() =~= Seq::<SectionSpec>::empty());
        assert(body_bytes(ss) =~= section_bytes(ss[0]) + body_bytes(ss.drop_first()));
    } else {
        lemma_body_split(ss.drop_last());
        assert(ss.drop_last().drop_first() =~= ss.drop_first().drop_last());
        assert(ss.drop_last()[0] == ss[0]);
        assert(ss.drop_first().last() == ss.last());
        assert(body_bytes(ss) =~= section_bytes(ss[0]) + body_bytes(ss.drop_first()));
    }
}

#[verifier::spinoff_prover]
#[verifier::rlimit(60)]
proof fn lemma_parse_fields(
    p: Seq<u8>,
    fs: Seq<(Seq<char>, Seq<u8>)>,
    r: Seq<u8>,
    acc: Seq<(Seq<char>, Seq<u8>)>,
)
    requires
        forall|i: int|
            0 <= i < fs.len() ==> encode_utf8(#[trigger] fs[i].0).len() <= u64::MAX && fs[i].1.len()
                <= u64::MAX,
    ensures
        parse_fields(p + fields_bytes(fs) + r, p.len(), fs.len(), acc) == Ok::<
            (Seq<(Seq<char>, Seq<u8>)>, nat),
            BlockError,
        >((acc + fs, p.len() + fields_bytes(fs).len())),
    decreases fs.len(),
{
    if fs.len() == 0 {
        assert(acc + fs =~= acc);
        assert(fields_bytes(fs) =~= Seq::<u8>::empty());
    } else {
        lemma_fields_split(fs);
        let f0 = fs[0];
        let nb = encode_utf8(f0.0);
        let rest = fs.drop_first();
        let data = p + fields_bytes(fs) + r;
        assert(f0 == fs[0]);
        assert(data =~= p + chunk_bytes(nb) + (chunk_bytes(f0.1) + fields_bytes(rest) + r));
        lemma_parse_chunk(p, nb, chunk_bytes(f0.1) + fields_bytes(rest) + r);
        let p2 = p + chunk_bytes(nb);
        assert(data =~= p2 + chunk_bytes(f0.1) + (fields_bytes(rest) + r));
        lemma_parse_chunk(p2, f0.1, fields_bytes(rest) + r);
        let p3 = p2 + chunk_bytes(f0.1);
        assert(data =~= p3 + fields_bytes(rest) + r);
        assert(decode_utf8(nb) == f0.0) by {
            broadcast use vstd::utf8::group_utf8_lib;
        }
        assert(valid_utf8(nb)) by {
            broadcast use vstd::utf8::group_utf8_lib;
        }
        assert forall|i: int| 0 <= i < rest.len() implies encode_utf8(#[trigger] rest[i].0).len()
            <= u64::MAX && rest[i].1.len() <= u64::MAX by {
            assert(rest[i] == fs[i + 1]);
        }
        lemma_parse_fields(p3, rest, r, acc.push(f0));
        assert(acc.push(f0) + rest =~= acc + fs);
    }
}

proof fn lemma_parse_section(p: Seq<u8>, s: SectionSpec, r: Seq<u8>)
    requires
        section_fits(s),
    ensures
        parse_section(p + section_bytes(s) + r, p.len()) matches Ok((s2, q)) && s2 == s && q == p.len()
            + section_bytes(s).len(),
{
    let data = p + section_bytes(s) + r;
    let tail = chunk_bytes(s.timestamps) + varint_bytes(s.fields.len() as u64) + fields_bytes(
        s.fields,
    ) + r;
    assert(data =~= p + chunk_bytes(s.header) + tail);
    lemma_parse_chunk(p, s.header, tail);
    let p1 = p + chunk_bytes(s.header);
    let tail2 = varint_bytes(s.fields.len() as u64) + fields_bytes(s.fields) + r;
    assert(data =~= p1 + chunk_bytes(s.timestamps) + tail2);
    lemma_parse_chunk(p1, s.timestamps, tail2);
    let p2 = p1 + chunk_bytes(s.timestamps);
    assert(data.subrange(p2.len() as int, data.len() as int) =~= varint_bytes(s.fields.len() as u64)
        + (fields_bytes(s.fields) + r));
    lemma_varint_roundtrip(s.fields.len() as u64, fields_bytes(s.fields) + r);
    let p3 = p2 + varint_bytes(s.fields.len() as u64);
    assert(data =~= p3 + fields_bytes(s.fields) + r);
    lemma_parse_fields(p3, s.fields, r, Seq::empty());
    assert(Seq::<(Seq<char>, Seq<u8>)>::empty() + s.fields =~= s.fields);
}

#[verifier::spinoff_prover]
#[verifier::rlimit(100)]
proof fn lemma_parse_body(p: Seq<u8>, ss: Seq<SectionSpec>, acc: Seq<SectionSpec>)
    requires
        forall|i: int| 0 <= i < ss.len() ==> section_fits(#[trigger] ss[i]),
    ensures
        parse_body_from(p + body_bytes(ss), p.len(), acc) == Ok::<Seq<SectionSpec>, BlockError>(
            acc + ss,
        ),
    decreases ss.len(),
{
    if ss.len() == 0 {
        assert(acc + ss =~= acc);
        assert(p + body_bytes(ss) =~= p);
    } else {
        lemma_body_split(ss);
        let rest = ss.drop_first();
        let data = p + body_bytes(ss);
        assert(data =~= p + section_bytes(ss[0]) + body_bytes(rest));
        assert(section_fits(ss[0]));
        lemma_parse_section(p, ss[0], body_bytes(rest));
        assert(chunk_bytes(ss[0].header).len() >= 1);
        let p2 = p + section_bytes(ss[0]);
        assert(data =~= p2 + body_bytes(rest));
        assert forall|i: int| 0 <= i < rest.len() implies section_fits(#[trigger] rest[i]) by {
            assert(rest[i] == ss[i + 1]);
        }
        lemma_parse_body(p2, rest, acc.push(ss[0]));
        assert(acc.push(ss[0]) + rest =~= acc + ss);
    }
}

/// Reading a block body back gives the sections that were written, in order.
pub proof fn lemma_block_body_roundtrip(ss: Seq<SectionSpec>)
    requires
        forall|i: int| 0 <= i < ss.len() ==> section_fits(#[trigger] ss[i]),
    ensures
        parse_body_from(body_bytes(ss), 0, Seq::empty()) == Ok::<Seq<SectionSpec>, BlockError>(ss),
{
    let e = Seq::<u8>::empty();
    assert(e + body_bytes(ss) =~= body_bytes(ss));
    lemma_parse_body(e, ss, Seq::empty());
    assert(Seq::<SectionSpec>::empty() + ss =~= ss);
}

/// A block file made of any 44-byte header and the body of `ss` decodes, with
/// the body's checksum, to the sections `ss`.
pub proof fn lemma_block_roundtrip(header: Seq<u8>, ss: Seq<SectionSpec>)
    requires
        header.len() == BLOCK_HEADER_SIZE,
        forall|i: int| 0 <= i < ss.len() ==> section_fits(#[trigger] ss[i]),
    ensures
        decode_block_spec(header + body_bytes(ss), crc32_of(body_bytes(ss))) == Ok::<
            Seq<SectionSpec>,
            BlockError,
        >(ss),
{
    let data = header + body_bytes(ss);
    assert(data.subrange(BLOCK_HEADER_SIZE as int, data.len() as int) =~= body_bytes(ss));
    lemma_block_body_roundtrip(ss);
}

/// The 44 header bytes of a block file.
pub open spec fn block_header_bytes(
    min_ts: i64,
    max_ts: i64,
    series_count: u32,
    original_size: u64,
    compressed_size: u64,
    crc: u32,
) -> Seq<u8> {
    BLOCK_MAGIC@ + be_bytes_u64(min_ts as u64) + be_bytes_u64(max_ts as u64) + be_bytes_u32(
        series_count,
    ) + be_bytes_u64(original_size) + be_bytes_u64(compressed_size) + be_bytes_u32(crc)
}

/// Writes the header of a block file.
pub fn encode_block_header(
    min_ts: i64,
    max_ts: i64,
    series_count: u32,
    original_size: u64,
    compressed_size: u64,
    crc: u32,
) -> (r: Vec<u8>)
    ensures
        r@ == block_header_bytes(min_ts, max_ts, series_count, original_size, compressed_size, crc),
        r@.len() == BLOCK_HEADER_SIZE,
{
    let mut h: Vec<u8> = Vec::new();
    h.push(BLOCK_MAGIC[0]);
    h.push(BLOCK_MAGIC[1]);
    h.push(BLOCK_MAGIC[2]);
    h.push(BLOCK_MAGIC[3]);
    proof {
        assert(h@ =~= BLOCK_MAGIC@);
    }
    push_be_u64(&mut h, min_ts as u64);
    push_be_u64(&mut h, max_ts as u64);
    push_be_u32(&mut h, series_count);
    push_be_u64(&mut h, original_size);
    push_be_u64(&mut h, compressed_size);
    push_be_u32(&mut h, crc);
    h
}

/// The size of the series columns before the field columns are counted: each
/// section's header and timestamp bytes.
pub open spec fn original_size_spec(ss: Seq<SectionSpec>) -> int
    decreases ss.len(),
{
    if ss.len() == 0 {
        0
    } else {
        original_size_spec(ss.drop_last()) + ss.last().header.len() + ss.last().timestamps.len()
    }
}

/// A block file ready to be written, with what its metadata records.
pub struct BlockFile {
    pub bytes: Vec<u8>,
    pub crc32: u32,
    pub original_size: u64,
    pub compressed_size: u64,
}

/// Lays out a block file for `series`: header, then the compressed body, with
/// the checksum of the body. `series_count` is recorded in 32 bits.
pub fn build_block_file(series: &[SeriesBlockData], min_ts: i64, max_ts: i64, series_count: usize) -> (r:
    BlockFile)
    requires
        original_size_spec(sections_view(series@)) <= u64::MAX,
    ensures
        ({
            let body = body_bytes(sections_view(series@));
            &&& r.crc32 == crc32_of(body)
            &&& r.original_size == original_size_spec(sections_view(series@))
            &&& r.compressed_size == body.len()
            &&& r.bytes@ == block_header_bytes(
                min_ts,
                max_ts,
                series_count as u32,
                r.original_size,
                r.compressed_size,
                r.crc32,
            ) + body
        }),
{
    let ghost sv = sections_view(series@);
    let mut original_size: u64 = 0;
    let mut i: usize = 0;
    while i < series.len()
        invariant
            i <= series.len(),
            sv == sections_view(series@),
            original_size_spec(sv) <= u64::MAX,
            original_size == original_size_spec(sv.take(i as int)),
        decreases series.len() - i,
    {
        proof {
            assert(sv.take(i + 1).drop_last() =~= sv.take(i as int));
            lemma_original_size_prefix(sv, i + 1);
        }
        original_size = original_size + series[i].header.len() as u64 + series[i].timestamps.len() as u64;
        i = i + 1;
    }
    proof {
        assert(sv.take(i as int) =~= sv);
    }
    let body = encode_block_body(series);
    let crc = crc32(body.as_slice());
    let compressed_size = body.len() as u64;
    let mut bytes = encode_block_header(min_ts, max_ts, series_count as u32, original_size, compressed_size, crc);
    append_bytes(&mut bytes, body.as_slice());
    BlockFile { bytes, crc32: crc, original_size, compressed_size }
}

proof fn lemma_original_size_prefix(ss: Seq<SectionSpec>, i: int)
    requires
        0 <= i <= ss.len(),
    ensures
        0 <= original_size_spec(ss.take(i)) <= original_size_spec(ss),
    decreases ss.len(),
{
    if i == ss.len() {
        assert(ss.take(i) =~= ss);
        lemma_original_size_nonneg(ss);
    } else {
        assert(ss.drop_last().take(i) =~= ss.take(i));
        lemma_original_size_prefix(ss.drop_last(), i);
    }
}

proof fn lemma_original_size_nonneg(ss: Seq<SectionSpec>)
    ensures
        original_size_spec(ss) >= 0,
    decreases ss.len(),
{
    if ss.len() > 0 {
        lemma_original_size_nonneg(ss.drop_last());
    }
}

fn read_chunk(data: &[u8], pos: usize) -> (r: Result<(Vec<u8>, usize), BlockError>)
    requires
        pos <= data.len(),
    ensures
        match r {
            Ok((b, p)) => parse_chunk(data@, pos as nat) == Ok::<(Seq<u8>, nat), BlockError>(
                (b@, p as nat),
            ) && p <= data.len(),
            Err(e) => parse_chunk(data@, pos as nat) == Err::<(Seq<u8>, nat), BlockError>(e),
        },
{
    let rest = vstd::slice::slice_subrange(data, pos, data.len());
    let (len, n) = match decode_varint(rest) {
        Some(x) => x,
        None => return Err(BlockError::VarintDecode),
    };
    let p1 = pos + n;
    if len > (data.len() - p1) as u64 {
        return Err(BlockError::Truncated);
    }
    let end = p1 + len as usize;
    Ok((copy_range(data, p1, end), end))
}

fn read_section(data: &[u8], pos: usize) -> (r: Result<(SeriesBlockData, usize), BlockError>)
    requires
        pos <= data.len(),
    ensures
        match r {
            Ok((s, p)) => parse_section(data@, pos as nat) matches Ok((sv, q)) && sv == s@ && q
                == p as nat && p <= data.len(),
            Err(e) => parse_section(data@, pos as nat) == Err::<(SectionSpec, nat), BlockError>(e),
        },
{
    let (header, p1) = match read_chunk(data, pos) {
        Ok(x) => x,
        Err(e) => return Err(e),
    };
    let (timestamps, p2) = match read_chunk(data, p1) {
        Ok(x) => x,
        Err(e) => return Err(e),
    };
    let rest = vstd::slice::slice_subrange(data, p2, data.len());
    let (field_count, n) = match decode_varint(rest) {
        Some(x) => x,
        None => return Err(BlockError::VarintDecode),
    };
    let mut pos2 = p2 + n;
    let mut fields: Vec<(String, Vec<u8>)> = Vec::new();
    let mut k: u64 = 0;
    let ghost total = parse_fields(data@, (p2 + n) as nat, field_count as nat, Seq::empty());
    let ghost hv = header@;
    let ghost tv = timestamps@;
    proof {
        assert(fields@.map_values(|f: (String, Vec<u8>)| field_view(f)) =~= Seq::<
            (Seq<char>, Seq<u8>),
        >::empty());
    }
    while k < field_count
        invariant
            k <= field_count,
            pos2 <= data.len(),
            hv == header@,
            tv == timestamps@,
            total == parse_fields(data@, (p2 + n) as nat, field_count as nat, Seq::empty()),
            parse_section(data@, pos as nat) == (match total {
                Err(e) => Err(e),
                Ok((fs, p3)) => Ok((SectionSpec { header: hv, timestamps: tv, fields: fs }, p3)),
            }),
            parse_fields(
                data@,
                pos2 as nat,
                (field_count - k) as nat,
                fields@.map_values(|f: (String, Vec<u8>)| field_view(f)),
            ) == total,
        decreases field_count - k,
    {
        let (name_bytes, q1) = match read_chunk(data, pos2) {
            Ok(x) => x,
            Err(e) => return Err(e),
        };
        let ghost nb = name_bytes@;
        let name = match string_from_utf8(name_bytes) {
            Some(s) => s,
            None => return Err(BlockError::InvalidUtf8),
        };
        let (fdata, q2) = match read_chunk(data, q1) {
            Ok(x) => x,
            Err(e) => return Err(e),
        };
        let ghost old_fields = fields@;
        fields.push((name, fdata));
        proof {
            assert(fields@.map_values(|f: (String, Vec<u8>)| field_view(f)) =~= old_fields.map_values(
                |f: (String, Vec<u8>)| field_view(f),
            ).push((decode_utf8(nb), fdata@)));
        }
        pos2 = q2;
        k = k + 1;
    }
    let s = SeriesBlockData { header, timestamps, fields };
    Ok((s, pos2))
}

/// Splits a block body into its series sections.
pub fn decode_block_body(data: &[u8]) -> (r: Result<Vec<SeriesBlockData>, BlockError>)
    ensures
        match r {
            Ok(v) => parse_body_from(data@, 0, Seq::empty()) == Ok::<Seq<SectionSpec>, BlockError>(
                sections_view(v@),
            ),
            Err(e) => parse_body_from(data@, 0, Seq::empty()) == Err::<Seq<SectionSpec>, BlockError>(
                e,
            ),
        },
{
    let mut out: Vec<SeriesBlockData> = Vec::new();
    let mut pos: usize = 0;
    proof {
        assert(sections_view(out@) =~= Seq::<SectionSpec>::empty());
    }
    while pos < data.len()
        invariant
            pos <= data.len(),
            parse_body_from(data@, pos as nat, sections_view(out@)) == parse_body_from(
                data@,
                0,
                Seq::empty(),
            ),
        decreases data.len() - pos,
    {
        let (s, p) = match read_section(data, pos) {
            Ok(x) => x,
            Err(e) => return Err(e),
        };
        if p <= pos {
            return Err(BlockError::Truncated);
        }
        let ghost old_out = out@;
        out.push(s);
        proof {
            assert(sections_view(out@) =~= sections_view(old_out).push(out@.last()@));
        }
        pos = p;
    }
    Ok(out)
}

/// Checks and splits the bytes of a block file: its header must be complete
/// and its body must match the recorded checksum.
pub fn decode_block(data: &[u8], expected_crc: u32) -> (r: Result<DecodedBlock, BlockError>)
    ensures
        match r {
            Ok(b) => decode_block_spec(data@, expected_crc) == Ok::<Seq<SectionSpec>, BlockError>(
                sections_view(b.series@),
            ),
            Err(e) => decode_block_spec(data@, expected_crc) == Err::<Seq<SectionSpec>, BlockError>(
                e,
            ),
        },
{
    if data.len() < BLOCK_HEADER_SIZE {
        return Err(BlockError::TooSmall);
    }
    let body = vstd::slice::slice_subrange(data, BLOCK_HEADER_SIZE, data.len());
    let computed = crc32(body);
    if computed != expected_crc {
        return Err(BlockError::CrcMismatch);
    }
    match decode_block_body(body) {
        Ok(series) => Ok(DecodedBlock { series }),
        Err(e) => Err(e),
    }
}

/// Where the block files are kept.
pub struct BlockStore {
    dir: String,
}

impl View for BlockStore {
    type V = Seq<char>;

    closed spec fn view(&self) -> Seq<char> {
        self.dir@
    }
}

/// The path of the file of block `block_id` under `dir`.
pub open spec fn block_path_spec(dir: Seq<char>, block_id: Seq<char>) -> Seq<char> {
    path_join_spec(dir, block_id + ".blk"@)
}

impl BlockStore {
    /// A store over the directory `dir`.
    pub fn new(dir: String) -> (r: Self)
        ensures
            r@ == dir@,
    {
        BlockStore { dir }
    }

    /// The directory of the store.
    pub fn dir(&self) -> (r: &str)
        ensures
            r@ == self@,
    {
        self.dir.as_str()
    }

    /// The path of the file of block `block_id`.
    pub fn block_file_path(&self, block_id: &str) -> (r: String)
        ensures
            r@ == block_path_spec(self@, block_id@),
    {
        let name = join_text(block_id, ".blk");
        path_join(self.dir.as_str(), name.as_str())
    }

    /// Lays out the block file of a flushed active block, whose series are
    /// encoded as `sections`, under a new random block id; returns the file and
    /// the block's metadata (its metric that of the first series, none when
    /// there is none).
    pub fn prepare_block(&self, data: &FlushData, sections: &[SeriesBlockData]) -> (r: (BlockFile, BlockMeta))
        requires
            original_size_spec(sections_view(sections@)) <= u64::MAX,
        ensures
            ({
                let (file, meta) = r;
                let body = body_bytes(sections_view(sections@));
                &&& file.crc32 == crc32_of(body)
                &&& file.original_size == original_size_spec(sections_view(sections@))
                &&& file.compressed_size == body.len()
                &&& file.bytes@ == block_header_bytes(
                    data.min_timestamp,
                    data.max_timestamp,
                    data.series_count as u32,
                    file.original_size,
                    file.compressed_size,
                    file.crc32,
                ) + body
                &&& meta.block_id@.len() == 36
                &&& meta.file_path@ == block_path_spec(self@, meta.block_id@)
                &&& meta.min_timestamp == data.min_timestamp
                &&& meta.max_timestamp == data.max_timestamp
                &&& meta.series_count == data.series_count as u32
                &&& meta.compressed_size == file.compressed_size
                &&& meta.original_size == file.original_size
                &&& meta.crc32 == file.crc32
                &&& meta.metric@ == (if data.series@.len() > 0 { data.series@[0].metric@ } else { Seq::empty() })
            }),
    {
        let block_id = new_uuid();
        let file_path = self.block_file_path(block_id.as_str());
        let metric = if data.series.len() > 0 { data.series[0].metric.clone() } else { String::new() };
        let file = build_block_file(sections, data.min_timestamp, data.max_timestamp, data.series_count);
        let meta = BlockMeta {
            block_id,
            min_timestamp: data.min_timestamp,
            max_timestamp: data.max_timestamp,
            series_count: data.series_count as u32,
            compressed_size: file.compressed_size,
            original_size: file.original_size,
            crc32: file.crc32,
            file_path,
            metric,
        };
        (file, meta)
    }
}

} // verus!

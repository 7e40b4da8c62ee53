//! Block engine: the on-disk block layout (length-prefixed header, then the
//! stored payload), the chain of blocks that carries one payload, and the
//! reader and writer over a container byte image.
use vstd::prelude::*;
use vstd::bytes::{
    spec_u32_from_le_bytes, spec_u32_to_le_bytes, spec_u64_from_le_bytes, spec_u64_to_le_bytes,
    lemma_auto_spec_u32_to_from_le_bytes, lemma_auto_spec_u64_to_from_le_bytes,
};
use vstd::slice::{slice_subrange, slice_to_vec};
use crate::codec::{
    compress_data, decode_payload, decompress_data, spec_compress, xxh3_checksum, xxh3_of,
    CompressionMethod, DataType, StorageError, MIN_COMPRESS_SIZE,
};
use crate::wire::{lemma_i64_u64_cast, push_u32, push_u64, read_u32_at, read_u64_at};

verus! {

/// Payloads are split into raw chunks of at most this many bytes.
pub const BLOCK_SIZE: usize = 65536;

/// A wall-clock instant, as whole seconds since the epoch and the
/// nanosecond remainder.
#[derive(Clone, Copy, Debug, PartialEq, Eq)]
pub struct Timestamp {
    pub secs: i64,
    pub nanos: u32,
}

/// Where a block lives in the container: the absolute offset of its 4-byte
/// header length prefix, the serialized header length, and the stored
/// payload length.
#[derive(Clone, Copy, Debug, PartialEq, Eq)]
pub struct BlockLocation {
    pub offset: u64,
    pub header_size: u32,
    pub data_size: u64,
}

/// The per-block header.
#[derive(Clone, Copy, Debug, PartialEq, Eq)]
pub struct BlockHeader {
    pub data_type: DataType,
    pub original_size: u64,
    pub compressed_size: u64,
    pub compression_method: CompressionMethod,
    pub checksum: u64,
    pub timestamp: Timestamp,
    pub next_location: Option<BlockLocation>,
}

/// Relies on chrono's `DateTime<Utc>` view of the system clock for the
/// wall-clock instant of block preparation and metadata updates; nothing is
/// assumed of the value. A clock before the Unix epoch reads as a negative
/// timestamp (chrono's conversion handles that case without panicking,
/// where `Utc::now` would not).
#[verifier::external_body]
pub fn now_timestamp() -> (r: Timestamp) {
    let t = chrono::DateTime::<chrono::Utc>::from(std::time::SystemTime::now());
    Timestamp { secs: t.timestamp(), nanos: t.timestamp_subsec_nanos() }
}

// ---------------------------------------------------------------------------
// Serialized forms.
// ---------------------------------------------------------------------------

pub open spec fn type_tag(t: DataType) -> u8 {
    match t {
        DataType::Text => 0,
        DataType::Binary => 1,
        DataType::Image => 2,
        DataType::Json => 3,
        DataType::Structured => 4,
    }
}

pub open spec fn tag_type(b: u8) -> Option<DataType> {
    if b == 0 {
        Some(DataType::Text)
    } else if b == 1 {
        Some(DataType::Binary)
    } else if b == 2 {
        Some(DataType::Image)
    } else if b == 3 {
        Some(DataType::Json)
    } else if b == 4 {
        Some(DataType::Structured)
    } else {
        None
    }
}

pub open spec fn method_tag(m: CompressionMethod) -> u8 {
    match m {
        CompressionMethod::NoCompression => 0,
        CompressionMethod::Zstd => 1,
        CompressionMethod::DeltaEncoding => 2,
    }
}

pub open spec fn tag_method(b: u8) -> Option<CompressionMethod> {
    if b == 0 {
        Some(CompressionMethod::NoCompression)
    } else if b == 1 {
        Some(CompressionMethod::Zstd)
    } else if b == 2 {
        Some(CompressionMethod::DeltaEncoding)
    } else {
        None
    }
}

/// The 20-byte serialized form of a location.
pub open spec fn enc_loc(l: BlockLocation) -> Seq<u8> {
    spec_u64_to_le_bytes(l.offset) + spec_u32_to_le_bytes(l.header_size) + spec_u64_to_le_bytes(
        l.data_size,
    )
}

/// Reads a location back from its 20 serialized bytes.
pub open spec fn parse_loc(s: Seq<u8>) -> BlockLocation
    recommends
        s.len() == 20,
{
    BlockLocation {
        offset: spec_u64_from_le_bytes(s.subrange(0, 8)),
        header_size: spec_u32_from_le_bytes(s.subrange(8, 12)),
        data_size: spec_u64_from_le_bytes(s.subrange(12, 20)),
    }
}

pub proof fn lemma_loc_round_trip(l: BlockLocation)
    ensures
        enc_loc(l).len() == 20,
        parse_loc(enc_loc(l)) == l,
{
    lemma_auto_spec_u64_to_from_le_bytes();
    lemma_auto_spec_u32_to_from_le_bytes();
    let s = enc_loc(l);
    assert(s.subrange(0, 8) =~= spec_u64_to_le_bytes(l.offset));
    assert(s.subrange(8, 12) =~= spec_u32_to_le_bytes(l.header_size));
    assert(s.subrange(12, 20) =~= spec_u64_to_le_bytes(l.data_size));
}

/// The fixed 38 bytes of a header that precede the successor field.
pub open spec fn enc_header_fixed(h: BlockHeader) -> Seq<u8> {
    seq![type_tag(h.data_type)] + spec_u64_to_le_bytes(h.original_size) + spec_u64_to_le_bytes(
        h.compressed_size,
    ) + seq![method_tag(h.compression_method)] + spec_u64_to_le_bytes(h.checksum)
        + spec_u64_to_le_bytes(h.timestamp.secs as u64) + spec_u32_to_le_bytes(h.timestamp.nanos)
}

/// The serialized header: the fixed fields, then a successor tag byte,
/// then, where a successor exists, its 20-byte location.
pub open spec fn enc_header(h: BlockHeader) -> Seq<u8> {
    match h.next_location {
        None => enc_header_fixed(h).push(0u8),
        Some(l) => enc_header_fixed(h).push(1u8) + enc_loc(l),
    }
}

pub proof fn lemma_enc_header_len(h: BlockHeader)
    ensures
        enc_header_fixed(h).len() == 38,
        h.next_location is Some ==> enc_header(h).len() == 59,
        h.next_location is None ==> enc_header(h).len() == 39,
{
    lemma_auto_spec_u64_to_from_le_bytes();
    lemma_auto_spec_u32_to_from_le_bytes();
}

/// Reads a header back from its serialized bytes; the length must match
/// the successor tag exactly.
pub open spec fn parse_header(s: Seq<u8>) -> Option<BlockHeader> {
    if s.len() != 39 && s.len() != 59 {
        None
    } else if tag_type(s[0]) is None || tag_method(s[17]) is None {
        None
    } else if !((s[38] == 0 && s.len() == 39) || (s[38] == 1 && s.len() == 59)) {
        None
    } else {
        Some(
            BlockHeader {
                data_type: tag_type(s[0]).unwrap(),
                original_size: spec_u64_from_le_bytes(s.subrange(1, 9)),
                compressed_size: spec_u64_from_le_bytes(s.subrange(9, 17)),
                compression_method: tag_method(s[17]).unwrap(),
                checksum: spec_u64_from_le_bytes(s.subrange(18, 26)),
                timestamp: Timestamp {
                    secs: spec_u64_from_le_bytes(s.subrange(26, 34)) as i64,
                    nanos: spec_u32_from_le_bytes(s.subrange(34, 38)),
                },
                next_location: if s[38] == 1 {
                    Some(parse_loc(s.subrange(39, 59)))
                } else {
                    None
                },
            },
        )
    }
}

pub proof fn lemma_header_round_trip(h: BlockHeader)
    ensures
        parse_header(enc_header(h)) == Some(h),
{
    lemma_auto_spec_u64_to_from_le_bytes();
    lemma_auto_spec_u32_to_from_le_bytes();
    lemma_enc_header_len(h);
    lemma_i64_u64_cast(h.timestamp.secs);
    let s = enc_header(h);
    assert(s[0] == type_tag(h.data_type));
    assert(s.subrange(1, 9) =~= spec_u64_to_le_bytes(h.original_size));
    assert(s.subrange(9, 17) =~= spec_u64_to_le_bytes(h.compressed_size));
    assert(s[17] == method_tag(h.compression_method));
    assert(s.subrange(18, 26) =~= spec_u64_to_le_bytes(h.checksum));
    assert(s.subrange(26, 34) =~= spec_u64_to_le_bytes(h.timestamp.secs as u64));
    assert(s.subrange(34, 38) =~= spec_u32_to_le_bytes(h.timestamp.nanos));
    match h.next_location {
        None => {
            assert(s[38] == 0);
        },
        Some(l) => {
            assert(s[38] == 1);
            assert(s.subrange(39, 59) =~= enc_loc(l));
            lemma_loc_round_trip(l);
        },
    }
}

/// Appends the 20-byte serialized form of a location.
pub fn push_loc(out: &mut Vec<u8>, l: &BlockLocation)
    ensures
        final(out)@ == old(out)@ + enc_loc(*l),
{
    push_u64(out, l.offset);
    push_u32(out, l.header_size);
    push_u64(out, l.data_size);
    proof {
        assert(final(out)@ =~= old(out)@ + enc_loc(*l));
    }
}

/// Reads the location stored at byte offset `pos`.
pub fn read_loc_at(buf: &Vec<u8>, pos: usize) -> (r: BlockLocation)
    requires
        pos + 20 <= buf@.len(),
    ensures
        r == parse_loc(buf@.subrange(pos as int, pos as int + 20)),
{
    proof {
        // the requires keeps pos + 20 within the vector, whose length is a usize
        assert(buf@.len() == buf.len());
    }
    let offset = read_u64_at(buf, pos);
    let header_size = read_u32_at(buf, pos + 8);
    let data_size = read_u64_at(buf, pos + 12);
    proof {
        let s = buf@.subrange(pos as int, pos as int + 20);
        assert(s.subrange(0, 8) =~= buf@.subrange(pos as int, pos as int + 8));
        assert(s.subrange(8, 12) =~= buf@.subrange(pos as int + 8, pos as int + 12));
        assert(s.subrange(12, 20) =~= buf@.subrange(pos as int + 12, pos as int + 20));
    }
    BlockLocation { offset, header_size, data_size }
}

fn data_type_tag_exec(t: DataType) -> (r: u8)
    ensures
        r == type_tag(t),
{
    match t {
        DataType::Text => 0,
        DataType::Binary => 1,
        DataType::Image => 2,
        DataType::Json => 3,
        DataType::Structured => 4,
    }
}

fn method_tag_exec(m: CompressionMethod) -> (r: u8)
    ensures
        r == method_tag(m),
{
    match m {
        CompressionMethod::NoCompression => 0,
        CompressionMethod::Zstd => 1,
        CompressionMethod::DeltaEncoding => 2,
    }
}

fn parse_type_exec(b: u8) -> (r: Option<DataType>)
    ensures
        r == tag_type(b),
{
    if b == 0 {
        Some(DataType::Text)
    } else if b == 1 {
        Some(DataType::Binary)
    } else if b == 2 {
        Some(DataType::Image)
    } else if b == 3 {
        Some(DataType::Json)
    } else if b == 4 {
        Some(DataType::Structured)
    } else {
        None
    }
}

fn parse_method_exec(b: u8) -> (r: Option<CompressionMethod>)
    ensures
        r == tag_method(b),
{
    if b == 0 {
        Some(CompressionMethod::NoCompression)
    } else if b == 1 {
        Some(CompressionMethod::Zstd)
    } else if b == 2 {
        Some(CompressionMethod::DeltaEncoding)
    } else {
        None
    }
}

/// Serializes a header.
pub fn encode_header(h: &BlockHeader) -> (out: Vec<u8>)
    ensures
        out@ == enc_header(*h),
{
    let mut out: Vec<u8> = Vec::new();
    out.push(data_type_tag_exec(h.data_type));
    push_u64(&mut out, h.original_size);
    push_u64(&mut out, h.compressed_size);
    out.push(method_tag_exec(h.compression_method));
    push_u64(&mut out, h.checksum);
    push_u64(&mut out, h.timestamp.secs as u64);
    push_u32(&mut out, h.timestamp.nanos);
    proof {
        assert(out@ =~= enc_header_fixed(*h));
    }
    match &h.next_location {
        None => {
            out.push(0u8);
        },
        Some(l) => {
            out.push(1u8);
            push_loc(&mut out, l);
            proof {
                assert(out@ =~= enc_header_fixed(*h).push(1u8) + enc_loc(h.next_location.unwrap()));
            }
        },
    }
    out
}

/// Deserializes a header from exactly the given bytes.
pub fn decode_header(buf: &Vec<u8>) -> (r: Option<BlockHeader>)
    ensures
        r == parse_header(buf@),
{
    let n = buf.len();
    if n != 39 && n != 59 {
        return None;
    }
    let dt = parse_type_exec(buf[0]);
    let m = parse_method_exec(buf[17]);
    let (dt, m) = match (dt, m) {
        (Some(dt), Some(m)) => (dt, m),
        _ => {
            return None;
        },
    };
    let tag = buf[38];
    if !((tag == 0 && n == 39) || (tag == 1 && n == 59)) {
        return None;
    }
    let next_location = if tag == 1 {
        Some(read_loc_at(buf, 39))
    } else {
        None
    };
    let h = BlockHeader {
        data_type: dt,
        original_size: read_u64_at(buf, 1),
        compressed_size: read_u64_at(buf, 9),
        compression_method: m,
        checksum: read_u64_at(buf, 18),
        timestamp: Timestamp {
            secs: read_u64_at(buf, 26) as i64,
            nanos: read_u32_at(buf, 34),
        },
        next_location,
    };
    Some(h)
}

// ---------------------------------------------------------------------------
// Blocks in a container image.
// ---------------------------------------------------------------------------

/// The bytes one block contributes to the container: a 4-byte little-endian
/// header length, the header, then the stored payload.
pub open spec fn enc_block(h: BlockHeader, p: Seq<u8>) -> Seq<u8> {
    spec_u32_to_le_bytes(enc_header(h).len() as u32) + enc_header(h) + p
}

/// Reads the block stored at `off`: its header and its payload bytes.
pub open spec fn parse_block_at(file: Seq<u8>, off: int) -> Option<(BlockHeader, Seq<u8>)> {
    if 0 <= off && off + 4 <= file.len() {
        let hl = spec_u32_from_le_bytes(file.subrange(off, off + 4)) as int;
        if off + 4 + hl <= file.len() {
            match parse_header(file.subrange(off + 4, off + 4 + hl)) {
                Some(h) => {
                    if off + 4 + hl + h.compressed_size <= file.len() {
                        Some(
                            (
                                h,
                                file.subrange(
                                    off + 4 + hl,
                                    off + 4 + hl + h.compressed_size as int,
                                ),
                            ),
                        )
                    } else {
                        None
                    }
                },
                None => None,
            }
        } else {
            None
        }
    } else {
        None
    }
}

/// The payload a chain reconstructs, walking successor pointers from `loc`:
/// each block must parse, carry the checksum of its stored payload, and
/// decode under its method; successors must lie strictly earlier in the
/// file but not before `lo`. `None` marks a broken chain.
pub open spec fn chain_data(file: Seq<u8>, loc: BlockLocation, lo: int) -> Option<Seq<u8>>
    decreases loc.offset,
{
    if loc.offset < lo {
        None
    } else {
        match parse_block_at(file, loc.offset as int) {
            None => None,
            Some((h, p)) => {
                if h.checksum != xxh3_of(p) {
                    None
                } else {
                    match decode_payload(h.compression_method, p) {
                        None => None,
                        Some(chunk) => {
                            match h.next_location {
                                None => Some(chunk),
                                Some(nl) => {
                                    if nl.offset < loc.offset {
                                        match chain_data(file, nl, lo) {
                                            None => None,
                                            Some(rest) => Some(chunk + rest),
                                        }
                                    } else {
                                        None
                                    }
                                },
                            }
                        },
                    }
                }
            },
        }
    }
}

/// A chain reads only bytes in `[lo, len)` of the file it is valid in, so
/// it is unchanged in any longer file that agrees there.
pub proof fn lemma_chain_frame(f1: Seq<u8>, f2: Seq<u8>, loc: BlockLocation, lo: int)
    requires
        0 <= lo,
        f1.len() <= f2.len(),
        forall|i: int| lo <= i < f1.len() ==> f2[i] == f1[i],
        chain_data(f1, loc, lo) is Some,
    ensures
        chain_data(f2, loc, lo) == chain_data(f1, loc, lo),
    decreases loc.offset,
{
    let off = loc.offset as int;
    let (h, p) = parse_block_at(f1, off).unwrap();
    let hl = spec_u32_from_le_bytes(f1.subrange(off, off + 4)) as int;
    assert(f2.subrange(off, off + 4) =~= f1.subrange(off, off + 4));
    assert(f2.subrange(off + 4, off + 4 + hl) =~= f1.subrange(off + 4, off + 4 + hl));
    assert(f2.subrange(off + 4 + hl, off + 4 + hl + h.compressed_size as int) =~= f1.subrange(
        off + 4 + hl,
        off + 4 + hl + h.compressed_size as int,
    ));
    assert(parse_block_at(f2, off) == parse_block_at(f1, off));
    match h.next_location {
        None => {},
        Some(nl) => {
            if nl.offset < loc.offset {
                lemma_chain_frame(f1, f2, nl, lo);
            }
        },
    }
}

/// Appends one block at the file's end and returns its location.
pub fn append_block(file: &mut Vec<u8>, h: &BlockHeader, payload: &Vec<u8>) -> (loc: BlockLocation)
    requires
        h.compressed_size == payload@.len(),
    ensures
        final(file)@ == old(file)@ + enc_block(*h, payload@),
        loc.offset == old(file)@.len(),
        loc.header_size == enc_header(*h).len(),
        loc.data_size == payload@.len(),
        parse_block_at(final(file)@, loc.offset as int) == Some((*h, payload@)),
{
    proof {
        lemma_enc_header_len(*h);
    }
    let offset = file.len();
    let mut hdr = encode_header(h);
    let hl = hdr.len();
    push_u32(file, hl as u32);
    file.append(&mut hdr);
    let mut p = slice_to_vec(payload.as_slice());
    file.append(&mut p);
    let loc = BlockLocation {
        offset: offset as u64,
        header_size: hl as u32,
        data_size: payload.len() as u64,
    };
    proof {
        lemma_auto_spec_u32_to_from_le_bytes();
        lemma_header_round_trip(*h);
        let off = offset as int;
        let eh = enc_header(*h);
        let ehl = eh.len() as int;
        assert(file@ =~= old(file)@ + enc_block(*h, payload@));
        assert(file@.subrange(off, off + 4) =~= spec_u32_to_le_bytes(eh.len() as u32));
        assert(file@.subrange(off + 4, off + 4 + ehl) =~= eh);
        assert(file@.subrange(off + 4 + ehl, off + 4 + ehl + payload@.len() as int) =~= payload@);
    }
    loc
}

/// The number of chunks a payload of `m` bytes splits into (meaningful for
/// `m >= 1`).
pub open spec fn chunk_count(m: int) -> int
    decreases m,
{
    if m <= BLOCK_SIZE {
        1
    } else {
        1 + chunk_count(m - BLOCK_SIZE)
    }
}

pub proof fn lemma_chunk_count_bounds(m: int)
    requires
        m >= 1,
    ensures
        1 <= chunk_count(m) <= m,
    decreases m,
{
    if m > BLOCK_SIZE {
        lemma_chunk_count_bounds(m - BLOCK_SIZE);
    }
}

/// Where the chunk that begins at `start` ends.
pub open spec fn chunk_end(len: int, start: int) -> int {
    if len - start > BLOCK_SIZE {
        start + BLOCK_SIZE
    } else {
        len
    }
}

/// What walking the chain written for `data[start..]` reconstructs: each
/// chunk's stored payload, decoded under its method, in payload order. For
/// every type but Image this is `data[start..]` itself.
pub open spec fn stored_chunks_decode(data: Seq<u8>, start: int, dt: DataType) -> Seq<u8>
    decreases data.len() - start,
{
    if start < 0 || start >= data.len() {
        Seq::empty()
    } else {
        let end = chunk_end(data.len() as int, start);
        let pm = spec_compress(data.subrange(start, end), dt);
        let c = decode_payload(pm.1, pm.0).unwrap();
        if end >= data.len() {
            c
        } else {
            c + stored_chunks_decode(data, end, dt)
        }
    }
}

/// The chain at `loc` lays out `data[start..]` per the block-engine rules:
/// block by block, the header carries the chunk's type, its raw and stored
/// sizes, the checksum of the stored payload, and the policy's method; the
/// payload is the policy's output for exactly that chunk; and the successor
/// field links chunk to chunk, earlier in the file each time.
pub open spec fn chain_blocks_for(
    file: Seq<u8>,
    loc: BlockLocation,
    lo: int,
    dt: DataType,
    data: Seq<u8>,
    start: int,
) -> bool
    decreases loc.offset,
{
    let end = chunk_end(data.len() as int, start);
    let chunk = data.subrange(start, end);
    match parse_block_at(file, loc.offset as int) {
        None => false,
        Some((h, p)) => {
            &&& loc.offset >= lo
            &&& h.data_type == dt
            &&& h.original_size == end - start
            &&& h.compressed_size == p.len()
            &&& h.checksum == xxh3_of(p)
            &&& p == spec_compress(chunk, dt).0
            &&& h.compression_method == spec_compress(chunk, dt).1
            &&& match h.next_location {
                None => end == data.len(),
                Some(nl) => end < data.len() && nl.offset < loc.offset && chain_blocks_for(
                    file,
                    nl,
                    lo,
                    dt,
                    data,
                    end,
                ),
            }
        },
    }
}

/// Like [`lemma_chain_frame`]: the block layout of a chain reads only bytes
/// in `[lo, len)` of the file it holds in.
pub proof fn lemma_chain_blocks_frame(
    f1: Seq<u8>,
    f2: Seq<u8>,
    loc: BlockLocation,
    lo: int,
    dt: DataType,
    data: Seq<u8>,
    start: int,
)
    requires
        0 <= lo,
        f1.len() <= f2.len(),
        forall|i: int| lo <= i < f1.len() ==> f2[i] == f1[i],
        chain_blocks_for(f1, loc, lo, dt, data, start),
    ensures
        chain_blocks_for(f2, loc, lo, dt, data, start),
    decreases loc.offset,
{
    let off = loc.offset as int;
    let (h, p) = parse_block_at(f1, off).unwrap();
    let hl = spec_u32_from_le_bytes(f1.subrange(off, off + 4)) as int;
    assert(f2.subrange(off, off + 4) =~= f1.subrange(off, off + 4));
    assert(f2.subrange(off + 4, off + 4 + hl) =~= f1.subrange(off + 4, off + 4 + hl));
    assert(f2.subrange(off + 4 + hl, off + 4 + hl + h.compressed_size as int) =~= f1.subrange(
        off + 4 + hl,
        off + 4 + hl + h.compressed_size as int,
    ));
    assert(parse_block_at(f2, off) == parse_block_at(f1, off));
    match h.next_location {
        None => {},
        Some(nl) => {
            if nl.offset < loc.offset {
                lemma_chain_blocks_frame(f1, f2, nl, lo, dt, data, chunk_end(
                    data.len() as int,
                    start,
                ));
            }
        },
    }
}

/// Writes the chain for `data[start..]` tail-first: later chunks are
/// appended before earlier ones, so every block knows its successor's final
/// offset and the head block comes back last. Returns the head location and
/// the number of blocks written.
pub fn write_chain(
    file: &mut Vec<u8>,
    data: &[u8],
    start: usize,
    data_type: DataType,
    Ghost(lo): Ghost<int>,
) -> (r: (BlockLocation, u64))
    requires
        start < data@.len(),
        0 <= lo <= old(file)@.len(),
    ensures
        old(file)@.len() < final(file)@.len(),
        forall|i: int| 0 <= i < old(file)@.len() ==> final(file)@[i] == old(file)@[i],
        old(file)@.len() <= r.0.offset < final(file)@.len(),
        r.1 == chunk_count(data@.len() - start),
        chain_data(final(file)@, r.0, lo) == Some(
            stored_chunks_decode(data@, start as int, data_type),
        ),
        chain_blocks_for(final(file)@, r.0, lo, data_type, data@, start as int),
        (data_type != DataType::Image || data@.len() < MIN_COMPRESS_SIZE)
            ==> stored_chunks_decode(data@, start as int, data_type) == data@.subrange(
            start as int,
            data@.len() as int,
        ),
    decreases data@.len() - start,
{
    let n = data.len();
    let end = if n - start > BLOCK_SIZE {
        start + BLOCK_SIZE
    } else {
        n
    };
    let ghost mid_file: Seq<u8>;
    let (next_location, tail_count) = if end < n {
        let (tl, tc) = write_chain(file, data, end, data_type, Ghost(lo));
        proof {
            mid_file = file@;
        }
        (Some(tl), tc)
    } else {
        proof {
            mid_file = file@;
        }
        (None, 0u64)
    };
    let chunk = slice_to_vec(slice_subrange(data, start, end));
    let (payload, method) = compress_data(&chunk, data_type);
    let checksum = xxh3_checksum(&payload);
    let h = BlockHeader {
        data_type,
        original_size: chunk.len() as u64,
        compressed_size: payload.len() as u64,
        compression_method: method,
        checksum,
        timestamp: now_timestamp(),
        next_location,
    };
    let loc = append_block(file, &h, &payload);
    proof {
        assert(end as int == chunk_end(data@.len() as int, start as int));
        assert(chunk@ == data@.subrange(start as int, end as int));
        let chunk_dec = decode_payload(method, payload@).unwrap();
        let d = stored_chunks_decode(data@, start as int, data_type);
        match next_location {
            None => {
                assert(d == chunk_dec);
                assert(chain_data(file@, loc, lo) == Some(d));
                if data_type != DataType::Image || data@.len() < MIN_COMPRESS_SIZE {
                    assert(d =~= data@.subrange(start as int, data@.len() as int));
                }
            },
            Some(nl) => {
                lemma_chunk_count_bounds(data@.len() - end);
                let d_tail = stored_chunks_decode(data@, end as int, data_type);
                lemma_chain_frame(mid_file, file@, nl, lo);
                lemma_chain_blocks_frame(mid_file, file@, nl, lo, data_type, data@, end as int);
                assert(d == chunk_dec + d_tail);
                assert(chain_data(file@, loc, lo) == Some(d));
                if data_type != DataType::Image || data@.len() < MIN_COMPRESS_SIZE {
                    assert(d =~= data@.subrange(start as int, data@.len() as int));
                }
            },
        }
        assert(chain_blocks_for(file@, loc, lo, data_type, data@, start as int));
    }
    (loc, tail_count + 1)
}

/// Walks a chain from `loc` and concatenates the decoded chunks. It
/// succeeds exactly where [`chain_data`] is defined, and then returns it: a
/// block before `lo`, one that does not parse, fails its checksum, fails to
/// decode, or points forward is a corruption.
pub fn read_chain(file: &Vec<u8>, loc: BlockLocation, lo: u64) -> (r: Result<
    Vec<u8>,
    StorageError,
>)
    ensures
        r is Ok <==> chain_data(file@, loc, lo as int) is Some,
        r is Ok ==> r.unwrap()@ == chain_data(file@, loc, lo as int).unwrap(),
        r is Err ==> r.unwrap_err() == StorageError::Corruption,
    decreases loc.offset,
{
    if loc.offset < lo {
        return Err(StorageError::Corruption);
    }
    let (h, payload) = match read_block_at(file, loc.offset) {
        Ok(x) => x,
        Err(_) => {
            return Err(StorageError::Corruption);
        },
    };
    let c = xxh3_checksum(&payload);
    if c != h.checksum {
        return Err(StorageError::Corruption);
    }
    let mut chunk = match decompress_data(&payload, h.compression_method) {
        Ok(c) => c,
        Err(_) => {
            return Err(StorageError::Corruption);
        },
    };
    match h.next_location {
        None => Ok(chunk),
        Some(nl) => {
            if nl.offset < loc.offset {
                match read_chain(file, nl, lo) {
                    Ok(mut rest) => {
                        chunk.append(&mut rest);
                        Ok(chunk)
                    },
                    Err(e) => Err(e),
                }
            } else {
                Err(StorageError::Corruption)
            }
        },
    }
}

/// Reads the block at `offset`, mirroring [`parse_block_at`]; any shortfall
/// or malformed header reads as a corruption.
pub fn read_block_at(file: &Vec<u8>, offset: u64) -> (r: Result<(BlockHeader, Vec<u8>), StorageError>)
    ensures
        r is Ok <==> parse_block_at(file@, offset as int) is Some,
        r is Ok ==> parse_block_at(file@, offset as int) == Some(
            (r.unwrap().0, r.unwrap().1@),
        ),
        r is Err ==> r.unwrap_err() == StorageError::Corruption,
{
    let n = file.len();
    if offset >= n as u64 || (n as u64) - offset < 4 {
        return Err(StorageError::Corruption);
    }
    let off = offset as usize;
    let hl32 = read_u32_at(file, off);
    let hl = hl32 as usize;
    if n - (off + 4) < hl {
        return Err(StorageError::Corruption);
    }
    let hdr_bytes = slice_to_vec(slice_subrange(file.as_slice(), off + 4, off + 4 + hl));
    let h = match decode_header(&hdr_bytes) {
        Some(h) => h,
        None => {
            return Err(StorageError::Corruption);
        },
    };
    let body_start = off + 4 + hl;
    if ((n - body_start) as u64) < h.compressed_size {
        return Err(StorageError::Corruption);
    }
    let csize = h.compressed_size as usize;
    let payload = slice_to_vec(slice_subrange(file.as_slice(), body_start, body_start + csize));
    Ok((h, payload))
}

} // verus!

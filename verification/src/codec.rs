//! Codec layer: per-type compression policy, delta coding of signed 64-bit
//! integer sequences, and the canonical byte encoding of such sequences.
use vstd::prelude::*;
use vstd::bytes::{
    spec_u64_from_le_bytes, spec_u64_to_le_bytes, u64_from_le_bytes, u64_to_le_bytes,
    lemma_auto_spec_u64_to_from_le_bytes,
};
use vstd::slice::slice_to_vec;
use vstd::wrapping::u64_specs;
use crate::wire::{lemma_i64_u64_cast, read_u64_at, push_u64};

verus! {

/// Raw chunks below this many bytes are stored without any compression attempt.
pub const MIN_COMPRESS_SIZE: usize = 1024;

/// The logical type a caller tags a payload with; it selects the
/// compression strategy.
#[derive(Clone, Copy, Debug, PartialEq, Eq)]
pub enum DataType {
    Text,
    Binary,
    Image,
    Json,
    Structured,
}

/// How a block's stored payload was derived from its raw chunk.
#[derive(Clone, Copy, Debug, PartialEq, Eq)]
pub enum CompressionMethod {
    NoCompression,
    Zstd,
    DeltaEncoding,
}

/// The error kinds the store surfaces.
#[derive(Clone, Copy, Debug, PartialEq, Eq)]
pub enum StorageError {
    /// The container does not begin with the magic bytes.
    InvalidFormat,
    /// The version byte is not the supported version.
    UnsupportedVersion,
    /// The metadata region does not deserialize.
    CorruptMetadata,
    /// The key is absent from the index.
    NotFound,
    /// A checksum mismatch, codec failure, or truncated block.
    Corruption,
    /// A store would grow the serialized metadata past the region
    /// reserved at creation.
    MetadataOverflow,
}

// ---------------------------------------------------------------------------
// Canonical encoding of signed 64-bit integer sequences: a little-endian
// u64 element count, then each element as its 8 little-endian bytes.
// ---------------------------------------------------------------------------

/// Bytes of the elements (without the count prefix).
pub open spec fn enc_i64s(xs: Seq<i64>) -> Seq<u8>
    decreases xs.len(),
{
    if xs.len() == 0 {
        Seq::empty()
    } else {
        spec_u64_to_le_bytes(xs[0] as u64) + enc_i64s(xs.drop_first())
    }
}

/// Canonical encoding of a whole sequence.
pub open spec fn enc_i64_seq(xs: Seq<i64>) -> Seq<u8> {
    spec_u64_to_le_bytes(xs.len() as u64) + enc_i64s(xs)
}

/// Decodes a run of 8-byte little-endian elements.
pub open spec fn dec_i64s(b: Seq<u8>) -> Seq<i64>
    decreases b.len(),
{
    if b.len() < 8 {
        Seq::empty()
    } else {
        seq![spec_u64_from_le_bytes(b.subrange(0, 8)) as i64] + dec_i64s(b.skip(8))
    }
}

/// Parses a canonical sequence encoding; the count must match the length
/// exactly.
pub open spec fn parse_i64_seq(b: Seq<u8>) -> Option<Seq<i64>> {
    if b.len() >= 8 && b.len() == 8 + 8 * (spec_u64_from_le_bytes(b.subrange(0, 8)) as int) {
        Some(dec_i64s(b.skip(8)))
    } else {
        None
    }
}

pub proof fn lemma_enc_i64s_len(xs: Seq<i64>)
    ensures
        enc_i64s(xs).len() == 8 * xs.len(),
    decreases xs.len(),
{
    lemma_auto_spec_u64_to_from_le_bytes();
    if xs.len() > 0 {
        lemma_enc_i64s_len(xs.drop_first());
    }
}

pub proof fn lemma_dec_enc_i64s(xs: Seq<i64>)
    ensures
        dec_i64s(enc_i64s(xs)) == xs,
    decreases xs.len(),
{
    lemma_auto_spec_u64_to_from_le_bytes();
    if xs.len() == 0 {
        assert(dec_i64s(enc_i64s(xs)) =~= xs);
    } else {
        let head = spec_u64_to_le_bytes(xs[0] as u64);
        let b = enc_i64s(xs);
        assert(b.subrange(0, 8) =~= head);
        assert(b.skip(8) =~= enc_i64s(xs.drop_first()));
        lemma_dec_enc_i64s(xs.drop_first());
        lemma_i64_u64_cast(xs[0]);
        assert(dec_i64s(b) =~= xs);
    }
}

pub proof fn lemma_enc_dec_i64s(b: Seq<u8>)
    requires
        b.len() % 8 == 0,
    ensures
        enc_i64s(dec_i64s(b)) == b,
        dec_i64s(b).len() == b.len() / 8,
    decreases b.len(),
{
    lemma_auto_spec_u64_to_from_le_bytes();
    if b.len() == 0 {
        assert(enc_i64s(dec_i64s(b)) =~= b);
    } else {
        assert(b.len() >= 8);
        let rest = b.skip(8);
        assert(rest.len() % 8 == 0);
        lemma_enc_dec_i64s(rest);
        let v = spec_u64_from_le_bytes(b.subrange(0, 8));
        let xs = dec_i64s(b);
        assert(xs[0] == v as i64);
        assert(xs.drop_first() =~= dec_i64s(rest));
        assert(((v as i64) as u64) == v) by (bit_vector);
        assert(spec_u64_to_le_bytes(spec_u64_from_le_bytes(b.subrange(0, 8))) == b.subrange(0, 8));
        assert(enc_i64s(xs) =~= b);
    }
}

/// Parsing then printing gives the original bytes back.
pub proof fn lemma_enc_parse_i64_seq(b: Seq<u8>)
    requires
        parse_i64_seq(b) is Some,
    ensures
        enc_i64_seq(parse_i64_seq(b).unwrap()) == b,
{
    lemma_auto_spec_u64_to_from_le_bytes();
    let body = b.skip(8);
    assert(body.len() % 8 == 0);
    lemma_enc_dec_i64s(body);
    let xs = dec_i64s(body);
    let c = spec_u64_from_le_bytes(b.subrange(0, 8));
    assert(xs.len() == c as int);
    assert(spec_u64_to_le_bytes(xs.len() as u64) == b.subrange(0, 8));
    assert(enc_i64_seq(xs) =~= b);
}

/// Canonically encodes `xs` (count prefix, then elements).
pub fn encode_i64_seq(xs: &Vec<i64>) -> (out: Vec<u8>)
    ensures
        out@ == enc_i64_seq(xs@),
{
    let mut out: Vec<u8> = Vec::new();
    push_u64(&mut out, xs.len() as u64);
    let mut body = enc_i64s_exec(xs, 0);
    out.append(&mut body);
    proof {
        assert(xs@.skip(0) =~= xs@);
    }
    out
}

fn enc_i64s_exec(xs: &Vec<i64>, j: usize) -> (out: Vec<u8>)
    requires
        j <= xs@.len(),
    ensures
        out@ == enc_i64s(xs@.skip(j as int)),
    decreases xs@.len() - j,
{
    if j == xs.len() {
        let out: Vec<u8> = Vec::new();
        proof {
            assert(xs@.skip(j as int) =~= Seq::<i64>::empty());
        }
        out
    } else {
        let mut out = u64_to_le_bytes(xs[j] as u64);
        let mut rest = enc_i64s_exec(xs, j + 1);
        out.append(&mut rest);
        proof {
            let s = xs@.skip(j as int);
            assert(s[0] == xs@[j as int]);
            assert(s.drop_first() =~= xs@.skip(j as int + 1));
        }
        out
    }
}

/// Parses the canonical sequence encoding, or reports that the bytes are
/// not one.
pub fn parse_i64_vec(b: &Vec<u8>) -> (r: Option<Vec<i64>>)
    ensures
        r is Some <==> parse_i64_seq(b@) is Some,
        r is Some ==> r.unwrap()@ == parse_i64_seq(b@).unwrap(),
{
    if b.len() < 8 {
        return None;
    }
    let count = read_u64_at(b, 0);
    let body_len = b.len() - 8;
    if body_len % 8 != 0 || (body_len / 8) as u64 != count {
        proof {
            if parse_i64_seq(b@) is Some {
                assert(b@.len() == 8 + 8 * (count as int));
            }
        }
        return None;
    }
    let out = dec_i64s_exec(b, 8);
    proof {
        assert(b@.len() == 8 + 8 * (count as int));
    }
    Some(out)
}

fn dec_i64s_exec(b: &Vec<u8>, pos: usize) -> (out: Vec<i64>)
    requires
        pos <= b@.len(),
    ensures
        out@ == dec_i64s(b@.skip(pos as int)),
    decreases b@.len() - pos,
{
    let n = b.len();
    if n - pos < 8 {
        let out: Vec<i64> = Vec::new();
        out
    } else {
        let v = read_u64_at(b, pos);
        let mut out: Vec<i64> = Vec::new();
        out.push(v as i64);
        let mut rest = dec_i64s_exec(b, pos + 8);
        out.append(&mut rest);
        proof {
            let s = b@.skip(pos as int);
            assert(s.subrange(0, 8) =~= b@.subrange(pos as int, pos as int + 8));
            assert(s.skip(8) =~= b@.skip(pos as int + 8));
            assert(out@ =~= dec_i64s(s));
        }
        out
    }
}

// ---------------------------------------------------------------------------
// Delta coding: the first element verbatim, then each adjacent difference,
// all as 8 little-endian bytes with two's-complement wrap-around.
// ---------------------------------------------------------------------------

/// Differences of adjacent elements, starting from the pair `(xs[0], xs[1])`.
pub open spec fn delta_tail(xs: Seq<i64>) -> Seq<u8>
    decreases xs.len(),
{
    if xs.len() <= 1 {
        Seq::empty()
    } else {
        spec_u64_to_le_bytes(u64_specs::wrapping_sub(xs[1] as u64, xs[0] as u64))
            + delta_tail(xs.drop_first())
    }
}

/// The delta encoding of an integer sequence.
pub open spec fn delta_enc_spec(xs: Seq<i64>) -> Seq<u8> {
    if xs.len() == 0 {
        Seq::empty()
    } else {
        spec_u64_to_le_bytes(xs[0] as u64) + delta_tail(xs)
    }
}

/// Running decode after the element whose value is `prev`.
pub open spec fn delta_dec_tail(prev: u64, b: Seq<u8>) -> Seq<i64>
    decreases b.len(),
{
    if b.len() < 8 {
        Seq::empty()
    } else {
        let v = u64_specs::wrapping_add(prev, spec_u64_from_le_bytes(b.subrange(0, 8)));
        seq![v as i64] + delta_dec_tail(v, b.skip(8))
    }
}

/// The delta decoding of a byte sequence (meaningful when the length is a
/// multiple of 8).
pub open spec fn delta_dec_spec(b: Seq<u8>) -> Seq<i64> {
    if b.len() < 8 {
        Seq::empty()
    } else {
        let v0 = spec_u64_from_le_bytes(b.subrange(0, 8));
        seq![v0 as i64] + delta_dec_tail(v0, b.skip(8))
    }
}

pub proof fn lemma_delta_enc_len(xs: Seq<i64>)
    ensures
        delta_enc_spec(xs).len() == 8 * xs.len(),
    decreases xs.len(),
{
    lemma_auto_spec_u64_to_from_le_bytes();
    lemma_delta_tail_len(xs);
}

proof fn lemma_delta_tail_len(xs: Seq<i64>)
    ensures
        xs.len() >= 1 ==> delta_tail(xs).len() == 8 * (xs.len() - 1),
        xs.len() <= 1 ==> delta_tail(xs).len() == 0,
    decreases xs.len(),
{
    lemma_auto_spec_u64_to_from_le_bytes();
    if xs.len() > 1 {
        lemma_delta_tail_len(xs.drop_first());
    }
}

proof fn lemma_delta_tail_round(xs: Seq<i64>)
    requires
        xs.len() >= 1,
    ensures
        delta_dec_tail(xs[0] as u64, delta_tail(xs)) == xs.drop_first(),
    decreases xs.len(),
{
    lemma_auto_spec_u64_to_from_le_bytes();
    if xs.len() == 1 {
        assert(delta_dec_tail(xs[0] as u64, delta_tail(xs)) =~= xs.drop_first());
    } else {
        let d = u64_specs::wrapping_sub(xs[1] as u64, xs[0] as u64);
        let b = delta_tail(xs);
        assert(b.subrange(0, 8) =~= spec_u64_to_le_bytes(d));
        assert(b.skip(8) =~= delta_tail(xs.drop_first()));
        assert(u64_specs::wrapping_add(xs[0] as u64, d) == xs[1] as u64);
        lemma_i64_u64_cast(xs[1]);
        lemma_delta_tail_round(xs.drop_first());
        assert(xs.drop_first().drop_first() =~= xs.drop_first().drop_first());
        assert(delta_dec_tail(xs[0] as u64, b) =~= xs.drop_first());
    }
}

/// Delta decoding inverts delta encoding on every integer sequence,
/// wrap-around differences included.
pub proof fn lemma_delta_round_trip(xs: Seq<i64>)
    ensures
        delta_dec_spec(delta_enc_spec(xs)) == xs,
{
    lemma_auto_spec_u64_to_from_le_bytes();
    if xs.len() == 0 {
        assert(delta_dec_spec(delta_enc_spec(xs)) =~= xs);
    } else {
        let b = delta_enc_spec(xs);
        lemma_delta_tail_len(xs);
        assert(b.subrange(0, 8) =~= spec_u64_to_le_bytes(xs[0] as u64));
        assert(b.skip(8) =~= delta_tail(xs));
        lemma_i64_u64_cast(xs[0]);
        lemma_delta_tail_round(xs);
        assert(delta_dec_spec(b) =~= xs);
    }
}

/// Delta-encodes a sequence: the first element, then each adjacent
/// difference, two's-complement wrapped.
pub fn delta_encode(numbers: &Vec<i64>) -> (out: Vec<u8>)
    ensures
        out@ == delta_enc_spec(numbers@),
{
    if numbers.len() == 0 {
        let out: Vec<u8> = Vec::new();
        out
    } else {
        let mut out = u64_to_le_bytes(numbers[0] as u64);
        let mut rest = delta_tail_exec(numbers, 0);
        out.append(&mut rest);
        proof {
            assert(numbers@.skip(0) =~= numbers@);
        }
        out
    }
}

fn delta_tail_exec(xs: &Vec<i64>, j: usize) -> (out: Vec<u8>)
    requires
        j < xs@.len(),
    ensures
        out@ == delta_tail(xs@.skip(j as int)),
    decreases xs@.len() - j,
{
    let n = xs.len();
    if j + 1 >= n {
        let out: Vec<u8> = Vec::new();
        out
    } else {
        let d = (xs[j + 1] as u64).wrapping_sub(xs[j] as u64);
        let mut out = u64_to_le_bytes(d);
        let mut rest = delta_tail_exec(xs, j + 1);
        out.append(&mut rest);
        proof {
            let s = xs@.skip(j as int);
            assert(s[0] == xs@[j as int]);
            assert(s[1] == xs@[j as int + 1]);
            assert(s.drop_first() =~= xs@.skip(j as int + 1));
        }
        out
    }
}

/// Delta-decodes a byte sequence; the length must be a multiple of 8.
pub fn delta_decode(bytes: &Vec<u8>) -> (r: Result<Vec<i64>, StorageError>)
    ensures
        r is Ok <==> bytes@.len() % 8 == 0,
        r is Ok ==> r.unwrap()@ == delta_dec_spec(bytes@),
        r is Err ==> r.unwrap_err() == StorageError::Corruption,
{
    if bytes.len() % 8 != 0 {
        return Err(StorageError::Corruption);
    }
    if bytes.len() == 0 {
        let out: Vec<i64> = Vec::new();
        return Ok(out);
    }
    let v0 = read_u64_at(bytes, 0);
    let mut out: Vec<i64> = Vec::new();
    out.push(v0 as i64);
    let mut rest = delta_dec_tail_exec(bytes, 8, v0);
    out.append(&mut rest);
    proof {
        assert(out@ =~= delta_dec_spec(bytes@));
    }
    Ok(out)
}

// ---------------------------------------------------------------------------
// Calls into the outside crates: checksum, general compressor, image
// re-encoder.
// ---------------------------------------------------------------------------

/// The XXH3-64 digest of a byte sequence. It is a pure function of the
/// bytes alone (the seedless variant), named here so contracts can relate a
/// stored checksum to the payload it was computed over.
pub uninterp spec fn xxh3_of(b: Seq<u8>) -> u64;

/// Relies on xxhash_rust::xxh3::xxh3_64: the seedless XXH3-64 digest of the
/// input bytes, a deterministic function of those bytes.
#[verifier::external_body]
pub fn xxh3_checksum(b: &Vec<u8>) -> (r: u64)
    ensures
        r == xxh3_of(b@),
{
    xxhash_rust::xxh3::xxh3_64(b.as_slice())
}

/// What zstd's decompressor returns on a byte sequence: the decompressed
/// bytes, or nothing where the input is not a well-formed frame. It is a
/// deterministic function of the input bytes.
pub uninterp spec fn zstd_inv(b: Seq<u8>) -> Option<Seq<u8>>;

/// What zstd's compressor at level 21 returns on a byte sequence: the
/// compressed frame, or nothing where the encoder reports an error. For a
/// fixed library build it is a deterministic function of the input bytes.
pub uninterp spec fn zstd_enc_of(b: Seq<u8>) -> Option<Seq<u8>>;

/// Relies on zstd::encode_all at level 21, whose result [`zstd_enc_of`]
/// names; zstd is lossless, so decoding the frame it produces (see
/// [`zstd_inv`]) gives the input back.
#[verifier::external_body]
fn zstd_compress(b: &Vec<u8>) -> (r: Option<Vec<u8>>)
    ensures
        r is Some <==> zstd_enc_of(b@) is Some,
        r is Some ==> r.unwrap()@ == zstd_enc_of(b@).unwrap(),
        r is Some ==> zstd_inv(r.unwrap()@) == Some(b@),
{
    zstd::encode_all(b.as_slice(), 21).ok()
}

/// Relies on zstd::decode_all, whose result [`zstd_inv`] names: it returns
/// the decompressed bytes exactly when the input is a well-formed frame.
#[verifier::external_body]
fn zstd_decompress(b: &Vec<u8>) -> (r: Option<Vec<u8>>)
    ensures
        r is Some <==> zstd_inv(b@) is Some,
        r is Some ==> r.unwrap()@ == zstd_inv(b@).unwrap(),
{
    zstd::decode_all(b.as_slice()).ok()
}

/// What re-encoding a byte sequence as lossless WebP yields: the WebP bytes
/// where the input decodes as an image and the encoder succeeds, nothing
/// otherwise. Decoding and encoding are both deterministic in the bytes
/// alone, so the outcome is a function of the input.
pub uninterp spec fn webp_reencode_of(b: Seq<u8>) -> Option<Seq<u8>>;

/// Relies on image::load_from_memory followed by
/// image::DynamicImage::write_to with the WebP format; the composite's
/// result is named by [`webp_reencode_of`] (the intermediate decoded image
/// is no plain value, so the two calls are named as one).
#[verifier::external_body]
fn reencode_webp(b: &Vec<u8>) -> (r: Option<Vec<u8>>)
    ensures
        r is Some <==> webp_reencode_of(b@) is Some,
        r is Some ==> r.unwrap()@ == webp_reencode_of(b@).unwrap(),
{
    let img = image::load_from_memory(b.as_slice()).ok()?;
    let mut out = std::io::Cursor::new(Vec::new());
    match img.write_to(&mut out, image::ImageFormat::WebP) {
        Ok(()) => Some(out.into_inner()),
        Err(_) => None,
    }
}

// ---------------------------------------------------------------------------
// The per-type compression policy and its inverse.
// ---------------------------------------------------------------------------

/// What a stored payload decodes to under a method; `retrieve` returns the
/// concatenation of these over a chain.
pub open spec fn decode_payload(m: CompressionMethod, p: Seq<u8>) -> Option<Seq<u8>> {
    match m {
        CompressionMethod::NoCompression => Some(p),
        CompressionMethod::Zstd => zstd_inv(p),
        CompressionMethod::DeltaEncoding => if p.len() % 8 == 0 {
            Some(enc_i64_seq(delta_dec_spec(p)))
        } else {
            None
        },
    }
}

/// The general-compressor policy: the zstd frame, or the chunk verbatim
/// where the encoder fails.
pub open spec fn spec_zstd_or_raw(chunk: Seq<u8>) -> (Seq<u8>, CompressionMethod) {
    match zstd_enc_of(chunk) {
        Some(z) => (z, CompressionMethod::Zstd),
        None => (chunk, CompressionMethod::NoCompression),
    }
}

/// The whole per-type compression policy: what payload and method a raw
/// chunk is stored with.
pub open spec fn spec_compress(chunk: Seq<u8>, data_type: DataType) -> (Seq<u8>, CompressionMethod) {
    if chunk.len() < MIN_COMPRESS_SIZE {
        (chunk, CompressionMethod::NoCompression)
    } else {
        match data_type {
            DataType::Image => match webp_reencode_of(chunk) {
                Some(w) => (w, CompressionMethod::NoCompression),
                None => spec_zstd_or_raw(chunk),
            },
            DataType::Structured => match parse_i64_seq(chunk) {
                Some(xs) => (delta_enc_spec(xs), CompressionMethod::DeltaEncoding),
                None => spec_zstd_or_raw(chunk),
            },
            _ => spec_zstd_or_raw(chunk),
        }
    }
}

/// Compresses one raw chunk exactly as [`spec_compress`] says: chunks under
/// the threshold are stored raw; Text, Json and Binary go through the
/// general compressor; Structured chunks that parse as a canonical integer
/// sequence are delta-encoded; Image chunks that decode are re-encoded as
/// WebP and stored with no compression marker; every failure degrades to
/// storing the chunk raw or zstd-compressed.
pub fn compress_data(chunk: &Vec<u8>, data_type: DataType) -> (r: (Vec<u8>, CompressionMethod))
    ensures
        r.0@ == spec_compress(chunk@, data_type).0,
        r.1 == spec_compress(chunk@, data_type).1,
        decode_payload(r.1, r.0@) is Some,
        data_type != DataType::Image ==> decode_payload(r.1, r.0@) == Some(chunk@),
        chunk@.len() < MIN_COMPRESS_SIZE ==> r.1 == CompressionMethod::NoCompression && r.0@
            == chunk@,
{
    if chunk.len() < MIN_COMPRESS_SIZE {
        return (slice_to_vec(chunk.as_slice()), CompressionMethod::NoCompression);
    }
    match data_type {
        DataType::Image => {
            match reencode_webp(chunk) {
                Some(encoded) => (encoded, CompressionMethod::NoCompression),
                None => zstd_or_raw(chunk),
            }
        },
        DataType::Structured => {
            match parse_i64_vec(chunk) {
                Some(numbers) => {
                    let encoded = delta_encode(&numbers);
                    proof {
                        lemma_delta_enc_len(numbers@);
                        lemma_delta_round_trip(numbers@);
                        lemma_enc_parse_i64_seq(chunk@);
                    }
                    (encoded, CompressionMethod::DeltaEncoding)
                },
                None => zstd_or_raw(chunk),
            }
        },
        _ => zstd_or_raw(chunk),
    }
}

/// The general-compressor path: zstd, degrading to a raw copy when the
/// compressor reports an error.
fn zstd_or_raw(chunk: &Vec<u8>) -> (r: (Vec<u8>, CompressionMethod))
    ensures
        r.0@ == spec_zstd_or_raw(chunk@).0,
        r.1 == spec_zstd_or_raw(chunk@).1,
        decode_payload(r.1, r.0@) == Some(chunk@),
{
    match zstd_compress(chunk) {
        Some(compressed) => (compressed, CompressionMethod::Zstd),
        None => (slice_to_vec(chunk.as_slice()), CompressionMethod::NoCompression),
    }
}

/// Inverts the stored form of one payload: a raw payload is the chunk, a
/// zstd frame is decompressed, a delta payload is decoded and re-encoded
/// canonically. A failure is a corruption of the container.
pub fn decompress_data(payload: &Vec<u8>, method: CompressionMethod) -> (r: Result<
    Vec<u8>,
    StorageError,
>)
    ensures
        r is Ok <==> decode_payload(method, payload@) is Some,
        r is Ok ==> r.unwrap()@ == decode_payload(method, payload@).unwrap(),
        r is Err ==> r.unwrap_err() == StorageError::Corruption,
{
    match method {
        CompressionMethod::NoCompression => Ok(slice_to_vec(payload.as_slice())),
        CompressionMethod::Zstd => {
            match zstd_decompress(payload) {
                Some(out) => Ok(out),
                None => Err(StorageError::Corruption),
            }
        },
        CompressionMethod::DeltaEncoding => {
            match delta_decode(payload) {
                Ok(numbers) => Ok(encode_i64_seq(&numbers)),
                Err(_) => Err(StorageError::Corruption),
            }
        },
    }
}

fn delta_dec_tail_exec(b: &Vec<u8>, pos: usize, prev: u64) -> (out: Vec<i64>)
    requires
        pos <= b@.len(),
    ensures
        out@ == delta_dec_tail(prev, b@.skip(pos as int)),
    decreases b@.len() - pos,
{
    let n = b.len();
    if n - pos < 8 {
        let out: Vec<i64> = Vec::new();
        out
    } else {
        let d = read_u64_at(b, pos);
        let v = prev.wrapping_add(d);
        let mut out: Vec<i64> = Vec::new();
        out.push(v as i64);
        let mut rest = delta_dec_tail_exec(b, pos + 8, v);
        out.append(&mut rest);
        proof {
            let s = b@.skip(pos as int);
            assert(s.subrange(0, 8) =~= b@.subrange(pos as int, pos as int + 8));
            assert(s.skip(8) =~= b@.skip(pos as int + 8));
            assert(out@ =~= delta_dec_tail(prev, s));
        }
        out
    }
}

} // verus!

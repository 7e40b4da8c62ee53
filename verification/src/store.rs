//! The store façade: one container byte image, its metadata mirror, and the
//! create / open / store / retrieve operations over them.
use vstd::prelude::*;
use vstd::bytes::{spec_u64_from_le_bytes, spec_u64_to_le_bytes};
use vstd::map::*;
use vstd::slice::{slice_subrange, slice_to_vec};
use vstd::string::{StrSliceExecFns, StringSliceAdditionalSpecFns};
use vstd::utf8::{encode_utf8, encode_utf8_decode_utf8};
use crate::block::{
    chain_blocks_for, chain_data, chunk_count, lemma_chain_blocks_frame, lemma_chain_frame,
    lemma_chunk_count_bounds, now_timestamp, parse_block_at, read_block_at, read_chain,
    stored_chunks_decode, write_chain, BlockLocation,
};
use crate::codec::{CompressionMethod, DataType, StorageError, MIN_COMPRESS_SIZE};
use crate::meta::{
    clone_index, decode_meta, enc_entries, encode_meta, entries_wf, index_abs, index_lookup,
    index_map, index_put, index_put_abs, lemma_enc_meta_len, lemma_index_put_map,
    lemma_parse_enc_meta, lemma_put_len_loc_indep, meta_abs, parse_meta, MetaAbs, MetaData,
};
use crate::wire::{push_u64, read_u64_at};

verus! {

/// The metadata region is reserved at creation with this many bytes and is
/// rewritten in place; a store whose index would outgrow it fails with
/// [`StorageError::MetadataOverflow`].
pub const META_CAPACITY: usize = 4096;

/// A single-file key-value store held as an in-memory container image.
/// Callers persist and reload the image bytes as a whole.
pub struct UniversalStorage {
    file: Vec<u8>,
    metadata: MetaData,
}

/// The location a fresh index binding is measured with; serialized
/// locations have one fixed width, so any value serves.
pub open spec fn dummy_loc() -> BlockLocation {
    BlockLocation { offset: 0, header_size: 0, data_size: 0 }
}

impl UniversalStorage {
    /// The container image.
    pub closed spec fn spec_bytes(self) -> Seq<u8> {
        self.file@
    }

    /// The metadata record the store mirrors in memory.
    pub closed spec fn spec_meta(self) -> MetaAbs {
        meta_abs(self.metadata)
    }

    pub open spec fn spec_total_blocks(self) -> u64 {
        self.spec_meta().total_blocks
    }

    /// The reserved metadata region length, read from bytes 5..13.
    pub open spec fn spec_meta_cap(self) -> int {
        spec_u64_from_le_bytes(self.spec_bytes().subrange(5, 13)) as int
    }

    /// Where the block stream begins: right after the reserved region.
    pub open spec fn spec_data_lo(self) -> int {
        13 + self.spec_meta_cap()
    }

    /// The key-to-head-block mapping of the index.
    pub open spec fn index(self) -> Map<Seq<u8>, BlockLocation> {
        index_map(self.spec_meta().index)
    }

    /// The container image is well formed: magic and version bytes, a
    /// reserved region that fits the file, and a region whose record is the
    /// in-memory metadata.
    pub open spec fn basic_wf(self) -> bool {
        let b = self.spec_bytes();
        &&& b.len() >= self.spec_data_lo()
        &&& b[0] == 85 && b[1] == 83 && b[2] == 70 && b[3] == 49
        &&& b[4] == 1
        &&& parse_meta(b.subrange(13, self.spec_data_lo())) == Some(self.spec_meta())
    }

    /// Well formed, and every indexed chain reconstructs.
    pub open spec fn good(self) -> bool {
        &&& self.basic_wf()
        &&& forall|k: Seq<u8>|
            #[trigger] self.index().contains_key(k) ==> chain_data(
                self.spec_bytes(),
                self.index()[k],
                self.spec_data_lo(),
            ) is Some
    }

    /// What the store holds: each indexed key's reconstructed payload.
    pub open spec fn contents(self) -> Map<Seq<u8>, Seq<u8>> {
        Map::new(
            |k: Seq<u8>| self.index().contains_key(k),
            |k: Seq<u8>|
                chain_data(self.spec_bytes(), self.index()[k], self.spec_data_lo()).unwrap(),
        )
    }

    /// Whether a store under `key_bytes` fits the reserved metadata region
    /// (the bound does not depend on where the new chain lands).
    pub open spec fn store_fits(self, key_bytes: Seq<u8>, writes_index: bool) -> bool {
        let es = if writes_index {
            index_put_abs(self.spec_meta().index, key_bytes, dummy_loc())
        } else {
            self.spec_meta().index
        };
        40 + enc_entries(es).len() <= self.spec_meta_cap()
    }

    /// Creates an empty container: magic, version, reserved-length field,
    /// and an empty metadata record padded to the reserved region.
    pub fn create() -> (r: Self)
        ensures
            r.good(),
            r.basic_wf(),
            r.contents() == Map::<Seq<u8>, Seq<u8>>::empty(),
            r.spec_total_blocks() == 0,
            r.spec_meta_cap() == META_CAPACITY as int,
            r.spec_meta().index == Seq::<(Seq<u8>, BlockLocation)>::empty(),
            r.spec_bytes().len() > 13,
            r.spec_bytes()[0] == 85 && r.spec_bytes()[1] == 83 && r.spec_bytes()[2] == 70
                && r.spec_bytes()[3] == 49 && r.spec_bytes()[4] == 1,
    {
        let now = now_timestamp();
        let index: Vec<(Vec<u8>, BlockLocation)> = Vec::new();
        let metadata = MetaData { created: now, modified: now, total_blocks: 0, index };
        let mut file: Vec<u8> = Vec::new();
        file.push(85);
        file.push(83);
        file.push(70);
        file.push(49);
        file.push(1);
        push_u64(&mut file, META_CAPACITY as u64);
        let mut enc = encode_meta(&metadata);
        let ghost enc_view = enc@;
        proof {
            vstd::bytes::lemma_auto_spec_u64_to_from_le_bytes();
            lemma_enc_meta_len(meta_abs(metadata));
            assert(index_abs(metadata.index@).len() == 0);
            assert(enc_entries(index_abs(metadata.index@)).len() == 0);
            assert(enc_view.len() == 40);
            assert(file@.len() == 13);
        }
        file.append(&mut enc);
        let ghost base = file@;
        proof {
            assert(base.len() == 53);
            assert(file@.subrange(0, base.len() as int) =~= base);
        }
        while file.len() < 13 + META_CAPACITY
            invariant
                base.len() == 53,
                base.len() <= file@.len() <= 13 + META_CAPACITY,
                file@.subrange(0, base.len() as int) == base,
            decreases 13 + META_CAPACITY - file@.len(),
        {
            file.push(0);
            proof {
                assert(file@.subrange(0, base.len() as int) =~= base);
            }
        }
        let s = UniversalStorage { file, metadata };
        proof {
            let b = s.spec_bytes();
            assert(b.len() == 13 + META_CAPACITY);
            assert forall|i: int| 0 <= i < 53 implies b[i] == base[i] by {
                assert(b.subrange(0, 53)[i] == base[i]);
            }
            assert(b.subrange(5, 13) =~= spec_u64_to_le_bytes(META_CAPACITY as u64));
            vstd::bytes::lemma_auto_spec_u64_to_from_le_bytes();
            assert(s.spec_meta_cap() == META_CAPACITY);
            let region = b.subrange(13, s.spec_data_lo());
            assert(region.subrange(0, 40) =~= enc_view);
            lemma_parse_enc_meta(meta_abs(metadata), region);
            assert(index_map(s.spec_meta().index) =~= Map::<Seq<u8>, BlockLocation>::empty());
            assert_maps_equal!(s.contents(), Map::<Seq<u8>, Seq<u8>>::empty());
        }
        s
    }

    /// Opens a container image: verifies magic and version, reads the
    /// reserved length, and deserializes the metadata record.
    pub fn open(bytes: Vec<u8>) -> (r: Result<Self, StorageError>)
        ensures
            r is Ok <==> spec_open_ok(bytes@),
            r is Ok ==> r.unwrap().basic_wf() && r.unwrap().spec_bytes() == bytes@,
            r is Err ==> r->Err_0 == spec_open_err(bytes@),
    {
        let n = bytes.len();
        if n < 4 {
            return Err(StorageError::Corruption);
        }
        if !(bytes[0] == 85 && bytes[1] == 83 && bytes[2] == 70 && bytes[3] == 49) {
            return Err(StorageError::InvalidFormat);
        }
        if n < 5 {
            return Err(StorageError::Corruption);
        }
        if bytes[4] != 1 {
            return Err(StorageError::UnsupportedVersion);
        }
        if n < 13 {
            return Err(StorageError::Corruption);
        }
        let cap64 = read_u64_at(&bytes, 5);
        if cap64 > (n - 13) as u64 {
            return Err(StorageError::Corruption);
        }
        let cap = cap64 as usize;
        let region = slice_to_vec(slice_subrange(bytes.as_slice(), 13, 13 + cap));
        let metadata = match decode_meta(&region) {
            Some(m) => m,
            None => {
                return Err(StorageError::CorruptMetadata);
            },
        };
        let s = UniversalStorage { file: bytes, metadata };
        Ok(s)
    }

    /// Chunks, compresses, checksums and appends `data` as a tail-first
    /// chain, then binds `key` to the head block and rewrites the metadata
    /// region; empty data writes no blocks but still refreshes the
    /// modification instant. Fails only where the new metadata record would
    /// outgrow the reserved region, leaving the index untouched (any blocks
    /// already appended stay orphaned).
    pub fn store(&mut self, key: &str, data: &[u8], data_type: DataType) -> (r: Result<
        (),
        StorageError,
    >)
        requires
            old(self).basic_wf(),
            old(self).spec_total_blocks() + data@.len() <= u64::MAX,
        ensures
            final(self).basic_wf(),
            old(self).good() ==> final(self).good(),
            r is Ok <==> old(self).store_fits(key.spec_bytes(), data@.len() > 0),
            r is Err ==> r.unwrap_err() == StorageError::MetadataOverflow,
            r is Err ==> final(self).spec_meta() == old(self).spec_meta(),
            old(self).good() && r is Err ==> final(self).contents() == old(self).contents(),
            old(self).good() && r is Ok && data@.len() == 0 ==> final(self).contents() == old(
                self,
            ).contents(),
            old(self).good() && r is Ok && data@.len() > 0 ==> final(self).contents() == old(
                self,
            ).contents().insert(key.spec_bytes(), stored_chunks_decode(data@, 0, data_type)),
            data@.len() > 0 ==> ((data_type != DataType::Image || data@.len()
                < MIN_COMPRESS_SIZE) ==> stored_chunks_decode(data@, 0, data_type) == data@),
            r is Ok && data@.len() > 0 ==> final(self).index().contains_key(key.spec_bytes())
                && chain_blocks_for(
                final(self).spec_bytes(),
                final(self).index()[key.spec_bytes()],
                old(self).spec_data_lo(),
                data_type,
                data@,
                0,
            ),
            r is Ok && data@.len() > 0 ==> final(self).spec_total_blocks() == old(
                self,
            ).spec_total_blocks() + chunk_count(data@.len() as int),
            r is Ok && data@.len() == 0 ==> final(self).spec_total_blocks() == old(
                self,
            ).spec_total_blocks(),
            final(self).spec_meta().created == old(self).spec_meta().created,
            final(self).spec_meta_cap() == old(self).spec_meta_cap(),
            final(self).spec_bytes().len() >= old(self).spec_bytes().len(),
            forall|i: int|
                old(self).spec_data_lo() <= i < old(self).spec_bytes().len()
                    ==> final(self).spec_bytes()[i] == old(self).spec_bytes()[i],
    {
        let ghost pre = *old(self);
        let flen = self.file.len();
        let cap64 = read_u64_at(&self.file, 5);
        proof {
            assert(cap64 as int == pre.spec_meta_cap());
            assert(13 + cap64 as int <= flen as int);
        }
        let cap = cap64 as usize;
        proof {
            assert(cap as int == pre.spec_meta_cap());
        }
        let ghost lo = pre.spec_data_lo();
        let n = data.len();
        let (head, count) = if n > 0 {
            let (l, c) = write_chain(&mut self.file, data, 0, data_type, Ghost(lo));
            proof {
                lemma_chunk_count_bounds(data@.len() as int);
            }
            (Some(l), c)
        } else {
            (None, 0u64)
        };
        let ghost mid_file = self.file@;
        let key_bytes = key.as_bytes_vec();
        let ghost kb = key_bytes@;
        let mut new_index = clone_index(&self.metadata.index);
        match head {
            Some(l) => {
                index_put(&mut new_index, key_bytes, l);
                proof {
                    lemma_index_put_map(pre.spec_meta().index, kb, l);
                }
            },
            None => {},
        }
        let now = now_timestamp();
        let candidate = MetaData {
            created: self.metadata.created,
            modified: now,
            total_blocks: self.metadata.total_blocks + count,
            index: new_index,
        };
        let enc = encode_meta(&candidate);
        proof {
            lemma_enc_meta_len(meta_abs(candidate));
            if n > 0 {
                lemma_put_len_loc_indep(pre.spec_meta().index, kb, head.unwrap(), dummy_loc());
            }
            // the file so far: appended blocks only, prefix intact
            assert(self.file@.subrange(0, 13) =~= pre.spec_bytes().subrange(0, 13));
            assert(self.file@.subrange(5, 13) =~= pre.spec_bytes().subrange(5, 13));
            assert(self.file@.subrange(13, lo) =~= pre.spec_bytes().subrange(13, lo));
        }
        if enc.len() > cap {
            proof {
                lemma_store_frame(pre, *self, lo);
            }
            return Err(StorageError::MetadataOverflow);
        }
        self.metadata = candidate;
        write_region(&mut self.file, &enc);
        proof {
            let fin = *self;
            let b = fin.spec_bytes();
            assert(b.len() == mid_file.len());
            assert forall|i: int| 0 <= i < 13 implies b[i] == pre.spec_bytes()[i] by {
                assert(b[i] == mid_file[i]);
                assert(mid_file.subrange(0, 13)[i] == pre.spec_bytes().subrange(0, 13)[i]);
            }
            assert(b.subrange(5, 13) =~= pre.spec_bytes().subrange(5, 13));
            assert(fin.spec_meta_cap() == pre.spec_meta_cap());
            // the rewritten region parses as the candidate record
            let region = b.subrange(13, fin.spec_data_lo());
            assert forall|i: int| 0 <= i < enc@.len() implies region[i] == enc@[i] by {
                assert(b.subrange(13, 13 + enc@.len() as int)[i] == enc@[i]);
            }
            assert(region.subrange(0, enc@.len() as int) =~= enc@);
            lemma_meta_data_wf(&candidate);
            lemma_parse_enc_meta(meta_abs(candidate), region);
            // bytes at or past the block stream are those written before the rewrite
            assert forall|i: int| lo <= i < mid_file.len() implies b[i] == mid_file[i] by {
                assert(13 + enc@.len() <= lo);
            }
            if n > 0 {
                let head_loc = head.unwrap();
                lemma_chain_frame(mid_file, b, head_loc, lo);
                lemma_chain_blocks_frame(mid_file, b, head_loc, lo, data_type, data@, 0);
                assert(data@.subrange(0, data@.len() as int) =~= data@);
                assert(fin.index() =~= pre.index().insert(kb, head_loc));
            } else {
                assert(fin.index() =~= pre.index());
            }
            if pre.good() {
                assert forall|k: Seq<u8>|
                    #[trigger] pre.index().contains_key(k) implies chain_data(b, pre.index()[k], lo)
                    == chain_data(pre.spec_bytes(), pre.index()[k], lo) by {
                    lemma_chain_frame(pre.spec_bytes(), b, pre.index()[k], lo);
                }
                if n > 0 {
                    let head_loc = head.unwrap();
                    let d = stored_chunks_decode(data@, 0, data_type);
                    assert_maps_equal!(fin.contents(), pre.contents().insert(kb, d));
                } else {
                    assert_maps_equal!(fin.contents(), pre.contents());
                }
            }
        }
        Ok(())
    }

    /// Returns the payload stored under `key`: the concatenation of the
    /// decoded chunks along its chain, succeeding exactly where that chain
    /// parses, passes its checksums and decodes. A key absent from the index
    /// is [`StorageError::NotFound`]; an indexed chain that fails any of
    /// those checks -- a tampered payload among them -- is
    /// [`StorageError::Corruption`], never silently wrong bytes.
    pub fn retrieve(&mut self, key: &str) -> (r: Result<Vec<u8>, StorageError>)
        requires
            old(self).basic_wf(),
        ensures
            *final(self) == *old(self),
            r is Ok <==> old(self).index().contains_key(key.spec_bytes()) && chain_data(
                old(self).spec_bytes(),
                old(self).index()[key.spec_bytes()],
                old(self).spec_data_lo(),
            ) is Some,
            r is Ok ==> r.unwrap()@ == chain_data(
                old(self).spec_bytes(),
                old(self).index()[key.spec_bytes()],
                old(self).spec_data_lo(),
            ).unwrap(),
            r is Err ==> r->Err_0 == (if old(self).index().contains_key(key.spec_bytes()) {
                StorageError::Corruption
            } else {
                StorageError::NotFound
            }),
            old(self).good() ==> {
                &&& (r is Ok <==> old(self).contents().contains_key(key.spec_bytes()))
                &&& (r is Ok ==> r.unwrap()@ == old(self).contents()[key.spec_bytes()])
                &&& (r is Err ==> r.unwrap_err() == StorageError::NotFound)
            },
    {
        let key_bytes = key.as_bytes_vec();
        let loc = match index_lookup(&self.metadata.index, &key_bytes) {
            Some(loc) => loc,
            None => {
                return Err(StorageError::NotFound);
            },
        };
        let flen = self.file.len();
        let cap64 = read_u64_at(&self.file, 5);
        proof {
            assert(cap64 as int == old(self).spec_meta_cap());
            assert(13 + cap64 as int <= flen as int);
        }
        let lo = 13u64 + cap64;
        read_chain(&self.file, loc, lo)
    }

    /// The container image, for persisting as one file.
    pub fn container_bytes(&self) -> (r: &Vec<u8>)
        ensures
            r@ == self.spec_bytes(),
    {
        &self.file
    }

    /// The count of blocks ever appended.
    pub fn total_blocks(&self) -> (r: u64)
        ensures
            r == self.spec_total_blocks(),
    {
        self.metadata.total_blocks
    }

    /// The compression method recorded in the head block of `key`'s chain,
    /// where the key is indexed and its head block parses.
    pub fn head_block_method(&self, key: &str) -> (r: Option<CompressionMethod>)
        ensures
            r is Some <==> self.index().contains_key(key.spec_bytes()) && parse_block_at(
                self.spec_bytes(),
                self.index()[key.spec_bytes()].offset as int,
            ) is Some,
            r is Some ==> r.unwrap() == parse_block_at(
                self.spec_bytes(),
                self.index()[key.spec_bytes()].offset as int,
            ).unwrap().0.compression_method,
    {
        let key_bytes = key.as_bytes_vec();
        let loc = match index_lookup(&self.metadata.index, &key_bytes) {
            Some(loc) => loc,
            None => {
                return None;
            },
        };
        match read_block_at(&self.file, loc.offset) {
            Ok((h, _)) => Some(h.compression_method),
            Err(_) => None,
        }
    }
}

/// The inputs `open` accepts.
pub open spec fn spec_open_ok(b: Seq<u8>) -> bool {
    &&& b.len() >= 13
    &&& b[0] == 85 && b[1] == 83 && b[2] == 70 && b[3] == 49
    &&& b[4] == 1
    &&& 13 + spec_u64_from_le_bytes(b.subrange(5, 13)) as int <= b.len()
    &&& parse_meta(b.subrange(13, 13 + spec_u64_from_le_bytes(b.subrange(5, 13)) as int)) is Some
}

/// The error `open` reports on each rejected input.
pub open spec fn spec_open_err(b: Seq<u8>) -> StorageError {
    if b.len() < 4 {
        StorageError::Corruption
    } else if !(b[0] == 85 && b[1] == 83 && b[2] == 70 && b[3] == 49) {
        StorageError::InvalidFormat
    } else if b.len() < 5 {
        StorageError::Corruption
    } else if b[4] != 1 {
        StorageError::UnsupportedVersion
    } else if b.len() < 13 || 13 + spec_u64_from_le_bytes(b.subrange(5, 13)) as int > b.len() {
        StorageError::Corruption
    } else {
        StorageError::CorruptMetadata
    }
}

/// Every key and count a real metadata record holds fits its length prefix.
proof fn lemma_meta_data_wf(m: &MetaData)
    ensures
        entries_wf(meta_abs(*m).index),
{
    let es = index_abs(m.index@);
    assert(m.index.len() == m.index@.len());
    assert(es.len() <= u64::MAX);
    assert forall|i: int| 0 <= i < es.len() implies (#[trigger] es[i].0).len() <= u64::MAX by {
        let v = m.index@[i].0;
        assert(v.len() == v@.len());
        assert(v@.len() <= usize::MAX);
    }
}

/// After appends alone, a well-formed store stays well formed and keeps its
/// contents.
proof fn lemma_store_frame(pre: UniversalStorage, cur: UniversalStorage, lo: int)
    requires
        pre.basic_wf(),
        lo == pre.spec_data_lo(),
        cur.spec_meta() == pre.spec_meta(),
        pre.spec_bytes().len() <= cur.spec_bytes().len(),
        forall|i: int|
            0 <= i < pre.spec_bytes().len() ==> cur.spec_bytes()[i] == pre.spec_bytes()[i],
    ensures
        cur.basic_wf(),
        cur.spec_meta_cap() == pre.spec_meta_cap(),
        pre.good() ==> cur.good() && cur.contents() == pre.contents(),
{
    let b1 = pre.spec_bytes();
    let b2 = cur.spec_bytes();
    assert(b2.subrange(5, 13) =~= b1.subrange(5, 13));
    assert(b2.subrange(13, 13 + pre.spec_meta_cap()) =~= b1.subrange(13, 13 + pre.spec_meta_cap()));
    if pre.good() {
        assert forall|k: Seq<u8>| #[trigger] pre.index().contains_key(k) implies chain_data(
            b2,
            pre.index()[k],
            lo,
        ) == chain_data(b1, pre.index()[k], lo) by {
            lemma_chain_frame(b1, b2, pre.index()[k], lo);
        }
        assert_maps_equal!(cur.contents(), pre.contents());
    }
}

/// Writes `src` over the front of the metadata region, leaving the prefix,
/// the rest of the region, and the block stream untouched.
fn write_region(file: &mut Vec<u8>, src: &Vec<u8>)
    requires
        13 + src@.len() <= old(file)@.len(),
    ensures
        final(file)@.len() == old(file)@.len(),
        forall|i: int| 0 <= i < 13 ==> final(file)@[i] == old(file)@[i],
        forall|i: int|
            13 + src@.len() <= i < final(file)@.len() ==> final(file)@[i] == old(file)@[i],
        final(file)@.subrange(13, 13 + src@.len() as int) == src@,
{
    let m = src.len();
    let total = file.len();
    let mut j: usize = 0;
    while j < m
        invariant
            m == src@.len(),
            13 + m <= total,
            total == file@.len(),
            file@.len() == old(file)@.len(),
            j <= m,
            forall|i: int| 0 <= i < 13 ==> file@[i] == old(file)@[i],
            forall|i: int| 13 + m <= i < file@.len() ==> file@[i] == old(file)@[i],
            forall|i: int| 0 <= i < j ==> file@[13 + i] == src@[i],
        decreases m - j,
    {
        file[13 + j] = src[j];
        j += 1;
    }
    proof {
        assert(file@.subrange(13, 13 + src@.len() as int) =~= src@);
    }
}

// ---------------------------------------------------------------------------
// Laws relating the operations through the spec maps their contracts use.
// ---------------------------------------------------------------------------

/// Round trip: retrieving a key right after storing a payload under it
/// yields that payload; `store`'s contract ends in the insertion and
/// `retrieve`'s in the lookup.
pub proof fn lemma_store_then_retrieve(m: Map<Seq<u8>, Seq<u8>>, k: Seq<u8>, v: Seq<u8>)
    ensures
        m.insert(k, v)[k] == v,
        m.insert(k, v).contains_key(k),
{
}

/// Multi-key independence: storing two distinct keys leaves each
/// retrievable with its own payload, in either order.
pub proof fn lemma_multi_key_independence(
    m: Map<Seq<u8>, Seq<u8>>,
    k1: Seq<u8>,
    v1: Seq<u8>,
    k2: Seq<u8>,
    v2: Seq<u8>,
)
    requires
        k1 != k2,
    ensures
        m.insert(k1, v1).insert(k2, v2)[k1] == v1,
        m.insert(k1, v1).insert(k2, v2)[k2] == v2,
{
}

/// Overwrite: the second store under one key wins.
pub proof fn lemma_overwrite(m: Map<Seq<u8>, Seq<u8>>, k: Seq<u8>, a: Seq<u8>, b: Seq<u8>)
    ensures
        m.insert(k, a).insert(k, b)[k] == b,
{
}

/// Distinct string keys have distinct UTF-8 encodings, so they never share
/// an index slot.
pub proof fn lemma_distinct_keys(s1: Seq<char>, s2: Seq<char>)
    requires
        s1 != s2,
    ensures
        encode_utf8(s1) != encode_utf8(s2),
{
    encode_utf8_decode_utf8(s1);
    encode_utf8_decode_utf8(s2);
}

/// Persistence: reopening the byte image of a healthy store yields a store
/// with the same metadata and the same contents.
pub proof fn lemma_persistence(s1: UniversalStorage, s2: UniversalStorage)
    requires
        s1.good(),
        s2.basic_wf(),
        s2.spec_bytes() == s1.spec_bytes(),
    ensures
        s2.spec_meta() == s1.spec_meta(),
        s2.good(),
        s2.contents() == s1.contents(),
{
    assert(s2.spec_meta_cap() == s1.spec_meta_cap());
    assert(s2.spec_meta() == s1.spec_meta());
    assert_maps_equal!(s2.contents(), s1.contents());
}

/// Format: a well-formed container begins with the magic bytes `USF1` and
/// the version byte 1.
pub proof fn lemma_container_format(s: UniversalStorage)
    requires
        s.basic_wf(),
    ensures
        s.spec_bytes().len() > 13,
        s.spec_bytes()[0] == 0x55,
        s.spec_bytes()[1] == 0x53,
        s.spec_bytes()[2] == 0x46,
        s.spec_bytes()[3] == 0x31,
        s.spec_bytes()[4] == 0x01,
{
    assert(s.spec_meta_cap() >= 40) by {
        let region = s.spec_bytes().subrange(13, s.spec_data_lo());
        assert(parse_meta(region) is Some);
    }
}

} // verus!

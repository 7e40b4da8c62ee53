//! The metadata record: creation and modification instants, the count of
//! blocks ever appended, and the index from key bytes to the head block of
//! that key's chain.
use vstd::prelude::*;
use vstd::bytes::{
    spec_u32_from_le_bytes, spec_u32_to_le_bytes, spec_u64_from_le_bytes, spec_u64_to_le_bytes,
    lemma_auto_spec_u32_to_from_le_bytes, lemma_auto_spec_u64_to_from_le_bytes,
};
use vstd::map::*;
use vstd::slice::slice_to_vec;
use crate::block::{
    enc_loc, lemma_loc_round_trip, parse_loc, push_loc, read_loc_at, BlockLocation, Timestamp,
};
use crate::wire::{bytes_eq, lemma_i64_u64_cast, push_u32, push_u64, read_u32_at, read_u64_at};

verus! {

/// The in-memory mirror of the serialized metadata record. Keys are held
/// as their UTF-8 bytes.
pub struct MetaData {
    pub created: Timestamp,
    pub modified: Timestamp,
    pub total_blocks: u64,
    pub index: Vec<(Vec<u8>, BlockLocation)>,
}

/// The mathematical shape of a metadata record.
pub ghost struct MetaAbs {
    pub created: Timestamp,
    pub modified: Timestamp,
    pub total_blocks: u64,
    pub index: Seq<(Seq<u8>, BlockLocation)>,
}

pub open spec fn index_abs(idx: Seq<(Vec<u8>, BlockLocation)>) -> Seq<(Seq<u8>, BlockLocation)> {
    idx.map(|i: int, e: (Vec<u8>, BlockLocation)| (e.0@, e.1))
}

pub open spec fn meta_abs(m: MetaData) -> MetaAbs {
    MetaAbs {
        created: m.created,
        modified: m.modified,
        total_blocks: m.total_blocks,
        index: index_abs(m.index@),
    }
}

/// The key-to-head-location mapping an entry list denotes: the earliest
/// entry for a key wins.
pub open spec fn index_map(es: Seq<(Seq<u8>, BlockLocation)>) -> Map<Seq<u8>, BlockLocation>
    decreases es.len(),
{
    if es.len() == 0 {
        Map::empty()
    } else {
        index_map(es.drop_first()).insert(es[0].0, es[0].1)
    }
}

// ---------------------------------------------------------------------------
// Serialized form: created, modified (12 bytes each), total_blocks, entry
// count (8 bytes each), then each entry as a length-prefixed key followed by
// its 20-byte location.
// ---------------------------------------------------------------------------

pub open spec fn enc_ts(t: Timestamp) -> Seq<u8> {
    spec_u64_to_le_bytes(t.secs as u64) + spec_u32_to_le_bytes(t.nanos)
}

pub open spec fn parse_ts(s: Seq<u8>) -> Timestamp
    recommends
        s.len() == 12,
{
    Timestamp {
        secs: spec_u64_from_le_bytes(s.subrange(0, 8)) as i64,
        nanos: spec_u32_from_le_bytes(s.subrange(8, 12)),
    }
}

pub open spec fn enc_entry(e: (Seq<u8>, BlockLocation)) -> Seq<u8> {
    spec_u64_to_le_bytes(e.0.len() as u64) + e.0 + enc_loc(e.1)
}

pub open spec fn enc_entries(es: Seq<(Seq<u8>, BlockLocation)>) -> Seq<u8>
    decreases es.len(),
{
    if es.len() == 0 {
        Seq::empty()
    } else {
        enc_entry(es[0]) + enc_entries(es.drop_first())
    }
}

pub open spec fn enc_meta(m: MetaAbs) -> Seq<u8> {
    enc_ts(m.created) + enc_ts(m.modified) + spec_u64_to_le_bytes(m.total_blocks)
        + spec_u64_to_le_bytes(m.index.len() as u64) + enc_entries(m.index)
}

/// Reads `count` entries starting at `pos`; returns them and the position
/// after the last one.
pub open spec fn parse_entries(s: Seq<u8>, pos: int, count: nat) -> Option<
    (Seq<(Seq<u8>, BlockLocation)>, int),
>
    decreases count,
{
    if count == 0 {
        Some((Seq::empty(), pos))
    } else if 0 <= pos && pos + 8 <= s.len() {
        let kl = spec_u64_from_le_bytes(s.subrange(pos, pos + 8)) as int;
        if pos + 8 + kl + 20 <= s.len() {
            let key = s.subrange(pos + 8, pos + 8 + kl);
            let loc = parse_loc(s.subrange(pos + 8 + kl, pos + 8 + kl + 20));
            match parse_entries(s, pos + 8 + kl + 20, (count - 1) as nat) {
                Some((rest, end)) => Some((seq![(key, loc)] + rest, end)),
                None => None,
            }
        } else {
            None
        }
    } else {
        None
    }
}

/// Reads a metadata record from the front of a region; trailing region
/// bytes are ignored.
pub open spec fn parse_meta(s: Seq<u8>) -> Option<MetaAbs> {
    if s.len() >= 40 {
        let count = spec_u64_from_le_bytes(s.subrange(32, 40));
        match parse_entries(s, 40, count as nat) {
            Some((es, _)) => Some(
                MetaAbs {
                    created: parse_ts(s.subrange(0, 12)),
                    modified: parse_ts(s.subrange(12, 24)),
                    total_blocks: spec_u64_from_le_bytes(s.subrange(24, 32)),
                    index: es,
                },
            ),
            None => None,
        }
    } else {
        None
    }
}

/// Every key an entry list can hold fits its length prefix.
pub open spec fn entries_wf(es: Seq<(Seq<u8>, BlockLocation)>) -> bool {
    &&& es.len() <= u64::MAX
    &&& forall|i: int| 0 <= i < es.len() ==> (#[trigger] es[i].0).len() <= u64::MAX
}

proof fn lemma_parse_enc_entries(es: Seq<(Seq<u8>, BlockLocation)>, s: Seq<u8>, pos: int)
    requires
        entries_wf(es),
        0 <= pos,
        pos + enc_entries(es).len() <= s.len(),
        s.subrange(pos, pos + enc_entries(es).len()) == enc_entries(es),
    ensures
        parse_entries(s, pos, es.len() as nat) == Some((es, pos + enc_entries(es).len())),
    decreases es.len(),
{
    lemma_auto_spec_u64_to_from_le_bytes();
    lemma_auto_spec_u32_to_from_le_bytes();
    if es.len() == 0 {
        assert(parse_entries(s, pos, 0) == Some((Seq::<(Seq<u8>, BlockLocation)>::empty(), pos)));
        assert(es =~= Seq::<(Seq<u8>, BlockLocation)>::empty());
    } else {
        let e = es[0];
        let kl = e.0.len() as int;
        let entry_len = 28 + kl;
        let rest = es.drop_first();
        let b = enc_entries(es);
        lemma_loc_round_trip(e.1);
        assert(enc_entry(e).len() == entry_len);
        assert(b =~= enc_entry(e) + enc_entries(rest));
        let whole = s.subrange(pos, pos + enc_entries(es).len());
        assert forall|i: int| 0 <= i < 8 implies #[trigger] s.subrange(pos, pos + 8)[i]
            == spec_u64_to_le_bytes(e.0.len() as u64)[i] by {
            assert(whole[i] == b[i]);
        }
        assert(s.subrange(pos, pos + 8) =~= spec_u64_to_le_bytes(e.0.len() as u64));
        assert(spec_u64_from_le_bytes(s.subrange(pos, pos + 8)) as int == kl);
        assert forall|i: int| 0 <= i < kl implies #[trigger] s.subrange(pos + 8, pos + 8 + kl)[i]
            == e.0[i] by {
            assert(whole[8 + i] == b[8 + i]);
        }
        assert(s.subrange(pos + 8, pos + 8 + kl) =~= e.0);
        assert forall|i: int|
            0 <= i < 20 implies #[trigger] s.subrange(pos + 8 + kl, pos + 8 + kl + 20)[i]
            == enc_loc(e.1)[i] by {
            assert(whole[8 + kl + i] == b[8 + kl + i]);
        }
        assert(s.subrange(pos + 8 + kl, pos + 8 + kl + 20) =~= enc_loc(e.1));
        assert forall|i: int|
            0 <= i < enc_entries(rest).len() implies #[trigger] s.subrange(
            pos + entry_len,
            pos + entry_len + enc_entries(rest).len(),
        )[i] == enc_entries(rest)[i] by {
            assert(whole[entry_len + i] == b[entry_len + i]);
        }
        assert(s.subrange(pos + entry_len, pos + entry_len + enc_entries(rest).len())
            =~= enc_entries(rest));
        lemma_parse_enc_entries(rest, s, pos + entry_len);
        assert(seq![(e.0, e.1)] + rest =~= es);
    }
}

/// Parsing a region whose front is the encoding of `m` yields `m` back,
/// whatever follows it in the region.
pub proof fn lemma_parse_enc_meta(m: MetaAbs, region: Seq<u8>)
    requires
        entries_wf(m.index),
        enc_meta(m).len() <= region.len(),
        region.subrange(0, enc_meta(m).len() as int) == enc_meta(m),
    ensures
        parse_meta(region) == Some(m),
{
    lemma_auto_spec_u64_to_from_le_bytes();
    lemma_auto_spec_u32_to_from_le_bytes();
    lemma_i64_u64_cast(m.created.secs);
    lemma_i64_u64_cast(m.modified.secs);
    let b = enc_meta(m);
    let el = enc_entries(m.index).len() as int;
    assert(b.len() == 40 + el);
    assert forall|i: int| 0 <= i < b.len() implies region[i] == b[i] by {
        assert(region.subrange(0, enc_meta(m).len() as int)[i] == b[i]);
    }
    assert(region.subrange(0, 12) =~= enc_ts(m.created));
    assert(region.subrange(0, 12).subrange(0, 8) =~= spec_u64_to_le_bytes(m.created.secs as u64));
    assert(region.subrange(0, 12).subrange(8, 12) =~= spec_u32_to_le_bytes(m.created.nanos));
    assert(region.subrange(12, 24) =~= enc_ts(m.modified));
    assert(region.subrange(12, 24).subrange(0, 8) =~= spec_u64_to_le_bytes(m.modified.secs as u64));
    assert(region.subrange(12, 24).subrange(8, 12) =~= spec_u32_to_le_bytes(m.modified.nanos));
    assert(region.subrange(24, 32) =~= spec_u64_to_le_bytes(m.total_blocks));
    assert(region.subrange(32, 40) =~= spec_u64_to_le_bytes(m.index.len() as u64));
    assert(region.subrange(40, 40 + el) =~= enc_entries(m.index));
    lemma_parse_enc_entries(m.index, region, 40);
    assert(parse_ts(region.subrange(0, 12)) == m.created);
    assert(parse_ts(region.subrange(12, 24)) == m.modified);
}

/// The serialized length of a metadata record: the 40 fixed bytes plus its
/// entries.
pub proof fn lemma_enc_meta_len(m: MetaAbs)
    ensures
        enc_meta(m).len() == 40 + enc_entries(m.index).len(),
{
    lemma_auto_spec_u64_to_from_le_bytes();
    lemma_auto_spec_u32_to_from_le_bytes();
}

// ---------------------------------------------------------------------------
// Executable encoding and decoding.
// ---------------------------------------------------------------------------

/// Serializes a metadata record canonically.
pub fn encode_meta(m: &MetaData) -> (out: Vec<u8>)
    ensures
        out@ == enc_meta(meta_abs(*m)),
{
    let mut out: Vec<u8> = Vec::new();
    push_u64(&mut out, m.created.secs as u64);
    push_u32(&mut out, m.created.nanos);
    push_u64(&mut out, m.modified.secs as u64);
    push_u32(&mut out, m.modified.nanos);
    push_u64(&mut out, m.total_blocks);
    push_u64(&mut out, m.index.len() as u64);
    let mut body = enc_entries_exec(&m.index, 0);
    out.append(&mut body);
    proof {
        assert(index_abs(m.index@).skip(0) =~= index_abs(m.index@));
        assert(out@ =~= enc_meta(meta_abs(*m)));
    }
    out
}

fn enc_entries_exec(idx: &Vec<(Vec<u8>, BlockLocation)>, j: usize) -> (out: Vec<u8>)
    requires
        j <= idx@.len(),
    ensures
        out@ == enc_entries(index_abs(idx@).skip(j as int)),
    decreases idx@.len() - j,
{
    if j == idx.len() {
        let out: Vec<u8> = Vec::new();
        proof {
            assert(index_abs(idx@).skip(j as int) =~= Seq::<(Seq<u8>, BlockLocation)>::empty());
        }
        out
    } else {
        let e = &idx[j];
        let mut out: Vec<u8> = Vec::new();
        push_u64(&mut out, e.0.len() as u64);
        let mut key_copy = slice_to_vec(e.0.as_slice());
        out.append(&mut key_copy);
        push_loc(&mut out, &e.1);
        let mut rest = enc_entries_exec(idx, j + 1);
        out.append(&mut rest);
        proof {
            let s = index_abs(idx@).skip(j as int);
            assert(s[0] == (idx@[j as int].0@, idx@[j as int].1));
            assert(s.drop_first() =~= index_abs(idx@).skip(j as int + 1));
            assert(out@ =~= enc_entries(s));
        }
        out
    }
}

/// Deserializes a metadata record from the front of a region.
pub fn decode_meta(region: &Vec<u8>) -> (r: Option<MetaData>)
    ensures
        r is Some <==> parse_meta(region@) is Some,
        r is Some ==> meta_abs(r.unwrap()) == parse_meta(region@).unwrap(),
{
    let n = region.len();
    if n < 40 {
        return None;
    }
    let created = Timestamp { secs: read_u64_at(region, 0) as i64, nanos: read_u32_at(region, 8) };
    let modified = Timestamp {
        secs: read_u64_at(region, 12) as i64,
        nanos: read_u32_at(region, 20),
    };
    let total_blocks = read_u64_at(region, 24);
    let count = read_u64_at(region, 32);
    let index = match parse_entries_exec(region, 40, count) {
        Some((es, _)) => es,
        None => {
            return None;
        },
    };
    let m = MetaData { created, modified, total_blocks, index };
    proof {
        assert(region@.subrange(0, 12).subrange(0, 8) =~= region@.subrange(0, 8));
        assert(region@.subrange(0, 12).subrange(8, 12) =~= region@.subrange(8, 12));
        assert(region@.subrange(12, 24).subrange(0, 8) =~= region@.subrange(12, 20));
        assert(region@.subrange(12, 24).subrange(8, 12) =~= region@.subrange(20, 24));
        assert(meta_abs(m) == parse_meta(region@).unwrap());
    }
    Some(m)
}

fn parse_entries_exec(s: &Vec<u8>, pos: usize, count: u64) -> (r: Option<
    (Vec<(Vec<u8>, BlockLocation)>, usize),
>)
    requires
        pos <= s@.len(),
    ensures
        r is Some <==> parse_entries(s@, pos as int, count as nat) is Some,
        r is Some ==> {
            let (es, end) = parse_entries(s@, pos as int, count as nat).unwrap();
            index_abs(r.unwrap().0@) == es && r.unwrap().1 as int == end && end <= s@.len()
        },
    decreases count,
{
    let n = s.len();
    if count == 0 {
        let es: Vec<(Vec<u8>, BlockLocation)> = Vec::new();
        proof {
            assert(index_abs(es@) =~= Seq::<(Seq<u8>, BlockLocation)>::empty());
        }
        return Some((es, pos));
    }
    if n - pos < 8 {
        return None;
    }
    let kl64 = read_u64_at(s, pos);
    let rem = n - (pos + 8);
    if rem < 20 || kl64 > (rem - 20) as u64 {
        return None;
    }
    let kl = kl64 as usize;
    let key = slice_to_vec(vstd::slice::slice_subrange(s.as_slice(), pos + 8, pos + 8 + kl));
    let loc = read_loc_at(s, pos + 8 + kl);
    let next = pos + 8 + kl + 20;
    match parse_entries_exec(s, next, count - 1) {
        Some((rest, end)) => {
            let mut es: Vec<(Vec<u8>, BlockLocation)> = Vec::new();
            es.push((key, loc));
            let mut rest = rest;
            es.append(&mut rest);
            proof {
                let (spec_rest, spec_end) = parse_entries(
                    s@,
                    next as int,
                    (count - 1) as nat,
                ).unwrap();
                assert(index_abs(es@) =~= seq![(key@, loc)] + spec_rest);
            }
            Some((es, end))
        },
        None => None,
    }
}

// ---------------------------------------------------------------------------
// The index as a mapping.
// ---------------------------------------------------------------------------

/// The entry list after binding `key` to `loc`: the first entry for the key
/// is replaced in place, or a new entry is appended.
pub open spec fn index_put_abs(
    es: Seq<(Seq<u8>, BlockLocation)>,
    key: Seq<u8>,
    loc: BlockLocation,
) -> Seq<(Seq<u8>, BlockLocation)>
    decreases es.len(),
{
    if es.len() == 0 {
        seq![(key, loc)]
    } else if es[0].0 == key {
        es.update(0, (key, loc))
    } else {
        seq![es[0]] + index_put_abs(es.drop_first(), key, loc)
    }
}

/// Binding a key rewrites the denoted mapping by one insertion.
pub proof fn lemma_index_put_map(es: Seq<(Seq<u8>, BlockLocation)>, key: Seq<u8>, loc: BlockLocation)
    ensures
        index_map(index_put_abs(es, key, loc)) == index_map(es).insert(key, loc),
    decreases es.len(),
{
    if es.len() == 0 {
        let one = seq![(key, loc)];
        assert(one.drop_first() =~= Seq::<(Seq<u8>, BlockLocation)>::empty());
        assert(index_map(one) == index_map(one.drop_first()).insert(key, loc));
        assert_maps_equal!(index_map(index_put_abs(es, key, loc)), index_map(es).insert(key, loc));
    } else if es[0].0 == key {
        let up = es.update(0, (key, loc));
        assert(up.len() == es.len() && up[0] == (key, loc));
        assert(up.drop_first() =~= es.drop_first());
        assert(index_map(up) == index_map(up.drop_first()).insert(up[0].0, up[0].1));
        assert(index_map(es) == index_map(es.drop_first()).insert(es[0].0, es[0].1));
        assert_maps_equal!(index_map(up), index_map(es).insert(key, loc));
    } else {
        let rest = index_put_abs(es.drop_first(), key, loc);
        let whole = seq![es[0]] + rest;
        assert(whole.len() > 0);
        assert(whole.drop_first() =~= rest);
        assert(whole[0] == es[0]);
        assert(index_map(whole) == index_map(rest).insert(es[0].0, es[0].1));
        lemma_index_put_map(es.drop_first(), key, loc);
        assert(index_map(es) == index_map(es.drop_first()).insert(es[0].0, es[0].1));
        assert_maps_equal!(index_map(whole), index_map(es).insert(key, loc));
    }
}

/// The serialized length after a binding does not depend on the location
/// bound.
pub proof fn lemma_put_len_loc_indep(
    es: Seq<(Seq<u8>, BlockLocation)>,
    key: Seq<u8>,
    l1: BlockLocation,
    l2: BlockLocation,
)
    ensures
        enc_entries(index_put_abs(es, key, l1)).len() == enc_entries(index_put_abs(es, key, l2)).len(),
    decreases es.len(),
{
    lemma_auto_spec_u64_to_from_le_bytes();
    lemma_auto_spec_u32_to_from_le_bytes();
    if es.len() == 0 {
        assert(seq![(key, l1)].drop_first() =~= Seq::<(Seq<u8>, BlockLocation)>::empty());
        assert(seq![(key, l2)].drop_first() =~= Seq::<(Seq<u8>, BlockLocation)>::empty());
    } else if es[0].0 == key {
        let u1 = es.update(0, (key, l1));
        let u2 = es.update(0, (key, l2));
        assert(u1.drop_first() =~= es.drop_first());
        assert(u2.drop_first() =~= es.drop_first());
    } else {
        let r1 = index_put_abs(es.drop_first(), key, l1);
        let r2 = index_put_abs(es.drop_first(), key, l2);
        assert((seq![es[0]] + r1).drop_first() =~= r1);
        assert((seq![es[0]] + r2).drop_first() =~= r2);
        assert((seq![es[0]] + r1)[0] == es[0]);
        assert((seq![es[0]] + r2)[0] == es[0]);
        lemma_put_len_loc_indep(es.drop_first(), key, l1, l2);
    }
}

/// Looks a key up in the entry list (earliest entry wins).
pub fn index_lookup(idx: &Vec<(Vec<u8>, BlockLocation)>, key: &Vec<u8>) -> (r: Option<
    BlockLocation,
>)
    ensures
        r is Some <==> index_map(index_abs(idx@)).contains_key(key@),
        r is Some ==> r.unwrap() == index_map(index_abs(idx@))[key@],
{
    let r = index_lookup_from(idx, 0, key);
    proof {
        assert(index_abs(idx@).skip(0) =~= index_abs(idx@));
    }
    r
}

fn index_lookup_from(idx: &Vec<(Vec<u8>, BlockLocation)>, j: usize, key: &Vec<u8>) -> (r: Option<
    BlockLocation,
>)
    requires
        j <= idx@.len(),
    ensures
        r is Some <==> index_map(index_abs(idx@).skip(j as int)).contains_key(key@),
        r is Some ==> r.unwrap() == index_map(index_abs(idx@).skip(j as int))[key@],
    decreases idx@.len() - j,
{
    if j == idx.len() {
        proof {
            assert(index_abs(idx@).skip(j as int) =~= Seq::<(Seq<u8>, BlockLocation)>::empty());
        }
        None
    } else {
        let e = &idx[j];
        let ghost s = index_abs(idx@).skip(j as int);
        proof {
            assert(s[0] == (idx@[j as int].0@, idx@[j as int].1));
            assert(s.drop_first() =~= index_abs(idx@).skip(j as int + 1));
        }
        if bytes_eq(&e.0, key) {
            Some(e.1)
        } else {
            index_lookup_from(idx, j + 1, key)
        }
    }
}

/// Binds `key` to `loc` in the entry list, replacing its first entry or
/// appending a new one.
pub fn index_put(idx: &mut Vec<(Vec<u8>, BlockLocation)>, key: Vec<u8>, loc: BlockLocation)
    ensures
        index_abs(final(idx)@) == index_put_abs(index_abs(old(idx)@), key@, loc),
{
    let ghost k = key@;
    let n = idx.len();
    let mut j: usize = 0;
    while j < n
        invariant
            idx@ == old(idx)@,
            n == idx@.len(),
            j <= n,
            k == key@,
            forall|i: int| 0 <= i < j ==> (#[trigger] idx@[i]).0@ != k,
        decreases n - j,
    {
        if bytes_eq(&idx[j].0, &key) {
            let ghost es = index_abs(old(idx)@);
            proof {
                assert(es[j as int].0 == k);
                assert(forall|i: int| 0 <= i < j ==> (#[trigger] es[i]).0 != k);
                lemma_put_prefix_update(es, j as int, k, loc);
            }
            idx[j] = (key, loc);
            proof {
                assert(index_abs(idx@) =~= es.update(j as int, (k, loc)));
            }
            return ;
        }
        j += 1;
    }
    let ghost es = index_abs(old(idx)@);
    proof {
        assert(forall|i: int| 0 <= i < es.len() ==> (#[trigger] es[i]).0 != k);
        lemma_put_append(es, k, loc);
    }
    idx.push((key, loc));
    proof {
        assert(index_abs(idx@) =~= es.push((k, loc)));
    }
}

/// Where the first entry for `key` sits at `i`, the binding is an update in
/// place.
proof fn lemma_put_prefix_update(
    es: Seq<(Seq<u8>, BlockLocation)>,
    i: int,
    key: Seq<u8>,
    loc: BlockLocation,
)
    requires
        0 <= i < es.len(),
        es[i].0 == key,
        forall|k: int| 0 <= k < i ==> (#[trigger] es[k]).0 != key,
    ensures
        index_put_abs(es, key, loc) == es.update(i, (key, loc)),
    decreases i,
{
    if i == 0 {
    } else {
        lemma_put_prefix_update(es.drop_first(), i - 1, key, loc);
        assert(es.drop_first()[i - 1].0 == key);
        assert(index_put_abs(es, key, loc) =~= es.update(i, (key, loc)));
    }
}

/// Where no entry holds `key`, the binding is an appended entry.
proof fn lemma_put_append(es: Seq<(Seq<u8>, BlockLocation)>, key: Seq<u8>, loc: BlockLocation)
    requires
        forall|k: int| 0 <= k < es.len() ==> (#[trigger] es[k]).0 != key,
    ensures
        index_put_abs(es, key, loc) == es.push((key, loc)),
    decreases es.len(),
{
    if es.len() == 0 {
        assert(index_put_abs(es, key, loc) =~= es.push((key, loc)));
    } else {
        lemma_put_append(es.drop_first(), key, loc);
        assert(index_put_abs(es, key, loc) =~= es.push((key, loc)));
    }
}

/// Copies an entry list.
pub fn clone_index(idx: &Vec<(Vec<u8>, BlockLocation)>) -> (out: Vec<(Vec<u8>, BlockLocation)>)
    ensures
        index_abs(out@) == index_abs(idx@),
{
    let n = idx.len();
    let mut out: Vec<(Vec<u8>, BlockLocation)> = Vec::new();
    let mut j: usize = 0;
    while j < n
        invariant
            n == idx@.len(),
            j <= n,
            out@.len() == j,
            forall|i: int| 0 <= i < j ==> (#[trigger] out@[i]).0@ == idx@[i].0@ && out@[i].1
                == idx@[i].1,
        decreases n - j,
    {
        let e = &idx[j];
        out.push((slice_to_vec(e.0.as_slice()), e.1));
        j += 1;
    }
    proof {
        assert(index_abs(out@) =~= index_abs(idx@));
    }
    out
}

} // verus!

//! Write-ahead log record framing and replay.
//!
//! A log is a plain concatenation of records, each framed as a big-endian
//! `u32` key length, the key bytes, a big-endian `u32` value length, and
//! the value bytes — no header, separators or checksum. `encode_record`
//! produces one frame; `decode_log` walks a whole buffer back into
//! records, rejecting a buffer whose trailing record is cut short; and
//! `recover_into` replays the decoded records, in order, into a
//! caller-supplied concurrent sorted map, so that the last write to each
//! key wins. Reading and writing the log file itself is the caller's
//! business.

use vstd::prelude::*;
use crossbeam_skiplist::SkipMap;

verus! {

/// Errors of log decoding: the buffer ends in the middle of a record.
#[derive(Debug, PartialEq, Eq, Structural, Clone, Copy)]
pub enum WalError {
    Corrupted,
}

#[verifier::external_type_specification]
#[verifier::external_body]
#[verifier::reject_recursive_types(K)]
#[verifier::reject_recursive_types(V)]
pub struct ExSkipMap<K, V>(SkipMap<K, V>);

/// What the skiplist map holds, as a mathematical map from key bytes to
/// value bytes.
pub uninterp spec fn skipmap_contents(m: SkipMap<Vec<u8>, Vec<u8>>) -> Map<Seq<u8>, Seq<u8>>;

/// Relies on crossbeam_skiplist::SkipMap::insert: inserts the pair into
/// the map; an existing entry with this key is removed before the new one
/// goes in.
#[verifier::external_body]
fn skipmap_insert(m: &mut SkipMap<Vec<u8>, Vec<u8>>, key: Vec<u8>, value: Vec<u8>)
    ensures
        skipmap_contents(*final(m)) == skipmap_contents(*old(m)).insert(key@, value@),
{
    m.insert(key, value);
}

/// A `u32` from four big-endian bytes.
pub open spec fn u32_of_be(b0: u8, b1: u8, b2: u8, b3: u8) -> u32 {
    ((b0 as u32) << 24) | ((b1 as u32) << 16) | ((b2 as u32) << 8) | (b3 as u32)
}

/// The four big-endian bytes of a `u32`.
pub open spec fn be_of_u32(n: u32) -> Seq<u8> {
    seq![
        (n >> 24) as u8,
        ((n >> 16) & 0xff) as u8,
        ((n >> 8) & 0xff) as u8,
        (n & 0xff) as u8,
    ]
}

/// One record's frame: length-prefixed key, then length-prefixed value.
pub open spec fn encode_record_spec(k: Seq<u8>, v: Seq<u8>) -> Seq<u8> {
    be_of_u32(k.len() as u32) + k + be_of_u32(v.len() as u32) + v
}

/// A whole log: the records' frames, back to back.
pub open spec fn encode_log_spec(records: Seq<(Seq<u8>, Seq<u8>)>) -> Seq<u8>
    decreases records.len(),
{
    if records.len() == 0 {
        Seq::<u8>::empty()
    } else {
        encode_record_spec(records[0].0, records[0].1) + encode_log_spec(records.skip(1))
    }
}

/// Both length prefixes of a record can be represented.
pub open spec fn record_fits(k: Seq<u8>, v: Seq<u8>) -> bool {
    k.len() <= u32::MAX && v.len() <= u32::MAX
}

/// The records a buffer parses into, front to back; `None` when the
/// buffer ends inside a record.
pub open spec fn decode_log_spec(b: Seq<u8>) -> Option<Seq<(Seq<u8>, Seq<u8>)>>
    decreases b.len(),
{
    if b.len() == 0 {
        Some(Seq::<(Seq<u8>, Seq<u8>)>::empty())
    } else if b.len() < 4 {
        None
    } else {
        let klen = u32_of_be(b[0], b[1], b[2], b[3]) as int;
        if b.len() < 4 + klen {
            None
        } else {
            let kk = b.subrange(4, 4 + klen);
            let b2 = b.skip(4 + klen);
            if b2.len() < 4 {
                None
            } else {
                let vlen = u32_of_be(b2[0], b2[1], b2[2], b2[3]) as int;
                if b2.len() < 4 + vlen {
                    None
                } else {
                    let vv = b2.subrange(4, 4 + vlen);
                    match decode_log_spec(b2.skip(4 + vlen)) {
                        None => None,
                        Some(tail) => Some(seq![(kk, vv)] + tail),
                    }
                }
            }
        }
    }
}

/// The view of a vector of decoded records.
pub open spec fn records_view(rs: Seq<(Vec<u8>, Vec<u8>)>) -> Seq<(Seq<u8>, Seq<u8>)> {
    rs.map_values(|e: (Vec<u8>, Vec<u8>)| (e.0@, e.1@))
}

/// The map after inserting each record's pair in order: a later record
/// for a key replaces an earlier one.
pub open spec fn replay_map(
    m: Map<Seq<u8>, Seq<u8>>,
    records: Seq<(Seq<u8>, Seq<u8>)>,
) -> Map<Seq<u8>, Seq<u8>>
    decreases records.len(),
{
    if records.len() == 0 {
        m
    } else {
        replay_map(m.insert(records[0].0, records[0].1), records.skip(1))
    }
}

proof fn lemma_u32_be_round_trip(n: u32)
    ensures
        u32_of_be(
            (n >> 24) as u8,
            ((n >> 16) & 0xff) as u8,
            ((n >> 8) & 0xff) as u8,
            (n & 0xff) as u8,
        ) == n,
{
    assert(((((n >> 24) as u8) as u32) << 24) | ((((n >> 16) & 0xff) as u8 as u32) << 16)
        | ((((n >> 8) & 0xff) as u8 as u32) << 8) | ((n & 0xff) as u8 as u32) == n)
        by (bit_vector);
}

fn push_u32_be(out: &mut Vec<u8>, n: u32)
    ensures
        final(out)@ == old(out)@ + be_of_u32(n),
{
    proof {
        assert(n >> 24 < 256) by (bit_vector);
        assert((n >> 16) & 0xff < 256) by (bit_vector);
        assert((n >> 8) & 0xff < 256) by (bit_vector);
        assert(n & 0xff < 256) by (bit_vector);
    }
    out.push((n >> 24) as u8);
    out.push(((n >> 16) & 0xff) as u8);
    out.push(((n >> 8) & 0xff) as u8);
    out.push((n & 0xff) as u8);
    proof {
        assert(out@ =~= old(out)@ + be_of_u32(n));
    }
}

fn push_bytes(out: &mut Vec<u8>, data: &Vec<u8>)
    ensures
        final(out)@ == old(out)@ + data@,
{
    let mut i: usize = 0;
    proof {
        assert(out@ =~= old(out)@ + data@.take(0));
    }
    while i < data.len()
        invariant
            i <= data.len(),
            out@ == old(out)@ + data@.take(i as int),
        decreases data.len() - i,
    {
        out.push(data[i]);
        proof {
            assert(old(out)@ + data@.take(i + 1)
                =~= (old(out)@ + data@.take(i as int)).push(data@[i as int]));
        }
        i += 1;
    }
    proof {
        assert(data@.take(data@.len() as int) =~= data@);
    }
}

fn copy_range(buf: &Vec<u8>, start: usize, len: usize) -> (r: Vec<u8>)
    requires
        start + len <= buf@.len(),
    ensures
        r@ == buf@.subrange(start as int, start as int + len as int),
{
    let bn = buf.len();
    let mut r: Vec<u8> = Vec::new();
    proof {
        assert(r@ =~= buf@.subrange(start as int, start as int));
    }
    let mut i: usize = 0;
    while i < len
        invariant
            i <= len,
            start + len <= bn,
            bn == buf@.len(),
            r@ == buf@.subrange(start as int, start as int + i as int),
        decreases len - i,
    {
        r.push(buf[start + i]);
        proof {
            assert(buf@.subrange(start as int, start as int + (i + 1))
                =~= buf@.subrange(start as int, start as int + i as int).push(
                    buf@[start as int + i as int]));
        }
        i += 1;
    }
    r
}

fn read_u32_be(buf: &Vec<u8>, p: usize) -> (r: u32)
    requires
        p + 4 <= buf@.len(),
    ensures
        r == u32_of_be(buf@[p as int], buf@[p as int + 1], buf@[p as int + 2], buf@[p as int + 3]),
{
    let bn = buf.len();
    proof {
        assert(p + 4 <= bn);
    }
    let b0 = buf[p];
    let b1 = buf[p + 1];
    let b2 = buf[p + 2];
    let b3 = buf[p + 3];
    ((b0 as u32) << 24) | ((b1 as u32) << 16) | ((b2 as u32) << 8) | (b3 as u32)
}

/// Serialize one key/value record exactly as the log stores it.
pub fn encode_record(key: &Vec<u8>, value: &Vec<u8>) -> (r: Vec<u8>)
    requires
        record_fits(key@, value@),
    ensures
        r@ == encode_record_spec(key@, value@),
{
    let mut r: Vec<u8> = Vec::new();
    push_u32_be(&mut r, key.len() as u32);
    push_bytes(&mut r, key);
    push_u32_be(&mut r, value.len() as u32);
    push_bytes(&mut r, value);
    proof {
        assert(r@ =~= encode_record_spec(key@, value@));
    }
    r
}

/// Parse a whole log buffer into its records; a buffer that ends inside
/// a record is corrupt.
pub fn decode_log(buf: &Vec<u8>) -> (r: Result<Vec<(Vec<u8>, Vec<u8>)>, WalError>)
    ensures
        r matches Ok(records) ==> decode_log_spec(buf@) == Some(records_view(records@)),
        r matches Err(e) ==> (decode_log_spec(buf@) is None && e == WalError::Corrupted),
{
    let n = buf.len();
    let mut pos: usize = 0;
    let mut out: Vec<(Vec<u8>, Vec<u8>)> = Vec::new();
    proof {
        assert(buf@.skip(0) =~= buf@);
        assert(records_view(out@) =~= Seq::<(Seq<u8>, Seq<u8>)>::empty());
    }
    loop
        invariant
            pos <= n,
            n == buf@.len(),
            decode_log_spec(buf@.skip(pos as int)) matches Some(t) ==>
                decode_log_spec(buf@) == Some(records_view(out@) + t),
            decode_log_spec(buf@.skip(pos as int)) is None ==> decode_log_spec(buf@) is None,
        decreases n - pos,
    {
        let ghost s = buf@.skip(pos as int);
        if pos == n {
            proof {
                assert(s.len() == 0);
                assert(decode_log_spec(s) == Some(Seq::<(Seq<u8>, Seq<u8>)>::empty()));
                assert(records_view(out@) + Seq::<(Seq<u8>, Seq<u8>)>::empty()
                    =~= records_view(out@));
            }
            return Ok(out);
        }
        let rem = n - pos;
        if rem < 4 {
            proof {
                assert(s.len() == rem);
                assert(decode_log_spec(s) is None);
            }
            return Err(WalError::Corrupted);
        }
        let klen32 = read_u32_be(buf, pos);
        let klen = klen32 as usize;
        proof {
            assert(s[0] == buf@[pos as int]);
            assert(s[1] == buf@[pos as int + 1]);
            assert(s[2] == buf@[pos as int + 2]);
            assert(s[3] == buf@[pos as int + 3]);
            assert(u32_of_be(s[0], s[1], s[2], s[3]) == klen32);
        }
        if rem - 4 < klen {
            proof {
                assert(s.len() < 4 + klen32 as int);
                assert(decode_log_spec(s) is None);
            }
            return Err(WalError::Corrupted);
        }
        let kk = copy_range(buf, pos + 4, klen);
        let pos2 = pos + 4 + klen;
        let rem2 = n - pos2;
        proof {
            assert(s.subrange(4, 4 + klen as int)
                =~= buf@.subrange(pos as int + 4, pos as int + 4 + klen as int));
            assert(s.skip(4 + klen as int) =~= buf@.skip(pos2 as int));
        }
        let ghost s2 = s.skip(4 + klen as int);
        if rem2 < 4 {
            proof {
                assert(s2.len() == rem2);
                assert(decode_log_spec(s) is None);
            }
            return Err(WalError::Corrupted);
        }
        let vlen32 = read_u32_be(buf, pos2);
        let vlen = vlen32 as usize;
        proof {
            assert(s2[0] == buf@[pos2 as int]);
            assert(s2[1] == buf@[pos2 as int + 1]);
            assert(s2[2] == buf@[pos2 as int + 2]);
            assert(s2[3] == buf@[pos2 as int + 3]);
            assert(u32_of_be(s2[0], s2[1], s2[2], s2[3]) == vlen32);
        }
        if rem2 - 4 < vlen {
            proof {
                assert(s2.len() < 4 + vlen32 as int);
                assert(decode_log_spec(s) is None);
            }
            return Err(WalError::Corrupted);
        }
        let vv = copy_range(buf, pos2 + 4, vlen);
        let pos3 = pos2 + 4 + vlen;
        proof {
            assert(s2.subrange(4, 4 + vlen as int)
                =~= buf@.subrange(pos2 as int + 4, pos2 as int + 4 + vlen as int));
            assert(s2.skip(4 + vlen as int) =~= buf@.skip(pos3 as int));
        }
        let ghost s3 = s2.skip(4 + vlen as int);
        let ghost old_out = out@;
        out.push((kk, vv));
        proof {
            assert(kk@ == s.subrange(4, 4 + klen as int));
            assert(vv@ == s2.subrange(4, 4 + vlen as int));
            assert(decode_log_spec(s3) is None ==> decode_log_spec(s) is None);
            assert(decode_log_spec(s3) matches Some(t3) ==>
                decode_log_spec(s) == Some(seq![(kk@, vv@)] + t3));
            assert(records_view(out@) =~= records_view(old_out) + seq![(kk@, vv@)]);
            if decode_log_spec(s3) is Some {
                let t3 = decode_log_spec(s3)->Some_0;
                assert((records_view(old_out) + seq![(kk@, vv@)]) + t3
                    =~= records_view(old_out) + (seq![(kk@, vv@)] + t3));
            }
        }
        pos = pos3;
    }
}

/// Replay a whole log buffer into a sorted map: decode every record, then
/// insert each pair in file order, so a later write to a key replaces an
/// earlier one. A corrupt buffer leaves the map untouched.
pub fn recover_into(buf: &Vec<u8>, map: &mut SkipMap<Vec<u8>, Vec<u8>>) -> (r: Result<
    (),
    WalError,
>)
    ensures
        r is Ok ==> (decode_log_spec(buf@) matches Some(recs)
            && skipmap_contents(*final(map)) == replay_map(skipmap_contents(*old(map)), recs)),
        r matches Err(e) ==> decode_log_spec(buf@) is None
            && skipmap_contents(*final(map)) == skipmap_contents(*old(map))
            && e == WalError::Corrupted,
{
    let mut records = match decode_log(buf) {
        Err(e) => {
            return Err(e);
        },
        Ok(records) => records,
    };
    let ghost base = skipmap_contents(*map);
    let ghost full = records_view(records@);
    loop
        invariant
            replay_map(skipmap_contents(*map), records_view(records@)) == replay_map(base, full),
            decode_log_spec(buf@) == Some(full),
            base == skipmap_contents(*old(map)),
        decreases records@.len(),
    {
        if records.len() == 0 {
            proof {
                assert(records_view(records@).len() == 0);
                assert(replay_map(skipmap_contents(*map), records_view(records@))
                    == skipmap_contents(*map));
                assert(decode_log_spec(buf@) == Some(full));
                assert(skipmap_contents(*map) == replay_map(base, full));
            }
            return Ok(());
        }
        let ghost before = records@;
        let kv = records.remove(0);
        proof {
            assert(records@ =~= before.skip(1));
            assert(records_view(before)[0] == (kv.0@, kv.1@));
            assert(records_view(before).skip(1) =~= records_view(before.skip(1)));
        }
        let ghost contents_before = skipmap_contents(*map);
        skipmap_insert(map, kv.0, kv.1);
        proof {
            assert(replay_map(contents_before, records_view(before))
                == replay_map(contents_before.insert(kv.0@, kv.1@), records_view(before).skip(1)));
        }
    }
}

/// Decoding a buffer that starts with one whole record frame peels
/// exactly that record and continues with the remainder.
proof fn lemma_decode_one(k: Seq<u8>, v: Seq<u8>, rest: Seq<u8>)
    requires
        record_fits(k, v),
    ensures
        decode_log_spec(rest) is None ==>
            decode_log_spec(encode_record_spec(k, v) + rest) is None,
        decode_log_spec(rest) matches Some(t) ==>
            decode_log_spec(encode_record_spec(k, v) + rest) == Some(seq![(k, v)] + t),
{
    let klen32 = k.len() as u32;
    let vlen32 = v.len() as u32;
    lemma_u32_be_round_trip(klen32);
    lemma_u32_be_round_trip(vlen32);
    let enc = encode_record_spec(k, v);
    let w = enc + rest;
    assert(be_of_u32(klen32).len() == 4);
    assert(be_of_u32(vlen32).len() == 4);
    assert(w[0] == be_of_u32(klen32)[0]);
    assert(w[1] == be_of_u32(klen32)[1]);
    assert(w[2] == be_of_u32(klen32)[2]);
    assert(w[3] == be_of_u32(klen32)[3]);
    assert(u32_of_be(w[0], w[1], w[2], w[3]) == klen32);
    assert(klen32 as int == k.len());
    assert(w.len() >= 4 + k.len());
    assert(w.subrange(4, 4 + k.len() as int) =~= k);
    let b2 = w.skip(4 + k.len() as int);
    assert(b2 =~= be_of_u32(vlen32) + v + rest);
    assert(b2[0] == be_of_u32(vlen32)[0]);
    assert(b2[1] == be_of_u32(vlen32)[1]);
    assert(b2[2] == be_of_u32(vlen32)[2]);
    assert(b2[3] == be_of_u32(vlen32)[3]);
    assert(u32_of_be(b2[0], b2[1], b2[2], b2[3]) == vlen32);
    assert(vlen32 as int == v.len());
    assert(b2.len() >= 4 + v.len());
    assert(b2.subrange(4, 4 + v.len() as int) =~= v);
    assert(b2.skip(4 + v.len() as int) =~= rest);
}

/// Round trip: a log encoded from any representable record sequence
/// decodes back to exactly that sequence — nothing is lost, reordered or
/// invented.
#[verifier::rlimit(100)]
pub proof fn lemma_wal_round_trip(records: Seq<(Seq<u8>, Seq<u8>)>)
    requires
        forall|i: int| 0 <= i < records.len() ==>
            record_fits((#[trigger] records[i]).0, records[i].1),
    ensures
        decode_log_spec(encode_log_spec(records)) == Some(records),
    decreases records.len(),
{
    if records.len() == 0 {
        assert(encode_log_spec(records).len() == 0);
        assert(records =~= Seq::<(Seq<u8>, Seq<u8>)>::empty());
    } else {
        assert forall|i: int| 0 <= i < records.skip(1).len() implies
            record_fits((#[trigger] records.skip(1)[i]).0, records.skip(1)[i].1) by {
            assert(records.skip(1)[i] == records[i + 1]);
        }
        lemma_wal_round_trip(records.skip(1));
        lemma_decode_one(records[0].0, records[0].1, encode_log_spec(records.skip(1)));
        assert(decode_log_spec(encode_log_spec(records))
            == Some(seq![(records[0].0, records[0].1)] + records.skip(1)));
        assert(seq![(records[0].0, records[0].1)] + records.skip(1) =~= records);
    }
}

/// A strict, non-empty prefix of one record's frame does not decode.
proof fn lemma_decode_partial_record(k: Seq<u8>, v: Seq<u8>, m: int)
    requires
        record_fits(k, v),
        0 < m < encode_record_spec(k, v).len(),
    ensures
        decode_log_spec(encode_record_spec(k, v).take(m)) is None,
{
    let klen32 = k.len() as u32;
    let vlen32 = v.len() as u32;
    lemma_u32_be_round_trip(klen32);
    lemma_u32_be_round_trip(vlen32);
    let enc = encode_record_spec(k, v);
    assert(be_of_u32(klen32).len() == 4);
    assert(be_of_u32(vlen32).len() == 4);
    assert(enc.len() == 8 + k.len() + v.len());
    let t = enc.take(m);
    assert(t.len() == m);
    if m < 4 {
    } else {
        assert(t[0] == be_of_u32(klen32)[0]);
        assert(t[1] == be_of_u32(klen32)[1]);
        assert(t[2] == be_of_u32(klen32)[2]);
        assert(t[3] == be_of_u32(klen32)[3]);
        assert(u32_of_be(t[0], t[1], t[2], t[3]) == klen32);
        assert(klen32 as int == k.len());
        if m < 4 + k.len() {
            assert(t.len() < 4 + k.len());
        } else {
            let b2 = t.skip(4 + k.len() as int);
            assert(b2.len() == m - 4 - k.len());
            if m < 8 + k.len() {
                assert(b2.len() < 4);
            } else {
                assert(b2[0] == enc[4 + k.len() as int]);
                assert(b2[1] == enc[5 + k.len() as int]);
                assert(b2[2] == enc[6 + k.len() as int]);
                assert(b2[3] == enc[7 + k.len() as int]);
                assert(enc[4 + k.len() as int] == be_of_u32(vlen32)[0]);
                assert(enc[5 + k.len() as int] == be_of_u32(vlen32)[1]);
                assert(enc[6 + k.len() as int] == be_of_u32(vlen32)[2]);
                assert(enc[7 + k.len() as int] == be_of_u32(vlen32)[3]);
                assert(u32_of_be(b2[0], b2[1], b2[2], b2[3]) == vlen32);
                assert(vlen32 as int == v.len());
                assert(b2.len() < 4 + v.len());
            }
        }
    }
}

/// Corruption detection: a log truncated anywhere strictly inside its
/// final record fails to decode — replay reports corruption rather than
/// silently dropping a partial record.
pub proof fn lemma_wal_truncation_detected(records: Seq<(Seq<u8>, Seq<u8>)>, m: int)
    requires
        records.len() > 0,
        forall|i: int| 0 <= i < records.len() ==>
            record_fits((#[trigger] records[i]).0, records[i].1),
        encode_log_spec(records.drop_last()).len() < m < encode_log_spec(records).len(),
    ensures
        decode_log_spec(encode_log_spec(records).take(m)) is None,
    decreases records.len(),
{
    if records.len() == 1 {
        assert(records.drop_last().len() == 0);
        assert(records.skip(1).len() == 0);
        assert(encode_log_spec(records.skip(1)).len() == 0);
        assert(encode_log_spec(records)
            =~= encode_record_spec(records[0].0, records[0].1));
        lemma_decode_partial_record(records[0].0, records[0].1, m);
    } else {
        let head = encode_record_spec(records[0].0, records[0].1);
        let rest = encode_log_spec(records.skip(1));
        assert(encode_log_spec(records) == head + rest);
        assert(records.drop_last().len() > 0);
        assert(records.drop_last()[0] == records[0]);
        assert(records.drop_last().skip(1) =~= records.skip(1).drop_last());
        assert(encode_log_spec(records.drop_last())
            == head + encode_log_spec(records.skip(1).drop_last()));
        let m2 = m - head.len();
        assert(m2 > encode_log_spec(records.skip(1).drop_last()).len());
        assert(m2 < rest.len());
        assert(encode_log_spec(records).take(m) =~= head + rest.take(m2));
        assert forall|i: int| 0 <= i < records.skip(1).len() implies
            record_fits((#[trigger] records.skip(1)[i]).0, records.skip(1)[i].1) by {
            assert(records.skip(1)[i] == records[i + 1]);
        }
        lemma_wal_truncation_detected(records.skip(1), m2);
        lemma_decode_one(records[0].0, records[0].1, rest.take(m2));
    }
}

/// Appending one record to a replay is one more insertion.
proof fn lemma_replay_snoc(m: Map<Seq<u8>, Seq<u8>>, records: Seq<(Seq<u8>, Seq<u8>)>)
    requires
        records.len() > 0,
    ensures
        replay_map(m, records)
            == replay_map(m, records.drop_last()).insert(records.last().0, records.last().1),
    decreases records.len(),
{
    let m1 = m.insert(records[0].0, records[0].1);
    if records.len() == 1 {
        assert(records.skip(1).len() == 0);
        assert(records.drop_last().len() == 0);
        assert(records.last() == records[0]);
        assert(replay_map(m, records) == replay_map(m1, records.skip(1)));
        assert(replay_map(m1, records.skip(1)) == m1);
        assert(replay_map(m, records.drop_last()) == m);
    } else {
        assert(replay_map(m, records) == replay_map(m1, records.skip(1)));
        lemma_replay_snoc(m1, records.skip(1));
        assert(records.skip(1).drop_last() =~= records.drop_last().skip(1));
        assert(records.skip(1).last() == records.last());
        assert(records.drop_last().len() > 0);
        assert(records.drop_last()[0] == records[0]);
        assert(replay_map(m, records.drop_last())
            == replay_map(m1, records.drop_last().skip(1)));
    }
}

/// Last write wins: after replaying a record sequence on top of a base
/// map, a key is present exactly when the base held it or some record
/// wrote it, and the value of a key whose final write is record `i` is
/// that record's value.
#[verifier::rlimit(50)]
pub proof fn lemma_replay_last_write(base: Map<Seq<u8>, Seq<u8>>, records: Seq<(Seq<u8>, Seq<u8>)>)
    ensures
        forall|k: Seq<u8>| #[trigger] replay_map(base, records).contains_key(k) <==>
            (base.contains_key(k)
                || exists|i: int| 0 <= i < records.len() && (#[trigger] records[i]).0 == k),
        forall|i: int|
            0 <= i < records.len()
            && (forall|j: int| i < j < records.len() ==> (#[trigger] records[j]).0 != records[i].0)
            ==> replay_map(base, records)[(#[trigger] records[i]).0] == records[i].1,
    decreases records.len(),
{
    if records.len() == 0 {
    } else {
        let a = records.drop_last();
        let x = records.last();
        lemma_replay_last_write(base, a);
        lemma_replay_snoc(base, records);
        let ra = replay_map(base, a);
        let rr = replay_map(base, records);
        assert(rr == ra.insert(x.0, x.1));
        assert forall|k: Seq<u8>| #[trigger] rr.contains_key(k) <==>
            (base.contains_key(k)
                || exists|i: int| 0 <= i < records.len() && (#[trigger] records[i]).0 == k) by {
            if k == x.0 {
                assert(records[records.len() - 1] == x);
                assert(rr.contains_key(k));
            } else {
                assert(rr.contains_key(k) == ra.contains_key(k));
                if exists|i: int| 0 <= i < a.len() && (#[trigger] a[i]).0 == k {
                    let i = choose|i: int| 0 <= i < a.len() && (#[trigger] a[i]).0 == k;
                    assert(records[i] == a[i]);
                }
                if exists|i: int| 0 <= i < records.len() && (#[trigger] records[i]).0 == k {
                    let i = choose|i: int| 0 <= i < records.len() && (#[trigger] records[i]).0 == k;
                    assert(i < records.len() - 1);
                    assert(a[i] == records[i]);
                }
            }
        }
        assert forall|i: int|
            0 <= i < records.len()
            && (forall|j: int| i < j < records.len() ==> (#[trigger] records[j]).0 != records[i].0)
            implies rr[(records[i]).0] == records[i].1 by {
            if i == records.len() - 1 {
                assert(records[i] == x);
            } else {
                assert(records[records.len() - 1] == x);
                assert(x.0 != records[i].0);
                assert(a[i] == records[i]);
                assert forall|j: int| i < j < a.len() implies
                    (#[trigger] a[j]).0 != a[i].0 by {
                    assert(a[j] == records[j]);
                }
                assert(ra[a[i].0] == a[i].1);
                assert(rr[records[i].0] == ra[records[i].0]);
            }
        }
    }
}

} // verus!

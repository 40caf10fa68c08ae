//! The write-ahead log's file format and its replay. A log file is the
//! 12-byte header `HOLO_WAL_V1\0` followed by records, each a length as 4
//! little-endian bytes and then that many bytes of entry. The index file
//! saved beside it is an 8-byte little-endian payload length and then the
//! payload.
use vstd::prelude::*;
use crate::frame::{le_bytes, le_value, read_le64};
use crate::table::table_u64;
use crate::types::FragmentId;

verus! {

/// The bytes before the first record.
pub const WAL_HEADER_LEN: usize = 12;

/// `HOLO_WAL_V1\0`.
pub open spec fn wal_magic() -> Seq<u8> {
    seq![72u8, 79u8, 76u8, 79u8, 95u8, 87u8, 65u8, 76u8, 95u8, 86u8, 49u8, 0u8]
}

/// Why a log cannot be read.
#[derive(Debug, Clone, Copy, PartialEq, Eq, Structural)]
pub enum WalError {
    /// The file ends inside the header or inside a record's entry.
    UnexpectedEof,
    /// The header is not `HOLO_WAL_V1\0`.
    InvalidHeader,
}

/// The records from `pos` on, as (start, length) of each entry: reading
/// stops where fewer than 4 bytes are left for a length, and fails where an
/// entry runs past the end.
pub open spec fn wal_records(s: Seq<u8>, pos: int) -> Result<Seq<(int, int)>, WalError>
    decreases s.len() - pos,
{
    if pos < 0 || s.len() - pos < 4 {
        Ok(Seq::empty())
    } else {
        let n = le_value(s.subrange(pos, pos + 4)) as int;
        if s.len() - pos - 4 < n {
            Err(WalError::UnexpectedEof)
        } else {
            match wal_records(s, pos + 4 + n) {
                Ok(rest) => Ok(seq![(pos + 4, n)] + rest),
                Err(e) => Err(e),
            }
        }
    }
}

/// The entries of a whole log file.
pub open spec fn wal_spans(s: Seq<u8>) -> Result<Seq<(int, int)>, WalError> {
    if s.len() < 12 {
        Err(WalError::UnexpectedEof)
    } else if s.take(12) != wal_magic() {
        Err(WalError::InvalidHeader)
    } else {
        wal_records(s, 12)
    }
}

/// The log header.
pub fn wal_header() -> (r: Vec<u8>)
    ensures
        r@ == wal_magic(),
{
    let r: Vec<u8> = vec![72u8, 79u8, 76u8, 79u8, 95u8, 87u8, 65u8, 76u8, 95u8, 86u8, 49u8, 0u8];
    assert(r@ =~= wal_magic());
    r
}

/// The length prefix of a record whose entry has `len` bytes.
pub fn record_prefix(len: u32) -> (r: Vec<u8>)
    ensures
        r@ == le_bytes(len as nat, 4),
{
    let b0 = (len % 256) as u8;
    let b1 = (len / 256 % 256) as u8;
    let b2 = (len / 65536 % 256) as u8;
    let b3 = (len / 16777216 % 256) as u8;
    let r: Vec<u8> = vec![b0, b1, b2, b3];
    proof {
        let x = len as nat;
        reveal_with_fuel(le_bytes, 5);
        assert(x / 256 / 256 == x / 65536) by (nonlinear_arith);
        assert(x / 65536 / 256 == x / 16777216) by (nonlinear_arith);
        assert(r@ =~= le_bytes(x, 4));
    }
    r
}

/// The number in 4 little-endian bytes from `p`.
fn read_le32(s: &[u8], p: usize) -> (r: usize)
    requires
        p + 4 <= s@.len(),
    ensures
        r == le_value(s@.subrange(p as int, p + 4)),
{
    let b0 = s[p] as usize;
    let b1 = s[p + 1] as usize;
    let b2 = s[p + 2] as usize;
    let b3 = s[p + 3] as usize;
    proof {
        let t = s@.subrange(p as int, p + 4);
        reveal_with_fuel(le_value, 5);
        assert(t.drop_first() =~= s@.subrange(p + 1, p + 4));
        assert(t.drop_first().drop_first() =~= s@.subrange(p + 2, p + 4));
        assert(t.drop_first().drop_first().drop_first() =~= s@.subrange(p + 3, p + 4));
        assert(t.drop_first().drop_first().drop_first().drop_first() =~= Seq::<u8>::empty());
        assert(le_value(t) == b0 + 256 * (b1 + 256 * (b2 + 256 * b3)));
        assert(b0 + 256 * (b1 + 256 * (b2 + 256 * b3)) <= 0xffff_ffff) by (nonlinear_arith)
            requires
                b0 < 256,
                b1 < 256,
                b2 < 256,
                b3 < 256,
        ;
        vstd::layout::unsigned_int_max_values();
    }
    assert(b0 + 256 * (b1 + 256 * (b2 + 256 * b3)) <= usize::MAX) by {
        assert(usize::MAX >= 0xffff_ffff);
    }
    b0 + 256 * (b1 + 256 * (b2 + 256 * b3))
}

/// Splits a log file into its entries (start and length of each).
pub fn split_wal(bytes: &[u8]) -> (r: Result<Vec<(usize, usize)>, WalError>)
    ensures
        match wal_spans(bytes@) {
            Ok(spans) => r matches Ok(v) && v@.len() == spans.len() && forall|i: int|
                #![trigger v@[i]] 0 <= i < v@.len() ==> v@[i].0 == spans[i].0 && v@[i].1 == spans[i].1,
            Err(e) => r == Err::<Vec<(usize, usize)>, WalError>(e),
        },
{
    let n = bytes.len();
    if n < WAL_HEADER_LEN {
        return Err(WalError::UnexpectedEof);
    }
    let magic = wal_header();
    let mut i: usize = 0;
    while i < 12
        invariant
            i <= 12,
            n == bytes@.len(),
            n >= 12,
            magic@ == wal_magic(),
            bytes@.take(i as int) == wal_magic().take(i as int),
        decreases 12 - i,
    {
        if bytes[i] != magic[i] {
            assert(bytes@.take(12)[i as int] != wal_magic()[i as int]);
            return Err(WalError::InvalidHeader);
        }
        assert(bytes@.take(i + 1) =~= bytes@.take(i as int).push(bytes@[i as int]));
        assert(wal_magic().take(i + 1) =~= wal_magic().take(i as int).push(wal_magic()[i as int]));
        i = i + 1;
    }
    assert(wal_magic().take(12) =~= wal_magic());
    let ghost s = bytes@;
    let ghost whole = wal_records(s, 12);
    let mut out: Vec<(usize, usize)> = Vec::new();
    let mut pos: usize = 12;
    proof {
        assert(whole == match wal_records(s, 12) {
            Ok(rest) => Ok(Seq::<(int, int)>::empty() + rest),
            Err(e) => Err(e),
        }) by {
            match wal_records(s, 12) {
                Ok(rest) => { assert(Seq::<(int, int)>::empty() + rest =~= rest); },
                Err(e) => {},
            }
        }
    }
    while n - pos >= 4
        invariant
            s == bytes@,
            n == s.len(),
            12 <= pos <= n,
            s.take(12) == wal_magic(),
            whole == wal_records(s, 12),
            whole == match wal_records(s, pos as int) {
                Ok(rest) => Ok(out@.map_values(|p: (usize, usize)| (p.0 as int, p.1 as int)) + rest),
                Err(e) => Err(e),
            },
        decreases n - pos,
    {
        let len = read_le32(bytes, pos);
        let ghost before = out@.map_values(|p: (usize, usize)| (p.0 as int, p.1 as int));
        if n - pos - 4 < len {
            assert(wal_records(s, pos as int) == Err::<Seq<(int, int)>, WalError>(WalError::UnexpectedEof));
            return Err(WalError::UnexpectedEof);
        }
        out.push((pos + 4, len));
        proof {
            let after = out@.map_values(|p: (usize, usize)| (p.0 as int, p.1 as int));
            assert(after =~= before.push((pos + 4, len as int)));
            match wal_records(s, pos + 4 + len) {
                Ok(rest) => {
                    assert(before + (seq![(pos + 4, len as int)] + rest) =~= after + rest);
                },
                Err(e) => {},
            }
        }
        pos = pos + 4 + len;
    }
    proof {
        let m = out@.map_values(|p: (usize, usize)| (p.0 as int, p.1 as int));
        assert(m + Seq::<(int, int)>::empty() =~= m);
    }
    Ok(out)
}

/// A log entry: an insert or a delete of the fragment with this id.
#[derive(Debug, Clone)]
pub struct WalRecord<T> {
    pub insert: bool,
    pub id: FragmentId,
    pub fragment: T,
}

/// `s` without the fragments with this id.
pub open spec fn drop_id<T>(s: Seq<(FragmentId, T)>, id: FragmentId) -> Seq<(FragmentId, T)>
    decreases s.len(),
{
    if s.len() == 0 {
        Seq::empty()
    } else if s.last().0 == id {
        drop_id(s.drop_last(), id)
    } else {
        drop_id(s.drop_last(), id).push(s.last())
    }
}

/// The fragments after the entries in order: an insert appends its
/// fragment, a delete drops every fragment with its id.
pub open spec fn replay_spec<T>(recs: Seq<WalRecord<T>>) -> Seq<(FragmentId, T)>
    decreases recs.len(),
{
    if recs.len() == 0 {
        Seq::empty()
    } else {
        let prev = replay_spec(recs.drop_last());
        let r = recs.last();
        if r.insert {
            prev.push((r.id, r.fragment))
        } else {
            drop_id(prev, r.id)
        }
    }
}

proof fn lemma_drop_id_split<T>(s: Seq<(FragmentId, T)>, i: int, id: FragmentId)
    requires
        0 <= i < s.len(),
    ensures
        drop_id(s.take(i + 1), id) == if s[i].0 == id {
            drop_id(s.take(i), id)
        } else {
            drop_id(s.take(i), id).push(s[i])
        },
{
    assert(s.take(i + 1).drop_last() =~= s.take(i));
}

/// Drops, in place, the fragments with this id.
fn remove_id<T>(v: &mut Vec<(FragmentId, T)>, id: FragmentId)
    ensures
        final(v)@ == drop_id(old(v)@, id),
{
    let ghost v0 = v@;
    let mut i: usize = 0;
    let ghost mut j: int = 0;
    proof {
        assert(v0.take(0) =~= Seq::<(FragmentId, T)>::empty());
        assert(v@.take(0) =~= Seq::<(FragmentId, T)>::empty());
        assert(v0.skip(0) =~= v0);
    }
    while i < v.len()
        invariant
            0 <= j <= v0.len(),
            i <= v@.len(),
            v@.take(i as int) == drop_id(v0.take(j), id),
            v@.skip(i as int) == v0.skip(j),
        decreases v0.len() - j,
    {
        proof {
            assert(v@.skip(i as int).len() == v0.skip(j).len());
            assert(j < v0.len());
            assert(v@[i as int] == v0[j]) by {
                assert(v@.skip(i as int)[0] == v0.skip(j)[0]);
            }
            lemma_drop_id_split(v0, j, id);
        }
        if v[i].0 == id {
            let ghost before = v@;
            let _ = v.remove(i);
            proof {
                assert(v@.take(i as int) =~= before.take(i as int));
                assert(v@.skip(i as int) =~= before.skip(i as int).drop_first());
                assert(v0.skip(j + 1) =~= v0.skip(j).drop_first());
            }
        } else {
            proof {
                assert(v@.take(i + 1) =~= v@.take(i as int).push(v@[i as int]));
                assert(v@.skip(i + 1) =~= v@.skip(i as int).drop_first());
                assert(v0.skip(j + 1) =~= v0.skip(j).drop_first());
            }
            i = i + 1;
        }
        proof {
            j = j + 1;
        }
    }
    proof {
        assert(v@.skip(i as int).len() == 0);
        assert(v0.skip(j).len() == 0);
        assert(v0.take(j) =~= v0);
        assert(v@.take(i as int) =~= v@);
    }
}

/// Replays log entries into the fragments they leave.
pub fn replay<T>(records: Vec<WalRecord<T>>) -> (r: Vec<(FragmentId, T)>)
    ensures
        r@ == replay_spec(records@),
{
    let ghost all = records@;
    let mut rest = records;
    let mut out: Vec<(FragmentId, T)> = Vec::new();
    let ghost mut k: int = 0;
    proof {
        assert(all.take(0) =~= Seq::<WalRecord<T>>::empty());
        assert(all.skip(0) =~= all);
    }
    while rest.len() > 0
        invariant
            0 <= k <= all.len(),
            rest@ == all.skip(k),
            out@ == replay_spec(all.take(k)),
        decreases rest@.len(),
    {
        let rec = rest.remove(0);
        proof {
            assert(rec == all[k]);
            assert(all.take(k + 1).drop_last() =~= all.take(k));
            assert(all.skip(k + 1) =~= all.skip(k).drop_first());
        }
        if rec.insert {
            out.push((rec.id, rec.fragment));
        } else {
            remove_id(&mut out, rec.id);
        }
        proof {
            k = k + 1;
        }
    }
    assert(all.take(k) =~= all);
    out
}

/// Where the payload of an index file lies: after its 8-byte length, which
/// must fit in the file.
pub open spec fn index_payload_spec(s: Seq<u8>) -> Result<(int, int), WalError> {
    if s.len() < 8 {
        Err(WalError::UnexpectedEof)
    } else if s.len() - 8 < le_value(s.subrange(0, 8)) {
        Err(WalError::UnexpectedEof)
    } else {
        Ok((8, le_value(s.subrange(0, 8)) as int))
    }
}

/// The length prefix of an index file whose payload has `len` bytes.
pub fn index_header(len: u64) -> (r: Vec<u8>)
    ensures
        r@ == le_bytes(len as nat, 8),
{
    table_u64(len)
}

/// The start and length of an index file's payload.
pub fn index_payload(bytes: &[u8]) -> (r: Result<(usize, usize), WalError>)
    ensures
        match index_payload_spec(bytes@) {
            Ok((start, len)) => r matches Ok((a, b)) && a == start && b == len,
            Err(e) => r == Err::<(usize, usize), WalError>(e),
        },
{
    if bytes.len() < 8 {
        return Err(WalError::UnexpectedEof);
    }
    let len = read_le64(bytes, 0);
    if ((bytes.len() - 8) as u64) < len {
        return Err(WalError::UnexpectedEof);
    }
    Ok((8, len as usize))
}

} // verus!

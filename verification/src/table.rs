//! The LSM index's sorted tables: their file format (an 8-byte little-endian
//! entry count, then each entry as an 8-byte little-endian length and that
//! many bytes), what the index keeps in memory of a table (its key range,
//! its size and which fragments each source hash has in it), and the
//! fragment id that follows the tables found when the index is opened.
use vstd::prelude::*;
use std::collections::HashMap;
use crate::types::FragmentId;
use crate::frame::{le_bytes, le_value, read_le64, lemma_le_bytes_split};

verus! {

/// The ids of `entries` (pairs of id and source hash) whose source hash is
/// `h`, in order.
pub open spec fn ids_with_source(entries: Seq<(FragmentId, u64)>, h: u64) -> Seq<FragmentId>
    decreases entries.len(),
{
    if entries.len() == 0 {
        Seq::empty()
    } else if entries.last().1 == h {
        ids_with_source(entries.drop_last(), h).push(entries.last().0)
    } else {
        ids_with_source(entries.drop_last(), h)
    }
}

/// Some entry has source hash `h`.
pub open spec fn has_source(entries: Seq<(FragmentId, u64)>, h: u64) -> bool {
    exists|i: int| 0 <= i < entries.len() && #[trigger] entries[i].1 == h
}

/// The hashes of an index are strictly increasing.
pub open spec fn hashes_increasing(index: Seq<(u64, Vec<FragmentId>)>) -> bool {
    forall|i: int, j: int| 0 <= i < j < index.len() ==> #[trigger] index[i].0 < #[trigger] index[j].0
}

/// `index` groups `entries` by source hash: one group per hash that occurs,
/// in increasing order of hash, each with its ids in order.
pub open spec fn groups_entries(index: Seq<(u64, Vec<FragmentId>)>, entries: Seq<(FragmentId, u64)>) -> bool {
    &&& hashes_increasing(index)
    &&& forall|i: int| 0 <= i < index.len() ==> #[trigger] index[i].1@ == ids_with_source(entries, index[i].0)
    &&& forall|h: u64| has_source(entries, h) <==> exists|i: int| 0 <= i < index.len() && #[trigger] index[i].0 == h
}

/// The id that follows a run of tables whose largest keys are `keys`: one
/// past the largest key, and never below 1.
pub open spec fn next_id_after(keys: Seq<u64>) -> int
    decreases keys.len(),
{
    if keys.len() == 0 {
        1
    } else {
        let n = next_id_after(keys.drop_last());
        if keys.last() >= n {
            keys.last() + 1
        } else {
            n
        }
    }
}

/// The fragment id to hand out next after opening tables whose largest keys
/// are `max_keys`.
pub fn next_fragment_id_after(max_keys: &[u64]) -> (r: u64)
    requires
        forall|i: int| 0 <= i < max_keys@.len() ==> #[trigger] max_keys@[i] < u64::MAX,
    ensures
        r == next_id_after(max_keys@),
        r >= 1,
        forall|i: int| 0 <= i < max_keys@.len() ==> #[trigger] max_keys@[i] < r,
        r == 1 || exists|i: int| 0 <= i < max_keys@.len() && r == #[trigger] max_keys@[i] + 1,
{
    let mut next: u64 = 1;
    let mut i: usize = 0;
    while i < max_keys.len()
        invariant
            i <= max_keys@.len(),
            forall|j: int| 0 <= j < max_keys@.len() ==> #[trigger] max_keys@[j] < u64::MAX,
            next == next_id_after(max_keys@.take(i as int)),
            next >= 1,
            forall|j: int| 0 <= j < i ==> #[trigger] max_keys@[j] < next,
            next == 1 || exists|j: int| 0 <= j < i && next == #[trigger] max_keys@[j] + 1,
        decreases max_keys@.len() - i,
    {
        assert(max_keys@.take(i + 1).drop_last() =~= max_keys@.take(i as int));
        let k = max_keys[i];
        if k >= next {
            next = k + 1;
        }
        i += 1;
    }
    assert(max_keys@.take(i as int) =~= max_keys@);
    next
}

/// A sorted table's entry count, key range and fragments by source hash.
#[derive(Debug, Clone)]
pub struct TableSummary {
    pub entry_count: usize,
    pub min_key: FragmentId,
    pub max_key: FragmentId,
    pub source_index: Vec<(u64, Vec<FragmentId>)>,
}

impl TableSummary {
    /// The summary of a table with `entries` (id and source hash of each
    /// fragment, in the table's order). An empty table has the range from
    /// `u64::MAX` down to 0.
    pub fn of(entries: &[(FragmentId, u64)]) -> (r: Self)
        ensures
            r.entry_count == entries@.len(),
            entries@.len() == 0 ==> r.min_key == u64::MAX && r.max_key == 0,
            forall|i: int| 0 <= i < entries@.len() ==> r.min_key <= #[trigger] entries@[i].0 <= r.max_key,
            entries@.len() > 0 ==> exists|i: int| 0 <= i < entries@.len() && #[trigger] entries@[i].0 == r.min_key,
            entries@.len() > 0 ==> exists|i: int| 0 <= i < entries@.len() && #[trigger] entries@[i].0 == r.max_key,
            groups_entries(r.source_index@, entries@),
    {
        let mut min_key: u64 = u64::MAX;
        let mut max_key: u64 = 0;
        let mut index: Vec<(u64, Vec<FragmentId>)> = Vec::new();
        let mut k: usize = 0;
        while k < entries.len()
            invariant
                k <= entries@.len(),
                forall|i: int| 0 <= i < k ==> min_key <= #[trigger] entries@[i].0 <= max_key,
                k == 0 ==> min_key == u64::MAX && max_key == 0,
                k > 0 ==> exists|i: int| 0 <= i < k && #[trigger] entries@[i].0 == min_key,
                k > 0 ==> exists|i: int| 0 <= i < k && #[trigger] entries@[i].0 == max_key,
                groups_entries(index@, entries@.take(k as int)),
            decreases entries@.len() - k,
        {
            let (id, h) = entries[k];
            let ghost before = entries@.take(k as int);
            let ghost after = entries@.take(k + 1);
            assert(after.drop_last() =~= before);
            assert(after.last() == (id, h));
            if id < min_key {
                min_key = id;
            }
            if id > max_key {
                max_key = id;
            }
            let ghost old_index = index@;
            let mut pos: usize = 0;
            while pos < index.len() && index[pos].0 < h
                invariant
                    pos <= index@.len(),
                    index@ == old_index,
                    forall|j: int| 0 <= j < pos ==> #[trigger] index@[j].0 < h,
                decreases index@.len() - pos,
            {
                pos += 1;
            }
            if pos < index.len() && index[pos].0 == h {
                let (hh, mut ids) = index.remove(pos);
                ids.push(id);
                index.insert(pos, (hh, ids));
                proof {
                    assert forall|i: int| 0 <= i < index@.len() implies #[trigger] index@[i].1@
                        == ids_with_source(after, index@[i].0) by {
                        if i != pos {
                            assert(index@[i] == old_index[i]);
                        }
                    }
                    assert forall|hx: u64| has_source(after, hx) <==> exists|i: int|
                        0 <= i < index@.len() && #[trigger] index@[i].0 == hx by {
                        if has_source(after, hx) {
                            let w = choose|w: int| 0 <= w < after.len() && #[trigger] after[w].1 == hx;
                            if w < before.len() {
                                assert(before[w].1 == hx);
                                assert(has_source(before, hx));
                                let i = choose|i: int| 0 <= i < old_index.len() && #[trigger] old_index[i].0 == hx;
                                assert(index@[i].0 == hx);
                            } else {
                                assert(index@[pos as int].0 == hx);
                            }
                        }
                        if exists|i: int| 0 <= i < index@.len() && #[trigger] index@[i].0 == hx {
                            let i = choose|i: int| 0 <= i < index@.len() && #[trigger] index@[i].0 == hx;
                            assert(old_index[i].0 == hx);
                            assert(has_source(before, hx));
                            let w = choose|w: int| 0 <= w < before.len() && #[trigger] before[w].1 == hx;
                            assert(after[w].1 == hx);
                        }
                    }
                }
            } else {
                let mut ids: Vec<FragmentId> = Vec::new();
                ids.push(id);
                index.insert(pos, (h, ids));
                proof {
                    assert(!has_source(before, h)) by {
                        if has_source(before, h) {
                            let i = choose|i: int| 0 <= i < old_index.len() && #[trigger] old_index[i].0 == h;
                            if i < pos {
                                assert(old_index[i].0 < h);
                            } else {
                                assert(old_index[pos as int].0 <= old_index[i].0);
                            }
                        }
                    }
                    lemma_no_source_no_ids(before, h);
                    assert(ids_with_source(after, h) =~= seq![id]);
                    assert forall|i: int, j: int| 0 <= i < j < index@.len() implies
                        #[trigger] index@[i].0 < #[trigger] index@[j].0 by {
                        if j < pos {
                        } else if j == pos {
                        } else if i < pos {
                            assert(old_index[i].0 < h);
                            assert(old_index[pos as int].0 <= old_index[j - 1].0);
                        } else if i == pos {
                            assert(old_index[pos as int].0 <= old_index[j - 1].0);
                        } else {
                            assert(old_index[i - 1].0 < old_index[j - 1].0);
                        }
                    }
                    assert forall|i: int| 0 <= i < index@.len() implies #[trigger] index@[i].1@
                        == ids_with_source(after, index@[i].0) by {
                        if i != pos {
                            let oi = if i < pos { i } else { i - 1 };
                            assert(index@[i] == old_index[oi]);
                            assert(has_source(before, old_index[oi].0));
                            assert(old_index[oi].0 != h);
                            assert(old_index[oi].1@ == ids_with_source(before, old_index[oi].0));
                        }
                    }
                    assert forall|hx: u64| has_source(after, hx) <==> exists|i: int|
                        0 <= i < index@.len() && #[trigger] index@[i].0 == hx by {
                        if has_source(after, hx) {
                            let w = choose|w: int| 0 <= w < after.len() && #[trigger] after[w].1 == hx;
                            if w < before.len() {
                                assert(before[w].1 == hx);
                                assert(has_source(before, hx));
                                let i = choose|i: int| 0 <= i < old_index.len() && #[trigger] old_index[i].0 == hx;
                                if i < pos {
                                    assert(index@[i].0 == hx);
                                } else {
                                    assert(index@[i + 1].0 == hx);
                                }
                            } else {
                                assert(index@[pos as int].0 == hx);
                            }
                        }
                        if exists|i: int| 0 <= i < index@.len() && #[trigger] index@[i].0 == hx {
                            let i = choose|i: int| 0 <= i < index@.len() && #[trigger] index@[i].0 == hx;
                            if i == pos {
                                assert(after[k as int].1 == hx);
                            } else {
                                let oi = if i < pos { i } else { i - 1 };
                                assert(old_index[oi].0 == hx);
                                assert(has_source(before, hx));
                                let w = choose|w: int| 0 <= w < before.len() && #[trigger] before[w].1 == hx;
                                assert(after[w].1 == hx);
                            }
                        }
                    }
                }
            }
            k += 1;
        }
        assert(entries@.take(k as int) =~= entries@);
        TableSummary { entry_count: entries.len(), min_key, max_key, source_index: index }
    }

    /// Whether `id` lies in the table's key range.
    pub fn may_contain(&self, id: FragmentId) -> (r: bool)
        ensures
            r == (self.min_key <= id && id <= self.max_key),
    {
        self.min_key <= id && id <= self.max_key
    }

    /// The ids with source hash `h`, if the table has any.
    pub fn ids_for_source(&self, h: u64) -> (r: Option<&Vec<FragmentId>>)
        ensures
            r is Some <==> exists|i: int| 0 <= i < self.source_index@.len() && #[trigger] self.source_index@[i].0 == h,
            r matches Some(v) ==> exists|i: int| 0 <= i < self.source_index@.len()
                && #[trigger] self.source_index@[i].0 == h && *v == self.source_index@[i].1,
    {
        let mut i: usize = 0;
        while i < self.source_index.len()
            invariant
                i <= self.source_index@.len(),
                forall|j: int| 0 <= j < i ==> #[trigger] self.source_index@[j].0 != h,
            decreases self.source_index@.len() - i,
        {
            if self.source_index[i].0 == h {
                return Some(&self.source_index[i].1);
            }
            i += 1;
        }
        None
    }

    /// The source hashes of the table, in its index's order.
    pub fn source_hashes(&self) -> (r: Vec<u64>)
        ensures
            r@.len() == self.source_index@.len(),
            forall|i: int| 0 <= i < r@.len() ==> #[trigger] r@[i] == self.source_index@[i].0,
    {
        let mut r: Vec<u64> = Vec::new();
        let mut i: usize = 0;
        while i < self.source_index.len()
            invariant
                i <= self.source_index@.len(),
                r@.len() == i,
                forall|j: int| 0 <= j < i ==> #[trigger] r@[j] == self.source_index@[j].0,
            decreases self.source_index@.len() - i,
        {
            r.push(self.source_index[i].0);
            i += 1;
        }
        r
    }
}

/// No entry with source hash `h`: no ids for it.
proof fn lemma_no_source_no_ids(entries: Seq<(FragmentId, u64)>, h: u64)
    requires
        !has_source(entries, h),
    ensures
        ids_with_source(entries, h) == Seq::<FragmentId>::empty(),
    decreases entries.len(),
{
    if entries.len() > 0 {
        let rest = entries.drop_last();
        assert(!has_source(rest, h)) by {
            if has_source(rest, h) {
                let w = choose|w: int| 0 <= w < rest.len() && #[trigger] rest[w].1 == h;
                assert(entries[w].1 == h);
            }
        }
        assert(entries[entries.len() - 1].1 != h);
        lemma_no_source_no_ids(rest, h);
    }
}

/// Why a table file could not be split into its entries.
#[derive(Debug, Clone, Copy, PartialEq, Eq, Structural)]
pub enum TableError {
    /// The file ends before an entry count, a length or an entry does.
    UnexpectedEof,
}

/// `count` entries from `pos`, as (start, length) of each entry's bytes.
pub open spec fn table_entries(s: Seq<u8>, pos: int, count: nat) -> Result<Seq<(int, int)>, TableError>
    decreases count,
{
    if count == 0 {
        Ok(Seq::empty())
    } else if pos < 0 || s.len() - pos < 8 {
        Err(TableError::UnexpectedEof)
    } else {
        let n = le_value(s.subrange(pos, pos + 8)) as int;
        if s.len() - pos - 8 < n {
            Err(TableError::UnexpectedEof)
        } else {
            match table_entries(s, pos + 8 + n, (count - 1) as nat) {
                Ok(rest) => Ok(seq![(pos + 8, n)] + rest),
                Err(e) => Err(e),
            }
        }
    }
}

/// A whole table file: its entry count and its entries (bytes after the
/// last entry are not read).
pub open spec fn table_spec(s: Seq<u8>) -> Result<(nat, Seq<(int, int)>), TableError> {
    if s.len() < 8 {
        Err(TableError::UnexpectedEof)
    } else {
        let c = le_value(s.subrange(0, 8));
        match table_entries(s, 8, c) {
            Ok(e) => Ok((c, e)),
            Err(e) => Err(e),
        }
    }
}

/// The entries from `pos` on as a lookup scans them, and whether the scan
/// ran into an entry that goes past the end: the scan stops where fewer than
/// 8 bytes are left for a length, or at such an entry.
pub open spec fn scan_entries(s: Seq<u8>, pos: int) -> (Seq<(int, int)>, bool)
    decreases s.len() - pos,
{
    if pos < 0 || s.len() - pos < 8 {
        (Seq::empty(), false)
    } else {
        let n = le_value(s.subrange(pos, pos + 8)) as int;
        if s.len() - pos - 8 < n {
            (Seq::empty(), true)
        } else {
            let rest = scan_entries(s, pos + 8 + n);
            (seq![(pos + 8, n)] + rest.0, rest.1)
        }
    }
}

/// A table file as a lookup scans it: the count must be there; the entries
/// are read towards the end of the file.
pub open spec fn scan_spec(s: Seq<u8>) -> Result<(Seq<(int, int)>, bool), TableError> {
    if s.len() < 8 {
        Err(TableError::UnexpectedEof)
    } else {
        Ok(scan_entries(s, 8))
    }
}

/// The spans as integers.
pub open spec fn spans_view(v: Seq<(usize, usize)>) -> Seq<(int, int)> {
    v.map_values(|p: (usize, usize)| (p.0 as int, p.1 as int))
}

/// `x` as the 8 little-endian bytes a table writes for a count or a length.
pub fn table_u64(x: u64) -> (r: Vec<u8>)
    ensures
        r@ == le_bytes(x as nat, 8),
{
    let mut h: Vec<u8> = Vec::new();
    let mut y: u64 = x;
    let mut k: usize = 0;
    assert(le_bytes(x as nat, 0) == Seq::<u8>::empty());
    assert(le_bytes(x as nat, 8) == le_bytes(x as nat, 0) + le_bytes(x as nat, 8));
    while k < 8
        invariant
            k <= 8,
            h@ == le_bytes(x as nat, k as nat),
            le_bytes(x as nat, 8) == le_bytes(x as nat, k as nat) + le_bytes(y as nat, (8 - k) as nat),
        decreases 8 - k,
    {
        let b = (y % 256) as u8;
        proof {
            lemma_le_bytes_split(x as nat, k as nat, y as nat);
        }
        h.push(b);
        y = y / 256;
        k = k + 1;
    }
    proof {
        assert(le_bytes(y as nat, 0) == Seq::<u8>::empty());
        assert(le_bytes(x as nat, 8) == le_bytes(x as nat, 8) + Seq::<u8>::empty());
    }
    h
}

/// Splits a table file into its entry count and its entries (start and
/// length of each).
pub fn split_table(bytes: &[u8]) -> (r: Result<(u64, Vec<(usize, usize)>), TableError>)
    ensures
        match table_spec(bytes@) {
            Ok((c, spans)) => r matches Ok((rc, v)) && rc == c && spans_view(v@) == spans,
            Err(e) => r == Err::<(u64, Vec<(usize, usize)>), TableError>(e),
        },
{
    let n = bytes.len();
    if n < 8 {
        return Err(TableError::UnexpectedEof);
    }
    let count = read_le64(bytes, 0);
    let ghost s = bytes@;
    let ghost whole = table_entries(s, 8, count as nat);
    let mut out: Vec<(usize, usize)> = Vec::new();
    let mut pos: usize = 8;
    let mut i: u64 = 0;
    proof {
        assert(whole == match table_entries(s, 8, count as nat) {
            Ok(rest) => Ok(spans_view(out@) + rest),
            Err(e) => Err(e),
        }) by {
            match table_entries(s, 8, count as nat) {
                Ok(rest) => { assert(spans_view(out@) + rest =~= rest); },
                Err(e) => {},
            }
        }
    }
    while i < count
        invariant
            s == bytes@,
            n == s.len(),
            8 <= pos <= n,
            i <= count,
            count == le_value(s.subrange(0, 8)),
            whole == table_entries(s, 8, count as nat),
            whole == match table_entries(s, pos as int, (count - i) as nat) {
                Ok(rest) => Ok(spans_view(out@) + rest),
                Err(e) => Err(e),
            },
        decreases count - i,
    {
        if n - pos < 8 {
            assert(table_entries(s, pos as int, (count - i) as nat) == Err::<Seq<(int, int)>, TableError>(TableError::UnexpectedEof));
            return Err(TableError::UnexpectedEof);
        }
        let len = read_le64(bytes, pos);
        let ghost before = spans_view(out@);
        if ((n - pos - 8) as u64) < len {
            assert(table_entries(s, pos as int, (count - i) as nat) == Err::<Seq<(int, int)>, TableError>(TableError::UnexpectedEof));
            return Err(TableError::UnexpectedEof);
        }
        let l = len as usize;
        out.push((pos + 8, l));
        proof {
            let after = spans_view(out@);
            assert(after =~= before.push((pos + 8, l as int)));
            match table_entries(s, pos + 8 + l, (count - i - 1) as nat) {
                Ok(rest) => {
                    assert(before + (seq![(pos + 8, l as int)] + rest) =~= after + rest);
                },
                Err(e) => {},
            }
        }
        pos = pos + 8 + l;
        i = i + 1;
    }
    proof {
        let m = spans_view(out@);
        assert(table_entries(s, pos as int, 0) == Ok::<Seq<(int, int)>, TableError>(Seq::empty()));
        assert(m + Seq::<(int, int)>::empty() =~= m);
    }
    Ok((count, out))
}

/// Splits a table file as a lookup scans it (see `scan_spec`): the whole
/// entries, and whether an entry runs past the end of the file.
pub fn scan_table(bytes: &[u8]) -> (r: Result<(Vec<(usize, usize)>, bool), TableError>)
    ensures
        match scan_spec(bytes@) {
            Ok((spans, cut)) => r matches Ok((v, c)) && spans_view(v@) == spans && c == cut,
            Err(e) => r == Err::<(Vec<(usize, usize)>, bool), TableError>(e),
        },
{
    let n = bytes.len();
    if n < 8 {
        return Err(TableError::UnexpectedEof);
    }
    let ghost s = bytes@;
    let ghost whole = scan_entries(s, 8);
    let mut out: Vec<(usize, usize)> = Vec::new();
    let mut pos: usize = 8;
    assert(spans_view(out@) + scan_entries(s, 8).0 =~= whole.0);
    while n - pos >= 8
        invariant
            s == bytes@,
            n == s.len(),
            8 <= pos <= n,
            whole == scan_entries(s, 8),
            whole.0 == spans_view(out@) + scan_entries(s, pos as int).0,
            whole.1 == scan_entries(s, pos as int).1,
        decreases n - pos,
    {
        let len = read_le64(bytes, pos);
        let ghost before = spans_view(out@);
        if ((n - pos - 8) as u64) < len {
            assert(before + Seq::<(int, int)>::empty() =~= before);
            return Ok((out, true));
        }
        let l = len as usize;
        out.push((pos + 8, l));
        proof {
            let after = spans_view(out@);
            assert(after =~= before.push((pos + 8, l as int)));
            let rest = scan_entries(s, pos + 8 + l);
            assert(before + (seq![(pos + 8, l as int)] + rest.0) =~= after + rest.0);
        }
        pos = pos + 8 + l;
    }
    proof {
        let m = spans_view(out@);
        assert(m + Seq::<(int, int)>::empty() =~= m);
    }
    Ok((out, false))
}

/// Which copy of each id a merge keeps, for copies listed as (id, position)
/// in table order: the last copy of an id when `newest_wins`, else the
/// first.
pub open spec fn kept_copies(entries: Seq<(FragmentId, usize)>, newest_wins: bool) -> Map<FragmentId, usize>
    decreases entries.len(),
{
    if entries.len() == 0 {
        Map::empty()
    } else {
        let m = kept_copies(entries.drop_last(), newest_wins);
        let e = entries.last();
        if newest_wins || !m.contains_key(e.0) {
            m.insert(e.0, e.1)
        } else {
            m
        }
    }
}

/// The copy a merge of tables keeps for each id (see `kept_copies`):
/// compacting level 0 keeps the newest copy, rewriting all tables after a
/// removal keeps the first one met.
pub fn keep_copies(entries: &[(FragmentId, usize)], newest_wins: bool) -> (r: HashMap<FragmentId, usize>)
    ensures
        r@ == kept_copies(entries@, newest_wins),
{
    let mut m: HashMap<FragmentId, usize> = HashMap::new();
    let mut i: usize = 0;
    while i < entries.len()
        invariant
            i <= entries@.len(),
            m@ == kept_copies(entries@.take(i as int), newest_wins),
        decreases entries@.len() - i,
    {
        proof {
            assert(entries@.take(i + 1).drop_last() =~= entries@.take(i as int));
        }
        let (id, pos) = entries[i];
        if newest_wins || !m.contains_key(&id) {
            m.insert(id, pos);
        }
        i += 1;
    }
    assert(entries@.take(i as int) =~= entries@);
    m
}

/// A merge keeps exactly one copy of every id that has one, and it is the
/// last (or first) copy listed.
pub proof fn lemma_kept_copies(entries: Seq<(FragmentId, usize)>, newest_wins: bool, id: FragmentId)
    ensures
        kept_copies(entries, newest_wins).contains_key(id) <==> exists|k: int| 0 <= k < entries.len() && #[trigger] entries[k].0 == id,
        kept_copies(entries, newest_wins).contains_key(id) ==> exists|k: int| {
            &&& 0 <= k < entries.len()
            &&& #[trigger] entries[k].0 == id
            &&& kept_copies(entries, newest_wins)[id] == entries[k].1
            &&& newest_wins ==> forall|j: int| k < j < entries.len() ==> entries[j].0 != id
            &&& !newest_wins ==> forall|j: int| 0 <= j < k ==> entries[j].0 != id
        },
    decreases entries.len(),
{
    if entries.len() > 0 {
        let r = entries.drop_last();
        let e = entries.last();
        let n = entries.len() - 1;
        lemma_kept_copies(r, newest_wins, id);
        let m = kept_copies(r, newest_wins);
        let kept = kept_copies(entries, newest_wins);
        if e.0 == id && (newest_wins || !m.contains_key(id)) {
            assert(entries[n].0 == id);
            assert(kept[id] == entries[n].1);
            if !newest_wins {
                assert forall|j: int| 0 <= j < n implies entries[j].0 != id by {
                    if entries[j].0 == id {
                        assert(r[j].0 == id);
                    }
                }
            }
        } else if m.contains_key(id) {
            let k = choose|k: int| {
                &&& 0 <= k < r.len()
                &&& #[trigger] r[k].0 == id
                &&& m[id] == r[k].1
                &&& newest_wins ==> forall|j: int| k < j < r.len() ==> r[j].0 != id
                &&& !newest_wins ==> forall|j: int| 0 <= j < k ==> r[j].0 != id
            };
            assert(entries[k] == r[k]);
            assert(kept[id] == entries[k].1);
            if newest_wins {
                assert(e.0 != id);
                assert forall|j: int| k < j < entries.len() implies entries[j].0 != id by {
                    if j < n {
                        assert(entries[j] == r[j]);
                    }
                }
            } else {
                assert forall|j: int| 0 <= j < k implies entries[j].0 != id by {
                    assert(entries[j] == r[j]);
                }
            }
        }
        if exists|k: int| 0 <= k < entries.len() && #[trigger] entries[k].0 == id {
            let k = choose|k: int| 0 <= k < entries.len() && #[trigger] entries[k].0 == id;
            if k < n {
                assert(r[k].0 == id);
            }
        }
    }
}

} // verus!

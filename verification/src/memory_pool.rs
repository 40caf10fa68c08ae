//! A bump-allocating memory pool: chunks of bytes handed out in 64-byte
//! aligned blocks, reclaimed all at once.
use vstd::prelude::*;

verus! {

/// `size` rounded up to a multiple of 64.
pub open spec fn align64(size: nat) -> nat {
    ((size + 63) / 64 * 64) as nat
}

/// The first chunk (used, capacity) with room for `a` more bytes.
pub open spec fn first_fit(chunks: Seq<(usize, usize)>, a: nat) -> Option<int>
    decreases chunks.len(),
{
    if chunks.len() == 0 {
        None
    } else {
        match first_fit(chunks.drop_last(), a) {
            Some(k) => Some(k),
            None => if chunks.last().0 + a <= chunks.last().1 { Some(chunks.len() - 1) } else { None },
        }
    }
}

pub open spec fn sum_used(chunks: Seq<(usize, usize)>) -> nat
    decreases chunks.len(),
{
    if chunks.len() == 0 { 0 } else { sum_used(chunks.drop_last()) + chunks.last().0 as nat }
}

pub open spec fn sum_capacity(chunks: Seq<(usize, usize)>) -> nat
    decreases chunks.len(),
{
    if chunks.len() == 0 { 0 } else { sum_capacity(chunks.drop_last()) + chunks.last().1 as nat }
}

/// Where a block lies: its chunk and its offset in that chunk.
#[derive(Debug, Clone, Copy, PartialEq, Eq, Structural)]
pub struct PoolBlock {
    pub chunk: usize,
    pub offset: usize,
}

struct PoolChunk {
    buffer: Vec<u8>,
    used: usize,
    capacity: usize,
}

impl PoolChunk {
    /// A chunk of `size` zeroed bytes.
    fn new(size: usize) -> (r: Self)
        ensures
            r.used == 0,
            r.capacity == size,
            r.buffer@ == Seq::new(size as nat, |_j: int| 0u8),
    {
        let mut buffer: Vec<u8> = Vec::new();
        let mut i: usize = 0;
        while i < size
            invariant
                i <= size,
                buffer@ == Seq::new(i as nat, |_j: int| 0u8),
            decreases size - i,
        {
            buffer.push(0);
            i = i + 1;
            assert(buffer@ =~= Seq::new(i as nat, |_j: int| 0u8));
        }
        PoolChunk { buffer, used: 0, capacity: size }
    }

    /// Takes the next `size` bytes, rounded up to 64, if they fit.
    fn allocate(&mut self, size: usize) -> (r: Option<usize>)
        requires
            old(self).used <= old(self).capacity,
            size + 63 <= usize::MAX,
        ensures
            final(self).capacity == old(self).capacity,
            final(self).buffer == old(self).buffer,
            final(self).used <= final(self).capacity,
            old(self).used % 64 == 0 ==> final(self).used % 64 == 0,
            old(self).used + align64(size as nat) <= old(self).capacity ==> r == Some(old(self).used)
                && final(self).used == old(self).used + align64(size as nat),
            old(self).used + align64(size as nat) > old(self).capacity ==> r is None && final(self).used == old(self).used,
    {
        let aligned = (size + 63) / 64 * 64;
        proof {
            lemma_align64(size as nat);
        }
        if aligned > self.capacity - self.used {
            return None;
        }
        let offset = self.used;
        self.used = self.used + aligned;
        Some(offset)
    }
}

/// A memory pool: chunks of `default_chunk_size` bytes (or larger for a
/// larger request), filled front to back.
pub struct MemoryPool {
    chunks: Vec<PoolChunk>,
    default_chunk_size: usize,
}

impl MemoryPool {
    /// The chunks as (bytes used, capacity).
    pub closed spec fn chunks(&self) -> Seq<(usize, usize)> {
        self.chunks@.map_values(|c: PoolChunk| (c.used, c.capacity))
    }

    pub closed spec fn default_size(&self) -> usize {
        self.default_chunk_size
    }

    /// Each chunk's use is within its capacity, and the capacities add up to
    /// an amount that fits in memory.
    /// The bytes of each chunk.
    pub closed spec fn contents(&self) -> Seq<Seq<u8>> {
        self.chunks@.map_values(|c: PoolChunk| c.buffer@)
    }

    /// Each chunk's use is within its capacity and a multiple of 64 (so
    /// every block starts 64-byte aligned), each chunk holds as many bytes
    /// as its capacity, and the capacities add up to an amount that fits in
    /// memory.
    pub closed spec fn wf(&self) -> bool {
        &&& forall|i: int| 0 <= i < self.chunks@.len() ==> #[trigger] self.chunks@[i].used <= self.chunks@[i].capacity
        &&& forall|i: int| 0 <= i < self.chunks@.len() ==> #[trigger] self.chunks@[i].used % 64 == 0
        &&& forall|i: int| 0 <= i < self.chunks@.len() ==> #[trigger] self.chunks@[i].buffer@.len() == self.chunks@[i].capacity
        &&& sum_capacity(self.chunks()) <= usize::MAX
    }

    pub fn new(default_chunk_size: usize) -> (r: Self)
        ensures
            r.wf(),
            r.chunks() == Seq::<(usize, usize)>::empty(),
            r.contents() == Seq::<Seq<u8>>::empty(),
            r.default_size() == default_chunk_size,
    {
        let r = MemoryPool { chunks: Vec::new(), default_chunk_size };
        assert(r.chunks() =~= Seq::<(usize, usize)>::empty());
        assert(r.contents() =~= Seq::<Seq<u8>>::empty());
        r
    }

    /// Takes a block of `size` bytes (rounded up to 64) from the first chunk
    /// with room, or from a new chunk of `max(size, default)` bytes.
    pub fn allocate(&mut self, size: usize) -> (r: PoolBlock)
        requires
            old(self).wf(),
            size + 63 <= usize::MAX,
            first_fit(old(self).chunks(), align64(size as nat)) is None ==> {
                let cs = if size >= old(self).default_size() { size } else { old(self).default_size() };
                &&& align64(size as nat) <= cs
                &&& sum_capacity(old(self).chunks()) + cs <= usize::MAX
            },
        ensures
            final(self).wf(),
            final(self).default_size() == old(self).default_size(),
            r.offset % 64 == 0,
            match first_fit(old(self).chunks(), align64(size as nat)) {
                Some(k) => {
                    &&& r == PoolBlock { chunk: k as usize, offset: old(self).chunks()[k].0 }
                    &&& final(self).contents() == old(self).contents()
                    &&& final(self).chunks() == old(self).chunks().update(
                        k,
                        ((old(self).chunks()[k].0 + align64(size as nat)) as usize, old(self).chunks()[k].1),
                    )
                },
                None => {
                    let cs = if size >= old(self).default_size() { size } else { old(self).default_size() };
                    &&& r == PoolBlock { chunk: old(self).chunks().len() as usize, offset: 0 }
                    &&& final(self).chunks() == old(self).chunks().push((align64(size as nat) as usize, cs))
                    &&& final(self).contents() == old(self).contents().push(Seq::new(cs as nat, |_j: int| 0u8))
                },
            },
    {
        let ghost a = align64(size as nat);
        let ghost c0 = self.chunks();
        let ghost b0 = self.contents();
        let mut i: usize = 0;
        while i < self.chunks.len()
            invariant
                self.wf(),
                self.chunks() == c0,
                self.contents() == b0,
                b0 == old(self).contents(),
                self.default_chunk_size == old(self).default_chunk_size,
                c0 == old(self).chunks(),
                size + 63 <= usize::MAX,
                a == align64(size as nat),
                i <= self.chunks@.len(),
                first_fit(c0.take(i as int), a) is None,
            decreases self.chunks@.len() - i,
        {
            proof {
                assert(c0.take(i + 1).drop_last() == c0.take(i as int));
                assert(c0[i as int] == (self.chunks@[i as int].used, self.chunks@[i as int].capacity));
                assert(self.chunks@[i as int].used <= self.chunks@[i as int].capacity);
                assert(self.chunks@[i as int].used % 64 == 0);
            }
            let ghost before = self.chunks@;
            let res = self.chunks[i].allocate_at_mut(size);
            match res {
                Some(off) => {
                    proof {
                        lemma_first_fit_found(c0, a, i as int);
                        assert(self.chunks() =~= c0.update(i as int, ((c0[i as int].0 + a) as usize, c0[i as int].1)));
                        assert(self.contents() =~= b0);
                        assert forall|j: int| 0 <= j < self.chunks@.len() implies {
                            &&& #[trigger] self.chunks@[j].used % 64 == 0
                            &&& self.chunks@[j].buffer@.len() == self.chunks@[j].capacity
                        } by {
                            if j != i {
                                assert(self.chunks@[j] == before[j]);
                            }
                        }
                        lemma_sum_capacity_update(c0, i as int, ((c0[i as int].0 + a) as usize, c0[i as int].1));
                    }
                    return PoolBlock { chunk: i, offset: off };
                },
                None => {
                    proof {
                        lemma_first_fit_step(c0, a, i as int);
                        assert(self.chunks() =~= c0);
                        assert(self.contents() =~= b0);
                        assert forall|j: int| 0 <= j < self.chunks@.len() implies {
                            &&& #[trigger] self.chunks@[j].used % 64 == 0
                            &&& self.chunks@[j].buffer@.len() == self.chunks@[j].capacity
                        } by {
                            if j != i {
                                assert(self.chunks@[j] == before[j]);
                            }
                        }
                    }
                },
            }
            i = i + 1;
        }
        proof {
            assert(c0.take(c0.len() as int) == c0);
            lemma_first_fit_split(c0, a, c0.len() as int);
        }
        let chunk_size = if size >= self.default_chunk_size { size } else { self.default_chunk_size };
        let mut chunk = PoolChunk::new(chunk_size);
        let off = chunk.allocate(size);
        assert(off == Some(0usize));
        let ghost before_push = self.chunks@;
        self.chunks.push(chunk);
        proof {
            assert(self.chunks() =~= c0.push((a as usize, chunk_size)));
            assert forall|j: int| 0 <= j < self.chunks@.len() implies #[trigger] self.chunks@[j].used <= self.chunks@[j].capacity by {
                if j < c0.len() {
                    assert(self.chunks()[j] == c0[j]);
                    assert(self.chunks()[j] == (self.chunks@[j].used, self.chunks@[j].capacity));
                }
            }
            assert forall|j: int| 0 <= j < self.chunks@.len() implies {
                &&& #[trigger] self.chunks@[j].used % 64 == 0
                &&& self.chunks@[j].buffer@.len() == self.chunks@[j].capacity
            } by {
                if j < c0.len() {
                    assert(self.chunks@[j] == before_push[j]);
                }
            }
            assert(self.contents() =~= b0.push(Seq::new(chunk_size as nat, |_j: int| 0u8)));
        }
        proof {
            assert(self.chunks() =~= c0.push((a as usize, chunk_size)));
            assert(self.chunks().drop_last() == c0);
        }
        PoolBlock { chunk: i, offset: 0 }
    }

    /// Frees every block: all chunks are empty again.
    pub fn reset(&mut self)
        requires
            old(self).wf(),
        ensures
            final(self).wf(),
            final(self).default_size() == old(self).default_size(),
            final(self).chunks().len() == old(self).chunks().len(),
            forall|i: int| 0 <= i < final(self).chunks().len() ==> final(self).chunks()[i] == (0usize, old(self).chunks()[i].1),
            final(self).contents() == old(self).contents(),
    {
        let ghost c0 = self.chunks();
        let ghost b0 = self.contents();
        let mut i: usize = 0;
        while i < self.chunks.len()
            invariant
                i <= self.chunks@.len(),
                self.chunks@.len() == c0.len(),
                self.default_chunk_size == old(self).default_chunk_size,
                c0 == old(self).chunks(),
                forall|j: int| 0 <= j < i ==> #[trigger] self.chunks()[j] == (0usize, c0[j].1),
                forall|j: int| i <= j < self.chunks@.len() ==> #[trigger] self.chunks()[j] == c0[j],
                forall|j: int| 0 <= j < self.chunks@.len() ==> #[trigger] self.chunks@[j].used <= self.chunks@[j].capacity,
                forall|j: int| 0 <= j < self.chunks@.len() ==> #[trigger] self.chunks@[j].used % 64 == 0,
                forall|j: int| 0 <= j < self.chunks@.len() ==> #[trigger] self.chunks@[j].buffer@.len() == self.chunks@[j].capacity,
                self.contents() == b0,
                b0 == old(self).contents(),
            decreases self.chunks@.len() - i,
        {
            let ghost before = self.chunks();
            let ghost bv = self.chunks@;
            let mut c = self.chunks.remove(i);
            c.used = 0;
            self.chunks.insert(i, c);
            assert(self.chunks() =~= before.update(i as int, (0usize, before[i as int].1)));
            assert(self.contents() =~= b0);
            assert forall|j: int| 0 <= j < self.chunks@.len() implies {
                &&& #[trigger] self.chunks@[j].used <= self.chunks@[j].capacity
                &&& self.chunks@[j].used % 64 == 0
                &&& self.chunks@[j].buffer@.len() == self.chunks@[j].capacity
            } by {
                if j != i {
                    assert(self.chunks@[j] == bv[j]);
                }
            }
            i = i + 1;
        }
        proof {
            assert forall|j: int| 0 <= j < c0.len() implies self.chunks()[j].1 == c0[j].1 by {}
            lemma_same_capacities(self.chunks(), c0);
        }
    }

    /// Writes `data` into chunk `block.chunk` from `block.offset` on.
    pub fn write_block(&mut self, block: PoolBlock, data: &[u8])
        requires
            old(self).wf(),
            block.chunk < old(self).chunks().len(),
            block.offset + data@.len() <= old(self).chunks()[block.chunk as int].1,
        ensures
            final(self).wf(),
            final(self).chunks() == old(self).chunks(),
            final(self).default_size() == old(self).default_size(),
            final(self).contents() == old(self).contents().update(
                block.chunk as int,
                old(self).contents()[block.chunk as int].take(block.offset as int) + data@
                    + old(self).contents()[block.chunk as int].skip(block.offset + data@.len()),
            ),
    {
        let ghost cs = self.chunks@;
        let ghost b0 = self.contents();
        let ghost c0 = self.chunks();
        let k = block.chunk;
        let off = block.offset;
        assert(c0[k as int] == (cs[k as int].used, cs[k as int].capacity));
        let mut c = self.chunks.remove(k);
        let ghost buf0 = c.buffer@;
        assert(buf0 == b0[k as int]);
        let mut j: usize = 0;
        while j < data.len()
            invariant
                j <= data@.len(),
                off + data@.len() <= c.capacity,
                c.buffer@.len() == c.capacity,
                buf0.len() == c.capacity,
                c.capacity == cs[k as int].capacity,
                c.used == cs[k as int].used,
                forall|t: int| 0 <= t < c.capacity ==> #[trigger] c.buffer@[t]
                    == if off <= t < off + j { data@[t - off] } else { buf0[t] },
            decreases data@.len() - j,
        {
            c.buffer.set(off + j, data[j]);
            j = j + 1;
        }
        assert(c.buffer@ =~= buf0.take(off as int) + data@ + buf0.skip(off + data@.len()));
        self.chunks.insert(k, c);
        proof {
            assert(self.chunks() =~= c0);
            assert(self.contents() =~= b0.update(k as int, buf0.take(off as int) + data@ + buf0.skip(off + data@.len())));
            assert forall|t: int| 0 <= t < self.chunks@.len() implies {
                &&& #[trigger] self.chunks@[t].used <= self.chunks@[t].capacity
                &&& self.chunks@[t].used % 64 == 0
                &&& self.chunks@[t].buffer@.len() == self.chunks@[t].capacity
            } by {
                if t != k {
                    assert(self.chunks@[t] == cs[t]);
                }
            }
        }
    }

    /// The `len` bytes of chunk `block.chunk` from `block.offset` on.
    pub fn read_block(&self, block: PoolBlock, len: usize) -> (r: Vec<u8>)
        requires
            self.wf(),
            block.chunk < self.chunks().len(),
            block.offset + len <= self.chunks()[block.chunk as int].1,
        ensures
            r@ == self.contents()[block.chunk as int].subrange(block.offset as int, block.offset + len),
    {
        let k = block.chunk;
        let off = block.offset;
        let ghost buf = self.chunks@[k as int].buffer@;
        assert(self.chunks()[k as int] == (self.chunks@[k as int].used, self.chunks@[k as int].capacity));
        assert(buf.len() == self.chunks@[k as int].capacity);
        let mut out: Vec<u8> = Vec::new();
        let mut j: usize = 0;
        while j < len
            invariant
                j <= len,
                off + len <= buf.len(),
                buf.len() == self.chunks@[k as int].capacity,
                buf == self.chunks@[k as int].buffer@,
                k < self.chunks@.len(),
                out@ == buf.subrange(off as int, off + j),
            decreases len - j,
        {
            out.push(self.chunks[k].buffer[off + j]);
            j = j + 1;
            assert(out@ =~= buf.subrange(off as int, off + j));
        }
        out
    }

    /// The bytes handed out, over all chunks.
    pub fn total_used(&self) -> (r: usize)
        requires
            self.wf(),
        ensures
            r == sum_used(self.chunks()),
    {
        let mut t: usize = 0;
        let mut i: usize = 0;
        while i < self.chunks.len()
            invariant
                self.wf(),
                i <= self.chunks@.len(),
                t == sum_used(self.chunks().take(i as int)),
            decreases self.chunks@.len() - i,
        {
            proof {
                assert(self.chunks().take(i + 1).drop_last() == self.chunks().take(i as int));
                lemma_sum_used_le(self.chunks().take(i + 1));
                lemma_sum_capacity_prefix(self.chunks(), i + 1);
            }
            t = t + self.chunks[i].used;
            i = i + 1;
        }
        assert(self.chunks().take(self.chunks@.len() as int) == self.chunks());
        t
    }

    /// The bytes held, over all chunks.
    pub fn total_capacity(&self) -> (r: usize)
        requires
            self.wf(),
        ensures
            r == sum_capacity(self.chunks()),
    {
        let mut t: usize = 0;
        let mut i: usize = 0;
        while i < self.chunks.len()
            invariant
                self.wf(),
                i <= self.chunks@.len(),
                t == sum_capacity(self.chunks().take(i as int)),
            decreases self.chunks@.len() - i,
        {
            proof {
                assert(self.chunks().take(i + 1).drop_last() == self.chunks().take(i as int));
                lemma_sum_capacity_prefix(self.chunks(), i + 1);
            }
            t = t + self.chunks[i].capacity;
            i = i + 1;
        }
        assert(self.chunks().take(self.chunks@.len() as int) == self.chunks());
        t
    }
}

impl PoolChunk {
    fn allocate_at_mut(&mut self, size: usize) -> (r: Option<usize>)
        requires
            old(self).used <= old(self).capacity,
            size + 63 <= usize::MAX,
        ensures
            final(self).capacity == old(self).capacity,
            final(self).buffer == old(self).buffer,
            final(self).used <= final(self).capacity,
            old(self).used % 64 == 0 ==> final(self).used % 64 == 0,
            old(self).used + align64(size as nat) <= old(self).capacity ==> r == Some(old(self).used)
                && final(self).used == old(self).used + align64(size as nat),
            old(self).used + align64(size as nat) > old(self).capacity ==> r is None && final(self).used == old(self).used,
    {
        self.allocate(size)
    }
}

impl Default for MemoryPool {
    fn default() -> (r: Self)
        ensures
            r.wf(),
            r.chunks() == Seq::<(usize, usize)>::empty(),
            r.default_size() == 1048576,
    {
        Self::new(1048576)
    }
}

/// A size rounded up to 64 is a multiple of 64.
proof fn lemma_align64(size: nat)
    ensures
        align64(size) % 64 == 0,
        align64(size) >= size,
{
    assert(((size + 63) / 64 * 64) % 64 == 0) by (nonlinear_arith);
    assert((size + 63) / 64 * 64 >= size) by (nonlinear_arith);
}

/// The first chunk with room from position `i` on.
pub open spec fn first_fit_from(chunks: Seq<(usize, usize)>, a: nat, i: int) -> Option<int>
    decreases chunks.len() - i,
{
    if i >= chunks.len() || i < 0 {
        None
    } else if chunks[i].0 + a <= chunks[i].1 {
        Some(i)
    } else {
        first_fit_from(chunks, a, i + 1)
    }
}

proof fn lemma_first_fit_split(chunks: Seq<(usize, usize)>, a: nat, i: int)
    requires
        0 <= i <= chunks.len(),
        first_fit(chunks.take(i), a) is None,
    ensures
        first_fit(chunks, a) == first_fit_from(chunks, a, i),
    decreases chunks.len() - i,
{
    if i < chunks.len() {
        let t = chunks.take(i + 1);
        assert(t.drop_last() == chunks.take(i));
        if chunks[i].0 + a <= chunks[i].1 {
            lemma_first_fit_prefix(chunks, a, i + 1);
        } else {
            lemma_first_fit_split(chunks, a, i + 1);
        }
    } else {
        assert(chunks.take(i) == chunks);
    }
}

proof fn lemma_first_fit_prefix(chunks: Seq<(usize, usize)>, a: nat, k: int)
    requires
        0 <= k <= chunks.len(),
        first_fit(chunks.take(k), a) is Some,
    ensures
        first_fit(chunks, a) == first_fit(chunks.take(k), a),
    decreases chunks.len() - k,
{
    if k < chunks.len() {
        let t = chunks.take(k + 1);
        assert(t.drop_last() == chunks.take(k));
        lemma_first_fit_prefix(chunks, a, k + 1);
    } else {
        assert(chunks.take(k) == chunks);
    }
}

proof fn lemma_first_fit_found(chunks: Seq<(usize, usize)>, a: nat, i: int)
    requires
        0 <= i < chunks.len(),
        first_fit(chunks.take(i), a) is None,
        chunks[i].0 + a <= chunks[i].1,
    ensures
        first_fit(chunks, a) == Some(i),
{
    lemma_first_fit_split(chunks, a, i);
}

proof fn lemma_first_fit_step(chunks: Seq<(usize, usize)>, a: nat, i: int)
    requires
        0 <= i < chunks.len(),
        first_fit(chunks.take(i), a) is None,
        chunks[i].0 + a > chunks[i].1,
    ensures
        first_fit(chunks.take(i + 1), a) is None,
{
    assert(chunks.take(i + 1).drop_last() == chunks.take(i));
}

proof fn lemma_sum_used_le(chunks: Seq<(usize, usize)>)
    requires
        forall|i: int| 0 <= i < chunks.len() ==> #[trigger] chunks[i].0 <= chunks[i].1,
    ensures
        sum_used(chunks) <= sum_capacity(chunks),
    decreases chunks.len(),
{
    if chunks.len() > 0 {
        let t = chunks.drop_last();
        assert forall|i: int| 0 <= i < t.len() implies #[trigger] t[i].0 <= t[i].1 by {
            assert(t[i] == chunks[i]);
        }
        lemma_sum_used_le(t);
        assert(chunks[chunks.len() - 1].0 <= chunks[chunks.len() - 1].1);
    }
}

proof fn lemma_sum_capacity_prefix(chunks: Seq<(usize, usize)>, k: int)
    requires
        0 <= k <= chunks.len(),
    ensures
        sum_capacity(chunks.take(k)) <= sum_capacity(chunks),
    decreases chunks.len() - k,
{
    if k < chunks.len() {
        lemma_sum_capacity_prefix(chunks, k + 1);
        assert(chunks.take(k + 1).drop_last() == chunks.take(k));
    } else {
        assert(chunks.take(k) == chunks);
    }
}

proof fn lemma_sum_capacity_update(chunks: Seq<(usize, usize)>, i: int, x: (usize, usize))
    requires
        0 <= i < chunks.len(),
        x.1 == chunks[i].1,
    ensures
        sum_capacity(chunks.update(i, x)) == sum_capacity(chunks),
    decreases chunks.len(),
{
    let u = chunks.update(i, x);
    if i == chunks.len() - 1 {
        assert(u.drop_last() == chunks.drop_last());
    } else {
        lemma_sum_capacity_update(chunks.drop_last(), i, x);
        assert(u.drop_last() == chunks.drop_last().update(i, x));
    }
}

proof fn lemma_same_capacities(a: Seq<(usize, usize)>, b: Seq<(usize, usize)>)
    requires
        a.len() == b.len(),
        forall|i: int| 0 <= i < a.len() ==> a[i].1 == b[i].1,
    ensures
        sum_capacity(a) == sum_capacity(b),
    decreases a.len(),
{
    if a.len() > 0 {
        lemma_same_capacities(a.drop_last(), b.drop_last());
    }
}

} // verus!

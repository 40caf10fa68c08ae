//! Merkle trees over fragment digests and the anti-entropy repair engine
//! that compares them between replicas.
use vstd::prelude::*;
use crate::types::FragmentId;
use crate::text::{debug_str, str_debug};

verus! {

/// One digest: a fragment id and the hash of its content.
pub type Digest = (u64, u64);

/// `a * 31 + b` modulo 2^64: how hashes are chained in a bucket and how two
/// children are combined.
pub open spec fn mix(a: u64, b: u64) -> u64 {
    vstd::wrapping::u64_specs::wrapping_add(vstd::wrapping::u64_specs::wrapping_mul(a, 31), b)
}

fn mix_exec(a: u64, b: u64) -> (r: u64)
    ensures
        r == mix(a, b),
{
    a.wrapping_mul(31).wrapping_add(b)
}

/// A node of a Merkle tree.
#[derive(Debug)]
pub struct MerkleNode {
    pub hash: u64,
    pub left: Option<Box<MerkleNode>>,
    pub right: Option<Box<MerkleNode>>,
    pub range_start: u64,
    pub range_end: u64,
}

/// The leaf with the given hash over the id range `[range_start, range_end]`.
pub open spec fn leaf_spec(hash: u64, range_start: u64, range_end: u64) -> MerkleNode {
    MerkleNode { hash, left: None, right: None, range_start, range_end }
}

/// The inner node over two subtrees.
pub open spec fn internal_spec(left: MerkleNode, right: MerkleNode) -> MerkleNode {
    MerkleNode {
        hash: mix(left.hash, right.hash),
        left: Some(Box::new(left)),
        right: Some(Box::new(right)),
        range_start: 0,
        range_end: 0,
    }
}

impl Clone for MerkleNode {
    fn clone(&self) -> (r: Self)
        ensures
            r == *self,
        decreases self,
    {
        let left = match &self.left {
            Some(n) => Some(Box::new((&**n).clone())),
            None => None,
        };
        let right = match &self.right {
            Some(n) => Some(Box::new((&**n).clone())),
            None => None,
        };
        MerkleNode {
            hash: self.hash,
            left,
            right,
            range_start: self.range_start,
            range_end: self.range_end,
        }
    }
}

impl MerkleNode {
    pub open spec fn is_leaf_spec(&self) -> bool {
        self.left is None && self.right is None
    }

    pub fn leaf(hash: u64, range_start: u64, range_end: u64) -> (r: Self)
        ensures
            r == leaf_spec(hash, range_start, range_end),
    {
        MerkleNode { hash, left: None, right: None, range_start, range_end }
    }

    pub fn internal(left: MerkleNode, right: MerkleNode) -> (r: Self)
        ensures
            r == internal_spec(left, right),
    {
        let combined = mix_exec(left.hash, right.hash);
        MerkleNode {
            hash: combined,
            left: Some(Box::new(left)),
            right: Some(Box::new(right)),
            range_start: 0,
            range_end: 0,
        }
    }

    pub fn is_leaf(&self) -> (r: bool)
        ensures
            r == self.is_leaf_spec(),
    {
        self.left.is_none() && self.right.is_none()
    }
}

/// `s` (sorted by id) with `x` placed after every entry whose id is at most
/// `x`'s.
pub open spec fn insert_by_id(s: Seq<Digest>, x: Digest) -> Seq<Digest>
    decreases s.len(),
{
    if s.len() == 0 {
        seq![x]
    } else if s.last().0 <= x.0 {
        s.push(x)
    } else {
        insert_by_id(s.drop_last(), x).push(s.last())
    }
}

/// `s` sorted by id, entries with equal ids keeping their order.
pub open spec fn sort_by_id(s: Seq<Digest>) -> Seq<Digest>
    decreases s.len(),
{
    if s.len() == 0 {
        Seq::empty()
    } else {
        insert_by_id(sort_by_id(s.drop_last()), s.last())
    }
}

/// The hashes of a bucket chained with `mix`, starting from 0.
pub open spec fn bucket_hash(b: Seq<Digest>) -> u64
    decreases b.len(),
{
    if b.len() == 0 {
        0
    } else {
        mix(bucket_hash(b.drop_last()), b.last().1)
    }
}

/// The leaf of a nonempty bucket: its chained hash and the ids of its first and
/// last entries.
pub open spec fn leaf_of(b: Seq<Digest>) -> MerkleNode {
    leaf_spec(bucket_hash(b), b[0].0, b.last().0)
}

/// The leaves of the buckets of `bucket_size` consecutive entries of `s`,
/// from position `i` on (the last bucket may be shorter).
pub open spec fn leaves_from(s: Seq<Digest>, bucket_size: nat, i: nat) -> Seq<MerkleNode>
    decreases s.len() - i,
{
    if i >= s.len() || bucket_size == 0 {
        Seq::empty()
    } else {
        let end: int = if i + bucket_size <= s.len() { (i + bucket_size) as int } else { s.len() as int };
        seq![leaf_of(s.subrange(i as int, end))] + leaves_from(s, bucket_size, end as nat)
    }
}

/// The tree over a nonempty run of leaves: the left half and the right half
/// (the larger when the count is odd) combined.
pub open spec fn tree_of(leaves: Seq<MerkleNode>) -> MerkleNode
    decreases leaves.len(),
{
    if leaves.len() <= 1 {
        leaves[0]
    } else {
        let mid = leaves.len() / 2;
        internal_spec(tree_of(leaves.take(mid as int)), tree_of(leaves.skip(mid as int)))
    }
}

/// No two digests share an id.
pub open spec fn distinct_digest_ids(d: Seq<Digest>) -> bool {
    forall|i: int, j: int| 0 <= i < d.len() && 0 <= j < d.len() && i != j ==> #[trigger] d[i].0 != #[trigger] d[j].0
}

/// Ids increase strictly along `d`.
pub open spec fn ids_increasing(d: Seq<Digest>) -> bool {
    forall|i: int, j: int| 0 <= i < j < d.len() ==> #[trigger] d[i].0 < #[trigger] d[j].0
}

/// Inserting keeps the entries, adds `x`, and (for a new id) keeps ids
/// increasing.
proof fn lemma_insert_by_id(s: Seq<Digest>, x: Digest)
    ensures
        insert_by_id(s, x).len() == s.len() + 1,
        forall|y: Digest| #[trigger] insert_by_id(s, x).contains(y) <==> (s.contains(y) || y == x),
        ids_increasing(s) && (forall|i: int| 0 <= i < s.len() ==> #[trigger] s[i].0 != x.0)
            ==> ids_increasing(insert_by_id(s, x)),
    decreases s.len(),
{
    let t = insert_by_id(s, x);
    if s.len() == 0 {
        assert forall|y: Digest| t.contains(y) <==> (s.contains(y) || y == x) by {
            if t.contains(y) {
                assert(t[0] == x);
            }
            if y == x {
                assert(t[0] == y);
            }
        }
    } else if s.last().0 <= x.0 {
        assert forall|y: Digest| t.contains(y) <==> (s.contains(y) || y == x) by {
            if t.contains(y) {
                let k = choose|k: int| 0 <= k < t.len() && t[k] == y;
                if k < s.len() {
                    assert(s[k] == y);
                }
            }
            if s.contains(y) {
                let k = choose|k: int| 0 <= k < s.len() && s[k] == y;
                assert(t[k] == y);
            }
            if y == x {
                assert(t[s.len() as int] == y);
            }
        }
        if ids_increasing(s) && (forall|i: int| 0 <= i < s.len() ==> #[trigger] s[i].0 != x.0) {
            assert(s[s.len() - 1].0 != x.0);
            assert forall|i: int, j: int| 0 <= i < j < t.len() implies #[trigger] t[i].0 < #[trigger] t[j].0 by {
                if j == s.len() {
                    if i < s.len() - 1 {
                        assert(s[i].0 < s[s.len() - 1].0);
                    }
                } else {
                    assert(s[i].0 < s[j].0);
                }
            }
        }
    } else {
        let r = s.drop_last();
        let l = s.last();
        lemma_insert_by_id(r, x);
        let u = insert_by_id(r, x);
        assert(t == u.push(l));
        assert forall|y: Digest| t.contains(y) <==> (s.contains(y) || y == x) by {
            if t.contains(y) {
                let k = choose|k: int| 0 <= k < t.len() && t[k] == y;
                if k < u.len() {
                    assert(u.contains(y));
                    if r.contains(y) {
                        let q = choose|q: int| 0 <= q < r.len() && r[q] == y;
                        assert(s[q] == y);
                    }
                } else {
                    assert(s[s.len() - 1] == y);
                }
            }
            if s.contains(y) {
                let k = choose|k: int| 0 <= k < s.len() && s[k] == y;
                if k < r.len() {
                    assert(r[k] == y);
                    assert(u.contains(y));
                    let q = choose|q: int| 0 <= q < u.len() && u[q] == y;
                    assert(t[q] == y);
                } else {
                    assert(t[u.len() as int] == y);
                }
            }
            if y == x {
                assert(u.contains(y));
                let q = choose|q: int| 0 <= q < u.len() && u[q] == y;
                assert(t[q] == y);
            }
        }
        if ids_increasing(s) && (forall|i: int| 0 <= i < s.len() ==> #[trigger] s[i].0 != x.0) {
            assert(ids_increasing(r)) by {
                assert forall|i: int, j: int| 0 <= i < j < r.len() implies #[trigger] r[i].0 < #[trigger] r[j].0 by {
                    assert(s[i].0 < s[j].0);
                }
            }
            assert forall|i: int| 0 <= i < r.len() implies #[trigger] r[i].0 != x.0 by {
                assert(s[i].0 != x.0);
            }
            assert forall|i: int, j: int| 0 <= i < j < t.len() implies #[trigger] t[i].0 < #[trigger] t[j].0 by {
                if j == u.len() {
                    assert(u.contains(t[i]));
                    if t[i] == x {
                    } else {
                        assert(r.contains(t[i]));
                        let q = choose|q: int| 0 <= q < r.len() && r[q] == t[i];
                        assert(s[q].0 < s[s.len() - 1].0);
                    }
                } else {
                    assert(t[i] == u[i] && t[j] == u[j]);
                }
            }
        }
    }
}

/// Sorting keeps the digests and, for distinct ids, makes ids increase.
proof fn lemma_sort_by_id(d: Seq<Digest>)
    ensures
        sort_by_id(d).len() == d.len(),
        forall|y: Digest| #[trigger] sort_by_id(d).contains(y) <==> d.contains(y),
        distinct_digest_ids(d) ==> ids_increasing(sort_by_id(d)),
    decreases d.len(),
{
    if d.len() > 0 {
        let r = d.drop_last();
        let x = d.last();
        lemma_sort_by_id(r);
        lemma_insert_by_id(sort_by_id(r), x);
        assert forall|y: Digest| #[trigger] sort_by_id(d).contains(y) <==> d.contains(y) by {
            if r.contains(y) {
                let q = choose|q: int| 0 <= q < r.len() && r[q] == y;
                assert(d[q] == y);
            }
            if d.contains(y) {
                let q = choose|q: int| 0 <= q < d.len() && d[q] == y;
                if q < r.len() {
                    assert(r[q] == y);
                } else {
                    assert(y == x);
                }
            }
            if y == x {
                assert(d[d.len() - 1] == y);
            }
        }
        if distinct_digest_ids(d) {
            assert(distinct_digest_ids(r)) by {
                assert forall|i: int, j: int| 0 <= i < r.len() && 0 <= j < r.len() && i != j implies #[trigger] r[i].0 != #[trigger] r[j].0 by {
                    assert(d[i].0 != d[j].0);
                }
            }
            let sr = sort_by_id(r);
            assert forall|i: int| 0 <= i < sr.len() implies #[trigger] sr[i].0 != x.0 by {
                assert(sr.contains(sr[i]));
                assert(r.contains(sr[i]));
                let q = choose|q: int| 0 <= q < r.len() && r[q] == sr[i];
                assert(d[q].0 != d[d.len() - 1].0);
            }
        }
    }
}

/// Two sequences with increasing ids and the same digests are equal.
proof fn lemma_increasing_unique(a: Seq<Digest>, b: Seq<Digest>)
    requires
        ids_increasing(a),
        ids_increasing(b),
        forall|y: Digest| #[trigger] a.contains(y) <==> b.contains(y),
    ensures
        a == b,
    decreases a.len() + b.len(),
{
    if a.len() == 0 {
        if b.len() > 0 {
            assert(b.contains(b[0]));
            assert(a.contains(b[0]) <==> b.contains(b[0]));
        }
        assert(b =~= a);
    } else if b.len() == 0 {
        assert(a.contains(a[0]));
        assert(a.contains(a[0]) <==> b.contains(a[0]));
    } else {
        let la = a.last();
        let lb = b.last();
        assert(a.contains(la));
        assert(b.contains(lb));
        assert(a.contains(lb) <==> b.contains(lb));
        assert(a.contains(la) <==> b.contains(la));
        let ia = choose|i: int| 0 <= i < a.len() && a[i] == lb;
        let ib = choose|i: int| 0 <= i < b.len() && b[i] == la;
        if ia < a.len() - 1 {
            assert(a[ia].0 < a[a.len() - 1].0);
        }
        if ib < b.len() - 1 {
            assert(b[ib].0 < b[b.len() - 1].0);
        }
        assert(ia == a.len() - 1);
        let ra = a.drop_last();
        let rb = b.drop_last();
        assert forall|y: Digest| #[trigger] ra.contains(y) <==> rb.contains(y) by {
            if ra.contains(y) {
                let q = choose|q: int| 0 <= q < ra.len() && ra[q] == y;
                assert(a[q] == y && a[q].0 < a[a.len() - 1].0);
                assert(a.contains(y));
                assert(a.contains(y) <==> b.contains(y));
                assert(b.contains(y));
                let k = choose|k: int| 0 <= k < b.len() && b[k] == y;
                assert(k != b.len() - 1);
                assert(rb[k] == y);
            }
            if rb.contains(y) {
                let q = choose|q: int| 0 <= q < rb.len() && rb[q] == y;
                assert(b[q] == y && b[q].0 < b[b.len() - 1].0);
                assert(b.contains(y));
                assert(a.contains(y) <==> b.contains(y));
                assert(a.contains(y));
                let k = choose|k: int| 0 <= k < a.len() && a[k] == y;
                assert(k != a.len() - 1);
                assert(ra[k] == y);
            }
        }
        assert(ids_increasing(ra)) by {
            assert forall|i: int, j: int| 0 <= i < j < ra.len() implies #[trigger] ra[i].0 < #[trigger] ra[j].0 by {
                assert(a[i].0 < a[j].0);
            }
        }
        assert(ids_increasing(rb)) by {
            assert forall|i: int, j: int| 0 <= i < j < rb.len() implies #[trigger] rb[i].0 < #[trigger] rb[j].0 by {
                assert(b[i].0 < b[j].0);
            }
        }
        lemma_increasing_unique(ra, rb);
        assert(a =~= ra.push(la));
        assert(b =~= rb.push(lb));
    }
}

/// The tree does not depend on the order of the digests: two lists of
/// digests with distinct ids holding the same digests build the same tree,
/// and so the same root hash.
pub proof fn lemma_built_root_order_free(d1: Seq<Digest>, d2: Seq<Digest>, bucket_size: nat)
    requires
        distinct_digest_ids(d1),
        distinct_digest_ids(d2),
        forall|y: Digest| #[trigger] d1.contains(y) <==> d2.contains(y),
    ensures
        built_root(d1, bucket_size) == built_root(d2, bucket_size),
        root_hash_of(built_root(d1, bucket_size)) == root_hash_of(built_root(d2, bucket_size)),
{
    lemma_sort_by_id(d1);
    lemma_sort_by_id(d2);
    let s1 = sort_by_id(d1);
    let s2 = sort_by_id(d2);
    assert forall|y: Digest| #[trigger] s1.contains(y) <==> s2.contains(y) by {
        assert(s1.contains(y) <==> d1.contains(y));
        assert(s2.contains(y) <==> d2.contains(y));
    }
    lemma_increasing_unique(s1, s2);
    if d1.len() == 0 && d2.len() > 0 {
        assert(d2.contains(d2[0]));
    }
    if d2.len() == 0 && d1.len() > 0 {
        assert(d1.contains(d1[0]));
    }
}

/// The root that `build_from_digests` gives for these digests and bucket size.
pub open spec fn built_root(digests: Seq<Digest>, bucket_size: nat) -> Option<MerkleNode> {
    if digests.len() == 0 {
        None
    } else {
        Some(tree_of(leaves_from(sort_by_id(digests), bucket_size, 0)))
    }
}

/// The ranges where two trees differ: nothing where the hashes agree; the
/// union of the two ranges where either node is a leaf; else the differences
/// of the left children followed by those of the right children.
pub open spec fn diff_ranges(a: MerkleNode, b: MerkleNode) -> Seq<(u64, u64)>
    decreases a,
{
    if a.hash == b.hash {
        Seq::empty()
    } else if a.is_leaf_spec() || b.is_leaf_spec() {
        let start = if a.range_start <= b.range_start { a.range_start } else { b.range_start };
        let end = if a.range_end >= b.range_end { a.range_end } else { b.range_end };
        seq![(start, end)]
    } else {
        match (a.left, a.right, b.left, b.right) {
            (Some(al), Some(ar), Some(bl), Some(br)) => diff_ranges(*al, *bl) + diff_ranges(*ar, *br),
            _ => Seq::empty(),
        }
    }
}

/// A Merkle tree over fragment digests, used to find where replicas differ.
pub struct MerkleTree {
    root: Option<MerkleNode>,
    bucket_size: usize,
}

impl MerkleTree {
    /// The root node, if the tree holds any digest.
    pub closed spec fn root_node(&self) -> Option<MerkleNode> {
        self.root
    }

    /// How many digests go into one leaf.
    pub closed spec fn bucket(&self) -> usize {
        self.bucket_size
    }

    pub fn new(bucket_size: usize) -> (r: Self)
        ensures
            r.root_node() is None,
            r.bucket() == bucket_size,
    {
        MerkleTree { root: None, bucket_size }
    }

    /// Sorts the digests by id (stably), cuts them into buckets of
    /// `bucket_size`, and builds the tree over the buckets' leaves.
    pub fn build_from_digests(&mut self, digests: &[Digest])
        requires
            digests@.len() > 0 ==> old(self).bucket() > 0,
        ensures
            final(self).bucket() == old(self).bucket(),
            final(self).root_node() == built_root(digests@, old(self).bucket() as nat),
    {
        if digests.len() == 0 {
            self.root = None;
            return;
        }
        let sorted = sort_digests(digests);
        let leaves = make_leaves(&sorted, self.bucket_size);
        proof {
            lemma_leaves_nonempty(sorted@, self.bucket_size as nat);
        }
        self.root = Some(build_tree(leaves));
    }

    pub fn root_hash(&self) -> (r: u64)
        ensures
            r == match self.root_node() {
                Some(n) => n.hash,
                None => 0,
            },
    {
        match &self.root {
            Some(n) => n.hash,
            None => 0,
        }
    }

    pub fn is_empty(&self) -> (r: bool)
        ensures
            r == (self.root_node() is None),
    {
        self.root.is_none()
    }

    /// Compares two trees: identical when both are empty or their roots
    /// agree everywhere; the whole id space differs when only one is empty.
    pub fn diff(&self, other: &MerkleTree) -> (r: DiffReport)
        ensures
            r.differing_ranges@ == tree_diff(self.root_node(), other.root_node()),
            r.identical == (tree_diff(self.root_node(), other.root_node()).len() == 0),
    {
        match (&self.root, &other.root) {
            (None, None) => DiffReport { identical: true, differing_ranges: Vec::new() },
            (Some(_), None) => DiffReport { identical: false, differing_ranges: vec![(0, u64::MAX)] },
            (None, Some(_)) => DiffReport { identical: false, differing_ranges: vec![(0, u64::MAX)] },
            (Some(a), Some(b)) => {
                let mut ranges: Vec<(u64, u64)> = Vec::new();
                diff_nodes(a, b, &mut ranges);
                assert(ranges@ == diff_ranges(*a, *b));
                let identical = ranges.len() == 0;
                DiffReport { identical, differing_ranges: ranges }
            },
        }
    }
}

/// The ranges `diff` reports for two (possibly empty) roots.
pub open spec fn tree_diff(a: Option<MerkleNode>, b: Option<MerkleNode>) -> Seq<(u64, u64)> {
    match (a, b) {
        (None, None) => Seq::empty(),
        (Some(x), Some(y)) => diff_ranges(x, y),
        _ => seq![(0u64, u64::MAX)],
    }
}

fn diff_nodes(a: &MerkleNode, b: &MerkleNode, ranges: &mut Vec<(u64, u64)>)
    ensures
        final(ranges)@ == old(ranges)@ + diff_ranges(*a, *b),
    decreases *a,
{
    if a.hash == b.hash {
        assert(old(ranges)@ + Seq::<(u64, u64)>::empty() == old(ranges)@);
        return;
    }
    if a.is_leaf() || b.is_leaf() {
        let start = if a.range_start <= b.range_start { a.range_start } else { b.range_start };
        let end = if a.range_end >= b.range_end { a.range_end } else { b.range_end };
        ranges.push((start, end));
        return;
    }
    match (&a.left, &a.right, &b.left, &b.right) {
        (Some(al), Some(ar), Some(bl), Some(br)) => {
            let ghost before = ranges@;
            diff_nodes(al, bl, ranges);
            diff_nodes(ar, br, ranges);
            assert(ranges@ == before + (diff_ranges(**al, **bl) + diff_ranges(**ar, **br)));
        },
        _ => {
            assert(old(ranges)@ + Seq::<(u64, u64)>::empty() == old(ranges)@);
        },
    }
}

/// What a comparison of two trees found.
#[derive(Debug, Clone)]
pub struct DiffReport {
    pub identical: bool,
    pub differing_ranges: Vec<(u64, u64)>,
}

fn sort_digests(digests: &[Digest]) -> (r: Vec<Digest>)
    ensures
        r@ == sort_by_id(digests@),
{
    let mut sorted: Vec<Digest> = Vec::new();
    let n = digests.len();
    let mut i: usize = 0;
    while i < n
        invariant
            n == digests@.len(),
            i <= n,
            sorted@ == sort_by_id(digests@.take(i as int)),
        decreases n - i,
    {
        let x = digests[i];
        let mut p: usize = sorted.len();
        assert(sorted@.take(p as int) == sorted@);
        assert(sorted@.skip(p as int) == Seq::<Digest>::empty());
        assert(insert_by_id(sorted@, x) + Seq::<Digest>::empty() == insert_by_id(sorted@, x));
        while p > 0 && sorted[p - 1].0 > x.0
            invariant
                p <= sorted@.len(),
                insert_by_id(sorted@, x) == insert_by_id(sorted@.take(p as int), x) + sorted@.skip(p as int),
            decreases p,
        {
            proof {
                let t = sorted@.take(p as int);
                assert(t.drop_last() == sorted@.take(p - 1));
                assert(sorted@.skip(p - 1) == seq![t.last()] + sorted@.skip(p as int));
                assert(insert_by_id(t, x) == insert_by_id(t.drop_last(), x).push(t.last()));
                assert(insert_by_id(t.drop_last(), x).push(t.last()) + sorted@.skip(p as int)
                    == insert_by_id(t.drop_last(), x) + sorted@.skip(p - 1));
            }
            p = p - 1;
        }
        proof {
            let t = sorted@.take(p as int);
            if p > 0 {
                assert(insert_by_id(t, x) == t.push(x));
            } else {
                assert(insert_by_id(t, x) == seq![x]);
            }
            assert(digests@.take(i + 1).drop_last() == digests@.take(i as int));
            assert(digests@.take(i + 1).last() == x);
        }
        let ghost old_sorted = sorted@;
        sorted.insert(p, x);
        proof {
            assert(sorted@ == old_sorted.take(p as int).push(x) + old_sorted.skip(p as int));
        }
        i = i + 1;
    }
    assert(digests@.take(n as int) == digests@);
    sorted
}

fn bucket_leaf(s: &Vec<Digest>, start: usize, end: usize) -> (r: MerkleNode)
    requires
        start < end <= s@.len(),
    ensures
        r == leaf_of(s@.subrange(start as int, end as int)),
{
    let mut h: u64 = 0;
    let mut j: usize = start;
    while j < end
        invariant
            start <= j <= end <= s@.len(),
            h == bucket_hash(s@.subrange(start as int, j as int)),
        decreases end - j,
    {
        proof {
            let b = s@.subrange(start as int, j + 1);
            assert(b.drop_last() == s@.subrange(start as int, j as int));
        }
        h = mix_exec(h, s[j].1);
        j = j + 1;
    }
    MerkleNode::leaf(h, s[start].0, s[end - 1].0)
}

fn make_leaves(s: &Vec<Digest>, bucket_size: usize) -> (r: Vec<MerkleNode>)
    requires
        bucket_size > 0,
    ensures
        r@ == leaves_from(s@, bucket_size as nat, 0),
{
    let n = s.len();
    let mut leaves: Vec<MerkleNode> = Vec::new();
    let mut i: usize = 0;
    while i < n
        invariant
            n == s@.len(),
            bucket_size > 0,
            i <= n,
            leaves@ + leaves_from(s@, bucket_size as nat, i as nat) == leaves_from(s@, bucket_size as nat, 0),
        decreases n - i,
    {
        let end: usize = if bucket_size <= n - i { i + bucket_size } else { n };
        let leaf = bucket_leaf(s, i, end);
        proof {
            let rest = leaves_from(s@, bucket_size as nat, end as nat);
            assert(leaves_from(s@, bucket_size as nat, i as nat) == seq![leaf] + rest);
            assert(leaves@.push(leaf) + rest == leaves@ + (seq![leaf] + rest));
        }
        leaves.push(leaf);
        i = end;
    }
    assert(leaves@ + leaves_from(s@, bucket_size as nat, i as nat) == leaves@);
    leaves
}

proof fn lemma_leaves_nonempty(s: Seq<Digest>, bucket_size: nat)
    requires
        s.len() > 0,
        bucket_size > 0,
    ensures
        leaves_from(s, bucket_size, 0).len() > 0,
{
}

fn build_tree(nodes: Vec<MerkleNode>) -> (r: MerkleNode)
    requires
        nodes@.len() >= 1,
    ensures
        r == tree_of(nodes@),
    decreases nodes@.len(),
{
    let mut nodes = nodes;
    if nodes.len() == 1 {
        let r = nodes.pop().unwrap();
        return r;
    }
    let mid = nodes.len() / 2;
    let ghost all = nodes@;
    let right_part = nodes.split_off(mid);
    assert(nodes@ == all.take(mid as int));
    assert(right_part@ == all.skip(mid as int));
    let left = build_tree(nodes);
    let right = build_tree(right_part);
    MerkleNode::internal(left, right)
}

/// Every inner node has both children and carries the `mix` of their hashes;
/// leaves have no children.
pub open spec fn hash_consistent(n: MerkleNode) -> bool
    decreases n,
{
    match (n.left, n.right) {
        (None, None) => true,
        (Some(l), Some(r)) => n.hash == mix(l.hash, r.hash) && hash_consistent(*l) && hash_consistent(*r),
        _ => false,
    }
}

/// The root hash of a possibly empty tree (0 when empty).
pub open spec fn root_hash_of(root: Option<MerkleNode>) -> u64 {
    match root {
        Some(n) => n.hash,
        None => 0,
    }
}

proof fn lemma_leaves_from_are_leaves(s: Seq<Digest>, bucket_size: nat, i: nat)
    ensures
        forall|k: int| 0 <= k < leaves_from(s, bucket_size, i).len() ==> #[trigger] leaves_from(s, bucket_size, i)[k].is_leaf_spec(),
    decreases s.len() - i,
{
    if i >= s.len() || bucket_size == 0 {
    } else {
        let end: int = if i + bucket_size <= s.len() { (i + bucket_size) as int } else { s.len() as int };
        lemma_leaves_from_are_leaves(s, bucket_size, end as nat);
        let rest = leaves_from(s, bucket_size, end as nat);
        assert forall|k: int| 0 <= k < leaves_from(s, bucket_size, i).len() implies #[trigger] leaves_from(s, bucket_size, i)[k].is_leaf_spec() by {
            if k > 0 {
                assert(leaves_from(s, bucket_size, i)[k] == rest[k - 1]);
            }
        }
    }
}

proof fn lemma_tree_of_consistent(leaves: Seq<MerkleNode>)
    requires
        leaves.len() >= 1,
        forall|k: int| 0 <= k < leaves.len() ==> #[trigger] leaves[k].is_leaf_spec(),
    ensures
        hash_consistent(tree_of(leaves)),
    decreases leaves.len(),
{
    if leaves.len() <= 1 {
        assert(leaves[0].is_leaf_spec());
    } else {
        let mid = leaves.len() / 2;
        let l = leaves.take(mid as int);
        let r = leaves.skip(mid as int);
        assert forall|k: int| 0 <= k < l.len() implies #[trigger] l[k].is_leaf_spec() by {
            assert(l[k] == leaves[k]);
        }
        assert forall|k: int| 0 <= k < r.len() implies #[trigger] r[k].is_leaf_spec() by {
            assert(r[k] == leaves[k + mid]);
        }
        lemma_tree_of_consistent(l);
        lemma_tree_of_consistent(r);
    }
}

/// A tree built from digests is hash-consistent.
pub proof fn lemma_built_root_consistent(digests: Seq<Digest>, bucket_size: nat)
    requires
        digests.len() > 0,
        bucket_size > 0,
    ensures
        built_root(digests, bucket_size) matches Some(n) && hash_consistent(n),
{
    let leaves = leaves_from(sort_by_id(digests), bucket_size, 0);
    lemma_sort_len(digests);
    lemma_leaves_nonempty(sort_by_id(digests), bucket_size);
    lemma_leaves_from_are_leaves(sort_by_id(digests), bucket_size, 0);
    lemma_tree_of_consistent(leaves);
}

proof fn lemma_insert_len(s: Seq<Digest>, x: Digest)
    ensures
        insert_by_id(s, x).len() == s.len() + 1,
    decreases s.len(),
{
    if s.len() > 0 && s.last().0 > x.0 {
        lemma_insert_len(s.drop_last(), x);
    }
}

proof fn lemma_sort_len(s: Seq<Digest>)
    ensures
        sort_by_id(s).len() == s.len(),
    decreases s.len(),
{
    if s.len() > 0 {
        lemma_sort_len(s.drop_last());
        lemma_insert_len(sort_by_id(s.drop_last()), s.last());
    }
}

/// Comparing two hash-consistent trees whose root hashes differ reports at
/// least one differing range.
pub proof fn lemma_diff_finds_hash_mismatch(a: MerkleNode, b: MerkleNode)
    requires
        hash_consistent(a),
        hash_consistent(b),
        a.hash != b.hash,
    ensures
        diff_ranges(a, b).len() > 0,
    decreases a,
{
    if a.is_leaf_spec() || b.is_leaf_spec() {
    } else {
        match (a.left, a.right, b.left, b.right) {
            (Some(al), Some(ar), Some(bl), Some(br)) => {
                if al.hash != bl.hash {
                    lemma_diff_finds_hash_mismatch(*al, *bl);
                } else {
                    lemma_diff_finds_hash_mismatch(*ar, *br);
                }
            },
            _ => {},
        }
    }
}

/// Two trees built from nonempty digests compare identical exactly when
/// their root hashes are equal; a tree compared with one built from the same
/// digests is identical; an empty tree and a nonempty one always differ.
pub proof fn lemma_diff_identical_iff_same_root(d1: Seq<Digest>, b1: nat, d2: Seq<Digest>, b2: nat)
    requires
        b1 > 0,
        b2 > 0,
    ensures
        d1.len() > 0 && d2.len() > 0 ==> ((tree_diff(built_root(d1, b1), built_root(d2, b2)).len() == 0)
            <==> root_hash_of(built_root(d1, b1)) == root_hash_of(built_root(d2, b2))),
        tree_diff(built_root(d1, b1), built_root(d1, b1)).len() == 0,
        (d1.len() == 0) != (d2.len() == 0) ==> tree_diff(built_root(d1, b1), built_root(d2, b2)).len() > 0,
{
    if d1.len() > 0 && d2.len() > 0 {
        lemma_built_root_consistent(d1, b1);
        lemma_built_root_consistent(d2, b2);
        let x = built_root(d1, b1)->0;
        let y = built_root(d2, b2)->0;
        if x.hash != y.hash {
            lemma_diff_finds_hash_mismatch(x, y);
        }
    }
}

/// What to do about one differing range.
#[derive(Debug, Clone)]
pub enum SyncAction {
    Send { fragment_ids: Vec<FragmentId> },
    Request { fragment_ids: Vec<FragmentId> },
    Skip,
}

/// Where a repair task stands.
#[derive(Debug, Clone, PartialEq, Eq)]
pub enum RepairStatus {
    Pending,
    InProgress,
    Completed,
    Failed(String),
}

/// A repair between two nodes over some id ranges.
#[derive(Debug, Clone)]
pub struct RepairTask {
    pub task_id: u64,
    pub source_node: String,
    pub target_node: String,
    pub fragment_ids: Vec<FragmentId>,
    pub status: RepairStatus,
    pub differing_ranges: Vec<(u64, u64)>,
}

/// The ids of the digests (in their order) that lie in `[start, end]`.
pub open spec fn ids_in(d: Seq<Digest>, start: u64, end: u64) -> Seq<FragmentId>
    decreases d.len(),
{
    if d.len() == 0 {
        Seq::empty()
    } else {
        let rest = ids_in(d.drop_last(), start, end);
        let id = d.last().0;
        if start <= id && id <= end {
            rest.push(id)
        } else {
            rest
        }
    }
}

/// The ids of the digests in each range, range after range.
pub open spec fn ids_in_ranges(d: Seq<Digest>, ranges: Seq<(u64, u64)>) -> Seq<FragmentId>
    decreases ranges.len(),
{
    if ranges.len() == 0 {
        Seq::empty()
    } else {
        ids_in_ranges(d, ranges.drop_last()) + ids_in(d, ranges.last().0, ranges.last().1)
    }
}

/// How many tasks are in progress.
pub open spec fn in_progress_count(tasks: Seq<RepairTask>) -> nat
    decreases tasks.len(),
{
    if tasks.len() == 0 {
        0
    } else {
        in_progress_count(tasks.drop_last()) + if tasks.last().status is InProgress { 1nat } else { 0nat }
    }
}

/// How many tasks are completed.
pub open spec fn completed_count(tasks: Seq<RepairTask>) -> nat
    decreases tasks.len(),
{
    if tasks.len() == 0 {
        0
    } else {
        completed_count(tasks.drop_last()) + if tasks.last().status is Completed { 1nat } else { 0nat }
    }
}

/// How many tasks failed.
pub open spec fn failed_count(tasks: Seq<RepairTask>) -> nat
    decreases tasks.len(),
{
    if tasks.len() == 0 {
        0
    } else {
        failed_count(tasks.drop_last()) + if tasks.last().status is Failed { 1nat } else { 0nat }
    }
}

/// Changing one task changes the in-progress count by what that task
/// leaves and enters.
proof fn lemma_in_progress_update(t: Seq<RepairTask>, i: int, x: RepairTask)
    requires
        0 <= i < t.len(),
    ensures
        in_progress_count(t.update(i, x)) == in_progress_count(t) - (if t[i].status is InProgress { 1int } else { 0int })
            + (if x.status is InProgress { 1int } else { 0int }),
    decreases t.len(),
{
    let u = t.update(i, x);
    if i == t.len() - 1 {
        assert(u.drop_last() =~= t.drop_last());
    } else {
        lemma_in_progress_update(t.drop_last(), i, x);
        assert(u.drop_last() =~= t.drop_last().update(i, x));
    }
}

/// The in-progress count is the number of tasks in progress listed.
pub proof fn lemma_in_progress_of_len(t: Seq<RepairTask>)
    ensures
        in_progress_of(t).len() == in_progress_count(t),
    decreases t.len(),
{
    if t.len() > 0 {
        lemma_in_progress_of_len(t.drop_last());
    }
}

/// Every task is pending, in progress, completed or failed: the four counts
/// add up to the number of tasks.
pub proof fn lemma_status_counts_sum(t: Seq<RepairTask>)
    ensures
        pending_of(t).len() + in_progress_count(t) + completed_count(t) + failed_count(t) == t.len(),
    decreases t.len(),
{
    if t.len() > 0 {
        lemma_status_counts_sum(t.drop_last());
    }
}

/// The pending tasks, in order.
pub open spec fn pending_of(tasks: Seq<RepairTask>) -> Seq<RepairTask>
    decreases tasks.len(),
{
    if tasks.len() == 0 {
        Seq::empty()
    } else if tasks.last().status is Pending {
        pending_of(tasks.drop_last()).push(tasks.last())
    } else {
        pending_of(tasks.drop_last())
    }
}

/// The tasks in progress, in order.
pub open spec fn in_progress_of(tasks: Seq<RepairTask>) -> Seq<RepairTask>
    decreases tasks.len(),
{
    if tasks.len() == 0 {
        Seq::empty()
    } else if tasks.last().status is InProgress {
        in_progress_of(tasks.drop_last()).push(tasks.last())
    } else {
        in_progress_of(tasks.drop_last())
    }
}

/// Whether some task has this id.
pub open spec fn has_task(tasks: Seq<RepairTask>, id: u64) -> bool {
    exists|i: int| 0 <= i < tasks.len() && #[trigger] tasks[i].task_id == id
}

/// The position of the task with this id.
pub open spec fn task_index(tasks: Seq<RepairTask>, id: u64) -> int {
    choose|i: int| 0 <= i < tasks.len() && #[trigger] tasks[i].task_id == id
}

/// `t` with its status replaced.
pub open spec fn with_status(t: RepairTask, status: RepairStatus) -> RepairTask {
    RepairTask {
        task_id: t.task_id,
        source_node: t.source_node,
        target_node: t.target_node,
        fragment_ids: t.fragment_ids,
        status,
        differing_ranges: t.differing_ranges,
    }
}

/// The tasks after setting the status of the task with this id, if any.
pub open spec fn set_status_spec(tasks: Seq<RepairTask>, id: u64, status: RepairStatus) -> Seq<RepairTask> {
    if has_task(tasks, id) {
        let i = task_index(tasks, id);
        tasks.update(i, with_status(tasks[i], status))
    } else {
        tasks
    }
}

/// How a status is written in messages.
pub open spec fn status_debug(s: RepairStatus) -> Seq<char> {
    match s {
        RepairStatus::Pending => "Pending"@,
        RepairStatus::InProgress => "InProgress"@,
        RepairStatus::Completed => "Completed"@,
        RepairStatus::Failed(reason) => "Failed("@ + str_debug(reason@) + ")"@,
    }
}

fn status_text(s: &RepairStatus) -> (r: String)
    ensures
        r@ == status_debug(*s),
{
    match s {
        RepairStatus::Pending => String::from_str("Pending"),
        RepairStatus::InProgress => String::from_str("InProgress"),
        RepairStatus::Completed => String::from_str("Completed"),
        RepairStatus::Failed(reason) => {
            let mut t = String::from_str("Failed(");
            t.append(debug_str(reason.as_str()).as_str());
            t.append(")");
            t
        },
    }
}

/// The anti-entropy repair engine: a Merkle tree over the local digests,
/// and the repair tasks with their states.
pub struct AntiEntropyRepair {
    local_tree: MerkleTree,
    repair_tasks: Vec<RepairTask>,
    next_task_id: u64,
    max_concurrent_repairs: usize,
    local_digests: Vec<Digest>,
}

impl AntiEntropyRepair {
    /// The repair tasks, in order of creation (so of increasing id).
    pub closed spec fn tasks(&self) -> Seq<RepairTask> {
        self.repair_tasks@
    }

    /// The id the next task gets.
    pub closed spec fn next_id(&self) -> u64 {
        self.next_task_id
    }

    pub closed spec fn max_concurrent(&self) -> usize {
        self.max_concurrent_repairs
    }

    /// The local digests, as last given.
    pub closed spec fn digests(&self) -> Seq<Digest> {
        self.local_digests@
    }

    /// The Merkle tree over the local digests.
    pub closed spec fn tree(&self) -> MerkleTree {
        self.local_tree
    }

    /// Task ids increase strictly in creation order and stay below the next
    /// id, and the tree is the one built from the local digests.
    pub closed spec fn wf(&self) -> bool {
        &&& forall|i: int, j: int|
            0 <= i < j < self.repair_tasks@.len() ==> self.repair_tasks@[i].task_id
                < self.repair_tasks@[j].task_id
        &&& forall|i: int|
            0 <= i < self.repair_tasks@.len() ==> self.repair_tasks@[i].task_id < self.next_task_id
        &&& self.local_tree.root_node() == built_root(
            self.local_digests@,
            self.local_tree.bucket() as nat,
        )
        &&& in_progress_count(self.repair_tasks@) <= self.max_concurrent_repairs
    }

    /// In every reachable state at most `max_concurrent` repairs are in
    /// progress, and the in-progress count is the number of tasks that
    /// `in_progress_tasks` lists.
    pub proof fn lemma_in_progress_bounded(&self)
        requires
            self.wf(),
        ensures
            in_progress_count(self.tasks()) <= self.max_concurrent(),
            in_progress_of(self.tasks()).len() == in_progress_count(self.tasks()),
    {
        lemma_in_progress_of_len(self.tasks());
    }

    /// Task ids increase strictly in creation order.
    pub proof fn lemma_task_ids_increase(&self)
        requires
            self.wf(),
        ensures
            forall|i: int, j: int|
                0 <= i < j < self.tasks().len() ==> #[trigger] self.tasks()[i].task_id < #[trigger] self.tasks()[j].task_id,
    {
    }

    pub fn new(bucket_size: usize, max_concurrent_repairs: usize) -> (r: Self)
        ensures
            r.wf(),
            r.tasks() == Seq::<RepairTask>::empty(),
            r.next_id() == 1,
            r.max_concurrent() == max_concurrent_repairs,
            r.digests() == Seq::<Digest>::empty(),
            r.tree().bucket() == bucket_size,
            r.tree().root_node() is None,
    {
        AntiEntropyRepair {
            local_tree: MerkleTree::new(bucket_size),
            repair_tasks: Vec::new(),
            next_task_id: 1,
            max_concurrent_repairs,
            local_digests: Vec::new(),
        }
    }

    /// Replaces the local digests and rebuilds the tree over them.
    pub fn update_digests(&mut self, digests: Vec<Digest>)
        requires
            old(self).wf(),
            digests@.len() > 0 ==> old(self).tree().bucket() > 0,
        ensures
            final(self).wf(),
            final(self).digests() == digests@,
            final(self).tree().bucket() == old(self).tree().bucket(),
            final(self).tree().root_node() == built_root(digests@, old(self).tree().bucket() as nat),
            final(self).tasks() == old(self).tasks(),
            final(self).next_id() == old(self).next_id(),
            final(self).max_concurrent() == old(self).max_concurrent(),
    {
        self.local_digests = digests;
        self.local_tree.build_from_digests(self.local_digests.as_slice());
    }

    /// The root hash of the local tree (0 when it is empty).
    pub fn root_hash(&self) -> (r: u64)
        ensures
            r == match self.tree().root_node() {
                Some(n) => n.hash,
                None => 0,
            },
    {
        self.local_tree.root_hash()
    }

    /// Compares the local tree with a remote one.
    pub fn compare_with(&self, remote_tree: &MerkleTree) -> (r: DiffReport)
        ensures
            r.differing_ranges@ == tree_diff(self.tree().root_node(), remote_tree.root_node()),
            r.identical == (tree_diff(self.tree().root_node(), remote_tree.root_node()).len() == 0),
    {
        self.local_tree.diff(remote_tree)
    }

    fn ids_in_range(&self, start: u64, end: u64) -> (r: Vec<FragmentId>)
        ensures
            r@ == ids_in(self.digests(), start, end),
    {
        let mut ids: Vec<FragmentId> = Vec::new();
        let n = self.local_digests.len();
        let mut j: usize = 0;
        while j < n
            invariant
                n == self.local_digests@.len(),
                j <= n,
                ids@ == ids_in(self.local_digests@.take(j as int), start, end),
            decreases n - j,
        {
            proof {
                assert(self.local_digests@.take(j + 1).drop_last() == self.local_digests@.take(j as int));
            }
            let id = self.local_digests[j].0;
            if id >= start && id <= end {
                ids.push(id);
            }
            j = j + 1;
        }
        assert(self.local_digests@.take(n as int) == self.local_digests@);
        ids
    }

    /// Creates a pending task over the given ranges; its fragments are the
    /// local digests' ids in each range, range after range.
    pub fn create_repair_task(
        &mut self,
        source_node: String,
        target_node: String,
        differing_ranges: Vec<(u64, u64)>,
    ) -> (r: u64)
        requires
            old(self).wf(),
            old(self).next_id() < u64::MAX,
        ensures
            final(self).wf(),
            r == old(self).next_id(),
            final(self).next_id() == old(self).next_id() + 1,
            final(self).tasks().len() == old(self).tasks().len() + 1,
            final(self).tasks().drop_last() == old(self).tasks(),
            final(self).tasks().last().task_id == r,
            final(self).tasks().last().source_node == source_node,
            final(self).tasks().last().target_node == target_node,
            final(self).tasks().last().fragment_ids@ == ids_in_ranges(old(self).digests(), differing_ranges@),
            final(self).tasks().last().status == RepairStatus::Pending,
            final(self).tasks().last().differing_ranges == differing_ranges,
            final(self).digests() == old(self).digests(),
            final(self).tree() == old(self).tree(),
            final(self).max_concurrent() == old(self).max_concurrent(),
    {
        let task_id = self.next_task_id;
        let mut fragment_ids: Vec<FragmentId> = Vec::new();
        let n = differing_ranges.len();
        let mut k: usize = 0;
        while k < n
            invariant
                n == differing_ranges@.len(),
                k <= n,
                fragment_ids@ == ids_in_ranges(self.local_digests@, differing_ranges@.take(k as int)),
            decreases n - k,
        {
            proof {
                assert(differing_ranges@.take(k + 1).drop_last() == differing_ranges@.take(k as int));
            }
            let (start, end) = differing_ranges[k];
            let mut part = self.ids_in_range(start, end);
            fragment_ids.append(&mut part);
            k = k + 1;
        }
        assert(differing_ranges@.take(n as int) == differing_ranges@);
        let task = RepairTask {
            task_id,
            source_node,
            target_node,
            fragment_ids,
            status: RepairStatus::Pending,
            differing_ranges,
        };
        self.repair_tasks.push(task);
        self.next_task_id = task_id + 1;
        assert(self.repair_tasks@.drop_last() == old(self).repair_tasks@);
        task_id
    }

    fn find_task(&self, task_id: u64) -> (r: Option<usize>)
        requires
            self.wf(),
        ensures
            match r {
                Some(i) => i < self.tasks().len() && self.tasks()[i as int].task_id == task_id
                    && task_index(self.tasks(), task_id) == i as int && has_task(self.tasks(), task_id),
                None => !has_task(self.tasks(), task_id),
            },
    {
        let n = self.repair_tasks.len();
        let mut i: usize = 0;
        while i < n
            invariant
                self.wf(),
                n == self.repair_tasks@.len(),
                i <= n,
                forall|j: int| 0 <= j < i ==> self.repair_tasks@[j].task_id != task_id,
            decreases n - i,
        {
            if self.repair_tasks[i].task_id == task_id {
                proof {
                    assert(has_task(self.tasks(), task_id));
                    let k = task_index(self.tasks(), task_id);
                    if k < i {
                        assert(self.repair_tasks@[k].task_id < self.repair_tasks@[i as int].task_id);
                    } else if k > i {
                        assert(self.repair_tasks@[i as int].task_id < self.repair_tasks@[k].task_id);
                    }
                }
                return Some(i);
            }
            i = i + 1;
        }
        None
    }

    fn set_status(&mut self, i: usize, status: RepairStatus)
        requires
            old(self).wf(),
            i < old(self).tasks().len(),
            status is InProgress ==> in_progress_count(old(self).tasks()) < old(self).max_concurrent(),
        ensures
            final(self).wf(),
            final(self).tasks() == old(self).tasks().update(i as int, with_status(old(self).tasks()[i as int], status)),
            final(self).next_id() == old(self).next_id(),
            final(self).digests() == old(self).digests(),
            final(self).tree() == old(self).tree(),
            final(self).max_concurrent() == old(self).max_concurrent(),
    {
        let mut t = self.repair_tasks.remove(i);
        t.status = status;
        self.repair_tasks.insert(i, t);
        assert(self.repair_tasks@ == old(self).repair_tasks@.update(i as int, with_status(old(self).repair_tasks@[i as int], status)));
        proof {
            lemma_in_progress_update(old(self).repair_tasks@, i as int, with_status(old(self).repair_tasks@[i as int], status));
        }
    }

    fn count_in_progress(&self) -> (r: usize)
        ensures
            r == in_progress_count(self.tasks()),
    {
        let n = self.repair_tasks.len();
        let mut c: usize = 0;
        let mut i: usize = 0;
        while i < n
            invariant
                n == self.repair_tasks@.len(),
                i <= n,
                c == in_progress_count(self.repair_tasks@.take(i as int)),
                c <= i,
            decreases n - i,
        {
            proof {
                assert(self.repair_tasks@.take(i + 1).drop_last() == self.repair_tasks@.take(i as int));
            }
            if matches!(self.repair_tasks[i].status, RepairStatus::InProgress) {
                c = c + 1;
            }
            i = i + 1;
        }
        assert(self.repair_tasks@.take(n as int) == self.repair_tasks@);
        c
    }

    /// Starts a pending task, unless as many tasks as allowed are already in
    /// progress, the task does not exist, or it is not pending.
    pub fn start_repair(&mut self, task_id: u64) -> (r: Result<(), String>)
        requires
            old(self).wf(),
        ensures
            final(self).wf(),
            final(self).next_id() == old(self).next_id(),
            final(self).digests() == old(self).digests(),
            final(self).tree() == old(self).tree(),
            final(self).max_concurrent() == old(self).max_concurrent(),
            in_progress_count(old(self).tasks()) >= old(self).max_concurrent() ==> {
                &&& r matches Err(e) && e@ == "已达到最大并发修复数"@
                &&& final(self).tasks() == old(self).tasks()
            },
            in_progress_count(old(self).tasks()) < old(self).max_concurrent() && !has_task(old(self).tasks(), task_id) ==> {
                &&& r matches Err(e) && e@ == "任务不存在"@
                &&& final(self).tasks() == old(self).tasks()
            },
            in_progress_count(old(self).tasks()) < old(self).max_concurrent() && has_task(old(self).tasks(), task_id) ==> {
                let t = old(self).tasks()[task_index(old(self).tasks(), task_id)];
                if t.status is Pending {
                    &&& r is Ok
                    &&& final(self).tasks() == set_status_spec(old(self).tasks(), task_id, RepairStatus::InProgress)
                } else {
                    &&& r matches Err(e) && e@ == "任务状态不是 Pending: "@ + status_debug(t.status)
                    &&& final(self).tasks() == old(self).tasks()
                }
            },
    {
        let in_progress = self.count_in_progress();
        if in_progress >= self.max_concurrent_repairs {
            return Err(String::from_str("已达到最大并发修复数"));
        }
        match self.find_task(task_id) {
            Some(i) => {
                if matches!(self.repair_tasks[i].status, RepairStatus::Pending) {
                    self.set_status(i, RepairStatus::InProgress);
                    Ok(())
                } else {
                    let mut e = String::from_str("任务状态不是 Pending: ");
                    e.append(status_text(&self.repair_tasks[i].status).as_str());
                    Err(e)
                }
            },
            None => Err(String::from_str("任务不存在")),
        }
    }

    /// Marks the task with this id completed, if there is one.
    pub fn complete_repair(&mut self, task_id: u64)
        requires
            old(self).wf(),
        ensures
            final(self).wf(),
            final(self).tasks() == set_status_spec(old(self).tasks(), task_id, RepairStatus::Completed),
            final(self).next_id() == old(self).next_id(),
            final(self).digests() == old(self).digests(),
            final(self).tree() == old(self).tree(),
            final(self).max_concurrent() == old(self).max_concurrent(),
    {
        if let Some(i) = self.find_task(task_id) {
            self.set_status(i, RepairStatus::Completed);
        }
    }

    /// Marks the task with this id failed for the given reason, if there is one.
    pub fn fail_repair(&mut self, task_id: u64, reason: String)
        requires
            old(self).wf(),
        ensures
            final(self).wf(),
            final(self).tasks() == set_status_spec(old(self).tasks(), task_id, RepairStatus::Failed(reason)),
            final(self).next_id() == old(self).next_id(),
            final(self).digests() == old(self).digests(),
            final(self).tree() == old(self).tree(),
            final(self).max_concurrent() == old(self).max_concurrent(),
    {
        if let Some(i) = self.find_task(task_id) {
            self.set_status(i, RepairStatus::Failed(reason));
        }
    }

    /// The pending tasks, in order of creation.
    pub fn pending_tasks(&self) -> (r: Vec<&RepairTask>)
        ensures
            r@.len() == pending_of(self.tasks()).len(),
            forall|i: int| 0 <= i < r@.len() ==> *r@[i] == pending_of(self.tasks())[i],
    {
        let n = self.repair_tasks.len();
        let mut out: Vec<&RepairTask> = Vec::new();
        let mut i: usize = 0;
        while i < n
            invariant
                n == self.repair_tasks@.len(),
                i <= n,
                out@.len() == pending_of(self.repair_tasks@.take(i as int)).len(),
                forall|j: int| 0 <= j < out@.len() ==> *out@[j] == pending_of(self.repair_tasks@.take(i as int))[j],
            decreases n - i,
        {
            proof {
                assert(self.repair_tasks@.take(i + 1).drop_last() == self.repair_tasks@.take(i as int));
            }
            let t = &self.repair_tasks[i];
            if matches!(t.status, RepairStatus::Pending) {
                out.push(t);
            }
            i = i + 1;
        }
        assert(self.repair_tasks@.take(n as int) == self.repair_tasks@);
        out
    }

    /// The tasks in progress, in order of creation.
    pub fn in_progress_tasks(&self) -> (r: Vec<&RepairTask>)
        ensures
            r@.len() == in_progress_of(self.tasks()).len(),
            forall|i: int| 0 <= i < r@.len() ==> *r@[i] == in_progress_of(self.tasks())[i],
    {
        let n = self.repair_tasks.len();
        let mut out: Vec<&RepairTask> = Vec::new();
        let mut i: usize = 0;
        while i < n
            invariant
                n == self.repair_tasks@.len(),
                i <= n,
                out@.len() == in_progress_of(self.repair_tasks@.take(i as int)).len(),
                forall|j: int| 0 <= j < out@.len() ==> *out@[j] == in_progress_of(self.repair_tasks@.take(i as int))[j],
            decreases n - i,
        {
            proof {
                assert(self.repair_tasks@.take(i + 1).drop_last() == self.repair_tasks@.take(i as int));
            }
            let t = &self.repair_tasks[i];
            if matches!(t.status, RepairStatus::InProgress) {
                out.push(t);
            }
            i = i + 1;
        }
        assert(self.repair_tasks@.take(n as int) == self.repair_tasks@);
        out
    }

    /// One `Skip` when the trees agree; else, per differing range, the local
    /// ids in it, to request when the remote is newer and to send otherwise.
    pub fn compute_sync_actions(&self, diff: &DiffReport, remote_has_newer: bool) -> (r: Vec<SyncAction>)
        ensures
            diff.identical ==> r@.len() == 1 && r@[0] is Skip,
            !diff.identical ==> {
                &&& r@.len() == diff.differing_ranges@.len()
                &&& forall|i: int| #![trigger r@[i]] 0 <= i < r@.len() ==> {
                    let ids = ids_in(self.digests(), diff.differing_ranges@[i].0, diff.differing_ranges@[i].1);
                    if remote_has_newer {
                        r@[i] matches SyncAction::Request { fragment_ids } && fragment_ids@ == ids
                    } else {
                        r@[i] matches SyncAction::Send { fragment_ids } && fragment_ids@ == ids
                    }
                }
            },
    {
        if diff.identical {
            return vec![SyncAction::Skip];
        }
        let n = diff.differing_ranges.len();
        let mut out: Vec<SyncAction> = Vec::new();
        let mut i: usize = 0;
        while i < n
            invariant
                n == diff.differing_ranges@.len(),
                i <= n,
                out@.len() == i,
                forall|k: int| #![trigger out@[k]] 0 <= k < i ==> {
                    let ids = ids_in(self.digests(), diff.differing_ranges@[k].0, diff.differing_ranges@[k].1);
                    if remote_has_newer {
                        out@[k] matches SyncAction::Request { fragment_ids } && fragment_ids@ == ids
                    } else {
                        out@[k] matches SyncAction::Send { fragment_ids } && fragment_ids@ == ids
                    }
                },
            decreases n - i,
        {
            let (start, end) = diff.differing_ranges[i];
            let ids = self.ids_in_range(start, end);
            if remote_has_newer {
                out.push(SyncAction::Request { fragment_ids: ids });
            } else {
                out.push(SyncAction::Send { fragment_ids: ids });
            }
            i = i + 1;
        }
        out
    }

    /// The id the next task will get.
    pub fn next_task_id(&self) -> (r: u64)
        ensures
            r == self.next_id(),
    {
        self.next_task_id
    }

    pub fn task_count(&self) -> (r: usize)
        ensures
            r == self.tasks().len(),
    {
        self.repair_tasks.len()
    }

    pub fn completed_task_count(&self) -> (r: usize)
        ensures
            r == completed_count(self.tasks()),
    {
        let n = self.repair_tasks.len();
        let mut c: usize = 0;
        let mut i: usize = 0;
        while i < n
            invariant
                n == self.repair_tasks@.len(),
                i <= n,
                c == completed_count(self.repair_tasks@.take(i as int)),
                c <= i,
            decreases n - i,
        {
            proof {
                assert(self.repair_tasks@.take(i + 1).drop_last() == self.repair_tasks@.take(i as int));
            }
            if matches!(self.repair_tasks[i].status, RepairStatus::Completed) {
                c = c + 1;
            }
            i = i + 1;
        }
        assert(self.repair_tasks@.take(n as int) == self.repair_tasks@);
        c
    }
}

/// The node reached from `n` by following `path` (`false` to the left
/// child, `true` to the right one), if every child on the way is there.
pub open spec fn node_at(n: MerkleNode, path: Seq<bool>) -> Option<MerkleNode>
    decreases path.len(),
{
    if path.len() == 0 {
        Some(n)
    } else {
        let child = if path[0] { n.right } else { n.left };
        match child {
            Some(c) => node_at(*c, path.drop_first()),
            None => None,
        }
    }
}

/// Along `path` the two trees have corresponding nodes whose hashes differ
/// at every step, from the roots down to the nodes at the end of the path,
/// and every node passed on the way has both children.
pub open spec fn differs_along(a: MerkleNode, b: MerkleNode, path: Seq<bool>) -> bool
    decreases path.len(),
{
    &&& a.hash != b.hash
    &&& path.len() > 0 ==> match (a.left, a.right, b.left, b.right) {
        (Some(al), Some(ar), Some(bl), Some(br)) => if path[0] {
            differs_along(*ar, *br, path.drop_first())
        } else {
            differs_along(*al, *bl, path.drop_first())
        },
        _ => false,
    }
}

/// The id range `r` contains the range of node `n`.
pub open spec fn covers(r: (u64, u64), n: MerkleNode) -> bool {
    r.0 <= n.range_start && n.range_end <= r.1
}

proof fn lemma_node_at_step(a: MerkleNode, path: Seq<bool>)
    requires
        path.len() > 0,
        a.left is Some,
        a.right is Some,
    ensures
        path[0] ==> node_at(a, path) == node_at(*(a.right->0), path.drop_first()),
        !path[0] ==> node_at(a, path) == node_at(*(a.left->0), path.drop_first()),
{
}

/// The diff is complete: where two trees reach, along one path, a pair of
/// corresponding nodes of which at least one is a leaf, and the hashes
/// differ at every node on the way, some reported range covers the ranges
/// of both nodes. So every differing pair of corresponding leaves is
/// reported, on either side of the tree, whatever else differs.
pub proof fn lemma_diff_complete(a: MerkleNode, b: MerkleNode, path: Seq<bool>)
    requires
        differs_along(a, b, path),
    ensures
        node_at(a, path) is Some,
        node_at(b, path) is Some,
        (node_at(a, path)->0).is_leaf_spec() || (node_at(b, path)->0).is_leaf_spec() ==> exists|q: int|
            0 <= q < diff_ranges(a, b).len() && #[trigger] covers(diff_ranges(a, b)[q], node_at(a, path)->0)
                && covers(diff_ranges(a, b)[q], node_at(b, path)->0),
    decreases path.len(),
{
    if path.len() == 0 {
        if a.is_leaf_spec() || b.is_leaf_spec() {
            assert(node_at(a, path) == Some(a) && node_at(b, path) == Some(b));
            assert(diff_ranges(a, b).len() == 1);
            assert(covers(diff_ranges(a, b)[0], a) && covers(diff_ranges(a, b)[0], b));
        }
    } else {
        match (a.left, a.right, b.left, b.right) {
            (Some(al), Some(ar), Some(bl), Some(br)) => {
                let rest = path.drop_first();
                lemma_node_at_step(a, path);
                lemma_node_at_step(b, path);
                let l = diff_ranges(*al, *bl);
                let r = diff_ranges(*ar, *br);
                assert(diff_ranges(a, b) == l + r);
                if path[0] {
                    lemma_diff_complete(*ar, *br, rest);
                    if (node_at(a, path)->0).is_leaf_spec() || (node_at(b, path)->0).is_leaf_spec() {
                        let q = choose|q: int| 0 <= q < r.len() && #[trigger] covers(r[q], node_at(*ar, rest)->0)
                            && covers(r[q], node_at(*br, rest)->0);
                        assert((l + r)[l.len() + q] == r[q]);
                        assert(covers(diff_ranges(a, b)[l.len() + q], node_at(a, path)->0));
                    }
                } else {
                    lemma_diff_complete(*al, *bl, rest);
                    if (node_at(a, path)->0).is_leaf_spec() || (node_at(b, path)->0).is_leaf_spec() {
                        let q = choose|q: int| 0 <= q < l.len() && #[trigger] covers(l[q], node_at(*al, rest)->0)
                            && covers(l[q], node_at(*bl, rest)->0);
                        assert((l + r)[q] == l[q]);
                        assert(covers(diff_ranges(a, b)[q], node_at(a, path)->0));
                    }
                }
            },
            _ => {},
        }
    }
}

/// The diff is sound: each reported range is that of a pair of
/// corresponding nodes, at least one of them a leaf, whose hashes differ at
/// every node on the way to them; it spans from the lower start to the
/// higher end of the two.
pub proof fn lemma_diff_sound(a: MerkleNode, b: MerkleNode, q: int)
    requires
        0 <= q < diff_ranges(a, b).len(),
    ensures
        exists|path: Seq<bool>| #[trigger] differs_along(a, b, path) && {
            let x = node_at(a, path)->0;
            let y = node_at(b, path)->0;
            &&& node_at(a, path) is Some
            &&& node_at(b, path) is Some
            &&& x.is_leaf_spec() || y.is_leaf_spec()
            &&& diff_ranges(a, b)[q] == (
                if x.range_start <= y.range_start { x.range_start } else { y.range_start },
                if x.range_end >= y.range_end { x.range_end } else { y.range_end },
            )
        },
    decreases a,
{
    if a.is_leaf_spec() || b.is_leaf_spec() {
        let path = Seq::<bool>::empty();
        assert(differs_along(a, b, path));
    } else {
        match (a.left, a.right, b.left, b.right) {
            (Some(al), Some(ar), Some(bl), Some(br)) => {
                let l = diff_ranges(*al, *bl);
                let r = diff_ranges(*ar, *br);
                assert(diff_ranges(a, b) == l + r);
                if q < l.len() {
                    lemma_diff_sound(*al, *bl, q);
                    let p = choose|path: Seq<bool>| #[trigger] differs_along(*al, *bl, path) && {
                        let x = node_at(*al, path)->0;
                        let y = node_at(*bl, path)->0;
                        &&& node_at(*al, path) is Some
                        &&& node_at(*bl, path) is Some
                        &&& x.is_leaf_spec() || y.is_leaf_spec()
                        &&& l[q] == (
                            if x.range_start <= y.range_start { x.range_start } else { y.range_start },
                            if x.range_end >= y.range_end { x.range_end } else { y.range_end },
                        )
                    };
                    let path = seq![false] + p;
                    assert(path.drop_first() =~= p);
                    lemma_node_at_step(a, path);
                    lemma_node_at_step(b, path);
                    assert(differs_along(a, b, path));
                    assert((l + r)[q] == l[q]);
                } else {
                    let k = q - l.len();
                    lemma_diff_sound(*ar, *br, k);
                    let p = choose|path: Seq<bool>| #[trigger] differs_along(*ar, *br, path) && {
                        let x = node_at(*ar, path)->0;
                        let y = node_at(*br, path)->0;
                        &&& node_at(*ar, path) is Some
                        &&& node_at(*br, path) is Some
                        &&& x.is_leaf_spec() || y.is_leaf_spec()
                        &&& r[k] == (
                            if x.range_start <= y.range_start { x.range_start } else { y.range_start },
                            if x.range_end >= y.range_end { x.range_end } else { y.range_end },
                        )
                    };
                    let path = seq![true] + p;
                    assert(path.drop_first() =~= p);
                    lemma_node_at_step(a, path);
                    lemma_node_at_step(b, path);
                    assert(differs_along(a, b, path));
                    assert((l + r)[q] == r[k]);
                }
            },
            _ => {},
        }
    }
}

/// Where two inner nodes with both children differ, the report is that of
/// the left children followed by that of the right children.
pub proof fn lemma_diff_inner(a: MerkleNode, b: MerkleNode)
    requires
        a.hash != b.hash,
        a.left is Some && a.right is Some,
        b.left is Some && b.right is Some,
    ensures
        diff_ranges(a, b) == diff_ranges(node_at(a, seq![false])->0, node_at(b, seq![false])->0)
            + diff_ranges(node_at(a, seq![true])->0, node_at(b, seq![true])->0),
{
    lemma_node_at_step(a, seq![false]);
    lemma_node_at_step(b, seq![false]);
    lemma_node_at_step(a, seq![true]);
    lemma_node_at_step(b, seq![true]);
    assert(seq![false].drop_first() =~= Seq::<bool>::empty());
    assert(seq![true].drop_first() =~= Seq::<bool>::empty());
}

} // verus!

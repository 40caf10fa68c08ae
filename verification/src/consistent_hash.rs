//! A consistent-hash ring with virtual nodes.
use vstd::prelude::*;
use vstd::std_specs::hash::DefaultHasherAdditionalSpecFns;
use vstd::utf8::encode_utf8;
use std::collections::hash_map::DefaultHasher;
use std::hash::Hasher;
use crate::text::{dec, usize_to_string, u64_to_string};
use crate::types::FragmentId;
use crate::order::{chars_before, chars_less, lemma_before_total, lemma_before_trans};
use crate::tags::chars_of;

verus! {

/// Why a ring operation was refused.
#[derive(Debug)]
pub enum RingError {
    EmptyRing,
    NodeExists(String),
    NodeNotFound(String),
}

/// A virtual node: a point on the ring and the node it belongs to.
#[derive(Debug, Clone, PartialEq, Eq, Hash)]
pub struct VirtualNode {
    pub hash: u64,
    pub node_id: String,
}

/// The ring position of a key: the standard library's `DefaultHasher`
/// (SipHash with fixed keys) over the key's UTF-8 bytes, written once.
pub open spec fn key_hash(key: Seq<char>) -> u64 {
    DefaultHasher::spec_finish(seq![encode_utf8(key)])
}

/// The key of the `i`-th virtual node of a node: `"<node>:vn:<i>"`.
pub open spec fn vnode_key(node: Seq<char>, i: nat) -> Seq<char> {
    node + ":vn:"@ + dec(i)
}

/// The ring position of the `i`-th virtual node of a node.
pub open spec fn vnode_hash(node: Seq<char>, i: nat) -> u64 {
    key_hash(vnode_key(node, i))
}

/// The key under which a fragment is placed: `"frag:<id>"`.
pub open spec fn fragment_key(id: u64) -> Seq<char> {
    "frag:"@ + dec(id as nat)
}

/// A ring: entries (position, node) in strictly increasing position.
pub open spec fn sorted_ring(r: Seq<(u64, Seq<char>)>) -> bool {
    forall|i: int, j: int| 0 <= i < j < r.len() ==> r[i].0 < r[j].0
}

/// The number of entries placed before position `h`, which (in a sorted
/// ring) is the index of the first entry at or after `h`.
pub open spec fn lower_bound(r: Seq<(u64, Seq<char>)>, h: u64) -> int
    decreases r.len(),
{
    if r.len() == 0 {
        0
    } else if r.last().0 < h {
        r.len() as int
    } else {
        lower_bound(r.drop_last(), h)
    }
}

/// The ring with the entry at position `h` set to `v` (added or replaced).
pub open spec fn ring_put(r: Seq<(u64, Seq<char>)>, h: u64, v: Seq<char>) -> Seq<(u64, Seq<char>)> {
    let p = lower_bound(r, h);
    if p < r.len() && r[p].0 == h {
        r.update(p, (h, v))
    } else {
        r.insert(p, (h, v))
    }
}

/// The ring without an entry at position `h`.
pub open spec fn ring_del(r: Seq<(u64, Seq<char>)>, h: u64) -> Seq<(u64, Seq<char>)> {
    let p = lower_bound(r, h);
    if p < r.len() && r[p].0 == h {
        r.remove(p)
    } else {
        r
    }
}

/// The ring after placing the first `n` virtual nodes of `node`, in order.
pub open spec fn ring_add_vnodes(r: Seq<(u64, Seq<char>)>, node: Seq<char>, n: nat) -> Seq<(u64, Seq<char>)>
    decreases n,
{
    if n == 0 {
        r
    } else {
        let prev = ring_add_vnodes(r, node, (n - 1) as nat);
        ring_put(prev, vnode_hash(node, (n - 1) as nat), node)
    }
}

/// The ring after removing the positions of the first `n` virtual nodes of
/// `node`, in order (whichever node holds them).
pub open spec fn ring_del_vnodes(r: Seq<(u64, Seq<char>)>, node: Seq<char>, n: nat) -> Seq<(u64, Seq<char>)>
    decreases n,
{
    if n == 0 {
        r
    } else {
        let prev = ring_del_vnodes(r, node, (n - 1) as nat);
        ring_del(prev, vnode_hash(node, (n - 1) as nat))
    }
}

/// The node owning position `h`: that of the first entry at or after `h`,
/// wrapping around to the first entry.
pub open spec fn owner(r: Seq<(u64, Seq<char>)>, h: u64) -> Seq<char> {
    let p = lower_bound(r, h);
    if p < r.len() {
        r[p].1
    } else {
        r[0].1
    }
}

/// The nodes met walking clockwise from position `h` and then once around
/// the whole ring.
pub open spec fn walk_from(r: Seq<(u64, Seq<char>)>, h: u64) -> Seq<Seq<char>> {
    (r.skip(lower_bound(r, h)) + r).map_values(|e: (u64, Seq<char>)| e.1)
}

/// The distinct elements of `s` in order of first occurrence.
pub open spec fn distinct(s: Seq<Seq<char>>) -> Seq<Seq<char>>
    decreases s.len(),
{
    if s.len() == 0 {
        Seq::empty()
    } else {
        let d = distinct(s.drop_last());
        if d.contains(s.last()) {
            d
        } else {
            d.push(s.last())
        }
    }
}

/// `s` without the elements equal to `x`.
pub open spec fn without(s: Seq<Seq<char>>, x: Seq<char>) -> Seq<Seq<char>>
    decreases s.len(),
{
    if s.len() == 0 {
        Seq::empty()
    } else if s.last() == x {
        without(s.drop_last(), x)
    } else {
        without(s.drop_last(), x).push(s.last())
    }
}

/// How many entries of the ring belong to `node`.
pub open spec fn owned_count(r: Seq<(u64, Seq<char>)>, node: Seq<char>) -> nat
    decreases r.len(),
{
    if r.len() == 0 {
        0
    } else {
        owned_count(r.drop_last(), node) + if r.last().1 == node { 1nat } else { 0nat }
    }
}

/// The migration plan for a node about to join: for each of its virtual
/// nodes `i < n` whose position is owned by another node, that owner with the
/// virtual node's position and the position of the next virtual node
/// (cyclically among `count`).
pub open spec fn migration_plan(r: Seq<(u64, Seq<char>)>, node: Seq<char>, count: nat, n: nat) -> Seq<(Seq<char>, u64, u64)>
    decreases n,
{
    if n == 0 {
        Seq::empty()
    } else {
        let prev = migration_plan(r, node, count, (n - 1) as nat);
        let i = (n - 1) as nat;
        let h = vnode_hash(node, i);
        let src = owner(r, h);
        if src != node {
            prev.push((src, h, vnode_hash(node, (i + 1) % count)))
        } else {
            prev
        }
    }
}

pub open spec fn string_views(s: Seq<String>) -> Seq<Seq<char>> {
    s.map_values(|x: String| x@)
}

pub open spec fn entry_views(s: Seq<(u64, String)>) -> Seq<(u64, Seq<char>)> {
    s.map_values(|e: (u64, String)| (e.0, e.1@))
}

/// A consistent-hash ring: virtual nodes of each member placed on a ring of
/// 64-bit positions; a key belongs to the node of the first virtual node at
/// or after its position.
pub struct ConsistentHashRing {
    ring: Vec<(u64, String)>,
    nodes: Vec<String>,
    virtual_node_count: usize,
}

impl ConsistentHashRing {
    /// The ring's entries, by increasing position.
    pub closed spec fn ring(&self) -> Seq<(u64, Seq<char>)> {
        entry_views(self.ring@)
    }

    /// The member nodes, in order of joining.
    pub closed spec fn members(&self) -> Seq<Seq<char>> {
        string_views(self.nodes@)
    }

    /// How many virtual nodes each member places.
    pub closed spec fn vnodes_per_node(&self) -> usize {
        self.virtual_node_count
    }

    /// Positions increase strictly, members are distinct, and every entry
    /// belongs to a member and sits at one of that member's virtual-node
    /// positions.
    pub closed spec fn wf(&self) -> bool {
        &&& sorted_ring(self.ring())
        &&& self.members().no_duplicates()
        &&& forall|i: int| 0 <= i < self.ring().len() ==> #[trigger] ring_entry_ok(
            self.ring()[i],
            self.members(),
            self.virtual_node_count as nat,
        )
    }

    /// A well-formed ring: positions increase strictly, members are
    /// distinct, and every entry belongs to a member at one of that
    /// member's virtual-node positions.
    pub proof fn lemma_wf_parts(&self)
        requires
            self.wf(),
        ensures
            sorted_ring(self.ring()),
            self.members().no_duplicates(),
            forall|i: int| 0 <= i < self.ring().len() ==> #[trigger] ring_entry_ok(
                self.ring()[i],
                self.members(),
                self.vnodes_per_node() as nat,
            ),
    {
    }

    pub fn new(virtual_node_count: usize) -> (r: Self)
        ensures
            r.wf(),
            r.ring() == Seq::<(u64, Seq<char>)>::empty(),
            r.members() == Seq::<Seq<char>>::empty(),
            r.vnodes_per_node() == virtual_node_count,
    {
        let r = ConsistentHashRing { ring: Vec::new(), nodes: Vec::new(), virtual_node_count };
        assert(r.ring() =~= Seq::<(u64, Seq<char>)>::empty());
        assert(r.members() =~= Seq::<Seq<char>>::empty());
        r
    }

    /// The ring position of a key.
    pub fn hash_key(key: &str) -> (r: u64)
        ensures
            r == key_hash(key@),
    {
        let mut hasher = DefaultHasher::new();
        hasher.write(key.as_bytes());
        hasher.finish()
    }

    fn hash_virtual_node(node_id: &str, replica_index: usize) -> (r: u64)
        ensures
            r == vnode_hash(node_id@, replica_index as nat),
    {
        let mut key = String::from_str(node_id);
        key.append(":vn:");
        key.append(usize_to_string(replica_index).as_str());
        Self::hash_key(key.as_str())
    }

    fn lower_bound_exec(&self, h: u64) -> (p: usize)
        requires
            sorted_ring(self.ring()),
        ensures
            p == lower_bound(self.ring(), h),
    {
        proof {
            lemma_lower_bound(self.ring(), h);
        }
        let mut lo: usize = 0;
        let mut hi: usize = self.ring.len();
        while lo < hi
            invariant
                sorted_ring(self.ring()),
                self.ring().len() == self.ring@.len(),
                lo <= hi <= self.ring@.len(),
                forall|i: int| 0 <= i < lo ==> self.ring()[i].0 < h,
                forall|i: int| hi <= i < self.ring@.len() ==> self.ring()[i].0 >= h,
            decreases hi - lo,
        {
            let mid = lo + (hi - lo) / 2;
            assert(self.ring()[mid as int].0 == self.ring@[mid as int].0);
            if self.ring[mid].0 < h {
                lo = mid + 1;
            } else {
                hi = mid;
            }
        }
        proof {
            lemma_lower_bound(self.ring(), h);
            let q = lower_bound(self.ring(), h);
            if q < lo {
                assert(self.ring()[q].0 >= h);
            } else if q > lo {
                assert(self.ring()[lo as int].0 < h);
            }
        }
        lo
    }

    fn contains_node(&self, name: &String) -> (r: bool)
        ensures
            r == self.members().contains(name@),
    {
        let mut i: usize = 0;
        while i < self.nodes.len()
            invariant
                i <= self.nodes@.len(),
                self.members().len() == self.nodes@.len(),
                forall|j: int| 0 <= j < i ==> self.members()[j] != name@,
            decreases self.nodes@.len() - i,
        {
            if self.nodes[i] == *name {
                assert(self.members()[i as int] == name@);
                return true;
            }
            i = i + 1;
        }
        false
    }

    fn put(&mut self, h: u64, name: String)
        requires
            sorted_ring(old(self).ring()),
        ensures
            sorted_ring(final(self).ring()),
            final(self).ring() == ring_put(old(self).ring(), h, name@),
            final(self).nodes == old(self).nodes,
            final(self).virtual_node_count == old(self).virtual_node_count,
    {
        let p = self.lower_bound_exec(h);
        proof {
            lemma_lower_bound(self.ring(), h);
        }
        if p < self.ring.len() && self.ring[p].0 == h {
            self.ring.set(p, (h, name));
            assert(self.ring() =~= old(self).ring().update(p as int, (h, name@)));
        } else {
            self.ring.insert(p, (h, name));
            assert(self.ring() =~= old(self).ring().insert(p as int, (h, name@)));
        }
        proof {
            lemma_ring_put_sorted(old(self).ring(), h, name@);
        }
    }

    fn del(&mut self, h: u64)
        requires
            sorted_ring(old(self).ring()),
        ensures
            sorted_ring(final(self).ring()),
            final(self).ring() == ring_del(old(self).ring(), h),
            final(self).nodes == old(self).nodes,
            final(self).virtual_node_count == old(self).virtual_node_count,
    {
        let p = self.lower_bound_exec(h);
        if p < self.ring.len() && self.ring[p].0 == h {
            self.ring.remove(p);
            assert(self.ring() =~= old(self).ring().remove(p as int));
        }
    }

    /// Adds a node with its virtual nodes (a position already taken goes to
    /// the new node); refused when the node is already a member.
    pub fn add_node(&mut self, node_id: &str) -> (r: Result<(), RingError>)
        requires
            old(self).wf(),
        ensures
            final(self).wf(),
            final(self).vnodes_per_node() == old(self).vnodes_per_node(),
            old(self).members().contains(node_id@) ==> {
                &&& r matches Err(RingError::NodeExists(n)) && n@ == node_id@
                &&& final(self).ring() == old(self).ring()
                &&& final(self).members() == old(self).members()
            },
            !old(self).members().contains(node_id@) ==> {
                &&& r is Ok
                &&& final(self).ring() == ring_add_vnodes(old(self).ring(), node_id@, old(self).vnodes_per_node() as nat)
                &&& final(self).members() == old(self).members().push(node_id@)
            },
    {
        let name = String::from_str(node_id);
        if self.contains_node(&name) {
            return Err(RingError::NodeExists(name));
        }
        let ghost r0 = self.ring();
        let ghost m1 = self.members().push(node_id@);
        let ghost vnc = self.virtual_node_count as nat;
        proof {
            assert forall|k: int| 0 <= k < r0.len() implies #[trigger] ring_entry_ok(r0[k], m1, vnc) by {
                assert(ring_entry_ok(r0[k], self.members(), vnc));
                let v = r0[k].1;
                let idx = choose|x: int| 0 <= x < self.members().len() && self.members()[x] == v;
                assert(m1[idx] == v);
            }
        }
        assert(m1[m1.len() - 1] == node_id@);
        let n = self.virtual_node_count;
        let mut i: usize = 0;
        while i < n
            invariant
                n == self.virtual_node_count,
                vnc == n as nat,
                i <= n,
                sorted_ring(self.ring()),
                self.ring() == ring_add_vnodes(r0, node_id@, i as nat),
                self.nodes == old(self).nodes,
                m1 == old(self).members().push(node_id@),
                m1.contains(node_id@),
                forall|k: int| 0 <= k < self.ring().len() ==> #[trigger] ring_entry_ok(self.ring()[k], m1, vnc),
            decreases n - i,
        {
            let h = Self::hash_virtual_node(node_id, i);
            let ghost before = self.ring();
            self.put(h, String::from_str(node_id));
            proof {
                assert(m1[m1.len() - 1] == node_id@);
                lemma_put_keeps_entries_ok(before, h, node_id@, m1, vnc, i as nat);
            }
            i = i + 1;
        }
        self.nodes.push(name);
        proof {
            assert(self.members() =~= m1);
            lemma_push_no_dup(old(self).members(), node_id@);
        }
        Ok(())
    }

    /// Removes a member and the ring positions of its virtual nodes;
    /// refused when the node is not a member.
    pub fn remove_node(&mut self, node_id: &str) -> (r: Result<(), RingError>)
        requires
            old(self).wf(),
        ensures
            final(self).wf(),
            final(self).vnodes_per_node() == old(self).vnodes_per_node(),
            !old(self).members().contains(node_id@) ==> {
                &&& r matches Err(RingError::NodeNotFound(n)) && n@ == node_id@
                &&& final(self).ring() == old(self).ring()
                &&& final(self).members() == old(self).members()
            },
            old(self).members().contains(node_id@) ==> {
                &&& r is Ok
                &&& final(self).ring() == ring_del_vnodes(old(self).ring(), node_id@, old(self).vnodes_per_node() as nat)
                &&& final(self).members() == without(old(self).members(), node_id@)
            },
    {
        let name = String::from_str(node_id);
        if !self.contains_node(&name) {
            return Err(RingError::NodeNotFound(name));
        }
        let ghost r0 = self.ring();
        let ghost m0 = self.members();
        let ghost vnc = self.virtual_node_count as nat;
        let n = self.virtual_node_count;
        let mut i: usize = 0;
        while i < n
            invariant
                n == self.virtual_node_count,
                vnc == n as nat,
                i <= n,
                sorted_ring(self.ring()),
                sorted_ring(r0),
                self.ring() == ring_del_vnodes(r0, node_id@, i as nat),
                self.nodes == old(self).nodes,
                m0 == old(self).members(),
                forall|k: int| 0 <= k < self.ring().len() ==> #[trigger] ring_entry_ok(self.ring()[k], m0, vnc),
                forall|k: int, j: nat| #![trigger self.ring()[k], vnode_hash(node_id@, j)] 0 <= k < self.ring().len() && j < i ==> self.ring()[k].0 != vnode_hash(node_id@, j),
            decreases n - i,
        {
            let h = Self::hash_virtual_node(node_id, i);
            let ghost before = self.ring();
            self.del(h);
            proof {
                lemma_del_subset(before, h);
                assert forall|k: int, j: nat| #![trigger self.ring()[k], vnode_hash(node_id@, j)] 0 <= k < self.ring().len() && j < i + 1 implies self.ring()[k].0 != vnode_hash(node_id@, j) by {
                    let k2 = choose|k2: int| 0 <= k2 < before.len() && before[k2] == self.ring()[k] && before[k2].0 != h;
                    if j < i {
                        assert(before[k2].0 != vnode_hash(node_id@, j));
                    }
                }
                assert forall|k: int| 0 <= k < self.ring().len() implies #[trigger] ring_entry_ok(self.ring()[k], m0, vnc) by {
                    let k2 = choose|k2: int| 0 <= k2 < before.len() && before[k2] == self.ring()[k] && before[k2].0 != h;
                    assert(ring_entry_ok(before[k2], m0, vnc));
                }
            }
            i = i + 1;
        }
        let mut kept: Vec<String> = Vec::new();
        let mut j: usize = 0;
        while j < self.nodes.len()
            invariant
                j <= self.nodes@.len(),
                self.members().len() == self.nodes@.len(),
                string_views(kept@) == without(self.members().take(j as int), node_id@),
                name@ == node_id@,
            decreases self.nodes@.len() - j,
        {
            proof {
                assert(self.members().take(j + 1).drop_last() == self.members().take(j as int));
                assert(self.members().take(j + 1).last() == self.members()[j as int]);
                assert(self.members()[j as int] == self.nodes@[j as int]@);
            }
            if self.nodes[j] == name {
            } else {
                let s = self.nodes[j].clone();
                kept.push(s);
                assert(string_views(kept@) =~= without(self.members().take(j as int), node_id@).push(self.members()[j as int]));
            }
            j = j + 1;
        }
        assert(self.members().take(self.nodes@.len() as int) == self.members());
        self.nodes = kept;
        proof {
            lemma_without_props(m0, node_id@);
            assert forall|k: int| 0 <= k < self.ring().len() implies #[trigger] ring_entry_ok(self.ring()[k], self.members(), vnc) by {
                assert(ring_entry_ok(self.ring()[k], m0, vnc));
                let e = self.ring()[k];
                let jj = choose|jj: nat| jj < vnc && e.0 == vnode_hash(e.1, jj);
                if e.1 == node_id@ {
                    assert(e.0 != vnode_hash(node_id@, jj));
                }
                assert(m0.contains(e.1));
                assert(self.members().contains(e.1));
            }
        }
        Ok(())
    }

    /// The node owning a key: that of the first virtual node at or after the
    /// key's position, wrapping around.
    pub fn find_node(&self, key: &str) -> (r: Result<&str, RingError>)
        requires
            self.wf(),
        ensures
            self.ring().len() == 0 ==> r matches Err(RingError::EmptyRing),
            self.ring().len() > 0 ==> (r matches Ok(s) && s@ == owner(self.ring(), key_hash(key@))),
    {
        if self.ring.len() == 0 {
            return Err(RingError::EmptyRing);
        }
        let h = Self::hash_key(key);
        let p = self.lower_bound_exec(h);
        if p < self.ring.len() {
            assert(self.ring()[p as int].1 == self.ring@[p as int].1@);
            Ok(self.ring[p].1.as_str())
        } else {
            assert(self.ring()[0].1 == self.ring@[0].1@);
            Ok(self.ring[0].1.as_str())
        }
    }

    /// Up to `replica_count` distinct nodes met walking clockwise from the
    /// key's position (then once around the ring), in the order met.
    pub fn find_replicas(&self, key: &str, replica_count: usize) -> (r: Vec<String>)
        requires
            self.wf(),
        ensures
            self.ring().len() == 0 || replica_count == 0 ==> r@.len() == 0,
            self.ring().len() > 0 && replica_count > 0 ==> {
                let d = distinct(walk_from(self.ring(), key_hash(key@)));
                string_views(r@) == d.take(if replica_count <= d.len() { replica_count as int } else { d.len() as int })
            },
    {
        if self.ring.len() == 0 || replica_count == 0 {
            return Vec::new();
        }
        let h = Self::hash_key(key);
        let start = self.lower_bound_exec(h);
        let total = self.ring.len();
        let ghost w = walk_from(self.ring(), h);
        let ghost rv = self.ring();
        proof {
            lemma_lower_bound(rv, h);
        }
        let mut replicas: Vec<String> = Vec::new();
        let first: u128 = (total - start) as u128;
        let steps: u128 = first + total as u128;
        assert(w.len() == steps);
        let mut i: u128 = 0;
        while i < steps
            invariant
                h == key_hash(key@),
                self.wf(),
                w == walk_from(rv, h),
                rv == self.ring(),
                rv.len() == total,
                total > 0,
                total == self.ring@.len(),
                start <= total,
                start == lower_bound(rv, h),
                first == total - start,
                steps == first + total,
                w.len() == steps,
                i <= steps,
                replica_count > 0,
                string_views(replicas@) == distinct(w.take(i as int)),
                replicas@.len() < replica_count,
                replicas@.len() < total,
            decreases steps - i,
        {
            let idx: usize = if i < first { start + i as usize } else { (i - first) as usize };
            proof {
                lemma_walk_index(rv, h, i as int);
                assert(w[i as int] == rv[idx as int].1);
                assert(w.take(i + 1).drop_last() == w.take(i as int));
                assert(w.take(i + 1).last() == w[i as int]);
                assert(rv[idx as int].1 == self.ring@[idx as int].1@);
            }
            let name = &self.ring[idx].1;
            assert(name@ == w[i as int]);
            let mut seen = false;
            let mut j: usize = 0;
            while j < replicas.len()
                invariant
                    j <= replicas@.len(),
                    string_views(replicas@).len() == replicas@.len(),
                    seen == string_views(replicas@).take(j as int).contains(name@),
                decreases replicas@.len() - j,
            {
                proof {
                    let v = string_views(replicas@);
                    assert(v[j as int] == replicas@[j as int]@);
                    assert(v.take(j + 1) == v.take(j as int).push(v[j as int]));
                    if v.take(j as int).contains(name@) {
                        let q = choose|q: int| 0 <= q < j && v.take(j as int)[q] == name@;
                        assert(v.take(j + 1)[q] == name@);
                    }
                    let vt = v.take(j + 1);
                    if vt.contains(name@) {
                        let q = choose|q: int| 0 <= q < vt.len() && vt[q] == name@;
                        if q < j {
                            assert(v.take(j as int)[q] == name@);
                        }
                    }
                }
                if replicas[j] == *name {
                    seen = true;
                    assert(string_views(replicas@).take(j + 1)[j as int] == name@);
                }
                j = j + 1;
            }
            assert(string_views(replicas@).take(replicas@.len() as int) == string_views(replicas@));
            if !seen {
                replicas.push(name.clone());
                assert(string_views(replicas@) =~= distinct(w.take(i as int)).push(name@));
            }
            i = i + 1;
            if replicas.len() >= replica_count {
                proof {
                    lemma_distinct_prefix(w, i as nat, steps as nat);
                }
                return replicas;
            }
            if replicas.len() >= total {
                proof {
                    lemma_distinct_full(rv, h, i as nat);
                    lemma_distinct_prefix(w, i as nat, steps as nat);
                }
                return replicas;
            }
        }
        assert(w.take(steps as int) == w);
        replicas
    }

    /// The node owning a fragment, placed under the key `"frag:<id>"`.
    pub fn find_node_for_fragment(&self, fragment_id: FragmentId) -> (r: Result<&str, RingError>)
        requires
            self.wf(),
        ensures
            self.ring().len() == 0 ==> r matches Err(RingError::EmptyRing),
            self.ring().len() > 0 ==> (r matches Ok(s) && s@ == owner(self.ring(), key_hash(fragment_key(fragment_id)))),
    {
        let mut key = String::from_str("frag:");
        key.append(u64_to_string(fragment_id).as_str());
        let r = self.find_node(key.as_str());
        r
    }

    pub fn nodes(&self) -> (r: &[String])
        ensures
            string_views(r@) == self.members(),
    {
        self.nodes.as_slice()
    }

    pub fn node_count(&self) -> (r: usize)
        ensures
            r == self.members().len(),
    {
        self.nodes.len()
    }

    pub fn virtual_node_count_total(&self) -> (r: usize)
        ensures
            r == self.ring().len(),
    {
        self.ring.len()
    }

    /// For each member, in order of its id, how many ring entries it owns.
    #[verifier::rlimit(30)]
    #[verifier::spinoff_prover]
    pub fn load_distribution(&self) -> (r: Vec<(String, usize)>)
        requires
            self.wf(),
        ensures
            r@.len() == self.members().len(),
            forall|i: int| 0 <= i < r@.len() ==> self.members().contains(#[trigger] r@[i].0@)
                && r@[i].1 == owned_count(self.ring(), r@[i].0@),
            forall|m: Seq<char>| #[trigger] self.members().contains(m) ==> exists|i: int| 0 <= i < r@.len() && r@[i].0@ == m,
            forall|i: int, j: int| 0 <= i < j < r@.len() ==> chars_before(#[trigger] r@[i].0@, #[trigger] r@[j].0@),
    {
        let mut dist: Vec<(String, usize)> = Vec::new();
        let mut i: usize = 0;
        while i < self.nodes.len()
            invariant
                i <= self.nodes@.len(),
                self.members().len() == self.nodes@.len(),
                dist@.len() == i,
                forall|k: int| 0 <= k < i ==> dist@[k].0@ == self.members()[k]
                    && dist@[k].1 == owned_count(self.ring(), self.members()[k]),
            decreases self.nodes@.len() - i,
        {
            let name = &self.nodes[i];
            let mut c: usize = 0;
            let mut j: usize = 0;
            while j < self.ring.len()
                invariant
                    j <= self.ring@.len(),
                    self.ring().len() == self.ring@.len(),
                    c == owned_count(self.ring().take(j as int), name@),
                    c <= j,
                decreases self.ring@.len() - j,
            {
                proof {
                    assert(self.ring().take(j + 1).drop_last() == self.ring().take(j as int));
                    assert(self.ring()[j as int].1 == self.ring@[j as int].1@);
                }
                if self.ring[j].1 == *name {
                    c = c + 1;
                }
                j = j + 1;
            }
            assert(self.ring().take(self.ring@.len() as int) == self.ring());
            dist.push((name.clone(), c));
            i = i + 1;
        }
        let ghost ms = self.members();
        let mut out: Vec<(String, usize)> = Vec::new();
        let mut keys: Vec<Vec<char>> = Vec::new();
        let mut q: usize = 0;
        while q < dist.len()
            invariant
                ms == self.members(),
                ms.no_duplicates(),
                dist@.len() == ms.len(),
                forall|k: int| 0 <= k < dist@.len() ==> dist@[k].0@ == ms[k]
                    && dist@[k].1 == owned_count(self.ring(), ms[k]),
                q <= dist@.len(),
                out@.len() == q,
                keys@.len() == q,
                forall|k: int| 0 <= k < q ==> #[trigger] keys@[k]@ == out@[k].0@,
                forall|k: int| 0 <= k < q ==> exists|x: int| 0 <= x < q && #[trigger] out@[k].0@ == ms[x],
                forall|k: int| 0 <= k < q ==> #[trigger] out@[k].1 == owned_count(self.ring(), out@[k].0@),
                forall|x: int| #![trigger ms[x]] 0 <= x < q ==> exists|k: int| 0 <= k < q && #[trigger] out@[k].0@ == ms[x],
                forall|a: int, b: int| 0 <= a < b < q ==> chars_before(#[trigger] out@[a].0@, #[trigger] out@[b].0@),
            decreases dist@.len() - q,
        {
            let c = chars_of(dist[q].0.as_str());
            let ghost x = dist@[q as int].0@;
            assert(x == ms[q as int]);
            let mut pos: usize = 0;
            while pos < out.len() && chars_less(&keys[pos], &c)
                invariant
                    pos <= out@.len(),
                    out@.len() == keys@.len(),
                    c@ == x,
                    forall|k: int| 0 <= k < keys@.len() ==> #[trigger] keys@[k]@ == out@[k].0@,
                    forall|k: int| 0 <= k < pos ==> chars_before(#[trigger] out@[k].0@, x),
                decreases out@.len() - pos,
            {
                pos = pos + 1;
            }
            let ghost old_out = out@;
            let ghost old_keys = keys@;
            proof {
                // The new name differs from every name placed so far.
                assert forall|k: int| 0 <= k < q implies #[trigger] old_out[k].0@ != x by {
                    let y = choose|y: int| 0 <= y < q && #[trigger] old_out[k].0@ == ms[y];
                    assert(ms[y] != ms[q as int]);
                }
                // It comes before every name from `pos` on.
                if pos < out.len() {
                    assert(!chars_before(old_out[pos as int].0@, x));
                    lemma_before_total(x, old_out[pos as int].0@);
                    lemma_before_rest(old_out, pos as int, x);
                }
            }
            let name = dist[q].0.clone();
            let cnt = dist[q].1;
            out.insert(pos, (name, cnt));
            keys.insert(pos, c);
            proof {
                let nw = out@;
                assert(nw == old_out.insert(pos as int, nw[pos as int]));
                assert(nw[pos as int].0@ == x);
                assert forall|k: int| 0 <= k < q + 1 implies #[trigger] keys@[k]@ == out@[k].0@ by {
                    if k < pos {
                        assert(keys@[k] == old_keys[k]);
                    } else if k > pos {
                        assert(keys@[k] == old_keys[k - 1]);
                    }
                }
                lemma_insert_sorted(old_out, nw, pos as int, x);
                lemma_insert_names(old_out, nw, pos as int, ms, q as int, self.ring());
            }
            q = q + 1;
        }
        proof {
            assert forall|i: int| 0 <= i < out@.len() implies self.members().contains(#[trigger] out@[i].0@)
                && out@[i].1 == owned_count(self.ring(), out@[i].0@) by {
                let y = choose|y: int| 0 <= y < q && #[trigger] out@[i].0@ == ms[y];
            }
            assert forall|m: Seq<char>| #[trigger] self.members().contains(m) implies exists|i: int| 0 <= i < out@.len() && out@[i].0@ == m by {
                let y = choose|y: int| 0 <= y < ms.len() && ms[y] == m;
                let k = choose|k: int| 0 <= k < q && #[trigger] out@[k].0@ == ms[y];
            }
        }
        out
    }

    /// For each virtual node of a joining node whose position is now owned by
    /// another node: that owner, the position, and the next virtual node's
    /// position. Nothing when the ring is empty.
    pub fn compute_migration_plan(&self, new_node_id: &str) -> (r: Vec<(String, u64, u64)>)
        requires
            self.wf(),
        ensures
            self.ring().len() == 0 ==> r@.len() == 0,
            self.ring().len() > 0 ==> r@.map_values(|e: (String, u64, u64)| (e.0@, e.1, e.2))
                == migration_plan(self.ring(), new_node_id@, self.vnodes_per_node() as nat, self.vnodes_per_node() as nat),
            self.ring().len() > 0 ==> forall|k: int| 0 <= k < r@.len() ==> {
                &&& (#[trigger] r@[k]).0@ == owner(self.ring(), r@[k].1)
                &&& r@[k].0@ != new_node_id@
                &&& exists|i: nat| i < self.vnodes_per_node() && r@[k].1 == #[trigger] vnode_hash(new_node_id@, i)
            },
    {
        let mut plan: Vec<(String, u64, u64)> = Vec::new();
        if self.ring.len() == 0 {
            return plan;
        }
        let new_name = String::from_str(new_node_id);
        let n = self.virtual_node_count;
        let mut i: usize = 0;
        while i < n
            invariant
                new_name@ == new_node_id@,
                self.wf(),
                self.ring().len() > 0,
                n == self.virtual_node_count,
                i <= n,
                plan@.map_values(|e: (String, u64, u64)| (e.0@, e.1, e.2))
                    == migration_plan(self.ring(), new_node_id@, n as nat, i as nat),
            decreases n - i,
        {
            let vhash = Self::hash_virtual_node(new_node_id, i);
            let p = self.lower_bound_exec(vhash);
            let idx: usize = if p < self.ring.len() { p } else { 0 };
            let source = &self.ring[idx].1;
            proof {
                lemma_lower_bound(self.ring(), vhash);
                assert(self.ring()[idx as int].1 == self.ring@[idx as int].1@);
            }
            assert(source@ == owner(self.ring(), vhash));
            if *source == new_name {
            } else {
                let next = Self::hash_virtual_node(new_node_id, (i + 1) % n);
                let ghost before = plan@;
                plan.push((source.clone(), vhash, next));
                assert(plan@.map_values(|e: (String, u64, u64)| (e.0@, e.1, e.2))
                    =~= before.map_values(|e: (String, u64, u64)| (e.0@, e.1, e.2)).push((source@, vhash, next)));
            }
            i = i + 1;
        }
        proof {
            let count = self.vnodes_per_node() as nat;
            let mp = migration_plan(self.ring(), new_node_id@, count, count);
            lemma_migration_plan_owners(self.ring(), new_node_id@, count, count);
            assert forall|k: int| 0 <= k < plan@.len() implies {
                &&& (#[trigger] plan@[k]).0@ == owner(self.ring(), plan@[k].1)
                &&& plan@[k].0@ != new_node_id@
                &&& exists|i: nat| i < self.vnodes_per_node() && plan@[k].1 == #[trigger] vnode_hash(new_node_id@, i)
            } by {
                assert(plan@.map_values(|e: (String, u64, u64)| (e.0@, e.1, e.2))[k] == mp[k]);
                let e = mp[k];
                assert(e.0 == owner(self.ring(), e.1));
            }
        }
        plan
    }
}

/// In a list sorted by name, a name before the one at `pos` is before all
/// that follow.
proof fn lemma_before_rest(s: Seq<(String, usize)>, pos: int, x: Seq<char>)
    requires
        0 <= pos < s.len(),
        forall|a: int, b: int| 0 <= a < b < s.len() ==> chars_before(#[trigger] s[a].0@, #[trigger] s[b].0@),
        chars_before(x, s[pos].0@),
    ensures
        forall|k: int| pos <= k < s.len() ==> chars_before(x, #[trigger] s[k].0@),
{
    assert forall|k: int| pos <= k < s.len() implies chars_before(x, #[trigger] s[k].0@) by {
        if k > pos {
            assert(chars_before(s[pos].0@, s[k].0@));
            lemma_before_trans(x, s[pos].0@, s[k].0@);
        }
    }
}

/// Inserting the next member's name and count keeps the list holding each
/// member seen so far once, with its count.
proof fn lemma_insert_names(old: Seq<(String, usize)>, nw: Seq<(String, usize)>, pos: int, ms: Seq<Seq<char>>, q: int,
    r: Seq<(u64, Seq<char>)>)
    requires
        0 <= pos <= old.len(),
        old.len() == q,
        0 <= q < ms.len(),
        nw == old.insert(pos, nw[pos]),
        nw[pos].0@ == ms[q],
        nw[pos].1 == owned_count(r, ms[q]),
        forall|k: int| 0 <= k < q ==> exists|x: int| 0 <= x < q && #[trigger] old[k].0@ == ms[x],
        forall|k: int| 0 <= k < q ==> #[trigger] old[k].1 == owned_count(r, old[k].0@),
        forall|x: int| #![trigger ms[x]] 0 <= x < q ==> exists|k: int| 0 <= k < q && #[trigger] old[k].0@ == ms[x],
    ensures
        forall|k: int| 0 <= k < q + 1 ==> exists|x: int| 0 <= x < q + 1 && #[trigger] nw[k].0@ == ms[x],
        forall|k: int| 0 <= k < q + 1 ==> #[trigger] nw[k].1 == owned_count(r, nw[k].0@),
        forall|x: int| #![trigger ms[x]] 0 <= x < q + 1 ==> exists|k: int| 0 <= k < q + 1 && #[trigger] nw[k].0@ == ms[x],
{
    assert forall|k: int| 0 <= k < q + 1 implies exists|y: int| 0 <= y < q + 1 && #[trigger] nw[k].0@ == ms[y] by {
        if k < pos {
            assert(nw[k] == old[k]);
            let y = choose|y: int| 0 <= y < q && #[trigger] old[k].0@ == ms[y];
            assert(nw[k].0@ == ms[y]);
        } else if k == pos {
            assert(nw[k].0@ == ms[q]);
        } else {
            assert(nw[k] == old[k - 1]);
            let y = choose|y: int| 0 <= y < q && #[trigger] old[k - 1].0@ == ms[y];
            assert(nw[k].0@ == ms[y]);
        }
    }
    assert forall|k: int| 0 <= k < q + 1 implies #[trigger] nw[k].1 == owned_count(r, nw[k].0@) by {
        if k < pos {
            assert(nw[k] == old[k]);
        } else if k > pos {
            assert(nw[k] == old[k - 1]);
        }
    }
    assert forall|y: int| #![trigger ms[y]] 0 <= y < q + 1 implies exists|k: int| 0 <= k < q + 1 && #[trigger] nw[k].0@ == ms[y] by {
        if y == q {
            assert(nw[pos].0@ == ms[y]);
        } else {
            let k = choose|k: int| 0 <= k < q && #[trigger] old[k].0@ == ms[y];
            if k < pos {
                assert(nw[k] == old[k]);
            } else {
                assert(nw[k + 1] == old[k]);
            }
        }
    }
}

/// Inserting a name at its place keeps a list sorted by name.
proof fn lemma_insert_sorted(old: Seq<(String, usize)>, nw: Seq<(String, usize)>, pos: int, x: Seq<char>)
    requires
        0 <= pos <= old.len(),
        nw == old.insert(pos, nw[pos]),
        nw[pos].0@ == x,
        forall|a: int, b: int| 0 <= a < b < old.len() ==> chars_before(#[trigger] old[a].0@, #[trigger] old[b].0@),
        forall|k: int| 0 <= k < pos ==> chars_before(#[trigger] old[k].0@, x),
        forall|k: int| pos <= k < old.len() ==> chars_before(x, #[trigger] old[k].0@),
    ensures
        forall|a: int, b: int| 0 <= a < b < nw.len() ==> chars_before(#[trigger] nw[a].0@, #[trigger] nw[b].0@),
{
    assert forall|a: int, b: int| 0 <= a < b < nw.len() implies chars_before(#[trigger] nw[a].0@, #[trigger] nw[b].0@) by {
        if b < pos {
            assert(nw[a] == old[a] && nw[b] == old[b]);
        } else if b == pos {
            assert(nw[a] == old[a]);
        } else if a < pos {
            assert(nw[a] == old[a] && nw[b] == old[b - 1]);
            assert(chars_before(old[a].0@, x));
            assert(chars_before(x, old[b - 1].0@));
            lemma_before_trans(old[a].0@, x, old[b - 1].0@);
        } else if a == pos {
            assert(nw[b] == old[b - 1]);
        } else {
            assert(nw[a] == old[a - 1] && nw[b] == old[b - 1]);
        }
    }
}

/// Every entry of a migration plan moves the keys at one of the joining
/// node's virtual-node positions away from the node that owns that
/// position now (what `find_node` answers for a key hashing there), which is
/// never the joining node; and every such position owned by another node
/// has an entry.
pub proof fn lemma_migration_plan_owners(r: Seq<(u64, Seq<char>)>, node: Seq<char>, count: nat, n: nat)
    ensures
        forall|k: int| 0 <= k < migration_plan(r, node, count, n).len() ==> {
            let e = #[trigger] migration_plan(r, node, count, n)[k];
            &&& e.0 == owner(r, e.1)
            &&& e.0 != node
            &&& exists|i: nat| i < n && e.1 == #[trigger] vnode_hash(node, i)
        },
        forall|i: nat| i < n && owner(r, #[trigger] vnode_hash(node, i)) != node ==> exists|k: int|
            0 <= k < migration_plan(r, node, count, n).len()
            && #[trigger] migration_plan(r, node, count, n)[k].1 == vnode_hash(node, i)
            && migration_plan(r, node, count, n)[k].0 == owner(r, vnode_hash(node, i)),
    decreases n,
{
    if n > 0 {
        let n1 = (n - 1) as nat;
        lemma_migration_plan_owners(r, node, count, n1);
        let prev = migration_plan(r, node, count, n1);
        let cur = migration_plan(r, node, count, n);
        let h = vnode_hash(node, n1);
        assert forall|k: int| 0 <= k < cur.len() implies {
            let e = #[trigger] cur[k];
            &&& e.0 == owner(r, e.1)
            &&& e.0 != node
            &&& exists|i: nat| i < n && e.1 == #[trigger] vnode_hash(node, i)
        } by {
            if k < prev.len() {
                assert(cur[k] == prev[k]);
                let e = prev[k];
                let i = choose|i: nat| i < n1 && e.1 == #[trigger] vnode_hash(node, i);
                assert(i < n && e.1 == vnode_hash(node, i));
            } else {
                assert(cur[k].1 == vnode_hash(node, n1));
            }
        }
        assert forall|i: nat| i < n && owner(r, #[trigger] vnode_hash(node, i)) != node implies exists|k: int|
            0 <= k < cur.len() && #[trigger] cur[k].1 == vnode_hash(node, i) && cur[k].0 == owner(r, vnode_hash(node, i)) by {
            if i < n1 {
                let k = choose|k: int| 0 <= k < prev.len() && #[trigger] prev[k].1 == vnode_hash(node, i)
                    && prev[k].0 == owner(r, vnode_hash(node, i));
                assert(cur[k] == prev[k]);
            } else {
                assert(cur[prev.len() as int].1 == h);
            }
        }
    }
}

/// An entry belongs to a member and sits at one of that member's first
/// `count` virtual-node positions.
pub open spec fn ring_entry_ok(e: (u64, Seq<char>), members: Seq<Seq<char>>, count: nat) -> bool {
    &&& members.contains(e.1)
    &&& exists|j: nat| j < count && e.0 == #[trigger] vnode_hash(e.1, j)
}

proof fn lemma_lower_bound(r: Seq<(u64, Seq<char>)>, h: u64)
    requires
        sorted_ring(r),
    ensures
        0 <= lower_bound(r, h) <= r.len(),
        forall|i: int| 0 <= i < lower_bound(r, h) ==> r[i].0 < h,
        forall|i: int| lower_bound(r, h) <= i < r.len() ==> r[i].0 >= h,
    decreases r.len(),
{
    if r.len() > 0 {
        if r.last().0 < h {
            assert forall|i: int| 0 <= i < lower_bound(r, h) implies r[i].0 < h by {
                if i < r.len() - 1 {
                    assert(r[i].0 < r[r.len() - 1].0);
                }
            }
        } else {
            let t = r.drop_last();
            assert(sorted_ring(t)) by {
                assert forall|i: int, j: int| 0 <= i < j < t.len() implies t[i].0 < t[j].0 by {
                    assert(t[i] == r[i] && t[j] == r[j]);
                }
            }
            lemma_lower_bound(t, h);
            assert forall|i: int| 0 <= i < lower_bound(r, h) implies r[i].0 < h by {
                assert(t[i] == r[i]);
            }
            assert forall|i: int| lower_bound(r, h) <= i < r.len() implies r[i].0 >= h by {
                if i < r.len() - 1 {
                    assert(t[i] == r[i]);
                }
            }
        }
    }
}

/// Where the walk from `h` stands in the ring.
proof fn lemma_walk_index(r: Seq<(u64, Seq<char>)>, h: u64, k: int)
    requires
        sorted_ring(r),
        0 <= k < walk_from(r, h).len(),
    ensures
        walk_from(r, h).len() == 2 * r.len() - lower_bound(r, h),
        k < r.len() - lower_bound(r, h) ==> walk_from(r, h)[k] == r[k + lower_bound(r, h)].1,
        k >= r.len() - lower_bound(r, h) ==> walk_from(r, h)[k] == r[k - (r.len() - lower_bound(r, h))].1,
{
    lemma_lower_bound(r, h);
    let p = lower_bound(r, h);
    let c = r.skip(p) + r;
    assert(walk_from(r, h)[k] == c[k].1);
    if k < r.len() - p {
        assert(c[k] == r.skip(p)[k]);
    } else {
        assert(c[k] == r[k - (r.len() - p)]);
    }
}

proof fn lemma_ring_put_sorted(r: Seq<(u64, Seq<char>)>, h: u64, v: Seq<char>)
    requires
        sorted_ring(r),
    ensures
        sorted_ring(ring_put(r, h, v)),
        forall|k: int| #![trigger ring_put(r, h, v)[k]] 0 <= k < ring_put(r, h, v).len() ==> {
            ||| ring_put(r, h, v)[k] == (h, v)
            ||| (exists|k2: int| 0 <= k2 < r.len() && #[trigger] r[k2] == ring_put(r, h, v)[k] && r[k2].0 != h)
        },
{
    lemma_lower_bound(r, h);
    let p = lower_bound(r, h);
    let s = ring_put(r, h, v);
    if p < r.len() && r[p].0 == h {
        assert forall|k: int| #![trigger s[k]] 0 <= k < s.len() implies s[k] == (h, v) || (exists|k2: int| 0 <= k2 < r.len() && #[trigger] r[k2] == s[k] && r[k2].0 != h) by {
            if k != p {
                assert(r[k] == s[k]);
                if k < p {
                    assert(r[k].0 < h);
                } else {
                    assert(r[p].0 < r[k].0);
                }
            }
        }
    } else {
        assert forall|k: int| #![trigger s[k]] 0 <= k < s.len() implies s[k] == (h, v) || (exists|k2: int| 0 <= k2 < r.len() && #[trigger] r[k2] == s[k] && r[k2].0 != h) by {
            if k < p {
                assert(r[k] == s[k]);
            } else if k > p {
                assert(r[k - 1] == s[k]);
                assert(r[k - 1].0 >= h);
            }
        }
    }
}

/// What a sorted ring holds after placing `v` at `h`.
proof fn lemma_put_contents(r: Seq<(u64, Seq<char>)>, h: u64, v: Seq<char>)
    requires
        sorted_ring(r),
    ensures
        sorted_ring(ring_put(r, h, v)),
        forall|e: (u64, Seq<char>)| #[trigger] ring_put(r, h, v).contains(e) <==> ((r.contains(e) && e.0 != h) || e == (h, v)),
{
    lemma_ring_put_sorted(r, h, v);
    lemma_lower_bound(r, h);
    let p = lower_bound(r, h);
    let s = ring_put(r, h, v);
    assert forall|e: (u64, Seq<char>)| s.contains(e) <==> ((r.contains(e) && e.0 != h) || e == (h, v)) by {
        if s.contains(e) {
            let k = choose|k: int| 0 <= k < s.len() && s[k] == e;
            if s[k] != (h, v) {
                let k2 = choose|k2: int| 0 <= k2 < r.len() && #[trigger] r[k2] == s[k] && r[k2].0 != h;
                assert(r.contains(e));
            }
        }
        if r.contains(e) && e.0 != h {
            let k = choose|k: int| 0 <= k < r.len() && r[k] == e;
            if p < r.len() && r[p].0 == h {
                assert(k != p);
                assert(s[k] == e);
            } else if k < p {
                assert(s[k] == e);
            } else {
                assert(s[k + 1] == e);
            }
        }
        if e == (h, v) {
            assert(s[p] == e);
        }
    }
}

/// What a sorted ring holds after clearing position `h`.
proof fn lemma_del_contents(r: Seq<(u64, Seq<char>)>, h: u64)
    requires
        sorted_ring(r),
    ensures
        sorted_ring(ring_del(r, h)),
        forall|e: (u64, Seq<char>)| #[trigger] ring_del(r, h).contains(e) <==> (r.contains(e) && e.0 != h),
{
    lemma_del_subset(r, h);
    lemma_lower_bound(r, h);
    let p = lower_bound(r, h);
    let s = ring_del(r, h);
    if p < r.len() && r[p].0 == h {
        assert forall|i: int, j: int| 0 <= i < j < s.len() implies s[i].0 < s[j].0 by {
            let ri = if i < p { i } else { i + 1 };
            let rj = if j < p { j } else { j + 1 };
            assert(s[i] == r[ri] && s[j] == r[rj]);
        }
    }
    assert forall|e: (u64, Seq<char>)| s.contains(e) <==> (r.contains(e) && e.0 != h) by {
        if s.contains(e) {
            let k = choose|k: int| 0 <= k < s.len() && s[k] == e;
            let k2 = choose|k2: int| 0 <= k2 < r.len() && #[trigger] r[k2] == s[k] && r[k2].0 != h;
            assert(r.contains(e));
        }
        if r.contains(e) && e.0 != h {
            let k = choose|k: int| 0 <= k < r.len() && r[k] == e;
            if p < r.len() && r[p].0 == h {
                assert(k != p);
                if k < p {
                    assert(s[k] == e);
                } else {
                    assert(s[k - 1] == e);
                }
            } else {
                assert(s[k] == e);
            }
        }
    }
}

/// The virtual-node positions `0 .. n` of `node` are distinct.
pub open spec fn vnode_positions_distinct(node: Seq<char>, n: nat) -> bool {
    forall|i: nat, j: nat| i < j < n ==> #[trigger] vnode_hash(node, i) != #[trigger] vnode_hash(node, j)
}

/// What a sorted ring holds after placing `k` virtual nodes at distinct positions.
proof fn lemma_add_vnodes_contents(r: Seq<(u64, Seq<char>)>, node: Seq<char>, k: nat)
    requires
        sorted_ring(r),
        vnode_positions_distinct(node, k),
    ensures
        sorted_ring(ring_add_vnodes(r, node, k)),
        forall|e: (u64, Seq<char>)| #[trigger] ring_add_vnodes(r, node, k).contains(e) <==> (
            (r.contains(e) && forall|i: nat| i < k ==> e.0 != #[trigger] vnode_hash(node, i))
            || exists|i: nat| i < k && e == (#[trigger] vnode_hash(node, i), node)),
    decreases k,
{
    if k > 0 {
        let k1 = (k - 1) as nat;
        assert(vnode_positions_distinct(node, k1));
        lemma_add_vnodes_contents(r, node, k1);
        let prev = ring_add_vnodes(r, node, k1);
        let h = vnode_hash(node, k1);
        lemma_put_contents(prev, h, node);
        let cur = ring_add_vnodes(r, node, k);
        assert(cur == ring_put(prev, h, node));
        assert forall|e: (u64, Seq<char>)| cur.contains(e) <==> (
            (r.contains(e) && forall|i: nat| i < k ==> e.0 != #[trigger] vnode_hash(node, i))
            || exists|i: nat| i < k && e == (#[trigger] vnode_hash(node, i), node)) by {
            assert(cur.contains(e) <==> ((prev.contains(e) && e.0 != h) || e == (h, node)));
            assert(prev.contains(e) <==> (
                (r.contains(e) && forall|i: nat| i < k1 ==> e.0 != #[trigger] vnode_hash(node, i))
                || exists|i: nat| i < k1 && e == (#[trigger] vnode_hash(node, i), node)));
            if cur.contains(e) {
                if e == (h, node) {
                    assert(k1 < k && e == (vnode_hash(node, k1), node));
                } else if exists|i: nat| i < k1 && e == (#[trigger] vnode_hash(node, i), node) {
                    let i = choose|i: nat| i < k1 && e == (#[trigger] vnode_hash(node, i), node);
                    assert(i < k && e == (vnode_hash(node, i), node));
                } else {
                    assert forall|i: nat| i < k implies e.0 != #[trigger] vnode_hash(node, i) by {
                        if i == k1 {
                        }
                    }
                }
            }
            if exists|i: nat| i < k && e == (#[trigger] vnode_hash(node, i), node) {
                let i = choose|i: nat| i < k && e == (#[trigger] vnode_hash(node, i), node);
                if i < k1 {
                    assert(vnode_hash(node, i) != vnode_hash(node, k1));
                    assert(prev.contains(e));
                }
            }
            if r.contains(e) && forall|i: nat| i < k ==> e.0 != #[trigger] vnode_hash(node, i) {
                assert(e.0 != vnode_hash(node, k1));
                assert(forall|i: nat| i < k1 ==> e.0 != #[trigger] vnode_hash(node, i));
                assert(prev.contains(e));
            }
        }
    }
}

/// What a sorted ring holds after clearing the positions of `k` virtual nodes.
proof fn lemma_del_vnodes_contents(r: Seq<(u64, Seq<char>)>, node: Seq<char>, k: nat)
    requires
        sorted_ring(r),
    ensures
        sorted_ring(ring_del_vnodes(r, node, k)),
        forall|e: (u64, Seq<char>)| #[trigger] ring_del_vnodes(r, node, k).contains(e) <==> (
            r.contains(e) && forall|i: nat| i < k ==> e.0 != #[trigger] vnode_hash(node, i)),
    decreases k,
{
    if k > 0 {
        let k1 = (k - 1) as nat;
        lemma_del_vnodes_contents(r, node, k1);
        let prev = ring_del_vnodes(r, node, k1);
        let h = vnode_hash(node, k1);
        lemma_del_contents(prev, h);
        let cur = ring_del_vnodes(r, node, k);
        assert forall|e: (u64, Seq<char>)| cur.contains(e) <==> (
            r.contains(e) && forall|i: nat| i < k ==> e.0 != #[trigger] vnode_hash(node, i)) by {
            assert(cur.contains(e) <==> (prev.contains(e) && e.0 != h));
            assert(prev.contains(e) <==> (r.contains(e) && forall|i: nat| i < k1 ==> e.0 != #[trigger] vnode_hash(node, i)));
            if r.contains(e) && forall|i: nat| i < k ==> e.0 != #[trigger] vnode_hash(node, i) {
                assert(e.0 != vnode_hash(node, k1));
            }
            if cur.contains(e) {
                assert forall|i: nat| i < k implies e.0 != #[trigger] vnode_hash(node, i) by {
                    if i < k1 {
                    }
                }
            }
        }
    }
}

/// Two sorted rings holding the same entries are equal.
proof fn lemma_sorted_ring_unique(a: Seq<(u64, Seq<char>)>, b: Seq<(u64, Seq<char>)>)
    requires
        sorted_ring(a),
        sorted_ring(b),
        forall|e: (u64, Seq<char>)| #[trigger] a.contains(e) <==> b.contains(e),
    ensures
        a == b,
    decreases a.len() + b.len(),
{
    if a.len() == 0 {
        if b.len() > 0 {
            assert(b.contains(b[0]));
            assert(a.contains(b[0]) <==> b.contains(b[0]));
        }
        assert(b =~= a);
    } else if b.len() == 0 {
        assert(a.contains(a[0]));
        assert(a.contains(a[0]) <==> b.contains(a[0]));
    } else {
        let la = a.last();
        let lb = b.last();
        assert(a.contains(la));
        assert(b.contains(lb));
        assert(a.contains(lb) <==> b.contains(lb));
        assert(a.contains(la) <==> b.contains(la));
        let ia = choose|i: int| 0 <= i < a.len() && a[i] == lb;
        let ib = choose|i: int| 0 <= i < b.len() && b[i] == la;
        if ia < a.len() - 1 {
            assert(a[ia].0 < a[a.len() - 1].0);
        }
        if ib < b.len() - 1 {
            assert(b[ib].0 < b[b.len() - 1].0);
        }
        assert(ia == a.len() - 1);
        let ra = a.drop_last();
        let rb = b.drop_last();
        assert forall|y: (u64, Seq<char>)| #[trigger] ra.contains(y) <==> rb.contains(y) by {
            if ra.contains(y) {
                let q = choose|q: int| 0 <= q < ra.len() && ra[q] == y;
                assert(a[q] == y && a[q].0 < a[a.len() - 1].0);
                assert(a.contains(y));
                assert(a.contains(y) <==> b.contains(y));
                let k = choose|k: int| 0 <= k < b.len() && b[k] == y;
                assert(k != b.len() - 1);
                assert(rb[k] == y);
            }
            if rb.contains(y) {
                let q = choose|q: int| 0 <= q < rb.len() && rb[q] == y;
                assert(b[q] == y && b[q].0 < b[b.len() - 1].0);
                assert(b.contains(y));
                assert(a.contains(y) <==> b.contains(y));
                let k = choose|k: int| 0 <= k < a.len() && a[k] == y;
                assert(k != a.len() - 1);
                assert(ra[k] == y);
            }
        }
        lemma_sorted_ring_unique(ra, rb);
        assert(a =~= ra.push(la));
        assert(b =~= rb.push(lb));
    }
}

/// A sequence without an element it does not hold is itself.
proof fn lemma_without_absent(m: Seq<Seq<char>>, x: Seq<char>)
    requires
        !m.contains(x),
    ensures
        without(m, x) == m,
    decreases m.len(),
{
    if m.len() > 0 {
        assert(!m.drop_last().contains(x)) by {
            if m.drop_last().contains(x) {
                let k = choose|k: int| 0 <= k < m.drop_last().len() && m.drop_last()[k] == x;
                assert(m[k] == x);
            }
        }
        lemma_without_absent(m.drop_last(), x);
        assert(m.last() != x);
        assert(m.drop_last().push(m.last()) =~= m);
    }
}

/// Adding a new node and removing it again restores the ring and the
/// members, when the node's virtual-node positions are distinct and none of
/// them is taken on the ring already.
pub proof fn lemma_add_then_remove_restores(r: Seq<(u64, Seq<char>)>, members: Seq<Seq<char>>, node: Seq<char>, n: nat)
    requires
        sorted_ring(r),
        !members.contains(node),
        vnode_positions_distinct(node, n),
        forall|i: nat, k: int| i < n && 0 <= k < r.len() ==> #[trigger] r[k].0 != #[trigger] vnode_hash(node, i),
    ensures
        ring_del_vnodes(ring_add_vnodes(r, node, n), node, n) == r,
        without(members.push(node), node) == members,
{
    lemma_add_vnodes_contents(r, node, n);
    let added = ring_add_vnodes(r, node, n);
    lemma_del_vnodes_contents(added, node, n);
    let back = ring_del_vnodes(added, node, n);
    assert forall|e: (u64, Seq<char>)| #[trigger] back.contains(e) <==> r.contains(e) by {
        if r.contains(e) {
            let k = choose|k: int| 0 <= k < r.len() && r[k] == e;
            assert forall|i: nat| i < n implies e.0 != #[trigger] vnode_hash(node, i) by {
                assert(r[k].0 != vnode_hash(node, i));
            }
            assert(added.contains(e));
        }
        if back.contains(e) {
            assert(added.contains(e));
            if exists|i: nat| i < n && e == (#[trigger] vnode_hash(node, i), node) {
                let i = choose|i: nat| i < n && e == (#[trigger] vnode_hash(node, i), node);
                assert(e.0 != vnode_hash(node, i));
            }
        }
    }
    lemma_sorted_ring_unique(back, r);
    assert(members.push(node).drop_last() =~= members);
    lemma_without_absent(members, node);
}

proof fn lemma_put_keeps_entries_ok(r: Seq<(u64, Seq<char>)>, h: u64, node: Seq<char>, members: Seq<Seq<char>>, count: nat, i: nat)
    requires
        sorted_ring(r),
        forall|k: int| 0 <= k < r.len() ==> #[trigger] ring_entry_ok(r[k], members, count),
        members.contains(node),
        i < count,
        h == vnode_hash(node, i),
    ensures
        forall|k: int| 0 <= k < ring_put(r, h, node).len() ==> #[trigger] ring_entry_ok(ring_put(r, h, node)[k], members, count),
{
    lemma_ring_put_sorted(r, h, node);
    let s = ring_put(r, h, node);
    assert forall|k: int| 0 <= k < s.len() implies #[trigger] ring_entry_ok(s[k], members, count) by {
        if s[k] == (h, node) {
            assert(s[k].1 == node && s[k].0 == vnode_hash(s[k].1, i));
        } else {
            let k2 = choose|k2: int| 0 <= k2 < r.len() && r[k2] == s[k] && r[k2].0 != h;
            assert(ring_entry_ok(r[k2], members, count));
        }
    }
}

proof fn lemma_del_subset(r: Seq<(u64, Seq<char>)>, h: u64)
    requires
        sorted_ring(r),
    ensures
        forall|k: int| #![trigger ring_del(r, h)[k]] 0 <= k < ring_del(r, h).len() ==> exists|k2: int| 0 <= k2 < r.len() && #[trigger] r[k2] == ring_del(r, h)[k] && r[k2].0 != h,
{
    lemma_lower_bound(r, h);
    let p = lower_bound(r, h);
    let s = ring_del(r, h);
    assert forall|k: int| #![trigger s[k]] 0 <= k < s.len() implies exists|k2: int| 0 <= k2 < r.len() && #[trigger] r[k2] == s[k] && r[k2].0 != h by {
        if p < r.len() && r[p].0 == h {
            if k < p {
                assert(0 <= k < r.len() && r[k] == s[k] && r[k].0 != h);
            } else {
                assert(r[k + 1].0 > r[p].0);
                assert(0 <= k + 1 < r.len() && r[k + 1] == s[k] && r[k + 1].0 != h);
            }
        } else {
            if k > p {
                assert(r[p].0 < r[k].0);
            }
            assert(0 <= k < r.len() && r[k] == s[k] && r[k].0 != h);
        }
    }
}

proof fn lemma_push_no_dup(s: Seq<Seq<char>>, x: Seq<char>)
    requires
        s.no_duplicates(),
        !s.contains(x),
    ensures
        s.push(x).no_duplicates(),
{
    assert forall|i: int, j: int| 0 <= i < s.push(x).len() && 0 <= j < s.push(x).len() && i != j implies s.push(x)[i] != s.push(x)[j] by {
        if i < s.len() && j < s.len() {
        } else if i == s.len() {
            assert(s[j] == s.push(x)[j]);
        } else {
            assert(s[i] == s.push(x)[i]);
        }
    }
}

proof fn lemma_without_props(s: Seq<Seq<char>>, x: Seq<char>)
    requires
        s.no_duplicates(),
    ensures
        without(s, x).no_duplicates(),
        forall|y: Seq<char>| y != x && s.contains(y) ==> without(s, x).contains(y),
        !without(s, x).contains(x),
        forall|y: Seq<char>| without(s, x).contains(y) ==> s.contains(y),
    decreases s.len(),
{
    if s.len() > 0 {
        let t = s.drop_last();
        let l = s.last();
        assert(t.no_duplicates());
        lemma_without_props(t, x);
        let w = without(t, x);
        let ws = without(s, x);
        assert forall|y: Seq<char>| without(s, x).contains(y) implies s.contains(y) by {
            let q = choose|q: int| 0 <= q < ws.len() && ws[q] == y;
            if q < w.len() {
                assert(ws[q] == w[q]);
                assert(w.contains(y));
                assert(t.contains(y));
                let k = choose|k: int| 0 <= k < t.len() && t[k] == y;
                assert(s[k] == t[k]);
            } else {
                assert(s[s.len() - 1] == y);
            }
        }
        assert forall|y: Seq<char>| y != x && s.contains(y) implies without(s, x).contains(y) by {
            let k = choose|k: int| 0 <= k < s.len() && s[k] == y;
            if k < s.len() - 1 {
                assert(t[k] == y);
                assert(t.contains(y));
                assert(w.contains(y));
                let q = choose|q: int| 0 <= q < w.len() && w[q] == y;
                assert(ws[q] == w[q]);
            } else {
                assert(ws[w.len() as int] == y);
            }
        }
        if l != x {
            assert(!w.contains(l)) by {
                if w.contains(l) {
                    assert(t.contains(l));
                    let k = choose|k: int| 0 <= k < t.len() && t[k] == l;
                    assert(s[k] == s[s.len() - 1]);
                }
            }
            lemma_push_no_dup(w, l);
            assert(!ws.contains(x)) by {
                if ws.contains(x) {
                    let q = choose|q: int| 0 <= q < ws.len() && ws[q] == x;
                    if q < w.len() {
                        assert(ws[q] == w[q]);
                        assert(w.contains(x));
                    }
                }
            }
        }
    }
}

proof fn lemma_distinct_take_prefix(s: Seq<Seq<char>>, i: nat, j: nat)
    requires
        i <= j <= s.len(),
    ensures
        distinct(s.take(i as int)).len() <= distinct(s.take(j as int)).len(),
        distinct(s.take(j as int)).take(distinct(s.take(i as int)).len() as int) == distinct(s.take(i as int)),
    decreases j - i,
{
    if i < j {
        lemma_distinct_take_prefix(s, i, (j - 1) as nat);
        let a = s.take(j as int);
        assert(a.drop_last() == s.take(j - 1));
        let d = distinct(s.take(j - 1));
        let di = distinct(s.take(i as int));
        if !d.contains(a.last()) {
            assert(distinct(a).take(di.len() as int) =~= d.take(di.len() as int));
        }
    } else {
        assert(distinct(s.take(i as int)).take(distinct(s.take(i as int)).len() as int) =~= distinct(s.take(i as int)));
    }
}

proof fn lemma_distinct_prefix(w: Seq<Seq<char>>, i: nat, n: nat)
    requires
        i <= n == w.len(),
    ensures
        distinct(w).take(distinct(w.take(i as int)).len() as int) == distinct(w.take(i as int)),
        distinct(w.take(i as int)).len() <= distinct(w).len(),
{
    lemma_distinct_take_prefix(w, i, n);
    assert(w.take(n as int) == w);
}

/// The first distinct element is the first element.
proof fn lemma_distinct_first(s: Seq<Seq<char>>)
    requires
        s.len() > 0,
    ensures
        distinct(s).len() > 0,
        distinct(s)[0] == s[0],
    decreases s.len(),
{
    if s.len() > 1 {
        lemma_distinct_first(s.drop_last());
    } else {
        assert(distinct(s.drop_last()) =~= Seq::<Seq<char>>::empty());
    }
}

proof fn lemma_distinct_no_dup(s: Seq<Seq<char>>)
    ensures
        distinct(s).no_duplicates(),
        forall|y: Seq<char>| distinct(s).contains(y) <==> s.contains(y),
    decreases s.len(),
{
    if s.len() > 0 {
        let t = s.drop_last();
        let l = s.last();
        lemma_distinct_no_dup(t);
        let d = distinct(t);
        let ds = distinct(s);
        assert forall|y: Seq<char>| ds.contains(y) implies s.contains(y) by {
            let q = choose|q: int| 0 <= q < ds.len() && ds[q] == y;
            if q < d.len() {
                assert(ds[q] == d[q]);
                assert(d.contains(y));
                assert(t.contains(y));
                let k = choose|k: int| 0 <= k < t.len() && t[k] == y;
                assert(s[k] == t[k]);
            } else {
                assert(s[s.len() - 1] == y);
            }
        }
        assert forall|y: Seq<char>| s.contains(y) implies ds.contains(y) by {
            let k = choose|k: int| 0 <= k < s.len() && s[k] == y;
            if k < s.len() - 1 {
                assert(t[k] == y);
                assert(t.contains(y));
                assert(d.contains(y));
                let q = choose|q: int| 0 <= q < d.len() && d[q] == y;
                assert(ds[q] == d[q]);
            } else if !d.contains(l) {
                assert(ds[d.len() as int] == y);
            }
        }
        if !d.contains(l) {
            lemma_push_no_dup(d, l);
        }
    }
}

/// Once as many distinct nodes as ring entries have been met, every node of
/// the walk has been met.
proof fn lemma_distinct_full(r: Seq<(u64, Seq<char>)>, h: u64, i: nat)
    requires
        sorted_ring(r),
        i <= walk_from(r, h).len(),
        distinct(walk_from(r, h).take(i as int)).len() >= r.len(),
    ensures
        distinct(walk_from(r, h)) == distinct(walk_from(r, h).take(i as int)),
{
    let w = walk_from(r, h);
    let names = r.map_values(|e: (u64, Seq<char>)| e.1);
    let d = distinct(w.take(i as int));
    lemma_distinct_no_dup(w.take(i as int));
    lemma_distinct_no_dup(w);
    lemma_lower_bound(r, h);
    // every element of the walk is a name of the ring
    assert forall|y: Seq<char>| w.contains(y) implies names.contains(y) by {
        let k = choose|k: int| 0 <= k < w.len() && w[k] == y;
        let p = lower_bound(r, h);
        lemma_walk_index(r, h, k);
        if k < r.len() - p {
            assert(names[k + p] == y);
        } else {
            assert(names[k - (r.len() - p)] == y);
        }
    }
    // d covers every name: else d plus one more name would be a duplicate-free
    // sequence of names longer than the ring
    assert forall|y: Seq<char>| w.contains(y) implies d.contains(y) by {
        if !d.contains(y) {
            let e = d.push(y);
            lemma_push_no_dup(d, y);
            e.unique_seq_to_set();
            names.lemma_cardinality_of_set();
            assert forall|z: Seq<char>| e.to_set().contains(z) implies names.to_set().contains(z) by {
                if z == y {
                } else {
                    assert(e.contains(z));
                    let q = choose|q: int| 0 <= q < e.len() && e[q] == z;
                    assert(d[q] == z);
                    assert(d.contains(z));
                    assert(w.take(i as int).contains(z));
                    let k = choose|k: int| 0 <= k < w.take(i as int).len() && w.take(i as int)[k] == z;
                    assert(w[k] == z);
                    assert(w.contains(z));
                    assert(names.contains(z));
                }
            }
            vstd::set_lib::lemma_len_subset(e.to_set(), names.to_set());
        }
    }
    lemma_distinct_prefix(w, i, w.len());
    let full = distinct(w);
    assert(full.len() == d.len()) by {
        if full.len() > d.len() {
            let y = full[d.len() as int];
            assert(full.contains(y));
            assert(w.contains(y));
            assert(d.contains(y));
            let q = choose|q: int| 0 <= q < d.len() && d[q] == y;
            assert(full[q] == y);
        }
    }
    assert(full =~= full.take(d.len() as int));
}

/// The nodes `find_replicas` returns are distinct members, and there are at
/// most as many as asked for.
pub proof fn lemma_replicas_distinct_members(r: Seq<(u64, Seq<char>)>, members: Seq<Seq<char>>, count: nat, h: u64, k: nat)
    requires
        sorted_ring(r),
        forall|i: int| 0 <= i < r.len() ==> #[trigger] ring_entry_ok(r[i], members, count),
    ensures
        ({
            let d = distinct(walk_from(r, h));
            let res = d.take(if k <= d.len() { k as int } else { d.len() as int });
            &&& res.no_duplicates()
            &&& res.len() <= k
            &&& forall|y: Seq<char>| res.contains(y) ==> members.contains(y)
        }),
{
    let w = walk_from(r, h);
    let d = distinct(w);
    lemma_distinct_no_dup(w);
    lemma_lower_bound(r, h);
    let res = d.take(if k <= d.len() { k as int } else { d.len() as int });
    assert forall|y: Seq<char>| res.contains(y) implies members.contains(y) by {
        let q = choose|q: int| 0 <= q < res.len() && res[q] == y;
        assert(d[q] == y);
        assert(d.contains(y));
        assert(w.contains(y));
        let kk = choose|kk: int| 0 <= kk < w.len() && w[kk] == y;
        let p = lower_bound(r, h);
        lemma_walk_index(r, h, kk);
        if kk < r.len() - p {
            assert(ring_entry_ok(r[kk + p], members, count));
        } else {
            assert(ring_entry_ok(r[kk - (r.len() - p)], members, count));
        }
    }
}

/// A key is always owned by a member of the ring.
pub proof fn lemma_owner_is_member(r: Seq<(u64, Seq<char>)>, members: Seq<Seq<char>>, count: nat, h: u64)
    requires
        sorted_ring(r),
        r.len() > 0,
        forall|i: int| 0 <= i < r.len() ==> #[trigger] ring_entry_ok(r[i], members, count),
    ensures
        members.contains(owner(r, h)),
{
    lemma_lower_bound(r, h);
    let p = lower_bound(r, h);
    if p < r.len() {
        assert(ring_entry_ok(r[p], members, count));
    } else {
        assert(ring_entry_ok(r[0], members, count));
    }
}

/// The total of the owned counts of the given nodes.
pub open spec fn total_owned(r: Seq<(u64, Seq<char>)>, nodes: Seq<Seq<char>>) -> nat
    decreases nodes.len(),
{
    if nodes.len() == 0 {
        0
    } else {
        total_owned(r, nodes.drop_last()) + owned_count(r, nodes.last())
    }
}

/// How many times `x` occurs in `s`.
pub open spec fn occurrences(s: Seq<Seq<char>>, x: Seq<char>) -> nat
    decreases s.len(),
{
    if s.len() == 0 {
        0
    } else {
        occurrences(s.drop_last(), x) + if s.last() == x { 1nat } else { 0nat }
    }
}

proof fn lemma_total_owned_step(r: Seq<(u64, Seq<char>)>, nodes: Seq<Seq<char>>)
    requires
        r.len() > 0,
    ensures
        total_owned(r, nodes) == total_owned(r.drop_last(), nodes) + occurrences(nodes, r.last().1),
    decreases nodes.len(),
{
    if nodes.len() > 0 {
        lemma_total_owned_step(r, nodes.drop_last());
    }
}

proof fn lemma_occurrences_once(s: Seq<Seq<char>>, x: Seq<char>)
    requires
        s.no_duplicates(),
        s.contains(x),
    ensures
        occurrences(s, x) == 1,
    decreases s.len(),
{
    let t = s.drop_last();
    if s.last() == x {
        lemma_occurrences_none(t, x);
        assert(!t.contains(x)) by {
            if t.contains(x) {
                let k = choose|k: int| 0 <= k < t.len() && t[k] == x;
                assert(s[k] == s[s.len() - 1]);
            }
        }
    } else {
        let k = choose|k: int| 0 <= k < s.len() && s[k] == x;
        assert(t[k] == x);
        lemma_occurrences_once(t, x);
    }
}

proof fn lemma_occurrences_none(s: Seq<Seq<char>>, x: Seq<char>)
    ensures
        !s.contains(x) ==> occurrences(s, x) == 0,
    decreases s.len(),
{
    if s.len() > 0 {
        let t = s.drop_last();
        if !s.contains(x) {
            assert(!t.contains(x)) by {
                if t.contains(x) {
                    let k = choose|k: int| 0 <= k < t.len() && t[k] == x;
                    assert(s[k] == x);
                }
            }
            assert(s[s.len() - 1] != x);
        }
        lemma_occurrences_none(t, x);
    }
}

/// When every entry of the ring belongs to one of the given distinct
/// nodes, their owned counts add up to the number of entries.
pub proof fn lemma_owned_counts_sum(r: Seq<(u64, Seq<char>)>, nodes: Seq<Seq<char>>)
    requires
        nodes.no_duplicates(),
        forall|i: int| 0 <= i < r.len() ==> nodes.contains(#[trigger] r[i].1),
    ensures
        total_owned(r, nodes) == r.len(),
    decreases r.len(),
{
    if r.len() == 0 {
        lemma_total_owned_empty(r, nodes);
    } else {
        let t = r.drop_last();
        assert forall|i: int| 0 <= i < t.len() implies nodes.contains(#[trigger] t[i].1) by {
            assert(t[i] == r[i]);
        }
        lemma_owned_counts_sum(t, nodes);
        lemma_total_owned_step(r, nodes);
        assert(nodes.contains(r[r.len() - 1].1));
        lemma_occurrences_once(nodes, r.last().1);
    }
}

proof fn lemma_total_owned_empty(r: Seq<(u64, Seq<char>)>, nodes: Seq<Seq<char>>)
    requires
        r.len() == 0,
    ensures
        total_owned(r, nodes) == 0,
    decreases nodes.len(),
{
    if nodes.len() > 0 {
        lemma_total_owned_empty(r, nodes.drop_last());
    }
}

impl ConsistentHashRing {
    /// The load distribution accounts for every virtual node: the members'
    /// owned counts add up to the number of ring entries.
    pub proof fn lemma_load_sums_to_ring(&self)
        requires
            self.wf(),
        ensures
            total_owned(self.ring(), self.members()) == self.ring().len(),
    {
        assert forall|i: int| 0 <= i < self.ring().len() implies self.members().contains(#[trigger] self.ring()[i].1) by {
            assert(ring_entry_ok(self.ring()[i], self.members(), self.virtual_node_count as nat));
        }
        lemma_owned_counts_sum(self.ring(), self.members());
    }

    /// Every key is owned by a member of the ring.
    pub proof fn lemma_find_node_is_member(&self, h: u64)
        requires
            self.wf(),
            self.ring().len() > 0,
        ensures
            self.members().contains(owner(self.ring(), h)),
    {
        lemma_owner_is_member(self.ring(), self.members(), self.virtual_node_count as nat, h);
    }

    /// When every member has a virtual node on the ring, the replicas of a
    /// key are as many as asked for, up to the number of members, and the
    /// first of them is the key's owner (what `find_node` answers).
    pub proof fn lemma_find_replicas_count(&self, h: u64, k: nat)
        requires
            self.wf(),
            self.ring().len() > 0,
            forall|m: Seq<char>| #[trigger] self.members().contains(m)
                ==> exists|i: int| 0 <= i < self.ring().len() && self.ring()[i].1 == m,
        ensures
            ({
                let d = distinct(walk_from(self.ring(), h));
                let res = d.take(if k <= d.len() { k as int } else { d.len() as int });
                &&& d.len() == self.members().len()
                &&& res.len() == if k <= self.members().len() { k } else { self.members().len() }
                &&& k >= 1 ==> res[0] == owner(self.ring(), h)
            }),
    {
        let r = self.ring();
        let ms = self.members();
        let w = walk_from(r, h);
        let d = distinct(w);
        lemma_distinct_no_dup(w);
        lemma_lower_bound(r, h);
        let p = lower_bound(r, h);
        assert(w.len() == 2 * r.len() - p) by {
            lemma_walk_index(r, h, 0);
        }
        assert forall|y: Seq<char>| d.contains(y) <==> ms.contains(y) by {
            if d.contains(y) {
                assert(w.contains(y));
                let kk = choose|kk: int| 0 <= kk < w.len() && w[kk] == y;
                lemma_walk_index(r, h, kk);
                if kk < r.len() - p {
                    assert(ring_entry_ok(r[kk + p], ms, self.vnodes_per_node() as nat));
                } else {
                    assert(ring_entry_ok(r[kk - (r.len() - p)], ms, self.vnodes_per_node() as nat));
                }
            }
            if ms.contains(y) {
                let i = choose|i: int| 0 <= i < r.len() && r[i].1 == y;
                let kk = (r.len() - p) + i;
                lemma_walk_index(r, h, kk);
                assert(w[kk] == y);
                assert(w.contains(y));
            }
        }
        assert(d.to_set() =~= ms.to_set()) by {
            assert forall|y: Seq<char>| d.to_set().contains(y) <==> ms.to_set().contains(y) by {}
        }
        d.unique_seq_to_set();
        ms.unique_seq_to_set();
        if k >= 1 {
            lemma_distinct_first(w);
            lemma_walk_index(r, h, 0);
        }
    }

    /// The replicas of a key are distinct members, at most as many as asked
    /// for.
    pub proof fn lemma_find_replicas_distinct(&self, h: u64, k: nat)
        requires
            self.wf(),
        ensures
            ({
                let d = distinct(walk_from(self.ring(), h));
                let res = d.take(if k <= d.len() { k as int } else { d.len() as int });
                &&& res.no_duplicates()
                &&& res.len() <= k
                &&& forall|y: Seq<char>| res.contains(y) ==> self.members().contains(y)
            }),
    {
        lemma_replicas_distinct_members(self.ring(), self.members(), self.virtual_node_count as nat, h, k);
    }
}

} // verus!

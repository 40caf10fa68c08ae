//! A cluster member's coordination: the consistent-hash ring that places
//! data, the gossip membership, and the anti-entropy repairs. The local
//! hologram store stays with the caller, which hands this node what the
//! store produced (store results, fragment counts, digests).
use vstd::prelude::*;
use std::collections::HashMap;
use crate::anti_entropy::{
    AntiEntropyRepair, Digest, RepairStatus, RepairTask, MerkleTree, built_root, tree_diff,
    in_progress_count, in_progress_of, pending_of, with_status, ids_in_ranges, mix, root_hash_of,
    has_task, task_index,
};
use crate::clock::now_millis;
use crate::consistent_hash::{
    ConsistentHashRing, RingError, distinct, key_hash, ring_add_vnodes, string_views, walk_from, without,
};
use crate::gossip::{
    GossipMessage, GossipProtocol, MsgView, NodeStatus, NodeView, alive_of, has_node, merge_spec,
    node_index, receive_spec, refutes, local_address_of, msg_view, msg_views, timed_out_ids, apply_timeouts,
    drain_run, reset_full,
};
use crate::records::{ClusterStatus, DistributedConfig, DistributedStoreResult, StoreResult};
use crate::text::{dec, u64_to_string};
use crate::types::FragmentId;

verus! {

broadcast use vstd::std_specs::hash::group_hash_axioms;

/// The ids a join adds to the ring: the node itself, then each seed.
pub open spec fn join_ids(node_id: Seq<char>, seeds: Seq<(Seq<char>, Seq<char>)>) -> Seq<Seq<char>> {
    seq![node_id] + seeds.map_values(|s: (Seq<char>, Seq<char>)| s.0)
}

/// Whether the id at position `i` is already a member when its turn comes.
pub open spec fn clash_at(members: Seq<Seq<char>>, ids: Seq<Seq<char>>, i: int) -> bool {
    (members + ids.take(i)).contains(ids[i])
}

/// No id of the join clashes.
pub open spec fn no_clash(members: Seq<Seq<char>>, ids: Seq<Seq<char>>) -> bool {
    forall|i: int| 0 <= i < ids.len() ==> !#[trigger] clash_at(members, ids, i)
}

/// The ring after adding each id with `n` virtual nodes, in order.
pub open spec fn ring_adds(r: Seq<(u64, Seq<char>)>, ids: Seq<Seq<char>>, n: nat) -> Seq<(u64, Seq<char>)>
    decreases ids.len(),
{
    if ids.len() == 0 {
        r
    } else {
        ring_add_vnodes(ring_adds(r, ids.drop_last(), n), ids.last(), n)
    }
}

/// The members and queued messages after each seed joins (alive, at
/// incarnation 0, without metadata, heard of at `now`), in order.
pub open spec fn join_seeds(
    s: (Seq<NodeView>, Seq<MsgView>),
    seeds: Seq<(Seq<char>, Seq<char>)>,
    now: u64,
) -> (Seq<NodeView>, Seq<MsgView>)
    decreases seeds.len(),
{
    if seeds.len() == 0 {
        s
    } else {
        let prev = join_seeds(s, seeds.drop_last(), now);
        let (id, addr) = seeds.last();
        (
            merge_spec(
                prev.0,
                NodeView {
                    node_id: id,
                    address: addr,
                    status: NodeStatus::Alive,
                    incarnation: 0,
                    metadata: Map::empty(),
                    last_heartbeat: now,
                },
            ),
            prev.1.push(MsgView::Alive { node_id: id, address: addr, incarnation: 0 }),
        )
    }
}

/// How many seeds joined before the id at position `k` of a join clashed.
pub open spec fn seeds_before(k: int) -> int {
    if k > 0 { k - 1 } else { 0 }
}

pub open spec fn seed_views(seeds: Seq<(String, String)>) -> Seq<(Seq<char>, Seq<char>)> {
    seeds.map_values(|s: (String, String)| (s.0@, s.1@))
}

/// The ring key of a stored source: `src:<hash>`.
pub open spec fn source_key(source_hash: u64) -> Seq<char> {
    "src:"@ + dec(source_hash as nat)
}

/// The replicas the ring gives a key: up to `count` distinct nodes met
/// walking clockwise from the key's position.
pub open spec fn ring_replicas(r: Seq<(u64, Seq<char>)>, key: Seq<char>, count: nat) -> Seq<Seq<char>> {
    if r.len() == 0 || count == 0 {
        Seq::empty()
    } else {
        let d = distinct(walk_from(r, key_hash(key)));
        d.take(if count <= d.len() { count as int } else { d.len() as int })
    }
}

/// Whether the member with this id is known and alive.
pub open spec fn alive_in(members: Seq<NodeView>, id: Seq<char>) -> bool {
    has_node(members, id) && members[node_index(members, id)].status == NodeStatus::Alive
}

/// The ids, in order, of the alive members among `ids`.
pub open spec fn alive_among(members: Seq<NodeView>, ids: Seq<Seq<char>>) -> Seq<Seq<char>>
    decreases ids.len(),
{
    if ids.len() == 0 {
        Seq::empty()
    } else if alive_in(members, ids.last()) {
        alive_among(members, ids.drop_last()).push(ids.last())
    } else {
        alive_among(members, ids.drop_last())
    }
}

/// The pending writes after recording, for each fragment, the replicas
/// its write went to.
pub open spec fn record_writes(
    p: Map<FragmentId, Seq<Seq<char>>>,
    ids: Seq<FragmentId>,
    replicas: Seq<Seq<char>>,
) -> Map<FragmentId, Seq<Seq<char>>>
    decreases ids.len(),
{
    if ids.len() == 0 {
        p
    } else {
        record_writes(p, ids.drop_last(), replicas).insert(ids.last(), replicas)
    }
}

/// The members, queued messages and incarnation after one message is
/// handled at `now`: a suspicion of the local node at its incarnation is
/// answered by the next incarnation, announced alive; anything else is
/// handled as `receive_spec` says.
pub open spec fn recv_step(
    st: (Seq<NodeView>, Seq<MsgView>, u64),
    local: Seq<char>,
    msg: GossipMessage,
    now: u64,
) -> (Seq<NodeView>, Seq<MsgView>, u64) {
    if refutes(st.0, local, st.2, msg) {
        (
            st.0,
            st.1.push(MsgView::Alive {
                node_id: local,
                address: local_address_of(st.0, local),
                incarnation: (st.2 + 1) as u64,
            }),
            (st.2 + 1) as u64,
        )
    } else {
        let r = receive_spec(st.0, st.1, local, msg_view(msg), now);
        (r.0, r.1, st.2)
    }
}

/// The state after handling the messages in order.
pub open spec fn recv_all(
    st: (Seq<NodeView>, Seq<MsgView>, u64),
    local: Seq<char>,
    msgs: Seq<GossipMessage>,
    now: u64,
) -> (Seq<NodeView>, Seq<MsgView>, u64)
    decreases msgs.len(),
{
    if msgs.len() == 0 {
        st
    } else {
        recv_step(recv_all(st, local, msgs.drop_last(), now), local, msgs.last(), now)
    }
}

/// The content hash of a fragment from its values' bit patterns (real and
/// imaginary part of each): each value's parts are xored and folded in
/// with `acc * 31 + x`, wrapping.
pub open spec fn content_hash(parts: Seq<(u64, u64)>) -> u64
    decreases parts.len(),
{
    if parts.len() == 0 {
        0
    } else {
        mix(content_hash(parts.drop_last()), parts.last().0 ^ parts.last().1)
    }
}

/// The digest of a fragment: its id and its content hash.
pub fn local_digest(id: FragmentId, parts: &[(u64, u64)]) -> (r: Digest)
    ensures
        r == (id, content_hash(parts@)),
{
    let mut acc: u64 = 0;
    let n = parts.len();
    let mut i: usize = 0;
    while i < n
        invariant
            n == parts@.len(),
            i <= n,
            acc == content_hash(parts@.take(i as int)),
        decreases n - i,
    {
        assert(parts@.take(i + 1).drop_last() =~= parts@.take(i as int));
        let (re, im) = parts[i];
        acc = acc.wrapping_mul(31).wrapping_add(re ^ im);
        i = i + 1;
    }
    assert(parts@.take(n as int) =~= parts@);
    (id, acc)
}

/// The tasks with every pending one completed.
pub open spec fn complete_pending(s: Seq<RepairTask>) -> Seq<RepairTask> {
    Seq::new(
        s.len(),
        |i: int| if s[i].status is Pending { with_status(s[i], RepairStatus::Completed) } else { s[i] },
    )
}

/// The tasks with the pending ones whose ids are listed completed.
pub open spec fn complete_listed(s: Seq<RepairTask>, ids: Seq<u64>) -> Seq<RepairTask> {
    Seq::new(
        s.len(),
        |i: int| if s[i].status is Pending && ids.contains(s[i].task_id) {
            with_status(s[i], RepairStatus::Completed)
        } else {
            s[i]
        },
    )
}

/// Each listed pending task is a pending task of `s`.
pub open spec fn pending_from(s: Seq<RepairTask>) -> bool {
    forall|j: int| #![trigger pending_of(s)[j]] 0 <= j < pending_of(s).len() ==> exists|i: int| {
        &&& 0 <= i < s.len()
        &&& #[trigger] s[i] == pending_of(s)[j]
        &&& s[i].status is Pending
    }
}

/// Each pending task listed comes from the tasks, in order.
proof fn lemma_pending_from(s: Seq<RepairTask>)
    ensures
        pending_from(s),
        pending_of(s).len() <= s.len(),
    decreases s.len(),
{
    if s.len() > 0 {
        lemma_pending_from(s.drop_last());
        let p = pending_of(s.drop_last());
        assert forall|j: int| #![trigger pending_of(s)[j]] 0 <= j < pending_of(s).len() implies exists|i: int| {
            &&& 0 <= i < s.len()
            &&& #[trigger] s[i] == pending_of(s)[j]
            &&& s[i].status is Pending
        } by {
            if j < p.len() {
                let i = choose|i: int| 0 <= i < s.drop_last().len() && #[trigger] s.drop_last()[i] == p[j] && s.drop_last()[i].status is Pending;
                assert(s[i] == s.drop_last()[i]);
            } else {
                assert(s[s.len() - 1] == pending_of(s)[j]);
            }
        }
    }
}

/// Listed pending tasks keep the order of increasing ids.
proof fn lemma_pending_ids_increase(s: Seq<RepairTask>)
    requires
        forall|i: int, j: int| 0 <= i < j < s.len() ==> #[trigger] s[i].task_id < #[trigger] s[j].task_id,
    ensures
        forall|i: int, j: int|
            0 <= i < j < pending_of(s).len() ==> #[trigger] pending_of(s)[i].task_id < #[trigger] pending_of(s)[j].task_id,
    decreases s.len(),
{
    if s.len() > 0 {
        let t = s.drop_last();
        assert forall|i: int, j: int| 0 <= i < j < t.len() implies #[trigger] t[i].task_id < #[trigger] t[j].task_id by {
            assert(s[i] == t[i] && s[j] == t[j]);
        }
        lemma_pending_ids_increase(t);
        lemma_pending_from(t);
        let p = pending_of(t);
        assert forall|i: int, j: int| 0 <= i < j < pending_of(s).len() implies #[trigger] pending_of(s)[i].task_id < #[trigger] pending_of(s)[j].task_id by {
            if j >= p.len() {
                let k = choose|k: int| 0 <= k < t.len() && #[trigger] t[k] == p[i] && t[k].status is Pending;
                assert(s[k] == t[k]);
                assert(s[k].task_id < s[s.len() - 1].task_id);
            }
        }
    }
}

/// Every pending task is listed.
proof fn lemma_pending_listed(s: Seq<RepairTask>, i: int)
    requires
        0 <= i < s.len(),
        s[i].status is Pending,
    ensures
        exists|j: int| 0 <= j < pending_of(s).len() && #[trigger] pending_of(s)[j] == s[i],
    decreases s.len(),
{
    if i < s.len() - 1 {
        lemma_pending_listed(s.drop_last(), i);
        let j = choose|j: int| 0 <= j < pending_of(s.drop_last()).len() && #[trigger] pending_of(s.drop_last())[j] == s.drop_last()[i];
        assert(pending_of(s)[j] == s[i]);
    } else {
        assert(pending_of(s)[pending_of(s).len() - 1] == s[i]);
    }
}

/// Changing a task that is not in progress into another that is not
/// leaves the count of tasks in progress.
proof fn lemma_in_progress_update(s: Seq<RepairTask>, i: int, x: RepairTask)
    requires
        0 <= i < s.len(),
        !(s[i].status is InProgress),
        !(x.status is InProgress),
    ensures
        in_progress_count(s.update(i, x)) == in_progress_count(s),
    decreases s.len(),
{
    if i < s.len() - 1 {
        lemma_in_progress_update(s.drop_last(), i, x);
        assert(s.update(i, x).drop_last() =~= s.drop_last().update(i, x));
    } else {
        assert(s.update(i, x).drop_last() =~= s.drop_last());
    }
}

/// A cluster member's coordination state.
pub struct DistributedHolographicNode {
    pub ring: ConsistentHashRing,
    pub gossip: GossipProtocol,
    pub anti_entropy: AntiEntropyRepair,
    config: DistributedConfig,
    pending_writes: HashMap<FragmentId, Vec<String>>,
}

impl DistributedHolographicNode {
    pub closed spec fn cfg(&self) -> DistributedConfig {
        self.config
    }

    /// The ring.
    pub closed spec fn hash_ring(&self) -> ConsistentHashRing {
        self.ring
    }

    /// The gossip engine.
    pub closed spec fn members_protocol(&self) -> GossipProtocol {
        self.gossip
    }

    /// The repair engine.
    pub closed spec fn repairs(&self) -> AntiEntropyRepair {
        self.anti_entropy
    }

    /// For each fragment stored here, the replicas its write went to.
    pub closed spec fn pending(&self) -> Map<FragmentId, Seq<Seq<char>>> {
        self.pending_writes@.map_values(|v: Vec<String>| string_views(v@))
    }

    /// The parts are well formed, and the repair engine's tree uses the
    /// configured bucket size.
    pub closed spec fn wf(&self) -> bool {
        &&& self.ring.wf()
        &&& self.gossip.wf()
        &&& self.anti_entropy.wf()
        &&& self.anti_entropy.tree().bucket() == self.cfg().merkle_bucket_size
    }

    /// A node with an empty ring, a membership of itself at its address, no
    /// repairs and nothing written.
    pub fn new(dist_config: DistributedConfig) -> (r: Self)
        ensures
            r.wf(),
            r.cfg() == dist_config,
            r.hash_ring().members() == Seq::<Seq<char>>::empty(),
            r.hash_ring().ring() == Seq::<(u64, Seq<char>)>::empty(),
            r.hash_ring().vnodes_per_node() == dist_config.virtual_nodes,
            r.members_protocol().local() == dist_config.node_id@,
            r.members_protocol().incarnation() == 0,
            r.members_protocol().members().len() == 1,
            r.members_protocol().members()[0].node_id == dist_config.node_id@,
            r.members_protocol().members()[0].address == dist_config.address@,
            r.members_protocol().members()[0].status == NodeStatus::Alive,
            r.members_protocol().cfg() == dist_config.gossip_config,
            r.members_protocol().queue() == Seq::<MsgView>::empty(),
            r.repairs().tasks() == Seq::<RepairTask>::empty(),
            r.repairs().next_id() == 1,
            r.repairs().max_concurrent() == dist_config.max_concurrent_repairs,
            r.repairs().digests() == Seq::<Digest>::empty(),
            r.pending() == Map::<FragmentId, Seq<Seq<char>>>::empty(),
    {
        let ring = ConsistentHashRing::new(dist_config.virtual_nodes);
        let gossip = GossipProtocol::with_address(
            dist_config.node_id.clone(),
            dist_config.address.clone(),
            dist_config.gossip_config,
        );
        let anti_entropy = AntiEntropyRepair::new(dist_config.merkle_bucket_size, dist_config.max_concurrent_repairs);
        let pending_writes: HashMap<FragmentId, Vec<String>> = HashMap::new();
        let r = DistributedHolographicNode { ring, gossip, anti_entropy, config: dist_config, pending_writes };
        assert(r.pending() =~= Map::<FragmentId, Seq<Seq<char>>>::empty());
        r
    }

    /// Joins the cluster: adds this node and then each seed to the ring,
    /// each seed joining the membership (alive, at incarnation 0, heard of
    /// at `now`) once it is on the ring. Stops at the first id already on
    /// the ring, with that error, keeping what was done before it.
    pub fn join_cluster_at(&mut self, seed_nodes: &[(String, String)], now: u64) -> (r: Result<(), RingError>)
        requires
            old(self).wf(),
        ensures
            final(self).wf(),
            final(self).cfg() == old(self).cfg(),
            final(self).repairs() == old(self).repairs(),
            final(self).pending() == old(self).pending(),
            final(self).hash_ring().vnodes_per_node() == old(self).hash_ring().vnodes_per_node(),
            final(self).members_protocol().local() == old(self).members_protocol().local(),
            final(self).members_protocol().incarnation() == old(self).members_protocol().incarnation(),
            final(self).members_protocol().cfg() == old(self).members_protocol().cfg(),
            final(self).members_protocol().probe() == old(self).members_protocol().probe(),
            final(self).members_protocol().counters() == old(self).members_protocol().counters(),
            ({
                let ids = join_ids(old(self).cfg().node_id@, seed_views(seed_nodes@));
                let m0 = old(self).hash_ring().members();
                let r0 = old(self).hash_ring().ring();
                let n = old(self).hash_ring().vnodes_per_node() as nat;
                let g0 = (old(self).members_protocol().members(), old(self).members_protocol().queue());
                let g1 = (final(self).members_protocol().members(), final(self).members_protocol().queue());
                &&& (r is Ok <==> no_clash(m0, ids))
                &&& r is Ok ==> {
                    &&& final(self).hash_ring().ring() == ring_adds(r0, ids, n)
                    &&& final(self).hash_ring().members() == m0 + ids
                    &&& g1 == join_seeds(g0, seed_views(seed_nodes@), now)
                }
                &&& r is Err ==> exists|k: int| {
                    &&& 0 <= k < ids.len()
                    &&& #[trigger] clash_at(m0, ids, k)
                    &&& forall|j: int| 0 <= j < k ==> !#[trigger] clash_at(m0, ids, j)
                    &&& r matches Err(RingError::NodeExists(id)) && id@ == ids[k]
                    &&& final(self).hash_ring().ring() == ring_adds(r0, ids.take(k), n)
                    &&& final(self).hash_ring().members() == m0 + ids.take(k)
                    &&& g1 == join_seeds(g0, seed_views(seed_nodes@).take(seeds_before(k)), now)
                }
            }),
    {
        let ghost sv = seed_views(seed_nodes@);
        let ghost ids = join_ids(self.config.node_id@, sv);
        let ghost m0 = self.ring.members();
        let ghost r0 = self.ring.ring();
        let ghost n = self.ring.vnodes_per_node() as nat;
        let ghost g0 = (self.gossip.members(), self.gossip.queue());
        assert(ids[0] == self.config.node_id@);
        assert(ids.take(0) =~= Seq::<Seq<char>>::empty());
        assert(m0 + ids.take(0) =~= m0);
        assert(sv.take(0) =~= Seq::<(Seq<char>, Seq<char>)>::empty());
        assert(ring_adds(r0, ids.take(0), n) == r0);
        assert(join_seeds(g0, sv.take(seeds_before(0)), now) == g0);
        let own = self.config.node_id.as_str();
        match self.ring.add_node(own) {
            Err(e) => {
                assert(clash_at(m0, ids, 0));
                return Err(e);
            },
            Ok(()) => {},
        }
        assert(ids.take(1) =~= seq![ids[0]]);
        assert(ids.take(1).drop_last() =~= ids.take(0));
        assert(!clash_at(m0, ids, 0));
        assert(ring_adds(r0, ids.take(1), n) == ring_add_vnodes(r0, ids[0], n));
        let count = seed_nodes.len();
        let mut i: usize = 0;
        while i < count
            invariant
                count == seed_nodes@.len(),
                sv == seed_views(seed_nodes@),
                ids == join_ids(old(self).cfg().node_id@, sv),
                ids.len() == count + 1,
                i <= count,
                self.ring.wf(),
                self.gossip.wf(),
                self.anti_entropy == old(self).anti_entropy,
                self.config == old(self).config,
                self.anti_entropy.wf(),
                self.anti_entropy.tree().bucket() == self.config.merkle_bucket_size,
                self.pending_writes == old(self).pending_writes,
                self.ring.vnodes_per_node() == n,
                n == old(self).hash_ring().vnodes_per_node() as nat,
                m0 == old(self).hash_ring().members(),
                r0 == old(self).hash_ring().ring(),
                g0 == (old(self).members_protocol().members(), old(self).members_protocol().queue()),
                self.ring.ring() == ring_adds(r0, ids.take(i + 1), n),
                self.ring.members() == m0 + ids.take(i + 1),
                forall|j: int| 0 <= j < i + 1 ==> !#[trigger] clash_at(m0, ids, j),
                (self.gossip.members(), self.gossip.queue()) == join_seeds(g0, sv.take(i as int), now),
                self.gossip.local() == old(self).members_protocol().local(),
                self.gossip.incarnation() == old(self).members_protocol().incarnation(),
                self.gossip.cfg() == old(self).members_protocol().cfg(),
                self.gossip.probe() == old(self).members_protocol().probe(),
                self.gossip.counters() == old(self).members_protocol().counters(),
            decreases count - i,
        {
            let sid = &seed_nodes[i].0;
            let saddr = &seed_nodes[i].1;
            assert(sv[i as int] == (sid@, saddr@));
            assert(ids[i + 1] == sid@);
            match self.ring.add_node(sid.as_str()) {
                Err(e) => {
                    assert(clash_at(m0, ids, i + 1));
                    assert(ids.take(i + 1).len() == i + 1);
                    return Err(e);
                },
                Ok(()) => {},
            }
            assert(ids.take(i + 2).drop_last() =~= ids.take(i + 1));
            assert(ids.take(i + 2) =~= ids.take(i + 1).push(ids[i + 1]));
            let meta: HashMap<String, String> = HashMap::new();
            self.gossip.handle_join_at(sid.clone(), saddr.clone(), 0, meta, now);
            assert(sv.take(i + 1).drop_last() =~= sv.take(i as int));
            assert(sv.take(i + 1).last() == sv[i as int]);
            i = i + 1;
        }
        assert(ids.take(count + 1) =~= ids);
        assert(sv.take(count as int) =~= sv);
        Ok(())
    }

    /// Joins the cluster now (see `join_cluster_at`; one reading of the clock
    /// stamps all the joins).
    pub fn join_cluster(&mut self, seed_nodes: &[(String, String)]) -> (r: Result<(), RingError>)
        requires
            old(self).wf(),
        ensures
            final(self).wf(),
            final(self).cfg() == old(self).cfg(),
            final(self).repairs() == old(self).repairs(),
            final(self).pending() == old(self).pending(),
            final(self).hash_ring().vnodes_per_node() == old(self).hash_ring().vnodes_per_node(),
            final(self).members_protocol().local() == old(self).members_protocol().local(),
            final(self).members_protocol().incarnation() == old(self).members_protocol().incarnation(),
            final(self).members_protocol().cfg() == old(self).members_protocol().cfg(),
            final(self).members_protocol().probe() == old(self).members_protocol().probe(),
            final(self).members_protocol().counters() == old(self).members_protocol().counters(),
            ({
                let ids = join_ids(old(self).cfg().node_id@, seed_views(seed_nodes@));
                let m0 = old(self).hash_ring().members();
                let r0 = old(self).hash_ring().ring();
                let n = old(self).hash_ring().vnodes_per_node() as nat;
                let g0 = (old(self).members_protocol().members(), old(self).members_protocol().queue());
                let g1 = (final(self).members_protocol().members(), final(self).members_protocol().queue());
                &&& (r is Ok <==> no_clash(m0, ids))
                &&& r is Ok ==> {
                    &&& final(self).hash_ring().ring() == ring_adds(r0, ids, n)
                    &&& final(self).hash_ring().members() == m0 + ids
                    &&& exists|now: u64| g1 == #[trigger] join_seeds(g0, seed_views(seed_nodes@), now)
                }
                &&& r is Err ==> exists|k: int| {
                    &&& 0 <= k < ids.len()
                    &&& #[trigger] clash_at(m0, ids, k)
                    &&& forall|j: int| 0 <= j < k ==> !#[trigger] clash_at(m0, ids, j)
                    &&& r matches Err(RingError::NodeExists(id)) && id@ == ids[k]
                    &&& final(self).hash_ring().ring() == ring_adds(r0, ids.take(k), n)
                    &&& final(self).hash_ring().members() == m0 + ids.take(k)
                    &&& exists|now: u64| g1 == #[trigger] join_seeds(g0, seed_views(seed_nodes@).take(seeds_before(k)), now)
                }
            }),
    {
        let now = now_millis();
        self.join_cluster_at(seed_nodes, now)
    }

    /// Replicates a source the local store has just stored: its replicas
    /// are those the ring gives `src:<hash>` (as many as the replication
    /// factor), of which the alive members take the writes of its
    /// fragments; the write reaches a quorum when these and this node make
    /// up a majority of the replication factor.
    pub fn distributed_store(&mut self, local_result: StoreResult) -> (r: DistributedStoreResult)
        requires
            old(self).wf(),
        ensures
            final(self).wf(),
            final(self).cfg() == old(self).cfg(),
            final(self).hash_ring() == old(self).hash_ring(),
            final(self).members_protocol() == old(self).members_protocol(),
            final(self).repairs() == old(self).repairs(),
            ({
                let replicas = ring_replicas(
                    old(self).hash_ring().ring(),
                    source_key(local_result.source_hash),
                    old(self).cfg().replication_factor as nat,
                );
                let alive = alive_among(old(self).members_protocol().members(), replicas);
                &&& string_views(r.replica_nodes@) == alive
                &&& r.quorum_achieved == (alive.len() + 1 >= old(self).cfg().replication_factor / 2 + 1)
                &&& final(self).pending() == record_writes(old(self).pending(), local_result.fragment_ids@, alive)
            }),
            r.local_result == local_result,
            r.replication_factor == old(self).cfg().replication_factor,
    {
        let mut key = String::from_str("src:");
        key.append(u64_to_string(local_result.source_hash).as_str());
        proof {
            reveal_strlit("src:");
        }
        assert(key@ == source_key(local_result.source_hash));
        let replicas = self.ring.find_replicas(key.as_str(), self.config.replication_factor);
        let ghost rv = ring_replicas(self.ring.ring(), key@, self.config.replication_factor as nat);
        assert(string_views(replicas@) == rv);
        let ghost members = self.gossip.members();
        let mut alive: Vec<String> = Vec::new();
        let mut j: usize = 0;
        while j < replicas.len()
            invariant
                self.gossip.wf(),
                members == self.gossip.members(),
                string_views(replicas@) == rv,
                j <= replicas@.len(),
                string_views(alive@) == alive_among(members, rv.take(j as int)),
                alive@.len() <= j,
            decreases replicas@.len() - j,
        {
            assert(rv.take(j + 1).drop_last() =~= rv.take(j as int));
            assert(rv[j as int] == replicas@[j as int]@);
            if self.gossip.is_member_alive(replicas[j].as_str()) {
                let name = replicas[j].clone();
                alive.push(name);
                assert(string_views(alive@) =~= alive_among(members, rv.take(j as int)).push(rv[j as int]));
            }
            j = j + 1;
        }
        assert(rv.take(replicas@.len() as int) =~= rv);
        let quorum = self.config.replication_factor / 2 + 1;
        let quorum_achieved = alive.len() >= quorum - 1;
        let ghost av = string_views(alive@);
        let ids = &local_result.fragment_ids;
        let mut k: usize = 0;
        while k < ids.len()
            invariant
                string_views(alive@) == av,
                k <= ids@.len(),
                self.pending() == record_writes(old(self).pending(), ids@.take(k as int), av),
                self.ring == old(self).ring,
                self.gossip == old(self).gossip,
                self.anti_entropy == old(self).anti_entropy,
                self.config == old(self).config,
            decreases ids@.len() - k,
        {
            let copy = alive.clone();
            assert(string_views(copy@) =~= av) by {
                assert forall|q: int| 0 <= q < copy@.len() implies copy@[q] == alive@[q] by {
                    assert(cloned::<String>(alive@[q], copy@[q]));
                }
            }
            let ghost before = self.pending_writes@;
            self.pending_writes.insert(ids[k], copy);
            assert(self.pending() =~= before.map_values(|v: Vec<String>| string_views(v@)).insert(ids@[k as int], av));
            assert(ids@.take(k + 1).drop_last() =~= ids@.take(k as int));
            k = k + 1;
        }
        assert(ids@.take(ids@.len() as int) =~= ids@);
        let replication_factor = self.config.replication_factor;
        DistributedStoreResult { local_result, replica_nodes: alive, replication_factor, quorum_achieved }
    }

    /// The other nodes that may hold a replica of a source, in the order to
    /// ask them: the ring's replicas of `src:<hash>` but this node.
    pub fn replica_sources(&self, source_hash: u64) -> (r: Vec<String>)
        requires
            self.wf(),
        ensures
            string_views(r@) == without(
                ring_replicas(self.hash_ring().ring(), source_key(source_hash), self.cfg().replication_factor as nat),
                self.cfg().node_id@,
            ),
    {
        let mut key = String::from_str("src:");
        key.append(u64_to_string(source_hash).as_str());
        proof {
            reveal_strlit("src:");
        }
        let replicas = self.ring.find_replicas(key.as_str(), self.config.replication_factor);
        let ghost rv = ring_replicas(self.ring.ring(), key@, self.config.replication_factor as nat);
        let ghost me = self.config.node_id@;
        let mut out: Vec<String> = Vec::new();
        let mut j: usize = 0;
        while j < replicas.len()
            invariant
                string_views(replicas@) == rv,
                me == self.config.node_id@,
                j <= replicas@.len(),
                string_views(out@) == without(rv.take(j as int), me),
            decreases replicas@.len() - j,
        {
            assert(rv.take(j + 1).drop_last() =~= rv.take(j as int));
            assert(rv[j as int] == replicas@[j as int]@);
            if replicas[j] != self.config.node_id {
                let name = replicas[j].clone();
                out.push(name);
                assert(string_views(out@) =~= without(rv.take(j as int), me).push(rv[j as int]));
            }
            j = j + 1;
        }
        assert(rv.take(replicas@.len() as int) =~= rv);
        out
    }

    /// Handles gossip messages received at `now`, in order.
    pub fn receive_gossip_at(&mut self, messages: Vec<GossipMessage>, now: u64)
        requires
            old(self).wf(),
            old(self).members_protocol().incarnation() + messages@.len() <= u64::MAX,
        ensures
            final(self).wf(),
            final(self).cfg() == old(self).cfg(),
            final(self).hash_ring() == old(self).hash_ring(),
            final(self).repairs() == old(self).repairs(),
            final(self).pending() == old(self).pending(),
            final(self).members_protocol().local() == old(self).members_protocol().local(),
            final(self).members_protocol().cfg() == old(self).members_protocol().cfg(),
            final(self).members_protocol().probe() == old(self).members_protocol().probe(),
            final(self).members_protocol().counters() == old(self).members_protocol().counters(),
            (
                final(self).members_protocol().members(),
                final(self).members_protocol().queue(),
                final(self).members_protocol().incarnation(),
            ) == recv_all(
                (
                    old(self).members_protocol().members(),
                    old(self).members_protocol().queue(),
                    old(self).members_protocol().incarnation(),
                ),
                old(self).members_protocol().local(),
                messages@,
                now,
            ),
    {
        let ghost ms = messages@;
        let ghost local = self.gossip.local();
        let ghost st0 = (self.gossip.members(), self.gossip.queue(), self.gossip.incarnation());
        let mut rest = messages;
        let ghost mut k: int = 0;
        proof {
            assert(ms.take(0) =~= Seq::<GossipMessage>::empty());
            assert(ms.skip(0) =~= ms);
        }
        while rest.len() > 0
            invariant
                0 <= k <= ms.len(),
                rest@ == ms.skip(k),
                self.gossip.wf(),
                self.ring == old(self).ring,
                self.anti_entropy == old(self).anti_entropy,
                self.config == old(self).config,
                self.pending_writes == old(self).pending_writes,
                local == self.gossip.local(),
                local == old(self).members_protocol().local(),
                st0 == (old(self).members_protocol().members(), old(self).members_protocol().queue(), old(self).members_protocol().incarnation()),
                self.gossip.cfg() == old(self).members_protocol().cfg(),
                self.gossip.probe() == old(self).members_protocol().probe(),
                self.gossip.counters() == old(self).members_protocol().counters(),
                (self.gossip.members(), self.gossip.queue(), self.gossip.incarnation()) == recv_all(st0, local, ms.take(k), now),
                self.gossip.incarnation() <= st0.2 + k,
                st0.2 + ms.len() <= u64::MAX,
            decreases rest@.len(),
        {
            let msg = rest.remove(0);
            proof {
                assert(msg == ms[k]);
                assert(self.gossip.incarnation() < u64::MAX);
            }
            self.gossip.receive_message_at(msg, now);
            proof {
                assert(ms.take(k + 1).drop_last() =~= ms.take(k));
                assert(ms.skip(k + 1) =~= ms.skip(k).drop_first());
                k = k + 1;
            }
        }
        assert(ms.take(k) =~= ms);
    }

    /// Handles gossip messages received now (see `receive_gossip_at`; one
    /// reading of the clock stamps them all).
    pub fn receive_gossip(&mut self, messages: Vec<GossipMessage>)
        requires
            old(self).wf(),
            old(self).members_protocol().incarnation() + messages@.len() <= u64::MAX,
        ensures
            final(self).wf(),
            final(self).cfg() == old(self).cfg(),
            final(self).hash_ring() == old(self).hash_ring(),
            final(self).repairs() == old(self).repairs(),
            final(self).pending() == old(self).pending(),
            final(self).members_protocol().local() == old(self).members_protocol().local(),
            final(self).members_protocol().cfg() == old(self).members_protocol().cfg(),
            final(self).members_protocol().probe() == old(self).members_protocol().probe(),
            final(self).members_protocol().counters() == old(self).members_protocol().counters(),
            exists|now: u64| (
                final(self).members_protocol().members(),
                final(self).members_protocol().queue(),
                final(self).members_protocol().incarnation(),
            ) == #[trigger] recv_all(
                (
                    old(self).members_protocol().members(),
                    old(self).members_protocol().queue(),
                    old(self).members_protocol().incarnation(),
                ),
                old(self).members_protocol().local(),
                messages@,
                now,
            ),
    {
        let now = now_millis();
        self.receive_gossip_at(messages, now);
    }

    /// Advances the membership's clock: members that timed out are
    /// suspected or declared dead, and the queued messages are drained.
    pub fn gossip_tick(&mut self) -> (r: Vec<GossipMessage>)
        requires
            old(self).wf(),
        ensures
            final(self).wf(),
            final(self).cfg() == old(self).cfg(),
            final(self).hash_ring() == old(self).hash_ring(),
            final(self).repairs() == old(self).repairs(),
            final(self).pending() == old(self).pending(),
            ({
                let g0 = old(self).members_protocol();
                let g1 = final(self).members_protocol();
                &&& g1.local() == g0.local()
                &&& g1.cfg() == g0.cfg()
                &&& g1.probe() == g0.probe()
                &&& g1.incarnation() == g0.incarnation()
                &&& g1.queue() == Seq::<MsgView>::empty()
                &&& exists|now: u64| #![trigger timed_out_ids(g0.members(), g0.local(), now, g0.cfg())] {
                    let ids = timed_out_ids(g0.members(), g0.local(), now, g0.cfg());
                    let after = apply_timeouts((g0.members(), g0.queue()), ids);
                    &&& g1.members() == after.0
                    &&& exists|q: Seq<GossipMessage>| msg_views(q) == after.1 && {
                        let d = drain_run(q, g0.counters(), g0.cfg().max_transmissions);
                        &&& r@ == d.0
                        &&& g1.counters() == reset_full(d.1, g0.cfg().max_transmissions)
                    }
                }
            }),
    {
        self.gossip.tick()
    }

    /// Queues a heartbeat carrying the local store's fragment count and load
    /// figure (the bit pattern of an `f64`).
    pub fn send_heartbeat(&mut self, fragment_count: usize, load: u64)
        requires
            old(self).wf(),
        ensures
            final(self).wf(),
            final(self).cfg() == old(self).cfg(),
            final(self).hash_ring() == old(self).hash_ring(),
            final(self).repairs() == old(self).repairs(),
            final(self).pending() == old(self).pending(),
            final(self).members_protocol().ms() == old(self).members_protocol().ms(),
            final(self).members_protocol().queue() == old(self).members_protocol().queue().push(MsgView::Heartbeat {
                node_id: old(self).members_protocol().local(),
                incarnation: old(self).members_protocol().incarnation(),
                fragment_count,
                load,
            }),
            final(self).members_protocol().cfg() == old(self).members_protocol().cfg(),
            final(self).members_protocol().probe() == old(self).members_protocol().probe(),
            final(self).members_protocol().counters() == old(self).members_protocol().counters(),
    {
        self.gossip.send_heartbeat(fragment_count, load);
    }

    /// The cluster as this node sees it, with the local store's fragment
    /// count.
    pub fn cluster_status(&self, local_fragments: usize) -> (r: ClusterStatus)
        requires
            self.wf(),
        ensures
            r.node_id@ == self.cfg().node_id@,
            r.alive_nodes == alive_of(self.members_protocol().members()).len(),
            r.total_nodes == self.hash_ring().members().len(),
            r.local_fragments == local_fragments,
            r.replication_factor == self.cfg().replication_factor,
            r.pending_repairs == pending_of(self.repairs().tasks()).len(),
            r.ring_vnodes == self.hash_ring().ring().len(),
    {
        ClusterStatus {
            node_id: self.config.node_id.clone(),
            alive_nodes: self.gossip.alive_member_count(),
            total_nodes: self.ring.node_count(),
            local_fragments,
            replication_factor: self.config.replication_factor,
            pending_repairs: self.anti_entropy.pending_tasks().len(),
            ring_vnodes: self.ring.virtual_node_count_total(),
        }
    }

    /// Compares this node's digests with a remote root hash. The local tree
    /// is rebuilt over the given digests; when its root hash differs from
    /// the remote one, it is compared with a tree over the single digest
    /// `(0, remote_root_hash)`, and if they differ a repair task from this
    /// node to the remote one is created over the differing ranges.
    pub fn trigger_anti_entropy(&mut self, local_digests: Vec<Digest>, remote_node: &str, remote_root_hash: u64) -> (r: Option<u64>)
        requires
            old(self).wf(),
            local_digests@.len() > 0 ==> old(self).cfg().merkle_bucket_size > 0,
            root_hash_of(built_root(local_digests@, old(self).cfg().merkle_bucket_size as nat)) != remote_root_hash ==> {
                &&& old(self).cfg().merkle_bucket_size > 0
                &&& old(self).repairs().next_id() < u64::MAX
            },
        ensures
            final(self).wf(),
            final(self).cfg() == old(self).cfg(),
            final(self).hash_ring() == old(self).hash_ring(),
            final(self).members_protocol() == old(self).members_protocol(),
            final(self).pending() == old(self).pending(),
            final(self).repairs().digests() == local_digests@,
            final(self).repairs().tree().root_node() == built_root(local_digests@, old(self).cfg().merkle_bucket_size as nat),
            final(self).repairs().max_concurrent() == old(self).repairs().max_concurrent(),
            ({
                let b = old(self).cfg().merkle_bucket_size as nat;
                let local = built_root(local_digests@, b);
                let diff = tree_diff(local, built_root(seq![(0u64, remote_root_hash)], b));
                if root_hash_of(local) == remote_root_hash || diff.len() == 0 {
                    &&& r is None
                    &&& final(self).repairs().tasks() == old(self).repairs().tasks()
                    &&& final(self).repairs().next_id() == old(self).repairs().next_id()
                } else {
                    let t = final(self).repairs().tasks().last();
                    &&& r == Some(old(self).repairs().next_id())
                    &&& final(self).repairs().next_id() == old(self).repairs().next_id() + 1
                    &&& final(self).repairs().tasks().len() == old(self).repairs().tasks().len() + 1
                    &&& final(self).repairs().tasks().drop_last() == old(self).repairs().tasks()
                    &&& t.task_id == old(self).repairs().next_id()
                    &&& t.source_node@ == old(self).cfg().node_id@
                    &&& t.target_node@ == remote_node@
                    &&& t.differing_ranges@ == diff
                    &&& t.fragment_ids@ == ids_in_ranges(local_digests@, diff)
                    &&& t.status == RepairStatus::Pending
                }
            }),
    {
        let ghost d = local_digests@;
        self.anti_entropy.update_digests(local_digests);
        let local_hash = self.anti_entropy.root_hash();
        if local_hash == remote_root_hash {
            return None;
        }
        let mut remote_tree = MerkleTree::new(self.config.merkle_bucket_size);
        let fake: Vec<Digest> = vec![(0u64, remote_root_hash)];
        assert(fake@ =~= seq![(0u64, remote_root_hash)]);
        remote_tree.build_from_digests(fake.as_slice());
        let diff = self.anti_entropy.compare_with(&remote_tree);
        if diff.identical {
            return None;
        }
        let source = self.config.node_id.clone();
        let target = String::from_str(remote_node);
        let ghost ranges = diff.differing_ranges@;
        let id = self.anti_entropy.create_repair_task(source, target, diff.differing_ranges);
        Some(id)
    }

    /// Runs the pending repairs: each pending task, in order, is started
    /// and, once started, completed. With fewer tasks in progress than
    /// allowed every pending task ends completed; otherwise none can start.
    /// Gives the tasks still in progress.
    pub fn advance_repairs(&mut self) -> (r: Vec<&RepairTask>)
        requires
            old(self).wf(),
        ensures
            final(self).wf(),
            final(self).cfg() == old(self).cfg(),
            final(self).hash_ring() == old(self).hash_ring(),
            final(self).members_protocol() == old(self).members_protocol(),
            final(self).pending() == old(self).pending(),
            final(self).repairs().next_id() == old(self).repairs().next_id(),
            final(self).repairs().digests() == old(self).repairs().digests(),
            final(self).repairs().tree() == old(self).repairs().tree(),
            final(self).repairs().max_concurrent() == old(self).repairs().max_concurrent(),
            in_progress_count(old(self).repairs().tasks()) < old(self).repairs().max_concurrent()
                ==> final(self).repairs().tasks() == complete_pending(old(self).repairs().tasks()),
            in_progress_count(old(self).repairs().tasks()) >= old(self).repairs().max_concurrent()
                ==> final(self).repairs().tasks() == old(self).repairs().tasks(),
            r@.len() == in_progress_of(final(self).repairs().tasks()).len(),
            forall|i: int| 0 <= i < r@.len() ==> *r@[i] == in_progress_of(final(self).repairs().tasks())[i],
    {
        let ghost t0 = self.anti_entropy.tasks();
        let ghost room = in_progress_count(t0) < self.anti_entropy.max_concurrent();
        let mut ids: Vec<u64> = Vec::new();
        {
            let pending = self.anti_entropy.pending_tasks();
            let mut j: usize = 0;
            while j < pending.len()
                invariant
                    j <= pending@.len(),
                    pending@.len() == pending_of(t0).len(),
                    forall|q: int| 0 <= q < pending@.len() ==> *pending@[q] == pending_of(t0)[q],
                    ids@.len() == j,
                    forall|q: int| 0 <= q < j ==> #[trigger] ids@[q] == pending_of(t0)[q].task_id,
                decreases pending@.len() - j,
            {
                ids.push(pending[j].task_id);
                j = j + 1;
            }
        }
        proof {
            self.anti_entropy.lemma_task_ids_increase();
            lemma_pending_ids_increase(t0);
            lemma_pending_from(t0);
            assert(ids@.take(0) =~= Seq::<u64>::empty());
            assert(complete_listed(t0, ids@.take(0)) =~= t0);
        }
        let n = ids.len();
        let mut k: usize = 0;
        while k < n
            invariant
                n == ids@.len(),
                k <= n,
                ids@.len() == pending_of(t0).len(),
                forall|q: int| 0 <= q < n ==> #[trigger] ids@[q] == pending_of(t0)[q].task_id,
                forall|a: int, b: int| 0 <= a < b < n ==> #[trigger] ids@[a] < #[trigger] ids@[b],
                forall|a: int, b: int| 0 <= a < b < t0.len() ==> #[trigger] t0[a].task_id < #[trigger] t0[b].task_id,
                pending_from(t0),
                t0 == old(self).repairs().tasks(),
                room == (in_progress_count(t0) < old(self).repairs().max_concurrent()),
                self.anti_entropy.wf(),
                self.anti_entropy.max_concurrent() == old(self).repairs().max_concurrent(),
                self.anti_entropy.next_id() == old(self).repairs().next_id(),
                self.anti_entropy.digests() == old(self).repairs().digests(),
                self.anti_entropy.tree() == old(self).repairs().tree(),
                self.ring == old(self).ring,
                self.gossip == old(self).gossip,
                self.config == old(self).config,
                self.pending_writes == old(self).pending_writes,
                room ==> self.anti_entropy.tasks() == complete_listed(t0, ids@.take(k as int)),
                !room ==> self.anti_entropy.tasks() == t0,
                in_progress_count(self.anti_entropy.tasks()) == in_progress_count(t0),
            decreases n - k,
        {
            let id = ids[k];
            let ghost cur = self.anti_entropy.tasks();
            proof {
                assert(ids@[k as int] == pending_of(t0)[k as int].task_id);
                let i0 = choose|i: int| 0 <= i < t0.len() && #[trigger] t0[i] == pending_of(t0)[k as int] && t0[i].status is Pending;
                assert(cur.len() == t0.len());
                if room {
                    assert(cur[i0].task_id == t0[i0].task_id);
                    assert(!ids@.take(k as int).contains(id)) by {
                        if ids@.take(k as int).contains(id) {
                            let q = choose|q: int| 0 <= q < k && #[trigger] ids@.take(k as int)[q] == id;
                            assert(ids@[q] < ids@[k as int]);
                        }
                    }
                    assert(cur[i0] == t0[i0]);
                    assert forall|i: int| 0 <= i < cur.len() && #[trigger] cur[i].task_id == id implies i == i0 by {
                        assert(cur[i].task_id == t0[i].task_id);
                        if i < i0 { assert(t0[i].task_id < t0[i0].task_id); }
                        if i > i0 { assert(t0[i0].task_id < t0[i].task_id); }
                    }
                }
            }
            let started = self.anti_entropy.start_repair(id);
            if started.is_ok() {
                self.anti_entropy.complete_repair(id);
            }
            proof {
                if room {
                    let i0 = choose|i: int| 0 <= i < t0.len() && #[trigger] t0[i] == pending_of(t0)[k as int] && t0[i].status is Pending;
                    assert(has_task(cur, id));
                    assert(task_index(cur, id) == i0);
                    let done = with_status(t0[i0], RepairStatus::Completed);
                    let mid = cur.update(i0, with_status(cur[i0], RepairStatus::InProgress));
                    assert(has_task(mid, id)) by {
                        assert(mid[i0].task_id == id);
                    }
                    assert forall|i: int| 0 <= i < mid.len() && #[trigger] mid[i].task_id == id implies i == i0 by {
                        assert(mid[i].task_id == cur[i].task_id);
                    }
                    assert(task_index(mid, id) == i0);
                    assert(self.anti_entropy.tasks() =~= cur.update(i0, done));
                    lemma_in_progress_update(cur, i0, done);
                    assert(complete_listed(t0, ids@.take(k + 1)) =~= cur.update(i0, done)) by {
                        assert(ids@.take(k + 1) =~= ids@.take(k as int).push(id));
                        assert forall|i: int| 0 <= i < t0.len() implies #[trigger] complete_listed(t0, ids@.take(k + 1))[i] == cur.update(i0, done)[i] by {
                            if i != i0 {
                                if t0[i].task_id == id {
                                    if i < i0 { assert(t0[i].task_id < t0[i0].task_id); }
                                    if i > i0 { assert(t0[i0].task_id < t0[i].task_id); }
                                }
                                assert(ids@.take(k + 1).contains(t0[i].task_id) == ids@.take(k as int).contains(t0[i].task_id));
                            } else {
                                assert(ids@.take(k + 1)[k as int] == id);
                            }
                        }
                    }
                }
            }
            k = k + 1;
        }
        proof {
            if room {
                assert(ids@.take(n as int) =~= ids@);
                assert(complete_listed(t0, ids@) =~= complete_pending(t0)) by {
                    assert forall|i: int| 0 <= i < t0.len() implies #[trigger] complete_listed(t0, ids@)[i] == complete_pending(t0)[i] by {
                        if t0[i].status is Pending {
                            lemma_pending_listed(t0, i);
                            let j = choose|j: int| 0 <= j < pending_of(t0).len() && #[trigger] pending_of(t0)[j] == t0[i];
                            assert(ids@[j] == t0[i].task_id);
                            assert(ids@.contains(t0[i].task_id));
                        }
                    }
                }
            }
        }
        self.anti_entropy.in_progress_tasks()
    }

    pub fn node_id(&self) -> (r: &str)
        ensures
            r@ == self.cfg().node_id@,
    {
        self.config.node_id.as_str()
    }

    /// How many digests go into one leaf of the repair trees.
    pub fn bucket_size(&self) -> (r: usize)
        ensures
            r == self.cfg().merkle_bucket_size,
    {
        self.config.merkle_bucket_size
    }

    pub fn replication_factor(&self) -> (r: usize)
        ensures
            r == self.cfg().replication_factor,
    {
        self.config.replication_factor
    }
}

} // verus!

//! SWIM-style gossip membership: member states, their merge rule, and the
//! protocol engine that reacts to messages and timeouts.
use vstd::prelude::*;
use std::collections::HashMap;
use crate::clock::now_millis;

verus! {

/// What is believed of a member.
#[derive(Debug, Clone, Copy, PartialEq, Eq, Structural)]
pub enum NodeStatus {
    Alive,
    Suspect,
    Dead,
    Left,
}

/// A member of the cluster. `last_heartbeat` is a time in milliseconds.
#[derive(Debug, Clone)]
pub struct NodeInfo {
    pub node_id: String,
    pub address: String,
    pub status: NodeStatus,
    pub incarnation: u64,
    pub metadata: HashMap<String, String>,
    pub last_heartbeat: u64,
}

/// A member as a plain value.
pub struct NodeView {
    pub node_id: Seq<char>,
    pub address: Seq<char>,
    pub status: NodeStatus,
    pub incarnation: u64,
    pub metadata: Map<String, String>,
    pub last_heartbeat: u64,
}

pub open spec fn view_of(n: NodeInfo) -> NodeView {
    NodeView {
        node_id: n.node_id@,
        address: n.address@,
        status: n.status,
        incarnation: n.incarnation,
        metadata: n.metadata@,
        last_heartbeat: n.last_heartbeat,
    }
}

pub open spec fn views(s: Seq<NodeInfo>) -> Seq<NodeView> {
    s.map_values(|n: NodeInfo| view_of(n))
}

/// How strongly a status is believed at equal incarnation: alive over
/// suspect over dead over left.
pub open spec fn priority(s: NodeStatus) -> u8 {
    match s {
        NodeStatus::Alive => 3,
        NodeStatus::Suspect => 2,
        NodeStatus::Dead => 1,
        NodeStatus::Left => 0,
    }
}

pub open spec fn has_node(s: Seq<NodeView>, id: Seq<char>) -> bool {
    exists|i: int| 0 <= i < s.len() && #[trigger] s[i].node_id == id
}

pub open spec fn node_index(s: Seq<NodeView>, id: Seq<char>) -> int {
    choose|i: int| 0 <= i < s.len() && #[trigger] s[i].node_id == id
}

pub open spec fn distinct_ids(s: Seq<NodeView>) -> bool {
    forall|i: int, j: int| 0 <= i < s.len() && 0 <= j < s.len() && i != j ==> s[i].node_id != s[j].node_id
}

/// News about a member replaces what is known when it has a higher
/// incarnation, or the same incarnation and a stronger status.
pub open spec fn supersedes(incoming: NodeView, existing: NodeView) -> bool {
    ||| incoming.incarnation > existing.incarnation
    ||| (incoming.incarnation == existing.incarnation && priority(incoming.status) > priority(existing.status))
}

/// The members after merging news about one of them (a new member is
/// appended).
pub open spec fn merge_spec(s: Seq<NodeView>, incoming: NodeView) -> Seq<NodeView> {
    if has_node(s, incoming.node_id) {
        let i = node_index(s, incoming.node_id);
        if supersedes(incoming, s[i]) {
            s.update(i, incoming)
        } else {
            s
        }
    } else {
        s.push(incoming)
    }
}

/// `n` with another status and incarnation.
pub open spec fn restated(n: NodeView, status: NodeStatus, incarnation: u64) -> NodeView {
    NodeView { status, incarnation, ..n }
}

/// The alive members, in order.
pub open spec fn alive_of(s: Seq<NodeView>) -> Seq<NodeView>
    decreases s.len(),
{
    if s.len() == 0 {
        Seq::empty()
    } else if s.last().status == NodeStatus::Alive {
        alive_of(s.drop_last()).push(s.last())
    } else {
        alive_of(s.drop_last())
    }
}

fn status_priority(status: &NodeStatus) -> (r: u8)
    ensures
        r == priority(*status),
{
    match status {
        NodeStatus::Alive => 3,
        NodeStatus::Suspect => 2,
        NodeStatus::Dead => 1,
        NodeStatus::Left => 0,
    }
}

/// The members known to one node.
#[derive(Debug, Clone)]
pub struct MembershipState {
    pub nodes: Vec<NodeInfo>,
    pub local_node_id: String,
    pub incarnation: u64,
}

impl MembershipState {
    /// Member ids are distinct.
    pub open spec fn wf(&self) -> bool {
        distinct_ids(views(self.nodes@))
    }

    pub closed spec fn members(&self) -> Seq<NodeView> {
        views(self.nodes@)
    }

    /// The members are the views of the public `nodes` field.
    pub proof fn lemma_members_view(&self)
        ensures
            self.members() == views(self.nodes@),
    {
    }

    /// A well-formed membership has distinct member ids (so the merge laws
    /// apply to its members).
    pub proof fn lemma_wf_distinct(&self)
        requires
            self.wf(),
        ensures
            distinct_ids(self.members()),
    {
    }

    /// A membership holding only the local node, alive at incarnation 0 at
    /// address "localhost", last heard of now.
    pub fn new(local_node_id: String) -> (r: Self)
        ensures
            r.wf(),
            r.local_node_id@ == local_node_id@,
            r.incarnation == 0,
            exists|t: u64| r.members() == seq![NodeView {
                node_id: local_node_id@,
                address: "localhost"@,
                status: NodeStatus::Alive,
                incarnation: 0,
                metadata: Map::<String, String>::empty(),
                last_heartbeat: t,
            }],
    {
        let now = now_millis();
        Self::new_at(local_node_id, now)
    }

    /// As `new`, with the current time given (in milliseconds).
    pub fn new_at(local_node_id: String, now: u64) -> (r: Self)
        ensures
            r.wf(),
            r.local_node_id@ == local_node_id@,
            r.incarnation == 0,
            r.members() == seq![NodeView {
                node_id: local_node_id@,
                address: "localhost"@,
                status: NodeStatus::Alive,
                incarnation: 0,
                metadata: Map::<String, String>::empty(),
                last_heartbeat: now,
            }],
    {
        let mut nodes: Vec<NodeInfo> = Vec::new();
        nodes.push(NodeInfo {
            node_id: local_node_id.clone(),
            address: String::from_str("localhost"),
            status: NodeStatus::Alive,
            incarnation: 0,
            metadata: HashMap::new(),
            last_heartbeat: now,
        });
        let r = MembershipState { nodes, local_node_id, incarnation: 0 };
        assert(r.members() =~= seq![view_of(r.nodes@[0])]);
        r
    }

    /// The position of the member with this id.
    fn find(&self, id: &String) -> (r: Option<usize>)
        requires
            self.wf(),
        ensures
            match r {
                Some(i) => i < self.members().len() && has_node(self.members(), id@)
                    && node_index(self.members(), id@) == i as int,
                None => !has_node(self.members(), id@),
            },
    {
        let mut i: usize = 0;
        while i < self.nodes.len()
            invariant
                self.wf(),
                i <= self.nodes@.len(),
                self.members().len() == self.nodes@.len(),
                forall|j: int| 0 <= j < i ==> self.members()[j].node_id != id@,
            decreases self.nodes@.len() - i,
        {
            if self.nodes[i].node_id == *id {
                proof {
                    let v = self.members();
                    assert(v[i as int].node_id == id@);
                    let k = node_index(v, id@);
                    assert(v[k].node_id == id@);
                    if k != i {
                        assert(v[k].node_id != v[i as int].node_id);
                    }
                }
                return Some(i);
            }
            assert(self.members()[i as int].node_id == self.nodes@[i as int].node_id@);
            i = i + 1;
        }
        None
    }

    /// The member with this id.
    pub fn get(&self, node_id: &str) -> (r: Option<&NodeInfo>)
        requires
            self.wf(),
        ensures
            match r {
                Some(n) => has_node(self.members(), node_id@)
                    && view_of(*n) == self.members()[node_index(self.members(), node_id@)],
                None => !has_node(self.members(), node_id@),
            },
    {
        let id = String::from_str(node_id);
        match self.find(&id) {
            Some(i) => Some(&self.nodes[i]),
            None => None,
        }
    }

    /// The alive members, in order.
    pub fn alive_nodes(&self) -> (r: Vec<&NodeInfo>)
        ensures
            r@.len() == alive_of(self.members()).len(),
            forall|i: int| 0 <= i < r@.len() ==> view_of(*r@[i]) == alive_of(self.members())[i],
    {
        let mut out: Vec<&NodeInfo> = Vec::new();
        let mut i: usize = 0;
        while i < self.nodes.len()
            invariant
                i <= self.nodes@.len(),
                self.members().len() == self.nodes@.len(),
                out@.len() == alive_of(self.members().take(i as int)).len(),
                forall|k: int| 0 <= k < out@.len() ==> view_of(*out@[k]) == alive_of(self.members().take(i as int))[k],
            decreases self.nodes@.len() - i,
        {
            proof {
                assert(self.members().take(i + 1).drop_last() == self.members().take(i as int));
                assert(self.members()[i as int] == view_of(self.nodes@[i as int]));
            }
            let n = &self.nodes[i];
            if n.status == NodeStatus::Alive {
                out.push(n);
            }
            i = i + 1;
        }
        assert(self.members().take(self.nodes@.len() as int) == self.members());
        out
    }

    pub fn alive_node_count(&self) -> (r: usize)
        ensures
            r == alive_of(self.members()).len(),
    {
        let mut c: usize = 0;
        let mut i: usize = 0;
        while i < self.nodes.len()
            invariant
                i <= self.nodes@.len(),
                self.members().len() == self.nodes@.len(),
                c == alive_of(self.members().take(i as int)).len(),
                c <= i,
            decreases self.nodes@.len() - i,
        {
            proof {
                assert(self.members().take(i + 1).drop_last() == self.members().take(i as int));
                assert(self.members()[i as int] == view_of(self.nodes@[i as int]));
            }
            if self.nodes[i].status == NodeStatus::Alive {
                c = c + 1;
            }
            i = i + 1;
        }
        assert(self.members().take(self.nodes@.len() as int) == self.members());
        c
    }

    /// Whether the member with this id is known and alive.
    pub fn is_alive(&self, node_id: &str) -> (r: bool)
        requires
            self.wf(),
        ensures
            r == (has_node(self.members(), node_id@)
                && self.members()[node_index(self.members(), node_id@)].status == NodeStatus::Alive),
    {
        let id = String::from_str(node_id);
        match self.find(&id) {
            Some(i) => self.nodes[i].status == NodeStatus::Alive,
            None => false,
        }
    }

    /// Merges news about a member: it replaces what is known when it is
    /// newer (see `supersedes`), and an unknown member is added.
    pub fn merge_node(&mut self, incoming: NodeInfo)
        requires
            old(self).wf(),
        ensures
            final(self).wf(),
            final(self).members() == merge_spec(old(self).members(), view_of(incoming)),
            final(self).local_node_id == old(self).local_node_id,
            final(self).incarnation == old(self).incarnation,
    {
        proof {
            lemma_merge_keeps_distinct(self.members(), view_of(incoming));
        }
        match self.find(&incoming.node_id) {
            Some(i) => {
                let ip = status_priority(&incoming.status);
                let ep = status_priority(&self.nodes[i].status);
                let newer = incoming.incarnation > self.nodes[i].incarnation
                    || (incoming.incarnation == self.nodes[i].incarnation && ip > ep);
                if newer {
                    self.nodes.set(i, incoming);
                    assert(self.members() =~= old(self).members().update(i as int, view_of(incoming)));
                }
            },
            None => {
                self.nodes.push(incoming);
                assert(self.members() =~= old(self).members().push(view_of(incoming)));
            },
        }
    }

    fn set_status(&mut self, i: usize, status: NodeStatus)
        requires
            old(self).wf(),
            i < old(self).nodes@.len(),
        ensures
            final(self).wf(),
            final(self).members() == old(self).members().update(
                i as int,
                restated(old(self).members()[i as int], status, old(self).members()[i as int].incarnation),
            ),
            final(self).local_node_id == old(self).local_node_id,
            final(self).incarnation == old(self).incarnation,
    {
        let mut n = self.nodes.remove(i);
        n.status = status;
        self.nodes.insert(i, n);
        assert(self.members() =~= old(self).members().update(
            i as int,
            restated(old(self).members()[i as int], status, old(self).members()[i as int].incarnation),
        ));
        proof {
            lemma_update_keeps_distinct(old(self).members(), i as int, self.members()[i as int]);
        }
    }
}

proof fn lemma_update_keeps_distinct(s: Seq<NodeView>, i: int, n: NodeView)
    requires
        distinct_ids(s),
        0 <= i < s.len(),
        n.node_id == s[i].node_id,
    ensures
        distinct_ids(s.update(i, n)),
{
    let t = s.update(i, n);
    assert forall|a: int, b: int| 0 <= a < t.len() && 0 <= b < t.len() && a != b implies t[a].node_id != t[b].node_id by {
        assert(t[a].node_id == s[a].node_id);
        assert(t[b].node_id == s[b].node_id);
    }
}

proof fn lemma_merge_keeps_distinct(s: Seq<NodeView>, incoming: NodeView)
    requires
        distinct_ids(s),
    ensures
        distinct_ids(merge_spec(s, incoming)),
{
    if has_node(s, incoming.node_id) {
        let i = node_index(s, incoming.node_id);
        lemma_update_keeps_distinct(s, i, incoming);
    } else {
        let t = s.push(incoming);
        assert forall|a: int, b: int| 0 <= a < t.len() && 0 <= b < t.len() && a != b implies t[a].node_id != t[b].node_id by {
            if a < s.len() && b < s.len() {
                assert(t[a] == s[a] && t[b] == s[b]);
            } else if a < s.len() {
                assert(t[a] == s[a]);
            } else {
                assert(t[b] == s[b]);
            }
        }
    }
}

/// Merging the same news twice changes nothing the second time.
pub proof fn lemma_merge_idempotent(s: Seq<NodeView>, x: NodeView)
    requires
        distinct_ids(s),
    ensures
        merge_spec(merge_spec(s, x), x) == merge_spec(s, x),
{
    let m = merge_spec(s, x);
    lemma_merge_keeps_distinct(s, x);
    lemma_merge_holds(s, x);
    let j = node_index(m, x.node_id);
    if m[j] == x {
        assert(!supersedes(x, x));
    } else {
        assert(has_node(s, x.node_id));
        let i = node_index(s, x.node_id);
        assert(!supersedes(x, s[i]));
        assert(m == s);
    }
}

/// After a merge the news' member is present, either as the news itself or
/// as what was known when the news was not newer.
proof fn lemma_merge_holds(s: Seq<NodeView>, x: NodeView)
    requires
        distinct_ids(s),
    ensures
        has_node(merge_spec(s, x), x.node_id),
        merge_spec(s, x)[node_index(merge_spec(s, x), x.node_id)] == x || (has_node(s, x.node_id)
            && !supersedes(x, s[node_index(s, x.node_id)]) && merge_spec(s, x) == s),
{
    let m = merge_spec(s, x);
    lemma_merge_keeps_distinct(s, x);
    if has_node(s, x.node_id) {
        let i = node_index(s, x.node_id);
        assert(m[i].node_id == x.node_id);
        let j = node_index(m, x.node_id);
        if j != i {
            assert(m[j].node_id != m[i].node_id);
        }
    } else {
        assert(m[s.len() as int].node_id == x.node_id);
        let j = node_index(m, x.node_id);
        if j != s.len() {
            assert(m[j].node_id != m[s.len() as int].node_id);
        }
    }
}

/// A merge keeps every member, never lowers a member's incarnation, and
/// keeps ids distinct.
pub proof fn lemma_merge_monotone(s: Seq<NodeView>, x: NodeView)
    requires
        distinct_ids(s),
    ensures
        distinct_ids(merge_spec(s, x)),
        merge_spec(s, x).len() >= s.len(),
        forall|i: int| 0 <= i < s.len() ==> merge_spec(s, x)[i].node_id == s[i].node_id
            && merge_spec(s, x)[i].incarnation >= s[i].incarnation,
{
    lemma_merge_keeps_distinct(s, x);
    if has_node(s, x.node_id) {
        let i = node_index(s, x.node_id);
        assert(s[i].node_id == x.node_id);
    }
}

/// The messages exchanged between members. `load` is the bit pattern of
/// the sender's load figure (an `f64`).
#[derive(Debug, Clone)]
pub enum GossipMessage {
    Join { node_id: String, address: String, incarnation: u64, metadata: HashMap<String, String> },
    Alive { node_id: String, address: String, incarnation: u64 },
    Suspect { node_id: String, incarnation: u64 },
    Dead { node_id: String, incarnation: u64 },
    Leave { node_id: String },
    Heartbeat { node_id: String, incarnation: u64, fragment_count: usize, load: u64 },
    FragmentDigest { node_id: String, digests: Vec<(u64, u64)> },
    FullSync { node_id: String, state: Vec<(String, String, u64)> },
}

/// A message as a plain value.
pub enum MsgView {
    Join { node_id: Seq<char>, address: Seq<char>, incarnation: u64, metadata: Map<String, String> },
    Alive { node_id: Seq<char>, address: Seq<char>, incarnation: u64 },
    Suspect { node_id: Seq<char>, incarnation: u64 },
    Dead { node_id: Seq<char>, incarnation: u64 },
    Leave { node_id: Seq<char> },
    Heartbeat { node_id: Seq<char>, incarnation: u64, fragment_count: usize, load: u64 },
    FragmentDigest { node_id: Seq<char>, digests: Seq<(u64, u64)> },
    FullSync { node_id: Seq<char>, state: Seq<(String, String, u64)> },
}

pub open spec fn msg_view(m: GossipMessage) -> MsgView {
    match m {
        GossipMessage::Join { node_id, address, incarnation, metadata } => MsgView::Join {
            node_id: node_id@,
            address: address@,
            incarnation,
            metadata: metadata@,
        },
        GossipMessage::Alive { node_id, address, incarnation } => MsgView::Alive {
            node_id: node_id@,
            address: address@,
            incarnation,
        },
        GossipMessage::Suspect { node_id, incarnation } => MsgView::Suspect { node_id: node_id@, incarnation },
        GossipMessage::Dead { node_id, incarnation } => MsgView::Dead { node_id: node_id@, incarnation },
        GossipMessage::Leave { node_id } => MsgView::Leave { node_id: node_id@ },
        GossipMessage::Heartbeat { node_id, incarnation, fragment_count, load } => MsgView::Heartbeat {
            node_id: node_id@,
            incarnation,
            fragment_count,
            load,
        },
        GossipMessage::FragmentDigest { node_id, digests } => MsgView::FragmentDigest {
            node_id: node_id@,
            digests: digests@,
        },
        GossipMessage::FullSync { node_id, state } => MsgView::FullSync { node_id: node_id@, state: state@ },
    }
}

pub open spec fn msg_views(q: Seq<GossipMessage>) -> Seq<MsgView> {
    q.map_values(|m: GossipMessage| msg_view(m))
}

/// The kind of a message, counted separately when sending.
pub open spec fn kind_of(m: GossipMessage) -> int {
    match m {
        GossipMessage::Join { .. } => 0,
        GossipMessage::Alive { .. } => 1,
        GossipMessage::Suspect { .. } => 2,
        GossipMessage::Dead { .. } => 3,
        GossipMessage::Leave { .. } => 4,
        GossipMessage::Heartbeat { .. } => 5,
        GossipMessage::FragmentDigest { .. } => 6,
        GossipMessage::FullSync { .. } => 7,
    }
}

fn message_kind(m: &GossipMessage) -> (r: usize)
    ensures
        r == kind_of(*m),
{
    match m {
        GossipMessage::Join { .. } => 0,
        GossipMessage::Alive { .. } => 1,
        GossipMessage::Suspect { .. } => 2,
        GossipMessage::Dead { .. } => 3,
        GossipMessage::Leave { .. } => 4,
        GossipMessage::Heartbeat { .. } => 5,
        GossipMessage::FragmentDigest { .. } => 6,
        GossipMessage::FullSync { .. } => 7,
    }
}

/// Protocol timings (milliseconds), fan-out and the number of messages of
/// one kind sent per drain.
#[derive(Debug, Clone, Copy)]
pub struct GossipConfig {
    pub probe_interval: u64,
    pub suspect_timeout: u64,
    pub dead_timeout: u64,
    pub gossip_fanout: usize,
    pub gossip_interval: u64,
    pub max_transmissions: u8,
}

impl Default for GossipConfig {
    fn default() -> (r: Self)
        ensures
            r.probe_interval == 1000,
            r.suspect_timeout == 5000,
            r.dead_timeout == 15000,
            r.gossip_fanout == 3,
            r.gossip_interval == 200,
            r.max_transmissions == 10,
    {
        GossipConfig {
            probe_interval: 1000,
            suspect_timeout: 5000,
            dead_timeout: 15000,
            gossip_fanout: 3,
            gossip_interval: 200,
            max_transmissions: 10,
        }
    }
}

/// Messages let through by the per-kind send counters: in order, a message
/// passes while its kind's counter is below `max`, and bumps it. Gives the
/// passed messages and the counters after.
pub open spec fn drain_run(q: Seq<GossipMessage>, c: Seq<u8>, max: u8) -> (Seq<GossipMessage>, Seq<u8>)
    decreases q.len(),
{
    if q.len() == 0 {
        (Seq::empty(), c)
    } else {
        let (out, c1) = drain_run(q.drop_last(), c, max);
        let k = kind_of(q.last());
        if c1[k] < max {
            (out.push(q.last()), c1.update(k, (c1[k] + 1) as u8))
        } else {
            (out, c1)
        }
    }
}

/// Counters that reached `max` start again from zero.
pub open spec fn reset_full(c: Seq<u8>, max: u8) -> Seq<u8> {
    c.map_values(|x: u8| if x < max { x } else { 0u8 })
}

/// The members after a timed-out member is handled: alive becomes suspect,
/// suspect becomes dead, each with a message of the same incarnation.
pub open spec fn apply_timeout(s: (Seq<NodeView>, Seq<MsgView>), id: Seq<char>) -> (Seq<NodeView>, Seq<MsgView>) {
    if has_node(s.0, id) {
        let i = node_index(s.0, id);
        let n = s.0[i];
        if n.status == NodeStatus::Alive {
            (
                s.0.update(i, restated(n, NodeStatus::Suspect, n.incarnation)),
                s.1.push(MsgView::Suspect { node_id: id, incarnation: n.incarnation }),
            )
        } else if n.status == NodeStatus::Suspect {
            (
                s.0.update(i, restated(n, NodeStatus::Dead, n.incarnation)),
                s.1.push(MsgView::Dead { node_id: id, incarnation: n.incarnation }),
            )
        } else {
            s
        }
    } else {
        s
    }
}

pub open spec fn apply_timeouts(s: (Seq<NodeView>, Seq<MsgView>), ids: Seq<Seq<char>>) -> (Seq<NodeView>, Seq<MsgView>)
    decreases ids.len(),
{
    if ids.len() == 0 {
        s
    } else {
        apply_timeout(apply_timeouts(s, ids.drop_last()), ids.last())
    }
}

/// Milliseconds from `then` to `now`, zero when `then` is later.
pub open spec fn elapsed(now: u64, then: u64) -> int {
    if now >= then { now - then } else { 0 }
}

/// Whether a member other than the local one has timed out: suspect past the
/// dead timeout, or alive past the suspect timeout.
pub open spec fn timed_out(n: NodeView, local: Seq<char>, now: u64, cfg: GossipConfig) -> bool {
    &&& n.node_id != local
    &&& ((n.status == NodeStatus::Suspect && elapsed(now, n.last_heartbeat) > cfg.dead_timeout)
        || (n.status == NodeStatus::Alive && elapsed(now, n.last_heartbeat) > cfg.suspect_timeout))
}

/// The ids of the timed-out members, in order.
pub open spec fn timed_out_ids(s: Seq<NodeView>, local: Seq<char>, now: u64, cfg: GossipConfig) -> Seq<Seq<char>>
    decreases s.len(),
{
    if s.len() == 0 {
        Seq::empty()
    } else if timed_out(s.last(), local, now, cfg) {
        timed_out_ids(s.drop_last(), local, now, cfg).push(s.last().node_id)
    } else {
        timed_out_ids(s.drop_last(), local, now, cfg)
    }
}

/// The alive members other than the local one, in order.
pub open spec fn gossip_peers(s: Seq<NodeView>, local: Seq<char>) -> Seq<NodeView>
    decreases s.len(),
{
    if s.len() == 0 {
        Seq::empty()
    } else if s.last().status == NodeStatus::Alive && s.last().node_id != local {
        gossip_peers(s.drop_last(), local).push(s.last())
    } else {
        gossip_peers(s.drop_last(), local)
    }
}

/// The gossip engine of one member.
pub struct GossipProtocol {
    pub membership: MembershipState,
    config: GossipConfig,
    message_queue: Vec<GossipMessage>,
    probe_index: usize,
    transmission_counters: Vec<u8>,
}

impl GossipProtocol {
    /// Messages waiting to be sent.
    pub closed spec fn queue(&self) -> Seq<MsgView> {
        msg_views(self.message_queue@)
    }

    pub closed spec fn queued(&self) -> Seq<GossipMessage> {
        self.message_queue@
    }

    pub closed spec fn cfg(&self) -> GossipConfig {
        self.config
    }

    pub closed spec fn probe(&self) -> usize {
        self.probe_index
    }

    /// How many messages of each kind have been let through since the
    /// kind's counter last started from zero.
    pub closed spec fn counters(&self) -> Seq<u8> {
        self.transmission_counters@
    }

    /// The membership state.
    pub closed spec fn ms(&self) -> MembershipState {
        self.membership
    }

    /// The members as plain values.
    pub closed spec fn members(&self) -> Seq<NodeView> {
        self.membership.members()
    }

    /// The local node's incarnation.
    pub closed spec fn incarnation(&self) -> u64 {
        self.membership.incarnation
    }

    pub closed spec fn local(&self) -> Seq<char> {
        self.membership.local_node_id@
    }

    pub closed spec fn wf(&self) -> bool {
        &&& self.membership.wf()
        &&& self.transmission_counters@.len() == 8
    }

    /// How the protocol's views read its state: the queue is the views of
    /// the queued messages (what `drain_messages` hands out), and the
    /// members, incarnation and local id are those of its membership state
    /// (the public `membership` field, which `membership_state` returns).
    pub proof fn lemma_views(&self)
        ensures
            self.queue() == msg_views(self.queued()),
            self.members() == self.ms().members(),
            self.members() == views(self.ms().nodes@),
            self.incarnation() == self.ms().incarnation,
            self.local() == self.ms().local_node_id@,
    {
    }

    /// The membership state (the public `membership` field).
    pub fn membership_state(&self) -> (r: &MembershipState)
        ensures
            *r == self.ms(),
    {
        &self.membership
    }

    /// A well-formed protocol's members have distinct ids (so the merge laws
    /// apply to them).
    pub proof fn lemma_wf_distinct(&self)
        requires
            self.wf(),
        ensures
            distinct_ids(self.members()),
    {
    }

    /// Whether the member with this id is known and alive.
    pub(crate) fn is_member_alive(&self, node_id: &str) -> (r: bool)
        requires
            self.wf(),
        ensures
            r == (has_node(self.members(), node_id@)
                && self.members()[node_index(self.members(), node_id@)].status == NodeStatus::Alive),
    {
        self.membership.is_alive(node_id)
    }

    /// How many members are alive.
    pub(crate) fn alive_member_count(&self) -> (r: usize)
        ensures
            r == alive_of(self.members()).len(),
    {
        self.membership.alive_node_count()
    }

    /// A protocol whose membership holds only the local node.
    pub fn new(local_node_id: String, config: GossipConfig) -> (r: Self)
        ensures
            r.wf(),
            r.local() == local_node_id@,
            r.incarnation() == 0,
            r.members().len() == 1,
            r.members()[0].node_id == local_node_id@,
            r.members()[0].status == NodeStatus::Alive,
            r.cfg() == config,
            r.queue() == Seq::<MsgView>::empty(),
            r.probe() == 0,
            r.counters() == seq![0u8, 0u8, 0u8, 0u8, 0u8, 0u8, 0u8, 0u8],
            exists|t: u64| r.members() == seq![NodeView {
                node_id: local_node_id@,
                address: "localhost"@,
                status: NodeStatus::Alive,
                incarnation: 0,
                metadata: Map::<String, String>::empty(),
                last_heartbeat: t,
            }],
    {
        let r = GossipProtocol {
            membership: MembershipState::new(local_node_id),
            config,
            message_queue: Vec::new(),
            probe_index: 0,
            transmission_counters: vec![0u8, 0u8, 0u8, 0u8, 0u8, 0u8, 0u8, 0u8],
        };
        assert(r.queue() =~= Seq::<MsgView>::empty());
        r
    }

    /// As `new`, with the local node at the given address.
    pub fn with_address(local_node_id: String, address: String, config: GossipConfig) -> (r: Self)
        ensures
            r.wf(),
            r.local() == local_node_id@,
            r.incarnation() == 0,
            r.members().len() == 1,
            r.members()[0].node_id == local_node_id@,
            r.members()[0].address == address@,
            r.members()[0].status == NodeStatus::Alive,
            r.cfg() == config,
            r.queue() == Seq::<MsgView>::empty(),
            r.probe() == 0,
            r.counters() == seq![0u8, 0u8, 0u8, 0u8, 0u8, 0u8, 0u8, 0u8],
            exists|t: u64| r.members() == seq![NodeView {
                node_id: local_node_id@,
                address: address@,
                status: NodeStatus::Alive,
                incarnation: 0,
                metadata: Map::<String, String>::empty(),
                last_heartbeat: t,
            }],
    {
        let mut gp = Self::new(local_node_id, config);
        let local = gp.membership.local_node_id.clone();
        let ghost v = gp.membership.members();
        assert(v[0].node_id == local@);
        match gp.membership.find(&local) {
            Some(i) => {
                let mut n = gp.membership.nodes.remove(i);
                n.address = address;
                gp.membership.nodes.insert(i, n);
                proof {
                    let nv = NodeView { address: address@, ..v[i as int] };
                    assert(gp.membership.members() =~= v.update(i as int, nv));
                    lemma_update_keeps_distinct(v, i as int, nv);
                }
            },
            None => {},
        }
        gp
    }

    fn push(&mut self, m: GossipMessage)
        ensures
            final(self).queue() == old(self).queue().push(msg_view(m)),
            final(self).ms() == old(self).ms(),
            final(self).config == old(self).config,
            final(self).probe_index == old(self).probe_index,
            final(self).transmission_counters == old(self).transmission_counters,
    {
        self.message_queue.push(m);
        assert(self.queue() =~= old(self).queue().push(msg_view(m)));
    }

    /// Handles a join: the joining node is merged as alive, last heard of
    /// now, and an alive message about it is queued.
    pub fn handle_join(&mut self, node_id: String, address: String, incarnation: u64, metadata: HashMap<String, String>)
        requires
            old(self).wf(),
        ensures
            final(self).wf(),
            exists|t: u64| final(self).members() == merge_spec(
                old(self).members(),
                NodeView {
                    node_id: node_id@,
                    address: address@,
                    status: NodeStatus::Alive,
                    incarnation,
                    metadata: metadata@,
                    last_heartbeat: t,
                },
            ),
            final(self).queue() == old(self).queue().push(MsgView::Alive { node_id: node_id@, address: address@, incarnation }),
            final(self).local() == old(self).local(),
            final(self).incarnation() == old(self).incarnation(),
            final(self).cfg() == old(self).cfg(),
            final(self).probe() == old(self).probe(),
            final(self).counters() == old(self).counters(),
    {
        let now = now_millis();
        self.handle_join_at(node_id, address, incarnation, metadata, now);
    }

    /// As `handle_join`, with the current time given.
    pub fn handle_join_at(&mut self, node_id: String, address: String, incarnation: u64, metadata: HashMap<String, String>, now: u64)
        requires
            old(self).wf(),
        ensures
            final(self).wf(),
            final(self).members() == merge_spec(
                old(self).members(),
                NodeView {
                    node_id: node_id@,
                    address: address@,
                    status: NodeStatus::Alive,
                    incarnation,
                    metadata: metadata@,
                    last_heartbeat: now,
                },
            ),
            final(self).queue() == old(self).queue().push(MsgView::Alive { node_id: node_id@, address: address@, incarnation }),
            final(self).local() == old(self).local(),
            final(self).incarnation() == old(self).incarnation(),
            final(self).cfg() == old(self).cfg(),
            final(self).probe() == old(self).probe(),
            final(self).counters() == old(self).counters(),
    {
        let info = NodeInfo {
            node_id: node_id.clone(),
            address: address.clone(),
            status: NodeStatus::Alive,
            incarnation,
            metadata,
            last_heartbeat: now,
        };
        self.membership.merge_node(info);
        self.push(GossipMessage::Alive { node_id, address, incarnation });
    }

    /// The local node's address, or empty when it is not a member.
    fn local_address(&self) -> (r: String)
        requires
            self.wf(),
        ensures
            r@ == local_address_of(self.membership.members(), self.local()),
    {
        match self.membership.find(&self.membership.local_node_id) {
            Some(i) => self.membership.nodes[i].address.clone(),
            None => String::new(),
        }
    }

    /// Queues an alive message for the local node at its incarnation
    /// (the answer to a suspicion).
    fn broadcast_alive(&mut self)
        requires
            old(self).wf(),
        ensures
            final(self).wf(),
            final(self).queue() == old(self).queue().push(MsgView::Alive {
                node_id: old(self).local(),
                address: local_address_of(old(self).members(), old(self).local()),
                incarnation: old(self).incarnation(),
            }),
            final(self).ms() == old(self).ms(),
            final(self).cfg() == old(self).cfg(),
            final(self).probe() == old(self).probe(),
            final(self).counters() == old(self).counters(),
    {
        let address = self.local_address();
        let id = self.membership.local_node_id.clone();
        let inc = self.membership.incarnation;
        self.push(GossipMessage::Alive { node_id: id, address, incarnation: inc });
    }

    /// Suspects a member: the local node answers by raising its incarnation
    /// and announcing itself alive; an alive member becomes suspect and a
    /// suspect message is queued; otherwise nothing happens.
    pub fn suspect_node(&mut self, node_id: &str)
        requires
            old(self).wf(),
            node_id@ == old(self).local() ==> old(self).incarnation() < u64::MAX,
        ensures
            final(self).wf(),
            final(self).local() == old(self).local(),
            final(self).cfg() == old(self).cfg(),
            final(self).probe() == old(self).probe(),
            final(self).counters() == old(self).counters(),
            node_id@ == old(self).local() ==> {
                &&& final(self).incarnation() == old(self).incarnation() + 1
                &&& final(self).members() == old(self).members()
                &&& final(self).queue() == old(self).queue().push(MsgView::Alive {
                    node_id: old(self).local(),
                    address: local_address_of(old(self).members(), old(self).local()),
                    incarnation: (old(self).incarnation() + 1) as u64,
                })
            },
            node_id@ != old(self).local() ==> {
                &&& final(self).incarnation() == old(self).incarnation()
                &&& (final(self).members(), final(self).queue())
                    == apply_suspect((old(self).members(), old(self).queue()), node_id@)
            },
    {
        let id = String::from_str(node_id);
        if id == self.membership.local_node_id {
            self.membership.incarnation = self.membership.incarnation + 1;
            self.broadcast_alive();
            return;
        }
        match self.membership.find(&id) {
            Some(i) => {
                assert(self.membership.members()[i as int] == view_of(self.membership.nodes@[i as int]));
                if self.membership.nodes[i].status == NodeStatus::Alive {
                    let inc = self.membership.nodes[i].incarnation;
                    self.membership.set_status(i, NodeStatus::Suspect);
                    self.push(GossipMessage::Suspect { node_id: id, incarnation: inc });
                }
            },
            None => {},
        }
    }

    /// Declares a member dead and queues a dead message about it.
    pub fn declare_dead(&mut self, node_id: &str)
        requires
            old(self).wf(),
        ensures
            final(self).wf(),
            final(self).local() == old(self).local(),
            final(self).cfg() == old(self).cfg(),
            final(self).probe() == old(self).probe(),
            final(self).counters() == old(self).counters(),
            final(self).incarnation() == old(self).incarnation(),
            (final(self).members(), final(self).queue())
                == apply_dead((old(self).members(), old(self).queue()), node_id@),
    {
        let id = String::from_str(node_id);
        match self.membership.find(&id) {
            Some(i) => {
                assert(self.membership.members()[i as int] == view_of(self.membership.nodes@[i as int]));
                let inc = self.membership.nodes[i].incarnation;
                self.membership.set_status(i, NodeStatus::Dead);
                self.push(GossipMessage::Dead { node_id: id, incarnation: inc });
            },
            None => {},
        }
    }

    /// Leaves the cluster: a leave message is queued and the local node is
    /// marked as left.
    pub fn leave(&mut self)
        requires
            old(self).wf(),
        ensures
            final(self).wf(),
            final(self).local() == old(self).local(),
            final(self).cfg() == old(self).cfg(),
            final(self).probe() == old(self).probe(),
            final(self).counters() == old(self).counters(),
            final(self).incarnation() == old(self).incarnation(),
            final(self).queue() == old(self).queue().push(MsgView::Leave { node_id: old(self).local() }),
            final(self).members() == set_status_of(old(self).members(), old(self).local(), NodeStatus::Left),
    {
        let id = self.membership.local_node_id.clone();
        self.push(GossipMessage::Leave { node_id: id });
        let local = self.membership.local_node_id.clone();
        match self.membership.find(&local) {
            Some(i) => {
                self.membership.set_status(i, NodeStatus::Left);
            },
            None => {},
        }
    }

    /// Handles a message received now (see `receive_message_at`).
    pub fn receive_message(&mut self, msg: GossipMessage)
        requires
            old(self).wf(),
            refutes(old(self).members(), old(self).local(), old(self).incarnation(), msg)
                ==> old(self).incarnation() < u64::MAX,
        ensures
            final(self).wf(),
            final(self).local() == old(self).local(),
            final(self).cfg() == old(self).cfg(),
            final(self).probe() == old(self).probe(),
            final(self).counters() == old(self).counters(),
            refutes(old(self).members(), old(self).local(), old(self).incarnation(), msg) ==> {
                &&& final(self).incarnation() == old(self).incarnation() + 1
                &&& final(self).members() == old(self).members()
                &&& final(self).queue() == old(self).queue().push(MsgView::Alive {
                    node_id: old(self).local(),
                    address: local_address_of(old(self).members(), old(self).local()),
                    incarnation: (old(self).incarnation() + 1) as u64,
                })
            },
            !refutes(old(self).members(), old(self).local(), old(self).incarnation(), msg) ==> {
                &&& final(self).incarnation() == old(self).incarnation()
                &&& exists|t: u64| (final(self).members(), final(self).queue()) == receive_spec(
                    old(self).members(),
                    old(self).queue(),
                    old(self).local(),
                    msg_view(msg),
                    t,
                )
            },
    {
        let now = now_millis();
        self.receive_message_at(msg, now);
    }

    /// Handles a message, with the current time given:
    /// - join: as `handle_join`;
    /// - alive: the sender is merged as alive, with no metadata;
    /// - suspect: about the local node at its incarnation, the local node
    ///   raises its incarnation and announces itself alive; about another
    ///   known member, it is merged as suspect at the message's incarnation;
    /// - dead: about a known member other than the local node, it is merged
    ///   as dead at the message's incarnation;
    /// - leave: a known member other than the local node is marked as left;
    /// - heartbeat: a known member at an incarnation no newer than the
    ///   message's takes that incarnation, becomes alive and is heard of now;
    /// - digests and full state are ignored here.
    pub fn receive_message_at(&mut self, msg: GossipMessage, now: u64)
        requires
            old(self).wf(),
            refutes(old(self).members(), old(self).local(), old(self).incarnation(), msg)
                ==> old(self).incarnation() < u64::MAX,
        ensures
            final(self).wf(),
            final(self).local() == old(self).local(),
            final(self).cfg() == old(self).cfg(),
            final(self).probe() == old(self).probe(),
            final(self).counters() == old(self).counters(),
            refutes(old(self).members(), old(self).local(), old(self).incarnation(), msg) ==> {
                &&& final(self).incarnation() == old(self).incarnation() + 1
                &&& final(self).members() == old(self).members()
                &&& final(self).queue() == old(self).queue().push(MsgView::Alive {
                    node_id: old(self).local(),
                    address: local_address_of(old(self).members(), old(self).local()),
                    incarnation: (old(self).incarnation() + 1) as u64,
                })
            },
            !refutes(old(self).members(), old(self).local(), old(self).incarnation(), msg) ==> {
                &&& final(self).incarnation() == old(self).incarnation()
                &&& (final(self).members(), final(self).queue()) == receive_spec(
                    old(self).members(),
                    old(self).queue(),
                    old(self).local(),
                    msg_view(msg),
                    now,
                )
            },
    {
        match msg {
            GossipMessage::Join { node_id, address, incarnation, metadata } => {
                self.handle_join_at(node_id, address, incarnation, metadata, now);
            },
            GossipMessage::Alive { node_id, address, incarnation } => {
                let info = NodeInfo {
                    node_id,
                    address,
                    status: NodeStatus::Alive,
                    incarnation,
                    metadata: HashMap::new(),
                    last_heartbeat: now,
                };
                self.membership.merge_node(info);
            },
            GossipMessage::Suspect { node_id, incarnation } => {
                match self.membership.find(&node_id) {
                    Some(i) => {
                        if node_id == self.membership.local_node_id && incarnation == self.membership.incarnation {
                            self.membership.incarnation = self.membership.incarnation + 1;
                            self.broadcast_alive();
                        } else {
                            self.merge_restated(i, NodeStatus::Suspect, incarnation);
                        }
                    },
                    None => {},
                }
            },
            GossipMessage::Dead { node_id, incarnation } => {
                if node_id == self.membership.local_node_id {
                } else {
                    match self.membership.find(&node_id) {
                        Some(i) => {
                            self.merge_restated(i, NodeStatus::Dead, incarnation);
                        },
                        None => {},
                    }
                }
            },
            GossipMessage::Leave { node_id } => {
                if node_id == self.membership.local_node_id {
                } else {
                    match self.membership.find(&node_id) {
                        Some(i) => {
                            self.membership.set_status(i, NodeStatus::Left);
                        },
                        None => {},
                    }
                }
            },
            GossipMessage::Heartbeat { node_id, incarnation, fragment_count: _, load: _ } => {
                match self.membership.find(&node_id) {
                    Some(i) => {
                        if incarnation >= self.membership.nodes[i].incarnation {
                            let mut n = self.membership.nodes.remove(i);
                            n.incarnation = incarnation;
                            n.status = NodeStatus::Alive;
                            n.last_heartbeat = now;
                            self.membership.nodes.insert(i, n);
                            proof {
                                let old_v = old(self).members();
                                let nv = heard_from(old_v[i as int], incarnation, now);
                                assert(self.membership.members() =~= old_v.update(i as int, nv));
                                lemma_update_keeps_distinct(old_v, i as int, nv);
                            }
                        }
                    },
                    None => {},
                }
            },
            GossipMessage::FragmentDigest { .. } => {},
            GossipMessage::FullSync { .. } => {},
        }
    }

    /// Merges the member at `i` restated with this status and incarnation.
    fn merge_restated(&mut self, i: usize, status: NodeStatus, incarnation: u64)
        requires
            old(self).wf(),
            i < old(self).membership.nodes@.len(),
        ensures
            final(self).wf(),
            final(self).members() == merge_spec(
                old(self).members(),
                restated(old(self).members()[i as int], status, incarnation),
            ),
            final(self).membership.local_node_id == old(self).membership.local_node_id,
            final(self).incarnation() == old(self).incarnation(),
            final(self).message_queue == old(self).message_queue,
            final(self).config == old(self).config,
            final(self).probe_index == old(self).probe_index,
            final(self).transmission_counters == old(self).transmission_counters,
    {
        let ghost v = self.membership.members();
        let ip = status_priority(&status);
        let ep = status_priority(&self.membership.nodes[i].status);
        proof {
            assert(v[i as int] == view_of(self.membership.nodes@[i as int]));
            assert(has_node(v, v[i as int].node_id));
            let k = node_index(v, v[i as int].node_id);
            if k != i {
                assert(v[k].node_id != v[i as int].node_id);
            }
            lemma_merge_keeps_distinct(v, restated(v[i as int], status, incarnation));
        }
        let newer = incarnation > self.membership.nodes[i].incarnation
            || (incarnation == self.membership.nodes[i].incarnation && ip > ep);
        if newer {
            let mut n = self.membership.nodes.remove(i);
            n.status = status;
            n.incarnation = incarnation;
            self.membership.nodes.insert(i, n);
            assert(self.membership.members() =~= v.update(i as int, restated(v[i as int], status, incarnation)));
        }
    }

    /// Handles timeouts now and drains the queue (see `tick_at`).
    pub fn tick(&mut self) -> (r: Vec<GossipMessage>)
        requires
            old(self).wf(),
        ensures
            final(self).wf(),
            final(self).local() == old(self).local(),
            final(self).cfg() == old(self).cfg(),
            final(self).probe() == old(self).probe(),
            final(self).incarnation() == old(self).incarnation(),
            final(self).queue() == Seq::<MsgView>::empty(),
            exists|now: u64| #![trigger timed_out_ids(old(self).members(), old(self).local(), now, old(self).cfg())] {
                let ids = timed_out_ids(old(self).members(), old(self).local(), now, old(self).cfg());
                let after = apply_timeouts((old(self).members(), old(self).queue()), ids);
                &&& final(self).members() == after.0
                &&& exists|q: Seq<GossipMessage>| msg_views(q) == after.1 && {
                    let d = drain_run(q, old(self).counters(), old(self).cfg().max_transmissions);
                    &&& r@ == d.0
                    &&& final(self).counters() == reset_full(d.1, old(self).cfg().max_transmissions)
                }
            },
    {
        let now = now_millis();
        self.tick_at(now)
    }

    /// Handles timeouts at the given time: each member other than the local
    /// node that was alive past the suspect timeout becomes suspect, and
    /// each suspect past the dead timeout becomes dead, with their messages
    /// queued in member order; then the queue is drained.
    pub fn tick_at(&mut self, now: u64) -> (r: Vec<GossipMessage>)
        requires
            old(self).wf(),
        ensures
            final(self).wf(),
            final(self).local() == old(self).local(),
            final(self).cfg() == old(self).cfg(),
            final(self).probe() == old(self).probe(),
            final(self).incarnation() == old(self).incarnation(),
            ({
                let ids = timed_out_ids(old(self).members(), old(self).local(), now, old(self).cfg());
                let after = apply_timeouts((old(self).members(), old(self).queue()), ids);
                &&& final(self).members() == after.0
                &&& exists|q: Seq<GossipMessage>| msg_views(q) == after.1 && {
                    let d = drain_run(q, old(self).counters(), old(self).cfg().max_transmissions);
                    &&& r@ == d.0
                    &&& final(self).counters() == reset_full(d.1, old(self).cfg().max_transmissions)
                }
                &&& final(self).queue() == Seq::<MsgView>::empty()
            }),
    {
        let ghost v0 = self.membership.members();
        let ghost q0 = self.queue();
        let ghost cfg = self.config;
        let ghost local = self.local();
        let mut ids: Vec<String> = Vec::new();
        let mut i: usize = 0;
        while i < self.membership.nodes.len()
            invariant
                self.wf(),
                i <= self.membership.nodes@.len(),
                self.membership.members() == v0,
                self.config == cfg,
                local == self.local(),
                v0.len() == self.membership.nodes@.len(),
                string_views(ids@) == timed_out_ids(v0.take(i as int), local, now, cfg),
            decreases self.membership.nodes@.len() - i,
        {
            proof {
                assert(v0.take(i + 1).drop_last() == v0.take(i as int));
                assert(v0[i as int] == view_of(self.membership.nodes@[i as int]));
            }
            let n = &self.membership.nodes[i];
            if n.node_id == self.membership.local_node_id {
            } else {
                let el: u64 = if now >= n.last_heartbeat { now - n.last_heartbeat } else { 0 };
                let out = (n.status == NodeStatus::Suspect && el > self.config.dead_timeout)
                    || (n.status == NodeStatus::Alive && el > self.config.suspect_timeout);
                if out {
                    ids.push(n.node_id.clone());
                    assert(string_views(ids@) =~= timed_out_ids(v0.take(i as int), local, now, cfg).push(v0[i as int].node_id));
                }
            }
            i = i + 1;
        }
        assert(v0.take(v0.len() as int) == v0);
        proof {
            lemma_timed_out_not_local(v0, local, now, cfg);
            assert forall|j: int| 0 <= j < ids@.len() implies #[trigger] ids@[j]@ != local by {
                assert(string_views(ids@)[j] == ids@[j]@);
            }
            assert(string_views(ids@).take(0) =~= Seq::<Seq<char>>::empty());
        }
        let mut k: usize = 0;
        while k < ids.len()
            invariant
                self.wf(),
                self.config == cfg,
                local == self.local(),
                self.membership.incarnation == old(self).incarnation(),
                self.probe() == old(self).probe(),
                self.counters() == old(self).counters(),
                k <= ids@.len(),
                string_views(ids@) == timed_out_ids(v0, local, now, cfg),
                forall|j: int| 0 <= j < ids@.len() ==> #[trigger] ids@[j]@ != local,
                (self.membership.members(), self.queue())
                    == apply_timeouts((v0, q0), string_views(ids@).take(k as int)),
            decreases ids@.len() - k,
        {
            proof {
                assert(string_views(ids@).take(k + 1).drop_last() == string_views(ids@).take(k as int));
                assert(string_views(ids@)[k as int] == ids@[k as int]@);
            }
            let id = &ids[k];
            match self.membership.find(id) {
                Some(p) => {
                    assert(self.membership.members()[p as int] == view_of(self.membership.nodes@[p as int]));
                    if self.membership.nodes[p].status == NodeStatus::Alive {
                        self.suspect_node(id.as_str());
                    } else if self.membership.nodes[p].status == NodeStatus::Suspect {
                        self.declare_dead(id.as_str());
                    }
                },
                None => {},
            }
            k = k + 1;
        }
        assert(string_views(ids@).take(ids@.len() as int) == string_views(ids@));
        let ghost q1 = self.message_queue@;
        let ghost c1 = self.transmission_counters@;
        let r = self.drain_messages();
        proof {
            let ids_v = timed_out_ids(v0, local, now, cfg);
            assert(msg_views(q1) == apply_timeouts((v0, q0), ids_v).1);
            assert(r@ == drain_run(q1, c1, cfg.max_transmissions).0);
        }
        r
    }

    /// Queues a heartbeat of the local node (`load` is the bit pattern of
    /// the load figure).
    pub fn send_heartbeat(&mut self, fragment_count: usize, load: u64)
        requires
            old(self).wf(),
        ensures
            final(self).wf(),
            final(self).ms() == old(self).ms(),
            final(self).queue() == old(self).queue().push(MsgView::Heartbeat {
                node_id: old(self).local(),
                incarnation: old(self).incarnation(),
                fragment_count,
                load,
            }),
            final(self).cfg() == old(self).cfg(),
            final(self).probe() == old(self).probe(),
            final(self).counters() == old(self).counters(),
    {
        let id = self.membership.local_node_id.clone();
        let inc = self.membership.incarnation;
        self.push(GossipMessage::Heartbeat { node_id: id, incarnation: inc, fragment_count, load });
    }

    /// This round's gossip targets: up to `gossip_fanout` of the alive
    /// members other than the local node, taken cyclically from the probe
    /// index.
    pub fn select_gossip_targets(&self) -> (r: Vec<String>)
        requires
            self.wf(),
        ensures
            ({
                let peers = gossip_peers(self.members(), self.local());
                let fanout = if self.cfg().gossip_fanout <= peers.len() { self.cfg().gossip_fanout as int } else { peers.len() as int };
                &&& r@.len() == fanout
                &&& forall|i: int| 0 <= i < fanout ==> #[trigger] r@[i]@ == peers[((self.probe() as int) % (peers.len() as int) + i) % (peers.len() as int)].node_id
            }),
    {
        let ghost v = self.membership.members();
        let mut peers: Vec<&NodeInfo> = Vec::new();
        let mut i: usize = 0;
        while i < self.membership.nodes.len()
            invariant
                i <= self.membership.nodes@.len(),
                v == self.membership.members(),
                v.len() == self.membership.nodes@.len(),
                peers@.len() == gossip_peers(v.take(i as int), self.local()).len(),
                forall|k: int| 0 <= k < peers@.len() ==> view_of(*peers@[k]) == gossip_peers(v.take(i as int), self.local())[k],
            decreases self.membership.nodes@.len() - i,
        {
            proof {
                assert(v.take(i + 1).drop_last() == v.take(i as int));
                assert(v[i as int] == view_of(self.membership.nodes@[i as int]));
            }
            let n = &self.membership.nodes[i];
            if n.status == NodeStatus::Alive {
                if n.node_id == self.membership.local_node_id {
                } else {
                    peers.push(n);
                }
            }
            i = i + 1;
        }
        assert(v.take(v.len() as int) == v);
        let len = peers.len();
        let fanout = if self.config.gossip_fanout <= len { self.config.gossip_fanout } else { len };
        let mut out: Vec<String> = Vec::new();
        if fanout == 0 || len == 0 {
            return out;
        }
        let start = self.probe_index % len;
        let mut j: usize = 0;
        while j < fanout
            invariant
                0 < len,
                fanout <= len,
                start == self.probe_index % len,
                j <= fanout,
                peers@.len() == len,
                out@.len() == j,
                forall|k: int| 0 <= k < peers@.len() ==> view_of(*peers@[k]) == gossip_peers(v, self.local())[k],
                forall|k: int| 0 <= k < j ==> #[trigger] out@[k]@ == gossip_peers(v, self.local())[(start + k) % (len as int)].node_id,
            decreases fanout - j,
        {
            let idx: usize = if j < len - start { start + j } else { j - (len - start) };
            assert(idx == (start + j) % (len as int)) by (nonlinear_arith)
                requires
                    start < len,
                    j < len,
                    idx == (if j < len - start { start + j } else { j - (len - start) }),
            {
            }
            out.push(peers[idx].node_id.clone());
            j = j + 1;
        }
        out
    }

    /// Takes the queued messages, keeping those whose kind has been sent
    /// fewer than `max_transmissions` times (counting them), and restarts
    /// the counters that reached it.
    pub fn drain_messages(&mut self) -> (r: Vec<GossipMessage>)
        requires
            old(self).wf(),
        ensures
            final(self).wf(),
            final(self).ms() == old(self).ms(),
            final(self).cfg() == old(self).cfg(),
            final(self).probe() == old(self).probe(),
            final(self).queue() == Seq::<MsgView>::empty(),
            r@ == drain_run(old(self).queued(), old(self).counters(), old(self).cfg().max_transmissions).0,
            final(self).counters() == reset_full(
                drain_run(old(self).queued(), old(self).counters(), old(self).cfg().max_transmissions).1,
                old(self).cfg().max_transmissions,
            ),
    {
        let mut q: Vec<GossipMessage> = Vec::new();
        std::mem::swap(&mut q, &mut self.message_queue);
        let ghost q0 = q@;
        let ghost c0 = self.transmission_counters@;
        assert(q0 == old(self).message_queue@);
        let max = self.config.max_transmissions;
        let mut out: Vec<GossipMessage> = Vec::new();
        let mut rest: Vec<GossipMessage> = Vec::new();
        assert(q@ + rest@.reverse() =~= q0);
        // take the messages from the back so that they can be moved out
        while q.len() > 0
            invariant
                q@ + rest@.reverse() == q0,
                self.message_queue@ == Seq::<GossipMessage>::empty(),
                self.membership == old(self).membership,
                self.config == old(self).config,
                self.probe_index == old(self).probe_index,
                self.transmission_counters@ == c0,
                c0.len() == 8,
            decreases q@.len(),
        {
            let m = q.pop().unwrap();
            rest.push(m);
            assert(q@ + rest@.reverse() =~= q0);
        }
        assert(rest@.reverse() == q0);
        let n = rest.len();
        let mut i: usize = 0;
        while i < n
            invariant
                self.message_queue@ == Seq::<GossipMessage>::empty(),
                self.probe_index == old(self).probe_index,
                self.transmission_counters@.len() == 8,
                self.membership == old(self).membership,
                self.config == old(self).config,
                max == self.config.max_transmissions,
                n == q0.len(),
                rest@.len() == n - i,
                i <= n,
                forall|k: int| 0 <= k < rest@.len() ==> #[trigger] rest@[k] == q0[n - 1 - k],
                (out@, self.transmission_counters@) == drain_run(q0.take(i as int), c0, max),
                c0.len() == 8,
            decreases n - i,
        {
            let m = rest.pop().unwrap();
            proof {
                assert(m == q0[i as int]);
                assert(q0.take(i + 1).drop_last() == q0.take(i as int));
                lemma_drain_len(q0.take(i as int), c0, max);
            }
            let kind = message_kind(&m);
            let c = self.transmission_counters[kind];
            if c < max {
                self.transmission_counters.set(kind, c + 1);
                out.push(m);
            }
            i = i + 1;
        }
        assert(q0.take(n as int) == q0);
        let mut k: usize = 0;
        let ghost c1 = self.transmission_counters@;
        while k < 8
            invariant
                self.message_queue@ == Seq::<GossipMessage>::empty(),
                self.probe_index == old(self).probe_index,
                self.transmission_counters@.len() == 8,
                c1.len() == 8,
                k <= 8,
                self.membership == old(self).membership,
                self.config == old(self).config,
                max == self.config.max_transmissions,
                forall|j: int| 0 <= j < k ==> self.transmission_counters@[j] == (if c1[j] < max { c1[j] } else { 0u8 }),
                forall|j: int| k <= j < 8 ==> self.transmission_counters@[j] == c1[j],
            decreases 8 - k,
        {
            if self.transmission_counters[k] >= max {
                self.transmission_counters.set(k, 0);
            }
            k = k + 1;
        }
        assert(self.transmission_counters@ =~= reset_full(c1, max));
        assert(self.message_queue@ == Seq::<GossipMessage>::empty());
        assert(self.queue() =~= Seq::<MsgView>::empty());
        out
    }

    /// Moves the probe on by one.
    pub fn advance_probe(&mut self)
        requires
            old(self).wf(),
            old(self).probe() < usize::MAX,
        ensures
            final(self).wf(),
            final(self).probe() == old(self).probe() + 1,
            final(self).ms() == old(self).ms(),
            final(self).queue() == old(self).queue(),
            final(self).cfg() == old(self).cfg(),
            final(self).counters() == old(self).counters(),
    {
        self.probe_index = self.probe_index + 1;
    }

    pub fn local_node_id(&self) -> (r: &str)
        ensures
            r@ == self.local(),
    {
        self.membership.local_node_id.as_str()
    }
}

/// The local node's address among the members, or empty.
pub open spec fn local_address_of(s: Seq<NodeView>, local: Seq<char>) -> Seq<char> {
    if has_node(s, local) {
        s[node_index(s, local)].address
    } else {
        Seq::empty()
    }
}

/// Whether a suspicion is about the local node at its current incarnation,
/// which the local node answers by raising its incarnation.
pub open spec fn refutes(s: Seq<NodeView>, local: Seq<char>, incarnation: u64, msg: GossipMessage) -> bool {
    match msg {
        GossipMessage::Suspect { node_id, incarnation: inc } => has_node(s, node_id@) && node_id@ == local
            && inc == incarnation,
        _ => false,
    }
}

/// `n` heard from now at the given incarnation.
pub open spec fn heard_from(n: NodeView, incarnation: u64, now: u64) -> NodeView {
    NodeView { incarnation, status: NodeStatus::Alive, last_heartbeat: now, ..n }
}

/// The members with the status of the member with this id replaced.
pub open spec fn set_status_of(s: Seq<NodeView>, id: Seq<char>, status: NodeStatus) -> Seq<NodeView> {
    if has_node(s, id) {
        let i = node_index(s, id);
        s.update(i, restated(s[i], status, s[i].incarnation))
    } else {
        s
    }
}

/// Suspecting another member: an alive member becomes suspect, with a
/// message.
pub open spec fn apply_suspect(s: (Seq<NodeView>, Seq<MsgView>), id: Seq<char>) -> (Seq<NodeView>, Seq<MsgView>) {
    if has_node(s.0, id) && s.0[node_index(s.0, id)].status == NodeStatus::Alive {
        apply_timeout(s, id)
    } else {
        s
    }
}

/// Declaring a member dead, with a message.
pub open spec fn apply_dead(s: (Seq<NodeView>, Seq<MsgView>), id: Seq<char>) -> (Seq<NodeView>, Seq<MsgView>) {
    if has_node(s.0, id) {
        let i = node_index(s.0, id);
        let n = s.0[i];
        (s.0.update(i, restated(n, NodeStatus::Dead, n.incarnation)), s.1.push(MsgView::Dead { node_id: id, incarnation: n.incarnation }))
    } else {
        s
    }
}

/// The members and queue after a message that does not refute a suspicion
/// of the local node.
pub open spec fn receive_spec(s: Seq<NodeView>, q: Seq<MsgView>, local: Seq<char>, msg: MsgView, now: u64) -> (Seq<NodeView>, Seq<MsgView>) {
    match msg {
        MsgView::Join { node_id, address, incarnation, metadata } => (
            merge_spec(s, NodeView { node_id, address, status: NodeStatus::Alive, incarnation, metadata, last_heartbeat: now }),
            q.push(MsgView::Alive { node_id, address, incarnation }),
        ),
        MsgView::Alive { node_id, address, incarnation } => (
            merge_spec(s, NodeView {
                node_id,
                address,
                status: NodeStatus::Alive,
                incarnation,
                metadata: Map::empty(),
                last_heartbeat: now,
            }),
            q,
        ),
        MsgView::Suspect { node_id, incarnation } => if has_node(s, node_id) {
            (merge_spec(s, restated(s[node_index(s, node_id)], NodeStatus::Suspect, incarnation)), q)
        } else {
            (s, q)
        },
        MsgView::Dead { node_id, incarnation } => if node_id != local && has_node(s, node_id) {
            (merge_spec(s, restated(s[node_index(s, node_id)], NodeStatus::Dead, incarnation)), q)
        } else {
            (s, q)
        },
        MsgView::Leave { node_id } => if node_id != local {
            (set_status_of(s, node_id, NodeStatus::Left), q)
        } else {
            (s, q)
        },
        MsgView::Heartbeat { node_id, incarnation, .. } => if has_node(s, node_id)
            && incarnation >= s[node_index(s, node_id)].incarnation {
            (s.update(node_index(s, node_id), heard_from(s[node_index(s, node_id)], incarnation, now)), q)
        } else {
            (s, q)
        },
        _ => (s, q),
    }
}

pub open spec fn string_views(s: Seq<String>) -> Seq<Seq<char>> {
    s.map_values(|x: String| x@)
}

proof fn lemma_timed_out_not_local(s: Seq<NodeView>, local: Seq<char>, now: u64, cfg: GossipConfig)
    ensures
        forall|j: int| 0 <= j < timed_out_ids(s, local, now, cfg).len() ==> #[trigger] timed_out_ids(s, local, now, cfg)[j] != local,
    decreases s.len(),
{
    if s.len() > 0 {
        lemma_timed_out_not_local(s.drop_last(), local, now, cfg);
        let t = timed_out_ids(s.drop_last(), local, now, cfg);
        assert forall|j: int| 0 <= j < timed_out_ids(s, local, now, cfg).len() implies #[trigger] timed_out_ids(s, local, now, cfg)[j] != local by {
            if j < t.len() {
                assert(timed_out_ids(s, local, now, cfg)[j] == t[j]);
            }
        }
    }
}

proof fn lemma_drain_len(q: Seq<GossipMessage>, c: Seq<u8>, max: u8)
    requires
        c.len() == 8,
    ensures
        drain_run(q, c, max).1.len() == c.len(),
    decreases q.len(),
{
    if q.len() > 0 {
        lemma_drain_len(q.drop_last(), c, max);
        let prev = drain_run(q.drop_last(), c, max);
        let k = kind_of(q.last());
        assert(0 <= k < 8);
    }
}

/// A member after its own timeout is handled (the internal step of a tick).
spec fn ticked(n: NodeView, local: Seq<char>, now: u64, cfg: GossipConfig) -> NodeView {
    if timed_out(n, local, now, cfg) {
        if n.status == NodeStatus::Alive {
            restated(n, NodeStatus::Suspect, n.incarnation)
        } else {
            restated(n, NodeStatus::Dead, n.incarnation)
        }
    } else {
        n
    }
}

proof fn lemma_timeouts_prefix(s: Seq<NodeView>, q: Seq<MsgView>, local: Seq<char>, now: u64, cfg: GossipConfig, k: int)
    requires
        distinct_ids(s),
        0 <= k <= s.len(),
    ensures
        ({
            let a = apply_timeouts((s, q), timed_out_ids(s.take(k), local, now, cfg)).0;
            &&& a.len() == s.len()
            &&& forall|j: int| 0 <= j < k ==> #[trigger] a[j] == ticked(s[j], local, now, cfg)
            &&& forall|j: int| k <= j < s.len() ==> #[trigger] a[j] == s[j]
        }),
    decreases k,
{
    if k == 0 {
        assert(timed_out_ids(s.take(0), local, now, cfg) =~= Seq::<Seq<char>>::empty());
    } else {
        lemma_timeouts_prefix(s, q, local, now, cfg, k - 1);
        assert(s.take(k).drop_last() =~= s.take(k - 1));
        assert(s.take(k).last() == s[k - 1]);
        let prev_ids = timed_out_ids(s.take(k - 1), local, now, cfg);
        let ids = timed_out_ids(s.take(k), local, now, cfg);
        let prev = apply_timeouts((s, q), prev_ids);
        let a = prev.0;
        if timed_out(s[k - 1], local, now, cfg) {
            assert(ids == prev_ids.push(s[k - 1].node_id));
            assert(ids.drop_last() =~= prev_ids);
            let id = s[k - 1].node_id;
            assert(a[k - 1].node_id == id);
            assert(has_node(a, id));
            let i = node_index(a, id);
            assert(0 <= i < a.len() && a[i].node_id == id);
            if i < k - 1 {
                assert(a[i] == ticked(s[i], local, now, cfg));
                assert(s[i].node_id == id);
            } else if i > k - 1 {
                assert(a[i] == s[i]);
            }
            assert(i == k - 1);
            let b = apply_timeouts((s, q), ids).0;
            assert(apply_timeouts((s, q), ids) == apply_timeout(prev, id));
            assert forall|j: int| 0 <= j < k implies #[trigger] b[j] == ticked(s[j], local, now, cfg) by {
                if j < k - 1 {
                    assert(b[j] == a[j]);
                }
            }
            assert forall|j: int| k <= j < s.len() implies #[trigger] b[j] == s[j] by {
                assert(b[j] == a[j]);
            }
        } else {
            assert(ids == prev_ids);
        }
    }
}

/// A tick judges each member by its own heartbeat alone: a member other
/// than the local node that is alive becomes suspect exactly when more than
/// the suspect timeout has passed since its last heartbeat, and a suspect one
/// becomes dead exactly when more than the dead timeout has passed; nothing
/// else about it changes. The local node, dead and departed members, and
/// members within their timeout stay exactly as they were.
pub proof fn lemma_tick_timeouts(s: Seq<NodeView>, q: Seq<MsgView>, local: Seq<char>, now: u64, cfg: GossipConfig, j: int)
    requires
        distinct_ids(s),
        0 <= j < s.len(),
    ensures
        ({
            let a = apply_timeouts((s, q), timed_out_ids(s, local, now, cfg)).0;
            let n = s[j];
            let since: int = if now >= n.last_heartbeat { now - n.last_heartbeat } else { 0 };
            &&& a.len() == s.len()
            &&& n.node_id == local ==> a[j] == n
            &&& (n.node_id != local && n.status == NodeStatus::Alive) ==> if since > cfg.suspect_timeout {
                a[j] == restated(n, NodeStatus::Suspect, n.incarnation)
            } else {
                a[j] == n
            }
            &&& (n.node_id != local && n.status == NodeStatus::Suspect) ==> if since > cfg.dead_timeout {
                a[j] == restated(n, NodeStatus::Dead, n.incarnation)
            } else {
                a[j] == n
            }
            &&& (n.status == NodeStatus::Dead || n.status == NodeStatus::Left) ==> a[j] == n
        }),
{
    lemma_timeouts_prefix(s, q, local, now, cfg, s.len() as int);
    assert(s.take(s.len() as int) =~= s);
    let a = apply_timeouts((s, q), timed_out_ids(s, local, now, cfg)).0;
    assert(a[j] == ticked(s[j], local, now, cfg));
}

} // verus!

//! Plain records the service hands out: store results, API messages,
//! cluster and index summaries, and the inference kinds.
use vstd::prelude::*;
use crate::types::FragmentId;
use crate::gossip::GossipConfig;
use crate::text::{dec, usize_to_string, u64_to_string};

verus! {

/// What a store produced.
#[derive(Debug, Clone)]
pub struct StoreResult {
    pub source_id: u64,
    pub source_hash: u64,
    pub fragment_count: usize,
    pub total_fragments: usize,
    pub fragment_ids: Vec<FragmentId>,
}

/// The answer to a store request.
#[derive(Debug, Clone)]
pub struct StoreResponse {
    pub stored: bool,
    pub source_id: u64,
    pub source_hash: u64,
    pub fragment_count: usize,
    pub total_fragments: usize,
}

impl StoreResponse {
    /// The answer for a successful store.
    pub fn from_result(r: &StoreResult) -> (s: Self)
        ensures
            s.stored,
            s.source_id == r.source_id,
            s.source_hash == r.source_hash,
            s.fragment_count == r.fragment_count,
            s.total_fragments == r.total_fragments,
    {
        StoreResponse {
            stored: true,
            source_id: r.source_id,
            source_hash: r.source_hash,
            fragment_count: r.fragment_count,
            total_fragments: r.total_fragments,
        }
    }
}

/// A request to read back a stored source.
#[derive(Debug, Clone, Copy)]
pub struct RetrieveRequest {
    pub source_hash: u64,
    pub expected_len: usize,
}

/// A request for the integrity of a stored source.
#[derive(Debug, Clone, Copy)]
pub struct IntegrityRequest {
    pub source_hash: u64,
}

/// The service's status.
#[derive(Debug, Clone)]
pub struct StatusResponse {
    pub service: String,
    pub version: String,
    pub fragment_count: usize,
    pub source_count: usize,
}

impl StatusResponse {
    /// The status of this service, `holographic-memory` 0.3.0, with the
    /// given counts.
    pub fn of_service(fragment_count: usize, source_count: usize) -> (s: Self)
        ensures
            s.service@ == "holographic-memory"@,
            s.version@ == "0.3.0"@,
            s.fragment_count == fragment_count,
            s.source_count == source_count,
    {
        StatusResponse {
            service: String::from_str("holographic-memory"),
            version: String::from_str("0.3.0"),
            fragment_count,
            source_count,
        }
    }
}

/// An error answer.
#[derive(Debug, Clone)]
pub struct ApiError {
    pub error: String,
}

/// Settings of a cluster member.
#[derive(Debug, Clone)]
pub struct DistributedConfig {
    pub node_id: String,
    pub address: String,
    pub virtual_nodes: usize,
    pub replication_factor: usize,
    pub gossip_config: GossipConfig,
    pub merkle_bucket_size: usize,
    pub max_concurrent_repairs: usize,
}

impl Default for DistributedConfig {
    /// `node-0` at `127.0.0.1:7000`, 150 virtual nodes, three replicas,
    /// default gossip timings, buckets of 256 digests and four repairs at a
    /// time.
    fn default() -> (r: Self)
        ensures
            r.node_id@ == "node-0"@,
            r.address@ == "127.0.0.1:7000"@,
            r.virtual_nodes == 150,
            r.replication_factor == 3,
            r.gossip_config == (GossipConfig {
                probe_interval: 1000,
                suspect_timeout: 5000,
                dead_timeout: 15000,
                gossip_fanout: 3,
                gossip_interval: 200,
                max_transmissions: 10,
            }),
            r.merkle_bucket_size == 256,
            r.max_concurrent_repairs == 4,
    {
        DistributedConfig {
            node_id: String::from_str("node-0"),
            address: String::from_str("127.0.0.1:7000"),
            virtual_nodes: 150,
            replication_factor: 3,
            gossip_config: GossipConfig::default(),
            merkle_bucket_size: 256,
            max_concurrent_repairs: 4,
        }
    }
}

/// What a replicated store produced.
#[derive(Debug, Clone)]
pub struct DistributedStoreResult {
    pub local_result: StoreResult,
    pub replica_nodes: Vec<String>,
    pub replication_factor: usize,
    pub quorum_achieved: bool,
}

/// A summary of the cluster as one member sees it.
#[derive(Debug, Clone)]
pub struct ClusterStatus {
    pub node_id: String,
    pub alive_nodes: usize,
    pub total_nodes: usize,
    pub local_fragments: usize,
    pub replication_factor: usize,
    pub pending_repairs: usize,
    pub ring_vnodes: usize,
}

/// The tiers of the index.
#[derive(Debug, Clone, Copy, PartialEq, Eq, Structural)]
pub enum Layer {
    L0,
    L1,
    L2,
}

/// How a tier is written.
pub open spec fn layer_text(l: Layer) -> Seq<char> {
    match l {
        Layer::L0 => "L0(内存)"@,
        Layer::L1 => "L1(LSM磁盘)"@,
        Layer::L2 => "L2(mmap冷存)"@,
    }
}

impl Layer {
    pub fn to_text(&self) -> (r: String)
        ensures
            r@ == layer_text(*self),
    {
        match self {
            Layer::L0 => String::from_str("L0(内存)"),
            Layer::L1 => String::from_str("L1(LSM磁盘)"),
            Layer::L2 => String::from_str("L2(mmap冷存)"),
        }
    }
}

/// The tables and entries of one level of the LSM index.
#[derive(Debug, Clone, Copy)]
pub struct LevelStats {
    pub level: u32,
    pub sstable_count: usize,
    pub entry_count: usize,
}

/// A summary of the LSM index.
#[derive(Debug, Clone)]
pub struct LsmStats {
    pub memtable_entries: usize,
    pub level_stats: Vec<LevelStats>,
    pub total_entries: usize,
}

/// A summary of the tiered index.
#[derive(Debug, Clone)]
pub struct TieredStats {
    pub l0_entries: usize,
    pub l0_capacity: usize,
    pub l1_stats: Option<LsmStats>,
    pub total_entries: usize,
}

/// One level's line of the LSM summary.
pub open spec fn level_line(l: LevelStats) -> Seq<char> {
    "  Level "@ + dec(l.level as nat) + ": "@ + dec(l.sstable_count as nat) + " SSTable, "@
        + dec(l.entry_count as nat) + " 条目\n"@
}

/// The lines of the levels, in order.
pub open spec fn level_lines(ls: Seq<LevelStats>) -> Seq<char>
    decreases ls.len(),
{
    if ls.len() == 0 {
        Seq::empty()
    } else {
        level_lines(ls.drop_last()) + level_line(ls.last())
    }
}

/// The LSM summary as text: a heading, the memtable, one line per level and
/// the total (with no line break after it).
pub open spec fn lsm_text(st: LsmStats) -> Seq<char> {
    "LSM索引统计:\n"@ + "  MemTable: "@ + dec(st.memtable_entries as nat) + " 条目\n"@
        + level_lines(st.level_stats@) + "  总计: "@ + dec(st.total_entries as nat) + " 条目"@
}

/// The tiered summary as text: a heading, the memory tier's fill, the LSM
/// summary (or a line saying there is none) and the total.
pub open spec fn tiered_text(st: TieredStats) -> Seq<char> {
    "分层索引统计:\n"@ + "  L0: "@ + dec(st.l0_entries as nat) + "/"@ + dec(st.l0_capacity as nat) + " 条目\n"@
        + match st.l1_stats {
            Some(l1) => lsm_text(l1),
            None => "  L1: 未启用\n"@,
        }
        + "  总计: "@ + dec(st.total_entries as nat) + " 条目"@
}

impl LsmStats {
    pub fn to_text(&self) -> (r: String)
        ensures
            r@ == lsm_text(*self),
    {
        let mut s = String::from_str("LSM索引统计:\n");
        s.append("  MemTable: ");
        s.append(usize_to_string(self.memtable_entries).as_str());
        s.append(" 条目\n");
        let ghost head = s@;
        let mut i: usize = 0;
        while i < self.level_stats.len()
            invariant
                i <= self.level_stats@.len(),
                s@ == head + level_lines(self.level_stats@.take(i as int)),
            decreases self.level_stats@.len() - i,
        {
            let l = self.level_stats[i];
            assert(self.level_stats@.take(i + 1).drop_last() =~= self.level_stats@.take(i as int));
            s.append("  Level ");
            s.append(u64_to_string(l.level as u64).as_str());
            s.append(": ");
            s.append(usize_to_string(l.sstable_count).as_str());
            s.append(" SSTable, ");
            s.append(usize_to_string(l.entry_count).as_str());
            s.append(" 条目\n");
            i += 1;
            assert(s@ =~= head + level_lines(self.level_stats@.take(i as int)));
        }
        assert(self.level_stats@.take(i as int) =~= self.level_stats@);
        s.append("  总计: ");
        s.append(usize_to_string(self.total_entries).as_str());
        s.append(" 条目");
        s
    }
}

impl TieredStats {
    pub fn to_text(&self) -> (r: String)
        ensures
            r@ == tiered_text(*self),
    {
        let mut s = String::from_str("分层索引统计:\n");
        s.append("  L0: ");
        s.append(usize_to_string(self.l0_entries).as_str());
        s.append("/");
        s.append(usize_to_string(self.l0_capacity).as_str());
        s.append(" 条目\n");
        match &self.l1_stats {
            Some(l1) => {
                s.append(l1.to_text().as_str());
            },
            None => {
                s.append("  L1: 未启用\n");
            },
        }
        s.append("  总计: ");
        s.append(usize_to_string(self.total_entries).as_str());
        s.append(" 条目");
        s
    }
}

/// The kinds of inference step.
#[derive(Debug, Clone, Copy, PartialEq, Eq, Structural)]
pub enum InferenceType {
    PatternMatch,
    FrequencyPropagation,
    PhaseCoherence,
    CrossModal,
}

/// Vector operations (their floating-point arithmetic is outside this
/// library).
#[derive(Debug, Clone, Copy)]
pub struct SimdOps;

} // verus!

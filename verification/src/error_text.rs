//! How the library's errors read.
use vstd::prelude::*;
use crate::consistent_hash::RingError;
use crate::reed_solomon::RsError;
use crate::text::{dec, usize_to_string};

verus! {

/// How a Reed-Solomon error reads.
pub open spec fn rs_error_text(e: RsError) -> Seq<char> {
    match e {
        RsError::InsufficientShards { required, available } =>
            "碎片数不足: 需要"@ + dec(required as nat) + "个, 实际"@ + dec(available as nat) + "个"@,
        RsError::ZeroDataShards => "数据碎片数为零"@,
        RsError::TooManyParityShards => "校验碎片数超出限制: 最多255个"@,
        RsError::InconsistentLength { expected, got } =>
            "数据长度不一致: 期望"@ + dec(expected as nat) + ", 实际"@ + dec(got as nat),
        RsError::InvalidIndex(i) => "无效碎片索引: "@ + dec(i as nat),
    }
}

impl RsError {
    pub fn to_text(&self) -> (r: String)
        ensures
            r@ == rs_error_text(*self),
    {
        match self {
            RsError::InsufficientShards { required, available } => {
                let mut s = String::from_str("碎片数不足: 需要");
                s.append(usize_to_string(*required).as_str());
                s.append("个, 实际");
                s.append(usize_to_string(*available).as_str());
                s.append("个");
                s
            },
            RsError::ZeroDataShards => String::from_str("数据碎片数为零"),
            RsError::TooManyParityShards => String::from_str("校验碎片数超出限制: 最多255个"),
            RsError::InconsistentLength { expected, got } => {
                let mut s = String::from_str("数据长度不一致: 期望");
                s.append(usize_to_string(*expected).as_str());
                s.append(", 实际");
                s.append(usize_to_string(*got).as_str());
                s
            },
            RsError::InvalidIndex(i) => {
                let mut s = String::from_str("无效碎片索引: ");
                s.append(usize_to_string(*i).as_str());
                s
            },
        }
    }
}

/// How a ring error reads.
pub open spec fn ring_error_text(e: RingError) -> Seq<char> {
    match e {
        RingError::EmptyRing => "环为空，无可用节点"@,
        RingError::NodeExists(n) => "节点已存在: "@ + n@,
        RingError::NodeNotFound(n) => "节点不存在: "@ + n@,
    }
}

impl RingError {
    pub fn to_text(&self) -> (r: String)
        ensures
            r@ == ring_error_text(*self),
    {
        match self {
            RingError::EmptyRing => String::from_str("环为空，无可用节点"),
            RingError::NodeExists(n) => {
                let mut s = String::from_str("节点已存在: ");
                s.append(n.as_str());
                s
            },
            RingError::NodeNotFound(n) => {
                let mut s = String::from_str("节点不存在: ");
                s.append(n.as_str());
                s
            },
        }
    }
}

} // verus!

//! The block under construction.

use crate::limits::BlobParams;
use crate::payload::exec::Tx;
use crate::vec_util::{copy_vec, same_txs};
use vstd::prelude::*;

verus! {

/// What payload building knows of the block it builds: the parent block,
/// the payload attributes from the consensus client and the fees and limits
/// that the chain specification sets for this block.
#[derive(Debug)]
pub struct BlockContext {
    /// The payload id from the consensus client.
    pub payload_id: u64,
    /// The number of the parent block.
    pub parent_number: u64,
    /// The hash of the parent block.
    pub parent_hash: u64,
    /// The gas limit of the parent block.
    pub parent_gas_limit: u64,
    /// The gas limit requested by the payload attributes, if any.
    pub gas_limit: Option<u64>,
    /// The timestamp of the block under construction.
    pub timestamp: u64,
    /// The base fee of the block under construction.
    pub base_fee: u64,
    /// The blob fee of the block under construction, for forks with blobs.
    pub blob_fee: Option<u128>,
    /// The blob parameters of the fork active at the block's timestamp.
    pub blob_params: Option<BlobParams>,
    /// The recipient of the block's fees.
    pub coinbase: u64,
    /// Transactions that the consensus client requires at the top of the
    /// block (sequencer transactions on rollups).
    pub sequencer_txs: Vec<Tx>,
}

/// Two block contexts describe the same block.
pub open spec fn same_block(a: BlockContext, b: BlockContext) -> bool {
    &&& a.payload_id == b.payload_id
    &&& a.parent_number == b.parent_number
    &&& a.parent_hash == b.parent_hash
    &&& a.parent_gas_limit == b.parent_gas_limit
    &&& a.gas_limit == b.gas_limit
    &&& a.timestamp == b.timestamp
    &&& a.base_fee == b.base_fee
    &&& a.blob_fee == b.blob_fee
    &&& a.blob_params == b.blob_params
    &&& a.coinbase == b.coinbase
    &&& a.sequencer_txs@ == b.sequencer_txs@
}

impl BlockContext {
    /// A copy of the block context.
    pub fn duplicate(&self) -> (r: BlockContext)
        ensures
            same_block(r, *self),
    {
        BlockContext {
            payload_id: self.payload_id,
            parent_number: self.parent_number,
            parent_hash: self.parent_hash,
            parent_gas_limit: self.parent_gas_limit,
            gas_limit: self.gas_limit,
            timestamp: self.timestamp,
            base_fee: self.base_fee,
            blob_fee: self.blob_fee,
            blob_params: self.blob_params,
            coinbase: self.coinbase,
            sequencer_txs: copy_vec(&self.sequencer_txs),
        }
    }

    /// Whether two block contexts describe the same block.
    pub fn same_as(&self, other: &BlockContext) -> (r: bool)
        ensures
            r == same_block(*self, *other),
    {
        let fields = self.payload_id == other.payload_id && self.parent_number == other.parent_number
            && self.parent_hash == other.parent_hash && self.parent_gas_limit == other.parent_gas_limit
            && self.gas_limit == other.gas_limit && self.timestamp == other.timestamp
            && self.base_fee == other.base_fee && self.blob_fee == other.blob_fee
            && self.coinbase == other.coinbase;
        let params = match (self.blob_params, other.blob_params) {
            (Some(a), Some(b)) => a.target_blob_count == b.target_blob_count && a.max_blob_count == b.max_blob_count,
            (None, None) => true,
            _ => false,
        };
        fields && params && same_txs(&self.sequencer_txs, &other.sequencer_txs)
    }

    /// The payload id supplied by the consensus client.
    pub fn payload_id(&self) -> (r: u64)
        ensures
            r == self.payload_id,
    {
        self.payload_id
    }

    /// The timestamp of the block under construction.
    pub fn timestamp(&self) -> (r: u64)
        ensures
            r == self.timestamp,
    {
        self.timestamp
    }

    /// The number of the block under construction: the parent's plus one.
    pub fn number(&self) -> (r: u64)
        requires
            self.parent_number < u64::MAX,
        ensures
            r == self.parent_number + 1,
    {
        self.parent_number + 1
    }

    /// The base fee of the block under construction.
    pub fn base_fee(&self) -> (r: u64)
        ensures
            r == self.base_fee,
    {
        self.base_fee
    }

    /// The blob fee of the block under construction, if the fork has blobs.
    pub fn blob_fee(&self) -> (r: Option<u128>)
        ensures
            r == self.blob_fee,
    {
        self.blob_fee
    }

    /// The maximum blob gas of the block: zero when the fork has no blobs.
    pub fn blob_gas_limit(&self) -> (r: u128)
        ensures
            r == match self.blob_params {
                Some(p) => p.spec_max_blob_gas_per_block(),
                None => 0,
            },
    {
        match self.blob_params {
            Some(p) => p.max_blob_gas_per_block(),
            None => 0,
        }
    }

    /// The recipient of the block's fees.
    pub fn coinbase(&self) -> (r: u64)
        ensures
            r == self.coinbase,
    {
        self.coinbase
    }
}

} // verus!

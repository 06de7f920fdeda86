//! Blocks and transactions as the engine reads them: identifiers, the
//! outputs a transaction creates and the earlier outputs it spends.

use vstd::prelude::*;
use crate::hash::Hash256;

verus! {

/// A reference to one output of a transaction.
#[derive(Clone, Copy, Debug, PartialEq, Eq, Structural)]
pub struct OutPoint {
    pub txid: Hash256,
    pub vout: u32,
}

/// An output: an amount, and the fingerprint of the script that may spend it.
#[derive(Clone, Copy, Debug, PartialEq, Eq, Structural)]
pub struct TxOut {
    pub value: u64,
    pub fingerprint: Hash256,
}

/// A transaction. `inputs` are the outputs it spends, in order; the
/// transaction that opens a block creates coins and has none.
#[derive(Clone, Debug, PartialEq, Eq)]
pub struct Transaction {
    pub txid: Hash256,
    pub inputs: Vec<OutPoint>,
    pub outputs: Vec<TxOut>,
}

/// What a transaction holds.
pub struct TxModel {
    pub txid: Hash256,
    pub inputs: Seq<OutPoint>,
    pub outputs: Seq<TxOut>,
}

impl View for Transaction {
    type V = TxModel;

    open spec fn view(&self) -> TxModel {
        TxModel { txid: self.txid, inputs: self.inputs@, outputs: self.outputs@ }
    }
}

/// A block: its hash, the hash of the block before it, and its
/// transactions in order.
#[derive(Clone, Debug, PartialEq, Eq)]
pub struct Block {
    pub hash: Hash256,
    pub prev: Hash256,
    pub txs: Vec<Transaction>,
}

/// What a block holds.
pub struct BlockModel {
    pub hash: Hash256,
    pub prev: Hash256,
    pub txs: Seq<TxModel>,
}

/// The views of a sequence of transactions.
pub open spec fn tx_models(txs: Seq<Transaction>) -> Seq<TxModel> {
    Seq::new(txs.len(), |i: int| txs[i]@)
}

impl View for Block {
    type V = BlockModel;

    open spec fn view(&self) -> BlockModel {
        BlockModel { hash: self.hash, prev: self.prev, txs: tx_models(self.txs@) }
    }
}

/// The views of a sequence of blocks.
pub open spec fn block_models(blocks: Seq<Block>) -> Seq<BlockModel> {
    Seq::new(blocks.len(), |i: int| blocks[i]@)
}

impl TxModel {
    /// Whether some output pays the fingerprint.
    pub open spec fn funds(self, fingerprint: Hash256) -> bool {
        exists|i: int| 0 <= i < self.outputs.len() && (#[trigger] self.outputs[i]).fingerprint
            == fingerprint
    }

    /// Whether some input spends the given output.
    pub open spec fn spends(self, outpoint: OutPoint) -> bool {
        self.inputs.contains(outpoint)
    }
}

/// The greatest number of transactions in a block, and of inputs and of
/// outputs in a transaction, that the index can number.
pub const MAX_POSITIONS: usize = 0xffff_ffff;

impl Transaction {
    /// Whether the index can number the inputs and outputs.
    pub open spec fn indexable(&self) -> bool {
        self.inputs@.len() <= MAX_POSITIONS && self.outputs@.len() <= MAX_POSITIONS
    }

    /// A copy of the transaction.
    pub fn duplicate(&self) -> (r: Transaction)
        ensures
            r@ == self@,
    {
        let mut inputs: Vec<OutPoint> = Vec::new();
        let mut i: usize = 0;
        while i < self.inputs.len()
            invariant
                i <= self.inputs.len(),
                inputs@ == self.inputs@.subrange(0, i as int),
            decreases self.inputs.len() - i,
        {
            inputs.push(self.inputs[i]);
            i += 1;
        }
        let mut outputs: Vec<TxOut> = Vec::new();
        let mut j: usize = 0;
        while j < self.outputs.len()
            invariant
                j <= self.outputs.len(),
                outputs@ == self.outputs@.subrange(0, j as int),
            decreases self.outputs.len() - j,
        {
            outputs.push(self.outputs[j]);
            j += 1;
        }
        assert(inputs@ == self.inputs@);
        assert(outputs@ == self.outputs@);
        Transaction { txid: self.txid, inputs, outputs }
    }

    /// Whether some output pays the fingerprint.
    pub fn pays(&self, fingerprint: &Hash256) -> (b: bool)
        ensures
            b == self@.funds(*fingerprint),
    {
        let mut i: usize = 0;
        while i < self.outputs.len()
            invariant
                i <= self.outputs.len(),
                forall|k: int| 0 <= k < i ==> (#[trigger] self.outputs@[k]).fingerprint
                    != *fingerprint,
            decreases self.outputs.len() - i,
        {
            if self.outputs[i].fingerprint == *fingerprint {
                assert(self@.outputs[i as int].fingerprint == *fingerprint);
                return true;
            }
            i += 1;
        }
        false
    }

    /// Whether some input spends the given output.
    pub fn consumes(&self, outpoint: &OutPoint) -> (b: bool)
        ensures
            b == self@.spends(*outpoint),
    {
        let mut i: usize = 0;
        while i < self.inputs.len()
            invariant
                i <= self.inputs.len(),
                forall|k: int| 0 <= k < i ==> self.inputs@[k] != *outpoint,
            decreases self.inputs.len() - i,
        {
            if self.inputs[i] == *outpoint {
                return true;
            }
            i += 1;
        }
        false
    }
}

impl Block {
    /// Whether the index can number the transactions and what they hold.
    pub open spec fn indexable(&self) -> bool {
        &&& self.txs@.len() <= MAX_POSITIONS
        &&& forall|i: int| 0 <= i < self.txs@.len() ==> (#[trigger] self.txs@[i]).indexable()
    }

    /// Whether the index can number the transactions and what they hold.
    pub fn is_indexable(&self) -> (b: bool)
        ensures
            b == self.indexable(),
    {
        if self.txs.len() > MAX_POSITIONS {
            return false;
        }
        let mut i: usize = 0;
        while i < self.txs.len()
            invariant
                i <= self.txs.len(),
                forall|k: int| 0 <= k < i ==> (#[trigger] self.txs@[k]).indexable(),
            decreases self.txs.len() - i,
        {
            if self.txs[i].inputs.len() > MAX_POSITIONS || self.txs[i].outputs.len() > MAX_POSITIONS {
                assert(!self.txs@[i as int].indexable());
                return false;
            }
            i += 1;
        }
        true
    }

    /// Whether the block holds a transaction with the given id.
    pub fn holds(&self, txid: &Hash256) -> (b: bool)
        ensures
            b == exists|i: int| 0 <= i < self@.txs.len() && (#[trigger] self@.txs[i]).txid == *txid,
    {
        let mut i: usize = 0;
        while i < self.txs.len()
            invariant
                i <= self.txs.len(),
                forall|k: int| 0 <= k < i ==> (#[trigger] self@.txs[k]).txid != *txid,
            decreases self.txs.len() - i,
        {
            if self.txs[i].txid == *txid {
                assert(self@.txs[i as int].txid == *txid);
                return true;
            }
            i += 1;
        }
        false
    }
}

} // verus!

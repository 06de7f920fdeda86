//! The schema of the store: the keys under which facts are filed, their
//! order, and the rows filed under them.
//!
//! Keys are composite. Their order puts each table in one stretch, and within
//! the table of funding rows it puts a fingerprint's rows together, by height
//! and then by position in the block: one ordered scan yields a fingerprint's
//! funding history in chain order.

use vstd::prelude::*;
use crate::hash::Hash256;
use crate::model::{Transaction, TxModel};

verus! {

/// A key of the store.
#[derive(Clone, Copy, Debug, PartialEq, Eq, Structural)]
pub enum Key {
    /// The one row that names the best block indexed so far.
    Tip,
    /// The row of the block with this hash.
    Block(Hash256),
    /// The row of the transaction with this id.
    Tx(Hash256),
    /// An output that pays `fingerprint`, created at `height` by the
    /// transaction at `position` in its block, as its output number `vout`.
    Funding { fingerprint: Hash256, height: u32, position: u32, vout: u32 },
    /// The spending of output `vout` of transaction `txid`.
    Spend { txid: Hash256, vout: u32 },
}

/// A row of the store.
#[derive(Clone, Debug, PartialEq, Eq)]
pub enum Row {
    Tip { hash: Hash256, height: u32 },
    Block { hash: Hash256, height: u32, prev: Hash256 },
    Tx { txid: Hash256, height: u32, position: u32, body: Transaction },
    Funding { fingerprint: Hash256, height: u32, position: u32, vout: u32, txid: Hash256, value: u64 },
    Spend { txid: Hash256, vout: u32, height: u32, position: u32, spender: Hash256 },
}

/// What a row holds.
pub enum RowModel {
    Tip { hash: Hash256, height: u32 },
    Block { hash: Hash256, height: u32, prev: Hash256 },
    Tx { txid: Hash256, height: u32, position: u32, body: TxModel },
    Funding { fingerprint: Hash256, height: u32, position: u32, vout: u32, txid: Hash256, value: u64 },
    Spend { txid: Hash256, vout: u32, height: u32, position: u32, spender: Hash256 },
}

impl View for Row {
    type V = RowModel;

    open spec fn view(&self) -> RowModel {
        match *self {
            Row::Tip { hash, height } => RowModel::Tip { hash, height },
            Row::Block { hash, height, prev } => RowModel::Block { hash, height, prev },
            Row::Tx { txid, height, position, body } => RowModel::Tx {
                txid,
                height,
                position,
                body: body@,
            },
            Row::Funding { fingerprint, height, position, vout, txid, value } => RowModel::Funding {
                fingerprint,
                height,
                position,
                vout,
                txid,
                value,
            },
            Row::Spend { txid, vout, height, position, spender } => RowModel::Spend {
                txid,
                vout,
                height,
                position,
                spender,
            },
        }
    }
}

impl RowModel {
    /// The key under which the row is filed.
    pub open spec fn key(self) -> Key {
        match self {
            RowModel::Tip { .. } => Key::Tip,
            RowModel::Block { hash, .. } => Key::Block(hash),
            RowModel::Tx { txid, .. } => Key::Tx(txid),
            RowModel::Funding { fingerprint, height, position, vout, .. } => Key::Funding {
                fingerprint,
                height,
                position,
                vout,
            },
            RowModel::Spend { txid, vout, .. } => Key::Spend { txid, vout },
        }
    }

    /// The height of the block the row was derived from. The tip row
    /// belongs to no block.
    pub open spec fn block_height(self) -> Option<u32> {
        match self {
            RowModel::Tip { .. } => None,
            RowModel::Block { height, .. } => Some(height),
            RowModel::Tx { height, .. } => Some(height),
            RowModel::Funding { height, .. } => Some(height),
            RowModel::Spend { height, .. } => Some(height),
        }
    }
}

impl Key {
    /// The number of the key's table.
    pub open spec fn table(self) -> int {
        match self {
            Key::Tip => 0,
            Key::Block(_) => 1,
            Key::Tx(_) => 2,
            Key::Funding { .. } => 3,
            Key::Spend { .. } => 4,
        }
    }

    /// The identifier that leads the key within its table.
    pub open spec fn id(self) -> Hash256 {
        match self {
            Key::Tip => Hash256 { w0: 0, w1: 0, w2: 0, w3: 0 },
            Key::Block(h) => h,
            Key::Tx(t) => t,
            Key::Funding { fingerprint, .. } => fingerprint,
            Key::Spend { txid, .. } => txid,
        }
    }

    /// The numbers that follow the identifier.
    pub open spec fn tail(self) -> (int, int, int) {
        match self {
            Key::Funding { height, position, vout, .. } => (height as int, position as int, vout as int),
            Key::Spend { vout, .. } => (vout as int, 0, 0),
            _ => (0, 0, 0),
        }
    }

    /// The strict order of keys: by table, then by identifier, then by the
    /// numbers that follow it.
    pub open spec fn lt(self, other: Key) -> bool {
        let (a0, a1, a2) = self.tail();
        let (b0, b1, b2) = other.tail();
        self.table() < other.table() || (self.table() == other.table() && (self.id().lt(other.id())
            || (self.id() == other.id() && (a0 < b0 || (a0 == b0 && (a1 < b1 || (a1 == b1 && a2
            < b2)))))))
    }

    /// `self` is `other` or comes before it.
    pub open spec fn le(self, other: Key) -> bool {
        self == other || self.lt(other)
    }

    /// The number of the key's table.
    fn table_number(&self) -> (t: u8)
        ensures
            t == self.table(),
    {
        match self {
            Key::Tip => 0,
            Key::Block(_) => 1,
            Key::Tx(_) => 2,
            Key::Funding { .. } => 3,
            Key::Spend { .. } => 4,
        }
    }

    /// The identifier and the numbers of the key.
    fn parts(&self) -> (p: (Hash256, u32, u32, u32))
        ensures
            p.0 == self.id(),
            (p.1 as int, p.2 as int, p.3 as int) == self.tail(),
    {
        match self {
            Key::Tip => (Hash256::zero(), 0, 0, 0),
            Key::Block(h) => (*h, 0, 0, 0),
            Key::Tx(t) => (*t, 0, 0, 0),
            Key::Funding { fingerprint, height, position, vout } => (
                *fingerprint,
                *height,
                *position,
                *vout,
            ),
            Key::Spend { txid, vout } => (*txid, *vout, 0, 0),
        }
    }

    /// Whether `self` comes strictly before `other`.
    pub fn precedes(&self, other: &Key) -> (b: bool)
        ensures
            b == self.lt(*other),
    {
        let ta = self.table_number();
        let tb = other.table_number();
        if ta != tb {
            return ta < tb;
        }
        let (ia, a0, a1, a2) = self.parts();
        let (ib, b0, b1, b2) = other.parts();
        if ia != ib {
            ia.precedes(&ib)
        } else if a0 != b0 {
            a0 < b0
        } else if a1 != b1 {
            a1 < b1
        } else {
            a2 < b2
        }
    }

    /// The first key of a fingerprint's funding rows.
    pub fn funding_first(fingerprint: Hash256) -> (k: Key)
        ensures
            k == (Key::Funding { fingerprint, height: 0, position: 0, vout: 0 }),
    {
        Key::Funding { fingerprint, height: 0, position: 0, vout: 0 }
    }

    /// The last key of a fingerprint's funding rows.
    pub fn funding_last(fingerprint: Hash256) -> (k: Key)
        ensures
            k == (Key::Funding {
                fingerprint,
                height: 0xffff_ffff,
                position: 0xffff_ffff,
                vout: 0xffff_ffff,
            }),
    {
        Key::Funding { fingerprint, height: 0xffff_ffff, position: 0xffff_ffff, vout: 0xffff_ffff }
    }
}

/// No key comes before itself, and of two different keys one comes before
/// the other.
pub proof fn lemma_key_order_total(a: Key, b: Key)
    ensures
        !a.lt(a),
        a.lt(b) || b.lt(a) || a == b,
        !(a.lt(b) && b.lt(a)),
{
}

/// The order of keys is transitive.
pub proof fn lemma_key_order_transitive(a: Key, b: Key, c: Key)
    requires
        a.lt(b),
        b.lt(c),
    ensures
        a.lt(c),
{
}

/// The funding keys between the first and the last key of a fingerprint
/// are those of that fingerprint.
pub proof fn lemma_funding_prefix(fingerprint: Hash256, k: Key)
    ensures
        (Key::Funding { fingerprint, height: 0, position: 0, vout: 0 }).le(k) && k.le(
            Key::Funding {
                fingerprint,
                height: 0xffff_ffff,
                position: 0xffff_ffff,
                vout: 0xffff_ffff,
            },
        ) <==> (k matches Key::Funding { fingerprint: f, .. } && f == fingerprint),
{
}

impl Row {
    /// The key under which the row is filed.
    pub fn key(&self) -> (k: Key)
        ensures
            k == self@.key(),
    {
        match self {
            Row::Tip { .. } => Key::Tip,
            Row::Block { hash, .. } => Key::Block(*hash),
            Row::Tx { txid, .. } => Key::Tx(*txid),
            Row::Funding { fingerprint, height, position, vout, .. } => Key::Funding {
                fingerprint: *fingerprint,
                height: *height,
                position: *position,
                vout: *vout,
            },
            Row::Spend { txid, vout, .. } => Key::Spend { txid: *txid, vout: *vout },
        }
    }

    /// The height of the block the row was derived from, if any.
    pub fn block_height(&self) -> (h: Option<u32>)
        ensures
            h == self@.block_height(),
    {
        match self {
            Row::Tip { .. } => None,
            Row::Block { height, .. } => Some(*height),
            Row::Tx { height, .. } => Some(*height),
            Row::Funding { height, .. } => Some(*height),
            Row::Spend { height, .. } => Some(*height),
        }
    }
}

/// The views of a sequence of rows.
pub open spec fn row_models(rows: Seq<Row>) -> Seq<RowModel> {
    Seq::new(rows.len(), |i: int| rows[i]@)
}

} // verus!

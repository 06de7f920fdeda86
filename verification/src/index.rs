//! Deriving the rows of the index from blocks, and taking them back.
//!
//! A block's rows depend on the block and its height alone, so blocks can be
//! turned into batches in any order and in parallel; only the writing is
//! ordered. Writing a batch again changes nothing.

use vstd::prelude::*;
use crate::hash::Hash256;
use crate::model::{Block, BlockModel, TxModel};
use crate::rows::{Key, Row, RowModel, row_models};
use crate::store::{apply_batch, apply_deletes, apply_puts, BatchModel, Store, WriteBatch};

verus! {

/// The row that records output `i` of a transaction under the fingerprint it pays.
pub open spec fn funding_row(tx: TxModel, height: u32, position: u32, i: int) -> RowModel {
    RowModel::Funding {
        fingerprint: tx.outputs[i].fingerprint,
        height,
        position,
        vout: i as u32,
        txid: tx.txid,
        value: tx.outputs[i].value,
    }
}

/// The row that records input `i` of a transaction under the output it spends.
pub open spec fn spend_row(tx: TxModel, height: u32, position: u32, i: int) -> RowModel {
    RowModel::Spend {
        txid: tx.inputs[i].txid,
        vout: tx.inputs[i].vout,
        height,
        position,
        spender: tx.txid,
    }
}

/// The rows of the first `n` outputs of a transaction.
pub open spec fn funding_rows(tx: TxModel, height: u32, position: u32, n: nat) -> Seq<RowModel> {
    Seq::new(n, |i: int| funding_row(tx, height, position, i))
}

/// The rows of the first `n` inputs of a transaction.
pub open spec fn spend_rows(tx: TxModel, height: u32, position: u32, n: nat) -> Seq<RowModel> {
    Seq::new(n, |i: int| spend_row(tx, height, position, i))
}

/// The rows of a transaction at a place in a block: the transaction itself,
/// one row for each output, one for each input.
pub open spec fn tx_rows(tx: TxModel, height: u32, position: u32) -> Seq<RowModel> {
    seq![RowModel::Tx { txid: tx.txid, height, position, body: tx }] + funding_rows(
        tx,
        height,
        position,
        tx.outputs.len(),
    ) + spend_rows(tx, height, position, tx.inputs.len())
}

/// The rows of the first `n` transactions of a block, in block order.
pub open spec fn txs_rows(txs: Seq<TxModel>, height: u32, n: nat) -> Seq<RowModel>
    decreases n,
{
    if n == 0 {
        Seq::empty()
    } else {
        txs_rows(txs, height, (n - 1) as nat) + tx_rows(txs[n - 1], height, (n - 1) as u32)
    }
}

/// The rows of a block at a height: the block, its transactions' rows in
/// block order, and the tip, which the block becomes.
pub open spec fn block_rows(block: BlockModel, height: u32) -> Seq<RowModel> {
    seq![RowModel::Block { hash: block.hash, height, prev: block.prev }] + txs_rows(
        block.txs,
        height,
        block.txs.len(),
    ) + seq![RowModel::Tip { hash: block.hash, height }]
}

/// The batch that indexes a block at a height.
pub open spec fn block_batch(block: BlockModel, height: u32) -> BatchModel {
    BatchModel { deletes: Seq::empty(), puts: block_rows(block, height) }
}

/// The rows of consecutive blocks, the first of them at height `start`.
pub open spec fn range_rows(blocks: Seq<BlockModel>, start: u32) -> Seq<RowModel>
    decreases blocks.len(),
{
    if blocks.len() == 0 {
        Seq::empty()
    } else {
        range_rows(blocks.drop_last(), start) + block_rows(
            blocks.last(),
            (start + blocks.len() - 1) as u32,
        )
    }
}

/// The map without the rows derived from the block at a height.
pub open spec fn without_height(m: Map<Key, RowModel>, height: u32) -> Map<Key, RowModel> {
    Map::new(|k: Key| m.contains_key(k) && m[k].block_height() != Some(height), |k: Key| m[k])
}

/// The map with its tip row set to the given block, or removed.
pub open spec fn with_tip(
    m: Map<Key, RowModel>,
    tip: Option<(Hash256, u32)>,
) -> Map<Key, RowModel> {
    match tip {
        Some((hash, height)) => m.insert(Key::Tip, RowModel::Tip { hash, height }),
        None => m.remove(Key::Tip),
    }
}

/// The map after the block at `height` was taken back and the tip moved to `tip`.
pub open spec fn retracted(m: Map<Key, RowModel>, height: u32, tip: Option<(Hash256, u32)>) -> Map<
    Key,
    RowModel,
> {
    with_tip(without_height(m, height), tip)
}

/// Every row of a block carries the block's height, but the tip row.
pub proof fn lemma_block_rows_height(block: BlockModel, height: u32, i: int)
    requires
        0 <= i < block_rows(block, height).len(),
    ensures
        block_rows(block, height)[i].block_height() == Some(height) || block_rows(block, height)[i]
            == (RowModel::Tip { hash: block.hash, height }),
{
    let rows = block_rows(block, height);
    let inner = txs_rows(block.txs, height, block.txs.len());
    if 1 <= i < 1 + inner.len() {
        lemma_txs_rows_height(block.txs, height, block.txs.len(), i - 1);
        assert(rows[i] == inner[i - 1]);
    }
}

proof fn lemma_txs_rows_height(txs: Seq<TxModel>, height: u32, n: nat, i: int)
    requires
        0 <= i < txs_rows(txs, height, n).len(),
    ensures
        txs_rows(txs, height, n)[i].block_height() == Some(height),
    decreases n,
{
    if n > 0 {
        let before = txs_rows(txs, height, (n - 1) as nat);
        if i < before.len() {
            lemma_txs_rows_height(txs, height, (n - 1) as nat, i);
        }
    }
}

/// Writing rows one after the other is writing them all.
pub proof fn lemma_apply_puts_concat(m: Map<Key, RowModel>, a: Seq<RowModel>, b: Seq<RowModel>)
    ensures
        apply_puts(m, a + b) == apply_puts(apply_puts(m, a), b),
    decreases b.len(),
{
    if b.len() == 0 {
        assert(a + b =~= a);
    } else {
        lemma_apply_puts_concat(m, a, b.drop_last());
        assert((a + b).drop_last() =~= a + b.drop_last());
        assert((a + b).last() == b.last());
    }
}

/// Writing rows into a map lays the map they make over it.
pub proof fn lemma_apply_puts_overlay(m: Map<Key, RowModel>, rows: Seq<RowModel>)
    ensures
        apply_puts(m, rows) == m.union_prefer_right(apply_puts(Map::empty(), rows)),
    decreases rows.len(),
{
    if rows.len() == 0 {
        assert(m.union_prefer_right(Map::<Key, RowModel>::empty()) =~= m);
    } else {
        lemma_apply_puts_overlay(m, rows.drop_last());
        let p = apply_puts(Map::<Key, RowModel>::empty(), rows.drop_last());
        let r = rows.last();
        assert(m.union_prefer_right(p).insert(r.key(), r) =~= m.union_prefer_right(
            p.insert(r.key(), r),
        ));
    }
}

/// Writing the same rows a second time changes nothing.
pub proof fn lemma_puts_idempotent(m: Map<Key, RowModel>, rows: Seq<RowModel>)
    ensures
        apply_puts(apply_puts(m, rows), rows) == apply_puts(m, rows),
{
    let p = apply_puts(Map::<Key, RowModel>::empty(), rows);
    lemma_apply_puts_overlay(m, rows);
    lemma_apply_puts_overlay(m.union_prefer_right(p), rows);
    assert(m.union_prefer_right(p).union_prefer_right(p) =~= m.union_prefer_right(p));
}

/// Indexing a range of blocks that the store already holds leaves the store
/// as it is: the same rows under the same keys, none twice.
pub proof fn lemma_reindex_idempotent(m: Map<Key, RowModel>, blocks: Seq<BlockModel>, start: u32)
    ensures
        apply_puts(apply_puts(m, range_rows(blocks, start)), range_rows(blocks, start))
            == apply_puts(m, range_rows(blocks, start)),
{
    lemma_puts_idempotent(m, range_rows(blocks, start));
}

/// Indexing one block again leaves the store as it is.
pub proof fn lemma_reindex_block_idempotent(m: Map<Key, RowModel>, block: BlockModel, height: u32)
    ensures
        apply_batch(apply_batch(m, block_batch(block, height)), block_batch(block, height))
            == apply_batch(m, block_batch(block, height)),
{
    lemma_puts_idempotent(m, block_rows(block, height));
}

/// Removing keys one by one removes their set.
pub proof fn lemma_apply_deletes_set(m: Map<Key, RowModel>, keys: Seq<Key>)
    ensures
        apply_deletes(m, keys) == m.remove_keys(keys.to_set()),
    decreases keys.len(),
{
    if keys.len() == 0 {
        assert(m.remove_keys(keys.to_set()) =~= m);
    } else {
        lemma_apply_deletes_set(m, keys.drop_last());
        let d = keys.drop_last();
        assert forall|k: Key| keys.to_set().contains(k) <==> (d.to_set().contains(k) || k
            == keys.last()) by {
            if keys.contains(k) {
                let i = choose|i: int| 0 <= i < keys.len() && keys[i] == k;
                if i < d.len() {
                    assert(d[i] == k);
                }
            }
            if d.contains(k) {
                let i = choose|i: int| 0 <= i < d.len() && d[i] == k;
                assert(keys[i] == k);
            }
            if k == keys.last() {
                assert(keys[keys.len() - 1] == k);
            }
        }
        assert(m.remove_keys(d.to_set()).remove(keys.last()) =~= m.remove_keys(keys.to_set()));
    }
}

/// The batch that indexes a block at a height.
pub fn index_block(block: &Block, height: u32) -> (batch: WriteBatch)
    requires
        block.indexable(),
    ensures
        batch@ == block_batch(block@, height),
{
    let mut puts: Vec<Row> = Vec::new();
    puts.push(Row::Block { hash: block.hash, height, prev: block.prev });
    let ghost head = seq![RowModel::Block { hash: block.hash, height, prev: block.prev }];
    assert(row_models(puts@) =~= head);
    let mut p: usize = 0;
    while p < block.txs.len()
        invariant
            p <= block.txs.len(),
            block.indexable(),
            row_models(puts@) == head + txs_rows(block@.txs, height, p as nat),
        decreases block.txs.len() - p,
    {
        let tx = &block.txs[p];
        let position = p as u32;
        let ghost before = row_models(puts@);
        let ghost model = block@.txs[p as int];
        assert(model == tx@);
        assert(tx.indexable());
        puts.push(Row::Tx { txid: tx.txid, height, position, body: tx.duplicate() });
        let ghost first = seq![RowModel::Tx { txid: model.txid, height, position, body: model }];
        assert(row_models(puts@) =~= before + first);
        let mut i: usize = 0;
        while i < tx.outputs.len()
            invariant
                i <= tx.outputs.len(),
                tx.indexable(),
                model == tx@,
                row_models(puts@) == before + first + funding_rows(model, height, position, i as nat),
            decreases tx.outputs.len() - i,
        {
            let ghost prefix = row_models(puts@);
            puts.push(
                Row::Funding {
                    fingerprint: tx.outputs[i].fingerprint,
                    height,
                    position,
                    vout: i as u32,
                    txid: tx.txid,
                    value: tx.outputs[i].value,
                },
            );
            assert(row_models(puts@) =~= prefix.push(funding_row(model, height, position, i as int)));
            assert(funding_rows(model, height, position, (i + 1) as nat) =~= funding_rows(
                model,
                height,
                position,
                i as nat,
            ).push(funding_row(model, height, position, i as int)));
            i += 1;
        }
        let ghost funded = before + first + funding_rows(model, height, position, model.outputs.len());
        let mut j: usize = 0;
        while j < tx.inputs.len()
            invariant
                j <= tx.inputs.len(),
                tx.indexable(),
                model == tx@,
                row_models(puts@) == funded + spend_rows(model, height, position, j as nat),
            decreases tx.inputs.len() - j,
        {
            let ghost prefix = row_models(puts@);
            puts.push(
                Row::Spend {
                    txid: tx.inputs[j].txid,
                    vout: tx.inputs[j].vout,
                    height,
                    position,
                    spender: tx.txid,
                },
            );
            assert(row_models(puts@) =~= prefix.push(spend_row(model, height, position, j as int)));
            assert(spend_rows(model, height, position, (j + 1) as nat) =~= spend_rows(
                model,
                height,
                position,
                j as nat,
            ).push(spend_row(model, height, position, j as int)));
            j += 1;
        }
        assert(row_models(puts@) =~= head + txs_rows(block@.txs, height, (p + 1) as nat)) by {
            assert(funded + spend_rows(model, height, position, model.inputs.len()) =~= before
                + tx_rows(model, height, position));
        }
        p += 1;
    }
    let ghost body = row_models(puts@);
    puts.push(Row::Tip { hash: block.hash, height });
    assert(row_models(puts@) =~= body + seq![RowModel::Tip { hash: block.hash, height }]);
    assert(block@.txs.len() == block.txs@.len());
    let batch = WriteBatch { deletes: Vec::new(), puts };
    assert(batch@.deletes =~= Seq::<Key>::empty());
    batch
}

/// The batch that takes back the block at `height` and moves the tip to
/// `tip`: it removes every row derived from that block.
pub fn retraction_batch(store: &Store, height: u32, tip: Option<(Hash256, u32)>) -> (batch:
    WriteBatch)
    requires
        store.wf(),
    ensures
        apply_batch(store@, batch@) == retracted(store@, height, tip),
{
    let ghost s = store.ordered();
    let ghost m = store@;
    proof {
        store.lemma_ordered();
    }
    let mut deletes: Vec<Key> = Vec::new();
    let mut i: usize = 0;
    let n = store.len();
    while i < n
        invariant
            i <= n,
            n == s.len(),
            s == store.ordered(),
            forall|k: Key|
                deletes@.contains(k) <==> exists|j: int|
                    0 <= j < i && (#[trigger] s[j]).key() == k && s[j].block_height() == Some(height),
        decreases n - i,
    {
        let row = store.row_at(i);
        if row.block_height() == Some(height) {
            let ghost old_deletes = deletes@;
            let key = row.key();
            deletes.push(key);
            assert forall|k: Key|
                deletes@.contains(k) <==> exists|j: int|
                    0 <= j < i + 1 && (#[trigger] s[j]).key() == k && s[j].block_height() == Some(
                        height,
                    ) by {
                if deletes@.contains(k) {
                    let x = choose|x: int| 0 <= x < deletes@.len() && deletes@[x] == k;
                    if x < old_deletes.len() {
                        assert(old_deletes[x] == k);
                        assert(old_deletes.contains(k));
                    } else {
                        assert(s[i as int].key() == k);
                    }
                }
                if exists|j: int|
                    0 <= j < i + 1 && (#[trigger] s[j]).key() == k && s[j].block_height() == Some(
                        height,
                    ) {
                    let j = choose|j: int|
                        0 <= j < i + 1 && (#[trigger] s[j]).key() == k && s[j].block_height()
                            == Some(height);
                    if j < i {
                        assert(old_deletes.contains(k));
                        let x = choose|x: int| 0 <= x < old_deletes.len() && old_deletes[x] == k;
                        assert(deletes@[x] == k);
                    } else {
                        assert(deletes@[old_deletes.len() as int] == k);
                    }
                }
            }
        }
        i += 1;
    }
    let ghost collected = deletes@;
    let mut puts: Vec<Row> = Vec::new();
    match tip {
        Some((hash, tip_height)) => {
            puts.push(Row::Tip { hash, height: tip_height });
        },
        None => {
            deletes.push(Key::Tip);
        },
    }
    let batch = WriteBatch { deletes, puts };
    proof {
        let keys = batch@.deletes;
        lemma_apply_deletes_set(m, keys);
        let marked = Set::new(
            |k: Key| m.contains_key(k) && m[k].block_height() == Some(height),
        );
        match tip {
            Some((hash, tip_height)) => {
                assert(keys == collected);
                assert forall|k: Key| keys.to_set().contains(k) <==> marked.contains(k) by {
                    if keys.contains(k) {
                        let j = choose|j: int|
                            0 <= j < n && (#[trigger] s[j]).key() == k && s[j].block_height()
                                == Some(height);
                        assert(m[s[j].key()] == s[j]);
                    }
                    if marked.contains(k) {
                        let j = choose|j: int| 0 <= j < s.len() && (#[trigger] s[j]).key() == k;
                        assert(m[s[j].key()] == s[j]);
                    }
                }
                assert(m.remove_keys(keys.to_set()) =~= without_height(m, height));
                let row = RowModel::Tip { hash, height: tip_height };
                assert(batch@.puts =~= seq![row]);
                assert(batch@.puts.drop_last() =~= Seq::<RowModel>::empty());
                assert(apply_puts(without_height(m, height), batch@.puts) == apply_puts(
                    without_height(m, height),
                    Seq::<RowModel>::empty(),
                ).insert(row.key(), row));
            },
            None => {
                let d = keys.drop_last();
                assert(keys.last() == Key::Tip);
                assert(d =~= collected);
                assert forall|k: Key| d.to_set().contains(k) <==> marked.contains(k) by {
                    if d.contains(k) {
                        let j = choose|j: int|
                            0 <= j < n && (#[trigger] s[j]).key() == k && s[j].block_height()
                                == Some(height);
                        assert(m[s[j].key()] == s[j]);
                    }
                    if marked.contains(k) {
                        let j = choose|j: int| 0 <= j < s.len() && (#[trigger] s[j]).key() == k;
                        assert(m[s[j].key()] == s[j]);
                    }
                }
                lemma_apply_deletes_set(m, d);
                assert(m.remove_keys(d.to_set()) =~= without_height(m, height));
                assert(batch@.puts =~= Seq::<RowModel>::empty());
            },
        }
    }
    batch
}

/// Whether the transactions of a block, and what they hold, can be numbered.
pub open spec fn numbered(block: BlockModel) -> bool {
    &&& block.txs.len() <= 0xffff_ffff
    &&& forall|p: int|
        0 <= p < block.txs.len() ==> (#[trigger] block.txs[p]).outputs.len() <= 0xffff_ffff
            && block.txs[p].inputs.len() <= 0xffff_ffff
}

/// Whether a row is one that the transaction at place `p` of a block gives.
pub open spec fn row_of_tx(block: BlockModel, height: u32, p: int, row: RowModel) -> bool {
    let tx = block.txs[p];
    ||| row == (RowModel::Tx { txid: tx.txid, height, position: p as u32, body: tx })
    ||| exists|v: int| 0 <= v < tx.outputs.len() && row == #[trigger] funding_row(tx, height, p as u32, v)
    ||| exists|i: int| 0 <= i < tx.inputs.len() && row == #[trigger] spend_row(tx, height, p as u32, i)
}

/// The rows of the first `n` transactions hold the rows of each of them,
/// and nothing else.
pub proof fn lemma_txs_rows_members(block: BlockModel, height: u32, n: nat, row: RowModel)
    requires
        n <= block.txs.len(),
    ensures
        txs_rows(block.txs, height, n).contains(row) <==> exists|p: int|
            0 <= p < n && #[trigger] row_of_tx(block, height, p, row),
    decreases n,
{
    let all = txs_rows(block.txs, height, n);
    if n == 0 {
        if all.contains(row) {
            let i = choose|i: int| 0 <= i < all.len() && all[i] == row;
        }
    } else {
        let before = txs_rows(block.txs, height, (n - 1) as nat);
        let tx = block.txs[n - 1];
        let own = tx_rows(tx, height, (n - 1) as u32);
        let fund = funding_rows(tx, height, (n - 1) as u32, tx.outputs.len());
        let spend = spend_rows(tx, height, (n - 1) as u32, tx.inputs.len());
        lemma_txs_rows_members(block, height, (n - 1) as nat, row);
        assert(all == before + own);
        if all.contains(row) {
            let i = choose|i: int| 0 <= i < all.len() && all[i] == row;
            if i < before.len() {
                assert(before[i] == row);
                assert(before.contains(row));
                let p = choose|p: int| 0 <= p < n - 1 && #[trigger] row_of_tx(block, height, p, row);
                assert(row_of_tx(block, height, p, row));
            } else {
                let j = i - before.len();
                assert(own[j] == row);
                if j == 0 {
                } else if j < 1 + fund.len() {
                    assert(row == funding_row(tx, height, (n - 1) as u32, j - 1));
                } else {
                    assert(row == spend_row(tx, height, (n - 1) as u32, j - 1 - fund.len()));
                }
                assert(row_of_tx(block, height, n - 1, row));
            }
        }
        if exists|p: int| 0 <= p < n && #[trigger] row_of_tx(block, height, p, row) {
            let p = choose|p: int| 0 <= p < n && #[trigger] row_of_tx(block, height, p, row);
            if p < n - 1 {
                assert(row_of_tx(block, height, p, row));
                assert(before.contains(row));
                let i = choose|i: int| 0 <= i < before.len() && before[i] == row;
                assert(all[i] == row);
            } else {
                if row == (RowModel::Tx { txid: tx.txid, height, position: p as u32, body: tx }) {
                    assert(all[before.len() as int] == row);
                } else if exists|v: int|
                    0 <= v < tx.outputs.len() && row == #[trigger] funding_row(
                        tx,
                        height,
                        p as u32,
                        v,
                    ) {
                    let v = choose|v: int|
                        0 <= v < tx.outputs.len() && row == #[trigger] funding_row(
                            tx,
                            height,
                            p as u32,
                            v,
                        );
                    assert(own[1 + v] == row);
                    assert(all[before.len() + 1 + v] == row);
                } else {
                    let i = choose|i: int|
                        0 <= i < tx.inputs.len() && row == #[trigger] spend_row(
                            tx,
                            height,
                            p as u32,
                            i,
                        );
                    assert(own[1 + fund.len() + i] == row);
                    assert(all[before.len() + 1 + fund.len() + i] == row);
                }
            }
        }
    }
}

/// The rows of a block are the row of the block, the rows of its
/// transactions, and the tip row.
pub proof fn lemma_block_rows_members(block: BlockModel, height: u32, row: RowModel)
    ensures
        block_rows(block, height).contains(row) <==> (row == (RowModel::Block {
            hash: block.hash,
            height,
            prev: block.prev,
        }) || row == (RowModel::Tip { hash: block.hash, height }) || exists|p: int|
            0 <= p < block.txs.len() && #[trigger] row_of_tx(block, height, p, row)),
{
    let rows = block_rows(block, height);
    let inner = txs_rows(block.txs, height, block.txs.len());
    lemma_txs_rows_members(block, height, block.txs.len(), row);
    if rows.contains(row) {
        let i = choose|i: int| 0 <= i < rows.len() && rows[i] == row;
        if 1 <= i < 1 + inner.len() {
            assert(inner[i - 1] == row);
            assert(inner.contains(row));
        }
    }
    if inner.contains(row) {
        let i = choose|i: int| 0 <= i < inner.len() && inner[i] == row;
        assert(rows[1 + i] == row);
    }
    assert(rows[0] == (RowModel::Block { hash: block.hash, height, prev: block.prev }));
    assert(rows[rows.len() - 1] == (RowModel::Tip { hash: block.hash, height }));
}

/// A key of a map that rows were written into holds the last of those rows
/// with that key, or what the map held.
pub proof fn lemma_apply_puts_value(m: Map<Key, RowModel>, rows: Seq<RowModel>, k: Key)
    ensures
        (exists|i: int| 0 <= i < rows.len() && (#[trigger] rows[i]).key() == k) ==> apply_puts(
            m,
            rows,
        ).contains_key(k) && rows.contains(apply_puts(m, rows)[k]) && apply_puts(m, rows)[k].key()
            == k,
        !(exists|i: int| 0 <= i < rows.len() && (#[trigger] rows[i]).key() == k) ==> apply_puts(
            m,
            rows,
        ).contains_key(k) == m.contains_key(k) && (m.contains_key(k) ==> apply_puts(m, rows)[k]
            == m[k]),
    decreases rows.len(),
{
    if rows.len() > 0 {
        let rest = rows.drop_last();
        lemma_apply_puts_value(m, rest, k);
        if rows.last().key() == k {
            assert(rows[rows.len() - 1] == apply_puts(m, rows)[k]);
        } else {
            if exists|i: int| 0 <= i < rows.len() && (#[trigger] rows[i]).key() == k {
                let i = choose|i: int| 0 <= i < rows.len() && (#[trigger] rows[i]).key() == k;
                assert(rest[i].key() == k);
                let found = apply_puts(m, rest)[k];
                assert(rest.contains(found));
                let j = choose|j: int| 0 <= j < rest.len() && rest[j] == found;
                assert(rows[j] == found);
            } else {
                assert forall|i: int| 0 <= i < rest.len() implies (#[trigger] rest[i]).key() != k by {
                    assert(rows[i].key() != k);
                }
            }
        }
    }
}

/// After a block was indexed, each of its outputs is filed under the
/// fingerprint it pays, with the block's height, the transaction's place
/// and id, the output's number and its amount.
pub proof fn lemma_indexed_output(
    m: Map<Key, RowModel>,
    block: BlockModel,
    height: u32,
    p: int,
    v: int,
)
    requires
        numbered(block),
        0 <= p < block.txs.len(),
        0 <= v < block.txs[p].outputs.len(),
    ensures
        apply_batch(m, block_batch(block, height)).contains_key(
            funding_row(block.txs[p], height, p as u32, v).key(),
        ),
        apply_batch(m, block_batch(block, height))[funding_row(
            block.txs[p],
            height,
            p as u32,
            v,
        ).key()] == funding_row(block.txs[p], height, p as u32, v),
{
    let rows = block_rows(block, height);
    let row = funding_row(block.txs[p], height, p as u32, v);
    let k = row.key();
    let m2 = apply_puts(m, rows);
    lemma_block_rows_members(block, height, row);
    assert(row_of_tx(block, height, p, row));
    assert(rows.contains(row));
    let i = choose|i: int| 0 <= i < rows.len() && rows[i] == row;
    assert(rows[i].key() == k);
    lemma_apply_puts_value(m, rows, k);
    let found = m2[k];
    lemma_block_rows_members(block, height, found);
    let q = choose|q: int| 0 <= q < block.txs.len() && #[trigger] row_of_tx(block, height, q, found);
    assert(row_of_tx(block, height, q, found));
    let w = choose|w: int|
        0 <= w < block.txs[q].outputs.len() && found == #[trigger] funding_row(
            block.txs[q],
            height,
            q as u32,
            w,
        );
    assert(q == p && w == v);
}

/// After a block was indexed at a height at which the store held no
/// funding row, every funding row at that height records an output of the
/// block.
pub proof fn lemma_indexed_funding_origin(
    m: Map<Key, RowModel>,
    block: BlockModel,
    height: u32,
    k: Key,
)
    requires
        k matches Key::Funding { height: h, .. } && h == height,
        !m.contains_key(k),
        apply_batch(m, block_batch(block, height)).contains_key(k),
    ensures
        exists|p: int, v: int|
            0 <= p < block.txs.len() && 0 <= v < block.txs[p].outputs.len() && apply_batch(
                m,
                block_batch(block, height),
            )[k] == #[trigger] funding_row(block.txs[p], height, p as u32, v),
{
    let rows = block_rows(block, height);
    let m2 = apply_puts(m, rows);
    lemma_apply_puts_value(m, rows, k);
    let found = m2[k];
    assert(rows.contains(found) && found.key() == k);
    lemma_block_rows_members(block, height, found);
    let p = choose|p: int| 0 <= p < block.txs.len() && #[trigger] row_of_tx(block, height, p, found);
    assert(row_of_tx(block, height, p, found));
    let v = choose|v: int|
        0 <= v < block.txs[p].outputs.len() && found == #[trigger] funding_row(
            block.txs[p],
            height,
            p as u32,
            v,
        );
    assert(found == funding_row(block.txs[p], height, p as u32, v));
}

/// After a block was indexed, the spending of each output that one of its
/// transactions spends is on record, at the block's height and with a
/// transaction of the block as the spender.
pub proof fn lemma_indexed_spend(
    m: Map<Key, RowModel>,
    block: BlockModel,
    height: u32,
    p: int,
    i: int,
)
    requires
        0 <= p < block.txs.len(),
        0 <= i < block.txs[p].inputs.len(),
    ensures
        apply_batch(m, block_batch(block, height)).contains_key(
            Key::Spend { txid: block.txs[p].inputs[i].txid, vout: block.txs[p].inputs[i].vout },
        ),
        apply_batch(m, block_batch(block, height))[Key::Spend {
            txid: block.txs[p].inputs[i].txid,
            vout: block.txs[p].inputs[i].vout,
        }] matches RowModel::Spend { height: h, spender, .. } && h == height && exists|q: int|
            0 <= q < block.txs.len() && (#[trigger] block.txs[q]).txid == spender
                && block.txs[q].spends(block.txs[p].inputs[i]),
{
    let rows = block_rows(block, height);
    let row = spend_row(block.txs[p], height, p as u32, i);
    let k = row.key();
    let m2 = apply_puts(m, rows);
    lemma_block_rows_members(block, height, row);
    assert(row_of_tx(block, height, p, row));
    assert(rows.contains(row));
    let x = choose|x: int| 0 <= x < rows.len() && rows[x] == row;
    assert(rows[x].key() == k);
    lemma_apply_puts_value(m, rows, k);
    let found = m2[k];
    lemma_block_rows_members(block, height, found);
    let q = choose|q: int| 0 <= q < block.txs.len() && #[trigger] row_of_tx(block, height, q, found);
    assert(row_of_tx(block, height, q, found));
    let j = choose|j: int|
        0 <= j < block.txs[q].inputs.len() && found == #[trigger] spend_row(
            block.txs[q],
            height,
            q as u32,
            j,
        );
    assert(block.txs[q].inputs[j] == block.txs[p].inputs[i]);
    assert(block.txs[q].txid == found->Spend_spender);
}

} // verus!

//! Keeping the index in step with the daemon's best chain.
//!
//! The local chain is a list of headers, one for each height. A new block
//! that builds on the tip extends it. Where the daemon's chain has left the
//! local one, the blocks above their last common block are taken back,
//! highest first, and the blocks of the daemon's branch are indexed in
//! their place, lowest first. Each block is one batch.

use vstd::prelude::*;
use crate::hash::Hash256;
use crate::index::{
    block_batch, block_rows, index_block, range_rows, retracted, retraction_batch,
    lemma_apply_puts_concat, lemma_block_rows_height,
};
use crate::mempool::{
    block_holds, lemma_confirmed_leave, lemma_unconfirmed_stay, pool_holds, without_confirmed,
    Mempool,
};
use crate::model::{Block, BlockModel, TxModel, block_models};
use crate::query::{
    confirmed_entry, funding_entry, funding_key_of, row_gives, spend_entry, spend_key,
    HistoryEntry,
};
use crate::rows::{Key, Row, RowModel};
use crate::store::{apply_batch, apply_puts, keyed, Store};

verus! {

/// The links of a block in the chain.
#[derive(Clone, Copy, Debug, PartialEq, Eq, Structural)]
pub struct Header {
    pub hash: Hash256,
    pub prev: Hash256,
}

/// The best block known: its hash and its height, read and written together.
#[derive(Clone, Copy, Debug, PartialEq, Eq, Structural)]
pub struct ChainTip {
    pub hash: Hash256,
    pub height: u32,
}

/// The greatest number of blocks a chain can hold for heights to fit.
pub const MAX_BLOCKS: usize = 0xffff_ffff;

/// Whether each header but the first names the one before it.
pub open spec fn linked(headers: Seq<Header>) -> bool {
    forall|h: int| 0 < h < headers.len() ==> (#[trigger] headers[h]).prev == headers[h - 1].hash
}

/// Whether every row derived from a block lies below the height `len`.
pub open spec fn below(m: Map<Key, RowModel>, len: nat) -> bool {
    forall|k: Key|
        #[trigger] m.contains_key(k) ==> (m[k].block_height() matches Some(h) ==> h < len)
}

/// The tip of a chain of headers.
pub open spec fn tip_of(headers: Seq<Header>) -> Option<(Hash256, u32)> {
    if headers.len() == 0 {
        None
    } else {
        Some((headers.last().hash, (headers.len() - 1) as u32))
    }
}

/// Whether the store's tip row names the tip of the chain.
pub open spec fn tip_recorded(m: Map<Key, RowModel>, headers: Seq<Header>) -> bool {
    match tip_of(headers) {
        None => !m.contains_key(Key::Tip),
        Some((hash, height)) => m.contains_key(Key::Tip) && m[Key::Tip] == (RowModel::Tip {
            hash,
            height,
        }),
    }
}

/// Whether the store and the local chain agree: the chain is linked, the
/// store holds no row above its tip, and the tip row names its tip.
pub open spec fn in_step(m: Map<Key, RowModel>, headers: Seq<Header>) -> bool {
    &&& headers.len() <= MAX_BLOCKS
    &&& linked(headers)
    &&& below(m, headers.len())
    &&& tip_recorded(m, headers)
}

/// The store after the blocks from height `from - 1` down to height `keep`
/// were taken back, highest first.
pub open spec fn retract_down(
    m: Map<Key, RowModel>,
    headers: Seq<Header>,
    from: nat,
    keep: nat,
) -> Map<
    Key,
    RowModel,
>
    decreases from,
{
    if from <= keep {
        m
    } else {
        retract_down(
            retracted(m, (from - 1) as u32, tip_of(headers.take(from - 1))),
            headers,
            (from - 1) as nat,
            keep,
        )
    }
}

/// A branch as it was fetched, newest block first, in chain order.
pub open spec fn chain_order(branch: Seq<BlockModel>) -> Seq<BlockModel> {
    Seq::new(branch.len(), |i: int| branch[branch.len() - 1 - i])
}

/// The headers of blocks.
pub open spec fn headers_of(blocks: Seq<BlockModel>) -> Seq<Header> {
    Seq::new(blocks.len(), |i: int| Header { hash: blocks[i].hash, prev: blocks[i].prev })
}

/// The pool after each of the blocks took out what it confirms.
pub open spec fn confirm_all(pool: Seq<TxModel>, blocks: Seq<BlockModel>) -> Seq<TxModel>
    decreases blocks.len(),
{
    if blocks.len() == 0 {
        pool
    } else {
        without_confirmed(confirm_all(pool, blocks.drop_last()), blocks.last())
    }
}

/// The store after a reorganisation: the blocks from height `keep` up are
/// taken back, and the blocks of the new branch indexed from that height.
pub open spec fn reorganized(
    m: Map<Key, RowModel>,
    headers: Seq<Header>,
    keep: nat,
    blocks: Seq<BlockModel>,
) -> Map<Key, RowModel> {
    apply_puts(retract_down(m, headers, headers.len(), keep), range_rows(blocks, keep as u32))
}

/// A row of a map that rows were written into is one of those rows, or was
/// in the map before.
pub proof fn lemma_apply_puts_origin(m: Map<Key, RowModel>, rows: Seq<RowModel>, k: Key)
    requires
        apply_puts(m, rows).contains_key(k),
    ensures
        (exists|i: int| 0 <= i < rows.len() && #[trigger] rows[i] == apply_puts(m, rows)[k]) || (
        m.contains_key(k) && apply_puts(m, rows)[k] == m[k]),
    decreases rows.len(),
{
    if rows.len() > 0 {
        let rest = rows.drop_last();
        if rows.last().key() == k {
            assert(rows[rows.len() - 1] == apply_puts(m, rows)[k]);
        } else {
            lemma_apply_puts_origin(m, rest, k);
            if exists|i: int| 0 <= i < rest.len() && #[trigger] rest[i] == apply_puts(m, rest)[k] {
                let i = choose|i: int|
                    0 <= i < rest.len() && #[trigger] rest[i] == apply_puts(m, rest)[k];
                assert(rows[i] == apply_puts(m, rows)[k]);
            }
        }
    }
}

/// Every row of a range of blocks carries the height of its block, which
/// is within the range; or it is a tip row.
pub proof fn lemma_range_rows_height(blocks: Seq<BlockModel>, start: u32, i: int)
    requires
        0 <= i < range_rows(blocks, start).len(),
        start + blocks.len() <= MAX_BLOCKS + 1,
    ensures
        match range_rows(blocks, start)[i].block_height() {
            Some(h) => start <= h < start + blocks.len(),
            None => range_rows(blocks, start)[i] is Tip,
        },
    decreases blocks.len(),
{
    if blocks.len() > 0 {
        let before = range_rows(blocks.drop_last(), start);
        if i < before.len() {
            lemma_range_rows_height(blocks.drop_last(), start, i);
        } else {
            lemma_block_rows_height(blocks.last(), (start + blocks.len() - 1) as u32, i - before.len());
        }
    }
}

/// After the blocks down to height `keep` were taken back, no row lies at
/// that height or above, the tip row names the block below, and what lay
/// below is as it was.
pub proof fn lemma_retract_down(m: Map<Key, RowModel>, headers: Seq<Header>, from: nat, keep: nat)
    requires
        keep <= from <= headers.len() <= MAX_BLOCKS,
        below(m, from),
        tip_recorded(m, headers.take(from as int)),
    ensures
        below(retract_down(m, headers, from, keep), keep),
        tip_recorded(retract_down(m, headers, from, keep), headers.take(keep as int)),
        forall|k: Key|
            k != Key::Tip ==> (#[trigger] retract_down(m, headers, from, keep).contains_key(k) <==> (
            m.contains_key(k) && (m[k].block_height() matches Some(h) ==> h < keep))),
        forall|k: Key|
            k != Key::Tip && #[trigger] retract_down(m, headers, from, keep).contains_key(k)
                ==> retract_down(m, headers, from, keep)[k] == m[k],
    decreases from,
{
    if from > keep {
        let next = retracted(m, (from - 1) as u32, tip_of(headers.take(from - 1)));
        assert(headers.take(from - 1).take(from - 1) =~= headers.take(from - 1));
        assert(below(next, (from - 1) as nat)) by {
            assert forall|k: Key| #[trigger] next.contains_key(k) implies (
            next[k].block_height() matches Some(h) ==> h < from - 1) by {
                if k != Key::Tip {
                    assert(m.contains_key(k));
                }
            }
        }
        lemma_retract_down(next, headers, (from - 1) as nat, keep);
        let last = retract_down(m, headers, from, keep);
        assert(last == retract_down(next, headers, (from - 1) as nat, keep));
        assert forall|k: Key| k != Key::Tip implies (#[trigger] last.contains_key(k) <==> (
        m.contains_key(k) && (m[k].block_height() matches Some(h) ==> h < keep))) by {
            if m.contains_key(k) {
                assert(m[k].block_height() matches Some(h) ==> h < from);
            }
            assert(next.contains_key(k) <==> (m.contains_key(k) && m[k].block_height() != Some(
                (from - 1) as u32,
            )));
        }
    }
}

/// After a reorganisation the store holds, at the heights of the new branch
/// and above, only rows of the new branch; its tip row names the branch's
/// last block; and a row below, whose key the branch did not write, is as
/// it was.
pub proof fn lemma_reorg_correct(
    m: Map<Key, RowModel>,
    headers: Seq<Header>,
    keep: nat,
    blocks: Seq<BlockModel>,
)
    requires
        in_step(m, headers),
        keep <= headers.len(),
        keep + blocks.len() <= MAX_BLOCKS + 1,
    ensures
        forall|k: Key|
            #[trigger] reorganized(m, headers, keep, blocks).contains_key(k) && (reorganized(
                m,
                headers,
                keep,
                blocks,
            )[k].block_height() matches Some(h) && h >= keep) ==> range_rows(
                blocks,
                keep as u32,
            ).contains(reorganized(m, headers, keep, blocks)[k]),
        below(reorganized(m, headers, keep, blocks), keep + blocks.len()),
        blocks.len() > 0 ==> reorganized(m, headers, keep, blocks).contains_key(Key::Tip)
            && reorganized(m, headers, keep, blocks)[Key::Tip] == (RowModel::Tip {
            hash: blocks.last().hash,
            height: (keep + blocks.len() - 1) as u32,
        }),
        blocks.len() == 0 ==> tip_recorded(reorganized(m, headers, keep, blocks), headers.take(keep as int)),
        forall|k: Key|
            k != Key::Tip && #[trigger] m.contains_key(k) && (m[k].block_height() matches Some(h)
                ==> h < keep) && !(exists|i: int|
                0 <= i < range_rows(blocks, keep as u32).len() && (#[trigger] range_rows(
                    blocks,
                    keep as u32,
                )[i]).key() == k) ==> reorganized(m, headers, keep, blocks).contains_key(k)
                && reorganized(m, headers, keep, blocks)[k] == m[k],
{
    let rows = range_rows(blocks, keep as u32);
    let m1 = retract_down(m, headers, headers.len(), keep);
    let m2 = reorganized(m, headers, keep, blocks);
    assert(headers.take(headers.len() as int) =~= headers);
    lemma_retract_down(m, headers, headers.len(), keep);
    assert forall|k: Key| #[trigger] m2.contains_key(k) implies ((m2[k].block_height() matches Some(h)
        && h >= keep) ==> rows.contains(m2[k])) && (m2[k].block_height() matches Some(h) ==> h
        < keep + blocks.len()) by {
        lemma_apply_puts_origin(m1, rows, k);
        if exists|i: int| 0 <= i < rows.len() && #[trigger] rows[i] == m2[k] {
            let i = choose|i: int| 0 <= i < rows.len() && #[trigger] rows[i] == m2[k];
            lemma_range_rows_height(blocks, keep as u32, i);
        } else {
            assert(m1.contains_key(k));
        }
    }
    if blocks.len() > 0 {
        let last = block_rows(blocks.last(), (keep + blocks.len() - 1) as u32);
        assert(rows.last() == last.last());
    }
    assert forall|k: Key|
        k != Key::Tip && #[trigger] m.contains_key(k) && (m[k].block_height() matches Some(h) ==> h
            < keep) && !(exists|i: int| 0 <= i < rows.len() && (#[trigger] rows[i]).key() == k)
        implies m2.contains_key(k)
        && m2[k] == m[k] by {
        assert(m1.contains_key(k));
        lemma_apply_puts_untouched(m1, rows, k);
    }
}

/// After a reorganisation, a confirmed entry of any fingerprint's history
/// at a height of the new branch comes from a row of the new branch: the
/// funding row of an output that a block of the branch created, or the
/// spend row of an input of a transaction of the branch.
pub proof fn lemma_reorg_history(
    m: Map<Key, RowModel>,
    headers: Seq<Header>,
    keep: nat,
    blocks: Seq<BlockModel>,
    fingerprint: Hash256,
    e: HistoryEntry,
)
    requires
        in_step(m, headers),
        keep <= headers.len(),
        keep + blocks.len() <= MAX_BLOCKS + 1,
        confirmed_entry(reorganized(m, headers, keep, blocks), fingerprint, e),
        e.height matches Some(h) && h >= keep,
    ensures
        exists|i: int|
            0 <= i < range_rows(blocks, keep as u32).len() && ({
                let row = #[trigger] range_rows(blocks, keep as u32)[i];
                (row is Funding && funding_entry(fingerprint, row) == e) || (row is Spend
                    && spend_entry(fingerprint, row) == e)
            }),
{
    let m2 = reorganized(m, headers, keep, blocks);
    let rows = range_rows(blocks, keep as u32);
    lemma_reorg_correct(m, headers, keep, blocks);
    let k = choose|k: Key|
        #[trigger] m2.contains_key(k) && funding_key_of(k, fingerprint) && row_gives(
            m2,
            fingerprint,
            m2[k],
            e,
        );
    let row = m2[k];
    if funding_entry(fingerprint, row) == e {
        assert(rows.contains(row));
        let i = choose|i: int| 0 <= i < rows.len() && rows[i] == row;
        assert(rows[i] is Funding && funding_entry(fingerprint, rows[i]) == e);
    } else {
        let sk = spend_key(row);
        let spend = m2[sk];
        assert(m2.contains_key(sk) && spend is Spend && spend_entry(fingerprint, spend) == e);
        assert(rows.contains(spend));
        let i = choose|i: int| 0 <= i < rows.len() && rows[i] == spend;
        assert(rows[i] is Spend && spend_entry(fingerprint, rows[i]) == e);
    }
}

/// Writing rows leaves a key that none of them carries as it was.
pub proof fn lemma_apply_puts_untouched(m: Map<Key, RowModel>, rows: Seq<RowModel>, k: Key)
    requires
        !(exists|i: int| 0 <= i < rows.len() && (#[trigger] rows[i]).key() == k),
    ensures
        apply_puts(m, rows).contains_key(k) == m.contains_key(k),
        m.contains_key(k) ==> apply_puts(m, rows)[k] == m[k],
    decreases rows.len(),
{
    if rows.len() > 0 {
        let rest = rows.drop_last();
        assert(rows[rows.len() - 1].key() != k);
        assert forall|i: int| 0 <= i < rest.len() implies (#[trigger] rest[i]).key() != k by {
            assert(rows[i].key() != k);
        }
        lemma_apply_puts_untouched(m, rest, k);
    }
}

/// A transaction that one of the blocks confirms is gone from the pool
/// once the blocks took out what they confirm.
pub proof fn lemma_confirm_all_leave(
    pool: Seq<TxModel>,
    blocks: Seq<BlockModel>,
    i: int,
    txid: Hash256,
)
    requires
        0 <= i < blocks.len(),
        block_holds(blocks[i], txid),
    ensures
        !pool_holds(confirm_all(pool, blocks), txid),
    decreases blocks.len(),
{
    let rest = confirm_all(pool, blocks.drop_last());
    if i == blocks.len() - 1 {
        lemma_confirmed_leave(rest, blocks.last(), txid);
    } else {
        lemma_confirm_all_leave(pool, blocks.drop_last(), i, txid);
        if block_holds(blocks.last(), txid) {
            lemma_confirmed_leave(rest, blocks.last(), txid);
        } else {
            lemma_unconfirmed_stay(rest, blocks.last(), txid);
        }
    }
}

/// Takes the block at the tip back: removes its rows in one batch, moves
/// the tip row to the block below, and drops its header.
pub fn retract_tip(headers: &mut Vec<Header>, store: &mut Store)
    requires
        old(store).wf(),
        in_step(old(store)@, old(headers)@),
        old(headers)@.len() > 0,
    ensures
        final(store).wf(),
        final(headers)@ == old(headers)@.drop_last(),
        final(store)@ == retracted(
            old(store)@,
            (old(headers)@.len() - 1) as u32,
            tip_of(old(headers)@.drop_last()),
        ),
        in_step(final(store)@, final(headers)@),
{
    let ghost m = store@;
    let ghost hs = headers@;
    let n = headers.len();
    let height = (n - 1) as u32;
    let tip = if n >= 2 {
        Some((headers[n - 2].hash, (n - 2) as u32))
    } else {
        None
    };
    assert(tip == tip_of(hs.drop_last()));
    let batch = retraction_batch(store, height, tip);
    store.write(batch);
    headers.pop();
    proof {
        assert(hs.take(n as int) =~= hs);
        assert(hs.take(n - 1) =~= hs.drop_last());
        lemma_retract_down(m, hs, n as nat, (n - 1) as nat);
        assert(retract_down(m, hs, n as nat, (n - 1) as nat) == store@) by {
            assert(retract_down(store@, hs, (n - 1) as nat, (n - 1) as nat) == store@);
        }
    }
}

/// Indexes a block on top of the chain: writes its rows in one batch,
/// records its header, and drops from the pool what it confirms.
pub fn connect(headers: &mut Vec<Header>, store: &mut Store, pool: &mut Mempool, block: &Block)
    requires
        old(store).wf(),
        old(pool).wf(),
        in_step(old(store)@, old(headers)@),
        old(headers)@.len() < MAX_BLOCKS,
        block.indexable(),
        old(headers)@.len() > 0 ==> block.prev == old(headers)@.last().hash,
    ensures
        final(store).wf(),
        final(pool).wf(),
        final(headers)@ == old(headers)@.push(Header { hash: block.hash, prev: block.prev }),
        final(store)@ == apply_batch(old(store)@, block_batch(block@, old(headers)@.len() as u32)),
        final(pool)@ == without_confirmed(old(pool)@, block@),
        final(pool).stale(),
        forall|txid: Hash256| block_holds(block@, txid) ==> !pool_holds(final(pool)@, txid),
        in_step(final(store)@, final(headers)@),
{
    let ghost m = store@;
    let ghost hs = headers@;
    let height = headers.len() as u32;
    let batch = index_block(block, height);
    store.write(batch);
    headers.push(Header { hash: block.hash, prev: block.prev });
    pool.confirm(block);
    proof {
        let rows = block_rows(block@, height);
        assert(store@ == apply_puts(m, rows));
        assert forall|k: Key| #[trigger] store@.contains_key(k) implies (
        store@[k].block_height() matches Some(h) ==> h < hs.len() + 1) by {
            lemma_apply_puts_origin(m, rows, k);
            if exists|i: int| 0 <= i < rows.len() && #[trigger] rows[i] == store@[k] {
                let i = choose|i: int| 0 <= i < rows.len() && #[trigger] rows[i] == store@[k];
                lemma_block_rows_height(block@, height, i);
            }
        }
        assert(rows.last() == (RowModel::Tip { hash: block.hash, height }));
    }
}

/// Takes back the blocks from the tip down to height `keep`, highest
/// first, each in one batch.
pub fn retract_to(headers: &mut Vec<Header>, store: &mut Store, keep: usize)
    requires
        old(store).wf(),
        in_step(old(store)@, old(headers)@),
        keep <= old(headers)@.len(),
    ensures
        final(store).wf(),
        final(headers)@ == old(headers)@.take(keep as int),
        final(store)@ == retract_down(
            old(store)@,
            old(headers)@,
            old(headers)@.len(),
            keep as nat,
        ),
        in_step(final(store)@, final(headers)@),
{
    let ghost m0 = store@;
    let ghost hs = headers@;
    proof {
        assert(hs.take(hs.len() as int) =~= hs);
    }
    while headers.len() > keep
        invariant
            keep <= headers@.len() <= hs.len(),
            headers@ == hs.take(headers@.len() as int),
            store.wf(),
            in_step(store@, headers@),
            retract_down(store@, hs, headers@.len() as nat, keep as nat) == retract_down(
                m0,
                hs,
                hs.len(),
                keep as nat,
            ),
        decreases headers@.len(),
    {
        let ghost n = headers@.len();
        retract_tip(headers, store);
        proof {
            assert(hs.take(n as int).drop_last() =~= hs.take(n - 1));
        }
    }
    proof {
        assert(retract_down(store@, hs, keep as nat, keep as nat) == store@);
    }
}

/// Whether each block of a branch, given newest first, builds on the one
/// after it, and the oldest on the given hash.
pub open spec fn builds_on(branch: Seq<Block>, base: Option<Hash256>) -> bool {
    &&& forall|i: int|
        0 <= i < branch.len() - 1 ==> (#[trigger] branch[i]).prev == branch[i + 1].hash
    &&& (base is Some && branch.len() > 0 ==> branch.last().prev == base->0)
}

/// A branch given newest first is, in chain order, a chain of blocks each
/// building on the one before it.
pub proof fn lemma_chain_order_links(branch: Seq<Block>, base: Option<Hash256>)
    requires
        builds_on(branch, base),
    ensures
        chain_order(block_models(branch)).len() == branch.len(),
        forall|j: int|
            0 <= j < branch.len() ==> (#[trigger] branch[j])@ == chain_order(block_models(branch))[
                branch.len() - 1 - j],
        forall|j: int|
            0 < j < branch.len() ==> (#[trigger] chain_order(block_models(branch))[j]).prev
                == chain_order(block_models(branch))[j - 1].hash,
        base is Some && branch.len() > 0 ==> chain_order(block_models(branch))[0].prev == base->0,
{
    let n = branch.len();
    let models = block_models(branch);
    let blocks = chain_order(models);
    assert forall|j: int| 0 <= j < n implies (#[trigger] branch[j])@ == blocks[n - 1 - j] by {
        assert(models[j] == branch[j]@);
    }
    assert forall|j: int| 0 < j < n implies (#[trigger] blocks[j]).prev == blocks[j - 1].hash by {
        assert(branch[n - 1 - j].prev == branch[n - 1 - j + 1].hash);
        assert(models[n - 1 - j] == branch[n - 1 - j]@);
        assert(models[n - j] == branch[n - j]@);
    }
    if base is Some && n > 0 {
        assert(models[n - 1] == branch[n - 1]@);
    }
}

/// Before any block of a branch is connected, nothing has changed.
proof fn lemma_nothing_connected(
    m: Map<Key, RowModel>,
    hs: Seq<Header>,
    pool: Seq<TxModel>,
    blocks: Seq<BlockModel>,
    start: u32,
)
    ensures
        hs == hs + headers_of(blocks.take(0)),
        m == apply_puts(m, range_rows(blocks.take(0), start)),
        pool == confirm_all(pool, blocks.take(0)),
{
    let none = blocks.take(0);
    assert(none =~= Seq::<BlockModel>::empty());
    assert(headers_of(none) =~= Seq::<Header>::empty());
    assert(hs =~= hs + headers_of(none));
    assert(range_rows(none, start) =~= Seq::<RowModel>::empty());
}

/// Connecting one more block of a branch extends what was connected.
proof fn lemma_one_more_connected(
    m: Map<Key, RowModel>,
    hs: Seq<Header>,
    pool: Seq<TxModel>,
    blocks: Seq<BlockModel>,
    keep: nat,
    done: int,
)
    requires
        0 <= done < blocks.len(),
        keep + blocks.len() <= MAX_BLOCKS,
    ensures
        hs + headers_of(blocks.take(done + 1)) == (hs + headers_of(blocks.take(done))).push(
            Header { hash: blocks[done].hash, prev: blocks[done].prev },
        ),
        apply_puts(m, range_rows(blocks.take(done + 1), keep as u32)) == apply_batch(
            apply_puts(m, range_rows(blocks.take(done), keep as u32)),
            block_batch(blocks[done], (keep + done) as u32),
        ),
        confirm_all(pool, blocks.take(done + 1)) == without_confirmed(
            confirm_all(pool, blocks.take(done)),
            blocks[done],
        ),
{
    let prefix = blocks.take(done);
    let next = blocks.take(done + 1);
    assert(next.drop_last() =~= prefix);
    assert(next.last() == blocks[done]);
    lemma_apply_puts_concat(
        m,
        range_rows(prefix, keep as u32),
        block_rows(blocks[done], (keep + done) as u32),
    );
    assert(hs + headers_of(next) =~= (hs + headers_of(prefix)).push(
        Header { hash: blocks[done].hash, prev: blocks[done].prev },
    ));
}

/// Indexes the blocks of a branch, given newest first, on top of the chain,
/// lowest first, each in one batch. The transactions that the blocks
/// confirm leave the pool.
#[verifier::spinoff_prover]
pub fn connect_all(
    headers: &mut Vec<Header>,
    store: &mut Store,
    pool: &mut Mempool,
    branch: Vec<Block>,
)
    requires
        old(store).wf(),
        old(pool).wf(),
        in_step(old(store)@, old(headers)@),
        old(headers)@.len() + branch@.len() <= MAX_BLOCKS,
        forall|i: int| 0 <= i < branch@.len() ==> (#[trigger] branch@[i]).indexable(),
        builds_on(
            branch@,
            if old(headers)@.len() > 0 {
                Some(old(headers)@.last().hash)
            } else {
                None
            },
        ),
    ensures
        final(store).wf(),
        final(pool).wf(),
        final(store)@ == apply_puts(
            old(store)@,
            range_rows(chain_order(block_models(branch@)), old(headers)@.len() as u32),
        ),
        final(headers)@ == old(headers)@ + headers_of(chain_order(block_models(branch@))),
        final(pool)@ == confirm_all(old(pool)@, chain_order(block_models(branch@))),
        branch@.len() > 0 ==> final(pool).stale(),
        branch@.len() == 0 ==> final(pool).stale() == old(pool).stale(),
        in_step(final(store)@, final(headers)@),
{
    let ghost m1 = store@;
    let ghost hs = headers@;
    let ghost p0 = pool@;
    let ghost blocks = chain_order(block_models(branch@));
    let ghost n = branch@.len();
    let ghost keep = hs.len();
    let mut rest = branch;
    proof {
        lemma_chain_order_links(
            rest@,
            if hs.len() > 0 {
                Some(hs.last().hash)
            } else {
                None
            },
        );
        lemma_nothing_connected(m1, hs, p0, blocks, keep as u32);
    }
    while rest.len() > 0
        invariant
            rest@.len() <= n,
            n == blocks.len(),
            keep == hs.len(),
            keep + n <= MAX_BLOCKS,
            store.wf(),
            pool.wf(),
            in_step(store@, headers@),
            forall|j: int| 0 <= j < rest@.len() ==> (#[trigger] rest@[j])@ == blocks[n - 1 - j],
            forall|j: int| 0 <= j < rest@.len() ==> (#[trigger] rest@[j]).indexable(),
            forall|j: int| 0 < j < n ==> (#[trigger] blocks[j]).prev == blocks[j - 1].hash,
            keep > 0 && n > 0 ==> blocks[0].prev == hs.last().hash,
            headers@ == hs + headers_of(blocks.take(n - rest@.len())),
            store@ == apply_puts(m1, range_rows(blocks.take(n - rest@.len()), keep as u32)),
            pool@ == confirm_all(p0, blocks.take(n - rest@.len())),
            rest@.len() < n ==> pool.stale(),
            rest@.len() == n ==> pool.stale() == old(pool).stale(),
        decreases rest.len(),
    {
        let ghost done = n - rest@.len();
        let block = rest.pop().unwrap();
        assert(block@ == blocks[done]);
        proof {
            assert(headers@.len() == keep + done);
            if headers@.len() > 0 {
                if done == 0 {
                    assert(headers@.last() == hs.last());
                } else {
                    assert(headers@.last() == headers_of(blocks.take(done))[done - 1]);
                    assert(headers@.last().hash == blocks[done - 1].hash);
                }
            }
        }
        proof {
            lemma_one_more_connected(m1, hs, p0, blocks, keep, done);
        }
        connect(headers, store, pool, &block);
    }
    proof {
        assert(blocks.take(n as int) =~= blocks);
    }
}

/// Replaces the blocks from height `keep` up by the blocks of a branch,
/// given newest first: takes the old blocks back, highest first, then
/// indexes the new ones, lowest first, each in one batch. The transactions
/// that the new blocks confirm leave the pool.
pub fn reorganize(
    headers: &mut Vec<Header>,
    store: &mut Store,
    pool: &mut Mempool,
    keep: usize,
    branch: Vec<Block>,
)
    requires
        old(store).wf(),
        old(pool).wf(),
        in_step(old(store)@, old(headers)@),
        keep <= old(headers)@.len(),
        keep + branch@.len() <= MAX_BLOCKS,
        forall|i: int| 0 <= i < branch@.len() ==> (#[trigger] branch@[i]).indexable(),
        builds_on(
            branch@,
            if keep > 0 {
                Some(old(headers)@[keep - 1].hash)
            } else {
                None
            },
        ),
    ensures
        final(store).wf(),
        final(pool).wf(),
        final(store)@ == reorganized(
            old(store)@,
            old(headers)@,
            keep as nat,
            chain_order(block_models(branch@)),
        ),
        final(headers)@ == old(headers)@.take(keep as int) + headers_of(
            chain_order(block_models(branch@)),
        ),
        final(pool)@ == confirm_all(old(pool)@, chain_order(block_models(branch@))),
        branch@.len() > 0 ==> final(pool).stale(),
        branch@.len() == 0 ==> final(pool).stale() == old(pool).stale(),
        in_step(final(store)@, final(headers)@),
{
    retract_to(headers, store, keep);
    connect_all(headers, store, pool, branch);
}

/// What the tracker asks for next.
#[derive(Clone, Copy, Debug, PartialEq, Eq, Structural)]
pub enum Step {
    /// The daemon's best block is the local tip: nothing to do until the next poll.
    Idle,
    /// Fetch the block with this hash and offer it.
    Fetch(Hash256),
    /// The way from the local chain to the daemon's best block is known: apply it.
    Apply,
    /// The daemon's answer did not fit what was asked: start over at the next poll.
    Retry,
    /// The daemon's branch left the local chain further back than the
    /// tracker is allowed to follow.
    TooDeep,
}

/// Whether `r` is where the hash is found in the chain, looking from the
/// tip back over at most `window` blocks below it: the highest such place,
/// or nowhere.
pub open spec fn located(
    headers: Seq<Header>,
    hash: Hash256,
    window: nat,
    r: Option<usize>,
) -> bool {
    match r {
        Some(h) => {
            &&& h < headers.len()
            &&& headers.len() - h <= window + 1
            &&& headers[h as int].hash == hash
            &&& forall|j: int| h < j < headers.len() ==> (#[trigger] headers[j]).hash != hash
        },
        None => forall|j: int|
            0 <= j < headers.len() && headers.len() - j <= window + 1 ==> (#[trigger] headers[j]).hash
                != hash,
    }
}

/// Follows the daemon's best chain: decides, from the hashes and blocks
/// the daemon reports, which block to fetch next and when the local chain
/// can be brought in step.
pub struct Tracker {
    headers: Vec<Header>,
    branch: Vec<Block>,
    expect: Option<Hash256>,
    keep: Option<usize>,
    max_depth: usize,
}

/// Whether `after` and `step` are what a tracker in the state `before`
/// comes to when it is told the hash of the daemon's best block.
pub open spec fn observed(before: Tracker, best: Hash256, after: Tracker, step: Step) -> bool {
    &&& after.wf()
    &&& after.chain() == before.chain()
    &&& after.depth() == before.depth()
    &&& after.fetched() == Seq::<Block>::empty()
    &&& match step {
        Step::Idle => {
            &&& located(before.chain(), best, before.depth(), Some((before.chain().len() - 1) as usize))
            &&& after.expecting() is None
            &&& after.fork() is None
        },
        Step::Apply => {
            &&& after.fork() matches Some(k)
            &&& 0 < k < before.chain().len()
            &&& located(before.chain(), best, before.depth(), Some((k - 1) as usize))
            &&& after.expecting() is None
        },
        Step::Fetch(hash) => {
            &&& hash == best
            &&& located(before.chain(), best, before.depth(), None)
            &&& after.expecting() == Some(best)
            &&& after.fork() is None
        },
        Step::Retry => false,
        Step::TooDeep => false,
    }
}

/// Whether `after` and `step` are what a tracker in the state `before`
/// comes to when it is offered a block.
pub open spec fn offered(before: Tracker, block: Block, after: Tracker, step: Step) -> bool {
    &&& after.wf()
    &&& after.chain() == before.chain()
    &&& after.depth() == before.depth()
    &&& match step {
        Step::Retry => {
            &&& (before.expecting() != Some(block.hash) || !block.indexable() || before.fetched().len()
                >= before.depth() || before.chain().len() + before.fetched().len() >= MAX_BLOCKS)
            &&& after.fetched() == Seq::<Block>::empty()
            &&& after.expecting() is None
            &&& after.fork() is None
        },
        Step::Apply => {
            &&& before.expecting() == Some(block.hash)
            &&& block.indexable()
            &&& before.fetched().len() < before.depth()
            &&& before.chain().len() + before.fetched().len() < MAX_BLOCKS
            &&& after.fetched().len() == before.fetched().len() + 1
            &&& after.fetched().last()@ == block@
            &&& after.fetched().drop_last() == before.fetched()
            &&& after.expecting() is None
            &&& after.fork() matches Some(k)
            &&& if k > 0 {
                located(before.chain(), block.prev, before.depth(), Some((k - 1) as usize))
            } else {
                before.chain().len() == 0 && block.prev == (Hash256 { w0: 0, w1: 0, w2: 0, w3: 0 })
            }
        },
        Step::TooDeep => {
            &&& before.expecting() == Some(block.hash)
            &&& block.indexable()
            &&& before.fetched().len() < before.depth()
            &&& before.chain().len() + before.fetched().len() < MAX_BLOCKS
            &&& located(before.chain(), block.prev, before.depth(), None)
            &&& !(before.chain().len() == 0 && block.prev == (Hash256 { w0: 0, w1: 0, w2: 0, w3: 0 }))
            &&& before.fetched().len() + 1 >= before.depth()
            &&& after.fetched() == Seq::<Block>::empty()
            &&& after.expecting() is None
            &&& after.fork() is None
        },
        Step::Fetch(hash) => {
            &&& before.expecting() == Some(block.hash)
            &&& block.indexable()
            &&& before.chain().len() + before.fetched().len() < MAX_BLOCKS
            &&& hash == block.prev
            &&& located(before.chain(), block.prev, before.depth(), None)
            &&& !(before.chain().len() == 0 && block.prev == (Hash256 { w0: 0, w1: 0, w2: 0, w3: 0 }))
            &&& before.fetched().len() + 1 < before.depth()
            &&& after.fetched().len() == before.fetched().len() + 1
            &&& after.fetched().last()@ == block@
            &&& after.fetched().drop_last() == before.fetched()
            &&& after.expecting() == Some(block.prev)
            &&& after.fork() is None
        },
        Step::Idle => false,
    }
}

impl Tracker {
    /// The local chain: the header at each height.
    pub closed spec fn chain(&self) -> Seq<Header> {
        self.headers@
    }

    /// The blocks of the daemon's branch fetched so far, newest first.
    pub closed spec fn fetched(&self) -> Seq<Block> {
        self.branch@
    }

    /// The hash of the block that the tracker waits for.
    pub closed spec fn expecting(&self) -> Option<Hash256> {
        self.expect
    }

    /// The number of local blocks that stay when the fetched branch is
    /// applied; set once the branch reaches the local chain.
    pub closed spec fn fork(&self) -> Option<usize> {
        self.keep
    }

    /// The greatest number of blocks the tracker follows a branch back.
    pub closed spec fn depth(&self) -> nat {
        self.max_depth as nat
    }

    /// The tracker's invariant.
    pub closed spec fn wf(&self) -> bool {
        &&& self.headers@.len() <= MAX_BLOCKS
        &&& self.branch@.len() <= self.max_depth
        &&& forall|i: int| 0 <= i < self.branch@.len() ==> (#[trigger] self.branch@[i]).indexable()
        &&& builds_on(self.branch@, self.expect)
        &&& (self.expect is Some ==> self.keep is None)
        &&& (self.expect is None && self.keep is None ==> self.branch@.len() == 0)
        &&& match self.keep {
            Some(k) => {
                &&& k <= self.headers@.len()
                &&& k + self.branch@.len() <= MAX_BLOCKS
                &&& builds_on(
                    self.branch@,
                    if k > 0 {
                        Some(self.headers@[k - 1].hash)
                    } else {
                        None
                    },
                )
            },
            None => true,
        }
    }

    /// A tracker with an empty local chain.
    pub fn new(max_depth: usize) -> (t: Tracker)
        ensures
            t.wf(),
            t.chain() == Seq::<Header>::empty(),
            t.fetched() == Seq::<Block>::empty(),
            t.expecting() is None,
            t.fork() is None,
            t.depth() == max_depth,
    {
        Tracker { headers: Vec::new(), branch: Vec::new(), expect: None, keep: None, max_depth }
    }

    /// The local tip, if the local chain has a block.
    pub fn tip(&self) -> (r: Option<ChainTip>)
        requires
            self.wf(),
        ensures
            match r {
                Some(t) => tip_of(self.chain()) == Some((t.hash, t.height)),
                None => self.chain().len() == 0,
            },
    {
        let n = self.headers.len();
        if n == 0 {
            None
        } else {
            Some(ChainTip { hash: self.headers[n - 1].hash, height: (n - 1) as u32 })
        }
    }

    /// Whether the way to the daemon's best block is known and can be applied.
    pub fn is_ready(&self) -> (b: bool)
        ensures
            b == self.fork() is Some,
    {
        self.keep.is_some()
    }

    /// The number of blocks of the local chain.
    pub fn height(&self) -> (n: usize)
        ensures
            n == self.chain().len(),
    {
        self.headers.len()
    }

    /// Where the hash is found in the local chain, looking from the tip
    /// back as far as the tracker follows a branch.
    pub fn find_local(&self, hash: &Hash256) -> (r: Option<usize>)
        ensures
            located(self.chain(), *hash, self.depth(), r),
    {
        let n = self.headers.len();
        let mut j: usize = n;
        while j > 0 && n - j <= self.max_depth
            invariant
                j <= n,
                n == self.headers@.len(),
                forall|i: int| j <= i < n ==> (#[trigger] self.headers@[i]).hash != *hash,
            decreases j,
        {
            j -= 1;
            if self.headers[j].hash == *hash {
                return Some(j);
            }
        }
        None
    }

    /// Forgets the branch fetched so far.
    fn reset(&mut self)
        requires
            old(self).headers@.len() <= MAX_BLOCKS,
        ensures
            final(self).wf(),
            final(self).chain() == old(self).chain(),
            final(self).depth() == old(self).depth(),
            final(self).fetched() == Seq::<Block>::empty(),
            final(self).expecting() is None,
            final(self).fork() is None,
    {
        self.branch = Vec::new();
        self.expect = None;
        self.keep = None;
    }

    /// Starts a round with the hash of the daemon's best block. What was
    /// fetched in an earlier round is forgotten.
    ///
    /// The answer is `Idle` where that block is the local tip; `Apply`
    /// where it lies below the tip in the local chain, which is then cut
    /// back to it; and `Fetch` of that block where the local chain does not
    /// hold it.
    pub fn observe(&mut self, best: Hash256) -> (step: Step)
        requires
            old(self).wf(),
        ensures
            observed(*old(self), best, *final(self), step),
    {
        proof {
            assert(self.headers@.len() <= MAX_BLOCKS);
        }
        self.reset();
        match self.find_local(&best) {
            Some(h) => {
                if h + 1 == self.headers.len() {
                    Step::Idle
                } else {
                    self.keep = Some(h + 1);
                    Step::Apply
                }
            },
            None => {
                self.expect = Some(best);
                Step::Fetch(best)
            },
        }
    }

    /// Takes the block that the tracker asked for.
    ///
    /// The answer is `Retry` where the block is not the one asked for,
    /// cannot be indexed, or would lift the chain beyond the heights that
    /// can be numbered, and where the branch is already as long as the
    /// tracker follows one; the round is then over. Else the block joins the
    /// branch, and the answer is `Apply` where it builds on a block of the
    /// local chain, or is a first block while the local chain is empty;
    /// `TooDeep`, and the round over, where the branch has reached the
    /// depth that the tracker follows; and `Fetch` of the block it builds
    /// on otherwise.
    pub fn offer(&mut self, block: Block) -> (step: Step)
        requires
            old(self).wf(),
        ensures
            offered(*old(self), block, *final(self), step),
    {
        let asked = match self.expect {
            Some(hash) => hash == block.hash,
            None => false,
        };
        if !asked || !block.is_indexable() || self.branch.len() >= self.max_depth
            || self.branch.len() >= MAX_BLOCKS - self.headers.len() {
            self.reset();
            return Step::Retry;
        }
        let link = block.prev;
        let ghost before = self.branch@;
        let ghost model = block@;
        let ghost asked_hash = block.hash;
        self.branch.push(block);
        assert(self.branch@.drop_last() =~= before);
        proof {
            let now = self.branch@;
            assert(now.last().prev == link && now.last().hash == asked_hash);
            assert forall|i: int| 0 <= i < now.len() - 1 implies (#[trigger] now[i]).prev == now[i
                + 1].hash by {
                if i < before.len() - 1 {
                    assert(before[i].prev == before[i + 1].hash);
                } else {
                    assert(now[i] == before.last());
                }
            }
            assert forall|i: int| 0 <= i < now.len() implies (#[trigger] now[i]).indexable() by {
                if i < before.len() {
                    assert(before[i].indexable());
                }
            }
        }
        self.expect = None;
        match self.find_local(&link) {
            Some(h) => {
                self.keep = Some(h + 1);
                Step::Apply
            },
            None => {
                if self.headers.len() == 0 && link == Hash256::zero() {
                    self.keep = Some(0);
                    Step::Apply
                } else if self.branch.len() >= self.max_depth {
                    self.reset();
                    Step::TooDeep
                } else {
                    self.expect = Some(link);
                    Step::Fetch(link)
                }
            },
        }
    }

    /// Brings the store, the local chain and the pool in step with the
    /// branch that was fetched: the local blocks above the fork are taken
    /// back, highest first, and the branch's blocks are indexed, lowest
    /// first. Returns how many blocks were taken back and how many indexed.
    pub fn apply(&mut self, store: &mut Store, pool: &mut Mempool) -> (r: (usize, usize))
        requires
            old(self).wf(),
            old(self).fork() is Some,
            old(store).wf(),
            old(pool).wf(),
            in_step(old(store)@, old(self).chain()),
        ensures
            final(self).wf(),
            final(store).wf(),
            final(pool).wf(),
            final(self).depth() == old(self).depth(),
            final(self).fetched() == Seq::<Block>::empty(),
            final(self).expecting() is None,
            final(self).fork() is None,
            r.0 == old(self).chain().len() - old(self).fork()->0,
            r.1 == old(self).fetched().len(),
            final(store)@ == reorganized(
                old(store)@,
                old(self).chain(),
                old(self).fork()->0 as nat,
                chain_order(block_models(old(self).fetched())),
            ),
            final(self).chain() == old(self).chain().take(old(self).fork()->0 as int) + headers_of(
                chain_order(block_models(old(self).fetched())),
            ),
            final(pool)@ == confirm_all(old(pool)@, chain_order(block_models(old(self).fetched()))),
            old(self).fetched().len() > 0 ==> final(pool).stale(),
            forall|i: int, txid: Hash256|
                0 <= i < old(self).fetched().len() && block_holds(
                    #[trigger] old(self).fetched()[i]@,
                    txid,
                ) ==> !#[trigger] pool_holds(final(pool)@, txid),
            in_step(final(store)@, final(self).chain()),
    {
        let keep = self.keep.unwrap();
        let retracted = self.headers.len() - keep;
        let connected = self.branch.len();
        let mut branch: Vec<Block> = Vec::new();
        std::mem::swap(&mut branch, &mut self.branch);
        let ghost blocks = chain_order(block_models(branch@));
        let ghost before = pool@;
        reorganize(&mut self.headers, store, pool, keep, branch);
        self.expect = None;
        self.keep = None;
        proof {
            let n = old(self).fetched().len() as int;
            assert forall|i: int, txid: Hash256|
                0 <= i < n && block_holds(
                    #[trigger] old(self).fetched()[i]@,
                    txid,
                ) implies !#[trigger] pool_holds(pool@, txid) by {
                assert(blocks[n - 1 - i] == old(self).fetched()[i]@);
                lemma_confirm_all_leave(before, blocks, n - 1 - i, txid);
            }
        }
        (retracted, connected)
    }
}

/// Whether the store holds the row of each block of a chain, at its height
/// and with its link.
pub open spec fn recorded(m: Map<Key, RowModel>, headers: Seq<Header>) -> bool {
    forall|h: int|
        0 <= h < headers.len() ==> m.contains_key(Key::Block((#[trigger] headers[h]).hash))
            && m[Key::Block(headers[h].hash)] == (RowModel::Block {
            hash: headers[h].hash,
            height: h as u32,
            prev: headers[h].prev,
        })
}

/// Whether a chain is the one that the store holds: the store and the
/// chain agree, and the store holds the row of each of its blocks.
pub open spec fn restorable(m: Map<Key, RowModel>, headers: Seq<Header>) -> bool {
    in_step(m, headers) && recorded(m, headers)
}

/// Whether every row of the store that was derived from a block lies below
/// the height `len`.
fn all_below(store: &Store, len: usize) -> (b: bool)
    requires
        store.wf(),
    ensures
        b == below(store@, len as nat),
{
    proof {
        store.lemma_ordered();
    }
    let ghost s = store.ordered();
    let n = store.len();
    let mut i: usize = 0;
    while i < n
        invariant
            i <= n,
            n == s.len(),
            s == store.ordered(),
            crate::store::lists(s, store@),
            forall|j: int| 0 <= j < i ==> ((#[trigger] s[j]).block_height() matches Some(h) ==> h < len),
        decreases n - i,
    {
        match store.row_at(i).block_height() {
            Some(h) => {
                if h as u64 >= len as u64 {
                    proof {
                        let k = s[i as int].key();
                        assert(store@.contains_key(k) && store@[k] == s[i as int]);
                    }
                    return false;
                }
            },
            None => {},
        }
        i += 1;
    }
    proof {
        assert forall|k: Key| #[trigger] store@.contains_key(k) implies (
        store@[k].block_height() matches Some(h) ==> h < len) by {
            let j = choose|j: int| 0 <= j < s.len() && (#[trigger] s[j]).key() == k;
            assert(store@[s[j].key()] == s[j]);
        }
    }
    true
}

/// The headers in the opposite order.
fn turned_headers(headers: Vec<Header>) -> (r: Vec<Header>)
    ensures
        r@.len() == headers@.len(),
        forall|j: int| 0 <= j < r@.len() ==> #[trigger] r@[j] == headers@[headers@.len() - 1 - j],
{
    let mut r: Vec<Header> = Vec::new();
    let mut i: usize = headers.len();
    while i > 0
        invariant
            i <= headers@.len(),
            r@.len() == headers@.len() - i,
            forall|j: int| 0 <= j < r@.len() ==> #[trigger] r@[j] == headers@[headers@.len() - 1 - j],
        decreases i,
    {
        i -= 1;
        r.push(headers[i]);
    }
    r
}

/// The chain that the store holds: from the block that its tip row names,
/// link by link down to the first block. None where the store holds no
/// such chain: a block's row is missing or stands at another height, or a
/// row lies above the tip.
pub fn restore_chain(store: &Store) -> (r: Option<Vec<Header>>)
    requires
        store.wf(),
    ensures
        match r {
            Some(headers) => restorable(store@, headers@),
            None => forall|headers: Seq<Header>| !restorable(store@, headers),
        },
{
    let ghost m = store@;
    let (tip_hash, tip_height) = match store.get(&Key::Tip) {
        None => {
            if all_below(store, 0) {
                let headers: Vec<Header> = Vec::new();
                return Some(headers);
            } else {
                return None;
            }
        },
        Some(Row::Tip { hash, height }) => (*hash, *height),
        Some(_) => {
            return None;
        },
    };
    proof {
        store.lemma_ordered();
    }
    if tip_height as u64 + 1 > MAX_BLOCKS as u64 {
        proof {
            assert forall|headers: Seq<Header>| !restorable(m, headers) by {
                if restorable(m, headers) {
                    assert(headers.len() == tip_height + 1);
                }
            }
        }
        return None;
    }
    let len = tip_height as usize + 1;
    if !all_below(store, len) {
        proof {
            assert forall|headers: Seq<Header>| !restorable(m, headers) by {
                if restorable(m, headers) {
                    assert(headers.len() == len);
                }
            }
        }
        return None;
    }
    let mut down: Vec<Header> = Vec::new();
    let mut cur = tip_hash;
    let mut h: usize = len;
    while h > 0
        invariant
            h <= len,
            len == tip_height + 1,
            len <= MAX_BLOCKS,
            m == store@,
            store.wf(),
            keyed(m),
            m.contains_key(Key::Tip),
            m[Key::Tip] == (RowModel::Tip { hash: tip_hash, height: tip_height }),
            down@.len() == len - h,
            h == len ==> cur == tip_hash,
            h < len ==> cur == down@.last().prev,
            forall|j: int|
                0 <= j < down@.len() ==> m.contains_key(Key::Block((#[trigger] down@[j]).hash))
                    && m[Key::Block(down@[j].hash)] == (RowModel::Block {
                    hash: down@[j].hash,
                    height: (len - 1 - j) as u32,
                    prev: down@[j].prev,
                }),
            forall|j: int| 0 < j < down@.len() ==> (#[trigger] down@[j]).hash == down@[j - 1].prev,
            down@.len() > 0 ==> down@[0].hash == tip_hash,
            forall|headers: Seq<Header>|
                restorable(m, headers) ==> headers.len() == len && (h > 0 ==> (
                #[trigger] headers[h - 1]).hash == cur),
        decreases h,
    {
        let height = h - 1;
        let found = match store.get(&Key::Block(cur)) {
            Some(Row::Block { height: at, prev, .. }) => {
                if *at as usize == height {
                    Some(*prev)
                } else {
                    None
                }
            },
            _ => None,
        };
        match found {
            None => {
                proof {
                    assert forall|headers: Seq<Header>| !restorable(m, headers) by {
                        if restorable(m, headers) {
                            assert(headers[h - 1].hash == cur);
                        }
                    }
                }
                return None;
            },
            Some(prev) => {
                proof {
                    assert forall|headers: Seq<Header>|
                        restorable(m, headers) implies headers.len() == len && (h - 1 > 0 ==> (
                    #[trigger] headers[h - 2]).hash == prev) by {
                        assert(headers[h - 1].hash == cur);
                        if h - 1 > 0 {
                            assert(headers[h - 1].prev == headers[h - 2].hash);
                        }
                    }
                }
                down.push(Header { hash: cur, prev });
                cur = prev;
                h = height;
            },
        }
    }
    let headers = turned_headers(down);
    proof {
        let hs = headers@;
        assert forall|x: int| 0 < x < hs.len() implies (#[trigger] hs[x]).prev == hs[x - 1].hash by {
            assert(hs[x] == down@[len - 1 - x]);
            assert(hs[x - 1] == down@[len - x]);
            assert(down@[len - x].hash == down@[len - x - 1].prev);
        }
        assert forall|x: int| 0 <= x < hs.len() implies m.contains_key(
            Key::Block((#[trigger] hs[x]).hash),
        ) && m[Key::Block(hs[x].hash)] == (RowModel::Block {
            hash: hs[x].hash,
            height: x as u32,
            prev: hs[x].prev,
        }) by {
            assert(hs[x] == down@[len - 1 - x]);
        }
        assert(hs.last() == down@[0]);
    }
    Some(headers)
}

impl Tracker {
    /// A tracker whose local chain is the one that the store holds; none
    /// where the store holds no chain.
    pub fn restore(store: &Store, max_depth: usize) -> (r: Option<Tracker>)
        requires
            store.wf(),
        ensures
            match r {
                Some(t) => {
                    &&& t.wf()
                    &&& restorable(store@, t.chain())
                    &&& t.depth() == max_depth
                    &&& t.fetched() == Seq::<Block>::empty()
                    &&& t.expecting() is None
                    &&& t.fork() is None
                },
                None => forall|headers: Seq<Header>| !restorable(store@, headers),
            },
    {
        match restore_chain(store) {
            Some(headers) => Some(
                Tracker { headers, branch: Vec::new(), expect: None, keep: None, max_depth },
            ),
            None => None,
        }
    }
}

/// A row of a range of blocks is a row of one of the blocks, at its height.
pub proof fn lemma_range_rows_members(blocks: Seq<BlockModel>, start: u32, row: RowModel)
    requires
        start + blocks.len() <= MAX_BLOCKS + 1,
    ensures
        range_rows(blocks, start).contains(row) <==> exists|i: int|
            0 <= i < blocks.len() && block_rows(#[trigger] blocks[i], (start + i) as u32).contains(
                row,
            ),
    decreases blocks.len(),
{
    let all = range_rows(blocks, start);
    if blocks.len() == 0 {
        if all.contains(row) {
            let x = choose|x: int| 0 <= x < all.len() && all[x] == row;
        }
    } else {
        let rest = blocks.drop_last();
        let n = blocks.len() as int;
        let before = range_rows(rest, start);
        let own = block_rows(blocks.last(), (start + n - 1) as u32);
        lemma_range_rows_members(rest, start, row);
        if all.contains(row) {
            let x = choose|x: int| 0 <= x < all.len() && all[x] == row;
            if x < before.len() {
                assert(before[x] == row);
                assert(before.contains(row));
                let i = choose|i: int|
                    0 <= i < rest.len() && block_rows(#[trigger] rest[i], (start + i) as u32).contains(
                        row,
                    );
                assert(blocks[i] == rest[i]);
            } else {
                assert(own[x - before.len()] == row);
                assert(block_rows(blocks[n - 1], (start + (n - 1)) as u32).contains(row));
            }
        }
        if exists|i: int|
            0 <= i < blocks.len() && block_rows(#[trigger] blocks[i], (start + i) as u32).contains(row) {
            let i = choose|i: int|
                0 <= i < blocks.len() && block_rows(
                    #[trigger] blocks[i],
                    (start + i) as u32,
                ).contains(row);
            if i < n - 1 {
                assert(rest[i] == blocks[i]);
                assert(before.contains(row));
                let x = choose|x: int| 0 <= x < before.len() && before[x] == row;
                assert(all[x] == row);
            } else {
                let x = choose|x: int| 0 <= x < own.len() && own[x] == row;
                assert(all[before.len() + x] == row);
            }
        }
    }
}

/// A store that was filled by indexing a chain of blocks from the first
/// block on, each building on the one before it and no two with one hash,
/// holds that chain: an engine can be restored from it.
pub proof fn lemma_indexed_chain_restorable(blocks: Seq<BlockModel>)
    requires
        blocks.len() <= MAX_BLOCKS,
        forall|i: int| 0 < i < blocks.len() ==> (#[trigger] blocks[i]).prev == blocks[i - 1].hash,
        forall|i: int, j: int|
            0 <= i < j < blocks.len() ==> (#[trigger] blocks[i]).hash != (#[trigger] blocks[j]).hash,
    ensures
        restorable(apply_puts(Map::empty(), range_rows(blocks, 0)), headers_of(blocks)),
{
    let rows = range_rows(blocks, 0);
    let m = apply_puts(Map::<Key, RowModel>::empty(), rows);
    let hs = headers_of(blocks);
    assert forall|k: Key| #[trigger] m.contains_key(k) implies (
    m[k].block_height() matches Some(h) ==> h < hs.len()) by {
        lemma_apply_puts_origin(Map::<Key, RowModel>::empty(), rows, k);
        let i = choose|i: int| 0 <= i < rows.len() && #[trigger] rows[i] == m[k];
        lemma_range_rows_height(blocks, 0, i);
    }
    if blocks.len() > 0 {
        let last = block_rows(blocks.last(), (blocks.len() - 1) as u32);
        assert(rows.last() == last.last());
    }
    assert forall|h: int| 0 <= h < hs.len() implies m.contains_key(
        Key::Block((#[trigger] hs[h]).hash),
    ) && m[Key::Block(hs[h].hash)] == (RowModel::Block {
        hash: hs[h].hash,
        height: h as u32,
        prev: hs[h].prev,
    }) by {
        let k = Key::Block(blocks[h].hash);
        let want = RowModel::Block { hash: blocks[h].hash, height: h as u32, prev: blocks[h].prev };
        assert(block_rows(blocks[h], h as u32)[0] == want);
        assert(block_rows(blocks[h], h as u32).contains(want));
        lemma_range_rows_members(blocks, 0, want);
        let x = choose|x: int| 0 <= x < rows.len() && rows[x] == want;
        assert(rows[x].key() == k);
        crate::index::lemma_apply_puts_value(Map::<Key, RowModel>::empty(), rows, k);
        let found = m[k];
        lemma_range_rows_members(blocks, 0, found);
        let i = choose|i: int|
            0 <= i < blocks.len() && block_rows(#[trigger] blocks[i], (0 + i) as u32).contains(found);
        crate::index::lemma_block_rows_members(blocks[i], i as u32, found);
        if i < h {
            assert(blocks[i].hash != blocks[h].hash);
        } else if h < i {
            assert(blocks[h].hash != blocks[i].hash);
        }
    }
}

} // verus!

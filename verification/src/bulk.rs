//! The first, bulk indexing of a chain.
//!
//! The range of heights is cut into chunks of a fixed size. Each chunk is
//! turned into a batch on its own, in any order and by any worker. One
//! writer commits the batches to the store strictly in the order of the
//! chunks: a batch that arrives early waits until all before it are
//! written.

use vstd::prelude::*;
use crate::index::{index_block, range_rows};
use crate::model::{Block, BlockModel, block_models};
use crate::rows::{Key, Row, RowModel, row_models};
use crate::store::{apply_batch, BatchModel, Store, WriteBatch};

verus! {

/// A stretch of consecutive heights: `len` blocks from height `start`.
#[derive(Clone, Copy, Debug, PartialEq, Eq, Structural)]
pub struct Chunk {
    pub start: u64,
    pub len: u64,
}

/// Whether the chunks cut the heights below `count` into stretches of
/// `size` blocks, the last one holding what is left: they follow each other
/// from height 0 without a gap, none is empty, and all but the last are full.
pub open spec fn cuts(chunks: Seq<Chunk>, count: nat, size: nat) -> bool {
    &&& forall|i: int| 0 <= i < chunks.len() ==> 0 < (#[trigger] chunks[i]).len <= size
    &&& forall|i: int| 0 <= i < chunks.len() - 1 ==> (#[trigger] chunks[i]).len == size
    &&& forall|i: int|
        0 <= i < chunks.len() - 1 ==> chunks[i + 1].start == (#[trigger] chunks[i]).start
            + chunks[i].len
    &&& if count == 0 {
        chunks.len() == 0
    } else {
        chunks.len() > 0 && chunks[0].start == 0 && chunks.last().start + chunks.last().len
            == count
    }
}

/// Whether the index is so far behind the daemon that it is brought up in
/// bulk: it holds no block yet, or lacks more than `window` of the daemon's
/// blocks. `indexed` and `known` are the numbers of blocks that the index
/// holds and that the daemon reports.
pub fn should_index_in_bulk(indexed: u64, known: u64, window: u64) -> (b: bool)
    ensures
        b == (known > 0 && (indexed == 0 || known - indexed > window)),
{
    if known == 0 {
        false
    } else if indexed == 0 {
        true
    } else if known < indexed {
        false
    } else {
        known - indexed > window
    }
}

/// Cuts the heights below `count` into chunks of `size` blocks. With a
/// size of zero there is no way to cut, and no chunk is planned.
pub fn plan_chunks(count: u64, size: usize) -> (chunks: Vec<Chunk>)
    ensures
        size > 0 ==> cuts(chunks@, count as nat, size as nat),
        size == 0 ==> chunks@.len() == 0,
{
    let mut chunks: Vec<Chunk> = Vec::new();
    if size == 0 {
        return chunks;
    }
    let mut start: u64 = 0;
    while start < count
        invariant
            start <= count,
            size > 0,
            forall|i: int| 0 <= i < chunks@.len() ==> (#[trigger] chunks@[i]).len == size,
            forall|i: int|
                0 <= i < chunks@.len() - 1 ==> chunks@[i + 1].start == (#[trigger] chunks@[i]).start
                    + chunks@[i].len,
            chunks@.len() > 0 ==> chunks@[0].start == 0 && chunks@.last().start
                + chunks@.last().len == start,
            chunks@.len() == 0 ==> start == 0,
        decreases count - start,
    {
        let left = count - start;
        let len: u64 = if size as u64 as usize == size && (size as u64) < left {
            size as u64
        } else {
            left
        };
        let ghost before = chunks@;
        chunks.push(Chunk { start, len });
        if len < left {
            assert(len == size);
            assert forall|i: int| 0 <= i < chunks@.len() implies (#[trigger] chunks@[i]).len
                == size by {
                if i < before.len() {
                    assert(chunks@[i] == before[i]);
                }
            }
            assert forall|i: int| 0 <= i < chunks@.len() - 1 implies chunks@[i + 1].start == (
            #[trigger] chunks@[i]).start + chunks@[i].len by {
                if i < before.len() - 1 {
                    assert(chunks@[i] == before[i] && chunks@[i + 1] == before[i + 1]);
                } else {
                    assert(chunks@[i] == before.last());
                }
            }
            start = start + len;
        } else {
            proof {
                assert forall|i: int| 0 <= i < chunks@.len() - 1 implies (#[trigger] chunks@[i]).len
                    == size by {
                    assert(chunks@[i] == before[i]);
                }
                assert forall|i: int| 0 <= i < chunks@.len() implies 0 < (
                #[trigger] chunks@[i]).len <= size by {
                    if i < before.len() {
                        assert(chunks@[i] == before[i]);
                    }
                }
                assert forall|i: int| 0 <= i < chunks@.len() - 1 implies chunks@[i + 1].start == (
                #[trigger] chunks@[i]).start + chunks@[i].len by {
                    if i < before.len() - 1 {
                        assert(chunks@[i] == before[i] && chunks@[i + 1] == before[i + 1]);
                    } else {
                        assert(chunks@[i] == before.last());
                    }
                }
            }
            return chunks;
        }
    }
    chunks
}

/// The batch that indexes a chunk of consecutive blocks, the first of them
/// at height `start`. It depends on these blocks alone.
pub fn index_chunk(blocks: &Vec<Block>, start: u32) -> (batch: WriteBatch)
    requires
        start + blocks@.len() <= 0x1_0000_0000,
        forall|i: int| 0 <= i < blocks@.len() ==> (#[trigger] blocks@[i]).indexable(),
    ensures
        batch@.deletes == Seq::<Key>::empty(),
        batch@.puts == range_rows(block_models(blocks@), start),
{
    let ghost all = block_models(blocks@);
    let mut puts: Vec<Row> = Vec::new();
    let mut i: usize = 0;
    proof {
        assert(all.take(0) =~= Seq::<BlockModel>::empty());
        assert(row_models(puts@) =~= range_rows(all.take(0), start));
    }
    while i < blocks.len()
        invariant
            i <= blocks@.len(),
            all == block_models(blocks@),
            start + blocks@.len() <= 0x1_0000_0000,
            forall|k: int| 0 <= k < blocks@.len() ==> (#[trigger] blocks@[k]).indexable(),
            row_models(puts@) == range_rows(all.take(i as int), start),
        decreases blocks@.len() - i,
    {
        let height = start + i as u32;
        let mut batch = index_block(&blocks[i], height);
        let ghost before = puts@;
        let ghost added = batch.puts@;
        puts.append(&mut batch.puts);
        proof {
            assert(puts@ == before + added);
            assert(row_models(puts@) =~= row_models(before) + row_models(added));
            assert(all.take(i + 1).drop_last() =~= all.take(i as int));
            assert(all.take(i + 1).last() == blocks@[i as int]@);
        }
        i += 1;
    }
    proof {
        assert(all.take(i as int) =~= all);
    }
    let batch = WriteBatch { deletes: Vec::new(), puts };
    assert(batch@.deletes =~= Seq::<Key>::empty());
    batch
}

/// The first place at which the waiting batches hold the chunk's number.
#[verifier::opaque]
pub open spec fn waiting_at(w: Seq<(usize, BatchModel)>, index: usize) -> Option<int> {
    if exists|i: int| 0 <= i < w.len() && (#[trigger] w[i]).0 == index {
        Some(
            choose|i: int|
                0 <= i < w.len() && (#[trigger] w[i]).0 == index && forall|j: int|
                    0 <= j < i ==> (#[trigger] w[j]).0 != index,
        )
    } else {
        None
    }
}

/// The state of the writer: the store, the number of the chunk to be
/// written next, and the batches that wait.
pub struct Commit {
    pub store: Map<Key, RowModel>,
    pub next: int,
    pub waiting: Seq<(usize, BatchModel)>,
}

/// The state after every batch that can be written was written: as long as
/// the batch of the next chunk waits, it is written and the next chunk's
/// number goes up by one.
#[verifier::opaque]
pub open spec fn settled(c: Commit) -> Commit
    decreases c.waiting.len(),
{
    if 0 <= c.next <= usize::MAX {
        match waiting_at(c.waiting, c.next as usize) {
            Some(i) => if 0 <= i < c.waiting.len() {
                settled(
                    Commit {
                        store: apply_batch(c.store, c.waiting[i].1),
                        next: c.next + 1,
                        waiting: c.waiting.remove(i),
                    },
                )
            } else {
                c
            },
            None => c,
        }
    } else {
        c
    }
}

/// The batches waiting, by what they hold.
pub open spec fn waiting_models(pending: Seq<(usize, WriteBatch)>) -> Seq<(usize, BatchModel)> {
    Seq::new(pending.len(), |i: int| (pending[i].0, pending[i].1@))
}

/// Whether the writer takes a batch for the chunk: the chunk is not
/// written yet, no batch waits for it, and it lies within the window.
pub open spec fn admits(
    next: usize,
    window: usize,
    w: Seq<(usize, BatchModel)>,
    index: usize,
) -> bool {
    &&& next <= index
    &&& index - next < window
    &&& index < usize::MAX
    &&& waiting_at(w, index) is None
}

/// Where the batch of the next chunk waits, settling writes it and goes on.
pub proof fn lemma_settled_step(c: Commit, i: int)
    requires
        0 <= c.next <= usize::MAX,
        waiting_at(c.waiting, c.next as usize) == Some(i),
        0 <= i < c.waiting.len(),
    ensures
        settled(c) == settled(
            Commit {
                store: apply_batch(c.store, c.waiting[i].1),
                next: c.next + 1,
                waiting: c.waiting.remove(i),
            },
        ),
{
    reveal(settled);
}

/// Where no batch waits for the next chunk, settling changes nothing.
pub proof fn lemma_settled_rest(c: Commit)
    requires
        0 <= c.next <= usize::MAX,
        waiting_at(c.waiting, c.next as usize) is None,
    ensures
        settled(c) == c,
{
    reveal(settled);
}

/// A batch that arrives in its turn, while nothing waits, is written at once.
pub proof fn lemma_settled_in_turn(m: Map<Key, RowModel>, next: usize, batch: BatchModel)
    requires
        next < usize::MAX,
    ensures
        settled(Commit { store: m, next: next as int, waiting: seq![(next, batch)] }) == (Commit {
            store: apply_batch(m, batch),
            next: next + 1,
            waiting: Seq::empty(),
        }),
{
    let w = seq![(next, batch)];
    let c = Commit { store: m, next: next as int, waiting: w };
    reveal(waiting_at);
    assert(w[0].0 == next);
    let i = choose|i: int|
        0 <= i < w.len() && (#[trigger] w[i]).0 == next && forall|j: int|
            0 <= j < i ==> (#[trigger] w[j]).0 != next;
    assert(i == 0);
    lemma_settled_step(c, 0);
    assert(w.remove(0) =~= Seq::<(usize, BatchModel)>::empty());
    let rest = Commit {
        store: apply_batch(m, batch),
        next: next + 1,
        waiting: Seq::<(usize, BatchModel)>::empty(),
    };
    assert(waiting_at(rest.waiting, (next + 1) as usize) is None);
    lemma_settled_rest(rest);
}

/// A batch that arrives before its turn waits; once the batch before it
/// arrives, both are written, in the order of their chunks.
pub proof fn lemma_settled_out_of_turn(
    m: Map<Key, RowModel>,
    next: usize,
    early: BatchModel,
    late: BatchModel,
)
    requires
        next + 1 < usize::MAX,
    ensures
        settled(
            Commit { store: m, next: next as int, waiting: seq![((next + 1) as usize, early)] },
        ) == (Commit { store: m, next: next as int, waiting: seq![((next + 1) as usize, early)] }),
        settled(
            Commit {
                store: m,
                next: next as int,
                waiting: seq![((next + 1) as usize, early), (next, late)],
            },
        ) == (Commit {
            store: apply_batch(apply_batch(m, late), early),
            next: next + 2,
            waiting: Seq::empty(),
        }),
{
    let after = (next + 1) as usize;
    let w1 = seq![(after, early)];
    let w2 = seq![(after, early), (next, late)];
    reveal(waiting_at);
    assert(waiting_at(w1, next) is None) by {
        if exists|i: int| 0 <= i < w1.len() && (#[trigger] w1[i]).0 == next {
            let i = choose|i: int| 0 <= i < w1.len() && (#[trigger] w1[i]).0 == next;
            assert(w1[i].0 == after);
        }
    }
    lemma_settled_rest(Commit { store: m, next: next as int, waiting: w1 });
    assert(w2[1].0 == next);
    let i = choose|i: int|
        0 <= i < w2.len() && (#[trigger] w2[i]).0 == next && forall|j: int|
            0 <= j < i ==> (#[trigger] w2[j]).0 != next;
    assert(i == 1) by {
        if i == 0 {
            assert(w2[0].0 == after);
        }
    }
    lemma_settled_step(Commit { store: m, next: next as int, waiting: w2 }, 1);
    assert(w2.remove(1) =~= w1);
    lemma_settled_in_turn(apply_batch(m, late), after, early);
}

/// Settling writes chunk after chunk: the next chunk's number never goes
/// down, it goes up by the number of batches that left the wait, and no
/// batch for it is left waiting.
pub proof fn lemma_settled_in_order(c: Commit)
    requires
        0 <= c.next,
    ensures
        settled(c).next - c.next == c.waiting.len() - settled(c).waiting.len(),
        settled(c).next >= c.next,
        settled(c).next <= usize::MAX ==> waiting_at(settled(c).waiting, settled(c).next as usize) is None,
    decreases c.waiting.len(),
{
    reveal(settled);
    reveal(waiting_at);
    if 0 <= c.next <= usize::MAX {
        match waiting_at(c.waiting, c.next as usize) {
            Some(i) => {
                if 0 <= i < c.waiting.len() {
                    lemma_settled_in_order(
                        Commit {
                            store: apply_batch(c.store, c.waiting[i].1),
                            next: c.next + 1,
                            waiting: c.waiting.remove(i),
                        },
                    );
                } else {
                    let j = choose|j: int|
                        0 <= j < c.waiting.len() && (#[trigger] c.waiting[j]).0 == c.next as usize;
                    lemma_first_exists(c.waiting, c.next as usize, j);
                }
            },
            None => {},
        }
    }
}

/// Where a chunk's number occurs among the waiting batches, it has a first place.
proof fn lemma_first_exists(w: Seq<(usize, BatchModel)>, index: usize, j: int)
    requires
        0 <= j < w.len(),
        w[j].0 == index,
    ensures
        exists|i: int|
            0 <= i < w.len() && (#[trigger] w[i]).0 == index && forall|k: int|
                0 <= k < i ==> (#[trigger] w[k]).0 != index,
    decreases j,
{
    if exists|k: int| 0 <= k < j && (#[trigger] w[k]).0 == index {
        let k = choose|k: int| 0 <= k < j && (#[trigger] w[k]).0 == index;
        lemma_first_exists(w, index, k);
    } else {
        assert(w[j].0 == index && forall|k: int| 0 <= k < j ==> (#[trigger] w[k]).0 != index);
    }
}

/// Taking a batch out of the wait leaves the others numbered.
proof fn lemma_numbered_remove(w: Seq<(usize, BatchModel)>, i: int)
    requires
        numbered(w),
        0 <= i < w.len(),
    ensures
        numbered(w.remove(i)),
{
    reveal(numbered);
    assert forall|k: int| 0 <= k < w.remove(i).len() implies (#[trigger] w.remove(i)[k]).0
        < usize::MAX by {
        let ok = if k < i { k } else { k + 1 };
        assert(w.remove(i)[k] == w[ok]);
    }
}

/// A batch whose chunk can be numbered may join the wait.
proof fn lemma_numbered_push(w: Seq<(usize, BatchModel)>, index: usize, batch: BatchModel)
    requires
        numbered(w),
        index < usize::MAX,
    ensures
        numbered(w.push((index, batch))),
{
    reveal(numbered);
    assert forall|k: int| 0 <= k < w.push((index, batch)).len() implies (#[trigger] w.push(
        (index, batch),
    )[k]).0 < usize::MAX by {
        if k < w.len() {
            assert(w.push((index, batch))[k] == w[k]);
        }
    }
}

/// Whether the chunk after any that waits can still be numbered.
#[verifier::opaque]
pub open spec fn numbered(w: Seq<(usize, BatchModel)>) -> bool {
    forall|i: int| 0 <= i < w.len() ==> (#[trigger] w[i]).0 < usize::MAX
}

/// The single writer of the bulk indexer.
pub struct Writer {
    next: usize,
    window: usize,
    pending: Vec<(usize, WriteBatch)>,
}

impl Writer {
    /// The number of the chunk to be written next.
    pub closed spec fn next(&self) -> usize {
        self.next
    }

    /// How far ahead of the next chunk a batch may arrive.
    pub closed spec fn window(&self) -> usize {
        self.window
    }

    /// The batches that wait, each with its chunk's number.
    pub closed spec fn waiting(&self) -> Seq<(usize, BatchModel)> {
        waiting_models(self.pending@)
    }

    /// The writer's invariant: no batch waits for the next chunk, and the
    /// chunk after any that waits can be numbered.
    pub closed spec fn wf(&self) -> bool {
        &&& waiting_at(self.waiting(), self.next) is None
        &&& numbered(self.waiting())
    }

    /// A writer that starts with chunk 0 and lets batches arrive up to
    /// `window` chunks ahead.
    pub fn new(window: usize) -> (w: Writer)
        ensures
            w.wf(),
            w.next() == 0,
            w.window() == window,
            w.waiting() == Seq::<(usize, BatchModel)>::empty(),
    {
        reveal(waiting_at);
        reveal(numbered);
        let w = Writer { next: 0, window, pending: Vec::new() };
        assert(w.waiting() =~= Seq::<(usize, BatchModel)>::empty());
        w
    }

    /// The number of chunks written.
    pub fn committed(&self) -> (n: usize)
        ensures
            n == self.next(),
    {
        self.next
    }

    /// Whether all of the given number of chunks are written.
    pub fn finished(&self, chunks: usize) -> (b: bool)
        ensures
            b == (self.next() >= chunks),
    {
        self.next >= chunks
    }

    /// The number of batches that wait.
    pub fn backlog(&self) -> (n: usize)
        ensures
            n == self.waiting().len(),
    {
        self.pending.len()
    }

    /// The first place at which a batch for the chunk waits.
    fn position(&self, index: usize) -> (r: Option<usize>)
        ensures
            match r {
                Some(i) => waiting_at(self.waiting(), index) == Some(i as int) && i
                    < self.waiting().len() && self.waiting()[i as int].0 == index && i
                    < self.pending@.len(),
                None => waiting_at(self.waiting(), index) is None,
            },
            r is Some && numbered(self.waiting()) ==> index < usize::MAX,
    {
        reveal(waiting_at);
        reveal(numbered);
        let ghost w = self.waiting();
        let mut i: usize = 0;
        while i < self.pending.len()
            invariant
                i <= self.pending@.len(),
                w == self.waiting(),
                forall|j: int| 0 <= j < i ==> (#[trigger] w[j]).0 != index,
            decreases self.pending@.len() - i,
        {
            if self.pending[i].0 == index {
                proof {
                    reveal(waiting_at);
                    reveal(numbered);
                    assert(w[i as int].0 == index);
                    let c = choose|c: int|
                        0 <= c < w.len() && (#[trigger] w[c]).0 == index && forall|j: int|
                            0 <= j < c ==> (#[trigger] w[j]).0 != index;
                    if c < i {
                        assert(w[c].0 != index);
                    } else if i < c {
                        assert(w[i as int].0 != index);
                    }
                }
                return Some(i);
            }
            i += 1;
        }
        None
    }

    /// Whether the writer takes a batch for the chunk: the chunk is not
    /// written yet, no batch waits for it, and it lies within the window.
    pub fn accepts(&self, index: usize) -> (b: bool)
        ensures
            b == admits(self.next(), self.window(), self.waiting(), index),
    {
        index >= self.next && index - self.next < self.window && index < usize::MAX
            && self.position(index).is_none()
    }

    /// Writes the batch of the next chunk, if it waits. Returns whether it did.
    fn commit_next(&mut self, store: &mut Store) -> (done: bool)
        requires
            old(store).wf(),
            numbered(old(self).waiting()),
        ensures
            final(store).wf(),
            numbered(final(self).waiting()),
            final(self).window() == old(self).window(),
            final(self).waiting().len() == old(self).waiting().len() - if done {
                1int
            } else {
                0int
            },
            settled(
                Commit {
                    store: final(store)@,
                    next: final(self).next() as int,
                    waiting: final(self).waiting(),
                },
            ) == settled(
                Commit {
                    store: old(store)@,
                    next: old(self).next() as int,
                    waiting: old(self).waiting(),
                },
            ),
            !done ==> final(store)@ == old(store)@ && final(self).next() == old(self).next()
                && final(self).waiting() == old(self).waiting() && waiting_at(
                final(self).waiting(),
                final(self).next(),
            ) is None,
    {
        let ghost w = self.waiting();
        match self.position(self.next) {
            Some(i) => {
                proof {
                    lemma_settled_step(
                        Commit { store: store@, next: self.next as int, waiting: w },
                        i as int,
                    );
                    lemma_numbered_remove(w, i as int);
                }
                let (_, b) = self.pending.remove(i);
                proof {
                    assert(b@ == w[i as int].1);
                    assert(self.waiting() =~= w.remove(i as int));
                }
                store.write(b);
                self.next = self.next + 1;
                true
            },
            None => false,
        }
    }

    /// Takes the batch of a chunk and writes what can be written: the
    /// batch of the next chunk, then that of the chunk after it, as long as
    /// it is there. A batch that is not taken changes nothing. Returns
    /// whether the batch was taken.
    pub fn offer(&mut self, store: &mut Store, index: usize, batch: WriteBatch) -> (taken: bool)
        requires
            old(self).wf(),
            old(store).wf(),
        ensures
            final(self).wf(),
            final(store).wf(),
            final(self).window() == old(self).window(),
            taken == admits(old(self).next(), old(self).window(), old(self).waiting(), index),
            !taken ==> final(store)@ == old(store)@ && final(self).next() == old(self).next()
                && final(self).waiting() == old(self).waiting(),
            taken ==> (Commit {
                store: final(store)@,
                next: final(self).next() as int,
                waiting: final(self).waiting(),
            }) == settled(
                Commit {
                    store: old(store)@,
                    next: old(self).next() as int,
                    waiting: old(self).waiting().push((index, batch@)),
                },
            ),
    {
        if !self.accepts(index) {
            return false;
        }
        let ghost start = Commit {
            store: store@,
            next: self.next as int,
            waiting: self.waiting().push((index, batch@)),
        };
        let ghost before = self.waiting();
        let ghost model = batch@;
        self.pending.push((index, batch));
        proof {
            assert(self.waiting() =~= before.push((index, model)));
            lemma_numbered_push(before, index, model);
        }
        let mut more = true;
        while more
            invariant
                store.wf(),
                numbered(self.waiting()),
                self.window() == old(self).window(),
                settled(
                    Commit { store: store@, next: self.next() as int, waiting: self.waiting() },
                ) == settled(start),
                !more ==> waiting_at(self.waiting(), self.next()) is None,
            decreases self.waiting().len() + if more { 1int } else { 0int },
        {
            more = self.commit_next(store);
        }
        proof {
            lemma_settled_rest(
                Commit { store: store@, next: self.next() as int, waiting: self.waiting() },
            );
        }
        true
    }
}

} // verus!

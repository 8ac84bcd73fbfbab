//! Placing queued blocks over several ticks.
use vstd::prelude::*;
use vstd::string::*;

use crate::grid::BlockPos;
use crate::history::{restoring, BlockSnapshot, UndoEntry};
use crate::placement::{BlockPlacement, TileEntityPlacement};

verus! {

/// The states that some placings put.
pub open spec fn new_snapshots(q: Seq<BlockPlacement>) -> Seq<BlockSnapshot> {
    q.map_values(|p: BlockPlacement| BlockSnapshot { pos: p.pos, state_id: p.state_id })
}

/// The states that were found where some placings put others.
pub open spec fn found_snapshots(q: Seq<BlockPlacement>, found: Seq<u16>) -> Seq<BlockSnapshot> {
    Seq::new(q.len(), |i: int| BlockSnapshot { pos: q[i].pos, state_id: found[i] })
}

/// How far the placing of queued blocks and the storing of block entities has come.
#[derive(Debug)]
pub struct PasteState {
    pub blocks: Vec<BlockPlacement>,
    pub block_idx: usize,
    pub tile_entities: Vec<TileEntityPlacement>,
    pub te_idx: usize,
    pub record_undo: bool,
    pub old_snapshots: Vec<BlockSnapshot>,
    pub new_snapshots: Vec<BlockSnapshot>,
}

impl PasteState {
    /// The indices lie in their queues, block entities are stored after all blocks were placed,
    /// and the snapshots are those of the placed blocks if there is to be an undo.
    pub open spec fn wf(&self) -> bool {
        &&& self.block_idx <= self.blocks@.len()
        &&& self.te_idx <= self.tile_entities@.len()
        &&& self.te_idx > 0 ==> self.block_idx == self.blocks@.len()
        &&& if self.record_undo {
            &&& self.new_snapshots@ == new_snapshots(self.blocks@.take(self.block_idx as int))
            &&& self.old_snapshots@.len() == self.block_idx
            &&& forall|i: int|
                0 <= i < self.block_idx ==> (#[trigger] self.old_snapshots@[i]).pos
                    == self.blocks@[i].pos
        } else {
            self.new_snapshots@.len() == 0 && self.old_snapshots@.len() == 0
        }
    }

    /// The number of blocks and block entities that are left.
    pub open spec fn left(&self) -> int {
        self.blocks@.len() - self.block_idx + self.tile_entities@.len() - self.te_idx
    }
}

/// What is to be done in a tick: the blocks from `from` up to `to` are placed, then the block
/// entities from `tile_from` up to `tile_to` are stored, and then all is done or not.
#[derive(Clone, Copy, Debug, PartialEq, Eq, Structural)]
pub struct Tick {
    pub from: usize,
    pub to: usize,
    pub tile_from: usize,
    pub tile_to: usize,
    pub finished: bool,
}

/// The smaller of two numbers.
pub open spec fn least(a: int, b: int) -> int {
    if a < b {
        a
    } else {
        b
    }
}

/// What is to be done in a tick of at most `n` blocks and at most `n` block entities. Block
/// entities come once all blocks are placed, and all is done in the first tick that has none left
/// to store.
pub open spec fn tick_of(s: PasteState, n: int) -> Tick {
    let to = least(s.block_idx + n, s.blocks.len() as int);
    let tiles = to == s.blocks.len() && s.te_idx < s.tile_entities.len();
    Tick {
        from: s.block_idx,
        to: to as usize,
        tile_from: s.te_idx,
        tile_to: if tiles {
            least(s.te_idx + n, s.tile_entities.len() as int) as usize
        } else {
            s.te_idx
        },
        finished: to == s.blocks.len() && !tiles,
    }
}

impl PasteState {
    /// The placing of some blocks and the storing of some block entities, before its first tick.
    /// An undo is recorded if it is wanted and there are not too many blocks for one.
    pub fn new(
        queue: Vec<BlockPlacement>,
        tile_entities: Vec<TileEntityPlacement>,
        record_undo: bool,
        max_undo_volume: u64,
    ) -> (r: Self)
        ensures
            r.wf(),
            r.blocks@ == queue@,
            r.block_idx == 0,
            r.tile_entities@ == tile_entities@,
            r.te_idx == 0,
            r.record_undo == (record_undo && queue@.len() <= max_undo_volume),
    {
        let record: bool = record_undo && queue.len() as u64 <= max_undo_volume;
        let r = PasteState {
            blocks: queue,
            block_idx: 0,
            tile_entities,
            te_idx: 0,
            record_undo: record,
            old_snapshots: Vec::new(),
            new_snapshots: Vec::new(),
        };
        assert(r.new_snapshots@ =~= new_snapshots(r.blocks@.take(0)));
        r
    }

    /// What is to be done in a tick.
    pub fn plan_tick(&self, blocks_per_tick: usize) -> (r: Tick)
        requires
            self.wf(),
        ensures
            r == tick_of(*self, blocks_per_tick as int),
            self.block_idx == r.from <= r.to <= self.blocks@.len(),
            self.te_idx == r.tile_from <= r.tile_to <= self.tile_entities@.len(),
    {
        let blocks: usize = self.blocks.len() - self.block_idx;
        let to: usize = if blocks_per_tick < blocks {
            self.block_idx + blocks_per_tick
        } else {
            self.blocks.len()
        };
        let tiles: usize = self.tile_entities.len() - self.te_idx;
        let done: bool = to == self.blocks.len();
        let tile_to: usize = if done && tiles > 0 {
            if blocks_per_tick < tiles {
                self.te_idx + blocks_per_tick
            } else {
                self.tile_entities.len()
            }
        } else {
            self.te_idx
        };
        Tick {
            from: self.block_idx,
            to,
            tile_from: self.te_idx,
            tile_to,
            finished: done && tiles == 0,
        }
    }

    /// Takes note of a tick that was carried out, with the states that were found where blocks
    /// were placed if there is to be an undo.
    pub fn finish_tick(&mut self, tick: Tick, found: &Vec<u16>)
        requires
            old(self).wf(),
            exists|n: int| 0 <= n && tick == #[trigger] tick_of(*old(self), n),
            old(self).record_undo ==> found@.len() == tick.to - tick.from,
        ensures
            final(self).wf(),
            final(self).blocks@ == old(self).blocks@,
            final(self).tile_entities@ == old(self).tile_entities@,
            final(self).record_undo == old(self).record_undo,
            final(self).block_idx == tick.to,
            final(self).te_idx == tick.tile_to,
            old(self).record_undo ==> final(self).old_snapshots@ == old(self).old_snapshots@
                + found_snapshots(
                old(self).blocks@.subrange(tick.from as int, tick.to as int),
                found@,
            ),
    {
        let ghost n = choose|n: int| 0 <= n && tick == #[trigger] tick_of(*old(self), n);
        assert(tick == tick_of(*old(self), n));
        let ghost q = self.blocks@.subrange(tick.from as int, tick.to as int);
        if self.record_undo {
            let mut i: usize = tick.from;
            let ghost before = self.old_snapshots@;
            assert(before =~= before + found_snapshots(q, found@).take(0));
            while i < tick.to
                invariant
                    tick.from <= i <= tick.to <= self.blocks@.len(),
                    self.record_undo,
                    self.blocks == old(self).blocks,
                    self.tile_entities == old(self).tile_entities,
                    self.block_idx == old(self).block_idx,
                    self.te_idx == old(self).te_idx,
                    found@.len() == tick.to - tick.from,
                    q == self.blocks@.subrange(tick.from as int, tick.to as int),
                    self.new_snapshots@ == new_snapshots(self.blocks@.take(i as int)),
                    self.old_snapshots@ == before + found_snapshots(q, found@).take(i - tick.from),
                decreases tick.to - i,
            {
                let p = self.blocks[i];
                let ghost prior = self.old_snapshots@;
                self.old_snapshots.push(
                    BlockSnapshot { pos: p.pos, state_id: found[i - tick.from] },
                );
                self.new_snapshots.push(BlockSnapshot { pos: p.pos, state_id: p.state_id });
                assert(self.blocks@.take(i + 1) =~= self.blocks@.take(i as int).push(p));
                assert(self.new_snapshots@ =~= new_snapshots(self.blocks@.take(i + 1)));
                assert(q[i - tick.from] == p);
                assert(found_snapshots(q, found@).take(i - tick.from + 1) =~= found_snapshots(
                    q,
                    found@,
                ).take(i - tick.from).push(
                    BlockSnapshot { pos: p.pos, state_id: found@[i - tick.from] },
                ));
                assert(self.old_snapshots@ =~= before + found_snapshots(q, found@).take(
                    i - tick.from + 1,
                ));
                i += 1;
            }
            assert(found_snapshots(q, found@).take(tick.to - tick.from) =~= found_snapshots(
                q,
                found@,
            ));
        }
        self.block_idx = tick.to;
        self.te_idx = tick.tile_to;
        assert(self.record_undo ==> forall|i: int|
            0 <= i < self.block_idx ==> (#[trigger] self.old_snapshots@[i]).pos
                == self.blocks@[i].pos);
    }

    /// The operation that was carried out, for undoing it, if an undo is recorded and any block
    /// was placed.
    pub fn into_undo(self, description: String, dimension: String) -> (r: Option<UndoEntry>)
        ensures
            match r {
                Some(e) => {
                    &&& self.record_undo
                    &&& self.old_snapshots@.len() > 0
                    &&& e.description@ == description@
                    &&& e.dimension@ == dimension@
                    &&& e.old_states@ == self.old_snapshots@
                    &&& e.new_states@ == self.new_snapshots@
                },
                None => !self.record_undo || self.old_snapshots@.len() == 0,
            },
    {
        if self.record_undo && self.old_snapshots.len() > 0 {
            Some(
                UndoEntry {
                    description,
                    dimension,
                    old_states: self.old_snapshots,
                    new_states: self.new_snapshots,
                },
            )
        } else {
            None
        }
    }
}

/// A tick that may place anything either ends the operation or leaves less to be done, and an
/// operation ends only when nothing is left.
pub proof fn law_tick_makes_progress(s: PasteState, n: int)
    requires
        s.wf(),
        1 <= n,
    ensures
        ({
            let t = tick_of(s, n);
            &&& t.finished ==> t.to == s.blocks@.len() && t.tile_to == s.tile_entities@.len()
            &&& t.finished || t.to > t.from || t.tile_to > t.tile_from
            &&& t.to - t.from <= n
            &&& t.tile_to - t.tile_from <= n
            &&& t.tile_to > t.tile_from ==> t.to == s.blocks@.len()
        }),
{
}

/// How far an operation has come after a tick.
pub open spec fn after_tick(s: PasteState, t: Tick) -> PasteState {
    PasteState { block_idx: t.to, te_idx: t.tile_to, ..s }
}

/// How far an operation has come after ticks of at most so many blocks each.
pub open spec fn after_ticks(s: PasteState, ns: Seq<int>) -> PasteState
    decreases ns.len(), 1int,
{
    if ns.len() == 0 {
        s
    } else {
        after_tick(after_ticks(s, ns.drop_last()), last_tick(s, ns))
    }
}

/// The last of some ticks.
pub open spec fn last_tick(s: PasteState, ns: Seq<int>) -> Tick
    decreases ns.len(), 0int,
    when ns.len() > 0
{
    tick_of(after_ticks(s, ns.drop_last()), ns.last())
}

/// The blocks that are placed in some ticks.
pub open spec fn placed_in(s: PasteState, ns: Seq<int>) -> Seq<BlockPlacement>
    decreases ns.len(),
{
    if ns.len() == 0 {
        Seq::empty()
    } else {
        let t = last_tick(s, ns);
        placed_in(s, ns.drop_last()) + s.blocks@.subrange(t.from as int, t.to as int)
    }
}

/// The block entities that are stored in some ticks.
pub open spec fn stored_in(s: PasteState, ns: Seq<int>) -> Seq<TileEntityPlacement>
    decreases ns.len(),
{
    if ns.len() == 0 {
        Seq::empty()
    } else {
        let t = last_tick(s, ns);
        stored_in(s, ns.drop_last()) + s.tile_entities@.subrange(
            t.tile_from as int,
            t.tile_to as int,
        )
    }
}

/// Over any number of ticks each block and each block entity is handled at most once, in order, and
/// once the operation is done each has been.
pub proof fn law_ticks_handle_everything_once(s: PasteState, ns: Seq<int>)
    requires
        s.wf(),
        forall|i: int| 0 <= i < ns.len() ==> 0 <= #[trigger] ns[i],
    ensures
        ({
            let e = after_ticks(s, ns);
            &&& s.block_idx <= e.block_idx <= s.blocks@.len()
            &&& s.te_idx <= e.te_idx <= s.tile_entities@.len()
            &&& e.blocks == s.blocks
            &&& e.tile_entities == s.tile_entities
            &&& placed_in(s, ns) == s.blocks@.subrange(s.block_idx as int, e.block_idx as int)
            &&& stored_in(s, ns) == s.tile_entities@.subrange(s.te_idx as int, e.te_idx as int)
        }),
        ns.len() > 0 && last_tick(s, ns).finished ==> placed_in(s, ns) == s.blocks@.skip(
            s.block_idx as int,
        ) && stored_in(s, ns) == s.tile_entities@.skip(s.te_idx as int),
    decreases ns.len(),
{
    let e = after_ticks(s, ns);
    if ns.len() > 0 {
        let ms = ns.drop_last();
        assert forall|i: int| 0 <= i < ms.len() implies 0 <= #[trigger] ms[i] by {
            assert(ms[i] == ns[i]);
        }
        law_ticks_handle_everything_once(s, ms);
        assert(0 <= ns[ns.len() - 1]);
    }
    assert(placed_in(s, ns) =~= s.blocks@.subrange(s.block_idx as int, e.block_idx as int));
    assert(stored_in(s, ns) =~= s.tile_entities@.subrange(s.te_idx as int, e.te_idx as int));
}

/// As long as no tick ends the operation, each leaves less to be done.
proof fn lemma_less_is_left(s: PasteState, ns: Seq<int>, m: int)
    requires
        s.wf(),
        0 <= m <= ns.len(),
        forall|i: int| 0 <= i < ns.len() ==> 1 <= #[trigger] ns[i],
        forall|i: int| 1 <= i <= m ==> !(#[trigger] last_tick(s, ns.take(i))).finished,
    ensures
        after_ticks(s, ns.take(m)).left() <= s.left() - m,
    decreases m,
{
    if m > 0 {
        let ms = ns.take(m);
        lemma_less_is_left(s, ns, m - 1);
        assert(ms.drop_last() =~= ns.take(m - 1));
        law_ticks_handle_everything_once(s, ns.take(m - 1));
        assert(!last_tick(s, ms).finished);
        assert(1 <= ns[m - 1]);
    }
}

/// An operation ends: one of so many ticks is its last, if each may handle anything.
pub proof fn law_operation_ends(s: PasteState, ns: Seq<int>)
    requires
        s.wf(),
        ns.len() > s.left(),
        forall|i: int| 0 <= i < ns.len() ==> 1 <= #[trigger] ns[i],
    ensures
        exists|i: int| 1 <= i <= ns.len() && (#[trigger] last_tick(s, ns.take(i))).finished,
{
    let n = ns.len() as int;
    if forall|i: int| 1 <= i <= n ==> !(#[trigger] last_tick(s, ns.take(i))).finished {
        lemma_less_is_left(s, ns, n);
        law_ticks_handle_everything_once(s, ns.take(n));
    }
}

/// The world after some placings, one after the other.
pub open spec fn applied(w: Map<BlockPos, u16>, q: Seq<BlockPlacement>) -> Map<BlockPos, u16>
    decreases q.len(),
{
    if q.len() == 0 {
        w
    } else {
        applied(w, q.drop_last()).insert(q.last().pos, q.last().state_id)
    }
}

/// The states that are found when each placing is about to be done.
pub open spec fn found_in(w: Map<BlockPos, u16>, q: Seq<BlockPlacement>) -> Seq<u16> {
    Seq::new(q.len(), |i: int| applied(w, q.take(i))[q[i].pos])
}

/// No position occurs twice.
pub open spec fn apart(q: Seq<BlockPlacement>) -> bool {
    forall|i: int, j: int| 0 <= i < j < q.len() ==> (#[trigger] q[i]).pos != (#[trigger] q[j]).pos
}

/// Placing changes the positions of the queue and no other.
proof fn lemma_applied(w: Map<BlockPos, u16>, q: Seq<BlockPlacement>)
    requires
        apart(q),
    ensures
        forall|p: BlockPos|
            (forall|i: int| 0 <= i < q.len() ==> (#[trigger] q[i]).pos != p) ==> (#[trigger] applied(
                w,
                q,
            )[p]) == w[p] && applied(w, q).dom().contains(p) == w.dom().contains(p),
        forall|i: int|
            0 <= i < q.len() ==> applied(w, q)[(#[trigger] q[i]).pos] == q[i].state_id && applied(
                w,
                q,
            ).dom().contains(q[i].pos),
    decreases q.len(),
{
    if q.len() > 0 {
        let t = q.drop_last();
        assert forall|i: int, j: int| 0 <= i < j < t.len() implies (#[trigger] t[i]).pos != (
        #[trigger] t[j]).pos by {
            assert(t[i] == q[i] && t[j] == q[j]);
        }
        lemma_applied(w, t);
        assert forall|p: BlockPos|
            (forall|i: int| 0 <= i < q.len() ==> (#[trigger] q[i]).pos != p) implies (
        #[trigger] applied(w, q)[p]) == w[p] && applied(w, q).dom().contains(p) == w.dom().contains(
            p,
        ) by {
            assert(q[q.len() - 1].pos != p);
            assert forall|i: int| 0 <= i < t.len() implies (#[trigger] t[i]).pos != p by {
                assert(t[i] == q[i]);
            }
            assert(applied(w, t)[p] == w[p]);
        }
        assert forall|i: int| 0 <= i < q.len() implies applied(w, q)[(#[trigger] q[i]).pos]
            == q[i].state_id && applied(w, q).dom().contains(q[i].pos) by {
            if i < t.len() {
                assert(t[i] == q[i]);
                assert(q[i].pos != q[q.len() - 1].pos);
            }
        }
    }
}

/// An undo puts the world back: placing what was found, after the placings, gives the world as it
/// was, and a redo then gives it as the placings left it. No position is placed twice.
pub proof fn law_undo_reverts(w: Map<BlockPos, u16>, q: Seq<BlockPlacement>)
    requires
        apart(q),
        forall|i: int| 0 <= i < q.len() ==> w.dom().contains((#[trigger] q[i]).pos),
    ensures
        ({
            let old_states = found_snapshots(q, found_in(w, q));
            &&& applied(applied(w, q), restoring(old_states)) == w
            &&& applied(
                applied(applied(w, q), restoring(old_states)),
                restoring(new_snapshots(q)),
            ) == applied(w, q)
        }),
{
    let found = found_in(w, q);
    let back = restoring(found_snapshots(q, found));
    let again = restoring(new_snapshots(q));
    let after = applied(w, q);
    let undone = applied(after, back);
    assert(again =~= q);
    lemma_applied(w, q);
    assert forall|i: int| 0 <= i < q.len() implies #[trigger] found[i] == w[q[i].pos] by {
        let t = q.take(i);
        assert forall|a: int, b: int| 0 <= a < b < t.len() implies (#[trigger] t[a]).pos != (
        #[trigger] t[b]).pos by {
            assert(t[a] == q[a] && t[b] == q[b]);
        }
        lemma_applied(w, t);
        let p = q[i].pos;
        assert forall|a: int| 0 <= a < t.len() implies (#[trigger] t[a]).pos != p by {
            assert(t[a] == q[a]);
        }
        assert(applied(w, t)[p] == w[p]);
    }
    assert(apart(back)) by {
        assert forall|i: int, j: int| 0 <= i < j < back.len() implies (#[trigger] back[i]).pos != (
        #[trigger] back[j]).pos by {
            assert(q[i].pos != q[j].pos);
        }
    }
    lemma_applied(after, back);
    assert forall|p: BlockPos|
        #![trigger undone[p]]
        #![trigger w[p]]
        undone.dom().contains(p) == w.dom().contains(p) && undone[p] == w[p] by {
        if exists|i: int| 0 <= i < q.len() && (#[trigger] q[i]).pos == p {
            let i = choose|i: int| 0 <= i < q.len() && (#[trigger] q[i]).pos == p;
            assert(back[i].pos == p && back[i].state_id == found[i]);
        } else {
            assert forall|i: int| 0 <= i < back.len() implies (#[trigger] back[i]).pos != p by {
                assert(q[i].pos != p);
            }
            assert(undone[p] == after[p]);
            assert(after[p] == w[p]);
        }
    }
    assert(undone.dom() =~= w.dom()) by {
        assert forall|p: BlockPos| undone.dom().contains(p) == w.dom().contains(p) by {
            assert(undone[p] == w[p]);
        }
    }
    assert(undone =~= w);
}

} // verus!

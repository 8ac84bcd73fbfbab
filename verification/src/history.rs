//! What a player did, for undoing and redoing it.
use std::collections::VecDeque;

use vstd::prelude::*;
use vstd::string::*;

use crate::grid::BlockPos;
use crate::names::{
    has_name, lemma_put_distinct, lemma_same_names, lemma_slot, lookup, put, slot, NameMap,
};
use crate::placement::BlockPlacement;
use crate::text::{decimal, push_decimal};

verus! {

/// The state of a block at some time.
#[derive(Clone, Copy, Debug, PartialEq, Eq, Structural)]
pub struct BlockSnapshot {
    pub pos: BlockPos,
    pub state_id: u16,
}

/// An operation: the states of its blocks before and after it.
#[derive(Debug)]
pub struct UndoEntry {
    pub description: String,
    pub dimension: String,
    pub old_states: Vec<BlockSnapshot>,
    pub new_states: Vec<BlockSnapshot>,
}

/// The operations that a player can undo and redo, the last one at the back.
#[derive(Debug)]
pub struct PlayerHistory {
    pub undo_stack: VecDeque<UndoEntry>,
    pub redo_stack: VecDeque<UndoEntry>,
}

/// The operations that can be undone and redone.
pub struct HistoryView {
    pub undo: Seq<UndoEntry>,
    pub redo: Seq<UndoEntry>,
}

impl View for PlayerHistory {
    type V = HistoryView;

    open spec fn view(&self) -> HistoryView {
        HistoryView { undo: self.undo_stack@, redo: self.redo_stack@ }
    }
}

/// How many of some operations are kept beside a new one where `max_depth` may be kept in all.
pub open spec fn kept(len: nat, max_depth: int) -> int {
    if len <= max_depth - 1 {
        len as int
    } else {
        max_depth - 1
    }
}

/// A history after one more operation: the newest `max_depth` operations can be undone, none
/// where that is 0, and nothing can be redone.
pub open spec fn pushed(h: HistoryView, entry: UndoEntry, max_depth: int) -> HistoryView {
    HistoryView {
        undo: if max_depth <= 0 {
            Seq::empty()
        } else {
            h.undo.skip(h.undo.len() - kept(h.undo.len(), max_depth)).push(entry)
        },
        redo: Seq::empty(),
    }
}

/// The operations among which an undo or a redo takes the last.
pub open spec fn stack_for(h: HistoryView, is_undo: bool) -> Seq<UndoEntry> {
    if is_undo {
        h.undo
    } else {
        h.redo
    }
}

/// A history after an undo or a redo: the last operation moves to the other side.
pub open spec fn stepped(h: HistoryView, is_undo: bool) -> HistoryView {
    if is_undo {
        HistoryView { undo: h.undo.drop_last(), redo: h.redo.push(h.undo.last()) }
    } else {
        HistoryView { undo: h.undo.push(h.redo.last()), redo: h.redo.drop_last() }
    }
}

/// The placings of some states.
pub open spec fn restoring(states: Seq<BlockSnapshot>) -> Seq<BlockPlacement> {
    states.map_values(|s: BlockSnapshot| BlockPlacement { pos: s.pos, state_id: s.state_id })
}

/// The states that an undo or a redo of an operation places.
pub open spec fn states_for(e: UndoEntry, is_undo: bool) -> Seq<BlockSnapshot> {
    if is_undo {
        e.old_states@
    } else {
        e.new_states@
    }
}

impl PlayerHistory {
    /// The history of a player who did nothing.
    pub fn new() -> (r: Self)
        ensures
            r@ == (HistoryView { undo: Seq::empty(), redo: Seq::empty() }),
    {
        PlayerHistory { undo_stack: VecDeque::new(), redo_stack: VecDeque::new() }
    }

    /// Stores an operation. The oldest ones leave where there would be more than `max_depth`.
    pub fn push_undo(&mut self, entry: UndoEntry, max_depth: usize)
        ensures
            final(self)@ == pushed(old(self)@, entry, max_depth as int),
    {
        self.redo_stack.clear();
        if max_depth == 0 {
            self.undo_stack.clear();
            return;
        }
        let ghost before = self.undo_stack@;
        assert(before.skip(0) =~= before);
        while self.undo_stack.len() >= max_depth
            invariant
                max_depth > 0,
                self.undo_stack@.len() <= before.len(),
                self.undo_stack@.len() >= kept(before.len(), max_depth as int),
                self.undo_stack@ == before.skip(before.len() - self.undo_stack@.len()),
                self.redo_stack@.len() == 0,
            decreases self.undo_stack@.len(),
        {
            let _ = self.undo_stack.pop_front();
            assert(self.undo_stack@ =~= before.skip(before.len() - self.undo_stack@.len()));
        }
        self.undo_stack.push_back(entry);
        assert(self@.redo =~= Seq::empty());
        assert(self@.undo =~= pushed(old(self)@, entry, max_depth as int).undo);
    }
}

/// Stores an operation in the history of a player, who may have none yet.
pub fn store_operation(
    histories: &mut NameMap<PlayerHistory>,
    player_name: &str,
    entry: UndoEntry,
    max_depth: usize,
)
    ensures
        ({
            let k = slot(old(histories)@, player_name@);
            let h = match lookup(old(histories)@, player_name@) {
                Some(h) => h@,
                None => HistoryView { undo: Seq::empty(), redo: Seq::empty() },
            };
            &&& final(histories)@.len() == (if has_name(old(histories)@, player_name@) {
                old(histories)@.len()
            } else {
                old(histories)@.len() + 1
            })
            &&& final(histories)@[k].0 == player_name@
            &&& final(histories)@[k].1@ == pushed(h, entry, max_depth as int)
            &&& forall|i: int|
                0 <= i < old(histories)@.len() && i != k ==> #[trigger] final(histories)@[i]
                    == old(histories)@[i]
        }),
        old(histories).wf() ==> final(histories).wf(),
{
    let ghost before = histories@;
    proof {
        lemma_slot(histories@, player_name@);
    }
    match histories.position(player_name) {
        Some(k) => {
            histories.entries[k].1.push_undo(entry, max_depth);
            proof {
                lemma_same_names(before, histories@);
            }
        },
        None => {
            let mut h = PlayerHistory::new();
            h.push_undo(entry, max_depth);
            histories.entries.push((player_name.to_owned(), h));
            proof {
                lemma_put_distinct(before, player_name@, h);
                assert(histories@ =~= put(before, player_name@, h));
            }
        },
    }
}

/// An undo or a redo that is to be carried out.
#[derive(Debug)]
pub struct HistoryStep {
    pub queue: Vec<BlockPlacement>,
    pub dimension: String,
    pub description: String,
    pub message: String,
}

/// What tells the player that there is nothing to undo or redo.
pub open spec fn nothing_text(is_undo: bool) -> Seq<char> {
    if is_undo {
        "Nothing to undo."@
    } else {
        "Nothing to redo."@
    }
}

/// What tells the player that an undo or a redo starts.
pub open spec fn step_text(e: UndoEntry, is_undo: bool) -> Seq<char> {
    (if is_undo {
        "Undoing: "@
    } else {
        "Redoing: "@
    }) + e.description@ + " ("@ + decimal(states_for(e, is_undo).len() as int) + " blocks)..."@
}

/// How an undo or a redo is described.
pub open spec fn step_description(e: UndoEntry, is_undo: bool) -> Seq<char> {
    (if is_undo {
        "Undo: "@
    } else {
        "Redo: "@
    }) + e.description@
}

/// Whether a step places the states of an operation and speaks of it.
pub open spec fn carries_out(step: HistoryStep, e: UndoEntry, is_undo: bool) -> bool {
    &&& step.queue@ == restoring(states_for(e, is_undo))
    &&& step.dimension@ == e.dimension@
    &&& step.description@ == step_description(e, is_undo)
    &&& step.message@ == step_text(e, is_undo)
}

/// The placings of some states.
fn restore(states: &Vec<BlockSnapshot>) -> (r: Vec<BlockPlacement>)
    ensures
        r@ == restoring(states@),
{
    let mut queue: Vec<BlockPlacement> = Vec::with_capacity(states.len());
    let mut i: usize = 0;
    while i < states.len()
        invariant
            i <= states@.len(),
            queue@ == restoring(states@).take(i as int),
        decreases states@.len() - i,
    {
        let s = states[i];
        queue.push(BlockPlacement { pos: s.pos, state_id: s.state_id });
        assert(queue@ =~= restoring(states@).take(i + 1));
        i += 1;
    }
    assert(queue@ =~= restoring(states@));
    queue
}

/// What an undo or a redo of an operation does and says.
pub fn history_step(entry: &UndoEntry, is_undo: bool) -> (r: HistoryStep)
    ensures
        carries_out(r, *entry, is_undo),
{
    let states = if is_undo {
        &entry.old_states
    } else {
        &entry.new_states
    };
    let queue = restore(states);
    let mut message = if is_undo {
        "Undoing: ".to_string()
    } else {
        "Redoing: ".to_string()
    };
    message.append(entry.description.as_str());
    message.append(" (");
    push_decimal(&mut message, states.len() as u64);
    message.append(" blocks)...");
    let mut description = if is_undo {
        "Undo: ".to_string()
    } else {
        "Redo: ".to_string()
    };
    description.append(entry.description.as_str());
    HistoryStep { queue, dimension: entry.dimension.as_str().to_owned(), description, message }
}

/// Undoes or redoes the last operation of a player: the operation moves to the other side of the
/// history, and its states are to be placed.
pub fn run_history_op(
    histories: &mut NameMap<PlayerHistory>,
    player_name: &str,
    is_undo: bool,
) -> (r: Result<HistoryStep, String>)
    ensures
        match (r, lookup(old(histories)@, player_name@)) {
            (Ok(step), Some(h)) => {
                let k = slot(old(histories)@, player_name@);
                let stack = stack_for(h@, is_undo);
                &&& stack.len() > 0
                &&& carries_out(step, stack.last(), is_undo)
                &&& final(histories)@.len() == old(histories)@.len()
                &&& final(histories)@[k].0 == player_name@
                &&& final(histories)@[k].1@ == stepped(h@, is_undo)
                &&& forall|i: int|
                    0 <= i < old(histories)@.len() && i != k ==> #[trigger] final(histories)@[i]
                        == old(histories)@[i]
            },
            (Err(e), Some(h)) => {
                &&& stack_for(h@, is_undo).len() == 0
                &&& e@ == nothing_text(is_undo)
                &&& final(histories)@ == old(histories)@
            },
            (Err(e), None) => e@ == nothing_text(is_undo) && final(histories)@ == old(histories)@,
            (Ok(_), None) => false,
        },
        old(histories).wf() ==> final(histories).wf(),
{
    let nothing = if is_undo {
        "Nothing to undo.".to_string()
    } else {
        "Nothing to redo.".to_string()
    };
    let k: usize = match histories.position(player_name) {
        Some(k) => k,
        None => return Err(nothing),
    };
    proof {
        lemma_slot(histories@, player_name@);
    }
    let ghost before = histories@;
    let ghost h = histories.entries@[k as int].1@;
    let left: usize = if is_undo {
        histories.entries[k].1.undo_stack.len()
    } else {
        histories.entries[k].1.redo_stack.len()
    };
    if left == 0 {
        return Err(nothing);
    }
    let taken = if is_undo {
        histories.entries[k].1.undo_stack.pop_back()
    } else {
        histories.entries[k].1.redo_stack.pop_back()
    };
    let entry = match taken {
        Some(entry) => entry,
        None => return Err(nothing),
    };
    let step = history_step(&entry, is_undo);
    if is_undo {
        histories.entries[k].1.redo_stack.push_back(entry);
    } else {
        histories.entries[k].1.undo_stack.push_back(entry);
    }
    assert(histories.entries@[k as int].1@.undo =~= stepped(h, is_undo).undo);
    assert(histories.entries@[k as int].1@.redo =~= stepped(h, is_undo).redo);
    proof {
        lemma_same_names(before, histories@);
    }
    Ok(step)
}

/// The number of operations that a history holds.
pub open spec fn depth(h: HistoryView) -> nat {
    h.undo.len() + h.redo.len()
}

/// After an operation a history holds no more operations than it may, however many it held before,
/// and those are the newest.
pub proof fn law_history_stays_bounded(h: HistoryView, entry: UndoEntry, max_depth: nat)
    ensures
        depth(pushed(h, entry, max_depth as int)) <= max_depth,
        ({
            let all = h.undo.push(entry);
            let undo = pushed(h, entry, max_depth as int).undo;
            &&& undo == all.skip(all.len() - undo.len())
            &&& undo.len() == (if all.len() <= max_depth {
                all.len()
            } else {
                max_depth
            })
        }),
{
    let all = h.undo.push(entry);
    let undo = pushed(h, entry, max_depth as int).undo;
    assert(undo =~= all.skip(all.len() - undo.len()));
}

/// An undo or a redo keeps the number of operations.
pub proof fn law_step_keeps_depth(h: HistoryView, is_undo: bool)
    requires
        stack_for(h, is_undo).len() > 0,
    ensures
        depth(stepped(h, is_undo)) == depth(h),
{
}

/// A redo after an undo, and an undo after a redo, take the same operation back and leave the
/// history as it was.
pub proof fn law_step_and_back(h: HistoryView, is_undo: bool)
    requires
        stack_for(h, is_undo).len() > 0,
    ensures
        stack_for(stepped(h, is_undo), !is_undo).len() > 0,
        stack_for(stepped(h, is_undo), !is_undo).last() == stack_for(h, is_undo).last(),
        stepped(stepped(h, is_undo), !is_undo) == h,
{
    let b = stepped(stepped(h, is_undo), !is_undo);
    assert(b.undo =~= h.undo);
    assert(b.redo =~= h.redo);
}

/// After an operation there is nothing to redo, and an undo takes that operation if any is kept.
pub proof fn law_new_operation_ends_redo(h: HistoryView, entry: UndoEntry, max_depth: int)
    ensures
        stack_for(pushed(h, entry, max_depth), false).len() == 0,
        max_depth >= 1 ==> stack_for(pushed(h, entry, max_depth), true).len() > 0 && stack_for(
            pushed(h, entry, max_depth),
            true,
        ).last() == entry,
{
}

} // verus!

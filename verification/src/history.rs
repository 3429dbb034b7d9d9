use vstd::prelude::*;
use crate::octree::Octree;

verus! {

/// Resource for tracking the game's current place in the history.
#[derive(Debug, Clone, Copy, PartialEq, Eq, Structural)]
pub struct CurrentHistoricalStep(pub u32);

impl Default for CurrentHistoricalStep {
    fn default() -> (r: CurrentHistoricalStep)
        ensures
            r.0 == 1,
    {
        CurrentHistoricalStep(1)
    }
}

/// One undoable change: the map's tiles before the change (to undo it) and the change
/// itself (to redo it).
pub enum StepType {
    MapChange((Octree, Octree)),
}

/// Why no step could be taken.
#[derive(Debug, Clone, Copy, PartialEq, Eq, Structural)]
pub enum HistoryError {
    NotFound,
}

/// Both sides of the step are well formed trees.
pub open spec fn step_wf(s: StepType) -> bool {
    match s {
        StepType::MapChange((undo, redo)) => undo.wf() && redo.wf(),
    }
}

/// The side of a step that a move by `amount` applies to the map: the change itself going
/// forward, the tiles from before it going back.
pub open spec fn step_side(s: StepType, amount: int) -> Octree {
    match s {
        StepType::MapChange((undo, redo)) => if amount > 0 { redo } else { undo },
    }
}

/// The sign of `v`: -1, 0 or 1.
pub open spec fn sign(v: int) -> int {
    if v > 0 { 1 } else if v < 0 { -1 } else { 0 }
}

pub fn signum(v: i32) -> (r: i32)
    ensures
        r == sign(v as int),
{
    if v > 0 { 1 } else if v < 0 { -1 } else { 0 }
}

/// The index a move by `amount` lands on, from `current` after a move by `previous`: a move
/// that turns back from the previous direction stays on the step the previous move reached.
pub open spec fn target_step(current: int, previous: int, amount: int) -> int {
    if sign(amount) != sign(previous) { current } else { current + amount }
}

/// The undo history of the changes made by one client.
pub struct History {
    history: Vec<StepType>,
    current_step: i32,
    previous_amount: i32,
}

impl History {
    pub closed spec fn steps(&self) -> Seq<StepType> {
        self.history@
    }

    pub closed spec fn spec_current_step(&self) -> i32 {
        self.current_step
    }

    pub closed spec fn spec_previous_amount(&self) -> i32 {
        self.previous_amount
    }

    /// The current step lies between -1 (nothing done yet) and one past the last step.
    pub open spec fn wf(&self) -> bool {
        -1 <= self.spec_current_step() <= self.steps().len()
    }

    /// How many steps are applied: one past the step last redone, or the step last undone
    /// (nothing, on a new history). Steps from there on have been undone.
    pub open spec fn cursor(&self) -> int {
        if self.spec_current_step() < 0 {
            0
        } else if self.spec_previous_amount() > 0 {
            self.spec_current_step() + 1
        } else {
            self.spec_current_step() as int
        }
    }

    /// The history is a list of steps and a cursor into it: the last move went one step back
    /// or forward (or none was made yet), and the cursor lies within the list.
    pub open spec fn model_ok(&self) -> bool {
        &&& self.wf()
        &&& (self.spec_previous_amount() == -1 || self.spec_previous_amount() == 1)
        &&& self.cursor() <= self.steps().len()
        &&& (self.spec_previous_amount() == 1 ==> self.spec_current_step() >= 0)
        &&& (self.spec_current_step() >= 0 || self.steps().len() == 0)
    }

    /// Every step's sides are well formed trees.
    pub open spec fn steps_wf(&self) -> bool {
        forall|k: int| 0 <= k < self.steps().len() ==> step_wf(#[trigger] self.steps()[k])
    }

    /// `after` is `before` with `step` added as `add_step` adds it.
    pub open spec fn added(before: History, after: History, step: StepType) -> bool {
        let cut = if before.cursor() < before.steps().len() {
            before.cursor()
        } else {
            before.steps().len() as int
        };
        &&& after.steps() == before.steps().take(cut).push(step)
        &&& after.spec_current_step() == cut + 1
        &&& after.spec_previous_amount() == -1
    }

    /// The step a move by `amount` would reach, if it is a step of the history.
    pub open spec fn spec_determine_move(&self, amount: int) -> Option<int> {
        let next = target_step(self.spec_current_step() as int, self.spec_previous_amount() as int, amount);
        if 0 <= next < self.steps().len() { Some(next) } else { None }
    }

    pub fn new() -> (r: History)
        ensures
            r.wf(),
            r.model_ok(),
            r.cursor() == 0,
            r.steps() == Seq::<StepType>::empty(),
            r.spec_current_step() == -1,
            r.spec_previous_amount() == -1,
    {
        History { history: Vec::new(), current_step: -1, previous_amount: -1 }
    }

    /// Records a new step. Steps beyond the applied ones (undone and not redone) are dropped
    /// first; the new step is then the last applied one, so that an undo reaches it.
    pub fn add_step(&mut self, step: StepType)
        requires
            old(self).steps().len() < i32::MAX,
        ensures
            ({
                let cut = if old(self).cursor() < old(self).steps().len() {
                    old(self).cursor()
                } else {
                    old(self).steps().len() as int
                };
                &&& final(self).steps() == old(self).steps().take(cut).push(step)
                &&& final(self).spec_current_step() == cut + 1
            }),
            final(self).spec_previous_amount() == -1,
            final(self).cursor() == final(self).steps().len(),
            final(self).wf(),
            final(self).model_ok(),
            History::added(*old(self), *final(self), step),
            old(self).steps_wf() && step_wf(step) ==> final(self).steps_wf(),
    {
        let cursor: i64 = if self.current_step < 0 {
            0
        } else if self.previous_amount > 0 {
            self.current_step as i64 + 1
        } else {
            self.current_step as i64
        };
        let ghost cut: int = if old(self).cursor() < old(self).steps().len() {
            old(self).cursor()
        } else {
            old(self).steps().len() as int
        };
        if cursor < self.history.len() as i64 {
            self.history.truncate(cursor as usize);
        }
        self.history.push(step);
        self.current_step = self.history.len() as i32;
        self.previous_amount = -1;
        proof {
            assert(self.history@ =~= old(self).history@.take(cut).push(step));
            if old(self).steps_wf() && step_wf(step) {
                assert forall|k: int| 0 <= k < self.steps().len() implies step_wf(#[trigger] self.steps()[k]) by {
                    if k < cut {
                        assert(self.steps()[k] == old(self).steps()[k]);
                    }
                }
            }
        }
    }

    /// The index of the step that a move by `amount` reaches.
    fn determine_move(&self, amount: i32) -> (r: Result<usize, HistoryError>)
        requires
            i32::MIN <= self.spec_current_step() + amount <= i32::MAX,
        ensures
            match self.spec_determine_move(amount as int) {
                Some(i) => r == Ok::<usize, HistoryError>(i as usize),
                None => r == Err::<usize, HistoryError>(HistoryError::NotFound),
            },
    {
        let mut next_step = self.current_step + amount;
        if signum(amount) != signum(self.previous_amount) {
            next_step -= amount;
        }
        if next_step > -1 && (next_step as usize) < self.history.len() {
            Ok(next_step as usize)
        } else {
            Err(HistoryError::NotFound)
        }
    }

    /// Moves by `amount` steps through the history. When the move reaches a step, returns
    /// its index (the caller applies that step: its redo side for a positive amount, its
    /// undo side otherwise) and makes it the current step.
    pub fn move_by_step(&mut self, amount: i32) -> (r: Option<usize>)
        requires
            i32::MIN <= old(self).spec_current_step() + amount <= i32::MAX,
            old(self).steps().len() <= i32::MAX,
        ensures
            final(self).steps() == old(self).steps(),
            old(self).wf() ==> final(self).wf(),
            old(self).model_ok() && (amount == 1 || amount == -1) && r.is_some() ==> final(self).model_ok()
                && final(self).cursor() == old(self).cursor() + amount,
            match old(self).spec_determine_move(amount as int) {
                Some(i) => {
                    &&& r == Some(i as usize)
                    &&& final(self).spec_current_step() == i
                    &&& final(self).spec_previous_amount() == amount
                },
                None => {
                    &&& r.is_none()
                    &&& final(self).spec_current_step() == old(self).spec_current_step()
                    &&& final(self).spec_previous_amount() == old(self).spec_previous_amount()
                },
            },
    {
        match self.determine_move(amount) {
            Ok(next_step) => {
                let len = self.history.len() as i32;
                let next = next_step as i32;
                let clamped = if next < len { next } else { len };
                self.current_step = if clamped > -1 { clamped } else { -1 };
                self.previous_amount = amount;
                Some(next_step)
            },
            Err(_) => None,
        }
    }

    /// The step an undo would reach, if there is one.
    pub fn can_undo(&self) -> (r: Result<&StepType, HistoryError>)
        requires
            self.spec_current_step() > i32::MIN,
        ensures
            match self.spec_determine_move(-1) {
                Some(i) => r.is_ok() && *r.unwrap() == self.steps()[i],
                None => r == Err::<&StepType, HistoryError>(HistoryError::NotFound),
            },
    {
        match self.determine_move(-1) {
            Ok(i) => Ok(&self.history[i]),
            Err(e) => Err(e),
        }
    }

    /// The step a redo would reach, if there is one.
    pub fn can_redo(&self) -> (r: Result<&StepType, HistoryError>)
        requires
            self.spec_current_step() < i32::MAX,
        ensures
            match self.spec_determine_move(1) {
                Some(i) => r.is_ok() && *r.unwrap() == self.steps()[i],
                None => r == Err::<&StepType, HistoryError>(HistoryError::NotFound),
            },
    {
        match self.determine_move(1) {
            Ok(i) => Ok(&self.history[i]),
            Err(e) => Err(e),
        }
    }

    /// A copy of the side of step `index` that a move by `amount` applies to the map: the
    /// change itself for a move forward, the tiles from before it for a move back.
    pub fn change_for_step(&self, index: usize, amount: i32) -> (r: Octree)
        requires
            index < self.steps().len(),
            self.steps_wf(),
        ensures
            r.wf(),
            r@ == step_side(self.steps()[index as int], amount as int)@,
            r.spec_aabb() == step_side(self.steps()[index as int], amount as int).spec_aabb(),
            r.spec_max_elements() == step_side(self.steps()[index as int], amount as int).spec_max_elements(),
    {
        assert(step_wf(self.steps()[index as int]));
        match &self.history[index] {
            StepType::MapChange((undo, redo)) => {
                if amount > 0 {
                    redo.duplicate()
                } else {
                    undo.duplicate()
                }
            },
        }
    }

    /// The step at `index`.
    pub fn get_step(&self, index: usize) -> (r: &StepType)
        requires
            index < self.steps().len(),
        ensures
            *r == self.steps()[index as int],
    {
        &self.history[index]
    }

    /// The index of the current step (-1 on a new history).
    pub fn current_step(&self) -> (r: i32)
        ensures
            r == self.spec_current_step(),
    {
        self.current_step
    }

    pub fn len(&self) -> (r: usize)
        ensures
            r == self.steps().len(),
    {
        self.history.len()
    }
}

/// A move in the other direction (or a standstill) right after a successful move reaches
/// the same step again: a redo right after an undo redoes what was undone, and an undo
/// right after a redo undoes what was redone.
pub proof fn lemma_reverse_move_returns_same_step(before: History, after: History, a: i32, b: i32)
    requires
        before.spec_determine_move(a as int) is Some,
        after.steps() == before.steps(),
        after.spec_current_step() == before.spec_determine_move(a as int)->0,
        after.spec_previous_amount() == a,
        sign(b as int) != sign(a as int),
    ensures
        after.spec_determine_move(b as int) == before.spec_determine_move(a as int),
{
}

/// Right after a step is added, an undo reaches that step, and there is nothing to redo.
pub proof fn lemma_undo_after_add_step(after: History, step: StepType)
    requires
        after.spec_previous_amount() == -1,
        after.steps().len() > 0,
        after.steps().last() == step,
        after.spec_current_step() == after.steps().len(),
    ensures
        after.spec_determine_move(-1) == Some((after.steps().len() - 1) as int),
        after.steps()[after.steps().len() - 1] == step,
        after.spec_determine_move(1) is None,
{
}

/// A history read as a list of steps and a cursor: an undo reaches the step just before the
/// cursor and a redo the step at it, where there is one.
pub proof fn lemma_cursor_model(h: History)
    requires
        h.model_ok(),
    ensures
        h.spec_determine_move(-1) == (if h.cursor() > 0 { Some(h.cursor() - 1) } else { None::<int> }),
        h.spec_determine_move(1) == (if h.cursor() < h.steps().len() { Some(h.cursor()) } else { None::<int> }),
{
}

/// A new history has nothing to undo or redo.
pub proof fn lemma_new_history_is_empty(h: History, amount: i32)
    requires
        h.steps() == Seq::<StepType>::empty(),
        h.spec_current_step() == -1,
        h.spec_previous_amount() == -1,
    ensures
        h.spec_determine_move(amount as int) is None,
{
}


/// `i` is the first of the histories kept for client `id`.
pub open spec fn first_history(hs: Seq<(u32, History)>, id: u32, i: int) -> bool {
    &&& 0 <= i < hs.len()
    &&& hs[i].0 == id
    &&& forall|k: int| 0 <= k < i ==> (#[trigger] hs[k]).0 != id
}

/// `after` is `before` with `step` recorded for client `id`: the first history kept for that
/// client gains the step and the others stay as they were; nothing changes where no history
/// is kept for that client.
pub open spec fn recorded(before: Seq<(u32, History)>, after: Seq<(u32, History)>, id: u32, step: StepType) -> bool {
    &&& after.len() == before.len()
    &&& ((exists|i: int| {
        &&& #[trigger] first_history(before, id, i)
        &&& after[i].0 == id
        &&& History::added(before[i].1, after[i].1, step)
        &&& forall|k: int| 0 <= k < before.len() && k != i ==> (#[trigger] after[k]) == before[k]
    }) || ((forall|k: int| 0 <= k < before.len() ==> (#[trigger] before[k]).0 != id) && after == before))
}

/// Records an accepted change in the history of the client that made it: the first history
/// kept for `client_id` gains the step, as `add_step` adds it; where none is kept for that
/// client, nothing changes. Returns the position of the history that took the step.
pub fn record_change(histories: &mut Vec<(u32, History)>, client_id: u32, step: StepType) -> (r: Option<usize>)
    requires
        forall|k: int| 0 <= k < old(histories)@.len() ==> (#[trigger] old(histories)@[k]).1.steps().len() < i32::MAX,
    ensures
        final(histories)@.len() == old(histories)@.len(),
        recorded(old(histories)@, final(histories)@, client_id, step),
        match r {
            Some(i) => {
                &&& i < old(histories)@.len()
                &&& old(histories)@[i as int].0 == client_id
                &&& forall|k: int| 0 <= k < i ==> (#[trigger] old(histories)@[k]).0 != client_id
                &&& final(histories)@[i as int].0 == client_id
                &&& History::added(old(histories)@[i as int].1, final(histories)@[i as int].1, step)
                &&& forall|k: int| 0 <= k < old(histories)@.len() && k != i ==> (#[trigger] final(histories)@[k]) == old(histories)@[k]
            },
            None => {
                &&& forall|k: int| 0 <= k < old(histories)@.len() ==> (#[trigger] old(histories)@[k]).0 != client_id
                &&& final(histories)@ == old(histories)@
            },
        },
{
    let n = histories.len();
    let mut i: usize = 0;
    while i < n
        invariant
            n == histories@.len(),
            histories@ == old(histories)@,
            forall|k: int| 0 <= k < histories@.len() ==> (#[trigger] histories@[k]).1.steps().len() < i32::MAX,
            i <= n,
            forall|k: int| 0 <= k < i ==> (#[trigger] histories@[k]).0 != client_id,
        decreases n - i,
    {
        if histories[i].0 == client_id {
            let ghost before = histories@;
            let (id, mut h) = histories.remove(i);
            assert(h == before[i as int].1);
            assert(h.steps().len() < i32::MAX);
            h.add_step(step);
            histories.insert(i, (id, h));
            proof {
                assert forall|k: int| 0 <= k < before.len() && k != i implies (#[trigger] histories@[k]) == before[k] by {
                    if k < i {
                        assert(histories@[k] == before.remove(i as int)[k]);
                    } else {
                        assert(histories@[k] == before.remove(i as int)[k - 1]);
                    }
                }
            }
            assert(first_history(old(histories)@, client_id, i as int));
            return Some(i);
        }
        i += 1;
    }
    None
}

} // verus!

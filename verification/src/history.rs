//! Undo / redo bookkeeping and the editing commands it records.
use vstd::prelude::*;

verus! {

/// Something with a label for the Edit menu.
pub trait Named {
    spec fn spec_name(&self) -> Seq<char>;

    fn name(&self) -> (r: &str)
        ensures
            r@ == self.spec_name();
}

/// An undoable edit of a document of type `D`.
pub trait Command<D>: Named {
    /// `after` is what executing the command can make of `before`.
    spec fn executes(&self, before: D, after: D) -> bool;

    /// `after` is what undoing the command can make of `before`.
    spec fn undoes(&self, before: D, after: D) -> bool;

    fn execute(&self, doc: &mut D)
        ensures
            self.executes(*old(doc), *final(doc));

    fn undo(&self, doc: &mut D)
        ensures
            self.undoes(*old(doc), *final(doc));
}

/// A recorded command with the state ids before and after it.
pub struct UndoStep<C> {
    pub cmd: C,
    pub state_id_before: u64,
    pub state_id_after: u64,
}

/// Undo history bound.
pub const MAX_UNDO_STEPS: usize = 100;

/// Model of the history: both stacks (top at the end), the state counter,
/// the id of the current state and the id of the last saved state.
pub struct History<C> {
    pub undo: Seq<UndoStep<C>>,
    pub redo: Seq<UndoStep<C>>,
    pub counter: nat,
    pub current: nat,
    pub saved: Option<nat>,
}

pub open spec fn initial_history<C>() -> History<C> {
    History { undo: Seq::empty(), redo: Seq::empty(), counter: 0, current: 0, saved: Some(0) }
}

/// Consecutive steps share their state ids, and the current state is the
/// one after the top undo step and before the top redo step; no state id,
/// the saved one included, is above the counter.
pub open spec fn chained<C>(h: History<C>) -> bool {
    &&& h.undo.len() > 0 ==> h.current == h.undo.last().state_id_after
    &&& h.redo.len() > 0 ==> h.current == h.redo.last().state_id_before
    &&& forall|k: int| 0 <= k < h.undo.len() - 1 ==> (#[trigger] h.undo[k]).state_id_after == h.undo[k + 1].state_id_before
    &&& forall|k: int| 0 <= k < h.redo.len() - 1 ==> (#[trigger] h.redo[k]).state_id_before == h.redo[k + 1].state_id_after
    &&& forall|k: int| 0 <= k < h.undo.len() ==> (#[trigger] h.undo[k]).state_id_before <= h.counter
        && h.undo[k].state_id_after <= h.counter
    &&& forall|k: int| 0 <= k < h.redo.len() ==> (#[trigger] h.redo[k]).state_id_before <= h.counter
        && h.redo[k].state_id_after <= h.counter
    &&& h.current <= h.counter
    &&& h.saved matches Some(sv) ==> sv <= h.counter
    &&& h.counter <= u64::MAX
}

pub open spec fn spec_is_dirty<C>(h: History<C>) -> bool {
    h.saved != Some(h.current)
}

/// Recording a command: a fresh state id, the step on top of the undo
/// stack (the oldest step dropped beyond the bound), the redo stack emptied.
pub open spec fn spec_execute<C>(h: History<C>, cmd: C) -> History<C> {
    let id = h.counter + 1;
    let step = UndoStep { cmd: cmd, state_id_before: h.current as u64, state_id_after: id as u64 };
    let pushed = h.undo.push(step);
    History {
        undo: if pushed.len() > MAX_UNDO_STEPS { pushed.drop_first() } else { pushed },
        redo: Seq::empty(),
        counter: id,
        current: id,
        saved: h.saved,
    }
}

/// Undo moves the top step to the redo stack and returns to the state
/// before it; with nothing to undo the history is unchanged.
pub open spec fn spec_undo<C>(h: History<C>) -> History<C> {
    if h.undo.len() == 0 {
        h
    } else {
        let step = h.undo.last();
        History {
            undo: h.undo.drop_last(),
            redo: h.redo.push(step),
            current: step.state_id_before as nat,
            ..h
        }
    }
}

/// Redo moves the top redo step back and returns to the state after it.
pub open spec fn spec_redo<C>(h: History<C>) -> History<C> {
    if h.redo.len() == 0 {
        h
    } else {
        let step = h.redo.last();
        History {
            undo: h.undo.push(step),
            redo: h.redo.drop_last(),
            current: step.state_id_after as nat,
            ..h
        }
    }
}

/// Clearing empties both stacks and starts a fresh, saved state.
pub open spec fn spec_clear<C>(h: History<C>) -> History<C> {
    History {
        undo: Seq::empty(),
        redo: Seq::empty(),
        counter: h.counter + 1,
        current: h.counter + 1,
        saved: Some(h.counter + 1),
    }
}

/// The undo / redo manager.
pub struct UndoManager<C> {
    undo_stack: Vec<UndoStep<C>>,
    redo_stack: Vec<UndoStep<C>>,
    max_steps: usize,
    state_counter: u64,
    current_state_id: u64,
    saved_state_id: Option<u64>,
}

impl<C> View for UndoManager<C> {
    type V = History<C>;

    closed spec fn view(&self) -> History<C> {
        History {
            undo: self.undo_stack@,
            redo: self.redo_stack@,
            counter: self.state_counter as nat,
            current: self.current_state_id as nat,
            saved: match self.saved_state_id {
                Some(s) => Some(s as nat),
                None => None,
            },
        }
    }
}

impl<C> Default for UndoManager<C> {
    /// The same as `UndoManager::new`.
    fn default() -> (m: Self)
        ensures
            m.wf(),
            m@ == initial_history::<C>(),
    {
        UndoManager::new()
    }
}

impl<C> UndoManager<C> {
    /// Well-formedness: the bound is in place and the stacks respect it.
    pub closed spec fn wf(&self) -> bool {
        &&& self.max_steps == MAX_UNDO_STEPS
        &&& self.undo_stack@.len() + self.redo_stack@.len() <= MAX_UNDO_STEPS
        &&& chained(self@)
    }

    pub fn new() -> (m: Self)
        ensures
            m.wf(),
            chained(m@),
            m@ == initial_history::<C>(),
    {
        UndoManager {
            undo_stack: Vec::new(),
            redo_stack: Vec::new(),
            max_steps: MAX_UNDO_STEPS,
            state_counter: 0,
            current_state_id: 0,
            saved_state_id: Some(0),
        }
    }

    pub fn is_dirty(&self) -> (r: bool)
        ensures
            r == spec_is_dirty(self@),
    {
        match self.saved_state_id {
            Some(saved) => saved != self.current_state_id,
            None => true,
        }
    }

    pub fn mark_saved(&mut self)
        requires
            old(self).wf(),
        ensures
            final(self).wf(),
            final(self)@ == (History { saved: Some(old(self)@.current), ..old(self)@ }),
    {
        self.saved_state_id = Some(self.current_state_id);
    }

    pub fn mark_dirty(&mut self)
        requires
            old(self).wf(),
        ensures
            final(self).wf(),
            final(self)@ == (History { saved: None, ..old(self)@ }),
    {
        self.saved_state_id = None;
    }

    /// Apply `cmd` to `doc` and record it.
    pub fn execute<D>(&mut self, cmd: C, doc: &mut D)
        where
            C: Command<D>,
        requires
            old(self).wf(),
            old(self)@.counter < u64::MAX,
        ensures
            final(self).wf(),
            final(self)@ == spec_execute(old(self)@, cmd),
            cmd.executes(*old(doc), *final(doc)),
            chained(final(self)@),
            final(self)@.undo.len() + final(self)@.redo.len() <= MAX_UNDO_STEPS,
            spec_is_dirty(final(self)@),
    {
                cmd.execute(doc);
        self.state_counter = self.state_counter + 1;
        let step = UndoStep {
            cmd,
            state_id_before: self.current_state_id,
            state_id_after: self.state_counter,
        };
        self.current_state_id = self.state_counter;
        self.undo_stack.push(step);
        self.redo_stack.clear();
        if self.undo_stack.len() > self.max_steps {
            self.undo_stack.remove(0);
        }
        assert(self.undo_stack@ =~= spec_execute(old(self)@, cmd).undo);
    }

    /// Revert the most recent command; returns its name.
    pub fn undo<D>(&mut self, doc: &mut D) -> (r: Option<String>)
        where
            C: Command<D>,
        requires
            old(self).wf(),
        ensures
            final(self).wf(),
            final(self)@ == spec_undo(old(self)@),
            chained(final(self)@),
            final(self)@.undo.len() + final(self)@.redo.len() <= MAX_UNDO_STEPS,
            match r {
                Some(n) => old(self)@.undo.len() > 0 && n@ == old(self)@.undo.last().cmd.spec_name(),
                None => old(self)@.undo.len() == 0,
            },
            old(self)@.undo.len() > 0 ==> old(self)@.undo.last().cmd.undoes(*old(doc), *final(doc)),
            old(self)@.undo.len() == 0 ==> *final(doc) == *old(doc),
    {
                let ghost h0 = self@;
        if let Some(step) = self.undo_stack.pop() {
            assert(step == h0.undo.last());
            assert(forall|k: int| 0 <= k < h0.undo.len() - 1 ==> self.undo_stack@[k] == h0.undo[k]);
            assert(h0.undo[h0.undo.len() - 1] == step);
            let name = step.cmd.name().to_owned();
            step.cmd.undo(doc);
            self.current_state_id = step.state_id_before;
            self.redo_stack.push(step);
            Some(name)
        } else {
            None
        }
    }

    /// Re-apply the most recently undone command; returns its name.
    pub fn redo<D>(&mut self, doc: &mut D) -> (r: Option<String>)
        where
            C: Command<D>,
        requires
            old(self).wf(),
        ensures
            final(self).wf(),
            final(self)@ == spec_redo(old(self)@),
            chained(final(self)@),
            final(self)@.undo.len() + final(self)@.redo.len() <= MAX_UNDO_STEPS,
            match r {
                Some(n) => old(self)@.redo.len() > 0 && n@ == old(self)@.redo.last().cmd.spec_name(),
                None => old(self)@.redo.len() == 0,
            },
            old(self)@.redo.len() > 0 ==> old(self)@.redo.last().cmd.executes(*old(doc), *final(doc)),
            old(self)@.redo.len() == 0 ==> *final(doc) == *old(doc),
    {
                let ghost h0 = self@;
        if let Some(step) = self.redo_stack.pop() {
            assert(step == h0.redo.last());
            assert(forall|k: int| 0 <= k < h0.redo.len() - 1 ==> self.redo_stack@[k] == h0.redo[k]);
            assert(h0.redo[h0.redo.len() - 1] == step);
            let name = step.cmd.name().to_owned();
            step.cmd.execute(doc);
            self.current_state_id = step.state_id_after;
            self.undo_stack.push(step);
            Some(name)
        } else {
            None
        }
    }

    pub fn can_undo(&self) -> (r: bool)
        ensures
            r == (self@.undo.len() > 0),
    {
        !self.undo_stack.is_empty()
    }

    pub fn can_redo(&self) -> (r: bool)
        ensures
            r == (self@.redo.len() > 0),
    {
        !self.redo_stack.is_empty()
    }

    pub fn undo_depth(&self) -> (r: usize)
        ensures
            r == self@.undo.len(),
            self.wf() ==> r <= MAX_UNDO_STEPS,
    {
        self.undo_stack.len()
    }

    pub fn redo_depth(&self) -> (r: usize)
        ensures
            r == self@.redo.len(),
            self.wf() ==> r <= MAX_UNDO_STEPS,
    {
        self.redo_stack.len()
    }

    /// Whether another command can be recorded: the state counter has not
    /// reached the top of its range (what `execute` requires).
    pub fn can_record(&self) -> (r: bool)
        ensures
            r == (self@.counter < u64::MAX),
    {
        self.state_counter < u64::MAX
    }

    /// Name of the command that `undo` would revert.
    pub fn undo_name(&self) -> (r: Option<&str>)
        where
            C: Named,
        ensures
            match r {
                Some(n) => self@.undo.len() > 0 && n@ == self@.undo.last().cmd.spec_name(),
                None => self@.undo.len() == 0,
            },
    {
        match self.undo_stack.last() {
            Some(step) => Some(step.cmd.name()),
            None => None,
        }
    }

    /// Name of the command that `redo` would re-apply.
    pub fn redo_name(&self) -> (r: Option<&str>)
        where
            C: Named,
        ensures
            match r {
                Some(n) => self@.redo.len() > 0 && n@ == self@.redo.last().cmd.spec_name(),
                None => self@.redo.len() == 0,
            },
    {
        match self.redo_stack.last() {
            Some(step) => Some(step.cmd.name()),
            None => None,
        }
    }

    pub fn clear(&mut self)
        requires
            old(self).wf(),
            old(self)@.counter < u64::MAX,
        ensures
            final(self).wf(),
            final(self)@ == spec_clear(old(self)@),
            chained(final(self)@),
            final(self)@.undo.len() + final(self)@.redo.len() <= MAX_UNDO_STEPS,
    {
                self.undo_stack.clear();
        self.redo_stack.clear();
        self.state_counter = self.state_counter + 1;
        self.current_state_id = self.state_counter;
        self.saved_state_id = Some(self.current_state_id);
    }

    pub fn undo_stack(&self) -> (r: &[UndoStep<C>])
        ensures
            r@ == self@.undo,
    {
        self.undo_stack.as_slice()
    }

    pub fn redo_stack(&self) -> (r: &[UndoStep<C>])
        ensures
            r@ == self@.redo,
    {
        self.redo_stack.as_slice()
    }
}


/// Undoing a command right after recording it returns to the state id
/// that was current before, with the same dirty flag, and leaves exactly
/// that step to redo.
pub proof fn law_undo_reverts_execute<C>(h: History<C>, cmd: C)
    requires
        chained(h),
        h.counter < u64::MAX,
    ensures
        spec_undo(spec_execute(h, cmd)).current == h.current,
        spec_is_dirty(spec_undo(spec_execute(h, cmd))) == spec_is_dirty(h),
        spec_undo(spec_execute(h, cmd)).redo.len() == 1,
        spec_undo(spec_execute(h, cmd)).redo[0].cmd == cmd,
{
}

/// Redo after undo gives back the history exactly.
pub proof fn law_redo_reverts_undo<C>(h: History<C>)
    requires
        chained(h),
        h.undo.len() > 0,
    ensures
        spec_redo(spec_undo(h)) == h,
{
    assert(spec_redo(spec_undo(h)).undo =~= h.undo);
    assert(spec_redo(spec_undo(h)).redo =~= h.redo);
}

/// Undo after redo gives back the history exactly.
pub proof fn law_undo_reverts_redo<C>(h: History<C>)
    requires
        chained(h),
        h.redo.len() > 0,
    ensures
        spec_undo(spec_redo(h)) == h,
{
    assert(spec_undo(spec_redo(h)).undo =~= h.undo);
    assert(spec_undo(spec_redo(h)).redo =~= h.redo);
}


/// Undoing any top step, however it got there, returns to the state id
/// before that step, moves exactly that step to the top of the redo stack
/// and is clean exactly when that earlier state is the saved one.
pub proof fn law_undo_reverts_top_step<C>(h: History<C>)
    requires
        chained(h),
        h.undo.len() > 0,
    ensures
        spec_undo(h).current == h.undo.last().state_id_before,
        spec_undo(h).undo == h.undo.drop_last(),
        spec_undo(h).redo.len() == h.redo.len() + 1,
        spec_undo(h).redo.last() == h.undo.last(),
        spec_undo(h).redo.drop_last() == h.redo,
        !spec_is_dirty(spec_undo(h)) <==> h.saved == Some(h.undo.last().state_id_before as nat),
        chained(spec_undo(h)),
{
    assert(spec_undo(h).redo.drop_last() =~= h.redo);
}

} // verus!

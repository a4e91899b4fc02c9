//! Command-pattern undo/redo history: reversible canvas mutations, bounded
//! by entry count and by an estimated memory footprint.

use vstd::prelude::*;
use vstd::pervasive::VecAdditionalExecFns;
use vstd::string::StrSliceExecFns;
use crate::state::{
    CanvasObject, ObjectView, objects_view, valid_object_v, valid_objects_v, valid_canvas_v,
    copy_object, copy_objects, MAX_OBJECTS, MAX_STROKE_POINTS,
};

verus! {

/// Largest estimated byte cost a single history command may have; follows
/// from the object validity bounds.
pub const MAX_CMD_COST: u128 = 1_000_000_000_000_000;

/// One recorded canvas mutation. Each command stores enough to be undone:
/// the object added, the object removed and where, both versions of a
/// modified object, or the whole object list that a clear wiped out.
#[derive(Debug)]
pub enum HistoryCommand {
    AddObject { index: usize, object: CanvasObject },
    RemoveObject { index: usize, object: CanvasObject },
    ModifyObject { index: usize, old_object: CanvasObject, new_object: CanvasObject },
    ClearObjects { objects: Vec<CanvasObject> },
}

/// The mathematical value of a `HistoryCommand`.
#[verifier::ext_equal]
pub enum CommandView {
    Add { index: int, object: ObjectView },
    Remove { index: int, object: ObjectView },
    Modify { index: int, old_object: ObjectView, new_object: ObjectView },
    Clear { objects: Seq<ObjectView> },
}

impl View for HistoryCommand {
    type V = CommandView;

    open spec fn view(&self) -> CommandView {
        match self {
            HistoryCommand::AddObject { index, object } => CommandView::Add {
                index: *index as int,
                object: object@,
            },
            HistoryCommand::RemoveObject { index, object } => CommandView::Remove {
                index: *index as int,
                object: object@,
            },
            HistoryCommand::ModifyObject { index, old_object, new_object } => CommandView::Modify {
                index: *index as int,
                old_object: old_object@,
                new_object: new_object@,
            },
            HistoryCommand::ClearObjects { objects } => CommandView::Clear {
                objects: objects_view(objects@),
            },
        }
    }
}

/// The mathematical value of a command stack.
pub open spec fn commands_view(s: Seq<HistoryCommand>) -> Seq<CommandView> {
    s.map_values(|c: HistoryCommand| c@)
}

/// Estimated byte cost of one object: array sizes for strokes, the text
/// length for labels, a small constant for images and shapes.
pub open spec fn object_cost(o: ObjectView) -> int {
    match o {
        ObjectView::Stroke(s) => 64 + 16 * s.points.len() as int + 8 * s.widths.len(),
        ObjectView::Image(_) => 64,
        ObjectView::Text(t) => 64 + t.text.len() as int,
        ObjectView::Shape(_) => 64,
    }
}

/// Estimated byte cost of a sequence of objects.
pub open spec fn objects_cost(s: Seq<ObjectView>) -> int
    decreases s.len(),
{
    if s.len() == 0 {
        0
    } else {
        objects_cost(s.drop_last()) + object_cost(s.last())
    }
}

/// Estimated byte cost of one command.
pub open spec fn command_cost(c: CommandView) -> int {
    match c {
        CommandView::Add { object, .. } => 32 + object_cost(object),
        CommandView::Remove { object, .. } => 32 + object_cost(object),
        CommandView::Modify { old_object, new_object, .. } => 32 + object_cost(old_object)
            + object_cost(new_object),
        CommandView::Clear { objects } => 32 + objects_cost(objects),
    }
}

/// Estimated byte cost of a command stack.
pub open spec fn stack_cost(s: Seq<CommandView>) -> int
    decreases s.len(),
{
    if s.len() == 0 {
        0
    } else {
        stack_cost(s.drop_last()) + command_cost(s.last())
    }
}

/// A command whose objects are well-formed; its cost is then bounded.
pub open spec fn cmd_valid(c: CommandView) -> bool {
    match c {
        CommandView::Add { index, object } => valid_object_v(object),
        CommandView::Remove { index, object } => valid_object_v(object),
        CommandView::Modify { index, old_object, new_object } => valid_object_v(old_object)
            && valid_object_v(new_object),
        CommandView::Clear { objects } => valid_canvas_v(objects),
    }
}

/// Every command of the stack is well-formed.
pub open spec fn stack_valid(s: Seq<CommandView>) -> bool {
    forall|i: int| 0 <= i < s.len() ==> cmd_valid(#[trigger] s[i])
}

/// Object costs are non-negative, and bounded for well-formed objects.
pub proof fn lemma_object_cost_bounds(o: ObjectView)
    ensures
        0 <= object_cost(o),
        valid_object_v(o) ==> object_cost(o) <= 64 + 24 * MAX_STROKE_POINTS,
{
}

/// Sequence costs are non-negative.
pub proof fn lemma_objects_cost_nonneg(s: Seq<ObjectView>)
    ensures
        0 <= objects_cost(s),
    decreases s.len(),
{
    if s.len() > 0 {
        lemma_objects_cost_nonneg(s.drop_last());
        lemma_object_cost_bounds(s.last());
    }
}

/// A well-formed object sequence of bounded length has bounded cost.
pub proof fn lemma_objects_cost_bound(s: Seq<ObjectView>)
    requires
        valid_objects_v(s),
        s.len() <= MAX_OBJECTS,
    ensures
        0 <= objects_cost(s) <= s.len() * (64 + 24 * MAX_STROKE_POINTS),
    decreases s.len(),
{
    if s.len() == 0 {
    } else {
        assert(valid_objects_v(s.drop_last())) by {
            assert(forall|i: int| 0 <= i < s.len() - 1 ==> s.drop_last()[i] == #[trigger] s[i]);
        }
        lemma_objects_cost_bound(s.drop_last());
        lemma_object_cost_bounds(s.last());
        assert((s.len() - 1) * (64 + 24 * MAX_STROKE_POINTS) + (64 + 24 * MAX_STROKE_POINTS)
            == s.len() * (64 + 24 * MAX_STROKE_POINTS)) by (nonlinear_arith);
    }
}

/// A well-formed command has bounded cost.
pub proof fn lemma_command_cost_bound(c: CommandView)
    requires
        cmd_valid(c),
    ensures
        0 <= command_cost(c) <= MAX_CMD_COST,
{
    match c {
        CommandView::Add { object, .. } => lemma_object_cost_bounds(object),
        CommandView::Remove { object, .. } => lemma_object_cost_bounds(object),
        CommandView::Modify { old_object, new_object, .. } => {
            lemma_object_cost_bounds(old_object);
            lemma_object_cost_bounds(new_object);
        },
        CommandView::Clear { objects } => {
            lemma_objects_cost_bound(objects);
            assert(objects.len() * (64 + 24 * MAX_STROKE_POINTS) <= MAX_OBJECTS * (64 + 24
                * MAX_STROKE_POINTS)) by (nonlinear_arith)
                requires
                    objects.len() <= MAX_OBJECTS,
            ;
        },
    }
}

/// Stack costs are non-negative; the cost of any command is at most the
/// cost of a stack it closes.
pub proof fn lemma_stack_cost_nonneg(s: Seq<CommandView>)
    ensures
        0 <= stack_cost(s),
    decreases s.len(),
{
    if s.len() > 0 {
        lemma_stack_cost_nonneg(s.drop_last());
        match s.last() {
            CommandView::Add { object, .. } => lemma_object_cost_bounds(object),
            CommandView::Remove { object, .. } => lemma_object_cost_bounds(object),
            CommandView::Modify { old_object, new_object, .. } => {
                lemma_object_cost_bounds(old_object);
                lemma_object_cost_bounds(new_object);
            },
            CommandView::Clear { objects } => lemma_objects_cost_nonneg(objects),
        }
    }
}

/// A well-formed stack of bounded length has bounded cost.
pub proof fn lemma_stack_cost_bound(s: Seq<CommandView>)
    requires
        stack_valid(s),
    ensures
        0 <= stack_cost(s) <= s.len() * MAX_CMD_COST,
    decreases s.len(),
{
    if s.len() == 0 {
    } else {
        assert(stack_valid(s.drop_last())) by {
            assert(forall|i: int|
                0 <= i < s.len() - 1 ==> s.drop_last()[i] == #[trigger] s[i]);
        }
        lemma_stack_cost_bound(s.drop_last());
        lemma_command_cost_bound(s.last());
        assert((s.len() - 1) * MAX_CMD_COST + MAX_CMD_COST == s.len() * MAX_CMD_COST)
            by (nonlinear_arith);
    }
}

/// The result of undoing one command against a canvas value. A sub-step
/// whose index is out of range, or whose insertion would overflow the
/// canvas bound, leaves the canvas unchanged rather than failing.
pub open spec fn apply_view(c: CommandView, s: Seq<ObjectView>) -> Seq<ObjectView> {
    match c {
        CommandView::Add { index, object } => if 0 <= index < s.len() {
            s.remove(index)
        } else {
            s
        },
        CommandView::Remove { index, object } => if 0 <= index <= s.len() && s.len()
            < MAX_OBJECTS {
            s.insert(index, object)
        } else {
            s
        },
        CommandView::Modify { index, old_object, new_object } => if 0 <= index < s.len() {
            s.update(index, old_object)
        } else {
            s
        },
        CommandView::Clear { objects } => objects,
    }
}

/// The actual inverse of undoing `c` against canvas `s`: the command that,
/// undone in turn against `apply_view(c, s)`, restores `s`. A command that
/// did not apply is its own inverse.
pub open spec fn inverse_view(c: CommandView, s: Seq<ObjectView>) -> CommandView {
    match c {
        CommandView::Add { index, object } => if 0 <= index < s.len() {
            CommandView::Remove { index, object: s[index] }
        } else {
            c
        },
        CommandView::Remove { index, object } => if 0 <= index <= s.len() && s.len()
            < MAX_OBJECTS {
            CommandView::Add { index, object }
        } else {
            c
        },
        CommandView::Modify { index, old_object, new_object } => if 0 <= index < s.len() {
            CommandView::Modify { index, old_object: s[index], new_object: old_object }
        } else {
            c
        },
        CommandView::Clear { objects } => CommandView::Clear { objects: s },
    }
}

/// The command describes the canvas it is undone against: what it says was
/// added or modified is what the canvas holds, and a removal can be
/// re-inserted. Commands recorded for mutations actually performed satisfy
/// this at recording time.
pub open spec fn consistent(c: CommandView, s: Seq<ObjectView>) -> bool {
    match c {
        CommandView::Add { index, object } => 0 <= index < s.len() && s[index] == object,
        CommandView::Remove { index, object } => 0 <= index <= s.len() && s.len() < MAX_OBJECTS,
        CommandView::Modify { index, old_object, new_object } => 0 <= index < s.len() && s[index]
            == new_object,
        CommandView::Clear { objects } => true,
    }
}

/// Undoing a command and then undoing its inverse restores the canvas,
/// for every command and every canvas within the object bound.
pub proof fn lemma_apply_round_trip(c: CommandView, s: Seq<ObjectView>)
    requires
        s.len() <= MAX_OBJECTS,
    ensures
        apply_view(inverse_view(c, s), apply_view(c, s)) == s,
{
    match c {
        CommandView::Add { index, object } => {
            if 0 <= index < s.len() {
                assert(s.remove(index).insert(index, s[index]) =~= s);
            }
        },
        CommandView::Remove { index, object } => {
            if 0 <= index <= s.len() && s.len() < MAX_OBJECTS {
                assert(s.insert(index, object).remove(index) =~= s);
            }
        },
        CommandView::Modify { index, old_object, new_object } => {
            if 0 <= index < s.len() {
                assert(s.update(index, old_object).update(index, s[index]) =~= s);
            }
        },
        CommandView::Clear { objects } => {},
    }
}

/// The inverse of the inverse of a consistent command is the command
/// itself.
pub proof fn lemma_inverse_involution(c: CommandView, s: Seq<ObjectView>)
    requires
        s.len() <= MAX_OBJECTS,
        consistent(c, s),
    ensures
        inverse_view(inverse_view(c, s), apply_view(c, s)) == c,
{
    match c {
        CommandView::Remove { index, object } => {
            assert(s.insert(index, object)[index] == object);
        },
        CommandView::Modify { index, old_object, new_object } => {
            assert(s.update(index, old_object)[index] == old_object);
        },
        _ => {},
    }
}

/// The inverse of a consistent command is consistent with the canvas the
/// command leaves behind, so a whole undone history can be redone.
pub proof fn lemma_inverse_consistent(c: CommandView, s: Seq<ObjectView>)
    requires
        s.len() <= MAX_OBJECTS,
        consistent(c, s),
    ensures
        consistent(inverse_view(c, s), apply_view(c, s)),
{
    match c {
        CommandView::Add { index, object } => {
            if 0 <= index < s.len() {
                assert(s.remove(index).len() == s.len() - 1);
            }
        },
        CommandView::Remove { index, object } => {
            if 0 <= index <= s.len() && s.len() < MAX_OBJECTS {
                assert(s.insert(index, object)[index] == object);
            }
        },
        CommandView::Modify { index, old_object, new_object } => {
            if 0 <= index < s.len() {
                assert(s.update(index, old_object)[index] == old_object);
            }
        },
        CommandView::Clear { objects } => {},
    }
}

/// Undoing a command cannot push the canvas past the object bound.
pub proof fn lemma_apply_len(c: CommandView, s: Seq<ObjectView>)
    requires
        s.len() <= MAX_OBJECTS,
        cmd_valid(c),
    ensures
        apply_view(c, s).len() <= MAX_OBJECTS,
{
}

/// Undoing a well-formed command against a well-formed canvas leaves every
/// object well-formed.
pub proof fn lemma_apply_valid(c: CommandView, s: Seq<ObjectView>)
    requires
        valid_objects_v(s),
        cmd_valid(c),
    ensures
        valid_objects_v(apply_view(c, s)),
{
    match c {
        CommandView::Add { index, object } => {
            if 0 <= index < s.len() {
                assert forall|i: int| 0 <= i < s.remove(index).len() implies valid_object_v(
                    #[trigger] s.remove(index)[i],
                ) by {
                    if i < index {
                        assert(s.remove(index)[i] == s[i]);
                    } else {
                        assert(s.remove(index)[i] == s[i + 1]);
                    }
                }
            }
        },
        CommandView::Remove { index, object } => {
            if 0 <= index <= s.len() && s.len() < MAX_OBJECTS {
                assert forall|i: int| 0 <= i < s.insert(index, object).len() implies
                    valid_object_v(#[trigger] s.insert(index, object)[i]) by {
                    if i < index {
                        assert(s.insert(index, object)[i] == s[i]);
                    } else if i == index {
                        assert(s.insert(index, object)[i] == object);
                    } else {
                        assert(s.insert(index, object)[i] == s[i - 1]);
                    }
                }
            }
        },
        CommandView::Modify { index, old_object, new_object } => {
            if 0 <= index < s.len() {
                assert forall|i: int| 0 <= i < s.update(index, old_object).len() implies
                    valid_object_v(#[trigger] s.update(index, old_object)[i]) by {
                    if i != index {
                        assert(s.update(index, old_object)[i] == s[i]);
                    }
                }
            }
        },
        CommandView::Clear { objects } => {},
    }
}

/// The complete mathematical state of a history together with the canvas
/// it governs.
#[verifier::ext_equal]
pub struct HistState {
    pub undo: Seq<CommandView>,
    pub redo: Seq<CommandView>,
    pub canvas: Seq<ObjectView>,
}

/// One undo: pop the newest undo command, apply it, push its actual
/// inverse onto the redo stack. An empty undo stack leaves the state
/// unchanged.
pub open spec fn undo_step(st: HistState) -> HistState {
    if st.undo.len() == 0 {
        st
    } else {
        let c = st.undo.last();
        HistState {
            undo: st.undo.drop_last(),
            redo: st.redo.push(inverse_view(c, st.canvas)),
            canvas: apply_view(c, st.canvas),
        }
    }
}

/// One redo: pop the newest redo command, apply it, push its actual
/// inverse onto the undo stack. An empty redo stack leaves the state
/// unchanged.
pub open spec fn redo_step(st: HistState) -> HistState {
    if st.redo.len() == 0 {
        st
    } else {
        let c = st.redo.last();
        HistState {
            undo: st.undo.push(inverse_view(c, st.canvas)),
            redo: st.redo.drop_last(),
            canvas: apply_view(c, st.canvas),
        }
    }
}

/// `n` undos in a row.
pub open spec fn undo_n(st: HistState, n: int) -> HistState
    decreases n,
{
    if n <= 0 {
        st
    } else {
        undo_n(undo_step(st), n - 1)
    }
}

/// `n` redos in a row.
pub open spec fn redo_n(st: HistState, n: int) -> HistState
    decreases n,
{
    if n <= 0 {
        st
    } else {
        redo_n(redo_step(st), n - 1)
    }
}

/// Every command of the undo stack is consistent with the canvas as it
/// stands when that command's turn to be undone comes.
pub open spec fn stack_consistent(undo: Seq<CommandView>, canvas: Seq<ObjectView>) -> bool
    decreases undo.len(),
{
    if undo.len() == 0 {
        true
    } else {
        consistent(undo.last(), canvas) && stack_consistent(
            undo.drop_last(),
            apply_view(undo.last(), canvas),
        )
    }
}

/// An undo followed by a redo restores the exact state: the canvas, and
/// both stacks.
pub proof fn lemma_undo_then_redo(st: HistState)
    requires
        st.undo.len() >= 1,
        st.canvas.len() <= MAX_OBJECTS,
        consistent(st.undo.last(), st.canvas),
    ensures
        redo_step(undo_step(st)) == st,
{
    let c = st.undo.last();
    let st1 = undo_step(st);
    lemma_apply_round_trip(c, st.canvas);
    lemma_inverse_involution(c, st.canvas);
    assert(st1.redo.last() == inverse_view(c, st.canvas));
    assert(st1.redo.drop_last() =~= st.redo);
    assert(redo_step(st1).undo =~= st.undo);
    assert(redo_step(st1) =~= st);
}

/// Iterating a redo one more time acts on the result of the earlier
/// redos.
pub proof fn lemma_redo_n_peel_last(st: HistState, n: int)
    requires
        n >= 0,
    ensures
        redo_n(st, n + 1) == redo_step(redo_n(st, n)),
    decreases n,
{
    if n == 0 {
        assert(redo_n(st, 1) == redo_n(redo_step(st), 0));
    } else {
        lemma_redo_n_peel_last(redo_step(st), n - 1);
        assert(redo_n(st, n + 1) == redo_n(redo_step(st), n));
        assert(redo_n(st, n) == redo_n(redo_step(st), n - 1));
    }
}

/// Undoing preserves the canvas object bound.
pub proof fn lemma_undo_step_len(st: HistState)
    requires
        st.canvas.len() <= MAX_OBJECTS,
        stack_valid(st.undo),
    ensures
        undo_step(st).canvas.len() <= MAX_OBJECTS,
        stack_valid(undo_step(st).undo),
{
    if st.undo.len() > 0 {
        assert(cmd_valid(st.undo.last()));
        lemma_apply_len(st.undo.last(), st.canvas);
        assert(forall|i: int|
            0 <= i < st.undo.len() - 1 ==> st.undo.drop_last()[i] == #[trigger] st.undo[i]);
    }
}

/// Any run of `n` undos followed by `n` redos restores the exact state:
/// the canvas, object for object, and both history stacks.
pub proof fn lemma_undo_redo_round_trip(st: HistState, n: int)
    requires
        0 <= n <= st.undo.len(),
        st.canvas.len() <= MAX_OBJECTS,
        stack_valid(st.undo),
        stack_consistent(st.undo, st.canvas),
    ensures
        redo_n(undo_n(st, n), n) == st,
    decreases n,
{
    if n > 0 {
        let st1 = undo_step(st);
        lemma_undo_step_len(st);
        lemma_undo_redo_round_trip(st1, n - 1);
        lemma_redo_n_peel_last(undo_n(st1, n - 1), n - 1);
        lemma_undo_then_redo(st);
    }
}

/// Splitting a non-empty stack's cost at the front.
pub proof fn lemma_stack_cost_drop_first(s: Seq<CommandView>)
    requires
        s.len() >= 1,
    ensures
        stack_cost(s) == command_cost(s[0]) + stack_cost(s.drop_first()),
    decreases s.len(),
{
    if s.len() == 1 {
        assert(s.drop_first().len() == 0);
        assert(s.drop_last().len() == 0);
        assert(s.last() == s[0]);
        assert(stack_cost(s.drop_first()) == 0);
        assert(stack_cost(s) == stack_cost(s.drop_last()) + command_cost(s.last()));
    } else {
        lemma_stack_cost_drop_first(s.drop_last());
        assert(s.drop_first().drop_last() =~= s.drop_last().drop_first());
        assert(s.drop_first().last() == s.last());
        assert(s.drop_last()[0] == s[0]);
        assert(s.drop_first().len() > 0);
        assert(stack_cost(s.drop_first()) == stack_cost(s.drop_first().drop_last())
            + command_cost(s.drop_first().last()));
        assert(stack_cost(s) == stack_cost(s.drop_last()) + command_cost(s.last()));
    }
}

/// The front of the stack, oldest first, after evicting entries until the
/// stack respects both the entry cap and the memory cap.
pub open spec fn evict_front(s: Seq<CommandView>, max_n: int, max_m: int) -> Seq<CommandView>
    decreases s.len(),
{
    if s.len() > 0 && (s.len() > max_n || stack_cost(s) > max_m) {
        evict_front(s.drop_first(), max_n, max_m)
    } else {
        s
    }
}

/// Eviction reaches both caps, keeps the stack well-formed, and never
/// grows it.
pub proof fn lemma_evict_front_props(s: Seq<CommandView>, max_n: int, max_m: int)
    requires
        0 <= max_n,
        0 <= max_m,
        stack_valid(s),
    ensures
        evict_front(s, max_n, max_m).len() <= max_n,
        evict_front(s, max_n, max_m).len() <= s.len(),
        stack_cost(evict_front(s, max_n, max_m)) <= max_m,
        stack_valid(evict_front(s, max_n, max_m)),
    decreases s.len(),
{
    if s.len() > 0 && (s.len() > max_n || stack_cost(s) > max_m) {
        assert(stack_valid(s.drop_first())) by {
            assert(forall|i: int|
                0 <= i < s.len() - 1 ==> s.drop_first()[i] == #[trigger] s[(i + 1)]);
        }
        lemma_evict_front_props(s.drop_first(), max_n, max_m);
    } else {
        if s.len() == 0 {
            assert(stack_cost(s) == 0);
        }
    }
}

/// Appending a command adds its cost.
pub proof fn lemma_stack_cost_push(s: Seq<CommandView>, c: CommandView)
    ensures
        stack_cost(s.push(c)) == stack_cost(s) + command_cost(c),
{
    assert(s.push(c).drop_last() =~= s);
    assert(s.push(c).last() == c);
}

/// The inverse of a well-formed command against a well-formed canvas is
/// well-formed.
pub proof fn lemma_inverse_valid(c: CommandView, s: Seq<ObjectView>)
    requires
        cmd_valid(c),
        valid_canvas_v(s),
    ensures
        cmd_valid(inverse_view(c, s)),
{
}

/// The undo and redo stacks of the whiteboard history, with a running
/// estimate of the bytes they pin and the two caps that bound them.
pub struct History {
    undo_stack: Vec<HistoryCommand>,
    redo_stack: Vec<HistoryCommand>,
    undo_mem: u128,
    redo_mem: u128,
    max_entries: usize,
    max_memory: u128,
}

/// The mathematical value of a `History`.
#[verifier::ext_equal]
pub struct HistoryView {
    pub undo: Seq<CommandView>,
    pub redo: Seq<CommandView>,
    pub mem: int,
    pub max_entries: int,
    pub max_memory: int,
}

impl View for History {
    type V = HistoryView;

    closed spec fn view(&self) -> HistoryView {
        HistoryView {
            undo: commands_view(self.undo_stack@),
            redo: commands_view(self.redo_stack@),
            mem: self.undo_mem + self.redo_mem,
            max_entries: self.max_entries as int,
            max_memory: self.max_memory as int,
        }
    }
}

impl History {
    /// The history invariant: both stacks together never exceed the entry
    /// cap, the memory estimate is the exact summed cost of both stacks,
    /// and every stored command is well-formed.
    pub closed spec fn wf(&self) -> bool {
        &&& self@.undo.len() + self@.redo.len() <= self@.max_entries
        &&& self@.max_entries <= 1_000_000
        &&& self.undo_mem == stack_cost(self@.undo)
        &&& self.redo_mem == stack_cost(self@.redo)
        &&& stack_valid(self@.undo)
        &&& stack_valid(self@.redo)
    }

    /// The undo stack never exceeds the entry cap: the cap invariant,
    /// stated on its own.
    pub proof fn lemma_entry_cap(&self)
        requires
            self.wf(),
        ensures
            self@.undo.len() <= self@.max_entries,
    {
        lemma_stack_cost_nonneg(self@.redo);
    }

    /// An empty history with the given caps.
    pub fn new(max_entries: usize, max_memory: u64) -> (h: History)
        requires
            max_entries <= 1_000_000,
        ensures
            h.wf(),
            h@.undo.len() == 0,
            h@.redo.len() == 0,
            h@.mem == 0,
            h@.max_entries == max_entries,
            h@.max_memory == max_memory,
    {
        let h = History {
            undo_stack: Vec::new(),
            redo_stack: Vec::new(),
            undo_mem: 0,
            redo_mem: 0,
            max_entries,
            max_memory: max_memory as u128,
        };
        proof {
            assert(commands_view(h.undo_stack@) =~= Seq::<CommandView>::empty());
            assert(commands_view(h.redo_stack@) =~= Seq::<CommandView>::empty());
        }
        h
    }

    /// How many commands can currently be undone.
    pub fn undo_len(&self) -> (n: usize)
        ensures
            n == self@.undo.len(),
    {
        self.undo_stack.len()
    }

    /// How many commands can currently be redone.
    pub fn redo_len(&self) -> (n: usize)
        ensures
            n == self@.redo.len(),
    {
        self.redo_stack.len()
    }

    /// The running byte estimate of everything the history pins.
    pub fn memory_estimate(&self) -> (m: u128)
        requires
            self.wf(),
        ensures
            m == self@.mem,
    {
        proof {
            lemma_stack_cost_nonneg(self@.undo);
            lemma_stack_cost_nonneg(self@.redo);
            lemma_stack_cost_bound(self@.undo);
            lemma_stack_cost_bound(self@.redo);
            assert(self@.undo.len() * MAX_CMD_COST <= 1_000_000 * MAX_CMD_COST)
                by (nonlinear_arith)
                requires
                    self@.undo.len() <= 1_000_000,
            ;
            assert(self@.redo.len() * MAX_CMD_COST <= 1_000_000 * MAX_CMD_COST)
                by (nonlinear_arith)
                requires
                    self@.redo.len() <= 1_000_000,
            ;
        }
        self.undo_mem + self.redo_mem
    }

    /// Record one freshly performed mutation: the redo chain is discarded,
    /// the command is pushed, and the oldest entries are evicted until both
    /// caps hold again.
    fn record(&mut self, cmd: HistoryCommand)
        requires
            old(self).wf(),
            cmd_valid(cmd@),
        ensures
            final(self).wf(),
            final(self)@.undo == evict_front(
                old(self)@.undo.push(cmd@),
                old(self)@.max_entries,
                old(self)@.max_memory,
            ),
            final(self)@.redo.len() == 0,
            final(self)@.max_entries == old(self)@.max_entries,
            final(self)@.max_memory == old(self)@.max_memory,
    {
        self.redo_stack = Vec::new();
        self.redo_mem = 0;
        proof {
            assert(commands_view(self.redo_stack@) =~= Seq::<CommandView>::empty());
            lemma_stack_cost_push(self@.undo, cmd@);
            lemma_command_cost_bound(cmd@);
            lemma_stack_cost_nonneg(self@.undo);
            lemma_stack_cost_bound(self@.undo);
            assert(self@.undo.len() * MAX_CMD_COST <= 1_000_000 * MAX_CMD_COST)
                by (nonlinear_arith)
                requires
                    self@.undo.len() <= 1_000_000,
            ;
        }
        let c: u128 = command_cost_exec(&cmd);
        let ghost pushed = old(self)@.undo.push(cmd@);
        self.undo_mem = self.undo_mem + c;
        self.undo_stack.push(cmd);
        proof {
            assert(commands_view(self.undo_stack@) =~= pushed);
        }
        while (self.undo_stack.len() > self.max_entries) || (self.undo_mem > self.max_memory
            && self.undo_stack.len() > 0)
            invariant
                stack_valid(commands_view(self.undo_stack@)),
                self.undo_mem == stack_cost(commands_view(self.undo_stack@)),
                self.redo_stack@.len() == 0,
                self.redo_mem == 0,
                self.max_entries == old(self)@.max_entries,
                self.max_memory == old(self)@.max_memory,
                commands_view(self.undo_stack@).len() <= pushed.len(),
                evict_front(
                    commands_view(self.undo_stack@),
                    self.max_entries as int,
                    self.max_memory as int,
                ) == evict_front(pushed, self.max_entries as int, self.max_memory as int),
            decreases self.undo_stack@.len(),
        {
            let ghost pre = commands_view(self.undo_stack@);
            proof {
                lemma_stack_cost_drop_first(pre);
                lemma_stack_cost_nonneg(pre.drop_first());
                assert(stack_valid(pre.drop_first())) by {
                    assert(forall|i: int|
                        0 <= i < pre.len() - 1 ==> pre.drop_first()[i] == #[trigger] pre[(i + 1)]);
                }
            }
            let c0 = self.undo_stack.remove(0);
            let c0_cost: u128 = command_cost_exec(&c0);
            proof {
                assert(commands_view(self.undo_stack@) =~= pre.drop_first());
                assert(c0@ == pre[0]);
            }
            self.undo_mem = self.undo_mem - c0_cost;
        }
        proof {
            lemma_stack_cost_nonneg(commands_view(self.redo_stack@));
            assert(commands_view(self.redo_stack@) =~= Seq::<CommandView>::empty());
        }
    }

    /// Record that `object` was just inserted at `index`.
    pub fn record_add(&mut self, index: usize, object: &CanvasObject)
        requires
            old(self).wf(),
            crate::state::valid_object(*object),
        ensures
            final(self).wf(),
            final(self)@.undo == evict_front(
                old(self)@.undo.push(CommandView::Add { index: index as int, object: object@ }),
                old(self)@.max_entries,
                old(self)@.max_memory,
            ),
            final(self)@.redo.len() == 0,
            final(self)@.max_entries == old(self)@.max_entries,
            final(self)@.max_memory == old(self)@.max_memory,
    {
        let cmd = HistoryCommand::AddObject { index, object: copy_object(object) };
        self.record(cmd);
    }

    /// Record that `object` was just removed from `index`.
    pub fn record_remove(&mut self, index: usize, object: &CanvasObject)
        requires
            old(self).wf(),
            crate::state::valid_object(*object),
        ensures
            final(self).wf(),
            final(self)@.undo == evict_front(
                old(self)@.undo.push(CommandView::Remove { index: index as int, object: object@ }),
                old(self)@.max_entries,
                old(self)@.max_memory,
            ),
            final(self)@.redo.len() == 0,
            final(self)@.max_entries == old(self)@.max_entries,
            final(self)@.max_memory == old(self)@.max_memory,
    {
        let cmd = HistoryCommand::RemoveObject { index, object: copy_object(object) };
        self.record(cmd);
    }

    /// Record that the object at `index` was just changed from
    /// `old_object` to `new_object`.
    pub fn record_modify(
        &mut self,
        index: usize,
        old_object: &CanvasObject,
        new_object: &CanvasObject,
    )
        requires
            old(self).wf(),
            crate::state::valid_object(*old_object),
            crate::state::valid_object(*new_object),
        ensures
            final(self).wf(),
            final(self)@.undo == evict_front(
                old(self)@.undo.push(
                    CommandView::Modify {
                        index: index as int,
                        old_object: old_object@,
                        new_object: new_object@,
                    },
                ),
                old(self)@.max_entries,
                old(self)@.max_memory,
            ),
            final(self)@.redo.len() == 0,
            final(self)@.max_entries == old(self)@.max_entries,
            final(self)@.max_memory == old(self)@.max_memory,
    {
        let cmd = HistoryCommand::ModifyObject {
            index,
            old_object: copy_object(old_object),
            new_object: copy_object(new_object),
        };
        self.record(cmd);
    }

    /// Record that the whole object list was just cleared.
    pub fn record_clear(&mut self, objects: &Vec<CanvasObject>)
        requires
            old(self).wf(),
            valid_canvas_v(objects_view(objects@)),
        ensures
            final(self).wf(),
            final(self)@.undo == evict_front(
                old(self)@.undo.push(CommandView::Clear { objects: objects_view(objects@) }),
                old(self)@.max_entries,
                old(self)@.max_memory,
            ),
            final(self)@.redo.len() == 0,
            final(self)@.max_entries == old(self)@.max_entries,
            final(self)@.max_memory == old(self)@.max_memory,
    {
        let cmd = HistoryCommand::ClearObjects { objects: copy_objects(objects) };
        self.record(cmd);
    }
}

/// Estimated byte cost of one object, computed exactly.
pub fn object_cost_exec(o: &CanvasObject) -> (r: u128)
    ensures
        r == object_cost(o@),
{
    match o {
        CanvasObject::Stroke(s) => 64 + 16 * (s.points.len() as u128) + 8 * (
        s.widths.len() as u128),
        CanvasObject::Image(_) => 64,
        CanvasObject::Text(t) => 64 + (t.text.as_str().unicode_len() as u128),
        CanvasObject::Shape(_) => 64,
    }
}

/// Estimated byte cost of an object list, computed exactly.
pub fn objects_cost_exec(v: &Vec<CanvasObject>) -> (r: u128)
    requires
        valid_canvas_v(objects_view(v@)),
    ensures
        r == objects_cost(objects_view(v@)),
{
    let mut acc: u128 = 0;
    let n: usize = v.len();
    let mut i: usize = 0;
    while i < n
        invariant
            0 <= i <= n,
            n == v@.len(),
            n <= 1_000_000,
            valid_canvas_v(objects_view(v@)),
            acc == objects_cost(objects_view(v@).subrange(0, i as int)),
            acc <= i * 240_000_064,
        decreases n - i,
    {
        let c: u128 = object_cost_exec(&v[i]);
        proof {
            let full = objects_view(v@);
            assert(full.subrange(0, i + 1 as int).drop_last() =~= full.subrange(0, i as int));
            assert(full.subrange(0, i + 1 as int).last() == full[i as int]);
            assert(full[i as int] == v@[i as int]@);
            lemma_object_cost_bounds(full[i as int]);
            assert(valid_object_v(full[i as int]));
            assert(64 + 24 * MAX_STROKE_POINTS == 240_000_064);
            assert((i + 1) * 240_000_064 == i * 240_000_064 + 240_000_064) by (nonlinear_arith);
        }
        acc = acc + c;
        i = i + 1;
    }
    proof {
        assert(objects_view(v@).subrange(0, n as int) =~= objects_view(v@));
    }
    acc
}

/// Estimated byte cost of one command, computed exactly.
pub fn command_cost_exec(c: &HistoryCommand) -> (r: u128)
    requires
        cmd_valid(c@),
    ensures
        r == command_cost(c@),
{
    proof {
        lemma_command_cost_bound(c@);
    }
    match c {
        HistoryCommand::AddObject { object, .. } => 32 + object_cost_exec(object),
        HistoryCommand::RemoveObject { object, .. } => 32 + object_cost_exec(object),
        HistoryCommand::ModifyObject { old_object, new_object, .. } => 32 + object_cost_exec(
            old_object,
        ) + object_cost_exec(new_object),
        HistoryCommand::ClearObjects { objects } => 32 + objects_cost_exec(objects),
    }
}

/// The mathematical history-and-canvas state that an exec `History`
/// together with a canvas vector stands for.
pub open spec fn hist_state(h: HistoryView, canvas: Seq<ObjectView>) -> HistState {
    HistState { undo: h.undo, redo: h.redo, canvas }
}

/// Undo one command against the canvas and hand back the actual inverse:
/// the command that will redo exactly what was just undone. Sub-steps
/// whose index is stale leave the canvas unchanged.
fn apply_and_invert(cmd: HistoryCommand, canvas: &mut Vec<CanvasObject>) -> (inv: HistoryCommand)
    requires
        valid_canvas_v(objects_view(old(canvas)@)),
        cmd_valid(cmd@),
    ensures
        objects_view(final(canvas)@) == apply_view(cmd@, objects_view(old(canvas)@)),
        inv@ == inverse_view(cmd@, objects_view(old(canvas)@)),
        cmd_valid(inv@),
        valid_canvas_v(objects_view(final(canvas)@)),
{
    proof {
        lemma_inverse_valid(cmd@, objects_view(canvas@));
        lemma_apply_len(cmd@, objects_view(canvas@));
        lemma_apply_valid(cmd@, objects_view(canvas@));
    }
    match cmd {
        HistoryCommand::AddObject { index, object } => {
            if index < canvas.len() {
                let removed = canvas.remove(index);
                proof {
                    assert(objects_view(canvas@) =~= objects_view(old(canvas)@).remove(
                        index as int,
                    ));
                }
                HistoryCommand::RemoveObject { index, object: removed }
            } else {
                HistoryCommand::AddObject { index, object }
            }
        },
        HistoryCommand::RemoveObject { index, object } => {
            if index <= canvas.len() && canvas.len() < MAX_OBJECTS {
                let inv_object = copy_object(&object);
                canvas.insert(index, object);
                proof {
                    assert(objects_view(canvas@) =~= objects_view(old(canvas)@).insert(
                        index as int,
                        inv_object@,
                    ));
                }
                HistoryCommand::AddObject { index, object: inv_object }
            } else {
                HistoryCommand::RemoveObject { index, object }
            }
        },
        HistoryCommand::ModifyObject { index, old_object, new_object } => {
            if index < canvas.len() {
                let inv_new = copy_object(&old_object);
                let mut tmp = old_object;
                canvas.set_and_swap(index, &mut tmp);
                proof {
                    assert(objects_view(canvas@) =~= objects_view(old(canvas)@).update(
                        index as int,
                        inv_new@,
                    ));
                }
                HistoryCommand::ModifyObject { index, old_object: tmp, new_object: inv_new }
            } else {
                HistoryCommand::ModifyObject { index, old_object, new_object }
            }
        },
        HistoryCommand::ClearObjects { objects } => {
            let mut tmp = objects;
            core::mem::swap(canvas, &mut tmp);
            HistoryCommand::ClearObjects { objects: tmp }
        },
    }
}

impl History {
    /// Undo the most recent command: apply its inverse to the canvas and
    /// move the actual inverse onto the redo stack. Returns false, with
    /// nothing changed, when there is nothing to undo.
    pub fn undo(&mut self, canvas: &mut Vec<CanvasObject>) -> (r: bool)
        requires
            old(self).wf(),
            valid_canvas_v(objects_view(old(canvas)@)),
        ensures
            final(self).wf(),
            valid_canvas_v(objects_view(final(canvas)@)),
            r == (old(self)@.undo.len() > 0),
            hist_state(final(self)@, objects_view(final(canvas)@)) == undo_step(
                hist_state(old(self)@, objects_view(old(canvas)@)),
            ),
            final(self)@.max_entries == old(self)@.max_entries,
            final(self)@.max_memory == old(self)@.max_memory,
    {
        let ghost pre_undo = self@.undo;
        let ghost pre_redo = self@.redo;
        let ghost pre_canvas = objects_view(canvas@);
        match self.undo_stack.pop() {
            Option::None => {
                proof {
                    assert(pre_undo.len() == 0);
                    assert(commands_view(self.undo_stack@) =~= pre_undo);
                    assert(hist_state(self@, objects_view(canvas@)) =~= undo_step(
                        hist_state(self@, objects_view(canvas@)),
                    ));
                }
                false
            },
            Option::Some(cmd) => {
                proof {
                    assert(commands_view(self.undo_stack@) =~= pre_undo.drop_last());
                    assert(cmd@ == pre_undo.last());
                    assert(cmd_valid(cmd@));
                    lemma_stack_cost_push(pre_undo.drop_last(), cmd@);
                    assert(pre_undo.drop_last().push(cmd@) =~= pre_undo);
                    lemma_stack_cost_nonneg(pre_undo.drop_last());
                    lemma_command_cost_bound(cmd@);
                }
                let c_cost: u128 = command_cost_exec(&cmd);
                self.undo_mem = self.undo_mem - c_cost;
                let inv = apply_and_invert(cmd, canvas);
                proof {
                    lemma_command_cost_bound(inv@);
                    lemma_stack_cost_nonneg(pre_redo);
                    lemma_stack_cost_bound(pre_redo);
                    assert(pre_redo.len() * MAX_CMD_COST <= 1_000_000 * MAX_CMD_COST)
                        by (nonlinear_arith)
                        requires
                            pre_redo.len() <= 1_000_000,
                    ;
                    lemma_stack_cost_push(pre_redo, inv@);
                }
                let i_cost: u128 = command_cost_exec(&inv);
                self.redo_mem = self.redo_mem + i_cost;
                self.redo_stack.push(inv);
                proof {
                    assert(commands_view(self.redo_stack@) =~= pre_redo.push(
                        inverse_view(pre_undo.last(), pre_canvas),
                    ));
                    assert(stack_valid(commands_view(self.undo_stack@)));
                    assert(stack_valid(commands_view(self.redo_stack@))) by {
                        let post = commands_view(self.redo_stack@);
                        assert(forall|i: int|
                            0 <= i < post.len() - 1 ==> post[i] == #[trigger] pre_redo[i]);
                    }
                    assert(hist_state(self@, objects_view(canvas@)) =~= undo_step(
                        hist_state(
                            HistoryView {
                                undo: pre_undo,
                                redo: pre_redo,
                                mem: old(self)@.mem,
                                max_entries: old(self)@.max_entries,
                                max_memory: old(self)@.max_memory,
                            },
                            pre_canvas,
                        ),
                    ));
                }
                true
            },
        }
    }

    /// Redo the most recently undone command: apply it forward again and
    /// move its inverse back onto the undo stack. Returns false, with
    /// nothing changed, when there is nothing to redo.
    pub fn redo(&mut self, canvas: &mut Vec<CanvasObject>) -> (r: bool)
        requires
            old(self).wf(),
            valid_canvas_v(objects_view(old(canvas)@)),
        ensures
            final(self).wf(),
            valid_canvas_v(objects_view(final(canvas)@)),
            r == (old(self)@.redo.len() > 0),
            hist_state(final(self)@, objects_view(final(canvas)@)) == redo_step(
                hist_state(old(self)@, objects_view(old(canvas)@)),
            ),
            final(self)@.max_entries == old(self)@.max_entries,
            final(self)@.max_memory == old(self)@.max_memory,
    {
        let ghost pre_undo = self@.undo;
        let ghost pre_redo = self@.redo;
        let ghost pre_canvas = objects_view(canvas@);
        match self.redo_stack.pop() {
            Option::None => {
                proof {
                    assert(pre_redo.len() == 0);
                    assert(commands_view(self.redo_stack@) =~= pre_redo);
                    assert(hist_state(self@, objects_view(canvas@)) =~= redo_step(
                        hist_state(self@, objects_view(canvas@)),
                    ));
                }
                false
            },
            Option::Some(cmd) => {
                proof {
                    assert(commands_view(self.redo_stack@) =~= pre_redo.drop_last());
                    assert(cmd@ == pre_redo.last());
                    assert(cmd_valid(cmd@));
                    lemma_stack_cost_push(pre_redo.drop_last(), cmd@);
                    assert(pre_redo.drop_last().push(cmd@) =~= pre_redo);
                    lemma_stack_cost_nonneg(pre_redo.drop_last());
                    lemma_command_cost_bound(cmd@);
                }
                let c_cost: u128 = command_cost_exec(&cmd);
                self.redo_mem = self.redo_mem - c_cost;
                let inv = apply_and_invert(cmd, canvas);
                proof {
                    lemma_command_cost_bound(inv@);
                    lemma_stack_cost_nonneg(pre_undo);
                    lemma_stack_cost_bound(pre_undo);
                    assert(pre_undo.len() * MAX_CMD_COST <= 1_000_000 * MAX_CMD_COST)
                        by (nonlinear_arith)
                        requires
                            pre_undo.len() <= 1_000_000,
                    ;
                    lemma_stack_cost_push(pre_undo, inv@);
                }
                let i_cost: u128 = command_cost_exec(&inv);
                self.undo_mem = self.undo_mem + i_cost;
                self.undo_stack.push(inv);
                proof {
                    assert(commands_view(self.undo_stack@) =~= pre_undo.push(
                        inverse_view(pre_redo.last(), pre_canvas),
                    ));
                    assert(stack_valid(commands_view(self.redo_stack@)));
                    assert(stack_valid(commands_view(self.undo_stack@))) by {
                        let post = commands_view(self.undo_stack@);
                        assert(forall|i: int|
                            0 <= i < post.len() - 1 ==> post[i] == #[trigger] pre_undo[i]);
                    }
                    assert(hist_state(self@, objects_view(canvas@)) =~= redo_step(
                        hist_state(
                            HistoryView {
                                undo: pre_undo,
                                redo: pre_redo,
                                mem: old(self)@.mem,
                                max_entries: old(self)@.max_entries,
                                max_memory: old(self)@.max_memory,
                            },
                            pre_canvas,
                        ),
                    ));
                }
                true
            },
        }
    }
}

/// The undo stack after recording a whole list of commands in order,
/// the redo chain having been discarded.
pub open spec fn record_all(
    undo: Seq<CommandView>,
    cmds: Seq<CommandView>,
    max_n: int,
    max_m: int,
) -> Seq<CommandView>
    decreases cmds.len(),
{
    if cmds.len() == 0 {
        undo
    } else {
        record_all(evict_front(undo.push(cmds[0]), max_n, max_m), cmds.drop_first(), max_n, max_m)
    }
}

/// Recording a concatenated list is recording the two parts in turn.
pub proof fn lemma_record_all_append(
    undo: Seq<CommandView>,
    c1: Seq<CommandView>,
    c2: Seq<CommandView>,
    max_n: int,
    max_m: int,
)
    ensures
        record_all(undo, c1 + c2, max_n, max_m) == record_all(
            record_all(undo, c1, max_n, max_m),
            c2,
            max_n,
            max_m,
        ),
    decreases c1.len(),
{
    if c1.len() == 0 {
        assert(c1 + c2 =~= c2);
    } else {
        assert((c1 + c2)[0] == c1[0]);
        assert((c1 + c2).drop_first() =~= c1.drop_first() + c2);
        lemma_record_all_append(
            evict_front(undo.push(c1[0]), max_n, max_m),
            c1.drop_first(),
            c2,
            max_n,
            max_m,
        );
    }
}

} // verus!

//! Copy-on-write edit overlay.
//!
//! The base data may be an immutable memory-mapped file. Edits live in a sparse
//! in-memory layer that is consulted before the base, so editing costs what was
//! edited, the base can be read-only, and undoing an edit means putting the
//! previous entry back.

use crate::arena::{
    an_interned_string_reads_back, answers, bytes_for, interning_twice_gives_one_id,
    lemma_bytes_for, lemma_kept_by_one, ArenaView, FormulaText, StringArena, FORMULA_TEXT_TAG,
};
use crate::capacity::{at_most_max, capped_mul, lemma_capped_factor};
use crate::cellmap::CellMap;
use crate::table::CellRef;
use crate::value::{StrId, Value};
use vstd::layout::size_of;
use vstd::prelude::*;
use vstd::std_specs::iter::IteratorSpec;
use vstd::utf8::encode_utf8;

verus! {

/// The bit of a [`StrId`] that marks text typed into an overlay, so that it is
/// never taken for a base string with the same index.
pub const OVERLAY_TEXT_TAG: u32 = 0x4000_0000;

/// What room for an edited cell takes: its place, its input and what an entry of the
/// map costs besides.
pub open spec fn cell_bytes() -> int {
    (size_of::<CellRef>() + size_of::<CellInput>() + 16) as int
}

/// What the user typed into a cell, before evaluation.
#[derive(Debug, PartialEq)]
pub enum CellInput {
    /// A literal value: number, text, bool.
    Literal(Value),
    /// A formula, stored as its source text, with its result.
    Formula { src: String, cached: Value },
}

#[verifier::ext_equal]
pub ghost enum InputView {
    Literal(Value),
    Formula { src: Seq<char>, cached: Value },
}

impl View for CellInput {
    type V = InputView;

    open spec fn view(&self) -> InputView {
        match self {
            CellInput::Literal(v) => InputView::Literal(*v),
            CellInput::Formula { src, cached } => InputView::Formula { src: src@, cached: *cached },
        }
    }
}

impl InputView {
    pub open spec fn value(self) -> Value {
        match self {
            InputView::Literal(v) => v,
            InputView::Formula { cached, .. } => cached,
        }
    }
}

impl Clone for CellInput {
    fn clone(&self) -> (r: CellInput)
        ensures
            r@ == self@,
    {
        match self {
            CellInput::Literal(v) => CellInput::Literal(*v),
            CellInput::Formula { src, cached } => CellInput::Formula {
                src: src.clone(),
                cached: *cached,
            },
        }
    }
}

impl CellInput {
    /// The value this cell currently displays.
    pub fn value(&self) -> (v: Value)
        ensures
            v == self@.value(),
    {
        match self {
            CellInput::Literal(v) => *v,
            CellInput::Formula { src: _, cached } => *cached,
        }
    }

    pub fn is_formula(&self) -> (b: bool)
        ensures
            b == (self@ is Formula),
    {
        match self {
            CellInput::Literal(_) => false,
            CellInput::Formula { src: _, cached: _ } => true,
        }
    }

    /// Source text for the formula bar: formulas show their source, literals show
    /// nothing.
    pub fn formula_src(&self) -> (r: Option<&str>)
        ensures
            match r {
                Some(s) => self@ is Formula && s@ == self@->src,
                None => self@ is Literal,
            },
    {
        match self {
            CellInput::Formula { src, cached: _ } => Some(src.as_str()),
            CellInput::Literal(_) => None,
        }
    }
}

/// An entry or none.
pub open spec fn opt_view(o: Option<CellInput>) -> Option<InputView> {
    match o {
        Some(i) => Some(i@),
        None => None,
    }
}

fn clone_opt(o: &Option<CellInput>) -> (r: Option<CellInput>)
    ensures
        opt_view(r) == opt_view(*o),
{
    match o {
        Some(i) => Some(i.clone()),
        None => None,
    }
}

/// A single cell's before and after state, recorded by a batch. `None` on either
/// side means that there is no entry and the cell defers to the base.
#[derive(Debug, PartialEq, Clone)]
pub struct OverlayChange {
    pub cell: CellRef,
    pub before: Option<CellInput>,
    pub after: Option<CellInput>,
}

#[verifier::ext_equal]
pub ghost struct ChangeView {
    pub cell: CellRef,
    pub before: Option<InputView>,
    pub after: Option<InputView>,
}

impl View for OverlayChange {
    type V = ChangeView;

    open spec fn view(&self) -> ChangeView {
        ChangeView {
            cell: self.cell,
            before: opt_view(self.before),
            after: opt_view(self.after),
        }
    }
}

pub open spec fn change_views(v: Seq<OverlayChange>) -> Seq<ChangeView> {
    Seq::new(v.len(), |i: int| v[i]@)
}

pub open spec fn edit_views(v: Seq<(CellRef, Option<CellInput>)>) -> Seq<
    (CellRef, Option<InputView>),
> {
    Seq::new(v.len(), |i: int| (v[i].0, opt_view(v[i].1)))
}

/// Sparse edit layer over an immutable base.
#[derive(Debug)]
pub struct EditOverlay {
    cells: CellMap<CellInput>,
    /// Strings interned by edits, apart from the base's.
    arena: StringArena,
    extra_rows: usize,
    extra_cols: usize,
    /// Goes up with every change to what would be saved.
    revision: u64,
}

#[verifier::ext_equal]
pub ghost struct OverlayView {
    /// The edited cells. Every other cell defers to the base.
    pub cells: Map<CellRef, InputView>,
    pub arena: ArenaView,
    /// How far the sheet extends because of edits.
    pub rows: int,
    pub cols: int,
    /// The edit counter.
    pub revision: u64,
}

/// The entries after one cell is given another one, or none.
pub open spec fn put(
    m: Map<CellRef, InputView>,
    cell: CellRef,
    after: Option<InputView>,
) -> Map<CellRef, InputView> {
    match after {
        Some(i) => m.insert(cell, i),
        None => m.remove(cell),
    }
}

/// The entry of a cell.
pub open spec fn entry(m: Map<CellRef, InputView>, cell: CellRef) -> Option<InputView> {
    if m.contains_key(cell) {
        Some(m[cell])
    } else {
        None
    }
}

pub open spec fn max_int(a: int, b: int) -> int {
    if a >= b {
        a
    } else {
        b
    }
}

impl OverlayView {
    pub open spec fn empty() -> OverlayView {
        OverlayView {
            cells: Map::empty(),
            arena: ArenaView::empty(),
            rows: 0,
            cols: 0,
            revision: 0,
        }
    }

    /// With an entry written: the extent grows to hold the cell and the counter
    /// goes up.
    pub open spec fn with(self, cell: CellRef, input: InputView) -> OverlayView {
        OverlayView {
            cells: self.cells.insert(cell, input),
            rows: max_int(self.rows, at_most_max(cell.row + 1)),
            cols: max_int(self.cols, at_most_max(cell.col + 1)),
            revision: self.revision.wrapping_add(1),
            ..self
        }
    }

    /// With an entry taken out: the counter goes up where there was one.
    pub open spec fn cleared(self, cell: CellRef) -> OverlayView {
        OverlayView {
            cells: self.cells.remove(cell),
            revision: if self.cells.contains_key(cell) {
                self.revision.wrapping_add(1)
            } else {
                self.revision
            },
            ..self
        }
    }

    pub open spec fn restored(self, cell: CellRef, prev: Option<InputView>) -> OverlayView {
        match prev {
            Some(i) => self.with(cell, i),
            None => self.cleared(cell),
        }
    }

    /// With another result cached where there is a formula whose result differs.
    pub open spec fn recalculated(self, cell: CellRef, value: Value) -> OverlayView {
        match entry(self.cells, cell) {
            Some(InputView::Formula { src, cached }) => if cached.same_spec(value) {
                self
            } else {
                OverlayView {
                    cells: self.cells.insert(cell, InputView::Formula { src, cached: value }),
                    revision: self.revision.wrapping_add(1),
                    ..self
                }
            },
            _ => self,
        }
    }

    /// With a string in the arena: the counter goes up where it is a new one.
    pub open spec fn interned(self, b: Seq<u8>) -> OverlayView {
        if self.arena.knows(b) {
            self
        } else {
            OverlayView {
                arena: self.arena.appended(b),
                revision: self.revision.wrapping_add(1),
                ..self
            }
        }
    }

    /// After one operation.
    pub open spec fn after(self, step: Step) -> OverlayView {
        match step {
            Step::Restore(cell, prev) => self.restored(cell, prev),
            Step::Recalculate(cell, value) => self.recalculated(cell, value),
            Step::Intern(b) => self.interned(b),
        }
    }
}

/// One thing that can be done to an overlay.
pub ghost enum Step {
    /// An entry is written, or taken out.
    Restore(CellRef, Option<InputView>),
    Recalculate(CellRef, Value),
    Intern(Seq<u8>),
}

/// After one operation upon the other.
pub open spec fn all_after(v: OverlayView, steps: Seq<Step>) -> OverlayView
    decreases steps.len(),
{
    if steps.len() == 0 {
        v
    } else {
        all_after(v, steps.drop_last()).after(steps.last())
    }
}

/// After a batch of edits.
pub open spec fn batch(v: OverlayView, edits: Seq<(CellRef, Option<InputView>)>) -> OverlayView
    decreases edits.len(),
{
    if edits.len() == 0 {
        v
    } else {
        batch(v, edits.drop_last()).restored(edits.last().0, edits.last().1)
    }
}

/// What a batch of edits changes, in order.
pub open spec fn recorded(v: OverlayView, edits: Seq<(CellRef, Option<InputView>)>) -> Seq<
    ChangeView,
>
    decreases edits.len(),
{
    if edits.len() == 0 {
        Seq::empty()
    } else {
        recorded(v, edits.drop_last()).push(
            ChangeView {
                cell: edits.last().0,
                before: entry(batch(v, edits.drop_last()).cells, edits.last().0),
                after: edits.last().1,
            },
        )
    }
}

/// After a batch is undone, the last change first.
pub open spec fn reverted(v: OverlayView, changes: Seq<ChangeView>) -> OverlayView
    decreases changes.len(),
{
    if changes.len() == 0 {
        v
    } else {
        reverted(v.restored(changes.last().cell, changes.last().before), changes.drop_last())
    }
}

impl View for EditOverlay {
    type V = OverlayView;

    closed spec fn view(&self) -> OverlayView {
        OverlayView {
            cells: self.cells@.map_values(|i: CellInput| i@),
            arena: self.arena@,
            rows: self.extra_rows as int,
            cols: self.extra_cols as int,
            revision: self.revision,
        }
    }
}

impl Default for EditOverlay {
    fn default() -> (o: EditOverlay)
        ensures
            o.wf(),
            o@ == OverlayView::empty(),
    {
        EditOverlay::new()
    }
}

impl Clone for EditOverlay {
    fn clone(&self) -> (o: EditOverlay)
        ensures
            o@ == self@,
            self.wf() ==> o.wf(),
    {
        let keys = self.cells.cells();
        let mut cells: CellMap<CellInput> = CellMap::new();
        let ghost mine = self@.cells;
        let mut i: usize = 0;
        while i < keys.len()
            invariant
                i <= keys@.len(),
                keys@.to_set() == self.cells@.dom(),
                mine == self.cells@.map_values(|i: CellInput| i@),
                forall|c: CellRef| #[trigger]
                    cells@.contains_key(c) <==> keys@.subrange(0, i as int).contains(c),
                forall|c: CellRef| #[trigger]
                    cells@.contains_key(c) ==> self.cells@.contains_key(c) && cells@[c]@ == mine[c],
            decreases keys@.len() - i,
        {
            let cell = keys[i];
            let ghost before = cells@;
            assert(keys@.to_set().contains(cell));
            match self.cells.get(cell) {
                Some(input) => {
                    cells.insert(cell, input.clone());
                },
                None => {},
            }
            i = i + 1;
            proof {
                let t = keys@.subrange(0, i - 1);
                let u = keys@.subrange(0, i as int);
                assert forall|c: CellRef| #[trigger]
                    cells@.contains_key(c) <==> u.contains(c) by {
                    if t.contains(c) {
                        let k = choose|k: int| 0 <= k < t.len() && t[k] == c;
                        assert(u[k] == c);
                    }
                    assert(u[i - 1] == cell);
                    if u.contains(c) {
                        let k = choose|k: int| 0 <= k < u.len() && u[k] == c;
                        if k < i - 1 {
                            assert(t[k] == c);
                        }
                    }
                    assert(before.contains_key(c) <==> t.contains(c));
                }
            }
        }
        proof {
            assert(keys@.subrange(0, keys@.len() as int) =~= keys@);
            assert(cells@.map_values(|i: CellInput| i@) =~= mine) by {
                assert forall|c: CellRef|
                    cells@.contains_key(c) <==> self.cells@.contains_key(c) by {
                    assert(keys@.to_set().contains(c) <==> self.cells@.contains_key(c));
                }
            }
        }
        EditOverlay {
            cells,
            arena: self.arena.clone(),
            extra_rows: self.extra_rows,
            extra_cols: self.extra_cols,
            revision: self.revision,
        }
    }
}

impl EditOverlay {
    pub closed spec fn wf(self) -> bool {
        self.arena.wf()
    }

    /// No text is kept twice among those that interning finds again.
    pub proof fn texts_are_kept_once(self)
        requires
            self.wf(),
        ensures
            self@.arena.deduplicated(),
            self@.arena.base <= self@.arena.spans.len(),
    {
        self.arena.strings_are_kept_once();
    }

    pub fn new() -> (o: EditOverlay)
        ensures
            o.wf(),
            o@ == OverlayView::empty(),
    {
        let o = EditOverlay {
            cells: CellMap::new(),
            arena: StringArena::new(),
            extra_rows: 0,
            extra_cols: 0,
            revision: 0,
        };
        assert(o@.cells =~= Map::<CellRef, InputView>::empty());
        o
    }

    /// Edit counter. Two reads returning the same value mean that nothing was
    /// written between them, short of a wrap-around.
    pub fn revision(&self) -> (n: u64)
        ensures
            n == self@.revision,
    {
        self.revision
    }

    pub fn is_empty(&self) -> (b: bool)
        ensures
            b == (self@.cells == Map::<CellRef, InputView>::empty()),
    {
        proof {
            if self.cells@ == Map::<CellRef, CellInput>::empty() {
                assert(self@.cells =~= Map::<CellRef, InputView>::empty());
            } else {
                if self@.cells == Map::<CellRef, InputView>::empty() {
                    assert(self.cells@.dom() =~= self@.cells.dom());
                    assert(self.cells@ =~= Map::<CellRef, CellInput>::empty());
                }
            }
        }
        self.cells.is_empty()
    }

    pub fn len(&self) -> (n: usize)
        ensures
            n == self@.cells.dom().len(),
    {
        assert(self.cells@.dom() =~= self@.cells.dom());
        self.cells.len()
    }

    /// Look up an edited cell. `None` means "defer to the base".
    pub fn get(&self, cell: CellRef) -> (r: Option<&CellInput>)
        ensures
            match r {
                Some(i) => entry(self@.cells, cell) == Some(i@),
                None => entry(self@.cells, cell) is None,
            },
    {
        self.cells.get(cell)
    }

    pub fn value(&self, cell: CellRef) -> (r: Option<Value>)
        ensures
            r == match entry(self@.cells, cell) {
                Some(i) => Some(i.value()),
                None => None,
            },
    {
        match self.cells.get(cell) {
            Some(i) => Some(i.value()),
            None => None,
        }
    }

    pub fn has_formula(&self, cell: CellRef) -> (b: bool)
        ensures
            b == (entry(self@.cells, cell) matches Some(i) && i is Formula),
    {
        match self.cells.get(cell) {
            Some(i) => i.is_formula(),
            None => false,
        }
    }

    /// Write an edit, returning whatever was there before.
    pub fn set(&mut self, cell: CellRef, input: CellInput) -> (prev: Option<CellInput>)
        requires
            old(self).wf(),
        ensures
            final(self).wf(),
            final(self)@ == old(self)@.with(cell, input@),
            opt_view(prev) == entry(old(self)@.cells, cell),
    {
        let ghost was = self@;
        let ghost input_v = input@;
        let row: usize = (cell.row as usize).saturating_add(1);
        if row > self.extra_rows {
            self.extra_rows = row;
        }
        let col: usize = (cell.col as usize).saturating_add(1);
        if col > self.extra_cols {
            self.extra_cols = col;
        }
        self.revision = self.revision.wrapping_add(1);
        let prev = self.cells.insert(cell, input);
        assert(self@.cells =~= was.cells.insert(cell, input_v));
        prev
    }

    /// Remove an edit, reverting the cell to its base value.
    pub fn clear(&mut self, cell: CellRef) -> (prev: Option<CellInput>)
        requires
            old(self).wf(),
        ensures
            final(self).wf(),
            final(self)@ == old(self)@.cleared(cell),
            opt_view(prev) == entry(old(self)@.cells, cell),
    {
        let ghost was = self@;
        let prev = self.cells.remove(cell);
        match &prev {
            Some(_) => {
                self.revision = self.revision.wrapping_add(1);
            },
            None => {},
        }
        assert(self@.cells =~= was.cells.remove(cell));
        prev
    }

    /// Restore a previous entry exactly: what undoing an edit does.
    pub fn restore(&mut self, cell: CellRef, prev: Option<CellInput>)
        requires
            old(self).wf(),
        ensures
            final(self).wf(),
            final(self)@ == old(self)@.restored(cell, opt_view(prev)),
    {
        match prev {
            Some(input) => {
                self.set(cell, input);
            },
            None => {
                self.clear(cell);
            },
        }
    }

    /// Apply a number of edits and record what they change, so that the caller
    /// can make one undo step of them.
    pub fn apply_batch<I: Iterator<Item = (CellRef, Option<CellInput>)>>(
        &mut self,
        edits: I,
        changes: &mut Vec<OverlayChange>,
    ) -> (n: usize)
        requires
            old(self).wf(),
            edits.obeys_prophetic_iter_laws(),
            edits.decrease() is Some,
        ensures
            final(self).wf(),
            final(self)@ == batch(old(self)@, edit_views(edits.remaining())),
            change_views(final(changes)@) == change_views(old(changes)@) + recorded(
                old(self)@,
                edit_views(edits.remaining()),
            ),
            n == edits.remaining().len(),
    {
        let ghost was = self@;
        let ghost had = change_views(changes@);
        let ghost raw = edits.remaining();
        let ghost all = edit_views(raw);
        let ghost mut done: int = 0;
        let start: usize = changes.len();
        let mut edits = edits;
        assert(all.subrange(0, 0) =~= Seq::empty());
        assert(raw.subrange(0, raw.len() as int) =~= raw);
        assert(change_views(changes@) =~= had + recorded(was, all.subrange(0, 0)));
        loop
            invariant_except_break
                edits.obeys_prophetic_iter_laws(),
                edits.decrease() is Some,
                0 <= done <= raw.len(),
                all == edit_views(raw),
                edits.remaining() == raw.subrange(done, raw.len() as int),
                self.wf(),
                self@ == batch(was, all.subrange(0, done)),
                change_views(changes@) == had + recorded(was, all.subrange(0, done)),
                changes@.len() == start + done,
            ensures
                self.wf(),
                self@ == batch(was, all),
                change_views(changes@) == had + recorded(was, all),
                changes@.len() == start + raw.len(),
            decreases edits.decrease()->0,
        {
            match edits.next() {
                Some(edit) => {
                    let (cell, after) = edit;
                    let ghost here = (cell, opt_view(after));
                    let ghost so_far = all.subrange(0, done);
                    let ghost changes_before = change_views(changes@);
                    proof {
                        let t = all.subrange(0, done + 1);
                        assert(t.drop_last() =~= so_far);
                        assert(raw.subrange(done, raw.len() as int).drop_first() =~= raw.subrange(
                            done + 1,
                            raw.len() as int,
                        ));
                        assert(raw[done] == edit);
                        assert(t.last() == here);
                        done = done + 1;
                    }
                    let before = match self.cells.get(cell) {
                        Some(i) => Some(i.clone()),
                        None => None,
                    };
                    assert(opt_view(before) == entry(self@.cells, cell));
                    let given = clone_opt(&after);
                    self.restore(cell, given);
                    let change = OverlayChange { cell, before, after };
                    let ghost change_v = change@;
                    changes.push(change);
                    proof {
                        assert(change_views(changes@) =~= changes_before.push(change_v));
                        assert(change_views(changes@) =~= had + recorded(
                            was,
                            all.subrange(0, done),
                        ));
                    }
                },
                None => {
                    proof {
                        assert(all.subrange(0, done) =~= all);
                    }
                    break;
                },
            }
        }
        changes.len() - start
    }

    /// Undo a batch, the last change first, so that several writes to one cell
    /// unwind exactly as they were made.
    pub fn revert_batch(&mut self, changes: &Vec<OverlayChange>)
        requires
            old(self).wf(),
        ensures
            final(self).wf(),
            final(self)@ == reverted(old(self)@, change_views(changes@)),
    {
        let ghost was = self@;
        let ghost all = change_views(changes@);
        let mut i: usize = changes.len();
        assert(all.subrange(0, i as int) =~= all);
        while i > 0
            invariant
                i <= changes@.len(),
                all == change_views(changes@),
                self.wf(),
                reverted(self@, all.subrange(0, i as int)) == reverted(was, all),
            decreases i,
        {
            let ghost t = all.subrange(0, i as int);
            i = i - 1;
            let ghost before = self@;
            assert(t.drop_last() =~= all.subrange(0, i as int));
            assert(t.last() == changes@[i as int]@);
            self.restore(changes[i].cell, clone_opt(&changes[i].before));
        }
    }

    /// Intern text typed into the overlay. The id carries [`OVERLAY_TEXT_TAG`].
    pub fn intern(&mut self, s: &str) -> (id: StrId)
        requires
            old(self).wf(),
            internable(old(self)@.arena, encode_utf8(s@)),
        ensures
            final(self).wf(),
            old(self)@.arena.sound() ==> final(self)@.arena.sound(),
            id.0 >= OVERLAY_TEXT_TAG,
            id.0 < FORMULA_TEXT_TAG,
            final(self)@ == old(self)@.interned(encode_utf8(s@)),
            old(self)@.arena.interns(
                encode_utf8(s@),
                final(self)@.arena,
                StrId((id.0 - OVERLAY_TEXT_TAG) as u32),
            ),
    {
        proof {
            self.arena.strings_are_kept_once();
            let b = encode_utf8(s@);
            assert forall|i: int, j: int|
                #![trigger self.arena@.holds_at(i, b), self.arena@.holds_at(j, b)]
                self.arena@.holds_at(i, b) && self.arena@.holds_at(j, b) implies i == j by {
                if i < j {
                    assert(self.arena@.bytes_at(i) != self.arena@.bytes_at(j));
                } else if j < i {
                    assert(self.arena@.bytes_at(j) != self.arena@.bytes_at(i));
                }
            }
        }
        let count: usize = self.arena.len();
        let raw = self.arena.intern(s);
        if self.arena.len() != count {
            self.revision = self.revision.wrapping_add(1);
        }
        StrId(raw.0 + OVERLAY_TEXT_TAG)
    }

    /// Whether the texts of a loaded overlay can be resolved.
    pub fn is_sound(&self) -> (b: bool)
        ensures
            b == self@.arena.sound(),
    {
        self.arena.is_sound()
    }

    /// Resolve an id this overlay produced, or a formula text's. A plain id belongs to
    /// the base and gives nothing, so that no base id is ever served from the wrong
    /// arena.
    pub fn resolve<'a>(&'a self, id: StrId, formulas: &'a FormulaText) -> (r: Option<&'a str>)
        requires
            self@.arena.sound(),
        ensures
            answers(r, resolved(self@.arena, id, formulas@)),
    {
        if id.0 >= FORMULA_TEXT_TAG {
            return self.arena.resolve(id, formulas);
        }
        if id.0 >= OVERLAY_TEXT_TAG {
            return self.arena.resolve(StrId(id.0 - OVERLAY_TEXT_TAG), formulas);
        }
        None
    }

    /// Update just the cached result of a formula, leaving its source intact. A
    /// result that does not move is no edit.
    pub fn update_cached(&mut self, cell: CellRef, value: Value)
        requires
            old(self).wf(),
        ensures
            final(self).wf(),
            final(self)@ == old(self)@.recalculated(cell, value),
    {
        let ghost was = self@;
        let next = match self.cells.get(cell) {
            Some(CellInput::Formula { src, cached }) => if cached.same(&value) {
                None
            } else {
                Some(CellInput::Formula { src: src.clone(), cached: value })
            },
            _ => None,
        };
        match next {
            Some(input) => {
                let ghost input_v = input@;
                self.revision = self.revision.wrapping_add(1);
                self.cells.insert(cell, input);
                assert(self@.cells =~= was.cells.insert(cell, input_v));
            },
            None => {},
        }
    }

    /// Every formula cell with its source, once, in no particular order.
    pub fn formula_cells(&self) -> (out: Vec<(CellRef, &str)>)
        ensures
            forall|i: int|
                0 <= i < out@.len() ==> self@.cells.contains_key((#[trigger] out@[i]).0)
                    && self@.cells[out@[i].0] is Formula && self@.cells[out@[i].0]->src
                    == out@[i].1@,
            forall|c: CellRef|
                self@.cells.contains_key(c) && self@.cells[c] is Formula ==> #[trigger] listed(
                    out@,
                    c,
                ),
            forall|i: int, j: int|
                0 <= i < j < out@.len() ==> (#[trigger] out@[i]).0 != (#[trigger] out@[j]).0,
    {
        let keys = self.cells.cells();
        let mut out: Vec<(CellRef, &str)> = Vec::new();
        let mut i: usize = 0;
        while i < keys.len()
            invariant
                i <= keys@.len(),
                keys@.no_duplicates(),
                keys@.to_set() == self.cells@.dom(),
                self@.cells == self.cells@.map_values(|i: CellInput| i@),
                forall|k: int|
                    0 <= k < out@.len() ==> self@.cells.contains_key((#[trigger] out@[k]).0)
                        && self@.cells[out@[k].0] is Formula && self@.cells[out@[k].0]->src
                        == out@[k].1@,
                forall|k: int|
                    0 <= k < i && self@.cells[#[trigger] keys@[k]] is Formula ==> listed(
                        out@,
                        keys@[k],
                    ),
                forall|k: int, j: int|
                    0 <= k < out@.len() && i <= j < keys@.len() ==> (#[trigger] out@[k]).0
                        != #[trigger] keys@[j],
                forall|k: int, j: int|
                    0 <= k < j < out@.len() ==> (#[trigger] out@[k]).0 != (#[trigger] out@[j]).0,
            decreases keys@.len() - i,
        {
            let cell = keys[i];
            let ghost before = out@;
            assert(keys@.to_set().contains(cell));
            match self.cells.get(cell) {
                Some(input) => match input.formula_src() {
                    Some(src) => {
                        out.push((cell, src));
                        assert(out@[before.len() as int].0 == cell);
                        assert(listed(out@, cell));
                    },
                    None => {},
                },
                None => {},
            }
            proof {
                assert forall|k: int|
                    0 <= k < i + 1 && self@.cells[#[trigger] keys@[k]] is Formula implies listed(
                    out@,
                    keys@[k],
                ) by {
                    if k < i {
                        assert(listed(before, keys@[k]));
                        let z = choose|z: int| 0 <= z < before.len() && (#[trigger] before[z]).0
                            == keys@[k];
                        assert(out@[z].0 == keys@[k]);
                    }
                }
            }
            i = i + 1;
        }
        proof {
            assert forall|c: CellRef|
                self@.cells.contains_key(c) && self@.cells[c] is Formula implies #[trigger] listed(
                out@,
                c,
            ) by {
                assert(keys@.to_set().contains(c));
                let k = choose|k: int| 0 <= k < keys@.len() && keys@[k] == c;
                assert(listed(out@, keys@[k]));
            }
        }
        out
    }

    /// Every edited cell once, in no particular order.
    pub fn edited_cells(&self) -> (out: Vec<(CellRef, &CellInput)>)
        ensures
            out@.len() == self@.cells.dom().len(),
            forall|i: int|
                0 <= i < out@.len() ==> entry(self@.cells, (#[trigger] out@[i]).0) == Some(
                    out@[i].1@,
                ),
            forall|i: int, j: int|
                0 <= i < j < out@.len() ==> (#[trigger] out@[i]).0 != (#[trigger] out@[j]).0,
    {
        let keys = self.cells.cells();
        let mut out: Vec<(CellRef, &CellInput)> = Vec::new();
        let mut i: usize = 0;
        while i < keys.len()
            invariant
                i <= keys@.len(),
                keys@.no_duplicates(),
                keys@.to_set() == self.cells@.dom(),
                self@.cells == self.cells@.map_values(|i: CellInput| i@),
                out@.len() == i,
                forall|k: int| 0 <= k < i ==> (#[trigger] out@[k]).0 == keys@[k],
                forall|k: int|
                    0 <= k < i ==> entry(self@.cells, (#[trigger] out@[k]).0) == Some(out@[k].1@),
            decreases keys@.len() - i,
        {
            let cell = keys[i];
            assert(keys@.to_set().contains(cell));
            match self.cells.get(cell) {
                Some(input) => {
                    out.push((cell, input));
                },
                None => {},
            }
            i = i + 1;
        }
        proof {
            keys@.unique_seq_to_set();
            assert(self.cells@.dom() =~= self@.cells.dom());
        }
        out
    }

    /// How far the sheet extends because of edits past the base's extent.
    pub fn extent(&self) -> (r: (usize, usize))
        ensures
            r.0 == self@.rows,
            r.1 == self@.cols,
    {
        (self.extra_rows, self.extra_cols)
    }

    /// The overlay's own string arena, for serialization.
    pub fn arena(&self) -> (a: &StringArena)
        ensures
            a@ == self@.arena,
    {
        &self.arena
    }

    /// Rebuild an overlay from saved parts. The extent is recomputed from the
    /// cells; of two entries for one cell the later counts.
    pub fn from_parts(cells: Vec<(CellRef, CellInput)>, arena: StringArena) -> (o: EditOverlay)
        requires
            arena.wf(),
        ensures
            o.wf(),
            o@ == (OverlayView {
                arena: arena@,
                revision: 0,
                ..batch(OverlayView::empty(), saved_edits(cells@))
            }),
    {
        let ghost all = saved_edits(cells@);
        let mut o = EditOverlay::new();
        let mut i: usize = 0;
        assert(all.subrange(0, 0) =~= Seq::empty());
        while i < cells.len()
            invariant
                i <= cells@.len(),
                all == saved_edits(cells@),
                o.wf(),
                o@ == batch(OverlayView::empty(), all.subrange(0, i as int)),
            decreases cells@.len() - i,
        {
            proof {
                let t = all.subrange(0, i + 1);
                assert(t.drop_last() =~= all.subrange(0, i as int));
            }
            o.set(cells[i].0, cells[i].1.clone());
            i = i + 1;
        }
        assert(all.subrange(0, all.len() as int) =~= all);
        o.arena = arena;
        o.revision = 0;
        o
    }

    /// Approximate heap cost: it grows with the edits and not with the sheet.
    pub fn heap_bytes(&self) -> (n: usize)
        requires
            self.wf(),
        ensures
            exists|cells: usize| #[trigger] overlay_takes(self@, cells, n),
    {
        assert(self.cells@.dom() =~= self@.cells.dom());
        let cells: usize = self.cells.capacity();
        let each: usize = std::mem::size_of::<CellRef>().saturating_add(
            std::mem::size_of::<CellInput>(),
        ).saturating_add(16);
        let arena: usize = self.arena.heap_bytes();
        let n: usize = capped_mul(cells, each).saturating_add(arena);
        proof {
            let (text, spans, table) = choose|text: usize, spans: usize, table: usize| #[trigger]
                self@.arena.fits(text, spans, table) && arena == at_most_max(
                    bytes_for(text, spans, table, self@.arena.buf.len() as int),
                );
            assert(self@.arena.fits(text, spans, table));
            lemma_capped_factor(cells as int, cell_bytes());
            assert(cells * cell_bytes() >= 0) by (nonlinear_arith)
                requires
                    cell_bytes() >= 0,
            ;
            lemma_bytes_for(text, spans, table, self@.arena.buf.len() as int);
            assert(overlay_takes(self@, cells, n));
        }
        n
    }
}

/// With room for `cells` edited cells, an overlay takes `n`.
pub open spec fn overlay_takes(v: OverlayView, cells: usize, n: usize) -> bool {
    cells >= v.cells.dom().len() && v.arena.takes(cells * cell_bytes(), n)
}

/// One of the entries is the cell's.
pub open spec fn listed(v: Seq<(CellRef, &str)>, cell: CellRef) -> bool {
    exists|i: int| 0 <= i < v.len() && (#[trigger] v[i]).0 == cell
}

/// The edits that write saved entries.
pub open spec fn saved_edits(v: Seq<(CellRef, CellInput)>) -> Seq<(CellRef, Option<InputView>)> {
    Seq::new(v.len(), |i: int| (v[i].0, Some(v[i].1@)))
}

/// The overlay's arena knows these bytes, or has room for them, under an id that
/// leaves the tag free.
pub open spec fn internable(arena: ArenaView, b: Seq<u8>) -> bool {
    ||| exists|i: int| i < OVERLAY_TEXT_TAG && #[trigger] arena.holds_at(i, b)
    ||| arena.buf.len() + b.len() <= u32::MAX && arena.spans.len() < OVERLAY_TEXT_TAG
}

/// What an id stands for in the overlay, or among the formula results.
pub open spec fn resolved(
    arena: ArenaView,
    id: StrId,
    formulas: Seq<Seq<char>>,
) -> Option<Seq<char>> {
    if id.0 >= FORMULA_TEXT_TAG {
        arena.resolved_with(id, formulas)
    } else if id.0 >= OVERLAY_TEXT_TAG {
        arena.resolved(StrId((id.0 - OVERLAY_TEXT_TAG) as u32))
    } else {
        None
    }
}

// ------------------------------------------------------------------- laws --

/// How often the counter goes up.
spec fn bumps(v: OverlayView, steps: Seq<Step>) -> nat
    decreases steps.len(),
{
    if steps.len() == 0 {
        0
    } else {
        let before = all_after(v, steps.drop_last());
        bumps(v, steps.drop_last()) + if before.after(steps.last()).revision == before.revision {
            0nat
        } else {
            1nat
        }
    }
}

proof fn lemma_bumps(v: OverlayView, steps: Seq<Step>)
    ensures
        bumps(v, steps) <= steps.len(),
        bumps(v, steps) == 0 ==> all_after(v, steps).cells == v.cells && all_after(v, steps).arena
            == v.arena && all_after(v, steps).revision == v.revision,
        all_after(v, steps).revision == (v.revision + bumps(v, steps)) % 0x1_0000_0000_0000_0000,
    decreases steps.len(),
{
    if steps.len() > 0 {
        let before = all_after(v, steps.drop_last());
        lemma_bumps(v, steps.drop_last());
        assert(before.after(steps.last()).revision == before.revision ==> before.after(
            steps.last(),
        ).cells =~= before.cells);
    }
}

/// Two reads of the counter that give the same value mean that what would be saved
/// is unchanged between them: the cells and the strings are the same. (A counter of
/// 64 bits comes round again after so many edits and no sooner.)
pub proof fn an_unmoved_revision_means_nothing_changed(v: OverlayView, steps: Seq<Step>)
    requires
        steps.len() <= u64::MAX,
    ensures
        all_after(v, steps).revision == v.revision ==> all_after(v, steps).cells == v.cells
            && all_after(v, steps).arena == v.arena,
{
    lemma_bumps(v, steps);
}

/// Putting back what was there before an edit undoes the edit: the cells are as
/// they were.
pub proof fn restoring_undoes_an_edit(v: OverlayView, cell: CellRef, after: Option<InputView>)
    ensures
        v.restored(cell, after).restored(cell, entry(v.cells, cell)).cells == v.cells,
{
    assert(v.restored(cell, after).restored(cell, entry(v.cells, cell)).cells =~= v.cells);
}

proof fn lemma_reverted_cells(v: OverlayView, w: OverlayView, changes: Seq<ChangeView>)
    requires
        v.cells == w.cells,
    ensures
        reverted(v, changes).cells == reverted(w, changes).cells,
    decreases changes.len(),
{
    if changes.len() > 0 {
        let c = changes.last();
        lemma_reverted_cells(
            v.restored(c.cell, c.before),
            w.restored(c.cell, c.before),
            changes.drop_last(),
        );
    }
}

/// Undoing a batch restores every cell exactly, however often one cell was
/// written: cells that had no entry have none again.
pub proof fn reverting_a_batch_restores_every_cell(
    v: OverlayView,
    edits: Seq<(CellRef, Option<InputView>)>,
)
    ensures
        reverted(batch(v, edits), recorded(v, edits)).cells == v.cells,
    decreases edits.len(),
{
    if edits.len() > 0 {
        let head = edits.drop_last();
        let w = batch(v, head);
        let (cell, after) = edits.last();
        let changes = recorded(v, edits);
        assert(changes.drop_last() =~= recorded(v, head));
        restoring_undoes_an_edit(w, cell, after);
        lemma_reverted_cells(
            w.restored(cell, after).restored(cell, entry(w.cells, cell)),
            w,
            recorded(v, head),
        );
        reverting_a_batch_restores_every_cell(v, head);
    }
}

/// A recalculation never touches what the user typed: sources and literals stay.
pub proof fn recalculation_keeps_what_was_typed(
    v: OverlayView,
    cell: CellRef,
    value: Value,
    other: CellRef,
)
    ensures
        v.recalculated(cell, value).cells.dom() =~= v.cells.dom(),
        v.cells.contains_key(other) ==> match v.cells[other] {
            InputView::Literal(x) => v.recalculated(cell, value).cells[other]
                == InputView::Literal(x),
            InputView::Formula { src, .. } => v.recalculated(cell, value).cells[other] is Formula
                && v.recalculated(cell, value).cells[other]->src == src,
        },
{
}

/// A base id, one below the tags, is never the overlay's, whatever its arena holds at
/// that index.
pub proof fn a_base_id_is_never_the_overlays(
    arena: ArenaView,
    id: StrId,
    formulas: Seq<Seq<char>>,
)
    requires
        id.0 < OVERLAY_TEXT_TAG,
    ensures
        resolved(arena, id, formulas) is None,
{
}

proof fn lemma_text_kept(v: OverlayView, steps: Seq<Step>, i: int)
    requires
        0 <= i < v.arena.spans.len(),
        v.arena.in_range(i),
    ensures
        i < all_after(v, steps).arena.spans.len(),
        all_after(v, steps).arena.in_range(i),
        all_after(v, steps).arena.bytes_at(i) == v.arena.bytes_at(i),
    decreases steps.len(),
{
    if steps.len() > 0 {
        lemma_text_kept(v, steps.drop_last(), i);
        if let Step::Intern(b) = steps.last() {
            lemma_kept_by_one(all_after(v, steps.drop_last()).arena, b, i);
        }
    }
}

/// Interned text resolves to itself, whatever is done to the overlay afterwards, and
/// its id carries the overlay's tag and not that of formula text.
pub proof fn interned_text_resolves_for_good(
    v: OverlayView,
    s: Seq<char>,
    id: StrId,
    after: OverlayView,
    steps: Seq<Step>,
    formulas: Seq<Seq<char>>,
)
    requires
        v.arena.sound(),
        v.arena.base <= v.arena.spans.len(),
        internable(v.arena, encode_utf8(s)),
        OVERLAY_TEXT_TAG <= id.0 < FORMULA_TEXT_TAG,
        after == v.interned(encode_utf8(s)),
        v.arena.interns(
            encode_utf8(s),
            after.arena,
            StrId((id.0 - OVERLAY_TEXT_TAG) as u32),
        ),
    ensures
        resolved(all_after(after, steps).arena, id, formulas) == Some(s),
{
    let b = encode_utf8(s);
    let raw = StrId((id.0 - OVERLAY_TEXT_TAG) as u32);
    if v.arena.knows(b) {
        assert(v.arena.in_range(raw.0 as int));
    } else {
        interning_twice_gives_one_id(v.arena, b, raw.0 as int);
    }
    lemma_text_kept(after, steps, raw.0 as int);
    an_interned_string_reads_back(after.arena, s, raw);
}

/// A cell shows what was typed, or what its formula came to; writing one leaves every
/// other as it was, and the sheet reaches at least that far.
pub proof fn writing_a_cell_leaves_the_others(
    o: OverlayView,
    cell: CellRef,
    other: CellRef,
    input: InputView,
)
    ensures
        entry(o.with(cell, input).cells, cell) == Some(input),
        other != cell ==> entry(o.with(cell, input).cells, other) == entry(o.cells, other),
        entry(o.cleared(cell).cells, cell) is None,
        other != cell ==> entry(o.cleared(cell).cells, other) == entry(o.cells, other),
        cell.row < usize::MAX ==> o.with(cell, input).rows > cell.row,
        cell.col < usize::MAX ==> o.with(cell, input).cols > cell.col,
        o.with(cell, input).rows >= o.rows && o.with(cell, input).cols >= o.cols,
        cell.row < o.rows ==> o.with(cell, input).rows == o.rows,
        cell.col < o.cols ==> o.with(cell, input).cols == o.cols,
        match input {
            InputView::Literal(v) => input.value() == v,
            InputView::Formula { cached, .. } => input.value() == cached,
        },
{
}

} // verus!

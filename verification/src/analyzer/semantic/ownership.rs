//! The ownership check: a `borrowable` marker opens a scope that collects
//! the elements after it, and a `borrow` must name an element that a scope
//! holds one level below the borrow.
//!
//! `CheckerView` is the state of the check and says what each step does to
//! it; `check` says which results a sequence of results turns into.  The
//! `BorrowChecker` and the `Analyzer` do exactly that.
use crate::analyzer::diagnostic::{self, Diagnostic, DiagnosticView};
use crate::analyzer::stage::{views, Peekable, Stage};
use crate::analyzer::syntactic::{
    reports, Borrow, Kind, KindView, Node, NodeView, ProcessingInstruction, Result, ResultView,
};
use crate::analyzer::text::join;
use std::collections::VecDeque;
use vstd::prelude::*;

verus! {

/// How the search for a name in one queue ends.
pub enum Verdict {
    /// The queue holds the name where the borrow can reach it.
    Found,
    /// The queue holds an element that is not deep enough: the search is over.
    Absent,
    /// This queue has nothing to offer: the search goes on one scope further out.
    Exhausted,
}

/// The name of an element.
pub open spec fn element_name(kind: KindView) -> Option<Seq<char>> {
    match kind {
        KindView::Element { name } => Some(name),
        _ => None,
    }
}

/// `queue` with `node` at its back.  All entries of a queue carry the depth
/// of its first one.
pub open spec fn enqueue(queue: Seq<NodeView>, node: NodeView) -> Seq<NodeView> {
    let depth = if queue.len() > 0 {
        queue[0].depth
    } else {
        node.depth
    };
    queue.push(NodeView { depth, kind: node.kind, span: node.span })
}

/// Searches `queue` from its front for an element called `name` that a
/// borrow at `depth` can reach, that is one at `depth + 1`.  A deeper entry
/// ends the search in this queue, a shallower one ends it altogether.
pub open spec fn scan(queue: Seq<NodeView>, name: Seq<char>, depth: nat) -> Verdict
    decreases queue.len(),
{
    if queue.len() == 0 {
        Verdict::Exhausted
    } else if queue[0].depth > depth + 1 {
        Verdict::Exhausted
    } else if queue[0].depth < depth + 1 {
        Verdict::Absent
    } else if element_name(queue[0].kind) == Some(name) {
        Verdict::Found
    } else {
        scan(queue.skip(1), name, depth)
    }
}

/// A borrow of `name` at `depth` finds its element: the scopes are searched
/// from the innermost, which is the last, outwards.
pub open spec fn available(scope: Seq<Seq<NodeView>>, name: Seq<char>, depth: nat) -> bool
    decreases scope.len(),
{
    if scope.len() == 0 {
        false
    } else {
        match scan(scope.last(), name, depth) {
            Verdict::Found => true,
            Verdict::Absent => false,
            Verdict::Exhausted => available(scope.drop_last(), name, depth),
        }
    }
}

/// Who borrowed what in one scope: a name and the borrow that met it last.
pub type Record = (Seq<char>, NodeView);

/// The place of the record of `name` in `records`, or the number of
/// records where none is of that name.
pub open spec fn place_of(records: Seq<Record>, name: Seq<char>) -> int
    decreases records.len(),
{
    if records.len() == 0 {
        0
    } else if records[0].0 == name {
        0
    } else {
        1 + place_of(records.skip(1), name)
    }
}

/// There is a record of `name`.
pub open spec fn holds(records: Seq<Record>, name: Seq<char>) -> bool {
    place_of(records, name) < records.len()
}

/// No two records are of one name.
pub open spec fn names_distinct(records: Seq<Record>) -> bool {
    forall|i: int, j: int|
        0 <= i < j < records.len() ==> (#[trigger] records[i]).0 != (#[trigger] records[j]).0
}

/// `records` after `node` has met `name`: the record of that name is now
/// the one of `node`, in the place of the earlier one where there was one
/// and at the end where there was none.
pub open spec fn record(records: Seq<Record>, name: Seq<char>, node: NodeView) -> Seq<Record> {
    if holds(records, name) {
        records.update(place_of(records, name), (name, node))
    } else {
        records.push((name, node))
    }
}

/// Takes the element called `name` for the borrow `node` out of `queue`,
/// whose scope has the records `records` so far.  Entries are taken from
/// the front and dropped until the element is met, which stays at the
/// front; every element one level below the borrow that is met on the way,
/// the one looked for included, is recorded as met by `node`.  `None`
/// where a deeper entry or the end of the queue is met first.
pub open spec fn take(
    queue: Seq<NodeView>,
    records: Seq<Record>,
    name: Seq<char>,
    node: NodeView,
) -> Option<(Seq<NodeView>, Seq<Record>)>
    decreases queue.len(),
{
    if queue.len() == 0 {
        None
    } else if queue[0].depth > node.depth + 1 {
        None
    } else if queue[0].depth == node.depth + 1 && element_name(queue[0].kind) is Some {
        let met = element_name(queue[0].kind)->0;
        if met == name {
            Some((queue, record(records, met, node)))
        } else {
            take(queue.skip(1), record(records, met, node), name, node)
        }
    } else {
        take(queue.skip(1), records, name, node)
    }
}

/// The diagnostic about the borrow `node` of `name`, with the message that
/// `ending` completes.
pub open spec fn refusal(name: Seq<char>, ending: Seq<char>, node: NodeView) -> DiagnosticView {
    DiagnosticView {
        kind: diagnostic::Kind::Error,
        message: "the borrowable '"@ + name + ending,
        span: node.span,
    }
}

/// The state of the check.
pub struct CheckerView {
    /// The open scopes, innermost last; each is a queue of elements.
    pub scope: Seq<Seq<NodeView>>,
    /// For each open scope, the names that borrows have met in it, each
    /// with the borrow that met it last.
    pub trace: Seq<Seq<Record>>,
    /// How many markers are open.
    pub transferring: nat,
}

impl CheckerView {
    /// Every scope has its trace, and no trace has two records of one name.
    pub open spec fn well_formed(self) -> bool {
        &&& self.scope.len() == self.trace.len()
        &&& self.transferring <= u16::MAX
        &&& forall|place: int|
            0 <= place < self.trace.len() ==> names_distinct(#[trigger] self.trace[place])
    }

    /// After the element `node`: while a marker is open, the innermost
    /// scope collects it.
    pub open spec fn allocate(self, node: NodeView) -> CheckerView {
        if self.transferring > 0 && self.scope.len() > 0 {
            CheckerView {
                scope: self.scope.update(self.scope.len() - 1, enqueue(self.scope.last(), node)),
                ..self
            }
        } else {
            self
        }
    }

    /// After `node` when `peek` comes next: where the depth falls, as many
    /// markers close as it falls by, as far as there are any.
    pub open spec fn dealloc(self, node: NodeView, peek: NodeView) -> CheckerView {
        if peek.depth < node.depth {
            let drop = node.depth - peek.depth;
            CheckerView {
                transferring: if self.transferring > drop {
                    (self.transferring - drop) as nat
                } else {
                    0
                },
                ..self
            }
        } else {
            self
        }
    }

    /// After a marker: one more is open, and the first one opens a scope.
    /// The count stays where it is once it has reached its limit.
    pub open spec fn borrowable(self) -> CheckerView {
        if self.transferring == 0 {
            CheckerView {
                scope: self.scope.push(Seq::empty()),
                trace: self.trace.push(Seq::empty()),
                transferring: 1,
            }
        } else if self.transferring < u16::MAX {
            CheckerView { transferring: self.transferring + 1, ..self }
        } else {
            self
        }
    }

    /// After the borrow `node` of `name` has been served: the scopes that
    /// could not serve it are gone, and the one that could has given up the
    /// entries before the element and recorded what `node` met.
    pub open spec fn resolve(self, name: Seq<char>, node: NodeView) -> CheckerView
        decreases self.scope.len(),
    {
        if self.scope.len() == 0 {
            self
        } else {
            match take(self.scope.last(), self.trace.last(), name, node) {
                Some((queue, records)) => CheckerView {
                    scope: self.scope.update(self.scope.len() - 1, queue),
                    trace: self.trace.update(self.trace.len() - 1, records),
                    ..self
                },
                None => CheckerView {
                    scope: self.scope.drop_last(),
                    trace: self.trace.drop_last(),
                    ..self
                }.resolve(name, node),
            }
        }
    }

    /// The scope whose place in the stack is the depth of `node` has a
    /// record of `name`: an earlier borrow met it there.
    pub open spec fn was_borrowed(self, name: Seq<char>, node: NodeView) -> bool {
        node.depth < self.trace.len() && holds(self.trace[node.depth as int], name)
    }

    /// The diagnostic that the borrow `node` of `name` draws, if any.
    pub open spec fn complaint(self, name: Seq<char>, node: NodeView) -> Option<DiagnosticView> {
        if available(self.scope, name, node.depth) {
            None
        } else if self.was_borrowed(name, node) {
            Some(refusal(name, "' has been already borrowed"@, node))
        } else {
            Some(refusal(name, "' was expected to be used, but it was not found"@, node))
        }
    }

    /// After the borrow `node` of `name`: it is served where its element is
    /// available, and changes nothing where it is not.
    pub open spec fn borrow(self, name: Seq<char>, node: NodeView) -> CheckerView {
        if available(self.scope, name, node.depth) {
            self.resolve(name, node)
        } else {
            self
        }
    }

    /// After the node `node`, whatever it is.
    pub open spec fn observe(self, node: NodeView) -> CheckerView {
        match node.kind {
            KindView::Element { .. } => self.allocate(node),
            KindView::Borrow { name } => self.borrow(name, node),
            KindView::Borrowable { .. } => self.borrowable(),
            _ => self,
        }
    }
}

/// The diagnostic that the node `node` draws in the state `state`, if any.
pub open spec fn objection(state: CheckerView, node: NodeView) -> Option<DiagnosticView> {
    match node.kind {
        KindView::Borrow { name } => state.complaint(name, node),
        _ => None,
    }
}

/// The results that `results` turns into when the check is in `state`.
/// Every result passes through; the diagnostic that a borrow draws comes
/// right after it.
pub open spec fn check(results: Seq<ResultView>, state: CheckerView) -> Seq<ResultView>
    decreases results.len(),
{
    if results.len() == 0 {
        Seq::empty()
    } else {
        let rest = results.skip(1);
        match results[0] {
            ResultView::Diagnostic(_) => seq![results[0]] + check(rest, state),
            ResultView::Value(node) => {
                let seen = state.observe(node);
                let next = match rest.first() {
                    ResultView::Value(peek) if rest.len() > 0 => seen.dealloc(node, peek),
                    _ => seen,
                };
                let drawn = match objection(state, node) {
                    Some(diagnostic) => seq![ResultView::Diagnostic(diagnostic)],
                    None => Seq::empty(),
                };
                seq![results[0]] + drawn + check(rest, next)
            },
        }
    }
}

/// Where `place_of` points: at the first record of the name, or past the
/// records where none is of that name.
pub proof fn lemma_place_of(records: Seq<Record>, name: Seq<char>)
    ensures
        0 <= place_of(records, name) <= records.len(),
        holds(records, name) ==> records[place_of(records, name)].0 == name,
        forall|i: int| 0 <= i < place_of(records, name) ==> (#[trigger] records[i]).0 != name,
    decreases records.len(),
{
    if records.len() > 0 && records[0].0 != name {
        let rest = records.skip(1);
        lemma_place_of(rest, name);
        assert forall|i: int| 0 <= i < place_of(records, name) implies (#[trigger] records[i]).0
            != name by {
            if i > 0 {
                assert(records[i] == rest[i - 1]);
            }
        }
    }
}

/// Recording keeps the names apart, and leaves the name with the node
/// that met it.
pub proof fn lemma_record(records: Seq<Record>, name: Seq<char>, node: NodeView)
    requires
        names_distinct(records),
    ensures
        names_distinct(record(records, name, node)),
        holds(record(records, name, node), name),
        record(records, name, node)[place_of(record(records, name, node), name)] == (name, node),
        record(records, name, node).len() >= records.len(),
{
    let after = record(records, name, node);
    let place = place_of(records, name);
    lemma_place_of(records, name);
    lemma_place_of(after, name);
    assert(after[place] == (name, node));
    assert forall|i: int, j: int| 0 <= i < j < after.len() implies (#[trigger] after[i]).0 != (
    #[trigger] after[j]).0 by {
        if holds(records, name) {
            assert(after[i].0 == records[i].0);
            assert(after[j].0 == records[j].0);
        } else if j == records.len() {
            assert(after[i] == records[i]);
        } else {
            assert(after[i] == records[i]);
            assert(after[j] == records[j]);
        }
    }
    if place_of(after, name) < place {
        assert(after[place_of(after, name)].0 == records[place_of(after, name)].0);
    }
}

/// Where the search finds the name in a queue, taking it succeeds and
/// records the name with the borrow that took it; where the search passes
/// the queue by, taking gives the queue up.
pub proof fn lemma_scan_agrees_with_take(
    queue: Seq<NodeView>,
    records: Seq<Record>,
    name: Seq<char>,
    node: NodeView,
)
    requires
        names_distinct(records),
    ensures
        take(queue, records, name, node) matches Some((rest, recorded)) ==> {
            &&& names_distinct(recorded)
            &&& recorded.len() >= records.len()
        },
        scan(queue, name, node.depth) is Found ==> {
            &&& take(queue, records, name, node) matches Some((rest, recorded))
            &&& rest.len() > 0
            &&& element_name(rest[0].kind) == Some(name)
            &&& rest[0].depth == node.depth + 1
            &&& holds(recorded, name)
            &&& recorded[place_of(recorded, name)] == (name, node)
        },
        scan(queue, name, node.depth) is Exhausted ==> take(queue, records, name, node) is None,
    decreases queue.len(),
{
    if queue.len() > 0 && queue[0].depth <= node.depth + 1 {
        if queue[0].depth == node.depth + 1 && element_name(queue[0].kind) is Some {
            let met = element_name(queue[0].kind)->0;
            lemma_record(records, met, node);
            if met != name {
                lemma_scan_agrees_with_take(queue.skip(1), record(records, met, node), name, node);
            }
        } else {
            lemma_scan_agrees_with_take(queue.skip(1), records, name, node);
        }
    }
}

/// Serving a borrow keeps the state well formed.
pub proof fn lemma_resolve_well_formed(state: CheckerView, name: Seq<char>, node: NodeView)
    requires
        state.well_formed(),
    ensures
        state.resolve(name, node).well_formed(),
        state.resolve(name, node).scope.len() <= state.scope.len(),
        state.resolve(name, node).transferring == state.transferring,
    decreases state.scope.len(),
{
    if state.scope.len() > 0 {
        lemma_scan_agrees_with_take(state.scope.last(), state.trace.last(), name, node);
        if take(state.scope.last(), state.trace.last(), name, node) is None {
            let outer = CheckerView {
                scope: state.scope.drop_last(),
                trace: state.trace.drop_last(),
                ..state
            };
            assert forall|place: int| 0 <= place < outer.trace.len() implies names_distinct(
                #[trigger] outer.trace[place],
            ) by {
                assert(outer.trace[place] == state.trace[place]);
            }
            lemma_resolve_well_formed(outer, name, node);
        } else {
            let after = state.resolve(name, node);
            assert forall|place: int| 0 <= place < after.trace.len() implies names_distinct(
                #[trigger] after.trace[place],
            ) by {
                if place < after.trace.len() - 1 {
                    assert(after.trace[place] == state.trace[place]);
                }
            }
        }
    }
}

/// A borrow that is served leaves its mark: the scope that served it is
/// now the innermost, it still holds the element at its front, so that
/// the name can be borrowed again, and its trace maps the name to the
/// borrow that was served.
pub proof fn lemma_resolve_records(state: CheckerView, name: Seq<char>, node: NodeView)
    requires
        state.well_formed(),
        available(state.scope, name, node.depth),
    ensures
        ({
            let after = state.resolve(name, node);
            &&& after.well_formed()
            &&& 0 < after.scope.len() <= state.scope.len()
            &&& after.transferring == state.transferring
            &&& after.scope.last().len() > 0
            &&& element_name(after.scope.last()[0].kind) == Some(name)
            &&& after.scope.last()[0].depth == node.depth + 1
            &&& holds(after.trace.last(), name)
            &&& after.trace.last()[place_of(after.trace.last(), name)] == (name, node)
            &&& available(after.scope, name, node.depth)
        }),
    decreases state.scope.len(),
{
    lemma_resolve_well_formed(state, name, node);
    lemma_scan_agrees_with_take(state.scope.last(), state.trace.last(), name, node);
    if scan(state.scope.last(), name, node.depth) is Exhausted {
        let outer = CheckerView {
            scope: state.scope.drop_last(),
            trace: state.trace.drop_last(),
            ..state
        };
        assert forall|place: int| 0 <= place < outer.trace.len() implies names_distinct(
            #[trigger] outer.trace[place],
        ) by {
            assert(outer.trace[place] == state.trace[place]);
        }
        lemma_resolve_records(outer, name, node);
    } else {
        let after = state.resolve(name, node);
        let taken = take(state.scope.last(), state.trace.last(), name, node)->0;
        assert(after.scope.last() == taken.0);
        assert(after.trace.last() == taken.1);
        assert(scan(taken.0, name, node.depth) is Found);
    }
}

/// A borrow that cannot be served draws exactly one diagnostic and changes
/// nothing.  The diagnostic says that the name has been borrowed already
/// where the trace at the depth of the borrow holds the name, and that it
/// was not found where it does not.
pub proof fn lemma_refused_borrow(state: CheckerView, name: Seq<char>, node: NodeView)
    requires
        node.kind == (KindView::Borrow { name }),
        !available(state.scope, name, node.depth),
    ensures
        state.observe(node) == state,
        state.was_borrowed(name, node) ==> objection(state, node) == Some(
            refusal(name, "' has been already borrowed"@, node),
        ),
        !state.was_borrowed(name, node) ==> objection(state, node) == Some(
            refusal(name, "' was expected to be used, but it was not found"@, node),
        ),
        check(seq![ResultView::Value(node)], state) == seq![
            ResultView::Value(node),
            ResultView::Diagnostic(objection(state, node)->0),
        ],
{
    let results = seq![ResultView::Value(node)];
    assert(results.skip(1) =~= Seq::<ResultView>::empty());
    assert(check(results.skip(1), state) =~= Seq::<ResultView>::empty());
    assert(results + seq![ResultView::Diagnostic(objection(state, node)->0)]
        + Seq::<ResultView>::empty() =~= seq![
        ResultView::Value(node),
        ResultView::Diagnostic(objection(state, node)->0),
    ]);
}

/// A borrow with no marker before it is not found: while no scope is
/// open, every borrow draws exactly the diagnostic that says so.
pub proof fn lemma_borrow_without_borrowable(name: Seq<char>, node: NodeView, transferring: nat)
    requires
        node.kind == (KindView::Borrow { name }),
    ensures
        ({
            let state = CheckerView { scope: Seq::empty(), trace: Seq::empty(), transferring };
            check(seq![ResultView::Value(node)], state) == seq![
                ResultView::Value(node),
                ResultView::Diagnostic(
                    refusal(name, "' was expected to be used, but it was not found"@, node),
                ),
            ]
        }),
{
    let state = CheckerView { scope: Seq::empty(), trace: Seq::empty(), transferring };
    lemma_refused_borrow(state, name, node);
}

/// A second borrow after the scope has given the element up is refused as
/// already borrowed.  When the borrow `node` of `name` has been served by
/// the scope whose place in the stack is the depth of `node`, the trace of
/// that scope has a record of the name; if the name can then no longer be
/// had, which `later` stands for, the next borrow draws that diagnostic.
pub proof fn lemma_borrow_already_borrowed(
    state: CheckerView,
    later: CheckerView,
    name: Seq<char>,
    node: NodeView,
)
    requires
        state.well_formed(),
        node.kind == (KindView::Borrow { name }),
        available(state.scope, name, node.depth),
        state.resolve(name, node).trace.len() == node.depth + 1,
        later.trace == state.resolve(name, node).trace,
        !available(later.scope, name, node.depth),
    ensures
        objection(state, node) is None,
        objection(later, node) == Some(refusal(name, "' has been already borrowed"@, node)),
{
    lemma_resolve_records(state, name, node);
    assert(later.trace[node.depth as int] == later.trace.last());
    lemma_refused_borrow(later, name, node);
}

/// The queues of a stack of scopes, as the model has them.
pub open spec fn queues(scope: Seq<VecDeque<Node>>) -> Seq<Seq<NodeView>> {
    scope.map_values(|queue: VecDeque<Node>| views(queue@))
}

/// The traces of a stack of scopes, as the model has them.
pub open spec fn traces(trace: Seq<Vec<(String, Node)>>) -> Seq<Seq<Record>> {
    trace.map_values(|records: Vec<(String, Node)>| views(records@))
}

/// Records that `node` has met `name`.
fn note(records: &mut Vec<(String, Node)>, name: String, node: Node)
    requires
        names_distinct(views(old(records)@)),
    ensures
        views(final(records)@) == record(views(old(records)@), name@, node@),
        names_distinct(views(final(records)@)),
{
    let ghost before = views(records@);
    let mut index: usize = 0;
    while index < records.len()
        invariant
            index <= records.len(),
            views(records@) == before,
            before == views(old(records)@),
            names_distinct(before),
            forall|i: int| 0 <= i < index ==> (#[trigger] before[i]).0 != name@,
        decreases records.len() - index,
    {
        if records[index].0 == name {
            proof {
                assert(before[index as int].0 == name@);
                lemma_place_of(before, name@);
                lemma_record(before, name@, node@);
                assert(place_of(before, name@) == index);
            }
            records.set(index, (name, node));
            assert(views(records@) =~= before.update(index as int, (name@, node@)));
            return ;
        }
        index += 1;
    }
    proof {
        lemma_place_of(before, name@);
        lemma_record(before, name@, node@);
    }
    records.push((name, node));
    assert(views(records@) =~= before.push((name@, node@)));
}

/// Tracks which elements can be borrowed.
pub struct BorrowChecker {
    scope: Vec<VecDeque<Node>>,
    trace: Vec<Vec<(String, Node)>>,
    transferring: u16,
}

impl View for BorrowChecker {
    type V = CheckerView;

    closed spec fn view(&self) -> CheckerView {
        CheckerView {
            scope: queues(self.scope@),
            trace: traces(self.trace@),
            transferring: self.transferring as nat,
        }
    }
}

impl BorrowChecker {
    pub fn allocate(&mut self, node: &Node)
        requires
            old(self)@.well_formed(),
        ensures
            final(self)@.well_formed(),
            final(self)@ == old(self)@.allocate(node@),
    {
        if self.transferring > 0 {
            let ghost before = self.scope@;
            if let Some(mut deque) = self.scope.pop() {
                let ghost queue = views(deque@);
                let kind = node.kind.clone();
                let span = node.span.clone();
                let depth = if deque.len() > 0 {
                    deque[0].depth
                } else {
                    node.depth
                };
                deque.push_back(Node { depth, kind, span });
                assert(views(deque@) =~= enqueue(queue, node@));
                self.scope.push(deque);
                assert(queues(self.scope@) =~= queues(before).update(
                    before.len() - 1,
                    enqueue(queues(before).last(), node@),
                ));
            } else {
                assert(queues(self.scope@) =~= queues(before));
            }
        }
    }

    pub fn dealloc(&mut self, node: &Node, peek: &Node)
        requires
            old(self)@.well_formed(),
        ensures
            final(self)@.well_formed(),
            final(self)@ == old(self)@.dealloc(node@, peek@),
    {
        if peek.depth < node.depth {
            let drop = node.depth - peek.depth;
            self.transferring = if self.transferring > drop {
                self.transferring - drop
            } else {
                0
            };
        }
    }

    #[verifier::loop_isolation(false)]
    pub fn contains(&self, borrow: &Borrow, node: &Node) -> (found: bool)
        ensures
            found == available(self@.scope, borrow.name@, node.depth as nat),
    {
        let ghost scope = queues(self.scope@);
        let ghost name = borrow.name@;
        let ghost depth = node.depth as nat;
        let mut level = self.scope.len();
        assert(scope.take(level as int) =~= scope);
        while level > 0
            invariant
                level <= self.scope.len(),
                scope == queues(self.scope@),
                name == borrow.name@,
                depth == node.depth as nat,
                available(scope, name, depth) == available(scope.take(level as int), name, depth),
            decreases level,
        {
            let deque = &self.scope[level - 1];
            let ghost queue = views(deque@);
            assert(scope.take(level as int).last() == queue);
            assert(scope.take(level as int).drop_last() =~= scope.take(level - 1));
            assert(queue.skip(0) =~= queue);
            let mut index: usize = 0;
            let mut open = true;
            while open && index < deque.len()
                invariant
                    index <= deque.len(),
                    scan(queue, name, depth) == scan(queue.skip(index as int), name, depth),
                    !open ==> scan(queue, name, depth) is Exhausted,
                decreases
                        if open {
                            deque.len() - index
                        } else {
                            0
                        },
            {
                let entry = &deque[index];
                assert(queue.skip(index as int)[0] == entry@);
                assert(queue.skip(index as int).skip(1) =~= queue.skip(index + 1));
                if entry.depth as u32 > node.depth as u32 + 1 {
                    open = false;
                } else if entry.depth as u32 == node.depth as u32 + 1 {
                    if let Kind::Element(element) = &entry.kind {
                        if element.name == borrow.name {
                            return true;
                        }
                    }
                    index += 1;
                } else {
                    return false;
                }
            }
            level -= 1;
        }
        false
    }

    pub fn borrowable(&mut self)
        requires
            old(self)@.well_formed(),
        ensures
            final(self)@.well_formed(),
            final(self)@ == old(self)@.borrowable(),
    {
        if self.transferring < u16::MAX {
            self.transferring += 1;
        }
        if self.transferring == 1 {
            let ghost scope = self.scope@;
            let ghost trace = self.trace@;
            let deque: VecDeque<Node> = VecDeque::new();
            let names: Vec<(String, Node)> = Vec::new();
            assert(views(deque@) =~= Seq::<NodeView>::empty());
            assert(views(names@) =~= Seq::<Record>::empty());
            self.scope.push(deque);
            self.trace.push(names);
            assert(queues(self.scope@) =~= queues(scope).push(Seq::empty()));
            assert(traces(self.trace@) =~= traces(trace).push(Seq::empty()));
        }
    }

    #[verifier::loop_isolation(false)]
    fn borrowing(&mut self, borrow: &Borrow, node: &Node)
        requires
            old(self)@.well_formed(),
        ensures
            final(self)@.well_formed(),
            final(self)@ == old(self)@.resolve(borrow.name@, node@),
    {
        let ghost name = borrow.name@;
        let ghost target = old(self)@.resolve(name, node@);
        proof {
            lemma_resolve_well_formed(old(self)@, name, node@);
        }
        loop
            invariant
                self@.well_formed(),
                name == borrow.name@,
                target.well_formed(),
                self@.resolve(name, node@) == target,
            decreases self.scope.len(),
        {
            let ghost state = self@;
            let ghost scope = self.scope@;
            let ghost trace = self.trace@;
            let mut deque = match self.scope.pop() {
                Some(deque) => deque,
                None => {
                    assert(queues(self.scope@) =~= queues(scope));
                    return ;
                },
            };
            let mut names = self.trace.pop().unwrap();
            let ghost queue = views(deque@);
            let ghost recorded = views(names@);
            proof {
                assert(queues(scope).last() == queue);
                assert(traces(trace).last() == recorded);
                assert(state.trace[state.trace.len() - 1] == recorded);
                assert(queues(self.scope@) =~= queues(scope).drop_last());
                assert(traces(self.trace@) =~= traces(trace).drop_last());
            }
            let mut open = true;
            while open
                invariant
                    names_distinct(views(names@)),
                    open ==> take(views(deque@), views(names@), name, node@) == take(
                        queue,
                        recorded,
                        name,
                        node@,
                    ),
                    !open ==> take(queue, recorded, name, node@) is None,
                    self.scope@ == scope.drop_last(),
                    self.trace@ == trace.drop_last(),
                    self.transferring == state.transferring,
                decreases
                        if open {
                            deque.len() + 1
                        } else {
                            0
                        },
            {
                let ghost rest = views(deque@);
                let ghost met = views(names@);
                match deque.pop_front() {
                    None => {
                        open = false;
                    },
                    Some(borrowable) => {
                        assert(rest[0] == borrowable@);
                        assert(views(deque@) =~= rest.skip(1));
                        if borrowable.depth as u32 > node.depth as u32 + 1 {
                            open = false;
                        } else if borrowable.depth as u32 == node.depth as u32 + 1 {
                            if let Kind::Element(element) = &borrowable.kind {
                                note(&mut names, element.name.clone(), node.clone());
                                if element.name == borrow.name {
                                    deque.push_front(borrowable);
                                    assert(views(deque@) =~= rest);
                                    self.scope.push(deque);
                                    self.trace.push(names);
                                    proof {
                                        let after = record(met, name, node@);
                                        assert(queues(self.scope@) =~= queues(scope).update(
                                            scope.len() - 1,
                                            rest,
                                        ));
                                        assert(traces(self.trace@) =~= traces(trace).update(
                                            trace.len() - 1,
                                            after,
                                        ));
                                        assert(element_name(rest[0].kind) == Some(name));
                                        assert(take(rest, met, name, node@) == Some((rest, after)));
                                        assert(state.scope.last() == queue);
                                        assert(state.trace.last() == recorded);
                                        assert(self@.scope == state.scope.update(
                                            state.scope.len() - 1,
                                            rest,
                                        ));
                                        assert(self@.trace == state.trace.update(
                                            state.trace.len() - 1,
                                            after,
                                        ));
                                        assert(self@ == state.resolve(name, node@));
                                    }
                                    return ;
                                }
                            }
                        }
                    },
                }
            }
            proof {
                assert(state.scope.last() == queue);
                assert(state.trace.last() == recorded);
                assert(queues(self.scope@) =~= state.scope.drop_last());
                assert(traces(self.trace@) =~= state.trace.drop_last());
                assert(self@ == (CheckerView {
                    scope: state.scope.drop_last(),
                    trace: state.trace.drop_last(),
                    ..state
                }));
                assert(state.resolve(name, node@) == self@.resolve(name, node@));
                assert forall|place: int| 0 <= place < self@.trace.len() implies names_distinct(
                    #[trigger] self@.trace[place],
                ) by {
                    assert(self@.trace[place] == state.trace[place]);
                }
            }
        }
    }

    #[verifier::loop_isolation(false)]
    pub fn borrow(&mut self, borrow: &Borrow, node: &Node) -> (refused: Option<Diagnostic>)
        requires
            old(self)@.well_formed(),
        ensures
            final(self)@.well_formed(),
            final(self)@ == old(self)@.borrow(borrow.name@, node@),
            match refused {
                Some(diagnostic) => Some(diagnostic@) == old(self)@.complaint(borrow.name@, node@),
                None => old(self)@.complaint(borrow.name@, node@) is None,
            },
    {
        if self.contains(borrow, node) {
            self.borrowing(borrow, node);
            return None;
        }
        let place = node.depth as usize;
        if place < self.trace.len() {
            let records = &self.trace[place];
            let ghost met = views(records@);
            proof {
                assert(traces(self.trace@)[place as int] == met);
                lemma_place_of(met, borrow.name@);
            }
            let mut index: usize = 0;
            while index < records.len()
                invariant
                    index <= records.len(),
                    forall|i: int| 0 <= i < index ==> (#[trigger] met[i]).0 != borrow.name@,
                decreases records.len() - index,
            {
                if records[index].0 == borrow.name {
                    assert(met[index as int].0 == borrow.name@);
                    let message = join(
                        join("the borrowable '", borrow.name.as_str()).as_str(),
                        "' has been already borrowed",
                    );
                    let kind = diagnostic::Kind::Error;
                    let diagnostic = Diagnostic::new(kind, message.as_str(), node.span.clone());
                    return Some(diagnostic);
                }
                index += 1;
            }
        }
        let message = join(
            join("the borrowable '", borrow.name.as_str()).as_str(),
            "' was expected to be used, but it was not found",
        );
        let kind = diagnostic::Kind::Error;
        let diagnostic = Diagnostic::new(kind, message.as_str(), node.span.clone());
        Some(diagnostic)
    }

    pub fn new() -> (checker: Self)
        ensures
            checker@.well_formed(),
            checker@ == (CheckerView {
                scope: Seq::empty(),
                trace: Seq::empty(),
                transferring: 0,
            }),
    {
        let checker = Self { scope: Vec::new(), trace: Vec::new(), transferring: 0 };
        assert(queues(checker.scope@) =~= Seq::<Seq<NodeView>>::empty());
        assert(traces(checker.trace@) =~= Seq::<Seq<Record>>::empty());
        checker
    }
}

pub struct Analyzer<T: Stage<Item = Result>> {
    checker: BorrowChecker,
    reader: Peekable<T>,
    trace: VecDeque<Diagnostic>,
}

impl<T: Stage<Item = Result>> Analyzer<T> {
    pub fn new(reader: T) -> (analyzer: Self)
        requires
            reader.well_formed(),
        ensures
            analyzer.well_formed(),
            analyzer.pending() == check(
                reader.pending(),
                CheckerView { scope: Seq::empty(), trace: Seq::empty(), transferring: 0 },
            ),
    {
        let analyzer = Self {
            checker: BorrowChecker::new(),
            reader: Peekable::new(reader),
            trace: VecDeque::new(),
        };
        assert(analyzer.pending() =~= check(analyzer.reader.pending(), analyzer.checker@));
        analyzer
    }
}

impl<T: Stage<Item = Result>> Stage for Analyzer<T> {
    type Item = Result;

    closed spec fn well_formed(&self) -> bool {
        self.reader.well_formed() && self.checker@.well_formed()
    }

    closed spec fn pending(&self) -> Seq<ResultView> {
        reports(self.trace@) + check(self.reader.pending(), self.checker@)
    }

    fn next(&mut self) -> (item: Option<Result>) {
        if let Some(diagnostic) = self.trace.pop_front() {
            assert(self.pending() =~= old(self).pending().skip(1));
            return Some(Result::from(diagnostic));
        }
        let ghost results = self.reader.pending();
        let ghost state = self.checker@;
        assert(old(self).pending() =~= check(results, state));
        let result = self.reader.next();
        if let Some(Result::Value(node)) = &result {
            match &node.kind {
                Kind::Element(_) => {
                    self.checker.allocate(node);
                },
                Kind::ProcessingInstruction(kind) => match kind {
                    ProcessingInstruction::Borrow(borrow) => {
                        if let Some(diagnostic) = self.checker.borrow(borrow, node) {
                            self.trace.push_back(diagnostic);
                        }
                    },
                    ProcessingInstruction::Borrowable(_) => {
                        self.checker.borrowable();
                    },
                },
                _ => {},
            }
            assert(self.checker@ == state.observe(node@));
            if let Some(Result::Value(peek)) = self.reader.peek() {
                self.checker.dealloc(node, peek);
            }
        }
        proof {
            if results.len() > 0 {
                assert(self.pending() =~= check(results, state).skip(1));
            } else {
                assert(self.pending() =~= check(results, state));
            }
        }
        result
    }
}

} // verus!

//! Stable locations and the diagnostic locations that they resolve to.
use vstd::prelude::*;

use crate::syntax::{
    DiagnosticLocation, FileId, SyntaxDb, SyntaxNode, SyntaxStablePtrId, TextSpan, TextWidth,
};

verus! {

/// A stable location of a real, concrete syntax.
#[derive(Clone, Copy, PartialEq, Eq, Hash, Structural, Debug)]
pub struct StableLocation(pub SyntaxStablePtrId);

impl StableLocation {
    /// Whether the location resolves to a node of `db`.
    pub open spec fn resolves(self, db: &SyntaxDb) -> bool {
        db.wf() && db.has_ptr(self.0)
    }

    /// The text of the node at this location.
    pub open spec fn span(self, db: &SyntaxDb) -> TextSpan {
        db.data(db.node_at(self.0)).span_without_trivia
    }

    /// The location that `stable_ptr` points at.
    pub fn new(stable_ptr: SyntaxStablePtrId) -> (r: Self)
        ensures
            r == StableLocation(stable_ptr),
    {
        Self(stable_ptr)
    }

    /// The file that holds the syntax at this location.
    pub fn file_id(&self, db: &SyntaxDb) -> (r: FileId)
        requires
            self.resolves(db),
        ensures
            r == db.data(db.node_at(self.0)).file_id,
    {
        self.0.file_id(db)
    }

    /// The location of `node`.
    pub fn from_ast(db: &SyntaxDb, node: SyntaxNode) -> (r: Self)
        requires
            db.has_node(node),
        ensures
            r == StableLocation(db.data(node).stable_ptr),
    {
        Self(node.stable_ptr(db))
    }

    /// Returns the [SyntaxNode] that corresponds to the [StableLocation].
    pub fn syntax_node(&self, db: &SyntaxDb) -> (r: SyntaxNode)
        requires
            self.resolves(db),
        ensures
            r == db.node_at(self.0),
            db.has_node(r),
    {
        self.0.lookup(db)
    }

    /// Returns the [SyntaxStablePtrId] of the [StableLocation].
    pub fn stable_ptr(&self) -> (r: SyntaxStablePtrId)
        ensures
            r == self.0,
    {
        self.0
    }

    /// Returns the [DiagnosticLocation] that corresponds to the [StableLocation].
    pub fn diagnostic_location(&self, db: &SyntaxDb) -> (r: DiagnosticLocation)
        requires
            self.resolves(db),
        ensures
            r.file_id == db.data(db.node_at(self.0)).file_id,
            r.span == self.span(db),
    {
        let syntax_node = self.syntax_node(db);
        DiagnosticLocation { file_id: self.file_id(db), span: syntax_node.span_without_trivia(db) }
    }

    /// Returns the [DiagnosticLocation] that starts with the [StableLocation] and ends with the
    /// syntax that `until_stable_ptr` points at.
    pub fn diagnostic_location_until(
        &self,
        db: &SyntaxDb,
        until_stable_ptr: SyntaxStablePtrId,
    ) -> (r: DiagnosticLocation)
        requires
            self.resolves(db),
            StableLocation(until_stable_ptr).resolves(db),
        ensures
            r.file_id == db.data(db.node_at(self.0)).file_id,
            r.span.start == self.span(db).start,
            r.span.end == StableLocation(until_stable_ptr).span(db).end,
    {
        let start = self.0.lookup(db).span_start_without_trivia(db);
        let end = until_stable_ptr.lookup(db).span_end_without_trivia(db);
        DiagnosticLocation { file_id: self.0.file_id(db), span: TextSpan { start, end } }
    }

    /// Returns the [DiagnosticLocation] corresponding to a subrange of the [StableLocation],
    /// defined by character offsets relative to the start of the syntax node. An offset past the end
    /// of the node stands for that end.
    pub fn diagnostic_location_with_offsets(
        &self,
        db: &SyntaxDb,
        start_offset: u32,
        end_offset: u32,
    ) -> (r: DiagnosticLocation)
        requires
            self.resolves(db),
            self.span(db).start.0 + start_offset <= u32::MAX,
            self.span(db).start.0 + end_offset <= u32::MAX,
        ensures
            r.file_id == db.data(db.node_at(self.0)).file_id,
            r.span == self.span_with_offsets(db, start_offset as nat, end_offset as nat),
    {
        let syntax_node = self.0.lookup(db);
        let node_span = syntax_node.span_without_trivia(db);

        let span = TextSpan {
            start: node_span.start.add_width(TextWidth(start_offset)).min(node_span.end),
            end: node_span.start.add_width(TextWidth(end_offset)).min(node_span.end),
        };

        DiagnosticLocation { file_id: self.0.file_id(db), span }
    }

    /// The part of the node's text between two offsets from its start, cut off at its end.
    pub open spec fn span_with_offsets(self, db: &SyntaxDb, start: nat, end: nat) -> TextSpan {
        let span = self.span(db);
        TextSpan {
            start: crate::syntax::TextOffset((span.start.0 + start) as u32).earlier(span.end),
            end: crate::syntax::TextOffset((span.start.0 + end) as u32).earlier(span.end),
        }
    }
}

/// A node is found again at its own location.
pub proof fn law_location_of_node_resolves_to_it(db: &SyntaxDb, node: SyntaxNode)
    requires
        db.wf(),
        db.has_node(node),
    ensures
        StableLocation(db.data(node).stable_ptr).resolves(db),
        db.node_at(db.data(node).stable_ptr) == node,
{
    assert(db.nodes@[node.0 as int].stable_ptr.0 < db.pointed@.len());
}

/// The location of the node that a location resolves to is that location.
pub proof fn law_location_is_that_of_its_node(db: &SyntaxDb, location: StableLocation)
    requires
        location.resolves(db),
    ensures
        db.has_node(db.node_at(location.0)),
        StableLocation(db.data(db.node_at(location.0)).stable_ptr) == location,
{
    assert(db.pointed@[location.0.0 as int].0 < db.nodes@.len());
}

/// A subrange of a node stays within the node, and its ends keep the order of the offsets.
pub proof fn law_offsets_stay_within_the_node(
    db: &SyntaxDb,
    location: StableLocation,
    start_offset: u32,
    end_offset: u32,
)
    requires
        location.resolves(db),
        location.span(db).start.0 <= location.span(db).end.0,
        location.span(db).start.0 + start_offset <= u32::MAX,
        location.span(db).start.0 + end_offset <= u32::MAX,
    ensures
        ({
            let span = location.span(db);
            let part = location.span_with_offsets(db, start_offset as nat, end_offset as nat);
            &&& span.start.0 <= part.start.0 <= span.end.0
            &&& span.start.0 <= part.end.0 <= span.end.0
            &&& start_offset <= end_offset ==> part.start.0 <= part.end.0
        }),
{
}

/// The subrange from the start of a node over its whole length, or further, is the whole node.
pub proof fn law_full_width_is_the_whole_node(db: &SyntaxDb, location: StableLocation, width: u32)
    requires
        location.resolves(db),
        location.span(db).start.0 <= location.span(db).end.0,
        location.span(db).end.0 - location.span(db).start.0 <= width,
        location.span(db).start.0 + width <= u32::MAX,
    ensures
        location.span_with_offsets(db, 0, width as nat) == location.span(db),
{
}

/// Offsets count from the start of the node: inside the node an end of a subrange is as far from the start
/// as its offset says, and past the end it is the end.
pub proof fn law_offsets_count_from_the_start(
    db: &SyntaxDb,
    location: StableLocation,
    start_offset: u32,
    end_offset: u32,
)
    requires
        location.resolves(db),
        location.span(db).start.0 <= location.span(db).end.0,
        location.span(db).start.0 + start_offset <= u32::MAX,
        location.span(db).start.0 + end_offset <= u32::MAX,
    ensures
        ({
            let span = db.nodes@[db.pointed@[location.0.0 as int].0 as int].span_without_trivia;
            let width = span.end.0 - span.start.0;
            let part = location.span_with_offsets(db, start_offset as nat, end_offset as nat);
            &&& location.span(db) == span
            &&& start_offset <= width ==> part.start.0 - span.start.0 == start_offset
            &&& start_offset > width ==> part.start == span.end
            &&& end_offset <= width ==> part.end.0 - span.start.0 == end_offset
            &&& end_offset > width ==> part.end == span.end
        }),
{
}

} // verus!

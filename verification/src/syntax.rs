//! The syntax tree as the lowering sees it: stable pointers, nodes and the text they span.
use vstd::prelude::*;

verus! {

/// A source file.
#[derive(Clone, Copy, PartialEq, Eq, Hash, Structural, Debug)]
pub struct FileId(pub usize);

/// The length of a piece of text.
#[derive(Clone, Copy, PartialEq, Eq, Hash, Structural, Debug)]
pub struct TextWidth(pub u32);

/// A position in the text of a file.
#[derive(Clone, Copy, PartialEq, Eq, Hash, Structural, Debug)]
pub struct TextOffset(pub u32);

impl TextOffset {
    /// The position `width` after this one.
    pub fn add_width(self, width: TextWidth) -> (r: TextOffset)
        requires
            self.0 + width.0 <= u32::MAX,
        ensures
            r.0 == self.0 + width.0,
    {
        TextOffset(self.0 + width.0)
    }

    /// The earlier of two positions.
    pub open spec fn earlier(self, other: TextOffset) -> TextOffset {
        if self.0 <= other.0 {
            self
        } else {
            other
        }
    }

    /// The earlier of two positions.
    pub fn min(self, other: TextOffset) -> (r: TextOffset)
        ensures
            r == self.earlier(other),
    {
        if self.0 <= other.0 {
            self
        } else {
            other
        }
    }
}

/// A range of positions in the text of a file.
#[derive(Clone, Copy, PartialEq, Eq, Hash, Structural, Debug)]
pub struct TextSpan {
    pub start: TextOffset,
    pub end: TextOffset,
}

/// A range of text in a file, as diagnostics point at it.
#[derive(Clone, Copy, PartialEq, Eq, Hash, Structural, Debug)]
pub struct DiagnosticLocation {
    pub file_id: FileId,
    pub span: TextSpan,
}

/// A pointer to a node of a syntax tree that survives edits elsewhere in the file.
#[derive(Clone, Copy, PartialEq, Eq, Hash, Structural, Debug)]
pub struct SyntaxStablePtrId(pub usize);

/// A node of a syntax tree.
#[derive(Clone, Copy, PartialEq, Eq, Hash, Structural, Debug)]
pub struct SyntaxNode(pub usize);

/// What is known of a syntax node.
#[derive(Clone, Copy, PartialEq, Eq, Structural, Debug)]
pub struct SyntaxNodeData {
    pub file_id: FileId,
    pub stable_ptr: SyntaxStablePtrId,
    pub span_without_trivia: TextSpan,
}

/// All syntax nodes, and the node that each stable pointer points at.
#[derive(Debug)]
pub struct SyntaxDb {
    pub nodes: Vec<SyntaxNodeData>,
    pub pointed: Vec<SyntaxNode>,
}

impl SyntaxDb {
    /// Nodes and stable pointers correspond one to one.
    pub open spec fn wf(&self) -> bool {
        &&& forall|p: int|
            0 <= p < self.pointed@.len() ==> (#[trigger] self.pointed@[p]).0 < self.nodes@.len()
                && self.nodes@[self.pointed@[p].0 as int].stable_ptr.0 == p
        &&& forall|n: int|
            0 <= n < self.nodes@.len() ==> (#[trigger] self.nodes@[n]).stable_ptr.0
                < self.pointed@.len() && self.pointed@[self.nodes@[n].stable_ptr.0 as int].0 == n
    }

    /// Whether `ptr` points at a node.
    pub open spec fn has_ptr(&self, ptr: SyntaxStablePtrId) -> bool {
        ptr.0 < self.pointed@.len()
    }

    /// Whether `node` is a node of this database.
    pub open spec fn has_node(&self, node: SyntaxNode) -> bool {
        node.0 < self.nodes@.len()
    }

    /// The node that `ptr` points at.
    pub open spec fn node_at(&self, ptr: SyntaxStablePtrId) -> SyntaxNode {
        self.pointed@[ptr.0 as int]
    }

    /// What is known of `node`.
    pub open spec fn data(&self, node: SyntaxNode) -> SyntaxNodeData {
        self.nodes@[node.0 as int]
    }
}

impl SyntaxStablePtrId {
    /// The node that this pointer points at.
    pub fn lookup(self, db: &SyntaxDb) -> (r: SyntaxNode)
        requires
            db.wf(),
            db.has_ptr(self),
        ensures
            r == db.node_at(self),
            db.has_node(r),
    {
        db.pointed[self.0]
    }

    /// The file that holds the node that this pointer points at.
    pub fn file_id(self, db: &SyntaxDb) -> (r: FileId)
        requires
            db.wf(),
            db.has_ptr(self),
        ensures
            r == db.data(db.node_at(self)).file_id,
    {
        db.nodes[self.lookup(db).0].file_id
    }
}

impl SyntaxNode {
    /// The stable pointer to this node.
    pub fn stable_ptr(self, db: &SyntaxDb) -> (r: SyntaxStablePtrId)
        requires
            db.has_node(self),
        ensures
            r == db.data(self).stable_ptr,
    {
        db.nodes[self.0].stable_ptr
    }

    /// The text of this node without the trivia around it.
    pub fn span_without_trivia(self, db: &SyntaxDb) -> (r: TextSpan)
        requires
            db.has_node(self),
        ensures
            r == db.data(self).span_without_trivia,
    {
        db.nodes[self.0].span_without_trivia
    }

    /// Where the text of this node starts, after the trivia before it.
    pub fn span_start_without_trivia(self, db: &SyntaxDb) -> (r: TextOffset)
        requires
            db.has_node(self),
        ensures
            r == db.data(self).span_without_trivia.start,
    {
        self.span_without_trivia(db).start
    }

    /// Where the text of this node ends, before the trivia after it.
    pub fn span_end_without_trivia(self, db: &SyntaxDb) -> (r: TextOffset)
        requires
            db.has_node(self),
        ensures
            r == db.data(self).span_without_trivia.end,
    {
        self.span_without_trivia(db).end
    }
}

/// Nodes and pointers are found at their own index.
pub proof fn law_nodes_and_pointers_are_found_at_their_index(
    db: &SyntaxDb,
    node: SyntaxNode,
    ptr: SyntaxStablePtrId,
)
    ensures
        db.has_node(node) <==> node.0 < db.nodes@.len(),
        db.has_ptr(ptr) <==> ptr.0 < db.pointed@.len(),
        db.data(node) == db.nodes@[node.0 as int],
        db.node_at(ptr) == db.pointed@[ptr.0 as int],
{
}

/// The earlier of two positions is one of them, and not after the other.
pub proof fn law_the_earlier_position_is_the_smaller_one(first: TextOffset, second: TextOffset)
    ensures
        first.earlier(second) == first || first.earlier(second) == second,
        first.earlier(second).0 <= first.0,
        first.earlier(second).0 <= second.0,
{
}

} // verus!

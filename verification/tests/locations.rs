// Stable locations.
use match_lowering::diagnostic_utils::StableLocation;
use match_lowering::syntax::{
    DiagnosticLocation, FileId, SyntaxDb, SyntaxNode, SyntaxNodeData, SyntaxStablePtrId, TextOffset,
    TextSpan,
};

fn span(start: u32, end: u32) -> TextSpan {
    TextSpan { start: TextOffset(start), end: TextOffset(end) }
}

fn node(file: usize, ptr: usize, start: u32, end: u32) -> SyntaxNodeData {
    SyntaxNodeData {
        file_id: FileId(file),
        stable_ptr: SyntaxStablePtrId(ptr),
        span_without_trivia: span(start, end),
    }
}

// Pointer 0 points at node 1, and pointer 1 at node 0.
fn db() -> SyntaxDb {
    SyntaxDb {
        nodes: vec![node(4, 1, 10, 20), node(5, 0, 30, 45)],
        pointed: vec![SyntaxNode(1), SyntaxNode(0)],
    }
}

#[test]
fn a_location_gives_back_its_pointer() {
    let location = StableLocation::new(SyntaxStablePtrId(7));
    assert_eq!(location.stable_ptr(), SyntaxStablePtrId(7));
}

#[test]
fn a_location_resolves_to_its_node() {
    let db = db();
    let location = StableLocation::from_ast(&db, SyntaxNode(1));
    assert_eq!(location, StableLocation::new(SyntaxStablePtrId(0)));
    assert_eq!(location.syntax_node(&db), SyntaxNode(1));
    assert_eq!(location.file_id(&db), FileId(5));
    assert_eq!(
        location.diagnostic_location(&db),
        DiagnosticLocation { file_id: FileId(5), span: span(30, 45) }
    );
}

#[test]
fn a_location_can_reach_until_another_node() {
    let db = db();
    let location = StableLocation::new(SyntaxStablePtrId(1));
    assert_eq!(
        location.diagnostic_location_until(&db, SyntaxStablePtrId(0)),
        DiagnosticLocation { file_id: FileId(4), span: span(10, 45) }
    );
}

#[test]
fn offsets_are_cut_off_at_the_end_of_the_node() {
    let db = db();
    let location = StableLocation::new(SyntaxStablePtrId(1));
    let part = |start, end| location.diagnostic_location_with_offsets(&db, start, end).span;
    assert_eq!(part(2, 5), span(12, 15));
    assert_eq!(part(2, 50), span(12, 20));
    assert_eq!(part(50, 60), span(20, 20));
    // The whole node.
    assert_eq!(part(0, 10), location.diagnostic_location(&db).span);
    assert_eq!(part(0, 11), location.diagnostic_location(&db).span);
    // The offsets keep their order.
    assert_eq!(part(5, 2), span(15, 12));
}

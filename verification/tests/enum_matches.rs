// Matches on an enum.
use match_lowering::context::{LoweringContext, LoweringFlowError};
use match_lowering::diagnostic::{
    DiagnosticAdded, LocationId, LoweringDiagnostic, LoweringDiagnosticKind, MatchDiagnostic,
    MatchError, MatchKind,
};
use match_lowering::diagnostic_utils::StableLocation;
use match_lowering::enum_match::{
    conclude_concrete_enum_match, conclude_optimized_extern_match, extract_concrete_enum,
    get_variant_to_arm_map, lower_concrete_enum_match, lower_optimized_extern_match,
    select_variant_arms, try_push, unfold_pattern_and_push_to_tree, ConcreteEnumMatch,
    ExternVariantLeaf, ExtractedEnumDetails, OptimizedExternMatch, VariantLeaf,
};
use match_lowering::lowered::{
    BlockId, FunctionId, LoweredExprExternEnum, LoweredMatchArm, MatchArmSelector, MatchEnumInfo,
    MatchExternInfo, MatchInfo, VarRequest, VarType, VarUsage, VariableId,
};
use match_lowering::match_arms::{
    get_underscore_pattern_path_and_mark_unreachable, wrap_arms, MatchArmWrapper, PatternPath,
};
use match_lowering::match_groups::{ArmBody, ArmEnd, ArmGroup, LoweredLeaf};
use match_lowering::semantic::{
    ConcreteEnumId, ConcreteVariant, Expr, ExprId, IntLiteral, MatchArm, Pattern,
    PatternEnumVariant, PatternId, PatternKind, SemanticDb, SemanticModel, TypeId, TypeInfo,
    TypeLongId, VariantId,
};
use match_lowering::syntax::SyntaxStablePtrId;
use match_lowering::variant_match_tree::VariantMatchTree;

fn ty(long_id: TypeLongId, formatted: &str, numeric: bool) -> TypeInfo {
    TypeInfo {
        long_id,
        formatted: formatted.to_string(),
        numeric_upcastable_to_felt252: numeric,
    }
}

fn variant(e: usize, id: usize, ty: usize, idx: usize) -> ConcreteVariant {
    ConcreteVariant { concrete_enum_id: ConcreteEnumId(e), id: VariantId(id), ty: TypeId(ty), idx }
}

// The enum `E` has the variants `A`, `B` and `C`, with an `F` in `C`; `F` has `X` and `Y`.
fn a() -> ConcreteVariant {
    variant(0, 0, 0, 0)
}

fn b() -> ConcreteVariant {
    variant(0, 1, 0, 1)
}

fn c() -> ConcreteVariant {
    variant(0, 2, 2, 2)
}

fn x() -> ConcreteVariant {
    variant(1, 3, 0, 0)
}

fn y() -> ConcreteVariant {
    variant(1, 4, 0, 1)
}

const E: usize = 1;
const SNAPSHOT_OF_E: usize = 3;
const BROKEN: usize = 6;
const SNAPSHOT_OF_PAIR: usize = 7;
const ARRAY: usize = 8;
const BLOCK: usize = 13;

// The pattern at position `i` is written at pointer `100 + i`, and the expression at position `t`
// has type `t` and is written at pointer `200 + t`.
fn context(kinds: Vec<PatternKind>) -> LoweringContext {
    let types = vec![
        ty(TypeLongId::Other, "felt252", true),
        ty(TypeLongId::Enum(ConcreteEnumId(0)), "E", false),
        ty(TypeLongId::Enum(ConcreteEnumId(1)), "F", false),
        ty(TypeLongId::Snapshot(TypeId(1)), "@E", false),
        ty(TypeLongId::Tuple(vec![TypeId(1), TypeId(2)]), "(E, F)", false),
        ty(TypeLongId::Other, "u8", true),
        ty(TypeLongId::Enum(ConcreteEnumId(2)), "Broken", false),
        ty(TypeLongId::Snapshot(TypeId(4)), "@(E, F)", false),
        ty(TypeLongId::Other, "Array", false),
        ty(TypeLongId::Enum(ConcreteEnumId(3)), "Never", false),
        ty(TypeLongId::Tuple(vec![TypeId(1), TypeId(8)]), "(E, Array)", false),
        ty(TypeLongId::Tuple(vec![TypeId(9), TypeId(2)]), "(Never, F)", false),
        ty(TypeLongId::Tuple(vec![TypeId(6), TypeId(8)]), "(Broken, Array)", false),
        ty(TypeLongId::Other, "()", false),
    ];
    let names = ["A", "B", "C", "X", "Y"];
    let db = SemanticDb {
        types,
        enums: vec![
            Ok(vec![a(), b(), c()]),
            Ok(vec![x(), y()]),
            Err(DiagnosticAdded),
            Ok(vec![]),
        ],
        variant_names: names.iter().map(|name| name.to_string()).collect(),
        felt252: TypeId(0),
        numeric_match_optimization_min_arms_threshold: None,
    };
    let patterns = kinds
        .into_iter()
        .enumerate()
        .map(|(i, kind)| Pattern { stable_ptr: SyntaxStablePtrId(100 + i), kind })
        .collect();
    let exprs = (0..14)
        .map(|t| Expr {
            stable_ptr: SyntaxStablePtrId(200 + t),
            ty: TypeId(t),
            is_block: t == BLOCK,
        })
        .collect();
    LoweringContext { semantic: SemanticModel { db, patterns, exprs }, diagnostics: vec![] }
}

fn at(ptr: usize) -> LocationId {
    LocationId(StableLocation::new(SyntaxStablePtrId(ptr)))
}

fn report(ptr: usize, kind: MatchKind, error: MatchDiagnostic) -> LoweringDiagnostic {
    LoweringDiagnostic {
        location: at(ptr),
        kind: LoweringDiagnosticKind::MatchError(MatchError { kind, error }),
    }
}

fn arm(patterns: &[usize], expr: usize) -> MatchArmWrapper {
    MatchArmWrapper {
        patterns: patterns.iter().map(|p| PatternId(*p)).collect(),
        expr: Some(ExprId(expr)),
    }
}

fn on(variant: ConcreteVariant, inner: Option<usize>) -> PatternKind {
    PatternKind::EnumVariant(PatternEnumVariant { variant, inner_pattern: inner.map(PatternId) })
}

fn usage(var: usize) -> VarUsage {
    VarUsage { var_id: VariableId(var), location: at(90 + var) }
}

fn details_of_e(n_snapshots: usize) -> ExtractedEnumDetails {
    ExtractedEnumDetails {
        concrete_enum_id: ConcreteEnumId(0),
        concrete_variants: vec![a(), b(), c()],
        n_snapshots,
    }
}

fn path(arm_index: usize, pattern_index: usize) -> PatternPath {
    PatternPath { arm_index, pattern_index: Some(pattern_index) }
}

const FAILED: LoweringFlowError = LoweringFlowError::Failed(DiagnosticAdded);

#[test]
fn the_enum_under_snapshots_is_extracted() {
    let mut ctx = context(vec![]);
    let r = extract_concrete_enum(&mut ctx, SyntaxStablePtrId(1), TypeId(E), MatchKind::Match);
    assert_eq!(r, Ok(details_of_e(0)));
    let r = extract_concrete_enum(
        &mut ctx,
        SyntaxStablePtrId(1),
        TypeId(SNAPSHOT_OF_E),
        MatchKind::IfLet,
    );
    assert_eq!(r, Ok(details_of_e(1)));
    assert_eq!(ctx.diagnostics, vec![]);
}

#[test]
fn a_type_that_is_no_enum_is_reported_with_its_text() {
    let mut ctx = context(vec![]);
    let r = extract_concrete_enum(
        &mut ctx,
        SyntaxStablePtrId(5),
        TypeId(SNAPSHOT_OF_PAIR),
        MatchKind::Match,
    );
    assert_eq!(r, Err(FAILED));
    assert_eq!(
        ctx.diagnostics,
        vec![report(
            5,
            MatchKind::Match,
            MatchDiagnostic::UnsupportedMatchedType("(E, F)".to_string())
        )]
    );
}

#[test]
fn an_enum_whose_variants_are_not_known_fails_without_a_new_report() {
    let mut ctx = context(vec![]);
    let r = extract_concrete_enum(&mut ctx, SyntaxStablePtrId(5), TypeId(BROKEN), MatchKind::Match);
    assert_eq!(r, Err(FAILED));
    assert_eq!(ctx.diagnostics, vec![]);
}

#[test]
fn an_arm_takes_over_patterns_and_expression() {
    let arms = vec![MatchArm { patterns: vec![PatternId(3), PatternId(1)], expression: ExprId(2) }];
    assert_eq!(MatchArmWrapper::from(&arms[0]), arm(&[3, 1], 2));
    assert_eq!(wrap_arms(&arms), vec![arm(&[3, 1], 2)]);
}

#[test]
fn the_underscore_makes_what_follows_unreachable() {
    let mut ctx = context(vec![
        on(a(), None),
        PatternKind::Otherwise,
        on(b(), None),
        on(c(), None),
    ]);
    let arms = vec![arm(&[0], 0), arm(&[1, 2], 0), arm(&[3], 0), arm(&[], 9)];
    let r = get_underscore_pattern_path_and_mark_unreachable(&mut ctx, &arms, MatchKind::IfLet);
    assert_eq!(r, Some(path(1, 0)));
    // The arms after that of the underscore come first, then the patterns after it.
    let unreachable =
        |ptr: usize| report(ptr, MatchKind::IfLet, MatchDiagnostic::UnreachableMatchArm);
    assert_eq!(ctx.diagnostics, vec![unreachable(103), unreachable(209), unreachable(102)]);
}

#[test]
fn an_arm_without_patterns_takes_the_place_of_the_underscore() {
    let mut ctx = context(vec![on(a(), None)]);
    let arms = vec![arm(&[0], 0), MatchArmWrapper { patterns: vec![], expr: None }];
    let r = get_underscore_pattern_path_and_mark_unreachable(&mut ctx, &arms, MatchKind::IfLet);
    assert_eq!(r, Some(PatternPath { arm_index: 1, pattern_index: None }));
    assert_eq!(ctx.diagnostics, vec![]);
}

#[test]
fn without_an_underscore_nothing_is_found() {
    let mut ctx = context(vec![on(a(), None), on(b(), None)]);
    let arms = vec![arm(&[0, 1], 0)];
    let r = get_underscore_pattern_path_and_mark_unreachable(&mut ctx, &arms, MatchKind::Match);
    assert_eq!(r, None);
    assert_eq!(ctx.diagnostics, vec![]);
}

#[test]
fn a_push_fills_what_is_open_and_nothing_else() {
    let mut tree = VariantMatchTree::Mapping(vec![
        VariantMatchTree::Full(PatternId(0), path(0, 0)),
        VariantMatchTree::Empty,
        VariantMatchTree::Mapping(vec![
            VariantMatchTree::Full(PatternId(1), path(1, 0)),
            VariantMatchTree::Empty,
        ]),
    ]);
    assert_eq!(tree.push_pattern_path(PatternId(2), path(2, 0)), Ok(()));
    let mut leaves = vec![];
    tree.collect_leaves(&mut leaves);
    // Each pattern once, in the order of the leaves.
    assert_eq!(leaves, vec![PatternId(0), PatternId(2), PatternId(1)]);
    assert_eq!(
        tree.push_pattern_path(PatternId(3), path(3, 0)),
        Err(LoweringDiagnosticKind::MatchError(MatchError {
            kind: MatchKind::Match,
            error: MatchDiagnostic::UnreachableMatchArm,
        }))
    );
    let mut leaves = vec![];
    tree.collect_leaves(&mut leaves);
    assert_eq!(leaves, vec![PatternId(0), PatternId(2), PatternId(1)]);
}

#[test]
fn a_mapping_without_variants_has_no_room() {
    let mut tree = VariantMatchTree::Mapping(vec![]);
    assert!(tree.push_pattern_path(PatternId(2), path(2, 0)).is_err());
}

#[test]
fn a_mapping_is_made_on_demand() {
    let ctx = context(vec![]);
    let mut tree = VariantMatchTree::Empty;
    match tree.get_mapping_or_insert(&ctx, b()) {
        Ok(Some(below)) => assert!(below.push_pattern_path(PatternId(7), path(0, 0)).is_ok()),
        _ => panic!("the tree was empty"),
    }
    match &tree {
        VariantMatchTree::Mapping(items) => {
            assert_eq!(items.len(), 3);
            assert!(matches!(items[0], VariantMatchTree::Empty));
            assert!(matches!(items[1], VariantMatchTree::Full(PatternId(7), _)));
            assert!(matches!(items[2], VariantMatchTree::Empty));
        }
        _ => panic!("a mapping was made"),
    }
    let mut tree = VariantMatchTree::Full(PatternId(0), path(0, 0));
    assert!(matches!(tree.get_mapping_or_insert(&ctx, b()), Ok(None)));
    let mut tree = VariantMatchTree::Empty;
    assert!(matches!(
        tree.get_mapping_or_insert(&ctx, variant(2, 0, 0, 0)),
        Err(DiagnosticAdded)
    ));
}

#[test]
fn a_covered_variant_cannot_be_pushed_again() {
    let mut ctx = context(vec![on(a(), None)]);
    let mut tree = VariantMatchTree::Empty;
    assert_eq!(try_push(&mut ctx, PatternId(0), path(0, 0), &mut tree), Ok(()));
    assert_eq!(try_push(&mut ctx, PatternId(0), path(1, 0), &mut tree), Err(FAILED));
    assert_eq!(
        ctx.diagnostics,
        vec![report(100, MatchKind::Match, MatchDiagnostic::UnreachableMatchArm)]
    );
}

#[test]
fn unfolding_rejects_what_is_no_variant_of_the_enum() {
    let mut ctx = context(vec![on(x(), None), PatternKind::Variable]);
    let mut tree = VariantMatchTree::Empty;
    for pattern in [0, 1] {
        let r = unfold_pattern_and_push_to_tree(
            &mut ctx,
            MatchKind::Match,
            PatternId(pattern),
            path(0, 0),
            SyntaxStablePtrId(100 + pattern),
            &mut tree,
            ConcreteEnumId(0),
        );
        assert_eq!(r, Err(FAILED));
    }
    assert!(matches!(tree, VariantMatchTree::Empty));
    let not_a_variant = |ptr: usize| {
        report(ptr, MatchKind::Match, MatchDiagnostic::UnsupportedMatchArmNotAVariant)
    };
    assert_eq!(ctx.diagnostics, vec![not_a_variant(100), not_a_variant(101)]);
}

#[test]
fn unfolding_under_a_covered_enum_is_unreachable() {
    let mut ctx = context(vec![PatternKind::Otherwise, on(a(), None)]);
    let mut tree = VariantMatchTree::Empty;
    let mut unfold = |pattern: usize, tree: &mut VariantMatchTree| {
        unfold_pattern_and_push_to_tree(
            &mut ctx,
            MatchKind::IfLet,
            PatternId(pattern),
            path(pattern, 0),
            SyntaxStablePtrId(100 + pattern),
            tree,
            ConcreteEnumId(0),
        )
    };
    assert_eq!(unfold(0, &mut tree), Ok(()));
    // A `_` that covers nothing new is no error.
    assert_eq!(unfold(0, &mut tree), Ok(()));
    assert_eq!(unfold(1, &mut tree), Err(FAILED));
    assert_eq!(
        ctx.diagnostics,
        vec![report(101, MatchKind::IfLet, MatchDiagnostic::UnreachableMatchArm)]
    );
}

#[test]
fn unfolding_keeps_what_is_covered() {
    let mut ctx = context(vec![on(y(), None), on(c(), Some(0)), on(c(), None), on(b(), None)]);
    let mut tree = VariantMatchTree::Empty;
    for pattern in [1, 2, 3] {
        let r = unfold_pattern_and_push_to_tree(
            &mut ctx,
            MatchKind::Match,
            PatternId(pattern),
            path(pattern, 0),
            SyntaxStablePtrId(100 + pattern),
            &mut tree,
            ConcreteEnumId(0),
        );
        assert_eq!(r, Ok(()));
    }
    let mut leaves = vec![];
    tree.collect_leaves(&mut leaves);
    // `B`, then `X` and `Y` in `C`: the pattern on all of `C` takes only what was open.
    assert_eq!(leaves, vec![PatternId(3), PatternId(2), PatternId(0)]);
    assert_eq!(ctx.diagnostics, vec![]);
}

#[test]
fn the_first_pattern_that_takes_a_variant_wins() {
    let mut ctx = context(vec![
        PatternKind::Variable,
        on(b(), None),
        on(a(), Some(0)),
        PatternKind::Otherwise,
    ]);
    let arms = vec![arm(&[1, 2], 0), arm(&[3], 0)];
    let r = get_variant_to_arm_map(&mut ctx, &arms, ConcreteEnumId(0), MatchKind::Match);
    assert_eq!(r, Ok(vec![Some(path(0, 1)), Some(path(0, 0)), Some(path(1, 0))]));
    assert_eq!(ctx.diagnostics, vec![]);
}

#[test]
fn a_single_underscore_takes_all_variants() {
    let mut ctx = context(vec![PatternKind::Otherwise]);
    let r =
        get_variant_to_arm_map(&mut ctx, &[arm(&[0], 0)], ConcreteEnumId(0), MatchKind::Match);
    assert_eq!(r, Ok(vec![Some(path(0, 0)); 3]));
    let r = get_variant_to_arm_map(&mut ctx, &[], ConcreteEnumId(0), MatchKind::Match);
    assert_eq!(r, Ok(vec![None; 3]));
    let r = get_variant_to_arm_map(&mut ctx, &[], ConcreteEnumId(2), MatchKind::Match);
    assert_eq!(r, Err(FAILED));
}

#[test]
fn patterns_that_cover_a_part_of_a_variant_are_unsupported() {
    let mut ctx = context(vec![on(x(), None), on(y(), None), on(c(), Some(0)), on(c(), Some(1))]);
    let arms = vec![arm(&[2], 0), arm(&[3], 0)];
    let r = get_variant_to_arm_map(&mut ctx, &arms, ConcreteEnumId(0), MatchKind::Match);
    assert_eq!(r, Ok(vec![None; 3]));
    let unsupported = |ptr: usize| LoweringDiagnostic {
        location: at(ptr),
        kind: LoweringDiagnosticKind::UnsupportedPattern,
    };
    assert_eq!(ctx.diagnostics, vec![unsupported(100), unsupported(101)]);
}

#[test]
fn a_pattern_on_a_payload_that_is_no_enum_is_reported() {
    let mut ctx = context(vec![on(x(), None), on(a(), Some(0))]);
    let r =
        get_variant_to_arm_map(&mut ctx, &[arm(&[1], 0)], ConcreteEnumId(0), MatchKind::Match);
    assert_eq!(r, Err(FAILED));
    assert_eq!(
        ctx.diagnostics,
        vec![report(
            100,
            MatchKind::Match,
            MatchDiagnostic::UnsupportedMatchedType("felt252".to_string())
        )]
    );
}

#[test]
fn patterns_of_other_kinds_are_no_variants() {
    for kind in [
        PatternKind::Literal(IntLiteral { bytes: vec![1] }),
        PatternKind::StringLiteral,
        PatternKind::Variable,
        PatternKind::Struct,
        PatternKind::Tuple(vec![]),
        PatternKind::FixedSizeArray,
        PatternKind::Missing,
    ] {
        let mut ctx = context(vec![kind]);
        let r =
            get_variant_to_arm_map(&mut ctx, &[arm(&[0], 0)], ConcreteEnumId(0), MatchKind::Match);
        assert_eq!(r, Err(FAILED));
        assert_eq!(
            ctx.diagnostics,
            vec![report(
                100,
                MatchKind::Match,
                MatchDiagnostic::UnsupportedMatchArmNotAVariant
            )]
        );
    }
}

#[test]
fn a_variant_without_an_arm_is_left_open() {
    let mut ctx = context(vec![on(b(), None)]);
    let r = select_variant_arms(&mut ctx, &[arm(&[0], 0)], ConcreteEnumId(0), MatchKind::Match);
    assert_eq!(r, Ok(vec![None, Some(path(0, 0)), None]));
    assert_eq!(ctx.diagnostics, vec![]);
}

#[test]
fn a_variant_that_is_covered_in_part_is_left_to_the_underscore() {
    let mut ctx = context(vec![
        on(x(), None),
        on(c(), Some(0)),
        on(a(), None),
        on(c(), None),
        PatternKind::Otherwise,
    ]);
    // `A` keeps its first arm, while `C` goes to the underscore, though the third arm takes it.
    let arms = vec![arm(&[1], 0), arm(&[2], 0), arm(&[3], 0), arm(&[4], 0)];
    let r = select_variant_arms(&mut ctx, &arms, ConcreteEnumId(0), MatchKind::Match);
    assert_eq!(r, Ok(vec![Some(path(1, 0)), Some(path(3, 0)), Some(path(3, 0))]));
    assert_eq!(ctx.diagnostics, vec![inner(100), inner(103)]);
}

#[test]
fn an_arm_without_patterns_in_the_middle_is_passed_over() {
    let mut ctx = context(vec![on(a(), None), on(b(), None)]);
    let arms = vec![arm(&[0], 0), arm(&[], 0), arm(&[1], 0)];
    let r = select_variant_arms(&mut ctx, &arms, ConcreteEnumId(0), MatchKind::Match);
    let empty = PatternPath { arm_index: 1, pattern_index: None };
    // `B` goes to the third arm, whose pattern is reported as unreachable.
    assert_eq!(r, Ok(vec![Some(path(0, 0)), Some(path(2, 0)), Some(empty)]));
    assert_eq!(
        ctx.diagnostics,
        vec![report(101, MatchKind::Match, MatchDiagnostic::UnreachableMatchArm)]
    );
}

#[test]
fn where_nothing_is_reported_the_first_arm_wins() {
    let mut ctx = context(vec![on(b(), None), on(a(), None), PatternKind::Otherwise]);
    let arms = vec![
        arm(&[0], 0),
        arm(&[1, 2], 0),
        MatchArmWrapper { patterns: vec![], expr: None },
    ];
    let r = select_variant_arms(&mut ctx, &arms, ConcreteEnumId(0), MatchKind::IfLet);
    assert_eq!(r, Ok(vec![Some(path(1, 0)), Some(path(0, 0)), Some(path(1, 1))]));
    assert_eq!(ctx.diagnostics, vec![]);
}

fn inner(ptr: usize) -> LoweringDiagnostic {
    LoweringDiagnostic { location: at(ptr), kind: LoweringDiagnosticKind::UnsupportedPattern }
}

fn lowered_leaf(
    block: usize,
    var_ids: Vec<VariableId>,
    diagnostics: Vec<LoweringDiagnostic>,
) -> Option<LoweredLeaf> {
    Some(LoweredLeaf { lowering_result: Ok(()), block: BlockId(block), var_ids, diagnostics })
}

fn snapshots(ty: usize, n_snapshots: usize) -> VarType {
    VarType::Snapshots { ty: TypeId(ty), n_snapshots }
}

#[test]
fn a_match_on_an_enum_has_a_leaf_for_each_variant() {
    let mut ctx = context(vec![PatternKind::Variable, on(a(), Some(0)), on(c(), None)]);
    let arms = vec![
        arm(&[1, 2], 0),
        MatchArmWrapper { patterns: vec![], expr: None },
    ];
    let lowered = lower_concrete_enum_match(
        &mut ctx,
        ExprId(SNAPSHOT_OF_E),
        Ok(usage(4)),
        &arms,
        at(7),
        MatchKind::IfLet,
    )
    .unwrap();
    let leaf = |variant: ConcreteVariant, arm_index, location, inner_pattern| {
        Some(VariantLeaf {
            variant,
            arm_index,
            var: VarRequest { ty: snapshots(variant.ty.0, 1), location },
            inner_pattern,
        })
    };
    assert_eq!(
        lowered,
        ConcreteEnumMatch {
            concrete_enum_id: ConcreteEnumId(0),
            concrete_variants: vec![a(), b(), c()],
            input: usage(4),
            location: at(7),
            leaves: vec![
                leaf(a(), 0, at(100), Some(PatternId(0))),
                leaf(b(), 1, at(7), None),
                leaf(c(), 0, at(102), None),
            ],
        }
    );

    let leaves = (0..3)
        .map(|i| lowered_leaf(10 + i, vec![VariableId(20 + i)], vec![inner(30 + i)]))
        .collect();
    let concluded =
        conclude_concrete_enum_match(&mut ctx, lowered, &arms, leaves, MatchKind::IfLet).unwrap();
    assert_eq!(ctx.diagnostics, vec![inner(30), inner(31), inner(32)]);
    let lowered_arm = |variant, i: usize| LoweredMatchArm {
        arm_selector: MatchArmSelector::VariantId(variant),
        block_id: BlockId(10 + i),
        var_ids: vec![VariableId(20 + i)],
    };
    let info = |arms| {
        MatchInfo::Enum(MatchEnumInfo {
            concrete_enum_id: ConcreteEnumId(0),
            input: usage(4),
            arms,
            location: at(7),
        })
    };
    assert_eq!(
        concluded.info,
        info(vec![lowered_arm(a(), 0), lowered_arm(b(), 1), lowered_arm(c(), 2)])
    );
    assert_eq!(concluded.empty_match_info, info(vec![]));
    assert_eq!(
        concluded.groups,
        vec![
            ArmGroup {
                arm_index: 0,
                end: ArmEnd::Joined {
                    subscopes: vec![(BlockId(10), Ok(at(101))), (BlockId(12), Ok(at(101)))],
                    info: info(vec![]),
                    location: at(7),
                    body: ArmBody::TailExpr(ExprId(0)),
                },
            },
            ArmGroup {
                arm_index: 1,
                end: ArmEnd::Single { block: BlockId(11), end: Ok(ArmBody::Unit(at(7))) },
            },
        ]
    );
}

#[test]
fn missing_arms_are_reported_between_the_leaves() {
    let mut ctx = context(vec![PatternKind::Variable, on(b(), Some(0))]);
    let arms = vec![arm(&[1], 0)];
    let lowered = lower_concrete_enum_match(
        &mut ctx,
        ExprId(E),
        Ok(usage(4)),
        &arms,
        at(7),
        MatchKind::Match,
    )
    .unwrap();
    assert_eq!(ctx.diagnostics, vec![]);
    assert_eq!(lowered.leaves.iter().map(|leaf| leaf.is_some()).collect::<Vec<_>>(), [
        false, true, false
    ]);
    let leaves = vec![None, lowered_leaf(1, vec![VariableId(2)], vec![inner(100)]), None];
    let r = conclude_concrete_enum_match(&mut ctx, lowered, &arms, leaves, MatchKind::Match);
    assert_eq!(r, Err(FAILED));
    let missing = |name: &str| {
        report(7, MatchKind::Match, MatchDiagnostic::MissingMatchArm(name.to_string()))
    };
    // Variant by variant: what is wrong inside `B` comes between the two missing arms.
    assert_eq!(ctx.diagnostics, vec![missing("A"), inner(100), missing("C")]);
}

#[test]
fn a_match_on_an_enum_fails_with_its_input_after_its_type() {
    let mut ctx = context(vec![PatternKind::Otherwise]);
    let arms = vec![arm(&[0], 0)];
    let ended = LoweringFlowError::Ended(3);
    let r = lower_concrete_enum_match(
        &mut ctx,
        ExprId(E),
        Err(ended),
        &arms,
        at(7),
        MatchKind::Match,
    );
    assert_eq!(r, Err(ended));
    assert_eq!(ctx.diagnostics, vec![]);
    let r = lower_concrete_enum_match(
        &mut ctx,
        ExprId(ARRAY),
        Err(ended),
        &arms,
        at(7),
        MatchKind::Match,
    );
    assert_eq!(r, Err(FAILED));
    assert_eq!(
        ctx.diagnostics,
        vec![report(
            208,
            MatchKind::Match,
            MatchDiagnostic::UnsupportedMatchedType("Array".to_string())
        )]
    );
}

#[test]
fn a_match_on_the_outcome_of_a_call_keeps_its_function() {
    let mut ctx = context(vec![PatternKind::Variable, on(y(), Some(0)), PatternKind::Otherwise]);
    let arms = vec![arm(&[1], 0), arm(&[2], 0)];
    let extern_enum = LoweredExprExternEnum {
        function: FunctionId::Extern(6),
        concrete_enum_id: ConcreteEnumId(1),
        inputs: vec![usage(1), usage(2)],
        location: at(8),
    };
    let lowered =
        lower_optimized_extern_match(&mut ctx, &extern_enum, &arms, MatchKind::Match).unwrap();
    assert_eq!(
        lowered,
        OptimizedExternMatch {
            concrete_variants: vec![x(), y()],
            leaves: vec![
                Some(ExternVariantLeaf { variant: x(), arm_index: 1, inner_pattern: None }),
                Some(ExternVariantLeaf {
                    variant: y(),
                    arm_index: 0,
                    inner_pattern: Some(PatternId(0)),
                }),
            ],
        }
    );
    let ended = LoweringFlowError::Ended(9);
    let leaves = vec![
        Some(LoweredLeaf {
            lowering_result: Err(ended),
            block: BlockId(1),
            var_ids: vec![],
            diagnostics: vec![],
        }),
        lowered_leaf(2, vec![VariableId(5), VariableId(6)], vec![]),
    ];
    let concluded = conclude_optimized_extern_match(
        &mut ctx,
        extern_enum,
        lowered,
        &arms,
        leaves,
        MatchKind::Match,
    )
    .unwrap();
    assert_eq!(ctx.diagnostics, vec![]);
    assert_eq!(
        concluded.info,
        MatchInfo::Extern(MatchExternInfo {
            function: FunctionId::Extern(6),
            inputs: vec![usage(1), usage(2)],
            arms: vec![
                LoweredMatchArm {
                    arm_selector: MatchArmSelector::VariantId(x()),
                    block_id: BlockId(1),
                    var_ids: vec![],
                },
                LoweredMatchArm {
                    arm_selector: MatchArmSelector::VariantId(y()),
                    block_id: BlockId(2),
                    var_ids: vec![VariableId(5), VariableId(6)],
                },
            ],
            location: at(8),
        })
    );
    // The match that joined blocks are merged with has no inputs.
    assert_eq!(
        concluded.empty_match_info,
        MatchInfo::Extern(MatchExternInfo {
            function: FunctionId::Extern(6),
            inputs: vec![],
            arms: vec![],
            location: at(8),
        })
    );
    assert_eq!(
        concluded.groups,
        vec![
            ArmGroup {
                arm_index: 0,
                end: ArmEnd::Single {
                    block: BlockId(2),
                    end: Ok(ArmBody::TailExpr(ExprId(0))),
                },
            },
            ArmGroup {
                arm_index: 1,
                end: ArmEnd::Single { block: BlockId(1), end: Err(ended) },
            },
        ]
    );
}

#[test]
fn a_missing_arm_on_the_outcome_of_a_call_comes_after_its_variables() {
    let mut ctx = context(vec![PatternKind::Variable, on(y(), Some(0))]);
    let arms = vec![arm(&[1], 0)];
    let extern_enum = LoweredExprExternEnum {
        function: FunctionId::Extern(6),
        concrete_enum_id: ConcreteEnumId(1),
        inputs: vec![],
        location: at(8),
    };
    let lowered =
        lower_optimized_extern_match(&mut ctx, &extern_enum, &arms, MatchKind::IfLet).unwrap();
    assert_eq!(lowered.leaves[0], None);
    assert_eq!(ctx.diagnostics, vec![]);
    let leaves = vec![
        lowered_leaf(1, vec![VariableId(5)], vec![inner(40)]),
        lowered_leaf(2, vec![VariableId(6)], vec![inner(100)]),
    ];
    let r = conclude_optimized_extern_match(
        &mut ctx,
        extern_enum,
        lowered,
        &arms,
        leaves,
        MatchKind::IfLet,
    );
    assert_eq!(r, Err(FAILED));
    let missing =
        report(8, MatchKind::IfLet, MatchDiagnostic::MissingMatchArm("X".to_string()));
    assert_eq!(ctx.diagnostics, vec![inner(40), missing, inner(100)]);
}

#[test]
fn a_call_with_an_unknown_enum_fails() {
    let mut ctx = context(vec![]);
    let extern_enum = LoweredExprExternEnum {
        function: FunctionId::Extern(6),
        concrete_enum_id: ConcreteEnumId(2),
        inputs: vec![],
        location: at(8),
    };
    let r = lower_optimized_extern_match(&mut ctx, &extern_enum, &[], MatchKind::Match);
    assert_eq!(r, Err(FAILED));
    assert_eq!(ctx.diagnostics, vec![]);
}

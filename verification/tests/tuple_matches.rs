// Matches on a tuple of enums.
use match_lowering::context::{LoweringContext, LoweringFlowError};
use match_lowering::diagnostic::{
    DiagnosticAdded, LocationId, LoweringDiagnostic, LoweringDiagnosticKind, MatchDiagnostic,
    MatchError, MatchKind,
};
use match_lowering::diagnostic_utils::StableLocation;
use match_lowering::enum_match::ExtractedEnumDetails;
use match_lowering::lowered::{
    BlockId, LoweredMatchArm, MatchArmSelector, MatchEnumInfo, MatchInfo, VarRequest, VarType,
    VarUsage, VariableId,
};
use match_lowering::match_arms::{MatchArmWrapper, PatternPath};
use match_lowering::match_groups::{ArmBody, ArmEnd, ArmGroup, LoweredLeaf, MatchLeafBuilder};
use match_lowering::semantic::{
    ConcreteEnumId, ConcreteVariant, Expr, ExprId, Pattern, PatternEnumVariant, PatternId,
    PatternKind, SemanticDb, SemanticModel, TypeId, TypeInfo, TypeLongId, VariantId,
};
use match_lowering::syntax::SyntaxStablePtrId;
use match_lowering::tuple_expr::{
    conclude_match_tuple, lower_expr_match_tuple, tuple_match_is_defined, TupleInfo,
};
use match_lowering::tuple_match::{
    extract_concrete_enum_tuple, get_variants_to_arm_map_tuple, insert_tuple_path_patterns,
};
use match_lowering::tuple_tree::{
    lower_tuple_match_arm, DecisionArm, DecisionTree, FieldBinding, LoweringMatchTupleContext,
    TupleLeaf,
};
use match_lowering::variants_map::{MatchingPath, VariantsMap};

fn ty(long_id: TypeLongId, formatted: &str, numeric: bool) -> TypeInfo {
    TypeInfo {
        long_id,
        formatted: formatted.to_string(),
        numeric_upcastable_to_felt252: numeric,
    }
}

fn variant(e: usize, id: usize, ty: usize, idx: usize) -> ConcreteVariant {
    ConcreteVariant { concrete_enum_id: ConcreteEnumId(e), id: VariantId(id), ty: TypeId(ty), idx }
}

// The enum `E` has the variants `A`, `B` and `C`, with an `F` in `C`; `F` has `X` and `Y`.
fn a() -> ConcreteVariant {
    variant(0, 0, 0, 0)
}

fn b() -> ConcreteVariant {
    variant(0, 1, 0, 1)
}

fn c() -> ConcreteVariant {
    variant(0, 2, 2, 2)
}

fn x() -> ConcreteVariant {
    variant(1, 3, 0, 0)
}

fn y() -> ConcreteVariant {
    variant(1, 4, 0, 1)
}

const E: usize = 1;
const SNAPSHOT_OF_E: usize = 3;
const PAIR: usize = 4;
const BROKEN: usize = 6;
const ARRAY: usize = 8;
const PAIR_WITH_ARRAY: usize = 10;
const PAIR_WITH_NEVER: usize = 11;
const BLOCK: usize = 13;

// The pattern at position `i` is written at pointer `100 + i`, and the expression at position `t`
// has type `t` and is written at pointer `200 + t`.
fn context(kinds: Vec<PatternKind>) -> LoweringContext {
    let types = vec![
        ty(TypeLongId::Other, "felt252", true),
        ty(TypeLongId::Enum(ConcreteEnumId(0)), "E", false),
        ty(TypeLongId::Enum(ConcreteEnumId(1)), "F", false),
        ty(TypeLongId::Snapshot(TypeId(1)), "@E", false),
        ty(TypeLongId::Tuple(vec![TypeId(1), TypeId(2)]), "(E, F)", false),
        ty(TypeLongId::Other, "u8", true),
        ty(TypeLongId::Enum(ConcreteEnumId(2)), "Broken", false),
        ty(TypeLongId::Snapshot(TypeId(4)), "@(E, F)", false),
        ty(TypeLongId::Other, "Array", false),
        ty(TypeLongId::Enum(ConcreteEnumId(3)), "Never", false),
        ty(TypeLongId::Tuple(vec![TypeId(1), TypeId(8)]), "(E, Array)", false),
        ty(TypeLongId::Tuple(vec![TypeId(9), TypeId(2)]), "(Never, F)", false),
        ty(TypeLongId::Tuple(vec![TypeId(6), TypeId(8)]), "(Broken, Array)", false),
        ty(TypeLongId::Other, "()", false),
    ];
    let names = ["A", "B", "C", "X", "Y"];
    let db = SemanticDb {
        types,
        enums: vec![
            Ok(vec![a(), b(), c()]),
            Ok(vec![x(), y()]),
            Err(DiagnosticAdded),
            Ok(vec![]),
        ],
        variant_names: names.iter().map(|name| name.to_string()).collect(),
        felt252: TypeId(0),
        numeric_match_optimization_min_arms_threshold: None,
    };
    let patterns = kinds
        .into_iter()
        .enumerate()
        .map(|(i, kind)| Pattern { stable_ptr: SyntaxStablePtrId(100 + i), kind })
        .collect();
    let exprs = (0..14)
        .map(|t| Expr {
            stable_ptr: SyntaxStablePtrId(200 + t),
            ty: TypeId(t),
            is_block: t == BLOCK,
        })
        .collect();
    LoweringContext { semantic: SemanticModel { db, patterns, exprs }, diagnostics: vec![] }
}

fn at(ptr: usize) -> LocationId {
    LocationId(StableLocation::new(SyntaxStablePtrId(ptr)))
}

fn report(ptr: usize, kind: MatchKind, error: MatchDiagnostic) -> LoweringDiagnostic {
    LoweringDiagnostic {
        location: at(ptr),
        kind: LoweringDiagnosticKind::MatchError(MatchError { kind, error }),
    }
}

fn arm(patterns: &[usize], expr: usize) -> MatchArmWrapper {
    MatchArmWrapper {
        patterns: patterns.iter().map(|p| PatternId(*p)).collect(),
        expr: Some(ExprId(expr)),
    }
}

fn on(variant: ConcreteVariant, inner: Option<usize>) -> PatternKind {
    PatternKind::EnumVariant(PatternEnumVariant { variant, inner_pattern: inner.map(PatternId) })
}

fn usage(var: usize) -> VarUsage {
    VarUsage { var_id: VariableId(var), location: at(90 + var) }
}

const FAILED: LoweringFlowError = LoweringFlowError::Failed(DiagnosticAdded);

fn path(arm_index: usize, pattern_index: usize) -> PatternPath {
    PatternPath { arm_index, pattern_index: Some(pattern_index) }
}

fn fields(patterns: &[usize]) -> PatternKind {
    PatternKind::Tuple(patterns.iter().map(|p| PatternId(*p)).collect())
}

fn details_of_pair() -> Vec<ExtractedEnumDetails> {
    vec![
        ExtractedEnumDetails {
            concrete_enum_id: ConcreteEnumId(0),
            concrete_variants: vec![a(), b(), c()],
            n_snapshots: 0,
        },
        ExtractedEnumDetails {
            concrete_enum_id: ConcreteEnumId(1),
            concrete_variants: vec![x(), y()],
            n_snapshots: 0,
        },
    ]
}

fn entry(map: &VariantsMap, variants: &[ConcreteVariant]) -> Option<PatternPath> {
    map.get(&MatchingPath { variants: variants.to_vec() })
}

#[test]
fn the_enums_of_a_tuple_are_extracted() {
    let mut ctx = context(vec![]);
    let r = extract_concrete_enum_tuple(
        &mut ctx,
        SyntaxStablePtrId(1),
        &[TypeId(SNAPSHOT_OF_E), TypeId(2)],
        MatchKind::Match,
    );
    let mut expected = details_of_pair();
    expected[0].n_snapshots = 1;
    assert_eq!(r, Ok(expected));
    assert_eq!(ctx.diagnostics, vec![]);
}

#[test]
fn a_field_that_is_no_enum_is_reported_unless_an_unknown_enum_comes_first() {
    let mut ctx = context(vec![]);
    let types = [TypeId(E), TypeId(ARRAY), TypeId(ARRAY)];
    let r = extract_concrete_enum_tuple(&mut ctx, SyntaxStablePtrId(1), &types, MatchKind::Match);
    assert_eq!(r, Err(FAILED));
    assert_eq!(
        ctx.diagnostics,
        vec![report(1, MatchKind::Match, MatchDiagnostic::UnsupportedMatchedValueTuple)]
    );
    let mut ctx = context(vec![]);
    let types = [TypeId(BROKEN), TypeId(ARRAY)];
    let r = extract_concrete_enum_tuple(&mut ctx, SyntaxStablePtrId(1), &types, MatchKind::Match);
    assert_eq!(r, Err(FAILED));
    assert_eq!(ctx.diagnostics, vec![]);
}

#[test]
fn a_map_keeps_its_first_entries() {
    let mut map = VariantsMap::new();
    assert_eq!(map.len(), 0);
    map.insert_if_vacant(MatchingPath { variants: vec![a(), x()] }, path(0, 0));
    map.insert_if_vacant(MatchingPath { variants: vec![a(), y()] }, path(1, 0));
    map.insert_if_vacant(MatchingPath { variants: vec![a(), x()] }, path(2, 0));
    assert_eq!(map.len(), 2);
    assert_eq!(entry(&map, &[a(), x()]), Some(path(0, 0)));
    assert_eq!(entry(&map, &[a(), y()]), Some(path(1, 0)));
    assert_eq!(entry(&map, &[a()]), None);
    let path = MatchingPath::new().followed_by(b());
    assert!(path.is_same(&MatchingPath { variants: vec![b()] }));
    assert!(!path.is_same(&MatchingPath { variants: vec![c()] }));
}

#[test]
fn an_underscore_field_stands_for_all_variants() {
    let mut ctx = context(vec![PatternKind::Otherwise, on(y(), None)]);
    let mut map = VariantsMap::new();
    map.insert_if_vacant(MatchingPath { variants: vec![b(), y()] }, path(0, 0));
    let r = insert_tuple_path_patterns(
        &mut ctx,
        &[PatternId(0), PatternId(1)],
        &path(1, 0),
        &details_of_pair(),
        MatchingPath::new(),
        &mut map,
        MatchKind::Match,
    );
    assert_eq!(r, Ok(()));
    assert_eq!(map.len(), 3);
    assert_eq!(entry(&map, &[a(), y()]), Some(path(1, 0)));
    assert_eq!(entry(&map, &[b(), y()]), Some(path(0, 0)));
    assert_eq!(entry(&map, &[c(), y()]), Some(path(1, 0)));
    assert_eq!(entry(&map, &[a(), x()]), None);
}

#[test]
fn a_field_that_is_no_variant_leaves_the_map_alone() {
    for kind in [PatternKind::Variable, on(a(), None)] {
        let mut ctx = context(vec![PatternKind::Otherwise, kind]);
        let mut map = VariantsMap::new();
        let r = insert_tuple_path_patterns(
            &mut ctx,
            &[PatternId(0), PatternId(1)],
            &path(1, 0),
            &details_of_pair(),
            MatchingPath::new(),
            &mut map,
            MatchKind::IfLet,
        );
        assert_eq!(r, Err(FAILED));
        assert_eq!(map.len(), 0);
        // The report comes once, though the field is reached for each variant of the first field.
        assert_eq!(
            ctx.diagnostics,
            vec![report(101, MatchKind::IfLet, MatchDiagnostic::UnsupportedMatchArmNotAVariant)]
        );
    }
}

#[test]
fn an_enum_without_variants_hides_the_fields_after_it() {
    let mut ctx = context(vec![PatternKind::Otherwise, PatternKind::Variable]);
    let mut map = VariantsMap::new();
    let mut details = details_of_pair();
    details[0].concrete_variants = vec![];
    let r = insert_tuple_path_patterns(
        &mut ctx,
        &[PatternId(0), PatternId(1)],
        &path(0, 0),
        &details,
        MatchingPath::new(),
        &mut map,
        MatchKind::Match,
    );
    assert_eq!(r, Ok(()));
    assert_eq!(map.len(), 0);
    assert_eq!(ctx.diagnostics, vec![]);
}

#[test]
fn the_first_pattern_on_a_tuple_wins() {
    let mut ctx = context(vec![
        on(a(), None),
        PatternKind::Otherwise,
        on(x(), None),
        fields(&[0, 1]),
        fields(&[1, 2]),
        fields(&[0, 2]),
    ]);
    let arms = vec![arm(&[3], 0), arm(&[4, 5], 0)];
    let map =
        get_variants_to_arm_map_tuple(&mut ctx, &arms, &details_of_pair(), MatchKind::Match)
            .unwrap();
    assert_eq!(entry(&map, &[a(), x()]), Some(path(0, 0)));
    assert_eq!(entry(&map, &[a(), y()]), Some(path(0, 0)));
    assert_eq!(entry(&map, &[b(), x()]), Some(path(1, 0)));
    assert_eq!(entry(&map, &[c(), x()]), Some(path(1, 0)));
    assert_eq!(entry(&map, &[b(), y()]), None);
    // The last pattern brings nothing new.
    assert_eq!(
        ctx.diagnostics,
        vec![report(105, MatchKind::Match, MatchDiagnostic::UnreachableMatchArm)]
    );
}

#[test]
fn the_patterns_after_an_underscore_are_not_collected() {
    let mut ctx = context(vec![PatternKind::Otherwise, PatternKind::Variable]);
    let map = get_variants_to_arm_map_tuple(
        &mut ctx,
        &[arm(&[0, 1], 0)],
        &details_of_pair(),
        MatchKind::Match,
    )
    .unwrap();
    assert_eq!(map.len(), 0);
    assert_eq!(ctx.diagnostics, vec![]);
    let r = get_variants_to_arm_map_tuple(
        &mut ctx,
        &[arm(&[1, 0], 0)],
        &details_of_pair(),
        MatchKind::Match,
    );
    assert_eq!(r, Err(FAILED));
    assert_eq!(
        ctx.diagnostics,
        vec![report(101, MatchKind::Match, MatchDiagnostic::UnsupportedMatchArmNotAVariant)]
    );
}

fn tuple_context(variants_map: VariantsMap) -> LoweringMatchTupleContext {
    LoweringMatchTupleContext {
        match_location: at(7),
        otherwise_variant: None,
        variants_map,
        match_inputs: vec![usage(1), usage(2)],
        n_snapshots_outer: 0,
    }
}

fn inner(ptr: usize) -> LoweringDiagnostic {
    LoweringDiagnostic { location: at(ptr), kind: LoweringDiagnosticKind::UnsupportedPattern }
}

fn lowered_leaf(block: usize, diagnostics: Vec<LoweringDiagnostic>) -> Option<LoweredLeaf> {
    Some(LoweredLeaf {
        lowering_result: Ok(()),
        block: BlockId(block),
        var_ids: vec![],
        diagnostics,
    })
}

#[test]
fn a_missing_list_of_variants_is_reported_with_its_names() {
    let mut ctx = context(vec![]);
    let mut builders = vec![];
    let r = lower_tuple_match_arm(
        &mut ctx,
        &[],
        &tuple_context(VariantsMap::new()),
        &MatchingPath { variants: vec![c(), y()] },
        None,
        &mut builders,
        MatchKind::Match,
    );
    assert_eq!(r, Err(FAILED));
    assert_eq!(builders, vec![]);
    assert_eq!(
        ctx.diagnostics,
        vec![report(
            7,
            MatchKind::Match,
            MatchDiagnostic::MissingMatchArm("(C, Y)".to_string())
        )]
    );
}

#[test]
fn a_selected_pattern_that_is_no_tuple_is_reported() {
    let mut ctx = context(vec![PatternKind::Variable]);
    let mut map = VariantsMap::new();
    map.insert_if_vacant(MatchingPath { variants: vec![a(), x()] }, path(0, 0));
    let mut builders = vec![];
    let r = lower_tuple_match_arm(
        &mut ctx,
        &[arm(&[0], 0)],
        &tuple_context(map),
        &MatchingPath { variants: vec![a(), x()] },
        None,
        &mut builders,
        MatchKind::Match,
    );
    assert_eq!(r, Err(FAILED));
    assert_eq!(builders, vec![]);
    assert_eq!(
        ctx.diagnostics,
        vec![report(100, MatchKind::Match, MatchDiagnostic::UnsupportedMatchArmNotATuple)]
    );
}

#[test]
fn a_lowered_leaf_is_added_with_what_it_reported() {
    let mut ctx = context(vec![PatternKind::Otherwise, fields(&[0, 0])]);
    let mut map = VariantsMap::new();
    map.insert_if_vacant(MatchingPath { variants: vec![a(), x()] }, path(1, 0));
    let mut builders = vec![];
    let ended = LoweringFlowError::Ended(4);
    let leaf = LoweredLeaf {
        lowering_result: Err(ended),
        block: BlockId(6),
        var_ids: vec![],
        diagnostics: vec![inner(30), inner(31)],
    };
    let r = lower_tuple_match_arm(
        &mut ctx,
        &[arm(&[0], 0), arm(&[1], 0)],
        &tuple_context(map),
        &MatchingPath { variants: vec![a(), x()] },
        Some(leaf),
        &mut builders,
        MatchKind::Match,
    );
    assert_eq!(r, Ok(()));
    assert_eq!(
        builders,
        vec![MatchLeafBuilder {
            arm_index: 1,
            lowering_result: Err(ended),
            builder: BlockId(6),
        }]
    );
    assert_eq!(ctx.diagnostics, vec![inner(30), inner(31)]);
}

fn pair_info(n_snapshots: usize) -> TupleInfo {
    TupleInfo { n_snapshots, types: vec![TypeId(E), TypeId(2)] }
}

#[test]
fn a_tuple_is_destructured_under_its_snapshots() {
    let ty = |ty: usize| VarType::Snapshots { ty: TypeId(ty), n_snapshots: 2 };
    assert_eq!(
        pair_info(2).field_requests(at(3)),
        vec![
            VarRequest { ty: ty(E), location: at(3) },
            VarRequest { ty: ty(2), location: at(3) },
        ]
    );
}

#[test]
fn a_match_on_a_tuple_tells_its_fields_apart_in_turn() {
    let mut ctx = context(vec![
        PatternKind::Variable,
        on(a(), Some(0)),
        on(x(), None),
        PatternKind::Otherwise,
        fields(&[1, 3]),
        fields(&[3, 2]),
    ]);
    let arms = vec![arm(&[5], 0), arm(&[4], 0), arm(&[3], 0)];
    let lowered = lower_expr_match_tuple(
        &mut ctx,
        Ok(vec![usage(1), usage(2)]),
        at(7),
        ExprId(PAIR),
        &pair_info(1),
        &arms,
        MatchKind::Match,
    )
    .unwrap();
    assert_eq!(ctx.diagnostics, vec![]);
    let leaf = |variants: [ConcreteVariant; 2], arm_index, bindings| DecisionTree::Leaf {
        variants: MatchingPath { variants: variants.to_vec() },
        leaf: Some(TupleLeaf { arm_index, bindings }),
    };
    let decision_arm = |variant: ConcreteVariant, next| DecisionArm {
        variant,
        var: VarRequest {
            ty: VarType::Snapshots { ty: variant.ty, n_snapshots: 1 },
            location: at(7),
        },
        next,
    };
    let second = |on_x, on_y| DecisionTree::Node {
        concrete_enum_id: ConcreteEnumId(1),
        input: usage(2),
        arms: vec![decision_arm(x(), on_x), decision_arm(y(), on_y)],
        location: at(7),
    };
    let binding =
        FieldBinding { index: 0, inner_pattern: PatternId(0), location: at(100) };
    let expected = DecisionTree::Node {
        concrete_enum_id: ConcreteEnumId(0),
        input: usage(1),
        arms: vec![
            decision_arm(
                a(),
                second(leaf([a(), x()], 0, vec![]), leaf([a(), y()], 1, vec![binding])),
            ),
            decision_arm(b(), second(leaf([b(), x()], 0, vec![]), leaf([b(), y()], 2, vec![]))),
            decision_arm(c(), second(leaf([c(), x()], 0, vec![]), leaf([c(), y()], 2, vec![]))),
        ],
        location: at(7),
    };
    assert_eq!(lowered.tree, expected);

    let mut paths = vec![];
    lowered.tree.collect_leaf_paths(&mut paths);
    let variants: Vec<_> = paths.into_iter().map(|path| path.variants).collect();
    assert_eq!(
        variants,
        vec![
            vec![a(), x()],
            vec![a(), y()],
            vec![b(), x()],
            vec![b(), y()],
            vec![c(), x()],
            vec![c(), y()],
        ]
    );
    // The payload of the binding is that of the first field.
    assert_eq!(
        binding.usage(&[VariableId(3), VariableId(4)]),
        VarUsage { var_id: VariableId(3), location: at(100) }
    );

    let empty = MatchInfo::Enum(MatchEnumInfo {
        concrete_enum_id: ConcreteEnumId(0),
        input: usage(1),
        arms: vec![],
        location: at(7),
    });
    assert_eq!(lowered.empty_match_info, empty);
    let leaves = (0..6)
        .map(|i| lowered_leaf(i, vec![]))
        .collect();
    let groups = conclude_match_tuple(&mut ctx, &lowered, &arms, leaves, MatchKind::Match).unwrap();
    let joined = |blocks: &[usize], location| ArmEnd::Joined {
        subscopes: blocks.iter().map(|block| (BlockId(*block), Ok(location))).collect(),
        info: empty.without_arms(),
        location: at(7),
        body: ArmBody::TailExpr(ExprId(0)),
    };
    assert_eq!(
        groups,
        vec![
            ArmGroup { arm_index: 0, end: joined(&[0, 2, 4], at(105)) },
            ArmGroup {
                arm_index: 1,
                end: ArmEnd::Single {
                    block: BlockId(1),
                    end: Ok(ArmBody::TailExpr(ExprId(0))),
                },
            },
            ArmGroup { arm_index: 2, end: joined(&[3, 5], at(103)) },
        ]
    );
}

#[test]
fn missing_lists_of_variants_are_reported_between_the_leaves() {
    let mut ctx = context(vec![
        on(a(), None),
        PatternKind::Otherwise,
        on(x(), None),
        fields(&[0, 1]),
        fields(&[1, 2]),
    ]);
    let arms = vec![arm(&[3, 4], 0)];
    let lowered = lower_expr_match_tuple(
        &mut ctx,
        Ok(vec![usage(1), usage(2)]),
        at(7),
        ExprId(PAIR),
        &pair_info(0),
        &arms,
        MatchKind::Match,
    )
    .unwrap();
    assert_eq!(ctx.diagnostics, vec![]);
    let missing = |names: &str| {
        report(7, MatchKind::Match, MatchDiagnostic::MissingMatchArm(names.to_string()))
    };
    let leaves = vec![
        lowered_leaf(1, vec![inner(31)]),
        lowered_leaf(2, vec![]),
        lowered_leaf(3, vec![inner(32), inner(33)]),
        None,
        lowered_leaf(4, vec![inner(34)]),
        None,
    ];
    let r = conclude_match_tuple(&mut ctx, &lowered, &arms, leaves, MatchKind::Match);
    assert_eq!(r, Err(FAILED));
    // Leaf by leaf: what is wrong inside `(C, X)` comes between the two missing lists.
    assert_eq!(
        ctx.diagnostics,
        vec![
            inner(31),
            inner(32),
            inner(33),
            missing("(B, Y)"),
            inner(34),
            missing("(C, Y)"),
        ]
    );
}

#[test]
fn a_match_on_a_field_leads_from_its_variants_to_their_blocks() {
    let mut ctx = context(vec![PatternKind::Otherwise]);
    let lowered = lower_expr_match_tuple(
        &mut ctx,
        Ok(vec![usage(1), usage(2)]),
        at(7),
        ExprId(PAIR),
        &pair_info(0),
        &[arm(&[0], 0)],
        MatchKind::Match,
    )
    .unwrap();
    let block_ids = (0..3).map(BlockId).collect();
    let arm_var_ids = (5..8).map(|var| vec![VariableId(var)]).collect();
    let lowered_arm = |variant, block: usize| LoweredMatchArm {
        arm_selector: MatchArmSelector::VariantId(variant),
        block_id: BlockId(block),
        var_ids: vec![VariableId(5 + block)],
    };
    assert_eq!(
        lowered.tree.match_info(block_ids, arm_var_ids),
        Some(MatchInfo::Enum(MatchEnumInfo {
            concrete_enum_id: ConcreteEnumId(0),
            input: usage(1),
            arms: vec![lowered_arm(a(), 0), lowered_arm(b(), 1), lowered_arm(c(), 2)],
            location: at(7),
        }))
    );
    let leaf = DecisionTree::Leaf { variants: MatchingPath::new(), leaf: None };
    assert_eq!(leaf.match_info(vec![], vec![]), None);
}

#[test]
fn a_match_on_a_tuple_fails_with_its_inputs_before_its_types() {
    let ended = LoweringFlowError::Ended(1);
    let types = TupleInfo { n_snapshots: 0, types: vec![TypeId(E), TypeId(ARRAY)] };
    let mut ctx = context(vec![]);
    let r = lower_expr_match_tuple(
        &mut ctx,
        Err(ended),
        at(7),
        ExprId(PAIR_WITH_ARRAY),
        &types,
        &[],
        MatchKind::Match,
    );
    assert_eq!(r, Err(ended));
    assert_eq!(ctx.diagnostics, vec![]);
    let r = lower_expr_match_tuple(
        &mut ctx,
        Ok(vec![usage(1), usage(2)]),
        at(7),
        ExprId(PAIR_WITH_ARRAY),
        &types,
        &[],
        MatchKind::Match,
    );
    assert_eq!(r, Err(FAILED));
    assert_eq!(
        ctx.diagnostics,
        vec![report(210, MatchKind::Match, MatchDiagnostic::UnsupportedMatchedValueTuple)]
    );
}

#[test]
fn a_pattern_that_cannot_be_collected_fails_the_match() {
    let mut ctx = context(vec![PatternKind::Variable, PatternKind::Otherwise]);
    let arms = vec![arm(&[0], 0), arm(&[1], 0), arm(&[1], 0)];
    let r = lower_expr_match_tuple(
        &mut ctx,
        Ok(vec![usage(1), usage(2)]),
        at(7),
        ExprId(PAIR),
        &pair_info(0),
        &arms,
        MatchKind::Match,
    );
    assert_eq!(r, Err(FAILED));
    assert_eq!(
        ctx.diagnostics,
        vec![
            report(101, MatchKind::Match, MatchDiagnostic::UnreachableMatchArm),
            report(100, MatchKind::Match, MatchDiagnostic::UnsupportedMatchArmNotAVariant),
        ]
    );
}

#[test]
fn a_tuple_with_an_enum_without_variants_has_no_leaves() {
    let mut ctx = context(vec![]);
    let lowered = lower_expr_match_tuple(
        &mut ctx,
        Ok(vec![usage(1), usage(2)]),
        at(7),
        ExprId(PAIR_WITH_NEVER),
        &TupleInfo { n_snapshots: 0, types: vec![TypeId(9), TypeId(2)] },
        &[],
        MatchKind::Match,
    )
    .unwrap();
    let mut paths = vec![];
    lowered.tree.collect_leaf_paths(&mut paths);
    assert_eq!(paths.len(), 0);
    let groups = conclude_match_tuple(&mut ctx, &lowered, &[], vec![], MatchKind::Match);
    assert_eq!(groups, Ok(vec![]));
}

fn no_fields() -> TupleInfo {
    TupleInfo { n_snapshots: 0, types: vec![] }
}

#[test]
fn a_tuple_without_fields_fails_with_a_pattern_that_cannot_be_collected() {
    let mut ctx = context(vec![PatternKind::Variable, PatternKind::Otherwise]);
    let arms = vec![arm(&[0], 0), arm(&[1], 0)];
    assert!(tuple_match_is_defined(&ctx, &no_fields(), Some(0), &arms, MatchKind::Match));
    let r = lower_expr_match_tuple(
        &mut ctx,
        Ok(vec![]),
        at(7),
        ExprId(PAIR),
        &no_fields(),
        &arms,
        MatchKind::Match,
    );
    assert_eq!(r, Err(FAILED));
    assert_eq!(
        ctx.diagnostics,
        vec![report(100, MatchKind::Match, MatchDiagnostic::UnsupportedMatchArmNotAVariant)]
    );
}

#[test]
fn fields_that_are_not_reached_do_no_harm() {
    // The pattern with three fields fails with its second field, and those after it are not read.
    let mut ctx = context(vec![
        on(a(), None),
        PatternKind::Variable,
        PatternKind::Otherwise,
        fields(&[0, 1, 2]),
        fields(&[2, 2, 2]),
    ]);
    let arms = vec![arm(&[3], 0), arm(&[4], 0), arm(&[2], 0), arm(&[4], 0)];
    assert!(tuple_match_is_defined(&ctx, &pair_info(0), Some(2), &arms, MatchKind::Match));
    let r = lower_expr_match_tuple(
        &mut ctx,
        Ok(vec![usage(1), usage(2)]),
        at(7),
        ExprId(PAIR),
        &pair_info(0),
        &arms,
        MatchKind::Match,
    );
    assert_eq!(r, Err(FAILED));
    assert_eq!(
        ctx.diagnostics,
        vec![
            report(104, MatchKind::Match, MatchDiagnostic::UnreachableMatchArm),
            report(101, MatchKind::Match, MatchDiagnostic::UnsupportedMatchArmNotAVariant),
        ]
    );
}

#[test]
fn a_third_field_that_is_no_variant_is_reported_as_such() {
    let mut ctx =
        context(vec![PatternKind::Otherwise, PatternKind::Variable, fields(&[0, 0, 1])]);
    let arms = vec![arm(&[2], 0)];
    assert!(tuple_match_is_defined(&ctx, &pair_info(0), Some(2), &arms, MatchKind::IfLet));
    let r = get_variants_to_arm_map_tuple(&mut ctx, &arms, &details_of_pair(), MatchKind::IfLet);
    assert_eq!(r, Err(FAILED));
    assert_eq!(
        ctx.diagnostics,
        vec![report(101, MatchKind::IfLet, MatchDiagnostic::UnsupportedMatchArmNotAVariant)]
    );
}

#[test]
fn a_match_that_reaches_beyond_the_tuple_is_not_defined() {
    let ctx = context(vec![
        PatternKind::Otherwise,
        fields(&[0, 0, 0]),
        PatternKind::Variable,
        fields(&[0, 0]),
    ]);
    let is_defined = |tuple_info: &TupleInfo, n_inputs, patterns: &[usize]| {
        let arms = vec![arm(patterns, 0)];
        tuple_match_is_defined(&ctx, tuple_info, n_inputs, &arms, MatchKind::Match)
    };
    assert!(!is_defined(&pair_info(0), Some(2), &[1]));
    // Where the fields could not be lowered, or are no enums, no pattern is read.
    assert!(is_defined(&pair_info(0), None, &[1]));
    let with_array = TupleInfo { n_snapshots: 0, types: vec![TypeId(E), TypeId(ARRAY)] };
    assert!(is_defined(&with_array, Some(2), &[1]));
    // Nor is one after a pattern that fails.
    assert!(is_defined(&pair_info(0), Some(2), &[2, 1]));
    assert!(is_defined(&pair_info(0), Some(2), &[3]));
    // Without fields or variables there is no tree.
    assert!(!is_defined(&no_fields(), Some(0), &[0]));
    assert!(!is_defined(&pair_info(0), Some(1), &[3]));
    // Snapshots that cannot be counted.
    assert!(is_defined(&pair_info(usize::MAX), Some(2), &[3]));
    let snapshots = TupleInfo { n_snapshots: usize::MAX, types: vec![TypeId(SNAPSHOT_OF_E)] };
    assert!(!is_defined(&snapshots, Some(1), &[0]));
}

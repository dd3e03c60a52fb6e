// Match expressions, and the grouping of leaves.
use match_lowering::context::{LoweringContext, LoweringFlowError, LoweringResult};
use match_lowering::diagnostic::{
    DiagnosticAdded, LocationId, LoweringDiagnostic, LoweringDiagnosticKind, MatchDiagnostic,
    MatchError, MatchKind,
};
use match_lowering::diagnostic_utils::StableLocation;
use match_lowering::lowered::{
    BlockId, FunctionId, LoweredExprExternEnum, MatchEnumInfo, MatchInfo, VarUsage, VariableId,
};
use match_lowering::match_arms::MatchArmWrapper;
use match_lowering::match_expr::{
    is_value_match, lower_expr_match, lower_match_arms, match_route, LoweredMatch, MatchExprInput,
    MatchInput, MatchRoute,
};
use match_lowering::match_groups::{group_match_arms, ArmBody, ArmEnd, ArmGroup, MatchLeafBuilder};
use match_lowering::semantic::{
    ConcreteEnumId, ConcreteVariant, Expr, ExprId, ExprMatch, MatchArm, Pattern, PatternEnumVariant,
    PatternId, PatternKind, SemanticDb, SemanticModel, TypeId, TypeInfo, TypeLongId, VariantId,
};
use match_lowering::syntax::SyntaxStablePtrId;
use match_lowering::tuple_expr::TupleInfo;

fn ty(long_id: TypeLongId, formatted: &str, numeric: bool) -> TypeInfo {
    TypeInfo {
        long_id,
        formatted: formatted.to_string(),
        numeric_upcastable_to_felt252: numeric,
    }
}

fn variant(e: usize, id: usize, ty: usize, idx: usize) -> ConcreteVariant {
    ConcreteVariant { concrete_enum_id: ConcreteEnumId(e), id: VariantId(id), ty: TypeId(ty), idx }
}

// The enum `E` has the variants `A`, `B` and `C`, with an `F` in `C`; `F` has `X` and `Y`.
fn a() -> ConcreteVariant {
    variant(0, 0, 0, 0)
}

fn b() -> ConcreteVariant {
    variant(0, 1, 0, 1)
}

fn c() -> ConcreteVariant {
    variant(0, 2, 2, 2)
}

fn x() -> ConcreteVariant {
    variant(1, 3, 0, 0)
}

fn y() -> ConcreteVariant {
    variant(1, 4, 0, 1)
}

const E: usize = 1;
const SNAPSHOT_OF_E: usize = 3;
const PAIR: usize = 4;
const U8: usize = 5;
const BROKEN: usize = 6;
const SNAPSHOT_OF_PAIR: usize = 7;
const ARRAY: usize = 8;
const BLOCK: usize = 13;

// The pattern at position `i` is written at pointer `100 + i`, and the expression at position `t`
// has type `t` and is written at pointer `200 + t`.
fn context(kinds: Vec<PatternKind>) -> LoweringContext {
    let types = vec![
        ty(TypeLongId::Other, "felt252", true),
        ty(TypeLongId::Enum(ConcreteEnumId(0)), "E", false),
        ty(TypeLongId::Enum(ConcreteEnumId(1)), "F", false),
        ty(TypeLongId::Snapshot(TypeId(1)), "@E", false),
        ty(TypeLongId::Tuple(vec![TypeId(1), TypeId(2)]), "(E, F)", false),
        ty(TypeLongId::Other, "u8", true),
        ty(TypeLongId::Enum(ConcreteEnumId(2)), "Broken", false),
        ty(TypeLongId::Snapshot(TypeId(4)), "@(E, F)", false),
        ty(TypeLongId::Other, "Array", false),
        ty(TypeLongId::Enum(ConcreteEnumId(3)), "Never", false),
        ty(TypeLongId::Tuple(vec![TypeId(1), TypeId(8)]), "(E, Array)", false),
        ty(TypeLongId::Tuple(vec![TypeId(9), TypeId(2)]), "(Never, F)", false),
        ty(TypeLongId::Tuple(vec![TypeId(6), TypeId(8)]), "(Broken, Array)", false),
        ty(TypeLongId::Other, "()", false),
    ];
    let names = ["A", "B", "C", "X", "Y"];
    let db = SemanticDb {
        types,
        enums: vec![
            Ok(vec![a(), b(), c()]),
            Ok(vec![x(), y()]),
            Err(DiagnosticAdded),
            Ok(vec![]),
        ],
        variant_names: names.iter().map(|name| name.to_string()).collect(),
        felt252: TypeId(0),
        numeric_match_optimization_min_arms_threshold: None,
    };
    let patterns = kinds
        .into_iter()
        .enumerate()
        .map(|(i, kind)| Pattern { stable_ptr: SyntaxStablePtrId(100 + i), kind })
        .collect();
    let exprs = (0..14)
        .map(|t| Expr {
            stable_ptr: SyntaxStablePtrId(200 + t),
            ty: TypeId(t),
            is_block: t == BLOCK,
        })
        .collect();
    LoweringContext { semantic: SemanticModel { db, patterns, exprs }, diagnostics: vec![] }
}

fn at(ptr: usize) -> LocationId {
    LocationId(StableLocation::new(SyntaxStablePtrId(ptr)))
}

fn report(ptr: usize, kind: MatchKind, error: MatchDiagnostic) -> LoweringDiagnostic {
    LoweringDiagnostic {
        location: at(ptr),
        kind: LoweringDiagnosticKind::MatchError(MatchError { kind, error }),
    }
}

fn arm(patterns: &[usize], expr: usize) -> MatchArmWrapper {
    MatchArmWrapper {
        patterns: patterns.iter().map(|p| PatternId(*p)).collect(),
        expr: Some(ExprId(expr)),
    }
}

fn on(variant: ConcreteVariant, inner: Option<usize>) -> PatternKind {
    PatternKind::EnumVariant(PatternEnumVariant { variant, inner_pattern: inner.map(PatternId) })
}

fn usage(var: usize) -> VarUsage {
    VarUsage { var_id: VariableId(var), location: at(90 + var) }
}

const FAILED: LoweringFlowError = LoweringFlowError::Failed(DiagnosticAdded);

fn extern_enum() -> LoweredExprExternEnum {
    LoweredExprExternEnum {
        function: FunctionId::Extern(6),
        concrete_enum_id: ConcreteEnumId(1),
        inputs: vec![usage(1)],
        location: at(8),
    }
}

#[test]
fn the_type_decides_the_route() {
    let ctx = context(vec![]);
    let pair = |n_snapshots| {
        MatchRoute::Tuple(TupleInfo { n_snapshots, types: vec![TypeId(E), TypeId(2)] })
    };
    assert_eq!(match_route(&ctx, ExprId(PAIR), false), pair(0));
    assert_eq!(match_route(&ctx, ExprId(SNAPSHOT_OF_PAIR), true), pair(1));
    assert_eq!(match_route(&ctx, ExprId(E), true), MatchRoute::ExternEnum);
    let concrete_enum = |is_known| MatchRoute::ConcreteEnum { is_known };
    assert_eq!(match_route(&ctx, ExprId(SNAPSHOT_OF_E), false), concrete_enum(true));
    // An enum whose variants are not known, and a type that is no enum.
    assert_eq!(match_route(&ctx, ExprId(BROKEN), false), concrete_enum(false));
    assert_eq!(match_route(&ctx, ExprId(ARRAY), false), concrete_enum(false));
    assert!(is_value_match(&ctx, ExprId(U8)));
    assert!(!is_value_match(&ctx, ExprId(E)));
}

#[test]
fn the_arms_are_lowered_on_their_route() {
    let mut ctx = context(vec![PatternKind::Otherwise]);
    let arms = vec![arm(&[0], 0)];
    let tuple = lower_match_arms(
        &mut ctx,
        ExprId(PAIR),
        MatchInput::Tuple { inputs: Ok(vec![usage(1), usage(2)]), location: at(9) },
        &arms,
        at(7),
        MatchKind::Match,
    );
    match tuple {
        // A match on a tuple is located at the tuple.
        Ok(LoweredMatch::Tuple(lowered)) => assert_eq!(lowered.context.match_location, at(9)),
        _ => panic!("a match on a tuple"),
    }
    let concrete = lower_match_arms(
        &mut ctx,
        ExprId(E),
        MatchInput::ConcreteEnum(Ok(usage(1))),
        &arms,
        at(7),
        MatchKind::Match,
    );
    match concrete {
        Ok(LoweredMatch::ConcreteEnum(lowered)) => assert_eq!(lowered.location, at(7)),
        _ => panic!("a match on an enum"),
    }
    let outcome = lower_match_arms(
        &mut ctx,
        ExprId(E),
        MatchInput::ExternEnum(extern_enum()),
        &arms,
        at(7),
        MatchKind::Match,
    );
    match outcome {
        Ok(LoweredMatch::ExternEnum(matched, lowered)) => {
            assert_eq!(matched, extern_enum());
            assert_eq!(lowered.leaves.len(), 2);
        }
        _ => panic!("a match on the outcome of a call"),
    }
}

fn match_expr(matched_expr: usize, patterns: &[usize]) -> ExprMatch {
    ExprMatch {
        stable_ptr: SyntaxStablePtrId(50),
        matched_expr: ExprId(matched_expr),
        arms: patterns
            .iter()
            .map(|p| MatchArm { patterns: vec![PatternId(*p)], expression: ExprId(0) })
            .collect(),
    }
}

#[test]
fn a_matched_expression_that_fails_fails_the_match() {
    let mut ctx = context(vec![PatternKind::Otherwise]);
    let ended = LoweringFlowError::Ended(2);
    let r = lower_expr_match(&mut ctx, &match_expr(E, &[0]), Err(ended));
    assert_eq!(r, Err(ended));
    let r = lower_expr_match(
        &mut ctx,
        &match_expr(U8, &[0]),
        Ok(MatchExprInput::Value(Err(ended), TypeId(U8))),
    );
    assert_eq!(r, Err(ended));
    assert_eq!(ctx.diagnostics, vec![]);
}

#[test]
fn a_match_expression_on_a_number_has_no_leaves_of_variants() {
    let mut ctx = context(vec![PatternKind::Otherwise]);
    let r = lower_expr_match(
        &mut ctx,
        &match_expr(U8, &[0]),
        Ok(MatchExprInput::Value(Ok(usage(1)), TypeId(U8))),
    );
    assert_eq!(r, Err(FAILED));
    assert_eq!(
        ctx.diagnostics,
        vec![report(50, MatchKind::Match, MatchDiagnostic::UnsupportedMatchArmNonSequential)]
    );
}

#[test]
fn a_match_expression_is_located_where_it_is_written() {
    let mut ctx = context(vec![on(a(), None)]);
    let r = lower_expr_match(
        &mut ctx,
        &match_expr(E, &[0]),
        Ok(MatchExprInput::Arms(MatchInput::ConcreteEnum(Ok(usage(1))))),
    );
    match r {
        Ok(LoweredMatch::ConcreteEnum(lowered)) => {
            assert_eq!(lowered.location, at(50));
            let taken: Vec<bool> = lowered.leaves.iter().map(|leaf| leaf.is_some()).collect();
            assert_eq!(taken, vec![true, false, false]);
        }
        _ => panic!("a match on an enum"),
    }
    assert_eq!(ctx.diagnostics, vec![]);
}

fn leaf(arm_index: usize, lowering_result: LoweringResult<()>, block: usize) -> MatchLeafBuilder {
    MatchLeafBuilder { arm_index, lowering_result, builder: BlockId(block) }
}

#[test]
fn leaves_are_grouped_by_their_arms_in_the_order_of_the_arms() {
    let ctx = context(vec![on(a(), None), on(b(), None)]);
    let info = MatchInfo::Enum(MatchEnumInfo {
        concrete_enum_id: ConcreteEnumId(0),
        input: usage(1),
        arms: vec![],
        location: at(7),
    });
    let arms = vec![
        arm(&[0, 1], 3),
        arm(&[1], 4),
        MatchArmWrapper { patterns: vec![], expr: None },
    ];
    let ended = LoweringFlowError::Ended(5);
    let leaves = vec![
        leaf(2, Ok(()), 10),
        leaf(0, Ok(()), 11),
        leaf(2, Err(ended), 12),
        leaf(0, Ok(()), 13),
    ];
    let groups = group_match_arms(&ctx, &info, at(7), &arms, leaves, MatchKind::IfLet);
    assert_eq!(
        groups,
        vec![
            ArmGroup {
                arm_index: 0,
                end: ArmEnd::Joined {
                    subscopes: vec![(BlockId(11), Ok(at(100))), (BlockId(13), Ok(at(100)))],
                    info: info.without_arms(),
                    location: at(7),
                    body: ArmBody::TailExpr(ExprId(3)),
                },
            },
            ArmGroup {
                arm_index: 2,
                end: ArmEnd::Joined {
                    subscopes: vec![(BlockId(10), Ok(at(7))), (BlockId(12), Err(ended))],
                    info: info.without_arms(),
                    location: at(7),
                    body: ArmBody::Unit(at(7)),
                },
            },
        ]
    );
}

#[test]
fn the_arm_of_a_loop_goes_on_with_the_loop() {
    let ctx = context(vec![on(a(), None)]);
    let info = MatchInfo::Enum(MatchEnumInfo {
        concrete_enum_id: ConcreteEnumId(0),
        input: usage(1),
        arms: vec![],
        location: at(7),
    });
    let arms = vec![
        arm(&[0], BLOCK),
        MatchArmWrapper { patterns: vec![], expr: None },
    ];
    let kind = MatchKind::WhileLet(ExprId(2), SyntaxStablePtrId(33));
    let leaves = vec![leaf(0, Ok(()), 10), leaf(1, Ok(()), 11)];
    let groups = group_match_arms(&ctx, &info, at(7), &arms, leaves, kind);
    assert_eq!(
        groups,
        vec![
            ArmGroup {
                arm_index: 0,
                end: ArmEnd::Single {
                    block: BlockId(10),
                    end: Ok(ArmBody::LoopBody {
                        block: ExprId(BLOCK),
                        loop_expr_id: ExprId(2),
                        stable_ptr: SyntaxStablePtrId(33),
                    }),
                },
            },
            ArmGroup {
                arm_index: 1,
                end: ArmEnd::Single { block: BlockId(11), end: Ok(ArmBody::Unit(at(7))) },
            },
        ]
    );
}

// Matches on a number.
use match_lowering::context::{LoweringContext, LoweringFlowError};
use match_lowering::diagnostic::{
    DiagnosticAdded, LocationId, LoweringDiagnostic, LoweringDiagnosticKind, MatchDiagnostic,
    MatchError, MatchKind,
};
use match_lowering::diagnostic_utils::StableLocation;
use match_lowering::lowered::{
    BlockId, CallRequest, EmittedCall, FunctionId, LoweredMatchArm, MatchArmSelector,
    MatchEnumValue, MatchExternInfo, MatchInfo, VarRequest, VarType, VarUsage, VariableId,
};
use match_lowering::match_arms::{wrap_arms, MatchArmWrapper};
use match_lowering::match_groups::{ArmBody, ArmEnd, ArmGroup, MatchLeafBuilder};
use match_lowering::semantic::{
    ConcreteEnumId, ConcreteVariant, Expr, ExprId, ExprMatch, Flag, IntLiteral, MatchArm, Pattern,
    PatternEnumVariant, PatternId, PatternKind, SemanticDb, SemanticModel, TypeId, TypeInfo,
    TypeLongId, VariantId,
};
use match_lowering::syntax::SyntaxStablePtrId;
use match_lowering::value_match::{
    conclude_if_else, conclude_jump_table, felt252_sub_call, felt252_test_info,
    lower_expr_felt252_arm, lower_expr_match_index_enum, lower_expr_match_value,
    numeric_match_optimization_threshold, upcast_call, Difference, EmittedJumpTable, EmittedTest,
    Felt252Test, TestCode, TestVars, ValueMatch, ValueMatchBody,
};

fn ty(long_id: TypeLongId, formatted: &str, numeric: bool) -> TypeInfo {
    TypeInfo {
        long_id,
        formatted: formatted.to_string(),
        numeric_upcastable_to_felt252: numeric,
    }
}

fn variant(e: usize, id: usize, ty: usize, idx: usize) -> ConcreteVariant {
    ConcreteVariant { concrete_enum_id: ConcreteEnumId(e), id: VariantId(id), ty: TypeId(ty), idx }
}

// The enum `E` has the variants `A`, `B` and `C`, with an `F` in `C`; `F` has `X` and `Y`.
fn a() -> ConcreteVariant {
    variant(0, 0, 0, 0)
}

fn b() -> ConcreteVariant {
    variant(0, 1, 0, 1)
}

fn c() -> ConcreteVariant {
    variant(0, 2, 2, 2)
}

fn x() -> ConcreteVariant {
    variant(1, 3, 0, 0)
}

fn y() -> ConcreteVariant {
    variant(1, 4, 0, 1)
}

const FELT252: usize = 0;
const E: usize = 1;
const U8: usize = 5;
const BLOCK: usize = 13;

// The pattern at position `i` is written at pointer `100 + i`, and the expression at position `t`
// has type `t` and is written at pointer `200 + t`.
fn context(kinds: Vec<PatternKind>) -> LoweringContext {
    let types = vec![
        ty(TypeLongId::Other, "felt252", true),
        ty(TypeLongId::Enum(ConcreteEnumId(0)), "E", false),
        ty(TypeLongId::Enum(ConcreteEnumId(1)), "F", false),
        ty(TypeLongId::Snapshot(TypeId(1)), "@E", false),
        ty(TypeLongId::Tuple(vec![TypeId(1), TypeId(2)]), "(E, F)", false),
        ty(TypeLongId::Other, "u8", true),
        ty(TypeLongId::Enum(ConcreteEnumId(2)), "Broken", false),
        ty(TypeLongId::Snapshot(TypeId(4)), "@(E, F)", false),
        ty(TypeLongId::Other, "Array", false),
        ty(TypeLongId::Enum(ConcreteEnumId(3)), "Never", false),
        ty(TypeLongId::Tuple(vec![TypeId(1), TypeId(8)]), "(E, Array)", false),
        ty(TypeLongId::Tuple(vec![TypeId(9), TypeId(2)]), "(Never, F)", false),
        ty(TypeLongId::Tuple(vec![TypeId(6), TypeId(8)]), "(Broken, Array)", false),
        ty(TypeLongId::Other, "()", false),
    ];
    let names = ["A", "B", "C", "X", "Y"];
    let db = SemanticDb {
        types,
        enums: vec![
            Ok(vec![a(), b(), c()]),
            Ok(vec![x(), y()]),
            Err(DiagnosticAdded),
            Ok(vec![]),
        ],
        variant_names: names.iter().map(|name| name.to_string()).collect(),
        felt252: TypeId(0),
        numeric_match_optimization_min_arms_threshold: None,
    };
    let patterns = kinds
        .into_iter()
        .enumerate()
        .map(|(i, kind)| Pattern { stable_ptr: SyntaxStablePtrId(100 + i), kind })
        .collect();
    let exprs = (0..14)
        .map(|t| Expr {
            stable_ptr: SyntaxStablePtrId(200 + t),
            ty: TypeId(t),
            is_block: t == BLOCK,
        })
        .collect();
    LoweringContext { semantic: SemanticModel { db, patterns, exprs }, diagnostics: vec![] }
}

fn at(ptr: usize) -> LocationId {
    LocationId(StableLocation::new(SyntaxStablePtrId(ptr)))
}

fn report(ptr: usize, kind: MatchKind, error: MatchDiagnostic) -> LoweringDiagnostic {
    LoweringDiagnostic {
        location: at(ptr),
        kind: LoweringDiagnosticKind::MatchError(MatchError { kind, error }),
    }
}

fn arm(patterns: &[usize], expr: usize) -> MatchArmWrapper {
    MatchArmWrapper {
        patterns: patterns.iter().map(|p| PatternId(*p)).collect(),
        expr: Some(ExprId(expr)),
    }
}

fn on(variant: ConcreteVariant, inner: Option<usize>) -> PatternKind {
    PatternKind::EnumVariant(PatternEnumVariant { variant, inner_pattern: inner.map(PatternId) })
}

fn usage(var: usize) -> VarUsage {
    VarUsage { var_id: VariableId(var), location: at(90 + var) }
}

const FAILED: LoweringFlowError = LoweringFlowError::Failed(DiagnosticAdded);

fn literal(bytes: &[u8]) -> PatternKind {
    PatternKind::Literal(IntLiteral { bytes: bytes.to_vec() })
}

// A match expression with the given patterns in its arms, written at pointer `50`.
fn match_expr(arms: &[&[usize]]) -> ExprMatch {
    ExprMatch {
        stable_ptr: SyntaxStablePtrId(50),
        matched_expr: ExprId(FELT252),
        arms: arms
            .iter()
            .map(|patterns| MatchArm {
                patterns: patterns.iter().map(|p| PatternId(*p)).collect(),
                expression: ExprId(0),
            })
            .collect(),
    }
}

fn value_error(ptr: usize, error: MatchDiagnostic) -> LoweringDiagnostic {
    report(ptr, MatchKind::Match, error)
}

fn assert_fails(kinds: Vec<PatternKind>, arms: &[&[usize]], ptr: usize, error: MatchDiagnostic) {
    let mut ctx = context(kinds);
    let r = lower_expr_match_value(&mut ctx, &match_expr(arms), usage(1), TypeId(FELT252));
    assert_eq!(r, Err(FAILED));
    assert_eq!(ctx.diagnostics, vec![value_error(ptr, error)]);
}

#[test]
fn the_threshold_depends_on_the_type_and_on_the_flag() {
    let mut ctx = context(vec![]);
    assert_eq!(numeric_match_optimization_threshold(&ctx, true), 8);
    assert_eq!(numeric_match_optimization_threshold(&ctx, false), 10);
    ctx.semantic.db.numeric_match_optimization_min_arms_threshold =
        Some(Flag::NumericMatchOptimizationMinArmsThreshold(3));
    assert_eq!(numeric_match_optimization_threshold(&ctx, true), 3);
    assert_eq!(numeric_match_optimization_threshold(&ctx, false), 3);
}

#[test]
fn a_match_without_arms_is_not_exhaustive() {
    assert_fails(vec![], &[], 50, MatchDiagnostic::NonExhaustiveMatchValue);
}

#[test]
fn a_match_without_an_underscore_is_not_exhaustive() {
    assert_fails(vec![literal(&[0])], &[&[0]], 50, MatchDiagnostic::NonExhaustiveMatchValue);
}

#[test]
fn nothing_is_reached_after_an_underscore() {
    assert_fails(
        vec![literal(&[0]), PatternKind::Otherwise],
        &[&[1, 0]],
        100,
        MatchDiagnostic::UnreachableMatchArm,
    );
}

#[test]
fn a_literal_is_reached_once() {
    assert_fails(
        vec![literal(&[0]), literal(&[0, 0]), PatternKind::Otherwise],
        &[&[0], &[1], &[2]],
        101,
        MatchDiagnostic::UnreachableMatchArm,
    );
}

#[test]
fn literals_start_with_zero_and_leave_no_gap() {
    let non_sequential = || MatchDiagnostic::UnsupportedMatchArmNonSequential;
    assert_fails(vec![PatternKind::Otherwise], &[&[0]], 50, non_sequential());
    assert_fails(
        vec![literal(&[1]), PatternKind::Otherwise],
        &[&[0], &[1]],
        50,
        non_sequential(),
    );
    assert_fails(
        vec![literal(&[0]), literal(&[2]), PatternKind::Otherwise],
        &[&[0, 1], &[2]],
        50,
        non_sequential(),
    );
}

#[test]
fn literals_fit_into_an_index() {
    let non_sequential = || MatchDiagnostic::UnsupportedMatchArmNonSequential;
    // A negative number, two to the power of sixty-four, and the number before it.
    assert_fails(vec![literal(&[0xff])], &[&[0]], 50, non_sequential());
    assert_fails(
        vec![literal(&[0, 0, 0, 0, 0, 0, 0, 0, 1])],
        &[&[0]],
        50,
        non_sequential(),
    );
    assert_fails(
        vec![
            literal(&[0xff, 0xff, 0xff, 0xff, 0xff, 0xff, 0xff, 0xff, 0]),
            PatternKind::Otherwise,
        ],
        &[&[0], &[1]],
        50,
        non_sequential(),
    );
}

#[test]
fn a_pattern_of_another_kind_is_no_literal() {
    for kind in [PatternKind::Variable, PatternKind::StringLiteral, on(a(), None)] {
        assert_fails(
            vec![kind, PatternKind::Otherwise],
            &[&[0], &[1]],
            100,
            MatchDiagnostic::UnsupportedMatchArmNotALiteral,
        );
    }
}

fn empty_info() -> MatchInfo {
    MatchInfo::Extern(MatchExternInfo {
        function: FunctionId::Felt252IsZero,
        inputs: vec![usage(1)],
        arms: vec![],
        location: at(50),
    })
}

fn three_literals() -> Vec<PatternKind> {
    vec![literal(&[1]), literal(&[0]), literal(&[2]), PatternKind::Otherwise]
}

fn inner(ptr: usize) -> LoweringDiagnostic {
    LoweringDiagnostic { location: at(ptr), kind: LoweringDiagnosticKind::UnsupportedPattern }
}

// The test at `i` leads to the blocks `10 + i` and `20 + i`, its literal is the variable `30 + i`, the
// difference `40 + i`, and the variable where it does not hold `50 + i`.
fn emitted_test(i: usize, subtracts: bool) -> EmittedTest {
    let difference = if subtracts {
        Some(Difference { literal: usage(30 + i), result: usage(40 + i) })
    } else {
        None
    };
    EmittedTest {
        main_block: BlockId(10 + i),
        else_block: BlockId(20 + i),
        vars: Ok(TestVars { difference, else_var: VariableId(50 + i) }),
        diagnostics: vec![],
    }
}

// The code of the test at `i` of the number `input` in `block`.
fn test_code(i: usize, subtracts: bool, block: usize, input: VarUsage) -> TestCode {
    let subtraction = if subtracts {
        Some(EmittedCall {
            request: CallRequest {
                function: FunctionId::Felt252Sub,
                inputs: vec![input, usage(30 + i)],
                ret_ty: VarType::Felt252,
                location: at(50),
            },
            result: usage(40 + i),
        })
    } else {
        None
    };
    let lowered_arm = |arm_selector, block_id, var_ids| LoweredMatchArm {
        arm_selector,
        block_id,
        var_ids,
    };
    let info = MatchInfo::Extern(MatchExternInfo {
        function: FunctionId::Felt252IsZero,
        inputs: vec![if subtracts { usage(40 + i) } else { input }],
        arms: vec![
            lowered_arm(MatchArmSelector::Zero, BlockId(10 + i), vec![]),
            lowered_arm(MatchArmSelector::NonZero, BlockId(20 + i), vec![VariableId(50 + i)]),
        ],
        location: at(50),
    });
    TestCode { block: BlockId(block), subtraction, info }
}

fn builder(arm_index: usize, block: usize) -> MatchLeafBuilder {
    MatchLeafBuilder { arm_index, lowering_result: Ok(()), builder: BlockId(block) }
}

#[test]
fn a_literal_is_subtracted_from_the_number() {
    assert_eq!(
        felt252_sub_call(usage(1), usage(2), at(3)),
        CallRequest {
            function: FunctionId::Felt252Sub,
            inputs: vec![usage(1), usage(2)],
            ret_ty: VarType::Felt252,
            location: at(3),
        }
    );
    assert_eq!(
        upcast_call(TypeId(U8), usage(1), at(3)),
        CallRequest {
            function: FunctionId::UpcastToFelt252 { from: TypeId(U8) },
            inputs: vec![usage(1)],
            ret_ty: VarType::Felt252,
            location: at(3),
        }
    );
}

#[test]
fn few_arms_are_tested_one_after_the_other() {
    let mut ctx = context(three_literals());
    let expr = match_expr(&[&[0, 1], &[2], &[3]]);
    let lowered = lower_expr_match_value(&mut ctx, &expr, usage(1), TypeId(U8)).unwrap();
    let test = |arm_index, pattern, subtracts| Felt252Test {
        arm_index,
        pattern: PatternId(pattern),
        subtracts,
    };
    assert_eq!(
        lowered,
        ValueMatch {
            input: usage(1),
            location: at(50),
            empty_match_info: empty_info(),
            body: ValueMatchBody::IfElse {
                upcast: Some(CallRequest {
                    function: FunctionId::UpcastToFelt252 { from: TypeId(U8) },
                    inputs: vec![usage(1)],
                    ret_ty: VarType::Felt252,
                    location: at(50),
                }),
                tests: vec![test(0, 0, true), test(0, 1, false), test(1, 2, true)],
                else_var: VarRequest { ty: VarType::NonZeroFelt252, location: at(50) },
            },
        }
    );
    assert_eq!(ctx.diagnostics, vec![]);

    let arms = wrap_arms(&expr.arms);
    let emitted = vec![emitted_test(0, true), emitted_test(1, false), emitted_test(2, true)];
    let concluded = conclude_if_else(
        &mut ctx,
        &expr,
        &lowered,
        &arms,
        BlockId(9),
        Some(usage(2)),
        emitted,
    )
    .unwrap();
    assert_eq!(ctx.diagnostics, vec![]);
    // Each test is of the converted number, in the block where the test before it does not hold.
    assert_eq!(
        concluded.code,
        vec![
            test_code(0, true, 9, usage(2)),
            test_code(1, false, 20, usage(2)),
            test_code(2, true, 21, usage(2)),
        ]
    );
    let single = |arm_index, block| ArmGroup {
        arm_index,
        end: ArmEnd::Single {
            block: BlockId(block),
            end: Ok(ArmBody::TailExpr(ExprId(0))),
        },
    };
    assert_eq!(
        concluded.groups,
        vec![
            ArmGroup {
                arm_index: 0,
                end: ArmEnd::Joined {
                    subscopes: vec![(BlockId(10), Ok(at(100))), (BlockId(11), Ok(at(100)))],
                    info: empty_info(),
                    location: at(50),
                    body: ArmBody::TailExpr(ExprId(0)),
                },
            },
            single(1, 12),
            single(2, 22),
        ]
    );
}

#[test]
fn the_tests_of_zero_and_one_lead_to_three_leaves() {
    let mut ctx = context(vec![literal(&[0]), literal(&[1]), PatternKind::Otherwise]);
    let expr = match_expr(&[&[0], &[1], &[2]]);
    let mut code = vec![];
    let mut builders = vec![];
    let emitted = vec![emitted_test(0, false), emitted_test(1, true)];
    let r = lower_expr_felt252_arm(
        &mut ctx,
        &expr,
        usage(1),
        BlockId(9),
        0,
        0,
        emitted,
        &mut code,
        &mut builders,
    );
    assert_eq!(r, Ok(()));
    assert_eq!(
        code,
        vec![test_code(0, false, 9, usage(1)), test_code(1, true, 20, usage(1))]
    );
    assert_eq!(builders, vec![builder(0, 10), builder(1, 11), builder(2, 21)]);
    assert_eq!(ctx.diagnostics, vec![]);
}

#[test]
fn a_literal_that_cannot_be_lowered_ends_the_tests() {
    let mut ctx = context(three_literals());
    let expr = match_expr(&[&[0, 1], &[2], &[3]]);
    let lowered = lower_expr_match_value(&mut ctx, &expr, usage(1), TypeId(FELT252)).unwrap();
    let ended = LoweringFlowError::Ended(6);
    let mut emitted = vec![emitted_test(0, true), emitted_test(1, false), emitted_test(2, true)];
    emitted[0].diagnostics = vec![inner(30)];
    emitted[2].diagnostics = vec![inner(31)];
    emitted[2].vars = Err(ended);
    let arms = wrap_arms(&expr.arms);
    let r = conclude_if_else(&mut ctx, &expr, &lowered, &arms, BlockId(9), None, emitted);
    assert_eq!(r, Err(ended));
    assert_eq!(ctx.diagnostics, vec![inner(30), inner(31)]);
}

#[test]
fn a_felt252_is_tested_as_it_is() {
    let mut ctx = context(three_literals());
    let expr = match_expr(&[&[0, 1], &[2], &[3]]);
    let lowered = lower_expr_match_value(&mut ctx, &expr, usage(1), TypeId(FELT252)).unwrap();
    assert!(matches!(lowered.body, ValueMatchBody::IfElse { upcast: None, .. }));
}

#[test]
fn many_arms_are_jumped_to() {
    let mut ctx = context(three_literals());
    // Four arms reach a threshold of four.
    ctx.semantic.db.numeric_match_optimization_min_arms_threshold =
        Some(Flag::NumericMatchOptimizationMinArmsThreshold(4));
    let expr = match_expr(&[&[0, 1], &[2], &[3]]);
    let lowered = lower_expr_match_value(&mut ctx, &expr, usage(1), TypeId(U8)).unwrap();
    assert_eq!(
        lowered,
        ValueMatch {
            input: usage(1),
            location: at(50),
            empty_match_info: empty_info(),
            body: ValueMatchBody::JumpTable {
                downcast: FunctionId::Downcast { from: TypeId(U8), max: 2 },
                in_range_var: VarRequest {
                    ty: VarType::BoundedInt { max: 2 },
                    location: at(50),
                },
                arm_indices: vec![0, 0, 1],
                value_var: VarRequest { ty: VarType::Unit, location: at(50) },
                otherwise_arm_index: 2,
            },
        }
    );
    let arms = wrap_arms(&expr.arms);
    let emitted = EmittedJumpTable {
        in_range_block: BlockId(20),
        in_range_var: VariableId(21),
        values: (0..3).map(|i| (BlockId(i), VariableId(30 + i))).collect(),
        otherwise_block: BlockId(3),
    };
    let concluded = conclude_jump_table(&ctx, &expr, &lowered, &arms, &emitted);
    let lowered_arm = |arm_selector, block, var_ids| LoweredMatchArm {
        arm_selector,
        block_id: BlockId(block),
        var_ids,
    };
    // The converted number is used where the number is.
    let table = MatchInfo::Value(MatchEnumValue {
        num_of_arms: 3,
        input: VarUsage { var_id: VariableId(21), location: at(91) },
        arms: (0..3)
            .map(|i| lowered_arm(MatchArmSelector::Value(i), i, vec![VariableId(30 + i)]))
            .collect(),
        location: at(50),
    });
    assert_eq!(concluded.inner_info, table);
    assert_eq!(
        concluded.info,
        MatchInfo::Extern(MatchExternInfo {
            function: FunctionId::Downcast { from: TypeId(U8), max: 2 },
            inputs: vec![usage(1)],
            arms: vec![
                lowered_arm(MatchArmSelector::OptionSome, 20, vec![VariableId(21)]),
                lowered_arm(MatchArmSelector::OptionNone, 3, vec![]),
            ],
            location: at(50),
        })
    );
    let single = |arm_index, block| ArmGroup {
        arm_index,
        end: ArmEnd::Single {
            block: BlockId(block),
            end: Ok(ArmBody::TailExpr(ExprId(0))),
        },
    };
    assert_eq!(
        concluded.groups,
        vec![
            ArmGroup {
                arm_index: 0,
                end: ArmEnd::Joined {
                    subscopes: vec![(BlockId(0), Ok(at(100))), (BlockId(1), Ok(at(100)))],
                    info: empty_info(),
                    location: at(50),
                    body: ArmBody::TailExpr(ExprId(0)),
                },
            },
            single(1, 2),
            single(2, 3),
        ]
    );
    assert_eq!(
        table.without_arms(),
        MatchInfo::Value(MatchEnumValue {
            num_of_arms: 3,
            input: VarUsage { var_id: VariableId(21), location: at(91) },
            arms: vec![],
            location: at(50),
        })
    );

    // Four arms do not reach a threshold of five.
    ctx.semantic.db.numeric_match_optimization_min_arms_threshold =
        Some(Flag::NumericMatchOptimizationMinArmsThreshold(5));
    let lowered = lower_expr_match_value(&mut ctx, &expr, usage(1), TypeId(U8)).unwrap();
    assert!(matches!(lowered.body, ValueMatchBody::IfElse { .. }));
    // Every number of arms reaches a threshold of zero.
    ctx.semantic.db.numeric_match_optimization_min_arms_threshold =
        Some(Flag::NumericMatchOptimizationMinArmsThreshold(0));
    let lowered = lower_expr_match_value(&mut ctx, &expr, usage(1), TypeId(U8)).unwrap();
    assert!(matches!(lowered.body, ValueMatchBody::JumpTable { .. }));
}

// The arm of `v`, where there are `n_arms` of them.
fn arm_of(ctx: &LoweringContext, body: &ValueMatchBody, n_arms: usize, v: u8) -> usize {
    match body {
        ValueMatchBody::IfElse { tests, .. } => tests
            .iter()
            .find(|test| {
                ctx.semantic.patterns[test.pattern.0].kind == literal(&[v])
            })
            .map(|test| test.arm_index)
            .unwrap_or(n_arms - 1),
        ValueMatchBody::JumpTable { arm_indices, otherwise_arm_index, .. } => {
            arm_indices.get(v as usize).copied().unwrap_or(*otherwise_arm_index)
        }
    }
}

#[test]
fn tests_and_a_jump_table_lead_to_the_same_arms() {
    let mut ctx = context(three_literals());
    // The literal beside the underscore leads to the last arm either way.
    let expr = match_expr(&[&[1], &[0], &[2, 3]]);
    let tests = lower_expr_match_value(&mut ctx, &expr, usage(1), TypeId(U8)).unwrap();
    ctx.semantic.db.numeric_match_optimization_min_arms_threshold =
        Some(Flag::NumericMatchOptimizationMinArmsThreshold(0));
    let table = lower_expr_match_value(&mut ctx, &expr, usage(1), TypeId(U8)).unwrap();
    for (v, arm_index) in [(0, 0), (1, 1), (2, 2), (3, 2), (9, 2)] {
        assert_eq!(arm_of(&ctx, &tests.body, 3, v), arm_index);
        assert_eq!(arm_of(&ctx, &table.body, 3, v), arm_index);
    }
}

#[test]
fn an_arm_without_patterns_is_never_reached() {
    let mut ctx = context(three_literals());
    let expr = match_expr(&[&[1], &[], &[0], &[2, 3]]);
    let tests = lower_expr_match_value(&mut ctx, &expr, usage(1), TypeId(U8)).unwrap();
    ctx.semantic.db.numeric_match_optimization_min_arms_threshold =
        Some(Flag::NumericMatchOptimizationMinArmsThreshold(0));
    let table = lower_expr_match_value(&mut ctx, &expr, usage(1), TypeId(U8)).unwrap();
    for (v, arm_index) in [(0, 0), (1, 2), (2, 3), (7, 3)] {
        assert_eq!(arm_of(&ctx, &tests.body, 4, v), arm_index);
        assert_eq!(arm_of(&ctx, &table.body, 4, v), arm_index);
    }
}

#[test]
fn a_jump_table_leads_what_is_not_listed_to_the_last_arm() {
    let mut ctx = context(three_literals());
    ctx.semantic.db.numeric_match_optimization_min_arms_threshold =
        Some(Flag::NumericMatchOptimizationMinArmsThreshold(0));
    // The last arm has no patterns.
    let expr = match_expr(&[&[1, 0], &[2, 3], &[]]);
    let table = lower_expr_match_value(&mut ctx, &expr, usage(1), TypeId(U8)).unwrap();
    for (v, arm_index) in [(0, 0), (1, 0), (2, 1), (3, 2), (9, 2)] {
        assert_eq!(arm_of(&ctx, &table.body, 3, v), arm_index);
    }
}

#[test]
fn a_single_arm_is_jumped_to_but_not_tested() {
    let mut ctx = context(vec![literal(&[0]), PatternKind::Otherwise]);
    let expr = match_expr(&[&[0, 1]]);
    let lowered = lower_expr_match_value(&mut ctx, &expr, usage(1), TypeId(FELT252)).unwrap();
    let arms = wrap_arms(&expr.arms);
    let mut emitted = vec![emitted_test(0, false)];
    emitted[0].diagnostics = vec![inner(30)];
    let r = conclude_if_else(&mut ctx, &expr, &lowered, &arms, BlockId(9), None, emitted);
    assert_eq!(r, Err(FAILED));
    // The pattern that is no literal is reported after the literals before it.
    assert_eq!(
        ctx.diagnostics,
        vec![
            inner(30),
            value_error(101, MatchDiagnostic::UnsupportedMatchArmNotALiteral),
        ]
    );
    ctx.semantic.db.numeric_match_optimization_min_arms_threshold =
        Some(Flag::NumericMatchOptimizationMinArmsThreshold(2));
    let lowered = lower_expr_match_value(&mut ctx, &expr, usage(1), TypeId(U8)).unwrap();
    assert!(matches!(lowered.body, ValueMatchBody::JumpTable { otherwise_arm_index: 0, .. }));
}

#[test]
fn past_the_last_pattern_comes_the_next_arm() {
    let expr = match_expr(&[&[0, 1], &[2], &[3]]);
    for (arm_index, pattern_index) in [(0, 2), (1, 0)] {
        let mut ctx = context(three_literals());
        let mut code = vec![];
        let mut builders = vec![builder(0, 5)];
        let r = lower_expr_felt252_arm(
            &mut ctx,
            &expr,
            usage(1),
            BlockId(9),
            arm_index,
            pattern_index,
            vec![emitted_test(0, true)],
            &mut code,
            &mut builders,
        );
        assert_eq!(r, Ok(()));
        assert_eq!(code, vec![test_code(0, true, 9, usage(1))]);
        assert_eq!(builders, vec![builder(0, 5), builder(1, 10), builder(2, 20)]);
        assert_eq!(ctx.diagnostics, vec![]);
    }
}

#[test]
fn tests_do_not_start_with_an_underscore() {
    let mut ctx = context(three_literals());
    let expr = match_expr(&[&[0, 1], &[2], &[3]]);
    let mut code = vec![];
    let mut builders = vec![];
    let r = lower_expr_felt252_arm(
        &mut ctx,
        &expr,
        usage(1),
        BlockId(9),
        2,
        0,
        vec![],
        &mut code,
        &mut builders,
    );
    assert_eq!(r, Err(FAILED));
    assert_eq!(code, vec![]);
    assert_eq!(builders, vec![]);
    assert_eq!(
        ctx.diagnostics,
        vec![value_error(103, MatchDiagnostic::UnsupportedMatchArmNotALiteral)]
    );
}

#[test]
fn tests_end_before_the_last_arm() {
    let mut ctx = context(vec![literal(&[0]), literal(&[1])]);
    let expr = match_expr(&[&[0], &[1]]);
    let mut code = vec![];
    let mut builders = vec![];
    let r = lower_expr_felt252_arm(
        &mut ctx,
        &expr,
        usage(1),
        BlockId(9),
        0,
        0,
        vec![emitted_test(0, false)],
        &mut code,
        &mut builders,
    );
    assert_eq!(r, Ok(()));
    assert_eq!(code, vec![test_code(0, false, 9, usage(1))]);
    assert_eq!(builders, vec![builder(0, 10), builder(1, 20)]);
    assert_eq!(ctx.diagnostics, vec![]);
}

#[test]
fn an_index_enum_has_an_arm_for_each_number() {
    assert_eq!(lower_expr_match_index_enum(&[].into_iter().collect()), Vec::<usize>::new());
    let map = [(1, 4), (0, 3), (2, 3)].into_iter().collect();
    assert_eq!(lower_expr_match_index_enum(&map), vec![3, 4, 3]);
}

#[test]
fn a_test_leads_to_its_block_or_brings_a_number_that_is_not_zero() {
    let lowered_arm = |arm_selector, block, vars: &[usize]| LoweredMatchArm {
        arm_selector,
        block_id: BlockId(block),
        var_ids: vars.iter().map(|var| VariableId(*var)).collect(),
    };
    assert_eq!(
        felt252_test_info(usage(1), at(50), BlockId(2), BlockId(3), VariableId(4)),
        MatchInfo::Extern(MatchExternInfo {
            function: FunctionId::Felt252IsZero,
            inputs: vec![usage(1)],
            arms: vec![
                lowered_arm(MatchArmSelector::Zero, 2, &[]),
                lowered_arm(MatchArmSelector::NonZero, 3, &[4]),
            ],
            location: at(50),
        })
    );
}

//! Matches on a number.
use std::collections::HashMap;

use vstd::prelude::*;
use vstd::std_specs::hash::group_hash_axioms;

use crate::adapters::{to_usize, zip_eq};
use crate::context::{failed, LoweringContext, LoweringFlowError, LoweringResult};
use crate::diagnostic::{
    location_of, match_error_at, LocationId, LoweringDiagnostic, MatchDiagnostic, MatchKind, Report,
};
use crate::lowered::{
    BlockId, CallRequest, EmittedCall, FunctionId, LoweredMatchArm, MatchArmSelector,
    MatchEnumValue, MatchExternInfo, MatchInfo, VarRequest, VarType, VarUsage, VariableId,
};
use crate::match_arms::{arms_wf, MatchArmWrapper};
use crate::match_groups::{are_groups, group_match_arms, ArmGroup, MatchLeafBuilder};
use crate::semantic::{
    ExprMatch, Flag, MatchArm, PatternId, PatternKind, SemanticModel, TypeId,
};
use crate::syntax::SyntaxStablePtrId;

verus! {

/// The threshold for the number of arms from which on a jump table is used.
pub open spec fn threshold(m: &SemanticModel, is_small_type: bool) -> usize {
    match m.db.numeric_match_optimization_min_arms_threshold {
        Some(Flag::NumericMatchOptimizationMinArmsThreshold(threshold)) => threshold,
        _ => if is_small_type {
            8
        } else {
            10
        },
    }
}

/// Returns the threshold for the number of arms for optimising numeric match expressions, by using
/// a jump table instead of an if-else construct.
/// `is_small_type` means the matched type has < 2**128 possible values.
pub fn numeric_match_optimization_threshold(ctx: &LoweringContext, is_small_type: bool) -> (r:
    usize)
    requires
        // The flag is of its own type.
        ctx.semantic.db.numeric_match_optimization_min_arms_threshold != Some(Flag::Other),
    ensures
        r == threshold(&ctx.semantic, is_small_type),
{
    // For felt252 the number of steps with if-else is 2 * min(n, number_of_arms) + 2 and 11~13 for
    // jump table for small_types the number of steps with if-else is 2 * min(n, number_of_arms) + 4
    // and 9~12 for jump table.
    let default_threshold: usize = if is_small_type {
        8
    } else {
        10
    };
    match ctx.semantic.db.numeric_match_optimization_min_arms_threshold {
        Some(Flag::NumericMatchOptimizationMinArmsThreshold(threshold)) => threshold,
        _ => default_threshold,
    }
}

/// The patterns and expressions of a match expression exist.
pub open spec fn match_wf(m: &SemanticModel, expr: &ExprMatch) -> bool {
    &&& m.has_expr(expr.matched_expr)
    &&& forall|i: int|
        0 <= i < expr.arms@.len() ==> m.has_expr((#[trigger] expr.arms@[i]).expression)
    &&& forall|i: int, j: int|
        0 <= i < expr.arms@.len() && 0 <= j < expr.arms@[i].patterns@.len() ==> m.has_pattern(
            #[trigger] expr.arms@[i].patterns@[j],
        )
}

/// The patterns of the arms, in the order in which they are written, each with the index of its arm.
pub open spec fn value_patterns(arms: Seq<MatchArm>) -> Seq<(usize, PatternId)>
    decreases arms.len(),
{
    if arms.len() == 0 {
        seq![]
    } else {
        value_patterns(arms.drop_last()) + value_patterns_of_arm(
            arms.last(),
            (arms.len() - 1) as nat,
        )
    }
}

/// The patterns of the arm at `arm_index`.
pub open spec fn value_patterns_of_arm(arm: MatchArm, arm_index: nat) -> Seq<(usize, PatternId)> {
    arm.patterns@.map_values(|pattern: PatternId| (arm_index as usize, pattern))
}

/// What reading patterns on numbers finds.
pub struct ValueScan {
    /// The arm of each literal.
    pub literals_to_arm_map: Map<usize, usize>,
    /// Whether there was a `_`.
    pub otherwise_exist: bool,
    /// What is wrong with the patterns.
    pub error: Option<Report>,
}

/// A match error in a match expression.
pub open spec fn value_error(
    stable_ptr: SyntaxStablePtrId,
    error: MatchDiagnostic<Seq<char>>,
) -> Report {
    match_error_at(stable_ptr, MatchKind::Match, error)
}

/// What reading `pattern`, of the arm at `arm_index`, after `before` finds.
pub open spec fn scan_with(
    before: ValueScan,
    m: &SemanticModel,
    expr_ptr: SyntaxStablePtrId,
    arm_index: usize,
    pattern: PatternId,
) -> ValueScan {
    let ptr = m.pattern_ptr(pattern);
    if before.otherwise_exist {
        ValueScan { error: Some(value_error(ptr, MatchDiagnostic::UnreachableMatchArm)), ..before }
    } else {
        match m.kind(pattern) {
            PatternKind::Literal(literal) => {
                let value = literal.value();
                if !(0 <= value <= usize::MAX) {
                    ValueScan {
                        error: Some(
                            value_error(expr_ptr, MatchDiagnostic::UnsupportedMatchArmNonSequential),
                        ),
                        ..before
                    }
                } else if before.literals_to_arm_map.dom().contains(value as usize) {
                    ValueScan {
                        error: Some(value_error(ptr, MatchDiagnostic::UnreachableMatchArm)),
                        ..before
                    }
                } else {
                    ValueScan {
                        literals_to_arm_map: before.literals_to_arm_map.insert(
                            value as usize,
                            arm_index,
                        ),
                        ..before
                    }
                }
            },
            PatternKind::Otherwise => ValueScan { otherwise_exist: true, ..before },
            _ => ValueScan {
                error: Some(value_error(ptr, MatchDiagnostic::UnsupportedMatchArmNotALiteral)),
                ..before
            },
        }
    }
}

/// What reading `patterns` one after the other finds. It ends with the first error.
pub open spec fn scan(
    m: &SemanticModel,
    expr_ptr: SyntaxStablePtrId,
    patterns: Seq<(usize, PatternId)>,
) -> ValueScan
    decreases patterns.len(),
{
    if patterns.len() == 0 {
        ValueScan { literals_to_arm_map: Map::empty(), otherwise_exist: false, error: None }
    } else {
        let before = scan(m, expr_ptr, patterns.drop_last());
        if before.error is Some {
            before
        } else {
            scan_with(before, m, expr_ptr, patterns.last().0, patterns.last().1)
        }
    }
}

/// Whether the literals are the numbers from zero up to some number.
pub open spec fn is_sequential(literals_to_arm_map: Map<usize, usize>) -> bool {
    &&& literals_to_arm_map.dom().len() > 0
    &&& forall|value: usize| #[trigger]
        literals_to_arm_map.dom().contains(value) <==> value < literals_to_arm_map.dom().len()
}

/// What is wrong with the patterns of a match expression on a number.
pub open spec fn value_match_error(m: &SemanticModel, expr: &ExprMatch) -> Option<Report> {
    let scanned = scan(m, expr.stable_ptr, value_patterns(expr.arms@));
    if expr.arms@.len() == 0 {
        Some(value_error(expr.stable_ptr, MatchDiagnostic::NonExhaustiveMatchValue))
    } else if scanned.error is Some {
        scanned.error
    } else if !scanned.otherwise_exist {
        Some(value_error(expr.stable_ptr, MatchDiagnostic::NonExhaustiveMatchValue))
    } else if !is_sequential(scanned.literals_to_arm_map) {
        Some(value_error(expr.stable_ptr, MatchDiagnostic::UnsupportedMatchArmNonSequential))
    } else {
        None
    }
}

/// An error is final: what comes after it changes nothing.
pub(crate) proof fn lemma_error_is_final(
    m: &SemanticModel,
    expr_ptr: SyntaxStablePtrId,
    patterns: Seq<(usize, PatternId)>,
    more: Seq<(usize, PatternId)>,
)
    requires
        scan(m, expr_ptr, patterns).error is Some,
    ensures
        scan(m, expr_ptr, patterns + more) == scan(m, expr_ptr, patterns),
    decreases more.len(),
{
    if more.len() == 0 {
        assert(patterns + more =~= patterns);
    } else {
        lemma_error_is_final(m, expr_ptr, patterns, more.drop_last());
        assert((patterns + more).drop_last() =~= patterns + more.drop_last());
    }
}

/// The patterns of the first arms come first.
proof fn lemma_value_patterns(arms: Seq<MatchArm>, n: int) -> (more: Seq<(usize, PatternId)>)
    requires
        0 <= n <= arms.len(),
    ensures
        value_patterns(arms) == value_patterns(arms.take(n)) + more,
    decreases arms.len() - n,
{
    if n == arms.len() {
        assert(arms.take(n) =~= arms);
        assert(value_patterns(arms) + seq![] =~= value_patterns(arms));
        seq![]
    } else {
        let more = lemma_value_patterns(arms, n + 1);
        assert(arms.take(n + 1).drop_last() =~= arms.take(n));
        let of_arm = value_patterns_of_arm(arms[n], n as nat);
        assert(value_patterns(arms) =~= value_patterns(arms.take(n)) + (of_arm + more));
        of_arm + more
    }
}

/// The numbers below `n`.
pub(crate) open spec fn below(n: nat) -> Set<usize> {
    Set::new(|value: usize| value < n)
}

pub(crate) proof fn lemma_below(n: nat)
    requires
        n <= usize::MAX,
    ensures
        below(n).finite(),
        below(n).len() == n,
    decreases n,
{
    if n == 0 {
        assert(below(n) =~= Set::empty());
    } else {
        lemma_below((n - 1) as nat);
        assert(below(n) =~= below((n - 1) as nat).insert((n - 1) as usize));
    }
}

/// Literals up to a greatest one are sequential where there are as many as numbers up to it.
proof fn lemma_sequential(map: Map<usize, usize>, max: usize)
    requires
        map.dom().finite(),
        map.dom().len() <= usize::MAX,
        forall|value: usize| #[trigger] map.dom().contains(value) ==> value <= max,
        map.dom().len() > 0 ==> map.dom().contains(max),
        map.dom().len() == 0 ==> max == 0,
    ensures
        is_sequential(map) <==> max + 1 == map.dom().len(),
{
    let n = map.dom().len();
    if max + 1 == n {
        lemma_below(n);
        assert(map.dom().subset_of(below(n)));
        vstd::set_lib::lemma_subset_equality(map.dom(), below(n));
        assert forall|value: usize| #[trigger] map.dom().contains(value) <==> value < n by {
            assert(map.dom().contains(value) <==> below(n).contains(value));
        }
    }
    if is_sequential(map) {
        assert(map.dom().contains((n - 1) as usize));
    }
}

/// What reading the patterns of a match expression on a number finds, where nothing is wrong.
struct Literals {
    arm_of_literal: HashMap<usize, usize>,
    /// The greatest literal, or zero where there is none.
    max: usize,
    otherwise_exist: bool,
}

impl Literals {
    spec fn found(&self, scanned: ValueScan) -> bool {
        &&& scanned.error is None
        &&& self.arm_of_literal@ == scanned.literals_to_arm_map
        &&& self.otherwise_exist == scanned.otherwise_exist
        &&& forall|value: usize| #[trigger]
            self.arm_of_literal@.dom().contains(value) ==> value <= self.max
        &&& self.arm_of_literal@.dom().contains(self.max) || (self.arm_of_literal@.dom()
            =~= Set::empty() && self.max == 0)
    }

    /// Reads one more pattern.
    fn read_pattern(
        &mut self,
        ctx: &mut LoweringContext,
        expr_ptr: SyntaxStablePtrId,
        arm_index: usize,
        pattern: PatternId,
        Ghost(before): Ghost<ValueScan>,
    ) -> (r: LoweringResult<()>)
        requires
            old(ctx).semantic.has_pattern(pattern),
            old(self).found(before),
        ensures
            ({
                let after = scan_with(before, &old(ctx).semantic, expr_ptr, arm_index, pattern);
                match after.error {
                    Some(error) => r == failed::<()>() && old(ctx).reports(final(ctx), seq![error]),
                    None => {
                        &&& r == Ok::<(), LoweringFlowError>(())
                        &&& final(self).found(after)
                        &&& *final(ctx) == *old(ctx)
                    },
                }
            }),
    {
        broadcast use group_hash_axioms;

        let pattern_ptr = ctx.semantic.patterns[pattern.0].stable_ptr;
        if self.otherwise_exist {
            return Err(
                LoweringFlowError::Failed(
                    ctx.report_match_error(
                        pattern_ptr,
                        MatchKind::Match,
                        MatchDiagnostic::UnreachableMatchArm,
                    ),
                ),
            );
        }
        match &ctx.semantic.patterns[pattern.0].kind {
            PatternKind::Literal(literal) => {
                let value = match to_usize(literal) {
                    Some(value) => value,
                    None => {
                        return Err(
                            LoweringFlowError::Failed(
                                ctx.report_match_error(
                                    expr_ptr,
                                    MatchKind::Match,
                                    MatchDiagnostic::UnsupportedMatchArmNonSequential,
                                ),
                            ),
                        );
                    },
                };
                if self.arm_of_literal.insert(value, arm_index).is_some() {
                    return Err(
                        LoweringFlowError::Failed(
                            ctx.report_match_error(
                                pattern_ptr,
                                MatchKind::Match,
                                MatchDiagnostic::UnreachableMatchArm,
                            ),
                        ),
                    );
                }
                if value > self.max {
                    self.max = value;
                }
                Ok(())
            },
            PatternKind::Otherwise => {
                self.otherwise_exist = true;
                Ok(())
            },
            _ => Err(
                LoweringFlowError::Failed(
                    ctx.report_match_error(
                        pattern_ptr,
                        MatchKind::Match,
                        MatchDiagnostic::UnsupportedMatchArmNotALiteral,
                    ),
                ),
            ),
        }
    }
}

/// Reads the patterns of a match expression on a number.
fn read_literals(ctx: &mut LoweringContext, expr: &ExprMatch) -> (r: LoweringResult<Literals>)
    requires
        match_wf(&old(ctx).semantic, expr),
    ensures
        ({
            let scanned = scan(&old(ctx).semantic, expr.stable_ptr, value_patterns(expr.arms@));
            match scanned.error {
                Some(error) => {
                    &&& r is Err
                    &&& r->Err_0 == failed::<()>()->Err_0
                    &&& old(ctx).reports(final(ctx), seq![error])
                },
                None => r is Ok && r->Ok_0.found(scanned) && *final(ctx) == *old(ctx),
            }
        }),
{
    broadcast use group_hash_axioms;

    let ghost m = ctx.semantic;
    let ghost arms = expr.arms@;
    let mut literals = Literals {
        arm_of_literal: HashMap::new(),
        max: 0,
        otherwise_exist: false,
    };
    assert(arms.take(0) =~= seq![]);
    for arm_index in 0..expr.arms.len()
        invariant
            m == ctx.semantic,
            *ctx == *old(ctx),
            match_wf(&m, expr),
            arms == expr.arms@,
            literals.found(
                scan(&m, expr.stable_ptr, value_patterns(arms.take(arm_index as int))),
            ),
    {
        let arm = &expr.arms[arm_index];
        let ghost before = value_patterns(arms.take(arm_index as int));
        let ghost of_arm = value_patterns_of_arm(*arm, arm_index as nat);
        proof {
            assert(arms.take(arm_index + 1).drop_last() =~= arms.take(arm_index as int));
            assert(value_patterns(arms.take(arm_index + 1)) == before + of_arm);
            assert(before + of_arm.take(0) =~= before);
        }
        for pattern_index in 0..arm.patterns.len()
            invariant
                m == ctx.semantic,
                *ctx == *old(ctx),
                match_wf(&m, expr),
                arms == expr.arms@,
                arm_index < arms.len(),
                *arm == arms[arm_index as int],
                of_arm == value_patterns_of_arm(*arm, arm_index as nat),
                before + of_arm == value_patterns(arms.take(arm_index + 1)),
                literals.found(
                    scan(&m, expr.stable_ptr, before + of_arm.take(pattern_index as int)),
                ),
        {
            let pattern = arm.patterns[pattern_index];
            let ghost done = before + of_arm.take(pattern_index as int);
            let ghost next = before + of_arm.take(pattern_index + 1);
            proof {
                assert(m.has_pattern(expr.arms@[arm_index as int].patterns@[pattern_index as int]));
                assert(next.drop_last() =~= done);
                assert(next.last() == (arm_index, pattern));
            }
            let result = literals.read_pattern(
                ctx,
                expr.stable_ptr,
                arm_index,
                pattern,
                Ghost(scan(&m, expr.stable_ptr, done)),
            );
            if let Err(error) = result {
                proof {
                    let more = lemma_value_patterns(arms, arm_index + 1);
                    let after = of_arm.skip(pattern_index + 1) + more;
                    assert(value_patterns(arms) =~= next + after);
                    lemma_error_is_final(&m, expr.stable_ptr, next, after);
                }
                return Err(error);
            }
        }
        assert(of_arm.take(arm.patterns@.len() as int) =~= of_arm);
    }
    assert(arms.take(arms.len() as int) =~= arms);
    Ok(literals)
}

/// A test of an if-else construct: whether the number is the literal of a pattern.
#[derive(Clone, Copy, PartialEq, Eq, Debug)]
pub struct Felt252Test {
    /// The arm where it is.
    pub arm_index: usize,
    /// The pattern of the literal.
    pub pattern: PatternId,
    /// Whether the literal is subtracted from the number before it is compared with zero. The
    /// number itself is compared with zero for the literal zero.
    pub subtracts: bool,
}

/// The tests of an if-else construct, up to the first pattern that is no literal.
pub struct Felt252Chain {
    pub tests: Seq<Felt252Test>,
    pub not_a_literal: Option<PatternId>,
}

/// The tests from the pattern at `pattern_index` of the arm at `arm_index` on. They end with the
/// last pattern of the arm before the last: what is left goes to the last arm.
pub open spec fn felt252_chain(
    m: &SemanticModel,
    arms: Seq<MatchArm>,
    arm_index: nat,
    pattern_index: nat,
) -> Felt252Chain
    decreases arms.len() - arm_index, arms[arm_index as int].patterns@.len() - pattern_index,
{
    if arm_index >= arms.len() {
        Felt252Chain { tests: seq![], not_a_literal: None }
    } else {
        let patterns = arms[arm_index as int].patterns@;
        if pattern_index >= patterns.len() {
            felt252_chain(m, arms, arm_index + 1, 0)
        } else {
            let pattern = patterns[pattern_index as int];
            match m.kind(pattern) {
                PatternKind::Literal(literal) => {
                    let test = Felt252Test {
                        arm_index: arm_index as usize,
                        pattern,
                        subtracts: literal.value() != 0,
                    };
                    let rest = if pattern_index + 1 == patterns.len() && arm_index + 2
                        == arms.len() {
                        Felt252Chain { tests: seq![], not_a_literal: None }
                    } else {
                        felt252_chain(m, arms, arm_index, pattern_index + 1)
                    };
                    Felt252Chain { tests: seq![test] + rest.tests, ..rest }
                },
                _ => Felt252Chain { tests: seq![], not_a_literal: Some(pattern) },
            }
        }
    }
}

/// Whether the tests from the pattern at `pattern_index` of the arm at `arm_index` on end before the
/// patterns do: with the last pattern of the arm before the last, or with one that is no literal.
pub open spec fn chain_ends(
    m: &SemanticModel,
    arms: Seq<MatchArm>,
    arm_index: nat,
    pattern_index: nat,
) -> bool
    decreases arms.len() - arm_index, arms[arm_index as int].patterns@.len() - pattern_index,
{
    if arm_index >= arms.len() {
        false
    } else {
        let patterns = arms[arm_index as int].patterns@;
        if pattern_index >= patterns.len() {
            chain_ends(m, arms, arm_index + 1, 0)
        } else {
            ||| !(m.kind(patterns[pattern_index as int]) is Literal)
            ||| pattern_index + 1 == patterns.len() && arm_index + 2 == arms.len()
            ||| chain_ends(m, arms, arm_index, pattern_index + 1)
        }
    }
}

/// A pattern that is no literal ends the tests.
pub(crate) proof fn lemma_chain_ends(m: &SemanticModel, arms: Seq<MatchArm>, arm_index: nat, pattern_index: nat)
    requires
        has_other_from(m, arms, arm_index as int, pattern_index as int),
    ensures
        chain_ends(m, arms, arm_index, pattern_index),
    decreases arms.len() - arm_index, arms[arm_index as int].patterns@.len() - pattern_index,
{
    let (i, j) = choose|i: int, j: int|
        0 <= i < arms.len() && 0 <= j < arms[i].patterns@.len() && (i > arm_index || i == arm_index
            && j >= pattern_index) && !(m.kind(#[trigger] arms[i].patterns@[j]) is Literal);
    let patterns = arms[arm_index as int].patterns@;
    if pattern_index >= patterns.len() {
        assert(!(m.kind(arms[i].patterns@[j]) is Literal));
        lemma_chain_ends(m, arms, arm_index + 1, 0);
    } else if m.kind(patterns[pattern_index as int]) is Literal {
        assert(!(m.kind(arms[i].patterns@[j]) is Literal));
        lemma_chain_ends(m, arms, arm_index, pattern_index + 1);
    }
}

/// Whether some pattern from that at `pattern_index` of the arm at `arm_index` on is no literal.
pub open spec fn has_other_from(
    m: &SemanticModel,
    arms: Seq<MatchArm>,
    arm_index: int,
    pattern_index: int,
) -> bool {
    exists|i: int, j: int|
        0 <= i < arms.len() && 0 <= j < arms[i].patterns@.len() && (i > arm_index || i == arm_index
            && j >= pattern_index) && !(m.kind(#[trigger] arms[i].patterns@[j]) is Literal)
}

/// Adds the tests from the pattern at `pattern_index` of the arm at `arm_index` on.
fn collect_felt252_tests(
    m: &SemanticModel,
    expr: &ExprMatch,
    arm_index: usize,
    pattern_index: usize,
    tests: &mut Vec<Felt252Test>,
)
    requires
        match_wf(m, expr),
        arm_index < expr.arms@.len(),
        pattern_index <= expr.arms@[arm_index as int].patterns@.len(),
        chain_ends(m, expr.arms@, arm_index as nat, pattern_index as nat),
    ensures
        final(tests)@ == old(tests)@ + felt252_chain(
            m,
            expr.arms@,
            arm_index as nat,
            pattern_index as nat,
        ).tests,
    decreases
            expr.arms@.len() - arm_index,
            expr.arms@[arm_index as int].patterns@.len() - pattern_index,
{
    let arm = &expr.arms[arm_index];
    if pattern_index == arm.patterns.len() {
        assert(arm_index < expr.arms.len());
        assert(chain_ends(m, expr.arms@, (arm_index + 1) as nat, 0));
        collect_felt252_tests(m, expr, arm_index + 1, 0, tests);
        return ;
    }
    let pattern = arm.patterns[pattern_index];
    assert(m.has_pattern(expr.arms@[arm_index as int].patterns@[pattern_index as int]));
    if let PatternKind::Literal(literal) = &m.patterns[pattern.0].kind {
        let subtracts = to_usize(literal) != Some(0);
        tests.push(Felt252Test { arm_index, pattern, subtracts });
        assert(pattern_index < arm.patterns.len());
        if !(pattern_index + 1 == arm.patterns.len() && expr.arms.len() - arm_index == 2) {
            collect_felt252_tests(m, expr, arm_index, pattern_index + 1, tests);
        }
    }
}

/// The subtraction of a literal from the matched number.
pub fn felt252_sub_call(input: VarUsage, literal: VarUsage, location: LocationId) -> (r: CallRequest)
    ensures
        r.function == FunctionId::Felt252Sub,
        r.inputs@ == seq![input, literal],
        r.ret_ty == VarType::Felt252,
        r.location == location,
{
    let mut inputs: Vec<VarUsage> = Vec::new();
    inputs.push(input);
    inputs.push(literal);
    assert(inputs@ =~= seq![input, literal]);
    CallRequest { function: FunctionId::Felt252Sub, inputs, ret_ty: VarType::Felt252, location }
}

/// The conversion of a matched number of the type `from` to felt252.
pub fn upcast_call(from: TypeId, input: VarUsage, location: LocationId) -> (r: CallRequest)
    ensures
        r.function == (FunctionId::UpcastToFelt252 { from }),
        r.inputs@ == seq![input],
        r.ret_ty == VarType::Felt252,
        r.location == location,
{
    let mut inputs: Vec<VarUsage> = Vec::new();
    inputs.push(input);
    assert(inputs@ =~= seq![input]);
    CallRequest {
        function: FunctionId::UpcastToFelt252 { from },
        inputs,
        ret_ty: VarType::Felt252,
        location,
    }
}

/// The lowered literal of a test, and what its subtraction from the number brought.
#[derive(Clone, Copy, PartialEq, Eq, Debug)]
pub struct Difference {
    pub literal: VarUsage,
    pub result: VarUsage,
}

/// The variables of a test.
#[derive(Clone, Copy, PartialEq, Eq, Debug)]
pub struct TestVars {
    /// Where the literal is subtracted: the difference.
    pub difference: Option<Difference>,
    /// The variable that the test brings where it does not hold.
    pub else_var: VariableId,
}

/// A test after its blocks and variables were made.
#[derive(PartialEq, Eq, Debug)]
pub struct EmittedTest {
    /// The block where the test holds.
    pub main_block: BlockId,
    /// The block where it does not.
    pub else_block: BlockId,
    /// The variables, or why the literal could not be lowered.
    pub vars: LoweringResult<TestVars>,
    /// What was reported while the literal was lowered.
    pub diagnostics: Vec<LoweringDiagnostic>,
}

/// There are blocks and variables for `tests`, up to the first one whose literal could not be lowered,
/// and differences for those that subtract.
pub open spec fn emission_fits(tests: Seq<Felt252Test>, emitted: Seq<EmittedTest>) -> bool {
    &&& emitted.len() <= tests.len()
    &&& emitted.len() < tests.len() ==> emitted.len() > 0 && emitted.last().vars is Err
    &&& forall|i: int|
        0 <= i < emitted.len() ==> match (#[trigger] emitted[i]).vars {
            Ok(vars) => vars.difference is Some <==> tests[i].subtracts,
            Err(_) => i == emitted.len() - 1 && tests[i].subtracts,
        }
}

/// What was reported while the literals were lowered.
pub open spec fn emission_reports(emitted: Seq<EmittedTest>) -> Seq<Report>
    decreases emitted.len(),
{
    if emitted.len() == 0 {
        seq![]
    } else {
        emitted[0].diagnostics@.map_values(|d: LoweringDiagnostic| d@) + emission_reports(
            emitted.drop_first(),
        )
    }
}

/// Why the last literal could not be lowered.
pub open spec fn literal_error(emitted: Seq<EmittedTest>) -> Option<LoweringFlowError> {
    if emitted.len() > 0 && emitted.last().vars is Err {
        Some(emitted.last().vars->Err_0)
    } else {
        None
    }
}

/// The tests whose literals could be lowered.
pub open spec fn tests_made(emitted: Seq<EmittedTest>) -> Seq<EmittedTest> {
    if literal_error(emitted) is Some {
        emitted.drop_last()
    } else {
        emitted
    }
}

/// The code of a test: what is emitted in its block.
#[derive(PartialEq, Eq, Debug)]
pub struct TestCode {
    /// The block.
    pub block: BlockId,
    /// The subtraction of the literal from the number, where there is one.
    pub subtraction: Option<EmittedCall>,
    /// The match that the block ends with.
    pub info: MatchInfo,
}

impl TestCode {
    /// The code is that of the test `emitted` of the number `match_input` in `block`: the number, or
    /// its difference with the literal, is compared with zero.
    pub open spec fn compares(
        &self,
        block: BlockId,
        match_input: VarUsage,
        location: LocationId,
        emitted: EmittedTest,
    ) -> bool {
        let vars = emitted.vars->Ok_0;
        &&& self.block == block
        &&& match vars.difference {
            None => {
                &&& self.subtraction is None
                &&& is_felt252_test(
                    self.info,
                    match_input,
                    location,
                    emitted.main_block,
                    emitted.else_block,
                    vars.else_var,
                )
            },
            Some(difference) => {
                &&& self.subtraction matches Some(call)
                &&& call.request.calls(
                    FunctionId::Felt252Sub,
                    seq![match_input, difference.literal],
                    VarType::Felt252,
                    location,
                )
                &&& call.result == difference.result
                &&& is_felt252_test(
                    self.info,
                    difference.result,
                    location,
                    emitted.main_block,
                    emitted.else_block,
                    vars.else_var,
                )
            },
        }
    }
}

/// The block of the test at `i`: the first is in `block`, and each other where the test before it does
/// not hold.
pub open spec fn block_of_test(block: BlockId, emitted: Seq<EmittedTest>, i: int) -> BlockId {
    if i == 0 {
        block
    } else {
        emitted[i - 1].else_block
    }
}

/// `code` is the code of the tests, one for each, each in the block where the test before it does not
/// hold. All of them are of the number `match_input`.
pub open spec fn is_if_else_code(
    code: Seq<TestCode>,
    block: BlockId,
    match_input: VarUsage,
    location: LocationId,
    emitted: Seq<EmittedTest>,
) -> bool {
    &&& code.len() == emitted.len()
    &&& forall|i: int|
        0 <= i < code.len() ==> (#[trigger] code[i]).compares(
            block_of_test(block, emitted, i),
            match_input,
            location,
            emitted[i],
        )
}

/// The leaves of tests: the block where each holds is one of its arm.
pub open spec fn test_leaves(tests: Seq<Felt252Test>, emitted: Seq<EmittedTest>) -> Seq<
    MatchLeafBuilder,
> {
    Seq::new(
        emitted.len(),
        |i: int|
            MatchLeafBuilder {
                arm_index: tests[i].arm_index,
                lowering_result: Ok(()),
                builder: emitted[i].main_block,
            },
    )
}

/// The leaves of an if-else construct: those of the tests, and the block where the last test does not
/// hold, which is one of the last arm.
pub open spec fn if_else_leaves(
    n_arms: nat,
    tests: Seq<Felt252Test>,
    emitted: Seq<EmittedTest>,
) -> Seq<MatchLeafBuilder> {
    test_leaves(tests, emitted).push(
        MatchLeafBuilder {
            arm_index: (n_arms - 1) as usize,
            lowering_result: Ok(()),
            builder: emitted.last().else_block,
        },
    )
}

/// How lowering the tests of `chain` ends: with the error of a literal that could not be lowered, with
/// a report of the pattern that is no literal, or well.
pub open spec fn if_else_end(
    before: LoweringContext,
    after: LoweringContext,
    chain: Felt252Chain,
    emitted: Seq<EmittedTest>,
    r: LoweringResult<()>,
) -> bool {
    match (literal_error(emitted), chain.not_a_literal) {
        (Some(error), _) => {
            &&& r == Err::<(), _>(error)
            &&& before.reports(&after, emission_reports(emitted))
        },
        (None, Some(pattern)) => {
            &&& r == failed::<()>()
            &&& before.reports(
                &after,
                emission_reports(emitted) + seq![
                    value_error(
                        before.semantic.pattern_ptr(pattern),
                        MatchDiagnostic::UnsupportedMatchArmNotALiteral,
                    ),
                ],
            )
        },
        (None, None) => {
            &&& r == Ok::<(), LoweringFlowError>(())
            &&& before.reports(&after, emission_reports(emitted))
        },
    }
}

/// What lowering the arms from the pattern at `pattern_index` of the arm at `arm_index` on, in
/// `block`, leaves behind. `code` and `leaves` are before and after.
pub open spec fn felt252_arm_outcome(
    before: LoweringContext,
    after: LoweringContext,
    expr: ExprMatch,
    match_input: VarUsage,
    block: BlockId,
    arm_index: nat,
    pattern_index: nat,
    emitted: Seq<EmittedTest>,
    code: (Seq<TestCode>, Seq<TestCode>),
    leaves: (Seq<MatchLeafBuilder>, Seq<MatchLeafBuilder>),
    r: LoweringResult<()>,
) -> bool {
    let chain = felt252_chain(&before.semantic, expr.arms@, arm_index, pattern_index);
    let made = tests_made(emitted);
    &&& if_else_end(before, after, chain, emitted, r)
    &&& code.1.len() == code.0.len() + made.len()
    &&& code.1.take(code.0.len() as int) == code.0
    &&& is_if_else_code(
        code.1.skip(code.0.len() as int),
        block,
        match_input,
        location_of(expr.stable_ptr),
        made,
    )
    &&& leaves.1 == leaves.0 + (if r is Ok {
        if_else_leaves(expr.arms@.len(), chain.tests, made)
    } else {
        test_leaves(chain.tests, made)
    })
}

/// Lowers the MatchArm of an expression of type ExprMatch where the matched expression is a
/// felt252.
///
/// `match_input` is the matched number, and `block` the block of the first test. `emitted` are the
/// tests from that at `pattern_index` of the arm at `arm_index` on, with their blocks and variables.
/// The code of the tests is added to `code`, and their leaves to `branches_block_builders`.
pub fn lower_expr_felt252_arm(
    ctx: &mut LoweringContext,
    expr: &ExprMatch,
    match_input: VarUsage,
    block: BlockId,
    arm_index: usize,
    pattern_index: usize,
    emitted: Vec<EmittedTest>,
    code: &mut Vec<TestCode>,
    branches_block_builders: &mut Vec<MatchLeafBuilder>,
) -> (r: LoweringResult<()>)
    requires
        match_wf(&old(ctx).semantic, expr),
        arm_index < expr.arms@.len(),
        pattern_index <= expr.arms@[arm_index as int].patterns@.len(),
        chain_ends(&old(ctx).semantic, expr.arms@, arm_index as nat, pattern_index as nat),
        emission_fits(
            felt252_chain(
                &old(ctx).semantic,
                expr.arms@,
                arm_index as nat,
                pattern_index as nat,
            ).tests,
            emitted@,
        ),
    ensures
        felt252_arm_outcome(
            *old(ctx),
            *final(ctx),
            *expr,
            match_input,
            block,
            arm_index as nat,
            pattern_index as nat,
            emitted@,
            (old(code)@, final(code)@),
            (old(branches_block_builders)@, final(branches_block_builders)@),
            r,
        ),
    decreases
            expr.arms@.len() - arm_index,
            expr.arms@[arm_index as int].patterns@.len() - pattern_index,
{
    let ghost m = ctx.semantic;
    let ghost chain = felt252_chain(&m, expr.arms@, arm_index as nat, pattern_index as nat);
    let ghost code_before = code@;
    let ghost leaves_before = branches_block_builders@;
    let arm = &expr.arms[arm_index];
    if pattern_index == arm.patterns.len() {
        assert(arm_index < expr.arms.len());
        assert(chain_ends(&m, expr.arms@, (arm_index + 1) as nat, 0));
        return lower_expr_felt252_arm(
            ctx,
            expr,
            match_input,
            block,
            arm_index + 1,
            0,
            emitted,
            code,
            branches_block_builders,
        );
    }
    let location = LoweringContext::get_location(expr.stable_ptr);
    let pattern = arm.patterns[pattern_index];
    assert(m.has_pattern(expr.arms@[arm_index as int].patterns@[pattern_index as int]));
    match &ctx.semantic.patterns[pattern.0].kind {
        PatternKind::Literal(_) => {},
        _ => {
            let pattern_ptr = ctx.semantic.patterns[pattern.0].stable_ptr;
            let reported = ctx.report_match_error(
                pattern_ptr,
                MatchKind::Match,
                MatchDiagnostic::UnsupportedMatchArmNotALiteral,
            );
            proof {
                assert(emitted@ =~= seq![]);
                assert(emission_reports(emitted@) =~= seq![]);
                assert(test_leaves(chain.tests, emitted@) =~= seq![]);
                assert(code@.take(code_before.len() as int) =~= code_before);
            }
            return Err(LoweringFlowError::Failed(reported));
        },
    }
    let ghost rest = emitted@.drop_first();
    proof {
        assert(chain.tests.len() > 0 && chain.tests[0].pattern == pattern);
        assert(emitted@.len() > 0);
        assert(emitted@ =~= seq![emitted@[0]] + rest);
    }
    let mut next = emitted;
    let test = next.remove(0);
    assert(next@ =~= rest);
    ctx.add_diagnostics(test.diagnostics);
    let vars = match test.vars {
        Ok(vars) => vars,
        Err(error) => {
            proof {
                assert(emitted@.len() == 1);
                assert(rest =~= seq![]);
                assert(emission_reports(rest) =~= seq![]);
                assert(emitted@.last() == emitted@[0]);
                assert(tests_made(emitted@) =~= seq![]);
                assert(test_leaves(chain.tests, tests_made(emitted@)) =~= seq![]);
                assert(code@.take(code_before.len() as int) =~= code_before);
            }
            return Err(error);
        },
    };
    let (subtraction, if_input) = match vars.difference {
        None => (None, match_input),
        Some(difference) => {
            let request = felt252_sub_call(match_input, difference.literal, location);
            (Some(EmittedCall { request, result: difference.result }), difference.result)
        },
    };
    let info = felt252_test_info(
        if_input,
        location,
        test.main_block,
        test.else_block,
        vars.else_var,
    );
    code.push(TestCode { block, subtraction, info });
    branches_block_builders.push(
        MatchLeafBuilder { arm_index, lowering_result: Ok(()), builder: test.main_block },
    );
    let ghost first_code = code@[code_before.len() as int];
    assert(first_code.compares(block, match_input, location, emitted@[0]));
    let ghost leaves_mid = branches_block_builders@;
    assert(pattern_index < arm.patterns.len());
    if pattern_index + 1 == arm.patterns.len() && expr.arms.len() - arm_index == 2 {
        branches_block_builders.push(
            MatchLeafBuilder {
                arm_index: arm_index + 1,
                lowering_result: Ok(()),
                builder: test.else_block,
            },
        );
        proof {
            assert(chain.tests.len() == 1);
            assert(rest =~= seq![]);
            assert(emission_reports(rest) =~= seq![]);
            assert(emitted@.last() == emitted@[0]);
            assert(code@.take(code_before.len() as int) =~= code_before);
            assert(code@.skip(code_before.len() as int) =~= seq![first_code]);
            assert(branches_block_builders@ =~= leaves_before + if_else_leaves(
                expr.arms@.len(),
                chain.tests,
                emitted@,
            ));
        }
        return Ok(());
    }
    let ghost next_chain = felt252_chain(
        &m,
        expr.arms@,
        arm_index as nat,
        (pattern_index + 1) as nat,
    );
    proof {
        assert(chain.tests =~= seq![chain.tests[0]] + next_chain.tests);
        assert(rest.len() > 0 ==> rest.last() == emitted@.last());
        assert forall|i: int| 0 <= i < rest.len() implies match (#[trigger] rest[i]).vars {
            Ok(vars) => vars.difference is Some <==> next_chain.tests[i].subtracts,
            Err(_) => i == rest.len() - 1 && next_chain.tests[i].subtracts,
        } by {
            assert(rest[i] == emitted@[i + 1]);
            assert(next_chain.tests[i] == chain.tests[i + 1]);
        }
    }
    let r = lower_expr_felt252_arm(
        ctx,
        expr,
        match_input,
        test.else_block,
        arm_index,
        pattern_index + 1,
        next,
        code,
        branches_block_builders,
    );
    proof {
        assert(chain.not_a_literal == next_chain.not_a_literal);
        assert(literal_error(emitted@) == literal_error(rest));
        lemma_more_tests(
            chain.tests,
            emitted@,
            block,
            match_input,
            location,
            code_before,
            first_code,
            code@,
        );
        assert(tests_made(emitted@) =~= seq![emitted@[0]] + tests_made(rest));
        assert(test_leaves(chain.tests, tests_made(emitted@)) =~= seq![leaves_mid.last()]
            + test_leaves(next_chain.tests, tests_made(rest)));
        if r is Ok {
            assert(tests_made(rest) == rest);
            lemma_chain_has_a_test(
                &m,
                expr.arms@,
                arm_index as nat,
                (pattern_index + 1) as nat,
            );
            assert(branches_block_builders@ =~= leaves_before + if_else_leaves(
                expr.arms@.len(),
                chain.tests,
                emitted@,
            ));
        } else {
            assert(branches_block_builders@ =~= leaves_before + test_leaves(
                chain.tests,
                tests_made(emitted@),
            ));
        }
    }
    r
}

/// Tests that end with the last pattern of the arm before the last are not empty.
pub(crate) proof fn lemma_chain_has_a_test(
    m: &SemanticModel,
    arms: Seq<MatchArm>,
    arm_index: nat,
    pattern_index: nat,
)
    requires
        chain_ends(m, arms, arm_index, pattern_index),
        felt252_chain(m, arms, arm_index, pattern_index).not_a_literal is None,
    ensures
        felt252_chain(m, arms, arm_index, pattern_index).tests.len() > 0,
    decreases arms.len() - arm_index, arms[arm_index as int].patterns@.len() - pattern_index,
{
    if pattern_index >= arms[arm_index as int].patterns@.len() {
        lemma_chain_has_a_test(m, arms, arm_index + 1, 0);
    }
}

/// The code of a test, followed by that of the tests after it.
proof fn lemma_more_tests(
    tests: Seq<Felt252Test>,
    emitted: Seq<EmittedTest>,
    block: BlockId,
    match_input: VarUsage,
    location: LocationId,
    before: Seq<TestCode>,
    first: TestCode,
    after: Seq<TestCode>,
)
    requires
        emission_fits(tests, emitted),
        emitted.len() > 0,
        emitted[0].vars is Ok,
        first.compares(block, match_input, location, emitted[0]),
        after.len() == before.len() + 1 + tests_made(emitted.drop_first()).len(),
        after.take(before.len() as int + 1) == before.push(first),
        is_if_else_code(
            after.skip(before.len() as int + 1),
            emitted[0].else_block,
            match_input,
            location,
            tests_made(emitted.drop_first()),
        ),
    ensures
        after.len() == before.len() + tests_made(emitted).len(),
        after.take(before.len() as int) == before,
        is_if_else_code(
            after.skip(before.len() as int),
            block,
            match_input,
            location,
            tests_made(emitted),
        ),
{
    let rest = emitted.drop_first();
    let made = tests_made(emitted);
    let n = before.len() as int;
    let longer = before.push(first);
    assert(made =~= seq![emitted[0]] + tests_made(rest));
    assert(after.take(n) =~= before) by {
        assert forall|i: int| 0 <= i < n implies after[i] == before[i] by {
            assert(after.take(n + 1)[i] == longer[i]);
        }
    }
    assert(after[n] == first) by {
        assert(after.take(n + 1)[n] == longer[n]);
    }
    let code = after.skip(n);
    let next = after.skip(n + 1);
    assert forall|i: int| 0 <= i < code.len() implies (#[trigger] code[i]).compares(
        block_of_test(block, made, i),
        match_input,
        location,
        made[i],
    ) by {
        if i > 0 {
            assert(code[i] == next[i - 1]);
            assert(made[i] == tests_made(rest)[i - 1]);
            assert(block_of_test(block, made, i) == block_of_test(
                emitted[0].else_block,
                tests_made(rest),
                i - 1,
            ));
        }
    }
}

/// Past the last pattern of an arm, lowering goes on with the first pattern of the next arm: it asks
/// for the same, and leaves the same behind.
pub proof fn law_past_the_last_pattern_comes_the_next_arm(
    before: LoweringContext,
    after: LoweringContext,
    expr: ExprMatch,
    match_input: VarUsage,
    block: BlockId,
    arm_index: nat,
    emitted: Seq<EmittedTest>,
    code: (Seq<TestCode>, Seq<TestCode>),
    leaves: (Seq<MatchLeafBuilder>, Seq<MatchLeafBuilder>),
    r: LoweringResult<()>,
)
    requires
        arm_index + 1 < expr.arms@.len(),
    ensures
        ({
            let m = &before.semantic;
            let arms = expr.arms@;
            let end = arms[arm_index as int].patterns@.len();
            &&& chain_ends(m, arms, arm_index, end) == chain_ends(m, arms, arm_index + 1, 0)
            &&& felt252_chain(m, arms, arm_index, end) == felt252_chain(m, arms, arm_index + 1, 0)
            &&& felt252_arm_outcome(
                before,
                after,
                expr,
                match_input,
                block,
                arm_index,
                end,
                emitted,
                code,
                leaves,
                r,
            ) == felt252_arm_outcome(
                before,
                after,
                expr,
                match_input,
                block,
                arm_index + 1,
                0,
                emitted,
                code,
                leaves,
                r,
            )
        }),
{
}

/// Lowers an expression of type ExprMatch where the matched expression is a felt252, using an index
/// enum: the arm of each value, from zero on. Each value leads to a block of its own.
pub fn lower_expr_match_index_enum(literals_to_arm_map: &HashMap<usize, usize>) -> (r: Vec<usize>)
    requires
        forall|value: usize|
            value < literals_to_arm_map@.dom().len()
                ==> #[trigger] literals_to_arm_map@.dom().contains(value),
    ensures
        r@.len() == literals_to_arm_map@.dom().len(),
        forall|value: usize|
            value < r@.len() ==> #[trigger] r@[value as int] == literals_to_arm_map@[value],
{
    broadcast use group_hash_axioms;

    let mut arm_indices: Vec<usize> = Vec::new();
    for index in 0..literals_to_arm_map.len()
        invariant
            forall|value: usize|
                value < literals_to_arm_map@.dom().len()
                    ==> #[trigger] literals_to_arm_map@.dom().contains(value),
            arm_indices@.len() == index,
            forall|value: usize|
                value < index ==> #[trigger] arm_indices@[value as int]
                    == literals_to_arm_map@[value],
    {
        assert(literals_to_arm_map@.dom().contains(index));
        if let Some(arm_index) = literals_to_arm_map.get(&index) {
            arm_indices.push(*arm_index);
        }
    }
    arm_indices
}

/// How a match on a number is lowered.
#[derive(PartialEq, Eq, Debug)]
pub enum ValueMatchBody {
    /// The number is compared with one literal after the other.
    IfElse {
        /// The conversion of the number to felt252, where it is none.
        upcast: Option<CallRequest>,
        tests: Vec<Felt252Test>,
        /// The variable that each test brings where it does not hold: the difference.
        else_var: VarRequest,
    },
    /// The number is converted to the numbers up to the greatest literal, and the converted number
    /// is jumped by.
    JumpTable {
        downcast: FunctionId,
        /// The variable of the converted number.
        in_range_var: VarRequest,
        /// The arm of each number, from zero on.
        arm_indices: Vec<usize>,
        /// The variable that each of them brings.
        value_var: VarRequest,
        /// The arm where the number cannot be converted.
        otherwise_arm_index: usize,
    },
}

/// A match on a number.
#[derive(PartialEq, Eq, Debug)]
pub struct ValueMatch {
    /// The matched number.
    pub input: VarUsage,
    pub location: LocationId,
    /// The match that joined blocks are merged with: a comparison with zero, without arms.
    pub empty_match_info: MatchInfo,
    pub body: ValueMatchBody,
}

impl ValueMatch {
    /// The tests are those of `expr`, and the numbers of a jump table lead into its arms.
    pub open spec fn wf(&self, m: &SemanticModel, expr: &ExprMatch) -> bool {
        &&& self.location == location_of(expr.stable_ptr)
        &&& expr.arms@.len() > 0
        &&& match self.body {
            ValueMatchBody::IfElse { tests, .. } => {
                &&& chain_ends(m, expr.arms@, 0, 0)
                &&& tests@ == felt252_chain(m, expr.arms@, 0, 0).tests
            },
            ValueMatchBody::JumpTable { arm_indices, otherwise_arm_index, .. } => {
                &&& forall|i: int|
                    0 <= i < arm_indices@.len() ==> (#[trigger] arm_indices@[i]) < expr.arms@.len()
                &&& otherwise_arm_index < expr.arms@.len()
            },
        }
    }
}

/// What lowering a match on a number leaves behind: tests for few arms, or else a jump table.
pub open spec fn value_match_outcome(
    before: LoweringContext,
    after: LoweringContext,
    expr: ExprMatch,
    match_input: VarUsage,
    ty: TypeId,
    r: LoweringResult<ValueMatch>,
) -> bool {
    let m = &before.semantic;
    let scanned = scan(m, expr.stable_ptr, value_patterns(expr.arms@));
    let n_literals = scanned.literals_to_arm_map.dom().len();
    let is_small_type = ty != m.db.felt252;
    let chain = felt252_chain(m, expr.arms@, 0, 0);
    let is_if_else = n_literals + 1 < threshold(m, is_small_type);
    if let Some(error) = value_match_error(m, &expr) {
        &&& r == failed::<ValueMatch>()
        &&& before.reports(&after, seq![error])
    } else {
        &&& r matches Ok(lowered)
        &&& after == before
        &&& lowered.wf(m, &expr)
        &&& lowered.input == match_input
        &&& lowered.location == location_of(expr.stable_ptr)
        &&& lowered.empty_match_info matches MatchInfo::Extern(info)
        &&& info.function == FunctionId::Felt252IsZero
        &&& info.inputs@ == seq![match_input]
        &&& info.arms@.len() == 0
        &&& info.location == lowered.location
        &&& if is_if_else {
            &&& lowered.body matches ValueMatchBody::IfElse { upcast, tests, else_var }
            &&& upcast is Some <==> is_small_type
            &&& upcast matches Some(upcast) ==> upcast.calls(
                FunctionId::UpcastToFelt252 { from: ty },
                seq![match_input],
                VarType::Felt252,
                lowered.location,
            )
            &&& tests@ == chain.tests
            &&& else_var == (VarRequest {
                ty: VarType::NonZeroFelt252,
                location: lowered.location,
            })
        } else {
            let max = (n_literals - 1) as usize;
            &&& lowered.body matches ValueMatchBody::JumpTable {
                downcast,
                in_range_var,
                arm_indices,
                value_var,
                otherwise_arm_index,
            }
            &&& downcast == (FunctionId::Downcast { from: ty, max })
            &&& in_range_var == (VarRequest {
                ty: VarType::BoundedInt { max },
                location: lowered.location,
            })
            &&& value_var == (VarRequest {
                ty: VarType::Unit,
                location: lowered.location,
            })
            &&& arm_indices@.len() == n_literals
            &&& forall|value: usize|
                value < n_literals ==> #[trigger] arm_indices@[value as int]
                    == scanned.literals_to_arm_map[value]
            &&& otherwise_arm_index == expr.arms@.len() - 1
        }
    }
}

/// Lowers an expression of type ExprMatch where the matched expression is a felt252.
/// using an index enum to create a jump table.
///
/// `match_input` is the variable of the matched expression, and `ty` its type. In an if-else construct,
/// each test has its code in the block where the test before it does not hold. A pattern there that
/// is no literal is reported by [conclude_if_else], after the tests before it.
pub fn lower_expr_match_value(
    ctx: &mut LoweringContext,
    expr: &ExprMatch,
    match_input: VarUsage,
    ty: TypeId,
) -> (r: LoweringResult<ValueMatch>)
    requires
        match_wf(&old(ctx).semantic, expr),
        // The flag is of its own type, where it is read.
        value_match_error(&old(ctx).semantic, expr) is None ==> old(
            ctx,
        ).semantic.db.numeric_match_optimization_min_arms_threshold != Some(Flag::Other),
    ensures
        value_match_outcome(*old(ctx), *final(ctx), *expr, match_input, ty, r),
{
    broadcast use group_hash_axioms;

    let ghost m = ctx.semantic;
    if expr.arms.is_empty() {
        return Err(
            LoweringFlowError::Failed(
                ctx.report_match_error(
                    expr.stable_ptr,
                    MatchKind::Match,
                    MatchDiagnostic::NonExhaustiveMatchValue,
                ),
            ),
        );
    }
    let literals = match read_literals(ctx, expr) {
        Ok(literals) => literals,
        Err(error) => {
            return Err(error);
        },
    };
    let ghost scanned = scan(&m, expr.stable_ptr, value_patterns(expr.arms@));
    if !literals.otherwise_exist {
        return Err(
            LoweringFlowError::Failed(
                ctx.report_match_error(
                    expr.stable_ptr,
                    MatchKind::Match,
                    MatchDiagnostic::NonExhaustiveMatchValue,
                ),
            ),
        );
    }
    let n_literals = literals.arm_of_literal.len();
    proof {
        lemma_scan(&m, expr.stable_ptr, value_patterns(expr.arms@));
        if scanned.literals_to_arm_map.dom().len() == 0 {
            assert(scanned.literals_to_arm_map.dom() =~= Set::empty());
        }
        lemma_sequential(scanned.literals_to_arm_map, literals.max);
    }
    if literals.max.checked_add(1) != Some(n_literals) {
        return Err(
            LoweringFlowError::Failed(
                ctx.report_match_error(
                    expr.stable_ptr,
                    MatchKind::Match,
                    MatchDiagnostic::UnsupportedMatchArmNonSequential,
                ),
            ),
        );
    }
    let location = LoweringContext::get_location(expr.stable_ptr);
    let mut inputs: Vec<VarUsage> = Vec::new();
    inputs.push(match_input);
    assert(inputs@ =~= seq![match_input]);
    let empty_match_info = MatchInfo::Extern(
        MatchExternInfo {
            function: FunctionId::Felt252IsZero,
            inputs,
            arms: Vec::new(),
            location,
        },
    );
    let is_small_type = ty != ctx.semantic.db.felt252;
    let last_arm_index = expr.arms.len() - 1;

    // The number of arms in the match is one more than that of the literals.
    let min_arms = numeric_match_optimization_threshold(ctx, is_small_type);
    if min_arms > 0 && n_literals < min_arms - 1 {
        let upcast = if is_small_type {
            Some(upcast_call(ty, match_input, location))
        } else {
            None
        };
        let mut tests: Vec<Felt252Test> = Vec::new();
        proof {
            lemma_otherwise_is_other(&m, expr);
            lemma_chain_ends(&m, expr.arms@, 0, 0);
        }
        collect_felt252_tests(&ctx.semantic, expr, 0, 0, &mut tests);
        assert(tests@ =~= felt252_chain(&m, expr.arms@, 0, 0).tests);
        let body = ValueMatchBody::IfElse {
            upcast,
            tests,
            else_var: VarRequest { ty: VarType::NonZeroFelt252, location },
        };
        return Ok(ValueMatch { input: match_input, location, empty_match_info, body });
    }
    let arm_indices = lower_expr_match_index_enum(&literals.arm_of_literal);
    let body = ValueMatchBody::JumpTable {
        downcast: FunctionId::Downcast { from: ty, max: literals.max },
        in_range_var: VarRequest { ty: VarType::BoundedInt { max: literals.max }, location },
        arm_indices,
        value_var: VarRequest { ty: VarType::Unit, location },
        otherwise_arm_index: last_arm_index,
    };
    proof {
        assert(expr.arms@.len() == expr.arms.len());
        lemma_literal_arms_exist(&m, expr);
        assert forall|i: int| 0 <= i < arm_indices@.len() implies (#[trigger] arm_indices@[i])
            < expr.arms@.len() by {
            assert(scanned.literals_to_arm_map.dom().contains(i as usize));
            assert(arm_indices@[(i as usize) as int] == scanned.literals_to_arm_map[i as usize]);
        }
    }
    Ok(ValueMatch { input: match_input, location, empty_match_info, body })
}

/// Tests are for arms that exist.
proof fn lemma_chain_arms_exist(
    m: &SemanticModel,
    arms: Seq<MatchArm>,
    arm_index: nat,
    pattern_index: nat,
)
    requires
        arms.len() <= usize::MAX,
    ensures
        forall|k: int|
            0 <= k < felt252_chain(m, arms, arm_index, pattern_index).tests.len() ==> (
            #[trigger] felt252_chain(m, arms, arm_index, pattern_index).tests[k]).arm_index
                < arms.len(),
    decreases arms.len() - arm_index, arms[arm_index as int].patterns@.len() - pattern_index,
{
    if arm_index < arms.len() {
        let patterns = arms[arm_index as int].patterns@;
        let tests = felt252_chain(m, arms, arm_index, pattern_index).tests;
        if pattern_index >= patterns.len() {
            lemma_chain_arms_exist(m, arms, arm_index + 1, 0);
        } else {
            lemma_chain_arms_exist(m, arms, arm_index, pattern_index + 1);
            let rest = felt252_chain(m, arms, arm_index, pattern_index + 1).tests;
            assert forall|k: int| 0 <= k < tests.len() implies (#[trigger] tests[k]).arm_index
                < arms.len() by {
                if k > 0 {
                    assert(tests[k] == rest[k - 1]);
                }
            }
        }
    }
}

/// Literals lead to arms that exist.
proof fn lemma_literal_arms_exist(m: &SemanticModel, expr: &ExprMatch)
    requires
        expr.arms@.len() <= usize::MAX,
        scan(m, expr.stable_ptr, value_patterns(expr.arms@)).error is None,
    ensures
        ({
            let map = scan(m, expr.stable_ptr, value_patterns(expr.arms@)).literals_to_arm_map;
            forall|value: usize|
                map.dom().contains(value) ==> (#[trigger] map[value]) < expr.arms@.len()
        }),
{
    let patterns = value_patterns(expr.arms@);
    let map = scan(m, expr.stable_ptr, patterns).literals_to_arm_map;
    lemma_scan_without_error(m, expr.stable_ptr, patterns);
    lemma_value_patterns_ordered(expr.arms@);
    assert forall|value: usize| map.dom().contains(value) implies (#[trigger] map[value])
        < expr.arms@.len() by {
        let k = choose|k: int|
            0 <= k < patterns.len() && m.kind((#[trigger] patterns[k]).1) is Literal
                && matches_value(m, patterns[k].1, value as int);
        assert(map[value] == patterns[k].0);
    }
}

/// There are finitely many literals.
pub(crate) proof fn lemma_scan(
    m: &SemanticModel,
    expr_ptr: SyntaxStablePtrId,
    patterns: Seq<(usize, PatternId)>,
)
    ensures
        scan(m, expr_ptr, patterns).literals_to_arm_map.dom().finite(),
        scan(m, expr_ptr, patterns).otherwise_exist ==> exists|k: int|
            0 <= k < patterns.len() && m.kind((#[trigger] patterns[k]).1) is Otherwise,
    decreases patterns.len(),
{
    if patterns.len() > 0 {
        let before = patterns.drop_last();
        lemma_scan(m, expr_ptr, before);
        if scan(m, expr_ptr, before).otherwise_exist {
            let k = choose|k: int|
                0 <= k < before.len() && m.kind((#[trigger] before[k]).1) is Otherwise;
            assert(patterns[k] == before[k]);
        } else if m.kind(patterns.last().1) is Otherwise {
            assert(patterns[patterns.len() - 1] == patterns.last());
        }
    }
}

/// Every pattern of the arms is a pattern of its arm.
proof fn lemma_value_pattern(arms: Seq<MatchArm>, k: int) -> (at: (int, int))
    requires
        0 <= k < value_patterns(arms).len(),
    ensures
        0 <= at.0 < arms.len(),
        0 <= at.1 < arms[at.0].patterns@.len(),
        value_patterns(arms)[k] == (at.0 as usize, arms[at.0].patterns@[at.1]),
    decreases arms.len(),
{
    let before = value_patterns(arms.drop_last());
    if k < before.len() {
        let at = lemma_value_pattern(arms.drop_last(), k);
        assert(value_patterns(arms)[k] == before[k]);
        at
    } else {
        (arms.len() - 1, k - before.len())
    }
}

/// A `_` is no literal.
pub(crate) proof fn lemma_otherwise_is_other(m: &SemanticModel, expr: &ExprMatch)
    requires
        scan(m, expr.stable_ptr, value_patterns(expr.arms@)).otherwise_exist,
    ensures
        has_other_from(m, expr.arms@, 0, 0),
{
    let patterns = value_patterns(expr.arms@);
    lemma_scan(m, expr.stable_ptr, patterns);
    let k = choose|k: int|
        0 <= k < patterns.len() && m.kind((#[trigger] patterns[k]).1) is Otherwise;
    let (i, j) = lemma_value_pattern(expr.arms@, k);
    assert(!(m.kind(expr.arms@[i].patterns@[j]) is Literal));
}

/// `info` is the lowered match of a test: to `main_block` where `if_input` is zero, else to
/// `else_block` with the variable `else_var`.
pub open spec fn is_felt252_test(
    info: MatchInfo,
    if_input: VarUsage,
    location: LocationId,
    main_block: BlockId,
    else_block: BlockId,
    else_var: VariableId,
) -> bool {
    &&& info matches MatchInfo::Extern(info)
    &&& info.function == FunctionId::Felt252IsZero
    &&& info.inputs@ == seq![if_input]
    &&& info.location == location
    &&& info.arms@.len() == 2
    &&& info.arms@[0].arm_selector == MatchArmSelector::Zero
    &&& info.arms@[0].block_id == main_block
    &&& info.arms@[0].var_ids@ == Seq::<VariableId>::empty()
    &&& info.arms@[1].arm_selector == MatchArmSelector::NonZero
    &&& info.arms@[1].block_id == else_block
    &&& info.arms@[1].var_ids@ == seq![else_var]
}

/// The lowered match of a test.
pub fn felt252_test_info(
    if_input: VarUsage,
    location: LocationId,
    main_block: BlockId,
    else_block: BlockId,
    else_var: VariableId,
) -> (r: MatchInfo)
    ensures
        is_felt252_test(r, if_input, location, main_block, else_block, else_var),
{
    let var_ids = vec![else_var];
    assert(var_ids@ =~= seq![else_var]);
    two_way_info(
        FunctionId::Felt252IsZero,
        if_input,
        location,
        LoweredMatchArm {
            arm_selector: MatchArmSelector::Zero,
            block_id: main_block,
            var_ids: Vec::new(),
        },
        LoweredMatchArm {
            arm_selector: MatchArmSelector::NonZero,
            block_id: else_block,
            var_ids,
        },
    )
}

/// `info` is the lowered match of a conversion: to `in_range_block` with the converted number
/// `in_range_var`, or else to `otherwise_block`.
pub open spec fn is_downcast_match(
    info: MatchInfo,
    downcast: FunctionId,
    match_input: VarUsage,
    location: LocationId,
    in_range_block: BlockId,
    in_range_var: VariableId,
    otherwise_block: BlockId,
) -> bool {
    &&& info matches MatchInfo::Extern(info)
    &&& info.function == downcast
    &&& info.inputs@ == seq![match_input]
    &&& info.location == location
    &&& info.arms@.len() == 2
    &&& info.arms@[0].arm_selector == MatchArmSelector::OptionSome
    &&& info.arms@[0].block_id == in_range_block
    &&& info.arms@[0].var_ids@ == seq![in_range_var]
    &&& info.arms@[1].arm_selector == MatchArmSelector::OptionNone
    &&& info.arms@[1].block_id == otherwise_block
    &&& info.arms@[1].var_ids@ == Seq::<VariableId>::empty()
}

/// The lowered match of a conversion.
fn downcast_match_info(
    downcast: FunctionId,
    match_input: VarUsage,
    location: LocationId,
    in_range_block: BlockId,
    in_range_var: VariableId,
    otherwise_block: BlockId,
) -> (r: MatchInfo)
    ensures
        is_downcast_match(
            r,
            downcast,
            match_input,
            location,
            in_range_block,
            in_range_var,
            otherwise_block,
        ),
{
    let var_ids = vec![in_range_var];
    assert(var_ids@ =~= seq![in_range_var]);
    two_way_info(
        downcast,
        match_input,
        location,
        LoweredMatchArm {
            arm_selector: MatchArmSelector::OptionSome,
            block_id: in_range_block,
            var_ids,
        },
        LoweredMatchArm {
            arm_selector: MatchArmSelector::OptionNone,
            block_id: otherwise_block,
            var_ids: Vec::new(),
        },
    )
}

/// A match on the outcome of a function of one input, with two arms.
fn two_way_info(
    function: FunctionId,
    input: VarUsage,
    location: LocationId,
    first: LoweredMatchArm,
    second: LoweredMatchArm,
) -> (r: MatchInfo)
    ensures
        r matches MatchInfo::Extern(info) && {
            &&& info.function == function
            &&& info.inputs@ == seq![input]
            &&& info.location == location
            &&& info.arms@ == seq![first, second]
        },
{
    let mut inputs: Vec<VarUsage> = Vec::new();
    inputs.push(input);
    let mut arms: Vec<LoweredMatchArm> = Vec::new();
    arms.push(first);
    arms.push(second);
    assert(inputs@ =~= seq![input]);
    assert(arms@ =~= seq![first, second]);
    MatchInfo::Extern(MatchExternInfo { function, inputs, arms, location })
}

/// `info` is the lowered match of a jump table: from each number to the block there, with the variable
/// there.
pub open spec fn is_index_enum_match(
    info: MatchInfo,
    input: VarUsage,
    location: LocationId,
    values: Seq<(BlockId, VariableId)>,
) -> bool {
    &&& info matches MatchInfo::Value(info)
    &&& info.num_of_arms == values.len()
    &&& info.input == input
    &&& info.location == location
    &&& info.arms@.len() == values.len()
    &&& forall|i: int|
        0 <= i < info.arms@.len() ==> {
            &&& (#[trigger] info.arms@[i]).arm_selector == MatchArmSelector::Value(i as usize)
            &&& info.arms@[i].block_id == values[i].0
            &&& info.arms@[i].var_ids@ == seq![values[i].1]
        }
}

/// The lowered match of a jump table, from the block of each number and the variable that it brings.
fn index_enum_match_info(
    input: VarUsage,
    location: LocationId,
    values: &Vec<(BlockId, VariableId)>,
) -> (r: MatchInfo)
    ensures
        is_index_enum_match(r, input, location, values@),
{
    let mut block_ids: Vec<BlockId> = Vec::new();
    let mut arm_var_ids: Vec<Vec<VariableId>> = Vec::new();
    for i in 0..values.len()
        invariant
            block_ids@.len() == i,
            arm_var_ids@.len() == i,
            forall|k: int| 0 <= k < i ==> #[trigger] block_ids@[k] == values@[k].0,
            forall|k: int|
                0 <= k < i ==> (#[trigger] arm_var_ids@[k])@.len() == 1 && arm_var_ids@[k]@[0]
                    == values@[k].1,
    {
        let (block_id, var_id) = values[i];
        block_ids.push(block_id);
        arm_var_ids.push(vec![var_id]);
    }
    proof {
        assert forall|k: int| 0 <= k < values@.len() implies (#[trigger] arm_var_ids@[k])@ == seq![
            values@[k].1,
        ] by {}
    }
    index_enum_arms_info(input, location, block_ids, arm_var_ids)
}

/// As [index_enum_match_info], with the variables of each number in a list.
fn index_enum_arms_info(
    input: VarUsage,
    location: LocationId,
    block_ids: Vec<BlockId>,
    arm_var_ids: Vec<Vec<VariableId>>,
) -> (r: MatchInfo)
    requires
        block_ids@.len() == arm_var_ids@.len(),
    ensures
        r matches MatchInfo::Value(info) && {
            &&& info.num_of_arms == block_ids@.len()
            &&& info.input == input
            &&& info.location == location
            &&& info.arms@.len() == block_ids@.len()
            &&& forall|i: int|
                0 <= i < info.arms@.len() ==> {
                    &&& (#[trigger] info.arms@[i]).arm_selector == MatchArmSelector::Value(
                        i as usize,
                    )
                    &&& info.arms@[i].block_id == block_ids@[i]
                    &&& info.arms@[i].var_ids == arm_var_ids@[i]
                }
        },
{
    let num_of_arms = block_ids.len();
    let ghost n = block_ids@.len();
    let zipped = zip_eq(block_ids, arm_var_ids);
    let mut arms: Vec<LoweredMatchArm> = Vec::new();
    for item in iter: zipped
        invariant
            num_of_arms == n,
            iter.seq() == Seq::new(n, |i: int| (block_ids@[i], arm_var_ids@[i])),
            arms@.len() == iter.index(),
            forall|i: int|
                0 <= i < arms@.len() ==> {
                    &&& (#[trigger] arms@[i]).arm_selector == MatchArmSelector::Value(i as usize)
                    &&& arms@[i].block_id == block_ids@[i]
                    &&& arms@[i].var_ids == arm_var_ids@[i]
                },
    {
        let (block_id, var_ids) = item;
        let value = arms.len();
        arms.push(
            LoweredMatchArm { arm_selector: MatchArmSelector::Value(value), block_id, var_ids },
        );
    }
    MatchInfo::Value(MatchEnumValue { num_of_arms, input, arms, location })
}

/// An if-else construct, and how its arms end.
#[derive(PartialEq, Eq, Debug)]
pub struct ConcludedIfElse {
    /// The tests. The first is in the block of the match.
    pub code: Vec<TestCode>,
    pub groups: Vec<ArmGroup>,
}

/// The number that is tested: the converted one, where it is converted.
pub open spec fn tested_input(match_input: VarUsage, upcast_result: Option<VarUsage>) -> VarUsage {
    match upcast_result {
        Some(result) => result,
        None => match_input,
    }
}

/// Concludes a match expression on a number that is an if-else construct, after its blocks and
/// variables were made: the code of the tests is put together, and the leaves are grouped by their
/// arms.
///
/// `block` is the block of the match, and `upcast_result` what the conversion of the number brought.
pub fn conclude_if_else(
    ctx: &mut LoweringContext,
    expr: &ExprMatch,
    lowered: &ValueMatch,
    arms: &[MatchArmWrapper],
    block: BlockId,
    upcast_result: Option<VarUsage>,
    emitted: Vec<EmittedTest>,
) -> (r: LoweringResult<ConcludedIfElse>)
    requires
        match_wf(&old(ctx).semantic, expr),
        arms_wf(&old(ctx).semantic, arms@),
        arms@.len() == expr.arms@.len(),
        lowered.wf(&old(ctx).semantic, expr),
        lowered.body matches ValueMatchBody::IfElse { upcast, tests, .. } && {
            &&& upcast is Some <==> upcast_result is Some
            &&& emission_fits(tests@, emitted@)
        },
    ensures
        ({
            let chain = felt252_chain(&old(ctx).semantic, expr.arms@, 0, 0);
            let ended = match r {
                Ok(_) => Ok(()),
                Err(error) => Err(error),
            };
            &&& if_else_end(*old(ctx), *final(ctx), chain, emitted@, ended)
            &&& r matches Ok(concluded) ==> {
                &&& is_if_else_code(
                    concluded.code@,
                    block,
                    tested_input(lowered.input, upcast_result),
                    lowered.location,
                    emitted@,
                )
                &&& are_groups(
                    concluded.groups@,
                    &old(ctx).semantic,
                    &lowered.empty_match_info,
                    lowered.location,
                    arms@,
                    MatchKind::Match,
                    if_else_leaves(expr.arms@.len(), chain.tests, emitted@),
                )
            }
        }),
{
    let ghost m = ctx.semantic;
    let ghost chain = felt252_chain(&m, expr.arms@, 0, 0);
    let match_input = match upcast_result {
        Some(result) => result,
        None => lowered.input,
    };
    let mut code: Vec<TestCode> = Vec::new();
    let mut builders: Vec<MatchLeafBuilder> = Vec::new();
    let lowered_arms = lower_expr_felt252_arm(
        ctx,
        expr,
        match_input,
        block,
        0,
        0,
        emitted,
        &mut code,
        &mut builders,
    );
    if let Err(error) = lowered_arms {
        return Err(error);
    }
    proof {
        assert(code@.skip(0) =~= code@);
        assert(builders@ =~= if_else_leaves(expr.arms@.len(), chain.tests, emitted@));
        assert(arms@.len() == arms.len());
        lemma_chain_arms_exist(&m, expr.arms@, 0, 0);
        assert forall|i: int| 0 <= i < builders@.len() implies (
        #[trigger] builders@[i]).arm_index < arms@.len() by {
            if i < emitted@.len() {
                assert(chain.tests[i].arm_index < expr.arms@.len());
            }
        }
    }
    let groups = group_match_arms(
        ctx,
        &lowered.empty_match_info,
        lowered.location,
        arms,
        builders,
        MatchKind::Match,
    );
    Ok(ConcludedIfElse { code, groups })
}

/// A jump table after its blocks and variables were made.
#[derive(PartialEq, Eq, Debug)]
pub struct EmittedJumpTable {
    /// The block of the converted number.
    pub in_range_block: BlockId,
    /// The converted number.
    pub in_range_var: VariableId,
    /// The block of each number, from zero on, and the variable that it brings.
    pub values: Vec<(BlockId, VariableId)>,
    /// The block where the number cannot be converted.
    pub otherwise_block: BlockId,
}

/// A jump table, and how its arms end.
#[derive(PartialEq, Eq, Debug)]
pub struct ConcludedJumpTable {
    /// The match that the block of the converted number ends with.
    pub inner_info: MatchInfo,
    /// The match that the block of the match ends with.
    pub info: MatchInfo,
    pub groups: Vec<ArmGroup>,
}

/// The leaves of a jump table: those of the numbers, and that of all other numbers.
pub open spec fn jump_table_leaves(
    arm_indices: Seq<usize>,
    otherwise_arm_index: usize,
    emitted: EmittedJumpTable,
) -> Seq<MatchLeafBuilder> {
    Seq::new(
        arm_indices.len(),
        |i: int|
            MatchLeafBuilder {
                arm_index: arm_indices[i],
                lowering_result: Ok(()),
                builder: emitted.values@[i].0,
            },
    ).push(
        MatchLeafBuilder {
            arm_index: otherwise_arm_index,
            lowering_result: Ok(()),
            builder: emitted.otherwise_block,
        },
    )
}

/// Concludes a match expression on a number that is a jump table, after its blocks and variables were
/// made: its matches are put together, and the leaves are grouped by their arms.
pub fn conclude_jump_table(
    ctx: &LoweringContext,
    expr: &ExprMatch,
    lowered: &ValueMatch,
    arms: &[MatchArmWrapper],
    emitted: &EmittedJumpTable,
) -> (r: ConcludedJumpTable)
    requires
        arms_wf(&ctx.semantic, arms@),
        arms@.len() == expr.arms@.len(),
        lowered.wf(&ctx.semantic, expr),
        lowered.body matches ValueMatchBody::JumpTable { arm_indices, .. } && arm_indices@.len()
            == emitted.values@.len(),
    ensures
        lowered.body matches ValueMatchBody::JumpTable {
            downcast,
            arm_indices,
            otherwise_arm_index,
            ..
        } && {
            &&& is_index_enum_match(
                r.inner_info,
                VarUsage { var_id: emitted.in_range_var, location: lowered.input.location },
                lowered.location,
                emitted.values@,
            )
            &&& is_downcast_match(
                r.info,
                downcast,
                lowered.input,
                lowered.location,
                emitted.in_range_block,
                emitted.in_range_var,
                emitted.otherwise_block,
            )
            &&& are_groups(
                r.groups@,
                &ctx.semantic,
                &lowered.empty_match_info,
                lowered.location,
                arms@,
                MatchKind::Match,
                jump_table_leaves(arm_indices@, otherwise_arm_index, *emitted),
            )
        },
{
    let input = VarUsage { var_id: emitted.in_range_var, location: lowered.input.location };
    let inner_info = index_enum_match_info(input, lowered.location, &emitted.values);
    let mut builders: Vec<MatchLeafBuilder> = Vec::new();
    let mut function = FunctionId::Felt252IsZero;
    if let ValueMatchBody::JumpTable { downcast, arm_indices, otherwise_arm_index, .. } =
        &lowered.body {
        function = *downcast;
        for i in 0..arm_indices.len()
            invariant
                arm_indices@.len() == emitted.values@.len(),
                forall|i: int|
                    0 <= i < arm_indices@.len() ==> (#[trigger] arm_indices@[i]) < arms@.len(),
                builders@.len() == i,
                forall|k: int|
                    0 <= k < i ==> #[trigger] builders@[k] == (MatchLeafBuilder {
                        arm_index: arm_indices@[k],
                        lowering_result: Ok(()),
                        builder: emitted.values@[k].0,
                    }) && builders@[k].arm_index < arms@.len(),
        {
            assert(arm_indices@[i as int] < arms@.len());
            builders.push(
                MatchLeafBuilder {
                    arm_index: arm_indices[i],
                    lowering_result: Ok(()),
                    builder: emitted.values[i].0,
                },
            );
        }
        builders.push(
            MatchLeafBuilder {
                arm_index: *otherwise_arm_index,
                lowering_result: Ok(()),
                builder: emitted.otherwise_block,
            },
        );
        assert(builders@ =~= jump_table_leaves(arm_indices@, *otherwise_arm_index, *emitted));
    }
    let info = downcast_match_info(
        function,
        lowered.input,
        lowered.location,
        emitted.in_range_block,
        emitted.in_range_var,
        emitted.otherwise_block,
    );
    let groups = group_match_arms(
        ctx,
        &lowered.empty_match_info,
        lowered.location,
        arms,
        builders,
        MatchKind::Match,
    );
    ConcludedJumpTable { inner_info, info, groups }
}

/// Whether `pattern` matches the number `v`.
pub open spec fn matches_value(m: &SemanticModel, pattern: PatternId, v: int) -> bool {
    match m.kind(pattern) {
        PatternKind::Literal(literal) => literal.value() == v,
        PatternKind::Otherwise => true,
        _ => false,
    }
}

/// Whether a pattern of `arm` matches the number `v`.
pub open spec fn arm_matches_value(m: &SemanticModel, arm: MatchArm, v: int) -> bool {
    exists|j: int|
        0 <= j < arm.patterns@.len() && matches_value(m, #[trigger] arm.patterns@[j], v)
}

/// The arm at `arm_index` is the first one with a pattern that matches the number `v`.
pub open spec fn is_first_matching_arm(
    m: &SemanticModel,
    arms: Seq<MatchArm>,
    v: int,
    arm_index: int,
) -> bool {
    &&& 0 <= arm_index < arms.len()
    &&& arm_matches_value(m, arms[arm_index], v)
    &&& forall|i: int| 0 <= i < arm_index ==> !arm_matches_value(m, #[trigger] arms[i], v)
}

/// The arm that tests, made one after the other, lead the number `v` to: that of the first test that
/// holds, or else `default_arm_index`.
pub open spec fn if_else_arm(
    m: &SemanticModel,
    tests: Seq<Felt252Test>,
    default_arm_index: usize,
    v: int,
) -> usize
    decreases tests.len(),
{
    if tests.len() == 0 {
        default_arm_index
    } else if matches_value(m, tests[0].pattern, v) {
        tests[0].arm_index
    } else {
        if_else_arm(m, tests.drop_first(), default_arm_index, v)
    }
}

/// The arm that a jump table leads the number `v` to: the one at `v`, or else
/// `otherwise_arm_index`.
pub open spec fn jump_table_arm(arm_indices: Seq<usize>, otherwise_arm_index: usize, v: int) -> usize {
    if 0 <= v < arm_indices.len() {
        arm_indices[v]
    } else {
        otherwise_arm_index
    }
}

/// What is found where nothing is wrong with `patterns`: all of them are literals that differ, but
/// for a `_` at the end.
proof fn lemma_scan_without_error(
    m: &SemanticModel,
    expr_ptr: SyntaxStablePtrId,
    patterns: Seq<(usize, PatternId)>,
)
    requires
        scan(m, expr_ptr, patterns).error is None,
    ensures
        ({
            let scanned = scan(m, expr_ptr, patterns);
            let map = scanned.literals_to_arm_map;
            &&& forall|k: int|
                0 <= k < patterns.len() ==> {
                    ||| k == patterns.len() - 1 && scanned.otherwise_exist && m.kind(
                        (#[trigger] patterns[k]).1,
                    ) is Otherwise
                    ||| {
                        &&& m.kind(patterns[k].1) matches PatternKind::Literal(literal)
                        &&& 0 <= literal.value() <= usize::MAX
                        &&& map.dom().contains(literal.value() as usize)
                        &&& map[literal.value() as usize] == patterns[k].0
                    }
                }
            &&& scanned.otherwise_exist ==> patterns.len() > 0 && m.kind(patterns.last().1) is Otherwise
            &&& forall|value: usize| #[trigger]
                map.dom().contains(value) ==> exists|k: int|
                    0 <= k < patterns.len() && m.kind((#[trigger] patterns[k]).1) is Literal
                        && matches_value(m, patterns[k].1, value as int)
            &&& forall|k: int, l: int|
                0 <= k < l < patterns.len() && m.kind((#[trigger] patterns[k]).1) is Literal && m.kind(
                    (#[trigger] patterns[l]).1,
                ) is Literal ==> m.kind(patterns[k].1)->Literal_0.value() != m.kind(
                    patterns[l].1,
                )->Literal_0.value()
        }),
    decreases patterns.len(),
{
    if patterns.len() > 0 {
        let before = patterns.drop_last();
        lemma_scan_without_error(m, expr_ptr, before);
        let done = scan(m, expr_ptr, before);
        let map = scan(m, expr_ptr, patterns).literals_to_arm_map;
        assert(!done.otherwise_exist);
        assert(forall|k: int| 0 <= k < before.len() ==> #[trigger] patterns[k] == before[k]);
        assert(patterns[patterns.len() - 1] == patterns.last());
        assert forall|value: usize| #[trigger] map.dom().contains(value) implies exists|k: int|
            0 <= k < patterns.len() && m.kind((#[trigger] patterns[k]).1) is Literal
                && matches_value(m, patterns[k].1, value as int) by {
            if done.literals_to_arm_map.dom().contains(value) {
                let k = choose|k: int|
                    0 <= k < before.len() && m.kind((#[trigger] before[k]).1) is Literal
                        && matches_value(m, before[k].1, value as int);
                assert(patterns[k] == before[k]);
            } else {
                assert(matches_value(m, patterns[patterns.len() - 1].1, value as int));
            }
        }
        assert forall|k: int, l: int|
            0 <= k < l < patterns.len() && m.kind((#[trigger] patterns[k]).1) is Literal && m.kind(
                (#[trigger] patterns[l]).1,
            ) is Literal implies m.kind(patterns[k].1)->Literal_0.value() != m.kind(
            patterns[l].1,
        )->Literal_0.value() by {
            assert(patterns[k] == before[k]);
            if l < before.len() {
                assert(patterns[l] == before[l]);
            } else {
                let value = m.kind(before[k].1)->Literal_0.value();
                assert(done.literals_to_arm_map.dom().contains(value as usize));
            }
        }
    }
}

/// All patterns of the arms come, in the order of their arms.
pub(crate) proof fn lemma_value_patterns_ordered(arms: Seq<MatchArm>)
    requires
        arms.len() <= usize::MAX,
    ensures
        forall|k: int, l: int|
            0 <= k <= l < value_patterns(arms).len() ==> (#[trigger] value_patterns(arms)[k]).0 <= (
            #[trigger] value_patterns(arms)[l]).0,
        forall|k: int|
            0 <= k < value_patterns(arms).len() ==> (#[trigger] value_patterns(arms)[k]).0
                < arms.len(),
        forall|i: int, j: int|
            0 <= i < arms.len() && 0 <= j < arms[i].patterns@.len() ==> value_patterns(
                arms,
            ).contains((i as usize, #[trigger] arms[i].patterns@[j])),
        arms.len() > 0 && arms.last().patterns@.len() > 0 ==> value_patterns(arms).last() == (
            (arms.len() - 1) as usize,
            arms.last().patterns@.last(),
        ),
    decreases arms.len(),
{
    if arms.len() > 0 {
        let before = arms.drop_last();
        lemma_value_patterns_ordered(before);
        let n = arms.len() - 1;
        let done = value_patterns(before);
        let of_arm = value_patterns_of_arm(arms.last(), n as nat);
        let now = value_patterns(arms);
        assert(now == done + of_arm);
        assert forall|k: int| 0 <= k < now.len() implies {
            &&& (#[trigger] now[k]).0 < arms.len()
            &&& k < done.len() ==> now[k] == done[k]
            &&& k >= done.len() ==> now[k].0 == n
        } by {
            if k >= done.len() {
                assert(now[k] == of_arm[k - done.len()]);
            }
        }
        assert forall|k: int, l: int| 0 <= k <= l < now.len() implies (#[trigger] now[k]).0 <= (
        #[trigger] now[l]).0 by {
            if l < done.len() {
                assert(now[k] == done[k]);
            }
        }
        assert forall|i: int, j: int|
            0 <= i < arms.len() && 0 <= j < arms[i].patterns@.len() implies now.contains(
            (i as usize, #[trigger] arms[i].patterns@[j]),
        ) by {
            let pattern = arms[i].patterns@[j];
            if i < n {
                assert(before[i].patterns@[j] == pattern);
                let k = done.index_of((i as usize, pattern));
                assert(now[k] == (i as usize, pattern));
            } else {
                assert(now[done.len() + j] == of_arm[j]);
            }
        }
    }
}

/// The `_` of a match on a number without an error is in its last arm, where that has a pattern.
proof fn lemma_last_arm_matches(m: &SemanticModel, expr: &ExprMatch, v: int)
    requires
        expr.arms@.len() <= usize::MAX,
        expr.arms@.last().patterns@.len() > 0,
        value_match_error(m, expr) is None,
    ensures
        expr.arms@.len() > 0,
        arm_matches_value(m, expr.arms@.last(), v),
{
    let arms = expr.arms@;
    lemma_scan_without_error(m, expr.stable_ptr, value_patterns(arms));
    lemma_value_patterns_ordered(arms);
    let patterns = arms.last().patterns@;
    assert(matches_value(m, patterns[patterns.len() - 1], v));
}

/// Where all patterns of an if-else construct are tested, those before the last arm are literals, so
/// that the `_` is in the last arm.
proof fn lemma_last_arm_has_a_pattern(m: &SemanticModel, expr: &ExprMatch)
    requires
        value_match_error(m, expr) is None,
        felt252_chain(m, expr.arms@, 0, 0).not_a_literal is None,
    ensures
        expr.arms@.len() > 0,
        expr.arms@.last().patterns@.len() > 0,
{
    let arms = expr.arms@;
    lemma_otherwise_is_other(m, expr);
    lemma_chain_ends(m, arms, 0, 0);
    lemma_tested_patterns_are_literals(m, arms, 0, 0);
    let (i, j) = choose|i: int, j: int|
        0 <= i < arms.len() && 0 <= j < arms[i].patterns@.len() && (i > 0 || i == 0 && j >= 0) && !(
        m.kind(#[trigger] arms[i].patterns@[j]) is Literal);
    assert(!(m.kind(arms[i].patterns@[j]) is Literal));
}

proof fn lemma_tested_patterns_are_literals(
    m: &SemanticModel,
    arms: Seq<MatchArm>,
    arm_index: nat,
    pattern_index: nat,
)
    requires
        chain_ends(m, arms, arm_index, pattern_index),
        felt252_chain(m, arms, arm_index, pattern_index).not_a_literal is None,
    ensures
        forall|i: int, j: int|
            0 <= i < arms.len() - 1 && 0 <= j < arms[i].patterns@.len() && (i > arm_index || i
                == arm_index && j >= pattern_index) ==> m.kind(
                #[trigger] arms[i].patterns@[j],
            ) is Literal,
    decreases arms.len() - arm_index, arms[arm_index as int].patterns@.len() - pattern_index,
{
    let patterns = arms[arm_index as int].patterns@;
    if pattern_index >= patterns.len() {
        lemma_tested_patterns_are_literals(m, arms, arm_index + 1, 0);
    } else if !(pattern_index + 1 == patterns.len() && arm_index + 2 == arms.len()) {
        lemma_tested_patterns_are_literals(m, arms, arm_index, pattern_index + 1);
    }
}

/// A jump table leads a number to the arm that lists it, or else to the last arm.
pub proof fn law_jump_table_selects_the_listed_arm(
    m: &SemanticModel,
    expr: &ExprMatch,
    arm_indices: Seq<usize>,
    v: int,
)
    requires
        expr.arms@.len() <= usize::MAX,
        value_match_error(m, expr) is None,
        is_jump_table(m, expr, arm_indices),
    ensures
        ({
            let arms = expr.arms@;
            let selected = jump_table_arm(arm_indices, (arms.len() - 1) as usize, v);
            &&& forall|i: int, j: int|
                0 <= i < arms.len() && 0 <= j < arms[i].patterns@.len() && lists_value(
                    m,
                    #[trigger] arms[i].patterns@[j],
                    v,
                ) ==> selected == i
            &&& (forall|i: int, j: int|
                0 <= i < arms.len() && 0 <= j < arms[i].patterns@.len() ==> !lists_value(
                    m,
                    #[trigger] arms[i].patterns@[j],
                    v,
                )) ==> selected == arms.len() - 1
        }),
{
    let arms = expr.arms@;
    let patterns = value_patterns(arms);
    let map = scan(m, expr.stable_ptr, patterns).literals_to_arm_map;
    let selected = jump_table_arm(arm_indices, (arms.len() - 1) as usize, v);
    lemma_scan(m, expr.stable_ptr, patterns);
    lemma_scan_without_error(m, expr.stable_ptr, patterns);
    lemma_value_patterns_ordered(arms);
    lemma_len_fits(map);
    assert forall|i: int, j: int|
        0 <= i < arms.len() && 0 <= j < arms[i].patterns@.len() && lists_value(
            m,
            #[trigger] arms[i].patterns@[j],
            v,
        ) implies selected == i by {
        let l = patterns.index_of((i as usize, arms[i].patterns@[j]));
        assert(patterns[l] == (i as usize, arms[i].patterns@[j]));
        assert(map.dom().contains(v as usize));
        assert(arm_indices[(v as usize) as int] == map[v as usize]);
    }
    if 0 <= v < arm_indices.len() {
        assert(map.dom().contains(v as usize));
        let k = choose|k: int|
            0 <= k < patterns.len() && m.kind((#[trigger] patterns[k]).1) is Literal
                && matches_value(m, patterns[k].1, (v as usize) as int);
        let (a, b) = lemma_value_pattern(arms, k);
        assert(lists_value(m, arms[a].patterns@[b], v));
    }
}

/// Whether `pattern` is the literal `v`.
pub open spec fn lists_value(m: &SemanticModel, pattern: PatternId, v: int) -> bool {
    m.kind(pattern) matches PatternKind::Literal(literal) && literal.value() == v
}

/// `arm_indices` are the arms of the literals of a match on a number.
pub open spec fn is_jump_table(m: &SemanticModel, expr: &ExprMatch, arm_indices: Seq<usize>) -> bool {
    let map = scan(m, expr.stable_ptr, value_patterns(expr.arms@)).literals_to_arm_map;
    &&& arm_indices.len() == map.dom().len()
    &&& forall|value: usize|
        value < arm_indices.len() ==> #[trigger] arm_indices[value as int] == map[value]
}

/// A jump table leads every number to the first arm with a pattern that matches it, where the number is
/// listed or the last arm has a pattern.
pub proof fn law_jump_table_selects_the_first_matching_arm(
    m: &SemanticModel,
    expr: &ExprMatch,
    arm_indices: Seq<usize>,
    v: int,
)
    requires
        expr.arms@.len() <= usize::MAX,
        0 <= v < arm_indices.len() || expr.arms@.last().patterns@.len() > 0,
        value_match_error(m, expr) is None,
        is_jump_table(m, expr, arm_indices),
    ensures
        is_first_matching_arm(
            m,
            expr.arms@,
            v,
            jump_table_arm(arm_indices, (expr.arms@.len() - 1) as usize, v) as int,
        ),
{
    let arms = expr.arms@;
    let patterns = value_patterns(arms);
    let map = scan(m, expr.stable_ptr, patterns).literals_to_arm_map;
    lemma_scan(m, expr.stable_ptr, patterns);
    lemma_scan_without_error(m, expr.stable_ptr, patterns);
    lemma_value_patterns_ordered(arms);
    let selected = jump_table_arm(arm_indices, (arms.len() - 1) as usize, v) as int;
    if 0 <= v < arm_indices.len() {
        lemma_len_fits(map);
        let value = v as usize;
        assert(map.dom().contains(value));
        let k = choose|k: int|
            0 <= k < patterns.len() && m.kind((#[trigger] patterns[k]).1) is Literal
                && matches_value(m, patterns[k].1, value as int);
        assert(arm_indices[value as int] == map[value]);
        let (a, b) = lemma_value_pattern(arms, k);
        assert(matches_value(m, arms[a].patterns@[b], v));
        assert forall|i: int| 0 <= i < selected implies !arm_matches_value(
            m,
            #[trigger] arms[i],
            v,
        ) by {
            assert forall|j: int| 0 <= j < arms[i].patterns@.len() implies !matches_value(
                m,
                #[trigger] arms[i].patterns@[j],
                v,
            ) by {
                let l = patterns.index_of((i as usize, arms[i].patterns@[j]));
                assert(patterns[l] == (i as usize, arms[i].patterns@[j]));
                if l < k {
                    assert(patterns[l].0 <= patterns[k].0);
                } else {
                    assert(patterns[k].0 <= patterns[l].0);
                }
            }
        }
    } else {
        lemma_last_arm_matches(m, expr, v);
        assert forall|i: int| 0 <= i < selected implies !arm_matches_value(
            m,
            #[trigger] arms[i],
            v,
        ) by {
            assert forall|j: int| 0 <= j < arms[i].patterns@.len() implies !matches_value(
                m,
                #[trigger] arms[i].patterns@[j],
                v,
            ) by {
                let l = patterns.index_of((i as usize, arms[i].patterns@[j]));
                assert(patterns[l] == (i as usize, arms[i].patterns@[j]));
                assert(patterns[patterns.len() - 1] == patterns.last());
                let literal = m.kind(patterns[l].1)->Literal_0;
                assert(map.dom().contains(literal.value() as usize));
            }
        }
    }
}

/// Sequential literals can be counted.
pub(crate) proof fn lemma_len_fits(map: Map<usize, usize>)
    requires
        is_sequential(map),
        map.dom().finite(),
    ensures
        map.dom().len() <= usize::MAX + 1,
{
    if map.dom().len() > usize::MAX + 1 {
        lemma_below(usize::MAX as nat);
        let all = below(usize::MAX as nat).insert(usize::MAX);
        assert(map.dom().subset_of(all));
        vstd::set_lib::lemma_len_subset(map.dom(), all);
    }
}

/// An if-else construct leads every number to the first arm with a pattern that matches it.
pub proof fn law_if_else_selects_the_first_matching_arm(m: &SemanticModel, expr: &ExprMatch, v: int)
    requires
        expr.arms@.len() <= usize::MAX,
        value_match_error(m, expr) is None,
        felt252_chain(m, expr.arms@, 0, 0).not_a_literal is None,
    ensures
        is_first_matching_arm(
            m,
            expr.arms@,
            v,
            if_else_arm(
                m,
                felt252_chain(m, expr.arms@, 0, 0).tests,
                (expr.arms@.len() - 1) as usize,
                v,
            ) as int,
        ),
{
    let arms = expr.arms@;
    lemma_last_arm_has_a_pattern(m, expr);
    lemma_last_arm_matches(m, expr, v);
    lemma_otherwise_is_other(m, expr);
    lemma_chain_ends(m, arms, 0, 0);
    lemma_if_else_arm(m, arms, 0, 0, v);
    let selected = if_else_arm(
        m,
        felt252_chain(m, arms, 0, 0).tests,
        (arms.len() - 1) as usize,
        v,
    ) as int;
    assert forall|i: int| 0 <= i < selected implies !arm_matches_value(
        m,
        #[trigger] arms[i],
        v,
    ) by {
        assert forall|j: int| 0 <= j < arms[i].patterns@.len() implies !matches_value(
            m,
            #[trigger] arms[i].patterns@[j],
            v,
        ) by {}
    }
}

/// Tests and a jump table lead every number to the same arm.
pub proof fn law_tests_and_jump_table_agree(
    m: &SemanticModel,
    expr: &ExprMatch,
    arm_indices: Seq<usize>,
    v: int,
)
    requires
        expr.arms@.len() <= usize::MAX,
        value_match_error(m, expr) is None,
        felt252_chain(m, expr.arms@, 0, 0).not_a_literal is None,
        is_jump_table(m, expr, arm_indices),
    ensures
        if_else_arm(
            m,
            felt252_chain(m, expr.arms@, 0, 0).tests,
            (expr.arms@.len() - 1) as usize,
            v,
        ) == jump_table_arm(arm_indices, (expr.arms@.len() - 1) as usize, v),
{
    lemma_last_arm_has_a_pattern(m, expr);
    law_if_else_selects_the_first_matching_arm(m, expr, v);
    law_jump_table_selects_the_first_matching_arm(m, expr, arm_indices, v);
    let arms = expr.arms@;
    let by_tests = if_else_arm(
        m,
        felt252_chain(m, arms, 0, 0).tests,
        (arms.len() - 1) as usize,
        v,
    ) as int;
    let by_table = jump_table_arm(arm_indices, (arms.len() - 1) as usize, v) as int;
    assert(arm_matches_value(m, arms[by_tests], v));
    assert(arm_matches_value(m, arms[by_table], v));
}

/// Tests lead to the first arm after them with a pattern that matches, or to the last.
proof fn lemma_if_else_arm(
    m: &SemanticModel,
    arms: Seq<MatchArm>,
    arm_index: nat,
    pattern_index: nat,
    v: int,
)
    requires
        arms.len() <= usize::MAX,
        arm_index < arms.len(),
        pattern_index <= arms[arm_index as int].patterns@.len(),
        chain_ends(m, arms, arm_index, pattern_index),
        felt252_chain(m, arms, arm_index, pattern_index).not_a_literal is None,
    ensures
        ({
            let selected = if_else_arm(
                m,
                felt252_chain(m, arms, arm_index, pattern_index).tests,
                (arms.len() - 1) as usize,
                v,
            ) as int;
            &&& arm_index <= selected < arms.len()
            &&& selected == arms.len() - 1 || arm_matches_value(m, arms[selected], v)
            &&& forall|i: int, j: int|
                arm_index <= i < selected && 0 <= j < arms[i].patterns@.len() && (i > arm_index || j
                    >= pattern_index) ==> !matches_value(m, #[trigger] arms[i].patterns@[j], v)
        }),
    decreases arms.len() - arm_index, arms[arm_index as int].patterns@.len() - pattern_index,
{
    let chain = felt252_chain(m, arms, arm_index, pattern_index);
    let patterns = arms[arm_index as int].patterns@;
    if pattern_index == patterns.len() {
        assert(chain_ends(m, arms, arm_index + 1, 0));
        lemma_if_else_arm(m, arms, arm_index + 1, 0, v);
    } else {
        let pattern = patterns[pattern_index as int];
        let is_end = pattern_index + 1 == patterns.len() && arm_index + 2 == arms.len();
        assert(chain.tests[0].pattern == pattern);
        if matches_value(m, pattern, v) {
            assert(arm_matches_value(m, arms[arm_index as int], v));
        } else if is_end {
            assert(chain.tests.drop_first() =~= seq![]);
            assert(if_else_arm(m, seq![], (arms.len() - 1) as usize, v) == arms.len() - 1);
            assert forall|i: int, j: int|
                arm_index <= i < arms.len() - 1 && 0 <= j < arms[i].patterns@.len() && (i
                    > arm_index || j >= pattern_index) implies !matches_value(
                m,
                #[trigger] arms[i].patterns@[j],
                v,
            ) by {
                assert(i == arm_index && j == pattern_index);
            }
        } else {
            assert(chain.tests.drop_first() =~= felt252_chain(
                m,
                arms,
                arm_index,
                pattern_index + 1,
            ).tests);
                lemma_if_else_arm(m, arms, arm_index, pattern_index + 1, v);
        }
    }
}

} // verus!

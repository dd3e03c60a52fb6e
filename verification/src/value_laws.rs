//! What a match on a number is for: which matches are lowered, and which arm a number reaches when the
//! lowered match is run.
use vstd::prelude::*;

use crate::context::{LoweringContext, LoweringFlowError, LoweringResult};
use crate::diagnostic::{
    DiagnosticAdded, LocationId, LoweringDiagnostic, LoweringDiagnosticKind, MatchDiagnostic,
    MatchKind, Report,
};
use crate::diagnostic_utils::StableLocation;
use crate::lowered::{
    BlockId, FunctionId, MatchArmSelector, MatchInfo, VarType, VarUsage, VariableId,
};
use crate::match_groups::MatchLeafBuilder;
use crate::semantic::{ExprMatch, Flag, MatchArm, PatternId, PatternKind, SemanticModel, TypeId};
use crate::syntax::SyntaxStablePtrId;
use crate::value_match::{
    below, block_of_test, chain_ends, emission_fits, emission_reports, felt252_arm_outcome,
    felt252_chain, if_else_arm, if_else_end, if_else_leaves, is_downcast_match,
    is_first_matching_arm, is_if_else_code, is_index_enum_match, is_sequential, jump_table_leaves,
    law_if_else_selects_the_first_matching_arm, law_jump_table_selects_the_first_matching_arm,
    lemma_below, lemma_chain_ends, lemma_chain_has_a_test, lemma_error_is_final, lemma_len_fits,
    lemma_otherwise_is_other, lemma_scan, lemma_value_patterns_ordered, literal_error,
    matches_value, scan, tested_input, tests_made, value_match_error, value_match_outcome,
    value_patterns, EmittedJumpTable, EmittedTest, Felt252Chain, Felt252Test, TestCode,
    ValueMatch, ValueMatchBody,
};

verus! {

/// The patterns of the arms, in the order in which they are written.
pub open spec fn written_patterns(arms: Seq<MatchArm>) -> Seq<PatternId> {
    arms.map_values(|arm: MatchArm| arm.patterns@).flatten()
}

/// The value of a literal pattern.
pub open spec fn literal_of(m: &SemanticModel, pattern: PatternId) -> Option<int> {
    match m.kind(pattern) {
        PatternKind::Literal(literal) => Some(literal.value()),
        _ => None,
    }
}

/// The patterns are distinct literals that make up exactly the numbers from zero to `max`, in any
/// order, followed by one `_`.
pub open spec fn lists_all_up_to(m: &SemanticModel, patterns: Seq<PatternId>, max: int) -> bool {
    let n = patterns.len() - 1;
    &&& n >= 0
    &&& m.kind(patterns[n]) is Otherwise
    &&& forall|k: int|
        0 <= k < n ==> (literal_of(m, #[trigger] patterns[k]) matches Some(v) && 0 <= v <= max)
    &&& forall|j: int, k: int|
        0 <= j < k < n ==> literal_of(m, #[trigger] patterns[j]) != literal_of(
            m,
            #[trigger] patterns[k],
        )
    &&& forall|v: int| 0 <= v <= max ==> is_listed(m, patterns, v)
}

/// Whether one of `patterns` is the literal `v`.
pub open spec fn is_listed(m: &SemanticModel, patterns: Seq<PatternId>, v: int) -> bool {
    exists|k: int| 0 <= k < patterns.len() && literal_of(m, #[trigger] patterns[k]) == Some(v)
}

/// Whether one of `patterns` is `_`.
pub open spec fn has_otherwise(m: &SemanticModel, patterns: Seq<PatternId>) -> bool {
    exists|k: int| 0 <= k < patterns.len() && m.kind(#[trigger] patterns[k]) is Otherwise
}

/// A match error, and where it is reported.
pub struct Fault {
    pub ptr: SyntaxStablePtrId,
    pub error: MatchDiagnostic<Seq<char>>,
}

/// What is wrong with the pattern at `k`, seen with those before it, and where: it comes after a `_`,
/// is no number that can be counted, is a number that came before, or is no literal.
pub open spec fn fault_at(
    m: &SemanticModel,
    expr_ptr: SyntaxStablePtrId,
    patterns: Seq<PatternId>,
    k: int,
) -> Option<Fault> {
    let ptr = m.pattern_ptr(patterns[k]);
    let earlier = patterns.take(k);
    if has_otherwise(m, earlier) {
        Some(Fault { ptr: ptr, error: MatchDiagnostic::UnreachableMatchArm })
    } else {
        match (m.kind(patterns[k]), literal_of(m, patterns[k])) {
            (_, Some(v)) => if v < 0 || v > usize::MAX {
                Some(Fault { ptr: expr_ptr, error: MatchDiagnostic::UnsupportedMatchArmNonSequential })
            } else if is_listed(m, earlier, v) {
                Some(Fault { ptr: ptr, error: MatchDiagnostic::UnreachableMatchArm })
            } else {
                None
            },
            (PatternKind::Otherwise, None) => None,
            (_, None) => Some(Fault { ptr: ptr, error: MatchDiagnostic::UnsupportedMatchArmNotALiteral }),
        }
    }
}

/// `report` is the match error `error` of a match expression at `ptr`.
pub open spec fn reports_error(
    report: Option<Report>,
    ptr: SyntaxStablePtrId,
    error: MatchDiagnostic<Seq<char>>,
) -> bool {
    &&& report matches Some(report)
    &&& report.location.0.0 == ptr
    &&& report.kind matches LoweringDiagnosticKind::MatchError(reported)
    &&& reported.kind == MatchKind::Match
    &&& reported.error == error
}

proof fn lemma_written(arms: Seq<MatchArm>)
    ensures
        written_patterns(arms).len() == value_patterns(arms).len(),
        forall|k: int|
            0 <= k < value_patterns(arms).len() ==> (#[trigger] value_patterns(arms)[k]).1
                == written_patterns(arms)[k],
    decreases arms.len(),
{
    if arms.len() > 0 {
        let before = arms.drop_last();
        lemma_written(before);
        let lists = before.map_values(|arm: MatchArm| arm.patterns@);
        let last = arms.last().patterns@;
        lists.lemma_flatten_push(last);
        assert(arms.map_values(|arm: MatchArm| arm.patterns@) =~= lists.push(last));
        assert(written_patterns(arms) == written_patterns(before) + last);
        assert forall|k: int| 0 <= k < value_patterns(arms).len() implies (#[trigger] value_patterns(
            arms,
        )[k]).1 == written_patterns(arms)[k] by {
            if k < value_patterns(before).len() {
                assert(value_patterns(arms)[k] == value_patterns(before)[k]);
            }
        }
    }
}

/// What reading the first `n` patterns finds where nothing is wrong with them.
proof fn lemma_scan_prefix(
    m: &SemanticModel,
    expr_ptr: SyntaxStablePtrId,
    patterns: Seq<(usize, PatternId)>,
    written: Seq<PatternId>,
    n: nat,
)
    requires
        n <= patterns.len(),
        patterns.len() == written.len(),
        forall|k: int| 0 <= k < patterns.len() ==> (#[trigger] patterns[k]).1 == written[k],
        forall|k: int| 0 <= k < n ==> (#[trigger] fault_at(m, expr_ptr, written, k)) is None,
    ensures
        ({
            let scanned = scan(m, expr_ptr, patterns.take(n as int));
            &&& scanned.error is None
            &&& scanned.otherwise_exist == has_otherwise(m, written.take(n as int))
            &&& forall|value: usize| #[trigger]
                scanned.literals_to_arm_map.dom().contains(value) <==> is_listed(
                    m,
                    written.take(n as int),
                    value as int,
                )
        }),
    decreases n,
{
    if n > 0 {
        lemma_scan_prefix(m, expr_ptr, patterns, written, (n - 1) as nat);
        let k = n - 1;
        assert(patterns.take(n as int).drop_last() =~= patterns.take(k));
        assert(patterns.take(n as int).last() == patterns[k]);
        let before = written.take(k);
        let now = written.take(n as int);
        assert(fault_at(m, expr_ptr, written, k) is None);
        assert(now =~= before.push(written[k]));
        lemma_one_more(m, before, written[k]);
    }
}

/// What one more pattern brings.
proof fn lemma_one_more(m: &SemanticModel, before: Seq<PatternId>, pattern: PatternId)
    ensures
        has_otherwise(m, before.push(pattern)) <==> has_otherwise(m, before) || m.kind(
            pattern,
        ) is Otherwise,
        forall|v: int| #[trigger]
            is_listed(m, before.push(pattern), v) <==> is_listed(m, before, v) || literal_of(
                m,
                pattern,
            ) == Some(v),
{
    let now = before.push(pattern);
    assert(now[before.len() as int] == pattern);
    assert(forall|k: int| 0 <= k < before.len() ==> #[trigger] before[k] == now[k]);
    if has_otherwise(m, before) {
        let k = choose|k: int| 0 <= k < before.len() && m.kind(#[trigger] before[k]) is Otherwise;
        assert(m.kind(now[k]) is Otherwise);
    }
    assert forall|v: int| #[trigger]
        is_listed(m, now, v) <==> is_listed(m, before, v) || literal_of(m, pattern) == Some(v) by {
        if is_listed(m, before, v) {
            let k = choose|k: int|
                0 <= k < before.len() && literal_of(m, #[trigger] before[k]) == Some(v);
            assert(literal_of(m, now[k]) == Some(v));
        }
    }
}

/// Where nothing is wrong with the patterns, their literals are sequential where they make up the
/// numbers up to one of them.
proof fn lemma_sequential_means_all_listed(
    m: &SemanticModel,
    map: Map<usize, usize>,
    patterns: Seq<PatternId>,
)
    requires
        map.dom().finite(),
        forall|value: usize| #[trigger]
            map.dom().contains(value) <==> is_listed(m, patterns, value as int),
        forall|k: int|
            0 <= k < patterns.len() ==> (literal_of(m, #[trigger] patterns[k]) matches Some(v) ==> 0
                <= v <= usize::MAX),
    ensures
        is_sequential(map) <==> exists|max: usize| #[trigger] lists_range(m, patterns, max),
        forall|max: usize| #[trigger]
            lists_range(m, patterns, max) ==> map.dom().len() == max + 1,
{
    if is_sequential(map) {
        lemma_len_fits(map);
        let max = (map.dom().len() - 1) as usize;
        assert forall|v: int| is_listed(m, patterns, v) <==> 0 <= v <= max by {
            if is_listed(m, patterns, v) {
                let k = choose|k: int|
                    0 <= k < patterns.len() && literal_of(m, #[trigger] patterns[k]) == Some(v);
                assert(map.dom().contains(v as usize));
            }
            if 0 <= v <= max {
                assert(map.dom().contains(v as usize));
            }
        }
        assert(lists_range(m, patterns, max));
    }
    assert forall|max: usize| #[trigger] lists_range(m, patterns, max) implies map.dom().len() == max
        + 1 && is_sequential(map) by {
        lemma_below(max as nat);
        let all = below(max as nat).insert(max);
        assert forall|value: usize| #[trigger] map.dom().contains(value) <==> all.contains(value) by {
            assert(is_listed(m, patterns, value as int) <==> 0 <= value <= max);
        }
        assert(map.dom() =~= all);
        assert forall|value: usize| #[trigger] map.dom().contains(value) <==> value
            < map.dom().len() by {
            assert(map.dom().contains(value) <==> all.contains(value));
        }
    }
}

/// The literals among `patterns` make up exactly the numbers from zero to `max`.
pub open spec fn lists_range(m: &SemanticModel, patterns: Seq<PatternId>, max: usize) -> bool {
    forall|v: int| #[trigger] is_listed(m, patterns, v) <==> 0 <= v <= max
}

/// The first thing that is wrong with a match on a number is reported, and nothing else: a match
/// without arms is not exhaustive; then the patterns are read in the order in which they are written;
/// then a match without a `_` is not exhaustive; then the literals have to make up the numbers from
/// zero up to some number. Where nothing is wrong there is no error.
pub proof fn law_first_fault_of_a_value_match_is_reported(m: &SemanticModel, expr: &ExprMatch)
    ensures
        ({
            let error = value_match_error(m, expr);
            let ptr = expr.stable_ptr;
            let written = written_patterns(expr.arms@);
            let n = written.len();
            let sound = forall|k: int| 0 <= k < n ==> (#[trigger] fault_at(m, ptr, written, k)) is None;
            &&& expr.arms@.len() == 0 ==> reports_error(
                error,
                ptr,
                MatchDiagnostic::NonExhaustiveMatchValue,
            )
            &&& forall|k: int|
                0 <= k < n && (#[trigger] fault_at(m, ptr, written, k)) is Some && (forall|j: int|
                    0 <= j < k ==> (#[trigger] fault_at(m, ptr, written, j)) is None)
                    ==> reports_error(
                    error,
                    (fault_at(m, ptr, written, k)->0).ptr,
                    (fault_at(m, ptr, written, k)->0).error,
                )
            &&& expr.arms@.len() > 0 && sound && !has_otherwise(m, written) ==> reports_error(
                error,
                ptr,
                MatchDiagnostic::NonExhaustiveMatchValue,
            )
            &&& sound && has_otherwise(m, written) && !(exists|max: usize| #[trigger]
                lists_range(m, written, max)) ==> reports_error(
                error,
                ptr,
                MatchDiagnostic::UnsupportedMatchArmNonSequential,
            )
            &&& sound && has_otherwise(m, written) && (exists|max: usize| #[trigger]
                lists_range(m, written, max)) ==> error is None
        }),
{
    let ptr = expr.stable_ptr;
    let arms = expr.arms@;
    let patterns = value_patterns(arms);
    let written = written_patterns(arms);
    let n = written.len();
    lemma_written(arms);
    if arms.len() == 0 {
        assert(patterns.len() == 0);
    }
    assert(patterns.take(n as int) =~= patterns);
    assert(written.take(n as int) =~= written);
    assert forall|k: int|
        0 <= k < n && (#[trigger] fault_at(m, ptr, written, k)) is Some && (forall|j: int|
            0 <= j < k ==> (#[trigger] fault_at(m, ptr, written, j)) is None) implies reports_error(
        value_match_error(m, expr),
        (fault_at(m, ptr, written, k)->0).ptr,
        (fault_at(m, ptr, written, k)->0).error,
    ) by {
        lemma_scan_prefix(m, ptr, patterns, written, k as nat);
        let next = patterns.take(k + 1);
        assert(next.drop_last() =~= patterns.take(k));
        assert(next.last() == patterns[k]);
        let scanned = scan(m, ptr, next);
        if let Some(v) = literal_of(m, written[k]) {
            if 0 <= v <= usize::MAX {
                assert(scan(m, ptr, patterns.take(k)).literals_to_arm_map.dom().contains(v as usize)
                    <==> is_listed(m, written.take(k), v));
            }
        }
        assert(scanned.error is Some);
        lemma_error_is_final(m, ptr, next, patterns.skip(k + 1));
        assert(next + patterns.skip(k + 1) =~= patterns);
    }
    if forall|k: int| 0 <= k < n ==> (#[trigger] fault_at(m, ptr, written, k)) is None {
        lemma_scan_prefix(m, ptr, patterns, written, n);
        lemma_scan(m, ptr, patterns);
        assert forall|k: int| 0 <= k < n implies (literal_of(m, #[trigger] written[k]) matches Some(v)
            ==> 0 <= v <= usize::MAX) by {
            assert(fault_at(m, ptr, written, k) is None);
        }
        lemma_sequential_means_all_listed(
            m,
            scan(m, ptr, patterns).literals_to_arm_map,
            written,
        );
    }
}

/// A match on a number has no error exactly where its patterns are distinct literals that make up the
/// numbers from zero to a number that can be counted, followed by one `_`.
pub proof fn law_value_matches_without_an_error_list_all_numbers(m: &SemanticModel, expr: &ExprMatch)
    ensures
        value_match_error(m, expr) is None <==> exists|max: usize| #[trigger]
            lists_all_up_to(m, written_patterns(expr.arms@), max as int),
{
    let ptr = expr.stable_ptr;
    let written = written_patterns(expr.arms@);
    let n = written.len();
    law_first_fault_of_a_value_match_is_reported(m, expr);
    if exists|max: usize| #[trigger] lists_all_up_to(m, written, max as int) {
        let max = choose|max: usize| #[trigger] lists_all_up_to(m, written, max as int);
        lemma_all_listed(m, ptr, written, max);
        if expr.arms@.len() == 0 {
            lemma_written(expr.arms@);
        }
    }
    if value_match_error(m, expr) is None {
        if !(forall|k: int| 0 <= k < n ==> (#[trigger] fault_at(m, ptr, written, k)) is None) {
            let k = lemma_first_fault(m, ptr, written, 0);
            assert(fault_at(m, ptr, written, k) is Some);
            assert(reports_error(
                value_match_error(m, expr),
                (fault_at(m, ptr, written, k)->0).ptr,
                (fault_at(m, ptr, written, k)->0).error,
            ));
        }
        assert(expr.arms@.len() > 0);
        assert(has_otherwise(m, written));
        let max = choose|max: usize| #[trigger] lists_range(m, written, max);
        let at = choose|k: int| 0 <= k < n && m.kind(#[trigger] written[k]) is Otherwise;
        assert forall|k: int| 0 <= k < n implies k <= at && (k < at ==> (literal_of(
            m,
            #[trigger] written[k],
        ) matches Some(v) && 0 <= v <= max)) by {
            assert(fault_at(m, ptr, written, k) is None);
            if k > at {
                assert(written.take(k)[at] == written[at]);
                assert(has_otherwise(m, written.take(k)));
            }
            if k < at {
                if m.kind(written[k]) is Otherwise {
                    assert(fault_at(m, ptr, written, at) is None);
                    assert(written.take(at)[k] == written[k]);
                    assert(has_otherwise(m, written.take(at)));
                }
                if let Some(v) = literal_of(m, written[k]) {
                    assert(is_listed(m, written, v));
                }
            }
        }
        if at < n - 1 {
            assert(n - 1 <= at) by {
                let last = written[n - 1];
            }
        }
        assert forall|j: int, k: int| 0 <= j < k < n - 1 implies literal_of(
            m,
            #[trigger] written[j],
        ) != literal_of(m, #[trigger] written[k]) by {
            assert(fault_at(m, ptr, written, k) is None);
            assert(written.take(k)[j] == written[j]);
            if literal_of(m, written[j]) == literal_of(m, written[k]) {
                assert(is_listed(m, written.take(k), literal_of(m, written[k])->0));
            }
        }
        assert(lists_all_up_to(m, written, max as int));
    }
}

proof fn lemma_first_fault(
    m: &SemanticModel,
    ptr: SyntaxStablePtrId,
    written: Seq<PatternId>,
    n: int,
) -> (k: int)
    requires
        0 <= n <= written.len(),
        forall|j: int| 0 <= j < n ==> (#[trigger] fault_at(m, ptr, written, j)) is None,
        exists|j: int| 0 <= j < written.len() && (#[trigger] fault_at(m, ptr, written, j)) is Some,
    ensures
        0 <= k < written.len(),
        fault_at(m, ptr, written, k) is Some,
        forall|j: int| 0 <= j < k ==> (#[trigger] fault_at(m, ptr, written, j)) is None,
    decreases written.len() - n,
{
    if n < written.len() && fault_at(m, ptr, written, n) is None {
        lemma_first_fault(m, ptr, written, n + 1)
    } else {
        n
    }
}

/// Nothing is wrong with distinct literals that make up all numbers, followed by one `_`.
proof fn lemma_all_listed(
    m: &SemanticModel,
    ptr: SyntaxStablePtrId,
    written: Seq<PatternId>,
    max: usize,
)
    requires
        lists_all_up_to(m, written, max as int),
    ensures
        forall|k: int|
            0 <= k < written.len() ==> (#[trigger] fault_at(m, ptr, written, k)) is None,
        has_otherwise(m, written),
        lists_range(m, written, max),
{
    let n = written.len() - 1;
    assert(m.kind(written[n]) is Otherwise);
    assert forall|k: int| 0 <= k < written.len() implies (#[trigger] fault_at(
        m,
        ptr,
        written,
        k,
    )) is None by {
        let earlier = written.take(k);
        assert forall|j: int| 0 <= j < k implies literal_of(m, #[trigger] earlier[j]) is Some
            && earlier[j] == written[j] by {
            assert(literal_of(m, written[j]) is Some);
        }
        assert(!has_otherwise(m, earlier));
        if k < n {
            let v = literal_of(m, written[k])->0;
            if is_listed(m, earlier, v) {
                let j = choose|j: int|
                    0 <= j < earlier.len() && literal_of(m, #[trigger] earlier[j]) == Some(v);
                assert(literal_of(m, written[j]) != literal_of(m, written[k]));
            }
        }
    }
    assert forall|v: int| #[trigger] is_listed(m, written, v) <==> 0 <= v <= max by {
        if is_listed(m, written, v) {
            let k = choose|k: int|
                0 <= k < written.len() && literal_of(m, #[trigger] written[k]) == Some(v);
            assert(k < n);
        }
    }
}

/// A match on a number whose patterns are distinct literals that make up the numbers from zero to a
/// number that can be counted, followed by one `_`, is lowered, and nothing is reported.
pub proof fn law_matches_on_all_numbers_are_lowered(
    before: LoweringContext,
    after: LoweringContext,
    expr: ExprMatch,
    match_input: VarUsage,
    ty: TypeId,
    r: LoweringResult<ValueMatch>,
    max: usize,
)
    requires
        value_match_outcome(before, after, expr, match_input, ty, r),
        lists_all_up_to(&before.semantic, written_patterns(expr.arms@), max as int),
    ensures
        r is Ok,
        after == before,
{
    law_value_matches_without_an_error_list_all_numbers(&before.semantic, &expr);
}

/// A test compares with zero the number less the literal of its pattern: the literal is subtracted
/// exactly where it is not zero. Tests are of literals, in the order in which they are written, and each
/// of its own arm.
pub proof fn law_tests_subtract_their_literals(
    m: &SemanticModel,
    arms: Seq<MatchArm>,
    i: int,
)
    requires
        arms.len() <= usize::MAX,
        0 <= i < felt252_chain(m, arms, 0, 0).tests.len(),
    ensures
        ({
            let test = felt252_chain(m, arms, 0, 0).tests[i];
            &&& literal_of(m, test.pattern) is Some
            &&& test.subtracts <==> literal_of(m, test.pattern) != Some(0int)
            &&& i < written_patterns(arms).len()
            &&& test.pattern == written_patterns(arms)[i]
            &&& test.arm_index < arms.len()
            &&& arms[test.arm_index as int].patterns@.contains(test.pattern)
        }),
{
    lemma_tests(m, arms, 0, 0);
    assert(arms.take(0) =~= seq![]);
    assert(written_from(arms, 0, 0) =~= written_patterns(arms)) by {
        assert(arms.skip(1) =~= arms.drop_first());
        if arms.len() > 0 {
            let lists = arms.map_values(|arm: MatchArm| arm.patterns@);
            assert(lists.drop_first() =~= arms.drop_first().map_values(
                |arm: MatchArm| arm.patterns@,
            ));
            assert(arms[0].patterns@.skip(0) =~= arms[0].patterns@);
        }
    }
}

/// The patterns from that at `pattern_index` of the arm at `arm_index` on.
spec fn written_from(arms: Seq<MatchArm>, arm_index: nat, pattern_index: nat) -> Seq<PatternId> {
    if arm_index >= arms.len() {
        seq![]
    } else {
        arms[arm_index as int].patterns@.skip(pattern_index as int) + written_patterns(
            arms.skip(arm_index as int + 1),
        )
    }
}

proof fn lemma_tests(m: &SemanticModel, arms: Seq<MatchArm>, arm_index: nat, pattern_index: nat)
    requires
        arms.len() <= usize::MAX,
        arm_index < arms.len() ==> pattern_index <= arms[arm_index as int].patterns@.len(),
    ensures
        ({
            let tests = felt252_chain(m, arms, arm_index, pattern_index).tests;
            let written = written_from(arms, arm_index, pattern_index);
            &&& tests.len() <= written.len()
            &&& forall|i: int|
                0 <= i < tests.len() ==> {
                    &&& literal_of(m, (#[trigger] tests[i]).pattern) is Some
                    &&& tests[i].subtracts <==> literal_of(m, tests[i].pattern) != Some(0int)
                    &&& tests[i].pattern == written[i]
                    &&& tests[i].arm_index < arms.len()
                    &&& arms[tests[i].arm_index as int].patterns@.contains(tests[i].pattern)
                }
        }),
    decreases arms.len() - arm_index, arms[arm_index as int].patterns@.len() - pattern_index,
{
    if arm_index < arms.len() {
        let patterns = arms[arm_index as int].patterns@;
        let tests = felt252_chain(m, arms, arm_index, pattern_index).tests;
        let written = written_from(arms, arm_index, pattern_index);
        if pattern_index >= patterns.len() {
            lemma_tests(m, arms, arm_index + 1, 0);
            let rest = arms.skip(arm_index as int + 1);
            assert(patterns.skip(pattern_index as int) =~= seq![]);
            assert(written =~= written_patterns(rest));
            if rest.len() > 0 {
                let lists = rest.map_values(|arm: MatchArm| arm.patterns@);
                assert(rest.drop_first() =~= arms.skip(arm_index as int + 2));
                assert(lists.drop_first() =~= rest.drop_first().map_values(
                    |arm: MatchArm| arm.patterns@,
                ));
                assert(rest[0].patterns@.skip(0) =~= rest[0].patterns@);
                assert(written =~= written_from(arms, arm_index + 1, 0));
            }
        } else {
            lemma_tests(m, arms, arm_index, pattern_index + 1);
            let rest = felt252_chain(m, arms, arm_index, pattern_index + 1).tests;
            let after = written_from(arms, arm_index, pattern_index + 1);
            assert(written =~= seq![patterns[pattern_index as int]] + after);
            assert forall|i: int| 0 <= i < tests.len() implies {
                &&& literal_of(m, (#[trigger] tests[i]).pattern) is Some
                &&& tests[i].subtracts <==> literal_of(m, tests[i].pattern) != Some(0int)
                &&& tests[i].pattern == written[i]
                &&& tests[i].arm_index < arms.len()
                &&& arms[tests[i].arm_index as int].patterns@.contains(tests[i].pattern)
            } by {
                if i > 0 {
                    assert(tests[i] == rest[i - 1]);
                    assert(written[i] == after[i - 1]);
                }
            }
        }
    }
}

/// Where a match on whether a number is zero goes. `value_of` tells the number of each variable.
pub open spec fn goes_to(info: MatchInfo, value_of: spec_fn(VarUsage) -> int, block: BlockId) -> bool {
    &&& info matches MatchInfo::Extern(info)
    &&& info.function == FunctionId::Felt252IsZero
    &&& info.inputs@.len() == 1
    &&& exists|a: int|
        0 <= a < info.arms@.len() && (#[trigger] info.arms@[a]).arm_selector == (if value_of(
            info.inputs@[0],
        ) == 0 {
            MatchArmSelector::Zero
        } else {
            MatchArmSelector::NonZero
        }) && info.arms@[a].block_id == block
}

/// Where the code of tests ends that starts in `block`: the match of a block leads to the next block,
/// up to a block without code.
pub open spec fn runs_to(
    code: Seq<TestCode>,
    block: BlockId,
    value_of: spec_fn(VarUsage) -> int,
    end: BlockId,
) -> bool
    decreases code.len(),
{
    if code.len() == 0 || code[0].block != block {
        end == block
    } else {
        exists|next: BlockId| #[trigger]
            goes_to(code[0].info, value_of, next) && runs_to(
                code.drop_first(),
                next,
                value_of,
                end,
            )
    }
}

/// What a subtraction brings is the difference of its inputs.
pub open spec fn computes(code: TestCode, value_of: spec_fn(VarUsage) -> int) -> bool {
    code.subtraction matches Some(call) && call.request.function == FunctionId::Felt252Sub
        && call.request.inputs@.len() == 2 ==> value_of((code.subtraction->0).result) == value_of(
        (code.subtraction->0).request.inputs@[0],
    ) - value_of((code.subtraction->0).request.inputs@[1])
}

/// The numbers that the variables of an if-else construct hold for the number `v`: the tested variable
/// holds `v`, the variable of a literal holds the literal, and subtractions subtract.
pub open spec fn holds_numbers(
    m: &SemanticModel,
    arms: Seq<MatchArm>,
    match_input: VarUsage,
    emitted: Seq<EmittedTest>,
    code: Seq<TestCode>,
    value_of: spec_fn(VarUsage) -> int,
    v: int,
) -> bool {
    &&& value_of(match_input) == v
    &&& forall|i: int|
        0 <= i < emitted.len() ==> ((#[trigger] emitted[i]).vars matches Ok(vars)
            ==> vars.difference matches Some(difference) ==> literal_of(
            m,
            written_patterns(arms)[i],
        ) == Some(value_of(difference.literal)))
    &&& forall|i: int| 0 <= i < code.len() ==> computes(#[trigger] code[i], value_of)
}

/// No block where a test holds is one where a test does not hold.
pub open spec fn blocks_differ(emitted: Seq<EmittedTest>) -> bool {
    forall|i: int, j: int|
        0 <= i < emitted.len() && 0 <= j < emitted.len() ==> (#[trigger] emitted[i]).main_block != (
        #[trigger] emitted[j]).else_block
}

/// `block` is that of a leaf of the first arm with a pattern that matches the number `v`.
pub open spec fn is_block_of_the_matching_arm(
    m: &SemanticModel,
    arms: Seq<MatchArm>,
    v: int,
    leaves: Seq<MatchLeafBuilder>,
    block: BlockId,
) -> bool {
    exists|i: int| {
        &&& 0 <= i < leaves.len()
        &&& (#[trigger] leaves[i]).builder == block
        &&& leaves[i].lowering_result is Ok
        &&& is_first_matching_arm(m, arms, v, leaves[i].arm_index as int)
    }
}

/// Running the tests of an if-else construct on a number ends in the block of a leaf of the first arm
/// with a pattern that matches the number, and nowhere else.
pub proof fn law_running_the_tests_reaches_the_first_matching_arm(
    m: &SemanticModel,
    expr: &ExprMatch,
    block: BlockId,
    match_input: VarUsage,
    location: LocationId,
    emitted: Seq<EmittedTest>,
    code: Seq<TestCode>,
    value_of: spec_fn(VarUsage) -> int,
    v: int,
)
    requires
        expr.arms@.len() <= usize::MAX,
        value_match_error(m, expr) is None,
        felt252_chain(m, expr.arms@, 0, 0).not_a_literal is None,
        emission_fits(felt252_chain(m, expr.arms@, 0, 0).tests, emitted),
        literal_error(emitted) is None,
        is_if_else_code(code, block, match_input, location, emitted),
        blocks_differ(emitted),
        holds_numbers(m, expr.arms@, match_input, emitted, code, value_of, v),
    ensures
        exists|end: BlockId| #[trigger] runs_to(code, block, value_of, end),
        forall|end: BlockId| #[trigger]
            runs_to(code, block, value_of, end) ==> is_block_of_the_matching_arm(
                m,
                expr.arms@,
                v,
                if_else_leaves(
                    expr.arms@.len(),
                    felt252_chain(m, expr.arms@, 0, 0).tests,
                    emitted,
                ),
                end,
            ),
{
    let arms = expr.arms@;
    let tests = felt252_chain(m, arms, 0, 0).tests;
    lemma_otherwise_is_other(m, expr);
    lemma_chain_ends(m, arms, 0, 0);
    lemma_chain_has_a_test(m, arms, 0, 0);
    if emitted.len() < tests.len() {
        assert(emitted[emitted.len() - 1].vars is Err);
    }
    assert forall|i: int| 0 <= i < emitted.len() implies (#[trigger] emitted[i]).vars is Ok
        && tests[i].pattern == written_patterns(arms)[i] && tests[i].subtracts == (literal_of(
        m,
        tests[i].pattern,
    ) != Some(0int)) && literal_of(m, tests[i].pattern) is Some by {
        law_tests_subtract_their_literals(m, arms, i);
    }
    let default_arm = (arms.len() - 1) as usize;
    let end = lemma_run(
        m,
        arms,
        tests,
        default_arm,
        block,
        match_input,
        location,
        emitted,
        code,
        value_of,
        v,
        0,
    );
    assert(code.skip(0) =~= code);
    assert(tests.skip(0) =~= tests);
    law_if_else_selects_the_first_matching_arm(m, expr, v);
    let leaves = if_else_leaves(arms.len(), tests, emitted);
    assert(leaves[end].lowering_result is Ok);
}

/// Running code goes on where its first block leads.
proof fn lemma_step(
    code: Seq<TestCode>,
    block: BlockId,
    value_of: spec_fn(VarUsage) -> int,
    next: BlockId,
)
    requires
        code.len() > 0,
        code[0].block == block,
        goes_to(code[0].info, value_of, next),
        forall|other: BlockId| #[trigger] goes_to(code[0].info, value_of, other) ==> other == next,
    ensures
        forall|end: BlockId| #[trigger]
            runs_to(code, block, value_of, end) <==> runs_to(
                code.drop_first(),
                next,
                value_of,
                end,
            ),
{
}

/// As the law, from the test at `n` on. The index of the leaf is returned.
proof fn lemma_run(
    m: &SemanticModel,
    arms: Seq<MatchArm>,
    tests: Seq<Felt252Test>,
    default_arm: usize,
    block: BlockId,
    match_input: VarUsage,
    location: LocationId,
    emitted: Seq<EmittedTest>,
    code: Seq<TestCode>,
    value_of: spec_fn(VarUsage) -> int,
    v: int,
    n: int,
) -> (k: int)
    requires
        0 <= n < emitted.len(),
        emitted.len() == tests.len(),
        emission_fits(tests, emitted),
        forall|i: int|
            0 <= i < emitted.len() ==> (#[trigger] emitted[i]).vars is Ok && tests[i].pattern
                == written_patterns(arms)[i] && tests[i].subtracts == (literal_of(
                m,
                tests[i].pattern,
            ) != Some(0int)) && literal_of(m, tests[i].pattern) is Some,
        is_if_else_code(code, block, match_input, location, emitted),
        blocks_differ(emitted),
        holds_numbers(m, arms, match_input, emitted, code, value_of, v),
    ensures
        n <= k <= emitted.len(),
        ({
            let expected = if k < emitted.len() {
                emitted[k].main_block
            } else {
                emitted.last().else_block
            };
            &&& runs_to(code.skip(n), block_of_test(block, emitted, n), value_of, expected)
            &&& forall|end: BlockId| #[trigger]
                runs_to(code.skip(n), block_of_test(block, emitted, n), value_of, end) ==> end
                    == expected
        }),
        if_else_arm(m, tests.skip(n), default_arm, v) == (if k < emitted.len() {
            tests[k].arm_index
        } else {
            default_arm
        }),
    decreases emitted.len() - n,
{
    let here = block_of_test(block, emitted, n);
    let rest = code.skip(n);
    let test = emitted[n];
    assert(rest[0] == code[n]);
    assert(code[n].compares(here, match_input, location, test));
    assert(computes(code[n], value_of));
    assert(rest.drop_first() =~= code.skip(n + 1));
    assert(tests.skip(n)[0] == tests[n]);
    assert(tests.skip(n).drop_first() =~= tests.skip(n + 1));
    let info = code[n].info;
    let arms_of_info = info->Extern_0.arms@;
    let holds = matches_value(m, tests[n].pattern, v);
    let next = if holds {
        test.main_block
    } else {
        test.else_block
    };
    let tested = info->Extern_0.inputs@[0];
    assert((value_of(tested) == 0) == holds);
    assert(goes_to(info, value_of, next)) by {
        assert(arms_of_info[0].arm_selector == MatchArmSelector::Zero);
        assert(arms_of_info[1].arm_selector == MatchArmSelector::NonZero);
    }
    assert forall|other: BlockId| #[trigger] goes_to(info, value_of, other) implies other == next by {}
    lemma_step(rest, here, value_of, next);
    assert(forall|end: BlockId| #[trigger]
        runs_to(rest, here, value_of, end) <==> runs_to(code.skip(n + 1), next, value_of, end));
    if holds {
        let after = code.skip(n + 1);
        if after.len() > 0 {
            assert(after[0] == code[n + 1]);
            assert(code[n + 1].compares(
                block_of_test(block, emitted, n + 1),
                match_input,
                location,
                emitted[n + 1],
            ));
            assert(emitted[n].main_block != emitted[n].else_block);
        }
        assert(forall|end: BlockId| #[trigger]
            runs_to(after, next, value_of, end) <==> end == next);
        n
    } else if n + 1 == emitted.len() {
        let after = code.skip(n + 1);
        assert(after.len() == 0);
        assert(forall|end: BlockId| #[trigger]
            runs_to(after, next, value_of, end) <==> end == next);
        assert(tests.skip(n + 1).len() == 0);
        assert(if_else_arm(m, tests.skip(n + 1), default_arm, v) == default_arm);
        n + 1
    } else {
        lemma_run(
            m,
            arms,
            tests,
            default_arm,
            block,
            match_input,
            location,
            emitted,
            code,
            value_of,
            v,
            n + 1,
        )
    }
}

/// Whether a match on the values of the variable `var` leads from the number `v` to `end`.
pub open spec fn selects_value(info: MatchInfo, var: VariableId, v: int, end: BlockId) -> bool {
    &&& info matches MatchInfo::Value(info)
    &&& info.input.var_id == var
    &&& exists|b: int|
        0 <= b < info.arms@.len() && (#[trigger] info.arms@[b]).arm_selector
            == MatchArmSelector::Value(v as usize) && info.arms@[b].block_id == end
}

/// Where a jump table ends for the number `v`: a number that the conversion has a result for is jumped
/// by, in the block of the result; any other number takes the arm without a result.
pub open spec fn jumps_to(
    info: MatchInfo,
    in_range_block: BlockId,
    inner_info: MatchInfo,
    v: int,
    end: BlockId,
) -> bool {
    &&& info matches MatchInfo::Extern(outer)
    &&& outer.function matches FunctionId::Downcast { max, .. }
    &&& if 0 <= v <= max {
        exists|a: int| {
            &&& 0 <= a < outer.arms@.len()
            &&& (#[trigger] outer.arms@[a]).arm_selector == MatchArmSelector::OptionSome
            &&& outer.arms@[a].block_id == in_range_block
            &&& outer.arms@[a].var_ids@.len() == 1
            &&& selects_value(inner_info, outer.arms@[a].var_ids@[0], v, end)
        }
    } else {
        exists|a: int|
            0 <= a < outer.arms@.len() && (#[trigger] outer.arms@[a]).arm_selector
                == MatchArmSelector::OptionNone && outer.arms@[a].block_id == end
    }
}

/// Running a jump table on a number ends in the block of a leaf of the first arm with a pattern that
/// matches the number, and nowhere else, where the number is listed or the last arm has a pattern.
pub proof fn law_running_the_jump_table_reaches_the_first_matching_arm(
    before: LoweringContext,
    after: LoweringContext,
    expr: ExprMatch,
    match_input: VarUsage,
    ty: TypeId,
    lowered: ValueMatch,
    emitted: EmittedJumpTable,
    info: MatchInfo,
    inner_info: MatchInfo,
    in_range_input: VarUsage,
    v: int,
)
    requires
        value_match_outcome(before, after, expr, match_input, ty, Ok(lowered)),
        expr.arms@.len() <= usize::MAX,
        is_listed(&before.semantic, written_patterns(expr.arms@), v)
            || expr.arms@.last().patterns@.len() > 0,
        lowered.body matches ValueMatchBody::JumpTable { downcast, arm_indices, .. } && {
            &&& arm_indices@.len() == emitted.values@.len()
            &&& is_downcast_match(
                info,
                downcast,
                lowered.input,
                lowered.location,
                emitted.in_range_block,
                emitted.in_range_var,
                emitted.otherwise_block,
            )
        },
        in_range_input.var_id == emitted.in_range_var,
        is_index_enum_match(inner_info, in_range_input, lowered.location, emitted.values@),
    ensures
        exists|end: BlockId| #[trigger]
            jumps_to(info, emitted.in_range_block, inner_info, v, end),
        forall|end: BlockId| #[trigger]
            jumps_to(info, emitted.in_range_block, inner_info, v, end)
                ==> is_block_of_the_matching_arm(
                &before.semantic,
                expr.arms@,
                v,
                jump_table_leaves(
                    lowered.body->arm_indices@,
                    lowered.body->otherwise_arm_index,
                    emitted,
                ),
                end,
            ),
{
    let m = &before.semantic;
    let written = written_patterns(expr.arms@);
    let arm_indices = lowered.body->arm_indices@;
    let otherwise = lowered.body->otherwise_arm_index;
    let leaves = jump_table_leaves(arm_indices, otherwise, emitted);
    law_value_matches_without_an_error_list_all_numbers(m, &expr);
    let max = choose|max: usize| #[trigger] lists_all_up_to(m, written, max as int);
    lemma_all_listed(m, expr.stable_ptr, written, max);
    lemma_count(m, &expr, max);
    assert(is_listed(m, written, v) <==> 0 <= v <= max);
    law_jump_table_selects_the_first_matching_arm(m, &expr, arm_indices, v);
    let outer = info->Extern_0.arms@;
    let inner = inner_info->Value_0.arms@;
    assert(outer[0].arm_selector == MatchArmSelector::OptionSome);
    assert(outer[1].arm_selector == MatchArmSelector::OptionNone);
    let expected = if 0 <= v <= max {
        v
    } else {
        arm_indices.len() as int
    };
    if 0 <= v <= max {
        assert(inner[v].arm_selector == MatchArmSelector::Value(v as usize));
    }
    assert(jumps_to(info, emitted.in_range_block, inner_info, v, leaves[expected].builder));
    assert forall|end: BlockId| #[trigger]
        jumps_to(info, emitted.in_range_block, inner_info, v, end) implies leaves[expected].builder
        == end by {
        if 0 <= v <= max {
            let b = choose|b: int|
                0 <= b < inner.len() && (#[trigger] inner[b]).arm_selector
                    == MatchArmSelector::Value(v as usize) && inner[b].block_id == end;
            assert(inner[b].arm_selector == MatchArmSelector::Value(b as usize));
        }
    }
}

/// There are as many literals as numbers.
proof fn lemma_count(m: &SemanticModel, expr: &ExprMatch, max: usize)
    requires
        lists_all_up_to(m, written_patterns(expr.arms@), max as int),
    ensures
        value_match_error(m, expr) is None,
        scan(m, expr.stable_ptr, value_patterns(expr.arms@)).literals_to_arm_map.dom().len() == max
            + 1,
{
    let ptr = expr.stable_ptr;
    let written = written_patterns(expr.arms@);
    let patterns = value_patterns(expr.arms@);
    law_value_matches_without_an_error_list_all_numbers(m, expr);
    lemma_all_listed(m, ptr, written, max);
    lemma_written(expr.arms@);
    assert(patterns.take(patterns.len() as int) =~= patterns);
    assert(written.take(written.len() as int) =~= written);
    lemma_scan_prefix(m, ptr, patterns, written, written.len());
    lemma_scan(m, ptr, patterns);
    assert forall|k: int| 0 <= k < written.len() implies (literal_of(
        m,
        #[trigger] written[k],
    ) matches Some(v) ==> 0 <= v <= usize::MAX) by {
        assert(fault_at(m, ptr, written, k) is None);
    }
    lemma_sequential_means_all_listed(m, scan(m, ptr, patterns).literals_to_arm_map, written);
    assert(lists_range(m, written, max));
}

/// The number of arms from which on a jump table is used: the flag, where it is set, else a number that
/// depends on whether the type is that of all numbers.
pub open spec fn is_threshold(m: &SemanticModel, ty: TypeId, threshold: int) -> bool {
    match m.db.numeric_match_optimization_min_arms_threshold {
        Some(Flag::NumericMatchOptimizationMinArmsThreshold(n)) => threshold == n,
        _ => threshold == if ty == m.db.felt252 {
            10int
        } else {
            8int
        },
    }
}

/// A match on the numbers up to `max`, and on all others, is an if-else construct exactly where it has
/// fewer arms than the threshold. A number that is no felt252 is converted before it is tested. In a jump
/// table the number is converted to the numbers up to `max`.
pub proof fn law_how_a_number_is_matched(
    before: LoweringContext,
    after: LoweringContext,
    expr: ExprMatch,
    match_input: VarUsage,
    ty: TypeId,
    lowered: ValueMatch,
    max: usize,
    threshold: int,
)
    requires
        value_match_outcome(before, after, expr, match_input, ty, Ok(lowered)),
        lists_all_up_to(&before.semantic, written_patterns(expr.arms@), max as int),
        is_threshold(&before.semantic, ty, threshold),
    ensures
        lowered.input == match_input,
        lowered.location.0.0 == expr.stable_ptr,
        lowered.empty_match_info matches MatchInfo::Extern(info) && info.function
            == FunctionId::Felt252IsZero && info.inputs@ == seq![match_input] && info.arms@.len() == 0
            && info.location.0.0 == expr.stable_ptr,
        lowered.body is IfElse <==> max + 2 < threshold,
        lowered.body matches ValueMatchBody::IfElse { upcast, tests, else_var } ==> {
            &&& upcast is None <==> ty == before.semantic.db.felt252
            &&& upcast matches Some(call) ==> {
                &&& call.function == (FunctionId::UpcastToFelt252 { from: ty })
                &&& call.inputs@ == seq![match_input]
                &&& call.ret_ty == VarType::Felt252
                &&& call.location.0.0 == expr.stable_ptr
            }
            &&& else_var.ty == VarType::NonZeroFelt252
            &&& else_var.location.0.0 == expr.stable_ptr
            &&& tests@ == felt252_chain(&before.semantic, expr.arms@, 0, 0).tests
        },
        lowered.body matches ValueMatchBody::JumpTable {
            downcast,
            in_range_var,
            arm_indices,
            value_var,
            otherwise_arm_index,
        } ==> {
            &&& downcast == (FunctionId::Downcast { from: ty, max })
            &&& in_range_var.ty == (VarType::BoundedInt { max })
            &&& in_range_var.location.0.0 == expr.stable_ptr
            &&& value_var.ty == VarType::Unit
            &&& value_var.location.0.0 == expr.stable_ptr
            &&& arm_indices@.len() == max + 1
            &&& otherwise_arm_index == expr.arms@.len() - 1
        },
{
    lemma_count(&before.semantic, &expr, max);
}

/// What was reported while the literals of tests were lowered comes test by test.
pub proof fn law_literals_report_in_turn(emitted: Seq<EmittedTest>)
    ensures
        emitted.len() == 0 ==> emission_reports(emitted).len() == 0,
        emitted.len() > 0 ==> {
            let before = emission_reports(emitted.drop_last());
            let after = emission_reports(emitted);
            let last = emitted.last().diagnostics@;
            &&& after.len() == before.len() + last.len()
            &&& after.take(before.len() as int) == before
            &&& forall|k: int|
                0 <= k < last.len() ==> #[trigger] after[before.len() + k] == last[k]@
        },
    decreases emitted.len(),
{
    if emitted.len() > 0 {
        let before = emission_reports(emitted.drop_last());
        let after = emission_reports(emitted);
        if emitted.len() == 1 {
            assert(emitted.drop_last() =~= seq![]);
            assert(emitted.drop_first() =~= seq![]);
            assert(emission_reports(emitted.drop_first()) =~= seq![]);
            assert(before =~= seq![]);
            assert(after.take(0) =~= before);
        } else {
            let rest = emitted.drop_first();
            law_literals_report_in_turn(rest);
            assert(emitted.drop_last().drop_first() =~= rest.drop_last());
            assert(emitted.drop_last()[0] == emitted[0]);
            assert(rest.last() == emitted.last());
            let first = emitted[0].diagnostics@.map_values(|d: LoweringDiagnostic| d@);
            let middle = emission_reports(rest.drop_last());
            assert(before == first + middle);
            assert(after == first + emission_reports(rest));
            assert(emission_reports(rest).take(middle.len() as int) == middle);
            assert(after.take(before.len() as int) =~= before) by {
                assert forall|k: int| 0 <= k < before.len() implies after[k] == before[k] by {
                    if k >= first.len() {
                        assert(emission_reports(rest)[k - first.len()] == emission_reports(
                            rest,
                        ).take(middle.len() as int)[k - first.len()]);
                    }
                }
            }
            assert forall|k: int| 0 <= k < emitted.last().diagnostics@.len() implies
                #[trigger] after[before.len() + k] == emitted.last().diagnostics@[k]@ by {
                assert(emission_reports(rest)[middle.len() + k] == emitted.last().diagnostics@[k]@);
            }
        }
    }
}

/// An if-else construct ends with the error of the first literal that could not be lowered. Else it fails
/// at the first pattern that is no literal, which is reported after all else, and else it ends well.
pub proof fn law_if_else_ends_with_its_first_error(
    before: LoweringContext,
    after: LoweringContext,
    chain: Felt252Chain,
    emitted: Seq<EmittedTest>,
    r: LoweringResult<()>,
)
    requires
        if_else_end(before, after, chain, emitted, r),
    ensures
        ({
            let n = before.reported().len();
            let inner = emission_reports(emitted);
            let stopped = emitted.len() > 0 && emitted.last().vars is Err;
            &&& after.semantic == before.semantic
            &&& after.reported().len() >= n + inner.len()
            &&& after.reported().take((n + inner.len()) as int) == before.reported() + inner
            &&& stopped ==> r == Err::<(), _>(emitted.last().vars->Err_0) && after.reported().len()
                == n + inner.len()
            &&& !stopped && chain.not_a_literal is None ==> r is Ok && after.reported().len() == n
                + inner.len()
            &&& !stopped ==> (chain.not_a_literal matches Some(pattern) ==> {
                &&& r == Err::<(), _>(LoweringFlowError::Failed(DiagnosticAdded))
                &&& after.reported().len() == n + inner.len() + 1
                &&& reports_error(
                    Some(after.reported().last()),
                    before.semantic.pattern_ptr(pattern),
                    MatchDiagnostic::UnsupportedMatchArmNotALiteral,
                )
            })
        }),
{
    let n = before.reported().len();
    let inner = emission_reports(emitted);
    assert(after.reported().take((n + inner.len()) as int) =~= before.reported() + inner);
}

/// Where the `_` of a match on a number is, with the arms before it.
spec fn ends_at(m: &SemanticModel, arms: Seq<MatchArm>, q: int, r: int) -> bool {
    &&& 0 <= q < arms.len()
    &&& 0 <= r < arms[q].patterns@.len()
    &&& m.kind(arms[q].patterns@[r]) is Otherwise
    &&& r == arms[q].patterns@.len() - 1
    &&& forall|i: int| q < i < arms.len() ==> (#[trigger] arms[i]).patterns@.len() == 0
    &&& forall|i: int, j: int|
        0 <= i < arms.len() && 0 <= j < arms[i].patterns@.len() && (i != q || j != r) ==> m.kind(
            #[trigger] arms[i].patterns@[j],
        ) is Literal
}

proof fn lemma_chain_stops(
    m: &SemanticModel,
    arms: Seq<MatchArm>,
    a: nat,
    p: nat,
    q: int,
    r: int,
)
    requires
        ends_at(m, arms, q, r),
        a < q || a == q && p <= r,
    ensures
        ({
            let stopped = felt252_chain(m, arms, a, p).not_a_literal;
            let before_last = arms.len() - 2;
            if q == arms.len() - 1 && (a < before_last || a == before_last && p
                < arms[before_last].patterns@.len()) && arms[before_last].patterns@.len() > 0 {
                stopped is None
            } else {
                stopped == Some(arms[q].patterns@[r])
            }
        }),
    decreases arms.len() - a, arms[a as int].patterns@.len() - p,
{
    let patterns = arms[a as int].patterns@;
    if p >= patterns.len() {
        lemma_chain_stops(m, arms, a + 1, 0, q, r);
    } else if a == q && p == r {
        assert(felt252_chain(m, arms, a, p).not_a_literal == Some(patterns[p as int]));
    } else {
        assert(m.kind(arms[a as int].patterns@[p as int]) is Literal);
        if p + 1 == patterns.len() && a + 2 == arms.len() {
        } else {
            lemma_chain_stops(m, arms, a, p + 1, q, r);
        }
    }
}

/// An if-else construct of a match without an error takes its last arm where no test holds. Where the
/// last arm, or the one before it, has no pattern, or there is only one arm, the `_` is read as a literal
/// in its turn, and reported.
pub proof fn law_if_else_needs_patterns_in_its_last_arms(m: &SemanticModel, expr: &ExprMatch)
    requires
        expr.arms@.len() <= usize::MAX,
        value_match_error(m, expr) is None,
    ensures
        ({
            let arms = expr.arms@;
            let n = arms.len() as int;
            match felt252_chain(m, arms, 0, 0).not_a_literal {
                None => n >= 2 && arms[n - 2].patterns@.len() > 0 && arms[n - 1].patterns@.len() > 0,
                Some(pattern) => {
                    &&& n < 2 || arms[n - 2].patterns@.len() == 0 || arms[n - 1].patterns@.len() == 0
                    &&& pattern == written_patterns(arms).last()
                    &&& m.kind(pattern) is Otherwise
                },
            }
        }),
{
    let arms = expr.arms@;
    let written = written_patterns(arms);
    let patterns = value_patterns(arms);
    law_value_matches_without_an_error_list_all_numbers(m, expr);
    let max = choose|max: usize| #[trigger] lists_all_up_to(m, written, max as int);
    lemma_written(arms);
    lemma_value_patterns_ordered(arms);
    let end = written.len() - 1;
    let (q, r) = lemma_place(arms, end);
    assert(m.kind(written[end]) is Otherwise);
    assert forall|i: int| q < i < arms.len() implies (#[trigger] arms[i]).patterns@.len() == 0 by {
        if arms[i].patterns@.len() > 0 {
            let at = (i as usize, arms[i].patterns@[0]);
            assert(patterns.contains(at));
            let k = patterns.index_of(at);
            assert(patterns[k] == at);
            assert(patterns[k].0 <= patterns[end].0);
        }
    }
    assert forall|i: int, j: int|
        0 <= i < arms.len() && 0 <= j < arms[i].patterns@.len() && (i != q || j != r) implies m.kind(
        #[trigger] arms[i].patterns@[j],
    ) is Literal by {
        let k = lemma_at(arms, i, j);
        if k == end {
            lemma_place_is_unique(arms, i, j, q, r);
        }
        assert(literal_of(m, written[k]) is Some);
    }
    lemma_chain_stops(m, arms, 0, 0, q, r);
}

/// How many patterns the arms before the one at `i` have.
spec fn patterns_before(arms: Seq<MatchArm>, i: int) -> nat {
    value_patterns(arms.take(i)).len()
}

proof fn lemma_at(arms: Seq<MatchArm>, i: int, j: int) -> (k: int)
    requires
        0 <= i < arms.len(),
        0 <= j < arms[i].patterns@.len(),
    ensures
        k == patterns_before(arms, i) + j,
        0 <= k < value_patterns(arms).len(),
        value_patterns(arms)[k].1 == arms[i].patterns@[j],
    decreases arms.len(),
{
    let before = arms.drop_last();
    if i < before.len() {
        let k = lemma_at(before, i, j);
        assert(before.take(i) =~= arms.take(i));
        assert(value_patterns(arms)[k] == value_patterns(before)[k]);
        k
    } else {
        assert(arms.take(i) =~= before);
        value_patterns(before).len() + j
    }
}

/// Where the pattern at `k` is.
proof fn lemma_place(arms: Seq<MatchArm>, k: int) -> (at: (int, int))
    requires
        0 <= k < value_patterns(arms).len(),
        arms.len() <= usize::MAX,
    ensures
        0 <= at.0 < arms.len(),
        0 <= at.1 < arms[at.0].patterns@.len(),
        patterns_before(arms, at.0) + at.1 == k,
        value_patterns(arms)[k] == (at.0 as usize, arms[at.0].patterns@[at.1]),
        k == value_patterns(arms).len() - 1 ==> at.1 == arms[at.0].patterns@.len() - 1,
    decreases arms.len(),
{
    let before = arms.drop_last();
    if k < value_patterns(before).len() {
        let at = lemma_place(before, k);
        assert(before.take(at.0) =~= arms.take(at.0));
        assert(value_patterns(arms)[k] == value_patterns(before)[k]);
        at
    } else {
        assert(arms.take(arms.len() - 1) =~= before);
        (arms.len() - 1, k - value_patterns(before).len())
    }
}

/// Two patterns of the arms are not at the same place.
proof fn lemma_place_is_unique(arms: Seq<MatchArm>, i: int, j: int, q: int, r: int)
    requires
        0 <= i < arms.len(),
        0 <= j < arms[i].patterns@.len(),
        0 <= q < arms.len(),
        0 <= r < arms[q].patterns@.len(),
        patterns_before(arms, i) + j == patterns_before(arms, q) + r,
    ensures
        i == q && j == r,
{
    if i < q {
        lemma_patterns_before_grow(arms, i, q);
    } else if q < i {
        lemma_patterns_before_grow(arms, q, i);
    }
}

proof fn lemma_patterns_before_grow(arms: Seq<MatchArm>, i: int, q: int)
    requires
        0 <= i < q <= arms.len(),
    ensures
        patterns_before(arms, i) + arms[i].patterns@.len() <= patterns_before(arms, q),
    decreases q - i,
{
    assert(arms.take(q).drop_last() =~= arms.take(q - 1));
    assert(arms.take(q).last() == arms[q - 1]);
    if i < q - 1 {
        lemma_patterns_before_grow(arms, i, q - 1);
    }
}

/// A match on a number with an error fails, and that error is reported, and nothing else.
pub proof fn law_value_matches_with_an_error_fail(
    before: LoweringContext,
    after: LoweringContext,
    expr: ExprMatch,
    match_input: VarUsage,
    ty: TypeId,
    r: LoweringResult<ValueMatch>,
    error: Report,
)
    requires
        value_match_outcome(before, after, expr, match_input, ty, r),
        value_match_error(&before.semantic, &expr) == Some(error),
    ensures
        r == Err::<ValueMatch, _>(LoweringFlowError::Failed(DiagnosticAdded)),
        after.semantic == before.semantic,
        after.reported() == before.reported().push(error),
{
    assert(after.reported() =~= before.reported().push(error));
}

/// The code of a test is in the block where the test before it does not hold, the first in the block of
/// the match. It subtracts exactly where the test does, the literal from the tested number, and is a match
/// on whether the difference, or else the number, is zero: to the block where the test holds, with no
/// variable, and else to the other block, with the variable that is not zero.
pub proof fn law_the_code_of_a_test_is_a_match_on_zero(
    code: Seq<TestCode>,
    block: BlockId,
    match_input: VarUsage,
    location: LocationId,
    emitted: Seq<EmittedTest>,
    i: int,
)
    requires
        is_if_else_code(code, block, match_input, location, emitted),
        0 <= i < emitted.len(),
    ensures
        ({
            let vars = emitted[i].vars->Ok_0;
            &&& code.len() == emitted.len()
            &&& i == 0 ==> code[i].block == block
            &&& i > 0 ==> code[i].block == emitted[i - 1].else_block
            &&& code[i].subtraction is Some <==> vars.difference is Some
            &&& code[i].subtraction matches Some(call) ==> {
                &&& call.request.function == FunctionId::Felt252Sub
                &&& call.request.inputs@ == seq![match_input, (vars.difference->0).literal]
                &&& call.request.ret_ty == VarType::Felt252
                &&& call.request.location == location
                &&& call.result == (vars.difference->0).result
            }
            &&& code[i].info matches MatchInfo::Extern(info)
            &&& info.function == FunctionId::Felt252IsZero
            &&& info.location == location
            &&& info.inputs@ == seq![
                match vars.difference {
                    Some(difference) => difference.result,
                    None => match_input,
                },
            ]
            &&& info.arms@.len() == 2
            &&& forall|a: int|
                0 <= a < 2 ==> match (#[trigger] info.arms@[a]).arm_selector {
                    MatchArmSelector::Zero => info.arms@[a].block_id == emitted[i].main_block
                        && info.arms@[a].var_ids@.len() == 0,
                    MatchArmSelector::NonZero => info.arms@[a].block_id == emitted[i].else_block
                        && info.arms@[a].var_ids@ == seq![vars.else_var],
                    _ => false,
                }
        }),
{
    assert(code[i].compares(block_of_test(block, emitted, i), match_input, location, emitted[i]));
}

/// A number is tested as it is, or as what it was converted to, where it was converted.
pub proof fn law_a_converted_number_is_tested(match_input: VarUsage, converted: VarUsage)
    ensures
        tested_input(match_input, None) == match_input,
        tested_input(match_input, Some(converted)) == converted,
{
}

/// Lowering the arms of an if-else construct adds to its code and to its leaves: the code of each test
/// whose literal could be lowered, and a leaf of the arm of the test in the block where it holds. Where
/// all went well, the block where the last test does not hold is a leaf of the last arm.
pub proof fn law_tests_are_added_with_their_leaves(
    before: LoweringContext,
    after: LoweringContext,
    expr: ExprMatch,
    match_input: VarUsage,
    block: BlockId,
    arm_index: nat,
    pattern_index: nat,
    emitted: Seq<EmittedTest>,
    code: (Seq<TestCode>, Seq<TestCode>),
    leaves: (Seq<MatchLeafBuilder>, Seq<MatchLeafBuilder>),
    r: LoweringResult<()>,
)
    requires
        felt252_arm_outcome(
            before,
            after,
            expr,
            match_input,
            block,
            arm_index,
            pattern_index,
            emitted,
            code,
            leaves,
            r,
        ),
        0 < expr.arms@.len() <= usize::MAX,
    ensures
        ({
            let chain = felt252_chain(&before.semantic, expr.arms@, arm_index, pattern_index);
            let stopped = emitted.len() > 0 && emitted.last().vars is Err;
            let n = if stopped {
                emitted.len() - 1
            } else {
                emitted.len() as int
            };
            let first = leaves.0.len();
            &&& r is Ok <==> !stopped && chain.not_a_literal is None
            &&& code.1.len() == code.0.len() + n
            &&& code.1.take(code.0.len() as int) == code.0
            &&& is_if_else_code(
                code.1.skip(code.0.len() as int),
                block,
                match_input,
                LocationId(StableLocation(expr.stable_ptr)),
                emitted.take(n),
            )
            &&& leaves.1.len() == first + n + (if r is Ok {
                1int
            } else {
                0int
            })
            &&& leaves.1.take(first as int) == leaves.0
            &&& forall|i: int|
                0 <= i < n ==> {
                    &&& (#[trigger] leaves.1[first + i]).arm_index == chain.tests[i].arm_index
                    &&& leaves.1[first + i].builder == emitted[i].main_block
                    &&& leaves.1[first + i].lowering_result is Ok
                }
            &&& r is Ok ==> leaves.1.last().arm_index == expr.arms@.len() - 1
                && leaves.1.last().builder == emitted.last().else_block
                && leaves.1.last().lowering_result is Ok
        }),
{
    let made = tests_made(emitted);
    if emitted.len() > 0 && emitted.last().vars is Err {
        assert(made =~= emitted.take(emitted.len() - 1));
    } else {
        assert(made =~= emitted.take(emitted.len() as int));
    }
    assert(leaves.1.take(leaves.0.len() as int) =~= leaves.0);
}

/// The tests of a match on a number without an error come to an end.
pub proof fn law_tests_of_a_sound_match_end(m: &SemanticModel, expr: &ExprMatch)
    requires
        value_match_error(m, expr) is None,
    ensures
        chain_ends(m, expr.arms@, 0, 0),
{
    lemma_otherwise_is_other(m, expr);
    lemma_chain_ends(m, expr.arms@, 0, 0);
}

/// Blocks and variables for all tests are accepted, where there is a difference for each literal but
/// zero. So are those up to a literal that could not be lowered.
pub proof fn law_tests_with_their_variables_are_accepted(
    m: &SemanticModel,
    arms: Seq<MatchArm>,
    emitted: Seq<EmittedTest>,
)
    requires
        arms.len() <= usize::MAX,
        ({
            let tests = felt252_chain(m, arms, 0, 0).tests;
            &&& emitted.len() <= tests.len()
            &&& emitted.len() < tests.len() ==> emitted.len() > 0 && emitted.last().vars is Err
            &&& forall|i: int|
                0 <= i < emitted.len() ==> match (#[trigger] emitted[i]).vars {
                    Ok(vars) => vars.difference is Some <==> literal_of(m, tests[i].pattern) != Some(
                        0int,
                    ),
                    Err(_) => i == emitted.len() - 1 && literal_of(m, tests[i].pattern) != Some(
                        0int,
                    ),
                }
        }),
    ensures
        emission_fits(felt252_chain(m, arms, 0, 0).tests, emitted),
{
    let tests = felt252_chain(m, arms, 0, 0).tests;
    assert forall|i: int| 0 <= i < emitted.len() implies match (#[trigger] emitted[i]).vars {
        Ok(vars) => vars.difference is Some <==> tests[i].subtracts,
        Err(_) => i == emitted.len() - 1 && tests[i].subtracts,
    } by {
        law_tests_subtract_their_literals(m, arms, i);
    }
}

/// The matches of a jump table: a conversion of the matched number, that leads on with the converted
/// number, or without one; and a match on the converted number, with an arm for each number.
pub proof fn law_a_jump_table_converts_and_jumps(
    info: MatchInfo,
    inner_info: MatchInfo,
    downcast: FunctionId,
    match_input: VarUsage,
    in_range_input: VarUsage,
    location: LocationId,
    emitted: EmittedJumpTable,
)
    requires
        is_downcast_match(
            info,
            downcast,
            match_input,
            location,
            emitted.in_range_block,
            emitted.in_range_var,
            emitted.otherwise_block,
        ),
        is_index_enum_match(inner_info, in_range_input, location, emitted.values@),
    ensures
        info matches MatchInfo::Extern(outer) && {
            &&& outer.function == downcast
            &&& outer.inputs@ == seq![match_input]
            &&& outer.location == location
            &&& outer.arms@.len() == 2
            &&& forall|a: int|
                0 <= a < 2 ==> match (#[trigger] outer.arms@[a]).arm_selector {
                    MatchArmSelector::OptionSome => outer.arms@[a].block_id == emitted.in_range_block
                        && outer.arms@[a].var_ids@ == seq![emitted.in_range_var],
                    MatchArmSelector::OptionNone => outer.arms@[a].block_id
                        == emitted.otherwise_block && outer.arms@[a].var_ids@.len() == 0,
                    _ => false,
                }
        },
        inner_info matches MatchInfo::Value(inner) && {
            &&& inner.input == in_range_input
            &&& inner.location == location
            &&& inner.num_of_arms == emitted.values@.len()
            &&& inner.arms@.len() == emitted.values@.len()
            &&& forall|v: int|
                0 <= v < inner.arms@.len() ==> (#[trigger] inner.arms@[v]).arm_selector
                    == MatchArmSelector::Value(v as usize) && inner.arms@[v].block_id
                    == emitted.values@[v].0 && inner.arms@[v].var_ids@ == seq![emitted.values@[v].1]
        },
{
}

} // verus!

//! What a match on an enum is for: which arm a variant leads to, what happens to its payload, and which
//! patterns are accepted.
use vstd::prelude::*;

use crate::context::{LoweringContext, LoweringFlowError, LoweringResult};
use crate::diagnostic::{
    DiagnosticAdded, LocationId, LoweringDiagnosticKind, MatchDiagnostic, MatchKind, Report,
};
use crate::enum_match::{
    arm_patterns, arm_takes_variant, concrete_enum_match_outcome, extern_match_outcome,
    extraction_reports, first_taking_variant, has_nested_at, is_known_enum, is_nested,
    law_first_arm_wins_where_nothing_is_reported, law_first_pattern_wins,
    law_nested_patterns_leave_their_variant_to_the_underscore, lemma_arm_patterns,
    lemma_arm_patterns_ordered, lemma_first_taking_variant, lemma_unfolding_of_all,
    partial_patterns_reported, patterns_of_arm, selected_arms, selection_reports, takes_variant,
    unfolding, unfolding_of_all, unsupported_pattern, ConcreteEnumMatch, ExtractedEnumDetails,
    OptimizedExternMatch,
};
use crate::lowered::{LoweredExprExternEnum, VarType, VarUsage};
use crate::match_arms::{
    arm_ptrs, arms_wf, is_catch_all, law_all_after_the_underscore_is_unreachable,
    law_the_underscore_is_the_first_catch_all, ptrs_of, underscore_path,
    unreachable_after_underscore, MatchArmWrapper, PatternPath,
};
use crate::match_groups::LeafTarget;
use crate::semantic::{
    ConcreteEnumId, ExprId, PatternId, PatternKind, SemanticModel, TypeId, TypeLongId,
};
use crate::syntax::SyntaxStablePtrId;
use crate::variant_match_tree::{law_each_pattern_is_collected_once, with_each_once, Coverage};

verus! {

/// The pattern that `path` leads to.
pub open spec fn pattern_at(arms: Seq<MatchArmWrapper>, path: PatternPath) -> Option<PatternId> {
    match path.pattern_index {
        Some(j) => Some(arms[path.arm_index as int].patterns@[j as int]),
        None => None,
    }
}

/// `inner` is the pattern of the payload in `pattern`: that of a pattern on a variant, where it has one.
/// A `_` has none, and neither has an arm without patterns.
pub open spec fn is_payload_pattern(
    m: &SemanticModel,
    pattern: Option<PatternId>,
    inner: Option<PatternId>,
) -> bool {
    match pattern {
        None => inner is None,
        Some(pattern) => match m.kind(pattern) {
            PatternKind::EnumVariant(p) => inner == p.inner_pattern,
            _ => inner is None,
        },
    }
}

/// The variable of a payload is located at the pattern of the payload, or else at the pattern of the
/// arm, or else at the match.
pub open spec fn is_payload_location(
    m: &SemanticModel,
    pattern: Option<PatternId>,
    inner: Option<PatternId>,
    location: LocationId,
    at: LocationId,
) -> bool {
    match (inner, pattern) {
        (Some(inner), _) => at.0.0 == m.pattern_ptr(inner),
        (None, Some(pattern)) => at.0.0 == m.pattern_ptr(pattern),
        (None, None) => at == location,
    }
}

/// Every variant that a pattern is selected for, at any position of its arm, has a leaf of that arm. The
/// leaf lowers the payload, under the snapshots of the matched expression, into the pattern of the
/// payload in the selected pattern, and into none where that is `_`, has none, or does not exist. A
/// variant that nothing is selected for has no leaf.
pub proof fn law_leaves_lower_the_payload_into_the_selected_pattern(
    before: LoweringContext,
    after: LoweringContext,
    matched_expr: ExprId,
    match_input: LoweringResult<VarUsage>,
    arms: Seq<MatchArmWrapper>,
    location: LocationId,
    match_type: MatchKind,
    lowered: ConcreteEnumMatch,
    i: int,
)
    requires
        before.semantic.wf(),
        before.semantic.has_expr(matched_expr),
        concrete_enum_match_outcome(
            before,
            after,
            matched_expr,
            match_input,
            arms,
            location,
            match_type,
            Ok(lowered),
        ),
        0 <= i < lowered.concrete_variants@.len(),
    ensures
        ({
            let m = &before.semantic;
            let ty = m.exprs@[matched_expr.0 as int].ty;
            let e = lowered.concrete_enum_id;
            let selected = selected_arms(m, match_type, arms, e);
            &&& m.db.peeled_enum(ty) == Some(e)
            &&& m.db.variants(e) == Ok::<_, DiagnosticAdded>(lowered.concrete_variants@)
            &&& match_input == Ok::<_, LoweringFlowError>(lowered.input)
            &&& lowered.location == location
            &&& lowered.leaves@.len() == lowered.concrete_variants@.len()
            &&& selected matches Ok(selected)
            &&& selected.len() == lowered.leaves@.len()
            &&& selected[i] is None <==> lowered.leaves@[i] is None
            &&& selected[i] matches Some(path) ==> {
                let leaf = lowered.leaves@[i]->0;
                let pattern = pattern_at(arms, path);
                &&& leaf.variant == lowered.concrete_variants@[i]
                &&& leaf.arm_index == path.arm_index
                &&& is_payload_pattern(m, pattern, leaf.inner_pattern)
                &&& is_payload_location(
                    m,
                    pattern,
                    leaf.inner_pattern,
                    location,
                    leaf.var.location,
                )
                &&& leaf.var.ty matches VarType::Snapshots { ty: payload, n_snapshots }
                &&& payload == lowered.concrete_variants@[i].ty
                &&& n_snapshots == m.db.peeled(ty).0
            }
        }),
{
    let m = &before.semantic;
    assert(m.db.has_type(m.exprs@[matched_expr.0 as int].ty));
    m.db.lemma_peeled(m.exprs@[matched_expr.0 as int].ty);
}

/// As [law_leaves_lower_the_payload_into_the_selected_pattern], for a match on the outcome of a call.
pub proof fn law_leaves_of_a_call_lower_the_payload_into_the_selected_pattern(
    before: LoweringContext,
    after: LoweringContext,
    extern_enum: LoweredExprExternEnum,
    arms: Seq<MatchArmWrapper>,
    match_type: MatchKind,
    lowered: OptimizedExternMatch,
    i: int,
)
    requires
        extern_match_outcome(before, after, extern_enum, arms, match_type, Ok(lowered)),
        0 <= i < lowered.concrete_variants@.len(),
    ensures
        ({
            let m = &before.semantic;
            let e = extern_enum.concrete_enum_id;
            let selected = selected_arms(m, match_type, arms, e);
            &&& m.db.variants(e) == Ok::<_, DiagnosticAdded>(lowered.concrete_variants@)
            &&& lowered.leaves@.len() == lowered.concrete_variants@.len()
            &&& selected matches Ok(selected)
            &&& selected.len() == lowered.leaves@.len()
            &&& selected[i] is None <==> lowered.leaves@[i] is None
            &&& selected[i] matches Some(path) ==> {
                let leaf = lowered.leaves@[i]->0;
                &&& leaf.variant == lowered.concrete_variants@[i]
                &&& leaf.arm_index == path.arm_index
                &&& is_payload_pattern(m, pattern_at(arms, path), leaf.inner_pattern)
            }
        }),
{
}

/// `pattern` is the first pattern of the first arm that takes the variant at `idx`, the arm at
/// `arm_index`. Where that arm has no pattern, there is none.
pub open spec fn is_first_pattern_of_variant(
    m: &SemanticModel,
    arms: Seq<MatchArmWrapper>,
    idx: int,
    arm_index: int,
    pattern: Option<PatternId>,
) -> bool {
    &&& 0 <= arm_index < arms.len()
    &&& arm_takes_variant(m, arms[arm_index], idx)
    &&& forall|i: int| 0 <= i < arm_index ==> !arm_takes_variant(m, #[trigger] arms[i], idx)
    &&& match pattern {
        None => arms[arm_index].patterns@.len() == 0,
        Some(pattern) => exists|j: int| {
            &&& 0 <= j < arms[arm_index].patterns@.len()
            &&& #[trigger] arms[arm_index].patterns@[j] == pattern
            &&& takes_variant(m, pattern, idx)
            &&& forall|k: int|
                0 <= k < j ==> !takes_variant(m, #[trigger] arms[arm_index].patterns@[k], idx)
        },
    }
}

/// The patterns of an arm come in their order.
proof fn lemma_order_in_arm(arms: Seq<MatchArmWrapper>)
    requires
        arms.len() <= usize::MAX,
    ensures
        forall|j: int, k: int|
            0 <= j < k < arm_patterns(arms).len() && (
            #[trigger] arm_patterns(arms)[j]).0.arm_index == (
            #[trigger] arm_patterns(arms)[k]).0.arm_index
                ==> (arm_patterns(arms)[j]).0.pattern_index->0
                < (arm_patterns(arms)[k]).0.pattern_index->0,
        forall|k: int|
            0 <= k < arm_patterns(arms).len() ==> (
            #[trigger] arm_patterns(arms)[k]).0.arm_index < arms.len()
                && arm_patterns(arms)[k].0.pattern_index is Some,
    decreases arms.len(),
{
    if arms.len() > 0 {
        let before = arms.drop_last();
        lemma_order_in_arm(before);
        let done = arm_patterns(before);
        let now = arm_patterns(arms);
        let of_arm = patterns_of_arm(arms.last(), (arms.len() - 1) as nat);
        assert(arms.last().patterns@.len() == arms.last().patterns.len());
        assert(now == done + of_arm);
        assert forall|k: int| 0 <= k < now.len() implies {
            &&& (#[trigger] now[k]).0.arm_index < arms.len()
            &&& now[k].0.pattern_index is Some
            &&& k < done.len() ==> now[k] == done[k] && now[k].0.arm_index < arms.len() - 1
            &&& k >= done.len() ==> now[k] == of_arm[k - done.len()] && now[k].0.arm_index
                == arms.len() - 1 && now[k].0.pattern_index->0 == k - done.len()
        } by {
            if k < done.len() {
                assert(now[k] == done[k]);
            } else {
                assert(now[k] == of_arm[k - done.len()]);
            }
        }
    }
}

/// Where nothing is reported, the pattern that is selected for a variant is the first one of the first
/// arm that takes the variant. Nothing is selected exactly where no arm takes it.
pub proof fn law_the_first_pattern_of_the_first_arm_is_selected(
    m: &SemanticModel,
    match_type: MatchKind,
    arms: Seq<MatchArmWrapper>,
    e: ConcreteEnumId,
    idx: int,
)
    requires
        m.wf(),
        arms_wf(m, arms),
        arms.len() <= usize::MAX,
        m.db.has_enum(e),
        0 <= idx < m.db.variant_count(e),
        selected_arms(m, match_type, arms, e) is Ok,
        selection_reports(m, match_type, arms, e) == Seq::<Report>::empty(),
    ensures
        match selected_arms(m, match_type, arms, e)->Ok_0[idx] {
            None => forall|i: int|
                0 <= i < arms.len() ==> !arm_takes_variant(m, #[trigger] arms[i], idx),
            Some(path) => is_first_pattern_of_variant(
                m,
                arms,
                idx,
                path.arm_index as int,
                pattern_at(arms, path),
            ),
        },
{
    let selected = selected_arms(m, match_type, arms, e)->Ok_0[idx];
    law_first_arm_wins_where_nothing_is_reported(m, match_type, arms, e, idx);
    if has_nested_at(m, arms, idx) {
        law_nested_patterns_leave_their_variant_to_the_underscore(m, match_type, arms, e, idx);
    }
    law_first_pattern_wins(m, match_type, arms, e, idx);
    let patterns = arm_patterns(arms);
    lemma_arm_patterns_ordered(arms);
    lemma_order_in_arm(arms);
    assert(arms.take(arms.len() as int) =~= arms);
    lemma_arm_patterns(m, arms, arms);
    law_the_underscore_is_the_first_catch_all(m, arms);
    let k = lemma_first_taking_variant(m, patterns, idx);
    match first_taking_variant(m, patterns, idx) {
        Some(path) => {
            assert(selected == Some(path));
            let a = path.arm_index as int;
            let j = path.pattern_index->0 as int;
            assert(arms[a].patterns@[j] == patterns[k].1);
            assert forall|l: int| 0 <= l < j implies !takes_variant(
                m,
                #[trigger] arms[a].patterns@[l],
                idx,
            ) by {
                let at = (
                    PatternPath { arm_index: a as usize, pattern_index: Some(l as usize) },
                    arms[a].patterns@[l],
                );
                let h = patterns.index_of(at);
                assert(patterns[h] == at);
                if h > k {
                    assert(patterns[k].0.arm_index == patterns[h].0.arm_index);
                }
            }
        },
        None => {
            if let Some(path) = selected {
                assert(underscore_path(m, arms) == Some(path));
                let a = path.arm_index as int;
                if let Some(j) = path.pattern_index {
                    let at = (path, arms[a].patterns@[j as int]);
                    assert(patterns.contains(
                        (
                            PatternPath { arm_index: a as usize, pattern_index: Some(j) },
                            arms[a].patterns@[j as int],
                        ),
                    ));
                    let h = patterns.index_of(at);
                    assert(patterns[h] == at);
                    assert(takes_variant(m, patterns[h].1, idx));
                }
            }
        },
    }
}

/// Where nothing is reported, each variant of a match on an enum has the leaf of the first arm that
/// takes it, and the payload is lowered into the first pattern there that does. A variant that no arm
/// takes has no leaf.
pub proof fn law_each_variant_has_the_leaf_of_its_first_arm(
    before: LoweringContext,
    after: LoweringContext,
    matched_expr: ExprId,
    match_input: LoweringResult<VarUsage>,
    arms: Seq<MatchArmWrapper>,
    location: LocationId,
    match_type: MatchKind,
    lowered: ConcreteEnumMatch,
    idx: int,
) -> (pattern: Option<PatternId>)
    requires
        before.semantic.wf(),
        before.semantic.has_expr(matched_expr),
        arms_wf(&before.semantic, arms),
        arms.len() <= usize::MAX,
        concrete_enum_match_outcome(
            before,
            after,
            matched_expr,
            match_input,
            arms,
            location,
            match_type,
            Ok(lowered),
        ),
        after.reported() == before.reported(),
        0 <= idx < lowered.concrete_variants@.len(),
    ensures
        lowered.leaves@.len() == lowered.concrete_variants@.len(),
        match lowered.leaves@[idx] {
            None => forall|i: int|
                0 <= i < arms.len() ==> !arm_takes_variant(
                    &before.semantic,
                    #[trigger] arms[i],
                    idx,
                ),
            Some(leaf) => {
                let m = &before.semantic;
                &&& leaf.variant == lowered.concrete_variants@[idx]
                &&& is_first_pattern_of_variant(m, arms, idx, leaf.arm_index as int, pattern)
                &&& is_payload_pattern(m, pattern, leaf.inner_pattern)
                &&& is_payload_location(
                    m,
                    pattern,
                    leaf.inner_pattern,
                    location,
                    leaf.var.location,
                )
            },
        },
{
    let m = &before.semantic;
    let ty = m.exprs@[matched_expr.0 as int].ty;
    let e = lowered.concrete_enum_id;
    assert(m.db.has_type(m.exprs@[matched_expr.0 as int].ty));
    m.db.lemma_peeled(ty);
    law_leaves_lower_the_payload_into_the_selected_pattern(
        before,
        after,
        matched_expr,
        match_input,
        arms,
        location,
        match_type,
        lowered,
        idx,
    );
    let reports = selection_reports(m, match_type, arms, e);
    assert(after.reported().len() == before.reported().len() + reports.len());
    assert(reports =~= Seq::<Report>::empty());
    law_the_first_pattern_of_the_first_arm_is_selected(m, match_type, arms, e, idx);
    match selected_arms(m, match_type, arms, e)->Ok_0[idx] {
        Some(path) => pattern_at(arms, path),
        None => None,
    }
}

/// As [law_each_variant_has_the_leaf_of_its_first_arm], for a match on the outcome of a call.
pub proof fn law_each_variant_of_a_call_has_the_leaf_of_its_first_arm(
    before: LoweringContext,
    after: LoweringContext,
    extern_enum: LoweredExprExternEnum,
    arms: Seq<MatchArmWrapper>,
    match_type: MatchKind,
    lowered: OptimizedExternMatch,
    idx: int,
) -> (pattern: Option<PatternId>)
    requires
        before.semantic.wf(),
        before.semantic.db.has_enum(extern_enum.concrete_enum_id),
        arms_wf(&before.semantic, arms),
        arms.len() <= usize::MAX,
        extern_match_outcome(before, after, extern_enum, arms, match_type, Ok(lowered)),
        after.reported() == before.reported(),
        0 <= idx < lowered.concrete_variants@.len(),
    ensures
        lowered.leaves@.len() == lowered.concrete_variants@.len(),
        match lowered.leaves@[idx] {
            None => forall|i: int|
                0 <= i < arms.len() ==> !arm_takes_variant(
                    &before.semantic,
                    #[trigger] arms[i],
                    idx,
                ),
            Some(leaf) => {
                let m = &before.semantic;
                &&& leaf.variant == lowered.concrete_variants@[idx]
                &&& is_first_pattern_of_variant(m, arms, idx, leaf.arm_index as int, pattern)
                &&& is_payload_pattern(m, pattern, leaf.inner_pattern)
            },
        },
{
    let m = &before.semantic;
    let e = extern_enum.concrete_enum_id;
    law_leaves_of_a_call_lower_the_payload_into_the_selected_pattern(
        before,
        after,
        extern_enum,
        arms,
        match_type,
        lowered,
        idx,
    );
    let reports = selection_reports(m, match_type, arms, e);
    assert(after.reported().len() == before.reported().len() + reports.len());
    assert(reports =~= Seq::<Report>::empty());
    law_the_first_pattern_of_the_first_arm_is_selected(m, match_type, arms, e, idx);
    match selected_arms(m, match_type, arms, e)->Ok_0[idx] {
        Some(path) => pattern_at(arms, path),
        None => None,
    }
}

/// A variant leads to the arm of its leaf. One without a leaf is reported as missing at the location of
/// the match, by its name.
pub proof fn law_variants_lead_to_the_arms_of_their_leaves(
    m: &SemanticModel,
    lowered: ConcreteEnumMatch,
    i: int,
)
    requires
        0 <= i < lowered.leaves@.len(),
    ensures
        lowered.targets(m).len() == lowered.leaves@.len(),
        match (lowered.targets(m)[i], lowered.leaves@[i]) {
            (LeafTarget::Arm(a), Some(leaf)) => a == leaf.arm_index,
            (LeafTarget::Error(at, error), None) => at == lowered.location && error
                == MatchDiagnostic::MissingMatchArm(
                m.db.variant_names@[lowered.concrete_variants@[i].id.0 as int]@,
            ),
            _ => false,
        },
{
}

/// As [law_variants_lead_to_the_arms_of_their_leaves], for a match on the outcome of a call at
/// `location`.
pub proof fn law_variants_of_a_call_lead_to_the_arms_of_their_leaves(
    m: &SemanticModel,
    location: LocationId,
    lowered: OptimizedExternMatch,
    i: int,
)
    requires
        0 <= i < lowered.leaves@.len(),
    ensures
        lowered.targets(m, location).len() == lowered.leaves@.len(),
        match (lowered.targets(m, location)[i], lowered.leaves@[i]) {
            (LeafTarget::Arm(a), Some(leaf)) => a == leaf.arm_index,
            (LeafTarget::Error(at, error), None) => at == location && error
                == MatchDiagnostic::MissingMatchArm(
                m.db.variant_names@[lowered.concrete_variants@[i].id.0 as int]@,
            ),
            _ => false,
        },
{
}

/// A match on what is no enum fails, and the type under all snapshots is reported as unsupported at the
/// matched expression. Where the variants of an enum are not known the match fails too, with no report.
/// Where the enum could not be lowered, the match fails with that error, and nothing is reported.
pub proof fn law_only_enums_are_matched(
    before: LoweringContext,
    after: LoweringContext,
    matched_expr: ExprId,
    match_input: LoweringResult<VarUsage>,
    arms: Seq<MatchArmWrapper>,
    location: LocationId,
    match_type: MatchKind,
    r: LoweringResult<ConcreteEnumMatch>,
)
    requires
        concrete_enum_match_outcome(
            before,
            after,
            matched_expr,
            match_input,
            arms,
            location,
            match_type,
            r,
        ),
    ensures
        ({
            let m = &before.semantic;
            let expr = m.exprs@[matched_expr.0 as int];
            let n = before.reported().len() as int;
            let failed = Err::<ConcreteEnumMatch, LoweringFlowError>(
                LoweringFlowError::Failed(DiagnosticAdded),
            );
            match m.db.peeled_enum(expr.ty) {
                None => {
                    &&& r == failed
                    &&& after.reported().len() == n + 1
                    &&& after.reported().take(n) == before.reported()
                    &&& after.reported()[n].location.0.0 == expr.stable_ptr
                    &&& after.reported()[n].kind matches LoweringDiagnosticKind::MatchError(reported)
                    &&& reported.kind == match_type
                    &&& reported.error == MatchDiagnostic::UnsupportedMatchedType(
                        m.db.types@[m.db.peeled(expr.ty).1.0 as int].formatted@,
                    )
                },
                Some(e) => if m.db.variants(e) is Err {
                    r == failed && after.reported() == before.reported()
                } else {
                    match_input matches Err(error) ==> r == Err::<ConcreteEnumMatch, _>(error)
                        && after.reported() == before.reported()
                },
            }
        }),
{
    let n = before.reported().len() as int;
    assert(after.reported().take(n) =~= before.reported());
    if after.reported().len() == n {
        assert(after.reported() =~= before.reported());
    }
}

/// Whether `pattern` matches a value whose variants, from the outside in, are `variants`. A payload that
/// is no pattern on a variant matches every payload.
pub open spec fn matches_value_of(m: &SemanticModel, pattern: PatternId, variants: Seq<int>) -> bool
    decreases pattern.0,
{
    match m.kind(pattern) {
        PatternKind::Otherwise => true,
        PatternKind::EnumVariant(p) => {
            &&& variants.len() > 0
            &&& variants[0] == p.variant.idx
            &&& match p.inner_pattern {
                Some(inner) if m.kind(inner) is EnumVariant && inner.0
                    < pattern.0 => matches_value_of(m, inner, variants.drop_first()),
                _ => true,
            }
        },
        _ => false,
    }
}

/// Filling a tree changes no value that is told apart.
proof fn lemma_filled_reaches(
    tree: Coverage,
    pattern: PatternId,
    path: PatternPath,
    variants: Seq<int>,
)
    ensures
        tree.filled(pattern, path).reaches_leaf(variants) == tree.reaches_leaf(variants),
    decreases tree,
{
    if let Coverage::Mapping(items) = tree {
        if variants.len() > 0 && 0 <= variants[0] < items.len() {
            lemma_filled_reaches(items[variants[0]], pattern, path, variants.drop_first());
            assert(tree.filled(pattern, path)->Mapping_0[variants[0]] == items[variants[0]].filled(
                pattern,
                path,
            ));
        }
    }
}

/// A pattern that is unfolded covers the values that it matches and that no pattern covered before, and
/// no others. What was covered before stays as it is.
pub proof fn law_a_pattern_covers_what_it_matches(
    m: &SemanticModel,
    match_type: MatchKind,
    pattern: PatternId,
    path: PatternPath,
    ptr: SyntaxStablePtrId,
    tree: Coverage,
    e: ConcreteEnumId,
    variants: Seq<int>,
)
    requires
        m.wf(),
        m.has_pattern(pattern),
        m.db.has_enum(e),
        tree.fits(m, e),
        unfolding(m, match_type, pattern, path, ptr, tree, e).result is Ok,
        unfolding(m, match_type, pattern, path, ptr, tree, e).tree.reaches_leaf(variants),
    ensures
        ({
            let after = unfolding(m, match_type, pattern, path, ptr, tree, e).tree;
            &&& tree.reaches_leaf(variants)
            &&& tree.covering(variants) is Some ==> after.covering(variants) == tree.covering(
                variants,
            )
            &&& tree.covering(variants) is None ==> match after.covering(variants) {
                Some((_, at)) => at == path && matches_value_of(m, pattern, variants),
                None => !matches_value_of(m, pattern, variants),
            }
        }),
    decreases pattern.0,
{
    assert(m.pattern_wf(pattern.0 as int));
    match m.kind(pattern) {
        PatternKind::Otherwise => {
            lemma_filled_reaches(tree, pattern, path, variants);
            tree.law_push_covers_what_was_open(pattern, path, variants);
        },
        PatternKind::EnumVariant(p) => {
            let idx = p.variant.idx as int;
            let items = tree.expanded(m.db.variant_count(e))->Mapping_0;
            let payload = m.db.variants(e)->Ok_0[idx].ty;
            let rest = variants.drop_first();
            m.db.lemma_variant(e, idx);
            m.db.lemma_peeled(payload);
            if variants[0] == idx {
                match p.inner_pattern {
                    Some(inner) if m.kind(inner) is EnumVariant => {
                        law_a_pattern_covers_what_it_matches(
                            m,
                            match_type,
                            inner,
                            path,
                            ptr,
                            items[idx],
                            m.db.peeled_enum(payload)->0,
                            rest,
                        );
                    },
                    _ => {
                        lemma_filled_reaches(items[idx], pattern, path, rest);
                        items[idx].law_push_covers_what_was_open(pattern, path, rest);
                    },
                }
            }
        },
        _ => {},
    }
}

/// The path of the pattern at `k`, the first of `patterns` that matches the value, covers it.
pub open spec fn is_first_match(
    m: &SemanticModel,
    patterns: Seq<(PatternPath, PatternId)>,
    variants: Seq<int>,
    k: int,
) -> bool {
    &&& 0 <= k < patterns.len()
    &&& matches_value_of(m, patterns[k].1, variants)
    &&& forall|j: int|
        0 <= j < k ==> !matches_value_of(m, (#[trigger] patterns[j]).1, variants)
}

/// The first pattern wins, also in enums inside enums: a value is covered by the first pattern that
/// matches it, and by none where none matches.
pub proof fn law_a_value_is_covered_by_the_first_pattern_that_matches(
    m: &SemanticModel,
    match_type: MatchKind,
    patterns: Seq<(PatternPath, PatternId)>,
    e: ConcreteEnumId,
    variants: Seq<int>,
)
    requires
        m.wf(),
        m.db.has_enum(e),
        forall|k: int| 0 <= k < patterns.len() ==> m.has_pattern((#[trigger] patterns[k]).1),
        unfolding_of_all(m, match_type, patterns, e).result is Ok,
        unfolding_of_all(m, match_type, patterns, e).tree.reaches_leaf(variants),
    ensures
        match unfolding_of_all(m, match_type, patterns, e).tree.covering(variants) {
            Some((_, path)) => exists|k: int| #[trigger]
                is_first_match(m, patterns, variants, k) && patterns[k].0 == path,
            None => forall|k: int|
                0 <= k < patterns.len() ==> !matches_value_of(
                    m,
                    (#[trigger] patterns[k]).1,
                    variants,
                ),
        },
    decreases patterns.len(),
{
    if patterns.len() > 0 {
        let first = patterns.drop_last();
        let before = unfolding_of_all(m, match_type, first, e);
        let (path, pattern) = patterns.last();
        assert(patterns[patterns.len() - 1] == (path, pattern));
        assert forall|k: int| 0 <= k < first.len() implies m.has_pattern((#[trigger] first[k]).1) by {
            assert(first[k] == patterns[k]);
        }
        lemma_unfolding_of_all(m, match_type, first, e, |p: PatternId, at: PatternPath| true);
        law_a_pattern_covers_what_it_matches(
            m,
            match_type,
            pattern,
            path,
            m.pattern_ptr(pattern),
            before.tree,
            e,
            variants,
        );
        law_a_value_is_covered_by_the_first_pattern_that_matches(
            m,
            match_type,
            first,
            e,
            variants,
        );
        assert(forall|k: int| 0 <= k < first.len() ==> first[k] == #[trigger] patterns[k]);
        if let Some((_, at)) = before.tree.covering(variants) {
            let k = choose|k: int| #[trigger]
                is_first_match(m, first, variants, k) && first[k].0 == at;
            assert(is_first_match(m, patterns, variants, k) && patterns[k].0 == at);
        } else if matches_value_of(m, pattern, variants) {
            let k = patterns.len() - 1;
            assert(is_first_match(m, patterns, variants, k) && patterns[k].0 == path);
        }
    }
}

/// Whether `pattern` is `_` or a pattern on a variant of the enum `e`, with such a pattern for the enum
/// of the payload in it where it has a pattern on a variant there.
pub open spec fn is_on_enum(m: &SemanticModel, pattern: PatternId, e: ConcreteEnumId) -> bool
    decreases pattern.0,
{
    match m.kind(pattern) {
        PatternKind::Otherwise => true,
        PatternKind::EnumVariant(p) => {
            &&& p.variant.concrete_enum_id == e
            &&& m.db.variants(e) matches Ok(variants)
            &&& match p.inner_pattern {
                Some(inner) if m.kind(inner) is EnumVariant && inner.0 < pattern.0 => {
                    &&& m.db.peeled_enum(variants[p.variant.idx as int].ty) matches Some(inner_enum)
                    &&& m.db.variants(inner_enum) is Ok
                    &&& is_on_enum(m, inner, inner_enum)
                },
                _ => true,
            }
        },
        _ => false,
    }
}

/// Whether `pattern` matches a value, told apart in `tree`, that no pattern of `before` covers.
pub open spec fn matches_something_new(
    m: &SemanticModel,
    pattern: PatternId,
    before: Coverage,
    tree: Coverage,
) -> bool {
    exists|variants: Seq<int>| #[trigger]
        tree.reaches_leaf(variants) && matches_value_of(m, pattern, variants) && before.covering(
            variants,
        ) is None
}

/// A pattern that is not one on the enum fails. One on a variant of the enum is accepted exactly where
/// it matches a value that no pattern before it covers, and else is reported as unreachable. A `_` is
/// always accepted. Accepted patterns are not reported.
pub proof fn law_patterns_on_the_enum_are_accepted_where_they_match_something_new(
    m: &SemanticModel,
    match_type: MatchKind,
    pattern: PatternId,
    path: PatternPath,
    ptr: SyntaxStablePtrId,
    tree: Coverage,
    e: ConcreteEnumId,
)
    requires
        m.wf(),
        m.has_pattern(pattern),
        m.db.has_enum(e),
        tree.fits(m, e),
    ensures
        ({
            let after = unfolding(m, match_type, pattern, path, ptr, tree, e);
            &&& !is_on_enum(m, pattern, e) ==> after.result is Err
            &&& m.kind(pattern) is Otherwise ==> after.result is Ok
            &&& is_on_enum(m, pattern, e) && m.kind(pattern) is EnumVariant ==> {
                &&& after.result is Ok <==> matches_something_new(m, pattern, tree, after.tree)
                &&& after.result is Err ==> after.reports.len() == 1 && is_unreachable(
                    after.reports[0],
                )
            }
            &&& after.result is Ok ==> after.reports.len() == 0
        }),
    decreases pattern.0,
{
    assert(m.pattern_wf(pattern.0 as int));
    let after = unfolding(m, match_type, pattern, path, ptr, tree, e);
    if let PatternKind::EnumVariant(p) = m.kind(pattern) {
        if p.variant.concrete_enum_id == e && !(tree is Full) && m.db.variants(e) is Ok {
            let idx = p.variant.idx as int;
            let expanded = tree.expanded(m.db.variant_count(e));
            let items = expanded->Mapping_0;
            let payload = m.db.variants(e)->Ok_0[idx].ty;
            m.db.lemma_variant(e, idx);
            m.db.lemma_peeled(payload);
            let item = items[idx];
            let below = after.tree->Mapping_0[idx];
            assert forall|rest: Seq<int>| #[trigger] item.covering(rest) == tree.covering(
                seq![idx] + rest,
            ) by {
                assert((seq![idx] + rest).drop_first() =~= rest);
            }
            assert forall|rest: Seq<int>| #[trigger] below.reaches_leaf(
                rest,
            ) == after.tree.reaches_leaf(seq![idx] + rest) by {
                assert((seq![idx] + rest).drop_first() =~= rest);
            }
            match p.inner_pattern {
                Some(inner) if m.kind(inner) is EnumVariant => {
                    if is_known_enum(m, payload) {
                        let inner_enum = m.db.peeled_enum(payload)->0;
                        law_patterns_on_the_enum_are_accepted_where_they_match_something_new(
                            m,
                            match_type,
                            inner,
                            path,
                            ptr,
                            item,
                            inner_enum,
                        );
                        lemma_new_below(m, pattern, tree, after.tree, idx, inner, item, below);
                    }
                },
                _ => {
                    if item.has_room() {
                        let rest = item.lemma_open_value();
                        lemma_filled_reaches(item, pattern, path, rest);
                        assert(below.reaches_leaf(rest));
                        let variants = seq![idx] + rest;
                        assert(variants[0] == idx);
                        assert(after.tree.reaches_leaf(variants));
                    } else {
                        assert forall|variants: Seq<int>| #[trigger]
                            after.tree.reaches_leaf(variants) && matches_value_of(
                                m,
                                pattern,
                                variants,
                            ) implies tree.covering(variants) is Some by {
                            item.law_unreachable_where_all_is_covered();
                            let rest = variants.drop_first();
                            assert(seq![idx] + rest =~= variants);
                            assert(item.reaches_leaf(rest));
                        }
                    }
                },
            }
        }
    }
}

/// `report` says that an arm cannot be reached.
pub open spec fn is_unreachable(report: Report) -> bool {
    report.kind matches LoweringDiagnosticKind::MatchError(reported) && reported.error
        == MatchDiagnostic::<Seq<char>>::UnreachableMatchArm
}

/// A pattern with a pattern on a variant in it matches something new where that one does.
proof fn lemma_new_below(
    m: &SemanticModel,
    pattern: PatternId,
    tree: Coverage,
    after: Coverage,
    idx: int,
    inner: PatternId,
    item: Coverage,
    below: Coverage,
)
    requires
        m.kind(pattern) matches PatternKind::EnumVariant(p) && p.variant.idx == idx
            && p.inner_pattern == Some(inner),
        m.kind(inner) is EnumVariant,
        inner.0 < pattern.0,
        after matches Coverage::Mapping(items) && 0 <= idx < items.len() && items[idx] == below,
        forall|rest: Seq<int>| #[trigger]
            item.covering(rest) == tree.covering(seq![idx] + rest),
        forall|rest: Seq<int>| #[trigger]
            below.reaches_leaf(rest) == after.reaches_leaf(seq![idx] + rest),
    ensures
        matches_something_new(m, pattern, tree, after) <==> matches_something_new(
            m,
            inner,
            item,
            below,
        ),
{
    if matches_something_new(m, pattern, tree, after) {
        let variants = choose|variants: Seq<int>| #[trigger]
            after.reaches_leaf(variants) && matches_value_of(m, pattern, variants) && tree.covering(
                variants,
            ) is None;
        let rest = variants.drop_first();
        assert(seq![idx] + rest =~= variants);
        assert(below.reaches_leaf(rest));
        assert(item.covering(rest) is None);
    }
    if matches_something_new(m, inner, item, below) {
        let rest = choose|rest: Seq<int>| #[trigger]
            below.reaches_leaf(rest) && matches_value_of(m, inner, rest) && item.covering(
                rest,
            ) is None;
        let variants = seq![idx] + rest;
        assert(variants.drop_first() =~= rest);
        assert(item.covering(rest) is None);
        assert(after.reaches_leaf(variants));
    }
}

/// What a pattern that is not one on the enum is reported as, and where: at the pattern of the arm.
pub proof fn law_patterns_on_something_else_are_reported(
    m: &SemanticModel,
    match_type: MatchKind,
    pattern: PatternId,
    path: PatternPath,
    ptr: SyntaxStablePtrId,
    tree: Coverage,
    e: ConcreteEnumId,
)
    requires
        match m.kind(pattern) {
            PatternKind::Otherwise => false,
            PatternKind::EnumVariant(p) => p.variant.concrete_enum_id != e,
            _ => true,
        },
    ensures
        ({
            let after = unfolding(m, match_type, pattern, path, ptr, tree, e);
            &&& after.tree == tree
            &&& after.reports.len() == 1
            &&& after.reports[0].location.0.0 == ptr
            &&& after.reports[0].kind matches LoweringDiagnosticKind::MatchError(reported)
            &&& reported.kind == match_type
            &&& reported.error == MatchDiagnostic::<Seq<char>>::UnsupportedMatchArmNotAVariant
        }),
{
}

/// Where a pattern on a variant of the enum, without a pattern on a variant in it, is reported as
/// unreachable: as one of the match at the pattern of the arm where a single pattern covers all of the
/// enum, and else at itself.
pub proof fn law_where_unreachable_patterns_are_reported(
    m: &SemanticModel,
    match_type: MatchKind,
    pattern: PatternId,
    path: PatternPath,
    ptr: SyntaxStablePtrId,
    tree: Coverage,
    e: ConcreteEnumId,
)
    requires
        is_on_enum(m, pattern, e),
        m.kind(pattern) is EnumVariant,
        !is_nested(m, pattern),
        unfolding(m, match_type, pattern, path, ptr, tree, e).result is Err,
    ensures
        ({
            let reports = unfolding(m, match_type, pattern, path, ptr, tree, e).reports;
            &&& reports.len() == 1
            &&& reports[0].kind matches LoweringDiagnosticKind::MatchError(reported)
            &&& if tree is Full {
                reports[0].location.0.0 == ptr && reported.kind == match_type
            } else {
                reports[0].location.0.0 == m.pattern_ptr(pattern) && reported.kind
                    == MatchKind::Match
            }
        }),
{
}

/// The patterns of a match on an enum are unfolded in turn, each at its own place, up to the first one
/// that fails.
pub proof fn law_patterns_are_unfolded_in_turn(
    m: &SemanticModel,
    match_type: MatchKind,
    patterns: Seq<(PatternPath, PatternId)>,
    e: ConcreteEnumId,
)
    ensures
        ({
            let after = unfolding_of_all(m, match_type, patterns, e);
            if patterns.len() == 0 {
                after.tree is Empty && after.reports.len() == 0 && after.result is Ok
            } else {
                let before = unfolding_of_all(m, match_type, patterns.drop_last(), e);
                let (path, pattern) = patterns.last();
                let last = unfolding(
                    m,
                    match_type,
                    pattern,
                    path,
                    m.pattern_ptr(pattern),
                    before.tree,
                    e,
                );
                if before.result is Err {
                    after == before
                } else {
                    &&& after.tree == last.tree
                    &&& after.result == last.result
                    &&& after.reports == before.reports + last.reports
                }
            }
        }),
{
}

/// A match on an enum that is lowered has only patterns on the enum and `_`.
pub proof fn law_lowered_enum_matches_have_patterns_on_the_enum(
    m: &SemanticModel,
    match_type: MatchKind,
    arms: Seq<MatchArmWrapper>,
    e: ConcreteEnumId,
)
    requires
        m.wf(),
        arms_wf(m, arms),
        arms.len() <= usize::MAX,
        m.db.has_enum(e),
        selected_arms(m, match_type, arms, e) is Ok,
    ensures
        forall|i: int, j: int|
            0 <= i < arms.len() && 0 <= j < arms[i].patterns@.len() ==> is_on_enum(
                m,
                #[trigger] arms[i].patterns@[j],
                e,
            ),
{
    let patterns = arm_patterns(arms);
    lemma_arm_patterns_ordered(arms);
    assert(arms.take(arms.len() as int) =~= arms);
    lemma_arm_patterns(m, arms, arms);
    lemma_all_on_enum(m, match_type, patterns, e);
    assert forall|i: int, j: int|
        0 <= i < arms.len() && 0 <= j < arms[i].patterns@.len() implies is_on_enum(
        m,
        #[trigger] arms[i].patterns@[j],
        e,
    ) by {
        let at = (
            PatternPath { arm_index: i as usize, pattern_index: Some(j as usize) },
            arms[i].patterns@[j],
        );
        let k = patterns.index_of(at);
        assert(patterns[k] == at);
    }
}

proof fn lemma_all_on_enum(
    m: &SemanticModel,
    match_type: MatchKind,
    patterns: Seq<(PatternPath, PatternId)>,
    e: ConcreteEnumId,
)
    requires
        m.wf(),
        m.db.has_enum(e),
        forall|k: int| 0 <= k < patterns.len() ==> m.has_pattern((#[trigger] patterns[k]).1),
        unfolding_of_all(m, match_type, patterns, e).result is Ok,
    ensures
        forall|k: int|
            0 <= k < patterns.len() ==> is_on_enum(m, (#[trigger] patterns[k]).1, e),
    decreases patterns.len(),
{
    if patterns.len() > 0 {
        let first = patterns.drop_last();
        let before = unfolding_of_all(m, match_type, first, e);
        let (path, pattern) = patterns.last();
        assert(patterns[patterns.len() - 1] == (path, pattern));
        assert forall|k: int| 0 <= k < first.len() implies m.has_pattern((#[trigger] first[k]).1) by {
            assert(first[k] == patterns[k]);
        }
        lemma_all_on_enum(m, match_type, first, e);
        lemma_unfolding_of_all(m, match_type, first, e, |p: PatternId, at: PatternPath| true);
        law_patterns_on_the_enum_are_accepted_where_they_match_something_new(
            m,
            match_type,
            pattern,
            path,
            m.pattern_ptr(pattern),
            before.tree,
            e,
        );
        assert forall|k: int| 0 <= k < patterns.len() implies is_on_enum(
            m,
            (#[trigger] patterns[k]).1,
            e,
        ) by {
            if k < first.len() {
                assert(first[k] == patterns[k]);
            }
        }
    }
}

/// `reports` say that patterns are unsupported: each pattern that covers a value of `part` once.
pub open spec fn reports_each_pattern_of(m: &SemanticModel, reports: Seq<Report>, part: Coverage) -> bool {
    exists|patterns: Seq<PatternId>| {
        &&& #[trigger] patterns.no_duplicates()
        &&& forall|p: PatternId| #[trigger] patterns.contains(p) <==> part.is_covered_by(p)
        &&& reports.len() == patterns.len()
        &&& forall|k: int|
            0 <= k < reports.len() ==> (#[trigger] reports[k]).kind is UnsupportedPattern
                && reports[k].location.0.0 == m.pattern_ptr(patterns[k])
    }
}

/// The variants of an enum are looked at in turn. Where patterns cover parts of a variant, each of them
/// is reported as unsupported once. Nothing is reported of any other variant.
pub proof fn law_patterns_on_parts_of_a_variant_are_reported(
    m: &SemanticModel,
    tree: Coverage,
    n: nat,
)
    ensures
        partial_patterns_reported(m, tree, 0).len() == 0,
        ({
            let before = partial_patterns_reported(m, tree, n);
            let after = partial_patterns_reported(m, tree, n + 1);
            let len = before.len() as int;
            &&& len <= after.len()
            &&& after.take(len) == before
            &&& if tree matches Coverage::Mapping(items) && items[n as int] is Mapping {
                reports_each_pattern_of(m, after.skip(len), tree->Mapping_0[n as int])
            } else {
                after.len() == len
            }
        }),
{
    let before = partial_patterns_reported(m, tree, n);
    let after = partial_patterns_reported(m, tree, n + 1);
    let len = before.len() as int;
    assert(after.take(len) =~= before);
    if let Coverage::Mapping(items) = tree {
        let part = items[n as int];
        if part is Mapping {
            let patterns = with_each_once(seq![], part.leaves());
            law_each_pattern_is_collected_once(seq![], part.leaves());
            assert forall|p: PatternId| #[trigger] patterns.contains(p) <==> part.is_covered_by(
                p,
            ) by {
                part.law_leaves_are_the_covering_patterns(p);
            }
            let added = patterns.map_values(|p: PatternId| unsupported_pattern(m, p));
            assert(after == before + added);
            assert(after.skip(len) =~= added);
        }
    }
}

/// What selecting the arms of the variants of an enum reports: what comes after the underscore pattern,
/// then the patterns in turn, and, where no pattern fails, then those on parts of a variant.
pub proof fn law_selection_reports_come_in_this_order(
    m: &SemanticModel,
    match_type: MatchKind,
    arms: Seq<MatchArmWrapper>,
    e: ConcreteEnumId,
)
    requires
        m.db.variants(e) is Ok,
    ensures
        ({
            let unfolded = unfolding_of_all(m, match_type, arm_patterns(arms), e);
            let reports = selection_reports(m, match_type, arms, e);
            let first = unreachable_after_underscore(m, match_type, arms);
            let partial = partial_patterns_reported(m, unfolded.tree, m.db.variant_count(e));
            &&& unfolded.result is Ok <==> selected_arms(m, match_type, arms, e) is Ok
            &&& unfolded.result is Err ==> reports == first + unfolded.reports
            &&& unfolded.result is Ok ==> reports == first + unfolded.reports + partial
        }),
{
    let unfolded = unfolding_of_all(m, match_type, arm_patterns(arms), e);
    let first = unreachable_after_underscore(m, match_type, arms);
    let partial = partial_patterns_reported(m, unfolded.tree, m.db.variant_count(e));
    assert(first + (unfolded.reports + partial) =~= first + unfolded.reports + partial);
}

/// The patterns of the arms, in the order in which they are written.
pub open spec fn written_patterns(arms: Seq<MatchArmWrapper>) -> Seq<PatternId> {
    arms.map_values(|arm: MatchArmWrapper| arm.patterns@).flatten()
}

proof fn lemma_written(arms: Seq<MatchArmWrapper>)
    ensures
        written_patterns(arms).len() == arm_patterns(arms).len(),
        forall|k: int|
            0 <= k < arm_patterns(arms).len() ==> (#[trigger] arm_patterns(arms)[k]).1
                == written_patterns(arms)[k],
    decreases arms.len(),
{
    if arms.len() > 0 {
        let before = arms.drop_last();
        lemma_written(before);
        let lists = before.map_values(|arm: MatchArmWrapper| arm.patterns@);
        let last = arms.last().patterns@;
        lists.lemma_flatten_push(last);
        assert(arms.map_values(|arm: MatchArmWrapper| arm.patterns@) =~= lists.push(last));
        assert(written_patterns(arms) == written_patterns(before) + last);
        assert forall|k: int| 0 <= k < arm_patterns(arms).len() implies (#[trigger] arm_patterns(
            arms,
        )[k]).1 == written_patterns(arms)[k] by {
            if k < arm_patterns(before).len() {
                assert(arm_patterns(arms)[k] == arm_patterns(before)[k]);
            }
        }
    }
}

/// The patterns are on different variants of the enum `e`, each on all of its variant, but for a `_` that
/// may come last.
pub open spec fn lists_variants(m: &SemanticModel, patterns: Seq<PatternId>, e: ConcreteEnumId) -> bool {
    &&& forall|k: int|
        0 <= k < patterns.len() ==> {
            ||| k == patterns.len() - 1 && m.kind(#[trigger] patterns[k]) is Otherwise
            ||| m.kind(patterns[k]) matches PatternKind::EnumVariant(p) && p.variant.concrete_enum_id
                == e && !is_nested(m, patterns[k])
        }
    &&& forall|j: int, k: int|
        0 <= j < k < patterns.len() && m.kind(#[trigger] patterns[j]) is EnumVariant && m.kind(
            #[trigger] patterns[k],
        ) is EnumVariant ==> m.kind(patterns[j])->EnumVariant_0.variant.idx != m.kind(
            patterns[k],
        )->EnumVariant_0.variant.idx
}

/// The patterns on different variants are all accepted, and leave no variant partly covered.
proof fn lemma_variants_listed(
    m: &SemanticModel,
    match_type: MatchKind,
    patterns: Seq<(PatternPath, PatternId)>,
    written: Seq<PatternId>,
    e: ConcreteEnumId,
    n: nat,
)
    requires
        m.wf(),
        m.db.has_enum(e),
        m.db.variants(e) is Ok,
        n <= patterns.len(),
        patterns.len() == written.len(),
        forall|k: int|
            0 <= k < patterns.len() ==> (#[trigger] patterns[k]).1 == written[k] && m.has_pattern(
                written[k],
            ),
        lists_variants(m, written, e),
    ensures
        ({
            let unfolded = unfolding_of_all(m, match_type, patterns.take(n as int), e);
            let count = m.db.variant_count(e);
            &&& unfolded.result is Ok
            &&& unfolded.reports.len() == 0
            &&& n < patterns.len() ==> !(unfolded.tree is Full)
            &&& unfolded.tree matches Coverage::Mapping(items) ==> {
                &&& items.len() == count
                &&& forall|i: int| 0 <= i < count ==> !((#[trigger] items[i]) is Mapping)
                &&& n < patterns.len() ==> forall|i: int|
                    0 <= i < count && (#[trigger] items[i]) is Full ==> exists|k: int|
                        0 <= k < n && m.kind(#[trigger] written[k]) is EnumVariant && m.kind(
                            written[k],
                        )->EnumVariant_0.variant.idx == i
            }
        }),
    decreases n,
{
    if n > 0 {
        let k = n - 1;
        lemma_variants_listed(m, match_type, patterns, written, e, k as nat);
        let first = patterns.take(k);
        let now = patterns.take(n as int);
        assert(now.drop_last() =~= first);
        assert(now.last() == patterns[k]);
        let before = unfolding_of_all(m, match_type, first, e);
        let (path, pattern) = patterns[k];
        assert(pattern == written[k]);
        assert(m.pattern_wf(pattern.0 as int));
        let count = m.db.variant_count(e);
        let after = unfolding_of_all(m, match_type, now, e);
        if m.kind(pattern) is Otherwise {
            if let Coverage::Mapping(items) = before.tree {
                let filled = after.tree->Mapping_0;
                assert forall|i: int| 0 <= i < count implies !((#[trigger] filled[i]) is Mapping) by {
                    assert(filled[i] == items[i].filled(pattern, path));
                    assert(!(items[i] is Mapping));
                }
            }
        } else {
            let p = m.kind(pattern)->EnumVariant_0;
            let idx = p.variant.idx as int;
            let items = before.tree.expanded(count)->Mapping_0;
            if items[idx] is Full {
                let j = choose|j: int|
                    0 <= j < k && m.kind(#[trigger] written[j]) is EnumVariant && m.kind(
                        written[j],
                    )->EnumVariant_0.variant.idx == idx;
                assert(m.kind(written[k]) is EnumVariant);
            }
            assert(items[idx] is Empty);
            let filled = after.tree->Mapping_0;
            assert(filled == items.update(idx, Coverage::Full(pattern, path)));
            assert forall|i: int| 0 <= i < count && (#[trigger] filled[i]) is Full implies exists|
                j: int,
            |
                0 <= j < n && m.kind(#[trigger] written[j]) is EnumVariant && m.kind(
                    written[j],
                )->EnumVariant_0.variant.idx == i by {
                if i == idx {
                    assert(m.kind(written[k]) is EnumVariant);
                } else {
                    assert(items[i] is Full);
                }
            }
        }
    }
}

/// A match on an enum whose patterns are on different variants, each on all of its variant, followed by
/// at most one `_` or arm without patterns, is lowered, and nothing is reported.
pub proof fn law_matches_on_different_variants_are_lowered(
    m: &SemanticModel,
    match_type: MatchKind,
    arms: Seq<MatchArmWrapper>,
    e: ConcreteEnumId,
)
    requires
        m.wf(),
        arms_wf(m, arms),
        arms.len() <= usize::MAX,
        m.db.has_enum(e),
        m.db.variants(e) is Ok,
        lists_variants(m, written_patterns(arms), e),
        forall|i: int| 0 <= i < arms.len() - 1 ==> !is_catch_all(m, #[trigger] arms[i]),
    ensures
        selected_arms(m, match_type, arms, e) is Ok,
        selection_reports(m, match_type, arms, e) == Seq::<Report>::empty(),
{
    let patterns = arm_patterns(arms);
    let written = written_patterns(arms);
    lemma_written(arms);
    assert(arms.take(arms.len() as int) =~= arms);
    lemma_arm_patterns(m, arms, arms);
    assert forall|k: int| 0 <= k < patterns.len() implies (#[trigger] patterns[k]).1 == written[k]
        && m.has_pattern(written[k]) by {}
    lemma_variants_listed(m, match_type, patterns, written, e, patterns.len());
    assert(patterns.take(patterns.len() as int) =~= patterns);
    let unfolded = unfolding_of_all(m, match_type, patterns, e);
    lemma_no_partial(m, unfolded.tree, m.db.variant_count(e));
    law_selection_reports_come_in_this_order(m, match_type, arms, e);
    law_the_underscore_is_the_first_catch_all(m, arms);
    law_all_after_the_underscore_is_unreachable(m, match_type, arms);
    let first = unreachable_after_underscore(m, match_type, arms);
    if let Some(path) = underscore_path(m, arms) {
        let a = path.arm_index as int;
        assert(a == arms.len() - 1);
        let rest = arms.skip(a + 1);
        assert(rest.map_values(|arm: MatchArmWrapper| arm_ptrs(m, arm)) =~= seq![]);
        if let Some(j) = path.pattern_index {
            let at = (
                PatternPath { arm_index: a as usize, pattern_index: Some(j) },
                arms[a].patterns@[j as int],
            );
            lemma_last_pattern(arms);
            let last = arms[a].patterns@;
            if j + 1 < last.len() {
                let end = patterns.len() - 1;
                let k = end - (last.len() - 1 - j);
                assert(patterns[k] == at);
                assert(written[k] == last[j as int]);
                assert(m.kind(written[k]) is Otherwise);
            }
            assert(last.skip(j + 1) =~= seq![]);
        }
        assert(ptrs_of(first).len() == 0);
    }
    assert(ptrs_of(first).len() == first.len());
    assert(selection_reports(m, match_type, arms, e) =~= Seq::<Report>::empty());
}

/// The patterns of the last arm come last.
proof fn lemma_last_pattern(arms: Seq<MatchArmWrapper>)
    requires
        arms.len() > 0,
    ensures
        ({
            let last = arms.last().patterns@;
            let n = arm_patterns(arms).len() - last.len();
            &&& n >= 0
            &&& forall|j: int|
                0 <= j < last.len() ==> #[trigger] arm_patterns(arms)[n + j] == (
                    PatternPath {
                        arm_index: (arms.len() - 1) as usize,
                        pattern_index: Some(j as usize),
                    },
                    last[j],
                )
        }),
{
}

proof fn lemma_no_partial(m: &SemanticModel, tree: Coverage, n: nat)
    requires
        tree matches Coverage::Mapping(items) ==> forall|i: int|
            0 <= i < n ==> !((#[trigger] items[i]) is Mapping),
    ensures
        partial_patterns_reported(m, tree, n).len() == 0,
    decreases n,
{
    if n > 0 {
        lemma_no_partial(m, tree, (n - 1) as nat);
        if let Coverage::Mapping(items) = tree {
            assert(!(items[n - 1] is Mapping));
        }
    }
}

/// What extracting an enum reports of a type: nothing where there is an enum under all snapshots, and
/// else that the type under them is unsupported.
pub proof fn law_what_is_no_enum_is_reported(
    m: &SemanticModel,
    stable_ptr: SyntaxStablePtrId,
    ty: TypeId,
    match_type: MatchKind,
)
    ensures
        ({
            let reports = extraction_reports(m, stable_ptr, ty, match_type);
            match m.db.peeled_enum(ty) {
                Some(_) => reports.len() == 0,
                None => {
                    &&& reports.len() == 1
                    &&& reports[0].location.0.0 == stable_ptr
                    &&& reports[0].kind matches LoweringDiagnosticKind::MatchError(reported)
                    &&& reported.kind == match_type
                    &&& reported.error == MatchDiagnostic::UnsupportedMatchedType(
                        m.db.types@[m.db.peeled(ty).1.0 as int].formatted@,
                    )
                },
            }
        }),
        is_known_enum(m, ty) <==> (m.db.peeled_enum(ty) matches Some(e) && m.db.variants(e) is Ok),
{
}

/// A pattern on a variant with a pattern on a variant in it, where the payload is no enum with known
/// variants, fails; that the payload is no enum is reported at the pattern in it.
pub proof fn law_patterns_in_a_payload_need_an_enum_there(
    m: &SemanticModel,
    match_type: MatchKind,
    pattern: PatternId,
    path: PatternPath,
    ptr: SyntaxStablePtrId,
    tree: Coverage,
    e: ConcreteEnumId,
    inner: PatternId,
)
    requires
        m.wf(),
        m.has_pattern(pattern),
        m.db.variants(e) is Ok,
        !(tree is Full),
        m.kind(pattern) matches PatternKind::EnumVariant(p) && p.variant.concrete_enum_id == e
            && p.inner_pattern == Some(inner),
        m.kind(inner) is EnumVariant,
        ({
            let payload = m.db.variants(e)->Ok_0[m.kind(
                pattern,
            )->EnumVariant_0.variant.idx as int].ty;
            !(m.db.peeled_enum(payload) matches Some(inner_enum) && m.db.variants(inner_enum) is Ok)
        }),
    ensures
        ({
            let payload = m.db.variants(e)->Ok_0[m.kind(
                pattern,
            )->EnumVariant_0.variant.idx as int].ty;
            let after = unfolding(m, match_type, pattern, path, ptr, tree, e);
            &&& after.result is Err
            &&& m.db.peeled_enum(payload) is Some ==> after.reports.len() == 0
            &&& m.db.peeled_enum(payload) is None ==> {
                &&& after.reports.len() == 1
                &&& after.reports[0].location.0.0 == m.pattern_ptr(inner)
                &&& after.reports[0].kind matches LoweringDiagnosticKind::MatchError(reported)
                &&& reported.error is UnsupportedMatchedType
            }
        }),
{
    assert(m.pattern_wf(pattern.0 as int));
}

/// A match on an enum with known variants that was lowered to a variable is lowered exactly where the
/// arms of its variants are selected.
pub proof fn law_enum_matches_are_lowered_where_arms_are_selected(
    before: LoweringContext,
    after: LoweringContext,
    matched_expr: ExprId,
    match_input: LoweringResult<VarUsage>,
    arms: Seq<MatchArmWrapper>,
    location: LocationId,
    match_type: MatchKind,
    r: LoweringResult<ConcreteEnumMatch>,
    e: ConcreteEnumId,
)
    requires
        concrete_enum_match_outcome(
            before,
            after,
            matched_expr,
            match_input,
            arms,
            location,
            match_type,
            r,
        ),
        before.semantic.db.peeled_enum(before.semantic.exprs@[matched_expr.0 as int].ty) == Some(e),
        before.semantic.db.variants(e) is Ok,
        match_input is Ok,
    ensures
        r is Ok <==> selected_arms(&before.semantic, match_type, arms, e) is Ok,
        r is Err ==> r->Err_0 == LoweringFlowError::Failed(DiagnosticAdded),
        after.reported() == before.reported() + selection_reports(
            &before.semantic,
            match_type,
            arms,
            e,
        ),
{
}

/// As [law_enum_matches_are_lowered_where_arms_are_selected], for a match on the outcome of a call. Where
/// the variants are not known, the match fails, and nothing is reported.
pub proof fn law_matches_on_a_call_are_lowered_where_arms_are_selected(
    before: LoweringContext,
    after: LoweringContext,
    extern_enum: LoweredExprExternEnum,
    arms: Seq<MatchArmWrapper>,
    match_type: MatchKind,
    r: LoweringResult<OptimizedExternMatch>,
)
    requires
        extern_match_outcome(before, after, extern_enum, arms, match_type, r),
    ensures
        ({
            let m = &before.semantic;
            let e = extern_enum.concrete_enum_id;
            &&& r is Err ==> r->Err_0 == LoweringFlowError::Failed(DiagnosticAdded)
            &&& m.db.variants(e) is Err ==> r is Err && after.reported() == before.reported()
            &&& m.db.variants(e) is Ok ==> {
                &&& r is Ok <==> selected_arms(m, match_type, arms, e) is Ok
                &&& after.reported() == before.reported() + selection_reports(
                    m,
                    match_type,
                    arms,
                    e,
                )
            }
        }),
{
    if before.semantic.db.variants(extern_enum.concrete_enum_id) is Err {
        assert(after.reported() =~= before.reported());
    }
}

/// What is extracted of an enum: the enum under all snapshots, its variants in the order of its
/// definition, and the number of the snapshots.
pub proof fn law_details_are_those_of_the_enum(
    m: &SemanticModel,
    ty: TypeId,
    details: ExtractedEnumDetails,
)
    requires
        details.describe(m, ty),
    ensures
        m.db.types@[m.db.peeled(ty).1.0 as int].long_id == TypeLongId::Enum(
            details.concrete_enum_id,
        ),
        m.db.enums@[details.concrete_enum_id.0 as int] matches Ok(variants) && variants@
            == details.concrete_variants@,
        details.n_snapshots == m.db.peeled(ty).0,
{
}

/// All patterns of the arms are unfolded, in the order in which they are written, and each path leads to
/// its pattern.
pub proof fn law_all_patterns_are_unfolded(m: &SemanticModel, arms: Seq<MatchArmWrapper>, k: int)
    requires
        arms_wf(m, arms),
        arms.len() <= usize::MAX,
        0 <= k < written_patterns(arms).len(),
    ensures
        arm_patterns(arms).len() == written_patterns(arms).len(),
        arm_patterns(arms)[k].1 == written_patterns(arms)[k],
        arm_patterns(arms)[k].0.arm_index < arms.len(),
        pattern_at(arms, arm_patterns(arms)[k].0) == Some(written_patterns(arms)[k]),
{
    lemma_written(arms);
    assert(arms.take(arms.len() as int) =~= arms);
    lemma_arm_patterns(m, arms, arms);
    let (path, pattern) = arm_patterns(arms)[k];
}

/// What comes of a pattern on a variant with a pattern on a variant in it is what comes of that one, in
/// the enum of the payload and with what covers the variant already.
pub proof fn law_patterns_in_a_payload_are_unfolded_there(
    m: &SemanticModel,
    match_type: MatchKind,
    pattern: PatternId,
    path: PatternPath,
    ptr: SyntaxStablePtrId,
    tree: Coverage,
    e: ConcreteEnumId,
    inner: PatternId,
    inner_enum: ConcreteEnumId,
    part: Coverage,
)
    requires
        m.wf(),
        m.has_pattern(pattern),
        tree.fits(m, e),
        m.db.variants(e) is Ok,
        m.kind(pattern) matches PatternKind::EnumVariant(p) && {
            &&& p.variant.concrete_enum_id == e
            &&& p.inner_pattern == Some(inner)
            &&& m.db.peeled_enum(m.db.variants(e)->Ok_0[p.variant.idx as int].ty) == Some(inner_enum)
            &&& match tree {
                Coverage::Empty => part is Empty,
                Coverage::Full(_, _) => false,
                Coverage::Mapping(items) => part == items[p.variant.idx as int],
            }
        },
        m.kind(inner) is EnumVariant,
        m.db.variants(inner_enum) is Ok,
    ensures
        ({
            let idx = m.kind(pattern)->EnumVariant_0.variant.idx as int;
            let whole = unfolding(m, match_type, pattern, path, ptr, tree, e);
            let below = unfolding(m, match_type, inner, path, ptr, part, inner_enum);
            &&& whole.result == below.result
            &&& whole.reports == below.reports
            &&& whole.tree matches Coverage::Mapping(items)
            &&& items.len() == m.db.variant_count(e)
            &&& items[idx] == below.tree
            &&& forall|i: int|
                0 <= i < items.len() && i != idx ==> #[trigger] items[i] == (match tree {
                    Coverage::Mapping(before) => before[i],
                    _ => Coverage::Empty,
                })
        }),
{
    assert(m.pattern_wf(pattern.0 as int));
}

} // verus!

//! Matches on an enum.
use vstd::prelude::*;

use crate::context::{failed, LoweringContext, LoweringFlowError, LoweringResult};
use crate::diagnostic::{
    location_of, match_error_at, DiagnosticAdded, LocationId, LoweringDiagnostic,
    LoweringDiagnosticKind, MatchDiagnostic, MatchKind, Report,
};
use crate::lowered::{
    arms_of_blocks, variant_match_arms, BlockId, LoweredExprExternEnum, MatchEnumInfo,
    MatchExternInfo, MatchInfo, VarRequest, VarType, VarUsage, VariableId,
};
use crate::match_arms::{
    arms_wf, first_otherwise, first_taking_all, get_underscore_pattern_path_and_mark_unreachable,
    lemma_first_otherwise, lemma_first_taking_all, lemma_same_parts, lemma_same_underscore,
    same_arms, takes_all, underscore_path,
    unreachable_after_underscore, unreachable_arm, unreachable_arms, MatchArmWrapper, PatternPath,
};
use crate::match_groups::{
    all_have_arms, are_groups, bodies_are_blocks, group_match_arms, leaf_blocks, leaf_builders,
    leaf_vars, leaves_fit, leaves_reports, take_up_leaves, targets_of, ConcludedMatch, LeafTarget,
    LoweredLeaf, Target,
};
use crate::semantic::{
    ConcreteEnumId, ConcreteVariant, ExprId, PatternEnumVariant, PatternId, PatternKind,
    SemanticModel, TypeId, TypeLongId,
};
use crate::syntax::SyntaxStablePtrId;
use crate::variant_match_tree::{with_each_once, Coverage, VariantMatchTree};

verus! {

/// Information about the enum of a match statement. See [extract_concrete_enum].
#[derive(PartialEq, Eq, Debug)]
pub struct ExtractedEnumDetails {
    pub concrete_enum_id: ConcreteEnumId,
    pub concrete_variants: Vec<ConcreteVariant>,
    pub n_snapshots: usize,
}

/// An [ExtractedEnumDetails], its list taken as a sequence.
#[verifier::ext_equal]
pub struct EnumDetails {
    pub concrete_enum_id: ConcreteEnumId,
    pub concrete_variants: Seq<ConcreteVariant>,
    pub n_snapshots: usize,
}

impl ExtractedEnumDetails {
    pub open spec fn view(&self) -> EnumDetails {
        EnumDetails {
            concrete_enum_id: self.concrete_enum_id,
            concrete_variants: self.concrete_variants@,
            n_snapshots: self.n_snapshots,
        }
    }

    /// The details are those of the enum under the snapshots around `ty`.
    pub open spec fn describe(&self, m: &SemanticModel, ty: TypeId) -> bool {
        &&& m.db.peeled_enum(ty) == Some(self.concrete_enum_id)
        &&& m.db.has_enum(self.concrete_enum_id)
        &&& m.db.variants(self.concrete_enum_id) == Ok::<_, DiagnosticAdded>(
            self.concrete_variants@,
        )
        &&& self.n_snapshots == m.db.peeled(ty).0
    }
}

/// What extracting the enum under the snapshots around `ty` reports at `stable_ptr`.
pub open spec fn extraction_reports(
    m: &SemanticModel,
    stable_ptr: SyntaxStablePtrId,
    ty: TypeId,
    match_type: MatchKind,
) -> Seq<Report> {
    if m.db.peeled_enum(ty) is Some {
        seq![]
    } else {
        let formatted = m.db.types@[m.db.peeled(ty).1.0 as int].formatted@;
        seq![
            match_error_at(
                stable_ptr,
                match_type,
                MatchDiagnostic::UnsupportedMatchedType(formatted),
            ),
        ]
    }
}

/// Whether there is an enum under the snapshots around `ty`, and its variants are known.
pub open spec fn is_known_enum(m: &SemanticModel, ty: TypeId) -> bool {
    m.db.peeled_enum(ty) matches Some(e) && m.db.variants(e) is Ok
}

/// Extracts concrete enum and variants from a match expression. Fails where the type is no
/// concrete enum, or the variants of the enum are not known.
pub fn extract_concrete_enum(
    ctx: &mut LoweringContext,
    stable_ptr: SyntaxStablePtrId,
    ty: TypeId,
    match_type: MatchKind,
) -> (r: LoweringResult<ExtractedEnumDetails>)
    requires
        old(ctx).semantic.wf(),
        old(ctx).semantic.db.has_type(ty),
    ensures
        r is Ok <==> is_known_enum(&old(ctx).semantic, ty),
        r matches Ok(details) ==> details.describe(&old(ctx).semantic, ty),
        r is Err ==> r == failed::<ExtractedEnumDetails>(),
        old(ctx).reports(
            final(ctx),
            extraction_reports(&old(ctx).semantic, stable_ptr, ty, match_type),
        ),
{
    let (n_snapshots, long_ty) = ctx.semantic.db.peel_snapshots(ty);

    let concrete_enum_id = match &ctx.semantic.db.types[long_ty.0].long_id {
        TypeLongId::Enum(concrete_enum_id) => *concrete_enum_id,
        _ => {
            let formatted = ctx.semantic.db.types[long_ty.0].formatted.clone();
            return Err(
                LoweringFlowError::Failed(
                    ctx.report_match_error(
                        stable_ptr,
                        match_type,
                        MatchDiagnostic::UnsupportedMatchedType(formatted),
                    ),
                ),
            );
        },
    };
    match ctx.semantic.db.concrete_enum_variants(concrete_enum_id) {
        Ok(variants) => {
            let concrete_variants = variants.clone();
            assert(concrete_variants@ =~= variants@);
            Ok(ExtractedEnumDetails { concrete_enum_id, concrete_variants, n_snapshots })
        },
        Err(reported) => Err(LoweringFlowError::Failed(reported)),
    }
}

/// What unfolding a pattern into a tree leaves behind.
pub struct Unfolding {
    pub tree: Coverage,
    pub reports: Seq<Report>,
    pub result: LoweringResult<()>,
}

/// What unfolding `pattern`, of the enum `e`, into `tree` leaves behind. `ptr` is the pattern of
/// the arm that it is written in.
pub open spec fn unfolding(
    m: &SemanticModel,
    match_type: MatchKind,
    pattern: PatternId,
    path: PatternPath,
    ptr: SyntaxStablePtrId,
    tree: Coverage,
    e: ConcreteEnumId,
) -> Unfolding
    decreases pattern.0,
{
    match m.kind(pattern) {
        PatternKind::Otherwise => Unfolding {
            tree: tree.filled(pattern, path),
            reports: seq![],
            result: Ok(()),
        },
        PatternKind::EnumVariant(p) => {
            if p.variant.concrete_enum_id != e {
                unfolding_error(tree, ptr, match_type, MatchDiagnostic::UnsupportedMatchArmNotAVariant)
            } else if tree is Full {
                unfolding_error(tree, ptr, match_type, MatchDiagnostic::UnreachableMatchArm)
            } else if m.db.variants(e) is Err {
                Unfolding { tree, reports: seq![], result: failed() }
            } else {
                let idx = p.variant.idx as int;
                let items = tree.expanded(m.db.variant_count(e))->Mapping_0;
                let payload = m.db.variants(e)->Ok_0[idx].ty;
                let below = match p.inner_pattern {
                    Some(inner) if m.kind(inner) is EnumVariant && inner.0 < pattern.0 => {
                        if is_known_enum(m, payload) {
                            unfolding(
                                m,
                                match_type,
                                inner,
                                path,
                                ptr,
                                items[idx],
                                m.db.peeled_enum(payload)->0,
                            )
                        } else {
                            Unfolding {
                                tree: items[idx],
                                reports: extraction_reports(
                                    m,
                                    m.pattern_ptr(inner),
                                    payload,
                                    match_type,
                                ),
                                result: failed(),
                            }
                        }
                    },
                    _ => if items[idx].has_room() {
                        Unfolding {
                            tree: items[idx].filled(pattern, path),
                            reports: seq![],
                            result: Ok(()),
                        }
                    } else {
                        unfolding_error(
                            items[idx],
                            m.pattern_ptr(pattern),
                            MatchKind::Match,
                            MatchDiagnostic::UnreachableMatchArm,
                        )
                    },
                };
                Unfolding { tree: Coverage::Mapping(items.update(idx, below.tree)), ..below }
            }
        },
        _ => unfolding_error(tree, ptr, match_type, MatchDiagnostic::UnsupportedMatchArmNotAVariant),
    }
}

/// A failed unfolding, with one match error.
pub open spec fn unfolding_error(
    tree: Coverage,
    ptr: SyntaxStablePtrId,
    match_type: MatchKind,
    error: MatchDiagnostic<Seq<char>>,
) -> Unfolding {
    Unfolding { tree, reports: seq![match_error_at(ptr, match_type, error)], result: failed() }
}

/// This function attempts to push a pattern onto the [VariantMatchTree] representing the enum
/// match being lowered. This will fill the appropriate subtrees as covered (i.e. full).
/// If the pattern is unreachable (i.e., the enum variant it represents is already covered),
/// it returns an error.
pub fn try_push(
    ctx: &mut LoweringContext,
    pattern: PatternId,
    pattern_path: PatternPath,
    variant_map: &mut VariantMatchTree,
) -> (r: LoweringResult<()>)
    requires
        old(ctx).semantic.has_pattern(pattern),
    ensures
        final(variant_map)@ == old(variant_map)@.filled(pattern, pattern_path),
        r == (if old(variant_map)@.has_room() {
            Ok(())
        } else {
            failed()
        }),
        old(ctx).reports(
            final(ctx),
            if old(variant_map)@.has_room() {
                seq![]
            } else {
                seq![
                    match_error_at(
                        old(ctx).semantic.pattern_ptr(pattern),
                        MatchKind::Match,
                        MatchDiagnostic::UnreachableMatchArm,
                    ),
                ]
            },
        ),
{
    match variant_map.push_pattern_path(pattern, pattern_path) {
        Ok(()) => Ok(()),
        Err(kind) => {
            let location = LoweringContext::get_location(
                ctx.semantic.patterns[pattern.0].stable_ptr,
            );
            Err(LoweringFlowError::Failed(ctx.report_by_location(location, kind)))
        },
    }
}

/// Recursively unfolds a pattern and pushes it to a variant match tree.
/// This function handles nested enum patterns by traversing the enum patterns and updating the
/// variant match tree accordingly.
/// The function handles three main cases:
/// * Otherwise (_) patterns: fills all leaves in the tree
/// * Enum variant patterns: recursively processes nested patterns if they exist
/// * Other patterns: reports errors for unsupported pattern types
///
/// # Returns
/// * `Ok(())` if the pattern was successfully unfolded and pushed to the tree.
/// * `Err(LoweringFlowError)` if an error occurred during processing (e.g., mismatched enum types,
///   unreachable patterns, or unsupported pattern types).
pub fn unfold_pattern_and_push_to_tree(
    ctx: &mut LoweringContext,
    match_type: MatchKind,
    pattern: PatternId,
    pattern_path: PatternPath,
    pattern_ptr: SyntaxStablePtrId,
    variant_match_tree: &mut VariantMatchTree,
    concrete_enum_id: ConcreteEnumId,
) -> (r: LoweringResult<()>)
    requires
        old(ctx).semantic.wf(),
        old(ctx).semantic.has_pattern(pattern),
        old(ctx).semantic.db.has_enum(concrete_enum_id),
        old(variant_match_tree)@.fits(&old(ctx).semantic, concrete_enum_id),
    ensures
        ({
            let expected = unfolding(
                &old(ctx).semantic,
                match_type,
                pattern,
                pattern_path,
                pattern_ptr,
                old(variant_match_tree)@,
                concrete_enum_id,
            );
            &&& final(variant_match_tree)@ == expected.tree
            &&& r == expected.result
            &&& old(ctx).reports(final(ctx), expected.reports)
        }),
    decreases pattern.0,
{
    let ghost m = ctx.semantic;
    let ghost tree = variant_match_tree@;
    assert(m.pattern_wf(pattern.0 as int));
    let enum_pattern = match &ctx.semantic.patterns[pattern.0].kind {
        PatternKind::Otherwise => {
            // Fill leaves. A pattern `_` that covers nothing new is no error.
            let _ = variant_match_tree.push_pattern_path(pattern, pattern_path);
            return Ok(());
        },
        PatternKind::EnumVariant(enum_pattern) => *enum_pattern,
        _ => {
            return Err(
                LoweringFlowError::Failed(
                    ctx.report_match_error(
                        pattern_ptr,
                        match_type,
                        MatchDiagnostic::UnsupportedMatchArmNotAVariant,
                    ),
                ),
            );
        },
    };
    if concrete_enum_id != enum_pattern.variant.concrete_enum_id {
        return Err(
            LoweringFlowError::Failed(
                ctx.report_match_error(
                    pattern_ptr,
                    match_type,
                    MatchDiagnostic::UnsupportedMatchArmNotAVariant,
                ),
            ),
        );
    }
    // Expand paths in map to include all variants of this enum_pattern.
    let variant_tree = match variant_match_tree.get_mapping_or_insert(ctx, enum_pattern.variant) {
        Err(reported) => {
            return Err(LoweringFlowError::Failed(reported));
        },
        Ok(None) => {
            return Err(
                LoweringFlowError::Failed(
                    ctx.report_match_error(
                        pattern_ptr,
                        match_type,
                        MatchDiagnostic::UnreachableMatchArm,
                    ),
                ),
            );
        },
        Ok(Some(variant_tree)) => variant_tree,
    };

    let inner_pattern = match enum_pattern.inner_pattern {
        Some(inner_pattern) if ctx.semantic.matches_enum(inner_pattern) => inner_pattern,
        _ => {
            proof {
                if !variant_tree@.has_room() {
                    variant_tree@.law_unreachable_pattern_changes_nothing(pattern, pattern_path);
                }
            }
            return try_push(ctx, pattern, pattern_path, variant_tree);
        },
    };
    let ptr = ctx.semantic.patterns[inner_pattern.0].stable_ptr;
    let payload = match ctx.semantic.db.concrete_enum_variants(concrete_enum_id) {
        Ok(variants) => variants[enum_pattern.variant.idx].ty,
        Err(reported) => {
            return Err(LoweringFlowError::Failed(reported));
        },
    };
    proof {
        m.db.lemma_variant(concrete_enum_id, enum_pattern.variant.idx as int);
    }
    match extract_concrete_enum(ctx, ptr, payload, match_type) {
        Ok(next_enum) => unfold_pattern_and_push_to_tree(
            ctx,
            match_type,
            inner_pattern,
            pattern_path,
            pattern_ptr,
            variant_tree,
            next_enum.concrete_enum_id,
        ),
        Err(error) => Err(error),
    }
}

/// The patterns of the arms, in the order in which they are written, with their paths.
pub open spec fn arm_patterns(arms: Seq<MatchArmWrapper>) -> Seq<(PatternPath, PatternId)>
    decreases arms.len(),
{
    if arms.len() == 0 {
        seq![]
    } else {
        arm_patterns(arms.drop_last()) + patterns_of_arm(arms.last(), (arms.len() - 1) as nat)
    }
}

/// The patterns of the arm at `arm_index`, with their paths.
pub open spec fn patterns_of_arm(arm: MatchArmWrapper, arm_index: nat) -> Seq<
    (PatternPath, PatternId),
> {
    Seq::new(
        arm.patterns@.len(),
        |j: int|
            (
                PatternPath {
                    arm_index: arm_index as usize,
                    pattern_index: Some(j as usize),
                },
                arm.patterns@[j],
            ),
    )
}

/// What unfolding `patterns`, of the enum `e`, one after the other into an empty tree leaves
/// behind. It ends with the first pattern that fails.
pub open spec fn unfolding_of_all(
    m: &SemanticModel,
    match_type: MatchKind,
    patterns: Seq<(PatternPath, PatternId)>,
    e: ConcreteEnumId,
) -> Unfolding
    decreases patterns.len(),
{
    if patterns.len() == 0 {
        Unfolding { tree: Coverage::Empty, reports: seq![], result: Ok(()) }
    } else {
        let before = unfolding_of_all(m, match_type, patterns.drop_last(), e);
        if before.result is Err {
            before
        } else {
            let (path, pattern) = patterns.last();
            let ptr = m.pattern_ptr(pattern);
            let after = unfolding(m, match_type, pattern, path, ptr, before.tree, e);
            Unfolding { reports: before.reports + after.reports, ..after }
        }
    }
}

/// The path of the pattern that covers all of the variant at `idx`.
pub open spec fn arm_of_variant(tree: Coverage, idx: int) -> Option<PatternPath> {
    match tree {
        Coverage::Empty => None,
        Coverage::Full(_, path) => Some(path),
        Coverage::Mapping(items) => match items[idx] {
            Coverage::Full(_, path) => Some(path),
            _ => None,
        },
    }
}

/// The paths of the patterns that cover all of each of `count` variants.
pub open spec fn arms_of_variants(tree: Coverage, count: nat) -> Seq<Option<PatternPath>> {
    Seq::new(count, |idx: int| arm_of_variant(tree, idx))
}

/// An unsupported pattern.
pub open spec fn unsupported_pattern(m: &SemanticModel, pattern: PatternId) -> Report {
    LoweringDiagnostic {
        location: location_of(m.pattern_ptr(pattern)),
        kind: LoweringDiagnosticKind::UnsupportedPattern,
    }
}

/// The patterns that cover a part of one of the first `n` variants, each reported as unsupported.
pub open spec fn partial_patterns_reported(m: &SemanticModel, tree: Coverage, n: nat) -> Seq<Report>
    decreases n,
{
    if n == 0 {
        seq![]
    } else {
        partial_patterns_reported(m, tree, (n - 1) as nat) + (match tree {
            Coverage::Mapping(items) if items[n - 1] is Mapping => with_each_once(
                seq![],
                items[n - 1].leaves(),
            ).map_values(|p: PatternId| unsupported_pattern(m, p)),
            _ => seq![],
        })
    }
}

/// Whether `path` leads to a pattern on an enum variant or to `_`.
pub open spec fn is_enum_or_otherwise(
    m: &SemanticModel,
    arms: Seq<MatchArmWrapper>,
    path: PatternPath,
) -> bool {
    &&& path.leads_into(arms)
    &&& path.pattern(arms) matches Some(p) ==> m.kind(p) is EnumVariant || m.kind(p) is Otherwise
}

/// Unfolding keeps a tree within its enum, and adds one path to it.
proof fn lemma_unfolding(
    m: &SemanticModel,
    match_type: MatchKind,
    pattern: PatternId,
    path: PatternPath,
    ptr: SyntaxStablePtrId,
    tree: Coverage,
    e: ConcreteEnumId,
    f: spec_fn(PatternId, PatternPath) -> bool,
)
    requires
        m.wf(),
        m.has_pattern(pattern),
        m.db.has_enum(e),
        tree.fits(m, e),
        tree.leaves_satisfy(f),
        forall|inside: PatternId|
            m.has_pattern(inside) && (m.kind(pattern) is EnumVariant || m.kind(pattern) is Otherwise)
                ==> #[trigger] f(inside, path),
    ensures
        ({
            let after = unfolding(m, match_type, pattern, path, ptr, tree, e);
            &&& after.tree.fits(m, e)
            &&& after.tree.leaves_satisfy(f)
            &&& after.result is Err ==> after.result == failed::<()>()
        }),
    decreases pattern.0,
{
    assert(m.pattern_wf(pattern.0 as int));
    tree.lemma_filled_fits(m, e, pattern, path);
    if m.kind(pattern) is Otherwise {
        tree.lemma_filled_leaves(f, pattern, path);
    }
    if let PatternKind::EnumVariant(p) = m.kind(pattern) {
        if p.variant.concrete_enum_id == e && !(tree is Full) && m.db.variants(e) is Ok {
            let idx = p.variant.idx as int;
            let expanded = tree.expanded(m.db.variant_count(e));
            let items = expanded->Mapping_0;
            let payload = m.db.variants(e)->Ok_0[idx].ty;
            m.db.lemma_variant(e, idx);
            m.db.lemma_peeled(payload);
            assert(expanded.fits(m, e));
            assert(expanded.leaves_satisfy(f));
            assert(items[idx].leaves_satisfy(f));
            items[idx].lemma_filled_leaves(f, pattern, path);
            match p.inner_pattern {
                Some(inner) if m.kind(inner) is EnumVariant => {
                    if is_known_enum(m, payload) {
                        let inner_enum = m.db.peeled_enum(payload)->0;
                        lemma_unfolding(
                            m,
                            match_type,
                            inner,
                            path,
                            ptr,
                            items[idx],
                            inner_enum,
                            f,
                        );
                    }
                },
                _ => {
                    if m.db.peeled_enum(payload) is Some {
                        items[idx].lemma_filled_fits(
                            m,
                            m.db.peeled_enum(payload)->0,
                            pattern,
                            path,
                        );
                    }
                },
            }
            let after = unfolding(m, match_type, pattern, path, ptr, tree, e).tree->Mapping_0;
            assert(forall|i: int| 0 <= i < items.len() && i != idx ==> after[i] == items[i]);
        }
    }
}

pub(crate) proof fn lemma_unfolding_of_all(
    m: &SemanticModel,
    match_type: MatchKind,
    patterns: Seq<(PatternPath, PatternId)>,
    e: ConcreteEnumId,
    f: spec_fn(PatternId, PatternPath) -> bool,
)
    requires
        m.wf(),
        m.db.has_enum(e),
        forall|k: int|
            0 <= k < patterns.len() ==> {
                let (path, pattern) = #[trigger] patterns[k];
                &&& m.has_pattern(pattern)
                &&& forall|inside: PatternId|
                    m.has_pattern(inside) && (m.kind(pattern) is EnumVariant || m.kind(
                        pattern,
                    ) is Otherwise) ==> #[trigger] f(inside, path)
            },
    ensures
        ({
            let after = unfolding_of_all(m, match_type, patterns, e);
            &&& after.tree.fits(m, e)
            &&& after.tree.leaves_satisfy(f)
            &&& after.result is Err ==> after.result == failed::<()>()
        }),
    decreases patterns.len(),
{
    if patterns.len() > 0 {
        let before = unfolding_of_all(m, match_type, patterns.drop_last(), e);
        lemma_unfolding_of_all(m, match_type, patterns.drop_last(), e, f);
        let (path, pattern) = patterns.last();
        assert(patterns[patterns.len() - 1] == (path, pattern));
        lemma_unfolding(
            m,
            match_type,
            pattern,
            path,
            m.pattern_ptr(pattern),
            before.tree,
            e,
            f,
        );
    }
}

/// A failure is final: what comes after it changes nothing.
proof fn lemma_failure_is_final(
    m: &SemanticModel,
    match_type: MatchKind,
    patterns: Seq<(PatternPath, PatternId)>,
    n: nat,
    e: ConcreteEnumId,
)
    requires
        n <= patterns.len(),
        unfolding_of_all(m, match_type, patterns.take(n as int), e).result is Err,
    ensures
        unfolding_of_all(m, match_type, patterns, e) == unfolding_of_all(
            m,
            match_type,
            patterns.take(n as int),
            e,
        ),
    decreases patterns.len() - n,
{
    if n == patterns.len() {
        assert(patterns.take(n as int) =~= patterns);
    } else {
        assert(patterns.take(n as int + 1).drop_last() =~= patterns.take(n as int));
        lemma_failure_is_final(m, match_type, patterns, n + 1, e);
    }
}

/// The patterns of the first arms are the first patterns of all arms.
proof fn lemma_arm_patterns_prefix(arms: Seq<MatchArmWrapper>, n: int)
    requires
        0 <= n <= arms.len(),
    ensures
        arm_patterns(arms.take(n)).len() <= arm_patterns(arms).len(),
        arm_patterns(arms).take(arm_patterns(arms.take(n)).len() as int) == arm_patterns(
            arms.take(n),
        ),
    decreases arms.len() - n,
{
    if n == arms.len() {
        assert(arms.take(n) =~= arms);
        assert(arm_patterns(arms).take(arm_patterns(arms).len() as int) =~= arm_patterns(arms));
    } else {
        lemma_arm_patterns_prefix(arms, n + 1);
        assert(arms.take(n + 1).drop_last() =~= arms.take(n));
        let shorter = arm_patterns(arms.take(n));
        let longer = arm_patterns(arms.take(n + 1));
        assert(arm_patterns(arms).take(shorter.len() as int) =~= longer.take(shorter.len() as int));
        assert(longer.take(shorter.len() as int) =~= shorter);
    }
}

/// Every pattern of the arms exists, and its path leads to it.
pub(crate) proof fn lemma_arm_patterns(m: &SemanticModel, arms: Seq<MatchArmWrapper>, all: Seq<MatchArmWrapper>)
    requires
        arms_wf(m, all),
        arms.len() <= all.len(),
        arms =~= all.take(arms.len() as int),
        all.len() <= usize::MAX,
    ensures
        forall|k: int|
            0 <= k < arm_patterns(arms).len() ==> {
                let (path, pattern) = #[trigger] arm_patterns(arms)[k];
                &&& m.has_pattern(pattern)
                &&& path.leads_into(all)
                &&& path.pattern(all) == Some(pattern)
            },
    decreases arms.len(),
{
    if arms.len() > 0 {
        lemma_arm_patterns(m, arms.drop_last(), all);
        let before = arm_patterns(arms.drop_last());
        let arm = arms.last();
        let arm_index = arms.len() - 1;
        assert(arm == all[arm_index]);
        assert(arm.wf(m));
        assert(arm.patterns@.len() == arm.patterns.len());
        assert forall|k: int| 0 <= k < arm_patterns(arms).len() implies {
            let (path, pattern) = #[trigger] arm_patterns(arms)[k];
            &&& m.has_pattern(pattern)
            &&& path.leads_into(all)
            &&& path.pattern(all) == Some(pattern)
        } by {
            if k < before.len() {
                assert(arm_patterns(arms)[k] == before[k]);
            } else {
                let j = k - before.len();
                assert(arm_patterns(arms)[k] == patterns_of_arm(arm, arm_index as nat)[j]);
                assert(m.has_pattern(arm.patterns@[j]));
            }
        }
    }
}

/// Reports the patterns that cover only a part of a variant as unsupported.
fn report_partial_patterns(
    ctx: &mut LoweringContext,
    path: &VariantMatchTree,
)
    requires
        forall|k: int|
            0 <= k < path@.leaves().len() ==> old(ctx).semantic.has_pattern(
                #[trigger] path@.leaves()[k],
            ),
    ensures
        old(ctx).reports(
            final(ctx),
            with_each_once(seq![], path@.leaves()).map_values(
                |p: PatternId| unsupported_pattern(&old(ctx).semantic, p),
            ),
        ),
{
    let ghost m = ctx.semantic;
    let mut leaves: Vec<PatternId> = Vec::new();
    path.collect_leaves(&mut leaves);
    proof {
        lemma_with_each_once_elements(seq![], path@.leaves());
    }
    for i in 0..leaves.len()
        invariant
            m == old(ctx).semantic,
            forall|k: int| 0 <= k < leaves@.len() ==> m.has_pattern(#[trigger] leaves@[k]),
            old(ctx).reports(
                ctx,
                leaves@.take(i as int).map_values(|p: PatternId| unsupported_pattern(&m, p)),
            ),
    {
        let location = LoweringContext::get_location(
            ctx.semantic.patterns[leaves[i].0].stable_ptr,
        );
        ctx.report_by_location(location, LoweringDiagnosticKind::UnsupportedPattern);
    }
    assert(leaves@.take(leaves@.len() as int) =~= leaves@);
}

/// Collecting elements once brings up no others.
proof fn lemma_with_each_once_elements(seen: Seq<PatternId>, added: Seq<PatternId>)
    ensures
        forall|k: int|
            0 <= k < with_each_once(seen, added).len() ==> seen.contains(
                #[trigger] with_each_once(seen, added)[k],
            ) || added.contains(with_each_once(seen, added)[k]),
    decreases added.len(),
{
    if added.len() > 0 {
        lemma_with_each_once_elements(seen, added.drop_last());
        let before = with_each_once(seen, added.drop_last());
        assert forall|k: int| 0 <= k < with_each_once(seen, added).len() implies seen.contains(
            #[trigger] with_each_once(seen, added)[k],
        ) || added.contains(with_each_once(seen, added)[k]) by {
            if k < before.len() {
                let x = before[k];
                if added.drop_last().contains(x) {
                    let j = choose|j: int|
                        0 <= j < added.drop_last().len() && added.drop_last()[j] == x;
                    assert(added[j] == x);
                }
            } else {
                assert(added[added.len() - 1] == added.last());
            }
        }
    }
}

/// What collecting the arm of each variant of the enum `e` leaves behind.
pub open spec fn variant_arms_reports(
    m: &SemanticModel,
    match_type: MatchKind,
    arms: Seq<MatchArmWrapper>,
    e: ConcreteEnumId,
) -> Seq<Report> {
    let unfolded = unfolding_of_all(m, match_type, arm_patterns(arms), e);
    if unfolded.result is Ok && m.db.variants(e) is Ok {
        unfolded.reports + partial_patterns_reported(m, unfolded.tree, m.db.variant_count(e))
    } else {
        unfolded.reports
    }
}

/// The path of the pattern of each variant of the enum `e` in a match statement.
pub open spec fn variant_arms(
    m: &SemanticModel,
    match_type: MatchKind,
    arms: Seq<MatchArmWrapper>,
    e: ConcreteEnumId,
) -> LoweringResult<Seq<Option<PatternPath>>> {
    let unfolded = unfolding_of_all(m, match_type, arm_patterns(arms), e);
    if unfolded.result is Ok && m.db.variants(e) is Ok {
        Ok(arms_of_variants(unfolded.tree, m.db.variant_count(e)))
    } else {
        failed()
    }
}

/// Unfolds the patterns of the arms into a tree.
fn build_tree(
    ctx: &mut LoweringContext,
    arms: &[MatchArmWrapper],
    concrete_enum_id: ConcreteEnumId,
    match_type: MatchKind,
) -> (r: LoweringResult<VariantMatchTree>)
    requires
        old(ctx).semantic.wf(),
        arms_wf(&old(ctx).semantic, arms@),
        old(ctx).semantic.db.has_enum(concrete_enum_id),
    ensures
        ({
            let unfolded = unfolding_of_all(
                &old(ctx).semantic,
                match_type,
                arm_patterns(arms@),
                concrete_enum_id,
            );
            &&& old(ctx).reports(final(ctx), unfolded.reports)
            &&& match r {
                Ok(tree) => unfolded.result is Ok && tree@ == unfolded.tree,
                Err(_) => unfolded.result is Err && r == failed::<VariantMatchTree>(),
            }
        }),
{
    let ghost m = ctx.semantic;
    let ghost all = arm_patterns(arms@);
    let ghost known = |pattern: PatternId, path: PatternPath| true;
    proof {
        assert(arms@.take(arms@.len() as int) =~= arms@);
        assert(arms@.take(0) =~= seq![]);
        assert(arms@.len() == arms.len());
        lemma_arm_patterns(&m, arms@, arms@);
    }
    let mut variant_match_tree = VariantMatchTree::Empty;
    for arm_index in 0..arms.len()
        invariant
            m == old(ctx).semantic,
            m.wf(),
            arms_wf(&m, arms@),
            m.db.has_enum(concrete_enum_id),
            all == arm_patterns(arms@),
            forall|k: int| 0 <= k < all.len() ==> m.has_pattern((#[trigger] all[k]).1),
            known == |pattern: PatternId, path: PatternPath| true,
            ({
                let unfolded = unfolding_of_all(
                    &m,
                    match_type,
                    arm_patterns(arms@.take(arm_index as int)),
                    concrete_enum_id,
                );
                &&& unfolded.result is Ok
                &&& variant_match_tree@ == unfolded.tree
                &&& old(ctx).reports(ctx, unfolded.reports)
            }),
    {
        let arm = &arms[arm_index];
        let ghost before = arm_patterns(arms@.take(arm_index as int));
        let ghost of_arm = patterns_of_arm(*arm, arm_index as nat);
        proof {
            assert(arm.wf(&m));
            assert(arms@.take(arm_index + 1).drop_last() =~= arms@.take(arm_index as int));
            assert(arm_patterns(arms@.take(arm_index + 1)) == before + of_arm);
            lemma_arm_patterns_prefix(arms@, arm_index + 1);
            assert(before + of_arm.take(0) =~= before);
        }
        for pattern_index in 0..arm.patterns.len()
            invariant
                m == old(ctx).semantic,
                m.wf(),
                m.db.has_enum(concrete_enum_id),
                arm.wf(&m),
                all == arm_patterns(arms@),
                forall|k: int| 0 <= k < all.len() ==> m.has_pattern((#[trigger] all[k]).1),
                known == |pattern: PatternId, path: PatternPath| true,
                of_arm == patterns_of_arm(*arm, arm_index as nat),
                (before + of_arm).len() <= all.len(),
                before + of_arm == all.take((before + of_arm).len() as int),
                ({
                    let unfolded = unfolding_of_all(
                        &m,
                        match_type,
                        before + of_arm.take(pattern_index as int),
                        concrete_enum_id,
                    );
                    &&& unfolded.result is Ok
                    &&& variant_match_tree@ == unfolded.tree
                    &&& old(ctx).reports(ctx, unfolded.reports)
                }),
        {
            let pattern = arm.patterns[pattern_index];
            let pattern_path = PatternPath { arm_index, pattern_index: Some(pattern_index) };
            let pattern_ptr = ctx.semantic.patterns[pattern.0].stable_ptr;
            let ghost done = before + of_arm.take(pattern_index as int);
            let ghost next = before + of_arm.take(pattern_index + 1);
            proof {
                assert(next.drop_last() =~= done);
                assert(next.last() == (pattern_path, pattern));
                assert(next =~= all.take(next.len() as int));
                assert(done =~= all.take(done.len() as int));
                assert forall|k: int| 0 <= k < done.len() implies {
                    let (path, inside) = #[trigger] done[k];
                    &&& m.has_pattern(inside)
                    &&& forall|p: PatternId|
                        m.has_pattern(p) && (m.kind(inside) is EnumVariant || m.kind(
                            inside,
                        ) is Otherwise) ==> #[trigger] known(p, path)
                } by {
                    assert(done[k] == all[k]);
                }
                lemma_unfolding_of_all(&m, match_type, done, concrete_enum_id, known);
                assert(variant_match_tree@.leaves_satisfy(known));
                lemma_unfolding(
                    &m,
                    match_type,
                    pattern,
                    pattern_path,
                    pattern_ptr,
                    variant_match_tree@,
                    concrete_enum_id,
                    known,
                );
            }
            let result = if !(ctx.semantic.matches_enum(pattern) || ctx.semantic.matches_other(
                pattern,
            )) {
                Err(
                    LoweringFlowError::Failed(
                        ctx.report_match_error(
                            pattern_ptr,
                            match_type,
                            MatchDiagnostic::UnsupportedMatchArmNotAVariant,
                        ),
                    ),
                )
            } else {
                unfold_pattern_and_push_to_tree(
                    ctx,
                    match_type,
                    pattern,
                    pattern_path,
                    pattern_ptr,
                    &mut variant_match_tree,
                    concrete_enum_id,
                )
            };
            if let Err(error) = result {
                proof {
                    lemma_failure_is_final(
                        &m,
                        match_type,
                        all,
                        next.len(),
                        concrete_enum_id,
                    );
                }
                return Err(error);
            }
        }
        assert(of_arm.take(arm.patterns@.len() as int) =~= of_arm);
    }
    Ok(variant_match_tree)
}

/// Returns the pattern path of each variant in a match statement, in the order of the variants.
///
/// An Enum might contain nested Enum variants. A good example using either is:
/// ```Either<Either<felt252, Option<felt252>>, Either<Option<Array<felt252>>, Felt252Dict>>```
/// This can be generalized to a tree where each enum type introduces one branch per variant.
/// We use [VariantMatchTree] to check patterns are legal, and then collect an arm map. Patterns
/// that cover only a part of a variant are reported, and leave the variant without an arm.
pub fn get_variant_to_arm_map(
    ctx: &mut LoweringContext,
    arms: &[MatchArmWrapper],
    concrete_enum_id: ConcreteEnumId,
    match_type: MatchKind,
) -> (r: LoweringResult<Vec<Option<PatternPath>>>)
    requires
        old(ctx).semantic.wf(),
        arms_wf(&old(ctx).semantic, arms@),
        old(ctx).semantic.db.has_enum(concrete_enum_id),
    ensures
        match r {
            Ok(map) => {
                &&& variant_arms(&old(ctx).semantic, match_type, arms@, concrete_enum_id) == Ok::<
                    _,
                    LoweringFlowError,
                >(map@)
                &&& forall|i: int|
                    0 <= i < map@.len() ==> ((#[trigger] map@[i]) matches Some(path)
                        ==> is_enum_or_otherwise(&old(ctx).semantic, arms@, path))
            },
            Err(_) => r == failed::<Vec<Option<PatternPath>>>() && variant_arms(
                &old(ctx).semantic,
                match_type,
                arms@,
                concrete_enum_id,
            ) is Err,
        },
        old(ctx).reports(
            final(ctx),
            variant_arms_reports(&old(ctx).semantic, match_type, arms@, concrete_enum_id),
        ),
{
    let ghost m = ctx.semantic;
    let ghost valid = |pattern: PatternId, path: PatternPath|
        m.has_pattern(pattern) && is_enum_or_otherwise(&m, arms@, path);
    let variant_match_tree = match build_tree(ctx, arms, concrete_enum_id, match_type) {
        Ok(tree) => tree,
        Err(error) => {
            return Err(error);
        },
    };
    let ghost unfolded = unfolding_of_all(&m, match_type, arm_patterns(arms@), concrete_enum_id);
    let ghost tree = unfolded.tree;
    proof {
        assert(arms@.take(arms@.len() as int) =~= arms@);
        assert(arms@.len() == arms.len());
        lemma_arm_patterns(&m, arms@, arms@);
        lemma_unfolding_of_all(&m, match_type, arm_patterns(arms@), concrete_enum_id, valid);
    }
    let variant_count = match ctx.semantic.db.concrete_enum_variants(concrete_enum_id) {
        Ok(variants) => variants.len(),
        Err(reported) => {
            return Err(LoweringFlowError::Failed(reported));
        },
    };
    let mut map: Vec<Option<PatternPath>> = Vec::new();
    for variant_idx in 0..variant_count
        invariant
            m == old(ctx).semantic,
            tree == variant_match_tree@,
            unfolded.tree == tree,
            m.db.variants(concrete_enum_id) is Ok,
            variant_count == m.db.variant_count(concrete_enum_id),
            tree.fits(&m, concrete_enum_id),
            tree.leaves_satisfy(valid),
            valid == |pattern: PatternId, path: PatternPath|
                m.has_pattern(pattern) && is_enum_or_otherwise(&m, arms@, path),
            map@ =~= arms_of_variants(tree, variant_idx as nat),
            forall|i: int|
                0 <= i < map@.len() ==> ((#[trigger] map@[i]) matches Some(path)
                    ==> is_enum_or_otherwise(&m, arms@, path)),
            old(ctx).reports(
                ctx,
                unfolded.reports + partial_patterns_reported(&m, tree, variant_idx as nat),
            ),
    {
        match &variant_match_tree {
            VariantMatchTree::Empty => {
                map.push(None);
            },
            VariantMatchTree::Full(_, pattern_path) => {
                map.push(Some(*pattern_path));
            },
            VariantMatchTree::Mapping(items) => {
                let path = &items[variant_idx];
                assert(tree->Mapping_0[variant_idx as int] == path@);
                assert(path@.leaves_satisfy(valid));
                match path {
                    VariantMatchTree::Mapping(_) => {
                        // Bad pattern we don't support inner enums.
                        proof {
                            path@.lemma_leaves_satisfy(valid, |p: PatternId| m.has_pattern(p));
                        }
                        report_partial_patterns(ctx, path);
                        map.push(None);
                    },
                    VariantMatchTree::Full(_, pattern_path) => {
                        map.push(Some(*pattern_path));
                    },
                    VariantMatchTree::Empty => {
                        map.push(None);
                    },
                }
            },
        }
    }
    Ok(map)
}

/// The path that is selected for a variant: that of the pattern of the variant, or else that of the
/// underscore pattern. Without either the arm is missing.
pub open spec fn selected(
    of_variant: Option<PatternPath>,
    otherwise: Option<PatternPath>,
) -> Option<PatternPath> {
    match of_variant {
        Some(path) => Some(path),
        None => otherwise,
    }
}

/// The path that is selected for each variant of the enum `e`.
pub open spec fn selected_arms(
    m: &SemanticModel,
    match_type: MatchKind,
    arms: Seq<MatchArmWrapper>,
    e: ConcreteEnumId,
) -> LoweringResult<Seq<Option<PatternPath>>> {
    match variant_arms(m, match_type, arms, e) {
        Ok(map) => Ok(
            map.map_values(
                |of_variant: Option<PatternPath>|
                    selected(of_variant, underscore_path(m, arms)),
            ),
        ),
        Err(error) => Err(error),
    }
}

/// What selecting the arm of each variant of the enum `e` reports.
pub open spec fn selection_reports(
    m: &SemanticModel,
    match_type: MatchKind,
    arms: Seq<MatchArmWrapper>,
    e: ConcreteEnumId,
) -> Seq<Report> {
    unreachable_after_underscore(m, match_type, arms) + variant_arms_reports(
        m,
        match_type,
        arms,
        e,
    )
}

/// Selects the arm of each variant of an enum.
pub fn select_variant_arms(
    ctx: &mut LoweringContext,
    arms: &[MatchArmWrapper],
    concrete_enum_id: ConcreteEnumId,
    match_type: MatchKind,
) -> (r: LoweringResult<Vec<Option<PatternPath>>>)
    requires
        old(ctx).semantic.wf(),
        arms_wf(&old(ctx).semantic, arms@),
        old(ctx).semantic.db.has_enum(concrete_enum_id),
    ensures
        match r {
            Ok(selected) => {
                &&& selected_arms(&old(ctx).semantic, match_type, arms@, concrete_enum_id) == Ok::<
                    _,
                    LoweringFlowError,
                >(selected@)
                &&& selected@.len() == old(ctx).semantic.db.variant_count(concrete_enum_id)
                &&& old(ctx).semantic.db.variants(concrete_enum_id) is Ok
                &&& forall|i: int|
                    0 <= i < selected@.len() ==> ((#[trigger] selected@[i]) matches Some(path)
                        ==> is_enum_or_otherwise(&old(ctx).semantic, arms@, path))
            },
            Err(_) => r == failed::<Vec<Option<PatternPath>>>() && selected_arms(
                &old(ctx).semantic,
                match_type,
                arms@,
                concrete_enum_id,
            ) is Err,
        },
        old(ctx).reports(
            final(ctx),
            selection_reports(&old(ctx).semantic, match_type, arms@, concrete_enum_id),
        ),
{
    let ghost m = ctx.semantic;
    let otherwise_variant = get_underscore_pattern_path_and_mark_unreachable(
        ctx,
        arms,
        match_type,
    );
    let variant_map = match get_variant_to_arm_map(ctx, arms, concrete_enum_id, match_type) {
        Ok(map) => map,
        Err(error) => {
            return Err(error);
        },
    };
    let ghost expected = selected_arms(&m, match_type, arms@, concrete_enum_id)->Ok_0;
    let mut selected_paths: Vec<Option<PatternPath>> = Vec::new();
    for idx in 0..variant_map.len()
        invariant
            expected == variant_map@.map_values(
                |of_variant: Option<PatternPath>| selected(of_variant, otherwise_variant),
            ),
            otherwise_variant matches Some(path) ==> is_enum_or_otherwise(&m, arms@, path),
            forall|i: int|
                0 <= i < variant_map@.len() ==> ((#[trigger] variant_map@[i]) matches Some(path)
                    ==> is_enum_or_otherwise(&m, arms@, path)),
            selected_paths@ == expected.take(idx as int),
            forall|i: int|
                0 <= i < selected_paths@.len() ==> ((#[trigger] selected_paths@[i]) matches Some(
                    path,
                ) ==> is_enum_or_otherwise(&m, arms@, path)),
    {
        let path = match variant_map[idx] {
            Some(path) => Some(path),
            None => otherwise_variant,
        };
        selected_paths.push(path);
        assert(selected_paths@ =~= expected.take(idx + 1));
    }
    assert(expected.take(expected.len() as int) =~= expected);
    Ok(selected_paths)
}

/// The leaf of a variant in a match on an enum: where it leads, and what it does with the payload.
#[derive(Clone, Copy, PartialEq, Eq, Debug)]
pub struct VariantLeaf {
    pub variant: ConcreteVariant,
    pub arm_index: usize,
    /// The variable of the payload.
    pub var: VarRequest,
    /// The pattern that the payload is lowered into.
    pub inner_pattern: Option<PatternId>,
}

/// The pattern of the payload under the pattern at `path`.
pub open spec fn inner_pattern(
    m: &SemanticModel,
    arms: Seq<MatchArmWrapper>,
    path: PatternPath,
) -> Option<PatternId> {
    match path.pattern(arms) {
        Some(p) => match m.kind(p) {
            PatternKind::EnumVariant(enum_pattern) => enum_pattern.inner_pattern,
            _ => None,
        },
        None => None,
    }
}

/// The leaf of `variant` that `path` was selected for. The variable of the payload is located at
/// the pattern of the payload, or else at the selected pattern, or else at the match.
pub open spec fn variant_leaf(
    m: &SemanticModel,
    arms: Seq<MatchArmWrapper>,
    location: LocationId,
    n_snapshots: usize,
    variant: ConcreteVariant,
    path: PatternPath,
) -> VariantLeaf {
    let inner = inner_pattern(m, arms, path);
    VariantLeaf {
        variant,
        arm_index: path.arm_index,
        var: VarRequest {
            ty: VarType::Snapshots { ty: variant.ty, n_snapshots },
            location: match (inner, path.pattern(arms)) {
                (Some(inner), _) => location_of(m.pattern_ptr(inner)),
                (None, Some(pattern)) => location_of(m.pattern_ptr(pattern)),
                (None, None) => location,
            },
        },
        inner_pattern: inner,
    }
}

/// The pattern of the payload under the pattern at `path`, and the location of the variable of the
/// payload.
fn payload_binding(
    m: &SemanticModel,
    arms: &[MatchArmWrapper],
    location: LocationId,
    path: PatternPath,
) -> (r: (Option<PatternId>, LocationId))
    requires
        m.wf(),
        arms_wf(m, arms@),
        is_enum_or_otherwise(m, arms@, path),
    ensures
        r.0 == inner_pattern(m, arms@, path),
        r.1 == (match (r.0, path.pattern(arms@)) {
            (Some(inner), _) => location_of(m.pattern_ptr(inner)),
            (None, Some(pattern)) => location_of(m.pattern_ptr(pattern)),
            (None, None) => location,
        }),
        r.0 matches Some(inner) ==> m.has_pattern(inner),
{
    assert(arms@[path.arm_index as int].wf(m));
    match path.pattern_index {
        Some(pattern_index) => {
            let pattern = arms[path.arm_index].patterns[pattern_index];
            assert(m.pattern_wf(pattern.0 as int));
            match &m.patterns[pattern.0].kind {
                PatternKind::EnumVariant(
                    PatternEnumVariant { inner_pattern: Some(inner), .. },
                ) => (
                    Some(*inner),
                    LoweringContext::get_location(m.patterns[inner.0].stable_ptr),
                ),
                _ => (None, LoweringContext::get_location(m.patterns[pattern.0].stable_ptr)),
            }
        },
        None => (None, location),
    }
}

/// How a match on an enum is lowered: a leaf for each of its variants.
#[derive(PartialEq, Eq, Debug)]
pub struct ConcreteEnumMatch {
    pub concrete_enum_id: ConcreteEnumId,
    pub concrete_variants: Vec<ConcreteVariant>,
    pub input: VarUsage,
    pub location: LocationId,
    /// The leaf of each variant that an arm was selected for.
    pub leaves: Vec<Option<VariantLeaf>>,
}

impl ConcreteEnumMatch {
    /// There is a leaf, or none, for each variant; the variants have names, and the arms of the
    /// leaves exist.
    pub open spec fn wf(&self, m: &SemanticModel, arms: Seq<MatchArmWrapper>) -> bool {
        &&& self.leaves@.len() == self.concrete_variants@.len()
        &&& m.db.all_named(self.concrete_variants@)
        &&& forall|i: int|
            0 <= i < self.leaves@.len() ==> ((#[trigger] self.leaves@[i]) matches Some(leaf)
                ==> leaf.arm_index < arms.len())
    }

    /// Where the leaf of each variant leads. A variant without one is reported as missing.
    pub open spec fn targets(&self, m: &SemanticModel) -> Seq<Target> {
        Seq::new(
            self.leaves@.len(),
            |i: int|
                match self.leaves@[i] {
                    Some(leaf) => LeafTarget::Arm(leaf.arm_index),
                    None => missing_arm(m, self.location, self.concrete_variants@[i]),
                },
        )
    }
}

/// The variants of an enum have names.
proof fn lemma_variants_named(m: &SemanticModel, e: ConcreteEnumId)
    requires
        m.wf(),
        m.db.has_enum(e),
        m.db.variants(e) is Ok,
    ensures
        m.db.all_named(m.db.variants(e)->Ok_0),
{
    let variants = m.db.variants(e)->Ok_0;
    assert forall|i: int| 0 <= i < variants.len() implies (#[trigger] variants[i]).id.0
        < m.db.variant_names@.len() by {
        m.db.lemma_variant(e, i);
    }
}

/// Where the leaf of a variant without an arm leads: the arm of the variant is reported as missing.
pub open spec fn missing_arm(
    m: &SemanticModel,
    location: LocationId,
    variant: ConcreteVariant,
) -> Target {
    LeafTarget::Error(location, MatchDiagnostic::MissingMatchArm(m.db.variant_name(variant)))
}

/// Where leaves of variants lead. `arm_indices` are the arms that were selected.
fn variant_targets(
    m: &SemanticModel,
    location: LocationId,
    variants: &Vec<ConcreteVariant>,
    arm_indices: &Vec<Option<usize>>,
) -> (r: Vec<LeafTarget>)
    requires
        variants@.len() == arm_indices@.len(),
        m.db.all_named(variants@),
    ensures
        targets_of(r@) == Seq::new(
            arm_indices@.len(),
            |i: int|
                match arm_indices@[i] {
                    Some(arm_index) => LeafTarget::Arm(arm_index),
                    None => missing_arm(m, location, variants@[i]),
                },
        ),
{
    let ghost expected = Seq::new(
        arm_indices@.len(),
        |i: int|
            match arm_indices@[i] {
                Some(arm_index) => LeafTarget::Arm(arm_index),
                None => missing_arm(m, location, variants@[i]),
            },
    );
    let mut targets: Vec<LeafTarget> = Vec::new();
    for i in 0..arm_indices.len()
        invariant
            variants@.len() == arm_indices@.len(),
            m.db.all_named(variants@),
            expected == Seq::new(
                arm_indices@.len(),
                |i: int|
                    match arm_indices@[i] {
                        Some(arm_index) => LeafTarget::Arm(arm_index),
                        None => missing_arm(m, location, variants@[i]),
                    },
            ),
            targets@.len() == i,
            forall|k: int| 0 <= k < i ==> (#[trigger] targets@[k])@ == expected[k],
    {
        let target = match arm_indices[i] {
            Some(arm_index) => LeafTarget::Arm(arm_index),
            None => {
                let name = m.db.variant_names[variants[i].id.0].clone();
                LeafTarget::Error(location, MatchDiagnostic::MissingMatchArm(name))
            },
        };
        assert(target@ == expected[i as int]);
        targets.push(target);
    }
    assert(targets_of(targets@) =~= expected);
    targets
}

/// What lowering a match on the enum that `matched_expr` is leaves behind. Each variant gets the leaf
/// of the arm that is selected for it.
pub open spec fn concrete_enum_match_outcome(
    before: LoweringContext,
    after: LoweringContext,
    matched_expr: ExprId,
    match_input: LoweringResult<VarUsage>,
    arms: Seq<MatchArmWrapper>,
    location: LocationId,
    match_type: MatchKind,
    r: LoweringResult<ConcreteEnumMatch>,
) -> bool {
    let m = &before.semantic;
    let expr = m.exprs@[matched_expr.0 as int];
    let e = m.db.peeled_enum(expr.ty)->0;
    if !is_known_enum(m, expr.ty) {
        &&& r == failed::<ConcreteEnumMatch>()
        &&& before.reports(
            &after,
            extraction_reports(m, expr.stable_ptr, expr.ty, match_type),
        )
    } else if match_input is Err {
        &&& r == Err::<ConcreteEnumMatch, _>(match_input->Err_0)
        &&& before.reports(&after, seq![])
    } else {
        &&& before.reports(&after, selection_reports(m, match_type, arms, e))
        &&& match selected_arms(m, match_type, arms, e) {
            Err(_) => r == failed::<ConcreteEnumMatch>(),
            Ok(selected) => {
                &&& r matches Ok(lowered)
                &&& lowered.wf(m, arms)
                &&& lowered.concrete_enum_id == e
                &&& Ok::<_, DiagnosticAdded>(lowered.concrete_variants@) == m.db.variants(e)
                &&& Ok::<_, LoweringFlowError>(lowered.input) == match_input
                &&& lowered.location == location
                &&& lowered.leaves@ == Seq::new(
                    selected.len(),
                    |i: int|
                        match selected[i] {
                            Some(path) => Some(
                                variant_leaf(
                                    m,
                                    arms,
                                    location,
                                    m.db.peeled(expr.ty).0 as usize,
                                    lowered.concrete_variants@[i],
                                    path,
                                ),
                            ),
                            None => None,
                        },
                )
            },
        }
    }
}

/// Lowers a match expression on a concrete enum.
/// This function is used for match expressions on concrete enums, such as
/// `match x { A => 1, B => 2 }` and in if/while let.
///
/// `match_input` is what came of lowering the matched expression to a variable. A leaf is lowered
/// in a block of its own: its variable is requested, and the payload lowered into its pattern. A
/// variant without a leaf is reported by [conclude_concrete_enum_match], in its turn.
pub fn lower_concrete_enum_match(
    ctx: &mut LoweringContext,
    matched_expr: ExprId,
    match_input: LoweringResult<VarUsage>,
    arms: &[MatchArmWrapper],
    location: LocationId,
    match_type: MatchKind,
) -> (r: LoweringResult<ConcreteEnumMatch>)
    requires
        old(ctx).semantic.wf(),
        old(ctx).semantic.has_expr(matched_expr),
        arms_wf(&old(ctx).semantic, arms@),
    ensures
        concrete_enum_match_outcome(
            *old(ctx),
            *final(ctx),
            matched_expr,
            match_input,
            arms@,
            location,
            match_type,
            r,
        ),
{
    let ghost m = ctx.semantic;
    assert(m.db.has_type(m.exprs@[matched_expr.0 as int].ty));
    let expr = ctx.semantic.exprs[matched_expr.0];
    let details = match extract_concrete_enum(ctx, expr.stable_ptr, expr.ty, match_type) {
        Ok(details) => details,
        Err(error) => {
            return Err(error);
        },
    };
    let input = match match_input {
        Ok(input) => input,
        Err(error) => {
            return Err(error);
        },
    };

    // Merge arm blocks.
    // Collect for all variants the arm index and pattern index.
    let selected_paths = match select_variant_arms(
        ctx,
        arms,
        details.concrete_enum_id,
        match_type,
    ) {
        Ok(selected_paths) => selected_paths,
        Err(error) => {
            return Err(error);
        },
    };
    let mut leaves: Vec<Option<VariantLeaf>> = Vec::new();
    for idx in 0..selected_paths.len()
        invariant
            ctx.semantic == m,
            m.wf(),
            arms_wf(&m, arms@),
            selected_paths@.len() == details.concrete_variants@.len(),
            forall|i: int|
                0 <= i < selected_paths@.len() ==> ((#[trigger] selected_paths@[i]) matches Some(
                    path,
                ) ==> is_enum_or_otherwise(&m, arms@, path)),
            leaves@ == Seq::new(
                idx as nat,
                |i: int|
                    match selected_paths@[i] {
                        Some(path) => Some(
                            variant_leaf(
                                &m,
                                arms@,
                                location,
                                details.n_snapshots,
                                details.concrete_variants@[i],
                                path,
                            ),
                        ),
                        None => None,
                    },
            ),
    {
        let leaf = match selected_paths[idx] {
            Some(path) => {
                let variant = details.concrete_variants[idx];
                let (inner_pattern, var_location) = payload_binding(
                    &ctx.semantic,
                    arms,
                    location,
                    path,
                );
                Some(
                    VariantLeaf {
                        variant,
                        arm_index: path.arm_index,
                        var: VarRequest {
                            ty: VarType::Snapshots {
                                ty: variant.ty,
                                n_snapshots: details.n_snapshots,
                            },
                            location: var_location,
                        },
                        inner_pattern,
                    },
                )
            },
            None => None,
        };
        leaves.push(leaf);
    }
    proof {
        lemma_variants_named(&m, details.concrete_enum_id);
    }
    Ok(
        ConcreteEnumMatch {
            concrete_enum_id: details.concrete_enum_id,
            concrete_variants: details.concrete_variants,
            input,
            location,
            leaves,
        },
    )
}

/// The lowered match on an enum, from the block of each leaf and the variables that it brings.
pub fn concrete_enum_match_info(
    concrete_enum_id: ConcreteEnumId,
    input: VarUsage,
    location: LocationId,
    concrete_variants: Vec<ConcreteVariant>,
    block_ids: Vec<BlockId>,
    arm_var_ids: Vec<Vec<VariableId>>,
) -> (r: MatchInfo)
    requires
        concrete_variants@.len() == block_ids@.len(),
        concrete_variants@.len() == arm_var_ids@.len(),
    ensures
        r matches MatchInfo::Enum(info) && {
            &&& info.concrete_enum_id == concrete_enum_id
            &&& info.input == input
            &&& info.location == location
            &&& arms_of_blocks(info.arms@, concrete_variants@, block_ids@, arm_var_ids@)
        },
{
    MatchInfo::Enum(
        MatchEnumInfo {
            concrete_enum_id,
            input,
            arms: variant_match_arms(concrete_variants, block_ids, arm_var_ids),
            location,
        },
    )
}

/// Concludes a match expression on a concrete enum, after its leaves were lowered: the lowered match
/// leads from each variant to the block of its leaf, and the leaves are grouped by their arms. A
/// variant without an arm is reported as missing, in the order of the variants, and fails the match.
pub fn conclude_concrete_enum_match(
    ctx: &mut LoweringContext,
    lowered: ConcreteEnumMatch,
    arms: &[MatchArmWrapper],
    leaves: Vec<Option<LoweredLeaf>>,
    match_type: MatchKind,
) -> (r: LoweringResult<ConcludedMatch>)
    requires
        arms_wf(&old(ctx).semantic, arms@),
        lowered.wf(&old(ctx).semantic, arms@),
        leaves_fit(lowered.targets(&old(ctx).semantic), leaves@),
        // While Let expression should be a block.
        match_type is WhileLet && all_have_arms(lowered.targets(&old(ctx).semantic))
            ==> bodies_are_blocks(
            &old(ctx).semantic,
            arms@,
            leaf_builders(lowered.targets(&old(ctx).semantic), leaves@),
        ),
    ensures
        ({
            let m = &old(ctx).semantic;
            let targets = lowered.targets(m);
            &&& old(ctx).reports(final(ctx), leaves_reports(targets, leaves@, match_type))
            &&& if !all_have_arms(targets) {
                r == failed::<ConcludedMatch>()
            } else {
                &&& r matches Ok(concluded)
                &&& concluded.info matches MatchInfo::Enum(info)
                &&& info.concrete_enum_id == lowered.concrete_enum_id
                &&& info.input == lowered.input
                &&& info.location == lowered.location
                &&& arms_of_blocks(
                    info.arms@,
                    lowered.concrete_variants@,
                    leaf_blocks(leaves@),
                    leaf_vars(leaves@),
                )
                &&& concluded.empty_match_info.is_without_arms(&concluded.info)
                &&& are_groups(
                    concluded.groups@,
                    m,
                    &concluded.empty_match_info,
                    lowered.location,
                    arms@,
                    match_type,
                    leaf_builders(targets, leaves@),
                )
            }
        }),
{
    let ghost m = ctx.semantic;
    let mut arm_indices: Vec<Option<usize>> = Vec::new();
    for i in 0..lowered.leaves.len()
        invariant
            arm_indices@ =~= Seq::new(
                i as nat,
                |i: int|
                    match lowered.leaves@[i] {
                        Some(leaf) => Some(leaf.arm_index),
                        None => None,
                    },
            ),
    {
        arm_indices.push(
            match lowered.leaves[i] {
                Some(leaf) => Some(leaf.arm_index),
                None => None,
            },
        );
    }
    let targets = variant_targets(
        &ctx.semantic,
        lowered.location,
        &lowered.concrete_variants,
        &arm_indices,
    );
    assert(targets_of(targets@) =~= lowered.targets(&m));
    let built = match take_up_leaves(ctx, targets, leaves, match_type) {
        Ok(built) => built,
        Err(error) => {
            return Err(error);
        },
    };
    proof {
        let views = lowered.targets(&m);
        assert forall|i: int| 0 <= i < built.builders@.len() implies (
        #[trigger] built.builders@[i]).arm_index < arms@.len() by {
            assert(views[i] is Arm);
            assert(lowered.leaves@[i] is Some);
        }
    }
    let info = concrete_enum_match_info(
        lowered.concrete_enum_id,
        lowered.input,
        lowered.location,
        lowered.concrete_variants,
        built.block_ids,
        built.arm_var_ids,
    );
    let empty_match_info = info.without_arms();
    let groups = group_match_arms(
        ctx,
        &empty_match_info,
        lowered.location,
        arms,
        built.builders,
        match_type,
    );
    Ok(ConcludedMatch { info, empty_match_info, groups })
}

/// The leaf of a variant in a match on the outcome of a call.
#[derive(Clone, Copy, PartialEq, Eq, Debug)]
pub struct ExternVariantLeaf {
    pub variant: ConcreteVariant,
    pub arm_index: usize,
    /// The pattern that the payload is lowered into.
    pub inner_pattern: Option<PatternId>,
}

/// How a match on the outcome of a call is lowered: a leaf for each variant of the outcome.
#[derive(PartialEq, Eq, Debug)]
pub struct OptimizedExternMatch {
    pub concrete_variants: Vec<ConcreteVariant>,
    /// The leaf of each variant that an arm was selected for.
    pub leaves: Vec<Option<ExternVariantLeaf>>,
}

impl OptimizedExternMatch {
    /// There is a leaf, or none, for each variant; the variants have names, and the arms of the
    /// leaves exist.
    pub open spec fn wf(&self, m: &SemanticModel, arms: Seq<MatchArmWrapper>) -> bool {
        &&& self.leaves@.len() == self.concrete_variants@.len()
        &&& m.db.all_named(self.concrete_variants@)
        &&& forall|i: int|
            0 <= i < self.leaves@.len() ==> ((#[trigger] self.leaves@[i]) matches Some(leaf)
                ==> leaf.arm_index < arms.len())
    }

    /// Where the leaf of each variant leads. A variant without one is reported as missing.
    pub open spec fn targets(&self, m: &SemanticModel, location: LocationId) -> Seq<Target> {
        Seq::new(
            self.leaves@.len(),
            |i: int|
                match self.leaves@[i] {
                    Some(leaf) => LeafTarget::Arm(leaf.arm_index),
                    None => missing_arm(m, location, self.concrete_variants@[i]),
                },
        )
    }
}

/// What lowering a match on the outcome of a call leaves behind. Each variant gets the leaf of the
/// arm that is selected for it.
pub open spec fn extern_match_outcome(
    before: LoweringContext,
    after: LoweringContext,
    extern_enum: LoweredExprExternEnum,
    match_arms: Seq<MatchArmWrapper>,
    match_type: MatchKind,
    r: LoweringResult<OptimizedExternMatch>,
) -> bool {
    let m = &before.semantic;
    let e = extern_enum.concrete_enum_id;
    if m.db.variants(e) is Err {
        &&& r == failed::<OptimizedExternMatch>()
        &&& before.reports(&after, seq![])
    } else {
        &&& before.reports(&after, selection_reports(m, match_type, match_arms, e))
        &&& match selected_arms(m, match_type, match_arms, e) {
            Err(_) => r == failed::<OptimizedExternMatch>(),
            Ok(selected) => {
                &&& r matches Ok(lowered)
                &&& lowered.wf(m, match_arms)
                &&& Ok::<_, DiagnosticAdded>(lowered.concrete_variants@) == m.db.variants(e)
                &&& lowered.leaves@ == Seq::new(
                    selected.len(),
                    |i: int|
                        match selected[i] {
                            Some(path) => Some(
                                ExternVariantLeaf {
                                    variant: lowered.concrete_variants@[i],
                                    arm_index: path.arm_index,
                                    inner_pattern: inner_pattern(m, match_arms, path),
                                },
                            ),
                            None => None,
                        },
                )
            },
        }
    }
}

/// Lowers a match expression on a LoweredExpr::ExternEnum lowered expression.
///
/// A leaf is lowered in a block of its own: the variables that the call brings there are bound, and
/// the payload is lowered into its pattern. Where a variant has no leaf, the variables are bound
/// nevertheless, and the variant is reported by [conclude_optimized_extern_match], in its turn.
pub fn lower_optimized_extern_match(
    ctx: &mut LoweringContext,
    extern_enum: &LoweredExprExternEnum,
    match_arms: &[MatchArmWrapper],
    match_type: MatchKind,
) -> (r: LoweringResult<OptimizedExternMatch>)
    requires
        old(ctx).semantic.wf(),
        old(ctx).semantic.db.has_enum(extern_enum.concrete_enum_id),
        arms_wf(&old(ctx).semantic, match_arms@),
    ensures
        extern_match_outcome(*old(ctx), *final(ctx), *extern_enum, match_arms@, match_type, r),
{
    let ghost m = ctx.semantic;
    let location = extern_enum.location;
    let concrete_variants = match ctx.semantic.db.concrete_enum_variants(
        extern_enum.concrete_enum_id,
    ) {
        Ok(variants) => {
            let concrete_variants = variants.clone();
            assert(concrete_variants@ =~= variants@);
            concrete_variants
        },
        Err(reported) => {
            return Err(LoweringFlowError::Failed(reported));
        },
    };

    // Merge arm blocks.
    let selected_paths = match select_variant_arms(
        ctx,
        match_arms,
        extern_enum.concrete_enum_id,
        match_type,
    ) {
        Ok(selected_paths) => selected_paths,
        Err(error) => {
            return Err(error);
        },
    };
    let mut leaves: Vec<Option<ExternVariantLeaf>> = Vec::new();
    for idx in 0..selected_paths.len()
        invariant
            ctx.semantic == m,
            m.wf(),
            arms_wf(&m, match_arms@),
            selected_paths@.len() == concrete_variants@.len(),
            forall|i: int|
                0 <= i < selected_paths@.len() ==> ((#[trigger] selected_paths@[i]) matches Some(
                    path,
                ) ==> is_enum_or_otherwise(&m, match_arms@, path)),
            leaves@ == Seq::new(
                idx as nat,
                |i: int|
                    match selected_paths@[i] {
                        Some(path) => Some(
                            ExternVariantLeaf {
                                variant: concrete_variants@[i],
                                arm_index: path.arm_index,
                                inner_pattern: inner_pattern(&m, match_arms@, path),
                            },
                        ),
                        None => None,
                    },
            ),
    {
        let leaf = match selected_paths[idx] {
            Some(path) => {
                let (inner_pattern, _) = payload_binding(&ctx.semantic, match_arms, location, path);
                Some(
                    ExternVariantLeaf {
                        variant: concrete_variants[idx],
                        arm_index: path.arm_index,
                        inner_pattern,
                    },
                )
            },
            None => None,
        };
        leaves.push(leaf);
    }
    proof {
        lemma_variants_named(&m, extern_enum.concrete_enum_id);
    }
    Ok(OptimizedExternMatch { concrete_variants, leaves })
}

/// The lowered match on the outcome of a call, from the block of each leaf and the variables that
/// it brings.
fn extern_match_info(
    extern_enum: LoweredExprExternEnum,
    concrete_variants: Vec<ConcreteVariant>,
    block_ids: Vec<BlockId>,
    arm_var_ids: Vec<Vec<VariableId>>,
) -> (r: MatchInfo)
    requires
        concrete_variants@.len() == block_ids@.len(),
        concrete_variants@.len() == arm_var_ids@.len(),
    ensures
        r matches MatchInfo::Extern(info) && {
            &&& info.function == extern_enum.function
            &&& info.inputs == extern_enum.inputs
            &&& info.location == extern_enum.location
            &&& arms_of_blocks(info.arms@, concrete_variants@, block_ids@, arm_var_ids@)
        },
{
    MatchInfo::Extern(
        MatchExternInfo {
            function: extern_enum.function,
            inputs: extern_enum.inputs,
            arms: variant_match_arms(concrete_variants, block_ids, arm_var_ids),
            location: extern_enum.location,
        },
    )
}

/// Concludes a match expression on the outcome of a call, after its leaves were lowered: the lowered
/// match leads from each variant to the block of its leaf, and the leaves are grouped by their arms.
/// A variant without an arm is reported as missing, in the order of the variants, and fails the
/// match.
///
/// The variables that the call brings are bound for every variant. What was reported meanwhile comes
/// before the variant is reported as missing.
pub fn conclude_optimized_extern_match(
    ctx: &mut LoweringContext,
    extern_enum: LoweredExprExternEnum,
    lowered: OptimizedExternMatch,
    match_arms: &[MatchArmWrapper],
    leaves: Vec<Option<LoweredLeaf>>,
    match_type: MatchKind,
) -> (r: LoweringResult<ConcludedMatch>)
    requires
        arms_wf(&old(ctx).semantic, match_arms@),
        lowered.wf(&old(ctx).semantic, match_arms@),
        leaves_fit(lowered.targets(&old(ctx).semantic, extern_enum.location), leaves@),
        // While Let expression should be a block.
        match_type is WhileLet && all_have_arms(
            lowered.targets(&old(ctx).semantic, extern_enum.location),
        ) ==> bodies_are_blocks(
            &old(ctx).semantic,
            match_arms@,
            leaf_builders(lowered.targets(&old(ctx).semantic, extern_enum.location), leaves@),
        ),
    ensures
        ({
            let m = &old(ctx).semantic;
            let targets = lowered.targets(m, extern_enum.location);
            &&& old(ctx).reports(final(ctx), leaves_reports(targets, leaves@, match_type))
            &&& if !all_have_arms(targets) {
                r == failed::<ConcludedMatch>()
            } else {
                &&& r matches Ok(concluded)
                &&& concluded.info matches MatchInfo::Extern(info)
                &&& info.function == extern_enum.function
                &&& info.inputs == extern_enum.inputs
                &&& info.location == extern_enum.location
                &&& arms_of_blocks(
                    info.arms@,
                    lowered.concrete_variants@,
                    leaf_blocks(leaves@),
                    leaf_vars(leaves@),
                )
                &&& concluded.empty_match_info matches MatchInfo::Extern(empty)
                &&& empty.function == extern_enum.function
                &&& empty.inputs@.len() == 0
                &&& empty.arms@.len() == 0
                &&& empty.location == extern_enum.location
                &&& are_groups(
                    concluded.groups@,
                    m,
                    &concluded.empty_match_info,
                    extern_enum.location,
                    match_arms@,
                    match_type,
                    leaf_builders(targets, leaves@),
                )
            }
        }),
{
    let ghost m = ctx.semantic;
    let location = extern_enum.location;
    let mut arm_indices: Vec<Option<usize>> = Vec::new();
    for i in 0..lowered.leaves.len()
        invariant
            arm_indices@ =~= Seq::new(
                i as nat,
                |i: int|
                    match lowered.leaves@[i] {
                        Some(leaf) => Some(leaf.arm_index),
                        None => None,
                    },
            ),
    {
        arm_indices.push(
            match lowered.leaves[i] {
                Some(leaf) => Some(leaf.arm_index),
                None => None,
            },
        );
    }
    let targets = variant_targets(
        &ctx.semantic,
        location,
        &lowered.concrete_variants,
        &arm_indices,
    );
    assert(targets_of(targets@) =~= lowered.targets(&m, location));
    let built = match take_up_leaves(ctx, targets, leaves, match_type) {
        Ok(built) => built,
        Err(error) => {
            return Err(error);
        },
    };
    proof {
        let views = lowered.targets(&m, location);
        assert forall|i: int| 0 <= i < built.builders@.len() implies (
        #[trigger] built.builders@[i]).arm_index < match_arms@.len() by {
            assert(views[i] is Arm);
            assert(lowered.leaves@[i] is Some);
        }
    }
    let empty_match_info = MatchInfo::Extern(
        MatchExternInfo {
            function: extern_enum.function,
            inputs: Vec::new(),
            arms: Vec::new(),
            location,
        },
    );
    let groups = group_match_arms(
        ctx,
        &empty_match_info,
        location,
        match_arms,
        built.builders,
        match_type,
    );
    let info = extern_match_info(
        extern_enum,
        lowered.concrete_variants,
        built.block_ids,
        built.arm_var_ids,
    );
    Ok(ConcludedMatch { info, empty_match_info, groups })
}

proof fn lemma_same_arm_patterns(arms: Seq<MatchArmWrapper>, other: Seq<MatchArmWrapper>)
    requires
        same_arms(arms, other),
    ensures
        arm_patterns(arms) == arm_patterns(other),
    decreases arms.len(),
{
    if arms.len() > 0 {
        lemma_same_parts(arms, other, 0, arms.len() - 1);
        lemma_same_arm_patterns(arms.drop_last(), other.drop_last());
        assert(arms[arms.len() - 1].patterns@ == other[arms.len() - 1].patterns@);
    }
}

/// What is selected and reported depends on nothing but the patterns and expressions of the arms.
proof fn lemma_same_selection(
    m: &SemanticModel,
    match_type: MatchKind,
    arms: Seq<MatchArmWrapper>,
    other: Seq<MatchArmWrapper>,
    e: ConcreteEnumId,
)
    requires
        same_arms(arms, other),
        arms.len() <= usize::MAX,
    ensures
        selected_arms(m, match_type, arms, e) == selected_arms(m, match_type, other, e),
        selection_reports(m, match_type, arms, e) == selection_reports(m, match_type, other, e),
        forall|path: PatternPath|
            path.arm_index < arms.len() ==> #[trigger] inner_pattern(m, arms, path)
                == inner_pattern(m, other, path) && path.pattern(arms) == path.pattern(other),
{
    lemma_same_arm_patterns(arms, other);
    lemma_same_underscore(m, match_type, arms, other);
    assert forall|path: PatternPath| path.arm_index < arms.len() implies #[trigger] inner_pattern(
        m,
        arms,
        path,
    ) == inner_pattern(m, other, path) && path.pattern(arms) == path.pattern(other) by {
        assert(arms[path.arm_index as int].patterns@ == other[path.arm_index as int].patterns@);
    }
}

/// What a match on an enum leaves behind depends on nothing but the patterns and expressions of the
/// arms.
pub(crate) proof fn lemma_same_enum_outcome(
    before: LoweringContext,
    after: LoweringContext,
    matched_expr: ExprId,
    match_input: LoweringResult<VarUsage>,
    arms: Seq<MatchArmWrapper>,
    other: Seq<MatchArmWrapper>,
    location: LocationId,
    match_type: MatchKind,
    r: LoweringResult<ConcreteEnumMatch>,
)
    requires
        same_arms(arms, other),
        arms.len() <= usize::MAX,
        concrete_enum_match_outcome(
            before,
            after,
            matched_expr,
            match_input,
            arms,
            location,
            match_type,
            r,
        ),
    ensures
        concrete_enum_match_outcome(
            before,
            after,
            matched_expr,
            match_input,
            other,
            location,
            match_type,
            r,
        ),
{
    let m = &before.semantic;
    let expr = m.exprs@[matched_expr.0 as int];
    let e = m.db.peeled_enum(expr.ty)->0;
    lemma_same_selection(m, match_type, arms, other, e);
    if is_known_enum(m, expr.ty) && match_input is Ok && selected_arms(
        m,
        match_type,
        arms,
        e,
    ) is Ok {
        let lowered = r->Ok_0;
        let selected = selected_arms(m, match_type, arms, e)->Ok_0;
        assert(lowered.leaves@ =~= Seq::new(
            selected.len(),
            |i: int|
                match selected[i] {
                    Some(path) => Some(
                        variant_leaf(
                            m,
                            other,
                            location,
                            m.db.peeled(expr.ty).0 as usize,
                            lowered.concrete_variants@[i],
                            path,
                        ),
                    ),
                    None => None,
                },
        )) by {
            assert forall|i: int| 0 <= i < selected.len() implies (
            #[trigger] selected[i] matches Some(path) ==> inner_pattern(m, arms, path)
                == inner_pattern(m, other, path) && path.pattern(arms) == path.pattern(
                other,
            )) by {
                if let Some(path) = selected[i] {
                    assert(lowered.leaves@[i]->0.arm_index == path.arm_index);
                    assert(inner_pattern(m, arms, path) == inner_pattern(m, other, path));
                }
            }
        }
    }
}

/// What a match on the outcome of a call leaves behind depends on nothing but the patterns and
/// expressions of the arms.
pub(crate) proof fn lemma_same_extern_outcome(
    before: LoweringContext,
    after: LoweringContext,
    extern_enum: LoweredExprExternEnum,
    arms: Seq<MatchArmWrapper>,
    other: Seq<MatchArmWrapper>,
    match_type: MatchKind,
    r: LoweringResult<OptimizedExternMatch>,
)
    requires
        same_arms(arms, other),
        arms.len() <= usize::MAX,
        extern_match_outcome(before, after, extern_enum, arms, match_type, r),
    ensures
        extern_match_outcome(before, after, extern_enum, other, match_type, r),
{
    let m = &before.semantic;
    let e = extern_enum.concrete_enum_id;
    lemma_same_selection(m, match_type, arms, other, e);
    if m.db.variants(e) is Ok && selected_arms(m, match_type, arms, e) is Ok {
        let lowered = r->Ok_0;
        let selected = selected_arms(m, match_type, arms, e)->Ok_0;
        assert(lowered.leaves@ =~= Seq::new(
            selected.len(),
            |i: int|
                match selected[i] {
                    Some(path) => Some(
                        ExternVariantLeaf {
                            variant: lowered.concrete_variants@[i],
                            arm_index: path.arm_index,
                            inner_pattern: inner_pattern(m, other, path),
                        },
                    ),
                    None => None,
                },
        )) by {
            assert forall|i: int| 0 <= i < selected.len() implies (
            #[trigger] selected[i] matches Some(path) ==> inner_pattern(m, arms, path)
                == inner_pattern(m, other, path)) by {
                if let Some(path) = selected[i] {
                    assert(lowered.leaves@[i]->0.arm_index == path.arm_index);
                }
            }
        }
    }
}

/// Whether `pattern` matches every value of the variant at `idx`: it is `_`, or a pattern on that
/// variant whose payload is no pattern on a variant.
pub open spec fn takes_variant(m: &SemanticModel, pattern: PatternId, idx: int) -> bool {
    match m.kind(pattern) {
        PatternKind::Otherwise => true,
        PatternKind::EnumVariant(p) => p.variant.idx == idx && !is_nested(m, pattern),
        _ => false,
    }
}

/// Whether `pattern` is a pattern on a variant with a pattern on a variant in it.
pub open spec fn is_nested(m: &SemanticModel, pattern: PatternId) -> bool {
    m.kind(pattern) matches PatternKind::EnumVariant(p) && p.inner_pattern matches Some(inner)
        && m.kind(inner) is EnumVariant
}

/// Whether `pattern` is a pattern on the variant at `idx` with a pattern on a variant in it.
pub open spec fn is_nested_at(m: &SemanticModel, pattern: PatternId, idx: int) -> bool {
    is_nested(m, pattern) && m.kind(pattern)->EnumVariant_0.variant.idx == idx
}

/// Whether `arms` have a pattern on the variant at `idx` with a pattern on a variant in it.
pub open spec fn has_nested_at(m: &SemanticModel, arms: Seq<MatchArmWrapper>, idx: int) -> bool {
    exists|i: int, j: int|
        0 <= i < arms.len() && 0 <= j < arms[i].patterns@.len() && is_nested_at(
            m,
            #[trigger] arms[i].patterns@[j],
            idx,
        )
}

/// The path of the first of `patterns` that matches every value of the variant at `idx`.
pub open spec fn first_taking_variant(
    m: &SemanticModel,
    patterns: Seq<(PatternPath, PatternId)>,
    idx: int,
) -> Option<PatternPath>
    decreases patterns.len(),
{
    if patterns.len() == 0 {
        None
    } else if first_taking_variant(m, patterns.drop_last(), idx) is Some {
        first_taking_variant(m, patterns.drop_last(), idx)
    } else if takes_variant(m, patterns.last().1, idx) {
        Some(patterns.last().0)
    } else {
        None
    }
}

proof fn lemma_first_pattern_wins(
    m: &SemanticModel,
    match_type: MatchKind,
    patterns: Seq<(PatternPath, PatternId)>,
    e: ConcreteEnumId,
    idx: int,
)
    requires
        m.wf(),
        m.db.has_enum(e),
        m.db.variants(e) is Ok,
        0 <= idx < m.db.variant_count(e),
        forall|k: int|
            0 <= k < patterns.len() ==> m.has_pattern((#[trigger] patterns[k]).1) && !is_nested_at(
                m,
                patterns[k].1,
                idx,
            ),
        unfolding_of_all(m, match_type, patterns, e).result is Ok,
    ensures
        ({
            let tree = unfolding_of_all(m, match_type, patterns, e).tree;
            &&& arm_of_variant(tree, idx) == first_taking_variant(m, patterns, idx)
            &&& tree matches Coverage::Mapping(items) ==> items.len() == m.db.variant_count(e) && !(
            items[idx] is Mapping)
        }),
    decreases patterns.len(),
{
    if patterns.len() > 0 {
        let before = unfolding_of_all(m, match_type, patterns.drop_last(), e);
        assert forall|k: int| 0 <= k < patterns.len() - 1 implies m.has_pattern(
            (#[trigger] patterns.drop_last()[k]).1,
        ) && !is_nested_at(m, patterns.drop_last()[k].1, idx) by {
            assert(patterns.drop_last()[k] == patterns[k]);
        }
        lemma_first_pattern_wins(m, match_type, patterns.drop_last(), e, idx);
        let (path, pattern) = patterns.last();
        assert(patterns[patterns.len() - 1] == (path, pattern));
        assert(m.pattern_wf(pattern.0 as int));
        match m.kind(pattern) {
            PatternKind::EnumVariant(p) => {
                let items = before.tree.expanded(m.db.variant_count(e))->Mapping_0;
                if p.variant.idx == idx {
                    assert(!(items[idx] is Mapping));
                    assert(items[idx] is Empty);
                    reveal_with_fuel(Coverage::filled, 2);
                }
            },
            PatternKind::Otherwise => {
                if let Coverage::Mapping(items) = before.tree {
                    let filled = before.tree.filled(pattern, path)->Mapping_0;
                    assert(filled[idx] == items[idx].filled(pattern, path));
                }
            },
            _ => {},
        }
    }
}

/// The first pattern wins: a variant of a match on an enum gets the first pattern, in the order in
/// which the patterns are written, that matches it; a variant that no pattern matches gets none. No
/// pattern on the variant may have a pattern on a variant inside it.
pub proof fn law_first_pattern_wins(
    m: &SemanticModel,
    match_type: MatchKind,
    arms: Seq<MatchArmWrapper>,
    e: ConcreteEnumId,
    idx: int,
)
    requires
        m.wf(),
        arms_wf(m, arms),
        arms.len() <= usize::MAX,
        m.db.has_enum(e),
        0 <= idx < m.db.variant_count(e),
        !has_nested_at(m, arms, idx),
        variant_arms(m, match_type, arms, e) is Ok,
    ensures
        variant_arms(m, match_type, arms, e)->Ok_0[idx] == first_taking_variant(
            m,
            arm_patterns(arms),
            idx,
        ),
{
    let patterns = arm_patterns(arms);
    assert(arms.take(arms.len() as int) =~= arms);
    lemma_arm_patterns(m, arms, arms);
    assert forall|k: int| 0 <= k < patterns.len() implies m.has_pattern((#[trigger] patterns[k]).1)
        && !is_nested_at(m, patterns[k].1, idx) by {
        let (path, pattern) = patterns[k];
        assert(pattern == arms[path.arm_index as int].patterns@[path.pattern_index->0 as int]);
    }
    lemma_first_pattern_wins(m, match_type, patterns, e, idx);
}

/// The patterns before it win: what a pattern covers stays covered by it, whatever is unfolded after
/// it.
pub proof fn law_unfolding_keeps_coverage(
    m: &SemanticModel,
    match_type: MatchKind,
    pattern: PatternId,
    path: PatternPath,
    ptr: SyntaxStablePtrId,
    tree: Coverage,
    e: ConcreteEnumId,
    variants: Seq<int>,
)
    requires
        m.wf(),
        m.has_pattern(pattern),
        m.db.has_enum(e),
        tree.fits(m, e),
        tree.covering(variants) is Some,
    ensures
        unfolding(m, match_type, pattern, path, ptr, tree, e).tree.covering(variants)
            == tree.covering(variants),
    decreases pattern.0,
{
    assert(m.pattern_wf(pattern.0 as int));
    match m.kind(pattern) {
        PatternKind::Otherwise => {
            tree.law_push_keeps_coverage(pattern, path, variants);
        },
        PatternKind::EnumVariant(p) => {
            if p.variant.concrete_enum_id == e && !(tree is Full) && m.db.variants(e) is Ok {
                let idx = p.variant.idx as int;
                let items = tree->Mapping_0;
                let payload = m.db.variants(e)->Ok_0[idx].ty;
                m.db.lemma_variant(e, idx);
                m.db.lemma_peeled(payload);
                if variants[0] == idx {
                    match p.inner_pattern {
                        Some(inner) if m.kind(inner) is EnumVariant => {
                            if is_known_enum(m, payload) {
                                law_unfolding_keeps_coverage(
                                    m,
                                    match_type,
                                    inner,
                                    path,
                                    ptr,
                                    items[idx],
                                    m.db.peeled_enum(payload)->0,
                                    variants.drop_first(),
                                );
                            }
                        },
                        _ => {
                            items[idx].law_push_keeps_coverage(
                                pattern,
                                path,
                                variants.drop_first(),
                            );
                        },
                    }
                }
            }
        },
        _ => {},
    }
}

/// Whether an arm takes the variant at `idx`: it has no pattern, or one of its patterns takes it.
pub open spec fn arm_takes_variant(m: &SemanticModel, arm: MatchArmWrapper, idx: int) -> bool {
    ||| arm.patterns@.len() == 0
    ||| exists|j: int|
        0 <= j < arm.patterns@.len() && takes_variant(m, #[trigger] arm.patterns@[j], idx)
}

/// What the first of `patterns` that takes a variant is.
pub(crate) proof fn lemma_first_taking_variant(
    m: &SemanticModel,
    patterns: Seq<(PatternPath, PatternId)>,
    idx: int,
) -> (k: int)
    ensures
        match first_taking_variant(m, patterns, idx) {
            Some(path) => 0 <= k < patterns.len() && patterns[k].0 == path && takes_variant(
                m,
                patterns[k].1,
                idx,
            ),
            None => k == patterns.len(),
        },
        forall|j: int| 0 <= j < k ==> !takes_variant(m, (#[trigger] patterns[j]).1, idx),
    decreases patterns.len(),
{
    if patterns.len() == 0 {
        0
    } else {
        let before = patterns.drop_last();
        let k = lemma_first_taking_variant(m, before, idx);
        assert(forall|j: int| 0 <= j < before.len() ==> #[trigger] patterns[j] == before[j]);
        if k < before.len() {
            k
        } else if takes_variant(m, patterns.last().1, idx) {
            patterns.len() - 1
        } else {
            patterns.len() as int
        }
    }
}

/// All patterns of the arms come, in the order of their arms.
pub(crate) proof fn lemma_arm_patterns_ordered(arms: Seq<MatchArmWrapper>)
    requires
        arms.len() <= usize::MAX,
    ensures
        forall|k: int|
            0 <= k < arm_patterns(arms).len() ==> (#[trigger] arm_patterns(arms)[k]).0.arm_index
                < arms.len(),
        forall|k: int, l: int|
            0 <= k <= l < arm_patterns(arms).len() ==> (
            #[trigger] arm_patterns(arms)[k]).0.arm_index <= (
            #[trigger] arm_patterns(arms)[l]).0.arm_index,
        forall|i: int, j: int|
            0 <= i < arms.len() && 0 <= j < arms[i].patterns@.len() ==> arm_patterns(arms).contains(
                (
                    PatternPath { arm_index: i as usize, pattern_index: Some(j as usize) },
                    #[trigger] arms[i].patterns@[j],
                ),
            ),
    decreases arms.len(),
{
    if arms.len() > 0 {
        let before = arms.drop_last();
        lemma_arm_patterns_ordered(before);
        let n = arms.len() - 1;
        let done = arm_patterns(before);
        let of_arm = patterns_of_arm(arms.last(), n as nat);
        let now = arm_patterns(arms);
        assert(now == done + of_arm);
        assert forall|k: int| 0 <= k < now.len() implies {
            &&& (#[trigger] now[k]).0.arm_index < arms.len()
            &&& k < done.len() ==> now[k] == done[k]
            &&& k >= done.len() ==> now[k].0.arm_index == n
        } by {
            if k >= done.len() {
                assert(now[k] == of_arm[k - done.len()]);
            }
        }
        assert forall|k: int, l: int| 0 <= k <= l < now.len() implies (
        #[trigger] now[k]).0.arm_index <= (#[trigger] now[l]).0.arm_index by {
            if l < done.len() {
                assert(now[k] == done[k]);
            }
        }
        assert forall|i: int, j: int|
            0 <= i < arms.len() && 0 <= j < arms[i].patterns@.len() implies now.contains(
            (
                PatternPath { arm_index: i as usize, pattern_index: Some(j as usize) },
                #[trigger] arms[i].patterns@[j],
            ),
        ) by {
            let at = (
                PatternPath { arm_index: i as usize, pattern_index: Some(j as usize) },
                arms[i].patterns@[j],
            );
            if i < n {
                assert(before[i].patterns@[j] == arms[i].patterns@[j]);
                let k = done.index_of(at);
                assert(now[k] == at);
            } else {
                assert(now[done.len() + j] == of_arm[j]);
            }
        }
    }
}

/// What is selected for the variant at `idx` is the first arm that takes it, or nothing where no arm
/// takes it.
pub open spec fn is_first_arm_of_variant(
    m: &SemanticModel,
    arms: Seq<MatchArmWrapper>,
    idx: int,
    selected: Option<PatternPath>,
) -> bool {
    match selected {
        Some(path) => {
            &&& path.arm_index < arms.len()
            &&& arm_takes_variant(m, arms[path.arm_index as int], idx)
            &&& forall|i: int|
                0 <= i < path.arm_index ==> !arm_takes_variant(m, #[trigger] arms[i], idx)
        },
        None => forall|i: int|
            0 <= i < arms.len() ==> !arm_takes_variant(m, #[trigger] arms[i], idx),
    }
}

/// No arm without patterns comes before all patterns that take the variant at `idx`, where there are
/// such patterns.
pub open spec fn patterns_come_first(
    m: &SemanticModel,
    arms: Seq<MatchArmWrapper>,
    idx: int,
) -> bool {
    forall|i: int, j: int, k: int|
        0 <= i < j < arms.len() && (#[trigger] arms[i]).patterns@.len() == 0 && 0 <= k
            < arms[j].patterns@.len() && takes_variant(m, #[trigger] arms[j].patterns@[k], idx)
            ==> exists|h: int|
            0 <= h < i && arms[h].patterns@.len() > 0 && #[trigger] arm_takes_variant(
                m,
                arms[h],
                idx,
            )
}

/// The first arm wins: a match on an enum selects for a variant the first arm that takes it. The arm
/// of a variant is missing exactly where no arm takes it. No pattern on the variant may have a
/// pattern on a variant inside it, and no arm without patterns may come before all patterns that take
/// the variant.
pub proof fn law_first_arm_wins_on_enums(
    m: &SemanticModel,
    match_type: MatchKind,
    arms: Seq<MatchArmWrapper>,
    e: ConcreteEnumId,
    idx: int,
)
    requires
        m.wf(),
        arms_wf(m, arms),
        arms.len() <= usize::MAX,
        m.db.has_enum(e),
        0 <= idx < m.db.variant_count(e),
        !has_nested_at(m, arms, idx),
        patterns_come_first(m, arms, idx),
        selected_arms(m, match_type, arms, e) is Ok,
    ensures
        is_first_arm_of_variant(
            m,
            arms,
            idx,
            selected_arms(m, match_type, arms, e)->Ok_0[idx],
        ),
{
    let patterns = arm_patterns(arms);
    law_first_pattern_wins(m, match_type, arms, e, idx);
    lemma_arm_patterns_ordered(arms);
    assert(arms.take(arms.len() as int) =~= arms);
    lemma_arm_patterns(m, arms, arms);
    lemma_underscore_path(m, arms);
    lemma_first_taking_all(m, arms);
    let k = lemma_first_taking_variant(m, patterns, idx);
    let found = first_taking_variant(m, patterns, idx);
    if let Some(path) = found {
        assert(arms[path.arm_index as int].patterns@[path.pattern_index->0 as int]
            == patterns[k].1);
    }
    let end = match found {
        Some(path) => path.arm_index as int,
        None => arms.len() as int,
    };
    assert forall|i: int| 0 <= i < end && arms[i].patterns@.len() > 0 implies !arm_takes_variant(
        m,
        #[trigger] arms[i],
        idx,
    ) by {
        assert forall|j: int| 0 <= j < arms[i].patterns@.len() implies !takes_variant(
            m,
            #[trigger] arms[i].patterns@[j],
            idx,
        ) by {
            let at = (
                PatternPath { arm_index: i as usize, pattern_index: Some(j as usize) },
                arms[i].patterns@[j],
            );
            let l = patterns.index_of(at);
            assert(patterns[l] == at);
            if k < patterns.len() && k <= l {
                assert(patterns[k].0.arm_index <= patterns[l].0.arm_index);
            }
        }
    }
    if let Some(path) = found {
        let pattern_index = path.pattern_index->0 as int;
        assert(takes_variant(m, arms[end].patterns@[pattern_index], idx));
        assert forall|i: int| 0 <= i < end implies !arm_takes_variant(
            m,
            #[trigger] arms[i],
            idx,
        ) by {
            if arms[i].patterns@.len() == 0 {
                let h = choose|h: int|
                    0 <= h < i && arms[h].patterns@.len() > 0 && #[trigger] arm_takes_variant(
                        m,
                        arms[h],
                        idx,
                    );
                assert(!arm_takes_variant(m, arms[h], idx));
            }
        }
    } else {
        let n = first_taking_all(m, arms) as int;
        assert forall|i: int| 0 <= i < n implies !arm_takes_variant(m, #[trigger] arms[i], idx) by {
            assert(!takes_all(m, arms[i]));
        }
        if n < arms.len() && arms[n].patterns@.len() > 0 {
            let j = choose|j: int|
                0 <= j < arms[n].patterns@.len() && m.kind(
                    #[trigger] arms[n].patterns@[j],
                ) is Otherwise;
            assert(takes_variant(m, arms[n].patterns@[j], idx));
            assert(!arm_takes_variant(m, arms[n], idx));
        }
    }
}

/// A variant with a pattern on it that has a pattern on a variant inside it is left to the underscore
/// pattern, whatever else covers it.
pub proof fn law_nested_patterns_leave_their_variant_to_the_underscore(
    m: &SemanticModel,
    match_type: MatchKind,
    arms: Seq<MatchArmWrapper>,
    e: ConcreteEnumId,
    idx: int,
)
    requires
        m.wf(),
        arms_wf(m, arms),
        arms.len() <= usize::MAX,
        m.db.has_enum(e),
        0 <= idx < m.db.variant_count(e),
        has_nested_at(m, arms, idx),
        selected_arms(m, match_type, arms, e) is Ok,
    ensures
        selected_arms(m, match_type, arms, e)->Ok_0[idx] == underscore_path(m, arms),
        selection_reports(m, match_type, arms, e).len() > 0,
{
    let patterns = arm_patterns(arms);
    let (i, j) = choose|i: int, j: int|
        0 <= i < arms.len() && 0 <= j < arms[i].patterns@.len() && is_nested_at(
            m,
            #[trigger] arms[i].patterns@[j],
            idx,
        );
    lemma_arm_patterns_ordered(arms);
    assert(arms.take(arms.len() as int) =~= arms);
    lemma_arm_patterns(m, arms, arms);
    let at = (
        PatternPath { arm_index: i as usize, pattern_index: Some(j as usize) },
        arms[i].patterns@[j],
    );
    let k = patterns.index_of(at);
    assert(patterns[k] == at);
    let variants = lemma_nested_pattern(m, match_type, patterns, e, k);
    let tree = unfolding_of_all(m, match_type, patterns, e).tree;
    let below = tree->Mapping_0[idx];
    below.lemma_covered_has_leaves(variants.drop_first());
    lemma_partial_pattern_reported(m, tree, m.db.variant_count(e), idx);
}

/// The first arm wins wherever the arms of the variants are selected and nothing is reported.
pub proof fn law_first_arm_wins_where_nothing_is_reported(
    m: &SemanticModel,
    match_type: MatchKind,
    arms: Seq<MatchArmWrapper>,
    e: ConcreteEnumId,
    idx: int,
)
    requires
        m.wf(),
        arms_wf(m, arms),
        arms.len() <= usize::MAX,
        m.db.has_enum(e),
        0 <= idx < m.db.variant_count(e),
        selected_arms(m, match_type, arms, e) is Ok,
        selection_reports(m, match_type, arms, e) == Seq::<Report>::empty(),
    ensures
        is_first_arm_of_variant(
            m,
            arms,
            idx,
            selected_arms(m, match_type, arms, e)->Ok_0[idx],
        ),
{
    if has_nested_at(m, arms, idx) {
        law_nested_patterns_leave_their_variant_to_the_underscore(m, match_type, arms, e, idx);
    }
    assert(unreachable_after_underscore(m, match_type, arms).len() + variant_arms_reports(
        m,
        match_type,
        arms,
        e,
    ).len() == selection_reports(m, match_type, arms, e).len());
    lemma_first_taking_all(m, arms);
    let n = first_taking_all(m, arms) as int;
    if n < arms.len() {
        lemma_reachable_arms(m, match_type, arms.skip(n + 1));
    }
    assert forall|i: int, j: int, k: int|
        0 <= i < j < arms.len() && (#[trigger] arms[i]).patterns@.len() == 0 && 0 <= k
            < arms[j].patterns@.len() && takes_variant(
            m,
            #[trigger] arms[j].patterns@[k],
            idx,
        ) implies exists|h: int|
        0 <= h < i && arms[h].patterns@.len() > 0 && #[trigger] arm_takes_variant(
            m,
            arms[h],
            idx,
        ) by {
        if i < n {
            assert(!takes_all(m, arms[i]));
        } else {
            assert(arms.skip(n + 1)[j - n - 1] == arms[j]);
        }
    }
    law_first_arm_wins_on_enums(m, match_type, arms, e, idx);
}

/// Arms of which nothing is reported as unreachable have no patterns.
proof fn lemma_reachable_arms(m: &SemanticModel, kind: MatchKind, arms: Seq<MatchArmWrapper>)
    requires
        unreachable_arms(m, kind, arms).len() == 0,
    ensures
        forall|i: int| 0 <= i < arms.len() ==> (#[trigger] arms[i]).patterns@.len() == 0,
    decreases arms.len(),
{
    if arms.len() > 0 {
        lemma_reachable_arms(m, kind, arms.drop_last());
        assert(unreachable_arm(m, kind, arms.last()).len() == 0);
        assert forall|i: int| 0 <= i < arms.len() implies (#[trigger] arms[i]).patterns@.len()
            == 0 by {
            if i < arms.len() - 1 {
                assert(arms.drop_last()[i] == arms[i]);
            }
        }
    }
}

/// A partly covered variant is reported.
proof fn lemma_partial_pattern_reported(m: &SemanticModel, tree: Coverage, n: nat, idx: int)
    requires
        0 <= idx < n,
        tree matches Coverage::Mapping(items) && items[idx] is Mapping && items[idx].leaves().len()
            > 0,
    ensures
        partial_patterns_reported(m, tree, n).len() > 0,
    decreases n,
{
    if idx < n - 1 {
        lemma_partial_pattern_reported(m, tree, (n - 1) as nat, idx);
    } else {
        let leaves = tree->Mapping_0[idx].leaves();
        assert(with_each_once(seq![], leaves).len() > 0);
    }
}

/// A variant with a pattern on it that has a pattern on a variant inside it stays partly covered: the
/// value whose variants are returned is covered there.
proof fn lemma_nested_pattern(
    m: &SemanticModel,
    match_type: MatchKind,
    patterns: Seq<(PatternPath, PatternId)>,
    e: ConcreteEnumId,
    k: int,
) -> (variants: Seq<int>)
    requires
        m.wf(),
        m.db.has_enum(e),
        forall|k: int| 0 <= k < patterns.len() ==> m.has_pattern((#[trigger] patterns[k]).1),
        unfolding_of_all(m, match_type, patterns, e).result is Ok,
        0 <= k < patterns.len(),
        is_nested(m, patterns[k].1),
    ensures
        ({
            let idx = m.kind(patterns[k].1)->EnumVariant_0.variant.idx as int;
            let tree = unfolding_of_all(m, match_type, patterns, e).tree;
            &&& tree matches Coverage::Mapping(items)
            &&& idx < items.len()
            &&& items[idx] is Mapping
            &&& variants.len() > 0
            &&& variants[0] == idx
            &&& tree.covering(variants) is Some
        }),
    decreases patterns.len(),
{
    let first = patterns.drop_last();
    let before = unfolding_of_all(m, match_type, first, e);
    let (path, pattern) = patterns.last();
    let ptr = m.pattern_ptr(pattern);
    assert(patterns[patterns.len() - 1] == (path, pattern));
    assert forall|k: int| 0 <= k < first.len() implies m.has_pattern((#[trigger] first[k]).1) by {
        assert(first[k] == patterns[k]);
    }
    lemma_unfolding_of_all(m, match_type, first, e, |pattern: PatternId, path: PatternPath| true);
    if k == patterns.len() - 1 {
        lemma_covers(m, match_type, pattern, path, ptr, before.tree, e)
    } else {
        assert(first[k] == patterns[k]);
        let variants = lemma_nested_pattern(m, match_type, first, e, k);
        law_unfolding_keeps_coverage(m, match_type, pattern, path, ptr, before.tree, e, variants);
        lemma_mapping_stays(m, match_type, pattern, path, ptr, before.tree, e, variants[0]);
        variants
    }
}

/// A partly covered variant stays partly covered.
proof fn lemma_mapping_stays(
    m: &SemanticModel,
    match_type: MatchKind,
    pattern: PatternId,
    path: PatternPath,
    ptr: SyntaxStablePtrId,
    tree: Coverage,
    e: ConcreteEnumId,
    idx: int,
)
    requires
        m.wf(),
        m.has_pattern(pattern),
        tree.fits(m, e),
        tree matches Coverage::Mapping(items) && 0 <= idx < items.len() && items[idx] is Mapping,
    ensures
        unfolding(m, match_type, pattern, path, ptr, tree, e).tree matches Coverage::Mapping(items)
            && idx < items.len() && items[idx] is Mapping,
{
    let items = tree->Mapping_0;
    assert(m.pattern_wf(pattern.0 as int));
    match m.kind(pattern) {
        PatternKind::Otherwise => {
            assert(tree.filled(pattern, path)->Mapping_0[idx] == items[idx].filled(pattern, path));
        },
        PatternKind::EnumVariant(p) => {
            let payload = m.db.variants(e)->Ok_0[p.variant.idx as int].ty;
            if let Some(inner) = p.inner_pattern {
                let below = unfolding(
                    m,
                    match_type,
                    inner,
                    path,
                    ptr,
                    items[idx],
                    m.db.peeled_enum(payload)->0,
                );
                assert(below.tree is Mapping);
            }
        },
        _ => {},
    }
}

/// A pattern on a variant that is unfolded covers a value of the variant: the one whose variants are
/// returned.
proof fn lemma_covers(
    m: &SemanticModel,
    match_type: MatchKind,
    pattern: PatternId,
    path: PatternPath,
    ptr: SyntaxStablePtrId,
    tree: Coverage,
    e: ConcreteEnumId,
) -> (variants: Seq<int>)
    requires
        m.wf(),
        m.has_pattern(pattern),
        m.db.has_enum(e),
        tree.fits(m, e),
        m.kind(pattern) is EnumVariant,
        unfolding(m, match_type, pattern, path, ptr, tree, e).result is Ok,
    ensures
        ({
            let idx = m.kind(pattern)->EnumVariant_0.variant.idx as int;
            let after = unfolding(m, match_type, pattern, path, ptr, tree, e).tree;
            &&& after matches Coverage::Mapping(items)
            &&& idx < items.len()
            &&& is_nested(m, pattern) ==> items[idx] is Mapping
            &&& variants.len() > 0
            &&& variants[0] == idx
            &&& after.covering(variants) is Some
        }),
    decreases pattern.0,
{
    assert(m.pattern_wf(pattern.0 as int));
    let p = m.kind(pattern)->EnumVariant_0;
    let idx = p.variant.idx as int;
    let items = tree.expanded(m.db.variant_count(e))->Mapping_0;
    let payload = m.db.variants(e)->Ok_0[idx].ty;
    m.db.lemma_variant(e, idx);
    m.db.lemma_peeled(payload);
    let below = match p.inner_pattern {
        Some(inner) if m.kind(inner) is EnumVariant => {
            lemma_covers(
                m,
                match_type,
                inner,
                path,
                ptr,
                items[idx],
                m.db.peeled_enum(payload)->0,
            )
        },
        _ => items[idx].lemma_filled_covers(pattern, path),
    };
    let variants = seq![idx] + below;
    assert(variants.drop_first() =~= below);
    variants
}

/// The underscore pattern is a `_`, or in an arm without patterns. Without it, every arm has a
/// pattern.
proof fn lemma_underscore_path(m: &SemanticModel, arms: Seq<MatchArmWrapper>)
    requires
        arms.len() <= usize::MAX,
    ensures
        match underscore_path(m, arms) {
            Some(path) => {
                &&& path.arm_index < arms.len()
                &&& arms[path.arm_index as int].patterns@.len() == 0 || exists|j: int|
                    0 <= j < arms[path.arm_index as int].patterns@.len() && m.kind(
                        #[trigger] arms[path.arm_index as int].patterns@[j],
                    ) is Otherwise
            },
            None => forall|i: int|
                0 <= i < arms.len() ==> (#[trigger] arms[i]).patterns@.len() > 0,
        },
    decreases arms.len(),
{
    lemma_first_taking_all(m, arms);
    let n = first_taking_all(m, arms);
    if n < arms.len() {
        lemma_first_otherwise(m, arms[n as int].patterns@);
        let j = first_otherwise(m, arms[n as int].patterns@) as int;
        if arms[n as int].patterns@.len() > 0 {
            assert(m.kind(arms[n as int].patterns@[j]) is Otherwise);
        }
    }
}

} // verus!

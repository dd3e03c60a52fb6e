//! Match arms, and the patterns written in them.
use vstd::prelude::*;

use crate::context::LoweringContext;
use crate::diagnostic::{
    match_error_at, LoweringDiagnosticKind, MatchDiagnostic, MatchKind, Report,
};
use crate::semantic::{ExprId, MatchArm, PatternId, PatternKind, SemanticModel};
use crate::syntax::SyntaxStablePtrId;

verus! {

/// MatchArm wrapper that allows for optional expression clause.
/// Used in the case of if-let with missing else clause.
#[derive(PartialEq, Eq, Debug)]
pub struct MatchArmWrapper {
    pub patterns: Vec<PatternId>,
    pub expr: Option<ExprId>,
}

impl MatchArmWrapper {
    /// The patterns and the expression of the arm exist.
    pub open spec fn wf(&self, m: &SemanticModel) -> bool {
        &&& forall|j: int|
            0 <= j < self.patterns@.len() ==> m.has_pattern(#[trigger] self.patterns@[j])
        &&& self.expr matches Some(expr) ==> m.has_expr(expr)
    }
}

/// The patterns and the expressions of all arms exist.
pub open spec fn arms_wf(m: &SemanticModel, arms: Seq<MatchArmWrapper>) -> bool {
    forall|i: int| 0 <= i < arms.len() ==> (#[trigger] arms[i]).wf(m)
}

impl From<&MatchArm> for MatchArmWrapper {
    fn from(arm: &MatchArm) -> (r: Self)
        ensures
            r.patterns@ == arm.patterns@,
            r.expr == Some(arm.expression),
    {
        let patterns = arm.patterns.clone();
        assert(patterns@ =~= arm.patterns@);
        Self { patterns, expr: Some(arm.expression) }
    }
}

/// Only the contract of `from` is claimed of the conversion: two vectors with the same elements
/// may still differ.
impl vstd::std_specs::convert::FromSpecImpl<&MatchArm> for MatchArmWrapper {
    open spec fn obeys_from_spec() -> bool {
        false
    }

    open spec fn from_spec(arm: &MatchArm) -> Self {
        MatchArmWrapper { patterns: arm.patterns, expr: Some(arm.expression) }
    }
}

/// The arms of a match expression, each wrapped.
pub fn wrap_arms(arms: &[MatchArm]) -> (r: Vec<MatchArmWrapper>)
    ensures
        r@.len() == arms@.len(),
        forall|i: int|
            0 <= i < r@.len() ==> (#[trigger] r@[i]).patterns@ == arms@[i].patterns@ && r@[i].expr
                == Some(arms@[i].expression),
{
    let mut r: Vec<MatchArmWrapper> = Vec::new();
    for i in 0..arms.len()
        invariant
            r@.len() == i,
            forall|k: int|
                0 <= k < i ==> (#[trigger] r@[k]).patterns@ == arms@[k].patterns@ && r@[k].expr
                    == Some(arms@[k].expression),
    {
        let arm = MatchArmWrapper::from(&arms[i]);
        r.push(arm);
    }
    r
}

/// The arm and pattern indices of a pattern in a match arm with an or list.
#[derive(Clone, Copy, PartialEq, Eq, Debug)]
pub struct PatternPath {
    pub arm_index: usize,
    pub pattern_index: Option<usize>,
}

impl PatternPath {
    /// The path leads to a pattern, or to an arm without patterns.
    pub open spec fn leads_into(self, arms: Seq<MatchArmWrapper>) -> bool {
        &&& self.arm_index < arms.len()
        &&& match self.pattern_index {
            Some(j) => j < arms[self.arm_index as int].patterns@.len(),
            None => arms[self.arm_index as int].patterns@.len() == 0,
        }
    }

    /// The pattern that the path leads to.
    pub open spec fn pattern(self, arms: Seq<MatchArmWrapper>) -> Option<PatternId> {
        match self.pattern_index {
            Some(j) => Some(arms[self.arm_index as int].patterns@[j as int]),
            None => None,
        }
    }
}

/// The position of the first `_` among `patterns`, or their number where none of them is `_`.
pub open spec fn first_otherwise(m: &SemanticModel, patterns: Seq<PatternId>) -> nat
    decreases patterns.len(),
{
    if patterns.len() == 0 || m.kind(patterns[0]) is Otherwise {
        0
    } else {
        1 + first_otherwise(m, patterns.drop_first())
    }
}

/// Whether an arm takes every value: it has no pattern, or one of its patterns is `_`.
pub open spec fn takes_all(m: &SemanticModel, arm: MatchArmWrapper) -> bool {
    arm.patterns@.len() == 0 || first_otherwise(m, arm.patterns@) < arm.patterns@.len()
}

/// The position of the first arm that takes every value, or the number of arms where none does.
pub open spec fn first_taking_all(m: &SemanticModel, arms: Seq<MatchArmWrapper>) -> nat
    decreases arms.len(),
{
    if arms.len() == 0 || takes_all(m, arms[0]) {
        0
    } else {
        1 + first_taking_all(m, arms.drop_first())
    }
}

/// The path of the underscore pattern: the first `_`, or the first arm without patterns.
pub open spec fn underscore_path(m: &SemanticModel, arms: Seq<MatchArmWrapper>) -> Option<
    PatternPath,
> {
    let arm_index = first_taking_all(m, arms);
    if arm_index == arms.len() {
        None
    } else {
        let patterns = arms[arm_index as int].patterns@;
        Some(
            PatternPath {
                arm_index: arm_index as usize,
                pattern_index: if patterns.len() == 0 {
                    None
                } else {
                    Some(first_otherwise(m, patterns) as usize)
                },
            },
        )
    }
}

/// Each of `patterns` reported as unreachable.
pub open spec fn unreachable_patterns(
    m: &SemanticModel,
    kind: MatchKind,
    patterns: Seq<PatternId>,
) -> Seq<Report> {
    patterns.map_values(
        |p: PatternId|
            match_error_at(m.pattern_ptr(p), kind, MatchDiagnostic::UnreachableMatchArm),
    )
}

/// An arm reported as unreachable: each of its patterns, or its expression where it has no pattern.
pub open spec fn unreachable_arm(
    m: &SemanticModel,
    kind: MatchKind,
    arm: MatchArmWrapper,
) -> Seq<Report> {
    match arm.expr {
        Some(expr) if arm.patterns@.len() == 0 => seq![
            match_error_at(
                m.exprs@[expr.0 as int].stable_ptr,
                kind,
                MatchDiagnostic::UnreachableMatchArm,
            ),
        ],
        _ => unreachable_patterns(m, kind, arm.patterns@),
    }
}

/// Each of `arms` reported as unreachable.
pub open spec fn unreachable_arms(
    m: &SemanticModel,
    kind: MatchKind,
    arms: Seq<MatchArmWrapper>,
) -> Seq<Report>
    decreases arms.len(),
{
    if arms.len() == 0 {
        seq![]
    } else {
        unreachable_arms(m, kind, arms.drop_last()) + unreachable_arm(m, kind, arms.last())
    }
}

/// What the underscore pattern makes unreachable: the arms after its arm, then the patterns after
/// it in its own arm.
pub open spec fn unreachable_after_underscore(
    m: &SemanticModel,
    kind: MatchKind,
    arms: Seq<MatchArmWrapper>,
) -> Seq<Report> {
    match underscore_path(m, arms) {
        None => seq![],
        Some(path) => {
            let patterns = arms[path.arm_index as int].patterns@;
            unreachable_arms(m, kind, arms.skip(path.arm_index + 1)) + (match path.pattern_index {
                None => seq![],
                Some(j) => unreachable_patterns(m, kind, patterns.skip(j + 1)),
            })
        },
    }
}

/// No pattern before the first `_` is `_`.
pub proof fn lemma_first_otherwise(m: &SemanticModel, patterns: Seq<PatternId>)
    ensures
        first_otherwise(m, patterns) <= patterns.len(),
        forall|j: int|
            0 <= j < first_otherwise(m, patterns) ==> !(m.kind(#[trigger] patterns[j]) is Otherwise),
        first_otherwise(m, patterns) < patterns.len() ==> m.kind(
            patterns[first_otherwise(m, patterns) as int],
        ) is Otherwise,
    decreases patterns.len(),
{
    if patterns.len() > 0 && !(m.kind(patterns[0]) is Otherwise) {
        let rest = patterns.drop_first();
        lemma_first_otherwise(m, rest);
        assert forall|j: int| 0 <= j < first_otherwise(m, patterns) implies !(m.kind(
            #[trigger] patterns[j],
        ) is Otherwise) by {
            if j > 0 {
                assert(patterns[j] == rest[j - 1]);
            }
        }
    }
}

/// No arm before the first one that takes every value takes every value.
pub proof fn lemma_first_taking_all(m: &SemanticModel, arms: Seq<MatchArmWrapper>)
    ensures
        first_taking_all(m, arms) <= arms.len(),
        forall|i: int| 0 <= i < first_taking_all(m, arms) ==> !takes_all(m, #[trigger] arms[i]),
        first_taking_all(m, arms) < arms.len() ==> takes_all(
            m,
            arms[first_taking_all(m, arms) as int],
        ),
    decreases arms.len(),
{
    if arms.len() > 0 && !takes_all(m, arms[0]) {
        let rest = arms.drop_first();
        lemma_first_taking_all(m, rest);
        assert forall|i: int| 0 <= i < first_taking_all(m, arms) implies !takes_all(
            m,
            #[trigger] arms[i],
        ) by {
            if i > 0 {
                assert(arms[i] == rest[i - 1]);
            }
        }
    }
}

/// The arms have the same patterns and expressions.
pub open spec fn same_arms(arms: Seq<MatchArmWrapper>, other: Seq<MatchArmWrapper>) -> bool {
    &&& arms.len() == other.len()
    &&& forall|i: int|
        0 <= i < arms.len() ==> (#[trigger] arms[i]).patterns@ == other[i].patterns@ && arms[i].expr
            == other[i].expr
}

/// Parts of the same arms are the same.
pub(crate) proof fn lemma_same_parts(
    arms: Seq<MatchArmWrapper>,
    other: Seq<MatchArmWrapper>,
    from: int,
    to: int,
)
    requires
        same_arms(arms, other),
        0 <= from <= to <= arms.len(),
    ensures
        same_arms(arms.subrange(from, to), other.subrange(from, to)),
{
    assert forall|i: int| 0 <= i < to - from implies (
    #[trigger] arms.subrange(from, to)[i]).patterns@ == other.subrange(from, to)[i].patterns@
        && arms.subrange(from, to)[i].expr == other.subrange(from, to)[i].expr by {
        assert(arms[from + i].patterns@ == other[from + i].patterns@);
    }
}

proof fn lemma_same_first_taking_all(
    m: &SemanticModel,
    arms: Seq<MatchArmWrapper>,
    other: Seq<MatchArmWrapper>,
)
    requires
        same_arms(arms, other),
    ensures
        first_taking_all(m, arms) == first_taking_all(m, other),
    decreases arms.len(),
{
    if arms.len() > 0 {
        lemma_same_parts(arms, other, 1, arms.len() as int);
        lemma_same_first_taking_all(m, arms.drop_first(), other.drop_first());
        assert(arms[0].patterns@ == other[0].patterns@);
    }
}

proof fn lemma_same_unreachable_arms(
    m: &SemanticModel,
    kind: MatchKind,
    arms: Seq<MatchArmWrapper>,
    other: Seq<MatchArmWrapper>,
)
    requires
        same_arms(arms, other),
    ensures
        unreachable_arms(m, kind, arms) == unreachable_arms(m, kind, other),
    decreases arms.len(),
{
    if arms.len() > 0 {
        lemma_same_parts(arms, other, 0, arms.len() - 1);
        lemma_same_unreachable_arms(m, kind, arms.drop_last(), other.drop_last());
        assert(arms[arms.len() - 1].patterns@ == other[arms.len() - 1].patterns@);
    }
}

/// The underscore pattern, and what it makes unreachable, depend on nothing but the patterns and
/// expressions of the arms.
pub(crate) proof fn lemma_same_underscore(
    m: &SemanticModel,
    kind: MatchKind,
    arms: Seq<MatchArmWrapper>,
    other: Seq<MatchArmWrapper>,
)
    requires
        same_arms(arms, other),
        arms.len() <= usize::MAX,
    ensures
        first_taking_all(m, arms) == first_taking_all(m, other),
        underscore_path(m, arms) == underscore_path(m, other),
        unreachable_after_underscore(m, kind, arms) == unreachable_after_underscore(m, kind, other),
{
    lemma_same_first_taking_all(m, arms, other);
    lemma_first_taking_all(m, arms);
    let n = first_taking_all(m, arms) as int;
    if n < arms.len() {
        assert(arms[n].patterns@ == other[n].patterns@);
        lemma_same_parts(arms, other, n + 1, arms.len() as int);
        lemma_same_unreachable_arms(m, kind, arms.skip(n + 1), other.skip(n + 1));
    }
}

/// The position of the first `_` among `patterns`, if there is one.
pub(crate) fn otherwise_position(m: &SemanticModel, patterns: &Vec<PatternId>) -> (r: Option<usize>)
    requires
        forall|j: int| 0 <= j < patterns@.len() ==> m.has_pattern(#[trigger] patterns@[j]),
    ensures
        match r {
            Some(j) => j < patterns@.len() && j == first_otherwise(m, patterns@) && m.kind(
                patterns@[j as int],
            ) is Otherwise,
            None => first_otherwise(m, patterns@) == patterns@.len(),
        },
{
    for j in 0..patterns.len()
        invariant
            forall|k: int| 0 <= k < patterns@.len() ==> m.has_pattern(#[trigger] patterns@[k]),
            forall|k: int| 0 <= k < j ==> !(m.kind(#[trigger] patterns@[k]) is Otherwise),
    {
        if let PatternKind::Otherwise = m.patterns[patterns[j].0].kind {
            proof {
                lemma_first_otherwise(m, patterns@);
            }
            return Some(j);
        }
    }
    proof {
        lemma_first_otherwise(m, patterns@);
    }
    None
}

/// Reports the patterns from position `from` on as unreachable.
fn report_unreachable_patterns(
    ctx: &mut LoweringContext,
    patterns: &Vec<PatternId>,
    from: usize,
    match_type: MatchKind,
)
    requires
        from <= patterns@.len(),
        forall|j: int|
            0 <= j < patterns@.len() ==> old(ctx).semantic.has_pattern(#[trigger] patterns@[j]),
    ensures
        old(ctx).reports(
            final(ctx),
            unreachable_patterns(&old(ctx).semantic, match_type, patterns@.skip(from as int)),
        ),
{
    let ghost m = ctx.semantic;
    assert(patterns@.subrange(from as int, from as int) =~= seq![]);
    assert(ctx.reported() =~= old(ctx).reported() + unreachable_patterns(
        &m,
        match_type,
        patterns@.subrange(from as int, from as int),
    ));
    for j in from..patterns.len()
        invariant
            from <= patterns@.len(),
            m == old(ctx).semantic,
            forall|k: int| 0 <= k < patterns@.len() ==> m.has_pattern(#[trigger] patterns@[k]),
            old(ctx).reports(
                ctx,
                unreachable_patterns(&m, match_type, patterns@.subrange(from as int, j as int)),
            ),
    {
        let ghost done = unreachable_patterns(
            &m,
            match_type,
            patterns@.subrange(from as int, j as int),
        );
        let pattern_ptr = ctx.semantic.patterns[patterns[j].0].stable_ptr;
        ctx.report_match_error(pattern_ptr, match_type, MatchDiagnostic::UnreachableMatchArm);
        proof {
            assert(unreachable_patterns(&m, match_type, patterns@.subrange(from as int, j + 1))
                =~= done + seq![
                match_error_at(pattern_ptr, match_type, MatchDiagnostic::UnreachableMatchArm),
            ]);
            assert(ctx.reported() =~= old(ctx).reported() + unreachable_patterns(
                &m,
                match_type,
                patterns@.subrange(from as int, j + 1),
            ));
        }
    }
    assert(patterns@.subrange(from as int, patterns@.len() as int) =~= patterns@.skip(from as int));
}

/// Returns an option containing the PatternPath of the underscore pattern, if it exists. What it
/// makes unreachable is reported.
pub fn get_underscore_pattern_path_and_mark_unreachable(
    ctx: &mut LoweringContext,
    arms: &[MatchArmWrapper],
    match_type: MatchKind,
) -> (r: Option<PatternPath>)
    requires
        arms_wf(&old(ctx).semantic, arms@),
    ensures
        r == underscore_path(&old(ctx).semantic, arms@),
        r matches Some(path) ==> {
            &&& path.leads_into(arms@)
            &&& path.pattern(arms@) matches Some(p) ==> old(ctx).semantic.kind(p) is Otherwise
        },
        old(ctx).reports(
            final(ctx),
            unreachable_after_underscore(&old(ctx).semantic, match_type, arms@),
        ),
{
    let ghost m = ctx.semantic;
    let mut otherwise_variant: Option<PatternPath> = None;
    let mut arm_index: usize = 0;
    while arm_index < arms.len()
        invariant_except_break
            otherwise_variant is None,
        invariant
            ctx.semantic == m,
            *ctx == *old(ctx),
            arms_wf(&m, arms@),
            arm_index <= arms@.len(),
            forall|i: int| 0 <= i < arm_index ==> !takes_all(&m, #[trigger] arms@[i]),
        ensures
            match otherwise_variant {
                None => arm_index == arms@.len(),
                Some(path) => {
                    &&& arm_index < arms@.len()
                    &&& path.arm_index == arm_index
                    &&& takes_all(&m, arms@[arm_index as int])
                    &&& path.leads_into(arms@)
                    &&& path.pattern_index matches Some(j) ==> j == first_otherwise(
                        &m,
                        arms@[arm_index as int].patterns@,
                    )
                    &&& path.pattern(arms@) matches Some(p) ==> m.kind(p) is Otherwise
                },
            },
        decreases arms@.len() - arm_index,
    {
        let arm = &arms[arm_index];
        assert(arm.wf(&m));
        if arm.patterns.is_empty() {
            // Special path for if-let else clause where no patterns exist.
            otherwise_variant = Some(PatternPath { arm_index, pattern_index: None });
            break;
        }
        if let Some(position) = otherwise_position(&ctx.semantic, &arm.patterns) {
            otherwise_variant = Some(PatternPath { arm_index, pattern_index: Some(position) });
            break;
        }
        arm_index = arm_index + 1;
    }
    proof {
        lemma_first_taking_all(&m, arms@);
    }
    let path = match otherwise_variant {
        None => {
            assert(ctx.reported() =~= old(ctx).reported() + seq![]);
            return None;
        },
        Some(path) => path,
    };

    let from = arm_index + 1;
    assert(arms@.subrange(from as int, from as int) =~= seq![]);
    assert(ctx.reported() =~= old(ctx).reported() + unreachable_arms(
        &m,
        match_type,
        arms@.subrange(from as int, from as int),
    ));
    for i in from..arms.len()
        invariant
            from <= arms@.len(),
            m == old(ctx).semantic,
            arms_wf(&m, arms@),
            old(ctx).reports(
                ctx,
                unreachable_arms(&m, match_type, arms@.subrange(from as int, i as int)),
            ),
    {
        let arm = &arms[i];
        assert(arm.wf(&m));
        let ghost done = unreachable_arms(&m, match_type, arms@.subrange(from as int, i as int));
        let ghost before = ctx.reported();
        if arm.patterns.is_empty() {
            if let Some(expr) = arm.expr {
                let expr_ptr = ctx.semantic.exprs[expr.0].stable_ptr;
                ctx.report_match_error(expr_ptr, match_type, MatchDiagnostic::UnreachableMatchArm);
            }
        }
        report_unreachable_patterns(ctx, &arm.patterns, 0, match_type);
        proof {
            assert(arm.patterns@.skip(0) =~= arm.patterns@);
            assert(ctx.reported() =~= before + unreachable_arm(&m, match_type, arms@[i as int]));
            let next = arms@.subrange(from as int, i + 1);
            assert(next.drop_last() =~= arms@.subrange(from as int, i as int));
            assert(next.last() == arms@[i as int]);
            assert(ctx.reported() =~= old(ctx).reported() + unreachable_arms(&m, match_type, next));
        }
    }
    assert(arms@.subrange(from as int, arms@.len() as int) =~= arms@.skip(from as int));

    let ghost before = ctx.reported();
    let otherwise_arm = &arms[arm_index];
    assert(otherwise_arm.wf(&m));
    if let Some(position) = path.pattern_index {
        assert(position < otherwise_arm.patterns.len());
        report_unreachable_patterns(ctx, &otherwise_arm.patterns, position + 1, match_type);
    }
    assert(ctx.reported() =~= old(ctx).reported() + unreachable_after_underscore(
        &m,
        match_type,
        arms@,
    ));
    Some(path)
}

/// Whether `arm` has no pattern, or a `_` among its patterns.
pub open spec fn is_catch_all(m: &SemanticModel, arm: MatchArmWrapper) -> bool {
    arm.patterns@.len() == 0 || exists|j: int|
        0 <= j < arm.patterns@.len() && m.kind(#[trigger] arm.patterns@[j]) is Otherwise
}

proof fn lemma_catch_all(m: &SemanticModel, arm: MatchArmWrapper)
    ensures
        takes_all(m, arm) <==> is_catch_all(m, arm),
{
    lemma_first_otherwise(m, arm.patterns@);
    if takes_all(m, arm) && arm.patterns@.len() > 0 {
        assert(m.kind(arm.patterns@[first_otherwise(m, arm.patterns@) as int]) is Otherwise);
    }
}

/// The underscore pattern is in the first arm that has a `_` or no pattern: it is the first `_` there,
/// where the arm has patterns. There is none where no arm has a `_` and each has a pattern.
pub proof fn law_the_underscore_is_the_first_catch_all(m: &SemanticModel, arms: Seq<MatchArmWrapper>)
    requires
        arms.len() <= usize::MAX,
    ensures
        match underscore_path(m, arms) {
            None => forall|i: int| 0 <= i < arms.len() ==> !is_catch_all(m, #[trigger] arms[i]),
            Some(path) => {
                let a = path.arm_index as int;
                &&& a < arms.len()
                &&& is_catch_all(m, arms[a])
                &&& forall|i: int| 0 <= i < a ==> !is_catch_all(m, #[trigger] arms[i])
                &&& match path.pattern_index {
                    None => arms[a].patterns@.len() == 0,
                    Some(j) => {
                        &&& j < arms[a].patterns@.len()
                        &&& m.kind(arms[a].patterns@[j as int]) is Otherwise
                        &&& forall|k: int|
                            0 <= k < j ==> !(m.kind(#[trigger] arms[a].patterns@[k]) is Otherwise)
                    },
                }
            },
        },
{
    lemma_first_taking_all(m, arms);
    let n = first_taking_all(m, arms) as int;
    assert forall|i: int| 0 <= i < arms.len() implies (takes_all(m, #[trigger] arms[i])
        <==> is_catch_all(m, arms[i])) by {
        lemma_catch_all(m, arms[i]);
    }
    if n < arms.len() {
        assert(takes_all(m, arms[n]));
        lemma_first_otherwise(m, arms[n].patterns@);
        assert(arms[n].patterns@.len() == arms[n].patterns.len());
    }
}

/// Where each of `patterns` is written.
pub open spec fn pattern_ptrs(m: &SemanticModel, patterns: Seq<PatternId>) -> Seq<SyntaxStablePtrId> {
    patterns.map_values(|p: PatternId| m.pattern_ptr(p))
}

/// Where an arm that cannot be reached is reported: at each of its patterns, or at its expression where
/// it has no pattern.
pub open spec fn arm_ptrs(m: &SemanticModel, arm: MatchArmWrapper) -> Seq<SyntaxStablePtrId> {
    if arm.patterns@.len() > 0 {
        pattern_ptrs(m, arm.patterns@)
    } else {
        match arm.expr {
            Some(expr) => seq![m.exprs@[expr.0 as int].stable_ptr],
            None => seq![],
        }
    }
}

/// Where `reports` point.
pub open spec fn ptrs_of(reports: Seq<Report>) -> Seq<SyntaxStablePtrId> {
    reports.map_values(|report: Report| report.location.0.0)
}

/// All of `reports` say that an arm cannot be reached.
pub open spec fn all_unreachable(reports: Seq<Report>, kind: MatchKind) -> bool {
    forall|i: int|
        0 <= i < reports.len() ==> ((#[trigger] reports[i]).kind matches LoweringDiagnosticKind::MatchError(
            reported,
        ) && reported.kind == kind && reported.error
            == MatchDiagnostic::<Seq<char>>::UnreachableMatchArm)
}

proof fn lemma_unreachable_arms(m: &SemanticModel, kind: MatchKind, arms: Seq<MatchArmWrapper>)
    ensures
        all_unreachable(unreachable_arms(m, kind, arms), kind),
        ptrs_of(unreachable_arms(m, kind, arms)) == arms.map_values(
            |arm: MatchArmWrapper| arm_ptrs(m, arm),
        ).flatten(),
    decreases arms.len(),
{
    if arms.len() > 0 {
        let before = arms.drop_last();
        lemma_unreachable_arms(m, kind, before);
        let lists = before.map_values(|arm: MatchArmWrapper| arm_ptrs(m, arm));
        lists.lemma_flatten_push(arm_ptrs(m, arms.last()));
        assert(arms.map_values(|arm: MatchArmWrapper| arm_ptrs(m, arm)) =~= lists.push(
            arm_ptrs(m, arms.last()),
        ));
        let last = unreachable_arm(m, kind, arms.last());
        assert(ptrs_of(last) =~= arm_ptrs(m, arms.last()));
        assert(ptrs_of(unreachable_arms(m, kind, arms)) =~= ptrs_of(
            unreachable_arms(m, kind, before),
        ) + ptrs_of(last));
    }
}

/// What comes after the underscore pattern is reported as unreachable, and nothing else: first the arms
/// after its arm, each at its patterns or, where it has none, at its expression; then the patterns after
/// it in its own arm.
pub proof fn law_all_after_the_underscore_is_unreachable(
    m: &SemanticModel,
    kind: MatchKind,
    arms: Seq<MatchArmWrapper>,
)
    requires
        arms.len() <= usize::MAX,
    ensures
        all_unreachable(unreachable_after_underscore(m, kind, arms), kind),
        ptrs_of(unreachable_after_underscore(m, kind, arms)) == match underscore_path(m, arms) {
            None => seq![],
            Some(path) => {
                let a = path.arm_index as int;
                arms.skip(a + 1).map_values(|arm: MatchArmWrapper| arm_ptrs(m, arm)).flatten() + (
                match path.pattern_index {
                    None => seq![],
                    Some(j) => pattern_ptrs(m, arms[a].patterns@.skip(j + 1)),
                })
            },
        },
{
    if let Some(path) = underscore_path(m, arms) {
        let a = path.arm_index as int;
        let rest = arms.skip(a + 1);
        lemma_unreachable_arms(m, kind, rest);
        let of_arms = unreachable_arms(m, kind, rest);
        let all = unreachable_after_underscore(m, kind, arms);
        if let Some(j) = path.pattern_index {
            let own = unreachable_patterns(m, kind, arms[a].patterns@.skip(j + 1));
            assert(ptrs_of(own) =~= pattern_ptrs(m, arms[a].patterns@.skip(j + 1)));
            assert(all =~= of_arms + own);
            assert(ptrs_of(all) =~= ptrs_of(of_arms) + ptrs_of(own));
        } else {
            assert(all =~= of_arms);
            assert(ptrs_of(all) =~= ptrs_of(of_arms) + Seq::<SyntaxStablePtrId>::empty());
        }
    } else {
        assert(ptrs_of(unreachable_after_underscore(m, kind, arms)) =~= seq![]);
    }
}

} // verus!

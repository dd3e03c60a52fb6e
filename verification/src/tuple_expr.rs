//! Match expressions on a tuple of enums.
use vstd::prelude::*;
use vstd::slice::slice_subrange;

use crate::adapters::zip_eq;
use crate::context::{failed, LoweringContext, LoweringFlowError, LoweringResult};
use crate::diagnostic::{LocationId, MatchKind};
use crate::enum_match::{is_known_enum, patterns_of_arm, EnumDetails, ExtractedEnumDetails};
use crate::lowered::{MatchEnumInfo, MatchInfo, VarRequest, VarType, VarUsage};
use crate::match_arms::{
    arms_wf, first_otherwise, first_taking_all, get_underscore_pattern_path_and_mark_unreachable,
    lemma_first_otherwise, lemma_first_taking_all, lemma_same_parts, lemma_same_underscore,
    otherwise_position, same_arms, takes_all, underscore_path, unreachable_after_underscore,
    MatchArmWrapper, PatternPath,
};
use crate::match_groups::{
    all_have_arms, are_groups, bodies_are_blocks, group_match_arms, leaf_builders, leaves_fit,
    leaves_reports, ArmGroup, LoweredLeaf, MatchLeafBuilder, Target,
};
use crate::semantic::{
    ConcreteVariant, ExprId, PatternId, PatternKind, SemanticModel, TypeId, TypeLongId,
};
use crate::tuple_match::{
    details_of, enum_details, extract_concrete_enum_tuple, fields_take, fields_within,
    first_unknown_enum, get_variants_to_arm_map_tuple, lemma_first_unknown_enum,
    lemma_mapping_failure_is_final, lemma_next_of_arm, lemma_patterns_before_otherwise,
    mapping_of_all, pattern_within, patterns_before_otherwise, patterns_within, tuple_details,
    tuple_extraction_reports, unsupported_field, TupleMapping,
};
use crate::tuple_tree::{
    bindable, details_wf, lower_full_match_tree, lower_tuple_match_arm, paths_of, Decision,
    DecisionBranch, DecisionTree, LoweringMatchTupleContext, TupleSelection,
};
use crate::variants_map::MatchingPath;

verus! {

/// The types and number of snapshots of a tuple expression in a match statement.
#[derive(PartialEq, Eq, Debug)]
pub struct TupleInfo {
    pub n_snapshots: usize,
    pub types: Vec<TypeId>,
}

impl TupleInfo {
    /// The types of the fields exist.
    pub open spec fn wf(&self, m: &SemanticModel) -> bool {
        forall|i: int| 0 <= i < self.types@.len() ==> m.db.has_type(#[trigger] self.types@[i])
    }

    /// The variables that the tuple is destructured into: one of the type of each field, under the
    /// snapshots of the tuple.
    pub fn field_requests(&self, location: LocationId) -> (r: Vec<VarRequest>)
        ensures
            r@ == self.types@.map_values(
                |ty: TypeId|
                    VarRequest {
                        ty: VarType::Snapshots { ty, n_snapshots: self.n_snapshots },
                        location,
                    },
            ),
    {
        let mut requests: Vec<VarRequest> = Vec::new();
        for i in 0..self.types.len()
            invariant
                requests@ == self.types@.take(i as int).map_values(
                    |ty: TypeId|
                        VarRequest {
                            ty: VarType::Snapshots { ty, n_snapshots: self.n_snapshots },
                            location,
                        },
                ),
        {
            requests.push(
                VarRequest {
                    ty: VarType::Snapshots { ty: self.types[i], n_snapshots: self.n_snapshots },
                    location,
                },
            );
        }
        assert(self.types@.take(self.types@.len() as int) =~= self.types@);
        requests
    }
}

/// Whether `pattern` is a pattern on a tuple that takes `variants`.
pub open spec fn takes_tuple(
    m: &SemanticModel,
    pattern: PatternId,
    details: Seq<EnumDetails>,
    variants: Seq<ConcreteVariant>,
) -> bool {
    m.kind(pattern) matches PatternKind::Tuple(fields) && fields_take(
        m,
        fields@,
        details,
        variants,
        0,
    )
}

/// The path of the first of `patterns` that takes `variants`.
pub open spec fn first_taking_tuple(
    m: &SemanticModel,
    patterns: Seq<(PatternPath, PatternId)>,
    details: Seq<EnumDetails>,
    variants: Seq<ConcreteVariant>,
) -> Option<PatternPath>
    decreases patterns.len(),
{
    if patterns.len() == 0 {
        None
    } else if first_taking_tuple(m, patterns.drop_last(), details, variants) is Some {
        first_taking_tuple(m, patterns.drop_last(), details, variants)
    } else if takes_tuple(m, patterns.last().1, details, variants) {
        Some(patterns.last().0)
    } else {
        None
    }
}

/// The entry of `variants`, if it has one.
pub open spec fn entry(
    map: Map<Seq<ConcreteVariant>, PatternPath>,
    variants: Seq<ConcreteVariant>,
) -> Option<PatternPath> {
    if map.dom().contains(variants) {
        Some(map[variants])
    } else {
        None
    }
}

/// The first pattern wins: of patterns on a tuple that can all be collected, each list of variants
/// gets the first one that takes it.
pub proof fn law_first_tuple_pattern_wins(
    m: &SemanticModel,
    match_type: MatchKind,
    patterns: Seq<(PatternPath, PatternId)>,
    details: Seq<EnumDetails>,
    variants: Seq<ConcreteVariant>,
)
    requires
        mapping_of_all(m, match_type, patterns, details).result is Ok,
    ensures
        entry(mapping_of_all(m, match_type, patterns, details).map, variants) == first_taking_tuple(
            m,
            patterns,
            details,
            variants,
        ),
    decreases patterns.len(),
{
    if patterns.len() > 0 {
        law_first_tuple_pattern_wins(m, match_type, patterns.drop_last(), details, variants);
        assert(Seq::<ConcreteVariant>::empty().is_prefix_of(variants));
    }
}

/// What the first of `patterns` that takes `variants` is.
pub(crate) proof fn lemma_first_taking_tuple(
    m: &SemanticModel,
    patterns: Seq<(PatternPath, PatternId)>,
    details: Seq<EnumDetails>,
    variants: Seq<ConcreteVariant>,
) -> (k: int)
    ensures
        match first_taking_tuple(m, patterns, details, variants) {
            Some(path) => 0 <= k < patterns.len() && patterns[k].0 == path && takes_tuple(
                m,
                patterns[k].1,
                details,
                variants,
            ),
            None => k == patterns.len(),
        },
        forall|j: int|
            0 <= j < k ==> !takes_tuple(m, (#[trigger] patterns[j]).1, details, variants),
    decreases patterns.len(),
{
    if patterns.len() == 0 {
        0
    } else {
        let before = patterns.drop_last();
        let k = lemma_first_taking_tuple(m, before, details, variants);
        assert(forall|j: int| 0 <= j < before.len() ==> #[trigger] patterns[j] == before[j]);
        if k < before.len() {
            k
        } else if takes_tuple(m, patterns.last().1, details, variants) {
            patterns.len() - 1
        } else {
            patterns.len() as int
        }
    }
}

/// The patterns of `arms` come in the order of their arms, and the path of each leads to it. Where
/// no pattern of an arm is `_`, all its patterns come.
pub(crate) proof fn lemma_patterns(m: &SemanticModel, arms: Seq<MatchArmWrapper>, all: Seq<MatchArmWrapper>)
    requires
        arms_wf(m, all),
        arms.len() <= all.len() <= usize::MAX,
        arms =~= all.take(arms.len() as int),
    ensures
        forall|k: int|
            0 <= k < patterns_before_otherwise(m, arms).len() ==> {
                let (path, pattern) = #[trigger] patterns_before_otherwise(m, arms)[k];
                &&& path.arm_index < arms.len()
                &&& path.leads_into(all)
                &&& path.pattern(all) == Some(pattern)
                &&& m.has_pattern(pattern)
            },
        forall|j: int, k: int|
            0 <= j <= k < patterns_before_otherwise(m, arms).len() ==> (
            #[trigger] patterns_before_otherwise(m, arms)[j]).0.arm_index <= (
            #[trigger] patterns_before_otherwise(m, arms)[k]).0.arm_index,
        forall|i: int, j: int|
            0 <= i < arms.len() && 0 <= j < first_otherwise(m, arms[i].patterns@) ==> exists|k: int|
                0 <= k < patterns_before_otherwise(m, arms).len()
                    && #[trigger] patterns_before_otherwise(m, arms)[k] == (
                    PatternPath { arm_index: i as usize, pattern_index: Some(j as usize) },
                    #[trigger] arms[i].patterns@[j],
                ),
    decreases arms.len(),
{
    if arms.len() > 0 {
        let before = arms.drop_last();
        lemma_patterns(m, before, all);
        let n = arms.len() - 1;
        let arm = arms.last();
        assert(arm == all[n]);
        assert(arm.wf(m));
        assert(arm.patterns@.len() == arm.patterns.len());
        lemma_first_otherwise(m, arm.patterns@);
        let end = first_otherwise(m, arm.patterns@) as int;
        let of_arm = patterns_of_arm(arm, n as nat).take(end);
        let done = patterns_before_otherwise(m, before);
        let now = patterns_before_otherwise(m, arms);
        assert(now == done + of_arm);
        assert forall|k: int| 0 <= k < now.len() implies {
            let (path, pattern) = #[trigger] now[k];
            &&& path.arm_index < arms.len()
            &&& path.leads_into(all)
            &&& path.pattern(all) == Some(pattern)
            &&& m.has_pattern(pattern)
            &&& k < done.len() ==> path.arm_index < n
            &&& k >= done.len() ==> path.arm_index == n
        } by {
            if k < done.len() {
                assert(now[k] == done[k]);
            } else {
                assert(now[k] == of_arm[k - done.len()]);
                assert(m.has_pattern(arm.patterns@[k - done.len()]));
            }
        }
        assert forall|j: int, k: int| 0 <= j <= k < now.len() implies (
        #[trigger] now[j]).0.arm_index <= (#[trigger] now[k]).0.arm_index by {
            if k < done.len() {
                assert(now[j] == done[j]);
                assert(now[k] == done[k]);
            }
        }
        assert forall|i: int, j: int|
            0 <= i < arms.len() && 0 <= j < first_otherwise(m, arms[i].patterns@) implies exists|
            k: int,
        |
            0 <= k < now.len() && #[trigger] now[k] == (
                PatternPath { arm_index: i as usize, pattern_index: Some(j as usize) },
                #[trigger] arms[i].patterns@[j],
            ) by {
            if i < n {
                assert(before[i] == arms[i]);
                let k = choose|k: int|
                    0 <= k < done.len() && #[trigger] done[k] == (
                        PatternPath { arm_index: i as usize, pattern_index: Some(j as usize) },
                        before[i].patterns@[j],
                    );
                assert(now[k] == done[k]);
            } else {
                assert(now[done.len() + j] == of_arm[j]);
            }
        }
    }
}

/// How a match on a tuple is lowered.
#[derive(PartialEq, Eq, Debug)]
pub struct TupleMatch {
    pub tree: DecisionTree,
    /// What the leaves of the tree are chosen by.
    pub context: LoweringMatchTupleContext,
    /// The match that joined blocks are merged with: one on the first field, without arms.
    pub empty_match_info: MatchInfo,
}

impl TupleMatch {
    /// The context fits `arms`, and the variants of the leaves have names.
    pub open spec fn wf(&self, m: &SemanticModel, arms: Seq<MatchArmWrapper>) -> bool {
        &&& self.context.wf(m, arms)
        &&& all_paths_named(m, self.tree@.leaf_paths())
    }

    /// Where the leaves of the tree lead, from left to right.
    pub open spec fn targets(&self, m: &SemanticModel, arms: Seq<MatchArmWrapper>) -> Seq<Target> {
        self.tree@.leaf_paths().map_values(
            |variants: Seq<ConcreteVariant>| self.context@.target(m, arms, variants),
        )
    }
}

/// The variants of each path have names.
pub open spec fn all_paths_named(m: &SemanticModel, paths: Seq<Seq<ConcreteVariant>>) -> bool {
    forall|i: int| 0 <= i < paths.len() ==> m.db.all_named(#[trigger] paths[i])
}

/// What collecting the patterns of the arms before that of the underscore pattern leaves behind.
pub open spec fn tuple_mapping(
    m: &SemanticModel,
    match_type: MatchKind,
    arms: Seq<MatchArmWrapper>,
    details: Seq<EnumDetails>,
) -> TupleMapping {
    mapping_of_all(
        m,
        match_type,
        patterns_before_otherwise(m, arms.take(first_taking_all(m, arms) as int)),
        details,
    )
}

/// What the leaves of a match on a tuple are chosen by.
pub open spec fn tuple_selection(
    m: &SemanticModel,
    match_type: MatchKind,
    arms: Seq<MatchArmWrapper>,
    location: LocationId,
    n_snapshots: usize,
    types: Seq<TypeId>,
    inputs: Seq<VarUsage>,
) -> TupleSelection {
    TupleSelection {
        match_location: location,
        otherwise_variant: underscore_path(m, arms),
        variants_map: tuple_mapping(
            m,
            match_type,
            arms,
            tuple_details(m, types),
        ).map,
        match_inputs: inputs,
        n_snapshots_outer: n_snapshots,
    }
}

/// A collected pattern is a pattern on a tuple of patterns on variants and `_`.
proof fn lemma_entries_bindable(
    m: &SemanticModel,
    match_type: MatchKind,
    arms: Seq<MatchArmWrapper>,
    details: Seq<EnumDetails>,
)
    requires
        arms_wf(m, arms),
        arms.len() <= usize::MAX,
        tuple_mapping(m, match_type, arms, details).result is Ok,
    ensures
        forall|variants: Seq<ConcreteVariant>| #[trigger]
            tuple_mapping(m, match_type, arms, details).map.dom().contains(variants) ==> bindable(
                m,
                arms,
                tuple_mapping(m, match_type, arms, details).map[variants],
            ),
{
    lemma_first_taking_all(m, arms);
    let first_arms = arms.take(first_taking_all(m, arms) as int);
    let patterns = patterns_before_otherwise(m, first_arms);
    lemma_patterns(m, first_arms, arms);
    let map = tuple_mapping(m, match_type, arms, details).map;
    assert forall|variants: Seq<ConcreteVariant>| #[trigger]
        map.dom().contains(variants) implies bindable(m, arms, map[variants]) by {
        law_first_tuple_pattern_wins(m, match_type, patterns, details, variants);
        let k = lemma_first_taking_tuple(m, patterns, details, variants);
        let (path, pattern) = patterns[k];
        if let PatternKind::Tuple(fields) = m.kind(pattern) {
            assert forall|i: int| 0 <= i < fields@.len() implies (m.kind(
                #[trigger] fields@[i],
            ) is EnumVariant || m.kind(fields@[i]) is Otherwise) by {
                let variant = variants[i];
            }
        }
    }
}

/// What lowering a match on a tuple of enums leaves behind.
pub open spec fn tuple_match_outcome(
    before: LoweringContext,
    after: LoweringContext,
    match_inputs: LoweringResult<Vec<VarUsage>>,
    location: LocationId,
    matched_expr: ExprId,
    n_snapshots: usize,
    types: Seq<TypeId>,
    arms: Seq<MatchArmWrapper>,
    match_type: MatchKind,
    r: LoweringResult<TupleMatch>,
) -> bool {
    let m = &before.semantic;
    let details = tuple_details(m, types);
    let mapping = tuple_mapping(m, match_type, arms, details);
    let unreachable = unreachable_after_underscore(m, match_type, arms);
    if match_inputs is Err {
        &&& r == Err::<TupleMatch, _>(match_inputs->Err_0)
        &&& before.reports(&after, seq![])
    } else if first_unknown_enum(m, types) < types.len() {
        &&& r == failed::<TupleMatch>()
        &&& before.reports(
            &after,
            tuple_extraction_reports(
                m,
                m.exprs@[matched_expr.0 as int].stable_ptr,
                types,
                match_type,
            ),
        )
    } else if mapping.result is Err {
        &&& r == failed::<TupleMatch>()
        &&& before.reports(&after, unreachable + mapping.reports)
    } else {
        let inputs = match_inputs->Ok_0@;
        let selection = tuple_selection(
            m,
            match_type,
            arms,
            location,
            n_snapshots,
            types,
            inputs,
        );
        &&& r matches Ok(lowered)
        &&& lowered.wf(m, arms)
        &&& lowered.context@ == selection
        &&& lowered.tree@ == selection.decision(m, arms, details, seq![])
        &&& lowered.empty_match_info matches MatchInfo::Enum(info)
        &&& info.concrete_enum_id == details[0].concrete_enum_id
        &&& info.input == inputs[0]
        &&& info.arms@.len() == 0
        &&& info.location == location
        &&& before.reports(&after, unreachable + mapping.reports)
    }
}

/// The number of the variables that the fields of a tuple were lowered to.
pub open spec fn n_inputs(match_inputs: LoweringResult<Vec<VarUsage>>) -> Option<nat> {
    match match_inputs {
        Ok(inputs) => Some(inputs@.len()),
        Err(_) => None,
    }
}

/// Whether a match on a tuple is defined: each field that a pattern reaches is a field of the tuple,
/// and where all patterns can be collected, there are fields, and variables for them, and the
/// snapshots around the tuple and around its fields can be counted. A match whose fields could not be
/// lowered, or are no enums, fails before that.
pub open spec fn tuple_match_defined(
    m: &SemanticModel,
    match_type: MatchKind,
    n_inputs: Option<nat>,
    n_snapshots: nat,
    types: Seq<TypeId>,
    arms: Seq<MatchArmWrapper>,
) -> bool {
    let details = tuple_details(m, types);
    n_inputs is Some && first_unknown_enum(m, types) == types.len() ==> {
        &&& patterns_within(
            m,
            match_type,
            patterns_before_otherwise(m, arms.take(first_taking_all(m, arms) as int)),
            details,
        )
        &&& tuple_mapping(m, match_type, arms, details).result is Ok ==> {
            &&& 0 < types.len() <= n_inputs->0
            &&& forall|i: int|
                0 <= i < types.len() ==> m.db.peeled(#[trigger] types[i]).0 + n_snapshots
                    <= usize::MAX
        }
    }
}

/// The details of the enum under the snapshots around `ty`, where it is known.
fn known_enum_details(m: &SemanticModel, ty: TypeId) -> (r: Option<ExtractedEnumDetails>)
    requires
        m.wf(),
        m.db.has_type(ty),
    ensures
        r is Some <==> is_known_enum(m, ty),
        r matches Some(details) ==> details@ == enum_details(m, ty) && details.n_snapshots
            == m.db.peeled(ty).0,
{
    let (n_snapshots, long_ty) = m.db.peel_snapshots(ty);
    if let TypeLongId::Enum(concrete_enum_id) = &m.db.types[long_ty.0].long_id {
        if let Ok(variants) = m.db.concrete_enum_variants(*concrete_enum_id) {
            let concrete_variants = variants.clone();
            assert(concrete_variants@ =~= variants@);
            return Some(
                ExtractedEnumDetails {
                    concrete_enum_id: *concrete_enum_id,
                    concrete_variants,
                    n_snapshots,
                },
            );
        }
    }
    None
}

/// Whether the fields of a pattern on a tuple are supported. None where a field is reached that is no
/// field of the tuple.
fn fields_are_supported(
    m: &SemanticModel,
    fields: &Vec<PatternId>,
    extracted_enums_details: &Vec<ExtractedEnumDetails>,
) -> (r: Option<bool>)
    requires
        forall|i: int| 0 <= i < fields@.len() ==> m.has_pattern(#[trigger] fields@[i]),
    ensures
        r is Some <==> fields_within(m, fields@, details_of(extracted_enums_details@), 0),
        r matches Some(supported) ==> supported == (unsupported_field(
            m,
            fields@,
            details_of(extracted_enums_details@),
            0,
        ) is None),
{
    let ghost details = details_of(extracted_enums_details@);
    for index in 0..fields.len()
        invariant
            forall|i: int| 0 <= i < fields@.len() ==> m.has_pattern(#[trigger] fields@[i]),
            details == details_of(extracted_enums_details@),
            fields_within(m, fields@, details, 0) == fields_within(
                m,
                fields@,
                details,
                index as nat,
            ),
            unsupported_field(m, fields@, details, 0) == unsupported_field(
                m,
                fields@,
                details,
                index as nat,
            ),
    {
        let kind = &m.patterns[fields[index].0].kind;
        let is_in_tuple = index < extracted_enums_details.len();
        match kind {
            PatternKind::EnumVariant(enum_pattern) => {
                if !is_in_tuple {
                    return None;
                }
                if enum_pattern.variant.concrete_enum_id
                    != extracted_enums_details[index].concrete_enum_id {
                    return Some(false);
                }
            },
            PatternKind::Otherwise => {
                if !is_in_tuple {
                    return None;
                }
                if extracted_enums_details[index].concrete_variants.is_empty() {
                    return Some(true);
                }
            },
            _ => {
                return Some(false);
            },
        }
    }
    Some(true)
}

/// The position of the first arm that takes every value, or the number of arms where none does.
fn arm_taking_all(m: &SemanticModel, arms: &[MatchArmWrapper]) -> (r: usize)
    requires
        arms_wf(m, arms@),
    ensures
        r == first_taking_all(m, arms@),
        r <= arms@.len(),
{
    proof {
        lemma_first_taking_all(m, arms@);
        assert(arms@.len() == arms.len());
    }
    for arm_index in 0..arms.len()
        invariant
            arms_wf(m, arms@),
            forall|i: int| 0 <= i < arm_index ==> !takes_all(m, #[trigger] arms@[i]),
    {
        assert(arms@[arm_index as int].wf(m));
        if arms[arm_index].patterns.is_empty() || otherwise_position(
            m,
            &arms[arm_index].patterns,
        ).is_some() {
            proof {
                lemma_first_taking_all(m, arms@);
            }
            return arm_index;
        }
    }
    arms.len()
}

/// Whether the patterns of the arms can be collected. None where a field is reached that is no field
/// of the tuple.
fn patterns_are_supported(
    m: &SemanticModel,
    arms: &[MatchArmWrapper],
    extracted_enums_details: &Vec<ExtractedEnumDetails>,
    match_type: MatchKind,
) -> (r: Option<bool>)
    requires
        m.wf(),
        arms_wf(m, arms@),
    ensures
        ({
            let patterns = patterns_before_otherwise(m, arms@);
            let details = details_of(extracted_enums_details@);
            &&& r is Some <==> patterns_within(m, match_type, patterns, details)
            &&& r matches Some(supported) ==> supported == (mapping_of_all(
                m,
                match_type,
                patterns,
                details,
            ).result is Ok)
        }),
{
    let ghost details = details_of(extracted_enums_details@);
    let ghost all = patterns_before_otherwise(m, arms@);
    assert(arms@.take(0) =~= seq![]);
    for arm_index in 0..arms.len()
        invariant
            m.wf(),
            arms_wf(m, arms@),
            details == details_of(extracted_enums_details@),
            all == patterns_before_otherwise(m, arms@),
            collected_within(
                m,
                match_type,
                patterns_before_otherwise(m, arms@.take(arm_index as int)),
                details,
            ),
    {
        let arm = &arms[arm_index];
        assert(arm.wf(m));
        let n_patterns = match otherwise_position(m, &arm.patterns) {
            Some(position) => position,
            None => arm.patterns.len(),
        };
        let ghost before = patterns_before_otherwise(m, arms@.take(arm_index as int));
        let ghost of_arm = patterns_of_arm(*arm, arm_index as nat).take(n_patterns as int);
        let ghost more = lemma_patterns_before_otherwise(m, arms@, arm_index + 1);
        proof {
            assert(arms@.take(arm_index + 1).drop_last() =~= arms@.take(arm_index as int));
            assert(patterns_before_otherwise(m, arms@.take(arm_index + 1)) == before + of_arm);
            assert(before + of_arm.take(0) =~= before);
        }
        for pattern_index in 0..n_patterns
            invariant
                m.wf(),
                arm.wf(m),
                details == details_of(extracted_enums_details@),
                n_patterns <= arm.patterns@.len(),
                of_arm == patterns_of_arm(*arm, arm_index as nat).take(n_patterns as int),
                all == before + of_arm + more,
                all == patterns_before_otherwise(m, arms@),
                collected_within(
                    m,
                    match_type,
                    before + of_arm.take(pattern_index as int),
                    details,
                ),
        {
            let pattern = arm.patterns[pattern_index];
            let ghost done = before + of_arm.take(pattern_index as int);
            let ghost next = before + of_arm.take(pattern_index + 1);
            proof {
                assert(m.has_pattern(pattern));
                assert(m.pattern_wf(pattern.0 as int));
                lemma_next_of_arm(before, of_arm, more, pattern_index as int);
                assert(of_arm[pattern_index as int].1 == pattern);
            }
            let supported = match &m.patterns[pattern.0].kind {
                PatternKind::Tuple(fields) => fields_are_supported(
                    m,
                    fields,
                    extracted_enums_details,
                ),
                _ => Some(false),
            };
            match supported {
                None => {
                    assert(!pattern_within(m, all[done.len() as int].1, details));
                    return None;
                },
                Some(false) => {
                    proof {
                        lemma_read_patterns(m, match_type, all, next.len(), details);
                    }
                    return Some(false);
                },
                Some(true) => {
                    proof {
                        lemma_more_collected(m, match_type, next, details);
                    }
                },
            }
        }
        assert(of_arm.take(n_patterns as int) =~= of_arm);
    }
    assert(arms@.take(arms@.len() as int) =~= arms@);
    Some(true)
}

/// Whether the snapshots around a tuple and around its fields can be counted.
fn snapshots_are_countable(
    extracted_enums_details: &Vec<ExtractedEnumDetails>,
    n_snapshots: usize,
) -> (r: bool)
    ensures
        r <==> forall|k: int|
            0 <= k < extracted_enums_details@.len() ==> (
            #[trigger] extracted_enums_details@[k]).n_snapshots + n_snapshots <= usize::MAX,
{
    for i in 0..extracted_enums_details.len()
        invariant
            forall|k: int|
                0 <= k < i ==> (#[trigger] extracted_enums_details@[k]).n_snapshots + n_snapshots
                    <= usize::MAX,
    {
        if extracted_enums_details[i].n_snapshots.checked_add(n_snapshots).is_none() {
            return false;
        }
    }
    true
}

/// Whether a match on a tuple is defined, see [lower_expr_match_tuple]. `n_inputs` is the number of
/// the variables that its fields were lowered to.
pub fn tuple_match_is_defined(
    ctx: &LoweringContext,
    tuple_info: &TupleInfo,
    n_inputs: Option<usize>,
    arms: &[MatchArmWrapper],
    match_type: MatchKind,
) -> (r: bool)
    requires
        ctx.semantic.wf(),
        arms_wf(&ctx.semantic, arms@),
        tuple_info.wf(&ctx.semantic),
    ensures
        r == tuple_match_defined(
            &ctx.semantic,
            match_type,
            match n_inputs {
                Some(n) => Some(n as nat),
                None => None,
            },
            tuple_info.n_snapshots as nat,
            tuple_info.types@,
            arms@,
        ),
{
    let ghost m = ctx.semantic;
    let ghost types = tuple_info.types@;
    let n = match n_inputs {
        Some(n) => n,
        None => {
            return true;
        },
    };
    let mut extracted: Vec<ExtractedEnumDetails> = Vec::new();
    for i in 0..tuple_info.types.len()
        invariant
            m == ctx.semantic,
            m.wf(),
            types == tuple_info.types@,
            n_inputs == Some(n),
            forall|k: int| 0 <= k < types.len() ==> m.db.has_type(#[trigger] types[k]),
            forall|k: int| 0 <= k < i ==> is_known_enum(&m, #[trigger] types[k]),
            extracted@.len() == i,
            forall|k: int|
                0 <= k < i ==> (#[trigger] extracted@[k])@ == enum_details(&m, types[k])
                    && extracted@[k].n_snapshots == m.db.peeled(types[k]).0,
    {
        match known_enum_details(&ctx.semantic, tuple_info.types[i]) {
            Some(details) => {
                extracted.push(details);
            },
            None => {
                proof {
                    lemma_first_unknown_enum(&m, types, i as nat);
                }
                return true;
            },
        }
    }
    proof {
        lemma_first_unknown_enum(&m, types, types.len());
        assert(details_of(extracted@) =~= tuple_details(&m, types));
        assert(types.len() == tuple_info.types.len());
    }
    let n_arms = arm_taking_all(&ctx.semantic, arms);
    let first_arms = slice_subrange(arms, 0, n_arms);
    proof {
        assert(first_arms@ =~= arms@.take(n_arms as int));
        assert forall|i: int| 0 <= i < first_arms@.len() implies (#[trigger] first_arms@[i]).wf(
            &m,
        ) by {
            assert(first_arms@[i] == arms@[i]);
        }
    }
    proof {
        if forall|k: int|
            0 <= k < extracted@.len() ==> (#[trigger] extracted@[k]).n_snapshots
                + tuple_info.n_snapshots <= usize::MAX {
            assert forall|i: int| 0 <= i < types.len() implies m.db.peeled(#[trigger] types[i]).0
                + tuple_info.n_snapshots <= usize::MAX by {
                assert(extracted@[i].n_snapshots == m.db.peeled(types[i]).0);
            }
        } else {
            let k = choose|k: int|
                0 <= k < extracted@.len() && (#[trigger] extracted@[k]).n_snapshots
                    + tuple_info.n_snapshots > usize::MAX;
            assert(m.db.peeled(types[k]).0 + tuple_info.n_snapshots > usize::MAX);
        }
    }
    match patterns_are_supported(&ctx.semantic, first_arms, &extracted, match_type) {
        None => false,
        Some(false) => true,
        Some(true) => !tuple_info.types.is_empty() && tuple_info.types.len() <= n
            && snapshots_are_countable(&extracted, tuple_info.n_snapshots),
    }
}

/// All of `patterns` can be collected, and reach no field beyond those of the tuple.
spec fn collected_within(
    m: &SemanticModel,
    match_type: MatchKind,
    patterns: Seq<(PatternPath, PatternId)>,
    details: Seq<EnumDetails>,
) -> bool {
    &&& mapping_of_all(m, match_type, patterns, details).result is Ok
    &&& forall|k: int|
        0 <= k < patterns.len() ==> pattern_within(m, (#[trigger] patterns[k]).1, details)
}

proof fn lemma_more_collected(
    m: &SemanticModel,
    match_type: MatchKind,
    patterns: Seq<(PatternPath, PatternId)>,
    details: Seq<EnumDetails>,
)
    requires
        patterns.len() > 0,
        collected_within(m, match_type, patterns.drop_last(), details),
        mapping_of_all(m, match_type, patterns, details).result is Ok,
        pattern_within(m, patterns.last().1, details),
    ensures
        collected_within(m, match_type, patterns, details),
{
    assert forall|k: int| 0 <= k < patterns.len() implies pattern_within(
        m,
        (#[trigger] patterns[k]).1,
        details,
    ) by {
        if k < patterns.len() - 1 {
            assert(patterns.drop_last()[k] == patterns[k]);
        }
    }
}

/// Where the pattern before position `n` fails, those from there on are not read.
proof fn lemma_read_patterns(
    m: &SemanticModel,
    match_type: MatchKind,
    patterns: Seq<(PatternPath, PatternId)>,
    n: nat,
    details: Seq<EnumDetails>,
)
    requires
        0 < n <= patterns.len(),
        collected_within(m, match_type, patterns.take(n - 1), details),
        pattern_within(m, patterns[n - 1].1, details),
        mapping_of_all(m, match_type, patterns.take(n as int), details).result is Err,
    ensures
        patterns_within(m, match_type, patterns, details),
        mapping_of_all(m, match_type, patterns, details).result is Err,
{
    let read = patterns.take(n as int);
    assert(read + patterns.skip(n as int) =~= patterns);
    lemma_mapping_failure_is_final(m, match_type, read, patterns.skip(n as int), details);
    assert forall|k: int|
        0 <= k < patterns.len() && mapping_of_all(
            m,
            match_type,
            patterns.take(k),
            details,
        ).result is Ok implies pattern_within(m, (#[trigger] patterns[k]).1, details) by {
        if k < n - 1 {
            assert(patterns.take(n - 1)[k] == patterns[k]);
        } else if k >= n {
            let more = patterns.subrange(n as int, k);
            assert(read + more =~= patterns.take(k));
            lemma_mapping_failure_is_final(m, match_type, read, more, details);
        }
    }
}

/// Lowers an expression of type ExprMatch where the matched expression is a tuple of enums.
///
/// `match_inputs` is what came of lowering the fields of the tuple to variables. Each node of the
/// tree is lowered as a match on the enum of its field, and each leaf in the block of the last arm
/// that leads to it. Variants without a leaf are reported by [conclude_match_tuple], in their turn.
pub fn lower_expr_match_tuple(
    ctx: &mut LoweringContext,
    match_inputs: LoweringResult<Vec<VarUsage>>,
    location: LocationId,
    matched_expr: ExprId,
    tuple_info: &TupleInfo,
    arms: &[MatchArmWrapper],
    match_type: MatchKind,
) -> (r: LoweringResult<TupleMatch>)
    requires
        old(ctx).semantic.wf(),
        old(ctx).semantic.has_expr(matched_expr),
        tuple_info.wf(&old(ctx).semantic),
        arms_wf(&old(ctx).semantic, arms@),
        tuple_match_defined(
            &old(ctx).semantic,
            match_type,
            n_inputs(match_inputs),
            tuple_info.n_snapshots as nat,
            tuple_info.types@,
            arms@,
        ),
    ensures
        tuple_match_outcome(
            *old(ctx),
            *final(ctx),
            match_inputs,
            location,
            matched_expr,
            tuple_info.n_snapshots,
            tuple_info.types@,
            arms@,
            match_type,
            r,
        ),
{
    let ghost m = ctx.semantic;
    let ghost details = tuple_details(&m, tuple_info.types@);
    let inputs = match match_inputs {
        Ok(inputs) => inputs,
        Err(error) => {
            return Err(error);
        },
    };
    let ghost input_seq = inputs@;
    let expr_ptr = ctx.semantic.exprs[matched_expr.0].stable_ptr;
    let extracted_enums_details = match extract_concrete_enum_tuple(
        ctx,
        expr_ptr,
        tuple_info.types.as_slice(),
        match_type,
    ) {
        Ok(extracted) => extracted,
        Err(error) => {
            proof {
                lemma_first_unknown_enum_bound(&m, tuple_info.types@);
            }
            return Err(error);
        },
    };
    assert(extracted_enums_details@.len() == details_of(extracted_enums_details@).len());

    let otherwise_variant = get_underscore_pattern_path_and_mark_unreachable(
        ctx,
        arms,
        match_type,
    );

    proof {
        lemma_first_taking_all(&m, arms@);
        assert(arms@.len() == arms.len());
    }
    let n_arms = match otherwise_variant {
        Some(path) => path.arm_index,
        None => arms.len(),
    };
    let first_arms = slice_subrange(arms, 0, n_arms);
    proof {
        assert(first_arms@ =~= arms@.take(first_taking_all(&m, arms@) as int));
    }
    let variants_map = match get_variants_to_arm_map_tuple(
        ctx,
        first_arms,
        extracted_enums_details.as_slice(),
        match_type,
    ) {
        Ok(map) => map,
        Err(error) => {
            return Err(error);
        },
    };

    let empty_match_info = MatchInfo::Enum(
        MatchEnumInfo {
            concrete_enum_id: extracted_enums_details[0].concrete_enum_id,
            input: inputs[0],
            arms: Vec::new(),
            location,
        },
    );
    let match_tuple_ctx = LoweringMatchTupleContext {
        match_location: location,
        otherwise_variant,
        variants_map,
        match_inputs: inputs,
        n_snapshots_outer: tuple_info.n_snapshots,
    };
    let mut current_path = MatchingPath::new();
    proof {
        lemma_entries_bindable(&m, match_type, arms@, details);
        assert forall|variants: Seq<ConcreteVariant>| #[trigger]
            match_tuple_ctx@.selected(variants) matches Some(path) implies bindable(
            &m,
            arms@,
            match_tuple_ctx@.selected(variants)->0,
        ) by {}
        lemma_tuple_details_wf(&m, tuple_info);
    }
    let tree = lower_full_match_tree(
        ctx,
        arms,
        &match_tuple_ctx,
        extracted_enums_details.as_slice(),
        &mut current_path,
    );
    proof {
        lemma_leaf_paths_named(match_tuple_ctx@, &m, arms@, details, seq![]);
    }
    Ok(TupleMatch { tree, context: match_tuple_ctx, empty_match_info })
}

/// The patterns that are read of a match on a tuple depend on nothing but the patterns of its arms.
pub(crate) proof fn lemma_same_patterns(
    m: &SemanticModel,
    arms: Seq<MatchArmWrapper>,
    other: Seq<MatchArmWrapper>,
)
    requires
        same_arms(arms, other),
    ensures
        patterns_before_otherwise(m, arms) == patterns_before_otherwise(m, other),
    decreases arms.len(),
{
    if arms.len() > 0 {
        lemma_same_parts(arms, other, 0, arms.len() - 1);
        lemma_same_patterns(m, arms.drop_last(), other.drop_last());
        assert(arms[arms.len() - 1].patterns@ == other[arms.len() - 1].patterns@);
    }
}

/// The decision tree of a match on a tuple depends on nothing but the patterns of its arms.
proof fn lemma_same_decision(
    selection: TupleSelection,
    m: &SemanticModel,
    arms: Seq<MatchArmWrapper>,
    other: Seq<MatchArmWrapper>,
    details: Seq<EnumDetails>,
    path: Seq<ConcreteVariant>,
)
    requires
        same_arms(arms, other),
        selection.wf(m, arms),
    ensures
        selection.decision(m, arms, details, path) == selection.decision(m, other, details, path),
    decreases details.len() - path.len(),
{
    if path.len() >= details.len() {
        if let Some(selected) = selection.selected(path) {
            assert(bindable(m, arms, selected));
            assert(arms[selected.arm_index as int].patterns@
                == other[selected.arm_index as int].patterns@);
        }
    } else {
        let variants = details[path.len() as int].concrete_variants;
        assert forall|i: int| 0 <= i < variants.len() implies selection.decision(
            m,
            arms,
            details,
            path.push(#[trigger] variants[i]),
        ) == selection.decision(m, other, details, path.push(variants[i])) by {
            lemma_same_decision(selection, m, arms, other, details, path.push(variants[i]));
        }
        assert(selection.decision(m, arms, details, path)->arms =~= selection.decision(
            m,
            other,
            details,
            path,
        )->arms);
    }
}

/// What a match on a tuple leaves behind depends on nothing but the patterns and expressions of the
/// arms.
pub(crate) proof fn lemma_same_tuple_outcome(
    before: LoweringContext,
    after: LoweringContext,
    match_inputs: LoweringResult<Vec<VarUsage>>,
    location: LocationId,
    matched_expr: ExprId,
    n_snapshots: usize,
    types: Seq<TypeId>,
    arms: Seq<MatchArmWrapper>,
    other: Seq<MatchArmWrapper>,
    match_type: MatchKind,
    r: LoweringResult<TupleMatch>,
)
    requires
        same_arms(arms, other),
        arms.len() <= usize::MAX,
        tuple_match_outcome(
            before,
            after,
            match_inputs,
            location,
            matched_expr,
            n_snapshots,
            types,
            arms,
            match_type,
            r,
        ),
    ensures
        tuple_match_outcome(
            before,
            after,
            match_inputs,
            location,
            matched_expr,
            n_snapshots,
            types,
            other,
            match_type,
            r,
        ),
{
    let m = &before.semantic;
    let details = tuple_details(m, types);
    lemma_same_underscore(m, match_type, arms, other);
    lemma_first_taking_all(m, arms);
    let n = first_taking_all(m, arms) as int;
    lemma_same_parts(arms, other, 0, n);
    assert(arms.subrange(0, n) =~= arms.take(n));
    assert(other.subrange(0, n) =~= other.take(n));
    lemma_same_patterns(m, arms.take(n), other.take(n));
    if let Ok(lowered) = r {
        let selection = lowered.context@;
        lemma_same_decision(selection, m, arms, other, details, seq![]);
        assert forall|variants: Seq<ConcreteVariant>| #[trigger]
            selection.selected(variants) matches Some(path) implies bindable(
            m,
            other,
            selection.selected(variants)->0,
        ) by {
            let path = selection.selected(variants)->0;
            assert(bindable(m, arms, path));
            assert(arms[path.arm_index as int].patterns@ == other[path.arm_index as int].patterns@);
        }
    }
}

/// The variants of the leaves of a decision tree have names.
proof fn lemma_leaf_paths_named(
    selection: TupleSelection,
    m: &SemanticModel,
    arms: Seq<MatchArmWrapper>,
    details: Seq<EnumDetails>,
    path: Seq<ConcreteVariant>,
)
    requires
        m.db.all_named(path),
        forall|i: int|
            0 <= i < details.len() ==> m.db.all_named((#[trigger] details[i]).concrete_variants),
    ensures
        all_paths_named(m, selection.decision(m, arms, details, path).leaf_paths()),
    decreases details.len() - path.len(),
{
    let tree = selection.decision(m, arms, details, path);
    if path.len() < details.len() {
        let variants = details[path.len() as int].concrete_variants;
        let branches = tree->arms;
        assert(m.db.all_named(variants));
        assert forall|k: int| 0 <= k < branches.len() implies all_paths_named(
            m,
            (#[trigger] branches[k]).next.leaf_paths(),
        ) by {
            let longer = path.push(variants[k]);
            assert(m.db.all_named(longer));
            lemma_leaf_paths_named(selection, m, arms, details, longer);
        }
        lemma_branch_paths_named(m, branches, branches.len());
    }
}

proof fn lemma_branch_paths_named(m: &SemanticModel, branches: Seq<DecisionBranch>, n: nat)
    requires
        n <= branches.len(),
        forall|k: int|
            0 <= k < branches.len() ==> all_paths_named(
                m,
                (#[trigger] branches[k]).next.leaf_paths(),
            ),
    ensures
        all_paths_named(m, Decision::leaf_paths_of(branches, n)),
    decreases n,
{
    if n > 0 {
        lemma_branch_paths_named(m, branches, (n - 1) as nat);
        let before = Decision::leaf_paths_of(branches, (n - 1) as nat);
        let last = branches[n - 1].next.leaf_paths();
        let paths = Decision::leaf_paths_of(branches, n);
        assert forall|i: int| 0 <= i < paths.len() implies m.db.all_named(#[trigger] paths[i]) by {
            if i < before.len() {
                assert(paths[i] == before[i]);
            } else {
                assert(paths[i] == last[i - before.len()]);
            }
        }
    }
}

pub(crate) proof fn lemma_first_unknown_enum_bound(m: &SemanticModel, types: Seq<TypeId>)
    ensures
        first_unknown_enum(m, types) <= types.len(),
        forall|i: int|
            0 <= i < first_unknown_enum(m, types) ==> is_known_enum(m, #[trigger] types[i]),
    decreases types.len(),
{
    if types.len() > 0 && is_known_enum(m, types[0]) {
        let rest = types.drop_first();
        lemma_first_unknown_enum_bound(m, rest);
        assert forall|i: int| 0 <= i < first_unknown_enum(m, types) implies is_known_enum(
            m,
            #[trigger] types[i],
        ) by {
            if i > 0 {
                assert(types[i] == rest[i - 1]);
            }
        }
    }
}

proof fn lemma_tuple_details_wf(m: &SemanticModel, tuple_info: &TupleInfo)
    requires
        m.wf(),
        tuple_info.wf(m),
        first_unknown_enum(m, tuple_info.types@) == tuple_info.types@.len(),
        forall|i: int|
            0 <= i < tuple_info.types@.len() ==> m.db.peeled(#[trigger] tuple_info.types@[i]).0
                + tuple_info.n_snapshots <= usize::MAX,
    ensures
        details_wf(m, tuple_details(m, tuple_info.types@), tuple_info.n_snapshots),
{
    let types = tuple_info.types@;
    let details = tuple_details(m, types);
    lemma_first_unknown_enum_bound(m, types);
    assert forall|i: int| 0 <= i < details.len() implies (#[trigger] details[i]).n_snapshots
        + tuple_info.n_snapshots <= usize::MAX by {
        assert(m.db.has_type(types[i]));
    }
    assert forall|i: int| 0 <= i < details.len() implies m.db.all_named(
        (#[trigger] details[i]).concrete_variants,
    ) by {
        assert(is_known_enum(m, types[i]));
        assert(m.db.has_type(types[i]));
        m.db.lemma_peeled(types[i]);
        let variants = details[i].concrete_variants;
        assert forall|k: int| 0 <= k < variants.len() implies (#[trigger] variants[k]).id.0
            < m.db.variant_names@.len() by {
            m.db.lemma_variant(details[i].concrete_enum_id, k);
        }
    }
}

/// Concludes a match expression on a tuple, after the leaves of its tree were lowered, from left to
/// right: what was reported meanwhile is taken up leaf by leaf, with a report for each leaf without an
/// arm, and the leaves are grouped by their arms.
pub fn conclude_match_tuple(
    ctx: &mut LoweringContext,
    lowered: &TupleMatch,
    arms: &[MatchArmWrapper],
    leaves: Vec<Option<LoweredLeaf>>,
    match_type: MatchKind,
) -> (r: LoweringResult<Vec<ArmGroup>>)
    requires
        old(ctx).semantic.wf(),
        arms_wf(&old(ctx).semantic, arms@),
        lowered.wf(&old(ctx).semantic, arms@),
        leaves_fit(lowered.targets(&old(ctx).semantic, arms@), leaves@),
        // While Let expression should be a block.
        match_type is WhileLet && all_have_arms(lowered.targets(&old(ctx).semantic, arms@))
            ==> bodies_are_blocks(
            &old(ctx).semantic,
            arms@,
            leaf_builders(lowered.targets(&old(ctx).semantic, arms@), leaves@),
        ),
    ensures
        ({
            let targets = lowered.targets(&old(ctx).semantic, arms@);
            &&& old(ctx).reports(final(ctx), leaves_reports(targets, leaves@, match_type))
            &&& if all_have_arms(targets) {
                &&& r matches Ok(groups)
                &&& are_groups(
                    groups@,
                    &old(ctx).semantic,
                    &lowered.empty_match_info,
                    lowered.context.match_location,
                    arms@,
                    match_type,
                    leaf_builders(targets, leaves@),
                )
            } else {
                r == failed::<Vec<ArmGroup>>()
            }
        }),
{
    let ghost m = ctx.semantic;
    let ghost targets = lowered.targets(&m, arms@);
    let ghost variants = lowered.tree@.leaf_paths();
    let ghost n = targets.len();
    let mut paths: Vec<MatchingPath> = Vec::new();
    lowered.tree.collect_leaf_paths(&mut paths);
    assert(paths_of(paths@) =~= variants);
    let zipped = zip_eq(paths, leaves);
    let mut builders: Vec<MatchLeafBuilder> = Vec::new();
    let mut error: Option<LoweringFlowError> = None;
    assert(targets.take(0) =~= seq![]);
    for item in iter: zipped
        invariant
            m == ctx.semantic,
            m.wf(),
            arms_wf(&m, arms@),
            lowered.wf(&m, arms@),
            targets == lowered.targets(&m, arms@),
            variants == lowered.tree@.leaf_paths(),
            variants == paths_of(paths@),
            n == targets.len(),
            leaves_fit(targets, leaves@),
            iter.seq() == Seq::new(n, |i: int| (paths@[i], leaves@[i])),
            old(ctx).reports(
                ctx,
                leaves_reports(targets.take(iter.index() as int), leaves@, match_type),
            ),
            error is None <==> all_have_arms(targets.take(iter.index() as int)),
            error matches Some(error) ==> error == failed::<()>()->Err_0,
            error is None ==> builders@ == leaf_builders(
                targets.take(iter.index() as int),
                leaves@,
            ),
    {
        let ghost i = iter.index() as int;
        let (path, leaf) = item;
        proof {
            assert(path == paths@[i]);
            assert(variants[i] == path@);
            assert(m.db.all_named(variants[i]));
            assert(targets[i] == lowered.context@.target(&m, arms@, path@));
            assert(targets.take(i + 1).drop_last() =~= targets.take(i));
            assert(targets.take(i + 1).last() == targets[i]);
        }
        let result = lower_tuple_match_arm(
            ctx,
            arms,
            &lowered.context,
            &path,
            leaf,
            &mut builders,
            match_type,
        );
        if let Err(flow_error) = result {
            error = Some(flow_error);
        }
        proof {
            if all_have_arms(targets.take(i + 1)) {
                assert(targets.take(i + 1)[i] is Arm);
                assert forall|k: int| 0 <= k < i implies (#[trigger] targets.take(i)[k]) is Arm by {
                    assert(targets.take(i + 1)[k] is Arm);
                }
                assert(leaf_builders(targets.take(i + 1), leaves@) =~= leaf_builders(
                    targets.take(i),
                    leaves@,
                ).push(leaves@[i]->0.builder(targets[i]->Arm_0)));
            } else if all_have_arms(targets.take(i)) {
                assert forall|k: int| 0 <= k < i + 1 && targets[i] is Arm implies (
                #[trigger] targets.take(i + 1)[k]) is Arm by {
                    if k < i {
                        assert(targets.take(i)[k] is Arm);
                    }
                }
            }
        }
    }
    assert(targets.take(n as int) =~= targets);
    if let Some(error) = error {
        return Err(error);
    }
    proof {
        assert forall|i: int| 0 <= i < builders@.len() implies (
        #[trigger] builders@[i]).arm_index < arms@.len() by {
            assert(targets[i] is Arm);
            assert(targets[i] == lowered.context@.target(&m, arms@, variants[i]));
            if let Some(selected) = lowered.context@.selected(variants[i]) {
                assert(bindable(&m, arms@, selected));
            }
        }
    }
    Ok(
        group_match_arms(
            ctx,
            &lowered.empty_match_info,
            lowered.context.match_location,
            arms,
            builders,
            match_type,
        ),
    )
}

/// Whether `variants` are variants of the enums of the tuple, one for each field.
pub open spec fn is_tuple_of(details: Seq<EnumDetails>, variants: Seq<ConcreteVariant>) -> bool {
    &&& variants.len() == details.len()
    &&& forall|i: int|
        0 <= i < variants.len() ==> (#[trigger] variants[i]).idx
            < details[i].concrete_variants.len() && details[i].concrete_variants[variants[i].idx as int]
            == variants[i]
}

/// The decision tree of a match on a tuple leads every list of variants to the leaf that is chosen
/// for it.
pub proof fn law_decision_tree_reaches_the_chosen_leaf(
    selection: TupleSelection,
    m: &SemanticModel,
    arms: Seq<MatchArmWrapper>,
    details: Seq<EnumDetails>,
    variants: Seq<ConcreteVariant>,
)
    requires
        is_tuple_of(details, variants),
    ensures
        selection.decision(m, arms, details, seq![]).leaf(variants) == Some(
            (Decision::Leaf { variants, leaf: selection.chosen(m, arms, variants) }),
        ),
{
    assert(variants.take(0) =~= seq![]);
    assert(variants.skip(0) =~= variants);
    lemma_subtree_reaches_the_chosen_leaf(selection, m, arms, details, variants, 0);
}

proof fn lemma_subtree_reaches_the_chosen_leaf(
    selection: TupleSelection,
    m: &SemanticModel,
    arms: Seq<MatchArmWrapper>,
    details: Seq<EnumDetails>,
    variants: Seq<ConcreteVariant>,
    n: nat,
)
    requires
        is_tuple_of(details, variants),
        n <= variants.len(),
    ensures
        selection.decision(m, arms, details, variants.take(n as int)).leaf(
            variants.skip(n as int),
        ) == Some(
            (Decision::Leaf { variants, leaf: selection.chosen(m, arms, variants) }),
        ),
    decreases variants.len() - n,
{
    let path = variants.take(n as int);
    let rest = variants.skip(n as int);
    if n == variants.len() {
        assert(path =~= variants);
    } else {
        lemma_subtree_reaches_the_chosen_leaf(
            selection,
            m,
            arms,
            details,
            variants,
            n + 1,
        );
        let variant = variants[n as int];
        assert(rest[0] == variant);
        assert(rest.drop_first() =~= variants.skip(n as int + 1));
        assert(path.push(variant) =~= variants.take(n as int + 1));
        let branches = selection.decision(m, arms, details, path)->arms;
        assert(branches[variant.idx as int].variant == variant);
        assert(branches[variant.idx as int].next == selection.decision(
            m,
            arms,
            details,
            path.push(variant),
        ));
    }
}

/// Whether an arm takes `variants`: it has no pattern, or one of its patterns is `_` or a pattern on
/// a tuple that takes them.
pub open spec fn arm_takes(
    m: &SemanticModel,
    arm: MatchArmWrapper,
    details: Seq<EnumDetails>,
    variants: Seq<ConcreteVariant>,
) -> bool {
    ||| takes_all(m, arm)
    ||| exists|j: int|
        0 <= j < arm.patterns@.len() && takes_tuple(
            m,
            #[trigger] arm.patterns@[j],
            details,
            variants,
        )
}

/// The first arm wins: a match on a tuple selects, for each list of variants, the first arm that
/// takes it, and none where no arm does.
pub proof fn law_first_arm_wins_on_tuples(
    m: &SemanticModel,
    match_type: MatchKind,
    arms: Seq<MatchArmWrapper>,
    location: LocationId,
    n_snapshots: usize,
    types: Seq<TypeId>,
    inputs: Seq<VarUsage>,
    variants: Seq<ConcreteVariant>,
)
    requires
        arms_wf(m, arms),
        arms.len() <= usize::MAX,
        tuple_mapping(m, match_type, arms, tuple_details(m, types)).result is Ok,
    ensures
        ({
            let details = tuple_details(m, types);
            let selected = tuple_selection(
                m,
                match_type,
                arms,
                location,
                n_snapshots,
                types,
                inputs,
            ).selected(variants);
            &&& selected matches Some(path) ==> {
                &&& path.arm_index < arms.len()
                &&& arm_takes(m, arms[path.arm_index as int], details, variants)
            }
            &&& forall|i: int|
                0 <= i < (match selected {
                    Some(path) => path.arm_index as int,
                    None => arms.len() as int,
                }) ==> !arm_takes(m, #[trigger] arms[i], details, variants)
        }),
{
    let details = tuple_details(m, types);
    lemma_first_taking_all(m, arms);
    let n = first_taking_all(m, arms);
    let first_arms = arms.take(n as int);
    let patterns = patterns_before_otherwise(m, first_arms);
    lemma_patterns(m, first_arms, arms);
    law_first_tuple_pattern_wins(m, match_type, patterns, details, variants);
    let k = lemma_first_taking_tuple(m, patterns, details, variants);
    let found = first_taking_tuple(m, patterns, details, variants);
    if let Some(path) = found {
        assert(arms[path.arm_index as int].patterns@[path.pattern_index->0 as int]
            == patterns[k].1);
    }
    let end = match found {
        Some(path) => path.arm_index as int,
        None => n as int,
    };
    assert forall|i: int| 0 <= i < end implies !arm_takes(
        m,
        #[trigger] arms[i],
        details,
        variants,
    ) by {
        let arm = arms[i];
        assert(!takes_all(m, arm));
        assert(first_arms[i] == arm);
        lemma_first_otherwise(m, arm.patterns@);
        assert forall|j: int| 0 <= j < arm.patterns@.len() implies !takes_tuple(
            m,
            #[trigger] arm.patterns@[j],
            details,
            variants,
        ) by {
            assert(arm.patterns@[j] == first_arms[i].patterns@[j]);
            let at = choose|at: int|
                0 <= at < patterns.len() && #[trigger] patterns[at] == (
                    PatternPath { arm_index: i as usize, pattern_index: Some(j as usize) },
                    first_arms[i].patterns@[j],
                );
            if at >= k && k < patterns.len() {
                assert(patterns[k].0.arm_index <= patterns[at].0.arm_index);
            }
        }
    }
}

} // verus!

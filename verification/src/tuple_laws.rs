//! What a match on a tuple of enums is for: which leaf a value reaches when the decision tree is run,
//! and what the leaf does with the payloads.
use vstd::prelude::*;

use crate::adapters::joined;
use crate::context::{LoweringContext, LoweringFlowError, LoweringResult};
use crate::diagnostic::{
    DiagnosticAdded, LocationId, LoweringDiagnosticKind, MatchDiagnostic, MatchKind, Report,
};
use crate::enum_laws::written_patterns;
use crate::enum_match::{is_known_enum, patterns_of_arm, EnumDetails};
use crate::lowered::{MatchInfo, VarType, VarUsage};
use crate::match_arms::{
    arms_wf, first_otherwise, first_taking_all, is_catch_all,
    law_the_underscore_is_the_first_catch_all, lemma_first_otherwise, lemma_first_taking_all,
    takes_all, underscore_path, unreachable_after_underscore, MatchArmWrapper, PatternPath,
};
use crate::match_groups::LeafTarget;
use crate::semantic::{ConcreteVariant, ExprId, PatternId, PatternKind, SemanticModel, TypeId};
use crate::tuple_expr::{
    first_taking_tuple, is_tuple_of, law_first_tuple_pattern_wins, lemma_first_taking_tuple,
    lemma_first_unknown_enum_bound, lemma_patterns, takes_tuple, tuple_mapping,
    tuple_match_defined, tuple_match_outcome, tuple_selection, TupleMatch,
};
use crate::tuple_match::{
    field_takes, fields_take, fields_within, first_unknown_enum,
    law_unreachable_where_nothing_is_new, lemma_first_unknown_enum, mapping_of_all,
    pattern_within, patterns_before_otherwise, tuple_details, unsupported_field,
    with_tuple_pattern,
};
use crate::tuple_tree::{
    field_bindings, variants_text, Decision, DecisionTree, FieldBinding, LeafChoice,
    TupleSelection,
};

verus! {

/// Whether the pattern of a field matches a value of the field of the variant `variant`.
pub open spec fn field_matches(
    m: &SemanticModel,
    pattern: PatternId,
    variant: ConcreteVariant,
) -> bool {
    match m.kind(pattern) {
        PatternKind::EnumVariant(p) => p.variant == variant,
        PatternKind::Otherwise => true,
        _ => false,
    }
}

/// Whether `pattern` matches a tuple whose fields are of the variants `variants`.
pub open spec fn pattern_matches(
    m: &SemanticModel,
    pattern: PatternId,
    variants: Seq<ConcreteVariant>,
) -> bool {
    match m.kind(pattern) {
        PatternKind::Otherwise => true,
        PatternKind::Tuple(fields) => {
            &&& fields@.len() == variants.len()
            &&& forall|i: int|
                0 <= i < variants.len() ==> field_matches(m, #[trigger] fields@[i], variants[i])
        },
        _ => false,
    }
}

/// Whether `arm` matches a tuple whose fields are of the variants `variants`. An arm without patterns
/// matches everything.
pub open spec fn arm_matches(
    m: &SemanticModel,
    arm: MatchArmWrapper,
    variants: Seq<ConcreteVariant>,
) -> bool {
    ||| arm.patterns@.len() == 0
    ||| exists|j: int|
        0 <= j < arm.patterns@.len() && pattern_matches(m, #[trigger] arm.patterns@[j], variants)
}

/// Whether `variant` is a variant of the enum under the snapshots around `ty`.
pub open spec fn has_variant(m: &SemanticModel, ty: TypeId, variant: ConcreteVariant) -> bool {
    &&& m.db.peeled_enum(ty) matches Some(e)
    &&& m.db.variants(e) matches Ok(variants)
    &&& variants.contains(variant)
}

/// Whether the fields of a tuple of `types` can be of the variants `variants`.
pub open spec fn is_value_of(
    m: &SemanticModel,
    types: Seq<TypeId>,
    variants: Seq<ConcreteVariant>,
) -> bool {
    &&& variants.len() == types.len()
    &&& forall|i: int|
        0 <= i < types.len() ==> has_variant(m, types[i], #[trigger] variants[i])
}

/// The types exist.
pub open spec fn types_exist(m: &SemanticModel, types: Seq<TypeId>) -> bool {
    forall|i: int| 0 <= i < types.len() ==> m.db.has_type(#[trigger] types[i])
}

/// The pattern of the payload in the pattern of a field.
pub open spec fn payload_pattern(m: &SemanticModel, field: PatternId) -> Option<PatternId> {
    match m.kind(field) {
        PatternKind::EnumVariant(p) => p.inner_pattern,
        _ => None,
    }
}

/// The payload of each field whose pattern has one for the payload is lowered into it, at its location,
/// in the order of the fields, and no other payload is.
pub open spec fn binds_fields(
    m: &SemanticModel,
    fields: Seq<PatternId>,
    bindings: Seq<FieldBinding>,
) -> bool {
    &&& forall|b: int|
        0 <= b < bindings.len() ==> {
            &&& (#[trigger] bindings[b]).index < fields.len()
            &&& payload_pattern(m, fields[bindings[b].index as int]) == Some(
                bindings[b].inner_pattern,
            )
            &&& bindings[b].location.0.0 == m.pattern_ptr(bindings[b].inner_pattern)
        }
    &&& forall|b: int, c: int|
        0 <= b < c < bindings.len() ==> (#[trigger] bindings[b]).index < (
        #[trigger] bindings[c]).index
    &&& forall|i: int|
        0 <= i < fields.len() && payload_pattern(m, #[trigger] fields[i]) is Some ==> exists|b: int|
            0 <= b < bindings.len() && (#[trigger] bindings[b]).index == i
}

/// Whether one of the patterns of `arm` is `_`.
pub open spec fn has_underscore(m: &SemanticModel, arm: MatchArmWrapper) -> bool {
    exists|j: int|
        0 <= j < arm.patterns@.len() && m.kind(#[trigger] arm.patterns@[j]) is Otherwise
}

/// The payloads are lowered into the first pattern of `arm` that matches `variants`; into none where
/// the arm has a `_` or no pattern.
pub open spec fn binds_payloads(
    m: &SemanticModel,
    arm: MatchArmWrapper,
    variants: Seq<ConcreteVariant>,
    bindings: Seq<FieldBinding>,
) -> bool {
    if arm.patterns@.len() == 0 || has_underscore(m, arm) {
        bindings.len() == 0
    } else {
        exists|j: int| {
            &&& 0 <= j < arm.patterns@.len()
            &&& pattern_matches(m, #[trigger] arm.patterns@[j], variants)
            &&& forall|k: int|
                0 <= k < j ==> !pattern_matches(m, #[trigger] arm.patterns@[k], variants)
            &&& m.kind(arm.patterns@[j]) matches PatternKind::Tuple(fields)
            &&& binds_fields(m, fields@, bindings)
        }
    }
}

/// `choice` is the leaf of the first arm that matches `variants`, or none where no arm does.
pub open spec fn is_leaf_of_the_first_arm(
    m: &SemanticModel,
    arms: Seq<MatchArmWrapper>,
    variants: Seq<ConcreteVariant>,
    choice: Option<LeafChoice>,
) -> bool {
    match choice {
        None => forall|i: int|
            0 <= i < arms.len() ==> !arm_matches(m, #[trigger] arms[i], variants),
        Some(choice) => {
            &&& choice.arm_index < arms.len()
            &&& arm_matches(m, arms[choice.arm_index as int], variants)
            &&& forall|i: int|
                0 <= i < choice.arm_index ==> !arm_matches(m, #[trigger] arms[i], variants)
            &&& binds_payloads(m, arms[choice.arm_index as int], variants, choice.bindings)
        },
    }
}

/// Whether running `tree` ends at `leaf`. A node reads the variable that it matches on, and goes on with
/// the arm of the variant that it finds there: `variant_of` tells the variant of each variable.
pub open spec fn reaches(
    tree: Decision,
    variant_of: spec_fn(VarUsage) -> ConcreteVariant,
    leaf: Decision,
) -> bool
    decreases tree,
{
    match tree {
        Decision::Leaf { .. } => leaf == tree,
        Decision::Node { input, arms, .. } => exists|i: int|
            0 <= i < arms.len() && (#[trigger] arms[i]).variant == variant_of(input) && reaches(
                arms[i].next,
                variant_of,
                leaf,
            ),
    }
}

/// The variants of a value are those of the details, and a variant stands at its own index.
proof fn lemma_value(m: &SemanticModel, types: Seq<TypeId>, variants: Seq<ConcreteVariant>)
    requires
        m.wf(),
        types_exist(m, types),
        is_value_of(m, types, variants),
    ensures
        is_tuple_of(tuple_details(m, types), variants),
{
    let details = tuple_details(m, types);
    assert forall|i: int| 0 <= i < variants.len() implies (#[trigger] variants[i]).idx
        < details[i].concrete_variants.len() && details[i].concrete_variants[variants[i].idx as int]
        == variants[i] by {
        assert(has_variant(m, types[i], variants[i]));
        assert(m.db.has_type(types[i]));
        m.db.lemma_peeled(types[i]);
        let e = m.db.peeled_enum(types[i])->0;
        let k = details[i].concrete_variants.index_of(variants[i]);
        m.db.lemma_variant(e, k);
    }
}

/// Variants stand at their indices.
spec fn indexed(details: Seq<EnumDetails>) -> bool {
    forall|k: int, i: int|
        0 <= k < details.len() && 0 <= i < details[k].concrete_variants.len() ==> (
        #[trigger] details[k].concrete_variants[i]).idx == i
}

proof fn lemma_indexed(m: &SemanticModel, types: Seq<TypeId>)
    requires
        m.wf(),
        types_exist(m, types),
        first_unknown_enum(m, types) == types.len(),
    ensures
        indexed(tuple_details(m, types)),
{
    let details = tuple_details(m, types);
    lemma_first_unknown_enum_bound(m, types);
    assert forall|k: int, i: int|
        0 <= k < details.len() && 0 <= i < details[k].concrete_variants.len() implies (
    #[trigger] details[k].concrete_variants[i]).idx == i by {
        assert(is_known_enum(m, types[k]));
        assert(m.db.has_type(types[k]));
        m.db.lemma_peeled(types[k]);
        m.db.lemma_variant(m.db.peeled_enum(types[k])->0, i);
    }
}

proof fn lemma_reaches(
    selection: TupleSelection,
    m: &SemanticModel,
    arms: Seq<MatchArmWrapper>,
    details: Seq<EnumDetails>,
    variants: Seq<ConcreteVariant>,
    variant_of: spec_fn(VarUsage) -> ConcreteVariant,
    n: nat,
)
    requires
        is_tuple_of(details, variants),
        indexed(details),
        n <= variants.len(),
        forall|k: int|
            0 <= k < variants.len() ==> variant_of(#[trigger] selection.match_inputs[k])
                == variants[k],
    ensures
        forall|leaf: Decision| #[trigger]
            reaches(
                selection.decision(m, arms, details, variants.take(n as int)),
                variant_of,
                leaf,
            ) <==> leaf == (Decision::Leaf {
                variants,
                leaf: selection.chosen(m, arms, variants),
            }),
    decreases variants.len() - n,
{
    let path = variants.take(n as int);
    let tree = selection.decision(m, arms, details, path);
    if n == variants.len() {
        assert(path =~= variants);
    } else {
        lemma_reaches(selection, m, arms, details, variants, variant_of, n + 1);
        let variant = variants[n as int];
        assert(path.push(variant) =~= variants.take(n as int + 1));
        let branches = tree->arms;
        let next = branches[variant.idx as int].next;
        assert(variant_of(selection.match_inputs[n as int]) == variant);
        assert(branches[variant.idx as int].variant == variant);
        assert(next == selection.decision(m, arms, details, variants.take(n as int + 1)));
        assert forall|leaf: Decision| #[trigger] reaches(tree, variant_of, leaf) <==> reaches(
            next,
            variant_of,
            leaf,
        ) by {
            if reaches(tree, variant_of, leaf) {
                let i = choose|i: int|
                    0 <= i < branches.len() && (#[trigger] branches[i]).variant == variant
                        && reaches(branches[i].next, variant_of, leaf);
                assert(details[n as int].concrete_variants[i].idx == i);
            }
        }
    }
}

/// The patterns of an arm come in their order.
proof fn lemma_order_in_arm(m: &SemanticModel, arms: Seq<MatchArmWrapper>)
    requires
        arms.len() <= usize::MAX,
    ensures
        forall|j: int, k: int|
            0 <= j < k < patterns_before_otherwise(m, arms).len() && (
            #[trigger] patterns_before_otherwise(m, arms)[j]).0.arm_index == (
            #[trigger] patterns_before_otherwise(m, arms)[k]).0.arm_index
                ==> (patterns_before_otherwise(m, arms)[j]).0.pattern_index->0
                < (patterns_before_otherwise(m, arms)[k]).0.pattern_index->0,
        forall|k: int|
            0 <= k < patterns_before_otherwise(m, arms).len() ==> (
            #[trigger] patterns_before_otherwise(m, arms)[k]).0.arm_index < arms.len()
                && patterns_before_otherwise(m, arms)[k].0.pattern_index is Some,
    decreases arms.len(),
{
    if arms.len() > 0 {
        let before = arms.drop_last();
        lemma_order_in_arm(m, before);
        lemma_first_otherwise(m, arms.last().patterns@);
        let done = patterns_before_otherwise(m, before);
        let now = patterns_before_otherwise(m, arms);
        let of_arm = patterns_of_arm(arms.last(), (arms.len() - 1) as nat).take(
            first_otherwise(m, arms.last().patterns@) as int,
        );
        assert(arms.last().patterns@.len() == arms.last().patterns.len());
        assert(now == done + of_arm);
        assert forall|k: int| 0 <= k < now.len() implies {
            &&& (#[trigger] now[k]).0.arm_index < arms.len()
            &&& now[k].0.pattern_index is Some
            &&& k < done.len() ==> now[k] == done[k] && now[k].0.arm_index < arms.len() - 1
            &&& k >= done.len() ==> now[k] == of_arm[k - done.len()] && now[k].0.arm_index
                == arms.len() - 1 && now[k].0.pattern_index->0 == k - done.len()
        } by {
            if k < done.len() {
                assert(now[k] == done[k]);
            } else {
                assert(now[k] == of_arm[k - done.len()]);
            }
        }
    }
}

/// What the payloads of the first `n` fields are lowered into.
proof fn lemma_bindings(m: &SemanticModel, fields: Seq<PatternId>, n: nat)
    requires
        n <= fields.len() <= usize::MAX,
    ensures
        binds_fields(m, fields.take(n as int), field_bindings(m, fields, n)),
    decreases n,
{
    if n > 0 {
        lemma_bindings(m, fields, (n - 1) as nat);
        let before = field_bindings(m, fields, (n - 1) as nat);
        let now = field_bindings(m, fields, n);
        let some = fields.take(n - 1);
        let more = fields.take(n as int);
        assert(forall|i: int| 0 <= i < n - 1 ==> #[trigger] some[i] == more[i]);
        assert forall|b: int| 0 <= b < now.len() implies {
            &&& (#[trigger] now[b]).index < more.len()
            &&& payload_pattern(m, more[now[b].index as int]) == Some(now[b].inner_pattern)
            &&& now[b].location.0.0 == m.pattern_ptr(now[b].inner_pattern)
            &&& b < before.len() ==> now[b] == before[b] && now[b].index < n - 1
        } by {
            if b < before.len() {
                assert(now[b] == before[b]);
                assert(some[before[b].index as int] == more[before[b].index as int]);
            }
        }
        assert forall|i: int| 0 <= i < n && payload_pattern(m, #[trigger] more[i]) is Some implies exists|
            b: int,
        |
            0 <= b < now.len() && (#[trigger] now[b]).index == i by {
            if i < n - 1 {
                assert(payload_pattern(m, some[i]) is Some);
                let b = choose|b: int| 0 <= b < before.len() && (#[trigger] before[b]).index == i;
                assert(now[b].index == i);
            } else {
                assert(now[before.len() as int].index == i);
            }
        }
    }
}

/// A pattern takes the variants of a value where it matches them.
proof fn lemma_takes(
    m: &SemanticModel,
    details: Seq<EnumDetails>,
    pattern: PatternId,
    variants: Seq<ConcreteVariant>,
)
    requires
        is_tuple_of(details, variants),
        !(m.kind(pattern) is Otherwise),
    ensures
        takes_tuple(m, pattern, details, variants) <==> pattern_matches(m, pattern, variants),
{
    if let PatternKind::Tuple(fields) = m.kind(pattern) {
        assert forall|i: int| 0 <= i < variants.len() implies details[i].concrete_variants.contains(
            #[trigger] variants[i],
        ) by {
            assert(details[i].concrete_variants[variants[i].idx as int] == variants[i]);
        }
        if pattern_matches(m, pattern, variants) {
            assert forall|i: int| 0 <= i < fields@.len() implies field_takes(
                m,
                fields@[i],
                details[i],
                #[trigger] variants[i],
            ) by {
                assert(field_matches(m, fields@[i], variants[i]));
            }
        }
        if fields_take(m, fields@, details, variants, 0) {
            assert forall|i: int| 0 <= i < variants.len() implies field_matches(
                m,
                #[trigger] fields@[i],
                variants[i],
            ) by {
                let variant = variants[i];
            }
        }
    }
}

/// What is chosen for a value is the leaf of the first arm that matches it.
proof fn lemma_choice(
    m: &SemanticModel,
    match_type: MatchKind,
    arms: Seq<MatchArmWrapper>,
    location: LocationId,
    n_snapshots: usize,
    types: Seq<TypeId>,
    inputs: Seq<VarUsage>,
    variants: Seq<ConcreteVariant>,
)
    requires
        arms_wf(m, arms),
        arms.len() <= usize::MAX,
        tuple_mapping(m, match_type, arms, tuple_details(m, types)).result is Ok,
        is_tuple_of(tuple_details(m, types), variants),
    ensures
        ({
            let selection = tuple_selection(
                m,
                match_type,
                arms,
                location,
                n_snapshots,
                types,
                inputs,
            );
            let chosen = selection.chosen(m, arms, variants);
            &&& is_leaf_of_the_first_arm(m, arms, variants, chosen)
            &&& chosen is None <==> selection.selected(variants) is None
        }),
{
    let details = tuple_details(m, types);
    let selection = tuple_selection(m, match_type, arms, location, n_snapshots, types, inputs);
    let chosen = selection.chosen(m, arms, variants);
    lemma_first_taking_all(m, arms);
    let n = first_taking_all(m, arms) as int;
    let first_arms = arms.take(n);
    let patterns = patterns_before_otherwise(m, first_arms);
    lemma_patterns(m, first_arms, arms);
    lemma_order_in_arm(m, first_arms);
    law_first_tuple_pattern_wins(m, match_type, patterns, details, variants);
    let k = lemma_first_taking_tuple(m, patterns, details, variants);
    let found = first_taking_tuple(m, patterns, details, variants);
    // An arm takes everything where it has no pattern or a `_`.
    assert forall|i: int| 0 <= i < arms.len() implies (takes_all(m, #[trigger] arms[i]) <==> (
    arms[i].patterns@.len() == 0 || has_underscore(m, arms[i]))) by {
        lemma_first_otherwise(m, arms[i].patterns@);
        if takes_all(m, arms[i]) && arms[i].patterns@.len() > 0 {
            let j = first_otherwise(m, arms[i].patterns@) as int;
            assert(m.kind(arms[i].patterns@[j]) is Otherwise);
        }
    }
    // The patterns before the first one that takes the variants do not match.
    assert forall|i: int, j: int|
        0 <= i < n && 0 <= j < arms[i].patterns@.len() && (match found {
            Some(path) => i < path.arm_index || i == path.arm_index && j < path.pattern_index->0,
            None => true,
        }) implies !pattern_matches(m, #[trigger] arms[i].patterns@[j], variants) by {
        let arm = arms[i];
        assert(!takes_all(m, arm));
        lemma_first_otherwise(m, arm.patterns@);
        assert(first_arms[i].patterns@[j] == arm.patterns@[j]);
        let at = choose|at: int|
            0 <= at < patterns.len() && #[trigger] patterns[at] == (
                PatternPath { arm_index: i as usize, pattern_index: Some(j as usize) },
                first_arms[i].patterns@[j],
            );
        assert(arm.patterns@.len() == arm.patterns.len());
        if at >= k && k < patterns.len() {
            assert(patterns[k].0.arm_index <= patterns[at].0.arm_index);
            if at > k {
                assert(patterns[k].0.arm_index == patterns[at].0.arm_index);
            }
        }
        lemma_takes(m, details, arm.patterns@[j], variants);
    }
    assert forall|i: int|
        0 <= i < (match found {
            Some(path) => path.arm_index as int,
            None => n,
        }) implies !arm_matches(m, #[trigger] arms[i], variants) by {
        assert(!takes_all(m, arms[i]));
    }
    match found {
        Some(path) => {
            let arm = arms[path.arm_index as int];
            let j = path.pattern_index->0 as int;
            let pattern = arm.patterns@[j];
            assert(!takes_all(m, arm));
            assert(pattern == patterns[k].1);
            assert(!(m.kind(pattern) is Otherwise));
            lemma_takes(m, details, pattern, variants);
            let fields = m.kind(pattern)->Tuple_0;
            assert(fields@.len() == fields.len());
            lemma_bindings(m, fields@, fields@.len());
            assert(fields@.take(fields@.len() as int) =~= fields@);
            assert(pattern_matches(m, arm.patterns@[j], variants));
            assert(chosen == Some(
                LeafChoice {
                    arm_index: path.arm_index,
                    bindings: field_bindings(m, fields@, fields@.len()),
                },
            ));
            assert(binds_payloads(m, arm, variants, (chosen->0).bindings));
        },
        None => {
            if n < arms.len() {
                let arm = arms[n];
                assert(takes_all(m, arm));
                lemma_first_otherwise(m, arm.patterns@);
                assert(underscore_path(m, arms) is Some);
                if arm.patterns@.len() > 0 {
                    let j = first_otherwise(m, arm.patterns@) as int;
                    assert(arm.patterns@.len() == arm.patterns.len());
                    assert(m.kind(arm.patterns@[j]) is Otherwise);
                    assert(pattern_matches(m, arm.patterns@[j], variants));
                }
            }
        },
    }
}

/// Running the decision tree of a match on a tuple, each node reading the field whose variable it
/// matches on, ends at one leaf: that of the variants of the fields. It leads to the first arm that
/// matches them, and to no arm where none does, and lowers the payloads into the patterns of that arm.
pub proof fn law_running_the_tree_reaches_the_first_matching_arm(
    before: LoweringContext,
    after: LoweringContext,
    match_inputs: LoweringResult<Vec<VarUsage>>,
    location: LocationId,
    matched_expr: ExprId,
    n_snapshots: usize,
    types: Seq<TypeId>,
    arms: Seq<MatchArmWrapper>,
    match_type: MatchKind,
    lowered: TupleMatch,
    variants: Seq<ConcreteVariant>,
    variant_of: spec_fn(VarUsage) -> ConcreteVariant,
)
    requires
        before.semantic.wf(),
        arms_wf(&before.semantic, arms),
        arms.len() <= usize::MAX,
        types_exist(&before.semantic, types),
        tuple_match_outcome(
            before,
            after,
            match_inputs,
            location,
            matched_expr,
            n_snapshots,
            types,
            arms,
            match_type,
            Ok(lowered),
        ),
        is_value_of(&before.semantic, types, variants),
        forall|k: int|
            0 <= k < types.len() ==> variant_of(#[trigger] match_inputs->Ok_0@[k]) == variants[k],
    ensures
        exists|leaf: Decision| #[trigger] reaches(lowered.tree@, variant_of, leaf),
        forall|leaf: Decision| #[trigger]
            reaches(lowered.tree@, variant_of, leaf) ==> (leaf matches Decision::Leaf {
                variants: found,
                leaf: choice,
            } && found == variants && is_leaf_of_the_first_arm(
                &before.semantic,
                arms,
                variants,
                choice,
            )),
{
    let m = &before.semantic;
    let details = tuple_details(m, types);
    let inputs = match_inputs->Ok_0@;
    let selection = tuple_selection(m, match_type, arms, location, n_snapshots, types, inputs);
    lemma_first_unknown_enum_bound(m, types);
    lemma_value(m, types, variants);
    lemma_indexed(m, types);
    lemma_choice(m, match_type, arms, location, n_snapshots, types, inputs, variants);
    lemma_reaches(selection, m, arms, details, variants, variant_of, 0);
    assert(variants.take(0) =~= seq![]);
    let leaf = Decision::Leaf { variants, leaf: selection.chosen(m, arms, variants) };
    assert(reaches(lowered.tree@, variant_of, leaf));
}

/// Whether the variants of `path`, one after the other from the root of `tree` on, lead to `sub`.
pub open spec fn leads(tree: Decision, path: Seq<ConcreteVariant>, sub: Decision) -> bool
    decreases tree,
{
    if path.len() == 0 {
        sub == tree
    } else {
        match tree {
            Decision::Leaf { .. } => false,
            Decision::Node { arms, .. } => exists|i: int|
                0 <= i < arms.len() && (#[trigger] arms[i]).variant == path[0] && leads(
                    arms[i].next,
                    path.drop_first(),
                    sub,
                ),
        }
    }
}

proof fn lemma_leads(
    selection: TupleSelection,
    m: &SemanticModel,
    arms: Seq<MatchArmWrapper>,
    details: Seq<EnumDetails>,
    done: Seq<ConcreteVariant>,
    path: Seq<ConcreteVariant>,
    sub: Decision,
)
    requires
        done.len() + path.len() <= details.len(),
        leads(selection.decision(m, arms, details, done), path, sub),
    ensures
        sub == selection.decision(m, arms, details, done + path),
    decreases path.len(),
{
    if path.len() == 0 {
        assert(done + path =~= done);
    } else {
        let branches = selection.decision(m, arms, details, done)->arms;
        let i = choose|i: int|
            0 <= i < branches.len() && (#[trigger] branches[i]).variant == path[0] && leads(
                branches[i].next,
                path.drop_first(),
                sub,
            );
        lemma_leads(selection, m, arms, details, done.push(path[0]), path.drop_first(), sub);
        assert(done.push(path[0]) + path.drop_first() =~= done + path);
    }
}

/// The node that is reached after `k` variants is a match on field `k`: on its variable and its enum,
/// with an arm for each variant in the order of the enum, whose payload is under the snapshots of the
/// field and of the tuple.
pub proof fn law_each_node_matches_on_its_field(
    before: LoweringContext,
    after: LoweringContext,
    match_inputs: LoweringResult<Vec<VarUsage>>,
    location: LocationId,
    matched_expr: ExprId,
    n_snapshots: usize,
    types: Seq<TypeId>,
    arms: Seq<MatchArmWrapper>,
    match_type: MatchKind,
    lowered: TupleMatch,
    path: Seq<ConcreteVariant>,
    node: Decision,
)
    requires
        before.semantic.wf(),
        types_exist(&before.semantic, types),
        tuple_match_outcome(
            before,
            after,
            match_inputs,
            location,
            matched_expr,
            n_snapshots,
            types,
            arms,
            match_type,
            Ok(lowered),
        ),
        path.len() < types.len(),
        before.semantic.db.peeled(types[path.len() as int]).0 + n_snapshots <= usize::MAX,
        leads(lowered.tree@, path, node),
    ensures
        ({
            let m = &before.semantic;
            let ty = types[path.len() as int];
            let e = m.db.peeled_enum(ty)->0;
            let variants = m.db.variants(e)->Ok_0;
            &&& m.db.peeled_enum(ty) is Some
            &&& m.db.variants(e) is Ok
            &&& node matches Decision::Node {
                concrete_enum_id,
                input,
                arms: branches,
                location: at,
            }
            &&& concrete_enum_id == e
            &&& input == match_inputs->Ok_0@[path.len() as int]
            &&& at == location
            &&& branches.len() == variants.len()
            &&& forall|i: int|
                0 <= i < branches.len() ==> {
                    &&& (#[trigger] branches[i]).variant == variants[i]
                    &&& branches[i].var.location == location
                    &&& branches[i].var.ty matches VarType::Snapshots { ty: payload, n_snapshots: n }
                    &&& payload == variants[i].ty
                    &&& n == m.db.peeled(ty).0 + n_snapshots
                }
        }),
{
    let m = &before.semantic;
    let details = tuple_details(m, types);
    let selection = tuple_selection(
        m,
        match_type,
        arms,
        location,
        n_snapshots,
        types,
        match_inputs->Ok_0@,
    );
    lemma_first_unknown_enum_bound(m, types);
    assert(is_known_enum(m, types[path.len() as int]));
    lemma_leads(selection, m, arms, details, seq![], path, node);
    assert(Seq::<ConcreteVariant>::empty() + path =~= path);
    assert(m.db.has_type(types[path.len() as int]));
    m.db.lemma_peeled(types[path.len() as int]);
}

/// Whether `first` comes before `second`: at the first field where they differ, its variant comes first.
pub open spec fn precedes(first: Seq<ConcreteVariant>, second: Seq<ConcreteVariant>) -> bool {
    exists|k: int|
        0 <= k < first.len() && k < second.len() && #[trigger] first.take(k) == second.take(k)
            && first[k].idx < second[k].idx
}

/// The variants of the leaves of the first `n` arms of the node after `path`.
spec fn are_paths_below(
    paths: Seq<Seq<ConcreteVariant>>,
    details: Seq<EnumDetails>,
    path: Seq<ConcreteVariant>,
    n: int,
) -> bool {
    &&& forall|i: int|
        0 <= i < paths.len() ==> is_tuple_of(details, #[trigger] paths[i]) && paths[i].take(
            path.len() as int,
        ) == path && (path.len() < details.len() ==> paths[i][path.len() as int].idx < n)
    &&& forall|variants: Seq<ConcreteVariant>| #[trigger]
        is_tuple_of(details, variants) && variants.take(path.len() as int) == path && (path.len()
            < details.len() ==> variants[path.len() as int].idx < n) ==> paths.contains(variants)
    &&& forall|i: int, j: int|
        0 <= i < j < paths.len() ==> precedes(#[trigger] paths[i], #[trigger] paths[j])
}

proof fn lemma_leaf_paths(
    selection: TupleSelection,
    m: &SemanticModel,
    arms: Seq<MatchArmWrapper>,
    details: Seq<EnumDetails>,
    path: Seq<ConcreteVariant>,
)
    requires
        indexed(details),
        path.len() <= details.len(),
        forall|i: int|
            0 <= i < path.len() ==> (#[trigger] path[i]).idx < details[i].concrete_variants.len()
                && details[i].concrete_variants[path[i].idx as int] == path[i],
    ensures
        path.len() < details.len() ==> are_paths_below(
            selection.decision(m, arms, details, path).leaf_paths(),
            details,
            path,
            details[path.len() as int].concrete_variants.len() as int,
        ),
        path.len() == details.len() ==> are_paths_below(
            selection.decision(m, arms, details, path).leaf_paths(),
            details,
            path,
            0,
        ),
    decreases details.len() - path.len(), 1nat, 0nat,
{
    let tree = selection.decision(m, arms, details, path);
    let paths = tree.leaf_paths();
    if path.len() == details.len() {
        assert(paths =~= seq![path]);
        assert(path.take(path.len() as int) =~= path);
        assert forall|variants: Seq<ConcreteVariant>| #[trigger]
            is_tuple_of(details, variants) && variants.take(path.len() as int)
                == path implies paths.contains(variants) by {
            assert(variants.take(path.len() as int) =~= variants);
            assert(paths[0] == variants);
        }
    } else {
        let n = details[path.len() as int].concrete_variants.len();
        lemma_branch_paths(selection, m, arms, details, path, n);
    }
}

proof fn lemma_branch_paths(
    selection: TupleSelection,
    m: &SemanticModel,
    arms: Seq<MatchArmWrapper>,
    details: Seq<EnumDetails>,
    path: Seq<ConcreteVariant>,
    n: nat,
)
    requires
        indexed(details),
        path.len() < details.len(),
        n <= details[path.len() as int].concrete_variants.len(),
        forall|i: int|
            0 <= i < path.len() ==> (#[trigger] path[i]).idx < details[i].concrete_variants.len()
                && details[i].concrete_variants[path[i].idx as int] == path[i],
    ensures
        are_paths_below(
            Decision::leaf_paths_of(selection.decision(m, arms, details, path)->arms, n),
            details,
            path,
            n as int,
        ),
    decreases details.len() - path.len(), 0nat, n,
{
    let branches = selection.decision(m, arms, details, path)->arms;
    let len = path.len() as int;
    if n == 0 {
    } else {
        lemma_branch_paths(selection, m, arms, details, path, (n - 1) as nat);
        let variant = details[len].concrete_variants[n - 1];
        let longer = path.push(variant);
        assert(variant.idx == n - 1);
        lemma_leaf_paths(selection, m, arms, details, longer);
        let done = Decision::leaf_paths_of(branches, (n - 1) as nat);
        let added = branches[n - 1].next.leaf_paths();
        let paths = Decision::leaf_paths_of(branches, n);
        assert(branches[n - 1].next == selection.decision(m, arms, details, longer));
        assert(paths == done + added);
        assert forall|i: int| 0 <= i < added.len() implies is_tuple_of(details, #[trigger] added[i])
            && added[i].take(len) == path && added[i][len] == variant by {
            assert(added[i].take(len + 1) == longer);
            assert(added[i].take(len) =~= longer.take(len));
            assert(longer.take(len) =~= path);
            assert(added[i][len] == added[i].take(len + 1)[len]);
        }
        assert forall|i: int| 0 <= i < paths.len() implies is_tuple_of(details, #[trigger] paths[i])
            && paths[i].take(len) == path && paths[i][len].idx < n by {
            if i < done.len() {
                assert(paths[i] == done[i]);
            } else {
                assert(paths[i] == added[i - done.len()]);
            }
        }
        assert forall|variants: Seq<ConcreteVariant>| #[trigger]
            is_tuple_of(details, variants) && variants.take(len) == path && variants[len].idx
                < n implies paths.contains(variants) by {
            if variants[len].idx < n - 1 {
                let k = done.index_of(variants);
                assert(paths[k] == variants);
            } else {
                assert(details[len].concrete_variants[variants[len].idx as int] == variants[len]);
                assert(variants.take(len + 1) =~= longer);
                assert(added.contains(variants));
                let k = added.index_of(variants);
                assert(paths[done.len() + k] == variants);
            }
        }
        assert forall|i: int, j: int| 0 <= i < j < paths.len() implies precedes(
            #[trigger] paths[i],
            #[trigger] paths[j],
        ) by {
            if j < done.len() {
                assert(paths[i] == done[i] && paths[j] == done[j]);
            } else if i >= done.len() {
                assert(paths[i] == added[i - done.len()] && paths[j] == added[j - done.len()]);
            } else {
                assert(paths[i] == done[i] && paths[j] == added[j - done.len()]);
                assert(paths[i].take(len) == paths[j].take(len));
            }
        }
    }
}

/// The leaves of the tree are those of all values of the tuple, each once, from the first variants to
/// the last: the variants of the last field change first.
pub proof fn law_the_tree_has_a_leaf_for_each_value(
    before: LoweringContext,
    after: LoweringContext,
    match_inputs: LoweringResult<Vec<VarUsage>>,
    location: LocationId,
    matched_expr: ExprId,
    n_snapshots: usize,
    types: Seq<TypeId>,
    arms: Seq<MatchArmWrapper>,
    match_type: MatchKind,
    lowered: TupleMatch,
)
    requires
        before.semantic.wf(),
        types_exist(&before.semantic, types),
        tuple_match_outcome(
            before,
            after,
            match_inputs,
            location,
            matched_expr,
            n_snapshots,
            types,
            arms,
            match_type,
            Ok(lowered),
        ),
    ensures
        ({
            let paths = lowered.tree@.leaf_paths();
            &&& forall|variants: Seq<ConcreteVariant>| #[trigger]
                paths.contains(variants) <==> is_value_of(&before.semantic, types, variants)
            &&& forall|i: int, j: int|
                0 <= i < j < paths.len() ==> precedes(#[trigger] paths[i], #[trigger] paths[j])
        }),
{
    let m = &before.semantic;
    let details = tuple_details(m, types);
    let selection = tuple_selection(
        m,
        match_type,
        arms,
        location,
        n_snapshots,
        types,
        match_inputs->Ok_0@,
    );
    let paths = lowered.tree@.leaf_paths();
    let none = Seq::<ConcreteVariant>::empty();
    lemma_first_unknown_enum_bound(m, types);
    lemma_indexed(m, types);
    lemma_leaf_paths(selection, m, arms, details, none);
    assert forall|variants: Seq<ConcreteVariant>| #[trigger] paths.contains(variants) <==> is_value_of(
        m,
        types,
        variants,
    ) by {
        if paths.contains(variants) {
            let k = paths.index_of(variants);
            assert(is_tuple_of(details, paths[k]));
            assert forall|i: int| 0 <= i < types.len() implies has_variant(
                m,
                types[i],
                #[trigger] variants[i],
            ) by {
                assert(is_known_enum(m, types[i]));
                assert(details[i].concrete_variants[variants[i].idx as int] == variants[i]);
            }
        }
        if is_value_of(m, types, variants) {
            lemma_value(m, types, variants);
            assert(variants.take(0) =~= none);
        }
    }
}

/// Each value leads to the first arm that matches it. A value that no arm matches is reported at the
/// location of the match, with the names of its variants.
pub proof fn law_each_value_leads_to_its_first_matching_arm(
    before: LoweringContext,
    after: LoweringContext,
    match_inputs: LoweringResult<Vec<VarUsage>>,
    location: LocationId,
    matched_expr: ExprId,
    n_snapshots: usize,
    types: Seq<TypeId>,
    arms: Seq<MatchArmWrapper>,
    match_type: MatchKind,
    lowered: TupleMatch,
    i: int,
)
    requires
        before.semantic.wf(),
        arms_wf(&before.semantic, arms),
        arms.len() <= usize::MAX,
        types_exist(&before.semantic, types),
        tuple_match_outcome(
            before,
            after,
            match_inputs,
            location,
            matched_expr,
            n_snapshots,
            types,
            arms,
            match_type,
            Ok(lowered),
        ),
        0 <= i < lowered.tree@.leaf_paths().len(),
    ensures
        ({
            let m = &before.semantic;
            let variants = lowered.tree@.leaf_paths()[i];
            let targets = lowered.targets(m, arms);
            &&& targets.len() == lowered.tree@.leaf_paths().len()
            &&& match targets[i] {
                LeafTarget::Arm(a) => {
                    &&& a < arms.len()
                    &&& arm_matches(m, arms[a as int], variants)
                    &&& forall|k: int|
                        0 <= k < a ==> !arm_matches(m, #[trigger] arms[k], variants)
                },
                LeafTarget::Error(at, error) => {
                    &&& forall|k: int|
                        0 <= k < arms.len() ==> !arm_matches(m, #[trigger] arms[k], variants)
                    &&& at == location
                    &&& error == MatchDiagnostic::<Seq<char>>::MissingMatchArm(
                        variants_text(m, variants),
                    )
                },
            }
        }),
{
    let m = &before.semantic;
    let variants = lowered.tree@.leaf_paths()[i];
    law_the_tree_has_a_leaf_for_each_value(
        before,
        after,
        match_inputs,
        location,
        matched_expr,
        n_snapshots,
        types,
        arms,
        match_type,
        lowered,
    );
    assert(lowered.tree@.leaf_paths().contains(variants));
    lemma_value(m, types, variants);
    lemma_choice(
        m,
        match_type,
        arms,
        location,
        n_snapshots,
        types,
        match_inputs->Ok_0@,
        variants,
    );
}

/// The variants that no arm matches are named in parentheses, with a comma and a space between each two
/// of them.
pub proof fn law_variants_are_named_in_parentheses(
    m: &SemanticModel,
    variants: Seq<ConcreteVariant>,
)
    ensures
        variants.len() == 0 ==> variants_text(m, variants) == seq!['(', ')'],
        variants.len() == 1 ==> variants_text(m, variants) == seq!['(']
            + m.db.variant_names@[variants[0].id.0 as int]@ + seq![')'],
        variants.len() > 1 ==> variants_text(m, variants) == variants_text(
            m,
            variants.drop_last(),
        ).drop_last() + seq![',', ' '] + m.db.variant_names@[variants.last().id.0 as int]@ + seq![
            ')',
        ],
{
    reveal_strlit("(");
    reveal_strlit(")");
    reveal_strlit(", ");
    let names = Seq::new(variants.len(), |i: int| m.db.variant_name(variants[i]));
    assert("("@ =~= seq!['(']);
    assert(")"@ =~= seq![')']);
    assert(", "@ =~= seq![',', ' ']);
    if variants.len() == 0 {
        assert(variants_text(m, variants) =~= seq!['(', ')']);
    } else if variants.len() == 1 {
        assert(joined(names, ", "@) == names[0]);
    } else {
        let fewer = Seq::new(
            (variants.len() - 1) as nat,
            |i: int| m.db.variant_name(variants.drop_last()[i]),
        );
        assert(names.drop_last() =~= fewer);
        let text = variants_text(m, variants.drop_last());
        assert(text.drop_last() =~= "("@ + joined(fewer, ", "@));
        assert(variants_text(m, variants) =~= text.drop_last() + seq![',', ' '] + m.db.variant_name(
            variants.last(),
        ) + seq![')']);
    }
}

/// Whether the pattern of a field of the type `ty` is one on the enum there, or `_`.
pub open spec fn fits_field(m: &SemanticModel, ty: TypeId, pattern: PatternId) -> bool {
    match m.kind(pattern) {
        PatternKind::EnumVariant(p) => m.db.peeled_enum(ty) == Some(p.variant.concrete_enum_id),
        PatternKind::Otherwise => true,
        _ => false,
    }
}

/// Whether `pattern` is a pattern on a tuple with a pattern for each field that fits there.
pub open spec fn fits_tuple(m: &SemanticModel, types: Seq<TypeId>, pattern: PatternId) -> bool {
    &&& m.kind(pattern) matches PatternKind::Tuple(fields)
    &&& fields@.len() == types.len()
    &&& forall|i: int| 0 <= i < types.len() ==> fits_field(m, types[i], #[trigger] fields@[i])
}

/// Whether `pattern` is a pattern on a tuple whose field at `at` is the first one whose pattern does not
/// fit there.
pub open spec fn misfits_at(m: &SemanticModel, types: Seq<TypeId>, pattern: PatternId, at: int) -> bool {
    &&& m.kind(pattern) matches PatternKind::Tuple(fields)
    &&& 0 <= at < fields@.len()
    &&& at < types.len()
    &&& !fits_field(m, types[at], fields@[at])
    &&& forall|i: int| 0 <= i < at ==> fits_field(m, types[i], #[trigger] fields@[i])
}

/// There is an enum with known variants under the snapshots around each type.
pub open spec fn are_enums(m: &SemanticModel, types: Seq<TypeId>) -> bool {
    forall|i: int|
        0 <= i < types.len() ==> (m.db.peeled_enum(#[trigger] types[i]) matches Some(e)
            && m.db.variants(e) is Ok)
}

/// The variants of the patterns are variants of their enums.
pub open spec fn variants_exist(m: &SemanticModel) -> bool {
    forall|p: PatternId|
        m.has_pattern(p) && m.kind(p) is EnumVariant ==> {
            let variant = (#[trigger] m.kind(p))->EnumVariant_0.variant;
            m.db.variants(variant.concrete_enum_id) matches Ok(variants) ==> variants.contains(
                variant,
            )
        }
}

/// Whether every value that `pattern` matches is matched by one of the first `n` of `patterns`.
pub open spec fn adds_nothing(
    m: &SemanticModel,
    types: Seq<TypeId>,
    patterns: Seq<(PatternPath, PatternId)>,
    n: int,
    pattern: PatternId,
) -> bool {
    forall|variants: Seq<ConcreteVariant>| #[trigger]
        is_value_of(m, types, variants) && pattern_matches(m, pattern, variants) ==> exists|j: int|
            0 <= j < n && pattern_matches(m, (#[trigger] patterns[j]).1, variants)
}

/// `report` is the match error `error` at `pattern`.
pub open spec fn reports_pattern(
    m: &SemanticModel,
    report: Report,
    match_type: MatchKind,
    pattern: PatternId,
    error: MatchDiagnostic<Seq<char>>,
) -> bool {
    &&& report.location.0.0 == m.pattern_ptr(pattern)
    &&& report.kind matches LoweringDiagnosticKind::MatchError(reported)
    &&& reported.kind == match_type
    &&& reported.error == error
}

proof fn lemma_supported(
    m: &SemanticModel,
    types: Seq<TypeId>,
    fields: Seq<PatternId>,
    n: nat,
    at: int,
)
    requires
        are_enums(m, types),
        fields.len() == types.len() || at < types.len(),
        n <= at <= fields.len(),
        forall|i: int| 0 <= i < at ==> fits_field(m, types[i], #[trigger] fields[i]),
        at < fields.len() ==> at < types.len() && !fits_field(m, types[at], fields[at]),
    ensures
        at == fields.len() ==> unsupported_field(m, fields, tuple_details(m, types), n) is None,
        at < fields.len() && (forall|i: int|
            0 <= i < types.len() ==> (#[trigger] tuple_details(
                m,
                types,
            )[i]).concrete_variants.len() > 0) ==> unsupported_field(
            m,
            fields,
            tuple_details(m, types),
            n,
        ) == Some(fields[at]),
    decreases fields.len() - n,
{
    let details = tuple_details(m, types);
    if n < fields.len() {
        assert(m.db.peeled_enum(types[n as int]) is Some);
        assert(details[n as int].concrete_enum_id == m.db.peeled_enum(types[n as int])->0);
        if n < at {
            assert(fits_field(m, types[n as int], fields[n as int]));
            lemma_supported(m, types, fields, n + 1, at);
        }
    }
}

/// The lists of variants that a pattern takes are values, and have an entry where a pattern before it
/// matches them.
proof fn lemma_new_entries(
    m: &SemanticModel,
    match_type: MatchKind,
    types: Seq<TypeId>,
    patterns: Seq<(PatternPath, PatternId)>,
)
    requires
        m.wf(),
        types_exist(m, types),
        are_enums(m, types),
        variants_exist(m),
        patterns.len() > 0,
        m.has_pattern(patterns.last().1),
        mapping_of_all(m, match_type, patterns.drop_last(), tuple_details(m, types)).result is Ok,
        fits_tuple(m, types, patterns.last().1),
    ensures
        ({
            let details = tuple_details(m, types);
            let before = mapping_of_all(m, match_type, patterns.drop_last(), details).map;
            let (path, pattern) = patterns.last();
            with_tuple_pattern(before, m, m.kind(pattern)->Tuple_0@, path, details, seq![]) == before
                <==> adds_nothing(m, types, patterns, patterns.len() - 1, pattern)
        }),
{
    let details = tuple_details(m, types);
    let first = patterns.drop_last();
    let before = mapping_of_all(m, match_type, first, details).map;
    let (path, pattern) = patterns.last();
    let fields = m.kind(pattern)->Tuple_0@;
    law_unreachable_where_nothing_is_new(before, m, fields, path, details);
    assert(m.pattern_wf(pattern.0 as int));
    lemma_collected_are_tuples(m, match_type, first, details);
    assert(forall|j: int| 0 <= j < first.len() ==> #[trigger] first[j] == patterns[j]);
    // A list with an entry is one that a pattern before matches.
    assert forall|variants: Seq<ConcreteVariant>| #[trigger]
        is_value_of(m, types, variants) implies (before.dom().contains(variants) <==> exists|j: int|
        0 <= j < patterns.len() - 1 && pattern_matches(m, (#[trigger] patterns[j]).1, variants)) by {
        lemma_value(m, types, variants);
        law_first_tuple_pattern_wins(m, match_type, first, details, variants);
        let k = lemma_first_taking_tuple(m, first, details, variants);
        assert forall|j: int| 0 <= j < first.len() implies (takes_tuple(
            m,
            (#[trigger] first[j]).1,
            details,
            variants,
        ) <==> pattern_matches(m, first[j].1, variants)) by {
            lemma_takes(m, details, first[j].1, variants);
        }
        if k < first.len() {
            assert(pattern_matches(m, patterns[k].1, variants));
        }
        if exists|j: int|
            0 <= j < patterns.len() - 1 && pattern_matches(
                m,
                (#[trigger] patterns[j]).1,
                variants,
            ) {
            let j = choose|j: int|
                0 <= j < patterns.len() - 1 && pattern_matches(
                    m,
                    (#[trigger] patterns[j]).1,
                    variants,
                );
            assert(takes_tuple(m, first[j].1, details, variants));
        }
    }
    // What the pattern takes are values.
    assert forall|variants: Seq<ConcreteVariant>| #[trigger]
        fields_take(m, fields, details, variants, 0) <==> is_value_of(m, types, variants)
            && pattern_matches(m, pattern, variants) by {
        if fields_take(m, fields, details, variants, 0) {
            assert forall|i: int| 0 <= i < types.len() implies has_variant(
                m,
                types[i],
                #[trigger] variants[i],
            ) by {
                assert(m.db.peeled_enum(types[i]) is Some);
                assert(fits_field(m, types[i], fields[i]));
                assert(field_takes(m, fields[i], details[i], variants[i]));
                assert(m.kind(fields[i]) is EnumVariant || m.kind(fields[i]) is Otherwise);
            }
            lemma_value(m, types, variants);
        }
        if is_value_of(m, types, variants) {
            lemma_value(m, types, variants);
            lemma_takes(m, details, pattern, variants);
        }
    }
    if adds_nothing(m, types, patterns, patterns.len() - 1, pattern) {
        assert forall|variants: Seq<ConcreteVariant>| #[trigger]
            fields_take(m, fields, details, variants, 0) implies before.dom().contains(variants) by {
            assert(is_value_of(m, types, variants));
        }
    }
    if forall|variants: Seq<ConcreteVariant>| #[trigger]
        fields_take(m, fields, details, variants, 0) ==> before.dom().contains(variants) {
        assert forall|variants: Seq<ConcreteVariant>| #[trigger]
            is_value_of(m, types, variants) && pattern_matches(m, pattern, variants) implies exists|
            j: int,
        |
            0 <= j < patterns.len() - 1 && pattern_matches(m, (#[trigger] patterns[j]).1, variants) by {
            assert(fields_take(m, fields, details, variants, 0));
        }
    }
}

/// Patterns that were collected are patterns on a tuple.
proof fn lemma_collected_are_tuples(
    m: &SemanticModel,
    match_type: MatchKind,
    patterns: Seq<(PatternPath, PatternId)>,
    details: Seq<EnumDetails>,
)
    requires
        mapping_of_all(m, match_type, patterns, details).result is Ok,
    ensures
        forall|k: int| 0 <= k < patterns.len() ==> m.kind((#[trigger] patterns[k]).1) is Tuple,
    decreases patterns.len(),
{
    if patterns.len() > 0 {
        let before = patterns.drop_last();
        lemma_collected_are_tuples(m, match_type, before, details);
        assert forall|k: int| 0 <= k < patterns.len() implies m.kind(
            (#[trigger] patterns[k]).1,
        ) is Tuple by {
            if k < before.len() {
                assert(patterns[k] == before[k]);
            }
        }
    }
}

/// The patterns of a match on a tuple are collected in turn, up to the first one that is no pattern on
/// the tuple. That one is reported, at the first field that does not fit, and fails the match. A pattern
/// on the tuple is accepted, and reported as unreachable exactly where every value that it matches is
/// matched by a pattern before it.
pub proof fn law_tuple_patterns_are_collected_in_turn(
    m: &SemanticModel,
    match_type: MatchKind,
    types: Seq<TypeId>,
    patterns: Seq<(PatternPath, PatternId)>,
)
    requires
        m.wf(),
        types_exist(m, types),
        are_enums(m, types),
        variants_exist(m),
        patterns.len() > 0,
        m.has_pattern(patterns.last().1),
    ensures
        ({
            let details = tuple_details(m, types);
            let before = mapping_of_all(m, match_type, patterns.drop_last(), details);
            let after = mapping_of_all(m, match_type, patterns, details);
            let pattern = patterns.last().1;
            let n = before.reports.len();
            &&& before.result is Err ==> after == before
            &&& before.result is Ok ==> {
                &&& n <= after.reports.len() <= n + 1
                &&& after.reports.take(n as int) == before.reports
                &&& fits_tuple(m, types, pattern) ==> {
                    &&& after.result is Ok
                    &&& after.reports.len() > n <==> adds_nothing(
                        m,
                        types,
                        patterns,
                        patterns.len() - 1,
                        pattern,
                    )
                    &&& after.reports.len() > n ==> reports_pattern(
                        m,
                        after.reports[n as int],
                        match_type,
                        pattern,
                        MatchDiagnostic::UnreachableMatchArm,
                    )
                }
                &&& !(m.kind(pattern) is Tuple) ==> {
                    &&& after.result is Err
                    &&& after.reports.len() == n + 1
                    &&& reports_pattern(
                        m,
                        after.reports[n as int],
                        match_type,
                        pattern,
                        MatchDiagnostic::UnsupportedMatchArmNotAVariant,
                    )
                }
                &&& forall|at: int|
                    #![trigger misfits_at(m, types, pattern, at)]
                    misfits_at(m, types, pattern, at) && (forall|i: int|
                        0 <= i < types.len() ==> (#[trigger] details[i]).concrete_variants.len() > 0)
                        ==> {
                        &&& after.result is Err
                        &&& after.reports.len() == n + 1
                        &&& reports_pattern(
                            m,
                            after.reports[n as int],
                            match_type,
                            m.kind(pattern)->Tuple_0@[at],
                            MatchDiagnostic::UnsupportedMatchArmNotAVariant,
                        )
                    }
            }
        }),
{
    let details = tuple_details(m, types);
    let before = mapping_of_all(m, match_type, patterns.drop_last(), details);
    let after = mapping_of_all(m, match_type, patterns, details);
    let pattern = patterns.last().1;
    let n = before.reports.len() as int;
    if before.result is Ok {
        assert(after.reports.take(n) =~= before.reports);
        if fits_tuple(m, types, pattern) {
            let fields = m.kind(pattern)->Tuple_0@;
            lemma_supported(m, types, fields, 0, fields.len() as int);
            lemma_new_entries(m, match_type, types, patterns);
        }
        assert forall|at: int|
            #![trigger misfits_at(m, types, pattern, at)]
            misfits_at(m, types, pattern, at) && (forall|i: int|
                0 <= i < types.len() ==> (#[trigger] details[i]).concrete_variants.len() > 0) implies {
            &&& after.result is Err
            &&& after.reports.len() == n + 1
            &&& reports_pattern(
                m,
                after.reports[n],
                match_type,
                m.kind(pattern)->Tuple_0@[at],
                MatchDiagnostic::UnsupportedMatchArmNotAVariant,
            )
        } by {
            let fields = m.kind(pattern)->Tuple_0@;
            lemma_supported(m, types, fields, 0, at);
        }
    }
}

proof fn lemma_all_fit(
    m: &SemanticModel,
    match_type: MatchKind,
    types: Seq<TypeId>,
    patterns: Seq<(PatternPath, PatternId)>,
)
    requires
        are_enums(m, types),
        forall|k: int| 0 <= k < patterns.len() ==> fits_tuple(m, types, (#[trigger] patterns[k]).1),
    ensures
        mapping_of_all(m, match_type, patterns, tuple_details(m, types)).result is Ok,
    decreases patterns.len(),
{
    if patterns.len() > 0 {
        let before = patterns.drop_last();
        assert forall|k: int| 0 <= k < before.len() implies fits_tuple(
            m,
            types,
            (#[trigger] before[k]).1,
        ) by {
            assert(before[k] == patterns[k]);
        }
        lemma_all_fit(m, match_type, types, before);
        assert(patterns[patterns.len() - 1] == patterns.last());
        let fields = m.kind(patterns.last().1)->Tuple_0@;
        lemma_supported(m, types, fields, 0, fields.len() as int);
    }
}

/// A match on a tuple of enums whose patterns are `_` and patterns on the tuple, with patterns on
/// variants of the enums and `_` for the fields, is lowered.
pub proof fn law_matches_on_tuples_of_enums_are_lowered(
    before: LoweringContext,
    after: LoweringContext,
    match_inputs: LoweringResult<Vec<VarUsage>>,
    location: LocationId,
    matched_expr: ExprId,
    n_snapshots: usize,
    types: Seq<TypeId>,
    arms: Seq<MatchArmWrapper>,
    match_type: MatchKind,
    r: LoweringResult<TupleMatch>,
)
    requires
        arms_wf(&before.semantic, arms),
        arms.len() <= usize::MAX,
        tuple_match_outcome(
            before,
            after,
            match_inputs,
            location,
            matched_expr,
            n_snapshots,
            types,
            arms,
            match_type,
            r,
        ),
        match_inputs is Ok,
        are_enums(&before.semantic, types),
        forall|i: int, j: int|
            0 <= i < arms.len() && 0 <= j < arms[i].patterns@.len() ==> before.semantic.kind(
                #[trigger] arms[i].patterns@[j],
            ) is Otherwise || fits_tuple(&before.semantic, types, arms[i].patterns@[j]),
    ensures
        r is Ok,
{
    let m = &before.semantic;
    lemma_known(m, types);
    lemma_first_taking_all(m, arms);
    let n = first_taking_all(m, arms) as int;
    let first_arms = arms.take(n);
    let patterns = patterns_before_otherwise(m, first_arms);
    lemma_patterns(m, first_arms, arms);
    assert forall|k: int| 0 <= k < patterns.len() implies fits_tuple(
        m,
        types,
        (#[trigger] patterns[k]).1,
    ) by {
        let (path, pattern) = patterns[k];
        let arm = arms[path.arm_index as int];
        assert(!takes_all(m, arm));
        lemma_first_otherwise(m, arm.patterns@);
        assert(arm.patterns@[path.pattern_index->0 as int] == pattern);
    }
    lemma_all_fit(m, match_type, types, patterns);
}

/// All enums are known.
proof fn lemma_known(m: &SemanticModel, types: Seq<TypeId>)
    requires
        are_enums(m, types),
    ensures
        first_unknown_enum(m, types) == types.len(),
{
    assert forall|i: int| 0 <= i < types.len() implies is_known_enum(m, #[trigger] types[i]) by {
        assert(m.db.peeled_enum(types[i]) is Some);
    }
    lemma_first_unknown_enum(m, types, types.len());
}

/// A match on a tuple whose fields were lowered fails at the first field that is no enum with known
/// variants. A field that is no enum is reported at the matched expression, and nothing else is.
pub proof fn law_only_tuples_of_enums_are_matched(
    before: LoweringContext,
    after: LoweringContext,
    match_inputs: LoweringResult<Vec<VarUsage>>,
    location: LocationId,
    matched_expr: ExprId,
    n_snapshots: usize,
    types: Seq<TypeId>,
    arms: Seq<MatchArmWrapper>,
    match_type: MatchKind,
    r: LoweringResult<TupleMatch>,
    at: int,
)
    requires
        tuple_match_outcome(
            before,
            after,
            match_inputs,
            location,
            matched_expr,
            n_snapshots,
            types,
            arms,
            match_type,
            r,
        ),
        match_inputs is Ok,
        0 <= at < types.len(),
        are_enums(&before.semantic, types.take(at)),
        !are_enums(&before.semantic, types.take(at + 1)),
    ensures
        ({
            let m = &before.semantic;
            let n = before.reported().len() as int;
            &&& r == Err::<TupleMatch, LoweringFlowError>(
                LoweringFlowError::Failed(DiagnosticAdded),
            )
            &&& after.reported().take(n) == before.reported()
            &&& m.db.peeled_enum(types[at]) is Some ==> after.reported().len() == n
            &&& m.db.peeled_enum(types[at]) is None ==> {
                &&& after.reported().len() == n + 1
                &&& after.reported()[n].location.0.0 == m.exprs@[matched_expr.0 as int].stable_ptr
                &&& after.reported()[n].kind matches LoweringDiagnosticKind::MatchError(reported)
                &&& reported.kind == match_type
                &&& reported.error == MatchDiagnostic::<Seq<char>>::UnsupportedMatchedValueTuple
            }
        }),
{
    let m = &before.semantic;
    let some = types.take(at);
    assert forall|i: int| 0 <= i < at implies is_known_enum(m, #[trigger] types[i]) by {
        assert(m.db.peeled_enum(some[i]) is Some);
    }
    if is_known_enum(m, types[at]) {
        assert forall|i: int| 0 <= i < types.take(at + 1).len() implies (m.db.peeled_enum(
            #[trigger] types.take(at + 1)[i],
        ) matches Some(e) && m.db.variants(e) is Ok) by {
            assert(is_known_enum(m, types[i]));
        }
    }
    lemma_first_unknown_enum(m, types, at as nat);
    assert(after.reported().take(before.reported().len() as int) =~= before.reported());
}

/// A tuple whose fields could not be lowered fails the match with that error, and nothing is reported.
pub proof fn law_a_tuple_that_is_not_lowered_fails_the_match(
    before: LoweringContext,
    after: LoweringContext,
    error: LoweringFlowError,
    location: LocationId,
    matched_expr: ExprId,
    n_snapshots: usize,
    types: Seq<TypeId>,
    arms: Seq<MatchArmWrapper>,
    match_type: MatchKind,
    r: LoweringResult<TupleMatch>,
)
    requires
        tuple_match_outcome(
            before,
            after,
            Err(error),
            location,
            matched_expr,
            n_snapshots,
            types,
            arms,
            match_type,
            r,
        ),
    ensures
        r == Err::<TupleMatch, _>(error),
        after.reported() == before.reported(),
        after.semantic == before.semantic,
{
    assert(after.reported() =~= before.reported());
}

/// Joined blocks of a match on a tuple are merged with a match on the first field, without arms, at the
/// location of the tuple.
pub proof fn law_joined_blocks_are_merged_with_a_match_on_the_first_field(
    before: LoweringContext,
    after: LoweringContext,
    match_inputs: LoweringResult<Vec<VarUsage>>,
    location: LocationId,
    matched_expr: ExprId,
    n_snapshots: usize,
    types: Seq<TypeId>,
    arms: Seq<MatchArmWrapper>,
    match_type: MatchKind,
    lowered: TupleMatch,
)
    requires
        tuple_match_outcome(
            before,
            after,
            match_inputs,
            location,
            matched_expr,
            n_snapshots,
            types,
            arms,
            match_type,
            Ok(lowered),
        ),
        types.len() > 0,
    ensures
        lowered.context.match_location == location,
        lowered.empty_match_info matches MatchInfo::Enum(info) && {
            &&& Some(info.concrete_enum_id) == before.semantic.db.peeled_enum(types[0])
            &&& info.input == match_inputs->Ok_0@[0]
            &&& info.arms@.len() == 0
            &&& info.location == location
        },
{
    lemma_first_unknown_enum_bound(&before.semantic, types);
    assert(is_known_enum(&before.semantic, types[0]));
}

/// Where a list of variants leads: to the arm of the pattern that is selected for it, the one that the
/// list has an entry for, or else the underscore pattern. Where nothing is selected, the list is reported
/// as missing at the match. A selected pattern that is none on a tuple is reported where it is written.
pub proof fn law_variants_lead_to_the_selected_pattern(
    selection: TupleSelection,
    m: &SemanticModel,
    arms: Seq<MatchArmWrapper>,
    variants: Seq<ConcreteVariant>,
)
    ensures
        ({
            let selected = if selection.variants_map.dom().contains(variants) {
                Some(selection.variants_map[variants])
            } else {
                selection.otherwise_variant
            };
            let choice = selection.chosen(m, arms, variants);
            match selected {
                None => {
                    &&& choice is None
                    &&& selection.target(m, arms, variants) matches LeafTarget::Error(at, error)
                    &&& at == selection.match_location
                    &&& error == MatchDiagnostic::<Seq<char>>::MissingMatchArm(
                        variants_text(m, variants),
                    )
                },
                Some(PatternPath { arm_index, pattern_index: None }) => {
                    &&& choice matches Some(leaf)
                    &&& leaf.arm_index == arm_index
                    &&& leaf.bindings.len() == 0
                    &&& selection.target(m, arms, variants) == LeafTarget::Arm::<Seq<char>>(arm_index)
                },
                Some(PatternPath { arm_index, pattern_index: Some(j) }) => {
                    let pattern = arms[arm_index as int].patterns@[j as int];
                    if m.kind(pattern) is Tuple || m.kind(pattern) is Otherwise {
                        &&& choice matches Some(leaf)
                        &&& leaf.arm_index == arm_index
                        &&& m.kind(pattern) is Otherwise ==> leaf.bindings.len() == 0
                        &&& m.kind(pattern) matches PatternKind::Tuple(fields) ==> binds_fields(
                            m,
                            fields@,
                            leaf.bindings,
                        )
                        &&& selection.target(m, arms, variants) == LeafTarget::Arm::<Seq<char>>(
                            arm_index,
                        )
                    } else {
                        &&& choice is None
                        &&& selection.target(m, arms, variants) matches LeafTarget::Error(at, error)
                        &&& at.0.0 == m.pattern_ptr(pattern)
                        &&& error is UnsupportedMatchArmNotATuple
                    }
                },
            }
        }),
{
    if let Some(path) = selection.selected(variants) {
        if let Some(pattern) = path.pattern(arms) {
            if let PatternKind::Tuple(fields) = m.kind(pattern) {
                assert(fields@.len() == fields.len());
                lemma_bindings(m, fields@, fields@.len());
                assert(fields@.take(fields@.len() as int) =~= fields@);
            }
        }
    }
}

/// The view of a tree is the tree: its nodes, with their inputs, locations and arms, and its leaves.
pub proof fn law_the_view_of_a_tree_is_the_tree(tree: DecisionTree)
    ensures
        match tree {
            DecisionTree::Leaf { variants, leaf } => {
                &&& tree@ matches Decision::Leaf { variants: seen, leaf: choice }
                &&& seen == variants.variants@
                &&& match (leaf, choice) {
                    (None, None) => true,
                    (Some(leaf), Some(choice)) => leaf.arm_index == choice.arm_index
                        && leaf.bindings@ == choice.bindings,
                    _ => false,
                }
            },
            DecisionTree::Node { concrete_enum_id, input, arms, location } => {
                &&& tree@ matches Decision::Node {
                    concrete_enum_id: e,
                    input: read,
                    arms: branches,
                    location: at,
                }
                &&& e == concrete_enum_id
                &&& read == input
                &&& at == location
                &&& branches.len() == arms@.len()
                &&& forall|i: int|
                    0 <= i < branches.len() ==> (#[trigger] branches[i]).variant == arms@[i].variant
                        && branches[i].var == arms@[i].var && branches[i].next == arms@[i].next@
            },
        },
{
}

proof fn lemma_within(
    m: &SemanticModel,
    fields: Seq<PatternId>,
    details: Seq<EnumDetails>,
    n: nat,
)
    requires
        fields.len() <= details.len(),
    ensures
        fields_within(m, fields, details, n),
    decreases fields.len() - n,
{
    if n < fields.len() {
        lemma_within(m, fields, details, n + 1);
    }
}

/// A match on a tuple is defined where its fields were lowered to as many variables, there is a field,
/// the snapshots can be counted, and no pattern has more fields than the tuple. It is defined, since it
/// fails early, where the fields could not be lowered or are not all enums with known variants.
pub proof fn law_matches_on_tuples_of_enums_are_defined(
    m: &SemanticModel,
    match_type: MatchKind,
    n_inputs: Option<nat>,
    n_snapshots: nat,
    types: Seq<TypeId>,
    arms: Seq<MatchArmWrapper>,
)
    requires
        arms_wf(m, arms),
        arms.len() <= usize::MAX,
        n_inputs is None || !are_enums(m, types) || {
            &&& 0 < types.len() <= n_inputs->0
            &&& forall|i: int|
                0 <= i < types.len() ==> m.db.peeled(#[trigger] types[i]).0 + n_snapshots
                    <= usize::MAX
            &&& forall|i: int, j: int|
                0 <= i < arms.len() && 0 <= j < arms[i].patterns@.len() ==> (m.kind(
                    #[trigger] arms[i].patterns@[j],
                ) matches PatternKind::Tuple(fields) ==> fields@.len() <= types.len())
        },
    ensures
        tuple_match_defined(m, match_type, n_inputs, n_snapshots, types, arms),
{
    let details = tuple_details(m, types);
    lemma_first_unknown_enum_bound(m, types);
    if first_unknown_enum(m, types) == types.len() {
        assert forall|i: int| 0 <= i < types.len() implies (m.db.peeled_enum(
            #[trigger] types[i],
        ) matches Some(e) && m.db.variants(e) is Ok) by {
            assert(is_known_enum(m, types[i]));
        }
        if n_inputs is Some {
            lemma_first_taking_all(m, arms);
            let first_arms = arms.take(first_taking_all(m, arms) as int);
            let patterns = patterns_before_otherwise(m, first_arms);
            lemma_patterns(m, first_arms, arms);
            assert forall|k: int| 0 <= k < patterns.len() implies pattern_within(
                m,
                (#[trigger] patterns[k]).1,
                details,
            ) by {
                let (path, pattern) = patterns[k];
                assert(arms[path.arm_index as int].patterns@[path.pattern_index->0 as int]
                    == pattern);
                if let PatternKind::Tuple(fields) = m.kind(pattern) {
                    lemma_within(m, fields@, details, 0);
                }
            }
        }
    }
}

/// What is extracted of the enums of a tuple is that of each field, in their order.
pub proof fn law_details_of_a_tuple_are_those_of_its_fields(
    m: &SemanticModel,
    types: Seq<TypeId>,
    i: int,
)
    requires
        m.wf(),
        types_exist(m, types),
        are_enums(m, types),
        0 <= i < types.len(),
    ensures
        ({
            let details = tuple_details(m, types);
            &&& details.len() == types.len()
            &&& Some(details[i].concrete_enum_id) == m.db.peeled_enum(types[i])
            &&& m.db.variants(details[i].concrete_enum_id) matches Ok(variants)
            &&& details[i].concrete_variants == variants
            &&& details[i].n_snapshots == m.db.peeled(types[i]).0
        }),
{
    assert(m.db.peeled_enum(types[i]) is Some);
    assert(m.db.has_type(types[i]));
    m.db.lemma_peeled(types[i]);
}

/// A field with a `_` over an enum without variants hides what comes after it: a pattern on a tuple that
/// fits up to there is accepted. It matches nothing, so it is reported as unreachable.
pub proof fn law_a_field_without_variants_hides_those_after_it(
    m: &SemanticModel,
    match_type: MatchKind,
    types: Seq<TypeId>,
    patterns: Seq<(PatternPath, PatternId)>,
    at: int,
)
    requires
        are_enums(m, types),
        patterns.len() > 0,
        mapping_of_all(m, match_type, patterns.drop_last(), tuple_details(m, types)).result is Ok,
        m.kind(patterns.last().1) matches PatternKind::Tuple(fields) && {
            &&& 0 <= at < fields@.len()
            &&& at < types.len()
            &&& forall|i: int| 0 <= i <= at ==> fits_field(m, types[i], #[trigger] fields@[i])
            &&& m.kind(fields@[at]) is Otherwise
            &&& m.db.variants(m.db.peeled_enum(types[at])->0)->Ok_0.len() == 0
        },
    ensures
        ({
            let details = tuple_details(m, types);
            let before = mapping_of_all(m, match_type, patterns.drop_last(), details);
            let after = mapping_of_all(m, match_type, patterns, details);
            &&& after.result is Ok
            &&& after.map == before.map
            &&& after.reports.len() == before.reports.len() + 1
            &&& reports_pattern(
                m,
                after.reports.last(),
                match_type,
                patterns.last().1,
                MatchDiagnostic::UnreachableMatchArm,
            )
        }),
{
    let details = tuple_details(m, types);
    let before = mapping_of_all(m, match_type, patterns.drop_last(), details);
    let (path, pattern) = patterns.last();
    let fields = m.kind(pattern)->Tuple_0@;
    lemma_hidden(m, types, fields, 0, at);
    law_unreachable_where_nothing_is_new(before.map, m, fields, path, details);
    assert forall|variants: Seq<ConcreteVariant>| #[trigger]
        fields_take(m, fields, details, variants, 0) implies before.map.dom().contains(variants) by {
        assert(field_takes(m, fields[at], details[at], variants[at]));
    }
}

proof fn lemma_hidden(
    m: &SemanticModel,
    types: Seq<TypeId>,
    fields: Seq<PatternId>,
    n: nat,
    at: int,
)
    requires
        are_enums(m, types),
        n <= at < fields.len(),
        at < types.len(),
        forall|i: int| 0 <= i <= at ==> fits_field(m, types[i], #[trigger] fields[i]),
        m.kind(fields[at]) is Otherwise,
        tuple_details(m, types)[at].concrete_variants.len() == 0,
    ensures
        unsupported_field(m, fields, tuple_details(m, types), n) is None,
    decreases at - n,
{
    let details = tuple_details(m, types);
    assert(m.db.peeled_enum(types[n as int]) is Some);
    assert(details[n as int].concrete_enum_id == m.db.peeled_enum(types[n as int])->0);
    assert(fits_field(m, types[n as int], fields[n as int]));
    if n < at {
        lemma_hidden(m, types, fields, n + 1, at);
    }
}

/// The patterns that are collected of a match on a tuple are those of the arms before the first one with
/// a `_` or without patterns, the one at `n`, in the order in which they are written, and each path leads
/// to its pattern.
pub proof fn law_patterns_before_the_underscore_are_collected(
    m: &SemanticModel,
    match_type: MatchKind,
    arms: Seq<MatchArmWrapper>,
    types: Seq<TypeId>,
    n: int,
) -> (patterns: Seq<(PatternPath, PatternId)>)
    requires
        arms_wf(m, arms),
        arms.len() <= usize::MAX,
        0 <= n <= arms.len(),
        forall|i: int| 0 <= i < n ==> !is_catch_all(m, #[trigger] arms[i]),
        n < arms.len() ==> is_catch_all(m, arms[n]),
    ensures
        tuple_mapping(m, match_type, arms, tuple_details(m, types)) == mapping_of_all(
            m,
            match_type,
            patterns,
            tuple_details(m, types),
        ),
        patterns.len() == written_patterns(arms.take(n)).len(),
        forall|k: int|
            0 <= k < patterns.len() ==> {
                let (path, pattern) = #[trigger] patterns[k];
                &&& pattern == written_patterns(arms.take(n))[k]
                &&& path.arm_index < n
                &&& path.pattern_index matches Some(j) && arms[path.arm_index as int].patterns@[j as int]
                    == pattern
            },
{
    law_the_underscore_is_the_first_catch_all(m, arms);
    lemma_first_taking_all(m, arms);
    let first = first_taking_all(m, arms) as int;
    if first < n {
        assert(underscore_path(m, arms) is Some);
        assert(is_catch_all(m, arms[first]));
    } else if first > n {
        assert(!takes_all(m, arms[n]));
        lemma_first_otherwise(m, arms[n].patterns@);
    }
    let first_arms = arms.take(n);
    let patterns = patterns_before_otherwise(m, first_arms);
    lemma_patterns(m, first_arms, arms);
    assert forall|i: int| 0 <= i < n implies !is_catch_all(m, #[trigger] first_arms[i]) by {
        assert(first_arms[i] == arms[i]);
    }
    lemma_written(m, first_arms);
    patterns
}

proof fn lemma_written(m: &SemanticModel, arms: Seq<MatchArmWrapper>)
    requires
        forall|i: int| 0 <= i < arms.len() ==> !is_catch_all(m, #[trigger] arms[i]),
    ensures
        written_patterns(arms).len() == patterns_before_otherwise(m, arms).len(),
        forall|k: int|
            0 <= k < patterns_before_otherwise(m, arms).len() ==> (
            #[trigger] patterns_before_otherwise(m, arms)[k]).1 == written_patterns(arms)[k],
    decreases arms.len(),
{
    if arms.len() > 0 {
        let before = arms.drop_last();
        assert forall|i: int| 0 <= i < before.len() implies !is_catch_all(m, #[trigger] before[i]) by {
            assert(before[i] == arms[i]);
        }
        lemma_written(m, before);
        let lists = before.map_values(|arm: MatchArmWrapper| arm.patterns@);
        let last = arms.last().patterns@;
        lists.lemma_flatten_push(last);
        assert(arms.map_values(|arm: MatchArmWrapper| arm.patterns@) =~= lists.push(last));
        assert(written_patterns(arms) == written_patterns(before) + last);
        assert(!is_catch_all(m, arms[arms.len() - 1]));
        lemma_first_otherwise(m, last);
        let of_arm = patterns_of_arm(arms.last(), (arms.len() - 1) as nat);
        assert(of_arm.take(last.len() as int) =~= of_arm);
        let done = patterns_before_otherwise(m, before);
        let now = patterns_before_otherwise(m, arms);
        assert(now == done + of_arm);
        assert forall|k: int| 0 <= k < now.len() implies (#[trigger] now[k]).1 == written_patterns(
            arms,
        )[k] by {
            if k < done.len() {
                assert(now[k] == done[k]);
            }
        }
    }
}

/// A match on a tuple of enums whose fields were lowered is lowered exactly where all its patterns can be
/// collected. What comes after the underscore pattern is reported first, then what collecting reports.
pub proof fn law_tuple_matches_report_in_this_order(
    before: LoweringContext,
    after: LoweringContext,
    match_inputs: LoweringResult<Vec<VarUsage>>,
    location: LocationId,
    matched_expr: ExprId,
    n_snapshots: usize,
    types: Seq<TypeId>,
    arms: Seq<MatchArmWrapper>,
    match_type: MatchKind,
    r: LoweringResult<TupleMatch>,
)
    requires
        tuple_match_outcome(
            before,
            after,
            match_inputs,
            location,
            matched_expr,
            n_snapshots,
            types,
            arms,
            match_type,
            r,
        ),
        match_inputs is Ok,
        are_enums(&before.semantic, types),
    ensures
        ({
            let m = &before.semantic;
            let mapping = tuple_mapping(m, match_type, arms, tuple_details(m, types));
            &&& r is Ok <==> mapping.result is Ok
            &&& r is Err ==> r->Err_0 == LoweringFlowError::Failed(DiagnosticAdded)
            &&& after.reported() == before.reported() + unreachable_after_underscore(
                m,
                match_type,
                arms,
            ) + mapping.reports
        }),
{
    let m = &before.semantic;
    lemma_known(m, types);
    let mapping = tuple_mapping(m, match_type, arms, tuple_details(m, types));
    assert(after.reported() =~= before.reported() + unreachable_after_underscore(
        m,
        match_type,
        arms,
    ) + mapping.reports);
}

} // verus!

//! The decision tree of a match on a tuple of enums.
use vstd::prelude::*;
use vstd::string::StringExecFns;

use crate::adapters::{join, joined};
use crate::context::{failed, LoweringContext, LoweringFlowError, LoweringResult};
use crate::diagnostic::{location_of, LocationId, MatchDiagnostic, MatchKind};
use crate::enum_match::{concrete_enum_match_info, EnumDetails, ExtractedEnumDetails};
use crate::lowered::{
    arms_of_blocks, BlockId, MatchInfo, VarRequest, VarType, VarUsage, VariableId,
};
use crate::match_arms::{arms_wf, MatchArmWrapper, PatternPath};
use crate::match_groups::{
    leaf_reports, take_up_leaf, LeafTarget, LoweredLeaf, MatchLeafBuilder, Target,
};
use crate::semantic::{
    ConcreteEnumId, ConcreteVariant, PatternEnumVariant, PatternId, PatternKind, SemanticModel,
};
use crate::tuple_match::details_of;
use crate::variants_map::{MatchingPath, VariantsMap};

verus! {

/// Information needed to lower a match on tuple expression.
#[derive(PartialEq, Eq, Debug)]
pub struct LoweringMatchTupleContext {
    /// The location of the match expression.
    pub match_location: LocationId,
    /// The index of the underscore pattern, if it exists.
    pub otherwise_variant: Option<PatternPath>,
    /// A map from variants vector to their corresponding pattern path.
    pub variants_map: VariantsMap,
    /// The tuple's destructured inputs.
    pub match_inputs: Vec<VarUsage>,
    /// The number of snapshots of the tuple.
    pub n_snapshots_outer: usize,
}

/// The payload of a field of the tuple, and the pattern that it is lowered into.
#[derive(Clone, Copy, PartialEq, Eq, Debug)]
pub struct FieldBinding {
    /// The index of the field.
    pub index: usize,
    pub inner_pattern: PatternId,
    /// The location of the use of the payload.
    pub location: LocationId,
}

impl FieldBinding {
    /// The use of the payload. `var_ids` are the variables of the payloads of the fields.
    pub fn usage(&self, var_ids: &[VariableId]) -> (r: VarUsage)
        requires
            self.index < var_ids@.len(),
        ensures
            r == (VarUsage { var_id: var_ids@[self.index as int], location: self.location }),
    {
        VarUsage { var_id: var_ids[self.index], location: self.location }
    }
}

/// The leaf of a list of variants: where it leads, and what it does with the payloads.
#[derive(PartialEq, Eq, Debug)]
pub struct TupleLeaf {
    pub arm_index: usize,
    pub bindings: Vec<FieldBinding>,
}

/// A [TupleLeaf], its list taken as a sequence.
#[verifier::ext_equal]
pub struct LeafChoice {
    pub arm_index: usize,
    pub bindings: Seq<FieldBinding>,
}

impl TupleLeaf {
    pub open spec fn view(&self) -> LeafChoice {
        LeafChoice { arm_index: self.arm_index, bindings: self.bindings@ }
    }
}

/// A leaf, its list taken as a sequence.
pub open spec fn leaf_view(leaf: Option<TupleLeaf>) -> Option<LeafChoice> {
    match leaf {
        Some(leaf) => Some(leaf@),
        None => None,
    }
}

/// The payloads that the first `n` of `fields` lower into a pattern.
pub open spec fn field_bindings(m: &SemanticModel, fields: Seq<PatternId>, n: nat) -> Seq<
    FieldBinding,
>
    decreases n,
{
    if n == 0 {
        seq![]
    } else {
        let before = field_bindings(m, fields, (n - 1) as nat);
        match m.kind(fields[n - 1]) {
            PatternKind::EnumVariant(p) if p.inner_pattern is Some => before.push(
                FieldBinding {
                    index: (n - 1) as usize,
                    inner_pattern: p.inner_pattern->0,
                    location: location_of(m.pattern_ptr(p.inner_pattern->0)),
                },
            ),
            _ => before,
        }
    }
}

/// The names of variants as a diagnostic lists them: in parentheses, separated by commas.
pub open spec fn variants_text(m: &SemanticModel, variants: Seq<ConcreteVariant>) -> Seq<char> {
    "("@ + joined(
        Seq::new(variants.len(), |i: int| m.db.variant_name(variants[i])),
        ", "@,
    ) + ")"@
}

/// A [LoweringMatchTupleContext], its map and lists taken as such.
pub struct TupleSelection {
    pub match_location: LocationId,
    pub otherwise_variant: Option<PatternPath>,
    pub variants_map: Map<Seq<ConcreteVariant>, PatternPath>,
    pub match_inputs: Seq<VarUsage>,
    pub n_snapshots_outer: usize,
}

impl LoweringMatchTupleContext {
    pub open spec fn view(&self) -> TupleSelection {
        TupleSelection {
            match_location: self.match_location,
            otherwise_variant: self.otherwise_variant,
            variants_map: self.variants_map@,
            match_inputs: self.match_inputs@,
            n_snapshots_outer: self.n_snapshots_outer,
        }
    }

    /// No list of variants has two entries, and what is selected can be lowered.
    pub open spec fn wf(&self, m: &SemanticModel, arms: Seq<MatchArmWrapper>) -> bool {
        &&& self.variants_map.wf()
        &&& self@.wf(m, arms)
    }
}

impl TupleSelection {
    /// The path that is selected for a list of variants: that of the first pattern that takes it, or
    /// else that of the underscore pattern.
    pub open spec fn selected(&self, variants: Seq<ConcreteVariant>) -> Option<PatternPath> {
        if self.variants_map.dom().contains(variants) {
            Some(self.variants_map[variants])
        } else {
            self.otherwise_variant
        }
    }

    /// The leaf of `variants`, if there is one.
    pub open spec fn chosen(
        &self,
        m: &SemanticModel,
        arms: Seq<MatchArmWrapper>,
        variants: Seq<ConcreteVariant>,
    ) -> Option<LeafChoice> {
        match self.selected(variants) {
            None => None,
            Some(path) => match path.pattern(arms) {
                None => Some(LeafChoice { arm_index: path.arm_index, bindings: seq![] }),
                Some(pattern) => match m.kind(pattern) {
                    PatternKind::Tuple(fields) => Some(
                        LeafChoice {
                            arm_index: path.arm_index,
                            bindings: field_bindings(m, fields@, fields@.len()),
                        },
                    ),
                    PatternKind::Otherwise => Some(
                        LeafChoice { arm_index: path.arm_index, bindings: seq![] },
                    ),
                    _ => None,
                },
            },
        }
    }

    /// Where `variants` lead: to the arm of their leaf, or else it is reported that no arm takes
    /// them, or that a pattern is not one on a tuple.
    pub open spec fn target(
        &self,
        m: &SemanticModel,
        arms: Seq<MatchArmWrapper>,
        variants: Seq<ConcreteVariant>,
    ) -> Target {
        match (self.chosen(m, arms, variants), self.selected(variants)) {
            (Some(leaf), _) => LeafTarget::Arm(leaf.arm_index),
            (None, None) => LeafTarget::Error(
                self.match_location,
                MatchDiagnostic::MissingMatchArm(variants_text(m, variants)),
            ),
            (None, Some(path)) => LeafTarget::Error(
                location_of(m.pattern_ptr(path.pattern(arms)->0)),
                MatchDiagnostic::UnsupportedMatchArmNotATuple,
            ),
        }
    }

    /// The paths of the patterns lead into `arms`, and the fields of a pattern on a tuple are
    /// patterns on a variant or `_`.
    pub open spec fn wf(&self, m: &SemanticModel, arms: Seq<MatchArmWrapper>) -> bool {
        forall|variants: Seq<ConcreteVariant>| #[trigger]
            self.selected(variants) matches Some(path) ==> bindable(m, arms, path)
    }
}

/// Whether `path` leads into `arms`, and the fields of a pattern on a tuple there are patterns on a
/// variant or `_`.
pub open spec fn bindable(
    m: &SemanticModel,
    arms: Seq<MatchArmWrapper>,
    path: PatternPath,
) -> bool {
    &&& path.leads_into(arms)
    &&& path.pattern(arms) matches Some(pattern) ==> (m.kind(pattern) matches PatternKind::Tuple(
        fields,
    ) ==> forall|i: int|
        0 <= i < fields@.len() ==> (m.kind(#[trigger] fields@[i]) is EnumVariant || m.kind(
            fields@[i],
        ) is Otherwise))
}

/// The names of `variants`.
fn variants_description(m: &SemanticModel, variants: &Vec<ConcreteVariant>) -> (r: String)
    requires
        m.db.all_named(variants@),
    ensures
        r@ == variants_text(m, variants@),
{
    let mut names: Vec<String> = Vec::new();
    for i in 0..variants.len()
        invariant
            m.db.all_named(variants@),
            names@.len() == i,
            forall|k: int|
                0 <= k < i ==> (#[trigger] names@[k])@ == m.db.variant_name(variants@[k]),
    {
        names.push(m.db.variant_names[variants[i].id.0].clone());
    }
    proof {
        reveal_strlit(", ");
        assert(Seq::new(names@.len(), |i: int| names@[i]@) =~= Seq::new(
            variants@.len(),
            |i: int| m.db.variant_name(variants@[i]),
        ));
    }
    let list = join(&names, ", ");
    let mut text = "(".to_owned();
    text.append(list.as_str());
    text.append(")");
    text
}

/// The path that is selected for `current_path`.
fn selected_path(match_tuple_ctx: &LoweringMatchTupleContext, current_path: &MatchingPath) -> (r:
    Option<PatternPath>)
    requires
        match_tuple_ctx.variants_map.wf(),
    ensures
        r == match_tuple_ctx@.selected(current_path@),
{
    match match_tuple_ctx.variants_map.get(current_path) {
        Some(path) => Some(path),
        None => match_tuple_ctx.otherwise_variant,
    }
}

/// The leaf of `current_path`, if there is one.
fn tuple_leaf(
    m: &SemanticModel,
    arms: &[MatchArmWrapper],
    match_tuple_ctx: &LoweringMatchTupleContext,
    current_path: &MatchingPath,
) -> (r: Option<TupleLeaf>)
    requires
        m.wf(),
        arms_wf(m, arms@),
        match_tuple_ctx.wf(m, arms@),
    ensures
        leaf_view(r) == match_tuple_ctx@.chosen(m, arms@, current_path@),
{
    let path = match selected_path(match_tuple_ctx, current_path) {
        Some(path) => path,
        None => {
            return None;
        },
    };
    assert(bindable(m, arms@, path));
    assert(arms@[path.arm_index as int].wf(m));
    let pattern = match path.pattern_index {
        Some(pattern_index) => arms[path.arm_index].patterns[pattern_index],
        None => {
            return Some(TupleLeaf { arm_index: path.arm_index, bindings: Vec::new() });
        },
    };
    assert(m.pattern_wf(pattern.0 as int));
    match &m.patterns[pattern.0].kind {
        PatternKind::Tuple(fields) => {
            let bindings = payload_bindings(m, fields);
            Some(TupleLeaf { arm_index: path.arm_index, bindings })
        },
        PatternKind::Otherwise => Some(
            TupleLeaf { arm_index: path.arm_index, bindings: Vec::new() },
        ),
        _ => None,
    }
}

/// Where `current_path` leads.
fn tuple_target(
    m: &SemanticModel,
    arms: &[MatchArmWrapper],
    match_tuple_ctx: &LoweringMatchTupleContext,
    current_path: &MatchingPath,
) -> (r: LeafTarget)
    requires
        m.wf(),
        arms_wf(m, arms@),
        match_tuple_ctx.wf(m, arms@),
        m.db.all_named(current_path@),
    ensures
        r@ == match_tuple_ctx@.target(m, arms@, current_path@),
{
    if let Some(leaf) = tuple_leaf(m, arms, match_tuple_ctx, current_path) {
        return LeafTarget::Arm(leaf.arm_index);
    }
    match selected_path(match_tuple_ctx, current_path) {
        None => LeafTarget::Error(
            match_tuple_ctx.match_location,
            MatchDiagnostic::MissingMatchArm(variants_description(m, &current_path.variants)),
        ),
        Some(path) => {
            assert(bindable(m, arms@, path));
            assert(arms@[path.arm_index as int].wf(m));
            let pattern = match path.pattern_index {
                Some(pattern_index) => arms[path.arm_index].patterns[pattern_index],
                None => {
                    return LeafTarget::Arm(path.arm_index);
                },
            };
            LeafTarget::Error(
                LoweringContext::get_location(m.patterns[pattern.0].stable_ptr),
                MatchDiagnostic::UnsupportedMatchArmNotATuple,
            )
        },
    }
}

/// Lowers the arm of a match on a tuple expression.
///
/// `lowered` is the leaf of `current_path`, lowered in the block of the last variant of the path:
/// each payload of its bindings, the variable of the variant at the binding's index, was lowered into
/// its pattern.
pub fn lower_tuple_match_arm(
    ctx: &mut LoweringContext,
    arms: &[MatchArmWrapper],
    match_tuple_ctx: &LoweringMatchTupleContext,
    current_path: &MatchingPath,
    lowered: Option<LoweredLeaf>,
    leaves_builders: &mut Vec<MatchLeafBuilder>,
    match_type: MatchKind,
) -> (r: LoweringResult<()>)
    requires
        old(ctx).semantic.wf(),
        arms_wf(&old(ctx).semantic, arms@),
        match_tuple_ctx.wf(&old(ctx).semantic, arms@),
        old(ctx).semantic.db.all_named(current_path@),
        match_tuple_ctx@.chosen(&old(ctx).semantic, arms@, current_path@) is Some
            ==> lowered is Some,
    ensures
        ({
            let target = match_tuple_ctx@.target(&old(ctx).semantic, arms@, current_path@);
            &&& old(ctx).reports(final(ctx), leaf_reports(target, lowered, match_type))
            &&& match target {
                LeafTarget::Arm(arm_index) => {
                    &&& r == Ok::<(), LoweringFlowError>(())
                    &&& final(leaves_builders)@ == old(leaves_builders)@.push(
                        lowered->0.builder(arm_index),
                    )
                },
                LeafTarget::Error(_, _) => {
                    &&& r == failed::<()>()
                    &&& final(leaves_builders)@ == old(leaves_builders)@
                },
            }
        }),
{
    let target = tuple_target(&ctx.semantic, arms, match_tuple_ctx, current_path);
    take_up_leaf(ctx, target, lowered, leaves_builders, match_type)
}

/// The payloads that `fields` lower into a pattern.
fn payload_bindings(m: &SemanticModel, fields: &Vec<PatternId>) -> (r: Vec<FieldBinding>)
    requires
        m.wf(),
        forall|i: int| 0 <= i < fields@.len() ==> m.has_pattern(#[trigger] fields@[i]),
    ensures
        r@ == field_bindings(m, fields@, fields@.len()),
{
    let mut bindings: Vec<FieldBinding> = Vec::new();
    for index in 0..fields.len()
        invariant
            m.wf(),
            forall|i: int| 0 <= i < fields@.len() ==> m.has_pattern(#[trigger] fields@[i]),
            bindings@ == field_bindings(m, fields@, index as nat),
    {
        assert(m.pattern_wf(fields@[index as int].0 as int));
        match &m.patterns[fields[index].0].kind {
            PatternKind::EnumVariant(PatternEnumVariant { inner_pattern: Some(inner), .. }) => {
                bindings.push(
                    FieldBinding {
                        index,
                        inner_pattern: *inner,
                        location: LoweringContext::get_location(m.patterns[inner.0].stable_ptr),
                    },
                );
            },
            _ => {},
        }
    }
    bindings
}

/// A decision tree of a match on a tuple: the variants of each field are told apart in turn.
#[derive(PartialEq, Eq, Debug)]
pub enum DecisionTree {
    /// All fields are told apart. Where no arm takes the variants, there is no leaf.
    Leaf { variants: MatchingPath, leaf: Option<TupleLeaf> },
    /// A match on one field.
    Node {
        concrete_enum_id: ConcreteEnumId,
        input: VarUsage,
        arms: Vec<DecisionArm>,
        location: LocationId,
    },
}

/// An arm of a match on one field. It leads to a block of its own.
#[derive(PartialEq, Eq, Debug)]
pub struct DecisionArm {
    pub variant: ConcreteVariant,
    /// The variable of the payload.
    pub var: VarRequest,
    pub next: DecisionTree,
}

/// A [DecisionTree], its lists taken as sequences.
#[verifier::ext_equal]
pub enum Decision {
    Leaf { variants: Seq<ConcreteVariant>, leaf: Option<LeafChoice> },
    Node {
        concrete_enum_id: ConcreteEnumId,
        input: VarUsage,
        arms: Seq<DecisionBranch>,
        location: LocationId,
    },
}

/// A [DecisionArm], its lists taken as sequences.
#[verifier::ext_equal]
pub struct DecisionBranch {
    pub variant: ConcreteVariant,
    pub var: VarRequest,
    pub next: Decision,
}

impl DecisionTree {
    /// The tree, its lists taken as sequences.
    pub open spec fn view(&self) -> Decision
        decreases self,
    {
        match self {
            DecisionTree::Leaf { variants, leaf } => Decision::Leaf {
                variants: variants@,
                leaf: leaf_view(*leaf),
            },
            DecisionTree::Node { concrete_enum_id, input, arms, location } => Decision::Node {
                concrete_enum_id: *concrete_enum_id,
                input: *input,
                arms: Seq::new(
                    arms@.len(),
                    |i: int|
                        if 0 <= i < arms@.len() {
                            DecisionBranch {
                                variant: arms@[i].variant,
                                var: arms@[i].var,
                                next: arms@[i].next.view(),
                            }
                        } else {
                            arbitrary()
                        },
                ),
                location: *location,
            },
        }
    }
}

impl TupleSelection {
    /// The tree that tells apart the fields after those of `path`.
    pub open spec fn decision(
        &self,
        m: &SemanticModel,
        arms: Seq<MatchArmWrapper>,
        details: Seq<EnumDetails>,
        path: Seq<ConcreteVariant>,
    ) -> Decision
        decreases details.len() - path.len(),
    {
        if path.len() >= details.len() {
            Decision::Leaf { variants: path, leaf: self.chosen(m, arms, path) }
        } else {
            let field = details[path.len() as int];
            let variants = field.concrete_variants;
            Decision::Node {
                concrete_enum_id: field.concrete_enum_id,
                input: self.match_inputs[path.len() as int],
                arms: Seq::new(
                    variants.len(),
                    |i: int|
                        DecisionBranch {
                            variant: variants[i],
                            var: self.payload(field, variants[i]),
                            next: self.decision(m, arms, details, path.push(variants[i])),
                        },
                ),
                location: self.match_location,
            }
        }
    }

    /// The variable of the payload of `variant`, a variant of the field that `field` describes.
    pub open spec fn payload(
        &self,
        field: EnumDetails,
        variant: ConcreteVariant,
    ) -> VarRequest {
        VarRequest {
            ty: VarType::Snapshots {
                ty: variant.ty,
                n_snapshots: (field.n_snapshots + self.n_snapshots_outer) as usize,
            },
            location: self.match_location,
        }
    }
}

/// The variants of each of `details` have names, and the snapshots around them and around the tuple
/// can be counted.
pub open spec fn details_wf(
    m: &SemanticModel,
    details: Seq<EnumDetails>,
    n_snapshots_outer: usize,
) -> bool {
    &&& forall|i: int|
        0 <= i < details.len() ==> (#[trigger] details[i]).n_snapshots + n_snapshots_outer
            <= usize::MAX
    &&& forall|i: int|
        0 <= i < details.len() ==> m.db.all_named((#[trigger] details[i]).concrete_variants)
}

/// Lowers a full decision tree for a match on a tuple expression.
///
/// `current_path` holds the variants matched until this point.
pub fn lower_full_match_tree(
    ctx: &LoweringContext,
    arms: &[MatchArmWrapper],
    match_tuple_ctx: &LoweringMatchTupleContext,
    extracted_enums_details: &[ExtractedEnumDetails],
    current_path: &mut MatchingPath,
) -> (r: DecisionTree)
    requires
        ctx.semantic.wf(),
        arms_wf(&ctx.semantic, arms@),
        match_tuple_ctx.wf(&ctx.semantic, arms@),
        extracted_enums_details@.len() <= match_tuple_ctx.match_inputs@.len(),
        details_wf(
            &ctx.semantic,
            details_of(extracted_enums_details@),
            match_tuple_ctx.n_snapshots_outer,
        ),
        old(current_path)@.len() < extracted_enums_details@.len(),
    ensures
        r@ == match_tuple_ctx@.decision(
            &ctx.semantic,
            arms@,
            details_of(extracted_enums_details@),
            old(current_path)@,
        ),
        final(current_path)@ == old(current_path)@,
    decreases extracted_enums_details@.len() - old(current_path)@.len(),
{
    let ghost m = ctx.semantic;
    let ghost path = current_path@;
    let ghost details = details_of(extracted_enums_details@);
    let index = current_path.variants.len();
    let field = &extracted_enums_details[index];
    let mut decision_arms: Vec<DecisionArm> = Vec::new();
    let ghost expected = match_tuple_ctx@.decision(&m, arms@, details, path)->arms;
    for idx in 0..field.concrete_variants.len()
        invariant
            m == ctx.semantic,
            m.wf(),
            arms_wf(&m, arms@),
            match_tuple_ctx.wf(&m, arms@),
            details.len() <= match_tuple_ctx.match_inputs@.len(),
            details == details_of(extracted_enums_details@),
            details_wf(&m, details, match_tuple_ctx.n_snapshots_outer),
            path == old(current_path)@,
            current_path@ == path,
            index == path.len(),
            index < details.len(),
            field@ == details[index as int],
            expected == match_tuple_ctx@.decision(&m, arms@, details, path)->arms,
            decision_arms@.len() == idx,
            forall|k: int|
                0 <= k < idx ==> ({
                    &&& (#[trigger] decision_arms@[k]).variant == expected[k].variant
                    &&& decision_arms@[k].var == expected[k].var
                    &&& decision_arms@[k].next@ == expected[k].next
                }),
    {
        let concrete_variant = field.concrete_variants[idx];
        assert(details[index as int].concrete_variants[idx as int] == concrete_variant);
        assert(details[index as int].n_snapshots + match_tuple_ctx.n_snapshots_outer <= usize::MAX);
        let var = VarRequest {
            ty: VarType::Snapshots {
                ty: concrete_variant.ty,
                n_snapshots: field.n_snapshots + match_tuple_ctx.n_snapshots_outer,
            },
            location: match_tuple_ctx.match_location,
        };
        current_path.variants.push(concrete_variant);
        let ghost longer = path.push(concrete_variant);
        assert(current_path@ == longer);
        assert(index < extracted_enums_details.len());
        let next = if index + 1 == extracted_enums_details.len() {
            let variants = current_path.copied();
            let leaf = tuple_leaf(&ctx.semantic, arms, match_tuple_ctx, current_path);
            DecisionTree::Leaf { variants, leaf }
        } else {
            lower_full_match_tree(ctx, arms, match_tuple_ctx, extracted_enums_details, current_path)
        };
        current_path.variants.pop();
        proof {
            assert(current_path@ =~= path);
            assert(next@ == match_tuple_ctx@.decision(&m, arms@, details, longer));
            assert(expected[idx as int].next == next@);
        }
        decision_arms.push(DecisionArm { variant: concrete_variant, var, next });
    }
    let tree = DecisionTree::Node {
        concrete_enum_id: field.concrete_enum_id,
        input: match_tuple_ctx.match_inputs[index],
        arms: decision_arms,
        location: match_tuple_ctx.match_location,
    };
    proof {
        assert(tree@->arms =~= expected);
    }
    tree
}

impl Decision {
    /// The leaf that `variants` leads to, one for each field that is told apart.
    pub open spec fn leaf(self, variants: Seq<ConcreteVariant>) -> Option<Decision>
        decreases self,
    {
        match self {
            Decision::Leaf { .. } => if variants.len() == 0 {
                Some(self)
            } else {
                None
            },
            Decision::Node { arms, .. } => if variants.len() > 0 && 0 <= variants[0].idx
                < arms.len() && arms[variants[0].idx as int].variant == variants[0] {
                arms[variants[0].idx as int].next.leaf(variants.drop_first())
            } else {
                None
            },
        }
    }

    /// The variants of the leaves, from left to right.
    pub open spec fn leaf_paths(self) -> Seq<Seq<ConcreteVariant>>
        decreases self, 0nat,
    {
        match self {
            Decision::Leaf { variants, .. } => seq![variants],
            Decision::Node { arms, .. } => Self::leaf_paths_of(arms, arms.len()),
        }
    }

    /// As [Self::leaf_paths], in the first `n` of `arms`.
    pub open spec fn leaf_paths_of(arms: Seq<DecisionBranch>, n: nat) -> Seq<Seq<ConcreteVariant>>
        decreases arms, n,
    {
        if 0 < n <= arms.len() {
            Self::leaf_paths_of(arms, (n - 1) as nat) + arms[n - 1].next.leaf_paths()
        } else {
            seq![]
        }
    }
}

/// The variants of each path.
pub open spec fn paths_of(paths: Seq<MatchingPath>) -> Seq<Seq<ConcreteVariant>> {
    paths.map_values(|path: MatchingPath| path@)
}

impl DecisionTree {
    /// Adds the variants of the leaves, from left to right.
    pub fn collect_leaf_paths(&self, paths: &mut Vec<MatchingPath>)
        ensures
            paths_of(final(paths)@) == paths_of(old(paths)@) + self@.leaf_paths(),
        decreases self,
    {
        match self {
            DecisionTree::Leaf { variants, .. } => {
                paths.push(variants.copied());
                assert(paths_of(paths@) =~= paths_of(old(paths)@) + self@.leaf_paths());
            },
            DecisionTree::Node { arms, .. } => {
                let ghost branches = self@->arms;
                let mut i: usize = 0;
                while i < arms.len()
                    invariant
                        *self is Node,
                        (*self)->arms == *arms,
                        branches == self@->arms,
                        branches.len() == arms@.len(),
                        i <= arms@.len(),
                        paths_of(paths@) =~= paths_of(old(paths)@) + Decision::leaf_paths_of(
                            branches,
                            i as nat,
                        ),
                    decreases arms@.len() - i,
                {
                    assert(decreases_to!(*self => (*self)->arms));
                    assert(decreases_to!(*arms => arms[i as int]));
                    assert(branches[i as int].next == arms@[i as int].next@);
                    arms[i].next.collect_leaf_paths(paths);
                    i = i + 1;
                }
            },
        }
    }
}

impl DecisionTree {
    /// The lowered match on a field, from the block of each arm and the variables that it brings.
    /// There is none for a leaf.
    pub fn match_info(
        &self,
        block_ids: Vec<BlockId>,
        arm_var_ids: Vec<Vec<VariableId>>,
    ) -> (r: Option<MatchInfo>)
        requires
            self@ is Node ==> {
                &&& self@->arms.len() == block_ids@.len()
                &&& self@->arms.len() == arm_var_ids@.len()
            },
        ensures
            match self@ {
                Decision::Leaf { .. } => r is None,
                Decision::Node { concrete_enum_id, input, arms, location } => {
                    &&& r matches Some(MatchInfo::Enum(info))
                    &&& info.concrete_enum_id == concrete_enum_id
                    &&& info.input == input
                    &&& info.location == location
                    &&& arms_of_blocks(
                        info.arms@,
                        arms.map_values(|arm: DecisionBranch| arm.variant),
                        block_ids@,
                        arm_var_ids@,
                    )
                },
            },
    {
        match self {
            DecisionTree::Leaf { .. } => None,
            DecisionTree::Node { concrete_enum_id, input, arms, location } => {
                let mut variants: Vec<ConcreteVariant> = Vec::new();
                for i in 0..arms.len()
                    invariant
                        variants@.len() == i,
                        forall|k: int| 0 <= k < i ==> #[trigger] variants@[k] == arms@[k].variant,
                {
                    variants.push(arms[i].variant);
                }
                proof {
                    assert(variants@ =~= self@->arms.map_values(|arm: DecisionBranch| arm.variant));
                }
                Some(
                    concrete_enum_match_info(
                        *concrete_enum_id,
                        *input,
                        *location,
                        variants,
                        block_ids,
                        arm_var_ids,
                    ),
                )
            },
        }
    }
}

} // verus!

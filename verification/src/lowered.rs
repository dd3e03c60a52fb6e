//! The lowered program, as far as lowering a match makes it.
use vstd::prelude::*;

use crate::adapters::zip_eq;
use crate::diagnostic::LocationId;
use crate::semantic::{ConcreteEnumId, ConcreteVariant, TypeId};

verus! {

#[derive(Clone, Copy, PartialEq, Eq, Hash, Structural, Debug)]
pub struct VariableId(pub usize);

#[derive(Clone, Copy, PartialEq, Eq, Hash, Structural, Debug)]
pub struct BlockId(pub usize);

/// A use of a variable.
#[derive(Clone, Copy, PartialEq, Eq, Hash, Structural, Debug)]
pub struct VarUsage {
    pub var_id: VariableId,
    pub location: LocationId,
}

/// The type of a new variable.
#[derive(Clone, Copy, PartialEq, Eq, Structural, Debug)]
pub enum VarType {
    /// A type with a number of snapshots around it.
    Snapshots { ty: TypeId, n_snapshots: usize },
    Felt252,
    /// A felt252 that is not zero.
    NonZeroFelt252,
    /// A number from zero up to and including `max`.
    BoundedInt { max: usize },
    Unit,
}

/// A request for a new variable.
#[derive(Clone, Copy, PartialEq, Eq, Structural, Debug)]
pub struct VarRequest {
    pub ty: VarType,
    pub location: LocationId,
}

/// A lowered expression that is the outcome of a call, not yet put into an enum.
#[derive(PartialEq, Eq, Debug)]
pub struct LoweredExprExternEnum {
    pub function: FunctionId,
    pub concrete_enum_id: ConcreteEnumId,
    pub inputs: Vec<VarUsage>,
    pub location: LocationId,
}

/// A function that the lowered program calls.
#[derive(Clone, Copy, PartialEq, Eq, Structural, Debug)]
pub enum FunctionId {
    /// A function without a body, whose outcome a match takes directly.
    Extern(usize),
    Felt252Sub,
    Felt252IsZero,
    /// The conversion of a type to felt252.
    UpcastToFelt252 { from: TypeId },
    /// The conversion of a type to the numbers from zero up to and including `max`.
    Downcast { from: TypeId, max: usize },
}

/// A call that is to be emitted. It brings one variable, of the type `ret_ty`.
#[derive(PartialEq, Eq, Debug)]
pub struct CallRequest {
    pub function: FunctionId,
    pub inputs: Vec<VarUsage>,
    pub ret_ty: VarType,
    pub location: LocationId,
}

impl CallRequest {
    /// The call is one of `function` on `inputs`.
    pub open spec fn calls(
        &self,
        function: FunctionId,
        inputs: Seq<VarUsage>,
        ret_ty: VarType,
        location: LocationId,
    ) -> bool {
        &&& self.function == function
        &&& self.inputs@ == inputs
        &&& self.ret_ty == ret_ty
        &&& self.location == location
    }
}

/// A call that was emitted, and the variable that it brought.
#[derive(PartialEq, Eq, Debug)]
pub struct EmittedCall {
    pub request: CallRequest,
    pub result: VarUsage,
}

/// What selects an arm of a lowered match.
#[derive(Clone, Copy, PartialEq, Eq, Structural, Debug)]
pub enum MatchArmSelector {
    VariantId(ConcreteVariant),
    /// A felt252 is zero.
    Zero,
    /// A felt252 is not zero.
    NonZero,
    /// A conversion has a result.
    OptionSome,
    /// A conversion has no result.
    OptionNone,
    Value(usize),
}

/// An arm of a lowered match: the block that it leads to, and the variables that it brings.
#[derive(PartialEq, Eq, Debug)]
pub struct LoweredMatchArm {
    pub arm_selector: MatchArmSelector,
    pub block_id: BlockId,
    pub var_ids: Vec<VariableId>,
}

#[derive(PartialEq, Eq, Debug)]
pub struct MatchEnumInfo {
    pub concrete_enum_id: ConcreteEnumId,
    pub input: VarUsage,
    pub arms: Vec<LoweredMatchArm>,
    pub location: LocationId,
}

#[derive(PartialEq, Eq, Debug)]
pub struct MatchExternInfo {
    pub function: FunctionId,
    pub inputs: Vec<VarUsage>,
    pub arms: Vec<LoweredMatchArm>,
    pub location: LocationId,
}

#[derive(PartialEq, Eq, Debug)]
pub struct MatchEnumValue {
    pub num_of_arms: usize,
    pub input: VarUsage,
    pub arms: Vec<LoweredMatchArm>,
    pub location: LocationId,
}

/// A lowered match.
#[derive(PartialEq, Eq, Debug)]
pub enum MatchInfo {
    Enum(MatchEnumInfo),
    Extern(MatchExternInfo),
    Value(MatchEnumValue),
}

impl MatchInfo {
    /// The two are equal but for their arms, and `self` has none.
    pub open spec fn is_without_arms(&self, other: &MatchInfo) -> bool {
        match (self, other) {
            (MatchInfo::Enum(info), MatchInfo::Enum(other)) => {
                &&& info.concrete_enum_id == other.concrete_enum_id
                &&& info.input == other.input
                &&& info.arms@.len() == 0
                &&& info.location == other.location
            },
            (MatchInfo::Extern(info), MatchInfo::Extern(other)) => {
                &&& info.function == other.function
                &&& info.inputs@ == other.inputs@
                &&& info.arms@.len() == 0
                &&& info.location == other.location
            },
            (MatchInfo::Value(info), MatchInfo::Value(other)) => {
                &&& info.num_of_arms == other.num_of_arms
                &&& info.input == other.input
                &&& info.arms@.len() == 0
                &&& info.location == other.location
            },
            _ => false,
        }
    }

    /// The same match without its arms.
    pub fn without_arms(&self) -> (r: MatchInfo)
        ensures
            r.is_without_arms(self),
    {
        match self {
            MatchInfo::Enum(info) => MatchInfo::Enum(
                MatchEnumInfo {
                    concrete_enum_id: info.concrete_enum_id,
                    input: info.input,
                    arms: Vec::new(),
                    location: info.location,
                },
            ),
            MatchInfo::Extern(info) => {
                let inputs = info.inputs.clone();
                assert(inputs@ =~= info.inputs@);
                MatchInfo::Extern(
                    MatchExternInfo {
                        function: info.function,
                        inputs,
                        arms: Vec::new(),
                        location: info.location,
                    },
                )
            },
            MatchInfo::Value(info) => MatchInfo::Value(
                MatchEnumValue {
                    num_of_arms: info.num_of_arms,
                    input: info.input,
                    arms: Vec::new(),
                    location: info.location,
                },
            ),
        }
    }
}

/// Each of `arms` leads from the variant at its position to the block there, with the variables
/// there.
pub open spec fn arms_of_blocks(
    arms: Seq<LoweredMatchArm>,
    variants: Seq<ConcreteVariant>,
    block_ids: Seq<BlockId>,
    arm_var_ids: Seq<Vec<VariableId>>,
) -> bool {
    &&& arms.len() == variants.len()
    &&& forall|i: int|
        0 <= i < arms.len() ==> {
            &&& (#[trigger] arms[i]).arm_selector == MatchArmSelector::VariantId(variants[i])
            &&& arms[i].block_id == block_ids[i]
            &&& arms[i].var_ids == arm_var_ids[i]
        }
}

/// The arms of a lowered match on an enum.
pub fn variant_match_arms(
    variants: Vec<ConcreteVariant>,
    block_ids: Vec<BlockId>,
    arm_var_ids: Vec<Vec<VariableId>>,
) -> (r: Vec<LoweredMatchArm>)
    requires
        variants@.len() == block_ids@.len(),
        variants@.len() == arm_var_ids@.len(),
    ensures
        arms_of_blocks(r@, variants@, block_ids@, arm_var_ids@),
{
    let ghost n = variants@.len();
    let zipped = zip_eq(zip_eq(variants, block_ids), arm_var_ids);
    let mut r: Vec<LoweredMatchArm> = Vec::new();
    for item in iter: zipped
        invariant
            iter.seq() == Seq::new(
                n,
                |i: int| ((variants@[i], block_ids@[i]), arm_var_ids@[i]),
            ),
            r@.len() == iter.index(),
            forall|i: int|
                0 <= i < r@.len() ==> {
                    &&& (#[trigger] r@[i]).arm_selector == MatchArmSelector::VariantId(variants@[i])
                    &&& r@[i].block_id == block_ids@[i]
                    &&& r@[i].var_ids == arm_var_ids@[i]
                },
    {
        let ((variant_id, block_id), var_ids) = item;
        r.push(
            LoweredMatchArm {
                arm_selector: MatchArmSelector::VariantId(variant_id),
                block_id,
                var_ids,
            },
        );
    }
    r
}

/// In a lowered match on an enum, each variant has one arm, and it leads to the block of the variant,
/// with the variables of the variant.
pub proof fn law_every_variant_reaches_its_block(
    arms: Seq<LoweredMatchArm>,
    variants: Seq<ConcreteVariant>,
    block_ids: Seq<BlockId>,
    arm_var_ids: Seq<Vec<VariableId>>,
    i: int,
)
    requires
        arms_of_blocks(arms, variants, block_ids, arm_var_ids),
        forall|j: int, k: int|
            0 <= j < k < variants.len() ==> #[trigger] variants[j] != #[trigger] variants[k],
        0 <= i < variants.len(),
    ensures
        exists|a: int|
            0 <= a < arms.len() && (#[trigger] arms[a]).arm_selector == MatchArmSelector::VariantId(
                variants[i],
            ),
        forall|a: int|
            0 <= a < arms.len() && (#[trigger] arms[a]).arm_selector == MatchArmSelector::VariantId(
                variants[i],
            ) ==> arms[a].block_id == block_ids[i] && arms[a].var_ids == arm_var_ids[i],
        arms.len() == variants.len(),
{
    assert(arms[i].arm_selector == MatchArmSelector::VariantId(variants[i]));
    assert forall|a: int|
        0 <= a < arms.len() && (#[trigger] arms[a]).arm_selector == MatchArmSelector::VariantId(
            variants[i],
        ) implies arms[a].block_id == block_ids[i] && arms[a].var_ids == arm_var_ids[i] by {
        assert(variants[a] == variants[i]);
    }
}

/// A match without its arms keeps all else: what it is on, and where it is.
pub proof fn law_without_arms_keeps_the_rest(info: MatchInfo, other: MatchInfo)
    requires
        info.is_without_arms(&other),
    ensures
        info is Enum <==> other is Enum,
        info is Extern <==> other is Extern,
        info matches MatchInfo::Enum(info) ==> {
            &&& info.arms@ == Seq::<LoweredMatchArm>::empty()
            &&& info.concrete_enum_id == other->Enum_0.concrete_enum_id
            &&& info.input == other->Enum_0.input
            &&& info.location == other->Enum_0.location
        },
        info matches MatchInfo::Extern(info) ==> {
            &&& info.arms@ == Seq::<LoweredMatchArm>::empty()
            &&& info.function == other->Extern_0.function
            &&& info.inputs@ == other->Extern_0.inputs@
            &&& info.location == other->Extern_0.location
        },
        info matches MatchInfo::Value(info) ==> {
            &&& info.arms@ == Seq::<LoweredMatchArm>::empty()
            &&& info.num_of_arms == other->Value_0.num_of_arms
            &&& info.input == other->Value_0.input
            &&& info.location == other->Value_0.location
        },
{
}

/// A requested call is of the function, on the inputs in their order, of the type and at the location
/// that are asked for.
pub proof fn law_a_request_fixes_the_call(
    request: CallRequest,
    function: FunctionId,
    inputs: Seq<VarUsage>,
    ret_ty: VarType,
    location: LocationId,
)
    ensures
        request.calls(function, inputs, ret_ty, location) <==> request.function == function
            && request.inputs@ == inputs && request.ret_ty == ret_ty && request.location
            == location,
{
}

} // verus!

//! Match expressions, and if-let and while-let.
use vstd::prelude::*;

use crate::context::{LoweringContext, LoweringResult};
use crate::diagnostic::{location_of, LocationId, MatchKind};
use crate::enum_match::{
    concrete_enum_match_outcome, extern_match_outcome, is_known_enum,
    lemma_same_enum_outcome, lemma_same_extern_outcome, lower_concrete_enum_match,
    lower_optimized_extern_match, ConcreteEnumMatch, OptimizedExternMatch,
};
use crate::lowered::{LoweredExprExternEnum, VarUsage};
use crate::match_arms::{
    arms_wf, first_taking_all, lemma_first_taking_all, lemma_same_parts, lemma_same_underscore,
    same_arms, wrap_arms, MatchArmWrapper,
};
use crate::semantic::{ExprId, ExprMatch, Flag, MatchArm, SemanticModel, TypeId, TypeLongId};
use crate::tuple_expr::{
    lemma_same_patterns, lemma_same_tuple_outcome, lower_expr_match_tuple, n_inputs,
    tuple_match_defined, tuple_match_outcome, TupleInfo,
    TupleMatch,
};
use crate::value_match::{
    lower_expr_match_value, match_wf, value_match_error, value_match_outcome, ValueMatch,
};

verus! {

/// The types of the fields of the tuple under the snapshots around `ty`, if there is one.
pub open spec fn tuple_types(m: &SemanticModel, ty: TypeId) -> Option<Seq<TypeId>> {
    match m.db.types@[m.db.peeled(ty).1.0 as int].long_id {
        TypeLongId::Tuple(types) => Some(types@),
        _ => None,
    }
}

/// What the arms of a match are lowered on.
#[derive(PartialEq, Eq, Debug)]
pub enum MatchRoute {
    /// The fields of a tuple, lowered to variables.
    Tuple(TupleInfo),
    /// The outcome of a call.
    ExternEnum,
    /// An enum, lowered to a variable. Where the enum or its variants are not known, the match fails
    /// before the enum is lowered.
    ConcreteEnum { is_known: bool },
}

/// What the arms of a match on `matched_expr` are lowered on. `is_extern_enum` tells whether the
/// matched expression was lowered to the outcome of a call.
pub fn match_route(ctx: &LoweringContext, matched_expr: ExprId, is_extern_enum: bool) -> (r:
    MatchRoute)
    requires
        ctx.semantic.wf(),
        ctx.semantic.has_expr(matched_expr),
    ensures
        ({
            let m = &ctx.semantic;
            let ty = m.exprs@[matched_expr.0 as int].ty;
            match r {
                MatchRoute::Tuple(info) => {
                    &&& tuple_types(m, ty) == Some(info.types@)
                    &&& info.n_snapshots == m.db.peeled(ty).0
                },
                MatchRoute::ExternEnum => tuple_types(m, ty) is None && is_extern_enum,
                MatchRoute::ConcreteEnum { is_known } => {
                    &&& tuple_types(m, ty) is None
                    &&& !is_extern_enum
                    &&& is_known == is_known_enum(m, ty)
                },
            }
        }),
{
    let m = &ctx.semantic;
    assert(m.db.has_type(m.exprs@[matched_expr.0 as int].ty));
    proof {
        m.db.lemma_peeled(m.exprs@[matched_expr.0 as int].ty);
    }
    let (n_snapshots, long_type_id) = m.db.peel_snapshots(m.exprs[matched_expr.0].ty);
    match &m.db.types[long_type_id.0].long_id {
        TypeLongId::Tuple(types) => {
            let field_types = types.clone();
            assert(field_types@ =~= types@);
            MatchRoute::Tuple(TupleInfo { n_snapshots, types: field_types })
        },
        _ if is_extern_enum => MatchRoute::ExternEnum,
        TypeLongId::Enum(concrete_enum_id) => {
            let is_known = m.db.concrete_enum_variants(*concrete_enum_id).is_ok();
            MatchRoute::ConcreteEnum { is_known }
        },
        _ => MatchRoute::ConcreteEnum { is_known: false },
    }
}

/// What came of lowering a matched expression to what its route asks for.
#[derive(PartialEq, Eq, Debug)]
pub enum MatchInput {
    /// The variables of the fields of a tuple, and the location of the tuple.
    Tuple { inputs: LoweringResult<Vec<VarUsage>>, location: LocationId },
    ExternEnum(LoweredExprExternEnum),
    ConcreteEnum(LoweringResult<VarUsage>),
}

impl MatchInput {
    /// The input is of the kind that the route of a match on `matched_expr` asks for.
    pub open spec fn fits(
        &self,
        m: &SemanticModel,
        matched_expr: ExprId,
        arms: Seq<MatchArmWrapper>,
        match_type: MatchKind,
    ) -> bool {
        let ty = m.exprs@[matched_expr.0 as int].ty;
        match self {
            MatchInput::Tuple { inputs, .. } => {
                &&& tuple_types(m, ty) matches Some(types)
                &&& tuple_match_defined(
                    m,
                    match_type,
                    n_inputs(*inputs),
                    m.db.peeled(ty).0,
                    types,
                    arms,
                )
            },
            MatchInput::ExternEnum(extern_enum) => {
                &&& tuple_types(m, ty) is None
                &&& m.db.has_enum(extern_enum.concrete_enum_id)
            },
            MatchInput::ConcreteEnum(_) => tuple_types(m, ty) is None,
        }
    }
}

/// A match of which the leaves are to be lowered.
#[derive(PartialEq, Eq, Debug)]
pub enum LoweredMatch {
    Tuple(TupleMatch),
    ExternEnum(LoweredExprExternEnum, OptimizedExternMatch),
    ConcreteEnum(ConcreteEnumMatch),
    Value(ValueMatch),
}

/// What lowering the arms of a match on `input` leaves behind.
pub open spec fn match_arms_outcome(
    before: LoweringContext,
    after: LoweringContext,
    matched_expr: ExprId,
    input: MatchInput,
    arms: Seq<MatchArmWrapper>,
    location: LocationId,
    match_type: MatchKind,
    r: LoweringResult<LoweredMatch>,
) -> bool {
    let m = &before.semantic;
    let ty = m.exprs@[matched_expr.0 as int].ty;
    match input {
        MatchInput::Tuple { inputs, location: tuple_location } => {
            let n_snapshots = m.db.peeled(ty).0 as usize;
            let types = tuple_types(m, ty)->0;
            let lowered = match r {
                Ok(LoweredMatch::Tuple(lowered)) => Ok(lowered),
                Ok(_) => arbitrary(),
                Err(error) => Err(error),
            };
            &&& r matches Ok(lowered) ==> lowered is Tuple
            &&& tuple_match_outcome(
                before,
                after,
                inputs,
                tuple_location,
                matched_expr,
                n_snapshots,
                types,
                arms,
                match_type,
                lowered,
            )
        },
        MatchInput::ExternEnum(extern_enum) => {
            let lowered = match r {
                Ok(LoweredMatch::ExternEnum(_, lowered)) => Ok(lowered),
                Ok(_) => arbitrary(),
                Err(error) => Err(error),
            };
            &&& r matches Ok(lowered) ==> lowered is ExternEnum && lowered->ExternEnum_0
                == extern_enum
            &&& extern_match_outcome(before, after, extern_enum, arms, match_type, lowered)
        },
        MatchInput::ConcreteEnum(input) => {
            let lowered = match r {
                Ok(LoweredMatch::ConcreteEnum(lowered)) => Ok(lowered),
                Ok(_) => arbitrary(),
                Err(error) => Err(error),
            };
            &&& r matches Ok(lowered) ==> lowered is ConcreteEnum
            &&& concrete_enum_match_outcome(
                before,
                after,
                matched_expr,
                input,
                arms,
                location,
                match_type,
                lowered,
            )
        },
    }
}

/// Lower the collected match arms according to the matched expression.
/// To be used in multi pattern matching scenarios (if let/while let/match).
pub fn lower_match_arms(
    ctx: &mut LoweringContext,
    matched_expr: ExprId,
    input: MatchInput,
    arms: &[MatchArmWrapper],
    location: LocationId,
    match_type: MatchKind,
) -> (r: LoweringResult<LoweredMatch>)
    requires
        old(ctx).semantic.wf(),
        old(ctx).semantic.has_expr(matched_expr),
        arms_wf(&old(ctx).semantic, arms@),
        input.fits(&old(ctx).semantic, matched_expr, arms@, match_type),
    ensures
        match_arms_outcome(
            *old(ctx),
            *final(ctx),
            matched_expr,
            input,
            arms@,
            location,
            match_type,
            r,
        ),
{
    let ghost m = ctx.semantic;
    let ghost ty = m.exprs@[matched_expr.0 as int].ty;
    assert(m.db.has_type(m.exprs@[matched_expr.0 as int].ty));
    proof {
        m.db.lemma_peeled(ty);
    }
    match input {
        MatchInput::Tuple { inputs, location: tuple_location } => {
            let tuple_info = match match_route(ctx, matched_expr, false) {
                MatchRoute::Tuple(tuple_info) => tuple_info,
                _ => TupleInfo { n_snapshots: 0, types: Vec::new() },
            };
            proof {
                assert(tuple_types(&m, ty) == Some(tuple_info.types@));
                assert(tuple_info.wf(&m));
            }
            match lower_expr_match_tuple(
                ctx,
                inputs,
                tuple_location,
                matched_expr,
                &tuple_info,
                arms,
                match_type,
            ) {
                Ok(lowered) => Ok(LoweredMatch::Tuple(lowered)),
                Err(error) => Err(error),
            }
        },
        MatchInput::ExternEnum(extern_enum) => {
            match lower_optimized_extern_match(ctx, &extern_enum, arms, match_type) {
                Ok(lowered) => Ok(LoweredMatch::ExternEnum(extern_enum, lowered)),
                Err(error) => Err(error),
            }
        },
        MatchInput::ConcreteEnum(match_input) => {
            match lower_concrete_enum_match(
                ctx,
                matched_expr,
                match_input,
                arms,
                location,
                match_type,
            ) {
                Ok(lowered) => Ok(LoweredMatch::ConcreteEnum(lowered)),
                Err(error) => Err(error),
            }
        },
    }
}

/// Whether a match on `matched_expr` is a match on a number.
pub fn is_value_match(ctx: &LoweringContext, matched_expr: ExprId) -> (r: bool)
    requires
        ctx.semantic.wf(),
        ctx.semantic.has_expr(matched_expr),
    ensures
        r == matches_number(&ctx.semantic, matched_expr),
{
    assert(ctx.semantic.db.has_type(ctx.semantic.exprs@[matched_expr.0 as int].ty));
    ctx.semantic.db.types[ctx.semantic.exprs[matched_expr.0].ty.0].numeric_upcastable_to_felt252
}

/// Whether `matched_expr` is a number whose values all convert to a felt252.
pub open spec fn matches_number(m: &SemanticModel, matched_expr: ExprId) -> bool {
    m.db.types@[m.exprs@[matched_expr.0 as int].ty.0 as int].numeric_upcastable_to_felt252
}

/// What came of lowering the matched expression of a match expression.
#[derive(PartialEq, Eq, Debug)]
pub enum MatchExprInput {
    /// The variable of a number, and its type.
    Value(LoweringResult<VarUsage>, TypeId),
    Arms(MatchInput),
}

/// The arms of a match expression, each with its expression.
pub open spec fn wrapped_arms(arms: Seq<MatchArm>) -> Seq<MatchArmWrapper> {
    arms.map_values(
        |arm: MatchArm| MatchArmWrapper { patterns: arm.patterns, expr: Some(arm.expression) },
    )
}

/// What lowering the arms of a match leaves behind depends on nothing but their patterns and
/// expressions.
proof fn lemma_same_outcome(
    before: LoweringContext,
    after: LoweringContext,
    matched_expr: ExprId,
    input: MatchInput,
    arms: Seq<MatchArmWrapper>,
    other: Seq<MatchArmWrapper>,
    location: LocationId,
    match_type: MatchKind,
    r: LoweringResult<LoweredMatch>,
)
    requires
        same_arms(arms, other),
        arms.len() <= usize::MAX,
        match_arms_outcome(
            before,
            after,
            matched_expr,
            input,
            arms,
            location,
            match_type,
            r,
        ),
    ensures
        match_arms_outcome(
            before,
            after,
            matched_expr,
            input,
            other,
            location,
            match_type,
            r,
        ),
{
    let m = &before.semantic;
    let ty = m.exprs@[matched_expr.0 as int].ty;
    match input {
        MatchInput::Tuple { inputs, location: tuple_location } => {
            let lowered = match r {
                Ok(LoweredMatch::Tuple(lowered)) => Ok(lowered),
                Ok(_) => arbitrary(),
                Err(error) => Err(error),
            };
            lemma_same_tuple_outcome(
                before,
                after,
                inputs,
                tuple_location,
                matched_expr,
                m.db.peeled(ty).0 as usize,
                tuple_types(m, ty)->0,
                arms,
                other,
                match_type,
                lowered,
            );
        },
        MatchInput::ExternEnum(extern_enum) => {
            let lowered = match r {
                Ok(LoweredMatch::ExternEnum(_, lowered)) => Ok(lowered),
                Ok(_) => arbitrary(),
                Err(error) => Err(error),
            };
            lemma_same_extern_outcome(
                before,
                after,
                extern_enum,
                arms,
                other,
                match_type,
                lowered,
            );
        },
        MatchInput::ConcreteEnum(input) => {
            let lowered = match r {
                Ok(LoweredMatch::ConcreteEnum(lowered)) => Ok(lowered),
                Ok(_) => arbitrary(),
                Err(error) => Err(error),
            };
            lemma_same_enum_outcome(
                before,
                after,
                matched_expr,
                input,
                arms,
                other,
                location,
                match_type,
                lowered,
            );
        },
    }
}

/// What lowering a match expression on `lowered` leaves behind. A matched expression that could not
/// be lowered fails the match.
pub open spec fn expr_match_outcome(
    before: LoweringContext,
    after: LoweringContext,
    expr: ExprMatch,
    lowered: LoweringResult<MatchExprInput>,
    r: LoweringResult<LoweredMatch>,
) -> bool {
    match lowered {
        Err(error) => r == Err::<LoweredMatch, _>(error) && after == before,
        Ok(MatchExprInput::Value(Err(error), _)) => r == Err::<LoweredMatch, _>(error) && after
            == before,
        Ok(MatchExprInput::Value(Ok(match_input), ty)) => {
            let value = match r {
                Ok(LoweredMatch::Value(value)) => Ok(value),
                Ok(_) => arbitrary(),
                Err(error) => Err(error),
            };
            &&& r matches Ok(lowered) ==> lowered is Value
            &&& value_match_outcome(before, after, expr, match_input, ty, value)
        },
        Ok(MatchExprInput::Arms(input)) => match_arms_outcome(
            before,
            after,
            expr.matched_expr,
            input,
            wrapped_arms(expr.arms@),
            location_of(expr.stable_ptr),
            MatchKind::Match,
            r,
        ),
    }
}

/// Lowers an expression of type ExprMatch.
///
/// `lowered` is what came of lowering the matched expression: a variable where it is a number, see
/// [is_value_match], else what its route asks for, see [match_route].
pub fn lower_expr_match(
    ctx: &mut LoweringContext,
    expr: &ExprMatch,
    lowered: LoweringResult<MatchExprInput>,
) -> (r: LoweringResult<LoweredMatch>)
    requires
        old(ctx).semantic.wf(),
        match_wf(&old(ctx).semantic, expr),
        lowered matches Ok(MatchExprInput::Value(input, _)) ==> {
            &&& matches_number(&old(ctx).semantic, expr.matched_expr)
            // The flag is of its own type, where it is read.
            &&& input is Ok && value_match_error(&old(ctx).semantic, expr) is None ==> old(
                ctx,
            ).semantic.db.numeric_match_optimization_min_arms_threshold != Some(Flag::Other)
        },
        lowered matches Ok(MatchExprInput::Arms(input)) ==> {
            &&& !matches_number(&old(ctx).semantic, expr.matched_expr)
            &&& input.fits(
                &old(ctx).semantic,
                expr.matched_expr,
                wrapped_arms(expr.arms@),
                MatchKind::Match,
            )
        },
    ensures
        expr_match_outcome(*old(ctx), *final(ctx), *expr, lowered, r),
{
    let ghost m = ctx.semantic;
    let arms = wrap_arms(expr.arms.as_slice());
    let ghost wrapped = wrapped_arms(expr.arms@);
    assert(same_arms(arms@, wrapped));
    match lowered {
        Err(error) => Err(error),
        Ok(MatchExprInput::Value(Err(error), _)) => Err(error),
        Ok(MatchExprInput::Value(Ok(match_input), ty)) => match lower_expr_match_value(
            ctx,
            expr,
            match_input,
            ty,
        ) {
            Ok(value) => Ok(LoweredMatch::Value(value)),
            Err(error) => Err(error),
        },
        Ok(MatchExprInput::Arms(input)) => {
            proof {
                assert forall|i: int| 0 <= i < arms@.len() implies (#[trigger] arms@[i]).wf(&m) by {
                    assert(m.has_expr(expr.arms@[i].expression));
                    assert forall|j: int| 0 <= j < arms@[i].patterns@.len() implies m.has_pattern(
                        #[trigger] arms@[i].patterns@[j],
                    ) by {
                        assert(m.has_pattern(expr.arms@[i].patterns@[j]));
                    }
                }
                assert(arms@.len() == arms.len());
                lemma_same_underscore(&m, MatchKind::Match, arms@, wrapped);
                lemma_first_taking_all(&m, arms@);
                let n = first_taking_all(&m, arms@) as int;
                lemma_same_parts(arms@, wrapped, 0, n);
                assert(arms@.subrange(0, n) =~= arms@.take(n));
                assert(wrapped.subrange(0, n) =~= wrapped.take(n));
                lemma_same_patterns(&m, arms@.take(n), wrapped.take(n));
            }
            let location = LoweringContext::get_location(expr.stable_ptr);
            let r = lower_match_arms(
                ctx,
                expr.matched_expr,
                input,
                arms.as_slice(),
                location,
                MatchKind::Match,
            );
            proof {
                lemma_same_outcome(
                    *old(ctx),
                    *ctx,
                    expr.matched_expr,
                    input,
                    arms@,
                    wrapped,
                    location,
                    MatchKind::Match,
                    r,
                );
            }
            r
        },
    }
}

/// The fields of a tuple are found under all snapshots around it.
pub proof fn law_tuples_are_found_under_snapshots(m: &SemanticModel, ty: TypeId)
    requires
        m.db.wf(),
        m.db.has_type(ty),
    ensures
        match m.db.types@[ty.0 as int].long_id {
            TypeLongId::Snapshot(inner) => tuple_types(m, ty) == tuple_types(m, inner),
            TypeLongId::Tuple(types) => tuple_types(m, ty) == Some(types@),
            _ => tuple_types(m, ty) is None,
        },
{
    assert(m.db.type_wf(ty.0 as int));
}

/// Whether a match is one on a number depends on the type of the matched expression alone: it is the
/// case for the types whose values all convert to a felt252.
pub proof fn law_the_type_tells_matches_on_numbers(m: &SemanticModel, expr: ExprId, other: ExprId)
    requires
        m.exprs@[expr.0 as int].ty == m.exprs@[other.0 as int].ty,
    ensures
        matches_number(m, expr) == matches_number(m, other),
        forall|ty: TypeId|
            m.exprs@[expr.0 as int].ty == ty ==> matches_number(m, expr) == (
            #[trigger] m.db.types@[ty.0 as int]).numeric_upcastable_to_felt252,
{
}

/// The arms of a match keep their patterns and expressions, in their order.
pub proof fn law_wrapped_arms_are_the_arms(arms: Seq<MatchArm>, i: int)
    requires
        0 <= i < arms.len(),
    ensures
        wrapped_arms(arms).len() == arms.len(),
        wrapped_arms(arms)[i].patterns@ == arms[i].patterns@,
        wrapped_arms(arms)[i].expr == Some(arms[i].expression),
{
}

/// A match on a tuple is lowered on the fields of the tuple, with the snapshots around it.
pub proof fn law_matches_on_a_tuple_are_lowered_on_its_fields(
    before: LoweringContext,
    after: LoweringContext,
    matched_expr: ExprId,
    inputs: LoweringResult<Vec<VarUsage>>,
    tuple_location: LocationId,
    arms: Seq<MatchArmWrapper>,
    location: LocationId,
    match_type: MatchKind,
    r: LoweringResult<LoweredMatch>,
    n_snapshots: usize,
    types: Seq<TypeId>,
)
    requires
        match_arms_outcome(
            before,
            after,
            matched_expr,
            MatchInput::Tuple { inputs, location: tuple_location },
            arms,
            location,
            match_type,
            r,
        ),
        n_snapshots == before.semantic.db.peeled(
            before.semantic.exprs@[matched_expr.0 as int].ty,
        ).0,
        tuple_types(&before.semantic, before.semantic.exprs@[matched_expr.0 as int].ty) == Some(
            types,
        ),
    ensures
        match r {
            Ok(LoweredMatch::Tuple(lowered)) => tuple_match_outcome(
                before,
                after,
                inputs,
                tuple_location,
                matched_expr,
                n_snapshots,
                types,
                arms,
                match_type,
                Ok(lowered),
            ),
            Ok(_) => false,
            Err(error) => tuple_match_outcome(
                before,
                after,
                inputs,
                tuple_location,
                matched_expr,
                n_snapshots,
                types,
                arms,
                match_type,
                Err(error),
            ),
        },
{
}

/// A match on an enum is lowered as one on the enum that its input is: on the outcome of the call, or on
/// the variable, at the location of the match.
pub proof fn law_matches_on_an_enum_are_lowered_on_their_input(
    before: LoweringContext,
    after: LoweringContext,
    matched_expr: ExprId,
    input: MatchInput,
    arms: Seq<MatchArmWrapper>,
    location: LocationId,
    match_type: MatchKind,
    r: LoweringResult<LoweredMatch>,
)
    requires
        match_arms_outcome(
            before,
            after,
            matched_expr,
            input,
            arms,
            location,
            match_type,
            r,
        ),
    ensures
        input matches MatchInput::ExternEnum(extern_enum) ==> match r {
            Ok(LoweredMatch::ExternEnum(call, lowered)) => call == extern_enum
                && extern_match_outcome(
                before,
                after,
                extern_enum,
                arms,
                match_type,
                Ok(lowered),
            ),
            Ok(_) => false,
            Err(error) => extern_match_outcome(
                before,
                after,
                extern_enum,
                arms,
                match_type,
                Err(error),
            ),
        },
        input matches MatchInput::ConcreteEnum(match_input) ==> match r {
            Ok(LoweredMatch::ConcreteEnum(lowered)) => concrete_enum_match_outcome(
                before,
                after,
                matched_expr,
                match_input,
                arms,
                location,
                match_type,
                Ok(lowered),
            ),
            Ok(_) => false,
            Err(error) => concrete_enum_match_outcome(
                before,
                after,
                matched_expr,
                match_input,
                arms,
                location,
                match_type,
                Err(error),
            ),
        },
{
}

/// A match expression whose matched expression could not be lowered fails with that error, and nothing
/// else happens. Any other is lowered as a match on what it is on: a number, with its own arms, or what
/// the arms are lowered on, at the place of the match expression.
pub proof fn law_match_expressions_are_lowered_on_what_they_match(
    before: LoweringContext,
    after: LoweringContext,
    expr: ExprMatch,
    lowered: LoweringResult<MatchExprInput>,
    r: LoweringResult<LoweredMatch>,
    location: LocationId,
)
    requires
        expr_match_outcome(before, after, expr, lowered, r),
        location.0.0 == expr.stable_ptr,
    ensures
        match lowered {
            Err(error) => r == Err::<LoweredMatch, _>(error) && after == before,
            Ok(MatchExprInput::Value(Err(error), _)) => r == Err::<LoweredMatch, _>(error) && after
                == before,
            Ok(MatchExprInput::Value(Ok(input), ty)) => match r {
                Ok(LoweredMatch::Value(value)) => value_match_outcome(
                    before,
                    after,
                    expr,
                    input,
                    ty,
                    Ok(value),
                ),
                Ok(_) => false,
                Err(error) => value_match_outcome(before, after, expr, input, ty, Err(error)),
            },
            Ok(MatchExprInput::Arms(input)) => match_arms_outcome(
                before,
                after,
                expr.matched_expr,
                input,
                wrapped_arms(expr.arms@),
                location,
                MatchKind::Match,
                r,
            ),
        },
{
}

} // verus!

//! Diagnostics of lowering.
use vstd::prelude::*;

use crate::diagnostic_utils::StableLocation;
use crate::semantic::ExprId;
use crate::syntax::SyntaxStablePtrId;

verus! {

/// Shows that a diagnostic was reported.
#[derive(Clone, Copy, PartialEq, Eq, Hash, Structural, Debug)]
pub struct DiagnosticAdded;

/// A location in the lowered program.
#[derive(Clone, Copy, PartialEq, Eq, Hash, Structural, Debug)]
pub struct LocationId(pub StableLocation);

/// The construct that is lowered as a match.
#[derive(Clone, Copy, PartialEq, Eq, Debug)]
pub enum MatchKind {
    IfLet,
    /// The loop expression and the location of the loop.
    WhileLet(ExprId, SyntaxStablePtrId),
    Match,
}

/// What is wrong with a match. `Text` is how texts are held.
#[derive(PartialEq, Eq, Debug)]
pub enum MatchDiagnostic<Text = String> {
    UnsupportedMatchedType(Text),
    UnsupportedMatchedValueTuple,
    UnsupportedMatchArmNotAVariant,
    UnsupportedMatchArmNotATuple,
    UnsupportedMatchArmNotALiteral,
    UnsupportedMatchArmNonSequential,
    NonExhaustiveMatchValue,
    MissingMatchArm(Text),
    UnreachableMatchArm,
}

#[derive(PartialEq, Eq, Debug)]
pub struct MatchError<Text = String> {
    pub kind: MatchKind,
    pub error: MatchDiagnostic<Text>,
}

#[derive(PartialEq, Eq, Debug)]
pub enum LoweringDiagnosticKind<Text = String> {
    MatchError(MatchError<Text>),
    UnsupportedPattern,
}

#[derive(PartialEq, Eq, Debug)]
pub struct LoweringDiagnostic<Text = String> {
    pub location: LocationId,
    pub kind: LoweringDiagnosticKind<Text>,
}

/// A diagnostic, its texts taken as sequences of characters.
pub type Report = LoweringDiagnostic<Seq<char>>;

impl MatchDiagnostic<String> {
    pub open spec fn view(&self) -> MatchDiagnostic<Seq<char>> {
        match self {
            MatchDiagnostic::UnsupportedMatchedType(text) => MatchDiagnostic::UnsupportedMatchedType(
                text@,
            ),
            MatchDiagnostic::UnsupportedMatchedValueTuple =>
                MatchDiagnostic::UnsupportedMatchedValueTuple,
            MatchDiagnostic::UnsupportedMatchArmNotAVariant =>
                MatchDiagnostic::UnsupportedMatchArmNotAVariant,
            MatchDiagnostic::UnsupportedMatchArmNotATuple =>
                MatchDiagnostic::UnsupportedMatchArmNotATuple,
            MatchDiagnostic::UnsupportedMatchArmNotALiteral =>
                MatchDiagnostic::UnsupportedMatchArmNotALiteral,
            MatchDiagnostic::UnsupportedMatchArmNonSequential =>
                MatchDiagnostic::UnsupportedMatchArmNonSequential,
            MatchDiagnostic::NonExhaustiveMatchValue => MatchDiagnostic::NonExhaustiveMatchValue,
            MatchDiagnostic::MissingMatchArm(text) => MatchDiagnostic::MissingMatchArm(text@),
            MatchDiagnostic::UnreachableMatchArm => MatchDiagnostic::UnreachableMatchArm,
        }
    }
}

impl MatchError<String> {
    pub open spec fn view(&self) -> MatchError<Seq<char>> {
        MatchError { kind: self.kind, error: self.error@ }
    }
}

impl LoweringDiagnosticKind<String> {
    pub open spec fn view(&self) -> LoweringDiagnosticKind<Seq<char>> {
        match self {
            LoweringDiagnosticKind::MatchError(error) => LoweringDiagnosticKind::MatchError(error@),
            LoweringDiagnosticKind::UnsupportedPattern =>
                LoweringDiagnosticKind::UnsupportedPattern,
        }
    }
}

impl LoweringDiagnostic<String> {
    pub open spec fn view(&self) -> Report {
        LoweringDiagnostic { location: self.location, kind: self.kind@ }
    }
}

/// The location of the syntax that `stable_ptr` points at.
pub open spec fn location_of(stable_ptr: SyntaxStablePtrId) -> LocationId {
    LocationId(StableLocation(stable_ptr))
}

/// A match error of a match of kind `kind` at `location`.
pub open spec fn match_error(
    location: LocationId,
    kind: MatchKind,
    error: MatchDiagnostic<Seq<char>>,
) -> Report {
    LoweringDiagnostic {
        location,
        kind: LoweringDiagnosticKind::MatchError(MatchError { kind, error }),
    }
}

/// A match error of a match of kind `kind` at the syntax that `stable_ptr` points at.
pub open spec fn match_error_at(
    stable_ptr: SyntaxStablePtrId,
    kind: MatchKind,
    error: MatchDiagnostic<Seq<char>>,
) -> Report {
    match_error(location_of(stable_ptr), kind, error)
}

/// A match error is reported at the syntax that it is about, with the kind of the match.
pub proof fn law_match_errors_point_at_their_syntax(
    stable_ptr: SyntaxStablePtrId,
    location: LocationId,
    kind: MatchKind,
    error: MatchDiagnostic<Seq<char>>,
)
    ensures
        location_of(stable_ptr).0.0 == stable_ptr,
        match_error_at(stable_ptr, kind, error) == match_error(location_of(stable_ptr), kind, error),
        match_error(location, kind, error).location == location,
        match_error(location, kind, error).kind matches LoweringDiagnosticKind::MatchError(reported)
            && reported.kind == kind && reported.error == error,
{
}

/// Taking the texts of a diagnostic as sequences of characters changes nothing else.
pub proof fn law_views_change_nothing_but_texts(diagnostic: LoweringDiagnostic)
    ensures
        diagnostic@.location == diagnostic.location,
        diagnostic.kind is UnsupportedPattern <==> diagnostic@.kind is UnsupportedPattern,
        diagnostic.kind matches LoweringDiagnosticKind::MatchError(reported) ==> {
            &&& diagnostic@.kind matches LoweringDiagnosticKind::MatchError(seen)
            &&& seen.kind == reported.kind
            &&& reported.error matches MatchDiagnostic::MissingMatchArm(text) ==> seen.error
                == MatchDiagnostic::MissingMatchArm(text@)
            &&& reported.error matches MatchDiagnostic::UnsupportedMatchedType(text) ==> seen.error
                == MatchDiagnostic::UnsupportedMatchedType(text@)
            &&& reported.error is UnsupportedMatchedValueTuple
                <==> seen.error is UnsupportedMatchedValueTuple
            &&& reported.error is UnsupportedMatchArmNotAVariant
                <==> seen.error is UnsupportedMatchArmNotAVariant
            &&& reported.error is UnsupportedMatchArmNotATuple
                <==> seen.error is UnsupportedMatchArmNotATuple
            &&& reported.error is UnsupportedMatchArmNotALiteral
                <==> seen.error is UnsupportedMatchArmNotALiteral
            &&& reported.error is UnsupportedMatchArmNonSequential
                <==> seen.error is UnsupportedMatchArmNonSequential
            &&& reported.error is NonExhaustiveMatchValue <==> seen.error is NonExhaustiveMatchValue
            &&& reported.error is UnreachableMatchArm <==> seen.error is UnreachableMatchArm
        },
{
}

} // verus!

//! The state that lowering works on.
use vstd::prelude::*;

use crate::diagnostic::{
    location_of, match_error, match_error_at, DiagnosticAdded, LocationId, LoweringDiagnostic,
    LoweringDiagnosticKind, MatchDiagnostic, MatchError, MatchKind, Report,
};
use crate::diagnostic_utils::StableLocation;
use crate::semantic::SemanticModel;
use crate::syntax::SyntaxStablePtrId;

verus! {

/// Why control does not reach the end of what was lowered.
#[derive(Clone, Copy, PartialEq, Eq, Debug)]
pub enum LoweringFlowError {
    /// Lowering failed, and a diagnostic was reported.
    Failed(DiagnosticAdded),
    /// The lowered code ends the flow by itself: it panics, returns, or all arms of a match do.
    /// The number is a name for that end.
    Ended(usize),
}

pub type LoweringResult<T> = Result<T, LoweringFlowError>;

/// The result of a failed lowering whose diagnostic was reported.
pub open spec fn failed<T>() -> LoweringResult<T> {
    Err(LoweringFlowError::Failed(DiagnosticAdded))
}

/// The model of the function that is lowered, and the diagnostics reported so far.
#[derive(Debug)]
pub struct LoweringContext {
    pub semantic: SemanticModel,
    pub diagnostics: Vec<LoweringDiagnostic>,
}

impl LoweringContext {
    /// The diagnostics reported so far, in the order of their reports.
    pub open spec fn reported(&self) -> Seq<Report> {
        self.diagnostics@.map_values(|d: LoweringDiagnostic| d@)
    }

    /// `later` holds the same model, and the diagnostics of `self` with `reports` after them.
    pub open spec fn reports(&self, later: &Self, reports: Seq<Report>) -> bool {
        &&& later.semantic == self.semantic
        &&& later.reported() =~= self.reported() + reports
    }

    /// The location of the syntax that `stable_ptr` points at.
    pub fn get_location(stable_ptr: SyntaxStablePtrId) -> (r: LocationId)
        ensures
            r == location_of(stable_ptr),
    {
        LocationId(StableLocation::new(stable_ptr))
    }

    /// Reports a diagnostic at `location`.
    pub fn report_by_location(
        &mut self,
        location: LocationId,
        kind: LoweringDiagnosticKind,
    ) -> (r: DiagnosticAdded)
        ensures
            old(self).reports(final(self), seq![LoweringDiagnostic { location, kind: kind@ }]),
    {
        self.diagnostics.push(LoweringDiagnostic { location, kind });
        proof {
            assert(self.reported() =~= old(self).reported() + seq![
                LoweringDiagnostic { location, kind: kind@ },
            ]);
        }
        DiagnosticAdded
    }

    /// Adds diagnostics that were reported elsewhere, in their order.
    pub fn add_diagnostics(&mut self, diagnostics: Vec<LoweringDiagnostic>)
        ensures
            old(self).reports(
                final(self),
                diagnostics@.map_values(|d: LoweringDiagnostic| d@),
            ),
    {
        for diagnostic in iter: diagnostics
            invariant
                iter.seq() == diagnostics@,
                old(self).reports(
                    self,
                    diagnostics@.take(iter.index() as int).map_values(
                        |d: LoweringDiagnostic| d@,
                    ),
                ),
        {
            let ghost i = iter.index() as int;
            let ghost before = *self;
            self.diagnostics.push(diagnostic);
            proof {
                assert(diagnostics@.take(i + 1) =~= diagnostics@.take(i).push(diagnostic));
                assert(self.reported() =~= before.reported().push(diagnostic@));
            }
        }
        assert(diagnostics@.take(diagnostics@.len() as int) =~= diagnostics@);
    }

    /// Reports a match error at the syntax that `stable_ptr` points at.
    pub fn report_match_error(
        &mut self,
        stable_ptr: SyntaxStablePtrId,
        kind: MatchKind,
        error: MatchDiagnostic,
    ) -> (r: DiagnosticAdded)
        ensures
            old(self).reports(final(self), seq![match_error_at(stable_ptr, kind, error@)]),
    {
        let location = Self::get_location(stable_ptr);
        self.report_match_error_by_location(location, kind, error)
    }

    /// Reports a match error at `location`.
    pub fn report_match_error_by_location(
        &mut self,
        location: LocationId,
        kind: MatchKind,
        error: MatchDiagnostic,
    ) -> (r: DiagnosticAdded)
        ensures
            old(self).reports(final(self), seq![match_error(location, kind, error@)]),
    {
        self.report_by_location(
            location,
            LoweringDiagnosticKind::MatchError(MatchError { kind, error }),
        )
    }
}

/// What is reported comes after what was reported before, and reports that follow each other add up. The
/// model stays as it is.
pub proof fn law_reports_add_up(
    first: LoweringContext,
    second: LoweringContext,
    third: LoweringContext,
    some: Seq<Report>,
    more: Seq<Report>,
)
    requires
        first.reports(&second, some),
        second.reports(&third, more),
    ensures
        first.reports(&third, some + more),
        third.semantic == first.semantic,
        second.reported().len() == first.reported().len() + some.len(),
        second.reported().take(first.reported().len() as int) == first.reported(),
        second.reported().skip(first.reported().len() as int) == some,
        first.diagnostics@.len() == first.reported().len(),
        forall|i: int|
            0 <= i < first.reported().len() ==> #[trigger] first.reported()[i]
                == first.diagnostics@[i]@,
{
    assert(second.reported().take(first.reported().len() as int) =~= first.reported());
    assert(second.reported().skip(first.reported().len() as int) =~= some);
    assert(third.reported() =~= first.reported() + (some + more));
}

/// A failed lowering is one whose diagnostic was reported.
pub proof fn law_failed_means_reported<T>()
    ensures
        failed::<T>() matches Err(LoweringFlowError::Failed(_)),
{
}

} // verus!

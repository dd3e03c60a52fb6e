//! Match arms, each with all the leaves that lead to it.
use vstd::prelude::*;

use crate::adapters::{chunked_by_arm, sorted_by_arm, zip_eq};
use crate::context::{failed, LoweringContext, LoweringFlowError, LoweringResult};
use crate::diagnostic::{
    location_of, match_error, LocationId, LoweringDiagnostic, LoweringDiagnosticKind,
    MatchDiagnostic, MatchKind, Report,
};
use crate::lowered::{BlockId, MatchInfo, VariableId};
use crate::match_arms::{arms_wf, MatchArmWrapper};
use crate::semantic::{ExprId, SemanticModel};
use crate::syntax::SyntaxStablePtrId;

verus! {

/// Represents a leaf in match tree, with the arm index it belongs to.
#[derive(Clone, Copy, PartialEq, Eq, Debug)]
pub struct MatchLeafBuilder {
    pub arm_index: usize,
    /// What came of lowering the patterns inside the leaf.
    pub lowering_result: LoweringResult<()>,
    /// The block of the leaf.
    pub builder: BlockId,
}

/// The leaves of the arm at `arm_index`, in their order.
pub open spec fn leaves_of_arm(leaves: Seq<MatchLeafBuilder>, arm_index: usize) -> Seq<
    MatchLeafBuilder,
> {
    leaves.filter(|leaf: MatchLeafBuilder| leaf.arm_index == arm_index)
}

/// What the block of an arm ends with.
#[derive(Clone, Copy, PartialEq, Eq, Debug)]
pub enum ArmBody {
    /// The value of an expression.
    TailExpr(ExprId),
    /// The block of a loop, followed by a call of the function of the loop.
    LoopBody { block: ExprId, loop_expr_id: ExprId, stable_ptr: SyntaxStablePtrId },
    /// The unit value.
    Unit(LocationId),
}

/// What the block of `arm` ends with in a match of kind `kind` at `location`.
pub open spec fn arm_body(arm: MatchArmWrapper, location: LocationId, kind: MatchKind) -> ArmBody {
    match (arm.expr, kind) {
        (Some(block), MatchKind::WhileLet(loop_expr_id, stable_ptr)) => ArmBody::LoopBody {
            block,
            loop_expr_id,
            stable_ptr,
        },
        (Some(expr), _) => ArmBody::TailExpr(expr),
        (None, _) => ArmBody::Unit(location),
    }
}

/// The location of the first pattern of `arm`, or `location` where it has none.
pub open spec fn arm_location(
    m: &SemanticModel,
    arm: MatchArmWrapper,
    location: LocationId,
) -> LocationId {
    if arm.patterns@.len() == 0 {
        location
    } else {
        location_of(m.pattern_ptr(arm.patterns@[0]))
    }
}

/// How the leaves of an arm end.
#[derive(PartialEq, Eq, Debug)]
pub enum ArmEnd {
    /// The arm has one leaf, and its block ends with the body of the arm. Where the patterns of the
    /// leaf end the flow, so does the block.
    Single { block: BlockId, end: LoweringResult<ArmBody> },
    /// The arm has several leaves. The block of each ends with the unit value at a location, or ends
    /// the flow. They are joined in a sibling of the first of them, as the blocks of a match
    /// without arms, and the joined block ends with the body of the arm.
    Joined {
        subscopes: Vec<(BlockId, LoweringResult<LocationId>)>,
        info: MatchInfo,
        location: LocationId,
        body: ArmBody,
    },
}

/// An arm that leaves lead to.
#[derive(PartialEq, Eq, Debug)]
pub struct ArmGroup {
    pub arm_index: usize,
    pub end: ArmEnd,
}

/// The result of lowering, with `value` in place of nothing.
pub open spec fn result_with<T>(result: LoweringResult<()>, value: T) -> LoweringResult<T> {
    match result {
        Ok(()) => Ok(value),
        Err(error) => Err(error),
    }
}

impl ArmGroup {
    /// The group is that of `leaves`, all of them of the arm at `arm_index`.
    pub open spec fn groups(
        &self,
        m: &SemanticModel,
        empty_match_info: &MatchInfo,
        match_location: LocationId,
        arms: Seq<MatchArmWrapper>,
        kind: MatchKind,
        arm_index: usize,
        leaves: Seq<MatchLeafBuilder>,
    ) -> bool {
        let arm = arms[arm_index as int];
        let arm_end = arm_body(arm, match_location, kind);
        &&& self.arm_index == arm_index
        &&& if leaves.len() == 1 {
            self.end == (ArmEnd::Single {
                block: leaves[0].builder,
                end: result_with(leaves[0].lowering_result, arm_end),
            })
        } else {
            &&& self.end matches ArmEnd::Joined { subscopes, info, location, body }
            &&& subscopes@ == leaves.map_values(
                |leaf: MatchLeafBuilder|
                    (
                        leaf.builder,
                        result_with(leaf.lowering_result, arm_location(m, arm, match_location)),
                    ),
            )
            &&& info.is_without_arms(empty_match_info)
            &&& location == match_location
            &&& body == arm_end
        }
    }
}

/// The arms below `n` that leaves lead to, in ascending order.
pub open spec fn arms_with_leaves(leaves: Seq<MatchLeafBuilder>, n: nat) -> Seq<usize>
    decreases n,
{
    if n == 0 {
        seq![]
    } else {
        let below = arms_with_leaves(leaves, (n - 1) as nat);
        if leaves_of_arm(leaves, (n - 1) as usize).len() > 0 {
            below.push((n - 1) as usize)
        } else {
            below
        }
    }
}

/// The leaves of each of `chunks`.
spec fn leaves_of_chunks(chunks: Seq<(usize, Vec<MatchLeafBuilder>)>) -> Seq<Seq<MatchLeafBuilder>> {
    Seq::new(chunks.len(), |i: int| chunks[i].1@)
}

/// The leaves of each of `chunks` are of its arm.
spec fn chunks_uniform(chunks: Seq<(usize, Vec<MatchLeafBuilder>)>) -> bool {
    forall|i: int, k: int|
        0 <= i < chunks.len() && 0 <= k < chunks[i].1@.len() ==> (
        #[trigger] chunks[i].1@[k]).arm_index == chunks[i].0
}

/// Leaves of one arm are the leaves of that arm, and of no other.
proof fn lemma_uniform(leaves: Seq<MatchLeafBuilder>, arm_index: usize, other: usize)
    requires
        forall|k: int| 0 <= k < leaves.len() ==> (#[trigger] leaves[k]).arm_index == arm_index,
    ensures
        leaves_of_arm(leaves, other) == (if other == arm_index {
            leaves
        } else {
            seq![]
        }),
    decreases leaves.len(),
{
    reveal(Seq::filter);
    if leaves.len() > 0 {
        lemma_uniform(leaves.drop_last(), arm_index, other);
        assert(leaves.last() == leaves[leaves.len() - 1]);
        assert(leaves.drop_last().push(leaves.last()) =~= leaves);
    }
}

/// The leaves of an arm among all chunks are those in the first chunk, then those in the rest.
proof fn lemma_first_chunk(chunks: Seq<(usize, Vec<MatchLeafBuilder>)>, arm_index: usize)
    requires
        chunks.len() > 0,
        chunks_uniform(chunks),
    ensures
        chunks_uniform(chunks.drop_first()),
        leaves_of_chunks(chunks).flatten() == chunks[0].1@ + leaves_of_chunks(
            chunks.drop_first(),
        ).flatten(),
        leaves_of_arm(leaves_of_chunks(chunks).flatten(), arm_index) == (if chunks[0].0
            == arm_index {
            chunks[0].1@
        } else {
            seq![]
        }) + leaves_of_arm(leaves_of_chunks(chunks.drop_first()).flatten(), arm_index),
{
    let rest = chunks.drop_first();
    let first = chunks[0].1@;
    assert(leaves_of_chunks(chunks).drop_first() =~= leaves_of_chunks(rest));
    assert(leaves_of_chunks(chunks).first() == first);
    assert forall|i: int, k: int| 0 <= i < rest.len() && 0 <= k < rest[i].1@.len() implies (
    #[trigger] rest[i].1@[k]).arm_index == rest[i].0 by {
        assert(chunks[i + 1].1@[k].arm_index == chunks[i + 1].0);
    }
    assert forall|k: int| 0 <= k < first.len() implies (#[trigger] first[k]).arm_index
        == chunks[0].0 by {
        assert(chunks[0].1@[k].arm_index == chunks[0].0);
    }
    lemma_uniform(first, chunks[0].0, arm_index);
    Seq::filter_distributes_over_add(
        first,
        leaves_of_chunks(rest).flatten(),
        |leaf: MatchLeafBuilder| leaf.arm_index == arm_index,
    );
}

/// Where the arms of the chunks ascend, a chunk holds all leaves of its arm.
proof fn lemma_chunk(chunks: Seq<(usize, Vec<MatchLeafBuilder>)>, arm_index: usize)
    requires
        chunks_uniform(chunks),
        forall|i: int, j: int|
            0 <= i < j < chunks.len() ==> (#[trigger] chunks[i]).0 < (#[trigger] chunks[j]).0,
    ensures
        forall|i: int|
            0 <= i < chunks.len() && (#[trigger] chunks[i]).0 == arm_index ==> leaves_of_arm(
                leaves_of_chunks(chunks).flatten(),
                arm_index,
            ) == chunks[i].1@,
        (forall|i: int| 0 <= i < chunks.len() ==> (#[trigger] chunks[i]).0 != arm_index)
            ==> leaves_of_arm(leaves_of_chunks(chunks).flatten(), arm_index) == Seq::<
            MatchLeafBuilder,
        >::empty(),
    decreases chunks.len(),
{
    if chunks.len() == 0 {
        reveal(Seq::filter);
    } else {
        let rest = chunks.drop_first();
        lemma_first_chunk(chunks, arm_index);
        lemma_chunk(rest, arm_index);
        let of_rest = leaves_of_arm(leaves_of_chunks(rest).flatten(), arm_index);
        assert forall|i: int| 0 <= i < chunks.len() && (#[trigger] chunks[i]).0
            == arm_index implies leaves_of_arm(leaves_of_chunks(chunks).flatten(), arm_index)
            == chunks[i].1@ by {
            if i == 0 {
                assert forall|k: int| 0 <= k < rest.len() implies (#[trigger] rest[k]).0
                    != arm_index by {
                    assert(chunks[0].0 < chunks[k + 1].0);
                }
                assert(chunks[0].1@ + of_rest =~= chunks[0].1@);
            } else {
                assert(chunks[0].0 < chunks[i].0);
                assert(rest[i - 1] == chunks[i]);
                assert(seq![] + of_rest =~= of_rest);
            }
        }
        if forall|i: int| 0 <= i < chunks.len() ==> (#[trigger] chunks[i]).0 != arm_index {
            assert(chunks[0].0 != arm_index);
            assert forall|k: int| 0 <= k < rest.len() implies (#[trigger] rest[k]).0
                != arm_index by {
                assert(rest[k] == chunks[k + 1]);
            }
            assert(seq![] + of_rest =~= of_rest);
        }
    }
}

/// In a sorted list that is cut where the arm changes, the arms of the pieces ascend.
proof fn lemma_chunks_ascend(chunks: Seq<(usize, Vec<MatchLeafBuilder>)>, flat: Seq<MatchLeafBuilder>)
    requires
        flat == leaves_of_chunks(chunks).flatten(),
        forall|i: int, j: int|
            0 <= i <= j < flat.len() ==> (#[trigger] flat[i]).arm_index <= (
            #[trigger] flat[j]).arm_index,
        forall|i: int| 0 <= i < chunks.len() ==> (#[trigger] chunks[i]).1@.len() > 0,
        chunks_uniform(chunks),
        forall|i: int, j: int|
            0 <= i && j == i + 1 && j < chunks.len() ==> (#[trigger] chunks[i]).0 != (
            #[trigger] chunks[j]).0,
    ensures
        forall|i: int, j: int|
            0 <= i < j < chunks.len() ==> (#[trigger] chunks[i]).0 < (#[trigger] chunks[j]).0,
    decreases chunks.len(),
{
    if chunks.len() > 1 {
        let rest = chunks.drop_first();
        let flat_rest = leaves_of_chunks(rest).flatten();
        let n = chunks[0].1@.len() as int;
        lemma_first_chunk(chunks, 0);
        assert forall|i: int, j: int| 0 <= i <= j < flat_rest.len() implies (
        #[trigger] flat_rest[i]).arm_index <= (#[trigger] flat_rest[j]).arm_index by {
            assert(flat_rest[i] == flat[n + i]);
            assert(flat_rest[j] == flat[n + j]);
        }
        assert forall|i: int, j: int| 0 <= i && j == i + 1 && j < rest.len() implies (
        #[trigger] rest[i]).0 != (#[trigger] rest[j]).0 by {
            assert(rest[i] == chunks[i + 1]);
            assert(rest[j] == chunks[j + 1]);
        }
        lemma_first_chunk(rest, 0);
        lemma_chunks_ascend(rest, flat_rest);
        let second = rest[0].1@;
        assert(chunks[1] == rest[0]);
        assert(flat_rest[0] == second[0]);
        assert(flat[n] == second[0]);
        assert(flat[0] == chunks[0].1@[0]);
        assert(rest[0].1@[0].arm_index == rest[0].0);
        assert(chunks[0].0 < chunks[1].0);
        assert forall|i: int, j: int| 0 <= i < j < chunks.len() implies (#[trigger] chunks[i]).0 < (
        #[trigger] chunks[j]).0 by {
            assert(chunks[j] == rest[j - 1]);
            if i > 0 {
                assert(chunks[i] == rest[i - 1]);
            } else if j > 1 {
                assert(rest[0].0 < rest[j - 1].0);
            }
        }
    }
}

/// What `chunks` holds when it is cut from sorted leaves: the arms that have leaves, in ascending
/// order, each with its leaves.
proof fn lemma_chunks(
    leaves: Seq<MatchLeafBuilder>,
    sorted: Seq<MatchLeafBuilder>,
    chunks: Seq<(usize, Vec<MatchLeafBuilder>)>,
    n: nat,
)
    requires
        n <= usize::MAX,
        forall|i: int| 0 <= i < leaves.len() ==> (#[trigger] leaves[i]).arm_index < n,
        forall|arm_index: usize| #[trigger]
            leaves_of_arm(sorted, arm_index) == leaves_of_arm(leaves, arm_index),
        sorted == leaves_of_chunks(chunks).flatten(),
        chunks_uniform(chunks),
        forall|i: int| 0 <= i < chunks.len() ==> (#[trigger] chunks[i]).1@.len() > 0,
        forall|i: int, j: int|
            0 <= i < j < chunks.len() ==> (#[trigger] chunks[i]).0 < (#[trigger] chunks[j]).0,
    ensures
        arms_with_leaves(leaves, n) == Seq::new(chunks.len(), |i: int| chunks[i].0),
        forall|i: int|
            0 <= i < chunks.len() ==> leaves_of_arm(leaves, (#[trigger] chunks[i]).0)
                == chunks[i].1@ && chunks[i].0 < n,
{
    let arm_indices = Seq::new(chunks.len(), |i: int| chunks[i].0);
    assert forall|i: int| 0 <= i < chunks.len() implies leaves_of_arm(
        leaves,
        (#[trigger] chunks[i]).0,
    ) == chunks[i].1@ && chunks[i].0 < n by {
        let arm_index = chunks[i].0;
        let of_arm = leaves_of_arm(leaves, arm_index);
        lemma_chunk(chunks, arm_index);
        assert(leaves_of_arm(sorted, arm_index) == of_arm);
        lemma_leaf_of_arm(leaves, arm_index);
    }
    assert forall|a: usize| a < n implies (arm_indices.contains(a) <==> (
    #[trigger] leaves_of_arm(leaves, a)).len() > 0) by {
        assert(leaves_of_arm(sorted, a) == leaves_of_arm(leaves, a));
        lemma_chunk(chunks, a);
        if arm_indices.contains(a) {
            let i = arm_indices.index_of(a);
            assert(chunks[i].0 == a);
        } else {
            assert forall|i: int| 0 <= i < chunks.len() implies (#[trigger] chunks[i]).0 != a by {
                assert(arm_indices[i] == chunks[i].0);
            }
        }
    }
    lemma_arms_with_leaves(leaves, arm_indices, n);
}

/// An arm with leaves is the arm of a leaf.
proof fn lemma_leaf_of_arm(leaves: Seq<MatchLeafBuilder>, arm_index: usize)
    requires
        leaves_of_arm(leaves, arm_index).len() > 0,
    ensures
        exists|k: int| 0 <= k < leaves.len() && (#[trigger] leaves[k]).arm_index == arm_index,
    decreases leaves.len(),
{
    reveal(Seq::filter);
    if leaves.last().arm_index == arm_index {
        assert(leaves[leaves.len() - 1].arm_index == arm_index);
    } else {
        lemma_leaf_of_arm(leaves.drop_last(), arm_index);
        let k = choose|k: int|
            0 <= k < leaves.drop_last().len() && (#[trigger] leaves.drop_last()[k]).arm_index
                == arm_index;
        assert(leaves[k].arm_index == arm_index);
    }
}

/// Ascending arms are the arms with leaves, where each of them has leaves and no other has.
proof fn lemma_arms_with_leaves(
    leaves: Seq<MatchLeafBuilder>,
    arm_indices: Seq<usize>,
    n: nat,
)
    requires
        n <= usize::MAX,
        forall|i: int, j: int|
            0 <= i < j < arm_indices.len() ==> #[trigger] arm_indices[i] < #[trigger] arm_indices[j],
        forall|i: int| 0 <= i < arm_indices.len() ==> (#[trigger] arm_indices[i]) < n,
        forall|a: usize|
            a < n ==> (arm_indices.contains(a) <==> (#[trigger] leaves_of_arm(leaves, a)).len() > 0),
    ensures
        arm_indices == arms_with_leaves(leaves, n),
    decreases n,
{
    if n == 0 {
        if arm_indices.len() > 0 {
            assert(arm_indices[0] < 0);
        }
    } else {
        let last = (n - 1) as usize;
        if leaves_of_arm(leaves, last).len() > 0 {
            assert(arm_indices.contains(last));
            let k = arm_indices.index_of(last);
            if k + 1 < arm_indices.len() {
                assert(arm_indices[k] < arm_indices[k + 1]);
            }
            let below = arm_indices.drop_last();
            assert(arm_indices.last() == last);
            assert forall|a: usize| a < n - 1 implies (below.contains(a) <==> (
            #[trigger] leaves_of_arm(leaves, a)).len() > 0) by {
                if arm_indices.contains(a) {
                    let i = arm_indices.index_of(a);
                    assert(below[i] == a);
                }
                if below.contains(a) {
                    let i = below.index_of(a);
                    assert(arm_indices[i] == a);
                }
            }
            assert forall|i: int| 0 <= i < below.len() implies (#[trigger] below[i]) < n - 1 by {
                assert(arm_indices[i] < arm_indices[arm_indices.len() - 1]);
            }
            lemma_arms_with_leaves(leaves, below, (n - 1) as nat);
            assert(below.push(last) =~= arm_indices);
        } else {
            assert forall|i: int| 0 <= i < arm_indices.len() implies (#[trigger] arm_indices[i]) < n
                - 1 by {
                assert(arm_indices.contains(arm_indices[i]));
            }
            lemma_arms_with_leaves(leaves, arm_indices, (n - 1) as nat);
        }
    }
}

/// The expressions of the arms whose body is lowered are blocks. That is the case for an arm with a
/// leaf whose patterns do not end the flow, and for one with several leaves.
pub open spec fn bodies_are_blocks(
    m: &SemanticModel,
    arms: Seq<MatchArmWrapper>,
    leaves: Seq<MatchLeafBuilder>,
) -> bool {
    forall|i: int|
        0 <= i < leaves.len() && ((#[trigger] leaves[i]).lowering_result is Ok || leaves_of_arm(
            leaves,
            leaves[i].arm_index,
        ).len() > 1) ==> (arms[leaves[i].arm_index as int].expr matches Some(expr)
            ==> m.exprs@[expr.0 as int].is_block)
}

/// `groups` are the groups of `leaves`: one for each arm that leaves lead to, in the order of the
/// arms.
pub open spec fn are_groups(
    groups: Seq<ArmGroup>,
    m: &SemanticModel,
    empty_match_info: &MatchInfo,
    location: LocationId,
    arms: Seq<MatchArmWrapper>,
    kind: MatchKind,
    leaves: Seq<MatchLeafBuilder>,
) -> bool {
    let arm_indices = arms_with_leaves(leaves, arms.len());
    &&& groups.len() == arm_indices.len()
    &&& forall|i: int|
        0 <= i < groups.len() ==> (#[trigger] groups[i]).groups(
            m,
            empty_match_info,
            location,
            arms,
            kind,
            arm_indices[i],
            leaves_of_arm(leaves, arm_indices[i]),
        )
}

/// Groups match arms of different variants to their corresponding arms blocks. Arms that no leaf
/// leads to have no group.
pub fn group_match_arms(
    ctx: &LoweringContext,
    empty_match_info: &MatchInfo,
    location: LocationId,
    arms: &[MatchArmWrapper],
    variants_block_builders: Vec<MatchLeafBuilder>,
    kind: MatchKind,
) -> (r: Vec<ArmGroup>)
    requires
        arms_wf(&ctx.semantic, arms@),
        forall|i: int|
            0 <= i < variants_block_builders@.len() ==> (
            #[trigger] variants_block_builders@[i]).arm_index < arms@.len(),
        // While Let expression should be a block.
        kind is WhileLet ==> bodies_are_blocks(&ctx.semantic, arms@, variants_block_builders@),
    ensures
        are_groups(
            r@,
            &ctx.semantic,
            empty_match_info,
            location,
            arms@,
            kind,
            variants_block_builders@,
        ),
{
    let ghost m = ctx.semantic;
    let ghost leaves = variants_block_builders@;
    let sorted = sorted_by_arm(variants_block_builders);
    let ghost sorted_leaves = sorted@;
    let chunks = chunked_by_arm(sorted);
    let ghost arm_indices = arms_with_leaves(leaves, arms@.len());
    proof {
        assert(leaves_of_chunks(chunks@) =~= Seq::new(chunks@.len(), |i: int| chunks@[i].1@));
        assert(arms@.len() == arms.len());
        lemma_chunks_ascend(chunks@, sorted_leaves);
        lemma_chunks(leaves, sorted_leaves, chunks@, arms@.len());
    }
    let mut groups: Vec<ArmGroup> = Vec::new();
    for i in 0..chunks.len()
        invariant
            ctx.semantic == m,
            arms_wf(&m, arms@),
            arm_indices == Seq::new(chunks@.len(), |k: int| chunks@[k].0),
            forall|k: int|
                0 <= k < chunks@.len() ==> leaves_of_arm(leaves, (#[trigger] chunks@[k]).0)
                    == chunks@[k].1@ && chunks@[k].0 < arms@.len(),
            groups@.len() == i,
            forall|k: int|
                0 <= k < groups@.len() ==> (#[trigger] groups@[k]).groups(
                    &m,
                    empty_match_info,
                    location,
                    arms@,
                    kind,
                    arm_indices[k],
                    leaves_of_arm(leaves, arm_indices[k]),
                ),
    {
        let arm_index = chunks[i].0;
        let end = lower_arm_end(ctx, empty_match_info, location, &arms[arm_index], &chunks[i].1, kind);
        groups.push(ArmGroup { arm_index, end });
    }
    groups
}

/// How the leaves of `arm` end.
fn lower_arm_end(
    ctx: &LoweringContext,
    empty_match_info: &MatchInfo,
    location: LocationId,
    arm: &MatchArmWrapper,
    leaves: &Vec<MatchLeafBuilder>,
    kind: MatchKind,
) -> (r: ArmEnd)
    requires
        arm.wf(&ctx.semantic),
    ensures
        if leaves@.len() == 1 {
            r == (ArmEnd::Single {
                block: leaves@[0].builder,
                end: result_with(leaves@[0].lowering_result, arm_body(*arm, location, kind)),
            })
        } else {
            &&& r matches ArmEnd::Joined { subscopes, info, location: outer_location, body }
            &&& subscopes@ == leaves@.map_values(
                |leaf: MatchLeafBuilder|
                    (
                        leaf.builder,
                        result_with(
                            leaf.lowering_result,
                            arm_location(&ctx.semantic, *arm, location),
                        ),
                    ),
            )
            &&& info.is_without_arms(empty_match_info)
            &&& outer_location == location
            &&& body == arm_body(*arm, location, kind)
        },
{
    let body = match (arm.expr, kind) {
        (Some(block), MatchKind::WhileLet(loop_expr_id, stable_ptr)) => ArmBody::LoopBody {
            block,
            loop_expr_id,
            stable_ptr,
        },
        (Some(expr), _) => ArmBody::TailExpr(expr),
        (None, _) => ArmBody::Unit(location),
    };

    // If the arm has only one pattern, there is no need to create a parent scope.
    if leaves.len() == 1 {
        let end = match leaves[0].lowering_result {
            Ok(()) => Ok(body),
            Err(error) => Err(error),
        };
        return ArmEnd::Single { block: leaves[0].builder, end };
    }
    // Use the first pattern for the location of the variable assignment block.

    let subscope_location = if arm.patterns.is_empty() {
        location
    } else {
        LoweringContext::get_location(ctx.semantic.patterns[arm.patterns[0].0].stable_ptr)
    };
    let mut subscopes: Vec<(BlockId, LoweringResult<LocationId>)> = Vec::new();
    for k in 0..leaves.len()
        invariant
            subscope_location == arm_location(&ctx.semantic, *arm, location),
            subscopes@ == leaves@.take(k as int).map_values(
                |leaf: MatchLeafBuilder|
                    (
                        leaf.builder,
                        result_with(
                            leaf.lowering_result,
                            arm_location(&ctx.semantic, *arm, location),
                        ),
                    ),
            ),
    {
        let end = match leaves[k].lowering_result {
            Ok(()) => Ok(subscope_location),
            Err(error) => Err(error),
        };
        subscopes.push((leaves[k].builder, end));
        assert(leaves@.take(k + 1) =~= leaves@.take(k as int).push(leaves@[k as int]));
    }
    assert(leaves@.take(leaves@.len() as int) =~= leaves@);
    ArmEnd::Joined { subscopes, info: empty_match_info.without_arms(), location, body }
}

/// The groups of a match part its leaves: the arms with a group ascend, so that no arm has two, and
/// an arm has a group exactly where a leaf leads to it. The leaves of a group are those that lead to
/// its arm.
pub proof fn law_groups_part_the_leaves(leaves: Seq<MatchLeafBuilder>, n_arms: nat)
    requires
        n_arms <= usize::MAX,
        forall|i: int| 0 <= i < leaves.len() ==> (#[trigger] leaves[i]).arm_index < n_arms,
    ensures
        forall|i: int, j: int|
            0 <= i < j < arms_with_leaves(leaves, n_arms).len() ==> #[trigger] arms_with_leaves(
                leaves,
                n_arms,
            )[i] < #[trigger] arms_with_leaves(leaves, n_arms)[j],
        forall|arm_index: usize| #[trigger]
            arms_with_leaves(leaves, n_arms).contains(arm_index) <==> exists|k: int|
                0 <= k < leaves.len() && (#[trigger] leaves[k]).arm_index == arm_index,
        forall|arm_index: usize, leaf: MatchLeafBuilder| #[trigger]
            leaves_of_arm(leaves, arm_index).contains(leaf) <==> leaves.contains(leaf)
                && leaf.arm_index == arm_index,
{
    lemma_arms_ascend(leaves, n_arms);
    let arm_indices = arms_with_leaves(leaves, n_arms);
    assert forall|arm_index: usize, leaf: MatchLeafBuilder| #[trigger]
        leaves_of_arm(leaves, arm_index).contains(leaf) <==> leaves.contains(leaf) && leaf.arm_index
        == arm_index by {
        lemma_leaves_of_arm(leaves, arm_index, leaf);
    }
    assert forall|arm_index: usize| #[trigger] arm_indices.contains(arm_index) <==> exists|k: int|
        0 <= k < leaves.len() && (#[trigger] leaves[k]).arm_index == arm_index by {
        if arm_indices.contains(arm_index) {
            lemma_leaf_of_arm(leaves, arm_index);
        }
        if exists|k: int| 0 <= k < leaves.len() && (#[trigger] leaves[k]).arm_index == arm_index {
            let k = choose|k: int|
                0 <= k < leaves.len() && (#[trigger] leaves[k]).arm_index == arm_index;
            assert(leaves.contains(leaves[k]));
            assert(leaves_of_arm(leaves, arm_index).contains(leaves[k]));
        }
    }
}

proof fn lemma_arms_ascend(leaves: Seq<MatchLeafBuilder>, n: nat)
    requires
        n <= usize::MAX,
    ensures
        forall|i: int|
            0 <= i < arms_with_leaves(leaves, n).len() ==> (#[trigger] arms_with_leaves(
                leaves,
                n,
            )[i]) < n,
        forall|i: int, j: int|
            0 <= i < j < arms_with_leaves(leaves, n).len() ==> #[trigger] arms_with_leaves(
                leaves,
                n,
            )[i] < #[trigger] arms_with_leaves(leaves, n)[j],
        forall|arm_index: usize| #[trigger]
            arms_with_leaves(leaves, n).contains(arm_index) <==> arm_index < n && leaves_of_arm(
                leaves,
                arm_index,
            ).len() > 0,
    decreases n,
{
    if n > 0 {
        lemma_arms_ascend(leaves, (n - 1) as nat);
        let below = arms_with_leaves(leaves, (n - 1) as nat);
        let now = arms_with_leaves(leaves, n);
        let last = (n - 1) as usize;
        assert forall|arm_index: usize| #[trigger] now.contains(arm_index) <==> arm_index < n
            && leaves_of_arm(leaves, arm_index).len() > 0 by {
            if now.contains(arm_index) {
                let i = now.index_of(arm_index);
                if i < below.len() {
                    assert(below[i] == arm_index);
                    assert(below.contains(arm_index));
                }
            }
            if arm_index < n && leaves_of_arm(leaves, arm_index).len() > 0 {
                if arm_index == last {
                    assert(now[now.len() - 1] == last);
                } else {
                    assert(below.contains(arm_index));
                    let i = below.index_of(arm_index);
                    assert(now[i] == arm_index);
                }
            }
        }
    }
}

proof fn lemma_leaves_of_arm(
    leaves: Seq<MatchLeafBuilder>,
    arm_index: usize,
    leaf: MatchLeafBuilder,
)
    ensures
        leaves_of_arm(leaves, arm_index).contains(leaf) <==> leaves.contains(leaf) && leaf.arm_index
            == arm_index,
    decreases leaves.len(),
{
    reveal(Seq::filter);
    if leaves.len() > 0 {
        let before = leaves.drop_last();
        lemma_leaves_of_arm(before, arm_index, leaf);
        let of_before = leaves_of_arm(before, arm_index);
        let now = leaves_of_arm(leaves, arm_index);
        if leaves.contains(leaf) {
            let k = leaves.index_of(leaf);
            if k < before.len() {
                assert(before[k] == leaf);
            }
        }
        if before.contains(leaf) {
            let k = before.index_of(leaf);
            assert(leaves[k] == leaf);
        }
        if of_before.contains(leaf) {
            let k = of_before.index_of(leaf);
            assert(now[k] == leaf);
        }
        if now.contains(leaf) {
            let k = now.index_of(leaf);
            if k < of_before.len() {
                assert(of_before[k] == leaf);
            } else {
                assert(leaves[leaves.len() - 1] == leaf);
            }
        }
        if leaves.last() == leaf && leaf.arm_index == arm_index {
            assert(now[now.len() - 1] == leaf);
        }
    }
}

/// A leaf after it was lowered: what came of its patterns, its block, the variables that the match
/// brings there, and the diagnostics that were reported meanwhile.
#[derive(PartialEq, Eq, Debug)]
pub struct LoweredLeaf {
    pub lowering_result: LoweringResult<()>,
    pub block: BlockId,
    pub var_ids: Vec<VariableId>,
    pub diagnostics: Vec<LoweringDiagnostic>,
}

impl LoweredLeaf {
    /// The diagnostics that were reported while the leaf was lowered.
    pub open spec fn reports(&self) -> Seq<Report> {
        self.diagnostics@.map_values(|d: LoweringDiagnostic| d@)
    }

    /// The leaf in terms of its arm.
    pub open spec fn builder(&self, arm_index: usize) -> MatchLeafBuilder {
        MatchLeafBuilder {
            arm_index,
            lowering_result: self.lowering_result,
            builder: self.block,
        }
    }
}

/// Where a leaf leads.
#[derive(PartialEq, Eq, Debug)]
pub enum LeafTarget<Text = String> {
    Arm(usize),
    /// There is no arm, which is reported at a location.
    Error(LocationId, MatchDiagnostic<Text>),
}

/// A [LeafTarget], its text taken as a sequence of characters.
pub type Target = LeafTarget<Seq<char>>;

impl LeafTarget<String> {
    pub open spec fn view(&self) -> Target {
        match self {
            LeafTarget::Arm(arm_index) => LeafTarget::Arm(*arm_index),
            LeafTarget::Error(location, error) => LeafTarget::Error(*location, error@),
        }
    }
}

/// Where each leaf leads, the texts taken as sequences of characters.
pub open spec fn targets_of(targets: Seq<LeafTarget>) -> Seq<Target> {
    targets.map_values(|target: LeafTarget| target@)
}

/// What a leaf reports: what was reported while it was lowered, then that it has no arm.
pub open spec fn leaf_reports(target: Target, leaf: Option<LoweredLeaf>, kind: MatchKind) -> Seq<
    Report,
> {
    (match leaf {
        Some(leaf) => leaf.reports(),
        None => seq![],
    }) + (match target {
        LeafTarget::Arm(_) => seq![],
        LeafTarget::Error(location, error) => seq![match_error(location, kind, error)],
    })
}

/// What the leaves report, one after the other.
pub open spec fn leaves_reports(
    targets: Seq<Target>,
    leaves: Seq<Option<LoweredLeaf>>,
    kind: MatchKind,
) -> Seq<Report>
    decreases targets.len(),
{
    if targets.len() == 0 {
        seq![]
    } else {
        leaves_reports(targets.drop_last(), leaves, kind) + leaf_reports(
            targets.last(),
            leaves[targets.len() - 1],
            kind,
        )
    }
}

/// Every leaf has an arm.
pub open spec fn all_have_arms(targets: Seq<Target>) -> bool {
    forall|i: int| 0 <= i < targets.len() ==> (#[trigger] targets[i]) is Arm
}

/// The leaves in terms of their arms.
pub open spec fn leaf_builders(targets: Seq<Target>, leaves: Seq<Option<LoweredLeaf>>) -> Seq<
    MatchLeafBuilder,
> {
    Seq::new(targets.len(), |i: int| leaves[i]->0.builder(targets[i]->Arm_0))
}

/// The blocks of the leaves.
pub open spec fn leaf_blocks(leaves: Seq<Option<LoweredLeaf>>) -> Seq<BlockId> {
    leaves.map_values(|leaf: Option<LoweredLeaf>| leaf->0.block)
}

/// The variables that the match brings to the leaves.
pub open spec fn leaf_vars(leaves: Seq<Option<LoweredLeaf>>) -> Seq<Vec<VariableId>> {
    leaves.map_values(|leaf: Option<LoweredLeaf>| leaf->0.var_ids)
}

/// There is a lowered leaf for each leaf with an arm.
pub open spec fn leaves_fit(targets: Seq<Target>, leaves: Seq<Option<LoweredLeaf>>) -> bool {
    &&& leaves.len() == targets.len()
    &&& forall|i: int| 0 <= i < targets.len() && (#[trigger] targets[i]) is Arm ==> leaves[i] is Some
}

/// A lowered match, and how its arms end.
#[derive(PartialEq, Eq, Debug)]
pub struct ConcludedMatch {
    pub info: MatchInfo,
    /// The match that joined blocks are merged with.
    pub empty_match_info: MatchInfo,
    pub groups: Vec<ArmGroup>,
}

/// Leaves in terms of their arms, their blocks, and the variables that the match brings there.
pub(crate) struct BuiltLeaves {
    pub builders: Vec<MatchLeafBuilder>,
    pub block_ids: Vec<BlockId>,
    pub arm_var_ids: Vec<Vec<VariableId>>,
}

/// Takes up a leaf of a match: what was reported while it was lowered, and that it has no arm.
pub(crate) fn take_up_leaf(
    ctx: &mut LoweringContext,
    target: LeafTarget,
    leaf: Option<LoweredLeaf>,
    builders: &mut Vec<MatchLeafBuilder>,
    kind: MatchKind,
) -> (r: LoweringResult<()>)
    requires
        target is Arm ==> leaf is Some,
    ensures
        old(ctx).reports(final(ctx), leaf_reports(target@, leaf, kind)),
        match target@ {
            LeafTarget::Arm(arm_index) => {
                &&& r == Ok::<(), LoweringFlowError>(())
                &&& final(builders)@ == old(builders)@.push(leaf->0.builder(arm_index))
            },
            LeafTarget::Error(_, _) => {
                &&& r == failed::<()>()
                &&& final(builders)@ == old(builders)@
            },
        },
{
    let mut built: Option<(LoweringResult<()>, BlockId)> = None;
    if let Some(leaf) = leaf {
        built = Some((leaf.lowering_result, leaf.block));
        ctx.add_diagnostics(leaf.diagnostics);
    }
    match (target, built) {
        (LeafTarget::Arm(arm_index), Some((lowering_result, builder))) => {
            builders.push(MatchLeafBuilder { arm_index, lowering_result, builder });
            Ok(())
        },
        (LeafTarget::Arm(_), None) => Ok(()),
        (LeafTarget::Error(location, diagnostic), _) => Err(
            LoweringFlowError::Failed(
                ctx.report_match_error_by_location(location, kind, diagnostic),
            ),
        ),
    }
}

/// Takes up the leaves of a match, one after the other: what was reported while a leaf was lowered,
/// and that it has no arm. Fails where a leaf has no arm, after all were taken up.
pub(crate) fn take_up_leaves(
    ctx: &mut LoweringContext,
    targets: Vec<LeafTarget>,
    leaves: Vec<Option<LoweredLeaf>>,
    kind: MatchKind,
) -> (r: LoweringResult<BuiltLeaves>)
    requires
        leaves_fit(targets_of(targets@), leaves@),
    ensures
        old(ctx).reports(final(ctx), leaves_reports(targets_of(targets@), leaves@, kind)),
        if all_have_arms(targets_of(targets@)) {
            &&& r matches Ok(built)
            &&& built.builders@ == leaf_builders(targets_of(targets@), leaves@)
            &&& built.block_ids@ == leaf_blocks(leaves@)
            &&& built.arm_var_ids@ == leaf_vars(leaves@)
        } else {
            r is Err && r->Err_0 == failed::<()>()->Err_0
        },
{
    let ghost views = targets_of(targets@);
    let ghost n = targets@.len();
    assert(views.len() == n);
    let zipped = zip_eq(targets, leaves);
    let mut builders: Vec<MatchLeafBuilder> = Vec::new();
    let mut block_ids: Vec<BlockId> = Vec::new();
    let mut arm_var_ids: Vec<Vec<VariableId>> = Vec::new();
    let mut error: Option<LoweringFlowError> = None;
    assert(views.take(0) =~= seq![]);
    for item in iter: zipped
        invariant
            views == targets_of(targets@),
            n == targets@.len(),
            leaves_fit(views, leaves@),
            iter.seq() == Seq::new(n, |i: int| (targets@[i], leaves@[i])),
            old(ctx).reports(
                ctx,
                leaves_reports(views.take(iter.index() as int), leaves@, kind),
            ),
            error is None <==> all_have_arms(views.take(iter.index() as int)),
            error matches Some(error) ==> error == failed::<()>()->Err_0,
            error is None ==> {
                &&& builders@ == leaf_builders(views.take(iter.index() as int), leaves@)
                &&& block_ids@ == leaf_blocks(leaves@.take(iter.index() as int))
                &&& arm_var_ids@ == leaf_vars(leaves@.take(iter.index() as int))
            },
    {
        let ghost i = iter.index() as int;
        let ghost before = *ctx;
        let (target, leaf) = item;
        proof {
            assert(target == targets@[i]);
            assert(views[i] == target@);
            assert(views.take(i + 1).drop_last() =~= views.take(i));
            assert(views.take(i + 1).last() == views[i]);
            assert(leaves@.take(i + 1) =~= leaves@.take(i).push(leaves@[i]));
        }
        let ghost lowered = leaf;
        match (target, leaf) {
            (LeafTarget::Arm(arm_index), Some(leaf)) => {
                ctx.add_diagnostics(leaf.diagnostics);
                builders.push(
                    MatchLeafBuilder {
                        arm_index,
                        lowering_result: leaf.lowering_result,
                        builder: leaf.block,
                    },
                );
                block_ids.push(leaf.block);
                arm_var_ids.push(leaf.var_ids);
                proof {
                    assert(all_have_arms(views.take(i)) ==> all_have_arms(views.take(i + 1))) by {
                        assert forall|k: int| 0 <= k < i + 1 && all_have_arms(views.take(i)) implies (
                        #[trigger] views.take(i + 1)[k]) is Arm by {
                            if k < i {
                                assert(views.take(i)[k] is Arm);
                            }
                        }
                    }
                }
            },
            (LeafTarget::Error(location, diagnostic), leaf) => {
                if let Some(leaf) = leaf {
                    ctx.add_diagnostics(leaf.diagnostics);
                }
                let reported = ctx.report_match_error_by_location(location, kind, diagnostic);
                error = Some(LoweringFlowError::Failed(reported));
                assert(!(views.take(i + 1)[i] is Arm));
            },
            (LeafTarget::Arm(_), None) => {
                assert(views[i] is Arm);
            },
        }
        proof {
            assert(before.reports(ctx, leaf_reports(views[i], lowered, kind)));
            if all_have_arms(views.take(i + 1)) {
                assert forall|k: int| 0 <= k < i implies (#[trigger] views.take(i)[k]) is Arm by {
                    assert(views.take(i + 1)[k] is Arm);
                }
                assert(leaf_builders(views.take(i + 1), leaves@) =~= leaf_builders(
                    views.take(i),
                    leaves@,
                ).push(leaves@[i]->0.builder(views[i]->Arm_0)));
            }
        }
    }
    proof {
        assert(views.take(n as int) =~= views);
        assert(leaves@.take(n as int) =~= leaves@);
    }
    match error {
        None => Ok(BuiltLeaves { builders, block_ids, arm_var_ids }),
        Some(error) => Err(error),
    }
}

/// The body that ends an arm, where control reaches it.
pub open spec fn body_of(end: ArmEnd) -> Option<ArmBody> {
    match end {
        ArmEnd::Single { end: Ok(body), .. } => Some(body),
        ArmEnd::Single { end: Err(_), .. } => None,
        ArmEnd::Joined { body, .. } => Some(body),
    }
}

/// An arm ends with its expression, whatever the number of its patterns and leaves: with the value of
/// the expression in a match and in an if-let, and with the expression as a body followed by the call
/// of the loop in a while-let. It ends with the unit value exactly where it has no expression.
pub proof fn law_arms_end_with_their_expressions(
    groups: Seq<ArmGroup>,
    m: &SemanticModel,
    empty_match_info: &MatchInfo,
    location: LocationId,
    arms: Seq<MatchArmWrapper>,
    kind: MatchKind,
    leaves: Seq<MatchLeafBuilder>,
)
    requires
        are_groups(groups, m, empty_match_info, location, arms, kind, leaves),
    ensures
        forall|g: int|
            0 <= g < groups.len() ==> match body_of((#[trigger] groups[g]).end) {
                None => true,
                Some(body) => match arms[groups[g].arm_index as int].expr {
                    None => body == ArmBody::Unit(location),
                    Some(expr) => match kind {
                        MatchKind::Match | MatchKind::IfLet => body == ArmBody::TailExpr(expr),
                        MatchKind::WhileLet(loop_expr_id, stable_ptr) => body == (
                        ArmBody::LoopBody { block: expr, loop_expr_id, stable_ptr }),
                    },
                },
            },
{
    let arm_indices = arms_with_leaves(leaves, arms.len());
    assert forall|g: int| 0 <= g < groups.len() implies match body_of((#[trigger] groups[g]).end) {
        None => true,
        Some(body) => match arms[groups[g].arm_index as int].expr {
            None => body == ArmBody::Unit(location),
            Some(expr) => match kind {
                MatchKind::Match | MatchKind::IfLet => body == ArmBody::TailExpr(expr),
                MatchKind::WhileLet(loop_expr_id, stable_ptr) => body == (ArmBody::LoopBody {
                    block: expr,
                    loop_expr_id,
                    stable_ptr,
                }),
            },
        },
    } by {
        assert(groups[g].groups(
            m,
            empty_match_info,
            location,
            arms,
            kind,
            arm_indices[g],
            leaves_of_arm(leaves, arm_indices[g]),
        ));
    }
}

/// The error of a result.
pub open spec fn error_of<T>(result: LoweringResult<T>) -> Option<LoweringFlowError> {
    match result {
        Ok(_) => None,
        Err(error) => Some(error),
    }
}

/// Where the block of a leaf goes: to the end of the arm, or, where the patterns of the leaf end the
/// flow, nowhere.
pub open spec fn goes_on(result: LoweringResult<()>, end: Option<LoweringFlowError>) -> bool {
    match result {
        Ok(()) => end is None,
        Err(error) => end == Some(error),
    }
}

/// Every leaf ends in the group of its arm: alone where it is the only leaf of the arm, and else as a
/// block of the joined leaves, which come in the order of the leaves. Where the patterns of a leaf end
/// the flow, so does its block. Groups come in the order of the arms, one for each arm with a leaf.
pub proof fn law_every_leaf_ends_in_the_group_of_its_arm(
    groups: Seq<ArmGroup>,
    m: &SemanticModel,
    empty_match_info: &MatchInfo,
    location: LocationId,
    arms: Seq<MatchArmWrapper>,
    kind: MatchKind,
    leaves: Seq<MatchLeafBuilder>,
)
    requires
        arms.len() <= usize::MAX,
        forall|i: int| 0 <= i < leaves.len() ==> (#[trigger] leaves[i]).arm_index < arms.len(),
        are_groups(groups, m, empty_match_info, location, arms, kind, leaves),
    ensures
        forall|g: int, h: int|
            0 <= g < h < groups.len() ==> (#[trigger] groups[g]).arm_index < (
            #[trigger] groups[h]).arm_index,
        forall|i: int|
            0 <= i < leaves.len() ==> exists|g: int|
                0 <= g < groups.len() && (#[trigger] groups[g]).arm_index == (
                #[trigger] leaves[i]).arm_index,
        forall|g: int|
            0 <= g < groups.len() ==> {
                let group = #[trigger] groups[g];
                let patterns = arms[group.arm_index as int].patterns@;
                let own = leaves.filter(
                    |leaf: MatchLeafBuilder| leaf.arm_index == group.arm_index,
                );
                &&& group.arm_index < arms.len()
                &&& own.len() > 0
                &&& match group.end {
                    ArmEnd::Single { block, end } => {
                        &&& own.len() == 1
                        &&& block == own[0].builder
                        &&& goes_on(own[0].lowering_result, error_of(end))
                    },
                    ArmEnd::Joined { subscopes, info, location: at, .. } => {
                        &&& own.len() > 1
                        &&& subscopes@.len() == own.len()
                        &&& forall|k: int|
                            0 <= k < own.len() ==> {
                                &&& (#[trigger] subscopes@[k]).0 == own[k].builder
                                &&& goes_on(own[k].lowering_result, error_of(subscopes@[k].1))
                                &&& subscopes@[k].1 matches Ok(at) ==> if patterns.len() == 0 {
                                    at == location
                                } else {
                                    at.0.0 == m.pattern_ptr(patterns[0])
                                }
                            }
                        &&& at == location
                        &&& info.is_without_arms(empty_match_info)
                    },
                }
            },
{
    let arm_indices = arms_with_leaves(leaves, arms.len());
    law_groups_part_the_leaves(leaves, arms.len());
    lemma_arms_ascend(leaves, arms.len());
    assert forall|g: int| 0 <= g < groups.len() implies (#[trigger] groups[g]).arm_index
        == arm_indices[g] && groups[g].groups(
        m,
        empty_match_info,
        location,
        arms,
        kind,
        arm_indices[g],
        leaves_of_arm(leaves, arm_indices[g]),
    ) by {}
    assert forall|i: int| 0 <= i < leaves.len() implies exists|g: int|
        0 <= g < groups.len() && (#[trigger] groups[g]).arm_index == (
        #[trigger] leaves[i]).arm_index by {
        let a = leaves[i].arm_index;
        assert(arm_indices.contains(a));
        let g = arm_indices.index_of(a);
        assert(groups[g].arm_index == a);
    }
    assert forall|g: int| 0 <= g < groups.len() implies leaves_of_arm(
        leaves,
        (#[trigger] groups[g]).arm_index,
    ).len() > 0 by {
        assert(arm_indices.contains(arm_indices[g]));
    }
}

/// The diagnostics of a match come leaf by leaf: those that were reported while a leaf was lowered, in
/// their order, then the report that the leaf has no arm, where it has none. A leaf with an arm adds
/// nothing of its own.
pub proof fn law_leaves_report_in_turn(
    targets: Seq<Target>,
    leaves: Seq<Option<LoweredLeaf>>,
    kind: MatchKind,
)
    ensures
        targets.len() == 0 ==> leaves_reports(targets, leaves, kind).len() == 0,
        targets.len() > 0 ==> {
            let n = targets.len() - 1;
            let before = leaves_reports(targets.take(n), leaves, kind);
            let after = leaves_reports(targets, leaves, kind);
            let n_inner = match leaves[n] {
                Some(leaf) => leaf.diagnostics@.len(),
                None => 0,
            };
            &&& before.len() + n_inner <= after.len()
            &&& after.take(before.len() as int) == before
            &&& leaves[n] matches Some(leaf) ==> forall|k: int|
                0 <= k < leaf.diagnostics@.len() ==> #[trigger] after[before.len() + k]
                    == leaf.diagnostics@[k]@
            &&& match targets[n] {
                LeafTarget::Arm(_) => after.len() == before.len() + n_inner,
                LeafTarget::Error(location, error) => {
                    &&& after.len() == before.len() + n_inner + 1
                    &&& after.last().location == location
                    &&& after.last().kind matches LoweringDiagnosticKind::MatchError(reported)
                    &&& reported.kind == kind
                    &&& reported.error == error
                },
            }
        },
{
    if targets.len() > 0 {
        assert(targets.drop_last() =~= targets.take(targets.len() - 1));
        assert(leaves_reports(targets, leaves, kind).take(
            leaves_reports(targets.drop_last(), leaves, kind).len() as int,
        ) =~= leaves_reports(targets.drop_last(), leaves, kind));
    }
}

/// A leaf keeps what came of its patterns, its block and its variables, and is one of the arm that it
/// leads to.
pub proof fn law_leaves_keep_their_blocks(
    targets: Seq<Target>,
    leaves: Seq<Option<LoweredLeaf>>,
    i: int,
)
    requires
        leaves_fit(targets, leaves),
        0 <= i < targets.len(),
        targets[i] is Arm,
    ensures
        leaves[i] is Some,
        leaf_builders(targets, leaves).len() == targets.len(),
        LeafTarget::Arm::<Seq<char>>(leaf_builders(targets, leaves)[i].arm_index) == targets[i],
        leaf_builders(targets, leaves)[i].lowering_result == leaves[i]->0.lowering_result,
        leaf_builders(targets, leaves)[i].builder == leaves[i]->0.block,
        leaf_blocks(leaves).len() == leaves.len(),
        leaf_blocks(leaves)[i] == leaves[i]->0.block,
        leaf_vars(leaves).len() == leaves.len(),
        leaf_vars(leaves)[i] == leaves[i]->0.var_ids,
{
}

/// A match has all its arms exactly where no leaf is reported.
pub proof fn law_a_match_has_all_arms_where_no_leaf_is_reported(targets: Seq<Target>)
    ensures
        all_have_arms(targets) <==> !(exists|i: int|
            0 <= i < targets.len() && (#[trigger] targets[i]) is Error),
{
    if !all_have_arms(targets) {
        let i = choose|i: int| 0 <= i < targets.len() && !((#[trigger] targets[i]) is Arm);
        assert(targets[i] is Error);
    }
}

/// Leaves are accepted where each leaf with an arm was lowered.
pub proof fn law_lowered_leaves_are_accepted(
    targets: Seq<Target>,
    leaves: Seq<Option<LoweredLeaf>>,
)
    requires
        leaves.len() == targets.len(),
        forall|i: int| 0 <= i < leaves.len() ==> (#[trigger] leaves[i] is Some || targets[i] is Error),
    ensures
        leaves_fit(targets, leaves),
{
    assert forall|i: int|
        0 <= i < targets.len() && (#[trigger] targets[i]) is Arm implies leaves[i] is Some by {
        assert(leaves[i] is Some || targets[i] is Error);
    }
}

} // verus!

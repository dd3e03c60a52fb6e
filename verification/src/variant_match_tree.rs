//! Which variants of an enum, and of the enums inside it, the patterns of a match cover.
use vstd::prelude::*;

use crate::context::LoweringContext;
use crate::diagnostic::{
    DiagnosticAdded, LoweringDiagnosticKind, MatchDiagnostic, MatchError, MatchKind,
};
use crate::match_arms::PatternPath;
use crate::semantic::{ConcreteEnumId, ConcreteVariant, Maybe, PatternId, SemanticModel};

verus! {

/// A sparse tree that records which enum-variants are *already* covered by user code during
/// `match` lowering.
///
/// Each node captures the coverage state for a single enum type or enum variant.
#[derive(Debug)]
pub enum VariantMatchTree {
    /// The current variant is itself an enum; a `Vec` entry is kept for every child variant match
    /// tree.
    Mapping(Vec<VariantMatchTree>),
    /// A pattern fully covers this enum type/variant. Additional patterns reaching here are
    /// unreachable (even if current variant is itself an enum, subtrees are irrelevant).
    Full(PatternId, PatternPath),
    /// No pattern has covered this enum type/variant.
    Empty,
}

/// A [VariantMatchTree], its lists taken as sequences.
#[verifier::ext_equal]
pub enum Coverage {
    Mapping(Seq<Coverage>),
    Full(PatternId, PatternPath),
    Empty,
}

/// The elements of `seen`, then those of `added` that are not there yet, each once.
pub open spec fn with_each_once(seen: Seq<PatternId>, added: Seq<PatternId>) -> Seq<PatternId>
    decreases added.len(),
{
    if added.len() == 0 {
        seen
    } else {
        let before = with_each_once(seen, added.drop_last());
        if before.contains(added.last()) {
            before
        } else {
            before.push(added.last())
        }
    }
}

impl Coverage {
    /// Whether some part of the tree is not covered.
    pub open spec fn has_room(self) -> bool
        decreases self,
    {
        match self {
            Coverage::Empty => true,
            Coverage::Full(_, _) => false,
            Coverage::Mapping(items) => exists|i: int|
                0 <= i < items.len() && (#[trigger] items[i]).has_room(),
        }
    }

    /// The tree with all that was not covered covered by a pattern.
    pub open spec fn filled(self, pattern: PatternId, path: PatternPath) -> Coverage
        decreases self,
    {
        match self {
            Coverage::Empty => Coverage::Full(pattern, path),
            Coverage::Full(_, _) => self,
            Coverage::Mapping(items) => Coverage::Mapping(
                Seq::new(
                    items.len(),
                    |i: int|
                        if 0 <= i < items.len() {
                            items[i].filled(pattern, path)
                        } else {
                            Coverage::Empty
                        },
                ),
            ),
        }
    }

    /// The patterns that cover the tree, from left to right.
    pub open spec fn leaves(self) -> Seq<PatternId>
        decreases self, 0nat,
    {
        match self {
            Coverage::Empty => seq![],
            Coverage::Full(pattern, _) => seq![pattern],
            Coverage::Mapping(items) => Self::leaves_of(items, items.len()),
        }
    }

    /// The patterns that cover the first `n` of `items`, from left to right.
    pub open spec fn leaves_of(items: Seq<Coverage>, n: nat) -> Seq<PatternId>
        decreases items, n,
    {
        if 0 < n <= items.len() {
            Self::leaves_of(items, (n - 1) as nat) + items[n - 1].leaves()
        } else {
            seq![]
        }
    }

    /// The tree with a node for each of `count` variants below it, where it was empty.
    pub open spec fn expanded(self, count: nat) -> Coverage {
        match self {
            Coverage::Empty => Coverage::Mapping(Seq::new(count, |i: int| Coverage::Empty)),
            _ => self,
        }
    }

    /// The pattern that covers the value whose variants, from the outside in, are `variants`.
    pub open spec fn covering(self, variants: Seq<int>) -> Option<(PatternId, PatternPath)>
        decreases self,
    {
        match self {
            Coverage::Empty => None,
            Coverage::Full(pattern, path) => Some((pattern, path)),
            Coverage::Mapping(items) => if variants.len() > 0 && 0 <= variants[0] < items.len() {
                items[variants[0]].covering(variants.drop_first())
            } else {
                None
            },
        }
    }

    /// Whether `variants` leads to a node without nodes below it.
    pub open spec fn reaches_leaf(self, variants: Seq<int>) -> bool
        decreases self,
    {
        match self {
            Coverage::Mapping(items) => {
                &&& variants.len() > 0
                &&& 0 <= variants[0] < items.len()
                &&& items[variants[0]].reaches_leaf(variants.drop_first())
            },
            _ => true,
        }
    }

    /// Whether the nodes of the tree are those of the enum `e` and of the enums inside it.
    pub open spec fn fits(self, m: &SemanticModel, e: ConcreteEnumId) -> bool
        decreases self,
    {
        match self {
            Coverage::Mapping(items) => {
                &&& m.db.has_enum(e)
                &&& m.db.variants(e) matches Ok(variants)
                &&& items.len() == variants.len()
                &&& forall|i: int|
                    0 <= i < items.len() && (#[trigger] items[i]) is Mapping ==> {
                        &&& m.db.peeled_enum(variants[i].ty) is Some
                        &&& items[i].fits(m, m.db.peeled_enum(variants[i].ty)->0)
                    }
            },
            _ => true,
        }
    }

    /// Whether all patterns that cover the tree, and their paths, satisfy `f`.
    pub open spec fn leaves_satisfy(self, f: spec_fn(PatternId, PatternPath) -> bool) -> bool
        decreases self,
    {
        match self {
            Coverage::Empty => true,
            Coverage::Full(pattern, path) => f(pattern, path),
            Coverage::Mapping(items) => forall|i: int|
                0 <= i < items.len() ==> (#[trigger] items[i]).leaves_satisfy(f),
        }
    }

    /// Filling a tree changes no node that has nodes below it.
    pub proof fn lemma_filled_fits(
        self,
        m: &SemanticModel,
        e: ConcreteEnumId,
        pattern: PatternId,
        path: PatternPath,
    )
        requires
            self.fits(m, e),
        ensures
            self.filled(pattern, path).fits(m, e),
        decreases self,
    {
        if let Coverage::Mapping(items) = self {
            let filled = self.filled(pattern, path)->Mapping_0;
            let variants = m.db.variants(e)->Ok_0;
            assert forall|i: int| 0 <= i < filled.len() && (#[trigger] filled[i]) is Mapping implies {
                &&& m.db.peeled_enum(variants[i].ty) is Some
                &&& filled[i].fits(m, m.db.peeled_enum(variants[i].ty)->0)
            } by {
                assert(filled[i] == items[i].filled(pattern, path));
                items[i].lemma_filled_fits(
                    m,
                    m.db.peeled_enum(variants[i].ty)->0,
                    pattern,
                    path,
                );
            }
        }
    }

    /// Filling a tree adds one pattern to it.
    pub proof fn lemma_filled_leaves(
        self,
        f: spec_fn(PatternId, PatternPath) -> bool,
        pattern: PatternId,
        path: PatternPath,
    )
        requires
            self.leaves_satisfy(f),
            f(pattern, path),
        ensures
            self.filled(pattern, path).leaves_satisfy(f),
        decreases self,
    {
        if let Coverage::Mapping(items) = self {
            let filled = self.filled(pattern, path)->Mapping_0;
            assert forall|i: int| 0 <= i < filled.len() implies (#[trigger] filled[i]).leaves_satisfy(
                f,
            ) by {
                assert(items[i].leaves_satisfy(f));
                items[i].lemma_filled_leaves(f, pattern, path);
            }
        }
    }
}

impl Coverage {
    /// Filling a tree with room covers a value: the one whose variants are returned.
    pub proof fn lemma_filled_covers(self, pattern: PatternId, path: PatternPath) -> (variants: Seq<
        int,
    >)
        requires
            self.has_room(),
        ensures
            self.filled(pattern, path).covering(variants) is Some,
        decreases self,
    {
        match self {
            Coverage::Mapping(items) => {
                let i = choose|i: int| 0 <= i < items.len() && (#[trigger] items[i]).has_room();
                let below = items[i].lemma_filled_covers(pattern, path);
                let variants = seq![i] + below;
                assert(variants.drop_first() =~= below);
                assert(self.filled(pattern, path)->Mapping_0[i] == items[i].filled(pattern, path));
                variants
            },
            _ => seq![],
        }
    }

    /// A tree that covers a value is covered by a pattern.
    pub proof fn lemma_covered_has_leaves(self, variants: Seq<int>)
        requires
            self.covering(variants) is Some,
        ensures
            self.leaves().len() > 0,
        decreases self,
    {
        if let Coverage::Mapping(items) = self {
            items[variants[0]].lemma_covered_has_leaves(variants.drop_first());
            Self::lemma_leaves_of_item(items, items.len(), variants[0]);
        }
    }

    proof fn lemma_leaves_of_item(items: Seq<Coverage>, n: nat, i: int)
        requires
            0 <= i < n <= items.len(),
            items[i].leaves().len() > 0,
        ensures
            Self::leaves_of(items, n).len() > 0,
        decreases n,
    {
        if i < n - 1 {
            Self::lemma_leaves_of_item(items, (n - 1) as nat, i);
        }
    }

    /// Every pattern that covers the tree satisfies what all of them satisfy.
    pub proof fn lemma_leaves_satisfy(
        self,
        f: spec_fn(PatternId, PatternPath) -> bool,
        g: spec_fn(PatternId) -> bool,
    )
        requires
            self.leaves_satisfy(f),
            forall|pattern: PatternId, path: PatternPath| #[trigger] f(pattern, path) ==> g(pattern),
        ensures
            forall|k: int| 0 <= k < self.leaves().len() ==> g(#[trigger] self.leaves()[k]),
        decreases self, 0nat,
    {
        match self {
            Coverage::Mapping(items) => {
                Self::lemma_leaves_of_satisfy(items, items.len(), f, g);
                assert(self.leaves() == Self::leaves_of(items, items.len()));
            },
            Coverage::Full(pattern, path) => {
                assert(f(pattern, path));
                assert(self.leaves() == seq![pattern]);
            },
            Coverage::Empty => {},
        }
    }

    proof fn lemma_leaves_of_satisfy(
        items: Seq<Coverage>,
        n: nat,
        f: spec_fn(PatternId, PatternPath) -> bool,
        g: spec_fn(PatternId) -> bool,
    )
        requires
            n <= items.len(),
            forall|i: int| 0 <= i < items.len() ==> (#[trigger] items[i]).leaves_satisfy(f),
            forall|pattern: PatternId, path: PatternPath| #[trigger] f(pattern, path) ==> g(pattern),
        ensures
            forall|k: int|
                0 <= k < Self::leaves_of(items, n).len() ==> g(
                    #[trigger] Self::leaves_of(items, n)[k],
                ),
        decreases items, n,
    {
        if n > 0 {
            Self::lemma_leaves_of_satisfy(items, (n - 1) as nat, f, g);
            items[n - 1].lemma_leaves_satisfy(f, g);
            let before = Self::leaves_of(items, (n - 1) as nat);
            let added = items[n - 1].leaves();
            assert(Self::leaves_of(items, n) == before + added);
            assert forall|k: int| 0 <= k < Self::leaves_of(items, n).len() implies g(
                #[trigger] Self::leaves_of(items, n)[k],
            ) by {
                if k >= before.len() {
                    assert((before + added)[k] == added[k - before.len()]);
                }
            }
        }
    }
}

impl VariantMatchTree {
    /// The tree, its lists taken as sequences.
    pub open spec fn view(&self) -> Coverage
        decreases self,
    {
        match self {
            VariantMatchTree::Empty => Coverage::Empty,
            VariantMatchTree::Full(pattern, path) => Coverage::Full(*pattern, *path),
            VariantMatchTree::Mapping(items) => Coverage::Mapping(
                Seq::new(
                    items@.len(),
                    |i: int|
                        if 0 <= i < items@.len() {
                            items@[i].view()
                        } else {
                            Coverage::Empty
                        },
                ),
            ),
        }
    }

    /// Pushes a pattern to the enum paths. Fails if the pattern is unreachable.
    pub fn push_pattern_path(&mut self, ptrn_id: PatternId, pattern_path: PatternPath) -> (r: Result<
        (),
        LoweringDiagnosticKind,
    >)
        ensures
            final(self)@ == old(self)@.filled(ptrn_id, pattern_path),
            match r {
                Ok(()) => old(self)@.has_room(),
                Err(kind) => {
                    &&& !old(self)@.has_room()
                    &&& kind == LoweringDiagnosticKind::<String>::MatchError(
                        MatchError {
                            kind: MatchKind::Match,
                            error: MatchDiagnostic::UnreachableMatchArm,
                        },
                    )
                },
            },
        decreases *old(self),
    {
        match self {
            VariantMatchTree::Empty => {
                *self = VariantMatchTree::Full(ptrn_id, pattern_path);
                Ok(())
            },
            VariantMatchTree::Full(_, _) => Err(
                LoweringDiagnosticKind::MatchError(
                    MatchError {
                        kind: MatchKind::Match,
                        error: MatchDiagnostic::UnreachableMatchArm,
                    },
                ),
            ),
            VariantMatchTree::Mapping(mapping) => {
                // Need at least one empty path, but should write to all (pattern covers multiple
                // paths).
                let mut any_ok = false;
                let ghost before = *mapping;
                let mut i: usize = 0;
                while i < mapping.len()
                    invariant
                        mapping@.len() == before@.len(),
                        i <= mapping@.len(),
                        *old(self) == VariantMatchTree::Mapping(before),
                        any_ok == exists|k: int| 0 <= k < i && (#[trigger] before@[k])@.has_room(),
                        forall|k: int|
                            0 <= k < i ==> (#[trigger] mapping@[k])@ == before@[k]@.filled(
                                ptrn_id,
                                pattern_path,
                            ),
                        forall|k: int|
                            i <= k < mapping@.len() ==> #[trigger] mapping@[k] == before@[k],
                    decreases mapping@.len() - i,
                {
                    assert(decreases_to!(*old(self) => (*old(self))->Mapping_0));
                    assert(decreases_to!(before => before[i as int]));
                    if mapping[i].push_pattern_path(ptrn_id, pattern_path).is_ok() {
                        any_ok = true;
                        assert(before@[i as int]@.has_room());
                    }
                    i = i + 1;
                }
                proof {
                    let items = old(self)@->Mapping_0;
                    assert(forall|k: int|
                        0 <= k < items.len() ==> #[trigger] items[k] == before@[k]@);
                    if any_ok {
                        let k = choose|k: int| 0 <= k < i && (#[trigger] before@[k])@.has_room();
                        assert(items[k].has_room());
                    }
                    assert(self@->Mapping_0 =~= old(self)@.filled(
                        ptrn_id,
                        pattern_path,
                    )->Mapping_0);
                }
                if any_ok {
                    Ok(())
                } else {
                    Err(
                        LoweringDiagnosticKind::MatchError(
                            MatchError {
                                kind: MatchKind::Match,
                                error: MatchDiagnostic::UnreachableMatchArm,
                            },
                        ),
                    )
                }
            },
        }
    }

    /// Utility to collect every [`PatternId`] found in `Full` leaves into `leaves`, each of them
    /// once, in the order in which they are found.
    pub fn collect_leaves(&self, leaves: &mut Vec<PatternId>)
        ensures
            final(leaves)@ == with_each_once(old(leaves)@, self@.leaves()),
        decreases self,
    {
        match self {
            VariantMatchTree::Empty => {},
            VariantMatchTree::Full(ptrn_id, _) => {
                let mut known = false;
                for i in 0..leaves.len()
                    invariant
                        known == exists|k: int| 0 <= k < i && leaves@[k] == *ptrn_id,
                {
                    if leaves[i] == *ptrn_id {
                        known = true;
                    }
                }
                proof {
                    reveal_with_fuel(with_each_once, 2);
                    assert(seq![*ptrn_id].drop_last() =~= seq![]);
                    if known {
                        let k = choose|k: int| 0 <= k < leaves@.len() && leaves@[k] == *ptrn_id;
                        assert(leaves@.contains(leaves@[k]));
                    }
                }
                if !known {
                    leaves.push(*ptrn_id);
                }
            },
            VariantMatchTree::Mapping(mapping) => {
                let ghost items = self@->Mapping_0;
                let mut i: usize = 0;
                while i < mapping.len()
                    invariant
                        *self == VariantMatchTree::Mapping(*mapping),
                        items == self@->Mapping_0,
                        i <= mapping@.len(),
                        items.len() == mapping@.len(),
                        leaves@ == with_each_once(
                            old(leaves)@,
                            Coverage::leaves_of(items, i as nat),
                        ),
                    decreases mapping@.len() - i,
                {
                    assert(decreases_to!(*self => (*self)->Mapping_0));
                    assert(decreases_to!(*mapping => mapping[i as int]));
                    mapping[i].collect_leaves(leaves);
                    proof {
                        lemma_with_each_once_twice(
                            old(leaves)@,
                            Coverage::leaves_of(items, i as nat),
                            items[i as int].leaves(),
                        );
                    }
                    i = i + 1;
                }
            },
        }
    }

    /// Fails on missing enum in db.
    /// Returns None if path is full otherwise reference the [VariantMatchTree] of appropriate
    /// variant.
    pub fn get_mapping_or_insert<'a>(
        &'a mut self,
        ctx: &LoweringContext,
        concrete_variant: ConcreteVariant,
    ) -> (r: Maybe<Option<&'a mut Self>>)
        requires
            ctx.semantic.db.has_enum(concrete_variant.concrete_enum_id),
            ctx.semantic.db.variants(concrete_variant.concrete_enum_id) matches Ok(variants)
                ==> concrete_variant.idx < variants.len(),
            old(self)@ matches Coverage::Mapping(items) ==> concrete_variant.idx < items.len(),
        ensures
            match r {
                Ok(Some(variant_tree)) => {
                    let items = old(self)@.expanded(
                        ctx.semantic.db.variant_count(concrete_variant.concrete_enum_id),
                    )->Mapping_0;
                    &&& !(old(self)@ is Full)
                    &&& old(self)@ is Empty ==> ctx.semantic.db.variants(
                        concrete_variant.concrete_enum_id,
                    ) is Ok
                    &&& variant_tree@ == items[concrete_variant.idx as int]
                    &&& final(self)@ is Mapping
                    &&& final(self)@->Mapping_0 == items.update(
                        concrete_variant.idx as int,
                        final(variant_tree)@,
                    )
                },
                Ok(None) => old(self)@ is Full && final(self)@ == old(self)@,
                Err(reported) => {
                    &&& old(self)@ is Empty
                    &&& ctx.semantic.db.variants(concrete_variant.concrete_enum_id) == Err::<
                        Seq<ConcreteVariant>,
                        DiagnosticAdded,
                    >(reported)
                    &&& final(self)@ == old(self)@
                },
            },
    {
        if let VariantMatchTree::Empty = self {
            let variant_count = match ctx.semantic.db.concrete_enum_variants(
                concrete_variant.concrete_enum_id,
            ) {
                Ok(variants) => variants.len(),
                Err(reported) => {
                    return Err(reported);
                },
            };
            let mut items: Vec<VariantMatchTree> = Vec::new();
            for i in 0..variant_count
                invariant
                    items@.len() == i,
                    forall|k: int| 0 <= k < i ==> #[trigger] items@[k] == VariantMatchTree::Empty,
            {
                items.push(VariantMatchTree::Empty);
            }
            *self = VariantMatchTree::Mapping(items);
            assert(self@->Mapping_0 =~= Seq::new(
                variant_count as nat,
                |i: int| Coverage::Empty,
            ));
        }
        let ghost middle = self@;
        match self {
            VariantMatchTree::Mapping(items) => {
                let ghost before = items@;
                assert(middle->Mapping_0.len() == before.len());
                assert(forall|k: int|
                    0 <= k < before.len() ==> middle->Mapping_0[k] == (#[trigger] before[k])@);
                let item = &mut items[concrete_variant.idx];
                Ok(Some(item))
            },
            _ => Ok(None),
        }
    }
}

impl Coverage {
    /// A pattern that is pushed covers every value that no pattern covered before, and no other
    /// value.
    pub proof fn law_push_covers_what_was_open(
        self,
        pattern: PatternId,
        path: PatternPath,
        variants: Seq<int>,
    )
        requires
            self.reaches_leaf(variants),
        ensures
            self.filled(pattern, path).covering(variants) == (if self.covering(variants) is Some {
                self.covering(variants)
            } else {
                Some((pattern, path))
            }),
        decreases self,
    {
        if let Coverage::Mapping(items) = self {
            items[variants[0]].law_push_covers_what_was_open(pattern, path, variants.drop_first());
            assert(self.filled(pattern, path)->Mapping_0[variants[0]] == items[variants[0]].filled(
                pattern,
                path,
            ));
        }
    }

    /// A pattern is unreachable exactly where every value is covered already.
    pub proof fn law_unreachable_where_all_is_covered(self)
        ensures
            !self.has_room() <==> forall|variants: Seq<int>| #[trigger]
                self.reaches_leaf(variants) ==> self.covering(variants) is Some,
    {
        if self.has_room() {
            let open = self.lemma_open_value();
            assert(self.reaches_leaf(open));
        } else {
            assert forall|variants: Seq<int>| #[trigger] self.reaches_leaf(variants) implies self.covering(
                variants,
            ) is Some by {
                self.lemma_covered_value(variants);
            }
        }
    }

    pub(crate) proof fn lemma_open_value(self) -> (variants: Seq<int>)
        requires
            self.has_room(),
        ensures
            self.reaches_leaf(variants),
            self.covering(variants) is None,
        decreases self,
    {
        match self {
            Coverage::Mapping(items) => {
                let i = choose|i: int| 0 <= i < items.len() && (#[trigger] items[i]).has_room();
                let below = items[i].lemma_open_value();
                let variants = seq![i] + below;
                assert(variants.drop_first() =~= below);
                variants
            },
            _ => seq![],
        }
    }

    proof fn lemma_covered_value(self, variants: Seq<int>)
        requires
            !self.has_room(),
            self.reaches_leaf(variants),
        ensures
            self.covering(variants) is Some,
        decreases self,
    {
        if let Coverage::Mapping(items) = self {
            assert(!items[variants[0]].has_room());
            items[variants[0]].lemma_covered_value(variants.drop_first());
        }
    }

    /// A pattern that is unreachable changes nothing.
    pub proof fn law_unreachable_pattern_changes_nothing(
        self,
        pattern: PatternId,
        path: PatternPath,
    )
        requires
            !self.has_room(),
        ensures
            self.filled(pattern, path) == self,
        decreases self,
    {
        if let Coverage::Mapping(items) = self {
            let filled = self.filled(pattern, path)->Mapping_0;
            assert forall|i: int| 0 <= i < items.len() implies filled[i] == #[trigger] items[i] by {
                assert(!items[i].has_room());
                items[i].law_unreachable_pattern_changes_nothing(pattern, path);
            }
            assert(filled =~= items);
        }
    }

    /// What a pattern covers stays covered by it when another pattern is pushed.
    pub proof fn law_push_keeps_coverage(
        self,
        pattern: PatternId,
        path: PatternPath,
        variants: Seq<int>,
    )
        requires
            self.covering(variants) is Some,
        ensures
            self.filled(pattern, path).covering(variants) == self.covering(variants),
        decreases self,
    {
        if let Coverage::Mapping(items) = self {
            items[variants[0]].law_push_keeps_coverage(pattern, path, variants.drop_first());
            assert(self.filled(pattern, path)->Mapping_0[variants[0]] == items[variants[0]].filled(
                pattern,
                path,
            ));
        }
    }
}

/// Adding the elements of two lists one after the other adds those of both.
proof fn lemma_with_each_once_twice(
    seen: Seq<PatternId>,
    first: Seq<PatternId>,
    second: Seq<PatternId>,
)
    ensures
        with_each_once(with_each_once(seen, first), second) == with_each_once(seen, first + second),
    decreases second.len(),
{
    if second.len() == 0 {
        assert(first + second =~= first);
    } else {
        lemma_with_each_once_twice(seen, first, second.drop_last());
        assert((first + second).drop_last() =~= first + second.drop_last());
    }
}

/// Collecting patterns keeps those that were there, in their place, and adds the others once each, in the
/// order in which they are first found.
pub proof fn law_each_pattern_is_collected_once(seen: Seq<PatternId>, added: Seq<PatternId>)
    requires
        seen.no_duplicates(),
    ensures
        with_each_once(seen, added).no_duplicates(),
        with_each_once(seen, added).len() >= seen.len(),
        with_each_once(seen, added).take(seen.len() as int) == seen,
        forall|p: PatternId| #[trigger]
            with_each_once(seen, added).contains(p) <==> seen.contains(p) || added.contains(p),
        forall|i: int, j: int|
            seen.len() <= i < j < with_each_once(seen, added).len() ==> comes_first(
                added,
                #[trigger] with_each_once(seen, added)[i],
                #[trigger] with_each_once(seen, added)[j],
            ),
    decreases added.len(),
{
    let now = with_each_once(seen, added);
    if added.len() == 0 {
        assert(now.take(seen.len() as int) =~= seen);
    } else {
        let first = added.drop_last();
        let last = added.last();
        let before = with_each_once(seen, first);
        law_each_pattern_is_collected_once(seen, first);
        assert(forall|k: int| 0 <= k < first.len() ==> first[k] == #[trigger] added[k]);
        assert(now.take(seen.len() as int) =~= before.take(seen.len() as int));
        assert forall|p: PatternId| #[trigger] added.contains(p) <==> first.contains(p) || p
            == last by {
            if added.contains(p) {
                let k = added.index_of(p);
                if k < first.len() {
                    assert(first[k] == p);
                }
            }
            if first.contains(p) {
                let k = first.index_of(p);
                assert(added[k] == p);
            }
            if p == last {
                assert(added[added.len() - 1] == p);
            }
        }
        assert forall|p: PatternId| #[trigger] now.contains(p) <==> seen.contains(p)
            || added.contains(p) by {
            assert(before.contains(p) <==> seen.contains(p) || first.contains(p));
            assert(added.contains(p) <==> first.contains(p) || p == last);
            if before.contains(p) {
                let k = before.index_of(p);
                assert(now[k] == p);
            }
            if now.contains(p) {
                let k = now.index_of(p);
                if k < before.len() {
                    assert(before[k] == p);
                }
            }
            if p == last {
                if !before.contains(last) {
                    assert(now[now.len() - 1] == p);
                }
            }
        }
        assert forall|i: int, j: int| seen.len() <= i < j < now.len() implies comes_first(
            added,
            #[trigger] now[i],
            #[trigger] now[j],
        ) by {
            if j < before.len() {
                assert(comes_first(first, before[i], before[j]));
                let a = choose|a: int| #[trigger] finds_first(first, before[i], before[j], a);
                assert(finds_first(added, now[i], now[j], a));
            } else {
                assert(before.contains(before[i]));
                assert(!seen.contains(before[i])) by {
                    if seen.contains(before[i]) {
                        let k = seen.index_of(before[i]);
                        assert(before.take(seen.len() as int)[k] == before[k]);
                    }
                }
                assert(first.contains(before[i]));
                let a = first.index_of(before[i]);
                assert(!before.contains(last));
                assert(!first.contains(last));
                assert forall|b: int| 0 <= b <= a implies #[trigger] added[b] != last by {
                    assert(first.contains(first[b]));
                }
                assert(finds_first(added, now[i], now[j], a));
            }
        }
    }
}

/// `first` is at `a` in `list`, and `second` is not there up to it.
pub open spec fn finds_first(list: Seq<PatternId>, first: PatternId, second: PatternId, a: int) -> bool {
    &&& 0 <= a < list.len()
    &&& list[a] == first
    &&& forall|b: int| 0 <= b <= a ==> #[trigger] list[b] != second
}

/// Whether `first` is in `list`, before `second`.
pub open spec fn comes_first(list: Seq<PatternId>, first: PatternId, second: PatternId) -> bool {
    exists|a: int| #[trigger] finds_first(list, first, second, a)
}

impl Coverage {
    /// Whether `pattern` covers a value that is told apart.
    pub open spec fn is_covered_by(self, pattern: PatternId) -> bool {
        exists|variants: Seq<int>| #[trigger]
            self.reaches_leaf(variants) && (self.covering(variants) matches Some((p, _)) && p
                == pattern)
    }

    /// The patterns of a tree are those that cover a value.
    pub proof fn law_leaves_are_the_covering_patterns(self, pattern: PatternId)
        ensures
            self.leaves().contains(pattern) <==> self.is_covered_by(pattern),
        decreases self, 1nat, 0nat,
    {
        match self {
            Coverage::Empty => {
                assert(self.leaves() =~= seq![]);
            },
            Coverage::Full(p, path) => {
                assert(self.leaves() =~= seq![p]);
                assert(self.leaves()[0] == p);
                assert(self.reaches_leaf(seq![]));
                assert(self.covering(seq![]) == Some((p, path)));
            },
            Coverage::Mapping(items) => {
                Self::lemma_leaves_of_cover(items, items.len(), pattern);
                if self.leaves().contains(pattern) {
                    let i = choose|i: int|
                        0 <= i < items.len() && (#[trigger] items[i]).is_covered_by(pattern);
                    let below = choose|variants: Seq<int>| #[trigger]
                        items[i].reaches_leaf(variants) && (items[i].covering(variants) matches Some(
                            (p, _),
                        ) && p == pattern);
                    let variants = seq![i] + below;
                    assert(variants.drop_first() =~= below);
                    assert(self.reaches_leaf(variants));
                }
                if self.is_covered_by(pattern) {
                    let variants = choose|variants: Seq<int>| #[trigger]
                        self.reaches_leaf(variants) && (self.covering(variants) matches Some((p, _))
                            && p == pattern);
                    let below = variants.drop_first();
                    assert(items[variants[0]].reaches_leaf(below));
                    assert(items[variants[0]].is_covered_by(pattern));
                }
            },
        }
    }

    proof fn lemma_leaves_of_cover(items: Seq<Coverage>, n: nat, pattern: PatternId)
        requires
            n <= items.len(),
        ensures
            Self::leaves_of(items, n).contains(pattern) <==> exists|i: int|
                0 <= i < n && (#[trigger] items[i]).is_covered_by(pattern),
        decreases items, 0nat, n,
    {
        if n == 0 {
            assert(Self::leaves_of(items, n) =~= seq![]);
        } else {
            Self::lemma_leaves_of_cover(items, (n - 1) as nat, pattern);
            items[n - 1].law_leaves_are_the_covering_patterns(pattern);
            let before = Self::leaves_of(items, (n - 1) as nat);
            let added = items[n - 1].leaves();
            let now = Self::leaves_of(items, n);
            assert(now == before + added);
            if before.contains(pattern) {
                let k = before.index_of(pattern);
                assert(now[k] == pattern);
            }
            if added.contains(pattern) {
                let k = added.index_of(pattern);
                assert(now[before.len() + k] == pattern);
            }
            if now.contains(pattern) {
                let k = now.index_of(pattern);
                if k < before.len() {
                    assert(before[k] == pattern);
                } else {
                    assert(added[k - before.len()] == pattern);
                }
            }
        }
    }
}

} // verus!

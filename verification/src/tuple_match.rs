//! Matches on a tuple of enums.
use vstd::prelude::*;

use crate::context::{failed, LoweringContext, LoweringFlowError, LoweringResult};
use crate::diagnostic::{match_error_at, MatchDiagnostic, MatchKind, Report};
use crate::enum_match::{is_known_enum, patterns_of_arm, EnumDetails, ExtractedEnumDetails};
use crate::match_arms::{
    arms_wf, first_otherwise, otherwise_position, MatchArmWrapper, PatternPath,
};
use crate::semantic::{
    ConcreteVariant, PatternId, PatternKind, SemanticModel, TypeId, TypeLongId,
};
use crate::syntax::SyntaxStablePtrId;
use crate::variants_map::{MatchingPath, VariantsMap};

verus! {

/// The position of the first of `types` under whose snapshots there is no enum with known variants,
/// or their number where there is none.
pub open spec fn first_unknown_enum(m: &SemanticModel, types: Seq<TypeId>) -> nat
    decreases types.len(),
{
    if types.len() == 0 || !is_known_enum(m, types[0]) {
        0
    } else {
        1 + first_unknown_enum(m, types.drop_first())
    }
}

/// What extracting the enums under the snapshots around `types` reports at `stable_ptr`: a type that
/// is no enum, unless an enum whose variants are not known comes first.
pub open spec fn tuple_extraction_reports(
    m: &SemanticModel,
    stable_ptr: SyntaxStablePtrId,
    types: Seq<TypeId>,
    match_type: MatchKind,
) -> Seq<Report> {
    let n = first_unknown_enum(m, types);
    if n < types.len() && m.db.peeled_enum(types[n as int]) is None {
        seq![
            match_error_at(stable_ptr, match_type, MatchDiagnostic::UnsupportedMatchedValueTuple),
        ]
    } else {
        seq![]
    }
}

/// The details, their lists taken as sequences.
pub open spec fn details_of(details: Seq<ExtractedEnumDetails>) -> Seq<EnumDetails> {
    details.map_values(|d: ExtractedEnumDetails| d@)
}

/// The details of the enum under the snapshots around `ty`.
pub open spec fn enum_details(m: &SemanticModel, ty: TypeId) -> EnumDetails {
    let e = m.db.peeled_enum(ty)->0;
    EnumDetails {
        concrete_enum_id: e,
        concrete_variants: m.db.variants(e)->Ok_0,
        n_snapshots: m.db.peeled(ty).0 as usize,
    }
}

/// The details of the enums under the snapshots around `types`.
pub open spec fn tuple_details(m: &SemanticModel, types: Seq<TypeId>) -> Seq<EnumDetails> {
    types.map_values(|ty: TypeId| enum_details(m, ty))
}

pub(crate) proof fn lemma_first_unknown_enum(m: &SemanticModel, types: Seq<TypeId>, n: nat)
    requires
        n <= types.len(),
        forall|i: int| 0 <= i < n ==> is_known_enum(m, #[trigger] types[i]),
        n < types.len() ==> !is_known_enum(m, types[n as int]),
    ensures
        first_unknown_enum(m, types) == n,
    decreases types.len(),
{
    if types.len() > 0 && n > 0 {
        assert(is_known_enum(m, types[0]));
        let rest = types.drop_first();
        assert forall|i: int| 0 <= i < n - 1 implies is_known_enum(m, #[trigger] rest[i]) by {
            assert(rest[i] == types[i + 1]);
        }
        lemma_first_unknown_enum(m, rest, (n - 1) as nat);
    }
}

/// Extracts concrete enums and variants from a match expression on a tuple of enums.
pub fn extract_concrete_enum_tuple(
    ctx: &mut LoweringContext,
    stable_ptr: SyntaxStablePtrId,
    types: &[TypeId],
    match_type: MatchKind,
) -> (r: LoweringResult<Vec<ExtractedEnumDetails>>)
    requires
        old(ctx).semantic.wf(),
        forall|i: int|
            0 <= i < types@.len() ==> old(ctx).semantic.db.has_type(#[trigger] types@[i]),
    ensures
        r is Ok <==> first_unknown_enum(&old(ctx).semantic, types@) == types@.len(),
        r matches Ok(details) ==> details_of(details@) == tuple_details(
            &old(ctx).semantic,
            types@,
        ),
        r is Err ==> r == failed::<Vec<ExtractedEnumDetails>>(),
        old(ctx).reports(
            final(ctx),
            tuple_extraction_reports(&old(ctx).semantic, stable_ptr, types@, match_type),
        ),
{
    let ghost m = ctx.semantic;
    let mut extracted: Vec<ExtractedEnumDetails> = Vec::new();
    for i in 0..types.len()
        invariant
            ctx.semantic == m,
            *ctx == *old(ctx),
            m.wf(),
            forall|k: int| 0 <= k < types@.len() ==> m.db.has_type(#[trigger] types@[k]),
            forall|k: int| 0 <= k < i ==> is_known_enum(&m, #[trigger] types@[k]),
            extracted@.len() == i,
            forall|k: int|
                0 <= k < extracted@.len() ==> (#[trigger] extracted@[k])@ == enum_details(
                    &m,
                    types@[k],
                ),
    {
        let (n_snapshots, long_ty) = ctx.semantic.db.peel_snapshots(types[i]);
        let concrete_enum_id = match &ctx.semantic.db.types[long_ty.0].long_id {
            TypeLongId::Enum(concrete_enum_id) => *concrete_enum_id,
            _ => {
                proof {
                    lemma_first_unknown_enum(&m, types@, i as nat);
                }
                return Err(
                    LoweringFlowError::Failed(
                        ctx.report_match_error(
                            stable_ptr,
                            match_type,
                            MatchDiagnostic::UnsupportedMatchedValueTuple,
                        ),
                    ),
                );
            },
        };
        match ctx.semantic.db.concrete_enum_variants(concrete_enum_id) {
            Ok(variants) => {
                let concrete_variants = variants.clone();
                assert(concrete_variants@ =~= variants@);
                extracted.push(
                    ExtractedEnumDetails { concrete_enum_id, concrete_variants, n_snapshots },
                );
            },
            Err(reported) => {
                proof {
                    lemma_first_unknown_enum(&m, types@, i as nat);
                }
                return Err(LoweringFlowError::Failed(reported));
            },
        }
    }
    proof {
        lemma_first_unknown_enum(&m, types@, types@.len());
        assert(details_of(extracted@) =~= tuple_details(&m, types@));
    }
    Ok(extracted)
}

/// Whether a pattern of a tuple's field can be matched against the enum of the field.
pub open spec fn field_supported(
    m: &SemanticModel,
    pattern: PatternId,
    details: EnumDetails,
) -> bool {
    match m.kind(pattern) {
        PatternKind::EnumVariant(p) => p.variant.concrete_enum_id == details.concrete_enum_id,
        PatternKind::Otherwise => true,
        _ => false,
    }
}

/// Whether a pattern of a tuple's field takes `variant` of the enum of the field.
pub open spec fn field_takes(
    m: &SemanticModel,
    pattern: PatternId,
    details: EnumDetails,
    variant: ConcreteVariant,
) -> bool {
    match m.kind(pattern) {
        PatternKind::EnumVariant(p) => p.variant == variant,
        PatternKind::Otherwise => details.concrete_variants.contains(variant),
        _ => false,
    }
}

/// Whether the patterns of a tuple's fields from `index` on take the variants there.
pub open spec fn fields_take(
    m: &SemanticModel,
    patterns: Seq<PatternId>,
    details: Seq<EnumDetails>,
    variants: Seq<ConcreteVariant>,
    index: nat,
) -> bool {
    &&& variants.len() == patterns.len()
    &&& forall|i: int|
        index <= i < patterns.len() ==> field_takes(
            m,
            patterns[i],
            details[i],
            #[trigger] variants[i],
        )
}

/// The pattern, from `index` on, of the first field that is not supported. A field before it over an
/// enum without variants, that takes all of them, hides it.
pub open spec fn unsupported_field(
    m: &SemanticModel,
    patterns: Seq<PatternId>,
    details: Seq<EnumDetails>,
    index: nat,
) -> Option<PatternId>
    decreases patterns.len() - index,
{
    if index >= patterns.len() {
        None
    } else if !field_supported(m, patterns[index as int], details[index as int]) {
        Some(patterns[index as int])
    } else if m.kind(patterns[index as int]) is Otherwise
        && details[index as int].concrete_variants.len() == 0 {
        None
    } else {
        unsupported_field(m, patterns, details, index + 1)
    }
}

/// Whether each field that is reached from `index` on, with a pattern on a variant or `_`, is a field
/// of the tuple. Fields are reached up to the first one that is not supported, or that hides those
/// after it.
pub open spec fn fields_within(
    m: &SemanticModel,
    patterns: Seq<PatternId>,
    details: Seq<EnumDetails>,
    index: nat,
) -> bool
    decreases patterns.len() - index,
{
    if index >= patterns.len() {
        true
    } else {
        let pattern = patterns[index as int];
        m.kind(pattern) is EnumVariant || m.kind(pattern) is Otherwise ==> {
            &&& index < details.len()
            &&& field_supported(m, pattern, details[index as int]) && !(m.kind(pattern) is Otherwise
                && details[index as int].concrete_variants.len() == 0) ==> fields_within(
                m,
                patterns,
                details,
                index + 1,
            )
        }
    }
}

/// `map` with `pattern_path` for every list of variants that starts with `path`, that the patterns
/// take from there on, and that has no entry yet.
pub open spec fn with_tuple_pattern(
    map: Map<Seq<ConcreteVariant>, PatternPath>,
    m: &SemanticModel,
    patterns: Seq<PatternId>,
    pattern_path: PatternPath,
    details: Seq<EnumDetails>,
    path: Seq<ConcreteVariant>,
) -> Map<Seq<ConcreteVariant>, PatternPath> {
    Map::new(
        |variants: Seq<ConcreteVariant>|
            path.is_prefix_of(variants) && fields_take(m, patterns, details, variants, path.len()),
        |variants: Seq<ConcreteVariant>| pattern_path,
    ).union_prefer_right(map)
}

/// A pattern on a tuple is unreachable exactly where every list of variants that it takes has an
/// entry already.
pub proof fn law_unreachable_where_nothing_is_new(
    map: Map<Seq<ConcreteVariant>, PatternPath>,
    m: &SemanticModel,
    patterns: Seq<PatternId>,
    pattern_path: PatternPath,
    details: Seq<EnumDetails>,
)
    ensures
        with_tuple_pattern(map, m, patterns, pattern_path, details, seq![]) == map
            <==> forall|variants: Seq<ConcreteVariant>| #[trigger]
            fields_take(m, patterns, details, variants, 0) ==> map.dom().contains(variants),
{
    let after = with_tuple_pattern(map, m, patterns, pattern_path, details, seq![]);
    assert forall|variants: Seq<ConcreteVariant>| #[trigger]
        after.dom().contains(variants) <==> map.dom().contains(variants) || fields_take(
        m,
        patterns,
        details,
        variants,
        0,
    ) by {
        assert(Seq::<ConcreteVariant>::empty().is_prefix_of(variants));
    }
    if after == map {
        assert forall|variants: Seq<ConcreteVariant>| #[trigger]
            fields_take(m, patterns, details, variants, 0) implies map.dom().contains(variants) by {
            assert(after.dom().contains(variants));
        }
    }
    if forall|variants: Seq<ConcreteVariant>| #[trigger]
        fields_take(m, patterns, details, variants, 0) ==> map.dom().contains(variants) {
        assert(after =~= map);
    }
}

/// A helper function for [get_variants_to_arm_map_tuple] Inserts the pattern path to the map for
/// each variants list it can match.
pub fn insert_tuple_path_patterns(
    ctx: &mut LoweringContext,
    patterns: &[PatternId],
    pattern_path: &PatternPath,
    extracted_enums_details: &[ExtractedEnumDetails],
    path: MatchingPath,
    map: &mut VariantsMap,
    match_type: MatchKind,
) -> (r: LoweringResult<()>)
    requires
        old(map).wf(),
        path@.len() <= patterns@.len(),
        fields_within(
            &old(ctx).semantic,
            patterns@,
            details_of(extracted_enums_details@),
            path@.len(),
        ),
        forall|i: int|
            0 <= i < patterns@.len() ==> old(ctx).semantic.has_pattern(#[trigger] patterns@[i]),
    ensures
        final(map).wf(),
        match unsupported_field(
            &old(ctx).semantic,
            patterns@,
            details_of(extracted_enums_details@),
            path@.len(),
        ) {
            Some(field) => {
                &&& r == failed::<()>()
                &&& final(map)@ == old(map)@
                &&& old(ctx).reports(
                    final(ctx),
                    seq![
                        match_error_at(
                            old(ctx).semantic.pattern_ptr(field),
                            match_type,
                            MatchDiagnostic::UnsupportedMatchArmNotAVariant,
                        ),
                    ],
                )
            },
            None => {
                &&& r == Ok::<(), LoweringFlowError>(())
                &&& final(map)@ == with_tuple_pattern(
                    old(map)@,
                    &old(ctx).semantic,
                    patterns@,
                    *pattern_path,
                    details_of(extracted_enums_details@),
                    path@,
                )
                &&& old(ctx).reports(final(ctx), seq![])
            },
        },
    decreases patterns@.len() - path@.len(),
{
    let ghost m = ctx.semantic;
    let ghost details = details_of(extracted_enums_details@);
    let ghost before = map@;
    let index = path.variants.len();

    // if the path is the same length as the tuple's patterns, we have reached the end of the path
    if index == patterns.len() {
        let ghost variants = path@;
        map.insert_if_vacant(path, *pattern_path);
        proof {
            assert forall|other: Seq<ConcreteVariant>|
                variants.is_prefix_of(other) && other.len() == patterns@.len() implies other
                == variants by {
                assert(other =~= variants);
            }
            assert(map@ =~= with_tuple_pattern(
                before,
                &m,
                patterns@,
                *pattern_path,
                details,
                variants,
            ));
        }
        return Ok(());
    }
    let pattern_ptr = ctx.semantic.patterns[patterns[index].0].stable_ptr;
    match &ctx.semantic.patterns[patterns[index].0].kind {
        PatternKind::EnumVariant(enum_pattern) => {
            let variant = enum_pattern.variant;
            if variant.concrete_enum_id != extracted_enums_details[index].concrete_enum_id {
                return Err(
                    LoweringFlowError::Failed(
                        ctx.report_match_error(
                            pattern_ptr,
                            match_type,
                            MatchDiagnostic::UnsupportedMatchArmNotAVariant,
                        ),
                    ),
                );
            }
            let longer = path.followed_by(variant);
            proof {
                lemma_next_field(before, &m, patterns@, *pattern_path, details, path@, variant);
            }
            insert_tuple_path_patterns(
                ctx,
                patterns,
                pattern_path,
                extracted_enums_details,
                longer,
                map,
                match_type,
            )
        },
        PatternKind::Otherwise => {
            let variants = &extracted_enums_details[index].concrete_variants;
            assert(map@ =~= with_variants(
                before,
                &m,
                patterns@,
                *pattern_path,
                details,
                path@,
                variants@.take(0),
            ));
            for k in 0..variants.len()
                invariant
                    m == old(ctx).semantic,
                    details == details_of(extracted_enums_details@),
                    index == path@.len(),
                    index < patterns@.len(),
                    index < details.len(),
                    variants@.len() > 0 ==> fields_within(
                        &m,
                        patterns@,
                        details,
                        (index + 1) as nat,
                    ),
                    variants@ == details[index as int].concrete_variants,
                    m.kind(patterns@[index as int]) is Otherwise,
                    forall|i: int|
                        0 <= i < patterns@.len() ==> m.has_pattern(#[trigger] patterns@[i]),
                    map.wf(),
                    old(ctx).reports(ctx, seq![]),
                    before == old(map)@,
                    map@ == with_variants(
                        before,
                        &m,
                        patterns@,
                        *pattern_path,
                        details,
                        path@,
                        variants@.take(k as int),
                    ),
                    k > 0 ==> unsupported_field(&m, patterns@, details, (index + 1) as nat) is None,
            {
                let longer = path.followed_by(variants[k]);
                proof {
                    assert(map@ == before || k > 0);
                    lemma_next_variant(
                        before,
                        &m,
                        patterns@,
                        *pattern_path,
                        details,
                        path@,
                        variants@,
                        k as int,
                    );
                }
                let result = insert_tuple_path_patterns(
                    ctx,
                    patterns,
                    pattern_path,
                    extracted_enums_details,
                    longer,
                    map,
                    match_type,
                );
                if let Err(error) = result {
                    return Err(error);
                }
            }
            proof {
                assert(variants@.take(variants@.len() as int) =~= variants@);
                assert(map@ =~= with_tuple_pattern(
                    before,
                    &m,
                    patterns@,
                    *pattern_path,
                    details,
                    path@,
                ));
            }
            Ok(())
        },
        _ => Err(
            LoweringFlowError::Failed(
                ctx.report_match_error(
                    pattern_ptr,
                    match_type,
                    MatchDiagnostic::UnsupportedMatchArmNotAVariant,
                ),
            ),
        ),
    }
}

/// As [with_tuple_pattern], for the lists that go on with one of `variants` after `path`.
spec fn with_variants(
    map: Map<Seq<ConcreteVariant>, PatternPath>,
    m: &SemanticModel,
    patterns: Seq<PatternId>,
    pattern_path: PatternPath,
    details: Seq<EnumDetails>,
    path: Seq<ConcreteVariant>,
    variants: Seq<ConcreteVariant>,
) -> Map<Seq<ConcreteVariant>, PatternPath> {
    Map::new(
        |list: Seq<ConcreteVariant>|
            path.is_prefix_of(list) && fields_take(m, patterns, details, list, path.len())
                && variants.contains(list[path.len() as int]),
        |list: Seq<ConcreteVariant>| pattern_path,
    ).union_prefer_right(map)
}

/// A list starts with `path` and `variant` where it starts with `path` and goes on with `variant`.
proof fn lemma_longer_prefix(
    path: Seq<ConcreteVariant>,
    variant: ConcreteVariant,
    list: Seq<ConcreteVariant>,
)
    requires
        list.len() > path.len(),
    ensures
        path.push(variant).is_prefix_of(list) <==> path.is_prefix_of(list) && list[path.len() as int]
            == variant,
{
    let longer = path.push(variant);
    if longer.is_prefix_of(list) {
        assert(longer[path.len() as int] == variant);
        assert(list.take(longer.len() as int)[path.len() as int] == list[path.len() as int]);
        assert(path =~= list.take(path.len() as int)) by {
            assert forall|i: int| 0 <= i < path.len() implies path[i] == list[i] by {
                assert(longer[i] == list[i]);
            }
        }
    }
    if path.is_prefix_of(list) && list[path.len() as int] == variant {
        assert(longer =~= list.take(longer.len() as int));
    }
}

/// Inserting the lists that go on with the variant of a pattern inserts those that go on.
proof fn lemma_next_field(
    map: Map<Seq<ConcreteVariant>, PatternPath>,
    m: &SemanticModel,
    patterns: Seq<PatternId>,
    pattern_path: PatternPath,
    details: Seq<EnumDetails>,
    path: Seq<ConcreteVariant>,
    variant: ConcreteVariant,
)
    requires
        path.len() < patterns.len(),
        m.kind(patterns[path.len() as int]) matches PatternKind::EnumVariant(p) && p.variant
            == variant,
    ensures
        with_tuple_pattern(map, m, patterns, pattern_path, details, path.push(variant))
            == with_tuple_pattern(map, m, patterns, pattern_path, details, path),
{
    assert forall|list: Seq<ConcreteVariant>| list.len() == patterns.len() implies (
    path.push(variant).is_prefix_of(list) && #[trigger] fields_take(
        m,
        patterns,
        details,
        list,
        path.len() + 1,
    ) <==> path.is_prefix_of(list) && fields_take(m, patterns, details, list, path.len())) by {
        lemma_longer_prefix(path, variant, list);
    }
    assert(with_tuple_pattern(map, m, patterns, pattern_path, details, path.push(variant))
        =~= with_tuple_pattern(map, m, patterns, pattern_path, details, path));
}

/// Inserting the lists that go on with one more variant.
proof fn lemma_next_variant(
    map: Map<Seq<ConcreteVariant>, PatternPath>,
    m: &SemanticModel,
    patterns: Seq<PatternId>,
    pattern_path: PatternPath,
    details: Seq<EnumDetails>,
    path: Seq<ConcreteVariant>,
    variants: Seq<ConcreteVariant>,
    k: int,
)
    requires
        path.len() < patterns.len(),
        m.kind(patterns[path.len() as int]) is Otherwise,
        variants == details[path.len() as int].concrete_variants,
        0 <= k < variants.len(),
    ensures
        with_tuple_pattern(
            with_variants(map, m, patterns, pattern_path, details, path, variants.take(k)),
            m,
            patterns,
            pattern_path,
            details,
            path.push(variants[k]),
        ) == with_variants(map, m, patterns, pattern_path, details, path, variants.take(k + 1)),
{
    let variant = variants[k];
    let done = with_variants(map, m, patterns, pattern_path, details, path, variants.take(k));
    assert(variants.take(k + 1) =~= variants.take(k).push(variant));
    assert forall|v: ConcreteVariant| #[trigger]
        variants.take(k + 1).contains(v) <==> variants.take(k).contains(v) || v == variant by {
        if variants.take(k).contains(v) {
            let i = variants.take(k).index_of(v);
            assert(variants.take(k + 1)[i] == v);
        }
        if v == variant {
            assert(variants.take(k + 1)[k] == v);
        }
    }
    assert forall|list: Seq<ConcreteVariant>| list.len() == patterns.len() implies (
    path.push(variant).is_prefix_of(list) && #[trigger] fields_take(
        m,
        patterns,
        details,
        list,
        path.len() + 1,
    ) <==> path.is_prefix_of(list) && fields_take(m, patterns, details, list, path.len())
        && list[path.len() as int] == variant) by {
        lemma_longer_prefix(path, variant, list);
        if list[path.len() as int] == variant {
            assert(variants[k] == variant);
        }
    }
    assert(with_tuple_pattern(done, m, patterns, pattern_path, details, path.push(variant))
        =~= with_variants(map, m, patterns, pattern_path, details, path, variants.take(k + 1)));
}

/// The patterns of the arms in the order in which they are written, in each arm up to the first `_`,
/// with their paths.
pub open spec fn patterns_before_otherwise(m: &SemanticModel, arms: Seq<MatchArmWrapper>) -> Seq<
    (PatternPath, PatternId),
>
    decreases arms.len(),
{
    if arms.len() == 0 {
        seq![]
    } else {
        patterns_before_otherwise(m, arms.drop_last()) + patterns_of_arm(
            arms.last(),
            (arms.len() - 1) as nat,
        ).take(first_otherwise(m, arms.last().patterns@) as int)
    }
}

/// What collecting patterns on a tuple leaves behind.
pub struct TupleMapping {
    pub map: Map<Seq<ConcreteVariant>, PatternPath>,
    pub reports: Seq<Report>,
    pub result: LoweringResult<()>,
}

/// What collecting `pattern`, at `path`, into `map` leaves behind: an entry for the lists of variants
/// that it takes and that have none.
pub open spec fn mapping_with(
    map: Map<Seq<ConcreteVariant>, PatternPath>,
    m: &SemanticModel,
    match_type: MatchKind,
    path: PatternPath,
    pattern: PatternId,
    details: Seq<EnumDetails>,
) -> TupleMapping {
    match m.kind(pattern) {
        PatternKind::Tuple(fields) => match unsupported_field(m, fields@, details, 0) {
            Some(field) => mapping_error(map, m, match_type, field),
            None => {
                let after = with_tuple_pattern(map, m, fields@, path, details, seq![]);
                TupleMapping {
                    map: after,
                    reports: if after == map {
                        seq![
                            match_error_at(
                                m.pattern_ptr(pattern),
                                match_type,
                                MatchDiagnostic::UnreachableMatchArm,
                            ),
                        ]
                    } else {
                        seq![]
                    },
                    result: Ok(()),
                }
            },
        },
        _ => mapping_error(map, m, match_type, pattern),
    }
}

/// A pattern that cannot be collected.
pub open spec fn mapping_error(
    map: Map<Seq<ConcreteVariant>, PatternPath>,
    m: &SemanticModel,
    match_type: MatchKind,
    pattern: PatternId,
) -> TupleMapping {
    TupleMapping {
        map,
        reports: seq![
            match_error_at(
                m.pattern_ptr(pattern),
                match_type,
                MatchDiagnostic::UnsupportedMatchArmNotAVariant,
            ),
        ],
        result: failed(),
    }
}

/// What collecting `patterns` one after the other leaves behind. It ends with the first pattern that
/// fails.
pub open spec fn mapping_of_all(
    m: &SemanticModel,
    match_type: MatchKind,
    patterns: Seq<(PatternPath, PatternId)>,
    details: Seq<EnumDetails>,
) -> TupleMapping
    decreases patterns.len(),
{
    if patterns.len() == 0 {
        TupleMapping { map: Map::empty(), reports: seq![], result: Ok(()) }
    } else {
        let before = mapping_of_all(m, match_type, patterns.drop_last(), details);
        if before.result is Err {
            before
        } else {
            let (path, pattern) = patterns.last();
            let after = mapping_with(before.map, m, match_type, path, pattern, details);
            TupleMapping { reports: before.reports + after.reports, ..after }
        }
    }
}

/// Whether each field of a pattern that is reached is a field of the tuple.
pub open spec fn pattern_within(
    m: &SemanticModel,
    pattern: PatternId,
    details: Seq<EnumDetails>,
) -> bool {
    m.kind(pattern) matches PatternKind::Tuple(fields) ==> fields_within(m, fields@, details, 0)
}

/// Whether each field that is reached in `patterns` is a field of the tuple. Patterns are read up to
/// the first one that fails.
pub open spec fn patterns_within(
    m: &SemanticModel,
    match_type: MatchKind,
    patterns: Seq<(PatternPath, PatternId)>,
    details: Seq<EnumDetails>,
) -> bool {
    forall|k: int|
        0 <= k < patterns.len() && mapping_of_all(
            m,
            match_type,
            patterns.take(k),
            details,
        ).result is Ok ==> pattern_within(m, (#[trigger] patterns[k]).1, details)
}

/// A failure is final: what comes after it changes nothing.
pub(crate) proof fn lemma_mapping_failure_is_final(
    m: &SemanticModel,
    match_type: MatchKind,
    patterns: Seq<(PatternPath, PatternId)>,
    more: Seq<(PatternPath, PatternId)>,
    details: Seq<EnumDetails>,
)
    requires
        mapping_of_all(m, match_type, patterns, details).result is Err,
    ensures
        mapping_of_all(m, match_type, patterns + more, details) == mapping_of_all(
            m,
            match_type,
            patterns,
            details,
        ),
    decreases more.len(),
{
    if more.len() == 0 {
        assert(patterns + more =~= patterns);
    } else {
        lemma_mapping_failure_is_final(m, match_type, patterns, more.drop_last(), details);
        assert((patterns + more).drop_last() =~= patterns + more.drop_last());
    }
}

/// The patterns of the first arms come first.
pub(crate) proof fn lemma_patterns_before_otherwise(
    m: &SemanticModel,
    arms: Seq<MatchArmWrapper>,
    n: int,
) -> (more: Seq<(PatternPath, PatternId)>)
    requires
        0 <= n <= arms.len(),
    ensures
        patterns_before_otherwise(m, arms) == patterns_before_otherwise(m, arms.take(n)) + more,
    decreases arms.len() - n,
{
    if n == arms.len() {
        assert(arms.take(n) =~= arms);
        assert(patterns_before_otherwise(m, arms) + seq![] =~= patterns_before_otherwise(m, arms));
        seq![]
    } else {
        let more = lemma_patterns_before_otherwise(m, arms, n + 1);
        assert(arms.take(n + 1).drop_last() =~= arms.take(n));
        let of_arm = patterns_of_arm(arms[n], n as nat).take(
            first_otherwise(m, arms[n].patterns@) as int,
        );
        assert(patterns_before_otherwise(m, arms) =~= patterns_before_otherwise(m, arms.take(n)) + (
        of_arm + more));
        of_arm + more
    }
}

/// Where the pattern at `j` of an arm stands among the patterns of all arms: `before` are those of the
/// arms before it, and `more` those of the arms after it.
pub(crate) proof fn lemma_next_of_arm(
    before: Seq<(PatternPath, PatternId)>,
    of_arm: Seq<(PatternPath, PatternId)>,
    more: Seq<(PatternPath, PatternId)>,
    j: int,
)
    requires
        0 <= j < of_arm.len(),
    ensures
        ({
            let all = before + of_arm + more;
            let done = before + of_arm.take(j);
            let next = before + of_arm.take(j + 1);
            &&& next.drop_last() == done
            &&& next.last() == of_arm[j]
            &&& next.len() == done.len() + 1
            &&& next.len() <= all.len()
            &&& all.take(done.len() as int) == done
            &&& all.take(next.len() as int) == next
            &&& all[done.len() as int] == of_arm[j]
            &&& all == next + (of_arm.skip(j + 1) + more)
        }),
{
    let all = before + of_arm + more;
    let done = before + of_arm.take(j);
    let next = before + of_arm.take(j + 1);
    assert(next.drop_last() =~= done);
    assert(all.take(done.len() as int) =~= done);
    assert(all.take(next.len() as int) =~= next);
    assert(all =~= next + (of_arm.skip(j + 1) + more));
}

/// Collects a pattern of an arm. Reports where it is no pattern on a tuple of enums, or where it
/// brings no new entry.
fn insert_tuple_pattern(
    ctx: &mut LoweringContext,
    pattern: PatternId,
    pattern_path: PatternPath,
    extracted_enums_details: &[ExtractedEnumDetails],
    map: &mut VariantsMap,
    match_type: MatchKind,
) -> (r: LoweringResult<()>)
    requires
        old(ctx).semantic.wf(),
        old(ctx).semantic.has_pattern(pattern),
        pattern_within(&old(ctx).semantic, pattern, details_of(extracted_enums_details@)),
        old(map).wf(),
    ensures
        final(map).wf(),
        ({
            let expected = mapping_with(
                old(map)@,
                &old(ctx).semantic,
                match_type,
                pattern_path,
                pattern,
                details_of(extracted_enums_details@),
            );
            &&& r == expected.result
            &&& final(map)@ == expected.map
            &&& old(ctx).reports(final(ctx), expected.reports)
        }),
{
    let ghost m = ctx.semantic;
    assert(m.pattern_wf(pattern.0 as int));
    let pattern_ptr = ctx.semantic.patterns[pattern.0].stable_ptr;
    let field_patterns = match &ctx.semantic.patterns[pattern.0].kind {
        PatternKind::Tuple(fields) => {
            let field_patterns = fields.clone();
            assert(field_patterns@ =~= fields@);
            field_patterns
        },
        _ => {
            return Err(
                LoweringFlowError::Failed(
                    ctx.report_match_error(
                        pattern_ptr,
                        match_type,
                        MatchDiagnostic::UnsupportedMatchArmNotAVariant,
                    ),
                ),
            );
        },
    };
    let map_size = map.len();
    let result = insert_tuple_path_patterns(
        ctx,
        field_patterns.as_slice(),
        &pattern_path,
        extracted_enums_details,
        MatchingPath::new(),
        map,
        match_type,
    );
    if let Err(error) = result {
        return Err(error);
    }
    if map.len() == map_size {
        proof {
            vstd::set_lib::lemma_subset_equality(old(map)@.dom(), map@.dom());
            assert(map@ =~= old(map)@);
        }
        ctx.report_match_error(pattern_ptr, match_type, MatchDiagnostic::UnreachableMatchArm);
    }
    Ok(())
}

/// Returns a map from a matching paths to their corresponding pattern path in a match statement.
pub fn get_variants_to_arm_map_tuple(
    ctx: &mut LoweringContext,
    arms: &[MatchArmWrapper],
    extracted_enums_details: &[ExtractedEnumDetails],
    match_type: MatchKind,
) -> (r: LoweringResult<VariantsMap>)
    requires
        old(ctx).semantic.wf(),
        arms_wf(&old(ctx).semantic, arms@),
        patterns_within(
            &old(ctx).semantic,
            match_type,
            patterns_before_otherwise(&old(ctx).semantic, arms@),
            details_of(extracted_enums_details@),
        ),
    ensures
        ({
            let m = &old(ctx).semantic;
            let expected = mapping_of_all(
                m,
                match_type,
                patterns_before_otherwise(m, arms@),
                details_of(extracted_enums_details@),
            );
            &&& match r {
                Ok(map) => expected.result is Ok && map.wf() && map@ == expected.map,
                Err(_) => expected.result is Err && r == failed::<VariantsMap>(),
            }
            &&& old(ctx).reports(final(ctx), expected.reports)
        }),
{
    let ghost m = ctx.semantic;
    let ghost details = details_of(extracted_enums_details@);
    let ghost all = patterns_before_otherwise(&m, arms@);
    let mut map = VariantsMap::new();
    assert(arms@.take(0) =~= seq![]);
    for arm_index in 0..arms.len()
        invariant
            m == old(ctx).semantic,
            m.wf(),
            arms_wf(&m, arms@),
            all == patterns_before_otherwise(&m, arms@),
            patterns_within(&m, match_type, all, details),
            details == details_of(extracted_enums_details@),
            map.wf(),
            ({
                let done = mapping_of_all(
                    &m,
                    match_type,
                    patterns_before_otherwise(&m, arms@.take(arm_index as int)),
                    details,
                );
                &&& done.result is Ok
                &&& map@ == done.map
                &&& old(ctx).reports(ctx, done.reports)
            }),
    {
        let arm = &arms[arm_index];
        assert(arm.wf(&m));
        let n_patterns = match otherwise_position(&ctx.semantic, &arm.patterns) {
            Some(position) => position,
            None => arm.patterns.len(),
        };
        let ghost before = patterns_before_otherwise(&m, arms@.take(arm_index as int));
        let ghost of_arm = patterns_of_arm(*arm, arm_index as nat).take(n_patterns as int);
        let ghost more = lemma_patterns_before_otherwise(&m, arms@, arm_index + 1);
        proof {
            assert(arm.wf(&m));
            assert(arms@.take(arm_index + 1).drop_last() =~= arms@.take(arm_index as int));
            assert(patterns_before_otherwise(&m, arms@.take(arm_index + 1)) == before + of_arm);
            assert(before + of_arm.take(0) =~= before);
        }
        for pattern_index in 0..n_patterns
            invariant
                m == old(ctx).semantic,
                m.wf(),
                arm.wf(&m),
                all == patterns_before_otherwise(&m, arms@),
                patterns_within(&m, match_type, all, details),
                details == details_of(extracted_enums_details@),
                arm_index < arms@.len(),
                *arm == arms@[arm_index as int],
                n_patterns <= arm.patterns@.len(),
                of_arm == patterns_of_arm(*arm, arm_index as nat).take(n_patterns as int),
                all == before + of_arm + more,
                map.wf(),
                ({
                    let done = mapping_of_all(
                        &m,
                        match_type,
                        before + of_arm.take(pattern_index as int),
                        details,
                    );
                    &&& done.result is Ok
                    &&& map@ == done.map
                    &&& old(ctx).reports(ctx, done.reports)
                }),
        {
            let pattern = arm.patterns[pattern_index];
            let pattern_path = PatternPath { arm_index, pattern_index: Some(pattern_index) };
            let ghost done = before + of_arm.take(pattern_index as int);
            let ghost next = before + of_arm.take(pattern_index + 1);
            proof {
                lemma_next_of_arm(before, of_arm, more, pattern_index as int);
                assert(of_arm[pattern_index as int] == (pattern_path, pattern));
            }
            let result = insert_tuple_pattern(
                ctx,
                pattern,
                pattern_path,
                extracted_enums_details,
                &mut map,
                match_type,
            );
            if let Err(error) = result {
                proof {
                    let after = of_arm.skip(pattern_index + 1) + more;
                    lemma_mapping_failure_is_final(&m, match_type, next, after, details);
                }
                return Err(error);
            }
        }
        assert(of_arm.take(n_patterns as int) =~= of_arm);
    }
    assert(arms@.take(arms@.len() as int) =~= arms@);
    Ok(map)
}

} // verus!

//! The semantic model that lowering reads: types, enums, patterns and expressions.
use vstd::prelude::*;

use crate::diagnostic::DiagnosticAdded;
use crate::syntax::SyntaxStablePtrId;

verus! {

/// A value, or the proof that its absence was already reported.
pub type Maybe<T> = Result<T, DiagnosticAdded>;

#[derive(Clone, Copy, PartialEq, Eq, Hash, Structural, Debug)]
pub struct TypeId(pub usize);

#[derive(Clone, Copy, PartialEq, Eq, Hash, Structural, Debug)]
pub struct ConcreteEnumId(pub usize);

/// A variant of an enum definition; it carries the variant's name.
#[derive(Clone, Copy, PartialEq, Eq, Hash, Structural, Debug)]
pub struct VariantId(pub usize);

#[derive(Clone, Copy, PartialEq, Eq, Hash, Structural, Debug)]
pub struct PatternId(pub usize);

#[derive(Clone, Copy, PartialEq, Eq, Hash, Structural, Debug)]
pub struct ExprId(pub usize);

/// A variant of a concrete enum.
#[derive(Clone, Copy, PartialEq, Eq, Hash, Structural, Debug)]
pub struct ConcreteVariant {
    pub concrete_enum_id: ConcreteEnumId,
    pub id: VariantId,
    /// The type of the variant's payload.
    pub ty: TypeId,
    /// The index of the variant in its enum.
    pub idx: usize,
}

/// What a type is.
#[derive(PartialEq, Eq, Debug)]
pub enum TypeLongId {
    Enum(ConcreteEnumId),
    Tuple(Vec<TypeId>),
    Snapshot(TypeId),
    /// A type of any other kind.
    Other,
}

/// What is known of a type.
#[derive(PartialEq, Eq, Debug)]
pub struct TypeInfo {
    pub long_id: TypeLongId,
    /// The type as diagnostics print it.
    pub formatted: String,
    /// Whether the type is a number type whose values all convert to a felt252.
    pub numeric_upcastable_to_felt252: bool,
}

/// The value of a compilation flag.
#[derive(Clone, Copy, PartialEq, Eq, Debug)]
pub enum Flag {
    NumericMatchOptimizationMinArmsThreshold(usize),
    /// The value of a flag of another type.
    Other,
}

/// Types, enums and flags.
#[derive(Debug)]
pub struct SemanticDb {
    pub types: Vec<TypeInfo>,
    /// The variants of each concrete enum, in the order of the enum's definition.
    pub enums: Vec<Maybe<Vec<ConcreteVariant>>>,
    pub variant_names: Vec<String>,
    pub felt252: TypeId,
    /// The flag `numeric_match_optimization_min_arms_threshold`, where it is set.
    pub numeric_match_optimization_min_arms_threshold: Option<Flag>,
}

impl SemanticDb {
    pub open spec fn has_type(&self, ty: TypeId) -> bool {
        ty.0 < self.types@.len()
    }

    pub open spec fn has_enum(&self, concrete_enum_id: ConcreteEnumId) -> bool {
        concrete_enum_id.0 < self.enums@.len()
    }

    /// Types refer to types and enums that exist, and a snapshot to a type that was known before
    /// it.
    pub open spec fn type_wf(&self, ty: int) -> bool {
        match self.types@[ty].long_id {
            TypeLongId::Enum(e) => self.has_enum(e),
            TypeLongId::Tuple(types) => forall|i: int|
                0 <= i < types@.len() ==> self.has_type(#[trigger] types@[i]),
            TypeLongId::Snapshot(inner) => inner.0 < ty,
            TypeLongId::Other => true,
        }
    }

    /// `variant` stands at position `idx` of the enum `e`, and has a type and a name.
    pub open spec fn variant_wf(&self, e: int, idx: int, variant: ConcreteVariant) -> bool {
        &&& variant.concrete_enum_id.0 == e
        &&& variant.idx == idx
        &&& self.has_type(variant.ty)
        &&& variant.id.0 < self.variant_names@.len()
    }

    pub open spec fn enum_wf(&self, e: int) -> bool {
        self.enums@[e] matches Ok(variants) ==> forall|i: int|
            0 <= i < variants@.len() ==> self.variant_wf(e, i, #[trigger] variants@[i])
    }

    pub open spec fn wf(&self) -> bool {
        &&& forall|ty: int| 0 <= ty < self.types@.len() ==> #[trigger] self.type_wf(ty)
        &&& forall|e: int| 0 <= e < self.enums@.len() ==> #[trigger] self.enum_wf(e)
        &&& self.has_type(self.felt252)
    }

    /// The variants of a concrete enum.
    pub open spec fn variants(&self, concrete_enum_id: ConcreteEnumId) -> Maybe<
        Seq<ConcreteVariant>,
    > {
        match self.enums@[concrete_enum_id.0 as int] {
            Ok(variants) => Ok(variants@),
            Err(reported) => Err(reported),
        }
    }

    /// The number of variants of a concrete enum.
    pub open spec fn variant_count(&self, concrete_enum_id: ConcreteEnumId) -> nat {
        match self.variants(concrete_enum_id) {
            Ok(variants) => variants.len(),
            Err(_) => 0,
        }
    }

    /// The name of a variant.
    pub open spec fn variant_name(&self, variant: ConcreteVariant) -> Seq<char> {
        self.variant_names@[variant.id.0 as int]@
    }

    /// Whether each of `variants` has a name.
    pub open spec fn all_named(&self, variants: Seq<ConcreteVariant>) -> bool {
        forall|i: int|
            0 <= i < variants.len() ==> (#[trigger] variants[i]).id.0 < self.variant_names@.len()
    }

    /// The type under all snapshots around `ty`, and the number of those snapshots.
    pub open spec fn peeled(&self, ty: TypeId) -> (nat, TypeId)
        decreases ty.0,
    {
        match self.types@[ty.0 as int].long_id {
            TypeLongId::Snapshot(inner) if inner.0 < ty.0 => {
                let (n_snapshots, peeled) = self.peeled(inner);
                (n_snapshots + 1, peeled)
            },
            _ => (0, ty),
        }
    }

    /// The enum under all snapshots around `ty`, if there is one.
    pub open spec fn peeled_enum(&self, ty: TypeId) -> Option<ConcreteEnumId> {
        match self.types@[self.peeled(ty).1.0 as int].long_id {
            TypeLongId::Enum(e) => Some(e),
            _ => None,
        }
    }

    /// Peeling ends at a type that exists and is no snapshot.
    pub proof fn lemma_peeled(&self, ty: TypeId)
        requires
            self.wf(),
            self.has_type(ty),
        ensures
            self.has_type(self.peeled(ty).1),
            self.types@[self.peeled(ty).1.0 as int].long_id !is Snapshot,
            self.peeled(ty).0 <= ty.0,
            self.peeled_enum(ty) matches Some(e) ==> self.has_enum(e),
            self.type_wf(self.peeled(ty).1.0 as int),
        decreases ty.0,
    {
        assert(self.type_wf(ty.0 as int));
        if let TypeLongId::Snapshot(inner) = self.types@[ty.0 as int].long_id {
            self.lemma_peeled(inner);
        }
    }

    /// Every variant of an enum is well-formed.
    pub proof fn lemma_variant(&self, e: ConcreteEnumId, idx: int)
        requires
            self.wf(),
            self.has_enum(e),
            self.variants(e) is Ok,
            0 <= idx < self.variants(e)->Ok_0.len(),
        ensures
            self.variant_wf(e.0 as int, idx, self.variants(e)->Ok_0[idx]),
    {
        assert(self.enum_wf(e.0 as int));
    }

    /// The type under all snapshots around `ty`, and the number of those snapshots.
    pub fn peel_snapshots(&self, ty: TypeId) -> (r: (usize, TypeId))
        requires
            self.wf(),
            self.has_type(ty),
        ensures
            (r.0 as nat, r.1) == self.peeled(ty),
            self.has_type(r.1),
            self.type_wf(r.1.0 as int),
            self.types@[r.1.0 as int].long_id !is Snapshot,
            self.peeled_enum(ty) matches Some(e) ==> self.has_enum(e),
    {
        let mut n_snapshots: usize = 0;
        let mut current = ty;
        proof {
            self.lemma_peeled(ty);
        }
        loop
            invariant
                self.wf(),
                self.has_type(current),
                n_snapshots + current.0 <= ty.0,
                self.peeled(ty).1 == self.peeled(current).1,
                self.peeled(ty).0 == n_snapshots + self.peeled(current).0,
            ensures
                self.types@[current.0 as int].long_id !is Snapshot,
            decreases current.0,
        {
            assert(self.type_wf(current.0 as int));
            match &self.types[current.0].long_id {
                TypeLongId::Snapshot(inner) => {
                    n_snapshots = n_snapshots + 1;
                    current = *inner;
                },
                _ => {
                    break;
                },
            }
        }
        (n_snapshots, current)
    }

    /// The variants of a concrete enum, in the order of its definition.
    pub fn concrete_enum_variants(&self, concrete_enum_id: ConcreteEnumId) -> (r: Maybe<
        &Vec<ConcreteVariant>,
    >)
        requires
            self.has_enum(concrete_enum_id),
        ensures
            match r {
                Ok(variants) => self.variants(concrete_enum_id) == Ok::<_, DiagnosticAdded>(
                    variants@,
                ),
                Err(reported) => self.variants(concrete_enum_id) == Err::<
                    Seq<ConcreteVariant>,
                    _,
                >(reported),
            },
    {
        match &self.enums[concrete_enum_id.0] {
            Ok(variants) => Ok(variants),
            Err(reported) => Err(*reported),
        }
    }
}

/// The value of bytes in two's complement, least significant byte first.
pub open spec fn signed_value(bytes: Seq<u8>) -> int
    decreases bytes.len(),
{
    if bytes.len() == 0 {
        0
    } else if bytes.len() == 1 {
        if bytes[0] < 0x80 {
            bytes[0] as int
        } else {
            bytes[0] - 0x100
        }
    } else {
        bytes[0] + 0x100 * signed_value(bytes.drop_first())
    }
}

/// An integer literal of any size.
#[derive(PartialEq, Eq, Debug)]
pub struct IntLiteral {
    /// The value in two's complement, least significant byte first.
    pub bytes: Vec<u8>,
}

impl IntLiteral {
    /// The value of the literal.
    pub open spec fn value(&self) -> int {
        signed_value(self.bytes@)
    }
}

/// A pattern on an enum variant, with the pattern of its payload where one is written.
#[derive(Clone, Copy, PartialEq, Eq, Debug)]
pub struct PatternEnumVariant {
    pub variant: ConcreteVariant,
    pub inner_pattern: Option<PatternId>,
}

/// What a pattern matches.
#[derive(PartialEq, Eq, Debug)]
pub enum PatternKind {
    Literal(IntLiteral),
    StringLiteral,
    Variable,
    Struct,
    /// A tuple, with the pattern of each of its fields.
    Tuple(Vec<PatternId>),
    FixedSizeArray,
    EnumVariant(PatternEnumVariant),
    /// The pattern `_`.
    Otherwise,
    Missing,
}

#[derive(PartialEq, Eq, Debug)]
pub struct Pattern {
    pub stable_ptr: SyntaxStablePtrId,
    pub kind: PatternKind,
}

/// An expression, as far as lowering a match reads it.
#[derive(Clone, Copy, PartialEq, Eq, Structural, Debug)]
pub struct Expr {
    pub stable_ptr: SyntaxStablePtrId,
    pub ty: TypeId,
    pub is_block: bool,
}

/// An arm of a match expression.
#[derive(PartialEq, Eq, Debug)]
pub struct MatchArm {
    pub patterns: Vec<PatternId>,
    pub expression: ExprId,
}

/// A match expression.
#[derive(PartialEq, Eq, Debug)]
pub struct ExprMatch {
    pub stable_ptr: SyntaxStablePtrId,
    pub matched_expr: ExprId,
    pub arms: Vec<MatchArm>,
}

/// The semantic model of a function body.
#[derive(Debug)]
pub struct SemanticModel {
    pub db: SemanticDb,
    pub patterns: Vec<Pattern>,
    pub exprs: Vec<Expr>,
}

impl SemanticModel {
    pub open spec fn has_pattern(&self, pattern: PatternId) -> bool {
        pattern.0 < self.patterns@.len()
    }

    pub open spec fn has_expr(&self, expr: ExprId) -> bool {
        expr.0 < self.exprs@.len()
    }

    /// What `pattern` matches.
    pub open spec fn kind(&self, pattern: PatternId) -> PatternKind {
        self.patterns@[pattern.0 as int].kind
    }

    /// Where `pattern` is written.
    pub open spec fn pattern_ptr(&self, pattern: PatternId) -> SyntaxStablePtrId {
        self.patterns@[pattern.0 as int].stable_ptr
    }

    /// A pattern refers to patterns that were known before it, and to variants that exist.
    pub open spec fn pattern_wf(&self, pattern: int) -> bool {
        match self.patterns@[pattern].kind {
            PatternKind::EnumVariant(p) => {
                &&& self.db.has_enum(p.variant.concrete_enum_id)
                &&& self.db.variants(p.variant.concrete_enum_id) matches Ok(variants)
                    ==> p.variant.idx < variants.len()
                &&& p.inner_pattern matches Some(inner) ==> inner.0 < pattern
            },
            PatternKind::Tuple(fields) => forall|i: int|
                0 <= i < fields@.len() ==> (#[trigger] fields@[i]).0 < pattern,
            _ => true,
        }
    }

    pub open spec fn wf(&self) -> bool {
        &&& self.db.wf()
        &&& forall|p: int| 0 <= p < self.patterns@.len() ==> #[trigger] self.pattern_wf(p)
        &&& forall|e: int|
            0 <= e < self.exprs@.len() ==> self.db.has_type((#[trigger] self.exprs@[e]).ty)
    }

    /// Whether `pattern` is a pattern on an enum variant.
    pub fn matches_enum(&self, pattern: PatternId) -> (r: bool)
        requires
            self.has_pattern(pattern),
        ensures
            r == (self.kind(pattern) is EnumVariant),
    {
        matches!(self.patterns[pattern.0].kind, PatternKind::EnumVariant(_))
    }

    /// Whether `pattern` is `_` or a variable.
    pub fn matches_other(&self, pattern: PatternId) -> (r: bool)
        requires
            self.has_pattern(pattern),
        ensures
            r == (self.kind(pattern) is Otherwise || self.kind(pattern) is Variable),
    {
        matches!(self.patterns[pattern.0].kind, PatternKind::Otherwise | PatternKind::Variable)
    }
}

/// Peeling takes off one snapshot after the other: a snapshot is one more around what it is a snapshot
/// of, and any other type is left as it is.
pub proof fn law_peeling_takes_off_all_snapshots(db: &SemanticDb, ty: TypeId)
    requires
        db.wf(),
        db.has_type(ty),
    ensures
        match db.types@[ty.0 as int].long_id {
            TypeLongId::Snapshot(inner) => db.peeled(ty).0 == db.peeled(inner).0 + 1 && db.peeled(
                ty,
            ).1 == db.peeled(inner).1 && db.peeled_enum(ty) == db.peeled_enum(inner),
            TypeLongId::Enum(e) => db.peeled(ty).0 == 0 && db.peeled(ty).1 == ty && db.peeled_enum(
                ty,
            ) == Some(e),
            _ => db.peeled(ty).0 == 0 && db.peeled(ty).1 == ty && db.peeled_enum(ty) is None,
        },
{
    assert(db.type_wf(ty.0 as int));
}

/// The variants of an enum are those that it is defined with.
pub proof fn law_variants_are_those_of_the_definition(db: &SemanticDb, e: ConcreteEnumId)
    requires
        db.has_enum(e),
    ensures
        match db.enums@[e.0 as int] {
            Ok(variants) => db.variants(e) == Ok::<_, DiagnosticAdded>(variants@)
                && db.variant_count(e) == variants@.len(),
            Err(_) => db.variants(e) is Err && db.variant_count(e) == 0,
        },
        forall|variant: ConcreteVariant|
            #![trigger db.variant_name(variant)]
            db.variant_name(variant) == db.variant_names@[variant.id.0 as int]@,
{
}

/// A literal is read in two's complement: a number without a sign byte is that of its bytes, each of
/// them worth as much as its place says, and the bits of the last byte tell the sign.
pub proof fn law_literals_are_in_twos_complement(bytes: Seq<u8>)
    requires
        bytes.len() > 0,
    ensures
        bytes.last() < 0x80 <==> 0 <= signed_value(bytes),
        bytes.last() < 0x80 ==> signed_value(bytes.push(0)) == signed_value(bytes),
        bytes.last() >= 0x80 ==> signed_value(bytes.push(0xff)) == signed_value(bytes),
        forall|byte: u8| #[trigger]
            signed_value(seq![byte] + bytes) == byte + 0x100 * signed_value(bytes),
        bytes.len() == 1 && bytes[0] < 0x80 ==> signed_value(bytes) == bytes[0],
        bytes.len() == 1 && bytes[0] >= 0x80 ==> signed_value(bytes) == bytes[0] - 0x100,
    decreases bytes.len(),
{
    assert forall|byte: u8| #[trigger] signed_value(seq![byte] + bytes) == byte + 0x100
        * signed_value(bytes) by {
        assert((seq![byte] + bytes).drop_first() =~= bytes);
    }
    if bytes.len() > 1 {
        let rest = bytes.drop_first();
        law_literals_are_in_twos_complement(rest);
        assert(rest.last() == bytes.last());
        assert(bytes.push(0).drop_first() =~= rest.push(0));
        assert(bytes.push(0xff).drop_first() =~= rest.push(0xff));
    } else {
        assert(bytes.push(0).drop_first() =~= seq![0u8]);
        assert(bytes.push(0xff).drop_first() =~= seq![0xffu8]);
        assert(signed_value(seq![0u8]) == 0);
        assert(signed_value(seq![0xffu8]) == -1);
    }
}

} // verus!

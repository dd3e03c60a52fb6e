//! Pattern paths, by the variants that they match.
use vstd::prelude::*;

use crate::match_arms::PatternPath;
use crate::semantic::ConcreteVariant;

verus! {

/// Represents a path in a match tree.
#[derive(PartialEq, Eq, Debug)]
pub struct MatchingPath {
    /// The variants per member of the tuple matched until this point.
    pub variants: Vec<ConcreteVariant>,
}

impl View for MatchingPath {
    type V = Seq<ConcreteVariant>;

    open spec fn view(&self) -> Seq<ConcreteVariant> {
        self.variants@
    }
}

impl MatchingPath {
    /// The same path.
    pub fn copied(&self) -> (r: Self)
        ensures
            r@ == self@,
    {
        let variants = self.variants.clone();
        assert(variants@ =~= self.variants@);
        MatchingPath { variants }
    }

    /// The empty path.
    pub fn new() -> (r: Self)
        ensures
            r@ == Seq::<ConcreteVariant>::empty(),
    {
        MatchingPath { variants: Vec::new() }
    }

    /// The path that goes on with `variant`.
    pub fn followed_by(&self, variant: ConcreteVariant) -> (r: Self)
        ensures
            r@ == self@.push(variant),
    {
        let mut variants = self.variants.clone();
        assert(variants@ =~= self.variants@);
        variants.push(variant);
        MatchingPath { variants }
    }

    /// Whether the two paths are equal.
    pub fn is_same(&self, other: &MatchingPath) -> (r: bool)
        ensures
            r == (self@ == other@),
    {
        if self.variants.len() != other.variants.len() {
            return false;
        }
        for i in 0..self.variants.len()
            invariant
                self@.len() == other@.len(),
                forall|k: int| 0 <= k < i ==> self@[k] == other@[k],
        {
            if self.variants[i] != other.variants[i] {
                return false;
            }
        }
        assert(self@ =~= other@);
        true
    }
}

/// The entries as a map.
pub open spec fn entries_map(entries: Seq<(MatchingPath, PatternPath)>) -> Map<
    Seq<ConcreteVariant>,
    PatternPath,
>
    decreases entries.len(),
{
    if entries.len() == 0 {
        Map::empty()
    } else {
        entries_map(entries.drop_last()).insert(entries.last().0@, entries.last().1)
    }
}

/// A map from paths of variants to pattern paths.
#[derive(PartialEq, Eq, Debug)]
pub struct VariantsMap {
    entries: Vec<(MatchingPath, PatternPath)>,
}

impl VariantsMap {
    /// The paths of variants that have an entry, each with its pattern path.
    pub closed spec fn view(&self) -> Map<Seq<ConcreteVariant>, PatternPath> {
        entries_map(self.entries@)
    }

    /// No path of variants has two entries.
    pub closed spec fn wf(&self) -> bool {
        forall|i: int, j: int|
            0 <= i < j < self.entries@.len() ==> (#[trigger] self.entries@[i]).0@ != (
            #[trigger] self.entries@[j]).0@
    }

    /// The map without entries.
    pub fn new() -> (r: Self)
        ensures
            r.wf(),
            r@ == Map::<Seq<ConcreteVariant>, PatternPath>::empty(),
    {
        VariantsMap { entries: Vec::new() }
    }

    /// The number of entries.
    pub fn len(&self) -> (r: usize)
        requires
            self.wf(),
        ensures
            self@.dom().finite(),
            r == self@.dom().len(),
    {
        proof {
            lemma_entries_map(self.entries@);
        }
        self.entries.len()
    }

    /// The entry of `path`, if it has one.
    pub fn get(&self, path: &MatchingPath) -> (r: Option<PatternPath>)
        requires
            self.wf(),
        ensures
            r == (if self@.dom().contains(path@) {
                Some(self@[path@])
            } else {
                None
            }),
    {
        proof {
            lemma_entries_map(self.entries@);
        }
        for i in 0..self.entries.len()
            invariant
                forall|k: int| 0 <= k < i ==> (#[trigger] self.entries@[k]).0@ != path@,
                forall|k: int|
                    0 <= k < self.entries@.len() ==> self@.dom().contains(
                        (#[trigger] self.entries@[k]).0@,
                    ) && self@[self.entries@[k].0@] == self.entries@[k].1,
        {
            if self.entries[i].0.is_same(path) {
                return Some(self.entries[i].1);
            }
        }
        None
    }

    /// Gives `path` the entry `pattern_path`, unless it has one.
    pub fn insert_if_vacant(&mut self, path: MatchingPath, pattern_path: PatternPath)
        requires
            old(self).wf(),
        ensures
            final(self).wf(),
            final(self)@ == (if old(self)@.dom().contains(path@) {
                old(self)@
            } else {
                old(self)@.insert(path@, pattern_path)
            }),
    {
        match self.get(&path) {
            Some(_) => {},
            None => {
                let ghost before = self.entries@;
                self.entries.push((path, pattern_path));
                proof {
                    lemma_entries_map(before);
                    assert(self.entries@.drop_last() =~= before);
                    assert forall|i: int, j: int| 0 <= i < j < self.entries@.len() implies (
                    #[trigger] self.entries@[i]).0@ != (#[trigger] self.entries@[j]).0@ by {
                        assert(entries_map(before).dom().contains(before[i].0@));
                    }
                }
            },
        }
    }
}

/// The entries of a map are its entries, and there are as many.
proof fn lemma_entries_map(entries: Seq<(MatchingPath, PatternPath)>)
    requires
        forall|i: int, j: int|
            0 <= i < j < entries.len() ==> (#[trigger] entries[i]).0@ != (
            #[trigger] entries[j]).0@,
    ensures
        entries_map(entries).dom().finite(),
        entries_map(entries).dom().len() == entries.len(),
        forall|k: int|
            0 <= k < entries.len() ==> entries_map(entries).dom().contains(
                (#[trigger] entries[k]).0@,
            ) && entries_map(entries)[entries[k].0@] == entries[k].1,
        forall|path: Seq<ConcreteVariant>| #[trigger]
            entries_map(entries).dom().contains(path) ==> exists|k: int|
                0 <= k < entries.len() && (#[trigger] entries[k]).0@ == path,
    decreases entries.len(),
{
    if entries.len() > 0 {
        let before = entries.drop_last();
        lemma_entries_map(before);
        let last = entries.last().0@;
        assert(entries.last() == entries[entries.len() - 1]);
        if entries_map(before).dom().contains(last) {
            let k = choose|k: int| 0 <= k < before.len() && (#[trigger] before[k]).0@ == last;
            assert(entries[k].0@ != entries[entries.len() - 1].0@);
        }
        assert forall|k: int| 0 <= k < entries.len() implies entries_map(entries).dom().contains(
            (#[trigger] entries[k]).0@,
        ) && entries_map(entries)[entries[k].0@] == entries[k].1 by {
            if k < before.len() {
                assert(entries[k] == before[k]);
            }
        }
        assert forall|path: Seq<ConcreteVariant>| #[trigger]
            entries_map(entries).dom().contains(path) implies exists|k: int|
            0 <= k < entries.len() && (#[trigger] entries[k]).0@ == path by {
            if path != last {
                let k = choose|k: int| 0 <= k < before.len() && (#[trigger] before[k]).0@ == path;
                assert(entries[k].0@ == path);
            }
        }
    }
}

} // verus!

//! Compact per-entity identifiers, and the name table that assigns them.
//!
//! Site names live only at the boundary: internally every structure indexes
//! by a small integer identifier. [`IdConverter`] is the arena-style mapping
//! built once at construction; it rejects duplicate names and resolves each
//! known name to its identifier.

use vstd::prelude::*;
use crate::error::WorldError;

verus! {

/// A compact identifier backed by a small integer.
pub trait InternalId: Sized + Copy {
    /// How many distinct identifiers this type can represent.
    spec fn id_limit() -> int;

    /// The integer value of this identifier.
    spec fn spec_id(self) -> int;

    /// Every identifier's value lies within the type's range.
    proof fn lemma_id_bounds(self)
        ensures
            0 <= self.spec_id() < Self::id_limit(),
    ;

    /// The identifier as an index.
    fn as_usize(self) -> (i: usize)
        ensures
            i == self.spec_id(),
            0 <= i < Self::id_limit(),
    ;

    /// The identifier for a given index.
    fn from_usize(i: usize) -> (r: Self)
        requires
            i < Self::id_limit(),
        ensures
            r.spec_id() == i,
    ;
}

/// The identifier of a site: its position in the world's site list.
#[derive(Debug, Clone, Copy, PartialEq, Eq, Structural)]
pub struct SiteId {
    idx: u8,
}

impl SiteId {
    /// Whether two identifiers denote the same site.
    pub fn same_as(self, other: SiteId) -> (r: bool)
        ensures
            r == (self.spec_id() == other.spec_id()),
    {
        self.idx == other.idx
    }
}

/// An identifier is determined by its integer value.
pub proof fn lemma_site_id_determined(a: SiteId, b: SiteId)
    requires
        a.spec_id() == b.spec_id(),
    ensures
        a == b,
{
}

impl InternalId for SiteId {
    open spec fn id_limit() -> int {
        256
    }

    closed spec fn spec_id(self) -> int {
        self.idx as int
    }

    proof fn lemma_id_bounds(self) {
    }

    fn as_usize(self) -> (i: usize) {
        self.idx as usize
    }

    fn from_usize(i: usize) -> (r: Self) {
        SiteId { idx: i as u8 }
    }
}

/// Whether the sequences in `s` are pairwise distinct.
pub open spec fn names_distinct(s: Seq<Seq<char>>) -> bool {
    forall|i: int, j: int| 0 <= i < j < s.len() ==> s[i] != s[j]
}

/// A table assigning one identifier to each of a list of unique names.
#[derive(Debug, Clone)]
pub struct IdConverter<ID> {
    entries: Vec<(String, ID)>,
}

impl<ID: InternalId> IdConverter<ID> {
    /// The names held, in identifier order.
    pub closed spec fn names(self) -> Seq<Seq<char>> {
        self.entries@.map_values(|p: (String, ID)| p.0@)
    }

    /// Each entry's identifier equals its position.
    pub closed spec fn ids_positional(self) -> bool {
        forall|i: int|
            0 <= i < self.entries@.len() ==> (#[trigger] self.entries@[i].1).spec_id() == i
    }

    /// Well-formedness: distinct names, positional identifiers.
    pub open spec fn wf(self) -> bool {
        &&& names_distinct(self.names())
        &&& self.ids_positional()
    }

    /// Builds the table, assigning identifiers in order of appearance and
    /// rejecting duplicate names.
    pub fn new(names: &Vec<String>) -> (r: Result<IdConverter<ID>, WorldError>)
        requires
            names@.len() <= ID::id_limit(),
        ensures
            r matches Ok(c) ==> {
                &&& c.wf()
                &&& c.names() == names@.map_values(|n: String| n@)
            },
            r is Ok <==> names_distinct(names@.map_values(|n: String| n@)),
            r matches Err(e) ==> e == WorldError::DuplicateSiteName,
    {
        let ghost target = names@.map_values(|n: String| n@);
        let mut entries: Vec<(String, ID)> = Vec::new();
        let n = names.len();
        for i in 0..n
            invariant
                n == names@.len() <= ID::id_limit(),
                target == names@.map_values(|n: String| n@),
                entries@.len() == i,
                forall|j: int| 0 <= j < i ==> (#[trigger] entries@[j]).0@ == target[j],
                forall|j: int| 0 <= j < i ==> (#[trigger] entries@[j]).1.spec_id() == j,
                forall|j: int, k: int| 0 <= j < k < i ==> target[j] != target[k],
        {
            let mut j: usize = 0;
            while j < i
                invariant
                    j <= i < n == names@.len(),
                    target == names@.map_values(|n: String| n@),
                    forall|k: int| 0 <= k < j ==> target[k] != target[i as int],
                decreases i - j,
            {
                if names[j].eq(&names[i]) {
                    proof {
                        assert(target[j as int] == names@[j as int]@);
                        assert(target[i as int] == names@[i as int]@);
                        assert(!names_distinct(target));
                    }
                    return Err(WorldError::DuplicateSiteName);
                }
                j += 1;
            }
            let id = ID::from_usize(i);
            let name = names[i].clone();
            entries.push((name, id));
        }
        Ok(IdConverter { entries })
    }

    /// Resolves a name to its identifier, failing on unknown names.
    pub fn get(&self, name: &str) -> (r: Result<ID, WorldError>)
        requires
            self.wf(),
        ensures
            r matches Ok(id) ==> {
                &&& 0 <= id.spec_id() < self.names().len()
                &&& self.names()[id.spec_id()] == name@
            },
            r is Ok <==> exists|i: int| 0 <= i < self.names().len() && self.names()[i] == name@,
            r matches Err(e) ==> e == WorldError::UnknownSiteName,
    {
        let owned: String = name.to_owned();
        let n = self.entries.len();
        for i in 0..n
            invariant
                n == self.entries@.len(),
                owned@ == name@,
                self.wf(),
                forall|k: int| 0 <= k < i ==> self.names()[k] != name@,
        {
            if self.entries[i].0.eq(&owned) {
                assert(self.names()[i as int] == name@);
                return Ok(self.entries[i].1);
            }
        }
        Err(WorldError::UnknownSiteName)
    }

    /// How many names the table holds.
    pub fn len(&self) -> (n: usize)
        ensures
            n == self.names().len(),
    {
        self.entries.len()
    }
}

} // verus!

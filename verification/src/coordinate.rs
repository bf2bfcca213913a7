//! Coordinates of events, and the regions that queries select.

use crate::event::EventKind;
use crate::text::bytes_start_with;
use vstd::prelude::*;

verus! {

/// Why a coordinate was refused.
#[derive(Clone, Copy, Debug, PartialEq, Eq, Structural)]
pub enum CoordinateError {
    /// The entity string is empty.
    EmptyEntity,
    /// The scope string is empty.
    EmptyScope,
}

/// Where an event lives: an entity inside a scope.
#[derive(Debug, PartialEq, Eq)]
pub struct Coordinate {
    entity: String,
    scope: String,
}

impl Coordinate {
    /// The entity of this coordinate.
    pub closed spec fn entity_spec(&self) -> Seq<char> {
        self.entity@
    }

    /// The scope of this coordinate.
    pub closed spec fn scope_spec(&self) -> Seq<char> {
        self.scope@
    }

    /// Build a coordinate. Neither part may be empty.
    pub fn new(entity: &str, scope: &str) -> (r: Result<Coordinate, CoordinateError>)
        ensures
            r is Ok <==> entity@.len() > 0 && scope@.len() > 0,
            r matches Ok(c) ==> c.entity_spec() == entity@ && c.scope_spec() == scope@,
            r == Err::<Coordinate, _>(CoordinateError::EmptyEntity) <==> entity@.len() == 0,
            r == Err::<Coordinate, _>(CoordinateError::EmptyScope) <==> entity@.len() > 0
                && scope@.len() == 0,
    {
        if entity.is_empty() {
            return Err(CoordinateError::EmptyEntity);
        }
        if scope.is_empty() {
            return Err(CoordinateError::EmptyScope);
        }
        Ok(Coordinate { entity: entity.to_owned(), scope: scope.to_owned() })
    }

    /// Entity string.
    pub fn entity(&self) -> (s: &str)
        ensures
            s@ == self.entity_spec(),
    {
        self.entity.as_str()
    }

    /// Scope string.
    pub fn scope(&self) -> (s: &str)
        ensures
            s@ == self.scope_spec(),
    {
        self.scope.as_str()
    }
}

impl Clone for Coordinate {
    fn clone(&self) -> (r: Coordinate)
        ensures
            r == *self,
    {
        Coordinate { entity: self.entity.clone(), scope: self.scope.clone() }
    }
}

/// Which event kinds a region admits.
#[derive(Clone, Copy, Debug, PartialEq, Eq, Structural)]
pub enum KindFilter {
    /// One kind.
    Exact(EventKind),
    /// Every kind of one category.
    Category(u8),
    /// Every kind.
    Any,
}

impl KindFilter {
    /// Whether a kind passes the filter.
    pub open spec fn admits_spec(&self, kind: EventKind) -> bool {
        match self {
            KindFilter::Exact(k) => kind == *k,
            KindFilter::Category(c) => kind.category_spec() == *c,
            KindFilter::Any => true,
        }
    }

    /// Whether `kind` passes the filter.
    pub fn admits(&self, kind: EventKind) -> (r: bool)
        ensures
            r == self.admits_spec(kind),
    {
        match self {
            KindFilter::Exact(k) => kind == *k,
            KindFilter::Category(c) => kind.category() == *c,
            KindFilter::Any => true,
        }
    }
}

/// A query region: the conjunction of its filters.
#[derive(Clone, Debug)]
pub struct Region {
    /// Entities whose string starts with this prefix.
    pub entity_prefix: Option<String>,
    /// Events of exactly this scope.
    pub scope: Option<String>,
    /// Events whose kind passes this filter.
    pub fact: Option<KindFilter>,
    /// Events whose clock lies in this closed range.
    pub clock_range: Option<(u32, u32)>,
    /// Events of this lane.
    pub lane: Option<u32>,
}

impl Region {
    /// Whether an entity passes the entity filter.
    pub open spec fn entity_ok(&self, entity: Seq<char>) -> bool {
        match self.entity_prefix {
            Some(prefix) => crate::text::utf8(prefix@).is_prefix_of(crate::text::utf8(entity)),
            None => true,
        }
    }

    /// Whether a scope passes the scope filter.
    pub open spec fn scope_ok(&self, scope: Seq<char>) -> bool {
        match self.scope {
            Some(wanted) => wanted@ == scope,
            None => true,
        }
    }

    /// Whether a kind passes the kind filter.
    pub open spec fn kind_ok(&self, kind: EventKind) -> bool {
        match self.fact {
            Some(fact) => fact.admits_spec(kind),
            None => true,
        }
    }

    /// Whether a clock passes the clock filter.
    pub open spec fn clock_ok(&self, clock: u32) -> bool {
        match self.clock_range {
            Some(range) => range.0 <= clock <= range.1,
            None => true,
        }
    }

    /// The region that admits everything.
    pub fn all() -> (region: Region)
        ensures
            region.entity_prefix is None,
            region.scope is None,
            region.fact is None,
            region.clock_range is None,
            region.lane is None,
    {
        Region { entity_prefix: None, scope: None, fact: None, clock_range: None, lane: None }
    }

    /// The region of one entity prefix.
    pub fn entity(prefix: &str) -> (region: Region)
        ensures
            region.entity_prefix matches Some(p) && p@ == prefix@,
            region.scope is None,
            region.fact is None,
            region.clock_range is None,
            region.lane is None,
    {
        Region {
            entity_prefix: Some(prefix.to_owned()),
            scope: None,
            fact: None,
            clock_range: None,
            lane: None,
        }
    }

    /// The region of one scope.
    pub fn scope(scope: &str) -> (region: Region)
        ensures
            region.entity_prefix is None,
            region.scope matches Some(s) && s@ == scope@,
            region.fact is None,
            region.clock_range is None,
            region.lane is None,
    {
        Region {
            entity_prefix: None,
            scope: Some(scope.to_owned()),
            fact: None,
            clock_range: None,
            lane: None,
        }
    }

    /// This region, restricted to kinds that pass `fact`.
    pub fn with_fact(self, fact: KindFilter) -> (region: Region)
        ensures
            region == (Region { fact: Some(fact), ..self }),
    {
        Region {
            entity_prefix: self.entity_prefix,
            scope: self.scope,
            fact: Some(fact),
            clock_range: self.clock_range,
            lane: self.lane,
        }
    }

    /// This region, restricted to one lane.
    pub fn with_lane(self, lane: u32) -> (region: Region)
        ensures
            region == (Region { lane: Some(lane), ..self }),
    {
        Region {
            entity_prefix: self.entity_prefix,
            scope: self.scope,
            fact: self.fact,
            clock_range: self.clock_range,
            lane: Some(lane),
        }
    }

    /// This region, restricted to clocks in `[min, max]`.
    pub fn with_clock_range(self, min: u32, max: u32) -> (region: Region)
        ensures
            region == (Region { clock_range: Some((min, max)), ..self }),
    {
        Region {
            entity_prefix: self.entity_prefix,
            scope: self.scope,
            fact: self.fact,
            clock_range: Some((min, max)),
            lane: self.lane,
        }
    }

    /// Whether `entity` passes the entity filter.
    pub fn matches_entity(&self, entity: &str) -> (r: bool)
        ensures
            r == self.entity_ok(entity@),
    {
        match &self.entity_prefix {
            Some(prefix) => bytes_start_with(entity.as_bytes(), prefix.as_str().as_bytes()),
            None => true,
        }
    }
}

/// A filter lets through its own kind, every kind of its category, or everything.
pub proof fn law_filter_lets_its_kinds_through(filter: KindFilter, kind: EventKind, r: bool)
    requires
        call_ensures(KindFilter::admits, (&filter, kind), r),
    ensures
        filter matches KindFilter::Exact(wanted) ==> (r <==> kind.raw() == wanted.raw()),
        filter matches KindFilter::Category(category) ==> (r <==> kind.raw() / 4096
            == category as u16),
        filter is Any ==> r,
{
    assert(kind.raw() / 4096 < 16);
    if let KindFilter::Exact(wanted) = filter {
        crate::event::law_kind_is_category_and_type(kind, wanted);
    }
}

/// A region lets through the entities whose bytes start with those of its prefix,
/// and all of them where it has none.
pub proof fn law_region_goes_by_the_front_of_the_entity(region: &Region, entity: &str, r: bool)
    requires
        call_ensures(Region::matches_entity, (region, entity), r),
    ensures
        region.entity_prefix is None ==> r,
        region.entity_prefix matches Some(prefix) ==> (r <==> crate::text::utf8(prefix@).len()
            <= crate::text::utf8(entity@).len() && forall|i: int|
            0 <= i < crate::text::utf8(prefix@).len() ==> #[trigger] crate::text::utf8(prefix@)[i]
                == crate::text::utf8(entity@)[i]),
{
    if let Some(prefix) = region.entity_prefix {
        let a = crate::text::utf8(prefix@);
        let b = crate::text::utf8(entity@);
        if a.len() <= b.len() && (forall|i: int| 0 <= i < a.len() ==> #[trigger] a[i] == b[i]) {
            assert(a =~= b.subrange(0, a.len() as int));
        }
        if a.is_prefix_of(b) {
            assert forall|i: int| 0 <= i < a.len() implies #[trigger] a[i] == b[i] by {
                assert(a[i] == b.subrange(0, a.len() as int)[i]);
            }
        }
    }
}

} // verus!

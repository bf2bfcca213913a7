//! Runners of projections under names: who knows only a name can ask for a
//! report.

use super::flow::Freshness;
use super::run_evidence::{ProjectionRunEvidenceReport, ProjectionRunReportError};
use crate::text::{bytes_precede, str_equal};
use vstd::prelude::*;

verus! {

/// Runs one projection and reports on the run.
pub trait ProjectionEvidenceRunner {
    /// Runs the projection of an entity.
    fn run(&self, entity: &str, freshness: &Freshness) -> Result<
        ProjectionRunEvidenceReport,
        ProjectionRunReportError,
    >;
}

/// One runner under its name.
struct Registered<R> {
    name: String,
    runner: R,
}

/// Runners under names, in ascending order of names.
pub struct ProjectionEvidenceRegistry<R> {
    rows: Vec<Registered<R>>,
}

/// A name comes before another, by bytes.
pub open spec fn name_before(a: Seq<char>, b: Seq<char>) -> bool {
    crate::text::bytes_before(crate::text::utf8(a), crate::text::utf8(b))
}

/// Names in ascending order, none twice.
pub open spec fn names_ascend(names: Seq<Seq<char>>) -> bool {
    forall|i: int, j: int|
        #![trigger names[i], names[j]]
        0 <= i < j < names.len() ==> name_before(names[i], names[j])
}

impl<R> ProjectionEvidenceRegistry<R> {
    /// The names, in order.
    pub closed spec fn names(&self) -> Seq<Seq<char>> {
        self.rows@.map_values(|row: Registered<R>| row.name@)
    }

    /// The runners, in order of their names.
    pub closed spec fn in_order(&self) -> Seq<R> {
        self.rows@.map_values(|row: Registered<R>| row.runner)
    }

    /// The names ascend.
    pub open spec fn wf(&self) -> bool {
        names_ascend(self.names()) && self.names().len() == self.in_order().len()
    }

    /// A runner is registered under a name.
    pub open spec fn has(&self, name: Seq<char>, runner: R) -> bool {
        exists|i: int|
            0 <= i < self.names().len() && (#[trigger] self.names()[i]) == name
                && self.in_order()[i] == runner
    }

    /// No runners.
    pub fn new() -> (r: ProjectionEvidenceRegistry<R>)
        ensures
            r.wf(),
            r.names().len() == 0,
    {
        ProjectionEvidenceRegistry { rows: Vec::new() }
    }

    /// First position whose name does not come before a name.
    fn position(&self, name: &str) -> (at: usize)
        requires
            self.wf(),
        ensures
            at <= self.rows@.len(),
            forall|i: int| 0 <= i < at ==> name_before(#[trigger] self.names()[i], name@),
            forall|i: int|
                at < i < self.names().len() ==> name_before(name@, #[trigger] self.names()[i]),
            at < self.rows@.len() ==> self.names()[at as int] == name@ || name_before(
                name@,
                self.names()[at as int],
            ),
    {
        let mut at: usize = 0;
        while at < self.rows.len() && bytes_precede(
            self.rows[at].name.as_str().as_bytes(),
            name.as_bytes(),
        )
            invariant
                at <= self.rows@.len(),
                forall|i: int| 0 <= i < at ==> name_before(#[trigger] self.names()[i], name@),
            decreases self.rows@.len() - at,
        {
            assert(self.names()[at as int] == self.rows@[at as int].name@);
            at += 1;
        }
        proof {
            if at < self.rows@.len() {
                let here = self.names()[at as int];
                assert(here == self.rows@[at as int].name@);
                crate::text::lemma_bytes_before_total(
                    crate::text::utf8(here),
                    crate::text::utf8(name@),
                );
                if crate::text::utf8(here) == crate::text::utf8(name@) {
                    crate::text::law_utf8_injective(here, name@);
                }
                assert forall|i: int| at < i < self.names().len() implies name_before(
                    name@,
                    #[trigger] self.names()[i],
                ) by {
                    assert(name_before(self.names()[at as int], self.names()[i]));
                    if here != name@ {
                        crate::text::lemma_bytes_before_transitive(
                            crate::text::utf8(name@),
                            crate::text::utf8(here),
                            crate::text::utf8(self.names()[i]),
                        );
                    }
                }
            }
        }
        at
    }

    /// Registers a runner under a name, in place of one that was there.
    pub fn register(&mut self, name: &str, runner: R)
        requires
            old(self).wf(),
        ensures
            final(self).wf(),
            final(self).has(name@, runner),
            forall|other: Seq<char>, r: R|
                other != name@ ==> (#[trigger] final(self).has(other, r) <==> old(self).has(
                    other,
                    r,
                )),
            forall|r: R| #[trigger] final(self).has(name@, r) ==> r == runner,
            final(self).names().len() == old(self).names().len() + (if old(self).names().contains(
                name@,
            ) {
                0int
            } else {
                1int
            }),
    {
        let ghost (names, order) = (self.names(), self.in_order());
        let at = self.position(name);
        let row = Registered { name: name.to_owned(), runner };
        if at < self.rows.len() && str_equal(self.rows[at].name.as_str(), name) {
            assert(names[at as int] == name@);
            self.rows.set(at, row);
            proof {
                assert(self.names() =~= names);
                assert(self.in_order() =~= order.update(at as int, runner));
                assert(self.names()[at as int] == name@);
                assert forall|other: Seq<char>, r: R| other != name@ implies (
                #[trigger] self.has(other, r) <==> old(self).has(other, r)) by {
                    if old(self).has(other, r) {
                        let i = choose|i: int|
                            0 <= i < names.len() && (#[trigger] names[i]) == other && order[i] == r;
                        assert(self.names()[i] == other);
                    }
                    if self.has(other, r) {
                        let i = choose|i: int|
                            0 <= i < self.names().len() && (#[trigger] self.names()[i]) == other
                                && self.in_order()[i] == r;
                        assert(names[i] == other);
                    }
                }
                assert forall|r: R| #[trigger] self.has(name@, r) implies r == runner by {
                    let i = choose|i: int|
                        0 <= i < self.names().len() && (#[trigger] self.names()[i]) == name@
                            && self.in_order()[i] == r;
                    lemma_name_once(names, i, at as int);
                }
            }
        } else {
            proof {
                if at < names.len() {
                    assert(self.rows@[at as int].name@ == names[at as int]);
                }
                assert(!names.contains(name@)) by {
                    if names.contains(name@) {
                        let i = choose|i: int| 0 <= i < names.len() && names[i] == name@;
                        crate::text::lemma_bytes_before_irreflexive(crate::text::utf8(name@));
                    }
                }
            }
            self.rows.insert(at, row);
            proof {
                assert(self.names() =~= names.insert(at as int, name@));
                assert(self.in_order() =~= order.insert(at as int, runner));
                let after = self.names();
                assert(after[at as int] == name@);
                assert forall|i: int, j: int|
                    #![trigger after[i], after[j]]
                    0 <= i < j < after.len() implies name_before(after[i], after[j]) by {
                    if j < at {
                        assert(name_before(names[i], names[j]));
                    } else if i > at {
                        assert(name_before(names[i - 1], names[j - 1]));
                    } else if i < at && j > at {
                        assert(name_before(names[i], names[j - 1]));
                    } else if j == at {
                        assert(name_before(names[i], name@));
                    } else {
                        assert(name_before(name@, names[j - 1]));
                    }
                }
                assert forall|other: Seq<char>, r: R| other != name@ implies (
                #[trigger] self.has(other, r) <==> old(self).has(other, r)) by {
                    if old(self).has(other, r) {
                        let i = choose|i: int|
                            0 <= i < names.len() && (#[trigger] names[i]) == other && order[i] == r;
                        if i < at {
                            assert(after[i] == other);
                        } else {
                            assert(after[i + 1] == other);
                        }
                    }
                    if self.has(other, r) {
                        let i = choose|i: int|
                            0 <= i < after.len() && (#[trigger] after[i]) == other
                                && self.in_order()[i] == r;
                        if i < at {
                            assert(names[i] == other);
                        } else {
                            assert(names[i - 1] == other);
                        }
                    }
                }
                assert forall|r: R| #[trigger] self.has(name@, r) implies r == runner by {
                    let i = choose|i: int|
                        0 <= i < after.len() && (#[trigger] after[i]) == name@
                            && self.in_order()[i] == r;
                    lemma_name_once(after, i, at as int);
                }
            }
        }
    }

    /// Whether a runner is registered under a name.
    pub fn contains(&self, name: &str) -> (r: bool)
        requires
            self.wf(),
        ensures
            r == self.names().contains(name@),
    {
        let at = self.position(name);
        if at < self.rows.len() && str_equal(self.rows[at].name.as_str(), name) {
            assert(self.names()[at as int] == name@);
            true
        } else {
            proof {
                if at < self.names().len() {
                    assert(self.rows@[at as int].name@ == self.names()[at as int]);
                }
                if self.names().contains(name@) {
                    let i = choose|i: int| 0 <= i < self.names().len() && self.names()[i] == name@;
                    crate::text::lemma_bytes_before_irreflexive(crate::text::utf8(name@));
                }
            }
            false
        }
    }

    /// The runner under a name.
    pub fn runner(&self, name: &str) -> (r: Option<&R>)
        requires
            self.wf(),
        ensures
            match r {
                Some(runner) => self.has(name@, *runner),
                None => !self.names().contains(name@),
            },
    {
        if self.contains(name) {
            let at = self.position(name);
            proof {
                let i = choose|i: int| 0 <= i < self.names().len() && self.names()[i] == name@;
                crate::text::lemma_bytes_before_irreflexive(crate::text::utf8(name@));
                assert(i == at);
                assert(self.names()[at as int] == name@);
                assert(self.in_order()[at as int] == self.rows@[at as int].runner);
            }
            Some(&self.rows[at].runner)
        } else {
            None
        }
    }

    /// The names in ascending order.
    pub fn projection_ids(&self) -> (ids: Vec<&str>)
        requires
            self.wf(),
        ensures
            ids@.map_values(|id: &str| id@) == self.names(),
    {
        let mut ids: Vec<&str> = Vec::new();
        let ghost text = |id: &str| id@;
        let mut i: usize = 0;
        assert(ids@.map_values(text) =~= self.names().take(0));
        while i < self.rows.len()
            invariant
                i <= self.rows@.len(),
                text == |id: &str| id@,
                ids@.map_values(text) == self.names().take(i as int),
            decreases self.rows@.len() - i,
        {
            let ghost before = ids@;
            let id = self.rows[i].name.as_str();
            ids.push(id);
            assert(id@ == self.names()[i as int]);
            assert(self.names().take(i + 1) =~= self.names().take(i as int).push(id@));
            assert(ids@.map_values(text) =~= before.map_values(text).push(text(id)));
            i += 1;
            assert(ids@.map_values(text) =~= self.names().take(i as int));
        }
        assert(self.names().take(self.names().len() as int) =~= self.names());
        ids
    }
}

/// A name stands at one place.
proof fn lemma_name_once(names: Seq<Seq<char>>, i: int, j: int)
    requires
        names_ascend(names),
        0 <= i < names.len(),
        0 <= j < names.len(),
        names[i] == names[j],
    ensures
        i == j,
{
    crate::text::lemma_bytes_before_irreflexive(crate::text::utf8(names[i]));
    if i < j {
        assert(name_before(names[i], names[j]));
    } else if j < i {
        assert(name_before(names[j], names[i]));
    }
}

impl<R: ProjectionEvidenceRunner> ProjectionEvidenceRegistry<R> {
    /// Runs the projection under a name, where one is registered.
    pub fn run(&self, name: &str, entity: &str, freshness: &Freshness) -> (r: Option<
        Result<ProjectionRunEvidenceReport, ProjectionRunReportError>,
    >)
        requires
            self.wf(),
        ensures
            match r {
                Some(report) => exists|runner: R|
                    #![trigger self.has(name@, runner)]
                    self.has(name@, runner) && call_ensures(
                        R::run,
                        (&runner, entity, freshness),
                        report,
                    ),
                None => !self.names().contains(name@),
            },
    {
        match self.runner(name) {
            Some(runner) => Some(runner.run(entity, freshness)),
            None => None,
        }
    }
}

} // verus!

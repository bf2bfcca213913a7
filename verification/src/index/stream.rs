//! Rows in clock-key order, and the hits that a query picks from rows.

use super::entry::{IndexEntry, QueryHit};
use crate::event::EventKind;
use crate::text::str_equal;
use std::sync::Arc;
use vstd::prelude::*;

verus! {

/// What a scan looks for.
#[derive(Clone, Copy, Debug)]
pub enum EntryQuery<'a> {
    /// Events of one kind.
    Kind(EventKind),
    /// Events of one category.
    Category(u8),
    /// Events of one scope.
    Scope(&'a str),
}

impl<'a> EntryQuery<'a> {
    /// The query admits an entry.
    pub open spec fn admits_spec(&self, entry: &IndexEntry) -> bool {
        match self {
            EntryQuery::Kind(kind) => entry.kind == *kind,
            EntryQuery::Category(category) => entry.kind.category_spec() == *category,
            EntryQuery::Scope(scope) => entry.coord.scope_spec() == scope@,
        }
    }

    /// Whether the query admits `entry`.
    pub fn admits(&self, entry: &IndexEntry) -> (r: bool)
        ensures
            r == self.admits_spec(entry),
    {
        match self {
            EntryQuery::Kind(kind) => entry.kind == *kind,
            EntryQuery::Category(category) => entry.kind.category() == *category,
            EntryQuery::Scope(scope) => str_equal(entry.coord.scope(), scope),
        }
    }
}

/// The hits of rows, in order.
pub open spec fn hits(rows: Seq<Arc<IndexEntry>>) -> Seq<QueryHit> {
    rows.map_values(|e: Arc<IndexEntry>| e.hit())
}

/// The hits of the rows that a query admits, in order.
pub open spec fn matching(rows: Seq<Arc<IndexEntry>>, query: EntryQuery) -> Seq<QueryHit> {
    hits(rows.filter(|e: Arc<IndexEntry>| query.admits_spec(&e)))
}

/// Matches of one more row.
pub proof fn lemma_matching_push(
    rows: Seq<Arc<IndexEntry>>,
    row: Arc<IndexEntry>,
    query: EntryQuery,
)
    ensures
        matching(rows.push(row), query) == (if query.admits_spec(&row) {
            matching(rows, query).push(row.hit())
        } else {
            matching(rows, query)
        }),
{
    reveal(Seq::filter);
    assert(rows.push(row).drop_last() =~= rows);
    let f = |e: Arc<IndexEntry>| query.admits_spec(&e);
    if query.admits_spec(&row) {
        assert(hits(rows.filter(f).push(row)) =~= hits(rows.filter(f)).push(row.hit()));
    }
}

/// Matches of two stretches of rows.
pub proof fn lemma_matching_add(
    a: Seq<Arc<IndexEntry>>,
    b: Seq<Arc<IndexEntry>>,
    query: EntryQuery,
)
    ensures
        matching(a + b, query) == matching(a, query) + matching(b, query),
{
    let f = |e: Arc<IndexEntry>| query.admits_spec(&e);
    Seq::filter_distributes_over_add(a, b, f);
    assert(matching(a + b, query) =~= matching(a, query) + matching(b, query));
}

/// Rows that a query does not admit have no matches.
pub proof fn lemma_matching_none(rows: Seq<Arc<IndexEntry>>, query: EntryQuery)
    requires
        forall|i: int| 0 <= i < rows.len() ==> !query.admits_spec(&#[trigger] rows[i]),
    ensures
        matching(rows, query) == Seq::<QueryHit>::empty(),
    decreases rows.len(),
{
    reveal(Seq::filter);
    if rows.len() > 0 {
        assert forall|i: int| 0 <= i < rows.len() - 1 implies !query.admits_spec(
            &#[trigger] rows.drop_last()[i],
        ) by {
            assert(rows.drop_last()[i] == rows[i]);
        }
        lemma_matching_none(rows.drop_last(), query);
    }
    assert(matching(rows, query) =~= Seq::<QueryHit>::empty());
}

/// Rows that a query admits all match.
pub proof fn lemma_matching_all(rows: Seq<Arc<IndexEntry>>, query: EntryQuery)
    requires
        forall|i: int| 0 <= i < rows.len() ==> query.admits_spec(&#[trigger] rows[i]),
    ensures
        matching(rows, query) == hits(rows),
    decreases rows.len(),
{
    reveal(Seq::filter);
    if rows.len() > 0 {
        assert forall|i: int| 0 <= i < rows.len() - 1 implies query.admits_spec(
            &#[trigger] rows.drop_last()[i],
        ) by {
            assert(rows.drop_last()[i] == rows[i]);
        }
        lemma_matching_all(rows.drop_last(), query);
        lemma_matching_push(rows.drop_last(), rows.last(), query);
        assert(rows.drop_last().push(rows.last()) =~= rows);
        assert(hits(rows) =~= hits(rows.drop_last()).push(rows.last().hit()));
    } else {
        assert(matching(rows, query) =~= hits(rows));
    }
}

/// A hit matches exactly where a row does.
pub proof fn lemma_matching_contains(
    rows: Seq<Arc<IndexEntry>>,
    query: EntryQuery,
    hit: QueryHit,
)
    ensures
        matching(rows, query).contains(hit) <==> exists|i: int|
            0 <= i < rows.len() && query.admits_spec(&#[trigger] rows[i]) && rows[i].hit() == hit,
    decreases rows.len(),
{
    if rows.len() > 0 {
        let head = rows.drop_last();
        let last = rows.last();
        assert(head.push(last) =~= rows);
        lemma_matching_contains(head, query, hit);
        lemma_matching_push(head, last, query);
        let m = matching(head, query);
        if matching(rows, query).contains(hit) {
            let k = choose|k: int|
                0 <= k < matching(rows, query).len() && matching(rows, query)[k] == hit;
            if k < m.len() {
                assert(m[k] == hit);
                let i = choose|i: int|
                    0 <= i < head.len() && query.admits_spec(&#[trigger] head[i]) && head[i].hit()
                        == hit;
                assert(rows[i] == head[i]);
            } else {
                assert(rows[rows.len() - 1] == last);
            }
        }
        if exists|i: int|
            0 <= i < rows.len() && query.admits_spec(&#[trigger] rows[i]) && rows[i].hit()
                == hit {
            let i = choose|i: int|
                0 <= i < rows.len() && query.admits_spec(&#[trigger] rows[i]) && rows[i].hit()
                    == hit;
            if i < head.len() {
                assert(head[i] == rows[i]);
                assert(m.contains(hit));
                let k = choose|k: int| 0 <= k < m.len() && m[k] == hit;
                assert(matching(rows, query)[k] == hit);
            } else {
                assert(matching(rows, query).last() == hit);
            }
        }
    } else {
        reveal(Seq::filter);
        assert(matching(rows, query) =~= Seq::<QueryHit>::empty());
    }
}

/// Append the hits of the rows that `query` admits.
pub fn collect_matching(rows: &Vec<Arc<IndexEntry>>, query: EntryQuery, out: &mut Vec<QueryHit>)
    ensures
        final(out)@ == old(out)@ + matching(rows@, query),
{
    let mut i: usize = 0;
    proof {
        lemma_matching_none(rows@.take(0), query);
    }
    assert(old(out)@ + matching(rows@.take(0), query) =~= old(out)@);
    while i < rows.len()
        invariant
            i <= rows@.len(),
            out@ == old(out)@ + matching(rows@.take(i as int), query),
        decreases rows@.len() - i,
    {
        proof {
            lemma_matching_push(rows@.take(i as int), rows@[i as int], query);
            assert(rows@.take(i + 1) =~= rows@.take(i as int).push(rows@[i as int]));
        }
        if query.admits(&rows[i]) {
            out.push(QueryHit::from_entry(&rows[i]));
        }
        i += 1;
        assert(out@ =~= old(out)@ + matching(rows@.take(i as int), query));
    }
    assert(rows@.take(rows@.len() as int) =~= rows@);
}

/// Append the hits of every row.
pub fn collect_all(rows: &Vec<Arc<IndexEntry>>, out: &mut Vec<QueryHit>)
    ensures
        final(out)@ == old(out)@ + hits(rows@),
{
    let mut i: usize = 0;
    assert(old(out)@ + hits(rows@.take(0)) =~= old(out)@);
    while i < rows.len()
        invariant
            i <= rows@.len(),
            out@ == old(out)@ + hits(rows@.take(i as int)),
        decreases rows@.len() - i,
    {
        out.push(QueryHit::from_entry(&rows[i]));
        i += 1;
        assert(out@ =~= old(out)@ + hits(rows@.take(i as int)));
    }
    assert(rows@.take(rows@.len() as int) =~= rows@);
}

/// Events in clock-key order, one for each key.
pub struct ClockStream {
    rows: Vec<Arc<IndexEntry>>,
}

/// Clock keys strictly ascend along the rows.
pub open spec fn keys_ascend(rows: Seq<Arc<IndexEntry>>) -> bool {
    forall|i: int, j: int|
        0 <= i < j < rows.len() ==> (#[trigger] rows[i]).key().before_spec(
            (#[trigger] rows[j]).key(),
        )
}

/// `rows` with `row` put in its place: rows of the same key give way to it.
pub open spec fn is_put(
    r: Seq<Arc<IndexEntry>>,
    rows: Seq<Arc<IndexEntry>>,
    row: Arc<IndexEntry>,
) -> bool {
    &&& keys_ascend(r)
    &&& forall|x: Arc<IndexEntry>| #[trigger]
        r.contains(x) <==> x == row || (rows.contains(x) && x.key() != row.key())
}

impl View for ClockStream {
    type V = Seq<Arc<IndexEntry>>;

    closed spec fn view(&self) -> Seq<Arc<IndexEntry>> {
        self.rows@
    }
}

impl ClockStream {
    /// A stream without rows.
    pub fn new() -> (s: ClockStream)
        ensures
            s@ == Seq::<Arc<IndexEntry>>::empty(),
            keys_ascend(s@),
    {
        ClockStream { rows: Vec::new() }
    }

    /// Number of rows.
    pub fn len(&self) -> (n: usize)
        ensures
            n == self@.len(),
    {
        self.rows.len()
    }

    /// The rows in clock-key order.
    pub fn rows(&self) -> (rows: &Vec<Arc<IndexEntry>>)
        ensures
            rows@ == self@,
    {
        &self.rows
    }

    /// Put `row` in its place.
    pub fn put(&mut self, row: Arc<IndexEntry>)
        requires
            keys_ascend(old(self)@),
        ensures
            is_put(final(self)@, old(self)@, row),
            final(self)@.len() == old(self)@.len() || final(self)@.len() == old(self)@.len() + 1,
    {
        let key = row.clock_key();
        let ghost before = self.rows@;
        let mut at: usize = self.rows.len();
        while at > 0 && key.before(&self.rows[at - 1].clock_key())
            invariant
                at <= self.rows@.len(),
                self.rows@ == before,
                key == row.key(),
                forall|i: int|
                    at <= i < before.len() ==> key.before_spec((#[trigger] before[i]).key()),
            decreases at,
        {
            at -= 1;
        }
        if at > 0 && self.rows[at - 1].clock_key() == key {
            self.rows[at - 1] = row;
            proof {
                let after = self.rows@;
                assert(after == before.update(at - 1, row));
                assert forall|x: Arc<IndexEntry>| #[trigger] after.contains(x) <==> x == row || (
                before.contains(x) && x.key() != row.key()) by {
                    if after.contains(x) && x != row {
                        let i = choose|i: int| 0 <= i < after.len() && after[i] == x;
                        assert(before[i] == x);
                        assert(before[at - 1].key() == key);
                    }
                    if before.contains(x) && x.key() != row.key() {
                        let i = choose|i: int| 0 <= i < before.len() && before[i] == x;
                        assert(after[i] == x);
                    }
                    assert(after[at - 1] == row);
                }
            }
        } else {
            self.rows.insert(at, row);
            proof {
                let after = self.rows@;
                assert(after == before.insert(at as int, row));
                assert forall|i: int| 0 <= i < at implies (#[trigger] before[i]).key()
                    .before_spec(key) by {
                    assert(before[at - 1].key().before_spec(key));
                }
                assert forall|x: Arc<IndexEntry>| #[trigger] after.contains(x) <==> x == row || (
                before.contains(x) && x.key() != row.key()) by {
                    if after.contains(x) && x != row {
                        let i = choose|i: int| 0 <= i < after.len() && after[i] == x;
                        let j = if i < at {
                            i
                        } else {
                            i - 1
                        };
                        assert(before[j] == x);
                    }
                    if before.contains(x) && x.key() != row.key() {
                        let i = choose|i: int| 0 <= i < before.len() && before[i] == x;
                        let j = if i < at {
                            i
                        } else {
                            i + 1
                        };
                        assert(after[j] == x);
                    }
                    assert(after[at as int] == row);
                }
            }
        }
    }
}

/// A row stands in `rows`, and no row of its key stands behind it.
pub open spec fn is_last_of_key(rows: Seq<Arc<IndexEntry>>, x: Arc<IndexEntry>) -> bool {
    exists|i: int|
        0 <= i < rows.len() && #[trigger] rows[i] == x && forall|j: int|
            i < j < rows.len() ==> (#[trigger] rows[j]).key() != x.key()
}

/// The stream holds, in key order, the last row of each key among the rows.
pub open spec fn keyed(stream: Seq<Arc<IndexEntry>>, rows: Seq<Arc<IndexEntry>>) -> bool {
    &&& keys_ascend(stream)
    &&& forall|x: Arc<IndexEntry>| #[trigger] stream.contains(x) <==> is_last_of_key(rows, x)
}

/// One more row put in its place.
pub proof fn lemma_keyed_put(
    after: Seq<Arc<IndexEntry>>,
    before: Seq<Arc<IndexEntry>>,
    rows: Seq<Arc<IndexEntry>>,
    row: Arc<IndexEntry>,
)
    requires
        keyed(before, rows),
        is_put(after, before, row),
    ensures
        keyed(after, rows.push(row)),
{
    let new_rows = rows.push(row);
    assert forall|x: Arc<IndexEntry>| #[trigger]
        after.contains(x) <==> is_last_of_key(new_rows, x) by {
        if is_last_of_key(rows, x) && x.key() != row.key() {
            let i = choose|i: int|
                0 <= i < rows.len() && #[trigger] rows[i] == x && forall|j: int|
                    i < j < rows.len() ==> (#[trigger] rows[j]).key() != x.key();
            assert(new_rows[i] == x);
            assert forall|j: int| i < j < new_rows.len() implies (#[trigger] new_rows[j]).key()
                != x.key() by {
                if j < rows.len() {
                    assert(rows[j] == new_rows[j]);
                }
            }
        }
        assert(new_rows[new_rows.len() - 1] == row);
        if is_last_of_key(new_rows, x) && x != row {
            let i = choose|i: int|
                0 <= i < new_rows.len() && #[trigger] new_rows[i] == x && forall|j: int|
                    i < j < new_rows.len() ==> (#[trigger] new_rows[j]).key() != x.key();
            assert(rows[i] == x);
            assert forall|j: int| i < j < rows.len() implies (#[trigger] rows[j]).key()
                != x.key() by {
                assert(rows[j] == new_rows[j]);
            }
            assert(is_last_of_key(rows, x));
        }
        if x == row {
            assert(is_last_of_key(new_rows, x));
        }
    }
}

/// Rows of distinct keys are all kept.
pub proof fn lemma_keyed_distinct(stream: Seq<Arc<IndexEntry>>, rows: Seq<Arc<IndexEntry>>)
    requires
        keyed(stream, rows),
        forall|i: int, j: int|
            0 <= i < j < rows.len() ==> (#[trigger] rows[i]).key() != (#[trigger] rows[j]).key(),
    ensures
        forall|x: Arc<IndexEntry>| #[trigger] stream.contains(x) <==> rows.contains(x),
{
    assert forall|x: Arc<IndexEntry>| #[trigger] stream.contains(x) <==> rows.contains(x) by {
        if rows.contains(x) {
            let i = rows.index_of(x);
            assert(rows[i] == x);
            assert(is_last_of_key(rows, x));
        }
    }
}

/// Rows in strictly ascending key order are determined by their contents.
pub proof fn law_put_is_determined(
    a: Seq<Arc<IndexEntry>>,
    b: Seq<Arc<IndexEntry>>,
    rows: Seq<Arc<IndexEntry>>,
    row: Arc<IndexEntry>,
)
    requires
        is_put(a, rows, row),
        is_put(b, rows, row),
    ensures
        a == b,
{
    assert forall|x: Arc<IndexEntry>| a.contains(x) == b.contains(x) by {}
    lemma_ascending_determined(a, b);
}

pub proof fn lemma_ascending_determined(a: Seq<Arc<IndexEntry>>, b: Seq<Arc<IndexEntry>>)
    requires
        keys_ascend(a),
        keys_ascend(b),
        forall|x: Arc<IndexEntry>| a.contains(x) == b.contains(x),
    ensures
        a == b,
    decreases a.len(),
{
    if a.len() == 0 {
        if b.len() > 0 {
            assert(b.contains(b[0]));
            assert(a.contains(b[0]));
        }
        assert(a =~= b);
    } else if b.len() == 0 {
        assert(a.contains(a[0]));
        assert(b.contains(a[0]));
    } else {
        assert(a.contains(a[0]));
        assert(b.contains(b[0]));
        assert(b.contains(a[0]));
        assert(a.contains(b[0]));
        let i = choose|i: int| 0 <= i < b.len() && b[i] == a[0];
        let j = choose|j: int| 0 <= j < a.len() && a[j] == b[0];
        assert(a[0] == b[0]);
        let ta = a.drop_first();
        let tb = b.drop_first();
        assert forall|x: Arc<IndexEntry>| ta.contains(x) == tb.contains(x) by {
            if ta.contains(x) {
                let k = choose|k: int| 0 <= k < ta.len() && ta[k] == x;
                assert(a[k + 1] == x);
                assert(a.contains(x));
                assert(b.contains(x));
                let m = choose|m: int| 0 <= m < b.len() && b[m] == x;
                assert(a[0].key().before_spec(a[k + 1].key()));
                assert(tb[m - 1] == x);
            }
            if tb.contains(x) {
                let k = choose|k: int| 0 <= k < tb.len() && tb[k] == x;
                assert(b[k + 1] == x);
                assert(b.contains(x));
                assert(a.contains(x));
                let m = choose|m: int| 0 <= m < a.len() && a[m] == x;
                assert(b[0].key().before_spec(b[k + 1].key()));
                assert(ta[m - 1] == x);
            }
        }
        lemma_ascending_determined(ta, tb);
        assert(a =~= seq![a[0]] + ta);
        assert(b =~= seq![b[0]] + tb);
    }
}

/// A query takes the entries of its kind, of its category or of its scope.
pub proof fn law_query_takes_its_entries(query: EntryQuery, entry: &IndexEntry, r: bool)
    requires
        call_ensures(EntryQuery::admits, (&query, entry), r),
    ensures
        query matches EntryQuery::Kind(kind) ==> (r <==> entry.kind.raw() == kind.raw()),
        query matches EntryQuery::Category(category) ==> (r <==> entry.kind.raw() / 4096
            == category as u16),
        query matches EntryQuery::Scope(scope) ==> (r <==> entry.coord.scope_spec() == scope@),
{
    assert(entry.kind.raw() / 4096 < 16);
    if let EntryQuery::Kind(kind) = query {
        crate::event::law_kind_is_category_and_type(entry.kind, kind);
    }
}

} // verus!

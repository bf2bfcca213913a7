//! Storage layouts of the scan overlays: flat arrays, tiles and entity groups.

use super::entry::{IndexEntry, QueryHit};
use super::stream::{collect_matching, EntryQuery};
use crate::event::EventKind;
use crate::table::{NameTable, Table};
use std::sync::Arc;
use vstd::prelude::*;

verus! {

/// The rows of all parts, in order.
pub open spec fn flat<A>(parts: Seq<Seq<A>>) -> Seq<A>
    decreases parts.len(),
{
    if parts.len() == 0 {
        Seq::empty()
    } else {
        flat(parts.drop_last()) + parts.last()
    }
}

/// One more part.
pub proof fn lemma_flat_push<A>(parts: Seq<Seq<A>>, part: Seq<A>)
    ensures
        flat(parts.push(part)) == flat(parts) + part,
{
    assert(parts.push(part).drop_last() =~= parts);
}

/// No value occurs twice, in one part or in two.
pub open spec fn parts_unique<A>(parts: Seq<Seq<A>>) -> bool {
    forall|i: int, j: int, p: int, q: int|
        #![trigger parts[i][j], parts[p][q]]
        0 <= i < parts.len() && 0 <= j < parts[i].len() && 0 <= p < parts.len() && 0 <= q
            < parts[p].len() && (i != p || j != q) ==> parts[i][j] != parts[p][q]
}

/// Parts without repetitions have none together.
pub proof fn lemma_flat_unique<A>(parts: Seq<Seq<A>>)
    requires
        parts_unique(parts),
    ensures
        flat(parts).no_duplicates(),
    decreases parts.len(),
{
    if parts.len() > 0 {
        let head = parts.drop_last();
        let last = parts.last();
        assert forall|i: int, j: int, p: int, q: int|
            #![trigger head[i][j], head[p][q]]
            0 <= i < head.len() && 0 <= j < head[i].len() && 0 <= p < head.len() && 0 <= q
                < head[p].len() && (i != p || j != q) implies head[i][j] != head[p][q] by {
            assert(parts[i][j] != parts[p][q]);
        }
        lemma_flat_unique(head);
        let a = flat(head);
        let all = flat(parts);
        assert forall|m: int, n: int| 0 <= m < a.len() && 0 <= n < last.len() implies a[m]
            != last[n] by {
            assert(a.contains(a[m]));
            lemma_flat_contains(head, a[m]);
            let i = choose|i: int| 0 <= i < head.len() && (#[trigger] head[i]).contains(a[m]);
            let j = head[i].index_of(a[m]);
            assert(parts[i][j] == a[m]);
            assert(parts[parts.len() - 1][n] == last[n]);
        }
        assert forall|m: int, n: int| 0 <= m < all.len() && 0 <= n < all.len() && m
            != n implies all[m] != all[n] by {
            if m < a.len() && n >= a.len() {
                assert(a[m] != last[n - a.len()]);
            } else if n < a.len() && m >= a.len() {
                assert(a[n] != last[m - a.len()]);
            } else if m >= a.len() {
                assert(parts[parts.len() - 1][m - a.len()] != parts[parts.len() - 1][n
                    - a.len()]);
            }
        }
    }
}

/// One more row in one part is one more row in all.
pub proof fn lemma_flat_grow<A>(parts: Seq<Seq<A>>, i: int, x: A)
    requires
        0 <= i < parts.len(),
    ensures
        flat(parts.update(i, parts[i].push(x))).to_multiset() == flat(parts).to_multiset().insert(
            x,
        ),
        flat(parts.update(i, parts[i].push(x))).len() == flat(parts).len() + 1,
    decreases parts.len(),
{
    let grown = parts.update(i, parts[i].push(x));
    let head = parts.drop_last();
    if i == parts.len() - 1 {
        assert(grown.drop_last() =~= head);
        assert(flat(grown) =~= flat(parts).push(x));
        flat(parts).to_multiset_ensures();
    } else {
        assert(grown.drop_last() =~= head.update(i, head[i].push(x)));
        lemma_flat_grow(head, i, x);
        let a = flat(head);
        let b = flat(head.update(i, head[i].push(x)));
        let l = parts.last();
        vstd::seq_lib::lemma_multiset_commutative(a, l);
        vstd::seq_lib::lemma_multiset_commutative(b, l);
        assert(flat(grown) == b + l);
        assert(flat(parts) == a + l);
        assert(flat(grown).to_multiset() =~= flat(parts).to_multiset().insert(x));
    }
}

/// A row lies in some part.
pub proof fn lemma_flat_contains<A>(parts: Seq<Seq<A>>, x: A)
    ensures
        flat(parts).contains(x) <==> exists|i: int|
            0 <= i < parts.len() && (#[trigger] parts[i]).contains(x),
    decreases parts.len(),
{
    if parts.len() > 0 {
        let head = parts.drop_last();
        let last = parts.last();
        lemma_flat_contains(head, x);
        if flat(parts).contains(x) {
            let k = choose|k: int| 0 <= k < flat(parts).len() && flat(parts)[k] == x;
            if k < flat(head).len() {
                assert(flat(head)[k] == x);
                assert(flat(head).contains(x));
                let i = choose|i: int| 0 <= i < head.len() && (#[trigger] head[i]).contains(x);
                assert(parts[i] == head[i]);
            } else {
                assert(last[k - flat(head).len()] == x);
                assert(parts[parts.len() - 1].contains(x));
            }
        }
        if exists|i: int| 0 <= i < parts.len() && (#[trigger] parts[i]).contains(x) {
            let i = choose|i: int| 0 <= i < parts.len() && (#[trigger] parts[i]).contains(x);
            if i < head.len() {
                assert(head[i] == parts[i]);
                assert(flat(head).contains(x));
                let k = choose|k: int| 0 <= k < flat(head).len() && flat(head)[k] == x;
                assert(flat(parts)[k] == x);
            } else {
                let k = choose|k: int| 0 <= k < last.len() && last[k] == x;
                assert(flat(parts)[flat(head).len() + k] == x);
            }
        }
    }
}

/// Flat parallel arrays in insertion order.
pub struct SoAInner {
    kinds: Vec<EventKind>,
    rows: Vec<Arc<IndexEntry>>,
}

impl SoAInner {
    /// The arrays run in parallel.
    pub closed spec fn wf(&self) -> bool {
        &&& self.kinds@.len() == self.rows@.len()
        &&& forall|i: int|
            0 <= i < self.rows@.len() ==> (#[trigger] self.kinds@[i]) == self.rows@[i].kind
    }

    /// The rows in insertion order.
    pub closed spec fn listing(&self) -> Seq<Arc<IndexEntry>> {
        self.rows@
    }

    /// No rows.
    pub fn new() -> (s: SoAInner)
        ensures
            s.wf(),
            s.listing() == Seq::<Arc<IndexEntry>>::empty(),
    {
        SoAInner { kinds: Vec::new(), rows: Vec::new() }
    }

    /// Append a row.
    pub fn push(&mut self, entry: &Arc<IndexEntry>)
        requires
            old(self).wf(),
        ensures
            final(self).wf(),
            final(self).listing() == old(self).listing().push(*entry),
    {
        self.kinds.push(entry.kind);
        self.rows.push(Arc::clone(entry));
    }

    /// The hits of the rows that `query` admits.
    pub fn hits_candidates(&self, query: EntryQuery) -> (hits: Vec<QueryHit>)
        requires
            self.wf(),
        ensures
            hits@ == super::stream::matching(self.listing(), query),
    {
        let mut out: Vec<QueryHit> = Vec::new();
        match query {
            EntryQuery::Kind(kind) => {
                let mut i: usize = 0;
                proof {
                    super::stream::lemma_matching_none(self.rows@.take(0), query);
                }
                while i < self.rows.len()
                    invariant
                        self.wf(),
                        query == EntryQuery::Kind(kind),
                        i <= self.rows@.len(),
                        out@ == super::stream::matching(self.rows@.take(i as int), query),
                    decreases self.rows@.len() - i,
                {
                    proof {
                        super::stream::lemma_matching_push(
                            self.rows@.take(i as int),
                            self.rows@[i as int],
                            query,
                        );
                        assert(self.rows@.take(i + 1) =~= self.rows@.take(i as int).push(
                            self.rows@[i as int],
                        ));
                        assert(self.kinds@[i as int] == self.rows@[i as int].kind);
                    }
                    if self.kinds[i] == kind {
                        out.push(QueryHit::from_entry(&self.rows[i]));
                    }
                    i += 1;
                }
                assert(self.rows@.take(self.rows@.len() as int) =~= self.rows@);
            },
            _ => {
                collect_matching(&self.rows, query, &mut out);
                assert(out@ =~= super::stream::matching(self.rows@, query));
            },
        }
        out
    }
}

/// A tile of at most `N` rows of one kind.
pub struct Tile<const N: usize> {
    /// Number of rows.
    pub len: usize,
    /// Kind of every row.
    pub kind: EventKind,
    /// The rows in insertion order.
    pub rows: Vec<Arc<IndexEntry>>,
}

impl<const N: usize> Tile<N> {
    /// The tile holds at most `N` rows, all of its kind.
    pub open spec fn wf(&self) -> bool {
        &&& self.len == self.rows@.len()
        &&& self.rows@.len() <= N
        &&& forall|i: int|
            0 <= i < self.rows@.len() ==> (#[trigger] self.rows@[i]).kind == self.kind
    }
}

/// The last tile of a kind, where it has room for one more of `n` rows.
pub open spec fn open_tile(parts: Seq<Seq<Arc<IndexEntry>>>, n: int, kind: EventKind) -> Option<int>
    decreases parts.len(),
{
    if parts.len() == 0 {
        None
    } else if parts.last().len() > 0 && parts.last()[0].kind == kind {
        if parts.last().len() < n {
            Some(parts.len() - 1)
        } else {
            None
        }
    } else {
        open_tile(parts.drop_last(), n, kind)
    }
}

/// Tiles of `n` rows of one kind each, with one more row: it goes to the last
/// tile of its kind, or to a new one where that is full or there is none.
pub open spec fn tiled(
    parts: Seq<Seq<Arc<IndexEntry>>>,
    n: int,
    row: Arc<IndexEntry>,
) -> Seq<Seq<Arc<IndexEntry>>> {
    match open_tile(parts, n, row.kind) {
        Some(i) => parts.update(i, parts[i].push(row)),
        None => parts.push(seq![row]),
    }
}

/// Tiles of 64 rows of any kind, with one more row: it goes to the last tile,
/// or to a new one where that is full.
pub open spec fn mixed(parts: Seq<Seq<Arc<IndexEntry>>>, row: Arc<IndexEntry>) -> Seq<
    Seq<Arc<IndexEntry>>,
> {
    if parts.len() > 0 && parts.last().len() < 64 {
        parts.drop_last().push(parts.last().push(row))
    } else {
        parts.push(seq![row])
    }
}

/// The rows of a tile are of one kind and not too many, and every tile but the
/// last of its kind is full.
pub open spec fn well_tiled(parts: Seq<Seq<Arc<IndexEntry>>>, n: int) -> bool {
    &&& forall|i: int|
        #![trigger parts[i]]
        0 <= i < parts.len() ==> 0 < parts[i].len() <= n
    &&& forall|i: int, k: int|
        #![trigger parts[i][k]]
        0 <= i < parts.len() && 0 <= k < parts[i].len() ==> parts[i][k].kind == parts[i][0].kind
    &&& forall|i: int, j: int|
        #![trigger parts[i], parts[j]]
        0 <= i < j < parts.len() && parts[i][0].kind == parts[j][0].kind ==> parts[i].len() == n
}

/// Rows of several kinds that come one after the other fill tiles of one kind
/// each, none before the one before it is full.
pub proof fn law_tiles_fill_up(parts: Seq<Seq<Arc<IndexEntry>>>, n: int, row: Arc<IndexEntry>)
    requires
        n > 0,
        well_tiled(parts, n),
    ensures
        well_tiled(tiled(parts, n, row), n),
{
    let after = tiled(parts, n, row);
    lemma_open_tile_is_last(parts, n, row.kind);
    assert forall|i: int, j: int|
        #![trigger after[i], after[j]]
        0 <= i < j < after.len() && after[i][0].kind == after[j][0].kind implies after[i].len()
        == n by {
        match open_tile(parts, n, row.kind) {
            Some(at) => {
                if i == at {
                    assert(parts[j][0].kind != row.kind);
                } else {
                    assert(parts[i].len() == n || parts[i][0].kind != parts[j][0].kind);
                }
            },
            None => {
                if j < parts.len() {
                    assert(parts[i].len() == n || parts[i][0].kind != parts[j][0].kind);
                } else {
                    assert(parts[i][0].kind == row.kind);
                }
            },
        }
    }
    assert forall|i: int, k: int|
        #![trigger after[i][k]]
        0 <= i < after.len() && 0 <= k < after[i].len() implies after[i][k].kind
        == after[i][0].kind by {
        if i < parts.len() && k < parts[i].len() {
            assert(parts[i][k].kind == parts[i][0].kind);
        }
    }
}

/// The tile with room is the last of its kind; where there is none, every tile
/// of the kind is full.
proof fn lemma_open_tile_is_last(parts: Seq<Seq<Arc<IndexEntry>>>, n: int, kind: EventKind)
    requires
        well_tiled(parts, n),
    ensures
        match open_tile(parts, n, kind) {
            Some(at) => 0 <= at < parts.len() && parts[at].len() < n && parts[at][0].kind == kind
                && forall|j: int|
                #![trigger parts[j]]
                at < j < parts.len() ==> parts[j][0].kind != kind,
            None => forall|i: int|
                #![trigger parts[i]]
                0 <= i < parts.len() && parts[i][0].kind == kind ==> parts[i].len() == n,
        },
    decreases parts.len(),
{
    if parts.len() > 0 {
        let front = parts.drop_last();
        assert forall|i: int, k: int|
            #![trigger front[i][k]]
            0 <= i < front.len() && 0 <= k < front[i].len() implies front[i][k].kind
            == front[i][0].kind by {
            assert(parts[i][k].kind == parts[i][0].kind);
        }
        assert(well_tiled(front, n));
        let last = parts.len() - 1;
        assert(parts[last] == parts.last());
        if parts.last()[0].kind == kind {
            assert forall|i: int|
                #![trigger parts[i]]
                0 <= i < parts.len() && parts[i][0].kind == kind && open_tile(
                    parts,
                    n,
                    kind,
                ) is None implies parts[i].len() == n by {
                if i < last {
                    assert(parts[i].len() == n || parts[i][0].kind != parts[last][0].kind);
                }
            }
        } else {
            lemma_open_tile_is_last(front, n, kind);
            assert forall|i: int|
                #![trigger parts[i]]
                0 <= i < parts.len() && parts[i][0].kind == kind && open_tile(
                    parts,
                    n,
                    kind,
                ) is None implies parts[i].len() == n by {
                if i < last {
                    assert(front[i] == parts[i]);
                }
            }
            if let Some(at) = open_tile(parts, n, kind) {
                assert forall|j: int|
                    #![trigger parts[j]]
                    at < j < parts.len() implies parts[j][0].kind != kind by {
                    if j < last {
                        assert(front[j] == parts[j]);
                    }
                }
            }
        }
    }
}

/// The last tile of a kind decides.
proof fn lemma_last_of_kind(parts: Seq<Seq<Arc<IndexEntry>>>, n: int, kind: EventKind, at: int)
    requires
        0 <= at < parts.len(),
        parts[at].len() > 0,
        parts[at][0].kind == kind,
        forall|i: int|
            #![trigger parts[i]]
            at < i < parts.len() ==> parts[i].len() > 0 && parts[i][0].kind != kind,
    ensures
        open_tile(parts, n, kind) == (if parts[at].len() < n {
            Some(at)
        } else {
            None
        }),
    decreases parts.len(),
{
    if at < parts.len() - 1 {
        lemma_last_of_kind(parts.drop_last(), n, kind, at);
    }
}

/// Without a tile of a kind there is none with room.
proof fn lemma_none_of_kind(parts: Seq<Seq<Arc<IndexEntry>>>, n: int, kind: EventKind)
    requires
        forall|i: int|
            #![trigger parts[i]]
            0 <= i < parts.len() ==> parts[i].len() > 0 && parts[i][0].kind != kind,
    ensures
        open_tile(parts, n, kind) is None,
    decreases parts.len(),
{
    if parts.len() > 0 {
        lemma_none_of_kind(parts.drop_last(), n, kind);
    }
}

/// Tiles of one kind each.
pub struct AoSoAInner<const N: usize> {
    tiles: Vec<Tile<N>>,
    open: Table<usize>,
}

impl<const N: usize> AoSoAInner<N> {
    /// Tiles are sound, every tile but the last of its kind is full, and the
    /// open tile of a kind is its last.
    pub closed spec fn wf(&self) -> bool {
        &&& N > 0
        &&& self.open.wf()
        &&& forall|i: int| 0 <= i < self.tiles@.len() ==> (#[trigger] self.tiles@[i]).wf()
        &&& forall|i: int| 0 <= i < self.tiles@.len() ==> (#[trigger] self.tiles@[i]).rows@.len() > 0
        &&& forall|i: int|
            0 <= i < self.tiles@.len() ==> self.open.entries().contains_key(
                (#[trigger] self.tiles@[i]).kind.raw() as u128,
            ) && i <= self.open.entries()[self.tiles@[i].kind.raw() as u128]
        &&& forall|i: int|
            0 <= i < self.tiles@.len() ==> self.open.entries()[(
            #[trigger] self.tiles@[i]).kind.raw() as u128] == i || self.tiles@[i].rows@.len()
                == N
        &&& forall|k: u128| #[trigger]
            self.open.entries().contains_key(k) ==> self.open.entries()[k] < self.tiles@.len()
                && self.tiles@[self.open.entries()[k] as int].kind.raw() == k
    }

    /// The rows of each tile.
    pub closed spec fn parts(&self) -> Seq<Seq<Arc<IndexEntry>>> {
        self.tiles@.map_values(|t: Tile<N>| t.rows@)
    }

    /// The rows in tile order.
    pub open spec fn listing(&self) -> Seq<Arc<IndexEntry>> {
        flat(self.parts())
    }

    /// No rows.
    pub fn new() -> (s: AoSoAInner<N>)
        requires
            N > 0,
        ensures
            s.wf(),
            s.listing() == Seq::<Arc<IndexEntry>>::empty(),
            s.parts().len() == 0,
    {
        AoSoAInner { tiles: Vec::new(), open: Table::new() }
    }

    /// Number of tiles.
    pub fn tile_count(&self) -> (n: usize)
        ensures
            n == self.parts().len(),
    {
        self.tiles.len()
    }

    /// The tile at `idx`.
    pub fn tile(&self, idx: usize) -> (t: Option<&Tile<N>>)
        requires
            self.wf(),
        ensures
            match t {
                Some(t) => idx < self.parts().len() && t.wf() && t.rows@
                    == self.parts()[idx as int],
                None => idx >= self.parts().len(),
            },
    {
        if idx < self.tiles.len() {
            assert(self.tiles@[idx as int].wf());
            Some(&self.tiles[idx])
        } else {
            None
        }
    }

    /// The open tile of a kind is its last.
    proof fn lemma_open_tile(&self, kind: EventKind)
        requires
            self.wf(),
        ensures
            open_tile(self.parts(), N as int, kind) == (if self.open.entries().contains_key(
                kind.raw() as u128,
            ) && self.tiles@[self.open.entries()[kind.raw() as u128] as int].rows@.len() < N {
                Some(self.open.entries()[kind.raw() as u128] as int)
            } else {
                None
            }),
    {
        let key = kind.raw() as u128;
        assert forall|i: int| #![trigger self.parts()[i]] 0 <= i < self.parts().len() implies {
            &&& self.parts()[i].len() > 0
            &&& self.parts()[i][0].kind == self.tiles@[i].kind
        } by {
            assert(self.tiles@[i].wf());
            assert(self.tiles@[i].rows@.len() > 0);
            assert(self.tiles@[i].rows@[0].kind == self.tiles@[i].kind);
        }
        if self.open.entries().contains_key(key) {
            let at = self.open.entries()[key] as int;
            crate::event::law_kind_is_category_and_type(self.tiles@[at].kind, kind);
            assert forall|i: int| #![trigger self.parts()[i]] at < i < self.parts().len() implies {
                &&& self.parts()[i].len() > 0
                &&& self.parts()[i][0].kind != kind
            } by {
                assert(i <= self.open.entries()[self.tiles@[i].kind.raw() as u128]);
            }
            lemma_last_of_kind(self.parts(), N as int, kind, at);
        } else {
            assert forall|i: int| #![trigger self.parts()[i]] 0 <= i < self.parts().len() implies {
                &&& self.parts()[i].len() > 0
                &&& self.parts()[i][0].kind != kind
            } by {
                assert(self.open.entries().contains_key(self.tiles@[i].kind.raw() as u128));
            }
            lemma_none_of_kind(self.parts(), N as int, kind);
        }
    }

    /// Append a row to the open tile of its kind, or to a new tile.
    pub fn push(&mut self, entry: &Arc<IndexEntry>)
        requires
            old(self).wf(),
        ensures
            final(self).wf(),
            final(self).listing().to_multiset() == old(self).listing().to_multiset().insert(
                *entry,
            ),
            final(self).listing().len() == old(self).listing().len() + 1,
            final(self).parts() == tiled(old(self).parts(), N as int, *entry),
    {
        let ghost before = *self;
        let key: u128 = entry.kind.as_raw_u16() as u128;
        proof {
            self.lemma_open_tile(entry.kind);
        }
        if let Some(slot) = self.open.get(key) {
            let at: usize = *slot;
            if self.tiles[at].len < N {
                assert(before.tiles@[at as int].wf());
                self.tiles[at].rows.push(Arc::clone(entry));
                self.tiles[at].len += 1;
                proof {
                    crate::event::law_kind_is_category_and_type(
                        entry.kind,
                        before.tiles@[at as int].kind,
                    );
                    assert(self.parts() =~= before.parts().update(
                        at as int,
                        before.parts()[at as int].push(*entry),
                    ));
                    lemma_flat_grow(before.parts(), at as int, *entry);
                    assert forall|i: int| 0 <= i < self.tiles@.len() implies (
                    #[trigger] self.tiles@[i]).wf() by {
                        assert(before.tiles@[i].wf());
                    }
                    assert forall|i: int|
                        0 <= i < self.tiles@.len() implies self.open.entries().contains_key(
                        (#[trigger] self.tiles@[i]).kind.raw() as u128,
                    ) && (self.open.entries()[self.tiles@[i].kind.raw() as u128] == i
                        || self.tiles@[i].rows@.len() == N) by {
                        assert(self.tiles@[i].kind == before.tiles@[i].kind);
                        assert(before.open.entries().contains_key(
                            before.tiles@[i].kind.raw() as u128,
                        ));
                        assert(before.open.entries()[before.tiles@[i].kind.raw() as u128] == i
                            || before.tiles@[i].rows@.len() == N);
                    }
                    assert forall|k: u128| #[trigger]
                        self.open.entries().contains_key(k) implies self.open.entries()[k]
                        < self.tiles@.len()
                        && self.tiles@[self.open.entries()[k] as int].kind.raw() == k by {
                        assert(before.tiles@[before.open.entries()[k] as int].kind.raw() == k);
                    }
                }
                return;
            }
        }
        let at: usize = self.tiles.len();
        let mut rows: Vec<Arc<IndexEntry>> = Vec::new();
        rows.push(Arc::clone(entry));
        self.tiles.push(Tile { len: 1, kind: entry.kind, rows });
        self.open.insert(key, at);
        proof {
            assert(self.parts() =~= before.parts().push(seq![*entry]));
            lemma_flat_push(before.parts(), seq![*entry]);
            assert(self.listing() =~= before.listing().push(*entry));
            before.listing().to_multiset_ensures();
            assert forall|i: int| 0 <= i < self.tiles@.len() implies (
            #[trigger] self.tiles@[i]).wf() by {
                if i < at {
                    assert(before.tiles@[i].wf());
                }
            }
            assert forall|i: int|
                0 <= i < self.tiles@.len() implies self.open.entries().contains_key(
                (#[trigger] self.tiles@[i]).kind.raw() as u128,
            ) && (self.open.entries()[self.tiles@[i].kind.raw() as u128] == i
                || self.tiles@[i].rows@.len() == N) by {
                if i < at {
                    assert(self.tiles@[i] == before.tiles@[i]);
                    assert(before.tiles@[i].wf());
                    assert(before.open.entries().contains_key(
                        before.tiles@[i].kind.raw() as u128,
                    ));
                    assert(before.open.entries()[before.tiles@[i].kind.raw() as u128] == i
                        || before.tiles@[i].rows@.len() == N);
                }
            }
            assert forall|k: u128| #[trigger]
                self.open.entries().contains_key(k) implies self.open.entries()[k]
                < self.tiles@.len() && self.tiles@[self.open.entries()[k] as int].kind.raw()
                == k by {
                if k != key {
                    assert(before.open.entries().contains_key(k));
                    assert(before.tiles@[before.open.entries()[k] as int].kind.raw() == k);
                }
            }
        }
    }

    /// The hits of the rows that `query` admits. Tiles of another kind are
    /// skipped whole.
    pub fn hits_candidates(&self, query: EntryQuery) -> (hits: Vec<QueryHit>)
        requires
            self.wf(),
        ensures
            hits@ == super::stream::matching(self.listing(), query),
    {
        let mut out: Vec<QueryHit> = Vec::new();
        let mut i: usize = 0;
        proof {
            super::stream::lemma_matching_none(flat(self.parts().take(0)), query);
        }
        while i < self.tiles.len()
            invariant
                self.wf(),
                i <= self.tiles@.len(),
                out@ == super::stream::matching(flat(self.parts().take(i as int)), query),
            decreases self.tiles@.len() - i,
        {
            let skip: bool = match query {
                EntryQuery::Kind(kind) => self.tiles[i].kind != kind,
                EntryQuery::Category(category) => self.tiles[i].kind.category() != category,
                EntryQuery::Scope(_) => false,
            };
            proof {
                assert(self.parts().take(i + 1) =~= self.parts().take(i as int).push(
                    self.parts()[i as int],
                ));
                lemma_flat_push(self.parts().take(i as int), self.parts()[i as int]);
                super::stream::lemma_matching_add(
                    flat(self.parts().take(i as int)),
                    self.parts()[i as int],
                    query,
                );
                assert(self.tiles@[i as int].wf());
                if skip {
                    super::stream::lemma_matching_none(self.parts()[i as int], query);
                }
            }
            if !skip {
                collect_matching(&self.tiles[i].rows, query, &mut out);
            }
            i += 1;
            assert(out@ =~= super::stream::matching(flat(self.parts().take(i as int)), query));
        }
        assert(self.parts().take(self.parts().len() as int) =~= self.parts());
        out
    }
}

/// A tile of at most 64 rows of any kind, with the kind numbers inline.
struct MixedTile {
    kinds: Vec<u16>,
    rows: Vec<Arc<IndexEntry>>,
}

impl MixedTile {
    spec fn wf(&self) -> bool {
        &&& self.kinds@.len() == self.rows@.len()
        &&& self.rows@.len() <= 64
        &&& forall|i: int|
            0 <= i < self.rows@.len() ==> (#[trigger] self.kinds@[i]) == self.rows@[i].kind.raw()
    }
}

/// Tiles of mixed kinds.
pub struct AoSoA64SimdInner {
    tiles: Vec<MixedTile>,
}

impl AoSoA64SimdInner {
    /// Tiles are sound, and every tile but the last is full.
    pub closed spec fn wf(&self) -> bool {
        &&& forall|i: int| 0 <= i < self.tiles@.len() ==> (#[trigger] self.tiles@[i]).wf()
        &&& forall|i: int|
            0 <= i < self.tiles@.len() - 1 ==> (#[trigger] self.tiles@[i]).rows@.len() == 64
        &&& self.tiles@.len() > 0 ==> self.tiles@.last().rows@.len() > 0
    }

    /// The rows of each tile.
    pub closed spec fn parts(&self) -> Seq<Seq<Arc<IndexEntry>>> {
        self.tiles@.map_values(|t: MixedTile| t.rows@)
    }

    /// The rows in insertion order.
    pub open spec fn listing(&self) -> Seq<Arc<IndexEntry>> {
        flat(self.parts())
    }

    /// The tiles hold 64 rows each, but for the last.
    pub proof fn lemma_tiles(&self)
        requires
            self.wf(),
        ensures
            self.parts().len() == (self.listing().len() + 63) / 64,
    {
        let n = self.tiles@.len() as int;
        if n > 0 {
            self.lemma_full_tiles(n - 1);
            assert(self.parts().drop_last() =~= self.parts().take(n - 1));
            assert(self.tiles@[n - 1].wf());
        }
    }

    proof fn lemma_full_tiles(&self, i: int)
        requires
            self.wf(),
            0 <= i < self.tiles@.len(),
        ensures
            flat(self.parts().take(i)).len() == 64 * i,
        decreases i,
    {
        if i > 0 {
            self.lemma_full_tiles(i - 1);
            assert(self.parts().take(i).drop_last() =~= self.parts().take(i - 1));
            assert(self.tiles@[i - 1].rows@.len() == 64);
        }
    }

    /// No rows.
    pub fn new() -> (s: AoSoA64SimdInner)
        ensures
            s.wf(),
            s.listing() == Seq::<Arc<IndexEntry>>::empty(),
            s.parts().len() == 0,
    {
        AoSoA64SimdInner { tiles: Vec::new() }
    }

    /// Number of tiles: one for each 64 rows.
    pub fn tile_count(&self) -> (n: usize)
        requires
            self.wf(),
        ensures
            n == self.parts().len(),
            n == (self.listing().len() + 63) / 64,
    {
        proof {
            self.lemma_tiles();
        }
        self.tiles.len()
    }

    /// Append a row.
    pub fn push(&mut self, entry: &Arc<IndexEntry>)
        requires
            old(self).wf(),
        ensures
            final(self).wf(),
            final(self).listing() == old(self).listing().push(*entry),
            final(self).parts() == mixed(old(self).parts(), *entry),
    {
        let ghost before = *self;
        let n: usize = self.tiles.len();
        if n > 0 && self.tiles[n - 1].rows.len() < 64 {
            assert(before.tiles@[n - 1].wf());
            self.tiles[n - 1].kinds.push(entry.kind.as_raw_u16());
            self.tiles[n - 1].rows.push(Arc::clone(entry));
            proof {
                assert forall|i: int| 0 <= i < self.tiles@.len() implies (
                #[trigger] self.tiles@[i]).wf() by {
                    assert(before.tiles@[i].wf());
                }
                assert forall|i: int| 0 <= i < self.tiles@.len() - 1 implies (
                #[trigger] self.tiles@[i]).rows@.len() == 64 by {
                    assert(self.tiles@[i] == before.tiles@[i]);
                }
                assert(self.parts().drop_last() =~= before.parts().drop_last());
                assert(self.parts().last() =~= before.parts().last().push(*entry));
                assert(self.listing() =~= before.listing().push(*entry));
                assert(self.parts() =~= mixed(before.parts(), *entry));
            }
            return;
        }
        let mut kinds: Vec<u16> = Vec::new();
        let mut rows: Vec<Arc<IndexEntry>> = Vec::new();
        kinds.push(entry.kind.as_raw_u16());
        rows.push(Arc::clone(entry));
        self.tiles.push(MixedTile { kinds, rows });
        proof {
            assert forall|i: int| 0 <= i < self.tiles@.len() implies (
            #[trigger] self.tiles@[i]).wf() by {
                if i < n {
                    assert(before.tiles@[i].wf());
                }
            }
            assert forall|i: int| 0 <= i < self.tiles@.len() - 1 implies (
            #[trigger] self.tiles@[i]).rows@.len() == 64 by {
                assert(self.tiles@[i] == before.tiles@[i]);
                assert(before.tiles@[i].wf());
            }
            assert(self.parts() =~= before.parts().push(seq![*entry]));
            lemma_flat_push(before.parts(), seq![*entry]);
            assert(self.listing() =~= before.listing().push(*entry));
        }
    }

    /// The hits of the rows that `query` admits.
    pub fn hits_candidates(&self, query: EntryQuery) -> (hits: Vec<QueryHit>)
        requires
            self.wf(),
        ensures
            hits@ == super::stream::matching(self.listing(), query),
    {
        let mut out: Vec<QueryHit> = Vec::new();
        let mut i: usize = 0;
        proof {
            super::stream::lemma_matching_none(flat(self.parts().take(0)), query);
        }
        while i < self.tiles.len()
            invariant
                self.wf(),
                i <= self.tiles@.len(),
                out@ == super::stream::matching(flat(self.parts().take(i as int)), query),
            decreases self.tiles@.len() - i,
        {
            proof {
                assert(self.parts().take(i + 1) =~= self.parts().take(i as int).push(
                    self.parts()[i as int],
                ));
                lemma_flat_push(self.parts().take(i as int), self.parts()[i as int]);
                super::stream::lemma_matching_add(
                    flat(self.parts().take(i as int)),
                    self.parts()[i as int],
                    query,
                );
                assert(self.tiles@[i as int].wf());
            }
            match query {
                EntryQuery::Kind(kind) => {
                    scan_mixed_tile(&self.tiles[i], kind, &mut out);
                },
                _ => {
                    collect_matching(&self.tiles[i].rows, query, &mut out);
                },
            }
            i += 1;
            assert(out@ =~= super::stream::matching(flat(self.parts().take(i as int)), query));
        }
        assert(self.parts().take(self.parts().len() as int) =~= self.parts());
        out
    }
}

/// Scan the inline kind numbers of a tile.
fn scan_mixed_tile(tile: &MixedTile, kind: EventKind, out: &mut Vec<QueryHit>)
    requires
        tile.wf(),
    ensures
        final(out)@ == old(out)@ + super::stream::matching(tile.rows@, EntryQuery::Kind(kind)),
{
    let raw: u16 = kind.as_raw_u16();
    let ghost query = EntryQuery::Kind(kind);
    let mut i: usize = 0;
    proof {
        super::stream::lemma_matching_none(tile.rows@.take(0), query);
    }
    assert(old(out)@ + super::stream::matching(tile.rows@.take(0), query) =~= old(out)@);
    while i < tile.rows.len()
        invariant
            tile.wf(),
            query == EntryQuery::Kind(kind),
            raw == kind.raw(),
            i <= tile.rows@.len(),
            out@ == old(out)@ + super::stream::matching(tile.rows@.take(i as int), query),
        decreases tile.rows@.len() - i,
    {
        proof {
            super::stream::lemma_matching_push(
                tile.rows@.take(i as int),
                tile.rows@[i as int],
                query,
            );
            assert(tile.rows@.take(i + 1) =~= tile.rows@.take(i as int).push(
                tile.rows@[i as int],
            ));
            assert(tile.kinds@[i as int] == tile.rows@[i as int].kind.raw());
            crate::event::law_kind_is_category_and_type(kind, tile.rows@[i as int].kind);
        }
        if tile.kinds[i] == raw {
            out.push(QueryHit::from_entry(&tile.rows[i]));
        }
        i += 1;
        assert(out@ =~= old(out)@ + super::stream::matching(tile.rows@.take(i as int), query));
    }
    assert(tile.rows@.take(tile.rows@.len() as int) =~= tile.rows@);
}

/// Rows of any kind that come one after the other fill tiles of 64, none before the
/// one before it is full.
pub proof fn law_mixed_tiles_fill_up(parts: Seq<Seq<Arc<IndexEntry>>>, row: Arc<IndexEntry>)
    requires
        forall|i: int|
            #![trigger parts[i]]
            0 <= i < parts.len() ==> 0 < parts[i].len() <= 64 && (i < parts.len() - 1
                ==> parts[i].len() == 64),
    ensures
        ({
            let after = mixed(parts, row);
            &&& after.len() > 0 && after.last().last() == row
            &&& forall|i: int|
                #![trigger after[i]]
                0 <= i < after.len() ==> 0 < after[i].len() <= 64 && (i < after.len() - 1
                    ==> after[i].len() == 64)
            &&& after.len() == parts.len() || (after.len() == parts.len() + 1 && (parts.len() == 0
                || parts.last().len() == 64))
            &&& flat(after) == flat(parts).push(row)
        }),
{
    let after = mixed(parts, row);
    if parts.len() > 0 && parts.last().len() < 64 {
        let front = parts.drop_last();
        let grown = parts.last().push(row);
        assert(parts[parts.len() - 1] == parts.last());
        assert forall|i: int|
            #![trigger after[i]]
            0 <= i < after.len() implies 0 < after[i].len() <= 64 && (i < after.len() - 1
            ==> after[i].len() == 64) by {
            if i < front.len() {
                assert(after[i] == parts[i]);
            }
        }
        lemma_flat_push(front, grown);
        lemma_flat_push(front, parts.last());
        assert(front.push(parts.last()) =~= parts);
        assert(flat(after) =~= flat(parts).push(row));
    } else {
        assert forall|i: int|
            #![trigger after[i]]
            0 <= i < after.len() implies 0 < after[i].len() <= 64 && (i < after.len() - 1
            ==> after[i].len() == 64) by {
            if i < parts.len() {
                assert(after[i] == parts[i]);
            }
        }
        lemma_flat_push(parts, seq![row]);
        assert(flat(after) =~= flat(parts).push(row));
    }
}

} // verus!

//! Keys of projection states in the external cache.

use crate::bytes::push_le;
use crate::event::EventKind;
use std::collections::hash_map::DefaultHasher;
use std::hash::Hasher;
use vstd::prelude::*;
use vstd::std_specs::hash::DefaultHasherAdditionalSpecFns;

verus! {

/// The numbers of kinds.
pub open spec fn raws(kinds: Seq<EventKind>) -> Seq<u16> {
    kinds.map_values(|kind: EventKind| kind.raw())
}

/// The numbers of kinds in ascending order.
pub open spec fn sorted_raws(kinds: Seq<EventKind>) -> Seq<u16> {
    raws(kinds).sort_by(|a: u16, b: u16| a <= b)
}

/// What is hashed of some numbers: each of them, then how many they are.
pub open spec fn hashed_writes(numbers: Seq<u16>) -> Seq<Seq<u8>> {
    numbers.map_values(|n: u16| crate::bytes::le_bytes(n as nat, 2)).push(
        crate::bytes::le_bytes(numbers.len(), 8),
    )
}

/// The discriminant of a set of kinds: the standard hasher's answer to the
/// sorted numbers.
pub open spec fn kinds_disc(kinds: Seq<EventKind>) -> u64 {
    DefaultHasher::spec_finish(hashed_writes(sorted_raws(kinds)))
}

/// The key of the state of a projection of an entity: the entity's name, a zero
/// byte, then the discriminants of the type, of its schema and of its kinds.
pub open spec fn cache_key(
    entity: Seq<char>,
    type_disc: u64,
    schema_version: u64,
    kinds_disc: u64,
) -> Seq<u8> {
    crate::text::utf8(entity) + seq![0u8] + crate::bytes::le_bytes(type_disc as nat, 8)
        + crate::bytes::le_bytes(schema_version as nat, 8) + crate::bytes::le_bytes(
        kinds_disc as nat,
        8,
    )
}

/// The numbers of kinds in ascending order.
pub(crate) fn sort_kinds(kinds: &[EventKind]) -> (sorted: Vec<u16>)
    ensures
        sorted@ == sorted_raws(kinds@),
{
    let ghost leq = |a: u16, b: u16| a <= b;
    let mut sorted: Vec<u16> = Vec::new();
    assert(sorted@ =~= raws(kinds@.take(0)));
    let mut i: usize = 0;
    while i < kinds.len()
        invariant
            i <= kinds@.len(),
            leq == |a: u16, b: u16| a <= b,
            sorted@.to_multiset() == raws(kinds@.take(i as int)).to_multiset(),
            vstd::relations::sorted_by(sorted@, leq),
        decreases kinds@.len() - i,
    {
        let raw: u16 = kinds[i].as_raw_u16();
        let mut at: usize = sorted.len();
        while at > 0 && sorted[at - 1] > raw
            invariant
                at <= sorted@.len(),
                forall|k: int| at <= k < sorted@.len() ==> #[trigger] sorted@[k] > raw,
            decreases at,
        {
            at = at - 1;
        }
        let ghost before = sorted@;
        sorted.insert(at, raw);
        proof {
            let after = sorted@;
            assert(after == before.insert(at as int, raw));
            before.to_multiset_ensures();
            vstd::seq_lib::to_multiset_insert(before, at as int, raw);
            let front = raws(kinds@.take(i as int));
            assert(raws(kinds@.take(i + 1)) =~= front.push(raw));
            front.to_multiset_ensures();
            vstd::seq_lib::to_multiset_build(front, raw);
            assert forall|p: int, q: int| 0 <= p < q < after.len() implies #[trigger] leq(
                after[p],
                after[q],
            ) by {
                if p < at && q > at {
                    assert(leq(before[p], before[q - 1]));
                } else if q < at {
                    assert(leq(before[p], before[q]));
                } else if p > at {
                    assert(leq(before[p - 1], before[q - 1]));
                } else if p == at {
                    assert(before[q - 1] > raw);
                } else if p < at - 1 {
                    assert(leq(before[p], before[at - 1]));
                }
            }
        }
        i += 1;
    }
    proof {
        assert(kinds@.take(kinds@.len() as int) =~= kinds@);
        let all = raws(kinds@);
        all.lemma_sort_by_ensures(leq);
        vstd::seq_lib::lemma_sorted_unique(sorted@, all.sort_by(leq), leq);
        assert(leq =~= (|a: u16, b: u16| a <= b));
    }
    sorted
}

/// The discriminant of a set of kinds. Their order does not matter.
pub fn relevant_kinds_hash(kinds: &[EventKind]) -> (hash: u64)
    ensures
        hash == kinds_disc(kinds@),
{
    let sorted = sort_kinds(kinds);
    let total: usize = sorted.len();
    let mut hasher = DefaultHasher::new();
    let ghost bytes_of = |n: u16| crate::bytes::le_bytes(n as nat, 2);
    let mut i: usize = 0;
    assert(hasher@ =~= sorted@.take(0).map_values(bytes_of));
    while i < total
        invariant
            i <= total,
            total == sorted@.len(),
            bytes_of == |n: u16| crate::bytes::le_bytes(n as nat, 2),
            hasher@ == sorted@.take(i as int).map_values(bytes_of),
        decreases total - i,
    {
        let mut bytes: Vec<u8> = Vec::new();
        push_le(&mut bytes, sorted[i] as u128, 2);
        assert(bytes@ =~= crate::bytes::le_bytes(sorted@[i as int] as nat, 2));
        hasher.write(bytes.as_slice());
        i += 1;
        assert(hasher@ =~= sorted@.take(i as int).map_values(bytes_of));
    }
    let mut bytes: Vec<u8> = Vec::new();
    push_le(&mut bytes, total as u128, 8);
    assert(bytes@ =~= crate::bytes::le_bytes(total as nat, 8));
    hasher.write(bytes.as_slice());
    assert(sorted@.take(total as int) =~= sorted@);
    assert(hasher@ =~= hashed_writes(sorted@));
    hasher.finish()
}

/// The key of the state of a projection of an entity.
pub fn projection_cache_key(
    entity: &str,
    type_disc: u64,
    schema_version: u64,
    kinds: &[EventKind],
) -> (key: Vec<u8>)
    ensures
        key@ == cache_key(entity@, type_disc, schema_version, kinds_disc(kinds@)),
{
    let kinds_disc: u64 = relevant_kinds_hash(kinds);
    let mut key: Vec<u8> = Vec::new();
    crate::bytes::push_all(&mut key, entity.as_bytes());
    key.push(0);
    push_le(&mut key, type_disc as u128, 8);
    push_le(&mut key, schema_version as u128, 8);
    push_le(&mut key, kinds_disc as u128, 8);
    assert(key@ =~= cache_key(entity@, type_disc, schema_version, kinds_disc));
    key
}

/// Keys tell everything apart that they are made of: the entity, the type, the
/// schema and the discriminant of the kinds.
pub proof fn law_cache_key_tells_apart(
    entity_a: Seq<char>,
    type_a: u64,
    schema_a: u64,
    kinds_a: u64,
    entity_b: Seq<char>,
    type_b: u64,
    schema_b: u64,
    kinds_b: u64,
)
    requires
        cache_key(entity_a, type_a, schema_a, kinds_a) == cache_key(
            entity_b,
            type_b,
            schema_b,
            kinds_b,
        ),
    ensures
        entity_a == entity_b,
        type_a == type_b,
        schema_a == schema_b,
        kinds_a == kinds_b,
{
    crate::bytes::lemma_widths();
    lemma_key_parts(entity_a, type_a, schema_a, kinds_a);
    lemma_key_parts(entity_b, type_b, schema_b, kinds_b);
    crate::text::law_utf8_injective(entity_a, entity_b);
    crate::bytes::law_le_round_trip(type_a as nat, 8);
    crate::bytes::law_le_round_trip(type_b as nat, 8);
    crate::bytes::law_le_round_trip(schema_a as nat, 8);
    crate::bytes::law_le_round_trip(schema_b as nat, 8);
    crate::bytes::law_le_round_trip(kinds_a as nat, 8);
    crate::bytes::law_le_round_trip(kinds_b as nat, 8);
}

proof fn lemma_key_parts(entity: Seq<char>, type_disc: u64, schema: u64, kinds: u64)
    ensures
        ({
            let key = cache_key(entity, type_disc, schema, kinds);
            let n = key.len() - 25;
            &&& n >= 0
            &&& key.take(n) == crate::text::utf8(entity)
            &&& key.subrange(n + 1, n + 9) == crate::bytes::le_bytes(type_disc as nat, 8)
            &&& key.subrange(n + 9, n + 17) == crate::bytes::le_bytes(schema as nat, 8)
            &&& key.subrange(n + 17, n + 25) == crate::bytes::le_bytes(kinds as nat, 8)
        }),
{
    crate::bytes::law_le_round_trip(type_disc as nat, 8);
    crate::bytes::law_le_round_trip(schema as nat, 8);
    crate::bytes::law_le_round_trip(kinds as nat, 8);
    let key = cache_key(entity, type_disc, schema, kinds);
    let n = key.len() - 25;
    assert(key.take(n) =~= crate::text::utf8(entity));
    assert(key.subrange(n + 1, n + 9) =~= crate::bytes::le_bytes(type_disc as nat, 8));
    assert(key.subrange(n + 9, n + 17) =~= crate::bytes::le_bytes(schema as nat, 8));
    assert(key.subrange(n + 17, n + 25) =~= crate::bytes::le_bytes(kinds as nat, 8));
}

/// The order in which kinds are named does not change their discriminant.
pub proof fn law_kind_order_is_irrelevant(a: Seq<EventKind>, b: Seq<EventKind>)
    requires
        a.to_multiset() == b.to_multiset(),
    ensures
        kinds_disc(a) == kinds_disc(b),
{
    let leq = |x: u16, y: u16| x <= y;
    lemma_same_numbers(a, b);
    raws(a).lemma_sort_by_ensures(leq);
    raws(b).lemma_sort_by_ensures(leq);
    vstd::seq_lib::lemma_sorted_unique(raws(a).sort_by(leq), raws(b).sort_by(leq), leq);
}

/// The same kinds have the same numbers.
proof fn lemma_same_numbers(a: Seq<EventKind>, b: Seq<EventKind>)
    requires
        a.to_multiset() == b.to_multiset(),
    ensures
        raws(a).to_multiset() == raws(b).to_multiset(),
    decreases a.len(),
{
    a.to_multiset_ensures();
    b.to_multiset_ensures();
    if a.len() == 0 {
        assert(b.len() == 0);
        assert(raws(a) =~= raws(b));
    } else {
        let x = a.last();
        let front = a.drop_last();
        assert(a.to_multiset().contains(x)) by {
            assert(a[a.len() - 1] == x);
        }
        assert(b.contains(x));
        let at = choose|at: int| 0 <= at < b.len() && b[at] == x;
        let rest = b.remove(at);
        vstd::seq_lib::to_multiset_remove(b, at);
        vstd::seq_lib::to_multiset_remove(a, a.len() - 1);
        assert(a.remove(a.len() - 1) =~= front);
        lemma_same_numbers(front, rest);
        assert(raws(a) =~= raws(front).push(x.raw()));
        vstd::seq_lib::to_multiset_build(raws(front), x.raw());
        assert(raws(b) =~= raws(rest).insert(at, x.raw()));
        vstd::seq_lib::to_multiset_insert(raws(rest), at, x.raw());
    }
}

/// A key is the entity's bytes, a zero byte, and then the number of the type, that of
/// its schema and that of its kinds, each in eight bytes.
pub proof fn law_cache_key_is_laid_out(
    entity: &str,
    type_disc: u64,
    schema_version: u64,
    kinds: &[EventKind],
    hash: u64,
    key: Vec<u8>,
)
    requires
        call_ensures(relevant_kinds_hash, (kinds,), hash),
        call_ensures(projection_cache_key, (entity, type_disc, schema_version, kinds), key),
    ensures
        ({
            let n = crate::text::utf8(entity@).len() as int;
            &&& key@.len() == n + 25
            &&& key@.take(n) == crate::text::utf8(entity@)
            &&& key@[n] == 0
            &&& crate::bytes::le_value(key@.subrange(n + 1, n + 9)) == type_disc
            &&& crate::bytes::le_value(key@.subrange(n + 9, n + 17)) == schema_version
            &&& crate::bytes::le_value(key@.subrange(n + 17, n + 25)) == hash
        }),
{
    crate::bytes::lemma_widths();
    lemma_key_parts(entity@, type_disc, schema_version, hash);
    crate::bytes::law_le_round_trip(type_disc as nat, 8);
    crate::bytes::law_le_round_trip(schema_version as nat, 8);
    crate::bytes::law_le_round_trip(hash as nat, 8);
    let n = crate::text::utf8(entity@).len() as int;
    assert(key@.len() == n + 25);
    assert(key@[n] == 0);
}

/// Two projections have the same key exactly where their entity, type, schema and the
/// number of their kinds are the same. Kinds that are named in another order have the
/// same number.
pub proof fn law_cache_keys_meet_where_projections_agree(
    entity_a: &str,
    type_a: u64,
    schema_a: u64,
    kinds_a: &[EventKind],
    hash_a: u64,
    key_a: Vec<u8>,
    entity_b: &str,
    type_b: u64,
    schema_b: u64,
    kinds_b: &[EventKind],
    hash_b: u64,
    key_b: Vec<u8>,
)
    requires
        call_ensures(relevant_kinds_hash, (kinds_a,), hash_a),
        call_ensures(relevant_kinds_hash, (kinds_b,), hash_b),
        call_ensures(projection_cache_key, (entity_a, type_a, schema_a, kinds_a), key_a),
        call_ensures(projection_cache_key, (entity_b, type_b, schema_b, kinds_b), key_b),
    ensures
        key_a@ == key_b@ <==> entity_a@ == entity_b@ && type_a == type_b && schema_a == schema_b
            && hash_a == hash_b,
        kinds_a@.to_multiset() == kinds_b@.to_multiset() ==> hash_a == hash_b,
{
    if key_a@ == key_b@ {
        law_cache_key_tells_apart(
            entity_a@,
            type_a,
            schema_a,
            hash_a,
            entity_b@,
            type_b,
            schema_b,
            hash_b,
        );
    }
    if kinds_a@.to_multiset() == kinds_b@.to_multiset() {
        law_kind_order_is_irrelevant(kinds_a@, kinds_b@);
    }
}

/// What is hashed of kinds: the two bytes of each number, low byte first, by ascending
/// number, and then in eight bytes how many they are.
pub proof fn law_kinds_are_hashed_by_ascending_number(
    kinds: &[EventKind],
    hash: u64,
    numbers: Seq<u16>,
    writes: Seq<Seq<u8>>,
)
    requires
        call_ensures(relevant_kinds_hash, (kinds,), hash),
        numbers.to_multiset() == kinds@.map_values(|kind: EventKind| kind.raw()).to_multiset(),
        forall|i: int, j: int|
            0 <= i < j < numbers.len() ==> #[trigger] numbers[i] <= #[trigger] numbers[j],
        writes.len() == numbers.len() + 1,
        forall|i: int|
            0 <= i < numbers.len() ==> (#[trigger] writes[i]).len() == 2 && writes[i][0] + 256
                * writes[i][1] == numbers[i],
        writes.last().len() == 8,
        crate::bytes::le_value(writes.last()) == numbers.len(),
    ensures
        hash == DefaultHasher::spec_finish(writes),
{
    let leq = |a: u16, b: u16| a <= b;
    let all = raws(kinds@);
    all.lemma_sort_by_ensures(leq);
    assert(vstd::relations::sorted_by(numbers, leq)) by {
        assert forall|i: int, j: int| 0 <= i < j < numbers.len() implies #[trigger] leq(
            numbers[i],
            numbers[j],
        ) by {
            assert(numbers[i] <= numbers[j]);
        }
    }
    vstd::seq_lib::lemma_sorted_unique(numbers, all.sort_by(leq), leq);
    assert(leq =~= (|a: u16, b: u16| a <= b));
    assert(numbers == sorted_raws(kinds@));
    let expected = hashed_writes(numbers);
    assert forall|i: int| 0 <= i < writes.len() implies #[trigger] writes[i] == expected[i] by {
        crate::bytes::law_le_inverse(writes[i]);
        if i < numbers.len() {
            crate::bytes::law_le_value_of_two(writes[i]);
        } else {
            assert(writes[i] == writes.last());
        }
    }
    assert(writes =~= expected);
}

} // verus!

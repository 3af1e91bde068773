//! Byte layouts of every key and value that the database writes, and their decoders.
//!
//! Component data lives under `archetype ‖ attribute ‖ entity` (all little-endian);
//! the bookkeeping records live under short ASCII prefixes: `eta:` (entity to
//! archetype), `ea:` (entity attribute set), `ai:` (attribute to entity index),
//! `e:` and `er:` (forward and reverse edges).
use vstd::bytes::*;
use vstd::prelude::*;
use vstd::slice::slice_subrange;

verus! {

broadcast use vstd::seq_lib::group_seq_properties;

pub open spec fn le64(x: u64) -> Seq<u8> {
    spec_u64_to_le_bytes(x)
}

pub open spec fn le128(x: u128) -> Seq<u8> {
    spec_u128_to_le_bytes(x)
}

/// `ai:`
pub open spec fn attr_index_tag() -> Seq<u8> {
    seq![97u8, 105u8, 58u8]
}

/// `eta:`
pub open spec fn entity_archetype_tag() -> Seq<u8> {
    seq![101u8, 116u8, 97u8, 58u8]
}

/// `ea:`
pub open spec fn entity_attr_tag() -> Seq<u8> {
    seq![101u8, 97u8, 58u8]
}

/// `e:`
pub open spec fn edge_tag() -> Seq<u8> {
    seq![101u8, 58u8]
}

/// `er:`
pub open spec fn reverse_edge_tag() -> Seq<u8> {
    seq![101u8, 114u8, 58u8]
}

/// Key of the data of attribute `attr_hash` of entity `thing_id` in archetype `archetype_id`.
pub open spec fn data_key(archetype_id: u64, attr_hash: u64, thing_id: u128) -> Seq<u8> {
    le64(archetype_id) + le64(attr_hash) + le128(thing_id)
}

pub open spec fn decoded_data_key(key: Seq<u8>) -> Option<(u64, u64, u128)> {
    if key.len() == 32 {
        Some(
            (
                spec_u64_from_le_bytes(key.subrange(0, 8)),
                spec_u64_from_le_bytes(key.subrange(8, 16)),
                spec_u128_from_le_bytes(key.subrange(16, 32)),
            ),
        )
    } else {
        None
    }
}

pub open spec fn attr_index_key_seq(attr_hash: u64, thing_id: u128) -> Seq<u8> {
    attr_index_tag() + le64(attr_hash) + le128(thing_id)
}

pub open spec fn attr_index_prefix_seq(attr_hash: u64) -> Seq<u8> {
    attr_index_tag() + le64(attr_hash)
}

pub open spec fn entity_archetype_key_seq(thing_id: u128) -> Seq<u8> {
    entity_archetype_tag() + le128(thing_id)
}

pub open spec fn entity_attr_key_seq(thing_id: u128, attr_hash: u64) -> Seq<u8> {
    entity_attr_tag() + le128(thing_id) + le64(attr_hash)
}

pub open spec fn entity_attrs_prefix_seq(thing_id: u128) -> Seq<u8> {
    entity_attr_tag() + le128(thing_id)
}

pub open spec fn edge_key_seq(edge_hash: u64, from: u128, to: u128) -> Seq<u8> {
    edge_tag() + le64(edge_hash) + le128(from) + le128(to)
}

pub open spec fn outgoing_edge_prefix_seq(edge_hash: u64, from: u128) -> Seq<u8> {
    edge_tag() + le64(edge_hash) + le128(from)
}

pub open spec fn reverse_edge_key_seq(edge_hash: u64, to: u128, from: u128) -> Seq<u8> {
    reverse_edge_tag() + le64(edge_hash) + le128(to) + le128(from)
}

pub open spec fn incoming_edge_prefix_seq(edge_hash: u64, to: u128) -> Seq<u8> {
    reverse_edge_tag() + le64(edge_hash) + le128(to)
}

/// The 16 bytes at `start` read as a little-endian entity id, when the key is long enough.
pub open spec fn id_at(key: Seq<u8>, start: int) -> Option<u128> {
    if key.len() >= start + 16 {
        Some(spec_u128_from_le_bytes(key.subrange(start, start + 16)))
    } else {
        None
    }
}

/// The value stored under an entity's archetype record: its first eight bytes,
/// little-endian, or `0` when the value is shorter.
pub open spec fn archetype_value(value: Seq<u8>) -> u64 {
    if value.len() >= 8 {
        spec_u64_from_le_bytes(value.subrange(0, 8))
    } else {
        0
    }
}

/// The attribute hash stored under an entity's attribute record, when it holds eight bytes.
pub open spec fn attr_value(value: Seq<u8>) -> Option<u64> {
    if value.len() >= 8 {
        Some(spec_u64_from_le_bytes(value.subrange(0, 8)))
    } else {
        None
    }
}

pub proof fn lemma_le_bytes_roundtrip()
    ensures
        forall|x: u64| #[trigger] le64(x).len() == 8 && spec_u64_from_le_bytes(le64(x)) == x,
        forall|x: u128| #[trigger] le128(x).len() == 16 && spec_u128_from_le_bytes(le128(x)) == x,
{
    lemma_auto_spec_u64_to_from_le_bytes();
    lemma_auto_spec_u128_to_from_le_bytes();
    assert forall|x: u128| #[trigger] le128(x).len() == 16 && spec_u128_from_le_bytes(le128(x)) == x by {
        assert(spec_u128_to_le_bytes(x).len() == 16);
    }
}

fn concat(mut a: Vec<u8>, mut b: Vec<u8>) -> (r: Vec<u8>)
    ensures
        r@ == a@ + b@,
{
    a.append(&mut b);
    a
}

fn tag_ai() -> (r: Vec<u8>)
    ensures
        r@ == attr_index_tag(),
{
    let r = vec![97u8, 105u8, 58u8];
    assert(r@ =~= attr_index_tag());
    r
}

fn tag_eta() -> (r: Vec<u8>)
    ensures
        r@ == entity_archetype_tag(),
{
    let r = vec![101u8, 116u8, 97u8, 58u8];
    assert(r@ =~= entity_archetype_tag());
    r
}

fn tag_ea() -> (r: Vec<u8>)
    ensures
        r@ == entity_attr_tag(),
{
    let r = vec![101u8, 97u8, 58u8];
    assert(r@ =~= entity_attr_tag());
    r
}

fn tag_e() -> (r: Vec<u8>)
    ensures
        r@ == edge_tag(),
{
    let r = vec![101u8, 58u8];
    assert(r@ =~= edge_tag());
    r
}

fn tag_er() -> (r: Vec<u8>)
    ensures
        r@ == reverse_edge_tag(),
{
    let r = vec![101u8, 114u8, 58u8];
    assert(r@ =~= reverse_edge_tag());
    r
}

/// Encodes and decodes the keys under which component data is stored.
pub struct KeyEncoder;

impl KeyEncoder {
    /// `archetype ‖ attribute ‖ entity`, 32 bytes.
    pub fn encode(archetype_id: u64, attr_hash: u64, thing_id: u128) -> (key: Vec<u8>)
        ensures
            key@ == data_key(archetype_id, attr_hash, thing_id),
            key@.len() == 32,
    {
        proof {
            lemma_le_bytes_roundtrip();
        }
        let k = concat(u64_to_le_bytes(archetype_id), u64_to_le_bytes(attr_hash));
        concat(k, u128_to_le_bytes(thing_id))
    }

    /// The three fields of a 32-byte data key; `None` for any other length.
    pub fn decode(key: &[u8]) -> (r: Option<(u64, u64, u128)>)
        ensures
            r == decoded_data_key(key@),
    {
        if key.len() != 32 {
            return None;
        }
        let a = u64_from_le_bytes(slice_subrange(key, 0, 8));
        let h = u64_from_le_bytes(slice_subrange(key, 8, 16));
        let t = u128_from_le_bytes(slice_subrange(key, 16, 32));
        Some((a, h, t))
    }

    pub fn encode_archetype_prefix(archetype_id: u64) -> (prefix: Vec<u8>)
        ensures
            prefix@ == le64(archetype_id),
            prefix@.len() == 8,
    {
        proof {
            lemma_le_bytes_roundtrip();
        }
        u64_to_le_bytes(archetype_id)
    }

    pub fn encode_attr_prefix(archetype_id: u64, attr_hash: u64) -> (prefix: Vec<u8>)
        ensures
            prefix@ == le64(archetype_id) + le64(attr_hash),
            prefix@.len() == 16,
    {
        proof {
            lemma_le_bytes_roundtrip();
        }
        concat(u64_to_le_bytes(archetype_id), u64_to_le_bytes(attr_hash))
    }
}


/// `ai: ‖ attribute ‖ entity`: marks that the entity carries the attribute.
pub fn attr_index_key(attr_hash: u64, thing_id: u128) -> (key: Vec<u8>)
    ensures
        key@ == attr_index_key_seq(attr_hash, thing_id),
        key@.len() == 27,
{
    proof {
        lemma_le_bytes_roundtrip();
    }
    let k = concat(tag_ai(), u64_to_le_bytes(attr_hash));
    concat(k, u128_to_le_bytes(thing_id))
}

/// `ai: ‖ attribute`: the prefix shared by all index records of one attribute.
pub fn attr_index_prefix(attr_hash: u64) -> (prefix: Vec<u8>)
    ensures
        prefix@ == attr_index_prefix_seq(attr_hash),
        prefix@.len() == 11,
{
    proof {
        lemma_le_bytes_roundtrip();
    }
    concat(tag_ai(), u64_to_le_bytes(attr_hash))
}

/// `eta: ‖ entity`: holds the archetype id of the entity.
pub fn entity_to_archetype_key(thing_id: u128) -> (key: Vec<u8>)
    ensures
        key@ == entity_archetype_key_seq(thing_id),
        key@.len() == 20,
{
    proof {
        lemma_le_bytes_roundtrip();
    }
    concat(tag_eta(), u128_to_le_bytes(thing_id))
}

/// `ea: ‖ entity ‖ attribute`: records that the entity carries the attribute.
pub fn entity_attr_key(thing_id: u128, attr_hash: u64) -> (key: Vec<u8>)
    ensures
        key@ == entity_attr_key_seq(thing_id, attr_hash),
        key@.len() == 27,
{
    proof {
        lemma_le_bytes_roundtrip();
    }
    let k = concat(tag_ea(), u128_to_le_bytes(thing_id));
    concat(k, u64_to_le_bytes(attr_hash))
}

/// `ea: ‖ entity`: the prefix shared by all attribute records of one entity.
pub fn entity_attrs_prefix(thing_id: u128) -> (prefix: Vec<u8>)
    ensures
        prefix@ == entity_attrs_prefix_seq(thing_id),
        prefix@.len() == 19,
{
    proof {
        lemma_le_bytes_roundtrip();
    }
    concat(tag_ea(), u128_to_le_bytes(thing_id))
}

/// `e: ‖ edge ‖ from ‖ to`: the forward record of an edge.
pub fn edge_key(edge_hash: u64, from: u128, to: u128) -> (key: Vec<u8>)
    ensures
        key@ == edge_key_seq(edge_hash, from, to),
        key@.len() == 42,
{
    proof {
        lemma_le_bytes_roundtrip();
    }
    let k = concat(tag_e(), u64_to_le_bytes(edge_hash));
    let k = concat(k, u128_to_le_bytes(from));
    concat(k, u128_to_le_bytes(to))
}

/// `e: ‖ edge ‖ from`: the prefix of all forward records leaving `from`.
pub fn outgoing_edge_prefix(edge_hash: u64, from: u128) -> (prefix: Vec<u8>)
    ensures
        prefix@ == outgoing_edge_prefix_seq(edge_hash, from),
        prefix@.len() == 26,
{
    proof {
        lemma_le_bytes_roundtrip();
    }
    let k = concat(tag_e(), u64_to_le_bytes(edge_hash));
    concat(k, u128_to_le_bytes(from))
}

/// `er: ‖ edge ‖ to ‖ from`: the reverse record of an edge.
pub fn reverse_edge_key(edge_hash: u64, to: u128, from: u128) -> (key: Vec<u8>)
    ensures
        key@ == reverse_edge_key_seq(edge_hash, to, from),
        key@.len() == 43,
{
    proof {
        lemma_le_bytes_roundtrip();
    }
    let k = concat(tag_er(), u64_to_le_bytes(edge_hash));
    let k = concat(k, u128_to_le_bytes(to));
    concat(k, u128_to_le_bytes(from))
}

/// `er: ‖ edge ‖ to`: the prefix of all reverse records arriving at `to`.
pub fn incoming_edge_prefix(edge_hash: u64, to: u128) -> (prefix: Vec<u8>)
    ensures
        prefix@ == incoming_edge_prefix_seq(edge_hash, to),
        prefix@.len() == 27,
{
    proof {
        lemma_le_bytes_roundtrip();
    }
    let k = concat(tag_er(), u64_to_le_bytes(edge_hash));
    concat(k, u128_to_le_bytes(to))
}

fn id_from(key: &[u8], start: usize) -> (r: Option<u128>)
    requires
        start <= 64,
    ensures
        r == id_at(key@, start as int),
{
    if key.len() >= start + 16 {
        Some(u128_from_le_bytes(slice_subrange(key, start, start + 16)))
    } else {
        None
    }
}

/// The entity of an attribute index key (`ai: ‖ attribute ‖ entity`): bytes 11..27.
pub fn parse_attr_index_key(key: &[u8]) -> (r: Option<u128>)
    ensures
        r == id_at(key@, 11),
{
    id_from(key, 11)
}

/// The target of a forward edge key (`e: ‖ edge ‖ from ‖ to`): bytes 26..42.
pub fn parse_edge_target(key: &[u8]) -> (r: Option<u128>)
    ensures
        r == id_at(key@, 26),
{
    id_from(key, 26)
}

/// The source of a reverse edge key (`er: ‖ edge ‖ to ‖ from`): bytes 27..43.
pub fn parse_reverse_edge_source(key: &[u8]) -> (r: Option<u128>)
    ensures
        r == id_at(key@, 27),
{
    id_from(key, 27)
}

/// The archetype id held by an entity's archetype record.
pub fn decode_archetype_value(value: &[u8]) -> (r: u64)
    ensures
        r == archetype_value(value@),
{
    if value.len() >= 8 {
        u64_from_le_bytes(slice_subrange(value, 0, 8))
    } else {
        0
    }
}

/// The attribute hash held by an entity's attribute record.
pub fn decode_attr_value(value: &[u8]) -> (r: Option<u64>)
    ensures
        r == attr_value(value@),
{
    if value.len() >= 8 {
        Some(u64_from_le_bytes(slice_subrange(value, 0, 8)))
    } else {
        None
    }
}

/// The value stored under `eta:` and `ea:` records: eight little-endian bytes.
pub fn u64_value(x: u64) -> (v: Vec<u8>)
    ensures
        v@ == le64(x),
        archetype_value(v@) == x,
        attr_value(v@) == Some(x),
{
    proof {
        lemma_le_bytes_roundtrip();
        assert(le64(x).subrange(0, 8) =~= le64(x));
    }
    u64_to_le_bytes(x)
}

/// Whether `key` begins with `prefix`.
pub fn has_prefix(key: &[u8], prefix: &[u8]) -> (r: bool)
    ensures
        r == (prefix@.len() <= key@.len() && key@.subrange(0, prefix@.len() as int) == prefix@),
{
    if prefix.len() > key.len() {
        return false;
    }
    let mut i: usize = 0;
    while i < prefix.len()
        invariant
            prefix@.len() <= key@.len(),
            i <= prefix@.len(),
            forall|j: int| 0 <= j < i ==> key@[j] == prefix@[j],
        decreases prefix@.len() - i,
    {
        if key[i] != prefix[i] {
            assert(key@.subrange(0, prefix@.len() as int)[i as int] != prefix@[i as int]);
            return false;
        }
        i = i + 1;
    }
    assert(key@.subrange(0, prefix@.len() as int) =~= prefix@);
    true
}

/// Whether two byte strings are equal.
pub fn bytes_eq(a: &[u8], b: &[u8]) -> (r: bool)
    ensures
        r == (a@ == b@),
{
    if a.len() != b.len() {
        return false;
    }
    let mut i: usize = 0;
    while i < a.len()
        invariant
            a@.len() == b@.len(),
            i <= a@.len(),
            forall|j: int| 0 <= j < i ==> a@[j] == b@[j],
        decreases a@.len() - i,
    {
        if a[i] != b[i] {
            return false;
        }
        i = i + 1;
    }
    assert(a@ =~= b@);
    true
}

/// A data key decodes to the fields it was encoded from.
pub proof fn law_data_key_roundtrip(archetype_id: u64, attr_hash: u64, thing_id: u128)
    ensures
        decoded_data_key(data_key(archetype_id, attr_hash, thing_id)) == Some(
            (archetype_id, attr_hash, thing_id),
        ),
{
    lemma_le_bytes_roundtrip();
    let k = data_key(archetype_id, attr_hash, thing_id);
    assert(k.subrange(0, 8) =~= le64(archetype_id));
    assert(k.subrange(8, 16) =~= le64(attr_hash));
    assert(k.subrange(16, 32) =~= le128(thing_id));
}

/// Distinct field triples give distinct data keys.
pub proof fn law_data_key_injective(a1: u64, h1: u64, t1: u128, a2: u64, h2: u64, t2: u128)
    ensures
        data_key(a1, h1, t1) == data_key(a2, h2, t2) <==> (a1 == a2 && h1 == h2 && t1 == t2),
{
    law_data_key_roundtrip(a1, h1, t1);
    law_data_key_roundtrip(a2, h2, t2);
}

/// Every 32-byte key is the data key of the fields it decodes to.
pub proof fn law_decode_then_encode(key: Seq<u8>)
    requires
        key.len() == 32,
    ensures
        decoded_data_key(key) matches Some((a, h, t)) && data_key(a, h, t) == key,
{
    lemma_auto_spec_u64_to_from_le_bytes();
    lemma_auto_spec_u128_to_from_le_bytes();
    let a = spec_u64_from_le_bytes(key.subrange(0, 8));
    let h = spec_u64_from_le_bytes(key.subrange(8, 16));
    let t = spec_u128_from_le_bytes(key.subrange(16, 32));
    assert(spec_u64_to_le_bytes(spec_u64_from_le_bytes(key.subrange(0, 8))) == key.subrange(0, 8));
    assert(spec_u64_to_le_bytes(spec_u64_from_le_bytes(key.subrange(8, 16))) == key.subrange(8, 16));
    assert(spec_u128_to_le_bytes(spec_u128_from_le_bytes(key.subrange(16, 32))) == key.subrange(16, 32));
    assert(data_key(a, h, t) =~= key);
}


/// Whether `key` begins with `prefix`: the test a prefix scan applies to each key.
pub open spec fn starts_with(key: Seq<u8>, prefix: Seq<u8>) -> bool {
    prefix.len() <= key.len() && key.subrange(0, prefix.len() as int) == prefix
}

proof fn lemma_concat_eq(a1: Seq<u8>, b1: Seq<u8>, a2: Seq<u8>, b2: Seq<u8>)
    requires
        a1.len() == a2.len(),
    ensures
        (a1 + b1 == a2 + b2) <==> (a1 == a2 && b1 == b2),
{
    if a1 + b1 == a2 + b2 {
        assert(a1 =~= (a1 + b1).subrange(0, a1.len() as int));
        assert(a2 =~= (a2 + b2).subrange(0, a1.len() as int));
        assert(b1 =~= (a1 + b1).subrange(a1.len() as int, (a1 + b1).len() as int));
        assert(b2 =~= (a2 + b2).subrange(a1.len() as int, (a2 + b2).len() as int));
    }
}

proof fn lemma_head(a: Seq<u8>, b: Seq<u8>)
    ensures
        (a + b).subrange(0, a.len() as int) == a,
{
    assert((a + b).subrange(0, a.len() as int) =~= a);
}

proof fn lemma_le_injective(x: u64, y: u64, u: u128, v: u128)
    ensures
        le64(x) == le64(y) <==> x == y,
        le128(u) == le128(v) <==> u == v,
{
    lemma_le_bytes_roundtrip();
    assert(le64(x).len() == 8);
    assert(le128(u).len() == 16);
    assert(le64(y).len() == 8);
    assert(le128(v).len() == 16);
}

/// An edge is read back from both of its records, and a prefix scan finds a record
/// exactly when it asks for the record's own edge type and endpoint: the forward
/// record under the source, the reverse record under the target.
pub proof fn law_edge_keys(edge_hash: u64, from: u128, to: u128, scan_hash: u64, scan_thing: u128)
    ensures
        id_at(edge_key_seq(edge_hash, from, to), 26) == Some(to),
        id_at(reverse_edge_key_seq(edge_hash, to, from), 27) == Some(from),
        starts_with(edge_key_seq(edge_hash, from, to), outgoing_edge_prefix_seq(scan_hash, scan_thing))
            <==> (scan_hash == edge_hash && scan_thing == from),
        starts_with(reverse_edge_key_seq(edge_hash, to, from), incoming_edge_prefix_seq(scan_hash, scan_thing))
            <==> (scan_hash == edge_hash && scan_thing == to),
{
    lemma_le_bytes_roundtrip();
    lemma_le_injective(edge_hash, scan_hash, from, scan_thing);
    lemma_le_injective(edge_hash, scan_hash, to, scan_thing);
    let k = edge_key_seq(edge_hash, from, to);
    let head = edge_tag() + le64(edge_hash) + le128(from);
    assert(k.subrange(26, 42) =~= le128(to));
    lemma_head(head, le128(to));
    lemma_concat_eq(edge_tag() + le64(edge_hash), le128(from), edge_tag() + le64(scan_hash), le128(scan_thing));
    lemma_concat_eq(edge_tag(), le64(edge_hash), edge_tag(), le64(scan_hash));
    let r = reverse_edge_key_seq(edge_hash, to, from);
    let rhead = reverse_edge_tag() + le64(edge_hash) + le128(to);
    assert(r.subrange(27, 43) =~= le128(from));
    lemma_head(rhead, le128(from));
    lemma_concat_eq(reverse_edge_tag() + le64(edge_hash), le128(to), reverse_edge_tag() + le64(scan_hash), le128(scan_thing));
    lemma_concat_eq(reverse_edge_tag(), le64(edge_hash), reverse_edge_tag(), le64(scan_hash));
}

/// An index record reads back to its entity, and the scan of an attribute finds it
/// exactly when it is that record's attribute.
pub proof fn law_attr_index_keys(attr_hash: u64, thing_id: u128, scan_hash: u64)
    ensures
        id_at(attr_index_key_seq(attr_hash, thing_id), 11) == Some(thing_id),
        starts_with(attr_index_key_seq(attr_hash, thing_id), attr_index_prefix_seq(scan_hash))
            <==> scan_hash == attr_hash,
{
    lemma_le_bytes_roundtrip();
    lemma_le_injective(attr_hash, scan_hash, thing_id, thing_id);
    let k = attr_index_key_seq(attr_hash, thing_id);
    assert(k.subrange(11, 27) =~= le128(thing_id));
    lemma_head(attr_index_prefix_seq(attr_hash), le128(thing_id));
    lemma_concat_eq(attr_index_tag(), le64(attr_hash), attr_index_tag(), le64(scan_hash));
}

/// The attribute records of one entity are found by the scan of that entity and of
/// no other, and each reads back to its attribute.
pub proof fn law_entity_attr_keys(thing_id: u128, attr_hash: u64, scan_thing: u128)
    ensures
        attr_value(le64(attr_hash)) == Some(attr_hash),
        starts_with(entity_attr_key_seq(thing_id, attr_hash), entity_attrs_prefix_seq(scan_thing))
            <==> scan_thing == thing_id,
{
    lemma_le_bytes_roundtrip();
    lemma_le_injective(attr_hash, attr_hash, thing_id, scan_thing);
    assert(le64(attr_hash).subrange(0, 8) =~= le64(attr_hash));
    lemma_head(entity_attrs_prefix_seq(thing_id), le64(attr_hash));
    lemma_concat_eq(entity_attr_tag(), le128(thing_id), entity_attr_tag(), le128(scan_thing));
}

/// A data key lies under the archetype prefix of its own archetype only, and under
/// the attribute prefix of its own archetype and attribute only.
pub proof fn law_data_key_prefixes(
    archetype_id: u64,
    attr_hash: u64,
    thing_id: u128,
    scan_archetype: u64,
    scan_attr: u64,
)
    ensures
        starts_with(data_key(archetype_id, attr_hash, thing_id), le64(scan_archetype))
            <==> scan_archetype == archetype_id,
        starts_with(data_key(archetype_id, attr_hash, thing_id), le64(scan_archetype) + le64(scan_attr))
            <==> (scan_archetype == archetype_id && scan_attr == attr_hash),
{
    lemma_le_bytes_roundtrip();
    lemma_le_injective(archetype_id, scan_archetype, thing_id, thing_id);
    lemma_le_injective(attr_hash, scan_attr, thing_id, thing_id);
    let head = le64(archetype_id) + le64(attr_hash);
    lemma_head(head, le128(thing_id));
    lemma_head(le64(archetype_id), le64(attr_hash) + le128(thing_id));
    assert(data_key(archetype_id, attr_hash, thing_id) =~= le64(archetype_id) + (le64(attr_hash) + le128(thing_id)));
    lemma_concat_eq(le64(archetype_id), le64(attr_hash), le64(scan_archetype), le64(scan_attr));
}

/// The attribute hashes read from the values of a scan of attribute records, in
/// scan order, skipping values too short to hold one.
pub open spec fn attrs_in_values(values: Seq<Vec<u8>>) -> Seq<u64>
    decreases values.len(),
{
    if values.len() == 0 {
        Seq::empty()
    } else {
        let rest = attrs_in_values(values.drop_last());
        match attr_value(values.last()@) {
            Some(a) => rest.push(a),
            None => rest,
        }
    }
}

/// The entity ids read at byte `start` of each key of a scan, in scan order,
/// skipping keys too short to hold one.
pub open spec fn ids_in_keys(keys: Seq<Vec<u8>>, start: int) -> Seq<u128>
    decreases keys.len(),
{
    if keys.len() == 0 {
        Seq::empty()
    } else {
        let rest = ids_in_keys(keys.drop_last(), start);
        match id_at(keys.last()@, start) {
            Some(t) => rest.push(t),
            None => rest,
        }
    }
}

/// The attribute set of an entity, from the values that the scan of its `ea:`
/// records returned.
pub fn attrs_from_values(values: &Vec<Vec<u8>>) -> (attrs: Vec<u64>)
    ensures
        attrs@ == attrs_in_values(values@),
{
    let mut attrs: Vec<u64> = Vec::new();
    let mut i: usize = 0;
    while i < values.len()
        invariant
            i <= values@.len(),
            attrs@ == attrs_in_values(values@.take(i as int)),
        decreases values@.len() - i,
    {
        assert(values@.take(i + 1).drop_last() =~= values@.take(i as int));
        match decode_attr_value(values[i].as_slice()) {
            Some(a) => attrs.push(a),
            None => {},
        }
        i = i + 1;
    }
    assert(values@.take(i as int) =~= values@);
    attrs
}

pub(crate) fn ids_from_keys(keys: &Vec<Vec<u8>>, start: usize) -> (ids: Vec<u128>)
    requires
        start <= 64,
    ensures
        ids@ == ids_in_keys(keys@, start as int),
{
    let mut ids: Vec<u128> = Vec::new();
    let mut i: usize = 0;
    while i < keys.len()
        invariant
            start <= 64,
            i <= keys@.len(),
            ids@ == ids_in_keys(keys@.take(i as int), start as int),
        decreases keys@.len() - i,
    {
        assert(keys@.take(i + 1).drop_last() =~= keys@.take(i as int));
        match id_from(keys[i].as_slice(), start) {
            Some(t) => ids.push(t),
            None => {},
        }
        i = i + 1;
    }
    assert(keys@.take(i as int) =~= keys@);
    ids
}

/// The entities that carry an attribute, from the keys that the scan of its `ai:`
/// records returned.
pub fn entities_from_index_keys(keys: &Vec<Vec<u8>>) -> (ids: Vec<u128>)
    ensures
        ids@ == ids_in_keys(keys@, 11),
{
    ids_from_keys(keys, 11)
}

/// The attribute and index records of distinct (entity, attribute) pairs are distinct,
/// the two kinds never share a key, and neither shares a length with archetype records
/// (20 bytes) or data keys (32 bytes).
pub proof fn lemma_record_keys(t: u128, g: u64, u: u128, h: u64)
    ensures
        entity_attr_key_seq(t, g) == entity_attr_key_seq(u, h) <==> (t == u && g == h),
        attr_index_key_seq(g, t) == attr_index_key_seq(h, u) <==> (t == u && g == h),
        entity_attr_key_seq(t, g) != attr_index_key_seq(h, u),
        entity_attr_key_seq(t, g).len() == 27,
        attr_index_key_seq(g, t).len() == 27,
        entity_attr_key_seq(t, g)[0] == 101u8,
        entity_attr_key_seq(t, g)[1] == 97u8,
        attr_index_key_seq(g, t)[0] == 97u8,
        entity_archetype_key_seq(t).len() == 20,
{
    lemma_le_bytes_roundtrip();
    lemma_le_injective(g, h, t, u);
    lemma_concat_eq(entity_attr_tag() + le128(t), le64(g), entity_attr_tag() + le128(u), le64(h));
    lemma_concat_eq(entity_attr_tag(), le128(t), entity_attr_tag(), le128(u));
    lemma_concat_eq(attr_index_tag() + le64(g), le128(t), attr_index_tag() + le64(h), le128(u));
    lemma_concat_eq(attr_index_tag(), le64(g), attr_index_tag(), le64(h));
    assert(entity_attr_key_seq(t, g)[0] == 101u8);
    assert(attr_index_key_seq(h, u)[0] == 97u8);
}

} // verus!

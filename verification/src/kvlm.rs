//! The key-value-list-with-message codec shared by commit and tag objects.
//!
//! A record is a run of `key SP value NL` lines; a value continues over the
//! next physical line when that line begins with one space, the space being
//! stripped and the pieces joined by a newline. The first blank line ends the
//! field section; everything after it is the literal message. Keys may
//! repeat: values are kept as an ordered list per key, and keys keep their
//! first-occurrence order.

use vstd::prelude::*;
use vstd::slice::{slice_index_get, slice_subrange, slice_to_vec};
use crate::util::{NL, SP, spec_find, find_byte, lemma_find_props, lemma_find_is,
    lemma_find_is_none};

verus! {

/// One field: a key and its ordered values.
#[derive(Debug)]
pub struct KvField {
    pub key: Vec<u8>,
    pub values: Vec<Vec<u8>>,
}

/// An ordered key-value list plus the trailing free-text message.
#[derive(Debug)]
pub struct Kvlm {
    pub fields: Vec<KvField>,
    pub message: Vec<u8>,
}

/// Mathematical model of one field.
pub struct SpecField {
    pub key: Seq<u8>,
    pub values: Seq<Seq<u8>>,
}

/// Mathematical model of a record.
pub struct SpecKvlm {
    pub fields: Seq<SpecField>,
    pub message: Seq<u8>,
}

impl View for KvField {
    type V = SpecField;

    open spec fn view(&self) -> SpecField {
        SpecField {
            key: self.key@,
            values: Seq::new(self.values@.len(), |i: int| self.values@[i]@),
        }
    }
}

impl View for Kvlm {
    type V = SpecKvlm;

    open spec fn view(&self) -> SpecKvlm {
        SpecKvlm {
            fields: Seq::new(self.fields@.len(), |i: int| self.fields@[i]@),
            message: self.message@,
        }
    }
}

// ---------------------------------------------------------------------------
// Continuation folding
// ---------------------------------------------------------------------------

/// Wire form of a value: one space inserted after every newline.
pub open spec fn fold_nl(v: Seq<u8>) -> Seq<u8>
    decreases v.len(),
{
    if v.len() == 0 {
        Seq::empty()
    } else if v[0] == NL {
        seq![NL, SP] + fold_nl(v.skip(1))
    } else {
        seq![v[0]] + fold_nl(v.skip(1))
    }
}

/// Stored form of a value: one space dropped after every newline.
pub open spec fn unfold_nl(v: Seq<u8>) -> Seq<u8>
    decreases v.len(),
{
    if v.len() == 0 {
        Seq::empty()
    } else if v.len() >= 2 && v[0] == NL && v[1] == SP {
        seq![NL] + unfold_nl(v.skip(2))
    } else {
        seq![v[0]] + unfold_nl(v.skip(1))
    }
}

/// Unfolding inverts folding.
pub proof fn lemma_unfold_fold(v: Seq<u8>)
    ensures
        unfold_nl(fold_nl(v)) == v,
    decreases v.len(),
{
    if v.len() == 0 {
        assert(unfold_nl(fold_nl(v)) =~= v);
    } else if v[0] == NL {
        lemma_unfold_fold(v.skip(1));
        let f = fold_nl(v);
        assert(f == seq![NL, SP] + fold_nl(v.skip(1)));
        assert(f.len() >= 2 && f[0] == NL && f[1] == SP);
        assert(f.skip(2) =~= fold_nl(v.skip(1)));
        assert(unfold_nl(f) == seq![NL] + unfold_nl(fold_nl(v.skip(1))));
        assert(unfold_nl(f) =~= v);
    } else {
        lemma_unfold_fold(v.skip(1));
        let f = fold_nl(v);
        assert(f == seq![v[0]] + fold_nl(v.skip(1)));
        assert(f[0] == v[0] && f[0] != NL);
        assert(f.skip(1) =~= fold_nl(v.skip(1)));
        assert(unfold_nl(f) == seq![v[0]] + unfold_nl(fold_nl(v.skip(1))));
        assert(unfold_nl(f) =~= v);
    }
}

/// Every newline inside a folded value is followed by a space.
pub proof fn lemma_fold_nl_shape(v: Seq<u8>)
    ensures
        forall|p: int|
            0 <= p < fold_nl(v).len() && #[trigger] fold_nl(v)[p] == NL ==> p + 1 < fold_nl(
                v,
            ).len() && fold_nl(v)[p + 1] == SP,
    decreases v.len(),
{
    if v.len() > 0 {
        lemma_fold_nl_shape(v.skip(1));
        let f = fold_nl(v);
        let t = fold_nl(v.skip(1));
        let h: int = if v[0] == NL { 2 } else { 1 };
        assert forall|p: int| 0 <= p < f.len() && #[trigger] f[p] == NL implies p + 1 < f.len()
            && f[p + 1] == SP by {
            if p >= h {
                assert(f[p] == t[p - h]);
                assert(t[p - h] == NL);
                assert(p - h + 1 < t.len());
                assert(f[p + 1] == t[p - h + 1]);
            }
        }
    }
}

// ---------------------------------------------------------------------------
// Parsing
// ---------------------------------------------------------------------------

/// End of the value that starts before position `i`: the first newline at or
/// after `i` that is not followed by a space, or the end of the buffer.
pub open spec fn value_end(raw: Seq<u8>, i: int) -> int
    decreases raw.len() - i,
{
    if i < 0 || i >= raw.len() {
        raw.len() as int
    } else if raw[i] == NL && (i + 1 >= raw.len() || raw[i + 1] != SP) {
        i
    } else {
        value_end(raw, i + 1)
    }
}

/// `value_end` stays within the buffer.
pub proof fn lemma_value_end_bounds(raw: Seq<u8>, i: int)
    requires
        0 <= i <= raw.len(),
    ensures
        i <= value_end(raw, i) <= raw.len(),
    decreases raw.len() - i,
{
    if i < raw.len() && !(raw[i] == NL && (i + 1 >= raw.len() || raw[i + 1] != SP)) {
        lemma_value_end_bounds(raw, i + 1);
    }
}

/// `value_end` returns exactly the first qualifying position.
pub proof fn lemma_value_end_is(raw: Seq<u8>, i: int, e: int)
    requires
        0 <= i <= e <= raw.len(),
        e < raw.len() ==> raw[e] == NL && (e + 1 >= raw.len() || raw[e + 1] != SP),
        forall|j: int|
            i <= j < e ==> !(#[trigger] raw[j] == NL && (j + 1 >= raw.len() || raw[j + 1] != SP)),
    ensures
        value_end(raw, i) == e,
    decreases e - i,
{
    if i < e {
        lemma_value_end_is(raw, i + 1, e);
    }
}

/// Index of the first field with the given key, or -1.
pub open spec fn first_key_index(fields: Seq<SpecField>, key: Seq<u8>) -> int
    decreases fields.len(),
{
    if fields.len() == 0 {
        -1
    } else if fields[0].key == key {
        0
    } else {
        let r = first_key_index(fields.skip(1), key);
        if r < 0 {
            -1
        } else {
            r + 1
        }
    }
}

/// What `first_key_index` returns: the first match, or -1 when none.
pub proof fn lemma_first_key_index(fields: Seq<SpecField>, key: Seq<u8>)
    ensures
        ({
            let r = first_key_index(fields, key);
            &&& r == -1 || 0 <= r < fields.len()
            &&& r >= 0 ==> fields[r].key == key && (forall|j: int|
                0 <= j < r ==> #[trigger] fields[j].key != key)
            &&& r == -1 ==> forall|j: int|
                0 <= j < fields.len() ==> #[trigger] fields[j].key != key
        }),
    decreases fields.len(),
{
    if fields.len() > 0 && fields[0].key != key {
        lemma_first_key_index(fields.skip(1), key);
        let r = first_key_index(fields.skip(1), key);
        if r >= 0 {
            assert forall|j: int| 0 <= j < r + 1 implies #[trigger] fields[j].key != key by {
                if j > 0 {
                    assert(fields.skip(1)[j - 1].key != key);
                    assert(fields.skip(1)[j - 1] == fields[j]);
                }
            }
        } else {
            assert forall|j: int| 0 <= j < fields.len() implies #[trigger] fields[j].key
                != key by {
                if j > 0 {
                    assert(fields.skip(1)[j - 1].key != key);
                    assert(fields.skip(1)[j - 1] == fields[j]);
                }
            }
        }
    }
}

/// The first match at `i` with none before it pins `first_key_index` to `i`.
pub proof fn lemma_first_key_index_is(fields: Seq<SpecField>, key: Seq<u8>, i: int)
    requires
        0 <= i < fields.len(),
        fields[i].key == key,
        forall|j: int| 0 <= j < i ==> #[trigger] fields[j].key != key,
    ensures
        first_key_index(fields, key) == i,
{
    lemma_first_key_index(fields, key);
    let r = first_key_index(fields, key);
    if r == -1 {
        assert(fields[i].key != key);
    } else if r < i {
        assert(fields[r].key != key);
    } else if r > i {
        assert(fields[i].key != key);
    }
}

/// No match at all pins `first_key_index` to -1.
pub proof fn lemma_first_key_index_none(fields: Seq<SpecField>, key: Seq<u8>)
    requires
        forall|j: int| 0 <= j < fields.len() ==> #[trigger] fields[j].key != key,
    ensures
        first_key_index(fields, key) == -1,
{
    lemma_first_key_index(fields, key);
    let r = first_key_index(fields, key);
    if r >= 0 {
        assert(fields[r].key != key);
    }
}

/// Prepends the pair `(key, value)` to parsed fields: appended at the front
/// of the existing entry for `key` when one exists, else as a new front
/// field.
pub open spec fn combine(key: Seq<u8>, value: Seq<u8>, fields: Seq<SpecField>) -> Seq<SpecField> {
    let i = first_key_index(fields, key);
    if i >= 0 {
        seq![SpecField { key: key, values: seq![value] + fields[i].values }] + fields.remove(i)
    } else {
        seq![SpecField { key: key, values: seq![value] }] + fields
    }
}

/// The parse of a record: ordered fields and the trailing message.
///
/// The field section ends at the first blank line. A record position with no
/// space before the next newline (or none at all) makes the rest of the
/// buffer the message. A value line extends over every following line that
/// begins with a space.
pub open spec fn parse_fields(raw: Seq<u8>) -> SpecKvlm
    decreases raw.len(),
    via parse_fields_decreases
{
    if raw.len() == 0 {
        SpecKvlm { fields: seq![], message: seq![] }
    } else if raw[0] == NL {
        SpecKvlm { fields: seq![], message: raw.skip(1) }
    } else {
        let spc = spec_find(raw, SP, 0);
        let nl = spec_find(raw, NL, 0);
        if spc is None || (nl is Some && nl->0 < spc->0) {
            SpecKvlm { fields: seq![], message: raw }
        } else {
            let s = spc->0;
            let key = raw.take(s);
            let end = value_end(raw, s);
            let value = unfold_nl(raw.subrange(s + 1, end));
            if end >= raw.len() {
                SpecKvlm { fields: seq![SpecField { key: key, values: seq![value] }], message: seq![] }
            } else {
                let rest = parse_fields(raw.skip(end + 1));
                SpecKvlm { fields: combine(key, value, rest.fields), message: rest.message }
            }
        }
    }
}

#[via_fn]
proof fn parse_fields_decreases(raw: Seq<u8>) {
    if raw.len() > 0 && raw[0] != NL {
        let spc = spec_find(raw, SP, 0);
        let nl = spec_find(raw, NL, 0);
        if !(spc is None || (nl is Some && nl->0 < spc->0)) {
            lemma_find_props(raw, SP, 0);
            let s = spc->0;
            lemma_value_end_bounds(raw, s);
        }
    }
}

// ---------------------------------------------------------------------------
// Serialization
// ---------------------------------------------------------------------------

/// Wire text of one value line of `key`.
pub open spec fn ser_value(key: Seq<u8>, value: Seq<u8>) -> Seq<u8> {
    key + seq![SP] + fold_nl(value) + seq![NL]
}

/// Wire text of all value lines of one field.
pub open spec fn ser_values(key: Seq<u8>, values: Seq<Seq<u8>>) -> Seq<u8>
    decreases values.len(),
{
    if values.len() == 0 {
        Seq::empty()
    } else {
        ser_value(key, values[0]) + ser_values(key, values.skip(1))
    }
}

/// Wire text of the field section.
pub open spec fn ser_fields(fields: Seq<SpecField>) -> Seq<u8>
    decreases fields.len(),
{
    if fields.len() == 0 {
        Seq::empty()
    } else {
        ser_values(fields[0].key, fields[0].values) + ser_fields(fields.skip(1))
    }
}

/// Wire text of a whole record: fields, a blank line, the message.
pub open spec fn ser_kvlm(k: SpecKvlm) -> Seq<u8> {
    ser_fields(k.fields) + seq![NL] + k.message
}

/// Serializing one more value appends one more line.
pub proof fn lemma_ser_values_push(key: Seq<u8>, values: Seq<Seq<u8>>, v: Seq<u8>)
    ensures
        ser_values(key, values.push(v)) == ser_values(key, values) + ser_value(key, v),
    decreases values.len(),
{
    if values.len() == 0 {
        let e = Seq::<Seq<u8>>::empty();
        assert(values.push(v)[0] == v);
        assert(values.push(v).skip(1) =~= e);
        assert(ser_values(key, e) == Seq::<u8>::empty());
        assert(ser_values(key, values.push(v)) == ser_value(key, v) + ser_values(key, e));
        assert(ser_values(key, values) == Seq::<u8>::empty());
        assert(ser_values(key, values.push(v)) =~= ser_values(key, values) + ser_value(key, v));
    } else {
        assert(values.push(v)[0] == values[0]);
        assert(values.push(v).skip(1) =~= values.skip(1).push(v));
        lemma_ser_values_push(key, values.skip(1), v);
        assert(ser_values(key, values.push(v)) == ser_value(key, values[0]) + ser_values(
            key,
            values.skip(1).push(v),
        ));
        assert(ser_values(key, values) == ser_value(key, values[0]) + ser_values(
            key,
            values.skip(1),
        ));
        assert(ser_values(key, values.push(v)) =~= ser_values(key, values) + ser_value(key, v));
    }
}

/// Serializing one more field appends its lines.
pub proof fn lemma_ser_fields_push(fields: Seq<SpecField>, f: SpecField)
    ensures
        ser_fields(fields.push(f)) == ser_fields(fields) + ser_values(f.key, f.values),
    decreases fields.len(),
{
    if fields.len() == 0 {
        let e = Seq::<SpecField>::empty();
        assert(fields.push(f)[0] == f);
        assert(fields.push(f).skip(1) =~= e);
        assert(ser_fields(e) == Seq::<u8>::empty());
        assert(ser_fields(fields.push(f)) == ser_values(f.key, f.values) + ser_fields(e));
        assert(ser_fields(fields) == Seq::<u8>::empty());
        assert(ser_fields(fields.push(f)) =~= ser_fields(fields) + ser_values(f.key, f.values));
    } else {
        assert(fields.push(f)[0] == fields[0]);
        assert(fields.push(f).skip(1) =~= fields.skip(1).push(f));
        lemma_ser_fields_push(fields.skip(1), f);
        assert(ser_fields(fields.push(f)) == ser_values(fields[0].key, fields[0].values)
            + ser_fields(fields.skip(1).push(f)));
        assert(ser_fields(fields) == ser_values(fields[0].key, fields[0].values) + ser_fields(
            fields.skip(1),
        ));
        assert(ser_fields(fields.push(f)) =~= ser_fields(fields) + ser_values(f.key, f.values));
    }
}

// ---------------------------------------------------------------------------
// Well-formedness
// ---------------------------------------------------------------------------

/// A key carries neither a space nor a newline.
pub open spec fn wf_key(key: Seq<u8>) -> bool {
    forall|i: int| 0 <= i < key.len() ==> #[trigger] key[i] != SP && key[i] != NL
}

/// The records that serialize losslessly: clean distinct keys, each with at
/// least one value; only the first key may be empty, and then it holds a
/// single value.
pub open spec fn wf_kvlm(k: SpecKvlm) -> bool {
    &&& forall|i: int| 0 <= i < k.fields.len() ==> wf_key(#[trigger] k.fields[i].key)
    &&& forall|i: int| 0 <= i < k.fields.len() ==> #[trigger] k.fields[i].values.len() >= 1
    &&& forall|i: int| 1 <= i < k.fields.len() ==> #[trigger] k.fields[i].key.len() >= 1
    &&& (k.fields.len() >= 1 && k.fields[0].key.len() == 0 ==> k.fields[0].values.len() == 1)
    &&& forall|i: int, j: int|
        0 <= i < j < k.fields.len() ==> #[trigger] k.fields[i].key != #[trigger] k.fields[j].key
}

/// What `value_end` finds is a qualifying position with none before it.
pub proof fn lemma_value_end_props(raw: Seq<u8>, i: int)
    requires
        0 <= i <= raw.len(),
    ensures
        i <= value_end(raw, i) <= raw.len(),
        value_end(raw, i) < raw.len() ==> raw[value_end(raw, i)] == NL && (value_end(raw, i) + 1
            >= raw.len() || raw[value_end(raw, i) + 1] != SP),
        forall|j: int|
            i <= j < value_end(raw, i) ==> !(#[trigger] raw[j] == NL && (j + 1 >= raw.len()
                || raw[j + 1] != SP)),
    decreases raw.len() - i,
{
    if i < raw.len() && !(raw[i] == NL && (i + 1 >= raw.len() || raw[i + 1] != SP)) {
        lemma_value_end_props(raw, i + 1);
    }
}

/// Every parse is well formed: distinct clean keys, each with at least one
/// value; an empty key can only stand first (the buffer began with a space)
/// and then holds one value.
pub proof fn lemma_parse_wf(raw: Seq<u8>)
    ensures
        wf_kvlm(parse_fields(raw)),
        forall|i: int|
            0 <= i < parse_fields(raw).fields.len() && #[trigger] parse_fields(
                raw,
            ).fields[i].key.len() == 0 ==> i == 0 && raw.len() > 0 && raw[0] == SP,
    decreases raw.len(),
{
    let k = parse_fields(raw);
    if raw.len() == 0 || raw[0] == NL {
        // no fields
    } else {
        let spc = spec_find(raw, SP, 0);
        let nl = spec_find(raw, NL, 0);
        lemma_find_props(raw, SP, 0);
        lemma_find_props(raw, NL, 0);
        if spc is None || (nl is Some && nl->0 < spc->0) {
            // message only
        } else {
            let s = spc->0;
            let key = raw.take(s);
            lemma_value_end_props(raw, s);
            let end = value_end(raw, s);
            let value = unfold_nl(raw.subrange(s + 1, end));
            assert(wf_key(key)) by {
                assert forall|i: int| 0 <= i < key.len() implies #[trigger] key[i] != SP && key[i]
                    != NL by {
                    assert(key[i] == raw[i]);
                    if nl is Some {
                        assert(nl->0 > s);
                    }
                }
            }
            assert(key.len() == 0 ==> raw[0] == SP);
            if end >= raw.len() {
                // a single field
            } else {
                let rest_raw = raw.skip(end + 1);
                lemma_parse_wf(rest_raw);
                let rest = parse_fields(rest_raw);
                // the byte after the terminating newline is not a space, so
                // the first key of the rest is nonempty
                if rest_raw.len() > 0 {
                    assert(rest_raw[0] == raw[end + 1]);
                    assert(raw[end + 1] != SP);
                }
                assert(forall|i: int|
                    0 <= i < rest.fields.len() ==> #[trigger] rest.fields[i].key.len() >= 1);
                lemma_first_key_index(rest.fields, key);
                let i = first_key_index(rest.fields, key);
                if i >= 0 {
                    let merged = SpecField { key: key, values: seq![value] + rest.fields[i].values };
                    assert(k.fields =~= seq![merged] + rest.fields.remove(i));
                    assert(key.len() >= 1);
                    assert forall|a: int, b: int| 0 <= a < b < k.fields.len() implies
                        #[trigger] k.fields[a].key != #[trigger] k.fields[b].key by {
                        if a == 0 {
                            let b0 = if b - 1 < i { b - 1 } else { b };
                            assert(k.fields[b] == rest.fields[b0]);
                            if k.fields[b].key == key {
                                assert(rest.fields[b0].key == rest.fields[i].key);
                            }
                        } else {
                            let a0 = if a - 1 < i { a - 1 } else { a };
                            let b0 = if b - 1 < i { b - 1 } else { b };
                            assert(k.fields[a] == rest.fields[a0]);
                            assert(k.fields[b] == rest.fields[b0]);
                        }
                    }
                    assert(wf_kvlm(k));
                } else {
                    assert(k.fields =~= seq![SpecField { key: key, values: seq![value] }]
                        + rest.fields);
                    assert forall|a: int, b: int| 0 <= a < b < k.fields.len() implies
                        #[trigger] k.fields[a].key != #[trigger] k.fields[b].key by {
                        if a == 0 {
                            assert(k.fields[b] == rest.fields[b - 1]);
                        } else {
                            assert(k.fields[a] == rest.fields[a - 1]);
                            assert(k.fields[b] == rest.fields[b - 1]);
                        }
                    }
                    assert(wf_kvlm(k));
                }
            }
        }
    }
}

// ---------------------------------------------------------------------------
// Round trip
// ---------------------------------------------------------------------------

/// The `(key, value)` pairs of one field, one per value.
pub open spec fn pairs_of_field(key: Seq<u8>, values: Seq<Seq<u8>>) -> Seq<(Seq<u8>, Seq<u8>)>
    decreases values.len(),
{
    if values.len() == 0 {
        Seq::empty()
    } else {
        seq![(key, values[0])] + pairs_of_field(key, values.skip(1))
    }
}

/// The `(key, value)` pairs of a field list, flattened in order.
pub open spec fn pairs_of(fields: Seq<SpecField>) -> Seq<(Seq<u8>, Seq<u8>)>
    decreases fields.len(),
{
    if fields.len() == 0 {
        Seq::empty()
    } else {
        pairs_of_field(fields[0].key, fields[0].values) + pairs_of(fields.skip(1))
    }
}

/// Wire text of a pair list, one line per pair.
pub open spec fn ser_pairs(ps: Seq<(Seq<u8>, Seq<u8>)>) -> Seq<u8>
    decreases ps.len(),
{
    if ps.len() == 0 {
        Seq::empty()
    } else {
        ser_value(ps[0].0, ps[0].1) + ser_pairs(ps.skip(1))
    }
}

/// Groups a pair list back into fields, in first-occurrence key order.
pub open spec fn group_pairs(ps: Seq<(Seq<u8>, Seq<u8>)>) -> Seq<SpecField>
    decreases ps.len(),
{
    if ps.len() == 0 {
        Seq::empty()
    } else {
        combine(ps[0].0, ps[0].1, group_pairs(ps.skip(1)))
    }
}

/// Serializing a pair list splits over concatenation.
proof fn lemma_ser_pairs_concat(a: Seq<(Seq<u8>, Seq<u8>)>, b: Seq<(Seq<u8>, Seq<u8>)>)
    ensures
        ser_pairs(a + b) == ser_pairs(a) + ser_pairs(b),
    decreases a.len(),
{
    if a.len() == 0 {
        assert(a + b =~= b);
        assert(ser_pairs(a) == Seq::<u8>::empty());
        assert(ser_pairs(a + b) =~= ser_pairs(a) + ser_pairs(b));
    } else {
        assert((a + b)[0] == a[0]);
        assert((a + b).skip(1) =~= a.skip(1) + b);
        lemma_ser_pairs_concat(a.skip(1), b);
        assert(ser_pairs(a + b) =~= ser_pairs(a) + ser_pairs(b));
    }
}

/// One field's lines are the lines of its pairs.
proof fn lemma_ser_values_pairs(key: Seq<u8>, values: Seq<Seq<u8>>)
    ensures
        ser_values(key, values) == ser_pairs(pairs_of_field(key, values)),
    decreases values.len(),
{
    if values.len() == 0 {
        assert(ser_values(key, values) =~= ser_pairs(pairs_of_field(key, values)));
    } else {
        lemma_ser_values_pairs(key, values.skip(1));
        let ps = pairs_of_field(key, values);
        assert(ps == seq![(key, values[0])] + pairs_of_field(key, values.skip(1)));
        assert(ps[0] == (key, values[0]));
        assert(ps.skip(1) =~= pairs_of_field(key, values.skip(1)));
        assert(ser_pairs(ps) == ser_value(key, values[0]) + ser_pairs(ps.skip(1)));
        assert(ser_values(key, values) =~= ser_pairs(ps));
    }
}

/// The field section's text is the text of the flattened pairs.
proof fn lemma_ser_fields_pairs(fields: Seq<SpecField>)
    ensures
        ser_fields(fields) == ser_pairs(pairs_of(fields)),
    decreases fields.len(),
{
    if fields.len() == 0 {
        assert(ser_fields(fields) =~= ser_pairs(pairs_of(fields)));
    } else {
        lemma_ser_fields_pairs(fields.skip(1));
        lemma_ser_values_pairs(fields[0].key, fields[0].values);
        lemma_ser_pairs_concat(
            pairs_of_field(fields[0].key, fields[0].values),
            pairs_of(fields.skip(1)),
        );
        assert(ser_fields(fields) =~= ser_pairs(pairs_of(fields)));
    }
}

/// Parsing the wire text of a pair list recovers its grouping and message.
proof fn lemma_parse_pairs(ps: Seq<(Seq<u8>, Seq<u8>)>, msg: Seq<u8>)
    requires
        forall|i: int| 0 <= i < ps.len() ==> wf_key(#[trigger] ps[i].0),
        forall|i: int| 1 <= i < ps.len() ==> #[trigger] ps[i].0.len() >= 1,
    ensures
        parse_fields(ser_pairs(ps) + seq![NL] + msg) == (SpecKvlm {
            fields: group_pairs(ps),
            message: msg,
        }),
    decreases ps.len(),
{
    let raw = ser_pairs(ps) + seq![NL] + msg;
    if ps.len() == 0 {
        assert(ser_pairs(ps) == Seq::<u8>::empty());
        assert(raw =~= seq![NL] + msg);
        assert(raw[0] == NL);
        assert(raw.skip(1) =~= msg);
        assert(parse_fields(raw).fields =~= group_pairs(ps));
    } else {
        let key = ps[0].0;
        let v = ps[0].1;
        let f = fold_nl(v);
        let kl = key.len() as int;
        let fl = f.len() as int;
        let rest_text = ser_pairs(ps.skip(1)) + seq![NL] + msg;
        assert(ser_pairs(ps) == ser_value(key, v) + ser_pairs(ps.skip(1)));
        assert(ser_value(key, v) == key + seq![SP] + f + seq![NL]);
        assert(raw =~= key + seq![SP] + f + seq![NL] + rest_text);
        let e = kl + 1 + fl;
        assert(raw.len() == e + 1 + rest_text.len());
        // the bytes of each region
        assert(forall|j: int| 0 <= j < kl ==> raw[j] == key[j]);
        assert(raw[kl] == SP);
        assert(forall|j: int| 0 <= j < fl ==> raw[kl + 1 + j] == f[j]);
        assert(raw[e] == NL);
        assert(forall|j: int| 0 <= j < rest_text.len() ==> raw[e + 1 + j] == rest_text[j]);
        assert(wf_key(key));
        // the head is not a blank line
        if kl > 0 {
            assert(raw[0] == key[0]);
            assert(key[0] != NL);
        } else {
            assert(raw[0] == SP);
        }
        assert(raw[0] != NL);
        // the first space is the separator after the key
        assert forall|j: int| 0 <= j < kl implies raw[j] != SP by {
            assert(raw[j] == key[j]);
        }
        lemma_find_is(raw, SP, 0, kl);
        assert(spec_find(raw, SP, 0) == Some(kl));
        // no newline inside the key
        lemma_find_props(raw, NL, 0);
        let nl = spec_find(raw, NL, 0);
        if nl is None {
            assert(raw[e] != NL);
            assert(false);
        }
        if nl->0 < kl {
            assert(raw[nl->0] == key[nl->0]);
            assert(false);
        }
        assert(nl->0 > kl) by {
            assert(raw[kl] == SP && SP != NL);
        }
        // the value runs to the newline after the folded text
        lemma_fold_nl_shape(v);
        assert(rest_text.len() >= 1);
        if ps.skip(1).len() == 0 {
            assert(rest_text[0] == NL);
        } else {
            let p1 = ps.skip(1)[0];
            assert(p1 == ps[1]);
            assert(p1.0.len() >= 1);
            assert(ser_pairs(ps.skip(1)) == ser_value(p1.0, p1.1) + ser_pairs(ps.skip(1).skip(1)));
            assert(ser_value(p1.0, p1.1)[0] == p1.0[0]);
            assert(rest_text[0] == p1.0[0]);
            assert(wf_key(ps[1].0));
            assert(p1.0[0] != SP);
        }
        assert(rest_text[0] != SP);
        assert(raw[e + 1] == rest_text[0]);
        assert forall|j: int| kl <= j < e implies !(#[trigger] raw[j] == NL && (j + 1 >= raw.len()
            || raw[j + 1] != SP)) by {
            if j == kl {
                assert(raw[j] == SP);
            } else {
                assert(raw[j] == f[j - kl - 1]);
                if raw[j] == NL {
                    assert(f[j - kl - 1] == NL);
                    assert(j - kl - 1 + 1 < fl && f[j - kl] == SP);
                    assert(raw[j + 1] == f[j - kl]);
                }
            }
        }
        lemma_value_end_is(raw, kl, e);
        assert(value_end(raw, kl) == e);
        // extraction of the pieces
        assert(raw.take(kl) =~= key);
        assert(raw.subrange(kl + 1, e) =~= f);
        lemma_unfold_fold(v);
        assert(unfold_nl(raw.subrange(kl + 1, e)) == v);
        assert(e < raw.len());
        assert(raw.skip(e + 1) =~= rest_text);
        // induction over the remaining pairs
        assert forall|i: int| 0 <= i < ps.skip(1).len() implies wf_key(
            #[trigger] ps.skip(1)[i].0,
        ) by {
            assert(ps.skip(1)[i] == ps[i + 1]);
        }
        assert forall|i: int| 1 <= i < ps.skip(1).len() implies #[trigger] ps.skip(1)[i].0.len()
            >= 1 by {
            assert(ps.skip(1)[i] == ps[i + 1]);
        }
        lemma_parse_pairs(ps.skip(1), msg);
        assert(parse_fields(rest_text) == SpecKvlm {
            fields: group_pairs(ps.skip(1)),
            message: msg,
        });
        assert(parse_fields(raw).fields == combine(key, v, group_pairs(ps.skip(1))));
        assert(group_pairs(ps) == combine(key, v, group_pairs(ps.skip(1))));
        assert(parse_fields(raw).message == msg);
    }
}

/// Grouping one field's pairs in front of already-grouped pairs prepends the
/// field, when its key is fresh.
proof fn lemma_group_field(
    key: Seq<u8>,
    values: Seq<Seq<u8>>,
    p: Seq<(Seq<u8>, Seq<u8>)>,
    rest: Seq<SpecField>,
)
    requires
        group_pairs(p) == rest,
        forall|j: int| 0 <= j < rest.len() ==> #[trigger] rest[j].key != key,
        values.len() >= 1,
    ensures
        group_pairs(pairs_of_field(key, values) + p) == seq![
            SpecField { key: key, values: values },
        ] + rest,
    decreases values.len(),
{
    let ps = pairs_of_field(key, values) + p;
    assert(pairs_of_field(key, values)[0] == (key, values[0]));
    assert(ps[0] == (key, values[0]));
    if values.len() == 1 {
        assert(pairs_of_field(key, values.skip(1)) =~= Seq::<(Seq<u8>, Seq<u8>)>::empty());
        assert(ps.skip(1) =~= p);
        assert(group_pairs(ps) == combine(key, values[0], rest));
        lemma_first_key_index_none(rest, key);
        assert(group_pairs(ps) == seq![SpecField { key: key, values: seq![values[0]] }] + rest);
        assert(seq![values[0]] =~= values);
    } else {
        lemma_group_field(key, values.skip(1), p, rest);
        assert(ps.skip(1) =~= pairs_of_field(key, values.skip(1)) + p);
        assert(group_pairs(ps) == combine(key, values[0], group_pairs(ps.skip(1))));
        let mid = seq![SpecField { key: key, values: values.skip(1) }] + rest;
        assert(group_pairs(ps.skip(1)) == mid);
        assert(mid[0].key == key);
        lemma_first_key_index_is(mid, key, 0);
        assert(group_pairs(ps) == seq![
            SpecField { key: key, values: seq![values[0]] + mid[0].values },
        ] + mid.remove(0));
        assert(seq![values[0]] + values.skip(1) =~= values);
        assert(mid.remove(0) =~= rest);
    }
}

/// Grouping the flattened pairs of a well-formed field list recovers it.
proof fn lemma_group_pairs_of(fields: Seq<SpecField>)
    requires
        forall|i: int| 0 <= i < fields.len() ==> #[trigger] fields[i].values.len() >= 1,
        forall|i: int, j: int|
            0 <= i < j < fields.len() ==> #[trigger] fields[i].key != #[trigger] fields[j].key,
    ensures
        group_pairs(pairs_of(fields)) == fields,
    decreases fields.len(),
{
    if fields.len() == 0 {
        assert(group_pairs(pairs_of(fields)) =~= fields);
    } else {
        let tail = fields.skip(1);
        assert(forall|i: int| 0 <= i < tail.len() ==> #[trigger] tail[i] == fields[i + 1]);
        lemma_group_pairs_of(tail);
        assert forall|j: int| 0 <= j < tail.len() implies #[trigger] tail[j].key
            != fields[0].key by {
            assert(fields[0].key != fields[j + 1].key);
        }
        lemma_group_field(fields[0].key, fields[0].values, pairs_of(tail), tail);
        assert(pairs_of(fields) == pairs_of_field(fields[0].key, fields[0].values) + pairs_of(
            tail,
        ));
        assert(seq![SpecField { key: fields[0].key, values: fields[0].values }] + tail =~= fields);
    }
}

/// The keys of the flattened pairs are the keys of their fields: all are
/// clean, and with a well-formed field list only the very first pair can
/// carry an empty key.
proof fn lemma_pairs_of_props(fields: Seq<SpecField>)
    requires
        forall|i: int| 0 <= i < fields.len() ==> wf_key(#[trigger] fields[i].key),
        forall|i: int| 0 <= i < fields.len() ==> #[trigger] fields[i].values.len() >= 1,
        forall|i: int| 1 <= i < fields.len() ==> #[trigger] fields[i].key.len() >= 1,
        fields.len() >= 1 && fields[0].key.len() == 0 ==> fields[0].values.len() == 1,
    ensures
        forall|i: int| 0 <= i < pairs_of(fields).len() ==> wf_key(#[trigger] pairs_of(fields)[i].0),
        forall|i: int| 1 <= i < pairs_of(fields).len() ==> #[trigger] pairs_of(fields)[i].0.len()
            >= 1,
    decreases fields.len(),
{
    if fields.len() > 0 {
        let head = pairs_of_field(fields[0].key, fields[0].values);
        let tail = fields.skip(1);
        assert forall|i: int| 0 <= i < tail.len() implies wf_key(#[trigger] tail[i].key)
            && tail[i].values.len() >= 1 && tail[i].key.len() >= 1 by {
            assert(tail[i] == fields[i + 1]);
        }
        lemma_pairs_of_props(tail);
        lemma_pairs_of_field_props(fields[0].key, fields[0].values);
        let ps = pairs_of(fields);
        assert(ps == head + pairs_of(tail));
        assert(head.len() == fields[0].values.len());
        assert forall|i: int| 0 <= i < ps.len() implies wf_key(#[trigger] ps[i].0) by {
            if i < head.len() {
                assert(ps[i] == head[i]);
            } else {
                assert(ps[i] == pairs_of(tail)[i - head.len()]);
            }
        }
        assert forall|i: int| 1 <= i < ps.len() implies #[trigger] ps[i].0.len() >= 1 by {
            if i < head.len() {
                assert(ps[i] == head[i]);
                assert(head[i].0 == fields[0].key);
                if fields[0].key.len() == 0 {
                    assert(fields[0].values.len() == 1);
                    assert(head.len() == 1);
                    assert(false);
                }
            } else {
                assert(ps[i] == pairs_of(tail)[i - head.len()]);
                let j = i - head.len();
                if j == 0 {
                    if pairs_of(tail).len() > 0 {
                        assert(tail.len() > 0);
                        assert(pairs_of(tail)[0] == pairs_of_field(
                            tail[0].key,
                            tail[0].values,
                        )[0]);
                        assert(pairs_of_field(tail[0].key, tail[0].values)[0].0 == tail[0].key);
                        assert(tail[0].key.len() >= 1);
                    }
                }
            }
        }
    }
}

/// Every pair of one field carries that field's key, one pair per value.
proof fn lemma_pairs_of_field_props(key: Seq<u8>, values: Seq<Seq<u8>>)
    ensures
        pairs_of_field(key, values).len() == values.len(),
        forall|i: int| 0 <= i < values.len() ==> #[trigger] pairs_of_field(key, values)[i] == (
            key,
            values[i],
        ),
    decreases values.len(),
{
    if values.len() > 0 {
        lemma_pairs_of_field_props(key, values.skip(1));
        let ps = pairs_of_field(key, values);
        assert forall|i: int| 0 <= i < values.len() implies #[trigger] ps[i] == (
            key,
            values[i],
        ) by {
            if i > 0 {
                assert(ps[i] == pairs_of_field(key, values.skip(1))[i - 1]);
                assert(values.skip(1)[i - 1] == values[i]);
            }
        }
    }
}

/// Parsing the serialization of a well-formed record gives the record back.
pub proof fn lemma_kvlm_round_trip(k: SpecKvlm)
    requires
        wf_kvlm(k),
    ensures
        parse_fields(ser_kvlm(k)) == k,
{
    lemma_ser_fields_pairs(k.fields);
    lemma_pairs_of_props(k.fields);
    lemma_parse_pairs(pairs_of(k.fields), k.message);
    lemma_group_pairs_of(k.fields);
    assert(ser_kvlm(k) =~= ser_pairs(pairs_of(k.fields)) + seq![NL] + k.message);
}

// ---------------------------------------------------------------------------
// Executable codec
// ---------------------------------------------------------------------------

/// View of a vector of byte vectors.
pub open spec fn vals_view(vs: Seq<Vec<u8>>) -> Seq<Seq<u8>> {
    Seq::new(vs.len(), |i: int| vs[i]@)
}

/// View of a vector of fields.
pub open spec fn fields_view(fs: Seq<KvField>) -> Seq<SpecField> {
    Seq::new(fs.len(), |i: int| fs[i]@)
}

/// Whether `spec_find(s, b, pos)` hits, shifted onto the suffix `s.skip(pos)`.
pub proof fn lemma_find_skip(s: Seq<u8>, b: u8, pos: int)
    requires
        0 <= pos <= s.len(),
    ensures
        match spec_find(s, b, pos) {
            Some(i) => spec_find(s.skip(pos), b, 0) == Some(i - pos),
            None => spec_find(s.skip(pos), b, 0) is None,
        },
{
    lemma_find_props(s, b, pos);
    let t = s.skip(pos);
    match spec_find(s, b, pos) {
        Some(i) => {
            assert(t[i - pos] == s[i]);
            assert forall|j: int| 0 <= j < i - pos implies t[j] != b by {
                assert(t[j] == s[pos + j]);
            }
            lemma_find_is(t, b, 0, i - pos);
        },
        None => {
            assert forall|j: int| 0 <= j < t.len() implies t[j] != b by {
                assert(t[j] == s[pos + j]);
            }
            lemma_find_is_none(t, b, 0);
        },
    }
}

/// Removes the continuation space after each newline of a wire-form value.
fn unfold_exec(v: &[u8]) -> (r: Vec<u8>)
    ensures
        r@ == unfold_nl(v@),
{
    let mut r: Vec<u8> = Vec::new();
    let mut i: usize = 0;
    proof {
        assert(v@.skip(0) =~= v@);
        assert(r@ + unfold_nl(v@) =~= unfold_nl(v@));
    }
    while i < v.len()
        invariant
            i <= v@.len(),
            unfold_nl(v@) == r@ + unfold_nl(v@.skip(i as int)),
        decreases v@.len() - i,
    {
        let ghost pre = r@;
        let ghost t = v@.skip(i as int);
        proof {
            assert(t[0] == v@[i as int]);
        }
        if *slice_index_get(v, i) == NL && i + 1 < v.len() && *slice_index_get(v, i + 1) == SP {
            r.push(NL);
            proof {
                assert(t.len() >= 2 && t[0] == NL && t[1] == SP);
                assert(t.skip(2) =~= v@.skip(i + 2));
                assert(unfold_nl(t) == seq![NL] + unfold_nl(v@.skip(i + 2)));
                assert(pre + unfold_nl(t) =~= r@ + unfold_nl(v@.skip(i + 2)));
            }
            i = i + 2;
        } else {
            let c = *slice_index_get(v, i);
            r.push(c);
            proof {
                if t.len() >= 2 {
                    assert(t[1] == v@[i + 1]);
                }
                assert(!(t.len() >= 2 && t[0] == NL && t[1] == SP));
                assert(t.skip(1) =~= v@.skip(i + 1));
                assert(unfold_nl(t) == seq![t[0]] + unfold_nl(v@.skip(i + 1)));
                assert(pre + unfold_nl(t) =~= r@ + unfold_nl(v@.skip(i + 1)));
            }
            i = i + 1;
        }
    }
    proof {
        assert(v@.skip(i as int) =~= Seq::<u8>::empty());
        assert(r@ =~= unfold_nl(v@));
    }
    r
}

/// Inserts a continuation space after each newline of a stored value.
fn fold_exec(v: &[u8]) -> (r: Vec<u8>)
    ensures
        r@ == fold_nl(v@),
{
    let mut r: Vec<u8> = Vec::new();
    let mut i: usize = 0;
    proof {
        assert(v@.skip(0) =~= v@);
        assert(r@ + fold_nl(v@) =~= fold_nl(v@));
    }
    while i < v.len()
        invariant
            i <= v@.len(),
            fold_nl(v@) == r@ + fold_nl(v@.skip(i as int)),
        decreases v@.len() - i,
    {
        let ghost pre = r@;
        let ghost t = v@.skip(i as int);
        proof {
            assert(t[0] == v@[i as int]);
            assert(t.skip(1) =~= v@.skip(i + 1));
        }
        let c = *slice_index_get(v, i);
        if c == NL {
            r.push(NL);
            r.push(SP);
            proof {
                assert(fold_nl(t) == seq![NL, SP] + fold_nl(v@.skip(i + 1)));
                assert(pre + fold_nl(t) =~= r@ + fold_nl(v@.skip(i + 1)));
            }
        } else {
            r.push(c);
            proof {
                assert(fold_nl(t) == seq![t[0]] + fold_nl(v@.skip(i + 1)));
                assert(pre + fold_nl(t) =~= r@ + fold_nl(v@.skip(i + 1)));
            }
        }
        i = i + 1;
    }
    proof {
        assert(v@.skip(i as int) =~= Seq::<u8>::empty());
        assert(r@ =~= fold_nl(v@));
    }
    r
}

/// Scans for the end of the value that starts before `from`: the first
/// newline at or after `from` not followed by a space, or the buffer's end.
fn scan_value_end(raw: &Vec<u8>, from: usize) -> (end: usize)
    requires
        from <= raw@.len(),
    ensures
        from <= end <= raw@.len(),
        end < raw@.len() ==> raw@[end as int] == NL && (end + 1 >= raw@.len() || raw@[end + 1]
            != SP),
        forall|j: int|
            from <= j < end ==> !(#[trigger] raw@[j] == NL && (j + 1 >= raw@.len() || raw@[j + 1]
                != SP)),
{
    let mut cur: usize = from;
    while cur < raw.len()
        invariant
            from <= cur <= raw@.len(),
            forall|j: int|
                from <= j < cur ==> !(#[trigger] raw@[j] == NL && (j + 1 >= raw@.len() || raw@[j
                    + 1] != SP)),
        decreases raw@.len() - cur,
    {
        if raw[cur] == NL && (cur + 1 == raw.len() || raw[cur + 1] != SP) {
            return cur;
        }
        cur = cur + 1;
    }
    cur
}

/// Compares two byte vectors for equality.
pub fn bytes_eq(a: &Vec<u8>, b: &Vec<u8>) -> (r: bool)
    ensures
        r == (a@ == b@),
{
    if a.len() != b.len() {
        return false;
    }
    let mut i: usize = 0;
    while i < a.len()
        invariant
            a@.len() == b@.len(),
            i <= a@.len(),
            forall|j: int| 0 <= j < i ==> a@[j] == b@[j],
        decreases a@.len() - i,
    {
        if a[i] != b[i] {
            return false;
        }
        i = i + 1;
    }
    proof {
        assert(a@ =~= b@);
    }
    true
}

/// Prepends the pair to the parsed fields, merging with an existing entry of
/// the same key.
fn combine_exec(key: Vec<u8>, value: Vec<u8>, fields: &mut Vec<KvField>)
    ensures
        fields_view(final(fields)@) == combine(key@, value@, fields_view(old(fields)@)),
{
    let ghost fv = fields_view(fields@);
    let mut i: usize = 0;
    while i < fields.len()
        invariant
            i <= fields@.len(),
            fields@ == old(fields)@,
            fv == fields_view(fields@),
            forall|j: int| 0 <= j < i ==> #[trigger] fv[j].key != key@,
        decreases fields@.len() - i,
    {
        if bytes_eq(&fields[i].key, &key) {
            proof {
                assert(fv[i as int].key == key@);
                lemma_first_key_index_is(fv, key@, i as int);
            }
            let mut f = fields.remove(i);
            f.values.insert(0, value);
            fields.insert(0, f);
            proof {
                let expect = seq![
                    SpecField { key: key@, values: seq![value@] + fv[i as int].values },
                ] + fv.remove(i as int);
                assert forall|j: int| 0 <= j < fields_view(fields@).len() implies fields_view(
                    fields@,
                )[j] == expect[j] by {
                    if j == 0 {
                        assert(fields@[0].key@ == key@);
                        assert(vals_view(fields@[0].values@) =~= seq![value@]
                            + fv[i as int].values);
                        assert(fields_view(fields@)[0] =~= expect[0]);
                    } else if j - 1 < i as int {
                        assert(fields@[j] == old(fields)@[j - 1]);
                    } else {
                        assert(fields@[j] == old(fields)@[j]);
                    }
                }
                assert(fields_view(fields@) =~= expect);
            }
            return ;
        }
        i = i + 1;
    }
    proof {
        assert(forall|j: int| 0 <= j < fv.len() ==> #[trigger] fv[j].key != key@);
        lemma_first_key_index_none(fv, key@);
    }
    let mut vs: Vec<Vec<u8>> = Vec::new();
    vs.push(value);
    fields.insert(0, KvField { key, values: vs });
    proof {
        let expect = seq![SpecField { key: fields@[0].key@, values: vals_view(fields@[0].values@) }]
            + fv;
        assert(vals_view(fields@[0].values@) =~= seq![fields@[0].values@[0]@]);
        assert forall|j: int| 0 <= j < fields_view(fields@).len() implies fields_view(fields@)[j]
            == expect[j] by {
            if j > 0 {
                assert(fields@[j] == old(fields)@[j - 1]);
            }
        }
        assert(fields_view(fields@) =~= expect);
    }
}

impl Kvlm {
    /// An empty record: no fields, empty message.
    pub fn new() -> (r: Kvlm)
        ensures
            r@.fields.len() == 0,
            r@.message.len() == 0,
    {
        Kvlm { fields: Vec::new(), message: Vec::new() }
    }

    /// Parses a raw record, starting the field section at `start`.
    pub fn create(raw: &Vec<u8>, start: usize) -> (r: Kvlm)
        requires
            start <= raw@.len(),
        ensures
            r@ == parse_fields(raw@.skip(start as int)),
    {
        parse_at(raw, start)
    }

    /// Serializes the record back to its wire text.
    pub fn serialize(&self) -> (r: Vec<u8>)
        ensures
            r@ == ser_kvlm(self@),
    {
        let ghost fs = self@.fields;
        let mut out: Vec<u8> = Vec::new();
        let mut i: usize = 0;
        proof {
            assert(fs.take(0) =~= Seq::<SpecField>::empty());
            assert(out@ =~= ser_fields(fs.take(0)));
        }
        while i < self.fields.len()
            invariant
                i <= self.fields@.len(),
                fs == self@.fields,
                fs.len() == self.fields@.len(),
                out@ == ser_fields(fs.take(i as int)),
            decreases self.fields@.len() - i,
        {
            let fld = &self.fields[i];
            let ghost fv = fs[i as int];
            proof {
                assert(fv == self.fields@[i as int]@);
            }
            let mut j: usize = 0;
            proof {
                assert(fv.values.take(0) =~= Seq::<Seq<u8>>::empty());
                assert(ser_values(fv.key, fv.values.take(0)) =~= Seq::<u8>::empty());
                assert(out@ =~= ser_fields(fs.take(i as int)) + ser_values(
                    fv.key,
                    fv.values.take(0),
                ));
            }
            while j < fld.values.len()
                invariant
                    j <= fld.values@.len(),
                    fv == fld@,
                    fv.values.len() == fld.values@.len(),
                    out@ == ser_fields(fs.take(i as int)) + ser_values(
                        fv.key,
                        fv.values.take(j as int),
                    ),
                decreases fld.values@.len() - j,
            {
                let ghost pre = out@;
                out.extend_from_slice(fld.key.as_slice());
                out.push(SP);
                let folded = fold_exec(fld.values[j].as_slice());
                out.extend_from_slice(folded.as_slice());
                out.push(NL);
                proof {
                    assert(fv.values[j as int] == fld.values@[j as int]@);
                    assert(out@ =~= pre + ser_value(fv.key, fv.values[j as int]));
                    lemma_ser_values_push(fv.key, fv.values.take(j as int), fv.values[j as int]);
                    assert(fv.values.take(j + 1) =~= fv.values.take(j as int).push(
                        fv.values[j as int],
                    ));
                    assert(out@ =~= ser_fields(fs.take(i as int)) + ser_values(
                        fv.key,
                        fv.values.take(j + 1),
                    ));
                }
                j = j + 1;
            }
            proof {
                assert(fv.values.take(j as int) =~= fv.values);
                lemma_ser_fields_push(fs.take(i as int), fv);
                assert(fs.take(i + 1) =~= fs.take(i as int).push(fv));
                assert(out@ =~= ser_fields(fs.take(i + 1)));
            }
            i = i + 1;
        }
        let ghost pre = out@;
        out.push(NL);
        out.extend_from_slice(self.message.as_slice());
        proof {
            assert(fs.take(i as int) =~= fs);
            assert(out@ =~= ser_kvlm(self@));
        }
        out
    }

    /// The values stored under `key`, when the key is present.
    pub fn get<'a>(&'a self, key: &Vec<u8>) -> (r: Option<&'a Vec<Vec<u8>>>)
        ensures
            match r {
                Some(v) => first_key_index(self@.fields, key@) >= 0 && vals_view(v@)
                    == self@.fields[first_key_index(self@.fields, key@)].values,
                None => first_key_index(self@.fields, key@) == -1,
            },
    {
        let ghost fs = self@.fields;
        let mut i: usize = 0;
        while i < self.fields.len()
            invariant
                i <= self.fields@.len(),
                fs == self@.fields,
                fs.len() == self.fields@.len(),
                forall|j: int| 0 <= j < i ==> #[trigger] fs[j].key != key@,
            decreases self.fields@.len() - i,
        {
            if bytes_eq(&self.fields[i].key, key) {
                proof {
                    assert(fs[i as int] == self.fields@[i as int]@);
                    lemma_first_key_index_is(fs, key@, i as int);
                }
                return Some(&self.fields[i].values);
            }
            proof {
                assert(fs[i as int] == self.fields@[i as int]@);
            }
            i = i + 1;
        }
        proof {
            lemma_first_key_index_none(fs, key@);
        }
        None
    }

    /// Whether `key` is present.
    pub fn contains_key(&self, key: &Vec<u8>) -> (r: bool)
        ensures
            r == (first_key_index(self@.fields, key@) >= 0),
    {
        match self.get(key) {
            Some(_) => true,
            None => false,
        }
    }

    /// Appends `value` under `key`: to the existing entry when the key is
    /// present, else as a new last field.
    pub fn insert(&mut self, key: Vec<u8>, value: Vec<u8>)
        ensures
            final(self)@.message == old(self)@.message,
            ({
                let fs = old(self)@.fields;
                let i = first_key_index(fs, key@);
                if i >= 0 {
                    final(self)@.fields == fs.update(
                        i,
                        SpecField { key: key@, values: fs[i].values.push(value@) },
                    )
                } else {
                    final(self)@.fields == fs.push(
                        SpecField { key: key@, values: seq![value@] },
                    )
                }
            }),
    {
        let ghost fs = self@.fields;
        let mut i: usize = 0;
        while i < self.fields.len()
            invariant
                i <= self.fields@.len(),
                self@ == old(self)@,
                self.fields@ == old(self).fields@,
                self.message@ == old(self).message@,
                fs == self@.fields,
                fs.len() == self.fields@.len(),
                forall|j: int| 0 <= j < i ==> #[trigger] fs[j].key != key@,
            decreases self.fields@.len() - i,
        {
            if bytes_eq(&self.fields[i].key, &key) {
                let ghost key_v = key@;
                let ghost value_v = value@;
                proof {
                    assert(fs[i as int] == self.fields@[i as int]@);
                    lemma_first_key_index_is(fs, key_v, i as int);
                }
                let ghost prev = self.fields@;
                let mut f = self.fields.remove(i);
                f.values.push(value);
                self.fields.insert(i, f);
                proof {
                    let expect = fs.update(
                        i as int,
                        SpecField { key: key_v, values: fs[i as int].values.push(value_v) },
                    );
                    assert forall|j: int| 0 <= j < self@.fields.len() implies self@.fields[j]
                        == expect[j] by {
                        if j == i as int {
                            assert(vals_view(self.fields@[j].values@) =~= fs[
                                i as int].values.push(value_v));
                            assert(self.fields@[j]@.key == fs[i as int].key);
                            assert(fs[i as int].key == key_v);
                        } else {
                            assert(self.fields@[j] == prev[j]);
                            assert(fs[j] == prev[j]@);
                        }
                    }
                    assert(self@.fields =~= expect);
                }
                return ;
            }
            proof {
                assert(fs[i as int] == self.fields@[i as int]@);
            }
            i = i + 1;
        }
        let ghost key_v = key@;
        let ghost value_v = value@;
        proof {
            lemma_first_key_index_none(fs, key_v);
        }
        let ghost prev = self.fields@;
        let mut vs: Vec<Vec<u8>> = Vec::new();
        vs.push(value);
        self.fields.push(KvField { key, values: vs });
        proof {
            let expect = fs.push(SpecField { key: key_v, values: seq![value_v] });
            assert forall|j: int| 0 <= j < self@.fields.len() implies self@.fields[j]
                == expect[j] by {
                if j < fs.len() {
                    assert(self.fields@[j] == prev[j]);
                    assert(fs[j] == prev[j]@);
                } else {
                    assert(vals_view(self.fields@[j].values@) =~= seq![value_v]);
                }
            }
            assert(self@.fields =~= expect);
        }
    }

    /// Replaces the message.
    pub fn set_message(&mut self, message: Vec<u8>)
        ensures
            final(self)@.fields == old(self)@.fields,
            final(self)@.message == message@,
    {
        self.message = message;
        proof {
            assert(self@.fields =~= old(self)@.fields);
        }
    }
}

/// Parses the record that starts at `pos`.
fn parse_at(raw: &Vec<u8>, pos: usize) -> (r: Kvlm)
    requires
        pos <= raw@.len(),
    ensures
        r@ == parse_fields(raw@.skip(pos as int)),
    decreases raw@.len() - pos,
{
    let ghost t = raw@.skip(pos as int);
    if pos == raw.len() {
        let r = Kvlm { fields: Vec::new(), message: Vec::new() };
        proof {
            assert(t.len() == 0);
            assert(r@.fields =~= parse_fields(t).fields);
            assert(r@.message =~= parse_fields(t).message);
        }
        return r;
    }
    proof {
        assert(t[0] == raw@[pos as int]);
    }
    if raw[pos] == NL {
        let message = slice_to_vec(slice_subrange(raw.as_slice(), pos + 1, raw.len()));
        let r = Kvlm { fields: Vec::new(), message };
        proof {
            assert(r@.message =~= t.skip(1));
            assert(r@.fields =~= parse_fields(t).fields);
        }
        return r;
    }
    let spc_o = find_byte(raw, SP, pos);
    let nl_o = find_byte(raw, NL, pos);
    proof {
        lemma_find_skip(raw@, SP, pos as int);
        lemma_find_skip(raw@, NL, pos as int);
    }
    let spc: usize;
    match (spc_o, nl_o) {
        (None, _) => {
            let message = slice_to_vec(slice_subrange(raw.as_slice(), pos, raw.len()));
            let r = Kvlm { fields: Vec::new(), message };
            proof {
                assert(r@.message =~= t);
                assert(r@.fields =~= parse_fields(t).fields);
            }
            return r;
        },
        (Some(s), Some(n)) if n < s => {
            let message = slice_to_vec(slice_subrange(raw.as_slice(), pos, raw.len()));
            let r = Kvlm { fields: Vec::new(), message };
            proof {
                assert(r@.message =~= t);
                assert(r@.fields =~= parse_fields(t).fields);
            }
            return r;
        },
        (Some(s), _) => {
            spc = s;
        },
    }
    proof {
        lemma_find_props(raw@, SP, pos as int);
        let sr = spec_find(t, SP, 0);
        let nr = spec_find(t, NL, 0);
        assert(sr == Some(spc - pos));
        assert(!(sr is None || (nr is Some && nr->0 < sr->0)));
    }
    let key = slice_to_vec(slice_subrange(raw.as_slice(), pos, spc));
    let ghost key_v = key@;
    let end = scan_value_end(raw, spc);
    proof {
        let s_rel = spc - pos;
        let e_rel = end - pos;
        assert(key_v =~= t.take(s_rel));
        assert forall|j: int| s_rel <= j < e_rel implies !(#[trigger] t[j] == NL && (j + 1
            >= t.len() || t[j + 1] != SP)) by {
            assert(t[j] == raw@[pos + j]);
            if j + 1 < t.len() {
                assert(t[j + 1] == raw@[pos + j + 1]);
            }
        }
        if e_rel < t.len() {
            assert(t[e_rel] == raw@[end as int]);
            if e_rel + 1 < t.len() {
                assert(t[e_rel + 1] == raw@[end + 1]);
            }
        }
        lemma_value_end_is(t, s_rel, e_rel);
    }
    let value = unfold_exec(slice_subrange(raw.as_slice(), spc + 1, end));
    let ghost value_v = value@;
    proof {
        assert(raw@.subrange(spc + 1, end as int) =~= t.subrange(spc - pos + 1, end - pos));
        assert(value_v == unfold_nl(t.subrange(spc - pos + 1, end - pos)));
    }
    if end == raw.len() {
        let mut vs: Vec<Vec<u8>> = Vec::new();
        vs.push(value);
        let mut fields: Vec<KvField> = Vec::new();
        fields.push(KvField { key, values: vs });
        let r = Kvlm { fields, message: Vec::new() };
        proof {
            let pk = parse_fields(t);
            assert(end - pos >= t.len());
            assert(pk.fields == seq![
                SpecField {
                    key: t.take(spc - pos),
                    values: seq![unfold_nl(t.subrange(spc - pos + 1, end - pos))],
                },
            ]);
            assert(r@.fields.len() == 1);
            assert(r@.fields[0].key == key_v);
            assert(r@.fields[0].values =~= seq![value_v]);
            assert(r@.fields[0] == pk.fields[0]);
            assert(r@.fields =~= pk.fields);
            assert(r@.message =~= pk.message);
        }
        return r;
    }
    let mut rest = parse_at(raw, end + 1);
    let ghost rest0 = rest@;
    proof {
        assert(raw@.skip(end + 1) =~= t.skip(end - pos + 1));
        assert(fields_view(rest.fields@) =~= rest0.fields);
    }
    combine_exec(key, value, &mut rest.fields);
    proof {
        let pk = parse_fields(t);
        assert(pk.fields == combine(
            t.take(spc - pos),
            unfold_nl(t.subrange(spc - pos + 1, end - pos)),
            parse_fields(t.skip(end - pos + 1)).fields,
        ));
        assert(fields_view(rest.fields@) == combine(key_v, value_v, rest0.fields));
        assert(rest@.fields == fields_view(rest.fields@));
        assert(rest0.fields == parse_fields(t.skip(end - pos + 1)).fields);
        assert(rest@.message == pk.message);
    }
    rest
}

} // verus!

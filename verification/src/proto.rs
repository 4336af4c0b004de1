//! Minimal protobuf wire-format writer for the columnar lock-point dump.
//!
//! Just enough of the wire format to emit the `LockPoints` message — a string pool plus
//! packed-uint32 columns. The output decodes with any standard protobuf reader.

use crate::bytes;
use vstd::prelude::*;
use vstd::utf8::{decode_utf8, encode_utf8, valid_utf8};

verus! {

/// A base-128 varint: seven bits a byte, the low ones first; all bytes but the last have
/// the high bit set.
pub open spec fn varint(v: nat) -> Seq<u8>
    decreases v,
{
    if v < 0x80 {
        seq![v as u8]
    } else {
        seq![(v % 0x80 + 0x80) as u8] + varint(v / 0x80)
    }
}

/// The varint whose next byte stands at `at` and counts `unit`, behind `acc`: its value and
/// where it ends.
pub open spec fn varint_from(b: Seq<u8>, at: int, unit: int, acc: int) -> Option<(int, int)>
    decreases b.len() - at,
{
    if at < 0 || at >= b.len() {
        None
    } else if b[at] < 0x80 {
        Some((acc + b[at] * unit, at + 1))
    } else {
        varint_from(b, at + 1, unit * 0x80, acc + (b[at] - 0x80) * unit)
    }
}

/// The varint at `at`: its value and where it ends.
pub open spec fn read_varint(b: Seq<u8>, at: int) -> Option<(int, int)> {
    varint_from(b, at, 1, 0)
}

/// A varint that was written reads back as the number, whatever stands around it.
pub proof fn law_varint_round_trip(head: Seq<u8>, v: nat, tail: Seq<u8>)
    ensures
        read_varint(head + varint(v) + tail, head.len() as int) == Some(
            (v as int, (head.len() + varint(v).len()) as int),
        ),
{
    lemma_varint(head, v, tail, 1, 0);
}

proof fn lemma_varint(head: Seq<u8>, v: nat, tail: Seq<u8>, unit: int, acc: int)
    ensures
        varint_from(head + varint(v) + tail, head.len() as int, unit, acc) == Some(
            (acc + v * unit, (head.len() + varint(v).len()) as int),
        ),
    decreases v,
{
    let b = head + varint(v) + tail;
    let n = head.len() as int;
    assert(b[n] == varint(v)[0]);
    if v >= 0x80 {
        let first = (v % 0x80 + 0x80) as u8;
        let rest = varint(v / 0x80);
        let next = head.push(first);
        assert(varint(v) =~= seq![first] + rest);
        assert(b =~= next + rest + tail);
        lemma_varint(next, v / 0x80, tail, unit * 0x80, acc + (first - 0x80) * unit);
        assert(acc + (v % 0x80) * unit + (v / 0x80) * (unit * 0x80) == acc + v * unit)
            by (nonlinear_arith)
            requires
                v == (v / 0x80) * 0x80 + v % 0x80,
        ;
        assert(varint_from(b, n, unit, acc) == varint_from(
            b,
            n + 1,
            unit * 0x80,
            acc + (first - 0x80) * unit,
        ));
    }
}

/// A field tag: field number and wire type.
pub open spec fn tag_bytes(field: u32, wire: u32) -> Seq<u8> {
    varint(((field * 8) % 0x1_0000_0000 + wire) as nat)
}

/// A length-delimited field: tag, length, bytes.
pub open spec fn delimited(field: u32, payload: Seq<u8>) -> Seq<u8> {
    tag_bytes(field, 2) + varint(payload.len()) + payload
}

/// The varints of the values from the `k`th on, behind `acc`.
pub open spec fn varints_from(vals: Seq<u32>, k: int, acc: Seq<u8>) -> Seq<u8>
    decreases vals.len() - k,
{
    if k >= vals.len() {
        acc
    } else {
        varints_from(vals, k + 1, acc + varint(vals[k] as nat))
    }
}

/// A packed repeated field: one length-delimited blob of varints.
pub open spec fn packed(field: u32, vals: Seq<u32>) -> Seq<u8> {
    delimited(field, varints_from(vals, 0, Seq::empty()))
}

/// The strings from the `k`th on as fields of that number, behind `acc`.
pub open spec fn strings_from(strings: Seq<Seq<char>>, field: u32, k: int, acc: Seq<u8>) -> Seq<u8>
    decreases strings.len() - k,
{
    if k >= strings.len() {
        acc
    } else {
        strings_from(strings, field, k + 1, acc + delimited(field, encode_utf8(strings[k])))
    }
}

/// A `LockPoints` message: the strings, then a column each for class, method, lock and
/// line.
pub open spec fn lock_points(
    strings: Seq<Seq<char>>,
    class_id: Seq<u32>,
    method_id: Seq<u32>,
    lock_id: Seq<u32>,
    line: Seq<u32>,
) -> Seq<u8> {
    strings_from(strings, 1, 0, Seq::empty()) + packed(2, class_id) + packed(3, method_id)
        + packed(4, lock_id) + packed(5, line)
}

/// What a `LockPoints` message holds.
#[verifier::ext_equal]
pub struct PointsV {
    pub strings: Seq<Seq<char>>,
    pub class_id: Seq<int>,
    pub method_id: Seq<int>,
    pub lock_id: Seq<int>,
    pub line: Seq<int>,
}

impl PointsV {
    /// A message without fields.
    pub open spec fn none() -> PointsV {
        PointsV {
            strings: Seq::empty(),
            class_id: Seq::empty(),
            method_id: Seq::empty(),
            lock_id: Seq::empty(),
            line: Seq::empty(),
        }
    }
}

/// The length-delimited field at `at`: its number, its payload and where it ends.
pub open spec fn read_delimited(b: Seq<u8>, at: int) -> Option<(int, Seq<u8>, int)> {
    match read_varint(b, at) {
        Some((tag, p)) => if tag % 8 != 2 {
            None
        } else {
            match read_varint(b, p) {
                Some((n, q)) => if q + n > b.len() {
                    None
                } else {
                    Some((tag / 8, b.subrange(q, q + n), q + n))
                },
                None => None,
            }
        },
        None => None,
    }
}

/// The varints from `at` to the end, behind `acc`.
pub open spec fn read_varints(b: Seq<u8>, at: int, acc: Seq<int>) -> Option<Seq<int>>
    decreases b.len() - at,
{
    if at >= b.len() {
        Some(acc)
    } else {
        match read_varint(b, at) {
            Some((v, next)) => if next <= at || next > b.len() {
                None
            } else {
                read_varints(b, next, acc.push(v))
            },
            None => None,
        }
    }
}

/// The message with one more field.
pub open spec fn with_field(m: PointsV, field: int, payload: Seq<u8>) -> Option<PointsV> {
    if field == 1 {
        if valid_utf8(payload) {
            Some(PointsV { strings: m.strings.push(decode_utf8(payload)), ..m })
        } else {
            None
        }
    } else if field == 2 {
        match read_varints(payload, 0, m.class_id) {
            Some(class_id) => Some(PointsV { class_id, ..m }),
            None => None,
        }
    } else if field == 3 {
        match read_varints(payload, 0, m.method_id) {
            Some(method_id) => Some(PointsV { method_id, ..m }),
            None => None,
        }
    } else if field == 4 {
        match read_varints(payload, 0, m.lock_id) {
            Some(lock_id) => Some(PointsV { lock_id, ..m }),
            None => None,
        }
    } else if field == 5 {
        match read_varints(payload, 0, m.line) {
            Some(line) => Some(PointsV { line, ..m }),
            None => None,
        }
    } else {
        Some(m)
    }
}

/// The length-delimited fields from `at` to the end, behind `acc`: number and payload.
pub open spec fn read_list(b: Seq<u8>, at: int, acc: Seq<(int, Seq<u8>)>) -> Option<
    Seq<(int, Seq<u8>)>,
>
    decreases b.len() - at,
{
    if at >= b.len() {
        Some(acc)
    } else {
        match read_delimited(b, at) {
            Some((field, payload, next)) => if next <= at || next > b.len() {
                None
            } else {
                read_list(b, next, acc.push((field, payload)))
            },
            None => None,
        }
    }
}

/// The fields of a message: number and payload of each.
pub open spec fn fields_of(b: Seq<u8>) -> Option<Seq<(int, Seq<u8>)>> {
    read_list(b, 0, Seq::empty())
}

/// What the fields from the `k`th on add to `m`.
pub open spec fn gathered(fields: Seq<(int, Seq<u8>)>, k: int, m: PointsV) -> Option<PointsV>
    decreases fields.len() - k,
{
    if k >= fields.len() {
        Some(m)
    } else {
        match with_field(m, fields[k].0, fields[k].1) {
            Some(more) => gathered(fields, k + 1, more),
            None => None,
        }
    }
}

/// What a reader makes of a `LockPoints` message: strings are appended to the pool, packed
/// columns to the column of their number, and fields of other numbers are skipped.
pub open spec fn read_points(b: Seq<u8>) -> Option<PointsV> {
    match fields_of(b) {
        Some(fields) => gathered(fields, 0, PointsV::none()),
        None => None,
    }
}

proof fn lemma_delimited(head: Seq<u8>, field: u32, payload: Seq<u8>, tail: Seq<u8>)
    requires
        field < 0x2000_0000,
    ensures
        delimited(field, payload).len() > payload.len(),
        read_delimited(head + delimited(field, payload) + tail, head.len() as int) == Some(
            (field as int, payload, (head.len() + delimited(field, payload).len()) as int),
        ),
{
    let tag = (field * 8 + 2) as nat;
    let n = payload.len();
    let b = head + delimited(field, payload) + tail;
    assert(b =~= head + varint(tag) + (varint(n) + payload + tail));
    law_varint_round_trip(head, tag, varint(n) + payload + tail);
    let near = head + varint(tag);
    assert(b =~= near + varint(n) + (payload + tail));
    law_varint_round_trip(near, n, payload + tail);
    let q = (near + varint(n)).len() as int;
    assert(b.subrange(q, q + n) =~= payload);
}

/// A column's numbers.
pub open spec fn numbers(vals: Seq<u32>) -> Seq<int> {
    Seq::new(vals.len(), |k: int| vals[k] as int)
}

proof fn lemma_varints_behind(vals: Seq<u32>, k: int, acc: Seq<u8>)
    requires
        0 <= k,
    ensures
        varints_from(vals, k, acc) == acc + varints_from(vals, k, Seq::empty()),
    decreases vals.len() - k,
{
    if k < vals.len() {
        let one = varint(vals[k] as nat);
        lemma_varints_behind(vals, k + 1, acc + one);
        lemma_varints_behind(vals, k + 1, Seq::<u8>::empty() + one);
        let rest = varints_from(vals, k + 1, Seq::empty());
        assert(acc + one + rest =~= acc + (Seq::<u8>::empty() + one + rest));
    } else {
        assert(acc + Seq::<u8>::empty() =~= acc);
    }
}

proof fn lemma_varints(vals: Seq<u32>, k: int, head: Seq<u8>, acc: Seq<int>)
    requires
        0 <= k <= vals.len(),
    ensures
        read_varints(varints_from(vals, k, head), head.len() as int, acc) == Some(
            acc + numbers(vals).skip(k),
        ),
    decreases vals.len() - k,
{
    let b = varints_from(vals, k, head);
    if k < vals.len() {
        let one = varint(vals[k] as nat);
        let rest = varints_from(vals, k + 1, Seq::empty());
        lemma_varints_behind(vals, k + 1, head + one);
        assert(b == head + one + rest);
        law_varint_round_trip(head, vals[k] as nat, rest);
        assert(one.len() > 0);
        lemma_varints(vals, k + 1, head + one, acc.push(vals[k] as int));
        assert(acc.push(vals[k] as int) + numbers(vals).skip(k + 1) =~= acc + numbers(vals).skip(
            k,
        ));
    } else {
        assert(acc + numbers(vals).skip(k) =~= acc);
    }
}

proof fn lemma_strings_behind(strings: Seq<Seq<char>>, field: u32, k: int, acc: Seq<u8>)
    requires
        0 <= k,
    ensures
        strings_from(strings, field, k, acc) == acc + strings_from(
            strings,
            field,
            k,
            Seq::empty(),
        ),
    decreases strings.len() - k,
{
    if k < strings.len() {
        let one = delimited(field, encode_utf8(strings[k]));
        lemma_strings_behind(strings, field, k + 1, acc + one);
        lemma_strings_behind(strings, field, k + 1, Seq::<u8>::empty() + one);
        let rest = strings_from(strings, field, k + 1, Seq::empty());
        assert(acc + one + rest =~= acc + (Seq::<u8>::empty() + one + rest));
    } else {
        assert(acc + Seq::<u8>::empty() =~= acc);
    }
}

proof fn lemma_next_field(
    head: Seq<u8>,
    field: u32,
    payload: Seq<u8>,
    tail: Seq<u8>,
    acc: Seq<(int, Seq<u8>)>,
)
    requires
        field < 0x2000_0000,
    ensures
        ({
            let b = head + delimited(field, payload) + tail;
            read_list(b, head.len() as int, acc) == read_list(
                b,
                (head + delimited(field, payload)).len() as int,
                acc.push((field as int, payload)),
            )
        }),
{
    lemma_delimited(head, field, payload, tail);
}

/// The fields of a string pool.
pub open spec fn string_fields(strings: Seq<Seq<char>>) -> Seq<(int, Seq<u8>)> {
    Seq::new(strings.len(), |k: int| (1int, encode_utf8(strings[k])))
}

proof fn lemma_string_fields(
    strings: Seq<Seq<char>>,
    k: int,
    head: Seq<u8>,
    tail: Seq<u8>,
    acc: Seq<(int, Seq<u8>)>,
)
    requires
        0 <= k <= strings.len(),
    ensures
        read_list(strings_from(strings, 1, k, head) + tail, head.len() as int, acc) == read_list(
            strings_from(strings, 1, k, head) + tail,
            strings_from(strings, 1, k, head).len() as int,
            acc + string_fields(strings).skip(k),
        ),
    decreases strings.len() - k,
{
    let all = string_fields(strings);
    if k < strings.len() {
        let payload = encode_utf8(strings[k]);
        let one = delimited(1, payload);
        let rest = strings_from(strings, 1, k + 1, Seq::empty());
        lemma_strings_behind(strings, 1, k + 1, head + one);
        let b = strings_from(strings, 1, k, head) + tail;
        assert(b =~= head + one + (rest + tail));
        lemma_next_field(head, 1, payload, rest + tail, acc);
        lemma_string_fields(strings, k + 1, head + one, tail, acc.push((1, payload)));
        assert(acc.push((1int, payload)) + all.skip(k + 1) =~= acc + all.skip(k));
    } else {
        assert(acc + all.skip(k) =~= acc);
    }
}

/// The fields of a `LockPoints` message.
pub open spec fn point_fields(
    strings: Seq<Seq<char>>,
    class_id: Seq<u32>,
    method_id: Seq<u32>,
    lock_id: Seq<u32>,
    line: Seq<u32>,
) -> Seq<(int, Seq<u8>)> {
    string_fields(strings) + seq![
        (2int, varints_from(class_id, 0, Seq::empty())),
        (3int, varints_from(method_id, 0, Seq::empty())),
        (4int, varints_from(lock_id, 0, Seq::empty())),
        (5int, varints_from(line, 0, Seq::empty())),
    ]
}

/// A `LockPoints` message reads as a field for each string, in order, and then one packed
/// field for each column, and as nothing else.
pub proof fn law_lock_points_fields(
    strings: Seq<Seq<char>>,
    class_id: Seq<u32>,
    method_id: Seq<u32>,
    lock_id: Seq<u32>,
    line: Seq<u32>,
)
    ensures
        fields_of(lock_points(strings, class_id, method_id, lock_id, line)) == Some(
            point_fields(strings, class_id, method_id, lock_id, line),
        ),
{
    let none: Seq<u8> = Seq::empty();
    let b0 = strings_from(strings, 1, 0, none);
    let b1 = b0 + packed(2, class_id);
    let b2 = b1 + packed(3, method_id);
    let b3 = b2 + packed(4, lock_id);
    let b = b3 + packed(5, line);
    let t3 = packed(5, line);
    let t2 = packed(4, lock_id) + t3;
    let t1 = packed(3, method_id) + t2;
    let t0 = packed(2, class_id) + t1;
    assert(b0 + t0 =~= b);
    assert(b1 + t1 =~= b);
    assert(b2 + t2 =~= b);
    assert(b3 + t3 =~= b);
    assert(b + none =~= b);
    let c2 = varints_from(class_id, 0, none);
    let c3 = varints_from(method_id, 0, none);
    let c4 = varints_from(lock_id, 0, none);
    let c5 = varints_from(line, 0, none);
    let l0 = string_fields(strings);
    let l1 = l0.push((2int, c2));
    let l2 = l1.push((3int, c3));
    let l3 = l2.push((4int, c4));
    lemma_string_fields(strings, 0, none, t0, Seq::empty());
    assert(Seq::<(int, Seq<u8>)>::empty() + l0.skip(0) =~= l0);
    lemma_next_field(b0, 2, c2, t1, l0);
    lemma_next_field(b1, 3, c3, t2, l1);
    lemma_next_field(b2, 4, c4, t3, l2);
    lemma_next_field(b3, 5, c5, none, l3);
    assert(l3.push((5int, c5)) =~= point_fields(strings, class_id, method_id, lock_id, line));
}

proof fn lemma_gathered_strings(
    strings: Seq<Seq<char>>,
    fields: Seq<(int, Seq<u8>)>,
    k: int,
    m: PointsV,
)
    requires
        0 <= k <= strings.len() <= fields.len(),
        fields.take(strings.len() as int) == string_fields(strings),
    ensures
        gathered(fields, k, m) == gathered(
            fields,
            strings.len() as int,
            PointsV { strings: m.strings + strings.skip(k), ..m },
        ),
    decreases strings.len() - k,
{
    broadcast use vstd::utf8::encode_utf8_valid_utf8;
    broadcast use vstd::utf8::encode_utf8_decode_utf8;

    if k < strings.len() {
        assert(fields[k] == fields.take(strings.len() as int)[k]);
        let more = PointsV { strings: m.strings.push(strings[k]), ..m };
        lemma_gathered_strings(strings, fields, k + 1, more);
        assert(more.strings + strings.skip(k + 1) =~= m.strings + strings.skip(k));
    } else {
        assert(m.strings + strings.skip(k) =~= m.strings);
    }
}

proof fn lemma_column(vals: Seq<u32>)
    ensures
        read_varints(varints_from(vals, 0, Seq::empty()), 0, Seq::empty()) == Some(numbers(vals)),
{
    lemma_varints(vals, 0, Seq::empty(), Seq::empty());
    assert(Seq::<int>::empty() + numbers(vals).skip(0) =~= numbers(vals));
}

/// A `LockPoints` message reads back as the strings and the columns that it was made of.
pub proof fn law_lock_points_read_back(
    strings: Seq<Seq<char>>,
    class_id: Seq<u32>,
    method_id: Seq<u32>,
    lock_id: Seq<u32>,
    line: Seq<u32>,
)
    ensures
        read_points(lock_points(strings, class_id, method_id, lock_id, line)) == Some(
            (PointsV {
                strings,
                class_id: numbers(class_id),
                method_id: numbers(method_id),
                lock_id: numbers(lock_id),
                line: numbers(line),
            }),
        ),
{
    let fields = point_fields(strings, class_id, method_id, lock_id, line);
    let n = strings.len() as int;
    law_lock_points_fields(strings, class_id, method_id, lock_id, line);
    assert(fields.take(n) =~= string_fields(strings));
    lemma_gathered_strings(strings, fields, 0, PointsV::none());
    assert(Seq::<Seq<char>>::empty() + strings.skip(0) =~= strings);
    lemma_column(class_id);
    lemma_column(method_id);
    lemma_column(lock_id);
    lemma_column(line);
    let m0 = PointsV { strings, ..PointsV::none() };
    let m1 = PointsV { class_id: numbers(class_id), ..m0 };
    let m2 = PointsV { method_id: numbers(method_id), ..m1 };
    let m3 = PointsV { lock_id: numbers(lock_id), ..m2 };
    let m4 = PointsV { line: numbers(line), ..m3 };
    assert(gathered(fields, n, m0) == gathered(fields, n + 1, m1));
    assert(gathered(fields, n + 1, m1) == gathered(fields, n + 2, m2));
    assert(gathered(fields, n + 2, m2) == gathered(fields, n + 3, m3));
    assert(gathered(fields, n + 3, m3) == gathered(fields, n + 4, m4));
}

proof fn lemma_numbers(a: Seq<u32>, b: Seq<u32>)
    requires
        numbers(a) == numbers(b),
    ensures
        a == b,
{
    assert(a.len() == numbers(a).len() && b.len() == numbers(b).len());
    assert forall|k: int| 0 <= k < a.len() implies a[k] == b[k] by {
        assert(numbers(a)[k] == a[k] && numbers(b)[k] == b[k]);
    }
    assert(a =~= b);
}

/// Different strings or columns never give the same message.
pub proof fn law_lock_points_tell_apart(
    strings: Seq<Seq<char>>,
    class_id: Seq<u32>,
    method_id: Seq<u32>,
    lock_id: Seq<u32>,
    line: Seq<u32>,
    strings2: Seq<Seq<char>>,
    class_id2: Seq<u32>,
    method_id2: Seq<u32>,
    lock_id2: Seq<u32>,
    line2: Seq<u32>,
)
    requires
        lock_points(strings, class_id, method_id, lock_id, line) == lock_points(
            strings2,
            class_id2,
            method_id2,
            lock_id2,
            line2,
        ),
    ensures
        strings == strings2,
        class_id == class_id2,
        method_id == method_id2,
        lock_id == lock_id2,
        line == line2,
{
    law_lock_points_read_back(strings, class_id, method_id, lock_id, line);
    law_lock_points_read_back(strings2, class_id2, method_id2, lock_id2, line2);
    lemma_numbers(class_id, class_id2);
    lemma_numbers(method_id, method_id2);
    lemma_numbers(lock_id, lock_id2);
    lemma_numbers(line, line2);
}

/// Append a base-128 varint.
pub fn put_varint(buf: &mut Vec<u8>, v: u64)
    ensures
        final(buf)@ == old(buf)@ + varint(v as nat),
{
    let ghost start = buf@;
    let ghost all = v as nat;
    let mut v = v;
    while v >= 0x80
        invariant
            start + varint(all) == buf@ + varint(v as nat),
        decreases v,
    {
        let ghost before = buf@;
        let b = (v % 0x80 + 0x80) as u8;
        buf.push(b);
        proof {
            assert(before + (seq![b] + varint((v / 0x80) as nat)) =~= buf@ + varint(
                (v / 0x80) as nat,
            ));
        }
        v = v / 0x80;
    }
    let ghost before = buf@;
    buf.push(v as u8);
    proof {
        assert(buf@ =~= before + seq![v as u8]);
    }
}

/// Append a field tag (field number + wire type).
pub fn tag(buf: &mut Vec<u8>, field: u32, wire: u32)
    requires
        wire < 8,
    ensures
        final(buf)@ == old(buf)@ + tag_bytes(field, wire),
{
    put_varint(buf, (field as u64 * 8) % 0x1_0000_0000 + wire as u64);
}

/// Append a length-delimited field (wire type 2): tag, length, bytes.
pub fn len_delim(buf: &mut Vec<u8>, field: u32, payload: &[u8])
    ensures
        final(buf)@ == old(buf)@ + delimited(field, payload@),
{
    let ghost start = buf@;
    tag(buf, field, 2);
    put_varint(buf, payload.len() as u64);
    bytes::append_bytes(buf, payload);
    proof {
        assert(buf@ =~= start + delimited(field, payload@));
    }
}

/// Append a `packed` repeated uint32 field: one length-delimited blob of varints.
pub fn packed_u32(buf: &mut Vec<u8>, field: u32, vals: &[u32])
    ensures
        final(buf)@ == old(buf)@ + packed(field, vals@),
{
    let mut tmp: Vec<u8> = Vec::new();
    let n = vals.len();
    let mut k: usize = 0;
    while k < n
        invariant
            k <= n,
            n == vals@.len(),
            varints_from(vals@, 0, Seq::empty()) == varints_from(vals@, k as int, tmp@),
        decreases n - k,
    {
        put_varint(&mut tmp, vals[k] as u64);
        k += 1;
    }
    len_delim(buf, field, tmp.as_slice());
}

/// Append the strings as fields of that number.
pub fn put_strings(buf: &mut Vec<u8>, field: u32, strings: &Vec<String>)
    ensures
        final(buf)@ == strings_from(strings.deep_view(), field, 0, old(buf)@),
{
    let ghost sv = strings.deep_view();
    let ghost start = buf@;
    let mut k: usize = 0;
    while k < strings.len()
        invariant
            k <= strings@.len(),
            sv == strings.deep_view(),
            strings_from(sv, field, 0, start) == strings_from(sv, field, k as int, buf@),
        decreases strings@.len() - k,
    {
        proof {
            assert(sv[k as int] == strings@[k as int]@);
        }
        len_delim(buf, field, strings[k].as_str().as_bytes());
        k += 1;
    }
}

/// Encode a `LockPoints` message. The columns must be parallel (equal length);
/// row `i` is `(class_id[i], method_id[i], lock_id[i], line[i])`, ids indexing
/// into `strings`.
pub fn encode_lock_points(
    strings: &Vec<String>,
    class_id: &[u32],
    method_id: &[u32],
    lock_id: &[u32],
    line: &[u32],
) -> (r: Vec<u8>)
    ensures
        r@ == lock_points(strings.deep_view(), class_id@, method_id@, lock_id@, line@),
{
    let mut buf: Vec<u8> = Vec::new();
    put_strings(&mut buf, 1, strings);
    packed_u32(&mut buf, 2, class_id);
    packed_u32(&mut buf, 3, method_id);
    packed_u32(&mut buf, 4, lock_id);
    packed_u32(&mut buf, 5, line);
    buf
}

} // verus!

//! The protobuf wire format: base-128 varints, little-endian fixed-width
//! values, and tagged fields.
use vstd::prelude::*;

verus! {

/// `128` to the power `i`.
pub open spec fn exp128(i: nat) -> nat
    decreases i,
{
    if i == 0 {
        1
    } else {
        128 * exp128((i - 1) as nat)
    }
}

/// The varint at the start of `b`, as its value and its length in bytes, with
/// no bound on either.
pub open spec fn varint_raw(b: Seq<u8>) -> Option<(nat, nat)>
    decreases b.len(),
{
    if b.len() == 0 {
        None
    } else if b[0] < 128 {
        Some((b[0] as nat, 1nat))
    } else {
        match varint_raw(b.drop_first()) {
            None => None,
            Some((v, n)) => Some(((b[0] - 128) as nat + 128 * v, n + 1)),
        }
    }
}

/// The varint at the start of `b` as the wire format admits it: at most ten
/// bytes long, with a value that fits in 64 bits.
pub open spec fn parse_varint(b: Seq<u8>) -> Option<(u64, nat)> {
    match varint_raw(b) {
        Some((v, n)) => if n <= 10 && v < 0x1_0000_0000_0000_0000 {
            Some((v as u64, n))
        } else {
            None
        },
        None => None,
    }
}

/// The shortest varint encoding of `v`.
pub open spec fn encode_varint(v: nat) -> Seq<u8>
    decreases v,
{
    if v < 128 {
        seq![v as u8]
    } else {
        seq![(v % 128 + 128) as u8] + encode_varint(v / 128)
    }
}

/// The little-endian value of the bytes `b`.
pub open spec fn le_value(b: Seq<u8>) -> nat
    decreases b.len(),
{
    if b.len() == 0 {
        0
    } else {
        b[0] as nat + 256 * le_value(b.drop_first())
    }
}

/// The `n` low bytes of `v`, least significant first.
pub open spec fn le_bytes(v: nat, n: nat) -> Seq<u8>
    decreases n,
{
    if n == 0 {
        Seq::empty()
    } else {
        seq![(v % 256) as u8] + le_bytes(v / 256, (n - 1) as nat)
    }
}

/// A varint read from a later position, seen from an earlier one: `value`
/// and `mult` account for the `i` bytes before it.
pub open spec fn shifted(r: Option<(nat, nat)>, value: nat, mult: nat, i: nat) -> Option<(nat, nat)> {
    match r {
        None => None,
        Some((v, n)) => Some((value + mult * v, n + i)),
    }
}

/// The powers of 128 that a ten-byte varint reaches.
proof fn lemma_exp128_values()
    ensures
        exp128(9) == 0x8000_0000_0000_0000,
        forall|i: nat| i <= 8 ==> #[trigger] exp128(i) <= 0x0100_0000_0000_0000,
        forall|i: nat| i <= 9 ==> #[trigger] exp128(i) >= 1,
{
    reveal_with_fuel(exp128, 10);
    assert forall|i: nat| i <= 8 implies #[trigger] exp128(i) <= 0x0100_0000_0000_0000 by {
        reveal_with_fuel(exp128, 10);
        assert(i == 0 || i == 1 || i == 2 || i == 3 || i == 4 || i == 5 || i == 6 || i == 7 || i == 8);
    }
    assert forall|i: nat| i <= 9 implies #[trigger] exp128(i) >= 1 by {
        reveal_with_fuel(exp128, 10);
        assert(i == 0 || i == 1 || i == 2 || i == 3 || i == 4 || i == 5 || i == 6 || i == 7 || i == 8 || i == 9);
    }
}

/// Reads the varint that starts at `pos`; on success returns its value and
/// the position just after it.
pub fn read_varint(buf: &[u8], pos: usize) -> (r: Option<(u64, usize)>)
    requires
        pos <= buf@.len(),
    ensures
        match parse_varint(buf@.skip(pos as int)) {
            Some((v, n)) => pos + n <= buf@.len() && r == Some((v, (pos + n) as usize)),
            None => r is None,
        },
{
    let ghost b = buf@.skip(pos as int);
    let mut value: u64 = 0;
    let mut mult: u64 = 1;
    let mut i: usize = 0;
    proof {
        lemma_exp128_values();
        lemma_varint_raw_len(b);
        assert(b.skip(0) =~= b);
    }
    while i < 10
        invariant
            b == buf@.skip(pos as int),
            pos <= buf@.len(),
            i <= 9,
            i <= b.len(),
            mult == exp128(i as nat),
            value < mult,
            varint_raw(b) == shifted(varint_raw(b.skip(i as int)), value as nat, mult as nat, i as nat),
        decreases 10 - i,
    {
        proof {
            lemma_exp128_values();
        }
        if i >= buf.len() - pos {
            assert(b.skip(i as int).len() == 0);
            return None;
        }
        let byte = buf[pos + i];
        let ghost tail = b.skip(i as int);
        assert(tail[0] == byte);
        if byte < 128 {
            assert(varint_raw(tail) == Some((byte as nat, 1nat)));
            if i == 9 && byte > 1 {
                assert(mult as nat * byte as nat >= 2 * 0x8000_0000_0000_0000) by (nonlinear_arith)
                    requires
                        mult == 0x8000_0000_0000_0000,
                        byte > 1,
                ;
                return None;
            }
            assert(mult as nat * byte as nat <= mult as nat * 127) by (nonlinear_arith)
                requires
                    byte < 128,
            ;
            assert(i < 9 ==> mult as nat * 128 <= 0x8000_0000_0000_0000) by (nonlinear_arith)
                requires
                    i < 9 ==> mult <= 0x0100_0000_0000_0000,
            ;
            assert(value as nat + mult as nat * (byte as nat) < 0x1_0000_0000_0000_0000) by (nonlinear_arith)
                requires
                    value < mult,
                    mult <= 0x8000_0000_0000_0000,
                    i <= 9,
                    i == 9 ==> byte <= 1,
                    i < 9 ==> mult as nat * 128 <= 0x8000_0000_0000_0000,
                    mult as nat * byte as nat <= mult as nat * 127,
            ;
            let v = value + mult * (byte as u64);
            return Some((v, pos + i + 1));
        }
        if i == 9 {
            proof {
                match varint_raw(tail.drop_first()) {
                    None => {},
                    Some((v, n)) => {
                        assert(n >= 1);
                    },
                }
            }
            return None;
        }
        assert(tail.drop_first() =~= b.skip(i + 1));
        let d = (byte - 128) as u64;
        assert(mult as nat * 128 <= 0x8000_0000_0000_0000) by (nonlinear_arith)
            requires
                mult <= 0x0100_0000_0000_0000,
        ;
        assert(value as nat + mult as nat * (d as nat) < mult as nat * 128) by (nonlinear_arith)
            requires
                value < mult,
                d < 128,
        ;
        proof {
            match varint_raw(b.skip(i + 1)) {
                None => {},
                Some((v, n)) => {
                    let x = value as nat;
                    let m = mult as nat;
                    let dd = d as nat;
                    assert(x + m * (dd + 128 * v) == (x + m * dd) + (m * 128) * v) by (nonlinear_arith);
                },
            }
        }
        value = value + mult * d;
        mult = mult * 128;
        i = i + 1;
    }
    None
}

/// Appends the varint encoding of `v`.
pub fn write_varint(out: &mut Vec<u8>, v: u64)
    ensures
        final(out)@ == old(out)@ + encode_varint(v as nat),
{
    let mut x = v;
    while x >= 128
        invariant
            old(out)@ + encode_varint(v as nat) == out@ + encode_varint(x as nat),
        decreases x,
    {
        let ghost before = out@;
        out.push((x % 128 + 128) as u8);
        assert(before + encode_varint(x as nat) =~= out@ + encode_varint((x / 128) as nat));
        x = x / 128;
    }
    let ghost before = out@;
    out.push(x as u8);
    assert(before + encode_varint(x as nat) =~= out@);
}

/// A varint encoding decodes back to its value, whatever follows it.
pub proof fn lemma_varint_raw_encode(v: nat, rest: Seq<u8>)
    ensures
        varint_raw(encode_varint(v) + rest) == Some((v, encode_varint(v).len())),
    decreases v,
{
    let b = encode_varint(v) + rest;
    if v >= 128 {
        lemma_varint_raw_encode(v / 128, rest);
        assert(b.drop_first() =~= encode_varint(v / 128) + rest);
    }
}

/// A value below `128^k` takes at most `k` bytes.
pub proof fn lemma_encode_varint_len(v: nat, k: nat)
    requires
        k >= 1,
        v < exp128(k),
    ensures
        encode_varint(v).len() <= k,
    decreases k,
{
    if v >= 128 {
        if k == 1 {
            assert(exp128(1) == 128 * exp128(0));
        } else {
            assert(v / 128 < exp128((k - 1) as nat)) by (nonlinear_arith)
                requires
                    v < 128 * exp128((k - 1) as nat),
            ;
            lemma_encode_varint_len(v / 128, (k - 1) as nat);
        }
    }
}

/// Every 64-bit value, encoded, reads back as itself.
pub proof fn lemma_parse_varint_encode(v: u64, rest: Seq<u8>)
    ensures
        parse_varint(encode_varint(v as nat) + rest) == Some((v, encode_varint(v as nat).len())),
        encode_varint(v as nat).len() <= 10,
{
    lemma_varint_raw_encode(v as nat, rest);
    reveal_with_fuel(exp128, 11);
    lemma_encode_varint_len(v as nat, 10);
}

/// Reads the eight bytes at `pos` as a little-endian value.
pub fn read_fixed64(buf: &[u8], pos: usize) -> (r: u64)
    requires
        pos + 8 <= buf@.len(),
    ensures
        r as nat == le_value(buf@.subrange(pos as int, pos + 8)),
{
    let ghost b = buf@.subrange(pos as int, pos + 8);
    let len = buf.len();
    proof {
        reveal_with_fuel(le_value, 9);
        assert(b.drop_first() =~= buf@.subrange(pos + 1, pos + 8));
        assert(b.drop_first().drop_first() =~= buf@.subrange(pos + 2, pos + 8));
        assert(b.drop_first().drop_first().drop_first() =~= buf@.subrange(pos + 3, pos + 8));
        assert(b.drop_first().drop_first().drop_first().drop_first() =~= buf@.subrange(pos + 4, pos + 8));
        assert(b.drop_first().drop_first().drop_first().drop_first().drop_first() =~= buf@.subrange(pos + 5, pos + 8));
        assert(b.drop_first().drop_first().drop_first().drop_first().drop_first().drop_first() =~= buf@.subrange(pos + 6, pos + 8));
        assert(b.drop_first().drop_first().drop_first().drop_first().drop_first().drop_first().drop_first() =~= buf@.subrange(pos + 7, pos + 8));
        assert(buf@.subrange(pos + 7, pos + 8).drop_first() =~= Seq::<u8>::empty());
    }
    let r7 = buf[pos + 7] as u64;
    let r6 = buf[pos + 6] as u64 + 256 * r7;
    let r5 = buf[pos + 5] as u64 + 256 * r6;
    let r4 = buf[pos + 4] as u64 + 256 * r5;
    let r3 = buf[pos + 3] as u64 + 256 * r4;
    let r2 = buf[pos + 2] as u64 + 256 * r3;
    let r1 = buf[pos + 1] as u64 + 256 * r2;
    buf[pos] as u64 + 256 * r1
}

/// Appends `v` as eight little-endian bytes.
pub fn write_fixed64(out: &mut Vec<u8>, v: u64)
    ensures
        final(out)@ == old(out)@ + le_bytes(v as nat, 8),
{
    let mut x = v;
    let mut k: usize = 0;
    while k < 8
        invariant
            k <= 8,
            old(out)@ + le_bytes(v as nat, 8) == out@ + le_bytes(x as nat, (8 - k) as nat),
        decreases 8 - k,
    {
        let ghost before = out@;
        out.push((x % 256) as u8);
        assert(before + le_bytes(x as nat, (8 - k) as nat) =~= out@ + le_bytes((x / 256) as nat, (8 - k - 1) as nat));
        x = x / 256;
        k = k + 1;
    }
    assert(out@ + le_bytes(x as nat, 0) =~= out@);
}

/// `256` to the power `n`.
pub open spec fn exp256(n: nat) -> nat
    decreases n,
{
    if n == 0 {
        1
    } else {
        256 * exp256((n - 1) as nat)
    }
}

/// The low bytes of a value read back as the value, when it fits.
pub proof fn lemma_le_round_trip(v: nat, n: nat)
    requires
        v < exp256(n),
    ensures
        le_value(le_bytes(v, n)) == v,
        le_bytes(v, n).len() == n,
    decreases n,
{
    if n == 0 {
    } else {
        assert(v / 256 < exp256((n - 1) as nat)) by (nonlinear_arith)
            requires
                v < 256 * exp256((n - 1) as nat),
        ;
        lemma_le_round_trip(v / 256, (n - 1) as nat);
        let b = le_bytes(v, n);
        assert(b.drop_first() =~= le_bytes(v / 256, (n - 1) as nat));
    }
}

/// Every 64-bit value survives eight little-endian bytes.
pub proof fn lemma_fixed64_round_trip(v: u64)
    ensures
        le_value(le_bytes(v as nat, 8)) == v as nat,
        le_bytes(v as nat, 8).len() == 8,
{
    reveal_with_fuel(exp256, 9);
    lemma_le_round_trip(v as nat, 8);
}

/// The payload of one field, by wire type. Fixed-width payloads keep their
/// bytes as they stand.
pub enum Wire {
    Varint(u64),
    Fixed64(Seq<u8>),
    Bytes(Seq<u8>),
    Fixed32(Seq<u8>),
    Group,
}

/// One tagged field of a message.
pub struct Field {
    pub number: u64,
    pub wire: Wire,
}

/// The payload of wire type `wt` at the start of `rest`, and the number of
/// bytes it takes; `None` for a wire type without a payload of its own.
pub open spec fn parse_payload(rest: Seq<u8>, wt: u64) -> Option<(Wire, nat)> {
    if wt == 0 {
        match parse_varint(rest) {
            Some((v, m)) => Some((Wire::Varint(v), m)),
            None => None,
        }
    } else if wt == 1 {
        if rest.len() >= 8 {
            Some((Wire::Fixed64(rest.take(8)), 8nat))
        } else {
            None
        }
    } else if wt == 2 {
        match parse_varint(rest) {
            Some((len, m)) => if m + len <= rest.len() {
                Some((Wire::Bytes(rest.subrange(m as int, m + len)), (m + len) as nat))
            } else {
                None
            },
            None => None,
        }
    } else if wt == 5 {
        if rest.len() >= 4 {
            Some((Wire::Fixed32(rest.take(4)), 4nat))
        } else {
            None
        }
    } else {
        None
    }
}

/// How deeply groups may nest.
pub const GROUP_DEPTH: u64 = 100;

/// The number of bytes that the rest of a group numbered `number` takes, up
/// to and including its end-group key: the fields in it are skipped, groups
/// nested in it at most `budget - 1` deep.
pub open spec fn skip_group(b: Seq<u8>, number: u64, budget: nat) -> Option<nat>
    decreases b.len(),
{
    if budget == 0 {
        None
    } else {
        match parse_varint(b) {
            None => None,
            Some((key, n)) => if key > 0xFFFF_FFFF || key / 8 == 0 || n == 0 || n > b.len() {
                None
            } else {
                let rest = b.skip(n as int);
                if key % 8 == 4 {
                    if key / 8 == number {
                        Some(n)
                    } else {
                        None
                    }
                } else {
                    let inner: Option<nat> = if key % 8 == 3 {
                        skip_group(rest, key / 8, (budget - 1) as nat)
                    } else {
                        match parse_payload(rest, key % 8) {
                            Some((w, m)) => Some(m),
                            None => None,
                        }
                    };
                    match inner {
                        Some(m) => if m <= rest.len() {
                            match skip_group(rest.skip(m as int), number, budget) {
                                Some(k) => Some(n + m + k),
                                None => None,
                            }
                        } else {
                            None
                        },
                        None => None,
                    }
                }
            },
        }
    }
}

/// The field at the start of `b` and the number of bytes it takes. Keys above
/// 32 bits, field number 0, an end-group key, and wire types 6 and 7 are
/// refused; a group is skipped whole, its nesting limited to `GROUP_DEPTH`.
pub open spec fn parse_field(b: Seq<u8>) -> Option<(Field, nat)> {
    match parse_varint(b) {
        None => None,
        Some((key, n)) => if key > 0xFFFF_FFFF || key / 8 == 0 {
            None
        } else {
            let rest = b.skip(n as int);
            let number = key / 8;
            if key % 8 == 3 {
                match skip_group(rest, number, GROUP_DEPTH as nat) {
                    Some(m) => Some((Field { number, wire: Wire::Group }, n + m)),
                    None => None,
                }
            } else {
                match parse_payload(rest, key % 8) {
                    Some((w, m)) => Some((Field { number, wire: w }, n + m)),
                    None => None,
                }
            }
        },
    }
}

/// The wire type number of a payload.
pub open spec fn wire_type(w: Wire) -> nat {
    match w {
        Wire::Varint(_) => 0,
        Wire::Fixed64(_) => 1,
        Wire::Bytes(_) => 2,
        Wire::Fixed32(_) => 5,
        Wire::Group => 3,
    }
}

/// The bytes of one field: its key, then its payload.
pub open spec fn encode_field(f: Field) -> Seq<u8> {
    encode_varint((f.number * 8 + wire_type(f.wire)) as nat) + match f.wire {
        Wire::Varint(v) => encode_varint(v as nat),
        Wire::Fixed64(bs) => bs,
        Wire::Bytes(bs) => encode_varint(bs.len()) + bs,
        Wire::Fixed32(bs) => bs,
        Wire::Group => Seq::empty(),
    }
}

/// A field that the wire format can carry.
pub open spec fn wf_field(f: Field) -> bool {
    &&& 1 <= f.number < 0x2000_0000
    &&& match f.wire {
        Wire::Varint(_) => true,
        Wire::Fixed64(bs) => bs.len() == 8,
        Wire::Bytes(bs) => bs.len() < 0x1_0000_0000_0000_0000,
        Wire::Fixed32(bs) => bs.len() == 4,
        Wire::Group => false,
    }
}

/// The fields, one after the other.
pub open spec fn encode_fields(fs: Seq<Field>) -> Seq<u8>
    decreases fs.len(),
{
    if fs.len() == 0 {
        Seq::empty()
    } else {
        encode_field(fs[0]) + encode_fields(fs.drop_first())
    }
}

/// Decodes the fields of `b` one after the other into `acc`, `step` folding
/// each field in; `None` where a field does not parse or `step` refuses it.
pub open spec fn decode_fields<A>(b: Seq<u8>, acc: A, step: spec_fn(A, Field) -> Option<A>) -> Option<A>
    decreases b.len(),
{
    if b.len() == 0 {
        Some(acc)
    } else {
        match parse_field(b) {
            None => None,
            Some((f, n)) => if 0 < n <= b.len() {
                match step(acc, f) {
                    None => None,
                    Some(a) => decode_fields(b.skip(n as int), a, step),
                }
            } else {
                None
            },
        }
    }
}

/// Folds `step` over the fields `fs`.
pub open spec fn fold_steps<A>(fs: Seq<Field>, acc: A, step: spec_fn(A, Field) -> Option<A>) -> Option<A>
    decreases fs.len(),
{
    if fs.len() == 0 {
        Some(acc)
    } else {
        match step(acc, fs[0]) {
            None => None,
            Some(a) => fold_steps(fs.drop_first(), a, step),
        }
    }
}

/// A field's payload, located in the buffer it was read from.
pub enum WireValue {
    Varint(u64),
    Fixed64(u64),
    Delimited(usize, usize),
    Fixed32,
    Group,
}

/// Whether `w`, read from `buf`, is the payload `wire`.
pub open spec fn wire_matches(w: WireValue, buf: Seq<u8>, wire: Wire) -> bool {
    match (w, wire) {
        (WireValue::Varint(a), Wire::Varint(b)) => a == b,
        (WireValue::Fixed64(a), Wire::Fixed64(bs)) => a as nat == le_value(bs),
        (WireValue::Delimited(s, e), Wire::Bytes(bs)) => s <= e <= buf.len() && buf.subrange(s as int, e as int) == bs,
        (WireValue::Fixed32, Wire::Fixed32(_)) => true,
        (WireValue::Group, Wire::Group) => true,
        _ => false,
    }
}

/// A varint takes at least one byte and no more than there are.
proof fn lemma_varint_raw_len(b: Seq<u8>)
    ensures
        varint_raw(b) matches Some((v, n)) ==> 0 < n <= b.len(),
    decreases b.len(),
{
    if b.len() > 0 && b[0] >= 128 {
        lemma_varint_raw_len(b.drop_first());
    }
}

/// A payload takes no more bytes than there are.
proof fn lemma_payload_len(rest: Seq<u8>, wt: u64)
    ensures
        parse_payload(rest, wt) matches Some((w, m)) ==> m <= rest.len(),
{
    lemma_varint_raw_len(rest);
}

/// A skipped group takes at least one byte and no more than there are.
proof fn lemma_skip_group_len(b: Seq<u8>, number: u64, budget: nat)
    ensures
        skip_group(b, number, budget) matches Some(m) ==> 0 < m <= b.len(),
    decreases b.len(),
{
    lemma_varint_raw_len(b);
    if budget > 0 {
        match parse_varint(b) {
            None => {},
            Some((key, n)) => {
                if !(key > 0xFFFF_FFFF || key / 8 == 0 || n == 0 || n > b.len()) && key % 8 != 4 {
                    let rest = b.skip(n as int);
                    if key % 8 == 3 {
                        lemma_skip_group_len(rest, key / 8, (budget - 1) as nat);
                    }
                    lemma_payload_len(rest, key % 8);
                    let inner: Option<nat> = if key % 8 == 3 {
                        skip_group(rest, key / 8, (budget - 1) as nat)
                    } else {
                        match parse_payload(rest, key % 8) {
                            Some((w, m)) => Some(m),
                            None => None,
                        }
                    };
                    match inner {
                        Some(m) => if m <= rest.len() {
                            lemma_skip_group_len(rest.skip(m as int), number, budget);
                        },
                        None => {},
                    }
                }
            },
        }
    }
}

/// A parsed field takes at least one byte and no more than there are.
pub proof fn lemma_parse_field_len(b: Seq<u8>)
    ensures
        parse_field(b) matches Some((f, n)) ==> 0 < n <= b.len(),
{
    lemma_varint_raw_len(b);
    match parse_varint(b) {
        None => {},
        Some((key, n)) => {
            lemma_payload_len(b.skip(n as int), key % 8);
            lemma_skip_group_len(b.skip(n as int), key / 8, GROUP_DEPTH as nat);
        },
    }
}

/// Reads the payload of wire type `wt` that starts at `pos`; on success
/// returns it and the position just after it.
pub fn read_payload(buf: &[u8], pos: usize, wt: u64) -> (r: Option<(WireValue, usize)>)
    requires
        pos <= buf@.len(),
    ensures
        match parse_payload(buf@.skip(pos as int), wt) {
            None => r is None,
            Some((w, m)) => r matches Some((v, end)) && wire_matches(v, buf@, w) && end == pos + m
                && end <= buf@.len(),
        },
{
    let ghost rest = buf@.skip(pos as int);
    let len = buf.len();
    if wt == 0 {
        match read_varint(buf, pos) {
            None => None,
            Some((v, end)) => Some((WireValue::Varint(v), end)),
        }
    } else if wt == 1 {
        if len - pos >= 8 {
            let v = read_fixed64(buf, pos);
            assert(rest.take(8) =~= buf@.subrange(pos as int, pos + 8));
            Some((WireValue::Fixed64(v), pos + 8))
        } else {
            None
        }
    } else if wt == 2 {
        match read_varint(buf, pos) {
            None => None,
            Some((l, len_end)) => {
                if l <= (len - len_end) as u64 {
                    let e = len_end + l as usize;
                    assert(rest.subrange((len_end - pos) as int, (len_end - pos) + l) =~= buf@.subrange(
                        len_end as int,
                        e as int,
                    ));
                    Some((WireValue::Delimited(len_end, e), e))
                } else {
                    None
                }
            },
        }
    } else if wt == 5 {
        if len - pos >= 4 {
            Some((WireValue::Fixed32, pos + 4))
        } else {
            None
        }
    } else {
        None
    }
}

/// Skips the rest of a group numbered `number` that starts at `pos`; on
/// success returns the position just after its end-group key.
#[verifier::rlimit(60)]
pub fn skip_group_at(buf: &[u8], pos: usize, number: u64, budget: u64) -> (r: Option<usize>)
    requires
        pos <= buf@.len(),
    ensures
        match skip_group(buf@.skip(pos as int), number, budget as nat) {
            Some(m) => pos + m <= buf@.len() && r == Some((pos + m) as usize),
            None => r is None,
        },
    decreases budget,
{
    if budget == 0 {
        return None;
    }
    let len = buf.len();
    let mut p = pos;
    assert(buf@.skip(pos as int).skip(0) =~= buf@.skip(pos as int));
    while p < len || p == len
        invariant
            pos <= p <= buf@.len(),
            len == buf@.len(),
            budget > 0,
            skip_group(buf@.skip(pos as int), number, budget as nat) == match skip_group(
                buf@.skip(p as int),
                number,
                budget as nat,
            ) {
                Some(k) => Some((k + (p - pos)) as nat),
                None => None::<nat>,
            },
        decreases len - p,
    {
        let ghost b = buf@.skip(p as int);
        proof {
            lemma_varint_raw_len(b);
        }
        let (key, key_end) = match read_varint(buf, p) {
            None => return None,
            Some(x) => x,
        };
        if key > 0xFFFF_FFFF || key / 8 == 0 {
            return None;
        }
        let ghost n = (key_end - p) as nat;
        let ghost rest = b.skip(n as int);
        assert(parse_varint(b) == Some((key, n)));
        assert(rest =~= buf@.skip(key_end as int));
        assert(n > 0);
        if key % 8 == 4 {
            if key / 8 == number {
                return Some(key_end);
            }
            return None;
        }
        let inner_end = if key % 8 == 3 {
            match skip_group_at(buf, key_end, key / 8, budget - 1) {
                Some(e) => e,
                None => return None,
            }
        } else {
            match read_payload(buf, key_end, key % 8) {
                Some((_, e)) => e,
                None => return None,
            }
        };
        assert(rest.skip((inner_end - key_end) as int) =~= buf@.skip(inner_end as int));
        p = inner_end;
    }
    None
}

/// Reads the field that starts at `pos`; on success returns its number, its
/// payload and the position just after it.
#[verifier::rlimit(40)]
pub fn read_field(buf: &[u8], pos: usize) -> (r: Option<(u64, WireValue, usize)>)
    requires
        pos <= buf@.len(),
    ensures
        match parse_field(buf@.skip(pos as int)) {
            None => r is None,
            Some((f, n)) => r matches Some((num, w, end)) && num == f.number && wire_matches(w, buf@, f.wire)
                && end == pos + n,
        },
{
    let ghost b = buf@.skip(pos as int);
    let len = buf.len();
    let (key, key_end) = match read_varint(buf, pos) {
        None => return None,
        Some(x) => x,
    };
    if key > 0xFFFF_FFFF || key / 8 == 0 {
        return None;
    }
    let ghost n = (key_end - pos) as nat;
    let ghost rest = b.skip(n as int);
    proof {
        lemma_varint_raw_len(b);
    }
    assert(parse_varint(b) == Some((key, n)));
    assert(key_end <= buf@.len());
    assert(rest =~= buf@.skip(key_end as int));
    let number = key / 8;
    if key % 8 == 3 {
        match skip_group_at(buf, key_end, number, GROUP_DEPTH) {
            Some(end) => Some((number, WireValue::Group, end)),
            None => None,
        }
    } else {
        match read_payload(buf, key_end, key % 8) {
            Some((w, end)) => Some((number, w, end)),
            None => None,
        }
    }
}

/// A field that the wire format can carry parses back as itself, whatever
/// follows it.
pub proof fn lemma_parse_field_encode(f: Field, rest: Seq<u8>)
    requires
        wf_field(f),
    ensures
        parse_field(encode_field(f) + rest) == Some((f, encode_field(f).len())),
{
    let wt = wire_type(f.wire);
    let key = f.number * 8 + wt;
    assert(key <= 0xFFFF_FFFF);
    let kb = encode_varint(key as nat);
    let payload = match f.wire {
        Wire::Varint(v) => encode_varint(v as nat),
        Wire::Fixed64(bs) => bs,
        Wire::Bytes(bs) => encode_varint(bs.len()) + bs,
        Wire::Fixed32(bs) => bs,
        Wire::Group => Seq::empty(),
    };
    let b = encode_field(f) + rest;
    assert(b =~= kb + (payload + rest));
    lemma_parse_varint_encode(key as u64, payload + rest);
    assert(b.skip(kb.len() as int) =~= payload + rest);
    assert(key / 8 == f.number && key % 8 == wt) by (nonlinear_arith)
        requires
            key == f.number * 8 + wt,
            wt < 8,
    ;
    match f.wire {
        Wire::Varint(v) => {
            lemma_parse_varint_encode(v, rest);
        },
        Wire::Fixed64(bs) => {
            assert((payload + rest).take(8) =~= bs);
        },
        Wire::Bytes(bs) => {
            let lb = encode_varint(bs.len());
            assert(payload + rest =~= lb + (bs + rest));
            lemma_parse_varint_encode(bs.len() as u64, bs + rest);
            assert((payload + rest).subrange(lb.len() as int, (lb.len() + bs.len()) as int) =~= bs);
        },
        Wire::Fixed32(bs) => {
            assert((payload + rest).take(4) =~= bs);
        },
        Wire::Group => {},
    }
}

/// Decoding the encoding of well-formed fields folds `step` over them.
pub proof fn lemma_decode_encoded<A>(fs: Seq<Field>, acc: A, step: spec_fn(A, Field) -> Option<A>)
    requires
        forall|i: int| 0 <= i < fs.len() ==> wf_field(#[trigger] fs[i]),
    ensures
        decode_fields(encode_fields(fs), acc, step) == fold_steps(fs, acc, step),
    decreases fs.len(),
{
    if fs.len() > 0 {
        let b = encode_fields(fs);
        let tail = encode_fields(fs.drop_first());
        assert(wf_field(fs[0]));
        lemma_parse_field_encode(fs[0], tail);
        assert(b.skip(encode_field(fs[0]).len() as int) =~= tail);
        assert forall|i: int| 0 <= i < fs.drop_first().len() implies wf_field(#[trigger] fs.drop_first()[i]) by {
            assert(wf_field(fs[i + 1]));
        }
        match step(acc, fs[0]) {
            None => {},
            Some(a) => {
                lemma_decode_encoded(fs.drop_first(), a, step);
            },
        }
    }
}

/// Encoding two runs of fields is encoding each, one after the other.
pub proof fn lemma_encode_fields_append(a: Seq<Field>, b: Seq<Field>)
    ensures
        encode_fields(a + b) == encode_fields(a) + encode_fields(b),
    decreases a.len(),
{
    if a.len() == 0 {
        assert(a + b =~= b);
        assert(Seq::<u8>::empty() + encode_fields(b) =~= encode_fields(b));
    } else {
        assert((a + b).drop_first() =~= a.drop_first() + b);
        lemma_encode_fields_append(a.drop_first(), b);
        assert(encode_fields(a + b) =~= encode_fields(a) + encode_fields(b));
    }
}

/// Folding over two runs of fields is folding over the first, then the second.
pub proof fn lemma_fold_steps_append<A>(a: Seq<Field>, b: Seq<Field>, acc: A, step: spec_fn(A, Field) -> Option<A>)
    ensures
        fold_steps(a + b, acc, step) == match fold_steps(a, acc, step) {
            Some(x) => fold_steps(b, x, step),
            None => None,
        },
    decreases a.len(),
{
    if a.len() == 0 {
        assert(a + b =~= b);
    } else {
        assert((a + b).drop_first() =~= a.drop_first() + b);
        assert((a + b)[0] == a[0]);
        match step(acc, a[0]) {
            None => {},
            Some(x) => {
                lemma_fold_steps_append(a.drop_first(), b, x, step);
            },
        }
    }
}

/// Appends the key of a field.
pub fn write_key(out: &mut Vec<u8>, number: u64, wire: u64)
    requires
        1 <= number < 0x2000_0000,
        wire < 8,
    ensures
        final(out)@ == old(out)@ + encode_varint((number * 8 + wire) as nat),
{
    write_varint(out, number * 8 + wire);
}

/// Appends a length-delimited field holding `payload`.
pub fn write_bytes_field(out: &mut Vec<u8>, number: u64, payload: &[u8])
    requires
        1 <= number < 0x2000_0000,
    ensures
        final(out)@ == old(out)@ + encode_field(Field { number, wire: Wire::Bytes(payload@) }),
{
    write_key(out, number, 2);
    write_varint(out, payload.len() as u64);
    let ghost mid = out@;
    out.extend_from_slice(payload);
    assert(out@ =~= mid + payload@);
    assert(final(out)@ =~= old(out)@ + encode_field(Field { number, wire: Wire::Bytes(payload@) }));
}

/// Appending one field appends its encoding.
pub proof fn lemma_encode_fields_push(a: Seq<Field>, f: Field)
    ensures
        encode_fields(a.push(f)) == encode_fields(a) + encode_field(f),
{
    lemma_encode_fields_append(a, seq![f]);
    assert(a + seq![f] =~= a.push(f));
    let one = seq![f];
    assert(one[0] == f);
    assert(one.drop_first() =~= Seq::<Field>::empty());
    assert(encode_fields(one.drop_first()) =~= Seq::<u8>::empty());
    assert(encode_fields(one) == encode_field(f) + encode_fields(one.drop_first()));
    assert(encode_fields(one) =~= encode_field(f));
}

/// A length-delimited payload is no longer than the encoding of the fields
/// around it.
pub proof fn lemma_payload_within(fs: Seq<Field>, i: int)
    requires
        0 <= i < fs.len(),
        fs[i].wire is Bytes,
    ensures
        fs[i].wire->Bytes_0.len() <= encode_fields(fs).len(),
    decreases fs.len(),
{
    if i > 0 {
        lemma_payload_within(fs.drop_first(), i - 1);
    }
}

} // verus!

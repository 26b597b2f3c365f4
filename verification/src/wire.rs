//! Protocol-buffer wire format: varints and length-delimited records.
use vstd::prelude::*;

verus! {

/// A number in groups of seven bits, least significant first, with the top
/// bit set on every byte but the last.
pub open spec fn varint_bytes(value: nat) -> Seq<u8>
    decreases value,
{
    if value < 128 {
        seq![value as u8]
    } else {
        seq![(value % 128 + 128) as u8] + varint_bytes(value / 128)
    }
}

/// The numbers of a packed record, one after another.
pub open spec fn varints_bytes(values: Seq<u64>) -> Seq<u8>
    decreases values.len(),
{
    if values.len() == 0 {
        Seq::empty()
    } else {
        varints_bytes(values.drop_last()) + varint_bytes(values.last() as nat)
    }
}

/// One field of a message.
#[verifier::ext_equal]
pub enum Field {
    /// A number.
    Varint { number: nat, value: nat },
    /// Text, packed numbers or a nested message.
    Bytes { number: nat, bytes: Seq<u8> },
}

pub const WIRE_TYPE_VARINT: u32 = 0;

pub const WIRE_TYPE_LEN: u32 = 2;

/// The bytes of one field: its number and wire type, then its content.
pub open spec fn field_bytes(field: Field) -> Seq<u8> {
    match field {
        Field::Varint { number, value } => varint_bytes(number * 8) + varint_bytes(value),
        Field::Bytes { number, bytes } => varint_bytes(number * 8 + 2) + varint_bytes(bytes.len())
            + bytes,
    }
}

/// The bytes of a message: its fields one after another.
pub open spec fn message_bytes(fields: Seq<Field>) -> Seq<u8>
    decreases fields.len(),
{
    if fields.len() == 0 {
        Seq::empty()
    } else {
        message_bytes(fields.drop_last()) + field_bytes(fields.last())
    }
}

/// Append a varint.
pub fn varint(out: &mut Vec<u8>, value: u64)
    ensures
        final(out)@ == old(out)@ + varint_bytes(value as nat),
{
    let ghost start = out@;
    let mut rest: u64 = value;
    while rest >= 0x80
        invariant
            start + varint_bytes(value as nat) == out@ + varint_bytes(rest as nat),
        decreases rest,
    {
        let ghost had = out@;
        out.push((rest % 128 + 128) as u8);
        assert(had + varint_bytes(rest as nat) =~= out@ + varint_bytes((rest / 128) as nat));
        rest = rest / 128;
    }
    let ghost had = out@;
    out.push(rest as u8);
    assert(out@ =~= had + varint_bytes(rest as nat));
}

/// A field number has 29 bits; higher bits are dropped.
pub open spec fn field_slot(field_number: u32) -> nat {
    field_number as nat % 0x2000_0000
}

/// Append a field's number and wire type.
pub fn tag(out: &mut Vec<u8>, field_number: u32, wire_type: u32)
    ensures
        final(out)@ == old(out)@ + varint_bytes(((field_number << 3) | wire_type) as nat),
        wire_type < 8 ==> final(out)@ == old(out)@ + varint_bytes(
            field_slot(field_number) * 8 + wire_type as nat,
        ),
{
    assert(wire_type < 8 ==> ((field_number << 3) | wire_type) == (field_number % 0x2000_0000) * 8
        + wire_type) by (bit_vector);
    varint(out, ((field_number << 3) | wire_type) as u64);
}

/// Append a number field.
pub fn write_uint64(out: &mut Vec<u8>, field_number: u32, value: u64)
    ensures
        final(out)@ == old(out)@ + field_bytes(
            Field::Varint { number: field_slot(field_number), value: value as nat },
        ),
{
    tag(out, field_number, WIRE_TYPE_VARINT);
    varint(out, value);
    assert(out@ =~= old(out)@ + field_bytes(
        Field::Varint { number: field_slot(field_number), value: value as nat },
    ));
}

/// Append a length-delimited field.
pub fn write_bytes(out: &mut Vec<u8>, field_number: u32, bytes: &[u8])
    ensures
        final(out)@ == old(out)@ + field_bytes(
            Field::Bytes { number: field_slot(field_number), bytes: bytes@ },
        ),
{
    tag(out, field_number, WIRE_TYPE_LEN);
    varint(out, bytes.len() as u64);
    out.extend_from_slice(bytes);
    assert(out@ =~= old(out)@ + field_bytes(
        Field::Bytes { number: field_slot(field_number), bytes: bytes@ },
    ));
}

/// Append a packed field of numbers. A field without numbers is written as a
/// record of length zero, so that it can be told from a field left out.
pub fn write_packed_uint64(out: &mut Vec<u8>, field_number: u32, values: &Vec<u64>)
    ensures
        final(out)@ == old(out)@ + field_bytes(
            Field::Bytes { number: field_slot(field_number), bytes: varints_bytes(values@) },
        ),
{
    let mut packed: Vec<u8> = Vec::new();
    for i in 0..values.len()
        invariant
            packed@ == varints_bytes(values@.take(i as int)),
    {
        varint(&mut packed, values[i]);
        assert(values@.take(i + 1).drop_last() =~= values@.take(i as int));
    }
    assert(values@.take(values@.len() as int) =~= values@);
    write_bytes(out, field_number, packed.as_slice());
}

/// Messages are written one field after another.
pub proof fn message_bytes_add(a: Seq<Field>, b: Seq<Field>)
    ensures
        message_bytes(a + b) == message_bytes(a) + message_bytes(b),
    decreases b.len(),
{
    if b.len() == 0 {
        assert(a + b =~= a);
        assert(message_bytes(a) + message_bytes(b) =~= message_bytes(a));
    } else {
        assert((a + b).drop_last() =~= a + b.drop_last());
        message_bytes_add(a, b.drop_last());
        assert(message_bytes(a) + message_bytes(b.drop_last()) + field_bytes(b.last())
            =~= message_bytes(a) + message_bytes(b));
    }
}

/// A message grows by one field.
pub proof fn message_bytes_push(a: Seq<Field>, f: Field)
    ensures
        message_bytes(a.push(f)) == message_bytes(a) + field_bytes(f),
{
    assert(a.push(f).drop_last() =~= a);
}

/// Read a varint: its value and how many bytes it takes.
pub open spec fn read_varint(bytes: Seq<u8>) -> Option<(nat, nat)>
    decreases bytes.len(),
{
    if bytes.len() == 0 {
        None
    } else if bytes[0] < 128 {
        Some((bytes[0] as nat, 1))
    } else {
        match read_varint(bytes.skip(1)) {
            Some((high, n)) => Some(((bytes[0] - 128) as nat + 128 * high, n + 1)),
            None => None,
        }
    }
}

/// Read a message, field by field.
pub open spec fn read_message(bytes: Seq<u8>) -> Option<Seq<Field>>
    decreases bytes.len(),
{
    if bytes.len() == 0 {
        Some(Seq::empty())
    } else {
        match read_field(bytes) {
            Some((field, n)) => if 0 < n <= bytes.len() {
                match read_message(bytes.skip(n as int)) {
                    Some(rest) => Some(seq![field] + rest),
                    None => None,
                }
            } else {
                None
            },
            None => None,
        }
    }
}

/// Read one field: the field and how many bytes it takes.
pub open spec fn read_field(bytes: Seq<u8>) -> Option<(Field, nat)> {
    match read_varint(bytes) {
        None => None,
        Some((key, n)) => match read_varint(bytes.skip(n as int)) {
            None => None,
            Some((value, m)) => if key % 8 == 0 {
                Some((Field::Varint { number: key / 8, value }, n + m))
            } else if key % 8 == 2 && n + m + value <= bytes.len() {
                Some(
                    (
                        Field::Bytes {
                            number: key / 8,
                            bytes: bytes.subrange((n + m) as int, (n + m + value) as int),
                        },
                        n + m + value,
                    ),
                )
            } else {
                None
            },
        },
    }
}

/// Reading a varint gives back the number that was written, whatever follows.
pub proof fn varint_reads_back(value: nat, rest: Seq<u8>)
    ensures
        varint_bytes(value).len() > 0,
        read_varint(varint_bytes(value) + rest) == Some((value, varint_bytes(value).len())),
    decreases value,
{
    let bytes = varint_bytes(value) + rest;
    if value >= 128 {
        varint_reads_back(value / 128, rest);
        assert(bytes.skip(1) =~= varint_bytes(value / 128) + rest);
    }
}

proof fn varint_field_reads_back(number: nat, value: nat, rest: Seq<u8>)
    ensures
        ({
            let field = Field::Varint { number, value };
            &&& field_bytes(field).len() > 0
            &&& read_field(field_bytes(field) + rest) == Some((field, field_bytes(field).len()))
        }),
{
    let field = Field::Varint { number, value };
    let bytes = field_bytes(field) + rest;
    let head = varint_bytes(number * 8);
    let tail = varint_bytes(value) + rest;
    varint_reads_back(number * 8, tail);
    varint_reads_back(value, rest);
    assert(bytes =~= head + tail);
    assert(bytes.skip(head.len() as int) =~= tail);
}

#[verifier::rlimit(40)]
proof fn bytes_field_reads_back(number: nat, content: Seq<u8>, rest: Seq<u8>)
    ensures
        ({
            let field = Field::Bytes { number, bytes: content };
            &&& field_bytes(field).len() > 0
            &&& read_field(field_bytes(field) + rest) == Some((field, field_bytes(field).len()))
        }),
{
    let field = Field::Bytes { number, bytes: content };
    let bytes = field_bytes(field) + rest;
    let head = varint_bytes(number * 8 + 2);
    let size = varint_bytes(content.len());
    let tail = size + (content + rest);
    varint_reads_back(number * 8 + 2, tail);
    varint_reads_back(content.len(), content + rest);
    assert(bytes =~= head + tail);
    assert(bytes.skip(head.len() as int) =~= tail);
    let at = (head.len() + size.len()) as int;
    assert(bytes.subrange(at, at + content.len()) =~= content);
}

proof fn field_reads_back(field: Field, rest: Seq<u8>)
    ensures
        field_bytes(field).len() > 0,
        read_field(field_bytes(field) + rest) == Some((field, field_bytes(field).len())),
{
    match field {
        Field::Varint { number, value } => {
            varint_field_reads_back(number, value, rest);
        },
        Field::Bytes { number, bytes } => {
            bytes_field_reads_back(number, bytes, rest);
        },
    }
}

/// Reading a message gives back the fields that were written.
pub proof fn message_reads_back(fields: Seq<Field>)
    ensures
        read_message(message_bytes(fields)) == Some(fields),
    decreases fields.len(),
{
    if fields.len() > 0 {
        let first = fields[0];
        let rest = fields.skip(1);
        assert(fields =~= seq![first] + rest);
        message_bytes_add(seq![first], rest);
        assert(message_bytes(seq![first]) =~= field_bytes(first)) by {
            reveal_with_fuel(message_bytes, 2);
            assert(seq![first].drop_last() =~= Seq::empty());
        }
        field_reads_back(first, message_bytes(rest));
        message_reads_back(rest);
        let bytes = message_bytes(fields);
        assert(bytes.skip(field_bytes(first).len() as int) =~= message_bytes(rest));
    }
}

/// Read the numbers of a packed record.
pub open spec fn read_varints(bytes: Seq<u8>) -> Option<Seq<nat>>
    decreases bytes.len(),
{
    if bytes.len() == 0 {
        Some(Seq::empty())
    } else {
        match read_varint(bytes) {
            Some((value, n)) => if 0 < n <= bytes.len() {
                match read_varints(bytes.skip(n as int)) {
                    Some(rest) => Some(seq![value] + rest),
                    None => None,
                }
            } else {
                None
            },
            None => None,
        }
    }
}

proof fn varints_bytes_add(a: Seq<u64>, b: Seq<u64>)
    ensures
        varints_bytes(a + b) == varints_bytes(a) + varints_bytes(b),
    decreases b.len(),
{
    if b.len() == 0 {
        assert(a + b =~= a);
        assert(varints_bytes(a) + varints_bytes(b) =~= varints_bytes(a));
    } else {
        assert((a + b).drop_last() =~= a + b.drop_last());
        varints_bytes_add(a, b.drop_last());
        assert(varints_bytes(a) + varints_bytes(b.drop_last()) + varint_bytes(b.last() as nat)
            =~= varints_bytes(a) + varints_bytes(b));
    }
}

/// Reading a packed record gives back the numbers that were written.
pub proof fn varints_read_back(values: Seq<u64>)
    ensures
        read_varints(varints_bytes(values)) == Some(values.map_values(|v: u64| v as nat)),
    decreases values.len(),
{
    let wide = values.map_values(|v: u64| v as nat);
    if values.len() == 0 {
        assert(wide =~= Seq::empty());
    } else {
        let first = values[0];
        let rest = values.skip(1);
        assert(values =~= seq![first] + rest);
        varints_bytes_add(seq![first], rest);
        assert(varints_bytes(seq![first]) =~= varint_bytes(first as nat)) by {
            reveal_with_fuel(varints_bytes, 2);
            assert(seq![first].drop_last() =~= Seq::empty());
        }
        varint_reads_back(first as nat, varints_bytes(rest));
        varints_read_back(rest);
        let bytes = varints_bytes(values);
        assert(bytes.skip(varint_bytes(first as nat).len() as int) =~= varints_bytes(rest));
        assert(wide =~= seq![first as nat] + rest.map_values(|v: u64| v as nat));
    }
}

/// The bytes of a varint are the groups of seven bits of the number, the
/// lowest first: all but the last have the top bit set, and there are no more
/// than the number needs.
pub proof fn varints_hold_groups_of_seven_bits(value: nat)
    ensures
        ({
            let bytes = varint_bytes(value);
            let n = bytes.len();
            &&& n > 0
            &&& forall|i: int| 0 <= i < n ==> (#[trigger] bytes[i]) as int % 128 == (value as int
                / vstd::arithmetic::power::pow(128, i as nat)) % 128
            &&& forall|i: int| 0 <= i < n ==> ((#[trigger] bytes[i]) >= 128 <==> i < n - 1)
            &&& value < vstd::arithmetic::power::pow(128, n)
            &&& n > 1 ==> vstd::arithmetic::power::pow(128, (n - 1) as nat) <= value
        }),
    decreases value,
{
    let bytes = varint_bytes(value);
    reveal(vstd::arithmetic::power::pow);
    vstd::arithmetic::power::lemma_pow0(128);
    vstd::arithmetic::power::lemma_pow1(128);
    if value >= 128 {
        let high = value / 128;
        let rest = varint_bytes(high);
        varints_hold_groups_of_seven_bits(high);
        let n = bytes.len();
        assert(n == rest.len() + 1);
        let p = vstd::arithmetic::power::pow(128, rest.len());
        assert(vstd::arithmetic::power::pow(128, n) == 128 * p);
        if rest.len() > 1 {
            let q = vstd::arithmetic::power::pow(128, (rest.len() - 1) as nat);
            assert(p == 128 * q);
        }
        assert forall|i: int| 0 <= i < n implies (#[trigger] bytes[i]) as int % 128 == (value as int
            / vstd::arithmetic::power::pow(128, i as nat)) % 128 by {
            if i > 0 {
                assert(bytes[i] == rest[i - 1]);
                let q = vstd::arithmetic::power::pow(128, (i - 1) as nat);
                vstd::arithmetic::power::lemma_pow_positive(128, (i - 1) as nat);
                assert(vstd::arithmetic::power::pow(128, i as nat) == 128 * q);
                vstd::arithmetic::div_mod::lemma_div_denominator(value as int, 128, q);
            } else {
                assert(value as int / 1 == value);
            }
        }
        assert forall|i: int| 0 <= i < n implies ((#[trigger] bytes[i]) >= 128 <==> i < n - 1) by {
            if i > 0 {
                assert(bytes[i] == rest[i - 1]);
            }
        }
    } else {
        assert(value as int / 1 == value);
    }
}

/// A field starts with its number and, in the lowest three bits, its kind: 0
/// for a number and 2 for bytes, which come behind their count.
pub proof fn fields_start_with_number_and_kind(
    out: &mut Vec<u8>,
    n: u32,
    value: u64,
    bin: &mut Vec<u8>,
    bytes: &[u8],
)
    requires
        n < 16,
        call_ensures(write_uint64, (out, n, value), ()),
        call_ensures(write_bytes, (bin, n, bytes), ()),
    ensures
        final(out)@ == old(out)@ + seq![(n * 8) as u8] + varint_bytes(value as nat),
        final(bin)@ == old(bin)@ + seq![(n * 8 + 2) as u8] + varint_bytes(bytes@.len()) + bytes@,
{
    assert(field_slot(n) == n);
    assert(varint_bytes((n * 8) as nat) =~= seq![(n * 8) as u8]);
    assert(varint_bytes((n * 8 + 2) as nat) =~= seq![(n * 8 + 2) as u8]);
    assert(final(out)@ =~= old(out)@ + seq![(n * 8) as u8] + varint_bytes(value as nat));
    assert(final(bin)@ =~= old(bin)@ + seq![(n * 8 + 2) as u8] + varint_bytes(bytes@.len()) + bytes@);
}

/// Packed numbers come one after another in a field of bytes.
pub proof fn packed_numbers_come_one_after_another(
    out: &mut Vec<u8>,
    n: u32,
    values: &Vec<u64>,
    a: Seq<u64>,
    b: Seq<u64>,
    v: u64,
)
    requires
        n < 16,
        call_ensures(write_packed_uint64, (out, n, values), ()),
    ensures
        final(out)@ == old(out)@ + seq![(n * 8 + 2) as u8] + varint_bytes(varints_bytes(values@).len())
            + varints_bytes(values@),
        varints_bytes(a + b) == varints_bytes(a) + varints_bytes(b),
        varints_bytes(seq![v]) == varint_bytes(v as nat),
        varints_bytes(Seq::empty()) == Seq::<u8>::empty(),
{
    let packed = varints_bytes(values@);
    assert(field_slot(n) == n);
    assert(varint_bytes((n * 8 + 2) as nat) =~= seq![(n * 8 + 2) as u8]);
    assert(final(out)@ =~= old(out)@ + seq![(n * 8 + 2) as u8] + varint_bytes(packed.len()) + packed);
    varints_bytes_add(a, b);
    assert(seq![v].drop_last() =~= Seq::empty());
    assert(varints_bytes(seq![v].drop_last()) =~= Seq::empty());
    assert(varints_bytes(seq![v]) =~= varint_bytes(v as nat));
}

/// A varint and a field's number with its kind are added behind what is there.
pub proof fn varints_are_appended(
    out: &mut Vec<u8>,
    value: u64,
    tagged: &mut Vec<u8>,
    n: u32,
    kind: u32,
)
    requires
        n < 16,
        kind < 8,
        call_ensures(varint, (out, value), ()),
        call_ensures(tag, (tagged, n, kind), ()),
    ensures
        final(out)@ == old(out)@ + varint_bytes(value as nat),
        final(tagged)@ == old(tagged)@ + seq![(n * 8 + kind) as u8],
{
    assert(field_slot(n) == n);
    assert(varint_bytes((n * 8 + kind) as nat) =~= seq![(n * 8 + kind) as u8]);
}

} // verus!

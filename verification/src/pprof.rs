//! Heap profiles as pprof `Profile` messages.
//!
//! A message is built from stacks and one row of values per stack. Each code
//! address becomes one location and one function, numbered from 1 in the
//! order of first appearance, and each text becomes one entry of the string
//! table.
use std::collections::HashMap;
use vstd::prelude::*;
use crate::hotspot;
use crate::intern;
use crate::intern::StringTable;
use crate::order;
use crate::profile;
use crate::profile::{sample_weight, HeapProfile, ProfileView, SampleView, Weight};
use crate::symbols;
use crate::symbols::{FrameView, ResolvedFrame, SymbolCache};
use crate::table;
use crate::text;
use crate::text::{chars_of, has_prefix, push_hex_address, text_of};
use crate::wire;
use crate::wire::{write_bytes, write_packed_uint64, write_uint64, Field};

verus! {

broadcast use vstd::std_specs::hash::group_hash_axioms;

/// The contents of a sequence of stacks.
pub open spec fn stack_views(stacks: Seq<Vec<usize>>) -> Seq<Seq<usize>> {
    Seq::new(stacks.len(), |i: int| stacks[i]@)
}

/// The contents of the rows of values.
pub open spec fn value_views(values: Seq<Vec<u64>>) -> Seq<Seq<u64>> {
    Seq::new(values.len(), |i: int| values[i]@)
}

/// The frames of all stacks, one stack after another.
pub open spec fn all_frames(stacks: Seq<Seq<usize>>) -> Seq<usize>
    decreases stacks.len(),
{
    if stacks.len() == 0 {
        Seq::empty()
    } else {
        all_frames(stacks.drop_last()) + stacks.last()
    }
}

/// The distinct frames in the order of their first appearance.
pub open spec fn frame_list(stacks: Seq<Seq<usize>>) -> Seq<usize> {
    intern::dedup(all_frames(stacks))
}

/// The number of the value at a place, counted from 1 in 64 bits.
pub open spec fn id_at(place: int) -> u64 {
    ((place + 1) % 0x1_0000_0000_0000_0000) as u64
}

/// The name of a frame's function, or its address where no name is known.
pub open spec fn frame_name(frame: usize, resolved: Map<usize, FrameView>) -> Seq<char> {
    match hotspot::name_at(frame, resolved) {
        Some(name) => name,
        None => text::hex_address(frame as nat),
    }
}

/// The source file of a frame, or the empty text.
pub open spec fn frame_file(frame: usize, resolved: Map<usize, FrameView>) -> Seq<char> {
    if resolved.contains_key(frame) {
        match resolved[frame].file {
            Some(file) => file,
            None => Seq::empty(),
        }
    } else {
        Seq::empty()
    }
}

/// The source line of a frame, or 0.
pub open spec fn frame_line(frame: usize, resolved: Map<usize, FrameView>) -> nat {
    if resolved.contains_key(frame) {
        match resolved[frame].line {
            Some(line) => line as nat,
            None => 0,
        }
    } else {
        0
    }
}

/// The texts that frames need: each frame's name, then its file.
pub open spec fn frame_strings(frames: Seq<usize>, resolved: Map<usize, FrameView>) -> Seq<Seq<char>>
    decreases frames.len(),
{
    if frames.len() == 0 {
        Seq::empty()
    } else {
        frame_strings(frames.drop_last(), resolved).push(frame_name(frames.last(), resolved)).push(
            frame_file(frames.last(), resolved),
        )
    }
}

/// The number of a text in the string table.
pub open spec fn slot(strings: Seq<Seq<char>>, s: Seq<char>) -> nat {
    (strings.index_of(s) as u32) as nat
}

/// An address made relative to where the program was loaded. An address
/// below the load address becomes 0, and without a known load address it
/// stays as it is.
pub open spec fn unbiased(address: usize, bias: Option<usize>) -> nat {
    match bias {
        Some(b) => if b <= address {
            (address - b) as nat
        } else {
            0
        },
        None => address as nat,
    }
}

/// A value type: a name and a unit.
pub open spec fn value_type(strings: Seq<Seq<char>>, name: Seq<char>, unit: Seq<char>) -> Seq<Field> {
    seq![
        Field::Varint { number: 1, value: slot(strings, name) },
        Field::Varint { number: 2, value: slot(strings, unit) },
    ]
}

/// The numbers of a stack's locations.
pub open spec fn location_ids(stack: Seq<usize>, frames: Seq<usize>) -> Seq<u64> {
    Seq::new(stack.len(), |i: int| id_at(frames.index_of(stack[i])))
}

/// A sample: its locations, innermost first, and its values.
pub open spec fn sample_message(stack: Seq<usize>, values: Seq<u64>, frames: Seq<usize>) -> Seq<Field> {
    seq![
        Field::Bytes { number: 1, bytes: wire::varints_bytes(location_ids(stack, frames)) },
        Field::Bytes { number: 2, bytes: wire::varints_bytes(values) },
    ]
}

/// The line of a location: its function and the source line.
pub open spec fn line_message(place: int, frame: usize, resolved: Map<usize, FrameView>) -> Seq<Field> {
    seq![
        Field::Varint { number: 1, value: id_at(place) as nat },
        Field::Varint { number: 2, value: frame_line(frame, resolved) },
    ]
}

/// A location: its number, no mapping, its address and its line.
pub open spec fn location_message(
    place: int,
    frame: usize,
    bias: Option<usize>,
    resolved: Map<usize, FrameView>,
) -> Seq<Field> {
    seq![
        Field::Varint { number: 1, value: id_at(place) as nat },
        Field::Varint { number: 2, value: 0 },
        Field::Varint { number: 3, value: unbiased(frame, bias) },
        Field::Bytes { number: 4, bytes: wire::message_bytes(line_message(place, frame, resolved)) },
    ]
}

/// A function: its number, its name twice, its file and no start line.
pub open spec fn function_message(
    place: int,
    frame: usize,
    strings: Seq<Seq<char>>,
    resolved: Map<usize, FrameView>,
) -> Seq<Field> {
    seq![
        Field::Varint { number: 1, value: id_at(place) as nat },
        Field::Varint { number: 2, value: slot(strings, frame_name(frame, resolved)) },
        Field::Varint { number: 3, value: slot(strings, frame_name(frame, resolved)) },
        Field::Varint { number: 4, value: slot(strings, frame_file(frame, resolved)) },
        Field::Varint { number: 5, value: 0 },
    ]
}

pub open spec fn sample_records(
    stacks: Seq<Seq<usize>>,
    values: Seq<Seq<u64>>,
    frames: Seq<usize>,
) -> Seq<Field> {
    Seq::new(
        stacks.len(),
        |i: int|
            Field::Bytes {
                number: 2,
                bytes: wire::message_bytes(sample_message(stacks[i], values[i], frames)),
            },
    )
}

pub open spec fn location_records(
    frames: Seq<usize>,
    bias: Option<usize>,
    resolved: Map<usize, FrameView>,
) -> Seq<Field> {
    Seq::new(
        frames.len(),
        |i: int|
            Field::Bytes {
                number: 4,
                bytes: wire::message_bytes(location_message(i, frames[i], bias, resolved)),
            },
    )
}

pub open spec fn function_records(
    frames: Seq<usize>,
    strings: Seq<Seq<char>>,
    resolved: Map<usize, FrameView>,
) -> Seq<Field> {
    Seq::new(
        frames.len(),
        |i: int|
            Field::Bytes {
                number: 5,
                bytes: wire::message_bytes(function_message(i, frames[i], strings, resolved)),
            },
    )
}

pub open spec fn string_records(strings: Seq<Seq<char>>) -> Seq<Field> {
    Seq::new(
        strings.len(),
        |i: int| Field::Bytes { number: 6, bytes: vstd::utf8::encode_utf8(strings[i]) },
    )
}

/// Whether and with which value a profile states its sampling period.
#[derive(Clone, Copy, Debug, PartialEq, Eq, Structural)]
pub enum Period {
    /// Nothing is said of a period.
    Absent,
    /// The period's type is stated, and its value where it is known.
    Stated(Option<usize>),
}

/// The texts that every profile of a kind needs, in the order in which they
/// enter the string table after the empty text.
pub open spec fn header_strings(objects: Seq<char>, space: Seq<char>, period: Period) -> Seq<Seq<char>> {
    let common = seq![objects, "count"@, space, "bytes"@];
    match period {
        Period::Absent => common,
        Period::Stated(_) => common.push("space"@),
    }
}

/// The string table of a profile.
pub open spec fn string_list(
    objects: Seq<char>,
    space: Seq<char>,
    period: Period,
    frames: Seq<usize>,
    resolved: Map<usize, FrameView>,
) -> Seq<Seq<char>> {
    intern::intern_all(
        seq![Seq::<char>::empty()],
        header_strings(objects, space, period) + frame_strings(frames, resolved),
    )
}

pub open spec fn period_fields(strings: Seq<Seq<char>>, period: Period) -> Seq<Field> {
    match period {
        Period::Absent => Seq::empty(),
        Period::Stated(value) => {
            let kind = seq![
                Field::Bytes {
                    number: 11,
                    bytes: wire::message_bytes(value_type(strings, "space"@, "bytes"@)),
                },
            ];
            match value {
                Some(n) => kind.push(Field::Varint { number: 12, value: n as nat }),
                None => kind,
            }
        },
    }
}

/// The fields of a profile: two value types, the samples, the locations, the
/// functions, the string table, the period and the preferred value type.
pub open spec fn document(
    objects: Seq<char>,
    space: Seq<char>,
    period: Period,
    stacks: Seq<Seq<usize>>,
    values: Seq<Seq<u64>>,
    bias: Option<usize>,
    resolved: Map<usize, FrameView>,
) -> Seq<Field> {
    let frames = frame_list(stacks);
    let strings = string_list(objects, space, period, frames, resolved);
    seq![
        Field::Bytes {
            number: 1,
            bytes: wire::message_bytes(value_type(strings, objects, "count"@)),
        },
        Field::Bytes { number: 1, bytes: wire::message_bytes(value_type(strings, space, "bytes"@)) },
    ] + sample_records(stacks, values, frames) + location_records(frames, bias, resolved)
        + function_records(frames, strings, resolved) + string_records(strings) + period_fields(
        strings,
        period,
    ) + seq![Field::Varint { number: 14, value: slot(strings, space) }]
}

/// Correct a code address for where the program was loaded.
pub fn corrected_address(address: usize, bias: Option<usize>) -> (corrected: u64)
    ensures
        corrected == unbiased(address, bias),
{
    match bias {
        Some(b) => address.saturating_sub(b) as u64,
        None => address as u64,
    }
}

/// An address as text.
pub fn hex_addr(address: usize) -> (s: Vec<char>)
    ensures
        s@ == text::hex_address(address as nat),
{
    let mut s: Vec<char> = Vec::new();
    push_hex_address(&mut s, address as u64);
    assert(s@ =~= text::hex_address(address as nat));
    s
}

fn next_id(place: usize) -> (id: u64)
    ensures
        id == id_at(place as int),
{
    ((place as u128 + 1) % 0x1_0000_0000_0000_0000) as u64
}

/// Number the frames: the distinct frames in order, and each frame's number.
#[verifier::rlimit(40)]
fn index_frames(stacks: &Vec<Vec<usize>>) -> (indexed: (Vec<usize>, HashMap<usize, u64>))
    ensures
        indexed.0@ == frame_list(stack_views(stacks@)),
        forall|f: usize|
            #![trigger indexed.1@.contains_key(f)]
            indexed.1@.contains_key(f) <==> indexed.0@.contains(f),
        forall|f: usize|
            #![trigger indexed.1@[f]]
            indexed.0@.contains(f) ==> indexed.1@[f] == id_at(indexed.0@.index_of(f)),
{
    let ghost views = stack_views(stacks@);
    let mut frames: Vec<usize> = Vec::new();
    let mut ids: HashMap<usize, u64> = HashMap::new();
    let mut i: usize = 0;
    while i < stacks.len()
        invariant
            i <= stacks.len(),
            views == stack_views(stacks@),
            frames@ == frame_list(views.take(i as int)),
            numbered(frames@, ids@),
        decreases stacks.len() - i,
    {
        let stack = &stacks[i];
        let ghost earlier = all_frames(views.take(i as int));
        let mut j: usize = 0;
        assert(earlier + stack@.take(0) =~= earlier);
        while j < stack.len()
            invariant
                j <= stack.len(),
                frames@ == intern::dedup(earlier + stack@.take(j as int)),
                numbered(frames@, ids@),
            decreases stack.len() - j,
        {
            let frame: usize = stack[j];
            let ghost had = frames@;
            proof {
                assert(earlier + stack@.take(j + 1) =~= (earlier + stack@.take(j as int)).push(frame));
                intern::intern_all_push(Seq::empty(), earlier + stack@.take(j as int), frame);
                intern::interned_distinct(had, frame);
            }
            if !ids.contains_key(&frame) {
                ids.insert(frame, next_id(frames.len()));
                frames.push(frame);
                proof {
                    assert(frames@ == intern::interned(had, frame));
                    intern::index_is_unique(frames@, had.len() as int);
                    assert forall|f: usize|
                        #![trigger ids@.contains_key(f)]
                        ids@.contains_key(f) <==> frames@.contains(f) by {
                        intern::interned_members(had, frame, f);
                    }
                    assert forall|f: usize| #![trigger ids@[f]] frames@.contains(f) implies ids@[f]
                        == id_at(frames@.index_of(f)) by {
                        intern::interned_members(had, frame, f);
                        if f != frame {
                            intern::index_is_stable(had, frames@, f);
                        }
                    }
                }
            }
            j = j + 1;
        }
        proof {
            assert(stack@.take(stack@.len() as int) =~= stack@);
            assert(views.take(i + 1).drop_last() =~= views.take(i as int));
            assert(views.take(i + 1).last() == stack@);
        }
        i = i + 1;
    }
    assert(views.take(views.len() as int) =~= views);
    (frames, ids)
}

spec fn numbered(frames: Seq<usize>, ids: Map<usize, u64>) -> bool {
    &&& order::distinct(frames)
    &&& forall|f: usize| #![trigger ids.contains_key(f)] ids.contains_key(f) <==> frames.contains(f)
    &&& forall|f: usize| #![trigger ids[f]] frames.contains(f) ==> ids[f] == id_at(frames.index_of(f))
}

proof fn frames_of_stack_are_listed(stacks: Seq<Seq<usize>>, i: int, j: int)
    requires
        0 <= i < stacks.len(),
        0 <= j < stacks[i].len(),
    ensures
        frame_list(stacks).contains(stacks[i][j]),
{
    all_frames_contains(stacks, i, j);
    intern::intern_all_members(Seq::empty(), all_frames(stacks), stacks[i][j]);
}

proof fn all_frames_contains(stacks: Seq<Seq<usize>>, i: int, j: int)
    requires
        0 <= i < stacks.len(),
        0 <= j < stacks[i].len(),
    ensures
        all_frames(stacks).contains(stacks[i][j]),
    decreases stacks.len(),
{
    let whole = all_frames(stacks);
    let head = all_frames(stacks.drop_last());
    if i == stacks.len() - 1 {
        assert(whole[head.len() + j] == stacks[i][j]);
    } else {
        all_frames_contains(stacks.drop_last(), i, j);
        let k = choose|k: int| 0 <= k < head.len() && head[k] == stacks[i][j];
        assert(whole[k] == stacks[i][j]);
    }
}

fn encode_sample(locations: &Vec<u64>, values: &Vec<u64>) -> (message: Vec<u8>)
    ensures
        message@ == wire::message_bytes(
            seq![
                Field::Bytes { number: 1, bytes: wire::varints_bytes(locations@) },
                Field::Bytes { number: 2, bytes: wire::varints_bytes(values@) },
            ],
        ),
{
    let mut message: Vec<u8> = Vec::new();
    write_packed_uint64(&mut message, 1, locations);
    write_packed_uint64(&mut message, 2, values);
    proof {
        let a = Field::Bytes { number: 1, bytes: wire::varints_bytes(locations@) };
        let b = Field::Bytes { number: 2, bytes: wire::varints_bytes(values@) };
        wire::message_bytes_push(Seq::empty(), a);
        wire::message_bytes_push(Seq::empty().push(a), b);
        assert(seq![a, b] =~= Seq::empty().push(a).push(b));
        assert(message@ =~= wire::message_bytes(seq![a, b]));
    }
    message
}

#[verifier::rlimit(40)]
fn write_samples(
    out: &mut Vec<u8>,
    stacks: &Vec<Vec<usize>>,
    values: &Vec<Vec<u64>>,
    frames: &Vec<usize>,
    ids: &HashMap<usize, u64>,
)
    requires
        stacks.len() == values.len(),
        frames@ == frame_list(stack_views(stacks@)),
        numbered(frames@, ids@),
    ensures
        final(out)@ == old(out)@ + wire::message_bytes(
            sample_records(stack_views(stacks@), value_views(values@), frames@),
        ),
{
    let ghost views = stack_views(stacks@);
    let ghost records = sample_records(views, value_views(values@), frames@);
    let ghost start = out@;
    assert(start + wire::message_bytes(records.take(0)) =~= start) by {
        assert(records.take(0) =~= Seq::empty());
    }
    for i in 0..stacks.len()
        invariant
            stacks.len() == values.len(),
            views == stack_views(stacks@),
            frames@ == frame_list(views),
            numbered(frames@, ids@),
            records == sample_records(views, value_views(values@), frames@),
            out@ == start + wire::message_bytes(records.take(i as int)),
    {
        let stack = &stacks[i];
        let mut locations: Vec<u64> = Vec::new();
        for j in 0..stack.len()
            invariant
                i < stacks.len(),
                stack == stacks[i as int],
                views == stack_views(stacks@),
                frames@ == frame_list(views),
                numbered(frames@, ids@),
                locations@ == location_ids(stack@, frames@).take(j as int),
        {
            let frame: usize = stack[j];
            proof {
                assert(views[i as int] == stack@);
                frames_of_stack_are_listed(views, i as int, j as int);
                assert(ids@.contains_key(frame));
            }
            let id: u64 = match ids.get(&frame) {
                Some(id) => *id,
                None => 0,
            };
            locations.push(id);
            assert(location_ids(stack@, frames@).take(j + 1) =~= location_ids(
                stack@,
                frames@,
            ).take(j as int).push(id));
        }
        assert(location_ids(stack@, frames@).take(stack@.len() as int) =~= location_ids(
            stack@,
            frames@,
        ));
        let sample = encode_sample(&locations, &values[i]);
        assert(sample@ == wire::message_bytes(sample_message(stack@, values@[i as int]@, frames@)));
        write_bytes(out, 2, sample.as_slice());
        proof {
            assert(records[i as int] == Field::Bytes { number: 2, bytes: sample@ });
            assert(records.take(i + 1) =~= records.take(i as int).push(records[i as int]));
            wire::message_bytes_push(records.take(i as int), records[i as int]);
            assert(out@ =~= start + wire::message_bytes(records.take(i + 1)));
        }
    }
    assert(records.take(records.len() as int) =~= records);
}

fn line_of(frame: usize, resolved: &HashMap<usize, ResolvedFrame>) -> (line: u64)
    ensures
        line == frame_line(frame, symbols::frame_views(resolved@)),
{
    match resolved.get(&frame) {
        Some(known) => match known.line {
            Some(line) => line as u64,
            None => 0,
        },
        None => 0,
    }
}

fn name_of(frame: usize, resolved: &HashMap<usize, ResolvedFrame>) -> (name: Vec<char>)
    ensures
        name@ == frame_name(frame, symbols::frame_views(resolved@)),
{
    if let Some(known) = resolved.get(&frame) {
        if let Some(name) = &known.name {
            return chars_of(name.as_str());
        }
    }
    hex_addr(frame)
}

fn file_of(frame: usize, resolved: &HashMap<usize, ResolvedFrame>) -> (file: Vec<char>)
    ensures
        file@ == frame_file(frame, symbols::frame_views(resolved@)),
{
    if let Some(known) = resolved.get(&frame) {
        if let Some(file) = &known.file {
            return chars_of(file.as_str());
        }
    }
    Vec::new()
}

fn encode_line(id: u64, line: u64) -> (message: Vec<u8>)
    ensures
        message@ == wire::message_bytes(
            seq![
                Field::Varint { number: 1, value: id as nat },
                Field::Varint { number: 2, value: line as nat },
            ],
        ),
{
    let mut message: Vec<u8> = Vec::new();
    write_uint64(&mut message, 1, id);
    write_uint64(&mut message, 2, line);
    proof {
        let a = Field::Varint { number: 1, value: id as nat };
        let b = Field::Varint { number: 2, value: line as nat };
        wire::message_bytes_push(Seq::empty(), a);
        wire::message_bytes_push(Seq::empty().push(a), b);
        assert(seq![a, b] =~= Seq::empty().push(a).push(b));
        assert(message@ =~= wire::message_bytes(seq![a, b]));
    }
    message
}

fn encode_location(id: u64, address: u64, line: u64) -> (message: Vec<u8>)
    ensures
        message@ == wire::message_bytes(
            seq![
                Field::Varint { number: 1, value: id as nat },
                Field::Varint { number: 2, value: 0 },
                Field::Varint { number: 3, value: address as nat },
                Field::Bytes {
                    number: 4,
                    bytes: wire::message_bytes(
                        seq![
                            Field::Varint { number: 1, value: id as nat },
                            Field::Varint { number: 2, value: line as nat },
                        ],
                    ),
                },
            ],
        ),
{
    let inner = encode_line(id, line);
    let mut message: Vec<u8> = Vec::new();
    write_uint64(&mut message, 1, id);
    write_uint64(&mut message, 2, 0);
    write_uint64(&mut message, 3, address);
    write_bytes(&mut message, 4, inner.as_slice());
    proof {
        let a = Field::Varint { number: 1, value: id as nat };
        let b = Field::Varint { number: 2, value: 0 };
        let c = Field::Varint { number: 3, value: address as nat };
        let d = Field::Bytes { number: 4, bytes: inner@ };
        let none = Seq::<Field>::empty();
        wire::message_bytes_push(none, a);
        wire::message_bytes_push(none.push(a), b);
        wire::message_bytes_push(none.push(a).push(b), c);
        wire::message_bytes_push(none.push(a).push(b).push(c), d);
        assert(seq![a, b, c, d] =~= none.push(a).push(b).push(c).push(d));
        assert(message@ =~= wire::message_bytes(seq![a, b, c, d]));
    }
    message
}

#[verifier::rlimit(40)]
fn write_locations(
    out: &mut Vec<u8>,
    frames: &Vec<usize>,
    bias: Option<usize>,
    resolved: &HashMap<usize, ResolvedFrame>,
)
    ensures
        final(out)@ == old(out)@ + wire::message_bytes(
            location_records(frames@, bias, symbols::frame_views(resolved@)),
        ),
{
    let ghost known = symbols::frame_views(resolved@);
    let ghost records = location_records(frames@, bias, known);
    let ghost start = out@;
    assert(start + wire::message_bytes(records.take(0)) =~= start) by {
        assert(records.take(0) =~= Seq::empty());
    }
    for i in 0..frames.len()
        invariant
            known == symbols::frame_views(resolved@),
            records == location_records(frames@, bias, known),
            out@ == start + wire::message_bytes(records.take(i as int)),
    {
        let frame: usize = frames[i];
        let id: u64 = next_id(i);
        let location = encode_location(id, corrected_address(frame, bias), line_of(frame, resolved));
        assert(location@ == wire::message_bytes(location_message(i as int, frame, bias, known)));
        write_bytes(out, 4, location.as_slice());
        proof {
            assert(records[i as int] == Field::Bytes { number: 4, bytes: location@ });
            assert(records.take(i + 1) =~= records.take(i as int).push(records[i as int]));
            wire::message_bytes_push(records.take(i as int), records[i as int]);
            assert(out@ =~= start + wire::message_bytes(records.take(i + 1)));
        }
    }
    assert(records.take(records.len() as int) =~= records);
}

proof fn frame_strings_add(a: Seq<usize>, b: Seq<usize>, resolved: Map<usize, FrameView>)
    ensures
        frame_strings(a + b, resolved) == frame_strings(a, resolved) + frame_strings(b, resolved),
    decreases b.len(),
{
    if b.len() == 0 {
        assert(a + b =~= a);
        assert(frame_strings(a, resolved) + frame_strings(b, resolved) =~= frame_strings(a, resolved));
    } else {
        assert((a + b).drop_last() =~= a + b.drop_last());
        frame_strings_add(a, b.drop_last(), resolved);
        assert(frame_strings(a + b, resolved) =~= frame_strings(a, resolved) + frame_strings(
            b,
            resolved,
        ));
    }
}

/// The number given to a text while the table grows is its number in the
/// finished table.
proof fn slot_is_final(table: Seq<Seq<char>>, more: Seq<Seq<char>>, s: Seq<char>)
    requires
        order::distinct(table),
        table.contains(s),
    ensures
        slot(intern::intern_all(table, more), s) == slot(table, s),
{
    intern::intern_all_distinct(table, more);
    intern::intern_all_keeps_places(table, more);
    intern::index_is_stable(table, intern::intern_all(table, more), s);
}

/// The numbers that the `i`-th frame's texts get are their numbers in the
/// finished table.
#[verifier::rlimit(40)]
proof fn function_slots(
    first: Seq<Seq<char>>,
    frames: Seq<usize>,
    i: int,
    resolved: Map<usize, FrameView>,
)
    requires
        order::distinct(first),
        0 <= i < frames.len(),
    ensures
        ({
            let whole = intern::intern_all(first, frame_strings(frames, resolved));
            let had = intern::intern_all(first, frame_strings(frames.take(i), resolved));
            let name = frame_name(frames[i], resolved);
            let file = frame_file(frames[i], resolved);
            let named = intern::interned(had, name);
            let now = intern::interned(named, file);
            &&& now == intern::intern_all(first, frame_strings(frames.take(i + 1), resolved))
            &&& slot(named, name) == slot(whole, name)
            &&& slot(now, file) == slot(whole, file)
        }),
{
    let name = frame_name(frames[i], resolved);
    let file = frame_file(frames[i], resolved);
    let upto = frames.take(i + 1);
    let rest = frame_strings(frames.skip(i + 1), resolved);
    let texts = frame_strings(frames.take(i), resolved);
    let had = intern::intern_all(first, texts);
    let named = intern::interned(had, name);
    let now = intern::interned(named, file);
    assert(upto.drop_last() =~= frames.take(i));
    intern::intern_all_push(first, texts, name);
    intern::intern_all_push(first, texts.push(name), file);
    intern::intern_all_distinct(first, texts.push(name));
    intern::intern_all_distinct(first, texts.push(name).push(file));
    intern::interned_members(had, name, name);
    intern::interned_members(named, file, file);
    assert(frames =~= upto + frames.skip(i + 1));
    frame_strings_add(upto, frames.skip(i + 1), resolved);
    intern::intern_all_add(first, texts.push(name), seq![file] + rest);
    assert(texts.push(name).push(file) + rest =~= texts.push(name) + (seq![file] + rest));
    intern::intern_all_add(first, texts.push(name).push(file), rest);
    slot_is_final(now, rest, file);
    slot_is_final(named, seq![file] + rest, name);
}

fn encode_function(id: u64, name: u32, file: u32) -> (function: Vec<u8>)
    ensures
        function@ == wire::message_bytes(
            seq![
                Field::Varint { number: 1, value: id as nat },
                Field::Varint { number: 2, value: name as nat },
                Field::Varint { number: 3, value: name as nat },
                Field::Varint { number: 4, value: file as nat },
                Field::Varint { number: 5, value: 0 },
            ],
        ),
{
    let mut function: Vec<u8> = Vec::new();
    write_uint64(&mut function, 1, id);
    write_uint64(&mut function, 2, name as u64);
    write_uint64(&mut function, 3, name as u64);
    write_uint64(&mut function, 4, file as u64);
    write_uint64(&mut function, 5, 0);
    proof {
        let a = Field::Varint { number: 1, value: id as nat };
        let b = Field::Varint { number: 2, value: name as nat };
        let c = Field::Varint { number: 3, value: name as nat };
        let d = Field::Varint { number: 4, value: file as nat };
        let e = Field::Varint { number: 5, value: 0 };
        let none = Seq::<Field>::empty();
        wire::message_bytes_push(none, a);
        wire::message_bytes_push(none.push(a), b);
        wire::message_bytes_push(none.push(a).push(b), c);
        wire::message_bytes_push(none.push(a).push(b).push(c), d);
        wire::message_bytes_push(none.push(a).push(b).push(c).push(d), e);
        assert(seq![a, b, c, d, e] =~= none.push(a).push(b).push(c).push(d).push(e));
        assert(function@ =~= wire::message_bytes(seq![a, b, c, d, e]));
    }
    function
}

#[verifier::rlimit(40)]
fn write_functions(
    out: &mut Vec<u8>,
    frames: &Vec<usize>,
    strings: &mut StringTable,
    resolved: &HashMap<usize, ResolvedFrame>,
)
    requires
        old(strings).wf(),
        order::distinct(old(strings)@),
    ensures
        final(strings).wf(),
        final(strings)@ == intern::intern_all(
            old(strings)@,
            frame_strings(frames@, symbols::frame_views(resolved@)),
        ),
        final(out)@ == old(out)@ + wire::message_bytes(
            function_records(frames@, final(strings)@, symbols::frame_views(resolved@)),
        ),
{
    let ghost known = symbols::frame_views(resolved@);
    let ghost first = strings@;
    let ghost whole = intern::intern_all(first, frame_strings(frames@, known));
    let ghost records = function_records(frames@, whole, known);
    let ghost start = out@;
    assert(start + wire::message_bytes(records.take(0)) =~= start) by {
        assert(records.take(0) =~= Seq::empty());
    }
    assert(frames@.take(0) =~= Seq::empty());
    for i in 0..frames.len()
        invariant
            known == symbols::frame_views(resolved@),
            order::distinct(first),
            whole == intern::intern_all(first, frame_strings(frames@, known)),
            records == function_records(frames@, whole, known),
            strings.wf(),
            strings@ == intern::intern_all(first, frame_strings(frames@.take(i as int), known)),
            out@ == start + wire::message_bytes(records.take(i as int)),
    {
        let frame: usize = frames[i];
        let name: u32 = strings.intern_chars(name_of(frame, resolved));
        let file: u32 = strings.intern_chars(file_of(frame, resolved));
        proof {
            function_slots(first, frames@, i as int, known);
        }
        let function = encode_function(next_id(i), name, file);
        assert(function@ == wire::message_bytes(function_message(i as int, frame, whole, known)));
        write_bytes(out, 5, function.as_slice());
        proof {
            assert(records[i as int] == Field::Bytes { number: 5, bytes: function@ });
            assert(records.take(i + 1) =~= records.take(i as int).push(records[i as int]));
            wire::message_bytes_push(records.take(i as int), records[i as int]);
            assert(out@ =~= start + wire::message_bytes(records.take(i + 1)));
        }
    }
    assert(records.take(records.len() as int) =~= records);
    assert(frames@.take(frames@.len() as int) =~= frames@);
}

fn write_strings(out: &mut Vec<u8>, strings: &Vec<Vec<char>>)
    ensures
        final(out)@ == old(out)@ + wire::message_bytes(string_records(order::models(strings@))),
{
    let ghost texts = order::models(strings@);
    let ghost records = string_records(texts);
    let ghost start = out@;
    assert(start + wire::message_bytes(records.take(0)) =~= start) by {
        assert(records.take(0) =~= Seq::empty());
    }
    for i in 0..strings.len()
        invariant
            texts == order::models(strings@),
            records == string_records(texts),
            out@ == start + wire::message_bytes(records.take(i as int)),
    {
        let s = text_of(&strings[i]);
        write_bytes(out, 6, s.as_str().as_bytes());
        proof {
            assert(texts[i as int] == strings@[i as int]@);
            assert(records.take(i + 1) =~= records.take(i as int).push(records[i as int]));
            wire::message_bytes_push(records.take(i as int), records[i as int]);
            assert(out@ =~= start + wire::message_bytes(records.take(i + 1)));
        }
    }
    assert(records.take(records.len() as int) =~= records);
}

fn encode_value_type(name: u32, unit: u32) -> (message: Vec<u8>)
    ensures
        message@ == wire::message_bytes(
            seq![
                Field::Varint { number: 1, value: name as nat },
                Field::Varint { number: 2, value: unit as nat },
            ],
        ),
{
    let mut message: Vec<u8> = Vec::new();
    write_uint64(&mut message, 1, name as u64);
    write_uint64(&mut message, 2, unit as u64);
    proof {
        let a = Field::Varint { number: 1, value: name as nat };
        let b = Field::Varint { number: 2, value: unit as nat };
        wire::message_bytes_push(Seq::empty(), a);
        wire::message_bytes_push(Seq::empty().push(a), b);
        assert(seq![a, b] =~= Seq::empty().push(a).push(b));
        assert(message@ =~= wire::message_bytes(seq![a, b]));
    }
    message
}

/// The number that a text of the header gets is its number in the finished
/// table.
proof fn header_slot(
    first: Seq<Seq<char>>,
    header: Seq<Seq<char>>,
    more: Seq<Seq<char>>,
    j: int,
)
    requires
        order::distinct(first),
        0 <= j < header.len(),
    ensures
        ({
            let had = intern::intern_all(first, header.take(j));
            let now = intern::intern_all(first, header.take(j + 1));
            &&& now == intern::interned(had, header[j])
            &&& slot(now, header[j]) == slot(intern::intern_all(first, header + more), header[j])
        }),
{
    let had = intern::intern_all(first, header.take(j));
    let now = intern::intern_all(first, header.take(j + 1));
    assert(header.take(j + 1) =~= header.take(j).push(header[j]));
    intern::intern_all_push(first, header.take(j), header[j]);
    intern::interned_members(had, header[j], header[j]);
    intern::intern_all_distinct(first, header.take(j + 1));
    assert(header + more =~= header.take(j + 1) + (header.skip(j + 1) + more));
    intern::intern_all_add(first, header.take(j + 1), header.skip(j + 1) + more);
    slot_is_final(now, header.skip(j + 1) + more, header[j]);
}

struct HeaderSlots {
    objects: u32,
    count: u32,
    space: u32,
    bytes: u32,
    period: u32,
}

/// Enter the texts that every profile of a kind needs into a new table.
fn intern_header(objects: &str, space: &str, period: Period) -> (header: (StringTable, HeaderSlots))
    ensures
        header.0.wf(),
        header.0@ == intern::intern_all(
            seq![Seq::<char>::empty()],
            header_strings(objects@, space@, period),
        ),
        forall|more: Seq<Seq<char>>|
            ({
                let strings = #[trigger] intern::intern_all(
                    seq![Seq::<char>::empty()],
                    header_strings(objects@, space@, period) + more,
                );
                &&& header.1.objects == slot(strings, objects@)
                &&& header.1.count == slot(strings, "count"@)
                &&& header.1.space == slot(strings, space@)
                &&& header.1.bytes == slot(strings, "bytes"@)
                &&& period != Period::Absent ==> header.1.period == slot(strings, "space"@)
            }),
{
    let mut strings = StringTable::new();
    let ghost first = strings@;
    let ghost texts = header_strings(objects@, space@, period);
    assert(texts.take(0) =~= Seq::empty());
    proof {
        header_slot(first, texts, Seq::empty(), 0);
        header_slot(first, texts, Seq::empty(), 1);
        header_slot(first, texts, Seq::empty(), 2);
        header_slot(first, texts, Seq::empty(), 3);
    }
    let o: u32 = strings.intern(objects);
    let c: u32 = strings.intern("count");
    let s: u32 = strings.intern(space);
    let b: u32 = strings.intern("bytes");
    assert(strings@ == intern::intern_all(first, texts.take(4)));
    let p: u32 = match period {
        Period::Absent => 0,
        Period::Stated(_) => {
            proof {
                header_slot(first, texts, Seq::empty(), 4);
            }
            strings.intern("space")
        },
    };
    assert(texts.take(texts.len() as int) =~= texts);
    assert forall|more: Seq<Seq<char>>|
        ({
            let strings = #[trigger] intern::intern_all(first, texts + more);
            &&& o == slot(strings, objects@)
            &&& c == slot(strings, "count"@)
            &&& s == slot(strings, space@)
            &&& b == slot(strings, "bytes"@)
            &&& period != Period::Absent ==> p == slot(strings, "space"@)
        }) by {
        header_slot(first, texts, more, 0);
        header_slot(first, texts, more, 1);
        header_slot(first, texts, more, 2);
        header_slot(first, texts, more, 3);
        if period != Period::Absent {
            header_slot(first, texts, more, 4);
        }
    }
    (strings, HeaderSlots { objects: o, count: c, space: s, bytes: b, period: p })
}

fn write_period(out: &mut Vec<u8>, period: Period, kind: u32, unit: u32)
    ensures
        final(out)@ == old(out)@ + wire::message_bytes(
            match period {
                Period::Absent => Seq::empty(),
                Period::Stated(value) => {
                    let stated = seq![
                        Field::Bytes {
                            number: 11,
                            bytes: wire::message_bytes(
                                seq![
                                    Field::Varint { number: 1, value: kind as nat },
                                    Field::Varint { number: 2, value: unit as nat },
                                ],
                            ),
                        },
                    ];
                    match value {
                        Some(n) => stated.push(Field::Varint { number: 12, value: n as nat }),
                        None => stated,
                    }
                },
            },
        ),
{
    let ghost start = out@;
    if let Period::Stated(value) = period {
        let message = encode_value_type(kind, unit);
        write_bytes(out, 11, message.as_slice());
        let ghost stated = seq![Field::Bytes { number: 11, bytes: message@ }];
        proof {
            wire::message_bytes_push(Seq::empty(), stated[0]);
            assert(Seq::empty().push(stated[0]) =~= stated);
            assert(out@ =~= start + wire::message_bytes(stated));
        }
        if let Some(n) = value {
            write_uint64(out, 12, n as u64);
            proof {
                let field = Field::Varint { number: 12, value: n as nat };
                wire::message_bytes_push(stated, field);
                assert(out@ =~= start + wire::message_bytes(stated.push(field)));
            }
        }
    } else {
        assert(out@ =~= start + wire::message_bytes(Seq::empty()));
    }
}

/// Encode a profile from its stacks and their values.
#[verifier::rlimit(40)]
pub fn encode_document(
    objects: &str,
    space: &str,
    period: Period,
    stacks: &Vec<Vec<usize>>,
    values: &Vec<Vec<u64>>,
    bias: Option<usize>,
    resolved: &HashMap<usize, ResolvedFrame>,
) -> (out: Vec<u8>)
    requires
        stacks.len() == values.len(),
    ensures
        out@ == wire::message_bytes(
            document(
                objects@,
                space@,
                period,
                stack_views(stacks@),
                value_views(values@),
                bias,
                symbols::frame_views(resolved@),
            ),
        ),
{
    let ghost known = symbols::frame_views(resolved@);
    let ghost header = header_strings(objects@, space@, period);
    let (strings, slots) = intern_header(objects, space, period);
    let mut strings = strings;
    let (frames, ids) = index_frames(stacks);
    let ghost whole = string_list(objects@, space@, period, frames@, known);
    proof {
        intern::intern_all_distinct(Seq::empty(), all_frames(stack_views(stacks@)));
        intern::intern_all_distinct(seq![Seq::<char>::empty()], header);
        intern::intern_all_add(seq![Seq::<char>::empty()], header, frame_strings(frames@, known));
    }
    let mut functions: Vec<u8> = Vec::new();
    write_functions(&mut functions, &frames, &mut strings, resolved);
    assert(strings@ == whole);

    let mut out: Vec<u8> = Vec::new();
    let objects_type = encode_value_type(slots.objects, slots.count);
    write_bytes(&mut out, 1, objects_type.as_slice());
    let space_type = encode_value_type(slots.space, slots.bytes);
    write_bytes(&mut out, 1, space_type.as_slice());
    let ghost axes = seq![
        Field::Bytes {
            number: 1,
            bytes: wire::message_bytes(value_type(whole, objects@, "count"@)),
        },
        Field::Bytes { number: 1, bytes: wire::message_bytes(value_type(whole, space@, "bytes"@)) },
    ];
    proof {
        wire::message_bytes_push(Seq::empty(), axes[0]);
        wire::message_bytes_push(Seq::empty().push(axes[0]), axes[1]);
        assert(Seq::empty().push(axes[0]).push(axes[1]) =~= axes);
        assert(out@ =~= wire::message_bytes(axes));
    }
    write_samples(&mut out, stacks, values, &frames, &ids);
    write_locations(&mut out, &frames, bias, resolved);
    let mut functions = functions;
    out.append(&mut functions);
    let texts = strings.into_strings();
    write_strings(&mut out, &texts);
    write_period(&mut out, period, slots.period, slots.bytes);
    write_uint64(&mut out, 14, slots.space as u64);
    proof {
        let stack_seqs = stack_views(stacks@);
        let a = sample_records(stack_seqs, value_views(values@), frames@);
        let b = location_records(frames@, bias, known);
        let c = function_records(frames@, whole, known);
        let d = string_records(whole);
        let e = period_fields(whole, period);
        let last = Field::Varint { number: 14, value: slot(whole, space@) };
        wire::message_bytes_add(axes, a);
        wire::message_bytes_add(axes + a, b);
        wire::message_bytes_add(axes + a + b, c);
        wire::message_bytes_add(axes + a + b + c, d);
        wire::message_bytes_add(axes + a + b + c + d, e);
        wire::message_bytes_push(axes + a + b + c + d + e, last);
        assert((axes + a + b + c + d + e).push(last) =~= axes + a + b + c + d + e + seq![last]);
    }
    out
}

/// The low 64 bits of a number.
pub open spec fn low_word(n: nat) -> u64 {
    (n % 0x1_0000_0000_0000_0000) as u64
}

/// The stacks of samples.
pub open spec fn stacks_of(samples: Seq<SampleView>) -> Seq<Seq<usize>> {
    Seq::new(samples.len(), |i: int| samples[i].stack)
}

/// What a sample counts for on the allocation axes: one object, and its
/// bytes.
pub open spec fn alloc_values(samples: Seq<SampleView>, weight: Weight) -> Seq<Seq<u64>> {
    Seq::new(
        samples.len(),
        |i: int| seq![1u64, low_word(profile::sample_bytes(samples[i], weight))],
    )
}

/// A profile with the axes `alloc_objects` and `alloc_space`.
pub open spec fn alloc_document(
    samples: Seq<SampleView>,
    weight: Weight,
    bias: Option<usize>,
    resolved: Map<usize, FrameView>,
) -> Seq<Field> {
    document(
        "alloc_objects"@,
        "alloc_space"@,
        Period::Absent,
        stacks_of(samples),
        alloc_values(samples, weight),
        bias,
        resolved,
    )
}

/// A function name that the allocator's own entry points carry.
pub open spec fn is_entry_name(name: Seq<char>) -> bool {
    ||| text::starts_with(name, "snmalloc::"@)
    ||| text::starts_with(name, "snmalloc_rs::"@)
    ||| text::starts_with(name, "snmalloc_sys::"@)
    ||| text::starts_with(name, "sn_rust_"@)
}

/// The frame has a known name, and the allocator's own entry points carry it.
pub open spec fn is_entry_frame(frame: usize, resolved: Map<usize, FrameView>) -> bool {
    match hotspot::name_at(frame, resolved) {
        Some(name) => is_entry_name(name),
        None => false,
    }
}

/// A stack without the allocator's own frames at its inner end, so that it
/// starts where the application allocates.
pub open spec fn app_stack(stack: Seq<usize>, resolved: Map<usize, FrameView>) -> Seq<usize>
    decreases stack.len(),
{
    if stack.len() > 0 && is_entry_frame(stack[0], resolved) {
        app_stack(stack.skip(1), resolved)
    } else {
        stack
    }
}

pub open spec fn app_stacks(samples: Seq<SampleView>, resolved: Map<usize, FrameView>) -> Seq<Seq<usize>> {
    Seq::new(samples.len(), |i: int| app_stack(samples[i].stack, resolved))
}

/// Live objects that a sample stands for.
pub open spec fn inuse_objects(s: SampleView) -> nat {
    s.weight as nat / (s.requested_size as nat + 1)
}

/// Live allocated bytes that a sample stands for.
pub open spec fn inuse_space(s: SampleView) -> nat {
    (s.weight as nat * s.allocated_size as nat) / (s.requested_size as nat + 1)
}

pub open spec fn inuse_values(samples: Seq<SampleView>) -> Seq<Seq<u64>> {
    Seq::new(
        samples.len(),
        |i: int| seq![low_word(inuse_objects(samples[i])), low_word(inuse_space(samples[i]))],
    )
}

/// A profile with the axes `inuse_objects` and `inuse_space`, and the
/// sampling period.
pub open spec fn inuse_document(
    profile: ProfileView,
    bias: Option<usize>,
    resolved: Map<usize, FrameView>,
) -> Seq<Field> {
    document(
        "inuse_objects"@,
        "inuse_space"@,
        Period::Stated(profile.period),
        app_stacks(profile.samples, resolved),
        inuse_values(profile.samples),
        bias,
        resolved,
    )
}

fn low_64(n: u128) -> (low: u64)
    ensures
        low == low_word(n as nat),
{
    (n % 0x1_0000_0000_0000_0000) as u64
}

/// Append the profile on the allocation axes, given what is known of its
/// code addresses.
///
/// The axis `alloc_objects` counts samples, and `alloc_space` the bytes of
/// the given kind. `alloc_space` is the preferred axis.
pub fn write_pprof_resolved(
    profile: &HeapProfile,
    weight: Weight,
    bias: Option<usize>,
    resolved: &HashMap<usize, ResolvedFrame>,
    out: &mut Vec<u8>,
)
    ensures
        final(out)@ == old(out)@ + wire::message_bytes(
            alloc_document(profile@.samples, weight, bias, symbols::frame_views(resolved@)),
        ),
{
    let samples = profile.samples();
    let ghost views = profile@.samples;
    let mut stacks: Vec<Vec<usize>> = Vec::new();
    let mut values: Vec<Vec<u64>> = Vec::new();
    for i in 0..samples.len()
        invariant
            views == profile::sample_views(samples@),
            stacks.len() == i,
            values.len() == i,
            forall|j: int| 0 <= j < i ==> (#[trigger] stacks[j])@ == views[j].stack,
            forall|j: int| 0 <= j < i ==> (#[trigger] values[j])@ == alloc_values(views, weight)[j],
    {
        let stack = samples[i].stack.clone();
        assert(stack@ =~= samples[i as int].stack@);
        stacks.push(stack);
        let mut row: Vec<u64> = Vec::new();
        row.push(1);
        row.push(low_64(sample_weight(&samples[i], weight)));
        assert(views[i as int] == samples[i as int]@);
        assert(row@ =~= alloc_values(views, weight)[i as int]);
        values.push(row);
    }
    assert(stack_views(stacks@) =~= stacks_of(views));
    assert(value_views(values@) =~= alloc_values(views, weight));
    let mut message = encode_document(
        "alloc_objects",
        "alloc_space",
        Period::Absent,
        &stacks,
        &values,
        bias,
        resolved,
    );
    out.append(&mut message);
}

/// Append the profile on the allocation axes, with code addresses for
/// function names.
pub fn write_pprof_with_bias(
    profile: &HeapProfile,
    weight: Weight,
    bias: Option<usize>,
    out: &mut Vec<u8>,
)
    ensures
        final(out)@ == old(out)@ + wire::message_bytes(
            alloc_document(profile@.samples, weight, bias, Map::empty()),
        ),
{
    let none: HashMap<usize, ResolvedFrame> = HashMap::new();
    assert(symbols::frame_views(none@) =~= Map::<usize, FrameView>::empty());
    write_pprof_resolved(profile, weight, bias, &none, out)
}

/// Append the profile on the allocation axes, with function names, files and
/// lines wherever the running program knows them.
pub fn write_pprof_symbolized(
    profile: &HeapProfile,
    weight: Weight,
    bias: Option<usize>,
    cache: &mut SymbolCache,
    out: &mut Vec<u8>,
)
    ensures
        symbols::extends(old(cache)@, final(cache)@, symbols::frames_of(profile@.samples)),
        exists|resolved: Map<usize, FrameView>|
            {
                &&& #[trigger] symbols::answers(
                    resolved,
                    symbols::frames_of(profile@.samples),
                    final(cache)@,
                )
                &&& final(out)@ == old(out)@ + wire::message_bytes(
                    alloc_document(profile@.samples, weight, bias, resolved),
                )
            },
{
    let resolved = profile.symbolize(cache);
    write_pprof_resolved(profile, weight, bias, &resolved, out)
}

fn entry_name(name: &str) -> (b: bool)
    ensures
        b == is_entry_name(name@),
{
    let s = chars_of(name);
    has_prefix(&s, "snmalloc::") || has_prefix(&s, "snmalloc_rs::") || has_prefix(
        &s,
        "snmalloc_sys::",
    ) || has_prefix(&s, "sn_rust_")
}

fn strip_entry_frames(stack: &Vec<usize>, resolved: &HashMap<usize, ResolvedFrame>) -> (kept: Vec<
    usize,
>)
    ensures
        kept@ == app_stack(stack@, symbols::frame_views(resolved@)),
{
    let ghost known = symbols::frame_views(resolved@);
    let mut start: usize = 0;
    let mut inside = true;
    assert(stack@.skip(0) =~= stack@);
    while inside && start < stack.len()
        invariant
            known == symbols::frame_views(resolved@),
            start <= stack.len(),
            app_stack(stack@, known) == app_stack(stack@.skip(start as int), known),
            !inside ==> start < stack.len() && !is_entry_frame(stack[start as int], known),
        decreases stack.len() - start + (if inside { 1int } else { 0int }),
    {
        let frame: usize = stack[start];
        inside = match resolved.get(&frame) {
            Some(known_frame) => match &known_frame.name {
                Some(name) => entry_name(name.as_str()),
                None => false,
            },
            None => false,
        };
        assert(inside == is_entry_frame(frame, known));
        if inside {
            assert(stack@.skip(start as int).skip(1) =~= stack@.skip(start + 1));
            start = start + 1;
        }
    }
    let mut kept: Vec<usize> = Vec::new();
    for i in start..stack.len()
        invariant
            start <= stack.len(),
            kept@ == stack@.subrange(start as int, i as int),
    {
        kept.push(stack[i]);
        assert(stack@.subrange(start as int, i + 1) =~= stack@.subrange(
            start as int,
            i as int,
        ).push(stack@[i as int]));
    }
    assert(kept@ =~= stack@.skip(start as int));
    kept
}

impl HeapProfile {
    /// Append the live heap as a pprof profile, given what is known of its
    /// code addresses.
    ///
    /// The axes are `inuse_objects` and `inuse_space`; the latter is the
    /// preferred one. `weight` makes no difference: space always counts
    /// allocated bytes.
    pub fn write_pprof_resolved(
        &self,
        out: &mut Vec<u8>,
        weight: Weight,
        bias: Option<usize>,
        resolved: &HashMap<usize, ResolvedFrame>,
    )
        ensures
            final(out)@ == old(out)@ + wire::message_bytes(
                inuse_document(self@, bias, symbols::frame_views(resolved@)),
            ),
    {
        let samples = self.samples();
        let ghost views = self@.samples;
        let ghost known = symbols::frame_views(resolved@);
        let mut stacks: Vec<Vec<usize>> = Vec::new();
        let mut values: Vec<Vec<u64>> = Vec::new();
        for i in 0..samples.len()
            invariant
                views == profile::sample_views(samples@),
                known == symbols::frame_views(resolved@),
                stacks.len() == i,
                values.len() == i,
                forall|j: int| 0 <= j < i ==> (#[trigger] stacks[j])@ == app_stack(views[j].stack, known),
                forall|j: int| 0 <= j < i ==> (#[trigger] values[j])@ == inuse_values(views)[j],
        {
            let s = &samples[i];
            stacks.push(strip_entry_frames(&s.stack, resolved));
            let mut row: Vec<u64> = Vec::new();
            let divisor: u128 = s.requested_size as u128 + 1;
            row.push(low_64(s.weight as u128 / divisor));
            proof {
                profile::word_product_fits(s.weight, s.allocated_size);
            }
            row.push(low_64(s.weight as u128 * s.allocated_size as u128 / divisor));
            assert(views[i as int] == samples[i as int]@);
            assert(row@ =~= inuse_values(views)[i as int]);
            values.push(row);
        }
        assert(stack_views(stacks@) =~= app_stacks(views, known));
        assert(value_views(values@) =~= inuse_values(views));
        let mut message = encode_document(
            "inuse_objects",
            "inuse_space",
            Period::Stated(self.sampling_period()),
            &stacks,
            &values,
            bias,
            resolved,
        );
        out.append(&mut message);
    }

    /// Append the live heap as a pprof profile, with code addresses for
    /// function names.
    pub fn write_pprof(&self, out: &mut Vec<u8>, weight: Weight, bias: Option<usize>)
        ensures
            final(out)@ == old(out)@ + wire::message_bytes(inuse_document(self@, bias, Map::empty())),
    {
        let none: HashMap<usize, ResolvedFrame> = HashMap::new();
        assert(symbols::frame_views(none@) =~= Map::<usize, FrameView>::empty());
        self.write_pprof_resolved(out, weight, bias, &none)
    }

    /// Append the live heap as a pprof profile, with function names, files
    /// and lines wherever the running program knows them.
    pub fn write_pprof_symbolized(
        &self,
        out: &mut Vec<u8>,
        weight: Weight,
        bias: Option<usize>,
        cache: &mut SymbolCache,
    )
        ensures
            symbols::extends(old(cache)@, final(cache)@, symbols::frames_of(self@.samples)),
            exists|resolved: Map<usize, FrameView>|
                {
                    &&& #[trigger] symbols::answers(
                        resolved,
                        symbols::frames_of(self@.samples),
                        final(cache)@,
                    )
                    &&& final(out)@ == old(out)@ + wire::message_bytes(
                        inuse_document(self@, bias, resolved),
                    )
                },
    {
        let resolved = self.symbolize(cache);
        self.write_pprof_resolved(out, weight, bias, &resolved)
    }
}

/// The sum over the samples of one column of values.
pub open spec fn axis_total(values: Seq<Seq<u64>>, axis: int) -> nat {
    table::weigh(values, |row: Seq<u64>| row[axis] as nat)
}

/// On the allocation axes the objects add up to the number of samples, and
/// the space to the bytes of all samples, where their total fits 64 bits.
pub proof fn alloc_axes_add_up(samples: Seq<SampleView>, weight: Weight)
    requires
        profile::total_bytes(samples, weight) <= u64::MAX,
    ensures
        axis_total(alloc_values(samples, weight), 0) == samples.len(),
        axis_total(alloc_values(samples, weight), 1) == profile::total_bytes(samples, weight),
    decreases samples.len(),
{
    if samples.len() > 0 {
        alloc_axes_add_up(samples.drop_last(), weight);
        let values = alloc_values(samples, weight);
        assert(values.drop_last() =~= alloc_values(samples.drop_last(), weight));
        assert(values.last() == seq![1u64, low_word(profile::sample_bytes(samples.last(), weight))]);
    }
}

/// On the live axes the space adds up to the sum of
/// `weight * allocated_size / (requested_size + 1)`, where it fits 64 bits.
pub proof fn inuse_space_adds_up(samples: Seq<SampleView>)
    requires
        table::weigh(samples, |s: SampleView| inuse_space(s)) <= u64::MAX,
    ensures
        axis_total(inuse_values(samples), 1) == table::weigh(samples, |s: SampleView| inuse_space(s)),
    decreases samples.len(),
{
    if samples.len() > 0 {
        inuse_space_adds_up(samples.drop_last());
        let values = inuse_values(samples);
        assert(values.drop_last() =~= inuse_values(samples.drop_last()));
    }
}

/// Reading a written profile gives back its fields.
pub proof fn profile_reads_back(
    objects: Seq<char>,
    space: Seq<char>,
    period: Period,
    stacks: Seq<Seq<usize>>,
    values: Seq<Seq<u64>>,
    bias: Option<usize>,
    resolved: Map<usize, FrameView>,
)
    ensures
        ({
            let fields = document(objects, space, period, stacks, values, bias, resolved);
            wire::read_message(wire::message_bytes(fields)) == Some(fields)
        }),
{
    wire::message_reads_back(document(objects, space, period, stacks, values, bias, resolved));
}

/// Reading a written sample gives back its locations and its values.
pub proof fn sample_reads_back(stack: Seq<usize>, values: Seq<u64>, frames: Seq<usize>)
    ensures
        ({
            let fields = sample_message(stack, values, frames);
            &&& wire::read_message(wire::message_bytes(fields)) == Some(fields)
            &&& wire::read_varints(fields[0]->bytes) == Some(
                location_ids(stack, frames).map_values(|v: u64| v as nat),
            )
            &&& wire::read_varints(fields[1]->bytes) == Some(values.map_values(|v: u64| v as nat))
        }),
{
    wire::message_reads_back(sample_message(stack, values, frames));
    wire::varints_read_back(location_ids(stack, frames));
    wire::varints_read_back(values);
}

/// A profile without samples still has its value types, its string table and
/// the preferred value type, and nothing else but the period.
pub proof fn empty_profile_is_complete(
    objects: Seq<char>,
    space: Seq<char>,
    period: Period,
    bias: Option<usize>,
    resolved: Map<usize, FrameView>,
)
    ensures
        ({
            let fields = document(
                objects,
                space,
                period,
                Seq::empty(),
                Seq::empty(),
                bias,
                resolved,
            );
            let strings = intern::intern_all(
                seq![Seq::<char>::empty()],
                header_strings(objects, space, period),
            );
            fields == seq![
                Field::Bytes {
                    number: 1,
                    bytes: wire::message_bytes(value_type(strings, objects, "count"@)),
                },
                Field::Bytes {
                    number: 1,
                    bytes: wire::message_bytes(value_type(strings, space, "bytes"@)),
                },
            ] + string_records(strings) + period_fields(strings, period) + seq![
                Field::Varint { number: 14, value: slot(strings, space) },
            ]
        }),
{
    let none = Seq::<Seq<usize>>::empty();
    let frames = frame_list(none);
    assert(all_frames(none) =~= Seq::empty());
    assert(frames =~= Seq::empty());
    let header = header_strings(objects, space, period);
    assert(header + frame_strings(frames, resolved) =~= header);
    let strings = string_list(objects, space, period, frames, resolved);
    assert(sample_records(none, Seq::empty(), frames) =~= Seq::empty());
    assert(location_records(frames, bias, resolved) =~= Seq::empty());
    assert(function_records(frames, strings, resolved) =~= Seq::empty());
    assert(document(objects, space, period, none, Seq::empty(), bias, resolved) =~= seq![
        Field::Bytes {
            number: 1,
            bytes: wire::message_bytes(value_type(strings, objects, "count"@)),
        },
        Field::Bytes { number: 1, bytes: wire::message_bytes(value_type(strings, space, "bytes"@)) },
    ] + string_records(strings) + period_fields(strings, period) + seq![
        Field::Varint { number: 14, value: slot(strings, space) },
    ]);
}

/// Each code address that occurs has exactly one location, and nothing else
/// has one.
pub proof fn one_location_per_address(stacks: Seq<Seq<usize>>)
    ensures
        order::distinct(frame_list(stacks)),
        forall|i: int, j: int|
            #![trigger stacks[i][j]]
            0 <= i < stacks.len() && 0 <= j < stacks[i].len() ==> frame_list(stacks).contains(
                stacks[i][j],
            ),
        forall|f: usize| #[trigger]
            frame_list(stacks).contains(f) ==> exists|i: int|
                0 <= i < stacks.len() && (#[trigger] stacks[i]).contains(f),
{
    intern::intern_all_distinct(Seq::empty(), all_frames(stacks));
    assert forall|i: int, j: int|
        #![trigger stacks[i][j]]
        0 <= i < stacks.len() && 0 <= j < stacks[i].len() implies frame_list(stacks).contains(
        stacks[i][j],
    ) by {
        frames_of_stack_are_listed(stacks, i, j);
    }
    assert forall|f: usize| #[trigger] frame_list(stacks).contains(f) implies exists|i: int|
        0 <= i < stacks.len() && (#[trigger] stacks[i]).contains(f) by {
        intern::intern_all_members(Seq::empty(), all_frames(stacks), f);
        listed_frames_occur(stacks, f);
    }
}

proof fn listed_frames_occur(stacks: Seq<Seq<usize>>, f: usize)
    requires
        all_frames(stacks).contains(f),
    ensures
        exists|i: int| 0 <= i < stacks.len() && (#[trigger] stacks[i]).contains(f),
    decreases stacks.len(),
{
    if stacks.len() > 0 {
        let head = all_frames(stacks.drop_last());
        let whole = all_frames(stacks);
        let k = choose|k: int| 0 <= k < whole.len() && whole[k] == f;
        if k < head.len() {
            assert(head[k] == f);
            listed_frames_occur(stacks.drop_last(), f);
            let i = choose|i: int|
                0 <= i < stacks.drop_last().len() && (#[trigger] stacks.drop_last()[i]).contains(f);
            assert(stacks[i].contains(f));
        } else {
            assert(stacks.last()[k - head.len()] == f);
            assert(stacks[stacks.len() - 1].contains(f));
        }
    }
}

/// A sample's location numbers lead back to its frames, as far as 64 bits
/// number them.
pub proof fn location_ids_lead_to_frames(stacks: Seq<Seq<usize>>, i: int, j: int)
    requires
        0 <= i < stacks.len(),
        0 <= j < stacks[i].len(),
        frame_list(stacks).len() <= u64::MAX,
    ensures
        ({
            let id = location_ids(stacks[i], frame_list(stacks))[j];
            &&& 1 <= id <= frame_list(stacks).len()
            &&& frame_list(stacks)[id - 1] == stacks[i][j]
        }),
{
    frames_of_stack_are_listed(stacks, i, j);
    let k = frame_list(stacks).index_of(stacks[i][j]);
    assert(0 <= k < frame_list(stacks).len() && frame_list(stacks)[k] == stacks[i][j]);
}

/// The string table starts with the empty text, holds nothing twice, and the
/// number of a text leads back to it, as far as 32 bits number them.
pub proof fn slots_lead_to_texts(
    objects: Seq<char>,
    space: Seq<char>,
    period: Period,
    frames: Seq<usize>,
    resolved: Map<usize, FrameView>,
    s: Seq<char>,
)
    ensures
        ({
            let strings = string_list(objects, space, period, frames, resolved);
            &&& strings.len() > 0
            &&& strings[0] == Seq::<char>::empty()
            &&& order::distinct(strings)
            &&& strings.contains(s) && strings.len() <= u32::MAX ==> strings[slot(
                strings,
                s,
            ) as int] == s
        }),
{
    let first = seq![Seq::<char>::empty()];
    let texts = header_strings(objects, space, period) + frame_strings(frames, resolved);
    intern::intern_all_keeps_places(first, texts);
    intern::intern_all_distinct(first, texts);
    let strings = intern::intern_all(first, texts);
    assert(strings[0] == first[0]);
    if strings.contains(s) {
        let k = strings.index_of(s);
        assert(0 <= k < strings.len() && strings[k] == s);
    }
}

/// Adding the load address back gives the address, where it lies above.
pub proof fn unbiased_adds_back(address: usize, bias: usize)
    requires
        bias <= address,
    ensures
        unbiased(address, Some(bias)) + bias == address,
        unbiased(address, None) == address,
{
}

/// What is left of a stack starts outside the allocator's entry points and is
/// its outer part.
pub proof fn app_stack_starts_outside(stack: Seq<usize>, resolved: Map<usize, FrameView>)
    ensures
        ({
            let kept = app_stack(stack, resolved);
            &&& kept.len() > 0 ==> !is_entry_frame(kept[0], resolved)
            &&& kept.len() <= stack.len()
            &&& kept == stack.skip(stack.len() - kept.len())
            &&& forall|i: int|
                0 <= i < stack.len() - kept.len() ==> is_entry_frame(#[trigger] stack[i], resolved)
        }),
    decreases stack.len(),
{
    if stack.len() > 0 && is_entry_frame(stack[0], resolved) {
        let rest = stack.skip(1);
        app_stack_starts_outside(rest, resolved);
        let kept = app_stack(stack, resolved);
        assert(rest.skip(rest.len() - kept.len()) =~= stack.skip(stack.len() - kept.len()));
        assert forall|i: int| 0 <= i < stack.len() - kept.len() implies is_entry_frame(
            #[trigger] stack[i],
            resolved,
        ) by {
            if i > 0 {
                assert(rest[i - 1] == stack[i]);
            }
        }
    } else {
        assert(stack.skip(0) =~= stack);
    }
}

/// Without names nothing is taken off a stack.
pub proof fn unnamed_stacks_stay_whole(stack: Seq<usize>)
    ensures
        app_stack(stack, Map::empty()) == stack,
{
}

/// A name is that of an entry point exactly where one of these prefixes starts
/// it.
pub proof fn entry_names_by_prefix(name: Seq<char>)
    ensures
        is_entry_name(name) <==> {
            ||| "snmalloc::"@.is_prefix_of(name)
            ||| "snmalloc_rs::"@.is_prefix_of(name)
            ||| "snmalloc_sys::"@.is_prefix_of(name)
            ||| "sn_rust_"@.is_prefix_of(name)
        },
{
    text::prefixes_start_texts(name, "snmalloc::"@);
    text::prefixes_start_texts(name, "snmalloc_rs::"@);
    text::prefixes_start_texts(name, "snmalloc_sys::"@);
    text::prefixes_start_texts(name, "sn_rust_"@);
}

/// No stack is written with a frame of the allocator at its inner end, and
/// nothing else is taken off: what is left is the outer part of the stack,
/// starts with no frame whose name one of the four prefixes starts, and every
/// frame that was taken off has such a name.
pub proof fn written_stacks_start_in_the_program(stack: Seq<usize>, resolved: Map<usize, FrameView>)
    ensures
        ({
            let kept = app_stack(stack, resolved);
            &&& kept.len() <= stack.len()
            &&& kept == stack.skip(stack.len() - kept.len())
            &&& kept.len() > 0 && resolved.contains_key(kept[0]) && resolved[kept[0]].name is Some ==> {
                let name = resolved[kept[0]].name->0;
                &&& !"snmalloc::"@.is_prefix_of(name)
                &&& !"snmalloc_rs::"@.is_prefix_of(name)
                &&& !"snmalloc_sys::"@.is_prefix_of(name)
                &&& !"sn_rust_"@.is_prefix_of(name)
            }
            &&& forall|i: int|
                0 <= i < stack.len() - kept.len() ==> {
                    let name = resolved[#[trigger] stack[i]].name;
                    &&& resolved.contains_key(stack[i])
                    &&& name is Some
                    &&& ("snmalloc::"@.is_prefix_of(name->0) || "snmalloc_rs::"@.is_prefix_of(name->0)
                        || "snmalloc_sys::"@.is_prefix_of(name->0) || "sn_rust_"@.is_prefix_of(name->0))
                }
        }),
{
    app_stack_starts_outside(stack, resolved);
    let kept = app_stack(stack, resolved);
    if kept.len() > 0 && resolved.contains_key(kept[0]) && resolved[kept[0]].name is Some {
        entry_names_by_prefix(resolved[kept[0]].name->0);
    }
    assert forall|i: int| 0 <= i < stack.len() - kept.len() implies {
        let name = resolved[#[trigger] stack[i]].name;
        &&& resolved.contains_key(stack[i])
        &&& name is Some
        &&& ("snmalloc::"@.is_prefix_of(name->0) || "snmalloc_rs::"@.is_prefix_of(name->0)
            || "snmalloc_sys::"@.is_prefix_of(name->0) || "sn_rust_"@.is_prefix_of(name->0))
    } by {
        assert(is_entry_frame(stack[i], resolved));
        entry_names_by_prefix(resolved[stack[i]].name->0);
    }
}

/// The fields that the bytes of a message read back as.
pub open spec fn fields_read(bytes: Seq<u8>) -> Seq<Field> {
    wire::read_message(bytes)->0
}

/// The numbers that the bytes of a packed field read back as.
pub open spec fn numbers_read(bytes: Seq<u8>) -> Seq<nat> {
    wire::read_varints(bytes)->0
}

proof fn document_parts(
    objects: Seq<char>,
    space: Seq<char>,
    period: Period,
    stacks: Seq<Seq<usize>>,
    values: Seq<Seq<u64>>,
    bias: Option<usize>,
    resolved: Map<usize, FrameView>,
)
    ensures
        ({
            let fields = document(objects, space, period, stacks, values, bias, resolved);
            let frames = frame_list(stacks);
            let strings = string_list(objects, space, period, frames, resolved);
            let ns = stacks.len();
            let nf = frames.len();
            let nt = strings.len();
            let np = period_fields(strings, period).len();
            &&& fields.len() == 3 + ns + 2 * nf + nt + np
            &&& fields[0] == Field::Bytes {
                number: 1,
                bytes: wire::message_bytes(value_type(strings, objects, "count"@)),
            }
            &&& fields[1] == Field::Bytes {
                number: 1,
                bytes: wire::message_bytes(value_type(strings, space, "bytes"@)),
            }
            &&& forall|k: int|
                0 <= k < ns ==> #[trigger] sample_records(stacks, values, frames)[k] == fields[2 + k]
            &&& forall|p: int|
                0 <= p < nf ==> #[trigger] location_records(frames, bias, resolved)[p] == fields[2 + ns
                    + p]
            &&& forall|p: int|
                0 <= p < nf ==> #[trigger] function_records(frames, strings, resolved)[p] == fields[2
                    + ns + nf + p]
            &&& forall|t: int|
                0 <= t < nt ==> #[trigger] string_records(strings)[t] == fields[2 + ns + 2 * nf + t]
            &&& forall|p: int|
                0 <= p < np ==> #[trigger] period_fields(strings, period)[p] == fields[2 + ns + 2 * nf
                    + nt + p]
            &&& fields[fields.len() - 1] == Field::Varint { number: 14, value: slot(strings, space) }
        }),
{
}

/// The text stands at the given place of the string table of a profile, whose
/// first entry is the field at `start`.
pub open spec fn text_at(fields: Seq<Field>, start: int, place: nat, s: Seq<char>) -> bool {
    &&& 0 <= start + place < fields.len()
    &&& fields[start + place] == Field::Bytes { number: 6, bytes: vstd::utf8::encode_utf8(s) }
}

proof fn slots_point_at_texts(
    objects: Seq<char>,
    space: Seq<char>,
    period: Period,
    stacks: Seq<Seq<usize>>,
    values: Seq<Seq<u64>>,
    bias: Option<usize>,
    resolved: Map<usize, FrameView>,
    s: Seq<char>,
)
    requires
        string_list(objects, space, period, frame_list(stacks), resolved).len() <= u32::MAX,
        ({
            let header = header_strings(objects, space, period);
            header.contains(s) || frame_strings(frame_list(stacks), resolved).contains(s)
        }),
    ensures
        ({
            let strings = string_list(objects, space, period, frame_list(stacks), resolved);
            text_at(
                document(objects, space, period, stacks, values, bias, resolved),
                (2 + stacks.len() + 2 * frame_list(stacks).len()) as int,
                slot(strings, s),
                s,
            )
        }),
{
    let frames = frame_list(stacks);
    let header = header_strings(objects, space, period);
    let more = frame_strings(frames, resolved);
    let strings = string_list(objects, space, period, frames, resolved);
    document_parts(objects, space, period, stacks, values, bias, resolved);
    assert((header + more).contains(s)) by {
        if header.contains(s) {
            let i = choose|i: int| 0 <= i < header.len() && header[i] == s;
            assert((header + more)[i] == s);
        } else {
            let i = choose|i: int| 0 <= i < more.len() && more[i] == s;
            assert((header + more)[header.len() + i] == s);
        }
    }
    intern::intern_all_members(seq![Seq::<char>::empty()], header + more, s);
    slots_lead_to_texts(objects, space, period, frames, resolved, s);
    let t = slot(strings, s) as int;
    let k = strings.index_of(s);
    assert(0 <= k < strings.len() && strings[k] == s);
    assert(t == k);
    assert(string_records(strings)[t] == Field::Bytes {
        number: 6,
        bytes: vstd::utf8::encode_utf8(strings[t]),
    });
}

proof fn frame_strings_hold(frames: Seq<usize>, resolved: Map<usize, FrameView>, p: int)
    requires
        0 <= p < frames.len(),
    ensures
        frame_strings(frames, resolved).len() == 2 * frames.len(),
        frame_strings(frames, resolved)[2 * p] == frame_name(frames[p], resolved),
        frame_strings(frames, resolved)[2 * p + 1] == frame_file(frames[p], resolved),
    decreases frames.len(),
{
    let shorter = frames.drop_last();
    if p < shorter.len() {
        frame_strings_hold(shorter, resolved, p);
    } else if shorter.len() > 0 {
        frame_strings_hold(shorter, resolved, 0);
    } else {
        assert(frame_strings(shorter, resolved).len() == 0);
    }
}

/// The name is the frame's known one, or else its address in hexadecimal
/// digits.
pub open spec fn is_name_of(name: Seq<char>, frame: usize, resolved: Map<usize, FrameView>) -> bool {
    if resolved.contains_key(frame) && resolved[frame].name is Some {
        name == resolved[frame].name->0
    } else {
        &&& name.len() == 18
        &&& name[0] == '0'
        &&& name[1] == 'x'
        &&& text::all_digits(name.skip(2), 16)
        &&& text::digits_value(name.skip(2), 16) == frame
    }
}

/// The file is the frame's known one, or empty.
pub open spec fn is_file_of(file: Seq<char>, frame: usize, resolved: Map<usize, FrameView>) -> bool {
    if resolved.contains_key(frame) && resolved[frame].file is Some {
        file == resolved[frame].file->0
    } else {
        file.len() == 0
    }
}

/// The line is the frame's known one, or 0.
pub open spec fn is_line_of(line: nat, frame: usize, resolved: Map<usize, FrameView>) -> bool {
    if resolved.contains_key(frame) && resolved[frame].line is Some {
        line == resolved[frame].line->0
    } else {
        line == 0
    }
}

/// The address is the frame's, counted from where the program was loaded.
pub open spec fn is_address_of(address: nat, frame: usize, bias: Option<usize>) -> bool {
    match bias {
        Some(b) => if b <= frame {
            address + b == frame
        } else {
            address == 0
        },
        None => address == frame,
    }
}

/// The field is a location with the number `id`, the frame's address and one
/// line, of the function whose number is `id` too.
pub open spec fn is_location(
    field: Field,
    id: nat,
    frame: usize,
    bias: Option<usize>,
    resolved: Map<usize, FrameView>,
) -> bool {
    &&& field is Bytes
    &&& field->Bytes_number == 4
    &&& wire::read_message(field->bytes) is Some
    &&& {
        let parts = fields_read(field->bytes);
        &&& parts.len() == 4
        &&& parts[0] == Field::Varint { number: 1, value: id }
        &&& parts[1] == Field::Varint { number: 2, value: 0 }
        &&& parts[2] is Varint
        &&& parts[2]->Varint_number == 3
        &&& is_address_of(parts[2]->value, frame, bias)
        &&& parts[3] is Bytes
        &&& parts[3]->Bytes_number == 4
        &&& wire::read_message(parts[3]->bytes) is Some
        &&& {
            let line = fields_read(parts[3]->bytes);
            &&& line.len() == 2
            &&& line[0] == Field::Varint { number: 1, value: id }
            &&& line[1] is Varint
            &&& line[1]->Varint_number == 2
            &&& is_line_of(line[1]->value, frame, resolved)
        }
    }
}

/// The field is a function with the number `id`, whose name, also as the name
/// for the linker, and file stand in the string table at the given places.
pub open spec fn is_function(field: Field, id: nat, name: nat, file: nat) -> bool {
    &&& field is Bytes
    &&& field->Bytes_number == 5
    &&& wire::read_message(field->bytes) == Some(
        seq![
            Field::Varint { number: 1, value: id },
            Field::Varint { number: 2, value: name },
            Field::Varint { number: 3, value: name },
            Field::Varint { number: 4, value: file },
            Field::Varint { number: 5, value: 0 },
        ],
    )
}

proof fn locations_read_back(
    p: int,
    frame: usize,
    bias: Option<usize>,
    resolved: Map<usize, FrameView>,
)
    ensures
        is_location(
            Field::Bytes {
                number: 4,
                bytes: wire::message_bytes(location_message(p, frame, bias, resolved)),
            },
            id_at(p) as nat,
            frame,
            bias,
            resolved,
        ),
{
    wire::message_reads_back(location_message(p, frame, bias, resolved));
    wire::message_reads_back(line_message(p, frame, resolved));
}

proof fn functions_read_back(
    p: int,
    frame: usize,
    strings: Seq<Seq<char>>,
    resolved: Map<usize, FrameView>,
)
    ensures
        is_function(
            Field::Bytes {
                number: 5,
                bytes: wire::message_bytes(function_message(p, frame, strings, resolved)),
            },
            id_at(p) as nat,
            slot(strings, frame_name(frame, resolved)),
            slot(strings, frame_file(frame, resolved)),
        ),
{
    wire::message_reads_back(function_message(p, frame, strings, resolved));
}

proof fn frame_texts_are_its_own(frame: usize, resolved: Map<usize, FrameView>)
    ensures
        is_name_of(frame_name(frame, resolved), frame, resolved),
        is_file_of(frame_file(frame, resolved), frame, resolved),
{
    text::hex_address_reads_back(frame);
    let hex = text::hex_address(frame as nat);
    assert(hex.take(2)[0] == hex[0] && hex.take(2)[1] == hex[1]);
}

/// The texts of a frame stand in the string table, and its function says where.
proof fn function_texts_read_back(
    objects: Seq<char>,
    space: Seq<char>,
    period: Period,
    stacks: Seq<Seq<usize>>,
    values: Seq<Seq<u64>>,
    bias: Option<usize>,
    resolved: Map<usize, FrameView>,
    p: int,
)
    requires
        0 <= p < frame_list(stacks).len(),
        string_list(objects, space, period, frame_list(stacks), resolved).len() <= u32::MAX,
    ensures
        ({
            let fields = document(objects, space, period, stacks, values, bias, resolved);
            let ns = stacks.len() as int;
            let nf = frame_list(stacks).len() as int;
            let frame = frame_list(stacks)[p];
            exists|name: nat, file: nat, name_text: Seq<char>, file_text: Seq<char>|
                {
                    &&& is_function(fields[2 + ns + nf + p], id_at(p) as nat, name, file)
                    &&& #[trigger] text_at(fields, 2 + ns + 2 * nf, name, name_text)
                    &&& is_name_of(name_text, frame, resolved)
                    &&& #[trigger] text_at(fields, 2 + ns + 2 * nf, file, file_text)
                    &&& is_file_of(file_text, frame, resolved)
                }
        }),
{
    let frames = frame_list(stacks);
    let strings = string_list(objects, space, period, frames, resolved);
    let fields = document(objects, space, period, stacks, values, bias, resolved);
    let ns = stacks.len() as int;
    let nf = frames.len() as int;
    let frame = frames[p];
    document_parts(objects, space, period, stacks, values, bias, resolved);
    assert(function_records(frames, strings, resolved)[p] == fields[2 + ns + nf + p]);
    functions_read_back(p, frame, strings, resolved);
    let name = frame_name(frame, resolved);
    let file = frame_file(frame, resolved);
    frame_strings_hold(frames, resolved, p);
    assert(frame_strings(frames, resolved).contains(name)) by {
        assert(frame_strings(frames, resolved)[2 * p] == name);
    }
    assert(frame_strings(frames, resolved).contains(file)) by {
        assert(frame_strings(frames, resolved)[2 * p + 1] == file);
    }
    slots_point_at_texts(objects, space, period, stacks, values, bias, resolved, name);
    slots_point_at_texts(objects, space, period, stacks, values, bias, resolved, file);
    frame_texts_are_its_own(frame, resolved);
    assert(text_at(fields, 2 + ns + 2 * nf, slot(strings, name), name));
    assert(text_at(fields, 2 + ns + 2 * nf, slot(strings, file), file));
}

/// Every frame of every stack can be read back from the bytes of a profile:
/// the sample's number for it leads to a location with its address and line,
/// and to a function whose name and file stand in the string table. The
/// sample's values read back as given. As far as 64 bits number the frames and
/// 32 bits the texts.
#[verifier::rlimit(30)]
pub proof fn frames_read_back(
    objects: Seq<char>,
    space: Seq<char>,
    period: Period,
    stacks: Seq<Seq<usize>>,
    values: Seq<Seq<u64>>,
    bias: Option<usize>,
    resolved: Map<usize, FrameView>,
    k: int,
    j: int,
)
    requires
        0 <= k < stacks.len(),
        0 <= j < stacks[k].len(),
        frame_list(stacks).len() <= u64::MAX,
        string_list(objects, space, period, frame_list(stacks), resolved).len() <= u32::MAX,
    ensures
        ({
            let bytes = wire::message_bytes(
                document(objects, space, period, stacks, values, bias, resolved),
            );
            let fields = fields_read(bytes);
            let ns = stacks.len() as int;
            let nf = frame_list(stacks).len() as int;
            let sample = fields_read(fields[2 + k]->bytes);
            let ids = numbers_read(sample[0]->bytes);
            let id = ids[j];
            &&& wire::read_message(bytes) is Some
            &&& fields[2 + k] is Bytes
            &&& fields[2 + k]->Bytes_number == 2
            &&& wire::read_message(fields[2 + k]->bytes) is Some
            &&& sample.len() == 2
            &&& sample[0] is Bytes
            &&& sample[0]->Bytes_number == 1
            &&& wire::read_varints(sample[0]->bytes) is Some
            &&& ids.len() == stacks[k].len()
            &&& 1 <= id <= nf
            &&& is_location(fields[1 + ns + id], id, stacks[k][j], bias, resolved)
            &&& exists|name: nat, file: nat, name_text: Seq<char>, file_text: Seq<char>|
                {
                    &&& is_function(fields[1 + ns + nf + id], id, name, file)
                    &&& #[trigger] text_at(fields, 2 + ns + 2 * nf, name, name_text)
                    &&& is_name_of(name_text, stacks[k][j], resolved)
                    &&& #[trigger] text_at(fields, 2 + ns + 2 * nf, file, file_text)
                    &&& is_file_of(file_text, stacks[k][j], resolved)
                }
        }),
{
    let frames = frame_list(stacks);
    let fields = document(objects, space, period, stacks, values, bias, resolved);
    let ns = stacks.len() as int;
    let nf = frames.len() as int;
    wire::message_reads_back(fields);
    document_parts(objects, space, period, stacks, values, bias, resolved);
    assert(sample_records(stacks, values, frames)[k] == fields[2 + k]);
    sample_reads_back(stacks[k], values[k], frames);
    location_ids_lead_to_frames(stacks, k, j);
    let frame = stacks[k][j];
    let id = location_ids(stacks[k], frames)[j];
    let p = id - 1;
    let ids = location_ids(stacks[k], frames).map_values(|v: u64| v as nat);
    assert(ids[j] == id as nat);
    assert(id_at(p) == id);
    assert(location_records(frames, bias, resolved)[p] == fields[2 + ns + p]);
    locations_read_back(p, frame, bias, resolved);
    function_texts_read_back(objects, space, period, stacks, values, bias, resolved, p);
    assert(2 + ns + p == 1 + ns + id && 2 + ns + nf + p == 1 + ns + nf + id);
}

/// Every sample of a profile reads back with its values, and has as many
/// locations as its stack has frames.
pub proof fn values_read_back(
    objects: Seq<char>,
    space: Seq<char>,
    period: Period,
    stacks: Seq<Seq<usize>>,
    values: Seq<Seq<u64>>,
    bias: Option<usize>,
    resolved: Map<usize, FrameView>,
    k: int,
)
    requires
        0 <= k < stacks.len(),
    ensures
        ({
            let bytes = wire::message_bytes(
                document(objects, space, period, stacks, values, bias, resolved),
            );
            let fields = fields_read(bytes);
            let sample = fields_read(fields[2 + k]->bytes);
            &&& wire::read_message(bytes) is Some
            &&& fields[2 + k] is Bytes
            &&& fields[2 + k]->Bytes_number == 2
            &&& wire::read_message(fields[2 + k]->bytes) is Some
            &&& sample.len() == 2
            &&& sample[0] is Bytes
            &&& sample[0]->Bytes_number == 1
            &&& numbers_read(sample[0]->bytes).len() == stacks[k].len()
            &&& sample[1] is Bytes
            &&& sample[1]->Bytes_number == 2
            &&& wire::read_varints(sample[1]->bytes) is Some
            &&& numbers_read(sample[1]->bytes).len() == values[k].len()
            &&& forall|v: int|
                0 <= v < values[k].len() ==> #[trigger] numbers_read(sample[1]->bytes)[v] == values[k][v]
        }),
{
    let frames = frame_list(stacks);
    let fields = document(objects, space, period, stacks, values, bias, resolved);
    wire::message_reads_back(fields);
    document_parts(objects, space, period, stacks, values, bias, resolved);
    assert(sample_records(stacks, values, frames)[k] == fields[2 + k]);
    sample_reads_back(stacks[k], values[k], frames);
}

/// The field is a type of values: its name and its unit stand in the string
/// table.
pub open spec fn is_value_type(
    fields: Seq<Field>,
    start: int,
    field: Field,
    number: nat,
    name: Seq<char>,
    unit: Seq<char>,
) -> bool {
    &&& field is Bytes
    &&& field->Bytes_number == number
    &&& exists|n: nat, u: nat|
        {
            &&& wire::read_message(field->bytes) == Some(
                seq![Field::Varint { number: 1, value: n }, Field::Varint { number: 2, value: u }],
            )
            &&& #[trigger] text_at(fields, start, n, name)
            &&& #[trigger] text_at(fields, start, u, unit)
        }
}

proof fn value_types_read_back(
    objects: Seq<char>,
    space: Seq<char>,
    period: Period,
    stacks: Seq<Seq<usize>>,
    values: Seq<Seq<u64>>,
    bias: Option<usize>,
    resolved: Map<usize, FrameView>,
    number: nat,
    name: Seq<char>,
    unit: Seq<char>,
)
    requires
        string_list(objects, space, period, frame_list(stacks), resolved).len() <= u32::MAX,
        header_strings(objects, space, period).contains(name),
        header_strings(objects, space, period).contains(unit),
    ensures
        ({
            let fields = document(objects, space, period, stacks, values, bias, resolved);
            let strings = string_list(objects, space, period, frame_list(stacks), resolved);
            is_value_type(
                fields,
                (2 + stacks.len() + 2 * frame_list(stacks).len()) as int,
                Field::Bytes { number, bytes: wire::message_bytes(value_type(strings, name, unit)) },
                number,
                name,
                unit,
            )
        }),
{
    let fields = document(objects, space, period, stacks, values, bias, resolved);
    let strings = string_list(objects, space, period, frame_list(stacks), resolved);
    let start = (2 + stacks.len() + 2 * frame_list(stacks).len()) as int;
    wire::message_reads_back(value_type(strings, name, unit));
    slots_point_at_texts(objects, space, period, stacks, values, bias, resolved, name);
    slots_point_at_texts(objects, space, period, stacks, values, bias, resolved, unit);
    assert(text_at(fields, start, slot(strings, name), name));
    assert(text_at(fields, start, slot(strings, unit), unit));
}

/// The header of a profile reads back: objects by count, space by bytes, the
/// space as the preferred axis, and, where a period is stated, its type and
/// its value if it is known. The string table starts with the empty text.
#[verifier::rlimit(30)]
pub proof fn headers_read_back(
    objects: Seq<char>,
    space: Seq<char>,
    period: Period,
    stacks: Seq<Seq<usize>>,
    values: Seq<Seq<u64>>,
    bias: Option<usize>,
    resolved: Map<usize, FrameView>,
)
    requires
        string_list(objects, space, period, frame_list(stacks), resolved).len() <= u32::MAX,
    ensures
        ({
            let bytes = wire::message_bytes(
                document(objects, space, period, stacks, values, bias, resolved),
            );
            let fields = fields_read(bytes);
            let start = (2 + stacks.len() + 2 * frame_list(stacks).len()) as int;
            let last = fields.len() - 1;
            &&& wire::read_message(bytes) is Some
            &&& is_value_type(fields, start, fields[0], 1, objects, "count"@)
            &&& is_value_type(fields, start, fields[1], 1, space, "bytes"@)
            &&& text_at(fields, start, 0, Seq::empty())
            &&& fields[last] is Varint
            &&& fields[last]->Varint_number == 14
            &&& text_at(fields, start, fields[last]->value, space)
            &&& match period {
                Period::Absent => fields[last - 1] is Bytes && fields[last - 1]->Bytes_number == 6,
                Period::Stated(Some(n)) => {
                    &&& fields[last - 1] == Field::Varint { number: 12, value: n as nat }
                    &&& is_value_type(fields, start, fields[last - 2], 11, "space"@, "bytes"@)
                },
                Period::Stated(None) => is_value_type(
                    fields,
                    start,
                    fields[last - 1],
                    11,
                    "space"@,
                    "bytes"@,
                ),
            }
        }),
{
    let frames = frame_list(stacks);
    let strings = string_list(objects, space, period, frames, resolved);
    let header = header_strings(objects, space, period);
    let fields = document(objects, space, period, stacks, values, bias, resolved);
    let start = (2 + stacks.len() + 2 * frames.len()) as int;
    wire::message_reads_back(fields);
    document_parts(objects, space, period, stacks, values, bias, resolved);
    assert(header[0] == objects && header[1] == "count"@ && header[2] == space && header[3] == "bytes"@);
    assert(header.contains(objects) && header.contains("count"@) && header.contains(space)
        && header.contains("bytes"@));
    value_types_read_back(objects, space, period, stacks, values, bias, resolved, 1, objects, "count"@);
    value_types_read_back(objects, space, period, stacks, values, bias, resolved, 1, space, "bytes"@);
    slots_point_at_texts(objects, space, period, stacks, values, bias, resolved, space);
    slots_lead_to_texts(objects, space, period, frames, resolved, Seq::empty());
    assert(string_records(strings)[0] == fields[start + 0]);
    assert(text_at(fields, start, 0, Seq::empty()));
    let end = (2 + stacks.len() + 2 * frames.len() + strings.len()) as int;
    match period {
        Period::Absent => {
            assert(string_records(strings)[strings.len() - 1] == fields[start + (strings.len() - 1)]);
        },
        Period::Stated(value) => {
            assert(header[4] == "space"@);
            assert(header.contains("space"@));
            value_types_read_back(
                objects,
                space,
                period,
                stacks,
                values,
                bias,
                resolved,
                11,
                "space"@,
                "bytes"@,
            );
            assert(period_fields(strings, period)[0] == fields[end + 0]);
            if value is Some {
                assert(period_fields(strings, period)[1] == fields[end + 1]);
            }
        },
    }
}

/// Objects and space that a live sample counts for: the weight, and the weight
/// times the allocated size, each divided by one more than the requested size
/// and rounded down; of the space the low 64 bits.
pub open spec fn are_inuse_values(values: Seq<u64>, s: SampleView) -> bool {
    &&& values.len() == 2
    &&& values[0] * (s.requested_size + 1) <= s.weight < (values[0] + 1) * (s.requested_size + 1)
    &&& exists|q: nat|
        {
            &&& #[trigger] (q * (s.requested_size as nat + 1)) <= s.weight * s.allocated_size < (q + 1) * (
            s.requested_size + 1)
            &&& values[1] == q % 0x1_0000_0000_0000_0000
        }
}

/// Objects and space that a sample counts for on the allocation axes: one, and
/// the low 64 bits of its bytes.
pub open spec fn are_alloc_values(values: Seq<u64>, s: SampleView, weight: Weight) -> bool {
    &&& values.len() == 2
    &&& values[0] == 1
    &&& values[1] == profile::sample_bytes(s, weight) % 0x1_0000_0000_0000_0000
}

proof fn quotient_is_unique(n: nat, d: nat, q: nat)
    requires
        d > 0,
        q * d <= n < (q + 1) * d,
    ensures
        q == n / d,
{
    assert(q == n / d) by (nonlinear_arith)
        requires
            d > 0,
            q * d <= n < (q + 1) * d,
    ;
}

/// The live profile is the document of these axes, of the stacks without the
/// allocator's own frames, and of these values; nothing of the samples but
/// their stacks, sizes and weights matters.
pub proof fn live_profiles_are_documents(
    p: &HeapProfile,
    out: &mut Vec<u8>,
    weight: Weight,
    bias: Option<usize>,
    resolved: &HashMap<usize, ResolvedFrame>,
    stacks: Seq<Seq<usize>>,
    values: Seq<Seq<u64>>,
)
    requires
        call_ensures(HeapProfile::write_pprof_resolved, (p, out, weight, bias, resolved), ()),
        stacks.len() == p@.samples.len(),
        values.len() == p@.samples.len(),
        forall|i: int|
            0 <= i < stacks.len() ==> #[trigger] stacks[i] == app_stack(
                p@.samples[i].stack,
                symbols::frame_views(resolved@),
            ),
        forall|i: int| 0 <= i < values.len() ==> are_inuse_values(#[trigger] values[i], p@.samples[i]),
    ensures
        final(out)@ == old(out)@ + wire::message_bytes(
            document(
                "inuse_objects"@,
                "inuse_space"@,
                Period::Stated(p@.period),
                stacks,
                values,
                bias,
                symbols::frame_views(resolved@),
            ),
        ),
{
    let samples = p@.samples;
    assert(stacks =~= app_stacks(samples, symbols::frame_views(resolved@)));
    assert forall|i: int| 0 <= i < values.len() implies #[trigger] values[i] == inuse_values(samples)[i] by {
        let s = samples[i];
        let d = s.requested_size as nat + 1;
        assert(are_inuse_values(values[i], s));
        quotient_is_unique(s.weight as nat, d, values[i][0] as nat);
        let q = choose|q: nat|
            {
                &&& #[trigger] (q * (s.requested_size as nat + 1)) <= s.weight * s.allocated_size < (q + 1)
                    * (s.requested_size + 1)
                &&& values[i][1] == q % 0x1_0000_0000_0000_0000
            };
        quotient_is_unique((s.weight as nat * s.allocated_size as nat), d, q);
        assert(inuse_objects(s) == values[i][0]);
        assert(values[i] =~= inuse_values(samples)[i]);
    }
    assert(values =~= inuse_values(samples));
}

/// There are such values for every live sample.
pub proof fn live_samples_have_values(s: SampleView)
    ensures
        are_inuse_values(inuse_values(seq![s])[0], s),
{
    let d = s.requested_size as nat + 1;
    let w = s.weight as nat;
    let n = s.weight as nat * s.allocated_size as nat;
    let v = inuse_values(seq![s])[0];
    let a = w / d;
    let q = n / d;
    assert(a * d <= w < (a + 1) * d) by (nonlinear_arith)
        requires
            d > 0,
            a == w / d,
    ;
    assert(q * d <= n < (q + 1) * d) by (nonlinear_arith)
        requires
            d > 0,
            q == n / d,
    ;
    assert(a <= w) by (nonlinear_arith)
        requires
            a * d <= w,
            d >= 1,
            a >= 0,
    ;
    assert(v[0] == a);
    assert(v[1] == q % 0x1_0000_0000_0000_0000);
}

/// The profile on the allocation axes is the document of these axes, of the
/// whole stacks, and of one object and the bytes for each sample, without a
/// period.
pub proof fn allocation_profiles_are_documents(
    p: &HeapProfile,
    weight: Weight,
    bias: Option<usize>,
    resolved: &HashMap<usize, ResolvedFrame>,
    out: &mut Vec<u8>,
    stacks: Seq<Seq<usize>>,
    values: Seq<Seq<u64>>,
)
    requires
        call_ensures(write_pprof_resolved, (p, weight, bias, resolved, out), ()),
        stacks.len() == p@.samples.len(),
        values.len() == p@.samples.len(),
        forall|i: int| 0 <= i < stacks.len() ==> #[trigger] stacks[i] == p@.samples[i].stack,
        forall|i: int|
            0 <= i < values.len() ==> are_alloc_values(#[trigger] values[i], p@.samples[i], weight),
    ensures
        final(out)@ == old(out)@ + wire::message_bytes(
            document(
                "alloc_objects"@,
                "alloc_space"@,
                Period::Absent,
                stacks,
                values,
                bias,
                symbols::frame_views(resolved@),
            ),
        ),
{
    let samples = p@.samples;
    assert(stacks =~= stacks_of(samples));
    assert forall|i: int| 0 <= i < values.len() implies #[trigger] values[i] == alloc_values(
        samples,
        weight,
    )[i] by {
        assert(are_alloc_values(values[i], samples[i], weight));
        assert(values[i] =~= alloc_values(samples, weight)[i]);
    }
    assert(values =~= alloc_values(samples, weight));
}

/// Without names the profiles are those that an empty table of names gives,
/// and on the live axes the kind of bytes makes no difference.
pub proof fn plain_profiles_use_no_names(
    p: &HeapProfile,
    a: &mut Vec<u8>,
    b: &mut Vec<u8>,
    c: &mut Vec<u8>,
    d: &mut Vec<u8>,
    weight: Weight,
    other: Weight,
    bias: Option<usize>,
    none: &HashMap<usize, ResolvedFrame>,
)
    requires
        none@ == Map::<usize, ResolvedFrame>::empty(),
        call_ensures(HeapProfile::write_pprof, (p, a, weight, bias), ()),
        call_ensures(HeapProfile::write_pprof_resolved, (p, b, other, bias, none), ()),
        call_ensures(write_pprof_with_bias, (p, weight, bias, c), ()),
        call_ensures(write_pprof_resolved, (p, weight, bias, none, d), ()),
        old(a)@ == old(b)@,
        old(c)@ == old(d)@,
    ensures
        final(a)@ == final(b)@,
        final(c)@ == final(d)@,
{
    assert(symbols::frame_views(none@) =~= Map::<usize, FrameView>::empty());
}

/// Frames are numbered in the order of their first appearance: one with a
/// smaller number appears before the other appears at all.
pub proof fn frames_are_numbered_by_first_appearance(stacks: Seq<Seq<usize>>, i: int, j: int)
    requires
        0 <= i < j < frame_list(stacks).len(),
    ensures
        exists|k: int|
            {
                &&& 0 <= k < stacks.flatten().len()
                &&& #[trigger] stacks.flatten()[k] == frame_list(stacks)[i]
                &&& forall|m: int|
                    0 <= m <= k ==> #[trigger] stacks.flatten()[m] != frame_list(stacks)[j]
            },
{
    let all = all_frames(stacks);
    all_frames_flatten(stacks);
    first_places_ascend(all, i, j);
}

proof fn all_frames_flatten(stacks: Seq<Seq<usize>>)
    ensures
        all_frames(stacks) == stacks.flatten(),
    decreases stacks.len(),
{
    if stacks.len() == 0 {
        assert(stacks.flatten() =~= Seq::empty());
    } else {
        all_frames_flatten(stacks.drop_last());
        stacks.drop_last().lemma_flatten_push(stacks.last());
        assert(stacks.drop_last().push(stacks.last()) =~= stacks);
    }
}

proof fn first_places_ascend(all: Seq<usize>, i: int, j: int)
    requires
        0 <= i < j < intern::dedup(all).len(),
    ensures
        exists|k: int|
            {
                &&& 0 <= k < all.len()
                &&& #[trigger] all[k] == intern::dedup(all)[i]
                &&& forall|m: int| 0 <= m <= k ==> #[trigger] all[m] != intern::dedup(all)[j]
            },
    decreases all.len(),
{
    let none = Seq::<usize>::empty();
    let list = intern::dedup(all);
    if all.len() > 0 {
        let shorter = all.drop_last();
        let had = intern::dedup(shorter);
        intern::intern_all_distinct(none, all);
        if j < had.len() {
            first_places_ascend(shorter, i, j);
            let k = choose|k: int|
                {
                    &&& 0 <= k < shorter.len()
                    &&& #[trigger] shorter[k] == had[i]
                    &&& forall|m: int| 0 <= m <= k ==> #[trigger] shorter[m] != had[j]
                };
            assert(all[k] == list[i]);
            assert forall|m: int| 0 <= m <= k implies #[trigger] all[m] != list[j] by {
                assert(shorter[m] != had[j]);
            }
        } else {
            assert(had[i] == list[i]);
            assert(had.contains(list[i]));
            intern::intern_all_members(none, shorter, list[i]);
            intern::intern_all_members(none, shorter, list[j]);
            let k = choose|k: int| 0 <= k < shorter.len() && shorter[k] == list[i];
            assert(all[k] == list[i]);
            assert forall|m: int| 0 <= m <= k implies #[trigger] all[m] != list[j] by {
                assert(shorter[m] == all[m]);
                if shorter[m] == list[j] {
                    assert(shorter.contains(list[j]));
                    let h = choose|h: int| 0 <= h < had.len() && had[h] == list[j];
                    assert(list[h] == list[j]);
                }
            }
        }
    }
}

/// Profiles with names that are looked up are those with the frames that the
/// cache keeps.
pub proof fn looked_up_profiles_are_the_same(
    p: &HeapProfile,
    weight: Weight,
    bias: Option<usize>,
    live_cache: &mut SymbolCache,
    live: &mut Vec<u8>,
    live_resolved: &HashMap<usize, ResolvedFrame>,
    live_same: &mut Vec<u8>,
    cache: &mut SymbolCache,
    out: &mut Vec<u8>,
    resolved: &HashMap<usize, ResolvedFrame>,
    same: &mut Vec<u8>,
)
    requires
        call_ensures(HeapProfile::write_pprof_symbolized, (p, live, weight, bias, live_cache), ()),
        call_ensures(
            HeapProfile::write_pprof_resolved,
            (p, live_same, weight, bias, live_resolved),
            (),
        ),
        symbols::answers(
            symbols::frame_views(live_resolved@),
            symbols::frames_of(p@.samples),
            final(live_cache)@,
        ),
        old(live_same)@ == old(live)@,
        call_ensures(write_pprof_symbolized, (p, weight, bias, cache, out), ()),
        call_ensures(write_pprof_resolved, (p, weight, bias, resolved, same), ()),
        symbols::answers(
            symbols::frame_views(resolved@),
            symbols::frames_of(p@.samples),
            final(cache)@,
        ),
        old(same)@ == old(out)@,
    ensures
        final(live_same)@ == final(live)@,
        final(same)@ == final(out)@,
{
    let asked = symbols::frames_of(p@.samples);
    let a = choose|a: Map<usize, FrameView>|
        {
            &&& #[trigger] symbols::answers(a, asked, final(live_cache)@)
            &&& final(live)@ == old(live)@ + wire::message_bytes(inuse_document(p@, bias, a))
        };
    symbols::answers_are_unique(
        symbols::frame_views(live_resolved@),
        a,
        asked,
        final(live_cache)@,
    );
    let b = choose|b: Map<usize, FrameView>|
        {
            &&& #[trigger] symbols::answers(b, asked, final(cache)@)
            &&& final(out)@ == old(out)@ + wire::message_bytes(
                alloc_document(p@.samples, weight, bias, b),
            )
        };
    symbols::answers_are_unique(symbols::frame_views(resolved@), b, asked, final(cache)@);
}

/// Documents are encoded as their fields, one after another; addresses are
/// corrected and rendered as they read back.
pub proof fn documents_are_encoded(
    objects: &str,
    space: &str,
    period: Period,
    stacks: &Vec<Vec<usize>>,
    values: &Vec<Vec<u64>>,
    bias: Option<usize>,
    resolved: &HashMap<usize, ResolvedFrame>,
    out: Vec<u8>,
    address: usize,
    corrected: u64,
    hex: Vec<char>,
)
    requires
        call_ensures(
            encode_document,
            (objects, space, period, stacks, values, bias, resolved),
            out,
        ),
        call_ensures(corrected_address, (address, bias), corrected),
        call_ensures(hex_addr, (address,), hex),
    ensures
        wire::read_message(out@) == Some(
            document(
                objects@,
                space@,
                period,
                stack_views(stacks@),
                value_views(values@),
                bias,
                symbols::frame_views(resolved@),
            ),
        ),
        is_address_of(corrected as nat, address, bias),
        hex@.len() == 18,
        hex@.take(2) == seq!['0', 'x'],
        text::all_digits(hex@.skip(2), 16),
        text::digits_value(hex@.skip(2), 16) == address,
{
    wire::message_reads_back(
        document(
            objects@,
            space@,
            period,
            stack_views(stacks@),
            value_views(values@),
            bias,
            symbols::frame_views(resolved@),
        ),
    );
    text::hex_address_reads_back(address);
}

} // verus!

//! Folded stacks: one line of text per distinct stack, with its bytes.
use std::collections::HashMap;
use vstd::prelude::*;
use crate::hotspot;
use crate::order;
use crate::profile;
use crate::profile::{sample_weight, HeapProfile, SampleView, Weight};
use crate::symbols;
use crate::symbols::{FrameView, ResolvedFrame, SymbolCache};
use crate::table;
use crate::table::{Table, Tally};
use crate::text;
use crate::text::{chars_of, push_decimal, push_hex_address, push_utf8};

verus! {

broadcast use vstd::std_specs::hash::group_hash_axioms;

/// `;` and space separate parts of a line, so a name may not hold them.
pub open spec fn sanitized_char(c: char) -> char {
    if c == ';' || c == ' ' {
        '_'
    } else {
        c
    }
}

pub open spec fn sanitized(name: Seq<char>) -> Seq<char> {
    name.map_values(|c: char| sanitized_char(c))
}

/// A frame as text: its name, or its address where no name is known.
pub open spec fn frame_text(address: usize, resolved: Map<usize, FrameView>) -> Seq<char> {
    match hotspot::name_at(address, resolved) {
        Some(name) => sanitized(name),
        None => text::hex_address(address as nat),
    }
}

/// A stack as text: its frames, outermost first, joined by `;`.
pub open spec fn stack_text(stack: Seq<usize>, resolved: Map<usize, FrameView>) -> Seq<char>
    decreases stack.len(),
{
    if stack.len() == 0 {
        Seq::empty()
    } else if stack.len() == 1 {
        frame_text(stack[0], resolved)
    } else {
        stack_text(stack.skip(1), resolved).push(';') + frame_text(stack[0], resolved)
    }
}

/// Render a stack as the key of its line.
pub fn render_stack_key_symbolized(
    stack: &Vec<usize>,
    resolved: &HashMap<usize, ResolvedFrame>,
) -> (key: Vec<char>)
    ensures
        key@ == stack_text(stack@, symbols::frame_views(resolved@)),
{
    let ghost known = symbols::frame_views(resolved@);
    let mut key: Vec<char> = Vec::new();
    let mut i: usize = stack.len();
    assert(stack@.skip(i as int) =~= Seq::empty());
    while i > 0
        invariant
            known == symbols::frame_views(resolved@),
            i <= stack.len(),
            key@ == stack_text(stack@.skip(i as int), known),
        decreases i,
    {
        let ghost done = stack@.skip(i as int);
        let ghost now = stack@.skip(i - 1);
        let address: usize = stack[i - 1];
        if i < stack.len() {
            key.push(';');
        }
        let ghost opened = key@;
        let mut named = false;
        if let Some(frame) = resolved.get(&address) {
            if let Some(name) = &frame.name {
                named = true;
                let chars = chars_of(name.as_str());
                let ghost clean = sanitized(chars@);
                for j in 0..chars.len()
                    invariant
                        clean == sanitized(chars@),
                        key@ == opened + clean.take(j as int),
                {
                    let c = chars[j];
                    if c == ';' || c == ' ' {
                        key.push('_');
                    } else {
                        key.push(c);
                    }
                    assert(clean.take(j + 1) =~= clean.take(j as int).push(clean[j as int]));
                    assert(key@ =~= opened + clean.take(j + 1));
                }
                assert(clean.take(clean.len() as int) =~= clean);
                assert(frame_text(address, known) == clean);
            }
        }
        if !named {
            push_hex_address(&mut key, address as u64);
        }
        assert(key@ =~= opened + frame_text(address, known));
        assert(now[0] == address);
        assert(now.skip(1) =~= done);
        i = i - 1;
        assert(key@ =~= stack_text(now, known));
    }
    assert(stack@.skip(0) =~= stack@);
    key
}

/// Render a stack of addresses as the key of its line.
pub fn render_stack_key(stack: &Vec<usize>) -> (key: Vec<char>)
    ensures
        key@ == stack_text(stack@, Map::empty()),
{
    let none: HashMap<usize, ResolvedFrame> = HashMap::new();
    assert(symbols::frame_views(none@) =~= Map::<usize, FrameView>::empty());
    render_stack_key_symbolized(stack, &none)
}

/// The grouping as a function of the sample.
pub open spec fn by_text(resolved: Map<usize, FrameView>) -> spec_fn(SampleView) -> Seq<char> {
    |s: SampleView| stack_text(s.stack, resolved)
}

/// The bytes of the samples whose stack reads `key`.
pub open spec fn bytes_under(
    samples: Seq<SampleView>,
    weight: Weight,
    resolved: Map<usize, FrameView>,
    key: Seq<char>,
) -> nat {
    profile::total_bytes(table::members(samples, by_text(resolved), key), weight)
}

/// `keys` are the texts of all stacks, each once and in ascending order, and
/// `totals` the bytes that the samples under each count for.
pub open spec fn is_folded(
    samples: Seq<SampleView>,
    weight: Weight,
    resolved: Map<usize, FrameView>,
    keys: Seq<Seq<char>>,
    totals: Seq<u128>,
) -> bool {
    &&& order::ascending::<Vec<char>>(keys)
    &&& totals.len() == keys.len()
    &&& forall|i: int|
        0 <= i < keys.len() ==> table::has_member(samples, by_text(resolved), #[trigger] keys[i])
    &&& forall|i: int|
        0 <= i < keys.len() ==> #[trigger] totals[i] == profile::capped(
            bytes_under(samples, weight, resolved, keys[i]),
        )
    &&& forall|s: int|
        0 <= s < samples.len() ==> keys.contains(stack_text((#[trigger] samples[s]).stack, resolved))
}

/// One line: a key, a space, a number and a line end.
pub open spec fn line_text(key: Seq<char>, total: u128) -> Seq<char> {
    key.push(' ') + text::decimal(total as nat).push('\n')
}

/// All lines, one after another.
pub open spec fn lines_text(keys: Seq<Seq<char>>, totals: Seq<u128>) -> Seq<char>
    decreases keys.len(),
{
    if keys.len() == 0 {
        Seq::empty()
    } else {
        lines_text(keys.drop_last(), totals.drop_last()) + line_text(keys.last(), totals.last())
    }
}

#[derive(Clone, Copy)]
struct ByteTally {
    bytes: u128,
}

impl Tally for ByteTally {
    type Item = u128;

    closed spec fn start() -> ByteTally {
        ByteTally { bytes: 0 }
    }

    closed spec fn step(self, item: u128) -> ByteTally {
        ByteTally { bytes: profile::capped((self.bytes + item) as nat) }
    }

    fn fresh() -> (tally: ByteTally) {
        ByteTally { bytes: 0 }
    }

    fn absorb(&self, item: u128) -> (tally: ByteTally) {
        ByteTally { bytes: self.bytes.saturating_add(item) }
    }
}

spec fn bytes_item(weight: Weight) -> spec_fn(SampleView) -> u128 {
    |s: SampleView| profile::sample_bytes(s, weight) as u128
}

proof fn byte_tally_closed_form(members: Seq<SampleView>, weight: Weight)
    ensures
        table::tally_all::<ByteTally>(members.map_values(bytes_item(weight))) == (ByteTally {
            bytes: profile::capped(profile::total_bytes(members, weight)),
        }),
    decreases members.len(),
{
    let values = members.map_values(bytes_item(weight));
    if members.len() > 0 {
        let shorter = members.drop_last();
        byte_tally_closed_form(shorter, weight);
        assert(values.drop_last() =~= shorter.map_values(bytes_item(weight)));
        profile::sample_bytes_fit(members.last(), weight);
    }
}

fn push_line(out: &mut Vec<char>, key: &Vec<char>, total: u128)
    ensures
        final(out)@ == old(out)@ + line_text(key@, total),
{
    let mut copy = key.clone();
    assert(copy@ =~= key@);
    out.append(&mut copy);
    out.push(' ');
    push_decimal(out, total);
    out.push('\n');
    assert(out@ =~= old(out)@ + line_text(key@, total));
}

impl HeapProfile {
    /// Append the folded stacks to `out` as UTF-8, given what is known of
    /// their code addresses.
    #[verifier::rlimit(40)]
    pub fn write_flamegraph_resolved(
        &self,
        weight: Weight,
        resolved: &HashMap<usize, ResolvedFrame>,
        out: &mut Vec<u8>,
    )
        ensures
            writes_folded(
                self@.samples,
                weight,
                symbols::frame_views(resolved@),
                old(out)@,
                final(out)@,
            ),
    {
        let samples = self.samples();
        let ghost views = self@.samples;
        let ghost known = symbols::frame_views(resolved@);
        let ghost f = by_text(known);
        let ghost g = bytes_item(weight);
        let mut folded: Table<Vec<char>, ByteTally> = Table::new();
        assert(table::entries(views.take(0), f, g) =~= Seq::empty());
        for i in 0..samples.len()
            invariant
                views == profile::sample_views(samples@),
                known == symbols::frame_views(resolved@),
                f == by_text(known),
                g == bytes_item(weight),
                folded.wf(),
                folded.history() == table::entries(views.take(i as int), f, g),
        {
            let key = render_stack_key_symbolized(&samples[i].stack, resolved);
            let bytes: u128 = sample_weight(&samples[i], weight);
            assert(views[i as int] == samples[i as int]@);
            folded.record(key, bytes);
            assert(table::entries(views.take(i + 1), f, g) =~= table::entries(
                views.take(i as int),
                f,
                g,
            ).push((f(views[i as int]), g(views[i as int]))));
        }
        assert(views.take(views.len() as int) =~= views);
        let (keys, tallies) = folded.into_parts();
        let ghost ks = order::models(keys@);
        let ghost totals = Seq::new(tallies@.len(), |i: int| tallies@[i].bytes);
        proof {
            let history = table::entries(views, f, g);
            assert forall|i: int| 0 <= i < ks.len() implies table::has_member(
                views,
                f,
                #[trigger] ks[i],
            ) by {
                table::occurs_in_entries(views, f, g, ks[i]);
            }
            assert forall|i: int| 0 <= i < ks.len() implies #[trigger] totals[i] == profile::capped(
                bytes_under(views, weight, known, ks[i]),
            ) by {
                assert(tallies@[i] == table::tally_of::<Seq<char>, ByteTally>(history, ks[i]));
                table::tally_of_group::<Seq<char>, SampleView, ByteTally>(views, f, g, ks[i]);
                byte_tally_closed_form(table::members(views, f, ks[i]), weight);
            }
            assert forall|s: int| 0 <= s < views.len() implies ks.contains(
                stack_text((#[trigger] views[s]).stack, known),
            ) by {
                assert(ks.contains(history[s].0));
            }
            assert(is_folded(views, weight, known, ks, totals));
        }
        let mut rendered: Vec<char> = Vec::new();
        for i in 0..keys.len()
            invariant
                ks == order::models(keys@),
                keys.len() == tallies.len(),
                totals == Seq::new(tallies@.len(), |i: int| tallies@[i].bytes),
                rendered@ == lines_text(ks.take(i as int), totals.take(i as int)),
        {
            push_line(&mut rendered, &keys[i], tallies[i].bytes);
            assert(ks.take(i + 1).drop_last() =~= ks.take(i as int));
            assert(totals.take(i + 1).drop_last() =~= totals.take(i as int));
            assert(ks[i as int] == keys@[i as int]@);
        }
        assert(ks.take(ks.len() as int) =~= ks);
        assert(totals.take(totals.len() as int) =~= totals);
        push_utf8(out, &rendered);
    }

    /// Append the folded stacks to `out`, with code addresses for frames and
    /// the given choice of bytes.
    pub fn write_flamegraph_with(&self, weight: Weight, out: &mut Vec<u8>)
        ensures
            writes_folded(self@.samples, weight, Map::empty(), old(out)@, final(out)@),
    {
        let none: HashMap<usize, ResolvedFrame> = HashMap::new();
        assert(symbols::frame_views(none@) =~= Map::<usize, FrameView>::empty());
        self.write_flamegraph_resolved(weight, &none, out)
    }

    /// Append the folded stacks to `out`, with code addresses for frames and
    /// allocated bytes.
    pub fn write_flamegraph_raw(&self, out: &mut Vec<u8>)
        ensures
            writes_folded(self@.samples, Weight::Allocated, Map::empty(), old(out)@, final(out)@),
    {
        self.write_flamegraph_with(Weight::Allocated, out)
    }

    /// Append the folded stacks to `out`, with allocated bytes. Without a
    /// cache of symbols, frames are rendered as code addresses.
    pub fn write_flamegraph(&self, out: &mut Vec<u8>)
        ensures
            writes_folded(self@.samples, Weight::Allocated, Map::empty(), old(out)@, final(out)@),
    {
        self.write_flamegraph_raw(out)
    }

    /// Append the folded stacks to `out`, with allocated bytes and the names
    /// of frames wherever the running program knows them.
    pub fn write_flamegraph_symbolized(&self, cache: &mut SymbolCache, out: &mut Vec<u8>)
        ensures
            symbols::extends(old(cache)@, final(cache)@, symbols::frames_of(self@.samples)),
            exists|resolved: Map<usize, FrameView>|
                {
                    &&& #[trigger] symbols::answers(
                        resolved,
                        symbols::frames_of(self@.samples),
                        final(cache)@,
                    )
                    &&& writes_folded(
                        self@.samples,
                        Weight::Allocated,
                        resolved,
                        old(out)@,
                        final(out)@,
                    )
                },
    {
        let resolved = self.symbolize(cache);
        self.write_flamegraph_resolved(Weight::Allocated, &resolved, out)
    }
}

/// The folded stacks were appended to what was written before.
pub open spec fn writes_folded(
    samples: Seq<SampleView>,
    weight: Weight,
    resolved: Map<usize, FrameView>,
    before: Seq<u8>,
    after: Seq<u8>,
) -> bool {
    exists|keys: Seq<Seq<char>>, totals: Seq<u128>|
        {
            &&& #[trigger] is_folded(samples, weight, resolved, keys, totals)
            &&& after == before + vstd::utf8::encode_utf8(lines_text(keys, totals))
        }
}

/// What is written is determined by the samples.
pub proof fn folded_is_unique(
    samples: Seq<SampleView>,
    weight: Weight,
    resolved: Map<usize, FrameView>,
    before: Seq<u8>,
    a: Seq<u8>,
    b: Seq<u8>,
)
    requires
        writes_folded(samples, weight, resolved, before, a),
        writes_folded(samples, weight, resolved, before, b),
    ensures
        a == b,
{
    let (ka, ta) = choose|keys: Seq<Seq<char>>, totals: Seq<u128>|
        {
            &&& #[trigger] is_folded(samples, weight, resolved, keys, totals)
            &&& a == before + vstd::utf8::encode_utf8(lines_text(keys, totals))
        };
    let (kb, tb) = choose|keys: Seq<Seq<char>>, totals: Seq<u128>|
        {
            &&& #[trigger] is_folded(samples, weight, resolved, keys, totals)
            &&& b == before + vstd::utf8::encode_utf8(lines_text(keys, totals))
        };
    assert forall|i: int| 0 <= i < ka.len() implies kb.contains(#[trigger] ka[i]) by {
        let s = choose|s: int| 0 <= s < samples.len() && by_text(resolved)(#[trigger] samples[s]) == ka[i];
        assert(kb.contains(stack_text(samples[s].stack, resolved)));
    }
    assert forall|i: int| 0 <= i < kb.len() implies ka.contains(#[trigger] kb[i]) by {
        let s = choose|s: int| 0 <= s < samples.len() && by_text(resolved)(#[trigger] samples[s]) == kb[i];
        assert(ka.contains(stack_text(samples[s].stack, resolved)));
    }
    order::ascending_is_unique::<Vec<char>>(ka, kb);
    assert(ta =~= tb);
}

/// A profile without samples writes nothing.
pub proof fn empty_profile_writes_nothing(
    weight: Weight,
    resolved: Map<usize, FrameView>,
    before: Seq<u8>,
    after: Seq<u8>,
)
    requires
        writes_folded(Seq::empty(), weight, resolved, before, after),
    ensures
        after == before,
{
    let (keys, totals) = choose|keys: Seq<Seq<char>>, totals: Seq<u128>|
        {
            &&& #[trigger] is_folded(Seq::empty(), weight, resolved, keys, totals)
            &&& after == before + vstd::utf8::encode_utf8(lines_text(keys, totals))
        };
    if keys.len() > 0 {
        assert(table::has_member(Seq::empty(), by_text(resolved), keys[0]));
    }
    assert(vstd::utf8::encode_utf8(lines_text(keys, totals)) =~= Seq::empty());
    assert(after =~= before);
}

/// The numbers on all lines add up to the bytes of all samples, where their
/// total fits the counter.
pub proof fn folded_totals(
    samples: Seq<SampleView>,
    weight: Weight,
    resolved: Map<usize, FrameView>,
    keys: Seq<Seq<char>>,
    totals: Seq<u128>,
)
    requires
        is_folded(samples, weight, resolved, keys, totals),
        profile::total_bytes(samples, weight) <= u128::MAX,
    ensures
        table::weigh(totals, |t: u128| t as nat) == profile::total_bytes(samples, weight),
{
    let f = by_text(resolved);
    let w = |s: SampleView| profile::sample_bytes(s, weight);
    order::ascending_is_distinct::<Vec<char>>(keys);
    assert forall|s: int| 0 <= s < samples.len() implies keys.contains(f(#[trigger] samples[s])) by {
        assert(keys.contains(stack_text(samples[s].stack, resolved)));
    }
    table::groups_partition(samples, f, keys, w);
    lines_weigh_their_groups(samples, weight, resolved, keys, totals);
}

/// Names for frames may merge lines, but they never change the total.
pub proof fn names_keep_the_total(
    samples: Seq<SampleView>,
    weight: Weight,
    resolved: Map<usize, FrameView>,
    keys: Seq<Seq<char>>,
    totals: Seq<u128>,
    raw_keys: Seq<Seq<char>>,
    raw_totals: Seq<u128>,
)
    requires
        is_folded(samples, weight, resolved, keys, totals),
        is_folded(samples, weight, Map::empty(), raw_keys, raw_totals),
        profile::total_bytes(samples, weight) <= u128::MAX,
    ensures
        table::weigh(totals, |t: u128| t as nat) == table::weigh(raw_totals, |t: u128| t as nat),
{
    folded_totals(samples, weight, resolved, keys, totals);
    folded_totals(samples, weight, Map::empty(), raw_keys, raw_totals);
}

proof fn lines_weigh_their_groups(
    samples: Seq<SampleView>,
    weight: Weight,
    resolved: Map<usize, FrameView>,
    keys: Seq<Seq<char>>,
    totals: Seq<u128>,
)
    requires
        totals.len() == keys.len(),
        forall|i: int|
            0 <= i < keys.len() ==> #[trigger] totals[i] == profile::capped(
                bytes_under(samples, weight, resolved, keys[i]),
            ),
    ensures
        ({
            let sum = table::weigh_groups(
                samples,
                by_text(resolved),
                keys,
                |s: SampleView| profile::sample_bytes(s, weight),
            );
            sum <= u128::MAX ==> table::weigh(totals, |t: u128| t as nat) == sum
        }),
    decreases keys.len(),
{
    if keys.len() > 0 {
        let fewer = keys.drop_last();
        assert forall|i: int| 0 <= i < fewer.len() implies #[trigger] totals.drop_last()[i]
            == profile::capped(bytes_under(samples, weight, resolved, fewer[i])) by {
            assert(totals[i] == profile::capped(bytes_under(samples, weight, resolved, keys[i])));
        }
        lines_weigh_their_groups(samples, weight, resolved, fewer, totals.drop_last());
        assert(totals[keys.len() - 1] == profile::capped(
            bytes_under(samples, weight, resolved, keys[keys.len() - 1]),
        ));
    }
}

/// How often a character occurs.
pub open spec fn occurrences(s: Seq<char>, c: char) -> nat {
    table::weigh(
        s,
        |x: char|
            if x == c {
                1nat
            } else {
                0nat
            },
    )
}

proof fn occurrences_add(a: Seq<char>, b: Seq<char>, c: char)
    ensures
        occurrences(a + b, c) == occurrences(a, c) + occurrences(b, c),
    decreases b.len(),
{
    if b.len() == 0 {
        assert(a + b =~= a);
    } else {
        assert((a + b).drop_last() =~= a + b.drop_last());
        occurrences_add(a, b.drop_last(), c);
    }
}

proof fn absent_occurs_never(s: Seq<char>, c: char)
    requires
        forall|i: int| 0 <= i < s.len() ==> #[trigger] s[i] != c,
    ensures
        occurrences(s, c) == 0,
    decreases s.len(),
{
    if s.len() > 0 {
        let shorter = s.drop_last();
        assert forall|i: int| 0 <= i < shorter.len() implies #[trigger] shorter[i] != c by {
            assert(shorter[i] == s[i]);
        }
        absent_occurs_never(shorter, c);
        assert(s[s.len() - 1] != c);
    }
}

proof fn frame_text_has_no_separator(address: usize, resolved: Map<usize, FrameView>)
    ensures
        occurrences(frame_text(address, resolved), ';') == 0,
        occurrences(frame_text(address, resolved), ' ') == 0,
{
    let s = frame_text(address, resolved);
    assert forall|i: int| 0 <= i < s.len() implies #[trigger] s[i] != ';' && s[i] != ' ' by {
        if hotspot::name_at(address, resolved) is None {
            text::hex_address_reads_back(address);
            if i < 2 {
                assert(s[i] == s.take(2)[i]);
            } else {
                assert(s[i] == s.skip(2)[i - 2]);
                assert(text::digit_value(s.skip(2)[i - 2], 16) is Some);
            }
        }
    }
    absent_occurs_never(s, ';');
    absent_occurs_never(s, ' ');
}

/// A key keeps its frames apart, whatever their names hold: it has no space,
/// and one `;` fewer than the stack has frames.
pub proof fn keys_keep_frames_apart(stack: Seq<usize>, resolved: Map<usize, FrameView>)
    ensures
        occurrences(stack_text(stack, resolved), ' ') == 0,
        stack.len() > 0 ==> occurrences(stack_text(stack, resolved), ';') == stack.len() - 1,
        stack.len() == 0 ==> stack_text(stack, resolved).len() == 0,
    decreases stack.len(),
{
    if stack.len() > 0 {
        let head = frame_text(stack[0], resolved);
        frame_text_has_no_separator(stack[0], resolved);
        if stack.len() > 1 {
            let outer = stack_text(stack.skip(1), resolved);
            keys_keep_frames_apart(stack.skip(1), resolved);
            occurrences_add(outer.push(';'), head, ';');
            occurrences_add(outer.push(';'), head, ' ');
            assert(outer.push(';').drop_last() =~= outer);
        }
    }
}

/// A stack with a frame has a key that is not empty, where known names are
/// not empty.
pub proof fn keys_are_not_empty(stack: Seq<usize>, resolved: Map<usize, FrameView>)
    requires
        stack.len() > 0,
        forall|a: usize| #[trigger]
            hotspot::name_at(a, resolved) is Some ==> hotspot::name_at(a, resolved)->0.len() > 0,
    ensures
        stack_text(stack, resolved).len() > 0,
{
    let head = frame_text(stack[0], resolved);
    if hotspot::name_at(stack[0], resolved) is None {
        text::hex_address_reads_back(stack[0]);
    }
    assert(head.len() > 0);
}

proof fn raw_key_length(stack: Seq<usize>)
    ensures
        stack.len() == 0 ==> stack_text(stack, Map::empty()).len() == 0,
        stack.len() > 0 ==> stack_text(stack, Map::empty()).len() == 19 * stack.len() - 1,
    decreases stack.len(),
{
    if stack.len() > 0 {
        text::hex_address_reads_back(stack[0]);
        raw_key_length(stack.skip(1));
    }
}

/// Rendered as addresses, different stacks have different keys: there is one
/// line per distinct stack.
pub proof fn raw_keys_tell_stacks_apart(a: Seq<usize>, b: Seq<usize>)
    requires
        stack_text(a, Map::empty()) == stack_text(b, Map::empty()),
    ensures
        a == b,
    decreases a.len(),
{
    let none = Map::<usize, FrameView>::empty();
    raw_key_length(a);
    raw_key_length(b);
    assert(a.len() == b.len());
    if a.len() > 0 {
        let s = stack_text(a, none);
        let fa = frame_text(a[0], none);
        let fb = frame_text(b[0], none);
        text::hex_address_reads_back(a[0]);
        text::hex_address_reads_back(b[0]);
        assert(s.skip(s.len() - 18) =~= fa);
        assert(s.skip(s.len() - 18) =~= fb);
        if a.len() > 1 {
            let oa = stack_text(a.skip(1), none);
            let ob = stack_text(b.skip(1), none);
            assert(s.take(s.len() - 19) =~= oa);
            assert(s.take(s.len() - 19) =~= ob);
            raw_keys_tell_stacks_apart(a.skip(1), b.skip(1));
            assert(a =~= seq![a[0]] + a.skip(1));
            assert(b =~= seq![b[0]] + b.skip(1));
        } else {
            assert(a =~= b);
        }
    } else {
        assert(a =~= b);
    }
}

/// A frame reads as its known name, with `_` for every `;` and every space and
/// no other change; without a known name it reads as its address.
pub proof fn frames_read_as_names_or_addresses(address: usize, resolved: Map<usize, FrameView>)
    ensures
        ({
            let s = frame_text(address, resolved);
            if resolved.contains_key(address) && resolved[address].name is Some {
                let name = resolved[address].name->0;
                &&& s.len() == name.len()
                &&& forall|i: int|
                    0 <= i < name.len() ==> {
                        &&& name[i] == ';' || name[i] == ' ' ==> #[trigger] s[i] == '_'
                        &&& name[i] != ';' && name[i] != ' ' ==> s[i] == name[i]
                    }
            } else {
                &&& s.len() == 18
                &&& s[0] == '0'
                &&& s[1] == 'x'
                &&& text::all_digits(s.skip(2), 16)
                &&& text::digits_value(s.skip(2), 16) == address
            }
        }),
{
    text::hex_address_reads_back(address);
    let hex = text::hex_address(address as nat);
    assert(hex.take(2)[0] == hex[0] && hex.take(2)[1] == hex[1]);
}

/// The key of a stack joins the keys of its parts by `;`, the outer part
/// first; a single frame reads as itself and no frames as nothing.
pub proof fn keys_join_parts_from_the_outside(
    inner: Seq<usize>,
    outer: Seq<usize>,
    frame: usize,
    resolved: Map<usize, FrameView>,
)
    ensures
        inner.len() > 0 && outer.len() > 0 ==> stack_text(inner + outer, resolved) == stack_text(
            outer,
            resolved,
        ) + seq![';'] + stack_text(inner, resolved),
        stack_text(seq![frame], resolved) == frame_text(frame, resolved),
        stack_text(Seq::empty(), resolved) == Seq::<char>::empty(),
    decreases inner.len(),
{
    let whole = inner + outer;
    if inner.len() == 1 && outer.len() > 0 {
        assert(whole.skip(1) =~= outer);
        assert(stack_text(whole, resolved) =~= stack_text(outer, resolved) + seq![';'] + stack_text(
            inner,
            resolved,
        ));
    } else if inner.len() > 1 && outer.len() > 0 {
        let rest = inner.skip(1);
        keys_join_parts_from_the_outside(rest, outer, frame, resolved);
        assert(whole.skip(1) =~= rest + outer);
        assert(stack_text(whole, resolved) =~= stack_text(outer, resolved) + seq![';'] + stack_text(
            inner,
            resolved,
        ));
    }
}

/// Keys are rendered as stacks read, and without names as addresses read.
pub proof fn keys_are_rendered(
    stack: &Vec<usize>,
    resolved: &HashMap<usize, ResolvedFrame>,
    key: Vec<char>,
    plain: Vec<char>,
)
    requires
        call_ensures(render_stack_key_symbolized, (stack, resolved), key),
        call_ensures(render_stack_key, (stack,), plain),
    ensures
        key@ == stack_text(stack@, symbols::frame_views(resolved@)),
        plain@ == stack_text(stack@, Map::empty()),
        resolved@ == Map::<usize, ResolvedFrame>::empty() ==> key@ == plain@,
{
    if resolved@ == Map::<usize, ResolvedFrame>::empty() {
        assert(symbols::frame_views(resolved@) =~= Map::<usize, FrameView>::empty());
    }
}

/// Lines come one after another, each a key, a space, a number in decimal
/// digits and a line end.
pub proof fn lines_come_one_after_another(
    ka: Seq<Seq<char>>,
    ta: Seq<u128>,
    kb: Seq<Seq<char>>,
    tb: Seq<u128>,
    key: Seq<char>,
    total: u128,
)
    requires
        ka.len() == ta.len(),
        kb.len() == tb.len(),
    ensures
        lines_text(ka + kb, ta + tb) == lines_text(ka, ta) + lines_text(kb, tb),
        lines_text(Seq::empty(), Seq::empty()) == Seq::<char>::empty(),
        exists|digits: Seq<char>| #[trigger]
            text::in_decimal(digits, total as nat) && lines_text(seq![key], seq![total]) == key + seq![
                ' ',
            ] + digits + seq!['\n'],
    decreases kb.len(),
{
    let digits = text::decimal(total as nat);
    text::decimals_are_digits(total as nat);
    assert(seq![key].drop_last() =~= Seq::empty());
    assert(lines_text(seq![key].drop_last(), seq![total].drop_last()) =~= Seq::empty());
    assert(lines_text(seq![key], seq![total]) =~= key + seq![' '] + digits + seq!['\n']);
    if kb.len() == 0 {
        assert(ka + kb =~= ka);
        assert(ta + tb =~= ta);
        assert(lines_text(ka, ta) + lines_text(kb, tb) =~= lines_text(ka, ta));
    } else {
        lines_come_one_after_another(ka, ta, kb.drop_last(), tb.drop_last(), key, total);
        assert((ka + kb).drop_last() =~= ka + kb.drop_last());
        assert((ta + tb).drop_last() =~= ta + tb.drop_last());
        assert(lines_text(ka + kb, ta + tb) =~= lines_text(ka, ta) + lines_text(kb, tb));
    }
}

/// A line's number is the sum of the bytes of the samples whose stack reads as
/// its key, as far as the counter reaches; there is such a sample, and every
/// sample has its line.
pub proof fn lines_tell_of_their_samples(
    samples: Seq<SampleView>,
    weight: Weight,
    resolved: Map<usize, FrameView>,
    keys: Seq<Seq<char>>,
    totals: Seq<u128>,
    i: int,
)
    requires
        is_folded(samples, weight, resolved, keys, totals),
        0 <= i < keys.len(),
    ensures
        ({
            let own = samples.filter(|s: SampleView| stack_text(s.stack, resolved) == keys[i]);
            let bytes = table::weigh(own, |s: SampleView| profile::sample_bytes(s, weight));
            &&& own.len() > 0
            &&& bytes <= u128::MAX ==> totals[i] == bytes
            &&& bytes > u128::MAX ==> totals[i] == u128::MAX
        }),
        totals.len() == keys.len(),
        forall|s: int|
            0 <= s < samples.len() ==> exists|k: int|
                0 <= k < keys.len() && #[trigger] keys[k] == stack_text(
                    (#[trigger] samples[s]).stack,
                    resolved,
                ),
{
    let f = by_text(resolved);
    let pick = |s: SampleView| stack_text(s.stack, resolved) == keys[i];
    table::picks_are_members(samples, f, keys[i], pick);
    let own = table::members(samples, f, keys[i]);
    assert(table::has_member(samples, f, keys[i]));
    let s = choose|s: int| 0 <= s < samples.len() && f(#[trigger] samples[s]) == keys[i];
    table::members_are_items(samples, f, keys[i], samples[s]);
    assert(own.contains(samples[s]));
    assert(totals[i] == profile::capped(bytes_under(samples, weight, resolved, keys[i])));
    assert forall|s: int| 0 <= s < samples.len() implies exists|k: int|
        0 <= k < keys.len() && #[trigger] keys[k] == stack_text((#[trigger] samples[s]).stack, resolved) by {
        assert(keys.contains(stack_text(samples[s].stack, resolved)));
        let k = choose|k: int| 0 <= k < keys.len() && keys[k] == stack_text(samples[s].stack, resolved);
        assert(keys[k] == stack_text(samples[s].stack, resolved));
    }
}

/// Lines stand in the order of their keys as texts, compared character by
/// character, and no key comes twice.
pub proof fn lines_stand_in_order(
    samples: Seq<SampleView>,
    weight: Weight,
    resolved: Map<usize, FrameView>,
    keys: Seq<Seq<char>>,
    totals: Seq<u128>,
    i: int,
    j: int,
)
    requires
        is_folded(samples, weight, resolved, keys, totals),
        0 <= i < j < keys.len(),
    ensures
        keys[i] != keys[j],
        exists|n: int|
            {
                &&& 0 <= n <= keys[i].len()
                &&& n < keys[j].len()
                &&& #[trigger] keys[i].take(n) == keys[j].take(n)
                &&& n == keys[i].len() || (keys[i][n] as int) < (keys[j][n] as int)
            },
{
    order::ascending_is_distinct::<Vec<char>>(keys);
    let a = keys[i];
    let b = keys[j];
    assert(<Vec<char> as order::SortKey>::before(a, b));
    let ca = order::codes(a);
    let cb = order::codes(b);
    let n = choose|n: int|
        #[trigger] order::agree(ca, cb, n) && n < cb.len() && (n == ca.len() || ca[n] < cb[n]);
    assert forall|k: int| 0 <= k < n implies a[k] == b[k] by {
        assert(ca[k] == cb[k]);
    }
    assert(a.take(n) =~= b.take(n));
}

/// Without names the lines are those that an empty table of names gives;
/// without a choice of bytes they tell of allocated bytes.
pub proof fn plain_lines_use_no_names(
    p: &HeapProfile,
    a: &mut Vec<u8>,
    b: &mut Vec<u8>,
    c: &mut Vec<u8>,
    d: &mut Vec<u8>,
    e: &mut Vec<u8>,
    weight: Weight,
    none: &HashMap<usize, ResolvedFrame>,
)
    requires
        none@ == Map::<usize, ResolvedFrame>::empty(),
        old(a)@ == old(b)@,
        old(c)@ == old(d)@,
        old(c)@ == old(e)@,
        call_ensures(HeapProfile::write_flamegraph_with, (p, weight, a), ()),
        call_ensures(HeapProfile::write_flamegraph_resolved, (p, weight, none, b), ()),
        call_ensures(HeapProfile::write_flamegraph, (p, c), ()),
        call_ensures(HeapProfile::write_flamegraph_raw, (p, d), ()),
        call_ensures(HeapProfile::write_flamegraph_with, (p, Weight::Allocated, e), ()),
    ensures
        final(a)@ == final(b)@,
        final(c)@ == final(d)@,
        final(c)@ == final(e)@,
{
    assert(symbols::frame_views(none@) =~= Map::<usize, FrameView>::empty());
    let samples = p@.samples;
    folded_is_unique(samples, weight, Map::empty(), old(a)@, final(a)@, final(b)@);
    folded_is_unique(samples, Weight::Allocated, Map::empty(), old(c)@, final(c)@, final(d)@);
    folded_is_unique(samples, Weight::Allocated, Map::empty(), old(c)@, final(c)@, final(e)@);
}

/// What is written is added behind what was there, and is the text of lines
/// that tell of the samples.
pub proof fn lines_are_appended(
    p: &HeapProfile,
    weight: Weight,
    resolved: &HashMap<usize, ResolvedFrame>,
    out: &mut Vec<u8>,
)
    requires
        call_ensures(HeapProfile::write_flamegraph_resolved, (p, weight, resolved, out), ()),
    ensures
        exists|keys: Seq<Seq<char>>, totals: Seq<u128>|
            {
                &&& #[trigger] is_folded(
                    p@.samples,
                    weight,
                    symbols::frame_views(resolved@),
                    keys,
                    totals,
                )
                &&& final(out)@ == old(out)@ + vstd::utf8::encode_utf8(lines_text(keys, totals))
            },
{
    assert(writes_folded(
        p@.samples,
        weight,
        symbols::frame_views(resolved@),
        old(out)@,
        final(out)@,
    ));
}

/// Lines with names that are looked up are those of the same profile with the
/// frames that the cache keeps for it, and tell of allocated bytes.
pub proof fn looked_up_lines_are_the_same(
    p: &HeapProfile,
    cache: &mut SymbolCache,
    out: &mut Vec<u8>,
    resolved: &HashMap<usize, ResolvedFrame>,
    same: &mut Vec<u8>,
)
    requires
        call_ensures(HeapProfile::write_flamegraph_symbolized, (p, cache, out), ()),
        call_ensures(
            HeapProfile::write_flamegraph_resolved,
            (p, Weight::Allocated, resolved, same),
            (),
        ),
        symbols::answers(
            symbols::frame_views(resolved@),
            symbols::frames_of(p@.samples),
            final(cache)@,
        ),
        old(same)@ == old(out)@,
    ensures
        final(same)@ == final(out)@,
{
    let known = symbols::frame_views(resolved@);
    let asked = symbols::frames_of(p@.samples);
    let other = choose|other: Map<usize, FrameView>|
        {
            &&& #[trigger] symbols::answers(other, asked, final(cache)@)
            &&& writes_folded(p@.samples, Weight::Allocated, other, old(out)@, final(out)@)
        };
    symbols::answers_are_unique(known, other, asked, final(cache)@);
    folded_is_unique(p@.samples, Weight::Allocated, known, old(out)@, final(out)@, final(same)@);
}

} // verus!

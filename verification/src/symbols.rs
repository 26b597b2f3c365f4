//! Names for code addresses.
use std::collections::{HashMap, HashSet};
use vstd::prelude::*;
use crate::intern;
use crate::order;
use crate::profile;
use crate::profile::{HeapProfile, SampleView};

verus! {

broadcast use vstd::std_specs::hash::group_hash_axioms;

/// The characters of an optional string.
pub open spec fn text_view(s: Option<String>) -> Option<Seq<char>> {
    match s {
        Some(t) => Some(t@),
        None => None,
    }
}

fn copy_text(s: &Option<String>) -> (copy: Option<String>)
    ensures
        text_view(copy) == text_view(*s),
{
    match s {
        Some(t) => Some(t.clone()),
        None => None,
    }
}

/// What a symbol backend reports of one symbol at an address.
#[derive(Debug)]
pub struct RawSymbol {
    pub name: Option<String>,
    pub file: Option<String>,
    pub line: Option<u32>,
}

#[verifier::ext_equal]
pub struct SymbolView {
    pub name: Option<Seq<char>>,
    pub file: Option<Seq<char>>,
    pub line: Option<u32>,
}

impl View for RawSymbol {
    type V = SymbolView;

    open spec fn view(&self) -> SymbolView {
        SymbolView { name: text_view(self.name), file: text_view(self.file), line: self.line }
    }
}

pub open spec fn symbol_views(symbols: Seq<RawSymbol>) -> Seq<SymbolView> {
    Seq::new(symbols.len(), |i: int| symbols[i]@)
}

/// One code address with what is known of it.
#[derive(Debug)]
pub struct ResolvedFrame {
    /// The code address.
    pub address: usize,
    /// Function name, where known.
    pub name: Option<String>,
    /// Source file, where known.
    pub file: Option<String>,
    /// Source line, counted from 1, where known.
    pub line: Option<u32>,
}

#[verifier::ext_equal]
pub struct FrameView {
    pub address: usize,
    pub name: Option<Seq<char>>,
    pub file: Option<Seq<char>>,
    pub line: Option<u32>,
}

impl View for ResolvedFrame {
    type V = FrameView;

    open spec fn view(&self) -> FrameView {
        FrameView {
            address: self.address,
            name: text_view(self.name),
            file: text_view(self.file),
            line: self.line,
        }
    }
}

impl Default for ResolvedFrame {
    fn default() -> (f: Self)
        ensures
            f@ == (FrameView { address: 0, name: None, file: None, line: None }),
    {
        ResolvedFrame { address: 0, name: None, file: None, line: None }
    }
}

impl Clone for ResolvedFrame {
    fn clone(&self) -> (copy: Self)
        ensures
            copy@ == self@,
    {
        ResolvedFrame {
            address: self.address,
            name: copy_text(&self.name),
            file: copy_text(&self.file),
            line: self.line,
        }
    }
}

/// The first value that is there.
pub open spec fn first_some<A>(s: Seq<Option<A>>) -> Option<A>
    decreases s.len(),
{
    if s.len() == 0 {
        None
    } else if s[0] is Some {
        s[0]
    } else {
        first_some(s.skip(1))
    }
}

proof fn first_some_push<A>(s: Seq<Option<A>>, x: Option<A>)
    ensures
        first_some(s.push(x)) == (if first_some(s) is Some {
            first_some(s)
        } else {
            x
        }),
    decreases s.len(),
{
    let longer = s.push(x);
    if s.len() == 0 {
        assert(longer.skip(1) =~= Seq::empty());
        assert(first_some(longer.skip(1)) is None);
    } else {
        assert(longer[0] == s[0]);
        assert(longer.skip(1) =~= s.skip(1).push(x));
        first_some_push(s.skip(1), x);
    }
}

/// A symbol's name, unless it is empty.
pub open spec fn proper_name(symbol: SymbolView) -> Option<Seq<char>> {
    match symbol.name {
        Some(n) => if n.len() > 0 {
            Some(n)
        } else {
            None
        },
        None => None,
    }
}

pub open spec fn names_of(symbols: Seq<SymbolView>) -> Seq<Option<Seq<char>>> {
    Seq::new(symbols.len(), |i: int| proper_name(symbols[i]))
}

pub open spec fn files_of(symbols: Seq<SymbolView>) -> Seq<Option<Seq<char>>> {
    Seq::new(symbols.len(), |i: int| symbols[i].file)
}

pub open spec fn lines_of(symbols: Seq<SymbolView>) -> Seq<Option<u32>> {
    Seq::new(symbols.len(), |i: int| symbols[i].line)
}

/// What the symbols at an address say of it together: the first non-empty
/// name, the first file and the first line.
pub open spec fn merged(address: usize, symbols: Seq<SymbolView>) -> FrameView {
    FrameView {
        address,
        name: first_some(names_of(symbols)),
        file: first_some(files_of(symbols)),
        line: first_some(lines_of(symbols)),
    }
}

/// A name that symbols agree on is never empty.
pub proof fn merged_names_are_not_empty(address: usize, symbols: Seq<SymbolView>)
    ensures
        merged(address, symbols).name is Some ==> merged(address, symbols).name->0.len() > 0,
{
    first_some_is_there(names_of(symbols));
    if first_some(names_of(symbols)) is Some {
        let i = choose|i: int|
            0 <= i < names_of(symbols).len() && #[trigger] names_of(symbols)[i] == first_some(
                names_of(symbols),
            );
        assert(names_of(symbols)[i] == proper_name(symbols[i]));
    }
}

/// An address that no symbol is reported for has no name, file or line.
pub proof fn unknown_addresses_stay_bare(address: usize)
    ensures
        merged(address, Seq::empty()) == (FrameView { address, name: None, file: None, line: None }),
{
    let none = Seq::<SymbolView>::empty();
    assert(names_of(none).len() == 0 && files_of(none).len() == 0 && lines_of(none).len() == 0);
}

proof fn first_some_is_there<A>(s: Seq<Option<A>>)
    ensures
        first_some(s) is Some ==> exists|i: int| 0 <= i < s.len() && #[trigger] s[i] == first_some(s),
    decreases s.len(),
{
    if s.len() > 0 {
        if s[0] is Some {
            assert(s[0] == first_some(s));
        } else {
            first_some_is_there(s.skip(1));
            if first_some(s) is Some {
                let i = choose|i: int|
                    0 <= i < s.skip(1).len() && #[trigger] s.skip(1)[i] == first_some(s.skip(1));
                assert(s[i + 1] == first_some(s));
            }
        }
    }
}

/// Combine the symbols at an address into one frame.
pub fn merge_symbols(address: usize, symbols: &Vec<RawSymbol>) -> (frame: ResolvedFrame)
    ensures
        frame@ == merged(address, symbol_views(symbols@)),
{
    let ghost all = symbol_views(symbols@);
    let mut frame = ResolvedFrame { address, name: None, file: None, line: None };
    for i in 0..symbols.len()
        invariant
            all == symbol_views(symbols@),
            frame@ == merged(address, all.take(i as int)),
    {
        let ghost had = all.take(i as int);
        let ghost now = all.take(i + 1);
        let symbol = &symbols[i];
        proof {
            assert(now =~= had.push(symbol@));
            assert(names_of(now) =~= names_of(had).push(proper_name(symbol@)));
            assert(files_of(now) =~= files_of(had).push(symbol@.file));
            assert(lines_of(now) =~= lines_of(had).push(symbol@.line));
            first_some_push(names_of(had), proper_name(symbol@));
            first_some_push(files_of(had), symbol@.file);
            first_some_push(lines_of(had), symbol@.line);
        }
        if frame.name.is_none() {
            if let Some(name) = &symbol.name {
                if !name.as_str().is_empty() {
                    frame.name = Some(name.clone());
                }
            }
        }
        if frame.file.is_none() {
            frame.file = copy_text(&symbol.file);
        }
        if frame.line.is_none() {
            frame.line = symbol.line;
        }
    }
    assert(all.take(all.len() as int) =~= all);
    frame
}

fn raw_symbol(name: Option<String>, file: Option<String>, line: Option<u32>) -> (s: RawSymbol)
    ensures
        s@ == (SymbolView { name: text_view(name), file: text_view(file), line }),
{
    RawSymbol { name, file, line }
}

/// The symbols that [`backtrace::resolve`] reports for a code address, in
/// the order in which it reports them: each with its demangled name, its
/// file where the path is UTF-8, and its line.
///
/// What is reported depends on the running program and on its debug
/// information, so nothing is promised of it.
#[verifier::external_body]
fn raw_symbols(address: usize) -> (symbols: Vec<RawSymbol>) {
    let mut symbols = Vec::new();
    backtrace::resolve(std::ptr::with_exposed_provenance_mut(address), |sym| {
        symbols.push(raw_symbol(
            sym.name().map(|n| format!("{}", n)),
            sym.filename().and_then(|p| p.to_str()).map(String::from),
            sym.lineno(),
        ))
    });
    symbols
}

/// Ask for the symbols at an address and combine them into one frame.
fn resolve_with<F: Fn(usize) -> Vec<RawSymbol>>(address: usize, ask: F) -> (frame: ResolvedFrame)
    requires
        call_requires(ask, (address,)),
    ensures
        exists|symbols: Vec<RawSymbol>| #[trigger]
            call_ensures(ask, (address,), symbols) && frame@ == merged(
                address,
                symbol_views(symbols@),
            ),
{
    let symbols = ask(address);
    merge_symbols(address, &symbols)
}

/// The running program, asked for the symbols at an address, may report these.
pub closed spec fn reported(address: usize, symbols: Seq<SymbolView>) -> bool {
    exists|raw: Vec<RawSymbol>| #[trigger]
        call_ensures(raw_symbols, (address,), raw) && symbol_views(raw@) == symbols
}

/// Look up one code address in the running program: what is known of it is
/// what the symbols reported for this address say together.
pub fn resolve_one(address: usize) -> (frame: ResolvedFrame)
    ensures
        exists|symbols: Seq<SymbolView>|
            reported(address, symbols) && frame@ == #[trigger] merged(address, symbols),
{
    resolve_with(address, raw_symbols)
}

/// What is known of a set of code addresses.
pub open spec fn frame_views(frames: Map<usize, ResolvedFrame>) -> Map<usize, FrameView> {
    frames.map_values(|f: ResolvedFrame| f@)
}

/// Every frame stands under its own address.
pub open spec fn keyed_by_address(frames: Map<usize, FrameView>) -> bool {
    forall|a: usize| #[trigger] frames.contains_key(a) ==> frames[a].address == a
}

/// Frames looked up so far, each under its own address. An address keeps the
/// answer that it got first.
pub struct SymbolCache {
    frames: HashMap<usize, ResolvedFrame>,
}

impl View for SymbolCache {
    type V = Map<usize, FrameView>;

    closed spec fn view(&self) -> Map<usize, FrameView> {
        frame_views(self.frames@)
    }
}

impl SymbolCache {
    #[verifier::type_invariant]
    spec fn inv(self) -> bool {
        keyed_by_address(self@)
    }

    pub fn new() -> (cache: Self)
        ensures
            cache@ == Map::<usize, FrameView>::empty(),
    {
        let cache = SymbolCache { frames: HashMap::new() };
        assert(cache@ =~= Map::<usize, FrameView>::empty());
        cache
    }

    /// The frame kept for an address.
    pub fn get(&self, address: usize) -> (frame: Option<&ResolvedFrame>)
        ensures
            match frame {
                Some(f) => {
                    &&& self@.contains_key(address)
                    &&& self@[address] == f@
                    &&& f@.address == address
                },
                None => !self@.contains_key(address),
            },
    {
        proof {
            use_type_invariant(self);
            assert(self@.contains_key(address) == self.frames@.contains_key(address));
        }
        self.frames.get(&address)
    }

    /// Keep `fresh`, the frame of an address, unless the address has a frame
    /// already; return the frame that is kept.
    pub fn record(&mut self, address: usize, fresh: ResolvedFrame) -> (frame: ResolvedFrame)
        requires
            fresh@.address == address,
        ensures
            frame@.address == address,
            old(self)@.contains_key(address) ==> {
                &&& frame@ == old(self)@[address]
                &&& final(self)@ == old(self)@
            },
            !old(self)@.contains_key(address) ==> {
                &&& frame@ == fresh@
                &&& final(self)@ == old(self)@.insert(address, fresh@)
            },
    {
        proof {
            use_type_invariant(&*self);
        }
        if let Some(known) = self.get(address) {
            return known.clone();
        }
        let frame = fresh.clone();
        let mut frames: HashMap<usize, ResolvedFrame> = HashMap::new();
        assert(frame_views(frames@) =~= Map::<usize, FrameView>::empty());
        std::mem::swap(&mut frames, &mut self.frames);
        frames.insert(address, fresh);
        assert(frame_views(frames@) =~= old(self)@.insert(address, fresh@));
        self.frames = frames;
        frame
    }

    /// The frame of an address: the one kept, or else one looked up now and
    /// kept from then on.
    pub fn resolve(&mut self, address: usize) -> (frame: ResolvedFrame)
        ensures
            frame@.address == address,
            old(self)@.contains_key(address) ==> {
                &&& frame@ == old(self)@[address]
                &&& final(self)@ == old(self)@
            },
            !old(self)@.contains_key(address) ==> {
                &&& exists|symbols: Seq<SymbolView>|
                    reported(address, symbols) && frame@ == #[trigger] merged(address, symbols)
                &&& final(self)@ == old(self)@.insert(address, frame@)
            },
    {
        if let Some(known) = self.get(address) {
            return known.clone();
        }
        let fresh = resolve_one(address);
        self.record(address, fresh)
    }

    /// Forget every frame.
    pub fn clear(&mut self)
        ensures
            final(self)@ == Map::<usize, FrameView>::empty(),
    {
        let none: HashMap<usize, ResolvedFrame> = HashMap::new();
        assert(frame_views(none@) =~= Map::<usize, FrameView>::empty());
        self.frames = none;
    }
}

/// Forget every frame, so that each address is looked up anew.
pub fn clear_symbol_cache(cache: &mut SymbolCache)
    ensures
        final(cache)@ == Map::<usize, FrameView>::empty(),
{
    cache.clear();
}

/// `address` occurs in the stack of some sample.
pub open spec fn has_frame(samples: Seq<SampleView>, address: usize) -> bool {
    exists|i: int| 0 <= i < samples.len() && (#[trigger] samples[i]).stack.contains(address)
}

/// The addresses that occur in stacks.
pub open spec fn frames_of(samples: Seq<SampleView>) -> spec_fn(usize) -> bool {
    |a: usize| has_frame(samples, a)
}

/// `resolved` answers for exactly the given addresses, each under its own
/// address, with what `known` keeps for them.
pub open spec fn answers(
    resolved: Map<usize, FrameView>,
    asked: spec_fn(usize) -> bool,
    known: Map<usize, FrameView>,
) -> bool {
    &&& forall|a: usize| #[trigger] resolved.contains_key(a) <==> asked(a)
    &&& forall|a: usize|
        #[trigger] resolved.contains_key(a) ==> known.contains_key(a) && resolved[a] == known[a]
    &&& keyed_by_address(resolved)
}

/// `later` keeps every frame of `earlier`, and each frame that it adds was
/// looked up at its own address, among the addresses asked for.
pub open spec fn extends(
    earlier: Map<usize, FrameView>,
    later: Map<usize, FrameView>,
    asked: spec_fn(usize) -> bool,
) -> bool {
    &&& forall|a: usize| #[trigger]
        earlier.contains_key(a) ==> later.contains_key(a) && later[a] == earlier[a]
    &&& forall|a: usize| #[trigger]
        later.contains_key(a) && !earlier.contains_key(a) ==> asked(a) && exists|symbols: Seq<SymbolView>|
            reported(a, symbols) && later[a] == #[trigger] merged(a, symbols)
}

impl HeapProfile {
    /// The code addresses of the profile: each that occurs in a stack, once.
    #[verifier::rlimit(40)]
    pub fn frame_addresses(&self) -> (addresses: Vec<usize>)
        ensures
            order::distinct(addresses@),
            forall|a: usize| #[trigger] addresses@.contains(a) <==> has_frame(self@.samples, a),
    {
        let samples = self.samples();
        let ghost views = self@.samples;
        let mut addresses: Vec<usize> = Vec::new();
        let mut seen: HashSet<usize> = HashSet::new();
        let mut i: usize = 0;
        while i < samples.len()
            invariant
                views == profile::sample_views(samples@),
                i <= samples.len(),
                order::distinct(addresses@),
                forall|a: usize| #[trigger] seen@.contains(a) <==> addresses@.contains(a),
                forall|a: usize| #[trigger]
                    addresses@.contains(a) <==> has_frame(views.take(i as int), a),
            decreases samples.len() - i,
        {
            let stack = &samples[i].stack;
            let ghost done = views.take(i as int);
            let mut j: usize = 0;
            assert(views[i as int].stack == stack@);
            while j < stack.len()
                invariant
                    j <= stack.len(),
                    order::distinct(addresses@),
                    forall|a: usize| #[trigger] seen@.contains(a) <==> addresses@.contains(a),
                    forall|a: usize| #[trigger]
                        addresses@.contains(a) <==> has_frame(done, a) || stack@.take(
                            j as int,
                        ).contains(a),
                decreases stack.len() - j,
            {
                let address: usize = stack[j];
                let ghost had = addresses@;
                proof {
                    intern::interned_distinct(had, address);
                    assert(stack@.take(j + 1) =~= stack@.take(j as int).push(address));
                }
                if !seen.contains(&address) {
                    seen.insert(address);
                    addresses.push(address);
                }
                proof {
                    assert(addresses@ == intern::interned(had, address));
                    assert forall|a: usize| #[trigger]
                        addresses@.contains(a) <==> has_frame(done, a) || stack@.take(
                            j + 1,
                        ).contains(a) by {
                        intern::interned_members(had, address, a);
                        vstd::seq_lib::lemma_seq_contains_after_push(
                            stack@.take(j as int),
                            address,
                            a,
                        );
                    }
                    assert forall|a: usize| #[trigger]
                        seen@.contains(a) <==> addresses@.contains(a) by {
                        intern::interned_members(had, address, a);
                    }
                }
                j = j + 1;
            }
            proof {
                assert(stack@.take(stack@.len() as int) =~= stack@);
                assert forall|a: usize| #[trigger]
                    addresses@.contains(a) <==> has_frame(views.take(i + 1), a) by {
                    has_frame_push(done, views[i as int], a);
                    assert(views.take(i + 1) =~= done.push(views[i as int]));
                }
            }
            i = i + 1;
        }
        assert(views.take(views.len() as int) =~= views);
        addresses
    }

    /// Look up every code address of the profile. The result has an entry
    /// for each address that occurs in a stack and for no other.
    pub fn symbolize(&self, cache: &mut SymbolCache) -> (resolved: HashMap<usize, ResolvedFrame>)
        ensures
            answers(frame_views(resolved@), frames_of(self@.samples), final(cache)@),
            extends(old(cache)@, final(cache)@, frames_of(self@.samples)),
    {
        let addresses = self.frame_addresses();
        let ghost asked = frames_of(self@.samples);
        let mut resolved: HashMap<usize, ResolvedFrame> = HashMap::new();
        assert(frame_views(resolved@) =~= Map::<usize, FrameView>::empty());
        for i in 0..addresses.len()
            invariant
                forall|a: usize| #[trigger] addresses@.contains(a) <==> asked(a),
                answers(
                    frame_views(resolved@),
                    |a: usize| addresses@.take(i as int).contains(a),
                    cache@,
                ),
                extends(old(cache)@, cache@, asked),
        {
            let address: usize = addresses[i];
            let ghost before = resolved@;
            assert(addresses@.contains(address));
            let frame = cache.resolve(address);
            resolved.insert(address, frame);
            proof {
                assert(frame_views(resolved@) =~= frame_views(before).insert(address, frame@));
                assert(addresses@.take(i + 1) =~= addresses@.take(i as int).push(address));
                assert forall|a: usize| #[trigger]
                    addresses@.take(i + 1).contains(a) <==> addresses@.take(i as int).contains(a) || a
                        == address by {
                    vstd::seq_lib::lemma_seq_contains_after_push(
                        addresses@.take(i as int),
                        address,
                        a,
                    );
                }
            }
        }
        assert(addresses@.take(addresses@.len() as int) =~= addresses@);
        resolved
    }
}

proof fn has_frame_push(samples: Seq<SampleView>, s: SampleView, address: usize)
    ensures
        has_frame(samples.push(s), address) <==> has_frame(samples, address) || s.stack.contains(
            address,
        ),
{
    let now = samples.push(s);
    if has_frame(samples, address) {
        let k = choose|k: int|
            0 <= k < samples.len() && (#[trigger] samples[k]).stack.contains(address);
        assert(now[k].stack.contains(address));
    }
    if s.stack.contains(address) {
        assert(now[samples.len() as int].stack.contains(address));
    }
    if has_frame(now, address) {
        let k = choose|k: int| 0 <= k < now.len() && (#[trigger] now[k]).stack.contains(address);
        if k < samples.len() {
            assert(samples[k].stack.contains(address));
        }
    }
}

/// A profile without samples has no frames to look up: nothing is found, and
/// the cache stays as it is.
pub proof fn empty_profile_looks_nothing_up(
    resolved: Map<usize, FrameView>,
    before: Map<usize, FrameView>,
    after: Map<usize, FrameView>,
)
    requires
        answers(resolved, frames_of(Seq::empty()), after),
        extends(before, after, frames_of(Seq::empty())),
    ensures
        resolved == Map::<usize, FrameView>::empty(),
        after == before,
{
    assert forall|a: usize| !(#[trigger] resolved.contains_key(a)) by {
        assert(resolved.contains_key(a) <==> frames_of(Seq::empty())(a));
    }
    assert(resolved =~= Map::<usize, FrameView>::empty());
    assert forall|a: usize| after.contains_key(a) <==> before.contains_key(a) by {
        if after.contains_key(a) && !before.contains_key(a) {
            assert(frames_of(Seq::empty())(a));
        }
    }
    assert(after =~= before);
}

/// Once a profile was looked up, looking it up again gives the same frames
/// and leaves the cache as it is.
pub proof fn lookups_are_stable(
    samples: Seq<SampleView>,
    start: Map<usize, FrameView>,
    first: Map<usize, FrameView>,
    middle: Map<usize, FrameView>,
    second: Map<usize, FrameView>,
    end: Map<usize, FrameView>,
)
    requires
        answers(first, frames_of(samples), middle),
        extends(start, middle, frames_of(samples)),
        answers(second, frames_of(samples), end),
        extends(middle, end, frames_of(samples)),
    ensures
        second == first,
        end == middle,
{
    assert forall|a: usize| end.contains_key(a) <==> middle.contains_key(a) by {
        if end.contains_key(a) && !middle.contains_key(a) {
            assert(frames_of(samples)(a));
            assert(first.contains_key(a));
        }
    }
    assert(end =~= middle);
    assert forall|a: usize| first.contains_key(a) <==> second.contains_key(a) by {
        assert(first.contains_key(a) <==> frames_of(samples)(a));
    }
    assert(second =~= first);
}

/// The first symbol whose value is there decides.
proof fn first_some_is_first<A>(s: Seq<Option<A>>, i: int)
    requires
        0 <= i < s.len(),
        s[i] is Some,
        forall|j: int| 0 <= j < i ==> #[trigger] s[j] is None,
    ensures
        first_some(s) == s[i],
    decreases s.len(),
{
    if i > 0 {
        assert(s[0] is None);
        let rest = s.skip(1);
        assert forall|j: int| 0 <= j < i - 1 implies #[trigger] rest[j] is None by {
            assert(rest[j] == s[j + 1]);
        }
        first_some_is_first(rest, i - 1);
    }
}

/// A frame keeps its address and takes its name from the first symbol that has
/// one that is not empty, and its file and its line each from the first symbol
/// that has one; what no symbol has it does not have.
pub proof fn the_first_symbol_decides(
    address: usize,
    symbols: &Vec<RawSymbol>,
    frame: ResolvedFrame,
    i: int,
)
    requires
        call_ensures(merge_symbols, (address, symbols), frame),
        0 <= i < symbols@.len(),
    ensures
        ({
            let all = symbol_views(symbols@);
            &&& frame@.address == address
            &&& all[i].name is Some && all[i].name->0.len() > 0 && (forall|j: int|
                0 <= j < i ==> (#[trigger] all[j]).name is None || all[j].name->0.len() == 0)
                ==> frame@.name == all[i].name
            &&& all[i].file is Some && (forall|j: int|
                0 <= j < i ==> (#[trigger] all[j]).file is None) ==> frame@.file == all[i].file
            &&& all[i].line is Some && (forall|j: int|
                0 <= j < i ==> (#[trigger] all[j]).line is None) ==> frame@.line == all[i].line
            &&& (forall|j: int|
                0 <= j < all.len() ==> (#[trigger] all[j]).name is None || all[j].name->0.len() == 0)
                ==> frame@.name is None
            &&& (forall|j: int| 0 <= j < all.len() ==> (#[trigger] all[j]).file is None)
                ==> frame@.file is None
            &&& (forall|j: int| 0 <= j < all.len() ==> (#[trigger] all[j]).line is None)
                ==> frame@.line is None
        }),
{
    let all = symbol_views(symbols@);
    let names = names_of(all);
    let files = files_of(all);
    let lines = lines_of(all);
    if all[i].name is Some && all[i].name->0.len() > 0 && (forall|j: int|
        0 <= j < i ==> (#[trigger] all[j]).name is None || all[j].name->0.len() == 0) {
        assert forall|j: int| 0 <= j < i implies #[trigger] names[j] is None by {
            assert(names[j] == proper_name(all[j]));
        }
        first_some_is_first(names, i);
    }
    if all[i].file is Some && (forall|j: int| 0 <= j < i ==> (#[trigger] all[j]).file is None) {
        assert forall|j: int| 0 <= j < i implies #[trigger] files[j] is None by {
            assert(files[j] == all[j].file);
        }
        first_some_is_first(files, i);
    }
    if all[i].line is Some && (forall|j: int| 0 <= j < i ==> (#[trigger] all[j]).line is None) {
        assert forall|j: int| 0 <= j < i implies #[trigger] lines[j] is None by {
            assert(lines[j] == all[j].line);
        }
        first_some_is_first(lines, i);
    }
    first_some_is_there(names);
    first_some_is_there(files);
    first_some_is_there(lines);
    if first_some(names) is Some {
        let k = choose|k: int| 0 <= k < names.len() && #[trigger] names[k] == first_some(names);
        assert(names[k] == proper_name(all[k]));
    }
    if first_some(files) is Some {
        let k = choose|k: int| 0 <= k < files.len() && #[trigger] files[k] == first_some(files);
        assert(files[k] == all[k].file);
    }
    if first_some(lines) is Some {
        let k = choose|k: int| 0 <= k < lines.len() && #[trigger] lines[k] == first_some(lines);
        assert(lines[k] == all[k].line);
    }
}

/// An address keeps the answer that it got first: asking again gives the same
/// frame and changes nothing, whatever else was asked or offered in between.
pub proof fn answers_are_kept(
    a: &mut SymbolCache,
    b: &mut SymbolCache,
    c: &mut SymbolCache,
    address: usize,
    other: usize,
    fresh: ResolvedFrame,
    first: ResolvedFrame,
    between: ResolvedFrame,
    again: ResolvedFrame,
)
    requires
        call_ensures(SymbolCache::resolve, (a, address), first),
        call_ensures(SymbolCache::record, (b, other, fresh), between),
        call_ensures(SymbolCache::resolve, (c, address), again),
        old(b)@ == final(a)@,
        old(c)@ == final(b)@,
    ensures
        again@ == first@,
        first@.address == address,
        final(c)@ == old(c)@,
        final(a)@.contains_key(address),
        final(a)@[address] == first@,
        forall|x: usize| #[trigger] old(a)@.contains_key(x) ==> final(c)@.contains_key(x) && final(c)@[x]
            == old(a)@[x],
{
    assert(final(a)@.contains_key(address) && final(a)@[address] == first@);
    assert(final(b)@.contains_key(address) && final(b)@[address] == first@);
}

/// A new cache and a cleared cache keep nothing.
pub proof fn cleared_caches_keep_nothing(
    fresh: SymbolCache,
    a: &mut SymbolCache,
    b: &mut SymbolCache,
    address: usize,
)
    requires
        call_ensures(SymbolCache::new, (), fresh),
        call_ensures(SymbolCache::clear, (a,), ()),
        call_ensures(clear_symbol_cache, (b,), ()),
    ensures
        !fresh@.contains_key(address),
        !final(a)@.contains_key(address),
        !final(b)@.contains_key(address),
{
}

/// Every frame of every stack is among the addresses of a profile.
pub proof fn every_frame_has_its_address(p: &HeapProfile, addresses: Vec<usize>, i: int, j: int)
    requires
        call_ensures(HeapProfile::frame_addresses, (p,), addresses),
        0 <= i < p@.samples.len(),
        0 <= j < p@.samples[i].stack.len(),
    ensures
        addresses@.contains(p@.samples[i].stack[j]),
{
    let samples = p@.samples;
    assert(samples[i].stack.contains(samples[i].stack[j]));
    assert(has_frame(samples, samples[i].stack[j]));
}

/// The addresses of a profile stand in stacks, and none comes twice.
pub proof fn addresses_are_those_in_stacks(p: &HeapProfile, addresses: Vec<usize>, k: int)
    requires
        call_ensures(HeapProfile::frame_addresses, (p,), addresses),
        0 <= k < addresses@.len(),
    ensures
        exists|i: int|
            0 <= i < p@.samples.len() && (#[trigger] p@.samples[i]).stack.contains(addresses@[k]),
        forall|l: int| 0 <= l < addresses@.len() && l != k ==> #[trigger] addresses@[l] != addresses@[k],
{
    let samples = p@.samples;
    assert(addresses@.contains(addresses@[k]));
    assert(has_frame(samples, addresses@[k]));
    assert forall|l: int| 0 <= l < addresses@.len() && l != k implies #[trigger] addresses@[l]
        != addresses@[k] by {
        if l < k {
            assert(addresses@[l] != addresses@[k]);
        } else {
            assert(addresses@[k] != addresses@[l]);
        }
    }
}

/// Looking a profile up gives a frame for each address that stands in a stack
/// and for no other, each under its own address and as the cache keeps it.
pub proof fn profiles_are_looked_up_whole(
    p: &HeapProfile,
    cache: &mut SymbolCache,
    resolved: HashMap<usize, ResolvedFrame>,
    a: usize,
)
    requires
        call_ensures(HeapProfile::symbolize, (p, cache), resolved),
    ensures
        resolved@.contains_key(a) <==> exists|i: int|
            0 <= i < p@.samples.len() && (#[trigger] p@.samples[i]).stack.contains(a),
        resolved@.contains_key(a) ==> {
            &&& resolved@[a].address == a
            &&& final(cache)@.contains_key(a)
            &&& final(cache)@[a] == resolved@[a]@
        },
        old(cache)@.contains_key(a) ==> final(cache)@.contains_key(a) && final(cache)@[a] == old(cache)@[a],
        final(cache)@.contains_key(a) ==> old(cache)@.contains_key(a) || resolved@.contains_key(a),
{
    let views = frame_views(resolved@);
    assert(answers(views, frames_of(p@.samples), final(cache)@));
    assert(views.contains_key(a) <==> resolved@.contains_key(a));
    assert(frames_of(p@.samples)(a) == has_frame(p@.samples, a));
}

/// There is one table of frames that answers for given addresses as a cache
/// keeps them.
pub proof fn answers_are_unique(
    a: Map<usize, FrameView>,
    b: Map<usize, FrameView>,
    asked: spec_fn(usize) -> bool,
    known: Map<usize, FrameView>,
)
    requires
        answers(a, asked, known),
        answers(b, asked, known),
    ensures
        a == b,
{
    assert forall|x: usize| a.contains_key(x) <==> b.contains_key(x) by {
        assert(a.contains_key(x) <==> asked(x));
    }
    assert(a =~= b);
}

/// What is seen of a frame and of a symbol are their fields; a new frame has
/// none, and a copy of a frame has the same.
pub proof fn frames_are_seen_by_their_fields(
    f: &ResolvedFrame,
    copy: ResolvedFrame,
    fresh: ResolvedFrame,
    symbol: RawSymbol,
)
    requires
        call_ensures(<ResolvedFrame as Clone>::clone, (f,), copy),
        call_ensures(<ResolvedFrame as Default>::default, (), fresh),
    ensures
        f@.address == f.address,
        f@.line == f.line,
        f@.name is Some <==> f.name is Some,
        f.name is Some ==> f@.name->0 == f.name->0@,
        f@.file is Some <==> f.file is Some,
        f.file is Some ==> f@.file->0 == f.file->0@,
        copy@ == f@,
        fresh.address == 0 && fresh.name is None && fresh.file is None && fresh.line is None,
        symbol@.line == symbol.line,
        symbol@.name is Some <==> symbol.name is Some,
        symbol.name is Some ==> symbol@.name->0 == symbol.name->0@,
        symbol@.file is Some <==> symbol.file is Some,
        symbol.file is Some ==> symbol@.file->0 == symbol.file->0@,
{
    assert(fresh@.name is None && fresh@.file is None);
}

/// A cache gives back the frame that it keeps for an address, and none where
/// it keeps none; a frame that was looked up is kept.
pub proof fn kept_frames_are_given_back(
    cache: &mut SymbolCache,
    address: usize,
    frame: ResolvedFrame,
    after: &SymbolCache,
    kept: Option<&ResolvedFrame>,
    other: usize,
    others: Option<&ResolvedFrame>,
)
    requires
        call_ensures(SymbolCache::resolve, (cache, address), frame),
        after@ == final(cache)@,
        call_ensures(SymbolCache::get, (after, address), kept),
        call_ensures(SymbolCache::get, (after, other), others),
    ensures
        kept is Some,
        kept->0@ == frame@,
        kept->0.address == address,
        other != address && !old(cache)@.contains_key(other) ==> others is None,
        old(cache)@.contains_key(other) ==> others is Some && others->0@ == old(cache)@[other],
{
}

/// A frame that is looked up has the address that was asked for and no empty
/// name.
pub proof fn frames_are_of_the_address_asked_for(address: usize, frame: ResolvedFrame)
    requires
        call_ensures(resolve_one, (address,), frame),
    ensures
        frame.address == address,
        frame.name is Some ==> frame.name->0@.len() > 0,
{
    let symbols = choose|symbols: Seq<SymbolView>|
        reported(address, symbols) && frame@ == #[trigger] merged(address, symbols);
    merged_names_are_not_empty(address, symbols);
    assert(frame@.name == text_view(frame.name));
}

/// What the running program reports when it is asked for an address is what
/// counts as reported for that address.
proof fn reports_are_of_the_address(address: usize, raw: Vec<RawSymbol>)
    requires
        call_ensures(raw_symbols, (address,), raw),
    ensures
        reported(address, symbol_views(raw@)),
{
}

/// A frame that a cache adds, for one address or for a whole profile, is what
/// the symbols say together that were reported for its own address.
pub proof fn added_frames_were_reported(
    one: &mut SymbolCache,
    address: usize,
    frame: ResolvedFrame,
    p: &HeapProfile,
    cache: &mut SymbolCache,
    resolved: HashMap<usize, ResolvedFrame>,
    a: usize,
)
    requires
        call_ensures(SymbolCache::resolve, (one, address), frame),
        call_ensures(HeapProfile::symbolize, (p, cache), resolved),
    ensures
        !old(one)@.contains_key(address) ==> exists|symbols: Seq<SymbolView>|
            reported(address, symbols) && frame@ == #[trigger] merged(address, symbols),
        old(one)@.contains_key(address) ==> frame@ == old(one)@[address],
        resolved@.contains_key(a) && !old(cache)@.contains_key(a) ==> exists|symbols: Seq<SymbolView>|
            reported(a, symbols) && resolved@[a]@ == #[trigger] merged(a, symbols),
        resolved@.contains_key(a) && old(cache)@.contains_key(a) ==> resolved@[a]@ == old(cache)@[a],
{
    let views = frame_views(resolved@);
    assert(answers(views, frames_of(p@.samples), final(cache)@));
    assert(extends(old(cache)@, final(cache)@, frames_of(p@.samples)));
    if resolved@.contains_key(a) {
        assert(views.contains_key(a) && views[a] == resolved@[a]@);
        assert(final(cache)@.contains_key(a) && final(cache)@[a] == views[a]);
    }
}

} // verus!

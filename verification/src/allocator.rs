//! The sampler's control state, and what the allocator reports.
use vstd::prelude::*;
use crate::config;
use crate::config::{resolve_rate_from_env, ProfileConfig, DEFAULT_SAMPLING_RATE_BYTES};
use crate::profile;
use crate::profile::{BtSample, HeapProfile, SampleView};

verus! {

/// The sampler of an allocator. Where the allocator was built without
/// profiling, the sampling interval is always 0.
pub struct SnMalloc {
    supported: bool,
    rate: usize,
}

/// Whether profiling is there, and the sampling interval in bytes.
pub struct SamplerView {
    pub supported: bool,
    pub rate: usize,
}

impl View for SnMalloc {
    type V = SamplerView;

    closed spec fn view(&self) -> SamplerView {
        SamplerView { supported: self.supported, rate: self.rate }
    }
}

/// The interval that a sampler has after one was asked for.
pub open spec fn effective_rate(supported: bool, bytes: nat) -> nat {
    if supported {
        bytes
    } else {
        0
    }
}

/// A sampler before and after it took what the environment asks for. It stays
/// as it is where nothing is asked for.
pub open spec fn initializes(
    before: SamplerView,
    rate: Option<Seq<char>>,
    enable: Option<Seq<char>>,
    after: SamplerView,
) -> bool {
    match config::env_rate(rate, enable) {
        Some(r) => {
            &&& after.supported == before.supported
            &&& after.rate == effective_rate(before.supported, r)
        },
        None => after == before,
    }
}

/// One sample as the allocator reports it: a fixed number of frames, of which
/// the first `stack_depth` were captured.
#[derive(Debug)]
pub struct RawSample {
    pub alloc_ptr: usize,
    pub requested_size: usize,
    pub allocated_size: usize,
    pub weight: usize,
    pub stack_depth: usize,
    pub stack: Vec<usize>,
    pub kind: u8,
}

/// The sample that a report stands for.
pub open spec fn raw_view(raw: RawSample) -> SampleView {
    SampleView {
        alloc_ptr: raw.alloc_ptr,
        requested_size: raw.requested_size,
        allocated_size: raw.allocated_size,
        weight: raw.weight,
        stack: if raw.stack_depth <= raw.stack@.len() {
            raw.stack@.take(raw.stack_depth as int)
        } else {
            raw.stack@
        },
    }
}

/// The samples that could be read, in order.
pub open spec fn readable(slots: Seq<Option<RawSample>>) -> Seq<SampleView>
    decreases slots.len(),
{
    if slots.len() == 0 {
        Seq::empty()
    } else {
        let earlier = readable(slots.drop_last());
        match slots.last() {
            Some(raw) => earlier.push(raw_view(raw)),
            None => earlier,
        }
    }
}

/// The samples of a snapshot. Without profiling there are none.
pub open spec fn snapshot_samples(supported: bool, slots: Seq<Option<RawSample>>) -> Seq<SampleView> {
    if supported {
        readable(slots)
    } else {
        Seq::empty()
    }
}

/// The stack captured when a live allocation was made.
#[derive(Debug)]
pub struct Frames {
    /// Return addresses, innermost first.
    pub frames: Vec<usize>,
    /// Where the allocation starts.
    pub base_addr: usize,
    /// How many bytes it holds, rounded up to a size class.
    pub allocated_size: usize,
}

#[verifier::ext_equal]
pub struct FramesView {
    pub frames: Seq<usize>,
    pub base_addr: usize,
    pub allocated_size: usize,
}

impl View for Frames {
    type V = FramesView;

    open spec fn view(&self) -> FramesView {
        FramesView {
            frames: self.frames@,
            base_addr: self.base_addr,
            allocated_size: self.allocated_size,
        }
    }
}

impl Clone for Frames {
    fn clone(&self) -> (copy: Self)
        ensures
            copy@ == self@,
    {
        let frames = self.frames.clone();
        assert(frames@ =~= self.frames@);
        Frames { frames, base_addr: self.base_addr, allocated_size: self.allocated_size }
    }
}

/// The allocator's reply to a question about an address: a count of frames,
/// negative where the address is unknown, and the buffers that it filled.
#[derive(Debug)]
pub struct LookupReply {
    pub count: isize,
    pub frames: Vec<usize>,
    pub base_addr: usize,
    pub allocated_size: usize,
}

/// The allocation that a reply describes.
pub open spec fn reply_view(reply: LookupReply) -> Option<FramesView> {
    if reply.count < 0 {
        None
    } else {
        Some(
            FramesView {
                frames: if reply.count <= reply.frames@.len() {
                    reply.frames@.take(reply.count as int)
                } else {
                    reply.frames@
                },
                base_addr: reply.base_addr,
                allocated_size: reply.allocated_size,
            },
        )
    }
}

/// The allocation that a lookup gives. Without profiling there is none.
pub open spec fn looked_up(supported: bool, reply: LookupReply) -> Option<FramesView> {
    if supported {
        reply_view(reply)
    } else {
        None
    }
}

fn first_frames(frames: &Vec<usize>, count: usize) -> (first: Vec<usize>)
    ensures
        first@ == (if count <= frames@.len() {
            frames@.take(count as int)
        } else {
            frames@
        }),
{
    let mut first = frames.clone();
    assert(first@ =~= frames@);
    if count < first.len() {
        first.truncate(count);
        assert(first@ =~= frames@.take(count as int));
    } else {
        assert(frames@.take(frames@.len() as int) =~= frames@);
    }
    first
}

impl SnMalloc {
    #[verifier::type_invariant]
    spec fn inv(self) -> bool {
        !self.supported ==> self.rate == 0
    }

    /// The sampler of an allocator that was built with profiling or without.
    /// Sampling starts turned off.
    pub fn new(supported: bool) -> (a: Self)
        ensures
            a@.supported == supported,
            a@.rate == 0,
    {
        SnMalloc { supported, rate: 0 }
    }

    /// Set the mean sampling interval in bytes. 0 turns sampling off. Nothing
    /// happens where profiling is not supported.
    pub fn set_sampling_rate(&mut self, bytes: usize)
        ensures
            final(self)@.supported == old(self)@.supported,
            final(self)@.rate == effective_rate(old(self)@.supported, bytes as nat),
    {
        proof {
            use_type_invariant(&*self);
        }
        if self.supported {
            self.rate = bytes;
        }
    }

    /// The mean sampling interval in bytes.
    pub fn sampling_rate(&self) -> (rate: usize)
        ensures
            rate == self@.rate,
            !self@.supported ==> rate == 0,
    {
        proof {
            use_type_invariant(&*self);
        }
        self.rate
    }

    /// Whether the allocator was built with profiling.
    pub fn profiling_supported(&self) -> (b: bool)
        ensures
            b == self@.supported,
    {
        self.supported
    }

    /// Apply a configuration, given the values of the two environment
    /// variables.
    pub fn configure_profiling(
        &mut self,
        cfg: ProfileConfig,
        rate_var: Option<&str>,
        enable_var: Option<&str>,
    )
        ensures
            final(self)@.supported == old(self)@.supported,
            final(self)@.rate == effective_rate(
                old(self)@.supported,
                config::config_rate(cfg, config::var_view(rate_var), config::var_view(enable_var)),
            ),
    {
        let rate: usize = if cfg.enable_from_env {
            match resolve_rate_from_env(rate_var, enable_var) {
                Some(r) => r,
                None => DEFAULT_SAMPLING_RATE_BYTES,
            }
        } else {
            cfg.sampling_rate
        };
        self.set_sampling_rate(rate);
    }

    /// Apply what the environment asks for, given the values of its two
    /// variables. Returns the interval asked for, or `None` where the
    /// environment asks for nothing and the interval stays as it is.
    pub fn init_profiling_from_env(&mut self, rate_var: Option<&str>, enable_var: Option<&str>) -> (applied:
        Option<usize>)
        ensures
            match applied {
                Some(r) => config::env_rate(config::var_view(rate_var), config::var_view(enable_var))
                    == Some(r as nat),
                None => config::env_rate(
                    config::var_view(rate_var),
                    config::var_view(enable_var),
                ) is None,
            },
            initializes(
                old(self)@,
                config::var_view(rate_var),
                config::var_view(enable_var),
                final(self)@,
            ),
    {
        match resolve_rate_from_env(rate_var, enable_var) {
            Some(rate) => {
                self.set_sampling_rate(rate);
                Some(rate)
            },
            None => None,
        }
    }

    /// The snapshot made of the samples that the allocator reports, one slot
    /// per live sample, empty where it could not be read. Without profiling
    /// the snapshot is empty.
    pub fn snapshot(&self, slots: &Vec<Option<RawSample>>) -> (profile: HeapProfile)
        ensures
            profile@.samples == snapshot_samples(self@.supported, slots@),
            profile@.period == (if !self@.supported || self@.rate == 0 {
                None
            } else {
                Some(self@.rate)
            }),
    {
        if !self.profiling_supported() {
            return HeapProfile::default();
        }
        let period: Option<usize> = if self.sampling_rate() == 0 {
            None
        } else {
            Some(self.sampling_rate())
        };
        let mut samples: Vec<BtSample> = Vec::new();
        assert(profile::sample_views(samples@) =~= readable(slots@.take(0)));
        for i in 0..slots.len()
            invariant
                profile::sample_views(samples@) == readable(slots@.take(i as int)),
        {
            let ghost had = profile::sample_views(samples@);
            assert(slots@.take(i + 1).drop_last() =~= slots@.take(i as int));
            if let Some(raw) = &slots[i] {
                let sample = BtSample {
                    alloc_ptr: raw.alloc_ptr,
                    requested_size: raw.requested_size,
                    allocated_size: raw.allocated_size,
                    weight: raw.weight,
                    stack: first_frames(&raw.stack, raw.stack_depth),
                };
                samples.push(sample);
                assert(profile::sample_views(samples@) =~= had.push(sample@));
            }
        }
        assert(slots@.take(slots@.len() as int) =~= slots@);
        HeapProfile::with_period(samples, period)
    }

    /// The live sampled allocation that the allocator's reply describes.
    /// Without profiling there is none.
    pub fn lookup_alloc_site(&self, reply: &LookupReply) -> (site: Option<Frames>)
        ensures
            match site {
                Some(f) => looked_up(self@.supported, *reply) == Some(f@),
                None => looked_up(self@.supported, *reply) is None,
            },
            !self@.supported ==> site is None,
    {
        if !self.profiling_supported() || reply.count < 0 {
            return None;
        }
        let frames = first_frames(&reply.frames, reply.count as usize);
        Some(
            Frames { frames, base_addr: reply.base_addr, allocated_size: reply.allocated_size },
        )
    }
}

/// The address lies in the allocation of a sample.
pub open spec fn holds_address(sample: SampleView, address: usize) -> bool {
    sample.alloc_ptr <= address < sample.alloc_ptr + sample.allocated_size
}

/// A reply describes the allocation of a report: its start, its size and the
/// frames that were captured. What lies in the buffers behind the captured
/// frames makes no difference.
pub open spec fn describes(reply: LookupReply, raw: RawSample) -> bool {
    &&& reply.base_addr == raw.alloc_ptr
    &&& reply.allocated_size == raw.allocated_size
    &&& reply.count == raw.stack_depth
    &&& reply.frames@.len() == raw.stack@.len()
    &&& forall|i: int|
        0 <= i < raw.stack_depth && i < raw.stack@.len() ==> #[trigger] reply.frames@[i]
            == raw.stack@[i]
}

/// The `i`-th slot was read and reports an allocation that holds the address.
pub open spec fn slot_holds(slots: Seq<Option<RawSample>>, i: int, address: usize) -> bool {
    0 <= i < slots.len() && slots[i] is Some && holds_address(raw_view(slots[i]->0), address)
}

/// The reply to a question about an address while the reported allocations
/// are live: it describes one that holds the address, and says that the
/// address is unknown where none does.
pub open spec fn replies_for(slots: Seq<Option<RawSample>>, address: usize, reply: LookupReply) -> bool {
    ||| exists|i: int| #[trigger] slot_holds(slots, i, address) && describes(reply, slots[i]->0)
    ||| reply.count < 0 && forall|i: int| !#[trigger] slot_holds(slots, i, address)
}

/// No address lies in two allocations.
pub open spec fn apart(samples: Seq<SampleView>) -> bool {
    forall|i: int, j: int, address: usize|
        0 <= i < j < samples.len() && #[trigger] holds_address(samples[i], address)
            ==> !#[trigger] holds_address(samples[j], address)
}

/// A reply that describes the allocation of a report gives the start, the
/// size and the stack that the snapshot has of it.
pub proof fn described_allocations_match(reply: LookupReply, raw: RawSample)
    requires
        describes(reply, raw),
    ensures
        reply_view(reply) == Some(
            FramesView {
                frames: raw_view(raw).stack,
                base_addr: raw_view(raw).alloc_ptr,
                allocated_size: raw_view(raw).allocated_size,
            },
        ),
{
    assert(reply_view(reply)->0.frames =~= raw_view(raw).stack);
}

/// While the allocations of a snapshot are live, looking up any address in one
/// of them, its start or an inner one, gives its start, its size and its
/// stack; looking up any other address gives nothing. What the allocator
/// replies is required here.
pub proof fn lookups_match_the_snapshot(
    supported: bool,
    slots: Seq<Option<RawSample>>,
    address: usize,
    reply: LookupReply,
)
    requires
        apart(readable(slots)),
        replies_for(slots, address, reply),
    ensures
        ({
            let samples = snapshot_samples(supported, slots);
            &&& forall|k: int|
                0 <= k < samples.len() && #[trigger] holds_address(samples[k], address) ==> looked_up(
                    supported,
                    reply,
                ) == Some(
                    FramesView {
                        frames: samples[k].stack,
                        base_addr: samples[k].alloc_ptr,
                        allocated_size: samples[k].allocated_size,
                    },
                )
            &&& (forall|k: int|
                0 <= k < samples.len() ==> !#[trigger] holds_address(samples[k], address))
                ==> looked_up(supported, reply) is None
        }),
{
    let samples = readable(slots);
    if exists|i: int| #[trigger] slot_holds(slots, i, address) && describes(reply, slots[i]->0) {
        let i = choose|i: int| #[trigger]
            slot_holds(slots, i, address) && describes(reply, slots[i]->0);
        described_allocations_match(reply, slots[i]->0);
        slots_are_sampled(slots, i);
        let at = choose|at: int| 0 <= at < samples.len() && samples[at] == raw_view(slots[i]->0);
        assert(holds_address(samples[at], address));
        assert forall|k: int| 0 <= k < samples.len() && #[trigger] holds_address(
            samples[k],
            address,
        ) implies k == at by {
            if k < at {
                assert(!holds_address(samples[at], address));
            } else if at < k {
                assert(!holds_address(samples[k], address));
            }
        }
    } else {
        assert forall|k: int| 0 <= k < samples.len() implies !#[trigger] holds_address(
            samples[k],
            address,
        ) by {
            let i = samples_have_slots(slots, k);
            assert(!slot_holds(slots, i, address));
        }
    }
}

/// A slot that was read has its sample in the snapshot.
proof fn slots_are_sampled(slots: Seq<Option<RawSample>>, i: int)
    requires
        0 <= i < slots.len(),
        slots[i] is Some,
    ensures
        readable(slots).contains(raw_view(slots[i]->0)),
    decreases slots.len(),
{
    let samples = readable(slots);
    let earlier = readable(slots.drop_last());
    if i == slots.len() - 1 {
        assert(samples[earlier.len() as int] == raw_view(slots[i]->0));
    } else {
        slots_are_sampled(slots.drop_last(), i);
        let k = choose|k: int| 0 <= k < earlier.len() && earlier[k] == raw_view(slots[i]->0);
        assert(samples[k] == earlier[k]);
    }
}

/// A sample of the snapshot comes from a slot that was read.
proof fn samples_have_slots(slots: Seq<Option<RawSample>>, k: int) -> (i: int)
    requires
        0 <= k < readable(slots).len(),
    ensures
        0 <= i < slots.len(),
        slots[i] is Some,
        raw_view(slots[i]->0) == readable(slots)[k],
    decreases slots.len(),
{
    let earlier = readable(slots.drop_last());
    if k < earlier.len() {
        samples_have_slots(slots.drop_last(), k)
    } else {
        slots.len() - 1
    }
}

/// Applying a configuration twice is the same as applying it once.
pub proof fn configuring_is_idempotent(
    cfg: ProfileConfig,
    rate: Option<Seq<char>>,
    enable: Option<Seq<char>>,
    before: SamplerView,
    once: SamplerView,
    twice: SamplerView,
)
    requires
        once.supported == before.supported,
        once.rate == effective_rate(before.supported, config::config_rate(cfg, rate, enable)),
        twice.supported == once.supported,
        twice.rate == effective_rate(once.supported, config::config_rate(cfg, rate, enable)),
    ensures
        twice == once,
{
}

/// Taking what the environment asks for twice is the same as taking it once.
pub proof fn initializing_is_idempotent(
    rate: Option<Seq<char>>,
    enable: Option<Seq<char>>,
    before: SamplerView,
    once: SamplerView,
    twice: SamplerView,
)
    requires
        initializes(before, rate, enable, once),
        initializes(once, rate, enable, twice),
    ensures
        twice == once,
{
}

/// Without profiling no configuration turns sampling on.
pub proof fn unsupported_stays_off(cfg: ProfileConfig, rate: Option<Seq<char>>, enable: Option<Seq<char>>)
    ensures
        effective_rate(false, config::config_rate(cfg, rate, enable)) == 0,
{
}

/// A snapshot holds at most as many frames of a sample as the report has room
/// for, and they are its first ones.
pub proof fn stacks_are_prefixes(raw: RawSample)
    ensures
        raw_view(raw).stack.len() <= raw.stack@.len(),
        raw_view(raw).stack == raw.stack@.take(raw_view(raw).stack.len() as int),
{
    assert(raw.stack@.take(raw.stack@.len() as int) =~= raw.stack@);
}

/// A snapshot holds one sample for each slot that was read, in the order of the
/// slots: with the address, the sizes and the weight that the slot reports, and
/// with as many of its first frames as were captured.
pub proof fn snapshots_hold_what_was_read(
    a: &SnMalloc,
    slots: &Vec<Option<RawSample>>,
    p: HeapProfile,
)
    requires
        call_ensures(SnMalloc::snapshot, (a, slots), p),
    ensures
        !a@.supported ==> p@.samples.len() == 0 && p@.period is None,
        a@.supported && a@.rate > 0 ==> p@.period == Some(a@.rate),
        a@.rate == 0 ==> p@.period is None,
        a@.supported ==> ({
            let read = slots@.filter(|s: Option<RawSample>| s is Some);
            &&& p@.samples.len() == read.len()
            &&& forall|k: int|
                0 <= k < read.len() ==> {
                    let raw = (#[trigger] read[k])->0;
                    let s = p@.samples[k];
                    &&& s.alloc_ptr == raw.alloc_ptr
                    &&& s.requested_size == raw.requested_size
                    &&& s.allocated_size == raw.allocated_size
                    &&& s.weight == raw.weight
                    &&& s.stack.len() == (if raw.stack_depth < raw.stack@.len() {
                        raw.stack_depth as nat
                    } else {
                        raw.stack@.len()
                    })
                    &&& s.stack.is_prefix_of(raw.stack@)
                }
        }),
{
    if a@.supported {
        samples_follow_slots(slots@);
        let read = slots@.filter(|s: Option<RawSample>| s is Some);
        assert forall|k: int| 0 <= k < read.len() implies p@.samples[k].stack.is_prefix_of(
            (#[trigger] read[k])->0.stack@,
        ) by {
            let raw = read[k]->0;
            assert(p@.samples[k] == raw_view(raw));
            stacks_are_prefixes(raw);
            assert(raw.stack@.take(raw_view(raw).stack.len() as int) == raw.stack@.subrange(
                0,
                raw_view(raw).stack.len() as int,
            ));
        }
    }
}

proof fn samples_follow_slots(slots: Seq<Option<RawSample>>)
    ensures
        ({
            let read = slots.filter(|s: Option<RawSample>| s is Some);
            &&& readable(slots).len() == read.len()
            &&& forall|k: int|
                0 <= k < read.len() ==> readable(slots)[k] == raw_view((#[trigger] read[k])->0)
        }),
    decreases slots.len(),
{
    reveal(Seq::filter);
    if slots.len() > 0 {
        samples_follow_slots(slots.drop_last());
    }
}

/// A lookup gives the allocation that the reply describes: its start, its size
/// and as many of the reply's first frames as it counts. A negative count
/// gives nothing, and so does an allocator without profiling.
pub proof fn lookups_give_what_was_replied(a: &SnMalloc, reply: &LookupReply, site: Option<Frames>)
    requires
        call_ensures(SnMalloc::lookup_alloc_site, (a, reply), site),
    ensures
        site is Some <==> a@.supported && reply.count >= 0,
        site is Some ==> {
            &&& site->0.base_addr == reply.base_addr
            &&& site->0.allocated_size == reply.allocated_size
            &&& site->0.frames@.len() == (if reply.count < reply.frames@.len() {
                reply.count as nat
            } else {
                reply.frames@.len()
            })
            &&& site->0.frames@.is_prefix_of(reply.frames@)
        },
{
    if let Some(f) = site {
        assert(reply_view(*reply) == Some(f@));
        assert(f.frames@ =~= reply.frames@.subrange(0, f.frames@.len() as int));
    }
}

/// Where profiling is there, the interval is the one that was set last, and 0
/// before; where it is not, the interval is 0 whatever is set.
pub proof fn the_last_interval_counts(
    supported: bool,
    fresh: SnMalloc,
    a: &mut SnMalloc,
    after: &SnMalloc,
    bytes: usize,
    start: usize,
    rate: usize,
    there: bool,
)
    requires
        call_ensures(SnMalloc::new, (supported,), fresh),
        call_ensures(SnMalloc::sampling_rate, (&fresh,), start),
        call_ensures(SnMalloc::set_sampling_rate, (a, bytes), ()),
        after@ == final(a)@,
        call_ensures(SnMalloc::sampling_rate, (after,), rate),
        call_ensures(SnMalloc::profiling_supported, (after,), there),
    ensures
        start == 0,
        fresh@.supported == supported,
        there == old(a)@.supported,
        there ==> rate == bytes,
        !there ==> rate == 0,
{
}

/// Applying a configuration that sets an interval is setting it. Applying one
/// that leaves it to the environment is setting what the environment asks for,
/// or 524288 bytes.
pub proof fn configuring_sets_the_interval(
    a: &mut SnMalloc,
    b: &mut SnMalloc,
    cfg: ProfileConfig,
    rate: Option<&str>,
    enable: Option<&str>,
    resolved: Option<usize>,
    bytes: usize,
)
    requires
        old(a)@ == old(b)@,
        call_ensures(SnMalloc::configure_profiling, (a, cfg, rate, enable), ()),
        call_ensures(SnMalloc::set_sampling_rate, (b, bytes), ()),
        call_ensures(resolve_rate_from_env, (rate, enable), resolved),
        !cfg.enable_from_env ==> bytes == cfg.sampling_rate,
        cfg.enable_from_env && resolved is Some ==> bytes == resolved->0,
        cfg.enable_from_env && resolved is None ==> bytes == 524288,
    ensures
        final(a)@ == final(b)@,
{
}

/// Taking what the environment asks for is setting it, and says which interval
/// that is; where nothing is asked for, nothing is set.
pub proof fn the_environment_sets_the_interval(
    a: &mut SnMalloc,
    b: &mut SnMalloc,
    rate: Option<&str>,
    enable: Option<&str>,
    resolved: Option<usize>,
    applied: Option<usize>,
    bytes: usize,
)
    requires
        old(a)@ == old(b)@,
        call_ensures(SnMalloc::init_profiling_from_env, (a, rate, enable), applied),
        call_ensures(SnMalloc::set_sampling_rate, (b, bytes), ()),
        call_ensures(resolve_rate_from_env, (rate, enable), resolved),
        resolved is Some ==> bytes == resolved->0,
    ensures
        applied == resolved,
        resolved is Some ==> final(a)@ == final(b)@,
        resolved is None ==> final(a)@ == old(a)@,
{
}

/// A copy of an allocation's stack is the same stack, of the same allocation.
pub proof fn copies_are_the_same(f: &Frames, copy: Frames)
    requires
        call_ensures(<Frames as Clone>::clone, (f,), copy),
    ensures
        copy.frames@ == f.frames@,
        copy.base_addr == f.base_addr,
        copy.allocated_size == f.allocated_size,
{
    assert(copy@ == f@);
}

} // verus!

//! Heap profile snapshots: sampled allocations and their totals.
use vstd::prelude::*;
use crate::table;

verus! {

/// What a sample reports.
///
/// Snapshots hold allocations only; a stream of events may also report
/// resizes.
#[derive(Clone, Copy, Debug, PartialEq, Eq, Structural)]
pub enum SampleKind {
    /// A sampled allocation.
    Alloc,
    /// An in-place reallocation that changed a sample's size.
    Resize,
}

impl SampleKind {
    /// Decode the kind byte of a raw sample, where `resize` is the byte
    /// that marks a resize. Every other value counts as an allocation.
    pub fn from_raw(kind: u8, resize: u8) -> (k: SampleKind)
        ensures
            k == (if kind == resize {
                SampleKind::Resize
            } else {
                SampleKind::Alloc
            }),
    {
        if kind == resize {
            SampleKind::Resize
        } else {
            SampleKind::Alloc
        }
    }
}

/// One sampled live allocation.
///
/// Addresses are plain words: they identify code and data and are never
/// followed.
#[derive(Debug)]
pub struct BtSample {
    /// Address that the allocation returned.
    pub alloc_ptr: usize,
    /// Bytes that the caller asked for.
    pub requested_size: usize,
    /// Bytes handed back, rounded up to a size class.
    pub allocated_size: usize,
    /// Requested bytes that this sample stands for.
    pub weight: usize,
    /// Return addresses, innermost first.
    pub stack: Vec<usize>,
}

/// The mathematical content of a sample.
#[verifier::ext_equal]
pub struct SampleView {
    pub alloc_ptr: usize,
    pub requested_size: usize,
    pub allocated_size: usize,
    pub weight: usize,
    pub stack: Seq<usize>,
}

impl View for BtSample {
    type V = SampleView;

    open spec fn view(&self) -> SampleView {
        SampleView {
            alloc_ptr: self.alloc_ptr,
            requested_size: self.requested_size,
            allocated_size: self.allocated_size,
            weight: self.weight,
            stack: self.stack@,
        }
    }
}

impl BtSample {
    /// The kind of this sample. A snapshot holds allocations only.
    pub fn kind(&self) -> (k: SampleKind)
        ensures
            k == SampleKind::Alloc,
    {
        SampleKind::Alloc
    }
}

impl Clone for BtSample {
    fn clone(&self) -> (copy: Self)
        ensures
            copy@ == self@,
    {
        let stack = self.stack.clone();
        assert(stack@ =~= self.stack@);
        BtSample {
            alloc_ptr: self.alloc_ptr,
            requested_size: self.requested_size,
            allocated_size: self.allocated_size,
            weight: self.weight,
            stack,
        }
    }
}

/// The contents of a sequence of samples.
pub open spec fn sample_views(samples: Seq<BtSample>) -> Seq<SampleView> {
    Seq::new(samples.len(), |i: int| samples[i]@)
}

/// Which bytes a sample counts for.
#[derive(Clone, Copy, Debug, PartialEq, Eq, Structural)]
pub enum Weight {
    /// The bytes that the caller asked for: the sample's weight.
    Requested,
    /// The bytes that the allocator handed back:
    /// `weight * allocated_size / requested_size`.
    Allocated,
}

impl Default for Weight {
    fn default() -> (w: Self)
        ensures
            w == Weight::Allocated,
    {
        Weight::Allocated
    }
}

/// The bytes that one sample counts for. A sample of a request for zero
/// bytes counts for no allocated bytes.
pub open spec fn sample_bytes(s: SampleView, weight: Weight) -> nat {
    match weight {
        Weight::Requested => s.weight as nat,
        Weight::Allocated => if s.requested_size == 0 {
            0
        } else {
            (s.weight as nat * s.allocated_size as nat) / (s.requested_size as nat)
        },
    }
}

/// The bytes that all samples count for.
pub open spec fn total_bytes(samples: Seq<SampleView>, weight: Weight) -> nat {
    table::weigh(samples, |s: SampleView| sample_bytes(s, weight))
}

/// A byte total as far as the counter reaches.
pub open spec fn capped(n: nat) -> u128 {
    if n <= u128::MAX {
        n as u128
    } else {
        u128::MAX
    }
}

/// The product of two machine words fits in twice the width.
pub proof fn word_product_fits(a: usize, b: usize)
    ensures
        0 <= a * b <= u128::MAX,
{
    assert(a * b <= 0xffff_ffff_ffff_ffff * 0xffff_ffff_ffff_ffff) by (nonlinear_arith)
        requires
            0 <= a <= 0xffff_ffff_ffff_ffff,
            0 <= b <= 0xffff_ffff_ffff_ffff,
    ;
    assert(0 <= a * b) by (nonlinear_arith)
        requires
            0 <= a,
            0 <= b,
    ;
}

/// The bytes that one sample counts for fit in the counter.
pub proof fn sample_bytes_fit(s: SampleView, weight: Weight)
    ensures
        sample_bytes(s, weight) <= u128::MAX,
{
    word_product_fits(s.weight, s.allocated_size);
    if s.requested_size != 0 {
        let p = s.weight as nat * s.allocated_size as nat;
        let r = s.requested_size as nat;
        assert(p / r <= p) by (nonlinear_arith)
            requires
                r >= 1,
                p >= 0,
        ;
    }
}

/// The bytes that one sample counts for.
pub fn sample_weight(s: &BtSample, weight: Weight) -> (bytes: u128)
    ensures
        bytes == sample_bytes(s@, weight),
{
    match weight {
        Weight::Requested => s.weight as u128,
        Weight::Allocated => if s.requested_size == 0 {
            0
        } else {
            proof {
                word_product_fits(s.weight, s.allocated_size);
            }
            (s.weight as u128 * s.allocated_size as u128) / (s.requested_size as u128)
        },
    }
}

/// An owned snapshot of live sampled allocations.
#[derive(Debug)]
pub struct HeapProfile {
    samples: Vec<BtSample>,
    sampling_period: Option<usize>,
}

/// The mathematical content of a snapshot.
#[verifier::ext_equal]
pub struct ProfileView {
    pub samples: Seq<SampleView>,
    pub period: Option<usize>,
}

impl View for HeapProfile {
    type V = ProfileView;

    closed spec fn view(&self) -> ProfileView {
        ProfileView { samples: sample_views(self.samples@), period: self.sampling_period }
    }
}

impl Default for HeapProfile {
    fn default() -> (p: Self)
        ensures
            p@.samples == Seq::<SampleView>::empty(),
            p@.period is None,
    {
        HeapProfile { samples: Vec::new(), sampling_period: None }
    }
}

impl Clone for HeapProfile {
    fn clone(&self) -> (copy: Self)
        ensures
            copy@ == self@,
    {
        let mut samples: Vec<BtSample> = Vec::new();
        for i in 0..self.samples.len()
            invariant
                samples.len() == i,
                forall|j: int| 0 <= j < i ==> #[trigger] samples[j]@ == self.samples[j]@,
        {
            samples.push(self.samples[i].clone());
        }
        assert(sample_views(samples@) =~= sample_views(self.samples@));
        HeapProfile { samples, sampling_period: self.sampling_period }
    }
}

impl HeapProfile {
    /// A profile of the given samples, without a sampling period.
    pub fn from_samples(samples: Vec<BtSample>) -> (p: Self)
        ensures
            p@.samples == sample_views(samples@),
            p@.period is None,
    {
        HeapProfile { samples, sampling_period: None }
    }

    /// A profile of the given samples, taken at the given period.
    pub fn with_period(samples: Vec<BtSample>, period: Option<usize>) -> (p: Self)
        ensures
            p@.samples == sample_views(samples@),
            p@.period == period,
    {
        HeapProfile { samples, sampling_period: period }
    }

    /// The sampling interval when the snapshot was taken.
    pub fn sampling_period(&self) -> (period: Option<usize>)
        ensures
            period == self@.period,
    {
        self.sampling_period
    }

    /// All samples of the snapshot.
    pub fn samples(&self) -> (samples: &[BtSample])
        ensures
            sample_views(samples@) == self@.samples,
    {
        self.samples.as_slice()
    }

    /// Number of samples in the snapshot.
    pub fn len(&self) -> (n: usize)
        ensures
            n == self@.samples.len(),
    {
        self.samples.len()
    }

    /// Whether the snapshot holds no samples.
    pub fn is_empty(&self) -> (b: bool)
        ensures
            b == (self@.samples.len() == 0),
    {
        self.samples.len() == 0
    }

    /// Estimated live bytes that the allocator handed back.
    pub fn total_allocated_bytes(&self) -> (total: u128)
        ensures
            total == capped(total_bytes(self@.samples, Weight::Allocated)),
    {
        self.total(Weight::Allocated)
    }

    /// Estimated live bytes that callers asked for.
    pub fn total_requested_bytes(&self) -> (total: u128)
        ensures
            total == capped(total_bytes(self@.samples, Weight::Requested)),
    {
        self.total(Weight::Requested)
    }

    fn total(&self, weight: Weight) -> (total: u128)
        ensures
            total == capped(total_bytes(self@.samples, weight)),
    {
        let ghost views = self@.samples;
        let mut total: u128 = 0;
        for i in 0..self.samples.len()
            invariant
                views == sample_views(self.samples@),
                total == capped(total_bytes(views.take(i as int), weight)),
        {
            total = total.saturating_add(sample_weight(&self.samples[i], weight));
            assert(views.take(i + 1).drop_last() =~= views.take(i as int));
            assert(views.take(i + 1).last() == self.samples[i as int]@);
        }
        assert(views.take(views.len() as int) =~= views);
        total
    }
}

/// The allocated bytes of a sample stand to its weight as its allocated size
/// stands to its requested size, rounded down; a request for zero bytes counts
/// for none. The requested bytes are its weight.
pub proof fn sample_bytes_keep_proportion(s: SampleView)
    ensures
        sample_bytes(s, Weight::Requested) == s.weight,
        s.requested_size == 0 ==> sample_bytes(s, Weight::Allocated) == 0,
        s.requested_size > 0 ==> {
            let b = sample_bytes(s, Weight::Allocated);
            b * s.requested_size <= s.weight * s.allocated_size < (b + 1) * s.requested_size
        },
{
    if s.requested_size > 0 {
        let p = s.weight as nat * s.allocated_size as nat;
        let r = s.requested_size as nat;
        let b = p / r;
        assert(b * r <= p < (b + 1) * r) by (nonlinear_arith)
            requires
                r > 0,
                b == p / r,
        ;
    }
}

/// The bytes that a sample is given keep that proportion.
pub proof fn sample_weights_keep_proportion(s: &BtSample, requested: u128, allocated: u128)
    requires
        call_ensures(sample_weight, (s, Weight::Requested), requested),
        call_ensures(sample_weight, (s, Weight::Allocated), allocated),
    ensures
        requested == s.weight,
        s.requested_size == 0 ==> allocated == 0,
        s.requested_size > 0 ==> allocated * s.requested_size <= s.weight * s.allocated_size < (allocated
            + 1) * s.requested_size,
{
    sample_bytes_keep_proportion(s@);
}

/// The totals of two profiles add up to those of a profile with the samples of
/// both, as far as the counter reaches.
pub proof fn totals_of_parts_add_up(
    a: &HeapProfile,
    b: &HeapProfile,
    both: &HeapProfile,
    allocated: (u128, u128, u128),
    requested: (u128, u128, u128),
)
    requires
        both@.samples == a@.samples + b@.samples,
        call_ensures(HeapProfile::total_allocated_bytes, (a,), allocated.0),
        call_ensures(HeapProfile::total_allocated_bytes, (b,), allocated.1),
        call_ensures(HeapProfile::total_allocated_bytes, (both,), allocated.2),
        call_ensures(HeapProfile::total_requested_bytes, (a,), requested.0),
        call_ensures(HeapProfile::total_requested_bytes, (b,), requested.1),
        call_ensures(HeapProfile::total_requested_bytes, (both,), requested.2),
    ensures
        allocated.0 + allocated.1 <= u128::MAX ==> allocated.2 == allocated.0 + allocated.1,
        allocated.0 + allocated.1 > u128::MAX ==> allocated.2 == u128::MAX,
        requested.0 + requested.1 <= u128::MAX ==> requested.2 == requested.0 + requested.1,
        requested.0 + requested.1 > u128::MAX ==> requested.2 == u128::MAX,
{
    table::weigh_add(
        a@.samples,
        b@.samples,
        |s: SampleView| sample_bytes(s, Weight::Allocated),
    );
    table::weigh_add(
        a@.samples,
        b@.samples,
        |s: SampleView| sample_bytes(s, Weight::Requested),
    );
}

/// The totals of a profile with one sample are the bytes of that sample, and
/// those of a profile without samples are zero.
pub proof fn totals_of_one_sample(p: &HeapProfile, allocated: u128, requested: u128)
    requires
        call_ensures(HeapProfile::total_allocated_bytes, (p,), allocated),
        call_ensures(HeapProfile::total_requested_bytes, (p,), requested),
    ensures
        p@.samples.len() == 0 ==> allocated == 0 && requested == 0,
        p@.samples.len() == 1 ==> {
            let s = p@.samples[0];
            &&& requested == s.weight
            &&& s.requested_size == 0 ==> allocated == 0
            &&& s.requested_size > 0 ==> allocated * s.requested_size <= s.weight * s.allocated_size < (
            allocated + 1) * s.requested_size
        },
{
    let samples = p@.samples;
    if samples.len() == 1 {
        let s = samples[0];
        assert(samples =~= seq![s]);
        table::weigh_one(s, |s: SampleView| sample_bytes(s, Weight::Allocated));
        table::weigh_one(s, |s: SampleView| sample_bytes(s, Weight::Requested));
        sample_bytes_fit(s, Weight::Allocated);
        sample_bytes_keep_proportion(s);
    }
}

/// A kind byte marks a resize exactly where it is the given mark.
pub proof fn kinds_follow_the_mark(kind: u8, resize: u8, k: SampleKind)
    requires
        call_ensures(SampleKind::from_raw, (kind, resize), k),
    ensures
        k == SampleKind::Resize <==> kind == resize,
        k == SampleKind::Alloc <==> kind != resize,
{
}

/// A profile gives back the samples and the period that it was made of.
pub proof fn profiles_give_back_their_samples(
    given: Vec<BtSample>,
    period: Option<usize>,
    plain: HeapProfile,
    timed: HeapProfile,
    back: &[BtSample],
    same: &[BtSample],
    n: usize,
    b: bool,
    stated: Option<usize>,
    unstated: Option<usize>,
)
    requires
        call_ensures(HeapProfile::from_samples, (given,), plain),
        call_ensures(HeapProfile::with_period, (given, period), timed),
        call_ensures(HeapProfile::samples, (&plain,), back),
        call_ensures(HeapProfile::samples, (&timed,), same),
        call_ensures(HeapProfile::len, (&plain,), n),
        call_ensures(HeapProfile::is_empty, (&plain,), b),
        call_ensures(HeapProfile::sampling_period, (&timed,), stated),
        call_ensures(HeapProfile::sampling_period, (&plain,), unstated),
    ensures
        back@.len() == given@.len(),
        same@.len() == given@.len(),
        forall|i: int| 0 <= i < given@.len() ==> (#[trigger] back@[i])@ == given@[i]@,
        forall|i: int| 0 <= i < given@.len() ==> (#[trigger] same@[i])@ == given@[i]@,
        plain@.samples.len() == given@.len(),
        forall|i: int|
            0 <= i < given@.len() ==> {
                &&& (#[trigger] plain@.samples[i]).alloc_ptr == given@[i].alloc_ptr
                &&& plain@.samples[i].requested_size == given@[i].requested_size
                &&& plain@.samples[i].allocated_size == given@[i].allocated_size
                &&& plain@.samples[i].weight == given@[i].weight
                &&& plain@.samples[i].stack == given@[i].stack@
            },
        n == given@.len(),
        b <==> given@.len() == 0,
        stated == period,
        unstated is None,
{
    let views = sample_views(given@);
    assert(views.len() == given@.len());
    assert(sample_views(back@).len() == back@.len());
    assert(sample_views(same@).len() == same@.len());
    assert forall|i: int| 0 <= i < given@.len() implies (#[trigger] back@[i])@ == given@[i]@ by {
        assert(sample_views(back@)[i] == views[i]);
    }
    assert forall|i: int| 0 <= i < given@.len() implies (#[trigger] same@[i])@ == given@[i]@ by {
        assert(sample_views(same@)[i] == views[i]);
    }
}

/// Samples of a snapshot are allocations; bytes are counted as allocated unless
/// said otherwise; a new profile is empty; copies hold what was copied.
pub proof fn defaults_and_copies(
    s: &BtSample,
    k: SampleKind,
    twin: BtSample,
    w: Weight,
    fresh: HeapProfile,
    p: &HeapProfile,
    copy: HeapProfile,
)
    requires
        call_ensures(BtSample::kind, (s,), k),
        call_ensures(<BtSample as Clone>::clone, (s,), twin),
        call_ensures(<Weight as Default>::default, (), w),
        call_ensures(<HeapProfile as Default>::default, (), fresh),
        call_ensures(<HeapProfile as Clone>::clone, (p,), copy),
    ensures
        k == SampleKind::Alloc,
        twin.alloc_ptr == s.alloc_ptr,
        twin.requested_size == s.requested_size,
        twin.allocated_size == s.allocated_size,
        twin.weight == s.weight,
        twin.stack@ == s.stack@,
        w == Weight::Allocated,
        fresh@.samples.len() == 0,
        fresh@.period is None,
        copy@.samples == p@.samples,
        copy@.period == p@.period,
{
    assert(twin@ == s@);
}

} // verus!

//! Hot allocation sites: samples grouped by call site and ranked by bytes.
use std::collections::HashMap;
use vstd::prelude::*;
use crate::order;
use crate::order::{sort, Rank, SortKey};
use crate::profile;
use crate::profile::{sample_weight, HeapProfile, SampleView, Weight};
use crate::symbols;
use crate::symbols::{FrameView, ResolvedFrame, SymbolCache};
use crate::table;
use crate::table::{Table, Tally};
use crate::text;
use crate::text::{chars_of, has_prefix};

verus! {

broadcast use vstd::std_specs::hash::group_hash_axioms;

/// How samples are grouped.
#[derive(Clone, Copy, Debug, PartialEq, Eq, Structural)]
pub enum HotSpotKey {
    /// By the innermost frame outside the allocator. Frames without a known
    /// name count as outside. A stack that lies wholly inside the allocator
    /// is grouped by its innermost frame.
    CallSite,
    /// By the innermost frame.
    LeafFrame,
    /// By the whole stack.
    FullStack,
}

/// One group of samples.
#[derive(Debug)]
pub struct HotSite {
    /// Innermost frame of the group's key, or 0 where no stack was captured.
    pub leaf_frame: usize,
    /// The frames of the group's key, innermost first.
    pub stack: Vec<usize>,
    /// Allocated bytes that the group's samples count for.
    pub inclusive_bytes: u128,
    /// Number of samples in the group.
    pub sample_count: u64,
}

#[verifier::ext_equal]
pub struct SiteView {
    pub leaf_frame: usize,
    pub stack: Seq<usize>,
    pub inclusive_bytes: u128,
    pub sample_count: u64,
}

impl View for HotSite {
    type V = SiteView;

    open spec fn view(&self) -> SiteView {
        SiteView {
            leaf_frame: self.leaf_frame,
            stack: self.stack@,
            inclusive_bytes: self.inclusive_bytes,
            sample_count: self.sample_count,
        }
    }
}

impl Clone for HotSite {
    fn clone(&self) -> (copy: Self)
        ensures
            copy@ == self@,
    {
        let stack = self.stack.clone();
        assert(stack@ =~= self.stack@);
        HotSite {
            leaf_frame: self.leaf_frame,
            stack,
            inclusive_bytes: self.inclusive_bytes,
            sample_count: self.sample_count,
        }
    }
}

pub open spec fn site_views(sites: Seq<HotSite>) -> Seq<SiteView> {
    Seq::new(sites.len(), |i: int| sites[i]@)
}

/// A function name in one of the allocator's namespaces, demangled or
/// mangled.
pub open spec fn is_allocator_name(name: Seq<char>) -> bool {
    ||| text::starts_with(name, "snmalloc::"@)
    ||| text::starts_with(name, "snmalloc_rs::"@)
    ||| text::starts_with(name, "snmalloc_sys::"@)
    ||| text::starts_with(name, "_ZN8snmalloc"@)
    ||| text::starts_with(name, "sn_rust_"@)
    ||| text::starts_with(name, "__rust_alloc"@)
    ||| text::starts_with(name, "__rust_dealloc"@)
    ||| text::starts_with(name, "__rust_realloc"@)
    ||| text::starts_with(name, "__rg_alloc"@)
    ||| text::starts_with(name, "__rg_dealloc"@)
    ||| text::starts_with(name, "__rg_realloc"@)
}

/// Whether a function name lies in one of the allocator's namespaces.
pub fn is_allocator_frame_name(name: &str) -> (b: bool)
    ensures
        b == is_allocator_name(name@),
{
    let s = chars_of(name);
    has_prefix(&s, "snmalloc::") || has_prefix(&s, "snmalloc_rs::") || has_prefix(
        &s,
        "snmalloc_sys::",
    ) || has_prefix(&s, "_ZN8snmalloc") || has_prefix(&s, "sn_rust_") || has_prefix(
        &s,
        "__rust_alloc",
    ) || has_prefix(&s, "__rust_dealloc") || has_prefix(&s, "__rust_realloc") || has_prefix(
        &s,
        "__rg_alloc",
    ) || has_prefix(&s, "__rg_dealloc") || has_prefix(&s, "__rg_realloc")
}

/// The name known for a code address.
pub open spec fn name_at(address: usize, resolved: Map<usize, FrameView>) -> Option<Seq<char>> {
    if resolved.contains_key(address) {
        resolved[address].name
    } else {
        None
    }
}

/// The address has a known name, and it is one of the allocator's.
pub open spec fn in_allocator(address: usize, resolved: Map<usize, FrameView>) -> bool {
    match name_at(address, resolved) {
        Some(name) => is_allocator_name(name),
        None => false,
    }
}

/// The first frame outside the allocator.
pub open spec fn first_user_frame(stack: Seq<usize>, resolved: Map<usize, FrameView>) -> Option<usize>
    decreases stack.len(),
{
    if stack.len() == 0 {
        None
    } else if !in_allocator(stack[0], resolved) {
        Some(stack[0])
    } else {
        first_user_frame(stack.skip(1), resolved)
    }
}

/// The innermost frame, or 0.
pub open spec fn leaf_of(stack: Seq<usize>) -> usize {
    if stack.len() > 0 {
        stack[0]
    } else {
        0
    }
}

/// The frame that a stack is grouped by under [`HotSpotKey::CallSite`].
pub open spec fn call_site(stack: Seq<usize>, resolved: Map<usize, FrameView>) -> usize {
    match first_user_frame(stack, resolved) {
        Some(frame) => frame,
        None => leaf_of(stack),
    }
}

/// The frame that a stack is grouped by under [`HotSpotKey::CallSite`].
pub fn callsite_bucket_frame(
    stack: &Vec<usize>,
    resolved: &HashMap<usize, ResolvedFrame>,
) -> (frame: usize)
    ensures
        frame == call_site(stack@, symbols::frame_views(resolved@)),
{
    let ghost known = symbols::frame_views(resolved@);
    if stack.len() == 0 {
        return 0;
    }
    assert(stack@.skip(0) =~= stack@);
    let mut i: usize = 0;
    while i < stack.len()
        invariant
            known == symbols::frame_views(resolved@),
            i <= stack.len(),
            first_user_frame(stack@, known) == first_user_frame(stack@.skip(i as int), known),
        decreases stack.len() - i,
    {
        let address: usize = stack[i];
        let inside: bool = match resolved.get(&address) {
            Some(frame) => match &frame.name {
                Some(name) => is_allocator_frame_name(name.as_str()),
                None => false,
            },
            None => false,
        };
        assert(inside == in_allocator(address, known));
        if !inside {
            return address;
        }
        assert(stack@.skip(i as int).skip(1) =~= stack@.skip(i + 1));
        i = i + 1;
    }
    stack[0]
}

/// The key of the group that a stack belongs to.
pub open spec fn group_key(
    stack: Seq<usize>,
    key: HotSpotKey,
    resolved: Map<usize, FrameView>,
) -> Seq<usize> {
    match key {
        HotSpotKey::LeafFrame => seq![leaf_of(stack)],
        HotSpotKey::CallSite => seq![call_site(stack, resolved)],
        HotSpotKey::FullStack => stack,
    }
}

/// The grouping as a function of the sample.
pub open spec fn by_key(key: HotSpotKey, resolved: Map<usize, FrameView>) -> spec_fn(
    SampleView,
) -> Seq<usize> {
    |s: SampleView| group_key(s.stack, key, resolved)
}

/// The samples of one group.
pub open spec fn group(
    samples: Seq<SampleView>,
    key: HotSpotKey,
    resolved: Map<usize, FrameView>,
    k: Seq<usize>,
) -> Seq<SampleView> {
    table::members(samples, by_key(key, resolved), k)
}

/// The row of one group.
pub open spec fn site_row(
    samples: Seq<SampleView>,
    key: HotSpotKey,
    resolved: Map<usize, FrameView>,
    k: Seq<usize>,
) -> SiteView {
    let members = group(samples, key, resolved, k);
    SiteView {
        leaf_frame: leaf_of(k),
        stack: k,
        inclusive_bytes: profile::capped(profile::total_bytes(members, Weight::Allocated)),
        sample_count: members.len() as u64,
    }
}

/// Rows are ranked by bytes, then by number of samples, both descending,
/// then by key ascending.
pub open spec fn ranks_before(a: SiteView, b: SiteView) -> bool {
    rank_before(
        (a.inclusive_bytes, a.sample_count, a.stack),
        (b.inclusive_bytes, b.sample_count, b.stack),
    )
}

pub open spec fn rank_before(a: (u128, u64, Seq<usize>), b: (u128, u64, Seq<usize>)) -> bool {
    ||| a.0 > b.0
    ||| a.0 == b.0 && a.1 > b.1
    ||| a.0 == b.0 && a.1 == b.1 && order::lex_before(order::words(a.2), order::words(b.2))
}

/// `rows` is the ranked table of all groups: one row for each group and no
/// other row.
pub open spec fn is_hot_table(
    samples: Seq<SampleView>,
    key: HotSpotKey,
    resolved: Map<usize, FrameView>,
    rows: Seq<SiteView>,
) -> bool {
    &&& forall|i: int, j: int| 0 <= i < j < rows.len() ==> ranks_before(#[trigger] rows[i], #[trigger] rows[j])
    &&& forall|i: int|
        0 <= i < rows.len() ==> {
            &&& table::has_member(samples, by_key(key, resolved), (#[trigger] rows[i]).stack)
            &&& rows[i] == site_row(samples, key, resolved, rows[i].stack)
        }
    &&& forall|s: int|
        0 <= s < samples.len() ==> has_row(
            rows,
            group_key((#[trigger] samples[s]).stack, key, resolved),
        )
}

/// Some row is that of the group of `k`.
pub open spec fn has_row(rows: Seq<SiteView>, k: Seq<usize>) -> bool {
    exists|i: int| 0 <= i < rows.len() && (#[trigger] rows[i]).stack == k
}

/// The first `n` rows, or all of them where there are fewer.
pub open spec fn top<A>(rows: Seq<A>, n: nat) -> Seq<A> {
    if n <= rows.len() {
        rows.take(n as int)
    } else {
        rows
    }
}

/// `sites` are the first `n` rows of the ranked table.
pub open spec fn is_top(
    samples: Seq<SampleView>,
    key: HotSpotKey,
    resolved: Map<usize, FrameView>,
    n: nat,
    sites: Seq<SiteView>,
) -> bool {
    if n == 0 {
        sites.len() == 0
    } else {
        exists|rows: Seq<SiteView>| #[trigger]
            is_hot_table(samples, key, resolved, rows) && sites == top(rows, n)
    }
}

#[derive(Clone, Copy)]
struct SiteTally {
    bytes: u128,
    count: u64,
}

impl Tally for SiteTally {
    type Item = u128;

    closed spec fn start() -> SiteTally {
        SiteTally { bytes: 0, count: 0 }
    }

    closed spec fn step(self, item: u128) -> SiteTally {
        SiteTally {
            bytes: profile::capped((self.bytes + item) as nat),
            count: if self.count < u64::MAX {
                (self.count + 1) as u64
            } else {
                u64::MAX
            },
        }
    }

    fn fresh() -> (tally: SiteTally) {
        SiteTally { bytes: 0, count: 0 }
    }

    fn absorb(&self, item: u128) -> (tally: SiteTally) {
        SiteTally { bytes: self.bytes.saturating_add(item), count: self.count.saturating_add(1) }
    }
}

spec fn allocated_item() -> spec_fn(SampleView) -> u128 {
    |s: SampleView| sample_bytes_word(s)
}

spec fn sample_bytes_word(s: SampleView) -> u128 {
    profile::sample_bytes(s, Weight::Allocated) as u128
}

proof fn site_tally_closed_form(members: Seq<SampleView>)
    requires
        members.len() <= u64::MAX,
    ensures
        table::tally_all::<SiteTally>(members.map_values(allocated_item())) == (SiteTally {
            bytes: profile::capped(profile::total_bytes(members, Weight::Allocated)),
            count: members.len() as u64,
        }),
    decreases members.len(),
{
    let values = members.map_values(allocated_item());
    if members.len() > 0 {
        let shorter = members.drop_last();
        site_tally_closed_form(shorter);
        assert(values.drop_last() =~= shorter.map_values(allocated_item()));
        assert(values.last() == sample_bytes_word(members.last()));
        profile::sample_bytes_fit(members.last(), Weight::Allocated);
    }
}

struct RankedSite {
    bytes: u128,
    count: u64,
    key: Vec<usize>,
}

impl SortKey for RankedSite {
    type Model = (u128, u64, Seq<usize>);

    closed spec fn model(&self) -> (u128, u64, Seq<usize>) {
        (self.bytes, self.count, self.key@)
    }

    open spec fn before(a: (u128, u64, Seq<usize>), b: (u128, u64, Seq<usize>)) -> bool {
        rank_before(a, b)
    }

    proof fn before_irreflexive(a: (u128, u64, Seq<usize>)) {
        Vec::<usize>::before_irreflexive(a.2);
    }

    proof fn before_transitive(
        a: (u128, u64, Seq<usize>),
        b: (u128, u64, Seq<usize>),
        c: (u128, u64, Seq<usize>),
    ) {
        if a.0 == b.0 && b.0 == c.0 && a.1 == b.1 && b.1 == c.1 {
            Vec::<usize>::before_transitive(a.2, b.2, c.2);
        }
    }

    proof fn before_total(a: (u128, u64, Seq<usize>), b: (u128, u64, Seq<usize>)) {
        Vec::<usize>::before_total(a.2, b.2);
    }

    fn place(&self, other: &Self) -> (rank: Rank) {
        if self.bytes > other.bytes {
            Rank::Before
        } else if self.bytes < other.bytes {
            Rank::After
        } else if self.count > other.count {
            Rank::Before
        } else if self.count < other.count {
            Rank::After
        } else {
            self.key.place(&other.key)
        }
    }
}

spec fn rank_of(row: SiteView) -> (u128, u64, Seq<usize>) {
    (row.inclusive_bytes, row.sample_count, row.stack)
}

spec fn ranks_of(rows: Seq<SiteView>) -> Seq<(u128, u64, Seq<usize>)> {
    Seq::new(rows.len(), |i: int| rank_of(rows[i]))
}

/// The innermost frame, or 0.
pub fn first_frame(stack: &Vec<usize>) -> (frame: usize)
    ensures
        frame == leaf_of(stack@),
{
    if stack.len() > 0 {
        stack[0]
    } else {
        0
    }
}

fn key_of_stack(
    stack: &Vec<usize>,
    key: HotSpotKey,
    resolved: &HashMap<usize, ResolvedFrame>,
) -> (k: Vec<usize>)
    ensures
        k@ == group_key(stack@, key, symbols::frame_views(resolved@)),
{
    match key {
        HotSpotKey::LeafFrame => {
            let mut k: Vec<usize> = Vec::new();
            k.push(first_frame(stack));
            assert(k@ =~= seq![leaf_of(stack@)]);
            k
        },
        HotSpotKey::CallSite => {
            let mut k: Vec<usize> = Vec::new();
            k.push(callsite_bucket_frame(stack, resolved));
            assert(k@ =~= seq![call_site(stack@, symbols::frame_views(resolved@))]);
            k
        },
        HotSpotKey::FullStack => {
            let k = stack.clone();
            assert(k@ =~= stack@);
            k
        },
    }
}

impl HeapProfile {
    /// The groups of samples, unranked: ascending keys with their totals.
    fn tally_sites(&self, key: HotSpotKey, resolved: &HashMap<usize, ResolvedFrame>) -> (parts: (
        Vec<Vec<usize>>,
        Vec<SiteTally>,
    ))
        ensures
            table::summary::<Vec<usize>, SiteTally>(
                table::entries(
                    self@.samples,
                    by_key(key, symbols::frame_views(resolved@)),
                    allocated_item(),
                ),
                order::models(parts.0@),
                parts.1@,
            ),
    {
        let samples = self.samples();
        let ghost views = self@.samples;
        let ghost f = by_key(key, symbols::frame_views(resolved@));
        let ghost g = allocated_item();
        let mut groups: Table<Vec<usize>, SiteTally> = Table::new();
        assert(table::entries(views.take(0), f, g) =~= Seq::empty());
        for i in 0..samples.len()
            invariant
                views == profile::sample_views(samples@),
                f == by_key(key, symbols::frame_views(resolved@)),
                g == allocated_item(),
                groups.wf(),
                groups.history() == table::entries(views.take(i as int), f, g),
        {
            let k = key_of_stack(&samples[i].stack, key, resolved);
            let bytes: u128 = sample_weight(&samples[i], Weight::Allocated);
            assert(views[i as int] == samples[i as int]@);
            groups.record(k, bytes);
            assert(table::entries(views.take(i + 1), f, g) =~= table::entries(
                views.take(i as int),
                f,
                g,
            ).push((f(views[i as int]), g(views[i as int]))));
        }
        assert(views.take(views.len() as int) =~= views);
        groups.into_parts()
    }

    /// The `n` largest groups of samples, given what is known of their code
    /// addresses.
    #[verifier::rlimit(40)]
    pub fn top_sites_resolved(
        &self,
        n: usize,
        key: HotSpotKey,
        resolved: &HashMap<usize, ResolvedFrame>,
    ) -> (sites: Vec<HotSite>)
        ensures
            is_top(self@.samples, key, symbols::frame_views(resolved@), n as nat, site_views(sites@)),
    {
        if n == 0 {
            return Vec::new();
        }
        let ghost views = self@.samples;
        let ghost known = symbols::frame_views(resolved@);
        let ghost f = by_key(key, known);
        let ghost g = allocated_item();
        let ghost history = table::entries(views, f, g);
        let size: usize = self.len();
        assert(views.len() == size);
        let (keys, tallies) = self.tally_sites(key, resolved);
        let ghost ks = order::models(keys@);
        let mut keys = keys;
        let mut ranked: Vec<RankedSite> = Vec::new();
        let ghost row_of = |k: Seq<usize>| site_row(views, key, known, k);
        proof {
            assert forall|i: int| 0 <= i < ks.len() implies (#[trigger] tallies[i]).bytes
                == row_of(ks[i]).inclusive_bytes && tallies[i].count == row_of(ks[i]).sample_count by {
                assert(tallies@[i] == table::tally_of::<Seq<usize>, SiteTally>(history, ks[i]));
                table::tally_of_group::<Seq<usize>, SampleView, SiteTally>(views, f, g, ks[i]);
                table::members_no_longer(views, f, ks[i]);
                site_tally_closed_form(group(views, key, known, ks[i]));
            }
        }
        while keys.len() > 0
            invariant
                ks.len() == tallies.len(),
                keys.len() + ranked.len() == ks.len(),
                row_of == (|k: Seq<usize>| site_row(views, key, known, k)),
                forall|i: int| 0 <= i < keys.len() ==> #[trigger] keys[i]@ == ks[i],
                forall|i: int|
                    0 <= i < ks.len() ==> (#[trigger] tallies[i]).bytes == row_of(ks[i]).inclusive_bytes
                        && tallies[i].count == row_of(ks[i]).sample_count,
                forall|j: int|
                    0 <= j < ranked.len() ==> (#[trigger] ranked[j]).model() == rank_of(
                        row_of(ks[ks.len() - 1 - j]),
                    ),
            decreases keys.len(),
        {
            if let Some(k) = keys.pop() {
                let at: usize = keys.len();
                let tally = tallies[at];
                ranked.push(RankedSite { bytes: tally.bytes, count: tally.count, key: k });
            }
        }
        let ghost ms = order::models(ranked@);
        proof {
            order::ascending_is_distinct::<Vec<usize>>(ks);
            assert forall|i: int, j: int| 0 <= i < j < ms.len() implies #[trigger] ms[i] != #[trigger] ms[j] by {
                assert(ranked[i].model() == ms[i] && ranked[j].model() == ms[j]);
                assert(ks[ks.len() - 1 - j] != ks[ks.len() - 1 - i]);
            }
        }
        let ranked = sort(ranked);
        let ghost sorted = order::models(ranked@);
        let ghost rows = Seq::new(sorted.len(), |i: int| row_of(sorted[i].2));
        proof {
            hot_table_from_groups(views, key, known, ks, ms, sorted, rows);
        }
        let mut sites: Vec<HotSite> = Vec::new();
        let mut rest = ranked;
        if rest.len() > n {
            rest.truncate(n);
        }
        for i in 0..rest.len()
            invariant
                rest.len() == top(rows, n as nat).len(),
                rest.len() <= sorted.len() == rows.len(),
                forall|i: int| 0 <= i < rest.len() ==> (#[trigger] rest[i]).model() == sorted[i],
                forall|i: int| 0 <= i < sorted.len() ==> #[trigger] sorted[i] == rank_of(rows[i]),
                forall|i: int| 0 <= i < rows.len() ==> (#[trigger] rows[i]).leaf_frame == leaf_of(rows[i].stack),
                sites.len() == i,
                forall|j: int| 0 <= j < i ==> (#[trigger] sites[j])@ == rows[j],
        {
            let r = &rest[i];
            assert(r.model() == sorted[i as int]);
            let stack = r.key.clone();
            assert(stack@ =~= r.key@);
            sites.push(
                HotSite {
                    leaf_frame: first_frame(&r.key),
                    stack,
                    inclusive_bytes: r.bytes,
                    sample_count: r.count,
                },
            );
        }
        assert(site_views(sites@) =~= top(rows, n as nat));
        sites
    }
}

impl HeapProfile {
    /// The `n` largest groups of samples, without names for their code
    /// addresses. [`HotSpotKey::CallSite`] then groups by the innermost
    /// frame.
    pub fn top_sites(&self, n: usize, key: HotSpotKey) -> (sites: Vec<HotSite>)
        ensures
            is_top(self@.samples, key, Map::empty(), n as nat, site_views(sites@)),
    {
        let resolved: HashMap<usize, ResolvedFrame> = HashMap::new();
        assert(symbols::frame_views(resolved@) =~= Map::<usize, FrameView>::empty());
        self.top_sites_resolved(n, key, &resolved)
    }

    /// The `n` largest groups of samples. [`HotSpotKey::CallSite`] looks the
    /// code addresses up to tell the allocator's frames from others.
    pub fn top_sites_symbolized(&self, n: usize, key: HotSpotKey, cache: &mut SymbolCache) -> (sites:
        Vec<HotSite>)
        ensures
            n == 0 || key != HotSpotKey::CallSite ==> {
                &&& final(cache)@ == old(cache)@
                &&& is_top(self@.samples, key, Map::empty(), n as nat, site_views(sites@))
            },
            n > 0 && key == HotSpotKey::CallSite ==> {
                &&& symbols::extends(
                    old(cache)@,
                    final(cache)@,
                    symbols::frames_of(self@.samples),
                )
                &&& exists|resolved: Map<usize, FrameView>|
                    {
                        &&& #[trigger] symbols::answers(
                            resolved,
                            symbols::frames_of(self@.samples),
                            final(cache)@,
                        )
                        &&& is_top(self@.samples, key, resolved, n as nat, site_views(sites@))
                    }
            },
    {
        if n > 0 {
            if let HotSpotKey::CallSite = key {
                let resolved = self.symbolize(cache);
                return self.top_sites_resolved(n, key, &resolved);
            }
        }
        self.top_sites(n, key)
    }
}

/// At most as many groups are reported as were asked for.
pub proof fn top_is_no_longer_than_asked(
    samples: Seq<SampleView>,
    key: HotSpotKey,
    resolved: Map<usize, FrameView>,
    n: nat,
    sites: Seq<SiteView>,
)
    requires
        is_top(samples, key, resolved, n, sites),
    ensures
        sites.len() <= n,
{
}

/// The ranked table is unique.
pub proof fn hot_table_is_unique(
    samples: Seq<SampleView>,
    key: HotSpotKey,
    resolved: Map<usize, FrameView>,
    a: Seq<SiteView>,
    b: Seq<SiteView>,
)
    requires
        is_hot_table(samples, key, resolved, a),
        is_hot_table(samples, key, resolved, b),
    ensures
        a == b,
{
    let ra = ranks_of(a);
    let rb = ranks_of(b);
    rows_have_ranks_of_each_other(samples, key, resolved, a, b);
    rows_have_ranks_of_each_other(samples, key, resolved, b, a);
    assert(order::ascending::<RankedSite>(ra)) by {
        assert forall|i: int, j: int| 0 <= i < j < ra.len() implies RankedSite::before(
            #[trigger] ra[i],
            #[trigger] ra[j],
        ) by {
            assert(ranks_before(a[i], a[j]));
        }
    }
    assert(order::ascending::<RankedSite>(rb)) by {
        assert forall|i: int, j: int| 0 <= i < j < rb.len() implies RankedSite::before(
            #[trigger] rb[i],
            #[trigger] rb[j],
        ) by {
            assert(ranks_before(b[i], b[j]));
        }
    }
    order::ascending_is_unique::<RankedSite>(ra, rb);
    assert forall|i: int| 0 <= i < a.len() implies a[i] == b[i] by {
        assert(ra[i] == rank_of(a[i]));
        assert(rb[i] == rank_of(b[i]));
        assert(a[i] == site_row(samples, key, resolved, a[i].stack));
        assert(b[i] == site_row(samples, key, resolved, b[i].stack));
    }
    assert(a.len() == ra.len() && b.len() == rb.len());
    assert(a =~= b);
}

proof fn rows_have_ranks_of_each_other(
    samples: Seq<SampleView>,
    key: HotSpotKey,
    resolved: Map<usize, FrameView>,
    a: Seq<SiteView>,
    b: Seq<SiteView>,
)
    requires
        is_hot_table(samples, key, resolved, a),
        is_hot_table(samples, key, resolved, b),
    ensures
        forall|i: int| 0 <= i < ranks_of(a).len() ==> ranks_of(b).contains(#[trigger] ranks_of(a)[i]),
{
    let ra = ranks_of(a);
    let rb = ranks_of(b);
    assert forall|i: int| 0 <= i < ra.len() implies rb.contains(#[trigger] ra[i]) by {
        let k = a[i].stack;
        assert(table::has_member(samples, by_key(key, resolved), k));
        let s = choose|s: int|
            0 <= s < samples.len() && by_key(key, resolved)(#[trigger] samples[s]) == k;
        assert(has_row(b, group_key(samples[s].stack, key, resolved)));
        let j = choose|j: int| 0 <= j < b.len() && (#[trigger] b[j]).stack == k;
        assert(b[j] == site_row(samples, key, resolved, k));
        assert(a[i] == site_row(samples, key, resolved, k));
        assert(rb[j] == ra[i]);
    }
}

/// No two rows stand for the same group.
pub proof fn one_row_per_group(
    samples: Seq<SampleView>,
    key: HotSpotKey,
    resolved: Map<usize, FrameView>,
    rows: Seq<SiteView>,
)
    requires
        is_hot_table(samples, key, resolved, rows),
    ensures
        forall|i: int, j: int|
            0 <= i < j < rows.len() ==> (#[trigger] rows[i]).stack != (#[trigger] rows[j]).stack,
{
    assert forall|i: int, j: int| 0 <= i < j < rows.len() implies (#[trigger] rows[i]).stack != (
    #[trigger] rows[j]).stack by {
        assert(ranks_before(rows[i], rows[j]));
        if rows[i].stack == rows[j].stack {
            RankedSite::before_irreflexive(rank_of(rows[i]));
        }
    }
}

/// The bytes of all rows of a table.
pub open spec fn bytes_of_rows(rows: Seq<SiteView>) -> nat {
    table::weigh(rows, |r: SiteView| r.inclusive_bytes as nat)
}

/// The samples of all rows of a table.
pub open spec fn samples_of_rows(rows: Seq<SiteView>) -> nat {
    table::weigh(rows, |r: SiteView| r.sample_count as nat)
}

/// No sample is lost or counted twice: the rows of the ranked table hold
/// together all samples, and all allocated bytes where their total fits the
/// counter.
pub proof fn hot_table_totals(
    samples: Seq<SampleView>,
    key: HotSpotKey,
    resolved: Map<usize, FrameView>,
    rows: Seq<SiteView>,
)
    requires
        is_hot_table(samples, key, resolved, rows),
        samples.len() <= usize::MAX,
    ensures
        samples_of_rows(rows) == samples.len(),
        profile::total_bytes(samples, Weight::Allocated) <= u128::MAX ==> bytes_of_rows(rows)
            == profile::total_bytes(samples, Weight::Allocated),
{
    let f = by_key(key, resolved);
    let keys = Seq::new(rows.len(), |i: int| rows[i].stack);
    one_row_per_group(samples, key, resolved, rows);
    assert(order::distinct(keys)) by {
        assert forall|i: int, j: int| 0 <= i < j < keys.len() implies #[trigger] keys[i]
            != #[trigger] keys[j] by {
            assert(rows[i].stack != rows[j].stack);
        }
    }
    assert forall|s: int| 0 <= s < samples.len() implies keys.contains(f(#[trigger] samples[s])) by {
        assert(has_row(rows, group_key(samples[s].stack, key, resolved)));
        let i = choose|i: int| 0 <= i < rows.len() && (#[trigger] rows[i]).stack == f(samples[s]);
        assert(keys[i] == f(samples[s]));
    }
    let w = |s: SampleView| profile::sample_bytes(s, Weight::Allocated);
    let one = |s: SampleView| 1nat;
    table::groups_partition(samples, f, keys, w);
    table::groups_partition(samples, f, keys, one);
    table::weigh_ones(samples);
    rows_weigh_their_groups(samples, key, resolved, rows, keys);
}

proof fn rows_weigh_their_groups(
    samples: Seq<SampleView>,
    key: HotSpotKey,
    resolved: Map<usize, FrameView>,
    rows: Seq<SiteView>,
    keys: Seq<Seq<usize>>,
)
    requires
        samples.len() <= usize::MAX,
        keys.len() == rows.len(),
        forall|i: int| 0 <= i < rows.len() ==> #[trigger] keys[i] == rows[i].stack,
        forall|i: int|
            0 <= i < rows.len() ==> #[trigger] rows[i] == site_row(samples, key, resolved, rows[i].stack),
    ensures
        samples_of_rows(rows) == table::weigh_groups(
            samples,
            by_key(key, resolved),
            keys,
            |s: SampleView| 1nat,
        ),
        ({
            let sum = table::weigh_groups(
                samples,
                by_key(key, resolved),
                keys,
                |s: SampleView| profile::sample_bytes(s, Weight::Allocated),
            );
            sum <= u128::MAX ==> bytes_of_rows(rows) == sum
        }),
    decreases rows.len(),
{
    if rows.len() > 0 {
        let fewer = rows.drop_last();
        let k = keys.last();
        let f = by_key(key, resolved);
        assert forall|i: int| 0 <= i < fewer.len() implies #[trigger] keys.drop_last()[i]
            == fewer[i].stack by {
            assert(keys[i] == rows[i].stack);
        }
        assert forall|i: int| 0 <= i < fewer.len() implies #[trigger] fewer[i] == site_row(
            samples,
            key,
            resolved,
            fewer[i].stack,
        ) by {
            assert(fewer[i] == rows[i]);
        }
        rows_weigh_their_groups(samples, key, resolved, fewer, keys.drop_last());
        assert(keys[rows.len() - 1] == rows[rows.len() - 1].stack);
        assert(rows.last() == site_row(samples, key, resolved, k));
        table::weigh_ones(group(samples, key, resolved, k));
        table::members_no_longer(samples, f, k);
    }
}

/// The table has no more rows than there are samples.
pub proof fn no_more_rows_than_samples(
    samples: Seq<SampleView>,
    key: HotSpotKey,
    resolved: Map<usize, FrameView>,
    rows: Seq<SiteView>,
)
    requires
        is_hot_table(samples, key, resolved, rows),
    ensures
        rows.len() <= samples.len(),
{
    let f = by_key(key, resolved);
    one_row_per_group(samples, key, resolved, rows);
    let owners = Seq::new(
        rows.len(),
        |i: int| choose|s: int| 0 <= s < samples.len() && f(#[trigger] samples[s]) == rows[i].stack,
    );
    assert forall|i: int| 0 <= i < owners.len() implies 0 <= #[trigger] owners[i] < samples.len() && f(
        samples[owners[i]],
    ) == rows[i].stack by {
        assert(table::has_member(samples, f, rows[i].stack));
    }
    assert forall|i: int, j: int| 0 <= i < j < owners.len() implies #[trigger] owners[i]
        != #[trigger] owners[j] by {
        assert(rows[i].stack != rows[j].stack);
    }
    order::distinct_places_fit(owners, samples.len() as int);
}

/// The rows whose innermost frame is `leaf`.
pub open spec fn rows_with_leaf(rows: Seq<SiteView>, leaf: usize) -> Seq<SiteView> {
    rows.filter(|r: SiteView| r.leaf_frame == leaf)
}

/// Where nothing is cut off and the total fits the counter, the row of an
/// innermost frame holds together the bytes and the samples of the rows of
/// all stacks with that frame, and there are at least as many rows of stacks.
pub proof fn leaf_rows_sum_up_stacks(
    samples: Seq<SampleView>,
    resolved: Map<usize, FrameView>,
    n: nat,
    leaves: Seq<SiteView>,
    stacks: Seq<SiteView>,
)
    requires
        samples.len() <= n <= usize::MAX,
        profile::total_bytes(samples, Weight::Allocated) <= u128::MAX,
        is_top(samples, HotSpotKey::LeafFrame, resolved, n, leaves),
        is_top(samples, HotSpotKey::FullStack, resolved, n, stacks),
    ensures
        forall|i: int|
            0 <= i < leaves.len() ==> {
                let same = rows_with_leaf(stacks, (#[trigger] leaves[i]).leaf_frame);
                &&& leaves[i].inclusive_bytes == bytes_of_rows(same)
                &&& leaves[i].sample_count == samples_of_rows(same)
            },
        leaves.len() <= stacks.len(),
{
    if n > 0 {
        uncut_rows(samples, HotSpotKey::LeafFrame, resolved, n, leaves);
        uncut_rows(samples, HotSpotKey::FullStack, resolved, n, stacks);
        assert forall|i: int| 0 <= i < leaves.len() implies {
            let same = rows_with_leaf(stacks, (#[trigger] leaves[i]).leaf_frame);
            &&& leaves[i].inclusive_bytes == bytes_of_rows(same)
            &&& leaves[i].sample_count == samples_of_rows(same)
        } by {
            leaf_row_sums_up_stacks(samples, resolved, leaves, stacks, i);
        }
        no_fewer_stacks_than_leaves(samples, resolved, leaves, stacks);
    }
}

proof fn uncut_rows(
    samples: Seq<SampleView>,
    key: HotSpotKey,
    resolved: Map<usize, FrameView>,
    n: nat,
    sites: Seq<SiteView>,
)
    requires
        0 < n,
        samples.len() <= n,
        is_top(samples, key, resolved, n, sites),
    ensures
        is_hot_table(samples, key, resolved, sites),
{
    let rows = choose|rows: Seq<SiteView>| #[trigger]
        is_hot_table(samples, key, resolved, rows) && sites == top(rows, n);
    no_more_rows_than_samples(samples, key, resolved, rows);
    assert(top(rows, n) =~= rows);
}

proof fn no_fewer_stacks_than_leaves(
    samples: Seq<SampleView>,
    resolved: Map<usize, FrameView>,
    leaves: Seq<SiteView>,
    stacks: Seq<SiteView>,
)
    requires
        is_hot_table(samples, HotSpotKey::LeafFrame, resolved, leaves),
        is_hot_table(samples, HotSpotKey::FullStack, resolved, stacks),
    ensures
        leaves.len() <= stacks.len(),
{
    let f = by_key(HotSpotKey::LeafFrame, resolved);
    one_row_per_group(samples, HotSpotKey::LeafFrame, resolved, leaves);
    let places = Seq::new(
        leaves.len(),
        |i: int|
            choose|k: int|
                0 <= k < stacks.len() && seq![leaf_of((#[trigger] stacks[k]).stack)] == leaves[i].stack,
    );
    assert forall|i: int| 0 <= i < places.len() implies 0 <= #[trigger] places[i] < stacks.len() && seq![
        leaf_of(stacks[places[i]].stack),
    ] == leaves[i].stack by {
        assert(table::has_member(samples, f, leaves[i].stack));
        let s = choose|s: int| 0 <= s < samples.len() && f(#[trigger] samples[s]) == leaves[i].stack;
        assert(has_row(stacks, group_key(samples[s].stack, HotSpotKey::FullStack, resolved)));
        let k = choose|k: int| 0 <= k < stacks.len() && (#[trigger] stacks[k]).stack == samples[s].stack;
        assert(seq![leaf_of(stacks[k].stack)] == leaves[i].stack);
    }
    assert forall|i: int, j: int| 0 <= i < j < places.len() implies #[trigger] places[i]
        != #[trigger] places[j] by {
        assert(leaves[i].stack != leaves[j].stack);
    }
    order::distinct_places_fit(places, stacks.len() as int);
}

proof fn leaf_row_sums_up_stacks(
    samples: Seq<SampleView>,
    resolved: Map<usize, FrameView>,
    leaves: Seq<SiteView>,
    stacks: Seq<SiteView>,
    i: int,
)
    requires
        samples.len() <= usize::MAX,
        profile::total_bytes(samples, Weight::Allocated) <= u128::MAX,
        is_hot_table(samples, HotSpotKey::LeafFrame, resolved, leaves),
        is_hot_table(samples, HotSpotKey::FullStack, resolved, stacks),
        0 <= i < leaves.len(),
    ensures
        leaves[i].inclusive_bytes == bytes_of_rows(rows_with_leaf(stacks, leaves[i].leaf_frame)),
        leaves[i].sample_count == samples_of_rows(rows_with_leaf(stacks, leaves[i].leaf_frame)),
{
    let by_leaf = by_key(HotSpotKey::LeafFrame, resolved);
    let by_stack = by_key(HotSpotKey::FullStack, resolved);
    let leaf = leaves[i].leaf_frame;
    let same = rows_with_leaf(stacks, leaf);
    let keys = Seq::new(same.len(), |k: int| same[k].stack);
    let w = |s: SampleView| profile::sample_bytes(s, Weight::Allocated);
    let one = |s: SampleView| 1nat;
    let members = table::members(samples, by_leaf, leaves[i].stack);
    assert(table::has_member(samples, by_leaf, leaves[i].stack));
    assert(leaves[i] == site_row(samples, HotSpotKey::LeafFrame, resolved, leaves[i].stack));
    assert(leaves[i].stack =~= seq![leaf]);
    one_row_per_group(samples, HotSpotKey::FullStack, resolved, stacks);
    distinct_rows_with_leaf(stacks, leaf);
    assert forall|k: int| 0 <= k < same.len() implies {
        &&& #[trigger] same[k] == site_row(samples, HotSpotKey::FullStack, resolved, same[k].stack)
        &&& leaf_of(same[k].stack) == leaf
    } by {
        assert(stacks.contains(same[k]));
        let r = choose|r: int| 0 <= r < stacks.len() && stacks[r] == same[k];
        assert(stacks[r] == site_row(samples, HotSpotKey::FullStack, resolved, stacks[r].stack));
    }
    assert(order::distinct(keys)) by {
        assert forall|a: int, b: int| 0 <= a < b < keys.len() implies #[trigger] keys[a]
            != #[trigger] keys[b] by {
            assert(same[a].stack != same[b].stack);
        }
    }
    assert forall|m: int| 0 <= m < members.len() implies keys.contains(by_stack(#[trigger] members[m])) by {
        let x = members[m];
        assert(members.contains(x));
        table::members_are_items(samples, by_leaf, leaves[i].stack, x);
        let s = choose|s: int| 0 <= s < samples.len() && samples[s] == x;
        assert(has_row(stacks, group_key(samples[s].stack, HotSpotKey::FullStack, resolved)));
        let r = choose|r: int| 0 <= r < stacks.len() && (#[trigger] stacks[r]).stack == x.stack;
        assert(stacks[r] == site_row(samples, HotSpotKey::FullStack, resolved, stacks[r].stack));
        assert(seq![leaf_of(x.stack)][0] == seq![leaf][0]);
        stacks.lemma_filter_contains(|q: SiteView| q.leaf_frame == leaf, r);
        let k = choose|k: int| 0 <= k < same.len() && same[k] == stacks[r];
        assert(keys[k] == x.stack);
    }
    table::groups_partition(members, by_stack, keys, w);
    table::groups_partition(members, by_stack, keys, one);
    groups_within_leaf(samples, resolved, leaf, keys, w);
    groups_within_leaf(samples, resolved, leaf, keys, one);
    table::members_weigh_no_more(samples, by_leaf, leaves[i].stack, w);
    table::members_no_longer(samples, by_leaf, leaves[i].stack);
    table::weigh_ones(members);
    rows_weigh_their_groups(samples, HotSpotKey::FullStack, resolved, same, keys);
}

/// Groups of stacks with one innermost frame weigh the same within the group
/// of that frame.
proof fn groups_within_leaf(
    samples: Seq<SampleView>,
    resolved: Map<usize, FrameView>,
    leaf: usize,
    keys: Seq<Seq<usize>>,
    weight: spec_fn(SampleView) -> nat,
)
    requires
        forall|k: int| 0 <= k < keys.len() ==> leaf_of(#[trigger] keys[k]) == leaf,
    ensures
        table::weigh_groups(
            table::members(samples, by_key(HotSpotKey::LeafFrame, resolved), seq![leaf]),
            by_key(HotSpotKey::FullStack, resolved),
            keys,
            weight,
        ) == table::weigh_groups(samples, by_key(HotSpotKey::FullStack, resolved), keys, weight),
    decreases keys.len(),
{
    if keys.len() > 0 {
        let fewer = keys.drop_last();
        assert forall|k: int| 0 <= k < fewer.len() implies leaf_of(#[trigger] fewer[k]) == leaf by {
            assert(fewer[k] == keys[k]);
        }
        groups_within_leaf(samples, resolved, leaf, fewer, weight);
        assert(leaf_of(keys[keys.len() - 1]) == leaf);
        table::members_within_group(
            samples,
            by_key(HotSpotKey::LeafFrame, resolved),
            by_key(HotSpotKey::FullStack, resolved),
            seq![leaf],
            keys.last(),
        );
    }
}

/// Rows picked by innermost frame are rows of the table, none of them twice.
proof fn distinct_rows_with_leaf(rows: Seq<SiteView>, leaf: usize)
    requires
        forall|i: int, j: int|
            0 <= i < j < rows.len() ==> (#[trigger] rows[i]).stack != (#[trigger] rows[j]).stack,
    ensures
        ({
            let same = rows_with_leaf(rows, leaf);
            &&& forall|i: int, j: int|
                0 <= i < j < same.len() ==> (#[trigger] same[i]).stack != (#[trigger] same[j]).stack
            &&& forall|k: int|
                0 <= k < same.len() ==> rows.contains(#[trigger] same[k]) && same[k].leaf_frame == leaf
        }),
    decreases rows.len(),
{
    reveal(Seq::filter);
    if rows.len() > 0 {
        let fewer = rows.drop_last();
        let was = rows_with_leaf(fewer, leaf);
        let same = rows_with_leaf(rows, leaf);
        distinct_rows_with_leaf(fewer, leaf);
        assert forall|k: int| 0 <= k < same.len() implies rows.contains(#[trigger] same[k])
            && same[k].leaf_frame == leaf by {
            if k < was.len() {
                assert(same[k] == was[k]);
                assert(fewer.contains(was[k]));
                let r = choose|r: int| 0 <= r < fewer.len() && fewer[r] == was[k];
                assert(rows[r] == same[k]);
            } else {
                assert(rows[rows.len() - 1] == same[k]);
            }
        }
        assert forall|i: int, j: int| 0 <= i < j < same.len() implies (#[trigger] same[i]).stack != (
        #[trigger] same[j]).stack by {
            assert(same[i] == was[i]);
            if j < was.len() {
                assert(same[j] == was[j]);
            } else {
                assert(fewer.contains(was[i]));
                let r = choose|r: int| 0 <= r < fewer.len() && fewer[r] == was[i];
                assert(rows[r].stack != rows[rows.len() - 1].stack);
            }
        }
    }
}

/// Without names, grouping by call site is grouping by innermost frame.
pub proof fn unnamed_call_sites_are_leaves(samples: Seq<SampleView>, rows: Seq<SiteView>)
    ensures
        is_hot_table(samples, HotSpotKey::CallSite, Map::empty(), rows) <==> is_hot_table(
            samples,
            HotSpotKey::LeafFrame,
            Map::empty(),
            rows,
        ),
{
    let none = Map::<usize, FrameView>::empty();
    assert forall|stack: Seq<usize>| #[trigger]
        group_key(stack, HotSpotKey::CallSite, none) == group_key(stack, HotSpotKey::LeafFrame, none) by {
        if stack.len() > 0 {
            assert(!in_allocator(stack[0], none));
        }
    }
    assert(by_key(HotSpotKey::CallSite, none) =~= by_key(HotSpotKey::LeafFrame, none));
}

/// A call site lies outside the allocator wherever the stack has a frame
/// outside it, and it is always one of the stack's frames.
pub proof fn call_site_is_outside(stack: Seq<usize>, resolved: Map<usize, FrameView>)
    requires
        stack.len() > 0,
    ensures
        stack.contains(call_site(stack, resolved)),
        (exists|i: int| 0 <= i < stack.len() && !in_allocator(#[trigger] stack[i], resolved))
            ==> !in_allocator(call_site(stack, resolved), resolved),
{
    first_user_frame_found(stack, resolved);
    assert(stack.contains(stack[0]));
}

proof fn first_user_frame_found(stack: Seq<usize>, resolved: Map<usize, FrameView>)
    ensures
        match first_user_frame(stack, resolved) {
            Some(frame) => stack.contains(frame) && !in_allocator(frame, resolved),
            None => forall|i: int| 0 <= i < stack.len() ==> in_allocator(#[trigger] stack[i], resolved),
        },
    decreases stack.len(),
{
    if stack.len() > 0 {
        assert(stack.contains(stack[0]));
        let rest = stack.skip(1);
        first_user_frame_found(rest, resolved);
        if in_allocator(stack[0], resolved) {
            match first_user_frame(rest, resolved) {
                Some(frame) => {
                    let i = choose|i: int| 0 <= i < rest.len() && rest[i] == frame;
                    assert(stack[i + 1] == frame);
                },
                None => {
                    assert forall|i: int| 0 <= i < stack.len() implies in_allocator(
                        #[trigger] stack[i],
                        resolved,
                    ) by {
                        if i > 0 {
                            assert(rest[i - 1] == stack[i]);
                        }
                    }
                },
            }
        }
    }
}

#[verifier::rlimit(40)]
proof fn hot_table_from_groups(
    samples: Seq<SampleView>,
    key: HotSpotKey,
    resolved: Map<usize, FrameView>,
    keys: Seq<Seq<usize>>,
    unsorted: Seq<(u128, u64, Seq<usize>)>,
    sorted: Seq<(u128, u64, Seq<usize>)>,
    rows: Seq<SiteView>,
)
    requires
        forall|i: int|
            0 <= i < keys.len() ==> table::occurs(
                table::entries(samples, by_key(key, resolved), allocated_item()),
                #[trigger] keys[i],
            ),
        forall|s: int|
            0 <= s < samples.len() ==> keys.contains(
                (#[trigger] table::entries(samples, by_key(key, resolved), allocated_item())[s]).0,
            ),
        unsorted.len() == keys.len(),
        forall|j: int|
            0 <= j < unsorted.len() ==> #[trigger] unsorted[j] == rank_of(
                site_row(samples, key, resolved, keys[keys.len() - 1 - j]),
            ),
        order::ascending::<RankedSite>(sorted),
        order::same_members(sorted, unsorted),
        rows.len() == sorted.len(),
        forall|i: int|
            0 <= i < rows.len() ==> #[trigger] rows[i] == site_row(samples, key, resolved, sorted[i].2),
    ensures
        is_hot_table(samples, key, resolved, rows),
        forall|i: int| 0 <= i < sorted.len() ==> #[trigger] sorted[i] == rank_of(rows[i]),
{
    let f = by_key(key, resolved);
    let history = table::entries(samples, f, allocated_item());
    assert forall|i: int| 0 <= i < sorted.len() implies {
        &&& #[trigger] sorted[i] == rank_of(rows[i])
        &&& table::has_member(samples, f, sorted[i].2)
    } by {
        assert(unsorted.contains(sorted[i]));
        let j = choose|j: int| 0 <= j < unsorted.len() && unsorted[j] == sorted[i];
        let k = keys[keys.len() - 1 - j];
        assert(unsorted[j] == rank_of(site_row(samples, key, resolved, k)));
        table::occurs_in_entries(samples, f, allocated_item(), k);
    }
    assert forall|i: int, j: int| 0 <= i < j < rows.len() implies ranks_before(
        #[trigger] rows[i],
        #[trigger] rows[j],
    ) by {
        assert(RankedSite::before(sorted[i], sorted[j]));
    }
    assert forall|i: int| 0 <= i < rows.len() implies {
        &&& table::has_member(samples, f, (#[trigger] rows[i]).stack)
        &&& rows[i] == site_row(samples, key, resolved, rows[i].stack)
    } by {
        assert(sorted[i] == rank_of(rows[i]));
    }
    assert forall|s: int| 0 <= s < samples.len() implies has_row(
        rows,
        group_key((#[trigger] samples[s]).stack, key, resolved),
    ) by {
        assert(history[s].0 == f(samples[s]));
        assert(keys.contains(history[s].0));
        let j = choose|j: int| 0 <= j < keys.len() && keys[j] == f(samples[s]);
        let u = keys.len() - 1 - j;
        assert(unsorted[u] == rank_of(site_row(samples, key, resolved, keys[j])));
        assert(sorted.contains(unsorted[u]));
        let i = choose|i: int| 0 <= i < sorted.len() && sorted[i] == unsorted[u];
        assert(rows[i].stack == f(samples[s]));
    }
}

/// A name is the allocator's exactly where one of these prefixes starts it.
pub proof fn allocator_names_by_prefix(name: &str, b: bool)
    requires
        call_ensures(is_allocator_frame_name, (name,), b),
    ensures
        b == is_allocator_name(name@),
        b <==> {
            ||| "snmalloc::"@.is_prefix_of(name@)
            ||| "snmalloc_rs::"@.is_prefix_of(name@)
            ||| "snmalloc_sys::"@.is_prefix_of(name@)
            ||| "_ZN8snmalloc"@.is_prefix_of(name@)
            ||| "sn_rust_"@.is_prefix_of(name@)
            ||| "__rust_alloc"@.is_prefix_of(name@)
            ||| "__rust_dealloc"@.is_prefix_of(name@)
            ||| "__rust_realloc"@.is_prefix_of(name@)
            ||| "__rg_alloc"@.is_prefix_of(name@)
            ||| "__rg_dealloc"@.is_prefix_of(name@)
            ||| "__rg_realloc"@.is_prefix_of(name@)
        },
{
    allocator_names_are_prefixed(name@);
}

proof fn allocator_names_are_prefixed(name: Seq<char>)
    ensures
        is_allocator_name(name) <==> {
            ||| "snmalloc::"@.is_prefix_of(name)
            ||| "snmalloc_rs::"@.is_prefix_of(name)
            ||| "snmalloc_sys::"@.is_prefix_of(name)
            ||| "_ZN8snmalloc"@.is_prefix_of(name)
            ||| "sn_rust_"@.is_prefix_of(name)
            ||| "__rust_alloc"@.is_prefix_of(name)
            ||| "__rust_dealloc"@.is_prefix_of(name)
            ||| "__rust_realloc"@.is_prefix_of(name)
            ||| "__rg_alloc"@.is_prefix_of(name)
            ||| "__rg_dealloc"@.is_prefix_of(name)
            ||| "__rg_realloc"@.is_prefix_of(name)
        },
{
    text::prefixes_start_texts(name, "snmalloc::"@);
    text::prefixes_start_texts(name, "snmalloc_rs::"@);
    text::prefixes_start_texts(name, "snmalloc_sys::"@);
    text::prefixes_start_texts(name, "_ZN8snmalloc"@);
    text::prefixes_start_texts(name, "sn_rust_"@);
    text::prefixes_start_texts(name, "__rust_alloc"@);
    text::prefixes_start_texts(name, "__rust_dealloc"@);
    text::prefixes_start_texts(name, "__rust_realloc"@);
    text::prefixes_start_texts(name, "__rg_alloc"@);
    text::prefixes_start_texts(name, "__rg_dealloc"@);
    text::prefixes_start_texts(name, "__rg_realloc"@);
}

/// A frame lies in the allocator exactly where a name is known for its address
/// and one of these prefixes starts that name.
pub proof fn allocator_frames_by_name(address: usize, resolved: Map<usize, FrameView>)
    ensures
        in_allocator(address, resolved) <==> {
            &&& resolved.contains_key(address)
            &&& resolved[address].name is Some
            &&& {
                let name = resolved[address].name->0;
                ||| "snmalloc::"@.is_prefix_of(name)
                ||| "snmalloc_rs::"@.is_prefix_of(name)
                ||| "snmalloc_sys::"@.is_prefix_of(name)
                ||| "_ZN8snmalloc"@.is_prefix_of(name)
                ||| "sn_rust_"@.is_prefix_of(name)
                ||| "__rust_alloc"@.is_prefix_of(name)
                ||| "__rust_dealloc"@.is_prefix_of(name)
                ||| "__rust_realloc"@.is_prefix_of(name)
                ||| "__rg_alloc"@.is_prefix_of(name)
                ||| "__rg_dealloc"@.is_prefix_of(name)
                ||| "__rg_realloc"@.is_prefix_of(name)
            }
        },
{
    if resolved.contains_key(address) && resolved[address].name is Some {
        allocator_names_are_prefixed(resolved[address].name->0);
    }
}

/// The frame at place `i` is the first of the stack outside the allocator.
pub open spec fn first_outside(stack: Seq<usize>, resolved: Map<usize, FrameView>, i: int) -> bool {
    &&& 0 <= i < stack.len()
    &&& !in_allocator(stack[i], resolved)
    &&& forall|j: int| 0 <= j < i ==> in_allocator(#[trigger] stack[j], resolved)
}

/// The call site is the innermost frame outside the allocator: every frame
/// further in lies inside it. It is the innermost frame where all frames lie
/// inside, and 0 where there is none.
pub proof fn call_site_is_innermost_outside(stack: Seq<usize>, resolved: Map<usize, FrameView>)
    ensures
        stack.len() == 0 ==> call_site(stack, resolved) == 0,
        stack.len() > 0 && (forall|j: int|
            0 <= j < stack.len() ==> in_allocator(#[trigger] stack[j], resolved)) ==> call_site(
            stack,
            resolved,
        ) == stack[0],
        forall|i: int| #[trigger]
            first_outside(stack, resolved, i) ==> call_site(stack, resolved) == stack[i],
        (exists|j: int| 0 <= j < stack.len() && !in_allocator(#[trigger] stack[j], resolved))
            ==> exists|i: int| #[trigger]
            first_outside(stack, resolved, i) && stack[i] == call_site(stack, resolved),
{
    first_user_frame_found(stack, resolved);
    first_user_frame_is_first(stack, resolved);
    if first_user_frame(stack, resolved) is Some {
        let f = choose|f: int| #[trigger]
            first_outside(stack, resolved, f) && first_user_frame(stack, resolved) == Some(stack[f]);
        assert forall|i: int| #[trigger] first_outside(stack, resolved, i) implies i == f by {
            if i < f {
                assert(in_allocator(stack[i], resolved));
            } else if f < i {
                assert(in_allocator(stack[f], resolved));
            }
        }
    }
}

proof fn first_user_frame_is_first(stack: Seq<usize>, resolved: Map<usize, FrameView>)
    ensures
        first_user_frame(stack, resolved) is Some ==> exists|i: int| #[trigger]
            first_outside(stack, resolved, i) && first_user_frame(stack, resolved) == Some(stack[i]),
    decreases stack.len(),
{
    if stack.len() > 0 {
        if !in_allocator(stack[0], resolved) {
            assert(first_outside(stack, resolved, 0));
        } else {
            let rest = stack.skip(1);
            first_user_frame_is_first(rest, resolved);
            if first_user_frame(rest, resolved) is Some {
                let i = choose|i: int| #[trigger]
                    first_outside(rest, resolved, i) && first_user_frame(rest, resolved) == Some(rest[i]);
                assert forall|j: int| 0 <= j < i + 1 implies in_allocator(#[trigger] stack[j], resolved) by {
                    if j > 0 {
                        assert(rest[j - 1] == stack[j]);
                    }
                }
                assert(stack[i + 1] == rest[i]);
                assert(first_outside(stack, resolved, i + 1));
            }
        }
    }
}

/// The frame that a stack is bucketed by is the innermost frame outside the
/// allocator: every frame further in lies inside it. It is the innermost frame
/// where all frames lie inside, and 0 where there is none.
pub proof fn buckets_are_innermost_outside(
    stack: &Vec<usize>,
    resolved: &HashMap<usize, ResolvedFrame>,
    frame: usize,
)
    requires
        call_ensures(callsite_bucket_frame, (stack, resolved), frame),
    ensures
        ({
            let known = symbols::frame_views(resolved@);
            &&& stack@.len() == 0 ==> frame == 0
            &&& stack@.len() > 0 && (forall|j: int|
                0 <= j < stack@.len() ==> in_allocator(#[trigger] stack@[j], known)) ==> frame
                == stack@[0]
            &&& (exists|j: int| 0 <= j < stack@.len() && !in_allocator(#[trigger] stack@[j], known))
                ==> exists|i: int|
                {
                    &&& 0 <= i < stack@.len()
                    &&& #[trigger] stack@[i] == frame
                    &&& !in_allocator(stack@[i], known)
                    &&& forall|j: int| 0 <= j < i ==> in_allocator(#[trigger] stack@[j], known)
                }
        }),
{
    let known = symbols::frame_views(resolved@);
    call_site_is_innermost_outside(stack@, known);
    if exists|j: int| 0 <= j < stack@.len() && !in_allocator(#[trigger] stack@[j], known) {
        let i = choose|i: int| #[trigger]
            first_outside(stack@, known, i) && stack@[i] == call_site(stack@, known);
        assert(stack@[i] == frame);
    }
}

/// The innermost frame of a stack, or 0, picks the samples of a row when
/// samples are grouped by innermost frame; the whole stack does when they are
/// grouped by stack, and the call site when they are grouped by call site. A
/// row counts these samples and adds their bytes up.
pub proof fn rows_tell_of_their_samples(
    samples: Seq<SampleView>,
    key: HotSpotKey,
    resolved: Map<usize, FrameView>,
    rows: Seq<SiteView>,
    i: int,
)
    requires
        samples.len() <= usize::MAX,
        is_hot_table(samples, key, resolved, rows),
        0 <= i < rows.len(),
    ensures
        ({
            let row = rows[i];
            let own = samples.filter(
                |s: SampleView|
                    match key {
                        HotSpotKey::LeafFrame => (if s.stack.len() > 0 {
                            s.stack[0]
                        } else {
                            0
                        }) == row.leaf_frame,
                        HotSpotKey::FullStack => s.stack == row.stack,
                        HotSpotKey::CallSite => call_site(s.stack, resolved) == row.leaf_frame,
                    },
            );
            let bytes = table::weigh(
                own,
                |s: SampleView| profile::sample_bytes(s, Weight::Allocated),
            );
            &&& own.len() > 0
            &&& row.sample_count == own.len()
            &&& bytes <= u128::MAX ==> row.inclusive_bytes == bytes
            &&& bytes > u128::MAX ==> row.inclusive_bytes == u128::MAX
            &&& key != HotSpotKey::FullStack ==> row.stack == seq![row.leaf_frame]
            &&& row.stack.len() > 0 ==> row.leaf_frame == row.stack[0]
            &&& row.stack.len() == 0 ==> row.leaf_frame == 0
        }),
{
    let row = rows[i];
    let f = by_key(key, resolved);
    let pick = |s: SampleView|
        match key {
            HotSpotKey::LeafFrame => (if s.stack.len() > 0 {
                s.stack[0]
            } else {
                0
            }) == row.leaf_frame,
            HotSpotKey::FullStack => s.stack == row.stack,
            HotSpotKey::CallSite => call_site(s.stack, resolved) == row.leaf_frame,
        };
    assert(row == site_row(samples, key, resolved, row.stack));
    assert(table::has_member(samples, f, row.stack));
    let s = choose|s: int| 0 <= s < samples.len() && f(#[trigger] samples[s]) == row.stack;
    if key != HotSpotKey::FullStack {
        assert(row.stack =~= seq![row.leaf_frame]);
    }
    assert forall|k: int| 0 <= k < samples.len() implies pick(#[trigger] samples[k]) == (f(samples[k])
        == row.stack) by {
        if key != HotSpotKey::FullStack {
            assert(f(samples[k])[0] == row.leaf_frame <==> f(samples[k]) =~= row.stack);
        }
    }
    table::picks_are_members(samples, f, row.stack, pick);
    let own = group(samples, key, resolved, row.stack);
    table::members_no_longer(samples, f, row.stack);
    table::members_are_items(samples, f, row.stack, samples[s]);
    assert(own.contains(samples[s]));
    let total = |s: SampleView| profile::sample_bytes(s, Weight::Allocated);
    assert(profile::total_bytes(own, Weight::Allocated) == table::weigh(own, total));
}

/// The rows are ranked: more bytes first, then more samples, then the smaller
/// key, compared frame by frame.
pub proof fn rows_are_ranked(
    samples: Seq<SampleView>,
    key: HotSpotKey,
    resolved: Map<usize, FrameView>,
    rows: Seq<SiteView>,
    i: int,
    j: int,
)
    requires
        is_hot_table(samples, key, resolved, rows),
        0 <= i < j < rows.len(),
    ensures
        rows[i].inclusive_bytes >= rows[j].inclusive_bytes,
        rows[i].inclusive_bytes == rows[j].inclusive_bytes ==> rows[i].sample_count >= rows[j].sample_count,
        rows[i].inclusive_bytes == rows[j].inclusive_bytes && rows[i].sample_count
            == rows[j].sample_count ==> {
            let a = rows[i].stack;
            let b = rows[j].stack;
            exists|n: int|
                {
                    &&& 0 <= n <= a.len()
                    &&& n < b.len()
                    &&& #[trigger] a.take(n) == b.take(n)
                    &&& n == a.len() || a[n] < b[n]
                }
        },
{
    assert(ranks_before(rows[i], rows[j]));
    if rows[i].inclusive_bytes == rows[j].inclusive_bytes && rows[i].sample_count
        == rows[j].sample_count {
        let a = rows[i].stack;
        let b = rows[j].stack;
        let wa = order::words(a);
        let wb = order::words(b);
        let n = choose|n: int|
            #[trigger] order::agree(wa, wb, n) && n < wb.len() && (n == wa.len() || wa[n] < wb[n]);
        assert forall|k: int| 0 <= k < n implies a[k] == b[k] by {
            assert(wa[k] == wb[k]);
        }
        assert(a.take(n) =~= b.take(n));
    }
}

/// What is reported are rows of the ranked table from its start: as many as
/// were asked for, or all. No sample is left out while there is room, and a
/// group that is left out counts for no more bytes than any row.
pub proof fn hottest_sites_are_reported(
    p: &HeapProfile,
    n: usize,
    key: HotSpotKey,
    resolved: &HashMap<usize, ResolvedFrame>,
    sites: Vec<HotSite>,
    rows: Seq<SiteView>,
)
    requires
        call_ensures(HeapProfile::top_sites_resolved, (p, n, key, resolved), sites),
        is_hot_table(p@.samples, key, symbols::frame_views(resolved@), rows),
    ensures
        sites@.len() == (if n < rows.len() {
            n as nat
        } else {
            rows.len()
        }),
        forall|i: int|
            0 <= i < sites@.len() ==> {
                &&& (#[trigger] sites@[i]).leaf_frame == rows[i].leaf_frame
                &&& sites@[i].stack@ == rows[i].stack
                &&& sites@[i].inclusive_bytes == rows[i].inclusive_bytes
                &&& sites@[i].sample_count == rows[i].sample_count
            },
        forall|i: int, j: int|
            0 <= i < sites@.len() <= j < rows.len() ==> (#[trigger] sites@[i]).inclusive_bytes >= (
            #[trigger] rows[j]).inclusive_bytes,
{
    let known = symbols::frame_views(resolved@);
    assert(is_top(p@.samples, key, known, n as nat, site_views(sites@)));
    if n > 0 {
        let table = choose|table: Seq<SiteView>| #[trigger]
            is_hot_table(p@.samples, key, known, table) && site_views(sites@) == top(table, n as nat);
        hot_table_is_unique(p@.samples, key, known, table, rows);
        let views = site_views(sites@);
        assert(views.len() == sites@.len());
        assert forall|i: int| 0 <= i < sites@.len() implies (#[trigger] sites@[i])@ == rows[i] by {
            assert(views[i] == sites@[i]@);
            assert(views == top(rows, n as nat));
        }
        assert forall|i: int, j: int| 0 <= i < sites@.len() <= j < rows.len() implies (
        #[trigger] sites@[i]).inclusive_bytes >= (#[trigger] rows[j]).inclusive_bytes by {
            assert(sites@[i]@ == rows[i]);
            assert(ranks_before(rows[i], rows[j]));
        }
    } else {
        assert(site_views(sites@).len() == sites@.len());
    }
}

/// Without names, the sites are those that an empty table of names gives, and
/// grouping by call site is grouping by innermost frame.
pub proof fn plain_sites_use_no_names(
    p: &HeapProfile,
    n: usize,
    key: HotSpotKey,
    none: &HashMap<usize, ResolvedFrame>,
    plain: Vec<HotSite>,
    with_none: Vec<HotSite>,
    leaves: Vec<HotSite>,
)
    requires
        none@ == Map::<usize, ResolvedFrame>::empty(),
        call_ensures(HeapProfile::top_sites, (p, n, key), plain),
        call_ensures(HeapProfile::top_sites_resolved, (p, n, key, none), with_none),
        call_ensures(HeapProfile::top_sites, (p, n, HotSpotKey::LeafFrame), leaves),
    ensures
        site_views(plain@) == site_views(with_none@),
        key == HotSpotKey::CallSite ==> site_views(plain@) == site_views(leaves@),
{
    assert(symbols::frame_views(none@) =~= Map::<usize, FrameView>::empty());
    tops_agree(p@.samples, key, n as nat, site_views(plain@), site_views(with_none@));
    if key == HotSpotKey::CallSite {
        if n > 0 {
            let rows = choose|rows: Seq<SiteView>| #[trigger]
                is_hot_table(p@.samples, HotSpotKey::LeafFrame, Map::empty(), rows)
                    && site_views(leaves@) == top(rows, n as nat);
            unnamed_call_sites_are_leaves(p@.samples, rows);
            assert(is_top(p@.samples, key, Map::empty(), n as nat, site_views(leaves@)));
        }
        tops_agree(p@.samples, key, n as nat, site_views(plain@), site_views(leaves@));
    }
}

proof fn tops_agree(
    samples: Seq<SampleView>,
    key: HotSpotKey,
    n: nat,
    a: Seq<SiteView>,
    b: Seq<SiteView>,
)
    requires
        is_top(samples, key, Map::empty(), n, a),
        is_top(samples, key, Map::empty(), n, b),
    ensures
        a == b,
{
    let none = Map::<usize, FrameView>::empty();
    if n > 0 {
        let ra = choose|rows: Seq<SiteView>| #[trigger]
            is_hot_table(samples, key, none, rows) && a == top(rows, n);
        let rb = choose|rows: Seq<SiteView>| #[trigger]
            is_hot_table(samples, key, none, rows) && b == top(rows, n);
        hot_table_is_unique(samples, key, none, ra, rb);
    } else {
        assert(a =~= b);
    }
}

/// Every sample has its row, so that no sample is dropped: some row's key is
/// the innermost frame, the stack or the call site of the sample.
pub proof fn every_sample_has_a_row(
    samples: Seq<SampleView>,
    key: HotSpotKey,
    resolved: Map<usize, FrameView>,
    rows: Seq<SiteView>,
    s: int,
)
    requires
        is_hot_table(samples, key, resolved, rows),
        0 <= s < samples.len(),
    ensures
        exists|i: int|
            0 <= i < rows.len() && (#[trigger] rows[i]).stack == (match key {
                HotSpotKey::LeafFrame => seq![
                    if samples[s].stack.len() > 0 {
                        samples[s].stack[0]
                    } else {
                        0
                    },
                ],
                HotSpotKey::FullStack => samples[s].stack,
                HotSpotKey::CallSite => seq![call_site(samples[s].stack, resolved)],
            }),
{
    assert(has_row(rows, group_key(samples[s].stack, key, resolved)));
}

/// Sites that are looked up are those of the same profile with the frames that
/// the cache keeps for it. Only grouping by call site looks anything up.
pub proof fn looked_up_sites_are_the_same(
    p: &HeapProfile,
    n: usize,
    key: HotSpotKey,
    cache: &mut SymbolCache,
    sites: Vec<HotSite>,
    resolved: &HashMap<usize, ResolvedFrame>,
    same: Vec<HotSite>,
)
    requires
        call_ensures(HeapProfile::top_sites_symbolized, (p, n, key, cache), sites),
        call_ensures(HeapProfile::top_sites_resolved, (p, n, key, resolved), same),
        symbols::answers(
            symbols::frame_views(resolved@),
            symbols::frames_of(p@.samples),
            final(cache)@,
        ),
    ensures
        site_views(sites@) == site_views(same@),
        n == 0 || key != HotSpotKey::CallSite ==> final(cache)@ == old(cache)@,
{
    let known = symbols::frame_views(resolved@);
    let samples = p@.samples;
    assert(is_top(samples, key, known, n as nat, site_views(same@)));
    if n == 0 {
        assert(site_views(sites@) =~= site_views(same@));
    } else {
        let b = choose|rows: Seq<SiteView>| #[trigger]
            is_hot_table(samples, key, known, rows) && site_views(same@) == top(rows, n as nat);
        if key == HotSpotKey::CallSite {
            let other = choose|other: Map<usize, FrameView>|
                {
                    &&& #[trigger] symbols::answers(other, symbols::frames_of(samples), final(cache)@)
                    &&& is_top(samples, key, other, n as nat, site_views(sites@))
                };
            symbols::answers_are_unique(known, other, symbols::frames_of(samples), final(cache)@);
            let a = choose|rows: Seq<SiteView>| #[trigger]
                is_hot_table(samples, key, known, rows) && site_views(sites@) == top(rows, n as nat);
            hot_table_is_unique(samples, key, known, a, b);
        } else {
            let a = choose|rows: Seq<SiteView>| #[trigger]
                is_hot_table(samples, key, Map::empty(), rows) && site_views(sites@) == top(rows, n as nat);
            assert(by_key(key, known) =~= by_key(key, Map::empty()));
            assert forall|i: int| 0 <= i < a.len() implies {
                &&& table::has_member(samples, by_key(key, known), (#[trigger] a[i]).stack)
                &&& a[i] == site_row(samples, key, known, a[i].stack)
            } by {
                assert(a[i] == site_row(samples, key, Map::empty(), a[i].stack));
            }
            assert forall|s: int| 0 <= s < samples.len() implies has_row(
                a,
                group_key((#[trigger] samples[s]).stack, key, known),
            ) by {
                assert(has_row(a, group_key(samples[s].stack, key, Map::empty())));
            }
            assert(is_hot_table(samples, key, known, a));
            hot_table_is_unique(samples, key, known, a, b);
        }
    }
}

/// The innermost frame is the first of a stack, and 0 where there is none. A
/// copy of a site is the same site.
pub proof fn stacks_start_with_the_innermost_frame(
    stack: &Vec<usize>,
    frame: usize,
    site: &HotSite,
    copy: HotSite,
)
    requires
        call_ensures(first_frame, (stack,), frame),
        call_ensures(<HotSite as Clone>::clone, (site,), copy),
    ensures
        stack@.len() > 0 ==> frame == stack@[0],
        stack@.len() == 0 ==> frame == 0,
        copy.leaf_frame == site.leaf_frame,
        copy.stack@ == site.stack@,
        copy.inclusive_bytes == site.inclusive_bytes,
        copy.sample_count == site.sample_count,
{
    assert(copy@ == site@);
}

} // verus!

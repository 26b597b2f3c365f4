//! Hardware events attributed to allocation sites.
use vstd::prelude::*;
use crate::allocator::{Frames, FramesView};
use crate::hotspot;
use crate::hotspot::first_frame;
use crate::order;
use crate::order::{sort, Rank, SortKey};
use crate::table;
use crate::table::{Table, Tally};
use crate::text;
use crate::text::{push_hex_address, text_of};

verus! {

/// One event that a hardware counter recorded.
#[derive(Debug)]
pub struct PerfSample {
    /// Instruction pointer.
    pub ip: u64,
    /// Address of the data, where the event carries one.
    pub data_addr: Option<u64>,
    /// Call stack, innermost first.
    pub callstack: Vec<u64>,
}

/// A code location that touches a contended cache line.
#[derive(Clone, Copy, Debug, PartialEq, Eq, Structural)]
pub struct C2cSource {
    /// Process that ran the code.
    pub pid: u64,
    /// Instruction pointer.
    pub ip: u64,
}

/// One contended cache line.
#[derive(Debug)]
pub struct C2cLine {
    /// Address of the line.
    pub cacheline_addr: u64,
    /// Loads served from a modified line of another core.
    pub hitm_count: u64,
    /// Code locations that touch the line.
    pub srcs: Vec<C2cSource>,
}

/// Cache misses on the memory of one allocation site.
#[derive(Debug)]
pub struct CacheMissRow {
    /// Innermost frame of the site, as text.
    pub site_leaf: String,
    /// Number of misses on all allocations of the site.
    pub miss_count: u64,
    /// Size in bytes of the largest allocation that was missed on, rounded up
    /// to a size class.
    pub bytes: u64,
}

#[verifier::ext_equal]
pub struct CacheMissView {
    pub site_leaf: Seq<char>,
    pub miss_count: u64,
    pub bytes: u64,
}

impl View for CacheMissRow {
    type V = CacheMissView;

    open spec fn view(&self) -> CacheMissView {
        CacheMissView {
            site_leaf: self.site_leaf@,
            miss_count: self.miss_count,
            bytes: self.bytes,
        }
    }
}

impl Default for CacheMissRow {
    fn default() -> (row: Self)
        ensures
            row@ == (CacheMissView { site_leaf: Seq::empty(), miss_count: 0, bytes: 0 }),
    {
        let row = CacheMissRow { site_leaf: String::new(), miss_count: 0, bytes: 0 };
        assert(row.site_leaf@ =~= Seq::empty());
        row
    }
}

impl Clone for CacheMissRow {
    fn clone(&self) -> (copy: Self)
        ensures
            copy@ == self@,
    {
        CacheMissRow {
            site_leaf: self.site_leaf.clone(),
            miss_count: self.miss_count,
            bytes: self.bytes,
        }
    }
}

/// A contended cache line with the allocation site that owns it.
#[derive(Debug)]
pub struct C2cRow {
    /// Address of the line, as text.
    pub cacheline: String,
    /// Loads served from a modified line of another core.
    pub hitm: u64,
    /// Innermost frame of the owning site, as text, or `<unattributed>`.
    pub site_leaf: String,
}

#[verifier::ext_equal]
pub struct C2cView {
    pub cacheline: Seq<char>,
    pub hitm: u64,
    pub site_leaf: Seq<char>,
}

impl View for C2cRow {
    type V = C2cView;

    open spec fn view(&self) -> C2cView {
        C2cView { cacheline: self.cacheline@, hitm: self.hitm, site_leaf: self.site_leaf@ }
    }
}

impl Default for C2cRow {
    fn default() -> (row: Self)
        ensures
            row@ == (C2cView { cacheline: Seq::empty(), hitm: 0, site_leaf: Seq::empty() }),
    {
        let row = C2cRow { cacheline: String::new(), hitm: 0, site_leaf: String::new() };
        assert(row.cacheline@ =~= Seq::empty());
        assert(row.site_leaf@ =~= Seq::empty());
        row
    }
}

impl Clone for C2cRow {
    fn clone(&self) -> (copy: Self)
        ensures
            copy@ == self@,
    {
        C2cRow {
            cacheline: self.cacheline.clone(),
            hitm: self.hitm,
            site_leaf: self.site_leaf.clone(),
        }
    }
}

pub open spec fn miss_views(rows: Seq<CacheMissRow>) -> Seq<CacheMissView> {
    Seq::new(rows.len(), |i: int| rows[i]@)
}

pub open spec fn c2c_views(rows: Seq<C2cRow>) -> Seq<C2cView> {
    Seq::new(rows.len(), |i: int| rows[i]@)
}

/// What a lookup found.
pub open spec fn found_view(found: Option<Frames>) -> Option<FramesView> {
    match found {
        Some(frames) => Some(frames@),
        None => None,
    }
}

pub open spec fn found_views(found: Seq<Option<Frames>>) -> Seq<Option<FramesView>> {
    Seq::new(found.len(), |i: int| found_view(found[i]))
}

/// An attributed miss: the innermost frame and the size of the allocation.
pub open spec fn hit_of(frames: FramesView) -> (usize, u64) {
    (hotspot::leaf_of(frames.frames), frames.allocated_size as u64)
}

/// The misses that could be attributed, in order.
pub open spec fn hits(found: Seq<Option<FramesView>>) -> Seq<(usize, u64)>
    decreases found.len(),
{
    if found.len() == 0 {
        Seq::empty()
    } else {
        let earlier = hits(found.drop_last());
        match found.last() {
            Some(frames) => earlier.push(hit_of(frames)),
            None => earlier,
        }
    }
}

/// A site with its number of misses and its largest allocation.
pub struct MissSite {
    pub count: u64,
    pub leaf: usize,
    pub bytes: u64,
}

/// The site that a miss counts for: the innermost frame.
pub open spec fn by_leaf() -> spec_fn((usize, u64)) -> usize {
    |h: (usize, u64)| h.0
}

/// The misses that count for a site.
pub open spec fn misses_at(hits: Seq<(usize, u64)>, leaf: usize) -> Seq<(usize, u64)> {
    table::members(hits, by_leaf(), leaf)
}

/// The largest size among misses.
pub open spec fn largest(hits: Seq<(usize, u64)>) -> u64
    decreases hits.len(),
{
    if hits.len() == 0 {
        0
    } else {
        let earlier = largest(hits.drop_last());
        if hits.last().1 > earlier {
            hits.last().1
        } else {
            earlier
        }
    }
}

/// Sites are ranked by misses descending, then by innermost frame ascending.
pub open spec fn miss_before(a: MissSite, b: MissSite) -> bool {
    ||| a.count > b.count
    ||| a.count == b.count && a.leaf < b.leaf
}

/// Some ranked site is the given one.
pub open spec fn has_site(ranked: Seq<MissSite>, leaf: usize) -> bool {
    exists|i: int| 0 <= i < ranked.len() && (#[trigger] ranked[i]).leaf == leaf
}

/// `ranked` lists every site that has a miss, once and in order, with its
/// number of misses and its largest allocation.
pub open spec fn is_miss_table(hits: Seq<(usize, u64)>, ranked: Seq<MissSite>) -> bool {
    &&& forall|i: int, j: int|
        0 <= i < j < ranked.len() ==> miss_before(#[trigger] ranked[i], #[trigger] ranked[j])
    &&& forall|i: int|
        0 <= i < ranked.len() ==> {
            &&& table::has_member(hits, by_leaf(), (#[trigger] ranked[i]).leaf)
            &&& ranked[i].count == misses_at(hits, ranked[i].leaf).len()
            &&& ranked[i].bytes == largest(misses_at(hits, ranked[i].leaf))
        }
    &&& forall|h: int| 0 <= h < hits.len() ==> has_site(ranked, (#[trigger] hits[h]).0)
}

/// The row of a site.
pub open spec fn miss_row(site: MissSite) -> CacheMissView {
    CacheMissView {
        site_leaf: text::hex_address(site.leaf as nat),
        miss_count: site.count,
        bytes: site.bytes,
    }
}

pub open spec fn miss_rows(ranked: Seq<MissSite>) -> Seq<CacheMissView> {
    Seq::new(ranked.len(), |i: int| miss_row(ranked[i]))
}

/// The first `n` rows, where 0 stands for all of them.
pub open spec fn limited<A>(rows: Seq<A>, n: nat) -> Seq<A> {
    if 0 < n < rows.len() {
        rows.take(n as int)
    } else {
        rows
    }
}

/// `rows` are the first `n` rows of the ranked table of misses.
pub open spec fn is_miss_report(
    found: Seq<Option<FramesView>>,
    n: nat,
    rows: Seq<CacheMissView>,
) -> bool {
    exists|ranked: Seq<MissSite>| #[trigger]
        is_miss_table(hits(found), ranked) && rows == limited(miss_rows(ranked), n)
}

#[derive(Clone, Copy)]
struct LeafKey {
    leaf: usize,
}

impl SortKey for LeafKey {
    type Model = usize;

    closed spec fn model(&self) -> usize {
        self.leaf
    }

    open spec fn before(a: usize, b: usize) -> bool {
        a < b
    }

    proof fn before_irreflexive(a: usize) {
    }

    proof fn before_transitive(a: usize, b: usize, c: usize) {
    }

    proof fn before_total(a: usize, b: usize) {
    }

    fn place(&self, other: &Self) -> (rank: Rank) {
        if self.leaf < other.leaf {
            Rank::Before
        } else if self.leaf > other.leaf {
            Rank::After
        } else {
            Rank::Same
        }
    }
}

#[derive(Clone, Copy)]
struct MissTally {
    count: u64,
    bytes: u64,
}

impl Tally for MissTally {
    type Item = u64;

    closed spec fn start() -> MissTally {
        MissTally { count: 0, bytes: 0 }
    }

    closed spec fn step(self, item: u64) -> MissTally {
        MissTally {
            count: if self.count < u64::MAX {
                (self.count + 1) as u64
            } else {
                u64::MAX
            },
            bytes: if item > self.bytes {
                item
            } else {
                self.bytes
            },
        }
    }

    fn fresh() -> (tally: MissTally) {
        MissTally { count: 0, bytes: 0 }
    }

    fn absorb(&self, item: u64) -> (tally: MissTally) {
        MissTally {
            count: self.count.saturating_add(1),
            bytes: if item > self.bytes {
                item
            } else {
                self.bytes
            },
        }
    }
}

struct MissRank {
    count: u64,
    leaf: usize,
    bytes: u64,
}

spec fn miss_rank_before(a: (u64, usize, u64), b: (u64, usize, u64)) -> bool {
    ||| a.0 > b.0
    ||| a.0 == b.0 && a.1 < b.1
    ||| a.0 == b.0 && a.1 == b.1 && a.2 < b.2
}

impl SortKey for MissRank {
    type Model = (u64, usize, u64);

    closed spec fn model(&self) -> (u64, usize, u64) {
        (self.count, self.leaf, self.bytes)
    }

    closed spec fn before(a: (u64, usize, u64), b: (u64, usize, u64)) -> bool {
        miss_rank_before(a, b)
    }

    proof fn before_irreflexive(a: (u64, usize, u64)) {
    }

    proof fn before_transitive(a: (u64, usize, u64), b: (u64, usize, u64), c: (u64, usize, u64)) {
    }

    proof fn before_total(a: (u64, usize, u64), b: (u64, usize, u64)) {
    }

    fn place(&self, other: &Self) -> (rank: Rank) {
        if self.count > other.count {
            Rank::Before
        } else if self.count < other.count {
            Rank::After
        } else if self.leaf < other.leaf {
            Rank::Before
        } else if self.leaf > other.leaf {
            Rank::After
        } else if self.bytes < other.bytes {
            Rank::Before
        } else if self.bytes > other.bytes {
            Rank::After
        } else {
            Rank::Same
        }
    }
}

spec fn size_item() -> spec_fn((usize, u64)) -> u64 {
    |h: (usize, u64)| h.1
}

proof fn miss_tally_closed_form(members: Seq<(usize, u64)>)
    requires
        members.len() <= u64::MAX,
    ensures
        table::tally_all::<MissTally>(members.map_values(size_item())) == (MissTally {
            count: members.len() as u64,
            bytes: largest(members),
        }),
    decreases members.len(),
{
    let sizes = members.map_values(size_item());
    if members.len() > 0 {
        miss_tally_closed_form(members.drop_last());
        assert(sizes.drop_last() =~= members.drop_last().map_values(size_item()));
    }
}

proof fn hits_no_longer(found: Seq<Option<FramesView>>)
    ensures
        hits(found).len() <= found.len(),
    decreases found.len(),
{
    if found.len() > 0 {
        hits_no_longer(found.drop_last());
    }
}

fn address_text(address: u64) -> (s: String)
    ensures
        s@ == text::hex_address(address as nat),
{
    let mut chars: Vec<char> = Vec::new();
    push_hex_address(&mut chars, address);
    assert(chars@ =~= text::hex_address(address as nat));
    text_of(&chars)
}

/// Count the misses per site.
fn tally_misses(found: &Vec<Option<Frames>>) -> (parts: (Vec<LeafKey>, Vec<MissTally>))
    ensures
        table::summary::<LeafKey, MissTally>(
            table::entries(hits(found_views(found@)), by_leaf(), size_item()),
            order::models(parts.0@),
            parts.1@,
        ),
{
    let ghost views = found_views(found@);
    let mut groups: Table<LeafKey, MissTally> = Table::new();
    assert(hits(views.take(0)) =~= Seq::empty());
    assert(table::entries(hits(views.take(0)), by_leaf(), size_item()) =~= Seq::empty());
    for i in 0..found.len()
        invariant
            views == found_views(found@),
            groups.wf(),
            groups.history() == table::entries(hits(views.take(i as int)), by_leaf(), size_item()),
    {
        let ghost had = hits(views.take(i as int));
        let ghost now = hits(views.take(i + 1));
        assert(views.take(i + 1).drop_last() =~= views.take(i as int));
        assert(views.take(i + 1).last() == found_view(found@[i as int]));
        if let Some(frames) = &found[i] {
            let key = LeafKey { leaf: first_frame(&frames.frames) };
            let bytes: u64 = frames.allocated_size as u64;
            groups.record(key, bytes);
            assert(now == had.push((key.model(), bytes)));
            assert(table::entries(now, by_leaf(), size_item()) =~= table::entries(
                had,
                by_leaf(),
                size_item(),
            ).push((key.model(), bytes)));
        }
    }
    assert(views.take(views.len() as int) =~= views);
    groups.into_parts()
}

/// The site of an innermost frame.
spec fn miss_site(hits: Seq<(usize, u64)>, leaf: usize) -> MissSite {
    MissSite {
        count: misses_at(hits, leaf).len() as u64,
        leaf,
        bytes: largest(misses_at(hits, leaf)),
    }
}

spec fn miss_rank(site: MissSite) -> (u64, usize, u64) {
    (site.count, site.leaf, site.bytes)
}

/// Rank the sites of attributed misses, given what each lookup found.
#[verifier::rlimit(40)]
pub fn rank_cache_misses(found: &Vec<Option<Frames>>, n: usize) -> (rows: Vec<CacheMissRow>)
    ensures
        is_miss_report(found_views(found@), n as nat, miss_views(rows@)),
{
    let ghost all = hits(found_views(found@));
    let ghost history = table::entries(all, by_leaf(), size_item());
    let (keys, tallies) = tally_misses(found);
    let ghost ks = order::models(keys@);
    proof {
        assert(found@.len() == found.len());
        hits_no_longer(found_views(found@));
        assert forall|i: int| 0 <= i < ks.len() implies (#[trigger] tallies[i]).count == miss_site(
            all,
            ks[i],
        ).count && tallies[i].bytes == miss_site(all, ks[i]).bytes by {
            assert(tallies@[i] == table::tally_of::<usize, MissTally>(history, ks[i]));
            table::tally_of_group::<usize, (usize, u64), MissTally>(
                all,
                by_leaf(),
                size_item(),
                ks[i],
            );
            table::members_no_longer(all, by_leaf(), ks[i]);
            miss_tally_closed_form(misses_at(all, ks[i]));
        }
    }
    let mut unsorted: Vec<MissRank> = Vec::new();
    for i in 0..keys.len()
        invariant
            ks == order::models(keys@),
            keys.len() == tallies.len(),
            forall|i: int|
                0 <= i < ks.len() ==> (#[trigger] tallies[i]).count == miss_site(all, ks[i]).count
                    && tallies[i].bytes == miss_site(all, ks[i]).bytes,
            unsorted.len() == i,
            forall|j: int|
                0 <= j < i ==> (#[trigger] unsorted[j]).model() == miss_rank(miss_site(all, ks[j])),
    {
        let key = keys[i];
        assert(ks[i as int] == key.model());
        unsorted.push(
            MissRank { count: tallies[i].count, leaf: key.leaf, bytes: tallies[i].bytes },
        );
    }
    let ghost ms = order::models(unsorted@);
    proof {
        order::ascending_is_distinct::<LeafKey>(ks);
        assert forall|i: int, j: int| 0 <= i < j < ms.len() implies #[trigger] ms[i] != #[trigger] ms[j] by {
            assert(unsorted[i].model() == ms[i] && unsorted[j].model() == ms[j]);
            assert(ks[i] != ks[j]);
        }
    }
    let sorted = sort(unsorted);
    let ghost ss = order::models(sorted@);
    let ghost ranked = Seq::new(
        ss.len(),
        |i: int| MissSite { count: ss[i].0, leaf: ss[i].1, bytes: ss[i].2 },
    );
    proof {
        miss_table_from_groups(all, ks, ms, ss, ranked);
    }
    let count: usize = if n > 0 && n < sorted.len() {
        n
    } else {
        sorted.len()
    };
    let mut rows: Vec<CacheMissRow> = Vec::new();
    for i in 0..count
        invariant
            count <= sorted.len(),
            ss == order::models(sorted@),
            ranked.len() == ss.len(),
            forall|i: int| 0 <= i < ranked.len() ==> miss_rank(#[trigger] ranked[i]) == ss[i],
            rows.len() == i,
            forall|j: int| 0 <= j < i ==> (#[trigger] rows[j])@ == miss_row(ranked[j]),
    {
        let r = &sorted[i];
        assert(ss[i as int] == r.model());
        assert(miss_rank(ranked[i as int]) == ss[i as int]);
        rows.push(
            CacheMissRow {
                site_leaf: address_text(r.leaf as u64),
                miss_count: r.count,
                bytes: r.bytes,
            },
        );
        assert(rows[i as int]@ == miss_row(ranked[i as int]));
    }
    assert(miss_views(rows@) =~= limited(miss_rows(ranked), n as nat));
    rows
}

proof fn miss_table_from_groups(
    hits: Seq<(usize, u64)>,
    keys: Seq<usize>,
    unsorted: Seq<(u64, usize, u64)>,
    sorted: Seq<(u64, usize, u64)>,
    ranked: Seq<MissSite>,
)
    requires
        hits.len() <= u64::MAX,
        forall|i: int|
            0 <= i < keys.len() ==> table::occurs(
                table::entries(hits, by_leaf(), size_item()),
                #[trigger] keys[i],
            ),
        forall|h: int|
            0 <= h < hits.len() ==> keys.contains(
                (#[trigger] table::entries(hits, by_leaf(), size_item())[h]).0,
            ),
        unsorted.len() == keys.len(),
        forall|j: int|
            0 <= j < unsorted.len() ==> #[trigger] unsorted[j] == miss_rank(
                miss_site(hits, keys[j]),
            ),
        order::ascending::<MissRank>(sorted),
        order::same_members(sorted, unsorted),
        ranked.len() == sorted.len(),
        forall|i: int| 0 <= i < ranked.len() ==> miss_rank(#[trigger] ranked[i]) == sorted[i],
    ensures
        is_miss_table(hits, ranked),
{
    let history = table::entries(hits, by_leaf(), size_item());
    assert forall|i: int| 0 <= i < ranked.len() implies {
        &&& #[trigger] ranked[i] == miss_site(hits, ranked[i].leaf)
        &&& table::has_member(hits, by_leaf(), ranked[i].leaf)
        &&& misses_at(hits, ranked[i].leaf).len() <= u64::MAX
    } by {
        assert(miss_rank(ranked[i]) == sorted[i]);
        assert(unsorted.contains(sorted[i]));
        let j = choose|j: int| 0 <= j < unsorted.len() && unsorted[j] == sorted[i];
        table::members_no_longer(hits, by_leaf(), keys[j]);
        table::occurs_in_entries(hits, by_leaf(), size_item(), keys[j]);
    }
    assert forall|i: int, j: int| 0 <= i < j < ranked.len() implies miss_before(
        #[trigger] ranked[i],
        #[trigger] ranked[j],
    ) by {
        assert(miss_rank(ranked[i]) == sorted[i] && miss_rank(ranked[j]) == sorted[j]);
        assert(MissRank::before(sorted[i], sorted[j]));
        if ranked[i].leaf == ranked[j].leaf {
            assert(ranked[i] == ranked[j]);
        }
    }
    assert forall|h: int| 0 <= h < hits.len() implies has_site(ranked, (#[trigger] hits[h]).0) by {
        assert(history[h].0 == hits[h].0);
        assert(keys.contains(history[h].0));
        let j = choose|j: int| 0 <= j < keys.len() && keys[j] == hits[h].0;
        assert(sorted.contains(unsorted[j]));
        let i = choose|i: int| 0 <= i < sorted.len() && sorted[i] == unsorted[j];
        assert(miss_rank(ranked[i]) == sorted[i]);
        assert(ranked[i].leaf == hits[h].0);
    }
}

/// What was found for each sample that carries a data address, in order.
pub open spec fn answered<F: Fn(u64) -> Option<Frames>>(
    samples: Seq<PerfSample>,
    lookup: F,
    found: Seq<Option<Frames>>,
) -> bool {
    let asked = data_addresses(samples);
    &&& found.len() == asked.len()
    &&& forall|i: int|
        0 <= i < found.len() ==> call_ensures(lookup, (asked[i],), #[trigger] found[i])
}

/// The data addresses of samples that carry one.
pub open spec fn data_addresses(samples: Seq<PerfSample>) -> Seq<u64>
    decreases samples.len(),
{
    if samples.len() == 0 {
        Seq::empty()
    } else {
        let earlier = data_addresses(samples.drop_last());
        match samples.last().data_addr {
            Some(address) => earlier.push(address),
            None => earlier,
        }
    }
}

/// Attribute cache misses: look each data address up, count the misses per
/// site, and rank the sites.
pub fn join_cache_misses<F: Fn(u64) -> Option<Frames>>(
    samples: &[PerfSample],
    n: usize,
    lookup: F,
) -> (rows: Vec<CacheMissRow>)
    requires
        forall|address: u64| call_requires(lookup, (address,)),
    ensures
        exists|found: Seq<Option<Frames>>| #[trigger]
            answered(samples@, lookup, found) && is_miss_report(
                found_views(found),
                n as nat,
                miss_views(rows@),
            ),
{
    let mut found: Vec<Option<Frames>> = Vec::new();
    for i in 0..samples.len()
        invariant
            forall|address: u64| call_requires(lookup, (address,)),
            answered(samples@.take(i as int), lookup, found@),
    {
        assert(samples@.take(i + 1).drop_last() =~= samples@.take(i as int));
        assert(samples@.take(i + 1).last() == samples@[i as int]);
        if let Some(address) = samples[i].data_addr {
            found.push(lookup(address));
        }
    }
    assert(samples@.take(samples@.len() as int) =~= samples@);
    rank_cache_misses(&found, n)
}

/// The row of a cache line.
pub open spec fn c2c_row(line: C2cLine, found: Option<FramesView>) -> C2cView {
    C2cView {
        cacheline: text::hex_address(line.cacheline_addr as nat),
        hitm: line.hitm_count,
        site_leaf: match found {
            Some(frames) => text::hex_address(hotspot::leaf_of(frames.frames) as nat),
            None => "<unattributed>"@,
        },
    }
}

/// Lines are ranked by their count descending, then by address ascending;
/// lines that agree in both keep their order.
pub open spec fn line_before(lines: Seq<C2cLine>, a: int, b: int) -> bool {
    line_rank_before(line_rank(lines, a), line_rank(lines, b))
}

pub open spec fn line_rank(lines: Seq<C2cLine>, i: int) -> (u64, u64, int) {
    (lines[i].hitm_count, lines[i].cacheline_addr, i)
}

pub open spec fn line_rank_before(a: (u64, u64, int), b: (u64, u64, int)) -> bool {
    ||| a.0 > b.0
    ||| a.0 == b.0 && a.1 < b.1
    ||| a.0 == b.0 && a.1 == b.1 && a.2 < b.2
}

/// `places` lists the places of all lines in ranked order.
pub open spec fn is_line_order(lines: Seq<C2cLine>, places: Seq<int>) -> bool {
    &&& places.len() == lines.len()
    &&& forall|i: int| 0 <= i < places.len() ==> 0 <= #[trigger] places[i] < lines.len()
    &&& forall|i: int, j: int|
        0 <= i < j < places.len() ==> line_before(lines, #[trigger] places[i], #[trigger] places[j])
}

/// The rows of lines in the given order.
pub open spec fn c2c_rows(
    lines: Seq<C2cLine>,
    found: Seq<Option<FramesView>>,
    places: Seq<int>,
) -> Seq<C2cView> {
    Seq::new(places.len(), |i: int| c2c_row(lines[places[i]], found[places[i]]))
}

/// `rows` are the first `n` rows of the ranked table of lines.
pub open spec fn is_c2c_report(
    lines: Seq<C2cLine>,
    found: Seq<Option<FramesView>>,
    n: nat,
    rows: Seq<C2cView>,
) -> bool {
    exists|places: Seq<int>| #[trigger]
        is_line_order(lines, places) && rows == limited(c2c_rows(lines, found, places), n)
}

struct LineRank {
    hitm: u64,
    address: u64,
    place: usize,
}

impl SortKey for LineRank {
    type Model = (u64, u64, int);

    closed spec fn model(&self) -> (u64, u64, int) {
        (self.hitm, self.address, self.place as int)
    }

    open spec fn before(a: (u64, u64, int), b: (u64, u64, int)) -> bool {
        line_rank_before(a, b)
    }

    proof fn before_irreflexive(a: (u64, u64, int)) {
    }

    proof fn before_transitive(a: (u64, u64, int), b: (u64, u64, int), c: (u64, u64, int)) {
    }

    proof fn before_total(a: (u64, u64, int), b: (u64, u64, int)) {
    }

    fn place(&self, other: &Self) -> (rank: Rank) {
        if self.hitm > other.hitm {
            Rank::Before
        } else if self.hitm < other.hitm {
            Rank::After
        } else if self.address < other.address {
            Rank::Before
        } else if self.address > other.address {
            Rank::After
        } else if self.place < other.place {
            Rank::Before
        } else if self.place > other.place {
            Rank::After
        } else {
            Rank::Same
        }
    }
}

/// Rank cache lines, given what the lookup of each found.
#[verifier::rlimit(40)]
pub fn rank_c2c(lines: &[C2cLine], found: &Vec<Option<Frames>>, n: usize) -> (rows: Vec<C2cRow>)
    requires
        found.len() == lines.len(),
    ensures
        is_c2c_report(lines@, found_views(found@), n as nat, c2c_views(rows@)),
{
    let mut unsorted: Vec<LineRank> = Vec::new();
    for i in 0..lines.len()
        invariant
            unsorted.len() == i,
            forall|j: int| 0 <= j < i ==> (#[trigger] unsorted[j]).model() == line_rank(lines@, j),
    {
        unsorted.push(
            LineRank { hitm: lines[i].hitm_count, address: lines[i].cacheline_addr, place: i },
        );
    }
    let ghost ms = order::models(unsorted@);
    proof {
        assert forall|i: int, j: int| 0 <= i < j < ms.len() implies #[trigger] ms[i] != #[trigger] ms[j] by {
            assert(unsorted[i].model() == ms[i] && unsorted[j].model() == ms[j]);
        }
    }
    let sorted = sort(unsorted);
    let ghost ss = order::models(sorted@);
    let ghost places = Seq::new(ss.len(), |i: int| ss[i].2);
    proof {
        assert forall|i: int| 0 <= i < ss.len() implies 0 <= (#[trigger] ss[i]).2 < lines.len() && ss[i]
            == line_rank(lines@, ss[i].2) by {
            assert(ms.contains(ss[i]));
            let j = choose|j: int| 0 <= j < ms.len() && ms[j] == ss[i];
            assert(unsorted[j].model() == ms[j]);
        }
        assert forall|i: int, j: int| 0 <= i < j < places.len() implies line_before(
            lines@,
            #[trigger] places[i],
            #[trigger] places[j],
        ) by {
            assert(LineRank::before(ss[i], ss[j]));
        }
        assert(is_line_order(lines@, places));
    }
    let count: usize = if n > 0 && n < sorted.len() {
        n
    } else {
        sorted.len()
    };
    let mut rows: Vec<C2cRow> = Vec::new();
    for i in 0..count
        invariant
            count <= sorted.len(),
            found.len() == lines.len(),
            ss == order::models(sorted@),
            places.len() == ss.len(),
            forall|i: int| 0 <= i < places.len() ==> #[trigger] places[i] == ss[i].2,
            forall|i: int| 0 <= i < ss.len() ==> 0 <= (#[trigger] ss[i]).2 < lines.len(),
            rows.len() == i,
            forall|j: int|
                0 <= j < i ==> (#[trigger] rows[j])@ == c2c_row(
                    lines[places[j]],
                    found_views(found@)[places[j]],
                ),
    {
        let place: usize = sorted[i].place;
        assert(ss[i as int] == sorted[i as int].model());
        assert(places[i as int] == place);
        let site_leaf: String = match &found[place] {
            Some(frames) => address_text(first_frame(&frames.frames) as u64),
            None => "<unattributed>".to_owned(),
        };
        rows.push(
            C2cRow {
                cacheline: address_text(lines[place].cacheline_addr),
                hitm: lines[place].hitm_count,
                site_leaf,
            },
        );
    }
    assert(c2c_views(rows@) =~= limited(c2c_rows(lines@, found_views(found@), places), n as nat));
    rows
}

/// What was found for each line.
pub open spec fn lines_answered<F: Fn(u64) -> Option<Frames>>(
    lines: Seq<C2cLine>,
    lookup: F,
    found: Seq<Option<Frames>>,
) -> bool {
    &&& found.len() == lines.len()
    &&& forall|i: int|
        0 <= i < found.len() ==> call_ensures(
            lookup,
            (lines[i].cacheline_addr,),
            #[trigger] found[i],
        )
}

/// `rows` are the first `n` rows of the ranked table of lines, with what the
/// lookup found for each.
pub open spec fn is_c2c_join<F: Fn(u64) -> Option<Frames>>(
    lines: Seq<C2cLine>,
    lookup: F,
    n: nat,
    rows: Seq<C2cView>,
) -> bool {
    exists|found: Seq<Option<Frames>>| #[trigger]
        lines_answered(lines, lookup, found) && is_c2c_report(lines, found_views(found), n, rows)
}

/// Attribute contended cache lines: look each line's address up and rank the
/// lines. Lines without an owner are kept.
pub fn join_c2c<F: Fn(u64) -> Option<Frames>>(lines: &[C2cLine], n: usize, lookup: F) -> (rows: Vec<
    C2cRow,
>)
    requires
        forall|address: u64| call_requires(lookup, (address,)),
    ensures
        is_c2c_join(lines@, lookup, n as nat, c2c_views(rows@)),
{
    let mut found: Vec<Option<Frames>> = Vec::new();
    for i in 0..lines.len()
        invariant
            forall|address: u64| call_requires(lookup, (address,)),
            lines_answered(lines@.take(i as int), lookup, found@),
    {
        let frames = lookup(lines[i].cacheline_addr);
        found.push(frames);
        assert(lines@.take(i + 1) =~= lines@.take(i as int).push(lines@[i as int]));
    }
    assert(lines@.take(lines@.len() as int) =~= lines@);
    rank_c2c(lines, &found, n)
}

/// No two rows stand for the same innermost frame.
pub proof fn one_row_per_leaf(hits: Seq<(usize, u64)>, ranked: Seq<MissSite>)
    requires
        is_miss_table(hits, ranked),
    ensures
        forall|i: int, j: int|
            0 <= i < j < ranked.len() ==> (#[trigger] ranked[i]).leaf != (#[trigger] ranked[j]).leaf,
{
    assert forall|i: int, j: int| 0 <= i < j < ranked.len() implies (#[trigger] ranked[i]).leaf != (
    #[trigger] ranked[j]).leaf by {
        assert(miss_before(ranked[i], ranked[j]));
    }
}

/// The bytes of a row are those of an attributed allocation of its site, and
/// no attributed allocation of the site is larger.
pub proof fn bytes_are_of_the_largest_allocation(hits: Seq<(usize, u64)>, ranked: Seq<MissSite>, i: int)
    requires
        is_miss_table(hits, ranked),
        0 <= i < ranked.len(),
    ensures
        hits.contains((ranked[i].leaf, ranked[i].bytes)),
        forall|h: int|
            0 <= h < hits.len() && (#[trigger] hits[h]).0 == ranked[i].leaf ==> hits[h].1
                <= ranked[i].bytes,
{
    let leaf = ranked[i].leaf;
    let members = misses_at(hits, leaf);
    assert forall|h: int| 0 <= h < hits.len() && (#[trigger] hits[h]).0 == leaf implies hits[h].1
        <= ranked[i].bytes by {
        table::members_are_items(hits, by_leaf(), leaf, hits[h]);
        largest_covers(members, hits[h]);
    }
    let k = choose|k: int| 0 <= k < hits.len() && by_leaf()(#[trigger] hits[k]) == leaf;
    table::members_are_items(hits, by_leaf(), leaf, hits[k]);
    largest_is_there(members);
    let m = choose|m: int| 0 <= m < members.len() && (#[trigger] members[m]).1 == largest(members);
    table::members_are_items(hits, by_leaf(), leaf, members[m]);
    assert(members[m] == (leaf, ranked[i].bytes));
}

/// The ranked table of misses is unique.
pub proof fn miss_table_is_unique(hits: Seq<(usize, u64)>, a: Seq<MissSite>, b: Seq<MissSite>)
    requires
        is_miss_table(hits, a),
        is_miss_table(hits, b),
    ensures
        a == b,
{
    let ra = miss_ranks(a);
    let rb = miss_ranks(b);
    miss_ranks_agree(hits, a, b);
    miss_ranks_agree(hits, b, a);
    assert forall|i: int, j: int| 0 <= i < j < ra.len() implies MissRank::before(
        #[trigger] ra[i],
        #[trigger] ra[j],
    ) by {
        assert(miss_before(a[i], a[j]));
    }
    assert forall|i: int, j: int| 0 <= i < j < rb.len() implies MissRank::before(
        #[trigger] rb[i],
        #[trigger] rb[j],
    ) by {
        assert(miss_before(b[i], b[j]));
    }
    order::ascending_is_unique::<MissRank>(ra, rb);
    assert(a.len() == ra.len() && b.len() == rb.len());
    assert forall|i: int| 0 <= i < a.len() implies a[i] == b[i] by {
        assert(ra[i] == miss_rank(a[i]));
        assert(rb[i] == miss_rank(b[i]));
    }
    assert(a =~= b);
}

spec fn miss_ranks(ranked: Seq<MissSite>) -> Seq<(u64, usize, u64)> {
    Seq::new(ranked.len(), |i: int| miss_rank(ranked[i]))
}

proof fn miss_ranks_agree(hits: Seq<(usize, u64)>, a: Seq<MissSite>, b: Seq<MissSite>)
    requires
        is_miss_table(hits, a),
        is_miss_table(hits, b),
    ensures
        forall|i: int|
            0 <= i < miss_ranks(a).len() ==> miss_ranks(b).contains(#[trigger] miss_ranks(a)[i]),
{
    let ra = miss_ranks(a);
    let rb = miss_ranks(b);
    assert forall|i: int| 0 <= i < ra.len() implies rb.contains(#[trigger] ra[i]) by {
        let leaf = a[i].leaf;
        assert(table::has_member(hits, by_leaf(), leaf));
        let h = choose|h: int| 0 <= h < hits.len() && by_leaf()(#[trigger] hits[h]) == leaf;
        assert(has_site(b, hits[h].0));
        let j = choose|j: int| 0 <= j < b.len() && (#[trigger] b[j]).leaf == leaf;
        assert(rb[j] == ra[i]);
    }
}

/// The order of the attributed misses makes no difference to the table.
pub proof fn miss_order_makes_no_difference(
    hits: Seq<(usize, u64)>,
    places: Seq<int>,
    a: Seq<MissSite>,
    b: Seq<MissSite>,
)
    requires
        order::is_permutation(places, hits.len()),
        is_miss_table(hits, a),
        is_miss_table(order::picked(hits, places), b),
    ensures
        a == b,
{
    let other = order::picked(hits, places);
    order::permutation_keeps_values(hits, places);
    assert forall|i: int| 0 <= i < b.len() implies {
        &&& table::has_member(hits, by_leaf(), (#[trigger] b[i]).leaf)
        &&& b[i].count == misses_at(hits, b[i].leaf).len()
        &&& b[i].bytes == largest(misses_at(hits, b[i].leaf))
    } by {
        let leaf = b[i].leaf;
        assert(table::has_member(other, by_leaf(), leaf));
        let k = choose|k: int| 0 <= k < other.len() && by_leaf()(#[trigger] other[k]) == leaf;
        assert(by_leaf()(hits[places[k]]) == leaf);
        table::members_keep_multiplicity(hits, by_leaf(), leaf);
        table::members_keep_multiplicity(other, by_leaf(), leaf);
        same_misses_agree(misses_at(hits, leaf), misses_at(other, leaf));
    }
    assert forall|h: int| 0 <= h < hits.len() implies has_site(b, (#[trigger] hits[h]).0) by {
        order::distinct_places_fit(places, hits.len() as int);
        assert(places.contains(h));
        let k = choose|k: int| 0 <= k < places.len() && places[k] == h;
        assert(has_site(b, other[k].0));
    }
    miss_table_is_unique(hits, a, b);
}

proof fn same_misses_agree(a: Seq<(usize, u64)>, b: Seq<(usize, u64)>)
    requires
        a.to_multiset() == b.to_multiset(),
    ensures
        a.len() == b.len(),
        largest(a) == largest(b),
{
    vstd::seq_lib::to_multiset_len(a);
    vstd::seq_lib::to_multiset_len(b);
    if a.len() > 0 {
        largest_is_there(a);
        largest_is_there(b);
        let i = choose|i: int| 0 <= i < a.len() && (#[trigger] a[i]).1 == largest(a);
        let j = choose|j: int| 0 <= j < b.len() && (#[trigger] b[j]).1 == largest(b);
        vstd::seq_lib::to_multiset_contains(a, a[i]);
        vstd::seq_lib::to_multiset_contains(b, a[i]);
        vstd::seq_lib::to_multiset_contains(a, b[j]);
        vstd::seq_lib::to_multiset_contains(b, b[j]);
        assert(a.contains(a[i]) && b.contains(b[j]));
        largest_covers(b, a[i]);
        largest_covers(a, b[j]);
    }
}

/// Every attributed miss is counted once: the counts of all ranked sites add
/// up to the number of attributed misses.
pub proof fn misses_add_up(hits: Seq<(usize, u64)>, ranked: Seq<MissSite>)
    requires
        is_miss_table(hits, ranked),
    ensures
        table::weigh(ranked, |r: MissSite| r.count as nat) == hits.len(),
{
    let keys = Seq::new(ranked.len(), |i: int| ranked[i].leaf);
    one_row_per_leaf(hits, ranked);
    assert forall|i: int, j: int| 0 <= i < j < keys.len() implies #[trigger] keys[i] != #[trigger] keys[j] by {
        assert(ranked[i].leaf != ranked[j].leaf);
    }
    assert forall|h: int| 0 <= h < hits.len() implies keys.contains(by_leaf()(#[trigger] hits[h])) by {
        assert(has_site(ranked, hits[h].0));
        let i = choose|i: int| 0 <= i < ranked.len() && (#[trigger] ranked[i]).leaf == hits[h].0;
        assert(keys[i] == hits[h].0);
    }
    table::groups_partition(hits, by_leaf(), keys, |h: (usize, u64)| 1nat);
    table::weigh_ones(hits);
    counts_weigh_their_groups(hits, ranked, keys);
}

proof fn counts_weigh_their_groups(
    hits: Seq<(usize, u64)>,
    ranked: Seq<MissSite>,
    keys: Seq<usize>,
)
    requires
        keys.len() == ranked.len(),
        forall|i: int|
            0 <= i < ranked.len() ==> (#[trigger] ranked[i]).count == misses_at(hits, keys[i]).len(),
    ensures
        table::weigh(ranked, |r: MissSite| r.count as nat) == table::weigh_groups(
            hits,
            by_leaf(),
            keys,
            |h: (usize, u64)| 1nat,
        ),
    decreases ranked.len(),
{
    if ranked.len() > 0 {
        let fewer = ranked.drop_last();
        assert forall|i: int| 0 <= i < fewer.len() implies (#[trigger] fewer[i]).count == misses_at(
            hits,
            keys.drop_last()[i],
        ).len() by {
            assert(ranked[i].count == misses_at(hits, keys[i]).len());
        }
        counts_weigh_their_groups(hits, fewer, keys.drop_last());
        assert(ranked[ranked.len() - 1].count == misses_at(hits, keys[ranked.len() - 1]).len());
        table::weigh_ones(table::members(hits, by_leaf(), keys.last()));
    }
}

proof fn largest_covers(hits: Seq<(usize, u64)>, hit: (usize, u64))
    requires
        hits.contains(hit),
    ensures
        hit.1 <= largest(hits),
    decreases hits.len(),
{
    let k = choose|k: int| 0 <= k < hits.len() && hits[k] == hit;
    if k < hits.len() - 1 {
        assert(hits.drop_last()[k] == hit);
        largest_covers(hits.drop_last(), hit);
    }
}

proof fn largest_is_there(hits: Seq<(usize, u64)>)
    requires
        hits.len() > 0,
    ensures
        exists|k: int| 0 <= k < hits.len() && (#[trigger] hits[k]).1 == largest(hits),
    decreases hits.len(),
{
    let last = hits[hits.len() - 1];
    let shorter = hits.drop_last();
    if shorter.len() == 0 {
        assert(largest(shorter) == 0);
        assert(last.1 == largest(hits));
    } else {
        largest_is_there(shorter);
        let k = choose|k: int| 0 <= k < shorter.len() && (#[trigger] shorter[k]).1 == largest(shorter);
        assert(hits[k] == shorter[k]);
        assert(last.1 == largest(hits) || hits[k].1 == largest(hits));
    }
}

/// The ranked order of lines is unique.
pub proof fn line_order_is_unique(lines: Seq<C2cLine>, a: Seq<int>, b: Seq<int>)
    requires
        is_line_order(lines, a),
        is_line_order(lines, b),
    ensures
        a == b,
{
    let ra = Seq::new(a.len(), |i: int| line_rank(lines, a[i]));
    let rb = Seq::new(b.len(), |i: int| line_rank(lines, b[i]));
    assert forall|i: int, j: int| 0 <= i < j < ra.len() implies LineRank::before(
        #[trigger] ra[i],
        #[trigger] ra[j],
    ) by {
        assert(line_before(lines, a[i], a[j]));
    }
    assert forall|i: int, j: int| 0 <= i < j < rb.len() implies LineRank::before(
        #[trigger] rb[i],
        #[trigger] rb[j],
    ) by {
        assert(line_before(lines, b[i], b[j]));
    }
    every_line_is_placed(lines, a);
    every_line_is_placed(lines, b);
    assert forall|i: int| 0 <= i < ra.len() implies rb.contains(#[trigger] ra[i]) by {
        assert(b.contains(a[i]));
        let j = choose|j: int| 0 <= j < b.len() && b[j] == a[i];
        assert(rb[j] == ra[i]);
    }
    assert forall|i: int| 0 <= i < rb.len() implies ra.contains(#[trigger] rb[i]) by {
        assert(a.contains(b[i]));
        let j = choose|j: int| 0 <= j < a.len() && a[j] == b[i];
        assert(ra[j] == rb[i]);
    }
    order::ascending_is_unique::<LineRank>(ra, rb);
    assert forall|i: int| 0 <= i < a.len() implies a[i] == b[i] by {
        assert(ra[i].2 == a[i] && rb[i].2 == b[i]);
    }
    assert(a =~= b);
}

/// The lookup answers as `answer` says.
pub open spec fn answers_as<F: Fn(u64) -> Option<Frames>>(
    lookup: F,
    answer: spec_fn(u64) -> Option<FramesView>,
) -> bool {
    forall|address: u64, found: Option<Frames>| #[trigger]
        call_ensures(lookup, (address,), found) ==> found_view(found) == answer(address)
}

/// What a line's row depends on, where the answers are fixed.
spec fn line_key(line: C2cLine) -> (u64, u64) {
    (line.hitm_count, line.cacheline_addr)
}

spec fn line_keys(lines: Seq<C2cLine>) -> Seq<(u64, u64)> {
    Seq::new(lines.len(), |i: int| line_key(lines[i]))
}

spec fn key_row(key: (u64, u64), answer: spec_fn(u64) -> Option<FramesView>) -> C2cView {
    C2cView {
        cacheline: text::hex_address(key.1 as nat),
        hitm: key.0,
        site_leaf: match answer(key.1) {
            Some(frames) => text::hex_address(hotspot::leaf_of(frames.frames) as nat),
            None => "<unattributed>"@,
        },
    }
}

spec fn key_rows(keys: Seq<(u64, u64)>, answer: spec_fn(u64) -> Option<FramesView>) -> Seq<C2cView> {
    Seq::new(keys.len(), |i: int| key_row(keys[i], answer))
}

spec fn no_later() -> spec_fn((u64, u64), (u64, u64)) -> bool {
    |a: (u64, u64), b: (u64, u64)| a.0 > b.0 || (a.0 == b.0 && a.1 <= b.1)
}

/// A report shows the keys of all lines in order.
proof fn report_from_keys<F: Fn(u64) -> Option<Frames>>(
    lines: Seq<C2cLine>,
    lookup: F,
    answer: spec_fn(u64) -> Option<FramesView>,
    n: nat,
    rows: Seq<C2cView>,
) -> (keys: Seq<(u64, u64)>)
    requires
        answers_as(lookup, answer),
        is_c2c_join(lines, lookup, n, rows),
    ensures
        keys.to_multiset() == line_keys(lines).to_multiset(),
        keys.len() == lines.len(),
        vstd::relations::sorted_by(keys, no_later()),
        rows == limited(key_rows(keys, answer), n),
{
    let found = choose|found: Seq<Option<Frames>>| #[trigger]
        lines_answered(lines, lookup, found) && is_c2c_report(lines, found_views(found), n, rows);
    let places = choose|places: Seq<int>| #[trigger]
        is_line_order(lines, places) && rows == limited(
            c2c_rows(lines, found_views(found), places),
            n,
        );
    let keys = order::picked(line_keys(lines), places);
    line_order_is_permutation(lines, places);
    order::permutation_keeps_values(line_keys(lines), places);
    assert forall|i: int, j: int| 0 <= i < j < keys.len() implies #[trigger] no_later()(keys[i], keys[j]) by {
        assert(line_before(lines, places[i], places[j]));
    }
    assert forall|i: int| 0 <= i < places.len() implies c2c_row(
        lines[places[i]],
        found_views(found)[places[i]],
    ) == key_row(keys[i], answer) by {
        let at = places[i];
        assert(call_ensures(lookup, (lines[at].cacheline_addr,), found[at]));
    }
    assert(c2c_rows(lines, found_views(found), places) =~= key_rows(keys, answer));
    keys
}

/// Where the lookup's answers are fixed, the order of the lines makes no
/// difference, and a limited report holds the first rows of the whole one: no
/// line that it leaves out has a larger count than its last row.
pub proof fn line_order_makes_no_difference<F: Fn(u64) -> Option<Frames>>(
    lines: Seq<C2cLine>,
    places: Seq<int>,
    lookup: F,
    answer: spec_fn(u64) -> Option<FramesView>,
    n: nat,
    whole: Seq<C2cView>,
    rows: Seq<C2cView>,
)
    requires
        order::is_permutation(places, lines.len()),
        answers_as(lookup, answer),
        is_c2c_join(lines, lookup, 0, whole),
        is_c2c_join(order::picked(lines, places), lookup, n, rows),
    ensures
        whole.len() == lines.len(),
        rows == limited(whole, n),
        0 < n < lines.len() ==> {
            &&& rows.len() == n
            &&& rows == whole.take(n as int)
            &&& forall|i: int| n <= i < whole.len() ==> (#[trigger] whole[i]).hitm <= rows.last().hitm
        },
{
    let a = report_from_keys(lines, lookup, answer, 0, whole);
    let b = report_from_keys(order::picked(lines, places), lookup, answer, n, rows);
    assert(line_keys(order::picked(lines, places)) =~= order::picked(line_keys(lines), places));
    order::permutation_keeps_values(line_keys(lines), places);
    vstd::seq_lib::lemma_sorted_unique(a, b, no_later());
    assert(limited(key_rows(a, answer), 0) == key_rows(a, answer));
    if 0 < n < lines.len() {
        assert forall|i: int| n <= i < whole.len() implies (#[trigger] whole[i]).hitm <= rows.last().hitm by {
            assert(no_later()(a[n - 1], a[i]));
        }
    }
}

/// Every line has a place in the ranked order: no line is left out.
pub proof fn every_line_is_placed(lines: Seq<C2cLine>, places: Seq<int>)
    requires
        is_line_order(lines, places),
    ensures
        forall|i: int| 0 <= i < lines.len() ==> #[trigger] places.contains(i),
{
    line_order_is_permutation(lines, places);
    order::distinct_places_fit(places, lines.len() as int);
}

proof fn line_order_is_permutation(lines: Seq<C2cLine>, places: Seq<int>)
    requires
        is_line_order(lines, places),
    ensures
        order::is_permutation(places, lines.len()),
{
    assert forall|i: int, j: int| 0 <= i < j < places.len() implies #[trigger] places[i]
        != #[trigger] places[j] by {
        assert(line_before(lines, places[i], places[j]));
    }
}

proof fn hex_digits_order(a: nat, b: nat, width: nat)
    requires
        a < b < text::hex_span(width),
    ensures
        order::lex_before(
            order::codes(text::hex_digits(a, width)),
            order::codes(text::hex_digits(b, width)),
        ),
    decreases width,
{
    let ca = order::codes(text::hex_digits(a, width));
    let cb = order::codes(text::hex_digits(b, width));
    let w = (width - 1) as nat;
    let ha = order::codes(text::hex_digits(a / 16, w));
    let hb = order::codes(text::hex_digits(b / 16, w));
    text::hex_digits_read_back(a / 16, w);
    text::hex_digits_read_back(b / 16, w);
    assert forall|k: int| 0 <= k < w implies #[trigger] ca[k] == ha[k] && cb[k] == hb[k] by {
    }
    if a / 16 < b / 16 {
        hex_digits_order(a / 16, b / 16, w);
        let n = choose|n: int|
            #[trigger] order::agree(ha, hb, n) && n < hb.len() && (n == ha.len() || ha[n] < hb[n]);
        assert(ca[n] == ha[n] && cb[n] == hb[n]);
        assert forall|k: int| 0 <= k < n implies #[trigger] ca[k] == #[trigger] cb[k] by {
            assert(ha[k] == hb[k]);
        }
        assert(order::agree(ca, cb, n));
    } else {
        assert(a / 16 == b / 16);
        assert forall|k: int| 0 <= k < w implies #[trigger] ca[k] == #[trigger] cb[k] by {
            assert(ca[k] == ha[k]);
        }
        assert(order::agree(ca, cb, w as int));
        assert(ca[w as int] == text::digit_char(a % 16) as int);
        assert(cb[w as int] == text::digit_char(b % 16) as int);
    }
}

/// Addresses as text are ordered as the addresses are, so ranking by one is
/// ranking by the other.
pub proof fn addresses_order_as_text(a: u64, b: u64)
    requires
        a < b,
    ensures
        order::lex_before(
            order::codes(text::hex_address(a as nat)),
            order::codes(text::hex_address(b as nat)),
        ),
{
    assert(text::hex_span(16) == 0x1_0000_0000_0000_0000) by {
        reveal_with_fuel(text::hex_span, 17);
    }
    hex_digits_order(a as nat, b as nat, 16);
    text::hex_digits_read_back(a as nat, 16);
    text::hex_digits_read_back(b as nat, 16);
    let ha = order::codes(text::hex_digits(a as nat, 16));
    let hb = order::codes(text::hex_digits(b as nat, 16));
    let ca = order::codes(text::hex_address(a as nat));
    let cb = order::codes(text::hex_address(b as nat));
    let n = choose|n: int|
        #[trigger] order::agree(ha, hb, n) && n < hb.len() && (n == ha.len() || ha[n] < hb[n]);
    assert forall|k: int| 0 <= k < n + 2 implies #[trigger] ca[k] == #[trigger] cb[k] by {
        if k >= 2 {
            assert(ca[k] == ha[k - 2] && cb[k] == hb[k - 2]);
        }
    }
    assert(order::agree(ca, cb, n + 2));
    assert(ca[n + 2] == ha[n] && cb[n + 2] == hb[n]);
}

/// The lookups asked for are one for each sample that carries a data address,
/// in the order of the samples, repeated addresses among them.
pub proof fn one_lookup_per_data_address(a: Seq<PerfSample>, b: Seq<PerfSample>, s: PerfSample)
    ensures
        data_addresses(a).len() == a.filter(|s: PerfSample| s.data_addr is Some).len(),
        forall|k: int|
            0 <= k < data_addresses(a).len() ==> Some(#[trigger] data_addresses(a)[k]) == a.filter(
                |s: PerfSample| s.data_addr is Some,
            )[k].data_addr,
        data_addresses(a + b) == data_addresses(a) + data_addresses(b),
        data_addresses(Seq::empty()) == Seq::<u64>::empty(),
        s.data_addr is Some ==> data_addresses(seq![s]) == seq![s.data_addr->0],
        s.data_addr is None ==> data_addresses(seq![s]) == Seq::<u64>::empty(),
{
    addresses_are_those_carried(a);
    addresses_add_up(a, b);
    assert(seq![s].drop_last() =~= Seq::empty());
    assert(data_addresses(seq![s].drop_last()) =~= Seq::empty());
    if s.data_addr is Some {
        assert(data_addresses(seq![s]) =~= seq![s.data_addr->0]);
    }
}

proof fn addresses_are_those_carried(a: Seq<PerfSample>)
    ensures
        data_addresses(a).len() == a.filter(|s: PerfSample| s.data_addr is Some).len(),
        forall|k: int|
            0 <= k < data_addresses(a).len() ==> Some(#[trigger] data_addresses(a)[k]) == a.filter(
                |s: PerfSample| s.data_addr is Some,
            )[k].data_addr,
    decreases a.len(),
{
    reveal(Seq::filter);
    if a.len() > 0 {
        addresses_are_those_carried(a.drop_last());
    }
}

proof fn addresses_add_up(a: Seq<PerfSample>, b: Seq<PerfSample>)
    ensures
        data_addresses(a + b) == data_addresses(a) + data_addresses(b),
    decreases b.len(),
{
    if b.len() == 0 {
        assert(a + b =~= a);
        assert(data_addresses(a) + data_addresses(b) =~= data_addresses(a));
    } else {
        assert((a + b).drop_last() =~= a + b.drop_last());
        addresses_add_up(a, b.drop_last());
        assert(data_addresses(a + b) =~= data_addresses(a) + data_addresses(b));
    }
}

proof fn found_all_are_hits(found: Seq<Option<FramesView>>)
    requires
        forall|i: int| 0 <= i < found.len() ==> #[trigger] found[i] is Some,
    ensures
        hits(found).len() == found.len(),
    decreases found.len(),
{
    if found.len() > 0 {
        let shorter = found.drop_last();
        assert forall|i: int| 0 <= i < shorter.len() implies #[trigger] shorter[i] is Some by {
            assert(shorter[i] == found[i]);
        }
        found_all_are_hits(shorter);
        assert(found[found.len() - 1] is Some);
    }
}

proof fn rows_weigh_as_sites(ranked: Seq<MissSite>, rows: Seq<CacheMissRow>)
    requires
        rows.len() == ranked.len(),
        forall|i: int| 0 <= i < rows.len() ==> (#[trigger] rows[i]).miss_count == ranked[i].count,
    ensures
        table::weigh(rows, |r: CacheMissRow| r.miss_count as nat) == table::weigh(
            ranked,
            |r: MissSite| r.count as nat,
        ),
    decreases rows.len(),
{
    if rows.len() > 0 {
        let fewer = rows.drop_last();
        assert forall|i: int| 0 <= i < fewer.len() implies (#[trigger] fewer[i]).miss_count
            == ranked.drop_last()[i].count by {
            assert(fewer[i] == rows[i]);
        }
        rows_weigh_as_sites(ranked.drop_last(), fewer);
        assert(rows[rows.len() - 1].miss_count == ranked[rows.len() - 1].count);
    }
}

/// Where every lookup finds an allocation, the misses of the whole report add
/// up to the number of samples that carry a data address: each such sample
/// counts, and counts once.
pub proof fn every_carrying_sample_counts<F: Fn(u64) -> Option<Frames>>(
    samples: &[PerfSample],
    lookup: F,
    rows: Vec<CacheMissRow>,
)
    requires
        call_ensures(join_cache_misses::<F>, (samples, 0usize, lookup), rows),
        forall|address: u64, found: Option<Frames>| #[trigger]
            call_ensures(lookup, (address,), found) ==> found is Some,
    ensures
        table::weigh(rows@, |r: CacheMissRow| r.miss_count as nat) == samples@.filter(
            |s: PerfSample| s.data_addr is Some,
        ).len(),
{
    let found = choose|found: Seq<Option<Frames>>| #[trigger]
        answered(samples@, lookup, found) && is_miss_report(found_views(found), 0, miss_views(rows@));
    let views = found_views(found);
    let asked = data_addresses(samples@);
    assert forall|i: int| 0 <= i < views.len() implies #[trigger] views[i] is Some by {
        assert(call_ensures(lookup, (asked[i],), found[i]));
    }
    found_all_are_hits(views);
    addresses_are_those_carried(samples@);
    let ranked = choose|ranked: Seq<MissSite>| #[trigger]
        is_miss_table(hits(views), ranked) && miss_views(rows@) == limited(miss_rows(ranked), 0);
    misses_add_up(hits(views), ranked);
    assert(miss_views(rows@).len() == rows@.len());
    assert forall|i: int| 0 <= i < rows@.len() implies (#[trigger] rows@[i]).miss_count
        == ranked[i].count by {
        assert(miss_views(rows@)[i] == rows@[i]@);
        assert(miss_rows(ranked)[i] == miss_row(ranked[i]));
    }
    rows_weigh_as_sites(ranked, rows@);
}

/// The sample carries a data address whose lookup finds an allocation with the
/// given innermost frame, where 0 stands for an allocation without frames.
pub open spec fn misses_on(
    s: PerfSample,
    answer: spec_fn(u64) -> Option<FramesView>,
    leaf: usize,
) -> bool {
    &&& s.data_addr is Some
    &&& answer(s.data_addr->0) is Some
    &&& {
        let frames = answer(s.data_addr->0)->0.frames;
        &&& frames.len() > 0 ==> frames[0] == leaf
        &&& frames.len() == 0 ==> leaf == 0
    }
}

spec fn missing(answer: spec_fn(u64) -> Option<FramesView>, leaf: usize) -> spec_fn(PerfSample) -> bool {
    |s: PerfSample| misses_on(s, answer, leaf)
}

spec fn missed_size(answer: spec_fn(u64) -> Option<FramesView>, s: PerfSample) -> u64 {
    answer(s.data_addr->0)->0.allocated_size as u64
}

proof fn misses_are_of_samples<F: Fn(u64) -> Option<Frames>>(
    samples: Seq<PerfSample>,
    lookup: F,
    answer: spec_fn(u64) -> Option<FramesView>,
    found: Seq<Option<Frames>>,
    leaf: usize,
)
    requires
        answers_as(lookup, answer),
        answered(samples, lookup, found),
    ensures
        ({
            let at = misses_at(hits(found_views(found)), leaf);
            let own = samples.filter(missing(answer, leaf));
            &&& at.len() == own.len()
            &&& forall|k: int|
                0 <= k < at.len() ==> #[trigger] at[k] == (leaf, missed_size(answer, own[k]))
        }),
    decreases samples.len(),
{
    reveal(Seq::filter);
    let views = found_views(found);
    if samples.len() > 0 {
        let last = samples.last();
        let shorter = samples.drop_last();
        if last.data_addr is Some {
            let fewer = found.drop_last();
            let asked = data_addresses(samples);
            assert(asked == data_addresses(shorter).push(last.data_addr->0));
            assert forall|i: int| 0 <= i < fewer.len() implies call_ensures(
                lookup,
                (data_addresses(shorter)[i],),
                #[trigger] fewer[i],
            ) by {
                assert(call_ensures(lookup, (asked[i],), found[i]));
            }
            assert(call_ensures(lookup, (asked[found.len() - 1],), found[found.len() - 1]));
            misses_are_of_samples(shorter, lookup, answer, fewer, leaf);
            assert(views.drop_last() =~= found_views(fewer));
            assert(views.last() == found_view(found[found.len() - 1]));
            let had = hits(views.drop_last());
            if views.last() is Some {
                assert(hits(views) == had.push(hit_of(views.last()->0)));
                assert(hits(views).drop_last() =~= had);
            }
        } else {
            misses_are_of_samples(shorter, lookup, answer, found, leaf);
        }
    } else {
        assert(views =~= Seq::empty());
        assert(hits(views) =~= Seq::empty());
    }
}

/// Where the lookup's answers are fixed, a row counts the samples whose lookup
/// finds an allocation with its innermost frame, and shows the size of the
/// largest of these allocations.
pub proof fn miss_rows_tell_of_their_samples<F: Fn(u64) -> Option<Frames>>(
    samples: &[PerfSample],
    n: usize,
    lookup: F,
    answer: spec_fn(u64) -> Option<FramesView>,
    rows: Vec<CacheMissRow>,
    i: int,
)
    requires
        call_ensures(join_cache_misses::<F>, (samples, n, lookup), rows),
        answers_as(lookup, answer),
        0 <= i < rows@.len(),
    ensures
        exists|leaf: usize|
            {
                let own = samples@.filter(|s: PerfSample| misses_on(s, answer, leaf));
                &&& rows@[i].site_leaf@ == #[trigger] text::hex_address(leaf as nat)
                &&& own.len() > 0
                &&& rows@[i].miss_count == own.len()
                &&& forall|k: int|
                    0 <= k < own.len() ==> answer((#[trigger] own[k]).data_addr->0)->0.allocated_size
                        <= rows@[i].bytes
                &&& exists|k: int|
                    0 <= k < own.len() && answer((#[trigger] own[k]).data_addr->0)->0.allocated_size
                        == rows@[i].bytes
            },
{
    let found = choose|found: Seq<Option<Frames>>| #[trigger]
        answered(samples@, lookup, found) && is_miss_report(
            found_views(found),
            n as nat,
            miss_views(rows@),
        );
    let all = hits(found_views(found));
    let ranked = choose|ranked: Seq<MissSite>| #[trigger]
        is_miss_table(all, ranked) && miss_views(rows@) == limited(miss_rows(ranked), n as nat);
    assert(miss_views(rows@).len() == rows@.len());
    assert(miss_views(rows@)[i] == rows@[i]@);
    assert(miss_rows(ranked)[i] == miss_row(ranked[i]));
    let leaf = ranked[i].leaf;
    misses_are_of_samples(samples@, lookup, answer, found, leaf);
    let at = misses_at(all, leaf);
    let own = samples@.filter(|s: PerfSample| misses_on(s, answer, leaf));
    assert(own == samples@.filter(missing(answer, leaf)));
    assert(table::has_member(all, by_leaf(), leaf));
    let h = choose|h: int| 0 <= h < all.len() && by_leaf()(#[trigger] all[h]) == leaf;
    table::members_are_items(all, by_leaf(), leaf, all[h]);
    assert forall|k: int| 0 <= k < own.len() implies answer(
        (#[trigger] own[k]).data_addr->0,
    )->0.allocated_size <= rows@[i].bytes by {
        assert(at[k] == (leaf, missed_size(answer, own[k])));
        assert(at.contains(at[k]));
        largest_covers(at, at[k]);
    }
    largest_is_there(at);
    let k = choose|k: int| 0 <= k < at.len() && (#[trigger] at[k]).1 == largest(at);
    assert(at[k] == (leaf, missed_size(answer, own[k])));
    assert(answer(own[k].data_addr->0)->0.allocated_size == rows@[i].bytes);
    assert(rows@[i].site_leaf@ == text::hex_address(leaf as nat));
}

/// No site is left out of a report that has room for it: with no limit, or
/// with fewer rows than the limit, every sample whose lookup finds an
/// allocation has a row for its innermost frame.
pub proof fn no_missed_site_is_left_out<F: Fn(u64) -> Option<Frames>>(
    samples: &[PerfSample],
    n: usize,
    lookup: F,
    answer: spec_fn(u64) -> Option<FramesView>,
    rows: Vec<CacheMissRow>,
    k: int,
    leaf: usize,
)
    requires
        call_ensures(join_cache_misses::<F>, (samples, n, lookup), rows),
        answers_as(lookup, answer),
        n == 0 || rows@.len() < n,
        0 <= k < samples@.len(),
        misses_on(samples@[k], answer, leaf),
    ensures
        exists|i: int|
            0 <= i < rows@.len() && (#[trigger] rows@[i]).site_leaf@ == text::hex_address(leaf as nat),
{
    let found = choose|found: Seq<Option<Frames>>| #[trigger]
        answered(samples@, lookup, found) && is_miss_report(
            found_views(found),
            n as nat,
            miss_views(rows@),
        );
    let all = hits(found_views(found));
    let ranked = choose|ranked: Seq<MissSite>| #[trigger]
        is_miss_table(all, ranked) && miss_views(rows@) == limited(miss_rows(ranked), n as nat);
    assert(miss_views(rows@).len() == rows@.len());
    misses_are_of_samples(samples@, lookup, answer, found, leaf);
    let at = misses_at(all, leaf);
    let own = samples@.filter(missing(answer, leaf));
    samples@.lemma_filter_contains(missing(answer, leaf), k);
    assert(own.len() > 0);
    assert(at[0] == (leaf, missed_size(answer, own[0])));
    assert(at.contains(at[0]));
    table::members_are_items(all, by_leaf(), leaf, at[0]);
    let h = choose|h: int| 0 <= h < all.len() && all[h] == at[0];
    assert(has_site(ranked, all[h].0));
    let i = choose|i: int| 0 <= i < ranked.len() && (#[trigger] ranked[i]).leaf == leaf;
    assert(miss_rows(ranked)[i] == miss_row(ranked[i]));
    assert(miss_views(rows@)[i] == rows@[i]@);
}

/// Rows of misses stand in order: more misses first, then the smaller
/// innermost frame. There are no more than asked for, where a limit is given.
pub proof fn miss_rows_stand_in_order<F: Fn(u64) -> Option<Frames>>(
    samples: &[PerfSample],
    n: usize,
    lookup: F,
    rows: Vec<CacheMissRow>,
    i: int,
    j: int,
)
    requires
        call_ensures(join_cache_misses::<F>, (samples, n, lookup), rows),
        0 <= i < j < rows@.len(),
    ensures
        n > 0 ==> rows@.len() <= n,
        rows@[i].miss_count >= rows@[j].miss_count,
        rows@[i].miss_count == rows@[j].miss_count ==> exists|a: usize, b: usize|
            {
                &&& rows@[i].site_leaf@ == #[trigger] text::hex_address(a as nat)
                &&& rows@[j].site_leaf@ == #[trigger] text::hex_address(b as nat)
                &&& a < b
            },
{
    let found = choose|found: Seq<Option<Frames>>| #[trigger]
        answered(samples@, lookup, found) && is_miss_report(
            found_views(found),
            n as nat,
            miss_views(rows@),
        );
    let ranked = choose|ranked: Seq<MissSite>| #[trigger]
        is_miss_table(hits(found_views(found)), ranked) && miss_views(rows@) == limited(
            miss_rows(ranked),
            n as nat,
        );
    assert(miss_views(rows@).len() == rows@.len());
    assert(miss_views(rows@)[i] == rows@[i]@ && miss_views(rows@)[j] == rows@[j]@);
    assert(miss_rows(ranked)[i] == miss_row(ranked[i]) && miss_rows(ranked)[j] == miss_row(ranked[j]));
    assert(miss_before(ranked[i], ranked[j]));
    assert(rows@[i].site_leaf@ == text::hex_address(ranked[i].leaf as nat));
    assert(rows@[j].site_leaf@ == text::hex_address(ranked[j].leaf as nat));
}

/// Where the lookup's answers are fixed, a limited report of misses holds the
/// first rows of the whole one.
pub proof fn limited_misses_are_the_first<F: Fn(u64) -> Option<Frames>>(
    samples: &[PerfSample],
    n: usize,
    lookup: F,
    answer: spec_fn(u64) -> Option<FramesView>,
    whole: Vec<CacheMissRow>,
    rows: Vec<CacheMissRow>,
)
    requires
        answers_as(lookup, answer),
        call_ensures(join_cache_misses::<F>, (samples, 0usize, lookup), whole),
        call_ensures(join_cache_misses::<F>, (samples, n, lookup), rows),
    ensures
        0 < n < whole@.len() ==> rows@.len() == n,
        n == 0 || n >= whole@.len() ==> rows@.len() == whole@.len(),
        forall|i: int| 0 <= i < rows@.len() ==> (#[trigger] rows@[i])@ == whole@[i]@,
{
    let fa = choose|found: Seq<Option<Frames>>| #[trigger]
        answered(samples@, lookup, found) && is_miss_report(found_views(found), 0, miss_views(whole@));
    let fb = choose|found: Seq<Option<Frames>>| #[trigger]
        answered(samples@, lookup, found) && is_miss_report(
            found_views(found),
            n as nat,
            miss_views(rows@),
        );
    let asked = data_addresses(samples@);
    assert forall|i: int| 0 <= i < fa.len() implies found_views(fa)[i] == found_views(fb)[i] by {
        assert(call_ensures(lookup, (asked[i],), fa[i]));
        assert(call_ensures(lookup, (asked[i],), fb[i]));
    }
    assert(found_views(fa) =~= found_views(fb));
    let all = hits(found_views(fa));
    let ra = choose|ranked: Seq<MissSite>| #[trigger]
        is_miss_table(all, ranked) && miss_views(whole@) == limited(miss_rows(ranked), 0);
    let rb = choose|ranked: Seq<MissSite>| #[trigger]
        is_miss_table(all, ranked) && miss_views(rows@) == limited(miss_rows(ranked), n as nat);
    miss_table_is_unique(all, ra, rb);
    assert(miss_views(rows@).len() == rows@.len());
    assert(miss_views(whole@).len() == whole@.len());
    assert forall|i: int| 0 <= i < rows@.len() implies (#[trigger] rows@[i])@ == whole@[i]@ by {
        assert(miss_views(rows@)[i] == rows@[i]@);
        assert(miss_views(whole@)[i] == whole@[i]@);
    }
}

/// The text names the site of an allocation: `0x` and sixteen hexadecimal
/// digits that read back as the innermost frame, or as 0 where there is none.
/// Without an allocation it says so.
pub open spec fn names_site(site_leaf: Seq<char>, found: Option<FramesView>) -> bool {
    match found {
        Some(frames) => {
            &&& site_leaf.len() == 18
            &&& site_leaf[0] == '0'
            &&& site_leaf[1] == 'x'
            &&& text::all_digits(site_leaf.skip(2), 16)
            &&& frames.frames.len() > 0 ==> text::digits_value(site_leaf.skip(2), 16)
                == frames.frames[0]
            &&& frames.frames.len() == 0 ==> text::digits_value(site_leaf.skip(2), 16) == 0
        },
        None => site_leaf == "<unattributed>"@,
    }
}

/// The text is that of a line's address: `0x` and sixteen hexadecimal digits
/// that read back as the address.
pub open spec fn names_line(cacheline: Seq<char>, address: u64) -> bool {
    &&& cacheline.len() == 18
    &&& cacheline[0] == '0'
    &&& cacheline[1] == 'x'
    &&& text::all_digits(cacheline.skip(2), 16)
    &&& text::digits_value(cacheline.skip(2), 16) == address
}

proof fn addresses_name_lines(address: u64)
    ensures
        names_line(text::hex_address(address as nat), address),
{
    assert(text::hex_span(16) == 0x1_0000_0000_0000_0000) by {
        reveal_with_fuel(text::hex_span, 17);
    }
    text::hex_digits_read_back(address as nat, 16);
    assert(text::hex_address(address as nat).skip(2) =~= text::hex_digits(address as nat, 16));
}

proof fn c2c_rows_name_sites(line: C2cLine, found: Option<FramesView>)
    ensures
        c2c_row(line, found).hitm == line.hitm_count,
        names_line(c2c_row(line, found).cacheline, line.cacheline_addr),
        names_site(c2c_row(line, found).site_leaf, found),
{
    addresses_name_lines(line.cacheline_addr);
    if let Some(frames) = found {
        if frames.frames.len() > 0 {
            addresses_name_lines(frames.frames[0] as u64);
        } else {
            addresses_name_lines(0);
        }
    }
}

/// Every row shows a line with its count, and names the innermost frame of
/// what the line's lookup found. There are as many rows as lines, or as were
/// asked for.
pub proof fn lines_are_shown_with_their_sites(
    lines: &[C2cLine],
    found: &Vec<Option<Frames>>,
    n: usize,
    rows: Vec<C2cRow>,
    i: int,
)
    requires
        found@.len() == lines@.len(),
        call_ensures(rank_c2c, (lines, found, n), rows),
        0 <= i < rows@.len(),
    ensures
        rows@.len() == (if 0 < n < lines@.len() {
            n as nat
        } else {
            lines@.len()
        }),
        exists|k: int|
            {
                &&& 0 <= k < lines@.len()
                &&& rows@[i].hitm == (#[trigger] lines@[k]).hitm_count
                &&& names_line(rows@[i].cacheline@, lines@[k].cacheline_addr)
                &&& names_site(rows@[i].site_leaf@, found_view(found@[k]))
            },
{
    let views = found_views(found@);
    assert(is_c2c_report(lines@, views, n as nat, c2c_views(rows@)));
    let places = choose|places: Seq<int>| #[trigger]
        is_line_order(lines@, places) && c2c_views(rows@) == limited(
            c2c_rows(lines@, views, places),
            n as nat,
        );
    let k = places[i];
    assert(c2c_views(rows@).len() == rows@.len());
    assert(c2c_rows(lines@, views, places)[i] == c2c_row(lines@[k], views[k]));
    assert(c2c_views(rows@)[i] == rows@[i]@);
    c2c_rows_name_sites(lines@[k], views[k]);
    assert(rows@[i].hitm == lines@[k].hitm_count);
}

/// Without a limit every line has its row, attributed or not.
pub proof fn every_line_is_shown(
    lines: &[C2cLine],
    found: &Vec<Option<Frames>>,
    rows: Vec<C2cRow>,
    k: int,
)
    requires
        found@.len() == lines@.len(),
        call_ensures(rank_c2c, (lines, found, 0usize), rows),
        0 <= k < lines@.len(),
    ensures
        exists|i: int|
            {
                &&& 0 <= i < rows@.len()
                &&& (#[trigger] rows@[i]).hitm == lines@[k].hitm_count
                &&& names_line(rows@[i].cacheline@, lines@[k].cacheline_addr)
                &&& names_site(rows@[i].site_leaf@, found_view(found@[k]))
            },
{
    let views = found_views(found@);
    assert(is_c2c_report(lines@, views, 0, c2c_views(rows@)));
    let places = choose|places: Seq<int>| #[trigger]
        is_line_order(lines@, places) && c2c_views(rows@) == limited(
            c2c_rows(lines@, views, places),
            0,
        );
    every_line_is_placed(lines@, places);
    assert(places.contains(k));
    let i = choose|i: int| 0 <= i < places.len() && places[i] == k;
    assert(c2c_views(rows@).len() == rows@.len());
    assert(c2c_rows(lines@, views, places)[i] == c2c_row(lines@[k], views[k]));
    assert(c2c_views(rows@)[i] == rows@[i]@);
    c2c_rows_name_sites(lines@[k], views[k]);
    assert(rows@[i].hitm == lines@[k].hitm_count);
}

/// Rows of lines stand in order: larger counts first, then smaller addresses.
pub proof fn lines_stand_in_order(
    lines: &[C2cLine],
    found: &Vec<Option<Frames>>,
    n: usize,
    rows: Vec<C2cRow>,
    i: int,
    j: int,
)
    requires
        found@.len() == lines@.len(),
        call_ensures(rank_c2c, (lines, found, n), rows),
        0 <= i < j < rows@.len(),
    ensures
        rows@[i].hitm >= rows@[j].hitm,
        rows@[i].hitm == rows@[j].hitm ==> text::digits_value(rows@[i].cacheline@.skip(2), 16)
            <= text::digits_value(rows@[j].cacheline@.skip(2), 16),
{
    let views = found_views(found@);
    assert(is_c2c_report(lines@, views, n as nat, c2c_views(rows@)));
    let places = choose|places: Seq<int>| #[trigger]
        is_line_order(lines@, places) && c2c_views(rows@) == limited(
            c2c_rows(lines@, views, places),
            n as nat,
        );
    let all = c2c_rows(lines@, views, places);
    assert(c2c_views(rows@).len() == rows@.len());
    assert(all[i] == c2c_row(lines@[places[i]], views[places[i]]));
    assert(all[j] == c2c_row(lines@[places[j]], views[places[j]]));
    assert(c2c_views(rows@)[i] == rows@[i]@ && c2c_views(rows@)[j] == rows@[j]@);
    assert(line_before(lines@, places[i], places[j]));
    c2c_rows_name_sites(lines@[places[i]], views[places[i]]);
    c2c_rows_name_sites(lines@[places[j]], views[places[j]]);
}

/// Where the lookup's answers are fixed, every row of a join shows a line with
/// its count, and names the innermost frame of what the line's address is
/// answered.
pub proof fn joined_lines_name_their_sites<F: Fn(u64) -> Option<Frames>>(
    lines: &[C2cLine],
    n: usize,
    lookup: F,
    answer: spec_fn(u64) -> Option<FramesView>,
    rows: Vec<C2cRow>,
    i: int,
)
    requires
        call_ensures(join_c2c::<F>, (lines, n, lookup), rows),
        answers_as(lookup, answer),
        0 <= i < rows@.len(),
    ensures
        rows@.len() == (if 0 < n < lines@.len() {
            n as nat
        } else {
            lines@.len()
        }),
        exists|k: int|
            {
                &&& 0 <= k < lines@.len()
                &&& rows@[i].hitm == (#[trigger] lines@[k]).hitm_count
                &&& names_line(rows@[i].cacheline@, lines@[k].cacheline_addr)
                &&& names_site(rows@[i].site_leaf@, answer(lines@[k].cacheline_addr))
            },
{
    assert(is_c2c_join(lines@, lookup, n as nat, c2c_views(rows@)));
    let found = choose|found: Seq<Option<Frames>>| #[trigger]
        lines_answered(lines@, lookup, found) && is_c2c_report(
            lines@,
            found_views(found),
            n as nat,
            c2c_views(rows@),
        );
    let views = found_views(found);
    let places = choose|places: Seq<int>| #[trigger]
        is_line_order(lines@, places) && c2c_views(rows@) == limited(
            c2c_rows(lines@, views, places),
            n as nat,
        );
    let k = places[i];
    assert(c2c_views(rows@).len() == rows@.len());
    assert(c2c_rows(lines@, views, places)[i] == c2c_row(lines@[k], views[k]));
    assert(c2c_views(rows@)[i] == rows@[i]@);
    assert(call_ensures(lookup, (lines@[k].cacheline_addr,), found[k]));
    assert(views[k] == found_view(found[k]));
    c2c_rows_name_sites(lines@[k], views[k]);
    assert(rows@[i].hitm == lines@[k].hitm_count);
}

/// A cache line and a cache miss on the same allocation name the same site:
/// that of the allocation's innermost frame.
pub proof fn lines_and_misses_name_the_same_site(
    line: &[C2cLine],
    frames: &Vec<Option<Frames>>,
    n: usize,
    lines: Vec<C2cRow>,
    misses: Vec<CacheMissRow>,
)
    requires
        line@.len() == 1,
        frames@.len() == 1,
        frames@[0] is Some,
        call_ensures(rank_c2c, (line, frames, n), lines),
        call_ensures(rank_cache_misses, (frames, n), misses),
    ensures
        lines@.len() == 1,
        misses@.len() == 1,
        lines@[0].site_leaf@ == misses@[0].site_leaf@,
        frames@[0]->0.frames@.len() > 0 ==> text::digits_value(lines@[0].site_leaf@.skip(2), 16)
            == frames@[0]->0.frames@[0],
        misses@[0].miss_count == 1,
        misses@[0].bytes == frames@[0]->0.allocated_size,
{
    let views = found_views(frames@);
    let own = views[0]->0;
    assert(is_c2c_report(line@, views, n as nat, c2c_views(lines@)));
    let places = choose|places: Seq<int>| #[trigger]
        is_line_order(line@, places) && c2c_views(lines@) == limited(
            c2c_rows(line@, views, places),
            n as nat,
        );
    assert(places[0] == 0);
    assert(c2c_views(lines@).len() == lines@.len());
    assert(c2c_rows(line@, views, places)[0] == c2c_row(line@[0], views[0]));
    assert(c2c_views(lines@)[0] == lines@[0]@);
    c2c_rows_name_sites(line@[0], views[0]);
    assert(is_miss_report(views, n as nat, miss_views(misses@)));
    assert(views.drop_last() =~= Seq::empty());
    assert(hits(views.drop_last()) =~= Seq::empty());
    let all = hits(views);
    assert(all =~= seq![hit_of(own)]);
    let ranked = choose|ranked: Seq<MissSite>| #[trigger]
        is_miss_table(all, ranked) && miss_views(misses@) == limited(miss_rows(ranked), n as nat);
    assert(has_site(ranked, all[0].0));
    assert forall|i: int| 0 <= i < ranked.len() implies (#[trigger] ranked[i]).leaf == all[0].0 by {
        assert(table::has_member(all, by_leaf(), ranked[i].leaf));
    }
    one_row_per_leaf(all, ranked);
    assert(ranked.len() == 1) by {
        if ranked.len() > 1 {
            assert(ranked[0].leaf != ranked[1].leaf);
        }
    }
    reveal(Seq::filter);
    let at = misses_at(all, all[0].0);
    assert(all.drop_last() =~= Seq::empty());
    assert(all.drop_last().filter(|h: (usize, u64)| by_leaf()(h) == all[0].0) =~= Seq::empty());
    table::picks_are_members(all, by_leaf(), all[0].0, |h: (usize, u64)| by_leaf()(h) == all[0].0);
    assert(at =~= all);
    assert(largest(all.drop_last()) == 0);
    assert(miss_views(misses@).len() == misses@.len());
    assert(miss_rows(ranked)[0] == miss_row(ranked[0]));
    assert(miss_views(misses@)[0] == misses@[0]@);
}

/// Lines that agree in count and address keep their order.
pub proof fn equal_lines_keep_their_order(
    lines: &[C2cLine],
    found: &Vec<Option<Frames>>,
    n: usize,
    rows: Vec<C2cRow>,
    i: int,
    j: int,
)
    requires
        found@.len() == lines@.len(),
        call_ensures(rank_c2c, (lines, found, n), rows),
        0 <= i < j < rows@.len(),
        rows@[i].hitm == rows@[j].hitm,
        rows@[i].cacheline@ == rows@[j].cacheline@,
    ensures
        exists|a: int, b: int|
            {
                &&& 0 <= a < b < lines@.len()
                &&& (#[trigger] lines@[a]).hitm_count == rows@[i].hitm
                &&& (#[trigger] lines@[b]).hitm_count == rows@[j].hitm
                &&& names_line(rows@[i].cacheline@, lines@[a].cacheline_addr)
                &&& names_line(rows@[j].cacheline@, lines@[b].cacheline_addr)
                &&& names_site(rows@[i].site_leaf@, found_view(found@[a]))
                &&& names_site(rows@[j].site_leaf@, found_view(found@[b]))
            },
{
    let views = found_views(found@);
    assert(is_c2c_report(lines@, views, n as nat, c2c_views(rows@)));
    let places = choose|places: Seq<int>| #[trigger]
        is_line_order(lines@, places) && c2c_views(rows@) == limited(
            c2c_rows(lines@, views, places),
            n as nat,
        );
    let all = c2c_rows(lines@, views, places);
    let a = places[i];
    let b = places[j];
    assert(c2c_views(rows@).len() == rows@.len());
    assert(all[i] == c2c_row(lines@[a], views[a]) && all[j] == c2c_row(lines@[b], views[b]));
    assert(c2c_views(rows@)[i] == rows@[i]@ && c2c_views(rows@)[j] == rows@[j]@);
    assert(line_before(lines@, a, b));
    c2c_rows_name_sites(lines@[a], views[a]);
    c2c_rows_name_sites(lines@[b], views[b]);
    assert(lines@[a].cacheline_addr == lines@[b].cacheline_addr);
    assert(lines@[a].hitm_count == rows@[i].hitm && lines@[b].hitm_count == rows@[j].hitm);
}

/// New rows are empty, and copies of rows are the same rows.
pub proof fn rows_start_empty(
    fresh: CacheMissRow,
    row: &CacheMissRow,
    copy: CacheMissRow,
    fresh_line: C2cRow,
    line: &C2cRow,
    line_copy: C2cRow,
)
    requires
        call_ensures(<CacheMissRow as Default>::default, (), fresh),
        call_ensures(<CacheMissRow as Clone>::clone, (row,), copy),
        call_ensures(<C2cRow as Default>::default, (), fresh_line),
        call_ensures(<C2cRow as Clone>::clone, (line,), line_copy),
    ensures
        fresh.site_leaf@.len() == 0 && fresh.miss_count == 0 && fresh.bytes == 0,
        copy.site_leaf@ == row.site_leaf@,
        copy.miss_count == row.miss_count,
        copy.bytes == row.bytes,
        fresh_line.cacheline@.len() == 0 && fresh_line.hitm == 0 && fresh_line.site_leaf@.len() == 0,
        line_copy.cacheline@ == line.cacheline@,
        line_copy.hitm == line.hitm,
        line_copy.site_leaf@ == line.site_leaf@,
{
    assert(fresh@.site_leaf.len() == 0);
    assert(copy@ == row@);
    assert(fresh_line@.cacheline.len() == 0 && fresh_line@.site_leaf.len() == 0);
    assert(line_copy@ == line@);
}

} // verus!

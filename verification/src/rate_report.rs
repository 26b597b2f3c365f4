//! Per-site allocation counts from a log of events.
//!
//! An event names a site, says what happened there and may carry a size and
//! a time. Events are read one at a time; what is kept grows with the number
//! of distinct sites, not with the number of events.
use vstd::prelude::*;
use crate::order;
use crate::order::{sort, Rank, SortKey};
use crate::table;
use crate::table::{Table, Tally};
use crate::text;
use crate::text::{chars_of, push_decimal, push_text, push_utf8, same_text, string_from_utf8, text_of, trim};

verus! {

/// One event as it was logged.
#[derive(Debug)]
pub struct RawEvent {
    /// Time in nanoseconds.
    pub ts_ns: Option<u64>,
    /// `alloc`, `dealloc`, or something that changes no size.
    pub kind: Option<String>,
    /// Where it happened.
    pub site: Option<String>,
    /// Bytes added or removed. Counts as 0 where it is missing.
    pub size: Option<u64>,
}

#[verifier::ext_equal]
pub struct EventView {
    pub ts_ns: Option<u64>,
    pub kind: Option<Seq<char>>,
    pub site: Option<Seq<char>>,
    pub size: Option<u64>,
}

impl View for RawEvent {
    type V = EventView;

    open spec fn view(&self) -> EventView {
        EventView {
            ts_ns: self.ts_ns,
            kind: crate::symbols::text_view(self.kind),
            site: crate::symbols::text_view(self.site),
            size: self.size,
        }
    }
}

/// What an event does to its site.
#[derive(Clone, Copy, Debug, PartialEq, Eq, Structural)]
pub enum Change {
    Alloc(u64),
    Dealloc(u64),
    Neutral,
}

/// An event that names both a site and a kind counts.
pub open spec fn counts(event: EventView) -> bool {
    &&& event.kind is Some
    &&& event.site is Some
    &&& event.site->0.len() > 0
}

/// What a counted event does.
pub open spec fn change_of(event: EventView) -> Change {
    let size = match event.size {
        Some(n) => n,
        None => 0,
    };
    if event.kind == Some("alloc"@) {
        Change::Alloc(size)
    } else if event.kind == Some("dealloc"@) {
        Change::Dealloc(size)
    } else {
        Change::Neutral
    }
}

/// The events that count, in order.
pub open spec fn counted(events: Seq<EventView>) -> Seq<EventView> {
    events.filter(|e: EventView| counts(e))
}

/// The site of a counted event.
pub open spec fn by_site() -> spec_fn(EventView) -> Seq<char> {
    |e: EventView| e.site->0
}

pub open spec fn to_change() -> spec_fn(EventView) -> Change {
    |e: EventView| change_of(e)
}

/// What happened at a site, in order.
pub open spec fn changes_at(events: Seq<EventView>, site: Seq<char>) -> Seq<Change> {
    table::members(counted(events), by_site(), site).map_values(to_change())
}

/// How many allocations there were.
pub open spec fn allocs(changes: Seq<Change>) -> nat {
    changes.filter(|c: Change| c is Alloc).len()
}

/// How many deallocations there were.
pub open spec fn deallocs(changes: Seq<Change>) -> nat {
    changes.filter(|c: Change| c is Dealloc).len()
}

/// The bytes live after the changes. The running total stays between 0 and
/// the largest 64-bit number.
pub open spec fn live(changes: Seq<Change>) -> u64
    decreases changes.len(),
{
    if changes.len() == 0 {
        0
    } else {
        let before = live(changes.drop_last());
        match changes.last() {
            Change::Alloc(n) => if before + n <= u64::MAX {
                (before + n) as u64
            } else {
                u64::MAX
            },
            Change::Dealloc(n) => if before >= n {
                (before - n) as u64
            } else {
                0
            },
            Change::Neutral => before,
        }
    }
}

/// The most bytes that were live at any time.
pub open spec fn peak(changes: Seq<Change>) -> u64
    decreases changes.len(),
{
    if changes.len() == 0 {
        0
    } else {
        let before = peak(changes.drop_last());
        let now = live(changes);
        if now > before {
            now
        } else {
            before
        }
    }
}

/// The totals of one site.
#[derive(Debug)]
pub struct SiteTotals {
    /// The site, as logged.
    pub site: String,
    /// Number of allocations.
    pub alloc_count: u64,
    /// Number of deallocations.
    pub dealloc_count: u64,
    /// Most bytes live at any time.
    pub peak_live_bytes: u64,
}

#[verifier::ext_equal]
pub struct TotalsView {
    pub site: Seq<char>,
    pub alloc_count: u64,
    pub dealloc_count: u64,
    pub peak_live_bytes: u64,
}

impl View for SiteTotals {
    type V = TotalsView;

    open spec fn view(&self) -> TotalsView {
        TotalsView {
            site: self.site@,
            alloc_count: self.alloc_count,
            dealloc_count: self.dealloc_count,
            peak_live_bytes: self.peak_live_bytes,
        }
    }
}

pub open spec fn totals_views(rows: Seq<SiteTotals>) -> Seq<TotalsView> {
    Seq::new(rows.len(), |i: int| rows[i]@)
}

/// A count as far as the counter reaches.
pub open spec fn capped_count(n: nat) -> u64 {
    if n <= u64::MAX {
        n as u64
    } else {
        u64::MAX
    }
}

/// The totals of one site.
pub open spec fn totals_at(events: Seq<EventView>, site: Seq<char>) -> TotalsView {
    let changes = changes_at(events, site);
    TotalsView {
        site,
        alloc_count: capped_count(allocs(changes)),
        dealloc_count: capped_count(deallocs(changes)),
        peak_live_bytes: peak(changes),
    }
}

/// Rows are ordered by allocations descending, then by site ascending.
pub open spec fn totals_before(a: TotalsView, b: TotalsView) -> bool {
    totals_rank_before((a.alloc_count, a.site), (b.alloc_count, b.site))
}

pub open spec fn totals_rank_before(a: (u64, Seq<char>), b: (u64, Seq<char>)) -> bool {
    ||| a.0 > b.0
    ||| a.0 == b.0 && order::lex_before(order::codes(a.1), order::codes(b.1))
}

/// Some row is that of the given site.
pub open spec fn has_totals(rows: Seq<TotalsView>, site: Seq<char>) -> bool {
    exists|i: int| 0 <= i < rows.len() && (#[trigger] rows[i]).site == site
}

/// `rows` are the totals of every site that a counted event names, once and
/// in order.
pub open spec fn is_totals_table(events: Seq<EventView>, rows: Seq<TotalsView>) -> bool {
    &&& forall|i: int, j: int|
        0 <= i < j < rows.len() ==> totals_before(#[trigger] rows[i], #[trigger] rows[j])
    &&& forall|i: int|
        0 <= i < rows.len() ==> {
            &&& table::has_member(counted(events), by_site(), (#[trigger] rows[i]).site)
            &&& rows[i] == totals_at(events, rows[i].site)
        }
    &&& forall|e: int|
        0 <= e < counted(events).len() ==> has_totals(rows, by_site()(#[trigger] counted(events)[e]))
}

/// The earliest time of a counted event.
pub open spec fn first_time(events: Seq<EventView>) -> Option<u64>
    decreases events.len(),
{
    if events.len() == 0 {
        None
    } else {
        let before = first_time(events.drop_last());
        match (events.last().ts_ns, before) {
            (Some(t), Some(f)) => if !counts(events.last()) || f <= t {
                Some(f)
            } else {
                Some(t)
            },
            (Some(t), None) => if counts(events.last()) {
                Some(t)
            } else {
                None
            },
            (None, _) => before,
        }
    }
}

/// The latest time of a counted event.
pub open spec fn last_time(events: Seq<EventView>) -> Option<u64>
    decreases events.len(),
{
    if events.len() == 0 {
        None
    } else {
        let before = last_time(events.drop_last());
        match (events.last().ts_ns, before) {
            (Some(t), Some(l)) => if !counts(events.last()) || l >= t {
                Some(l)
            } else {
                Some(t)
            },
            (Some(t), None) => if counts(events.last()) {
                Some(t)
            } else {
                None
            },
            (None, _) => before,
        }
    }
}

/// The time from the earliest to the latest counted event, in nanoseconds,
/// or 0 where no counted event carries a time.
pub open spec fn span_of(events: Seq<EventView>) -> u64 {
    match (first_time(events), last_time(events)) {
        (Some(f), Some(l)) => if l > f {
            (l - f) as u64
        } else {
            0
        },
        _ => 0,
    }
}

#[derive(Clone, Copy)]
struct SiteAcc {
    alloc_count: u64,
    dealloc_count: u64,
    live_bytes: u64,
    peak_live_bytes: u64,
}

impl Tally for SiteAcc {
    type Item = Change;

    closed spec fn start() -> SiteAcc {
        SiteAcc { alloc_count: 0, dealloc_count: 0, live_bytes: 0, peak_live_bytes: 0 }
    }

    closed spec fn step(self, item: Change) -> SiteAcc {
        match item {
            Change::Alloc(n) => {
                let now = if self.live_bytes + n <= u64::MAX {
                    (self.live_bytes + n) as u64
                } else {
                    u64::MAX
                };
                SiteAcc {
                    alloc_count: capped_count((self.alloc_count + 1) as nat),
                    live_bytes: now,
                    peak_live_bytes: if now > self.peak_live_bytes {
                        now
                    } else {
                        self.peak_live_bytes
                    },
                    ..self
                }
            },
            Change::Dealloc(n) => SiteAcc {
                dealloc_count: capped_count((self.dealloc_count + 1) as nat),
                live_bytes: if self.live_bytes >= n {
                    (self.live_bytes - n) as u64
                } else {
                    0
                },
                ..self
            },
            Change::Neutral => self,
        }
    }

    fn fresh() -> (acc: SiteAcc) {
        SiteAcc { alloc_count: 0, dealloc_count: 0, live_bytes: 0, peak_live_bytes: 0 }
    }

    fn absorb(&self, item: Change) -> (acc: SiteAcc) {
        match item {
            Change::Alloc(n) => {
                let now: u64 = self.live_bytes.saturating_add(n);
                SiteAcc {
                    alloc_count: self.alloc_count.saturating_add(1),
                    dealloc_count: self.dealloc_count,
                    live_bytes: now,
                    peak_live_bytes: if now > self.peak_live_bytes {
                        now
                    } else {
                        self.peak_live_bytes
                    },
                }
            },
            Change::Dealloc(n) => SiteAcc {
                alloc_count: self.alloc_count,
                dealloc_count: self.dealloc_count.saturating_add(1),
                live_bytes: self.live_bytes.saturating_sub(n),
                peak_live_bytes: self.peak_live_bytes,
            },
            Change::Neutral => *self,
        }
    }
}

proof fn peak_covers_live(changes: Seq<Change>)
    ensures
        live(changes) <= peak(changes),
{
}

proof fn site_acc_closed_form(changes: Seq<Change>)
    ensures
        table::tally_all::<SiteAcc>(changes) == (SiteAcc {
            alloc_count: capped_count(allocs(changes)),
            dealloc_count: capped_count(deallocs(changes)),
            live_bytes: live(changes),
            peak_live_bytes: peak(changes),
        }),
    decreases changes.len(),
{
    reveal(Seq::filter);
    if changes.len() > 0 {
        let before = changes.drop_last();
        site_acc_closed_form(before);
        peak_covers_live(before);
    }
}

/// Reads events and keeps the totals of their sites.
pub struct RateReducer {
    sites: Table<Vec<char>, SiteAcc>,
    first_ts: Option<u64>,
    last_ts: Option<u64>,
    events: Ghost<Seq<EventView>>,
}

/// The totals of a log, and the time that it spans in nanoseconds.
#[derive(Debug)]
pub struct RateReport {
    pub rows: Vec<SiteTotals>,
    pub span_ns: u64,
}

/// A report is that of the given events.
pub open spec fn is_report(events: Seq<EventView>, report: RateReport) -> bool {
    &&& is_totals_table(events, totals_views(report.rows@))
    &&& report.span_ns == span_of(events)
}

impl RateReducer {
    /// The events read so far.
    pub closed spec fn events(&self) -> Seq<EventView> {
        self.events@
    }

    /// What is kept are the totals of the events read so far.
    pub closed spec fn wf(&self) -> bool {
        &&& self.sites.wf()
        &&& self.sites.history() == table::entries(counted(self.events@), by_site(), to_change())
        &&& self.first_ts == first_time(self.events@)
        &&& self.last_ts == last_time(self.events@)
    }

    pub fn new() -> (r: Self)
        ensures
            r.wf(),
            r.events() == Seq::<EventView>::empty(),
    {
        reveal(Seq::filter);
        let r = RateReducer {
            sites: Table::new(),
            first_ts: None,
            last_ts: None,
            events: Ghost(Seq::empty()),
        };
        assert(table::entries(counted(r.events@), by_site(), to_change()) =~= Seq::empty());
        r
    }

    /// Read one event.
    pub fn absorb(&mut self, event: &RawEvent)
        requires
            old(self).wf(),
        ensures
            final(self).wf(),
            final(self).events() == old(self).events().push(event@),
    {
        reveal(Seq::filter);
        let ghost before = self.events@;
        let ghost after = before.push(event@);
        assert(after.drop_last() =~= before);
        self.events = Ghost(after);
        let site = match &event.site {
            Some(s) => chars_of(s.as_str()),
            None => {
                return;
            },
        };
        if site.len() == 0 {
            return;
        }
        let kind = match &event.kind {
            Some(k) => chars_of(k.as_str()),
            None => {
                return;
            },
        };
        assert(counts(event@));
        if let Some(ts) = event.ts_ns {
            self.first_ts = match self.first_ts {
                Some(f) => if ts < f {
                    Some(ts)
                } else {
                    Some(f)
                },
                None => Some(ts),
            };
            self.last_ts = match self.last_ts {
                Some(l) => if ts > l {
                    Some(ts)
                } else {
                    Some(l)
                },
                None => Some(ts),
            };
        }
        let size: u64 = match event.size {
            Some(n) => n,
            None => 0,
        };
        let change = if same_text(&kind, "alloc") {
            Change::Alloc(size)
        } else if same_text(&kind, "dealloc") {
            Change::Dealloc(size)
        } else {
            Change::Neutral
        };
        assert(change == change_of(event@));
        self.sites.record(site, change);
        assert(table::entries(counted(after), by_site(), to_change()) =~= table::entries(
            counted(before),
            by_site(),
            to_change(),
        ).push((by_site()(event@), to_change()(event@))));
    }

    /// Read one line of a log. Text is handed to `parse` without white space
    /// around it, unless it is blank; text that `parse` does not take for an
    /// event is passed over, and so is a malformed line. Returns whether the
    /// log goes on: it ends where reading failed.
    pub fn absorb_line<F: Fn(String) -> Option<RawEvent>>(&mut self, line: &LogLine, parse: &F) -> (goes_on:
        bool)
        requires
            old(self).wf(),
            forall|s: String| call_requires(*parse, (s,)),
        ensures
            final(self).wf(),
            goes_on == (line@ != LineView::Failed),
            exists|event: Option<EventView>| #[trigger]
                gives(*parse, line@, event) && final(self).events() == with_event(
                    old(self).events(),
                    event,
                ),
    {
        let ghost mut event: Option<EventView> = None;
        match line {
            LogLine::Text(line) => {
                if let Some(content) = event_text(line.as_str()) {
                    let ghost asked = content;
                    let raw = parse(content);
                    proof {
                        event = event_view(raw);
                        assert(call_ensures(*parse, (asked,), raw));
                    }
                    if let Some(e) = raw {
                        self.absorb(&e);
                    }
                }
            },
            LogLine::Malformed => {},
            LogLine::Failed => {
                assert(gives(*parse, LineView::Failed, event));
                return false;
            },
        }
        assert(gives(*parse, line@, event));
        true
    }

    /// The totals of all events read.
    #[verifier::rlimit(40)]
    pub fn finish(self) -> (report: RateReport)
        requires
            self.wf(),
        ensures
            is_report(self.events(), report),
    {
        let ghost events = self.events@;
        let ghost history = table::entries(counted(events), by_site(), to_change());
        let span_ns: u64 = match (self.first_ts, self.last_ts) {
            (Some(f), Some(l)) => if l > f {
                l - f
            } else {
                0
            },
            _ => 0,
        };
        let (keys, accs) = self.sites.into_parts();
        let ghost ks = order::models(keys@);
        proof {
            assert forall|i: int| 0 <= i < ks.len() implies acc_matches(
                #[trigger] accs[i],
                totals_at(events, ks[i]),
            ) by {
                assert(accs@[i] == table::tally_of::<Seq<char>, SiteAcc>(history, ks[i]));
                table::tally_of_group::<Seq<char>, EventView, SiteAcc>(
                    counted(events),
                    by_site(),
                    to_change(),
                    ks[i],
                );
                site_acc_closed_form(changes_at(events, ks[i]));
            }
        }
        let mut unsorted: Vec<SiteRank> = Vec::new();
        for i in 0..keys.len()
            invariant
                ks == order::models(keys@),
                keys.len() == accs.len(),
                forall|i: int|
                    0 <= i < ks.len() ==> acc_matches(#[trigger] accs[i], totals_at(events, ks[i])),
                unsorted.len() == i,
                forall|j: int|
                    0 <= j < i ==> (#[trigger] unsorted[j]).model() == (
                        totals_at(events, ks[j]).alloc_count,
                        ks[j],
                    ),
        {
            let site = keys[i].clone();
            assert(site@ =~= ks[i as int]);
            assert(acc_matches(accs[i as int], totals_at(events, ks[i as int])));
            unsorted.push(SiteRank { alloc_count: accs[i].alloc_count, site });
        }
        let ghost ms = order::models(unsorted@);
        proof {
            order::ascending_is_distinct::<Vec<char>>(ks);
            assert forall|i: int, j: int| 0 <= i < j < ms.len() implies #[trigger] ms[i]
                != #[trigger] ms[j] by {
                assert(unsorted[i].model() == ms[i] && unsorted[j].model() == ms[j]);
                assert(ks[i] != ks[j]);
            }
        }
        let sorted = sort(unsorted);
        let ghost ss = order::models(sorted@);
        let ghost rows_model = Seq::new(ss.len(), |i: int| totals_at(events, ss[i].1));
        proof {
            totals_table_from_groups(events, ks, ms, ss, rows_model);
        }
        let mut rows: Vec<SiteTotals> = Vec::new();
        for i in 0..sorted.len()
            invariant
                ss == order::models(sorted@),
                ks == order::models(keys@),
                order::ascending::<Vec<char>>(ks),
                keys.len() == accs.len(),
                forall|i: int| 0 <= i < ss.len() ==> ks.contains((#[trigger] ss[i]).1),
                forall|i: int|
                    0 <= i < ks.len() ==> acc_matches(#[trigger] accs[i], totals_at(events, ks[i])),
                rows.len() == i,
                forall|j: int| 0 <= j < i ==> (#[trigger] rows[j])@ == totals_at(events, ss[j].1),
        {
            let found = order::locate(&keys, &sorted[i].site);
            let at: usize = found.1;
            assert(ss[i as int] == sorted[i as int].model());
            proof {
                let j = choose|j: int| 0 <= j < ks.len() && ks[j] == ss[i as int].1;
                assert(keys[j].model() == ks[j]);
                if !found.0 {
                    Vec::<char>::before_irreflexive(ks[j]);
                }
                assert(ks[at as int] == ss[i as int].1);
                assert(acc_matches(accs[at as int], totals_at(events, ks[at as int])));
            }
            let acc = accs[at];
            rows.push(
                SiteTotals {
                    site: text_of(&sorted[i].site),
                    alloc_count: acc.alloc_count,
                    dealloc_count: acc.dealloc_count,
                    peak_live_bytes: acc.peak_live_bytes,
                },
            );
        }
        assert(totals_views(rows@) =~= rows_model);
        RateReport { rows, span_ns }
    }
}

spec fn acc_matches(acc: SiteAcc, totals: TotalsView) -> bool {
    &&& acc.alloc_count == totals.alloc_count
    &&& acc.dealloc_count == totals.dealloc_count
    &&& acc.peak_live_bytes == totals.peak_live_bytes
}

struct SiteRank {
    alloc_count: u64,
    site: Vec<char>,
}

impl SortKey for SiteRank {
    type Model = (u64, Seq<char>);

    closed spec fn model(&self) -> (u64, Seq<char>) {
        (self.alloc_count, self.site@)
    }

    open spec fn before(a: (u64, Seq<char>), b: (u64, Seq<char>)) -> bool {
        totals_rank_before(a, b)
    }

    proof fn before_irreflexive(a: (u64, Seq<char>)) {
        Vec::<char>::before_irreflexive(a.1);
    }

    proof fn before_transitive(a: (u64, Seq<char>), b: (u64, Seq<char>), c: (u64, Seq<char>)) {
        if a.0 == b.0 && b.0 == c.0 {
            Vec::<char>::before_transitive(a.1, b.1, c.1);
        }
    }

    proof fn before_total(a: (u64, Seq<char>), b: (u64, Seq<char>)) {
        Vec::<char>::before_total(a.1, b.1);
    }

    fn place(&self, other: &Self) -> (rank: Rank) {
        if self.alloc_count > other.alloc_count {
            Rank::Before
        } else if self.alloc_count < other.alloc_count {
            Rank::After
        } else {
            self.site.place(&other.site)
        }
    }
}

proof fn totals_table_from_groups(
    events: Seq<EventView>,
    keys: Seq<Seq<char>>,
    unsorted: Seq<(u64, Seq<char>)>,
    sorted: Seq<(u64, Seq<char>)>,
    rows: Seq<TotalsView>,
)
    requires
        forall|i: int|
            0 <= i < keys.len() ==> table::occurs(
                table::entries(counted(events), by_site(), to_change()),
                #[trigger] keys[i],
            ),
        forall|s: int|
            0 <= s < counted(events).len() ==> keys.contains(
                (#[trigger] table::entries(counted(events), by_site(), to_change())[s]).0,
            ),
        unsorted.len() == keys.len(),
        forall|j: int|
            0 <= j < unsorted.len() ==> #[trigger] unsorted[j] == (
                totals_at(events, keys[j]).alloc_count,
                keys[j],
            ),
        order::ascending::<SiteRank>(sorted),
        order::same_members(sorted, unsorted),
        rows.len() == sorted.len(),
        forall|i: int| 0 <= i < rows.len() ==> #[trigger] rows[i] == totals_at(events, sorted[i].1),
    ensures
        is_totals_table(events, rows),
        forall|i: int| 0 <= i < sorted.len() ==> keys.contains((#[trigger] sorted[i]).1),
{
    let items = counted(events);
    let history = table::entries(items, by_site(), to_change());
    assert forall|i: int| 0 <= i < sorted.len() implies {
        &&& keys.contains((#[trigger] sorted[i]).1)
        &&& sorted[i].0 == totals_at(events, sorted[i].1).alloc_count
        &&& table::has_member(items, by_site(), sorted[i].1)
    } by {
        assert(unsorted.contains(sorted[i]));
        let j = choose|j: int| 0 <= j < unsorted.len() && unsorted[j] == sorted[i];
        assert(keys[j] == sorted[i].1);
        table::occurs_in_entries(items, by_site(), to_change(), keys[j]);
    }
    assert forall|i: int, j: int| 0 <= i < j < rows.len() implies totals_before(
        #[trigger] rows[i],
        #[trigger] rows[j],
    ) by {
        assert(SiteRank::before(sorted[i], sorted[j]));
        assert(sorted[i].0 == rows[i].alloc_count);
        assert(sorted[j].0 == rows[j].alloc_count);
    }
    assert forall|i: int| 0 <= i < rows.len() implies {
        &&& table::has_member(items, by_site(), (#[trigger] rows[i]).site)
        &&& rows[i] == totals_at(events, rows[i].site)
    } by {
        assert(keys.contains(sorted[i].1));
    }
    assert forall|e: int| 0 <= e < items.len() implies has_totals(
        rows,
        by_site()(#[trigger] items[e]),
    ) by {
        assert(history[e].0 == by_site()(items[e]));
        assert(keys.contains(history[e].0));
        let j = choose|j: int| 0 <= j < keys.len() && keys[j] == by_site()(items[e]);
        assert(sorted.contains(unsorted[j]));
        let i = choose|i: int| 0 <= i < sorted.len() && sorted[i] == unsorted[j];
        assert(rows[i].site == by_site()(items[e]));
    }
}

/// The text of a line of a log, if it holds any.
pub open spec fn line_content(line: Seq<char>) -> Option<Seq<char>> {
    let s = text::trimmed(line);
    if s.len() == 0 {
        None
    } else {
        Some(s)
    }
}

/// The text of a line of a log without white space around it, or `None` for a
/// blank line.
pub fn event_text(line: &str) -> (content: Option<String>)
    ensures
        crate::symbols::text_view(content) == line_content(line@),
{
    let s = trim(&chars_of(line));
    if s.len() == 0 {
        None
    } else {
        Some(text_of(&s))
    }
}

/// One line of a log as it was read.
#[derive(Debug)]
pub enum LogLine {
    /// A line of text.
    Text(String),
    /// A line that is no text.
    Malformed,
    /// Reading failed here.
    Failed,
}

/// The mathematical content of a line.
#[verifier::ext_equal]
pub enum LineView {
    Text(Seq<char>),
    Malformed,
    Failed,
}

impl View for LogLine {
    type V = LineView;

    open spec fn view(&self) -> LineView {
        match self {
            LogLine::Text(s) => LineView::Text(s@),
            LogLine::Malformed => LineView::Malformed,
            LogLine::Failed => LineView::Failed,
        }
    }
}

pub open spec fn line_views(lines: Seq<LogLine>) -> Seq<LineView> {
    Seq::new(lines.len(), |i: int| lines[i]@)
}

impl LogLine {
    /// The line of the given bytes: the text that they encode, or a malformed
    /// line where they are not UTF-8.
    pub fn from_bytes(bytes: Vec<u8>) -> (line: Self)
        ensures
            line@ == (if vstd::utf8::valid_utf8(bytes@) {
                LineView::Text(vstd::utf8::decode_utf8(bytes@))
            } else {
                LineView::Malformed
            }),
    {
        match string_from_utf8(bytes) {
            Ok(s) => LogLine::Text(s),
            Err(_) => LogLine::Malformed,
        }
    }
}

/// The lines before the first where reading failed.
pub open spec fn readable_lines(lines: Seq<LineView>) -> Seq<LineView>
    decreases lines.len(),
{
    if lines.len() == 0 || lines[0] == LineView::Failed {
        Seq::empty()
    } else {
        seq![lines[0]] + readable_lines(lines.skip(1))
    }
}

/// What one line gave: nothing where it is malformed or blank, and otherwise
/// what the parser made of its text.
pub open spec fn gives<F: Fn(String) -> Option<RawEvent>>(
    parse: F,
    line: LineView,
    event: Option<EventView>,
) -> bool {
    match line {
        LineView::Text(text) => match line_content(text) {
            None => event is None,
            Some(content) => exists|s: String, raw: Option<RawEvent>|
                {
                    &&& s@ == content
                    &&& #[trigger] call_ensures(parse, (s,), raw)
                    &&& event == event_view(raw)
                },
        },
        _ => event is None,
    }
}

pub open spec fn event_view(raw: Option<RawEvent>) -> Option<EventView> {
    match raw {
        Some(event) => Some(event@),
        None => None,
    }
}

/// Events with one more, if it is there.
pub open spec fn with_event(events: Seq<EventView>, event: Option<EventView>) -> Seq<EventView> {
    match event {
        Some(e) => events.push(e),
        None => events,
    }
}

/// The events that are there, in order.
pub open spec fn present(events: Seq<Option<EventView>>) -> Seq<EventView>
    decreases events.len(),
{
    if events.len() == 0 {
        Seq::empty()
    } else {
        with_event(present(events.drop_last()), events.last())
    }
}

/// `events` has, for each readable line, the event that it gave.
pub open spec fn read_from<F: Fn(String) -> Option<RawEvent>>(
    lines: Seq<LineView>,
    parse: F,
    events: Seq<Option<EventView>>,
) -> bool {
    let read = readable_lines(lines);
    &&& events.len() == read.len()
    &&& forall|i: int| 0 <= i < events.len() ==> gives(parse, read[i], #[trigger] events[i])
}

/// `report` is a report of the log: that of the events that its readable
/// lines gave.
pub open spec fn reports<F: Fn(String) -> Option<RawEvent>>(
    lines: Seq<LineView>,
    parse: F,
    report: RateReport,
) -> bool {
    exists|events: Seq<Option<EventView>>| #[trigger]
        read_from(lines, parse, events) && is_report(present(events), report)
}

proof fn readable_lines_step(lines: Seq<LineView>, n: int)
    requires
        0 <= n < lines.len(),
        forall|i: int| 0 <= i < n ==> #[trigger] lines[i] != LineView::Failed,
    ensures
        readable_lines(lines.take(n)).len() == n,
        lines[n] != LineView::Failed ==> readable_lines(lines.take(n + 1)) == readable_lines(
            lines.take(n),
        ).push(lines[n]),
        lines[n] == LineView::Failed ==> readable_lines(lines) == readable_lines(lines.take(n)),
    decreases n,
{
    if n == 0 {
        assert(lines.take(0) =~= Seq::empty());
        if lines[0] != LineView::Failed {
            assert(lines.take(1).skip(1) =~= Seq::empty());
            assert(readable_lines(lines.take(1)) =~= readable_lines(lines.take(0)).push(lines[0]));
        }
    } else {
        let rest = lines.skip(1);
        assert(lines[0] != LineView::Failed);
        assert forall|i: int| 0 <= i < n - 1 implies #[trigger] rest[i] != LineView::Failed by {
            assert(rest[i] == lines[i + 1]);
        }
        readable_lines_step(rest, n - 1);
        assert(lines.take(n).skip(1) =~= rest.take(n - 1));
        assert(lines.take(n + 1).skip(1) =~= rest.take(n));
        if lines[n] != LineView::Failed {
            assert(readable_lines(lines.take(n + 1)) =~= readable_lines(lines.take(n)).push(
                lines[n],
            ));
        }
    }
}

/// Read a log, line by line, up to the first line where reading failed.
/// Malformed and blank lines, and lines that `parse` does not take for an
/// event, are passed over.
#[verifier::rlimit(40)]
pub fn reduce_lines<F: Fn(String) -> Option<RawEvent>>(lines: &Vec<LogLine>, parse: F) -> (report:
    RateReport)
    requires
        forall|s: String| call_requires(parse, (s,)),
    ensures
        reports(line_views(lines@), parse, report),
{
    let ghost views = line_views(lines@);
    let mut reducer = RateReducer::new();
    let ghost mut events: Seq<Option<EventView>> = Seq::empty();
    let mut i: usize = 0;
    assert(views.take(0) =~= Seq::empty());
    while i < lines.len()
        invariant
            i <= lines.len(),
            views == line_views(lines@),
            forall|s: String| call_requires(parse, (s,)),
            forall|j: int| 0 <= j < i ==> #[trigger] views[j] != LineView::Failed,
            read_from(views.take(i as int), parse, events),
            reducer.wf(),
            reducer.events() == present(events),
        decreases lines.len() - i,
    {
        proof {
            readable_lines_step(views, i as int);
        }
        let ghost had = reducer.events();
        let goes_on = reducer.absorb_line(&lines[i], &parse);
        let ghost event = choose|event: Option<EventView>| #[trigger]
            gives(parse, views[i as int], event) && reducer.events() == with_event(had, event);
        if !goes_on {
            assert(read_from(views, parse, events));
            return reducer.finish();
        }
        proof {
            assert(events.push(event).drop_last() =~= events);
            events = events.push(event);
        }
        i = i + 1;
    }
    assert(views.take(views.len() as int) =~= views);
    reducer.finish()
}

/// A line that changes nothing: it is malformed or blank, or whatever the
/// parser makes of it is no event or one that does not count.
pub open spec fn idle<F: Fn(String) -> Option<RawEvent>>(parse: F, line: LineView) -> bool {
    &&& line != LineView::Failed
    &&& forall|event: Option<EventView>| #[trigger]
        gives(parse, line, event) && event is Some ==> !counts(event->0)
}

/// `more` is `lines` with idle lines inserted anywhere.
pub open spec fn padded<F: Fn(String) -> Option<RawEvent>>(
    parse: F,
    lines: Seq<LineView>,
    more: Seq<LineView>,
) -> bool
    decreases more.len(),
{
    if more.len() == 0 {
        lines.len() == 0
    } else {
        ||| idle(parse, more[0]) && padded(parse, lines, more.skip(1))
        ||| lines.len() > 0 && lines[0] == more[0] && padded(parse, lines.skip(1), more.skip(1))
    }
}

/// Malformed and blank lines are idle, whatever the parser does.
pub proof fn malformed_and_blank_lines_are_idle<F: Fn(String) -> Option<RawEvent>>(
    parse: F,
    blank: Seq<char>,
)
    requires
        text::trimmed(blank).len() == 0,
    ensures
        idle(parse, LineView::Malformed),
        idle(parse, LineView::Text(blank)),
{
}

/// The events that count, of those that are there.
spec fn counted_of(events: Seq<Option<EventView>>) -> Seq<EventView> {
    counted(present(events))
}

proof fn counted_of_first(first: Option<EventView>, rest: Seq<Option<EventView>>)
    ensures
        counted_of(seq![first] + rest) == (if first is Some && counts(first->0) {
            seq![first->0]
        } else {
            Seq::empty()
        }) + counted_of(rest),
    decreases rest.len(),
{
    reveal(Seq::filter);
    let all = seq![first] + rest;
    if rest.len() == 0 {
        assert(all.drop_last() =~= Seq::empty());
        assert(present(all.drop_last()) =~= Seq::empty());
        assert(present(all) == with_event(Seq::empty(), first));
        assert(counted_of(rest) =~= Seq::empty());
        if first is Some {
            assert(present(all).drop_last() =~= Seq::empty());
            assert(counted(present(all).drop_last()) =~= Seq::empty());
            assert(counted_of(all) =~= if counts(first->0) {
                seq![first->0]
            } else {
                Seq::empty()
            });
        }
    } else {
        let shorter = rest.drop_last();
        counted_of_first(first, shorter);
        assert(all.drop_last() =~= seq![first] + shorter);
        let had = present(seq![first] + shorter);
        match rest.last() {
            Some(e) => {
                assert(had.push(e).drop_last() =~= had);
                assert(present(shorter).push(e).drop_last() =~= present(shorter));
            },
            None => {},
        }
    }
    let head = if first is Some && counts(first->0) {
        seq![first->0]
    } else {
        Seq::empty()
    };
    assert(counted_of(all) =~= head + counted_of(rest));
}

/// Each reading of a padded log has the counted events of a reading of the
/// log itself.
proof fn unpadded_reading<F: Fn(String) -> Option<RawEvent>>(
    parse: F,
    lines: Seq<LineView>,
    more: Seq<LineView>,
    events: Seq<Option<EventView>>,
) -> (fewer: Seq<Option<EventView>>)
    requires
        padded(parse, lines, more),
        read_from(more, parse, events),
    ensures
        read_from(lines, parse, fewer),
        counted_of(fewer) == counted_of(events),
    decreases more.len(),
{
    if more.len() == 0 {
        events
    } else if idle(parse, more[0]) && padded(parse, lines, more.skip(1)) {
        let rest = events.skip(1);
        assert(readable_lines(more) == seq![more[0]] + readable_lines(more.skip(1)));
        assert forall|i: int| 0 <= i < rest.len() implies gives(
            parse,
            readable_lines(more.skip(1))[i],
            #[trigger] rest[i],
        ) by {
            assert(rest[i] == events[i + 1]);
        }
        assert(gives(parse, readable_lines(more)[0], events[0]));
        counted_of_first(events[0], rest);
        assert(events =~= seq![events[0]] + rest);
        assert(Seq::<EventView>::empty() + counted_of(rest) =~= counted_of(rest));
        unpadded_reading(parse, lines, more.skip(1), rest)
    } else if more[0] == LineView::Failed {
        events
    } else {
        let rest = events.skip(1);
        assert(readable_lines(more) == seq![more[0]] + readable_lines(more.skip(1)));
        assert forall|i: int| 0 <= i < rest.len() implies gives(
            parse,
            readable_lines(more.skip(1))[i],
            #[trigger] rest[i],
        ) by {
            assert(rest[i] == events[i + 1]);
        }
        assert(gives(parse, readable_lines(more)[0], events[0]));
        let fewer = unpadded_reading(parse, lines.skip(1), more.skip(1), rest);
        let all = seq![events[0]] + fewer;
        counted_of_first(events[0], rest);
        counted_of_first(events[0], fewer);
        assert(events =~= seq![events[0]] + rest);
        assert(readable_lines(lines) == seq![lines[0]] + readable_lines(lines.skip(1)));
        assert forall|i: int| 0 <= i < all.len() implies gives(
            parse,
            readable_lines(lines)[i],
            #[trigger] all[i],
        ) by {
            if i > 0 {
                assert(all[i] == fewer[i - 1]);
            }
        }
        all
    }
}

proof fn times_of_counted(events: Seq<EventView>)
    ensures
        first_time(counted(events)) == first_time(events),
        last_time(counted(events)) == last_time(events),
    decreases events.len(),
{
    reveal(Seq::filter);
    if events.len() > 0 {
        let before = events.drop_last();
        times_of_counted(before);
        if counts(events.last()) {
            assert(counted(events) == counted(before).push(events.last()));
            assert(counted(events).drop_last() =~= counted(before));
        }
    }
}

/// A report depends on the counted events alone.
pub proof fn only_counted_events_matter(a: Seq<EventView>, b: Seq<EventView>, report: RateReport)
    requires
        counted(a) == counted(b),
    ensures
        is_report(a, report) == is_report(b, report),
{
    times_of_counted(a);
    times_of_counted(b);
    assert forall|site: Seq<char>| totals_at(a, site) == totals_at(b, site) by {
        assert(changes_at(a, site) == changes_at(b, site));
    }
}

/// Idle lines change no report: whatever is reported of a log with idle lines
/// inserted anywhere is a report of the log without them.
pub proof fn idle_lines_change_nothing<F: Fn(String) -> Option<RawEvent>>(
    parse: F,
    lines: Seq<LineView>,
    more: Seq<LineView>,
    report: RateReport,
)
    requires
        padded(parse, lines, more),
        reports(more, parse, report),
    ensures
        reports(lines, parse, report),
{
    let events = choose|events: Seq<Option<EventView>>| #[trigger]
        read_from(more, parse, events) && is_report(present(events), report);
    let fewer = unpadded_reading(parse, lines, more, events);
    only_counted_events_matter(present(events), present(fewer), report);
}

/// The parser takes the same text for the same event each time.
pub open spec fn consistent<F: Fn(String) -> Option<RawEvent>>(parse: F) -> bool {
    forall|line: LineView, a: Option<EventView>, b: Option<EventView>|
        #[trigger] gives(parse, line, a) && #[trigger] gives(parse, line, b) ==> a == b
}

/// With a parser that takes the same text for the same event each time, a log
/// has one report, and inserting idle lines anywhere does not change it.
pub proof fn padding_keeps_the_report<F: Fn(String) -> Option<RawEvent>>(
    parse: F,
    lines: Seq<LineView>,
    more: Seq<LineView>,
    of_lines: RateReport,
    of_more: RateReport,
)
    requires
        consistent(parse),
        padded(parse, lines, more),
        reports(lines, parse, of_lines),
        reports(more, parse, of_more),
    ensures
        totals_views(of_more.rows@) == totals_views(of_lines.rows@),
        of_more.span_ns == of_lines.span_ns,
{
    idle_lines_change_nothing(parse, lines, more, of_more);
    let a = choose|events: Seq<Option<EventView>>| #[trigger]
        read_from(lines, parse, events) && is_report(present(events), of_lines);
    let b = choose|events: Seq<Option<EventView>>| #[trigger]
        read_from(lines, parse, events) && is_report(present(events), of_more);
    assert forall|i: int| 0 <= i < a.len() implies a[i] == b[i] by {
        let line = readable_lines(lines)[i];
        assert(gives(parse, line, a[i]));
        assert(gives(parse, line, b[i]));
    }
    assert(a =~= b);
    totals_are_unique(present(a), totals_views(of_lines.rows@), totals_views(of_more.rows@));
}

/// Nothing after a failed read matters: the log ends there.
pub proof fn log_ends_where_reading_failed<F: Fn(String) -> Option<RawEvent>>(
    parse: F,
    lines: Seq<LineView>,
    tail: Seq<LineView>,
    report: RateReport,
)
    ensures
        reports(lines.push(LineView::Failed) + tail, parse, report) <==> reports(
            lines,
            parse,
            report,
        ),
{
    readable_lines_cut(lines, tail);
    let whole = lines.push(LineView::Failed) + tail;
    if reports(whole, parse, report) {
        let events = choose|events: Seq<Option<EventView>>| #[trigger]
            read_from(whole, parse, events) && is_report(present(events), report);
        assert(read_from(lines, parse, events));
    }
    if reports(lines, parse, report) {
        let events = choose|events: Seq<Option<EventView>>| #[trigger]
            read_from(lines, parse, events) && is_report(present(events), report);
        assert(read_from(whole, parse, events));
    }
}

proof fn readable_lines_cut(lines: Seq<LineView>, tail: Seq<LineView>)
    ensures
        readable_lines(lines.push(LineView::Failed) + tail) == readable_lines(lines),
    decreases lines.len(),
{
    let whole = lines.push(LineView::Failed) + tail;
    if lines.len() > 0 {
        readable_lines_cut(lines.skip(1), tail);
        assert(whole.skip(1) =~= lines.skip(1).push(LineView::Failed) + tail);
    }
}

/// One row of a rendered report.
#[derive(Debug)]
pub struct RateRow {
    /// The site, as logged.
    pub site: String,
    /// Number of allocations.
    pub alloc_count: u64,
    /// Number of deallocations.
    pub dealloc_count: u64,
    /// Most bytes live at any time.
    pub peak_live_bytes: u64,
    /// Allocations per second, rendered with six digits after the point.
    pub alloc_rate_per_sec: String,
}

#[verifier::ext_equal]
pub struct RateRowView {
    pub site: Seq<char>,
    pub alloc_count: u64,
    pub dealloc_count: u64,
    pub peak_live_bytes: u64,
    pub alloc_rate_per_sec: Seq<char>,
}

impl View for RateRow {
    type V = RateRowView;

    open spec fn view(&self) -> RateRowView {
        RateRowView {
            site: self.site@,
            alloc_count: self.alloc_count,
            dealloc_count: self.dealloc_count,
            peak_live_bytes: self.peak_live_bytes,
            alloc_rate_per_sec: self.alloc_rate_per_sec@,
        }
    }
}

/// A row without a site, all of whose numbers are zero.
impl Default for RateRow {
    fn default() -> (row: Self)
        ensures
            row@ == (RateRowView {
                site: Seq::empty(),
                alloc_count: 0,
                dealloc_count: 0,
                peak_live_bytes: 0,
                alloc_rate_per_sec: "0.000000"@,
            }),
    {
        let row = RateRow {
            site: String::new(),
            alloc_count: 0,
            dealloc_count: 0,
            peak_live_bytes: 0,
            alloc_rate_per_sec: "0.000000".to_owned(),
        };
        assert(row.site@ =~= Seq::empty());
        row
    }
}

impl Clone for RateRow {
    fn clone(&self) -> (copy: Self)
        ensures
            copy@ == self@,
    {
        RateRow {
            site: self.site.clone(),
            alloc_count: self.alloc_count,
            dealloc_count: self.dealloc_count,
            peak_live_bytes: self.peak_live_bytes,
            alloc_rate_per_sec: self.alloc_rate_per_sec.clone(),
        }
    }
}

pub open spec fn row_views(rows: Seq<RateRow>) -> Seq<RateRowView> {
    Seq::new(rows.len(), |i: int| rows[i]@)
}

/// A row as comma-separated values.
pub open spec fn csv_row(row: RateRowView) -> Seq<char> {
    row.site + seq![','] + text::decimal(row.alloc_count as nat) + seq![','] + text::decimal(
        row.dealloc_count as nat,
    ) + seq![','] + text::decimal(row.peak_live_bytes as nat) + seq![','] + row.alloc_rate_per_sec
        + seq!['\n']
}

/// A header line and one line per row.
pub open spec fn csv_text(rows: Seq<RateRowView>) -> Seq<char>
    decreases rows.len(),
{
    if rows.len() == 0 {
        "site,alloc_count,dealloc_count,peak_live_bytes,alloc_rate_per_sec\n"@
    } else {
        csv_text(rows.drop_last()) + csv_row(rows.last())
    }
}

/// Append the rows as comma-separated values, with a header line.
pub fn write_csv(rows: &Vec<RateRow>, out: &mut Vec<u8>)
    ensures
        final(out)@ == old(out)@ + vstd::utf8::encode_utf8(csv_text(row_views(rows@))),
{
    let ghost views = row_views(rows@);
    let mut rendered: Vec<char> = Vec::new();
    push_text(
        &mut rendered,
        "site,alloc_count,dealloc_count,peak_live_bytes,alloc_rate_per_sec\n",
    );
    assert(rendered@ =~= csv_text(views.take(0)));
    for i in 0..rows.len()
        invariant
            views == row_views(rows@),
            rendered@ == csv_text(views.take(i as int)),
    {
        let ghost had = rendered@;
        let row = &rows[i];
        push_text(&mut rendered, row.site.as_str());
        rendered.push(',');
        push_decimal(&mut rendered, row.alloc_count as u128);
        rendered.push(',');
        push_decimal(&mut rendered, row.dealloc_count as u128);
        rendered.push(',');
        push_decimal(&mut rendered, row.peak_live_bytes as u128);
        rendered.push(',');
        push_text(&mut rendered, row.alloc_rate_per_sec.as_str());
        rendered.push('\n');
        assert(rendered@ =~= had + csv_row(row@));
        assert(views.take(i + 1).drop_last() =~= views.take(i as int));
        assert(views.take(i + 1).last() == row@);
    }
    assert(views.take(views.len() as int) =~= views);
    push_utf8(out, &rendered);
}

/// Spaces.
pub open spec fn spaces(n: nat) -> Seq<char> {
    Seq::new(n, |i: int| ' ')
}

/// The spaces that a text lacks to be `width` characters wide.
pub open spec fn padding(s: Seq<char>, width: nat) -> Seq<char> {
    if s.len() < width {
        spaces((width - s.len()) as nat)
    } else {
        Seq::empty()
    }
}

/// A text at the left of a column.
pub open spec fn at_left(s: Seq<char>, width: nat) -> Seq<char> {
    s + padding(s, width)
}

/// A text at the right of a column.
pub open spec fn at_right(s: Seq<char>, width: nat) -> Seq<char> {
    padding(s, width) + s
}

/// A row of five columns, one space apart.
pub open spec fn pretty_row(
    site: Seq<char>,
    allocs: Seq<char>,
    deallocs: Seq<char>,
    peak: Seq<char>,
    rate: Seq<char>,
) -> Seq<char> {
    at_left(site, 20) + seq![' '] + at_right(allocs, 11) + seq![' '] + at_right(deallocs, 13) + seq![
        ' ',
    ] + at_right(peak, 16) + seq![' '] + at_right(rate, 20) + seq!['\n']
}

/// A header line and one line per row, in columns of fixed width.
pub open spec fn pretty_text(rows: Seq<RateRowView>) -> Seq<char>
    decreases rows.len(),
{
    if rows.len() == 0 {
        pretty_row(
            "site"@,
            "alloc_count"@,
            "dealloc_count"@,
            "peak_live_bytes"@,
            "alloc_rate_per_sec"@,
        )
    } else {
        let row = rows.last();
        pretty_text(rows.drop_last()) + pretty_row(
            row.site,
            text::decimal(row.alloc_count as nat),
            text::decimal(row.dealloc_count as nat),
            text::decimal(row.peak_live_bytes as nat),
            row.alloc_rate_per_sec,
        )
    }
}

fn push_padding(out: &mut Vec<char>, len: usize, width: usize)
    ensures
        final(out)@ == old(out)@ + (if len < width {
            spaces((width - len) as nat)
        } else {
            Seq::empty()
        }),
{
    let ghost start = out@;
    let mut n: usize = len;
    assert(start + spaces(0) =~= start);
    while n < width
        invariant
            len <= n,
            n <= width || n == len,
            n > width ==> out@ == start,
            n <= width ==> out@ == start + spaces((n - len) as nat),
        decreases width - n,
    {
        out.push(' ');
        n = n + 1;
        assert(out@ =~= start + spaces((n - len) as nat));
    }
    assert(out@ =~= start + (if len < width {
        spaces((width - len) as nat)
    } else {
        Seq::empty()
    }));
}

#[verifier::rlimit(40)]
fn push_pretty_row(
    out: &mut Vec<char>,
    site: &Vec<char>,
    allocs: &Vec<char>,
    deallocs: &Vec<char>,
    peak: &Vec<char>,
    rate: &Vec<char>,
)
    ensures
        final(out)@ == old(out)@ + pretty_row(site@, allocs@, deallocs@, peak@, rate@),
{
    let ghost start = out@;
    push_all(out, site);
    push_padding(out, site.len(), 20);
    out.push(' ');
    let ghost one = at_left(site@, 20) + seq![' '];
    assert(out@ =~= start + one);
    push_column(out, allocs, 11);
    out.push(' ');
    let ghost two = one + at_right(allocs@, 11) + seq![' '];
    assert(out@ =~= start + two);
    push_column(out, deallocs, 13);
    out.push(' ');
    let ghost three = two + at_right(deallocs@, 13) + seq![' '];
    assert(out@ =~= start + three);
    push_column(out, peak, 16);
    out.push(' ');
    let ghost four = three + at_right(peak@, 16) + seq![' '];
    assert(out@ =~= start + four);
    push_column(out, rate, 20);
    out.push('\n');
    assert(out@ =~= start + (four + at_right(rate@, 20) + seq!['\n']));
}

/// Append a text at the right of a column.
fn push_column(out: &mut Vec<char>, s: &Vec<char>, width: usize)
    ensures
        final(out)@ == old(out)@ + at_right(s@, width as nat),
{
    push_padding(out, s.len(), width);
    push_all(out, s);
    assert(out@ =~= old(out)@ + at_right(s@, width as nat));
}

fn push_all(out: &mut Vec<char>, s: &Vec<char>)
    ensures
        final(out)@ == old(out)@ + s@,
{
    let mut copy = s.clone();
    assert(copy@ =~= s@);
    out.append(&mut copy);
}

fn decimal_chars(n: u64) -> (s: Vec<char>)
    ensures
        s@ == text::decimal(n as nat),
{
    let mut s: Vec<char> = Vec::new();
    push_decimal(&mut s, n as u128);
    assert(s@ =~= text::decimal(n as nat));
    s
}

/// Append the rows as a table with columns of fixed width, with a header
/// line.
pub fn write_pretty(rows: &Vec<RateRow>, out: &mut Vec<u8>)
    ensures
        final(out)@ == old(out)@ + vstd::utf8::encode_utf8(pretty_text(row_views(rows@))),
{
    let ghost views = row_views(rows@);
    let mut rendered: Vec<char> = Vec::new();
    push_pretty_row(
        &mut rendered,
        &chars_of("site"),
        &chars_of("alloc_count"),
        &chars_of("dealloc_count"),
        &chars_of("peak_live_bytes"),
        &chars_of("alloc_rate_per_sec"),
    );
    assert(rendered@ =~= pretty_text(views.take(0)));
    for i in 0..rows.len()
        invariant
            views == row_views(rows@),
            rendered@ == pretty_text(views.take(i as int)),
    {
        let row = &rows[i];
        push_pretty_row(
            &mut rendered,
            &chars_of(row.site.as_str()),
            &decimal_chars(row.alloc_count),
            &decimal_chars(row.dealloc_count),
            &decimal_chars(row.peak_live_bytes),
            &chars_of(row.alloc_rate_per_sec.as_str()),
        );
        assert(views.take(i + 1).drop_last() =~= views.take(i as int));
        assert(views.take(i + 1).last() == row@);
    }
    assert(views.take(views.len() as int) =~= views);
    push_utf8(out, &rendered);
}

/// The peak is the largest of the running totals: none exceeds it, and one
/// reaches it.
pub proof fn peak_is_largest_running_total(changes: Seq<Change>)
    ensures
        forall|n: int| 0 <= n <= changes.len() ==> live(#[trigger] changes.take(n)) <= peak(changes),
        exists|n: int| 0 <= n <= changes.len() && live(#[trigger] changes.take(n)) == peak(changes),
    decreases changes.len(),
{
    assert(changes.take(changes.len() as int) =~= changes);
    if changes.len() > 0 {
        let before = changes.drop_last();
        peak_is_largest_running_total(before);
        assert forall|n: int| 0 <= n <= changes.len() implies live(#[trigger] changes.take(n)) <= peak(
            changes,
        ) by {
            if n < changes.len() {
                assert(before.take(n) =~= changes.take(n));
            }
        }
        if live(changes) > peak(before) {
            assert(live(changes.take(changes.len() as int)) == peak(changes));
        } else {
            let n = choose|n: int|
                0 <= n <= before.len() && live(#[trigger] before.take(n)) == peak(before);
            assert(before.take(n) =~= changes.take(n));
            assert(live(changes.take(n)) == peak(changes));
        }
    } else {
        assert(live(changes.take(0)) == peak(changes));
    }
}

/// The totals of a log are unique.
pub proof fn totals_are_unique(events: Seq<EventView>, a: Seq<TotalsView>, b: Seq<TotalsView>)
    requires
        is_totals_table(events, a),
        is_totals_table(events, b),
    ensures
        a == b,
{
    let ra = ranks_of(a);
    let rb = ranks_of(b);
    ranks_agree(events, a, b);
    ranks_agree(events, b, a);
    assert forall|i: int, j: int| 0 <= i < j < ra.len() implies SiteRank::before(
        #[trigger] ra[i],
        #[trigger] ra[j],
    ) by {
        assert(totals_before(a[i], a[j]));
    }
    assert forall|i: int, j: int| 0 <= i < j < rb.len() implies SiteRank::before(
        #[trigger] rb[i],
        #[trigger] rb[j],
    ) by {
        assert(totals_before(b[i], b[j]));
    }
    order::ascending_is_unique::<SiteRank>(ra, rb);
    assert(a.len() == ra.len() && b.len() == rb.len());
    assert forall|i: int| 0 <= i < a.len() implies a[i] == b[i] by {
        assert(ra[i] == rb[i]);
        assert(a[i] == totals_at(events, a[i].site));
        assert(b[i] == totals_at(events, b[i].site));
    }
    assert(a =~= b);
}

spec fn ranks_of(rows: Seq<TotalsView>) -> Seq<(u64, Seq<char>)> {
    Seq::new(rows.len(), |i: int| (rows[i].alloc_count, rows[i].site))
}

proof fn ranks_agree(events: Seq<EventView>, a: Seq<TotalsView>, b: Seq<TotalsView>)
    requires
        is_totals_table(events, a),
        is_totals_table(events, b),
    ensures
        forall|i: int| 0 <= i < ranks_of(a).len() ==> ranks_of(b).contains(#[trigger] ranks_of(a)[i]),
{
    let ra = ranks_of(a);
    let rb = ranks_of(b);
    let items = counted(events);
    assert forall|i: int| 0 <= i < ra.len() implies rb.contains(#[trigger] ra[i]) by {
        let site = a[i].site;
        assert(table::has_member(items, by_site(), site));
        let e = choose|e: int| 0 <= e < items.len() && by_site()(#[trigger] items[e]) == site;
        assert(has_totals(b, by_site()(items[e])));
        let j = choose|j: int| 0 <= j < b.len() && (#[trigger] b[j]).site == site;
        assert(b[j] == totals_at(events, site));
        assert(a[i] == totals_at(events, site));
        assert(rb[j] == ra[i]);
    }
}

/// No two rows stand for the same site.
pub proof fn one_row_per_site(events: Seq<EventView>, rows: Seq<TotalsView>)
    requires
        is_totals_table(events, rows),
    ensures
        forall|i: int, j: int|
            0 <= i < j < rows.len() ==> (#[trigger] rows[i]).site != (#[trigger] rows[j]).site,
{
    assert forall|i: int, j: int| 0 <= i < j < rows.len() implies (#[trigger] rows[i]).site != (
    #[trigger] rows[j]).site by {
        assert(totals_before(rows[i], rows[j]));
        if rows[i].site == rows[j].site {
            SiteRank::before_irreflexive((rows[i].alloc_count, rows[i].site));
        }
    }
}

/// The event counts and carries the time `t`.
pub open spec fn has_time(event: EventView, t: u64) -> bool {
    counts(event) && event.ts_ns == Some(t)
}

/// Times are spanned from the earliest to the latest: every time of a counted
/// event lies between them, and each is the time of some counted event.
pub proof fn times_are_extremes(events: Seq<EventView>)
    ensures
        first_time(events) is Some <==> last_time(events) is Some,
        forall|i: int, t: u64|
            0 <= i < events.len() && #[trigger] has_time(events[i], t) ==> first_time(events) is Some
                && first_time(events)->0 <= t <= last_time(events)->0,
        first_time(events) is Some ==> {
            &&& first_time(events)->0 <= last_time(events)->0
            &&& exists|i: int|
                0 <= i < events.len() && #[trigger] has_time(events[i], first_time(events)->0)
            &&& exists|i: int|
                0 <= i < events.len() && #[trigger] has_time(events[i], last_time(events)->0)
        },
    decreases events.len(),
{
    if events.len() > 0 {
        let before = events.drop_last();
        times_are_extremes(before);
        let last = events[events.len() - 1];
        assert forall|i: int, t: u64|
            0 <= i < events.len() && #[trigger] has_time(events[i], t) implies first_time(
            events,
        ) is Some && first_time(events)->0 <= t <= last_time(events)->0 by {
            if i < before.len() {
                assert(has_time(before[i], t));
            }
        }
        if first_time(before) is Some {
            let f = choose|i: int|
                0 <= i < before.len() && #[trigger] has_time(before[i], first_time(before)->0);
            let l = choose|i: int|
                0 <= i < before.len() && #[trigger] has_time(before[i], last_time(before)->0);
            assert(has_time(events[f], first_time(before)->0));
            assert(has_time(events[l], last_time(before)->0));
        }
        if counts(last) && last.ts_ns is Some {
            assert(has_time(last, last.ts_ns->0));
        }
    }
}

/// 1 for an allocation, 0 for anything else.
pub open spec fn alloc_unit() -> spec_fn(EventView) -> nat {
    |e: EventView|
        if change_of(e) is Alloc {
            1nat
        } else {
            0nat
        }
}

proof fn allocs_weigh(events: Seq<EventView>)
    ensures
        allocs(events.map_values(to_change())) == table::weigh(events, alloc_unit()),
    decreases events.len(),
{
    reveal(Seq::filter);
    let changes = events.map_values(to_change());
    if events.len() > 0 {
        allocs_weigh(events.drop_last());
        assert(changes.drop_last() =~= events.drop_last().map_values(to_change()));
    }
}

proof fn weigh_at_most_len(events: Seq<EventView>)
    ensures
        table::weigh(events, alloc_unit()) <= events.len(),
    decreases events.len(),
{
    if events.len() > 0 {
        weigh_at_most_len(events.drop_last());
    }
}

/// Every allocation is counted once: the rows' allocations add up to those
/// of the whole log.
pub proof fn allocations_add_up(events: Seq<EventView>, rows: Seq<TotalsView>)
    requires
        is_totals_table(events, rows),
        counted(events).len() <= u64::MAX,
    ensures
        table::weigh(rows, |r: TotalsView| r.alloc_count as nat) == table::weigh(
            counted(events),
            alloc_unit(),
        ),
{
    let items = counted(events);
    let keys = Seq::new(rows.len(), |i: int| rows[i].site);
    one_row_per_site(events, rows);
    assert forall|i: int, j: int| 0 <= i < j < keys.len() implies #[trigger] keys[i] != #[trigger] keys[j] by {
        assert(rows[i].site != rows[j].site);
    }
    assert forall|e: int| 0 <= e < items.len() implies keys.contains(by_site()(#[trigger] items[e])) by {
        assert(has_totals(rows, by_site()(items[e])));
        let i = choose|i: int|
            0 <= i < rows.len() && (#[trigger] rows[i]).site == by_site()(items[e]);
        assert(keys[i] == by_site()(items[e]));
    }
    table::groups_partition(items, by_site(), keys, alloc_unit());
    rows_weigh_their_sites(events, rows, keys);
}

proof fn rows_weigh_their_sites(events: Seq<EventView>, rows: Seq<TotalsView>, keys: Seq<Seq<char>>)
    requires
        counted(events).len() <= u64::MAX,
        keys.len() == rows.len(),
        forall|i: int| 0 <= i < rows.len() ==> #[trigger] rows[i] == totals_at(events, keys[i]),
    ensures
        table::weigh(rows, |r: TotalsView| r.alloc_count as nat) == table::weigh_groups(
            counted(events),
            by_site(),
            keys,
            alloc_unit(),
        ),
    decreases rows.len(),
{
    if rows.len() > 0 {
        let fewer = rows.drop_last();
        assert forall|i: int| 0 <= i < fewer.len() implies #[trigger] fewer[i] == totals_at(
            events,
            keys.drop_last()[i],
        ) by {
            assert(rows[i] == totals_at(events, keys[i]));
        }
        rows_weigh_their_sites(events, fewer, keys.drop_last());
        let site = keys.last();
        let members = table::members(counted(events), by_site(), site);
        assert(rows[rows.len() - 1] == totals_at(events, keys[rows.len() - 1]));
        allocs_weigh(members);
        weigh_at_most_len(members);
        table::members_no_longer(counted(events), by_site(), site);
    }
}

/// Bytes that changes add, taken from their allocations alone.
pub open spec fn bytes_in(changes: Seq<Change>) -> nat {
    table::weigh(
        changes,
        |c: Change|
            match c {
                Change::Alloc(n) => n as nat,
                _ => 0,
            },
    )
}

/// Bytes that changes take away, taken from their deallocations alone.
pub open spec fn bytes_out(changes: Seq<Change>) -> nat {
    table::weigh(
        changes,
        |c: Change|
            match c {
                Change::Dealloc(n) => n as nat,
                _ => 0,
            },
    )
}

/// Where no running total leaves the range of the counter, the bytes live
/// after the changes are those that allocations added less those that
/// deallocations took away.
pub proof fn live_bytes_balance(changes: Seq<Change>)
    requires
        forall|n: int|
            0 <= n <= changes.len() ==> bytes_out(#[trigger] changes.take(n)) <= bytes_in(
                changes.take(n),
            ) <= bytes_out(changes.take(n)) + u64::MAX,
    ensures
        live(changes) == bytes_in(changes) - bytes_out(changes),
    decreases changes.len(),
{
    if changes.len() > 0 {
        let before = changes.drop_last();
        assert forall|n: int| 0 <= n <= before.len() implies bytes_out(#[trigger] before.take(n))
            <= bytes_in(before.take(n)) <= bytes_out(before.take(n)) + u64::MAX by {
            assert(before.take(n) =~= changes.take(n));
        }
        live_bytes_balance(before);
        assert(changes.take(changes.len() as int) =~= changes);
        assert(bytes_in(changes.take(changes.len() as int)) == bytes_in(changes));
    }
}

/// What is freed in full is no longer live: changes that allocate `n` bytes
/// and free them leave as many bytes live as there were, and `n` more in
/// between. Bytes that would run out of the counter's range stop at its ends.
pub proof fn freeing_undoes_allocating(changes: Seq<Change>, n: u64)
    ensures
        live(Seq::<Change>::empty()) == 0,
        live(changes) + n <= u64::MAX ==> {
            &&& live(changes.push(Change::Alloc(n))) == live(changes) + n
            &&& live(changes.push(Change::Alloc(n)).push(Change::Dealloc(n))) == live(changes)
        },
        live(changes) + n > u64::MAX ==> live(changes.push(Change::Alloc(n))) == u64::MAX,
        live(changes) >= n ==> live(changes.push(Change::Dealloc(n))) == live(changes) - n,
        live(changes) < n ==> live(changes.push(Change::Dealloc(n))) == 0,
        live(changes.push(Change::Neutral)) == live(changes),
{
    let a = changes.push(Change::Alloc(n));
    assert(a.drop_last() =~= changes);
    let both = a.push(Change::Dealloc(n));
    assert(both.drop_last() =~= a);
    assert(live(changes) + n <= u64::MAX ==> live(a) == live(changes) + n);
    assert(live(both) == if live(a) >= n {
        (live(a) - n) as u64
    } else {
        0
    });
    assert(changes.push(Change::Dealloc(n)).drop_last() =~= changes);
    assert(changes.push(Change::Neutral).drop_last() =~= changes);
}

/// Allocations of a site, as logged.
pub open spec fn allocs_logged(events: Seq<EventView>, site: Seq<char>) -> Seq<EventView> {
    events.filter(|e: EventView| e.site == Some(site) && e.kind == Some("alloc"@))
}

/// Deallocations of a site, as logged.
pub open spec fn deallocs_logged(events: Seq<EventView>, site: Seq<char>) -> Seq<EventView> {
    events.filter(|e: EventView| e.site == Some(site) && e.kind == Some("dealloc"@))
}

/// The sizes of events together. A missing size counts as 0.
pub open spec fn sizes_logged(events: Seq<EventView>) -> nat {
    table::weigh(
        events,
        |e: EventView|
            match e.size {
                Some(n) => n as nat,
                None => 0,
            },
    )
}

/// What a log leaves allocated at a site: the sizes of its allocations there
/// less those of its deallocations.
pub open spec fn balance_logged(events: Seq<EventView>, site: Seq<char>) -> int {
    sizes_logged(allocs_logged(events, site)) - sizes_logged(deallocs_logged(events, site))
}

proof fn changes_grow(events: Seq<EventView>, site: Seq<char>)
    requires
        events.len() > 0,
        site.len() > 0,
    ensures
        ({
            let last = events.last();
            let before = changes_at(events.drop_last(), site);
            &&& last.kind is Some && last.site == Some(site) ==> changes_at(events, site)
                == before.push(change_of(last))
            &&& !(last.kind is Some && last.site == Some(site)) ==> changes_at(events, site)
                == before
        }),
{
    reveal(Seq::filter);
    let last = events.last();
    let earlier = counted(events.drop_last());
    if counts(last) {
        assert(counted(events) == earlier.push(last));
        assert(counted(events).drop_last() =~= earlier);
        let had = table::members(earlier, by_site(), site);
        if by_site()(last) == site {
            assert(table::members(counted(events), by_site(), site) == had.push(last));
            assert(had.push(last).map_values(to_change()) =~= had.map_values(to_change()).push(
                change_of(last),
            ));
        }
    }
}

proof fn kinds_differ()
    ensures
        "alloc"@ != "dealloc"@,
{
    reveal_strlit("alloc");
    reveal_strlit("dealloc");
    assert("alloc"@.len() != "dealloc"@.len());
}

proof fn changes_count_events(events: Seq<EventView>, site: Seq<char>)
    requires
        site.len() > 0,
    ensures
        allocs(changes_at(events, site)) == allocs_logged(events, site).len(),
        deallocs(changes_at(events, site)) == deallocs_logged(events, site).len(),
        bytes_in(changes_at(events, site)) == sizes_logged(allocs_logged(events, site)),
        bytes_out(changes_at(events, site)) == sizes_logged(deallocs_logged(events, site)),
    decreases events.len(),
{
    reveal(Seq::filter);
    kinds_differ();
    let changes = changes_at(events, site);
    if events.len() > 0 {
        let earlier = events.drop_last();
        let last = events.last();
        changes_count_events(earlier, site);
        changes_grow(events, site);
        let before = changes_at(earlier, site);
        let a = allocs_logged(earlier, site);
        let d = deallocs_logged(earlier, site);
        assert(a.push(last).drop_last() =~= a);
        assert(d.push(last).drop_last() =~= d);
        if last.kind is Some && last.site == Some(site) {
            assert(before.push(change_of(last)).drop_last() =~= before);
        }
    } else {
        assert(counted(events) =~= Seq::empty());
        assert(changes =~= Seq::empty());
    }
}

/// No running total of a site leaves the range of the counter.
pub open spec fn in_range(events: Seq<EventView>, site: Seq<char>) -> bool {
    forall|n: int|
        0 <= n <= events.len() ==> 0 <= balance_logged(#[trigger] events.take(n), site) <= u64::MAX
}

proof fn live_is_logged(events: Seq<EventView>, site: Seq<char>)
    requires
        site.len() > 0,
        in_range(events, site),
    ensures
        live(changes_at(events, site)) == balance_logged(events, site),
    decreases events.len(),
{
    reveal(Seq::filter);
    kinds_differ();
    if events.len() > 0 {
        let earlier = events.drop_last();
        let last = events.last();
        assert forall|n: int| 0 <= n <= earlier.len() implies 0 <= balance_logged(
            #[trigger] earlier.take(n),
            site,
        ) <= u64::MAX by {
            assert(earlier.take(n) =~= events.take(n));
        }
        live_is_logged(earlier, site);
        changes_grow(events, site);
        changes_count_events(events, site);
        changes_count_events(earlier, site);
        assert(events.take(events.len() as int) =~= events);
        assert(0 <= balance_logged(events.take(events.len() as int), site) <= u64::MAX);
        let before = changes_at(earlier, site);
        if last.kind is Some && last.site == Some(site) {
            assert(before.push(change_of(last)).drop_last() =~= before);
        }
    } else {
        assert(counted(events) =~= Seq::empty());
        assert(changes_at(events, site) =~= Seq::empty());
    }
}

proof fn peak_is_logged(events: Seq<EventView>, site: Seq<char>)
    requires
        site.len() > 0,
    ensures
        forall|n: int|
            0 <= n <= events.len() ==> live(changes_at(#[trigger] events.take(n), site)) <= peak(
                changes_at(events, site),
            ),
        exists|n: int|
            0 <= n <= events.len() && live(changes_at(#[trigger] events.take(n), site)) == peak(
                changes_at(events, site),
            ),
    decreases events.len(),
{
    reveal(Seq::filter);
    let whole = events.take(events.len() as int);
    assert(whole =~= events);
    if events.len() > 0 {
        let earlier = events.drop_last();
        let last = events.last();
        peak_is_logged(earlier, site);
        changes_grow(events, site);
        let before = changes_at(earlier, site);
        if last.kind is Some && last.site == Some(site) {
            assert(before.push(change_of(last)).drop_last() =~= before);
        } else {
            assert(earlier.take(earlier.len() as int) =~= earlier);
        }
        assert forall|n: int| 0 <= n <= events.len() implies live(
            changes_at(#[trigger] events.take(n), site),
        ) <= peak(changes_at(events, site)) by {
            if n < events.len() {
                assert(earlier.take(n) =~= events.take(n));
            } else {
                peak_covers_live(changes_at(events, site));
            }
        }
        let m = choose|n: int|
            0 <= n <= earlier.len() && live(changes_at(#[trigger] earlier.take(n), site)) == peak(before);
        assert(earlier.take(m) =~= events.take(m));
        assert(live(changes_at(events.take(m), site)) == peak(changes_at(events, site)) || live(
            changes_at(whole, site),
        ) == peak(changes_at(events, site)));
    } else {
        assert(counted(events) =~= Seq::empty());
        assert(changes_at(events, site) =~= Seq::empty());
        assert(live(changes_at(whole, site)) == peak(changes_at(events, site)));
    }
}

/// A row tells of the events of its site, as logged: how many allocations and
/// deallocations there were, as far as the counter reaches, and, where no
/// running total leaves the range of the counter, the most that allocations
/// had added over deallocations at any time.
pub proof fn rows_tell_of_their_events(events: Seq<EventView>, report: RateReport, i: int)
    requires
        is_report(events, report),
        0 <= i < report.rows@.len(),
    ensures
        ({
            let row = report.rows@[i];
            let site = row.site@;
            let a = allocs_logged(events, site).len();
            let d = deallocs_logged(events, site).len();
            &&& a <= u64::MAX ==> row.alloc_count == a
            &&& a > u64::MAX ==> row.alloc_count == u64::MAX
            &&& d <= u64::MAX ==> row.dealloc_count == d
            &&& d > u64::MAX ==> row.dealloc_count == u64::MAX
            &&& in_range(events, site) ==> {
                &&& forall|n: int|
                    0 <= n <= events.len() ==> balance_logged(#[trigger] events.take(n), site)
                        <= row.peak_live_bytes
                &&& exists|n: int|
                    0 <= n <= events.len() && balance_logged(#[trigger] events.take(n), site)
                        == row.peak_live_bytes
            }
        }),
{
    let rows = totals_views(report.rows@);
    assert(rows[i] == report.rows@[i]@);
    let site = rows[i].site;
    let items = counted(events);
    assert(table::has_member(items, by_site(), site));
    let e = choose|e: int| 0 <= e < items.len() && by_site()(#[trigger] items[e]) == site;
    counted_count(events, e);
    changes_count_events(events, site);
    peak_is_logged(events, site);
    if in_range(events, site) {
        assert forall|n: int| 0 <= n <= events.len() implies live(
            changes_at(#[trigger] events.take(n), site),
        ) == balance_logged(events.take(n), site) by {
            let part = events.take(n);
            assert forall|m: int| 0 <= m <= part.len() implies 0 <= balance_logged(
                #[trigger] part.take(m),
                site,
            ) <= u64::MAX by {
                assert(part.take(m) =~= events.take(m));
            }
            live_is_logged(part, site);
        }
        let n = choose|n: int|
            0 <= n <= events.len() && live(changes_at(#[trigger] events.take(n), site)) == peak(
                changes_at(events, site),
            );
        assert(balance_logged(events.take(n), site) == report.rows@[i].peak_live_bytes);
    }
}

proof fn counted_count(events: Seq<EventView>, e: int)
    requires
        0 <= e < counted(events).len(),
    ensures
        counts(counted(events)[e]),
        events.contains(counted(events)[e]),
{
    let pick = |e: EventView| counts(e);
    events.lemma_filter_pred(pick, e);
    assert(counted(events).contains(counted(events)[e]));
    events.lemma_filter_contains_rev(pick, counted(events)[e]);
}

/// An event gives its site a row exactly where it names a kind and a site that
/// is not empty.
pub proof fn sites_named_with_a_kind_have_rows(events: Seq<EventView>, report: RateReport, site: Seq<char>)
    requires
        is_report(events, report),
    ensures
        (exists|i: int| 0 <= i < report.rows@.len() && (#[trigger] report.rows@[i]).site@ == site)
            <==> (exists|e: int|
            {
                &&& 0 <= e < events.len()
                &&& (#[trigger] events[e]).kind is Some
                &&& events[e].site == Some(site)
                &&& site.len() > 0
            }),
{
    let items = counted(events);
    let rows = totals_views(report.rows@);
    if exists|i: int| 0 <= i < report.rows@.len() && (#[trigger] report.rows@[i]).site@ == site {
        let i = choose|i: int| 0 <= i < report.rows@.len() && (#[trigger] report.rows@[i]).site@ == site;
        assert(rows[i] == report.rows@[i]@);
        assert(table::has_member(items, by_site(), site));
        let k = choose|k: int| 0 <= k < items.len() && by_site()(#[trigger] items[k]) == site;
        counted_count(events, k);
        let e = choose|e: int| 0 <= e < events.len() && events[e] == items[k];
        assert(events[e].kind is Some && events[e].site == Some(site));
    }
    if exists|e: int|
        {
            &&& 0 <= e < events.len()
            &&& (#[trigger] events[e]).kind is Some
            &&& events[e].site == Some(site)
            &&& site.len() > 0
        } {
        let e = choose|e: int|
            {
                &&& 0 <= e < events.len()
                &&& (#[trigger] events[e]).kind is Some
                &&& events[e].site == Some(site)
                &&& site.len() > 0
            };
        broadcast use vstd::seq_lib::group_filter_ensures;

        assert(counts(events[e]));
        assert(items.contains(events[e]));
        let k = choose|k: int| 0 <= k < items.len() && items[k] == events[e];
        assert(has_totals(rows, by_site()(items[k])));
        let i = choose|i: int| 0 <= i < rows.len() && (#[trigger] rows[i]).site == site;
        assert(rows[i] == report.rows@[i]@);
    }
}

/// Rows stand in order: more allocations first, then sites as texts, compared
/// character by character.
pub proof fn rows_stand_in_order(events: Seq<EventView>, report: RateReport, i: int, j: int)
    requires
        is_report(events, report),
        0 <= i < j < report.rows@.len(),
    ensures
        report.rows@[i].alloc_count >= report.rows@[j].alloc_count,
        report.rows@[i].alloc_count == report.rows@[j].alloc_count ==> {
            let a = report.rows@[i].site@;
            let b = report.rows@[j].site@;
            exists|n: int|
                {
                    &&& 0 <= n <= a.len()
                    &&& n < b.len()
                    &&& #[trigger] a.take(n) == b.take(n)
                    &&& n == a.len() || (a[n] as int) < (b[n] as int)
                }
        },
{
    let rows = totals_views(report.rows@);
    assert(rows[i] == report.rows@[i]@ && rows[j] == report.rows@[j]@);
    assert(totals_before(rows[i], rows[j]));
    if rows[i].alloc_count == rows[j].alloc_count {
        let a = rows[i].site;
        let b = rows[j].site;
        let ca = order::codes(a);
        let cb = order::codes(b);
        let n = choose|n: int|
            #[trigger] order::agree(ca, cb, n) && n < cb.len() && (n == ca.len() || ca[n] < cb[n]);
        assert forall|k: int| 0 <= k < n implies a[k] == b[k] by {
            assert(ca[k] == cb[k]);
        }
        assert(a.take(n) =~= b.take(n));
    }
}

/// The event names a kind and a site that is not empty, and carries the time
/// `t`.
pub open spec fn timed(event: EventView, t: u64) -> bool {
    &&& event.kind is Some
    &&& event.site is Some
    &&& event.site->0.len() > 0
    &&& event.ts_ns == Some(t)
}

/// The span is the longest time between two events that name a kind and a
/// site, and 0 where none of them carries a time.
pub proof fn span_is_the_longest_time_between_events(events: Seq<EventView>, report: RateReport)
    requires
        is_report(events, report),
    ensures
        ({
            &&& forall|i: int, j: int, s: u64, t: u64|
                0 <= i < events.len() && 0 <= j < events.len() && #[trigger] timed(events[i], s)
                    && #[trigger] timed(events[j], t) ==> t - s <= report.span_ns
            &&& report.span_ns > 0 ==> exists|i: int, j: int, s: u64, t: u64|
                0 <= i < events.len() && 0 <= j < events.len() && #[trigger] timed(events[i], s)
                    && #[trigger] timed(events[j], t) && t - s == report.span_ns
        }),
{
    times_are_extremes(events);
    assert forall|i: int, j: int, s: u64, t: u64|
        0 <= i < events.len() && 0 <= j < events.len() && #[trigger] timed(events[i], s)
            && #[trigger] timed(events[j], t) implies t - s <= report.span_ns by {
        assert(has_time(events[i], s));
        assert(has_time(events[j], t));
    }
    if report.span_ns > 0 {
        let i = choose|i: int|
            0 <= i < events.len() && #[trigger] has_time(events[i], first_time(events)->0);
        let j = choose|j: int|
            0 <= j < events.len() && #[trigger] has_time(events[j], last_time(events)->0);
        assert(timed(events[i], first_time(events)->0));
        assert(timed(events[j], last_time(events)->0));
    }
}

/// A reducer starts without events and adds each that it reads at the end, as
/// it was logged.
pub proof fn events_are_kept_in_order(
    fresh: RateReducer,
    reducer: &mut RateReducer,
    event: &RawEvent,
)
    requires
        call_ensures(RateReducer::new, (), fresh),
        call_ensures(RateReducer::absorb, (reducer, event), ()),
    ensures
        fresh.events().len() == 0,
        final(reducer).events() == old(reducer).events() + seq![event@],
        event@.ts_ns == event.ts_ns,
        event@.size == event.size,
        event@.kind is Some <==> event.kind is Some,
        event.kind is Some ==> event@.kind->0 == event.kind->0@,
        event@.site is Some <==> event.site is Some,
        event.site is Some ==> event@.site->0 == event.site->0@,
{
    assert(old(reducer).events().push(event@) =~= old(reducer).events() + seq![event@]);
}

/// What is read of a log are its lines up to the first where reading failed,
/// and all of them where reading did not fail.
pub proof fn lines_are_read_up_to_a_failure(lines: Seq<LineView>)
    ensures
        readable_lines(lines).len() <= lines.len(),
        readable_lines(lines) == lines.take(readable_lines(lines).len() as int),
        forall|i: int| 0 <= i < readable_lines(lines).len() ==> #[trigger] lines[i] != LineView::Failed,
        readable_lines(lines).len() < lines.len() ==> lines[readable_lines(lines).len() as int]
            == LineView::Failed,
    decreases lines.len(),
{
    if lines.len() == 0 || lines[0] == LineView::Failed {
        assert(lines.take(0) =~= Seq::empty());
    } else {
        let rest = lines.skip(1);
        lines_are_read_up_to_a_failure(rest);
        let n = readable_lines(rest).len() as int;
        assert(seq![lines[0]] + rest.take(n) =~= lines.take(n + 1));
        assert forall|i: int| 0 <= i < n + 1 implies #[trigger] lines[i] != LineView::Failed by {
            if i > 0 {
                assert(rest[i - 1] == lines[i]);
            }
        }
    }
}

/// Text that the parser takes for an event adds that event, handed over
/// without white space around it; any other line adds none.
pub proof fn lines_give_what_the_parser_takes<F: Fn(String) -> Option<RawEvent>>(
    parse: F,
    line: LineView,
    event: Option<EventView>,
)
    requires
        gives(parse, line, event),
    ensures
        event is Some ==> line is Text && exists|s: String, raw: RawEvent|
            {
                &&& s@ == text::trimmed(line->Text_0)
                &&& s@.len() > 0
                &&& #[trigger] call_ensures(parse, (s,), Some(raw))
                &&& event == Some(raw@)
            },
        line is Text && text::trimmed(line->Text_0).len() > 0 && event is None ==> exists|s: String|
            {
                &&& s@ == text::trimmed(line->Text_0)
                &&& #[trigger] call_ensures(parse, (s,), None::<RawEvent>)
            },
{
    if let LineView::Text(content) = line {
        if text::trimmed(content).len() > 0 {
            let (s, raw) = choose|s: String, raw: Option<RawEvent>|
                {
                    &&& s@ == text::trimmed(content)
                    &&& #[trigger] call_ensures(parse, (s,), raw)
                    &&& event == event_view(raw)
                };
            match raw {
                Some(r) => {
                    assert(call_ensures(parse, (s,), Some(r)));
                },
                None => {
                    assert(call_ensures(parse, (s,), None::<RawEvent>));
                },
            }
        }
    }
}

/// The events that are there are those of the first lines and then those of
/// the rest, each once and in order.
pub proof fn present_events_keep_order(a: Seq<Option<EventView>>, b: Seq<Option<EventView>>, e: EventView)
    ensures
        present(a + b) == present(a) + present(b),
        present(seq![Some(e)]) == seq![e],
        present(seq![None]) == Seq::<EventView>::empty(),
        present(Seq::empty()) == Seq::<EventView>::empty(),
    decreases b.len(),
{
    assert(seq![Some(e)].drop_last() =~= Seq::empty());
    assert(seq![None::<EventView>].drop_last() =~= Seq::empty());
    assert(present(seq![Some(e)].drop_last()) =~= Seq::empty());
    assert(present(seq![Some(e)]) =~= seq![e]);
    if b.len() == 0 {
        assert(a + b =~= a);
        assert(present(a) + present(b) =~= present(a));
    } else {
        present_events_keep_order(a, b.drop_last(), e);
        assert((a + b).drop_last() =~= a + b.drop_last());
        assert(present(a + b) =~= present(a) + present(b));
    }
}

/// Each row adds one line of comma-separated values: its site, three numbers
/// in decimal digits and its rate. The header line comes first.
pub proof fn rows_add_comma_separated_lines(rows: Seq<RateRowView>, row: RateRowView)
    ensures
        csv_text(Seq::empty()) == "site,alloc_count,dealloc_count,peak_live_bytes,alloc_rate_per_sec\n"@,
        exists|a: Seq<char>, d: Seq<char>, p: Seq<char>|
            {
                &&& #[trigger] text::in_decimal(a, row.alloc_count as nat)
                &&& #[trigger] text::in_decimal(d, row.dealloc_count as nat)
                &&& #[trigger] text::in_decimal(p, row.peak_live_bytes as nat)
                &&& csv_text(rows.push(row)) == csv_text(rows) + row.site + seq![','] + a + seq![','] + d
                    + seq![','] + p + seq![','] + row.alloc_rate_per_sec + seq!['\n']
            },
{
    let a = text::decimal(row.alloc_count as nat);
    let d = text::decimal(row.dealloc_count as nat);
    let p = text::decimal(row.peak_live_bytes as nat);
    text::decimals_are_digits(row.alloc_count as nat);
    text::decimals_are_digits(row.dealloc_count as nat);
    text::decimals_are_digits(row.peak_live_bytes as nat);
    assert(rows.push(row).drop_last() =~= rows);
    assert(text::in_decimal(a, row.alloc_count as nat));
    assert(text::in_decimal(d, row.dealloc_count as nat));
    assert(text::in_decimal(p, row.peak_live_bytes as nat));
    assert(csv_text(rows.push(row)) =~= csv_text(rows) + row.site + seq![','] + a + seq![','] + d + seq![
        ',',
    ] + p + seq![','] + row.alloc_rate_per_sec + seq!['\n']);
}

/// A text at the left of a column comes before the spaces, and a text at the
/// right after them; a text wider than the column is kept whole.
pub proof fn columns_hold_their_texts(s: Seq<char>, width: nat)
    ensures
        ({
            let l = at_left(s, width);
            let r = at_right(s, width);
            &&& s.len() <= width ==> l.len() == width && r.len() == width
            &&& s.len() > width ==> l == s && r == s
            &&& l.take(s.len() as int) == s
            &&& forall|i: int| s.len() <= i < l.len() ==> #[trigger] l[i] == ' '
            &&& r.skip(r.len() - s.len()) == s
            &&& forall|i: int| 0 <= i < r.len() - s.len() ==> #[trigger] r[i] == ' '
        }),
{
    let l = at_left(s, width);
    let r = at_right(s, width);
    assert(l.take(s.len() as int) =~= s);
    assert(r.skip(r.len() - s.len()) =~= s);
    if s.len() > width {
        assert(l =~= s);
        assert(r =~= s);
    }
}

/// A row whose texts fit is one line of 85 characters: the site at the left of
/// the first 20, and the other texts at the right ends of columns that end at
/// the 32nd, 46th, 63rd and 84th, with a space before each column.
pub proof fn columns_have_their_places(
    site: Seq<char>,
    allocs: Seq<char>,
    deallocs: Seq<char>,
    peak: Seq<char>,
    rate: Seq<char>,
)
    requires
        site.len() <= 20,
        allocs.len() <= 11,
        deallocs.len() <= 13,
        peak.len() <= 16,
        rate.len() <= 20,
    ensures
        ({
            let line = pretty_row(site, allocs, deallocs, peak, rate);
            &&& line.len() == 85
            &&& line.subrange(0, site.len() as int) == site
            &&& line.subrange(32 - allocs.len(), 32) == allocs
            &&& line.subrange(46 - deallocs.len(), 46) == deallocs
            &&& line.subrange(63 - peak.len(), 63) == peak
            &&& line.subrange(84 - rate.len(), 84) == rate
            &&& forall|i: int| site.len() <= i < 32 - allocs.len() ==> #[trigger] line[i] == ' '
            &&& forall|i: int| 32 <= i < 46 - deallocs.len() ==> #[trigger] line[i] == ' '
            &&& forall|i: int| 46 <= i < 63 - peak.len() ==> #[trigger] line[i] == ' '
            &&& forall|i: int| 63 <= i < 84 - rate.len() ==> #[trigger] line[i] == ' '
            &&& line[84] == '\n'
        }),
{
    let line = pretty_row(site, allocs, deallocs, peak, rate);
    assert(line.subrange(0, site.len() as int) =~= site);
    assert(line.subrange(32 - allocs.len(), 32) =~= allocs);
    assert(line.subrange(46 - deallocs.len(), 46) =~= deallocs);
    assert(line.subrange(63 - peak.len(), 63) =~= peak);
    assert(line.subrange(84 - rate.len(), 84) =~= rate);
}

/// The table starts with the names of the columns, and each row adds one line
/// with its site, three numbers in decimal digits and its rate.
pub proof fn rows_add_pretty_lines(rows: Seq<RateRowView>, row: RateRowView)
    ensures
        pretty_text(Seq::empty()) == pretty_row(
            "site"@,
            "alloc_count"@,
            "dealloc_count"@,
            "peak_live_bytes"@,
            "alloc_rate_per_sec"@,
        ),
        exists|a: Seq<char>, d: Seq<char>, p: Seq<char>|
            {
                &&& #[trigger] text::in_decimal(a, row.alloc_count as nat)
                &&& #[trigger] text::in_decimal(d, row.dealloc_count as nat)
                &&& #[trigger] text::in_decimal(p, row.peak_live_bytes as nat)
                &&& pretty_text(rows.push(row)) == pretty_text(rows) + pretty_row(
                    row.site,
                    a,
                    d,
                    p,
                    row.alloc_rate_per_sec,
                )
            },
{
    text::decimals_are_digits(row.alloc_count as nat);
    text::decimals_are_digits(row.dealloc_count as nat);
    text::decimals_are_digits(row.peak_live_bytes as nat);
    assert(rows.push(row).drop_last() =~= rows);
    assert(text::in_decimal(text::decimal(row.alloc_count as nat), row.alloc_count as nat));
    assert(text::in_decimal(text::decimal(row.dealloc_count as nat), row.dealloc_count as nat));
    assert(text::in_decimal(text::decimal(row.peak_live_bytes as nat), row.peak_live_bytes as nat));
}

/// What is written is added behind what was there, and is the text of the
/// rows, in the order of the rows, encoded as UTF-8.
pub proof fn reports_are_appended(rows: &Vec<RateRow>, csv: &mut Vec<u8>, pretty: &mut Vec<u8>)
    requires
        call_ensures(write_csv, (rows, csv), ()),
        call_ensures(write_pretty, (rows, pretty), ()),
    ensures
        old(csv)@.is_prefix_of(final(csv)@),
        final(csv)@.skip(old(csv)@.len() as int) == vstd::utf8::encode_utf8(csv_text(row_views(rows@))),
        old(pretty)@.is_prefix_of(final(pretty)@),
        final(pretty)@.skip(old(pretty)@.len() as int) == vstd::utf8::encode_utf8(
            pretty_text(row_views(rows@)),
        ),
        forall|i: int| 0 <= i < rows@.len() ==> #[trigger] row_views(rows@)[i] == rows@[i]@,
        row_views(rows@).len() == rows@.len(),
{
    let a = vstd::utf8::encode_utf8(csv_text(row_views(rows@)));
    let b = vstd::utf8::encode_utf8(pretty_text(row_views(rows@)));
    assert((old(csv)@ + a).skip(old(csv)@.len() as int) =~= a);
    assert((old(pretty)@ + b).skip(old(pretty)@.len() as int) =~= b);
    assert((old(csv)@ + a).subrange(0, old(csv)@.len() as int) =~= old(csv)@);
    assert((old(pretty)@ + b).subrange(0, old(pretty)@.len() as int) =~= old(pretty)@);
}

/// What a reducer reports when it is finished is the report of all events that
/// it read.
pub proof fn finished_reports_are_of_all_events(reducer: RateReducer, report: RateReport)
    requires
        call_ensures(RateReducer::finish, (reducer,), report),
    ensures
        is_report(reducer.events(), report),
{
}

/// The log goes on behind every line but one where reading failed, and a line
/// adds the event that it gave, or none.
pub proof fn lines_add_at_most_one_event<F: Fn(String) -> Option<RawEvent>>(
    reducer: &mut RateReducer,
    line: &LogLine,
    parse: &F,
    goes_on: bool,
)
    requires
        call_ensures(RateReducer::absorb_line::<F>, (reducer, line, parse), goes_on),
    ensures
        goes_on <==> !(line is Failed),
        line is Failed || line is Malformed ==> final(reducer).events() == old(reducer).events(),
        final(reducer).events() == old(reducer).events() || exists|event: EventView| #[trigger]
            gives(*parse, line@, Some(event)) && final(reducer).events() == old(reducer).events() + seq![
                event,
            ],
        final(reducer).events() == old(reducer).events() ==> gives(*parse, line@, None::<EventView>),
{
    let had = old(reducer).events();
    let event = choose|event: Option<EventView>| #[trigger]
        gives(*parse, line@, event) && final(reducer).events() == with_event(had, event);
    if let Some(e) = event {
        assert(gives(*parse, line@, Some(e)));
        assert(had.push(e) =~= had + seq![e]);
        assert(had.push(e).len() != had.len());
    }
}

/// Line by line, these are the events that the lines gave, up to the first
/// line where reading failed.
pub open spec fn given_by_lines<F: Fn(String) -> Option<RawEvent>>(
    lines: Seq<LogLine>,
    parse: F,
    events: Seq<Option<EventView>>,
) -> bool {
    &&& events.len() <= lines.len()
    &&& forall|i: int| 0 <= i < events.len() ==> !(#[trigger] lines[i] is Failed)
    &&& forall|i: int| 0 <= i < events.len() ==> gives(parse, lines[i]@, #[trigger] events[i])
    &&& events.len() < lines.len() ==> lines[events.len() as int] is Failed
}

/// The report of a log is that of the events that its lines gave, line by line
/// in order, up to the first line where reading failed.
pub proof fn logs_are_reported_line_by_line<F: Fn(String) -> Option<RawEvent>>(
    lines: &Vec<LogLine>,
    parse: F,
    report: RateReport,
)
    requires
        call_ensures(reduce_lines::<F>, (lines, parse), report),
    ensures
        exists|events: Seq<Option<EventView>>| #[trigger]
            given_by_lines(lines@, parse, events) && is_report(present(events), report),
{
    let views = line_views(lines@);
    assert(reports(views, parse, report));
    let events = choose|events: Seq<Option<EventView>>| #[trigger]
        read_from(views, parse, events) && is_report(present(events), report);
    lines_are_read_up_to_a_failure(views);
    let read = readable_lines(views);
    assert(views.len() == lines@.len());
    assert forall|i: int| 0 <= i < events.len() implies !(#[trigger] lines@[i] is Failed) by {
        assert(views[i] == lines@[i]@);
        assert(views[i] != LineView::Failed);
    }
    assert forall|i: int| 0 <= i < events.len() implies gives(parse, lines@[i]@, #[trigger] events[i]) by {
        assert(gives(parse, read[i], events[i]));
        assert(read[i] == views[i]);
    }
    if events.len() < lines@.len() {
        let end = events.len() as int;
        assert(views[end] == lines@[end]@);
        assert(lines@[end] is Failed);
    }
    assert(given_by_lines(lines@, parse, events));
}

/// Bytes that encode a text are a line of that text, and bytes that encode
/// none are a malformed line. A line's text is handed on without white space
/// around it, unless nothing is left.
pub proof fn bytes_make_lines(
    bytes: Vec<u8>,
    line: LogLine,
    raw: &str,
    content: Option<String>,
    s: Seq<char>,
)
    requires
        call_ensures(LogLine::from_bytes, (bytes,), line),
        call_ensures(event_text, (raw,), content),
    ensures
        bytes@ == vstd::utf8::encode_utf8(s) ==> line@ == LineView::Text(s),
        !vstd::utf8::valid_utf8(bytes@) ==> line is Malformed,
        !(line is Failed),
        content is Some <==> text::trimmed(raw@).len() > 0,
        content is Some ==> content->0@ == text::trimmed(raw@),
{
    if bytes@ == vstd::utf8::encode_utf8(s) {
        vstd::utf8::encode_utf8_valid_utf8(s);
        vstd::utf8::encode_utf8_decode_utf8(s);
    }
}

/// A row without a site has all zeros, and a copy of a row is the same row.
pub proof fn rows_start_with_zeros(fresh: RateRow, row: &RateRow, copy: RateRow)
    requires
        call_ensures(<RateRow as Default>::default, (), fresh),
        call_ensures(<RateRow as Clone>::clone, (row,), copy),
    ensures
        fresh.site@.len() == 0,
        fresh.alloc_count == 0 && fresh.dealloc_count == 0 && fresh.peak_live_bytes == 0,
        fresh.alloc_rate_per_sec@ == "0.000000"@,
        copy.site@ == row.site@,
        copy.alloc_count == row.alloc_count,
        copy.dealloc_count == row.dealloc_count,
        copy.peak_live_bytes == row.peak_live_bytes,
        copy.alloc_rate_per_sec@ == row.alloc_rate_per_sec@,
{
    assert(fresh@.site.len() == 0);
    assert(copy@ == row@);
    assert(copy@.site == row@.site);
}

} // verus!

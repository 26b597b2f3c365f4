//! A table that groups items under ordered keys and keeps one tally per key.
use vstd::prelude::*;
use crate::order;
use crate::order::{locate, SortKey};

verus! {

/// A running total over the items of one group.
pub trait Tally: Sized + Copy {
    type Item;

    /// The total over no items.
    spec fn start() -> Self;

    /// The total after one more item.
    spec fn step(self, item: Self::Item) -> Self;

    fn fresh() -> (tally: Self)
        ensures
            tally == Self::start(),
    ;

    fn absorb(&self, item: Self::Item) -> (tally: Self)
        ensures
            tally == self.step(item),
    ;
}

/// The total over the items that `history` records under `key`, in order.
pub open spec fn tally_of<M, T: Tally>(history: Seq<(M, T::Item)>, key: M) -> T
    decreases history.len(),
{
    if history.len() == 0 {
        T::start()
    } else {
        let earlier = tally_of::<M, T>(history.drop_last(), key);
        if history.last().0 == key {
            earlier.step(history.last().1)
        } else {
            earlier
        }
    }
}

/// `history` records something under `key`.
pub open spec fn occurs<M, I>(history: Seq<(M, I)>, key: M) -> bool {
    exists|i: int| 0 <= i < history.len() && (#[trigger] history[i]).0 == key
}

/// `keys` are exactly the keys of `history`, ascending, and `tallies` their totals.
pub open spec fn summary<K: SortKey, T: Tally>(
    history: Seq<(K::Model, T::Item)>,
    keys: Seq<K::Model>,
    tallies: Seq<T>,
) -> bool {
    &&& order::ascending::<K>(keys)
    &&& tallies.len() == keys.len()
    &&& forall|i: int| 0 <= i < keys.len() ==> occurs(history, #[trigger] keys[i])
    &&& forall|i: int|
        0 <= i < keys.len() ==> #[trigger] tallies[i] == tally_of::<K::Model, T>(history, keys[i])
    &&& forall|h: int| 0 <= h < history.len() ==> keys.contains((#[trigger] history[h]).0)
}

/// Items grouped: `entries` lists each item's key and what it counts for.
pub open spec fn entries<M, I, J>(items: Seq<I>, key: spec_fn(I) -> M, value: spec_fn(I) -> J) -> Seq<
    (M, J),
> {
    Seq::new(items.len(), |i: int| (key(items[i]), value(items[i])))
}

/// The items of one group, in order.
pub open spec fn members<M, I>(items: Seq<I>, key: spec_fn(I) -> M, k: M) -> Seq<I> {
    items.filter(|x: I| key(x) == k)
}

/// The total over a sequence of values.
pub open spec fn tally_all<T: Tally>(values: Seq<T::Item>) -> T
    decreases values.len(),
{
    if values.len() == 0 {
        T::start()
    } else {
        tally_all::<T>(values.drop_last()).step(values.last())
    }
}

/// The total recorded under a key is the total over the members of its group.
pub proof fn tally_of_group<M, I, T: Tally>(
    items: Seq<I>,
    key: spec_fn(I) -> M,
    value: spec_fn(I) -> T::Item,
    k: M,
)
    ensures
        tally_of::<M, T>(entries(items, key, value), k) == tally_all::<T>(
            members(items, key, k).map_values(value),
        ),
    decreases items.len(),
{
    reveal(Seq::filter);
    let history = entries(items, key, value);
    if items.len() == 0 {
        assert(members(items, key, k).map_values(value) =~= Seq::empty());
    } else {
        let shorter = items.drop_last();
        let last = items.last();
        tally_of_group::<M, I, T>(shorter, key, value, k);
        assert(history.drop_last() =~= entries(shorter, key, value));
        let was = members(shorter, key, k).map_values(value);
        if key(last) == k {
            let now = members(items, key, k).map_values(value);
            assert(now =~= was.push(value(last)));
            assert(now.drop_last() =~= was);
        }
    }
}

/// A key is recorded exactly where its group has a member.
pub proof fn occurs_in_entries<M, I, J>(
    items: Seq<I>,
    key: spec_fn(I) -> M,
    value: spec_fn(I) -> J,
    k: M,
)
    ensures
        occurs(entries(items, key, value), k) <==> has_member(items, key, k),
{
    let history = entries(items, key, value);
    if occurs(history, k) {
        let i = choose|i: int| 0 <= i < history.len() && (#[trigger] history[i]).0 == k;
        assert(key(items[i]) == k);
    }
    if has_member(items, key, k) {
        let i = choose|i: int| 0 <= i < items.len() && key(#[trigger] items[i]) == k;
        assert(history[i].0 == k);
    }
}

/// Some item belongs to the group of `k`.
pub open spec fn has_member<M, I>(items: Seq<I>, key: spec_fn(I) -> M, k: M) -> bool {
    exists|i: int| 0 <= i < items.len() && key(#[trigger] items[i]) == k
}

/// The sum of what the items weigh.
pub open spec fn weigh<I>(items: Seq<I>, weight: spec_fn(I) -> nat) -> nat
    decreases items.len(),
{
    if items.len() == 0 {
        0
    } else {
        weigh(items.drop_last(), weight) + weight(items.last())
    }
}

/// Items that weigh 1 each weigh as much as there are items.
pub proof fn weigh_ones<I>(items: Seq<I>)
    ensures
        weigh(items, |i: I| 1nat) == items.len(),
    decreases items.len(),
{
    if items.len() > 0 {
        weigh_ones(items.drop_last());
    }
}

/// A group has no more members than there are items.
pub proof fn members_no_longer<M, I>(items: Seq<I>, key: spec_fn(I) -> M, k: M)
    ensures
        members(items, key, k).len() <= items.len(),
    decreases items.len(),
{
    reveal(Seq::filter);
    if items.len() > 0 {
        members_no_longer(items.drop_last(), key, k);
    }
}

/// The members of a group are the items with its key.
pub proof fn members_are_items<M, I>(items: Seq<I>, key: spec_fn(I) -> M, k: M, x: I)
    ensures
        members(items, key, k).contains(x) <==> items.contains(x) && key(x) == k,
    decreases items.len(),
{
    reveal(Seq::filter);
    let all = members(items, key, k);
    if items.len() > 0 {
        let shorter = items.drop_last();
        let was = members(shorter, key, k);
        members_are_items(shorter, key, k, x);
        assert(items =~= shorter.push(items.last()));
        vstd::seq_lib::lemma_seq_contains_after_push(shorter, items.last(), x);
        if key(items.last()) == k {
            assert(all =~= was.push(items.last()));
            vstd::seq_lib::lemma_seq_contains_after_push(was, items.last(), x);
        }
    }
}

/// A group holds its items as often as they occur.
pub proof fn members_keep_multiplicity<M, I>(items: Seq<I>, key: spec_fn(I) -> M, k: M)
    ensures
        members(items, key, k).to_multiset() == items.to_multiset().filter(|x: I| key(x) == k),
    decreases items.len(),
{
    broadcast use vstd::multiset::group_multiset_axioms;

    reveal(Seq::filter);
    let p = |x: I| key(x) == k;
    if items.len() == 0 {
        assert(members(items, key, k) =~= items);
        vstd::seq_lib::to_multiset_len(items);
        assert(items.to_multiset() =~= vstd::multiset::Multiset::empty());
        assert(items.to_multiset().filter(p) =~= vstd::multiset::Multiset::empty());
    } else {
        let shorter = items.drop_last();
        let last = items.last();
        members_keep_multiplicity(shorter, key, k);
        assert(items =~= shorter.push(last));
        vstd::seq_lib::to_multiset_build(shorter, last);
        vstd::seq_lib::to_multiset_build(members(shorter, key, k), last);
        assert(members(items, key, k).to_multiset() =~= items.to_multiset().filter(p));
    }
}

/// A group weighs no more than all items.
pub proof fn members_weigh_no_more<M, I>(
    items: Seq<I>,
    key: spec_fn(I) -> M,
    k: M,
    weight: spec_fn(I) -> nat,
)
    ensures
        weigh(members(items, key, k), weight) <= weigh(items, weight),
    decreases items.len(),
{
    reveal(Seq::filter);
    if items.len() > 0 {
        let was = members(items.drop_last(), key, k);
        members_weigh_no_more(items.drop_last(), key, k, weight);
        if key(items.last()) == k {
            assert(members(items, key, k).drop_last() =~= was);
        }
    }
}

/// A finer grouping splits the groups of a coarser one: a fine group that lies
/// in a coarse group has the same members within it.
pub proof fn members_within_group<M, N, I>(
    items: Seq<I>,
    coarse: spec_fn(I) -> M,
    fine: spec_fn(I) -> N,
    m: M,
    n: N,
)
    requires
        forall|x: I| #[trigger] fine(x) == n ==> coarse(x) == m,
    ensures
        members(members(items, coarse, m), fine, n) == members(items, fine, n),
    decreases items.len(),
{
    reveal(Seq::filter);
    if items.len() > 0 {
        let last = items.last();
        let outer = members(items.drop_last(), coarse, m);
        members_within_group(items.drop_last(), coarse, fine, m, n);
        if coarse(last) == m {
            assert(members(items, coarse, m).drop_last() =~= outer);
        }
    } else {
        assert(members(items, coarse, m) =~= items);
    }
}

/// The sum, over the given keys, of what each key's group weighs.
pub open spec fn weigh_groups<M, I>(
    items: Seq<I>,
    key: spec_fn(I) -> M,
    keys: Seq<M>,
    weight: spec_fn(I) -> nat,
) -> nat {
    weigh(keys, |k: M| weigh(members(items, key, k), weight))
}

proof fn weigh_groups_push<M, I>(
    items: Seq<I>,
    key: spec_fn(I) -> M,
    keys: Seq<M>,
    weight: spec_fn(I) -> nat,
)
    requires
        items.len() > 0,
        order::distinct(keys),
    ensures
        weigh_groups(items, key, keys, weight) == weigh_groups(items.drop_last(), key, keys, weight)
            + if keys.contains(key(items.last())) {
            weight(items.last())
        } else {
            0
        },
    decreases keys.len(),
{
    reveal(Seq::filter);
    if keys.len() > 0 {
        let fewer = keys.drop_last();
        let k = keys.last();
        let last = items.last();
        weigh_groups_push(items, key, fewer, weight);
        let was = members(items.drop_last(), key, k);
        let now = members(items, key, k);
        if key(last) == k {
            assert(now.drop_last() =~= was);
            assert(keys[keys.len() - 1] == k);
            assert(!fewer.contains(k)) by {
                if fewer.contains(k) {
                    let i = choose|i: int| 0 <= i < fewer.len() && fewer[i] == k;
                    assert(keys[i] != keys[keys.len() - 1]);
                }
            }
        } else {
            assert(keys.contains(key(last)) <==> fewer.contains(key(last))) by {
                if keys.contains(key(last)) {
                    let i = choose|i: int| 0 <= i < keys.len() && keys[i] == key(last);
                    assert(fewer[i] == key(last));
                }
                if fewer.contains(key(last)) {
                    let i = choose|i: int| 0 <= i < fewer.len() && fewer[i] == key(last);
                    assert(keys[i] == key(last));
                }
            }
        }
    }
}

/// Groups under distinct keys that cover every item weigh together what the
/// items weigh.
pub proof fn groups_partition<M, I>(
    items: Seq<I>,
    key: spec_fn(I) -> M,
    keys: Seq<M>,
    weight: spec_fn(I) -> nat,
)
    requires
        order::distinct(keys),
        forall|i: int| 0 <= i < items.len() ==> keys.contains(key(#[trigger] items[i])),
    ensures
        weigh_groups(items, key, keys, weight) == weigh(items, weight),
    decreases items.len(),
{
    if items.len() == 0 {
        reveal(Seq::filter);
        no_items_weigh_nothing(items, key, keys, weight);
    } else {
        let shorter = items.drop_last();
        assert forall|i: int| 0 <= i < shorter.len() implies keys.contains(key(#[trigger] shorter[i])) by {
            assert(shorter[i] == items[i]);
        }
        assert(keys.contains(key(items[items.len() - 1])));
        groups_partition(shorter, key, keys, weight);
        weigh_groups_push(items, key, keys, weight);
    }
}

proof fn no_items_weigh_nothing<M, I>(
    items: Seq<I>,
    key: spec_fn(I) -> M,
    keys: Seq<M>,
    weight: spec_fn(I) -> nat,
)
    requires
        items.len() == 0,
    ensures
        weigh_groups(items, key, keys, weight) == 0,
    decreases keys.len(),
{
    reveal(Seq::filter);
    if keys.len() > 0 {
        no_items_weigh_nothing(items, key, keys.drop_last(), weight);
    }
}

pub struct Table<K: SortKey, T: Tally> {
    keys: Vec<K>,
    tallies: Vec<T>,
    history: Ghost<Seq<(K::Model, T::Item)>>,
}

proof fn occurs_after_push<M, I>(history: Seq<(M, I)>, entry: (M, I), key: M)
    ensures
        occurs(history, key) ==> occurs(history.push(entry), key),
        entry.0 == key ==> occurs(history.push(entry), key),
{
    let longer = history.push(entry);
    if occurs(history, key) {
        let i = choose|i: int| 0 <= i < history.len() && (#[trigger] history[i]).0 == key;
        assert(longer[i].0 == key);
    }
    assert(longer[history.len() as int] == entry);
}

proof fn tally_without_occurrence<M, T: Tally>(history: Seq<(M, T::Item)>, key: M)
    requires
        !occurs(history, key),
    ensures
        tally_of::<M, T>(history, key) == T::start(),
    decreases history.len(),
{
    if history.len() > 0 {
        let shorter = history.drop_last();
        assert(history[history.len() - 1].0 != key);
        if occurs(shorter, key) {
            let i = choose|i: int| 0 <= i < shorter.len() && (#[trigger] shorter[i]).0 == key;
            assert(history[i].0 == key);
        }
        tally_without_occurrence::<M, T>(shorter, key);
    }
}

impl<K: SortKey, T: Tally> Table<K, T> {
    /// The entries recorded so far, oldest first.
    pub closed spec fn history(&self) -> Seq<(K::Model, T::Item)> {
        self.history@
    }

    /// The keys and totals held are those of the entries recorded.
    pub closed spec fn wf(&self) -> bool {
        summary::<K, T>(self.history@, order::models(self.keys@), self.tallies@)
    }

    pub fn new() -> (table: Self)
        ensures
            table.wf(),
            table.history() == Seq::<(K::Model, T::Item)>::empty(),
    {
        Table { keys: Vec::new(), tallies: Vec::new(), history: Ghost(Seq::empty()) }
    }

    /// Count `item` under `key`.
    #[verifier::rlimit(40)]
    pub fn record(&mut self, key: K, item: T::Item)
        requires
            old(self).wf(),
        ensures
            final(self).wf(),
            final(self).history() == old(self).history().push((key.model(), item)),
    {
        let ghost before = self.history@;
        let ghost entry = (key.model(), item);
        let ghost after = before.push(entry);
        let ghost ks = order::models(self.keys@);
        let ghost ts = self.tallies@;
        let found = locate(&self.keys, &key);
        let at: usize = found.1;
        proof {
            assert(after.drop_last() =~= before);
            assert(after.last() == entry);
            assert forall|h: int| 0 <= h < after.len() && h < before.len() implies ks.contains(
                (#[trigger] after[h]).0,
            ) by {
                assert(after[h] == before[h]);
            }
        }
        if found.0 {
            let grown = self.tallies[at].absorb(item);
            self.tallies.set(at, grown);
            self.history = Ghost(after);
            proof {
                let now = self.tallies@;
                order::ascending_is_distinct::<K>(ks);
                assert(ks[at as int] == entry.0);
                assert forall|i: int| 0 <= i < ks.len() implies occurs(after, #[trigger] ks[i]) by {
                    occurs_after_push(before, entry, ks[i]);
                }
                assert forall|i: int| 0 <= i < ks.len() implies #[trigger] now[i] == tally_of::<
                    K::Model,
                    T,
                >(after, ks[i]) by {
                    assert(ts[i] == tally_of::<K::Model, T>(before, ks[i]));
                    if i != at {
                        assert(ks[i] != ks[at as int]);
                    }
                }
                assert forall|h: int| 0 <= h < after.len() implies ks.contains(
                    (#[trigger] after[h]).0,
                ) by {
                    if h == before.len() {
                        assert(ks[at as int] == after[h].0);
                    }
                }
            }
        } else {
            let grown = T::fresh().absorb(item);
            proof {
                assert forall|j: int| 0 <= j < at implies K::before(#[trigger] ks[j], entry.0) by {
                    assert(self.keys[j].model() == ks[j]);
                }
                assert forall|j: int| at <= j < ks.len() implies K::before(entry.0, #[trigger] ks[j]) by {
                    assert(self.keys[j].model() == ks[j]);
                }
                order::insertion_keeps_order::<K>(ks, at as int, entry.0);
                if occurs(before, entry.0) {
                    let h = choose|h: int| 0 <= h < before.len() && (#[trigger] before[h]).0 == entry.0;
                    assert(ks.contains(before[h].0));
                    let j = choose|j: int| 0 <= j < ks.len() && ks[j] == entry.0;
                    assert(ks[j] != entry.0);
                }
                tally_without_occurrence::<K::Model, T>(before, entry.0);
            }
            self.keys.insert(at, key);
            self.tallies.insert(at, grown);
            self.history = Ghost(after);
            proof {
                let nk = order::models(self.keys@);
                let now = self.tallies@;
                assert(nk =~= ks.insert(at as int, entry.0));
                assert forall|i: int| 0 <= i < nk.len() implies occurs(after, #[trigger] nk[i]) by {
                    occurs_after_push(before, entry, nk[i]);
                    if i < at {
                        assert(nk[i] == ks[i]);
                    } else if i > at {
                        assert(nk[i] == ks[i - 1]);
                    }
                }
                assert forall|i: int| 0 <= i < nk.len() implies #[trigger] now[i] == tally_of::<
                    K::Model,
                    T,
                >(after, nk[i]) by {
                    if i < at {
                        assert(nk[i] == ks[i] && now[i] == ts[i]);
                    } else if i > at {
                        assert(nk[i] == ks[i - 1] && now[i] == ts[i - 1]);
                    }
                }
                assert forall|h: int| 0 <= h < after.len() implies nk.contains(
                    (#[trigger] after[h]).0,
                ) by {
                    if h == before.len() {
                        assert(nk[at as int] == after[h].0);
                    } else {
                        assert(ks.contains(after[h].0));
                        let j = choose|j: int| 0 <= j < ks.len() && ks[j] == after[h].0;
                        if j < at {
                            assert(nk[j] == after[h].0);
                        } else {
                            assert(nk[j + 1] == after[h].0);
                        }
                    }
                }
            }
        }
    }

    /// The keys in ascending order, each with the total of its group.
    pub fn into_parts(self) -> (parts: (Vec<K>, Vec<T>))
        requires
            self.wf(),
        ensures
            summary::<K, T>(self.history(), order::models(parts.0@), parts.1@),
    {
        (self.keys, self.tallies)
    }
}

/// The summary of a history is unique.
pub proof fn summary_is_unique<K: SortKey, T: Tally>(
    history: Seq<(K::Model, T::Item)>,
    keys_a: Seq<K::Model>,
    tallies_a: Seq<T>,
    keys_b: Seq<K::Model>,
    tallies_b: Seq<T>,
)
    requires
        summary::<K, T>(history, keys_a, tallies_a),
        summary::<K, T>(history, keys_b, tallies_b),
    ensures
        keys_a == keys_b,
        tallies_a == tallies_b,
{
    assert forall|i: int| 0 <= i < keys_a.len() implies keys_b.contains(#[trigger] keys_a[i]) by {
        assert(occurs(history, keys_a[i]));
        let h = choose|h: int| 0 <= h < history.len() && (#[trigger] history[h]).0 == keys_a[i];
        assert(keys_b.contains(history[h].0));
    }
    assert forall|i: int| 0 <= i < keys_b.len() implies keys_a.contains(#[trigger] keys_b[i]) by {
        assert(occurs(history, keys_b[i]));
        let h = choose|h: int| 0 <= h < history.len() && (#[trigger] history[h]).0 == keys_b[i];
        assert(keys_a.contains(history[h].0));
    }
    order::ascending_is_unique::<K>(keys_a, keys_b);
    assert(tallies_a =~= tallies_b);
}

/// What items weigh adds up over the parts of a sequence.
pub proof fn weigh_add<I>(a: Seq<I>, b: Seq<I>, weight: spec_fn(I) -> nat)
    ensures
        weigh(a + b, weight) == weigh(a, weight) + weigh(b, weight),
    decreases b.len(),
{
    if b.len() == 0 {
        assert(a + b =~= a);
    } else {
        assert((a + b).drop_last() =~= a + b.drop_last());
        weigh_add(a, b.drop_last(), weight);
    }
}

/// One item weighs what it weighs, and none weigh nothing.
pub proof fn weigh_one<I>(x: I, weight: spec_fn(I) -> nat)
    ensures
        weigh(seq![x], weight) == weight(x),
        weigh(Seq::<I>::empty(), weight) == 0,
{
    assert(seq![x].drop_last() =~= Seq::<I>::empty());
    assert(weigh(seq![x].drop_last(), weight) == 0);
}

/// Items picked by a test that tells the members of a group are its members.
pub proof fn picks_are_members<M, I>(
    items: Seq<I>,
    key: spec_fn(I) -> M,
    k: M,
    pick: spec_fn(I) -> bool,
)
    requires
        forall|i: int| 0 <= i < items.len() ==> pick(#[trigger] items[i]) == (key(items[i]) == k),
    ensures
        items.filter(pick) == members(items, key, k),
    decreases items.len(),
{
    reveal(Seq::filter);
    if items.len() > 0 {
        let shorter = items.drop_last();
        assert forall|i: int| 0 <= i < shorter.len() implies pick(#[trigger] shorter[i]) == (key(
            shorter[i],
        ) == k) by {
            assert(shorter[i] == items[i]);
        }
        picks_are_members(shorter, key, k, pick);
        assert(pick(items[items.len() - 1]) == (key(items[items.len() - 1]) == k));
    }
}

/// What is counted under one key changes that key's total by one step and no
/// other.
pub proof fn items_count_under_their_own_key<M, T: Tally>(
    history: Seq<(M, T::Item)>,
    key: M,
    item: T::Item,
    other: M,
)
    ensures
        tally_of::<M, T>(Seq::empty(), key) == T::start(),
        tally_of::<M, T>(history.push((key, item)), key) == tally_of::<M, T>(history, key).step(item),
        other != key ==> tally_of::<M, T>(history.push((key, item)), other) == tally_of::<M, T>(
            history,
            other,
        ),
{
    assert(history.push((key, item)).drop_last() =~= history);
}

/// A table keeps what was recorded, in order, and hands out each key that
/// something was recorded under, once, with its total.
pub proof fn tables_hand_out_each_key_once<K: SortKey, T: Tally>(
    fresh: Table<K, T>,
    table: &mut Table<K, T>,
    key: K,
    item: T::Item,
    whole: Table<K, T>,
    parts: (Vec<K>, Vec<T>),
    i: int,
)
    requires
        call_ensures(Table::<K, T>::new, (), fresh),
        call_ensures(Table::<K, T>::record, (table, key, item), ()),
        call_ensures(Table::<K, T>::into_parts, (whole,), parts),
        0 <= i < parts.0@.len(),
    ensures
        fresh.history().len() == 0,
        final(table).history() == old(table).history() + seq![(key.model(), item)],
        parts.1@.len() == parts.0@.len(),
        parts.1@[i] == tally_of::<K::Model, T>(whole.history(), parts.0@[i].model()),
        exists|h: int|
            0 <= h < whole.history().len() && (#[trigger] whole.history()[h]).0 == parts.0@[i].model(),
        forall|h: int|
            0 <= h < whole.history().len() ==> order::models(parts.0@).contains(
                (#[trigger] whole.history()[h]).0,
            ),
        forall|j: int|
            0 <= j < parts.0@.len() && j != i ==> (#[trigger] parts.0@[j]).model() != parts.0@[i].model(),
{
    let ks = order::models(parts.0@);
    assert(old(table).history().push((key.model(), item)) =~= old(table).history() + seq![
        (key.model(), item),
    ]);
    assert(summary::<K, T>(whole.history(), ks, parts.1@));
    order::ascending_is_distinct::<K>(ks);
    assert(ks[i] == parts.0@[i].model());
    assert(occurs(whole.history(), ks[i]));
    assert forall|j: int| 0 <= j < parts.0@.len() && j != i implies (#[trigger] parts.0@[j]).model()
        != parts.0@[i].model() by {
        assert(ks[j] == parts.0@[j].model());
        if j < i {
            assert(ks[j] != ks[i]);
        } else {
            assert(ks[i] != ks[j]);
        }
    }
}

} // verus!

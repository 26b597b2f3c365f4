//! Values numbered in the order of their first appearance.
use vstd::prelude::*;
use crate::order;
use crate::order::{locate, SortKey};
use crate::text::chars_of;

verus! {

/// A table after a value was looked up: the value is added at the end where
/// it was missing.
pub open spec fn interned<A>(table: Seq<A>, x: A) -> Seq<A> {
    if table.contains(x) {
        table
    } else {
        table.push(x)
    }
}

/// A table after several values were looked up, one after another.
pub open spec fn intern_all<A>(table: Seq<A>, values: Seq<A>) -> Seq<A>
    decreases values.len(),
{
    if values.len() == 0 {
        table
    } else {
        interned(intern_all(table, values.drop_last()), values.last())
    }
}

/// The values of `s`, each once, in the order of their first appearance.
pub open spec fn dedup<A>(s: Seq<A>) -> Seq<A> {
    intern_all(Seq::empty(), s)
}

pub proof fn intern_all_push<A>(table: Seq<A>, values: Seq<A>, x: A)
    ensures
        intern_all(table, values.push(x)) == interned(intern_all(table, values), x),
{
    assert(values.push(x).drop_last() =~= values);
}

pub proof fn intern_all_add<A>(table: Seq<A>, a: Seq<A>, b: Seq<A>)
    ensures
        intern_all(table, a + b) == intern_all(intern_all(table, a), b),
    decreases b.len(),
{
    if b.len() == 0 {
        assert(a + b =~= a);
    } else {
        assert((a + b).drop_last() =~= a + b.drop_last());
        intern_all_add(table, a, b.drop_last());
    }
}

pub proof fn interned_members<A>(table: Seq<A>, x: A, y: A)
    ensures
        interned(table, x).contains(y) <==> table.contains(y) || y == x,
{
    let now = interned(table, x);
    if table.contains(y) {
        let i = choose|i: int| 0 <= i < table.len() && table[i] == y;
        assert(now[i] == y);
    }
    if !table.contains(x) {
        assert(now[table.len() as int] == x);
    }
    if now.contains(y) && y != x {
        let i = choose|i: int| 0 <= i < now.len() && now[i] == y;
        assert(table[i] == y);
    }
}

/// A table holds what it held and what was looked up.
pub proof fn intern_all_members<A>(table: Seq<A>, values: Seq<A>, x: A)
    ensures
        intern_all(table, values).contains(x) <==> table.contains(x) || values.contains(x),
    decreases values.len(),
{
    if values.len() > 0 {
        let shorter = values.drop_last();
        intern_all_members(table, shorter, x);
        interned_members(intern_all(table, shorter), values.last(), x);
        if values.contains(x) && x != values.last() {
            let i = choose|i: int| 0 <= i < values.len() && values[i] == x;
            assert(shorter[i] == x);
        }
        if shorter.contains(x) {
            let i = choose|i: int| 0 <= i < shorter.len() && shorter[i] == x;
            assert(values[i] == x);
        }
        assert(values[values.len() - 1] == values.last());
    }
}

pub proof fn interned_distinct<A>(table: Seq<A>, x: A)
    requires
        order::distinct(table),
    ensures
        order::distinct(interned(table, x)),
{
    let now = interned(table, x);
    assert forall|i: int, j: int| 0 <= i < j < now.len() implies #[trigger] now[i] != #[trigger] now[j] by {
        if j == table.len() && now[i] == now[j] {
            assert(table[i] == x);
        }
    }
}

/// A table without repetitions stays so.
pub proof fn intern_all_distinct<A>(table: Seq<A>, values: Seq<A>)
    requires
        order::distinct(table),
    ensures
        order::distinct(intern_all(table, values)),
    decreases values.len(),
{
    if values.len() > 0 {
        intern_all_distinct(table, values.drop_last());
        interned_distinct(intern_all(table, values.drop_last()), values.last());
    }
}

/// Looking up further values leaves the earlier ones in their places.
pub proof fn intern_all_keeps_places<A>(table: Seq<A>, values: Seq<A>)
    ensures
        table.len() <= intern_all(table, values).len(),
        forall|i: int| 0 <= i < table.len() ==> #[trigger] intern_all(table, values)[i] == table[i],
    decreases values.len(),
{
    if values.len() > 0 {
        intern_all_keeps_places(table, values.drop_last());
    }
}

/// In a sequence without repetitions a value has one place.
pub proof fn index_is_unique<A>(s: Seq<A>, i: int)
    requires
        order::distinct(s),
        0 <= i < s.len(),
    ensures
        s.index_of(s[i]) == i,
{
    let k = s.index_of(s[i]);
    assert(0 <= k < s.len() && s[k] == s[i]);
    if k < i {
        assert(s[k] != s[i]);
    } else if i < k {
        assert(s[i] != s[k]);
    }
}

/// The place of a value stays the same when the table grows.
pub proof fn index_is_stable<A>(a: Seq<A>, b: Seq<A>, x: A)
    requires
        order::distinct(b),
        a.len() <= b.len(),
        forall|i: int| 0 <= i < a.len() ==> #[trigger] b[i] == a[i],
        a.contains(x),
    ensures
        b.contains(x),
        b.index_of(x) == a.index_of(x),
{
    let i = a.index_of(x);
    assert(0 <= i < a.len() && a[i] == x);
    assert(b[i] == x);
    index_is_unique(b, i);
}

/// Strings with a number each. The empty string has number 0.
pub struct StringTable {
    strings: Vec<Vec<char>>,
    sorted: Vec<Vec<char>>,
    slots: Vec<u32>,
}

impl View for StringTable {
    type V = Seq<Seq<char>>;

    closed spec fn view(&self) -> Seq<Seq<char>> {
        order::models(self.strings@)
    }
}

impl StringTable {
    /// No string is held twice, and the search index knows them all.
    pub closed spec fn wf(&self) -> bool {
        &&& order::distinct(self@)
        &&& order::ascending::<Vec<char>>(order::models(self.sorted@))
        &&& self.sorted.len() == self.slots.len()
        &&& forall|i: int|
            0 <= i < self.sorted.len() ==> self@.contains((#[trigger] self.sorted[i])@)
                && self.slots[i] == self@.index_of(self.sorted[i]@) as u32
        &&& forall|i: int|
            0 <= i < self@.len() ==> order::models(self.sorted@).contains(#[trigger] self@[i])
    }

    /// A table that holds the empty string.
    pub fn new() -> (t: Self)
        ensures
            t.wf(),
            t@ == seq![Seq::<char>::empty()],
    {
        let mut t = StringTable { strings: Vec::new(), sorted: Vec::new(), slots: Vec::new() };
        let _ = t.intern_chars(Vec::new());
        assert(t@ =~= seq![Seq::<char>::empty()]);
        t
    }

    /// The number of a string, which is added where it is missing. Numbers
    /// given out stay valid.
    pub fn intern(&mut self, s: &str) -> (slot: u32)
        requires
            old(self).wf(),
        ensures
            final(self).wf(),
            final(self)@ == interned(old(self)@, s@),
            slot == final(self)@.index_of(s@) as u32,
    {
        self.intern_chars(chars_of(s))
    }

    /// As [`StringTable::intern`], for a string given by its characters.
    pub fn intern_chars(&mut self, s: Vec<char>) -> (slot: u32)
        requires
            old(self).wf(),
        ensures
            final(self).wf(),
            final(self)@ == interned(old(self)@, s@),
            slot == final(self)@.index_of(s@) as u32,
    {
        let ghost was = self@;
        let ghost ks = order::models(self.sorted@);
        let found = locate(&self.sorted, &s);
        let at: usize = found.1;
        if found.0 {
            assert(self.sorted[at as int]@ == s@);
            return self.slots[at];
        }
        proof {
            assert forall|j: int| 0 <= j < at implies Vec::<char>::before(#[trigger] ks[j], s@) by {
                assert(self.sorted[j].model() == ks[j]);
            }
            assert forall|j: int| at <= j < ks.len() implies Vec::<char>::before(s@, #[trigger] ks[j]) by {
                assert(self.sorted[j].model() == ks[j]);
            }
            order::insertion_keeps_order::<Vec<char>>(ks, at as int, s@);
            if was.contains(s@) {
                let i = choose|i: int| 0 <= i < was.len() && was[i] == s@;
                assert(ks.contains(was[i]));
                let j = choose|j: int| 0 <= j < ks.len() && ks[j] == s@;
                assert(ks[j] != s@);
            }
            interned_distinct(was, s@);
        }
        let slot: u32 = self.strings.len() as u32;
        let copy = s.clone();
        assert(copy@ =~= s@);
        let ghost olds = self.sorted@;
        let ghost oldslots = self.slots@;
        self.strings.push(copy);
        self.sorted.insert(at, s);
        self.slots.insert(at, slot);
        proof {
            let now = self@;
            assert(now =~= was.push(s@));
            let nk = order::models(self.sorted@);
            assert(nk =~= ks.insert(at as int, s@));
            index_is_unique(now, was.len() as int);
            assert forall|i: int| 0 <= i < self.sorted.len() implies now.contains(
                (#[trigger] self.sorted[i])@,
            ) && self.slots[i] == now.index_of(self.sorted[i]@) as u32 by {
                if i == at {
                    assert(now[was.len() as int] == s@);
                } else {
                    let o = if i < at { i } else { i - 1 };
                    assert(self.sorted[i] == olds[o]);
                    assert(self.slots[i] == oldslots[o]);
                    assert(was.contains(olds[o]@));
                    index_is_stable(was, now, olds[o]@);
                }
            }
            assert forall|i: int| 0 <= i < now.len() implies nk.contains(#[trigger] now[i]) by {
                if i == was.len() {
                    assert(nk[at as int] == s@);
                } else {
                    assert(ks.contains(was[i]));
                    let j = choose|j: int| 0 <= j < ks.len() && ks[j] == was[i];
                    if j < at {
                        assert(nk[j] == now[i]);
                    } else {
                        assert(nk[j + 1] == now[i]);
                    }
                }
            }
        }
        slot
    }

    /// The strings, in the order of their numbers.
    pub fn into_strings(self) -> (strings: Vec<Vec<char>>)
        requires
            self.wf(),
        ensures
            order::models(strings@) == self@,
    {
        self.strings
    }
}

/// A text keeps its number: it leads back to the text, as far as 32 bits number
/// the texts, texts that were there keep their places, and a text that was
/// there adds nothing.
pub proof fn numbers_lead_to_texts(t: &mut StringTable, s: &str, slot: u32)
    requires
        old(t).wf(),
        call_ensures(StringTable::intern, (t, s), slot),
        final(t)@.len() <= u32::MAX,
    ensures
        slot < final(t)@.len(),
        final(t)@[slot as int] == s@,
        old(t)@.is_prefix_of(final(t)@),
        old(t)@.contains(s@) ==> final(t)@ == old(t)@,
        !old(t)@.contains(s@) ==> slot == old(t)@.len() && final(t)@.len() == old(t)@.len() + 1,
{
    interned_members(old(t)@, s@, s@);
    interned_distinct(old(t)@, s@);
    let k = final(t)@.index_of(s@);
    assert(0 <= k < final(t)@.len() && final(t)@[k] == s@);
    if !old(t)@.contains(s@) {
        index_is_unique(final(t)@, old(t)@.len() as int);
    }
    assert(final(t)@.subrange(0, old(t)@.len() as int) =~= old(t)@);
}

/// The first text is the empty one, and the texts come out in the order of
/// their numbers.
pub proof fn texts_come_out_by_number(fresh: StringTable, t: StringTable, strings: Vec<Vec<char>>)
    requires
        call_ensures(StringTable::new, (), fresh),
        call_ensures(StringTable::into_strings, (t,), strings),
    ensures
        fresh@.len() == 1,
        fresh@[0].len() == 0,
        strings@.len() == t@.len(),
        forall|i: int| 0 <= i < strings@.len() ==> (#[trigger] strings@[i])@ == t@[i],
{
    let models = order::models(strings@);
    assert(models.len() == strings@.len());
    assert forall|i: int| 0 <= i < strings@.len() implies (#[trigger] strings@[i])@ == t@[i] by {
        assert(models[i] == strings@[i]@);
    }
}

/// A text gets the same number whether it is given as a string or by its
/// characters.
pub proof fn strings_and_characters_are_numbered_alike(
    a: &mut StringTable,
    s: &str,
    slot: u32,
    b: &mut StringTable,
    chars: Vec<char>,
    same: u32,
)
    requires
        old(a)@ == old(b)@,
        s@ == chars@,
        call_ensures(StringTable::intern, (a, s), slot),
        call_ensures(StringTable::intern_chars, (b, chars), same),
    ensures
        slot == same,
        final(a)@ == final(b)@,
{
}

} // verus!

//! Strict total orders on keys, and the lexicographic order on sequences.
use vstd::prelude::*;

verus! {

/// Where one key stands relative to another.
#[derive(Clone, Copy, Debug, PartialEq, Eq, Structural)]
pub enum Rank {
    Before,
    Same,
    After,
}

/// A key with a strict total order on its mathematical model.
pub trait SortKey: Sized {
    type Model;

    spec fn model(&self) -> Self::Model;

    /// `a` comes strictly before `b`.
    spec fn before(a: Self::Model, b: Self::Model) -> bool;

    proof fn before_irreflexive(a: Self::Model)
        ensures
            !Self::before(a, a),
    ;

    proof fn before_transitive(a: Self::Model, b: Self::Model, c: Self::Model)
        requires
            Self::before(a, b),
            Self::before(b, c),
        ensures
            Self::before(a, c),
    ;

    proof fn before_total(a: Self::Model, b: Self::Model)
        ensures
            Self::before(a, b) || a == b || Self::before(b, a),
    ;

    fn place(&self, other: &Self) -> (rank: Rank)
        ensures
            match rank {
                Rank::Before => Self::before(self.model(), other.model()),
                Rank::Same => self.model() == other.model(),
                Rank::After => Self::before(other.model(), self.model()),
            },
    ;
}

/// The models of a sequence of keys.
pub open spec fn models<K: SortKey>(keys: Seq<K>) -> Seq<K::Model> {
    Seq::new(keys.len(), |i: int| keys[i].model())
}

/// The sequence ascends strictly, so it holds nothing twice.
pub open spec fn ascending<K: SortKey>(s: Seq<K::Model>) -> bool {
    forall|i: int, j: int| 0 <= i < j < s.len() ==> K::before(#[trigger] s[i], #[trigger] s[j])
}

/// No value occurs twice.
pub open spec fn distinct<M>(s: Seq<M>) -> bool {
    forall|i: int, j: int| 0 <= i < j < s.len() ==> #[trigger] s[i] != #[trigger] s[j]
}

/// Two sequences hold the same values.
pub open spec fn same_members<M>(a: Seq<M>, b: Seq<M>) -> bool {
    &&& forall|i: int| 0 <= i < a.len() ==> b.contains(#[trigger] a[i])
    &&& forall|i: int| 0 <= i < b.len() ==> a.contains(#[trigger] b[i])
}

pub proof fn ascending_is_distinct<K: SortKey>(s: Seq<K::Model>)
    requires
        ascending::<K>(s),
    ensures
        distinct(s),
{
    assert forall|i: int, j: int| 0 <= i < j < s.len() implies #[trigger] s[i] != #[trigger] s[j] by {
        K::before_irreflexive(s[i]);
    }
}

/// A strictly ascending sequence is determined by the values it holds.
pub proof fn ascending_is_unique<K: SortKey>(a: Seq<K::Model>, b: Seq<K::Model>)
    requires
        ascending::<K>(a),
        ascending::<K>(b),
        same_members(a, b),
    ensures
        a == b,
    decreases a.len(),
{
    if a.len() == 0 {
        if b.len() > 0 {
            assert(a.contains(b[0]));
        }
        assert(a =~= b);
    } else {
        assert(b.contains(a[0]));
        let la = a.last();
        let lb = b.last();
        assert(b.contains(a[a.len() - 1]));
        assert(a.contains(b[b.len() - 1]));
        let ib = choose|i: int| 0 <= i < b.len() && b[i] == la;
        let ia = choose|i: int| 0 <= i < a.len() && a[i] == lb;
        if la != lb {
            assert(K::before(b[ib], b[b.len() - 1]));
            assert(K::before(a[ia], a[a.len() - 1]));
            K::before_transitive(la, lb, la);
            K::before_irreflexive(la);
        }
        let ra = a.drop_last();
        let rb = b.drop_last();
        ascending_is_distinct::<K>(a);
        ascending_is_distinct::<K>(b);
        assert forall|i: int| 0 <= i < ra.len() implies rb.contains(#[trigger] ra[i]) by {
            assert(b.contains(a[i]));
            let j = choose|j: int| 0 <= j < b.len() && b[j] == a[i];
            assert(a[i] != a[a.len() - 1]);
            assert(rb[j] == ra[i]);
        }
        assert forall|i: int| 0 <= i < rb.len() implies ra.contains(#[trigger] rb[i]) by {
            assert(a.contains(b[i]));
            let j = choose|j: int| 0 <= j < a.len() && a[j] == b[i];
            assert(b[i] != b[b.len() - 1]);
            assert(ra[j] == rb[i]);
        }
        ascending_is_unique::<K>(ra, rb);
        assert(a =~= ra.push(la));
        assert(b =~= rb.push(lb));
    }
}

/// The place of `key` among strictly ascending `keys`: whether it is there,
/// and the index where it is or belongs.
pub fn locate<K: SortKey>(keys: &Vec<K>, key: &K) -> (found: (bool, usize))
    requires
        ascending::<K>(models(keys@)),
    ensures
        found.1 <= keys.len(),
        found.0 ==> found.1 < keys.len() && keys[found.1 as int].model() == key.model(),
        !found.0 ==> {
            &&& forall|j: int| 0 <= j < found.1 ==> K::before(#[trigger] keys[j].model(), key.model())
            &&& forall|j: int|
                found.1 <= j < keys.len() ==> K::before(key.model(), #[trigger] keys[j].model())
        },
{
    let ghost ms = models(keys@);
    let mut lo: usize = 0;
    let mut hi: usize = keys.len();
    while lo < hi
        invariant
            lo <= hi <= keys.len(),
            ms == models(keys@),
            ascending::<K>(ms),
            forall|j: int| 0 <= j < lo ==> K::before(#[trigger] keys[j].model(), key.model()),
            forall|j: int| hi <= j < keys.len() ==> K::before(key.model(), #[trigger] keys[j].model()),
        decreases hi - lo,
    {
        let mid: usize = lo + (hi - lo) / 2;
        match key.place(&keys[mid]) {
            Rank::Same => {
                return (true, mid);
            },
            Rank::Before => {
                assert forall|j: int| mid <= j < keys.len() implies K::before(
                    key.model(),
                    #[trigger] keys[j].model(),
                ) by {
                    if mid < j {
                        assert(K::before(ms[mid as int], ms[j]));
                        K::before_transitive(key.model(), ms[mid as int], ms[j]);
                    }
                }
                hi = mid;
            },
            Rank::After => {
                assert forall|j: int| 0 <= j < mid + 1 implies K::before(
                    #[trigger] keys[j].model(),
                    key.model(),
                ) by {
                    if j < mid {
                        assert(K::before(ms[j], ms[mid as int]));
                        K::before_transitive(ms[j], ms[mid as int], key.model());
                    }
                }
                lo = mid + 1;
            },
        }
    }
    (false, lo)
}

/// What inserting a key at the place found for it does to the sequence.
pub proof fn insertion_keeps_order<K: SortKey>(keys: Seq<K::Model>, at: int, key: K::Model)
    requires
        0 <= at <= keys.len(),
        ascending::<K>(keys),
        forall|j: int| 0 <= j < at ==> K::before(#[trigger] keys[j], key),
        forall|j: int| at <= j < keys.len() ==> K::before(key, #[trigger] keys[j]),
    ensures
        ascending::<K>(keys.insert(at, key)),
        forall|j: int| 0 <= j < keys.len() ==> #[trigger] keys[j] != key,
{
    let grown = keys.insert(at, key);
    assert forall|i: int, j: int| 0 <= i < j < grown.len() implies K::before(
        #[trigger] grown[i],
        #[trigger] grown[j],
    ) by {
        if i < at && j > at {
            assert(K::before(keys[i], keys[j - 1]));
        } else if i > at {
            assert(K::before(keys[i - 1], keys[j - 1]));
        } else if j < at {
            assert(K::before(keys[i], keys[j]));
        } else if i == at {
            assert(K::before(key, keys[j - 1]));
        } else {
            assert(K::before(keys[i], key));
        }
    }
    assert forall|j: int| 0 <= j < keys.len() implies #[trigger] keys[j] != key by {
        K::before_irreflexive(key);
    }
}

/// Arrange distinct keys in ascending order.
pub fn sort<K: SortKey>(keys: Vec<K>) -> (arranged: Vec<K>)
    requires
        distinct(models(keys@)),
    ensures
        arranged.len() == keys.len(),
        ascending::<K>(models(arranged@)),
        same_members(models(arranged@), models(keys@)),
{
    let ghost all = models(keys@);
    let mut rest = keys;
    let mut arranged: Vec<K> = Vec::new();
    while rest.len() > 0
        invariant
            distinct(all),
            rest.len() + arranged.len() == all.len(),
            forall|i: int| 0 <= i < rest.len() ==> #[trigger] rest[i].model() == all[i],
            ascending::<K>(models(arranged@)),
            forall|i: int|
                rest.len() <= i < all.len() ==> models(arranged@).contains(#[trigger] all[i]),
            forall|j: int|
                0 <= j < arranged.len() ==> all.skip(rest.len() as int).contains(
                    #[trigger] models(arranged@)[j],
                ),
        decreases rest.len(),
    {
        let ghost n = rest.len() as int;
        let ghost was = models(arranged@);
        let ghost tail = all.skip(n);
        if let Some(key) = rest.pop() {
            let found = locate(&arranged, &key);
            let at: usize = found.1;
            let ghost m = key.model();
            proof {
                assert(m == all[n - 1]);
                if found.0 {
                    assert(was[at as int] == m);
                    assert(tail.contains(m));
                    let k = choose|k: int| 0 <= k < tail.len() && tail[k] == m;
                    assert(all[n + k] == all[n - 1]);
                    assert(false);
                }
                assert forall|j: int| 0 <= j < at implies K::before(#[trigger] was[j], m) by {
                    assert(arranged[j].model() == was[j]);
                }
                assert forall|j: int| at <= j < was.len() implies K::before(m, #[trigger] was[j]) by {
                    assert(arranged[j].model() == was[j]);
                }
                insertion_keeps_order::<K>(was, at as int, m);
            }
            arranged.insert(at, key);
            proof {
                let now = models(arranged@);
                assert(now =~= was.insert(at as int, m));
                assert forall|i: int| n - 1 <= i < all.len() implies now.contains(#[trigger] all[i]) by {
                    if i == n - 1 {
                        assert(now[at as int] == all[i]);
                    } else {
                        assert(was.contains(all[i]));
                        let k = choose|k: int| 0 <= k < was.len() && was[k] == all[i];
                        if k < at {
                            assert(now[k] == all[i]);
                        } else {
                            assert(now[k + 1] == all[i]);
                        }
                    }
                }
                let longer = all.skip(n - 1);
                assert forall|j: int| 0 <= j < now.len() implies longer.contains(#[trigger] now[j]) by {
                    if j == at {
                        assert(longer[0] == now[j]);
                    } else {
                        let o = if j < at { j } else { j - 1 };
                        assert(now[j] == was[o]);
                        assert(tail.contains(was[o]));
                        let k = choose|k: int| 0 <= k < tail.len() && tail[k] == was[o];
                        assert(longer[k + 1] == now[j]);
                    }
                }
            }
        }
    }
    proof {
        let now = models(arranged@);
        assert(all.skip(0) =~= all);
    }
    arranged
}

/// There are no more distinct places than there is room for.
pub proof fn distinct_places_fit(places: Seq<int>, room: int)
    requires
        0 <= room,
        distinct(places),
        forall|i: int| 0 <= i < places.len() ==> 0 <= #[trigger] places[i] < room,
    ensures
        places.len() <= room,
        places.len() == room ==> forall|k: int| 0 <= k < room ==> #[trigger] places.contains(k),
{
    assert(places.no_duplicates()) by {
        assert forall|i: int, j: int| 0 <= i < places.len() && 0 <= j < places.len() && i != j implies places[i]
            != places[j] by {
            if i < j {
                assert(places[i] != places[j]);
            } else {
                assert(places[j] != places[i]);
            }
        }
    }
    let range = vstd::set_lib::set_int_range(0, room);
    vstd::set_lib::lemma_int_range(0, room);
    places.unique_seq_to_set();
    assert(places.to_set().subset_of(range));
    vstd::set_lib::lemma_len_subset(places.to_set(), range);
    if places.len() == room {
        vstd::set_lib::lemma_subset_equality(places.to_set(), range);
        assert forall|k: int| 0 <= k < room implies #[trigger] places.contains(k) by {
            assert(range.contains(k));
        }
    }
}

/// `places` lists each place below `room` once.
pub open spec fn is_permutation(places: Seq<int>, room: nat) -> bool {
    &&& places.len() == room
    &&& distinct(places)
    &&& forall|i: int| 0 <= i < places.len() ==> 0 <= #[trigger] places[i] < room
}

/// The values at the given places.
pub open spec fn picked<A>(s: Seq<A>, places: Seq<int>) -> Seq<A> {
    Seq::new(places.len(), |i: int| s[places[i]])
}

/// Reordering keeps the values and how often each occurs.
pub proof fn permutation_keeps_values<A>(s: Seq<A>, places: Seq<int>)
    requires
        is_permutation(places, s.len()),
    ensures
        picked(s, places).to_multiset() == s.to_multiset(),
    decreases s.len(),
{
    broadcast use vstd::multiset::group_multiset_axioms;

    let p = picked(s, places);
    if s.len() == 0 {
        assert(p =~= s);
    } else {
        let n = s.len() - 1;
        distinct_places_fit(places, s.len() as int);
        assert(places.contains(n));
        let at = choose|at: int| 0 <= at < places.len() && places[at] == n;
        let fewer = places.remove(at);
        assert forall|i: int| 0 <= i < fewer.len() implies 0 <= #[trigger] fewer[i] < n by {
            let o = if i < at { i } else { i + 1 };
            assert(fewer[i] == places[o]);
            if o < at {
                assert(places[o] != places[at]);
            } else {
                assert(places[at] != places[o]);
            }
        }
        assert forall|i: int, j: int| 0 <= i < j < fewer.len() implies #[trigger] fewer[i]
            != #[trigger] fewer[j] by {
            let oi = if i < at { i } else { i + 1 };
            let oj = if j < at { j } else { j + 1 };
            assert(places[oi] != places[oj]);
        }
        permutation_keeps_values(s.drop_last(), fewer);
        assert(p.remove(at) =~= picked(s.drop_last(), fewer));
        vstd::seq_lib::to_multiset_remove(p, at);
        vstd::seq_lib::to_multiset_build(s.drop_last(), s.last());
        assert(s =~= s.drop_last().push(s.last()));
        vstd::seq_lib::to_multiset_contains(p, p[at]);
        assert(p.contains(p[at]));
        assert(p.to_multiset() =~= p.to_multiset().remove(p[at]).insert(p[at]));
    }
}

/// The sequences agree on their first `n` elements.
pub open spec fn agree(a: Seq<int>, b: Seq<int>, n: int) -> bool {
    &&& 0 <= n <= a.len()
    &&& n <= b.len()
    &&& forall|k: int| 0 <= k < n ==> #[trigger] a[k] == #[trigger] b[k]
}

/// Lexicographic order: where the sequences first differ `a` is smaller, or
/// `a` is a proper prefix of `b`.
pub open spec fn lex_before(a: Seq<int>, b: Seq<int>) -> bool {
    exists|n: int| #[trigger] agree(a, b, n) && n < b.len() && (n == a.len() || a[n] < b[n])
}

pub proof fn lex_irreflexive(a: Seq<int>)
    ensures
        !lex_before(a, a),
{
}

pub proof fn lex_transitive(a: Seq<int>, b: Seq<int>, c: Seq<int>)
    requires
        lex_before(a, b),
        lex_before(b, c),
    ensures
        lex_before(a, c),
{
    let n = choose|n: int| #[trigger] agree(a, b, n) && n < b.len() && (n == a.len() || a[n] < b[n]);
    let m = choose|m: int| #[trigger] agree(b, c, m) && m < c.len() && (m == b.len() || b[m] < c[m]);
    let k = if n <= m { n } else { m };
    assert forall|i: int| 0 <= i < k implies #[trigger] a[i] == #[trigger] c[i] by {
        assert(a[i] == b[i]);
        assert(b[i] == c[i]);
    }
    assert(agree(a, c, k));
    if n < m {
        assert(b[n] == c[n]);
    } else if m < n {
        assert(a[m] == b[m]);
    }
}

proof fn lex_total_from(a: Seq<int>, b: Seq<int>, n: int)
    requires
        agree(a, b, n),
    ensures
        lex_before(a, b) || a == b || lex_before(b, a),
    decreases a.len() - n,
{
    assert(agree(b, a, n));
    if n < a.len() && n < b.len() && a[n] == b[n] {
        assert(agree(a, b, n + 1));
        lex_total_from(a, b, n + 1);
    } else if n == a.len() && n == b.len() {
        assert(a =~= b);
    }
}

pub proof fn lex_total(a: Seq<int>, b: Seq<int>)
    ensures
        lex_before(a, b) || a == b || lex_before(b, a),
{
    lex_total_from(a, b, 0);
}

/// Machine words as integers.
pub open spec fn words(s: Seq<usize>) -> Seq<int> {
    Seq::new(s.len(), |i: int| s[i] as int)
}

/// Characters as their code points.
pub open spec fn codes(s: Seq<char>) -> Seq<int> {
    Seq::new(s.len(), |i: int| s[i] as int)
}

proof fn words_injective(a: Seq<usize>, b: Seq<usize>)
    requires
        words(a) == words(b),
    ensures
        a == b,
{
    assert(a.len() == words(a).len());
    assert(b.len() == words(b).len());
    assert forall|i: int| 0 <= i < a.len() implies a[i] == b[i] by {
        assert(words(a)[i] == a[i] as int);
        assert(words(b)[i] == b[i] as int);
    }
    assert(a =~= b);
}

proof fn codes_injective(a: Seq<char>, b: Seq<char>)
    requires
        codes(a) == codes(b),
    ensures
        a == b,
{
    assert(a.len() == codes(a).len());
    assert(b.len() == codes(b).len());
    assert forall|i: int| 0 <= i < a.len() implies a[i] == b[i] by {
        assert(codes(a)[i] == a[i] as int);
        assert(codes(b)[i] == b[i] as int);
    }
    assert(a =~= b);
}

/// Stacks are ordered frame by frame.
impl SortKey for Vec<usize> {
    type Model = Seq<usize>;

    open spec fn model(&self) -> Seq<usize> {
        self@
    }

    open spec fn before(a: Seq<usize>, b: Seq<usize>) -> bool {
        lex_before(words(a), words(b))
    }

    proof fn before_irreflexive(a: Seq<usize>) {
        lex_irreflexive(words(a));
    }

    proof fn before_transitive(a: Seq<usize>, b: Seq<usize>, c: Seq<usize>) {
        lex_transitive(words(a), words(b), words(c));
    }

    proof fn before_total(a: Seq<usize>, b: Seq<usize>) {
        lex_total(words(a), words(b));
        if words(a) == words(b) {
            words_injective(a, b);
        }
    }

    fn place(&self, other: &Self) -> (rank: Rank) {
        let ghost a = words(self@);
        let ghost b = words(other@);
        let mut i: usize = 0;
        while i < self.len() && i < other.len() && self[i] == other[i]
            invariant
                a == words(self@),
                b == words(other@),
                agree(a, b, i as int),
            decreases self.len() - i,
        {
            i = i + 1;
        }
        assert(agree(b, a, i as int));
        if i == self.len() && i == other.len() {
            assert(a =~= b);
            proof {
                words_injective(self@, other@);
            }
            Rank::Same
        } else if i == self.len() {
            Rank::Before
        } else if i == other.len() {
            Rank::After
        } else if self[i] < other[i] {
            Rank::Before
        } else {
            Rank::After
        }
    }
}

/// Text is ordered by the code points of its characters.
impl SortKey for Vec<char> {
    type Model = Seq<char>;

    open spec fn model(&self) -> Seq<char> {
        self@
    }

    open spec fn before(a: Seq<char>, b: Seq<char>) -> bool {
        lex_before(codes(a), codes(b))
    }

    proof fn before_irreflexive(a: Seq<char>) {
        lex_irreflexive(codes(a));
    }

    proof fn before_transitive(a: Seq<char>, b: Seq<char>, c: Seq<char>) {
        lex_transitive(codes(a), codes(b), codes(c));
    }

    proof fn before_total(a: Seq<char>, b: Seq<char>) {
        lex_total(codes(a), codes(b));
        if codes(a) == codes(b) {
            codes_injective(a, b);
        }
    }

    fn place(&self, other: &Self) -> (rank: Rank) {
        let ghost a = codes(self@);
        let ghost b = codes(other@);
        let mut i: usize = 0;
        while i < self.len() && i < other.len() && self[i] == other[i]
            invariant
                a == codes(self@),
                b == codes(other@),
                agree(a, b, i as int),
            decreases self.len() - i,
        {
            i = i + 1;
        }
        assert(agree(b, a, i as int));
        if i == self.len() && i == other.len() {
            assert(a =~= b);
            proof {
                codes_injective(self@, other@);
            }
            Rank::Same
        } else if i == self.len() {
            Rank::Before
        } else if i == other.len() {
            Rank::After
        } else if self[i] < other[i] {
            Rank::Before
        } else {
            Rank::After
        }
    }
}

/// Texts and rows of words are ordered by their first difference: the one with
/// the smaller value there comes first, and a proper prefix comes before what
/// it starts.
pub proof fn the_first_difference_decides(a: Seq<char>, b: Seq<char>, c: Seq<usize>, d: Seq<usize>)
    ensures
        lex_before(codes(a), codes(b)) <==> exists|n: int|
            {
                &&& 0 <= n <= a.len()
                &&& n < b.len()
                &&& #[trigger] a.take(n) == b.take(n)
                &&& n == a.len() || (a[n] as int) < (b[n] as int)
            },
        lex_before(words(c), words(d)) <==> exists|n: int|
            {
                &&& 0 <= n <= c.len()
                &&& n < d.len()
                &&& #[trigger] c.take(n) == d.take(n)
                &&& n == c.len() || c[n] < d[n]
            },
{
    let ca = codes(a);
    let cb = codes(b);
    if lex_before(ca, cb) {
        let n = choose|n: int|
            #[trigger] agree(ca, cb, n) && n < cb.len() && (n == ca.len() || ca[n] < cb[n]);
        assert forall|k: int| 0 <= k < n implies a[k] == b[k] by {
            assert(ca[k] == cb[k]);
        }
        assert(a.take(n) =~= b.take(n));
    }
    if exists|n: int|
        {
            &&& 0 <= n <= a.len()
            &&& n < b.len()
            &&& #[trigger] a.take(n) == b.take(n)
            &&& n == a.len() || (a[n] as int) < (b[n] as int)
        } {
        let n = choose|n: int|
            {
                &&& 0 <= n <= a.len()
                &&& n < b.len()
                &&& #[trigger] a.take(n) == b.take(n)
                &&& n == a.len() || (a[n] as int) < (b[n] as int)
            };
        assert forall|k: int| 0 <= k < n implies #[trigger] ca[k] == #[trigger] cb[k] by {
            assert(a.take(n)[k] == b.take(n)[k]);
        }
        assert(agree(ca, cb, n));
    }
    let wc = words(c);
    let wd = words(d);
    if lex_before(wc, wd) {
        let n = choose|n: int|
            #[trigger] agree(wc, wd, n) && n < wd.len() && (n == wc.len() || wc[n] < wd[n]);
        assert forall|k: int| 0 <= k < n implies c[k] == d[k] by {
            assert(wc[k] == wd[k]);
        }
        assert(c.take(n) =~= d.take(n));
    }
    if exists|n: int|
        {
            &&& 0 <= n <= c.len()
            &&& n < d.len()
            &&& #[trigger] c.take(n) == d.take(n)
            &&& n == c.len() || c[n] < d[n]
        } {
        let n = choose|n: int|
            {
                &&& 0 <= n <= c.len()
                &&& n < d.len()
                &&& #[trigger] c.take(n) == d.take(n)
                &&& n == c.len() || c[n] < d[n]
            };
        assert forall|k: int| 0 <= k < n implies #[trigger] wc[k] == #[trigger] wd[k] by {
            assert(c.take(n)[k] == d.take(n)[k]);
        }
        assert(agree(wc, wd, n));
    }
}

/// Sorting keeps every key and adds none, and puts each before those that come
/// after it.
pub proof fn sorting_rearranges<K: SortKey>(keys: Vec<K>, arranged: Vec<K>, i: int, j: int)
    requires
        call_ensures(sort::<K>, (keys,), arranged),
        0 <= i < j < arranged@.len(),
    ensures
        arranged@.len() == keys@.len(),
        K::before(arranged@[i].model(), arranged@[j].model()),
        forall|k: int|
            0 <= k < keys@.len() ==> models(arranged@).contains((#[trigger] keys@[k]).model()),
        exists|k: int| 0 <= k < keys@.len() && (#[trigger] keys@[k]).model() == arranged@[i].model(),
{
    let ms = models(arranged@);
    let all = models(keys@);
    assert(ms[i] == arranged@[i].model() && ms[j] == arranged@[j].model());
    assert forall|k: int| 0 <= k < keys@.len() implies ms.contains((#[trigger] keys@[k]).model()) by {
        assert(all[k] == keys@[k].model());
        assert(ms.contains(all[k]));
    }
    assert(all.contains(ms[i]));
    let k = choose|k: int| 0 <= k < all.len() && all[k] == ms[i];
    assert(keys@[k].model() == arranged@[i].model());
}

/// A key is found exactly where it is there, and otherwise the place is told
/// where it belongs: behind all that come before it.
pub proof fn keys_are_found_where_they_are<K: SortKey>(
    keys: &Vec<K>,
    key: &K,
    found: (bool, usize),
)
    requires
        ascending::<K>(models(keys@)),
        call_ensures(locate::<K>, (keys, key), found),
    ensures
        found.0 <==> models(keys@).contains(key.model()),
        found.0 ==> models(keys@)[found.1 as int] == key.model(),
        !found.0 ==> ascending::<K>(models(keys@).insert(found.1 as int, key.model())),
{
    let ms = models(keys@);
    if found.0 {
        assert(ms[found.1 as int] == key.model());
    } else {
        assert forall|j: int| 0 <= j < found.1 implies K::before(#[trigger] ms[j], key.model()) by {
            assert(keys@[j].model() == ms[j]);
        }
        assert forall|j: int| found.1 <= j < ms.len() implies K::before(key.model(), #[trigger] ms[j]) by {
            assert(keys@[j].model() == ms[j]);
        }
        insertion_keeps_order::<K>(ms, found.1 as int, key.model());
        if ms.contains(key.model()) {
            let j = choose|j: int| 0 <= j < ms.len() && ms[j] == key.model();
            K::before_irreflexive(key.model());
            assert(K::before(ms[j], key.model()) || K::before(key.model(), ms[j]));
        }
    }
}

} // verus!

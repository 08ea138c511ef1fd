//! Hash tables: names to numbers, and sets of registers.
use rustc_hash::FxHashMap;
use rustc_hash::FxHashSet;
use vstd::prelude::*;

verus! {

/// The hasher that rustc-hash builds its tables with.
#[verifier::external_type_specification]
#[verifier::external_body]
pub struct ExFxBuildHasher(rustc_hash::FxBuildHasher);

/// What a table from names to numbers holds.
pub uninterp spec fn name_map(m: FxHashMap<String, usize>) -> Map<Seq<char>, usize>;

pub open spec fn no_names() -> Map<Seq<char>, usize> {
    Map::empty()
}

pub open spec fn name_get(m: FxHashMap<String, usize>, k: Seq<char>) -> Option<usize> {
    if name_map(m).contains_key(k) {
        Some(name_map(m)[k])
    } else {
        None
    }
}

/// `FxHashMap::default` makes a table that holds nothing.
#[verifier::external_body]
pub(crate) fn names_new() -> (res: FxHashMap<String, usize>)
    ensures
        name_map(res) == no_names(),
{
    FxHashMap::default()
}

/// `FxHashMap::get` finds the number that the table holds for a name.
#[verifier::external_body]
pub(crate) fn names_get(m: &FxHashMap<String, usize>, k: &str) -> (res: Option<usize>)
    ensures
        res == name_get(*m, k@),
{
    m.get(k).copied()
}

/// `FxHashMap::insert` makes the table hold the number for the name, in place of
/// what it held for it before.
#[verifier::external_body]
pub(crate) fn names_insert(m: &mut FxHashMap<String, usize>, k: String, v: usize)
    ensures
        name_map(*final(m)) == name_map(*old(m)).insert(k@, v),
{
    m.insert(k, v);
}

/// `FxHashSet::default` makes an empty set.
#[verifier::external_body]
pub(crate) fn set_new() -> (res: FxHashSet<usize>)
    ensures
        res@ == Set::<usize>::empty(),
{
    FxHashSet::default()
}

/// `FxHashSet::insert` adds a member.
#[verifier::external_body]
pub(crate) fn set_insert(s: &mut FxHashSet<usize>, v: usize)
    ensures
        final(s)@ == old(s)@.insert(v),
{
    s.insert(v);
}

/// `FxHashSet::into_iter` gives out each member once, in an order that is left
/// open.
#[verifier::external_body]
pub(crate) fn set_members(s: FxHashSet<usize>) -> (res: Vec<usize>)
    ensures
        res@.no_duplicates(),
        res@.to_set() == s@,
{
    s.into_iter().collect()
}

/// `sort_unstable` on a slice of numbers orders them.
#[verifier::external_body]
pub(crate) fn sort_numbers(v: &mut Vec<usize>)
    ensures
        final(v)@.to_multiset() == old(v)@.to_multiset(),
        forall|i: int, j: int| 0 <= i <= j < final(v)@.len() ==> final(v)@[i] <= final(v)@[j],
{
    v.sort_unstable();
}

pub open spec fn increasing(s: Seq<usize>) -> bool {
    forall|i: int, j: int| 0 <= i < j < s.len() ==> s[i] < s[j]
}

/// The members of a set in increasing order.
pub open spec fn listing(s: Set<usize>) -> Seq<usize> {
    choose|q: Seq<usize>| increasing(q) && q.to_set() == s
}

proof fn lemma_listing_unique(a: Seq<usize>, b: Seq<usize>)
    requires
        increasing(a),
        increasing(b),
        a.to_set() == b.to_set(),
    ensures
        a == b,
    decreases a.len(),
{
    if a.len() == 0 {
        if b.len() > 0 {
            assert(b.to_set().contains(b[0]));
            assert(false);
        }
        assert(a =~= b);
    } else {
        assert(a.to_set().contains(a.last()));
        assert(b.contains(a.last()));
        let i = choose|i: int| 0 <= i < b.len() && b[i] == a.last();
        assert(b.to_set().contains(b.last()));
        assert(a.contains(b.last()));
        let j = choose|j: int| 0 <= j < a.len() && a[j] == b.last();
        assert(a.last() == b.last());
        let x = a.drop_last();
        let y = b.drop_last();
        assert(x.to_set() =~= y.to_set()) by {
            assert forall|v: usize| x.to_set().contains(v) == y.to_set().contains(v) by {
                if x.to_set().contains(v) {
                    let k = choose|k: int| 0 <= k < x.len() && x[k] == v;
                    assert(a[k] == v && v < a.last());
                    assert(a.to_set().contains(v));
                    assert(b.contains(v));
                    let m = choose|m: int| 0 <= m < b.len() && b[m] == v;
                    assert(y[m] == v);
                }
                if y.to_set().contains(v) {
                    let k = choose|k: int| 0 <= k < y.len() && y[k] == v;
                    assert(b[k] == v && v < b.last());
                    assert(b.to_set().contains(v));
                    assert(a.contains(v));
                    let m = choose|m: int| 0 <= m < a.len() && a[m] == v;
                    assert(x[m] == v);
                }
            }
        }
        lemma_listing_unique(x, y);
        assert(a =~= x.push(a.last()));
        assert(b =~= y.push(b.last()));
    }
}

/// Numbers below a bound can be listed in increasing order.
proof fn lemma_listing_exists(s: Set<usize>, n: nat) -> (q: Seq<usize>)
    requires
        n <= usize::MAX,
    ensures
        increasing(q),
        forall|x: usize| #[trigger] q.contains(x) <==> s.contains(x) && x < n,
    decreases n,
{
    if n == 0 {
        Seq::empty()
    } else {
        let last = (n - 1) as usize;
        let p = lemma_listing_exists(s, (n - 1) as nat);
        if s.contains(last) {
            let q = p.push(last);
            assert forall|i: int, j: int| 0 <= i < j < q.len() implies q[i] < q[j] by {
                assert(p.contains(p[i]));
            }
            assert forall|x: usize| #[trigger] q.contains(x) <==> s.contains(x) && x < n by {
                if q.contains(x) {
                    let i = choose|i: int| 0 <= i < q.len() && q[i] == x;
                    if i < p.len() {
                        assert(p[i] == x);
                        assert(p.contains(x));
                    }
                }
                if s.contains(x) && x < n {
                    if x == last {
                        assert(q[p.len() as int] == x);
                    } else {
                        assert(p.contains(x));
                        let i = choose|i: int| 0 <= i < p.len() && p[i] == x;
                        assert(q[i] == x);
                    }
                }
            }
            q
        } else {
            assert forall|x: usize| #[trigger] p.contains(x) <==> s.contains(x) && x < n by {
                assert(p.contains(x) <==> s.contains(x) && x < n - 1);
            }
            p
        }
    }
}

/// The listing of numbers below a bound keeps the bound.
pub proof fn lemma_listing_below(s: Set<usize>, n: nat)
    requires
        n <= usize::MAX,
        forall|x: usize| #[trigger] s.contains(x) ==> x < n,
    ensures
        forall|k: int| 0 <= k < listing(s).len() ==> #[trigger] listing(s)[k] < n,
{
    let q = lemma_listing_exists(s, n);
    assert(q.to_set() =~= s) by {
        assert forall|x: usize| q.to_set().contains(x) <==> s.contains(x) by {
            assert(q.contains(x) <==> s.contains(x) && x < n);
        }
    }
    let l = listing(s);
    assert(increasing(l) && l.to_set() == s);
    assert forall|k: int| 0 <= k < l.len() implies #[trigger] l[k] < n by {
        assert(l.to_set().contains(l[k]));
    }
}

/// The members of a set in increasing order.
pub(crate) fn list_set(s: FxHashSet<usize>) -> (res: Vec<usize>)
    ensures
        res@ == listing(s@),
        increasing(res@),
        res@.to_set() == s@,
{
    let ghost members = s@;
    let mut v = set_members(s);
    let ghost before = v@;
    sort_numbers(&mut v);
    proof {
        broadcast use vstd::seq_lib::group_to_multiset_ensures;

        before.lemma_multiset_has_no_duplicates();
        v@.lemma_multiset_has_no_duplicates_conv();
        assert(increasing(v@));
        assert(v@.to_set() =~= members) by {
            assert forall|x: usize| v@.to_set().contains(x) == members.contains(x) by {
                assert(v@.contains(x) <==> v@.to_multiset().count(x) > 0);
                assert(before.contains(x) <==> before.to_multiset().count(x) > 0);
                assert(before.to_set().contains(x) <==> before.contains(x));
            }
        }
        let q = listing(members);
        assert(increasing(q) && q.to_set() == members);
        lemma_listing_unique(v@, q);
    }
    v
}

/// A list of texts without repetition, with the place of each.
pub struct StringPool {
    strings: Vec<String>,
    places: FxHashMap<String, usize>,
}

impl View for StringPool {
    type V = Seq<Seq<char>>;

    closed spec fn view(&self) -> Seq<Seq<char>> {
        self.strings@.map_values(|s: String| s@)
    }
}

/// Where a text stands in a list.
pub open spec fn place_of(strings: Seq<Seq<char>>, s: Seq<char>) -> int {
    strings.index_of(s)
}

/// The list with the text in it.
pub open spec fn with_text(strings: Seq<Seq<char>>, s: Seq<char>) -> Seq<Seq<char>> {
    if strings.contains(s) {
        strings
    } else {
        strings.push(s)
    }
}

impl StringPool {
    pub closed spec fn wf(&self) -> bool {
        &&& self@.no_duplicates()
        &&& forall|k: int|
            0 <= k < self@.len() ==> name_get(self.places, #[trigger] self@[k]) == Some(k as usize)
                && k <= usize::MAX
        &&& forall|s: Seq<char>|
            #![trigger name_get(self.places, s)]
            name_get(self.places, s) matches Some(k) ==> 0 <= k < self@.len() && self@[k as int]
                == s
    }

    pub fn new() -> (res: Self)
        ensures
            res.wf(),
            res@ == Seq::<Seq<char>>::empty(),
    {
        let res = StringPool { strings: Vec::new(), places: names_new() };
        assert(res@ =~= Seq::<Seq<char>>::empty());
        res
    }

    pub proof fn lemma_no_duplicates(&self)
        requires
            self.wf(),
        ensures
            self@.no_duplicates(),
    {
    }

    /// The place of the text, which is added at the end where it is missing.
    pub fn intern(&mut self, s: &str) -> (res: usize)
        requires
            old(self).wf(),
        ensures
            final(self).wf(),
            final(self)@ == with_text(old(self)@, s@),
            res == place_of(final(self)@, s@),
            res < final(self)@.len(),
    {
        if let Some(k) = names_get(&self.places, s) {
            proof {
                assert(self@[k as int] == s@);
                let i = self@.index_of(s@);
                assert(0 <= i < self@.len() && self@[i] == s@);
            }
            k
        } else {
            let k: usize = self.strings.len();
            let ghost before = self@;
            let ghost places = self.places;
            proof {
                assert(!before.contains(s@)) by {
                    if before.contains(s@) {
                        let i = choose|i: int| 0 <= i < before.len() && before[i] == s@;
                        assert(name_get(places, before[i]) == Some(i as usize));
                    }
                }
            }
            self.strings.push(s.to_owned());
            names_insert(&mut self.places, s.to_owned(), k);
            proof {
                assert(self@ =~= before.push(s@));
                assert forall|i: int| 0 <= i < self@.len() implies name_get(
                    self.places,
                    #[trigger] self@[i],
                ) == Some(i as usize) && i <= usize::MAX by {
                    if i < before.len() {
                        assert(name_get(places, before[i]) == Some(i as usize));
                    }
                }
                assert forall|t: Seq<char>|
                    #![trigger name_get(self.places, t)]
                    name_get(self.places, t) matches Some(j) implies 0 <= name_get(self.places, t)->0
                    < self@.len() && self@[name_get(self.places, t)->0 as int] == t by {
                    if t != s@ {
                        assert(name_get(places, t) == name_get(self.places, t));
                    }
                }
                let i = self@.index_of(s@);
                assert(self@[k as int] == s@);
                assert(0 <= i < self@.len() && self@[i] == s@);
            }
            k
        }
    }

    /// The texts in their order.
    pub fn into_strings(self) -> (res: Vec<String>)
        ensures
            res@.map_values(|s: String| s@) == self@,
    {
        self.strings
    }
}

/// A text is entered once: entering it again changes nothing, it is found at
/// its place, and no text that was there has moved.
pub proof fn law_texts_are_entered_once(strings: Seq<Seq<char>>, s: Seq<char>, k: int)
    requires
        strings.no_duplicates(),
    ensures
        with_text(strings, s).no_duplicates(),
        with_text(with_text(strings, s), s) == with_text(strings, s),
        0 <= place_of(with_text(strings, s), s) < with_text(strings, s).len(),
        with_text(strings, s)[place_of(with_text(strings, s), s)] == s,
        0 <= k < strings.len() ==> with_text(strings, s)[k] == strings[k] && place_of(
            with_text(strings, s),
            strings[k],
        ) == k,
{
    let after = with_text(strings, s);
    if !strings.contains(s) {
        assert(after[strings.len() as int] == s);
        assert forall|i: int, j: int| 0 <= i < j < after.len() implies after[i] != after[j] by {
            if j == strings.len() {
                assert(strings.contains(strings[i]));
            }
        }
    }
    assert(after.contains(s));
    let i = after.index_of(s);
    assert(0 <= i < after.len() && after[i] == s);
    if 0 <= k < strings.len() {
        assert(after[k] == strings[k]);
        let j = after.index_of(strings[k]);
        assert(0 <= j < after.len() && after[j] == strings[k]);
    }
}

} // verus!

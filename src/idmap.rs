use vstd::prelude::*;

verus! {

/// Entries ordered by strictly increasing key.
pub open spec fn sorted_keys<V>(s: Seq<(u128, V)>) -> bool {
    forall|i: int, j: int| 0 <= i < j < s.len() ==> s[i].0 < s[j].0
}

pub open spec fn has_key<V>(s: Seq<(u128, V)>, k: u128) -> bool {
    exists|i: int| 0 <= i < s.len() && s[i].0 == k
}

/// The map that a list of entries with distinct keys stands for.
pub open spec fn entries_map<V>(s: Seq<(u128, V)>) -> Map<u128, V> {
    Map::new(
        |k: u128| has_key(s, k),
        |k: u128| s[choose|i: int| 0 <= i < s.len() && s[i].0 == k].1,
    )
}

/// Each entry of an ordered list is what its map holds for its key.
pub proof fn lemma_entry_in_map<V>(s: Seq<(u128, V)>, i: int)
    requires
        sorted_keys(s),
        0 <= i < s.len(),
    ensures
        entries_map(s).contains_key(s[i].0),
        entries_map(s)[s[i].0] == s[i].1,
{
    assert(has_key(s, s[i].0));
    let j = choose|j: int| 0 <= j < s.len() && s[j].0 == s[i].0;
    if j < i {
        assert(s[j].0 < s[i].0);
    } else if i < j {
        assert(s[i].0 < s[j].0);
    }
}

/// Two ordered entry lists that stand for the same map are the same list.
pub proof fn lemma_sorted_entries_unique<V>(a: Seq<(u128, V)>, b: Seq<(u128, V)>)
    requires
        sorted_keys(a),
        sorted_keys(b),
        entries_map(a) == entries_map(b),
    ensures
        a == b,
    decreases a.len() + b.len(),
{
    if a.len() == 0 {
        if b.len() > 0 {
            lemma_entry_in_map(b, 0);
        }
        assert(b.len() == 0);
        assert(a =~= b);
    } else if b.len() == 0 {
        lemma_entry_in_map(a, 0);
    } else {
        let la = a.last();
        let lb = b.last();
        lemma_entry_in_map(a, a.len() - 1);
        lemma_entry_in_map(b, b.len() - 1);
        let ia = choose|i: int| 0 <= i < b.len() && b[i].0 == la.0;
        let ib = choose|i: int| 0 <= i < a.len() && a[i].0 == lb.0;
        if ia < b.len() - 1 {
            assert(b[ia].0 < lb.0);
        }
        if ib < a.len() - 1 {
            assert(a[ib].0 < la.0);
        }
        assert(la.0 == lb.0);
        let a2 = a.drop_last();
        let b2 = b.drop_last();
        assert forall|k: u128| entries_map(a2).contains_key(k) <==> entries_map(b2).contains_key(k) by {
            if has_key(a2, k) {
                let i = choose|i: int| 0 <= i < a2.len() && a2[i].0 == k;
                lemma_entry_in_map(a, i);
                assert(a[i] == a2[i]);
                assert(has_key(b, k));
                let j = choose|j: int| 0 <= j < b.len() && b[j].0 == k;
                assert(a[i].0 < la.0);
                assert(j != b.len() - 1);
                assert(b2[j].0 == k);
            }
            if has_key(b2, k) {
                let i = choose|i: int| 0 <= i < b2.len() && b2[i].0 == k;
                lemma_entry_in_map(b, i);
                assert(b[i] == b2[i]);
                assert(has_key(a, k));
                let j = choose|j: int| 0 <= j < a.len() && a[j].0 == k;
                assert(b[i].0 < lb.0);
                assert(j != a.len() - 1);
                assert(a2[j].0 == k);
            }
        }
        assert forall|k: u128| #[trigger] entries_map(a2).contains_key(k) implies entries_map(a2)[k]
            == entries_map(b2)[k] by {
            let i = choose|i: int| 0 <= i < a2.len() && a2[i].0 == k;
            let j = choose|j: int| 0 <= j < b2.len() && b2[j].0 == k;
            lemma_entry_in_map(a2, i);
            lemma_entry_in_map(b2, j);
            lemma_entry_in_map(a, i);
            lemma_entry_in_map(b, j);
        }
        assert(entries_map(a2) =~= entries_map(b2));
        lemma_sorted_entries_unique(a2, b2);
        assert(la.1 == lb.1);
        assert(a =~= a2.push(la));
        assert(b =~= b2.push(lb));
    }
}

/// Walking ordered entries one at a time builds their map by inserts.
pub proof fn lemma_prefix_step<V>(s: Seq<(u128, V)>, i: int)
    requires
        sorted_keys(s),
        0 <= i < s.len(),
    ensures
        sorted_keys(s.take(i)),
        sorted_keys(s.take(i + 1)),
        entries_map(s.take(i + 1)) == entries_map(s.take(i)).insert(s[i].0, s[i].1),
        entries_map(s.take(0)) == Map::<u128, V>::empty(),
        entries_map(s.take(s.len() as int)) == entries_map(s),
{
    let a = s.take(i);
    let b = s.take(i + 1);
    assert forall|k: u128| #[trigger] entries_map(b).contains_key(k) <==> entries_map(a).insert(
        s[i].0,
        s[i].1,
    ).contains_key(k) by {
        if has_key(b, k) && k != s[i].0 {
            let j = choose|j: int| 0 <= j < b.len() && b[j].0 == k;
            assert(a[j].0 == k);
        }
        if has_key(a, k) {
            let j = choose|j: int| 0 <= j < a.len() && a[j].0 == k;
            assert(b[j].0 == k);
        }
        if k == s[i].0 {
            assert(b[i].0 == k);
        }
    }
    assert forall|k: u128| #[trigger] entries_map(b).contains_key(k) implies entries_map(b)[k]
        == entries_map(a).insert(s[i].0, s[i].1)[k] by {
        let j = choose|j: int| 0 <= j < b.len() && b[j].0 == k;
        lemma_entry_in_map(b, j);
        if j < i {
            lemma_entry_in_map(a, j);
        }
    }
    assert(entries_map(b) =~= entries_map(a).insert(s[i].0, s[i].1));
    assert(entries_map(s.take(0)) =~= Map::<u128, V>::empty());
    assert(s.take(s.len() as int) =~= s);
}

/// A map keyed by 128-bit identifiers, kept as entries in increasing key order.
pub struct IdMap<V> {
    items: Vec<(u128, V)>,
}

impl<V> View for IdMap<V> {
    type V = Map<u128, V>;

    closed spec fn view(&self) -> Map<u128, V> {
        entries_map(self.items@)
    }
}

impl<V> IdMap<V> {
    /// The entries in increasing key order.
    pub closed spec fn entries(&self) -> Seq<(u128, V)> {
        self.items@
    }

    pub closed spec fn wf(&self) -> bool {
        sorted_keys(self.items@)
    }

    /// A well-formed map is the map of its ordered entries.
    pub proof fn lemma_view(&self)
        requires
            self.wf(),
        ensures
            sorted_keys(self.entries()),
            self@ == entries_map(self.entries()),
    {
    }

    pub fn new() -> (r: Self)
        ensures
            r.wf(),
            r@ == Map::<u128, V>::empty(),
            r.entries().len() == 0,
    {
        let r = IdMap { items: Vec::new() };
        assert(entries_map(r.items@) =~= Map::<u128, V>::empty());
        r
    }

    /// Whether the entries are in strictly increasing key order.
    pub fn is_well_formed(&self) -> (r: bool)
        ensures
            r == self.wf(),
    {
        let mut i: usize = 1;
        if self.items.len() == 0 {
            return true;
        }
        while i < self.items.len()
            invariant
                1 <= i <= self.items@.len(),
                forall|a: int, b: int| 0 <= a < b < i ==> self.items@[a].0 < self.items@[b].0,
            decreases self.items@.len() - i,
        {
            if self.items[i - 1].0 >= self.items[i].0 {
                return false;
            }
            i += 1;
        }
        true
    }

    pub fn len(&self) -> (r: usize)
        ensures
            r == self.entries().len(),
    {
        self.items.len()
    }

    /// The key and value of the `i`-th entry in key order.
    pub fn entry(&self, i: usize) -> (r: (u128, &V))
        requires
            i < self.entries().len(),
        ensures
            r.0 == self.entries()[i as int].0,
            *r.1 == self.entries()[i as int].1,
    {
        (self.items[i].0, &self.items[i].1)
    }

    /// The first position whose key is not below `k`.
    fn position(&self, k: u128) -> (r: usize)
        requires
            self.wf(),
        ensures
            r <= self.entries().len(),
            forall|i: int| 0 <= i < r ==> self.entries()[i].0 < k,
            r < self.entries().len() ==> self.entries()[r as int].0 >= k,
    {
        let mut p: usize = 0;
        while p < self.items.len()
            invariant
                0 <= p <= self.items@.len(),
                forall|i: int| 0 <= i < p ==> self.items@[i].0 < k,
            decreases self.items@.len() - p,
        {
            if self.items[p].0 >= k {
                return p;
            }
            p += 1;
        }
        p
    }

    pub fn get(&self, k: u128) -> (r: Option<&V>)
        requires
            self.wf(),
        ensures
            match r {
                Some(v) => self@.contains_key(k) && *v == self@[k],
                None => !self@.contains_key(k),
            },
    {
        let p = self.position(k);
        if p < self.items.len() && self.items[p].0 == k {
            proof {
                lemma_entry_in_map(self.items@, p as int);
            }
            Some(&self.items[p].1)
        } else {
            proof {
                if has_key(self.items@, k) {
                    let i = choose|i: int| 0 <= i < self.items@.len() && self.items@[i].0 == k;
                    if i >= p {
                        if i > p {
                            assert(self.items@[p as int].0 < self.items@[i].0);
                        }
                    }
                }
            }
            None
        }
    }

    pub fn contains_key(&self, k: u128) -> (r: bool)
        requires
            self.wf(),
        ensures
            r == self@.contains_key(k),
    {
        self.get(k).is_some()
    }

    /// Sets the value of `k`, replacing any earlier value.
    pub fn insert(&mut self, k: u128, v: V)
        requires
            old(self).wf(),
        ensures
            final(self).wf(),
            final(self)@ == old(self)@.insert(k, v),
    {
        let p = self.position(k);
        let ghost s0 = self.items@;
        if p < self.items.len() && self.items[p].0 == k {
            self.items.set(p, (k, v));
        } else {
            self.items.insert(p, (k, v));
        }
        let ghost s1 = self.items@;
        assert(sorted_keys(s1)) by {
            assert forall|i: int, j: int| 0 <= i < j < s1.len() implies s1[i].0 < s1[j].0 by {
                if s1.len() != s0.len() {
                    if i < p && j > p {
                        assert(s1[j] == s0[j - 1]);
                    } else if i > p {
                        assert(s1[i] == s0[i - 1]);
                        assert(s1[j] == s0[j - 1]);
                    }
                } else {
                }
            }
        }
        assert forall|key: u128| #[trigger] entries_map(s1).contains_key(key) <==> entries_map(s0).insert(
            k,
            v,
        ).contains_key(key) by {
            if has_key(s1, key) && key != k {
                let i = choose|i: int| 0 <= i < s1.len() && s1[i].0 == key;
                if s1.len() != s0.len() {
                    if i < p {
                        assert(s0[i].0 == key);
                    } else {
                        assert(s0[i - 1].0 == key);
                    }
                } else {
                    assert(s0[i].0 == key);
                }
            }
            if has_key(s0, key) {
                let i = choose|i: int| 0 <= i < s0.len() && s0[i].0 == key;
                if s1.len() != s0.len() {
                    if i < p {
                        assert(s1[i].0 == key);
                    } else {
                        assert(s1[i + 1].0 == key);
                    }
                } else {
                    assert(s1[i].0 == key);
                }
            }
            if key == k {
                assert(s1[p as int].0 == k);
            }
        }
        assert forall|key: u128| #[trigger] entries_map(s1).contains_key(key) implies entries_map(s1)[key]
            == entries_map(s0).insert(k, v)[key] by {
            let i = choose|i: int| 0 <= i < s1.len() && s1[i].0 == key;
            lemma_entry_in_map(s1, i);
            if key != k {
                if s1.len() != s0.len() {
                    if i < p {
                        lemma_entry_in_map(s0, i);
                    } else {
                        lemma_entry_in_map(s0, i - 1);
                    }
                } else {
                    lemma_entry_in_map(s0, i);
                }
            } else {
                lemma_entry_in_map(s1, p as int);
            }
        }
        assert(entries_map(s1) =~= entries_map(s0).insert(k, v));
    }
}

impl<V: Copy> IdMap<V> {
    /// A copy with the same entries.
    pub fn duplicate(&self) -> (r: Self)
        ensures
            r.entries() == self.entries(),
            r@ == self@,
            r.wf() == self.wf(),
    {
        let mut items: Vec<(u128, V)> = Vec::new();
        let mut i: usize = 0;
        while i < self.items.len()
            invariant
                0 <= i <= self.items@.len(),
                items@ == self.items@.take(i as int),
            decreases self.items@.len() - i,
        {
            let e = self.items[i];
            items.push(e);
            assert(items@ =~= self.items@.take(i + 1));
            i += 1;
        }
        assert(self.items@.take(self.items@.len() as int) =~= self.items@);
        IdMap { items }
    }
}

} // verus!

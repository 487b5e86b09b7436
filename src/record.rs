use vstd::prelude::*;

verus! {

/// The value that the pairs `s` give the key `k`: the first match wins.
pub open spec fn lookup(s: Seq<(Seq<char>, Seq<char>)>, k: Seq<char>) -> Option<Seq<char>>
    decreases s.len(),
{
    if s.len() == 0 {
        None
    } else if s[0].0 == k {
        Some(s[0].1)
    } else {
        lookup(s.drop_first(), k)
    }
}

/// No key occurs twice among the pairs.
pub open spec fn keys_unique(s: Seq<(Seq<char>, Seq<char>)>) -> bool {
    forall|a: int, b: int| 0 <= a < s.len() && 0 <= b < s.len() && a != b ==> #[trigger] s[a].0 != #[trigger] s[b].0
}

/// `lookup` finds the first pair with the key, and nothing when none has it.
pub proof fn lemma_lookup(s: Seq<(Seq<char>, Seq<char>)>, k: Seq<char>)
    ensures
        (forall|j: int| 0 <= j < s.len() ==> #[trigger] s[j].0 != k) ==> lookup(s, k) is None,
        forall|i: int|
            0 <= i < s.len() && s[i].0 == k && (forall|j: int| 0 <= j < i ==> #[trigger] s[j].0 != k)
                ==> lookup(s, k) == Some(#[trigger] s[i].1),
    decreases s.len(),
{
    if s.len() > 0 {
        let t = s.drop_first();
        lemma_lookup(t, k);
        if forall|j: int| 0 <= j < s.len() ==> #[trigger] s[j].0 != k {
            assert forall|j: int| 0 <= j < t.len() implies #[trigger] t[j].0 != k by {
                assert(t[j] == s[j + 1]);
            }
        }
        assert forall|i: int|
            0 <= i < s.len() && s[i].0 == k && (forall|j: int| 0 <= j < i ==> #[trigger] s[j].0 != k)
            implies lookup(s, k) == Some(#[trigger] s[i].1) by {
            if i > 0 {
                assert(s[0].0 != k);
                assert(t[i - 1] == s[i]);
                assert forall|j: int| 0 <= j < i - 1 implies #[trigger] t[j].0 != k by {
                    assert(t[j] == s[j + 1]);
                }
            }
        }
    }
}

/// With unique keys, `lookup` gives the value of the pair that holds the key.
pub proof fn lemma_lookup_unique(s: Seq<(Seq<char>, Seq<char>)>, i: int)
    requires
        keys_unique(s),
        0 <= i < s.len(),
    ensures
        lookup(s, s[i].0) == Some(s[i].1),
{
    lemma_lookup(s, s[i].0);
    assert forall|j: int| 0 <= j < i implies #[trigger] s[j].0 != s[i].0 by {}
}

/// Some pair holds the key exactly when `lookup` finds it.
pub proof fn lemma_lookup_some(s: Seq<(Seq<char>, Seq<char>)>, k: Seq<char>)
    ensures
        lookup(s, k) is Some <==> exists|i: int| 0 <= i < s.len() && #[trigger] s[i].0 == k,
        lookup(s, k) matches Some(v) ==> exists|i: int| 0 <= i < s.len() && #[trigger] s[i].0 == k && s[i].1 == v,
    decreases s.len(),
{
    if s.len() > 0 {
        let t = s.drop_first();
        lemma_lookup_some(t, k);
        if s[0].0 != k {
            if exists|i: int| 0 <= i < s.len() && #[trigger] s[i].0 == k {
                let i = choose|i: int| 0 <= i < s.len() && #[trigger] s[i].0 == k;
                assert(t[i - 1].0 == k);
            }
            if lookup(t, k) is Some {
                let v = lookup(t, k)->0;
                let i = choose|i: int| 0 <= i < t.len() && #[trigger] t[i].0 == k && t[i].1 == v;
                assert(s[i + 1].0 == k);
            }
        }
    }
}


/// The pairs with `k` set to `v`: the pair holding `k` takes the new value in
/// place, or a new pair goes at the end.
pub open spec fn pairs_set(s: Seq<(Seq<char>, Seq<char>)>, k: Seq<char>, v: Seq<char>) -> Seq<(Seq<char>, Seq<char>)>
    decreases s.len(),
{
    if s.len() == 0 {
        seq![(k, v)]
    } else if s[0].0 == k {
        seq![(k, v)] + s.drop_first()
    } else {
        seq![s[0]] + pairs_set(s.drop_first(), k, v)
    }
}

/// The pairs without the first one that holds `k`.
pub open spec fn pairs_remove(s: Seq<(Seq<char>, Seq<char>)>, k: Seq<char>) -> Seq<(Seq<char>, Seq<char>)>
    decreases s.len(),
{
    if s.len() == 0 {
        s
    } else if s[0].0 == k {
        s.drop_first()
    } else {
        seq![s[0]] + pairs_remove(s.drop_first(), k)
    }
}

/// `pairs_set` acts on the first pair holding the key, or appends when none
/// does.
pub proof fn lemma_pairs_set(s: Seq<(Seq<char>, Seq<char>)>, k: Seq<char>, v: Seq<char>)
    ensures
        (forall|j: int| 0 <= j < s.len() ==> #[trigger] s[j].0 != k) ==> pairs_set(s, k, v) == s.push((k, v)),
        forall|i: int|
            0 <= i < s.len() && (#[trigger] s[i]).0 == k && (forall|j: int| 0 <= j < i ==> #[trigger] s[j].0 != k)
                ==> pairs_set(s, k, v) == s.update(i, (k, v)),
    decreases s.len(),
{
    if s.len() > 0 {
        let t = s.drop_first();
        lemma_pairs_set(t, k, v);
        if forall|j: int| 0 <= j < s.len() ==> #[trigger] s[j].0 != k {
            assert forall|j: int| 0 <= j < t.len() implies #[trigger] t[j].0 != k by {
                assert(t[j] == s[j + 1]);
            }
            assert(seq![s[0]] + t.push((k, v)) =~= s.push((k, v)));
        }
        assert forall|i: int|
            0 <= i < s.len() && (#[trigger] s[i]).0 == k && (forall|j: int| 0 <= j < i ==> #[trigger] s[j].0 != k)
            implies pairs_set(s, k, v) == s.update(i, (k, v)) by {
            if i == 0 {
                assert(seq![(k, v)] + t =~= s.update(i, (k, v)));
            } else {
                assert(t[i - 1] == s[i]);
                assert forall|j: int| 0 <= j < i - 1 implies #[trigger] t[j].0 != k by {
                    assert(t[j] == s[j + 1]);
                }
                assert(seq![s[0]] + t.update(i - 1, (k, v)) =~= s.update(i, (k, v)));
            }
        }
    }
}

/// `pairs_remove` drops the first pair holding the key, or nothing when none
/// does.
#[verifier::rlimit(30)]
pub proof fn lemma_pairs_remove(s: Seq<(Seq<char>, Seq<char>)>, k: Seq<char>)
    ensures
        (forall|j: int| 0 <= j < s.len() ==> #[trigger] s[j].0 != k) ==> pairs_remove(s, k) == s,
        forall|i: int|
            0 <= i < s.len() && (#[trigger] s[i]).0 == k && (forall|j: int| 0 <= j < i ==> #[trigger] s[j].0 != k)
                ==> pairs_remove(s, k) == s.remove(i),
    decreases s.len(),
{
    if s.len() > 0 {
        let t = s.drop_first();
        lemma_pairs_remove(t, k);
        if forall|j: int| 0 <= j < s.len() ==> #[trigger] s[j].0 != k {
            assert forall|j: int| 0 <= j < t.len() implies #[trigger] t[j].0 != k by {
                assert(t[j] == s[j + 1]);
            }
            assert(seq![s[0]] + t =~= s);
        }
        assert forall|i: int|
            0 <= i < s.len() && (#[trigger] s[i]).0 == k && (forall|j: int| 0 <= j < i ==> #[trigger] s[j].0 != k)
            implies pairs_remove(s, k) == s.remove(i) by {
            if i == 0 {
                assert(t =~= s.remove(i));
            } else {
                assert(s[0].0 != k);
                assert(pairs_remove(s, k) == seq![s[0]] + pairs_remove(t, k));
                assert(t[i - 1] == s[i]);
                assert forall|j: int| 0 <= j < i - 1 implies #[trigger] t[j].0 != k by {
                    assert(t[j] == s[j + 1]);
                }
                assert(seq![s[0]] + t.remove(i - 1) =~= s.remove(i));
            }
        }
    }
}

/// A string-to-string mapping, kept as a list of pairs with distinct keys.
#[derive(Clone, Debug, PartialEq, Eq)]
pub struct Record {
    pairs: Vec<(String, String)>,
}

impl View for Record {
    type V = Seq<(Seq<char>, Seq<char>)>;

    closed spec fn view(&self) -> Seq<(Seq<char>, Seq<char>)> {
        Seq::new(self.pairs@.len(), |i: int| (self.pairs@[i].0@, self.pairs@[i].1@))
    }
}

impl Record {
    /// The keys are distinct: every constructor establishes this and every
    /// method keeps it.
    pub open spec fn wf(&self) -> bool {
        keys_unique(self@)
    }

    /// An empty record.
    pub fn new() -> (r: Record)
        ensures
            r@ == Seq::<(Seq<char>, Seq<char>)>::empty(),
            r.wf(),
    {
        let r = Record { pairs: Vec::new() };
        assert(r@ =~= Seq::<(Seq<char>, Seq<char>)>::empty());
        r
    }

    /// Number of pairs.
    pub fn len(&self) -> (r: usize)
        ensures
            r == self@.len(),
    {
        self.pairs.len()
    }

    /// True when the record holds no pair.
    pub fn is_empty(&self) -> (r: bool)
        ensures
            r == (self@.len() == 0),
    {
        self.pairs.len() == 0
    }

    /// The key of the `i`-th pair.
    pub fn key_at(&self, i: usize) -> (r: &String)
        requires
            i < self@.len(),
        ensures
            r@ == self@[i as int].0,
    {
        &self.pairs[i].0
    }

    /// The value of the `i`-th pair.
    pub fn value_at(&self, i: usize) -> (r: &String)
        requires
            i < self@.len(),
        ensures
            r@ == self@[i as int].1,
    {
        &self.pairs[i].1
    }

    /// Position of the pair whose key is `key`, if any.
    fn index_of(&self, key: &str) -> (r: Option<usize>)
        ensures
            r matches Some(i) ==> i < self@.len() && self@[i as int].0 == key@,
            r is None ==> forall|j: int| 0 <= j < self@.len() ==> #[trigger] self@[j].0 != key@,
    {
        let mut i: usize = 0;
        while i < self.pairs.len()
            invariant
                i <= self@.len(),
                forall|j: int| 0 <= j < i ==> #[trigger] self@[j].0 != key@,
            decreases self@.len() - i,
        {
            let k: &str = self.pairs[i].0.as_str();
            if str_eq(k, key) {
                return Some(i);
            }
            i += 1;
        }
        None
    }

    /// The value stored under `key`.
    pub fn get(&self, key: &str) -> (r: Option<String>)
        requires
            self.wf(),
        ensures
            r matches Some(v) ==> lookup(self@, key@) == Some(v@),
            r is None ==> lookup(self@, key@) is None,
    {
        proof {
            lemma_lookup(self@, key@);
        }
        match self.index_of(key) {
            Some(i) => {
                proof {
                    lemma_lookup_unique(self@, i as int);
                }
                Some(self.pairs[i].1.clone())
            },
            None => None,
        }
    }

    /// True when `key` has a value.
    pub fn contains_key(&self, key: &str) -> (r: bool)
        requires
            self.wf(),
        ensures
            r == (lookup(self@, key@) is Some),
    {
        proof {
            lemma_lookup(self@, key@);
        }
        match self.index_of(key) {
            Some(i) => {
                proof {
                    lemma_lookup_unique(self@, i as int);
                }
                true
            },
            None => false,
        }
    }

    /// Sets `key` to `value`; returns whether the key is new. A new key goes
    /// after the existing pairs; an existing key keeps its place.
    pub fn insert(&mut self, key: String, value: String) -> (r: bool)
        requires
            old(self).wf(),
        ensures
            final(self).wf(),
            r == (lookup(old(self)@, key@) is None),
            final(self)@ == pairs_set(old(self)@, key@, value@),
            r ==> final(self)@ == old(self)@.push((key@, value@)),
            !r ==> exists|i: int|
                0 <= i < old(self)@.len() && old(self)@[i].0 == key@ && final(self)@ == old(self)@.update(
                    i,
                    (key@, value@),
                ),
            forall|k: Seq<char>|
                #[trigger] lookup(final(self)@, k) == if k == key@ {
                    Some(value@)
                } else {
                    lookup(old(self)@, k)
                },
    {
        proof {
            lemma_lookup(self@, key@);
            lemma_pairs_set(self@, key@, value@);
        }
        let ghost before = self@;
        match self.index_of(key.as_str()) {
            Some(i) => {
                proof {
                    lemma_lookup_unique(before, i as int);
                    assert forall|j: int| 0 <= j < i implies #[trigger] before[j].0 != key@ by {}
                }
                self.pairs.set(i, (key, value));
                let ghost after = self@;
                assert(after =~= before.update(i as int, (key@, value@)));
                assert(keys_unique(after)) by {
                    assert forall|a: int, b: int|
                        0 <= a < after.len() && 0 <= b < after.len() && a != b implies #[trigger] after[a].0
                        != #[trigger] after[b].0 by {
                        assert(after[a].0 == before[a].0);
                        assert(after[b].0 == before[b].0);
                    }
                }
                proof {
                    assert forall|k: Seq<char>|
                        #[trigger] lookup(after, k) == if k == key@ {
                            Some(value@)
                        } else {
                            lookup(before, k)
                        } by {
                        lemma_lookup(after, k);
                        lemma_lookup(before, k);
                        if k == key@ {
                            lemma_lookup_unique(after, i as int);
                        } else {
                            lemma_lookup_some(before, k);
                            if lookup(before, k) is Some {
                                let j = choose|j: int| 0 <= j < before.len() && #[trigger] before[j].0 == k;
                                lemma_lookup_unique(before, j);
                                lemma_lookup_unique(after, j);
                            } else {
                                assert forall|j: int| 0 <= j < after.len() implies #[trigger] after[j].0 != k by {
                                    if j != i {
                                        if after[j].0 == k {
                                            assert(before[j].0 == k);
                                        }
                                    }
                                }
                            }
                        }
                    }
                }
                false
            },
            None => {
                let ghost kv = (key@, value@);
                self.pairs.push((key, value));
                let ghost after = self@;
                assert(after =~= before.push(kv));
                proof {
                    assert forall|k: Seq<char>|
                        #[trigger] lookup(after, k) == if k == kv.0 {
                            Some(kv.1)
                        } else {
                            lookup(before, k)
                        } by {
                        lemma_lookup(after, k);
                        lemma_lookup(before, k);
                        if k == kv.0 {
                            assert(after[before.len() as int] == kv);
                        } else {
                            lemma_lookup_some(before, k);
                            if lookup(before, k) is Some {
                                let j = choose|j: int| 0 <= j < before.len() && #[trigger] before[j].0 == k;
                                lemma_lookup_unique(before, j);
                                assert(after[j] == before[j]);
                                assert forall|m: int| 0 <= m < j implies #[trigger] after[m].0 != k by {
                                    assert(after[m] == before[m]);
                                    if before[m].0 == k {
                                        assert(before[m].0 == before[j].0);
                                    }
                                }
                            } else {
                                assert forall|m: int| 0 <= m < after.len() implies #[trigger] after[m].0 != k by {
                                    if m < before.len() {
                                        assert(after[m] == before[m]);
                                    }
                                }
                            }
                        }
                    }
                }
                true
            },
        }
    }

    /// Removes `key`; returns whether it was present. The other pairs keep
    /// their order.
    pub fn remove(&mut self, key: &str) -> (r: bool)
        requires
            old(self).wf(),
        ensures
            final(self).wf(),
            r == (lookup(old(self)@, key@) is Some),
            final(self)@ == pairs_remove(old(self)@, key@),
            !r ==> final(self)@ == old(self)@,
            r ==> final(self)@.len() == old(self)@.len() - 1,
            r ==> exists|i: int|
                0 <= i < old(self)@.len() && old(self)@[i].0 == key@ && final(self)@ == old(self)@.remove(i),
            forall|k: Seq<char>|
                #[trigger] lookup(final(self)@, k) == if k == key@ {
                    None
                } else {
                    lookup(old(self)@, k)
                },
    {
        proof {
            lemma_lookup(self@, key@);
            lemma_pairs_remove(self@, key@);
        }
        let ghost before = self@;
        match self.index_of(key) {
            Some(i) => {
                proof {
                    lemma_lookup_unique(before, i as int);
                    assert forall|j: int| 0 <= j < i implies #[trigger] before[j].0 != key@ by {}
                }
                self.pairs.remove(i);
                let ghost after = self@;
                assert(after =~= before.remove(i as int));
                assert(keys_unique(after)) by {
                    assert forall|a: int, b: int|
                        0 <= a < after.len() && 0 <= b < after.len() && a != b implies #[trigger] after[a].0
                        != #[trigger] after[b].0 by {
                        let a2 = if a < i { a } else { a + 1 };
                        let b2 = if b < i { b } else { b + 1 };
                        assert(after[a] == before[a2]);
                        assert(after[b] == before[b2]);
                    }
                }
                proof {
                    assert forall|k: Seq<char>|
                        #[trigger] lookup(after, k) == if k == key@ {
                            None
                        } else {
                            lookup(before, k)
                        } by {
                        lemma_lookup(after, k);
                        lemma_lookup(before, k);
                        if k == key@ {
                            assert forall|j: int| 0 <= j < after.len() implies #[trigger] after[j].0 != k by {
                                let j2 = if j < i { j } else { j + 1 };
                                assert(after[j] == before[j2]);
                            }
                        } else {
                            lemma_lookup_some(before, k);
                            if lookup(before, k) is Some {
                                let j = choose|j: int| 0 <= j < before.len() && #[trigger] before[j].0 == k;
                                lemma_lookup_unique(before, j);
                                let j1 = if j < i { j } else { j - 1 };
                                assert(after[j1] == before[j]);
                                lemma_lookup_unique(after, j1);
                            } else {
                                assert forall|m: int| 0 <= m < after.len() implies #[trigger] after[m].0 != k by {
                                    let m2 = if m < i { m } else { m + 1 };
                                    assert(after[m] == before[m2]);
                                }
                            }
                        }
                    }
                }
                true
            },
            None => false,
        }
    }

    /// Appends a pair whose key the record does not hold yet.
    pub fn push_new(&mut self, key: String, value: String)
        requires
            old(self).wf(),
            lookup(old(self)@, key@) is None,
        ensures
            final(self).wf(),
            final(self)@ == old(self)@.push((key@, value@)),
    {
        proof {
            lemma_lookup_some(self@, key@);
        }
        let ghost before = self@;
        let ghost kv = (key@, value@);
        self.pairs.push((key, value));
        assert(self@ =~= before.push(kv));
    }
}

/// Relies on `str`'s `==`: two string slices are equal when they hold the
/// same characters.
#[verifier::external_body]
fn str_eq(a: &str, b: &str) -> (r: bool)
    ensures
        r == (a@ == b@),
{
    a == b
}

} // verus!

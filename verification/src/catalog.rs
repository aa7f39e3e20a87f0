use vstd::prelude::*;
use vstd::string::*;

verus! {

/// Mapping described by a sequence of entries; a later entry with the same
/// key wins.
pub open spec fn entries_map(s: Seq<(String, String)>) -> Map<Seq<char>, Seq<char>>
    decreases s.len(),
{
    if s.len() == 0 {
        Map::<Seq<char>, Seq<char>>::empty()
    } else {
        entries_map(s.drop_last()).insert(s.last().0@, s.last().1@)
    }
}

/// Keys of the entries, in order.
pub open spec fn keys_of(s: Seq<(String, String)>) -> Seq<Seq<char>> {
    s.map_values(|e: (String, String)| e.0@)
}

pub proof fn lemma_entries_map_domain(s: Seq<(String, String)>, k: Seq<char>)
    ensures
        entries_map(s).contains_key(k) <==> exists|i: int| 0 <= i < s.len() && s[i].0@ == k,
    decreases s.len(),
{
    if s.len() == 0 {
    } else {
        lemma_entries_map_domain(s.drop_last(), k);
        if entries_map(s).contains_key(k) {
            if s.last().0@ != k {
                let i = choose|i: int| 0 <= i < s.drop_last().len() && s.drop_last()[i].0@ == k;
                assert(s[i].0@ == k);
            }
        }
        if exists|i: int| 0 <= i < s.len() && s[i].0@ == k {
            let i = choose|i: int| 0 <= i < s.len() && s[i].0@ == k;
            if i < s.len() - 1 {
                assert(s.drop_last()[i].0@ == k);
            }
        }
    }
}

pub proof fn lemma_entries_map_at(s: Seq<(String, String)>, i: int)
    requires
        0 <= i < s.len(),
        forall|p: int, q: int| 0 <= p < q < s.len() ==> s[p].0@ != s[q].0@,
    ensures
        entries_map(s).contains_key(s[i].0@),
        entries_map(s)[s[i].0@] == s[i].1@,
    decreases s.len(),
{
    if i == s.len() - 1 {
    } else {
        assert(s[i].0@ != s.last().0@);
        lemma_entries_map_at(s.drop_last(), i);
    }
}

/// One language's key -> template mapping. Keys are unique; insertion order
/// is kept.
pub struct Catalog {
    entries: Vec<(String, String)>,
}

impl Catalog {
    /// The mapping this catalog holds.
    pub closed spec fn view(&self) -> Map<Seq<char>, Seq<char>> {
        entries_map(self.entries@)
    }

    /// The keys, in insertion order.
    pub closed spec fn keys_seq(&self) -> Seq<Seq<char>> {
        keys_of(self.entries@)
    }

    /// Keys are unique.
    pub closed spec fn wf(&self) -> bool {
        forall|p: int, q: int|
            0 <= p < q < self.entries@.len() ==> self.entries@[p].0@ != self.entries@[q].0@
    }

    /// The keys in order are exactly the domain of the mapping.
    pub proof fn lemma_keys_in_view(&self)
        ensures
            forall|k: Seq<char>| self.keys_seq().contains(k) <==> self@.contains_key(k),
    {
        assert forall|k: Seq<char>| self.keys_seq().contains(k) <==> self@.contains_key(k) by {
            lemma_entries_map_domain(self.entries@, k);
            if self.keys_seq().contains(k) {
                let i = choose|i: int| 0 <= i < self.keys_seq().len() && self.keys_seq()[i] == k;
                assert(self.entries@[i].0@ == k);
            }
            if exists|i: int| 0 <= i < self.entries@.len() && self.entries@[i].0@ == k {
                let i = choose|i: int| 0 <= i < self.entries@.len() && self.entries@[i].0@ == k;
                assert(self.keys_seq()[i] == k);
            }
        }
    }

    /// Empty catalog.
    pub fn new() -> (r: Catalog)
        ensures
            r.wf(),
            r@ == Map::<Seq<char>, Seq<char>>::empty(),
            r.keys_seq() == Seq::<Seq<char>>::empty(),
    {
        let r = Catalog { entries: Vec::new() };
        proof {
            assert(r.keys_seq() =~= Seq::<Seq<char>>::empty());
        }
        r
    }

    /// Index of the entry holding `key`, if any.
    fn index_of(&self, key: &str) -> (r: Option<usize>)
        ensures
            match r {
                Some(i) => i < self.entries@.len() && self.entries@[i as int].0@ == key@,
                None => forall|j: int| 0 <= j < self.entries@.len() ==> self.entries@[j].0@ != key@,
            },
    {
        let owned = key.to_owned();
        let mut i: usize = 0;
        while i < self.entries.len()
            invariant
                0 <= i <= self.entries@.len(),
                owned@ == key@,
                forall|j: int| 0 <= j < i ==> self.entries@[j].0@ != key@,
            decreases self.entries@.len() - i,
        {
            if self.entries[i].0 == owned {
                return Some(i);
            }
            i += 1;
        }
        None
    }

    /// Whether `key` is present.
    pub fn contains_key(&self, key: &str) -> (r: bool)
        ensures
            r == self@.contains_key(key@),
    {
        proof {
            lemma_entries_map_domain(self.entries@, key@);
        }
        match self.index_of(key) {
            Some(_) => true,
            None => false,
        }
    }

    /// The template stored under `key`, if any.
    pub fn get(&self, key: &str) -> (r: Option<&String>)
        requires
            self.wf(),
        ensures
            match r {
                Some(v) => self@.contains_key(key@) && v@ == self@[key@],
                None => !self@.contains_key(key@),
            },
    {
        proof {
            lemma_entries_map_domain(self.entries@, key@);
        }
        match self.index_of(key) {
            Some(i) => {
                proof {
                    lemma_entries_map_at(self.entries@, i as int);
                }
                Some(&self.entries[i].1)
            },
            None => None,
        }
    }

    /// Store `value` under `key`, replacing any previous template.
    pub fn insert(&mut self, key: String, value: String)
        requires
            old(self).wf(),
        ensures
            final(self).wf(),
            final(self)@ == old(self)@.insert(key@, value@),
            old(self)@.contains_key(key@) ==> final(self).keys_seq() == old(self).keys_seq(),
            !old(self)@.contains_key(key@) ==> final(self).keys_seq() == old(self).keys_seq().push(
                key@,
            ),
    {
        proof {
            lemma_entries_map_domain(self.entries@, key@);
        }
        match self.index_of(key.as_str()) {
            Some(i) => {
                let entry = self.entries.remove(i);
                self.entries.insert(i, (entry.0, value));
                proof {
                    let old_s = old(self).entries@;
                    assert(self.entries@ =~= old_s.update(i as int, (old_s[i as int].0, value)));
                    lemma_entries_map_update(old_s, i as int, value);
                    assert(self.keys_seq() =~= old(self).keys_seq());
                }
            },
            None => {
                self.entries.push((key, value));
                proof {
                    let old_s = old(self).entries@;
                    assert(self.entries@.drop_last() =~= old_s);
                    assert(self.keys_seq() =~= old(self).keys_seq().push(
                        self.entries@.last().0@,
                    ));
                }
            },
        }
    }

    /// The keys, in insertion order, as owned strings.
    pub fn keys(&self) -> (r: Vec<String>)
        ensures
            r@.map_values(|k: String| k@) == self.keys_seq(),
    {
        let mut out: Vec<String> = Vec::new();
        let mut i: usize = 0;
        while i < self.entries.len()
            invariant
                0 <= i <= self.entries@.len(),
                out@.len() == i,
                out@.map_values(|k: String| k@) =~= keys_of(self.entries@).subrange(0, i as int),
            decreases self.entries@.len() - i,
        {
            let cloned = self.entries[i].0.clone();
            let ghost kv = cloned;
            let ghost out_before = out@;
            out.push(cloned);
            proof {
                assert(out@ == out_before.push(kv));
                assert forall|j: int| 0 <= j < i + 1 implies out@.map_values(|k: String| k@)[j]
                    == #[trigger] keys_of(self.entries@).subrange(0, i as int + 1)[j] by {
                    if j < i {
                        assert(out_before.push(kv)[j] == out_before[j]);
                        assert(out_before.map_values(|k: String| k@)[j] == keys_of(
                            self.entries@,
                        ).subrange(0, i as int)[j]);
                    } else {
                        assert(out_before.push(kv)[j] == kv);
                    }
                }
                assert(out@.map_values(|k: String| k@) =~= keys_of(self.entries@).subrange(
                    0,
                    i as int + 1,
                ));
            }
            i += 1;
        }
        proof {
            assert(keys_of(self.entries@).subrange(0, self.entries@.len() as int) =~= keys_of(
                self.entries@,
            ));
        }
        out
    }
}

pub proof fn lemma_entries_map_update(s: Seq<(String, String)>, i: int, value: String)
    requires
        0 <= i < s.len(),
        forall|p: int, q: int| 0 <= p < q < s.len() ==> s[p].0@ != s[q].0@,
    ensures
        entries_map(s.update(i, (s[i].0, value))) == entries_map(s).insert(s[i].0@, value@),
    decreases s.len(),
{
    let t = s.update(i, (s[i].0, value));
    if i == s.len() - 1 {
        assert(t.drop_last() =~= s.drop_last());
        assert(entries_map(t) == entries_map(s.drop_last()).insert(s[i].0@, value@));
        assert(entries_map(s).insert(s[i].0@, value@) =~= entries_map(s.drop_last()).insert(
            s[i].0@,
            value@,
        ));
    } else {
        assert(t.drop_last() =~= s.drop_last().update(i, (s[i].0, value)));
        lemma_entries_map_update(s.drop_last(), i, value);
        assert(entries_map(t) == entries_map(s.drop_last()).insert(s[i].0@, value@).insert(
            s.last().0@,
            s.last().1@,
        ));
        assert(s[i].0@ != s.last().0@);
        assert(entries_map(s.drop_last()).insert(s[i].0@, value@).insert(s.last().0@, s.last().1@)
            =~= entries_map(s.drop_last()).insert(s.last().0@, s.last().1@).insert(
            s[i].0@,
            value@,
        ));
    }
}

} // verus!

//! A node's private key/value mapping with overwrite-on-duplicate semantics,
//! abstracted as a `Map<Seq<char>, Seq<char>>`.

use vstd::prelude::*;

verus! {

/// The string-keyed mapping private to one node. Each key occurs in at most
/// one entry; inserting an existing key overwrites its value.
pub struct KvTable {
    entries: Vec<(String, String)>,
}

spec fn keys_unique(entries: Seq<(String, String)>) -> bool {
    forall|i: int, j: int| 0 <= i < j < entries.len() ==> entries[i].0@ != entries[j].0@
}

spec fn map_of(entries: Seq<(String, String)>) -> Map<Seq<char>, Seq<char>>
    decreases entries.len(),
{
    if entries.len() == 0 {
        Map::empty()
    } else {
        map_of(entries.drop_last()).insert(entries.last().0@, entries.last().1@)
    }
}

proof fn lemma_map_of_dom(entries: Seq<(String, String)>)
    ensures
        forall|k: Seq<char>|
            #[trigger] map_of(entries).contains_key(k) <==> (exists|i: int|
                0 <= i < entries.len() && #[trigger] entries[i].0@ == k),
    decreases entries.len(),
{
    if entries.len() > 0 {
        lemma_map_of_dom(entries.drop_last());
        assert forall|k: Seq<char>| #[trigger]
            map_of(entries).contains_key(k) implies (exists|i: int|
            0 <= i < entries.len() && #[trigger] entries[i].0@ == k) by {
            if k == entries.last().0@ {
                assert(entries[entries.len() - 1].0@ == k);
            } else {
                assert(map_of(entries.drop_last()).contains_key(k));
                let i = choose|i: int|
                    0 <= i < entries.drop_last().len() && #[trigger] entries.drop_last()[i].0@
                        == k;
                assert(entries[i].0@ == k);
            }
        }
        assert forall|k: Seq<char>|
            (exists|i: int|
                0 <= i < entries.len() && #[trigger] entries[i].0@ == k) implies #[trigger]
            map_of(entries).contains_key(k) by {
            let i = choose|i: int| 0 <= i < entries.len() && #[trigger] entries[i].0@ == k;
            if i < entries.len() - 1 {
                assert(entries.drop_last()[i].0@ == k);
                assert(map_of(entries.drop_last()).contains_key(k));
            } else {
                assert(k == entries.last().0@);
            }
        }
    }
}

proof fn lemma_map_of_at(entries: Seq<(String, String)>, i: int)
    requires
        keys_unique(entries),
        0 <= i < entries.len(),
    ensures
        map_of(entries).contains_key(entries[i].0@),
        map_of(entries)[entries[i].0@] == entries[i].1@,
    decreases entries.len(),
{
    if i < entries.len() - 1 {
        lemma_map_of_at(entries.drop_last(), i);
        assert(entries.drop_last()[i] == entries[i]);
        assert(entries.last().0@ != entries[i].0@);
    }
}

proof fn lemma_map_of_len(entries: Seq<(String, String)>)
    requires
        keys_unique(entries),
    ensures
        map_of(entries).dom().finite(),
        map_of(entries).dom().len() == entries.len(),
    decreases entries.len(),
{
    if entries.len() > 0 {
        lemma_map_of_len(entries.drop_last());
        lemma_map_of_dom(entries.drop_last());
        assert(!map_of(entries.drop_last()).contains_key(entries.last().0@));
    }
}

proof fn lemma_map_of_update(entries: Seq<(String, String)>, i: int, p: (String, String))
    requires
        keys_unique(entries),
        0 <= i < entries.len(),
        entries[i].0@ == p.0@,
    ensures
        keys_unique(entries.update(i, p)),
        map_of(entries.update(i, p)) == map_of(entries).insert(p.0@, p.1@),
    decreases entries.len(),
{
    let updated = entries.update(i, p);
    assert forall|a: int, b: int| 0 <= a < b < updated.len() implies updated[a].0@
        != updated[b].0@ by {
        assert(entries[a].0@ != entries[b].0@);
    }
    if i == entries.len() - 1 {
        assert(updated.drop_last() =~= entries.drop_last());
        assert(map_of(updated) == map_of(entries.drop_last()).insert(p.0@, p.1@));
        assert(map_of(entries.drop_last()).insert(p.0@, p.1@) =~= map_of(entries).insert(
            p.0@,
            p.1@,
        ));
    } else {
        lemma_map_of_update(entries.drop_last(), i, p);
        assert(updated.drop_last() =~= entries.drop_last().update(i, p));
        assert(updated.last() == entries.last());
        assert(entries.last().0@ != p.0@);
        assert(map_of(entries.drop_last()).insert(p.0@, p.1@).insert(
            entries.last().0@,
            entries.last().1@,
        ) =~= map_of(entries).insert(p.0@, p.1@));
    }
}

proof fn lemma_map_of_push(entries: Seq<(String, String)>, p: (String, String))
    requires
        keys_unique(entries),
        forall|i: int| 0 <= i < entries.len() ==> entries[i].0@ != p.0@,
    ensures
        keys_unique(entries.push(p)),
        map_of(entries.push(p)) == map_of(entries).insert(p.0@, p.1@),
{
    assert(entries.push(p).drop_last() =~= entries);
    assert(map_of(entries.push(p)) == map_of(entries).insert(p.0@, p.1@));
}

impl View for KvTable {
    type V = Map<Seq<char>, Seq<char>>;

    closed spec fn view(&self) -> Map<Seq<char>, Seq<char>> {
        map_of(self.entries@)
    }
}

impl KvTable {
    #[verifier::type_invariant]
    spec fn wf(self) -> bool {
        keys_unique(self.entries@)
    }

    /// An empty mapping, the state of every node at startup.
    pub fn new() -> (t: Self)
        ensures
            t@ == Map::<Seq<char>, Seq<char>>::empty(),
    {
        KvTable { entries: Vec::new() }
    }

    fn find(&self, key: &String) -> (r: Option<usize>)
        ensures
            match r {
                Some(i) => i < self.entries@.len() && self.entries@[i as int].0@ == key@,
                None => forall|i: int| 0 <= i < self.entries@.len() ==> self.entries@[i].0@ != key@,
            },
    {
        let n = self.entries.len();
        let mut i: usize = 0;
        while i < n
            invariant
                i <= n,
                n == self.entries@.len(),
                forall|j: int| 0 <= j < i ==> self.entries@[j].0@ != key@,
            decreases n - i,
        {
            if self.entries[i].0 == *key {
                return Some(i);
            }
            i = i + 1;
        }
        None
    }

    /// Insert `key -> value`, overwriting any existing entry for `key`.
    pub fn insert(&mut self, key: String, value: String)
        ensures
            final(self)@ == old(self)@.insert(key@, value@),
    {
        proof {
            use_type_invariant(&*self);
        }
        let found = self.find(&key);
        let ghost k = key@;
        let ghost v = value@;
        let mut entries: Vec<(String, String)> = Vec::new();
        core::mem::swap(&mut entries, &mut self.entries);
        match found {
            Some(i) => {
                proof {
                    lemma_map_of_update(entries@, i as int, (key, value));
                }
                entries[i] = (key, value);
            },
            None => {
                proof {
                    lemma_map_of_push(entries@, (key, value));
                }
                entries.push((key, value));
            },
        }
        core::mem::swap(&mut entries, &mut self.entries);
    }

    /// Look the key up; `Some` exactly when the mapping contains it.
    pub fn get(&self, key: &String) -> (r: Option<&String>)
        ensures
            match r {
                Some(v) => self@.contains_key(key@) && v@ == self@[key@],
                None => !self@.contains_key(key@),
            },
    {
        proof {
            use_type_invariant(&*self);
        }
        match self.find(key) {
            Some(i) => {
                proof {
                    lemma_map_of_at(self.entries@, i as int);
                }
                Some(&self.entries[i].1)
            },
            None => {
                proof {
                    lemma_map_of_dom(self.entries@);
                }
                None
            },
        }
    }

    /// Whether the mapping has an entry for the key.
    pub fn contains_key(&self, key: &String) -> (r: bool)
        ensures
            r == self@.contains_key(key@),
    {
        self.get(key).is_some()
    }

    /// The number of distinct keys in the mapping.
    pub fn len(&self) -> (n: usize)
        ensures
            n == self@.dom().len(),
    {
        proof {
            use_type_invariant(&*self);
            lemma_map_of_len(self.entries@);
        }
        self.entries.len()
    }
}

/// Idempotence law: inserting the same `key -> value` pair twice leaves the
/// mapping exactly as one insert does — the duplicate overwrites the entry,
/// it never adds a second entry for the key.
pub proof fn lemma_insert_idempotent(m: Map<Seq<char>, Seq<char>>, k: Seq<char>, v: Seq<char>)
    ensures
        m.insert(k, v).insert(k, v) == m.insert(k, v),
        m.insert(k, v).contains_key(k),
        m.insert(k, v)[k] == v,
{
    assert(m.insert(k, v).insert(k, v) =~= m.insert(k, v));
}

} // verus!

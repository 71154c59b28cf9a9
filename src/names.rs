//! A table from names to lists of names (class bases, class methods), each
//! name a key at most once, keys kept in the order first added.
use vstd::prelude::*;
use crate::text::str_eq;

verus! {

pub type Table = Seq<(Seq<char>, Seq<Seq<char>>)>;

pub open spec fn unique_table(t: Table) -> bool {
    forall|i: int, j: int| 0 <= i < j < t.len() ==> t[i].0 != t[j].0
}

/// The list stored under `key`, empty when there is none.
pub open spec fn table_get(t: Table, key: Seq<char>) -> Seq<Seq<char>>
    decreases t.len(),
{
    if t.len() == 0 {
        Seq::empty()
    } else if t.last().0 == key {
        t.last().1
    } else {
        table_get(t.drop_last(), key)
    }
}

/// The table with `list` stored under `key`: in place of the old list,
/// or as a new last entry.
pub open spec fn table_with(t: Table, key: Seq<char>, list: Seq<Seq<char>>) -> Table {
    if exists|i: int| 0 <= i < t.len() && t[i].0 == key {
        let i = choose|i: int| 0 <= i < t.len() && t[i].0 == key;
        t.update(i, (key, list))
    } else {
        t.push((key, list))
    }
}

proof fn lemma_get_at(t: Table, k: int)
    requires
        unique_table(t),
        0 <= k < t.len(),
    ensures
        table_get(t, t[k].0) == t[k].1,
    decreases t.len(),
{
    if k < t.len() - 1 {
        lemma_get_at(t.drop_last(), k);
    }
}

proof fn lemma_get_absent(t: Table, key: Seq<char>)
    requires
        forall|i: int| 0 <= i < t.len() ==> t[i].0 != key,
    ensures
        table_get(t, key).len() == 0,
    decreases t.len(),
{
    if t.len() > 0 {
        lemma_get_absent(t.drop_last(), key);
    }
}

pub proof fn lemma_table_with(t: Table, key: Seq<char>, list: Seq<Seq<char>>)
    requires
        unique_table(t),
    ensures
        unique_table(table_with(t, key, list)),
        table_get(table_with(t, key, list), key) == list,
        forall|k: Seq<char>| k != key ==> table_get(table_with(t, key, list), k) == table_get(t, k),
{
    let g = table_with(t, key, list);
    if exists|i: int| 0 <= i < t.len() && t[i].0 == key {
        let i = choose|i: int| 0 <= i < t.len() && t[i].0 == key;
        lemma_get_at(g, i);
        assert forall|k: Seq<char>| k != key implies table_get(g, k) == table_get(t, k) by {
            if exists|j: int| 0 <= j < t.len() && t[j].0 == k {
                let j = choose|j: int| 0 <= j < t.len() && t[j].0 == k;
                lemma_get_at(t, j);
                lemma_get_at(g, j);
            } else {
                lemma_get_absent(t, k);
                lemma_get_absent(g, k);
            }
        }
    } else {
        lemma_get_at(g, t.len() as int);
        assert forall|k: Seq<char>| k != key implies table_get(g, k) == table_get(t, k) by {
            assert(g.drop_last() == t);
        }
    }
}

#[derive(Debug)]
pub struct NameTable {
    entries: Vec<(String, Vec<String>)>,
}

impl View for NameTable {
    type V = Table;

    closed spec fn view(&self) -> Table {
        Seq::new(self.entries@.len(), |i: int| (self.entries@[i].0@, views_of(self.entries@[i].1@)))
    }
}

/// The character sequences of a list of strings.
pub open spec fn views_of(v: Seq<String>) -> Seq<Seq<char>> {
    Seq::new(v.len(), |i: int| v[i]@)
}

impl NameTable {
    pub closed spec fn wf(&self) -> bool {
        unique_table(self@)
    }

    pub fn new() -> (r: NameTable)
        ensures
            r.wf(),
            r@ == Seq::<(Seq<char>, Seq<Seq<char>>)>::empty(),
    {
        let r = NameTable { entries: Vec::new() };
        assert(r@ =~= Seq::<(Seq<char>, Seq<Seq<char>>)>::empty());
        r
    }

    fn find(&self, key: &str) -> (r: Option<usize>)
        ensures
            match r {
                Some(i) => i < self@.len() && self@[i as int].0 == key@,
                None => forall|i: int| 0 <= i < self@.len() ==> self@[i].0 != key@,
            },
    {
        let mut i: usize = 0;
        while i < self.entries.len()
            invariant
                i <= self@.len() == self.entries@.len(),
                forall|k: int| 0 <= k < i ==> self@[k].0 != key@,
            decreases self.entries.len() - i,
        {
            if str_eq(self.entries[i].0.as_str(), key) {
                return Some(i);
            }
            i = i + 1;
        }
        None
    }

    pub fn len(&self) -> (r: usize)
        ensures
            r == self@.len(),
    {
        self.entries.len()
    }

    /// The list under `key`.
    pub fn get(&self, key: &str) -> (r: Vec<String>)
        requires
            self.wf(),
        ensures
            views_of(r@) == table_get(self@, key@),
    {
        match self.find(key) {
            Some(i) => {
                proof {
                    lemma_get_at(self@, i as int);
                }
                clone_strings(&self.entries[i].1)
            },
            None => {
                proof {
                    lemma_get_absent(self@, key@);
                }
                let r: Vec<String> = Vec::new();
                assert(views_of(r@) =~= Seq::<Seq<char>>::empty());
                r
            },
        }
    }

    /// Stores `list` under `key`, replacing what was there.
    pub fn set(&mut self, key: String, list: Vec<String>)
        requires
            old(self).wf(),
        ensures
            final(self).wf(),
            final(self)@ == table_with(old(self)@, key@, views_of(list@)),
    {
        proof {
            lemma_table_with(self@, key@, views_of(list@));
        }
        let ghost kv = key@;
        let ghost lv = views_of(list@);
        match self.find(key.as_str()) {
            Some(i) => {
                self.entries.set(i, (key, list));
                assert(self@ =~= table_with(old(self)@, kv, lv));
            },
            None => {
                self.entries.push((key, list));
                assert(self@ =~= table_with(old(self)@, kv, lv));
            },
        }
    }

    /// Appends `item` to the list under `key`.
    pub fn append(&mut self, key: String, item: String)
        requires
            old(self).wf(),
        ensures
            final(self).wf(),
            final(self)@ == table_with(old(self)@, key@, table_get(old(self)@, key@).push(item@)),
    {
        let mut list = self.get(key.as_str());
        let ghost iv = item@;
        let ghost before = views_of(list@);
        list.push(item);
        assert(views_of(list@) =~= before.push(iv));
        self.set(key, list);
    }
}

/// A copy of a list of strings.
pub fn clone_strings(v: &Vec<String>) -> (r: Vec<String>)
    ensures
        views_of(r@) == views_of(v@),
{
    let mut out: Vec<String> = Vec::new();
    let mut i: usize = 0;
    while i < v.len()
        invariant
            i <= v@.len(),
            views_of(out@) == views_of(v@).subrange(0, i as int),
        decreases v.len() - i,
    {
        let ghost before = views_of(out@);
        out.push(v[i].clone());
        assert(views_of(out@) =~= before.push(v@[i as int]@));
        i = i + 1;
        assert(views_of(v@).subrange(0, i as int) =~= views_of(v@).subrange(0, i - 1).push(
            v@[i - 1]@,
        ));
    }
    assert(views_of(v@).subrange(0, v@.len() as int) =~= views_of(v@));
    out
}

/// Whether some string in `v` equals `s`.
pub fn contains_string(v: &Vec<String>, s: &str) -> (r: bool)
    ensures
        r == views_of(v@).contains(s@),
{
    let mut i: usize = 0;
    while i < v.len()
        invariant
            i <= v@.len(),
            forall|k: int| 0 <= k < i ==> v@[k]@ != s@,
        decreases v.len() - i,
    {
        if str_eq(v[i].as_str(), s) {
            assert(views_of(v@)[i as int] == s@);
            return true;
        }
        i = i + 1;
    }
    assert(!views_of(v@).contains(s@)) by {
        if views_of(v@).contains(s@) {
            let k = choose|k: int| 0 <= k < views_of(v@).len() && views_of(v@)[k] == s@;
            assert(v@[k]@ == s@);
        }
    }
    false
}

} // verus!

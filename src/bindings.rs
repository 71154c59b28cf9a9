//! A frame of name bindings: each name bound at most once, bindings kept in
//! the order in which names were first bound.
use vstd::prelude::*;
use crate::text::str_eq;
use crate::types::SymbolId;

verus! {

/// The entries of a frame, as names and ids.
pub type Frame = Seq<(Seq<char>, SymbolId)>;

/// Whether no name occurs twice in the frame.
pub open spec fn unique_names(f: Frame) -> bool {
    forall|i: int, j: int| 0 <= i < j < f.len() ==> f[i].0 != f[j].0
}

/// The id bound to `name` in the frame.
pub open spec fn lookup(f: Frame, name: Seq<char>) -> Option<SymbolId>
    decreases f.len(),
{
    if f.len() == 0 {
        None
    } else if f.last().0 == name {
        Some(f.last().1)
    } else {
        lookup(f.drop_last(), name)
    }
}

/// The frame with `name` bound to `id`: an existing binding of the name is
/// replaced in place, a new one goes at the end.
pub open spec fn bind(f: Frame, name: Seq<char>, id: SymbolId) -> Frame {
    if exists|i: int| 0 <= i < f.len() && f[i].0 == name {
        let i = choose|i: int| 0 <= i < f.len() && f[i].0 == name;
        f.update(i, (name, id))
    } else {
        f.push((name, id))
    }
}

/// The frame built by binding each pair in order, later pairs winning.
pub open spec fn bind_all(pairs: Seq<(Seq<char>, SymbolId)>) -> Frame
    decreases pairs.len(),
{
    if pairs.len() == 0 {
        Seq::empty()
    } else {
        bind(bind_all(pairs.drop_last()), pairs.last().0, pairs.last().1)
    }
}

pub proof fn lemma_lookup_found(f: Frame, k: int)
    requires
        unique_names(f),
        0 <= k < f.len(),
    ensures
        lookup(f, f[k].0) == Some(f[k].1),
    decreases f.len(),
{
    if k < f.len() - 1 {
        lemma_lookup_found(f.drop_last(), k);
    }
}

pub proof fn lemma_lookup_absent(f: Frame, name: Seq<char>)
    requires
        forall|i: int| 0 <= i < f.len() ==> f[i].0 != name,
    ensures
        lookup(f, name).is_none(),
    decreases f.len(),
{
    if f.len() > 0 {
        lemma_lookup_absent(f.drop_last(), name);
    }
}

/// Lookup after a binding: the bound name gives the new id, every other
/// name what it gave before; names stay unique.
pub proof fn lemma_bind(f: Frame, name: Seq<char>, id: SymbolId)
    requires
        unique_names(f),
    ensures
        unique_names(bind(f, name, id)),
        lookup(bind(f, name, id), name) == Some(id),
        forall|n: Seq<char>| n != name ==> lookup(bind(f, name, id), n) == lookup(f, n),
{
    let g = bind(f, name, id);
    if exists|i: int| 0 <= i < f.len() && f[i].0 == name {
        let k = choose|i: int| 0 <= i < f.len() && f[i].0 == name;
        assert(unique_names(g));
        lemma_lookup_found(g, k);
        assert forall|n: Seq<char>| n != name implies lookup(g, n) == lookup(f, n) by {
            if exists|j: int| 0 <= j < f.len() && f[j].0 == n {
                let j = choose|j: int| 0 <= j < f.len() && f[j].0 == n;
                lemma_lookup_found(f, j);
                lemma_lookup_found(g, j);
            } else {
                lemma_lookup_absent(f, n);
                lemma_lookup_absent(g, n);
            }
        }
    } else {
        assert(unique_names(g));
        lemma_lookup_found(g, f.len() as int);
        assert forall|n: Seq<char>| n != name implies lookup(g, n) == lookup(f, n) by {
            assert(g.drop_last() == f);
        }
    }
}

pub proof fn lemma_bind_all_unique(pairs: Seq<(Seq<char>, SymbolId)>)
    ensures
        unique_names(bind_all(pairs)),
    decreases pairs.len(),
{
    if pairs.len() > 0 {
        lemma_bind_all_unique(pairs.drop_last());
        lemma_bind(bind_all(pairs.drop_last()), pairs.last().0, pairs.last().1);
    }
}

/// A frame of bindings from names to symbol ids.
#[derive(Clone, Debug)]
pub struct Bindings {
    entries: Vec<(String, SymbolId)>,
}

impl View for Bindings {
    type V = Frame;

    closed spec fn view(&self) -> Frame {
        Seq::new(self.entries@.len(), |i: int| (self.entries@[i].0@, self.entries@[i].1))
    }
}

impl Bindings {
    pub closed spec fn wf(&self) -> bool {
        unique_names(self@)
    }

    pub fn new() -> (r: Bindings)
        ensures
            r@ == Seq::<(Seq<char>, SymbolId)>::empty(),
            r.wf(),
    {
        Bindings { entries: Vec::new() }
    }

    /// The frame holding the pairs, bound in order.
    pub fn from_pairs(pairs: Vec<(String, SymbolId)>) -> (r: Bindings)
        ensures
            r.wf(),
            r@ == bind_all(Seq::new(pairs@.len(), |i: int| (pairs@[i].0@, pairs@[i].1))),
    {
        let ghost ps = Seq::new(pairs@.len(), |i: int| (pairs@[i].0@, pairs@[i].1));
        let mut b = Bindings::new();
        let mut i: usize = 0;
        while i < pairs.len()
            invariant
                i <= pairs@.len(),
                ps == Seq::new(pairs@.len(), |i: int| (pairs@[i].0@, pairs@[i].1)),
                b.wf(),
                b@ == bind_all(ps.subrange(0, i as int)),
            decreases pairs.len() - i,
        {
            assert(ps.subrange(0, i + 1).drop_last() =~= ps.subrange(0, i as int));
            let (name, id) = (pairs[i].0.clone(), pairs[i].1);
            b.insert(name, id);
            i = i + 1;
        }
        assert(ps.subrange(0, pairs@.len() as int) =~= ps);
        b
    }

    /// A frame with the same bindings.
    pub fn copy(&self) -> (r: Bindings)
        requires
            self.wf(),
        ensures
            r.wf(),
            r@ == self@,
    {
        let mut entries: Vec<(String, SymbolId)> = Vec::new();
        let mut i: usize = 0;
        while i < self.entries.len()
            invariant
                i <= self.entries@.len(),
                entries@.len() == i,
                forall|k: int| 0 <= k < i ==> (#[trigger] entries@[k]).0@ == self.entries@[k].0@
                    && entries@[k].1 == self.entries@[k].1,
            decreases self.entries.len() - i,
        {
            entries.push((self.entries[i].0.clone(), self.entries[i].1));
            i = i + 1;
        }
        let r = Bindings { entries };
        assert(r@ =~= self@);
        r
    }

    pub fn len(&self) -> (r: usize)
        ensures
            r == self@.len(),
    {
        self.entries.len()
    }

    fn find(&self, name: &str) -> (r: Option<usize>)
        requires
            self.wf(),
        ensures
            match r {
                Some(i) => i < self@.len() && self@[i as int].0 == name@,
                None => forall|i: int| 0 <= i < self@.len() ==> self@[i].0 != name@,
            },
    {
        let mut i: usize = 0;
        while i < self.entries.len()
            invariant
                i <= self@.len(),
                self@.len() == self.entries@.len(),
                forall|k: int| 0 <= k < i ==> self@[k].0 != name@,
            decreases self.entries.len() - i,
        {
            if str_eq(self.entries[i].0.as_str(), name) {
                return Some(i);
            }
            i = i + 1;
        }
        None
    }

    /// The id bound to `name`.
    pub fn get(&self, name: &str) -> (r: Option<SymbolId>)
        requires
            self.wf(),
        ensures
            r == lookup(self@, name@),
    {
        match self.find(name) {
            Some(i) => {
                proof {
                    lemma_lookup_found(self@, i as int);
                }
                Some(self.entries[i].1)
            },
            None => {
                proof {
                    lemma_lookup_absent(self@, name@);
                }
                None
            },
        }
    }

    /// Binds `name` to `id`, replacing an earlier binding of the name.
    pub fn insert(&mut self, name: String, id: SymbolId)
        requires
            old(self).wf(),
        ensures
            final(self).wf(),
            final(self)@ == bind(old(self)@, name@, id),
    {
        proof {
            lemma_bind(self@, name@, id);
        }
        let ghost nv = name@;
        match self.find(name.as_str()) {
            Some(i) => {
                self.entries.set(i, (name, id));
                assert(self@ =~= bind(old(self)@, nv, id));
            },
            None => {
                self.entries.push((name, id));
                assert(self@ =~= bind(old(self)@, nv, id));
            },
        }
    }

    pub fn clear(&mut self)
        ensures
            final(self).wf(),
            final(self)@ == Seq::<(Seq<char>, SymbolId)>::empty(),
    {
        self.entries.clear();
        assert(self@ =~= Seq::<(Seq<char>, SymbolId)>::empty());
    }

    /// The name and id of the `i`-th binding.
    pub fn entry(&self, i: usize) -> (r: (String, SymbolId))
        requires
            i < self@.len(),
        ensures
            r.0@ == self@[i as int].0,
            r.1 == self@[i as int].1,
    {
        (self.entries[i].0.clone(), self.entries[i].1)
    }
}

} // verus!

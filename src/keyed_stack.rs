use crate::common::Ident;
use vstd::prelude::*;

verus! {

/// A stack of values, each pushed under an identifier. Looking an identifier
/// up finds its most recent entry together with that entry's depth, that is
/// the number of entries below it.
pub struct KeyedStack<V> {
    entries: Vec<(Ident, V)>,
}

/// The last position in `s` whose key is `key`.
pub open spec fn last_index_of<V>(s: Seq<(Seq<char>, V)>, key: Seq<char>) -> Option<nat>
    decreases s.len(),
{
    if s.len() == 0 {
        None
    } else if s.last().0 == key {
        Some((s.len() - 1) as nat)
    } else {
        last_index_of(s.drop_last(), key)
    }
}

pub proof fn lemma_last_index_of<V>(s: Seq<(Seq<char>, V)>, key: Seq<char>)
    ensures
        match last_index_of(s, key) {
            Some(i) => i < s.len() && s[i as int].0 == key && forall|j: int|
                i < j < s.len() ==> s[j].0 != key,
            None => forall|j: int| 0 <= j < s.len() ==> s[j].0 != key,
        },
    decreases s.len(),
{
    if s.len() > 0 {
        lemma_last_index_of(s.drop_last(), key);
        assert forall|j: int| 0 <= j < s.len() - 1 implies s.drop_last()[j] == s[j] by {}
    }
}

impl<V> View for KeyedStack<V> {
    type V = Seq<(Seq<char>, V)>;

    closed spec fn view(&self) -> Seq<(Seq<char>, V)> {
        self.entries@.map_values(|e: (Ident, V)| (e.0.name(), e.1))
    }
}

impl<V> KeyedStack<V> {
    pub fn new() -> (r: Self)
        ensures
            r@ == Seq::<(Seq<char>, V)>::empty(),
    {
        KeyedStack { entries: Vec::new() }
    }

    pub fn len(&self) -> (r: usize)
        ensures
            r == self@.len(),
    {
        self.entries.len()
    }

    pub fn push(&mut self, key: Ident, value: V)
        ensures
            final(self)@ == old(self)@.push((key.name(), value)),
    {
        self.entries.push((key, value));
        assert(self@ =~= old(self)@.push((key.name(), value)));
    }

    /// Removes the most recent entry under `key`, which is the top entry,
    /// and hands back its value. Every other entry keeps its depth.
    pub fn pop(&mut self, key: &Ident) -> (r: Option<V>)
        requires
            old(self)@.len() > 0,
            old(self)@.last().0 == key.name(),
        ensures
            r == Some(old(self)@.last().1),
            final(self)@ == old(self)@.drop_last(),
    {
        let ghost last = old(self).entries@.len() - 1;
        assert(old(self)@[last] == (old(self).entries@[last].0.name(), old(self).entries@[last].1));
        match self.entries.pop() {
            Some((_, v)) => {
                assert(self@ =~= old(self)@.drop_last());
                Some(v)
            },
            None => None,
        }
    }

    fn find_index(&self, key: &Ident) -> (r: Option<usize>)
        ensures
            match r {
                Some(i) => last_index_of(self@, key.name()) == Some(i as nat) && i < self@.len(),
                None => last_index_of(self@, key.name()) is None,
            },
    {
        proof {
            lemma_last_index_of(self@, key.name());
        }
        let mut i: usize = self.entries.len();
        assert(self@.subrange(0, i as int) =~= self@);
        while i > 0
            invariant
                i <= self.entries@.len(),
                self@.len() == self.entries@.len(),
                last_index_of(self@, key.name()) == last_index_of(self@.subrange(0, i as int), key.name()),
            decreases i,
        {
            let ghost s = self@.subrange(0, i as int);
            assert(s.drop_last() =~= self@.subrange(0, i - 1));
            if self.entries[i - 1].0.same_name(key) {
                return Some(i - 1);
            }
            i = i - 1;
        }
        assert(self@.subrange(0, 0) =~= Seq::<(Seq<char>, V)>::empty());
        None
    }

    /// The depth and value of the most recent entry under `key`.
    pub fn find(&self, key: &Ident) -> (r: Option<(usize, &V)>)
        ensures
            match last_index_of(self@, key.name()) {
                Some(i) => r matches Some((d, v)) && d == i && *v == self@[i as int].1,
                None => r is None,
            },
    {
        proof {
            lemma_last_index_of(self@, key.name());
        }
        match self.find_index(key) {
            Some(i) => {
                assert(self@[i as int] == (self.entries@[i as int].0.name(), self.entries@[i as int].1));
                Some((i, &self.entries[i].1))
            },
            None => None,
        }
    }
}

} // verus!

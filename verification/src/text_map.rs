//! A map from text to values, kept in ascending key order.
use crate::text::{is_text_less, same_text};
#[allow(unused_imports)]
use crate::text::{
    lemma_lex_irreflexive, lemma_lex_total, lemma_lex_transitive, lemma_utf8_injective, text_less,
};
use vstd::prelude::*;
use vstd::utf8::*;

verus! {

/// Values that can be copied without a change of what they hold.
pub trait Duplicate: DeepView + Sized {
    fn duplicate(&self) -> (copy: Self)
        ensures
            copy.deep_view() == self.deep_view(),
    ;
}

/// Whether the keys of a sequence of entries strictly ascend.
pub open spec fn keys_ascend<T>(entries: Seq<(Seq<char>, T)>) -> bool {
    forall|i: int, j: int|
        #![trigger entries[i], entries[j]]
        0 <= i < j < entries.len() ==> text_less(entries[i].0, entries[j].0)
}

/// Entries with distinct keys, in ascending order of their keys.
#[derive(Debug, PartialEq)]
pub struct TextMap<V> {
    entries: Vec<(String, V)>,
}

impl<V: DeepView> DeepView for TextMap<V> {
    type V = Seq<(Seq<char>, V::V)>;

    closed spec fn deep_view(&self) -> Seq<(Seq<char>, V::V)> {
        Seq::new(
            self.entries@.len(),
            |i: int| (self.entries@[i].0@, self.entries@[i].1.deep_view()),
        )
    }
}

impl<V> TextMap<V> {
    #[verifier::type_invariant]
    spec fn ascending(self) -> bool {
        forall|i: int, j: int|
            #![trigger self.entries@[i], self.entries@[j]]
            0 <= i < j < self.entries@.len() ==> text_less(
                self.entries@[i].0@,
                self.entries@[j].0@,
            )
    }
}

impl<V: DeepView> TextMap<V> {
    /// A map without entries.
    pub fn new() -> (map: Self)
        ensures
            map.deep_view() == Seq::<(Seq<char>, V::V)>::empty(),
    {
        let map = TextMap { entries: Vec::new() };
        assert(map.deep_view() =~= Seq::<(Seq<char>, V::V)>::empty());
        map
    }

    /// The number of entries. The keys of a map always ascend.
    pub fn len(&self) -> (n: usize)
        ensures
            n == self.deep_view().len(),
            keys_ascend(self.deep_view()),
    {
        proof {
            use_type_invariant(self);
            let entries = self.deep_view();
            assert forall|i: int, j: int|
                #![trigger entries[i], entries[j]]
                0 <= i < j < entries.len() implies text_less(entries[i].0, entries[j].0) by {
                let a = self.entries@[i];
                let b = self.entries@[j];
                assert(text_less(a.0@, b.0@));
            }
        }
        self.entries.len()
    }

    /// Whether there is no entry.
    pub fn is_empty(&self) -> (yes: bool)
        ensures
            yes == (self.deep_view().len() == 0),
    {
        self.entries.len() == 0
    }

    /// The key at position `i` in ascending order.
    pub fn key_at(&self, i: usize) -> (key: &String)
        requires
            i < self.deep_view().len(),
        ensures
            key@ == self.deep_view()[i as int].0,
    {
        &self.entries[i].0
    }

    /// The value at position `i` in ascending key order.
    pub fn value_at(&self, i: usize) -> (value: &V)
        requires
            i < self.deep_view().len(),
        ensures
            value.deep_view() == self.deep_view()[i as int].1,
    {
        &self.entries[i].1
    }

    /// The value stored under `key`.
    pub fn get(&self, key: &str) -> (value: Option<&V>)
        ensures
            value matches Some(v) ==> self.deep_view().contains((key@, v.deep_view())),
            value is None ==> forall|i: int|
                0 <= i < self.deep_view().len() ==> (#[trigger] self.deep_view()[i]).0 != key@,
    {
        let mut i: usize = 0;
        while i < self.entries.len()
            invariant
                i <= self.entries@.len(),
                forall|j: int| 0 <= j < i ==> (#[trigger] self.deep_view()[j]).0 != key@,
            decreases self.entries@.len() - i,
        {
            if same_text(self.entries[i].0.as_str(), key) {
                assert(self.deep_view()[i as int] == (key@, self.entries@[i as int].1.deep_view()));
                return Some(&self.entries[i].1);
            }
            i = i + 1;
        }
        None
    }

    /// Puts an entry behind all others.
    pub fn push_last(&mut self, key: String, value: V)
        requires
            old(self).deep_view().len() == 0 || text_less(
                old(self).deep_view().last().0,
                key@,
            ),
        ensures
            final(self).deep_view() == old(self).deep_view().push((key@, value.deep_view())),
    {
        proof {
            use_type_invariant(&*self);
        }
        let mut entries: Vec<(String, V)> = Vec::new();
        std::mem::swap(&mut entries, &mut self.entries);
        let ghost before = entries@;
        proof {
            let n = before.len() as int;
            assert forall|i: int| 0 <= i < n implies text_less(before[i].0@, key@) by {
                if i < n - 1 {
                    let a = before[i];
                    let b = before[n - 1];
                    lemma_lex_transitive(encode_utf8(a.0@), encode_utf8(b.0@), encode_utf8(key@));
                }
            }
        }
        entries.push((key, value));
        self.entries = entries;
        assert(self.deep_view() =~= old(self).deep_view().push((key@, value.deep_view())));
    }

    /// Stores `value` under `key`, in place of what was stored there before.
    pub fn insert(&mut self, key: String, value: V)
        ensures
            keys_ascend(final(self).deep_view()),
            forall|e: (Seq<char>, V::V)|
                #[trigger] final(self).deep_view().contains(e) <==> (e == (
                    key@,
                    value.deep_view(),
                ) || (old(self).deep_view().contains(e) && e.0 != key@)),
    {
        proof {
            use_type_invariant(&*self);
        }
        let mut entries: Vec<(String, V)> = Vec::new();
        std::mem::swap(&mut entries, &mut self.entries);
        let ghost before = entries@;
        let mut at: usize = 0;
        while at < entries.len() && is_text_less(entries[at].0.as_str(), key.as_str())
            invariant
                entries@ == before,
                at <= before.len(),
                forall|j: int| 0 <= j < at ==> text_less((#[trigger] before[j]).0@, key@),
            decreases before.len() - at,
        {
            at = at + 1;
        }
        let same = at < entries.len() && same_text(entries[at].0.as_str(), key.as_str());
        proof {
            assert forall|j: int| at <= j < before.len() && (j > at || !same) implies text_less(
                key@,
                (#[trigger] before[j]).0@,
            ) by {
                let k = encode_utf8(key@);
                let a = before[at as int];
                let b = before[j];
                lemma_lex_total(encode_utf8(a.0@), k);
                if encode_utf8(a.0@) == k {
                    lemma_utf8_injective(a.0@, key@);
                }
                if j > at {
                    if !same {
                        lemma_lex_transitive(k, encode_utf8(a.0@), encode_utf8(b.0@));
                    }
                }
            }
        }
        if same {
            entries.remove(at);
        }
        let ghost without = entries@;
        entries.insert(at, (key, value));
        let ghost added = (key@, value.deep_view());
        proof {
            assert forall|i: int, j: int|
                #![trigger entries@[i], entries@[j]]
                0 <= i < j < entries@.len() implies text_less(entries@[i].0@, entries@[j].0@) by {
                let skip: int = if same { 0 } else { 1 };
                let x = if i < at { before[i] } else { before[i - skip] };
                let y = if j < at { before[j] } else { before[j - skip] };
            }
        }
        self.entries = entries;
        let _count: usize = self.len();
        proof {
            let now = self.deep_view();
            let was = old(self).deep_view();
            assert forall|e: (Seq<char>, V::V)| #[trigger] now.contains(e) <==> (e == added || (
            was.contains(e) && e.0 != key@)) by {
                let k = encode_utf8(key@);
                lemma_lex_irreflexive(k);
                let skip: int = if same { 0 } else { 1 };
                if now.contains(e) {
                    let i = choose|i: int| 0 <= i < now.len() && now[i] == e;
                    if i != at {
                        let o = if i < at { i } else { i - skip };
                        assert(was[o] == e);
                        assert(before[o].0@ == e.0);
                    }
                }
                if e == added {
                    assert(now[at as int] == e);
                }
                if was.contains(e) && e.0 != key@ {
                    let o = choose|o: int| 0 <= o < was.len() && was[o] == e;
                    assert(before[o].0@ == e.0);
                    let i = if o < at { o } else { o + skip };
                    assert(now[i] == e);
                }
            }
        }
    }
}

impl<V: Duplicate> Clone for TextMap<V> {
    fn clone(&self) -> (map: Self)
        ensures
            map.deep_view() == self.deep_view(),
    {
        proof {
            use_type_invariant(self);
        }
        let mut entries: Vec<(String, V)> = Vec::new();
        let mut i: usize = 0;
        while i < self.entries.len()
            invariant
                i <= self.entries@.len(),
                entries@.len() == i,
                forall|j: int|
                    0 <= j < i ==> (#[trigger] entries@[j]).0@ == self.entries@[j].0@
                        && entries@[j].1.deep_view() == self.entries@[j].1.deep_view(),
            decreases self.entries@.len() - i,
        {
            entries.push((self.entries[i].0.clone(), self.entries[i].1.duplicate()));
            i = i + 1;
        }
        proof {
            assert forall|i: int, j: int|
                #![trigger entries@[i], entries@[j]]
                0 <= i < j < entries@.len() implies text_less(entries@[i].0@, entries@[j].0@) by {
                let a = self.entries@[i];
                let b = self.entries@[j];
                assert(text_less(a.0@, b.0@));
            }
        }
        let map = TextMap { entries };
        assert(map.deep_view() =~= self.deep_view());
        map
    }
}

} // verus!

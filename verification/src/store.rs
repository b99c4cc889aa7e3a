//! The in-memory property store: a key/value mapping kept as a vector of
//! entries in strictly ascending key order, so that every externally
//! observable output (file content or terminal display) is deterministic.

use vstd::prelude::*;
use crate::text::{lex_lt, lemma_lex_lt_asym, lemma_lex_lt_connected, lemma_lex_lt_trans, str_lt,
    str_eq};

verus! {

/// The mapping denoted by a sequence of (key, value) entries, with a later
/// entry overriding an earlier one of the same key.
pub open spec fn map_of(entries: Seq<(Seq<char>, Seq<char>)>) -> Map<Seq<char>, Seq<char>>
    decreases entries.len(),
{
    if entries.len() == 0 {
        Map::empty()
    } else {
        map_of(entries.drop_last()).insert(entries.last().0, entries.last().1)
    }
}

/// Whether the keys of `entries` are pairwise distinct.
pub open spec fn distinct_keys(entries: Seq<(Seq<char>, Seq<char>)>) -> bool {
    forall|i: int, j: int|
        0 <= i < j < entries.len() ==> (#[trigger] entries[i].0) != (#[trigger] entries[j].0)
}

/// Whether the keys of `entries` are strictly ascending in the key order.
pub open spec fn sorted_keys(entries: Seq<(Seq<char>, Seq<char>)>) -> bool {
    forall|i: int, j: int|
        0 <= i < j < entries.len() ==> lex_lt(
            (#[trigger] entries[i]).0,
            (#[trigger] entries[j]).0,
        )
}

/// Strictly ascending keys are pairwise distinct.
pub proof fn lemma_sorted_distinct(entries: Seq<(Seq<char>, Seq<char>)>)
    requires
        sorted_keys(entries),
    ensures
        distinct_keys(entries),
{
    assert forall|i: int, j: int| 0 <= i < j < entries.len() implies (#[trigger] entries[i].0) != (
    #[trigger] entries[j].0) by {
        assert(lex_lt(entries[i].0, entries[j].0));
        lemma_lex_lt_asym(entries[i].0, entries[j].0);
    }
}

/// A key that no entry carries is not in the denoted mapping.
pub proof fn lemma_map_of_absent(entries: Seq<(Seq<char>, Seq<char>)>, k: Seq<char>)
    requires
        forall|i: int| 0 <= i < entries.len() ==> (#[trigger] entries[i].0) != k,
    ensures
        !map_of(entries).contains_key(k),
    decreases entries.len(),
{
    if entries.len() > 0 {
        assert(forall|i: int|
            0 <= i < entries.drop_last().len() ==> (#[trigger] entries.drop_last()[i])
                == entries[i]);
        lemma_map_of_absent(entries.drop_last(), k);
        assert(entries[entries.len() - 1].0 != k);
    }
}

/// Every key in the denoted mapping is the key of some entry.
pub proof fn lemma_map_of_present(entries: Seq<(Seq<char>, Seq<char>)>, k: Seq<char>)
    requires
        map_of(entries).contains_key(k),
    ensures
        exists|i: int| 0 <= i < entries.len() && (#[trigger] entries[i].0) == k,
{
    if forall|i: int| 0 <= i < entries.len() ==> (#[trigger] entries[i].0) != k {
        lemma_map_of_absent(entries, k);
    }
}

/// With distinct keys, each entry's key maps to exactly that entry's value.
pub proof fn lemma_map_of_index(entries: Seq<(Seq<char>, Seq<char>)>)
    requires
        distinct_keys(entries),
    ensures
        forall|i: int|
            0 <= i < entries.len() ==> map_of(entries).contains_key((#[trigger] entries[i]).0)
                && map_of(entries)[entries[i].0] == entries[i].1,
    decreases entries.len(),
{
    if entries.len() > 0 {
        assert(forall|i: int|
            0 <= i < entries.drop_last().len() ==> (#[trigger] entries.drop_last()[i])
                == entries[i]);
        lemma_map_of_index(entries.drop_last());
        assert forall|i: int| 0 <= i < entries.len() implies map_of(entries).contains_key(
            (#[trigger] entries[i]).0,
        ) && map_of(entries)[entries[i].0] == entries[i].1 by {
            if i < entries.len() - 1 {
                assert(entries.drop_last()[i] == entries[i]);
                assert(entries[i].0 != entries[entries.len() - 1].0);
            }
        }
    }
}

/// Inserting an entry whose key does not occur to its right denotes the same
/// mapping as updating the mapping of the remaining entries.
proof fn lemma_map_of_mid(
    a: Seq<(Seq<char>, Seq<char>)>,
    b: Seq<(Seq<char>, Seq<char>)>,
    x: (Seq<char>, Seq<char>),
)
    requires
        forall|j: int| 0 <= j < b.len() ==> (#[trigger] b[j].0) != x.0,
    ensures
        map_of(a + seq![x] + b) == map_of(a + b).insert(x.0, x.1),
    decreases b.len(),
{
    if b.len() == 0 {
        assert(a + seq![x] + b =~= (a + b).push(x));
        assert((a + b).push(x).drop_last() =~= a + b);
        assert(map_of((a + b).push(x)) == map_of(a + b).insert(x.0, x.1));
    } else {
        let y = b.last();
        assert(forall|j: int|
            0 <= j < b.drop_last().len() ==> (#[trigger] b.drop_last()[j]) == b[j]);
        lemma_map_of_mid(a, b.drop_last(), x);
        assert(a + seq![x] + b =~= (a + seq![x] + b.drop_last()).push(y));
        assert((a + seq![x] + b.drop_last()).push(y).drop_last() =~= a + seq![x] + b.drop_last());
        assert(a + b =~= (a + b.drop_last()).push(y));
        assert((a + b.drop_last()).push(y).drop_last() =~= a + b.drop_last());
        assert(map_of(a + seq![x] + b) == map_of(a + b.drop_last()).insert(x.0, x.1).insert(
            y.0,
            y.1,
        ));
        assert(b[b.len() - 1].0 != x.0);
        assert(map_of(a + b.drop_last()).insert(x.0, x.1).insert(y.0, y.1) =~= map_of(
            a + b.drop_last(),
        ).insert(y.0, y.1).insert(x.0, x.1));
    }
}

/// A store of configuration properties: text keys mapped to text values,
/// held in strictly ascending key order.
pub struct PropertyStore {
    /// The entries, in strictly ascending key order when the store is
    /// well-formed.
    pub entries: Vec<(String, String)>,
}

impl PropertyStore {
    /// The entries as mathematical character sequences, in storage order.
    pub open spec fn entry_seq(&self) -> Seq<(Seq<char>, Seq<char>)> {
        self.entries@.map_values(|e: (String, String)| (e.0@, e.1@))
    }

    /// The mapping the store denotes.
    pub open spec fn as_map(&self) -> Map<Seq<char>, Seq<char>> {
        map_of(self.entry_seq())
    }

    /// Well-formedness: the keys are strictly ascending.
    pub open spec fn wf(&self) -> bool {
        sorted_keys(self.entry_seq())
    }

    /// An empty store.
    pub fn new() -> (store: Self)
        ensures
            store.wf(),
            store.as_map() == Map::<Seq<char>, Seq<char>>::empty(),
            store.entry_seq() == Seq::<(Seq<char>, Seq<char>)>::empty(),
    {
        let store = PropertyStore { entries: Vec::new() };
        proof {
            assert(store.entry_seq() =~= Seq::<(Seq<char>, Seq<char>)>::empty());
        }
        store
    }

    /// The number of entries.
    pub fn len(&self) -> (n: usize)
        ensures
            n == self.entry_seq().len(),
    {
        self.entries.len()
    }

    /// Whether the store holds no entry; true exactly when the denoted
    /// mapping is empty.
    pub fn is_empty(&self) -> (r: bool)
        ensures
            r == (self.entry_seq().len() == 0),
            r == (self.as_map() == Map::<Seq<char>, Seq<char>>::empty()),
    {
        proof {
            if self.entry_seq().len() == 0 {
                assert(self.as_map() =~= Map::<Seq<char>, Seq<char>>::empty());
            } else {
                assert(self.as_map().contains_key(self.entry_seq().last().0));
            }
        }
        self.entries.len() == 0
    }

    /// Inserts `key` with `value`, replacing any existing value for that key.
    pub fn insert(&mut self, key: String, value: String)
        requires
            old(self).wf(),
        ensures
            final(self).wf(),
            final(self).as_map() == old(self).as_map().insert(key@, value@),
    {
        let ghost es = old(self).entry_seq();
        let mut i: usize = 0;
        while i < self.entries.len() && str_lt(self.entries[i].0.as_str(), key.as_str())
            invariant
                self == old(self),
                es == self.entry_seq(),
                0 <= i <= es.len(),
                forall|j: int| 0 <= j < i ==> lex_lt((#[trigger] es[j]).0, key@),
            decreases es.len() - i,
        {
            proof {
                assert(es[i as int].0 == self.entries@[i as int].0@);
            }
            i = i + 1;
        }
        proof {
            assert(sorted_keys(es));
        }
        if i < self.entries.len() && str_eq(self.entries[i].0.as_str(), key.as_str()) {
            // same key: replace the entry
            let _replaced = self.entries.remove(i);
            self.entries.insert(i, (key, value));
            proof {
                let a = es.take(i as int);
                let b = es.skip(i + 1);
                let x = (key@, value@);
                assert(es[i as int].0 == key@);
                assert(es =~= a + seq![es[i as int]] + b);
                assert(self.entry_seq() =~= a + seq![x] + b);
                assert forall|j: int| 0 <= j < b.len() implies (#[trigger] b[j].0) != key@ by {
                    assert(b[j] == es[i + 1 + j]);
                    assert(lex_lt(es[i as int].0, es[i + 1 + j].0));
                    lemma_lex_lt_asym(key@, es[i + 1 + j].0);
                }
                lemma_map_of_mid(a, b, x);
                lemma_map_of_mid(a, b, es[i as int]);
                assert(map_of(a + b).insert(key@, es[i as int].1).insert(key@, value@) =~= map_of(
                    a + b,
                ).insert(key@, value@));
                assert(final(self).as_map() == old(self).as_map().insert(key@, value@));
                assert forall|p: int, q: int|
                    0 <= p < q < self.entry_seq().len() implies lex_lt(
                    (#[trigger] self.entry_seq()[p]).0,
                    (#[trigger] self.entry_seq()[q]).0,
                ) by {
                    assert(self.entry_seq()[p].0 == es[p].0);
                    assert(self.entry_seq()[q].0 == es[q].0);
                    assert(lex_lt(es[p].0, es[q].0));
                }
            }
        } else {
            // new key: it goes at position `i`, before any greater key
            proof {
                if i < self.entries@.len() {
                    assert(es[i as int].0 == self.entries@[i as int].0@);
                    lemma_lex_lt_connected(key@, es[i as int].0);
                    assert(lex_lt(key@, es[i as int].0));
                }
            }
            self.entries.insert(i, (key, value));
            proof {
                let a = es.take(i as int);
                let b = es.skip(i as int);
                let x = (key@, value@);
                assert(es =~= a + b);
                assert(self.entry_seq() =~= a + seq![x] + b);
                assert forall|j: int| 0 <= j < b.len() implies (#[trigger] b[j].0) != key@ by {
                    assert(b[j] == es[i + j]);
                    if j == 0 {
                        lemma_lex_lt_asym(key@, es[i as int].0);
                    } else {
                        assert(lex_lt(es[i as int].0, es[i + j].0));
                        lemma_lex_lt_trans(key@, es[i as int].0, es[i + j].0);
                        lemma_lex_lt_asym(key@, es[i + j].0);
                    }
                }
                lemma_map_of_mid(a, b, x);
                assert(final(self).as_map() == old(self).as_map().insert(key@, value@));
                assert forall|p: int, q: int|
                    0 <= p < q < self.entry_seq().len() implies lex_lt(
                    (#[trigger] self.entry_seq()[p]).0,
                    (#[trigger] self.entry_seq()[q]).0,
                ) by {
                    let n = self.entry_seq().len();
                    assert(forall|p0: int| 0 <= p0 < i ==> self.entry_seq()[p0] == es[p0]);
                    assert(self.entry_seq()[i as int] == x);
                    assert(forall|q0: int| i < q0 < n ==> self.entry_seq()[q0] == es[q0 - 1]);
                    if q < i {
                        assert(lex_lt(es[p].0, es[q].0));
                    } else if p < i && q == i {
                        assert(lex_lt(es[p].0, key@));
                    } else if p < i && q > i {
                        if p < q - 1 {
                            assert(lex_lt(es[p].0, es[q - 1].0));
                        } else {
                            assert(lex_lt(es[p].0, key@));
                            assert(lex_lt(key@, es[i as int].0));
                            lemma_lex_lt_trans(es[p].0, key@, es[i as int].0);
                        }
                    } else if p == i {
                        assert(q - 1 >= i);
                        if q - 1 == i {
                            assert(lex_lt(key@, es[i as int].0));
                        } else {
                            assert(lex_lt(es[i as int].0, es[q - 1].0));
                            lemma_lex_lt_trans(key@, es[i as int].0, es[q - 1].0);
                        }
                    } else {
                        assert(lex_lt(es[p - 1].0, es[q - 1].0));
                    }
                }
            }
        }
    }

    /// Looks up the value stored for `key`, if any.
    pub fn get(&self, key: &str) -> (r: Option<&String>)
        requires
            self.wf(),
        ensures
            match r {
                Some(v) => self.as_map().contains_key(key@) && self.as_map()[key@] == v@,
                None => !self.as_map().contains_key(key@),
            },
    {
        proof {
            lemma_sorted_distinct(self.entry_seq());
            lemma_map_of_index(self.entry_seq());
        }
        let ghost es = self.entry_seq();
        let mut i: usize = 0;
        while i < self.entries.len()
            invariant
                es == self.entry_seq(),
                distinct_keys(es),
                0 <= i <= es.len(),
                forall|j: int| 0 <= j < i ==> (#[trigger] es[j]).0 != key@,
                forall|j: int|
                    0 <= j < es.len() ==> map_of(es).contains_key((#[trigger] es[j]).0) && map_of(
                        es,
                    )[es[j].0] == es[j].1,
            decreases es.len() - i,
        {
            if str_eq(self.entries[i].0.as_str(), key) {
                proof {
                    assert(es[i as int].0 == key@);
                    assert(self.as_map()[key@] == es[i as int].1);
                }
                return Some(&self.entries[i].1);
            }
            proof {
                assert(es[i as int].0 == self.entries@[i as int].0@);
            }
            i = i + 1;
        }
        proof {
            lemma_map_of_absent(es, key@);
        }
        None
    }

    /// The entries in ascending key order, as clones: the single ordering
    /// rule shared by the file writer and the terminal display.
    pub fn sorted_entries(&self) -> (r: Vec<(String, String)>)
        requires
            self.wf(),
        ensures
            r@.len() == self.entry_seq().len(),
            forall|j: int|
                0 <= j < r@.len() ==> ((#[trigger] r@[j]).0@, r@[j].1@) == self.entry_seq()[j],
    {
        let mut r: Vec<(String, String)> = Vec::new();
        let mut i: usize = 0;
        while i < self.entries.len()
            invariant
                0 <= i <= self.entries@.len(),
                r@.len() == i,
                forall|j: int|
                    0 <= j < i ==> ((#[trigger] r@[j]).0@, r@[j].1@) == self.entry_seq()[j],
            decreases self.entries@.len() - i,
        {
            let k = self.entries[i].0.clone();
            let v = self.entries[i].1.clone();
            proof {
                assert(k@ == self.entries@[i as int].0@);
                assert(v@ == self.entries@[i as int].1@);
                assert(self.entry_seq()[i as int] == (self.entries@[i as int].0@, self.entries@[i as int].1@));
            }
            r.push((k, v));
            i = i + 1;
        }
        r
    }

    /// Applies every entry of `overrides` to this store: an override replaces
    /// the stored value for its key, or adds the key when it is new.
    pub fn merge(&mut self, overrides: &PropertyStore)
        requires
            old(self).wf(),
            overrides.wf(),
        ensures
            final(self).wf(),
            final(self).as_map() == old(self).as_map().union_prefer_right(overrides.as_map()),
    {
        let ghost os = overrides.entry_seq();
        let mut i: usize = 0;
        proof {
            assert(os.take(0) =~= Seq::<(Seq<char>, Seq<char>)>::empty());
            assert(self.as_map() =~= old(self).as_map().union_prefer_right(map_of(os.take(0))));
        }
        while i < overrides.entries.len()
            invariant
                self.wf(),
                os == overrides.entry_seq(),
                0 <= i <= os.len(),
                self.as_map() == old(self).as_map().union_prefer_right(map_of(os.take(i as int))),
            decreases os.len() - i,
        {
            let k = overrides.entries[i].0.clone();
            let v = overrides.entries[i].1.clone();
            proof {
                assert(k@ == os[i as int].0);
                assert(v@ == os[i as int].1);
            }
            self.insert(k, v);
            proof {
                let taken = os.take(i as int);
                let taken1 = os.take(i + 1);
                assert(taken1.drop_last() =~= taken);
                assert(taken1.last() == os[i as int]);
                assert(map_of(taken1) == map_of(taken).insert(os[i as int].0, os[i as int].1));
                assert(old(self).as_map().union_prefer_right(map_of(taken)).insert(
                    os[i as int].0,
                    os[i as int].1,
                ) =~= old(self).as_map().union_prefer_right(map_of(taken1)));
            }
            i = i + 1;
        }
        proof {
            assert(os.take(i as int) =~= os);
        }
    }
}

} // verus!


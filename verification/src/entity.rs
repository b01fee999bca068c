//! Entities that are told apart by a text id and carry the time of their
//! last edit, and collections of them read as maps from id to entity.

use vstd::prelude::*;

verus! {

/// A model that is told apart by a text id.
pub trait Keyed {
    spec fn key(&self) -> Seq<char>;
}

/// A keyed model that says when it was last edited, if it knows.
pub trait Stamped: Keyed {
    spec fn edited(&self) -> Option<i64>;
}

/// A value in memory whose model is keyed.
pub trait Identified: View + Sized where Self::V: Keyed {
    fn id(&self) -> (r: &String)
        ensures
            r@ == self@.key(),
    ;

    fn duplicate(&self) -> (r: Self)
        ensures
            r@ == self@,
    ;
}

/// An entity in memory: identified, with the time of its last edit.
pub trait Entity: Identified where Self::V: Stamped {
    fn last_edited(&self) -> (r: Option<i64>)
        ensures
            r == self@.edited(),
    ;
}

/// The text of an optional string.
pub open spec fn text_of(o: Option<String>) -> Option<Seq<char>> {
    match o {
        Some(s) => Some(s@),
        None => None,
    }
}

/// The models of a sequence of values.
pub open spec fn views<E: View>(s: Seq<E>) -> Seq<E::V> {
    Seq::new(s.len(), |i: int| s[i]@)
}

/// The first position in `s` that holds `key`, if any.
pub open spec fn position<T: Keyed>(s: Seq<T>, key: Seq<char>) -> Option<int>
    decreases s.len(),
{
    if s.len() == 0 {
        None
    } else {
        match position(s.drop_last(), key) {
            Some(i) => Some(i),
            None => if s.last().key() == key {
                Some(s.len() - 1)
            } else {
                None
            },
        }
    }
}

/// Whether some element of `s` has `key`.
pub open spec fn has_key<T: Keyed>(s: Seq<T>, key: Seq<char>) -> bool {
    position(s, key) is Some
}

/// No two elements of `s` share a key.
pub open spec fn distinct_keys<T: Keyed>(s: Seq<T>) -> bool {
    forall|i: int, j: int|
        0 <= i < j < s.len() ==> (#[trigger] s[i]).key() != (#[trigger] s[j]).key()
}

/// `s` read as a map from key to element: each key stands where it first
/// occurs, with the element that occurs last under it.
pub open spec fn latest<T: Keyed>(s: Seq<T>) -> Seq<T>
    decreases s.len(),
{
    if s.len() == 0 {
        s
    } else {
        let before = latest(s.drop_last());
        match position(before, s.last().key()) {
            Some(i) => before.update(i, s.last()),
            None => before.push(s.last()),
        }
    }
}

/// What `position` returns is the least index with that key.
pub proof fn lemma_position<T: Keyed>(s: Seq<T>, key: Seq<char>)
    ensures
        match position(s, key) {
            Some(i) => 0 <= i < s.len() && s[i].key() == key && forall|j: int|
                0 <= j < i ==> (#[trigger] s[j]).key() != key,
            None => forall|j: int| 0 <= j < s.len() ==> (#[trigger] s[j]).key() != key,
        },
    decreases s.len(),
{
    if s.len() > 0 {
        lemma_position(s.drop_last(), key);
        assert(forall|j: int| 0 <= j < s.len() - 1 ==> s.drop_last()[j] == s[j]);
    }
}

/// The position of a key that occurs at `i` is at most `i`; where keys are
/// distinct it is `i`.
pub proof fn lemma_position_of_member<T: Keyed>(s: Seq<T>, i: int)
    requires
        0 <= i < s.len(),
    ensures
        position(s, s[i].key()) is Some,
        position(s, s[i].key())->0 <= i,
        distinct_keys(s) ==> position(s, s[i].key()) == Some(i),
{
    lemma_position(s, s[i].key());
}

/// `latest` keeps the keys of `s`, holds each once, and is no longer than `s`.
pub proof fn lemma_latest<T: Keyed>(s: Seq<T>)
    ensures
        distinct_keys(latest(s)),
        latest(s).len() <= s.len(),
        forall|key: Seq<char>| has_key(latest(s), key) == has_key(s, key),
        forall|i: int| 0 <= i < latest(s).len() ==> has_key(s, (#[trigger] latest(s)[i]).key()),
    decreases s.len(),
{
    if s.len() > 0 {
        let before = latest(s.drop_last());
        let x = s.last();
        lemma_latest(s.drop_last());
        lemma_position(before, x.key());
        let after = latest(s);
        assert forall|i: int, j: int| 0 <= i < j < after.len() implies (#[trigger] after[i]).key()
            != (#[trigger] after[j]).key() by {
            match position(before, x.key()) {
                Some(p) => {
                    assert(after[i].key() == before[i].key());
                    assert(after[j].key() == before[j].key());
                },
                None => {
                    if j < before.len() {
                        assert(after[i] == before[i] && after[j] == before[j]);
                    } else {
                        assert(after[i] == before[i]);
                    }
                },
            }
        }
        assert forall|key: Seq<char>| has_key(after, key) == has_key(s, key) by {
            lemma_position(after, key);
            lemma_position(s, key);
            lemma_position(s.drop_last(), key);
            lemma_position(before, key);
            assert(has_key(before, key) == has_key(s.drop_last(), key));
            if has_key(before, key) {
                let q = position(before, key)->0;
                assert(after[q].key() == key);
            } else if x.key() == key {
                assert(after[after.len() - 1].key() == key);
            } else {
                assert forall|j: int| 0 <= j < after.len() implies (#[trigger] after[j]).key()
                    != key by {
                    if j < before.len() {
                        assert(after[j].key() == before[j].key());
                    }
                }
            }
        }
        assert forall|i: int| 0 <= i < after.len() implies has_key(s, (#[trigger] after[i]).key()) by {
            lemma_position(after, after[i].key());
            assert(has_key(after, after[i].key()));
        }
    }
}

/// Every element of `latest(s)` is an element of `s`.
pub proof fn lemma_latest_within<T: Keyed>(s: Seq<T>)
    ensures
        forall|i: int| 0 <= i < latest(s).len() ==> s.contains(#[trigger] latest(s)[i]),
    decreases s.len(),
{
    if s.len() > 0 {
        let before = latest(s.drop_last());
        lemma_latest_within(s.drop_last());
        lemma_position(before, s.last().key());
        assert forall|i: int| 0 <= i < latest(s).len() implies s.contains(
            #[trigger] latest(s)[i],
        ) by {
            if latest(s)[i] == s.last() {
                assert(s[s.len() - 1] == s.last());
            } else {
                assert(latest(s)[i] == before[i]);
                assert(s.drop_last().contains(before[i]));
                let a = choose|a: int| 0 <= a < s.drop_last().len() && s.drop_last()[a] == before[i];
                assert(s[a] == before[i]);
            }
        }
    }
}

/// Where keys are distinct already, `latest` changes nothing.
pub proof fn lemma_latest_of_distinct<T: Keyed>(s: Seq<T>)
    requires
        distinct_keys(s),
    ensures
        latest(s) == s,
    decreases s.len(),
{
    if s.len() > 0 {
        let front = s.drop_last();
        assert(distinct_keys(front)) by {
            assert forall|i: int, j: int| 0 <= i < j < front.len() implies (#[trigger] front[i]).key()
                != (#[trigger] front[j]).key() by {
                assert(front[i] == s[i] && front[j] == s[j]);
            }
        }
        lemma_latest_of_distinct(front);
        lemma_position(front, s.last().key());
        if position(front, s.last().key()) is Some {
            let p = position(front, s.last().key())->0;
            assert(front[p] == s[p]);
            assert(s[p].key() != s[s.len() - 1].key());
        }
        assert(front.push(s.last()) =~= s);
    }
}

/// Where `id` first stands in `v`, if anywhere.
pub fn find_position<E: Identified>(v: &Vec<E>, id: &String) -> (r: Option<usize>) where
    E::V: Keyed,

    ensures
        match r {
            Some(i) => i < v.len() && position(views(v@), id@) == Some(i as int),
            None => position(views(v@), id@) is None,
        },
{
    let mut i: usize = 0;
    while i < v.len()
        invariant
            i <= v.len(),
            forall|j: int| 0 <= j < i ==> (#[trigger] views(v@)[j]).key() != id@,
        decreases v.len() - i,
    {
        if *v[i].id() == *id {
            proof {
                lemma_position(views(v@), id@);
                assert(views(v@)[i as int].key() == id@);
            }
            return Some(i);
        }
        i += 1;
    }
    proof {
        lemma_position(views(v@), id@);
    }
    None
}

/// Copies `v` element by element.
pub fn duplicate_all<E: Identified>(v: &Vec<E>) -> (r: Vec<E>) where E::V: Keyed
    ensures
        views(r@) == views(v@),
{
    let mut out: Vec<E> = Vec::new();
    let mut i: usize = 0;
    while i < v.len()
        invariant
            i <= v.len(),
            out@.len() == i,
            forall|j: int| 0 <= j < i ==> (#[trigger] out@[j])@ == v@[j]@,
        decreases v.len() - i,
    {
        out.push(v[i].duplicate());
        i += 1;
    }
    assert(views(out@) =~= views(v@));
    out
}

/// `v` as a map from id to entity: see `latest`.
pub fn latest_of<E: Identified>(v: &Vec<E>) -> (r: Vec<E>) where E::V: Keyed
    ensures
        views(r@) == latest(views(v@)),
{
    let mut out: Vec<E> = Vec::new();
    let mut i: usize = 0;
    assert(views(v@).take(0) =~= Seq::empty());
    assert(views(out@) =~= latest(views(v@).take(0)));
    while i < v.len()
        invariant
            i <= v.len(),
            views(out@) == latest(views(v@).take(i as int)),
        decreases v.len() - i,
    {
        let ghost before = views(out@);
        let ghost prefix = views(v@).take(i as int + 1);
        assert(prefix.drop_last() =~= views(v@).take(i as int));
        assert(prefix.last() == v@[i as int]@);
        match find_position(&out, v[i].id()) {
            Some(p) => {
                out.set(p, v[i].duplicate());
                assert(views(out@) =~= before.update(p as int, v@[i as int]@));
            },
            None => {
                out.push(v[i].duplicate());
                assert(views(out@) =~= before.push(v@[i as int]@));
            },
        }
        i += 1;
    }
    assert(views(v@).take(v@.len() as int) =~= views(v@));
    out
}

} // verus!

//! Association lists keyed by strings: a `Vec` of pairs whose keys are
//! pairwise distinct, viewed as a finite map.
use vstd::prelude::*;

verus! {

/// Some entry of `s` has key `k`.
pub open spec fn has_key<T>(s: Seq<(String, T)>, k: Seq<char>) -> bool {
    exists|i: int| 0 <= i < s.len() && #[trigger] s[i].0@ == k
}

/// No two entries of `s` share a key.
pub open spec fn unique_keys<T>(s: Seq<(String, T)>) -> bool {
    forall|i: int, j: int|
        #![trigger s[i], s[j]]
        0 <= i < s.len() && 0 <= j < s.len() && s[i].0@ == s[j].0@ ==> i == j
}

/// The map that the entries of `s` describe; a later entry wins over an
/// earlier one with the same key.
pub open spec fn assoc<T: DeepView>(s: Seq<(String, T)>) -> Map<Seq<char>, T::V>
    decreases s.len(),
{
    if s.len() == 0 {
        Map::empty()
    } else {
        assoc(s.drop_last()).insert(s.last().0@, s.last().1.deep_view())
    }
}

pub proof fn lemma_assoc_dom<T: DeepView>(s: Seq<(String, T)>, k: Seq<char>)
    ensures
        assoc(s).contains_key(k) <==> has_key(s, k),
    decreases s.len(),
{
    if s.len() > 0 {
        let t = s.drop_last();
        lemma_assoc_dom(t, k);
        if has_key(s, k) && s.last().0@ != k {
            let i = choose|i: int| 0 <= i < s.len() && #[trigger] s[i].0@ == k;
            assert(t[i] == s[i]);
        }
        if has_key(t, k) {
            let i = choose|i: int| 0 <= i < t.len() && #[trigger] t[i].0@ == k;
            assert(s[i] == t[i]);
        }
    }
}

pub proof fn lemma_assoc_at<T: DeepView>(s: Seq<(String, T)>, i: int)
    requires
        unique_keys(s),
        0 <= i < s.len(),
    ensures
        assoc(s).contains_key(s[i].0@),
        assoc(s)[s[i].0@] == s[i].1.deep_view(),
    decreases s.len(),
{
    if i < s.len() - 1 {
        let t = s.drop_last();
        assert forall|a: int, b: int|
            #![trigger t[a], t[b]]
            0 <= a < t.len() && 0 <= b < t.len() && t[a].0@ == t[b].0@ implies a == b by {
            assert(t[a] == s[a] && t[b] == s[b]);
        }
        lemma_assoc_at(t, i);
        assert(t[i] == s[i]);
        assert(s[s.len() - 1] == s.last());
    }
}

/// Removing an entry removes its key from the map.
pub proof fn lemma_assoc_remove<T: DeepView>(s: Seq<(String, T)>, i: int)
    requires
        unique_keys(s),
        0 <= i < s.len(),
    ensures
        unique_keys(s.remove(i)),
        assoc(s.remove(i)) == assoc(s).remove(s[i].0@),
{
    let r = s.remove(i);
    assert forall|a: int, b: int|
        #![trigger r[a], r[b]]
        0 <= a < r.len() && 0 <= b < r.len() && r[a].0@ == r[b].0@ implies a == b by {
        let a2 = if a < i { a } else { a + 1 };
        let b2 = if b < i { b } else { b + 1 };
        assert(r[a] == s[a2] && r[b] == s[b2]);
    }
    let m = assoc(s).remove(s[i].0@);
    assert forall|k: Seq<char>| #[trigger] assoc(r).contains_key(k) <==> m.contains_key(k) by {
        lemma_assoc_dom(r, k);
        lemma_assoc_dom(s, k);
        if has_key(r, k) {
            let a = choose|a: int| 0 <= a < r.len() && #[trigger] r[a].0@ == k;
            let a2 = if a < i { a } else { a + 1 };
            assert(r[a] == s[a2]);
        }
        if has_key(s, k) && k != s[i].0@ {
            let a = choose|a: int| 0 <= a < s.len() && #[trigger] s[a].0@ == k;
            if a < i {
                assert(r[a] == s[a]);
            } else {
                assert(r[a - 1] == s[a]);
            }
        }
    }
    assert forall|k: Seq<char>| #[trigger] assoc(r).contains_key(k) implies assoc(r)[k] == m[k] by {
        lemma_assoc_dom(r, k);
        let a = choose|a: int| 0 <= a < r.len() && #[trigger] r[a].0@ == k;
        let a2 = if a < i { a } else { a + 1 };
        assert(r[a] == s[a2]);
        lemma_assoc_at(r, a);
        lemma_assoc_at(s, a2);
    }
    assert(assoc(r) =~= m);
}

/// Replacing the value of an entry updates the map at that key.
pub proof fn lemma_assoc_update<T: DeepView>(s: Seq<(String, T)>, i: int, e: (String, T))
    requires
        unique_keys(s),
        0 <= i < s.len(),
        e.0@ == s[i].0@,
    ensures
        unique_keys(s.update(i, e)),
        assoc(s.update(i, e)) == assoc(s).insert(e.0@, e.1.deep_view()),
{
    let r = s.update(i, e);
    assert forall|a: int, b: int|
        #![trigger r[a], r[b]]
        0 <= a < r.len() && 0 <= b < r.len() && r[a].0@ == r[b].0@ implies a == b by {
        assert(r[a].0@ == s[a].0@ && r[b].0@ == s[b].0@);
    }
    let m = assoc(s).insert(e.0@, e.1.deep_view());
    assert forall|k: Seq<char>| #[trigger] assoc(r).contains_key(k) <==> m.contains_key(k) by {
        lemma_assoc_dom(r, k);
        lemma_assoc_dom(s, k);
        if has_key(r, k) {
            let a = choose|a: int| 0 <= a < r.len() && #[trigger] r[a].0@ == k;
            assert(r[a].0@ == s[a].0@);
        }
        if has_key(s, k) {
            let a = choose|a: int| 0 <= a < s.len() && #[trigger] s[a].0@ == k;
            assert(r[a].0@ == s[a].0@);
        }
    }
    assert forall|k: Seq<char>| #[trigger] assoc(r).contains_key(k) implies assoc(r)[k] == m[k] by {
        lemma_assoc_dom(r, k);
        let a = choose|a: int| 0 <= a < r.len() && #[trigger] r[a].0@ == k;
        lemma_assoc_at(r, a);
        if a != i {
            assert(r[a] == s[a]);
            lemma_assoc_at(s, a);
        }
    }
    assert(assoc(r) =~= m);
}

/// Appending an entry with a new key keeps the keys distinct.
pub proof fn lemma_push_unique<T>(s: Seq<(String, T)>, e: (String, T))
    requires
        unique_keys(s),
        !has_key(s, e.0@),
    ensures
        unique_keys(s.push(e)),
{
    let r = s.push(e);
    assert forall|a: int, b: int|
        #![trigger r[a], r[b]]
        0 <= a < r.len() && 0 <= b < r.len() && r[a].0@ == r[b].0@ implies a == b by {
        if a < s.len() {
            assert(r[a] == s[a]);
        }
        if b < s.len() {
            assert(r[b] == s[b]);
        }
    }
}

/// The index of the entry of `v` whose key is `k`, if there is one.
pub fn find_key<T>(v: &Vec<(String, T)>, k: &String) -> (r: Option<usize>)
    ensures
        match r {
            Some(i) => i < v@.len() && v@[i as int].0@ == k@,
            None => !has_key(v@, k@),
        },
{
    let mut i: usize = 0;
    while i < v.len()
        invariant
            i <= v@.len(),
            forall|j: int| 0 <= j < i ==> #[trigger] v@[j].0@ != k@,
        decreases v@.len() - i,
    {
        if v[i].0 == *k {
            return Some(i);
        }
        i = i + 1;
    }
    None
}

/// Binds `k` to `val` in the list `v`, replacing an entry with the same key.
pub fn assoc_insert<T: DeepView>(v: &mut Vec<(String, T)>, k: String, val: T)
    requires
        unique_keys(old(v)@),
    ensures
        unique_keys(final(v)@),
        assoc(final(v)@) == assoc(old(v)@).insert(k@, val.deep_view()),
        forall|i: int|
            0 <= i < final(v)@.len() ==> #[trigger] final(v)@[i] == (k, val) || old(v)@.contains(
                final(v)@[i],
            ),
{
    match find_key(v, &k) {
        Some(i) => {
            proof {
                lemma_assoc_update(v@, i as int, (k, val));
                assert forall|j: int| 0 <= j < v@.len() && j != i implies old(v)@.contains(
                    #[trigger] v@.update(i as int, (k, val))[j],
                ) by {
                    assert(v@.update(i as int, (k, val))[j] == v@[j]);
                }
            }
            v.set(i, (k, val));
        },
        None => {
            proof {
                lemma_push_unique(v@, (k, val));
                assert(v@.push((k, val)).drop_last() =~= v@);
                assert forall|j: int| 0 <= j < v@.len() implies old(v)@.contains(
                    #[trigger] v@.push((k, val))[j],
                ) by {
                    assert(v@.push((k, val))[j] == v@[j]);
                }
            }
            v.push((k, val));
        },
    }
}

} // verus!

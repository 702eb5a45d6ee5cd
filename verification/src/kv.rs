use vstd::prelude::*;

verus! {

/// A sequence of key-value pairs (the backing of a `Vec`-based association
/// list), abstracted as a `Map` from the key's view to the value's view.
/// A later pair overrides an earlier one with the same key, though the
/// library keeps keys distinct.
pub(crate) open spec fn keyed_view<V: View>(s: Seq<(String, V)>) -> Map<Seq<char>, V::V>
    decreases s.len(),
{
    if s.len() == 0 {
        Map::empty()
    } else {
        keyed_view(s.drop_last()).insert(s.last().0@, s.last().1@)
    }
}

/// No two pairs share a key.
pub(crate) open spec fn distinct_keys<V>(s: Seq<(String, V)>) -> bool {
    forall|i: int, j: int| 0 <= i < j < s.len() ==> s[i].0@ != s[j].0@
}

pub(crate) proof fn lemma_distinct_drop_last<V>(s: Seq<(String, V)>)
    requires
        distinct_keys(s),
        s.len() > 0,
    ensures
        distinct_keys(s.drop_last()),
{
    assert forall|i: int, j: int|
        0 <= i < j < s.drop_last().len() implies s.drop_last()[i].0@ != s.drop_last()[j].0@ by {
        assert(s[i].0@ != s[j].0@);
    }
}

/// A key is in the abstract map exactly when some pair holds it.
pub(crate) proof fn lemma_keyed_view_contains<V: View>(s: Seq<(String, V)>, k: Seq<char>)
    ensures
        keyed_view(s).contains_key(k) <==> exists|i: int| 0 <= i < s.len() && s[i].0@ == k,
    decreases s.len(),
{
    if s.len() > 0 {
        lemma_keyed_view_contains(s.drop_last(), k);
        if s.last().0@ == k {
            assert(s[s.len() - 1].0@ == k);
        } else {
            if keyed_view(s).contains_key(k) {
                let i = choose|i: int| 0 <= i < s.drop_last().len() && s.drop_last()[i].0@ == k;
                assert(s[i].0@ == k);
            }
            if exists|i: int| 0 <= i < s.len() && s[i].0@ == k {
                let i = choose|i: int| 0 <= i < s.len() && s[i].0@ == k;
                assert(s.drop_last()[i].0@ == k);
            }
        }
    }
}

/// With distinct keys, the pair at any index gives the abstract map's value.
pub(crate) proof fn lemma_keyed_view_index<V: View>(s: Seq<(String, V)>, i: int)
    requires
        distinct_keys(s),
        0 <= i < s.len(),
    ensures
        keyed_view(s).contains_key(s[i].0@),
        keyed_view(s)[s[i].0@] == s[i].1@,
    decreases s.len(),
{
    if i < s.len() - 1 {
        lemma_distinct_drop_last(s);
        lemma_keyed_view_index(s.drop_last(), i);
        assert(s.drop_last()[i] == s[i]);
        assert(s.last().0@ != s[i].0@);
    }
}

/// Appending a pair inserts its key.
pub(crate) proof fn lemma_keyed_view_push<V: View>(s: Seq<(String, V)>, p: (String, V))
    ensures
        keyed_view(s.push(p)) == keyed_view(s).insert(p.0@, p.1@),
{
    assert(s.push(p).drop_last() =~= s);
    assert(s.push(p).last() == p);
}

/// Replacing the pair at an index, key kept, re-inserts that key.
pub(crate) proof fn lemma_keyed_view_update<V: View>(s: Seq<(String, V)>, i: int, p: (String, V))
    requires
        distinct_keys(s),
        0 <= i < s.len(),
        p.0@ == s[i].0@,
    ensures
        keyed_view(s.update(i, p)) == keyed_view(s).insert(p.0@, p.1@),
    decreases s.len(),
{
    let su = s.update(i, p);
    if i == s.len() - 1 {
        assert(su.drop_last() =~= s.drop_last());
        assert(su.last() == p);
        assert(keyed_view(s.drop_last()).insert(s.last().0@, s.last().1@).insert(p.0@, p.1@)
            =~= keyed_view(s.drop_last()).insert(p.0@, p.1@));
    } else {
        assert(su.drop_last() =~= s.drop_last().update(i, p));
        assert(su.last() == s.last());
        lemma_distinct_drop_last(s);
        assert(s.drop_last()[i] == s[i]);
        lemma_keyed_view_update(s.drop_last(), i, p);
        assert(s.last().0@ != p.0@);
        assert(keyed_view(s.drop_last()).insert(p.0@, p.1@).insert(s.last().0@, s.last().1@)
            =~= keyed_view(s.drop_last()).insert(s.last().0@, s.last().1@).insert(p.0@, p.1@));
    }
}

/// Transforming every value in place, keys kept, maps the abstract values
/// pointwise (the transformation may depend on the key).
pub(crate) proof fn lemma_keyed_view_pointwise<V: View>(
    s1: Seq<(String, V)>,
    s2: Seq<(String, V)>,
    f: spec_fn(Seq<char>, <V as View>::V) -> <V as View>::V,
)
    requires
        s1.len() == s2.len(),
        forall|j: int| 0 <= j < s1.len()
            ==> s2[j].0@ == s1[j].0@ && s2[j].1@ == f(s1[j].0@, s1[j].1@),
    ensures
        keyed_view(s2) == Map::new(
            |k: Seq<char>| keyed_view(s1).contains_key(k),
            |k: Seq<char>| f(k, keyed_view(s1)[k]),
        ),
    decreases s1.len(),
{
    let target = Map::new(
        |k: Seq<char>| keyed_view(s1).contains_key(k),
        |k: Seq<char>| f(k, keyed_view(s1)[k]),
    );
    if s1.len() == 0 {
        assert(keyed_view(s2) =~= target);
    } else {
        assert(forall|j: int| 0 <= j < s1.drop_last().len()
            ==> s1.drop_last()[j] == s1[j] && s2.drop_last()[j] == s2[j]);
        lemma_keyed_view_pointwise(s1.drop_last(), s2.drop_last(), f);
        assert(s2[s1.len() - 1].0@ == s1[s1.len() - 1].0@);
        assert(s2[s1.len() - 1].1@ == f(s1[s1.len() - 1].0@, s1[s1.len() - 1].1@));
        assert(keyed_view(s2) =~= target);
    }
}

/// Finds the index of the pair that holds the given key.
pub(crate) fn find_key<V>(v: &Vec<(String, V)>, k: &String) -> (r: Option<usize>)
    ensures
        match r {
            Some(i) => i < v@.len() && v@[i as int].0@ == k@,
            None => forall|j: int| 0 <= j < v@.len() ==> v@[j].0@ != k@,
        },
{
    let mut i: usize = 0;
    while i < v.len()
        invariant
            i <= v@.len(),
            forall|j: int| 0 <= j < i ==> v@[j].0@ != k@,
        decreases v@.len() - i,
    {
        if v[i].0 == *k {
            return Some(i);
        }
        i += 1;
    }
    None
}

} // verus!

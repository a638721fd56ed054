//! Name-keyed association sequences: the model behind every map-like
//! collection in the domain layer. Lookups find the first entry with a
//! key; insertion replaces that entry or appends a new one.

use vstd::prelude::*;
use vstd::string::*;

verus! {

/// The entries of a string-keyed vector, keys as character sequences.
pub open spec fn vec_keyed<V>(s: Seq<(String, V)>) -> Seq<(Seq<char>, V)> {
    Seq::new(s.len(), |i: int| (s[i].0@, s[i].1))
}

/// The first value stored under the key, if any.
pub open spec fn keyed_get<V>(s: Seq<(Seq<char>, V)>, k: Seq<char>) -> Option<V>
    decreases s.len(),
{
    if s.len() == 0 {
        None
    } else if s[0].0 == k {
        Some(s[0].1)
    } else {
        keyed_get(s.subrange(1, s.len() as int), k)
    }
}

/// The sequence with the value under `k` replaced, or appended when the
/// key is new.
pub open spec fn keyed_set<V>(s: Seq<(Seq<char>, V)>, k: Seq<char>, v: V) -> Seq<(Seq<char>, V)>
    decreases s.len(),
{
    if s.len() == 0 {
        seq![(k, v)]
    } else if s[0].0 == k {
        seq![(k, v)] + s.subrange(1, s.len() as int)
    } else {
        seq![s[0]] + keyed_set(s.subrange(1, s.len() as int), k, v)
    }
}

/// No two entries share a key.
pub open spec fn unique_keys<V>(s: Seq<(Seq<char>, V)>) -> bool {
    forall|i: int, j: int| 0 <= i < j < s.len() ==> (#[trigger] s[i]).0 != (#[trigger] s[j]).0
}

/// When the first hit for `k` is at position `i`, lookup returns it.
pub proof fn lemma_keyed_get_at<V>(s: Seq<(Seq<char>, V)>, k: Seq<char>, i: int)
    requires
        0 <= i < s.len(),
        s[i].0 == k,
        forall|j: int| 0 <= j < i ==> (#[trigger] s[j]).0 != k,
    ensures
        keyed_get(s, k) == Some(s[i].1),
    decreases i,
{
    if i > 0 {
        let rest = s.subrange(1, s.len() as int);
        assert(forall|j: int| 0 <= j < i - 1 ==> (#[trigger] rest[j]).0 == s[j + 1].0);
        lemma_keyed_get_at(rest, k, i - 1);
    }
}

/// With no entry for `k`, lookup finds nothing.
pub proof fn lemma_keyed_get_absent<V>(s: Seq<(Seq<char>, V)>, k: Seq<char>)
    requires
        forall|j: int| 0 <= j < s.len() ==> (#[trigger] s[j]).0 != k,
    ensures
        keyed_get(s, k) is None,
    decreases s.len(),
{
    if s.len() > 0 {
        let rest = s.subrange(1, s.len() as int);
        assert(forall|j: int| 0 <= j < rest.len() ==> (#[trigger] rest[j]).0 == s[j + 1].0);
        lemma_keyed_get_absent(rest, k);
    }
}

/// When the first hit for `k` is at position `i`, insertion is an update
/// in place.
pub proof fn lemma_keyed_set_at<V>(s: Seq<(Seq<char>, V)>, k: Seq<char>, v: V, i: int)
    requires
        0 <= i < s.len(),
        s[i].0 == k,
        forall|j: int| 0 <= j < i ==> (#[trigger] s[j]).0 != k,
    ensures
        keyed_set(s, k, v) == s.update(i, (k, v)),
    decreases i,
{
    if i == 0 {
        assert(keyed_set(s, k, v) == seq![(k, v)] + s.subrange(1, s.len() as int));
        assert(seq![(k, v)] + s.subrange(1, s.len() as int) =~= s.update(0, (k, v)));
    } else {
        let rest = s.subrange(1, s.len() as int);
        assert(forall|j: int| 0 <= j < i - 1 ==> (#[trigger] rest[j]).0 == s[j + 1].0);
        lemma_keyed_set_at(rest, k, v, i - 1);
        assert(seq![s[0]] + rest.update(i - 1, (k, v)) =~= s.update(i, (k, v)));
    }
}

/// With no entry for `k`, insertion appends.
pub proof fn lemma_keyed_set_append<V>(s: Seq<(Seq<char>, V)>, k: Seq<char>, v: V)
    requires
        forall|j: int| 0 <= j < s.len() ==> (#[trigger] s[j]).0 != k,
    ensures
        keyed_set(s, k, v) == s.push((k, v)),
    decreases s.len(),
{
    if s.len() == 0 {
        assert(keyed_set(s, k, v) =~= s.push((k, v)));
    } else {
        let rest = s.subrange(1, s.len() as int);
        assert(forall|j: int| 0 <= j < rest.len() ==> (#[trigger] rest[j]).0 == s[j + 1].0);
        lemma_keyed_set_append(rest, k, v);
        assert(seq![s[0]] + rest.push((k, v)) =~= s.push((k, v)));
    }
}

/// Lookup after insertion: the inserted key reads back the new value,
/// every other key is untouched.
pub proof fn lemma_keyed_get_after_set<V>(
    s: Seq<(Seq<char>, V)>,
    k: Seq<char>,
    v: V,
    k2: Seq<char>,
)
    ensures
        keyed_get(keyed_set(s, k, v), k2) == if k2 == k {
            Some(v)
        } else {
            keyed_get(s, k2)
        },
    decreases s.len(),
{
    let r = keyed_set(s, k, v);
    assert(keyed_get(Seq::<(Seq<char>, V)>::empty(), k2) is None);
    if s.len() == 0 {
        assert(r == seq![(k, v)]);
        assert(r[0] == (k, v));
        assert(r.subrange(1, 1) =~= Seq::<(Seq<char>, V)>::empty());
        assert(keyed_get(r, k2) == if r[0].0 == k2 {
            Some(r[0].1)
        } else {
            keyed_get(r.subrange(1, 1), k2)
        });
    } else if s[0].0 == k {
        assert(r == seq![(k, v)] + s.subrange(1, s.len() as int));
        assert(r[0] == (k, v));
        assert(r.subrange(1, r.len() as int) =~= s.subrange(1, s.len() as int));
    } else {
        assert(r == seq![s[0]] + keyed_set(s.subrange(1, s.len() as int), k, v));
        assert(r[0] == s[0]);
        assert(r.subrange(1, r.len() as int) =~= keyed_set(s.subrange(1, s.len() as int), k, v));
        lemma_keyed_get_after_set(s.subrange(1, s.len() as int), k, v, k2);
    }
}

/// Insertion keeps keys unique.
pub proof fn lemma_keyed_set_unique<V>(s: Seq<(Seq<char>, V)>, k: Seq<char>, v: V)
    requires
        unique_keys(s),
    ensures
        unique_keys(keyed_set(s, k, v)),
    decreases s.len(),
{
    if s.len() == 0 {
    } else if s[0].0 == k {
        let r = seq![(k, v)] + s.subrange(1, s.len() as int);
        assert forall|i: int, j: int| 0 <= i < j < r.len() implies (#[trigger] r[i]).0
            != (#[trigger] r[j]).0 by {
            if i == 0 {
                assert(r[j] == s[j]);
                assert(s[0].0 != s[j].0);
            } else {
                assert(r[i] == s[i]);
                assert(r[j] == s[j]);
            }
        }
    } else {
        let rest = s.subrange(1, s.len() as int);
        assert(unique_keys(rest)) by {
            assert(forall|j: int| 0 <= j < rest.len() ==> rest[j] == s[j + 1]);
        }
        lemma_keyed_set_unique(rest, k, v);
        let kr = keyed_set(rest, k, v);
        let r = seq![s[0]] + kr;
        assert(forall|j: int| 0 <= j < kr.len() ==> r[j + 1] == kr[j]);
        assert forall|i: int, j: int| 0 <= i < j < r.len() implies (#[trigger] r[i]).0
            != (#[trigger] r[j]).0 by {
            if i == 0 {
                assert(r[j] == kr[j - 1]);
                lemma_keyed_set_membership(rest, k, v, j - 1);
                if kr[j - 1].0 == k {
                    assert(s[0].0 != k);
                } else {
                    let t = choose|t: int|
                        0 <= t < rest.len() && (#[trigger] rest[t]).0 == kr[j - 1].0;
                    assert(rest[t] == s[t + 1]);
                    assert(s[0].0 != s[t + 1].0);
                }
            } else {
                assert(r[i] == kr[i - 1]);
                assert(r[j] == kr[j - 1]);
            }
        }
    }
}

/// Store `value` under `key` in a string-keyed vector, replacing any
/// entry already there.
pub fn keyed_vec_set<V>(v: &mut Vec<(String, V)>, key: &str, value: V)
    requires
        unique_keys(vec_keyed(old(v)@)),
    ensures
        unique_keys(vec_keyed(final(v)@)),
        vec_keyed(final(v)@) == keyed_set(vec_keyed(old(v)@), key@, value),
{
    let ghost cs = vec_keyed(v@);
    let mut i: usize = 0;
    while i < v.len()
        invariant
            cs == vec_keyed(v@),
            cs == vec_keyed(old(v)@),
            unique_keys(cs),
            cs.len() == v@.len(),
            forall|t: int| 0 <= t < cs.len() ==> cs[t] == (v@[t].0@, v@[t].1),
            i <= cs.len(),
            forall|t: int| 0 <= t < i ==> (#[trigger] cs[t]).0 != key@,
        decreases cs.len() - i,
    {
        if crate::text::str_eq(v[i].0.as_str(), key) {
            proof {
                lemma_keyed_set_at(cs, key@, value, i as int);
                lemma_keyed_set_unique(cs, key@, value);
            }
            v[i] = (String::from_str(key), value);
            proof {
                assert(vec_keyed(v@) =~= cs.update(i as int, (key@, value)));
            }
            return ;
        }
        i += 1;
    }
    proof {
        lemma_keyed_set_append(cs, key@, value);
        lemma_keyed_set_unique(cs, key@, value);
    }
    v.push((String::from_str(key), value));
    proof {
        assert(vec_keyed(v@) =~= cs.push((key@, value)));
    }
}

/// Look up the first entry stored under `key` in a string-keyed vector.
pub fn keyed_vec_find<'a, V>(v: &'a Vec<(String, V)>, key: &str) -> (r: Option<&'a V>)
    ensures
        match keyed_get(vec_keyed(v@), key@) {
            Some(x) => r matches Some(rr) && *rr == x,
            None => r is None,
        },
{
    let ghost cs = vec_keyed(v@);
    let mut i: usize = 0;
    while i < v.len()
        invariant
            cs == vec_keyed(v@),
            cs.len() == v@.len(),
            forall|t: int| 0 <= t < cs.len() ==> cs[t] == (v@[t].0@, v@[t].1),
            i <= cs.len(),
            forall|t: int| 0 <= t < i ==> (#[trigger] cs[t]).0 != key@,
        decreases cs.len() - i,
    {
        if crate::text::str_eq(v[i].0.as_str(), key) {
            proof {
                lemma_keyed_get_at(cs, key@, i as int);
            }
            return Some(&v[i].1);
        }
        i += 1;
    }
    proof {
        lemma_keyed_get_absent(cs, key@);
    }
    None
}

/// Every entry of the inserted sequence is either the new entry or an
/// entry of the original.
pub proof fn lemma_keyed_set_elements<V>(s: Seq<(Seq<char>, V)>, k: Seq<char>, v: V, j: int)
    requires
        0 <= j < keyed_set(s, k, v).len(),
    ensures
        keyed_set(s, k, v)[j] == (k, v) || exists|i: int|
            0 <= i < s.len() && #[trigger] s[i] == keyed_set(s, k, v)[j],
    decreases s.len(),
{
    if s.len() == 0 {
    } else if s[0].0 == k {
        if j > 0 {
            assert(keyed_set(s, k, v)[j] == s.subrange(1, s.len() as int)[j - 1]);
            assert(s[j] == s.subrange(1, s.len() as int)[j - 1]);
        }
    } else {
        if j == 0 {
            assert(keyed_set(s, k, v)[0] == s[0]);
        } else {
            let rest = s.subrange(1, s.len() as int);
            lemma_keyed_set_elements(rest, k, v, j - 1);
            assert(keyed_set(s, k, v)[j] == keyed_set(rest, k, v)[j - 1]);
            if keyed_set(rest, k, v)[j - 1] != (k, v) {
                let i = choose|i: int|
                    0 <= i < rest.len() && #[trigger] rest[i] == keyed_set(rest, k, v)[j - 1];
                assert(s[i + 1] == rest[i]);
            }
        }
    }
}

/// Every key in the inserted sequence is either `k` or a key of the
/// original.
proof fn lemma_keyed_set_membership<V>(s: Seq<(Seq<char>, V)>, k: Seq<char>, v: V, j: int)
    requires
        0 <= j < keyed_set(s, k, v).len(),
    ensures
        keyed_set(s, k, v)[j].0 == k || exists|i: int|
            0 <= i < s.len() && (#[trigger] s[i]).0 == keyed_set(s, k, v)[j].0,
    decreases s.len(),
{
    if s.len() == 0 {
    } else if s[0].0 == k {
        if j > 0 {
            assert(keyed_set(s, k, v)[j] == s.subrange(1, s.len() as int)[j - 1]);
            assert(s[j] == s.subrange(1, s.len() as int)[j - 1]);
        }
    } else {
        if j > 0 {
            let rest = s.subrange(1, s.len() as int);
            lemma_keyed_set_membership(rest, k, v, j - 1);
            assert(keyed_set(s, k, v)[j] == keyed_set(rest, k, v)[j - 1]);
            if keyed_set(rest, k, v)[j - 1].0 != k {
                let i = choose|i: int|
                    0 <= i < rest.len() && (#[trigger] rest[i]).0 == keyed_set(
                        rest,
                        k,
                        v,
                    )[j - 1].0;
                assert(s[i + 1] == rest[i]);
            }
        }
    }
}

} // verus!

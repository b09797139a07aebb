//! Association sequences: a `Seq` of key/value pairs with pairwise distinct
//! keys, abstracted as a `Map` from key views to values. The collections of
//! this crate are stored as vectors of pairs and specified through this view.

use vstd::prelude::*;

verus! {

/// The map abstracted by an association sequence; later pairs win,
/// which does not matter once keys are distinct.
pub open spec fn kv_map<K: View, V>(s: Seq<(K, V)>) -> Map<<K as View>::V, V>
    decreases s.len(),
{
    if s.len() == 0 {
        Map::empty()
    } else {
        kv_map(s.drop_last()).insert(s.last().0@, s.last().1)
    }
}

/// Pairwise distinct keys, compared on their views.
pub open spec fn kv_unique<K: View, V>(s: Seq<(K, V)>) -> bool {
    forall|i: int, j: int| 0 <= i < j < s.len() ==> (#[trigger] s[i]).0@ != (#[trigger] s[j]).0@
}

pub proof fn lemma_kv_map_contains<K: View, V>(s: Seq<(K, V)>, k: <K as View>::V)
    ensures
        kv_map(s).contains_key(k) <==> exists|i: int| 0 <= i < s.len() && (#[trigger] s[i]).0@ == k,
    decreases s.len(),
{
    if s.len() > 0 {
        lemma_kv_map_contains(s.drop_last(), k);
        if kv_map(s).contains_key(k) {
            if s.last().0@ == k {
                assert(s[s.len() - 1].0@ == k);
            } else {
                let i = choose|i: int| 0 <= i < s.len() - 1 && (#[trigger] s.drop_last()[i]).0@
                    == k;
                assert(s[i].0@ == k);
            }
        } else {
            assert forall|i: int| 0 <= i < s.len() implies (#[trigger] s[i]).0@ != k by {
                if i < s.len() - 1 {
                    assert(s.drop_last()[i] == s[i]);
                }
            }
        }
    }
}

pub proof fn lemma_kv_map_index<K: View, V>(s: Seq<(K, V)>, i: int)
    requires
        kv_unique(s),
        0 <= i < s.len(),
    ensures
        kv_map(s).contains_key(s[i].0@),
        kv_map(s)[s[i].0@] == s[i].1,
    decreases s.len(),
{
    lemma_kv_map_contains(s, s[i].0@);
    if i == s.len() - 1 {
        assert(s.last() == s[i]);
    } else {
        assert(kv_unique(s.drop_last())) by {
            assert(forall|a: int, b: int|
                0 <= a < b < s.len() - 1 ==> (#[trigger] s.drop_last()[a]).0@ != (
                #[trigger] s.drop_last()[b]).0@);
        }
        assert(s.drop_last()[i] == s[i]);
        lemma_kv_map_index(s.drop_last(), i);
        assert(s.last().0@ != s[i].0@);
    }
}

/// Distinctness restricted to a prefix.
pub proof fn lemma_kv_unique_sub<K: View, V>(s: Seq<(K, V)>, t: Seq<(K, V)>)
    requires
        kv_unique(s),
        exists|n: int| 0 <= n <= s.len() && t == s.take(n),
    ensures
        kv_unique(t),
{
    let n = choose|n: int| 0 <= n <= s.len() && t == s.take(n);
    assert forall|i: int, j: int| 0 <= i < j < t.len() implies (#[trigger] t[i]).0@ != (
    #[trigger] t[j]).0@ by {
        assert(t[i] == s[i]);
        assert(t[j] == s[j]);
    }
}

/// Replacing the value at position `i` updates the map at that key.
pub proof fn lemma_kv_map_update<K: View, V>(s: Seq<(K, V)>, i: int, p: (K, V))
    requires
        kv_unique(s),
        0 <= i < s.len(),
        p.0@ == s[i].0@,
    ensures
        kv_unique(s.update(i, p)),
        kv_map(s.update(i, p)) == kv_map(s).insert(s[i].0@, p.1),
{
    let t = s.update(i, p);
    assert forall|a: int, b: int| 0 <= a < b < t.len() implies (#[trigger] t[a]).0@ != (
    #[trigger] t[b]).0@ by {
        assert(s[a].0@ == t[a].0@ && s[b].0@ == t[b].0@);
    }
    let m1 = kv_map(t);
    let m2 = kv_map(s).insert(s[i].0@, p.1);
    assert forall|k: <K as View>::V| m1.contains_key(k) <==> m2.contains_key(k) by {
        lemma_kv_map_contains(t, k);
        lemma_kv_map_contains(s, k);
        if exists|a: int| 0 <= a < t.len() && (#[trigger] t[a]).0@ == k {
            let a = choose|a: int| 0 <= a < t.len() && (#[trigger] t[a]).0@ == k;
            assert(s[a].0@ == k);
        }
        if exists|a: int| 0 <= a < s.len() && (#[trigger] s[a]).0@ == k {
            let a = choose|a: int| 0 <= a < s.len() && (#[trigger] s[a]).0@ == k;
            assert(t[a].0@ == k);
        }
    }
    assert forall|k: <K as View>::V| m1.contains_key(k) implies m1[k] == m2[k] by {
        lemma_kv_map_contains(t, k);
        let a = choose|a: int| 0 <= a < t.len() && (#[trigger] t[a]).0@ == k;
        lemma_kv_map_index(t, a);
        if a == i {
        } else {
            lemma_kv_map_index(s, a);
            assert(s[i].0@ != s[a].0@);
        }
    }
    assert(m1 =~= m2);
}

/// Appending a pair with a fresh key inserts it into the map.
pub proof fn lemma_kv_map_push<K: View, V>(s: Seq<(K, V)>, p: (K, V))
    requires
        kv_unique(s),
        !kv_map(s).contains_key(p.0@),
    ensures
        kv_unique(s.push(p)),
        kv_map(s.push(p)) == kv_map(s).insert(p.0@, p.1),
{
    lemma_kv_map_contains(s, p.0@);
    let t = s.push(p);
    assert forall|a: int, b: int| 0 <= a < b < t.len() implies (#[trigger] t[a]).0@ != (
    #[trigger] t[b]).0@ by {
        if b < t.len() - 1 {
            assert(t[a] == s[a] && t[b] == s[b]);
        } else {
            assert(t[a] == s[a] && t[b] == p);
        }
    }
    assert(t.drop_last() =~= s);
    assert(t.last() == p);
}

/// Removing the pair at position `i` removes its key from the map.
pub proof fn lemma_kv_map_remove<K: View, V>(s: Seq<(K, V)>, i: int)
    requires
        kv_unique(s),
        0 <= i < s.len(),
    ensures
        kv_unique(s.remove(i)),
        kv_map(s.remove(i)) == kv_map(s).remove(s[i].0@),
{
    let t = s.remove(i);
    assert forall|a: int, b: int| 0 <= a < b < t.len() implies (#[trigger] t[a]).0@ != (
    #[trigger] t[b]).0@ by {
        let a0 = if a < i {
            a
        } else {
            a + 1
        };
        let b0 = if b < i {
            b
        } else {
            b + 1
        };
        assert(t[a] == s[a0] && t[b] == s[b0]);
    }
    let m1 = kv_map(t);
    let m2 = kv_map(s).remove(s[i].0@);
    assert forall|k: <K as View>::V| m1.contains_key(k) <==> m2.contains_key(k) by {
        lemma_kv_map_contains(t, k);
        lemma_kv_map_contains(s, k);
        if exists|a: int| 0 <= a < t.len() && (#[trigger] t[a]).0@ == k {
            let a = choose|a: int| 0 <= a < t.len() && (#[trigger] t[a]).0@ == k;
            let a0 = if a < i {
                a
            } else {
                a + 1
            };
            assert(s[a0].0@ == k);
            assert(s[a0].0@ != s[i].0@ || a0 == i);
        }
        if m2.contains_key(k) {
            let a = choose|a: int| 0 <= a < s.len() && (#[trigger] s[a]).0@ == k;
            assert(a != i);
            let a1 = if a < i {
                a
            } else {
                a - 1
            };
            assert(t[a1].0@ == k);
        }
    }
    assert forall|k: <K as View>::V| m1.contains_key(k) implies m1[k] == m2[k] by {
        lemma_kv_map_contains(t, k);
        let a = choose|a: int| 0 <= a < t.len() && (#[trigger] t[a]).0@ == k;
        lemma_kv_map_index(t, a);
        let a0 = if a < i {
            a
        } else {
            a + 1
        };
        assert(t[a] == s[a0]);
        lemma_kv_map_index(s, a0);
    }
    assert(m1 =~= m2);
}

} // verus!

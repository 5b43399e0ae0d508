//! Sequences of key/value pairs read as maps, and sequences read as sets.
//!
//! The membership state keeps its indices in vectors; these are the views
//! that its contracts speak of, and the facts its proofs need when an entry
//! is added, replaced or removed.

use vstd::prelude::*;

verus! {

/// The map that a sequence of pairs with distinct keys stands for.
pub open spec fn table<K, V>(s: Seq<(K, V)>) -> Map<K, V> {
    Map::new(
        |k: K| exists|i: int| 0 <= i < s.len() && s[i].0 == k,
        |k: K| s[choose|i: int| 0 <= i < s.len() && s[i].0 == k].1,
    )
}

pub open spec fn unique_keys<K, V>(s: Seq<(K, V)>) -> bool {
    forall|i: int, j: int| 0 <= i < s.len() && 0 <= j < s.len() && i != j ==> s[i].0 != s[j].0
}

/// The set that a sequence stands for.
pub open spec fn set_of<T>(s: Seq<T>) -> Set<T> {
    Set::new(|x: T| exists|i: int| 0 <= i < s.len() && s[i] == x)
}

pub open spec fn distinct<T>(s: Seq<T>) -> bool {
    forall|i: int, j: int| 0 <= i < s.len() && 0 <= j < s.len() && i != j ==> s[i] != s[j]
}

pub proof fn lemma_table_index<K, V>(s: Seq<(K, V)>, i: int)
    requires
        unique_keys(s),
        0 <= i < s.len(),
    ensures
        table(s).contains_key(s[i].0),
        table(s)[s[i].0] == s[i].1,
{
    let k = s[i].0;
    assert(exists|j: int| 0 <= j < s.len() && s[j].0 == k);
    let j = choose|j: int| 0 <= j < s.len() && s[j].0 == k;
    assert(j == i);
}

pub proof fn lemma_table_empty<K, V>(s: Seq<(K, V)>)
    requires
        s.len() == 0,
    ensures
        table(s) == Map::<K, V>::empty(),
{
    assert(table(s) =~= Map::<K, V>::empty());
}

pub proof fn lemma_table_push<K, V>(s: Seq<(K, V)>, k: K, v: V)
    requires
        unique_keys(s),
        !table(s).contains_key(k),
    ensures
        unique_keys(s.push((k, v))),
        table(s.push((k, v))) == table(s).insert(k, v),
{
    let t = s.push((k, v));
    assert forall|i: int| 0 <= i < s.len() implies s[i].0 != k by {
        if s[i].0 == k {
            assert(table(s).contains_key(k));
        }
    }
    assert forall|i: int| 0 <= i < s.len() implies #[trigger] t[i] == s[i] by {}
    assert forall|x: K| #[trigger] table(t).contains_key(x) == table(s).insert(k, v).contains_key(x) by {
        if table(s).contains_key(x) {
            let i = choose|i: int| 0 <= i < s.len() && s[i].0 == x;
            assert(t[i].0 == x);
        }
        if x == k {
            assert(t[s.len() as int].0 == x);
        }
    }
    assert forall|x: K| #[trigger] table(t).contains_key(x) implies table(t)[x] == table(s).insert(k, v)[x] by {
        if x == k {
            lemma_table_index(t, s.len() as int);
        } else {
            let i = choose|i: int| 0 <= i < s.len() && s[i].0 == x;
            lemma_table_index(s, i);
            lemma_table_index(t, i);
        }
    }
    assert(table(t) =~= table(s).insert(k, v));
}

pub proof fn lemma_table_remove<K, V>(s: Seq<(K, V)>, i: int)
    requires
        unique_keys(s),
        0 <= i < s.len(),
    ensures
        unique_keys(s.remove(i)),
        table(s.remove(i)) == table(s).remove(s[i].0),
{
    let t = s.remove(i);
    let k = s[i].0;
    assert forall|j: int| 0 <= j < t.len() implies #[trigger] t[j] == (if j < i { s[j] } else { s[j + 1] }) by {}
    assert forall|x: K| #[trigger] table(t).contains_key(x) == table(s).remove(k).contains_key(x) by {
        if table(t).contains_key(x) {
            let j = choose|j: int| 0 <= j < t.len() && t[j].0 == x;
            if j < i {
                assert(s[j].0 == x);
            } else {
                assert(s[j + 1].0 == x);
            }
        }
        if table(s).remove(k).contains_key(x) {
            let j = choose|j: int| 0 <= j < s.len() && s[j].0 == x;
            assert(j != i);
            if j < i {
                assert(t[j].0 == x);
            } else {
                assert(t[j - 1].0 == x);
            }
        }
    }
    assert forall|x: K| #[trigger] table(t).contains_key(x) implies table(t)[x] == table(s).remove(k)[x] by {
        let j = choose|j: int| 0 <= j < t.len() && t[j].0 == x;
        lemma_table_index(t, j);
        if j < i {
            lemma_table_index(s, j);
        } else {
            lemma_table_index(s, j + 1);
        }
    }
    assert(table(t) =~= table(s).remove(k));
}

pub proof fn lemma_table_update<K, V>(s: Seq<(K, V)>, i: int, v: V)
    requires
        unique_keys(s),
        0 <= i < s.len(),
    ensures
        unique_keys(s.update(i, (s[i].0, v))),
        table(s.update(i, (s[i].0, v))) == table(s).insert(s[i].0, v),
{
    let k = s[i].0;
    let t = s.update(i, (k, v));
    assert forall|x: K| #[trigger] table(t).contains_key(x) == table(s).insert(k, v).contains_key(x) by {
        if table(t).contains_key(x) {
            let j = choose|j: int| 0 <= j < t.len() && t[j].0 == x;
            assert(s[j].0 == x);
        }
        if table(s).contains_key(x) {
            let j = choose|j: int| 0 <= j < s.len() && s[j].0 == x;
            assert(t[j].0 == x);
        }
        if x == k {
            assert(t[i].0 == x);
        }
    }
    assert forall|x: K| #[trigger] table(t).contains_key(x) implies table(t)[x] == table(s).insert(k, v)[x] by {
        let j = choose|j: int| 0 <= j < t.len() && t[j].0 == x;
        lemma_table_index(t, j);
        if j != i {
            lemma_table_index(s, j);
        }
    }
    assert(table(t) =~= table(s).insert(k, v));
}

pub proof fn lemma_set_push<T>(s: Seq<T>, x: T)
    ensures
        set_of(s.push(x)) == set_of(s).insert(x),
        distinct(s) && !set_of(s).contains(x) ==> distinct(s.push(x)),
{
    let t = s.push(x);
    assert forall|y: T| #[trigger] set_of(t).contains(y) == set_of(s).insert(x).contains(y) by {
        if set_of(s).contains(y) {
            let i = choose|i: int| 0 <= i < s.len() && s[i] == y;
            assert(t[i] == y);
        }
        if set_of(t).contains(y) {
            let i = choose|i: int| 0 <= i < t.len() && t[i] == y;
            if i < s.len() {
                assert(s[i] == y);
            }
        }
        if y == x {
            assert(t[s.len() as int] == y);
        }
    }
    assert(set_of(t) =~= set_of(s).insert(x));
    if distinct(s) && !set_of(s).contains(x) {
        assert forall|i: int, j: int| 0 <= i < t.len() && 0 <= j < t.len() && i != j implies t[i] != t[j] by {
            if i < s.len() && j < s.len() {
                assert(t[i] == s[i] && t[j] == s[j]);
            } else if i < s.len() {
                assert(t[i] == s[i]);
            } else {
                assert(t[j] == s[j]);
            }
        }
    }
}

pub proof fn lemma_set_remove<T>(s: Seq<T>, i: int)
    requires
        distinct(s),
        0 <= i < s.len(),
    ensures
        distinct(s.remove(i)),
        set_of(s.remove(i)) == set_of(s).remove(s[i]),
{
    let t = s.remove(i);
    assert forall|j: int| 0 <= j < t.len() implies #[trigger] t[j] == (if j < i { s[j] } else { s[j + 1] }) by {}
    assert forall|y: T| #[trigger] set_of(t).contains(y) == set_of(s).remove(s[i]).contains(y) by {
        if set_of(t).contains(y) {
            let j = choose|j: int| 0 <= j < t.len() && t[j] == y;
            if j < i {
                assert(s[j] == y);
            } else {
                assert(s[j + 1] == y);
            }
        }
        if set_of(s).remove(s[i]).contains(y) {
            let j = choose|j: int| 0 <= j < s.len() && s[j] == y;
            if j < i {
                assert(t[j] == y);
            } else {
                assert(t[j - 1] == y);
            }
        }
    }
    assert(set_of(t) =~= set_of(s).remove(s[i]));
}

pub proof fn lemma_set_empty<T>(s: Seq<T>)
    ensures
        (set_of(s) == Set::<T>::empty()) == (s.len() == 0),
{
    if s.len() == 0 {
        assert(set_of(s) =~= Set::<T>::empty());
    } else {
        assert(set_of(s).contains(s[0]));
    }
}

pub proof fn lemma_table_dom_empty<K, V>(s: Seq<(K, V)>)
    ensures
        (table(s).dom() == Set::<K>::empty()) == (s.len() == 0),
{
    if s.len() == 0 {
        assert(table(s).dom() =~= Set::<K>::empty());
    } else {
        assert(table(s).dom().contains(s[0].0));
    }
}

pub proof fn lemma_table_insert_at<K, V>(s: Seq<(K, V)>, i: int, k: K, v: V)
    requires
        unique_keys(s),
        !table(s).contains_key(k),
        0 <= i <= s.len(),
    ensures
        unique_keys(s.insert(i, (k, v))),
        table(s.insert(i, (k, v))) == table(s).insert(k, v),
{
    let t = s.insert(i, (k, v));
    assert forall|j: int| 0 <= j < s.len() implies s[j].0 != k by {
        if s[j].0 == k {
            assert(table(s).contains_key(k));
        }
    }
    assert forall|j: int| 0 <= j < t.len() implies #[trigger] t[j] == (if j < i { s[j] } else if j == i { (k, v) } else { s[j - 1] }) by {}
    assert forall|a: int, b: int| 0 <= a < t.len() && 0 <= b < t.len() && a != b implies t[a].0 != t[b].0 by {
        let sa = if a < i { a } else { a - 1 };
        let sb = if b < i { b } else { b - 1 };
        if a != i && b != i {
            assert(t[a] == s[sa] && t[b] == s[sb]);
        } else if a == i {
            assert(t[b] == s[sb]);
        } else {
            assert(t[a] == s[sa]);
        }
    }
    assert forall|x: K| #[trigger] table(t).contains_key(x) == table(s).insert(k, v).contains_key(x) by {
        if table(t).contains_key(x) {
            let j = choose|j: int| 0 <= j < t.len() && t[j].0 == x;
            if j < i {
                assert(s[j].0 == x);
            } else if j > i {
                assert(s[j - 1].0 == x);
            }
        }
        if table(s).contains_key(x) {
            let j = choose|j: int| 0 <= j < s.len() && s[j].0 == x;
            if j < i {
                assert(t[j].0 == x);
            } else {
                assert(t[j + 1].0 == x);
            }
        }
        if x == k {
            assert(t[i].0 == x);
        }
    }
    assert forall|x: K| #[trigger] table(t).contains_key(x) implies table(t)[x] == table(s).insert(k, v)[x] by {
        let j = choose|j: int| 0 <= j < t.len() && t[j].0 == x;
        lemma_table_index(t, j);
        if j < i {
            lemma_table_index(s, j);
        } else if j > i {
            lemma_table_index(s, j - 1);
        }
    }
    assert(table(t) =~= table(s).insert(k, v));
}

/// Growing a prefix of a sequence with distinct keys by one entry.
pub proof fn lemma_table_prefix_push<K, V>(s: Seq<(K, V)>, i: int)
    requires
        unique_keys(s),
        0 <= i < s.len(),
    ensures
        unique_keys(s.take(i)),
        !table(s.take(i)).contains_key(s[i].0),
        table(s.take(i + 1)) == table(s.take(i)).insert(s[i].0, s[i].1),
{
    let p = s.take(i);
    assert forall|a: int, b: int| 0 <= a < p.len() && 0 <= b < p.len() && a != b implies p[a].0 != p[b].0 by {
        assert(p[a] == s[a] && p[b] == s[b]);
    }
    assert forall|j: int| 0 <= j < p.len() implies p[j].0 != s[i].0 by {
        assert(p[j] == s[j]);
    }
    lemma_table_push(p, s[i].0, s[i].1);
    assert(s.take(i + 1) =~= p.push((s[i].0, s[i].1)));
}

/// Replacing every value, keys kept in place, maps the table's values.
pub proof fn lemma_table_map_values<K, V>(s: Seq<(K, V)>, t: Seq<(K, V)>, f: spec_fn(V) -> V)
    requires
        unique_keys(s),
        t.len() == s.len(),
        forall|j: int| 0 <= j < s.len() ==> (#[trigger] t[j]).0 == s[j].0 && t[j].1 == f(s[j].1),
    ensures
        unique_keys(t),
        table(t) == table(s).map_values(f),
{
    assert forall|a: int, b: int| 0 <= a < t.len() && 0 <= b < t.len() && a != b implies t[a].0 != t[b].0 by {
        assert(t[a].0 == s[a].0 && t[b].0 == s[b].0);
    }
    assert forall|k: K| #[trigger] table(t).contains_key(k) == table(s).contains_key(k) by {
        if table(t).contains_key(k) {
            let j = choose|j: int| 0 <= j < t.len() && t[j].0 == k;
            assert(s[j].0 == k);
        }
        if table(s).contains_key(k) {
            let j = choose|j: int| 0 <= j < s.len() && s[j].0 == k;
            assert(t[j].0 == k);
        }
    }
    assert forall|k: K| #[trigger] table(t).contains_key(k) implies table(t)[k] == table(s).map_values(f)[k] by {
        let j = choose|j: int| 0 <= j < t.len() && t[j].0 == k;
        lemma_table_index(t, j);
        lemma_table_index(s, j);
    }
    assert(table(t) =~= table(s).map_values(f));
}

pub proof fn lemma_set_insert_at<T>(s: Seq<T>, i: int, x: T)
    requires
        0 <= i <= s.len(),
    ensures
        set_of(s.insert(i, x)) == set_of(s).insert(x),
{
    let t = s.insert(i, x);
    assert forall|y: T| #[trigger] set_of(t).contains(y) == set_of(s).insert(x).contains(y) by {
        if set_of(t).contains(y) {
            let j = choose|j: int| 0 <= j < t.len() && t[j] == y;
            if j < i {
                assert(s[j] == y);
            } else if j > i {
                assert(s[j - 1] == y);
            }
        }
        if set_of(s).contains(y) {
            let j = choose|j: int| 0 <= j < s.len() && s[j] == y;
            if j < i {
                assert(t[j] == y);
            } else {
                assert(t[j + 1] == y);
            }
        }
        if y == x {
            assert(t[i] == y);
        }
    }
    assert(set_of(t) =~= set_of(s).insert(x));
}

/// The keys of a table are the first components of its entries.
pub proof fn lemma_table_dom<K, V>(s: Seq<(K, V)>)
    ensures
        table(s).dom() == set_of(s.map_values(|e: (K, V)| e.0)),
{
    let k = s.map_values(|e: (K, V)| e.0);
    assert forall|x: K| #[trigger] table(s).dom().contains(x) == set_of(k).contains(x) by {
        if table(s).contains_key(x) {
            let j = choose|j: int| 0 <= j < s.len() && s[j].0 == x;
            assert(k[j] == x);
        }
        if set_of(k).contains(x) {
            let j = choose|j: int| 0 <= j < k.len() && k[j] == x;
            assert(s[j].0 == x);
        }
    }
    assert(table(s).dom() =~= set_of(k));
}

} // verus!

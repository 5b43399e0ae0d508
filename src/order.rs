//! Orders that the snapshots are sorted by: names compare by their
//! characters, lexicographically (the order of their UTF-8 bytes), and
//! full share names by address, port, then name.

use vstd::prelude::*;
use crate::shares::{CommonShareName, FullShareName, RemotePeerAddr};

verus! {

/// Lexicographic order on texts, by code point.
pub open spec fn text_lt(a: Seq<char>, b: Seq<char>) -> bool
    decreases a.len(),
{
    if a.len() == 0 {
        b.len() > 0
    } else if b.len() == 0 {
        false
    } else if a[0] != b[0] {
        a[0] < b[0]
    } else {
        text_lt(a.drop_first(), b.drop_first())
    }
}

pub proof fn lemma_text_lt_irreflexive(a: Seq<char>)
    ensures
        !text_lt(a, a),
    decreases a.len(),
{
    if a.len() > 0 {
        lemma_text_lt_irreflexive(a.drop_first());
    }
}

pub proof fn lemma_text_lt_total(a: Seq<char>, b: Seq<char>)
    ensures
        a == b || text_lt(a, b) || text_lt(b, a),
    decreases a.len(),
{
    if a.len() > 0 && b.len() > 0 && a[0] == b[0] {
        lemma_text_lt_total(a.drop_first(), b.drop_first());
        if a.drop_first() == b.drop_first() {
            assert(a =~= seq![a[0]] + a.drop_first());
            assert(b =~= seq![b[0]] + b.drop_first());
        }
    } else if a.len() == 0 && b.len() == 0 {
        assert(a =~= b);
    }
}

pub proof fn lemma_text_lt_asymmetric(a: Seq<char>, b: Seq<char>)
    ensures
        !(text_lt(a, b) && text_lt(b, a)),
    decreases a.len(),
{
    if a.len() > 0 && b.len() > 0 && a[0] == b[0] {
        lemma_text_lt_asymmetric(a.drop_first(), b.drop_first());
    }
}

pub proof fn lemma_text_lt_transitive(a: Seq<char>, b: Seq<char>, c: Seq<char>)
    requires
        text_lt(a, b),
        text_lt(b, c),
    ensures
        text_lt(a, c),
    decreases a.len(),
{
    if a.len() > 0 && b.len() > 0 && c.len() > 0 && a[0] == b[0] && b[0] == c[0] {
        lemma_text_lt_transitive(a.drop_first(), b.drop_first(), c.drop_first());
    }
}

/// Dropping a common prefix keeps the order.
proof fn lemma_text_lt_skip(a: Seq<char>, b: Seq<char>, i: int)
    requires
        0 <= i <= a.len(),
        i <= b.len(),
        a.take(i) == b.take(i),
    ensures
        text_lt(a, b) == text_lt(a.skip(i), b.skip(i)),
    decreases i,
{
    if i == 0 {
        assert(a.skip(0) =~= a);
        assert(b.skip(0) =~= b);
    } else {
        assert(a[0] == a.take(i)[0]);
        assert(b[0] == b.take(i)[0]);
        let a1 = a.drop_first();
        let b1 = b.drop_first();
        assert(a1.take(i - 1) =~= a.take(i).drop_first());
        assert(b1.take(i - 1) =~= b.take(i).drop_first());
        lemma_text_lt_skip(a1, b1, i - 1);
        assert(a1.skip(i - 1) =~= a.skip(i));
        assert(b1.skip(i - 1) =~= b.skip(i));
    }
}

/// The characters of a text.
fn chars_of(s: &str) -> (r: Vec<char>)
    ensures
        r@ == s@,
{
    let mut r: Vec<char> = Vec::new();
    for c in it: s.chars()
        invariant
            it.seq() == s@,
            r@ == s@.take(it.index() as int),
    {
        r.push(c);
        proof {
            assert(r@ =~= s@.take(it.index() + 1));
        }
    }
    proof {
        assert(s@.take(s@.len() as int) =~= s@);
    }
    r
}

/// Whether `a` comes before `b`.
pub fn text_less(a: &str, b: &str) -> (r: bool)
    ensures
        r == text_lt(a@, b@),
{
    let x = chars_of(a);
    let y = chars_of(b);
    let mut i: usize = 0;
    while i < x.len() && i < y.len() && x[i] == y[i]
        invariant
            i <= x@.len(),
            i <= y@.len(),
            x@ == a@,
            y@ == b@,
            x@.take(i as int) == y@.take(i as int),
        decreases x@.len() - i,
    {
        proof {
            assert(x@.take(i + 1) =~= x@.take(i as int).push(x@[i as int]));
            assert(y@.take(i + 1) =~= y@.take(i as int).push(y@[i as int]));
        }
        i = i + 1;
    }
    proof {
        lemma_text_lt_skip(x@, y@, i as int);
        let xs = x@.skip(i as int);
        let ys = y@.skip(i as int);
        if i < x@.len() && i < y@.len() {
            assert(xs[0] == x@[i as int]);
            assert(ys[0] == y@[i as int]);
        }
    }
    if i == x.len() {
        i < y.len()
    } else if i == y.len() {
        false
    } else {
        x[i] < y[i]
    }
}

/// Order on full share names: address octets, then port (none first), then
/// the name.
pub open spec fn full_key_lt(a: (RemotePeerAddr, Seq<char>), b: (RemotePeerAddr, Seq<char>)) -> bool {
    let (x, y) = (a.0, b.0);
    if x.addr.0 != y.addr.0 { x.addr.0 < y.addr.0 }
    else if x.addr.1 != y.addr.1 { x.addr.1 < y.addr.1 }
    else if x.addr.2 != y.addr.2 { x.addr.2 < y.addr.2 }
    else if x.addr.3 != y.addr.3 { x.addr.3 < y.addr.3 }
    else if x.port != y.port {
        match (x.port, y.port) {
            (None, _) => true,
            (Some(_), None) => false,
            (Some(p), Some(q)) => p < q,
        }
    } else {
        text_lt(a.1, b.1)
    }
}

pub proof fn lemma_full_key_lt_order(a: (RemotePeerAddr, Seq<char>), b: (RemotePeerAddr, Seq<char>), c: (RemotePeerAddr, Seq<char>))
    ensures
        !full_key_lt(a, a),
        a == b || full_key_lt(a, b) || full_key_lt(b, a),
        !(full_key_lt(a, b) && full_key_lt(b, a)),
        full_key_lt(a, b) && full_key_lt(b, c) ==> full_key_lt(a, c),
{
    lemma_text_lt_irreflexive(a.1);
    lemma_text_lt_total(a.1, b.1);
    lemma_text_lt_asymmetric(a.1, b.1);
    if full_key_lt(a, b) && full_key_lt(b, c) && a.0 == b.0 && b.0 == c.0 {
        lemma_text_lt_transitive(a.1, b.1, c.1);
    }
    if a.0 == b.0 && a.1 == b.1 {
        assert(a == b);
    }
}

pub fn full_name_less(a: &FullShareName, b: &FullShareName) -> (r: bool)
    ensures
        r == full_key_lt(a@, b@),
{
    let (x, y) = (a.addr, b.addr);
    if x.addr.0 != y.addr.0 {
        x.addr.0 < y.addr.0
    } else if x.addr.1 != y.addr.1 {
        x.addr.1 < y.addr.1
    } else if x.addr.2 != y.addr.2 {
        x.addr.2 < y.addr.2
    } else if x.addr.3 != y.addr.3 {
        x.addr.3 < y.addr.3
    } else if x.port != y.port {
        match (x.port, y.port) {
            (None, _) => true,
            (Some(_), None) => false,
            (Some(p), Some(q)) => p < q,
        }
    } else {
        text_less(a.name.as_str(), b.name.as_str())
    }
}

pub fn name_less(a: &CommonShareName, b: &CommonShareName) -> (r: bool)
    ensures
        r == text_lt(a@, b@),
{
    text_less(a.as_str(), b.as_str())
}

pub open spec fn texts_sorted(keys: Seq<Seq<char>>) -> bool {
    forall|a: int, b: int| 0 <= a < b < keys.len() ==> text_lt(keys[a], keys[b])
}

pub open spec fn full_keys_sorted(keys: Seq<(RemotePeerAddr, Seq<char>)>) -> bool {
    forall|a: int, b: int| 0 <= a < b < keys.len() ==> full_key_lt(keys[a], keys[b])
}

/// Inserting a new key after all smaller ones and before the first one
/// that is not smaller keeps a sorted sequence sorted.
pub proof fn lemma_texts_sorted_insert(keys: Seq<Seq<char>>, p: int, k: Seq<char>)
    requires
        texts_sorted(keys),
        0 <= p <= keys.len(),
        forall|j: int| 0 <= j < p ==> text_lt(#[trigger] keys[j], k),
        p < keys.len() ==> !text_lt(keys[p], k),
        forall|j: int| 0 <= j < keys.len() ==> #[trigger] keys[j] != k,
    ensures
        texts_sorted(keys.insert(p, k)),
{
    let t = keys.insert(p, k);
    assert forall|j: int| p <= j < keys.len() implies text_lt(k, #[trigger] keys[j]) by {
        lemma_text_lt_total(k, keys[p]);
        if j > p {
            lemma_text_lt_transitive(k, keys[p], keys[j]);
        }
    }
    assert forall|a: int, b: int| 0 <= a < b < t.len() implies text_lt(t[a], t[b]) by {
        if b < p {
            assert(t[a] == keys[a] && t[b] == keys[b]);
        } else if b == p {
            assert(t[a] == keys[a]);
        } else if a < p {
            assert(t[a] == keys[a] && t[b] == keys[b - 1]);
            lemma_text_lt_transitive(keys[a], k, keys[b - 1]);
        } else if a == p {
            assert(t[b] == keys[b - 1]);
        } else {
            assert(t[a] == keys[a - 1] && t[b] == keys[b - 1]);
        }
    }
}

pub proof fn lemma_full_keys_sorted_insert(keys: Seq<(RemotePeerAddr, Seq<char>)>, p: int, k: (RemotePeerAddr, Seq<char>))
    requires
        full_keys_sorted(keys),
        0 <= p <= keys.len(),
        forall|j: int| 0 <= j < p ==> full_key_lt(#[trigger] keys[j], k),
        p < keys.len() ==> !full_key_lt(keys[p], k),
        forall|j: int| 0 <= j < keys.len() ==> #[trigger] keys[j] != k,
    ensures
        full_keys_sorted(keys.insert(p, k)),
{
    let t = keys.insert(p, k);
    assert forall|j: int| p <= j < keys.len() implies full_key_lt(k, #[trigger] keys[j]) by {
        lemma_full_key_lt_order(k, keys[p], keys[j]);
    }
    assert forall|a: int, b: int| 0 <= a < b < t.len() implies full_key_lt(t[a], t[b]) by {
        if b < p {
            assert(t[a] == keys[a] && t[b] == keys[b]);
        } else if b == p {
            assert(t[a] == keys[a]);
        } else if a < p {
            assert(t[a] == keys[a] && t[b] == keys[b - 1]);
            lemma_full_key_lt_order(keys[a], k, keys[b - 1]);
        } else if a == p {
            assert(t[b] == keys[b - 1]);
        } else {
            assert(t[a] == keys[a - 1] && t[b] == keys[b - 1]);
        }
    }
}

} // verus!

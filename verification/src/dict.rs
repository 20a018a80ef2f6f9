//! Dictionaries: entries kept in strict key order.

use vstd::prelude::*;
use vstd::utf8::{encode_utf8, encode_utf8_decode_utf8};
use crate::value::{bytes_lt, bytes_lt_from, entries_model, entries_sorted, value_wf, BVal, Value};

verus! {

/// How many entries of `e`, counted from index `i`, stand before the first
/// whose key is not below `k`; added to `i`.
pub open spec fn key_rank_from(e: Seq<(Seq<u8>, Value)>, k: Seq<u8>, i: int) -> int
    decreases e.len() - i,
{
    if 0 <= i < e.len() && bytes_lt(e[i].0, k) {
        key_rank_from(e, k, i + 1)
    } else {
        i
    }
}

/// The place of key `k` in `e`: the index of the first entry whose key is
/// not below `k`.
pub open spec fn key_rank(e: Seq<(Seq<u8>, Value)>, k: Seq<u8>) -> int {
    key_rank_from(e, k, 0)
}

/// `e` with `k` bound to `v`: the entry replaces the one that has this key,
/// or else goes in at the key's place.
pub open spec fn dict_insert(e: Seq<(Seq<u8>, Value)>, k: Seq<u8>, v: Value) -> Seq<
    (Seq<u8>, Value),
> {
    let i: int = key_rank(e, k);
    if 0 <= i < e.len() && e[i].0 == k {
        e.update(i, (k, v))
    } else {
        e.insert(i, (k, v))
    }
}

/// The mapping that the entries `e` stand for, read from first to last.
pub open spec fn entries_map(e: Seq<(Seq<u8>, Value)>) -> Map<Seq<u8>, Value>
    decreases e.len(),
{
    if e.len() == 0 {
        Map::empty()
    } else {
        entries_map(e.drop_last()).insert(e.last().0, e.last().1)
    }
}

/// Whether some entry of `e` has the key `k`.
pub open spec fn has_key(e: Seq<(Seq<u8>, Value)>, k: Seq<u8>) -> bool {
    exists|i: int| 0 <= i < e.len() && (#[trigger] e[i]).0 == k
}

/// From any index on, no sequence stands before itself.
proof fn lemma_lt_from_irreflexive(a: Seq<u8>, i: int)
    requires
        0 <= i,
    ensures
        !bytes_lt_from(a, a, i),
    decreases a.len() - i,
{
    if i < a.len() {
        lemma_lt_from_irreflexive(a, i + 1);
    }
}

/// From any index on, the order is transitive.
proof fn lemma_lt_from_transitive(a: Seq<u8>, b: Seq<u8>, c: Seq<u8>, i: int)
    requires
        0 <= i,
        bytes_lt_from(a, b, i),
        bytes_lt_from(b, c, i),
    ensures
        bytes_lt_from(a, c, i),
    decreases a.len() - i,
{
    if i < a.len() && a[i] == b[i] && b[i] == c[i] {
        lemma_lt_from_transitive(a, b, c, i + 1);
    }
}

/// Two sequences that agree before index `i` are equal, or one stands
/// before the other from `i` on.
proof fn lemma_lt_from_total(a: Seq<u8>, b: Seq<u8>, i: int)
    requires
        0 <= i <= a.len(),
        i <= b.len(),
        forall|j: int| 0 <= j < i ==> a[j] == b[j],
    ensures
        bytes_lt_from(a, b, i) || bytes_lt_from(b, a, i) || a == b,
    decreases a.len() - i,
{
    if i < a.len() && i < b.len() && a[i] == b[i] {
        lemma_lt_from_total(a, b, i + 1);
    } else if i == a.len() && i == b.len() {
        assert(a =~= b);
    }
}

/// No key stands before itself.
pub proof fn lemma_bytes_lt_irreflexive(a: Seq<u8>)
    ensures
        !bytes_lt(a, a),
{
    lemma_lt_from_irreflexive(a, 0);
}

/// The order of keys is transitive.
pub proof fn lemma_bytes_lt_transitive(a: Seq<u8>, b: Seq<u8>, c: Seq<u8>)
    requires
        bytes_lt(a, b),
        bytes_lt(b, c),
    ensures
        bytes_lt(a, c),
{
    lemma_lt_from_transitive(a, b, c, 0);
}

/// Of two different keys one stands before the other.
pub proof fn lemma_bytes_lt_total(a: Seq<u8>, b: Seq<u8>)
    ensures
        bytes_lt(a, b) || bytes_lt(b, a) || a == b,
{
    lemma_lt_from_total(a, b, 0);
}

/// The place of a key lies inside the entries or just behind them; every
/// entry before it has a smaller key, and the entry at it has none.
pub proof fn lemma_key_rank_from(e: Seq<(Seq<u8>, Value)>, k: Seq<u8>, i: int)
    requires
        0 <= i <= e.len(),
    ensures
        i <= key_rank_from(e, k, i) <= e.len(),
        forall|j: int| i <= j < key_rank_from(e, k, i) ==> bytes_lt((#[trigger] e[j]).0, k),
        key_rank_from(e, k, i) < e.len() ==> !bytes_lt(e[key_rank_from(e, k, i)].0, k),
    decreases e.len() - i,
{
    if i < e.len() && bytes_lt(e[i].0, k) {
        lemma_key_rank_from(e, k, i + 1);
    }
}

/// In entries in key order, every entry behind the place of `k` has a larger
/// key than `k`, and so has the one at that place unless its key is `k`.
pub proof fn lemma_key_rank_splits(e: Seq<(Seq<u8>, Value)>, k: Seq<u8>)
    requires
        entries_sorted(e),
    ensures
        0 <= key_rank(e, k) <= e.len(),
        forall|j: int| 0 <= j < key_rank(e, k) ==> bytes_lt((#[trigger] e[j]).0, k),
        forall|j: int|
            key_rank(e, k) <= j < e.len() && (#[trigger] e[j]).0 != k ==> bytes_lt(k, e[j].0),
        forall|j: int| key_rank(e, k) < j < e.len() ==> (#[trigger] e[j]).0 != k,
{
    let r: int = key_rank(e, k);
    lemma_key_rank_from(e, k, 0);
    assert forall|j: int| r <= j < e.len() implies ((#[trigger] e[j]).0 != k ==> bytes_lt(
        k,
        e[j].0,
    )) && (r < j ==> e[j].0 != k) by {
        lemma_bytes_lt_total(k, e[r].0);
        if r < j {
            assert(bytes_lt(e[r].0, e[j].0));
            if k != e[r].0 {
                lemma_bytes_lt_transitive(k, e[r].0, e[j].0);
            }
            lemma_bytes_lt_irreflexive(k);
        }
    }
}

/// Binding a key in entries in key order leaves them in key order.
pub proof fn lemma_insert_sorted(e: Seq<(Seq<u8>, Value)>, k: Seq<u8>, v: Value)
    requires
        entries_sorted(e),
    ensures
        entries_sorted(dict_insert(e, k, v)),
{
    let r: int = key_rank(e, k);
    let out = dict_insert(e, k, v);
    lemma_key_rank_splits(e, k);
    if r < e.len() && e[r].0 == k {
        assert forall|i: int, j: int| 0 <= i < j < out.len() implies bytes_lt(
            (#[trigger] out[i]).0,
            (#[trigger] out[j]).0,
        ) by {
            assert(out[i].0 == e[i].0);
            assert(out[j].0 == e[j].0);
        }
    } else {
        assert forall|i: int, j: int| 0 <= i < j < out.len() implies bytes_lt(
            (#[trigger] out[i]).0,
            (#[trigger] out[j]).0,
        ) by {
            if j < r {
                assert(out[i] == e[i] && out[j] == e[j]);
            } else if j == r {
                assert(out[i] == e[i]);
            } else if i < r {
                assert(out[i] == e[i] && out[j] == e[j - 1]);
            } else if i == r {
                assert(out[j] == e[j - 1]);
            } else {
                assert(out[i] == e[i - 1] && out[j] == e[j - 1]);
            }
        }
    }
}

/// Entries in key order stand for the mapping that binds each entry's key
/// to its value, and no other key.
pub proof fn lemma_entries_map(e: Seq<(Seq<u8>, Value)>)
    requires
        entries_sorted(e),
    ensures
        forall|x: Seq<u8>| #[trigger] entries_map(e).dom().contains(x) <==> has_key(e, x),
        forall|i: int| 0 <= i < e.len() ==> entries_map(e)[(#[trigger] e[i]).0] == e[i].1,
    decreases e.len(),
{
    if e.len() > 0 {
        let front = e.drop_last();
        let last = e.last();
        assert forall|i: int, j: int| 0 <= i < j < front.len() implies bytes_lt(
            (#[trigger] front[i]).0,
            (#[trigger] front[j]).0,
        ) by {
            assert(front[i] == e[i] && front[j] == e[j]);
        }
        lemma_entries_map(front);
        lemma_bytes_lt_irreflexive(last.0);
        assert forall|x: Seq<u8>| #[trigger] entries_map(e).dom().contains(x) <==> has_key(
            e,
            x,
        ) by {
            assert(entries_map(e) == entries_map(front).insert(last.0, last.1));
            assert(entries_map(e).dom().contains(x) <==> (x == last.0 || entries_map(
                front,
            ).dom().contains(x)));
            if has_key(e, x) {
                let i: int = choose|i: int| 0 <= i < e.len() && (#[trigger] e[i]).0 == x;
                if i < e.len() - 1 {
                    assert(front[i].0 == x);
                    assert(has_key(front, x));
                }
            }
            if has_key(front, x) {
                let i: int = choose|i: int| 0 <= i < front.len() && (#[trigger] front[i]).0 == x;
                assert(e[i].0 == x);
            }
            if x == last.0 {
                assert(e[e.len() - 1].0 == x);
            }
        }
        assert forall|i: int| 0 <= i < e.len() implies entries_map(e)[(#[trigger] e[i]).0]
            == e[i].1 by {
            if i < e.len() - 1 {
                assert(front[i] == e[i]);
                assert(bytes_lt(e[i].0, e[e.len() - 1].0));
            }
        }
    }
}

/// Binding `k` to `v` in entries in key order changes the mapping they stand
/// for at `k` alone: a key bound before is bound anew, every other key keeps
/// its value.
pub proof fn lemma_insert_binds(e: Seq<(Seq<u8>, Value)>, k: Seq<u8>, v: Value)
    requires
        entries_sorted(e),
    ensures
        entries_map(dict_insert(e, k, v)) == entries_map(e).insert(k, v),
{
    let out = dict_insert(e, k, v);
    let r: int = key_rank(e, k);
    let replace = r < e.len() && e[r].0 == k;
    lemma_insert_sorted(e, k, v);
    lemma_key_rank_splits(e, k);
    lemma_entries_map(e);
    lemma_entries_map(out);
    assert(out[r] == (k, v));
    assert forall|x: Seq<u8>|
        entries_map(out).dom().contains(x) <==> #[trigger] entries_map(e).insert(
            k,
            v,
        ).dom().contains(x) by {
        if has_key(out, x) {
            let i: int = choose|i: int| 0 <= i < out.len() && (#[trigger] out[i]).0 == x;
            if i != r {
                let j: int = if replace || i < r { i } else { i - 1 };
                assert(e[j].0 == x);
            }
        }
        if has_key(e, x) && x != k {
            let j: int = choose|j: int| 0 <= j < e.len() && (#[trigger] e[j]).0 == x;
            let i: int = if replace || j < r { j } else { j + 1 };
            assert(out[i].0 == x);
        }
        if x == k {
            assert(out[r].0 == x);
        }
    }
    assert forall|x: Seq<u8>| #[trigger] entries_map(out).dom().contains(x) implies entries_map(
        out,
    )[x] == entries_map(e).insert(k, v)[x] by {
        let i: int = choose|i: int| 0 <= i < out.len() && (#[trigger] out[i]).0 == x;
        assert(entries_map(out)[out[i].0] == out[i].1);
        if i != r {
            let j: int = if replace || i < r { i } else { i - 1 };
            assert(e[j] == out[i]);
            assert(entries_map(e)[e[j].0] == e[j].1);
            lemma_bytes_lt_irreflexive(k);
        }
    }
    assert(entries_map(out) =~= entries_map(e).insert(k, v));
}

/// Entries in key order are determined by the mapping they stand for: the
/// order in which the keys were bound leaves no trace.
pub proof fn lemma_entries_unique(a: Seq<(Seq<u8>, Value)>, b: Seq<(Seq<u8>, Value)>)
    requires
        entries_sorted(a),
        entries_sorted(b),
        entries_map(a) == entries_map(b),
    ensures
        a == b,
    decreases a.len(),
{
    lemma_entries_map(a);
    lemma_entries_map(b);
    if a.len() == 0 {
        if b.len() > 0 {
            assert(has_key(b, b[0].0));
            assert(entries_map(a).dom().contains(b[0].0));
        }
        assert(a =~= b);
    } else {
        let la: int = a.len() - 1;
        assert(has_key(a, a[la].0));
        assert(entries_map(b).dom().contains(a[la].0));
        let j: int = choose|j: int| 0 <= j < b.len() && (#[trigger] b[j]).0 == a[la].0;
        let lb: int = b.len() - 1;
        assert(has_key(b, b[lb].0));
        assert(entries_map(a).dom().contains(b[lb].0));
        let i: int = choose|i: int| 0 <= i < a.len() && (#[trigger] a[i]).0 == b[lb].0;
        if i < la {
            assert(bytes_lt(a[i].0, a[la].0));
            if j < lb {
                assert(bytes_lt(b[j].0, b[lb].0));
                lemma_bytes_lt_transitive(a[i].0, a[la].0, a[i].0);
            }
            lemma_bytes_lt_irreflexive(a[i].0);
        }
        assert(a[la].0 == b[lb].0);
        assert(entries_map(a)[a[la].0] == a[la].1);
        assert(entries_map(b)[b[lb].0] == b[lb].1);
        assert(a[la] == b[lb]);
        let fa = a.drop_last();
        let fb = b.drop_last();
        assert forall|i: int, j: int| 0 <= i < j < fa.len() implies bytes_lt(
            (#[trigger] fa[i]).0,
            (#[trigger] fa[j]).0,
        ) by {
            assert(fa[i] == a[i] && fa[j] == a[j]);
        }
        assert forall|i: int, j: int| 0 <= i < j < fb.len() implies bytes_lt(
            (#[trigger] fb[i]).0,
            (#[trigger] fb[j]).0,
        ) by {
            assert(fb[i] == b[i] && fb[j] == b[j]);
        }
        lemma_entries_map(fa);
        lemma_entries_map(fb);
        lemma_bytes_lt_irreflexive(a[la].0);
        assert forall|x: Seq<u8>| #[trigger]
            entries_map(fa).dom().contains(x) <==> entries_map(fb).dom().contains(x) by {
            if has_key(fa, x) {
                let i: int = choose|i: int| 0 <= i < fa.len() && (#[trigger] fa[i]).0 == x;
                assert(a[i].0 == x && bytes_lt(a[i].0, a[la].0));
                assert(has_key(a, x));
                assert(entries_map(b).dom().contains(x));
                let j: int = choose|j: int| 0 <= j < b.len() && (#[trigger] b[j]).0 == x;
                assert(fb[j].0 == x);
                assert(has_key(fb, x));
            }
            if has_key(fb, x) {
                let j: int = choose|j: int| 0 <= j < fb.len() && (#[trigger] fb[j]).0 == x;
                assert(b[j].0 == x && bytes_lt(b[j].0, b[lb].0));
                assert(has_key(b, x));
                assert(entries_map(a).dom().contains(x));
                let i: int = choose|i: int| 0 <= i < a.len() && (#[trigger] a[i]).0 == x;
                assert(fa[i].0 == x);
                assert(has_key(fa, x));
            }
        }
        assert forall|x: Seq<u8>| #[trigger] entries_map(fa).dom().contains(x) implies entries_map(
            fa,
        )[x] == entries_map(fb)[x] by {
            let i: int = choose|i: int| 0 <= i < fa.len() && (#[trigger] fa[i]).0 == x;
            let j: int = choose|j: int| 0 <= j < fb.len() && (#[trigger] fb[j]).0 == x;
            assert(entries_map(fa)[fa[i].0] == fa[i].1);
            assert(entries_map(fb)[fb[j].0] == fb[j].1);
            assert(a[i] == fa[i] && b[j] == fb[j]);
            assert(entries_map(a)[a[i].0] == a[i].1);
            assert(entries_map(b)[b[j].0] == b[j].1);
        }
        assert(entries_map(fa) =~= entries_map(fb));
        lemma_entries_unique(fa, fb);
        assert(a =~= fa.push(a[la]));
        assert(b =~= fb.push(b[lb]));
    }
}

/// Two different keys can be bound in either order: the entries come out
/// the same.
pub proof fn lemma_insert_commutes(
    e: Seq<(Seq<u8>, Value)>,
    k1: Seq<u8>,
    v1: Value,
    k2: Seq<u8>,
    v2: Value,
)
    requires
        entries_sorted(e),
        k1 != k2,
    ensures
        dict_insert(dict_insert(e, k1, v1), k2, v2) == dict_insert(dict_insert(e, k2, v2), k1, v1),
{
    let a1 = dict_insert(e, k1, v1);
    let a2 = dict_insert(a1, k2, v2);
    let b1 = dict_insert(e, k2, v2);
    let b2 = dict_insert(b1, k1, v1);
    lemma_insert_sorted(e, k1, v1);
    lemma_insert_sorted(a1, k2, v2);
    lemma_insert_sorted(e, k2, v2);
    lemma_insert_sorted(b1, k1, v1);
    lemma_insert_binds(e, k1, v1);
    lemma_insert_binds(a1, k2, v2);
    lemma_insert_binds(e, k2, v2);
    lemma_insert_binds(b1, k1, v1);
    assert(entries_map(a2) =~= entries_map(b2));
    lemma_entries_unique(a2, b2);
}

/// Binding a key to a well-formed value in entries whose values are
/// well-formed leaves every value well-formed.
pub proof fn lemma_insert_values_wf(e: Seq<(Seq<u8>, Value)>, k: Seq<u8>, v: Value)
    requires
        forall|i: int| 0 <= i < e.len() ==> value_wf((#[trigger] e[i]).1),
        value_wf(v),
    ensures
        forall|i: int|
            0 <= i < dict_insert(e, k, v).len() ==> value_wf((#[trigger] dict_insert(e, k, v)[i]).1),
{
    let r: int = key_rank(e, k);
    let out = dict_insert(e, k, v);
    lemma_key_rank_from(e, k, 0);
    assert forall|i: int| 0 <= i < out.len() implies value_wf((#[trigger] out[i]).1) by {
        if r < e.len() && e[r].0 == k {
            if i != r {
                assert(out[i] == e[i]);
            }
        } else {
            if i < r {
                assert(out[i] == e[i]);
            } else if i > r {
                assert(out[i] == e[i - 1]);
            }
        }
    }
}

/// Whether `a` stands before `b` in the order of keys.
pub fn key_lt(a: &[u8], b: &[u8]) -> (r: bool)
    ensures
        r == bytes_lt(a@, b@),
{
    let mut i: usize = 0;
    while i < a.len() && i < b.len() && a[i] == b[i]
        invariant
            i <= a.len(),
            i <= b.len(),
            bytes_lt(a@, b@) == bytes_lt_from(a@, b@, i as int),
        decreases a.len() - i,
    {
        i += 1;
    }
    if i >= b.len() {
        false
    } else if i >= a.len() {
        true
    } else {
        a[i] < b[i]
    }
}

/// Binds `key` to `v` in `entries`, at the key's place in key order: an
/// entry with this key is replaced, and entries in key order stay so.
pub fn insert_entry(entries: Vec<(String, BVal)>, key: String, v: BVal) -> (r: Vec<(String, BVal)>)
    ensures
        entries_model(r@) == dict_insert(entries_model(entries@), encode_utf8(key@), v@),
        entries_sorted(entries_model(entries@)) ==> entries_sorted(entries_model(r@)),
{
    let mut entries = entries;
    let ghost before = entries_model(entries@);
    let ghost k = encode_utf8(key@);
    proof {
        if entries_sorted(before) {
            lemma_insert_sorted(before, k, v@);
        }
    }
    let mut i: usize = 0;
    while i < entries.len() && key_lt(entries[i].0.as_str().as_bytes(), key.as_str().as_bytes())
        invariant
            i <= entries.len(),
            before == entries_model(entries@),
            k == encode_utf8(key@),
            key_rank(before, k) == key_rank_from(before, k, i as int),
        decreases entries.len() - i,
    {
        i += 1;
    }
    if i < entries.len() && entries[i].0 == key {
        proof {
            assert(before[i as int].0 == k);
        }
        let _ = entries.remove(i);
        entries.insert(i, (key, v));
        assert(entries_model(entries@) =~= before.update(i as int, (k, v@)));
    } else {
        proof {
            if i < entries.len() {
                encode_utf8_decode_utf8(key@);
                encode_utf8_decode_utf8(entries[i as int].0@);
                assert(before[i as int].0 != k);
            }
        }
        entries.insert(i, (key, v));
        assert(entries_model(entries@) =~= before.insert(i as int, (k, v@)));
    }
    entries
}

} // verus!

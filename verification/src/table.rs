//! The ordered table: a mapping from `u64` keys to fixed-width rows,
//! with named columns and optional free-form metadata.
//!
//! Rows are held in two parallel vectors (keys, rows) kept in strictly
//! increasing key order, which gives the table the semantics of an
//! ordered map with in-order traversal.

use vstd::prelude::*;

use crate::enums::IndexOrColumn;
use crate::errors::TableError;

verus! {

/// A strictly increasing sequence of keys.
pub open spec fn keys_sorted(s: Seq<u64>) -> bool {
    forall|i: int, j: int| 0 <= i < j < s.len() ==> s[i] < s[j]
}

/// The views of a sequence of strings.
pub open spec fn str_views(s: Seq<String>) -> Seq<Seq<char>> {
    s.map_values(|x: String| x@)
}

/// The views of a sequence of string pairs.
pub open spec fn pair_views(s: Seq<(String, String)>) -> Seq<(Seq<char>, Seq<char>)> {
    s.map_values(|p: (String, String)| (p.0@, p.1@))
}

/// The views of a sequence of vectors.
pub open spec fn vec_views<T>(s: Seq<Vec<T>>) -> Seq<Seq<T>> {
    s.map_values(|x: Vec<T>| x@)
}

/// `b` holds clones of `a`'s elements, position by position.
pub open spec fn cloned_seq<V: Clone>(a: Seq<V>, b: Seq<V>) -> bool {
    &&& a.len() == b.len()
    &&& forall|i: int| 0 <= i < a.len() ==> vstd::pervasive::cloned::<V>(a[i], #[trigger] b[i])
}

/// The position of `k` in `s` (meaningful when `s` contains `k`).
pub open spec fn key_index(s: Seq<u64>, k: u64) -> int {
    choose|i: int| 0 <= i < s.len() && s[i] == k
}

/// In a strictly sorted sequence, `key_index` is the one position
/// where a contained key sits.
pub proof fn lemma_key_index(s: Seq<u64>, k: u64, i: int)
    requires
        keys_sorted(s),
        0 <= i < s.len(),
        s[i] == k,
    ensures
        s.contains(k),
        key_index(s, k) == i,
{
    assert(exists|j: int| 0 <= j < s.len() && s[j] == k);
    let j = key_index(s, k);
    assert(0 <= j < s.len() && s[j] == k);
    if j < i {
        assert(s[j] < s[i]);
    } else if i < j {
        assert(s[i] < s[j]);
    }
}

/// Two strictly sorted sequences over the same set of keys are equal.
pub proof fn lemma_sorted_unique(a: Seq<u64>, b: Seq<u64>)
    requires
        keys_sorted(a),
        keys_sorted(b),
        a.to_set() == b.to_set(),
    ensures
        a == b,
    decreases a.len(),
{
    if a.len() == 0 {
        if b.len() > 0 {
            assert(b.to_set().contains(b[0]));
            assert(a.contains(b[0]));
        }
        assert(a =~= b);
    } else if b.len() == 0 {
        assert(a.to_set().contains(a[0]));
        assert(b.contains(a[0]));
    } else {
        // The largest element of each is its last; the sets agree, so
        // the last elements agree, and the prefixes recurse.
        let x = a.last();
        let y = b.last();
        assert(a.to_set().contains(x));
        assert(b.to_set().contains(y));
        assert(b.contains(x));
        let bi = choose|i: int| 0 <= i < b.len() && b[i] == x;
        assert(a.contains(y));
        let ai = choose|i: int| 0 <= i < a.len() && a[i] == y;
        assert(x <= y) by {
            if bi < b.len() - 1 {
                assert(b[bi] < b.last());
            }
        }
        assert(y <= x) by {
            if ai < a.len() - 1 {
                assert(a[ai] < a.last());
            }
        }
        assert(x == y);
        assert(a.drop_last().to_set() =~= b.drop_last().to_set()) by {
            assert forall|z: u64| a.drop_last().to_set().contains(z) implies b.drop_last().to_set().contains(z) by {
                assert(a.drop_last().contains(z));
                let i = choose|i: int| 0 <= i < a.len() - 1 && a[i] == z;
                assert(a[i] < a.last());
                assert(a.to_set().contains(z));
                assert(b.contains(z));
                let j = choose|j: int| 0 <= j < b.len() && b[j] == z;
                assert(j < b.len() - 1) by {
                    if j == b.len() - 1 {
                        assert(b[j] == y);
                    }
                }
                assert(b.drop_last()[j] == z);
                assert(b.drop_last().contains(z));
            }
            assert forall|z: u64| b.drop_last().to_set().contains(z) implies a.drop_last().to_set().contains(z) by {
                assert(b.drop_last().contains(z));
                let i = choose|i: int| 0 <= i < b.len() - 1 && b[i] == z;
                assert(b[i] < b.last());
                assert(b.to_set().contains(z));
                assert(a.contains(z));
                let j = choose|j: int| 0 <= j < a.len() && a[j] == z;
                assert(j < a.len() - 1) by {
                    if j == a.len() - 1 {
                        assert(a[j] == x);
                    }
                }
                assert(a.drop_last()[j] == z);
                assert(a.drop_last().contains(z));
            }
        }
        lemma_sorted_unique(a.drop_last(), b.drop_last());
        assert(a.len() == b.len());
        assert forall|i: int| 0 <= i < a.len() implies a[i] == b[i] by {
            if i < a.len() - 1 {
                assert(a.drop_last()[i] == b.drop_last()[i]);
            }
        }
        assert(a =~= b);
    }
}

/// Some row differs in width from the first row.
pub open spec fn rows_uneven<V>(rows: Seq<Seq<V>>) -> bool {
    exists|i: int| 0 <= i < rows.len() && (#[trigger] rows[i]).len() != rows[0].len()
}

/// The mapping encoded by parallel key and row sequences.
pub open spec fn entry_map<V>(keys: Seq<u64>, rows: Seq<Seq<V>>) -> Map<u64, Seq<V>> {
    Map::new(|k: u64| keys.contains(k), |k: u64| rows[key_index(keys, k)])
}

/// The mapping built by binding each key to its row in order, later
/// bindings winning over earlier ones.
pub open spec fn pairs_to_map<V>(keys: Seq<u64>, rows: Seq<Seq<V>>) -> Map<u64, Seq<V>>
    decreases keys.len(),
{
    if keys.len() == 0 || keys.len() != rows.len() {
        Map::empty()
    } else {
        pairs_to_map(keys.drop_last(), rows.drop_last()).insert(keys.last(), rows.last())
    }
}

/// Replacing the row at a position rebinds that position's key.
pub proof fn lemma_entry_map_replace<V>(keys: Seq<u64>, rows: Seq<Seq<V>>, p: int, r: Seq<V>)
    requires
        keys_sorted(keys),
        rows.len() == keys.len(),
        0 <= p < keys.len(),
    ensures
        entry_map(keys, rows.update(p, r)) == entry_map(keys, rows).insert(keys[p], r),
{
    let lhs = entry_map(keys, rows.update(p, r));
    let rhs = entry_map(keys, rows).insert(keys[p], r);
    lemma_key_index(keys, keys[p], p);
    assert forall|k: u64| #[trigger] lhs.contains_key(k) implies rhs.contains_key(k) by {}
    assert forall|k: u64| #[trigger] rhs.contains_key(k) implies lhs.contains_key(k) by {}
    assert forall|k: u64| lhs.contains_key(k) implies #[trigger] lhs[k] == rhs[k] by {
        let j = key_index(keys, k);
        assert(0 <= j < keys.len() && keys[j] == k);
        if k == keys[p] {
            assert(j == p);
        } else {
            assert(j != p);
        }
    }
    assert(lhs =~= rhs);
}

/// Inserting a fresh key at its sorted position extends the mapping.
pub proof fn lemma_entry_map_insert_new<V>(
    keys: Seq<u64>,
    rows: Seq<Seq<V>>,
    p: int,
    k: u64,
    r: Seq<V>,
)
    requires
        keys_sorted(keys),
        rows.len() == keys.len(),
        0 <= p <= keys.len(),
        forall|j: int| 0 <= j < p ==> keys[j] < k,
        forall|j: int| p <= j < keys.len() ==> k < keys[j],
    ensures
        !keys.contains(k),
        keys_sorted(keys.insert(p, k)),
        entry_map(keys.insert(p, k), rows.insert(p, r)) == entry_map(keys, rows).insert(k, r),
        keys.insert(p, k).to_set() == keys.to_set().insert(k),
{
    keys.insert_ensures(p, k);
    rows.insert_ensures(p, r);
    let nk = keys.insert(p, k);
    let nr = rows.insert(p, r);
    assert forall|i: int, j: int| 0 <= i < j < nk.len() implies nk[i] < nk[j] by {
        if j < p {
            assert(nk[i] == keys[i] && nk[j] == keys[j]);
        } else if i > p {
            assert(nk[i] == keys[i - 1] && nk[j] == keys[j - 1]);
        } else if i < p && j == p {
            assert(nk[i] == keys[i]);
        } else if i < p && j > p {
            assert(nk[i] == keys[i] && nk[j] == keys[j - 1]);
            assert(keys[i] < k);
            assert(k < keys[j - 1]);
        } else if i == p {
            assert(nk[j] == keys[j - 1]);
        }
    }
    let lhs = entry_map(nk, nr);
    let rhs = entry_map(keys, rows).insert(k, r);
    lemma_key_index(nk, k, p);
    assert forall|x: u64| #[trigger] nk.contains(x) implies x == k || keys.contains(x) by {
        let i = choose|i: int| 0 <= i < nk.len() && nk[i] == x;
        if i < p {
            assert(keys[i] == x);
        } else if i > p {
            assert(keys[i - 1] == x);
        }
    }
    assert forall|x: u64| #[trigger] keys.contains(x) implies nk.contains(x) by {
        let i = choose|i: int| 0 <= i < keys.len() && keys[i] == x;
        if i < p {
            assert(nk[i] == x);
        } else {
            assert(nk[i + 1] == x);
        }
    }
    assert(nk.contains(k));
    assert forall|x: u64| lhs.contains_key(x) implies #[trigger] lhs[x] == rhs[x] by {
        if x == k {
            assert(lhs[x] == nr[p]);
            assert(nr[p] == r);
        } else {
            assert(keys.contains(x));
            let i = key_index(keys, x);
            assert(0 <= i < keys.len() && keys[i] == x);
            if i < p {
                lemma_key_index(nk, x, i);
                assert(nr[i] == rows[i]);
            } else {
                lemma_key_index(nk, x, i + 1);
                assert(nr[i + 1] == rows[i]);
            }
        }
    }
    assert(lhs =~= rhs);
    assert(nk.to_set() =~= keys.to_set().insert(k));
}

/// Removing the entry at a position unbinds that position's key.
pub proof fn lemma_entry_map_remove<V>(keys: Seq<u64>, rows: Seq<Seq<V>>, p: int)
    requires
        keys_sorted(keys),
        rows.len() == keys.len(),
        0 <= p < keys.len(),
    ensures
        keys_sorted(keys.remove(p)),
        entry_map(keys.remove(p), rows.remove(p)) == entry_map(keys, rows).remove(keys[p]),
        keys.remove(p).to_set() == keys.to_set().remove(keys[p]),
{
    keys.remove_ensures(p);
    rows.remove_ensures(p);
    let nk = keys.remove(p);
    let nr = rows.remove(p);
    lemma_key_index(keys, keys[p], p);
    assert forall|i: int, j: int| 0 <= i < j < nk.len() implies nk[i] < nk[j] by {
        if j < p {
            assert(nk[i] == keys[i] && nk[j] == keys[j]);
        } else if i >= p {
            assert(nk[i] == keys[i + 1] && nk[j] == keys[j + 1]);
        } else {
            assert(nk[i] == keys[i] && nk[j] == keys[j + 1]);
        }
    }
    assert forall|x: u64| #[trigger] nk.contains(x) implies keys.contains(x) && x != keys[p] by {
        let i = choose|i: int| 0 <= i < nk.len() && nk[i] == x;
        if i < p {
            assert(keys[i] == x);
            assert(i != p);
            lemma_key_index(keys, x, i);
        } else {
            assert(keys[i + 1] == x);
            lemma_key_index(keys, x, i + 1);
        }
    }
    assert forall|x: u64| #[trigger] keys.contains(x) && x != keys[p] implies nk.contains(x) by {
        let i = choose|i: int| 0 <= i < keys.len() && keys[i] == x;
        assert(i != p);
        if i < p {
            assert(nk[i] == x);
        } else {
            assert(nk[i - 1] == x);
        }
    }
    let lhs = entry_map(nk, nr);
    let rhs = entry_map(keys, rows).remove(keys[p]);
    assert forall|x: u64| lhs.contains_key(x) implies #[trigger] lhs[x] == rhs[x] by {
        assert(keys.contains(x) && x != keys[p]);
        let i = key_index(keys, x);
        assert(0 <= i < keys.len() && keys[i] == x);
        assert(i != p);
        if i < p {
            lemma_key_index(nk, x, i);
            assert(nr[i] == rows[i]);
        } else {
            lemma_key_index(nk, x, i - 1);
            assert(nr[i - 1] == rows[i]);
        }
    }
    assert(lhs =~= rhs);
    assert(nk.to_set() =~= keys.to_set().remove(keys[p]));
}

/// Insert a binding into parallel sorted key/row vectors, overwriting
/// any row already bound to the key and returning it.
fn insert_pair<V>(keys: &mut Vec<u64>, rows: &mut Vec<Vec<V>>, k: u64, row: Vec<V>) -> (r: Option<
    Vec<V>,
>)
    requires
        keys_sorted(old(keys)@),
        old(rows)@.len() == old(keys)@.len(),
    ensures
        keys_sorted(final(keys)@),
        final(rows)@.len() == final(keys)@.len(),
        entry_map(final(keys)@, vec_views(final(rows)@)) == entry_map(
            old(keys)@,
            vec_views(old(rows)@),
        ).insert(k, row@),
        final(keys)@.to_set() == old(keys)@.to_set().insert(k),
        final(keys)@.len() == old(keys)@.len() + (if old(keys)@.contains(k) {
            0int
        } else {
            1int
        }),
        match r {
            Option::Some(old_row) => old(keys)@.contains(k) && old_row@ == entry_map(
                old(keys)@,
                vec_views(old(rows)@),
            )[k],
            Option::None => !old(keys)@.contains(k),
        },
        forall|i: int|
            0 <= i < final(rows)@.len() ==> (#[trigger] final(rows)@[i])@ == row@ || vec_views(
                old(rows)@,
            ).contains(final(rows)@[i]@),
{
    let ghost ks0 = keys@;
    let ghost rs0 = rows@;
    let mut pos: usize = 0;
    while pos < keys.len() && keys[pos] < k
        invariant
            pos <= keys.len(),
            keys@ == ks0,
            rows@ == rs0,
            forall|j: int| 0 <= j < pos ==> ks0[j] < k,
        decreases keys.len() - pos,
    {
        pos += 1;
    }
    if pos < keys.len() && keys[pos] == k {
        proof {
            lemma_key_index(ks0, k, pos as int);
        }
        rows.push(row);
        let old_row = rows.swap_remove(pos);
        proof {
            assert(rows@ =~= rs0.update(pos as int, rs0.push(row).last()));
            assert(vec_views(rows@) =~= vec_views(rs0).update(pos as int, row@));
            lemma_entry_map_replace(ks0, vec_views(rs0), pos as int, row@);
            assert(keys@.to_set() =~= ks0.to_set().insert(k));
            assert(old_row@ == vec_views(rs0)[pos as int]);
            assert forall|i: int|
                0 <= i < rows@.len() implies (#[trigger] rows@[i])@ == row@ || vec_views(
                rs0,
            ).contains(rows@[i]@) by {
                if i != pos {
                    assert(rows@[i] == rs0[i]);
                    assert(vec_views(rs0)[i] == rs0[i]@);
                }
            }
        }
        Option::Some(old_row)
    } else {
        proof {
            assert forall|j: int| pos <= j < ks0.len() implies k < ks0[j] by {
                if j > pos {
                    assert(ks0[pos as int] < ks0[j]);
                }
            }
            lemma_entry_map_insert_new(ks0, vec_views(rs0), pos as int, k, row@);
        }
        keys.insert(pos, k);
        rows.insert(pos, row);
        proof {
            assert(vec_views(rows@) =~= vec_views(rs0).insert(pos as int, row@));
            rs0.insert_ensures(pos as int, rows@[pos as int]);
            vec_views(rs0).insert_ensures(pos as int, row@);
            assert forall|i: int|
                0 <= i < rows@.len() implies (#[trigger] rows@[i])@ == row@ || vec_views(
                rs0,
            ).contains(rows@[i]@) by {
                let nv = vec_views(rs0).insert(pos as int, row@);
                assert(rows@[i]@ == nv[i]);
                if i < pos {
                    assert(nv[i] == vec_views(rs0)[i]);
                } else if i > pos {
                    assert(nv[i] == vec_views(rs0)[i - 1]);
                }
            }
        }
        Option::None
    }
}

/// Whether some binding in a metadata list carries this key.
pub open spec fn meta_has(m: Seq<(Seq<char>, Seq<char>)>, k: Seq<char>) -> bool {
    exists|i: int| 0 <= i < m.len() && (#[trigger] m[i]).0 == k
}

/// The position of a key's binding in a metadata list.
pub open spec fn meta_index(m: Seq<(Seq<char>, Seq<char>)>, k: Seq<char>) -> int {
    choose|i: int| 0 <= i < m.len() && (#[trigger] m[i]).0 == k
}

/// Metadata keys are pairwise distinct.
pub open spec fn meta_unique(m: Seq<(Seq<char>, Seq<char>)>) -> bool {
    forall|i: int, j: int| 0 <= i < j < m.len() ==> (#[trigger] m[i]).0 != (#[trigger] m[j]).0
}

/// The mapping encoded by a metadata list.
pub open spec fn meta_pairs_map(m: Seq<(Seq<char>, Seq<char>)>) -> Map<Seq<char>, Seq<char>> {
    Map::new(|k: Seq<char>| meta_has(m, k), |k: Seq<char>| m[meta_index(m, k)].1)
}

/// With unique keys, `meta_index` is the one position carrying a key.
pub proof fn lemma_meta_index(m: Seq<(Seq<char>, Seq<char>)>, k: Seq<char>, i: int)
    requires
        meta_unique(m),
        0 <= i < m.len(),
        m[i].0 == k,
    ensures
        meta_has(m, k),
        meta_index(m, k) == i,
{
    assert(meta_has(m, k));
    let j = meta_index(m, k);
    assert(0 <= j < m.len() && m[j].0 == k);
    if j < i {
        assert(m[j].0 != m[i].0);
    } else if i < j {
        assert(m[i].0 != m[j].0);
    }
}

/// Rebinding the pair at a key's position updates the mapping.
pub proof fn lemma_meta_map_replace(
    m: Seq<(Seq<char>, Seq<char>)>,
    p: int,
    k: Seq<char>,
    v: Seq<char>,
)
    requires
        meta_unique(m),
        0 <= p < m.len(),
        m[p].0 == k,
    ensures
        meta_unique(m.update(p, (k, v))),
        meta_pairs_map(m.update(p, (k, v))) == meta_pairs_map(m).insert(k, v),
{
    let nm = m.update(p, (k, v));
    lemma_meta_index(m, k, p);
    assert forall|i: int, j: int| 0 <= i < j < nm.len() implies (#[trigger] nm[i]).0 != (
    #[trigger] nm[j]).0 by {
        assert(m[i].0 != m[j].0);
    }
    assert forall|x: Seq<char>| #[trigger] meta_has(nm, x) implies meta_has(m, x) by {
        let i = choose|i: int| 0 <= i < nm.len() && (#[trigger] nm[i]).0 == x;
        if i == p {
            assert(m[p].0 == x);
        } else {
            assert(m[i].0 == x);
        }
    }
    assert forall|x: Seq<char>| #[trigger] meta_has(m, x) implies meta_has(nm, x) by {
        let i = choose|i: int| 0 <= i < m.len() && (#[trigger] m[i]).0 == x;
        if i == p {
            assert(nm[p].0 == x);
        } else {
            assert(nm[i].0 == x);
        }
    }
    assert forall|x: Seq<char>| meta_has(nm, x) implies #[trigger] meta_pairs_map(nm)[x]
        == meta_pairs_map(m).insert(k, v)[x] by {
        let i = meta_index(nm, x);
        assert(0 <= i < nm.len() && nm[i].0 == x);
        lemma_meta_index(nm, x, i);
        if x == k {
            lemma_meta_index(nm, k, p);
        } else {
            assert(i != p);
            assert(m[i].0 == x);
            lemma_meta_index(m, x, i);
        }
    }
    assert(meta_pairs_map(nm) =~= meta_pairs_map(m).insert(k, v));
}

/// Appending a binding for a fresh key extends the mapping.
pub proof fn lemma_meta_map_push(m: Seq<(Seq<char>, Seq<char>)>, k: Seq<char>, v: Seq<char>)
    requires
        meta_unique(m),
        !meta_has(m, k),
    ensures
        meta_unique(m.push((k, v))),
        meta_pairs_map(m.push((k, v))) == meta_pairs_map(m).insert(k, v),
{
    let nm = m.push((k, v));
    assert forall|i: int, j: int| 0 <= i < j < nm.len() implies (#[trigger] nm[i]).0 != (
    #[trigger] nm[j]).0 by {
        if j < m.len() {
            assert(m[i].0 != m[j].0);
        } else {
            assert(nm[j].0 == k);
            assert(nm[i] == m[i]);
            assert(m[i].0 != k) by {
                if m[i].0 == k {
                    assert(meta_has(m, k));
                }
            }
        }
    }
    assert forall|x: Seq<char>| #[trigger] meta_has(nm, x) implies (x == k || meta_has(m, x)) by {
        let i = choose|i: int| 0 <= i < nm.len() && (#[trigger] nm[i]).0 == x;
        if i < m.len() {
            assert(m[i].0 == x);
        }
    }
    assert forall|x: Seq<char>| #[trigger] meta_has(m, x) implies meta_has(nm, x) by {
        let i = choose|i: int| 0 <= i < m.len() && (#[trigger] m[i]).0 == x;
        assert(nm[i].0 == x);
    }
    assert(nm[m.len() as int].0 == k);
    assert(meta_has(nm, k));
    assert forall|x: Seq<char>| meta_has(nm, x) implies #[trigger] meta_pairs_map(nm)[x]
        == meta_pairs_map(m).insert(k, v)[x] by {
        if x == k {
            lemma_meta_index(nm, k, m.len() as int);
        } else {
            let i = meta_index(m, x);
            assert(0 <= i < m.len() && m[i].0 == x);
            assert(nm[i].0 == x);
            lemma_meta_index(nm, x, i);
            lemma_meta_index(m, x, i);
        }
    }
    assert(meta_pairs_map(nm) =~= meta_pairs_map(m).insert(k, v));
}

/// What swapping columns `a` and `b` does to a table: the header pair
/// and the cell pair of every row are exchanged, everything else kept.
pub open spec fn swap_effect<V>(t0: Table<V>, t1: Table<V>, a: int, b: int) -> bool {
    &&& t1.hview() == t0.hview().update(a, t0.hview()[b]).update(b, t0.hview()[a])
    &&& t1.key_seq() == t0.key_seq()
    &&& t1.row_seq().len() == t0.row_seq().len()
    &&& forall|i: int|
        0 <= i < t0.row_seq().len() ==> #[trigger] t1.row_seq()[i] == t0.row_seq()[i].update(
            a,
            t0.row_seq()[i][b],
        ).update(b, t0.row_seq()[i][a])
    &&& t1.meta_view() == t0.meta_view()
}

/// Law: swapping the same two columns twice restores the original
/// headers and every row to its original content.
pub proof fn lemma_swap_involution<V>(t0: Table<V>, t1: Table<V>, t2: Table<V>, a: int, b: int)
    requires
        t0.wf(),
        0 <= a < t0.width(),
        0 <= b < t0.width(),
        swap_effect(t0, t1, a, b),
        swap_effect(t1, t2, a, b),
    ensures
        t2.hview() == t0.hview(),
        t2.row_seq() == t0.row_seq(),
        t2.key_seq() == t0.key_seq(),
        t2.meta_view() == t0.meta_view(),
{
    lemma_seq_swap_involution(t0.hview(), a, b);
    assert(t2.hview() =~= t0.hview());
    assert forall|i: int| 0 <= i < t0.row_seq().len() implies t2.row_seq()[i] == t0.row_seq()[i] by {
        lemma_seq_swap_involution(t0.row_seq()[i], a, b);
    }
    assert(t2.row_seq() =~= t0.row_seq());
}

/// Law: updating a pair of positions with each other's elements twice
/// restores the original sequence.
pub proof fn lemma_seq_swap_involution<T>(s: Seq<T>, a: int, b: int)
    requires
        0 <= a < s.len(),
        0 <= b < s.len(),
    ensures
        ({
            let s1 = s.update(a, s[b]).update(b, s[a]);
            s1.update(a, s1[b]).update(b, s1[a]) == s
        }),
{
    let s1 = s.update(a, s[b]).update(b, s[a]);
    assert(s1.update(a, s1[b]).update(b, s1[a]) =~= s);
}

/// Swap two positions of a vector.
fn vec_swap<T>(v: &mut Vec<T>, a: usize, b: usize)
    requires
        a < old(v).len(),
        b < old(v).len(),
    ensures
        final(v)@ == old(v)@.update(a as int, old(v)@[b as int]).update(
            b as int,
            old(v)@[a as int],
        ),
{
    let ghost v0 = v@;
    if a == b {
        proof {
            assert(v@ =~= v0.update(a as int, v0[b as int]).update(b as int, v0[a as int]));
        }
        return ;
    }
    let (lo, hi) = if a < b {
        (a, b)
    } else {
        (b, a)
    };
    let x_hi = v.remove(hi);
    let x_lo = v.remove(lo);
    v.insert(lo, x_hi);
    v.insert(hi, x_lo);
    proof {
        v0.remove_ensures(hi as int);
        v0.remove(hi as int).remove_ensures(lo as int);
        assert(v@ =~= v0.update(a as int, v0[b as int]).update(b as int, v0[a as int]));
    }
}

/// The first position of a name in a header list.
pub open spec fn col_find(h: Seq<Seq<char>>, name: Seq<char>) -> Option<int>
    decreases h.len(),
{
    if h.len() == 0 {
        Option::None
    } else if h[0] == name {
        Option::Some(0int)
    } else {
        match col_find(h.drop_first(), name) {
            Option::None => Option::None,
            Option::Some(p) => Option::Some(p + 1),
        }
    }
}

/// `col_find` returns the first matching position, or nothing when no
/// position matches.
pub proof fn lemma_col_find(h: Seq<Seq<char>>, name: Seq<char>)
    ensures
        match col_find(h, name) {
            Option::Some(p) => 0 <= p < h.len() && h[p] == name && forall|q: int|
                0 <= q < p ==> h[q] != name,
            Option::None => forall|q: int| 0 <= q < h.len() ==> h[q] != name,
        },
    decreases h.len(),
{
    if h.len() == 0 {
    } else if h[0] == name {
    } else {
        lemma_col_find(h.drop_first(), name);
        match col_find(h.drop_first(), name) {
            Option::None => {
                assert forall|q: int| 0 <= q < h.len() implies h[q] != name by {
                    if q > 0 {
                        assert(h.drop_first()[q - 1] == h[q]);
                    }
                }
            },
            Option::Some(p) => {
                assert(h[p + 1] == h.drop_first()[p]);
                assert forall|q: int| 0 <= q < p + 1 implies h[q] != name by {
                    if q > 0 {
                        assert(h.drop_first()[q - 1] == h[q]);
                    }
                }
            },
        }
    }
}

/// An ordered table: named columns, strictly key-ordered fixed-width
/// rows, and optional string metadata.
#[derive(Debug, Clone, PartialEq)]
pub struct Table<V> {
    headers: Vec<String>,
    keys: Vec<u64>,
    rows: Vec<Vec<V>>,
    meta_data: Option<Vec<(String, String)>>,
}

impl<V> Table<V> {
    /// The column names, as character sequences.
    pub closed spec fn hview(&self) -> Seq<Seq<char>> {
        str_views(self.headers@)
    }

    /// The keys, in storage order.
    pub closed spec fn key_seq(&self) -> Seq<u64> {
        self.keys@
    }

    /// The rows, in storage order.
    pub closed spec fn row_seq(&self) -> Seq<Seq<V>> {
        vec_views(self.rows@)
    }

    /// The metadata, as character sequences.
    pub closed spec fn meta_view(&self) -> Option<Seq<(Seq<char>, Seq<char>)>> {
        match self.meta_data {
            Option::None => Option::None,
            Option::Some(m) => Option::Some(pair_views(m@)),
        }
    }

    /// The header strings themselves.
    pub closed spec fn headers_raw(&self) -> Seq<String> {
        self.headers@
    }

    /// The metadata pairs themselves.
    pub closed spec fn meta_raw(&self) -> Option<Seq<(String, String)>> {
        match self.meta_data {
            Option::None => Option::None,
            Option::Some(m) => Option::Some(m@),
        }
    }

    /// The raw accessors agree with the views.
    pub proof fn lemma_raw_views(&self)
        ensures
            str_views(self.headers_raw()) == self.hview(),
            match self.meta_raw() {
                Option::None => self.meta_view() is None,
                Option::Some(m) => self.meta_view() == Option::Some(pair_views(m)),
            },
    {
    }

    /// The number of columns.
    pub open spec fn width(&self) -> nat {
        self.hview().len()
    }

    /// The table as a mapping from key to row.
    pub open spec fn row_map(&self) -> Map<u64, Seq<V>> {
        entry_map(self.key_seq(), self.row_seq())
    }

    /// The number of rows.
    pub open spec fn spec_len(&self) -> nat {
        self.key_seq().len()
    }

    /// Metadata keys are unique.
    pub open spec fn meta_wf(&self) -> bool {
        match self.meta_view() {
            Option::None => true,
            Option::Some(m) => meta_unique(m),
        }
    }

    /// The metadata as a mapping; an absent metadata list is empty.
    pub open spec fn meta_map(&self) -> Map<Seq<char>, Seq<char>> {
        match self.meta_view() {
            Option::None => Map::empty(),
            Option::Some(m) => meta_pairs_map(m),
        }
    }

    /// Well-formedness: keys strictly sorted, rows aligned with keys,
    /// at least one column, every row exactly as wide as the header
    /// list, metadata keys unique.
    pub open spec fn wf(&self) -> bool {
        &&& keys_sorted(self.key_seq())
        &&& self.row_seq().len() == self.key_seq().len()
        &&& self.width() >= 1
        &&& forall|i: int|
            0 <= i < self.row_seq().len() ==> (#[trigger] self.row_seq()[i]).len() == self.width()
        &&& self.meta_wf()
    }

    /// The number of rows.
    pub fn len(&self) -> (r: usize)
        ensures
            r == self.spec_len(),
    {
        self.keys.len()
    }

    /// Whether the table has no rows.
    pub fn is_empty(&self) -> (r: bool)
        ensures
            r == (self.spec_len() == 0),
    {
        self.keys.len() == 0
    }

    /// The column names.
    pub fn headers(&self) -> (r: &Vec<String>)
        ensures
            str_views(r@) == self.hview(),
            r@ == self.headers_raw(),
    {
        &self.headers
    }

    /// The metadata list, if one was ever set.
    pub fn meta_data(&self) -> (r: &Option<Vec<(String, String)>>)
        ensures
            match r {
                Option::None => self.meta_view() is None && self.meta_raw() is None,
                Option::Some(m) => self.meta_view() == Option::Some(pair_views(m@))
                    && self.meta_raw() == Option::Some(m@),
            },
    {
        &self.meta_data
    }

    /// The key at a storage position.
    pub fn key_at(&self, i: usize) -> (r: u64)
        requires
            i < self.spec_len(),
        ensures
            r == self.key_seq()[i as int],
    {
        self.keys[i]
    }

    /// The row at a storage position.
    pub fn row_at(&self, i: usize) -> (r: &Vec<V>)
        requires
            i < self.row_seq().len(),
        ensures
            r@ == self.row_seq()[i as int],
    {
        &self.rows[i]
    }

    /// The storage position of a key, if present.
    fn find_key(&self, key: u64) -> (r: Option<usize>)
        ensures
            match r {
                Option::Some(i) => i < self.key_seq().len() && self.key_seq()[i as int] == key,
                Option::None => !self.key_seq().contains(key),
            },
    {
        let mut i: usize = 0;
        while i < self.keys.len()
            invariant
                i <= self.keys.len(),
                forall|j: int| 0 <= j < i ==> self.key_seq()[j] != key,
            decreases self.keys.len() - i,
        {
            if self.keys[i] == key {
                return Option::Some(i);
            }
            i += 1;
        }
        assert(!self.key_seq().contains(key));
        Option::None
    }

    /// The inputs on which construction succeeds: at least one row,
    /// as many keys as rows, all rows of one width, the header list of
    /// that same width, and at least one column.
    pub open spec fn new_ok(headers: Seq<Seq<char>>, keys: Seq<u64>, rows: Seq<Seq<V>>) -> bool {
        &&& rows.len() > 0
        &&& keys.len() == rows.len()
        &&& !rows_uneven(rows)
        &&& headers.len() == rows[0].len()
        &&& rows[0].len() >= 1
    }

    /// The reason reported when construction fails.
    pub open spec fn new_err_msg(headers: Seq<Seq<char>>, keys: Seq<u64>, rows: Seq<Seq<V>>) -> Seq<
        char,
    > {
        if rows.len() == 0 {
            "data is empty"@
        } else if keys.len() != rows.len() {
            "time and data length should be equal"@
        } else if rows_uneven(rows) {
            "all rows should have equal length"@
        } else if headers.len() != rows[0].len() {
            "header has too many columns"@
        } else {
            "data is empty"@
        }
    }

    /// Sort the keyed rows, later bindings winning, and reject input
    /// whose shape does not describe a table.
    #[verifier::loop_isolation(false)]
    fn sort_rows(indexes: Vec<u64>, data: Vec<Vec<V>>) -> (r: Result<
        (Vec<u64>, Vec<Vec<V>>),
        TableError,
    >)
        ensures
            match r {
                Result::Ok(p) => {
                    &&& data@.len() > 0
                    &&& p.0@.len() > 0
                    &&& indexes@.len() == data@.len()
                    &&& !rows_uneven(vec_views(data@))
                    &&& keys_sorted(p.0@)
                    &&& p.1@.len() == p.0@.len()
                    &&& entry_map(p.0@, vec_views(p.1@)) == pairs_to_map(indexes@, vec_views(data@))
                    &&& p.0@.to_set() == indexes@.to_set()
                    &&& forall|i: int|
                        0 <= i < p.1@.len() ==> (#[trigger] vec_views(p.1@)[i]).len() == vec_views(
                            data@,
                        )[0].len()
                    &&& (indexes@.no_duplicates() ==> p.0@.len() == indexes@.len())
                },
                Result::Err(e) => {
                    &&& (data@.len() == 0 || indexes@.len() != data@.len() || rows_uneven(
                        vec_views(data@),
                    ))
                    &&& e.message() == (if data@.len() == 0 {
                        "data is empty"@
                    } else if indexes@.len() != data@.len() {
                        "time and data length should be equal"@
                    } else {
                        "all rows should have equal length"@
                    })
                },
            },
    {
        if data.len() == 0 {
            return Result::Err(TableError::new("data is empty"));
        }
        if data.len() != indexes.len() {
            return Result::Err(TableError::new("time and data length should be equal"));
        }
        let width = data[0].len();
        let ghost idx0 = indexes@;
        let ghost dat0 = data@;
        let mut indexes = indexes;
        let mut data = data;
        let mut keys: Vec<u64> = Vec::new();
        let mut rows: Vec<Vec<V>> = Vec::new();
        let ghost mut n: int = 0;
        proof {
            assert(idx0.take(0) =~= Seq::<u64>::empty());
            assert(vec_views(dat0).take(0) =~= Seq::<Seq<V>>::empty());
            assert(keys@.to_set() =~= idx0.take(0).to_set());
            assert(entry_map(keys@, vec_views(rows@)) =~= pairs_to_map(
                idx0.take(0),
                vec_views(dat0).take(0),
            ));
        }
        while data.len() > 0
            invariant
                0 <= n <= idx0.len(),
                idx0.len() == dat0.len(),
                width == vec_views(dat0)[0].len(),
                indexes@ == idx0.skip(n),
                data@ == dat0.skip(n),
                keys_sorted(keys@),
                rows@.len() == keys@.len(),
                entry_map(keys@, vec_views(rows@)) == pairs_to_map(
                    idx0.take(n),
                    vec_views(dat0).take(n),
                ),
                keys@.to_set() == idx0.take(n).to_set(),
                forall|i: int| 0 <= i < n ==> (#[trigger] vec_views(dat0)[i]).len() == width,
                forall|i: int| 0 <= i < rows@.len() ==> (#[trigger] vec_views(rows@)[i]).len() == width,
                (idx0.take(n).no_duplicates() ==> keys@.len() == n),
            decreases idx0.len() - n,
        {
            proof {
                assert(0 < dat0.skip(n).len());
                assert(n < idx0.len());
            }
            let row = data.remove(0);
            let k = indexes.remove(0);
            proof {
                assert(row@ == vec_views(dat0)[n]);
                assert(k == idx0[n]);
                assert(indexes@ =~= idx0.skip(n + 1));
                assert(data@ =~= dat0.skip(n + 1));
            }
            if row.len() != width {
                proof {
                    assert(vec_views(dat0)[n].len() != vec_views(dat0)[0].len());
                    assert(rows_uneven(vec_views(dat0)));
                }
                return Result::Err(TableError::new("all rows should have equal length"));
            }
            let ghost ks_pre = keys@;
            let ghost contained = keys@.contains(k);
            let _ = insert_pair(&mut keys, &mut rows, k, row);
            proof {
                let tk = idx0.take(n + 1);
                let tr = vec_views(dat0).take(n + 1);
                assert(tk.drop_last() =~= idx0.take(n));
                assert(tr.drop_last() =~= vec_views(dat0).take(n));
                assert(tk.last() == idx0[n]);
                assert(tr.last() == vec_views(dat0)[n]);
                assert(pairs_to_map(tk, tr) == pairs_to_map(
                    idx0.take(n),
                    vec_views(dat0).take(n),
                ).insert(k, vec_views(dat0)[n]));
                assert(keys@.to_set() =~= tk.to_set()) by {
                    assert(tk =~= idx0.take(n).push(k));
                    assert forall|z: u64| #[trigger] tk.to_set().contains(z) implies keys@.to_set().contains(z) by {
                        assert(tk.contains(z));
                        let i = choose|i: int| 0 <= i < tk.len() && tk[i] == z;
                        if i < n {
                            assert(idx0.take(n)[i] == z);
                            assert(idx0.take(n).contains(z));
                        } else {
                            assert(z == k);
                        }
                    }
                    assert forall|z: u64| #[trigger] keys@.to_set().contains(z) implies tk.to_set().contains(z) by {
                        if z != k {
                            assert(idx0.take(n).contains(z));
                            let i = choose|i: int| 0 <= i < n && idx0.take(n)[i] == z;
                            assert(tk[i] == z);
                        } else {
                            assert(tk[n] == z);
                        }
                    }
                }
                if tk.no_duplicates() {
                    assert(idx0.take(n).no_duplicates()) by {
                        assert forall|i: int, j: int|
                            0 <= i < j < n implies idx0.take(n)[i] != idx0.take(n)[j] by {
                            assert(tk[i] == idx0.take(n)[i]);
                            assert(tk[j] == idx0.take(n)[j]);
                        }
                    }
                    assert(!contained) by {
                        if ks_pre.contains(k) {
                            assert(ks_pre.to_set().contains(k));
                            assert(idx0.take(n).to_set().contains(k));
                            assert(idx0.take(n).contains(k));
                            let i = choose|i: int| 0 <= i < n && idx0.take(n)[i] == k;
                            assert(tk[i] == k && tk[n] == k);
                        }
                    }
                    assert(keys@.len() == n + 1);
                }
            }
            proof {
                n = n + 1;
            }
        }
        proof {
            assert(data@.len() == 0);
            assert(dat0.skip(n).len() == dat0.len() - n);
            assert(n == idx0.len());
            assert(idx0.take(n) =~= idx0);
            assert(vec_views(dat0).take(n) =~= vec_views(dat0));
            assert(keys@.to_set().contains(idx0[0]));
            assert(keys@.contains(idx0[0]));
            assert(!rows_uneven(vec_views(dat0))) by {
                if rows_uneven(vec_views(dat0)) {
                    let i = choose|i: int|
                        0 <= i < vec_views(dat0).len() && (#[trigger] vec_views(dat0)[i]).len()
                            != vec_views(dat0)[0].len();
                    assert(vec_views(dat0)[i].len() == width);
                    assert(vec_views(dat0)[0].len() == width);
                }
            }
        }
        Result::Ok((keys, rows))
    }

    /// Reject a header list that does not match the row width.
    fn check_headers(headers: &Vec<String>, rows: &Vec<Vec<V>>) -> (r: Result<(), TableError>)
        requires
            rows@.len() > 0,
        ensures
            match r {
                Result::Ok(_) => headers@.len() == rows@[0]@.len() && headers@.len() >= 1,
                Result::Err(e) => {
                    &&& (headers@.len() != rows@[0]@.len() || rows@[0]@.len() == 0)
                    &&& e.message() == (if headers@.len() != rows@[0]@.len() {
                        "header has too many columns"@
                    } else {
                        "data is empty"@
                    })
                },
            },
    {
        if headers.len() != rows[0].len() {
            return Result::Err(TableError::new("header has too many columns"));
        }
        if headers.len() == 0 {
            return Result::Err(TableError::new("data is empty"));
        }
        Result::Ok(())
    }

    /// Build a table from parts whose invariants the caller has
    /// already established; nothing is re-validated.
    pub fn new_btreemap(headers: Vec<String>, keys: Vec<u64>, rows: Vec<Vec<V>>) -> (r: Table<V>)
        requires
            keys_sorted(keys@),
            rows@.len() == keys@.len(),
            headers@.len() >= 1,
            forall|i: int| 0 <= i < rows@.len() ==> (#[trigger] rows@[i])@.len() == headers@.len(),
        ensures
            r.wf(),
            r.hview() == str_views(headers@),
            r.headers_raw() == headers@,
            r.key_seq() == keys@,
            r.row_seq() == vec_views(rows@),
            r.meta_view() is None,
            r.meta_raw() is None,
    {
        Table { headers, keys, rows, meta_data: Option::None }
    }

    /// Build a table from a header list, a key list, and a row list.
    /// Succeeds exactly on well-shaped input; later duplicate keys
    /// replace earlier ones.
    pub fn new(headers: Vec<String>, indexes: Vec<u64>, data: Vec<Vec<V>>) -> (r: Result<
        Table<V>,
        TableError,
    >)
        ensures
            r is Ok <==> Self::new_ok(str_views(headers@), indexes@, vec_views(data@)),
            r matches Ok(t) ==> {
                &&& t.wf()
                &&& t.hview() == str_views(headers@)
                &&& t.row_map() == pairs_to_map(indexes@, vec_views(data@))
                &&& t.key_seq().to_set() == indexes@.to_set()
                &&& t.meta_view() is None
                &&& (indexes@.no_duplicates() ==> t.spec_len() == indexes@.len())
            },
            r matches Err(e) ==> e.message() == Self::new_err_msg(
                str_views(headers@),
                indexes@,
                vec_views(data@),
            ),
    {
        let ghost d0 = data@;
        let p = match Self::sort_rows(indexes, data) {
            Result::Ok(p) => p,
            Result::Err(e) => {
                return Result::Err(e);
            },
        };
        let (keys, rows) = p;
        proof {
            assert(str_views(headers@).len() == headers@.len());
            assert(vec_views(rows@)[0] == rows@[0]@);
            assert(vec_views(rows@)[0].len() == vec_views(d0)[0].len());
            assert(!rows_uneven(vec_views(d0)));
        }
        match Self::check_headers(&headers, &rows) {
            Result::Ok(_) => {},
            Result::Err(e) => {
                return Result::Err(e);
            },
        }
        proof {
            assert forall|i: int|
                0 <= i < rows@.len() implies (#[trigger] rows@[i])@.len() == headers@.len() by {
                assert(vec_views(rows@)[i] == rows@[i]@);
            }
        }
        Result::Ok(Self::new_btreemap(headers, keys, rows))
    }

    /// Standard ordered-map lookup.
    pub fn get(&self, key: u64) -> (r: Option<&Vec<V>>)
        requires
            self.wf(),
        ensures
            match r {
                Option::Some(row) => self.row_map().contains_key(key) && row@ == self.row_map()[key],
                Option::None => !self.row_map().contains_key(key),
            },
    {
        match self.find_key(key) {
            Option::Some(i) => {
                proof {
                    lemma_key_index(self.key_seq(), key, i as int);
                }
                Option::Some(&self.rows[i])
            },
            Option::None => Option::None,
        }
    }

    /// Whether the table has a row under this key.
    pub fn contains_key(&self, key: u64) -> (r: bool)
        requires
            self.wf(),
        ensures
            r == self.row_map().contains_key(key),
    {
        match self.find_key(key) {
            Option::Some(i) => {
                proof {
                    lemma_key_index(self.key_seq(), key, i as int);
                }
                true
            },
            Option::None => false,
        }
    }

    /// Look a key up for mutation: what the caller leaves behind the
    /// reference becomes the row under that key, and the table is
    /// well-formed again when that row kept its width.
    pub fn get_mut(&mut self, key: u64) -> (r: Option<&mut Vec<V>>)
        requires
            old(self).wf(),
        ensures
            match r {
                Option::Some(row) => {
                    &&& old(self).row_map().contains_key(key)
                    &&& (*row)@ == old(self).row_map()[key]
                    &&& final(self).hview() == old(self).hview()
                    &&& final(self).meta_view() == old(self).meta_view()
                    &&& final(self).key_seq() == old(self).key_seq()
                    &&& final(self).row_map() == old(self).row_map().insert(
                        key,
                        (*final(row))@,
                    )
                    &&& ((*final(row))@.len() == old(self).width() ==> final(self).wf())
                },
                Option::None => !old(self).row_map().contains_key(key) && *final(self) == *old(
                    self,
                ),
            },
    {
        match self.find_key(key) {
            Option::Some(i) => {
                proof {
                    lemma_key_index(self.key_seq(), key, i as int);
                }
                let ghost ks = self.key_seq();
                let ghost rs = self.row_seq();
                let ghost rvecs = self.rows@;
                proof {
                    assert forall|nr: Seq<V>|
                        #[trigger] entry_map(ks, rs.update(i as int, nr)) == entry_map(
                            ks,
                            rs,
                        ).insert(ks[i as int], nr) by {
                        lemma_entry_map_replace(ks, rs, i as int, nr);
                    }
                    assert forall|nv: Vec<V>|
                        #[trigger] vec_views(rvecs.update(i as int, nv)) == rs.update(
                            i as int,
                            nv@,
                        ) by {
                        assert(vec_views(rvecs.update(i as int, nv)) =~= rs.update(i as int, nv@));
                    }
                }
                let row = vstd::std_specs::vec::vec_index_mut(&mut self.rows, i);
                Option::Some(row)
            },
            Option::None => Option::None,
        }
    }

    /// Bind a key to a row, returning the row it replaced, if any.
    pub fn insert(&mut self, key: u64, value: Vec<V>) -> (r: Option<Vec<V>>)
        requires
            old(self).wf(),
            value@.len() == old(self).width(),
        ensures
            final(self).wf(),
            final(self).hview() == old(self).hview(),
            final(self).headers_raw() == old(self).headers_raw(),
            final(self).meta_view() == old(self).meta_view(),
            final(self).meta_raw() == old(self).meta_raw(),
            final(self).row_map() == old(self).row_map().insert(key, value@),
            final(self).key_seq().to_set() == old(self).key_seq().to_set().insert(key),
            final(self).spec_len() == old(self).spec_len() + (if old(
                self,
            ).row_map().contains_key(key) {
                0int
            } else {
                1int
            }),
            match r {
                Option::Some(old_row) => old(self).row_map().contains_key(key) && old_row@ == old(
                    self,
                ).row_map()[key],
                Option::None => !old(self).row_map().contains_key(key),
            },
    {
        let ghost w = self.width();
        let r = insert_pair(&mut self.keys, &mut self.rows, key, value);
        proof {
            assert forall|i: int|
                0 <= i < self.row_seq().len() implies (#[trigger] self.row_seq()[i]).len()
                == w by {
                assert(self.row_seq()[i] == self.rows@[i]@);
                if self.rows@[i]@ != value@ {
                    assert(vec_views(old(self).rows@).contains(self.rows@[i]@));
                    let j = choose|j: int|
                        0 <= j < vec_views(old(self).rows@).len() && vec_views(old(self).rows@)[j]
                            == self.rows@[i]@;
                    assert(old(self).row_seq()[j].len() == w);
                }
            }
        }
        r
    }

    /// Unbind a key, returning the row it was bound to, if any.
    pub fn remove(&mut self, key: u64) -> (r: Option<Vec<V>>)
        requires
            old(self).wf(),
        ensures
            final(self).wf(),
            final(self).hview() == old(self).hview(),
            final(self).meta_view() == old(self).meta_view(),
            final(self).row_map() == old(self).row_map().remove(key),
            final(self).key_seq().to_set() == old(self).key_seq().to_set().remove(key),
            final(self).spec_len() == old(self).spec_len() - (if old(
                self,
            ).row_map().contains_key(key) {
                1int
            } else {
                0int
            }),
            match r {
                Option::Some(row) => old(self).row_map().contains_key(key) && row@ == old(
                    self,
                ).row_map()[key],
                Option::None => !old(self).row_map().contains_key(key),
            },
    {
        match self.find_key(key) {
            Option::Some(i) => {
                proof {
                    lemma_key_index(self.key_seq(), key, i as int);
                    lemma_entry_map_remove(self.key_seq(), self.row_seq(), i as int);
                }
                self.keys.remove(i);
                let row = self.rows.remove(i);
                proof {
                    assert(self.key_seq() =~= old(self).key_seq().remove(i as int));
                    assert(self.row_seq() =~= old(self).row_seq().remove(i as int)) by {
                        old(self).rows@.remove_ensures(i as int);
                        old(self).row_seq().remove_ensures(i as int);
                    }
                    assert forall|p: int|
                        0 <= p < self.row_seq().len() implies (#[trigger] self.row_seq()[p]).len()
                        == self.width() by {
                        old(self).row_seq().remove_ensures(i as int);
                    }
                }
                Option::Some(row)
            },
            Option::None => {
                proof {
                    assert(final(self).row_map() =~= old(self).row_map().remove(key));
                    assert(final(self).key_seq().to_set() =~= old(self).key_seq().to_set().remove(
                        key,
                    ));
                }
                Option::None
            },
        }
    }

    /// Drop every row, keeping headers and metadata.
    pub fn clear(&mut self)
        requires
            old(self).wf(),
        ensures
            final(self).wf(),
            final(self).hview() == old(self).hview(),
            final(self).meta_view() == old(self).meta_view(),
            final(self).row_map() == Map::<u64, Seq<V>>::empty(),
            final(self).spec_len() == 0,
    {
        self.keys.clear();
        self.rows.clear();
        proof {
            assert(final(self).row_map() =~= Map::<u64, Seq<V>>::empty());
        }
    }

    /// Where a column designator points in this header list: an index
    /// as itself, a name at its first occurrence.
    pub open spec fn resolve(h: Seq<Seq<char>>, c: IndexOrColumn) -> Option<int> {
        match c {
            IndexOrColumn::Index(i) => Option::Some(i as int),
            IndexOrColumn::Column(s) => col_find(h, s@),
        }
    }

    /// Swap two columns by position: the header pair and the cell pair
    /// of every row move in lock-step.
    #[verifier::loop_isolation(false)]
    pub fn swap(&mut self, a: usize, b: usize) -> (r: Result<(), TableError>)
        requires
            old(self).wf(),
        ensures
            final(self).wf(),
            r is Ok <==> (a < old(self).width() && b < old(self).width()),
            r matches Ok(_) ==> swap_effect(*old(self), *final(self), a as int, b as int),
            r matches Err(e) ==> {
                &&& *final(self) == *old(self)
                &&& e.message() == (if a >= old(self).width() {
                    "index number a is too high"@
                } else {
                    "index number b is too high"@
                })
            },
    {
        if a >= self.headers.len() {
            return Result::Err(TableError::new("index number a is too high"));
        }
        if b >= self.headers.len() {
            return Result::Err(TableError::new("index number b is too high"));
        }
        let ghost h0 = self.hview();
        let ghost rs0 = self.row_seq();
        vec_swap(&mut self.headers, a, b);
        proof {
            assert(self.hview() =~= h0.update(a as int, h0[b as int]).update(
                b as int,
                h0[a as int],
            ));
        }
        let ghost h1 = self.headers@;
        let mut i: usize = 0;
        while i < self.rows.len()
            invariant
                i <= self.rows.len(),
                self.headers@ == h1,
                self.keys@ == old(self).keys@,
                self.meta_data == old(self).meta_data,
                self.rows@.len() == rs0.len(),
                forall|j: int| i <= j < rs0.len() ==> (#[trigger] self.rows@[j])@ == rs0[j],
                forall|j: int|
                    0 <= j < i ==> (#[trigger] self.rows@[j])@ == rs0[j].update(
                        a as int,
                        rs0[j][b as int],
                    ).update(b as int, rs0[j][a as int]),
            decreases self.rows.len() - i,
        {
            proof {
                assert(self.rows@[i as int]@ == rs0[i as int]);
                assert(rs0[i as int] == old(self).row_seq()[i as int]);
                assert(rs0[i as int].len() == old(self).width());
            }
            let row = vstd::std_specs::vec::vec_index_mut(&mut self.rows, i);
            vec_swap(row, a, b);
            i += 1;
        }
        proof {
            assert forall|j: int|
                0 <= j < self.row_seq().len() implies (#[trigger] self.row_seq()[j]).len()
                == self.width() by {
                assert(self.row_seq()[j] == self.rows@[j]@);
            }
            assert forall|j: int|
                0 <= j < rs0.len() implies #[trigger] self.row_seq()[j] == rs0[j].update(
                a as int,
                rs0[j][b as int],
            ).update(b as int, rs0[j][a as int]) by {
                assert(self.row_seq()[j] == self.rows@[j]@);
            }
        }
        Result::Ok(())
    }

    /// Swap two columns named by index or by header string.
    pub fn swap_columns(&mut self, a: IndexOrColumn, b: IndexOrColumn) -> (r: Result<
        (),
        TableError,
    >)
        requires
            old(self).wf(),
        ensures
            final(self).wf(),
            ({
                let pa = Self::resolve(old(self).hview(), a);
                let pb = Self::resolve(old(self).hview(), b);
                match r {
                    Result::Ok(_) => {
                        &&& pa matches Option::Some(x) && 0 <= x < old(self).width()
                        &&& pb matches Option::Some(y) && 0 <= y < old(self).width()
                        &&& final(self).hview() == old(self).hview().update(
                            pa->0,
                            old(self).hview()[pb->0],
                        ).update(pb->0, old(self).hview()[pa->0])
                        &&& final(self).key_seq() == old(self).key_seq()
                        &&& final(self).row_seq().len() == old(self).row_seq().len()
                        &&& forall|i: int|
                            0 <= i < old(self).row_seq().len()
                                ==> #[trigger] final(self).row_seq()[i] == old(
                                self,
                            ).row_seq()[i].update(pa->0, old(self).row_seq()[i][pb->0]).update(
                                pb->0,
                                old(self).row_seq()[i][pa->0],
                            )
                        &&& final(self).meta_view() == old(self).meta_view()
                    },
                    Result::Err(e) => {
                        &&& *final(self) == *old(self)
                        &&& (pa is None || pb is None || pa->0 >= old(self).width() || pb->0
                            >= old(self).width())
                        &&& e.message() == (if pa is None {
                            "column a not found"@
                        } else if pb is None {
                            "column b not found"@
                        } else if pa->0 >= old(self).width() {
                            "index number a is too high"@
                        } else {
                            "index number b is too high"@
                        })
                    },
                }
            }),
    {
        let index_a = match a {
            IndexOrColumn::Column(name) => {
                match self.find_column(&name) {
                    Option::Some(i) => i,
                    Option::None => {
                        return Result::Err(TableError::new("column a not found"));
                    },
                }
            },
            IndexOrColumn::Index(i) => i,
        };
        let index_b = match b {
            IndexOrColumn::Column(name) => {
                match self.find_column(&name) {
                    Option::Some(i) => i,
                    Option::None => {
                        return Result::Err(TableError::new("column b not found"));
                    },
                }
            },
            IndexOrColumn::Index(i) => i,
        };
        self.swap(index_a, index_b)
    }

    /// The first column whose header equals the given name.
    #[verifier::loop_isolation(false)]
    fn find_column(&self, name: &String) -> (r: Option<usize>)
        ensures
            match r {
                Option::Some(i) => col_find(self.hview(), name@) == Option::Some(i as int),
                Option::None => col_find(self.hview(), name@) is None,
            },
    {
        proof {
            lemma_col_find(self.hview(), name@);
        }
        let mut i: usize = 0;
        while i < self.headers.len()
            invariant
                i <= self.headers.len(),
                forall|q: int| 0 <= q < i ==> self.hview()[q] != name@,
            decreases self.headers.len() - i,
        {
            if self.headers[i] == *name {
                proof {
                    assert(self.hview()[i as int] == name@);
                    match col_find(self.hview(), name@) {
                        Option::Some(p) => {
                            if p < i {
                            } else if p > i {
                            }
                        },
                        Option::None => {
                            assert(self.hview()[i as int] != name@);
                        },
                    }
                }
                return Option::Some(i);
            }
            proof {
                assert(self.hview()[i as int] == self.headers@[i as int]@);
            }
            i += 1;
        }
        proof {
            match col_find(self.hview(), name@) {
                Option::Some(p) => {
                    assert(self.hview()[p] == name@);
                },
                Option::None => {},
            }
        }
        Option::None
    }

    /// Move every row of `other` into this table, `other`'s bindings
    /// winning on shared keys; `other` is left with no rows.
    #[verifier::loop_isolation(false)]
    pub fn append(&mut self, other: &mut Table<V>)
        requires
            old(self).wf(),
            old(other).wf(),
            old(other).width() == old(self).width(),
        ensures
            final(self).wf(),
            final(other).wf(),
            final(self).hview() == old(self).hview(),
            final(self).meta_view() == old(self).meta_view(),
            final(other).hview() == old(other).hview(),
            final(other).meta_view() == old(other).meta_view(),
            final(self).row_map() == old(self).row_map().union_prefer_right(
                old(other).row_map(),
            ),
            final(other).spec_len() == 0,
    {
        while other.len() > 0
            invariant
                self.wf(),
                other.wf(),
                other.width() == self.width(),
                self.hview() == old(self).hview(),
                self.meta_view() == old(self).meta_view(),
                other.hview() == old(other).hview(),
                other.meta_view() == old(other).meta_view(),
                self.row_map().union_prefer_right(other.row_map()) == old(
                    self,
                ).row_map().union_prefer_right(old(other).row_map()),
            decreases other.spec_len(),
        {
            let pos = other.len() - 1;
            let k = other.key_at(pos);
            proof {
                lemma_key_index(other.key_seq(), k, pos as int);
            }
            let ghost sm = self.row_map();
            let ghost om = other.row_map();
            let row = match other.remove(k) {
                Option::Some(row) => row,
                Option::None => {
                    proof {
                        assert(false);
                    }
                    continue ;
                },
            };
            self.insert(k, row);
            proof {
                assert(self.row_map().union_prefer_right(other.row_map())
                    =~= sm.union_prefer_right(om)) by {
                    assert(self.row_map() == sm.insert(k, om[k]));
                    assert(other.row_map() == om.remove(k));
                }
            }
        }
        proof {
            assert(self.row_map().union_prefer_right(other.row_map()) =~= self.row_map()) by {
                assert(other.key_seq().len() == 0);
                assert forall|x: u64| !(#[trigger] other.row_map().contains_key(x)) by {
                    if other.key_seq().contains(x) {
                        let q = choose|q: int|
                            0 <= q < other.key_seq().len() && other.key_seq()[q] == x;
                    }
                }
            }
        }
    }

    /// Split at a key: keep the rows below it, hand back those at or
    /// above it under the same headers (and no metadata).
    #[verifier::loop_isolation(false)]
    pub fn split_off(&mut self, key: u64) -> (r: Table<V>)
        requires
            old(self).wf(),
        ensures
            final(self).wf(),
            r.wf(),
            final(self).hview() == old(self).hview(),
            r.hview() == old(self).hview(),
            final(self).meta_view() == old(self).meta_view(),
            r.meta_view() is None,
            forall|k: u64|
                #[trigger] old(self).row_map().contains_key(k) ==> if k < key {
                    final(self).row_map().contains_key(k) && final(self).row_map()[k] == old(
                        self,
                    ).row_map()[k]
                } else {
                    r.row_map().contains_key(k) && r.row_map()[k] == old(self).row_map()[k]
                },
            forall|k: u64|
                #[trigger] final(self).row_map().contains_key(k) ==> old(
                    self,
                ).row_map().contains_key(k) && k < key,
            forall|k: u64|
                #[trigger] r.row_map().contains_key(k) ==> old(self).row_map().contains_key(k)
                    && k >= key,
    {
        let ghost ks0 = self.key_seq();
        let ghost rs0 = self.row_seq();
        let mut pos: usize = 0;
        while pos < self.keys.len() && self.keys[pos] < key
            invariant
                pos <= ks0.len(),
                self == old(self),
                forall|j: int| 0 <= j < pos ==> ks0[j] < key,
            decreases ks0.len() - pos,
        {
            pos += 1;
        }
        proof {
            assert forall|j: int| pos <= j < ks0.len() implies ks0[j] >= key by {
                if j > pos {
                    assert(ks0[pos as int] < ks0[j]);
                }
            }
        }
        let split_keys = self.keys.split_off(pos);
        let split_rows = self.rows.split_off(pos);
        let mut headers2: Vec<String> = Vec::new();
        let mut h: usize = 0;
        while h < self.headers.len()
            invariant
                h <= self.headers@.len(),
                headers2@.len() == h,
                forall|j: int| 0 <= j < h ==> (#[trigger] headers2@[j])@ == old(self).hview()[j],
            decreases self.headers@.len() - h,
        {
            headers2.push(self.headers[h].clone());
            h += 1;
        }
        proof {
            assert(str_views(headers2@) =~= old(self).hview());
            assert(self.key_seq() =~= ks0.subrange(0, pos as int));
            assert(self.row_seq() =~= rs0.subrange(0, pos as int)) by {
                assert forall|j: int|
                    0 <= j < self.rows@.len() implies (#[trigger] self.rows@[j])@ == rs0[j] by {
                    assert(self.rows@[j] == old(self).rows@[j]);
                }
            }
            assert(vec_views(split_rows@) =~= rs0.subrange(pos as int, rs0.len() as int)) by {
                assert forall|j: int|
                    0 <= j < split_rows@.len() implies (#[trigger] split_rows@[j])@ == rs0[pos + j] by {
                    assert(split_rows@[j] == old(self).rows@[pos + j]);
                }
            }
            assert(keys_sorted(split_keys@));
            assert(keys_sorted(self.key_seq()));
            assert forall|j: int|
                0 <= j < split_rows@.len() implies (#[trigger] split_rows@[j])@.len()
                == headers2@.len() by {
                assert(split_rows@[j]@ == rs0[pos + j]);
            }
        }
        let out = Table::new_btreemap(headers2, split_keys, split_rows);
        proof {
            assert forall|k: u64|
                #[trigger] old(self).row_map().contains_key(k) implies if k < key {
                final(self).row_map().contains_key(k) && final(self).row_map()[k] == old(
                    self,
                ).row_map()[k]
            } else {
                out.row_map().contains_key(k) && out.row_map()[k] == old(self).row_map()[k]
            } by {
                let idx = key_index(ks0, k);
                assert(0 <= idx < ks0.len() && ks0[idx] == k);
                if k < key {
                    assert(idx < pos) by {
                        if idx >= pos {
                            assert(ks0[idx] >= key);
                        }
                    }
                    assert(self.key_seq()[idx] == k);
                    lemma_key_index(self.key_seq(), k, idx);
                    assert(self.row_seq()[idx] == rs0[idx]);
                } else {
                    assert(idx >= pos) by {
                        if idx < pos {
                            assert(ks0[idx] < key);
                        }
                    }
                    assert(out.key_seq()[idx - pos] == k);
                    lemma_key_index(out.key_seq(), k, idx - pos);
                    assert(out.row_seq()[idx - pos] == rs0[idx]);
                }
            }
            assert forall|k: u64|
                #[trigger] final(self).row_map().contains_key(k) implies old(
                self,
            ).row_map().contains_key(k) && k < key by {
                let idx = key_index(self.key_seq(), k);
                assert(0 <= idx < self.key_seq().len() && self.key_seq()[idx] == k);
                assert(ks0[idx] == k);
                lemma_key_index(ks0, k, idx);
            }
            assert forall|k: u64|
                #[trigger] out.row_map().contains_key(k) implies old(
                self,
            ).row_map().contains_key(k) && k >= key by {
                let idx = key_index(out.key_seq(), k);
                assert(0 <= idx < out.key_seq().len() && out.key_seq()[idx] == k);
                assert(ks0[pos + idx] == k);
                lemma_key_index(ks0, k, pos + idx);
            }
        }
        out
    }

    /// A fresh table holding clones of the rows whose key falls in
    /// `start..end`, under clones of the headers and no metadata.
    #[verifier::loop_isolation(false)]
    pub fn slice_owned(&self, start: u64, end: u64) -> (r: Table<V>) where V: Clone
        requires
            self.wf(),
        ensures
            r.wf(),
            r.hview() == self.hview(),
            r.meta_view() is None,
            forall|k: u64|
                #[trigger] r.row_map().contains_key(k) == (self.row_map().contains_key(k) && start
                    <= k < end),
            forall|k: u64|
                #[trigger] r.row_map().contains_key(k) ==> cloned_seq(
                    self.row_map()[k],
                    r.row_map()[k],
                ),
    {
        let mut keys2: Vec<u64> = Vec::new();
        let mut rows2: Vec<Vec<V>> = Vec::new();
        let mut i: usize = 0;
        while i < self.keys.len()
            invariant
                i <= self.key_seq().len(),
                keys2@.len() == rows2@.len(),
                keys_sorted(keys2@),
                forall|j: int|
                    0 <= j < keys2@.len() ==> {
                        &&& start <= (#[trigger] keys2@[j]) < end
                        &&& self.key_seq().contains(keys2@[j])
                        &&& cloned_seq(self.row_map()[keys2@[j]], rows2@[j]@)
                        &&& exists|idx: int| 0 <= idx < i && self.key_seq()[idx] == keys2@[j]
                    },
                forall|k: u64|
                    self.key_seq().take(i as int).contains(k) && start <= k < end
                        ==> keys2@.contains(k),
            decreases self.key_seq().len() - i,
        {
            let k = self.keys[i];
            proof {
                lemma_key_index(self.key_seq(), k, i as int);
            }
            let ghost keys_pre = keys2@;
            if start <= k && k < end {
                proof {
                    if keys2@.len() > 0 {
                        let j = keys2@.len() - 1;
                        let idx = choose|idx: int|
                            0 <= idx < i && self.key_seq()[idx] == keys2@[j];
                        assert(self.key_seq()[idx] < self.key_seq()[i as int]);
                    }
                }
                let row = self.rows[i].clone();
                proof {
                    assert(cloned_seq(self.row_map()[k], row@));
                }
                keys2.push(k);
                rows2.push(row);
            }
            proof {
                assert forall|k2: u64|
                    self.key_seq().take(i as int + 1).contains(k2) && start <= k2 < end implies #[trigger]
                    keys2@.contains(k2) by {
                    let idx = choose|idx: int|
                        0 <= idx < i + 1 && #[trigger] self.key_seq().take(i as int + 1)[idx] == k2;
                    if idx < i {
                        assert(self.key_seq().take(i as int)[idx] == k2);
                        assert(self.key_seq().take(i as int).contains(k2));
                        assert(keys_pre.contains(k2));
                        let j = choose|j: int| 0 <= j < keys_pre.len() && #[trigger] keys_pre[j] == k2;
                        assert(keys2@[j] == keys_pre[j]);
                        assert(keys2@[j] == k2);
                    } else {
                        assert(k2 == k);
                        assert(start <= k && k < end);
                        assert(keys2@[keys2@.len() - 1] == k2);
                    }
                }
            }
            i += 1;
        }
        let mut headers2: Vec<String> = Vec::new();
        let mut h: usize = 0;
        while h < self.headers.len()
            invariant
                h <= self.headers@.len(),
                headers2@.len() == h,
                forall|j: int| 0 <= j < h ==> (#[trigger] headers2@[j])@ == self.hview()[j],
            decreases self.headers@.len() - h,
        {
            headers2.push(self.headers[h].clone());
            h += 1;
        }
        proof {
            assert(str_views(headers2@) =~= self.hview());
            assert(self.key_seq().take(self.key_seq().len() as int) =~= self.key_seq());
            assert forall|j: int|
                0 <= j < rows2@.len() implies (#[trigger] rows2@[j])@.len() == headers2@.len() by {
                assert(cloned_seq(self.row_map()[keys2@[j]], rows2@[j]@));
                assert(self.row_map()[keys2@[j]].len() == self.width());
            }
        }
        let out = Table::new_btreemap(headers2, keys2, rows2);
        proof {
            assert forall|k: u64|
                #[trigger] out.row_map().contains_key(k) == (self.row_map().contains_key(k) && start
                    <= k < end) by {
                if out.row_map().contains_key(k) {
                    let j = key_index(out.key_seq(), k);
                    assert(0 <= j < out.key_seq().len() && out.key_seq()[j] == k);
                }
                if self.row_map().contains_key(k) && start <= k && k < end {
                    assert(out.key_seq().contains(k));
                }
            }
            assert forall|k: u64|
                #[trigger] out.row_map().contains_key(k) implies cloned_seq(
                self.row_map()[k],
                out.row_map()[k],
            ) by {
                let j = key_index(out.key_seq(), k);
                assert(0 <= j < out.key_seq().len() && out.key_seq()[j] == k);
                lemma_key_index(out.key_seq(), k, j);
                assert(out.row_seq()[j] == out.rows@[j]@);
            }
        }
        out
    }

    /// Keep only the rows whose key falls in `start..end`, in place;
    /// headers and metadata stay.
    #[verifier::loop_isolation(false)]
    pub fn slice_inplace(&mut self, start: u64, end: u64)
        requires
            old(self).wf(),
        ensures
            final(self).wf(),
            final(self).hview() == old(self).hview(),
            final(self).meta_view() == old(self).meta_view(),
            forall|k: u64|
                #[trigger] final(self).row_map().contains_key(k) == (old(
                    self,
                ).row_map().contains_key(k) && start <= k < end),
            forall|k: u64|
                #[trigger] final(self).row_map().contains_key(k) ==> final(self).row_map()[k]
                    == old(self).row_map()[k],
    {
        while self.keys.len() > 0 && self.keys[0] < start
            invariant
                old(self).wf(),
                self.wf(),
                self.hview() == old(self).hview(),
                self.meta_view() == old(self).meta_view(),
                forall|k: u64|
                    #[trigger] self.row_map().contains_key(k) ==> old(
                        self,
                    ).row_map().contains_key(k) && self.row_map()[k] == old(self).row_map()[k],
                forall|k: u64|
                    #[trigger] old(self).row_map().contains_key(k) && k >= start
                        ==> self.row_map().contains_key(k),
            decreases self.key_seq().len(),
        {
            let k0 = self.keys[0];
            let ghost ksb = self.key_seq();
            let ghost rsb = self.row_seq();
            let ghost pre_map = self.row_map();
            proof {
                assert(pre_map == entry_map(ksb, rsb));
                assert(forall|k: u64|
                    #[trigger] pre_map.contains_key(k) ==> old(self).row_map().contains_key(k)
                        && pre_map[k] == old(self).row_map()[k]);
                assert(forall|k: u64|
                    #[trigger] old(self).row_map().contains_key(k) && k >= start
                        ==> pre_map.contains_key(k));
                lemma_key_index(ksb, k0, 0);
                lemma_entry_map_remove(ksb, rsb, 0);
                ksb.remove_ensures(0);
                rsb.remove_ensures(0);
            }
            self.keys.remove(0);
            let _ = self.rows.remove(0);
            proof {
                assert(self.key_seq() =~= ksb.remove(0));
                assert(self.row_seq() =~= rsb.remove(0)) by {
                    assert forall|j: int|
                        0 <= j < self.rows@.len() implies (#[trigger] self.rows@[j])@ == rsb.remove(
                        0,
                    )[j] by {
                        assert(self.rows@[j]@ == vec_views(self.rows@)[j]);
                    }
                }
                assert(self.row_map() =~= entry_map(ksb, rsb).remove(k0));
                assert forall|j: int|
                    0 <= j < self.row_seq().len() implies (#[trigger] self.row_seq()[j]).len()
                    == self.width() by {
                    assert(self.row_seq()[j] == rsb.remove(0)[j]);
                    assert(rsb.remove(0)[j] == rsb[j + 1]);
                }
                assert(self.row_map() == pre_map.remove(k0));
                assert forall|k: u64|
                    #[trigger] self.row_map().contains_key(k) implies old(
                    self,
                ).row_map().contains_key(k) && self.row_map()[k] == old(self).row_map()[k] by {
                    assert(pre_map.contains_key(k));
                    assert(self.row_map()[k] == pre_map[k]);
                }
                assert forall|k: u64|
                    #[trigger] old(self).row_map().contains_key(k) && k >= start implies self.row_map().contains_key(
                    k,
                ) by {
                    assert(pre_map.contains_key(k));
                    assert(k != k0);
                }
            }
        }
        let _ = self.split_off(end);
        proof {
            assert forall|k: u64|
                #[trigger] final(self).row_map().contains_key(k) == (old(
                self,
            ).row_map().contains_key(k) && start <= k < end) by {
                if final(self).row_map().contains_key(k) {
                    assert(k >= start) by {
                        if k < start {
                        }
                    }
                }
            }
        }
    }

    /// Replace the whole metadata list.
    pub fn set_meta_data(&mut self, meta_data: Vec<(String, String)>)
        requires
            old(self).wf(),
            forall|i: int, j: int|
                0 <= i < j < meta_data@.len() ==> (#[trigger] meta_data@[i]).0@ != (
                #[trigger] meta_data@[j]).0@,
        ensures
            final(self).wf(),
            final(self).hview() == old(self).hview(),
            final(self).headers_raw() == old(self).headers_raw(),
            final(self).key_seq() == old(self).key_seq(),
            final(self).row_seq() == old(self).row_seq(),
            final(self).meta_view() == Option::Some(pair_views(meta_data@)),
            final(self).meta_raw() == Option::Some(meta_data@),
    {
        self.meta_data = Option::Some(meta_data);
        proof {
            let m = self.meta_view()->0;
            assert forall|i: int, j: int|
                0 <= i < j < m.len() implies (#[trigger] m[i]).0 != (#[trigger] m[j]).0 by {
                assert(m[i].0 == meta_data@[i].0@);
                assert(m[j].0 == meta_data@[j].0@);
            }
        }
    }

    /// Bind one metadata key to a value, replacing any earlier binding.
    #[verifier::loop_isolation(false)]
    pub fn set_meta_key(&mut self, key: String, value: String)
        requires
            old(self).wf(),
        ensures
            final(self).wf(),
            final(self).hview() == old(self).hview(),
            final(self).headers_raw() == old(self).headers_raw(),
            final(self).key_seq() == old(self).key_seq(),
            final(self).row_seq() == old(self).row_seq(),
            final(self).meta_view() is Some,
            final(self).meta_map() == old(self).meta_map().insert(key@, value@),
            match final(self).meta_raw() {
                Option::Some(m) => forall|i: int|
                    0 <= i < m.len() ==> (#[trigger] m[i]) == (key, value) || (old(
                        self,
                    ).meta_raw() matches Option::Some(m0) && m0.contains(m[i])),
                Option::None => false,
            },
    {
        if self.meta_data.is_none() {
            self.meta_data = Option::Some(Vec::new());
            proof {
                assert(meta_pairs_map(self.meta_view()->0) =~= Map::<Seq<char>, Seq<char>>::empty());
            }
        }
        let ghost m0 = self.meta_view()->0;
        match &mut self.meta_data {
            Option::Some(m) => {
                let ghost mv0 = m@;
                let mut i: usize = 0;
                while i < m.len()
                    invariant
                        i <= m@.len(),
                        m@ == mv0,
                        forall|q: int| 0 <= q < i ==> (#[trigger] mv0[q]).0@ != key@,
                    decreases m@.len() - i,
                {
                    if m[i].0 == key {
                        proof {
                            assert(m0[i as int] == (mv0[i as int].0@, mv0[i as int].1@));
                            lemma_meta_map_replace(m0, i as int, key@, value@);
                        }
                        m.set(i, (key, value));
                        proof {
                            let m1 = final(self).meta_view()->0;
                            assert(m1 =~= m0.update(i as int, (key@, value@)));
                        }
                        return ;
                    }
                    i += 1;
                }
                proof {
                    assert(!meta_has(m0, key@)) by {
                        if meta_has(m0, key@) {
                            let q = choose|q: int| 0 <= q < m0.len() && (#[trigger] m0[q]).0 == key@;
                            assert(mv0[q].0@ == key@);
                        }
                    }
                    lemma_meta_map_push(m0, key@, value@);
                }
                m.push((key, value));
                proof {
                    let m1 = final(self).meta_view()->0;
                    assert(m1 =~= m0.push((key@, value@)));
                }
            },
            Option::None => {
                proof {
                    assert(false);
                }
            },
        }
    }

    /// Look a metadata key up.
    #[verifier::loop_isolation(false)]
    pub fn get_meta_key(&self, key: &String) -> (r: Option<&String>)
        requires
            self.wf(),
        ensures
            match r {
                Option::Some(v) => self.meta_map().contains_key(key@) && v@
                    == self.meta_map()[key@],
                Option::None => !self.meta_map().contains_key(key@),
            },
    {
        match &self.meta_data {
            Option::None => Option::None,
            Option::Some(m) => {
                let ghost m0 = self.meta_view()->0;
                let mut i: usize = 0;
                while i < m.len()
                    invariant
                        i <= m@.len(),
                        forall|q: int| 0 <= q < i ==> (#[trigger] m@[q]).0@ != key@,
                    decreases m@.len() - i,
                {
                    if m[i].0 == *key {
                        proof {
                            assert(m0[i as int] == (m@[i as int].0@, m@[i as int].1@));
                            lemma_meta_index(m0, key@, i as int);
                        }
                        return Option::Some(&m[i].1);
                    }
                    i += 1;
                }
                proof {
                    assert(!meta_has(m0, key@)) by {
                        if meta_has(m0, key@) {
                            let q = choose|q: int| 0 <= q < m0.len() && (#[trigger] m0[q]).0 == key@;
                            assert(m@[q].0@ == key@);
                        }
                    }
                }
                Option::None
            },
        }
    }
}

} // verus!

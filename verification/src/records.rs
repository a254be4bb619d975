//! Building tables from keyed records of named fields, and from
//! labeled rows as an external reader hands them over.

use vstd::prelude::*;

use crate::errors::TableError;
use crate::errors::TableReadError;
use crate::table::Table;
use crate::table::pairs_to_map;
use crate::table::str_views;
use crate::table::vec_views;

verus! {

use vstd::utf8::encode_utf8;
use vstd::utf8::encode_utf8_decode_utf8;

/// Strict lexicographic order on byte strings.
pub open spec fn bytes_lt(a: Seq<u8>, b: Seq<u8>) -> bool
    decreases a.len(),
{
    if b.len() == 0 {
        false
    } else if a.len() == 0 {
        true
    } else if a[0] < b[0] {
        true
    } else if a[0] > b[0] {
        false
    } else {
        bytes_lt(a.drop_first(), b.drop_first())
    }
}

/// Strict order on strings: the order of their UTF-8 bytes.
pub open spec fn str_lt(a: Seq<char>, b: Seq<char>) -> bool {
    bytes_lt(encode_utf8(a), encode_utf8(b))
}

/// `bytes_lt` is a strict total order: exactly one of `a < b`,
/// `a == b`, `b < a` holds.
pub proof fn lemma_bytes_lt_trichotomy(a: Seq<u8>, b: Seq<u8>)
    ensures
        bytes_lt(a, b) || bytes_lt(b, a) || a == b,
        bytes_lt(a, b) ==> !bytes_lt(b, a) && a != b,
    decreases a.len(),
{
    if a.len() == 0 && b.len() == 0 {
        assert(a =~= b);
    } else if a.len() == 0 || b.len() == 0 {
    } else {
        lemma_bytes_lt_trichotomy(a.drop_first(), b.drop_first());
        if a[0] == b[0] && a.drop_first() == b.drop_first() {
            assert(a.len() == b.len());
            assert forall|q: int| 0 <= q < a.len() implies a[q] == b[q] by {
                if q > 0 {
                    assert(a.drop_first()[q - 1] == b.drop_first()[q - 1]);
                }
            }
            assert(a =~= b);
        }
    }
}

/// `bytes_lt` is transitive.
pub proof fn lemma_bytes_lt_trans(a: Seq<u8>, b: Seq<u8>, c: Seq<u8>)
    requires
        bytes_lt(a, b),
        bytes_lt(b, c),
    ensures
        bytes_lt(a, c),
    decreases a.len(),
{
    if a.len() == 0 {
    } else {
        if a[0] == b[0] && b[0] == c[0] {
            lemma_bytes_lt_trans(a.drop_first(), b.drop_first(), c.drop_first());
        }
    }
}

/// Equal byte strings under equal prefixes compare by their suffixes.
proof fn lemma_bytes_lt_skip(a: Seq<u8>, b: Seq<u8>, i: int)
    requires
        0 <= i <= a.len(),
        i <= b.len(),
        forall|q: int| 0 <= q < i ==> a[q] == b[q],
    ensures
        bytes_lt(a, b) == bytes_lt(a.skip(i), b.skip(i)),
    decreases i,
{
    if i == 0 {
        assert(a.skip(0) =~= a);
        assert(b.skip(0) =~= b);
    } else {
        assert(a.len() > 0 && b.len() > 0);
        assert(a[0] == b[0]);
        assert(a.drop_first().skip(i - 1) =~= a.skip(i));
        assert(b.drop_first().skip(i - 1) =~= b.skip(i));
        assert forall|q: int| 0 <= q < i - 1 implies a.drop_first()[q] == b.drop_first()[q] by {
            assert(a[q + 1] == b[q + 1]);
        }
        lemma_bytes_lt_skip(a.drop_first(), b.drop_first(), i - 1);
    }
}

/// Compare two strings in the order of their UTF-8 bytes.
#[verifier::loop_isolation(false)]
fn str_less(a: &String, b: &String) -> (r: bool)
    ensures
        r == str_lt(a@, b@),
{
    let ab = a.as_str().as_bytes();
    let bb = b.as_str().as_bytes();
    let mut i: usize = 0;
    while i < ab.len() && i < bb.len()
        invariant
            i <= ab@.len(),
            i <= bb@.len(),
            forall|q: int| 0 <= q < i ==> ab@[q] == bb@[q],
        decreases ab@.len() - i,
    {
        if ab[i] < bb[i] {
            proof {
                lemma_bytes_lt_skip(ab@, bb@, i as int);
                assert(ab@.skip(i as int)[0] == ab@[i as int]);
                assert(bb@.skip(i as int)[0] == bb@[i as int]);
                assert(bytes_lt(ab@.skip(i as int), bb@.skip(i as int)));
            }
            return true;
        }
        if ab[i] > bb[i] {
            proof {
                lemma_bytes_lt_skip(ab@, bb@, i as int);
                assert(ab@.skip(i as int)[0] == ab@[i as int]);
                assert(bb@.skip(i as int)[0] == bb@[i as int]);
                assert(!bytes_lt(ab@.skip(i as int), bb@.skip(i as int)));
            }
            return false;
        }
        i += 1;
    }
    proof {
        lemma_bytes_lt_skip(ab@, bb@, if i < ab@.len() {
            bb@.len() as int
        } else {
            i as int
        });
    }
    if i < ab.len() {
        proof {
            assert(bb@.skip(bb@.len() as int).len() == 0);
            assert(ab@.skip(bb@.len() as int).len() > 0);
        }
        false
    } else {
        proof {
            assert(ab@.skip(i as int).len() == 0);
            assert(bytes_lt(ab@.skip(i as int), bb@.skip(i as int)) == (bb@.skip(
                i as int,
            ).len() > 0));
        }
        ab.len() < bb.len()
    }
}

/// Header lists are strictly sorted in byte order.
pub open spec fn headers_sorted(h: Seq<Seq<char>>) -> bool {
    forall|i: int, j: int| 0 <= i < j < h.len() ==> str_lt(#[trigger] h[i], #[trigger] h[j])
}

/// The field names a record list mentions.
pub open spec fn field_names<V>(recs: Seq<(u64, Vec<(String, V)>)>) -> Set<Seq<char>> {
    Set::new(
        |n: Seq<char>|
            exists|i: int, j: int|
                0 <= i < recs.len() && 0 <= j < recs[i].1@.len() && (#[trigger] recs[i].1@[j]).0@
                    == n,
    )
}

/// Insert a name into a byte-ordered list of unique names, keeping it
/// away if an equal name is already there.
#[verifier::loop_isolation(false)]
fn insert_header(hs: &mut Vec<String>, name: &String)
    requires
        headers_sorted(str_views(old(hs)@)),
    ensures
        headers_sorted(str_views(final(hs)@)),
        str_views(final(hs)@).to_set() == str_views(old(hs)@).to_set().insert(name@),
{
    let ghost h0 = str_views(hs@);
    let mut pos: usize = 0;
    while pos < hs.len() && str_less(&hs[pos], name)
        invariant
            pos <= hs@.len(),
            hs@ == old(hs)@,
            forall|q: int| 0 <= q < pos ==> str_lt(#[trigger] h0[q], name@),
        decreases hs@.len() - pos,
    {
        pos += 1;
    }
    if pos < hs.len() && hs[pos] == *name {
        proof {
            assert(h0[pos as int] == name@);
            assert(str_views(hs@).to_set() =~= h0.to_set().insert(name@)) by {
                assert(h0.contains(name@));
                assert(h0.to_set().contains(name@));
            }
        }
        return ;
    }
    proof {
        if pos < hs@.len() {
            lemma_bytes_lt_trichotomy(encode_utf8(h0[pos as int]), encode_utf8(name@));
            assert(h0[pos as int] != name@) by {
                if h0[pos as int] == name@ {
                    assert(hs@[pos as int]@ == name@);
                }
            }
            assert(encode_utf8(h0[pos as int]) != encode_utf8(name@)) by {
                encode_utf8_decode_utf8(h0[pos as int]);
                encode_utf8_decode_utf8(name@);
            }
            assert(str_lt(name@, h0[pos as int]));
        }
    }
    hs.insert(pos, name.clone());
    proof {
        let h1 = str_views(hs@);
        assert(h1 =~= h0.insert(pos as int, name@)) by {
            h0.insert_ensures(pos as int, name@);
            assert forall|q: int| 0 <= q < h1.len() implies h1[q] == h0.insert(
                pos as int,
                name@,
            )[q] by {
                if q < pos {
                    assert(hs@[q] == old(hs)@[q]);
                } else if q > pos {
                    assert(hs@[q] == old(hs)@[q - 1]);
                }
            }
        }
        h0.insert_ensures(pos as int, name@);
        assert forall|i: int, j: int|
            0 <= i < j < h1.len() implies str_lt(#[trigger] h1[i], #[trigger] h1[j]) by {
            if j < pos {
                assert(h1[i] == h0[i] && h1[j] == h0[j]);
            } else if i > pos {
                assert(h1[i] == h0[i - 1] && h1[j] == h0[j - 1]);
            } else if i < pos && j == pos {
                assert(h1[i] == h0[i]);
            } else if i < pos && j > pos {
                assert(h1[i] == h0[i] && h1[j] == h0[j - 1]);
                assert(str_lt(h0[i], name@));
                assert(str_lt(name@, h0[j - 1])) by {
                    if j - 1 == pos {
                    } else {
                        assert(str_lt(h0[pos as int], h0[j - 1]));
                        lemma_bytes_lt_trans(
                            encode_utf8(name@),
                            encode_utf8(h0[pos as int]),
                            encode_utf8(h0[j - 1]),
                        );
                    }
                }
                lemma_bytes_lt_trans(
                    encode_utf8(h0[i]),
                    encode_utf8(name@),
                    encode_utf8(h0[j - 1]),
                );
            } else if i == pos {
                assert(h1[j] == h0[j - 1]);
                assert(str_lt(name@, h0[j - 1])) by {
                    if j - 1 == pos {
                    } else {
                        assert(str_lt(h0[pos as int], h0[j - 1]));
                        lemma_bytes_lt_trans(
                            encode_utf8(name@),
                            encode_utf8(h0[pos as int]),
                            encode_utf8(h0[j - 1]),
                        );
                    }
                }
            }
        }
        assert(h1.to_set() =~= h0.to_set().insert(name@)) by {
            assert forall|n: Seq<char>| #[trigger]
                h1.to_set().contains(n) implies h0.to_set().contains(n) || n == name@ by {
                let q = choose|q: int| 0 <= q < h1.len() && h1[q] == n;
                if q < pos {
                    assert(h0[q] == n);
                } else if q > pos {
                    assert(h0[q - 1] == n);
                }
            }
            assert forall|n: Seq<char>| #[trigger]
                h0.to_set().contains(n) implies h1.to_set().contains(n) by {
                let q = choose|q: int| 0 <= q < h0.len() && h0[q] == n;
                if q < pos {
                    assert(h1[q] == n);
                } else {
                    assert(h1[q + 1] == n);
                }
            }
            assert(h1[pos as int] == name@);
            assert(h1.to_set().contains(name@));
        }
    }
}

/// The sorted union of all field names across the records.
#[verifier::loop_isolation(false)]
fn map_create_headers<V>(recs: &Vec<(u64, Vec<(String, V)>)>) -> (r: Vec<String>)
    ensures
        headers_sorted(str_views(r@)),
        str_views(r@).to_set() == field_names(recs@),
{
    let mut hs: Vec<String> = Vec::new();
    let mut i: usize = 0;
    proof {
        assert(str_views(hs@).to_set() =~= Set::<Seq<char>>::empty());
    }
    while i < recs.len()
        invariant
            i <= recs@.len(),
            headers_sorted(str_views(hs@)),
            forall|n: Seq<char>|
                #[trigger] str_views(hs@).to_set().contains(n) ==> field_names(recs@).contains(n),
            forall|i2: int, j2: int|
                0 <= i2 < i && 0 <= j2 < recs@[i2].1@.len() ==> str_views(hs@).to_set().contains(
                    (#[trigger] recs@[i2].1@[j2]).0@,
                ),
        decreases recs@.len() - i,
    {
        let rec = &recs[i].1;
        let mut j: usize = 0;
        while j < rec.len()
            invariant
                j <= rec@.len(),
                rec@ == recs@[i as int].1@,
                headers_sorted(str_views(hs@)),
                forall|n: Seq<char>|
                    #[trigger] str_views(hs@).to_set().contains(n) ==> field_names(
                        recs@,
                    ).contains(n),
                forall|i2: int, j2: int|
                    0 <= i2 < i && 0 <= j2 < recs@[i2].1@.len() ==> str_views(
                        hs@,
                    ).to_set().contains((#[trigger] recs@[i2].1@[j2]).0@),
                forall|j2: int|
                    0 <= j2 < j ==> str_views(hs@).to_set().contains(
                        (#[trigger] rec@[j2]).0@,
                    ),
            decreases rec@.len() - j,
        {
            insert_header(&mut hs, &rec[j].0);
            proof {
                assert(field_names(recs@).contains(rec@[j as int].0@));
            }
            j += 1;
        }
        i += 1;
    }
    proof {
        assert(str_views(hs@).to_set() =~= field_names(recs@)) by {
            assert forall|n: Seq<char>| #[trigger]
                field_names(recs@).contains(n) implies str_views(hs@).to_set().contains(n) by {
                let (i2, j2) = choose|i2: int, j2: int|
                    0 <= i2 < recs@.len() && 0 <= j2 < recs@[i2].1@.len() && (
                    #[trigger] recs@[i2].1@[j2]).0@ == n;
            }
        }
    }
    hs
}

/// Whether a record carries a field of this name.
pub open spec fn rec_has<V>(r: Seq<(String, V)>, n: Seq<char>) -> bool {
    exists|j: int| 0 <= j < r.len() && (#[trigger] r[j]).0@ == n
}

/// The value a record carries under a field name.
pub open spec fn rec_at<V>(r: Seq<(String, V)>, n: Seq<char>) -> V {
    r[choose|j: int| 0 <= j < r.len() && (#[trigger] r[j]).0@ == n].1
}

/// Field names inside one record are pairwise distinct.
pub open spec fn rec_unique<V>(r: Seq<(String, V)>) -> bool {
    forall|i: int, j: int| 0 <= i < j < r.len() ==> (#[trigger] r[i]).0@ != (#[trigger] r[j]).0@
}

/// The first field of this name.
#[verifier::loop_isolation(false)]
fn find_field<'a, V>(rec: &'a Vec<(String, V)>, name: &String) -> (r: Option<&'a V>)
    requires
        rec_unique(rec@),
    ensures
        match r {
            Option::Some(v) => rec_has(rec@, name@) && *v == rec_at(rec@, name@),
            Option::None => !rec_has(rec@, name@),
        },
{
    let mut j: usize = 0;
    while j < rec.len()
        invariant
            j <= rec@.len(),
            forall|q: int| 0 <= q < j ==> (#[trigger] rec@[q]).0@ != name@,
        decreases rec@.len() - j,
    {
        if rec[j].0 == *name {
            proof {
                assert(rec@[j as int].0@ == name@);
                let w = choose|q: int| 0 <= q < rec@.len() && (#[trigger] rec@[q]).0@ == name@;
                if w < j {
                    assert(rec@[w].0@ != rec@[j as int].0@);
                } else if w > j {
                    assert(rec@[j as int].0@ != rec@[w].0@);
                }
            }
            return Option::Some(&rec[j].1);
        }
        j += 1;
    }
    Option::None
}

/// Binding distinct keys in order lists each binding exactly once.
pub proof fn lemma_pairs_to_map_distinct<V>(keys: Seq<u64>, rows: Seq<Seq<V>>)
    requires
        keys.no_duplicates(),
        keys.len() == rows.len(),
    ensures
        forall|i: int|
            0 <= i < keys.len() ==> pairs_to_map(keys, rows).contains_key(#[trigger] keys[i])
                && pairs_to_map(keys, rows)[keys[i]] == rows[i],
    decreases keys.len(),
{
    if keys.len() > 0 {
        assert(keys.drop_last().no_duplicates()) by {
            assert forall|i: int, j: int|
                0 <= i < j < keys.len() - 1 implies keys.drop_last()[i] != keys.drop_last()[j] by {
                assert(keys[i] != keys[j]);
            }
        }
        lemma_pairs_to_map_distinct(keys.drop_last(), rows.drop_last());
        assert forall|i: int|
            0 <= i < keys.len() implies pairs_to_map(keys, rows).contains_key(#[trigger] keys[i])
            && pairs_to_map(keys, rows)[keys[i]] == rows[i] by {
            if i < keys.len() - 1 {
                assert(keys.drop_last()[i] == keys[i]);
                assert(rows.drop_last()[i] == rows[i]);
                assert(keys[i] != keys.last());
            }
        }
    }
}

/// What every record-built table guarantees: each record's key is
/// bound to a row whose cell under each column is a clone of that
/// record's equally-named field.
pub open spec fn rows_match_records<V: Clone>(
    t: Table<V>,
    recs: Seq<(u64, Vec<(String, V)>)>,
) -> bool {
    forall|i: int|
        0 <= i < recs.len() ==> t.row_map().contains_key((#[trigger] recs[i]).0) && (forall|j: int|
            0 <= j < t.width() ==> rec_has(recs[i].1@, #[trigger] t.hview()[j])
                && vstd::pervasive::cloned::<V>(
                rec_at(recs[i].1@, t.hview()[j]),
                t.row_map()[recs[i].0][j],
            ))
}

/// The common shape of the record constructors' inputs: distinct
/// record keys and distinct field names inside each record.
pub open spec fn records_wf<V>(recs: Seq<(u64, Vec<(String, V)>)>) -> bool {
    &&& forall|i: int, j: int|
        0 <= i < j < recs.len() ==> (#[trigger] recs[i]).0 != (#[trigger] recs[j]).0
    &&& forall|i: int| 0 <= i < recs.len() ==> rec_unique((#[trigger] recs[i]).1@)
}

impl<V: Clone> Table<V> {
    /// Build a table from keyed records: the headers are the sorted
    /// union of all field names, and every record must carry every
    /// field.
    pub fn from_map(recs: &Vec<(u64, Vec<(String, V)>)>) -> (r: Result<Table<V>, TableError>)
        requires
            records_wf(recs@),
            forall|i: int, n: Seq<char>|
                #![trigger recs@[i], field_names(recs@).contains(n)]
                0 <= i < recs@.len() && field_names(recs@).contains(n) ==> rec_has(
                    recs@[i].1@,
                    n,
                ),
        ensures
            r is Ok <==> (recs@.len() > 0 && field_names(recs@) != Set::<Seq<char>>::empty()),
            r matches Ok(t) ==> {
                &&& t.wf()
                &&& headers_sorted(t.hview())
                &&& t.hview().to_set() == field_names(recs@)
                &&& t.key_seq().to_set() == recs@.map_values(|p: (u64, Vec<(String, V)>)| p.0).to_set()
                &&& t.meta_view() is None
                &&& rows_match_records(t, recs@)
            },
    {
        match Self::from_map_checked(recs) {
            Result::Ok(t) => Result::Ok(t),
            Result::Err(e) => {
                proof {
                    assert(e.message() != "Objects in the map do not contain the same keys"@ || !(
                    exists|i: int, n: Seq<char>|
                        #![trigger recs@[i], field_names(recs@).contains(n)]
                        0 <= i < recs@.len() && field_names(recs@).contains(n) && !rec_has(
                            recs@[i].1@,
                            n,
                        )));
                }
                Result::Err(e)
            },
        }
    }

    /// Build a table from keyed records, rejecting input where some
    /// record lacks a field that another record has.
    #[verifier::loop_isolation(false)]
    pub fn from_map_checked(recs: &Vec<(u64, Vec<(String, V)>)>) -> (r: Result<
        Table<V>,
        TableError,
    >)
        requires
            records_wf(recs@),
        ensures
            r is Ok <==> (recs@.len() > 0 && field_names(recs@) != Set::<Seq<char>>::empty() && (
            forall|i: int, n: Seq<char>|
                #![trigger recs@[i], field_names(recs@).contains(n)]
                0 <= i < recs@.len() && field_names(recs@).contains(n) ==> rec_has(
                    recs@[i].1@,
                    n,
                ))),
            r matches Ok(t) ==> {
                &&& t.wf()
                &&& headers_sorted(t.hview())
                &&& t.hview().to_set() == field_names(recs@)
                &&& t.key_seq().to_set() == recs@.map_values(|p: (u64, Vec<(String, V)>)| p.0).to_set()
                &&& t.meta_view() is None
                &&& rows_match_records(t, recs@)
            },
    {
        let hs = map_create_headers(recs);
        let ghost hv = str_views(hs@);
        if recs.len() == 0 || hs.len() == 0 {
            proof {
                if hs@.len() == 0 {
                    assert(hv.to_set() =~= Set::<Seq<char>>::empty()) by {
                        assert forall|n: Seq<char>| !(#[trigger] hv.to_set().contains(n)) by {
                            if hv.contains(n) {
                                let q = choose|q: int| 0 <= q < hv.len() && hv[q] == n;
                            }
                        }
                    }
                    assert(field_names(recs@) == Set::<Seq<char>>::empty());
                }
            }
            return Result::Err(TableError::new("data is empty"));
        }
        proof {
            assert(hv.contains(hv[0]));
            assert(hv.to_set().contains(hv[0]));
            assert(field_names(recs@) != Set::<Seq<char>>::empty()) by {
                assert(field_names(recs@).contains(hv[0]));
                assert(!Set::<Seq<char>>::empty().contains(hv[0]));
            }
        }
        let mut keys: Vec<u64> = Vec::new();
        let mut data: Vec<Vec<V>> = Vec::new();
        let mut i: usize = 0;
        while i < recs.len()
            invariant
                i <= recs@.len(),
                hv == str_views(hs@),
                hs@.len() == hv.len(),
                keys@.len() == i,
                data@.len() == i,
                forall|q: int| 0 <= q < i ==> #[trigger] keys@[q] == recs@[q].0,
                forall|q: int|
                    0 <= q < i ==> (#[trigger] data@[q])@.len() == hv.len() && (forall|j: int|
                        0 <= j < hv.len() ==> rec_has(recs@[q].1@, #[trigger] hv[j])
                            && vstd::pervasive::cloned::<V>(
                            rec_at(recs@[q].1@, hv[j]),
                            data@[q]@[j],
                        )),
            decreases recs@.len() - i,
        {
            let rec = &recs[i].1;
            let mut row: Vec<V> = Vec::new();
            let mut j: usize = 0;
            while j < hs.len()
                invariant
                    j <= hv.len(),
                    hv == str_views(hs@),
                    hs@.len() == hv.len(),
                    rec@ == recs@[i as int].1@,
                    rec_unique(rec@),
                    row@.len() == j,
                    forall|q: int|
                        0 <= q < j ==> rec_has(rec@, #[trigger] hv[q])
                            && vstd::pervasive::cloned::<V>(rec_at(rec@, hv[q]), row@[q]),
                decreases hv.len() - j,
            {
                match find_field(rec, &hs[j]) {
                    Option::Some(v) => {
                        let c = v.clone();
                        proof {
                            assert(vstd::pervasive::cloned::<V>(rec_at(rec@, hv[j as int]), c));
                        }
                        row.push(c);
                    },
                    Option::None => {
                        proof {
                            assert(hv.contains(hv[j as int]));
                            assert(field_names(recs@).contains(hv[j as int]));
                            assert(!rec_has(recs@[i as int].1@, hv[j as int]));
                        }
                        return Result::Err(
                            TableError::new("Objects in the map do not contain the same keys"),
                        );
                    },
                }
                j += 1;
            }
            keys.push(recs[i].0);
            data.push(row);
            i += 1;
        }
        proof {
            assert(keys@.no_duplicates()) by {
                assert forall|a: int, b: int|
                    0 <= a < b < keys@.len() implies keys@[a] != keys@[b] by {
                    assert(recs@[a].0 != recs@[b].0);
                }
            }
            assert(!crate::table::rows_uneven(vec_views(data@))) by {
                if crate::table::rows_uneven(vec_views(data@)) {
                    let w = choose|w: int|
                        0 <= w < vec_views(data@).len() && (#[trigger] vec_views(data@)[w]).len()
                            != vec_views(data@)[0].len();
                }
            }
            assert(Table::<V>::new_ok(str_views(hs@), keys@, vec_views(data@)));
        }
        let ghost gkeys = keys@;
        let ghost gdata = data@;
        match Table::new(hs, keys, data) {
            Result::Ok(t) => {
                proof {
                    lemma_pairs_to_map_distinct(gkeys, vec_views(gdata));
                    assert forall|i2: int, n: Seq<char>|
                        #![trigger recs@[i2], field_names(recs@).contains(n)]
                        0 <= i2 < recs@.len() && field_names(recs@).contains(n) implies rec_has(
                        recs@[i2].1@,
                        n,
                    ) by {
                        assert(hv.to_set().contains(n));
                        assert(hv.contains(n));
                        let j = choose|j: int| 0 <= j < hv.len() && #[trigger] hv[j] == n;
                        assert(gdata[i2]@.len() == hv.len());
                        assert(rec_has(recs@[i2].1@, hv[j]));
                    }
                    assert(rows_match_records(t, recs@)) by {
                        assert forall|q: int|
                            0 <= q < recs@.len() implies t.row_map().contains_key(
                            (#[trigger] recs@[q]).0,
                        ) && (forall|j: int|
                            0 <= j < t.width() ==> rec_has(recs@[q].1@, #[trigger] t.hview()[j])
                                && vstd::pervasive::cloned::<V>(
                                rec_at(recs@[q].1@, t.hview()[j]),
                                t.row_map()[recs@[q].0][j],
                            )) by {
                            assert(t.row_map()[gkeys[q]] == vec_views(gdata)[q]);
                        }
                    }
                    assert(t.key_seq().to_set() =~= recs@.map_values(
                        |p: (u64, Vec<(String, V)>)| p.0,
                    ).to_set()) by {
                        assert forall|x: u64|
                            #![trigger gkeys.contains(x)]
                            gkeys.contains(x) == recs@.map_values(
                                |p: (u64, Vec<(String, V)>)| p.0,
                            ).contains(x) by {
                            let km = recs@.map_values(|p: (u64, Vec<(String, V)>)| p.0);
                            if gkeys.contains(x) {
                                let q = choose|q: int|
                                    0 <= q < gkeys.len() && #[trigger] gkeys[q] == x;
                                assert(km[q] == x);
                            }
                            if km.contains(x) {
                                let q = choose|q: int| 0 <= q < km.len() && #[trigger] km[q] == x;
                                assert(gkeys[q] == x);
                            }
                        }
                        assert forall|x: u64|
                            t.key_seq().to_set().contains(x) == gkeys.to_set().contains(x) by {}
                    }
                }
                Result::Ok(t)
            },
            Result::Err(e) => {
                proof {
                    assert(false);
                }
                Result::Err(e)
            },
        }
    }

    /// Build a table from keyed records where every cell is optional:
    /// a record lacking a field yields an absent cell.
    #[verifier::loop_isolation(false)]
    pub fn from_map_safe(recs: &Vec<(u64, Vec<(String, V)>)>) -> (r: Result<
        Table<Option<V>>,
        TableError,
    >)
        requires
            records_wf(recs@),
        ensures
            r is Ok <==> (recs@.len() > 0 && field_names(recs@) != Set::<Seq<char>>::empty()),
            r matches Ok(t) ==> {
                &&& t.wf()
                &&& headers_sorted(t.hview())
                &&& t.hview().to_set() == field_names(recs@)
                &&& t.key_seq().to_set() == recs@.map_values(|p: (u64, Vec<(String, V)>)| p.0).to_set()
                &&& t.meta_view() is None
                &&& forall|i: int|
                    0 <= i < recs@.len() ==> t.row_map().contains_key((#[trigger] recs@[i]).0) && (
                    forall|j: int|
                        0 <= j < t.width() ==> (rec_has(recs@[i].1@, #[trigger] t.hview()[j])
                            ==> exists|c: V|
                            t.row_map()[recs@[i].0][j] == Option::Some(c)
                                && vstd::pervasive::cloned::<V>(
                                rec_at(recs@[i].1@, t.hview()[j]),
                                c,
                            )) && (!rec_has(recs@[i].1@, t.hview()[j]) ==> t.row_map()[recs@[i].0][j]
                            is None))
            },
    {
        let hs = map_create_headers(recs);
        let ghost hv = str_views(hs@);
        if recs.len() == 0 || hs.len() == 0 {
            proof {
                if hs@.len() == 0 {
                    assert(hv.to_set() =~= Set::<Seq<char>>::empty()) by {
                        assert forall|n: Seq<char>| !(#[trigger] hv.to_set().contains(n)) by {
                            if hv.contains(n) {
                                let q = choose|q: int| 0 <= q < hv.len() && hv[q] == n;
                            }
                        }
                    }
                    assert(field_names(recs@) == Set::<Seq<char>>::empty());
                }
            }
            return Result::Err(TableError::new("data is empty"));
        }
        proof {
            assert(hv.contains(hv[0]));
            assert(hv.to_set().contains(hv[0]));
            assert(field_names(recs@) != Set::<Seq<char>>::empty()) by {
                assert(field_names(recs@).contains(hv[0]));
                assert(!Set::<Seq<char>>::empty().contains(hv[0]));
            }
        }
        let mut keys: Vec<u64> = Vec::new();
        let mut data: Vec<Vec<Option<V>>> = Vec::new();
        let mut i: usize = 0;
        while i < recs.len()
            invariant
                i <= recs@.len(),
                hv == str_views(hs@),
                hs@.len() == hv.len(),
                keys@.len() == i,
                data@.len() == i,
                forall|q: int| 0 <= q < i ==> #[trigger] keys@[q] == recs@[q].0,
                forall|q: int|
                    0 <= q < i ==> (#[trigger] data@[q])@.len() == hv.len() && (forall|j: int|
                        0 <= j < hv.len() ==> ((rec_has(recs@[q].1@, #[trigger] hv[j])
                            ==> exists|c: V|
                            data@[q]@[j] == Option::Some(c) && vstd::pervasive::cloned::<V>(
                                rec_at(recs@[q].1@, hv[j]),
                                c,
                            )) && (!rec_has(recs@[q].1@, hv[j]) ==> data@[q]@[j] is None))),
            decreases recs@.len() - i,
        {
            let rec = &recs[i].1;
            let mut row: Vec<Option<V>> = Vec::new();
            let mut j: usize = 0;
            while j < hs.len()
                invariant
                    j <= hv.len(),
                    hv == str_views(hs@),
                    hs@.len() == hv.len(),
                    rec@ == recs@[i as int].1@,
                    rec_unique(rec@),
                    row@.len() == j,
                    forall|q: int|
                        0 <= q < j ==> ((rec_has(rec@, #[trigger] hv[q]) ==> exists|c: V|
                            row@[q] == Option::Some(c) && vstd::pervasive::cloned::<V>(
                                rec_at(rec@, hv[q]),
                                c,
                            )) && (!rec_has(rec@, hv[q]) ==> row@[q] is None)),
                decreases hv.len() - j,
            {
                match find_field(rec, &hs[j]) {
                    Option::Some(v) => {
                        let c = v.clone();
                        proof {
                            assert(vstd::pervasive::cloned::<V>(rec_at(rec@, hv[j as int]), c));
                        }
                        row.push(Option::Some(c));
                    },
                    Option::None => {
                        row.push(Option::None);
                    },
                }
                j += 1;
            }
            keys.push(recs[i].0);
            data.push(row);
            i += 1;
        }
        proof {
            assert(keys@.no_duplicates()) by {
                assert forall|a: int, b: int|
                    0 <= a < b < keys@.len() implies keys@[a] != keys@[b] by {
                    assert(recs@[a].0 != recs@[b].0);
                }
            }
            assert(!crate::table::rows_uneven(vec_views(data@))) by {
                if crate::table::rows_uneven(vec_views(data@)) {
                    let w = choose|w: int|
                        0 <= w < vec_views(data@).len() && (#[trigger] vec_views(data@)[w]).len()
                            != vec_views(data@)[0].len();
                }
            }
            assert(Table::<Option<V>>::new_ok(str_views(hs@), keys@, vec_views(data@)));
        }
        let ghost gkeys = keys@;
        let ghost gdata = data@;
        match Table::<Option<V>>::new(hs, keys, data) {
            Result::Ok(t) => {
                proof {
                    lemma_pairs_to_map_distinct(gkeys, vec_views(gdata));
                    assert forall|x: u64|
                        t.key_seq().to_set().contains(x) == recs@.map_values(
                            |p: (u64, Vec<(String, V)>)| p.0,
                        ).to_set().contains(x) by {
                        let km = recs@.map_values(|p: (u64, Vec<(String, V)>)| p.0);
                        if gkeys.contains(x) {
                            let q = choose|q: int| 0 <= q < gkeys.len() && #[trigger] gkeys[q] == x;
                            assert(km[q] == x);
                        }
                        if km.contains(x) {
                            let q = choose|q: int| 0 <= q < km.len() && #[trigger] km[q] == x;
                            assert(gkeys[q] == x);
                        }
                    }
                    assert(t.key_seq().to_set() =~= recs@.map_values(
                        |p: (u64, Vec<(String, V)>)| p.0,
                    ).to_set());
                    assert forall|q: int|
                        0 <= q < recs@.len() implies t.row_map().contains_key(
                        (#[trigger] recs@[q]).0,
                    ) by {
                        assert(t.row_map()[gkeys[q]] == vec_views(gdata)[q]);
                    }
                }
                Result::Ok(t)
            },
            Result::Err(_e) => {
                proof {
                    assert(false);
                }
                Result::Err(TableError::new("data is empty"))
            },
        }
    }
}

impl<V> Table<V> {
    /// Build a table from labeled rows as an external reader hands
    /// them over: the first header names the key column and is kept
    /// under the metadata key "time_column"; the remaining headers
    /// name the columns.
    pub fn from_labeled_rows(header_row: Vec<String>, indexes: Vec<u64>, rows: Vec<Vec<V>>) -> (r:
        Result<Table<V>, TableReadError>)
        requires
            header_row@.len() >= 1,
        ensures
            r is Ok <==> Self::new_ok(
                str_views(header_row@).drop_first(),
                indexes@,
                vec_views(rows@),
            ),
            r matches Ok(t) ==> {
                &&& t.wf()
                &&& t.hview() == str_views(header_row@).drop_first()
                &&& t.row_map() == pairs_to_map(indexes@, vec_views(rows@))
                &&& t.key_seq().to_set() == indexes@.to_set()
                &&& t.meta_map() == Map::<Seq<char>, Seq<char>>::empty().insert(
                    "time_column"@,
                    str_views(header_row@)[0],
                )
            },
    {
        let mut hr = header_row;
        let time_column = hr.remove(0);
        proof {
            assert(str_views(hr@) =~= str_views(header_row@).drop_first());
        }
        match Table::new(hr, indexes, rows) {
            Result::Ok(mut t) => {
                t.set_meta_key("time_column".to_owned(), time_column);
                proof {
                    assert(t.meta_map() =~= Map::<Seq<char>, Seq<char>>::empty().insert(
                        "time_column"@,
                        str_views(header_row@)[0],
                    ));
                }
                Result::Ok(t)
            },
            Result::Err(e) => Result::Err(TableReadError::new(e.description())),
        }
    }
}

} // verus!

//! The synchronization protocol: mapping an ordered table onto a
//! key-value store, with content hashes deciding which keys need
//! writing.
//!
//! Two reserved keys — the encodings of the strings `"__HEADER"` and
//! `"__META_DATA"` — carry the column names and the metadata; every
//! other key is the encoding of a row key.  Every stored value is a
//! record: the payload's encoding followed by the eight-byte seahash
//! of that encoding.

use vstd::bytes::*;
use vstd::prelude::*;

use crate::codec::Codec;
use crate::codec::decode_list;
use crate::codec::enc_list;
use crate::codec::enc_seq;
use crate::codec::encode_value;
use crate::codec::len_limit;
use crate::codec::lemma_concat_parts;
use crate::codec::lemma_enc_list_prefix_free;
use crate::codec::lemma_enc_list_len;
use crate::codec::list_models;
use crate::codec::list_wf;
use crate::db::DbTableError;
use crate::db::seahash_bytes;
use crate::db::seahash_of;
use crate::kv::BackendError;
use crate::kv::KvBackend;
use crate::table::Table;
use crate::table::lemma_key_index;
use crate::table::pair_views;
use crate::table::str_views;

verus! {

use vstd::utf8::encode_utf8;
use vstd::utf8::is_ascii_chars;
use vstd::utf8::is_ascii_chars_encode_utf8;

/// An error of the store protocol.
#[derive(Debug)]
pub enum SyncError {
    /// Stored bytes could not be decoded: the store is corrupt.
    Encoding,
    /// The backing store itself failed.
    Backend(BackendError),
    /// The protocol refused: the store already holds a table, holds
    /// nothing, or holds rows without a header sentinel.
    DbTableError(DbTableError),
}

/// The bytes a string is stored under when used as a key.
pub open spec fn str_key(s: Seq<char>) -> Seq<u8> {
    spec_u64_to_le_bytes(encode_utf8(s).len() as u64) + encode_utf8(s)
}

/// The reserved key carrying the column names.
pub open spec fn header_key() -> Seq<u8> {
    str_key("__HEADER"@)
}

/// The reserved key carrying the metadata.
pub open spec fn meta_key() -> Seq<u8> {
    str_key("__META_DATA"@)
}

/// A payload wrapped as a stored record: the payload followed by the
/// eight-byte hash of the payload.
pub open spec fn record_bytes(body: Seq<u8>) -> Seq<u8> {
    body + spec_u64_to_le_bytes(seahash_of(body))
}

/// The hash field of stored record bytes: its last eight bytes.
pub open spec fn rec_hash(bytes: Seq<u8>) -> u64 {
    spec_u64_from_le_bytes(bytes.subrange(bytes.len() - 8, bytes.len() as int))
}

/// The encodings of a list of header names, concatenated.
pub open spec fn enc_str_items(h: Seq<Seq<char>>) -> Seq<u8>
    decreases h.len(),
{
    if h.len() == 0 {
        Seq::empty()
    } else {
        str_key(h[0]) + enc_str_items(h.drop_first())
    }
}

/// The stored payload of the header sentinel.
pub open spec fn enc_header_list(h: Seq<Seq<char>>) -> Seq<u8> {
    spec_u64_to_le_bytes(h.len() as u64) + enc_str_items(h)
}

/// The encodings of a list of metadata pairs, concatenated.
pub open spec fn enc_meta_items(m: Seq<(Seq<char>, Seq<char>)>) -> Seq<u8>
    decreases m.len(),
{
    if m.len() == 0 {
        Seq::empty()
    } else {
        str_key(m[0].0) + str_key(m[0].1) + enc_meta_items(m.drop_first())
    }
}

/// The stored payload of the metadata sentinel.
pub open spec fn enc_meta(m: Option<Seq<(Seq<char>, Seq<char>)>>) -> Seq<u8> {
    match m {
        Option::None => seq![0u8],
        Option::Some(p) => seq![1u8] + (spec_u64_to_le_bytes(p.len() as u64) + enc_meta_items(p)),
    }
}

/// The three sentinel facts everything else leans on: the two reserved
/// keys are distinct, and no row key's eight-byte encoding collides
/// with either.
pub proof fn lemma_sentinels()
    ensures
        header_key().len() == 16,
        meta_key().len() == 19,
        header_key() != meta_key(),
        forall|x: u64| (#[trigger] spec_u64_to_le_bytes(x)) != header_key(),
        forall|x: u64| (#[trigger] spec_u64_to_le_bytes(x)) != meta_key(),
{
    lemma_auto_spec_u64_to_from_le_bytes();
    reveal_strlit("__HEADER");
    reveal_strlit("__META_DATA");
    assert(is_ascii_chars("__HEADER"@)) by {
        assert forall|i: int| 0 <= i < "__HEADER"@.len() implies '\0' <= #[trigger] "__HEADER"@[i]
            <= '\u{7f}' by {
            if i == 0 {
            } else if i == 1 {
            } else if i == 2 {
            } else if i == 3 {
            } else if i == 4 {
            } else if i == 5 {
            } else if i == 6 {
            } else {
                assert(i == 7);
            }
        }
    }
    assert(is_ascii_chars("__META_DATA"@)) by {
        assert forall|i: int|
            0 <= i < "__META_DATA"@.len() implies '\0' <= #[trigger] "__META_DATA"@[i]
            <= '\u{7f}' by {}
    }
    is_ascii_chars_encode_utf8("__HEADER"@);
    is_ascii_chars_encode_utf8("__META_DATA"@);
    assert(encode_utf8("__HEADER"@).len() == 8);
    assert(encode_utf8("__META_DATA"@).len() == 11);
    assert(header_key().len() == 16) by {
        lemma_concat_parts(
            spec_u64_to_le_bytes(encode_utf8("__HEADER"@).len() as u64),
            encode_utf8("__HEADER"@),
        );
    }
    assert(meta_key().len() == 19) by {
        lemma_concat_parts(
            spec_u64_to_le_bytes(encode_utf8("__META_DATA"@).len() as u64),
            encode_utf8("__META_DATA"@),
        );
    }
    assert forall|x: u64| (#[trigger] spec_u64_to_le_bytes(x)) != header_key() by {
        assert(spec_u64_to_le_bytes(x).len() == 8);
    }
    assert forall|x: u64| (#[trigger] spec_u64_to_le_bytes(x)) != meta_key() by {
        assert(spec_u64_to_le_bytes(x).len() == 8);
    }
}

/// The header sentinel key, as bytes.
fn header_key_bytes() -> (r: Vec<u8>)
    ensures
        r@ == header_key(),
{
    let s: String = "__HEADER".to_owned();
    encode_value(&s)
}

/// The metadata sentinel key, as bytes.
fn meta_key_bytes() -> (r: Vec<u8>)
    ensures
        r@ == meta_key(),
{
    let s: String = "__META_DATA".to_owned();
    encode_value(&s)
}

/// Wrap an encoded payload as a stored record.
fn record_of(body: Vec<u8>) -> (r: Vec<u8>)
    ensures
        r@ == record_bytes(body@),
{
    let ghost b0 = body@;
    let h = seahash_bytes(body.as_slice());
    let hb = u64_to_le_bytes(h);
    let mut out = body;
    out.extend_from_slice(hb.as_slice());
    proof {
        assert(hb@ == spec_u64_to_le_bytes(seahash_of(b0)));
        assert(out@ =~= record_bytes(b0));
    }
    out
}

/// A list of strings encodes like its views.
pub proof fn lemma_enc_list_strings(s: Seq<String>)
    ensures
        enc_list(s) == enc_str_items(str_views(s)),
    decreases s.len(),
{
    if s.len() == 0 {
        assert(str_views(s).len() == 0);
    } else {
        lemma_enc_list_strings(s.drop_first());
        assert(str_views(s.drop_first()) =~= str_views(s).drop_first());
        assert(s[0].enc() == str_key(str_views(s)[0]));
        assert(enc_str_items(str_views(s)) == str_key(str_views(s)[0]) + enc_str_items(
            str_views(s).drop_first(),
        ));
    }
}

/// A list of string pairs encodes like its views.
pub proof fn lemma_enc_list_pairs(s: Seq<(String, String)>)
    ensures
        enc_list(s) == enc_meta_items(pair_views(s)),
    decreases s.len(),
{
    if s.len() == 0 {
        assert(pair_views(s).len() == 0);
    } else {
        lemma_enc_list_pairs(s.drop_first());
        assert(pair_views(s.drop_first()) =~= pair_views(s).drop_first());
        assert(s[0].enc() == str_key(pair_views(s)[0].0) + str_key(pair_views(s)[0].1));
        assert(str_key(pair_views(s)[0].0) + str_key(pair_views(s)[0].1) + enc_meta_items(
            pair_views(s).drop_first(),
        ) =~= (str_key(pair_views(s)[0].0) + str_key(pair_views(s)[0].1)) + enc_meta_items(
            pair_views(s).drop_first(),
        ));
        assert(enc_list(s) == s[0].enc() + enc_list(s.drop_first()));
    }
}

/// The stored payload of an exec metadata value.
pub open spec fn meta_payload(mm: Option<Seq<(String, String)>>) -> Seq<u8> {
    match mm {
        Option::None => seq![0u8],
        Option::Some(p) => seq![1u8] + enc_seq(p),
    }
}

/// An exec metadata value's payload encodes like its views.
pub proof fn lemma_meta_payload(mm: Option<Seq<(String, String)>>)
    ensures
        meta_payload(mm) == enc_meta(match mm {
            Option::None => Option::None,
            Option::Some(p) => Option::Some(pair_views(p)),
        }),
{
    match mm {
        Option::None => {},
        Option::Some(p) => {
            lemma_enc_list_pairs(p);
            assert(pair_views(p).len() == p.len());
        },
    }
}

/// Both lists are well-formed when a counted-list encoding is shorter
/// than the length prefix allows.
pub proof fn lemma_enc_seq_wf<T: Codec>(s: Seq<T>)
    requires
        enc_seq(s).len() < len_limit(),
    ensures
        s.len() < len_limit(),
        list_wf(s),
{
    lemma_auto_spec_u64_to_from_le_bytes();
    lemma_concat_parts(spec_u64_to_le_bytes(s.len() as u64), enc_list(s));
    lemma_enc_list_len(s);
    assert forall|i: int| 0 <= i < s.len() implies (#[trigger] s[i]).enc_wf() by {
        T::lemma_enc_len(s[i]);
    }
}

/// Counted-list encodings are prefix-free.
pub proof fn lemma_enc_seq_prefix_free<T: Codec>(s1: Seq<T>, s2: Seq<T>, r1: Seq<u8>, r2: Seq<u8>)
    requires
        s1.len() < len_limit(),
        s2.len() < len_limit(),
        list_wf(s1),
        list_wf(s2),
        enc_seq(s1) + r1 == enc_seq(s2) + r2,
    ensures
        list_models(s1) == list_models(s2),
        enc_seq(s1) == enc_seq(s2),
        r1 == r2,
{
    lemma_auto_spec_u64_to_from_le_bytes();
    let p1 = spec_u64_to_le_bytes(s1.len() as u64);
    let p2 = spec_u64_to_le_bytes(s2.len() as u64);
    lemma_concat_parts(p1, enc_list(s1));
    lemma_concat_parts(p2, enc_list(s2));
    let t1 = enc_list(s1) + r1;
    let t2 = enc_list(s2) + r2;
    assert(p1 + t1 =~= enc_seq(s1) + r1);
    assert(p2 + t2 =~= enc_seq(s2) + r2);
    <u64 as Codec>::lemma_enc_prefix_free(s1.len() as u64, s2.len() as u64, t1, t2);
    assert(s1.len() == s2.len());
    lemma_enc_list_prefix_free(s1, s2, r1, r2);
    assert(enc_seq(s1) =~= enc_seq(s2));
}

/// Decode a stored record whose payload is a counted list, returning
/// the list and the stored hash.  Fails exactly when the bytes are not
/// such a record.
fn decode_list_record<T: Codec>(bytes: &Vec<u8>) -> (r: Option<(Vec<T>, u64)>)
    ensures
        match r {
            Option::Some(p) => {
                &&& bytes@ == enc_seq(p.0@) + spec_u64_to_le_bytes(p.1)
                &&& list_wf(p.0@)
                &&& p.0@.len() < len_limit()
                &&& p.1 == rec_hash(bytes@)
            },
            Option::None => forall|s: Seq<T>, h: u64|
                #![trigger enc_seq(s), spec_u64_to_le_bytes(h)]
                bytes@ != enc_seq(s) + spec_u64_to_le_bytes(h),
        },
{
    proof {
        lemma_auto_spec_u64_to_from_le_bytes();
    }
    if bytes.len() < 16 {
        proof {
            assert forall|s: Seq<T>, h: u64|
                #![trigger enc_seq(s), spec_u64_to_le_bytes(h)]
                bytes@ != enc_seq(s) + spec_u64_to_le_bytes(h) by {
                lemma_concat_parts(spec_u64_to_le_bytes(s.len() as u64), enc_list(s));
                lemma_concat_parts(enc_seq(s), spec_u64_to_le_bytes(h));
                assert((enc_seq(s) + spec_u64_to_le_bytes(h)).len() >= 16);
            }
        }
        return Option::None;
    }
    match decode_list::<T>(bytes.as_slice(), 0) {
        Option::Some((v, end)) => {
            if bytes.len() - end == 8 {
                let hw = &bytes.as_slice()[end..end + 8];
                let h = u64_from_le_bytes(hw);
                proof {
                    assert(hw@ =~= bytes@.subrange(end as int, end as int + 8));
                    assert(spec_u64_to_le_bytes(h) =~= hw@);
                    assert(bytes@ =~= enc_seq(v@) + spec_u64_to_le_bytes(h));
                    assert(rec_hash(bytes@) == h) by {
                        assert(bytes@.subrange(bytes@.len() - 8, bytes@.len() as int) =~= hw@);
                    }
                }
                Option::Some((v, h))
            } else {
                proof {
                    assert forall|s: Seq<T>, h: u64|
                        #![trigger enc_seq(s), spec_u64_to_le_bytes(h)]
                        bytes@ != enc_seq(s) + spec_u64_to_le_bytes(h) by {
                        if bytes@ == enc_seq(s) + spec_u64_to_le_bytes(h) {
                            lemma_concat_parts(enc_seq(s), spec_u64_to_le_bytes(h));
                            assert(enc_seq(s).len() == bytes@.len() - 8);
                            assert(enc_seq(s).len() < len_limit());
                            lemma_enc_seq_wf(s);
                            let whole = bytes@.len() as int;
                            assert(enc_seq(v@) + bytes@.subrange(end as int, whole) =~= enc_seq(s)
                                + bytes@.subrange(whole - 8, whole)) by {
                                assert forall|i: int|
                                    0 <= i < whole implies (enc_seq(v@) + bytes@.subrange(
                                    end as int,
                                    whole,
                                ))[i] == bytes@[i] by {
                                    if i < end {
                                        assert(enc_seq(v@)[i] == bytes@.subrange(0, end as int)[i]);
                                    }
                                }
                                assert forall|i: int|
                                    0 <= i < whole implies (enc_seq(s) + bytes@.subrange(
                                    whole - 8,
                                    whole,
                                ))[i] == bytes@[i] by {
                                    if i < whole - 8 {
                                        assert((enc_seq(s) + spec_u64_to_le_bytes(h))[i]
                                            == enc_seq(s)[i]);
                                    } else {
                                        assert((enc_seq(s) + spec_u64_to_le_bytes(h))[i]
                                            == spec_u64_to_le_bytes(h)[i - (whole - 8)]);
                                    }
                                }
                            }
                            lemma_enc_seq_prefix_free(
                                v@,
                                s,
                                bytes@.subrange(end as int, whole),
                                bytes@.subrange(whole - 8, whole),
                            );
                            assert(enc_seq(v@).len() == enc_seq(s).len());
                        }
                    }
                }
                Option::None
            }
        },
        Option::None => {
            proof {
                assert forall|s: Seq<T>, h: u64|
                    #![trigger enc_seq(s), spec_u64_to_le_bytes(h)]
                    bytes@ != enc_seq(s) + spec_u64_to_le_bytes(h) by {
                    if bytes@ == enc_seq(s) + spec_u64_to_le_bytes(h) {
                        lemma_concat_parts(enc_seq(s), spec_u64_to_le_bytes(h));
                        let pe = enc_seq(s).len() as int;
                        assert(bytes@.subrange(0, pe) =~= enc_seq(s)) by {
                            assert forall|i: int| 0 <= i < pe implies bytes@.subrange(0, pe)[i]
                                == enc_seq(s)[i] by {
                                assert(bytes@[i] == (enc_seq(s) + spec_u64_to_le_bytes(h))[i]);
                            }
                        }
                        assert(bytes@.subrange(0, pe) != enc_seq(s));
                    }
                }
            }
            Option::None
        },
    }
}

/// Decode the metadata sentinel's record, returning the optional pair
/// list and the stored hash.  Fails exactly when the bytes are not
/// such a record.
fn decode_meta_record(bytes: &Vec<u8>) -> (r: Option<(Option<Vec<(String, String)>>, u64)>)
    ensures
        match r {
            Option::Some(p) => {
                &&& bytes@ == meta_payload(match p.0 {
                    Option::None => Option::None,
                    Option::Some(v) => Option::Some(v@),
                }) + spec_u64_to_le_bytes(p.1)
                &&& p.1 == rec_hash(bytes@)
                &&& (p.0 matches Option::Some(v) ==> v@.len() < len_limit() && list_wf(v@))
            },
            Option::None => forall|mm: Option<Seq<(String, String)>>, h: u64|
                #![trigger meta_payload(mm), spec_u64_to_le_bytes(h)]
                bytes@ != meta_payload(mm) + spec_u64_to_le_bytes(h),
        },
{
    proof {
        lemma_auto_spec_u64_to_from_le_bytes();
    }
    if bytes.len() < 9 {
        proof {
            assert forall|mm: Option<Seq<(String, String)>>, h: u64|
                #![trigger meta_payload(mm), spec_u64_to_le_bytes(h)]
                bytes@ != meta_payload(mm) + spec_u64_to_le_bytes(h) by {
                match mm {
                    Option::None => {
                        assert((meta_payload(mm) + spec_u64_to_le_bytes(h)).len() == 9);
                    },
                    Option::Some(p) => {
                        lemma_concat_parts(seq![1u8], enc_seq(p));
                        lemma_concat_parts(meta_payload(mm), spec_u64_to_le_bytes(h));
                        lemma_concat_parts(spec_u64_to_le_bytes(p.len() as u64), enc_list(p));
                        assert((meta_payload(mm) + spec_u64_to_le_bytes(h)).len() >= 17);
                    },
                }
            }
        }
        return Option::None;
    }
    let tag = bytes[0];
    if tag == 0u8 {
        if bytes.len() == 9 {
            let hw = &bytes.as_slice()[1..9];
            let h = u64_from_le_bytes(hw);
            proof {
                assert(hw@ =~= bytes@.subrange(1, 9));
                assert(spec_u64_to_le_bytes(h) =~= hw@);
                assert(bytes@ =~= meta_payload(Option::None) + spec_u64_to_le_bytes(h));
                assert(bytes@.subrange(bytes@.len() - 8, bytes@.len() as int) =~= hw@);
            }
            Option::Some((Option::None, h))
        } else {
            proof {
                assert forall|mm: Option<Seq<(String, String)>>, h: u64|
                    #![trigger meta_payload(mm), spec_u64_to_le_bytes(h)]
                    bytes@ != meta_payload(mm) + spec_u64_to_le_bytes(h) by {
                    if bytes@ == meta_payload(mm) + spec_u64_to_le_bytes(h) {
                        match mm {
                            Option::None => {
                                assert(bytes@.len() == 9);
                            },
                            Option::Some(p) => {
                                lemma_concat_parts(seq![1u8], enc_seq(p));
                                assert(meta_payload(mm)[0] == 1u8);
                                assert(bytes@[0] == (meta_payload(mm) + spec_u64_to_le_bytes(h))[
                                0]);
                            },
                        }
                    }
                }
            }
            Option::None
        }
    } else if tag == 1u8 {
        match decode_list::<(String, String)>(bytes.as_slice(), 1) {
            Option::Some((v, end)) => {
                if bytes.len() - end == 8 {
                    let hw = &bytes.as_slice()[end..end + 8];
                    let h = u64_from_le_bytes(hw);
                    proof {
                        assert(hw@ =~= bytes@.subrange(end as int, end as int + 8));
                        assert(spec_u64_to_le_bytes(h) =~= hw@);
                        lemma_concat_parts(seq![1u8], enc_seq(v@));
                        assert(bytes@ =~= meta_payload(Option::Some(v@)) + spec_u64_to_le_bytes(
                            h,
                        )) by {
                            assert(bytes@.subrange(1, end as int) == enc_seq(v@));
                            assert forall|i: int|
                                0 <= i < bytes@.len() implies bytes@[i] == (meta_payload(
                                Option::Some(v@),
                            ) + spec_u64_to_le_bytes(h))[i] by {
                                if i == 0 {
                                    assert(meta_payload(Option::Some(v@))[0] == 1u8);
                                } else if i < end {
                                    assert(meta_payload(Option::Some(v@))[i] == enc_seq(v@)[i - 1]);
                                    assert(enc_seq(v@)[i - 1] == bytes@.subrange(1, end as int)[i
                                        - 1]);
                                } else {
                                    assert((meta_payload(Option::Some(v@))
                                        + spec_u64_to_le_bytes(h))[i] == spec_u64_to_le_bytes(h)[
                                    i - end]);
                                    assert(hw@[i - end] == bytes@[i]);
                                }
                            }
                        }
                        assert(bytes@.subrange(bytes@.len() - 8, bytes@.len() as int) =~= hw@);
                    }
                    Option::Some((Option::Some(v), h))
                } else {
                    proof {
                        meta_some_incomplete(bytes@, v@, end as int);
                    }
                    Option::None
                }
            },
            Option::None => {
                proof {
                    assert forall|mm: Option<Seq<(String, String)>>, h: u64|
                        #![trigger meta_payload(mm), spec_u64_to_le_bytes(h)]
                        bytes@ != meta_payload(mm) + spec_u64_to_le_bytes(h) by {
                        if bytes@ == meta_payload(mm) + spec_u64_to_le_bytes(h) {
                            match mm {
                                Option::None => {
                                    assert(meta_payload(mm)[0] == 0u8);
                                    assert(bytes@[0] == 0u8);
                                },
                                Option::Some(p) => {
                                    lemma_concat_parts(seq![1u8], enc_seq(p));
                                    lemma_concat_parts(meta_payload(mm), spec_u64_to_le_bytes(h));
                                    let pe = 1 + enc_seq(p).len() as int;
                                    assert(bytes@.subrange(1, pe) =~= enc_seq(p)) by {
                                        assert forall|i: int|
                                            0 <= i < pe - 1 implies bytes@.subrange(1, pe)[i]
                                            == enc_seq(p)[i] by {
                                            assert(bytes@[1 + i] == (meta_payload(mm)
                                                + spec_u64_to_le_bytes(h))[1 + i]);
                                            assert(meta_payload(mm)[1 + i] == enc_seq(p)[i]);
                                        }
                                    }
                                    assert(bytes@.subrange(1, pe) != enc_seq(p));
                                },
                            }
                        }
                    }
                }
                Option::None
            },
        }
    } else {
        proof {
            assert forall|mm: Option<Seq<(String, String)>>, h: u64|
                #![trigger meta_payload(mm), spec_u64_to_le_bytes(h)]
                bytes@ != meta_payload(mm) + spec_u64_to_le_bytes(h) by {
                if bytes@ == meta_payload(mm) + spec_u64_to_le_bytes(h) {
                    match mm {
                        Option::None => {
                            assert(bytes@[0] == 0u8);
                        },
                        Option::Some(p) => {
                            lemma_concat_parts(seq![1u8], enc_seq(p));
                            assert(meta_payload(mm)[0] == 1u8);
                            assert(bytes@[0] == 1u8);
                        },
                    }
                }
            }
        }
        Option::None
    }
}

/// The first entry bound to a key, if any.
fn find_entry(entries: &Vec<(Vec<u8>, Vec<u8>)>, key: &Vec<u8>) -> (r: Option<usize>)
    ensures
        match r {
            Option::Some(i) => i < entries@.len() && entries@[i as int].0@ == key@,
            Option::None => forall|q: int|
                0 <= q < entries@.len() ==> (#[trigger] entries@[q]).0@ != key@,
        },
{
    let mut i: usize = 0;
    while i < entries.len()
        invariant
            i <= entries@.len(),
            forall|q: int| 0 <= q < i ==> (#[trigger] entries@[q]).0@ != key@,
        decreases entries@.len() - i,
    {
        if crate::kv::bytes_eq(entries[i].0.as_slice(), key.as_slice()) {
            return Option::Some(i);
        }
        i += 1;
    }
    Option::None
}

/// Whether store key bytes name a row of the table: eight bytes,
/// decoding to a key the table holds.
pub open spec fn save_row_key<V: Codec>(t: Table<V>, bk: Seq<u8>) -> bool {
    &&& bk.len() == 8
    &&& bk == spec_u64_to_le_bytes(spec_u64_from_le_bytes(bk))
    &&& t.row_map().contains_key(spec_u64_from_le_bytes(bk))
}

/// What saving a table writes: both sentinels and one record per row.
pub open spec fn save_map<V: Codec>(t: Table<V>) -> Map<Seq<u8>, Seq<u8>> {
    Map::new(
        |bk: Seq<u8>| bk == header_key() || bk == meta_key() || save_row_key(t, bk),
        |bk: Seq<u8>|
            if bk == header_key() {
                record_bytes(enc_header_list(t.hview()))
            } else if bk == meta_key() {
                record_bytes(enc_meta(t.meta_view()))
            } else {
                record_bytes(enc_seq(t.row_map()[spec_u64_from_le_bytes(bk)]))
            },
    )
}

/// The part of `save_map` written after the sentinels and the first
/// `n` rows.
spec fn save_map_upto<V: Codec>(t: Table<V>, n: int) -> Map<Seq<u8>, Seq<u8>> {
    Map::new(
        |bk: Seq<u8>| bk == header_key() || bk == meta_key() || (bk.len() == 8 && bk
            == spec_u64_to_le_bytes(spec_u64_from_le_bytes(bk)) && t.key_seq().take(n).contains(
            spec_u64_from_le_bytes(bk),
        )),
        |bk: Seq<u8>|
            if bk == header_key() {
                record_bytes(enc_header_list(t.hview()))
            } else if bk == meta_key() {
                record_bytes(enc_meta(t.meta_view()))
            } else {
                record_bytes(enc_seq(t.row_map()[spec_u64_from_le_bytes(bk)]))
            },
    )
}

/// Whether the stored header record's hash differs from the table's
/// current header payload, or no header record is stored.
pub open spec fn header_changed<V: Codec>(kv: Map<Seq<u8>, Seq<u8>>, t: Table<V>) -> bool {
    ||| !kv.contains_key(header_key())
    ||| rec_hash(kv[header_key()]) != seahash_of(enc_header_list(t.hview()))
}

/// Whether the stored metadata record's hash differs from the table's
/// current metadata payload, or no metadata record is stored.
pub open spec fn meta_changed<V: Codec>(kv: Map<Seq<u8>, Seq<u8>>, t: Table<V>) -> bool {
    ||| !kv.contains_key(meta_key())
    ||| rec_hash(kv[meta_key()]) != seahash_of(enc_meta(t.meta_view()))
}

/// Whether a row needs writing: the store has no record under its
/// key, or the stored hash differs from the current row's.
pub open spec fn row_changed<V: Codec>(kv: Map<Seq<u8>, Seq<u8>>, t: Table<V>, k: u64) -> bool {
    ||| !kv.contains_key(spec_u64_to_le_bytes(k))
    ||| rec_hash(kv[spec_u64_to_le_bytes(k)]) != seahash_of(enc_seq(t.row_map()[k]))
}

/// The change test an update applies to each row key.
pub open spec fn changed_pred<V: Codec>(kv: Map<Seq<u8>, Seq<u8>>, t: Table<V>) -> spec_fn(
    u64,
) -> bool {
    |k: u64| row_changed(kv, t, k)
}

/// The row keys an update writes, in the table's ascending order.
pub open spec fn changed_keys<V: Codec>(kv: Map<Seq<u8>, Seq<u8>>, t: Table<V>) -> Seq<u64> {
    t.key_seq().filter(changed_pred(kv, t))
}

/// Every stored record an update must read decodes.
pub open spec fn update_decodes<V: Codec>(kv: Map<Seq<u8>, Seq<u8>>, t: Table<V>) -> bool {
    &&& kv.contains_key(header_key()) ==> header_slot_ok(kv[header_key()])
    &&& kv.contains_key(meta_key()) ==> meta_slot_ok(kv[meta_key()])
    &&& forall|k: u64|
        #[trigger] t.row_map().contains_key(k) && kv.contains_key(spec_u64_to_le_bytes(k))
            ==> row_slot_ok::<V>(kv[spec_u64_to_le_bytes(k)])
}

/// The store after an update: sentinels and changed rows rewritten,
/// everything else untouched.
pub open spec fn update_map<V: Codec>(kv: Map<Seq<u8>, Seq<u8>>, t: Table<V>) -> Map<
    Seq<u8>,
    Seq<u8>,
> {
    Map::new(
        |bk: Seq<u8>|
            kv.contains_key(bk) || bk == header_key() || bk == meta_key() || save_row_key(t, bk),
        |bk: Seq<u8>|
            if bk == header_key() {
                if header_changed(kv, t) {
                    record_bytes(enc_header_list(t.hview()))
                } else {
                    kv[bk]
                }
            } else if bk == meta_key() {
                if meta_changed(kv, t) {
                    record_bytes(enc_meta(t.meta_view()))
                } else {
                    kv[bk]
                }
            } else if save_row_key(t, bk) && row_changed(kv, t, spec_u64_from_le_bytes(bk)) {
                record_bytes(enc_seq(t.row_map()[spec_u64_from_le_bytes(bk)]))
            } else {
                kv[bk]
            },
    )
}

/// The store after the sentinels and the first `n` rows of an update.
spec fn update_map_upto<V: Codec>(kv: Map<Seq<u8>, Seq<u8>>, t: Table<V>, n: int) -> Map<
    Seq<u8>,
    Seq<u8>,
> {
    Map::new(
        |bk: Seq<u8>|
            kv.contains_key(bk) || bk == header_key() || bk == meta_key() || (bk.len() == 8 && bk
                == spec_u64_to_le_bytes(spec_u64_from_le_bytes(bk)) && t.key_seq().take(n).contains(
                spec_u64_from_le_bytes(bk),
            )),
        |bk: Seq<u8>|
            if bk == header_key() {
                if header_changed(kv, t) {
                    record_bytes(enc_header_list(t.hview()))
                } else {
                    kv[bk]
                }
            } else if bk == meta_key() {
                if meta_changed(kv, t) {
                    record_bytes(enc_meta(t.meta_view()))
                } else {
                    kv[bk]
                }
            } else if bk.len() == 8 && bk == spec_u64_to_le_bytes(spec_u64_from_le_bytes(bk))
                && t.key_seq().take(n).contains(spec_u64_from_le_bytes(bk)) && row_changed(
                kv,
                t,
                spec_u64_from_le_bytes(bk),
            ) {
                record_bytes(enc_seq(t.row_map()[spec_u64_from_le_bytes(bk)]))
            } else {
                kv[bk]
            },
    )
}

/// One update step: handling the row at position `n` moves the store
/// from the `n`-step map to the `n + 1`-step map, whether or not the
/// row was written.
proof fn lemma_update_map_step<V: Codec>(
    kv: Map<Seq<u8>, Seq<u8>>,
    t: Table<V>,
    n: int,
    wrote: bool,
)
    requires
        t.wf(),
        0 <= n < t.key_seq().len(),
        wrote == row_changed(kv, t, t.key_seq()[n]),
    ensures
        wrote ==> update_map_upto(kv, t, n + 1) == update_map_upto(kv, t, n).insert(
            spec_u64_to_le_bytes(t.key_seq()[n]),
            record_bytes(enc_seq(t.row_map()[t.key_seq()[n]])),
        ),
        !wrote ==> update_map_upto(kv, t, n + 1) == update_map_upto(kv, t, n),
{
    lemma_auto_spec_u64_to_from_le_bytes();
    lemma_sentinels();
    let k = t.key_seq()[n];
    let kb = spec_u64_to_le_bytes(k);
    lemma_key_index(t.key_seq(), k, n);
    assert(t.row_map().contains_key(k));
    assert forall|bk: Seq<u8>|
        #![trigger update_map_upto(kv, t, n + 1).contains_key(bk)]
        true implies {
        let lhs = update_map_upto(kv, t, n + 1);
        let rhs = if wrote {
            update_map_upto(kv, t, n).insert(kb, record_bytes(enc_seq(t.row_map()[k])))
        } else {
            update_map_upto(kv, t, n)
        };
        (lhs.contains_key(bk) == rhs.contains_key(bk)) && (lhs.contains_key(bk) ==> lhs[bk]
            == rhs[bk])
    } by {
        let x = spec_u64_from_le_bytes(bk);
        if bk == kb {
            assert(t.key_seq().take(n + 1).contains(k)) by {
                assert(t.key_seq().take(n + 1)[n] == k);
            }
            if !wrote {
                assert(kv.contains_key(bk));
            }
        } else {
            assert(bk == spec_u64_to_le_bytes(x) ==> x != k);
            assert(t.key_seq().take(n + 1).contains(x) && x != k ==> t.key_seq().take(n).contains(
                x,
            )) by {
                if t.key_seq().take(n + 1).contains(x) && x != k {
                    let j = choose|j: int|
                        0 <= j < n + 1 && #[trigger] t.key_seq().take(n + 1)[j] == x;
                    assert(t.key_seq().take(n)[j] == x);
                }
            }
            assert(t.key_seq().take(n).contains(x) ==> t.key_seq().take(n + 1).contains(x)) by {
                if t.key_seq().take(n).contains(x) {
                    let j = choose|j: int| 0 <= j < n && #[trigger] t.key_seq().take(n)[j] == x;
                    assert(t.key_seq().take(n + 1)[j] == x);
                }
            }
        }
    }
    if wrote {
        assert(update_map_upto(kv, t, n + 1) =~= update_map_upto(kv, t, n).insert(
            kb,
            record_bytes(enc_seq(t.row_map()[k])),
        ));
    } else {
        assert(update_map_upto(kv, t, n + 1) =~= update_map_upto(kv, t, n));
    }
}

impl<V: Codec> Table<V> {
    /// Write this table into a store that does not yet hold one: the
    /// header sentinel, then the metadata sentinel, then one record
    /// per row in ascending key order.  Refuses when the header
    /// sentinel already exists; each write is independent, so a
    /// backend failure can leave a partial table behind.
    #[verifier::loop_isolation(false)]
    pub fn save_store<S: KvBackend>(&self, db: &mut S) -> (r: Result<(), SyncError>)
        requires
            self.wf(),
        ensures
            r is Ok ==> !old(db).kv().contains_key(header_key()) && enc_ok(*self)
                && final(db).kv() == old(db).kv().union_prefer_right(save_map(*self)),
            r matches Err(e) ==> match e {
                SyncError::DbTableError(de) => {
                    &&& de == DbTableError::DbExists
                    &&& old(db).kv().contains_key(header_key())
                    &&& final(db).kv() == old(db).kv()
                },
                SyncError::Backend(_) => true,
                SyncError::Encoding => false,
            },
    {
        proof {
            lemma_auto_spec_u64_to_from_le_bytes();
            lemma_sentinels();
        }
        let hk = header_key_bytes();
        match db.kv_exists(hk.as_slice()) {
            Result::Err(e) => {
                return Result::Err(SyncError::Backend(e));
            },
            Result::Ok(true) => {
                return Result::Err(SyncError::DbTableError(DbTableError::DbExists));
            },
            Result::Ok(false) => {},
        }
        let hbody = encode_value(self.headers());
        proof {
            lemma_enc_list_strings(self.headers_raw());
            assert(str_views(self.headers_raw()).len() == self.headers_raw().len());
            assert(hbody@ == enc_header_list(self.hview()));
        }
        let hrec = record_of(hbody);
        match db.kv_store(hk, hrec) {
            Result::Err(e) => {
                return Result::Err(SyncError::Backend(e));
            },
            Result::Ok(_) => {},
        }
        let mk = meta_key_bytes();
        let md = self.meta_data();
        let mbody = encode_value(md);
        proof {
            match md {
                Option::None => {
                    assert(mbody@ == enc_meta(self.meta_view()));
                },
                Option::Some(m) => {
                    lemma_meta_payload(Option::Some(m@));
                    assert(mbody@ == meta_payload(Option::Some(m@)));
                    assert(mbody@ == enc_meta(self.meta_view()));
                },
            }
        }
        let mrec = record_of(mbody);
        match db.kv_store(mk, mrec) {
            Result::Err(e) => {
                return Result::Err(SyncError::Backend(e));
            },
            Result::Ok(_) => {},
        }
        proof {
            assert(db.kv() =~= old(db).kv().union_prefer_right(save_map_upto(*self, 0))) by {
                assert(Seq::<u64>::empty() =~= self.key_seq().take(0));
            }
        }
        let mut i: usize = 0;
        while i < self.len()
            invariant
                i <= self.spec_len(),
                db.kv() == old(db).kv().union_prefer_right(save_map_upto(*self, i as int)),
                forall|idx: int|
                    0 <= idx < i ==> (#[trigger] self.row_seq()[idx]).len() < len_limit()
                        && list_wf(self.row_seq()[idx]),
            decreases self.spec_len() - i,
        {
            let k = self.key_at(i);
            let kb = u64_to_le_bytes(k);
            let row = self.row_at(i);
            let body = encode_value(row);
            let rec = record_of(body);
            proof {
                lemma_key_index(self.key_seq(), k, i as int);
                assert(self.row_map()[k] == self.row_seq()[i as int]);
                assert(rec@ == record_bytes(enc_seq(self.row_map()[k])));
            }
            match db.kv_store(kb, rec) {
                Result::Err(e) => {
                    return Result::Err(SyncError::Backend(e));
                },
                Result::Ok(_) => {},
            }
            proof {
                let prev = old(db).kv().union_prefer_right(save_map_upto(*self, i as int));
                assert(db.kv() =~= old(db).kv().union_prefer_right(
                    save_map_upto(*self, i as int + 1),
                )) by {
                    assert forall|bk: Seq<u8>|
                        #![trigger save_map_upto(*self, i as int + 1).contains_key(bk)]
                        true implies (prev.insert(spec_u64_to_le_bytes(k), rec@).contains_key(bk)
                        == old(db).kv().union_prefer_right(
                        save_map_upto(*self, i as int + 1),
                    ).contains_key(bk)) && (prev.insert(
                        spec_u64_to_le_bytes(k),
                        rec@,
                    ).contains_key(bk) ==> prev.insert(spec_u64_to_le_bytes(k), rec@)[bk] == old(
                        db,
                    ).kv().union_prefer_right(save_map_upto(*self, i as int + 1))[bk]) by {
                        if bk == spec_u64_to_le_bytes(k) {
                            assert(spec_u64_from_le_bytes(bk) == k);
                            assert(self.key_seq().take(i as int + 1).contains(k)) by {
                                assert(self.key_seq().take(i as int + 1)[i as int] == k);
                            }
                            assert(save_map_upto(*self, i as int + 1).contains_key(bk));
                            assert(save_map_upto(*self, i as int + 1)[bk] == rec@);
                        } else {
                            let x = spec_u64_from_le_bytes(bk);
                            assert(bk == spec_u64_to_le_bytes(x) ==> x != k);
                            assert(self.key_seq().take(i as int + 1).contains(x) && x != k
                                ==> self.key_seq().take(i as int).contains(x)) by {
                                if self.key_seq().take(i as int + 1).contains(x) && x != k {
                                    let j = choose|j: int|
                                        0 <= j < i as int + 1 && #[trigger] self.key_seq().take(
                                            i as int + 1,
                                        )[j] == x;
                                    assert(self.key_seq().take(i as int)[j] == x);
                                }
                            }
                            assert(self.key_seq().take(i as int).contains(x) ==> self.key_seq().take(
                                i as int + 1,
                            ).contains(x)) by {
                                if self.key_seq().take(i as int).contains(x) {
                                    let j = choose|j: int|
                                        0 <= j < i as int && #[trigger] self.key_seq().take(
                                            i as int,
                                        )[j] == x;
                                    assert(self.key_seq().take(i as int + 1)[j] == x);
                                }
                            }
                        }
                    }
                }
            }
            i += 1;
        }
        proof {
            assert(enc_ok(*self)) by {
                assert forall|k2: u64|
                    #[trigger] self.row_map().contains_key(k2) implies self.row_map()[k2].len()
                    < len_limit() && list_wf(self.row_map()[k2]) by {
                    assert(self.key_seq().contains(k2));
                    let idx = crate::table::key_index(self.key_seq(), k2);
                    assert(0 <= idx < self.key_seq().len() && self.key_seq()[idx] == k2);
                    lemma_key_index(self.key_seq(), k2, idx);
                    assert(self.row_map()[k2] == self.row_seq()[idx]);
                }
            }
            assert(self.key_seq().take(self.spec_len() as int) =~= self.key_seq());
            assert(save_map_upto(*self, self.spec_len() as int) =~= save_map(*self)) by {
                assert forall|bk: Seq<u8>|
                    #![trigger save_map(*self).contains_key(bk)]
                    #![trigger save_map_upto(*self, self.spec_len() as int).contains_key(bk)]
                    true implies (save_map_upto(*self, self.spec_len() as int).contains_key(bk)
                    == save_map(*self).contains_key(bk)) by {
                    let x = spec_u64_from_le_bytes(bk);
                    assert(self.key_seq().contains(x) == self.row_map().contains_key(x));
                }
            }
        }
        Result::Ok(())
    }

    /// Load a table from a store: scan every binding, let the two
    /// sentinels populate the headers and the metadata, and turn every
    /// other binding into a row.  Fails when any binding does not
    /// decode, and reports a missing (or empty) header sentinel after
    /// the full scan.
    #[verifier::loop_isolation(false)]
    #[verifier::rlimit(100)]
    pub fn from_store<S: KvBackend>(db: &S) -> (r: Result<Table<V>, SyncError>)
        ensures
            r matches Ok(t) ==> loaded_from(db.kv(), t),
            r matches Err(e) ==> match e {
                SyncError::Encoding => !load_ok::<V>(db.kv()),
                SyncError::DbTableError(de) => {
                    &&& de == DbTableError::DbHeaderDoesNotExist
                    &&& load_ok::<V>(db.kv())
                    &&& (!db.kv().contains_key(header_key()) || header_models(
                        db.kv()[header_key()],
                    ).len() == 0)
                },
                SyncError::Backend(_) => true,
            },
    {
        proof {
            lemma_auto_spec_u64_to_from_le_bytes();
            lemma_sentinels();
        }
        let entries = match db.kv_iterate_all() {
            Result::Err(e) => {
                return Result::Err(SyncError::Backend(e));
            },
            Result::Ok(v) => v,
        };
        let ghost kv = db.kv();
        let ghost es = entries@;
        let hk = header_key_bytes();
        let mk = meta_key_bytes();

        // Pass one: the header sentinel.
        let mut headers_found: Option<Vec<String>> = Option::None;
        match find_entry(&entries, &hk) {
            Option::Some(i) => {
                let blen = entries[i].1.len();
                match decode_list_record::<String>(&entries[i].1) {
                    Option::Some((hs, h)) => {
                        proof {
                            assert(kv[header_key()] == es[i as int].1@);
                            assert(blen == es[i as int].1@.len());
                            assert(kv[header_key()].len() < len_limit());
                            lemma_header_slot(kv[header_key()], hs@, h);
                        }
                        headers_found = Option::Some(hs);
                    },
                    Option::None => {
                        proof {
                            assert(kv.contains_key(header_key()));
                            assert(kv[header_key()] == es[i as int].1@);
                            assert(!header_slot_ok(kv[header_key()]));
                        }
                        return Result::Err(SyncError::Encoding);
                    },
                }
            },
            Option::None => {
                proof {
                    if kv.contains_key(header_key()) {
                        let q = choose|q: int|
                            0 <= q < es.len() && (#[trigger] es[q]).0@ == header_key();
                        assert(false);
                    }
                }
            },
        }
        let ghost have_header = kv.contains_key(header_key());
        proof {
            assert(have_header == (headers_found is Some));
            match &headers_found {
                Option::Some(hs) => {
                    assert(kv[header_key()] == enc_seq(hs@) + spec_u64_to_le_bytes(
                        rec_hash(kv[header_key()]),
                    ));
                    assert(header_slot_ok(kv[header_key()]));
                    assert(header_models(kv[header_key()]) == str_views(hs@));
                },
                Option::None => {},
            }
        }

        // Pass two: the metadata sentinel.
        let mut meta_found: Option<Option<Vec<(String, String)>>> = Option::None;
        match find_entry(&entries, &mk) {
            Option::Some(i) => {
                match decode_meta_record(&entries[i].1) {
                    Option::Some((m, _h)) => {
                        proof {
                            assert(kv[meta_key()] == es[i as int].1@);
                        }
                        meta_found = Option::Some(m);
                    },
                    Option::None => {
                        proof {
                            assert(kv.contains_key(meta_key()));
                            assert(kv[meta_key()] == es[i as int].1@);
                            assert(!meta_slot_ok(kv[meta_key()]));
                        }
                        return Result::Err(SyncError::Encoding);
                    },
                }
            },
            Option::None => {
                proof {
                    if kv.contains_key(meta_key()) {
                        let q = choose|q: int|
                            0 <= q < es.len() && (#[trigger] es[q]).0@ == meta_key();
                        assert(false);
                    }
                }
            },
        }
        let ghost have_meta = kv.contains_key(meta_key());
        let ghost meta_stored: Option<Seq<(String, String)>> = match &meta_found {
            Option::None => Option::None,
            Option::Some(Option::None) => Option::None,
            Option::Some(Option::Some(v)) => Option::Some(v@),
        };
        proof {
            assert(have_meta == (meta_found is Some));
            match &meta_found {
                Option::Some(m) => {
                    assert(kv[meta_key()] == meta_payload(meta_stored) + spec_u64_to_le_bytes(
                        rec_hash(kv[meta_key()]),
                    )) by {
                        match m {
                            Option::None => {},
                            Option::Some(v) => {},
                        }
                    }
                    assert(meta_slot_ok(kv[meta_key()]));
                },
                Option::None => {},
            }
        }

        // Pass three: the rows.
        let ghost hwidth: int = match &headers_found {
            Option::Some(hs) => hs@.len() as int,
            Option::None => 0,
        };
        let width_check = match &headers_found {
            Option::Some(hs) => hs.len() > 0,
            Option::None => false,
        };
        let width: usize = match &headers_found {
            Option::Some(hs) => hs.len(),
            Option::None => 0,
        };
        proof {
            if width_check {
                assert(header_models(kv[header_key()]).len() == hwidth);
            }
        }
        let mut pairs: Vec<(u64, Vec<V>)> = Vec::new();
        let mut c: usize = 0;
        while c < entries.len()
            invariant
                c <= es.len(),
                pairs@.len() <= c,
                forall|q: int|
                    0 <= q < pairs@.len() ==> {
                        &&& is_data_key(kv, spec_u64_to_le_bytes((#[trigger] pairs@[q]).0))
                        &&& kv[spec_u64_to_le_bytes(pairs@[q].0)] == enc_seq(pairs@[q].1@)
                            + spec_u64_to_le_bytes(
                            rec_hash(kv[spec_u64_to_le_bytes(pairs@[q].0)]),
                        )
                        &&& (width_check ==> pairs@[q].1@.len() == hwidth)
                        &&& row_slot_ok::<V>(kv[spec_u64_to_le_bytes(pairs@[q].0)])
                        &&& row_slot_models::<V>(kv[spec_u64_to_le_bytes(pairs@[q].0)]).len()
                            == pairs@[q].1@.len()
                        &&& pairs@[q].1@.len() < len_limit()
                        &&& list_wf(pairs@[q].1@)
                    },
                forall|q: int|
                    0 <= q < pairs@.len() ==> exists|e: int|
                        0 <= e < c && (#[trigger] es[e]).0@ == spec_u64_to_le_bytes(
                            (#[trigger] pairs@[q]).0,
                        ),
                forall|q: int, q2: int|
                    0 <= q < q2 < pairs@.len() ==> (#[trigger] pairs@[q]).0 != (
                    #[trigger] pairs@[q2]).0,
                forall|bk: Seq<u8>|
                    #[trigger] is_data_key(kv, bk) && (exists|q: int|
                        0 <= q < c && (#[trigger] es[q]).0@ == bk) ==> exists|q: int|
                        0 <= q < pairs@.len() && spec_u64_to_le_bytes((#[trigger] pairs@[q]).0)
                            == bk,
            decreases es.len() - c,
        {
            let is_h = crate::kv::bytes_eq(entries[c].0.as_slice(), hk.as_slice());
            let is_m = crate::kv::bytes_eq(entries[c].0.as_slice(), mk.as_slice());
            if !is_h && !is_m {
                proof {
                    assert(is_data_key(kv, es[c as int].0@));
                }
                if entries[c].0.len() != 8 {
                    proof {
                        assert(!load_ok::<V>(kv)) by {
                            assert(es[c as int].0@.len() != 8);
                        }
                    }
                    return Result::Err(SyncError::Encoding);
                }
                let key = u64_from_le_bytes(entries[c].0.as_slice());
                let vlen = entries[c].1.len();
                proof {
                    assert(spec_u64_to_le_bytes(key) =~= es[c as int].0@);
                }
                match decode_list_record::<V>(&entries[c].1) {
                    Option::Some((row, rh)) => {
                        proof {
                            assert(kv[es[c as int].0@] == es[c as int].1@);
                            assert(vlen == es[c as int].1@.len());
                            assert(es[c as int].1@.len() < len_limit());
                            lemma_row_slot::<V>(es[c as int].1@, row@, rh);
                        }
                        if width_check && row.len() != width {
                            proof {
                                assert(!load_ok::<V>(kv)) by {
                                    assert(row_slot_models::<V>(kv[es[c as int].0@]).len()
                                        == row@.len());
                                    assert(header_models(kv[header_key()]).len() == hwidth);
                                    assert(row@.len() != hwidth);
                                }
                            }
                            return Result::Err(SyncError::Encoding);
                        }
                        let ghost pairs_pre = pairs@;
                        pairs.push((key, row));
                        proof {
                            assert forall|q: int, q2: int|
                                0 <= q < q2 < pairs@.len() implies (#[trigger] pairs@[q]).0 != (
                            #[trigger] pairs@[q2]).0 by {
                                if q2 == pairs@.len() - 1 && pairs_pre[q].0 == key {
                                    let e = choose|e: int|
                                        0 <= e < c && (#[trigger] es[e]).0@
                                            == spec_u64_to_le_bytes(pairs_pre[q].0);
                                    assert(es[e].0@ == es[c as int].0@);
                                    assert(false);
                                }
                            }
                            assert forall|bk: Seq<u8>|
                                #[trigger] is_data_key(kv, bk) && (exists|q: int|
                                    0 <= q < c + 1 && (#[trigger] es[q]).0@ == bk) implies exists|
                                q: int,
                            |
                                0 <= q < pairs@.len() && spec_u64_to_le_bytes(
                                    (#[trigger] pairs@[q]).0,
                                ) == bk by {
                                let q0 = choose|q: int|
                                    0 <= q < c + 1 && (#[trigger] es[q]).0@ == bk;
                                if q0 < c {
                                    assert(exists|q: int|
                                        0 <= q < c && (#[trigger] es[q]).0@ == bk);
                                    let p0 = choose|p: int|
                                        0 <= p < pairs_pre.len() && spec_u64_to_le_bytes(
                                            (#[trigger] pairs_pre[p]).0,
                                        ) == bk;
                                    assert(pairs@[p0] == pairs_pre[p0]);
                                } else {
                                    assert(spec_u64_to_le_bytes(pairs@[pairs@.len() - 1].0) == bk);
                                }
                            }
                        }
                    },
                    Option::None => {
                        proof {
                            assert(!load_ok::<V>(kv)) by {
                                assert(kv[es[c as int].0@] == es[c as int].1@);
                                assert(!row_slot_ok::<V>(kv[es[c as int].0@]));
                            }
                        }
                        return Result::Err(SyncError::Encoding);
                    },
                }
            } else {
                proof {
                    assert(es[c as int].0@ == header_key() || es[c as int].0@ == meta_key());
                }
            }
            c += 1;
        }
        proof {
            assert(load_ok::<V>(kv)) by {
                assert forall|bk: Seq<u8>| #[trigger]
                    is_data_key(kv, bk) implies bk.len() == 8 && row_slot_ok::<V>(kv[bk]) && (
                width_check ==> row_slot_models::<V>(kv[bk]).len() == hwidth) by {
                    let q = choose|q: int| 0 <= q < es.len() && (#[trigger] es[q]).0@ == bk;
                    assert(exists|q2: int| 0 <= q2 < c && (#[trigger] es[q2]).0@ == bk);
                    let p = choose|p: int|
                        0 <= p < pairs@.len() && spec_u64_to_le_bytes((#[trigger] pairs@[p]).0)
                            == bk;
                    assert(row_slot_ok::<V>(kv[bk]));
                    assert(row_slot_models::<V>(kv[bk]).len() == pairs@[p].1@.len());
                }
                if have_header && header_models(kv[header_key()]).len() >= 1 {
                    assert(width_check);
                }
            }
        }

        // The header decides whether the store holds a table at all.
        let hvec = match headers_found {
            Option::Some(h) => h,
            Option::None => {
                return Result::Err(SyncError::DbTableError(DbTableError::DbHeaderDoesNotExist));
            },
        };
        if hvec.len() == 0 {
            proof {
                assert(header_models(kv[header_key()]).len() == 0);
            }
            return Result::Err(SyncError::DbTableError(DbTableError::DbHeaderDoesNotExist));
        }
        let ghost hviews = str_views(hvec@);
        let ghost hraw = hvec@;
        proof {
            assert(kv[header_key()] == enc_seq(hvec@) + spec_u64_to_le_bytes(
                rec_hash(kv[header_key()]),
            ));
        }

        // Build the table.
        proof {
            assert(crate::table::keys_sorted(Seq::<u64>::empty()));
        }
        let mut t: Table<V> = Table::new_btreemap(hvec, Vec::new(), Vec::new());
        proof {
            assert(t.row_map() =~= Map::<u64, Seq<V>>::empty());
        }
        let ghost all_pairs = pairs@;
        proof {
            assert(width_check);
            assert(hwidth == hviews.len());
            assert(all_pairs.take(all_pairs.len() as int) =~= all_pairs);
            assert forall|q: int|
                0 <= q < all_pairs.len() implies (#[trigger] all_pairs[q]).1@.len()
                == hviews.len() by {}
        }
        while pairs.len() > 0
            invariant
                t.wf(),
                t.hview() == hviews,
                t.headers_raw() == hraw,
                t.meta_view() is None,
                pairs@.len() <= all_pairs.len(),
                pairs@ == all_pairs.take(pairs@.len() as int),
                forall|q: int|
                    0 <= q < all_pairs.len() ==> (#[trigger] all_pairs[q]).1@.len()
                        == hviews.len(),
                forall|x: u64|
                    #[trigger] t.row_map().contains_key(x) ==> exists|q: int|
                        pairs@.len() <= q < all_pairs.len() && (#[trigger] all_pairs[q]).0 == x,
                forall|q: int|
                    pairs@.len() <= q < all_pairs.len() ==> t.row_map().contains_key(
                        (#[trigger] all_pairs[q]).0,
                    ) && t.row_map()[all_pairs[q].0] == all_pairs[q].1@,
            decreases pairs@.len(),
        {
            let ghost pn = pairs@.len() as int;
            match pairs.pop() {
                Option::Some(kr) => {
                    let (k, row) = kr;
                    proof {
                        assert(all_pairs.take(pn)[pn - 1] == all_pairs[pn - 1]);
                        assert((k, row) == all_pairs[pn - 1]);
                        assert(all_pairs.take(pn).drop_last() =~= all_pairs.take(pn - 1));
                        assert(row@.len() == hviews.len());
                    }
                    t.insert(k, row);
                    proof {
                        assert forall|x: u64| #[trigger]
                            t.row_map().contains_key(x) implies exists|q: int|
                            pairs@.len() <= q < all_pairs.len() && (#[trigger] all_pairs[q]).0
                                == x by {
                            if x == k {
                                assert(all_pairs[pn - 1].0 == x);
                            } else {
                                let q = choose|q: int|
                                    pn <= q < all_pairs.len() && (#[trigger] all_pairs[q]).0 == x;
                                assert(all_pairs[q].0 == x);
                            }
                        }
                    }
                },
                Option::None => {
                    proof {
                        assert(false);
                    }
                },
            }
        }
        proof {
            assert(pairs@ =~= all_pairs.take(0));
        }

        // The metadata, if any was stored.
        let ghost rm = t.row_map();
        match meta_found {
            Option::None => {},
            Option::Some(Option::None) => {},
            Option::Some(Option::Some(mpairs)) => {
                t.set_meta_data(Vec::new());
                proof {
                    assert(t.meta_map() =~= Map::<Seq<char>, Seq<char>>::empty()) by {
                        assert(t.meta_view()->0 =~= Seq::<(Seq<char>, Seq<char>)>::empty());
                    }
                    assert(pair_views(mpairs@).take(0) =~= Seq::<(Seq<char>, Seq<char>)>::empty());
                }
                let ghost mv = pair_views(mpairs@);
                let mut mi: usize = 0;
                while mi < mpairs.len()
                    invariant
                        mi <= mpairs@.len(),
                        t.wf(),
                        t.hview() == hviews,
                        t.headers_raw() == hraw,
                        t.row_map() == rm,
                        t.meta_view() is Some,
                        t.meta_map() == meta_fold_pairs(mv.take(mi as int)),
                    decreases mpairs@.len() - mi,
                {
                    let key_c = mpairs[mi].0.clone();
                    let val_c = mpairs[mi].1.clone();
                    proof {
                        assert(key_c@ == mv[mi as int].0);
                        assert(val_c@ == mv[mi as int].1);
                    }
                    t.set_meta_key(key_c, val_c);
                    proof {
                        assert(mv.take(mi as int + 1).drop_last() =~= mv.take(mi as int));
                        assert(mv.take(mi as int + 1).last() == mv[mi as int]);
                    }
                    mi += 1;
                }
                proof {
                    assert(mv.take(mpairs@.len() as int) =~= mv);
                    assert(t.meta_map() == meta_fold_map(Option::Some(mv)));
                }
            },
        }

        // Everything the contract promises now follows from the loop
        // invariants.
        proof {
            assert(t.headers_raw() == hraw);
            assert(kv[header_key()] == enc_seq(t.headers_raw()) + spec_u64_to_le_bytes(
                rec_hash(kv[header_key()]),
            ));
            if have_meta {
                assert(kv[meta_key()] == meta_payload(meta_stored) + spec_u64_to_le_bytes(
                    rec_hash(kv[meta_key()]),
                ));
                let mm: Option<Seq<(Seq<char>, Seq<char>)>> = match meta_stored {
                    Option::None => Option::None,
                    Option::Some(p) => Option::Some(pair_views(p)),
                };
                assert(t.meta_map() == meta_fold_map(mm)) by {
                    if meta_stored is None {
                        assert(t.meta_view() is None);
                        assert(t.meta_map() =~= Map::<Seq<char>, Seq<char>>::empty());
                    }
                }
                assert((t.meta_view() is Some) == (meta_stored is Some));
            }
            assert forall|bk: Seq<u8>| #[trigger]
                is_data_key(kv, bk) implies {
                &&& bk.len() == 8
                &&& t.row_map().contains_key(spec_u64_from_le_bytes(bk))
                &&& kv[bk] == enc_seq(t.row_map()[spec_u64_from_le_bytes(bk)])
                    + spec_u64_to_le_bytes(rec_hash(kv[bk]))
                &&& t.row_map()[spec_u64_from_le_bytes(bk)].len() < len_limit()
                &&& list_wf(t.row_map()[spec_u64_from_le_bytes(bk)])
            } by {
                let q = choose|q: int| 0 <= q < es.len() && (#[trigger] es[q]).0@ == bk;
                assert(exists|q2: int| 0 <= q2 < c && (#[trigger] es[q2]).0@ == bk);
                let p = choose|p: int|
                    0 <= p < all_pairs.len() && spec_u64_to_le_bytes((#[trigger] all_pairs[p]).0)
                        == bk;
                assert(t.row_map().contains_key(all_pairs[p].0));
                assert(t.row_map()[all_pairs[p].0] == all_pairs[p].1@);
                assert(spec_u64_from_le_bytes(bk) == all_pairs[p].0);
            }
            assert forall|x: u64| #[trigger]
                t.row_map().contains_key(x) implies is_data_key(kv, spec_u64_to_le_bytes(x)) by {
                let q = choose|q: int|
                    0 <= q < all_pairs.len() && (#[trigger] all_pairs[q]).0 == x;
            }
        }
        Result::Ok(t)
    }

    /// Reconcile this table against a store that already holds one:
    /// fetch each slot's record, and write only where the store has
    /// no record or the stored hash differs from the current value's.
    /// Returns the row keys actually written, in ascending order.
    #[verifier::loop_isolation(false)]
    #[verifier::rlimit(100)]
    pub fn update_store<S: KvBackend>(&self, db: &mut S) -> (r: Result<Vec<u64>, SyncError>)
        requires
            self.wf(),
        ensures
            r matches Ok(ch) ==> {
                &&& old(db).kv() != Map::<Seq<u8>, Seq<u8>>::empty()
                &&& update_decodes(old(db).kv(), *self)
                &&& ch@ == changed_keys(old(db).kv(), *self)
                &&& crate::table::keys_sorted(ch@)
                &&& final(db).kv() == update_map(old(db).kv(), *self)
            },
            r matches Err(e) ==> match e {
                SyncError::DbTableError(de) => {
                    &&& de == DbTableError::DbDoesNotExist
                    &&& old(db).kv() == Map::<Seq<u8>, Seq<u8>>::empty()
                    &&& final(db).kv() == old(db).kv()
                },
                SyncError::Encoding => !update_decodes(old(db).kv(), *self),
                SyncError::Backend(_) => true,
            },
    {
        proof {
            lemma_auto_spec_u64_to_from_le_bytes();
            lemma_sentinels();
        }
        let ghost kv0 = db.kv();
        match db.kv_is_empty() {
            Result::Err(e) => {
                return Result::Err(SyncError::Backend(e));
            },
            Result::Ok(true) => {
                return Result::Err(SyncError::DbTableError(DbTableError::DbDoesNotExist));
            },
            Result::Ok(false) => {},
        }

        // The header sentinel.
        let hk = header_key_bytes();
        let hbody = encode_value(self.headers());
        proof {
            lemma_enc_list_strings(self.headers_raw());
            assert(str_views(self.headers_raw()).len() == self.headers_raw().len());
            assert(hbody@ == enc_header_list(self.hview()));
        }
        let hhash = seahash_bytes(hbody.as_slice());
        match db.kv_fetch(hk.as_slice()) {
            Result::Err(e) => {
                return Result::Err(SyncError::Backend(e));
            },
            Result::Ok(Option::Some(b)) => {
                match decode_list_record::<String>(&b) {
                    Option::Some((_hs, stored_h)) => {
                        proof {
                            assert(stored_h == rec_hash(kv0[header_key()]));
                            assert(header_slot_ok(kv0[header_key()]));
                        }
                        if stored_h != hhash {
                            let hrec = record_of(hbody);
                            match db.kv_store(hk, hrec) {
                                Result::Err(e) => {
                                    return Result::Err(SyncError::Backend(e));
                                },
                                Result::Ok(_) => {},
                            }
                            proof {
                                assert(header_changed(kv0, *self));
                            }
                        } else {
                            proof {
                                assert(!header_changed(kv0, *self));
                            }
                        }
                    },
                    Option::None => {
                        proof {
                            assert(b@ == kv0[header_key()]);
                            assert(!header_slot_ok(kv0[header_key()]));
                        }
                        return Result::Err(SyncError::Encoding);
                    },
                }
            },
            Result::Ok(Option::None) => {
                let hrec = record_of(hbody);
                match db.kv_store(hk, hrec) {
                    Result::Err(e) => {
                        return Result::Err(SyncError::Backend(e));
                    },
                    Result::Ok(_) => {},
                }
                proof {
                    assert(header_changed(kv0, *self));
                }
            },
        }
        let ghost kv1 = if header_changed(kv0, *self) {
            kv0.insert(header_key(), record_bytes(enc_header_list(self.hview())))
        } else {
            kv0
        };
        proof {
            assert(db.kv() == kv1);
        }

        // The metadata sentinel.
        let mk = meta_key_bytes();
        let md = self.meta_data();
        let mbody = encode_value(md);
        proof {
            match md {
                Option::None => {
                    assert(mbody@ == enc_meta(self.meta_view()));
                },
                Option::Some(m) => {
                    lemma_meta_payload(Option::Some(m@));
                    assert(mbody@ == meta_payload(Option::Some(m@)));
                    assert(mbody@ == enc_meta(self.meta_view()));
                },
            }
        }
        let mhash = seahash_bytes(mbody.as_slice());
        match db.kv_fetch(mk.as_slice()) {
            Result::Err(e) => {
                return Result::Err(SyncError::Backend(e));
            },
            Result::Ok(Option::Some(b)) => {
                match decode_meta_record(&b) {
                    Option::Some((_m, stored_h)) => {
                        proof {
                            assert(b@ == kv1[meta_key()]);
                            assert(kv1[meta_key()] == kv0[meta_key()]);
                            assert(stored_h == rec_hash(kv0[meta_key()]));
                            assert(meta_slot_ok(kv0[meta_key()]));
                        }
                        if stored_h != mhash {
                            let mrec = record_of(mbody);
                            match db.kv_store(mk, mrec) {
                                Result::Err(e) => {
                                    return Result::Err(SyncError::Backend(e));
                                },
                                Result::Ok(_) => {},
                            }
                            proof {
                                assert(meta_changed(kv0, *self));
                            }
                        } else {
                            proof {
                                assert(!meta_changed(kv0, *self));
                            }
                        }
                    },
                    Option::None => {
                        proof {
                            assert(b@ == kv0[meta_key()]);
                            assert(!meta_slot_ok(kv0[meta_key()]));
                        }
                        return Result::Err(SyncError::Encoding);
                    },
                }
            },
            Result::Ok(Option::None) => {
                proof {
                    assert(!kv0.contains_key(meta_key()));
                }
                let mrec = record_of(mbody);
                match db.kv_store(mk, mrec) {
                    Result::Err(e) => {
                        return Result::Err(SyncError::Backend(e));
                    },
                    Result::Ok(_) => {},
                }
                proof {
                    assert(meta_changed(kv0, *self));
                }
            },
        }
        proof {
            assert(db.kv() == update_map_upto(kv0, *self, 0)) by {
                assert(Seq::<u64>::empty() =~= self.key_seq().take(0));
                assert(db.kv() =~= update_map_upto(kv0, *self, 0));
            }
        }

        // The rows, in ascending key order.
        let mut changed: Vec<u64> = Vec::new();
        let mut i: usize = 0;
        proof {
            reveal(Seq::filter);
            assert(changed@ =~= self.key_seq().take(0).filter(changed_pred(kv0, *self)));
        }
        while i < self.len()
            invariant
                i <= self.spec_len(),
                db.kv() == update_map_upto(kv0, *self, i as int),
                changed@ == self.key_seq().take(i as int).filter(changed_pred(kv0, *self)),
                crate::table::keys_sorted(changed@),
                forall|j: int|
                    0 <= j < changed@.len() ==> exists|idx: int|
                        0 <= idx < i && self.key_seq()[idx] == #[trigger] changed@[j],
                forall|k: u64|
                    #[trigger] self.row_map().contains_key(k) && kv0.contains_key(
                        spec_u64_to_le_bytes(k),
                    ) && self.key_seq().take(i as int).contains(k) ==> row_slot_ok::<V>(
                        kv0[spec_u64_to_le_bytes(k)],
                    ),
            decreases self.spec_len() - i,
        {
            let k = self.key_at(i);
            let kb = u64_to_le_bytes(k);
            let row = self.row_at(i);
            let body = encode_value(row);
            proof {
                lemma_key_index(self.key_seq(), k, i as int);
                assert(self.row_map()[k] == self.row_seq()[i as int]);
                assert(body@ == enc_seq(self.row_map()[k]));
            }
            let bh = seahash_bytes(body.as_slice());
            let ghost kv_pre = db.kv();
            let mut wrote = false;
            match db.kv_fetch(kb.as_slice()) {
                Result::Err(e) => {
                    return Result::Err(SyncError::Backend(e));
                },
                Result::Ok(Option::None) => {
                    proof {
                        assert(!kv0.contains_key(spec_u64_to_le_bytes(k))) by {
                            assert(!self.key_seq().take(i as int).contains(k)) by {
                                if self.key_seq().take(i as int).contains(k) {
                                    let q = choose|q: int|
                                        0 <= q < i && #[trigger] self.key_seq().take(i as int)[q]
                                            == k;
                                    assert(self.key_seq()[q] < self.key_seq()[i as int]);
                                }
                            }
                        }
                        assert(row_changed(kv0, *self, k));
                    }
                    let rec = record_of(body);
                    match db.kv_store(kb, rec) {
                        Result::Err(e) => {
                            return Result::Err(SyncError::Backend(e));
                        },
                        Result::Ok(_) => {},
                    }
                    wrote = true;
                },
                Result::Ok(Option::Some(b)) => {
                    proof {
                        assert(!self.key_seq().take(i as int).contains(k)) by {
                            if self.key_seq().take(i as int).contains(k) {
                                let q = choose|q: int|
                                    0 <= q < i && #[trigger] self.key_seq().take(i as int)[q] == k;
                                assert(self.key_seq()[q] < self.key_seq()[i as int]);
                            }
                        }
                        assert(kv_pre.contains_key(spec_u64_to_le_bytes(k)));
                        assert(kv0.contains_key(spec_u64_to_le_bytes(k)));
                        assert(b@ == kv0[spec_u64_to_le_bytes(k)]);
                    }
                    match decode_list_record::<V>(&b) {
                        Option::Some((_row, stored_h)) => {
                            proof {
                                assert(stored_h == rec_hash(kv0[spec_u64_to_le_bytes(k)]));
                                assert(row_slot_ok::<V>(kv0[spec_u64_to_le_bytes(k)]));
                            }
                            if stored_h != bh {
                                proof {
                                    assert(row_changed(kv0, *self, k));
                                }
                                let rec = record_of(body);
                                match db.kv_store(kb, rec) {
                                    Result::Err(e) => {
                                        return Result::Err(SyncError::Backend(e));
                                    },
                                    Result::Ok(_) => {},
                                }
                                wrote = true;
                            } else {
                                proof {
                                    assert(!row_changed(kv0, *self, k));
                                }
                            }
                        },
                        Option::None => {
                            proof {
                                assert(!row_slot_ok::<V>(kv0[spec_u64_to_le_bytes(k)]));
                                assert(!update_decodes(kv0, *self)) by {
                                    if update_decodes(kv0, *self) {
                                        assert(self.row_map().contains_key(k) && kv0.contains_key(
                                            spec_u64_to_le_bytes(k),
                                        ));
                                        assert(row_slot_ok::<V>(kv0[spec_u64_to_le_bytes(k)]));
                                    }
                                }
                            }
                            return Result::Err(SyncError::Encoding);
                        },
                    }
                },
            }
            if wrote {
                proof {
                    if changed@.len() > 0 {
                        let j = changed@.len() - 1;
                        let idx = choose|idx: int|
                            0 <= idx < i && self.key_seq()[idx] == #[trigger] changed@[j];
                        assert(self.key_seq()[idx] < self.key_seq()[i as int]);
                    }
                }
                changed.push(k);
            }
            proof {
                assert(self.key_seq().take(i as int + 1).drop_last() =~= self.key_seq().take(
                    i as int,
                ));
                assert(self.key_seq().take(i as int + 1).last() == k);
                assert(changed_pred(kv0, *self)(k) == row_changed(kv0, *self, k));
                reveal(Seq::filter);
                assert(self.key_seq().take(i as int + 1).filter(changed_pred(kv0, *self)) == (
                if changed_pred(kv0, *self)(k) {
                    self.key_seq().take(i as int).filter(changed_pred(kv0, *self)).push(k)
                } else {
                    self.key_seq().take(i as int).filter(changed_pred(kv0, *self))
                }));
                assert(changed@ == self.key_seq().take(i as int + 1).filter(
                    changed_pred(kv0, *self),
                ));
                lemma_update_map_step(kv0, *self, i as int, row_changed(kv0, *self, k));
                assert(db.kv() =~= update_map_upto(kv0, *self, i as int + 1));
            }
            i += 1;
        }
        proof {
            assert(self.key_seq().take(self.spec_len() as int) =~= self.key_seq());
            assert(update_map_upto(kv0, *self, self.spec_len() as int) =~= update_map(kv0, *self))
                by {
                assert forall|bk: Seq<u8>|
                    #![trigger update_map(kv0, *self).contains_key(bk)]
                    #![trigger update_map_upto(kv0, *self, self.spec_len() as int).contains_key(bk)]
                    true implies (update_map_upto(
                    kv0,
                    *self,
                    self.spec_len() as int,
                ).contains_key(bk) == update_map(kv0, *self).contains_key(bk)) by {
                    let x = spec_u64_from_le_bytes(bk);
                    assert(self.key_seq().contains(x) == self.row_map().contains_key(x));
                }
            }
            assert(update_decodes(kv0, *self)) by {
                assert forall|k: u64|
                    #[trigger] self.row_map().contains_key(k) && kv0.contains_key(
                        spec_u64_to_le_bytes(k),
                    ) implies row_slot_ok::<V>(kv0[spec_u64_to_le_bytes(k)]) by {
                    assert(self.key_seq().contains(k));
                }
            }
        }
        Result::Ok(changed)
    }

    /// Save, and when the store already holds a table, clear it and
    /// save once more.  Not atomic: a failure between the two steps
    /// can leave the store empty.
    pub fn save_store_override<S: KvBackend>(&self, db: &mut S) -> (r: Result<(), SyncError>)
        requires
            self.wf(),
        ensures
            r is Ok && old(db).kv().contains_key(header_key()) ==> final(db).kv() == save_map(
                *self,
            ),
            r is Ok && !old(db).kv().contains_key(header_key()) ==> final(db).kv() == old(
                db,
            ).kv().union_prefer_right(save_map(*self)),
            r matches Err(e) ==> match e {
                SyncError::Backend(_) => true,
                SyncError::DbTableError(_) => false,
                SyncError::Encoding => false,
            },
    {
        match self.save_store(db) {
            Result::Ok(_) => Result::Ok(()),
            Result::Err(SyncError::DbTableError(DbTableError::DbExists)) => {
                match db.kv_delete_all() {
                    Result::Err(e) => {
                        return Result::Err(SyncError::Backend(e));
                    },
                    Result::Ok(_) => {},
                }
                match self.save_store(db) {
                    Result::Ok(_) => {
                        proof {
                            assert(Map::<Seq<u8>, Seq<u8>>::empty().union_prefer_right(
                                save_map(*self),
                            ) =~= save_map(*self));
                        }
                        Result::Ok(())
                    },
                    Result::Err(SyncError::Backend(e)) => Result::Err(SyncError::Backend(e)),
                    Result::Err(_) => {
                        proof {
                            assert(!Map::<Seq<u8>, Seq<u8>>::empty().contains_key(header_key()));
                        }
                        Result::Err(SyncError::Encoding)
                    },
                }
            },
            Result::Err(e) => Result::Err(e),
        }
    }

    /// Drop everything the store holds.
    pub fn delete_store<S: KvBackend>(&self, db: &mut S) -> (r: Result<(), SyncError>)
        ensures
            r is Ok ==> final(db).kv() == Map::<Seq<u8>, Seq<u8>>::empty(),
            r matches Err(e) ==> e matches SyncError::Backend(_),
    {
        match db.kv_delete_all() {
            Result::Err(e) => Result::Err(SyncError::Backend(e)),
            Result::Ok(_) => Result::Ok(()),
        }
    }
}

/// A store key that names table data rather than a sentinel.
pub open spec fn is_data_key(kv: Map<Seq<u8>, Seq<u8>>, bk: Seq<u8>) -> bool {
    kv.contains_key(bk) && bk != header_key() && bk != meta_key()
}

/// The stored bytes hold a header record: a counted string list
/// followed by a hash.
pub open spec fn header_slot_ok(b: Seq<u8>) -> bool {
    exists|hs: Seq<String>, h: u64|
        #![trigger enc_seq(hs), spec_u64_to_le_bytes(h)]
        b == enc_seq(hs) + spec_u64_to_le_bytes(h)
}

/// The witness inside a header record.
pub open spec fn header_witness(b: Seq<u8>) -> (Seq<String>, u64) {
    choose|hs: Seq<String>, h: u64|
        #![trigger enc_seq(hs), spec_u64_to_le_bytes(h)]
        b == enc_seq(hs) + spec_u64_to_le_bytes(h)
}

/// The header names a header record carries.
pub open spec fn header_models(b: Seq<u8>) -> Seq<Seq<char>> {
    str_views(header_witness(b).0)
}

/// The stored bytes hold a metadata record.
pub open spec fn meta_slot_ok(b: Seq<u8>) -> bool {
    exists|mm: Option<Seq<(String, String)>>, h: u64|
        #![trigger meta_payload(mm), spec_u64_to_le_bytes(h)]
        b == meta_payload(mm) + spec_u64_to_le_bytes(h)
}

/// The stored bytes hold a row record.
pub open spec fn row_slot_ok<V: Codec>(b: Seq<u8>) -> bool {
    exists|s: Seq<V>, h: u64|
        #![trigger enc_seq(s), spec_u64_to_le_bytes(h)]
        b == enc_seq(s) + spec_u64_to_le_bytes(h)
}

/// The witness inside a row record.
pub open spec fn row_witness<V: Codec>(b: Seq<u8>) -> (Seq<V>, u64) {
    choose|s: Seq<V>, h: u64|
        #![trigger enc_seq(s), spec_u64_to_le_bytes(h)]
        b == enc_seq(s) + spec_u64_to_le_bytes(h)
}

/// The row models a row record carries.
pub open spec fn row_slot_models<V: Codec>(b: Seq<u8>) -> Seq<V::Model> {
    list_models(row_witness::<V>(b).0)
}

/// String models are string views.
pub proof fn lemma_list_models_strings(s: Seq<String>)
    ensures
        list_models(s) == str_views(s),
{
    assert(list_models(s) =~= str_views(s));
}

/// Any witness pins a header slot's models and hash.
pub proof fn lemma_header_slot(b: Seq<u8>, hs0: Seq<String>, h0: u64)
    requires
        b == enc_seq(hs0) + spec_u64_to_le_bytes(h0),
        b.len() < len_limit(),
    ensures
        header_slot_ok(b),
        header_models(b) == str_views(hs0),
        rec_hash(b) == h0,
{
    lemma_auto_spec_u64_to_from_le_bytes();
    assert(header_slot_ok(b));
    let p = header_witness(b);
    assert(b == enc_seq(p.0) + spec_u64_to_le_bytes(p.1));
    assert(header_models(b) == str_views(p.0));
    lemma_concat_parts(enc_seq(hs0), spec_u64_to_le_bytes(h0));
    lemma_concat_parts(enc_seq(p.0), spec_u64_to_le_bytes(p.1));
    lemma_enc_seq_wf(hs0);
    lemma_enc_seq_wf(p.0);
    lemma_enc_seq_prefix_free(hs0, p.0, spec_u64_to_le_bytes(h0), spec_u64_to_le_bytes(p.1));
    lemma_list_models_strings(hs0);
    lemma_list_models_strings(p.0);
    assert(rec_hash(b) == h0) by {
        assert(b.subrange(b.len() - 8, b.len() as int) =~= spec_u64_to_le_bytes(h0));
    }
}

/// Any witness pins a row slot's models and hash.
pub proof fn lemma_row_slot<V: Codec>(b: Seq<u8>, s0: Seq<V>, h0: u64)
    requires
        b == enc_seq(s0) + spec_u64_to_le_bytes(h0),
        b.len() < len_limit(),
    ensures
        row_slot_ok::<V>(b),
        row_slot_models::<V>(b) == list_models(s0),
        rec_hash(b) == h0,
{
    lemma_auto_spec_u64_to_from_le_bytes();
    assert(row_slot_ok::<V>(b));
    let p = row_witness::<V>(b);
    assert(b == enc_seq(p.0) + spec_u64_to_le_bytes(p.1));
    assert(row_slot_models::<V>(b) == list_models(p.0));
    lemma_concat_parts(enc_seq(s0), spec_u64_to_le_bytes(h0));
    lemma_concat_parts(enc_seq(p.0), spec_u64_to_le_bytes(p.1));
    lemma_enc_seq_wf(s0);
    lemma_enc_seq_wf(p.0);
    lemma_enc_seq_prefix_free(s0, p.0, spec_u64_to_le_bytes(h0), spec_u64_to_le_bytes(p.1));
    assert(rec_hash(b) == h0) by {
        assert(b.subrange(b.len() - 8, b.len() as int) =~= spec_u64_to_le_bytes(h0));
    }
}

/// Any witness pins a metadata slot's hash.
pub proof fn lemma_meta_slot(b: Seq<u8>, mm: Option<Seq<(String, String)>>, h: u64)
    requires
        b == meta_payload(mm) + spec_u64_to_le_bytes(h),
        b.len() < len_limit(),
    ensures
        meta_slot_ok(b),
        rec_hash(b) == h,
{
    lemma_auto_spec_u64_to_from_le_bytes();
    assert(meta_slot_ok(b));
    lemma_concat_parts(meta_payload(mm), spec_u64_to_le_bytes(h));
    assert(rec_hash(b) == h) by {
        assert(b.subrange(b.len() - 8, b.len() as int) =~= spec_u64_to_le_bytes(h));
    }
}

/// Every slot of the store decodes, and when a usable header is
/// present every row is exactly as wide as it.
pub open spec fn load_ok<V: Codec>(kv: Map<Seq<u8>, Seq<u8>>) -> bool {
    &&& kv.contains_key(header_key()) ==> header_slot_ok(kv[header_key()])
    &&& kv.contains_key(meta_key()) ==> meta_slot_ok(kv[meta_key()])
    &&& forall|bk: Seq<u8>|
        #[trigger] is_data_key(kv, bk) ==> bk.len() == 8 && row_slot_ok::<V>(kv[bk])
    &&& (kv.contains_key(header_key()) && header_slot_ok(kv[header_key()]) && header_models(
        kv[header_key()],
    ).len() >= 1 ==> forall|bk: Seq<u8>|
        #[trigger] is_data_key(kv, bk) ==> row_slot_models::<V>(kv[bk]).len() == header_models(
            kv[header_key()],
        ).len())
}

/// The mapping obtained by binding metadata pairs in order, later
/// bindings winning.
pub open spec fn meta_fold_pairs(p: Seq<(Seq<char>, Seq<char>)>) -> Map<Seq<char>, Seq<char>>
    decreases p.len(),
{
    if p.len() == 0 {
        Map::empty()
    } else {
        meta_fold_pairs(p.drop_last()).insert(p.last().0, p.last().1)
    }
}

/// The metadata mapping a stored optional pair list denotes.
pub open spec fn meta_fold_map(m: Option<Seq<(Seq<char>, Seq<char>)>>) -> Map<Seq<char>, Seq<char>> {
    match m {
        Option::None => Map::empty(),
        Option::Some(p) => meta_fold_pairs(p),
    }
}

/// Every piece of the table encodes with untruncated length prefixes:
/// this holds of every table that was ever encoded, and the store
/// protocol's contracts preserve it.
pub open spec fn enc_ok<V: Codec>(t: Table<V>) -> bool {
    &&& t.headers_raw().len() < len_limit()
    &&& list_wf(t.headers_raw())
    &&& forall|k: u64|
        #[trigger] t.row_map().contains_key(k) ==> t.row_map()[k].len() < len_limit() && list_wf(
            t.row_map()[k],
        )
    &&& match t.meta_raw() {
        Option::None => true,
        Option::Some(p) => p.len() < len_limit() && list_wf(p),
    }
}

/// What a table loaded from store contents looks like: its headers,
/// rows and metadata are exactly what the store's records carry.
pub open spec fn loaded_from<V: Codec>(kv: Map<Seq<u8>, Seq<u8>>, t: Table<V>) -> bool {
    &&& t.wf()
    &&& kv.contains_key(header_key())
    &&& kv[header_key()] == enc_seq(t.headers_raw()) + spec_u64_to_le_bytes(
        rec_hash(kv[header_key()]),
    )
    &&& t.headers_raw().len() < len_limit()
    &&& list_wf(t.headers_raw())
    &&& t.hview().len() >= 1
    &&& (kv.contains_key(meta_key()) ==> exists|ms: Option<Seq<(String, String)>>|
        {
            &&& kv[meta_key()] == (#[trigger] meta_payload(ms)) + spec_u64_to_le_bytes(
                rec_hash(kv[meta_key()]),
            )
            &&& t.meta_map() == meta_fold_map(match ms {
                Option::None => Option::None,
                Option::Some(p) => Option::Some(pair_views(p)),
            })
            &&& (t.meta_view() is Some <==> ms is Some)
            &&& (ms matches Option::Some(p) ==> p.len() < len_limit() && list_wf(p))
        })
    &&& (!kv.contains_key(meta_key()) ==> t.meta_view() is None)
    &&& forall|bk: Seq<u8>|
        #[trigger] is_data_key(kv, bk) ==> {
            &&& bk.len() == 8
            &&& t.row_map().contains_key(spec_u64_from_le_bytes(bk))
            &&& kv[bk] == enc_seq(t.row_map()[spec_u64_from_le_bytes(bk)])
                + spec_u64_to_le_bytes(rec_hash(kv[bk]))
            &&& t.row_map()[spec_u64_from_le_bytes(bk)].len() < len_limit()
            &&& list_wf(t.row_map()[spec_u64_from_le_bytes(bk)])
        }
    &&& forall|x: u64|
        #[trigger] t.row_map().contains_key(x) ==> is_data_key(kv, spec_u64_to_le_bytes(x))
}

/// String-pair models are the pair views.
pub proof fn lemma_pair_models(s: Seq<(String, String)>)
    ensures
        list_models(s) == pair_views(s),
{
    assert(list_models(s) =~= pair_views(s));
}

/// With unique keys, binding metadata pairs in order and reading them
/// as an association list agree.
pub proof fn lemma_meta_fold_unique(m: Seq<(Seq<char>, Seq<char>)>)
    requires
        crate::table::meta_unique(m),
    ensures
        meta_fold_pairs(m) == crate::table::meta_pairs_map(m),
    decreases m.len(),
{
    if m.len() == 0 {
        assert(meta_fold_pairs(m) =~= crate::table::meta_pairs_map(m)) by {
            assert forall|k: Seq<char>| !(#[trigger] crate::table::meta_has(m, k)) by {
                if crate::table::meta_has(m, k) {
                    let i = choose|i: int| 0 <= i < m.len() && (#[trigger] m[i]).0 == k;
                }
            }
        }
    } else {
        let rest = m.drop_last();
        assert(crate::table::meta_unique(rest)) by {
            assert forall|i: int, j: int|
                0 <= i < j < rest.len() implies (#[trigger] rest[i]).0 != (#[trigger] rest[j]).0 by {
                assert(m[i].0 != m[j].0);
            }
        }
        lemma_meta_fold_unique(rest);
        assert(!crate::table::meta_has(rest, m.last().0)) by {
            if crate::table::meta_has(rest, m.last().0) {
                let i = choose|i: int|
                    0 <= i < rest.len() && (#[trigger] rest[i]).0 == m.last().0;
                assert(m[i].0 != m[m.len() - 1].0);
            }
        }
        crate::table::lemma_meta_map_push(rest, m.last().0, m.last().1);
        assert(rest.push((m.last().0, m.last().1)) =~= m);
    }
}

/// Law: saving a table and loading the result yields the table back —
/// the same headers, the same keys, the same row models, and the same
/// metadata.  `loaded_from` is exactly what `from_store` ensures of a
/// successful load, and `save_map` is exactly what `save_store` leaves
/// in an empty store and what `save_store_override` leaves in an
/// already-initialized one.
pub proof fn lemma_save_load_round_trip<V: Codec>(t: Table<V>, loaded: Table<V>)
    requires
        t.wf(),
        enc_ok(t),
        loaded_from(save_map(t), loaded),
    ensures
        loaded.hview() == t.hview(),
        loaded.key_seq() == t.key_seq(),
        forall|k: u64|
            #[trigger] loaded.row_map().contains_key(k) == t.row_map().contains_key(k),
        forall|k: u64|
            #[trigger] t.row_map().contains_key(k) ==> list_models(loaded.row_map()[k])
                == list_models(t.row_map()[k]),
        loaded.meta_map() == t.meta_map(),
        (loaded.meta_view() is Some) == (t.meta_view() is Some),
{
    lemma_auto_spec_u64_to_from_le_bytes();
    lemma_sentinels();
    let kv = save_map(t);
    t.lemma_raw_views();

    // Headers.
    assert(kv.contains_key(header_key()));
    assert(kv[header_key()] == record_bytes(enc_header_list(t.hview())));
    lemma_enc_list_strings(t.headers_raw());
    assert(str_views(t.headers_raw()).len() == t.headers_raw().len());
    assert(enc_seq(t.headers_raw()) == enc_header_list(t.hview()));
    lemma_enc_seq_prefix_free(
        t.headers_raw(),
        loaded.headers_raw(),
        spec_u64_to_le_bytes(seahash_of(enc_header_list(t.hview()))),
        spec_u64_to_le_bytes(rec_hash(kv[header_key()])),
    );
    lemma_list_models_strings(t.headers_raw());
    lemma_list_models_strings(loaded.headers_raw());
    loaded.lemma_raw_views();
    assert(loaded.hview() == t.hview());

    // Rows: same keys, same models.
    assert forall|k: u64|
        #[trigger] loaded.row_map().contains_key(k) == t.row_map().contains_key(k) by {
        if t.row_map().contains_key(k) {
            assert(save_row_key(t, spec_u64_to_le_bytes(k)));
            assert(is_data_key(kv, spec_u64_to_le_bytes(k)));
            assert(loaded.row_map().contains_key(spec_u64_from_le_bytes(spec_u64_to_le_bytes(k))));
        }
        if loaded.row_map().contains_key(k) {
            assert(is_data_key(kv, spec_u64_to_le_bytes(k)));
            assert(save_row_key(t, spec_u64_to_le_bytes(k)));
        }
    }
    assert(loaded.key_seq() == t.key_seq()) by {
        assert(loaded.key_seq().to_set() =~= t.key_seq().to_set()) by {
            assert forall|x: u64|
                #![trigger loaded.key_seq().contains(x)]
                #![trigger t.key_seq().contains(x)]
                loaded.key_seq().contains(x) == t.key_seq().contains(x) by {
                assert(loaded.row_map().contains_key(x) == loaded.key_seq().contains(x));
                assert(t.row_map().contains_key(x) == t.key_seq().contains(x));
            }
        }
        crate::table::lemma_sorted_unique(loaded.key_seq(), t.key_seq());
    }
    assert forall|k: u64|
        #[trigger] t.row_map().contains_key(k) implies list_models(loaded.row_map()[k])
        == list_models(t.row_map()[k]) by {
        let bk = spec_u64_to_le_bytes(k);
        assert(save_row_key(t, bk));
        assert(is_data_key(kv, bk));
        assert(kv[bk] == record_bytes(enc_seq(t.row_map()[k])));
        assert(kv[bk] == enc_seq(loaded.row_map()[k]) + spec_u64_to_le_bytes(rec_hash(kv[bk])));
        lemma_enc_seq_prefix_free(
            t.row_map()[k],
            loaded.row_map()[k],
            spec_u64_to_le_bytes(seahash_of(enc_seq(t.row_map()[k]))),
            spec_u64_to_le_bytes(rec_hash(kv[bk])),
        );
    }

    // Metadata.
    assert(kv.contains_key(meta_key()));
    assert(kv[meta_key()] == record_bytes(enc_meta(t.meta_view())));
    lemma_meta_payload(t.meta_raw());
    assert(enc_meta(t.meta_view()) == meta_payload(t.meta_raw()));
    let ms = choose|ms: Option<Seq<(String, String)>>|
        {
            &&& kv[meta_key()] == (#[trigger] meta_payload(ms)) + spec_u64_to_le_bytes(
                rec_hash(kv[meta_key()]),
            )
            &&& loaded.meta_map() == meta_fold_map(match ms {
                Option::None => Option::None,
                Option::Some(p) => Option::Some(pair_views(p)),
            })
            &&& (loaded.meta_view() is Some <==> ms is Some)
            &&& (ms matches Option::Some(p) ==> p.len() < len_limit() && list_wf(p))
        };
    assert(meta_payload(ms) + spec_u64_to_le_bytes(rec_hash(kv[meta_key()])) == meta_payload(
        t.meta_raw(),
    ) + spec_u64_to_le_bytes(seahash_of(meta_payload(t.meta_raw()))));
    match (t.meta_raw(), ms) {
        (Option::None, Option::None) => {
            assert(t.meta_view() is None);
            assert(t.meta_map() =~= Map::<Seq<char>, Seq<char>>::empty());
            assert(loaded.meta_map() =~= Map::<Seq<char>, Seq<char>>::empty());
        },
        (Option::Some(pt), Option::Some(pl)) => {
            lemma_concat_parts(seq![1u8], enc_seq(pt));
            lemma_concat_parts(seq![1u8], enc_seq(pl));
            assert(enc_seq(pt) + spec_u64_to_le_bytes(seahash_of(meta_payload(t.meta_raw())))
                =~= enc_seq(pl) + spec_u64_to_le_bytes(rec_hash(kv[meta_key()]))) by {
                let lhs_whole = meta_payload(t.meta_raw()) + spec_u64_to_le_bytes(
                    seahash_of(meta_payload(t.meta_raw())),
                );
                assert forall|i: int|
                    0 <= i < lhs_whole.len() - 1 implies (enc_seq(pt) + spec_u64_to_le_bytes(
                    seahash_of(meta_payload(t.meta_raw())),
                ))[i] == (enc_seq(pl) + spec_u64_to_le_bytes(rec_hash(kv[meta_key()])))[i] by {
                    assert(lhs_whole[1 + i] == (meta_payload(ms) + spec_u64_to_le_bytes(
                        rec_hash(kv[meta_key()]),
                    ))[1 + i]);
                    assert((meta_payload(t.meta_raw()))[1 + i] == enc_seq(pt)[i] || 1 + i
                        >= meta_payload(t.meta_raw()).len());
                    assert((meta_payload(ms))[1 + i] == enc_seq(pl)[i] || 1 + i >= meta_payload(
                        ms,
                    ).len());
                }
            }
            lemma_enc_seq_prefix_free(
                pt,
                pl,
                spec_u64_to_le_bytes(seahash_of(meta_payload(t.meta_raw()))),
                spec_u64_to_le_bytes(rec_hash(kv[meta_key()])),
            );
            lemma_pair_models(pt);
            lemma_pair_models(pl);
            assert(pair_views(pt) == pair_views(pl));
            assert(t.meta_view() == Option::Some(pair_views(pt)));
            lemma_meta_fold_unique(pair_views(pt));
            assert(loaded.meta_map() == meta_fold_pairs(pair_views(pl)));
            assert(t.meta_map() == crate::table::meta_pairs_map(pair_views(pt)));
        },
        (Option::None, Option::Some(pl)) => {
            lemma_concat_parts(seq![1u8], enc_seq(pl));
            assert(meta_payload(t.meta_raw())[0] == 0u8);
            assert(meta_payload(ms)[0] == 1u8);
            assert((meta_payload(t.meta_raw()) + spec_u64_to_le_bytes(
                seahash_of(meta_payload(t.meta_raw())),
            ))[0] == (meta_payload(ms) + spec_u64_to_le_bytes(rec_hash(kv[meta_key()])))[0]);
            assert(false);
        },
        (Option::Some(pt), Option::None) => {
            lemma_concat_parts(seq![1u8], enc_seq(pt));
            assert(meta_payload(t.meta_raw())[0] == 1u8);
            assert(meta_payload(ms)[0] == 0u8);
            assert((meta_payload(t.meta_raw()) + spec_u64_to_le_bytes(
                seahash_of(meta_payload(t.meta_raw())),
            ))[0] == (meta_payload(ms) + spec_u64_to_le_bytes(rec_hash(kv[meta_key()])))[0]);
            assert(false);
        },
    }
    assert((loaded.meta_view() is Some) == (t.meta_view() is Some));
}

/// Law: updating a store that already holds exactly this table writes
/// nothing — the changed-key list is empty and every binding keeps its
/// bytes, hashes included.
pub proof fn lemma_update_unchanged<V: Codec>(t: Table<V>)
    requires
        t.wf(),
    ensures
        changed_keys(save_map(t), t) == Seq::<u64>::empty(),
        !header_changed(save_map(t), t),
        !meta_changed(save_map(t), t),
        update_map(save_map(t), t) == save_map(t),
{
    lemma_auto_spec_u64_to_from_le_bytes();
    lemma_sentinels();
    let kv = save_map(t);
    assert(!header_changed(kv, t)) by {
        let body = enc_header_list(t.hview());
        assert(kv[header_key()] == body + spec_u64_to_le_bytes(seahash_of(body)));
        lemma_concat_parts(body, spec_u64_to_le_bytes(seahash_of(body)));
        assert(kv[header_key()].subrange(
            kv[header_key()].len() - 8,
            kv[header_key()].len() as int,
        ) =~= spec_u64_to_le_bytes(seahash_of(body)));
    }
    assert(!meta_changed(kv, t)) by {
        let body = enc_meta(t.meta_view());
        assert(kv[meta_key()] == body + spec_u64_to_le_bytes(seahash_of(body)));
        lemma_concat_parts(body, spec_u64_to_le_bytes(seahash_of(body)));
        assert(kv[meta_key()].subrange(
            kv[meta_key()].len() - 8,
            kv[meta_key()].len() as int,
        ) =~= spec_u64_to_le_bytes(seahash_of(body)));
    }
    assert forall|i: int|
        0 <= i < t.key_seq().len() implies !(changed_pred(kv, t)(#[trigger] t.key_seq()[i])) by {
        let k = t.key_seq()[i];
        crate::table::lemma_key_index(t.key_seq(), k, i);
        assert(t.row_map().contains_key(k));
        let bk = spec_u64_to_le_bytes(k);
        assert(save_row_key(t, bk));
        let body = enc_seq(t.row_map()[k]);
        assert(kv[bk] == body + spec_u64_to_le_bytes(seahash_of(body)));
        lemma_concat_parts(body, spec_u64_to_le_bytes(seahash_of(body)));
        assert(kv[bk].subrange(kv[bk].len() - 8, kv[bk].len() as int) =~= spec_u64_to_le_bytes(
            seahash_of(body),
        ));
        assert(!row_changed(kv, t, k));
    }
    t.key_seq().lemma_all_neg_filter_empty(changed_pred(kv, t));
    assert(update_map(kv, t) =~= kv) by {
        assert forall|bk: Seq<u8>|
            #![trigger update_map(kv, t).contains_key(bk)]
            true implies (update_map(kv, t).contains_key(bk) == kv.contains_key(bk)) && (
        kv.contains_key(bk) ==> update_map(kv, t)[bk] == kv[bk]) by {
            if save_row_key(t, bk) {
                let x = spec_u64_from_le_bytes(bk);
                let i = crate::table::key_index(t.key_seq(), x);
                assert(t.key_seq().contains(x));
                assert(0 <= i < t.key_seq().len() && t.key_seq()[i] == x);
                assert(!(changed_pred(kv, t)(t.key_seq()[i])));
                assert(!row_changed(kv, t, x));
            }
        }
    }
}

/// When a pair list fills the tag-prefixed payload up to `end` but the
/// hash does not sit flush at the end, the bytes are no metadata
/// record.
proof fn meta_some_incomplete(bytes: Seq<u8>, v: Seq<(String, String)>, end: int)
    requires
        bytes.len() < len_limit(),
        9 <= bytes.len(),
        1 <= end <= bytes.len(),
        end + 8 != bytes.len(),
        bytes[0] == 1u8,
        bytes.subrange(1, end) == enc_seq(v),
        list_wf(v),
        v.len() < len_limit(),
    ensures
        forall|mm: Option<Seq<(String, String)>>, h: u64|
            #![trigger meta_payload(mm), spec_u64_to_le_bytes(h)]
            bytes != meta_payload(mm) + spec_u64_to_le_bytes(h),
{
    lemma_auto_spec_u64_to_from_le_bytes();
    assert forall|mm: Option<Seq<(String, String)>>, h: u64|
        #![trigger meta_payload(mm), spec_u64_to_le_bytes(h)]
        bytes != meta_payload(mm) + spec_u64_to_le_bytes(h) by {
        if bytes == meta_payload(mm) + spec_u64_to_le_bytes(h) {
            match mm {
                Option::None => {
                    assert(meta_payload(mm)[0] == 0u8);
                    assert(bytes[0] == (meta_payload(mm) + spec_u64_to_le_bytes(h))[0]);
                },
                Option::Some(p) => {
                    lemma_concat_parts(seq![1u8], enc_seq(p));
                    lemma_concat_parts(meta_payload(mm), spec_u64_to_le_bytes(h));
                    assert(enc_seq(p).len() == bytes.len() - 9);
                    assert(enc_seq(p).len() < len_limit());
                    lemma_enc_seq_wf(p);
                    let whole = bytes.len() as int;
                    assert(enc_seq(v) + bytes.subrange(end, whole) =~= enc_seq(p)
                        + bytes.subrange(whole - 8, whole)) by {
                        assert forall|i: int|
                            0 <= i < whole - 1 implies (enc_seq(v) + bytes.subrange(end, whole))[i]
                            == bytes[#[trigger] (1 + i)] by {
                            if i < end - 1 {
                                assert(enc_seq(v)[i] == bytes.subrange(1, end)[i]);
                            }
                        }
                        assert forall|i: int|
                            0 <= i < whole - 1 implies (enc_seq(p) + bytes.subrange(
                            whole - 8,
                            whole,
                        ))[i] == bytes[#[trigger] (1 + i)] by {
                            if i < whole - 9 {
                                assert((meta_payload(mm) + spec_u64_to_le_bytes(h))[1 + i]
                                    == meta_payload(mm)[1 + i]);
                                assert(meta_payload(mm)[1 + i] == enc_seq(p)[i]);
                            } else {
                                assert((meta_payload(mm) + spec_u64_to_le_bytes(h))[1 + i]
                                    == spec_u64_to_le_bytes(h)[1 + i - (whole - 8)]);
                            }
                        }
                    }
                    lemma_enc_seq_prefix_free(
                        v,
                        p,
                        bytes.subrange(end, whole),
                        bytes.subrange(whole - 8, whole),
                    );
                    assert(enc_seq(v).len() == enc_seq(p).len());
                },
            }
        }
    }
}

} // verus!

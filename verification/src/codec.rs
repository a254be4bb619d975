//! The canonical byte encoding shared by keys, row values and the
//! sentinel payloads of the store protocol.
//!
//! Every value is encoded deterministically: integers as eight
//! little-endian bytes, strings and lists with an eight-byte length
//! prefix.  Decoding is the exact inverse on well-formed input and
//! fails on everything else.

use vstd::bytes::*;
use vstd::prelude::*;

verus! {

use vstd::utf8::decode_utf8;
use vstd::utf8::encode_utf8;
use vstd::utf8::valid_utf8;

/// One more than the largest length that fits the eight-byte length
/// prefix.
pub open spec fn len_limit() -> int {
    0x1_0000_0000_0000_0000
}

/// A value with a canonical byte encoding.
///
/// `enc` must be a prefix-free code on well-formed values, so that a
/// decoded prefix determines both the value's model and where the
/// encoding ends.
pub trait Codec: Sized {
    /// The mathematical model of a value; the encoding is a function
    /// of the model alone.
    type Model;

    /// The model of this value.
    spec fn m(&self) -> Self::Model;

    /// The canonical encoding of this value.
    spec fn enc(&self) -> Seq<u8>;

    /// Whether every length inside the encoding fits its prefix.
    spec fn enc_wf(&self) -> bool;

    /// The encoding and its well-formedness depend on the model alone.
    proof fn lemma_enc_of_model(a: Self, b: Self)
        requires
            a.m() == b.m(),
        ensures
            a.enc() == b.enc(),
            a.enc_wf() == b.enc_wf(),
    ;

    /// Encodings are never empty, and a short encoding is well-formed.
    proof fn lemma_enc_len(a: Self)
        ensures
            a.enc().len() >= 1,
            a.enc().len() < len_limit() ==> a.enc_wf(),
    ;

    /// Prefix-freeness: when two well-formed encodings followed by
    /// arbitrary tails agree, the values' models and the tails agree.
    proof fn lemma_enc_prefix_free(a: Self, b: Self, ra: Seq<u8>, rb: Seq<u8>)
        requires
            a.enc_wf(),
            b.enc_wf(),
            a.enc() + ra == b.enc() + rb,
        ensures
            a.m() == b.m(),
            a.enc() == b.enc(),
            ra == rb,
    ;

    /// Append this value's encoding to a byte buffer.
    fn encode_into(&self, out: &mut Vec<u8>)
        ensures
            final(out)@ == old(out)@ + self.enc(),
            self.enc_wf(),
    ;

    /// Decode one value whose encoding starts at `pos`, returning it
    /// with the position one past its encoding.  Fails exactly when no
    /// value's encoding starts there.
    fn decode(bytes: &[u8], pos: usize) -> (r: Option<(Self, usize)>)
        requires
            pos <= bytes@.len(),
        ensures
            match r {
                Option::Some(p) => {
                    &&& pos <= p.1 <= bytes@.len()
                    &&& bytes@.subrange(pos as int, p.1 as int) == p.0.enc()
                    &&& p.0.enc_wf()
                },
                Option::None => forall|v: Self, end: int|
                    #![trigger v.enc(), bytes@.subrange(pos as int, end)]
                    pos <= end <= bytes@.len() ==> bytes@.subrange(pos as int, end) != v.enc(),
            },
    ;
}

/// Encode a whole value into a fresh buffer.
pub fn encode_value<T: Codec>(v: &T) -> (r: Vec<u8>)
    ensures
        r@ == v.enc(),
        v.enc_wf(),
{
    let mut out: Vec<u8> = Vec::new();
    v.encode_into(&mut out);
    proof {
        assert(out@ =~= v.enc());
    }
    out
}

impl Codec for u64 {
    type Model = u64;

    open spec fn m(&self) -> u64 {
        *self
    }

    open spec fn enc(&self) -> Seq<u8> {
        spec_u64_to_le_bytes(*self)
    }

    open spec fn enc_wf(&self) -> bool {
        true
    }

    proof fn lemma_enc_of_model(a: Self, b: Self) {
    }

    proof fn lemma_enc_len(a: Self) {
        lemma_auto_spec_u64_to_from_le_bytes();
    }

    proof fn lemma_enc_prefix_free(a: Self, b: Self, ra: Seq<u8>, rb: Seq<u8>) {
        lemma_auto_spec_u64_to_from_le_bytes();
        assert(a.enc() =~= b.enc()) by {
            assert forall|i: int| 0 <= i < 8 implies a.enc()[i] == b.enc()[i] by {
                assert((a.enc() + ra)[i] == a.enc()[i]);
                assert((b.enc() + rb)[i] == b.enc()[i]);
            }
        }
        assert(spec_u64_from_le_bytes(a.enc()) == spec_u64_from_le_bytes(b.enc()));
        assert(a.enc().len() == 8);
        assert(b.enc().len() == 8);
        assert((a.enc() + ra).len() == a.enc().len() + ra.len());
        assert((b.enc() + rb).len() == b.enc().len() + rb.len());
        assert(ra.len() == rb.len());
        assert(ra =~= rb) by {
            assert forall|i: int| 0 <= i < ra.len() implies ra[i] == rb[i] by {
                assert((a.enc() + ra)[8 + i] == ra[i]);
                assert((b.enc() + rb)[8 + i] == rb[i]);
            }
        }
    }

    fn encode_into(&self, out: &mut Vec<u8>) {
        let bs = u64_to_le_bytes(*self);
        out.extend_from_slice(bs.as_slice());
        proof {
            assert(out@ =~= old(out)@ + self.enc());
        }
    }

    fn decode(bytes: &[u8], pos: usize) -> (r: Option<(Self, usize)>) {
        proof {
            lemma_auto_spec_u64_to_from_le_bytes();
        }
        if bytes.len() - pos < 8 {
            proof {
                assert forall|v: u64, end: int|
                    #![trigger v.enc(), bytes@.subrange(pos as int, end)]
                    pos <= end <= bytes@.len() implies bytes@.subrange(pos as int, end)
                    != v.enc() by {
                    assert(v.enc().len() == 8);
                    assert(bytes@.subrange(pos as int, end).len() == end - pos);
                }
            }
            return Option::None;
        }
        let window = &bytes[pos..pos + 8];
        let x = u64_from_le_bytes(window);
        proof {
            assert(window@ =~= bytes@.subrange(pos as int, pos as int + 8));
            assert(spec_u64_to_le_bytes(x) =~= window@);
        }
        Option::Some((x, pos + 8))
    }
}

/// A concatenation splits back into its two parts.
pub proof fn lemma_concat_parts<T>(x: Seq<T>, y: Seq<T>)
    ensures
        (x + y).len() == x.len() + y.len(),
        (x + y).subrange(0, x.len() as int) == x,
        (x + y).subrange(x.len() as int, x.len() + y.len() as int) == y,
{
    assert((x + y).subrange(0, x.len() as int) =~= x);
    assert((x + y).subrange(x.len() as int, x.len() + y.len() as int) =~= y);
}

/// Relies on `String::from_utf8`: yields the string whose UTF-8
/// encoding is exactly the given bytes, and fails exactly on byte
/// sequences that are not valid UTF-8.
#[verifier::external_body]
fn bytes_to_string(v: Vec<u8>) -> (r: Option<String>)
    ensures
        match r {
            Option::Some(s) => valid_utf8(v@) && s@ == decode_utf8(v@),
            Option::None => !valid_utf8(v@),
        },
{
    String::from_utf8(v).ok()
}

impl Codec for String {
    type Model = Seq<char>;

    open spec fn m(&self) -> Seq<char> {
        self@
    }

    open spec fn enc(&self) -> Seq<u8> {
        spec_u64_to_le_bytes(encode_utf8(self@).len() as u64) + encode_utf8(self@)
    }

    open spec fn enc_wf(&self) -> bool {
        encode_utf8(self@).len() < len_limit()
    }

    proof fn lemma_enc_of_model(a: Self, b: Self) {
    }

    proof fn lemma_enc_len(a: Self) {
        lemma_auto_spec_u64_to_from_le_bytes();
        lemma_concat_parts(
            spec_u64_to_le_bytes(encode_utf8(a@).len() as u64),
            encode_utf8(a@),
        );
    }

    proof fn lemma_enc_prefix_free(a: Self, b: Self, ra: Seq<u8>, rb: Seq<u8>) {
        lemma_auto_spec_u64_to_from_le_bytes();
        let ea = encode_utf8(a@);
        let eb = encode_utf8(b@);
        let pa = spec_u64_to_le_bytes(ea.len() as u64);
        let pb = spec_u64_to_le_bytes(eb.len() as u64);
        lemma_concat_parts(pa, ea);
        lemma_concat_parts(pb, eb);
        let whole = a.enc() + ra;
        assert(pa =~= whole.subrange(0, 8)) by {
            assert forall|i: int| 0 <= i < 8 implies pa[i] == whole.subrange(0, 8)[i] by {
                assert(whole[i] == a.enc()[i]);
                assert(a.enc()[i] == pa[i]);
            }
        }
        assert(pb =~= whole.subrange(0, 8)) by {
            assert forall|i: int| 0 <= i < 8 implies pb[i] == whole.subrange(0, 8)[i] by {
                assert(whole[i] == (b.enc() + rb)[i]);
                assert((b.enc() + rb)[i] == b.enc()[i]);
                assert(b.enc()[i] == pb[i]);
            }
        }
        assert(ea.len() as u64 == spec_u64_from_le_bytes(pa));
        assert(eb.len() as u64 == spec_u64_from_le_bytes(pb));
        assert(ea.len() == eb.len());
        assert(a.enc().len() == b.enc().len());
        assert(a.enc() =~= b.enc()) by {
            assert forall|i: int| 0 <= i < a.enc().len() implies a.enc()[i] == b.enc()[i] by {
                assert((a.enc() + ra)[i] == a.enc()[i]);
                assert((b.enc() + rb)[i] == b.enc()[i]);
            }
        }
        assert(ea =~= eb) by {
            assert forall|i: int| 0 <= i < ea.len() implies ea[i] == eb[i] by {
                assert(a.enc()[8 + i] == ea[i]);
                assert(b.enc()[8 + i] == eb[i]);
            }
        }
        assert(a@ == b@) by {
            vstd::utf8::encode_utf8_decode_utf8(a@);
            vstd::utf8::encode_utf8_decode_utf8(b@);
        }
        assert((a.enc() + ra).len() == a.enc().len() + ra.len());
        assert((b.enc() + rb).len() == b.enc().len() + rb.len());
        assert(ra =~= rb) by {
            assert forall|i: int| 0 <= i < ra.len() implies ra[i] == rb[i] by {
                assert((a.enc() + ra)[a.enc().len() + i] == ra[i]);
                assert((b.enc() + rb)[b.enc().len() + i] == rb[i]);
            }
        }
    }

    fn encode_into(&self, out: &mut Vec<u8>) {
        let bs = self.as_str().as_bytes();
        let len_bytes = u64_to_le_bytes(bs.len() as u64);
        out.extend_from_slice(len_bytes.as_slice());
        out.extend_from_slice(bs);
        proof {
            assert(bs@ == encode_utf8(self@));
            assert(out@ =~= old(out)@ + self.enc());
        }
    }

    #[verifier::loop_isolation(false)]
    fn decode(bytes: &[u8], pos: usize) -> (r: Option<(Self, usize)>) {
        proof {
            lemma_auto_spec_u64_to_from_le_bytes();
        }
        let prefix = match <u64 as Codec>::decode(bytes, pos) {
            Option::Some(p) => p,
            Option::None => {
                proof {
                    assert forall|v: String, end: int|
                        #![trigger v.enc(), bytes@.subrange(pos as int, end)]
                        pos <= end <= bytes@.len() implies bytes@.subrange(pos as int, end)
                        != v.enc() by {
                        if bytes@.subrange(pos as int, end) == v.enc() {
                            let ev = encode_utf8(v@);
                            let pv = spec_u64_to_le_bytes(ev.len() as u64);
                            lemma_concat_parts(pv, ev);
                            let u: u64 = ev.len() as u64;
                            assert(end - pos == v.enc().len());
                            assert(pos + 8 <= end);
                            assert(bytes@.subrange(pos as int, pos as int + 8) =~= u.enc()) by {
                                assert forall|i: int| 0 <= i < 8 implies bytes@.subrange(
                                    pos as int,
                                    pos as int + 8,
                                )[i] == u.enc()[i] by {
                                    assert(bytes@.subrange(pos as int, end)[i] == v.enc()[i]);
                                    assert(v.enc()[i] == pv[i]);
                                }
                            }
                        }
                    }
                }
                return Option::None;
            },
        };
        let (len64, after_len) = prefix;
        let remaining = bytes.len() - after_len;
        if len64 > remaining as u64 {
            proof {
                assert forall|v: String, end: int|
                    #![trigger v.enc(), bytes@.subrange(pos as int, end)]
                    pos <= end <= bytes@.len() implies bytes@.subrange(pos as int, end)
                    != v.enc() by {
                    if bytes@.subrange(pos as int, end) == v.enc() {
                        let ev = encode_utf8(v@);
                        let pv = spec_u64_to_le_bytes(ev.len() as u64);
                        lemma_concat_parts(pv, ev);
                        let u: u64 = ev.len() as u64;
                        assert(end - pos == 8 + ev.len());
                        assert(bytes@.subrange(pos as int, pos as int + 8) =~= pv) by {
                            assert forall|i: int| 0 <= i < 8 implies bytes@.subrange(
                                pos as int,
                                pos as int + 8,
                            )[i] == pv[i] by {
                                assert(bytes@.subrange(pos as int, end)[i] == v.enc()[i]);
                                assert(v.enc()[i] == pv[i]);
                            }
                        }
                        assert(bytes@.subrange(pos as int, pos as int + 8) == len64.enc());
                        assert(spec_u64_from_le_bytes(pv) == ev.len() as u64);
                        assert(len64 == ev.len() as u64);
                        assert(ev.len() < len_limit()) by {
                            if ev.len() >= len_limit() {
                                assert(v.enc().len() >= 8 + len_limit());
                                assert(end - pos <= bytes@.len());
                            }
                        }
                        assert(len64 == ev.len());
                        assert(end == pos + 8 + ev.len());
                        assert(end > bytes@.len());
                    }
                }
            }
            return Option::None;
        }
        let content_len = len64 as usize;
        let content = vstd::slice::slice_to_vec(&bytes[after_len..after_len + content_len]);
        proof {
            assert(content@ =~= bytes@.subrange(
                after_len as int,
                after_len as int + content_len as int,
            ));
        }
        match bytes_to_string(content) {
            Option::Some(s) => {
                proof {
                    let cb = bytes@.subrange(after_len as int, after_len as int + content_len as int);
                    vstd::utf8::decode_utf8_encode_utf8(cb);
                    assert(encode_utf8(s@) == cb);
                    lemma_concat_parts(spec_u64_to_le_bytes(encode_utf8(s@).len() as u64), encode_utf8(s@));
                    assert(s.enc() =~= bytes@.subrange(pos as int, after_len as int + content_len as int)) by {
                        assert(encode_utf8(s@).len() == content_len);
                        assert(spec_u64_to_le_bytes(encode_utf8(s@).len() as u64) == len64.enc());
                        assert(bytes@.subrange(pos as int, after_len as int) == len64.enc());
                        assert forall|i: int|
                            0 <= i < 8 + content_len implies s.enc()[i] == bytes@.subrange(
                            pos as int,
                            after_len as int + content_len as int,
                        )[i] by {
                            if i < 8 {
                                assert(s.enc()[i] == len64.enc()[i]);
                                assert(len64.enc()[i] == bytes@.subrange(pos as int, after_len as int)[i]);
                                assert(bytes@.subrange(pos as int, after_len as int)[i] == bytes@[pos + i]);
                            } else {
                                assert(s.enc()[i] == encode_utf8(s@)[i - 8]);
                                assert(encode_utf8(s@)[i - 8] == cb[i - 8]);
                                assert(cb[i - 8] == bytes@[after_len + (i - 8)]);
                            }
                        }
                    }
                }
                Option::Some((s, after_len + content_len))
            },
            Option::None => {
                proof {
                    let cb = bytes@.subrange(after_len as int, after_len as int + content_len as int);
                    assert forall|v: String, end: int|
                        #![trigger v.enc(), bytes@.subrange(pos as int, end)]
                        pos <= end <= bytes@.len() implies bytes@.subrange(pos as int, end)
                        != v.enc() by {
                        if bytes@.subrange(pos as int, end) == v.enc() {
                            let ev = encode_utf8(v@);
                            let pv = spec_u64_to_le_bytes(ev.len() as u64);
                            lemma_concat_parts(pv, ev);
                            assert(end - pos == 8 + ev.len());
                            assert(bytes@.subrange(pos as int, pos as int + 8) =~= pv) by {
                                assert forall|i: int| 0 <= i < 8 implies bytes@.subrange(
                                    pos as int,
                                    pos as int + 8,
                                )[i] == pv[i] by {
                                    assert(bytes@.subrange(pos as int, end)[i] == v.enc()[i]);
                                    assert(v.enc()[i] == pv[i]);
                                }
                            }
                            assert(bytes@.subrange(pos as int, pos as int + 8) == len64.enc());
                            assert(spec_u64_from_le_bytes(pv) == ev.len() as u64);
                            assert(ev.len() < len_limit()) by {
                                if ev.len() >= len_limit() {
                                    assert(v.enc().len() >= 8 + len_limit());
                                    assert(end - pos <= bytes@.len());
                                }
                            }
                            assert(len64 == ev.len());
                            assert(end == pos + 8 + ev.len());
                            assert(ev =~= cb) by {
                                assert forall|i: int| 0 <= i < ev.len() implies ev[i] == cb[i] by {
                                    assert(v.enc()[8 + i] == ev[i]);
                                    assert(bytes@.subrange(pos as int, end)[8 + i] == bytes@[pos + 8 + i]);
                                    assert(cb[i] == bytes@[after_len + i]);
                                }
                            }
                            vstd::utf8::encode_utf8_valid_utf8(v@);
                            assert(valid_utf8(cb));
                        }
                    }
                }
                Option::None
            },
        }
    }
}

/// The encoding of a counted list: an eight-byte count followed by
/// the elements' encodings.
pub open spec fn enc_seq<T: Codec>(s: Seq<T>) -> Seq<u8> {
    spec_u64_to_le_bytes(s.len() as u64) + enc_list(s)
}

/// The concatenated encodings of a sequence of values.
pub open spec fn enc_list<T: Codec>(s: Seq<T>) -> Seq<u8>
    decreases s.len(),
{
    if s.len() == 0 {
        Seq::empty()
    } else {
        s[0].enc() + enc_list(s.drop_first())
    }
}

/// The models of a sequence of values.
pub open spec fn list_models<T: Codec>(s: Seq<T>) -> Seq<T::Model> {
    s.map_values(|t: T| t.m())
}

/// Every element of a sequence is well-formed.
pub open spec fn list_wf<T: Codec>(s: Seq<T>) -> bool {
    forall|i: int| 0 <= i < s.len() ==> (#[trigger] s[i]).enc_wf()
}

/// A list encoding is at least as long as the list, and bounds each
/// element's encoding.
pub proof fn lemma_enc_list_len<T: Codec>(s: Seq<T>)
    ensures
        enc_list(s).len() >= s.len(),
        forall|i: int| 0 <= i < s.len() ==> (#[trigger] s[i]).enc().len() <= enc_list(s).len(),
    decreases s.len(),
{
    if s.len() == 0 {
    } else {
        T::lemma_enc_len(s[0]);
        lemma_enc_list_len(s.drop_first());
        assert forall|i: int|
            0 <= i < s.len() implies (#[trigger] s[i]).enc().len() <= enc_list(s).len() by {
            if i > 0 {
                assert(s.drop_first()[i - 1] == s[i]);
            }
        }
        assert forall|i: int| 0 <= i < s.drop_first().len() implies (#[trigger] s.drop_first()[i]).enc().len() >= 1 by {
            T::lemma_enc_len(s.drop_first()[i]);
        }
    }
}

/// List encoding distributes over concatenation.
pub proof fn lemma_enc_list_concat<T: Codec>(x: Seq<T>, y: Seq<T>)
    ensures
        enc_list(x + y) == enc_list(x) + enc_list(y),
    decreases x.len(),
{
    if x.len() == 0 {
        assert(x + y =~= y);
        assert(Seq::<u8>::empty() + enc_list(y) =~= enc_list(y));
    } else {
        assert((x + y).drop_first() =~= x.drop_first() + y);
        lemma_enc_list_concat(x.drop_first(), y);
        assert((x + y)[0] == x[0]);
        assert(enc_list(x + y) == x[0].enc() + (enc_list(x.drop_first()) + enc_list(y)));
        assert(x[0].enc() + (enc_list(x.drop_first()) + enc_list(y)) =~= (x[0].enc() + enc_list(
            x.drop_first(),
        )) + enc_list(y));
    }
}

/// Appending one value appends its encoding.
pub proof fn lemma_enc_list_push<T: Codec>(s: Seq<T>, v: T)
    ensures
        enc_list(s.push(v)) == enc_list(s) + v.enc(),
{
    let single = seq![v];
    assert(s.push(v) =~= s + single);
    lemma_enc_list_concat(s, single);
    assert(single.len() == 1);
    assert(single[0] == v);
    assert(single.drop_first() =~= Seq::<T>::empty());
    assert(enc_list(single.drop_first()) == Seq::<u8>::empty());
    assert(enc_list(single) == v.enc() + Seq::<u8>::empty());
    assert(v.enc() + Seq::<u8>::empty() =~= v.enc());
}

/// Prefix-freeness lifts to lists of one length: equal concatenations
/// force equal models and equal tails.
pub proof fn lemma_enc_list_prefix_free<T: Codec>(s1: Seq<T>, s2: Seq<T>, r1: Seq<u8>, r2: Seq<u8>)
    requires
        s1.len() == s2.len(),
        list_wf(s1),
        list_wf(s2),
        enc_list(s1) + r1 == enc_list(s2) + r2,
    ensures
        list_models(s1) == list_models(s2),
        enc_list(s1) == enc_list(s2),
        r1 == r2,
    decreases s1.len(),
{
    if s1.len() == 0 {
        assert(Seq::<u8>::empty() + r1 =~= r1);
        assert(Seq::<u8>::empty() + r2 =~= r2);
        assert(list_models(s1) =~= list_models(s2));
    } else {
        let t1 = enc_list(s1.drop_first()) + r1;
        let t2 = enc_list(s2.drop_first()) + r2;
        assert(s1[0].enc() + t1 =~= enc_list(s1) + r1);
        assert(s2[0].enc() + t2 =~= enc_list(s2) + r2);
        T::lemma_enc_prefix_free(s1[0], s2[0], t1, t2);
        assert(list_wf(s1.drop_first())) by {
            assert forall|i: int|
                0 <= i < s1.drop_first().len() implies (#[trigger] s1.drop_first()[i]).enc_wf() by {
                assert(s1.drop_first()[i] == s1[i + 1]);
            }
        }
        assert(list_wf(s2.drop_first())) by {
            assert forall|i: int|
                0 <= i < s2.drop_first().len() implies (#[trigger] s2.drop_first()[i]).enc_wf() by {
                assert(s2.drop_first()[i] == s2[i + 1]);
            }
        }
        lemma_enc_list_prefix_free(s1.drop_first(), s2.drop_first(), r1, r2);
        assert(list_models(s1) =~= list_models(s2)) by {
            assert forall|i: int|
                0 <= i < s1.len() implies list_models(s1)[i] == list_models(s2)[i] by {
                if i > 0 {
                    assert(list_models(s1.drop_first())[i - 1] == list_models(s2.drop_first())[i
                        - 1]);
                    assert(s1.drop_first()[i - 1] == s1[i]);
                    assert(s2.drop_first()[i - 1] == s2[i]);
                }
            }
        }
        assert(enc_list(s1) =~= enc_list(s2)) by {
            assert(enc_list(s1.drop_first()) == enc_list(s2.drop_first()));
        }
    }
}

impl<T: Codec> Codec for Vec<T> {
    type Model = Seq<T::Model>;

    open spec fn m(&self) -> Seq<T::Model> {
        list_models(self@)
    }

    open spec fn enc(&self) -> Seq<u8> {
        enc_seq(self@)
    }

    open spec fn enc_wf(&self) -> bool {
        self@.len() < len_limit() && list_wf(self@)
    }

    proof fn lemma_enc_of_model(a: Self, b: Self) {
        let ghost am = list_models(a@);
        assert(a@.len() == am.len());
        assert(b@.len() == list_models(b@).len());
        assert(enc_list(a@) == enc_list(b@) && (list_wf(a@) <==> list_wf(b@))) by {
            lemma_enc_list_of_models(a@, b@);
        }
    }

    proof fn lemma_enc_len(a: Self) {
        lemma_auto_spec_u64_to_from_le_bytes();
        lemma_concat_parts(spec_u64_to_le_bytes(a@.len() as u64), enc_list(a@));
        lemma_enc_list_len(a@);
        if a.enc().len() < len_limit() {
            assert forall|i: int| 0 <= i < a@.len() implies (#[trigger] a@[i]).enc_wf() by {
                T::lemma_enc_len(a@[i]);
            }
        }
    }

    proof fn lemma_enc_prefix_free(a: Self, b: Self, ra: Seq<u8>, rb: Seq<u8>) {
        lemma_auto_spec_u64_to_from_le_bytes();
        let pa = spec_u64_to_le_bytes(a@.len() as u64);
        let pb = spec_u64_to_le_bytes(b@.len() as u64);
        lemma_concat_parts(pa, enc_list(a@));
        lemma_concat_parts(pb, enc_list(b@));
        assert(pa =~= pb) by {
            assert forall|i: int| 0 <= i < 8 implies pa[i] == pb[i] by {
                assert((a.enc() + ra)[i] == a.enc()[i]);
                assert((b.enc() + rb)[i] == b.enc()[i]);
                assert(a.enc()[i] == pa[i]);
                assert(b.enc()[i] == pb[i]);
            }
        }
        assert(spec_u64_from_le_bytes(pa) == spec_u64_from_le_bytes(pb));
        assert(a@.len() == b@.len());
        let ta = enc_list(a@) + ra;
        let tb = enc_list(b@) + rb;
        assert(ta =~= tb) by {
            assert((a.enc() + ra).len() == 8 + enc_list(a@).len() + ra.len());
            assert((b.enc() + rb).len() == 8 + enc_list(b@).len() + rb.len());
            assert forall|i: int| 0 <= i < ta.len() implies ta[i] == tb[i] by {
                assert((a.enc() + ra)[8 + i] == ta[i]) by {
                    if i < enc_list(a@).len() {
                        assert((a.enc() + ra)[8 + i] == a.enc()[8 + i]);
                        assert(a.enc()[8 + i] == enc_list(a@)[i]);
                    } else {
                        assert((a.enc() + ra)[8 + i] == ra[i - enc_list(a@).len()]);
                    }
                }
                assert((b.enc() + rb)[8 + i] == tb[i]) by {
                    if i < enc_list(b@).len() {
                        assert((b.enc() + rb)[8 + i] == b.enc()[8 + i]);
                        assert(b.enc()[8 + i] == enc_list(b@)[i]);
                    } else {
                        assert((b.enc() + rb)[8 + i] == rb[i - enc_list(b@).len()]);
                    }
                }
            }
        }
        lemma_enc_list_prefix_free(a@, b@, ra, rb);
        assert(a.enc() =~= b.enc());
    }

    fn encode_into(&self, out: &mut Vec<u8>) {
        proof {
            lemma_auto_spec_u64_to_from_le_bytes();
        }
        let len_bytes = u64_to_le_bytes(self.len() as u64);
        out.extend_from_slice(len_bytes.as_slice());
        let ghost base = out@;
        proof {
            assert(base =~= old(out)@ + spec_u64_to_le_bytes(self@.len() as u64));
            assert(enc_list(self@.take(0)) =~= Seq::<u8>::empty());
            assert(base + enc_list(self@.take(0)) =~= base);
        }
        let mut i: usize = 0;
        while i < self.len()
            invariant
                i <= self@.len(),
                out@ == base + enc_list(self@.take(i as int)),
                forall|j: int| 0 <= j < i ==> (#[trigger] self@[j]).enc_wf(),
            decreases self@.len() - i,
        {
            let elem = &self[i];
            elem.encode_into(out);
            proof {
                assert(self@.take(i + 1) =~= self@.take(i as int).push(self@[i as int]));
                lemma_enc_list_push(self@.take(i as int), self@[i as int]);
                assert(out@ =~= base + enc_list(self@.take(i + 1)));
            }
            i += 1;
        }
        proof {
            assert(self@.take(self@.len() as int) =~= self@);
            assert(out@ =~= old(out)@ + self.enc());
        }
    }

    fn decode(bytes: &[u8], pos: usize) -> (r: Option<(Self, usize)>) {
        match decode_list::<T>(bytes, pos) {
            Option::Some(p) => Option::Some(p),
            Option::None => {
                proof {
                    assert forall|v: Self, end: int|
                        #![trigger v.enc(), bytes@.subrange(pos as int, end)]
                        pos <= end <= bytes@.len() implies bytes@.subrange(pos as int, end)
                        != v.enc() by {
                        assert(v.enc() == enc_seq(v@));
                        assert(bytes@.subrange(pos as int, end) != enc_seq(v@));
                    }
                }
                Option::None
            },
        }
    }
}

/// Decode one counted list whose encoding starts at `pos`.  Fails
/// exactly when no counted list encoding starts there.
pub fn decode_list<T: Codec>(bytes: &[u8], pos: usize) -> (r: Option<(Vec<T>, usize)>)
    requires
        pos <= bytes@.len(),
    ensures
        match r {
            Option::Some(p) => {
                &&& pos <= p.1 <= bytes@.len()
                &&& bytes@.subrange(pos as int, p.1 as int) == enc_seq(p.0@)
                &&& list_wf(p.0@)
                &&& p.0@.len() < len_limit()
            },
            Option::None => forall|s: Seq<T>, end: int|
                #![trigger enc_seq(s), bytes@.subrange(pos as int, end)]
                pos <= end <= bytes@.len() ==> bytes@.subrange(pos as int, end) != enc_seq(s),
        },
{
        proof {
            lemma_auto_spec_u64_to_from_le_bytes();
        }
        let prefix = match <u64 as Codec>::decode(bytes, pos) {
            Option::Some(p) => p,
            Option::None => {
                proof {
                    assert forall|s: Seq<T>, end: int|
                        #![trigger enc_seq(s), bytes@.subrange(pos as int, end)]
                        pos <= end <= bytes@.len() implies bytes@.subrange(pos as int, end)
                        != enc_seq(s) by {
                        if bytes@.subrange(pos as int, end) == enc_seq(s) {
                            let pv = spec_u64_to_le_bytes(s.len() as u64);
                            lemma_concat_parts(pv, enc_list(s));
                            let u: u64 = s.len() as u64;
                            assert(end - pos >= 8);
                            assert(bytes@.subrange(pos as int, pos as int + 8) =~= u.enc()) by {
                                assert forall|i: int| 0 <= i < 8 implies bytes@.subrange(
                                    pos as int,
                                    pos as int + 8,
                                )[i] == u.enc()[i] by {
                                    assert(bytes@.subrange(pos as int, end)[i] == enc_seq(s)[i]);
                                    assert(enc_seq(s)[i] == pv[i]);
                                }
                            }
                        }
                    }
                }
                return Option::None;
            },
        };
        let (cnt64, start) = prefix;
        let total = bytes.len();
        proof {
            assert(total == bytes@.len());
            assert(total as int <= usize::MAX as int);
            assert(bytes@.len() < len_limit());
        }
        let ghost all_base: int = start as int;
        let mut out: Vec<T> = Vec::new();
        let mut cur: usize = start;
        let mut k: u64 = 0;
        proof {
            assert(enc_list(out@) =~= Seq::<u8>::empty());
            assert(bytes@.subrange(all_base, cur as int) =~= Seq::<u8>::empty());
        }
        while k < cnt64
            invariant
                pos <= bytes@.len(),
                bytes@.len() < len_limit(),
                pos + 8 == all_base <= cur <= bytes@.len(),
                cur as int - all_base >= out@.len(),
                out@.len() == k,
                k <= cnt64,
                bytes@.subrange(pos as int, all_base) == cnt64.enc(),
                enc_list(out@) == bytes@.subrange(all_base, cur as int),
                list_wf(out@),
            decreases cnt64 - k,
        {
            match T::decode(bytes, cur) {
                Option::Some((v, nxt)) => {
                    proof {
                        lemma_enc_list_push(out@, v);
                        assert(enc_list(out@.push(v)) =~= bytes@.subrange(all_base, nxt as int))
                            by {
                            lemma_concat_parts(
                                bytes@.subrange(all_base, cur as int),
                                bytes@.subrange(cur as int, nxt as int),
                            );
                            assert(bytes@.subrange(all_base, cur as int) + bytes@.subrange(
                                cur as int,
                                nxt as int,
                            ) =~= bytes@.subrange(all_base, nxt as int));
                        }
                        T::lemma_enc_len(v);
                    }
                    out.push(v);
                    cur = nxt;
                },
                Option::None => {
                    proof {
                        assert(bytes@.len() < len_limit());
                        lemma_list_decode_incomplete::<T>(bytes@, pos as int, all_base, cur as int, cnt64, out@);
                    }
                    return Option::None;
                },
            }
            k = k + 1;
        }
        proof {
            assert(out@.len() == cnt64);
            assert(enc_seq(out@) =~= bytes@.subrange(pos as int, cur as int)) by {
                lemma_concat_parts(cnt64.enc(), enc_list(out@));
                assert(spec_u64_to_le_bytes(out@.len() as u64) == cnt64.enc());
                assert(cnt64.enc() + enc_list(out@) =~= bytes@.subrange(pos as int, cur as int));
            }
        }
        Option::Some((out, cur))
    }
/// When decoding a list element fails, no list encoding of the
/// expected count can fill any window that starts at `pos`.
proof fn lemma_list_decode_incomplete<T: Codec>(
    bytes: Seq<u8>,
    pos: int,
    base: int,
    cur: int,
    cnt: u64,
    done: Seq<T>,
)
    requires
        0 <= pos,
        bytes.len() < len_limit(),
        pos + 8 == base <= cur <= bytes.len(),
        bytes.subrange(pos, base) == cnt.enc(),
        enc_list(done) == bytes.subrange(base, cur),
        list_wf(done),
        done.len() < cnt,
        forall|v: T, end: int|
            #![trigger v.enc(), bytes.subrange(cur, end)]
            cur <= end <= bytes.len() ==> bytes.subrange(cur, end) != v.enc(),
    ensures
        forall|s2: Seq<T>, end: int|
            #![trigger enc_seq(s2), bytes.subrange(pos, end)]
            pos <= end <= bytes.len() ==> bytes.subrange(pos, end) != enc_seq(s2),
{
    lemma_auto_spec_u64_to_from_le_bytes();
    assert forall|s2: Seq<T>, end: int|
        #![trigger enc_seq(s2), bytes.subrange(pos, end)]
        pos <= end <= bytes.len() implies bytes.subrange(pos, end) != enc_seq(s2) by {
        if bytes.subrange(pos, end) == enc_seq(s2) {
            let pv = spec_u64_to_le_bytes(s2.len() as u64);
            lemma_concat_parts(pv, enc_list(s2));
            assert(end - pos == 8 + enc_list(s2).len());
            assert(bytes.subrange(pos, pos + 8) =~= pv) by {
                assert forall|i: int| 0 <= i < 8 implies bytes.subrange(pos, pos + 8)[i]
                    == pv[i] by {
                    assert(bytes.subrange(pos, end)[i] == enc_seq(s2)[i]);
                    assert(enc_seq(s2)[i] == pv[i]);
                }
            }
            assert(spec_u64_from_le_bytes(pv) == s2.len() as u64);
            lemma_enc_list_len(s2);
            assert(s2.len() < len_limit()) by {
                if s2.len() >= len_limit() {
                    assert(enc_list(s2).len() >= len_limit());
                }
            }
            assert(s2.len() == cnt);
            // The whole element area decomposes both as the decoded
            // prefix plus the unread tail and as the encodings of the
            // hypothetical list's elements.
            assert(enc_list(s2) =~= bytes.subrange(base, end)) by {
                assert forall|i: int| 0 <= i < enc_list(s2).len() implies enc_list(s2)[i]
                    == bytes.subrange(base, end)[i] by {
                    assert(enc_seq(s2)[8 + i] == enc_list(s2)[i]);
                    assert(bytes.subrange(pos, end)[8 + i] == bytes[pos + 8 + i]);
                }
            }
            let k = done.len() as int;
            let head = s2.take(k);
            let tail = s2.skip(k);
            assert(s2 =~= head + tail);
            lemma_enc_list_concat(head, tail);
            assert(list_wf(head) && list_wf(tail)) by {
                lemma_enc_list_len(s2);
                assert(enc_list(s2).len() < len_limit());
                assert forall|i: int| 0 <= i < s2.len() implies (#[trigger] s2[i]).enc_wf() by {
                    assert(s2[i].enc().len() <= enc_list(s2).len());
                    T::lemma_enc_len(s2[i]);
                }
                assert forall|i: int| 0 <= i < head.len() implies (#[trigger] head[i]).enc_wf() by {
                    assert(head[i] == s2[i]);
                }
                assert forall|i: int| 0 <= i < tail.len() implies (#[trigger] tail[i]).enc_wf() by {
                    assert(tail[i] == s2[k + i]);
                }
            }
            // Align the decoded prefix with the hypothetical head over
            // the window that runs to the end of the buffer.
            let whole = bytes.len() as int;
            assert(enc_list(done) + bytes.subrange(cur, whole) =~= bytes.subrange(base, whole)) by {
                assert forall|i: int|
                    0 <= i < whole - base implies (enc_list(done) + bytes.subrange(cur, whole))[i]
                    == bytes.subrange(base, whole)[i] by {
                    if i < enc_list(done).len() {
                        assert(enc_list(done)[i] == bytes.subrange(base, cur)[i]);
                    }
                }
            }
            assert(enc_list(head) + (enc_list(tail) + bytes.subrange(end, whole)) =~= bytes.subrange(
                base,
                whole,
            )) by {
                assert forall|i: int|
                    0 <= i < whole - base implies (enc_list(head) + (enc_list(tail)
                    + bytes.subrange(end, whole)))[i] == bytes.subrange(base, whole)[i] by {
                    if i < enc_list(s2).len() {
                        assert(enc_list(s2)[i] == bytes.subrange(base, end)[i]);
                        assert((enc_list(head) + enc_list(tail))[i] == enc_list(s2)[i]);
                    }
                }
            }
            lemma_enc_list_prefix_free(
                done,
                head,
                bytes.subrange(cur, whole),
                enc_list(tail) + bytes.subrange(end, whole),
            );
            assert(bytes.subrange(cur, whole) == enc_list(tail) + bytes.subrange(end, whole));
            // The tail is nonempty, so its first element's encoding
            // sits right at the failing position.
            assert(tail.len() > 0);
            let first = tail[0];
            assert(enc_list(tail) == first.enc() + enc_list(tail.drop_first()));
            let fe = cur + first.enc().len();
            assert(fe <= bytes.len()) by {
                assert((enc_list(tail) + bytes.subrange(end, whole)).len() == whole - cur);
                assert(first.enc().len() <= enc_list(tail).len()) by {
                    lemma_enc_list_len(tail);
                }
            }
            assert(bytes.subrange(cur, fe) =~= first.enc()) by {
                assert forall|i: int| 0 <= i < first.enc().len() implies bytes.subrange(cur, fe)[i]
                    == first.enc()[i] by {
                    assert(bytes.subrange(cur, whole)[i] == (enc_list(tail) + bytes.subrange(
                        end,
                        whole,
                    ))[i]);
                    assert((first.enc() + enc_list(tail.drop_first()))[i] == first.enc()[i]);
                    assert(enc_list(tail)[i] == first.enc()[i]);
                    assert((enc_list(tail) + bytes.subrange(end, whole))[i] == enc_list(tail)[i]);
                    assert(bytes.subrange(cur, whole)[i] == bytes[cur + i]);
                }
            }
            assert(bytes.subrange(cur, fe) != first.enc());
        }
    }
}

impl<A: Codec, B: Codec> Codec for (A, B) {
    type Model = (A::Model, B::Model);

    open spec fn m(&self) -> (A::Model, B::Model) {
        (self.0.m(), self.1.m())
    }

    open spec fn enc(&self) -> Seq<u8> {
        self.0.enc() + self.1.enc()
    }

    open spec fn enc_wf(&self) -> bool {
        self.0.enc_wf() && self.1.enc_wf()
    }

    proof fn lemma_enc_of_model(a: Self, b: Self) {
        A::lemma_enc_of_model(a.0, b.0);
        B::lemma_enc_of_model(a.1, b.1);
    }

    proof fn lemma_enc_len(a: Self) {
        A::lemma_enc_len(a.0);
        B::lemma_enc_len(a.1);
        lemma_concat_parts(a.0.enc(), a.1.enc());
        if a.enc().len() < len_limit() {
            assert(a.0.enc().len() < len_limit());
            assert(a.1.enc().len() < len_limit());
        }
    }

    proof fn lemma_enc_prefix_free(a: Self, b: Self, ra: Seq<u8>, rb: Seq<u8>) {
        assert(a.0.enc() + (a.1.enc() + ra) =~= a.enc() + ra);
        assert(b.0.enc() + (b.1.enc() + rb) =~= b.enc() + rb);
        A::lemma_enc_prefix_free(a.0, b.0, a.1.enc() + ra, b.1.enc() + rb);
        B::lemma_enc_prefix_free(a.1, b.1, ra, rb);
        assert(a.enc() =~= b.enc());
    }

    fn encode_into(&self, out: &mut Vec<u8>) {
        self.0.encode_into(out);
        self.1.encode_into(out);
        proof {
            assert(out@ =~= old(out)@ + self.enc());
        }
    }

    fn decode(bytes: &[u8], pos: usize) -> (r: Option<(Self, usize)>) {
        let total = bytes.len();
        proof {
            assert(total == bytes@.len());
            assert(bytes@.len() < len_limit());
        }
        let first = match A::decode(bytes, pos) {
            Option::Some(p) => p,
            Option::None => {
                proof {
                    assert forall|v: Self, end: int|
                        #![trigger v.enc(), bytes@.subrange(pos as int, end)]
                        pos <= end <= bytes@.len() implies bytes@.subrange(pos as int, end)
                        != v.enc() by {
                        if bytes@.subrange(pos as int, end) == v.enc() {
                            lemma_concat_parts(v.0.enc(), v.1.enc());
                            let fe = pos + v.0.enc().len();
                            assert(fe <= end);
                            assert(bytes@.subrange(pos as int, fe) =~= v.0.enc()) by {
                                assert forall|i: int|
                                    0 <= i < v.0.enc().len() implies bytes@.subrange(
                                    pos as int,
                                    fe,
                                )[i] == v.0.enc()[i] by {
                                    assert(bytes@.subrange(pos as int, end)[i] == v.enc()[i]);
                                    assert(v.enc()[i] == v.0.enc()[i]);
                                }
                            }
                            assert(bytes@.subrange(pos as int, fe) != v.0.enc());
                        }
                    }
                }
                return Option::None;
            },
        };
        let (x, mid) = first;
        let second = match B::decode(bytes, mid) {
            Option::Some(p) => p,
            Option::None => {
                proof {
                    assert forall|v: Self, end: int|
                        #![trigger v.enc(), bytes@.subrange(pos as int, end)]
                        pos <= end <= bytes@.len() implies bytes@.subrange(pos as int, end)
                        != v.enc() by {
                        if bytes@.subrange(pos as int, end) == v.enc() {
                            lemma_concat_parts(v.0.enc(), v.1.enc());
                            let whole = bytes@.len() as int;
                            assert(v.0.enc().len() < len_limit() && v.1.enc().len() < len_limit())
                                by {
                                A::lemma_enc_len(v.0);
                                B::lemma_enc_len(v.1);
                            }
                            assert(v.0.enc_wf() && v.1.enc_wf()) by {
                                A::lemma_enc_len(v.0);
                                B::lemma_enc_len(v.1);
                            }
                            assert(x.enc() + bytes@.subrange(mid as int, whole) =~= v.0.enc() + (
                            v.1.enc() + bytes@.subrange(end, whole))) by {
                                assert(x.enc() == bytes@.subrange(pos as int, mid as int));
                                assert forall|i: int|
                                    0 <= i < whole - pos implies (x.enc() + bytes@.subrange(
                                    mid as int,
                                    whole,
                                ))[i] == (v.0.enc() + (v.1.enc() + bytes@.subrange(end, whole)))[
                                i] by {
                                    assert((x.enc() + bytes@.subrange(mid as int, whole))[i]
                                        == bytes@[pos + i]) by {
                                        if i < x.enc().len() {
                                            assert(x.enc()[i] == bytes@.subrange(
                                                pos as int,
                                                mid as int,
                                            )[i]);
                                        }
                                    }
                                    assert((v.0.enc() + (v.1.enc() + bytes@.subrange(end, whole)))[
                                    i] == bytes@[pos + i]) by {
                                        if i < v.enc().len() {
                                            assert((v.0.enc() + v.1.enc())[i] == v.enc()[i]);
                                            assert(v.enc()[i] == bytes@.subrange(pos as int, end)[
                                            i]);
                                        }
                                    }
                                }
                            }
                            A::lemma_enc_prefix_free(
                                x,
                                v.0,
                                bytes@.subrange(mid as int, whole),
                                v.1.enc() + bytes@.subrange(end, whole),
                            );
                            assert(bytes@.subrange(mid as int, whole) == v.1.enc()
                                + bytes@.subrange(end, whole));
                            lemma_concat_parts(v.1.enc(), bytes@.subrange(end, whole));
                            let se = mid + v.1.enc().len();
                            assert(se <= whole);
                            assert(bytes@.subrange(mid as int, se) =~= v.1.enc()) by {
                                assert forall|i: int|
                                    0 <= i < v.1.enc().len() implies bytes@.subrange(
                                    mid as int,
                                    se,
                                )[i] == v.1.enc()[i] by {
                                    assert(bytes@.subrange(mid as int, whole)[i] == (v.1.enc()
                                        + bytes@.subrange(end, whole))[i]);
                                    assert(bytes@.subrange(mid as int, whole)[i] == bytes@[mid + i]);
                                }
                            }
                            assert(bytes@.subrange(mid as int, se) != v.1.enc());
                        }
                    }
                }
                return Option::None;
            },
        };
        let (y, fin) = second;
        let v = (x, y);
        proof {
            assert(v.enc() =~= bytes@.subrange(pos as int, fin as int)) by {
                lemma_concat_parts(x.enc(), y.enc());
                assert forall|i: int|
                    0 <= i < v.enc().len() implies v.enc()[i] == bytes@.subrange(
                    pos as int,
                    fin as int,
                )[i] by {
                    if i < x.enc().len() {
                        assert(v.enc()[i] == x.enc()[i]);
                        assert(x.enc()[i] == bytes@.subrange(pos as int, mid as int)[i]);
                    } else {
                        assert(v.enc()[i] == y.enc()[i - x.enc().len()]);
                        assert(y.enc()[i - x.enc().len()] == bytes@.subrange(
                            mid as int,
                            fin as int,
                        )[i - x.enc().len()]);
                    }
                }
            }
        }
        Option::Some((v, fin))
    }
}

impl<T: Codec> Codec for Option<T> {
    type Model = Option<T::Model>;

    open spec fn m(&self) -> Option<T::Model> {
        match self {
            Option::None => Option::None,
            Option::Some(t) => Option::Some(t.m()),
        }
    }

    open spec fn enc(&self) -> Seq<u8> {
        match self {
            Option::None => seq![0u8],
            Option::Some(t) => seq![1u8] + t.enc(),
        }
    }

    open spec fn enc_wf(&self) -> bool {
        match self {
            Option::None => true,
            Option::Some(t) => t.enc_wf(),
        }
    }

    proof fn lemma_enc_of_model(a: Self, b: Self) {
        match (a, b) {
            (Option::Some(x), Option::Some(y)) => {
                T::lemma_enc_of_model(x, y);
            },
            _ => {},
        }
    }

    proof fn lemma_enc_len(a: Self) {
        match a {
            Option::None => {},
            Option::Some(t) => {
                T::lemma_enc_len(t);
                lemma_concat_parts(seq![1u8], t.enc());
            },
        }
    }

    proof fn lemma_enc_prefix_free(a: Self, b: Self, ra: Seq<u8>, rb: Seq<u8>) {
        assert((a.enc() + ra)[0] == (b.enc() + rb)[0]);
        assert(a.enc()[0] == (a.enc() + ra)[0]) by {
            T::lemma_enc_len(arbitrary());
        }
        match (a, b) {
            (Option::None, Option::None) => {
                assert(a.enc().len() == 1 && b.enc().len() == 1);
                assert(ra =~= rb) by {
                    assert((a.enc() + ra).len() == 1 + ra.len());
                    assert((b.enc() + rb).len() == 1 + rb.len());
                    assert forall|i: int| 0 <= i < ra.len() implies ra[i] == rb[i] by {
                        assert((a.enc() + ra)[1 + i] == ra[i]);
                        assert((b.enc() + rb)[1 + i] == rb[i]);
                    }
                }
            },
            (Option::Some(x), Option::Some(y)) => {
                assert(a.enc()[0] == 1u8 && b.enc()[0] == 1u8);
                assert(x.enc() + ra =~= y.enc() + rb) by {
                    assert((a.enc() + ra).len() == 1 + x.enc().len() + ra.len()) by {
                        lemma_concat_parts(seq![1u8], x.enc());
                    }
                    assert((b.enc() + rb).len() == 1 + y.enc().len() + rb.len()) by {
                        lemma_concat_parts(seq![1u8], y.enc());
                    }
                    assert forall|i: int|
                        0 <= i < (x.enc() + ra).len() implies (x.enc() + ra)[i] == (y.enc() + rb)[
                    i] by {
                        assert((a.enc() + ra)[1 + i] == (x.enc() + ra)[i]) by {
                            if i < x.enc().len() {
                                assert(a.enc()[1 + i] == (seq![1u8] + x.enc())[1 + i]);
                            }
                        }
                        assert((b.enc() + rb)[1 + i] == (y.enc() + rb)[i]) by {
                            if i < y.enc().len() {
                                assert(b.enc()[1 + i] == (seq![1u8] + y.enc())[1 + i]);
                            }
                        }
                    }
                }
                T::lemma_enc_prefix_free(x, y, ra, rb);
                assert(a.enc() =~= b.enc());
            },
            (Option::None, Option::Some(y)) => {
                assert(b.enc()[0] == 1u8);
                assert(a.enc()[0] == 0u8);
                assert(b.enc()[0] == (b.enc() + rb)[0]);
            },
            (Option::Some(x), Option::None) => {
                assert(a.enc()[0] == 1u8);
                assert(b.enc()[0] == 0u8);
                assert(b.enc()[0] == (b.enc() + rb)[0]);
            },
        }
    }

    fn encode_into(&self, out: &mut Vec<u8>) {
        match self {
            Option::None => {
                out.push(0u8);
                proof {
                    assert(out@ =~= old(out)@ + self.enc());
                }
            },
            Option::Some(t) => {
                out.push(1u8);
                t.encode_into(out);
                proof {
                    assert(out@ =~= old(out)@ + self.enc());
                }
            },
        }
    }

    fn decode(bytes: &[u8], pos: usize) -> (r: Option<(Self, usize)>) {
        if pos == bytes.len() {
            proof {
                assert forall|v: Self, end: int|
                    #![trigger v.enc(), bytes@.subrange(pos as int, end)]
                    pos <= end <= bytes@.len() implies bytes@.subrange(pos as int, end)
                    != v.enc() by {
                    assert(v.enc().len() >= 1) by {
                        match v {
                            Option::None => {},
                            Option::Some(t) => {
                                T::lemma_enc_len(t);
                            },
                        }
                    }
                    assert(bytes@.subrange(pos as int, end).len() == end - pos);
                }
            }
            return Option::None;
        }
        let tag = bytes[pos];
        if tag == 0u8 {
            let v: Option<T> = Option::None;
            proof {
                assert(v.enc() =~= bytes@.subrange(pos as int, pos as int + 1));
            }
            Option::Some((v, pos + 1))
        } else if tag == 1u8 {
            match T::decode(bytes, pos + 1) {
                Option::Some((t, end)) => {
                    let v = Option::Some(t);
                    proof {
                        assert(v.enc() =~= bytes@.subrange(pos as int, end as int)) by {
                            lemma_concat_parts(seq![1u8], t.enc());
                            assert forall|i: int|
                                0 <= i < v.enc().len() implies v.enc()[i] == bytes@.subrange(
                                pos as int,
                                end as int,
                            )[i] by {
                                if i >= 1 {
                                    assert(v.enc()[i] == t.enc()[i - 1]);
                                    assert(t.enc()[i - 1] == bytes@.subrange(
                                        pos as int + 1,
                                        end as int,
                                    )[i - 1]);
                                }
                            }
                        }
                    }
                    Option::Some((v, end))
                },
                Option::None => {
                    proof {
                        assert forall|v: Self, end: int|
                            #![trigger v.enc(), bytes@.subrange(pos as int, end)]
                            pos <= end <= bytes@.len() implies bytes@.subrange(pos as int, end)
                            != v.enc() by {
                            if bytes@.subrange(pos as int, end) == v.enc() {
                                assert(v.enc()[0] == bytes@[pos as int]);
                                match v {
                                    Option::None => {
                                        assert(v.enc()[0] == 0u8);
                                    },
                                    Option::Some(t) => {
                                        lemma_concat_parts(seq![1u8], t.enc());
                                        let te = pos + 1 + t.enc().len();
                                        assert(te <= end);
                                        assert(bytes@.subrange(pos as int + 1, te as int)
                                            =~= t.enc()) by {
                                            assert forall|i: int|
                                                0 <= i < t.enc().len() implies bytes@.subrange(
                                                pos as int + 1,
                                                te as int,
                                            )[i] == t.enc()[i] by {
                                                assert(bytes@.subrange(pos as int, end)[i + 1]
                                                    == v.enc()[i + 1]);
                                                assert(v.enc()[i + 1] == t.enc()[i]);
                                            }
                                        }
                                        assert(bytes@.subrange(pos as int + 1, te as int)
                                            != t.enc());
                                    },
                                }
                            }
                        }
                    }
                    Option::None
                },
            }
        } else {
            proof {
                assert forall|v: Self, end: int|
                    #![trigger v.enc(), bytes@.subrange(pos as int, end)]
                    pos <= end <= bytes@.len() implies bytes@.subrange(pos as int, end)
                    != v.enc() by {
                    if bytes@.subrange(pos as int, end) == v.enc() {
                        assert(v.enc().len() >= 1) by {
                            match v {
                                Option::None => {},
                                Option::Some(t) => {
                                    T::lemma_enc_len(t);
                                },
                            }
                        }
                        assert(bytes@.subrange(pos as int, end)[0] == bytes@[pos as int]);
                        match v {
                            Option::None => {},
                            Option::Some(t) => {
                                assert(v.enc()[0] == (seq![1u8] + t.enc())[0]);
                            },
                        }
                    }
                }
            }
            Option::None
        }
    }
}

/// Equal models give equal list encodings.
pub proof fn lemma_enc_list_of_models<T: Codec>(a: Seq<T>, b: Seq<T>)
    requires
        list_models(a) == list_models(b),
    ensures
        enc_list(a) == enc_list(b),
        list_wf(a) <==> list_wf(b),
    decreases a.len(),
{
    assert(a.len() == list_models(a).len());
    assert(b.len() == list_models(b).len());
    if a.len() == 0 {
    } else {
        assert(list_models(a)[0] == a[0].m());
        assert(list_models(b)[0] == b[0].m());
        T::lemma_enc_of_model(a[0], b[0]);
        assert(list_models(a.drop_first()) =~= list_models(b.drop_first())) by {
            assert(list_models(a.drop_first()).len() == a.len() - 1);
            assert(list_models(b.drop_first()).len() == b.len() - 1);
            assert forall|i: int|
                0 <= i < a.len() - 1 implies list_models(a.drop_first())[i] == list_models(
                b.drop_first(),
            )[i] by {
                assert(a.drop_first()[i] == a[i + 1]);
                assert(b.drop_first()[i] == b[i + 1]);
                assert(list_models(a.drop_first())[i] == a.drop_first()[i].m());
                assert(list_models(b.drop_first())[i] == b.drop_first()[i].m());
                assert(list_models(a)[i + 1] == a[i + 1].m());
                assert(list_models(b)[i + 1] == b[i + 1].m());
                assert(list_models(a)[i + 1] == list_models(b)[i + 1]);
            }
        }
        lemma_enc_list_of_models(a.drop_first(), b.drop_first());
        assert(list_wf(a) <==> list_wf(b)) by {
            assert forall|i: int|
                #![trigger a[i]]
                #![trigger b[i]]
                0 <= i < a.len() implies (a[i].enc_wf() <==> b[i].enc_wf()) by {
                assert(list_models(a)[i] == a[i].m());
                assert(list_models(b)[i] == b[i].m());
                assert(list_models(a)[i] == list_models(b)[i]);
                T::lemma_enc_of_model(a[i], b[i]);
            }
        }
    }
}

impl Codec for i64 {
    type Model = i64;

    open spec fn m(&self) -> i64 {
        *self
    }

    open spec fn enc(&self) -> Seq<u8> {
        spec_u64_to_le_bytes(*self as u64)
    }

    open spec fn enc_wf(&self) -> bool {
        true
    }

    proof fn lemma_enc_of_model(a: Self, b: Self) {
    }

    proof fn lemma_enc_len(a: Self) {
        lemma_auto_spec_u64_to_from_le_bytes();
    }

    proof fn lemma_enc_prefix_free(a: Self, b: Self, ra: Seq<u8>, rb: Seq<u8>) {
        <u64 as Codec>::lemma_enc_prefix_free(a as u64, b as u64, ra, rb);
        assert(a as u64 == b as u64);
        assert(a == b) by (bit_vector)
            requires
                a as u64 == b as u64,
        ;
    }

    fn encode_into(&self, out: &mut Vec<u8>) {
        let bs = u64_to_le_bytes(*self as u64);
        out.extend_from_slice(bs.as_slice());
        proof {
            assert(out@ =~= old(out)@ + self.enc());
        }
    }

    fn decode(bytes: &[u8], pos: usize) -> (r: Option<(Self, usize)>) {
        match <u64 as Codec>::decode(bytes, pos) {
            Option::Some((x, end)) => {
                let v = x as i64;
                proof {
                    assert(v as u64 == x) by (bit_vector)
                        requires
                            v == x as i64,
                    ;
                }
                Option::Some((v, end))
            },
            Option::None => {
                proof {
                    assert forall|v: i64, end: int|
                        #![trigger v.enc(), bytes@.subrange(pos as int, end)]
                        pos <= end <= bytes@.len() implies bytes@.subrange(pos as int, end)
                        != v.enc() by {
                        assert(bytes@.subrange(pos as int, end) != ((v as u64).enc()));
                    }
                }
                Option::None
            },
        }
    }
}

} // verus!

//! The key-value interface the store protocol runs against, and a
//! verified in-memory store implementing it.

use vstd::prelude::*;

verus! {

/// An opaque failure of a backing store.
#[derive(Debug)]
pub struct BackendError {
    message: String,
}

impl BackendError {
    /// The reason carried by this error.
    pub closed spec fn message(&self) -> Seq<char> {
        self.message@
    }

    pub fn new(s: &str) -> (r: BackendError)
        ensures
            r.message() == s@,
    {
        BackendError { message: s.to_owned() }
    }

    /// Read the reason back out.
    pub fn description(&self) -> (r: &str)
        ensures
            r@ == self.message(),
    {
        self.message.as_str()
    }
}

/// A key-value store holding opaque byte strings under byte-string
/// keys.  Every operation may fail with an opaque backend error; the
/// contracts promise nothing about the store's state after a failed
/// write.
pub trait KvBackend {
    /// The store contents.  An implementation overrides this with its
    /// own model; the default stands only for implementations outside
    /// the verifier's sight, whose calls are never verified.
    open spec fn kv(&self) -> Map<Seq<u8>, Seq<u8>> {
        Map::empty()
    }

    /// Bind a key to a value, replacing any earlier binding.
    fn kv_store(&mut self, key: Vec<u8>, value: Vec<u8>) -> (r: Result<(), BackendError>)
        ensures
            r is Ok ==> final(self).kv() == old(self).kv().insert(key@, value@),
    ;

    /// Read the value bound to a key.
    fn kv_fetch(&self, key: &[u8]) -> (r: Result<Option<Vec<u8>>, BackendError>)
        ensures
            match r {
                Result::Ok(opt) => match opt {
                    Option::Some(v) => self.kv().contains_key(key@) && v@ == self.kv()[key@],
                    Option::None => !self.kv().contains_key(key@),
                },
                Result::Err(_) => true,
            },
    ;

    /// Whether a key is bound.
    fn kv_exists(&self, key: &[u8]) -> (r: Result<bool, BackendError>)
        ensures
            r matches Ok(b) ==> b == self.kv().contains_key(key@),
    ;

    /// Whether the store holds nothing at all.
    fn kv_is_empty(&self) -> (r: Result<bool, BackendError>)
        ensures
            r matches Ok(b) ==> b == (self.kv() == Map::<Seq<u8>, Seq<u8>>::empty()),
    ;

    /// Every binding, each key once, in unspecified order.
    fn kv_iterate_all(&self) -> (r: Result<Vec<(Vec<u8>, Vec<u8>)>, BackendError>)
        ensures
            r matches Ok(entries) ==> lists_kv_map(entries@, self.kv()),
    ;

    /// Drop every binding.
    fn kv_delete_all(&mut self) -> (r: Result<(), BackendError>)
        ensures
            r is Ok ==> final(self).kv() == Map::<Seq<u8>, Seq<u8>>::empty(),
    ;
}

/// Whether a list of bindings lists exactly the contents of a map:
/// each key once, in some order.
pub open spec fn lists_kv_map(entries: Seq<(Vec<u8>, Vec<u8>)>, kv: Map<Seq<u8>, Seq<u8>>) -> bool {
    &&& forall|i: int, j: int|
        0 <= i < j < entries.len() ==> (#[trigger] entries[i]).0@ != (#[trigger] entries[j]).0@
    &&& forall|i: int|
        0 <= i < entries.len() ==> kv.contains_key((#[trigger] entries[i]).0@) && entries[i].1@
            == kv[entries[i].0@]
    &&& forall|k: Seq<u8>|
        kv.contains_key(k) ==> exists|i: int| 0 <= i < entries.len() && (#[trigger] entries[i]).0@
            == k
}

/// The mapping held by a journal of bindings, later bindings winning.
pub open spec fn journal_map(entries: Seq<(Vec<u8>, Vec<u8>)>) -> Map<Seq<u8>, Seq<u8>>
    decreases entries.len(),
{
    if entries.len() == 0 {
        Map::empty()
    } else {
        journal_map(entries.drop_last()).insert(entries.last().0@, entries.last().1@)
    }
}

/// Whether two byte slices hold the same bytes.
pub fn bytes_eq(a: &[u8], b: &[u8]) -> (r: bool)
    ensures
        r == (a@ == b@),
{
    if a.len() != b.len() {
        return false;
    }
    let mut i: usize = 0;
    while i < a.len()
        invariant
            a@.len() == b@.len(),
            i <= a@.len(),
            forall|j: int| 0 <= j < i ==> a@[j] == b@[j],
        decreases a@.len() - i,
    {
        if a[i] != b[i] {
            return false;
        }
        i += 1;
    }
    proof {
        assert(a@ =~= b@);
    }
    true
}

/// An in-memory key-value store: a journal of bindings whose view
/// keeps, for each key, the binding written last.  It never fails.
#[derive(Debug)]
pub struct MemStore {
    entries: Vec<(Vec<u8>, Vec<u8>)>,
}

impl MemStore {
    /// An empty store.
    pub fn new() -> (r: MemStore)
        ensures
            r.kv() == Map::<Seq<u8>, Seq<u8>>::empty(),
    {
        MemStore { entries: Vec::new() }
    }
}

impl KvBackend for MemStore {
    closed spec fn kv(&self) -> Map<Seq<u8>, Seq<u8>> {
        journal_map(self.entries@)
    }

    fn kv_store(&mut self, key: Vec<u8>, value: Vec<u8>) -> (r: Result<(), BackendError>) {
        self.entries.push((key, value));
        proof {
            assert(self.entries@.drop_last() =~= old(self).entries@);
        }
        Result::Ok(())
    }

    #[verifier::loop_isolation(false)]
    fn kv_fetch(&self, key: &[u8]) -> (r: Result<Option<Vec<u8>>, BackendError>) {
        let ghost s = self.entries@;
        proof {
            assert(s.take(s.len() as int) =~= s);
        }
        let mut i: usize = self.entries.len();
        while i > 0
            invariant
                i <= s.len(),
                self.kv().contains_key(key@) == journal_map(s.take(i as int)).contains_key(key@),
                self.kv().contains_key(key@) ==> self.kv()[key@] == journal_map(
                    s.take(i as int),
                )[key@],
            decreases i,
        {
            i -= 1;
            proof {
                assert(s.take(i + 1).drop_last() =~= s.take(i as int));
                assert(s.take(i + 1).last() == s[i as int]);
            }
            if bytes_eq(self.entries[i].0.as_slice(), key) {
                let out = crate::kv::clone_bytes(&self.entries[i].1);
                return Result::Ok(Option::Some(out));
            }
        }
        proof {
            assert(s.take(0) =~= Seq::<(Vec<u8>, Vec<u8>)>::empty());
        }
        Result::Ok(Option::None)
    }

    fn kv_exists(&self, key: &[u8]) -> (r: Result<bool, BackendError>) {
        match self.kv_fetch(key) {
            Result::Ok(Option::Some(_)) => Result::Ok(true),
            Result::Ok(Option::None) => Result::Ok(false),
            Result::Err(e) => Result::Err(e),
        }
    }

    fn kv_is_empty(&self) -> (r: Result<bool, BackendError>) {
        if self.entries.len() == 0 {
            proof {
                assert(self.kv() =~= Map::<Seq<u8>, Seq<u8>>::empty());
            }
            Result::Ok(true)
        } else {
            proof {
                assert(self.kv().contains_key(self.entries@.last().0@));
                assert(!Map::<Seq<u8>, Seq<u8>>::empty().contains_key(self.entries@.last().0@));
            }
            Result::Ok(false)
        }
    }

    #[verifier::loop_isolation(false)]
    #[verifier::rlimit(60)]
    fn kv_iterate_all(&self) -> (r: Result<Vec<(Vec<u8>, Vec<u8>)>, BackendError>) {
        let ghost s = self.entries@;
        let mut out: Vec<(Vec<u8>, Vec<u8>)> = Vec::new();
        let mut n: usize = 0;
        proof {
            assert(s.take(0) =~= Seq::<(Vec<u8>, Vec<u8>)>::empty());
        }
        while n < self.entries.len()
            invariant
                n <= s.len(),
                forall|i: int, j: int|
                    0 <= i < j < out@.len() ==> (#[trigger] out@[i]).0@ != (#[trigger] out@[j]).0@,
                forall|i: int|
                    0 <= i < out@.len() ==> journal_map(s.take(n as int)).contains_key(
                        (#[trigger] out@[i]).0@,
                    ) && out@[i].1@ == journal_map(s.take(n as int))[out@[i].0@],
                forall|k: Seq<u8>|
                    journal_map(s.take(n as int)).contains_key(k) ==> exists|i: int|
                        0 <= i < out@.len() && (#[trigger] out@[i]).0@ == k,
            decreases s.len() - n,
        {
            let key = clone_bytes(&self.entries[n].0);
            let value = clone_bytes(&self.entries[n].1);
            proof {
                assert(s.take(n + 1).drop_last() =~= s.take(n as int));
                assert(s.take(n + 1).last() == s[n as int]);
            }
            let ghost out_pre = out@;
            let mut j: usize = 0;
            let mut found: Option<usize> = Option::None;
            while j < out.len()
                invariant
                    j <= out@.len(),
                    out@ == out_pre,
                    key@ == s[n as int].0@,
                    found is None,
                    forall|q: int| 0 <= q < j ==> (#[trigger] out_pre[q]).0@ != key@,
                decreases out@.len() - j,
            {
                if bytes_eq(out[j].0.as_slice(), key.as_slice()) {
                    found = Option::Some(j);
                    break ;
                }
                j += 1;
            }
            match found {
                Option::Some(p) => {
                    proof {
                        assert(out_pre[p as int].0@ == key@);
                    }
                    out.set(p, (key, value));
                    proof {
                        assert forall|i: int|
                            0 <= i < out@.len() implies journal_map(s.take(n + 1)).contains_key(
                            (#[trigger] out@[i]).0@,
                        ) && out@[i].1@ == journal_map(s.take(n + 1))[out@[i].0@] by {
                            if i != p {
                                assert(out@[i] == out_pre[i]);
                                assert(out_pre[i].0@ != key@) by {
                                    if i < p {
                                    } else {
                                        assert(out_pre[p as int].0@ == key@);
                                    }
                                }
                            }
                        }
                        assert forall|k: Seq<u8>| #[trigger]
                            journal_map(s.take(n + 1)).contains_key(k) implies exists|i: int|
                            0 <= i < out@.len() && (#[trigger] out@[i]).0@ == k by {
                            if k == s[n as int].0@ {
                                assert(out@[p as int].0@ == k);
                            } else {
                                assert(journal_map(s.take(n as int)).contains_key(k));
                                let i = choose|i: int|
                                    0 <= i < out_pre.len() && (#[trigger] out_pre[i]).0@ == k;
                                assert(out@[i].0@ == k);
                            }
                        }
                    }
                },
                Option::None => {
                    out.push((key, value));
                    proof {
                        assert forall|k: Seq<u8>| #[trigger]
                            journal_map(s.take(n + 1)).contains_key(k) implies exists|i: int|
                            0 <= i < out@.len() && (#[trigger] out@[i]).0@ == k by {
                            if k == s[n as int].0@ {
                                assert(out@[out@.len() - 1].0@ == k);
                            } else {
                                assert(journal_map(s.take(n as int)).contains_key(k));
                                let i = choose|i: int|
                                    0 <= i < out_pre.len() && (#[trigger] out_pre[i]).0@ == k;
                                assert(out@[i] == out_pre[i]);
                                assert(out@[i].0@ == k);
                            }
                        }
                    }
                },
            }
            n += 1;
        }
        proof {
            assert(s.take(s.len() as int) =~= s);
            assert(journal_map(s.take(n as int)) == self.kv());
            assert(lists_kv_map(out@, self.kv()));
        }
        Result::Ok(out)
    }

    fn kv_delete_all(&mut self) -> (r: Result<(), BackendError>) {
        self.entries.clear();
        Result::Ok(())
    }
}

/// Copy a byte vector.
pub fn clone_bytes(v: &Vec<u8>) -> (r: Vec<u8>)
    ensures
        r@ == v@,
{
    let mut out: Vec<u8> = Vec::new();
    out.extend_from_slice(v.as_slice());
    proof {
        assert(out@ =~= v@);
    }
    out
}

} // verus!

use vstd::prelude::*;

verus! {

use core::marker::PhantomData;
use crate::codec::{KeyCodec, ValueCodec};
use crate::error::Error;
use crate::key::EncodedKey;
use crate::order::{
    lex_lt, lemma_lex_irreflexive, lemma_lex_trichotomy, lemma_lex_transitive,
    lemma_lex_asymmetric, lemma_lex_neq, bytes_lt, bytes_eq,
};

/// The value bytes stored under key `k`, if any: entries are searched
/// front to back.
pub open spec fn seq_lookup(s: Seq<(Seq<u8>, Seq<u8>)>, k: Seq<u8>) -> Option<Seq<u8>>
    decreases s.len(),
{
    if s.len() == 0 {
        None
    } else if s[0].0 == k {
        Some(s[0].1)
    } else {
        seq_lookup(s.skip(1), k)
    }
}

/// True when the entries carry strictly ascending keys: the store's
/// iteration order, with uniqueness of keys as a consequence.
pub open spec fn entries_sorted(s: Seq<(Seq<u8>, Seq<u8>)>) -> bool {
    forall|i: int, j: int| 0 <= i < j < s.len() ==> lex_lt(#[trigger] s[i].0, #[trigger] s[j].0)
}

/// The entries after writing value `v` under key `k`: the pair is
/// placed at its ordered position, replacing any pair already keyed
/// by `k`.
pub open spec fn spec_insert(s: Seq<(Seq<u8>, Seq<u8>)>, k: Seq<u8>, v: Seq<u8>) -> Seq<
    (Seq<u8>, Seq<u8>),
>
    decreases s.len(),
{
    if s.len() == 0 {
        seq![(k, v)]
    } else if lex_lt(k, s[0].0) {
        seq![(k, v)] + s
    } else if s[0].0 == k {
        seq![(k, v)] + s.skip(1)
    } else {
        seq![s[0]] + spec_insert(s.skip(1), k, v)
    }
}

/// The entries after deleting key `k`: unchanged when `k` is absent.
pub open spec fn spec_remove(s: Seq<(Seq<u8>, Seq<u8>)>, k: Seq<u8>) -> Seq<(Seq<u8>, Seq<u8>)>
    decreases s.len(),
{
    if s.len() == 0 {
        s
    } else if s[0].0 == k {
        s.skip(1)
    } else {
        seq![s[0]] + spec_remove(s.skip(1), k)
    }
}

/// A key that no entry carries is not found.
pub proof fn lemma_lookup_none(s: Seq<(Seq<u8>, Seq<u8>)>, k: Seq<u8>)
    requires
        forall|m: int| 0 <= m < s.len() ==> (#[trigger] s[m].0) != k,
    ensures
        seq_lookup(s, k) is None,
    decreases s.len(),
{
    if s.len() > 0 {
        lemma_lookup_none(s.skip(1), k);
    }
}

/// Lookup finds the first entry carrying the key.
pub proof fn lemma_lookup_found(s: Seq<(Seq<u8>, Seq<u8>)>, k: Seq<u8>, j: int)
    requires
        0 <= j < s.len(),
        forall|m: int| 0 <= m < j ==> (#[trigger] s[m].0) != k,
        s[j].0 == k,
    ensures
        seq_lookup(s, k) == Some(s[j].1),
    decreases j,
{
    if j > 0 {
        lemma_lookup_found(s.skip(1), k, j - 1);
    }
}

/// Law behind put/get: a lookup right after an insertion of `(k, v)`
/// yields `v`.
pub proof fn lemma_lookup_insert(s: Seq<(Seq<u8>, Seq<u8>)>, k: Seq<u8>, v: Seq<u8>)
    ensures
        seq_lookup(spec_insert(s, k, v), k) == Some(v),
    decreases s.len(),
{
    let t = spec_insert(s, k, v);
    if s.len() == 0 {
        assert(t[0].0 == k);
    } else if lex_lt(k, s[0].0) {
        assert(t[0].0 == k);
    } else if s[0].0 == k {
        assert(t[0].0 == k);
    } else {
        assert(t[0] == s[0]);
        assert(t.skip(1) =~= spec_insert(s.skip(1), k, v));
        lemma_lookup_insert(s.skip(1), k, v);
    }
}

/// Law behind delete/get: a lookup right after a removal of `k` in a
/// sorted store finds nothing.
pub proof fn lemma_lookup_remove(s: Seq<(Seq<u8>, Seq<u8>)>, k: Seq<u8>)
    requires
        entries_sorted(s),
    ensures
        seq_lookup(spec_remove(s, k), k) is None,
    decreases s.len(),
{
    let t = spec_remove(s, k);
    if s.len() == 0 {
    } else if s[0].0 == k {
        assert forall|m: int| 0 <= m < s.skip(1).len() implies (#[trigger] s.skip(1)[m].0)
            != k by {
            assert(s.skip(1)[m] == s[m + 1]);
            assert(lex_lt(s[0].0, s[m + 1].0));
            lemma_lex_neq(s[0].0, s[m + 1].0);
        }
        lemma_lookup_none(s.skip(1), k);
    } else {
        assert(t[0] == s[0]);
        assert(t.skip(1) =~= spec_remove(s.skip(1), k));
        assert(entries_sorted(s.skip(1))) by {
            assert(forall|m: int| 0 <= m < s.skip(1).len() ==> s.skip(1)[m] == s[m + 1]);
        }
        lemma_lookup_remove(s.skip(1), k);
    }
}

/// Law behind idempotent put: inserting the same pair twice leaves
/// the same entries as inserting it once.
pub proof fn lemma_insert_idempotent(s: Seq<(Seq<u8>, Seq<u8>)>, k: Seq<u8>, v: Seq<u8>)
    ensures
        spec_insert(spec_insert(s, k, v), k, v) == spec_insert(s, k, v),
    decreases s.len(),
{
    let t = spec_insert(s, k, v);
    lemma_lex_irreflexive(k);
    if s.len() == 0 {
        assert(t[0].0 == k);
        assert(spec_insert(t, k, v) =~= t);
    } else if lex_lt(k, s[0].0) {
        assert(t[0].0 == k);
        assert(seq![(k, v)] + t.skip(1) =~= t);
    } else if s[0].0 == k {
        assert(t[0].0 == k);
        assert(seq![(k, v)] + t.skip(1) =~= t);
    } else {
        assert(t[0] == s[0]);
        assert(t.len() > 0);
        lemma_insert_idempotent(s.skip(1), k, v);
        assert(t.skip(1) =~= spec_insert(s.skip(1), k, v));
        assert(spec_insert(t, k, v) == seq![t[0]] + spec_insert(t.skip(1), k, v));
        assert(seq![t[0]] + spec_insert(t.skip(1), k, v) =~= t);
    }
}

/// Law behind iteration order: in a sorted store the entry with the
/// smaller key stands strictly earlier.
pub proof fn lemma_iteration_order(s: Seq<(Seq<u8>, Seq<u8>)>, i: int, j: int)
    requires
        entries_sorted(s),
        0 <= i < s.len(),
        0 <= j < s.len(),
        lex_lt(s[i].0, s[j].0),
    ensures
        i < j,
{
    if i == j {
        lemma_lex_irreflexive(s[i].0);
    }
    if j < i {
        lemma_lex_asymmetric(s[j].0, s[i].0);
    }
}

/// Writing at the position of an equal key replaces that entry in
/// place.
pub proof fn lemma_insert_update(s: Seq<(Seq<u8>, Seq<u8>)>, k: Seq<u8>, v: Seq<u8>, i: int)
    requires
        0 <= i < s.len(),
        forall|m: int| 0 <= m < i ==> lex_lt(#[trigger] s[m].0, k),
        s[i].0 == k,
    ensures
        spec_insert(s, k, v) == s.update(i, (k, v)),
    decreases i,
{
    if i == 0 {
        lemma_lex_irreflexive(k);
        assert(seq![(k, v)] + s.skip(1) =~= s.update(0, (k, v)));
    } else {
        assert(lex_lt(s[0].0, k));
        lemma_lex_asymmetric(s[0].0, k);
        lemma_lex_neq(s[0].0, k);
        assert(forall|m: int| 0 <= m < i - 1 ==> s.skip(1)[m] == s[m + 1]);
        assert(s.skip(1)[i - 1] == s[i]);
        lemma_insert_update(s.skip(1), k, v, i - 1);
        assert(seq![s[0]] + s.skip(1).update(i - 1, (k, v)) =~= s.update(i, (k, v)));
    }
}

/// Writing a key that no earlier entry reaches inserts the new pair
/// at its ordered position.
pub proof fn lemma_insert_fresh(s: Seq<(Seq<u8>, Seq<u8>)>, k: Seq<u8>, v: Seq<u8>, i: int)
    requires
        0 <= i <= s.len(),
        forall|m: int| 0 <= m < i ==> lex_lt(#[trigger] s[m].0, k),
        i == s.len() || lex_lt(k, s[i].0),
    ensures
        spec_insert(s, k, v) == s.insert(i, (k, v)),
    decreases i,
{
    if i == 0 {
        if s.len() == 0 {
            assert(spec_insert(s, k, v) =~= s.insert(0, (k, v)));
        } else {
            assert(lex_lt(k, s[0].0));
            assert(seq![(k, v)] + s =~= s.insert(0, (k, v)));
        }
    } else {
        assert(lex_lt(s[0].0, k));
        lemma_lex_asymmetric(s[0].0, k);
        lemma_lex_neq(s[0].0, k);
        assert(forall|m: int| 0 <= m < i - 1 ==> s.skip(1)[m] == s[m + 1]);
        if i < s.len() {
            assert(s.skip(1)[i - 1] == s[i]);
        }
        lemma_insert_fresh(s.skip(1), k, v, i - 1);
        assert(seq![s[0]] + s.skip(1).insert(i - 1, (k, v)) =~= s.insert(i, (k, v)));
    }
}

/// Deleting at the position of an equal key removes exactly that
/// entry.
pub proof fn lemma_remove_found(s: Seq<(Seq<u8>, Seq<u8>)>, k: Seq<u8>, j: int)
    requires
        0 <= j < s.len(),
        forall|m: int| 0 <= m < j ==> (#[trigger] s[m].0) != k,
        s[j].0 == k,
    ensures
        spec_remove(s, k) == s.remove(j),
    decreases j,
{
    if j == 0 {
        assert(s.skip(1) =~= s.remove(0));
    } else {
        assert(forall|m: int| 0 <= m < j - 1 ==> s.skip(1)[m] == s[m + 1]);
        assert(s.skip(1)[j - 1] == s[j]);
        lemma_remove_found(s.skip(1), k, j - 1);
        assert(seq![s[0]] + s.skip(1).remove(j - 1) =~= s.remove(j));
    }
}

/// Deleting an absent key leaves the entries unchanged.
pub proof fn lemma_remove_none(s: Seq<(Seq<u8>, Seq<u8>)>, k: Seq<u8>)
    requires
        forall|m: int| 0 <= m < s.len() ==> (#[trigger] s[m].0) != k,
    ensures
        spec_remove(s, k) == s,
    decreases s.len(),
{
    if s.len() > 0 {
        assert(forall|m: int| 0 <= m < s.skip(1).len() ==> s.skip(1)[m] == s[m + 1]);
        lemma_remove_none(s.skip(1), k);
        assert(seq![s[0]] + s.skip(1) =~= s);
    }
}

/// Options controlling the consistency of a read or an iteration, as
/// the underlying engine exposes them. The verified model is always
/// consistent, so these carry no observable effect here; they are
/// passed through for the engine's sake.
#[derive(Clone, Copy, Debug, PartialEq, Eq, Structural)]
pub struct ReadOptions {
    /// Verify checksums of the data read.
    pub verify_checksums: bool,
    /// Keep the data read in the engine's block cache.
    pub fill_cache: bool,
}

impl ReadOptions {
    /// The engine's standard consistency level.
    pub fn new() -> (r: ReadOptions)
        ensures
            r.verify_checksums == false,
            r.fill_cache == true,
    {
        ReadOptions { verify_checksums: false, fill_cache: true }
    }
}

/// A handle to the ordered byte-keyed store, dedicated to records of
/// type `T`: only an `EncodedKey<T>` addresses it, and only records
/// of type `T` pass through it. Logically a mapping from key bytes to
/// value bytes, keys unique, iteration order equal to the
/// lexicographic order of the key bytes.
#[verifier::reject_recursive_types(T)]
pub struct Store<T> {
    entries: Vec<(Vec<u8>, Vec<u8>)>,
    live: bool,
    phantom: PhantomData<T>,
}

/// A forward iterator over a point-in-time snapshot of the store:
/// yields raw (key bytes, value bytes) pairs in ascending byte order
/// of keys, and is exhausted once, not restartable.
#[verifier::reject_recursive_types(T)]
pub struct StoreIter<T> {
    entries: Vec<(Vec<u8>, Vec<u8>)>,
    pos: usize,
    phantom: PhantomData<T>,
}

impl<T: ValueCodec> Store<T> {
    /// The stored entries: (key bytes, value bytes) pairs in
    /// ascending key order.
    pub closed spec fn contents(self) -> Seq<(Seq<u8>, Seq<u8>)> {
        self.entries.deep_view()
    }

    /// True until the handle is closed.
    pub closed spec fn is_open(self) -> bool {
        self.live
    }

    /// Well-formedness: the entries carry strictly ascending keys.
    pub open spec fn inv(self) -> bool {
        entries_sorted(self.contents())
    }

    /// The outcome a lookup of key bytes `k` is owed: the decoded
    /// record when present and well-formed, nothing when absent, the
    /// matching error when the handle is closed or the bytes are
    /// corrupt.
    pub open spec fn spec_get(self, k: Seq<u8>) -> Result<Option<<T as View>::V>, Error> {
        if !self.is_open() {
            Err(Error::ClosedHandleError)
        } else {
            match seq_lookup(self.contents(), k) {
                None => Ok(None),
                Some(v) => match T::spec_decode(v) {
                    Some(rv) => Ok(Some(rv)),
                    None => Err(Error::DecodingError),
                },
            }
        }
    }

    /// Opens a fresh, empty store handle.
    pub fn new() -> (r: Store<T>)
        ensures
            r.inv(),
            r.is_open(),
            r.contents() == Seq::<(Seq<u8>, Seq<u8>)>::empty(),
    {
        let entries: Vec<(Vec<u8>, Vec<u8>)> = Vec::new();
        proof {
            assert(entries.deep_view() =~= Seq::<(Seq<u8>, Seq<u8>)>::empty());
        }
        Store { entries, live: true, phantom: PhantomData }
    }

    /// Closes the handle. Every later operation on it fails with
    /// [`Error::ClosedHandleError`]; the transition happens once.
    pub fn close(&mut self)
        ensures
            !final(self).is_open(),
            final(self).contents() == old(self).contents(),
    {
        self.live = false;
    }

    /// Places `(key, value)` at its ordered position, replacing any
    /// entry already keyed by `key`.
    fn insert_entry(&mut self, key: Vec<u8>, value: Vec<u8>)
        requires
            old(self).inv(),
        ensures
            final(self).inv(),
            final(self).is_open() == old(self).is_open(),
            final(self).contents() == spec_insert(old(self).contents(), key@, value@),
    {
        let ghost s = self.entries.deep_view();
        let mut i: usize = 0;
        while i < self.entries.len() && bytes_lt(self.entries[i].0.as_slice(), key.as_slice())
            invariant
                old(self).inv(),
                i <= self.entries@.len(),
                self.entries@ == old(self).entries@,
                self.live == old(self).live,
                s == self.entries.deep_view(),
                forall|m: int| 0 <= m < i ==> lex_lt(#[trigger] s[m].0, key@),
            decreases self.entries@.len() - i,
        {
            proof {
                assert(s[i as int].0 =~= self.entries@[i as int].0@);
            }
            i = i + 1;
        }
        proof {
            if i < self.entries.len() {
                assert(s[i as int].0 =~= self.entries@[i as int].0@);
            }
        }
        if i < self.entries.len() && bytes_eq(self.entries[i].0.as_slice(), key.as_slice()) {
            let ghost ii = i as int;
            proof {
                assert(s[ii].0 == key@);
                lemma_insert_update(s, key@, value@, ii);
            }
            self.entries.set(i, (key, value));
            proof {
                assert(self.entries.deep_view() =~~= s.update(ii, (key@, value@)));
                assert(entries_sorted(self.entries.deep_view())) by {
                    assert(forall|m: int|
                        0 <= m < s.len() ==> s.update(ii, (key@, value@))[m].0 == s[m].0);
                }
            }
        } else {
            let ghost ii = i as int;
            proof {
                if ii < s.len() {
                    assert(s[ii].0 =~= self.entries@[ii].0@);
                    assert(s[ii].0 != key@);
                    lemma_lex_trichotomy(key@, s[ii].0);
                    assert(lex_lt(key@, s[ii].0));
                }
                lemma_insert_fresh(s, key@, value@, ii);
            }
            self.entries.insert(i, (key, value));
            proof {
                assert(self.entries.deep_view() =~~= s.insert(ii, (key@, value@)));
                let t = s.insert(ii, (key@, value@));
                assert(entries_sorted(t)) by {
                    assert forall|m: int, j: int| 0 <= m < j < t.len() implies lex_lt(
                        #[trigger] t[m].0,
                        #[trigger] t[j].0,
                    ) by {
                        if m < ii && j == ii {
                            assert(t[m] == s[m]);
                        } else if m < ii && j > ii {
                            assert(t[m] == s[m] && t[j] == s[j - 1]);
                        } else if m == ii && j > ii {
                            assert(t[j] == s[j - 1]);
                            if ii < j - 1 {
                                assert(lex_lt(s[ii as int].0, s[j - 1].0));
                                lemma_lex_transitive(key@, s[ii as int].0, s[j - 1].0);
                            }
                        } else if m > ii {
                            assert(t[m] == s[m - 1] && t[j] == s[j - 1]);
                        }
                    }
                }
            }
        }
    }

    /// Writes raw value bytes under raw key bytes, as the engine's
    /// own byte-level interface does, with the chosen durability.
    /// The write fully replaces or inserts the entry.
    pub fn put_bytes(&mut self, key: Vec<u8>, value: Vec<u8>, sync: bool) -> (r: Result<
        (),
        Error,
    >)
        requires
            old(self).inv(),
        ensures
            final(self).inv(),
            final(self).is_open() == old(self).is_open(),
            !old(self).is_open() ==> r == Err::<(), Error>(Error::ClosedHandleError)
                && *final(self) == *old(self),
            old(self).is_open() ==> r == Ok::<(), Error>(()) && final(self).contents()
                == spec_insert(old(self).contents(), key@, value@),
    {
        if !self.live {
            return Err(Error::ClosedHandleError);
        }
        self.insert_entry(key, value);
        Ok(())
    }

    /// Writes the record under its derived key with the chosen
    /// durability: `sync` false is a buffered write, `sync` true an
    /// fsynced one. The write fully replaces or inserts the entry.
    pub fn put_sync(&mut self, record: &T, sync: bool) -> (r: Result<(), Error>)
        requires
            old(self).inv(),
        ensures
            final(self).inv(),
            final(self).is_open() == old(self).is_open(),
            !old(self).is_open() ==> r == Err::<(), Error>(Error::ClosedHandleError)
                && *final(self) == *old(self),
            old(self).is_open() ==> match r {
                Ok(_) => final(self).contents() == spec_insert(
                    old(self).contents(),
                    T::spec_encode_key(record.spec_key()),
                    T::spec_encode(record@),
                ),
                Err(e) => {
                    &&& e == Error::EncodingError
                    &&& *final(self) == *old(self)
                    &&& !(T::key_representable(record.spec_key()) && T::value_representable(
                        record@,
                    ))
                },
            },
    {
        if !self.live {
            return Err(Error::ClosedHandleError);
        }
        let ek = match record.key() {
            Ok(ek) => ek,
            Err(e) => {
                return Err(e);
            },
        };
        let value = match record.encode() {
            Ok(v) => v,
            Err(e) => {
                return Err(e);
            },
        };
        let key = ek.into_vec();
        self.put_bytes(key, value, sync)
    }

    /// Writes the record with the default durability: a buffered,
    /// non-fsynced write.
    pub fn put(&mut self, record: &T) -> (r: Result<(), Error>)
        requires
            old(self).inv(),
        ensures
            final(self).inv(),
            final(self).is_open() == old(self).is_open(),
            !old(self).is_open() ==> r == Err::<(), Error>(Error::ClosedHandleError)
                && *final(self) == *old(self),
            old(self).is_open() ==> match r {
                Ok(_) => final(self).contents() == spec_insert(
                    old(self).contents(),
                    T::spec_encode_key(record.spec_key()),
                    T::spec_encode(record@),
                ),
                Err(e) => {
                    &&& e == Error::EncodingError
                    &&& *final(self) == *old(self)
                    &&& !(T::key_representable(record.spec_key()) && T::value_representable(
                        record@,
                    ))
                },
            },
    {
        self.put_sync(record, false)
    }

    /// Looks up the exact key under the given read options and
    /// decodes the stored record: the decoded record when present,
    /// nothing when absent, [`Error::DecodingError`] when the stored
    /// bytes are corrupt.
    pub fn get_with_option(&self, options: ReadOptions, key: &EncodedKey<T>) -> (r: Result<
        Option<T>,
        Error,
    >)
        ensures
            match r {
                Ok(Some(rec)) => self.spec_get(key@) == Ok::<Option<<T as View>::V>, Error>(
                    Some(rec@),
                ),
                Ok(None) => self.spec_get(key@) == Ok::<Option<<T as View>::V>, Error>(
                    None::<<T as View>::V>,
                ),
                Err(e) => self.spec_get(key@) == Err::<Option<<T as View>::V>, Error>(e),
            },
    {
        if !self.live {
            return Err(Error::ClosedHandleError);
        }
        let ghost s = self.entries.deep_view();
        let mut j: usize = 0;
        while j < self.entries.len() && !bytes_eq(self.entries[j].0.as_slice(), key.as_slice())
            invariant
                j <= self.entries@.len(),
                s == self.entries.deep_view(),
                forall|m: int| 0 <= m < j ==> (#[trigger] s[m].0) != key@,
            decreases self.entries@.len() - j,
        {
            proof {
                assert(s[j as int].0 =~= self.entries@[j as int].0@);
            }
            j = j + 1;
        }
        if j < self.entries.len() {
            proof {
                assert(s[j as int].0 =~= self.entries@[j as int].0@);
                assert(s[j as int].1 =~= self.entries@[j as int].1@);
                lemma_lookup_found(s, key@, j as int);
            }
            match T::decode(self.entries[j].1.as_slice()) {
                Ok(rec) => Ok(Some(rec)),
                Err(e) => Err(e),
            }
        } else {
            proof {
                lemma_lookup_none(s, key@);
            }
            Ok(None)
        }
    }

    /// Looks up the exact key with the engine's standard read
    /// options.
    pub fn get(&self, key: &EncodedKey<T>) -> (r: Result<Option<T>, Error>)
        ensures
            match r {
                Ok(Some(rec)) => self.spec_get(key@) == Ok::<Option<<T as View>::V>, Error>(
                    Some(rec@),
                ),
                Ok(None) => self.spec_get(key@) == Ok::<Option<<T as View>::V>, Error>(
                    None::<<T as View>::V>,
                ),
                Err(e) => self.spec_get(key@) == Err::<Option<<T as View>::V>, Error>(e),
            },
    {
        self.get_with_option(ReadOptions::new(), key)
    }

    /// Removes the entry at `key` if present, with the chosen
    /// durability; deleting an absent key succeeds without effect.
    pub fn delete(&mut self, sync: bool, key: &EncodedKey<T>) -> (r: Result<(), Error>)
        requires
            old(self).inv(),
        ensures
            final(self).inv(),
            final(self).is_open() == old(self).is_open(),
            !old(self).is_open() ==> r == Err::<(), Error>(Error::ClosedHandleError)
                && *final(self) == *old(self),
            old(self).is_open() ==> r == Ok::<(), Error>(()) && final(self).contents()
                == spec_remove(old(self).contents(), key@),
    {
        if !self.live {
            return Err(Error::ClosedHandleError);
        }
        let ghost s = self.entries.deep_view();
        let mut j: usize = 0;
        while j < self.entries.len() && !bytes_eq(self.entries[j].0.as_slice(), key.as_slice())
            invariant
                old(self).inv(),
                j <= self.entries@.len(),
                self.entries@ == old(self).entries@,
                self.live == old(self).live,
                s == self.entries.deep_view(),
                forall|m: int| 0 <= m < j ==> (#[trigger] s[m].0) != key@,
            decreases self.entries@.len() - j,
        {
            proof {
                assert(s[j as int].0 =~= self.entries@[j as int].0@);
            }
            j = j + 1;
        }
        if j < self.entries.len() {
            let ghost jj = j as int;
            proof {
                assert(s[jj].0 =~= self.entries@[jj].0@);
                lemma_remove_found(s, key@, jj);
            }
            self.entries.remove(j);
            proof {
                assert(self.entries.deep_view() =~~= s.remove(jj));
                let t = s.remove(jj);
                assert(entries_sorted(t)) by {
                    assert forall|m: int, n: int| 0 <= m < n < t.len() implies lex_lt(
                        #[trigger] t[m].0,
                        #[trigger] t[n].0,
                    ) by {
                        if m < jj && n < jj {
                            assert(t[m] == s[m] && t[n] == s[n]);
                        } else if m < jj {
                            assert(t[m] == s[m] && t[n] == s[n + 1]);
                        } else {
                            assert(t[m] == s[m + 1] && t[n] == s[n + 1]);
                        }
                    }
                }
            }
        } else {
            proof {
                lemma_remove_none(s, key@);
            }
        }
        Ok(())
    }

    /// Creates a forward iterator over a snapshot of the entries
    /// visible now, ordered by ascending byte order of keys. The
    /// iterator is independent of later writes and is not
    /// restartable: to iterate again, create a new one.
    pub fn iter(&self, options: ReadOptions) -> (r: Result<StoreIter<T>, Error>)
        ensures
            match r {
                Ok(it) => {
                    &&& self.is_open()
                    &&& it.snapshot() == self.contents()
                    &&& it.position() == 0
                },
                Err(e) => e == Error::ClosedHandleError && !self.is_open(),
            },
    {
        if !self.live {
            return Err(Error::ClosedHandleError);
        }
        let ghost s = self.entries.deep_view();
        let mut entries: Vec<(Vec<u8>, Vec<u8>)> = Vec::new();
        let mut i: usize = 0;
        proof {
            assert(entries.deep_view() =~~= s.take(0));
        }
        while i < self.entries.len()
            invariant
                i <= self.entries@.len(),
                s == self.entries.deep_view(),
                entries.deep_view() == s.take(i as int),
            decreases self.entries@.len() - i,
        {
            let k = vstd::slice::slice_to_vec(self.entries[i].0.as_slice());
            let v = vstd::slice::slice_to_vec(self.entries[i].1.as_slice());
            let ghost gk = k@;
            let ghost gv = v@;
            proof {
                assert(entries.deep_view().len() == entries@.len());
                assert(entries.deep_view().len() == i as int);
            }
            entries.push((k, v));
            proof {
                let d = entries.deep_view();
                let ii = i as int;
                assert(entries@.len() == ii + 1);
                assert(d.len() == entries@.len());
                assert(entries@[ii].0@ == gk);
                assert(entries@[ii].1@ == gv);
                assert(d[ii] == entries@[ii].deep_view());
                assert(d[ii].0 =~= gk);
                assert(d[ii].1 =~= gv);
                assert(s[ii].0 =~= self.entries@[ii].0@);
                assert(s[ii].1 =~= self.entries@[ii].1@);
                assert(d[ii] == (d[ii].0, d[ii].1));
                assert(s[ii] == (s[ii].0, s[ii].1));
                assert(d[ii] == s[ii]);
                assert(d =~= s.take(ii + 1));
            }
            i = i + 1;
        }
        proof {
            assert(s.take(s.len() as int) =~= s);
        }
        Ok(StoreIter { entries, pos: 0, phantom: PhantomData })
    }
}

impl<T> StoreIter<T> {
    /// The entries the iterator was created over, in ascending key
    /// order.
    pub closed spec fn snapshot(self) -> Seq<(Seq<u8>, Seq<u8>)> {
        self.entries.deep_view()
    }

    /// How many entries have been yielded so far.
    pub closed spec fn position(self) -> int {
        self.pos as int
    }

    /// Yields the next (key, value) pair, or nothing once the
    /// snapshot is exhausted.
    pub fn next(&mut self) -> (r: Option<(EncodedKey<T>, Vec<u8>)>)
        ensures
            final(self).snapshot() == old(self).snapshot(),
            match r {
                Some(p) => {
                    &&& old(self).position() < old(self).snapshot().len()
                    &&& final(self).position() == old(self).position() + 1
                    &&& p.0@ == old(self).snapshot()[old(self).position()].0
                    &&& p.1@ == old(self).snapshot()[old(self).position()].1
                },
                None => {
                    &&& old(self).position() >= old(self).snapshot().len()
                    &&& final(self).position() == old(self).position()
                },
            },
    {
        if self.pos < self.entries.len() {
            let ghost p = self.pos as int;
            let k = vstd::slice::slice_to_vec(self.entries[self.pos].0.as_slice());
            let v = vstd::slice::slice_to_vec(self.entries[self.pos].1.as_slice());
            proof {
                assert(self.entries.deep_view()[p].0 =~= self.entries@[p].0@);
                assert(self.entries.deep_view()[p].1 =~= self.entries@[p].1@);
            }
            self.pos = self.pos + 1;
            Some((EncodedKey::from_vec(k), v))
        } else {
            None
        }
    }
}

/// Law: after a successful put of record `r`, a get by `r`'s derived
/// key is owed exactly `Some(r)`.
pub proof fn lemma_put_then_get<T: ValueCodec>(pre: Store<T>, post: Store<T>, r: T)
    requires
        pre.is_open(),
        post.is_open(),
        T::value_representable(r@),
        post.contents() == spec_insert(
            pre.contents(),
            T::spec_encode_key(r.spec_key()),
            T::spec_encode(r@),
        ),
    ensures
        post.spec_get(T::spec_encode_key(r.spec_key())) == Ok::<Option<<T as View>::V>, Error>(
            Some(r@),
        ),
{
    lemma_lookup_insert(pre.contents(), T::spec_encode_key(r.spec_key()), T::spec_encode(r@));
    T::lemma_value_round_trip(r@);
}

/// Law: a second put of the same record leaves the store in the same
/// observable state as the first put alone.
pub proof fn lemma_put_idempotent<T: ValueCodec>(pre: Store<T>, once: Store<T>, twice: Store<T>, r: T)
    requires
        once.contents() == spec_insert(
            pre.contents(),
            T::spec_encode_key(r.spec_key()),
            T::spec_encode(r@),
        ),
        twice.contents() == spec_insert(
            once.contents(),
            T::spec_encode_key(r.spec_key()),
            T::spec_encode(r@),
        ),
    ensures
        twice.contents() == once.contents(),
{
    lemma_insert_idempotent(
        pre.contents(),
        T::spec_encode_key(r.spec_key()),
        T::spec_encode(r@),
    );
}

/// Law: after a delete of key `k`, a get by `k` is owed `None`; the
/// delete itself succeeds whether or not `k` was present.
pub proof fn lemma_delete_then_get<T: ValueCodec>(pre: Store<T>, post: Store<T>, k: Seq<u8>)
    requires
        pre.inv(),
        post.is_open(),
        post.contents() == spec_remove(pre.contents(), k),
    ensures
        post.spec_get(k) == Ok::<Option<<T as View>::V>, Error>(None::<<T as View>::V>),
{
    lemma_lookup_remove(pre.contents(), k);
}

} // verus!

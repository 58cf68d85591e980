//! The encrypted object store.  Two collections of string records —
//! documents and settings — are held as association lists and mutated only
//! through the operations below.  A document record is its JSON encoding,
//! sealed with AES-256-GCM under the store's key and base64-encoded; a
//! setting is stored as a plain JSON string without that envelope, an
//! asymmetry of the design that is preserved deliberately.
//!
//! The host's durable backing (one string value per key, hydrated through
//! [`Storage::load_document_record`] and mirrored back through
//! [`Storage::document_record`]) lives outside this module.

use vstd::prelude::*;

use crate::codec::{doc_from_json, doc_to_json, lemma_parse_doc_round_trip, parse_doc};
use crate::crypto::{
    aead_open, aead_seal, b64_decode, b64_encode, b64_parse, fresh_key, fresh_nonce, gcm_open,
};
use crate::state::{DocView, Document, opt_view};
use crate::text::str_eq;

verus! {

/// A storage failure, recoverable at the call site.
#[derive(Debug)]
pub enum StorageError {
    /// The underlying store or its transaction failed.
    IdbError(String),
    /// A record could not be encoded or decoded.
    SerializationError(String),
    /// Sealing or opening a record failed, a too-short record included.
    EncryptionError(String),
}

impl StorageError {
    /// The human-readable reason, with the failing layer named.
    pub fn message(&self) -> (r: String)
        ensures
            match *self {
                StorageError::IdbError(ref s) => r@ == "IndexedDB error: "@ + s@,
                StorageError::SerializationError(ref s) => r@ == "Serialization error: "@ + s@,
                StorageError::EncryptionError(ref s) => r@ == "Encryption error: "@ + s@,
            },
    {
        match self {
            StorageError::IdbError(s) => {
                let mut m = "IndexedDB error: ".to_owned();
                m.append(s.as_str());
                m
            },
            StorageError::SerializationError(s) => {
                let mut m = "Serialization error: ".to_owned();
                m.append(s.as_str());
                m
            },
            StorageError::EncryptionError(s) => {
                let mut m = "Encryption error: ".to_owned();
                m.append(s.as_str());
                m
            },
        }
    }
}

/// The mathematical contents of a collection: key and value of each entry.
pub open spec fn views(entries: Seq<(String, String)>) -> Seq<(Seq<char>, Seq<char>)> {
    entries.map_values(|p: (String, String)| (p.0@, p.1@))
}

/// The value stored under `k`, if any.
pub open spec fn lookup(entries: Seq<(Seq<char>, Seq<char>)>, k: Seq<char>) -> Option<Seq<char>>
    decreases entries.len(),
{
    if entries.len() == 0 {
        Option::None
    } else if entries[0].0 == k {
        Option::Some(entries[0].1)
    } else {
        lookup(entries.skip(1), k)
    }
}

/// The collection with `v` stored under `k`: the first entry for `k` is
/// replaced, or the pair is appended when `k` is absent.
pub open spec fn upsert(
    entries: Seq<(Seq<char>, Seq<char>)>,
    k: Seq<char>,
    v: Seq<char>,
) -> Seq<(Seq<char>, Seq<char>)>
    decreases entries.len(),
{
    if entries.len() == 0 {
        seq![(k, v)]
    } else if entries[0].0 == k {
        seq![(k, v)] + entries.skip(1)
    } else {
        seq![entries[0]] + upsert(entries.skip(1), k, v)
    }
}

/// The collection without any entry for `k`.
pub open spec fn remove_key(
    entries: Seq<(Seq<char>, Seq<char>)>,
    k: Seq<char>,
) -> Seq<(Seq<char>, Seq<char>)>
    decreases entries.len(),
{
    if entries.len() == 0 {
        entries
    } else if entries[0].0 == k {
        remove_key(entries.skip(1), k)
    } else {
        seq![entries[0]] + remove_key(entries.skip(1), k)
    }
}

/// Opening a sealed record: the first 12 bytes are the nonce, the rest
/// the ciphertext with its tag.
pub open spec fn open_record(key: Seq<u8>, data: Seq<u8>) -> Option<Seq<u8>> {
    if data.len() < 12 {
        Option::None
    } else {
        gcm_open(key, data.subrange(0, 12), data.skip(12))
    }
}

/// The document a stored string decodes to under `key`, if every stage —
/// base64, authenticated decryption, record parsing — succeeds.
#[verifier::opaque]
pub open spec fn decode_rec(key: Seq<u8>, stored: Seq<char>) -> Option<DocView> {
    match b64_parse(stored) {
        Option::None => Option::None,
        Option::Some(bytes) => match open_record(key, bytes) {
            Option::None => Option::None,
            Option::Some(pt) => parse_doc(pt),
        },
    }
}

/// The documents that decode, in collection order; a record that fails
/// any stage is skipped and poisons nothing else.
pub open spec fn decoded_docs(
    key: Seq<u8>,
    entries: Seq<(Seq<char>, Seq<char>)>,
) -> Seq<DocView>
    decreases entries.len(),
{
    if entries.len() == 0 {
        Seq::empty()
    } else {
        match decode_rec(key, entries[0].1) {
            Option::Some(dv) => seq![dv] + decoded_docs(key, entries.skip(1)),
            Option::None => decoded_docs(key, entries.skip(1)),
        }
    }
}

/// The key a stored key-slot value yields: the slot must hold the base64
/// of exactly 32 bytes.
pub open spec fn key_of_slot(slot: Option<Seq<char>>) -> Option<Seq<u8>> {
    match slot {
        Option::None => Option::None,
        Option::Some(s) => match b64_parse(s) {
            Option::None => Option::None,
            Option::Some(k) => if k.len() == 32 {
                Option::Some(k)
            } else {
                Option::None
            },
        },
    }
}

/// The encrypted object store: a 256-bit key and the two collections.
pub struct Storage {
    key: Vec<u8>,
    documents: Vec<(String, String)>,
    settings: Vec<(String, String)>,
}

impl Storage {
    /// The store's symmetric key.
    pub closed spec fn spec_key(self) -> Seq<u8> {
        self.key@
    }

    /// The document collection's contents, in insertion order.
    pub closed spec fn doc_entries(self) -> Seq<(Seq<char>, Seq<char>)> {
        views(self.documents@)
    }

    /// The settings collection's contents, in insertion order.
    pub closed spec fn setting_entries(self) -> Seq<(Seq<char>, Seq<char>)> {
        views(self.settings@)
    }

    /// The store is well formed: its key is 256 bits.
    pub closed spec fn wf(self) -> bool {
        self.key@.len() == 32
    }

    /// Open a store given what the persistent key slot held, starting
    /// from empty collections.  When the slot yields no key — absent, not
    /// base64, or of the wrong length — a fresh key is created and its
    /// base64 encoding is returned for the caller to persist; losing that
    /// slot makes every stored record permanently unrecoverable.
    pub fn new(stored_key: Option<&str>) -> (r: (Storage, Option<String>))
        ensures
            r.0.wf(),
            r.0.doc_entries() == Seq::<(Seq<char>, Seq<char>)>::empty(),
            r.0.setting_entries() == Seq::<(Seq<char>, Seq<char>)>::empty(),
            match key_of_slot(match stored_key {
                Option::None => Option::<Seq<char>>::None,
                Option::Some(s) => Option::Some(s@),
            }) {
                Option::Some(k) => r.0.spec_key() == k && r.1 is None,
                Option::None => r.1 matches Option::Some(p) && b64_parse(p@) == Option::Some(
                    r.0.spec_key(),
                ),
            },
    {
        let (key, persist): (Vec<u8>, Option<String>) = match stored_key {
            Option::Some(s) => {
                match b64_decode(s) {
                    Result::Ok(k) => {
                        if k.len() == 32 {
                            (k, Option::None)
                        } else {
                            let k = fresh_key();
                            let p = b64_encode(&k);
                            (k, Option::Some(p))
                        }
                    },
                    Result::Err(_) => {
                        let k = fresh_key();
                        let p = b64_encode(&k);
                        (k, Option::Some(p))
                    },
                }
            },
            Option::None => {
                let k = fresh_key();
                let p = b64_encode(&k);
                (k, Option::Some(p))
            },
        };
        let store = Storage { key, documents: Vec::new(), settings: Vec::new() };
        proof {
            assert(store.doc_entries() =~= Seq::<(Seq<char>, Seq<char>)>::empty());
            assert(store.setting_entries() =~= Seq::<(Seq<char>, Seq<char>)>::empty());
        }
        (store, persist)
    }

    /// Seal a plaintext under the store's key with a fresh random nonce:
    /// `nonce || ciphertext-with-tag`.  Fails only when the host yields
    /// no nonce — a fixed nonce must never be substituted — or when the
    /// cipher refuses the plaintext's length.
    pub fn encrypt(&self, data: &Vec<u8>) -> (r: Result<Vec<u8>, StorageError>)
        requires
            self.wf(),
        ensures
            match r {
                Result::Ok(v) => open_record(self.spec_key(), v@) == Option::Some(data@)
                    && v@.len() == data@.len() + 28,
                Result::Err(e) => e is EncryptionError,
            },
    {
        let nonce = match fresh_nonce() {
            Option::Some(n) => n,
            Option::None => {
                return Result::Err(
                    StorageError::EncryptionError("no random nonce available".to_owned()),
                );
            },
        };
        let mut ct = match aead_seal(&self.key, &nonce, data) {
            Result::Ok(c) => c,
            Result::Err(_) => {
                return Result::Err(StorageError::EncryptionError("sealing failed".to_owned()));
            },
        };
        let ghost nonce_v = nonce@;
        let ghost ct_v = ct@;
        let mut out = nonce;
        out.append(&mut ct);
        proof {
            assert(out@.subrange(0, 12) =~= nonce_v);
            assert(out@.skip(12) =~= ct_v);
        }
        Result::Ok(out)
    }

    /// Open a sealed record under the store's key.  Fails exactly on
    /// records that are shorter than a nonce or do not authenticate.
    pub fn decrypt(&self, data: &Vec<u8>) -> (r: Result<Vec<u8>, StorageError>)
        requires
            self.wf(),
        ensures
            match r {
                Result::Ok(v) => open_record(self.spec_key(), data@) == Option::Some(v@),
                Result::Err(e) => open_record(self.spec_key(), data@) is None && e
                    is EncryptionError,
            },
    {
        if data.len() < 12 {
            return Result::Err(StorageError::EncryptionError("record too short".to_owned()));
        }
        let nonce = vec_range(data, 0, 12);
        let ct = vec_range(data, 12, data.len());
        match aead_open(&self.key, &nonce, &ct) {
            Result::Ok(pt) => Result::Ok(pt),
            Result::Err(_) => Result::Err(
                StorageError::EncryptionError("record does not authenticate".to_owned()),
            ),
        }
    }

    /// Store one document under its identifier: serialize, seal with a
    /// fresh nonce, base64-encode, upsert.  On failure the store is
    /// unchanged and the caller keeps its in-memory document.
    pub fn save_document(&mut self, doc: &Document) -> (r: Result<(), StorageError>)
        requires
            old(self).wf(),
        ensures
            final(self).wf(),
            final(self).spec_key() == old(self).spec_key(),
            final(self).setting_entries() == old(self).setting_entries(),
            match r {
                Result::Ok(_) => (exists|stored: Seq<char>|
                    decode_rec(old(self).spec_key(), stored) == Option::Some(doc@)
                        && final(self).doc_entries() == upsert(
                        old(self).doc_entries(),
                        doc@.id,
                        stored,
                    )),
                Result::Err(e) => final(self).doc_entries() == old(self).doc_entries() && e
                    is EncryptionError,
            },
    {
        let json = doc_to_json(doc);
        let sealed = match self.encrypt(&json) {
            Result::Ok(v) => v,
            Result::Err(e) => {
                return Result::Err(e);
            },
        };
        let b64 = b64_encode(&sealed);
        proof {
            reveal(decode_rec);
            lemma_parse_doc_round_trip(doc@);
            assert(decode_rec(self.spec_key(), b64@) == Option::Some(doc@));
        }
        let nd = upserted(&self.documents, doc.id.as_str(), b64.as_str());
        self.documents = nd;
        proof {
            assert(decode_rec(old(self).spec_key(), b64@) == Option::Some(doc@)
                && final(self).doc_entries() == upsert(old(self).doc_entries(), doc@.id, b64@));
        }
        Result::Ok(())
    }

    /// Fetch one document.  An absent identifier is `Ok(None)`, not an
    /// error; a present record is returned exactly when it decodes, and
    /// each failing stage reports its own error: base64 and record
    /// parsing as serialization errors, a short or unauthentic record as
    /// an encryption error.
    pub fn get_document(&self, id: &str) -> (r: Result<Option<Document>, StorageError>)
        requires
            self.wf(),
        ensures
            match r {
                Result::Ok(opt) => match lookup(self.doc_entries(), id@) {
                    Option::None => opt is None,
                    Option::Some(stored) => opt matches Option::Some(d) && decode_rec(
                        self.spec_key(),
                        stored,
                    ) == Option::Some(d@),
                },
                Result::Err(e) => match lookup(self.doc_entries(), id@) {
                    Option::None => false,
                    Option::Some(stored) => decode_rec(self.spec_key(), stored) is None && (
                    match b64_parse(stored) {
                        Option::None => e is SerializationError,
                        Option::Some(bytes) => if open_record(self.spec_key(), bytes) is None {
                            e is EncryptionError
                        } else {
                            e is SerializationError
                        },
                    }),
                },
            },
    {
        proof {
            reveal(decode_rec);
        }
        let stored = match lookup_entry(&self.documents, id) {
            Option::None => {
                return Result::Ok(Option::None);
            },
            Option::Some(s) => s,
        };
        let bytes = match b64_decode(stored.as_str()) {
            Result::Ok(b) => b,
            Result::Err(_) => {
                return Result::Err(
                    StorageError::SerializationError("record is not base64".to_owned()),
                );
            },
        };
        let pt = match self.decrypt(&bytes) {
            Result::Ok(p) => p,
            Result::Err(e) => {
                return Result::Err(e);
            },
        };
        match doc_from_json(&pt) {
            Option::Some(d) => Result::Ok(Option::Some(d)),
            Option::None => Result::Err(
                StorageError::SerializationError("record does not parse".to_owned()),
            ),
        }
    }

    /// One stored string through the whole decode chain, `None` on any
    /// failure.
    fn try_decode(&self, stored: &String) -> (r: Option<Document>)
        requires
            self.wf(),
        ensures
            match r {
                Option::Some(d) => decode_rec(self.spec_key(), stored@) == Option::Some(d@),
                Option::None => decode_rec(self.spec_key(), stored@) is None,
            },
    {
        proof {
            reveal(decode_rec);
        }
        let bytes = match b64_decode(stored.as_str()) {
            Result::Ok(b) => b,
            Result::Err(_) => {
                return Option::None;
            },
        };
        let pt = match self.decrypt(&bytes) {
            Result::Ok(p) => p,
            Result::Err(_) => {
                return Option::None;
            },
        };
        doc_from_json(&pt)
    }

    /// List every document whose record decodes, in collection order.  A
    /// record that fails base64, authentication, or parsing is skipped:
    /// one corrupted record never aborts the scan.
    pub fn get_all_documents(&self) -> (r: Result<Vec<Document>, StorageError>)
        requires
            self.wf(),
        ensures
            r matches Result::Ok(docs) && docs@.map_values(|d: Document| d@) == decoded_docs(
                self.spec_key(),
                self.doc_entries(),
            ),
    {
        let ghost vs = self.doc_entries();
        let ghost key = self.spec_key();
        let mut out: Vec<Document> = Vec::new();
        let mut i: usize = 0;
        proof {
            assert(vs.skip(0) =~= vs);
            assert(out@.map_values(|d: Document| d@) =~= Seq::<DocView>::empty());
            assert(Seq::<DocView>::empty() + decoded_docs(key, vs) =~= decoded_docs(key, vs));
        }
        while i < self.documents.len()
            invariant
                self.wf(),
                i <= self.documents@.len(),
                vs == self.doc_entries(),
                key == self.spec_key(),
                decoded_docs(key, vs) == out@.map_values(|d: Document| d@) + decoded_docs(
                    key,
                    vs.skip(i as int),
                ),
            decreases self.documents@.len() - i,
        {
            let stored = &self.documents[i].1;
            proof {
                assert(vs.skip(i as int)[0] == vs[i as int]);
                assert(vs.skip(i as int).skip(1) =~= vs.skip(i + 1));
            }
            let ghost out0 = out@;
            match self.try_decode(stored) {
                Option::None => {},
                Option::Some(d) => {
                    out.push(d);
                    proof {
                        assert(out@.map_values(|d: Document| d@) =~= out0.map_values(
                            |d: Document| d@).push(d@));
                        assert(out0.map_values(|d: Document| d@) + (seq![d@] + decoded_docs(
                            key, vs.skip(i + 1))) =~= out@.map_values(|d: Document| d@)
                            + decoded_docs(key, vs.skip(i + 1)));
                    }
                },
            }
            i = i + 1;
        }
        proof {
            assert(vs.skip(self.documents@.len() as int)
                =~= Seq::<(Seq<char>, Seq<char>)>::empty());
            assert(out@.map_values(|d: Document| d@) + Seq::<DocView>::empty()
                =~= out@.map_values(|d: Document| d@));
        }
        Result::Ok(out)
    }

    /// Remove a document's record.  Deleting an absent identifier is not
    /// an error: the operation always succeeds, and afterwards the
    /// identifier is absent.
    pub fn delete_document(&mut self, id: &str) -> (r: Result<(), StorageError>)
        requires
            old(self).wf(),
        ensures
            final(self).wf(),
            final(self).spec_key() == old(self).spec_key(),
            final(self).setting_entries() == old(self).setting_entries(),
            final(self).doc_entries() == remove_key(old(self).doc_entries(), id@),
            r is Ok,
    {
        let nd = removed(&self.documents, id);
        self.documents = nd;
        Result::Ok(())
    }

    /// Store one setting as a plain JSON string, without the document
    /// records' encryption envelope.
    pub fn save_setting(&mut self, key: &str, value: &str) -> (r: Result<(), StorageError>)
        requires
            old(self).wf(),
        ensures
            final(self).wf(),
            final(self).spec_key() == old(self).spec_key(),
            final(self).doc_entries() == old(self).doc_entries(),
            final(self).setting_entries() == upsert(old(self).setting_entries(), key@, value@),
            r is Ok,
    {
        let ns = upserted(&self.settings, key, value);
        self.settings = ns;
        Result::Ok(())
    }

    /// Fetch one setting's stored JSON string, `Ok(None)` when absent.
    pub fn get_setting(&self, key: &str) -> (r: Result<Option<String>, StorageError>)
        requires
            self.wf(),
        ensures
            r matches Result::Ok(opt) && opt_view(opt) == lookup(
                self.setting_entries(),
                key@,
            ),
    {
        match lookup_entry(&self.settings, key) {
            Option::Some(v) => Result::Ok(Option::Some(v.clone())),
            Option::None => Result::Ok(Option::None),
        }
    }

    /// The raw stored string for one document, as the durable backing
    /// holds it; what the host mirrors out after a save.
    pub fn document_record(&self, id: &str) -> (r: Option<String>)
        ensures
            opt_view(r) == lookup(self.doc_entries(), id@),
    {
        match lookup_entry(&self.documents, id) {
            Option::Some(v) => Option::Some(v.clone()),
            Option::None => Option::None,
        }
    }

    /// Hydrate one raw document record from the durable backing (or
    /// inject one, corrupted or not: the decoding operations above state
    /// what happens to any value).
    pub fn load_document_record(&mut self, id: &str, value: &str)
        requires
            old(self).wf(),
        ensures
            final(self).wf(),
            final(self).spec_key() == old(self).spec_key(),
            final(self).setting_entries() == old(self).setting_entries(),
            final(self).doc_entries() == upsert(old(self).doc_entries(), id@, value@),
    {
        let nd = upserted(&self.documents, id, value);
        self.documents = nd;
    }
}

// ---------------------------------------------------------------------
// Laws of the store.
// ---------------------------------------------------------------------

/// What was just stored under a key is what a lookup of that key finds.
pub proof fn lemma_lookup_upsert(entries: Seq<(Seq<char>, Seq<char>)>, k: Seq<char>, v: Seq<char>)
    ensures
        lookup(upsert(entries, k, v), k) == Option::Some(v),
    decreases entries.len(),
{
    if entries.len() == 0 {
        assert(upsert(entries, k, v)[0] == (k, v));
    } else if entries[0].0 == k {
        assert(upsert(entries, k, v)[0] == (k, v));
    } else {
        assert(upsert(entries, k, v)[0] == entries[0]);
        assert(upsert(entries, k, v).skip(1) =~= upsert(entries.skip(1), k, v));
        lemma_lookup_upsert(entries.skip(1), k, v);
    }
}

/// Storing under one key does not touch what any other key holds.
pub proof fn lemma_lookup_upsert_other(
    entries: Seq<(Seq<char>, Seq<char>)>,
    k: Seq<char>,
    v: Seq<char>,
    k2: Seq<char>,
)
    requires
        k2 != k,
    ensures
        lookup(upsert(entries, k, v), k2) == lookup(entries, k2),
    decreases entries.len(),
{
    if entries.len() == 0 {
        assert(upsert(entries, k, v)[0] == (k, v));
        assert(upsert(entries, k, v).skip(1) =~= Seq::<(Seq<char>, Seq<char>)>::empty());
    } else if entries[0].0 == k {
        assert(upsert(entries, k, v)[0] == (k, v));
        assert(upsert(entries, k, v).skip(1) =~= entries.skip(1));
    } else {
        assert(upsert(entries, k, v)[0] == entries[0]);
        assert(upsert(entries, k, v).skip(1) =~= upsert(entries.skip(1), k, v));
        lemma_lookup_upsert_other(entries.skip(1), k, v, k2);
    }
}

/// After a delete the key is absent: a fetch finds nothing.
pub proof fn lemma_lookup_remove(entries: Seq<(Seq<char>, Seq<char>)>, k: Seq<char>)
    ensures
        lookup(remove_key(entries, k), k) is None,
    decreases entries.len(),
{
    if entries.len() == 0 {
    } else if entries[0].0 == k {
        lemma_lookup_remove(entries.skip(1), k);
    } else {
        assert(remove_key(entries, k)[0] == entries[0]);
        assert(remove_key(entries, k).skip(1) =~= remove_key(entries.skip(1), k));
        lemma_lookup_remove(entries.skip(1), k);
    }
}

/// Deleting one key leaves every other key's record untouched.
pub proof fn lemma_lookup_remove_other(
    entries: Seq<(Seq<char>, Seq<char>)>,
    k: Seq<char>,
    k2: Seq<char>,
)
    requires
        k2 != k,
    ensures
        lookup(remove_key(entries, k), k2) == lookup(entries, k2),
    decreases entries.len(),
{
    if entries.len() == 0 {
    } else if entries[0].0 == k {
        lemma_lookup_remove_other(entries.skip(1), k, k2);
    } else {
        assert(remove_key(entries, k)[0] == entries[0]);
        assert(remove_key(entries, k).skip(1) =~= remove_key(entries.skip(1), k));
        lemma_lookup_remove_other(entries.skip(1), k, k2);
    }
}

/// Deleting an absent key changes nothing: delete is idempotent.
pub proof fn lemma_remove_absent(entries: Seq<(Seq<char>, Seq<char>)>, k: Seq<char>)
    requires
        lookup(entries, k) is None,
    ensures
        remove_key(entries, k) == entries,
    decreases entries.len(),
{
    if entries.len() == 0 {
    } else {
        assert(entries[0].0 != k);
        lemma_remove_absent(entries.skip(1), k);
        assert(seq![entries[0]] + entries.skip(1) =~= entries);
    }
}

/// Round trip through the store: a record that decodes to a document,
/// stored under that document's identifier, is found and decodes to the
/// same document — `save` followed by `get` returns the saved value.
pub proof fn lemma_save_then_get(
    key: Seq<u8>,
    entries: Seq<(Seq<char>, Seq<char>)>,
    stored: Seq<char>,
    dv: DocView,
)
    requires
        decode_rec(key, stored) == Option::Some(dv),
    ensures
        lookup(upsert(entries, dv.id, stored), dv.id) matches Option::Some(s) && decode_rec(
            key,
            s,
        ) == Option::Some(dv),
{
    lemma_lookup_upsert(entries, dv.id, stored);
}

/// A freshly saved document appears in a full scan: the record stored
/// under its identifier decodes, so the scan lists the document.
pub proof fn lemma_saved_document_listed(
    key: Seq<u8>,
    entries: Seq<(Seq<char>, Seq<char>)>,
    stored: Seq<char>,
    dv: DocView,
)
    requires
        decode_rec(key, stored) == Option::Some(dv),
    ensures
        decoded_docs(key, upsert(entries, dv.id, stored)).contains(dv),
    decreases entries.len(),
{
    if entries.len() == 0 {
        let e2 = upsert(entries, dv.id, stored);
        assert(e2[0] == (dv.id, stored));
        assert(e2.skip(1) =~= Seq::<(Seq<char>, Seq<char>)>::empty());
        assert(decoded_docs(key, e2)[0] == dv);
    } else if entries[0].0 == dv.id {
        let e2 = upsert(entries, dv.id, stored);
        assert(e2[0] == (dv.id, stored));
        assert(decoded_docs(key, e2)[0] == dv);
    } else {
        lemma_saved_document_listed(key, entries.skip(1), stored, dv);
        let e2 = upsert(entries, dv.id, stored);
        assert(e2[0] == entries[0]);
        assert(e2.skip(1) =~= upsert(entries.skip(1), dv.id, stored));
        let tail = decoded_docs(key, upsert(entries.skip(1), dv.id, stored));
        let j = choose|j: int| 0 <= j < tail.len() && tail[j] == dv;
        match decode_rec(key, entries[0].1) {
            Option::Some(x) => {
                assert(decoded_docs(key, e2) == seq![x] + tail);
                assert(decoded_docs(key, e2)[j + 1] == dv);
            },
            Option::None => {
                assert(decoded_docs(key, e2) == tail);
            },
        }
    }
}

/// A record that does not decode contributes nothing to a full scan:
/// with it removed, the scan returns exactly the same documents.
#[verifier::rlimit(60)]
pub proof fn lemma_corrupt_record_skipped(
    key: Seq<u8>,
    entries: Seq<(Seq<char>, Seq<char>)>,
    i: int,
)
    requires
        0 <= i < entries.len(),
        decode_rec(key, entries[i].1) is None,
    ensures
        decoded_docs(key, entries) == decoded_docs(key, entries.remove(i)),
    decreases entries.len(),
{
    if i == 0 {
        assert(entries.remove(0) =~= entries.skip(1));
    } else {
        assert(entries.skip(1)[i - 1] == entries[i]);
        lemma_corrupt_record_skipped(key, entries.skip(1), i - 1);
        let e2 = entries.remove(i);
        assert(e2.skip(1) =~= entries.skip(1).remove(i - 1));
        assert(e2[0] == entries[0]);
        match decode_rec(key, entries[0].1) {
            Option::Some(dv) => {
                assert(decoded_docs(key, entries) == seq![dv] + decoded_docs(
                    key, entries.skip(1)));
                assert(decoded_docs(key, e2) == seq![dv] + decoded_docs(key, e2.skip(1)));
            },
            Option::None => {
                assert(decoded_docs(key, entries) == decoded_docs(key, entries.skip(1)));
                assert(decoded_docs(key, e2) == decoded_docs(key, e2.skip(1)));
            },
        }
    }
}

fn lookup_entry<'a>(entries: &'a Vec<(String, String)>, k: &str) -> (r: Option<&'a String>)
    ensures
        match r {
            Option::Some(v) => lookup(views(entries@), k@) == Option::Some(v@),
            Option::None => lookup(views(entries@), k@) is None,
        },
{
    let ghost vs = views(entries@);
    let mut i: usize = 0;
    proof {
        assert(vs.skip(0) =~= vs);
    }
    while i < entries.len()
        invariant
            i <= entries@.len(),
            vs == views(entries@),
            lookup(vs, k@) == lookup(vs.skip(i as int), k@),
        decreases entries@.len() - i,
    {
        let pair = &entries[i];
        proof {
            assert(vs.skip(i as int)[0] == vs[i as int]);
            assert(vs.skip(i as int).skip(1) =~= vs.skip(i + 1));
        }
        if str_eq(pair.0.as_str(), k) {
            return Option::Some(&pair.1);
        }
        i = i + 1;
    }
    proof {
        assert(vs.skip(entries@.len() as int) =~= Seq::<(Seq<char>, Seq<char>)>::empty());
    }
    Option::None
}

/// The collection with `v` stored under `k`, rebuilt.
fn upserted(entries: &Vec<(String, String)>, k: &str, v: &str) -> (r: Vec<(String, String)>)
    ensures
        views(r@) == upsert(views(entries@), k@, v@),
{
    let ghost vs = views(entries@);
    let mut out: Vec<(String, String)> = Vec::new();
    let mut found = false;
    let mut i: usize = 0;
    proof {
        assert(vs.skip(0) =~= vs);
        assert(views(out@) =~= Seq::<(Seq<char>, Seq<char>)>::empty());
        assert(Seq::<(Seq<char>, Seq<char>)>::empty() + upsert(vs, k@, v@) =~= upsert(
            vs, k@, v@));
    }
    while i < entries.len()
        invariant
            i <= entries@.len(),
            vs == views(entries@),
            found ==> upsert(vs, k@, v@) == views(out@) + vs.skip(i as int),
            !found ==> upsert(vs, k@, v@) == views(out@) + upsert(vs.skip(i as int), k@, v@),
        decreases entries@.len() - i,
    {
        let pair = &entries[i];
        proof {
            assert(vs.skip(i as int)[0] == vs[i as int]);
            assert(vs.skip(i as int).skip(1) =~= vs.skip(i + 1));
        }
        let ghost out0 = out@;
        if !found && str_eq(pair.0.as_str(), k) {
            out.push((k.to_owned(), v.to_owned()));
            found = true;
            proof {
                assert(views(out@) =~= views(out0).push((k@, v@)));
                assert(upsert(vs.skip(i as int), k@, v@) == seq![(k@, v@)] + vs.skip(i + 1));
                assert(views(out0) + (seq![(k@, v@)] + vs.skip(i + 1)) =~= views(out@) + vs.skip(
                    i + 1));
            }
        } else {
            out.push((pair.0.clone(), pair.1.clone()));
            proof {
                assert(views(out@) =~= views(out0).push(vs[i as int]));
                if found {
                    assert(vs.skip(i as int) =~= seq![vs[i as int]] + vs.skip(i + 1));
                    assert(views(out0) + (seq![vs[i as int]] + vs.skip(i + 1)) =~= views(out@)
                        + vs.skip(i + 1));
                } else {
                    assert(upsert(vs.skip(i as int), k@, v@) == seq![vs[i as int]] + upsert(
                        vs.skip(i + 1), k@, v@));
                    assert(views(out0) + (seq![vs[i as int]] + upsert(vs.skip(i + 1), k@, v@))
                        =~= views(out@) + upsert(vs.skip(i + 1), k@, v@));
                }
            }
        }
        i = i + 1;
    }
    proof {
        assert(vs.skip(entries@.len() as int) =~= Seq::<(Seq<char>, Seq<char>)>::empty());
    }
    if !found {
        let ghost out0 = out@;
        out.push((k.to_owned(), v.to_owned()));
        proof {
            assert(views(out@) =~= views(out0).push((k@, v@)));
            assert(upsert(Seq::<(Seq<char>, Seq<char>)>::empty(), k@, v@) == seq![(k@, v@)]);
            assert(views(out0) + seq![(k@, v@)] =~= views(out@));
            assert(views(out@) + Seq::<(Seq<char>, Seq<char>)>::empty() =~= views(out@));
        }
    } else {
        proof {
            assert(views(out@) + Seq::<(Seq<char>, Seq<char>)>::empty() =~= views(out@));
        }
    }
    out
}

/// The collection without any entry for `k`, rebuilt.
fn removed(entries: &Vec<(String, String)>, k: &str) -> (r: Vec<(String, String)>)
    ensures
        views(r@) == remove_key(views(entries@), k@),
{
    let ghost vs = views(entries@);
    let mut out: Vec<(String, String)> = Vec::new();
    let mut i: usize = 0;
    proof {
        assert(vs.skip(0) =~= vs);
        assert(views(out@) =~= Seq::<(Seq<char>, Seq<char>)>::empty());
        assert(Seq::<(Seq<char>, Seq<char>)>::empty() + remove_key(vs, k@) =~= remove_key(
            vs, k@));
    }
    while i < entries.len()
        invariant
            i <= entries@.len(),
            vs == views(entries@),
            remove_key(vs, k@) == views(out@) + remove_key(vs.skip(i as int), k@),
        decreases entries@.len() - i,
    {
        let pair = &entries[i];
        proof {
            assert(vs.skip(i as int)[0] == vs[i as int]);
            assert(vs.skip(i as int).skip(1) =~= vs.skip(i + 1));
        }
        let ghost out0 = out@;
        if str_eq(pair.0.as_str(), k) {
            proof {
                assert(remove_key(vs.skip(i as int), k@) == remove_key(vs.skip(i + 1), k@));
            }
        } else {
            out.push((pair.0.clone(), pair.1.clone()));
            proof {
                assert(views(out@) =~= views(out0).push(vs[i as int]));
                assert(remove_key(vs.skip(i as int), k@) == seq![vs[i as int]] + remove_key(
                    vs.skip(i + 1), k@));
                assert(views(out0) + (seq![vs[i as int]] + remove_key(vs.skip(i + 1), k@))
                    =~= views(out@) + remove_key(vs.skip(i + 1), k@));
            }
        }
        i = i + 1;
    }
    proof {
        assert(vs.skip(entries@.len() as int) =~= Seq::<(Seq<char>, Seq<char>)>::empty());
        assert(views(out@) + Seq::<(Seq<char>, Seq<char>)>::empty() =~= views(out@));
    }
    out
}

/// The bytes `v[a..b]` as their own vector.
fn vec_range(v: &Vec<u8>, a: usize, b: usize) -> (r: Vec<u8>)
    requires
        a <= b <= v@.len(),
    ensures
        r@ == v@.subrange(a as int, b as int),
{
    let mut out: Vec<u8> = Vec::new();
    let mut i: usize = a;
    while i < b
        invariant
            a <= i <= b <= v@.len(),
            out@ == v@.subrange(a as int, i as int),
        decreases b - i,
    {
        out.push(v[i]);
        i = i + 1;
        proof {
            assert(v@.subrange(a as int, i as int) =~= v@.subrange(a as int, i - 1).push(
                v@[i - 1]));
        }
    }
    out
}

} // verus!

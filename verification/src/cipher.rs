use vstd::prelude::*;
use vstd::utf8::{decode_utf8, decode_utf8_encode_utf8, encode_utf8, encode_utf8_decode_utf8,
    encode_utf8_valid_utf8, valid_utf8};

use crate::error::{KvError, KvResult};
use crate::types::{EncEntryView, EncTagView, KvEncEntry, KvEncTag, KvEntry, KvTag, TagView,
    enc_tags_view, tags_view, EntryView};

verus! {

// ---------------------------------------------------------------------------
// Store keys
// ---------------------------------------------------------------------------

/// A per-profile symmetric key.  An entry's category, name, value and tag
/// names are transformed under the owning profile's key; plaintext-flagged
/// tag values are left in clear so that they stay equality-searchable.
#[derive(Clone, Debug)]
pub struct StoreKey {
    pub data: Vec<u8>,
}

impl StoreKey {
    pub open spec fn wf(&self) -> bool {
        self.data@.len() > 0
    }

    /// A copy of this key with the same bytes.
    pub fn duplicate(&self) -> (r: StoreKey)
        ensures
            r.data@ == self.data@,
            r.wf() == self.wf(),
    {
        StoreKey { data: copy_bytes(&self.data) }
    }
}

/// The bytes of an optional key; `None` stands for the plain (identity)
/// capability.
pub open spec fn okey_view(key: Option<StoreKey>) -> Option<Seq<u8>> {
    match key {
        Some(k) => Some(k.data@),
        None => None,
    }
}

/// Well-formedness of an optional key.
pub open spec fn okey_wf(key: Option<StoreKey>) -> bool {
    match key {
        Some(k) => k.wf(),
        None => true,
    }
}

/// A copy of a `Vec<u8>` with the same contents.
pub fn copy_bytes(v: &Vec<u8>) -> (r: Vec<u8>)
    ensures
        r@ == v@,
{
    let r = v.clone();
    proof {
        assert(r@ =~= v@);
    }
    r
}

// ---------------------------------------------------------------------------
// The byte-level transform
// ---------------------------------------------------------------------------

/// The key's check byte: the wrapping sum of its bytes.  It is stored as the
/// first byte of every ciphertext and acts as the authentication tag that a
/// decryption under a mismatched key fails on.
pub open spec fn key_check_sum(key: Seq<u8>) -> u8
    decreases key.len(),
{
    if key.len() == 0 {
        0u8
    } else {
        ((key_check_sum(key.drop_last()) as int + key.last() as int) % 256) as u8
    }
}

/// The keystream byte applied at position `i`.
pub open spec fn mask_byte(key: Seq<u8>, i: int, b: u8) -> u8
    recommends
        key.len() > 0,
{
    b ^ key[i % key.len() as int]
}

/// The ciphertext of `data` under `key`: the key's check byte followed by
/// the masked payload.
pub open spec fn enc_bytes_spec(key: Seq<u8>, data: Seq<u8>) -> Seq<u8>
    recommends
        key.len() > 0,
{
    seq![key_check_sum(key)] + Seq::new(data.len(), |i: int| mask_byte(key, i, data[i]))
}

/// The plaintext recovered from `ct` under `key`, or `None` when the check
/// byte does not match the key.
pub open spec fn dec_bytes_spec(key: Seq<u8>, ct: Seq<u8>) -> Option<Seq<u8>>
    recommends
        key.len() > 0,
{
    if ct.len() >= 1 && ct[0] == key_check_sum(key) {
        Some(Seq::new((ct.len() - 1) as nat, |i: int| mask_byte(key, i, ct[i + 1])))
    } else {
        None
    }
}

/// The check byte of a key.
pub fn key_check(key: &Vec<u8>) -> (r: u8)
    ensures
        r == key_check_sum(key@),
{
    let mut c: u8 = 0;
    let mut i: usize = 0;
    while i < key.len()
        invariant
            i <= key@.len(),
            c == key_check_sum(key@.take(i as int)),
        decreases key@.len() - i,
    {
        c = (((c as u16) + (key[i] as u16)) % 256) as u8;
        proof {
            assert(key@.take(i + 1).drop_last() =~= key@.take(i as int));
            assert(key@.take(i + 1).last() == key@[i as int]);
        }
        i += 1;
    }
    proof {
        assert(key@.take(key@.len() as int) =~= key@);
    }
    c
}

/// Encrypts `data` under `key`.
pub fn encrypt_bytes(key: &Vec<u8>, data: &Vec<u8>) -> (r: Vec<u8>)
    requires
        key@.len() > 0,
    ensures
        r@ == enc_bytes_spec(key@, data@),
{
    let mut out: Vec<u8> = Vec::new();
    out.push(key_check(key));
    let mut i: usize = 0;
    while i < data.len()
        invariant
            key@.len() > 0,
            i <= data@.len(),
            out@.len() == i + 1,
            out@[0] == key_check_sum(key@),
            forall|j: int| 0 <= j < i ==> out@[j + 1] == mask_byte(key@, j, data@[j]),
        decreases data@.len() - i,
    {
        out.push(data[i] ^ key[i % key.len()]);
        i += 1;
    }
    proof {
        assert(out@ =~= enc_bytes_spec(key@, data@));
    }
    out
}

/// Decrypts `ct` under `key`, failing when the check byte does not match.
pub fn decrypt_bytes(key: &Vec<u8>, ct: &Vec<u8>) -> (r: KvResult<Vec<u8>>)
    requires
        key@.len() > 0,
    ensures
        match r {
            Ok(pt) => dec_bytes_spec(key@, ct@) == Some(pt@),
            Err(e) => e == KvError::Encryption && dec_bytes_spec(key@, ct@) is None,
        },
{
    if ct.len() == 0 || ct[0] != key_check(key) {
        return Err(KvError::Encryption);
    }
    let mut out: Vec<u8> = Vec::new();
    let mut i: usize = 1;
    while i < ct.len()
        invariant
            key@.len() > 0,
            1 <= i <= ct@.len(),
            out@.len() == i - 1,
            forall|j: int| 0 <= j < i - 1 ==> out@[j] == mask_byte(key@, j, ct@[j + 1]),
        decreases ct@.len() - i,
    {
        out.push(ct[i] ^ key[(i - 1) % key.len()]);
        i += 1;
    }
    proof {
        assert(out@ =~= dec_bytes_spec(key@, ct@).unwrap());
    }
    Ok(out)
}

/// Masking the same position twice with the same key gives the byte back.
pub proof fn lemma_cipher_roundtrip(key: Seq<u8>, data: Seq<u8>)
    requires
        key.len() > 0,
    ensures
        dec_bytes_spec(key, enc_bytes_spec(key, data)) == Some(data),
{
    let ct = enc_bytes_spec(key, data);
    let pt = dec_bytes_spec(key, ct).unwrap();
    assert forall|i: int| 0 <= i < data.len() implies pt[i] == data[i] by {
        let b = data[i];
        let k = key[i % key.len() as int];
        assert((b ^ k) ^ k == b) by (bit_vector);
    }
    assert(pt =~= data);
}

/// Under one key, equal ciphertexts come from equal plaintexts.
pub proof fn lemma_cipher_deterministic_injective(key: Seq<u8>, d1: Seq<u8>, d2: Seq<u8>)
    requires
        key.len() > 0,
        enc_bytes_spec(key, d1) == enc_bytes_spec(key, d2),
    ensures
        d1 == d2,
{
    lemma_cipher_roundtrip(key, d1);
    lemma_cipher_roundtrip(key, d2);
}

// ---------------------------------------------------------------------------
// Field-level operations: identity under the plain capability
// ---------------------------------------------------------------------------

/// What a stored field holds for the given (optional) key.
pub open spec fn enc_field_spec(key: Option<Seq<u8>>, data: Seq<u8>) -> Seq<u8> {
    match key {
        Some(k) => enc_bytes_spec(k, data),
        None => data,
    }
}

/// The plaintext of a stored field, or `None` on a key mismatch.
pub open spec fn dec_field_spec(key: Option<Seq<u8>>, data: Seq<u8>) -> Option<Seq<u8>> {
    match key {
        Some(k) => dec_bytes_spec(k, data),
        None => Some(data),
    }
}

/// The characters a stored string field decrypts to, or `None` on a key
/// mismatch or on bytes that are not a UTF-8 encoding.
pub open spec fn dec_string_spec(key: Option<Seq<u8>>, data: Seq<u8>) -> Option<Seq<char>> {
    match dec_field_spec(key, data) {
        Some(b) => if valid_utf8(b) {
            Some(decode_utf8(b))
        } else {
            None
        },
        None => None,
    }
}

/// Encrypts one field.
pub fn encrypt_field(key: &Option<StoreKey>, data: &Vec<u8>) -> (r: Vec<u8>)
    requires
        okey_wf(*key),
    ensures
        r@ == enc_field_spec(okey_view(*key), data@),
{
    match key {
        Some(k) => encrypt_bytes(&k.data, data),
        None => copy_bytes(data),
    }
}

/// Decrypts one field.
pub fn decrypt_field(key: &Option<StoreKey>, data: &Vec<u8>) -> (r: KvResult<Vec<u8>>)
    requires
        okey_wf(*key),
    ensures
        match r {
            Ok(pt) => dec_field_spec(okey_view(*key), data@) == Some(pt@),
            Err(e) => e == KvError::Encryption && dec_field_spec(okey_view(*key), data@) is None,
        },
{
    match key {
        Some(k) => decrypt_bytes(&k.data, data),
        None => Ok(copy_bytes(data)),
    }
}

/// Encrypts the UTF-8 bytes of a string field.
pub fn encrypt_string_field(key: &Option<StoreKey>, s: &str) -> (r: Vec<u8>)
    requires
        okey_wf(*key),
    ensures
        r@ == enc_field_spec(okey_view(*key), encode_utf8(s@)),
{
    let b = s.as_bytes_vec();
    encrypt_field(key, &b)
}

/// Relies on `String::from_utf8`: returns the string reading exactly the
/// given bytes when they are a valid UTF-8 encoding, and nothing otherwise.
#[verifier::external_body]
fn vec_to_string(v: Vec<u8>) -> (r: Option<String>)
    ensures
        match r {
            Some(s) => valid_utf8(v@) && s@ == decode_utf8(v@),
            None => !valid_utf8(v@),
        },
{
    String::from_utf8(v).ok()
}

/// Decrypts a stored string field back to its characters.
pub fn decrypt_string_field(key: &Option<StoreKey>, data: &Vec<u8>) -> (r: KvResult<String>)
    requires
        okey_wf(*key),
    ensures
        match r {
            Ok(s) => dec_string_spec(okey_view(*key), data@) == Some(s@),
            Err(e) => e == KvError::Encryption && dec_string_spec(okey_view(*key), data@) is None,
        },
{
    let b = decrypt_field(key, data)?;
    match vec_to_string(b) {
        Some(s) => Ok(s),
        None => Err(KvError::Encryption),
    }
}

// ---------------------------------------------------------------------------
// Entry-level operations
// ---------------------------------------------------------------------------

/// The characters of a UTF-8 byte sequence, when it is one.
pub open spec fn utf8_chars(b: Seq<u8>) -> Option<Seq<char>> {
    if valid_utf8(b) {
        Some(decode_utf8(b))
    } else {
        None
    }
}

/// A stored tag: the name always goes under the key; the value only when the
/// tag is not plaintext-flagged.
pub open spec fn enc_tag_spec(key: Option<Seq<u8>>, t: TagView) -> EncTagView {
    EncTagView {
        name: enc_field_spec(key, encode_utf8(t.name)),
        value: if t.plaintext {
            encode_utf8(t.value)
        } else {
            enc_field_spec(key, encode_utf8(t.value))
        },
        plaintext: t.plaintext,
    }
}

/// The stored form of a tag set.
pub open spec fn enc_tags_spec(key: Option<Seq<u8>>, ts: Seq<TagView>) -> Seq<EncTagView> {
    Seq::new(ts.len(), |i: int| enc_tag_spec(key, ts[i]))
}

/// The stored form of an entry.
pub open spec fn encrypt_entry_spec(key: Option<Seq<u8>>, e: EntryView) -> (EncEntryView, Option<
    Seq<EncTagView>,
>) {
    (
        EncEntryView {
            category: enc_field_spec(key, encode_utf8(e.category)),
            name: enc_field_spec(key, encode_utf8(e.name)),
            value: enc_field_spec(key, e.value),
        },
        match e.tags {
            Some(ts) => Some(enc_tags_spec(key, ts)),
            None => None,
        },
    )
}

/// The tag recovered from its stored form, or `None` on a mismatch.
pub open spec fn dec_tag_spec(key: Option<Seq<u8>>, t: EncTagView) -> Option<TagView> {
    let name = dec_string_spec(key, t.name);
    let value = if t.plaintext {
        utf8_chars(t.value)
    } else {
        dec_string_spec(key, t.value)
    };
    match (name, value) {
        (Some(n), Some(v)) => Some(TagView { name: n, value: v, plaintext: t.plaintext }),
        _ => None,
    }
}

/// The tag set recovered from its stored form; `None` when any tag fails.
pub open spec fn dec_tags_spec(key: Option<Seq<u8>>, ts: Seq<EncTagView>) -> Option<Seq<TagView>>
    decreases ts.len(),
{
    if ts.len() == 0 {
        Some(Seq::empty())
    } else {
        match (dec_tags_spec(key, ts.drop_last()), dec_tag_spec(key, ts.last())) {
            (Some(init), Some(t)) => Some(init.push(t)),
            _ => None,
        }
    }
}

/// Encrypts an entry's identifying fields, value and tag set for storage.
pub fn encrypt_entry(key: &Option<StoreKey>, entry: &KvEntry) -> (r: (
    KvEncEntry,
    Option<Vec<KvEncTag>>,
))
    requires
        okey_wf(*key),
    ensures
        ({
            let (se, st) = encrypt_entry_spec(okey_view(*key), entry@);
            &&& r.0@ == se
            &&& match (r.1, st) {
                (Some(v), Some(s)) => enc_tags_view(v@) == s,
                (None, None) => true,
                _ => false,
            }
        }),
{
    let enc = KvEncEntry {
        category: encrypt_string_field(key, entry.category.as_str()),
        name: encrypt_string_field(key, entry.name.as_str()),
        value: encrypt_field(key, &entry.value),
    };
    let tags = match &entry.tags {
        Some(ts) => {
            let ghost gk = okey_view(*key);
            let ghost tsv = tags_view(ts@);
            let mut out: Vec<KvEncTag> = Vec::new();
            let mut i: usize = 0;
            while i < ts.len()
                invariant
                    okey_wf(*key),
                    i <= ts@.len(),
                    tsv == tags_view(ts@),
                    gk == okey_view(*key),
                    out@.len() == i,
                    forall|j: int| 0 <= j < i ==> #[trigger] out@[j]@ == enc_tag_spec(gk, tsv[j]),
                decreases ts@.len() - i,
            {
                let t = &ts[i];
                let name = encrypt_string_field(key, t.name.as_str());
                let value = if t.plaintext {
                    t.value.as_str().as_bytes_vec()
                } else {
                    encrypt_string_field(key, t.value.as_str())
                };
                out.push(KvEncTag { name, value, plaintext: t.plaintext });
                i += 1;
            }
            proof {
                assert(enc_tags_view(out@) =~= enc_tags_spec(gk, tsv));
            }
            Some(out)
        },
        None => None,
    };
    (enc, tags)
}

/// When one tag in a set fails to decrypt, the whole set does.
proof fn lemma_dec_tags_none(key: Option<Seq<u8>>, ts: Seq<EncTagView>, i: int)
    requires
        0 <= i < ts.len(),
        dec_tag_spec(key, ts[i]) is None,
    ensures
        dec_tags_spec(key, ts) is None,
    decreases ts.len(),
{
    if i < ts.len() - 1 {
        lemma_dec_tags_none(key, ts.drop_last(), i);
    }
}

/// Decrypts a stored tag set.
pub fn decrypt_entry_tags(key: &Option<StoreKey>, tags: &Vec<KvEncTag>) -> (r: KvResult<
    Vec<KvTag>,
>)
    requires
        okey_wf(*key),
    ensures
        match r {
            Ok(v) => dec_tags_spec(okey_view(*key), enc_tags_view(tags@)) == Some(tags_view(v@)),
            Err(e) => e == KvError::Encryption && dec_tags_spec(
                okey_view(*key),
                enc_tags_view(tags@),
            ) is None,
        },
{
    let ghost gk = okey_view(*key);
    let ghost etv = enc_tags_view(tags@);
    let mut out: Vec<KvTag> = Vec::new();
    let mut i: usize = 0;
    while i < tags.len()
        invariant
            okey_wf(*key),
            i <= tags@.len(),
            gk == okey_view(*key),
            etv == enc_tags_view(tags@),
            dec_tags_spec(gk, etv.take(i as int)) == Some(tags_view(out@)),
            out@.len() == i,
        decreases tags@.len() - i,
    {
        let t = &tags[i];
        let name = match decrypt_string_field(key, &t.name) {
            Ok(n) => n,
            Err(e) => {
                proof {
                    lemma_dec_tags_none(gk, etv, i as int);
                }
                return Err(e);
            },
        };
        let value_res = if t.plaintext {
            match vec_to_string(copy_bytes(&t.value)) {
                Some(v) => Ok(v),
                None => Err(KvError::Encryption),
            }
        } else {
            decrypt_string_field(key, &t.value)
        };
        let value = match value_res {
            Ok(v) => v,
            Err(e) => {
                proof {
                    lemma_dec_tags_none(gk, etv, i as int);
                }
                return Err(e);
            },
        };
        out.push(KvTag { name, value, plaintext: t.plaintext });
        proof {
            assert(etv.take(i + 1).drop_last() =~= etv.take(i as int));
            assert(etv.take(i + 1).last() == etv[i as int]);
            assert(tags_view(out@) =~= tags_view(out@.drop_last()).push(out@.last()@));
        }
        i += 1;
    }
    proof {
        assert(etv.take(etv.len() as int) =~= etv);
    }
    Ok(out)
}

// ---------------------------------------------------------------------------
// The round-trip law
// ---------------------------------------------------------------------------

/// Decrypting an encrypted field gives the field back.
pub proof fn lemma_field_roundtrip(key: Option<Seq<u8>>, d: Seq<u8>)
    requires
        key matches Some(k) ==> k.len() > 0,
    ensures
        dec_field_spec(key, enc_field_spec(key, d)) == Some(d),
{
    match key {
        Some(k) => lemma_cipher_roundtrip(k, d),
        None => (),
    }
}

/// Decrypting an encrypted string field gives its characters back.
pub proof fn lemma_string_roundtrip(key: Option<Seq<u8>>, s: Seq<char>)
    requires
        key matches Some(k) ==> k.len() > 0,
    ensures
        dec_string_spec(key, enc_field_spec(key, encode_utf8(s))) == Some(s),
{
    broadcast use encode_utf8_valid_utf8, encode_utf8_decode_utf8;

    lemma_field_roundtrip(key, encode_utf8(s));
}

/// Decrypting an encrypted tag set gives every tag back.
pub proof fn lemma_tags_roundtrip(key: Option<Seq<u8>>, ts: Seq<TagView>)
    requires
        key matches Some(k) ==> k.len() > 0,
    ensures
        dec_tags_spec(key, enc_tags_spec(key, ts)) == Some(ts),
    decreases ts.len(),
{
    broadcast use encode_utf8_valid_utf8, encode_utf8_decode_utf8;

    let ets = enc_tags_spec(key, ts);
    if ts.len() == 0 {
        assert(ts =~= Seq::<TagView>::empty());
    } else {
        lemma_tags_roundtrip(key, ts.drop_last());
        assert(ets.drop_last() =~= enc_tags_spec(key, ts.drop_last()));
        lemma_string_roundtrip(key, ts.last().name);
        lemma_string_roundtrip(key, ts.last().value);
        assert(dec_tag_spec(key, ets.last()) == Some(ts.last()));
        assert(ts.drop_last().push(ts.last()) =~= ts);
    }
}

/// The round-trip law: for every entry, decryption is the exact inverse of
/// encryption on its category, name, value and every tag.
pub proof fn lemma_entry_roundtrip(key: Option<Seq<u8>>, e: EntryView)
    requires
        key matches Some(k) ==> k.len() > 0,
    ensures
        ({
            let (enc, enc_tags) = encrypt_entry_spec(key, e);
            &&& dec_string_spec(key, enc.category) == Some(e.category)
            &&& dec_string_spec(key, enc.name) == Some(e.name)
            &&& dec_field_spec(key, enc.value) == Some(e.value)
            &&& match (e.tags, enc_tags) {
                (Some(ts), Some(ets)) => dec_tags_spec(key, ets) == Some(ts),
                (None, None) => true,
                _ => false,
            }
        }),
{
    lemma_string_roundtrip(key, e.category);
    lemma_string_roundtrip(key, e.name);
    lemma_field_roundtrip(key, e.value);
    match e.tags {
        Some(ts) => lemma_tags_roundtrip(key, ts),
        None => (),
    }
}

} // verus!

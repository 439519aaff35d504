use vstd::prelude::*;

verus! {

/// Identifier of a profile: an isolated namespace of entries.
pub type ProfileId = i64;

/// Identifier of a per-profile store key.
pub type KeyId = i64;

/// A tag attached to an entry.  A plaintext tag is stored with its value in
/// clear so that it stays equality-searchable; an encrypted tag is opaque.
#[derive(Clone, Debug, PartialEq, Eq)]
pub struct KvTag {
    pub name: String,
    pub value: String,
    pub plaintext: bool,
}

/// Mathematical image of a [`KvTag`].
pub ghost struct TagView {
    pub name: Seq<char>,
    pub value: Seq<char>,
    pub plaintext: bool,
}

impl View for KvTag {
    type V = TagView;

    open spec fn view(&self) -> TagView {
        TagView { name: self.name@, value: self.value@, plaintext: self.plaintext }
    }
}

/// The caller-visible unit of storage: one (category, name) record with an
/// opaque value and an optional tag set.
#[derive(Clone, Debug, PartialEq, Eq)]
pub struct KvEntry {
    pub category: String,
    pub name: String,
    pub value: Vec<u8>,
    pub tags: Option<Vec<KvTag>>,
}

/// Mathematical image of a [`KvEntry`].
pub ghost struct EntryView {
    pub category: Seq<char>,
    pub name: Seq<char>,
    pub value: Seq<u8>,
    pub tags: Option<Seq<TagView>>,
}

/// The views of a sequence of tags.
pub open spec fn tags_view(tags: Seq<KvTag>) -> Seq<TagView> {
    Seq::new(tags.len(), |i: int| tags[i]@)
}

impl View for KvEntry {
    type V = EntryView;

    open spec fn view(&self) -> EntryView {
        EntryView {
            category: self.category@,
            name: self.name@,
            value: self.value@,
            tags: match self.tags {
                Some(ts) => Some(tags_view(ts@)),
                None => None,
            },
        }
    }
}

/// The views of a sequence of entries.
pub open spec fn entries_view(es: Seq<KvEntry>) -> Seq<EntryView> {
    Seq::new(es.len(), |i: int| es[i]@)
}

/// An encrypted tag as it rests in storage.
#[derive(Clone, Debug, PartialEq, Eq)]
pub struct KvEncTag {
    pub name: Vec<u8>,
    pub value: Vec<u8>,
    pub plaintext: bool,
}

/// Mathematical image of a [`KvEncTag`].
pub ghost struct EncTagView {
    pub name: Seq<u8>,
    pub value: Seq<u8>,
    pub plaintext: bool,
}

impl View for KvEncTag {
    type V = EncTagView;

    open spec fn view(&self) -> EncTagView {
        EncTagView { name: self.name@, value: self.value@, plaintext: self.plaintext }
    }
}

/// The views of a sequence of encrypted tags.
pub open spec fn enc_tags_view(tags: Seq<KvEncTag>) -> Seq<EncTagView> {
    Seq::new(tags.len(), |i: int| tags[i]@)
}

/// The identifying fields and value of an entry, encrypted.
#[derive(Clone, Debug, PartialEq, Eq)]
pub struct KvEncEntry {
    pub category: Vec<u8>,
    pub name: Vec<u8>,
    pub value: Vec<u8>,
}

/// Mathematical image of a [`KvEncEntry`].
pub ghost struct EncEntryView {
    pub category: Seq<u8>,
    pub name: Seq<u8>,
    pub value: Seq<u8>,
}

impl View for KvEncEntry {
    type V = EncEntryView;

    open spec fn view(&self) -> EncEntryView {
        EncEntryView { category: self.category@, name: self.name@, value: self.value@ }
    }
}

/// One requested write: the entry, the profile it belongs to (`None` for the
/// store's default profile) and an optional expiry offset in milliseconds.
#[derive(Clone, Debug, PartialEq, Eq)]
pub struct KvUpdateEntry {
    pub profile_id: Option<ProfileId>,
    pub entry: KvEntry,
    pub expire_ms: Option<i64>,
}

/// Mathematical image of a [`KvUpdateEntry`].
pub ghost struct UpdateEntryView {
    pub profile_id: Option<ProfileId>,
    pub entry: EntryView,
    pub expire_ms: Option<i64>,
}

impl View for KvUpdateEntry {
    type V = UpdateEntryView;

    open spec fn view(&self) -> UpdateEntryView {
        UpdateEntryView { profile_id: self.profile_id, entry: self.entry@, expire_ms: self.expire_ms }
    }
}

/// Options of a read operation.
#[derive(Clone, Copy, Debug, PartialEq, Eq, Structural, Default)]
pub struct KvFetchOptions {
    pub retrieve_tags: bool,
}

impl KvFetchOptions {
    /// Options asking for the tag set to be returned as well.
    pub fn with_tags() -> (r: Self)
        ensures
            r.retrieve_tags,
    {
        KvFetchOptions { retrieve_tags: true }
    }
}

/// Adds an offset in milliseconds to a clock reading, as the absolute expiry
/// timestamp of an entry or lock lease; `None` when the sum leaves `i64`.
pub fn expiry_timestamp(now_ms: i64, offset_ms: i64) -> (r: Option<i64>)
    ensures
        r matches Some(t) ==> t == now_ms + offset_ms,
        r is None <==> !(i64::MIN <= now_ms + offset_ms <= i64::MAX),
{
    now_ms.checked_add(offset_ms)
}

} // verus!

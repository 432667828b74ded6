use vstd::prelude::*;
use vstd::string::*;

verus! {

/// Where a blob is known to exist.
#[derive(PartialEq, Eq, Structural, Clone, Copy, Debug)]
pub enum Location {
    Remote,
    Local,
    Synced,
}

/// One file of a container, either listed remotely or found on disk.
#[derive(Clone, Debug)]
pub struct Blob {
    pub name: String,
    pub length: u64,
    pub bytes: Option<Vec<u8>>,
    pub md5: [u8; 16],
    pub location: Location,
}

impl Blob {
    pub fn new(
        name: String,
        length: u64,
        bytes: Option<Vec<u8>>,
        md5: [u8; 16],
        location: Location,
    ) -> (blob: Self)
        ensures
            blob.name == name,
            blob.length == length,
            blob.bytes == bytes,
            blob.md5 == md5,
            blob.location == location,
    {
        Blob { name, length, bytes, md5, location }
    }
}

/// What `md5::compute` returns for some bytes: their MD5 digest.
pub uninterp spec fn md5_digest(data: Seq<u8>) -> Seq<u8>;

/// `md5::compute`: the 16-byte MD5 digest of `data`, a function of the bytes
/// alone; the digest itself is named by `md5_digest`.
#[verifier::external_body]
fn compute_md5(data: &[u8]) -> (r: [u8; 16])
    ensures
        r@ == md5_digest(data@),
{
    md5::compute(data).0
}

/// The blob that stands for a file read from the local folder: its length and
/// digest are those of its bytes, which it does not keep.
pub fn local_blob(name: String, bytes: Vec<u8>) -> (b: Blob)
    ensures
        b.name == name,
        b.length == bytes.len(),
        b.bytes is None,
        b.md5@ == md5_digest(bytes@),
        b.location == Location::Local,
{
    let length = bytes.len() as u64;
    let digest = compute_md5(bytes.as_slice());
    Blob::new(name, length, None, digest, Location::Local)
}

/// Files up to this size are read in one batch; larger ones one at a time.
pub const SIZE_THRESHOLD: u64 = 10 * 1024 * 1024;

/// Indices of the files that go in the first batch (`small == true`: at most
/// `SIZE_THRESHOLD` bytes) or on their own (`small == false`), in order.
pub open spec fn size_class_indices(lengths: Seq<u64>, small: bool) -> Seq<usize>
    decreases lengths.len(),
{
    if lengths.len() == 0 {
        Seq::empty()
    } else {
        let earlier = size_class_indices(lengths.drop_last(), small);
        if (lengths.last() <= SIZE_THRESHOLD) == small {
            earlier.push((lengths.len() - 1) as usize)
        } else {
            earlier
        }
    }
}

/// Every file is in exactly one of the two classes.
pub proof fn lemma_size_classes_cover(lengths: Seq<u64>)
    ensures
        size_class_indices(lengths, true).len() + size_class_indices(lengths, false).len()
            == lengths.len(),
    decreases lengths.len(),
{
    if lengths.len() > 0 {
        lemma_size_classes_cover(lengths.drop_last());
    }
}

/// Splits files by size: the indices of the small files, then of the large
/// ones, each in the order given.
pub fn partition_by_size(lengths: &Vec<u64>) -> (r: (Vec<usize>, Vec<usize>))
    ensures
        r.0@ == size_class_indices(lengths@, true),
        r.1@ == size_class_indices(lengths@, false),
        r.0.len() + r.1.len() == lengths.len(),
{
    proof {
        lemma_size_classes_cover(lengths@);
    }
    let mut small: Vec<usize> = Vec::new();
    let mut large: Vec<usize> = Vec::new();
    let mut i: usize = 0;
    while i < lengths.len()
        invariant
            i <= lengths.len(),
            small@ == size_class_indices(lengths@.take(i as int), true),
            large@ == size_class_indices(lengths@.take(i as int), false),
        decreases lengths.len() - i,
    {
        assert(lengths@.take(i + 1).drop_last() =~= lengths@.take(i as int));
        if lengths[i] <= SIZE_THRESHOLD {
            small.push(i);
        } else {
            large.push(i);
        }
        i = i + 1;
    }
    assert(lengths@.take(lengths.len() as int) =~= lengths@);
    (small, large)
}

/// The properties of a listed blob that the listing reads.
pub struct RemoteBlobProperties {
    pub content_length: Option<u64>,
    pub content_md5: Option<Vec<u8>>,
}

/// One entry of a container listing.
pub struct RemoteBlobItem {
    pub name: Option<String>,
    pub properties: Option<RemoteBlobProperties>,
}

/// An entry that the listing can read: it has a name, and where it has
/// properties they give a length and a 16-byte digest.
pub open spec fn remote_item_readable(item: RemoteBlobItem) -> bool {
    &&& item.name is Some
    &&& item.properties matches Some(p) ==> {
        &&& p.content_length is Some
        &&& p.content_md5 matches Some(m) && m@.len() == 16
    }
}

/// `b` is the remote blob that `item` describes.
pub open spec fn is_remote_blob_of(item: RemoteBlobItem, b: Blob) -> bool {
    &&& item.properties matches Some(p)
    &&& b.name == item.name->0
    &&& b.length == p.content_length->0
    &&& b.bytes is None
    &&& b.md5@ == p.content_md5->0@
    &&& b.location == Location::Remote
}

/// The entries of a listing that have properties, in order.
pub open spec fn items_with_properties(items: Seq<RemoteBlobItem>) -> Seq<RemoteBlobItem> {
    items.filter(|item: RemoteBlobItem| item.properties is Some)
}

/// The blob that a listing entry describes, or `None` for an entry without
/// properties, which the listing skips.
pub fn remote_blob(item: &RemoteBlobItem) -> (r: Option<Blob>)
    requires
        remote_item_readable(*item),
    ensures
        r is Some <==> item.properties is Some,
        r matches Some(b) ==> is_remote_blob_of(*item, b),
{
    match &item.properties {
        None => None,
        Some(p) => {
            let name = item.name.as_ref().unwrap().clone();
            let length = p.content_length.unwrap();
            let m = p.content_md5.as_ref().unwrap();
            let md5: [u8; 16] = [
                m[0], m[1], m[2], m[3], m[4], m[5], m[6], m[7],
                m[8], m[9], m[10], m[11], m[12], m[13], m[14], m[15],
            ];
            assert(md5@ =~= m@);
            Some(Blob::new(name, length, None, md5, Location::Remote))
        },
    }
}

/// The blobs of a listing: one per entry with properties, in order.
pub fn remote_blobs(items: &Vec<RemoteBlobItem>) -> (r: Vec<Blob>)
    requires
        forall|i: int| 0 <= i < items.len() ==> remote_item_readable(#[trigger] items@[i]),
    ensures
        r.len() == items_with_properties(items@).len(),
        forall|i: int|
            0 <= i < r.len() ==> is_remote_blob_of(
                #[trigger] items_with_properties(items@)[i],
                r@[i],
            ),
{
    let mut blobs: Vec<Blob> = Vec::new();
    let mut i: usize = 0;
    while i < items.len()
        invariant
            i <= items.len(),
            forall|k: int| 0 <= k < items.len() ==> remote_item_readable(#[trigger] items@[k]),
            blobs.len() == items_with_properties(items@.take(i as int)).len(),
            forall|k: int|
                0 <= k < blobs.len() ==> is_remote_blob_of(
                    #[trigger] items_with_properties(items@.take(i as int))[k],
                    blobs@[k],
                ),
        decreases items.len() - i,
    {
        let ghost before = items_with_properties(items@.take(i as int));
        assert(items@.take(i + 1).drop_last() =~= items@.take(i as int));
        reveal_with_fuel(Seq::<_>::filter, 1);
        let r = remote_blob(&items[i]);
        match r {
            Some(b) => {
                blobs.push(b);
            },
            None => {},
        }
        i = i + 1;
        assert forall|k: int|
            0 <= k < blobs.len() implies is_remote_blob_of(
            #[trigger] items_with_properties(items@.take(i as int))[k],
            blobs@[k],
        ) by {
            if k < before.len() {
                assert(items_with_properties(items@.take(i as int))[k] == before[k]);
            }
        }
    }
    assert(items@.take(items.len() as int) =~= items@);
    blobs
}

/// The word shown for a location in the blob table.
pub open spec fn location_label(location: Location) -> Seq<char> {
    match location {
        Location::Remote => "Remote"@,
        Location::Local => "Local"@,
        Location::Synced => "Synced"@,
    }
}

/// The UTF-8 bytes of `name`, cut after the first 30.
pub open spec fn shown_name_bytes(name: Seq<char>) -> Seq<u8> {
    let bytes = vstd::utf8::encode_utf8(name);
    if bytes.len() <= 30 {
        bytes
    } else {
        bytes.subrange(0, 30)
    }
}

impl Blob {
    /// The status column of the blob table.
    pub fn status_label(&self) -> (r: &'static str)
        ensures
            r@ == location_label(self.location),
    {
        match self.location {
            Location::Remote => "Remote",
            Location::Local => "Local",
            Location::Synced => "Synced",
        }
    }

    /// The size column of the blob table, in whole kilobytes.
    pub fn size_in_kb(&self) -> (r: u64)
        ensures
            r == self.length / 1024,
    {
        self.length / 1024
    }

    /// The name column of the blob table: the name cut after its first 30
    /// bytes, which must not fall inside a character.
    pub fn display_name(&self) -> (r: &str)
        requires
            vstd::utf8::encode_utf8(self.name@).len() > 30 ==> vstd::utf8::is_char_boundary(
                vstd::utf8::encode_utf8(self.name@),
                30,
            ),
        ensures
            r.spec_bytes() == shown_name_bytes(self.name@),
    {
        let name = self.name.as_str();
        let byte_len = name.as_bytes().len();
        let cut = if byte_len <= 30 {
            byte_len
        } else {
            30
        };
        proof {
            assert(name@ == self.name@);
            assert(name.spec_bytes() == vstd::utf8::encode_utf8(self.name@));
            vstd::utf8::encode_utf8_valid_utf8(self.name@);
            vstd::utf8::is_char_boundary_start_end_of_seq(name.spec_bytes());
        }
        assert(vstd::utf8::is_char_boundary(name.spec_bytes(), cut as int));
        let (shown, _) = name.split_at(cut);
        assert(name.spec_bytes().len() <= 30 ==> name.spec_bytes().subrange(0, cut as int) =~= name.spec_bytes());
        shown
    }
}

} // verus!

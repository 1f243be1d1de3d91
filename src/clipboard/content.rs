//! Typed clipboard payloads and their content digest.
use std::collections::hash_map::DefaultHasher;
use std::hash::Hasher;
use vstd::bytes::{spec_u32_to_le_bytes, spec_u64_to_le_bytes, u32_to_le_bytes, u64_to_le_bytes};
use vstd::prelude::*;
use vstd::std_specs::hash::DefaultHasherAdditionalSpecFns;
use vstd::string::StringSliceAdditionalSpecFns;
use vstd::utf8::{decode_utf8, encode_utf8, valid_utf8};

verus! {

/// Discriminator hashed (and stored) ahead of a text payload.
pub const TAG_TEXT: u8 = 0;

/// Discriminator hashed (and stored) ahead of an image payload.
pub const TAG_IMAGE: u8 = 1;

/// Discriminator hashed (and stored) ahead of a file list payload.
pub const TAG_FILES: u8 = 2;

/// A clipboard payload; exactly one kind is held.
#[derive(Debug, PartialEq, Eq)]
pub enum ClipboardContent {
    /// Plain or rich text.
    Text(String),
    /// Encoded image bytes with their decoded metadata.
    Image { bytes: Vec<u8>, width: u32, height: u32, format: String },
    /// The paths of a file-manager copy or cut, in order.
    Files(Vec<String>),
}

/// The mathematical value of a [`ClipboardContent`].
pub ghost enum ContentModel {
    Text(Seq<char>),
    Image { bytes: Seq<u8>, width: u32, height: u32, format: Seq<char> },
    Files(Seq<Seq<char>>),
}

pub open spec fn string_views(v: Seq<String>) -> Seq<Seq<char>> {
    v.map_values(|s: String| s@)
}

impl View for ClipboardContent {
    type V = ContentModel;

    open spec fn view(&self) -> ContentModel {
        match self {
            ClipboardContent::Text(s) => ContentModel::Text(s@),
            ClipboardContent::Image { bytes, width, height, format } => ContentModel::Image {
                bytes: bytes@,
                width: *width,
                height: *height,
                format: format@,
            },
            ClipboardContent::Files(fs) => ContentModel::Files(string_views(fs@)),
        }
    }
}

/// The writes that the digest of a file list consists of: for each path,
/// its UTF-8 length as eight little-endian bytes, then its UTF-8 bytes.
pub open spec fn files_digest_input(fs: Seq<Seq<char>>) -> Seq<Seq<u8>>
    decreases fs.len(),
{
    if fs.len() == 0 {
        Seq::empty()
    } else {
        files_digest_input(fs.drop_last()) + seq![
            spec_u64_to_le_bytes(encode_utf8(fs.last()).len() as u64),
            encode_utf8(fs.last()),
        ]
    }
}

/// The sequence of writes fed to the hasher for a content: the kind's
/// discriminator first, then the payload, every part of variable length
/// but the last one preceded by its length.
pub open spec fn digest_input(c: ContentModel) -> Seq<Seq<u8>> {
    match c {
        ContentModel::Text(s) => seq![seq![TAG_TEXT], encode_utf8(s)],
        ContentModel::Image { bytes, width, height, format } => seq![
            seq![TAG_IMAGE],
            spec_u32_to_le_bytes(width),
            spec_u32_to_le_bytes(height),
            spec_u64_to_le_bytes(encode_utf8(format).len() as u64),
            encode_utf8(format),
            bytes,
        ],
        ContentModel::Files(fs) => seq![seq![TAG_FILES]] + files_digest_input(fs),
    }
}

/// The content digest: the standard library's default hasher run over
/// [`digest_input`].
pub open spec fn content_digest(c: ContentModel) -> u64 {
    DefaultHasher::spec_finish(digest_input(c))
}

/// Contents of different kinds differ in their first hashed write.
pub proof fn lemma_kinds_hash_apart(a: ContentModel, b: ContentModel)
    requires
        kind_of(a) != kind_of(b),
    ensures
        digest_input(a)[0] != digest_input(b)[0],
{
    assert(digest_input(a)[0] == seq![kind_of(a)]);
    assert(digest_input(b)[0] == seq![kind_of(b)]);
    assert(seq![kind_of(a)][0] != seq![kind_of(b)][0]);
}

/// The discriminator of a content's kind.
pub open spec fn kind_of(c: ContentModel) -> u8 {
    match c {
        ContentModel::Text(_) => TAG_TEXT,
        ContentModel::Image { .. } => TAG_IMAGE,
        ContentModel::Files(_) => TAG_FILES,
    }
}

/// Total UTF-8 length of the paths.
pub open spec fn paths_bytes(fs: Seq<Seq<char>>) -> nat
    decreases fs.len(),
{
    if fs.len() == 0 {
        0
    } else {
        paths_bytes(fs.drop_last()) + encode_utf8(fs.last()).len()
    }
}

/// Approximate size of a payload in bytes: the UTF-8 length of a text; the
/// image bytes and the format's UTF-8 length; the paths' UTF-8 lengths.
pub open spec fn content_size(c: ContentModel) -> nat {
    match c {
        ContentModel::Text(s) => encode_utf8(s).len(),
        ContentModel::Image { bytes, format, .. } => bytes.len() + encode_utf8(format).len(),
        ContentModel::Files(fs) => paths_bytes(fs),
    }
}

impl ClipboardContent {
    /// The approximate size in bytes, saturating at `usize::MAX`.
    pub fn approx_size(&self) -> (r: usize)
        ensures
            r == if content_size(self@) > usize::MAX {
                usize::MAX as nat
            } else {
                content_size(self@)
            },
    {
        match self {
            ClipboardContent::Text(s) => s.as_str().as_bytes().len(),
            ClipboardContent::Image { bytes, format, .. } => bytes.len().saturating_add(
                format.as_str().as_bytes().len(),
            ),
            ClipboardContent::Files(fs) => {
                let ghost views = string_views(fs@);
                let mut total: usize = 0;
                let mut i: usize = 0;
                while i < fs.len()
                    invariant
                        i <= fs@.len(),
                        views == string_views(fs@),
                        total == if paths_bytes(views.take(i as int)) > usize::MAX {
                            usize::MAX as nat
                        } else {
                            paths_bytes(views.take(i as int))
                        },
                    decreases fs.len() - i,
                {
                    assert(views.take(i + 1).drop_last() =~= views.take(i as int));
                    assert(views.take(i + 1).last() == fs@[i as int]@);
                    total = total.saturating_add(fs[i].as_str().as_bytes().len());
                    i = i + 1;
                }
                assert(views.take(i as int) =~= views);
                total
            },
        }
    }
}

impl ClipboardContent {
    /// An independent copy of this content.
    pub fn duplicate(&self) -> (r: ClipboardContent)
        ensures
            r@ == self@,
    {
        match self {
            ClipboardContent::Text(s) => ClipboardContent::Text(s.clone()),
            ClipboardContent::Image { bytes, width, height, format } => {
                let mut b: Vec<u8> = Vec::new();
                let mut i: usize = 0;
                while i < bytes.len()
                    invariant
                        i <= bytes@.len(),
                        b@ == bytes@.take(i as int),
                    decreases bytes.len() - i,
                {
                    b.push(bytes[i]);
                    assert(b@ =~= bytes@.take(i + 1));
                    i = i + 1;
                }
                assert(bytes@.take(i as int) =~= bytes@);
                ClipboardContent::Image { bytes: b, width: *width, height: *height, format: format.clone() }
            },
            ClipboardContent::Files(fs) => {
                let mut v: Vec<String> = Vec::new();
                let mut i: usize = 0;
                while i < fs.len()
                    invariant
                        i <= fs@.len(),
                        v@.len() == i,
                        forall|t: int| 0 <= t < i ==> #[trigger] v@[t]@ == fs@[t]@,
                    decreases fs.len() - i,
                {
                    v.push(fs[i].clone());
                    i = i + 1;
                }
                assert(string_views(v@) =~= string_views(fs@));
                ClipboardContent::Files(v)
            },
        }
    }
}

/// Computes the content digest, the identity under which the history
/// deduplicates payloads.
pub fn hash_of(c: &ClipboardContent) -> (r: u64)
    ensures
        r == content_digest(c@),
{
    let mut h = DefaultHasher::new();
    match c {
        ClipboardContent::Text(s) => {
            let tag: Vec<u8> = vec![TAG_TEXT];
            assert(tag@ =~= seq![TAG_TEXT]);
            h.write(tag.as_slice());
            h.write(s.as_str().as_bytes());
            assert(h@ =~= digest_input(c@));
        },
        ClipboardContent::Image { bytes, width, height, format } => {
            let tag: Vec<u8> = vec![TAG_IMAGE];
            assert(tag@ =~= seq![TAG_IMAGE]);
            h.write(tag.as_slice());
            let w = u32_to_le_bytes(*width);
            h.write(w.as_slice());
            let hh = u32_to_le_bytes(*height);
            h.write(hh.as_slice());
            let fb = format.as_str().as_bytes();
            let fl = u64_to_le_bytes(fb.len() as u64);
            h.write(fl.as_slice());
            h.write(fb);
            h.write(bytes.as_slice());
            assert(h@ =~= digest_input(c@));
        },
        ClipboardContent::Files(fs) => {
            let tag: Vec<u8> = vec![TAG_FILES];
            assert(tag@ =~= seq![TAG_FILES]);
            h.write(tag.as_slice());
            let ghost views = string_views(fs@);
            let mut i: usize = 0;
            assert(h@ =~= seq![seq![TAG_FILES]] + files_digest_input(views.take(0)));
            while i < fs.len()
                invariant
                    i <= fs@.len(),
                    views == string_views(fs@),
                    h@ == seq![seq![TAG_FILES]] + files_digest_input(views.take(i as int)),
                decreases fs.len() - i,
            {
                let b = fs[i].as_str().as_bytes();
                let lb = u64_to_le_bytes(b.len() as u64);
                h.write(lb.as_slice());
                h.write(b);
                proof {
                    assert(h@ =~= seq![seq![TAG_FILES]] + files_digest_input(views.take(i as int)).push(lb@).push(b@));
                    assert(views.take(i + 1).drop_last() =~= views.take(i as int));
                    assert(views.take(i + 1).last() == fs@[i as int]@);
                }
                i = i + 1;
            }
            proof {
                assert(views.take(i as int) =~= views);
                assert(h@ =~= digest_input(c@));
            }
        },
    }
    h.finish()
}

/// Relies on `String::from_utf8`: it succeeds exactly on valid UTF-8, and
/// the string then holds the decoded characters.
#[verifier::external_body]
pub(crate) fn string_from_utf8(b: Vec<u8>) -> (r: Option<String>)
    ensures
        r is Some <==> valid_utf8(b@),
        r matches Some(s) ==> s@ == decode_utf8(b@),
{
    String::from_utf8(b).ok()
}

} // verus!

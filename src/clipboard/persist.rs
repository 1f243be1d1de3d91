//! The on-disk history format: a schema version, then one length-prefixed
//! record per retained item, most recently used first.
//!
//! All integers are little-endian. A record is its body's length (8 bytes)
//! and the body: the kind's discriminator (1 byte), `created_at` and
//! `last_seen_at` (8 bytes each), the pin flag (1 byte, 0 or 1), and the
//! payload. A text payload is its UTF-8 bytes; an image payload is width and
//! height (4 bytes each), the format as a string, then the image bytes; a
//! file list payload is each path as a string. A string is its UTF-8 length
//! (8 bytes) and its UTF-8 bytes.
use crate::clipboard::content::{string_from_utf8, 
    hash_of, kind_of, string_views, ClipboardContent, ContentModel, TAG_FILES, TAG_IMAGE, TAG_TEXT,
};
use crate::clipboard::content::{content_digest, paths_bytes};
use crate::clipboard::history::{dedup_records, digest_in, entries_wf, rebuilt, ClipboardHistory, ItemModel};
use vstd::bytes::{
    spec_u32_from_le_bytes, spec_u32_to_le_bytes, spec_u64_from_le_bytes, spec_u64_to_le_bytes,
    u32_from_le_bytes, u32_to_le_bytes, u64_from_le_bytes, u64_to_le_bytes,
};
use vstd::prelude::*;
use vstd::slice::{slice_subrange, slice_to_vec};
use vstd::string::{StrSliceExecFns, StringSliceAdditionalSpecFns};
use vstd::bytes::{lemma_auto_spec_u32_to_from_le_bytes, lemma_auto_spec_u64_to_from_le_bytes};
use vstd::utf8::{decode_utf8, encode_utf8, encode_utf8_decode_utf8, encode_utf8_valid_utf8, valid_utf8};

verus! {

/// The version of the format that this library writes and reads.
pub const SCHEMA_VERSION: u32 = 1;

/// What the file keeps of one history entry; ids and digests are rebuilt
/// on load.
pub struct PersistedItem {
    pub content: ClipboardContent,
    pub created_at: u64,
    pub last_seen_at: u64,
    pub pinned: bool,
}

/// The mathematical value of a [`PersistedItem`].
pub ghost struct RecordModel {
    pub content: ContentModel,
    pub created_at: u64,
    pub last_seen_at: u64,
    pub pinned: bool,
}

impl View for PersistedItem {
    type V = RecordModel;

    open spec fn view(&self) -> RecordModel {
        RecordModel {
            content: self.content@,
            created_at: self.created_at,
            last_seen_at: self.last_seen_at,
            pinned: self.pinned,
        }
    }
}

pub open spec fn record_views(v: Seq<PersistedItem>) -> Seq<RecordModel> {
    v.map_values(|p: PersistedItem| p@)
}

// ---- the persisted-size cap ----

/// What is persisted of a content under the per-item cap: text longer than
/// `cap` characters keeps its first `cap` characters; an image of more than
/// `cap` bytes keeps its metadata only; a file list whose paths exceed
/// `cap` UTF-8 bytes in all is stored empty.
pub open spec fn capped(c: ContentModel, cap: nat) -> ContentModel {
    match c {
        ContentModel::Text(s) => if s.len() <= cap {
            c
        } else {
            ContentModel::Text(s.take(cap as int))
        },
        ContentModel::Image { bytes, width, height, format } => if bytes.len() <= cap {
            c
        } else {
            ContentModel::Image { bytes: Seq::empty(), width, height, format }
        },
        ContentModel::Files(fs) => if paths_bytes(fs) <= cap {
            c
        } else {
            ContentModel::Files(Seq::empty())
        },
    }
}

/// The record that is saved for a history entry.
pub open spec fn record_of(e: ItemModel, cap: nat) -> RecordModel {
    RecordModel {
        content: capped(e.content, cap),
        created_at: e.created_at,
        last_seen_at: e.last_seen_at,
        pinned: e.pinned,
    }
}

pub open spec fn records_of(s: Seq<ItemModel>, cap: nat) -> Seq<RecordModel> {
    s.map_values(|e: ItemModel| record_of(e, cap))
}

// ---- encoding ----

pub open spec fn enc_str(s: Seq<char>) -> Seq<u8> {
    spec_u64_to_le_bytes(encode_utf8(s).len() as u64) + encode_utf8(s)
}

pub open spec fn enc_paths(fs: Seq<Seq<char>>) -> Seq<u8>
    decreases fs.len(),
{
    if fs.len() == 0 {
        Seq::empty()
    } else {
        enc_paths(fs.drop_last()) + enc_str(fs.last())
    }
}

pub open spec fn enc_payload(c: ContentModel) -> Seq<u8> {
    match c {
        ContentModel::Text(s) => encode_utf8(s),
        ContentModel::Image { bytes, width, height, format } => spec_u32_to_le_bytes(width)
            + spec_u32_to_le_bytes(height) + enc_str(format) + bytes,
        ContentModel::Files(fs) => enc_paths(fs),
    }
}

pub open spec fn flag_byte(b: bool) -> u8 {
    if b {
        1
    } else {
        0
    }
}

pub open spec fn enc_body(r: RecordModel) -> Seq<u8> {
    seq![kind_of(r.content)] + spec_u64_to_le_bytes(r.created_at) + spec_u64_to_le_bytes(
        r.last_seen_at,
    ) + seq![flag_byte(r.pinned)] + enc_payload(r.content)
}

pub open spec fn enc_record(r: RecordModel) -> Seq<u8> {
    spec_u64_to_le_bytes(enc_body(r).len() as u64) + enc_body(r)
}

pub open spec fn enc_records(rs: Seq<RecordModel>) -> Seq<u8>
    decreases rs.len(),
{
    if rs.len() == 0 {
        Seq::empty()
    } else {
        enc_records(rs.drop_last()) + enc_record(rs.last())
    }
}

/// The bytes of a history file holding these records.
pub open spec fn enc_file(rs: Seq<RecordModel>) -> Seq<u8> {
    spec_u32_to_le_bytes(SCHEMA_VERSION) + enc_records(rs)
}

// ---- decoding ----

pub open spec fn parse_paths(p: Seq<u8>) -> Option<Seq<Seq<char>>>
    decreases p.len(),
{
    if p.len() == 0 {
        Some(Seq::empty())
    } else if p.len() < 8 {
        None
    } else {
        let n = spec_u64_from_le_bytes(p.subrange(0, 8));
        if n > p.len() - 8 {
            None
        } else {
            let s = p.subrange(8, 8 + n);
            if !valid_utf8(s) {
                None
            } else {
                match parse_paths(p.subrange(8 + n, p.len() as int)) {
                    Some(rest) => Some(seq![decode_utf8(s)] + rest),
                    None => None,
                }
            }
        }
    }
}

pub open spec fn parse_payload(tag: u8, p: Seq<u8>) -> Option<ContentModel> {
    if tag == TAG_TEXT {
        if valid_utf8(p) {
            Some(ContentModel::Text(decode_utf8(p)))
        } else {
            None
        }
    } else if tag == TAG_IMAGE {
        if p.len() < 16 {
            None
        } else {
            let n = spec_u64_from_le_bytes(p.subrange(8, 16));
            if n > p.len() - 16 {
                None
            } else {
                let f = p.subrange(16, 16 + n);
                if !valid_utf8(f) {
                    None
                } else {
                    Some(
                        ContentModel::Image {
                            bytes: p.subrange(16 + n, p.len() as int),
                            width: spec_u32_from_le_bytes(p.subrange(0, 4)),
                            height: spec_u32_from_le_bytes(p.subrange(4, 8)),
                            format: decode_utf8(f),
                        },
                    )
                }
            }
        }
    } else if tag == TAG_FILES {
        match parse_paths(p) {
            Some(fs) => Some(ContentModel::Files(fs)),
            None => None,
        }
    } else {
        None
    }
}

/// The record that a body holds, or `None` when it is corrupt.
pub open spec fn parse_body(b: Seq<u8>) -> Option<RecordModel> {
    if b.len() < 18 || b[17] > 1 {
        None
    } else {
        match parse_payload(b[0], b.subrange(18, b.len() as int)) {
            Some(c) => Some(
                RecordModel {
                    content: c,
                    created_at: spec_u64_from_le_bytes(b.subrange(1, 9)),
                    last_seen_at: spec_u64_from_le_bytes(b.subrange(9, 17)),
                    pinned: b[17] == 1,
                },
            ),
            None => None,
        }
    }
}

/// The records of a sequence of framed records: a corrupt record is
/// skipped, and a truncated one ends the sequence.
pub open spec fn parse_records(b: Seq<u8>) -> Seq<RecordModel>
    decreases b.len(),
{
    if b.len() < 8 {
        Seq::empty()
    } else {
        let n = spec_u64_from_le_bytes(b.subrange(0, 8));
        if n > b.len() - 8 {
            Seq::empty()
        } else {
            let rest = parse_records(b.subrange(8 + n, b.len() as int));
            match parse_body(b.subrange(8, 8 + n)) {
                Some(r) => seq![r] + rest,
                None => rest,
            }
        }
    }
}

/// The records of a history file; a file too short for a version, or of
/// another version, holds none.
pub open spec fn parse_file(b: Seq<u8>) -> Seq<RecordModel> {
    if b.len() < 4 || spec_u32_from_le_bytes(b.subrange(0, 4)) != SCHEMA_VERSION {
        Seq::empty()
    } else {
        parse_records(b.subrange(4, b.len() as int))
    }
}


// ---- round trip ----

/// The string's UTF-8 length fits the 8-byte length field.
pub open spec fn str_fits(s: Seq<char>) -> bool {
    encode_utf8(s).len() <= u64::MAX
}

/// Every length that the record's encoding writes fits its field.
pub open spec fn record_fits(r: RecordModel) -> bool {
    &&& enc_body(r).len() <= u64::MAX
    &&& match r.content {
        ContentModel::Image { format, .. } => str_fits(format),
        ContentModel::Files(fs) => forall|i: int| 0 <= i < fs.len() ==> str_fits(#[trigger] fs[i]),
        ContentModel::Text(_) => true,
    }
}

proof fn lemma_enc_paths_cons(s: Seq<char>, rest: Seq<Seq<char>>)
    ensures
        enc_paths(seq![s] + rest) == enc_str(s) + enc_paths(rest),
    decreases rest.len(),
{
    if rest.len() == 0 {
        assert(seq![s] + rest =~= seq![s]);
        assert(seq![s].drop_last() =~= Seq::<Seq<char>>::empty());
        assert(enc_paths(seq![s].drop_last()) =~= Seq::<u8>::empty());
        assert(seq![s].last() == s);
        assert(enc_paths(seq![s]) =~= enc_str(s));
        assert(enc_str(s) + enc_paths(rest) =~= enc_str(s));
    } else {
        lemma_enc_paths_cons(s, rest.drop_last());
        assert((seq![s] + rest).drop_last() =~= seq![s] + rest.drop_last());
        assert(enc_paths(seq![s] + rest) =~= enc_str(s) + enc_paths(rest));
    }
}

proof fn lemma_enc_records_cons(r: RecordModel, rest: Seq<RecordModel>)
    ensures
        enc_records(seq![r] + rest) == enc_record(r) + enc_records(rest),
    decreases rest.len(),
{
    if rest.len() == 0 {
        assert(seq![r] + rest =~= seq![r]);
        assert(seq![r].drop_last() =~= Seq::<RecordModel>::empty());
        assert(enc_records(seq![r].drop_last()) =~= Seq::<u8>::empty());
        assert(seq![r].last() == r);
        assert(enc_records(seq![r]) =~= enc_record(r));
        assert(enc_record(r) + enc_records(rest) =~= enc_record(r));
    } else {
        lemma_enc_records_cons(r, rest.drop_last());
        assert((seq![r] + rest).drop_last() =~= seq![r] + rest.drop_last());
        assert(enc_records(seq![r] + rest) =~= enc_record(r) + enc_records(rest));
    }
}

/// Reading a string field back: the length, the string, and what follows.
proof fn lemma_read_str(s: Seq<char>, tail: Seq<u8>)
    requires
        str_fits(s),
    ensures
        ({
            let p = enc_str(s) + tail;
            let n = spec_u64_from_le_bytes(p.subrange(0, 8));
            &&& p.len() >= 8
            &&& n == encode_utf8(s).len()
            &&& n <= p.len() - 8
            &&& p.subrange(8, 8 + n) == encode_utf8(s)
            &&& p.subrange(8 + n, p.len() as int) == tail
            &&& valid_utf8(p.subrange(8, 8 + n))
            &&& decode_utf8(p.subrange(8, 8 + n)) == s
        }),
{
    lemma_auto_spec_u64_to_from_le_bytes();
    encode_utf8_valid_utf8(s);
    encode_utf8_decode_utf8(s);
    let p = enc_str(s) + tail;
    let e = encode_utf8(s);
    let l = spec_u64_to_le_bytes(e.len() as u64);
    assert(p.subrange(0, 8) =~= l);
    assert(p.subrange(8, 8 + e.len() as int) =~= e);
    assert(p.subrange(8 + e.len() as int, p.len() as int) =~= tail);
}

proof fn lemma_parse_paths(fs: Seq<Seq<char>>)
    requires
        forall|i: int| 0 <= i < fs.len() ==> str_fits(#[trigger] fs[i]),
    ensures
        parse_paths(enc_paths(fs)) == Some(fs),
    decreases fs.len(),
{
    if fs.len() == 0 {
    } else {
        let rest = fs.skip(1);
        assert(fs =~= seq![fs[0]] + rest);
        lemma_enc_paths_cons(fs[0], rest);
        assert forall|i: int| 0 <= i < rest.len() implies str_fits(#[trigger] rest[i]) by {
            assert(rest[i] == fs[i + 1]);
        }
        lemma_parse_paths(rest);
        assert(str_fits(fs[0]));
        lemma_read_str(fs[0], enc_paths(rest));
        assert(seq![fs[0]] + rest =~= fs);
    }
}

proof fn lemma_parse_payload(c: ContentModel, cap: nat)
    requires
        record_fits(RecordModel { content: c, created_at: 0, last_seen_at: 0, pinned: false }),
    ensures
        parse_payload(kind_of(c), enc_payload(c)) == Some(c),
{
    lemma_auto_spec_u32_to_from_le_bytes();
    match c {
        ContentModel::Text(s) => {
            encode_utf8_valid_utf8(s);
            encode_utf8_decode_utf8(s);
        },
        ContentModel::Image { bytes, width, height, format } => {
            let p = enc_payload(c);
            let wb = spec_u32_to_le_bytes(width);
            let hb = spec_u32_to_le_bytes(height);
            assert(p =~= wb + hb + (enc_str(format) + bytes));
            assert(p.subrange(0, 4) =~= wb);
            assert(p.subrange(4, 8) =~= hb);
            let q = p.subrange(8, p.len() as int);
            assert(q =~= enc_str(format) + bytes);
            lemma_read_str(format, bytes);
            let n = spec_u64_from_le_bytes(q.subrange(0, 8));
            assert(p.subrange(8, 16) =~= q.subrange(0, 8));
            assert(p.subrange(16, 16 + n) =~= q.subrange(8, 8 + n));
            assert(p.subrange(16 + n, p.len() as int) =~= q.subrange(8 + n, q.len() as int));
        },
        ContentModel::Files(fs) => {
            lemma_parse_paths(fs);
        },
    }
}

proof fn lemma_parse_body(r: RecordModel)
    requires
        record_fits(r),
    ensures
        parse_body(enc_body(r)) == Some(r),
{
    lemma_auto_spec_u64_to_from_le_bytes();
    let b = enc_body(r);
    let head = seq![kind_of(r.content)] + spec_u64_to_le_bytes(r.created_at) + spec_u64_to_le_bytes(
        r.last_seen_at,
    ) + seq![flag_byte(r.pinned)];
    assert(head.len() == 18);
    assert(b =~= head + enc_payload(r.content));
    assert(b.subrange(1, 9) =~= spec_u64_to_le_bytes(r.created_at));
    assert(b.subrange(9, 17) =~= spec_u64_to_le_bytes(r.last_seen_at));
    assert(b.subrange(18, b.len() as int) =~= enc_payload(r.content));
    assert(b[0] == kind_of(r.content));
    assert(b[17] == flag_byte(r.pinned));
    lemma_parse_payload(r.content, 0);
}

proof fn lemma_parse_records(rs: Seq<RecordModel>)
    requires
        forall|i: int| 0 <= i < rs.len() ==> record_fits(#[trigger] rs[i]),
    ensures
        parse_records(enc_records(rs)) == rs,
    decreases rs.len(),
{
    if rs.len() > 0 {
        lemma_auto_spec_u64_to_from_le_bytes();
        let r = rs[0];
        let rest = rs.skip(1);
        assert(rs =~= seq![r] + rest);
        lemma_enc_records_cons(r, rest);
        assert forall|i: int| 0 <= i < rest.len() implies record_fits(#[trigger] rest[i]) by {
            assert(rest[i] == rs[i + 1]);
        }
        lemma_parse_records(rest);
        assert(record_fits(rs[0]));
        lemma_parse_body(r);
        let b = enc_records(rs);
        let body = enc_body(r);
        let tail = enc_records(rest);
        assert(b =~= spec_u64_to_le_bytes(body.len() as u64) + body + tail);
        assert(b.subrange(0, 8) =~= spec_u64_to_le_bytes(body.len() as u64));
        assert(b.subrange(8, 8 + body.len() as int) =~= body);
        assert(b.subrange(8 + body.len() as int, b.len() as int) =~= tail);
        assert(seq![r] + rest =~= rs);
    } else {
        assert(enc_records(rs) =~= Seq::<u8>::empty());
    }
}

/// Round trip: the records written to a history file are the records read
/// back from it, in order, where every length fits its field.
pub proof fn lemma_file_round_trip(rs: Seq<RecordModel>)
    requires
        forall|i: int| 0 <= i < rs.len() ==> record_fits(#[trigger] rs[i]),
    ensures
        parse_file(enc_file(rs)) == rs,
{
    lemma_auto_spec_u32_to_from_le_bytes();
    let b = enc_file(rs);
    assert(b.subrange(0, 4) =~= spec_u32_to_le_bytes(SCHEMA_VERSION));
    assert(b.subrange(4, b.len() as int) =~= enc_records(rs));
    lemma_parse_records(rs);
}


// ---- writing ----

fn push_all(out: &mut Vec<u8>, b: &[u8])
    ensures
        final(out)@ == old(out)@ + b@,
{
    let mut i: usize = 0;
    while i < b.len()
        invariant
            i <= b@.len(),
            out@ == old(out)@ + b@.take(i as int),
        decreases b.len() - i,
    {
        out.push(b[i]);
        assert(out@ =~= old(out)@ + b@.take(i + 1));
        i = i + 1;
    }
    assert(b@.take(i as int) =~= b@);
}

fn push_str(out: &mut Vec<u8>, s: &str)
    ensures
        final(out)@ == old(out)@ + enc_str(s@),
{
    let b = s.as_bytes();
    let l = u64_to_le_bytes(b.len() as u64);
    push_all(out, l.as_slice());
    push_all(out, b);
    assert(final(out)@ =~= old(out)@ + enc_str(s@));
}

fn push_payload(out: &mut Vec<u8>, c: &ClipboardContent)
    ensures
        final(out)@ == old(out)@ + enc_payload(c@),
{
    match c {
        ClipboardContent::Text(s) => {
            push_all(out, s.as_str().as_bytes());
        },
        ClipboardContent::Image { bytes, width, height, format } => {
            let w = u32_to_le_bytes(*width);
            push_all(out, w.as_slice());
            let h = u32_to_le_bytes(*height);
            push_all(out, h.as_slice());
            push_str(out, format.as_str());
            push_all(out, bytes.as_slice());
            assert(final(out)@ =~= old(out)@ + enc_payload(c@));
        },
        ClipboardContent::Files(fs) => {
            let ghost views = string_views(fs@);
            let mut i: usize = 0;
            assert(views.take(0) =~= Seq::<Seq<char>>::empty());
            assert(out@ =~= old(out)@ + enc_paths(views.take(0)));
            while i < fs.len()
                invariant
                    i <= fs@.len(),
                    views == string_views(fs@),
                    out@ == old(out)@ + enc_paths(views.take(i as int)),
                decreases fs.len() - i,
            {
                push_str(out, fs[i].as_str());
                assert(views.take(i + 1).drop_last() =~= views.take(i as int));
                assert(views.take(i + 1).last() == fs@[i as int]@);
                assert(out@ =~= old(out)@ + enc_paths(views.take(i + 1)));
                i = i + 1;
            }
            assert(views.take(i as int) =~= views);
        },
    }
}

fn push_record(out: &mut Vec<u8>, r: &PersistedItem)
    ensures
        final(out)@ == old(out)@ + enc_record(r@),
{
    let mut body: Vec<u8> = Vec::new();
    let tag: u8 = match &r.content {
        ClipboardContent::Text(_) => TAG_TEXT,
        ClipboardContent::Image { .. } => TAG_IMAGE,
        ClipboardContent::Files(_) => TAG_FILES,
    };
    body.push(tag);
    let c = u64_to_le_bytes(r.created_at);
    push_all(&mut body, c.as_slice());
    let l = u64_to_le_bytes(r.last_seen_at);
    push_all(&mut body, l.as_slice());
    body.push(if r.pinned { 1u8 } else { 0u8 });
    push_payload(&mut body, &r.content);
    assert(body@ =~= enc_body(r@));
    let n = u64_to_le_bytes(body.len() as u64);
    push_all(out, n.as_slice());
    push_all(out, body.as_slice());
    assert(final(out)@ =~= old(out)@ + enc_record(r@));
}

/// The bytes of a history file holding these records, in order.
pub fn encode_file(records: &Vec<PersistedItem>) -> (r: Vec<u8>)
    ensures
        r@ == enc_file(record_views(records@)),
{
    let ghost rs = record_views(records@);
    let mut out = u32_to_le_bytes(SCHEMA_VERSION);
    let mut i: usize = 0;
    assert(rs.take(0) =~= Seq::<RecordModel>::empty());
    assert(out@ =~= spec_u32_to_le_bytes(SCHEMA_VERSION) + enc_records(rs.take(0)));
    while i < records.len()
        invariant
            i <= records@.len(),
            rs == record_views(records@),
            out@ == spec_u32_to_le_bytes(SCHEMA_VERSION) + enc_records(rs.take(i as int)),
        decreases records.len() - i,
    {
        push_record(&mut out, &records[i]);
        assert(rs.take(i + 1).drop_last() =~= rs.take(i as int));
        assert(rs.take(i + 1).last() == records@[i as int]@);
        assert(out@ =~= spec_u32_to_le_bytes(SCHEMA_VERSION) + enc_records(rs.take(i + 1)));
        i = i + 1;
    }
    assert(rs.take(i as int) =~= rs);
    out
}


proof fn lemma_paths_bytes_prefix(fs: Seq<Seq<char>>, i: int)
    requires
        0 <= i <= fs.len(),
    ensures
        paths_bytes(fs.take(i)) <= paths_bytes(fs),
    decreases fs.len() - i,
{
    if i < fs.len() {
        lemma_paths_bytes_prefix(fs, i + 1);
        assert(fs.take(i + 1).drop_last() =~= fs.take(i));
    } else {
        assert(fs.take(i) =~= fs);
    }
}

/// What the file keeps of a content under the per-item cap `cap`.
pub fn capped_content(c: &ClipboardContent, cap: usize) -> (r: ClipboardContent)
    ensures
        r@ == capped(c@, cap as nat),
{
    match c {
        ClipboardContent::Text(s) => {
            let n = s.as_str().unicode_len();
            if n <= cap {
                let r = ClipboardContent::Text(s.clone());
                assert(r@ == capped(c@, cap as nat));
                r
            } else {
                let t = s.as_str().substring_char(0, cap);
                let r = ClipboardContent::Text(t.to_owned());
                assert(r@ == capped(c@, cap as nat));
                r
            }
        },
        ClipboardContent::Image { bytes, width, height, format } => {
            if bytes.len() <= cap {
                let r = c.duplicate();
                assert(r@ == capped(c@, cap as nat));
                r
            } else {
                let r = ClipboardContent::Image {
                    bytes: Vec::new(),
                    width: *width,
                    height: *height,
                    format: format.clone(),
                };
                assert(r@ == capped(c@, cap as nat));
                r
            }
        },
        ClipboardContent::Files(fs) => {
            let ghost views = string_views(fs@);
            assert(c@ == ContentModel::Files(views));
            let mut total: usize = 0;
            let mut i: usize = 0;
            while i < fs.len()
                invariant
                    i <= fs@.len(),
                    views == string_views(fs@),
                    c@ == ContentModel::Files(views),
                    total == paths_bytes(views.take(i as int)),
                    total <= cap,
                decreases fs.len() - i,
            {
                let l = fs[i].as_str().as_bytes().len();
                assert(views.take(i + 1).drop_last() =~= views.take(i as int));
                assert(views.take(i + 1).last() == fs@[i as int]@);
                assert(paths_bytes(views.take(i + 1)) == total + l);
                if l > cap - total {
                    assert(total + l > cap);
                    assert(paths_bytes(views.take(i + 1)) > cap);
                    proof {
                        lemma_paths_bytes_prefix(views, i + 1);
                    }
                    assert(paths_bytes(views.take(i + 1)) <= paths_bytes(views));
                    let empty: Vec<String> = Vec::new();
                    assert(string_views(empty@) =~= Seq::<Seq<char>>::empty());
                    let r = ClipboardContent::Files(empty);
                    assert(paths_bytes(views) > cap);
                    assert(r@ == ContentModel::Files(Seq::<Seq<char>>::empty()));
                    assert(c@ == ContentModel::Files(views));
                    assert(r@ == capped(c@, cap as nat));
                    return r;
                }
                total = total + l;
                i = i + 1;
            }
            assert(views.take(i as int) =~= views);
            let r = c.duplicate();
            assert(r@ == capped(c@, cap as nat));
            r
        },
    }
}

/// The bytes that persist a history: each entry, most recently used first,
/// with its content capped at `cap`.
pub fn save(h: &ClipboardHistory, cap: usize) -> (r: Vec<u8>)
    ensures
        r@ == enc_file(records_of(h@, cap as nat)),
{
    let mut records: Vec<PersistedItem> = Vec::new();
    let mut i: usize = 0;
    while i < h.len()
        invariant
            i <= h@.len(),
            records@.len() == i,
            record_views(records@) == records_of(h@, cap as nat).take(i as int),
        decreases h@.len() - i,
    {
        let e = h.get(i);
        let p = PersistedItem {
            content: capped_content(&e.content, cap),
            created_at: e.created_at,
            last_seen_at: e.last_seen_at,
            pinned: e.pinned,
        };
        assert(records_of(h@, cap as nat)[i as int] == record_of(h@[i as int], cap as nat));
        assert(p@ == record_of(h@[i as int], cap as nat));
        let ghost before = records@;
        records.push(p);
        assert(records@ == before.push(p));
        assert forall|k: int| 0 <= k < i implies record_views(records@)[k] == record_views(before)[k] by {
            assert(records@[k] == before[k]);
        }
        assert(record_views(before) == records_of(h@, cap as nat).take(i as int));
        assert(record_views(records@)[i as int] == records_of(h@, cap as nat)[i as int]);
        assert(record_views(records@) =~= records_of(h@, cap as nat).take(i + 1));
        i = i + 1;
    }
    assert(records_of(h@, cap as nat).take(i as int) =~= records_of(h@, cap as nat));
    encode_file(&records)
}


// ---- reading ----

fn decode_str(b: &[u8]) -> (r: Option<String>)
    ensures
        r is Some <==> valid_utf8(b@),
        r matches Some(s) ==> s@ == decode_utf8(b@),
{
    string_from_utf8(slice_to_vec(b))
}

fn read_u64(b: &[u8], at: usize) -> (r: u64)
    requires
        at + 8 <= b@.len(),
    ensures
        r == spec_u64_from_le_bytes(b@.subrange(at as int, at + 8)),
{
    let _len = b.len();
    u64_from_le_bytes(slice_subrange(b, at, at + 8))
}

fn read_u32(b: &[u8], at: usize) -> (r: u32)
    requires
        at + 4 <= b@.len(),
    ensures
        r == spec_u32_from_le_bytes(b@.subrange(at as int, at + 4)),
{
    let _len = b.len();
    u32_from_le_bytes(slice_subrange(b, at, at + 4))
}

fn decode_paths(p: &[u8]) -> (r: Option<Vec<String>>)
    ensures
        match r {
            Some(v) => parse_paths(p@) == Some(string_views(v@)),
            None => parse_paths(p@) is None,
        },
{
    let mut out: Vec<String> = Vec::new();
    let mut rest: &[u8] = p;
    assert(string_views(out@) + Seq::<Seq<char>>::empty() =~= Seq::<Seq<char>>::empty());
    assert forall|x: Seq<Seq<char>>| string_views(out@) + x == x by {
        assert(string_views(out@) + x =~= x);
    }
    while rest.len() > 0
        invariant
            parse_paths(p@) == match parse_paths(rest@) {
                Some(x) => Some(string_views(out@) + x),
                None => None,
            },
        decreases rest@.len(),
    {
        if rest.len() < 8 {
            return None;
        }
        let n = read_u64(rest, 0);
        if n > (rest.len() - 8) as u64 {
            return None;
        }
        let n = n as usize;
        match decode_str(slice_subrange(rest, 8, 8 + n)) {
            None => {
                return None;
            },
            Some(s) => {
                let ghost old_out = out@;
                let ghost old_rest = rest@;
                out.push(s);
                rest = slice_subrange(rest, 8 + n, rest.len());
                proof {
                    match parse_paths(rest@) {
                        Some(x) => {
                            assert(string_views(old_out) + (seq![s@] + x) =~= string_views(out@)
                                + x);
                        },
                        None => {},
                    }
                }
            },
        }
    }
    assert(string_views(out@) + Seq::<Seq<char>>::empty() =~= string_views(out@));
    Some(out)
}

fn decode_payload(tag: u8, p: &[u8]) -> (r: Option<ClipboardContent>)
    ensures
        match r {
            Some(c) => parse_payload(tag, p@) == Some(c@),
            None => parse_payload(tag, p@) is None,
        },
{
    if tag == TAG_TEXT {
        match decode_str(p) {
            Some(s) => Some(ClipboardContent::Text(s)),
            None => None,
        }
    } else if tag == TAG_IMAGE {
        if p.len() < 16 {
            return None;
        }
        let n = read_u64(p, 8);
        if n > (p.len() - 16) as u64 {
            return None;
        }
        let n = n as usize;
        let width = read_u32(p, 0);
        let height = read_u32(p, 4);
        match decode_str(slice_subrange(p, 16, 16 + n)) {
            Some(format) => {
                let bytes = slice_to_vec(slice_subrange(p, 16 + n, p.len()));
                Some(ClipboardContent::Image { bytes, width, height, format })
            },
            None => None,
        }
    } else if tag == TAG_FILES {
        match decode_paths(p) {
            Some(fs) => Some(ClipboardContent::Files(fs)),
            None => None,
        }
    } else {
        None
    }
}

fn decode_body(b: &[u8]) -> (r: Option<PersistedItem>)
    ensures
        match r {
            Some(x) => parse_body(b@) == Some(x@),
            None => parse_body(b@) is None,
        },
{
    if b.len() < 18 || b[17] > 1 {
        return None;
    }
    match decode_payload(b[0], slice_subrange(b, 18, b.len())) {
        Some(content) => Some(
            PersistedItem {
                content,
                created_at: read_u64(b, 1),
                last_seen_at: read_u64(b, 9),
                pinned: b[17] == 1,
            },
        ),
        None => None,
    }
}

/// The records of a history file, in order: none when the file is too
/// short or of another schema version; a corrupt record is skipped and a
/// truncated one ends the list.
pub fn decode_file(b: &[u8]) -> (r: Vec<PersistedItem>)
    ensures
        record_views(r@) == parse_file(b@),
{
    let mut out: Vec<PersistedItem> = Vec::new();
    if b.len() < 4 || read_u32(b, 0) != SCHEMA_VERSION {
        assert(record_views(out@) =~= Seq::<RecordModel>::empty());
        return out;
    }
    let mut rest: &[u8] = slice_subrange(b, 4, b.len());
    assert(record_views(out@) + parse_records(rest@) =~= parse_records(rest@));
    let mut done = false;
    while !done && rest.len() >= 8
        invariant
            parse_file(b@) == record_views(out@) + parse_records(rest@),
            done ==> parse_records(rest@) == Seq::<RecordModel>::empty(),
        decreases rest@.len() + if done { 0int } else { 1int },
    {
        let n = read_u64(rest, 0);
        if n > (rest.len() - 8) as u64 {
            done = true;
            continue;
        }
        let n = n as usize;
        let ghost old_out = out@;
        let body = decode_body(slice_subrange(rest, 8, 8 + n));
        rest = slice_subrange(rest, 8 + n, rest.len());
        match body {
            Some(x) => {
                out.push(x);
                assert(record_views(old_out) + (seq![x@] + parse_records(rest@)) =~= record_views(
                    out@,
                ) + parse_records(rest@));
            },
            None => {},
        }
    }
    assert(parse_records(rest@) == Seq::<RecordModel>::empty());
    assert(record_views(out@) + parse_records(rest@) =~= record_views(out@));
    out
}


proof fn lemma_parse_records_len(b: Seq<u8>)
    ensures
        parse_records(b).len() * 8 <= b.len(),
    decreases b.len(),
{
    if b.len() >= 8 {
        let n = spec_u64_from_le_bytes(b.subrange(0, 8));
        if n <= b.len() - 8 {
            lemma_parse_records_len(b.subrange(8 + n, b.len() as int));
        }
    }
}

proof fn lemma_parse_file_len(b: Seq<u8>)
    ensures
        parse_file(b).len() * 8 <= b.len(),
{
    if b.len() >= 4 {
        lemma_parse_records_len(b.subrange(4, b.len() as int));
    }
}

/// Loads a history from the bytes of a history file. A file of another
/// schema version, or one too short for a version, gives an empty history;
/// corrupt records are skipped; of records with one content digest the
/// first is kept.
pub fn load(b: &[u8], capacity: u64) -> (r: ClipboardHistory)
    ensures
        r.wf(),
        r.capacity_spec() == capacity,
        r@ == rebuilt(dedup_records(parse_file(b@))),
        r.next_id_spec() == r@.len() + 1,
{
    let records = decode_file(b);
    let total = b.len();
    proof {
        lemma_parse_file_len(b@);
        assert(records@.len() == record_views(records@).len());
    }
    ClipboardHistory::from_records(&records, capacity)
}


proof fn lemma_dedup_distinct(rs: Seq<RecordModel>)
    requires
        forall|a: int, b: int|
            0 <= a < rs.len() && 0 <= b < rs.len() && a != b ==> content_digest(rs[a].content)
                != content_digest(rs[b].content),
    ensures
        dedup_records(rs) == rs,
    decreases rs.len(),
{
    if rs.len() > 0 {
        let d = rs.drop_last();
        lemma_dedup_distinct(d);
        assert(!digest_in(d, content_digest(rs.last().content))) by {
            if digest_in(d, content_digest(rs.last().content)) {
                let j = choose|j: int|
                    0 <= j < d.len() && content_digest(#[trigger] d[j].content) == content_digest(
                        rs.last().content,
                    );
                assert(rs[j] == d[j]);
            }
        }
        assert(d.push(rs.last()) =~= rs);
    }
}

/// Round trip: loading the bytes that `save` writes for a history gives
/// back every entry's content, timestamps and pin flag, in order, when no
/// content exceeds the persisted-size cap and every length fits its field.
pub proof fn lemma_save_load_round_trip(s: Seq<ItemModel>, next: u64, cap: nat)
    requires
        entries_wf(s, next),
        forall|i: int| 0 <= i < s.len() ==> capped(#[trigger] s[i].content, cap) == s[i].content,
        forall|i: int| 0 <= i < s.len() ==> record_fits(record_of(#[trigger] s[i], cap)),
    ensures
        ({
            let l = rebuilt(dedup_records(parse_file(enc_file(records_of(s, cap)))));
            &&& l.len() == s.len()
            &&& forall|i: int|
                0 <= i < s.len() ==> {
                    &&& #[trigger] l[i].content == s[i].content
                    &&& l[i].content_hash == s[i].content_hash
                    &&& l[i].created_at == s[i].created_at
                    &&& l[i].last_seen_at == s[i].last_seen_at
                    &&& l[i].pinned == s[i].pinned
                }
        }),
{
    let rs = records_of(s, cap);
    assert forall|i: int| 0 <= i < rs.len() implies record_fits(#[trigger] rs[i]) by {
        assert(rs[i] == record_of(s[i], cap));
    }
    lemma_file_round_trip(rs);
    assert forall|a: int, b: int|
        0 <= a < rs.len() && 0 <= b < rs.len() && a != b implies content_digest(rs[a].content)
        != content_digest(rs[b].content) by {
        assert(rs[a].content == s[a].content);
        assert(rs[b].content == s[b].content);
        assert(s[a].content_hash == content_digest(s[a].content));
        assert(s[b].content_hash == content_digest(s[b].content));
    }
    lemma_dedup_distinct(rs);
    let l = rebuilt(rs);
    assert forall|i: int| 0 <= i < s.len() implies {
        &&& #[trigger] l[i].content == s[i].content
        &&& l[i].content_hash == s[i].content_hash
        &&& l[i].created_at == s[i].created_at
        &&& l[i].last_seen_at == s[i].last_seen_at
        &&& l[i].pinned == s[i].pinned
    } by {
        assert(rs[i] == record_of(s[i], cap));
        assert(s[i].content_hash == content_digest(s[i].content));
    }
}

} // verus!

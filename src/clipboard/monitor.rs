//! The clipboard monitor's decisions: turning what the system clipboard
//! offers into content, skipping unchanged clipboards and the launcher's own
//! writes, and feeding the history. The polling loop, the sleeping and the
//! reading of the clipboard are left to the caller, which hands each tick's
//! reading to [`ClipboardMonitor::on_tick`].
use crate::clipboard::content::{string_from_utf8, content_digest, hash_of, ClipboardContent, ContentModel, string_views};
use crate::clipboard::history::{after_insert, has_hash, ClipboardHistory};
use vstd::prelude::*;
use vstd::utf8::{decode_utf8, valid_utf8};

verus! {

/// The kind of one representation that the system clipboard offers.
pub enum RawKind {
    /// UTF-8 text.
    Text,
    /// Encoded image bytes, with the metadata the reader decoded.
    Image { width: u32, height: u32, format: String },
    /// A `text/uri-list`: one path or `file://` URI per line.
    FileList,
    /// Anything else; never ingested.
    Other,
}

/// One representation of the clipboard's current payload.
pub struct RawPayload {
    pub kind: RawKind,
    pub bytes: Vec<u8>,
}

/// Rank of a kind when several representations are offered: lower wins.
pub open spec fn rank(k: RawKind) -> nat {
    match k {
        RawKind::Text => 0,
        RawKind::Image { .. } => 1,
        RawKind::FileList => 2,
        RawKind::Other => 3,
    }
}

/// The lines of `b` split at `\n` bytes, as (finished lines, current line).
pub open spec fn split_lines(b: Seq<u8>) -> (Seq<Seq<u8>>, Seq<u8>)
    decreases b.len(),
{
    if b.len() == 0 {
        (Seq::empty(), Seq::empty())
    } else {
        let (ls, cur) = split_lines(b.drop_last());
        if b.last() == 10u8 {
            (ls.push(cur), Seq::empty())
        } else {
            (ls, cur.push(b.last()))
        }
    }
}

/// The lines of `b`, the last one included.
pub open spec fn lines(b: Seq<u8>) -> Seq<Seq<u8>> {
    split_lines(b).0.push(split_lines(b).1)
}

/// The `file://` scheme, as bytes.
pub open spec fn file_scheme() -> Seq<u8> {
    seq![102u8, 105u8, 108u8, 101u8, 58u8, 47u8, 47u8]
}

/// A line without a trailing `\r` and without a leading `file://`.
pub open spec fn path_bytes(line: Seq<u8>) -> Seq<u8> {
    let l = if line.len() > 0 && line.last() == 13u8 {
        line.drop_last()
    } else {
        line
    };
    if l.len() >= 7 && l.subrange(0, 7) == file_scheme() {
        l.subrange(7, l.len() as int)
    } else {
        l
    }
}

/// The paths of a uri-list: the non-empty lines, each through [`path_bytes`];
/// `None` if one is not UTF-8.
pub open spec fn paths_of(ls: Seq<Seq<u8>>) -> Option<Seq<Seq<char>>>
    decreases ls.len(),
{
    if ls.len() == 0 {
        Some(Seq::empty())
    } else {
        match paths_of(ls.drop_last()) {
            None => None,
            Some(ps) => {
                let p = path_bytes(ls.last());
                if p.len() == 0 {
                    Some(ps)
                } else if valid_utf8(p) {
                    Some(ps.push(decode_utf8(p)))
                } else {
                    None
                }
            },
        }
    }
}

/// The content that one representation stands for, if it converts: text
/// that is non-empty UTF-8, an image with bytes, a uri-list with at least
/// one path.
pub open spec fn convert(k: RawKind, b: Seq<u8>) -> Option<ContentModel> {
    match k {
        RawKind::Text => if b.len() > 0 && valid_utf8(b) {
            Some(ContentModel::Text(decode_utf8(b)))
        } else {
            None
        },
        RawKind::Image { width, height, format } => if b.len() > 0 {
            Some(ContentModel::Image { bytes: b, width, height, format: format@ })
        } else {
            None
        },
        RawKind::FileList => match paths_of(lines(b)) {
            Some(ps) => if ps.len() > 0 {
                Some(ContentModel::Files(ps))
            } else {
                None
            },
            None => None,
        },
        RawKind::Other => None,
    }
}

fn copy_bytes(b: &Vec<u8>) -> (r: Vec<u8>)
    ensures
        r@ == b@,
{
    let mut r: Vec<u8> = Vec::new();
    let mut i: usize = 0;
    while i < b.len()
        invariant
            i <= b@.len(),
            r@ == b@.take(i as int),
        decreases b.len() - i,
    {
        r.push(b[i]);
        assert(r@ =~= b@.take(i + 1));
        i = i + 1;
    }
    assert(b@.take(i as int) =~= b@);
    r
}

fn path_of_line(line: &Vec<u8>) -> (r: Vec<u8>)
    ensures
        r@ == path_bytes(line@),
{
    let mut end = line.len();
    if end > 0 && line[end - 1] == 13u8 {
        end = end - 1;
    }
    let l = vstd::slice::slice_subrange(line.as_slice(), 0, end);
    assert(l@ =~= if line@.len() > 0 && line@.last() == 13u8 {
        line@.drop_last()
    } else {
        line@
    });
    let scheme: Vec<u8> = vec![102u8, 105u8, 108u8, 101u8, 58u8, 47u8, 47u8];
    assert(scheme@ =~= file_scheme());
    let mut start: usize = 0;
    if end >= 7 {
        let mut same = true;
        let mut k: usize = 0;
        while k < 7
            invariant
                k <= 7,
                end >= 7,
                l@.len() == end,
                scheme@ == file_scheme(),
                same <==> forall|t: int| 0 <= t < k ==> l@[t] == scheme@[t],
            decreases 7 - k,
        {
            if l[k] != scheme[k] {
                same = false;
            }
            k = k + 1;
        }
        if same {
            assert(l@.subrange(0, 7) =~= file_scheme());
            start = 7;
        } else {
            assert(l@.subrange(0, 7) != file_scheme()) by {
                let t = choose|t: int| 0 <= t < 7 && l@[t] != scheme@[t];
                assert(l@.subrange(0, 7)[t] != file_scheme()[t]);
            }
        }
    }
    let r = vstd::slice::slice_to_vec(vstd::slice::slice_subrange(l, start, end));
    assert(r@ =~= path_bytes(line@));
    r
}

/// One more line of a uri-list: its path joins `paths` unless it is empty;
/// a path that is not UTF-8 sets `failed`.
fn add_path(paths: &mut Vec<String>, failed: &mut bool, line: &Vec<u8>)
    ensures
        ({
            let before = if *old(failed) {
                None
            } else {
                Some(string_views(old(paths)@))
            };
            let p = path_bytes(line@);
            let after: Option<Seq<Seq<char>>> = match before {
                None => None,
                Some(ps) => if p.len() == 0 {
                    Some(ps)
                } else if valid_utf8(p) {
                    Some(ps.push(decode_utf8(p)))
                } else {
                    None
                },
            };
            after == if *final(failed) {
                None
            } else {
                Some(string_views(final(paths)@))
            }
        }),
{
    if *failed {
        return ;
    }
    let pb = path_of_line(line);
    if pb.len() == 0 {
        return ;
    }
    match string_from_utf8(pb) {
        Some(s) => {
            paths.push(s);
            assert(string_views(paths@) =~= string_views(old(paths)@).push(s@));
        },
        None => {
            *failed = true;
        },
    }
}

/// Converts one representation into content, when it converts.
pub fn to_content(p: &RawPayload) -> (r: Option<ClipboardContent>)
    ensures
        match r {
            Some(c) => convert(p.kind, p.bytes@) == Some(c@),
            None => convert(p.kind, p.bytes@) is None,
        },
{
    match &p.kind {
        RawKind::Text => {
            if p.bytes.len() == 0 {
                return None;
            }
            match string_from_utf8(copy_bytes(&p.bytes)) {
                Some(s) => Some(ClipboardContent::Text(s)),
                None => None,
            }
        },
        RawKind::Image { width, height, format } => {
            if p.bytes.len() == 0 {
                return None;
            }
            Some(
                ClipboardContent::Image {
                    bytes: copy_bytes(&p.bytes),
                    width: *width,
                    height: *height,
                    format: format.clone(),
                },
            )
        },
        RawKind::FileList => {
            let b = &p.bytes;
            let mut paths: Vec<String> = Vec::new();
            let mut cur: Vec<u8> = Vec::new();
            let mut failed = false;
            let mut i: usize = 0;
            assert(b@.take(0) =~= Seq::<u8>::empty());
            assert(string_views(paths@) =~= Seq::<Seq<char>>::empty());
            let ghost mut done: Seq<Seq<u8>> = Seq::empty();
            while i < b.len()
                invariant
                    i <= b@.len(),
                    split_lines(b@.take(i as int)) == (done, cur@),
                    paths_of(done) == if failed {
                        None
                    } else {
                        Some(string_views(paths@))
                    },
                decreases b.len() - i,
            {
                assert(b@.take(i + 1).drop_last() =~= b@.take(i as int));
                assert(b@.take(i + 1).last() == b@[i as int]);
                if b[i] == 10u8 {
                    let ghost line = cur@;
                    assert(done.push(line).drop_last() =~= done);
                    add_path(&mut paths, &mut failed, &cur);
                    proof {
                        done = done.push(line);
                    }
                    cur = Vec::new();
                    assert(cur@ =~= Seq::<u8>::empty());
                } else {
                    cur.push(b[i]);
                }
                i = i + 1;
            }
            assert(b@.take(i as int) =~= b@);
            assert(lines(b@) == done.push(cur@));
            assert(done.push(cur@).drop_last() =~= done);
            add_path(&mut paths, &mut failed, &cur);
            if failed || paths.len() == 0 {
                None
            } else {
                Some(ClipboardContent::Files(paths))
            }
        },
        RawKind::Other => None,
    }
}


/// The content of the first representation of rank `k` that converts.
pub open spec fn first_of_rank(reps: Seq<RawPayload>, k: nat) -> Option<ContentModel>
    decreases reps.len(),
{
    if reps.len() == 0 {
        None
    } else {
        match first_of_rank(reps.drop_last(), k) {
            Some(c) => Some(c),
            None => if rank(reps.last().kind) == k {
                convert(reps.last().kind, reps.last().bytes@)
            } else {
                None
            },
        }
    }
}

/// The content that a clipboard offering these representations holds: text
/// wins over an image, an image over a file list.
pub open spec fn picked(reps: Seq<RawPayload>) -> Option<ContentModel> {
    match first_of_rank(reps, 0) {
        Some(c) => Some(c),
        None => match first_of_rank(reps, 1) {
            Some(c) => Some(c),
            None => first_of_rank(reps, 2),
        },
    }
}

fn pick_rank(reps: &Vec<RawPayload>, k: u8) -> (r: Option<ClipboardContent>)
    requires
        k <= 2,
    ensures
        match r {
            Some(c) => first_of_rank(reps@, k as nat) == Some(c@),
            None => first_of_rank(reps@, k as nat) is None,
        },
{
    let mut i: usize = 0;
    while i < reps.len()
        invariant
            i <= reps@.len(),
            k <= 2,
            first_of_rank(reps@.take(i as int), k as nat) is None,
        decreases reps.len() - i,
    {
        assert(reps@.take(i + 1).drop_last() =~= reps@.take(i as int));
        let rk: u8 = match &reps[i].kind {
            RawKind::Text => 0,
            RawKind::Image { .. } => 1,
            RawKind::FileList => 2,
            RawKind::Other => 3,
        };
        if rk == k {
            match to_content(&reps[i]) {
                Some(c) => {
                    proof {
                        lemma_first_of_rank_prefix(reps@, i + 1, k as nat);
                    }
                    return Some(c);
                },
                None => {},
            }
        }
        i = i + 1;
    }
    assert(reps@.take(i as int) =~= reps@);
    None
}

proof fn lemma_first_of_rank_prefix(reps: Seq<RawPayload>, i: int, k: nat)
    requires
        0 <= i <= reps.len(),
        first_of_rank(reps.take(i), k) is Some,
    ensures
        first_of_rank(reps, k) == first_of_rank(reps.take(i), k),
    decreases reps.len() - i,
{
    if i < reps.len() {
        assert(reps.take(i + 1).drop_last() =~= reps.take(i));
        lemma_first_of_rank_prefix(reps, i + 1, k);
    } else {
        assert(reps.take(i) =~= reps);
    }
}

/// The content that a clipboard offering these representations holds, if
/// any of them converts.
pub fn pick(reps: &Vec<RawPayload>) -> (r: Option<ClipboardContent>)
    ensures
        match r {
            Some(c) => picked(reps@) == Some(c@),
            None => picked(reps@) is None,
        },
{
    match pick_rank(reps, 0) {
        Some(c) => Some(c),
        None => match pick_rank(reps, 1) {
            Some(c) => Some(c),
            None => pick_rank(reps, 2),
        },
    }
}

/// What one poll of the clipboard led to.
#[derive(Debug, PartialEq, Eq, Structural)]
pub enum TickOutcome {
    /// The monitor was cancelled; the loop should end.
    Stopped,
    /// Nothing usable was on the clipboard.
    Skipped,
    /// The clipboard held what was last seen (or last written by the launcher).
    Unchanged,
    /// The content was handed to the history, which holds it under this id;
    /// subscribers should be told.
    Ingested(u64),
}

/// The monitor's state between polls.
pub struct ClipboardMonitor {
    last_seen: Option<u64>,
    cancelled: bool,
}

impl ClipboardMonitor {
    /// The digest of the clipboard content seen last, if any.
    pub closed spec fn last_seen_spec(&self) -> Option<u64> {
        self.last_seen
    }

    pub closed spec fn cancelled_spec(&self) -> bool {
        self.cancelled
    }

    /// A monitor that has seen nothing yet.
    pub fn new() -> (r: Self)
        ensures
            r.last_seen_spec() is None,
            !r.cancelled_spec(),
    {
        ClipboardMonitor { last_seen: None, cancelled: false }
    }

    pub fn last_seen(&self) -> (r: Option<u64>)
        ensures
            r == self.last_seen_spec(),
    {
        self.last_seen
    }

    pub fn is_cancelled(&self) -> (r: bool)
        ensures
            r == self.cancelled_spec(),
    {
        self.cancelled
    }

    /// Asks the loop to end at its next tick.
    pub fn cancel(&mut self)
        ensures
            final(self).cancelled_spec(),
            final(self).last_seen_spec() == old(self).last_seen_spec(),
    {
        self.cancelled = true;
    }

    /// Records that the launcher itself is about to put `c` on the
    /// clipboard, so that the next poll does not ingest it again.
    pub fn note_self_write(&mut self, c: &ClipboardContent)
        ensures
            final(self).last_seen_spec() == Some(content_digest(c@)),
            final(self).cancelled_spec() == old(self).cancelled_spec(),
    {
        self.last_seen = Some(hash_of(c));
    }

    /// One poll: `reading` is what the clipboard offers now (empty when it
    /// is empty or could not be read). Content whose digest differs from
    /// the one seen last is inserted into `history` at time `now`.
    pub fn on_tick(
        &mut self,
        history: &mut ClipboardHistory,
        reading: &Vec<RawPayload>,
        now: u64,
    ) -> (r: TickOutcome)
        requires
            old(history).wf(),
            old(history).next_id_spec() < u64::MAX,
        ensures
            final(history).wf(),
            final(self).cancelled_spec() == old(self).cancelled_spec(),
            final(history).capacity_spec() == old(history).capacity_spec(),
            old(self).cancelled_spec() ==> r is Stopped && *final(history) == *old(history)
                && final(self).last_seen_spec() == old(self).last_seen_spec(),
            !old(self).cancelled_spec() ==> match picked(reading@) {
                None => r is Skipped && *final(history) == *old(history)
                    && final(self).last_seen_spec() == old(self).last_seen_spec(),
                Some(c) => if old(self).last_seen_spec() == Some(content_digest(c)) {
                    r is Unchanged && *final(history) == *old(history)
                        && final(self).last_seen_spec() == old(self).last_seen_spec()
                } else {
                    &&& r is Ingested
                    &&& final(self).last_seen_spec() == Some(content_digest(c))
                    &&& final(history)@ == after_insert(
                        old(history)@,
                        old(history).next_id_spec(),
                        old(history).capacity_spec(),
                        c,
                        now,
                    )
                    &&& !has_hash(old(history)@, content_digest(c)) ==> r->Ingested_0 == old(
                        history,
                    ).next_id_spec()
                    &&& has_hash(old(history)@, content_digest(c)) ==> final(history)@[0].id
                        == r->Ingested_0 && final(history)@[0].content_hash == content_digest(c)
                },
            },
    {
        if self.cancelled {
            return TickOutcome::Stopped;
        }
        match pick(reading) {
            None => TickOutcome::Skipped,
            Some(c) => {
                let h = hash_of(&c);
                let same = match self.last_seen {
                    Some(x) => x == h,
                    None => false,
                };
                if same {
                    TickOutcome::Unchanged
                } else {
                    let ghost cm = c@;
                    let id = history.insert_or_touch(c, now);
                    self.last_seen = Some(h);
                    proof {
                        if has_hash(old(history)@, content_digest(cm)) {
                            let j = choose|j: int|
                                0 <= j < old(history)@.len() && old(history)@[j].content_hash
                                    == content_digest(cm);
                            assert(history@[0].id == old(history)@[j].id);
                        }
                    }
                    TickOutcome::Ingested(id)
                }
            },
        }
    }
}

} // verus!

//! The history store: an ordered, bounded, deduplicated list of clipboard
//! items with pinning and eviction.
use crate::clipboard::content::{content_digest, hash_of, ClipboardContent, ContentModel};
use crate::text::{bytes_occur, occurs_in};
use vstd::string::StringSliceAdditionalSpecFns;
use vstd::utf8::encode_utf8;
use crate::clipboard::persist::{record_views, PersistedItem, RecordModel};
use std::collections::HashMap;
use vstd::prelude::*;

verus! {

/// One retained clipboard payload.
#[derive(Debug)]
pub struct ClipboardItem {
    /// Sequence number, unique within a history, given at insertion.
    pub id: u64,
    pub content: ClipboardContent,
    /// The digest of `content`, computed once; the deduplication key.
    pub content_hash: u64,
    /// When the content was first observed.
    pub created_at: u64,
    /// When the content was last observed.
    pub last_seen_at: u64,
    /// Pinned items are exempt from eviction.
    pub pinned: bool,
}

/// The mathematical value of a [`ClipboardItem`].
pub ghost struct ItemModel {
    pub id: u64,
    pub content: ContentModel,
    pub content_hash: u64,
    pub created_at: u64,
    pub last_seen_at: u64,
    pub pinned: bool,
}

impl View for ClipboardItem {
    type V = ItemModel;

    open spec fn view(&self) -> ItemModel {
        ItemModel {
            id: self.id,
            content: self.content@,
            content_hash: self.content_hash,
            created_at: self.created_at,
            last_seen_at: self.last_seen_at,
            pinned: self.pinned,
        }
    }
}

pub open spec fn item_views(v: Seq<ClipboardItem>) -> Seq<ItemModel> {
    v.map_values(|i: ClipboardItem| i@)
}

/// Number of entries that are not pinned.
pub open spec fn unpinned_count(s: Seq<ItemModel>) -> nat
    decreases s.len(),
{
    if s.len() == 0 {
        0
    } else {
        unpinned_count(s.drop_last()) + if s.last().pinned {
            0nat
        } else {
            1nat
        }
    }
}

/// Position of the last entry that is not pinned, or -1 when all are.
pub open spec fn last_unpinned(s: Seq<ItemModel>) -> int
    decreases s.len(),
{
    if s.len() == 0 {
        -1
    } else if !s.last().pinned {
        s.len() - 1
    } else {
        last_unpinned(s.drop_last())
    }
}

/// Removes least recently used unpinned entries, from the back, until at
/// most `cap` unpinned entries remain.
pub open spec fn evict(s: Seq<ItemModel>, cap: nat) -> Seq<ItemModel>
    decreases s.len(),
{
    if unpinned_count(s) <= cap || !(0 <= last_unpinned(s) < s.len()) {
        s
    } else {
        evict(s.remove(last_unpinned(s)), cap)
    }
}

/// The pinned entries, in order.
pub open spec fn pinned_only(s: Seq<ItemModel>) -> Seq<ItemModel>
    decreases s.len(),
{
    if s.len() == 0 {
        s
    } else if s.last().pinned {
        pinned_only(s.drop_last()).push(s.last())
    } else {
        pinned_only(s.drop_last())
    }
}

/// No two entries share a content digest.
pub open spec fn hashes_unique(s: Seq<ItemModel>) -> bool {
    forall|i: int, j: int|
        0 <= i < s.len() && 0 <= j < s.len() && i != j ==> s[i].content_hash != s[j].content_hash
}

/// No two entries share an id.
pub open spec fn ids_unique(s: Seq<ItemModel>) -> bool {
    forall|i: int, j: int| 0 <= i < s.len() && 0 <= j < s.len() && i != j ==> s[i].id != s[j].id
}

/// Some entry has this digest.
pub open spec fn has_hash(s: Seq<ItemModel>, h: u64) -> bool {
    exists|i: int| 0 <= i < s.len() && s[i].content_hash == h
}

/// Some entry has this id.
pub open spec fn has_id(s: Seq<ItemModel>, id: u64) -> bool {
    exists|i: int| 0 <= i < s.len() && s[i].id == id
}

/// The entries, each with its pin flag set to `pinned` where its id is `id`.
pub open spec fn with_pin(s: Seq<ItemModel>, id: u64, pinned: bool) -> Seq<ItemModel> {
    s.map_values(|e: ItemModel| if e.id == id { ItemModel { pinned, ..e } } else { e })
}

/// The entries without the one whose id is `id`.
pub open spec fn without_id(s: Seq<ItemModel>, id: u64) -> Seq<ItemModel>
    decreases s.len(),
{
    if s.len() == 0 {
        s
    } else if s.last().id == id {
        without_id(s.drop_last(), id)
    } else {
        without_id(s.drop_last(), id).push(s.last())
    }
}

/// The entry that a first observation of `c` at time `now` creates.
pub open spec fn fresh_item(id: u64, c: ContentModel, now: u64) -> ItemModel {
    ItemModel {
        id,
        content: c,
        content_hash: content_digest(c),
        created_at: now,
        last_seen_at: now,
        pinned: false,
    }
}

/// The entries after observing `c` at `now`: known content (by digest)
/// is touched, new content is put in front and eviction follows.
pub open spec fn after_insert(s: Seq<ItemModel>, next: u64, cap: nat, c: ContentModel, now: u64) -> Seq<
    ItemModel,
> {
    if has_hash(s, content_digest(c)) {
        touched(
            s,
            choose|i: int| 0 <= i < s.len() && s[i].content_hash == content_digest(c),
            now,
        )
    } else {
        evict(seq![fresh_item(next, c, now)] + s, cap)
    }
}

/// The well-formedness of a history's entries, below a next id.
pub open spec fn entries_wf(s: Seq<ItemModel>, next_id: u64) -> bool {
    &&& hashes_unique(s)
    &&& ids_unique(s)
    &&& forall|i: int|
        0 <= i < s.len() ==> {
            &&& #[trigger] s[i].content_hash == content_digest(s[i].content)
            &&& 1 <= s[i].id < next_id
        }
}

/// Some entry has this id and is pinned.
pub open spec fn holds_pinned(s: Seq<ItemModel>, id: u64) -> bool {
    exists|k: int| 0 <= k < s.len() && #[trigger] s[k].id == id && s[k].pinned
}

/// The entries with the one at `i` moved to the front, seen again at `now`.
pub open spec fn touched(s: Seq<ItemModel>, i: int, now: u64) -> Seq<ItemModel> {
    seq![ItemModel { last_seen_at: now, ..s[i] }] + s.remove(i)
}

proof fn lemma_last_unpinned(s: Seq<ItemModel>)
    ensures
        last_unpinned(s) == -1 || (0 <= last_unpinned(s) < s.len() && !s[last_unpinned(s)].pinned),
        unpinned_count(s) > 0 ==> 0 <= last_unpinned(s) < s.len() && unpinned_count(
            s.remove(last_unpinned(s)),
        ) == unpinned_count(s) - 1 && pinned_only(s.remove(last_unpinned(s))) == pinned_only(s),
    decreases s.len(),
{
    if s.len() > 0 {
        let d = s.drop_last();
        lemma_last_unpinned(d);
        if !s.last().pinned {
            assert(s.remove(s.len() - 1) =~= d);
        } else {
            let k = last_unpinned(d);
            if unpinned_count(s) > 0 {
                assert(s.remove(k).drop_last() =~= d.remove(k));
                assert(s.remove(k).last() == s.last());
            }
        }
    }
}

proof fn lemma_wf_remove(s: Seq<ItemModel>, n: u64, k: int)
    requires
        entries_wf(s, n),
        0 <= k < s.len(),
    ensures
        entries_wf(s.remove(k), n),
{
    let r = s.remove(k);
    assert forall|i: int| 0 <= i < r.len() implies #[trigger] r[i] == s[if i < k { i } else { i + 1 }] by {}
}

proof fn lemma_evict(s: Seq<ItemModel>, cap: nat, n: u64)
    requires
        entries_wf(s, n),
    ensures
        entries_wf(evict(s, cap), n),
        unpinned_count(evict(s, cap)) <= cap,
        pinned_only(evict(s, cap)) == pinned_only(s),
        evict(s, cap).len() <= s.len(),
    decreases s.len(),
{
    lemma_last_unpinned(s);
    if unpinned_count(s) > cap {
        let k = last_unpinned(s);
        lemma_wf_remove(s, n, k);
        lemma_evict(s.remove(k), cap, n);
    }
}

proof fn lemma_wf_touched(s: Seq<ItemModel>, n: u64, i: int, now: u64)
    requires
        entries_wf(s, n),
        0 <= i < s.len(),
    ensures
        entries_wf(touched(s, i, now), n),
{
    let t = touched(s, i, now);
    assert forall|j: int| 0 <= j < t.len() implies #[trigger] t[j].content_hash == s[
        if j == 0 { i } else if j - 1 < i { j - 1 } else { j }
    ].content_hash && t[j].id == s[if j == 0 { i } else if j - 1 < i { j - 1 } else { j }].id
        && t[j].content == s[if j == 0 { i } else if j - 1 < i { j - 1 } else { j }].content by {}
    assert forall|a: int, b: int| 0 <= a < t.len() && 0 <= b < t.len() && a != b implies t[a].content_hash
        != t[b].content_hash && t[a].id != t[b].id by {
        let sa = if a == 0 { i } else if a - 1 < i { a - 1 } else { a };
        let sb = if b == 0 { i } else if b - 1 < i { b - 1 } else { b };
        assert(t[a].content_hash == s[sa].content_hash);
        assert(t[b].content_hash == s[sb].content_hash);
        assert(sa != sb);
    }
}

proof fn lemma_wf_fresh(s: Seq<ItemModel>, n: u64, c: ContentModel, now: u64)
    requires
        entries_wf(s, n),
        !has_hash(s, content_digest(c)),
        n < u64::MAX,
        n >= 1,
    ensures
        entries_wf(seq![fresh_item(n, c, now)] + s, (n + 1) as u64),
{
    let t = seq![fresh_item(n, c, now)] + s;
    assert forall|j: int| 1 <= j < t.len() implies #[trigger] t[j] == s[j - 1] by {}
    assert forall|a: int, b: int| 0 <= a < t.len() && 0 <= b < t.len() && a != b implies t[a].content_hash
        != t[b].content_hash && t[a].id != t[b].id by {
        if a > 0 && b > 0 {
            assert(t[a] == s[a - 1]);
            assert(t[b] == s[b - 1]);
        } else if a == 0 {
            assert(t[b] == s[b - 1]);
        } else {
            assert(t[a] == s[a - 1]);
        }
    }
}

proof fn lemma_without_absent(s: Seq<ItemModel>, id: u64)
    requires
        !has_id(s, id),
    ensures
        without_id(s, id) == s,
    decreases s.len(),
{
    if s.len() > 0 {
        assert(!has_id(s.drop_last(), id)) by {
            if has_id(s.drop_last(), id) {
                let i = choose|i: int| 0 <= i < s.drop_last().len() && s.drop_last()[i].id == id;
                assert(s[i].id == id);
            }
        }
        assert(s.last() == s[s.len() - 1]);
        lemma_without_absent(s.drop_last(), id);
        assert(s.drop_last().push(s.last()) =~= s);
    }
}

proof fn lemma_without_id(s: Seq<ItemModel>, id: u64, i: int)
    requires
        ids_unique(s),
        0 <= i < s.len(),
        s[i].id == id,
    ensures
        without_id(s, id) == s.remove(i),
    decreases s.len(),
{
    let d = s.drop_last();
    if i == s.len() - 1 {
        assert(!has_id(d, id)) by {
            if has_id(d, id) {
                let j = choose|j: int| 0 <= j < d.len() && d[j].id == id;
                assert(s[j].id == id);
            }
        }
        lemma_without_absent(d, id);
        assert(s.remove(i) =~= d);
    } else {
        assert(ids_unique(d)) by {
            assert forall|a: int, b: int| 0 <= a < d.len() && 0 <= b < d.len() && a != b implies d[a].id
                != d[b].id by {
                assert(d[a] == s[a] && d[b] == s[b]);
            }
        }
        lemma_without_id(d, id, i);
        assert(s.last().id != id);
        assert(d.remove(i).push(s.last()) =~= s.remove(i));
    }
}

/// Which entries a snapshot keeps.
pub enum HistoryFilter {
    All,
    Pinned,
    Text,
    Images,
    Files,
    /// Text entries whose UTF-8 bytes contain the query's UTF-8 bytes.
    TextContains(String),
}

pub open spec fn accepts(f: HistoryFilter, e: ItemModel) -> bool {
    match f {
        HistoryFilter::All => true,
        HistoryFilter::Pinned => e.pinned,
        HistoryFilter::Text => e.content is Text,
        HistoryFilter::Images => e.content is Image,
        HistoryFilter::Files => e.content is Files,
        HistoryFilter::TextContains(q) => match e.content {
            ContentModel::Text(t) => occurs_in(encode_utf8(t), encode_utf8(q@)),
            _ => false,
        },
    }
}

/// The entries that `f` accepts, in order.
pub open spec fn select(s: Seq<ItemModel>, f: HistoryFilter) -> Seq<ItemModel>
    decreases s.len(),
{
    if s.len() == 0 {
        s
    } else if accepts(f, s.last()) {
        select(s.drop_last(), f).push(s.last())
    } else {
        select(s.drop_last(), f)
    }
}

impl ClipboardItem {
    /// An independent copy of this item.
    pub fn duplicate(&self) -> (r: ClipboardItem)
        ensures
            r@ == self@,
    {
        ClipboardItem {
            id: self.id,
            content: self.content.duplicate(),
            content_hash: self.content_hash,
            created_at: self.created_at,
            last_seen_at: self.last_seen_at,
            pinned: self.pinned,
        }
    }

    /// Whether the filter keeps this item.
    pub fn accepted_by(&self, f: &HistoryFilter) -> (r: bool)
        ensures
            r == accepts(*f, self@),
    {
        match f {
            HistoryFilter::All => true,
            HistoryFilter::Pinned => self.pinned,
            HistoryFilter::Text => matches!(self.content, ClipboardContent::Text(_)),
            HistoryFilter::Images => matches!(self.content, ClipboardContent::Image { .. }),
            HistoryFilter::Files => matches!(self.content, ClipboardContent::Files(_)),
            HistoryFilter::TextContains(q) => match &self.content {
                ClipboardContent::Text(t) => bytes_occur(t.as_str().as_bytes(), q.as_str().as_bytes()),
                _ => false,
            },
        }
    }
}

/// Some record holds content with digest `h`.
pub open spec fn digest_in(d: Seq<RecordModel>, h: u64) -> bool {
    exists|j: int| 0 <= j < d.len() && content_digest(#[trigger] d[j].content) == h
}

/// The records, each kept only if no earlier record has its digest.
pub open spec fn dedup_records(rs: Seq<RecordModel>) -> Seq<RecordModel>
    decreases rs.len(),
{
    if rs.len() == 0 {
        rs
    } else {
        let d = dedup_records(rs.drop_last());
        if digest_in(d, content_digest(rs.last().content)) {
            d
        } else {
            d.push(rs.last())
        }
    }
}

/// The entries that a history rebuilt from these records holds: the first
/// record becomes the front entry, and ids run from the number of records
/// at the front down to 1 at the back.
pub open spec fn rebuilt(d: Seq<RecordModel>) -> Seq<ItemModel> {
    Seq::new(
        d.len(),
        |t: int|
            ItemModel {
                id: (d.len() - t) as u64,
                content: d[t].content,
                content_hash: content_digest(d[t].content),
                created_at: d[t].created_at,
                last_seen_at: d[t].last_seen_at,
                pinned: d[t].pinned,
            },
    )
}

/// The index maps exactly the entries' digests, each to its entry's id.
pub open spec fn index_matches(s: Seq<ItemModel>, m: Map<u64, u64>) -> bool {
    &&& forall|h: u64| #[trigger] m.contains_key(h) <==> has_hash(s, h)
    &&& forall|i: int| 0 <= i < s.len() ==> m[#[trigger] s[i].content_hash] == s[i].id
}

proof fn lemma_index_remove(s: Seq<ItemModel>, m: Map<u64, u64>, k: int)
    requires
        hashes_unique(s),
        index_matches(s, m),
        0 <= k < s.len(),
    ensures
        index_matches(s.remove(k), m.remove(s[k].content_hash)),
{
    let r = s.remove(k);
    let m2 = m.remove(s[k].content_hash);
    assert forall|i: int| 0 <= i < r.len() implies #[trigger] r[i] == s[if i < k { i } else { i + 1 }] by {}
    assert forall|h: u64| #[trigger] m2.contains_key(h) <==> has_hash(r, h) by {
        if has_hash(r, h) {
            let i = choose|i: int| 0 <= i < r.len() && r[i].content_hash == h;
            let j = if i < k { i } else { i + 1 };
            assert(r[i] == s[j]);
            assert(has_hash(s, h));
        }
        if m2.contains_key(h) {
            assert(has_hash(s, h));
            let j = choose|j: int| 0 <= j < s.len() && s[j].content_hash == h;
            assert(j != k);
            let i = if j < k { j } else { j - 1 };
            assert(r[i] == s[j]);
        }
    }
    assert forall|i: int| 0 <= i < r.len() implies m2[#[trigger] r[i].content_hash] == r[i].id by {
        let j = if i < k { i } else { i + 1 };
        assert(r[i] == s[j]);
        assert(j != k);
    }
}

proof fn lemma_index_fresh(s: Seq<ItemModel>, m: Map<u64, u64>, x: ItemModel)
    requires
        index_matches(s, m),
        !has_hash(s, x.content_hash),
    ensures
        index_matches(seq![x] + s, m.insert(x.content_hash, x.id)),
        index_matches(s.push(x), m.insert(x.content_hash, x.id)),
{
    let t = seq![x] + s;
    let u = s.push(x);
    let m2 = m.insert(x.content_hash, x.id);
    assert forall|h: u64| #[trigger] m2.contains_key(h) <==> has_hash(t, h) by {
        if has_hash(s, h) {
            let j = choose|j: int| 0 <= j < s.len() && s[j].content_hash == h;
            assert(t[j + 1] == s[j]);
        }
        if has_hash(t, h) && h != x.content_hash {
            let i = choose|i: int| 0 <= i < t.len() && t[i].content_hash == h;
            assert(t[i] == s[i - 1]);
        }
        if h == x.content_hash {
            assert(t[0] == x);
        }
    }
    assert forall|h: u64| #[trigger] m2.contains_key(h) <==> has_hash(u, h) by {
        if has_hash(s, h) {
            let j = choose|j: int| 0 <= j < s.len() && s[j].content_hash == h;
            assert(u[j] == s[j]);
        }
        if has_hash(u, h) && h != x.content_hash {
            let i = choose|i: int| 0 <= i < u.len() && u[i].content_hash == h;
            assert(u[i] == s[i]);
        }
        if h == x.content_hash {
            assert(u[s.len() as int] == x);
        }
    }
    assert forall|i: int| 0 <= i < t.len() implies m2[#[trigger] t[i].content_hash] == t[i].id by {
        if i > 0 {
            assert(t[i] == s[i - 1]);
        }
    }
    assert forall|i: int| 0 <= i < u.len() implies m2[#[trigger] u[i].content_hash] == u[i].id by {
        if i < s.len() {
            assert(u[i] == s[i]);
        }
    }
}

proof fn lemma_index_touched(s: Seq<ItemModel>, m: Map<u64, u64>, i: int, now: u64)
    requires
        index_matches(s, m),
        0 <= i < s.len(),
    ensures
        index_matches(touched(s, i, now), m),
{
    let t = touched(s, i, now);
    assert forall|j: int| 0 <= j < t.len() implies #[trigger] t[j].content_hash == s[
        if j == 0 { i } else if j - 1 < i { j - 1 } else { j }
    ].content_hash && t[j].id == s[if j == 0 { i } else if j - 1 < i { j - 1 } else { j }].id by {}
    assert forall|h: u64| #[trigger] m.contains_key(h) <==> has_hash(t, h) by {
        if has_hash(s, h) {
            let k = choose|k: int| 0 <= k < s.len() && s[k].content_hash == h;
            let j = if k == i { 0 } else if k < i { k + 1 } else { k };
            assert(t[j].content_hash == s[k].content_hash);
        }
        if has_hash(t, h) {
            let j = choose|j: int| 0 <= j < t.len() && t[j].content_hash == h;
            let k = if j == 0 { i } else if j - 1 < i { j - 1 } else { j };
            assert(t[j].content_hash == s[k].content_hash);
        }
    }
    assert forall|j: int| 0 <= j < t.len() implies m[#[trigger] t[j].content_hash] == t[j].id by {
        let k = if j == 0 { i } else if j - 1 < i { j - 1 } else { j };
        assert(t[j].content_hash == s[k].content_hash && t[j].id == s[k].id);
    }
}

/// Two entry lists with the same digests and ids, position by position,
/// match the same index.
proof fn lemma_index_same_keys(s: Seq<ItemModel>, t: Seq<ItemModel>, m: Map<u64, u64>)
    requires
        index_matches(s, m),
        s.len() == t.len(),
        forall|i: int|
            0 <= i < s.len() ==> #[trigger] t[i].content_hash == s[i].content_hash && t[i].id
                == s[i].id,
    ensures
        index_matches(t, m),
{
    assert forall|h: u64| #[trigger] m.contains_key(h) <==> has_hash(t, h) by {
        if has_hash(s, h) {
            let j = choose|j: int| 0 <= j < s.len() && s[j].content_hash == h;
            assert(t[j].content_hash == h);
        }
        if has_hash(t, h) {
            let j = choose|j: int| 0 <= j < t.len() && t[j].content_hash == h;
            assert(t[j].content_hash == s[j].content_hash);
        }
    }
    assert forall|i: int| 0 <= i < t.len() implies m[#[trigger] t[i].content_hash] == t[i].id by {
        assert(t[i].content_hash == s[i].content_hash);
    }
}

/// The history store.
pub struct ClipboardHistory {
    /// The entries, most recently used first.
    entries: Vec<ClipboardItem>,
    /// Content digest to entry id, for every entry.
    index: HashMap<u64, u64>,
    capacity: u64,
    next_id: u64,
}

impl ClipboardHistory {
    /// The entries, most recently used first.
    pub closed spec fn view(&self) -> Seq<ItemModel> {
        item_views(self.entries@)
    }

    /// The maximum number of unpinned entries that an insertion leaves.
    pub closed spec fn capacity_spec(&self) -> nat {
        self.capacity as nat
    }

    /// The id that the next new entry receives.
    pub closed spec fn next_id_spec(&self) -> u64 {
        self.next_id
    }

    /// The digest index.
    pub closed spec fn index_spec(&self) -> Map<u64, u64> {
        self.index@
    }

    pub open spec fn wf(&self) -> bool {
        &&& entries_wf(self@, self.next_id_spec())
        &&& self.next_id_spec() >= 1
        &&& index_matches(self@, self.index_spec())
    }

    /// An empty history.
    pub fn new(capacity: u64) -> (r: Self)
        ensures
            r.wf(),
            r@ == Seq::<ItemModel>::empty(),
            r.capacity_spec() == capacity,
            r.next_id_spec() == 1,
    {
        let r = ClipboardHistory { entries: Vec::new(), index: HashMap::new(), capacity, next_id: 1 };
        assert(r@ =~= Seq::<ItemModel>::empty());
        r
    }

    pub fn len(&self) -> (r: usize)
        ensures
            r == self@.len(),
    {
        self.entries.len()
    }

    pub fn capacity(&self) -> (r: u64)
        ensures
            r == self.capacity_spec(),
    {
        self.capacity
    }

    pub fn next_id(&self) -> (r: u64)
        ensures
            r == self.next_id_spec(),
    {
        self.next_id
    }

    /// The entry at `index`, most recently used first.
    pub fn get(&self, index: usize) -> (r: &ClipboardItem)
        requires
            index < self@.len(),
        ensures
            r@ == self@[index as int],
    {
        &self.entries[index]
    }

    /// Changes the capacity; the next insertion evicts down to it.
    pub fn set_capacity(&mut self, capacity: u64)
        requires
            old(self).wf(),
        ensures
            final(self).wf(),
            final(self)@ == old(self)@,
            final(self).capacity_spec() == capacity,
            final(self).next_id_spec() == old(self).next_id_spec(),
    {
        self.capacity = capacity;
    }


    /// Number of unpinned entries.
    fn count_unpinned(&self) -> (r: usize)
        ensures
            r == unpinned_count(self@),
    {
        let mut i: usize = 0;
        let mut n: usize = 0;
        while i < self.entries.len()
            invariant
                i <= self@.len(),
                self@.len() == self.entries@.len(),
                n == unpinned_count(self@.take(i as int)),
                n <= i,
            decreases self.entries.len() - i,
        {
            assert(self@.take(i + 1).drop_last() =~= self@.take(i as int));
            if !self.entries[i].pinned {
                n = n + 1;
            }
            i = i + 1;
        }
        assert(self@.take(i as int) =~= self@);
        n
    }

    /// Position of the last unpinned entry.
    fn find_last_unpinned(&self) -> (r: Option<usize>)
        ensures
            r matches Some(k) ==> k == last_unpinned(self@),
            r is None ==> last_unpinned(self@) == -1,
    {
        let mut i: usize = self.entries.len();
        assert(self@.take(i as int) =~= self@);
        while i > 0
            invariant
                i <= self@.len(),
                self@.len() == self.entries@.len(),
                last_unpinned(self@) == last_unpinned(self@.take(i as int)),
            decreases i,
        {
            assert(self@.take(i as int).drop_last() =~= self@.take(i - 1));
            if !self.entries[i - 1].pinned {
                return Some(i - 1);
            }
            i = i - 1;
        }
        None
    }

    /// Evicts least recently used unpinned entries until the capacity holds.
    fn evict_to_capacity(&mut self)
        requires
            old(self).wf(),
        ensures
            final(self).wf(),
            final(self)@ == evict(old(self)@, old(self).capacity_spec()),
            final(self).capacity_spec() == old(self).capacity_spec(),
            final(self).next_id_spec() == old(self).next_id_spec(),
    {
        let ghost target = evict(self@, self.capacity as nat);
        let mut n = self.count_unpinned();
        while n as u64 > self.capacity
            invariant
                self.wf(),
                n == unpinned_count(self@),
                evict(self@, self.capacity as nat) == target,
                self.capacity == old(self).capacity,
                self.next_id == old(self).next_id,
            decreases n,
        {
            proof {
                lemma_last_unpinned(self@);
            }
            let k = match self.find_last_unpinned() {
                Some(k) => k,
                None => {
                    return ;
                },
            };
            let ghost before = self@;
            let ghost idx = self.index@;
            let removed = self.entries.remove(k);
            self.index.remove(&removed.content_hash);
            proof {
                assert(self@ =~= before.remove(k as int));
                lemma_wf_remove(before, self.next_id, k as int);
                lemma_index_remove(before, idx, k as int);
                assert(self.index@ =~= idx.remove(before[k as int].content_hash));
            }
            n = n - 1;
        }
    }

    /// Records an observation of `content` at time `now` and returns the id
    /// of the entry that holds it. Known content (by digest) moves to the
    /// front with `last_seen_at` updated; new content becomes a fresh entry
    /// at the front, after which the least recently used unpinned entries
    /// are evicted until at most `capacity` unpinned entries remain.
    pub fn insert_or_touch(&mut self, content: ClipboardContent, now: u64) -> (id: u64)
        requires
            old(self).wf(),
            old(self).next_id_spec() < u64::MAX,
        ensures
            final(self).wf(),
            final(self).capacity_spec() == old(self).capacity_spec(),
            final(self)@ == after_insert(
                old(self)@,
                old(self).next_id_spec(),
                old(self).capacity_spec(),
                content@,
                now,
            ),
            has_hash(old(self)@, content_digest(content@)) ==> final(self).next_id_spec() == old(
                self,
            ).next_id_spec(),
            forall|i: int|
                0 <= i < old(self)@.len() && old(self)@[i].content_hash == content_digest(content@)
                    ==> {
                    &&& id == old(self)@[i].id
                    &&& final(self)@ == touched(old(self)@, i, now)
                    &&& final(self).next_id_spec() == old(self).next_id_spec()
                },
            !has_hash(old(self)@, content_digest(content@)) ==> {
                &&& id == old(self).next_id_spec()
                &&& final(self).next_id_spec() == old(self).next_id_spec() + 1
                &&& final(self)@ == evict(
                    seq![fresh_item(id, content@, now)] + old(self)@,
                    old(self).capacity_spec(),
                )
            },
    {
        let h = hash_of(&content);
        let known: Option<u64> = match self.index.get(&h) {
            Some(v) => Some(*v),
            None => None,
        };
        match known {
            Some(known_id) => {
                let ghost before = self@;
                let ghost j = choose|j: int| 0 <= j < before.len() && before[j].content_hash == h;
                proof {
                    assert(has_hash(before, h));
                    assert(before[j].id == known_id);
                }
                match self.find_id(known_id) {
                    Some(i) => {
                        assert(i == j);
                        let mut item = self.entries.remove(i);
                        item.last_seen_at = now;
                        let id = item.id;
                        self.entries.insert(0, item);
                        proof {
                            assert(self@ =~= touched(before, i as int, now));
                            lemma_wf_touched(before, self.next_id, i as int, now);
                            lemma_index_touched(before, self.index@, i as int, now);
                        }
                        id
                    },
                    None => known_id,
                }
            },
            None => {
                let ghost before = self@;
                let ghost idx = self.index@;
                let ghost c = content@;
                let id = self.next_id;
                let item = ClipboardItem {
                    id,
                    content,
                    content_hash: h,
                    created_at: now,
                    last_seen_at: now,
                    pinned: false,
                };
                self.entries.insert(0, item);
                self.index.insert(h, id);
                self.next_id = id + 1;
                proof {
                    assert(!has_hash(before, h));
                    assert(self@ =~= seq![fresh_item(id, c, now)] + before);
                    lemma_wf_fresh(before, id, c, now);
                    lemma_index_fresh(before, idx, fresh_item(id, c, now));
                }
                self.evict_to_capacity();
                id
            },
        }
    }

    /// Sets the pin flag of the entry with id `id`; false when there is none.
    /// The order of the entries is kept.
    pub fn pin(&mut self, id: u64) -> (found: bool)
        requires
            old(self).wf(),
        ensures
            final(self).wf(),
            found == has_id(old(self)@, id),
            final(self)@ == with_pin(old(self)@, id, true),
            final(self).capacity_spec() == old(self).capacity_spec(),
            final(self).next_id_spec() == old(self).next_id_spec(),
    {
        self.set_pinned(id, true)
    }

    /// Clears the pin flag of the entry with id `id`; false when there is
    /// none. The order of the entries is kept.
    pub fn unpin(&mut self, id: u64) -> (found: bool)
        requires
            old(self).wf(),
        ensures
            final(self).wf(),
            found == has_id(old(self)@, id),
            final(self)@ == with_pin(old(self)@, id, false),
            final(self).capacity_spec() == old(self).capacity_spec(),
            final(self).next_id_spec() == old(self).next_id_spec(),
    {
        self.set_pinned(id, false)
    }

    fn set_pinned(&mut self, id: u64, pinned: bool) -> (found: bool)
        requires
            old(self).wf(),
        ensures
            final(self).wf(),
            found == has_id(old(self)@, id),
            final(self)@ == with_pin(old(self)@, id, pinned),
            final(self).capacity_spec() == old(self).capacity_spec(),
            final(self).next_id_spec() == old(self).next_id_spec(),
    {
        let ghost before = self@;
        match self.find_id(id) {
            Some(i) => {
                let mut item = self.entries.remove(i);
                item.pinned = pinned;
                self.entries.insert(i, item);
                proof {
                    assert forall|j: int| 0 <= j < before.len() && j != i implies before[j].id != id by {}
                    assert(self@ =~= with_pin(before, id, pinned));
                    lemma_index_same_keys(before, self@, self.index@);
                }
                true
            },
            None => {
                assert(self@ =~= with_pin(before, id, pinned));
                false
            },
        }
    }

    /// Deletes the entry with id `id`, pinned or not; false when there is
    /// none.
    pub fn remove(&mut self, id: u64) -> (found: bool)
        requires
            old(self).wf(),
        ensures
            final(self).wf(),
            found == has_id(old(self)@, id),
            final(self)@ == without_id(old(self)@, id),
            final(self).capacity_spec() == old(self).capacity_spec(),
            final(self).next_id_spec() == old(self).next_id_spec(),
    {
        let ghost before = self@;
        match self.find_id(id) {
            Some(i) => {
                let ghost idx = self.index@;
                let removed = self.entries.remove(i);
                self.index.remove(&removed.content_hash);
                proof {
                    lemma_without_id(before, id, i as int);
                    assert(self@ =~= before.remove(i as int));
                    lemma_wf_remove(before, self.next_id, i as int);
                    lemma_index_remove(before, idx, i as int);
                    assert(self.index@ =~= idx.remove(before[i as int].content_hash));
                }
                true
            },
            None => {
                proof {
                    lemma_without_absent(before, id);
                }
                false
            },
        }
    }


    /// A copy of the entries that `f` keeps, most recently used first; it
    /// shares no storage with the history.
    pub fn snapshot(&self, f: &HistoryFilter) -> (r: Vec<ClipboardItem>)
        ensures
            item_views(r@) == select(self@, *f),
    {
        let mut out: Vec<ClipboardItem> = Vec::new();
        let mut i: usize = 0;
        while i < self.entries.len()
            invariant
                i <= self@.len(),
                self@.len() == self.entries@.len(),
                item_views(out@) == select(self@.take(i as int), *f),
            decreases self.entries.len() - i,
        {
            assert(self@.take(i + 1).drop_last() =~= self@.take(i as int));
            if self.entries[i].accepted_by(f) {
                let item = self.entries[i].duplicate();
                out.push(item);
                assert(item_views(out@) =~= select(self@.take(i + 1), *f));
            }
            i = i + 1;
        }
        assert(self@.take(i as int) =~= self@);
        out
    }

    /// Deletes every unpinned entry; pinned entries stay, in order.
    pub fn clear_unpinned(&mut self)
        requires
            old(self).wf(),
        ensures
            final(self).wf(),
            final(self)@ == pinned_only(old(self)@),
            final(self).capacity_spec() == old(self).capacity_spec(),
            final(self).next_id_spec() == old(self).next_id_spec(),
    {
        let ghost orig = self@;
        let total = self.entries.len();
        assert(orig.len() == total);
        assert(orig.take(0) =~= Seq::<ItemModel>::empty());
        assert(self@ =~= pinned_only(orig.take(0)) + orig.skip(0));
        let mut i: usize = 0;
        let mut j: usize = 0;
        while i < self.entries.len()
            invariant
                self.wf(),
                j <= orig.len(),
                orig.len() <= usize::MAX,
                i == pinned_only(orig.take(j as int)).len(),
                self@.len() == self.entries@.len(),
                self@ == pinned_only(orig.take(j as int)) + orig.skip(j as int),
                self.capacity == old(self).capacity,
                self.next_id == old(self).next_id,
            decreases self.entries.len() - i,
        {
            assert(self@.len() == i + orig.skip(j as int).len());
            assert(self@[i as int] == orig[j as int]);
            assert(orig.take(j + 1).drop_last() =~= orig.take(j as int));
            if self.entries[i].pinned {
                assert(self@ =~= pinned_only(orig.take(j + 1)) + orig.skip(j + 1));
                i = i + 1;
            } else {
                let ghost before = self@;
                let ghost idx = self.index@;
                let removed = self.entries.remove(i);
                self.index.remove(&removed.content_hash);
                proof {
                    assert(self@ =~= before.remove(i as int));
                    lemma_wf_remove(before, self.next_id, i as int);
                    lemma_index_remove(before, idx, i as int);
                    assert(self.index@ =~= idx.remove(before[i as int].content_hash));
                }
                assert(self@ =~= pinned_only(orig.take(j + 1)) + orig.skip(j + 1));
            }
            j = j + 1;
        }
        assert(j == orig.len()) by {
            if j < orig.len() {
                assert(self@.len() > i);
            }
        }
        assert(orig.take(j as int) =~= orig);
        assert(self@ =~= pinned_only(orig));
    }


    /// A history rebuilt from saved records, in their order, keeping the
    /// first record of each content digest; new ids continue above the
    /// rebuilt ones.
    pub fn from_records(records: &Vec<PersistedItem>, capacity: u64) -> (r: Self)
        requires
            records@.len() < u64::MAX,
        ensures
            r.wf(),
            r@ == rebuilt(dedup_records(record_views(records@))),
            r.capacity_spec() == capacity,
            r.next_id_spec() == r@.len() + 1,
    {
        let ghost rv = record_views(records@);
        let mut keep: Vec<usize> = Vec::new();
        let mut seen: Vec<u64> = Vec::new();
        let mut i: usize = 0;
        while i < records.len()
            invariant
                i <= records@.len(),
                rv == record_views(records@),
                keep@.len() == seen@.len(),
                keep@.len() == dedup_records(rv.take(i as int)).len(),
                keep@.len() <= i,
                forall|t: int|
                    0 <= t < keep@.len() ==> #[trigger] keep@[t] < i && dedup_records(
                        rv.take(i as int),
                    )[t] == rv[keep@[t] as int],
                forall|t: int|
                    0 <= t < seen@.len() ==> #[trigger] seen@[t] == content_digest(
                        dedup_records(rv.take(i as int))[t].content,
                    ),
                forall|a: int, b: int|
                    0 <= a < seen@.len() && 0 <= b < seen@.len() && a != b ==> seen@[a] != seen@[b],
            decreases records.len() - i,
        {
            let ghost d = dedup_records(rv.take(i as int));
            assert(rv.take(i + 1).drop_last() =~= rv.take(i as int));
            assert(rv.take(i + 1).last() == records@[i as int]@);
            let h = hash_of(&records[i].content);
            let mut k: usize = 0;
            let mut found = false;
            while k < seen.len()
                invariant
                    k <= seen@.len(),
                    !found ==> forall|t: int| 0 <= t < k ==> seen@[t] != h,
                    found ==> digest_in(d, h),
                    seen@.len() == d.len(),
                    forall|t: int| 0 <= t < seen@.len() ==> #[trigger] seen@[t] == content_digest(d[t].content),
                decreases seen.len() - k,
            {
                if seen[k] == h {
                    assert(content_digest(d[k as int].content) == h);
                    found = true;
                }
                k = k + 1;
            }
            if !found {
                assert(!digest_in(d, h)) by {
                    if digest_in(d, h) {
                        let j = choose|j: int| 0 <= j < d.len() && content_digest(#[trigger] d[j].content) == h;
                        assert(seen@[j] == h);
                    }
                }
                keep.push(i);
                seen.push(h);
            }
            i = i + 1;
        }
        assert(rv.take(i as int) =~= rv);
        let ghost d = dedup_records(rv);
        let n = keep.len();
        let mut entries: Vec<ClipboardItem> = Vec::new();
        let mut index: HashMap<u64, u64> = HashMap::new();
        let mut t: usize = 0;
        assert(rebuilt(d).take(0) =~= Seq::<ItemModel>::empty());
        while t < n
            invariant
                n == keep@.len(),
                n == d.len(),
                n < u64::MAX,
                t <= n,
                rv == record_views(records@),
                forall|q: int| 0 <= q < n ==> #[trigger] keep@[q] < records@.len() && d[q] == rv[keep@[q] as int],
                forall|q: int| 0 <= q < n ==> #[trigger] seen@[q] == content_digest(d[q].content),
                seen@.len() == n,
                entries@.len() == t,
                item_views(entries@) == rebuilt(d).take(t as int),
                index_matches(rebuilt(d).take(t as int), index@),
                forall|a: int, b: int|
                    0 <= a < seen@.len() && 0 <= b < seen@.len() && a != b ==> seen@[a] != seen@[b],
            decreases n - t,
        {
            let r = &records[keep[t]];
            let item = ClipboardItem {
                id: (n - t) as u64,
                content: r.content.duplicate(),
                content_hash: seen[t],
                created_at: r.created_at,
                last_seen_at: r.last_seen_at,
                pinned: r.pinned,
            };
            assert(rv[keep@[t as int] as int] == r@);
            assert(item@ == rebuilt(d)[t as int]);
            let ghost before = entries@;
            let ghost idx = index@;
            proof {
                let pre = rebuilt(d).take(t as int);
                assert(!has_hash(pre, seen@[t as int])) by {
                    if has_hash(pre, seen@[t as int]) {
                        let q = choose|q: int| 0 <= q < pre.len() && pre[q].content_hash == seen@[t as int];
                        assert(pre[q].content_hash == seen@[q]);
                    }
                }
                lemma_index_fresh(pre, idx, item@);
                assert(pre.push(item@) =~= rebuilt(d).take(t + 1));
            }
            index.insert(seen[t], (n - t) as u64);
            entries.push(item);
            assert forall|q: int| 0 <= q < t implies item_views(entries@)[q] == item_views(before)[q] by {
                assert(entries@[q] == before[q]);
            }
            assert(item_views(entries@) =~= rebuilt(d).take(t + 1));
            t = t + 1;
        }
        assert(rebuilt(d).take(n as int) =~= rebuilt(d));
        let out = ClipboardHistory { entries, index, capacity, next_id: n as u64 + 1 };
        assert(out@ == rebuilt(d));
        assert(entries_wf(out@, out.next_id)) by {
            assert forall|a: int, b: int| 0 <= a < out@.len() && 0 <= b < out@.len() && a != b implies out@[a].content_hash
                != out@[b].content_hash by {
                assert(out@[a].content_hash == seen@[a]);
                assert(out@[b].content_hash == seen@[b]);
            }
        }
        out
    }

    /// The position of the entry with id `id`.
    fn find_id(&self, id: u64) -> (r: Option<usize>)
        ensures
            r matches Some(i) ==> i < self@.len() && self@[i as int].id == id,
            r is None ==> !has_id(self@, id),
    {
        let mut i: usize = 0;
        while i < self.entries.len()
            invariant
                i <= self@.len(),
                self@.len() == self.entries@.len(),
                forall|k: int| 0 <= k < i ==> self@[k].id != id,
            decreases self.entries.len() - i,
        {
            if self.entries[i].id == id {
                return Some(i);
            }
            i = i + 1;
        }
        None
    }
}

} // verus!

verus! {

proof fn lemma_concat(a: Seq<ItemModel>, b: Seq<ItemModel>)
    ensures
        unpinned_count(a + b) == unpinned_count(a) + unpinned_count(b),
        pinned_only(a + b) == pinned_only(a) + pinned_only(b),
    decreases b.len(),
{
    if b.len() == 0 {
        assert(a + b =~= a);
        assert(pinned_only(a) + pinned_only(b) =~= pinned_only(a));
    } else {
        lemma_concat(a, b.drop_last());
        assert((a + b).drop_last() =~= a + b.drop_last());
        assert((a + b).last() == b.last());
        if b.last().pinned {
            assert(pinned_only(a) + pinned_only(b.drop_last()).push(b.last()) =~= (pinned_only(a)
                + pinned_only(b.drop_last())).push(b.last()));
        }
    }
}

proof fn lemma_pinned_split(s: Seq<ItemModel>)
    ensures
        unpinned_count(s) + pinned_only(s).len() == s.len(),
    decreases s.len(),
{
    if s.len() > 0 {
        lemma_pinned_split(s.drop_last());
    }
}

proof fn lemma_touched_counts(s: Seq<ItemModel>, i: int, now: u64)
    requires
        0 <= i < s.len(),
    ensures
        unpinned_count(touched(s, i, now)) == unpinned_count(s),
        touched(s, i, now).len() == s.len(),
{
    let x = seq![ItemModel { last_seen_at: now, ..s[i] }];
    let y = seq![s[i]];
    let pre = s.take(i);
    let post = s.skip(i + 1);
    assert(s =~= pre + y + post);
    assert(s.remove(i) =~= pre + post);
    lemma_concat(pre, post);
    lemma_concat(pre + y, post);
    lemma_concat(pre, y);
    lemma_concat(x, s.remove(i));
    assert(x.drop_last() =~= Seq::<ItemModel>::empty());
    assert(y.drop_last() =~= Seq::<ItemModel>::empty());
}

/// Deduplication: inserting content into a well-formed history, whether it
/// is new or already held, leaves no two entries with one content digest.
pub proof fn lemma_insert_keeps_digests_unique(
    s: Seq<ItemModel>,
    next: u64,
    c: ContentModel,
    now: u64,
    cap: nat,
)
    requires
        entries_wf(s, next),
        1 <= next < u64::MAX,
    ensures
        !has_hash(s, content_digest(c)) ==> hashes_unique(
            evict(seq![fresh_item(next, c, now)] + s, cap),
        ),
        forall|i: int|
            0 <= i < s.len() && s[i].content_hash == content_digest(c) ==> hashes_unique(
                #[trigger] touched(s, i, now),
            ),
{
    if !has_hash(s, content_digest(c)) {
        lemma_wf_fresh(s, next, c, now);
        lemma_evict(seq![fresh_item(next, c, now)] + s, cap, (next + 1) as u64);
    }
    assert forall|i: int|
        0 <= i < s.len() && s[i].content_hash == content_digest(c) implies hashes_unique(
            #[trigger] touched(s, i, now),
        ) by {
        lemma_wf_touched(s, next, i, now);
    }
}

/// Capacity: after inserting new content, the entries that are not pinned
/// (all entries less the pinned ones) number at most the capacity; touching
/// known content keeps that count, so the bound still holds if it held.
pub proof fn lemma_capacity_after_insert(
    s: Seq<ItemModel>,
    next: u64,
    c: ContentModel,
    now: u64,
    cap: nat,
)
    requires
        entries_wf(s, next),
        1 <= next < u64::MAX,
    ensures
        !has_hash(s, content_digest(c)) ==> {
            let t = evict(seq![fresh_item(next, c, now)] + s, cap);
            t.len() - pinned_only(t).len() <= cap
        },
        forall|i: int|
            0 <= i < s.len() && s[i].content_hash == content_digest(c) && s.len() - pinned_only(
                s,
            ).len() <= cap ==> {
                let t = #[trigger] touched(s, i, now);
                t.len() - pinned_only(t).len() <= cap
            },
{
    if !has_hash(s, content_digest(c)) {
        let t = evict(seq![fresh_item(next, c, now)] + s, cap);
        lemma_wf_fresh(s, next, c, now);
        lemma_evict(seq![fresh_item(next, c, now)] + s, cap, (next + 1) as u64);
        lemma_pinned_split(t);
    }
    assert forall|i: int|
        0 <= i < s.len() && s[i].content_hash == content_digest(c) && s.len() - pinned_only(
            s,
        ).len() <= cap implies {
        let t = #[trigger] touched(s, i, now);
        t.len() - pinned_only(t).len() <= cap
    } by {
        lemma_touched_counts(s, i, now);
        lemma_pinned_split(s);
        lemma_pinned_split(touched(s, i, now));
    }
}

/// Touching the front entry again keeps the number of entries and changes
/// nothing but that entry's `last_seen_at`.
pub proof fn lemma_touch_front(s: Seq<ItemModel>, now: u64)
    requires
        s.len() > 0,
    ensures
        touched(s, 0, now).len() == s.len(),
        touched(s, 0, now) == s.update(0, ItemModel { last_seen_at: now, ..s[0] }),
{
    assert(touched(s, 0, now) =~= s.update(0, ItemModel { last_seen_at: now, ..s[0] }));
}

/// Pinned entries survive insertion: inserting new content keeps the pinned
/// entries exactly, in order, and touching known content keeps every pinned
/// entry's id present and pinned.
pub proof fn lemma_insert_keeps_pinned(
    s: Seq<ItemModel>,
    next: u64,
    c: ContentModel,
    now: u64,
    cap: nat,
)
    requires
        entries_wf(s, next),
        1 <= next < u64::MAX,
    ensures
        !has_hash(s, content_digest(c)) ==> pinned_only(
            evict(seq![fresh_item(next, c, now)] + s, cap),
        ) == pinned_only(s),
        forall|i: int, j: int|
            #![trigger touched(s, i, now), s[j]]
            0 <= i < s.len() && 0 <= j < s.len() && s[i].content_hash == content_digest(c)
                && s[j].pinned ==> holds_pinned(touched(s, i, now), s[j].id),
{
    if !has_hash(s, content_digest(c)) {
        let f = seq![fresh_item(next, c, now)];
        lemma_wf_fresh(s, next, c, now);
        lemma_evict(f + s, cap, (next + 1) as u64);
        lemma_concat(f, s);
        assert(f.drop_last() =~= Seq::<ItemModel>::empty());
        assert(pinned_only(f.drop_last()) =~= Seq::<ItemModel>::empty());
        assert(!f.last().pinned);
        assert(pinned_only(f) =~= Seq::<ItemModel>::empty());
        assert(pinned_only(f) + pinned_only(s) =~= pinned_only(s));
    }
    assert forall|i: int, j: int|
        #![trigger touched(s, i, now), s[j]]
        0 <= i < s.len() && 0 <= j < s.len() && s[i].content_hash == content_digest(c)
            && s[j].pinned implies holds_pinned(touched(s, i, now), s[j].id) by {
        let t = touched(s, i, now);
        let k = if j == i { 0 } else if j < i { j + 1 } else { j };
        assert(t.len() == s.len());
        if j != i {
            assert(t[k] == s.remove(i)[k - 1]);
            assert(s.remove(i)[k - 1] == s[j]);
        }
        assert(t[k].id == s[j].id && t[k].pinned);
    }
}

} // verus!

//! The bounded, deduplicating, most-recently-used history of text snippets.
//!
//! The store keeps at most `max_size` entries, ordered by recency of last
//! push (index 0 is the most recent), with at most one entry per distinct
//! content and with ids assigned from a strictly increasing counter.

use vstd::prelude::*;

verus! {

/// Mathematical model of a single history entry.
pub ghost struct EntryModel {
    pub id: int,
    pub content: Seq<char>,
    pub created_at: int,
}

/// Mathematical model of the whole store.
pub ghost struct HistoryModel {
    pub entries: Seq<EntryModel>,
    pub max_size: int,
    pub next_id: int,
}

/// One retained clipboard snippet. `created_at` is a timestamp in
/// milliseconds since the Unix epoch; it is refreshed when the same content
/// is pushed again, while `id` never changes once assigned.
pub struct ClipboardEntry {
    pub id: u64,
    pub content: String,
    pub created_at: i64,
}

impl View for ClipboardEntry {
    type V = EntryModel;

    open spec fn view(&self) -> EntryModel {
        EntryModel {
            id: self.id as int,
            content: self.content@,
            created_at: self.created_at as int,
        }
    }
}

impl Clone for ClipboardEntry {
    fn clone(&self) -> (r: Self)
        ensures
            r@ == self@,
    {
        ClipboardEntry {
            id: self.id,
            content: self.content.clone(),
            created_at: self.created_at,
        }
    }
}

/// Model of a sequence of entries.
pub open spec fn entries_model(s: Seq<ClipboardEntry>) -> Seq<EntryModel> {
    s.map_values(|e: ClipboardEntry| e@)
}

impl HistoryModel {
    /// Well-formedness of a store: bounded, contents non-empty and pairwise
    /// distinct, ids pairwise distinct and below the id counter.
    pub open spec fn wf(self) -> bool {
        &&& 0 <= self.max_size
        &&& 0 <= self.next_id
        &&& self.entries.len() <= self.max_size
        &&& forall|i: int|
            0 <= i < self.entries.len() ==> (#[trigger] self.entries[i]).content.len() > 0
        &&& forall|i: int, j: int|
            0 <= i < j < self.entries.len() ==> (#[trigger] self.entries[i]).content != (
            #[trigger] self.entries[j]).content
        &&& forall|i: int|
            0 <= i < self.entries.len() ==> (#[trigger] self.entries[i]).id < self.next_id
        &&& forall|i: int, j: int|
            0 <= i < j < self.entries.len() ==> (#[trigger] self.entries[i]).id != (
            #[trigger] self.entries[j]).id
    }

    /// The empty store with the given bound, as a model.
    pub open spec fn empty(max_size: int) -> HistoryModel {
        HistoryModel { entries: Seq::empty(), max_size: max_size, next_id: 1 }
    }
}

/// Index of the first entry whose content equals `c`, or -1 if none has it.
pub open spec fn index_of_content(s: Seq<EntryModel>, c: Seq<char>) -> int
    decreases s.len(),
{
    if s.len() == 0 {
        -1
    } else if s[0].content == c {
        0
    } else {
        let r = index_of_content(s.drop_first(), c);
        if r == -1 {
            -1
        } else {
            r + 1
        }
    }
}

/// Whether a push of `c` changes the store: the content is non-empty and is
/// not already the most recent entry.
pub open spec fn push_changes(m: HistoryModel, c: Seq<char>) -> bool {
    c.len() > 0 && !(m.entries.len() > 0 && m.entries[0].content == c)
}

/// Whether a push of `c` creates a new entry (rather than moving an
/// existing one to the front or doing nothing).
pub open spec fn push_creates(m: HistoryModel, c: Seq<char>) -> bool {
    push_changes(m, c) && index_of_content(m.entries, c) == -1
}

/// What a push of content `c` at time `now` does to the store:
/// - empty content, or content equal to the most recent entry: no change;
/// - content present at some position `p`: that entry moves to the front
///   with its timestamp refreshed and its id kept;
/// - otherwise a fresh entry is put at the front with id `next_id`, and the
///   oldest entries are dropped until at most `max_size` remain.
pub open spec fn spec_push(m: HistoryModel, c: Seq<char>, now: int) -> HistoryModel {
    if !push_changes(m, c) {
        m
    } else {
        let p = index_of_content(m.entries, c);
        if p >= 0 {
            let moved = EntryModel { id: m.entries[p].id, content: c, created_at: now };
            HistoryModel {
                entries: seq![moved] + m.entries.subrange(0, p) + m.entries.subrange(
                    p + 1,
                    m.entries.len() as int,
                ),
                max_size: m.max_size,
                next_id: m.next_id,
            }
        } else {
            let fresh = EntryModel { id: m.next_id, content: c, created_at: now };
            let extended = seq![fresh] + m.entries;
            let kept = if extended.len() <= m.max_size {
                extended.len() as int
            } else {
                m.max_size
            };
            HistoryModel {
                entries: extended.subrange(0, kept),
                max_size: m.max_size,
                next_id: m.next_id + 1,
            }
        }
    }
}

/// The bounded, deduplicating, most-recently-used store itself.
pub struct History {
    entries: Vec<ClipboardEntry>,
    max_size: usize,
    next_id: u64,
}

impl View for History {
    type V = HistoryModel;

    closed spec fn view(&self) -> HistoryModel {
        HistoryModel {
            entries: entries_model(self.entries@),
            max_size: self.max_size as int,
            next_id: self.next_id as int,
        }
    }
}

/// If `s[i]` has content `c` and nothing before it does, then `i` is the
/// first index of `c`.
proof fn lemma_index_of_content_found(s: Seq<EntryModel>, c: Seq<char>, i: int)
    requires
        0 <= i < s.len(),
        s[i].content == c,
        forall|j: int| 0 <= j < i ==> (#[trigger] s[j]).content != c,
    ensures
        index_of_content(s, c) == i,
    decreases s.len(),
{
    if i == 0 {
    } else {
        let t = s.drop_first();
        assert(s[0].content != c);
        assert(t[i - 1] == s[i]);
        assert forall|j: int| 0 <= j < i - 1 implies (#[trigger] t[j]).content != c by {
            assert(t[j] == s[j + 1]);
        }
        lemma_index_of_content_found(t, c, i - 1);
    }
}

/// If no entry has content `c`, the first index of `c` is -1.
proof fn lemma_index_of_content_absent(s: Seq<EntryModel>, c: Seq<char>)
    requires
        forall|j: int| 0 <= j < s.len() ==> (#[trigger] s[j]).content != c,
    ensures
        index_of_content(s, c) == -1,
    decreases s.len(),
{
    if s.len() > 0 {
        let t = s.drop_first();
        assert forall|j: int| 0 <= j < t.len() implies (#[trigger] t[j]).content != c by {
            assert(t[j] == s[j + 1]);
        }
        lemma_index_of_content_absent(t, c);
    }
}

/// A push keeps the store well formed.
pub proof fn lemma_push_preserves_wf(m: HistoryModel, c: Seq<char>, now: int)
    requires
        m.wf(),
    ensures
        spec_push(m, c, now).wf(),
{
    if push_changes(m, c) {
        let p = index_of_content(m.entries, c);
        lemma_index_of_content_props(m.entries, c);
        if p >= 0 {
            let m2 = spec_push(m, c, now);
            assert forall|i: int, j: int| 0 <= i < j < m2.entries.len() implies (
            #[trigger] m2.entries[i]).content != (#[trigger] m2.entries[j]).content by {
                lemma_moved_entry_origin(m, c, now, i);
                lemma_moved_entry_origin(m, c, now, j);
            }
            assert forall|i: int, j: int| 0 <= i < j < m2.entries.len() implies (
            #[trigger] m2.entries[i]).id != (#[trigger] m2.entries[j]).id by {
                lemma_moved_entry_origin(m, c, now, i);
                lemma_moved_entry_origin(m, c, now, j);
            }
            assert forall|i: int| 0 <= i < m2.entries.len() implies (
            #[trigger] m2.entries[i]).content.len() > 0 by {
                lemma_moved_entry_origin(m, c, now, i);
            }
            assert forall|i: int| 0 <= i < m2.entries.len() implies (
            #[trigger] m2.entries[i]).id < m2.next_id by {
                lemma_moved_entry_origin(m, c, now, i);
            }
        }
    }
}

/// Every entry of a move-to-front result is either the moved entry (at the
/// front) or an entry of the prior store away from the moved position.
proof fn lemma_moved_entry_origin(m: HistoryModel, c: Seq<char>, now: int, i: int)
    requires
        m.wf(),
        push_changes(m, c),
        index_of_content(m.entries, c) >= 0,
        0 <= i < spec_push(m, c, now).entries.len(),
    ensures
        ({
            let p = index_of_content(m.entries, c);
            let e = spec_push(m, c, now).entries[i];
            if i == 0 {
                e.id == m.entries[p].id && e.content == c
            } else {
                exists|j: int|
                    0 <= j < m.entries.len() && j != p && #[trigger] m.entries[j] == e && (i - 1
                        <= j <= i)
            }
        }),
{
    let p = index_of_content(m.entries, c);
    lemma_index_of_content_props(m.entries, c);
    let m2 = spec_push(m, c, now);
    let e = m2.entries[i];
    if i > 0 {
        if i - 1 < p {
            assert(m2.entries[i] == m.entries.subrange(0, p)[i - 1]);
            assert(m.entries[i - 1] == e && i - 1 != p);
        } else {
            assert(m2.entries[i] == m.entries.subrange(p + 1, m.entries.len() as int)[i - 1 - p]);
            assert(m.entries[i] == e && i != p);
        }
    }
}

/// Where the first index of `c` points: at an entry with content `c`, with
/// nothing before it matching; or nowhere, and then nothing matches at all.
pub proof fn lemma_index_of_content_props(s: Seq<EntryModel>, c: Seq<char>)
    ensures
        index_of_content(s, c) == -1 ==> forall|j: int|
            0 <= j < s.len() ==> (#[trigger] s[j]).content != c,
        index_of_content(s, c) != -1 ==> {
            let p = index_of_content(s, c);
            &&& 0 <= p < s.len()
            &&& s[p].content == c
            &&& forall|j: int| 0 <= j < p ==> (#[trigger] s[j]).content != c
        },
    decreases s.len(),
{
    if s.len() > 0 && s[0].content != c {
        let t = s.drop_first();
        lemma_index_of_content_props(t, c);
        let rt = index_of_content(t, c);
        if rt == -1 {
            assert forall|j: int| 0 <= j < s.len() implies (#[trigger] s[j]).content != c by {
                if j > 0 {
                    assert(t[j - 1] == s[j]);
                }
            }
        } else {
            assert(s[rt + 1] == t[rt]);
            assert forall|j: int| 0 <= j < rt + 1 implies (#[trigger] s[j]).content != c by {
                if j > 0 {
                    assert(t[j - 1] == s[j]);
                }
            }
        }
    }
}

/// Dedup-adjacent law: once a content has been pushed, pushing the same
/// content again changes nothing — neither the entries nor the id counter —
/// and reports no change. (This needs a store that can retain at least one
/// entry; with `max_size == 0` every pushed entry is evicted at once.)
pub proof fn lemma_dedup_adjacent(m: HistoryModel, c: Seq<char>, t1: int, t2: int)
    requires
        m.wf(),
        m.max_size >= 1,
    ensures
        ({
            let m1 = spec_push(m, c, t1);
            &&& !push_changes(m1, c)
            &&& spec_push(m1, c, t2) == m1
        }),
{
    let m1 = spec_push(m, c, t1);
    if c.len() == 0 {
    } else if push_changes(m, c) {
        lemma_index_of_content_props(m.entries, c);
        assert(m1.entries.len() > 0 && m1.entries[0].content == c);
    } else {
        assert(m.entries.len() > 0 && m.entries[0].content == c);
    }
}

/// Id-monotonicity law: a push that creates a new entry assigns it the id
/// `next_id`, which is strictly greater than the id of every entry already
/// present, and leaves the counter strictly increased. Hence, over any
/// sequence of pushes, newly created entries receive pairwise distinct,
/// strictly increasing ids, and an id is never reused.
pub proof fn lemma_id_monotonicity(m: HistoryModel, c: Seq<char>, now: int)
    requires
        m.wf(),
        push_creates(m, c),
    ensures
        ({
            let m2 = spec_push(m, c, now);
            &&& m2.wf()
            &&& m2.next_id == m.next_id + 1
            &&& m2.entries.len() > 0 ==> m2.entries[0].id == m.next_id
            &&& forall|i: int|
                0 <= i < m.entries.len() ==> (#[trigger] m.entries[i]).id < m.next_id
        }),
{
    lemma_push_preserves_wf(m, c, now);
    let m2 = spec_push(m, c, now);
    if m2.entries.len() > 0 {
        let fresh = EntryModel { id: m.next_id, content: c, created_at: now };
        assert(m2.entries[0] == (seq![fresh] + m.entries)[0]);
    }
}

/// Across two pushes that each create a new entry, the id assigned second
/// is strictly greater than the id assigned first; with
/// `lemma_id_monotonicity` applied along any sequence of pushes, the
/// created ids are pairwise distinct and strictly increasing in creation
/// order.
pub proof fn lemma_ids_increase_across_pushes(
    m: HistoryModel,
    c1: Seq<char>,
    t1: int,
    c2: Seq<char>,
    t2: int,
)
    requires
        m.wf(),
        push_creates(m, c1),
        push_creates(spec_push(m, c1, t1), c2),
    ensures
        spec_push(m, c1, t1).next_id > m.next_id,
        spec_push(spec_push(m, c1, t1), c2, t2).next_id > spec_push(m, c1, t1).next_id,
{
    lemma_id_monotonicity(m, c1, t1);
    lemma_id_monotonicity(spec_push(m, c1, t1), c2, t2);
}

impl History {
    /// A fresh, empty store that will retain at most `max_size` entries.
    pub fn new(max_size: usize) -> (h: Self)
        ensures
            h@ == HistoryModel::empty(max_size as int),
            h@.wf(),
    {
        let h = History { entries: Vec::new(), max_size, next_id: 1 };
        proof {
            assert(entries_model(h.entries@) =~= Seq::<EntryModel>::empty());
        }
        h
    }

    /// Whether the store is well formed; established by the constructors
    /// and preserved by every mutation.
    pub open spec fn wf(&self) -> bool {
        self@.wf()
    }

    /// The id the next newly created entry will receive.
    pub fn next_id(&self) -> (r: u64)
        ensures
            r as int == self@.next_id,
    {
        self.next_id
    }

    /// The configured bound on the number of retained entries.
    pub fn max_size(&self) -> (r: usize)
        ensures
            r as int == self@.max_size,
    {
        self.max_size
    }

    /// The retained entries, most recent first.
    pub fn entries(&self) -> (r: &Vec<ClipboardEntry>)
        ensures
            entries_model(r@) == self@.entries,
    {
        &self.entries
    }

    /// Push `content` observed at time `now` (milliseconds): dedup against
    /// the most recent entry, move an existing duplicate to the front, or
    /// create a fresh entry and evict the oldest beyond the bound.
    /// Returns whether the store changed.
    pub fn push_at(&mut self, content: String, now: i64) -> (changed: bool)
        requires
            old(self).wf(),
            old(self)@.next_id < u64::MAX,
        ensures
            final(self).wf(),
            changed == push_changes(old(self)@, content@),
            final(self)@ == spec_push(old(self)@, content@, now as int),
    {
        proof {
            lemma_push_preserves_wf(old(self)@, content@, now as int);
        }
        if content.as_str().is_empty() {
            assert(self@ =~= spec_push(old(self)@, content@, now as int));
            return false;
        }
        if self.entries.len() > 0 && self.entries[0].content == content {
            assert(self@ =~= spec_push(old(self)@, content@, now as int));
            return false;
        }

        // Scan for an entry with the same content.
        let ghost gm = self@;
        let mut i: usize = 0;
        let n = self.entries.len();
        while i < n
            invariant
                n == self.entries.len(),
                0 <= i <= n,
                self == old(self),
                gm == self@,
                gm.wf(),
                gm.next_id < u64::MAX,
                content@.len() > 0,
                n > 0 ==> gm.entries[0].content != content@,
                forall|j: int| 0 <= j < i ==> (#[trigger] gm.entries[j]).content != content@,
            decreases n - i,
        {
            if self.entries[i].content == content {
                proof {
                    lemma_index_of_content_found(gm.entries, content@, i as int);
                }
                // Move the existing entry to the front with a fresh timestamp.
                let mut entry = self.entries.remove(i);
                entry.created_at = now;
                self.entries.insert(0, entry);
                proof {
                    let p = i as int;
                    lemma_push_preserves_wf(gm, content@, now as int);
                    assert(push_changes(gm, content@));
                    let m2 = spec_push(gm, content@, now as int);
                    let moved = EntryModel {
                        id: gm.entries[p].id,
                        content: content@,
                        created_at: now as int,
                    };
                    let front = seq![moved] + gm.entries.subrange(0, p);
                    let merged = front + gm.entries.subrange(p + 1, gm.entries.len() as int);
                    assert(m2.entries == merged);
                    let cur = entries_model(self.entries@);
                    assert(cur.len() == merged.len());
                    assert forall|k: int| 0 <= k < cur.len() implies cur[k] == merged[k] by {
                        assert(cur[k] == self.entries@[k]@);
                        if k == 0 {
                            assert(self.entries@[0] == entry);
                            assert(gm.entries[p] == old(self).entries@[p]@);
                            assert(merged[0] == moved);
                        } else if k <= p {
                            assert(self.entries@[k] == old(self).entries@[k - 1]);
                            assert(merged[k] == front[k]);
                            assert(front[k] == gm.entries.subrange(0, p)[k - 1]);
                            assert(gm.entries[k - 1] == old(self).entries@[k - 1]@);
                        } else {
                            assert(self.entries@[k] == old(self).entries@[k]);
                            assert(merged[k] == gm.entries.subrange(
                                p + 1,
                                gm.entries.len() as int,
                            )[k - 1 - p]);
                            assert(gm.entries[k] == old(self).entries@[k]@);
                        }
                    }
                    assert(cur =~= m2.entries);
                }
                return true;
            }
            i += 1;
        }
        proof {
            lemma_index_of_content_absent(gm.entries, content@);
        }

        // Create a fresh entry at the front.
        let entry = ClipboardEntry { id: self.next_id, content, created_at: now };
        self.next_id = self.next_id + 1;
        self.entries.insert(0, entry);
        let ghost inserted = self.entries@;
        if self.entries.len() > self.max_size {
            self.entries.truncate(self.max_size);
        }
        proof {
            let m2 = spec_push(gm, content@, now as int);
            let fresh = EntryModel { id: gm.next_id, content: entry.content@, created_at: now as int };
            let extended = seq![fresh] + gm.entries;
            let cur = entries_model(self.entries@);
            assert(cur.len() == m2.entries.len());
            assert forall|k: int| 0 <= k < cur.len() implies cur[k] == m2.entries[k] by {
                assert(cur[k] == self.entries@[k]@);
                assert(self.entries@[k] == inserted[k]);
                if k == 0 {
                    assert(inserted[0] == entry);
                } else {
                    assert(inserted[k] == old(self).entries@[k - 1]);
                    assert(extended[k] == gm.entries[k - 1]);
                }
            }
            assert(cur =~= m2.entries);
        }
        true
    }

    /// Push `content` stamped with the current wall-clock time.
    pub fn push(&mut self, content: String) -> (changed: bool)
        requires
            old(self).wf(),
            old(self)@.next_id < u64::MAX,
        ensures
            final(self).wf(),
            changed == push_changes(old(self)@, content@),
            exists|t: int| final(self)@ == #[trigger] spec_push(old(self)@, content@, t),
    {
        let now = now_millis();
        let changed = self.push_at(content, now);
        proof {
            assert(self@ == spec_push(old(self)@, content@, now as int));
        }
        changed
    }

    /// Assemble a store from decoded parts (used by the persistence codec).
    pub(crate) fn from_parts(entries: Vec<ClipboardEntry>, max_size: usize, next_id: u64) -> (h:
        History)
        ensures
            h@ == (HistoryModel {
                entries: entries_model(entries@),
                max_size: max_size as int,
                next_id: next_id as int,
            }),
    {
        History { entries, max_size, next_id }
    }

    /// The first entry carrying the given id, if any is retained.
    pub fn get_by_id(&self, id: u64) -> (r: Option<&ClipboardEntry>)
        ensures
            match r {
                Some(e) => exists|i: int|
                    0 <= i < self@.entries.len() && #[trigger] self@.entries[i] == e@ && e.id == id
                        && forall|j: int| 0 <= j < i ==> (#[trigger] self@.entries[j]).id != id,
                None => forall|i: int|
                    0 <= i < self@.entries.len() ==> (#[trigger] self@.entries[i]).id != id,
            },
    {
        let mut i: usize = 0;
        let n = self.entries.len();
        while i < n
            invariant
                n == self.entries.len(),
                0 <= i <= n,
                forall|j: int| 0 <= j < i ==> (#[trigger] self@.entries[j]).id != id,
            decreases n - i,
        {
            if self.entries[i].id == id {
                proof {
                    assert(self@.entries[i as int] == self.entries@[i as int]@);
                }
                return Some(&self.entries[i]);
            }
            i += 1;
        }
        None
    }
}

/// Relies on `chrono::Utc::now` (read through `timestamp_millis`): the
/// current wall-clock time, in milliseconds since the Unix epoch. The value
/// depends on the clock, so nothing is promised of it.
#[verifier::external_body]
pub(crate) fn now_millis() -> i64 {
    chrono::Utc::now().timestamp_millis()
}

} // verus!

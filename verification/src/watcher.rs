use vstd::prelude::*;

use crate::error::StreamError;
use crate::index::{upsert_files, upsert_hashes, FileIndex};
use crate::text::hex_of;
use crate::types::{FileMetadata, MediaHash, MetaView};

verus! {

use vstd::utf8::{decode_utf8, encode_utf8};
use vstd::string::StrSliceExecFns;
use vstd::string::StringExecFns;

// ============================================================
// The debounced watcher core
//
// Raw filesystem notifications become debounced, hashed index
// updates. A pending map tracks one deadline per path; every
// create or modify event resets that path's deadline, a delete
// cancels it and clears the index at once, and each tick flushes
// every path whose quiet period has elapsed. The queue below is
// that pending map; the event loop, the ticker and the file I/O
// around it are the caller's.
// ============================================================

/// The debounce window: a path is processed this many
/// milliseconds after its last create or modify event.
pub const DEBOUNCE_MS: u64 = 500;

/// The kinds of filesystem notification the watcher reacts to.
pub enum WatchEventKind {
    Created,
    Modified,
    Removed,
    Other,
}

/// The pending map: for each scheduled path, the instant
/// (milliseconds) at which it falls due.
pub struct DebounceQueue {
    entries: Vec<(String, u64)>,
}

/// The map denoted by an entry list (last entry wins).
pub open spec fn pending_map(entries: Seq<(String, u64)>) -> Map<Seq<char>, u64>
    decreases entries.len(),
{
    if entries.len() == 0 {
        Map::empty()
    } else {
        pending_map(entries.drop_last()).insert(entries.last().0@, entries.last().1)
    }
}

/// No path occurs twice.
pub open spec fn distinct_keys(entries: Seq<(String, u64)>) -> bool {
    forall|i: int, j: int|
        0 <= i < j < entries.len() ==> (#[trigger] entries[i]).0@ != (#[trigger] entries[j]).0@
}

/// With distinct paths, the map holds exactly the entries.
proof fn lemma_pending_map_char(entries: Seq<(String, u64)>)
    requires
        distinct_keys(entries),
    ensures
        forall|k: Seq<char>|
            #[trigger] pending_map(entries).contains_key(k) <==> exists|i: int|
                0 <= i < entries.len() && (#[trigger] entries[i]).0@ == k,
        forall|i: int|
            0 <= i < entries.len() ==> pending_map(entries)[(#[trigger] entries[i]).0@]
                == entries[i].1,
    decreases entries.len(),
{
    if entries.len() > 0 {
        let d = entries.drop_last();
        assert(forall|i: int| 0 <= i < d.len() ==> d[i] == entries[i]);
        assert(distinct_keys(d));
        lemma_pending_map_char(d);
        let last = entries.last();
        assert forall|k: Seq<char>| #[trigger] pending_map(entries).contains_key(k) implies exists|
            i: int,
        | 0 <= i < entries.len() && (#[trigger] entries[i]).0@ == k by {
            if k == last.0@ {
                assert((entries[entries.len() - 1]).0@ == k);
            } else {
                assert(pending_map(d).contains_key(k));
                let i = choose|i: int| 0 <= i < d.len() && (#[trigger] d[i]).0@ == k;
                assert((entries[i]).0@ == k);
            }
        }
        assert forall|k: Seq<char>|
            (exists|i: int| 0 <= i < entries.len() && (#[trigger] entries[i]).0@ == k) implies #[
            trigger] pending_map(entries).contains_key(k) by {
            let i = choose|i: int| 0 <= i < entries.len() && (#[trigger] entries[i]).0@ == k;
            if i < entries.len() - 1 {
                assert((d[i]).0@ == k);
                assert(pending_map(d).contains_key(k));
            }
        }
        assert forall|i: int| 0 <= i < entries.len() implies pending_map(entries)[(
        #[trigger] entries[i]).0@] == entries[i].1 by {
            if i < entries.len() - 1 {
                assert(d[i] == entries[i]);
                assert(pending_map(d)[(d[i]).0@] == d[i].1);
                assert((entries[i]).0@ != last.0@);
            }
        }
    }
}

/// Appending an entry inserts its binding.
proof fn lemma_pending_map_push(entries: Seq<(String, u64)>, e: (String, u64))
    ensures
        pending_map(entries.push(e)) == pending_map(entries).insert(e.0@, e.1),
{
    assert(entries.push(e).drop_last() =~= entries);
    assert(entries.push(e).last() == e);
}

/// Removing the entry at `i` removes its binding.
proof fn lemma_pending_map_remove(entries: Seq<(String, u64)>, i: int)
    requires
        distinct_keys(entries),
        0 <= i < entries.len(),
    ensures
        pending_map(entries.remove(i)) == pending_map(entries).remove(entries[i].0@),
    decreases entries.len(),
{
    lemma_pending_map_char(entries);
    let d = entries.drop_last();
    assert(distinct_keys(d)) by {
        assert(forall|x: int| 0 <= x < d.len() ==> d[x] == entries[x]);
    }
    if i == entries.len() - 1 {
        assert(entries.remove(i) =~= d);
        lemma_pending_map_char(d);
        assert(!pending_map(d).contains_key(entries[i].0@));
        assert(pending_map(d) =~= pending_map(entries).remove(entries[i].0@));
    } else {
        assert(entries.remove(i).drop_last() =~= d.remove(i));
        assert(entries.remove(i).last() == entries.last());
        lemma_pending_map_remove(d, i);
        assert(forall|x: int| 0 <= x < d.len() ==> d[x] == entries[x]);
        assert(entries[i].0@ != entries.last().0@);
        assert(pending_map(entries.remove(i)) =~= pending_map(entries).remove(entries[i].0@));
    }
}

/// Entries still pending after a flush at `now`.
pub open spec fn keep_after(now: u64) -> spec_fn((String, u64)) -> bool {
    |e: (String, u64)| e.1 > now
}

/// Entries that fall due at `now`.
pub open spec fn due_at(now: u64) -> spec_fn((String, u64)) -> bool {
    |e: (String, u64)| e.1 <= now
}

/// The path of an entry.
pub open spec fn entry_path() -> spec_fn((String, u64)) -> Seq<char> {
    |e: (String, u64)| e.0@
}

/// The path a handed-out `String` denotes.
pub open spec fn path_view() -> spec_fn(String) -> Seq<char> {
    |s: String| s@
}

/// The paths a flush at `now` hands out, in entry order.
pub open spec fn due_paths(pre: Seq<(String, u64)>, now: u64) -> Seq<Seq<char>> {
    pre.filter(due_at(now)).map_values(entry_path())
}

/// A flush partitions the pending map: what stays is exactly the
/// later deadlines, unchanged, and what is handed out is exactly
/// the elapsed ones, each path once.
proof fn lemma_flush_partition(pre: Seq<(String, u64)>, now: u64)
    requires
        distinct_keys(pre),
    ensures
        distinct_keys(pre.filter(keep_after(now))),
        forall|k: Seq<char>|
            #[trigger] pending_map(pre.filter(keep_after(now))).contains_key(k) <==> (pending_map(
                pre,
            ).contains_key(k) && pending_map(pre)[k] > now),
        forall|k: Seq<char>|
            pending_map(pre.filter(keep_after(now))).contains_key(k) ==> #[trigger] pending_map(
                pre.filter(keep_after(now)),
            )[k] == pending_map(pre)[k],
        forall|k: Seq<char>|
            #[trigger] due_paths(pre, now).contains(k) <==> (pending_map(pre).contains_key(k)
                && pending_map(pre)[k] <= now),
        due_paths(pre, now).no_duplicates(),
    decreases pre.len(),
{
    reveal(Seq::filter);
    if pre.len() == 0 {
        assert(due_paths(pre, now) =~= Seq::<Seq<char>>::empty());
    } else {
        let d = pre.drop_last();
        let last = pre.last();
        assert(forall|i: int| 0 <= i < d.len() ==> d[i] == pre[i]);
        assert(distinct_keys(d));
        lemma_flush_partition(d, now);
        lemma_pending_map_char(pre);
        lemma_pending_map_char(d);
        assert(!pending_map(d).contains_key(last.0@));
        let kd = d.filter(keep_after(now));
        let dd = due_paths(d, now);
        if last.1 > now {
            assert(pre.filter(keep_after(now)) == kd.push(last));
            assert(pre.filter(due_at(now)) == d.filter(due_at(now)));
            assert(due_paths(pre, now) == dd);
            lemma_pending_map_push(kd, last);
            assert forall|x: int| 0 <= x < kd.len() implies (#[trigger] kd[x]).0@ != last.0@ by {
                lemma_pending_map_char(kd);
                assert(pending_map(kd).contains_key(kd[x].0@));
            }
            assert(distinct_keys(kd.push(last)));
            assert forall|k: Seq<char>| #[trigger] due_paths(pre, now).contains(k) implies (
            pending_map(pre).contains_key(k) && pending_map(pre)[k] <= now) by {
                assert(dd.contains(k));
                assert(pending_map(d).contains_key(k) && pending_map(d)[k] <= now);
                assert(k != last.0@);
            }
            assert forall|k: Seq<char>|
                (pending_map(pre).contains_key(k) && pending_map(pre)[k] <= now) implies #[trigger]
                due_paths(pre, now).contains(k) by {
                if k == last.0@ {
                    assert(pending_map(pre)[k] == last.1);
                } else {
                    assert(pending_map(d).contains_key(k) && pending_map(d)[k] <= now);
                }
            }
        } else {
            assert(pre.filter(keep_after(now)) == kd);
            assert(pre.filter(due_at(now)) == d.filter(due_at(now)).push(last));
            assert(due_paths(pre, now) =~= dd.push(last.0@));
            assert(!dd.contains(last.0@)) by {
                if dd.contains(last.0@) {
                    assert(pending_map(d).contains_key(last.0@));
                }
            }
            assert forall|k: Seq<char>| #[trigger] due_paths(pre, now).contains(k) implies (
            pending_map(pre).contains_key(k) && pending_map(pre)[k] <= now) by {
                let x = choose|x: int|
                    0 <= x < due_paths(pre, now).len() && due_paths(pre, now)[x] == k;
                if x < dd.len() {
                    assert(dd[x] == k);
                    assert(dd.contains(k));
                    assert(pending_map(d).contains_key(k) && pending_map(d)[k] <= now);
                    assert(k != last.0@);
                } else {
                    assert(k == last.0@);
                    assert(pending_map(pre)[k] == last.1);
                }
            }
            assert forall|k: Seq<char>|
                (pending_map(pre).contains_key(k) && pending_map(pre)[k] <= now) implies #[trigger]
                due_paths(pre, now).contains(k) by {
                if k == last.0@ {
                    assert(due_paths(pre, now)[due_paths(pre, now).len() - 1] == k);
                } else {
                    assert(pending_map(d).contains_key(k) && pending_map(d)[k] <= now);
                    assert(dd.contains(k));
                    let x = choose|x: int| 0 <= x < dd.len() && dd[x] == k;
                    assert(due_paths(pre, now)[x] == k);
                }
            }
            assert forall|x: int, y: int|
                0 <= x < y < due_paths(pre, now).len() implies due_paths(pre, now)[x] != due_paths(
                pre,
                now,
            )[y] by {
                if y < dd.len() {
                } else {
                    assert(due_paths(pre, now)[x] == dd[x]);
                    assert(dd.contains(dd[x]));
                }
            }
            assert(due_paths(pre, now).no_duplicates());
            assert forall|k: Seq<char>|
                #[trigger] pending_map(pre.filter(keep_after(now))).contains_key(k) implies (
            pending_map(pre).contains_key(k) && pending_map(pre)[k] > now) by {
                assert(pending_map(d).contains_key(k) && pending_map(d)[k] > now);
                assert(k != last.0@);
            }
        }
    }
}

impl DebounceQueue {
    /// The pending map itself.
    pub closed spec fn view_map(self) -> Map<Seq<char>, u64> {
        pending_map(self.entries@)
    }

    /// The entry list holds each path once.
    pub closed spec fn wf(self) -> bool {
        distinct_keys(self.entries@)
    }

    /// An empty pending map.
    pub fn new() -> (q: DebounceQueue)
        ensures
            q.wf(),
            q.view_map() == Map::<Seq<char>, u64>::empty(),
    {
        DebounceQueue { entries: Vec::new() }
    }

    fn find(&self, path: &String) -> (r: Option<usize>)
        ensures
            r matches Some(i) ==> i < self.entries@.len() && self.entries@[i as int].0@ == path@,
            r is None ==> forall|i: int|
                0 <= i < self.entries@.len() ==> (#[trigger] self.entries@[i]).0@ != path@,
        decreases self.entries@.len(),
    {
        let mut i: usize = 0;
        while i < self.entries.len()
            invariant
                i <= self.entries@.len(),
                forall|j: int| 0 <= j < i ==> (#[trigger] self.entries@[j]).0@ != path@,
            decreases self.entries@.len() - i,
        {
            if self.entries[i].0 == *path {
                return Some(i);
            }
            i = i + 1;
        }
        None
    }

    /// Resets the path's deadline to `now + DEBOUNCE_MS`: a later
    /// event always supersedes an earlier one, and a burst of
    /// events leaves one pending entry.
    pub fn schedule(&mut self, path: &String, now: u64)
        requires
            old(self).wf(),
            now + DEBOUNCE_MS <= u64::MAX,
        ensures
            final(self).wf(),
            final(self).view_map() == old(self).view_map().insert(path@, (now + DEBOUNCE_MS) as u64),
    {
        let deadline = now + DEBOUNCE_MS;
        let ghost pre = self.entries@;
        match self.find(path) {
            Some(i) => {
                proof {
                    lemma_pending_map_remove(pre, i as int);
                    lemma_pending_map_char(pre);
                }
                self.entries.remove(i);
                let ghost mid = self.entries@;
                proof {
                    assert(forall|x: int|
                        0 <= x < mid.len() ==> #[trigger] mid[x] == pre[x] || mid[x] == pre[x
                            + 1]);
                    assert(distinct_keys(mid));
                    assert forall|x: int| 0 <= x < mid.len() implies (#[trigger] mid[x]).0@
                        != path@ by {
                        if mid[x] == pre[x] {
                            assert(pre[x].0@ != pre[i as int].0@);
                        } else {
                            assert(pre[x + 1].0@ != pre[i as int].0@);
                        }
                    }
                }
                let owned = String::from_str(path.as_str());
                self.entries.push((owned, deadline));
                proof {
                    lemma_pending_map_push(mid, self.entries@.last());
                    assert(mid.push(self.entries@.last()) =~= self.entries@);
                    assert(self.entries@.last().0@ == path@);
                    assert forall|x: int, y: int| 0 <= x < y < self.entries@.len() implies (
                    #[trigger] self.entries@[x]).0@ != (#[trigger] self.entries@[y]).0@ by {
                        assert(self.entries@[x] == mid[x]);
                        if y < self.entries@.len() - 1 {
                            assert(self.entries@[y] == mid[y]);
                        }
                    }
                    assert(final(self).view_map() =~= old(self).view_map().insert(
                        path@,
                        deadline,
                    ));
                }
            },
            None => {
                let owned = String::from_str(path.as_str());
                self.entries.push((owned, deadline));
                proof {
                    lemma_pending_map_push(pre, self.entries@.last());
                    assert(pre.push(self.entries@.last()) =~= self.entries@);
                    assert(self.entries@.last().0@ == path@);
                    assert forall|x: int, y: int| 0 <= x < y < self.entries@.len() implies (
                    #[trigger] self.entries@[x]).0@ != (#[trigger] self.entries@[y]).0@ by {
                        assert(self.entries@[x] == pre[x]);
                        if y < self.entries@.len() - 1 {
                            assert(self.entries@[y] == pre[y]);
                        }
                    }
                    assert(final(self).view_map() =~= old(self).view_map().insert(
                        path@,
                        deadline,
                    ));
                }
            },
        }
    }

    /// Drops the path's pending entry, if any: its scheduled
    /// processing never happens.
    pub fn cancel(&mut self, path: &String)
        requires
            old(self).wf(),
        ensures
            final(self).wf(),
            final(self).view_map() == old(self).view_map().remove(path@),
    {
        match self.find(path) {
            Some(i) => {
                let ghost pre = self.entries@;
                proof {
                    lemma_pending_map_remove(self.entries@, i as int);
                }
                self.entries.remove(i);
                proof {
                    assert(distinct_keys(self.entries@)) by {
                        assert(forall|x: int|
                            0 <= x < self.entries@.len() ==> #[trigger] self.entries@[x] == pre[x]
                                || self.entries@[x] == pre[x + 1]);
                    }
                }
            },
            None => {
                proof {
                    lemma_pending_map_char(self.entries@);
                    assert(!old(self).view_map().contains_key(path@));
                    assert(final(self).view_map() =~= old(self).view_map().remove(path@));
                }
            },
        }
    }

    /// Whether a path is pending, and its deadline.
    pub fn deadline_of(&self, path: &String) -> (r: Option<u64>)
        requires
            self.wf(),
        ensures
            r matches Some(d) ==> self.view_map().contains_key(path@) && self.view_map()[path@]
                == d,
            r is None ==> !self.view_map().contains_key(path@),
    {
        proof {
            lemma_pending_map_char(self.entries@);
        }
        match self.find(path) {
            Some(i) => Some(self.entries[i].1),
            None => None,
        }
    }

    /// Takes every path whose deadline has elapsed out of the
    /// pending map and hands it back, each exactly once; later
    /// deadlines stay pending untouched.
    pub fn take_due(&mut self, now: u64) -> (due: Vec<String>)
        requires
            old(self).wf(),
        ensures
            final(self).wf(),
            forall|k: Seq<char>|
                #[trigger] final(self).view_map().contains_key(k) <==> (old(
                    self,
                ).view_map().contains_key(k) && old(self).view_map()[k] > now),
            forall|k: Seq<char>|
                final(self).view_map().contains_key(k) ==> #[trigger] final(self).view_map()[k]
                    == old(self).view_map()[k],
            forall|k: Seq<char>|
                #[trigger] due@.map_values(path_view()).contains(k) <==> (old(
                    self,
                ).view_map().contains_key(k) && old(self).view_map()[k] <= now),
            due@.map_values(path_view()).no_duplicates(),
    {
        let ghost pre = self.entries@;
        let mut kept: Vec<(String, u64)> = Vec::new();
        let mut due: Vec<String> = Vec::new();
        let mut i: usize = 0;
        while i < self.entries.len()
            invariant
                distinct_keys(pre),
                pre == self.entries@,
                i <= pre.len(),
                kept@ == pre.take(i as int).filter(keep_after(now)),
                due@.map_values(path_view()) == pre.take(i as int).filter(due_at(now)).map_values(
                    entry_path(),
                ),
            decreases pre.len() - i,
        {
            let ghost t0 = pre.take(i as int);
            let ghost t1 = pre.take(i + 1);
            let ghost due0 = due@;
            let ghost kept0 = kept@;
            proof {
                reveal(Seq::filter);
                assert(t1.drop_last() =~= t0);
                assert(t1.last() == pre[i as int]);
            }
            let e = &self.entries[i];
            if e.1 <= now {
                due.push(e.0.clone());
                proof {
                    assert(t1.filter(due_at(now)) =~= t0.filter(due_at(now)).push(pre[i as int]));
                    assert(t1.filter(keep_after(now)) =~= t0.filter(keep_after(now)));
                    assert(due@ =~= due0.push(due@.last()));
                    assert(due@.last()@ == pre[i as int].0@);
                    assert(due@.map_values(path_view()) =~= due0.map_values(path_view()).push(
                        pre[i as int].0@,
                    ));
                    assert(t1.filter(due_at(now)).map_values(entry_path()) =~= t0.filter(
                        due_at(now),
                    ).map_values(entry_path()).push(pre[i as int].0@));
                    assert(due@.map_values(path_view()) == t1.filter(due_at(now)).map_values(
                        entry_path(),
                    ));
                }
            } else {
                let k = e.0.clone();
                kept.push((k, e.1));
                proof {
                    assert(t1.filter(keep_after(now)) =~= t0.filter(keep_after(now)).push(
                        pre[i as int],
                    ));
                    assert(t1.filter(due_at(now)) =~= t0.filter(due_at(now)));
                    assert(kept@ =~= kept0.push(pre[i as int]));
                    assert(due@.map_values(path_view()) =~= t1.filter(due_at(now)).map_values(
                        entry_path(),
                    ));
                }
            }
            i = i + 1;
        }
        proof {
            assert(pre.take(pre.len() as int) =~= pre);
            lemma_flush_partition(pre, now);
        }
        self.entries = kept;
        due
    }
}

// ============================================================
// Ignoring hidden files
// ============================================================

/// The final path component: everything after the last `/`.
pub open spec fn file_name_of(p: Seq<char>) -> Seq<char>
    decreases p.len(),
{
    if p.len() == 0 {
        p
    } else if p.last() == '/' {
        Seq::empty()
    } else {
        file_name_of(p.drop_last()).push(p.last())
    }
}

/// Hidden files — a name beginning with `.` — are never watched,
/// never debounced, never indexed.
pub open spec fn ignored_path(p: Seq<char>) -> bool {
    file_name_of(p).len() > 0 && file_name_of(p)[0] == '.'
}

/// Whether the watcher ignores this path.
pub fn should_ignore(path: &str) -> (r: bool)
    ensures
        r == ignored_path(path@),
{
    let n = path.unicode_len();
    let mut name_len: usize = 0;
    let mut first: char = ' ';
    let mut i: usize = 0;
    while i < n
        invariant
            n == path@.len(),
            i <= n,
            name_len <= i,
            name_len == file_name_of(path@.take(i as int)).len(),
            name_len > 0 ==> first == file_name_of(path@.take(i as int))[0],
        decreases n - i,
    {
        let c = path.get_char(i);
        proof {
            assert(path@.take(i + 1).drop_last() =~= path@.take(i as int));
            assert(path@.take(i + 1).last() == path@[i as int]);
        }
        if c == '/' {
            name_len = 0;
        } else {
            if name_len == 0 {
                first = c;
            }
            name_len = name_len + 1;
        }
        i = i + 1;
    }
    proof {
        assert(path@.take(n as int) =~= path@);
    }
    name_len > 0 && first == '.'
}

// ============================================================
// Hashing and indexing one file's content
// ============================================================

/// What blake3 digests the given bytes to: 32 bytes, a function
/// of the input alone.
pub uninterp spec fn blake3_digest(data: Seq<u8>) -> Seq<u8>;

/// Relies on `blake3::hash` and `Hash::to_hex`: the lowercase hex
/// form of the 32-byte digest of the input bytes, and nothing else.
#[verifier::external_body]
pub fn blake3_hash_hex(data: &Vec<u8>) -> (r: String)
    ensures
        encode_utf8(r@) == hex_of(blake3_digest(data@)),
        encode_utf8(r@).len() == 64,
{
    blake3::hash(data.as_slice()).to_hex().as_str().to_string()
}

/// What mime_guess answers for a path: a pure lookup on the
/// path's extension, `application/octet-stream` when unknown.
pub uninterp spec fn mime_of(path: Seq<char>) -> Seq<char>;

/// Relies on `mime_guess::from_path` and `first_or_octet_stream`:
/// the guessed MIME type, a function of the path alone.
#[verifier::external_body]
pub fn mime_guess_for(path: &str) -> (r: String)
    ensures
        r@ == mime_of(path@),
{
    mime_guess::from_path(path).first_or_octet_stream().to_string()
}

/// The content hash, as the character string that names it.
pub open spec fn hash_chars_of(data: Seq<u8>) -> Seq<char> {
    decode_utf8(hex_of(blake3_digest(data)))
}

/// Hashes content: the digest's lowercase hex form, wrapped as a
/// `MediaHash`. Identical bytes always hash to the same value.
pub fn content_hash(data: &Vec<u8>) -> (h: MediaHash)
    ensures
        h@ == hash_chars_of(data@),
        encode_utf8(h@) == hex_of(blake3_digest(data@)),
{
    proof {
        broadcast use vstd::utf8::encode_utf8_decode_utf8;

    }
    let s = blake3_hash_hex(data);
    MediaHash(s)
}

/// The record that processing a file's content writes.
pub open spec fn processed_meta(path: Seq<char>, content: Seq<u8>, created_at: u64) -> MetaView {
    MetaView {
        path,
        hash: hash_chars_of(content),
        size: content.len() as u64,
        mime_type: mime_of(path),
        created_at,
    }
}

/// Hashes one file's content, gathers its metadata, and upserts
/// the record: the debounced processing pass for one path. The
/// hash is a function of the content alone, so re-registering
/// identical content yields the same hash every time.
pub fn process_file_content(
    index: &mut FileIndex,
    path: &String,
    content: &Vec<u8>,
    created_at: u64,
) -> (r: Result<MediaHash, StreamError>)
    ensures
        r matches Ok(h) ==> {
            &&& h@ == hash_chars_of(content@)
            &&& final(index).files() == upsert_files(
                old(index).files(),
                processed_meta(path@, content@, created_at),
            )
            &&& final(index).hashes() == upsert_hashes(
                old(index).hashes(),
                processed_meta(path@, content@, created_at),
            )
        },
        r is Err ==> final(index).files() == old(index).files() && final(index).hashes() == old(index).hashes(),
        r matches Err(e) ==> e matches StreamError::Database(_),
{
    let hash = content_hash(content);
    let mime_type = mime_guess_for(path.as_str());
    let meta = FileMetadata {
        path: String::from_str(path.as_str()),
        hash: MediaHash(hash.0.clone()),
        size: content.len() as u64,
        mime_type,
        created_at,
    };
    proof {
        assert(meta@ =~= processed_meta(path@, content@, created_at));
    }
    index.upsert_file(&meta)?;
    Ok(hash)
}

// ============================================================
// Handling one filesystem event
// ============================================================

/// Applies one filesystem notification for one path: hidden paths
/// are ignored entirely; a create or modify event resets the
/// path's debounce deadline; a delete cancels any pending entry
/// and removes the index record at once, never waiting for a
/// tick; anything else is ignored.
pub fn handle_event(
    queue: &mut DebounceQueue,
    index: &mut FileIndex,
    kind: &WatchEventKind,
    path: &String,
    now: u64,
) -> (r: Result<(), StreamError>)
    requires
        old(queue).wf(),
        now + DEBOUNCE_MS <= u64::MAX,
    ensures
        final(queue).wf(),
        ignored_path(path@) || kind is Other ==> final(queue).view_map() == old(queue).view_map() && final(index).files() == old(index).files() && final(index).hashes() == old(index).hashes() && r is Ok,
        !ignored_path(path@) && (kind is Created || kind is Modified) ==> final(queue).view_map() == old(queue).view_map().insert(path@, (now + DEBOUNCE_MS) as u64) && final(index).files() == old(index).files() && final(index).hashes() == old(index).hashes() && r is Ok,
        !ignored_path(path@) && kind is Removed ==> {
            &&& final(queue).view_map() == old(queue).view_map().remove(path@)
            &&& (r is Ok && !old(index).files().contains_key(path@) ==> final(index).files()
                == old(index).files() && final(index).hashes() == old(index).hashes())
            &&& (r is Ok && crate::index::lookup_path(old(index).files(), path@) is Some ==> final(index).files() == old(index).files().remove(path@) && final(index).hashes() == old(index).hashes().remove(
                crate::index::lookup_path(old(index).files(), path@)->Some_0.hash,
            ))
            &&& (r is Err ==> final(index).files() == old(index).files() && final(index).hashes()
                == old(index).hashes())
        },
{
    if should_ignore(path.as_str()) {
        return Ok(());
    }
    match kind {
        WatchEventKind::Created | WatchEventKind::Modified => {
            queue.schedule(path, now);
            Ok(())
        },
        WatchEventKind::Removed => {
            queue.cancel(path);
            index.remove_file(path.as_str())
        },
        WatchEventKind::Other => Ok(()),
    }
}

// ============================================================
// Laws of debouncing
// ============================================================

/// The pending map after a burst of events for one path.
pub open spec fn schedule_seq(m: Map<Seq<char>, u64>, p: Seq<char>, deadlines: Seq<u64>) -> Map<
    Seq<char>,
    u64,
>
    decreases deadlines.len(),
{
    if deadlines.len() == 0 {
        m
    } else {
        schedule_seq(m, p, deadlines.drop_last()).insert(p, deadlines.last())
    }
}

/// Any burst of events on one path collapses to a single pending
/// entry carrying the last deadline: only the most recent deadline
/// is honored, so one flush processes the path exactly once.
pub proof fn lemma_burst_collapses(m: Map<Seq<char>, u64>, p: Seq<char>, deadlines: Seq<u64>)
    requires
        deadlines.len() > 0,
    ensures
        schedule_seq(m, p, deadlines) == m.insert(p, deadlines.last()),
    decreases deadlines.len(),
{
    if deadlines.len() == 1 {
        assert(deadlines.drop_last().len() == 0);
        assert(schedule_seq(m, p, deadlines.drop_last()) == m);
    } else {
        lemma_burst_collapses(m, p, deadlines.drop_last());
        assert(schedule_seq(m, p, deadlines) =~= m.insert(p, deadlines.last()));
    }
}

} // verus!

//! What an agent decides between its own disk and the manifest: which local
//! files are new or changed and must be authored, which vanished files must
//! be tombstoned, which remote entries must be written to or removed from
//! disk, which chunk hashes the manifest refers to, and how a chunk is named
//! in the content-addressed store. The disk itself is touched elsewhere.
use vstd::prelude::*;
use vstd::string::*;

use crate::chunk::Chunk;
use crate::hlc::{tick_defined, tick_spec, Hlc};
use crate::manifest::{
    apply_defined, apply_spec, keys_distinct, lemma_to_map_char, lemma_to_map_push,
    lemma_to_map_update, pairs_view, to_map, Entry, EntryView, Manifest,
};
use crate::strings::{hex_lower, to_hex, views};

verus! {

/// `path -> entry` for every path whose entry this agent last confirmed is
/// correctly reflected on its own disk (authored here or written from a
/// peer's entry).
pub struct LocalIndex {
    entries: Vec<(String, Entry)>,
}

impl LocalIndex {
    pub closed spec fn entry_seq(&self) -> Seq<(Seq<char>, EntryView)> {
        pairs_view(self.entries@)
    }

    /// No path is stored twice.
    pub closed spec fn wf(&self) -> bool {
        keys_distinct(self.entry_seq())
    }
}

impl View for LocalIndex {
    type V = Map<Seq<char>, EntryView>;

    open spec fn view(&self) -> Map<Seq<char>, EntryView> {
        to_map(self.entry_seq())
    }
}

impl LocalIndex {
    /// An empty index.
    pub fn new() -> (r: LocalIndex)
        ensures
            r.wf(),
            r@ == Map::<Seq<char>, EntryView>::empty(),
    {
        let r = LocalIndex { entries: Vec::new() };
        assert(r.entry_seq() =~= Seq::empty());
        r
    }

    fn find(&self, path: &str) -> (r: Option<usize>)
        requires
            self.wf(),
        ensures
            match r {
                Some(i) => i < self.entry_seq().len() && self.entry_seq()[i as int].0 == path@,
                None => !self@.contains_key(path@),
            },
    {
        proof {
            lemma_to_map_char(self.entry_seq());
        }
        let key = path.to_owned();
        let mut i: usize = 0;
        while i < self.entries.len()
            invariant
                i <= self.entries@.len(),
                self.entry_seq().len() == self.entries@.len(),
                key@ == path@,
                forall|j: int| 0 <= j < i ==> self.entry_seq()[j].0 != path@,
            decreases self.entries@.len() - i,
        {
            if self.entries[i].0 == key {
                return Some(i);
            }
            i = i + 1;
        }
        None
    }

    /// The entry recorded for `path`, tombstone or not.
    pub fn get_any(&self, path: &str) -> (r: Option<&Entry>)
        requires
            self.wf(),
        ensures
            match r {
                Some(e) => self@.contains_key(path@) && e@ == self@[path@],
                None => !self@.contains_key(path@),
            },
    {
        proof {
            lemma_to_map_char(self.entry_seq());
        }
        match self.find(path) {
            None => None,
            Some(i) => {
                assert(self.entry_seq()[i as int] == self.entry_seq()[i as int]);
                Some(&self.entries[i].1)
            },
        }
    }

    /// Record `entry` for `path`, replacing what was there.
    pub fn insert(&mut self, path: &str, entry: Entry)
        requires
            old(self).wf(),
        ensures
            final(self).wf(),
            final(self)@ == old(self)@.insert(path@, entry@),
    {
        match self.find(path) {
            None => {
                proof {
                    lemma_to_map_push(self.entry_seq(), path@, entry@);
                }
                let ghost old_entries = self.entries@;
                self.entries.push((path.to_owned(), entry));
                assert(self.entry_seq() =~= pairs_view(old_entries).push((path@, entry@)));
            },
            Some(i) => {
                let ghost s = self.entry_seq();
                proof {
                    lemma_to_map_update(s, i as int, entry@);
                }
                self.entries.set(i, (path.to_owned(), entry));
                assert(self.entry_seq() =~= s.update(i as int, (s[i as int].0, entry@)));
            },
        }
    }

    /// The path is recorded with a live (non-tombstone) entry.
    pub fn is_live(&self, path: &str) -> (r: bool)
        requires
            self.wf(),
        ensures
            r == (self@.contains_key(path@) && !self@[path@].tombstone),
    {
        match self.get_any(path) {
            Some(e) => !e.tombstone,
            None => false,
        }
    }

    /// Every recorded path, in stored order.
    pub fn paths(&self) -> (r: Vec<String>)
        requires
            self.wf(),
        ensures
            r@.len() == self.entry_seq().len(),
            forall|k: int| 0 <= k < r@.len() ==> #[trigger] r@[k]@ == self.entry_seq()[k].0,
            forall|p: Seq<char>| self@.contains_key(p) <==> exists|k: int| 0 <= k < r@.len() && #[trigger] r@[k]@ == p,
    {
        proof {
            lemma_to_map_char(self.entry_seq());
        }
        let mut out: Vec<String> = Vec::new();
        let mut i: usize = 0;
        while i < self.entries.len()
            invariant
                i <= self.entries@.len(),
                self.entry_seq().len() == self.entries@.len(),
                out@.len() == i,
                forall|k: int| 0 <= k < i ==> #[trigger] out@[k]@ == self.entry_seq()[k].0,
            decreases self.entries@.len() - i,
        {
            out.push(self.entries[i].0.clone());
            i = i + 1;
        }
        assert forall|p: Seq<char>| self@.contains_key(p) implies exists|k: int|
            0 <= k < out@.len() && #[trigger] out@[k]@ == p by {
            let k = choose|k: int| 0 <= k < self.entry_seq().len() && self.entry_seq()[k].0 == p;
            assert(out@[k]@ == p);
        }
        assert forall|p: Seq<char>| (exists|k: int| 0 <= k < out@.len() && #[trigger] out@[k]@ == p) implies self@.contains_key(p) by {
            let k = choose|k: int| 0 <= k < out@.len() && #[trigger] out@[k]@ == p;
            assert(self.entry_seq()[k] == self.entry_seq()[k]);
        }
        out
    }
}

/// The file name under which the chunk store keeps a chunk.
pub fn chunk_file_name(hash_hex: &str) -> (r: String)
    ensures
        r@ == hash_hex@ + seq!['.', 'b', 'i', 'n'],
{
    let mut out = hash_hex.to_owned();
    let ext = ".bin";
    proof {
        reveal_strlit(".bin");
    }
    assert(ext@ =~= seq!['.', 'b', 'i', 'n']);
    out.append(ext);
    out
}

/// The hex text of each chunk's hash, in order: the chunk list of an entry.
pub fn chunk_hash_texts(chunks: &Vec<Chunk>) -> (r: Vec<String>)
    ensures
        r@.len() == chunks@.len(),
        forall|k: int| 0 <= k < r@.len() ==> #[trigger] r@[k]@ == hex_lower(chunks@[k].hash@),
{
    let mut out: Vec<String> = Vec::new();
    let mut i: usize = 0;
    while i < chunks.len()
        invariant
            i <= chunks@.len(),
            out@.len() == i,
            forall|k: int| 0 <= k < i ==> #[trigger] out@[k]@ == hex_lower(chunks@[k].hash@),
        decreases chunks@.len() - i,
    {
        let h = to_hex(chunks[i].hash.as_slice());
        out.push(h);
        i = i + 1;
    }
    out
}

/// The local file at `path` already matches what this agent last confirmed
/// for it: a live entry with the same chunk list and size.
pub open spec fn matches_known(
    known: Map<Seq<char>, EntryView>,
    path: Seq<char>,
    chunk_hashes: Seq<Seq<char>>,
    size: u64,
) -> bool {
    &&& known.contains_key(path)
    &&& !known[path].tombstone
    &&& known[path].chunk_hashes == chunk_hashes
    &&& known[path].size == size
}

fn same_strings(a: &Vec<String>, b: &Vec<String>) -> (r: bool)
    ensures
        r == (views(a@) == views(b@)),
{
    if a.len() != b.len() {
        assert(views(a@).len() != views(b@).len());
        return false;
    }
    let mut i: usize = 0;
    while i < a.len()
        invariant
            i <= a@.len(),
            a@.len() == b@.len(),
            forall|j: int| 0 <= j < i ==> a@[j]@ == b@[j]@,
        decreases a@.len() - i,
    {
        if !(a[i] == b[i]) {
            assert(views(a@)[i as int] != views(b@)[i as int]);
            return false;
        }
        i = i + 1;
    }
    assert(views(a@) =~= views(b@));
    true
}

/// Whether a scanned local file matches what this agent last confirmed on
/// its own disk for that path, so there is nothing to author.
pub fn local_file_unchanged(
    known_local: &LocalIndex,
    rel: &str,
    chunk_hashes: &Vec<String>,
    size: u64,
) -> (r: bool)
    requires
        known_local.wf(),
    ensures
        r == matches_known(known_local@, rel@, views(chunk_hashes@), size),
        r == (known_local@.contains_key(rel@) && !known_local@[rel@].tombstone
            && known_local@[rel@].chunk_hashes == views(chunk_hashes@) && known_local@[rel@].size
            == size),
{
    match known_local.get_any(rel) {
        Some(e) => !e.tombstone && e.size == size && same_strings(&e.chunk_hashes, chunk_hashes),
        None => false,
    }
}

/// What a scan step did.
#[derive(Debug, Clone, Copy, PartialEq, Eq, Structural)]
pub enum ScanOutcome {
    /// Nothing to record.
    Unchanged,
    /// A new entry was put into the manifest and recorded as confirmed.
    Recorded,
    /// A new entry was due, but putting it would end in a true conflict whose
    /// losing author key cannot be cut for a conflict-copy name; the clock
    /// was ticked and nothing else changed.
    Refused,
}

/// The entry this agent authors for a local change.
pub open spec fn authored(
    chunk_hashes: Seq<Seq<char>>,
    size: u64,
    hlc: Hlc,
    self_id: Seq<char>,
    tombstone: bool,
) -> EntryView {
    EntryView { chunk_hashes, size, hlc, author: self_id, tombstone }
}

/// Fold one scanned local file into the manifest under this agent's
/// authorship, unless it matches what this agent last confirmed on its own
/// disk for that path. A changed file gets a fresh tick of the clock; the
/// new entry is put into the manifest and recorded as confirmed.
pub fn record_local_file(
    manifest: &mut Manifest,
    clock: &mut Hlc,
    known_local: &mut LocalIndex,
    self_id: &str,
    rel: &str,
    chunk_hashes: Vec<String>,
    size: u64,
    wall_ms: u64,
) -> (r: ScanOutcome)
    requires
        old(manifest).wf(),
        old(known_local).wf(),
        matches_known(old(known_local)@, rel@, views(chunk_hashes@), size) || tick_defined(
            *old(clock),
            wall_ms,
        ),
    ensures
        final(manifest).wf(),
        final(known_local).wf(),
        (r == ScanOutcome::Unchanged) == matches_known(
            old(known_local)@,
            rel@,
            views(chunk_hashes@),
            size,
        ),
        (r == ScanOutcome::Unchanged) == (old(known_local)@.contains_key(rel@) && !old(
            known_local,
        )@[rel@].tombstone && old(known_local)@[rel@].chunk_hashes == views(chunk_hashes@) && old(
            known_local,
        )@[rel@].size == size),
        r == ScanOutcome::Unchanged ==> *final(clock) == *old(clock),
        r != ScanOutcome::Unchanged ==> *final(clock) == tick_spec(*old(clock), wall_ms),
        ({
            let e = authored(views(chunk_hashes@), size, tick_spec(*old(clock), wall_ms), self_id@, false);
            &&& r != ScanOutcome::Unchanged ==> (r == ScanOutcome::Refused <==> !apply_defined(
                old(manifest)@,
                rel@,
                e,
            ))
            &&& r == ScanOutcome::Recorded ==> final(manifest)@ == apply_spec(old(manifest)@, rel@, e)
                && final(known_local)@ == old(known_local)@.insert(rel@, e)
        }),
        r != ScanOutcome::Recorded ==> final(manifest)@ == old(manifest)@ && final(known_local)@
            == old(known_local)@,
{
    if local_file_unchanged(known_local, rel, &chunk_hashes, size) {
        return ScanOutcome::Unchanged;
    }
    let hlc = clock.tick(wall_ms);
    let entry = Entry {
        chunk_hashes,
        size,
        hlc,
        author_pubkey: self_id.to_owned(),
        tombstone: false,
    };
    if !manifest.can_put(rel, &entry) {
        return ScanOutcome::Refused;
    }
    let copy = entry.duplicate();
    manifest.put(rel, entry);
    known_local.insert(rel, copy);
    ScanOutcome::Recorded
}

/// The path is still live in what this agent last confirmed on disk.
pub open spec fn known_live(known: Map<Seq<char>, EntryView>, path: Seq<char>) -> bool {
    known.contains_key(path) && !known[path].tombstone
}

/// Tombstone `path` if this agent last confirmed it live on its own disk and
/// the scan did not see it any more (whoever authored it): a fresh tick of
/// the clock, a tombstone entry put into the manifest and recorded as
/// confirmed.
pub fn record_local_deletion(
    manifest: &mut Manifest,
    clock: &mut Hlc,
    known_local: &mut LocalIndex,
    self_id: &str,
    path: &str,
    seen: bool,
    wall_ms: u64,
) -> (r: ScanOutcome)
    requires
        old(manifest).wf(),
        old(known_local).wf(),
        known_live(old(known_local)@, path@) && !seen ==> tick_defined(*old(clock), wall_ms),
    ensures
        final(manifest).wf(),
        final(known_local).wf(),
        (r == ScanOutcome::Unchanged) == !(known_live(old(known_local)@, path@) && !seen),
        (r == ScanOutcome::Unchanged) == !(old(known_local)@.contains_key(path@) && !old(
            known_local,
        )@[path@].tombstone && !seen),
        r == ScanOutcome::Unchanged ==> *final(clock) == *old(clock),
        r != ScanOutcome::Unchanged ==> *final(clock) == tick_spec(*old(clock), wall_ms),
        ({
            let e = authored(Seq::empty(), 0, tick_spec(*old(clock), wall_ms), self_id@, true);
            &&& r != ScanOutcome::Unchanged ==> (r == ScanOutcome::Refused <==> !apply_defined(
                old(manifest)@,
                path@,
                e,
            ))
            &&& r == ScanOutcome::Recorded ==> final(manifest)@ == apply_spec(old(manifest)@, path@, e)
                && final(known_local)@ == old(known_local)@.insert(path@, e)
        }),
        r != ScanOutcome::Recorded ==> final(manifest)@ == old(manifest)@ && final(known_local)@
            == old(known_local)@,
{
    if !known_local.is_live(path) || seen {
        return ScanOutcome::Unchanged;
    }
    let hlc = clock.tick(wall_ms);
    let entry = Entry {
        chunk_hashes: Vec::new(),
        size: 0,
        hlc,
        author_pubkey: self_id.to_owned(),
        tombstone: true,
    };
    assert(entry@.chunk_hashes =~= Seq::<Seq<char>>::empty());
    if !manifest.can_put(path, &entry) {
        return ScanOutcome::Refused;
    }
    let copy = entry.duplicate();
    manifest.put(path, entry);
    known_local.insert(path, copy);
    ScanOutcome::Recorded
}

/// What to do on disk for one manifest entry.
#[derive(Debug, Clone, Copy, PartialEq, Eq, Structural)]
pub enum MaterializeAction {
    /// Authored here, or already reflected on disk.
    Skip,
    /// A tombstone: delete the file.
    Remove,
    /// Write the file, once every chunk it needs is at hand.
    Write,
}

/// What to do on disk for the entry at `path`: nothing for an entry this
/// agent authored or one already confirmed on disk; remove the file behind a
/// tombstone; otherwise write it.
pub open spec fn materialize_spec(
    path: Seq<char>,
    entry: EntryView,
    self_id: Seq<char>,
    known: Map<Seq<char>, EntryView>,
) -> MaterializeAction {
    if entry.author == self_id {
        MaterializeAction::Skip
    } else if known.contains_key(path) && known[path] == entry {
        MaterializeAction::Skip
    } else if entry.tombstone {
        MaterializeAction::Remove
    } else {
        MaterializeAction::Write
    }
}

/// Decide what to do on disk for the entry at `path`.
pub fn materialize_action(
    path: &str,
    entry: &Entry,
    self_id: &str,
    known_local: &LocalIndex,
) -> (r: MaterializeAction)
    requires
        known_local.wf(),
    ensures
        r == materialize_spec(path@, entry@, self_id@, known_local@),
        entry@.author == self_id@ ==> r == MaterializeAction::Skip,
        entry@.author != self_id@ ==> (r == MaterializeAction::Skip <==> (known_local@.contains_key(
            path@,
        ) && known_local@[path@] == entry@)),
        entry@.author != self_id@ && r != MaterializeAction::Skip ==> (r == MaterializeAction::Remove
            <==> entry@.tombstone),
{
    let me = self_id.to_owned();
    if entry.author_pubkey == me {
        return MaterializeAction::Skip;
    }
    match known_local.get_any(path) {
        Some(k) => {
            if k.same_as(entry) {
                return MaterializeAction::Skip;
            }
        },
        None => {},
    }
    if entry.tombstone {
        MaterializeAction::Remove
    } else {
        MaterializeAction::Write
    }
}


/// Law (a scan settles): once a local file has been authored, scanning the
/// same file again finds it unchanged, so a quiet disk produces no new
/// entries, ticks or confirmations.
pub proof fn law_scan_settles(
    known: Map<Seq<char>, EntryView>,
    rel: Seq<char>,
    chunk_hashes: Seq<Seq<char>>,
    size: u64,
    hlc: Hlc,
    self_id: Seq<char>,
)
    ensures
        matches_known(
            known.insert(rel, authored(chunk_hashes, size, hlc, self_id, false)),
            rel,
            chunk_hashes,
            size,
        ),
{
}

/// Law (a deletion settles): once a vanished path has been tombstoned, the
/// next scan does not tombstone it again.
pub proof fn law_deletion_settles(
    known: Map<Seq<char>, EntryView>,
    path: Seq<char>,
    hlc: Hlc,
    self_id: Seq<char>,
)
    ensures
        !known_live(known.insert(path, authored(Seq::empty(), 0, hlc, self_id, true)), path),
{
}

/// Law (a written file is not re-authored): once a peer's live entry has
/// been written to disk and confirmed, a scan that finds that entry's chunk
/// list and size at the path leaves it alone.
pub proof fn law_materialized_file_not_reauthored(
    known: Map<Seq<char>, EntryView>,
    path: Seq<char>,
    e: EntryView,
)
    requires
        !e.tombstone,
    ensures
        matches_known(known.insert(path, e), path, e.chunk_hashes, e.size),
{
}

/// Law (materializing settles): once an entry has been written or removed
/// on disk and confirmed, deciding again for the same entry does nothing.
pub proof fn law_materialize_settles(
    path: Seq<char>,
    entry: EntryView,
    self_id: Seq<char>,
    known: Map<Seq<char>, EntryView>,
)
    ensures
        materialize_spec(path, entry, self_id, known.insert(path, entry)) == MaterializeAction::Skip,
{
}

/// Law (a peer's entry is acted on until it is on disk): for an entry
/// another agent authored, the decision is Skip exactly when the entry
/// confirmed on this disk for the path is that very entry; any other live
/// entry (a new file, or an edit of a file already written here) is written,
/// and any other tombstone removes the file. An entry this agent authored is
/// never acted on.
pub proof fn law_materialize_follows_confirmation(
    path: Seq<char>,
    entry: EntryView,
    self_id: Seq<char>,
    known: Map<Seq<char>, EntryView>,
)
    ensures
        entry.author == self_id ==> materialize_spec(path, entry, self_id, known)
            == MaterializeAction::Skip,
        entry.author != self_id ==> (materialize_spec(path, entry, self_id, known)
            == MaterializeAction::Skip <==> known.contains_key(path) && known[path] == entry),
        entry.author != self_id && !(known.contains_key(path) && known[path] == entry)
            && !entry.tombstone ==> materialize_spec(path, entry, self_id, known)
            == MaterializeAction::Write,
        entry.author != self_id && !(known.contains_key(path) && known[path] == entry)
            && entry.tombstone ==> materialize_spec(path, entry, self_id, known)
            == MaterializeAction::Remove,
{
}

/// Law (a peer's edit of a file already on disk is written): when the
/// confirmed entry for a path is `before` and a different live entry by
/// another agent arrives for it, the decision is Write.
pub proof fn law_peer_edit_is_written(
    path: Seq<char>,
    before: EntryView,
    edit: EntryView,
    self_id: Seq<char>,
    known: Map<Seq<char>, EntryView>,
)
    requires
        known.contains_key(path),
        known[path] == before,
        edit != before,
        edit.author != self_id,
        !edit.tombstone,
    ensures
        materialize_spec(path, edit, self_id, known) == MaterializeAction::Write,
{
}

/// Law (a scan notices every change): a scanned file is taken as unchanged
/// only against a live confirmed entry with the same chunk list and the same
/// size; a different chunk list (even at the same size), a different size,
/// a confirmed tombstone or no confirmation at all makes it a change.
pub proof fn law_scan_notices_changes(
    known: Map<Seq<char>, EntryView>,
    path: Seq<char>,
    chunk_hashes: Seq<Seq<char>>,
    size: u64,
)
    ensures
        matches_known(known, path, chunk_hashes, size) ==> known.contains_key(path)
            && known[path].chunk_hashes == chunk_hashes && known[path].size == size
            && !known[path].tombstone,
        known.contains_key(path) && known[path].chunk_hashes != chunk_hashes ==> !matches_known(
            known,
            path,
            chunk_hashes,
            size,
        ),
        known.contains_key(path) && known[path].size != size ==> !matches_known(
            known,
            path,
            chunk_hashes,
            size,
        ),
        !known.contains_key(path) || known[path].tombstone ==> !matches_known(
            known,
            path,
            chunk_hashes,
            size,
        ),
        known.contains_key(path) && !known[path].tombstone && known[path].chunk_hashes
            == chunk_hashes && known[path].size == size ==> matches_known(
            known,
            path,
            chunk_hashes,
            size,
        ),
{
}

/// Law (every vanished live file is tombstoned): a path whose confirmed
/// entry is not a tombstone counts as live, whatever its chunk list (an
/// empty file included), so a scan that no longer sees it tombstones it;
/// a path with no confirmed entry or a confirmed tombstone does not.
pub proof fn law_live_means_not_tombstoned(known: Map<Seq<char>, EntryView>, path: Seq<char>)
    ensures
        known.contains_key(path) && !known[path].tombstone ==> known_live(known, path),
        !known.contains_key(path) || known[path].tombstone ==> !known_live(known, path),
        known.contains_key(path) && !known[path].tombstone && known[path].chunk_hashes.len() == 0
            ==> known_live(known, path),
{
}

/// Some entry of the manifest lists the chunk hash `h`.
pub open spec fn referenced(m: Map<Seq<char>, EntryView>, h: Seq<char>) -> bool {
    exists|p: Seq<char>| #[trigger] m.contains_key(p) && m[p].chunk_hashes.contains(h)
}

/// Every chunk hash listed by the pairs, in order.
pub open spec fn all_hashes(s: Seq<(Seq<char>, EntryView)>) -> Seq<Seq<char>>
    decreases s.len(),
{
    if s.len() == 0 {
        Seq::empty()
    } else {
        all_hashes(s.drop_last()) + s.last().1.chunk_hashes
    }
}

proof fn lemma_all_hashes_contains(s: Seq<(Seq<char>, EntryView)>, h: Seq<char>)
    ensures
        all_hashes(s).contains(h) <==> exists|i: int|
            0 <= i < s.len() && (#[trigger] s[i]).1.chunk_hashes.contains(h),
    decreases s.len(),
{
    if s.len() > 0 {
        let t = s.drop_last();
        lemma_all_hashes_contains(t, h);
        let a = all_hashes(t);
        let c = s.last().1.chunk_hashes;
        if all_hashes(s).contains(h) {
            let k = choose|k: int| 0 <= k < all_hashes(s).len() && all_hashes(s)[k] == h;
            if k < a.len() {
                assert(a[k] == h);
                let i = choose|i: int| 0 <= i < t.len() && (#[trigger] t[i]).1.chunk_hashes.contains(h);
                assert(s[i] == t[i]);
            } else {
                assert(c[k - a.len()] == h);
                assert(s[s.len() - 1].1.chunk_hashes.contains(h));
            }
        }
        if exists|i: int| 0 <= i < s.len() && (#[trigger] s[i]).1.chunk_hashes.contains(h) {
            let i = choose|i: int| 0 <= i < s.len() && (#[trigger] s[i]).1.chunk_hashes.contains(h);
            if i < s.len() - 1 {
                assert(t[i] == s[i]);
                let k = choose|k: int| 0 <= k < a.len() && a[k] == h;
                assert(all_hashes(s)[k] == h);
            } else {
                let k = choose|k: int| 0 <= k < c.len() && c[k] == h;
                assert(all_hashes(s)[a.len() + k] == h);
            }
        }
    }
}

/// Every chunk hash the manifest refers to, each once. The chunks to fetch
/// from a peer are those of these that the local store lacks.
pub fn referenced_chunk_hashes(manifest: &Manifest) -> (r: Vec<String>)
    requires
        manifest.wf(),
    ensures
        views(r@).no_duplicates(),
        forall|h: Seq<char>| views(r@).contains(h) <==> referenced(manifest@, h),
{
    let snap = manifest.snapshot();
    let ghost s = pairs_view(snap@);
    let mut out: Vec<String> = Vec::new();
    let mut i: usize = 0;
    while i < snap.len()
        invariant
            s == pairs_view(snap@),
            i <= snap@.len(),
            views(out@).no_duplicates(),
            forall|h: Seq<char>| views(out@).contains(h) <==> all_hashes(s.take(i as int)).contains(h),
        decreases snap@.len() - i,
    {
        let hs = &snap[i].1.chunk_hashes;
        assert(s[i as int].1.chunk_hashes == views(hs@));
        let ghost prefix = all_hashes(s.take(i as int));
        let mut j: usize = 0;
        while j < hs.len()
            invariant
                i < snap@.len(),
                hs == &snap@[i as int].1.chunk_hashes,
                j <= hs@.len(),
                views(out@).no_duplicates(),
                forall|h: Seq<char>| views(out@).contains(h) <==> (prefix + views(hs@).take(j as int)).contains(h),
            decreases hs@.len() - j,
        {
            let h = &hs[j];
            let mut present = false;
            let mut k: usize = 0;
            while k < out.len()
                invariant
                    k <= out@.len(),
                    present ==> views(out@).contains(h@),
                    !present ==> forall|m: int| 0 <= m < k ==> out@[m]@ != h@,
                decreases out@.len() - k,
            {
                if out[k] == *h {
                    present = true;
                    assert(views(out@)[k as int] == h@);
                }
                k = k + 1;
            }
            let ghost before = views(out@);
            if !present {
                out.push(h.clone());
                assert(views(out@) =~= before.push(h@));
            }
            let ghost old_target = prefix + views(hs@).take(j as int);
            assert((prefix + views(hs@).take(j + 1)) =~= old_target.push(h@));
            assert(views(hs@)[j as int] == h@);
            assert forall|x: Seq<char>| views(out@).contains(x) <==> old_target.push(h@).contains(x) by {
                if old_target.push(h@).contains(x) {
                    let m = choose|m: int| 0 <= m < old_target.push(h@).len() && old_target.push(h@)[m] == x;
                    if m < old_target.len() {
                        assert(old_target[m] == x);
                        assert(before.contains(x));
                        if !present {
                            let q = choose|q: int| 0 <= q < before.len() && before[q] == x;
                            assert(views(out@)[q] == x);
                        }
                    } else {
                        assert(x == h@);
                        if !present {
                            assert(views(out@)[before.len() as int] == x);
                        }
                    }
                }
                if views(out@).contains(x) {
                    let m = choose|m: int| 0 <= m < views(out@).len() && views(out@)[m] == x;
                    if m < before.len() {
                        assert(before[m] == x);
                        assert(before.contains(x));
                        assert(old_target.contains(x));
                        let q = choose|q: int| 0 <= q < old_target.len() && old_target[q] == x;
                        assert(old_target.push(h@)[q] == x);
                    } else {
                        assert(x == h@);
                        assert(old_target.push(h@)[old_target.len() as int] == x);
                    }
                }
            }
            j = j + 1;
        }
        assert(views(hs@).take(j as int) =~= views(hs@));
        assert(s.take(i + 1).drop_last() =~= s.take(i as int));
        assert(all_hashes(s.take(i + 1)) == prefix + s[i as int].1.chunk_hashes);
        i = i + 1;
    }
    assert(s.take(i as int) =~= s);
    proof {
        lemma_to_map_char(s);
        assert forall|h: Seq<char>| views(out@).contains(h) <==> referenced(manifest@, h) by {
            lemma_all_hashes_contains(s, h);
            if views(out@).contains(h) {
                let i = choose|i: int| 0 <= i < s.len() && (#[trigger] s[i]).1.chunk_hashes.contains(h);
                assert(manifest@.contains_key(s[i].0));
            }
            if referenced(manifest@, h) {
                let p = choose|p: Seq<char>| #[trigger] manifest@.contains_key(p) && manifest@[p].chunk_hashes.contains(h);
                let i = choose|i: int| 0 <= i < s.len() && s[i].0 == p;
                assert(s[i].1.chunk_hashes.contains(h));
            }
        }
    }
    out
}

} // verus!

//! The manifest CRDT: an OR-Set of `path -> entry`, last-writer-wins by HLC
//! per path, with conflict-copy retention when two writes to the same path
//! carry the same HLC but different content.
//!
//! A file's content is an ordered list of content-defined-chunk hashes
//! (hex-encoded BLAKE3), not one whole-file hash.
use vstd::prelude::*;
use vstd::string::*;
use vstd::utf8::*;

use crate::hlc::{hlc_lt, Hlc};
use crate::strings::{join, join_strings, str_ge, str_ge_exec, utf8, views};

verus! {

broadcast use vstd::utf8::group_utf8_lib;

#[derive(Debug, Clone, PartialEq, Eq)]
pub struct Entry {
    /// Ordered content-defined-chunk hashes making up this file's bytes.
    pub chunk_hashes: Vec<String>,
    pub size: u64,
    pub hlc: Hlc,
    pub author_pubkey: String,
    pub tombstone: bool,
}

/// What an entry says, as plain values.
pub struct EntryView {
    pub chunk_hashes: Seq<Seq<char>>,
    pub size: u64,
    pub hlc: Hlc,
    pub author: Seq<char>,
    pub tombstone: bool,
}

impl View for Entry {
    type V = EntryView;

    open spec fn view(&self) -> EntryView {
        EntryView {
            chunk_hashes: views(self.chunk_hashes@),
            size: self.size,
            hlc: self.hlc,
            author: self.author_pubkey@,
            tombstone: self.tombstone,
        }
    }
}

/// The separator of a content key.
pub open spec fn comma() -> Seq<char> {
    seq![',']
}

/// Deterministic ordering key over an entry's chunk list, used only to pick
/// the primary side of a true conflict.
pub open spec fn content_key(e: EntryView) -> Seq<char> {
    join(e.chunk_hashes, comma())
}

/// The infix of a conflict-copy path.
pub open spec fn conflict_infix() -> Seq<char> {
    seq!['.', 'c', 'o', 'n', 'f', 'l', 'i', 'c', 't', '-']
}

/// How many bytes of an author key name a conflict copy: at most 8.
pub open spec fn author_cut(author: Seq<char>) -> int {
    if utf8(author).len() < 8 {
        utf8(author).len() as int
    } else {
        8
    }
}

/// The author key can be cut at `author_cut` bytes: the cut falls on a
/// character boundary.
pub open spec fn author_cuttable(author: Seq<char>) -> bool {
    is_char_boundary(utf8(author), author_cut(author))
}

/// The first `author_cut` bytes of the author key, as text.
pub open spec fn author_short(author: Seq<char>) -> Seq<char> {
    decode_utf8(utf8(author).take(author_cut(author)))
}

/// Where the losing side of a true conflict on `path` is kept.
pub open spec fn conflict_path(path: Seq<char>, loser_author: Seq<char>) -> Seq<char> {
    path + conflict_infix() + author_short(loser_author)
}

/// Two writes to one path are truly concurrent: the same HLC, different content.
pub open spec fn truly_concurrent(a: EntryView, b: EntryView) -> bool {
    a.hlc == b.hlc && a != b
}

/// On a true conflict, the incoming entry wins when it is not smaller than
/// the existing one in the tie order: content key first, then author key,
/// then size, then a tombstone above a live entry.
pub open spec fn incoming_wins_tie(incoming: EntryView, existing: EntryView) -> bool {
    if content_key(incoming) != content_key(existing) {
        str_ge(content_key(incoming), content_key(existing))
    } else if incoming.author != existing.author {
        str_ge(incoming.author, existing.author)
    } else if incoming.size != existing.size {
        incoming.size > existing.size
    } else {
        incoming.tombstone || !existing.tombstone
    }
}

/// Two entries that the tie order tells apart: they differ in content key,
/// author key, size or deletion. (Entries that differ only in chunk lists
/// with the same content key are not told apart.)
pub open spec fn tie_separable(a: EntryView, b: EntryView) -> bool {
    content_key(a) != content_key(b) || a.author != b.author || a.size != b.size || a.tombstone
        != b.tombstone
}

/// Of two entries that the tie order tells apart, exactly one wins the tie,
/// whichever side is the incoming one.
pub proof fn lemma_tie_order(a: EntryView, b: EntryView)
    ensures
        tie_separable(a, b) ==> (incoming_wins_tie(a, b) <==> !incoming_wins_tie(b, a)),
{
    crate::strings::lemma_str_ge_total(content_key(a), content_key(b));
    crate::strings::lemma_str_ge_total(a.author, b.author);
}

/// The manifest, as a map, after applying one incoming entry at `path`.
pub open spec fn apply_spec(
    m: Map<Seq<char>, EntryView>,
    path: Seq<char>,
    incoming: EntryView,
) -> Map<Seq<char>, EntryView> {
    if !m.contains_key(path) {
        m.insert(path, incoming)
    } else {
        let existing = m[path];
        if hlc_lt(existing.hlc, incoming.hlc) {
            m.insert(path, incoming)
        } else if truly_concurrent(incoming, existing) {
            let w = if incoming_wins_tie(incoming, existing) {
                incoming
            } else {
                existing
            };
            let l = if incoming_wins_tie(incoming, existing) {
                existing
            } else {
                incoming
            };
            let cp = conflict_path(path, l.author);
            let m1 = m.insert(path, w);
            if m1.contains_key(cp) {
                m1
            } else {
                m1.insert(cp, l)
            }
        } else {
            m
        }
    }
}

/// The loser of a true conflict between an incoming and an existing entry.
pub open spec fn tie_loser(incoming: EntryView, existing: EntryView) -> EntryView {
    if incoming_wins_tie(incoming, existing) {
        existing
    } else {
        incoming
    }
}

/// Applying `incoming` at `path` is defined: unless it truly conflicts with
/// the stored entry, always; on a true conflict, when the loser's author key
/// can be cut for the conflict-copy name.
pub open spec fn apply_defined(
    m: Map<Seq<char>, EntryView>,
    path: Seq<char>,
    incoming: EntryView,
) -> bool {
    m.contains_key(path) && truly_concurrent(incoming, m[path]) ==> author_cuttable(
        tie_loser(incoming, m[path]).author,
    )
}

/// Applying `(path, entry)` pairs in order is defined at every step.
pub open spec fn apply_all_defined(
    m: Map<Seq<char>, EntryView>,
    s: Seq<(Seq<char>, EntryView)>,
) -> bool
    decreases s.len(),
{
    if s.len() == 0 {
        true
    } else {
        apply_all_defined(m, s.drop_last()) && apply_defined(
            apply_all(m, s.drop_last()),
            s.last().0,
            s.last().1,
        )
    }
}

proof fn lemma_defined_prefix(m: Map<Seq<char>, EntryView>, s: Seq<(Seq<char>, EntryView)>, j: int)
    requires
        apply_all_defined(m, s),
        0 <= j <= s.len(),
    ensures
        apply_all_defined(m, s.take(j)),
    decreases s.len(),
{
    if j == s.len() {
        assert(s.take(j) =~= s);
    } else {
        lemma_defined_prefix(m, s.drop_last(), j);
        assert(s.drop_last().take(j) =~= s.take(j));
    }
}

/// Applying a sequence of `(path, entry)` pairs, in order.
pub open spec fn apply_all(
    m: Map<Seq<char>, EntryView>,
    s: Seq<(Seq<char>, EntryView)>,
) -> Map<Seq<char>, EntryView>
    decreases s.len(),
{
    if s.len() == 0 {
        m
    } else {
        let prev = apply_all(m, s.drop_last());
        apply_spec(prev, s.last().0, s.last().1)
    }
}

/// The map a sequence of pairs describes (a later pair overrides an earlier).
pub open spec fn to_map<V>(s: Seq<(Seq<char>, V)>) -> Map<Seq<char>, V>
    decreases s.len(),
{
    if s.len() == 0 {
        Map::empty()
    } else {
        to_map(s.drop_last()).insert(s.last().0, s.last().1)
    }
}

/// No path occurs twice.
pub open spec fn keys_distinct<V>(s: Seq<(Seq<char>, V)>) -> bool {
    forall|i: int, j: int| 0 <= i < j < s.len() ==> s[i].0 != s[j].0
}

/// The paths whose entries are live (not tombstones).
pub open spec fn live_paths(m: Map<Seq<char>, EntryView>) -> Set<Seq<char>> {
    m.dom().filter(|p: Seq<char>| !m[p].tombstone)
}

/// The number of live entries in a sequence of pairs.
pub open spec fn count_live(s: Seq<(Seq<char>, EntryView)>) -> nat
    decreases s.len(),
{
    if s.len() == 0 {
        0
    } else {
        count_live(s.drop_last()) + if s.last().1.tombstone {
            0nat
        } else {
            1nat
        }
    }
}

pub proof fn lemma_to_map_char<V>(s: Seq<(Seq<char>, V)>)
    requires
        keys_distinct(s),
    ensures
        forall|i: int| #![trigger s[i]] 0 <= i < s.len() ==> to_map(s).contains_key(s[i].0)
            && to_map(s)[s[i].0] == s[i].1,
        forall|k: Seq<char>| #[trigger]
            to_map(s).contains_key(k) ==> exists|i: int| 0 <= i < s.len() && s[i].0 == k,
        to_map(s).dom().finite(),
    decreases s.len(),
{
    if s.len() > 0 {
        let t = s.drop_last();
        assert(keys_distinct(t));
        lemma_to_map_char(t);
        assert forall|k: Seq<char>| #[trigger] to_map(s).contains_key(k) implies exists|i: int|
            0 <= i < s.len() && s[i].0 == k by {
            if k != s.last().0 {
                let i = choose|i: int| 0 <= i < t.len() && t[i].0 == k;
                assert(s[i] == t[i]);
            }
        }
        assert forall|i: int| #![trigger s[i]] 0 <= i < s.len() implies to_map(s).contains_key(
            s[i].0,
        ) && to_map(s)[s[i].0] == s[i].1 by {
            if i < s.len() - 1 {
                assert(s[i] == t[i]);
            }
        }
    }
}

pub proof fn lemma_to_map_update<V>(s: Seq<(Seq<char>, V)>, i: int, v: V)
    requires
        keys_distinct(s),
        0 <= i < s.len(),
    ensures
        keys_distinct(s.update(i, (s[i].0, v))),
        to_map(s.update(i, (s[i].0, v))) == to_map(s).insert(s[i].0, v),
{
    let u = s.update(i, (s[i].0, v));
    assert(keys_distinct(u)) by {
        assert forall|a: int, b: int| 0 <= a < b < u.len() implies u[a].0 != u[b].0 by {
            assert(u[a].0 == s[a].0);
            assert(u[b].0 == s[b].0);
        }
    }
    lemma_to_map_char(s);
    lemma_to_map_char(u);
    let m1 = to_map(u);
    let m2 = to_map(s).insert(s[i].0, v);
    assert forall|k: Seq<char>| m1.contains_key(k) <==> m2.contains_key(k) by {
        if m1.contains_key(k) {
            let j = choose|j: int| 0 <= j < u.len() && u[j].0 == k;
            assert(u[j].0 == s[j].0);
            assert(s[j] == s[j]);
        }
        if m2.contains_key(k) && k != s[i].0 {
            let j = choose|j: int| 0 <= j < s.len() && s[j].0 == k;
            assert(u[j] == u[j]);
        }
        if k == s[i].0 {
            assert(u[i] == u[i]);
        }
    }
    assert forall|k: Seq<char>| m1.contains_key(k) implies m1[k] == m2[k] by {
        let j = choose|j: int| 0 <= j < u.len() && u[j].0 == k;
        assert(u[j] == u[j]);
        assert(s[j] == s[j]);
    }
    assert(m1 =~= m2);
}

pub proof fn lemma_to_map_push<V>(s: Seq<(Seq<char>, V)>, k: Seq<char>, v: V)
    requires
        keys_distinct(s),
        !to_map(s).contains_key(k),
    ensures
        keys_distinct(s.push((k, v))),
        to_map(s.push((k, v))) == to_map(s).insert(k, v),
{
    lemma_to_map_char(s);
    let p = s.push((k, v));
    assert forall|a: int, b: int| 0 <= a < b < p.len() implies p[a].0 != p[b].0 by {
        if b == s.len() {
            assert(s[a] == s[a]);
        } else {
            assert(p[a] == s[a] && p[b] == s[b]);
        }
    }
    assert(p.drop_last() =~= s);
}

proof fn lemma_live_count(s: Seq<(Seq<char>, EntryView)>)
    requires
        keys_distinct(s),
    ensures
        live_paths(to_map(s)).finite(),
        live_paths(to_map(s)).len() == count_live(s),
    decreases s.len(),
{
    if s.len() == 0 {
        assert(live_paths(to_map(s)) =~= Set::empty());
    } else {
        let t = s.drop_last();
        assert(keys_distinct(t));
        lemma_live_count(t);
        lemma_to_map_char(t);
        lemma_to_map_char(s);
        let k = s.last().0;
        assert(!to_map(t).contains_key(k)) by {
            if to_map(t).contains_key(k) {
                let i = choose|i: int| 0 <= i < t.len() && t[i].0 == k;
                assert(s[i] == t[i]);
            }
        }
        let lt = live_paths(to_map(t));
        let ls = live_paths(to_map(s));
        if s.last().1.tombstone {
            assert(ls =~= lt);
        } else {
            assert(ls =~= lt.insert(k));
        }
    }
}

/// A conflict-copy path is never the path it was made from.
proof fn lemma_conflict_path_differs(path: Seq<char>, author: Seq<char>)
    ensures
        conflict_path(path, author) != path,
{
    assert(conflict_path(path, author).len() > path.len());
}

impl Entry {
    /// Deterministic ordering key over the chunk list.
    fn content_key(&self) -> (r: String)
        ensures
            r@ == content_key(self@),
    {
        let sep = ",";
        proof {
            reveal_strlit(",");
        }
        assert(sep@ =~= comma());
        join_strings(&self.chunk_hashes, sep)
    }

    /// Whether this entry, arriving, wins a true conflict against `existing`.
    fn wins_tie_against(&self, existing: &Entry) -> (r: bool)
        ensures
            r == incoming_wins_tie(self@, existing@),
    {
        let ik = self.content_key();
        let ek = existing.content_key();
        proof {
            crate::strings::lemma_str_ge_total(ik@, ek@);
            crate::strings::lemma_str_ge_total(self.author_pubkey@, existing.author_pubkey@);
        }
        let i_ge = str_ge_exec(ik.as_str(), ek.as_str());
        let e_ge = str_ge_exec(ek.as_str(), ik.as_str());
        if !(i_ge && e_ge) {
            return i_ge;
        }
        let ia = str_ge_exec(self.author_pubkey.as_str(), existing.author_pubkey.as_str());
        let ea = str_ge_exec(existing.author_pubkey.as_str(), self.author_pubkey.as_str());
        if !(ia && ea) {
            return ia;
        }
        if self.size != existing.size {
            return self.size > existing.size;
        }
        self.tombstone || !existing.tombstone
    }

    /// Field-by-field equality, as `==` on entries decides it.
    pub fn same_as(&self, other: &Entry) -> (r: bool)
        ensures
            r == (self@ == other@),
    {
        if self.size != other.size || self.tombstone != other.tombstone {
            return false;
        }
        if self.hlc != other.hlc {
            return false;
        }
        if !(self.author_pubkey == other.author_pubkey) {
            return false;
        }
        if self.chunk_hashes.len() != other.chunk_hashes.len() {
            assert(self@.chunk_hashes.len() != other@.chunk_hashes.len());
            return false;
        }
        let mut i: usize = 0;
        while i < self.chunk_hashes.len()
            invariant
                i <= self.chunk_hashes@.len(),
                self.chunk_hashes@.len() == other.chunk_hashes@.len(),
                forall|j: int| 0 <= j < i ==> self.chunk_hashes@[j]@ == other.chunk_hashes@[j]@,
            decreases self.chunk_hashes@.len() - i,
        {
            if !(self.chunk_hashes[i] == other.chunk_hashes[i]) {
                assert(self@.chunk_hashes[i as int] != other@.chunk_hashes[i as int]);
                return false;
            }
            i = i + 1;
        }
        assert(self@.chunk_hashes =~= other@.chunk_hashes);
        true
    }

    /// A copy with the same view.
    pub fn duplicate(&self) -> (r: Entry)
        ensures
            r@ == self@,
    {
        let mut hs: Vec<String> = Vec::new();
        let mut i: usize = 0;
        while i < self.chunk_hashes.len()
            invariant
                i <= self.chunk_hashes@.len(),
                hs@.len() == i,
                forall|j: int| 0 <= j < i ==> hs@[j]@ == self.chunk_hashes@[j]@,
            decreases self.chunk_hashes@.len() - i,
        {
            hs.push(self.chunk_hashes[i].clone());
            i = i + 1;
        }
        let r = Entry {
            chunk_hashes: hs,
            size: self.size,
            hlc: self.hlc,
            author_pubkey: self.author_pubkey.clone(),
            tombstone: self.tombstone,
        };
        assert(r@.chunk_hashes =~= self@.chunk_hashes);
        r
    }
}

/// The path that keeps the losing side of a true conflict on `path`.
fn make_conflict_path(path: &String, author: &String) -> (r: String)
    requires
        author_cuttable(author@),
    ensures
        r@ == conflict_path(path@, author@),
{
    let a = author.as_str();
    assert(a.spec_bytes() == utf8(author@));
    let byte_len = a.as_bytes().len();
    let n: usize = if byte_len < 8 {
        byte_len
    } else {
        8
    };
    assert(n == author_cut(author@));
    let (short, _rest) = a.split_at(n);
    proof {
        encode_utf8_decode_utf8(short@);
        assert(short.spec_bytes() =~= utf8(author@).take(author_cut(author@)));
        assert(short@ == author_short(author@));
    }
    let mut out = path.clone();
    let infix = ".conflict-";
    proof {
        reveal_strlit(".conflict-");
    }
    assert(infix@ =~= conflict_infix());
    out.append(infix);
    out.append(short);
    out
}

/// The views of `(path, entry)` pairs.
pub open spec fn pairs_view(v: Seq<(String, Entry)>) -> Seq<(Seq<char>, EntryView)> {
    v.map_values(|p: (String, Entry)| (p.0@, p.1@))
}

#[derive(Debug, Clone)]
pub struct Manifest {
    entries: Vec<(String, Entry)>,
}

impl Manifest {
    /// The stored `(path, entry)` pairs, in the order they were first stored.
    pub closed spec fn entry_seq(&self) -> Seq<(Seq<char>, EntryView)> {
        pairs_view(self.entries@)
    }

    /// No path is stored twice.
    pub closed spec fn wf(&self) -> bool {
        keys_distinct(self.entry_seq())
    }
}

impl View for Manifest {
    type V = Map<Seq<char>, EntryView>;

    open spec fn view(&self) -> Map<Seq<char>, EntryView> {
        to_map(self.entry_seq())
    }
}


impl Manifest {
    /// An empty manifest.
    pub fn new() -> (m: Manifest)
        ensures
            m.wf(),
            m@ == Map::<Seq<char>, EntryView>::empty(),
    {
        let m = Manifest { entries: Vec::new() };
        assert(m.entry_seq() =~= Seq::empty());
        m
    }

    /// Where `path` is stored, if anywhere.
    fn find(&self, path: &String) -> (r: Option<usize>)
        requires
            self.wf(),
        ensures
            match r {
                Some(i) => i < self.entry_seq().len() && self.entry_seq()[i as int].0 == path@,
                None => !self@.contains_key(path@),
            },
    {
        proof {
            lemma_to_map_char(self.entry_seq());
        }
        let mut i: usize = 0;
        while i < self.entries.len()
            invariant
                i <= self.entries@.len(),
                self.entry_seq().len() == self.entries@.len(),
                forall|j: int| 0 <= j < i ==> self.entry_seq()[j].0 != path@,
            decreases self.entries@.len() - i,
        {
            if self.entries[i].0 == *path {
                return Some(i);
            }
            i = i + 1;
        }
        None
    }

    /// Fold one incoming entry into the manifest at `path`: the later HLC
    /// wins; on a true conflict both sides are kept, the loser under a
    /// conflict-copy path.
    fn apply(&mut self, path: String, incoming: Entry)
        requires
            old(self).wf(),
            apply_defined(old(self)@, path@, incoming@),
        ensures
            final(self).wf(),
            final(self)@ == apply_spec(old(self)@, path@, incoming@),
    {
        proof {
            lemma_to_map_char(self.entry_seq());
        }
        match self.find(&path) {
            None => {
                proof {
                    lemma_to_map_push(self.entry_seq(), path@, incoming@);
                }
                self.entries.push((path, incoming));
                assert(self.entry_seq() =~= old(self).entry_seq().push((path@, incoming@)));
            },
            Some(i) => {
                let ghost s = self.entry_seq();
                assert(s[i as int] == s[i as int]);
                if incoming.hlc.is_after(&self.entries[i].1.hlc) {
                    proof {
                        lemma_to_map_update(s, i as int, incoming@);
                    }
                    self.entries.set(i, (path, incoming));
                    assert(self.entry_seq() =~= s.update(i as int, (path@, incoming@)));
                } else if incoming.hlc == self.entries[i].1.hlc && !incoming.same_as(
                    &self.entries[i].1,
                ) {
                    let existing = self.entries[i].1.duplicate();
                    let incoming_wins = incoming.wins_tie_against(&existing);
                    let (winner, loser) = if incoming_wins {
                        (incoming, existing)
                    } else {
                        (existing, incoming)
                    };
                    let cp = make_conflict_path(&path, &loser.author_pubkey);
                    proof {
                        lemma_to_map_update(s, i as int, winner@);
                        lemma_conflict_path_differs(path@, loser@.author);
                    }
                    self.entries.set(i, (path, winner));
                    assert(self.entry_seq() =~= s.update(i as int, (s[i as int].0, winner@)));
                    let ghost s1 = self.entry_seq();
                    match self.find(&cp) {
                        None => {
                            proof {
                                lemma_to_map_push(s1, cp@, loser@);
                            }
                            self.entries.push((cp, loser));
                            assert(self.entry_seq() =~= s1.push((cp@, loser@)));
                        },
                        Some(_) => {},
                    }
                }
            },
        }
    }
}


impl Manifest {
    /// Record `entry` at `path`, resolving against what is already there.
    pub fn put(&mut self, path: &str, entry: Entry)
        requires
            old(self).wf(),
            apply_defined(old(self)@, path@, entry@),
        ensures
            final(self).wf(),
            final(self)@ == apply_spec(old(self)@, path@, entry@),
    {
        self.apply(path.to_owned(), entry);
    }

    /// The live (non-tombstoned) entry at `path`, if any.
    pub fn get(&self, path: &str) -> (r: Option<&Entry>)
        requires
            self.wf(),
        ensures
            match r {
                Some(e) => self@.contains_key(path@) && e@ == self@[path@] && !e@.tombstone,
                None => !self@.contains_key(path@) || self@[path@].tombstone,
            },
    {
        let key = path.to_owned();
        proof {
            lemma_to_map_char(self.entry_seq());
        }
        match self.find(&key) {
            None => None,
            Some(i) => {
                assert(self.entry_seq()[i as int] == self.entry_seq()[i as int]);
                if self.entries[i].1.tombstone {
                    None
                } else {
                    Some(&self.entries[i].1)
                }
            },
        }
    }

    /// The number of live (non-tombstoned) entries.
    pub fn len(&self) -> (r: usize)
        requires
            self.wf(),
        ensures
            r == live_paths(self@).len(),
    {
        proof {
            lemma_live_count(self.entry_seq());
        }
        let mut n: usize = 0;
        let mut i: usize = 0;
        while i < self.entries.len()
            invariant
                i <= self.entries@.len(),
                self.entry_seq().len() == self.entries@.len(),
                n == count_live(self.entry_seq().take(i as int)),
                n <= i,
            decreases self.entries@.len() - i,
        {
            assert(self.entry_seq().take(i + 1).drop_last() =~= self.entry_seq().take(i as int));
            if !self.entries[i].1.tombstone {
                n = n + 1;
            }
            i = i + 1;
        }
        assert(self.entry_seq().take(i as int) =~= self.entry_seq());
        n
    }

    /// No live entries.
    pub fn is_empty(&self) -> (r: bool)
        requires
            self.wf(),
        ensures
            r == (live_paths(self@).len() == 0),
    {
        self.len() == 0
    }

    /// Merge a remote manifest into this one: each remote `(path, entry)`
    /// pair is applied in turn. When the two manifests hold no truly
    /// concurrent pair of writes to one path, the result is the per-path
    /// later-HLC join of the two. When they do, but each conflict can keep
    /// its loser on a free copy path of its own, the result is the conflict
    /// join: the same whichever manifest is merged into the other. Merging
    /// the same manifest again is always admitted and changes nothing.
    pub fn merge(&mut self, other: &Manifest)
        requires
            old(self).wf(),
            other.wf(),
            apply_all_defined(old(self)@, other.entry_seq()),
        ensures
            final(self).wf(),
            final(self)@ == apply_all(old(self)@, other.entry_seq()),
            no_true_conflicts(old(self)@, other@) ==> final(self)@ == lww_join(
                old(self)@,
                other@,
            ),
            merge_safe(old(self)@, other@) ==> final(self)@ == conflict_join(old(self)@, other@),
            apply_all_defined(final(self)@, other.entry_seq()),
            apply_all(final(self)@, other.entry_seq()) == final(self)@,
    {
        let ghost s = other.entry_seq();
        let mut i: usize = 0;
        while i < other.entries.len()
            invariant
                other.wf(),
                s == other.entry_seq(),
                s.len() == other.entries@.len(),
                i <= s.len(),
                self.wf(),
                self@ == apply_all(old(self)@, s.take(i as int)),
                apply_all_defined(old(self)@, s),
            decreases s.len() - i,
        {
            let path = other.entries[i].0.clone();
            let entry = other.entries[i].1.duplicate();
            assert(s[i as int] == (path@, entry@));
            proof {
                lemma_defined_prefix(old(self)@, s, i + 1);
                assert(s.take(i + 1).drop_last() =~= s.take(i as int));
            }
            self.apply(path, entry);
            assert(s.take(i + 1).drop_last() =~= s.take(i as int));
            i = i + 1;
        }
        assert(s.take(s.len() as int) =~= s);
        proof {
            if no_true_conflicts(old(self)@, other@) {
                lemma_apply_all_is_join(old(self)@, s);
            }
            if merge_safe(old(self)@, other@) {
                lemma_apply_all_is_conflict_join(old(self)@, s);
            }
            law_merge_again(old(self)@, s);
        }
    }
}

impl Manifest {
    /// A copy of every stored `(path, entry)` pair, tombstones included, in
    /// stored order.
    pub fn snapshot(&self) -> (r: Vec<(String, Entry)>)
        requires
            self.wf(),
        ensures
            pairs_view(r@) == self.entry_seq(),
            keys_distinct(pairs_view(r@)),
            to_map(pairs_view(r@)) == self@,
    {
        let mut out: Vec<(String, Entry)> = Vec::new();
        let mut i: usize = 0;
        while i < self.entries.len()
            invariant
                i <= self.entries@.len(),
                pairs_view(out@) == self.entry_seq().take(i as int),
            decreases self.entries@.len() - i,
        {
            let p = self.entries[i].0.clone();
            let e = self.entries[i].1.duplicate();
            let ghost old_out = out@;
            out.push((p, e));
            assert(self.entry_seq()[i as int] == (p@, e@));
            assert(pairs_view(out@) =~= pairs_view(old_out).push((p@, e@)));
            assert(pairs_view(out@) =~= self.entry_seq().take(i + 1));
            i = i + 1;
        }
        assert(self.entry_seq().take(i as int) =~= self.entry_seq());
        out
    }
}

/// Whether an author key can be cut for a conflict-copy name.
fn author_can_be_cut(author: &String) -> (r: bool)
    ensures
        r == author_cuttable(author@),
{
    let a = author.as_str();
    assert(a.spec_bytes() == utf8(author@));
    let byte_len = a.as_bytes().len();
    let n: usize = if byte_len < 8 {
        byte_len
    } else {
        8
    };
    a.is_char_boundary(n)
}

impl Manifest {
    /// Whether putting `entry` at `path` is defined: it is, unless it truly
    /// conflicts with the stored entry and the losing side's author key
    /// cannot be cut on a character boundary for the conflict-copy name.
    pub fn can_put(&self, path: &str, entry: &Entry) -> (r: bool)
        requires
            self.wf(),
        ensures
            r == apply_defined(self@, path@, entry@),
            !(self@.contains_key(path@) && self@[path@].hlc == entry@.hlc && self@[path@]
                != entry@) ==> r,
    {
        proof {
            lemma_to_map_char(self.entry_seq());
        }
        let key = path.to_owned();
        match self.find(&key) {
            None => true,
            Some(i) => {
                assert(self.entry_seq()[i as int] == self.entry_seq()[i as int]);
                let existing = &self.entries[i].1;
                if existing.hlc == entry.hlc && !entry.same_as(existing) {
                    if entry.wins_tie_against(existing) {
                        author_can_be_cut(&existing.author_pubkey)
                    } else {
                        author_can_be_cut(&entry.author_pubkey)
                    }
                } else {
                    true
                }
            },
        }
    }

    /// A copy with the same stored pairs.
    pub fn copy(&self) -> (r: Manifest)
        requires
            self.wf(),
        ensures
            r.wf(),
            r.entry_seq() == self.entry_seq(),
            r@ == self@,
    {
        Manifest { entries: self.snapshot() }
    }

    /// Whether merging `other` into this manifest is defined at every step.
    pub fn can_merge(&self, other: &Manifest) -> (r: bool)
        requires
            self.wf(),
            other.wf(),
        ensures
            r == apply_all_defined(self@, other.entry_seq()),
            (forall|p: Seq<char>| #[trigger]
                self@.contains_key(p) && other@.contains_key(p) ==> !(self@[p].hlc == other@[p].hlc
                    && self@[p] != other@[p])) ==> r,
    {
        proof {
            if forall|p: Seq<char>| #[trigger]
                self@.contains_key(p) && other@.contains_key(p) ==> !(self@[p].hlc == other@[p].hlc
                    && self@[p] != other@[p]) {
                law_merge_without_ties_admitted(self@, other.entry_seq());
            }
        }
        let ghost s = other.entry_seq();
        let mut m = self.copy();
        let mut i: usize = 0;
        while i < other.entries.len()
            invariant
                other.wf(),
                s == other.entry_seq(),
                s.len() == other.entries@.len(),
                i <= s.len(),
                m.wf(),
                m@ == apply_all(self@, s.take(i as int)),
                apply_all_defined(self@, s.take(i as int)),
                (forall|p: Seq<char>| #[trigger]
                    self@.contains_key(p) && other@.contains_key(p) ==> !(self@[p].hlc
                        == other@[p].hlc && self@[p] != other@[p])) ==> apply_all_defined(self@, s),
            decreases s.len() - i,
        {
            assert(s.take(i + 1).drop_last() =~= s.take(i as int));
            assert(s[i as int] == (other.entries@[i as int].0@, other.entries@[i as int].1@));
            if !m.can_put(other.entries[i].0.as_str(), &other.entries[i].1) {
                proof {
                    if apply_all_defined(self@, s) {
                        lemma_defined_prefix(self@, s, i + 1);
                    }
                }
                return false;
            }
            let path = other.entries[i].0.clone();
            let entry = other.entries[i].1.duplicate();
            m.apply(path, entry);
            i = i + 1;
        }
        assert(s.take(s.len() as int) =~= s);
        true
    }
}

impl Default for Manifest {
    /// An empty manifest.
    fn default() -> (m: Manifest)
        ensures
            m.wf(),
            m@ == Map::<Seq<char>, EntryView>::empty(),
    {
        Manifest::new()
    }
}

/// No path holds truly concurrent writes on the two sides.
pub open spec fn no_true_conflicts(a: Map<Seq<char>, EntryView>, b: Map<Seq<char>, EntryView>) -> bool {
    forall|p: Seq<char>|
        #![trigger a[p], b[p]]
        a.contains_key(p) && b.contains_key(p) ==> !truly_concurrent(a[p], b[p])
}

/// The per-path last-writer-wins join: every path of either side, holding
/// the entry with the later HLC (the left one when neither is later).
pub open spec fn lww_join(a: Map<Seq<char>, EntryView>, b: Map<Seq<char>, EntryView>) -> Map<
    Seq<char>,
    EntryView,
> {
    Map::new(
        |p: Seq<char>| a.contains_key(p) || b.contains_key(p),
        |p: Seq<char>|
            if !b.contains_key(p) {
                a[p]
            } else if !a.contains_key(p) {
                b[p]
            } else if hlc_lt(a[p].hlc, b[p].hlc) {
                b[p]
            } else {
                a[p]
            },
    )
}

proof fn lemma_apply_all_is_join(m: Map<Seq<char>, EntryView>, s: Seq<(Seq<char>, EntryView)>)
    requires
        keys_distinct(s),
        no_true_conflicts(m, to_map(s)),
    ensures
        apply_all(m, s) == lww_join(m, to_map(s)),
    decreases s.len(),
{
    if s.len() == 0 {
        assert(lww_join(m, to_map(s)) =~= m);
    } else {
        let t = s.drop_last();
        let (k, v) = s.last();
        assert(keys_distinct(t));
        lemma_to_map_char(t);
        lemma_to_map_char(s);
        assert(!to_map(t).contains_key(k)) by {
            if to_map(t).contains_key(k) {
                let i = choose|i: int| 0 <= i < t.len() && t[i].0 == k;
                assert(s[i] == t[i]);
            }
        }
        assert(to_map(s) == to_map(t).insert(k, v));
        assert(no_true_conflicts(m, to_map(t))) by {
            assert forall|p: Seq<char>|
                m.contains_key(p) && to_map(t).contains_key(p) implies !truly_concurrent(
                m[p],
                to_map(t)[p],
            ) by {
                assert(to_map(s)[p] == to_map(t)[p]);
            }
        }
        lemma_apply_all_is_join(m, t);
        let j = lww_join(m, to_map(t));
        if m.contains_key(k) {
            assert(m[k] == m[k] && to_map(s)[k] == v);
            assert(!truly_concurrent(m[k], v));
        }
        assert(apply_spec(j, k, v) =~= lww_join(m, to_map(s)));
    }
}

/// Law (idempotence): joining a manifest with itself changes nothing.
pub proof fn law_join_idempotent(a: Map<Seq<char>, EntryView>)
    ensures
        no_true_conflicts(a, a),
        lww_join(a, a) == a,
{
    assert(lww_join(a, a) =~= a);
}

/// Law (commutativity): with no truly concurrent writes between them, the
/// two orders of joining two manifests give the same manifest.
pub proof fn law_join_commutative(a: Map<Seq<char>, EntryView>, b: Map<Seq<char>, EntryView>)
    requires
        no_true_conflicts(a, b),
    ensures
        no_true_conflicts(b, a),
        lww_join(a, b) == lww_join(b, a),
{
    assert forall|p: Seq<char>| b.contains_key(p) && a.contains_key(p) implies !truly_concurrent(
        b[p],
        a[p],
    ) by {
        assert(!truly_concurrent(a[p], b[p]));
    }
    assert forall|p: Seq<char>| #[trigger]
        lww_join(a, b).contains_key(p) implies lww_join(a, b)[p] == lww_join(b, a)[p] by {
        if a.contains_key(p) && b.contains_key(p) {
            assert(!truly_concurrent(a[p], b[p]));
        }
    }
    assert(lww_join(a, b) =~= lww_join(b, a));
}

/// Law (associativity): with no truly concurrent writes between any two of
/// the three, the grouping of joins does not matter.
pub proof fn law_join_associative(
    a: Map<Seq<char>, EntryView>,
    b: Map<Seq<char>, EntryView>,
    c: Map<Seq<char>, EntryView>,
)
    requires
        no_true_conflicts(a, b),
        no_true_conflicts(b, c),
        no_true_conflicts(a, c),
    ensures
        no_true_conflicts(lww_join(a, b), c),
        no_true_conflicts(a, lww_join(b, c)),
        lww_join(lww_join(a, b), c) == lww_join(a, lww_join(b, c)),
{
    let ab = lww_join(a, b);
    let bc = lww_join(b, c);
    assert forall|p: Seq<char>| ab.contains_key(p) && c.contains_key(p) implies !truly_concurrent(
        ab[p],
        c[p],
    ) by {
        if a.contains_key(p) {
            assert(!truly_concurrent(a[p], c[p]));
        }
        if b.contains_key(p) {
            assert(!truly_concurrent(b[p], c[p]));
        }
    }
    assert forall|p: Seq<char>| a.contains_key(p) && bc.contains_key(p) implies !truly_concurrent(
        a[p],
        bc[p],
    ) by {
        if b.contains_key(p) {
            assert(!truly_concurrent(a[p], b[p]));
        }
        if c.contains_key(p) {
            assert(!truly_concurrent(a[p], c[p]));
        }
    }
    assert forall|p: Seq<char>| #[trigger]
        lww_join(ab, c).contains_key(p) implies lww_join(ab, c)[p] == lww_join(a, bc)[p] by {
        if a.contains_key(p) && b.contains_key(p) {
            assert(!truly_concurrent(a[p], b[p]));
        }
        if b.contains_key(p) && c.contains_key(p) {
            assert(!truly_concurrent(b[p], c[p]));
        }
        if a.contains_key(p) && c.contains_key(p) {
            assert(!truly_concurrent(a[p], c[p]));
        }
    }
    assert(lww_join(ab, c) =~= lww_join(a, bc));
}

/// Law (merge order does not matter): two manifests with no truly
/// concurrent writes between them reach the same state whichever is merged
/// into the other.
pub proof fn law_merge_order_independent(
    sa: Seq<(Seq<char>, EntryView)>,
    sb: Seq<(Seq<char>, EntryView)>,
)
    requires
        keys_distinct(sa),
        keys_distinct(sb),
        no_true_conflicts(to_map(sa), to_map(sb)),
    ensures
        apply_all(to_map(sa), sb) == apply_all(to_map(sb), sa),
{
    law_join_commutative(to_map(sa), to_map(sb));
    lemma_apply_all_is_join(to_map(sa), sb);
    lemma_apply_all_is_join(to_map(sb), sa);
}

/// Law (merging is idempotent): merging a manifest's own pairs into it
/// changes nothing.
pub proof fn law_merge_self(s: Seq<(Seq<char>, EntryView)>)
    requires
        keys_distinct(s),
    ensures
        apply_all(to_map(s), s) == to_map(s),
{
    law_join_idempotent(to_map(s));
    lemma_apply_all_is_join(to_map(s), s);
}

/// `p` holds truly concurrent writes on the two sides (`b` the incoming one).
pub open spec fn conflicting(a: Map<Seq<char>, EntryView>, b: Map<Seq<char>, EntryView>, p: Seq<char>) -> bool {
    a.contains_key(p) && b.contains_key(p) && truly_concurrent(b[p], a[p])
}

/// Where the loser of the conflict at `p` is kept.
pub open spec fn copy_path(a: Map<Seq<char>, EntryView>, b: Map<Seq<char>, EntryView>, p: Seq<char>) -> Seq<char> {
    conflict_path(p, tie_loser(b[p], a[p]).author)
}

/// `q` is where the loser of some conflict between the two sides is kept.
pub open spec fn is_copy_path(a: Map<Seq<char>, EntryView>, b: Map<Seq<char>, EntryView>, q: Seq<char>) -> bool {
    exists|p: Seq<char>| #[trigger] conflicting(a, b, p) && copy_path(a, b, p) == q
}

/// The conflicts between the two sides can be resolved without losing an
/// entry and without depending on order: the tie order tells the two sides
/// of each conflict apart, no copy path is a path of either side, and no two
/// conflicts share a copy path.
pub open spec fn merge_safe(a: Map<Seq<char>, EntryView>, b: Map<Seq<char>, EntryView>) -> bool {
    &&& forall|p: Seq<char>| #[trigger]
        conflicting(a, b, p) ==> tie_separable(a[p], b[p])
    &&& forall|p: Seq<char>| #[trigger]
        conflicting(a, b, p) ==> !a.contains_key(copy_path(a, b, p)) && !b.contains_key(
            copy_path(a, b, p),
        )
    &&& forall|p: Seq<char>, q: Seq<char>|
        #[trigger] conflicting(a, b, p) && #[trigger] conflicting(a, b, q) && copy_path(a, b, p)
            == copy_path(a, b, q) ==> p == q
}

/// The entry at a path of either side after joining: the later write, or on
/// a conflict the side that wins the tie order.
pub open spec fn join_at(a: Map<Seq<char>, EntryView>, b: Map<Seq<char>, EntryView>, q: Seq<char>) -> EntryView {
    if !b.contains_key(q) {
        a[q]
    } else if !a.contains_key(q) {
        b[q]
    } else if hlc_lt(a[q].hlc, b[q].hlc) {
        b[q]
    } else if truly_concurrent(b[q], a[q]) {
        if incoming_wins_tie(b[q], a[q]) {
            b[q]
        } else {
            a[q]
        }
    } else {
        a[q]
    }
}

/// The join with conflict copies: every path of either side with its joined
/// entry, and the loser of each conflict at its copy path.
pub open spec fn conflict_join(a: Map<Seq<char>, EntryView>, b: Map<Seq<char>, EntryView>) -> Map<
    Seq<char>,
    EntryView,
> {
    Map::new(
        |q: Seq<char>| a.contains_key(q) || b.contains_key(q) || is_copy_path(a, b, q),
        |q: Seq<char>|
            if a.contains_key(q) || b.contains_key(q) {
                join_at(a, b, q)
            } else {
                let p = choose|p: Seq<char>| #[trigger] conflicting(a, b, p) && copy_path(a, b, p) == q;
                tie_loser(b[p], a[p])
            },
    )
}

proof fn lemma_apply_all_is_conflict_join(m: Map<Seq<char>, EntryView>, s: Seq<(Seq<char>, EntryView)>)
    requires
        keys_distinct(s),
        merge_safe(m, to_map(s)),
    ensures
        apply_all(m, s) == conflict_join(m, to_map(s)),
    decreases s.len(),
{
    let sm = to_map(s);
    if s.len() == 0 {
        assert(conflict_join(m, sm) =~= m);
    } else {
        let t = s.drop_last();
        let (k, v) = s.last();
        assert(keys_distinct(t));
        lemma_to_map_char(t);
        lemma_to_map_char(s);
        let tm = to_map(t);
        assert(!tm.contains_key(k)) by {
            if tm.contains_key(k) {
                let i = choose|i: int| 0 <= i < t.len() && t[i].0 == k;
                assert(s[i] == t[i]);
            }
        }
        assert(sm == tm.insert(k, v));
        // The conflicts of `m` with `t` are those of `m` with `s` other than `k`.
        assert forall|p: Seq<char>| #[trigger] conflicting(m, tm, p) implies conflicting(m, sm, p)
            && p != k && copy_path(m, tm, p) == copy_path(m, sm, p) && tm[p] == sm[p] by {}
        assert(merge_safe(m, tm)) by {
            assert forall|p: Seq<char>, q: Seq<char>|
                #[trigger] conflicting(m, tm, p) && #[trigger] conflicting(m, tm, q) && copy_path(m, tm, p)
                    == copy_path(m, tm, q) implies p == q by {
                assert(conflicting(m, sm, p) && conflicting(m, sm, q));
            }
        }
        lemma_apply_all_is_conflict_join(m, t);
        let j = conflict_join(m, tm);
        let goal = conflict_join(m, sm);
        // `k` is no copy path: copy paths lie outside both sides.
        assert(!is_copy_path(m, sm, k));
        assert(!is_copy_path(m, tm, k)) by {
            if is_copy_path(m, tm, k) {
                let p = choose|p: Seq<char>| #[trigger] conflicting(m, tm, p) && copy_path(m, tm, p) == k;
                assert(conflicting(m, sm, p));
            }
        }
        assert(j.contains_key(k) == m.contains_key(k));
        if m.contains_key(k) {
            assert(j[k] == m[k]);
        }
        let r = apply_spec(j, k, v);
        lemma_conflict_path_differs(k, v.author);
        if m.contains_key(k) {
            lemma_conflict_path_differs(k, m[k].author);
        }
        assert forall|q: Seq<char>| #[trigger] goal.contains_key(q) implies r.contains_key(q) && r[q] == goal[q] by {
            if q == k {
            } else if m.contains_key(q) || tm.contains_key(q) {
                assert(j.contains_key(q));
                assert(sm.contains_key(q) == tm.contains_key(q));
                if tm.contains_key(q) {
                    assert(sm[q] == tm[q]);
                }
                assert(goal[q] == join_at(m, sm, q));
                assert(j[q] == join_at(m, tm, q));
            } else {
                let p = choose|p: Seq<char>| #[trigger] conflicting(m, sm, p) && copy_path(m, sm, p) == q;
                assert(goal[q] == tie_loser(sm[p], m[p]));
                if p == k {
                    assert(conflicting(m, sm, k));
                } else {
                    assert(conflicting(m, tm, p));
                    assert(is_copy_path(m, tm, q));
                    let p2 = choose|p2: Seq<char>| #[trigger] conflicting(m, tm, p2) && copy_path(m, tm, p2) == q;
                    assert(conflicting(m, sm, p2));
                    assert(p2 == p);
                    assert(j.contains_key(q));
                    assert(j[q] == tie_loser(tm[p], m[p]));
                    if conflicting(m, sm, k) {
                        assert(copy_path(m, sm, k) != q);
                    }
                }
            }
        }
        assert forall|q: Seq<char>| #[trigger] r.contains_key(q) implies goal.contains_key(q) by {
            if q != k && !m.contains_key(q) && !sm.contains_key(q) {
                if j.contains_key(q) {
                    assert(is_copy_path(m, tm, q));
                    let p = choose|p: Seq<char>| #[trigger] conflicting(m, tm, p) && copy_path(m, tm, p) == q;
                    assert(conflicting(m, sm, p));
                    assert(is_copy_path(m, sm, q));
                } else {
                    assert(conflicting(m, sm, k));
                    assert(is_copy_path(m, sm, q));
                }
            }
        }
        assert(r =~= goal);
    }
}

proof fn lemma_conflict_join_symmetric(a: Map<Seq<char>, EntryView>, b: Map<Seq<char>, EntryView>)
    requires
        merge_safe(a, b),
    ensures
        merge_safe(b, a),
        conflict_join(a, b) == conflict_join(b, a),
{
    assert forall|p: Seq<char>| #[trigger] conflicting(a, b, p) implies conflicting(b, a, p)
        && copy_path(a, b, p) == copy_path(b, a, p) && tie_loser(b[p], a[p]) == tie_loser(a[p], b[p])
        && (if incoming_wins_tie(b[p], a[p]) { b[p] } else { a[p] }) == (if incoming_wins_tie(a[p], b[p]) { a[p] } else { b[p] }) by {
        lemma_tie_order(a[p], b[p]);
    }
    assert forall|p: Seq<char>| #[trigger] conflicting(b, a, p) implies conflicting(a, b, p) by {}
    assert(merge_safe(b, a)) by {
        assert forall|p: Seq<char>, q: Seq<char>|
            #[trigger] conflicting(b, a, p) && #[trigger] conflicting(b, a, q) && copy_path(b, a, p)
                == copy_path(b, a, q) implies p == q by {
            assert(conflicting(a, b, p) && conflicting(a, b, q));
        }
    }
    let x = conflict_join(a, b);
    let y = conflict_join(b, a);
    assert forall|q: Seq<char>| #[trigger] x.contains_key(q) <==> y.contains_key(q) by {
        if is_copy_path(a, b, q) {
            let p = choose|p: Seq<char>| #[trigger] conflicting(a, b, p) && copy_path(a, b, p) == q;
            assert(conflicting(b, a, p));
        }
        if is_copy_path(b, a, q) {
            let p = choose|p: Seq<char>| #[trigger] conflicting(b, a, p) && copy_path(b, a, p) == q;
            assert(conflicting(a, b, p));
        }
    }
    assert forall|q: Seq<char>| #[trigger] x.contains_key(q) implies x[q] == y[q] by {
        if a.contains_key(q) || b.contains_key(q) {
            if a.contains_key(q) && b.contains_key(q) && truly_concurrent(b[q], a[q]) {
                assert(conflicting(a, b, q));
            }
        } else {
            let p1 = choose|p: Seq<char>| #[trigger] conflicting(a, b, p) && copy_path(a, b, p) == q;
            let p2 = choose|p: Seq<char>| #[trigger] conflicting(b, a, p) && copy_path(b, a, p) == q;
            assert(conflicting(a, b, p2));
            assert(p1 == p2);
        }
    }
    assert(x =~= y);
}

/// Law (merge order does not matter, with conflicts): when every truly
/// concurrent pair of writes is told apart by the tie order and its conflict
/// copy lands on a free path of its own, merging either manifest into the
/// other gives the same manifest: the conflict join of the two.
pub proof fn law_merge_order_independent_with_conflicts(
    sa: Seq<(Seq<char>, EntryView)>,
    sb: Seq<(Seq<char>, EntryView)>,
)
    requires
        keys_distinct(sa),
        keys_distinct(sb),
        merge_safe(to_map(sa), to_map(sb)),
    ensures
        merge_safe(to_map(sb), to_map(sa)),
        apply_all(to_map(sa), sb) == conflict_join(to_map(sa), to_map(sb)),
        apply_all(to_map(sa), sb) == apply_all(to_map(sb), sa),
{
    lemma_conflict_join_symmetric(to_map(sa), to_map(sb));
    lemma_apply_all_is_conflict_join(to_map(sa), sb);
    lemma_apply_all_is_conflict_join(to_map(sb), sa);
}

proof fn lemma_conflict_join_copies(a: Map<Seq<char>, EntryView>, b: Map<Seq<char>, EntryView>)
    requires
        merge_safe(a, b),
    ensures
        forall|p: Seq<char>| #[trigger] conflicting(a, b, p) ==> conflict_join(a, b).contains_key(
            copy_path(a, b, p),
        ) && conflict_join(a, b)[copy_path(a, b, p)] == tie_loser(b[p], a[p]),
{
    assert forall|p: Seq<char>| #[trigger] conflicting(a, b, p) implies conflict_join(a, b).contains_key(
        copy_path(a, b, p),
    ) && conflict_join(a, b)[copy_path(a, b, p)] == tie_loser(b[p], a[p]) by {
        let q = copy_path(a, b, p);
        assert(is_copy_path(a, b, q));
        let p2 = choose|p2: Seq<char>| #[trigger] conflicting(a, b, p2) && copy_path(a, b, p2) == q;
        assert(p2 == p);
    }
}

/// The entry a path keeps when `y` arrives where `x` is stored: the later
/// write, or on a true conflict the tie winner.
pub open spec fn pick(x: EntryView, y: EntryView) -> EntryView {
    if hlc_lt(x.hlc, y.hlc) {
        y
    } else if truly_concurrent(y, x) {
        if incoming_wins_tie(y, x) {
            y
        } else {
            x
        }
    } else {
        x
    }
}

/// Two entries that could meet in a true conflict are told apart by the tie
/// order.
pub open spec fn separable_if_concurrent(x: EntryView, y: EntryView) -> bool {
    truly_concurrent(x, y) ==> tie_separable(x, y)
}

proof fn lemma_tie_transitive(x: EntryView, y: EntryView, z: EntryView)
    requires
        tie_separable(x, y),
        tie_separable(y, z),
        tie_separable(x, z),
        incoming_wins_tie(x, y),
        incoming_wins_tie(y, z),
    ensures
        incoming_wins_tie(x, z),
{
    crate::strings::lemma_str_ge_total(content_key(x), content_key(y));
    crate::strings::lemma_str_ge_total(content_key(y), content_key(z));
    crate::strings::lemma_str_ge_total(content_key(x), content_key(z));
    crate::strings::lemma_str_ge_total(x.author, y.author);
    crate::strings::lemma_str_ge_total(y.author, z.author);
    crate::strings::lemma_str_ge_total(x.author, z.author);
    crate::strings::lemma_str_ge_transitive(content_key(x), content_key(y), content_key(z));
    crate::strings::lemma_str_ge_transitive(x.author, y.author, z.author);
}

proof fn lemma_pick_assoc(x: EntryView, y: EntryView, z: EntryView)
    requires
        separable_if_concurrent(x, y),
        separable_if_concurrent(y, z),
        separable_if_concurrent(x, z),
    ensures
        pick(pick(x, y), z) == pick(x, pick(y, z)),
{
    lemma_tie_order(x, y);
    lemma_tie_order(y, z);
    lemma_tie_order(x, z);
    if x.hlc == y.hlc && y.hlc == z.hlc && x != y && y != z && x != z {
        if incoming_wins_tie(x, y) && incoming_wins_tie(y, z) {
            lemma_tie_transitive(x, y, z);
        }
        if incoming_wins_tie(z, y) && incoming_wins_tie(y, x) {
            lemma_tie_transitive(z, y, x);
        }
        if incoming_wins_tie(y, x) && incoming_wins_tie(x, z) {
            lemma_tie_transitive(y, x, z);
        }
        if incoming_wins_tie(z, x) && incoming_wins_tie(x, y) {
            lemma_tie_transitive(z, x, y);
        }
        if incoming_wins_tie(x, z) && incoming_wins_tie(z, y) {
            lemma_tie_transitive(x, z, y);
        }
        if incoming_wins_tie(y, z) && incoming_wins_tie(z, x) {
            lemma_tie_transitive(y, z, x);
        }
    }
}

/// A true conflict between `x` and `y` at a path meets, on the third side
/// `z`, no later write and neither of its two entries: `z` holds the path
/// not at all, with an older write, or with a third concurrent write.
pub open spec fn third_side_fits(
    x: Map<Seq<char>, EntryView>,
    y: Map<Seq<char>, EntryView>,
    z: Map<Seq<char>, EntryView>,
) -> bool {
    forall|p: Seq<char>| #[trigger]
        conflicting(x, y, p) && z.contains_key(p) ==> {
            &&& !hlc_lt(x[p].hlc, z[p].hlc)
            &&& z[p].hlc == x[p].hlc ==> z[p] != x[p] && z[p] != y[p]
        }
}

/// The copy paths of the conflicts between `x` and `y` are not paths of `z`.
pub open spec fn copies_clear_of(
    x: Map<Seq<char>, EntryView>,
    y: Map<Seq<char>, EntryView>,
    z: Map<Seq<char>, EntryView>,
) -> bool {
    forall|q: Seq<char>| #[trigger] is_copy_path(x, y, q) ==> !z.contains_key(q)
}

/// A conflict of the pair `x, y` and one of the pair `u, v` share a copy
/// path only when they are at one path with one loser.
pub open spec fn copies_agree(
    x: Map<Seq<char>, EntryView>,
    y: Map<Seq<char>, EntryView>,
    u: Map<Seq<char>, EntryView>,
    v: Map<Seq<char>, EntryView>,
) -> bool {
    forall|p: Seq<char>, p2: Seq<char>|
        #[trigger] conflicting(x, y, p) && #[trigger] conflicting(u, v, p2) && copy_path(x, y, p)
            == copy_path(u, v, p2) ==> p == p2 && tie_loser(y[p], x[p]) == tie_loser(v[p2], u[p2])
}

/// Three manifests can be joined in any grouping without losing an entry:
/// each two of them are merge-safe; a true conflict between two of them
/// meets on the third side no later write and neither of its entries (a
/// third concurrent write is fine); no conflict copy of two of them is a
/// path of the third; and two conflicts share a copy path only when they
/// keep the same loser of the same path there.
pub open spec fn merge_safe3(
    a: Map<Seq<char>, EntryView>,
    b: Map<Seq<char>, EntryView>,
    c: Map<Seq<char>, EntryView>,
) -> bool {
    &&& merge_safe(a, b)
    &&& merge_safe(b, c)
    &&& merge_safe(a, c)
    &&& third_side_fits(a, b, c)
    &&& third_side_fits(b, c, a)
    &&& third_side_fits(a, c, b)
    &&& copies_clear_of(a, b, c)
    &&& copies_clear_of(b, c, a)
    &&& copies_clear_of(a, c, b)
    &&& copies_agree(a, b, b, c)
    &&& copies_agree(a, b, a, c)
    &&& copies_agree(b, c, a, c)
}

proof fn lemma_cj_basics(a: Map<Seq<char>, EntryView>, b: Map<Seq<char>, EntryView>)
    requires
        merge_safe(a, b),
    ensures
        forall|q: Seq<char>| #[trigger] conflict_join(a, b).contains_key(q) <==> (a.contains_key(q)
            || b.contains_key(q) || is_copy_path(a, b, q)),
        forall|q: Seq<char>|
            (a.contains_key(q) || b.contains_key(q)) ==> #[trigger] conflict_join(a, b)[q]
                == join_at(a, b, q),
        forall|p: Seq<char>| #[trigger] conflicting(a, b, p) ==> conflict_join(a, b).contains_key(
            copy_path(a, b, p),
        ) && conflict_join(a, b)[copy_path(a, b, p)] == tie_loser(b[p], a[p]),
{
    lemma_conflict_join_copies(a, b);
}

/// The losers kept at one copy path by any two conflicts among the three
/// manifests are the same entry.
proof fn lemma_copy_losers_agree(
    a: Map<Seq<char>, EntryView>,
    b: Map<Seq<char>, EntryView>,
    c: Map<Seq<char>, EntryView>,
)
    requires
        merge_safe3(a, b, c),
    ensures
        forall|p: Seq<char>, p2: Seq<char>|
            #[trigger] conflicting(a, b, p) && #[trigger] conflicting(a, b, p2) && copy_path(a, b, p)
                == copy_path(a, b, p2) ==> p == p2,
        forall|p: Seq<char>, p2: Seq<char>|
            #[trigger] conflicting(b, c, p) && #[trigger] conflicting(b, c, p2) && copy_path(b, c, p)
                == copy_path(b, c, p2) ==> p == p2,
        forall|p: Seq<char>, p2: Seq<char>|
            #[trigger] conflicting(a, c, p) && #[trigger] conflicting(a, c, p2) && copy_path(a, c, p)
                == copy_path(a, c, p2) ==> p == p2,
{
}

proof fn lemma_order3(x: EntryView, y: EntryView, z: EntryView)
    requires
        tie_separable(x, y),
        tie_separable(y, z),
        tie_separable(x, z),
    ensures
        incoming_wins_tie(x, y) <==> !incoming_wins_tie(y, x),
        incoming_wins_tie(y, z) <==> !incoming_wins_tie(z, y),
        incoming_wins_tie(x, z) <==> !incoming_wins_tie(z, x),
        incoming_wins_tie(x, y) && incoming_wins_tie(y, z) ==> incoming_wins_tie(x, z),
        incoming_wins_tie(z, y) && incoming_wins_tie(y, x) ==> incoming_wins_tie(z, x),
        incoming_wins_tie(y, x) && incoming_wins_tie(x, z) ==> incoming_wins_tie(y, z),
        incoming_wins_tie(z, x) && incoming_wins_tie(x, y) ==> incoming_wins_tie(z, y),
        incoming_wins_tie(x, z) && incoming_wins_tie(z, y) ==> incoming_wins_tie(x, y),
        incoming_wins_tie(y, z) && incoming_wins_tie(z, x) ==> incoming_wins_tie(y, x),
{
    lemma_tie_order(x, y);
    lemma_tie_order(y, z);
    lemma_tie_order(x, z);
    if incoming_wins_tie(x, y) && incoming_wins_tie(y, z) {
        lemma_tie_transitive(x, y, z);
    }
    if incoming_wins_tie(z, y) && incoming_wins_tie(y, x) {
        lemma_tie_transitive(z, y, x);
    }
    if incoming_wins_tie(y, x) && incoming_wins_tie(x, z) {
        lemma_tie_transitive(y, x, z);
    }
    if incoming_wins_tie(z, x) && incoming_wins_tie(x, y) {
        lemma_tie_transitive(z, x, y);
    }
    if incoming_wins_tie(x, z) && incoming_wins_tie(z, y) {
        lemma_tie_transitive(x, z, y);
    }
    if incoming_wins_tie(y, z) && incoming_wins_tie(z, x) {
        lemma_tie_transitive(y, z, x);
    }
}

proof fn lemma_left_point(
    a: Map<Seq<char>, EntryView>,
    b: Map<Seq<char>, EntryView>,
    c: Map<Seq<char>, EntryView>,
    p: Seq<char>,
)
    requires
        merge_safe3(a, b, c),
        conflicting(conflict_join(a, b), c, p),
    ensures
        (a.contains_key(p) && conflict_join(a, b)[p] == a[p] && conflicting(a, c, p)) || (
        b.contains_key(p) && conflict_join(a, b)[p] == b[p] && conflicting(b, c, p)),
{
    lemma_cj_basics(a, b);
    if !a.contains_key(p) && !b.contains_key(p) {
        assert(is_copy_path(a, b, p));
        assert(!c.contains_key(p));
    }
}

proof fn lemma_right_point(
    a: Map<Seq<char>, EntryView>,
    b: Map<Seq<char>, EntryView>,
    c: Map<Seq<char>, EntryView>,
    p: Seq<char>,
)
    requires
        merge_safe3(a, b, c),
        conflicting(a, conflict_join(b, c), p),
    ensures
        (b.contains_key(p) && conflict_join(b, c)[p] == b[p] && conflicting(a, b, p)) || (
        c.contains_key(p) && conflict_join(b, c)[p] == c[p] && conflicting(a, c, p)),
{
    lemma_cj_basics(b, c);
    if !b.contains_key(p) && !c.contains_key(p) {
        assert(is_copy_path(b, c, p));
        assert(!a.contains_key(p));
    }
}

proof fn lemma_left_safe(
    a: Map<Seq<char>, EntryView>,
    b: Map<Seq<char>, EntryView>,
    c: Map<Seq<char>, EntryView>,
)
    requires
        merge_safe3(a, b, c),
    ensures
        merge_safe(conflict_join(a, b), c),
{
    let ab = conflict_join(a, b);
    lemma_cj_basics(a, b);
    lemma_copy_losers_agree(a, b, c);
    assert forall|p: Seq<char>| #[trigger] conflicting(ab, c, p) implies tie_separable(ab[p], c[p])
        && !ab.contains_key(copy_path(ab, c, p)) && !c.contains_key(copy_path(ab, c, p)) by {
        lemma_left_point(a, b, c, p);
        let q = copy_path(ab, c, p);
        if a.contains_key(p) && ab[p] == a[p] && conflicting(a, c, p) {
            assert(copy_path(a, c, p) == q);
            assert(is_copy_path(a, c, q));
            assert(!b.contains_key(q));
            if is_copy_path(a, b, q) {
                let p2 = choose|p2: Seq<char>| #[trigger] conflicting(a, b, p2) && copy_path(a, b, p2) == q;
                assert(p2 == p);
                assert(false);
            }
        } else {
            assert(copy_path(b, c, p) == q);
            assert(is_copy_path(b, c, q));
            assert(!a.contains_key(q));
            if is_copy_path(a, b, q) {
                let p2 = choose|p2: Seq<char>| #[trigger] conflicting(a, b, p2) && copy_path(a, b, p2) == q;
                assert(p2 == p);
                assert(false);
            }
        }
    }
    assert forall|p: Seq<char>, p2: Seq<char>|
        #[trigger] conflicting(ab, c, p) && #[trigger] conflicting(ab, c, p2) && copy_path(ab, c, p)
            == copy_path(ab, c, p2) implies p == p2 by {
        lemma_left_point(a, b, c, p);
        lemma_left_point(a, b, c, p2);
    }
}

proof fn lemma_right_safe(
    a: Map<Seq<char>, EntryView>,
    b: Map<Seq<char>, EntryView>,
    c: Map<Seq<char>, EntryView>,
)
    requires
        merge_safe3(a, b, c),
    ensures
        merge_safe(a, conflict_join(b, c)),
{
    let bc = conflict_join(b, c);
    lemma_cj_basics(b, c);
    lemma_copy_losers_agree(a, b, c);
    assert forall|p: Seq<char>| #[trigger] conflicting(a, bc, p) implies tie_separable(a[p], bc[p])
        && !a.contains_key(copy_path(a, bc, p)) && !bc.contains_key(copy_path(a, bc, p)) by {
        lemma_right_point(a, b, c, p);
        let q = copy_path(a, bc, p);
        if b.contains_key(p) && bc[p] == b[p] && conflicting(a, b, p) {
            assert(copy_path(a, b, p) == q);
            assert(is_copy_path(a, b, q));
            assert(!c.contains_key(q));
            if is_copy_path(b, c, q) {
                let p2 = choose|p2: Seq<char>| #[trigger] conflicting(b, c, p2) && copy_path(b, c, p2) == q;
                assert(p2 == p);
                assert(false);
            }
        } else {
            assert(copy_path(a, c, p) == q);
            assert(is_copy_path(a, c, q));
            assert(!b.contains_key(q));
            if is_copy_path(b, c, q) {
                let p2 = choose|p2: Seq<char>| #[trigger] conflicting(b, c, p2) && copy_path(b, c, p2) == q;
                assert(p2 == p);
                assert(false);
            }
        }
    }
    assert forall|p: Seq<char>, p2: Seq<char>|
        #[trigger] conflicting(a, bc, p) && #[trigger] conflicting(a, bc, p2) && copy_path(a, bc, p)
            == copy_path(a, bc, p2) implies p == p2 by {
        lemma_right_point(a, b, c, p);
        lemma_right_point(a, b, c, p2);
    }
}

proof fn lemma_left_covers(
    a: Map<Seq<char>, EntryView>,
    b: Map<Seq<char>, EntryView>,
    c: Map<Seq<char>, EntryView>,
    p: Seq<char>,
)
    requires
        merge_safe3(a, b, c),
    ensures
        ({
            let x = conflict_join(conflict_join(a, b), c);
            &&& conflicting(a, b, p) ==> x.contains_key(copy_path(a, b, p)) && x[copy_path(a, b, p)]
                == tie_loser(b[p], a[p])
            &&& conflicting(b, c, p) ==> x.contains_key(copy_path(b, c, p)) && x[copy_path(b, c, p)]
                == tie_loser(c[p], b[p])
            &&& conflicting(a, c, p) ==> x.contains_key(copy_path(a, c, p)) && x[copy_path(a, c, p)]
                == tie_loser(c[p], a[p])
        }),
{
    let ab = conflict_join(a, b);
    let x = conflict_join(ab, c);
    lemma_cj_basics(a, b);
    lemma_left_safe(a, b, c);
    lemma_cj_basics(ab, c);
    if conflicting(a, b, p) {
        let q = copy_path(a, b, p);
        assert(is_copy_path(a, b, q));
        assert(!c.contains_key(q));
        assert(x[q] == join_at(ab, c, q));
    }
    if conflicting(b, c, p) {
        let q = copy_path(b, c, p);
        if a.contains_key(p) && a[p].hlc == b[p].hlc {
            assert(conflicting(a, b, p));
            assert(conflicting(a, c, p));
            lemma_order3(a[p], b[p], c[p]);
            if ab[p] == b[p] {
                assert(conflicting(ab, c, p));
            } else if tie_loser(c[p], b[p]) == b[p] {
                assert(copy_path(a, b, p) == q);
                assert(is_copy_path(a, b, q));
                assert(!c.contains_key(q));
                assert(x[q] == join_at(ab, c, q));
            } else {
                assert(conflicting(ab, c, p));
                assert(copy_path(ab, c, p) == q);
            }
        } else {
            assert(ab[p] == b[p]);
            assert(conflicting(ab, c, p));
        }
    }
    if conflicting(a, c, p) {
        let q = copy_path(a, c, p);
        if b.contains_key(p) && b[p].hlc == a[p].hlc {
            assert(conflicting(a, b, p));
            assert(conflicting(b, c, p));
            lemma_order3(a[p], b[p], c[p]);
            if ab[p] == a[p] {
                assert(conflicting(ab, c, p));
            } else if tie_loser(c[p], a[p]) == a[p] {
                assert(copy_path(a, b, p) == q);
                assert(is_copy_path(a, b, q));
                assert(!c.contains_key(q));
                assert(x[q] == join_at(ab, c, q));
            } else {
                assert(conflicting(ab, c, p));
                assert(copy_path(ab, c, p) == q);
            }
        } else {
            assert(ab[p] == a[p]);
            assert(conflicting(ab, c, p));
        }
    }
}

proof fn lemma_right_covers(
    a: Map<Seq<char>, EntryView>,
    b: Map<Seq<char>, EntryView>,
    c: Map<Seq<char>, EntryView>,
    p: Seq<char>,
)
    requires
        merge_safe3(a, b, c),
    ensures
        ({
            let y = conflict_join(a, conflict_join(b, c));
            &&& conflicting(a, b, p) ==> y.contains_key(copy_path(a, b, p)) && y[copy_path(a, b, p)]
                == tie_loser(b[p], a[p])
            &&& conflicting(b, c, p) ==> y.contains_key(copy_path(b, c, p)) && y[copy_path(b, c, p)]
                == tie_loser(c[p], b[p])
            &&& conflicting(a, c, p) ==> y.contains_key(copy_path(a, c, p)) && y[copy_path(a, c, p)]
                == tie_loser(c[p], a[p])
        }),
{
    let bc = conflict_join(b, c);
    let y = conflict_join(a, bc);
    lemma_cj_basics(b, c);
    lemma_right_safe(a, b, c);
    lemma_cj_basics(a, bc);
    if conflicting(b, c, p) {
        let q = copy_path(b, c, p);
        assert(is_copy_path(b, c, q));
        assert(!a.contains_key(q));
        assert(y[q] == join_at(a, bc, q));
    }
    if conflicting(a, b, p) {
        let q = copy_path(a, b, p);
        if c.contains_key(p) && c[p].hlc == a[p].hlc {
            assert(conflicting(a, c, p));
            assert(conflicting(b, c, p));
            lemma_order3(a[p], b[p], c[p]);
            if bc[p] == b[p] {
                assert(conflicting(a, bc, p));
            } else if tie_loser(b[p], a[p]) == b[p] {
                assert(copy_path(b, c, p) == q);
                assert(is_copy_path(b, c, q));
                assert(!a.contains_key(q));
                assert(y[q] == join_at(a, bc, q));
            } else {
                assert(conflicting(a, bc, p));
                assert(copy_path(a, bc, p) == q);
            }
        } else {
            assert(bc[p] == b[p]);
            assert(conflicting(a, bc, p));
        }
    }
    if conflicting(a, c, p) {
        let q = copy_path(a, c, p);
        if b.contains_key(p) && b[p].hlc == a[p].hlc {
            assert(conflicting(a, b, p));
            assert(conflicting(b, c, p));
            lemma_order3(a[p], b[p], c[p]);
            if bc[p] == c[p] {
                assert(conflicting(a, bc, p));
            } else if tie_loser(c[p], a[p]) == c[p] {
                assert(copy_path(b, c, p) == q);
                assert(is_copy_path(b, c, q));
                assert(!a.contains_key(q));
                assert(y[q] == join_at(a, bc, q));
            } else {
                assert(conflicting(a, bc, p));
                assert(copy_path(a, bc, p) == q);
            }
        } else {
            assert(bc[p] == c[p]);
            assert(conflicting(a, bc, p));
        }
    }
}

/// Law (grouping of merges does not matter, with conflicts): for three
/// manifests that can be joined without losing an entry, joining the first
/// two and then the third gives the same manifest as joining the first with
/// the join of the other two. A path may hold a true conflict on all three
/// sides at once.
pub proof fn law_conflict_join_associative(
    a: Map<Seq<char>, EntryView>,
    b: Map<Seq<char>, EntryView>,
    c: Map<Seq<char>, EntryView>,
)
    requires
        merge_safe3(a, b, c),
    ensures
        merge_safe(conflict_join(a, b), c),
        merge_safe(a, conflict_join(b, c)),
        conflict_join(conflict_join(a, b), c) == conflict_join(a, conflict_join(b, c)),
{
    let ab = conflict_join(a, b);
    let bc = conflict_join(b, c);
    lemma_cj_basics(a, b);
    lemma_cj_basics(b, c);
    lemma_left_safe(a, b, c);
    lemma_right_safe(a, b, c);
    lemma_cj_basics(ab, c);
    lemma_cj_basics(a, bc);
    let x = conflict_join(ab, c);
    let y = conflict_join(a, bc);
    assert forall|q: Seq<char>| #[trigger] x.contains_key(q) == y.contains_key(q) && (x.contains_key(q)
        ==> x[q] == y[q]) by {
        if a.contains_key(q) || b.contains_key(q) || c.contains_key(q) {
            if c.contains_key(q) {
                assert(!is_copy_path(a, b, q));
            }
            if a.contains_key(q) {
                assert(!is_copy_path(b, c, q));
            }
            if a.contains_key(q) && b.contains_key(q) && truly_concurrent(b[q], a[q]) {
                assert(conflicting(a, b, q));
            }
            if b.contains_key(q) && c.contains_key(q) && truly_concurrent(c[q], b[q]) {
                assert(conflicting(b, c, q));
            }
            if a.contains_key(q) && c.contains_key(q) && truly_concurrent(c[q], a[q]) {
                assert(conflicting(a, c, q));
            }
            if a.contains_key(q) && b.contains_key(q) && c.contains_key(q) {
                lemma_pick_assoc(a[q], b[q], c[q]);
            }
        } else {
            if x.contains_key(q) {
                if is_copy_path(a, b, q) {
                    let p = choose|p: Seq<char>| #[trigger] conflicting(a, b, p) && copy_path(a, b, p) == q;
                    lemma_left_covers(a, b, c, p);
                    lemma_right_covers(a, b, c, p);
                } else {
                    assert(is_copy_path(ab, c, q));
                    let p = choose|p: Seq<char>| #[trigger] conflicting(ab, c, p) && copy_path(ab, c, p) == q;
                    lemma_left_point(a, b, c, p);
                    lemma_left_covers(a, b, c, p);
                    lemma_right_covers(a, b, c, p);
                }
            }
            if y.contains_key(q) {
                if is_copy_path(b, c, q) {
                    let p = choose|p: Seq<char>| #[trigger] conflicting(b, c, p) && copy_path(b, c, p) == q;
                    lemma_left_covers(a, b, c, p);
                    lemma_right_covers(a, b, c, p);
                } else {
                    assert(is_copy_path(a, bc, q));
                    let p = choose|p: Seq<char>| #[trigger] conflicting(a, bc, p) && copy_path(a, bc, p) == q;
                    lemma_right_point(a, b, c, p);
                    lemma_left_covers(a, b, c, p);
                    lemma_right_covers(a, b, c, p);
                }
            }
        }
    }
    assert(x =~= y);
}

/// After applying `v` at `k`, the path holds `v`, a later write, or the
/// winner of a conflict with `v`, with a conflict copy path taken.
pub open spec fn dominated(r: Map<Seq<char>, EntryView>, k: Seq<char>, v: EntryView) -> bool {
    &&& r.contains_key(k)
    &&& {
        ||| r[k] == v
        ||| hlc_lt(v.hlc, r[k].hlc)
        ||| (truly_concurrent(v, r[k]) && !incoming_wins_tie(v, r[k]) && r.contains_key(
            conflict_path(k, v.author),
        ))
    }
}

proof fn lemma_apply_dominates(m: Map<Seq<char>, EntryView>, k: Seq<char>, v: EntryView)
    ensures
        dominated(apply_spec(m, k, v), k, v),
        forall|q: Seq<char>| #[trigger] m.contains_key(q) && q != k ==> apply_spec(m, k, v).contains_key(q)
            && apply_spec(m, k, v)[q] == m[q],
{
    lemma_conflict_path_differs(k, v.author);
    if m.contains_key(k) {
        lemma_conflict_path_differs(k, m[k].author);
    }
}

proof fn lemma_dominated_stable(r: Map<Seq<char>, EntryView>, k: Seq<char>, v: EntryView)
    requires
        dominated(r, k, v),
    ensures
        apply_spec(r, k, v) == r,
{
    if r[k] != v && !hlc_lt(v.hlc, r[k].hlc) {
        assert(r.insert(k, r[k]) =~= r);
    } else {
        assert(r.insert(k, r[k]) =~= r);
    }
}

proof fn lemma_apply_all_dominates(m: Map<Seq<char>, EntryView>, s: Seq<(Seq<char>, EntryView)>)
    requires
        keys_distinct(s),
    ensures
        forall|i: int| 0 <= i < s.len() ==> dominated(apply_all(m, s), #[trigger] s[i].0, s[i].1),
    decreases s.len(),
{
    if s.len() > 0 {
        let t = s.drop_last();
        assert(keys_distinct(t));
        lemma_apply_all_dominates(m, t);
        let prev = apply_all(m, t);
        let (k, v) = s.last();
        lemma_apply_dominates(prev, k, v);
        assert forall|i: int| 0 <= i < s.len() implies dominated(apply_all(m, s), #[trigger] s[i].0, s[i].1) by {
            if i < s.len() - 1 {
                assert(s[i] == t[i]);
                assert(dominated(prev, t[i].0, t[i].1));
                assert(s[i].0 != k);
                let cp = conflict_path(s[i].0, s[i].1.author);
                if prev.contains_key(cp) && cp != k {
                    assert(apply_spec(prev, k, v).contains_key(cp));
                }
            }
        }
    }
}

proof fn lemma_apply_all_fixed(r: Map<Seq<char>, EntryView>, s: Seq<(Seq<char>, EntryView)>)
    requires
        forall|i: int| 0 <= i < s.len() ==> dominated(r, #[trigger] s[i].0, s[i].1),
    ensures
        apply_all(r, s) == r,
    decreases s.len(),
{
    if s.len() > 0 {
        let t = s.drop_last();
        assert forall|i: int| 0 <= i < t.len() implies dominated(r, #[trigger] t[i].0, t[i].1) by {
            assert(t[i] == s[i]);
        }
        lemma_apply_all_fixed(r, t);
        assert(dominated(r, s[s.len() - 1].0, s[s.len() - 1].1));
        lemma_dominated_stable(r, s.last().0, s.last().1);
    }
}

/// Law (a repeated merge changes nothing): merging the same manifest a
/// second time leaves the result of the first merge as it is, conflicts or
/// not.
pub proof fn law_merge_repeat_idempotent(m: Map<Seq<char>, EntryView>, s: Seq<(Seq<char>, EntryView)>)
    requires
        keys_distinct(s),
    ensures
        apply_all(apply_all(m, s), s) == apply_all(m, s),
{
    lemma_apply_all_dominates(m, s);
    lemma_apply_all_fixed(apply_all(m, s), s);
}

proof fn lemma_apply_all_defined_again(m: Map<Seq<char>, EntryView>, s: Seq<(Seq<char>, EntryView)>)
    requires
        keys_distinct(s),
        apply_all_defined(m, s),
    ensures
        forall|i: int| 0 <= i < s.len() ==> apply_defined(apply_all(m, s), #[trigger] s[i].0, s[i].1),
    decreases s.len(),
{
    if s.len() > 0 {
        let t = s.drop_last();
        assert(keys_distinct(t));
        lemma_apply_all_defined_again(m, t);
        lemma_apply_all_dominates(m, t);
        let prev = apply_all(m, t);
        let (k, v) = s.last();
        lemma_apply_dominates(prev, k, v);
        lemma_conflict_path_differs(k, v.author);
        if prev.contains_key(k) {
            lemma_conflict_path_differs(k, prev[k].author);
        }
        let r = apply_spec(prev, k, v);
        assert forall|i: int| 0 <= i < s.len() implies apply_defined(r, #[trigger] s[i].0, s[i].1) by {
            if i < s.len() - 1 {
                assert(s[i] == t[i]);
                assert(dominated(prev, t[i].0, t[i].1));
                assert(s[i].0 != k);
                assert(r[s[i].0] == prev[s[i].0]);
            }
        }
    }
}

proof fn lemma_defined_at_fixed(r: Map<Seq<char>, EntryView>, s: Seq<(Seq<char>, EntryView)>)
    requires
        forall|i: int| 0 <= i < s.len() ==> dominated(r, #[trigger] s[i].0, s[i].1),
        forall|i: int| 0 <= i < s.len() ==> apply_defined(r, #[trigger] s[i].0, s[i].1),
    ensures
        apply_all_defined(r, s),
    decreases s.len(),
{
    if s.len() > 0 {
        let t = s.drop_last();
        assert forall|i: int| 0 <= i < t.len() implies dominated(r, #[trigger] t[i].0, t[i].1)
            && apply_defined(r, t[i].0, t[i].1) by {
            assert(t[i] == s[i]);
        }
        lemma_defined_at_fixed(r, t);
        lemma_apply_all_fixed(r, t);
        assert(apply_defined(r, s[s.len() - 1].0, s[s.len() - 1].1));
    }
}

/// Law (merging the same manifest again is admitted and changes nothing):
/// after a merge of `s` into `m` that was defined at every step, merging
/// `s` once more is defined at every step too, and leaves the result as it
/// is.
pub proof fn law_merge_again(m: Map<Seq<char>, EntryView>, s: Seq<(Seq<char>, EntryView)>)
    requires
        keys_distinct(s),
        apply_all_defined(m, s),
    ensures
        apply_all_defined(apply_all(m, s), s),
        apply_all(apply_all(m, s), s) == apply_all(m, s),
{
    lemma_apply_all_dominates(m, s);
    lemma_apply_all_defined_again(m, s);
    lemma_defined_at_fixed(apply_all(m, s), s);
    law_merge_repeat_idempotent(m, s);
}

/// Law (merging a manifest's own copy is admitted and changes nothing).
pub proof fn law_merge_own_copy(s: Seq<(Seq<char>, EntryView)>)
    requires
        keys_distinct(s),
    ensures
        apply_all_defined(to_map(s), s),
        apply_all(to_map(s), s) == to_map(s),
{
    law_merge_self(s);
    lemma_apply_all_dominates(to_map(s), s);
    lemma_to_map_char(s);
    assert forall|i: int| 0 <= i < s.len() implies apply_defined(to_map(s), #[trigger] s[i].0, s[i].1) by {
        assert(to_map(s)[s[i].0] == s[i].1);
    }
    lemma_defined_at_fixed(to_map(s), s);
}

/// Law (only a true conflict can be refused): putting an entry at a path is
/// always defined unless the stored entry there has the same HLC and
/// different content; in particular a strictly later write is always
/// admitted, whoever authored either side.
pub proof fn law_non_tie_put_admitted(m: Map<Seq<char>, EntryView>, path: Seq<char>, incoming: EntryView)
    ensures
        !(m.contains_key(path) && m[path].hlc == incoming.hlc && m[path] != incoming)
            ==> apply_defined(m, path, incoming),
        m.contains_key(path) && hlc_lt(m[path].hlc, incoming.hlc) ==> apply_defined(m, path, incoming),
        !m.contains_key(path) ==> apply_defined(m, path, incoming),
{
}

proof fn lemma_no_tie_steps(m: Map<Seq<char>, EntryView>, s: Seq<(Seq<char>, EntryView)>)
    requires
        keys_distinct(s),
        forall|i: int|
            0 <= i < s.len() && m.contains_key(#[trigger] s[i].0) ==> !(m[s[i].0].hlc == s[i].1.hlc
                && m[s[i].0] != s[i].1),
    ensures
        apply_all_defined(m, s),
        forall|k: Seq<char>|
            (forall|j: int| 0 <= j < s.len() ==> #[trigger] s[j].0 != k) ==> (#[trigger] apply_all(
                m,
                s,
            ).contains_key(k) == m.contains_key(k) && (m.contains_key(k) ==> apply_all(m, s)[k]
                == m[k])),
    decreases s.len(),
{
    if s.len() > 0 {
        let t = s.drop_last();
        assert(keys_distinct(t));
        assert forall|i: int|
            0 <= i < t.len() && m.contains_key(#[trigger] t[i].0) implies !(m[t[i].0].hlc
            == t[i].1.hlc && m[t[i].0] != t[i].1) by {
            assert(t[i] == s[i]);
        }
        lemma_no_tie_steps(m, t);
        let (k, v) = s.last();
        assert forall|j: int| 0 <= j < t.len() implies #[trigger] t[j].0 != k by {
            assert(t[j] == s[j]);
            assert(s[j].0 != s[s.len() - 1].0);
        }
        let prev = apply_all(m, t);
        assert(prev.contains_key(k) == m.contains_key(k));
        assert(m.contains_key(k) ==> !(m[k].hlc == v.hlc && m[k] != v));
        assert(apply_defined(prev, k, v));
        assert forall|q: Seq<char>|
            (forall|j: int| 0 <= j < s.len() ==> #[trigger] s[j].0 != q) implies (apply_all(
            m,
            s,
        ).contains_key(q) == m.contains_key(q) && (m.contains_key(q) ==> apply_all(m, s)[q]
            == m[q])) by {
            assert(s[s.len() - 1].0 != q);
            assert forall|j: int| 0 <= j < t.len() implies #[trigger] t[j].0 != q by {
                assert(t[j] == s[j]);
            }
        }
    }
}

/// Law (a merge without true conflicts is admitted): merging a manifest
/// whose pairs meet, at each shared path, either an older or newer write or
/// an equal entry (never a different one with the same HLC) is defined at
/// every step, whoever authored the entries.
pub proof fn law_merge_without_ties_admitted(m: Map<Seq<char>, EntryView>, s: Seq<(Seq<char>, EntryView)>)
    requires
        keys_distinct(s),
        forall|p: Seq<char>| #[trigger]
            m.contains_key(p) && to_map(s).contains_key(p) ==> !(m[p].hlc == to_map(s)[p].hlc
                && m[p] != to_map(s)[p]),
    ensures
        apply_all_defined(m, s),
{
    lemma_to_map_char(s);
    assert forall|i: int|
        0 <= i < s.len() && m.contains_key(#[trigger] s[i].0) implies !(m[s[i].0].hlc == s[i].1.hlc
        && m[s[i].0] != s[i].1) by {
        assert(to_map(s).contains_key(s[i].0));
    }
    lemma_no_tie_steps(m, s);
}

/// Law (no write is lost): applying an entry keeps every path that was
/// there, and afterwards the path holds a write at least as late as both the
/// old one and the incoming one.
pub proof fn law_apply_keeps_paths_and_latest(
    m: Map<Seq<char>, EntryView>,
    path: Seq<char>,
    e: EntryView,
)
    ensures
        forall|q: Seq<char>| m.contains_key(q) ==> #[trigger] apply_spec(m, path, e).contains_key(q),
        apply_spec(m, path, e).contains_key(path),
        !hlc_lt(apply_spec(m, path, e)[path].hlc, e.hlc),
        m.contains_key(path) ==> !hlc_lt(apply_spec(m, path, e)[path].hlc, m[path].hlc),
{
}

/// Law (true conflicts keep both sides): when the incoming entry and the
/// stored one are truly concurrent, the path holds one of them and the other
/// is kept at its conflict-copy path (unless that path was already taken).
pub proof fn law_true_conflict_keeps_both(
    m: Map<Seq<char>, EntryView>,
    path: Seq<char>,
    e: EntryView,
)
    requires
        m.contains_key(path),
        truly_concurrent(e, m[path]),
    ensures
        ({
            let r = apply_spec(m, path, e);
            let winner_incoming = incoming_wins_tie(e, m[path]);
            &&& r[path] == (if winner_incoming { e } else { m[path] })
            &&& winner_incoming ==> r.contains_key(conflict_path(path, m[path].author))
            &&& !winner_incoming ==> r.contains_key(conflict_path(path, e.author))
            &&& winner_incoming && !m.contains_key(conflict_path(path, m[path].author)) ==> r[conflict_path(path, m[path].author)] == m[path]
            &&& !winner_incoming && !m.contains_key(conflict_path(path, e.author)) ==> r[conflict_path(path, e.author)] == e
        }),
{
    lemma_conflict_path_differs(path, m[path].author);
    lemma_conflict_path_differs(path, e.author);
}

/// Law (replicas agree on the primary copy): two replicas that each hold one
/// side of a true conflict at `path`, and then receive the other side, keep
/// the same entry at `path` when the tie order tells the two apart.
pub proof fn law_tie_winner_symmetric(path: Seq<char>, a: EntryView, b: EntryView)
    requires
        truly_concurrent(a, b),
        tie_separable(a, b),
    ensures
        apply_spec(map![path => a], path, b)[path] == apply_spec(map![path => b], path, a)[path],
{
    lemma_tie_order(a, b);
}

} // verus!

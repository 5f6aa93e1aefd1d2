use vault_manifest::chunk::chunk;
use vault_manifest::hlc::Hlc;
use vault_manifest::manifest::{Entry, Manifest};
use vault_manifest::store::{
    chunk_file_name, chunk_hash_texts, materialize_action, record_local_deletion,
    record_local_file, referenced_chunk_hashes, LocalIndex, MaterializeAction, ScanOutcome,
};

fn entry(hashes: &[&str], hlc: Hlc, author: &str, tombstone: bool) -> Entry {
    Entry {
        chunk_hashes: hashes.iter().map(|h| h.to_string()).collect(),
        size: hashes.len() as u64,
        hlc,
        author_pubkey: author.to_string(),
        tombstone,
    }
}

#[test]
fn chunk_file_names_end_in_bin() {
    assert_eq!(chunk_file_name("abc123"), "abc123.bin");
}

#[test]
fn chunk_hash_texts_are_the_blake3_hex_of_each_chunk() {
    let data = b"some file contents".to_vec();
    let texts = chunk_hash_texts(&chunk(&data));
    assert_eq!(texts, vec![blake3::hash(&data).to_hex().to_string()]);
}

#[test]
fn a_new_local_file_is_authored_once() {
    let mut m = Manifest::new();
    let mut clock = Hlc::zero();
    let mut known = LocalIndex::new();
    let hashes = vec!["h1".to_string()];
    assert_eq!(record_local_file(&mut m, &mut clock, &mut known, "alice", "a.txt", hashes.clone(), 5, 100), ScanOutcome::Recorded);
    assert_eq!(clock, Hlc { physical_ms: 100, logical: 0 });
    let e = m.get("a.txt").unwrap();
    assert_eq!(e.chunk_hashes, hashes);
    assert_eq!(e.author_pubkey, "alice");
    assert_eq!(known.get_any("a.txt").unwrap(), e);
    // Scanning the unchanged file again does nothing.
    assert_eq!(record_local_file(&mut m, &mut clock, &mut known, "alice", "a.txt", hashes.clone(), 5, 200), ScanOutcome::Unchanged);
    assert_eq!(clock, Hlc { physical_ms: 100, logical: 0 });
    // A changed file is authored again, later.
    assert_eq!(record_local_file(&mut m, &mut clock, &mut known, "alice", "a.txt", vec!["h2".to_string()], 6, 100), ScanOutcome::Recorded);
    assert_eq!(m.get("a.txt").unwrap().hlc, Hlc { physical_ms: 100, logical: 1 });
}

#[test]
fn a_vanished_known_file_is_tombstoned_whoever_wrote_it() {
    let mut m = Manifest::new();
    let mut clock = Hlc::zero();
    let mut known = LocalIndex::new();
    let from_bob = entry(&["hb"], Hlc { physical_ms: 10, logical: 0 }, "bob", false);
    m.put("b.txt", from_bob.clone());
    known.insert("b.txt", from_bob);
    // Still on disk: nothing to do.
    assert_eq!(record_local_deletion(&mut m, &mut clock, &mut known, "alice", "b.txt", true, 50), ScanOutcome::Unchanged);
    // Gone: tombstoned under alice's authorship.
    assert_eq!(record_local_deletion(&mut m, &mut clock, &mut known, "alice", "b.txt", false, 50), ScanOutcome::Recorded);
    assert!(m.get("b.txt").is_none());
    assert!(known.get_any("b.txt").unwrap().tombstone);
    // Already tombstoned: nothing more.
    assert_eq!(record_local_deletion(&mut m, &mut clock, &mut known, "alice", "b.txt", false, 60), ScanOutcome::Unchanged);
    // Never known: nothing.
    assert_eq!(record_local_deletion(&mut m, &mut clock, &mut known, "alice", "zzz", false, 60), ScanOutcome::Unchanged);
    assert_eq!(known.paths(), vec!["b.txt".to_string()]);
}

#[test]
fn materialize_decisions() {
    let mut known = LocalIndex::new();
    let hlc = Hlc { physical_ms: 3, logical: 0 };
    let mine = entry(&["h"], hlc, "alice", false);
    let theirs = entry(&["h"], hlc, "bob", false);
    let tomb = entry(&[], hlc, "bob", true);
    assert_eq!(materialize_action("p", &mine, "alice", &known), MaterializeAction::Skip);
    assert_eq!(materialize_action("p", &theirs, "alice", &known), MaterializeAction::Write);
    assert_eq!(materialize_action("p", &tomb, "alice", &known), MaterializeAction::Remove);
    known.insert("p", theirs.clone());
    assert_eq!(materialize_action("p", &theirs, "alice", &known), MaterializeAction::Skip);
    assert_eq!(materialize_action("p", &tomb, "alice", &known), MaterializeAction::Remove);
}

#[test]
fn referenced_chunk_hashes_lists_each_hash_once() {
    let mut m = Manifest::new();
    let hlc = Hlc { physical_ms: 1, logical: 0 };
    m.put("a", entry(&["x", "y", "x"], hlc, "alice", false));
    m.put("b", entry(&["y", "z"], hlc, "bob", false));
    let mut r = referenced_chunk_hashes(&m);
    r.sort();
    assert_eq!(r, vec!["x".to_string(), "y".to_string(), "z".to_string()]);
}

#[test]
fn a_write_whose_conflict_copy_cannot_be_named_is_refused() {
    // The author key's eighth byte falls inside a two-byte character.
    let odd_author = "abcdefg\u{e9}xyz";
    let mut m = Manifest::new();
    let hlc = Hlc { physical_ms: 100, logical: 0 };
    m.put("a.txt", entry(&["zzz"], hlc, "bob", false));
    let mut clock = Hlc::zero();
    let mut known = LocalIndex::new();
    let r = record_local_file(&mut m, &mut clock, &mut known, odd_author, "a.txt", vec!["aaa".to_string()], 3, 100);
    assert_eq!(r, ScanOutcome::Refused);
    assert_eq!(clock, hlc);
    assert_eq!(m.get("a.txt").unwrap().chunk_hashes, vec!["zzz"]);
    assert!(known.get_any("a.txt").is_none());
}

#[test]
fn materializing_the_same_entry_twice_settles() {
    let mut known = LocalIndex::new();
    let theirs = entry(&["h"], Hlc { physical_ms: 3, logical: 0 }, "bob", false);
    assert_eq!(materialize_action("p", &theirs, "alice", &known), MaterializeAction::Write);
    known.insert("p", theirs.clone());
    assert_eq!(materialize_action("p", &theirs, "alice", &known), MaterializeAction::Skip);
    // The next scan of the written file finds nothing to author.
    let mut m = Manifest::new();
    let mut clock = Hlc::zero();
    let r = record_local_file(&mut m, &mut clock, &mut known, "alice", "p", vec!["h".to_string()], 1, 10);
    assert_eq!(r, ScanOutcome::Unchanged);
    assert_eq!(clock, Hlc::zero());
}

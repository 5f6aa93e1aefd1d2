use vault_manifest::hlc::Hlc;
use vault_manifest::manifest::{Entry, Manifest};

fn entry(hash: &str, hlc: Hlc, author: &str) -> Entry {
    Entry {
        chunk_hashes: vec![hash.to_string()],
        size: 1,
        hlc,
        author_pubkey: author.to_string(),
        tombstone: false,
    }
}

fn paths(m: &Manifest) -> Vec<String> {
    let mut v: Vec<String> = m.snapshot().into_iter().map(|(p, _)| p).collect();
    v.sort();
    v
}

#[test]
fn later_hlc_wins_on_the_same_path() {
    let mut m = Manifest::new();
    m.put("a.txt", entry("h1", Hlc { physical_ms: 1, logical: 0 }, "alice"));
    m.put("a.txt", entry("h2", Hlc { physical_ms: 2, logical: 0 }, "bob"));
    assert_eq!(m.get("a.txt").unwrap().chunk_hashes, vec!["h2"]);
    assert_eq!(m.len(), 1);
}

#[test]
fn true_concurrency_keeps_both_as_a_conflict_copy() {
    let mut m = Manifest::new();
    let same_hlc = Hlc { physical_ms: 5, logical: 0 };
    m.put("a.txt", entry("hAAA", same_hlc, "alice"));
    m.put("a.txt", entry("hBBB", same_hlc, "bob"));
    assert_eq!(m.len(), 2, "both writers' data must survive a true conflict");
}

#[test]
fn merge_converges_regardless_of_order() {
    let mut m1 = Manifest::new();
    m1.put("a.txt", entry("h1", Hlc { physical_ms: 1, logical: 0 }, "alice"));
    m1.put("b.txt", entry("h2", Hlc { physical_ms: 1, logical: 0 }, "alice"));

    let mut m2 = Manifest::new();
    m2.put("a.txt", entry("h3", Hlc { physical_ms: 2, logical: 0 }, "bob"));
    m2.put("c.txt", entry("h4", Hlc { physical_ms: 1, logical: 0 }, "bob"));

    let mut left_then_right = m1.clone();
    left_then_right.merge(&m2);

    let mut right_then_left = m2.clone();
    right_then_left.merge(&m1);

    assert_eq!(left_then_right.get("a.txt").unwrap().chunk_hashes, vec!["h3"]);
    assert_eq!(right_then_left.get("a.txt").unwrap().chunk_hashes, vec!["h3"]);
    assert_eq!(left_then_right.len(), right_then_left.len());
    assert_eq!(left_then_right.len(), 3); // a.txt (h3), b.txt, c.txt
}

#[test]
fn older_write_does_not_replace_a_newer_one() {
    let mut m = Manifest::new();
    m.put("a.txt", entry("new", Hlc { physical_ms: 9, logical: 0 }, "bob"));
    m.put("a.txt", entry("old", Hlc { physical_ms: 3, logical: 4 }, "alice"));
    assert_eq!(m.get("a.txt").unwrap().chunk_hashes, vec!["new"]);
    assert_eq!(m.len(), 1);
}

#[test]
fn conflict_copy_is_named_after_the_loser_and_the_larger_key_wins() {
    let mut m = Manifest::new();
    let same = Hlc { physical_ms: 5, logical: 0 };
    m.put("a.txt", entry("hAAA", same, "alice-key-0123456789"));
    m.put("a.txt", entry("hBBB", same, "bob"));
    assert_eq!(m.get("a.txt").unwrap().chunk_hashes, vec!["hBBB"]);
    let copy = m.get("a.txt.conflict-alice-ke").unwrap();
    assert_eq!(copy.chunk_hashes, vec!["hAAA"]);
    assert_eq!(paths(&m), vec!["a.txt".to_string(), "a.txt.conflict-alice-ke".to_string()]);

    // The same conflict arriving in the other order keeps the same primary.
    let mut n = Manifest::new();
    n.put("a.txt", entry("hBBB", same, "bob"));
    n.put("a.txt", entry("hAAA", same, "alice-key-0123456789"));
    assert_eq!(n.get("a.txt").unwrap().chunk_hashes, vec!["hBBB"]);
    assert_eq!(paths(&n), paths(&m));
}

#[test]
fn putting_the_same_entry_twice_changes_nothing() {
    let mut m = Manifest::new();
    let e = entry("h", Hlc { physical_ms: 2, logical: 1 }, "alice");
    m.put("x", e.clone());
    m.put("x", e.clone());
    assert_eq!(m.len(), 1);
    assert_eq!(m.get("x").unwrap(), &e);
}

#[test]
fn merging_a_manifest_into_itself_changes_nothing() {
    let mut m = Manifest::new();
    m.put("a", entry("h1", Hlc { physical_ms: 1, logical: 0 }, "alice"));
    m.put("b", entry("h2", Hlc { physical_ms: 2, logical: 0 }, "bob"));
    let copy = m.clone();
    m.merge(&copy);
    assert_eq!(paths(&m), paths(&copy));
    assert_eq!(m.len(), 2);
    assert_eq!(m.get("a").unwrap().chunk_hashes, vec!["h1"]);
}

#[test]
fn tombstones_hide_the_path_but_stay_in_the_manifest() {
    let mut m = Manifest::new();
    m.put("a", entry("h1", Hlc { physical_ms: 1, logical: 0 }, "alice"));
    let tomb = Entry {
        chunk_hashes: vec![],
        size: 0,
        hlc: Hlc { physical_ms: 2, logical: 0 },
        author_pubkey: "bob".to_string(),
        tombstone: true,
    };
    m.put("a", tomb);
    assert!(m.get("a").is_none());
    assert_eq!(m.len(), 0);
    assert!(m.is_empty());
    assert_eq!(m.snapshot().len(), 1);
    // An older write cannot resurrect it.
    m.put("a", entry("h0", Hlc { physical_ms: 1, logical: 5 }, "carol"));
    assert!(m.get("a").is_none());
}

#[test]
fn new_and_default_are_empty() {
    assert!(Manifest::new().is_empty());
    assert_eq!(Manifest::default().len(), 0);
    assert!(Manifest::new().get("anything").is_none());
}

#[test]
fn entry_same_as_and_duplicate_agree_with_equality() {
    let a = entry("h", Hlc { physical_ms: 1, logical: 0 }, "alice");
    let b = a.duplicate();
    assert!(a.same_as(&b));
    assert_eq!(a, b);
    let mut c = a.clone();
    c.size = 2;
    assert!(!a.same_as(&c));
}

#[test]
fn can_put_and_can_merge_report_an_unnameable_conflict_copy() {
    let same = Hlc { physical_ms: 5, logical: 0 };
    let odd = entry("aaa", same, "abcdefg\u{e9}xyz");
    let mut m = Manifest::new();
    m.put("a.txt", entry("zzz", same, "bob"));
    assert!(!m.can_put("a.txt", &odd));
    assert!(m.can_put("b.txt", &odd));
    assert!(m.can_put("a.txt", &entry("aaa", same, "carol")));
    let mut other = Manifest::new();
    other.put("a.txt", odd);
    assert!(!m.can_merge(&other));
    assert!(m.can_merge(&m.copy()));
}

#[test]
fn merge_grouping_does_not_matter_without_true_conflicts() {
    let mut a = Manifest::new();
    a.put("x", entry("ax", Hlc { physical_ms: 3, logical: 0 }, "alice"));
    a.put("y", entry("ay", Hlc { physical_ms: 1, logical: 0 }, "alice"));
    let mut b = Manifest::new();
    b.put("x", entry("bx", Hlc { physical_ms: 2, logical: 0 }, "bob"));
    b.put("z", entry("bz", Hlc { physical_ms: 1, logical: 0 }, "bob"));
    let mut c = Manifest::new();
    c.put("y", entry("cy", Hlc { physical_ms: 4, logical: 0 }, "carol"));
    c.put("z", entry("cz", Hlc { physical_ms: 1, logical: 1 }, "carol"));

    let mut left = a.copy();
    left.merge(&b);
    left.merge(&c);

    let mut bc = b.copy();
    bc.merge(&c);
    let mut right = a.copy();
    right.merge(&bc);

    for p in ["x", "y", "z"] {
        assert_eq!(left.get(p).unwrap(), right.get(p).unwrap());
    }
    assert_eq!(left.get("x").unwrap().chunk_hashes, vec!["ax"]);
    assert_eq!(left.get("y").unwrap().chunk_hashes, vec!["cy"]);
    assert_eq!(left.get("z").unwrap().chunk_hashes, vec!["cz"]);
    assert_eq!(paths(&left), paths(&right));
}

#[test]
fn merge_order_does_not_matter_with_a_true_conflict() {
    let same = Hlc { physical_ms: 7, logical: 0 };
    let mut a = Manifest::new();
    a.put("s.txt", entry("hA", same, "alice"));
    a.put("only-a", entry("x", Hlc { physical_ms: 1, logical: 0 }, "alice"));
    let mut b = Manifest::new();
    b.put("s.txt", entry("hB", same, "bob"));
    b.put("only-b", entry("y", Hlc { physical_ms: 2, logical: 0 }, "bob"));

    let mut ab = a.copy();
    ab.merge(&b);
    let mut ba = b.copy();
    ba.merge(&a);
    assert_eq!(paths(&ab), paths(&ba));
    for p in paths(&ab) {
        assert_eq!(ab.get(&p), ba.get(&p));
    }
    assert_eq!(ab.get("s.txt").unwrap().chunk_hashes, vec!["hB"]);
    assert_eq!(ab.get("s.txt.conflict-alice").unwrap().chunk_hashes, vec!["hA"]);

    // Merging the same manifest again changes nothing.
    let before = paths(&ab);
    ab.merge(&b);
    assert_eq!(paths(&ab), before);
    assert_eq!(ab.len(), 4);
}

#[test]
fn merge_grouping_does_not_matter_with_a_true_conflict() {
    let same = Hlc { physical_ms: 9, logical: 0 };
    let mut a = Manifest::new();
    a.put("t.txt", entry("hA", same, "alice"));
    let mut b = Manifest::new();
    b.put("t.txt", entry("hB", same, "bob"));
    b.put("u.txt", entry("u1", Hlc { physical_ms: 3, logical: 0 }, "bob"));
    let mut c = Manifest::new();
    c.put("u.txt", entry("u2", Hlc { physical_ms: 4, logical: 0 }, "carol"));
    c.put("v.txt", entry("v1", Hlc { physical_ms: 1, logical: 0 }, "carol"));

    // (a ⊔ b) ⊔ c
    let mut left = a.copy();
    left.merge(&b);
    left.merge(&c);
    // a ⊔ (b ⊔ c)
    let mut bc = b.copy();
    bc.merge(&c);
    let mut right = a.copy();
    right.merge(&bc);

    assert_eq!(paths(&left), paths(&right));
    for p in paths(&left) {
        assert_eq!(left.get(&p), right.get(&p));
    }
    assert_eq!(left.get("t.txt").unwrap().chunk_hashes, vec!["hB"]);
    assert_eq!(left.get("t.txt.conflict-alice").unwrap().chunk_hashes, vec!["hA"]);
    assert_eq!(left.get("u.txt").unwrap().chunk_hashes, vec!["u2"]);
    assert_eq!(left.len(), 4);
}

#[test]
fn same_chunks_different_authors_converge_in_either_order() {
    let same = Hlc { physical_ms: 11, logical: 0 };
    let mut a = Manifest::new();
    a.put("w.txt", entry("hX", same, "alice"));
    let mut b = Manifest::new();
    b.put("w.txt", entry("hX", same, "bob"));

    let mut ab = a.copy();
    ab.merge(&b);
    let mut ba = b.copy();
    ba.merge(&a);
    assert_eq!(paths(&ab), paths(&ba));
    for p in paths(&ab) {
        assert_eq!(ab.get(&p), ba.get(&p));
    }
    // The author key breaks the tie: "bob" >= "alice".
    assert_eq!(ab.get("w.txt").unwrap().author_pubkey, "bob");
    assert_eq!(ab.get("w.txt.conflict-alice").unwrap().author_pubkey, "alice");
}

#[test]
fn three_way_conflict_grouping_does_not_matter() {
    let same = Hlc { physical_ms: 21, logical: 0 };
    let mut a = Manifest::new();
    a.put("t.txt", entry("hA", same, "alice"));
    let mut b = Manifest::new();
    b.put("t.txt", entry("hB", same, "bob"));
    let mut c = Manifest::new();
    c.put("t.txt", entry("hC", same, "carol"));

    let mut left = a.copy();
    left.merge(&b);
    left.merge(&c);
    let mut bc = b.copy();
    bc.merge(&c);
    let mut right = a.copy();
    right.merge(&bc);

    assert_eq!(paths(&left), paths(&right));
    for p in paths(&left) {
        assert_eq!(left.get(&p), right.get(&p));
    }
    assert_eq!(left.get("t.txt").unwrap().chunk_hashes, vec!["hC"]);
    assert_eq!(left.get("t.txt.conflict-alice").unwrap().chunk_hashes, vec!["hA"]);
    assert_eq!(left.get("t.txt.conflict-bob").unwrap().chunk_hashes, vec!["hB"]);
    assert_eq!(left.len(), 3);
}

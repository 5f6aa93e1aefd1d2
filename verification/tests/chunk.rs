use std::collections::HashSet;
use vault_manifest::chunk::{chunk, chunk_matches, MAX_CHUNK_SIZE};
use vault_manifest::strings::to_hex;

fn pseudo_random_bytes(len: usize, seed: u64) -> Vec<u8> {
    let mut state = seed;
    let mut out = Vec::with_capacity(len);
    while out.len() < len {
        state = state.wrapping_add(0x9E3779B97F4A7C15);
        let mut z = state;
        z = (z ^ (z >> 30)).wrapping_mul(0xBF58476D1CE4E5B9);
        z = (z ^ (z >> 27)).wrapping_mul(0x94D049BB133111EB);
        z ^= z >> 31;
        out.extend_from_slice(&z.to_le_bytes());
    }
    out.truncate(len);
    out
}

#[test]
fn empty_input_produces_no_chunks() {
    assert!(chunk(&[]).is_empty());
}

#[test]
fn chunking_is_deterministic() {
    let data = vec![b'x'; 200_000];
    assert_eq!(chunk(&data), chunk(&data));
}

#[test]
fn no_chunk_exceeds_the_max_size() {
    let data = vec![7u8; 500_000];
    for c in chunk(&data) {
        assert!(c.len <= MAX_CHUNK_SIZE, "chunk of {} bytes exceeds cap", c.len);
    }
}

#[test]
fn inserting_bytes_near_the_start_only_perturbs_nearby_chunks() {
    let original = pseudo_random_bytes(300_000, 0xC0FFEE);
    let mut edited = original.clone();
    edited.splice(10..10, [0xFFu8; 3]);

    let original_chunks = chunk(&original);
    let edited_chunks = chunk(&edited);

    let original_hashes: HashSet<_> = original_chunks.iter().map(|c| c.hash).collect();
    let edited_hashes: HashSet<_> = edited_chunks.iter().map(|c| c.hash).collect();
    let shared = original_hashes.intersection(&edited_hashes).count();

    let shared_fraction = shared as f64 / original_hashes.len() as f64;
    assert!(
        shared_fraction > 0.7,
        "expected most chunks to survive a small edit, only {:.0}% did",
        shared_fraction * 100.0
    );
}

#[test]
fn identical_content_in_different_files_dedups_to_the_same_chunk_hash() {
    let shared_block = pseudo_random_bytes(50_000, 0xFEED_BEEF);
    let mut file_a = shared_block.clone();
    file_a.extend_from_slice(b"file-a-specific-tail");
    let mut file_b = b"file-b-specific-head".to_vec();
    file_b.extend_from_slice(&shared_block);

    let a_hashes: HashSet<_> = chunk(&file_a).into_iter().map(|c| c.hash).collect();
    let b_hashes: HashSet<_> = chunk(&file_b).into_iter().map(|c| c.hash).collect();
    assert!(
        a_hashes.intersection(&b_hashes).count() > 0,
        "the shared 50KB block should dedup across two otherwise-different files"
    );
}

#[test]
fn chunks_tile_the_data_and_are_named_by_blake3() {
    let data = pseudo_random_bytes(200_000, 7);
    let chunks = chunk(&data);
    let mut next = 0usize;
    for c in &chunks {
        assert_eq!(c.offset, next);
        assert!(c.len >= 1 && c.len <= MAX_CHUNK_SIZE);
        let expected = blake3::hash(&data[c.offset..c.offset + c.len]);
        assert_eq!(&c.hash, expected.as_bytes());
        next = c.offset + c.len;
    }
    assert_eq!(next, data.len());
}

#[test]
fn a_short_input_is_one_chunk() {
    let data = b"hello world".to_vec();
    let chunks = chunk(&data);
    assert_eq!(chunks.len(), 1);
    assert_eq!(chunks[0].offset, 0);
    assert_eq!(chunks[0].len, 11);
    assert_eq!(to_hex(&chunks[0].hash), blake3::hash(b"hello world").to_hex().to_string());
}

#[test]
fn uniform_input_is_cut_at_the_max_size() {
    let data = vec![0u8; 3 * MAX_CHUNK_SIZE + 5];
    let lens: Vec<usize> = chunk(&data).iter().map(|c| c.len).collect();
    assert!(lens.iter().all(|&l| l <= MAX_CHUNK_SIZE));
    assert_eq!(lens.iter().sum::<usize>(), data.len());
}

#[test]
fn chunk_matches_checks_bytes_against_their_name() {
    let empty = "af1349b9f5f9a1a6a0404dea36dcc9499bcb25c9adc112b7cc9a93cae41f3262";
    assert!(chunk_matches(empty, b""));
    assert!(!chunk_matches(empty, b"x"));
    let data = b"hello, chunk".to_vec();
    let cs = chunk(&data);
    let name = to_hex(&cs[0].hash);
    assert!(chunk_matches(&name, &data));
    assert!(!chunk_matches(&name, b"hello, chunK"));
    assert!(!chunk_matches(&name.to_uppercase(), &data));
}

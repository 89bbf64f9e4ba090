use std::collections::hash_map::DefaultHasher;
use std::hash::Hasher;

use duplicate_finder::duplicate_finder::DuplicateFinder;
use duplicate_finder::duplicate_finder::FileEntry;
use duplicate_finder::fingerprint::fingerprint_bytes;
use duplicate_finder::resolution::collect_duplicates;
use duplicate_finder::resolution::compute_statistics;

fn digest(content: &[u8]) -> u64 {
    fingerprint_bytes(&content.to_vec())
}

#[test]
fn fingerprint_digests_the_whole_stream() {
    // the library's fingerprint is the digest of the full byte content
    let mut hasher = DefaultHasher::new();
    hasher.write(b"hello");
    assert_eq!(fingerprint_bytes(&b"hello".to_vec()), hasher.finish());
    // equal bytes give equal fingerprints, in every call
    assert_eq!(
        fingerprint_bytes(&b"hello".to_vec()),
        fingerprint_bytes(&b"hello".to_vec())
    );
    // the digest depends on more than a prefix or the length
    assert_ne!(
        fingerprint_bytes(&b"hello".to_vec()),
        fingerprint_bytes(&b"hellohello".to_vec())
    );
    assert_ne!(
        fingerprint_bytes(&b"hello".to_vec()),
        fingerprint_bytes(&b"world".to_vec())
    );
}

fn entry(path: &str, size: u64) -> (Vec<u8>, u64) {
    (path.as_bytes().to_vec(), size)
}

#[test]
fn scenario_two_identical_one_distinct_same_size() {
    // a.txt = "hello", b.txt = "hello", c.txt = "world": all 5 bytes
    let mut finder = DuplicateFinder::new();
    let (p, s) = entry("a.txt", 5);
    finder.process_entry(p, s);
    let (p, s) = entry("b.txt", 5);
    finder.process_entry(p, s);
    let (p, s) = entry("c.txt", 5);
    finder.process_entry(p, s);
    assert_eq!(finder.get_entry_count(), 3);

    let cands = finder.candidates();
    assert_eq!(cands.len(), 3);
    let fps: Vec<Option<u64>> = cands
        .iter()
        .map(|e: &FileEntry| {
            if e.path == b"c.txt".to_vec() {
                Some(digest(b"world"))
            } else {
                Some(digest(b"hello"))
            }
        })
        .collect();
    let groups = collect_duplicates(&cands, &fps);
    assert_eq!(groups.len(), 1);
    assert_eq!(groups[0], vec![b"a.txt".to_vec(), b"b.txt".to_vec()]);
}

#[test]
fn scenario_prefix_of_other_size_never_compared() {
    // x = 4 bytes, a byte-prefix of y = 5 bytes: size bucketing prevents
    // any comparison, so no fingerprint would even be computed
    let mut finder = DuplicateFinder::new();
    let (p, s) = entry("x", 4);
    finder.process_entry(p, s);
    let (p, s) = entry("y", 5);
    finder.process_entry(p, s);

    let cands = finder.candidates();
    assert_eq!(cands.len(), 0);
    let fps: Vec<Option<u64>> = Vec::new();
    let groups = collect_duplicates(&cands, &fps);
    assert_eq!(groups.len(), 0);
}

#[test]
fn scenario_unreadable_file_excluded() {
    // u is unreadable (its fingerprinting fails), v and w hold "hello":
    // the unreadable file appears in no group and is not counted as a
    // computed fingerprint
    let mut finder = DuplicateFinder::new();
    for name in ["u", "v", "w"] {
        let (p, s) = entry(name, 5);
        finder.process_entry(p, s);
    }
    let cands = finder.candidates();
    assert_eq!(cands.len(), 3);
    let fps: Vec<Option<u64>> = cands
        .iter()
        .map(|e: &FileEntry| {
            if e.path == b"u".to_vec() {
                None
            } else {
                Some(digest(b"hello"))
            }
        })
        .collect();
    let groups = collect_duplicates(&cands, &fps);
    assert_eq!(groups.len(), 1);
    assert_eq!(groups[0], vec![b"v".to_vec(), b"w".to_vec()]);
    for g in &groups {
        assert!(!g.contains(&b"u".to_vec()));
    }
    let stats = compute_statistics(finder.get_entry_count(), &fps, &groups);
    assert_eq!(stats.fingerprints_computed, 2);
    assert_eq!(stats.entries_observed, 3);
}

#[test]
fn scenario_unreadable_beside_single_readable_yields_nothing() {
    let mut finder = DuplicateFinder::new();
    let (p, s) = entry("u", 5);
    finder.process_entry(p, s);
    let (p, s) = entry("v", 5);
    finder.process_entry(p, s);
    let cands = finder.candidates();
    assert_eq!(cands.len(), 2);
    let fps: Vec<Option<u64>> = cands
        .iter()
        .map(|e: &FileEntry| {
            if e.path == b"u".to_vec() {
                None
            } else {
                Some(digest(b"hello"))
            }
        })
        .collect();
    let groups = collect_duplicates(&cands, &fps);
    assert_eq!(groups.len(), 0);
    let stats = compute_statistics(2, &fps, &groups);
    assert_eq!(stats.fingerprints_computed, 1);
    assert_eq!(stats.duplicate_groups, 0);
    assert_eq!(stats.duplicate_files, 0);
}

#[test]
fn scenario_empty_tree() {
    let finder = DuplicateFinder::new();
    assert_eq!(finder.get_entry_count(), 0);
    let cands = finder.candidates();
    assert_eq!(cands.len(), 0);
    let fps: Vec<Option<u64>> = Vec::new();
    let groups = collect_duplicates(&cands, &fps);
    assert_eq!(groups.len(), 0);
    let stats = compute_statistics(0, &fps, &groups);
    assert_eq!(stats.entries_observed, 0);
    assert_eq!(stats.fingerprints_computed, 0);
    assert_eq!(stats.duplicate_groups, 0);
    assert_eq!(stats.duplicate_files, 0);
}

#[test]
fn scenario_thousand_files_three_identical() {
    let mut finder = DuplicateFinder::new();
    for i in 0..997u64 {
        let name = format!("unique_{}", i);
        finder.process_entry(name.into_bytes(), 1000 + i);
    }
    for name in ["twin_a", "twin_b", "twin_c"] {
        let (p, s) = entry(name, 5);
        finder.process_entry(p, s);
    }
    assert_eq!(finder.get_entry_count(), 1000);
    let cands = finder.candidates();
    assert_eq!(cands.len(), 3);
    let fps: Vec<Option<u64>> = cands.iter().map(|_| Some(digest(b"hello"))).collect();
    let groups = collect_duplicates(&cands, &fps);
    assert_eq!(groups.len(), 1);
    assert_eq!(groups[0].len(), 3);
    let stats = compute_statistics(1000, &fps, &groups);
    assert_eq!(stats.duplicate_groups, 1);
    assert_eq!(stats.duplicate_files, 3);
}

#[test]
fn equal_size_distinct_content_never_grouped() {
    // a corpus of distinct two-byte files of equal size: under the
    // fingerprint policy none may be grouped, demonstrating no false
    // positives for this corpus with the chosen digest
    let mut finder = DuplicateFinder::new();
    let mut contents: Vec<Vec<u8>> = Vec::new();
    for i in 0..500u32 {
        let name = format!("f{}", i);
        finder.process_entry(name.into_bytes(), 2);
        contents.push(vec![(i % 256) as u8, (i / 256) as u8]);
    }
    let cands = finder.candidates();
    assert_eq!(cands.len(), 500);
    let fps: Vec<Option<u64>> = cands
        .iter()
        .map(|e: &FileEntry| {
            let name = String::from_utf8(e.path.clone()).unwrap();
            let i: usize = name[1..].parse().unwrap();
            Some(digest(&contents[i]))
        })
        .collect();
    let groups = collect_duplicates(&cands, &fps);
    assert_eq!(groups.len(), 0);
}

#[test]
fn resolution_is_idempotent() {
    let mut finder = DuplicateFinder::new();
    for name in ["m", "n", "o", "q"] {
        let (p, s) = entry(name, 7);
        finder.process_entry(p, s);
    }
    let cands = finder.candidates();
    let fps: Vec<Option<u64>> = cands
        .iter()
        .map(|e: &FileEntry| {
            if e.path == b"q".to_vec() {
                Some(digest(b"seven!!"))
            } else {
                Some(digest(b"7bytes!"))
            }
        })
        .collect();
    let first = collect_duplicates(&cands, &fps);
    let second = collect_duplicates(&cands, &fps);
    assert_eq!(first, second);
    assert_eq!(first.len(), 1);
    assert_eq!(
        first[0],
        vec![b"m".to_vec(), b"n".to_vec(), b"o".to_vec()]
    );
}

#[test]
fn candidate_order_does_not_matter() {
    // the same population handed over in two different orders, as a
    // parallel walk might produce, resolves to identical groups
    let h1 = digest(b"hello");
    let h2 = digest(b"world");
    let mk = |names_fps: &[(&str, u64)]| -> Vec<Vec<Vec<u8>>> {
        let cands: Vec<FileEntry> = names_fps
            .iter()
            .map(|(n, _)| FileEntry { path: n.as_bytes().to_vec(), size: 5 })
            .collect();
        let fps: Vec<Option<u64>> = names_fps.iter().map(|(_, h)| Some(*h)).collect();
        collect_duplicates(&cands, &fps)
    };
    let forward = mk(&[("a", h1), ("b", h1), ("c", h2), ("d", h2)]);
    let backward = mk(&[("d", h2), ("c", h2), ("b", h1), ("a", h1)]);
    assert_eq!(forward, backward);
    assert_eq!(forward.len(), 2);
    assert_eq!(forward[0], vec![b"a".to_vec(), b"b".to_vec()]);
    assert_eq!(forward[1], vec![b"c".to_vec(), b"d".to_vec()]);
}

#[test]
fn groups_sorted_canonically() {
    let h = digest(b"same!");
    let cands: Vec<FileEntry> = ["zz", "aa", "mm"]
        .iter()
        .map(|n| FileEntry { path: n.as_bytes().to_vec(), size: 5 })
        .collect();
    let fps: Vec<Option<u64>> = vec![Some(h), Some(h), Some(h)];
    let groups = collect_duplicates(&cands, &fps);
    assert_eq!(groups.len(), 1);
    assert_eq!(
        groups[0],
        vec![b"aa".to_vec(), b"mm".to_vec(), b"zz".to_vec()]
    );
}

//! The whole pipeline run over in-memory files, orchestrated the way a
//! caller doing real reads would orchestrate it: filter names, bucket by
//! size, partial-fingerprint the chunks the plan asks for, then verify the
//! full content of the survivors.

use pdf_scanner::digest::full_fingerprint;
use pdf_scanner::digest::partial_fingerprint;
use pdf_scanner::filter::is_target_file;
use pdf_scanner::filter::keep_entry;
use pdf_scanner::group::group_by_digest;
use pdf_scanner::group::group_by_size;
use pdf_scanner::group::DuplicateGroup;
use pdf_scanner::group::PathDigest;
use pdf_scanner::plan::chunk_plan;
use pdf_scanner::FileEntry;

fn content_of<'a>(files: &'a [(String, Vec<u8>)], path: &str) -> &'a Vec<u8> {
    &files.iter().find(|(n, _)| n == path).unwrap().1
}

fn find_duplicates(files: &[(String, Vec<u8>)]) -> Vec<DuplicateGroup> {
    let mut entries: Vec<FileEntry> = Vec::new();
    for (name, content) in files {
        let components: Vec<&str> = name.split('/').collect();
        if !components.iter().all(|c| keep_entry(c)) {
            continue;
        }
        if !is_target_file(components.last().unwrap()) {
            continue;
        }
        entries.push(FileEntry {
            path: name.clone(),
            size: content.len() as u64,
            modified_at_millis: 0,
        });
    }

    let buckets = group_by_size(&entries);

    let mut verified: Vec<PathDigest> = Vec::new();
    for b in &buckets {
        let mut partials: Vec<PathDigest> = Vec::new();
        for p in &b.paths {
            let content = content_of(files, p);
            let plan = chunk_plan(content.len() as u64);
            let head: Vec<u8> = content[..plan.head_len as usize].to_vec();
            let tail: Option<Vec<u8>> = if plan.tail_len > 0 {
                let lo = plan.tail_offset as usize;
                let hi = (plan.tail_offset + plan.tail_len) as usize;
                Some(content[lo..hi].to_vec())
            } else {
                None
            };
            partials.push(PathDigest { path: p.clone(), digest: partial_fingerprint(&head, &tail) });
        }
        for g in group_by_digest(&partials) {
            for p in g.paths {
                let content = content_of(files, &p);
                let digest = full_fingerprint(content);
                verified.push(PathDigest { path: p, digest });
            }
        }
    }

    group_by_digest(&verified)
}

fn file(name: &str, content: Vec<u8>) -> (String, Vec<u8>) {
    (name.to_string(), content)
}

fn patterned(len: usize, seed: u8) -> Vec<u8> {
    (0..len).map(|i| (i as u8).wrapping_mul(31).wrapping_add(seed)).collect()
}

#[test]
fn identical_pair_is_one_group_and_distinct_third_is_absent() {
    let shared = patterned(10 * 1024, 1);
    let other = patterned(10 * 1024, 2);
    let files = vec![
        file("a.pdf", shared.clone()),
        file("b.pdf", other.clone()),
        file("c.pdf", shared.clone()),
    ];
    let groups = find_duplicates(&files);
    assert_eq!(groups.len(), 1);
    assert_eq!(groups[0].digest, format!("{:x}", md5::compute(&shared)));
    assert_eq!(groups[0].paths, vec!["a.pdf", "c.pdf"]);
}

#[test]
fn other_extension_is_never_scanned_even_with_identical_bytes() {
    let shared = patterned(5 * 1024, 3);
    let files = vec![file("x.pdf", shared.clone()), file("y.txt", shared.clone())];
    assert_eq!(find_duplicates(&files).len(), 0);
}

#[test]
fn duplicate_inside_hidden_directory_is_pruned() {
    let shared = patterned(6 * 1024, 4);
    let files = vec![
        file("a.pdf", shared.clone()),
        file(".trash/copy.pdf", shared.clone()),
    ];
    assert_eq!(find_duplicates(&files).len(), 0);
}

#[test]
fn equal_window_different_middle_passes_partial_and_is_separated() {
    let first = patterned(9000, 5);
    let mut second = first.clone();
    second[4500] = second[4500].wrapping_add(1);

    // both files share their first and last 4096 bytes, so the partial
    // phase cannot tell them apart
    let plan = chunk_plan(9000);
    assert!(plan.tail_len > 0);
    let head_a: Vec<u8> = first[..4096].to_vec();
    let head_b: Vec<u8> = second[..4096].to_vec();
    let tail_a: Vec<u8> = first[9000 - 4096..].to_vec();
    let tail_b: Vec<u8> = second[9000 - 4096..].to_vec();
    assert_eq!(
        partial_fingerprint(&head_a, &Some(tail_a)),
        partial_fingerprint(&head_b, &Some(tail_b))
    );

    let files = vec![file("a.pdf", first), file("b.pdf", second)];
    assert_eq!(find_duplicates(&files).len(), 0);
}

#[test]
fn files_without_counterparts_are_in_no_group() {
    let files = vec![
        file("a.pdf", patterned(2048, 6)),
        file("b.pdf", patterned(2048, 7)),
        file("c.pdf", patterned(4000, 8)),
    ];
    assert_eq!(find_duplicates(&files).len(), 0);
    assert_eq!(find_duplicates(&[]).len(), 0);
}

#[test]
fn group_members_share_an_exact_byte_length() {
    let big = patterned(12_000, 12);
    let small = patterned(2000, 13);
    let files = vec![
        file("a.pdf", big.clone()),
        file("b.pdf", small.clone()),
        file("c.pdf", big.clone()),
        file("d.pdf", small.clone()),
    ];
    let groups = find_duplicates(&files);
    assert_eq!(groups.len(), 2);
    for g in &groups {
        let sizes: Vec<usize> = g.paths.iter().map(|p| content_of(&files, p).len()).collect();
        assert!(sizes.windows(2).all(|w| w[0] == w[1]));
    }
}

#[test]
fn running_twice_yields_the_same_groups() {
    let shared_a = patterned(10_000, 9);
    let shared_b = patterned(3000, 10);
    let files = vec![
        file("a.pdf", shared_a.clone()),
        file("b.pdf", shared_a.clone()),
        file("c.pdf", shared_a.clone()),
        file("d.pdf", shared_b.clone()),
        file("e.pdf", shared_b.clone()),
        file("f.pdf", patterned(3000, 11)),
    ];
    let mut r1 = find_duplicates(&files);
    let mut r2 = find_duplicates(&files);
    r1.sort_by(|x, y| x.digest.cmp(&y.digest));
    r2.sort_by(|x, y| x.digest.cmp(&y.digest));
    assert_eq!(r1.len(), 2);
    assert_eq!(r1.len(), r2.len());
    for (g1, g2) in r1.iter().zip(r2.iter()) {
        assert_eq!(g1.digest, g2.digest);
        assert_eq!(g1.paths, g2.paths);
    }
    let three = r1.iter().find(|g| g.paths.len() == 3).unwrap();
    assert_eq!(three.paths, vec!["a.pdf", "b.pdf", "c.pdf"]);
    let two = r1.iter().find(|g| g.paths.len() == 2).unwrap();
    assert_eq!(two.paths, vec!["d.pdf", "e.pdf"]);
}

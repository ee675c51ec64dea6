use pdf_scanner::group::group_by_digest;
use pdf_scanner::group::group_by_size;
use pdf_scanner::group::DuplicateGroup;
use pdf_scanner::group::PathDigest;
use pdf_scanner::group::SizeBucket;
use pdf_scanner::FileEntry;

fn entry(path: &str, size: u64) -> FileEntry {
    FileEntry { path: path.to_string(), size, modified_at_millis: 0 }
}

fn item(path: &str, digest: &str) -> PathDigest {
    PathDigest { path: path.to_string(), digest: digest.to_string() }
}

fn bucket_for(buckets: &[SizeBucket], size: u64) -> Option<&SizeBucket> {
    buckets.iter().find(|b| b.size == size)
}

fn group_for<'a>(groups: &'a [DuplicateGroup], digest: &str) -> Option<&'a DuplicateGroup> {
    groups.iter().find(|g| g.digest == digest)
}

#[test]
fn size_buckets_keep_only_shared_sizes() {
    let entries = vec![
        entry("a", 10),
        entry("b", 20),
        entry("c", 10),
        entry("d", 30),
        entry("e", 20),
        entry("f", 10),
    ];
    let buckets = group_by_size(&entries);
    assert_eq!(buckets.len(), 2);

    let ten = bucket_for(&buckets, 10).unwrap();
    assert_eq!(ten.paths, vec!["a", "c", "f"]);

    let twenty = bucket_for(&buckets, 20).unwrap();
    assert_eq!(twenty.paths, vec!["b", "e"]);

    assert!(bucket_for(&buckets, 30).is_none());
}

#[test]
fn size_buckets_of_all_singletons_are_empty() {
    let entries = vec![entry("a", 1), entry("b", 2), entry("c", 3)];
    assert_eq!(group_by_size(&entries).len(), 0);
    assert_eq!(group_by_size(&Vec::new()).len(), 0);
}

#[test]
fn digest_groups_keep_input_order_and_drop_singletons() {
    let items = vec![
        item("a", "d1"),
        item("b", "d2"),
        item("c", "d1"),
        item("d", "d3"),
        item("e", "d1"),
    ];
    let groups = group_by_digest(&items);
    assert_eq!(groups.len(), 1);

    let g = group_for(&groups, "d1").unwrap();
    assert_eq!(g.paths, vec!["a", "c", "e"]);

    assert!(group_for(&groups, "d2").is_none());
    assert!(group_for(&groups, "d3").is_none());
}

#[test]
fn digest_groups_separate_distinct_digests() {
    let items = vec![
        item("a", "d1"),
        item("b", "d2"),
        item("c", "d2"),
        item("d", "d1"),
    ];
    let groups = group_by_digest(&items);
    assert_eq!(groups.len(), 2);
    assert_eq!(group_for(&groups, "d1").unwrap().paths, vec!["a", "d"]);
    assert_eq!(group_for(&groups, "d2").unwrap().paths, vec!["b", "c"]);
}

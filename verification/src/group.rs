//! Grouping: buckets of paths sharing an exact byte length, and groups of
//! paths sharing a digest. Only buckets and groups with at least two members
//! survive; singletons cannot be duplicates and are charged no further work.

use crate::FileEntry;
use vstd::prelude::*;

verus! {

/// Paths within one size bucket: every listed path had exactly `size` bytes
/// when it was measured.
pub struct SizeBucket {
    pub size: u64,
    pub paths: Vec<String>,
}

/// A path together with a digest computed for it.
pub struct PathDigest {
    pub path: String,
    pub digest: String,
}

/// Paths sharing one digest. Within the partial phase the digest is that of
/// the partial window; in the final output it is the full-content digest and
/// the group is a confirmed duplicate group.
pub struct DuplicateGroup {
    pub digest: String,
    pub paths: Vec<String>,
}

/// The views of the paths in `ps`, in order.
pub open spec fn view_paths(ps: Seq<String>) -> Seq<Seq<char>> {
    ps.map_values(|p: String| p@)
}

/// The paths of the entries with byte length `s`, in input order.
pub open spec fn paths_with_size(entries: Seq<FileEntry>, s: u64) -> Seq<Seq<char>>
    decreases entries.len(),
{
    if entries.len() == 0 {
        Seq::empty()
    } else {
        let rest = paths_with_size(entries.drop_last(), s);
        if entries.last().size == s {
            rest.push(entries.last().path@)
        } else {
            rest
        }
    }
}

/// The paths of the items with digest `d`, in input order.
pub open spec fn paths_with_digest(items: Seq<PathDigest>, d: Seq<char>) -> Seq<Seq<char>>
    decreases items.len(),
{
    if items.len() == 0 {
        Seq::empty()
    } else {
        let rest = paths_with_digest(items.drop_last(), d);
        if items.last().digest@ == d {
            rest.push(items.last().path@)
        } else {
            rest
        }
    }
}

/// Some entry before position `k` has byte length `s`.
pub open spec fn size_occurs_before(entries: Seq<FileEntry>, s: u64, k: int) -> bool {
    exists|j: int| 0 <= j < k && (#[trigger] entries[j]).size == s
}

/// Some item before position `k` carries digest `d`.
pub open spec fn digest_occurs_before(items: Seq<PathDigest>, d: Seq<char>, k: int) -> bool {
    exists|j: int| 0 <= j < k && (#[trigger] items[j]).digest@ == d
}

/// `r` is the size grouping of `entries`: one bucket for each byte length
/// that at least two entries share, holding exactly the paths of the entries
/// of that length, in input order; no two buckets share a length.
pub open spec fn is_size_grouping(entries: Seq<FileEntry>, r: Seq<SizeBucket>) -> bool {
    &&& forall|i: int|
        0 <= i < r.len() ==> view_paths((#[trigger] r[i]).paths@) == paths_with_size(
            entries,
            r[i].size,
        ) && r[i].paths@.len() >= 2
    &&& forall|i: int, j: int| 0 <= i < j < r.len() ==> r[i].size != r[j].size
    &&& forall|s: u64|
        #[trigger] paths_with_size(entries, s).len() >= 2 ==> exists|i: int|
            0 <= i < r.len() && (#[trigger] r[i]).size == s
}

/// `r` is the digest grouping of `items`: one group for each digest that at
/// least two items share, holding exactly the paths of the items with that
/// digest, in input order; no two groups share a digest.
pub open spec fn is_digest_grouping(items: Seq<PathDigest>, r: Seq<DuplicateGroup>) -> bool {
    &&& forall|i: int|
        0 <= i < r.len() ==> view_paths((#[trigger] r[i]).paths@) == paths_with_digest(
            items,
            r[i].digest@,
        ) && r[i].paths@.len() >= 2
    &&& forall|i: int, j: int| 0 <= i < j < r.len() ==> r[i].digest@ != r[j].digest@
    &&& forall|d: Seq<char>|
        #[trigger] paths_with_digest(items, d).len() >= 2 ==> exists|i: int|
            0 <= i < r.len() && (#[trigger] r[i]).digest@ == d
}

/// A byte length with at least one path occurs among the entries.
proof fn lemma_paths_with_size_occurs(entries: Seq<FileEntry>, s: u64)
    requires
        paths_with_size(entries, s).len() > 0,
    ensures
        size_occurs_before(entries, s, entries.len() as int),
    decreases entries.len(),
{
    if entries.len() == 0 {
        assert(paths_with_size(entries, s).len() == 0);
    } else {
        if entries.last().size == s {
            assert(entries[entries.len() - 1].size == s);
        } else {
            lemma_paths_with_size_occurs(entries.drop_last(), s);
            let j = choose|j: int|
                0 <= j < entries.drop_last().len() && (#[trigger] entries.drop_last()[j]).size
                    == s;
            assert(entries[j].size == s);
        }
    }
}

/// A digest with at least one path occurs among the items.
proof fn lemma_paths_with_digest_occurs(items: Seq<PathDigest>, d: Seq<char>)
    requires
        paths_with_digest(items, d).len() > 0,
    ensures
        digest_occurs_before(items, d, items.len() as int),
    decreases items.len(),
{
    if items.len() == 0 {
        assert(paths_with_digest(items, d).len() == 0);
    } else {
        if items.last().digest@ == d {
            assert(items[items.len() - 1].digest@ == d);
        } else {
            lemma_paths_with_digest_occurs(items.drop_last(), d);
            let j = choose|j: int|
                0 <= j < items.drop_last().len() && (#[trigger] items.drop_last()[j]).digest@
                    == d;
            assert(items[j].digest@ == d);
        }
    }
}

/// Bucket the entries by exact byte length and keep the buckets with at
/// least two paths.
pub fn group_by_size(entries: &Vec<FileEntry>) -> (r: Vec<SizeBucket>)
    ensures
        is_size_grouping(entries@, r@),
{
    let n = entries.len();
    let mut r: Vec<SizeBucket> = Vec::new();
    let mut k: usize = 0;
    while k < n
        invariant
            n == entries@.len(),
            k <= n,
            forall|i: int|
                0 <= i < r@.len() ==> view_paths((#[trigger] r@[i]).paths@) == paths_with_size(
                    entries@,
                    r@[i].size,
                ) && r@[i].paths@.len() >= 2,
            forall|i: int|
                0 <= i < r@.len() ==> size_occurs_before(
                    entries@,
                    (#[trigger] r@[i]).size,
                    k as int,
                ),
            forall|i: int, j: int| 0 <= i < j < r@.len() ==> r@[i].size != r@[j].size,
            forall|s: u64|
                size_occurs_before(entries@, s, k as int) && #[trigger] paths_with_size(
                    entries@,
                    s,
                ).len() >= 2 ==> exists|i: int| 0 <= i < r@.len() && (#[trigger] r@[i]).size == s,
        decreases n - k,
    {
        let ghost r0 = r@;
        let s = entries[k].size;
        let mut seen = false;
        let mut j: usize = 0;
        while j < k
            invariant
                j <= k,
                k < n,
                n == entries@.len(),
                s == entries@[k as int].size,
                seen == size_occurs_before(entries@, s, j as int),
            decreases k - j,
        {
            if entries[j].size == s {
                seen = true;
                proof {
                    assert(entries@[j as int].size == s);
                    assert(size_occurs_before(entries@, s, j + 1));
                }
            } else {
                proof {
                    if size_occurs_before(entries@, s, j + 1) {
                        let w = choose|w: int|
                            0 <= w < j + 1 && (#[trigger] entries@[w]).size == s;
                        assert(w < j || w == j);
                        assert(size_occurs_before(entries@, s, j as int) || entries@[j as int].size
                            == s);
                    }
                }
            }
            j += 1;
        }
        if !seen {
            let mut paths: Vec<String> = Vec::new();
            let mut m: usize = 0;
            while m < n
                invariant
                    n == entries@.len(),
                    m <= n,
                    s == entries@[k as int].size,
                    view_paths(paths@) == paths_with_size(entries@.take(m as int), s),
                decreases n - m,
            {
                proof {
                    assert(entries@.take(m + 1).drop_last() =~= entries@.take(m as int));
                    assert(entries@.take(m + 1).last() == entries@[m as int]);
                }
                if entries[m].size == s {
                    let p = entries[m].path.clone();
                    paths.push(p);
                    proof {
                        assert(view_paths(paths@) =~= paths_with_size(
                            entries@.take(m as int),
                            s,
                        ).push(entries@[m as int].path@));
                    }
                }
                m += 1;
            }
            proof {
                assert(entries@.take(n as int) =~= entries@);
            }
            if paths.len() >= 2 {
                proof {
                    assert(view_paths(paths@).len() == paths@.len());
                }
                r.push(SizeBucket { size: s, paths });
                proof {
                    assert(r@[r@.len() - 1].size == s);
                }
            } else {
                proof {
                    assert(view_paths(paths@).len() == paths@.len());
                }
            }
            proof {
                assert(paths_with_size(entries@, s).len() >= 2 ==> r@.len() > 0 && r@[r@.len()
                    - 1].size == s);
            }
        }
        proof {
            assert(entries@[k as int].size == s);
            assert(size_occurs_before(entries@, s, k + 1));
            assert forall|i: int| 0 <= i < r@.len() implies size_occurs_before(
                entries@,
                (#[trigger] r@[i]).size,
                k + 1,
            ) by {
                if size_occurs_before(entries@, r@[i].size, k as int) {
                    let w = choose|w: int|
                        0 <= w < k && (#[trigger] entries@[w]).size == r@[i].size;
                    assert(0 <= w < k + 1 && entries@[w].size == r@[i].size);
                }
            }
            assert forall|s2: u64|
                size_occurs_before(entries@, s2, k + 1) && #[trigger] paths_with_size(
                    entries@,
                    s2,
                ).len() >= 2 implies exists|i: int|
                0 <= i < r@.len() && (#[trigger] r@[i]).size == s2 by {
                let w = choose|w: int| 0 <= w < k + 1 && (#[trigger] entries@[w]).size == s2;
                if w == k && !seen {
                    assert(r@.len() > 0 && r@[r@.len() - 1].size == s2);
                } else {
                    if w < k {
                        assert(size_occurs_before(entries@, s2, k as int));
                    } else {
                        assert(s2 == s);
                        assert(size_occurs_before(entries@, s2, k as int));
                    }
                    assert(exists|i: int| 0 <= i < r0.len() && (#[trigger] r0[i]).size == s2);
                    let i0 = choose|i: int| 0 <= i < r0.len() && (#[trigger] r0[i]).size == s2;
                    assert(r@.len() >= r0.len());
                    assert(r@[i0] == r0[i0]);
                    assert(r@[i0].size == s2);
                }
            }
        }
        k += 1;
    }
    proof {
        assert forall|s: u64| #[trigger] paths_with_size(entries@, s).len() >= 2 implies exists|
            i: int,
        |
            0 <= i < r@.len() && (#[trigger] r@[i]).size == s by {
            lemma_paths_with_size_occurs(entries@, s);
        }
    }
    r
}

/// Group the items by digest and keep the groups with at least two paths.
pub fn group_by_digest(items: &Vec<PathDigest>) -> (r: Vec<DuplicateGroup>)
    ensures
        is_digest_grouping(items@, r@),
{
    let n = items.len();
    let mut r: Vec<DuplicateGroup> = Vec::new();
    let mut k: usize = 0;
    while k < n
        invariant
            n == items@.len(),
            k <= n,
            forall|i: int|
                0 <= i < r@.len() ==> view_paths((#[trigger] r@[i]).paths@) == paths_with_digest(
                    items@,
                    r@[i].digest@,
                ) && r@[i].paths@.len() >= 2,
            forall|i: int|
                0 <= i < r@.len() ==> digest_occurs_before(
                    items@,
                    (#[trigger] r@[i]).digest@,
                    k as int,
                ),
            forall|i: int, j: int| 0 <= i < j < r@.len() ==> r@[i].digest@ != r@[j].digest@,
            forall|d: Seq<char>|
                digest_occurs_before(items@, d, k as int) && #[trigger] paths_with_digest(
                    items@,
                    d,
                ).len() >= 2 ==> exists|i: int|
                    0 <= i < r@.len() && (#[trigger] r@[i]).digest@ == d,
        decreases n - k,
    {
        let ghost r0 = r@;
        let mut seen = false;
        let mut j: usize = 0;
        while j < k
            invariant
                j <= k,
                k < n,
                n == items@.len(),
                seen == digest_occurs_before(items@, items@[k as int].digest@, j as int),
            decreases k - j,
        {
            if items[j].digest == items[k].digest {
                seen = true;
                proof {
                    assert(items@[j as int].digest@ == items@[k as int].digest@);
                    assert(digest_occurs_before(items@, items@[k as int].digest@, j + 1));
                }
            } else {
                proof {
                    let d = items@[k as int].digest@;
                    if digest_occurs_before(items@, d, j + 1) {
                        let w = choose|w: int| 0 <= w < j + 1 && (#[trigger] items@[w]).digest@ == d;
                        assert(w < j || w == j);
                        assert(digest_occurs_before(items@, d, j as int) || items@[j as int].digest@
                            == d);
                    }
                }
            }
            j += 1;
        }
        if !seen {
            let mut paths: Vec<String> = Vec::new();
            let mut m: usize = 0;
            while m < n
                invariant
                    n == items@.len(),
                    m <= n,
                    k < n,
                    view_paths(paths@) == paths_with_digest(
                        items@.take(m as int),
                        items@[k as int].digest@,
                    ),
                decreases n - m,
            {
                proof {
                    assert(items@.take(m + 1).drop_last() =~= items@.take(m as int));
                    assert(items@.take(m + 1).last() == items@[m as int]);
                }
                if items[m].digest == items[k].digest {
                    let p = items[m].path.clone();
                    paths.push(p);
                    proof {
                        assert(view_paths(paths@) =~= paths_with_digest(
                            items@.take(m as int),
                            items@[k as int].digest@,
                        ).push(items@[m as int].path@));
                    }
                }
                m += 1;
            }
            proof {
                assert(items@.take(n as int) =~= items@);
            }
            if paths.len() >= 2 {
                proof {
                    assert(view_paths(paths@).len() == paths@.len());
                }
                let d = items[k].digest.clone();
                r.push(DuplicateGroup { digest: d, paths });
                proof {
                    assert(r@[r@.len() - 1].digest@ == items@[k as int].digest@);
                }
            } else {
                proof {
                    assert(view_paths(paths@).len() == paths@.len());
                }
            }
            proof {
                assert(paths_with_digest(items@, items@[k as int].digest@).len() >= 2 ==> r@.len()
                    > 0 && r@[r@.len() - 1].digest@ == items@[k as int].digest@);
            }
        }
        proof {
            let dk = items@[k as int].digest@;
            assert(digest_occurs_before(items@, dk, k + 1));
            assert forall|i: int| 0 <= i < r@.len() implies digest_occurs_before(
                items@,
                (#[trigger] r@[i]).digest@,
                k + 1,
            ) by {
                if digest_occurs_before(items@, r@[i].digest@, k as int) {
                    let w = choose|w: int|
                        0 <= w < k && (#[trigger] items@[w]).digest@ == r@[i].digest@;
                    assert(0 <= w < k + 1 && items@[w].digest@ == r@[i].digest@);
                }
            }
            assert forall|d2: Seq<char>|
                digest_occurs_before(items@, d2, k + 1) && #[trigger] paths_with_digest(
                    items@,
                    d2,
                ).len() >= 2 implies exists|i: int|
                0 <= i < r@.len() && (#[trigger] r@[i]).digest@ == d2 by {
                let w = choose|w: int| 0 <= w < k + 1 && (#[trigger] items@[w]).digest@ == d2;
                if w == k && !seen {
                    assert(r@.len() > 0 && r@[r@.len() - 1].digest@ == d2);
                } else {
                    if w < k {
                        assert(digest_occurs_before(items@, d2, k as int));
                    } else {
                        assert(d2 == dk);
                        assert(digest_occurs_before(items@, d2, k as int));
                    }
                    assert(exists|i: int| 0 <= i < r0.len() && (#[trigger] r0[i]).digest@ == d2);
                    let i0 = choose|i: int| 0 <= i < r0.len() && (#[trigger] r0[i]).digest@ == d2;
                    assert(r@.len() >= r0.len());
                    assert(r@[i0] == r0[i0]);
                    assert(r@[i0].digest@ == d2);
                }
            }
        }
        k += 1;
    }
    proof {
        assert forall|d: Seq<char>| #[trigger] paths_with_digest(items@, d).len() >= 2 implies
            exists|i: int| 0 <= i < r@.len() && (#[trigger] r@[i]).digest@ == d by {
            lemma_paths_with_digest_occurs(items@, d);
        }
    }
    r
}

} // verus!

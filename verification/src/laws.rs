//! The pipeline as a whole, modelled over file contents, and the guarantees
//! the phases give together.
//!
//! A `ScanFile` pairs a path with the content read for it (a snapshot: a
//! file raced by writers is modelled as whatever bytes the scan saw). A file
//! is charged a full-content read only when its size bucket and then its
//! partial-fingerprint group each hold at least two files; the emitted
//! groups collect survivors by full digest. The digests come from an
//! outside digest routine, so statements that need "equal digest implies
//! equal content" take collision-freedom over the scanned set as a
//! hypothesis: MD5 has collisions in general, and the guarantees hold for
//! inputs without one.

use crate::digest::spec_full_digest;
use crate::digest::spec_partial_digest;
use crate::group::is_digest_grouping;
use crate::group::is_size_grouping;
use crate::group::paths_with_digest;
use crate::group::paths_with_size;
use crate::group::view_paths;
use crate::group::DuplicateGroup;
use crate::group::PathDigest;
use crate::group::SizeBucket;
use crate::plan::spec_partial_window;
use crate::FileEntry;
use vstd::prelude::*;

verus! {

/// A file as the pipeline sees it: its path and the bytes read for it.
pub struct ScanFile {
    pub path: Seq<char>,
    pub content: Seq<u8>,
}

/// The files whose content has byte length `n`, in order.
pub open spec fn files_of_size(files: Seq<ScanFile>, n: nat) -> Seq<ScanFile>
    decreases files.len(),
{
    if files.len() == 0 {
        Seq::empty()
    } else {
        let rest = files_of_size(files.drop_last(), n);
        if files.last().content.len() == n {
            rest.push(files.last())
        } else {
            rest
        }
    }
}

/// The files of byte length `n` whose partial digest is `pd`, in order:
/// one partial-fingerprint group within one size bucket.
pub open spec fn files_of_partial(files: Seq<ScanFile>, n: nat, pd: Seq<char>) -> Seq<ScanFile>
    decreases files.len(),
{
    if files.len() == 0 {
        Seq::empty()
    } else {
        let rest = files_of_partial(files.drop_last(), n, pd);
        if files.last().content.len() == n && spec_partial_digest(files.last().content) == pd {
            rest.push(files.last())
        } else {
            rest
        }
    }
}

/// The file is charged a full-content read: its size bucket and then its
/// partial-fingerprint group within that bucket each hold at least two
/// files.
pub open spec fn survives(files: Seq<ScanFile>, f: ScanFile) -> bool {
    files_of_size(files, f.content.len()).len() >= 2 && files_of_partial(
        files,
        f.content.len(),
        spec_partial_digest(f.content),
    ).len() >= 2
}

/// The files of `sub` that survive the early phases among `all` and whose
/// full digest is `d`, in order.
pub open spec fn members_rec(all: Seq<ScanFile>, sub: Seq<ScanFile>, d: Seq<char>) -> Seq<
    ScanFile,
>
    decreases sub.len(),
{
    if sub.len() == 0 {
        Seq::empty()
    } else {
        let rest = members_rec(all, sub.drop_last(), d);
        if survives(all, sub.last()) && spec_full_digest(sub.last().content) == d {
            rest.push(sub.last())
        } else {
            rest
        }
    }
}

/// The files the group for full digest `d` would hold; the group is emitted
/// only when there are at least two of them.
pub open spec fn final_members(files: Seq<ScanFile>, d: Seq<char>) -> Seq<ScanFile> {
    members_rec(files, files, d)
}

/// No two scanned files stand at the same path.
pub open spec fn distinct_paths(files: Seq<ScanFile>) -> bool {
    forall|i: int, j: int|
        0 <= i < j < files.len() ==> (#[trigger] files[i]).path != (#[trigger] files[j]).path
}

/// Equal full digests come only from equal contents within the scanned set.
pub open spec fn collision_free(files: Seq<ScanFile>) -> bool {
    forall|a: ScanFile, b: ScanFile|
        #![trigger files.contains(a), files.contains(b)]
        files.contains(a) && files.contains(b) && spec_full_digest(a.content) == spec_full_digest(
            b.content,
        ) ==> a.content == b.content
}

/// One file of length `n` makes its size bucket non-empty.
proof fn lemma_size_count_one(files: Seq<ScanFile>, n: nat, i: int)
    requires
        0 <= i < files.len(),
        files[i].content.len() == n,
    ensures
        files_of_size(files, n).len() >= 1,
    decreases files.len(),
{
    if i == files.len() - 1 {
    } else {
        lemma_size_count_one(files.drop_last(), n, i);
    }
}

/// Two files of length `n` at distinct positions give the bucket at least
/// two members.
proof fn lemma_size_count_two(files: Seq<ScanFile>, n: nat, i: int, j: int)
    requires
        0 <= i < j < files.len(),
        files[i].content.len() == n,
        files[j].content.len() == n,
    ensures
        files_of_size(files, n).len() >= 2,
    decreases files.len(),
{
    if j == files.len() - 1 {
        lemma_size_count_one(files.drop_last(), n, i);
    } else {
        lemma_size_count_two(files.drop_last(), n, i, j);
    }
}

/// One file of length `n` and partial digest `pd` makes that group
/// non-empty.
proof fn lemma_partial_count_one(files: Seq<ScanFile>, n: nat, pd: Seq<char>, i: int)
    requires
        0 <= i < files.len(),
        files[i].content.len() == n,
        spec_partial_digest(files[i].content) == pd,
    ensures
        files_of_partial(files, n, pd).len() >= 1,
    decreases files.len(),
{
    if i == files.len() - 1 {
    } else {
        lemma_partial_count_one(files.drop_last(), n, pd, i);
    }
}

/// Two files alike in length and partial digest give their group at least
/// two members.
proof fn lemma_partial_count_two(files: Seq<ScanFile>, n: nat, pd: Seq<char>, i: int, j: int)
    requires
        0 <= i < j < files.len(),
        files[i].content.len() == n,
        files[j].content.len() == n,
        spec_partial_digest(files[i].content) == pd,
        spec_partial_digest(files[j].content) == pd,
    ensures
        files_of_partial(files, n, pd).len() >= 2,
    decreases files.len(),
{
    if j == files.len() - 1 {
        lemma_partial_count_one(files.drop_last(), n, pd, i);
    } else {
        lemma_partial_count_two(files.drop_last(), n, pd, i, j);
    }
}

/// Every member of a group is a scanned file that survived the early phases
/// and has the group's digest.
proof fn lemma_members_sound(all: Seq<ScanFile>, sub: Seq<ScanFile>, d: Seq<char>, x: ScanFile)
    requires
        members_rec(all, sub, d).contains(x),
    ensures
        sub.contains(x),
        survives(all, x),
        spec_full_digest(x.content) == d,
    decreases sub.len(),
{
    if sub.len() == 0 {
        assert(members_rec(all, sub, d).len() == 0);
    } else {
        let rest = members_rec(all, sub.drop_last(), d);
        let last = sub.last();
        let m = members_rec(all, sub, d);
        if survives(all, last) && spec_full_digest(last.content) == d {
            let idx = choose|idx: int| 0 <= idx < m.len() && m[idx] == x;
            if idx == m.len() - 1 {
                assert(x == last);
                assert(sub[sub.len() - 1] == x);
            } else {
                assert(rest[idx] == x);
                assert(rest.contains(x));
                lemma_members_sound(all, sub.drop_last(), d, x);
                let k = choose|k: int| 0 <= k < sub.drop_last().len() && sub.drop_last()[k] == x;
                assert(sub[k] == x);
            }
        } else {
            lemma_members_sound(all, sub.drop_last(), d, x);
            let k = choose|k: int| 0 <= k < sub.drop_last().len() && sub.drop_last()[k] == x;
            assert(sub[k] == x);
        }
    }
}

/// A scanned file that survived the early phases stands in the group of its
/// digest.
proof fn lemma_members_complete(all: Seq<ScanFile>, sub: Seq<ScanFile>, d: Seq<char>, i: int)
    requires
        0 <= i < sub.len(),
        survives(all, sub[i]),
        spec_full_digest(sub[i].content) == d,
    ensures
        members_rec(all, sub, d).contains(sub[i]),
    decreases sub.len(),
{
    let rest = members_rec(all, sub.drop_last(), d);
    let m = members_rec(all, sub, d);
    if i == sub.len() - 1 {
        assert(m[m.len() - 1] == sub[i]);
    } else {
        lemma_members_complete(all, sub.drop_last(), d, i);
        let idx = choose|idx: int| 0 <= idx < rest.len() && rest[idx] == sub.drop_last()[i];
        assert(m[idx] == rest[idx]);
        assert(m[idx] == sub[i]);
    }
}

/// When no file qualifies, the group is empty.
proof fn lemma_members_empty(all: Seq<ScanFile>, sub: Seq<ScanFile>, d: Seq<char>)
    requires
        forall|k: int|
            0 <= k < sub.len() ==> !(survives(all, #[trigger] sub[k]) && spec_full_digest(
                sub[k].content,
            ) == d),
    ensures
        members_rec(all, sub, d).len() == 0,
    decreases sub.len(),
{
    if sub.len() > 0 {
        assert(!(survives(all, sub[sub.len() - 1]) && spec_full_digest(sub.last().content) == d));
        lemma_members_empty(all, sub.drop_last(), d);
    }
}

/// When every qualifying file is one value `x`, and `x` stands in the scan
/// at most once, the group holds at most one member.
proof fn lemma_members_at_most_one(all: Seq<ScanFile>, sub: Seq<ScanFile>, d: Seq<char>, x: ScanFile)
    requires
        forall|k: int|
            0 <= k < sub.len() && survives(all, #[trigger] sub[k]) && spec_full_digest(
                sub[k].content,
            ) == d ==> sub[k] == x,
        forall|a: int, b: int|
            0 <= a < b < sub.len() ==> !((#[trigger] sub[a]) == x && (#[trigger] sub[b]) == x),
    ensures
        members_rec(all, sub, d).len() <= 1,
    decreases sub.len(),
{
    if sub.len() > 0 {
        let last = sub.last();
        if survives(all, last) && spec_full_digest(last.content) == d {
            assert(sub[sub.len() - 1] == x);
            assert forall|k: int|
                0 <= k < sub.drop_last().len() implies !(survives(
                all,
                #[trigger] sub.drop_last()[k],
            ) && spec_full_digest(sub.drop_last()[k].content) == d) by {
                assert(sub.drop_last()[k] == sub[k]);
                if survives(all, sub[k]) && spec_full_digest(sub[k].content) == d {
                    assert(sub[k] == x);
                    assert(!(sub[k] == x && sub[sub.len() - 1] == x));
                }
            }
            lemma_members_empty(all, sub.drop_last(), d);
        } else {
            lemma_members_at_most_one(all, sub.drop_last(), d, x);
        }
    }
}

/// Size consistency: two files whose value stands in one group have equal
/// contents, hence the same exact byte length, whatever key the group was
/// built on — provided the scanned set is free of full-digest collisions.
pub proof fn lemma_group_size_consistency(
    files: Seq<ScanFile>,
    d: Seq<char>,
    a: ScanFile,
    b: ScanFile,
)
    requires
        collision_free(files),
        final_members(files, d).contains(a),
        final_members(files, d).contains(b),
    ensures
        a.content == b.content,
        a.content.len() == b.content.len(),
{
    lemma_members_sound(files, files, d, a);
    lemma_members_sound(files, files, d, b);
}

/// Completeness and exactness: when byte-identical content stands at two
/// distinct paths, the group of its full digest is emitted and holds
/// exactly the scanned files with that content; the file stands in no group
/// with any other digest.
pub proof fn lemma_identical_content_grouped(files: Seq<ScanFile>, i: int, j: int)
    requires
        distinct_paths(files),
        collision_free(files),
        0 <= i < files.len(),
        0 <= j < files.len(),
        i != j,
        files[i].content == files[j].content,
    ensures
        final_members(files, spec_full_digest(files[i].content)).contains(files[i]),
        final_members(files, spec_full_digest(files[i].content)).len() >= 2,
        forall|x: ScanFile|
            #[trigger] final_members(files, spec_full_digest(files[i].content)).contains(x)
                <==> files.contains(x) && x.content == files[i].content,
        forall|d2: Seq<char>|
            d2 != spec_full_digest(files[i].content) ==> !final_members(files, d2).contains(
                files[i],
            ),
{
    let c = files[i].content;
    let d = spec_full_digest(c);
    let n = c.len();
    let pd = spec_partial_digest(c);
    let lo = if i < j {
        i
    } else {
        j
    };
    let hi = if i < j {
        j
    } else {
        i
    };
    assert forall|x: ScanFile| files.contains(x) && x.content == c implies #[trigger] final_members(
        files,
        d,
    ).contains(x) by {
        let k = choose|k: int| 0 <= k < files.len() && files[k] == x;
        lemma_size_count_two(files, n, lo, hi);
        lemma_partial_count_two(files, n, pd, lo, hi);
        lemma_members_complete(files, files, d, k);
    }
    assert forall|x: ScanFile| #[trigger] final_members(files, d).contains(x) implies files.contains(
        x,
    ) && x.content == c by {
        lemma_members_sound(files, files, d, x);
        assert(files.contains(files[i]));
    }
    assert(files.contains(files[i]));
    assert(files.contains(files[j]));
    assert(final_members(files, d).contains(files[i]));
    assert(final_members(files, d).contains(files[j]));
    let a = choose|a: int|
        0 <= a < final_members(files, d).len() && final_members(files, d)[a] == files[i];
    let b = choose|b: int|
        0 <= b < final_members(files, d).len() && final_members(files, d)[b] == files[j];
    assert(files[i].path != files[j].path);
    assert(a != b);
    assert forall|d2: Seq<char>|
        d2 != spec_full_digest(files[i].content) implies !final_members(files, d2).contains(
        files[i],
    ) by {
        if final_members(files, d2).contains(files[i]) {
            lemma_members_sound(files, files, d2, files[i]);
        }
    }
}

/// No false positives: a file with no byte-identical counterpart under the
/// scan stands in no emitted group, whatever its size or partial-digest
/// collisions — provided the scanned set is free of full-digest collisions.
pub proof fn lemma_unique_content_unreported(files: Seq<ScanFile>, i: int)
    requires
        distinct_paths(files),
        collision_free(files),
        0 <= i < files.len(),
        forall|j: int|
            0 <= j < files.len() && j != i ==> (#[trigger] files[j]).content != files[i].content,
    ensures
        forall|d: Seq<char>|
            #[trigger] final_members(files, d).len() >= 2 ==> !final_members(files, d).contains(
                files[i],
            ),
{
    assert forall|d: Seq<char>|
        #[trigger] final_members(files, d).len() >= 2 implies !final_members(files, d).contains(
        files[i],
    ) by {
        if final_members(files, d).contains(files[i]) {
            lemma_members_sound(files, files, d, files[i]);
            assert(spec_full_digest(files[i].content) == d);
            assert forall|k: int|
                0 <= k < files.len() && survives(files, #[trigger] files[k]) && spec_full_digest(
                    files[k].content,
                ) == d implies files[k] == files[i] by {
                assert(files.contains(files[k]));
                assert(files.contains(files[i]));
                assert(files[k].content == files[i].content);
                assert(k == i);
            }
            assert forall|a: int, b: int| 0 <= a < b < files.len() implies !((#[trigger] files[a])
                == files[i] && (#[trigger] files[b]) == files[i]) by {
                if files[a] == files[i] && files[b] == files[i] {
                    assert(files[a].path == files[b].path);
                }
            }
            lemma_members_at_most_one(files, files, d, files[i]);
        }
    }
}

/// Separation: two files alike in byte length and in their head/tail window
/// but different in content pass the partial-fingerprint phase together,
/// and full verification puts them in no common group — provided the
/// scanned set is free of full-digest collisions.
pub proof fn lemma_partial_collision_separated(files: Seq<ScanFile>, i: int, j: int)
    requires
        collision_free(files),
        0 <= i < files.len(),
        0 <= j < files.len(),
        i != j,
        files[i].content.len() == files[j].content.len(),
        spec_partial_window(files[i].content) == spec_partial_window(files[j].content),
        files[i].content != files[j].content,
    ensures
        survives(files, files[i]),
        survives(files, files[j]),
        spec_full_digest(files[i].content) != spec_full_digest(files[j].content),
        forall|d: Seq<char>|
            !(final_members(files, d).contains(files[i]) && #[trigger] final_members(
                files,
                d,
            ).contains(files[j])),
{
    let n = files[i].content.len();
    let pd = spec_partial_digest(files[i].content);
    let lo = if i < j {
        i
    } else {
        j
    };
    let hi = if i < j {
        j
    } else {
        i
    };
    assert(spec_partial_digest(files[j].content) == pd);
    lemma_size_count_two(files, n, lo, hi);
    lemma_partial_count_two(files, n, pd, lo, hi);
    assert(files.contains(files[i]));
    assert(files.contains(files[j]));
    assert forall|d: Seq<char>|
        !(final_members(files, d).contains(files[i]) && #[trigger] final_members(
            files,
            d,
        ).contains(files[j])) by {
        if final_members(files, d).contains(files[i]) && final_members(files, d).contains(
            files[j],
        ) {
            lemma_members_sound(files, files, d, files[i]);
            lemma_members_sound(files, files, d, files[j]);
        }
    }
}

/// Some bucket of `r` has byte length `s` and member paths `ps`.
pub open spec fn has_size_bucket(r: Seq<SizeBucket>, s: u64, ps: Seq<Seq<char>>) -> bool {
    exists|j: int| 0 <= j < r.len() && (#[trigger] r[j]).size == s && view_paths(r[j].paths@) == ps
}

/// Some group of `r` has digest `d` and member paths `ps`.
pub open spec fn has_digest_group(r: Seq<DuplicateGroup>, d: Seq<char>, ps: Seq<Seq<char>>) -> bool {
    exists|j: int|
        0 <= j < r.len() && (#[trigger] r[j]).digest@ == d && view_paths(r[j].paths@) == ps
}

/// Idempotence of size bucketing: two groupings of the same entries hold
/// the same buckets — for each bucket of one, the other has a bucket with
/// the same byte length and the same member paths in the same order.
pub proof fn lemma_size_grouping_deterministic(
    entries: Seq<FileEntry>,
    r1: Seq<SizeBucket>,
    r2: Seq<SizeBucket>,
)
    requires
        is_size_grouping(entries, r1),
        is_size_grouping(entries, r2),
    ensures
        forall|i: int|
            0 <= i < r1.len() ==> has_size_bucket(
                r2,
                (#[trigger] r1[i]).size,
                view_paths(r1[i].paths@),
            ),
        forall|j: int|
            0 <= j < r2.len() ==> has_size_bucket(
                r1,
                (#[trigger] r2[j]).size,
                view_paths(r2[j].paths@),
            ),
{
    assert forall|i: int| 0 <= i < r1.len() implies has_size_bucket(
        r2,
        (#[trigger] r1[i]).size,
        view_paths(r1[i].paths@),
    ) by {
        assert(paths_with_size(entries, r1[i].size).len() >= 2);
        let j = choose|j: int| 0 <= j < r2.len() && (#[trigger] r2[j]).size == r1[i].size;
        assert(0 <= j < r2.len() && r2[j].size == r1[i].size && view_paths(r2[j].paths@)
            == view_paths(r1[i].paths@));
    }
    assert forall|j: int| 0 <= j < r2.len() implies has_size_bucket(
        r1,
        (#[trigger] r2[j]).size,
        view_paths(r2[j].paths@),
    ) by {
        assert(paths_with_size(entries, r2[j].size).len() >= 2);
        let i = choose|i: int| 0 <= i < r1.len() && (#[trigger] r1[i]).size == r2[j].size;
        assert(0 <= i < r1.len() && r1[i].size == r2[j].size && view_paths(r1[i].paths@)
            == view_paths(r2[j].paths@));
    }
}

/// Idempotence of digest grouping: two groupings of the same items hold the
/// same groups — for each group of one, the other has a group with the same
/// digest and the same member paths in the same order.
pub proof fn lemma_digest_grouping_deterministic(
    items: Seq<PathDigest>,
    r1: Seq<DuplicateGroup>,
    r2: Seq<DuplicateGroup>,
)
    requires
        is_digest_grouping(items, r1),
        is_digest_grouping(items, r2),
    ensures
        forall|i: int|
            0 <= i < r1.len() ==> has_digest_group(
                r2,
                (#[trigger] r1[i]).digest@,
                view_paths(r1[i].paths@),
            ),
        forall|j: int|
            0 <= j < r2.len() ==> has_digest_group(
                r1,
                (#[trigger] r2[j]).digest@,
                view_paths(r2[j].paths@),
            ),
{
    assert forall|i: int| 0 <= i < r1.len() implies has_digest_group(
        r2,
        (#[trigger] r1[i]).digest@,
        view_paths(r1[i].paths@),
    ) by {
        assert(paths_with_digest(items, r1[i].digest@).len() >= 2);
        let j = choose|j: int| 0 <= j < r2.len() && (#[trigger] r2[j]).digest@ == r1[i].digest@;
        assert(0 <= j < r2.len() && r2[j].digest@ == r1[i].digest@ && view_paths(r2[j].paths@)
            == view_paths(r1[i].paths@));
    }
    assert forall|j: int| 0 <= j < r2.len() implies has_digest_group(
        r1,
        (#[trigger] r2[j]).digest@,
        view_paths(r2[j].paths@),
    ) by {
        assert(paths_with_digest(items, r2[j].digest@).len() >= 2);
        let i = choose|i: int| 0 <= i < r1.len() && (#[trigger] r1[i]).digest@ == r2[j].digest@;
        assert(0 <= i < r1.len() && r1[i].digest@ == r2[j].digest@ && view_paths(r1[i].paths@)
            == view_paths(r2[j].paths@));
    }
}

} // verus!

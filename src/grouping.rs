//! The narrowing stages: files by exact size, then paths by fingerprint.

use vstd::prelude::*;
use std::collections::HashMap;
use crate::pathname::{lex_sorted, path_eq, paths_view};
use crate::group::{saturate, DuplicateGroup};

verus! {

/// A candidate file: its path and its size in bytes.
#[derive(Clone, Debug)]
pub struct FileEntry {
    pub path: Vec<u8>,
    pub size: u64,
}

/// All candidate paths that share one exact size, in inventory order.
#[derive(Clone, Debug)]
pub struct SizeBucket {
    pub size: u64,
    pub paths: Vec<Vec<u8>>,
}

/// Paths that share one fingerprint, in the order they were given.
#[derive(Clone, Debug)]
pub struct PrintBucket {
    pub print: Vec<u8>,
    pub paths: Vec<Vec<u8>>,
}

/// Whether some bucket of `r` holds the files of size `size`.
pub open spec fn has_size_bucket(r: Seq<SizeBucket>, size: u64) -> bool {
    exists|b: int| 0 <= b < r.len() && (#[trigger] r[b]).size == size
}

/// The paths among the first `n` files whose size is `size`, in order.
pub open spec fn with_size(files: Seq<FileEntry>, size: u64, n: int) -> Seq<Seq<u8>>
    decreases n,
{
    if n <= 0 {
        Seq::empty()
    } else {
        let rest = with_size(files, size, n - 1);
        if files[n - 1].size == size {
            rest.push(files[n - 1].path@)
        } else {
            rest
        }
    }
}

/// The paths among the first `n` whose fingerprint is present and equal to `p`,
/// in order.
pub open spec fn with_print(
    paths: Seq<Vec<u8>>,
    prints: Seq<Option<Vec<u8>>>,
    p: Seq<u8>,
    n: int,
) -> Seq<Seq<u8>>
    decreases n,
{
    if n <= 0 {
        Seq::empty()
    } else {
        let rest = with_print(paths, prints, p, n - 1);
        if prints[n - 1] is Some && prints[n - 1]->0@ == p {
            rest.push(paths[n - 1]@)
        } else {
            rest
        }
    }
}

proof fn lemma_with_size_absent(files: Seq<FileEntry>, size: u64, n: int)
    requires
        n <= files.len(),
        forall|j: int| 0 <= j < n ==> (#[trigger] files[j]).size != size,
    ensures
        with_size(files, size, n) == Seq::<Seq<u8>>::empty(),
    decreases n,
{
    if n > 0 {
        lemma_with_size_absent(files, size, n - 1);
    }
}

proof fn lemma_with_print_absent(
    paths: Seq<Vec<u8>>,
    prints: Seq<Option<Vec<u8>>>,
    p: Seq<u8>,
    n: int,
)
    requires
        n <= prints.len(),
        forall|j: int|
            0 <= j < n ==> !(#[trigger] prints[j] is Some && prints[j]->0@ == p),
    ensures
        with_print(paths, prints, p, n) == Seq::<Seq<u8>>::empty(),
    decreases n,
{
    if n > 0 {
        lemma_with_print_absent(paths, prints, p, n - 1);
    }
}

/// A copy of a path.
fn copy_path(p: &Vec<u8>) -> (r: Vec<u8>)
    ensures
        r@ == p@,
{
    let mut r: Vec<u8> = Vec::with_capacity(p.len());
    let mut i: usize = 0;
    while i < p.len()
        invariant
            i <= p.len(),
            r@ == p@.take(i as int),
        decreases p.len() - i,
    {
        r.push(p[i]);
        i = i + 1;
        assert(r@ =~= p@.take(i as int));
    }
    assert(p@.take(p.len() as int) =~= p@);
    r
}

/// Partitions the inventory by exact byte size: one bucket per distinct size,
/// holding the paths of that size in inventory order.
pub fn group_by_size(files: &Vec<FileEntry>) -> (r: Vec<SizeBucket>)
    ensures
        forall|b: int|
            0 <= b < r.len() ==> paths_view((#[trigger] r[b]).paths@) == with_size(
                files@,
                r[b].size,
                files.len() as int,
            ),
        forall|b: int, c: int|
            0 <= b < c < r.len() ==> (#[trigger] r[b]).size != (#[trigger] r[c]).size,
        forall|i: int| 0 <= i < files.len() ==> has_size_bucket(r@, (#[trigger] files[i]).size),
{
    broadcast use vstd::std_specs::hash::group_hash_axioms;
    let mut buckets: Vec<SizeBucket> = Vec::new();
    let mut index: HashMap<u64, usize> = HashMap::new();
    let mut i: usize = 0;
    while i < files.len()
        invariant
            i <= files.len(),
            forall|b: int|
                0 <= b < buckets.len() ==> paths_view((#[trigger] buckets[b]).paths@)
                    == with_size(files@, buckets[b].size, i as int),
            forall|b: int|
                0 <= b < buckets.len() ==> index@.contains_key((#[trigger] buckets[b]).size)
                    && index@[buckets[b].size] == b,
            forall|k: u64|
                #[trigger] index@.contains_key(k) ==> index@[k] < buckets.len()
                    && buckets[index@[k] as int].size == k,
            forall|j: int| 0 <= j < i ==> index@.contains_key((#[trigger] files[j]).size),
        decreases files.len() - i,
    {
        let size = files[i].size;
        let path = copy_path(&files[i].path);
        match index.get(&size) {
            Some(b) => {
                let b = *b;
                let ghost old_buckets = buckets@;
                buckets[b].paths.push(path);
                proof {
                    assert forall|c: int| 0 <= c < buckets.len() implies paths_view(
                        (#[trigger] buckets[c]).paths@,
                    ) == with_size(files@, buckets[c].size, i + 1) by {
                        if c == b {
                            assert(paths_view(buckets[c].paths@) =~= paths_view(
                                old_buckets[c].paths@,
                            ).push(files[i as int].path@));
                        } else {
                            assert(buckets[c] == old_buckets[c]);
                        }
                    }
                }
            },
            None => {
                proof {
                    assert forall|j: int| 0 <= j < i implies (#[trigger] files@[j]).size != size by {
                        assert(index@.contains_key(files[j].size));
                    }
                    lemma_with_size_absent(files@, size, i as int);
                }
                let mut paths: Vec<Vec<u8>> = Vec::new();
                paths.push(path);
                let ghost old_buckets = buckets@;
                let n = buckets.len();
                buckets.push(SizeBucket { size, paths });
                index.insert(size, n);
                proof {
                    assert(paths_view(buckets[n as int].paths@) =~= seq![files[i as int].path@]);
                    assert(with_size(files@, size, i as int + 1) =~= seq![files[i as int].path@]);
                    assert forall|c: int| 0 <= c < buckets.len() implies paths_view(
                        (#[trigger] buckets[c]).paths@,
                    ) == with_size(files@, buckets[c].size, i + 1) by {
                        if c < n {
                            assert(buckets[c] == old_buckets[c]);
                        }
                    }
                }
            },
        }
        i = i + 1;
    }
    proof {
        assert forall|j: int| 0 <= j < files.len() implies has_size_bucket(
            buckets@,
            (#[trigger] files[j]).size,
        ) by {
            let b = index@[files[j].size] as int;
            assert(buckets@[b].size == files[j].size);
        }
        assert forall|b: int, c: int| 0 <= b < c < buckets.len() implies (#[trigger] buckets[b]).size
            != (#[trigger] buckets[c]).size by {
            assert(index@[buckets[b].size] == b);
            assert(index@[buckets[c].size] == c);
        }
    }
    buckets
}

/// Whether some bucket of `r` holds the paths with fingerprint `p`.
pub open spec fn has_print_bucket(r: Seq<PrintBucket>, p: Seq<u8>) -> bool {
    exists|b: int| 0 <= b < r.len() && (#[trigger] r[b]).print@ == p
}

/// `r` is the split of `paths` by `prints`: each bucket holds exactly the
/// paths with its fingerprint, in order, and at least two of them; no two
/// buckets share a fingerprint; and every fingerprint shared by two or more
/// paths has a bucket.
pub open spec fn is_print_split(
    paths: Seq<Vec<u8>>,
    prints: Seq<Option<Vec<u8>>>,
    r: Seq<PrintBucket>,
) -> bool {
    &&& forall|b: int|
        0 <= b < r.len() ==> paths_view((#[trigger] r[b]).paths@) == with_print(
            paths,
            prints,
            r[b].print@,
            paths.len() as int,
        ) && r[b].paths.len() >= 2
    &&& forall|b: int, c: int|
        0 <= b < c < r.len() ==> (#[trigger] r[b]).print@ != (#[trigger] r[c]).print@
    &&& forall|i: int|
        0 <= i < paths.len() && (#[trigger] prints[i]) is Some && with_print(
            paths,
            prints,
            prints[i]->0@,
            paths.len() as int,
        ).len() >= 2 ==> has_print_bucket(r, prints[i]->0@)
}

/// Index of the bucket whose fingerprint is `p`, if any.
fn find_print(buckets: &Vec<PrintBucket>, p: &Vec<u8>) -> (r: Option<usize>)
    ensures
        match r {
            Some(c) => c < buckets.len() && buckets[c as int].print@ == p@,
            None => forall|c: int| 0 <= c < buckets.len() ==> (#[trigger] buckets[c]).print@ != p@,
        },
{
    let mut c: usize = 0;
    while c < buckets.len()
        invariant
            c <= buckets.len(),
            forall|d: int| 0 <= d < c ==> (#[trigger] buckets[d]).print@ != p@,
        decreases buckets.len() - c,
    {
        if path_eq(&buckets[c].print, p) {
            return Some(c);
        }
        c = c + 1;
    }
    None
}

/// Partitions `paths` by fingerprint: `prints[i]` is the fingerprint of
/// `paths[i]`, or `None` where it could not be computed, which drops that path.
/// Only fingerprints shared by at least two paths make a bucket; each bucket
/// holds all paths with its fingerprint, in the order given.
pub fn split_by_print(paths: &Vec<Vec<u8>>, prints: &Vec<Option<Vec<u8>>>) -> (r: Vec<
    PrintBucket,
>)
    requires
        paths.len() == prints.len(),
    ensures
        is_print_split(paths@, prints@, r@),
{
    let n = paths.len();
    let mut all: Vec<PrintBucket> = Vec::new();
    let mut i: usize = 0;
    while i < n
        invariant
            n == paths.len() == prints.len(),
            i <= n,
            forall|b: int|
                0 <= b < all.len() ==> paths_view((#[trigger] all[b]).paths@) == with_print(
                    paths@,
                    prints@,
                    all[b].print@,
                    i as int,
                ),
            forall|b: int, c: int|
                0 <= b < c < all.len() ==> (#[trigger] all[b]).print@ != (#[trigger] all[c]).print@,
            forall|j: int|
                0 <= j < i && (#[trigger] prints[j]) is Some ==> has_print_bucket(
                    all@,
                    prints[j]->0@,
                ),
        decreases n - i,
    {
        let ghost old_all = all@;
        match &prints[i] {
            None => {
                proof {
                    assert forall|b: int| 0 <= b < all.len() implies paths_view(
                        (#[trigger] all[b]).paths@,
                    ) == with_print(paths@, prints@, all[b].print@, i + 1) by {}
                }
            },
            Some(p) => {
                let path = copy_path(&paths[i]);
                match find_print(&all, p) {
                    Some(c) => {
                        all[c].paths.push(path);
                        proof {
                            assert forall|b: int| 0 <= b < all.len() implies paths_view(
                                (#[trigger] all[b]).paths@,
                            ) == with_print(paths@, prints@, all[b].print@, i + 1) by {
                                if b == c {
                                    assert(paths_view(all[b].paths@) =~= paths_view(
                                        old_all[b].paths@,
                                    ).push(paths[i as int]@));
                                } else {
                                    assert(all[b] == old_all[b]);
                                }
                            }
                            assert forall|j: int|
                                0 <= j < i + 1 && (#[trigger] prints[j]) is Some implies has_print_bucket(
                                all@,
                                prints[j]->0@,
                            ) by {
                                if j < i {
                                    let b = choose|b: int|
                                        0 <= b < old_all.len() && (#[trigger] old_all[b]).print@
                                            == prints[j]->0@;
                                    assert(all@[b].print@ == prints[j]->0@);
                                } else {
                                    assert(all@[c as int].print@ == prints[j]->0@);
                                }
                            }
                        }
                    },
                    None => {
                        proof {
                            assert forall|j: int|
                                0 <= j < i implies !(#[trigger] prints@[j] is Some
                                && prints@[j]->0@ == p@) by {
                                if prints@[j] is Some && prints@[j]->0@ == p@ {
                                    assert(prints[j] is Some);
                                    assert(has_print_bucket(all@, prints[j]->0@));
                                }
                            }
                            lemma_with_print_absent(paths@, prints@, p@, i as int);
                        }
                        let print = copy_path(p);
                        let mut members: Vec<Vec<u8>> = Vec::new();
                        members.push(path);
                        let m = all.len();
                        all.push(PrintBucket { print, paths: members });
                        proof {
                            assert(paths_view(all[m as int].paths@) =~= seq![paths[i as int]@]);
                            assert(with_print(paths@, prints@, p@, i + 1) =~= seq![
                                paths[i as int]@,
                            ]);
                            assert forall|b: int| 0 <= b < all.len() implies paths_view(
                                (#[trigger] all[b]).paths@,
                            ) == with_print(paths@, prints@, all[b].print@, i + 1) by {
                                if b < m {
                                    assert(all[b] == old_all[b]);
                                }
                            }
                            assert forall|j: int|
                                0 <= j < i + 1 && (#[trigger] prints[j]) is Some implies has_print_bucket(
                                all@,
                                prints[j]->0@,
                            ) by {
                                if j < i {
                                    let b = choose|b: int|
                                        0 <= b < old_all.len() && (#[trigger] old_all[b]).print@
                                            == prints[j]->0@;
                                    assert(all@[b].print@ == prints[j]->0@);
                                } else {
                                    assert(all@[m as int].print@ == prints[j]->0@);
                                }
                            }
                        }
                    },
                }
            },
        }
        i = i + 1;
    }
    let mut out: Vec<PrintBucket> = Vec::new();
    let mut c: usize = 0;
    while c < all.len()
        invariant
            n == paths.len() == prints.len(),
            c <= all.len(),
            forall|b: int|
                0 <= b < all.len() ==> paths_view((#[trigger] all[b]).paths@) == with_print(
                    paths@,
                    prints@,
                    all[b].print@,
                    n as int,
                ),
            forall|b: int, d: int|
                0 <= b < d < all.len() ==> (#[trigger] all[b]).print@ != (#[trigger] all[d]).print@,
            forall|b: int|
                0 <= b < out.len() ==> paths_view((#[trigger] out[b]).paths@) == with_print(
                    paths@,
                    prints@,
                    out[b].print@,
                    n as int,
                ) && out[b].paths.len() >= 2,
            forall|b: int|
                0 <= b < out.len() ==> exists|e: int|
                    0 <= e < c && (#[trigger] all[e]).print@ == (#[trigger] out[b]).print@,
            forall|b: int, d: int|
                0 <= b < d < out.len() ==> (#[trigger] out[b]).print@ != (#[trigger] out[d]).print@,
            forall|e: int|
                0 <= e < c && (#[trigger] all[e]).paths.len() >= 2 ==> has_print_bucket(
                    out@,
                    all[e].print@,
                ),
        decreases all.len() - c,
    {
        if all[c].paths.len() >= 2 {
            let print = copy_path(&all[c].print);
            let mut members: Vec<Vec<u8>> = Vec::new();
            let mut k: usize = 0;
            while k < all[c].paths.len()
                invariant
                    c < all.len(),
                    k <= all[c as int].paths.len(),
                    paths_view(members@) == paths_view(all[c as int].paths@).take(k as int),
                decreases all[c as int].paths.len() - k,
            {
                let ghost before = members@;
                let q = copy_path(&all[c].paths[k]);
                members.push(q);
                assert(paths_view(members@) =~= paths_view(before).push(q@));
                k = k + 1;
                assert(paths_view(members@) =~= paths_view(all[c as int].paths@).take(k as int));
            }
            assert(paths_view(all[c as int].paths@).take(k as int) =~= paths_view(
                all[c as int].paths@,
            ));
            let ghost old_out = out@;
            out.push(PrintBucket { print, paths: members });
            proof {
                assert forall|b: int| 0 <= b < out.len() implies exists|e: int|
                    0 <= e < c + 1 && (#[trigger] all[e]).print@ == (#[trigger] out[b]).print@ by {
                    if b < old_out.len() {
                        assert(out[b] == old_out[b]);
                    } else {
                        assert(all[c as int].print@ == out[b].print@);
                    }
                }
                assert forall|b: int, d: int| 0 <= b < d < out.len() implies (#[trigger] out[b]).print@
                    != (#[trigger] out[d]).print@ by {
                    if d == old_out.len() {
                        assert(out[b] == old_out[b]);
                        let e = choose|e: int|
                            0 <= e < c && (#[trigger] all[e]).print@ == old_out[b].print@;
                        assert(all[e].print@ != all[c as int].print@);
                    } else {
                        assert(out[b] == old_out[b]);
                        assert(out[d] == old_out[d]);
                    }
                }
                assert forall|e: int|
                    0 <= e < c + 1 && (#[trigger] all[e]).paths.len() >= 2 implies has_print_bucket(
                    out@,
                    all[e].print@,
                ) by {
                    if e < c {
                        let b = choose|b: int|
                            0 <= b < old_out.len() && (#[trigger] old_out[b]).print@ == all[e].print@;
                        assert(out@[b].print@ == all[e].print@);
                    } else {
                        assert(out@[old_out.len() as int].print@ == all[e].print@);
                    }
                }
            }
        }
        c = c + 1;
    }
    proof {
        assert forall|i: int|
            0 <= i < paths.len() && (#[trigger] prints@[i]) is Some && with_print(
                paths@,
                prints@,
                prints[i]->0@,
                paths.len() as int,
            ).len() >= 2 implies has_print_bucket(out@, prints@[i]->0@) by {
            let e = choose|e: int|
                0 <= e < all.len() && (#[trigger] all[e]).print@ == prints[i]->0@;
            assert(paths_view(all[e].paths@).len() == all[e].paths.len());
        }
    }
    out
}

/// The group that `collect_groups` makes of a bucket of `size`-byte files.
pub open spec fn group_of(g: DuplicateGroup, size: u64, bucket: PrintBucket) -> bool {
    &&& g.size == size
    &&& lex_sorted(g.paths())
    &&& g.paths().to_multiset() == paths_view(bucket.paths@).to_multiset()
}

/// Turns each bucket of confirmed duplicates of `size` bytes into a group with
/// sorted members, appending the groups to `groups` in bucket order.
pub fn collect_groups(groups: &mut Vec<DuplicateGroup>, size: u64, buckets: Vec<PrintBucket>)
    ensures
        final(groups).len() == old(groups).len() + buckets.len(),
        forall|b: int| 0 <= b < old(groups).len() ==> final(groups)[b] == old(groups)[b],
        forall|b: int|
            0 <= b < buckets.len() ==> group_of(
                #[trigger] final(groups)[old(groups).len() + b],
                size,
                buckets[b],
            ),
{
    let ghost start = groups@;
    let ghost all = buckets@;
    let mut rest = buckets;
    let mut made: Vec<DuplicateGroup> = Vec::new();
    while rest.len() > 0
        invariant
            made.len() + rest.len() == all.len(),
            rest@ == all.subrange(0, rest.len() as int),
            forall|b: int|
                0 <= b < made.len() ==> group_of(
                    #[trigger] made[b],
                    size,
                    all[all.len() - 1 - b],
                ),
        decreases rest.len(),
    {
        let bucket = rest.pop().unwrap();
        let g = DuplicateGroup::new(size, bucket.paths);
        made.push(g);
    }
    let mut k: usize = made.len();
    while k > 0
        invariant
            k == made.len(),
            k <= all.len(),
            groups.len() == start.len() + (all.len() - k),
            forall|b: int| 0 <= b < start.len() ==> groups[b] == start[b],
            forall|b: int|
                0 <= b < made.len() ==> group_of(
                    #[trigger] made[b],
                    size,
                    all[all.len() - 1 - b],
                ),
            forall|b: int|
                0 <= b < all.len() - k ==> group_of(
                    #[trigger] groups[start.len() + b],
                    size,
                    all[b],
                ),
        decreases k,
    {
        let g = made.pop().unwrap();
        k = k - 1;
        let ghost before = groups@;
        groups.push(g);
        proof {
            assert forall|b: int| 0 <= b < all.len() - k implies group_of(
                #[trigger] groups[start.len() + b],
                size,
                all[b],
            ) by {
                if b < all.len() - k - 1 {
                    assert(groups[start.len() + b] == before[start.len() + b]);
                } else {
                    assert(groups[start.len() + b] == g);
                }
            }
        }
    }
}

/// Sum of the groups' contributions.
pub open spec fn total_contribution(gs: Seq<DuplicateGroup>) -> int
    decreases gs.len(),
{
    if gs.len() == 0 {
        0
    } else {
        total_contribution(gs.drop_last()) + gs.last().contribution()
    }
}

proof fn lemma_contribution_nonneg(g: DuplicateGroup)
    ensures
        g.contribution() >= 0,
{
    if g.members.len() > 0 {
        vstd::arithmetic::mul::lemma_mul_nonnegative(g.size as int, g.members.len() - 1);
    }
}

proof fn lemma_total_nonneg(gs: Seq<DuplicateGroup>)
    ensures
        total_contribution(gs) >= 0,
    decreases gs.len(),
{
    if gs.len() > 0 {
        lemma_total_nonneg(gs.drop_last());
        lemma_contribution_nonneg(gs.last());
    }
}

/// Total bytes freed by keeping only each group's canonical member,
/// saturating at `u64::MAX`.
pub fn total_reclaimable(groups: &Vec<DuplicateGroup>) -> (r: u64)
    ensures
        r == saturate(total_contribution(groups@)),
{
    let mut acc: u64 = 0;
    let mut i: usize = 0;
    assert(groups@.take(0) =~= Seq::<DuplicateGroup>::empty());
    while i < groups.len()
        invariant
            i <= groups.len(),
            acc == saturate(total_contribution(groups@.take(i as int))),
        decreases groups.len() - i,
    {
        let c = groups[i].reclaimable();
        proof {
            assert(groups@.take(i + 1).drop_last() =~= groups@.take(i as int));
            lemma_total_nonneg(groups@.take(i as int));
            lemma_contribution_nonneg(groups[i as int]);
        }
        acc = acc.saturating_add(c);
        i = i + 1;
    }
    assert(groups@.take(i as int) =~= groups@);
    acc
}

/// Each group frees `size × (members − 1)` bytes and the total is the sum over
/// the groups, exactly, whenever that sum fits in `u64` (beyond, the counts
/// saturate).
pub proof fn lemma_reclaimable_exact(gs: Seq<DuplicateGroup>)
    requires
        total_contribution(gs) <= u64::MAX,
    ensures
        saturate(total_contribution(gs)) == total_contribution(gs),
        forall|b: int|
            0 <= b < gs.len() ==> saturate((#[trigger] gs[b]).contribution()) == gs[b].contribution()
                && gs[b].contribution() == if gs[b].members.len() == 0 {
                0
            } else {
                gs[b].size * (gs[b].members.len() - 1)
            },
    decreases gs.len(),
{
    lemma_total_nonneg(gs);
    if gs.len() > 0 {
        let init = gs.drop_last();
        lemma_total_nonneg(init);
        lemma_contribution_nonneg(gs.last());
        lemma_reclaimable_exact(init);
        assert forall|b: int| 0 <= b < gs.len() implies saturate((#[trigger] gs[b]).contribution())
            == gs[b].contribution() by {
            if b < gs.len() - 1 {
                assert(gs[b] == init[b]);
            }
        }
    }
}

/// Number of member paths over all groups.
pub open spec fn total_members(gs: Seq<DuplicateGroup>) -> int
    decreases gs.len(),
{
    if gs.len() == 0 {
        0
    } else {
        total_members(gs.drop_last()) + gs.last().members.len()
    }
}

/// Number of files that belong to some group, saturating at `u64::MAX`.
pub fn files_in_groups(groups: &Vec<DuplicateGroup>) -> (r: u64)
    ensures
        r == saturate(total_members(groups@)),
{
    let mut acc: u64 = 0;
    let mut i: usize = 0;
    assert(groups@.take(0) =~= Seq::<DuplicateGroup>::empty());
    while i < groups.len()
        invariant
            i <= groups.len(),
            acc == saturate(total_members(groups@.take(i as int))),
            total_members(groups@.take(i as int)) >= 0,
        decreases groups.len() - i,
    {
        proof {
            assert(groups@.take(i + 1).drop_last() =~= groups@.take(i as int));
        }
        acc = acc.saturating_add(groups[i].members.len() as u64);
        i = i + 1;
    }
    assert(groups@.take(i as int) =~= groups@);
    acc
}

proof fn lemma_with_print_has(
    paths: Seq<Vec<u8>>,
    prints: Seq<Option<Vec<u8>>>,
    p: Seq<u8>,
    n: int,
    i: int,
)
    requires
        0 <= i < n <= prints.len(),
        prints[i] is Some && prints[i]->0@ == p,
    ensures
        with_print(paths, prints, p, n).contains(paths[i]@),
        with_print(paths, prints, p, n).len() >= 1,
    decreases n,
{
    if i < n - 1 {
        lemma_with_print_has(paths, prints, p, n - 1, i);
        let rest = with_print(paths, prints, p, n - 1);
        let k = choose|k: int| 0 <= k < rest.len() && rest[k] == paths[i]@;
        if prints[n - 1] is Some && prints[n - 1]->0@ == p {
            assert(rest.push(paths[n - 1]@)[k] == paths[i]@);
        }
    } else {
        let rest = with_print(paths, prints, p, n - 1);
        assert(rest.push(paths[i]@)[rest.len() as int] == paths[i]@);
    }
}

proof fn lemma_with_print_two(
    paths: Seq<Vec<u8>>,
    prints: Seq<Option<Vec<u8>>>,
    p: Seq<u8>,
    n: int,
    i: int,
    j: int,
)
    requires
        0 <= i < j < n <= prints.len(),
        prints[i] is Some && prints[i]->0@ == p,
        prints[j] is Some && prints[j]->0@ == p,
    ensures
        with_print(paths, prints, p, n).len() >= 2,
    decreases n,
{
    if j < n - 1 {
        lemma_with_print_two(paths, prints, p, n - 1, i, j);
    } else {
        lemma_with_print_has(paths, prints, p, n - 1, i);
    }
}

proof fn lemma_with_print_member(
    paths: Seq<Vec<u8>>,
    prints: Seq<Option<Vec<u8>>>,
    p: Seq<u8>,
    n: int,
    x: Seq<u8>,
) -> (k: int)
    requires
        0 <= n <= prints.len(),
        n <= paths.len(),
        with_print(paths, prints, p, n).contains(x),
    ensures
        0 <= k < n,
        paths[k]@ == x,
        prints[k] is Some && prints[k]->0@ == p,
    decreases n,
{
    let rest = with_print(paths, prints, p, n - 1);
    if prints[n - 1] is Some && prints[n - 1]->0@ == p && paths[n - 1]@ == x {
        n - 1
    } else {
        if prints[n - 1] is Some && prints[n - 1]->0@ == p {
            let pushed = rest.push(paths[n - 1]@);
            let q = choose|q: int| 0 <= q < pushed.len() && #[trigger] pushed[q] == x;
            assert(rest[q] == x);
        }
        lemma_with_print_member(paths, prints, p, n - 1, x)
    }
}

/// Two paths whose fingerprints were both computed and are equal end in one
/// bucket of the split.
pub proof fn lemma_equal_prints_share_bucket(
    paths: Seq<Vec<u8>>,
    prints: Seq<Option<Vec<u8>>>,
    r: Seq<PrintBucket>,
    i: int,
    j: int,
) -> (b: int)
    requires
        paths.len() == prints.len(),
        is_print_split(paths, prints, r),
        0 <= i < paths.len(),
        0 <= j < paths.len(),
        i != j,
        prints[i] is Some,
        prints[j] is Some,
        prints[i]->0@ == prints[j]->0@,
    ensures
        0 <= b < r.len(),
        paths_view(r[b].paths@).contains(paths[i]@),
        paths_view(r[b].paths@).contains(paths[j]@),
{
    let p = prints[i]->0@;
    let n = paths.len() as int;
    if i < j {
        lemma_with_print_two(paths, prints, p, n, i, j);
    } else {
        lemma_with_print_two(paths, prints, p, n, j, i);
    }
    assert(has_print_bucket(r, p));
    let b = choose|b: int| 0 <= b < r.len() && (#[trigger] r[b]).print@ == p;
    lemma_with_print_has(paths, prints, p, n, i);
    lemma_with_print_has(paths, prints, p, n, j);
    b
}

/// Two distinct paths whose fingerprints differ never share a bucket of the
/// split: a bucket is declared only on equal fingerprints.
pub proof fn lemma_different_prints_never_share(
    paths: Seq<Vec<u8>>,
    prints: Seq<Option<Vec<u8>>>,
    r: Seq<PrintBucket>,
    b: int,
    i: int,
    j: int,
)
    requires
        paths.len() == prints.len(),
        is_print_split(paths, prints, r),
        0 <= b < r.len(),
        0 <= i < paths.len(),
        0 <= j < paths.len(),
        forall|k: int, l: int|
            0 <= k < l < paths.len() ==> (#[trigger] paths[k])@ != (#[trigger] paths[l])@,
        prints[i] is Some,
        prints[j] is Some,
        prints[i]->0@ != prints[j]->0@,
    ensures
        !(paths_view(r[b].paths@).contains(paths[i]@) && paths_view(r[b].paths@).contains(
            paths[j]@,
        )),
{
    let n = paths.len() as int;
    let p = r[b].print@;
    if paths_view(r[b].paths@).contains(paths[i]@) && paths_view(r[b].paths@).contains(
        paths[j]@,
    ) {
        let ki = lemma_with_print_member(paths, prints, p, n, paths[i]@);
        let kj = lemma_with_print_member(paths, prints, p, n, paths[j]@);
        if ki != i {
            if ki < i {
                assert(paths[ki]@ != paths[i]@);
            } else {
                assert(paths[i]@ != paths[ki]@);
            }
        }
        if kj != j {
            if kj < j {
                assert(paths[kj]@ != paths[j]@);
            } else {
                assert(paths[j]@ != paths[kj]@);
            }
        }
    }
}

/// Every group made of a bucket of the split has at least two members.
pub proof fn lemma_group_has_two_members(g: DuplicateGroup, size: u64, bucket: PrintBucket)
    requires
        group_of(g, size, bucket),
        bucket.paths.len() >= 2,
    ensures
        g.members.len() >= 2,
{
    g.paths().to_multiset_ensures();
    paths_view(bucket.paths@).to_multiset_ensures();
}

/// A group holds exactly the paths of the bucket it was made of.
pub proof fn lemma_group_keeps_members(g: DuplicateGroup, size: u64, bucket: PrintBucket, x: Seq<u8>)
    requires
        group_of(g, size, bucket),
    ensures
        g.paths().contains(x) <==> paths_view(bucket.paths@).contains(x),
{
    g.paths().to_multiset_ensures();
    paths_view(bucket.paths@).to_multiset_ensures();
    assert(g.paths().contains(x) <==> g.paths().to_multiset().count(x) > 0);
    assert(paths_view(bucket.paths@).contains(x) <==> paths_view(bucket.paths@).to_multiset().count(
        x,
    ) > 0);
}

} // verus!

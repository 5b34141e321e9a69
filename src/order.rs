//! Presentation order of duplicate groups: most reclaimable bytes first, then
//! larger files first, then by canonical path. The order depends on the groups
//! alone, never on the order in which they were found.

use vstd::prelude::*;
use crate::group::{saturate, DuplicateGroup};
use crate::pathname::{lex_le, path_le, lemma_lex_antisym, lemma_lex_total, lemma_lex_trans};

verus! {

/// The first member path, or the empty path for a group without members.
pub open spec fn first_path(g: DuplicateGroup) -> Seq<u8> {
    if g.members.len() > 0 {
        g.paths()[0]
    } else {
        Seq::empty()
    }
}

/// Whether `a` may be presented before `b`: larger (saturated) reclaimable
/// bytes first, then larger size, then the lexicographically smaller first
/// path.
pub open spec fn presented_before(a: DuplicateGroup, b: DuplicateGroup) -> bool {
    let ra = saturate(a.contribution());
    let rb = saturate(b.contribution());
    ra > rb || (ra == rb && (a.size > b.size || (a.size == b.size && lex_le(
        first_path(a),
        first_path(b),
    ))))
}

/// A list of groups in presentation order.
pub open spec fn presentation_sorted(s: Seq<DuplicateGroup>) -> bool {
    forall|i: int, j: int|
        0 <= i < j < s.len() ==> presented_before(#[trigger] s[i], #[trigger] s[j])
}

/// No two groups of the list share a first path.
pub open spec fn distinct_first_paths(s: Seq<DuplicateGroup>) -> bool {
    forall|i: int, j: int|
        0 <= i < j < s.len() ==> first_path(#[trigger] s[i]) != first_path(#[trigger] s[j])
}

proof fn lemma_presented_total(a: DuplicateGroup, b: DuplicateGroup)
    ensures
        presented_before(a, b) || presented_before(b, a),
{
    lemma_lex_total(first_path(a), first_path(b));
}

proof fn lemma_presented_trans(a: DuplicateGroup, b: DuplicateGroup, c: DuplicateGroup)
    requires
        presented_before(a, b),
        presented_before(b, c),
    ensures
        presented_before(a, c),
{
    if lex_le(first_path(a), first_path(b)) && lex_le(first_path(b), first_path(c)) {
        lemma_lex_trans(first_path(a), first_path(b), first_path(c));
    }
}

proof fn lemma_presented_antisym(a: DuplicateGroup, b: DuplicateGroup)
    requires
        presented_before(a, b),
        presented_before(b, a),
    ensures
        first_path(a) == first_path(b),
{
    lemma_lex_antisym(first_path(a), first_path(b));
}

/// Whether `a` may be presented before `b`.
fn presents_before(a: &DuplicateGroup, b: &DuplicateGroup) -> (r: bool)
    ensures
        r == presented_before(*a, *b),
{
    let ra = a.reclaimable();
    let rb = b.reclaimable();
    if ra != rb {
        return ra > rb;
    }
    if a.size != b.size {
        return a.size > b.size;
    }
    let empty: Vec<u8> = Vec::new();
    let pa = if a.members.len() > 0 {
        &a.members[0]
    } else {
        &empty
    };
    let pb = if b.members.len() > 0 {
        &b.members[0]
    } else {
        &empty
    };
    proof {
        assert(empty@ =~= Seq::<u8>::empty());
    }
    path_le(pa, pb)
}

/// Inserts `g` into `out`, which is in presentation order, after every group
/// that may be presented before it.
fn insert_presented(out: &mut Vec<DuplicateGroup>, g: DuplicateGroup)
    requires
        presentation_sorted(old(out)@),
    ensures
        presentation_sorted(final(out)@),
        final(out)@.to_multiset() == old(out)@.to_multiset().insert(g),
{
    let ghost s = out@;
    let mut pos: usize = 0;
    while pos < out.len() && presents_before(&out[pos], &g)
        invariant
            pos <= out.len(),
            out@ == s,
            forall|k: int| 0 <= k < pos ==> presented_before(#[trigger] s[k], g),
        decreases out.len() - pos,
    {
        pos = pos + 1;
    }
    proof {
        if pos < out.len() {
            lemma_presented_total(s[pos as int], g);
            assert forall|k: int| pos <= k < s.len() implies presented_before(g, #[trigger] s[k]) by {
                if k > pos {
                    assert(presented_before(s[pos as int], s[k]));
                    lemma_presented_trans(g, s[pos as int], s[k]);
                }
            }
        }
    }
    out.insert(pos, g);
    proof {
        let t = out@;
        assert forall|i: int, j: int| 0 <= i < j < t.len() implies presented_before(
            #[trigger] t[i],
            #[trigger] t[j],
        ) by {
            if j < pos {
            } else if j == pos {
            } else if i < pos {
                assert(presented_before(s[i], g));
                assert(presented_before(g, s[j - 1]));
                lemma_presented_trans(s[i], g, s[j - 1]);
            } else if i == pos {
            } else {
                assert(presented_before(s[i - 1], s[j - 1]));
            }
        }
        broadcast use vstd::seq_lib::group_to_multiset_ensures;
        assert(t.remove(pos as int) =~= s);
        assert(t.to_multiset().remove(g) == s.to_multiset());
        assert(t.to_multiset().count(g) > 0);
        assert(t.to_multiset() =~= s.to_multiset().insert(g));
    }
}

/// Puts the groups in presentation order: reclaimable bytes descending, then
/// size descending, then first member path ascending.
pub fn sort_for_presentation(groups: Vec<DuplicateGroup>) -> (r: Vec<DuplicateGroup>)
    ensures
        presentation_sorted(r@),
        r@.to_multiset() == groups@.to_multiset(),
{
    broadcast use vstd::seq_lib::group_to_multiset_ensures;
    let ghost orig = groups@;
    let mut rest = groups;
    let mut out: Vec<DuplicateGroup> = Vec::new();
    proof {
        assert(out@.to_multiset() =~= vstd::multiset::Multiset::empty());
        assert(orig.to_multiset().add(vstd::multiset::Multiset::empty()) =~= orig.to_multiset());
    }
    while rest.len() > 0
        invariant
            presentation_sorted(out@),
            rest@.to_multiset().add(out@.to_multiset()) == orig.to_multiset(),
        decreases rest.len(),
    {
        let ghost before = rest@;
        let g = rest.pop().unwrap();
        proof {
            broadcast use vstd::seq_lib::group_to_multiset_ensures;
            assert(before =~= rest@.push(g));
            rest@.to_multiset_ensures();
            assert(before.to_multiset() == rest@.to_multiset().insert(g));
        }
        insert_presented(&mut out, g);
        proof {
            assert(rest@.to_multiset().add(out@.to_multiset()) =~= orig.to_multiset());
        }
    }
    proof {
        assert(rest@.to_multiset() =~= vstd::multiset::Multiset::empty());
        assert(out@.to_multiset() =~= orig.to_multiset());
    }
    out
}

/// Presentation order is reproducible: any two arrangements of the same groups
/// that are both in presentation order are identical, provided no two groups
/// share a first path (as holds of groups found in one run, whose members are
/// distinct files).
pub proof fn lemma_presentation_unique(a: Seq<DuplicateGroup>, b: Seq<DuplicateGroup>)
    requires
        presentation_sorted(a),
        presentation_sorted(b),
        a.to_multiset() == b.to_multiset(),
        distinct_first_paths(a),
    ensures
        a == b,
    decreases a.len(),
{
    broadcast use vstd::seq_lib::group_to_multiset_ensures;
    if a.len() == 0 {
        assert(b.len() == 0);
        assert(a =~= b);
    } else {
        a.to_multiset_ensures();
        b.to_multiset_ensures();
        assert(b.len() == a.len());
        assert(a.contains(a[0]));
        assert(b.to_multiset().count(a[0]) > 0);
        assert(b.contains(a[0]));
        let k = choose|k: int| 0 <= k < b.len() && b[k] == a[0];
        assert(b.contains(b[0]));
        assert(a.to_multiset().count(b[0]) > 0);
        assert(a.contains(b[0]));
        let m = choose|m: int| 0 <= m < a.len() && a[m] == b[0];
        if k > 0 {
            assert(presented_before(b[0], b[k]));
        } else {
            lemma_presented_total(b[0], a[0]);
        }
        if m > 0 {
            assert(presented_before(a[0], a[m]));
        } else {
            lemma_presented_total(a[0], b[0]);
        }
        if k > 0 || m > 0 {
            lemma_presented_antisym(a[0], b[0]);
            if m > 0 {
                assert(first_path(a[0]) != first_path(a[m]));
            }
        }
        assert(a[0] == b[0]);
        assert(a.remove(0) =~= a.drop_first());
        assert(b.remove(0) =~= b.drop_first());
        assert(a.drop_first().to_multiset() == b.drop_first().to_multiset());
        assert forall|i: int, j: int| 0 <= i < j < a.drop_first().len() implies first_path(
            #[trigger] a.drop_first()[i],
        ) != first_path(#[trigger] a.drop_first()[j]) by {
            assert(a.drop_first()[i] == a[i + 1]);
            assert(a.drop_first()[j] == a[j + 1]);
        }
        assert forall|i: int, j: int| 0 <= i < j < a.drop_first().len() implies presented_before(
            #[trigger] a.drop_first()[i],
            #[trigger] a.drop_first()[j],
        ) by {
            assert(a.drop_first()[i] == a[i + 1]);
            assert(a.drop_first()[j] == a[j + 1]);
        }
        assert forall|i: int, j: int| 0 <= i < j < b.drop_first().len() implies presented_before(
            #[trigger] b.drop_first()[i],
            #[trigger] b.drop_first()[j],
        ) by {
            assert(b.drop_first()[i] == b[i + 1]);
            assert(b.drop_first()[j] == b[j + 1]);
        }
        lemma_presentation_unique(a.drop_first(), b.drop_first());
        assert forall|i: int| 0 <= i < a.len() implies a[i] == b[i] by {
            if i > 0 {
                assert(a[i] == a.drop_first()[i - 1]);
                assert(b[i] == b.drop_first()[i - 1]);
            }
        }
        assert(a =~= b);
    }
}

} // verus!

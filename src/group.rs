//! Confirmed duplicate groups: sorted members, canonical member, and the
//! bytes that removing all but the canonical member would free.

use vstd::prelude::*;
use vstd::multiset::Multiset;
use crate::pathname::{lex_le, lex_sorted, path_le, paths_view, lemma_lex_total, lemma_lex_trans};

verus! {

/// The largest value of `u64`, and the value at which byte counts saturate.
pub open spec fn saturate(x: int) -> u64 {
    if x > u64::MAX {
        u64::MAX
    } else {
        x as u64
    }
}

/// A set of files with identical content.
///
/// `members` is kept in lexicographic order of the path bytes; the first member
/// is the canonical file, the one that actions keep.
#[derive(Clone, Debug)]
pub struct DuplicateGroup {
    /// Size in bytes of each member.
    pub size: u64,
    /// Paths of all members, in lexicographic order.
    pub members: Vec<Vec<u8>>,
}

impl DuplicateGroup {
    /// The member paths as byte strings.
    pub open spec fn paths(&self) -> Seq<Seq<u8>> {
        paths_view(self.members@)
    }

    /// The canonical member: the first in order.
    pub open spec fn canonical(&self) -> Seq<u8> {
        self.paths()[0]
    }

    /// Bytes freed by keeping only the canonical member: `size × (count − 1)`.
    pub open spec fn contribution(&self) -> int {
        if self.members.len() == 0 {
            0
        } else {
            self.size as int * (self.members.len() - 1)
        }
    }

    /// Members in order, and at least two of them.
    pub open spec fn wf(&self) -> bool {
        &&& self.members.len() >= 2
        &&& lex_sorted(self.paths())
    }

    /// Builds a group of `size`-byte files, sorting the members so that the
    /// lexicographically first path becomes the canonical member.
    pub fn new(size: u64, members: Vec<Vec<u8>>) -> (g: Self)
        ensures
            g.size == size,
            lex_sorted(g.paths()),
            g.paths().to_multiset() == paths_view(members@).to_multiset(),
    {
        let ghost orig = paths_view(members@);
        let mut rest = members;
        let mut out: Vec<Vec<u8>> = Vec::new();
        proof {
            broadcast use vstd::seq_lib::group_to_multiset_ensures;
            assert(paths_view(out@) =~= Seq::<Seq<u8>>::empty());
            assert(paths_view(out@).to_multiset() =~= Multiset::empty());
            assert(paths_view(rest@) =~= orig);
            assert(orig.to_multiset().add(Multiset::empty()) =~= orig.to_multiset());
        }
        while rest.len() > 0
            invariant
                lex_sorted(paths_view(out@)),
                paths_view(rest@).to_multiset().add(paths_view(out@).to_multiset())
                    == orig.to_multiset(),
            decreases rest.len(),
        {
            let ghost before = rest@;
            let x = rest.pop().unwrap();
            proof {
                broadcast use vstd::seq_lib::group_to_multiset_ensures;
                assert(before =~= rest@.push(x));
                assert(paths_view(before) =~= paths_view(rest@).push(x@));
            }
            insert_sorted(&mut out, x);
            proof {
                assert(paths_view(rest@).to_multiset().add(paths_view(out@).to_multiset())
                    =~= orig.to_multiset());
            }
        }
        proof {
            broadcast use vstd::seq_lib::group_to_multiset_ensures;
            assert(paths_view(rest@) =~= Seq::<Seq<u8>>::empty());
            assert(paths_view(rest@).to_multiset() =~= Multiset::empty());
            assert(paths_view(out@).to_multiset() =~= orig.to_multiset());
        }
        DuplicateGroup { size, members: out }
    }

    /// Bytes freed by keeping only the canonical member, saturating at
    /// `u64::MAX`.
    pub fn reclaimable(&self) -> (r: u64)
        ensures
            r == saturate(self.contribution()),
    {
        let n = self.members.len();
        if n == 0 {
            return 0;
        }
        let extra = (n - 1) as u64;
        if extra == 0 {
            return 0;
        }
        if self.size > u64::MAX / extra {
            proof {
                let s = self.size as int;
                let e = extra as int;
                assert(s * e > u64::MAX) by (nonlinear_arith)
                    requires
                        s > u64::MAX as int / e,
                        e > 0,
                ;
            }
            u64::MAX
        } else {
            proof {
                let s = self.size as int;
                let e = extra as int;
                assert(s * e <= u64::MAX) by (nonlinear_arith)
                    requires
                        s <= u64::MAX as int / e,
                        e > 0,
                ;
            }
            self.size * extra
        }
    }
}

/// Inserts `x` into the sorted list `out`, after every element that sorts no
/// later than it.
fn insert_sorted(out: &mut Vec<Vec<u8>>, x: Vec<u8>)
    requires
        lex_sorted(paths_view(old(out)@)),
    ensures
        lex_sorted(paths_view(final(out)@)),
        paths_view(final(out)@).to_multiset() == paths_view(old(out)@).to_multiset().insert(x@),
{
    let ghost s = paths_view(out@);
    let mut pos: usize = 0;
    while pos < out.len() && path_le(&out[pos], &x)
        invariant
            pos <= out.len(),
            out@ == old(out)@,
            forall|k: int| 0 <= k < pos ==> lex_le(#[trigger] out@[k]@, x@),
        decreases out.len() - pos,
    {
        pos = pos + 1;
    }
    proof {
        if pos < out.len() {
            lemma_lex_total(out@[pos as int]@, x@);
            assert forall|k: int| pos <= k < out.len() implies lex_le(x@, #[trigger] s[k]) by {
                if k > pos {
                    assert(lex_le(s[pos as int], s[k]));
                    lemma_lex_trans(x@, s[pos as int], s[k]);
                }
            }
        }
    }
    out.insert(pos, x);
    proof {
        let t = paths_view(out@);
        assert(t =~= s.insert(pos as int, x@));
        assert forall|i: int, j: int| 0 <= i < j < t.len() implies lex_le(
            #[trigger] t[i],
            #[trigger] t[j],
        ) by {
            if j < pos {
            } else if j == pos {
            } else if i < pos {
                assert(lex_le(s[i], x@));
                assert(lex_le(x@, s[j - 1]));
                lemma_lex_trans(s[i], x@, s[j - 1]);
            } else if i == pos {
            } else {
                assert(lex_le(s[i - 1], s[j - 1]));
            }
        }
        broadcast use vstd::seq_lib::group_to_multiset_ensures;
        assert(t.remove(pos as int) =~= s);
        assert(t[pos as int] == x@);
        assert(t.to_multiset().remove(x@) == s.to_multiset());
        assert(t.to_multiset().count(x@) > 0);
        assert(t.to_multiset() =~= s.to_multiset().insert(x@));
    }
}

/// The canonical member of a sorted group is its lexicographically smallest
/// path.
pub proof fn lemma_canonical_is_least(g: DuplicateGroup)
    requires
        lex_sorted(g.paths()),
        g.members.len() >= 1,
    ensures
        forall|i: int| 0 <= i < g.members.len() ==> lex_le(g.canonical(), #[trigger] g.paths()[i]),
{
    assert forall|i: int| 0 <= i < g.members.len() implies lex_le(
        g.canonical(),
        #[trigger] g.paths()[i],
    ) by {
        if i > 0 {
            assert(lex_le(g.paths()[0], g.paths()[i]));
        } else {
            crate::pathname::lemma_lex_refl(g.paths()[0]);
        }
    }
}

} // verus!

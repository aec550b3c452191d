use vstd::prelude::*;
use vstd::multiset::Multiset;
use vstd::seq_lib::{group_to_multiset_ensures, to_multiset_build, to_multiset_insert};
use crate::folder::CacheFolderInfo;

verus! {

/// Sizes never grow from one match to the next.
pub open spec fn sorted_by_size_desc(s: Seq<CacheFolderInfo>) -> bool {
    forall|i: int, j: int| 0 <= i < j < s.len() ==> #[trigger] s[i].size >= #[trigger] s[j].size
}

/// Puts the matches in order of non-increasing size, keeping every match.
pub fn sort_by_size_desc(folders: &mut Vec<CacheFolderInfo>)
    ensures
        sorted_by_size_desc(final(folders)@),
        final(folders)@.to_multiset() == old(folders)@.to_multiset(),
{
    let ghost orig = folders@;
    let mut sorted: Vec<CacheFolderInfo> = Vec::new();
    proof {
        broadcast use group_to_multiset_ensures;
        assert(sorted@.to_multiset() =~= Multiset::empty());
    }
    while folders.len() > 0
        invariant
            sorted_by_size_desc(sorted@),
            sorted@.to_multiset().add(folders@.to_multiset()) == orig.to_multiset(),
        decreases folders@.len(),
    {
        let ghost rest = folders@;
        let x = folders.pop().unwrap();
        proof {
            assert(rest =~= folders@.push(x));
            to_multiset_build(folders@, x);
        }
        let mut j: usize = 0;
        while j < sorted.len() && sorted[j].size >= x.size
            invariant
                j <= sorted@.len(),
                forall|i: int| 0 <= i < j ==> #[trigger] sorted@[i].size >= x.size,
            decreases sorted@.len() - j,
        {
            j = j + 1;
        }
        let ghost before = sorted@;
        proof {
            if j < sorted@.len() {
                assert forall|i: int| j <= i < before.len() implies #[trigger] before[i].size
                    < x.size by {
                    assert(before[j as int].size >= before[i].size);
                }
            }
        }
        sorted.insert(j, x);
        proof {
            to_multiset_insert(before, j as int, x);
            assert(sorted@.to_multiset().add(folders@.to_multiset()) =~= orig.to_multiset());
            assert forall|a: int, b: int| 0 <= a < b < sorted@.len() implies #[trigger] sorted@[a].size
                >= #[trigger] sorted@[b].size by {
                if a < j && b > j {
                    assert(sorted@[a] == before[a]);
                    assert(sorted@[b] == before[b - 1]);
                } else if a < j && b == j {
                    assert(sorted@[a] == before[a]);
                } else if a == j {
                    assert(sorted@[b] == before[b - 1]);
                } else if b < j {
                    assert(sorted@[a] == before[a]);
                    assert(sorted@[b] == before[b]);
                } else {
                    assert(sorted@[a] == before[a - 1]);
                    assert(sorted@[b] == before[b - 1]);
                }
            }
        }
    }
    proof {
        broadcast use group_to_multiset_ensures;
        assert(folders@.to_multiset() =~= Multiset::empty());
    }
    *folders = sorted;
}

} // verus!

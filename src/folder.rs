use vstd::prelude::*;

verus! {

/// Bytes in one of the units the report prints sizes in.
pub const MB_DIVISOR: u64 = 1024 * 1025;

/// A directory whose path names a cache, with the size of its contents.
pub struct CacheFolderInfo {
    pub path: String,
    pub size: u64,
}

impl CacheFolderInfo {
    pub open spec fn view_pair(&self) -> (Seq<char>, u64) {
        (self.path@, self.size)
    }

    /// Records a match: `size` is the total measured under `path`.
    pub fn new(path: &String, size: u64) -> (r: CacheFolderInfo)
        ensures
            r.path@ == path@,
            r.size == size,
    {
        CacheFolderInfo { path: path.clone(), size }
    }
}

/// Sum of a sequence of byte counts.
pub open spec fn seq_sum(s: Seq<u64>) -> int
    decreases s.len(),
{
    if s.len() == 0 {
        0
    } else {
        seq_sum(s.drop_last()) + s.last()
    }
}

/// Sum of the sizes of a sequence of matches.
pub open spec fn sizes_sum(s: Seq<CacheFolderInfo>) -> int
    decreases s.len(),
{
    if s.len() == 0 {
        0
    } else {
        sizes_sum(s.drop_last()) + s.last().size
    }
}

/// A directory is large when its size is strictly above the threshold.
pub fn is_large_dir(size: u64, threshold: u64) -> (r: bool)
    ensures
        r == (size > threshold),
{
    size > threshold
}

/// Converts bytes to the report's unit, rounding down.
pub fn bytes_to_mb(bytes: u64) -> (r: u64)
    ensures
        r == bytes / MB_DIVISOR,
{
    bytes / MB_DIVISOR
}

/// Total of the byte lengths of the regular files found under a directory;
/// `None` when the total does not fit in 64 bits.
pub fn total_file_size(lengths: &Vec<u64>) -> (r: Option<u64>)
    ensures
        seq_sum(lengths@) <= u64::MAX ==> r == Some(seq_sum(lengths@) as u64),
        seq_sum(lengths@) > u64::MAX ==> r is None,
{
    let mut sum: u64 = 0;
    let mut i: usize = 0;
    while i < lengths.len()
        invariant
            i <= lengths@.len(),
            sum == seq_sum(lengths@.subrange(0, i as int)),
        decreases lengths@.len() - i,
    {
        proof {
            assert(lengths@.subrange(0, i + 1).drop_last() =~= lengths@.subrange(0, i as int));
        }
        match sum.checked_add(lengths[i]) {
            Some(s) => {
                sum = s;
            },
            None => {
                proof {
                    lemma_seq_sum_prefix_le(lengths@, i + 1);
                }
                return None;
            },
        }
        i = i + 1;
    }
    assert(lengths@.subrange(0, i as int) =~= lengths@);
    Some(sum)
}

/// A prefix never sums to more than the whole sequence.
proof fn lemma_seq_sum_prefix_le(s: Seq<u64>, n: int)
    requires
        0 <= n <= s.len(),
    ensures
        seq_sum(s.subrange(0, n)) <= seq_sum(s),
    decreases s.len() - n,
{
    if n < s.len() {
        lemma_seq_sum_prefix_le(s, n + 1);
        assert(s.subrange(0, n + 1).drop_last() =~= s.subrange(0, n));
    } else {
        assert(s.subrange(0, n) =~= s);
    }
}

/// Sum of the sizes of all matches.
pub fn get_size_sum(folders: &Vec<CacheFolderInfo>) -> (r: u64)
    requires
        sizes_sum(folders@) <= u64::MAX,
    ensures
        r == sizes_sum(folders@),
{
    let mut sum: u64 = 0;
    let mut i: usize = 0;
    while i < folders.len()
        invariant
            i <= folders@.len(),
            sizes_sum(folders@) <= u64::MAX,
            sum == sizes_sum(folders@.subrange(0, i as int)),
        decreases folders@.len() - i,
    {
        proof {
            assert(folders@.subrange(0, i + 1).drop_last() =~= folders@.subrange(0, i as int));
            lemma_sizes_sum_prefix_le(folders@, i + 1);
        }
        sum = sum + folders[i].size;
        i = i + 1;
    }
    assert(folders@.subrange(0, i as int) =~= folders@);
    sum
}

/// A prefix of the matches never sums to more than all of them.
proof fn lemma_sizes_sum_prefix_le(s: Seq<CacheFolderInfo>, n: int)
    requires
        0 <= n <= s.len(),
    ensures
        sizes_sum(s.subrange(0, n)) <= sizes_sum(s),
    decreases s.len() - n,
{
    if n < s.len() {
        lemma_sizes_sum_prefix_le(s, n + 1);
        assert(s.subrange(0, n + 1).drop_last() =~= s.subrange(0, n));
    } else {
        assert(s.subrange(0, n) =~= s);
    }
}

} // verus!

use vstd::prelude::*;
use vstd::string::StrSliceExecFns;

verus! {

/// What `str::to_lowercase` makes of a string.
pub uninterp spec fn lower_of(s: Seq<char>) -> Seq<char>;

/// Relies on `str::to_lowercase`: the lowercase form of the path, which
/// depends on its characters alone.
#[verifier::external_body]
fn lowercase(s: &str) -> (r: String)
    ensures
        r@ == lower_of(s@),
{
    s.to_lowercase()
}

/// `pattern` occurs in `text` at position `i`.
pub open spec fn occurs_at(text: Seq<char>, pattern: Seq<char>, i: int) -> bool {
    0 <= i && i + pattern.len() <= text.len() && text.subrange(i, i + pattern.len()) == pattern
}

/// `pattern` is a substring of `text`.
pub open spec fn has_substring(text: Seq<char>, pattern: Seq<char>) -> bool {
    exists|i: int| occurs_at(text, pattern, i)
}

/// A path names a cache when its lowercase form holds the pattern.
pub open spec fn is_cache_path_spec(path: Seq<char>, pattern: Seq<char>) -> bool {
    has_substring(lower_of(path), pattern)
}

fn chars_of(s: &str) -> (r: Vec<char>)
    ensures
        r@ == s@,
{
    let n = s.unicode_len();
    let mut v: Vec<char> = Vec::new();
    let mut i: usize = 0;
    while i < n
        invariant
            n == s@.len(),
            i <= n,
            v@ == s@.subrange(0, i as int),
        decreases n - i,
    {
        v.push(s.get_char(i));
        i = i + 1;
    }
    assert(v@ =~= s@);
    v
}

/// Whether `pattern` occurs in `text`, character for character.
pub fn contains_pattern(text: &str, pattern: &str) -> (r: bool)
    ensures
        r == has_substring(text@, pattern@),
{
    let t = chars_of(text);
    let p = chars_of(pattern);
    if p.len() > t.len() {
        assert forall|i: int| !occurs_at(text@, pattern@, i) by {}
        return false;
    }
    let tn: usize = t.len();
    let last: usize = tn - p.len();
    let mut i: usize = 0;
    loop
        invariant
            t@ == text@,
            p@ == pattern@,
            last == t@.len() - p@.len(),
            tn == t@.len(),
            i <= last,
            forall|k: int| 0 <= k < i ==> !occurs_at(text@, pattern@, k),
        decreases last - i,
    {
        let mut j: usize = 0;
        let mut same = true;
        while j < p.len()
            invariant
                t@ == text@,
                p@ == pattern@,
                i <= last,
                last == t@.len() - p@.len(),
                i + p@.len() <= t@.len(),
                tn == t@.len(),
                j <= p@.len(),
                same == (forall|k: int| 0 <= k < j ==> t@[i + k] == p@[k]),
            decreases p@.len() - j,
        {
            if t[i + j] != p[j] {
                same = false;
            }
            j = j + 1;
        }
        if same {
            assert(t@.subrange(i as int, i + p@.len()) =~= p@);
            assert(occurs_at(text@, pattern@, i as int));
            return true;
        }
        proof {
            if occurs_at(text@, pattern@, i as int) {
                let k = choose|k: int| 0 <= k < p@.len() && t@[i + k] != p@[k];
                assert(t@.subrange(i as int, i + p@.len())[k] == t@[i + k]);
            }
        }
        if i == last {
            assert forall|k: int| !occurs_at(text@, pattern@, k) by {
                if 0 <= k && k + pattern@.len() <= text@.len() {
                    assert(k <= i);
                }
            }
            return false;
        }
        i = i + 1;
    }
}

/// Whether a path names a cache: its lowercase form holds `pattern`.
pub fn is_cache_path(path: &str, pattern: &str) -> (r: bool)
    ensures
        r == is_cache_path_spec(path@, pattern@),
{
    let lower = lowercase(path);
    contains_pattern(lower.as_str(), pattern)
}

} // verus!

//! Comparison of a stretch of the input text against a fixed spelling.

use vstd::prelude::*;

verus! {

/// Does `s[start..end]` (character indices) hold exactly the characters
/// of `pat`?
pub fn sub_matches(s: &str, start: usize, end: usize, pat: &str) -> (r: bool)
    requires
        start <= end <= s@.len(),
    ensures
        r == (s@.subrange(start as int, end as int) == pat@),
{
    let plen = pat.unicode_len();
    if end - start != plen {
        proof {
            assert(s@.subrange(start as int, end as int).len() != pat@.len());
        }
        return false;
    }
    let mut j: usize = 0;
    while j < plen
        invariant
            start <= end <= s@.len(),
            end - start == plen == pat@.len(),
            j <= plen,
            forall|k: int| 0 <= k < j ==> s@.subrange(start as int, end as int)[k] == pat@[k],
        decreases plen - j,
    {
        let cs = s.get_char(start + j);
        let cp = pat.get_char(j);
        if cs != cp {
            proof {
                assert(s@.subrange(start as int, end as int)[j as int] == cs);
            }
            return false;
        }
        j = j + 1;
    }
    proof {
        assert(s@.subrange(start as int, end as int) =~= pat@);
    }
    true
}

} // verus!

//! Wildcard pattern matching over byte strings.

use vstd::prelude::*;
use vstd::string::StringSliceAdditionalSpecFns;

verus! {

/// The wildcard byte `?`, which matches any byte of the subject string.
pub const WILDCARD: u8 = 63;

/// A pattern matches a string when every position that both hold agrees,
/// either exactly or through the wildcard.  Positions past the shorter of
/// the two are not compared.
pub open spec fn spec_matches(p: Seq<u8>, s: Seq<u8>) -> bool {
    forall|i: int|
        0 <= i < p.len() && i < s.len() ==> p[i] == s[i] || p[i] == WILDCARD
}

/// Check whether the pattern matches the string, byte for byte, where `?`
/// in the pattern matches any byte.
pub fn matches(pattern: &str, string: &str) -> (r: bool)
    ensures
        r == spec_matches(pattern.spec_bytes(), string.spec_bytes()),
{
    let bp = pattern.as_bytes();
    let bs = string.as_bytes();
    let n = if bp.len() < bs.len() {
        bp.len()
    } else {
        bs.len()
    };
    let mut i: usize = 0;
    while i < n
        invariant
            i <= n,
            n <= bp@.len(),
            n <= bs@.len(),
            n == bp@.len() || n == bs@.len(),
            bp@ == pattern.spec_bytes(),
            bs@ == string.spec_bytes(),
            forall|j: int| 0 <= j < i ==> bp@[j] == bs@[j] || bp@[j] == WILDCARD,
        decreases n - i,
    {
        let p = bp[i];
        let s = bs[i];
        if p != s && p != WILDCARD {
            return false;
        }
        i = i + 1;
    }
    true
}

} // verus!

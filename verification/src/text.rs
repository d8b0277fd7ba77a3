//! Verified helpers for symbol-name strings: equality and prefix
//! stripping over `&str`, specified over the character sequences.

use vstd::prelude::*;

verus! {

use vstd::string::StrSliceExecFns;

/// Whether two string slices hold the same characters.
pub fn str_eq(a: &str, b: &str) -> (r: bool)
    ensures
        r == (a@ == b@),
{
    let an = a.unicode_len();
    let bn = b.unicode_len();
    if an != bn {
        proof {
            assert(a@.len() != b@.len());
        }
        return false;
    }
    let mut i: usize = 0;
    while i < an
        invariant
            an == a@.len(),
            bn == b@.len(),
            an == bn,
            0 <= i <= an,
            forall|j: int| 0 <= j < i ==> a@[j] == b@[j],
        decreases an - i,
    {
        if a.get_char(i) != b.get_char(i) {
            proof {
                assert(a@[i as int] != b@[i as int]);
            }
            return false;
        }
        i += 1;
    }
    proof {
        assert(a@ =~= b@);
    }
    true
}

/// Strip `prefix` from the front of `s`: `Some(rest)` exactly when `s`
/// starts with `prefix`, with `s` being `prefix` followed by `rest`.
pub fn str_strip_prefix<'a>(s: &'a str, prefix: &str) -> (r: Option<&'a str>)
    ensures
        match r {
            Some(rest) => prefix@.is_prefix_of(s@) && s@ == prefix@ + rest@
                && rest@ == s@.skip(prefix@.len() as int),
            None => !prefix@.is_prefix_of(s@),
        },
{
    let pn = prefix.unicode_len();
    let sn = s.unicode_len();
    if pn > sn {
        return None;
    }
    let mut i: usize = 0;
    while i < pn
        invariant
            pn == prefix@.len(),
            sn == s@.len(),
            pn <= sn,
            0 <= i <= pn,
            forall|j: int| 0 <= j < i ==> s@[j] == prefix@[j],
        decreases pn - i,
    {
        if s.get_char(i) != prefix.get_char(i) {
            proof {
                assert(s@[i as int] != prefix@[i as int]);
                assert(!prefix@.is_prefix_of(s@));
            }
            return None;
        }
        i += 1;
    }
    let rest = s.substring_char(pn, sn);
    proof {
        assert(s@.subrange(0, pn as int) =~= prefix@);
        assert(prefix@.is_prefix_of(s@));
        assert(s@ =~= prefix@ + rest@);
        assert(rest@ =~= s@.skip(pn as int));
    }
    Some(rest)
}

} // verus!

use vstd::prelude::*;
use vstd::string::{StrSliceExecFns, StringExecFns};

verus! {

/// `prefix` is the start of `s`, character for character.
pub open spec fn str_starts_with(s: Seq<char>, prefix: Seq<char>) -> bool {
    prefix.len() <= s.len() && s.subrange(0, prefix.len() as int) == prefix
}

/// Whether `s` starts with `prefix`, compared character by character.
fn starts_with(s: &str, prefix: &str) -> (r: bool)
    ensures
        r == str_starts_with(s@, prefix@),
{
    let plen = prefix.unicode_len();
    let slen = s.unicode_len();
    if plen > slen {
        return false;
    }
    let mut i: usize = 0;
    while i < plen
        invariant
            i <= plen,
            plen == prefix@.len(),
            slen == s@.len(),
            plen <= slen,
            forall|k: int| 0 <= k < i ==> s@[k] == prefix@[k],
        decreases plen - i,
    {
        if s.get_char(i) != prefix.get_char(i) {
            proof {
                assert(s@.subrange(0, plen as int)[i as int] != prefix@[i as int]);
            }
            return false;
        }
        i += 1;
    }
    proof {
        assert(s@.subrange(0, plen as int) =~= prefix@);
    }
    true
}

/// Strips `base_path` off the front of `full_path`, keeping the leading
/// separator: where the base ends in `/` the result starts at that slash,
/// otherwise right after the base; a path that does not start with the
/// base comes back unchanged. Positions count characters.
pub fn get_relative_path(base_path: &str, full_path: &str) -> (r: String)
    ensures
        r@ == if str_starts_with(full_path@, base_path@) {
            if base_path@.len() > 0 && base_path@.last() == '/' {
                full_path@.subrange(base_path@.len() - 1, full_path@.len() as int)
            } else {
                full_path@.subrange(base_path@.len() as int, full_path@.len() as int)
            }
        } else {
            full_path@
        },
{
    let blen = base_path.unicode_len();
    let flen = full_path.unicode_len();
    let starts = starts_with(full_path, base_path);
    if starts {
        if blen > 0 && base_path.get_char(blen - 1) == '/' {
            String::from_str(full_path.substring_char(blen - 1, flen))
        } else {
            String::from_str(full_path.substring_char(blen, flen))
        }
    } else {
        String::from_str(full_path)
    }
}

} // verus!

use vstd::prelude::*;
use vstd::string::{StrSliceExecFns, StringExecFns};
use crate::strutil::str_eq;

verus! {

/// Index of the first occurrence of `c` in `s` at or after `from`, or
/// `s.len()` where there is none.
pub open spec fn find_idx(s: Seq<char>, c: char, from: int) -> int
    decreases s.len() - from,
{
    if from < 0 || from >= s.len() {
        s.len() as int
    } else if s[from] == c {
        from
    } else {
        find_idx(s, c, from + 1)
    }
}

/// Decentralized identifier: a method name and a method-specific id,
/// rendered as `did:<method>:<id>`.
#[derive(Clone, Debug)]
pub struct DID {
    pub method: String,
    pub id: String,
}

/// Finds the first occurrence of `c` in `s` at or after `from`, or `s`'s
/// length where there is none.
fn find_char(s: &str, c: char, from: usize) -> (r: usize)
    requires
        from <= s@.len(),
    ensures
        r == find_idx(s@, c, from as int),
        from <= r <= s@.len(),
{
    let len = s.unicode_len();
    let mut i: usize = from;
    while i < len
        invariant
            from <= i <= len,
            len == s@.len(),
            find_idx(s@, c, from as int) == find_idx(s@, c, i as int),
            forall|k: int| from <= k < i ==> s@[k] != c,
        decreases len - i,
    {
        if s.get_char(i) == c {
            return i;
        }
        i += 1;
    }
    len
}

impl DID {
    /// Builds an identifier from its two parts.
    pub fn new(method: &str, id: &str) -> (r: Self)
        ensures
            r.method@ == method@,
            r.id@ == id@,
    {
        DID { method: String::from_str(method), id: String::from_str(id) }
    }

    /// Parses `did:<method>:<id>`: exactly three colon-separated parts, the
    /// first being `did`; anything else is `None`.
    pub fn from_str(did: &str) -> (r: Option<DID>)
        ensures
            ({
                let s = did@;
                let i = find_idx(s, ':', 0);
                let j = find_idx(s, ':', i + 1);
                let k = find_idx(s, ':', j + 1);
                match r {
                    Some(d) => {
                        &&& i < s.len()
                        &&& j < s.len()
                        &&& k == s.len()
                        &&& s.subrange(0, i) == "did"@
                        &&& d.method@ == s.subrange(i + 1, j)
                        &&& d.id@ == s.subrange(j + 1, s.len() as int)
                    },
                    None => !(i < s.len() && j < s.len() && k == s.len() && s.subrange(0, i)
                        == "did"@),
                }
            }),
    {
        let len = did.unicode_len();
        let i = find_char(did, ':', 0);
        if i >= len {
            return None;
        }
        let j = find_char(did, ':', i + 1);
        if j >= len {
            return None;
        }
        let k = find_char(did, ':', j + 1);
        if k < len {
            return None;
        }
        if !str_eq(did.substring_char(0, i), "did") {
            return None;
        }
        Some(DID {
            method: String::from_str(did.substring_char(i + 1, j)),
            id: String::from_str(did.substring_char(j + 1, len)),
        })
    }

    /// Renders the identifier as `did:<method>:<id>`.
    pub fn to_string(&self) -> (r: String)
        ensures
            r@ == "did:"@ + self.method@ + ":"@ + self.id@,
    {
        let mut out = String::from_str("did:");
        out.append(self.method.as_str());
        out.append(":");
        out.append(self.id.as_str());
        out
    }

    /// Renders the identifier as the host name `<id>.<method>.did`.
    pub fn to_host_name(&self) -> (r: String)
        ensures
            r@ == self.id@ + "."@ + self.method@ + ".did"@,
    {
        let mut out = String::from_str(self.id.as_str());
        out.append(".");
        out.append(self.method.as_str());
        out.append(".did");
        out
    }

    /// Parses the host name `<id>.<method>.did`: exactly three
    /// dot-separated parts, the last being `did`; anything else is `None`.
    pub fn from_host_name(host_name: &str) -> (r: Option<DID>)
        ensures
            ({
                let s = host_name@;
                let i = find_idx(s, '.', 0);
                let j = find_idx(s, '.', i + 1);
                let k = find_idx(s, '.', j + 1);
                match r {
                    Some(d) => {
                        &&& i < s.len()
                        &&& j < s.len()
                        &&& k == s.len()
                        &&& s.subrange(j + 1, s.len() as int) == "did"@
                        &&& d.id@ == s.subrange(0, i)
                        &&& d.method@ == s.subrange(i + 1, j)
                    },
                    None => !(i < s.len() && j < s.len() && k == s.len() && s.subrange(
                        j + 1,
                        s.len() as int,
                    ) == "did"@),
                }
            }),
    {
        let len = host_name.unicode_len();
        let i = find_char(host_name, '.', 0);
        if i >= len {
            return None;
        }
        let j = find_char(host_name, '.', i + 1);
        if j >= len {
            return None;
        }
        let k = find_char(host_name, '.', j + 1);
        if k < len {
            return None;
        }
        if !str_eq(host_name.substring_char(j + 1, len), "did") {
            return None;
        }
        Some(DID {
            id: String::from_str(host_name.substring_char(0, i)),
            method: String::from_str(host_name.substring_char(i + 1, j)),
        })
    }
}

} // verus!

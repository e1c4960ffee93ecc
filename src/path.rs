use vstd::prelude::*;
use vstd::string::StrSliceExecFns;
use vstd::string::StringExecFns;

verus! {

/// A path with every backslash separator replaced by a forward slash.
pub open spec fn canonical_spec(s: Seq<char>) -> Seq<char> {
    s.map_values(|c: char| if c == '\\' { '/' } else { c })
}

/// `base` already ends in a separator, in either form.
pub open spec fn ends_in_separator(base: Seq<char>) -> bool {
    base.len() > 0 && canonical_spec(base).last() == '/'
}

/// The canonical path of `name` taken relative to `base`; a separator is put
/// between them only where `base` does not already end in one.
pub open spec fn member_path(base: Seq<char>, name: Seq<char>) -> Seq<char> {
    if ends_in_separator(base) {
        canonical_spec(base + name)
    } else {
        canonical_spec(base + seq!['/'] + name)
    }
}

/// `p` lies strictly beneath the directory `d`.
pub open spec fn inside(p: Seq<char>, d: Seq<char>) -> bool {
    &&& d.len() < p.len()
    &&& p[d.len() as int] == '/'
    &&& p.subrange(0, d.len() as int) == d
}

/// `p` lies directly in the directory `d`.
pub open spec fn child_of(p: Seq<char>, d: Seq<char>) -> bool {
    &&& inside(p, d)
    &&& forall|k: int| d.len() < k < p.len() ==> p[k] != '/'
}

/// Rewrites `s` into the canonical separator form.
pub fn canonical(s: &str) -> (r: String)
    ensures
        r@ == canonical_spec(s@),
{
    let n = s.unicode_len();
    let mut out = String::new();
    let mut i: usize = 0;
    while i < n
        invariant
            n == s@.len(),
            i <= n,
            out@ == canonical_spec(s@.subrange(0, i as int)),
        decreases n - i,
    {
        let c = s.get_char(i);
        proof {
            reveal_strlit("/");
        }
        if c == '\\' {
            out.append("/");
        } else {
            out.append(s.substring_char(i, i + 1));
        }
        assert(s@.subrange(0, i + 1) =~= s@.subrange(0, i as int).push(c));
        assert(canonical_spec(s@.subrange(0, i + 1)) =~= canonical_spec(
            s@.subrange(0, i as int),
        ).push(if c == '\\' { '/' } else { c }));
        i = i + 1;
    }
    assert(s@.subrange(0, n as int) =~= s@);
    out
}

/// The canonical path of the member `name` of the directory `base`.
pub fn join_member(base: &str, name: &str) -> (r: String)
    ensures
        r@ == member_path(base@, name@),
{
    let n = base.unicode_len();
    let mut joined = String::from_str(base);
    proof {
        reveal_strlit("/");
    }
    let has_separator = n > 0 && (base.get_char(n - 1) == '/' || base.get_char(n - 1) == '\\');
    assert(has_separator == ends_in_separator(base@));
    if !has_separator {
        joined.append("/");
    }
    joined.append(name);
    canonical(joined.as_str())
}

} // verus!

//! Virtual paths: normalized, slash-separated relative identifiers for
//! schema files, validated to reject backslashes, consecutive slashes, and
//! `.` or `..` segments; and the substitution of a disk prefix for a virtual
//! prefix that disk-backed source trees perform.

use vstd::prelude::*;

verus! {

/// Whether a `.` or `..` segment starts at position `i` of `s`: one or two
/// dots that fill a whole slash-delimited segment.
pub open spec fn dot_segment_at(s: Seq<u8>, i: int) -> bool {
    &&& 0 <= i < s.len()
    &&& (i == 0 || s[i - 1] == 47)
    &&& s[i] == 46
    &&& (i + 1 == s.len() || s[i + 1] == 47 || (s[i + 1] == 46 && (i + 2 == s.len() || s[i + 2]
        == 47)))
}

/// Whether the byte sequence is an acceptable virtual path: no backslashes,
/// no consecutive slashes, and no `.` or `..` segments.
pub open spec fn path_ok(s: Seq<u8>) -> bool {
    &&& forall|i: int| 0 <= i < s.len() ==> s[i] != 92
    &&& forall|i: int| 0 <= i && i + 1 < s.len() ==> !(s[i] == 47 && #[trigger] s[i + 1] == 47)
    &&& forall|i: int| !dot_segment_at(s, i)
}

/// Decides [`path_ok`] for the given path.
pub fn validate_virtual_path(p: &Vec<u8>) -> (r: bool)
    ensures
        r == path_ok(p@),
{
    let n = p.len();
    let mut i: usize = 0;
    while i < n
        invariant
            n == p@.len(),
            i <= n,
            forall|k: int| 0 <= k < i ==> p@[k] != 92,
            forall|k: int| 0 <= k < i && k + 1 < n ==> !(p@[k] == 47 && #[trigger] p@[k + 1]
                == 47),
            forall|k: int| k < i ==> !dot_segment_at(p@, k),
        decreases n - i,
    {
        let b = p[i];
        if b == 92 {
            return false;
        }
        if b == 47 && i + 1 < n && p[i + 1] == 47 {
            proof {
                assert(p@[i as int] == 47 && p@[i as int + 1] == 47);
            }
            return false;
        }
        if b == 46 && (i == 0 || p[i - 1] == 47) {
            if i + 1 == n || p[i + 1] == 47 {
                proof {
                    assert(dot_segment_at(p@, i as int));
                }
                return false;
            }
            if p[i + 1] == 46 && (i + 2 == n || p[i + 2] == 47) {
                proof {
                    assert(dot_segment_at(p@, i as int));
                }
                return false;
            }
        }
        i += 1;
        proof {
            assert forall|k: int| k < i implies !dot_segment_at(p@, k) by {
                if k == i - 1 {
                    assert(!dot_segment_at(p@, k));
                }
            }
            assert forall|k: int| 0 <= k < i && k + 1 < n implies !(p@[k] == 47
                && #[trigger] p@[k + 1] == 47) by {
                if k == i - 1 {
                    assert(!(p@[k] == 47 && p@[k + 1] == 47));
                }
            }
        }
    }
    true
}

/// Whether a mapping's virtual prefix applies to a path: an empty prefix
/// matches everything, and otherwise the path is the prefix or continues it
/// at a slash.
pub open spec fn prefix_matches(prefix: Seq<u8>, path: Seq<u8>) -> bool {
    ||| prefix.len() == 0
    ||| path == prefix
    ||| (path.len() > prefix.len() && path.take(prefix.len() as int) == prefix && path[prefix.len() as int]
        == 47)
}

/// The part of the path after a matching prefix, without its leading slash.
pub open spec fn rest_after_prefix(prefix: Seq<u8>, path: Seq<u8>) -> Seq<u8> {
    if prefix.len() == 0 {
        path
    } else if path == prefix {
        Seq::empty()
    } else {
        path.skip(prefix.len() as int + 1)
    }
}

/// The physical path a mapping proposes: the disk path, joined with a slash
/// to whatever follows the virtual prefix.
pub open spec fn candidate_path(prefix: Seq<u8>, disk: Seq<u8>, path: Seq<u8>) -> Seq<u8> {
    let rest = rest_after_prefix(prefix, path);
    if rest.len() == 0 {
        disk
    } else if disk.len() == 0 {
        rest
    } else {
        disk + seq![47u8] + rest
    }
}

/// The physical paths that an ordered list of mappings proposes for a path,
/// in mapping order.
pub open spec fn spec_candidates(
    mappings: Seq<(Seq<u8>, Seq<u8>)>,
    path: Seq<u8>,
) -> Seq<Seq<u8>>
    decreases mappings.len(),
{
    if mappings.len() == 0 {
        Seq::empty()
    } else {
        let head = if prefix_matches(mappings[0].0, path) {
            seq![candidate_path(mappings[0].0, mappings[0].1, path)]
        } else {
            Seq::<Seq<u8>>::empty()
        };
        head + spec_candidates(mappings.skip(1), path)
    }
}

/// Decides [`prefix_matches`] for the given prefix and path.
pub fn check_prefix_matches(prefix: &Vec<u8>, path: &Vec<u8>) -> (r: bool)
    ensures
        r == prefix_matches(prefix@, path@),
{
    if prefix.len() == 0 {
        return true;
    }
    if path.len() < prefix.len() {
        proof {
            assert(path@ != prefix@);
        }
        return false;
    }
    if path.len() > prefix.len() && path[prefix.len()] != 47 {
        let eq = take_matches(prefix, path);
        if eq {
            proof {
                assert(path@ != prefix@);
            }
        }
        return false;
    }
    let eq = take_matches(prefix, path);
    proof {
        if path@.len() == prefix@.len() {
            assert(path@.take(prefix@.len() as int) =~= path@);
        }
    }
    eq
}

/// Whether the path's first `prefix.len()` bytes equal the prefix.
fn take_matches(prefix: &Vec<u8>, path: &Vec<u8>) -> (r: bool)
    requires
        prefix@.len() <= path@.len(),
    ensures
        r == (path@.take(prefix@.len() as int) == prefix@),
{
    let n = prefix.len();
    let mut i: usize = 0;
    while i < n
        invariant
            n == prefix@.len() <= path@.len(),
            i <= n,
            forall|k: int| 0 <= k < i ==> path@[k] == prefix@[k],
        decreases n - i,
    {
        if path[i] != prefix[i] {
            proof {
                assert(path@.take(prefix@.len() as int)[i as int] != prefix@[i as int]);
            }
            return false;
        }
        i += 1;
    }
    proof {
        assert(path@.take(prefix@.len() as int) =~= prefix@);
    }
    true
}

/// Builds [`candidate_path`] for the given mapping and path.
pub fn build_candidate(prefix: &Vec<u8>, disk: &Vec<u8>, path: &Vec<u8>) -> (r: Vec<u8>)
    requires
        prefix_matches(prefix@, path@),
    ensures
        r@ == candidate_path(prefix@, disk@, path@),
{
    let rest_start: usize = if prefix.len() == 0 {
        0
    } else if path.len() == prefix.len() {
        path.len()
    } else {
        prefix.len() + 1
    };
    proof {
        if prefix@.len() != 0 && path@.len() == prefix@.len() {
            assert(path@.take(prefix@.len() as int) =~= path@);
        }
        assert(path@.skip(rest_start as int) =~= rest_after_prefix(prefix@, path@));
    }
    let rest_len = path.len() - rest_start;
    if rest_len == 0 {
        let r = crate::descriptor::clone_bytes(disk);
        return r;
    }
    if disk.len() == 0 {
        let mut r: Vec<u8> = Vec::new();
        let mut i: usize = rest_start;
        while i < path.len()
            invariant
                rest_start <= i <= path@.len(),
                r@ == path@.subrange(rest_start as int, i as int),
            decreases path@.len() - i,
        {
            r.push(path[i]);
            i += 1;
            proof {
                assert(r@ =~= path@.subrange(rest_start as int, i as int));
            }
        }
        proof {
            assert(r@ =~= rest_after_prefix(prefix@, path@));
        }
        return r;
    }
    let mut r = crate::descriptor::clone_bytes(disk);
    r.push(47);
    let ghost base = disk@ + seq![47u8];
    proof {
        assert(r@ =~= base);
    }
    let mut i: usize = rest_start;
    while i < path.len()
        invariant
            rest_start <= i <= path@.len(),
            base == disk@ + seq![47u8],
            r@ == base + path@.subrange(rest_start as int, i as int),
        decreases path@.len() - i,
    {
        r.push(path[i]);
        i += 1;
        proof {
            assert(r@ =~= base + path@.subrange(rest_start as int, i as int));
        }
    }
    proof {
        assert(path@.subrange(rest_start as int, path@.len() as int) =~= rest_after_prefix(
            prefix@,
            path@,
        ));
        assert(r@ =~= candidate_path(prefix@, disk@, path@));
    }
    r
}

} // verus!

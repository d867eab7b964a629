//! Asset paths as sequences of segments.
//!
//! The diff engine reports sidecar paths such as `Assets/Foo.prefab.meta`;
//! this module strips the metadata suffix from the terminal segment so the
//! rest of the system works with the path of the asset itself.

use vstd::prelude::*;
use vstd::string::*;

verus! {

/// Whether one path segment ends in the metadata suffix `.meta`.
pub open spec fn seg_has_meta_suffix(s: Seq<char>) -> bool {
    s.len() >= 5 && s[s.len() - 5] == '.' && s[s.len() - 4] == 'm' && s[s.len() - 3] == 'e'
        && s[s.len() - 2] == 't' && s[s.len() - 1] == 'a'
}

/// One segment with the metadata suffix removed, if it carries it.
pub open spec fn spec_strip_seg(s: Seq<char>) -> Seq<char> {
    if seg_has_meta_suffix(s) {
        s.take(s.len() - 5)
    } else {
        s
    }
}

/// A path with the metadata suffix stripped from its terminal segment.
pub open spec fn spec_strip_meta(p: Seq<Seq<char>>) -> Seq<Seq<char>> {
    if p.len() == 0 {
        p
    } else {
        p.update(p.len() - 1, spec_strip_seg(p.last()))
    }
}

/// Whether a path's terminal segment ends in the metadata suffix; such
/// paths are the only ones this system is interested in.
pub open spec fn spec_is_meta_path(p: Seq<Seq<char>>) -> bool {
    p.len() > 0 && seg_has_meta_suffix(p.last())
}

/// Whether `s` ends in the metadata suffix `.meta`.
pub fn has_meta_suffix(s: &str) -> (r: bool)
    ensures
        r == seg_has_meta_suffix(s@),
{
    let l = s.unicode_len();
    l >= 5 && s.get_char(l - 5) == '.' && s.get_char(l - 4) == 'm' && s.get_char(l - 3) == 'e'
        && s.get_char(l - 2) == 't' && s.get_char(l - 1) == 'a'
}

/// Whether the path's terminal segment ends in the metadata suffix.
pub fn is_meta_path(path: &Vec<String>) -> (r: bool)
    ensures
        r == spec_is_meta_path(path.deep_view()),
{
    if path.len() == 0 {
        return false;
    }
    let r = has_meta_suffix(path[path.len() - 1].as_str());
    proof {
        assert(path.deep_view().last() == path@[path@.len() - 1]@);
    }
    r
}

/// The segments of a path joined by the path separator.
pub open spec fn spec_join_path(p: Seq<Seq<char>>) -> Seq<char>
    decreases p.len(),
{
    if p.len() == 0 {
        Seq::empty()
    } else if p.len() == 1 {
        p[0]
    } else {
        spec_join_path(p.drop_last()) + "/"@ + p.last()
    }
}

/// The printable form of a path: its segments joined by `/`.
pub fn join_path(path: &Vec<String>) -> (r: String)
    ensures
        r@ == spec_join_path(path.deep_view()),
{
    let ghost pv = path.deep_view();
    let mut out = String::new();
    proof {
        assert(out@ =~= spec_join_path(pv.take(0)));
    }
    for i in 0..path.len()
        invariant
            pv == path.deep_view(),
            pv.len() == path@.len(),
            out@ == spec_join_path(pv.take(i as int)),
    {
        if i > 0 {
            out.append("/");
        }
        out.append(path[i].as_str());
        proof {
            assert(pv[i as int] == path@[i as int]@);
            assert(pv.take(i + 1).drop_last() =~= pv.take(i as int));
            assert(pv.take(i + 1).last() == pv[i as int]);
            assert(out@ =~= spec_join_path(pv.take(i + 1)));
        }
    }
    proof {
        assert(pv.take(pv.len() as int) =~= pv);
    }
    out
}

/// Whether two paths hold the same segments.
pub fn paths_equal(a: &Vec<String>, b: &Vec<String>) -> (r: bool)
    ensures
        r == (a.deep_view() == b.deep_view()),
{
    let ghost av = a.deep_view();
    let ghost bv = b.deep_view();
    if a.len() != b.len() {
        proof {
            assert(av.len() != bv.len());
        }
        return false;
    }
    for i in 0..a.len()
        invariant
            av == a.deep_view(),
            bv == b.deep_view(),
            a@.len() == b@.len(),
            forall|j: int| 0 <= j < i ==> av[j] == bv[j],
    {
        if !(a[i] == b[i]) {
            proof {
                assert(av[i as int] == a@[i as int]@);
                assert(bv[i as int] == b@[i as int]@);
            }
            return false;
        }
        proof {
            assert(av[i as int] == a@[i as int]@);
            assert(bv[i as int] == b@[i as int]@);
        }
    }
    proof {
        assert(av =~= bv);
    }
    true
}

/// An exact copy of `path`.
pub fn clone_path(path: &Vec<String>) -> (r: Vec<String>)
    ensures
        r@ == path@,
{
    let mut out: Vec<String> = Vec::new();
    for i in 0..path.len()
        invariant
            out@.len() == i,
            forall|j: int| 0 <= j < i ==> out@[j] == #[trigger] path@[j],
    {
        out.push(path[i].clone());
    }
    proof {
        assert(out@ =~= path@);
    }
    out
}

/// A copy of `path` with the metadata suffix stripped from its terminal
/// segment.
pub fn strip_meta_path(path: &Vec<String>) -> (r: Vec<String>)
    ensures
        r.deep_view() == spec_strip_meta(path.deep_view()),
{
    let ghost goal = spec_strip_meta(path.deep_view());
    let mut out: Vec<String> = Vec::new();
    if path.len() == 0 {
        proof {
            assert(out.deep_view() =~= goal);
        }
        return out;
    }
    let last_index = path.len() - 1;
    for i in 0..last_index
        invariant
            last_index < path@.len(),
            out@.len() == i,
            forall|j: int| 0 <= j < i ==> out@[j]@ == #[trigger] path@[j]@,
    {
        out.push(path[i].clone());
    }
    let last = &path[last_index];
    if has_meta_suffix(last.as_str()) {
        let l = last.as_str().unicode_len();
        let stripped = last.as_str().substring_char(0, l - 5);
        out.push(String::from_str(stripped));
    } else {
        out.push(last.clone());
    }
    proof {
        assert(out.deep_view() =~= goal);
    }
    out
}

} // verus!

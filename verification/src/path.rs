//! Lexical path handling for repository paths given by clients, on Unix
//! paths written with `/`: joining, normalizing `.` and `..`, and checking
//! that a path stays under the repository root.
use vstd::prelude::*;
use vstd::string::StringSliceAdditionalSpecFns;
use crate::error::Error;
use crate::bytes_util::append_bytes;
use crate::text::{lossy_text, utf8_lossy};

verus! {

/// The text of a string slice as bytes.
pub open spec fn text(s: &str) -> Seq<u8> {
    s.spec_bytes()
}

/// `.`
pub open spec fn is_cur(seg: Seq<u8>) -> bool {
    seg == seq![46u8]
}

/// `..`
pub open spec fn is_parent(seg: Seq<u8>) -> bool {
    seg == seq![46u8, 46u8]
}

/// Adds a segment to the components read so far: empty and `.` segments are
/// dropped; when normalizing, `..` removes the last component (if any).
pub open spec fn add_part(acc: Seq<Seq<u8>>, seg: Seq<u8>, normalize: bool) -> Seq<Seq<u8>> {
    if seg.len() == 0 || is_cur(seg) {
        acc
    } else if normalize && is_parent(seg) {
        if acc.len() > 0 {
            acc.drop_last()
        } else {
            acc
        }
    } else {
        acc.push(seg)
    }
}

/// The components of `p` from byte `i` on, the current segment starting at
/// `start`, after `acc`.
pub open spec fn parts_from(p: Seq<u8>, start: int, i: int, acc: Seq<Seq<u8>>, normalize: bool) -> Seq<Seq<u8>>
    decreases p.len() - i,
{
    if i >= p.len() {
        add_part(acc, p.subrange(start, p.len() as int), normalize)
    } else if p[i] == 47u8 {
        parts_from(p, i + 1, i + 1, add_part(acc, p.subrange(start, i), normalize), normalize)
    } else {
        parts_from(p, start, i + 1, acc, normalize)
    }
}

/// The normal components of a path (its root aside); with `normalize`, each
/// `..` cancels the component before it, as `normalize` resolves it.
pub open spec fn path_parts(p: Seq<u8>, normalize: bool) -> Seq<Seq<u8>> {
    parts_from(p, 0, 0, seq![], normalize)
}

/// The path starts at the root `/`.
pub open spec fn is_absolute(p: Seq<u8>) -> bool {
    p.len() > 0 && p[0] == 47u8
}

/// `a` is a prefix of `b`.
pub open spec fn is_prefix(a: Seq<Seq<u8>>, b: Seq<Seq<u8>>) -> bool {
    a.len() <= b.len() && b.subrange(0, a.len() as int) == a
}

/// `Path::starts_with`: `p` lies under `base`, component by component.
pub open spec fn starts_with(p: Seq<u8>, base: Seq<u8>) -> bool {
    is_absolute(p) == is_absolute(base) && is_prefix(path_parts(base, false), path_parts(p, false))
}

/// The normalized form of `p` lies under `base`.
pub open spec fn normalized_starts_with(p: Seq<u8>, base: Seq<u8>) -> bool {
    is_absolute(p) == is_absolute(base) && is_prefix(path_parts(base, false), path_parts(p, true))
}

/// `Path::join`: an absolute `rel` replaces `base`; otherwise `rel` follows
/// `base`, with a `/` between them unless `base` is empty or ends in `/`.
pub open spec fn join(base: Seq<u8>, rel: Seq<u8>) -> Seq<u8> {
    if is_absolute(rel) {
        rel
    } else if base.len() == 0 || base.last() == 47u8 {
        base + rel
    } else {
        base + seq![47u8] + rel
    }
}


/// The components of a path, each as its bytes.
pub open spec fn parts_view(v: Seq<Vec<u8>>) -> Seq<Seq<u8>> {
    v.map_values(|x: Vec<u8>| x@)
}

fn copy_range(p: &[u8], start: usize, end: usize) -> (r: Vec<u8>)
    requires
        start <= end <= p.len(),
    ensures
        r@ == p@.subrange(start as int, end as int),
{
    let mut r: Vec<u8> = Vec::new();
    crate::bytes_util::append_bytes(&mut r, &p[start..end]);
    r
}

fn add_part_exec(acc: &mut Vec<Vec<u8>>, seg: Vec<u8>, normalize: bool)
    ensures
        parts_view(final(acc)@) == add_part(parts_view(old(acc)@), seg@, normalize),
{
    let ghost a0 = parts_view(acc@);
    if seg.len() == 0 || (seg.len() == 1 && seg[0] == 46u8) {
        proof {
            if seg.len() == 1 && seg[0] == 46u8 {
                assert(seg@ =~= seq![46u8]);
            }
        }
    } else if normalize && seg.len() == 2 && seg[0] == 46u8 && seg[1] == 46u8 {
        proof {
            assert(seg@ =~= seq![46u8, 46u8]);
        }
        if acc.len() > 0 {
            acc.pop();
            proof {
                assert(parts_view(acc@) =~= a0.drop_last());
            }
        }
    } else {
        proof {
            if seg@ == seq![46u8] {
                assert(seg@.len() == 1);
            }
            if seg@ == seq![46u8, 46u8] {
                assert(seg@.len() == 2 && seg@[0] == 46u8 && seg@[1] == 46u8);
            }
        }
        acc.push(seg);
        proof {
            assert(parts_view(acc@) =~= a0.push(seg@));
        }
    }
}

/// The components of a path (see `path_parts`).
fn split_path(p: &[u8], normalize: bool) -> (r: Vec<Vec<u8>>)
    ensures
        parts_view(r@) == path_parts(p@, normalize),
{
    let mut acc: Vec<Vec<u8>> = Vec::new();
    let mut start: usize = 0;
    let mut i: usize = 0;
    assert(parts_view(acc@) =~= Seq::<Seq<u8>>::empty());
    while i < p.len()
        invariant
            start <= i <= p.len(),
            parts_from(p@, start as int, i as int, parts_view(acc@), normalize) == path_parts(p@, normalize),
        decreases p.len() - i,
    {
        if p[i] == 47u8 {
            let seg = copy_range(p, start, i);
            add_part_exec(&mut acc, seg, normalize);
            start = i + 1;
        }
        i = i + 1;
    }
    let seg = copy_range(p, start, p.len());
    add_part_exec(&mut acc, seg, normalize);
    acc
}

fn same_bytes(a: &Vec<u8>, b: &Vec<u8>) -> (r: bool)
    ensures
        r == (a@ == b@),
{
    if a.len() != b.len() {
        return false;
    }
    let mut i: usize = 0;
    while i < a.len()
        invariant
            i <= a.len() == b.len(),
            forall|j: int| 0 <= j < i ==> a@[j] == b@[j],
        decreases a.len() - i,
    {
        if a[i] != b[i] {
            return false;
        }
        i = i + 1;
    }
    assert(a@ =~= b@);
    true
}

fn parts_prefix(a: &Vec<Vec<u8>>, b: &Vec<Vec<u8>>) -> (r: bool)
    ensures
        r == is_prefix(parts_view(a@), parts_view(b@)),
{
    if a.len() > b.len() {
        return false;
    }
    let mut i: usize = 0;
    while i < a.len()
        invariant
            i <= a.len() <= b.len(),
            forall|j: int| 0 <= j < i ==> a@[j]@ == b@[j]@,
        decreases a.len() - i,
    {
        if !same_bytes(&a[i], &b[i]) {
            assert(parts_view(b@).subrange(0, a.len() as int)[i as int] != parts_view(a@)[i as int]);
            return false;
        }
        i = i + 1;
    }
    assert(parts_view(b@).subrange(0, a.len() as int) =~= parts_view(a@));
    true
}

fn absolute(p: &[u8]) -> (r: bool)
    ensures
        r == is_absolute(p@),
{
    p.len() > 0 && p[0] == 47u8
}

/// `Path::starts_with` on path bytes.
pub fn path_starts_with(p: &[u8], base: &[u8]) -> (r: bool)
    ensures
        r == starts_with(p@, base@),
{
    absolute(p) == absolute(base) && parts_prefix(&split_path(base, false), &split_path(p, false))
}

/// Whether the normalized form of `p` lies under `base`.
pub fn normalized_under(p: &[u8], base: &[u8]) -> (r: bool)
    ensures
        r == normalized_starts_with(p@, base@),
{
    absolute(p) == absolute(base) && parts_prefix(&split_path(base, false), &split_path(p, true))
}

/// `Path::join` on path bytes.
pub fn join_path(base: &[u8], rel: &[u8]) -> (r: Vec<u8>)
    ensures
        r@ == join(base@, rel@),
{
    let mut r: Vec<u8> = Vec::new();
    if absolute(rel) {
        append_bytes(&mut r, rel);
    } else if base.len() == 0 || base[base.len() - 1] == 47u8 {
        append_bytes(&mut r, base);
        append_bytes(&mut r, rel);
    } else {
        append_bytes(&mut r, base);
        r.push(47u8);
        append_bytes(&mut r, rel);
    }
    r
}

/// The outcome of resolving a client path.
pub enum Resolution {
    /// The root or the repository path could not be canonicalized.
    NotFound,
    /// The path leaves the root.
    Traversal,
    /// The canonical path of the repository.
    Found(Seq<u8>),
}

/// The bytes of an optional path.
pub open spec fn opt_bytes(o: Option<Vec<u8>>) -> Option<Seq<u8>> {
    match o {
        None => None,
        Some(b) => Some(b@),
    }
}

/// How resolving `relative` against `root` ends, given the canonical root
/// and the canonical candidate path (`None` where canonicalizing failed).
pub open spec fn resolution(
    root: Seq<u8>,
    relative: Seq<u8>,
    canonical_root: Option<Seq<u8>>,
    canonical_candidate: Option<Seq<u8>>,
) -> Resolution {
    match canonical_root {
        None => Resolution::NotFound,
        Some(croot) => if !normalized_starts_with(join(croot, relative), croot) {
            Resolution::Traversal
        } else {
            match canonical_candidate {
                None => Resolution::NotFound,
                Some(canon) => if starts_with(canon, croot) {
                    Resolution::Found(canon)
                } else {
                    Resolution::Traversal
                },
            }
        },
    }
}

/// The result matches the resolution: `RepoNotFound` carries the relative
/// path, `PathTraversal` the joined candidate path (as `Path::display`
/// shows it).
pub open spec fn resolved_as(r: Result<Vec<u8>, Error>, res: Resolution, root: Seq<u8>, relative: &str) -> bool {
    match res {
        Resolution::NotFound => r matches Err(Error::RepoNotFound(s)) && s@ == relative@,
        Resolution::Traversal => r matches Err(Error::PathTraversal(c))
            && c@ == lossy_text(join(root, text(relative))),
        Resolution::Found(p) => r matches Ok(q) && q@ == p,
    }
}

/// Resolve a relative repo path against a root directory, given what
/// canonicalizing the root and the joined candidate path gave (`None` when
/// canonicalizing failed); the candidate is only looked at once the path
/// has passed the lexical check.
///
/// Returns the canonical absolute path if it is within the root.
pub fn resolve_repo_path(
    root: &[u8],
    relative: &str,
    canonical_root: Option<Vec<u8>>,
    canonical_candidate: Option<Vec<u8>>,
) -> (r: Result<Vec<u8>, Error>)
    ensures
        resolved_as(r, resolution(root@, text(relative), opt_bytes(canonical_root), opt_bytes(canonical_candidate)), root@, relative),
{
    let rel = relative.as_bytes();
    let candidate = join_path(root, rel);
    let croot = match canonical_root {
        None => return Err(Error::RepoNotFound(String::from_str(relative))),
        Some(c) => c,
    };
    let joined = join_path(croot.as_slice(), rel);
    if !normalized_under(joined.as_slice(), croot.as_slice()) {
        return Err(Error::PathTraversal(utf8_lossy(candidate.as_slice())));
    }
    let canonical = match canonical_candidate {
        None => return Err(Error::RepoNotFound(String::from_str(relative))),
        Some(c) => c,
    };
    if !path_starts_with(canonical.as_slice(), croot.as_slice()) {
        return Err(Error::PathTraversal(utf8_lossy(candidate.as_slice())));
    }
    Ok(canonical)
}


/// Normalize a path by resolving `.` and `..` components lexically, without
/// touching the filesystem: its components once each `..` has removed the
/// component before it (if any).
pub fn normalize(p: &[u8]) -> (r: Vec<Vec<u8>>)
    ensures
        parts_view(r@) == path_parts(p@, true),
{
    split_path(p, true)
}

/// Paths are equal as `Path`s are: the same root and the same components.
pub open spec fn same_path(a: Seq<u8>, b: Seq<u8>) -> bool {
    is_absolute(a) == is_absolute(b) && path_parts(a, false) == path_parts(b, false)
}

/// Compares two paths as `Path`s compare.
pub fn paths_equal(ab: &[u8], bb: &[u8]) -> (r: bool)
    ensures
        r == same_path(ab@, bb@),
{
    if absolute(ab) != absolute(bb) {
        return false;
    }
    let pa = split_path(ab, false);
    let pb = split_path(bb, false);
    if pa.len() != pb.len() {
        assert(parts_view(pa@).len() != parts_view(pb@).len());
        return false;
    }
    let r = parts_prefix(&pa, &pb);
    proof {
        assert(parts_view(pb@).subrange(0, parts_view(pa@).len() as int) =~= parts_view(pb@));
    }
    r
}


/// Components written back as a relative path: joined by `/`.
pub open spec fn join_parts(parts: Seq<Seq<u8>>) -> Seq<u8>
    decreases parts.len(),
{
    if parts.len() == 0 {
        seq![]
    } else if parts.len() == 1 {
        parts[0]
    } else {
        join_parts(parts.drop_last()) + seq![47u8] + parts.last()
    }
}

/// `Path::strip_prefix(base)` written back as text: the components of `p`
/// after those of `base`, joined by `/`.
pub open spec fn stripped(p: Seq<u8>, base: Seq<u8>) -> Seq<u8> {
    let ps = path_parts(p, false);
    join_parts(ps.subrange(path_parts(base, false).len() as int, ps.len() as int))
}

/// `Path::file_name`: the last component, unless the path ends in `..` or
/// has no normal component.
pub open spec fn file_name(p: Seq<u8>) -> Option<Seq<u8>> {
    let ps = path_parts(p, false);
    if ps.len() > 0 && !is_parent(ps.last()) {
        Some(ps.last())
    } else {
        None
    }
}

fn join_parts_exec(parts: &Vec<Vec<u8>>, from: usize) -> (r: Vec<u8>)
    requires
        from <= parts@.len(),
    ensures
        r@ == join_parts(parts_view(parts@).subrange(from as int, parts@.len() as int)),
{
    let mut out: Vec<u8> = Vec::new();
    let mut i = from;
    let ghost pv = parts_view(parts@);
    assert(pv.subrange(from as int, from as int) =~= Seq::<Seq<u8>>::empty());
    while i < parts.len()
        invariant
            from <= i <= parts@.len(),
            pv == parts_view(parts@),
            out@ == join_parts(pv.subrange(from as int, i as int)),
        decreases parts.len() - i,
    {
        if i > from {
            out.push(47u8);
        }
        crate::bytes_util::append_bytes(&mut out, parts[i].as_slice());
        proof {
            let s1 = pv.subrange(from as int, i + 1);
            assert(s1.drop_last() =~= pv.subrange(from as int, i as int));
            assert(s1.last() == parts@[i as int]@);
            if i == from {
                assert(out@ =~= s1[0]);
            }
        }
        i = i + 1;
    }
    out
}

/// The text of `p` once the components of `base` are stripped from its
/// front (`Path::strip_prefix` followed by `to_string_lossy`).
pub fn strip_prefix(p: &[u8], base: &[u8]) -> (r: String)
    requires
        starts_with(p@, base@),
    ensures
        r@ == lossy_text(stripped(p@, base@)),
{
    let ps = split_path(p, false);
    let bs = split_path(base, false);
    let joined = join_parts_exec(&ps, bs.len());
    utf8_lossy(joined.as_slice())
}

/// The last component of a path as text (`Path::file_name` followed by
/// `to_string_lossy`).
pub fn file_name_of(p: &[u8]) -> (r: Option<String>)
    ensures
        match file_name(p@) {
            None => r is None,
            Some(n) => r matches Some(s) && s@ == lossy_text(n),
        },
{
    let ps = split_path(p, false);
    if ps.len() == 0 {
        return None;
    }
    let last = &ps[ps.len() - 1];
    if last.len() == 2 && last[0] == 46u8 && last[1] == 46u8 {
        proof {
            assert(last@ =~= seq![46u8, 46u8]);
        }
        return None;
    }
    proof {
        if is_parent(last@) {
            assert(last@.len() == 2);
        }
    }
    Some(utf8_lossy(last.as_slice()))
}


/// Two paths compare equal exactly when both are absolute or both are
/// relative and they have the same components, one for one.
pub proof fn lemma_same_path_components(a: Seq<u8>, b: Seq<u8>)
    ensures
        same_path(a, b) <==> ({
            &&& is_absolute(a) == is_absolute(b)
            &&& path_parts(a, false).len() == path_parts(b, false).len()
            &&& forall|k: int| 0 <= k < path_parts(a, false).len()
                ==> #[trigger] path_parts(a, false)[k] == path_parts(b, false)[k]
        }),
{
    if is_absolute(a) == is_absolute(b) && path_parts(a, false).len() == path_parts(b, false).len()
        && forall|k: int| 0 <= k < path_parts(a, false).len()
            ==> #[trigger] path_parts(a, false)[k] == path_parts(b, false)[k] {
        assert(path_parts(a, false) =~= path_parts(b, false));
    }
}

/// A resolved repository path lies under the canonical root, and its
/// lexical form did not climb out of the root either.
pub proof fn lemma_resolved_under_root(
    root: Seq<u8>,
    relative: Seq<u8>,
    canonical_root: Seq<u8>,
    canonical_candidate: Option<Seq<u8>>,
)
    ensures
        resolution(root, relative, Some(canonical_root), canonical_candidate) matches Resolution::Found(p) ==> {
            &&& starts_with(p, canonical_root)
            &&& normalized_starts_with(join(canonical_root, relative), canonical_root)
        },
{
}

} // verus!

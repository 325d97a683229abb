//! Bookkeeping of the bare repositories discovered under a root directory:
//! the walk's decisions, the record kept of each repository, and the store
//! that lists them in path order and resolves client paths to them.
use vstd::prelude::*;
use vstd::utf8::encode_utf8;
use crate::error::Error;
use crate::text::lossy_text;
use crate::path::{is_absolute, path_parts, resolve_repo_path, join, text, same_path, paths_equal, resolution, opt_bytes, Resolution, starts_with, stripped, file_name, strip_prefix, file_name_of};
use vstd::string::StrSliceExecFns;

verus! {

/// Information about a discovered bare git repository.
#[derive(Debug, Clone)]
pub struct RepoInfo {
    pub name: String,
    pub relative_path: String,
    pub absolute_path: Vec<u8>,
    pub description: Option<String>,
}

/// A store of discovered repositories under a root directory.
#[derive(Debug)]
pub struct RepoStore {
    root: Vec<u8>,
    repos: Vec<RepoInfo>,
}

/// The bytes of a repository's relative path: the key it is listed by.
pub open spec fn key(r: RepoInfo) -> Seq<u8> {
    encode_utf8(r.relative_path@)
}

/// Byte-wise lexicographic order (the order of `str`).
pub open spec fn lex_le(a: Seq<u8>, b: Seq<u8>) -> bool
    decreases a.len(),
{
    if a.len() == 0 {
        true
    } else if b.len() == 0 {
        false
    } else if a[0] != b[0] {
        a[0] < b[0]
    } else {
        lex_le(a.drop_first(), b.drop_first())
    }
}

/// Where a stable insertion puts `x`: after every entry whose key is not
/// greater than its key.
pub open spec fn insert_pos(s: Seq<RepoInfo>, x: RepoInfo) -> int
    decreases s.len(),
{
    if s.len() == 0 {
        0
    } else if lex_le(key(s.last()), key(x)) {
        s.len() as int
    } else {
        insert_pos(s.drop_last(), x)
    }
}

/// The repositories stably sorted by relative path.
pub open spec fn sort_by_path(s: Seq<RepoInfo>) -> Seq<RepoInfo>
    decreases s.len(),
{
    if s.len() == 0 {
        seq![]
    } else {
        let acc = sort_by_path(s.drop_last());
        acc.insert(insert_pos(acc, s.last()), s.last())
    }
}

/// Keys in non-decreasing order.
pub open spec fn sorted(s: Seq<RepoInfo>) -> bool {
    forall|i: int, j: int| 0 <= i < j < s.len() ==> lex_le(key(s[i]), key(s[j]))
}

proof fn lemma_insert_pos_bounds(s: Seq<RepoInfo>, x: RepoInfo)
    ensures
        0 <= insert_pos(s, x) <= s.len(),
    decreases s.len(),
{
    if s.len() > 0 && !lex_le(key(s.last()), key(x)) {
        lemma_insert_pos_bounds(s.drop_last(), x);
    }
}

proof fn lemma_sort_len(s: Seq<RepoInfo>)
    ensures
        sort_by_path(s).len() == s.len(),
    decreases s.len(),
{
    if s.len() > 0 {
        lemma_sort_len(s.drop_last());
        lemma_insert_pos_bounds(sort_by_path(s.drop_last()), s.last());
    }
}

fn bytes_lex_le(a: &[u8], b: &[u8]) -> (r: bool)
    ensures
        r == lex_le(a@, b@),
{
    let mut i: usize = 0;
    assert(a@.subrange(0, a@.len() as int) =~= a@);
    assert(b@.subrange(0, b@.len() as int) =~= b@);
    while i < a.len() && i < b.len() && a[i] == b[i]
        invariant
            i <= a.len(),
            i <= b.len(),
            lex_le(a@, b@) == lex_le(a@.subrange(i as int, a@.len() as int), b@.subrange(i as int, b@.len() as int)),
        decreases a.len() - i,
    {
        proof {
            let sa = a@.subrange(i as int, a@.len() as int);
            let sb = b@.subrange(i as int, b@.len() as int);
            assert(sa.drop_first() =~= a@.subrange(i + 1, a@.len() as int));
            assert(sb.drop_first() =~= b@.subrange(i + 1, b@.len() as int));
        }
        i = i + 1;
    }
    let ghost sa = a@.subrange(i as int, a@.len() as int);
    let ghost sb = b@.subrange(i as int, b@.len() as int);
    if i == a.len() {
        true
    } else if i == b.len() {
        false
    } else {
        assert(sa[0] == a@[i as int] && sb[0] == b@[i as int]);
        a[i] < b[i]
    }
}

fn key_le(x: &RepoInfo, y: &RepoInfo) -> (r: bool)
    ensures
        r == lex_le(key(*x), key(*y)),
{
    bytes_lex_le(x.relative_path.as_str().as_bytes(), y.relative_path.as_str().as_bytes())
}

fn find_insert_pos(s: &Vec<RepoInfo>, x: &RepoInfo) -> (r: usize)
    ensures
        r as int == insert_pos(s@, *x),
{
    let mut j: usize = s.len();
    assert(s@.subrange(0, j as int) =~= s@);
    while j > 0 && !key_le(&s[j - 1], x)
        invariant
            j <= s.len(),
            insert_pos(s@, *x) == insert_pos(s@.subrange(0, j as int), *x),
        decreases j,
    {
        assert(s@.subrange(0, j as int).drop_last() =~= s@.subrange(0, j - 1));
        j = j - 1;
    }
    proof {
        if j > 0 {
            assert(s@.subrange(0, j as int).last() == s@[j - 1]);
        }
    }
    j
}

/// Stably sorts repositories by relative path.
pub fn sort_repos(found: Vec<RepoInfo>) -> (r: Vec<RepoInfo>)
    ensures
        r@ == sort_by_path(found@),
{
    let ghost all = found@;
    let n = found.len();
    let mut input = found;
    let mut out: Vec<RepoInfo> = Vec::new();
    let mut k: usize = 0;
    while input.len() > 0
        invariant
            k <= all.len(),
            all.len() == n,
            input@ == all.subrange(k as int, all.len() as int),
            out@ == sort_by_path(all.subrange(0, k as int)),
        decreases input.len(),
    {
        let x = input.remove(0);
        let pos = find_insert_pos(&out, &x);
        proof {
            lemma_insert_pos_bounds(out@, x);
            assert(all.subrange(0, k + 1).drop_last() =~= all.subrange(0, k as int));
            assert(all.subrange(0, k + 1).last() == x);
        }
        out.insert(pos, x);
        k = k + 1;
        proof {
            assert(input@ =~= all.subrange(k as int, all.len() as int));
        }
    }
    proof {
        assert(all.subrange(0, k as int) =~= all);
    }
    out
}


proof fn lemma_lex_total(a: Seq<u8>, b: Seq<u8>)
    ensures
        lex_le(a, b) || lex_le(b, a),
    decreases a.len(),
{
    if a.len() > 0 && b.len() > 0 && a[0] == b[0] {
        lemma_lex_total(a.drop_first(), b.drop_first());
    }
}

proof fn lemma_lex_trans(a: Seq<u8>, b: Seq<u8>, c: Seq<u8>)
    requires
        lex_le(a, b),
        lex_le(b, c),
    ensures
        lex_le(a, c),
    decreases a.len(),
{
    if a.len() > 0 && b.len() > 0 && c.len() > 0 && a[0] == b[0] && b[0] == c[0] {
        lemma_lex_trans(a.drop_first(), b.drop_first(), c.drop_first());
    }
}

proof fn lemma_insert_pos_props(s: Seq<RepoInfo>, x: RepoInfo)
    ensures
        insert_pos(s, x) > 0 ==> lex_le(key(s[insert_pos(s, x) - 1]), key(x)),
        forall|j: int| insert_pos(s, x) <= j < s.len() ==> !lex_le(key(#[trigger] s[j]), key(x)),
    decreases s.len(),
{
    lemma_insert_pos_bounds(s, x);
    if s.len() > 0 && !lex_le(key(s.last()), key(x)) {
        let t = s.drop_last();
        lemma_insert_pos_props(t, x);
        lemma_insert_pos_bounds(t, x);
        assert forall|j: int| insert_pos(s, x) <= j < s.len() implies !lex_le(key(#[trigger] s[j]), key(x)) by {
            if j < t.len() {
                assert(s[j] == t[j]);
            }
        }
    }
}

proof fn lemma_insert_keeps_sorted(acc: Seq<RepoInfo>, x: RepoInfo)
    requires
        sorted(acc),
    ensures
        sorted(acc.insert(insert_pos(acc, x), x)),
{
    let p = insert_pos(acc, x);
    lemma_insert_pos_bounds(acc, x);
    lemma_insert_pos_props(acc, x);
    let r = acc.insert(p, x);
    assert forall|i: int, j: int| 0 <= i < j < r.len() implies lex_le(key(r[i]), key(r[j])) by {
        if j < p {
            assert(r[i] == acc[i] && r[j] == acc[j]);
        } else if j == p {
            assert(r[j] == x);
            assert(r[i] == acc[i]);
            if i < p - 1 {
                lemma_lex_trans(key(acc[i]), key(acc[p - 1]), key(x));
            }
        } else if i == p {
            assert(r[i] == x && r[j] == acc[j - 1]);
            lemma_lex_total(key(acc[j - 1]), key(x));
        } else if i < p {
            assert(r[i] == acc[i] && r[j] == acc[j - 1]);
        } else {
            assert(r[i] == acc[i - 1] && r[j] == acc[j - 1]);
        }
    }
}

/// The listing is in order of relative path and holds every discovered
/// repository exactly as often as it was found.
pub proof fn lemma_listing_sorted(s: Seq<RepoInfo>)
    ensures
        sorted(sort_by_path(s)),
        sort_by_path(s).to_multiset() == s.to_multiset(),
    decreases s.len(),
{
    if s.len() == 0 {
        assert(s =~= Seq::<RepoInfo>::empty());
    } else {
        let t = s.drop_last();
        lemma_listing_sorted(t);
        let acc = sort_by_path(t);
        lemma_insert_keeps_sorted(acc, s.last());
        lemma_insert_pos_bounds(acc, s.last());
        vstd::seq_lib::to_multiset_insert(acc, insert_pos(acc, s.last()), s.last());
        vstd::seq_lib::to_multiset_build(t, s.last());
        assert(t.push(s.last()) =~= s);
    }
}


/// `a` comes no later than `b` in byte order: `a` is a prefix of `b`, or
/// at the first byte where they differ, `a`'s byte is the smaller.
pub open spec fn bytes_no_later(a: Seq<u8>, b: Seq<u8>) -> bool {
    ||| (a.len() <= b.len() && b.subrange(0, a.len() as int) == a)
    ||| exists|k: int| 0 <= k < a.len() && k < b.len() && a.subrange(0, k) == b.subrange(0, k)
        && #[trigger] a[k] < b[k]
}

proof fn lemma_lex_le_no_later(a: Seq<u8>, b: Seq<u8>)
    requires
        lex_le(a, b),
    ensures
        bytes_no_later(a, b),
    decreases a.len(),
{
    if a.len() == 0 {
        assert(b.subrange(0, 0) =~= a);
    } else if a[0] != b[0] {
        assert(a.subrange(0, 0) =~= b.subrange(0, 0));
        assert(a[0] < b[0]);
    } else {
        let a1 = a.drop_first();
        let b1 = b.drop_first();
        lemma_lex_le_no_later(a1, b1);
        if a1.len() <= b1.len() && b1.subrange(0, a1.len() as int) == a1 {
            assert(b.subrange(0, a.len() as int) =~= a) by {
                assert forall|i: int| 0 <= i < a.len() implies #[trigger] b.subrange(0, a.len() as int)[i] == a[i] by {
                    if i > 0 {
                        assert(b1.subrange(0, a1.len() as int)[i - 1] == a1[i - 1]);
                    }
                }
            }
        } else {
            let k = choose|k: int| 0 <= k < a1.len() && k < b1.len() && a1.subrange(0, k) == b1.subrange(0, k)
                && #[trigger] a1[k] < b1[k];
            assert(a.subrange(0, k + 1) =~= b.subrange(0, k + 1)) by {
                assert forall|i: int| 0 <= i < k + 1 implies #[trigger] a.subrange(0, k + 1)[i] == b.subrange(0, k + 1)[i] by {
                    if i > 0 {
                        assert(a1.subrange(0, k)[i - 1] == b1.subrange(0, k)[i - 1]);
                    }
                }
            }
            assert(a[k + 1] < b[k + 1]);
        }
    }
}

/// The listing holds exactly the repositories found (each as often as it
/// was found), and for any two positions the earlier one's whole relative
/// path comes no later in byte order than the later one's.
pub proof fn lemma_listing_in_path_order(found: Seq<RepoInfo>)
    ensures
        sort_by_path(found).to_multiset() == found.to_multiset(),
        forall|i: int, j: int| 0 <= i < j < sort_by_path(found).len() ==> bytes_no_later(
            encode_utf8((#[trigger] sort_by_path(found)[i]).relative_path@),
            encode_utf8((#[trigger] sort_by_path(found)[j]).relative_path@),
        ),
{
    lemma_listing_sorted(found);
    let l = sort_by_path(found);
    assert forall|i: int, j: int| 0 <= i < j < l.len() implies bytes_no_later(
        encode_utf8((#[trigger] l[i]).relative_path@),
        encode_utf8((#[trigger] l[j]).relative_path@),
    ) by {
        lemma_lex_le_no_later(key(l[i]), key(l[j]));
    }
}

/// The index of the first repository whose absolute path equals `canon`.
pub open spec fn first_match(repos: Seq<RepoInfo>, canon: Seq<u8>) -> Option<int> {
    if exists|i: int| 0 <= i < repos.len() && same_path((#[trigger] repos[i]).absolute_path@, canon) {
        Some(choose|i: int| 0 <= i < repos.len() && same_path((#[trigger] repos[i]).absolute_path@, canon)
            && forall|j: int| 0 <= j < i ==> !same_path((#[trigger] repos[j]).absolute_path@, canon))
    } else {
        None
    }
}

/// A repository is taken for a canonical path only when its absolute path
/// has exactly the same root and the same components, one for one; it is
/// the first such repository in the listing, and none is taken when no
/// repository has them.
pub proof fn lemma_match_same_components(repos: Seq<RepoInfo>, canon: Seq<u8>)
    ensures
        first_match(repos, canon) matches Some(i) ==> {
            &&& 0 <= i < repos.len()
            &&& is_absolute(repos[i].absolute_path@) == is_absolute(canon)
            &&& path_parts(repos[i].absolute_path@, false).len() == path_parts(canon, false).len()
            &&& forall|k: int| 0 <= k < path_parts(canon, false).len()
                ==> #[trigger] path_parts(repos[i].absolute_path@, false)[k] == path_parts(canon, false)[k]
            &&& forall|j: int| 0 <= j < i ==> !(is_absolute((#[trigger] repos[j]).absolute_path@) == is_absolute(canon)
                && path_parts(repos[j].absolute_path@, false) == path_parts(canon, false))
        },
        first_match(repos, canon) is None ==> forall|j: int| 0 <= j < repos.len()
            ==> !(is_absolute((#[trigger] repos[j]).absolute_path@) == is_absolute(canon)
                && path_parts(repos[j].absolute_path@, false) == path_parts(canon, false)),
{
    if exists|i: int| 0 <= i < repos.len() && same_path((#[trigger] repos[i]).absolute_path@, canon) {
        let w = choose|i: int| 0 <= i < repos.len() && same_path((#[trigger] repos[i]).absolute_path@, canon);
        lemma_first_exists(repos, canon, w);
    }
}

proof fn lemma_first_exists(repos: Seq<RepoInfo>, canon: Seq<u8>, w: int)
    requires
        0 <= w < repos.len(),
        same_path(repos[w].absolute_path@, canon),
    ensures
        exists|i: int| 0 <= i < repos.len() && same_path((#[trigger] repos[i]).absolute_path@, canon)
            && forall|j: int| 0 <= j < i ==> !same_path((#[trigger] repos[j]).absolute_path@, canon),
    decreases w,
{
    if exists|j: int| 0 <= j < w && same_path((#[trigger] repos[j]).absolute_path@, canon) {
        let j = choose|j: int| 0 <= j < w && same_path((#[trigger] repos[j]).absolute_path@, canon);
        lemma_first_exists(repos, canon, j);
    } else {
        assert(forall|j: int| 0 <= j < w ==> !same_path((#[trigger] repos[j]).absolute_path@, canon));
    }
}

impl RepoStore {
    /// The store of the repositories found under `root` (as the walk found
    /// them), listed in order of relative path.
    pub fn discover(root: Vec<u8>, found: Vec<RepoInfo>) -> (s: RepoStore)
        ensures
            s.root_path() == root@,
            s.repos() == sort_by_path(found@),
    {
        RepoStore { root, repos: sort_repos(found) }
    }

    /// The root directory.
    pub closed spec fn root_path(&self) -> Seq<u8> {
        self.root@
    }

    /// The listed repositories.
    pub closed spec fn repos(&self) -> Seq<RepoInfo> {
        self.repos@
    }

    /// Returns all discovered repositories, sorted by relative path.
    pub fn list(&self) -> (r: &[RepoInfo])
        ensures
            r@ == self.repos(),
    {
        self.repos.as_slice()
    }

    /// Returns the root directory used for discovery.
    pub fn root(&self) -> (r: &Vec<u8>)
        ensures
            r@ == self.root_path(),
    {
        &self.root
    }

    /// Resolve a relative path to a `RepoInfo`: the path is resolved against
    /// the root (given what canonicalizing the root and the candidate gave),
    /// then matched against the absolute paths of the listed repositories.
    pub fn resolve(
        &self,
        relative: &str,
        canonical_root: Option<Vec<u8>>,
        canonical_candidate: Option<Vec<u8>>,
    ) -> (r: Result<&RepoInfo, Error>)
        ensures
            match resolution(self.root_path(), text(relative), opt_bytes(canonical_root), opt_bytes(canonical_candidate)) {
                Resolution::NotFound => r matches Err(Error::RepoNotFound(s)) && s@ == relative@,
                Resolution::Traversal => r matches Err(Error::PathTraversal(c))
                    && c@ == lossy_text(join(self.root_path(), text(relative))),
                Resolution::Found(p) => match first_match(self.repos(), p) {
                    Some(i) => r matches Ok(info) && *info == self.repos()[i],
                    None => r matches Err(Error::RepoNotFound(s)) && s@ == relative@,
                },
            },
    {
        let ghost res = resolution(self.root@, text(relative), opt_bytes(canonical_root), opt_bytes(canonical_candidate));
        let canonical = match resolve_repo_path(self.root.as_slice(), relative, canonical_root, canonical_candidate) {
            Ok(c) => c,
            Err(e) => return Err(e),
        };
        assert(res == Resolution::Found(canonical@));
        let mut i: usize = 0;
        while i < self.repos.len()
            invariant
                i <= self.repos@.len(),
                res == Resolution::Found(canonical@),
                res == resolution(self.root_path(), text(relative), opt_bytes(canonical_root), opt_bytes(canonical_candidate)),
                forall|j: int| 0 <= j < i ==> !same_path((#[trigger] self.repos@[j]).absolute_path@, canonical@),
            decreases self.repos.len() - i,
        {
            if paths_equal(self.repos[i].absolute_path.as_slice(), canonical.as_slice()) {
                proof {
                    let c = canonical@;
                    let rs = self.repos@;
                    assert(same_path(rs[i as int].absolute_path@, c));
                    assert(0 <= i < rs.len() && same_path(rs[i as int].absolute_path@, c)
                        && forall|j: int| 0 <= j < i ==> !same_path((#[trigger] rs[j]).absolute_path@, c));
                    let k = choose|k: int| 0 <= k < rs.len() && same_path((#[trigger] rs[k]).absolute_path@, c)
                        && forall|j: int| 0 <= j < k ==> !same_path((#[trigger] rs[j]).absolute_path@, c);
                    assert(first_match(rs, c) == Some(k));
                    if k < i {
                        assert(!same_path(rs[k].absolute_path@, c));
                    } else if k > i {
                        assert(!same_path(rs[i as int].absolute_path@, c));
                    }
                    assert(k == i);
                    assert(first_match(self.repos(), canonical@) == Some(i as int));
                }
                let info: &RepoInfo = &self.repos[i];
                assert(*info == self.repos@[i as int]);
                return Ok(info);
            }
            i = i + 1;
        }
        Err(Error::RepoNotFound(String::from_str(relative)))
    }
}


/// The text of an optional string.
pub open spec fn opt_view(o: Option<String>) -> Option<Seq<char>> {
    match o {
        None => None,
        Some(s) => Some(s@),
    }
}

/// The text that `git init` writes into a new repository's `description`.
pub const DEFAULT_GIT_DESCRIPTION: &'static str =
    "Unnamed repository; edit this file 'description' to name the repository.";

/// Unicode `White_Space` (what `char::is_whitespace` tests).
pub open spec fn is_white_space(c: char) -> bool {
    ||| ('\u{9}' <= c && c <= '\u{d}')
    ||| c == ' '
    ||| c == '\u{85}'
    ||| c == '\u{a0}'
    ||| c == '\u{1680}'
    ||| ('\u{2000}' <= c && c <= '\u{200a}')
    ||| c == '\u{2028}'
    ||| c == '\u{2029}'
    ||| c == '\u{202f}'
    ||| c == '\u{205f}'
    ||| c == '\u{3000}'
}

fn white_space(c: char) -> (r: bool)
    ensures
        r == is_white_space(c),
{
    ('\u{9}' <= c && c <= '\u{d}') || c == ' ' || c == '\u{85}' || c == '\u{a0}' || c == '\u{1680}'
        || ('\u{2000}' <= c && c <= '\u{200a}') || c == '\u{2028}' || c == '\u{2029}'
        || c == '\u{202f}' || c == '\u{205f}' || c == '\u{3000}'
}

/// `s` without leading white space.
pub open spec fn trim_start(s: Seq<char>) -> Seq<char>
    decreases s.len(),
{
    if s.len() > 0 && is_white_space(s[0]) {
        trim_start(s.drop_first())
    } else {
        s
    }
}

/// `s` without trailing white space.
pub open spec fn trim_end(s: Seq<char>) -> Seq<char>
    decreases s.len(),
{
    if s.len() > 0 && is_white_space(s.last()) {
        trim_end(s.drop_last())
    } else {
        s
    }
}

/// `str::trim`.
pub open spec fn trim(s: Seq<char>) -> Seq<char> {
    trim_end(trim_start(s))
}

/// The description shown for a repository, from the content of its
/// `description` file (`None` when it could not be read): the trimmed
/// content, unless it is empty or the placeholder that `git init` writes.
pub open spec fn description_of(content: Option<Seq<char>>) -> Option<Seq<char>> {
    match content {
        None => None,
        Some(c) => {
            let t = trim(c);
            if t.len() == 0 || t == DEFAULT_GIT_DESCRIPTION@ {
                None
            } else {
                Some(t)
            }
        },
    }
}

/// Trims white space from both ends (`str::trim`).
pub fn trim_text(s: &str) -> (r: String)
    ensures
        r@ == trim(s@),
{
    let n = s.unicode_len();
    let mut a: usize = 0;
    assert(s@.subrange(0, n as int) =~= s@);
    while a < n && white_space(s.get_char(a))
        invariant
            a <= n,
            n == s@.len(),
            trim_start(s@) == trim_start(s@.subrange(a as int, n as int)),
        decreases n - a,
    {
        assert(s@.subrange(a as int, n as int).drop_first() =~= s@.subrange(a + 1, n as int));
        a = a + 1;
    }
    let mut b: usize = n;
    proof {
        let t = s@.subrange(a as int, n as int);
        if a < n {
            assert(t[0] == s@[a as int]);
        }
        assert(trim_start(t) == t);
    }
    while b > a && white_space(s.get_char(b - 1))
        invariant
            a <= b <= n,
            n == s@.len(),
            trim(s@) == trim_end(s@.subrange(a as int, b as int)),
        decreases b,
    {
        assert(s@.subrange(a as int, b as int).drop_last() =~= s@.subrange(a as int, b - 1));
        b = b - 1;
    }
    proof {
        let t = s@.subrange(a as int, b as int);
        if a < b {
            assert(t.last() == s@[b - 1]);
        }
    }
    String::from_str(s.substring_char(a, b))
}

/// Read the description of a repository from the content of its
/// `description` file.
///
/// Returns `None` if the file is absent or unreadable (`content` is `None`),
/// or holds only white space or the default git placeholder text.
pub fn read_description(content: Option<String>) -> (r: Option<String>)
    ensures
        match description_of(opt_view(content)) {
            None => r is None,
            Some(d) => r matches Some(s) && s@ == d,
        },
{
    match content {
        None => None,
        Some(c) => {
            let trimmed = trim_text(c.as_str());
            let placeholder = String::from_str(DEFAULT_GIT_DESCRIPTION);
            if trimmed.as_str().unicode_len() == 0 || trimmed == placeholder {
                None
            } else {
                Some(trimmed)
            }
        },
    }
}

/// What the walk learned of one directory entry.
#[derive(Clone, Copy, Debug)]
pub enum EntryProbe {
    /// Not a directory (or its metadata could not be read).
    NotDir,
    /// A directory that opens as a bare repository.
    BareRepo,
    /// Any other directory.
    OtherDir,
}

/// What the walk does with a directory entry.
#[derive(Clone, Copy, Debug)]
pub enum WalkAction {
    Skip,
    Record,
    Descend,
}

/// The action for an entry at `depth` (the directory being read is at
/// `depth`; root itself is depth 0) when the walk may go `max_depth` levels
/// below the root: directories that are bare repositories are recorded and
/// not entered; other directories are entered while `depth < max_depth`.
pub open spec fn walk_action_of(probe: EntryProbe, depth: u32, max_depth: u32) -> WalkAction {
    match probe {
        EntryProbe::NotDir => WalkAction::Skip,
        EntryProbe::BareRepo => WalkAction::Record,
        EntryProbe::OtherDir => if depth < max_depth { WalkAction::Descend } else { WalkAction::Skip },
    }
}

/// Decides what the walk does with a directory entry.
pub fn walk_action(probe: EntryProbe, depth: u32, max_depth: u32) -> (r: WalkAction)
    ensures
        r == walk_action_of(probe, depth, max_depth),
{
    match probe {
        EntryProbe::NotDir => WalkAction::Skip,
        EntryProbe::BareRepo => WalkAction::Record,
        EntryProbe::OtherDir => if depth < max_depth { WalkAction::Descend } else { WalkAction::Skip },
    }
}

/// A failure to list a directory: one the walk may not read is skipped,
/// any other stops discovery with an I/O error carrying its message.
pub fn read_dir_failure(permission_denied: bool, message: String) -> (r: Result<(), Error>)
    ensures
        permission_denied ==> r is Ok,
        !permission_denied ==> (r matches Err(Error::Io(m)) && m@ == message@),
{
    if permission_denied {
        Ok(())
    } else {
        Err(Error::Io(message))
    }
}

/// The record of a bare repository found at the canonical `absolute_path`
/// under the canonical `root`: its path relative to the root, its name (the
/// last path component, or the relative path when there is none), and its
/// description.
pub fn repo_info_for(root: &[u8], absolute_path: Vec<u8>, description: Option<String>) -> (r: RepoInfo)
    requires
        starts_with(absolute_path@, root@),
    ensures
        r.relative_path@ == lossy_text(stripped(absolute_path@, root@)),
        r.absolute_path@ == absolute_path@,
        r.description == description,
        match file_name(absolute_path@) {
            Some(n) => r.name@ == lossy_text(n),
            None => r.name@ == r.relative_path@,
        },
{
    let relative_path = strip_prefix(absolute_path.as_slice(), root);
    let name = match file_name_of(absolute_path.as_slice()) {
        Some(n) => n,
        None => relative_path.clone(),
    };
    RepoInfo { name, relative_path, absolute_path, description }
}

} // verus!

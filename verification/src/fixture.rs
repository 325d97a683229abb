//! The steps that build a benchmark repository: which git commands run, in
//! which directory, and which files are written with what content. Running
//! them (the git command line, the filesystem) is left to the caller.
use vstd::prelude::*;
use vstd::string::*;

verus! {

/// The directory a git command runs in: none given, the bare repository, or
/// the working clone.
#[derive(Debug, Clone, Copy, PartialEq, Eq, Structural)]
pub enum Workdir {
    Unset,
    Bare,
    Work,
}

/// One step of building a fixture repository.
#[derive(Debug)]
pub enum FixtureStep {
    /// Run `git` with these arguments in the given directory.
    Git(Workdir, Vec<String>),
    /// Write a file (named relative to the working clone) with this content.
    Write(String, String),
}

/// A step as plain text.
pub enum StepModel {
    Git(Workdir, Seq<Seq<char>>),
    Write(Seq<char>, Seq<char>),
}

/// The texts of a list of strings.
pub open spec fn texts(v: Seq<String>) -> Seq<Seq<char>> {
    v.map_values(|s: String| s@)
}

/// A step as plain text.
pub open spec fn step_model(s: FixtureStep) -> StepModel {
    match s {
        FixtureStep::Git(d, args) => StepModel::Git(d, texts(args@)),
        FixtureStep::Write(name, content) => StepModel::Write(name@, content@),
    }
}

/// A list of steps as plain text.
pub open spec fn steps_model(v: Seq<FixtureStep>) -> Seq<StepModel> {
    v.map_values(|s: FixtureStep| step_model(s))
}

/// The decimal digit character of a value below ten.
pub open spec fn digit_char(d: nat) -> char {
    if d == 0 { '0' }
    else if d == 1 { '1' }
    else if d == 2 { '2' }
    else if d == 3 { '3' }
    else if d == 4 { '4' }
    else if d == 5 { '5' }
    else if d == 6 { '6' }
    else if d == 7 { '7' }
    else if d == 8 { '8' }
    else { '9' }
}

/// The decimal rendering of `n`, without leading zeros.
pub open spec fn decimal(n: nat) -> Seq<char>
    decreases n,
{
    if n < 10 {
        seq![digit_char(n)]
    } else {
        decimal(n / 10).push(digit_char(n % 10))
    }
}

/// `c` repeated `n` times.
pub open spec fn repeated(c: char, n: nat) -> Seq<char> {
    Seq::new(n, |i: int| c)
}

/// `file<i>.txt`
pub open spec fn file_name(i: nat) -> Seq<char> {
    "file"@ + decimal(i) + ".txt"@
}

/// The content every file starts with: `size` times `x`.
pub open spec fn initial_content(size: nat) -> Seq<char> {
    repeated('x', size)
}

/// The content that commit `c` writes: `commit <c>`, a newline, then `size`
/// times `y`.
pub open spec fn commit_content(c: nat, size: nat) -> Seq<char> {
    "commit "@ + decimal(c) + seq!['\n'] + repeated('y', size)
}

/// A git command in the working clone.
pub open spec fn git_work(args: Seq<Seq<char>>) -> StepModel {
    StepModel::Git(Workdir::Work, args)
}

/// Creating the bare repository, pointing its `HEAD` at `main`, cloning it
/// and setting the committer in the clone.
pub open spec fn setup_model(bare: Seq<char>, work: Seq<char>) -> Seq<StepModel> {
    seq![
        StepModel::Git(Workdir::Unset, seq!["init"@, "--bare"@, bare]),
        StepModel::Git(Workdir::Bare, seq!["symbolic-ref"@, "HEAD"@, "refs/heads/main"@]),
        StepModel::Git(Workdir::Unset, seq!["clone"@, bare, work]),
        git_work(seq!["config"@, "user.name"@, "Bench"@]),
        git_work(seq!["config"@, "user.email"@, "bench@test.com"@]),
    ]
}

/// Writing `file0.txt` .. `file<count-1>.txt` with their initial content.
pub open spec fn initial_writes(count: nat, size: nat) -> Seq<StepModel> {
    Seq::new(count, |i: int| StepModel::Write(file_name(i as nat), initial_content(size)))
}

/// The first commit: every file written, added and committed.
pub open spec fn initial_commit_model(count: nat, size: nat) -> Seq<StepModel> {
    initial_writes(count, size) + seq![
        git_work(seq!["add"@, "."@]),
        git_work(seq!["commit"@, "-m"@, "initial: add all files"@]),
    ]
}

/// The names in `marks` (name, commit) set at commit `c`, each as
/// `git <verb> <name>`, in list order.
pub open spec fn ref_marks(marks: Seq<(Seq<char>, usize)>, c: nat, verb: Seq<char>) -> Seq<StepModel>
    decreases marks.len(),
{
    if marks.len() == 0 {
        seq![]
    } else {
        let rest = ref_marks(marks.drop_last(), c, verb);
        if marks.last().1 == c {
            rest.push(git_work(seq![verb, marks.last().0]))
        } else {
            rest
        }
    }
}

/// The (name, commit) pairs as text.
pub open spec fn marks_view(marks: Seq<(&str, usize)>) -> Seq<(Seq<char>, usize)> {
    marks.map_values(|m: (&str, usize)| (m.0@, m.1))
}

/// Commit `c` (from 1 on): rewrite file `c mod count`, add, commit, then
/// create the branches and the tags that sit at `c`.
pub open spec fn commit_model(
    c: nat,
    count: nat,
    size: nat,
    branches: Seq<(Seq<char>, usize)>,
    tags: Seq<(Seq<char>, usize)>,
) -> Seq<StepModel> {
    seq![
        StepModel::Write(file_name(c % count), commit_content(c, size)),
        git_work(seq!["add"@, "."@]),
        git_work(seq!["commit"@, "-m"@, "commit "@ + decimal(c)]),
    ] + ref_marks(branches, c, "branch"@) + ref_marks(tags, c, "tag"@)
}

/// Pushing every branch and every tag to the bare repository.
pub open spec fn push_model() -> Seq<StepModel> {
    seq![
        git_work(seq!["push"@, "origin"@, "--all"@]),
        git_work(seq!["push"@, "origin"@, "--tags"@]),
    ]
}

/// Commits `from` up to (not including) `to`, in order.
pub open spec fn commits_model(
    from: nat,
    to: nat,
    count: nat,
    size: nat,
    branches: Seq<(Seq<char>, usize)>,
    tags: Seq<(Seq<char>, usize)>,
) -> Seq<StepModel>
    decreases to,
{
    if to <= from {
        seq![]
    } else {
        commits_model(from, (to - 1) as nat, count, size, branches, tags)
            + commit_model((to - 1) as nat, count, size, branches, tags)
    }
}

/// Every step that builds a fixture of `commit_count` commits over `count`
/// files of `size` bytes: the setup, the first commit, commits `1` up to
/// `commit_count - 1`, and the push.
pub open spec fn fixture_model(
    bare: Seq<char>,
    work: Seq<char>,
    commit_count: nat,
    count: nat,
    size: nat,
    branches: Seq<(Seq<char>, usize)>,
    tags: Seq<(Seq<char>, usize)>,
) -> Seq<StepModel> {
    setup_model(bare, work) + initial_commit_model(count, size)
        + commits_model(1, commit_count, count, size, branches, tags) + push_model()
}

/// The steps run `git <verb> <name>` in the working clone.
pub open spec fn runs(steps: Seq<StepModel>, verb: Seq<char>, name: Seq<char>) -> bool {
    steps.contains(git_work(seq![verb, name]))
}

/// Some mark (name, commit) names `name` at a commit in `from..to`.
pub open spec fn marked_in(marks: Seq<(Seq<char>, usize)>, name: Seq<char>, from: nat, to: nat) -> bool {
    exists|k: int| 0 <= k < marks.len() && (#[trigger] marks[k]).0 == name && from <= marks[k].1 < to
}

proof fn lemma_contains_concat<A>(a: Seq<A>, b: Seq<A>, x: A)
    ensures
        (a + b).contains(x) <==> (a.contains(x) || b.contains(x)),
{
    if (a + b).contains(x) {
        let i = choose|i: int| 0 <= i < (a + b).len() && (a + b)[i] == x;
        if i < a.len() {
            assert(a[i] == x);
        } else {
            assert(b[i - a.len()] == x);
        }
    }
    if a.contains(x) {
        let i = choose|i: int| 0 <= i < a.len() && a[i] == x;
        assert((a + b)[i] == x);
    }
    if b.contains(x) {
        let i = choose|i: int| 0 <= i < b.len() && b[i] == x;
        assert((a + b)[i + a.len()] == x);
    }
}

proof fn lemma_git_work_eq(v: Seq<char>, n: Seq<char>, v2: Seq<char>, n2: Seq<char>)
    ensures
        (git_work(seq![v, n]) == git_work(seq![v2, n2])) <==> (v == v2 && n == n2),
{
    if git_work(seq![v, n]) == git_work(seq![v2, n2]) {
        assert(seq![v, n][0] == seq![v2, n2][0]);
        assert(seq![v, n][1] == seq![v2, n2][1]);
    }
}

proof fn lemma_runs_ref_marks(marks: Seq<(Seq<char>, usize)>, c: nat, verb: Seq<char>, v: Seq<char>, n: Seq<char>)
    ensures
        runs(ref_marks(marks, c, verb), v, n) <==> (v == verb && marked_in(marks, n, c, c + 1)),
    decreases marks.len(),
{
    if marks.len() == 0 {
        assert(!runs(ref_marks(marks, c, verb), v, n));
    } else {
        let init = marks.drop_last();
        let last = marks.last();
        lemma_runs_ref_marks(init, c, verb, v, n);
        let rest = ref_marks(init, c, verb);
        let x = git_work(seq![v, n]);
        if marked_in(marks, n, c, c + 1) && !marked_in(init, n, c, c + 1) {
            let k = choose|k: int| 0 <= k < marks.len() && (#[trigger] marks[k]).0 == n && c <= marks[k].1 < c + 1;
            if k < init.len() {
                assert(init[k] == marks[k]);
            }
            assert(k == marks.len() - 1);
        }
        if marked_in(init, n, c, c + 1) {
            let k = choose|k: int| 0 <= k < init.len() && (#[trigger] init[k]).0 == n && c <= init[k].1 < c + 1;
            assert(marks[k] == init[k]);
        }
        if last.1 == c {
            let y = git_work(seq![verb, last.0]);
            lemma_git_work_eq(v, n, verb, last.0);
            assert(rest.push(y) == rest + seq![y]);
            lemma_contains_concat(rest, seq![y], x);
            assert(seq![y].contains(x) <==> y == x) by {
                if y == x {
                    assert(seq![y][0] == x);
                }
            }
            if last.0 == n {
                assert(marks[marks.len() - 1] == last);
            }
        }
    }
}

/// `commit <c>` and `add` are not `branch` or `tag`.
proof fn lemma_words_differ()
    ensures
        "add"@ != "branch"@,
        "add"@ != "tag"@,
        "commit"@ != "branch"@,
        "commit"@ != "tag"@,
        "branch"@ != "tag"@,
{
    reveal_strlit("add");
    reveal_strlit("branch");
    reveal_strlit("tag");
    reveal_strlit("commit");
    assert("commit"@[0] != "branch"@[0]);
    assert("add"@[0] != "tag"@[0]);
}

proof fn lemma_runs_commit(
    c: nat,
    count: nat,
    size: nat,
    branches: Seq<(Seq<char>, usize)>,
    tags: Seq<(Seq<char>, usize)>,
    n: Seq<char>,
)
    ensures
        runs(commit_model(c, count, size, branches, tags), "branch"@, n) <==> marked_in(branches, n, c, c + 1),
        runs(commit_model(c, count, size, branches, tags), "tag"@, n) <==> marked_in(tags, n, c, c + 1),
{
    lemma_words_differ();
    let head = seq![
        StepModel::Write(file_name(c % count), commit_content(c, size)),
        git_work(seq!["add"@, "."@]),
        git_work(seq!["commit"@, "-m"@, "commit "@ + decimal(c)]),
    ];
    let bm = ref_marks(branches, c, "branch"@);
    let tm = ref_marks(tags, c, "tag"@);
    assert(commit_model(c, count, size, branches, tags) == head + bm + tm);
    let verbs = seq!["branch"@, "tag"@];
    assert forall|j: int| 0 <= j < 2 implies {
        let v = #[trigger] verbs[j];
        !head.contains(git_work(seq![v, n]))
    } by {
        let v = verbs[j];
        let x = git_work(seq![v, n]);
        if head.contains(x) {
            let i = choose|i: int| 0 <= i < head.len() && head[i] == x;
            if i == 1 {
                assert(seq![v, n][0] == seq!["add"@, "."@][0]);
            } else if i == 2 {
                assert(seq![v, n].len() == seq!["commit"@, "-m"@, "commit "@ + decimal(c)].len());
            }
        }
    }
    assert(verbs[0] == "branch"@);
    assert(verbs[1] == "tag"@);
    lemma_contains_concat(head + bm, tm, git_work(seq!["branch"@, n]));
    lemma_contains_concat(head, bm, git_work(seq!["branch"@, n]));
    lemma_contains_concat(head + bm, tm, git_work(seq!["tag"@, n]));
    lemma_contains_concat(head, bm, git_work(seq!["tag"@, n]));
    lemma_runs_ref_marks(branches, c, "branch"@, "branch"@, n);
    lemma_runs_ref_marks(branches, c, "branch"@, "tag"@, n);
    lemma_runs_ref_marks(tags, c, "tag"@, "branch"@, n);
    lemma_runs_ref_marks(tags, c, "tag"@, "tag"@, n);
}

proof fn lemma_runs_commits(
    to: nat,
    count: nat,
    size: nat,
    branches: Seq<(Seq<char>, usize)>,
    tags: Seq<(Seq<char>, usize)>,
    n: Seq<char>,
)
    ensures
        runs(commits_model(1, to, count, size, branches, tags), "branch"@, n) <==> marked_in(branches, n, 1, to),
        runs(commits_model(1, to, count, size, branches, tags), "tag"@, n) <==> marked_in(tags, n, 1, to),
    decreases to,
{
    if to <= 1 {
        assert(commits_model(1, to, count, size, branches, tags) =~= Seq::<StepModel>::empty());
        assert(!marked_in(branches, n, 1, to));
        assert(!marked_in(tags, n, 1, to));
    } else {
        let p = (to - 1) as nat;
        lemma_runs_commits(p, count, size, branches, tags, n);
        lemma_runs_commit(p, count, size, branches, tags, n);
        let a = commits_model(1, p, count, size, branches, tags);
        let b = commit_model(p, count, size, branches, tags);
        lemma_contains_concat(a, b, git_work(seq!["branch"@, n]));
        lemma_contains_concat(a, b, git_work(seq!["tag"@, n]));
        lemma_marked_split(branches, n, p);
        lemma_marked_split(tags, n, p);
    }
}

proof fn lemma_marked_split(marks: Seq<(Seq<char>, usize)>, n: Seq<char>, p: nat)
    requires
        p >= 1,
    ensures
        marked_in(marks, n, 1, p + 1) <==> (marked_in(marks, n, 1, p) || marked_in(marks, n, p, p + 1)),
{
    if marked_in(marks, n, 1, p + 1) {
        let k = choose|k: int| 0 <= k < marks.len() && (#[trigger] marks[k]).0 == n && 1 <= marks[k].1 < p + 1;
        assert(marks[k].0 == n);
    }
    if marked_in(marks, n, 1, p) {
        let k = choose|k: int| 0 <= k < marks.len() && (#[trigger] marks[k]).0 == n && 1 <= marks[k].1 < p;
        assert(marks[k].0 == n);
    }
    if marked_in(marks, n, p, p + 1) {
        let k = choose|k: int| 0 <= k < marks.len() && (#[trigger] marks[k]).0 == n && p <= marks[k].1 < p + 1;
        assert(marks[k].0 == n);
    }
}

/// None of these steps runs `git branch` or `git tag`.
proof fn lemma_no_ref_steps(steps: Seq<StepModel>, n: Seq<char>)
    requires
        forall|i: int| 0 <= i < steps.len() ==> match #[trigger] steps[i] {
            StepModel::Git(d, args) => d != Workdir::Work || args.len() != 2
                || (args[0] != "branch"@ && args[0] != "tag"@),
            StepModel::Write(_, _) => true,
        },
    ensures
        !runs(steps, "branch"@, n),
        !runs(steps, "tag"@, n),
{
    if runs(steps, "branch"@, n) {
        let i = choose|i: int| 0 <= i < steps.len() && steps[i] == git_work(seq!["branch"@, n]);
        assert(seq!["branch"@, n][0] == "branch"@);
    }
    if runs(steps, "tag"@, n) {
        let i = choose|i: int| 0 <= i < steps.len() && steps[i] == git_work(seq!["tag"@, n]);
        assert(seq!["tag"@, n][0] == "tag"@);
    }
}

/// A branch (or tag) is created exactly when some mark names it at one of
/// the commits `1` up to `commit_count - 1`: a mark at commit 0 or at or
/// after `commit_count` creates nothing.
pub proof fn lemma_fixture_refs(
    bare: Seq<char>,
    work: Seq<char>,
    commit_count: nat,
    count: nat,
    size: nat,
    branches: Seq<(Seq<char>, usize)>,
    tags: Seq<(Seq<char>, usize)>,
    name: Seq<char>,
)
    ensures
        runs(fixture_model(bare, work, commit_count, count, size, branches, tags), "branch"@, name)
            <==> marked_in(branches, name, 1, commit_count),
        runs(fixture_model(bare, work, commit_count, count, size, branches, tags), "tag"@, name)
            <==> marked_in(tags, name, 1, commit_count),
{
    reveal_strlit("add");
    reveal_strlit("branch");
    reveal_strlit("tag");
    reveal_strlit("commit");
    reveal_strlit("config");
    reveal_strlit("push");
    assert("commit"@[0] != "branch"@[0]);
    assert("config"@[0] != "branch"@[0]);
    assert("add"@[0] != "tag"@[0]);
    let s = setup_model(bare, work);
    let i = initial_commit_model(count, size);
    let c = commits_model(1, commit_count, count, size, branches, tags);
    let p = push_model();
    lemma_no_ref_steps(s, name);
    let w = initial_writes(count, size);
    assert(i == w + seq![git_work(seq!["add"@, "."@]), git_work(seq!["commit"@, "-m"@, "initial: add all files"@])]);
    assert forall|k: int| 0 <= k < i.len() implies match #[trigger] i[k] {
        StepModel::Git(d, args) => d != Workdir::Work || args.len() != 2
            || (args[0] != "branch"@ && args[0] != "tag"@),
        StepModel::Write(_, _) => true,
    } by {
        if k < w.len() {
            assert(i[k] == w[k]);
        }
    }
    lemma_no_ref_steps(i, name);
    lemma_no_ref_steps(p, name);
    lemma_runs_commits(commit_count, count, size, branches, tags, name);
    let verbs = seq!["branch"@, "tag"@];
    assert forall|j: int| 0 <= j < 2 implies {
        let x = git_work(seq![#[trigger] verbs[j], name]);
        (s + i + c + p).contains(x) <==> c.contains(x)
    } by {
        let x = git_work(seq![verbs[j], name]);
        lemma_contains_concat(s + i + c, p, x);
        lemma_contains_concat(s + i, c, x);
        lemma_contains_concat(s, i, x);
    }
    assert(verbs[0] == "branch"@);
    assert(verbs[1] == "tag"@);
}

/// The one-character string of a decimal digit.
fn digit_str(d: usize) -> (r: &'static str)
    requires
        d < 10,
    ensures
        r@ == seq![digit_char(d as nat)],
{
    if d == 0 {
        proof { reveal_strlit("0"); }
        "0"
    } else if d == 1 {
        proof { reveal_strlit("1"); }
        "1"
    } else if d == 2 {
        proof { reveal_strlit("2"); }
        "2"
    } else if d == 3 {
        proof { reveal_strlit("3"); }
        "3"
    } else if d == 4 {
        proof { reveal_strlit("4"); }
        "4"
    } else if d == 5 {
        proof { reveal_strlit("5"); }
        "5"
    } else if d == 6 {
        proof { reveal_strlit("6"); }
        "6"
    } else if d == 7 {
        proof { reveal_strlit("7"); }
        "7"
    } else if d == 8 {
        proof { reveal_strlit("8"); }
        "8"
    } else {
        proof { reveal_strlit("9"); }
        "9"
    }
}

/// The decimal rendering of `n`.
pub fn decimal_string(n: usize) -> (r: String)
    ensures
        r@ == decimal(n as nat),
    decreases n,
{
    if n < 10 {
        String::from_str(digit_str(n))
    } else {
        let mut s = decimal_string(n / 10);
        s.append(digit_str(n % 10));
        s
    }
}

/// `piece` (one character) repeated `n` times.
fn repeat_str(piece: &str, n: usize) -> (r: String)
    requires
        piece@.len() == 1,
    ensures
        r@ == repeated(piece@[0], n as nat),
{
    let mut r = String::new();
    let mut i: usize = 0;
    while i < n
        invariant
            i <= n,
            piece@.len() == 1,
            r@ == repeated(piece@[0], i as nat),
        decreases n - i,
    {
        r.append(piece);
        i = i + 1;
        assert(r@ =~= repeated(piece@[0], i as nat));
    }
    r
}

/// A string from a literal.
fn text(s: &str) -> (r: String)
    ensures
        r@ == s@,
{
    String::from_str(s)
}

/// A git command in the working clone.
fn git_in_work(args: Vec<String>) -> (r: FixtureStep)
    ensures
        step_model(r) == git_work(texts(args@)),
{
    FixtureStep::Git(Workdir::Work, args)
}

/// `file<i>.txt`
fn file_name_string(i: usize) -> (r: String)
    ensures
        r@ == file_name(i as nat),
{
    let mut r = text("file");
    let d = decimal_string(i);
    r.append(d.as_str());
    r.append(".txt");
    r
}

/// The steps that create the bare repository at `bare` and its working
/// clone at `work`.
pub fn setup_steps(bare: &str, work: &str) -> (r: Vec<FixtureStep>)
    ensures
        steps_model(r@) == setup_model(bare@, work@),
{
    let a0 = vec![text("init"), text("--bare"), text(bare)];
    let a1 = vec![text("symbolic-ref"), text("HEAD"), text("refs/heads/main")];
    let a2 = vec![text("clone"), text(bare), text(work)];
    let a3 = vec![text("config"), text("user.name"), text("Bench")];
    let a4 = vec![text("config"), text("user.email"), text("bench@test.com")];
    assert(texts(a0@) =~= seq!["init"@, "--bare"@, bare@]);
    assert(texts(a1@) =~= seq!["symbolic-ref"@, "HEAD"@, "refs/heads/main"@]);
    assert(texts(a2@) =~= seq!["clone"@, bare@, work@]);
    assert(texts(a3@) =~= seq!["config"@, "user.name"@, "Bench"@]);
    assert(texts(a4@) =~= seq!["config"@, "user.email"@, "bench@test.com"@]);
    let mut r: Vec<FixtureStep> = Vec::new();
    r.push(FixtureStep::Git(Workdir::Unset, a0));
    r.push(FixtureStep::Git(Workdir::Bare, a1));
    r.push(FixtureStep::Git(Workdir::Unset, a2));
    r.push(git_in_work(a3));
    r.push(git_in_work(a4));
    assert(steps_model(r@) =~= setup_model(bare@, work@));
    r
}

/// The steps of the first commit: `count` files of `size` bytes, added and
/// committed.
pub fn initial_commit_steps(count: usize, size: usize) -> (r: Vec<FixtureStep>)
    ensures
        steps_model(r@) == initial_commit_model(count as nat, size as nat),
{
    let mut r: Vec<FixtureStep> = Vec::new();
    let mut i: usize = 0;
    while i < count
        invariant
            i <= count,
            steps_model(r@) == initial_writes(i as nat, size as nat),
        decreases count - i,
    {
        let name = file_name_string(i);
        proof { reveal_strlit("x"); }
        let content = repeat_str("x", size);
        let ghost before = r@;
        let step = FixtureStep::Write(name, content);
        assert(step_model(step) == StepModel::Write(file_name(i as nat), initial_content(size as nat)));
        r.push(step);
        assert(steps_model(r@) =~= steps_model(before).push(step_model(step)));
        i = i + 1;
        assert(steps_model(r@) =~= initial_writes(i as nat, size as nat));
    }
    let add = vec![text("add"), text(".")];
    let commit = vec![text("commit"), text("-m"), text("initial: add all files")];
    assert(texts(add@) =~= seq!["add"@, "."@]);
    assert(texts(commit@) =~= seq!["commit"@, "-m"@, "initial: add all files"@]);
    r.push(git_in_work(add));
    r.push(git_in_work(commit));
    assert(steps_model(r@) =~= initial_commit_model(count as nat, size as nat));
    r
}

/// Appends `git <verb> <name>` for each mark set at commit `c`.
fn push_ref_marks(r: &mut Vec<FixtureStep>, marks: &[(&str, usize)], c: usize, verb: &str)
    ensures
        steps_model(final(r)@) == steps_model(old(r)@) + ref_marks(marks_view(marks@), c as nat, verb@),
{
    let ghost start = steps_model(r@);
    let mut k: usize = 0;
    while k < marks.len()
        invariant
            k <= marks.len(),
            steps_model(r@) == start + ref_marks(marks_view(marks@.subrange(0, k as int)), c as nat, verb@),
        decreases marks.len() - k,
    {
        let (name, at) = marks[k];
        let ghost before = r@;
        if at == c {
            let args = vec![text(verb), text(name)];
            assert(texts(args@) =~= seq![verb@, name@]);
            r.push(git_in_work(args));
        }
        k = k + 1;
        proof {
            let m = marks_view(marks@.subrange(0, k as int));
            assert(m.drop_last() =~= marks_view(marks@.subrange(0, k - 1)));
            assert(m.last() == (name@, at));
            if at == c {
                assert(steps_model(r@) =~= steps_model(before).push(git_work(seq![verb@, name@])));
            }
        }
    }
    assert(marks@.subrange(0, marks@.len() as int) =~= marks@);
}

/// The steps of commit `c` (from 1 on) in a fixture of `count` files of
/// `size` bytes, with the branches and tags (name, commit) to create.
pub fn commit_steps(
    c: usize,
    count: usize,
    size: usize,
    branches: &[(&str, usize)],
    tags: &[(&str, usize)],
) -> (r: Vec<FixtureStep>)
    requires
        count > 0,
    ensures
        steps_model(r@) == commit_model(c as nat, count as nat, size as nat, marks_view(branches@), marks_view(tags@)),
{
    let mut r: Vec<FixtureStep> = Vec::new();
    let name = file_name_string(c % count);
    let mut content = text("commit ");
    let d = decimal_string(c);
    content.append(d.as_str());
    content.append("\n");
    proof { reveal_strlit("y"); reveal_strlit("\n"); }
    let ys = repeat_str("y", size);
    content.append(ys.as_str());
    let mut message = text("commit ");
    message.append(d.as_str());
    let add = vec![text("add"), text(".")];
    let commit = vec![text("commit"), text("-m"), message];
    assert(texts(add@) =~= seq!["add"@, "."@]);
    assert(texts(commit@) =~= seq!["commit"@, "-m"@, "commit "@ + decimal(c as nat)]);
    r.push(FixtureStep::Write(name, content));
    r.push(git_in_work(add));
    r.push(git_in_work(commit));
    proof {
        assert(content@ == commit_content(c as nat, size as nat));
        assert(steps_model(r@) =~= seq![
            StepModel::Write(file_name((c % count) as nat), commit_content(c as nat, size as nat)),
            git_work(seq!["add"@, "."@]),
            git_work(seq!["commit"@, "-m"@, "commit "@ + decimal(c as nat)]),
        ]);
    }
    push_ref_marks(&mut r, branches, c, "branch");
    push_ref_marks(&mut r, tags, c, "tag");
    r
}

proof fn lemma_steps_model_concat(a: Seq<FixtureStep>, b: Seq<FixtureStep>)
    ensures
        steps_model(a + b) == steps_model(a) + steps_model(b),
{
    assert(steps_model(a + b) =~= steps_model(a) + steps_model(b));
}

/// Every step that builds a fixture repository at `bare` (with its working
/// clone at `work`): `commit_count` commits over `count` files of `size`
/// bytes, with the branches and tags (name, commit) to create.
pub fn fixture_steps(
    bare: &str,
    work: &str,
    commit_count: usize,
    count: usize,
    size: usize,
    branches: &[(&str, usize)],
    tags: &[(&str, usize)],
) -> (r: Vec<FixtureStep>)
    requires
        count > 0 || commit_count <= 1,
    ensures
        steps_model(r@) == fixture_model(
            bare@,
            work@,
            commit_count as nat,
            count as nat,
            size as nat,
            marks_view(branches@),
            marks_view(tags@),
        ),
{
    let ghost bv = marks_view(branches@);
    let ghost tv = marks_view(tags@);
    let mut r = setup_steps(bare, work);
    let mut first = initial_commit_steps(count, size);
    proof { lemma_steps_model_concat(r@, first@); }
    r.append(&mut first);
    let ghost head = setup_model(bare@, work@) + initial_commit_model(count as nat, size as nat);
    let mut c: usize = 1;
    while c < commit_count
        invariant
            1 <= c,
            c <= commit_count || c == 1,
            count > 0 || commit_count <= 1,
            bv == marks_view(branches@),
            tv == marks_view(tags@),
            steps_model(r@) == head + commits_model(1, c as nat, count as nat, size as nat, bv, tv),
        decreases commit_count - c,
    {
        let mut steps = commit_steps(c, count, size, branches, tags);
        proof { lemma_steps_model_concat(r@, steps@); }
        r.append(&mut steps);
        c = c + 1;
        assert(steps_model(r@) =~= head + commits_model(1, c as nat, count as nat, size as nat, bv, tv));
    }
    let mut last = push_steps();
    proof {
        lemma_steps_model_concat(r@, last@);
        if commit_count <= 1 {
            assert(commits_model(1, commit_count as nat, count as nat, size as nat, bv, tv) =~= Seq::<StepModel>::empty());
            assert(commits_model(1, 1, count as nat, size as nat, bv, tv) =~= Seq::<StepModel>::empty());
        }
    }
    r.append(&mut last);
    r
}

/// The steps that push every branch and tag back to the bare repository.
pub fn push_steps() -> (r: Vec<FixtureStep>)
    ensures
        steps_model(r@) == push_model(),
{
    let all = vec![text("push"), text("origin"), text("--all")];
    let tags = vec![text("push"), text("origin"), text("--tags")];
    assert(texts(all@) =~= seq!["push"@, "origin"@, "--all"@]);
    assert(texts(tags@) =~= seq!["push"@, "origin"@, "--tags"@]);
    let mut r: Vec<FixtureStep> = Vec::new();
    r.push(git_in_work(all));
    r.push(git_in_work(tags));
    assert(steps_model(r@) =~= push_model());
    r
}

} // verus!

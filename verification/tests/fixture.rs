use git_server::fixture::{commit_steps, decimal_string, fixture_steps, initial_commit_steps, push_steps, setup_steps, FixtureStep, Workdir};

fn git(step: &FixtureStep) -> (Workdir, Vec<String>) {
    match step {
        FixtureStep::Git(d, args) => (*d, args.clone()),
        FixtureStep::Write(..) => panic!("expected a git step"),
    }
}

fn write(step: &FixtureStep) -> (String, String) {
    match step {
        FixtureStep::Write(name, content) => (name.clone(), content.clone()),
        FixtureStep::Git(..) => panic!("expected a write step"),
    }
}

#[test]
fn decimal_rendering() {
    assert_eq!(decimal_string(0), "0");
    assert_eq!(decimal_string(7), "7");
    assert_eq!(decimal_string(10), "10");
    assert_eq!(decimal_string(2000), "2000");
    assert_eq!(decimal_string(1234567890), "1234567890");
}

#[test]
fn setup_creates_bare_repo_and_clone() {
    let steps = setup_steps("/tmp/f/repo.git", "/tmp/f/work");
    assert_eq!(steps.len(), 5);
    assert_eq!(git(&steps[0]), (Workdir::Unset, vec!["init".to_string(), "--bare".to_string(), "/tmp/f/repo.git".to_string()]));
    assert_eq!(git(&steps[1]), (Workdir::Bare, vec!["symbolic-ref".to_string(), "HEAD".to_string(), "refs/heads/main".to_string()]));
    assert_eq!(git(&steps[2]), (Workdir::Unset, vec!["clone".to_string(), "/tmp/f/repo.git".to_string(), "/tmp/f/work".to_string()]));
    assert_eq!(git(&steps[3]).1, vec!["config", "user.name", "Bench"]);
    assert_eq!(git(&steps[4]).1, vec!["config", "user.email", "bench@test.com"]);
    assert_eq!(git(&steps[4]).0, Workdir::Work);
}

#[test]
fn initial_commit_writes_every_file() {
    let steps = initial_commit_steps(3, 4);
    assert_eq!(steps.len(), 5);
    assert_eq!(write(&steps[0]), ("file0.txt".to_string(), "xxxx".to_string()));
    assert_eq!(write(&steps[2]), ("file2.txt".to_string(), "xxxx".to_string()));
    assert_eq!(git(&steps[3]), (Workdir::Work, vec!["add".to_string(), ".".to_string()]));
    assert_eq!(git(&steps[4]).1, vec!["commit", "-m", "initial: add all files"]);
}

#[test]
fn commit_rotates_files_and_marks_refs() {
    let branches = [("feature-a", 5usize), ("feature-b", 7usize)];
    let tags = [("v0.1", 5usize), ("v0.2", 5usize), ("v0.3", 6usize)];
    let steps = commit_steps(5, 3, 2, &branches, &tags);
    assert_eq!(steps.len(), 6);
    assert_eq!(write(&steps[0]), ("file2.txt".to_string(), "commit 5\nyy".to_string()));
    assert_eq!(git(&steps[1]).1, vec!["add", "."]);
    assert_eq!(git(&steps[2]).1, vec!["commit", "-m", "commit 5"]);
    assert_eq!(git(&steps[3]).1, vec!["branch", "feature-a"]);
    assert_eq!(git(&steps[4]).1, vec!["tag", "v0.1"]);
    assert_eq!(git(&steps[5]).1, vec!["tag", "v0.2"]);

    let plain = commit_steps(4, 3, 0, &branches, &tags);
    assert_eq!(plain.len(), 3);
    assert_eq!(write(&plain[0]), ("file1.txt".to_string(), "commit 4\n".to_string()));
}

#[test]
fn push_sends_branches_and_tags() {
    let steps = push_steps();
    assert_eq!(steps.len(), 2);
    assert_eq!(git(&steps[0]), (Workdir::Work, vec!["push".to_string(), "origin".to_string(), "--all".to_string()]));
    assert_eq!(git(&steps[1]).1, vec!["push", "origin", "--tags"]);
}

#[test]
fn fixture_steps_in_order() {
    let branches = [("feature-a", 1usize)];
    let tags = [("v0.1", 2usize), ("v0.2", 3usize), ("v0.0", 0usize)];
    let steps = fixture_steps("/f/repo.git", "/f/work", 3, 2, 1, &branches, &tags);
    // setup 5, initial 2 files + add + commit, commit 1 (3 + branch), commit 2 (3 + tag), push 2
    assert_eq!(steps.len(), 5 + 4 + 4 + 4 + 2);
    assert_eq!(git(&steps[0]).1, vec!["init", "--bare", "/f/repo.git"]);
    assert_eq!(write(&steps[5]), ("file0.txt".to_string(), "x".to_string()));
    assert_eq!(write(&steps[9]), ("file1.txt".to_string(), "commit 1\ny".to_string()));
    assert_eq!(git(&steps[12]).1, vec!["branch", "feature-a"]);
    assert_eq!(write(&steps[13]), ("file0.txt".to_string(), "commit 2\ny".to_string()));
    assert_eq!(git(&steps[16]).1, vec!["tag", "v0.1"]);
    assert_eq!(git(&steps[18]).1, vec!["push", "origin", "--tags"]);
    // marks at commit 0 or at commit_count are never created
    let created: Vec<Vec<String>> = steps
        .iter()
        .filter_map(|s| match s {
            FixtureStep::Git(_, args) if args[0] == "tag" || args[0] == "branch" => Some(args.clone()),
            _ => None,
        })
        .collect();
    assert_eq!(created, vec![vec!["branch".to_string(), "feature-a".to_string()], vec!["tag".to_string(), "v0.1".to_string()]]);
}

#[test]
fn fixture_steps_single_commit_without_files() {
    let steps = fixture_steps("/f/repo.git", "/f/work", 1, 0, 4, &[], &[("v1", 1usize)]);
    assert_eq!(steps.len(), 5 + 2 + 2);
    assert_eq!(git(&steps[6]).1, vec!["commit", "-m", "initial: add all files"]);
}

use nickgit::Fs;
use nickgit::GitRepository;
use nickgit::RepoPath;
use nickgit::VcsError;
use nickgit::create_repo_file;
use nickgit::default_config_content;
use nickgit::repo_create;
use nickgit::repo_dir;
use nickgit::repo_file;
use nickgit::repo_find;
use nickgit::repo_path;
use nickgit::serialize_config;

fn path(segs: &[&str]) -> RepoPath {
    let mut v: Vec<String> = Vec::new();
    for s in segs {
        v.push((*s).to_string());
    }
    RepoPath::from_segs(v)
}

fn segs(p: &RepoPath) -> Vec<String> {
    p.segs.clone()
}

#[test]
fn open_without_metadata_root_fails() {
    let fs = Fs::new();
    let target = path(&["home", "project"]);
    match GitRepository::build(&fs, &target, false) {
        Err(VcsError::NotARepository(p)) => assert_eq!(segs(&p), segs(&target)),
        _ => panic!("expected NotARepository"),
    }
}

#[test]
fn open_forced_ignores_missing_metadata_root() {
    let fs = Fs::new();
    let target = path(&["project"]);
    let repo = GitRepository::build(&fs, &target, true).expect("force must skip the check");
    assert_eq!(segs(&repo.worktree), vec!["project".to_string()]);
    assert_eq!(segs(&repo.gitdir), vec!["project".to_string(), ".vcs".to_string()]);
    assert_eq!(repo.conf.sections.len(), 0);
}

#[test]
fn open_with_absent_config_file_gives_empty_mapping() {
    let mut fs = Fs::new();
    fs.mkdir_all(&path(&["project", ".vcs"]));
    let repo = GitRepository::build(&fs, &path(&["project"]), false).expect("root is a directory");
    assert_eq!(repo.conf.sections.len(), 0);
}

#[test]
fn open_with_malformed_config_is_a_hard_error() {
    let mut fs = Fs::new();
    fs.mkdir_all(&path(&["project", ".vcs"]));
    fs.set_file(&path(&["project", ".vcs", "config"]), "no section here\n".to_string());
    match GitRepository::build(&fs, &path(&["project"]), false) {
        Err(VcsError::ConfigParseError(_)) => {},
        _ => panic!("expected ConfigParseError"),
    }
}

#[test]
fn create_then_open_yields_default_config() {
    let mut fs = Fs::new();
    let target = path(&["project"]);
    repo_create(&mut fs, &target).expect("bootstrap must succeed");
    let repo = GitRepository::build(&fs, &target, false).expect("fresh repository must open");
    assert_eq!(
        serialize_config(&repo.conf),
        serialize_config(&default_config_content()),
    );
}

#[test]
fn create_writes_the_whole_scaffold() {
    let mut fs = Fs::new();
    let target = path(&["sandbox"]);
    repo_create(&mut fs, &target).expect("bootstrap must succeed");
    assert!(fs.is_dir_at(&path(&["sandbox"])));
    assert!(fs.is_dir_at(&path(&["sandbox", ".vcs"])));
    assert!(fs.is_dir_at(&path(&["sandbox", ".vcs", "branches"])));
    assert!(fs.is_dir_at(&path(&["sandbox", ".vcs", "objects"])));
    assert!(fs.is_dir_at(&path(&["sandbox", ".vcs", "refs", "tags"])));
    assert!(fs.is_dir_at(&path(&["sandbox", ".vcs", "refs", "heads"])));
    assert_eq!(
        fs.file_at(&path(&["sandbox", ".vcs", "HEAD"])).expect("HEAD written").as_str(),
        "ref: refs/heads/master\n",
    );
    assert_eq!(
        fs.file_at(&path(&["sandbox", ".vcs", "description"])).expect("description written").as_str(),
        "Unnamed repository; edit this file 'description' to name the repository.\n",
    );
    assert_eq!(
        fs.file_at(&path(&["sandbox", ".vcs", "config"])).expect("config written").as_str(),
        "[core]\nrepositoryformatversion=0\nfilemode=false\nbare=false\n",
    );
}

#[test]
fn create_returns_handle_with_preload_config() {
    let mut fs = Fs::new();
    let target = path(&["project"]);
    let repo = repo_create(&mut fs, &target).expect("bootstrap must succeed");
    assert_eq!(segs(&repo.worktree), segs(&target));
    assert_eq!(segs(&repo.gitdir), vec!["project".to_string(), ".vcs".to_string()]);
    // the handle reflects the load made before the defaults were written
    assert_eq!(repo.conf.sections.len(), 0);
}

#[test]
fn create_is_rejected_on_populated_metadata_root() {
    let mut fs = Fs::new();
    let target = path(&["project"]);
    repo_create(&mut fs, &target).expect("first bootstrap must succeed");
    match repo_create(&mut fs, &target) {
        Err(VcsError::DirectoryNotEmpty(p)) => assert_eq!(segs(&p), segs(&target)),
        _ => panic!("expected DirectoryNotEmpty"),
    }
}

#[test]
fn create_is_rejected_when_worktree_is_a_file() {
    let mut fs = Fs::new();
    let target = path(&["project"]);
    fs.set_file(&target, "not a directory".to_string());
    match repo_create(&mut fs, &target) {
        Err(VcsError::NotADirectory(p)) => assert_eq!(segs(&p), segs(&target)),
        _ => panic!("expected NotADirectory"),
    }
}

#[test]
fn create_makes_only_the_leaf_directory() {
    let mut fs = Fs::new();
    fs.mkdir_all(&path(&["work"]));
    repo_create(&mut fs, &path(&["work", "project"])).expect("parent exists, leaf is created");
    assert!(fs.is_dir_at(&path(&["work", "project"])));
}

#[test]
fn create_fails_when_the_worktree_parent_is_missing() {
    let mut fs = Fs::new();
    let target = path(&["absent", "project"]);
    match repo_create(&mut fs, &target) {
        Err(VcsError::IoError(p, _)) => assert_eq!(segs(&p), segs(&target)),
        _ => panic!("expected IoError: the parent must not be created"),
    }
    assert!(!fs.is_dir_at(&path(&["absent"])));
    assert!(!fs.is_dir_at(&target));
}

#[test]
fn open_forced_rejects_a_file_at_the_metadata_root() {
    let mut fs = Fs::new();
    fs.mkdir_all(&path(&["project"]));
    fs.set_file(&path(&["project", ".vcs"]), "in the way".to_string());
    match GitRepository::build(&fs, &path(&["project"]), true) {
        Err(VcsError::NotADirectory(p)) => {
            assert_eq!(segs(&p), vec!["project".to_string(), ".vcs".to_string()])
        },
        _ => panic!("expected NotADirectory"),
    }
}

#[test]
fn create_accepts_an_existing_empty_worktree() {
    let mut fs = Fs::new();
    let target = path(&["work", "project"]);
    fs.mkdir_all(&target);
    repo_create(&mut fs, &target).expect("empty directory is a fine target");
    assert!(fs.is_dir_at(&path(&["work", "project", ".vcs", "objects"])));
}

#[test]
fn discover_from_nested_descendant_finds_the_repository() {
    let mut fs = Fs::new();
    let target = path(&["sandbox"]);
    repo_create(&mut fs, &target).expect("bootstrap must succeed");
    fs.mkdir_all(&path(&["sandbox", "a", "b", "c"]));
    let found = repo_find(&fs, &path(&["sandbox", "a", "b", "c"]), false)
        .expect("no error expected")
        .expect("the repository above must be found");
    assert_eq!(segs(&found.worktree), segs(&target));
    let direct = GitRepository::build(&fs, &target, false).expect("direct open works");
    assert_eq!(segs(&found.worktree), segs(&direct.worktree));
    assert_eq!(segs(&found.gitdir), segs(&direct.gitdir));
    assert_eq!(serialize_config(&found.conf), serialize_config(&direct.conf));
}

#[test]
fn discover_prefers_the_nearest_repository() {
    let mut fs = Fs::new();
    repo_create(&mut fs, &path(&["outer"])).expect("outer bootstrap");
    repo_create(&mut fs, &path(&["outer", "inner"])).expect("inner bootstrap");
    let found = repo_find(&fs, &path(&["outer", "inner", "src"]), false)
        .expect("no error expected")
        .expect("must find a repository");
    assert_eq!(segs(&found.worktree), vec!["outer".to_string(), "inner".to_string()]);
}

#[test]
fn discover_without_ancestor_repository_is_not_an_error() {
    let mut fs = Fs::new();
    fs.mkdir_all(&path(&["just", "dirs"]));
    let found = repo_find(&fs, &path(&["just", "dirs"]), false).expect("no error expected");
    assert!(found.is_none());
}

#[test]
fn discover_without_ancestor_repository_fails_when_required() {
    let mut fs = Fs::new();
    fs.mkdir_all(&path(&["just", "dirs"]));
    match repo_find(&fs, &path(&["just", "dirs"]), true) {
        Err(VcsError::NotARepository(_)) => {},
        _ => panic!("expected NotARepository"),
    }
}

#[test]
fn repo_path_joins_segments_in_order() {
    let gitdir = path(&["project", ".vcs"]);
    let joined = repo_path(&gitdir, &["refs", "tags"]);
    assert_eq!(
        segs(&joined),
        vec![
            "project".to_string(),
            ".vcs".to_string(),
            "refs".to_string(),
            "tags".to_string(),
        ]
    );
}

#[test]
fn repo_dir_reports_an_existing_directory() {
    let mut fs = Fs::new();
    fs.mkdir_all(&path(&["g", "sub"]));
    let r = repo_dir(&mut fs, &path(&["g"]), &["sub"], false).expect("no error");
    assert_eq!(segs(&r.expect("directory exists")), vec!["g".to_string(), "sub".to_string()]);
}

#[test]
fn repo_dir_rejects_a_file_in_the_way() {
    let mut fs = Fs::new();
    fs.mkdir_all(&path(&["g"]));
    fs.set_file(&path(&["g", "sub"]), "file".to_string());
    match repo_dir(&mut fs, &path(&["g"]), &["sub"], true) {
        Err(VcsError::NotADirectory(p)) => {
            assert_eq!(segs(&p), vec!["g".to_string(), "sub".to_string()])
        },
        _ => panic!("expected NotADirectory"),
    }
}

#[test]
fn repo_dir_absent_without_mkdir_is_absent() {
    let mut fs = Fs::new();
    let r = repo_dir(&mut fs, &path(&["g"]), &["sub"], false).expect("no error");
    assert!(r.is_none());
    assert!(!fs.is_dir_at(&path(&["g", "sub"])));
}

#[test]
fn repo_dir_creates_missing_directories_recursively() {
    let mut fs = Fs::new();
    let r = repo_dir(&mut fs, &path(&["g"]), &["a", "b"], true).expect("no error");
    assert!(r.is_some());
    assert!(fs.is_dir_at(&path(&["g"])));
    assert!(fs.is_dir_at(&path(&["g", "a"])));
    assert!(fs.is_dir_at(&path(&["g", "a", "b"])));
}

#[test]
fn repo_file_returns_the_file_path_when_parent_exists() {
    let mut fs = Fs::new();
    fs.mkdir_all(&path(&["g"]));
    let r = repo_file(&mut fs, &path(&["g"]), &["config"], false).expect("no error");
    assert_eq!(segs(&r.expect("parent exists")), vec!["g".to_string(), "config".to_string()]);
}

#[test]
fn repo_file_absent_parent_without_mkdir_is_absent() {
    let mut fs = Fs::new();
    let r = repo_file(&mut fs, &path(&["g"]), &["refs", "HEAD"], false).expect("no error");
    assert!(r.is_none());
}

#[test]
fn create_repo_file_writes_under_the_metadata_root() {
    let mut fs = Fs::new();
    let gitdir = path(&["p", ".vcs"]);
    let written = create_repo_file(&mut fs, &gitdir, "HEAD", "ref: refs/heads/master\n");
    assert_eq!(segs(&written), vec!["p".to_string(), ".vcs".to_string(), "HEAD".to_string()]);
    assert_eq!(
        fs.file_at(&path(&["p", ".vcs", "HEAD"])).expect("file written").as_str(),
        "ref: refs/heads/master\n",
    );
}

#[test]
fn repo_file_creates_the_parent_when_asked() {
    let mut fs = Fs::new();
    let r = repo_file(&mut fs, &path(&["g"]), &["refs", "HEAD"], true).expect("no error");
    assert_eq!(
        segs(&r.expect("parent was created")),
        vec!["g".to_string(), "refs".to_string(), "HEAD".to_string()]
    );
    assert!(fs.is_dir_at(&path(&["g", "refs"])));
}

#[test]
fn discover_reaches_a_repository_at_the_root() {
    let mut fs = Fs::new();
    fs.mkdir_all(&path(&[".vcs"]));
    let found = repo_find(&fs, &path(&["deep", "below"]), true)
        .expect("no error expected")
        .expect("the root repository must be found");
    assert_eq!(found.worktree.segs.len(), 0);
    assert_eq!(segs(&found.gitdir), vec![".vcs".to_string()]);
}

#[test]
fn discover_surfaces_a_config_error_immediately() {
    let mut fs = Fs::new();
    fs.mkdir_all(&path(&["repo", ".vcs"]));
    fs.set_file(&path(&["repo", ".vcs", "config"]), "broken line\n".to_string());
    fs.mkdir_all(&path(&["repo", "sub"]));
    match repo_find(&fs, &path(&["repo", "sub"]), false) {
        Err(VcsError::ConfigParseError(_)) => {},
        _ => panic!("expected ConfigParseError"),
    }
}

#[test]
fn io_error_carries_path_and_message() {
    let e = VcsError::IoError(path(&["p"]), "permission denied".to_string());
    match e {
        VcsError::IoError(p, msg) => {
            assert_eq!(segs(&p), vec!["p".to_string()]);
            assert_eq!(msg, "permission denied");
        },
        _ => panic!("expected IoError"),
    }
}

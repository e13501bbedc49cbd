use vstd::prelude::*;
use vstd::slice::slice_index_get;

use crate::config::Config;
use crate::config::default_config_content;
use crate::config::default_config_view;
use crate::config::lemma_default_config_wf;
use crate::config::parse_config;
use crate::config::parse_config_spec;
use crate::config::render_sections;
use crate::config::serialize_config;
use crate::fsmodel::Fs;
use crate::fsmodel::FsEntry;
use crate::fsmodel::add_dirs;
use crate::fsmodel::fs_exists;
use crate::fsmodel::fs_has_child;
use crate::fsmodel::fs_is_dir;
use crate::paths::RepoPath;

verus! {

// ---------------------------------------------------------------------------
// The repository handle and the operations that resolve, validate and
// initialize the on-disk metadata root, stated over the filesystem model.
// ---------------------------------------------------------------------------

#[derive(Debug)]
pub enum VcsError {
    /// The metadata root is missing and the caller did not force.
    NotARepository(RepoPath),
    /// A path that should be a directory holds something else.
    NotADirectory(RepoPath),
    /// Bootstrap refused: the metadata root already has entries.
    DirectoryNotEmpty(RepoPath),
    /// An existing configuration file is malformed.
    ConfigParseError(RepoPath),
    /// An underlying filesystem failure, with the offending path.
    IoError(RepoPath, String),
}

/// Name of the metadata directory kept under the worktree.
pub open spec fn vcs_dir_name() -> Seq<char> {
    ".vcs"@
}

/// The metadata root of the worktree at `p`.
pub open spec fn gitdir_of(p: Seq<Seq<char>>) -> Seq<Seq<char>> {
    p.push(vcs_dir_name())
}

/// Where the configuration file of a metadata root `gd` lives.
pub open spec fn config_path_of(gd: Seq<Seq<char>>) -> Seq<Seq<char>> {
    gd.push("config"@)
}

/// What loading the configuration under `gd` yields: the parsed sections if
/// a config file is present, the empty mapping if none is, and `None` (a
/// parse error) on a malformed file.
pub open spec fn config_load(
    m: Map<Seq<Seq<char>>, Option<Seq<char>>>,
    gd: Seq<Seq<char>>,
) -> Option<Seq<(Seq<char>, Seq<(Seq<char>, Seq<char>)>)>> {
    let cp = config_path_of(gd);
    if m.contains_key(cp) && m[cp] is Some {
        parse_config_spec(m[cp]->Some_0)
    } else {
        Some(Seq::empty())
    }
}

/// Whether `gd` is present in `m` as something other than a directory.
pub open spec fn metadata_root_is_file(
    m: Map<Seq<Seq<char>>, Option<Seq<char>>>,
    gd: Seq<Seq<char>>,
) -> bool {
    m.contains_key(gd) && !(m[gd] is None)
}

pub struct GitRepository {
    pub worktree: RepoPath,
    pub gitdir: RepoPath,
    pub conf: Config,
}

impl GitRepository {
    /// Resolve and validate the repository whose worktree is `path`.
    ///
    /// Unless `force` is set, the metadata root must already be a directory;
    /// a metadata root that exists as a file is refused, and the
    /// configuration file under it is loaded if present, an absent file
    /// meaning an empty mapping and a malformed one a hard error.
    pub fn build(fs: &Fs, path: &RepoPath, force: bool) -> (r: Result<GitRepository, VcsError>)
        ensures
            !force && !fs_is_dir(fs@, gitdir_of(path@)) ==> (r matches Err(
                VcsError::NotARepository(p),
            ) && p@ == path@),
            ((force || fs_is_dir(fs@, gitdir_of(path@))) && metadata_root_is_file(
                fs@,
                gitdir_of(path@),
            )) ==> (r matches Err(VcsError::NotADirectory(q)) && q@ == gitdir_of(path@)),
            ((force || fs_is_dir(fs@, gitdir_of(path@))) && !metadata_root_is_file(
                fs@,
                gitdir_of(path@),
            ) && config_load(fs@, gitdir_of(path@)) is None) ==> r matches Err(
                VcsError::ConfigParseError(_),
            ),
            ((force || fs_is_dir(fs@, gitdir_of(path@))) && !metadata_root_is_file(
                fs@,
                gitdir_of(path@),
            ) && config_load(fs@, gitdir_of(path@)) is Some) ==> (r matches Ok(repo)
                && repo.worktree@ == path@ && repo.gitdir@ == gitdir_of(path@) && Some(repo.conf@)
                == config_load(fs@, gitdir_of(path@))),
    {
        let worktree = path.dup();
        let gitdir = path.child(".vcs");
        if !(force || fs.is_dir_at(&gitdir)) {
            return Err(VcsError::NotARepository(worktree));
        }
        let root_is_file = match fs.lookup(&gitdir) {
            Some(e) => match e {
                FsEntry::File(_) => true,
                FsEntry::Dir => false,
            },
            None => false,
        };
        if root_is_file {
            return Err(VcsError::NotADirectory(gitdir));
        }
        let config_file = gitdir.child("config");
        let conf = match fs.file_at(&config_file) {
            Some(text) => match parse_config(text.as_str()) {
                Some(c) => c,
                None => {
                    return Err(VcsError::ConfigParseError(config_file));
                },
            },
            None => {
                let empty = Config { sections: Vec::new() };
                proof {
                    assert(empty@ =~= Seq::<(Seq<char>, Seq<(Seq<char>, Seq<char>)>)>::empty());
                }
                empty
            },
        };
        Ok(GitRepository { worktree, gitdir, conf })
    }
}

/// View of a borrowed segment list.
pub open spec fn strs_view(ss: Seq<&str>) -> Seq<Seq<char>> {
    Seq::new(ss.len(), |i: int| ss[i]@)
}

/// Join `gitdir` with each segment in order; pure path arithmetic.
pub fn repo_path(gitdir: &RepoPath, paths: &[&str]) -> (r: RepoPath)
    ensures
        r@ == gitdir@ + strs_view(paths@),
{
    let mut r = gitdir.dup();
    let mut i: usize = 0;
    proof {
        assert(r@ =~= gitdir@ + strs_view(paths@.take(0)));
    }
    let n = paths.len();
    while i < n
        invariant
            i <= n,
            n == paths@.len(),
            r@ == gitdir@ + strs_view(paths@.take(i as int)),
        decreases n - i as int,
    {
        let seg: &&str = slice_index_get(paths, i);
        r.push_seg(seg);
        proof {
            assert(r@ =~= gitdir@ + strs_view(paths@.take(i as int + 1)));
        }
        i = i + 1;
    }
    proof {
        assert(paths@.take(n as int) =~= paths@);
    }
    r
}

/// Ensure the directory at `p` exists, creating it (with all missing
/// ancestors) when `mkdir` is set; reports what is there otherwise.
fn ensure_dir_path(fs: &mut Fs, p: RepoPath, mkdir: bool) -> (r: Result<Option<RepoPath>, VcsError>)
    ensures
        fs_is_dir(old(fs)@, p@) ==> (r matches Ok(Some(q)) && q@ == p@ && final(fs)@ == old(fs)@),
        fs_exists(old(fs)@, p@) && !fs_is_dir(old(fs)@, p@) ==> (r matches Err(
            VcsError::NotADirectory(q),
        ) && q@ == p@ && final(fs)@ == old(fs)@),
        !fs_exists(old(fs)@, p@) && mkdir ==> (r matches Ok(Some(q)) && q@ == p@ && final(fs)@
            == add_dirs(old(fs)@, p@)),
        !fs_exists(old(fs)@, p@) && !mkdir ==> (r matches Ok(None) && final(fs)@ == old(fs)@),
{
    if fs.exists_at(&p) {
        if fs.is_dir_at(&p) {
            Ok(Some(p))
        } else {
            Err(VcsError::NotADirectory(p))
        }
    } else if mkdir {
        fs.mkdir_all(&p);
        Ok(Some(p))
    } else {
        Ok(None)
    }
}

/// Compose `gitdir` with `paths` and ensure the composed directory exists,
/// creating it when `mkdir` is set.
pub fn repo_dir(fs: &mut Fs, gitdir: &RepoPath, paths: &[&str], mkdir: bool) -> (r: Result<
    Option<RepoPath>,
    VcsError,
>)
    ensures
        ({
            let p = gitdir@ + strs_view(paths@);
            &&& fs_is_dir(old(fs)@, p) ==> (r matches Ok(Some(q)) && q@ == p
                && final(fs)@ == old(fs)@)
            &&& fs_exists(old(fs)@, p) && !fs_is_dir(old(fs)@, p) ==> (r matches Err(
                VcsError::NotADirectory(q),
            ) && q@ == p && final(fs)@ == old(fs)@)
            &&& !fs_exists(old(fs)@, p) && mkdir ==> (r matches Ok(Some(q)) && q@ == p
                && final(fs)@ == add_dirs(old(fs)@, p))
            &&& !fs_exists(old(fs)@, p) && !mkdir ==> (r matches Ok(None)
                && final(fs)@ == old(fs)@)
        }),
{
    let p = repo_path(gitdir, paths);
    ensure_dir_path(fs, p, mkdir)
}

/// Compose `gitdir` with `paths`, ensure the parent directory of the
/// composed file path exists (creating it when `mkdir` is set), and return
/// the file path; the file itself is not touched.
pub fn repo_file(fs: &mut Fs, gitdir: &RepoPath, paths: &[&str], mkdir: bool) -> (r: Result<
    Option<RepoPath>,
    VcsError,
>)
    requires
        paths@.len() >= 1,
    ensures
        ({
            let parent = gitdir@ + strs_view(paths@.drop_last());
            let full = gitdir@ + strs_view(paths@);
            &&& fs_is_dir(old(fs)@, parent) ==> (r matches Ok(Some(q)) && q@ == full
                && final(fs)@ == old(fs)@)
            &&& fs_exists(old(fs)@, parent) && !fs_is_dir(old(fs)@, parent) ==> (r matches Err(
                VcsError::NotADirectory(q),
            ) && q@ == parent && final(fs)@ == old(fs)@)
            &&& !fs_exists(old(fs)@, parent) && mkdir ==> (r matches Ok(Some(q)) && q@ == full
                && final(fs)@ == add_dirs(old(fs)@, parent))
            &&& !fs_exists(old(fs)@, parent) && !mkdir ==> (r matches Ok(None) && final(fs)@
                == old(fs)@)
        }),
{
    let ghost parent_v = gitdir@ + strs_view(paths@.drop_last());
    let mut parent = gitdir.dup();
    let mut i: usize = 0;
    proof {
        assert(parent@ =~= gitdir@ + strs_view(paths@.take(0)));
    }
    let n = paths.len();
    while i < n - 1
        invariant
            i <= n - 1,
            n >= 1,
            n == paths@.len(),
            parent@ == gitdir@ + strs_view(paths@.take(i as int)),
        decreases n - 1 - i as int,
    {
        let seg: &&str = slice_index_get(paths, i);
        parent.push_seg(seg);
        proof {
            assert(parent@ =~= gitdir@ + strs_view(paths@.take(i as int + 1)));
        }
        i = i + 1;
    }
    proof {
        assert(paths@.take(n as int - 1) =~= paths@.drop_last());
        assert(parent@ == parent_v);
    }
    match ensure_dir_path(fs, parent, mkdir) {
        Ok(Some(_)) => {
            let full = repo_path(gitdir, paths);
            Ok(Some(full))
        },
        Ok(None) => Ok(None),
        Err(e) => Err(e),
    }
}

/// Ensure `gitdir` exists and write the file `gitdir/filename` with
/// `initial_content`, replacing any previous content.
pub fn create_repo_file(fs: &mut Fs, gitdir: &RepoPath, filename: &str, initial_content: &str) -> (r:
    RepoPath)
    ensures
        r@ == gitdir@.push(filename@),
        final(fs)@ == add_dirs(old(fs)@, gitdir@).insert(
            gitdir@.push(filename@),
            Some(initial_content@),
        ),
{
    fs.mkdir_all(gitdir);
    let filepath = gitdir.child(filename);
    fs.set_file(&filepath, String::from_str(initial_content));
    filepath
}

// ---------------------------------------------------------------------------
// How add_dirs moves single bindings around.
// ---------------------------------------------------------------------------

/// Bindings already present survive `add_dirs` unchanged.
pub proof fn lemma_add_dirs_preserves(
    m: Map<Seq<Seq<char>>, Option<Seq<char>>>,
    p: Seq<Seq<char>>,
    k: Seq<Seq<char>>,
)
    requires
        m.contains_key(k),
    ensures
        add_dirs(m, p).contains_key(k),
        add_dirs(m, p)[k] == m[k],
    decreases p.len(),
{
    if p.len() > 0 {
        lemma_add_dirs_preserves(m, p.drop_last(), k);
    }
}

/// Keys that are not a nonempty prefix of `p` are untouched by `add_dirs`.
pub proof fn lemma_add_dirs_frame(
    m: Map<Seq<Seq<char>>, Option<Seq<char>>>,
    p: Seq<Seq<char>>,
    k: Seq<Seq<char>>,
)
    requires
        !(k.len() > 0 && k.is_prefix_of(p)),
    ensures
        add_dirs(m, p).contains_key(k) == m.contains_key(k),
        m.contains_key(k) ==> add_dirs(m, p)[k] == m[k],
    decreases p.len(),
{
    if p.len() > 0 {
        assert(!(k.len() > 0 && k.is_prefix_of(p.drop_last()))) by {
            if k.len() > 0 && k.is_prefix_of(p.drop_last()) {
                assert(p.drop_last().subrange(0, k.len() as int) =~= p.subrange(
                    0,
                    k.len() as int,
                ));
                assert(k.is_prefix_of(p));
            }
        }
        lemma_add_dirs_frame(m, p.drop_last(), k);
        assert(k != p) by {
            if k == p {
                assert(k.is_prefix_of(p));
            }
        }
    }
}

/// Every nonempty prefix of `p` is present after `add_dirs`: as it was bound
/// in `m` if it was there, and as a fresh directory otherwise.
pub proof fn lemma_add_dirs_prefix(
    m: Map<Seq<Seq<char>>, Option<Seq<char>>>,
    p: Seq<Seq<char>>,
    k: Seq<Seq<char>>,
)
    requires
        k.len() > 0,
        k.is_prefix_of(p),
    ensures
        add_dirs(m, p).contains_key(k),
        add_dirs(m, p)[k] == if m.contains_key(k) {
            m[k]
        } else {
            None::<Seq<char>>
        },
    decreases p.len(),
{
    if k.len() == p.len() {
        assert(k =~= p);
        assert(!(p.len() > 0 && p.is_prefix_of(p.drop_last())));
        lemma_add_dirs_frame(m, p.drop_last(), p);
    } else {
        assert(k.is_prefix_of(p.drop_last())) by {
            assert(p.drop_last().subrange(0, k.len() as int) =~= p.subrange(0, k.len() as int));
        }
        lemma_add_dirs_prefix(m, p.drop_last(), k);
        assert(k != p);
    }
}

// ---------------------------------------------------------------------------
// Bootstrap.
// ---------------------------------------------------------------------------

pub open spec fn description_text() -> Seq<char> {
    "Unnamed repository; edit this file 'description' to name the repository.\n"@
}

pub open spec fn head_text() -> Seq<char> {
    "ref: refs/heads/master\n"@
}

/// The filesystem after a successful bootstrap of the worktree `p`: the
/// worktree itself if it was missing, the four scaffold directories, and the
/// three bootstrap files under the metadata root.
pub open spec fn create_fs(
    m: Map<Seq<Seq<char>>, Option<Seq<char>>>,
    p: Seq<Seq<char>>,
) -> Map<Seq<Seq<char>>, Option<Seq<char>>> {
    let gd = gitdir_of(p);
    let m0 = if fs_exists(m, p) {
        m
    } else {
        m.insert(p, None)
    };
    let m1 = add_dirs(m0, gd.push("branches"@));
    let m2 = add_dirs(m1, gd.push("objects"@));
    let m3 = add_dirs(m2, gd.push("refs"@).push("tags"@));
    let m4 = add_dirs(m3, gd.push("refs"@).push("heads"@));
    let m5 = add_dirs(m4, gd).insert(gd.push("description"@), Some(description_text()));
    let m6 = add_dirs(m5, gd).insert(gd.push("HEAD"@), Some(head_text()));
    add_dirs(m6, gd).insert(config_path_of(gd), Some(render_sections(default_config_view())))
}

/// The states `repo_create` accepts: a metadata root that is not a file, a
/// loadable (or absent) configuration, a worktree that is not a file,
/// nothing yet below the metadata root, and — since a missing worktree is
/// created non-recursively, the leaf only — a worktree that either exists
/// or has an existing directory as parent.
pub open spec fn create_pre(m: Map<Seq<Seq<char>>, Option<Seq<char>>>, p: Seq<Seq<char>>) -> bool {
    let gd = gitdir_of(p);
    &&& !metadata_root_is_file(m, gd)
    &&& config_load(m, gd) is Some
    &&& !(fs_exists(m, p) && !fs_is_dir(m, p))
    &&& !fs_has_child(m, gd)
    &&& fs_exists(m, p) || fs_is_dir(m, p.drop_last())
}

/// Bootstrap a repository at `path`: validate the target, create the
/// worktree if missing (the leaf directory only, never its ancestors),
/// scaffold the metadata root and write the bootstrap files.  The returned
/// handle carries the configuration as loaded before the defaults were
/// written (empty unless a config file already existed).
pub fn repo_create(fs: &mut Fs, path: &RepoPath) -> (r: Result<GitRepository, VcsError>)
    ensures
        metadata_root_is_file(old(fs)@, gitdir_of(path@)) ==> (r matches Err(
            VcsError::NotADirectory(q),
        ) && q@ == gitdir_of(path@) && final(fs)@ == old(fs)@),
        (!metadata_root_is_file(old(fs)@, gitdir_of(path@)) && config_load(
            old(fs)@,
            gitdir_of(path@),
        ) is None) ==> (r matches Err(VcsError::ConfigParseError(_)) && final(fs)@ == old(fs)@),
        (!metadata_root_is_file(old(fs)@, gitdir_of(path@)) && config_load(
            old(fs)@,
            gitdir_of(path@),
        ) is Some && fs_exists(old(fs)@, path@) && !fs_is_dir(old(fs)@, path@)) ==> (r matches Err(
            VcsError::NotADirectory(q),
        ) && q@ == path@ && final(fs)@ == old(fs)@),
        (!metadata_root_is_file(old(fs)@, gitdir_of(path@)) && config_load(
            old(fs)@,
            gitdir_of(path@),
        ) is Some && !(fs_exists(old(fs)@, path@) && !fs_is_dir(old(fs)@, path@)) && fs_has_child(
            old(fs)@,
            gitdir_of(path@),
        )) ==> (r matches Err(VcsError::DirectoryNotEmpty(q)) && q@ == path@ && final(fs)@ == old(
            fs,
        )@),
        (!metadata_root_is_file(old(fs)@, gitdir_of(path@)) && config_load(
            old(fs)@,
            gitdir_of(path@),
        ) is Some && !(fs_exists(old(fs)@, path@) && !fs_is_dir(old(fs)@, path@))
            && !fs_has_child(old(fs)@, gitdir_of(path@)) && !fs_exists(old(fs)@, path@)
            && !fs_is_dir(old(fs)@, path@.drop_last())) ==> (r matches Err(
            VcsError::IoError(q, _),
        ) && q@ == path@ && final(fs)@ == old(fs)@),
        create_pre(old(fs)@, path@) ==> (r matches Ok(repo) && repo.worktree@ == path@
            && repo.gitdir@ == gitdir_of(path@) && Some(repo.conf@) == config_load(
            old(fs)@,
            gitdir_of(path@),
        ) && final(fs)@ == create_fs(old(fs)@, path@)),
{
    let ghost m = fs@;
    let ghost gd = gitdir_of(path@);
    let repo = match GitRepository::build(fs, path, true) {
        Ok(repo) => repo,
        Err(e) => {
            return Err(e);
        },
    };
    if fs.exists_at(path) && !fs.is_dir_at(path) {
        return Err(VcsError::NotADirectory(path.dup()));
    }
    if fs.dir_has_entries(&repo.gitdir) {
        return Err(VcsError::DirectoryNotEmpty(path.dup()));
    }
    if !fs.exists_at(path) {
        // the worktree is made non-recursively: only the leaf directory,
        // never missing ancestors
        let mut parent = path.dup();
        parent.pop_seg();
        if !fs.is_dir_at(&parent) {
            return Err(
                VcsError::IoError(
                    path.dup(),
                    String::from_str("cannot create the worktree: its parent is not a directory"),
                ),
            );
        }
        fs.mkdir_leaf(path);
    }
    let ghost m0 = fs@;
    let ghost p1 = gd.push("branches"@);
    let ghost p2 = gd.push("objects"@);
    let ghost p3 = gd.push("refs"@).push("tags"@);
    let ghost p4 = gd.push("refs"@).push("heads"@);
    proof {
        reveal_strlit("branches");
        reveal_strlit("objects");
        reveal_strlit("refs");
        reveal_strlit("tags");
        reveal_strlit("heads");
        if create_pre(m, path@) {
            assert(m0 == if fs_exists(m, path@) {
                m
            } else {
                m.insert(path@, None::<Seq<char>>)
            });
            assert(gd.is_prefix_of(p1)) by {
                assert(p1.subrange(0, gd.len() as int) =~= gd);
            }
            lemma_scaffold_target_absent(m, m0, path@, p1);
        }
    }
    let dir_branches = repo.gitdir.child("branches");
    match ensure_dir_path(fs, dir_branches, true) {
        Ok(_) => {},
        Err(e) => {
            return Err(e);
        },
    }
    let ghost m1 = fs@;
    proof {
        if create_pre(m, path@) {
            assert(m1 == add_dirs(m0, p1));
            assert(!(p2.len() > 0 && p2.is_prefix_of(p1))) by {
                if p2.is_prefix_of(p1) {
                    assert(p1.subrange(0, p2.len() as int) =~= p1);
                    assert(p2[p2.len() - 1] == p1[p1.len() - 1]);
                    reveal_strlit("objects");
                    reveal_strlit("branches");
                    assert("objects"@.len() != "branches"@.len());
                }
            }
            lemma_add_dirs_frame(m0, p1, p2);
            assert(gd.is_prefix_of(p2)) by {
                assert(p2.subrange(0, gd.len() as int) =~= gd);
            }
            lemma_scaffold_target_absent(m, m0, path@, p2);
            assert(!fs_exists(m1, p2));
        }
    }
    let dir_objects = repo.gitdir.child("objects");
    match ensure_dir_path(fs, dir_objects, true) {
        Ok(_) => {},
        Err(e) => {
            return Err(e);
        },
    }
    let ghost m2 = fs@;
    proof {
        if create_pre(m, path@) {
            assert(m2 == add_dirs(m1, p2));
            assert(!(p3.len() > 0 && p3.is_prefix_of(p1)));
            assert(!(p3.len() > 0 && p3.is_prefix_of(p2)));
            lemma_add_dirs_frame(m1, p2, p3);
            lemma_add_dirs_frame(m0, p1, p3);
            assert(gd.is_prefix_of(p3)) by {
                assert(p3.subrange(0, gd.len() as int) =~= gd);
            }
            lemma_scaffold_target_absent(m, m0, path@, p3);
            assert(!fs_exists(m2, p3));
        }
    }
    let dir_tags = repo.gitdir.child("refs").child("tags");
    match ensure_dir_path(fs, dir_tags, true) {
        Ok(_) => {},
        Err(e) => {
            return Err(e);
        },
    }
    let ghost m3 = fs@;
    proof {
        if create_pre(m, path@) {
            assert(m3 == add_dirs(m2, p3));
            assert(!(p4.len() > 0 && p4.is_prefix_of(p1)));
            assert(!(p4.len() > 0 && p4.is_prefix_of(p2)));
            assert(!(p4.len() > 0 && p4.is_prefix_of(p3))) by {
                if p4.is_prefix_of(p3) {
                    assert(p3.subrange(0, p4.len() as int) =~= p3);
                    assert(p4[p4.len() - 1] == p3[p3.len() - 1]);
                    reveal_strlit("heads");
                    reveal_strlit("tags");
                    assert("heads"@.len() != "tags"@.len());
                }
            }
            lemma_add_dirs_frame(m2, p3, p4);
            lemma_add_dirs_frame(m1, p2, p4);
            lemma_add_dirs_frame(m0, p1, p4);
            assert(gd.is_prefix_of(p4)) by {
                assert(p4.subrange(0, gd.len() as int) =~= gd);
            }
            lemma_scaffold_target_absent(m, m0, path@, p4);
            assert(!fs_exists(m3, p4));
        }
    }
    let dir_heads = repo.gitdir.child("refs").child("heads");
    match ensure_dir_path(fs, dir_heads, true) {
        Ok(_) => {},
        Err(e) => {
            return Err(e);
        },
    }
    let ghost m4 = fs@;
    proof {
        if create_pre(m, path@) {
            assert(m4 == add_dirs(m3, p4));
        }
    }
    create_repo_file(
        fs,
        &repo.gitdir,
        "description",
        "Unnamed repository; edit this file 'description' to name the repository.\n",
    );
    let ghost m5 = fs@;
    create_repo_file(fs, &repo.gitdir, "HEAD", "ref: refs/heads/master\n");
    let ghost m6 = fs@;
    let config_text = serialize_config(&default_config_content());
    create_repo_file(fs, &repo.gitdir, "config", config_text.as_str());
    proof {
        if create_pre(m, path@) {
            assert(m5 == add_dirs(m4, gd).insert(gd.push("description"@), Some(description_text())));
            assert(m6 == add_dirs(m5, gd).insert(gd.push("HEAD"@), Some(head_text())));
            assert(fs@ == add_dirs(m6, gd).insert(
                config_path_of(gd),
                Some(render_sections(default_config_view())),
            ));
            assert(fs@ == create_fs(m, path@));
        }
    }
    Ok(repo)
}

/// Under `create_pre`, nothing lies below the metadata root yet, so a
/// scaffold path below it is absent before its own creation step.
proof fn lemma_scaffold_target_absent(
    m: Map<Seq<Seq<char>>, Option<Seq<char>>>,
    m0: Map<Seq<Seq<char>>, Option<Seq<char>>>,
    p: Seq<Seq<char>>,
    target: Seq<Seq<char>>,
)
    requires
        create_pre(m, p),
        m0 == if fs_exists(m, p) {
            m
        } else {
            m.insert(p, None::<Seq<char>>)
        },
        gitdir_of(p).is_prefix_of(target),
        target.len() > gitdir_of(p).len(),
    ensures
        !fs_exists(m0, target),
{
    let gd = gitdir_of(p);
    assert(target.len() > p.len());
    if m0.contains_key(target) {
        assert(m.contains_key(target));
        assert(fs_has_child(m, gd));
        assert(false);
    }
}

// ---------------------------------------------------------------------------
// Discovery.
// ---------------------------------------------------------------------------

/// The nearest ancestor of `p` (including `p` itself) whose metadata root is
/// an existing directory, or `None` when no ancestor has one.
pub open spec fn nearest_repo(
    m: Map<Seq<Seq<char>>, Option<Seq<char>>>,
    p: Seq<Seq<char>>,
) -> Option<Seq<Seq<char>>>
    decreases p.len(),
{
    if fs_is_dir(m, gitdir_of(p)) {
        Some(p)
    } else if p.len() == 0 {
        None
    } else {
        nearest_repo(m, p.drop_last())
    }
}

/// Walk upward from `path` to the nearest repository: open it where its
/// metadata root is found, and report (or fail, when `required`) at the
/// filesystem root otherwise.
pub fn repo_find(fs: &Fs, path: &RepoPath, required: bool) -> (r: Result<
    Option<GitRepository>,
    VcsError,
>)
    ensures
        ({
            let n = nearest_repo(fs@, path@);
            &&& n is None && required ==> (r matches Err(VcsError::NotARepository(q)) && q@
                == path@)
            &&& n is None && !required ==> (r matches Ok(None))
            &&& n is Some && config_load(fs@, gitdir_of(n->Some_0)) is None ==> (r matches Err(
                VcsError::ConfigParseError(_),
            ))
            &&& n is Some && config_load(fs@, gitdir_of(n->Some_0)) is Some ==> (r matches Ok(
                Some(repo),
            ) && repo.worktree@ == n->Some_0 && repo.gitdir@ == gitdir_of(n->Some_0) && Some(
                repo.conf@,
            ) == config_load(fs@, gitdir_of(n->Some_0)))
        }),
{
    let mut cur = path.dup();
    loop
        invariant
            nearest_repo(fs@, path@) == nearest_repo(fs@, cur@),
        decreases cur@.len(),
    {
        let gitdir = cur.child(".vcs");
        if fs.is_dir_at(&gitdir) {
            proof {
                assert(gitdir@ == gitdir_of(cur@));
                assert(nearest_repo(fs@, cur@) == Some(cur@));
            }
            return match GitRepository::build(fs, &cur, false) {
                Ok(repo) => Ok(Some(repo)),
                Err(e) => Err(e),
            };
        }
        if cur.len() == 0 {
            proof {
                assert(nearest_repo(fs@, cur@) is None);
            }
            if required {
                return Err(VcsError::NotARepository(path.dup()));
            } else {
                return Ok(None);
            }
        }
        cur.pop_seg();
    }
}

// ---------------------------------------------------------------------------
// Laws relating bootstrap, resolution and discovery.
// ---------------------------------------------------------------------------

/// Law: immediately after a bootstrap the metadata root is a directory and
/// loading the configuration yields exactly the defaults record, so opening
/// the worktree (without force) succeeds with that configuration.
pub proof fn lemma_create_then_open(m: Map<Seq<Seq<char>>, Option<Seq<char>>>, p: Seq<Seq<char>>)
    requires
        create_pre(m, p),
    ensures
        fs_is_dir(create_fs(m, p), gitdir_of(p)),
        config_load(create_fs(m, p), gitdir_of(p)) == Some(default_config_view()),
{
    let gd = gitdir_of(p);
    let m0 = if fs_exists(m, p) {
        m
    } else {
        m.insert(p, None::<Seq<char>>)
    };
    let p1 = gd.push("branches"@);
    let p2 = gd.push("objects"@);
    let p3 = gd.push("refs"@).push("tags"@);
    let p4 = gd.push("refs"@).push("heads"@);
    let m1 = add_dirs(m0, p1);
    let m2 = add_dirs(m1, p2);
    let m3 = add_dirs(m2, p3);
    let m4 = add_dirs(m3, p4);
    let m5 = add_dirs(m4, gd).insert(gd.push("description"@), Some(description_text()));
    let m6 = add_dirs(m5, gd).insert(gd.push("HEAD"@), Some(head_text()));
    let m7 = add_dirs(m6, gd).insert(
        config_path_of(gd),
        Some(render_sections(default_config_view())),
    );
    assert(m7 == create_fs(m, p));
    assert(p != gd);
    assert(gd.is_prefix_of(p1)) by {
        assert(p1.subrange(0, gd.len() as int) =~= gd);
    }
    lemma_add_dirs_prefix(m0, p1, gd);
    assert(m1.contains_key(gd) && m1[gd] is None);
    lemma_add_dirs_preserves(m1, p2, gd);
    lemma_add_dirs_preserves(m2, p3, gd);
    lemma_add_dirs_preserves(m3, p4, gd);
    lemma_add_dirs_preserves(m4, gd, gd);
    assert(gd != gd.push("description"@));
    assert(m5.contains_key(gd) && m5[gd] is None);
    lemma_add_dirs_preserves(m5, gd, gd);
    assert(m6.contains_key(gd) && m6[gd] is None);
    lemma_add_dirs_preserves(m6, gd, gd);
    assert(gd != config_path_of(gd));
    assert(m7.contains_key(gd) && m7[gd] is None);
    assert(fs_is_dir(m7, gd));
    lemma_default_config_wf();
    assert(m7[config_path_of(gd)] == Some(render_sections(default_config_view())));
    assert(config_load(m7, gd) == Some(default_config_view()));
}

/// Law: a bootstrap leaves the metadata root populated, so running the
/// bootstrap again against the same target must be refused as a non-empty
/// directory (the conditions below force the `DirectoryNotEmpty` branch of
/// `repo_create`'s contract).
pub proof fn lemma_create_refuses_rerun(m: Map<Seq<Seq<char>>, Option<Seq<char>>>, p: Seq<Seq<char>>)
    requires
        create_pre(m, p),
    ensures
        ({
            let m2 = create_fs(m, p);
            let gd = gitdir_of(p);
            &&& !metadata_root_is_file(m2, gd)
            &&& config_load(m2, gd) is Some
            &&& !(fs_exists(m2, p) && !fs_is_dir(m2, p))
            &&& fs_exists(m2, gd)
            &&& fs_has_child(m2, gd)
        }),
{
    lemma_create_then_open(m, p);
    let gd = gitdir_of(p);
    let mz = create_fs(m, p);
    let m0 = if fs_exists(m, p) {
        m
    } else {
        m.insert(p, None::<Seq<char>>)
    };
    let p1 = gd.push("branches"@);
    let p2 = gd.push("objects"@);
    let p3 = gd.push("refs"@).push("tags"@);
    let p4 = gd.push("refs"@).push("heads"@);
    let m1 = add_dirs(m0, p1);
    let m2 = add_dirs(m1, p2);
    let m3 = add_dirs(m2, p3);
    let m4 = add_dirs(m3, p4);
    let m5 = add_dirs(m4, gd).insert(gd.push("description"@), Some(description_text()));
    let m6 = add_dirs(m5, gd).insert(gd.push("HEAD"@), Some(head_text()));
    let m7 = add_dirs(m6, gd).insert(
        config_path_of(gd),
        Some(render_sections(default_config_view())),
    );
    assert(m7 == mz);
    // the worktree stays a directory
    if p.len() > 0 {
        assert(m0.contains_key(p) && m0[p] is None);
        lemma_add_dirs_preserves(m0, p1, p);
        lemma_add_dirs_preserves(m1, p2, p);
        lemma_add_dirs_preserves(m2, p3, p);
        lemma_add_dirs_preserves(m3, p4, p);
        lemma_add_dirs_preserves(m4, gd, p);
        assert(p != gd.push("description"@));
        lemma_add_dirs_preserves(m5, gd, p);
        assert(p != gd.push("HEAD"@));
        lemma_add_dirs_preserves(m6, gd, p);
        assert(p != config_path_of(gd));
        assert(m7.contains_key(p) && m7[p] is None);
    }
    assert(!(fs_exists(m7, p) && !fs_is_dir(m7, p)));
    // the scaffold leaves a child below the metadata root
    assert(gd.is_prefix_of(p1)) by {
        assert(p1.subrange(0, gd.len() as int) =~= gd);
    }
    lemma_add_dirs_prefix(m0, p1, p1);
    assert(m1.contains_key(p1));
    lemma_add_dirs_preserves(m1, p2, p1);
    lemma_add_dirs_preserves(m2, p3, p1);
    lemma_add_dirs_preserves(m3, p4, p1);
    lemma_add_dirs_preserves(m4, gd, p1);
    assert(m5.contains_key(p1));
    lemma_add_dirs_preserves(m5, gd, p1);
    assert(m6.contains_key(p1));
    lemma_add_dirs_preserves(m6, gd, p1);
    assert(m7.contains_key(p1));
    assert(fs_has_child(m7, gd));
}

/// Law: discovery from any descendant of a repository, however deep, with no
/// nearer repository in between, resolves to that repository's worktree, so
/// `repo_find` from the descendant reports what opening the worktree itself
/// reports.
pub proof fn lemma_discover_finds_repo(
    m: Map<Seq<Seq<char>>, Option<Seq<char>>>,
    p: Seq<Seq<char>>,
    a: Seq<Seq<char>>,
)
    requires
        a.is_prefix_of(p),
        fs_is_dir(m, gitdir_of(a)),
        forall|j: int| a.len() < j <= p.len() ==> !fs_is_dir(m, gitdir_of(#[trigger] p.take(j))),
    ensures
        nearest_repo(m, p) == Some(a),
    decreases p.len(),
{
    if p.len() == a.len() {
        assert(p =~= a);
    } else {
        assert(p.take(p.len() as int) =~= p);
        assert(!fs_is_dir(m, gitdir_of(p)));
        assert(p.len() > 0);
        assert(a.is_prefix_of(p.drop_last())) by {
            assert(p.drop_last().subrange(0, a.len() as int) =~= p.subrange(0, a.len() as int));
        }
        assert(forall|j: int|
            a.len() < j <= p.drop_last().len() ==> !fs_is_dir(
                m,
                gitdir_of(#[trigger] p.drop_last().take(j)),
            )) by {
            assert forall|j: int|
                a.len() < j <= p.drop_last().len() implies !fs_is_dir(
                m,
                gitdir_of(p.drop_last().take(j)),
            ) by {
                assert(p.drop_last().take(j) =~= p.take(j));
            };
        };
        lemma_discover_finds_repo(m, p.drop_last(), a);
    }
}

/// Law: where no ancestor of `p` holds a metadata root, discovery finds
/// nothing, so `repo_find` returns "not found" (or, when required, the
/// `NotARepository` error).
pub proof fn lemma_discover_none(m: Map<Seq<Seq<char>>, Option<Seq<char>>>, p: Seq<Seq<char>>)
    requires
        forall|j: int| 0 <= j <= p.len() ==> !fs_is_dir(m, gitdir_of(#[trigger] p.take(j))),
    ensures
        nearest_repo(m, p) is None,
    decreases p.len(),
{
    assert(p.take(p.len() as int) =~= p);
    assert(!fs_is_dir(m, gitdir_of(p)));
    if p.len() > 0 {
        assert(forall|j: int|
            0 <= j <= p.drop_last().len() ==> !fs_is_dir(
                m,
                gitdir_of(#[trigger] p.drop_last().take(j)),
            )) by {
            assert forall|j: int|
                0 <= j <= p.drop_last().len() implies !fs_is_dir(
                m,
                gitdir_of(p.drop_last().take(j)),
            ) by {
                assert(p.drop_last().take(j) =~= p.take(j));
            };
        };
        lemma_discover_none(m, p.drop_last());
    }
}

} // verus!

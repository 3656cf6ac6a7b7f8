//! The repository handle: the working-tree root, the metadata directory, and
//! the loaded configuration. Paths are byte strings with `/` separators; the
//! surrounding program converts them to and from platform paths.

use vstd::prelude::*;
use crate::error::{WitError, WitErrorType, dir_not_empty_err, not_a_directory_err,
    repo_creation_err, version_mismatch_err};
use crate::kvlm::bytes_eq;
use crate::util::{ascii_bytes, str_bytes, parse_dec, is_dec_digits, dec_val};

verus! {

/// One configuration binding: `(section, key) -> value`.
#[derive(Debug)]
pub struct ConfigEntry {
    pub section: Vec<u8>,
    pub key: Vec<u8>,
    pub value: Vec<u8>,
}

/// The loaded configuration, in insertion order.
#[derive(Debug)]
pub struct Config {
    pub entries: Vec<ConfigEntry>,
}

impl View for Config {
    type V = Seq<(Seq<u8>, Seq<u8>, Seq<u8>)>;

    open spec fn view(&self) -> Seq<(Seq<u8>, Seq<u8>, Seq<u8>)> {
        Seq::new(self.entries@.len(), |i: int|
            (self.entries@[i].section@, self.entries@[i].key@, self.entries@[i].value@))
    }
}

/// The value of the first binding of `(section, key)`, if any.
pub open spec fn spec_config_get(
    entries: Seq<(Seq<u8>, Seq<u8>, Seq<u8>)>,
    section: Seq<u8>,
    key: Seq<u8>,
) -> Option<Seq<u8>>
    decreases entries.len(),
{
    if entries.len() == 0 {
        None
    } else if entries[0].0 == section && entries[0].1 == key {
        Some(entries[0].2)
    } else {
        spec_config_get(entries.skip(1), section, key)
    }
}

/// A first match with none before it pins `spec_config_get`.
proof fn lemma_config_get_is(
    entries: Seq<(Seq<u8>, Seq<u8>, Seq<u8>)>,
    section: Seq<u8>,
    key: Seq<u8>,
    i: int,
)
    requires
        0 <= i < entries.len(),
        entries[i].0 == section && entries[i].1 == key,
        forall|j: int| 0 <= j < i ==> !((#[trigger] entries[j]).0 == section && entries[j].1 == key),
    ensures
        spec_config_get(entries, section, key) == Some(entries[i].2),
    decreases i,
{
    if i > 0 {
        assert(entries.skip(1)[i - 1] == entries[i]);
        assert forall|j: int| 0 <= j < i - 1 implies !((#[trigger] entries.skip(1)[j]).0 == section
            && entries.skip(1)[j].1 == key) by {
            assert(entries.skip(1)[j] == entries[j + 1]);
        }
        lemma_config_get_is(entries.skip(1), section, key, i - 1);
    }
}

/// No match at all pins `spec_config_get` to `None`.
proof fn lemma_config_get_none(
    entries: Seq<(Seq<u8>, Seq<u8>, Seq<u8>)>,
    section: Seq<u8>,
    key: Seq<u8>,
)
    requires
        forall|j: int|
            0 <= j < entries.len() ==> !((#[trigger] entries[j]).0 == section && entries[j].1
                == key),
    ensures
        spec_config_get(entries, section, key) is None,
    decreases entries.len(),
{
    if entries.len() > 0 {
        assert forall|j: int| 0 <= j < entries.skip(1).len() implies !((#[trigger] entries.skip(
            1,
        )[j]).0 == section && entries.skip(1)[j].1 == key) by {
            assert(entries.skip(1)[j] == entries[j + 1]);
        }
        lemma_config_get_none(entries.skip(1), section, key);
    }
}

impl Config {
    /// An empty configuration.
    pub fn new() -> (r: Config)
        ensures
            r@.len() == 0,
    {
        Config { entries: Vec::new() }
    }

    /// Appends a binding. Later bindings of the same pair are shadowed by
    /// the first, so `set` on a fresh configuration defines the value.
    pub fn set(&mut self, section: Vec<u8>, key: Vec<u8>, value: Vec<u8>)
        ensures
            final(self)@ == old(self)@.push((section@, key@, value@)),
    {
        self.entries.push(ConfigEntry { section, key, value });
        proof {
            assert(self@ =~= old(self)@.push(
                (
                    self.entries@.last().section@,
                    self.entries@.last().key@,
                    self.entries@.last().value@,
                ),
            ));
        }
    }

    /// The value bound to `(section, key)`, if any.
    pub fn get<'a>(&'a self, section: &Vec<u8>, key: &Vec<u8>) -> (r: Option<&'a Vec<u8>>)
        ensures
            match r {
                Some(v) => spec_config_get(self@, section@, key@) == Some(v@),
                None => spec_config_get(self@, section@, key@) is None,
            },
    {
        let ghost es = self@;
        let mut i: usize = 0;
        while i < self.entries.len()
            invariant
                i <= self.entries@.len(),
                es == self@,
                es.len() == self.entries@.len(),
                forall|j: int| 0 <= j < i ==> !((#[trigger] es[j]).0 == section@ && es[j].1 == key@),
            decreases self.entries@.len() - i,
        {
            let e = &self.entries[i];
            proof {
                assert(es[i as int] == (e.section@, e.key@, e.value@));
            }
            if bytes_eq(&e.section, section) && bytes_eq(&e.key, key) {
                proof {
                    lemma_config_get_is(es, section@, key@, i as int);
                }
                return Some(&self.entries[i].value);
            }
            i = i + 1;
        }
        proof {
            lemma_config_get_none(es, section@, key@);
        }
        None
    }
}

/// The configuration a fresh repository is created with: format version 0,
/// no file-mode tracking, not bare.
pub fn default_config() -> (r: Config)
    ensures
        r@ =~= seq![
            (ascii_bytes("core"@), ascii_bytes("repositoryformatversion"@), ascii_bytes("0"@)),
            (ascii_bytes("core"@), ascii_bytes("filemode"@), ascii_bytes("false"@)),
            (ascii_bytes("core"@), ascii_bytes("bare"@), ascii_bytes("false"@)),
        ],
{
    proof {
        reveal_strlit("core");
        reveal_strlit("repositoryformatversion");
        reveal_strlit("0");
        reveal_strlit("filemode");
        reveal_strlit("bare");
        reveal_strlit("false");
    }
    let mut c = Config::new();
    c.set(str_bytes("core"), str_bytes("repositoryformatversion"), str_bytes("0"));
    c.set(str_bytes("core"), str_bytes("filemode"), str_bytes("false"));
    c.set(str_bytes("core"), str_bytes("bare"), str_bytes("false"));
    c
}

/// A repository: the working tree, its metadata directory, and the loaded
/// configuration.
#[derive(Debug)]
pub struct Repository {
    pub worktree: Vec<u8>,
    pub git_dir: Vec<u8>,
    pub conf: Config,
}

/// The single supported repository format version.
pub open spec fn supported_format_version() -> int {
    0
}

/// Whether a configuration names a supported repository format version:
/// the `core.repositoryformatversion` value must be decimal digits reading
/// exactly the supported version.
pub open spec fn version_ok(conf: Seq<(Seq<u8>, Seq<u8>, Seq<u8>)>) -> bool {
    match spec_config_get(
        conf,
        ascii_bytes("core"@),
        ascii_bytes("repositoryformatversion"@),
    ) {
        None => false,
        Some(v) => is_dec_digits(v) && dec_val(v) == supported_format_version(),
    }
}

impl Repository {
    /// Builds a repository handle on `path` with the configuration read from
    /// its metadata directory, or `None` when no configuration file exists.
    /// Without `force`, a missing configuration is an error and the format
    /// version must be the supported one; with `force` nothing is checked.
    pub fn new(path: &Vec<u8>, force: bool, conf: Option<Config>) -> (r: Result<
        Repository,
        WitError,
    >)
        ensures
            match r {
                Ok(repo) => {
                    &&& repo.worktree@ == path@
                    &&& repo.git_dir@ == path@ + ascii_bytes("/.git"@)
                    &&& (match conf {
                        Some(c) => repo.conf@ == c@,
                        None => force && repo.conf@.len() == 0,
                    })
                    &&& (!force ==> conf is Some && version_ok(repo.conf@))
                },
                Err(e) => {
                    &&& (match conf {
                        None => !force && e.error == WitErrorType::RepoCreationError,
                        Some(c) => !force && !version_ok(c@) && e.error
                            == WitErrorType::VersionMismatchError,
                    })
                },
            },
    {
        let mut git_dir: Vec<u8> = Vec::new();
        git_dir.extend_from_slice(path.as_slice());
        proof {
            reveal_strlit("/.git");
        }
        let dot_git = str_bytes("/.git");
        git_dir.extend_from_slice(dot_git.as_slice());
        proof {
            assert(git_dir@ =~= path@ + ascii_bytes("/.git"@));
        }
        let config = match conf {
            Some(c) => c,
            None => {
                if force {
                    Config::new()
                } else {
                    return Err(
                        repo_creation_err("Could not read the repository configuration.".to_owned()),
                    );
                }
            },
        };
        if !force {
            proof {
                reveal_strlit("core");
                reveal_strlit("repositoryformatversion");
            }
            let section = str_bytes("core");
            let key = str_bytes("repositoryformatversion");
            let version_value = match config.get(&section, &key) {
                Some(v) => v,
                None => {
                    return Err(
                        version_mismatch_err(
                            "Could not read repository format version from config.".to_owned(),
                        ),
                    );
                },
            };
            let version = match parse_dec(version_value.as_slice()) {
                Some(v) => v,
                None => {
                    return Err(
                        version_mismatch_err(
                            "Repository format version is not a number.".to_owned(),
                        ),
                    );
                },
            };
            if version != 0 {
                return Err(
                    version_mismatch_err("Unsupported repository format version.".to_owned()),
                );
            }
        }
        let mut worktree: Vec<u8> = Vec::new();
        worktree.extend_from_slice(path.as_slice());
        proof {
            assert(worktree@ =~= path@);
        }
        Ok(Repository { worktree, git_dir, conf: config })
    }

    /// A path under the metadata directory: the fragments joined by `/`.
    pub fn path(base: &Repository, paths: &Vec<Vec<u8>>) -> (r: Vec<u8>)
        ensures
            r@ == spec_repo_path(base.git_dir@, crate::kvlm::vals_view(paths@)),
    {
        let ghost fragments = crate::kvlm::vals_view(paths@);
        let mut r: Vec<u8> = Vec::new();
        r.extend_from_slice(base.git_dir.as_slice());
        let mut i: usize = 0;
        proof {
            assert(fragments.take(0) =~= Seq::<Seq<u8>>::empty());
            assert(r@ =~= spec_repo_path(base.git_dir@, fragments.take(0)));
        }
        while i < paths.len()
            invariant
                i <= paths@.len(),
                fragments == crate::kvlm::vals_view(paths@),
                fragments.len() == paths@.len(),
                r@ == spec_repo_path(base.git_dir@, fragments.take(i as int)),
            decreases paths@.len() - i,
        {
            let ghost pre = r@;
            r.push(47);
            r.extend_from_slice(paths[i].as_slice());
            proof {
                assert(fragments[i as int] == paths@[i as int]@);
                lemma_repo_path_push(base.git_dir@, fragments.take(i as int), fragments[i as int]);
                assert(fragments.take(i + 1) =~= fragments.take(i as int).push(
                    fragments[i as int],
                ));
                assert(r@ =~= spec_repo_path(base.git_dir@, fragments.take(i + 1)));
            }
            i = i + 1;
        }
        proof {
            assert(fragments.take(i as int) =~= fragments);
        }
        r
    }
}

/// Decides whether a destination may receive a new repository or a checkout,
/// from what the filesystem reports of it: a missing path must be created;
/// an existing path must be a directory, else a not-a-directory error, and
/// empty, else a directory-not-empty error; an existing empty directory is
/// used as it is. Returns whether the destination still has to be created.
pub fn validate_destination(path: &str, exists: bool, is_dir: bool, is_empty: bool) -> (r: Result<
    bool,
    WitError,
>)
    ensures
        !exists ==> (r matches Ok(create) && create == true),
        exists && !is_dir ==> (r matches Err(e) && e.error == WitErrorType::NotADirectoryError
            && e.message@ == path@),
        exists && is_dir && !is_empty ==> (r matches Err(e) && e.error
            == WitErrorType::DirectoryNotEmptyError && e.message@ == path@),
        exists && is_dir && is_empty ==> (r matches Ok(create) && create == false),
{
    if !exists {
        return Ok(true);
    }
    if !is_dir {
        return Err(not_a_directory_err(path));
    }
    if !is_empty {
        return Err(dir_not_empty_err(path));
    }
    Ok(false)
}

/// A base path with fragments appended, each preceded by `/`.
pub open spec fn spec_repo_path(base: Seq<u8>, fragments: Seq<Seq<u8>>) -> Seq<u8>
    decreases fragments.len(),
{
    if fragments.len() == 0 {
        base
    } else {
        spec_repo_path(base + seq![47u8] + fragments[0], fragments.skip(1))
    }
}

/// Appending one more fragment extends the joined path.
proof fn lemma_repo_path_push(base: Seq<u8>, fragments: Seq<Seq<u8>>, f: Seq<u8>)
    ensures
        spec_repo_path(base, fragments.push(f)) == spec_repo_path(base, fragments) + seq![47u8] + f,
    decreases fragments.len(),
{
    if fragments.len() == 0 {
        assert(fragments.push(f)[0] == f);
        assert(fragments.push(f).skip(1) =~= Seq::<Seq<u8>>::empty());
        assert(spec_repo_path(base, fragments.push(f)) == spec_repo_path(
            base + seq![47u8] + f,
            Seq::<Seq<u8>>::empty(),
        ));
    } else {
        assert(fragments.push(f)[0] == fragments[0]);
        assert(fragments.push(f).skip(1) =~= fragments.skip(1).push(f));
        lemma_repo_path_push(base + seq![47u8] + fragments[0], fragments.skip(1), f);
    }
}

} // verus!

//! Configuration.
//!
//! rbuild is configured once, globally: a remote to build on, one or more
//! *code roots* (directories like `~/Code` that hold all your projects), and
//! shared build settings. There is no per-project file: pointing rbuild at a
//! code root makes every project beneath it work, and your code directories
//! stay clean (shims and state live under rbuild's own config dir).

use vstd::prelude::*;
use vstd::string::StringExecFns;
use vstd::utf8::{encode_scalar, encode_utf8};

use crate::daemon::sync::plain_id;
use crate::hash::{blake3_digest, hex_text, lemma_hex_text_len};
use crate::path::{
    components, extend, extended, is_below, law_rest_keeps_the_components, name_on, own_name_on,
    portable, portable_text, rest, same_path, starts_with, strip_dir,
};
use crate::proto::Target;
use crate::text::{digit, from_chars, has_text, occurs_at, replace_char, replaced, to_chars, views};

verus! {

#[derive(Debug)]
pub struct GlobalConfig {
    pub remote: RemoteConfig,
    /// Registered code roots. A directory at or below one is "inside rbuild":
    /// its build commands are intercepted and its tree syncs to the remote.
    pub roots: Vec<Root>,
    pub build: BuildSettings,
}

/// A code root: a local directory and the name of the workspace it maps to on
/// the remote. Giving two machines' roots the *same* `name` makes them share
/// one remote workspace (and merge).
#[derive(Debug)]
pub struct Root {
    pub path: String,
    /// Shared workspace name. Two roots with the same name (on any machine)
    /// map to the same remote workspace.
    pub name: String,
}

#[derive(Debug)]
pub struct RemoteConfig {
    /// SSH destination, e.g. `build-host` or `user@1.2.3.4`. Resolved through
    /// the user's normal SSH config.
    pub host: String,
    /// Optional explicit identity file, otherwise SSH picks per its own config.
    pub identity_file: Option<String>,
    /// How to invoke Docker on the remote: `docker` or `sudo docker`. Detected
    /// on first connect (some hosts need sudo for the Docker socket) and cached
    /// here. Empty means "not yet detected".
    pub docker: String,
}

/// Build behavior shared across every code root.
#[derive(Debug)]
pub struct BuildSettings {
    /// Build commands to intercept by argv[0]. Anything not listed is never
    /// shimmed, so `grep`, `cd`, and the like always run locally.
    pub commands: Vec<String>,
    /// Container image for Linux-target builds.
    pub linux_image: String,
    /// Container image for Windows-target builds (Wine).
    pub wine_image: String,
    /// Globs (relative to the directory a build runs in) to sync back as
    /// artifacts. Only these are mirrored from the remote.
    pub artifacts: Vec<String>,
}

/// The commands that are intercepted unless the configuration says otherwise.
pub open spec fn default_command_names() -> Seq<Seq<char>> {
    seq![
        "cargo"@,
        "cmake"@,
        "make"@,
        "gradle"@,
        "mvn"@,
        "pip"@,
        "npm"@,
        "go"@,
        "msbuild"@,
    ]
}

/// The commands that are intercepted unless the configuration says otherwise.
pub fn default_commands() -> (list: Vec<String>)
    ensures
        views(list@) == default_command_names(),
{
    let list = vec![
        "cargo".to_owned(),
        "cmake".to_owned(),
        "make".to_owned(),
        "gradle".to_owned(),
        "mvn".to_owned(),
        "pip".to_owned(),
        "npm".to_owned(),
        "go".to_owned(),
        "msbuild".to_owned(),
    ];
    assert(views(list@) =~= default_command_names());
    list
}

pub fn default_linux_image() -> (image: String)
    ensures
        image@ == "rbuild/linux:latest"@,
{
    "rbuild/linux:latest".to_owned()
}

pub fn default_wine_image() -> (image: String)
    ensures
        image@ == "rbuild/wine:latest"@,
{
    "rbuild/wine:latest".to_owned()
}

pub fn default_artifacts() -> (globs: Vec<String>)
    ensures
        views(globs@) == seq!["target/**"@],
{
    let globs = vec!["target/**".to_owned()];
    assert(views(globs@) =~= seq!["target/**"@]);
    globs
}

impl Default for BuildSettings {
    fn default() -> (settings: BuildSettings)
        ensures
            views(settings.commands@) == default_command_names(),
            settings.linux_image@ == "rbuild/linux:latest"@,
            settings.wine_image@ == "rbuild/wine:latest"@,
            views(settings.artifacts@) == seq!["target/**"@],
    {
        BuildSettings {
            commands: default_commands(),
            linux_image: default_linux_image(),
            wine_image: default_wine_image(),
            artifacts: default_artifacts(),
        }
    }
}

/// A build location: which code root, the workspace id it maps to on the
/// remote, and the directory the command runs in relative to that root.
#[derive(Debug)]
pub struct Location {
    pub root: String,
    pub workspace_id: String,
    pub rel_cwd: String,
}

/// Why the configuration could not be found.
#[derive(Debug, Clone, Copy, PartialEq, Eq, Structural)]
pub enum ConfigError {
    /// The system names no directory for configuration.
    NoConfigDir,
}

impl ConfigError {
    /// What went wrong, in words.
    pub fn message(&self) -> (text: String)
        ensures
            text@ == "could not determine config directory"@,
    {
        "could not determine config directory".to_owned()
    }
}

/// Whether a name is a plain word: lowercase ASCII letters only, and at least
/// one.
pub open spec fn is_word(name: Seq<char>) -> bool {
    name.len() > 0 && forall|i: int| 0 <= i < name.len() ==> 'a' <= #[trigger] name[i] <= 'z'
}

/// Whether a character separates the components of a path on some platform.
pub open spec fn separates(c: char) -> bool {
    c == '/' || c == '\\'
}

/// Whether a directory belongs to an application: one of the components after
/// its first is the application's name.
pub open spec fn belongs_to(dir: Seq<char>, name: Seq<char>) -> bool {
    exists|i: int| #[trigger]
        occurs_at(dir, name, i) && i > 0 && separates(dir[i - 1]) && (i + name.len() == dir.len()
            || separates(dir[i + name.len()]))
}

/// Calls `directories::ProjectDirs::from` for an application without qualifier
/// and organization, and reads off `config_dir`, as text.
///
/// Believed of the crate: a directory that it gives for an application whose
/// name is a plain word has that name among its components, on every platform.
/// Whether it gives one, and what stands around the name, depends on the system
/// and the environment and is not claimed.
#[verifier::external_body]
fn project_config_dir(application: &str) -> (dir: Option<String>)
    ensures
        dir matches Some(d) ==> is_word(application@) ==> belongs_to(d@, application@),
{
    directories::ProjectDirs::from("", "", application).map(
        |dirs| dirs.config_dir().to_string_lossy().into_owned(),
    )
}

/// The root that `cwd` belongs to: of those at or above it the one whose path
/// is longest, and the last of several that are equally long.
pub open spec fn chosen(roots: Seq<Root>, cwd: Seq<char>, k: int) -> bool {
    &&& 0 <= k < roots.len()
    &&& starts_with(cwd, roots[k].path@)
    &&& forall|j: int|
        0 <= j < roots.len() && starts_with(cwd, (#[trigger] roots[j]).path@) ==> {
            &&& byte_len(roots[j].path@) <= byte_len(roots[k].path@)
            &&& j > k ==> byte_len(roots[j].path@) < byte_len(roots[k].path@)
        }
}

/// The length of a text in bytes.
pub open spec fn byte_len(s: Seq<char>) -> nat {
    encode_utf8(s).len()
}

/// The first root with the same path as `dir`, component by component.
pub open spec fn registered(roots: Seq<Root>, dir: Seq<char>, k: int) -> bool {
    &&& 0 <= k < roots.len()
    &&& components(roots[k].path@) == components(dir)
    &&& forall|j: int| 0 <= j < k ==> components((#[trigger] roots[j]).path@) != components(dir)
}

impl Root {
    /// The remote workspace id this root maps to: a function of the shared
    /// name, so different local paths with the same name meet intentionally.
    pub fn workspace_id(&self) -> (id: String)
        ensures
            id@ == workspace_id(self.name@),
            plain_id(id@),
    {
        workspace_id_for_name(self.name.as_str())
    }
}

impl GlobalConfig {
    /// What the directory for configuration is called, if the system has one:
    /// it is rbuild's own. Whether there is one depends on the environment.
    pub fn config_dir() -> (dir: Result<String, ConfigError>)
        ensures
            match dir {
                Ok(d) => belongs_to(d@, "rbuild"@),
                Err(e) => e == ConfigError::NoConfigDir,
            },
    {
        proof {
            reveal_strlit("rbuild");
            assert(is_word("rbuild"@));
        }
        GlobalConfig::config_dir_from(project_config_dir("rbuild"))
    }

    /// The directory for configuration, given what the system calls it.
    pub fn config_dir_from(found: Option<String>) -> (dir: Result<String, ConfigError>)
        ensures
            match found {
                Some(d) => dir == Ok::<String, ConfigError>(d),
                None => dir == Err::<String, ConfigError>(ConfigError::NoConfigDir),
            },
    {
        match found {
            Some(d) => Ok(d),
            None => Err(ConfigError::NoConfigDir),
        }
    }

    /// The configuration file in a configuration directory.
    pub fn path_in(config_dir: &str) -> (path: String)
        ensures
            path@ == extended(config_dir@, "config.toml"@),
    {
        extend(config_dir, "config.toml")
    }

    /// The shim directory in a configuration directory.
    pub fn shim_dir_in(config_dir: &str) -> (path: String)
        ensures
            path@ == extended(config_dir@, "shims"@),
    {
        extend(config_dir, "shims")
    }

    /// The configuration file, in rbuild's own configuration directory.
    pub fn path() -> (path: Result<String, ConfigError>)
        ensures
            match path {
                Ok(p) => exists|dir: Seq<char>|
                    belongs_to(dir, "rbuild"@) && p@ == #[trigger] extended(dir, "config.toml"@),
                Err(e) => e == ConfigError::NoConfigDir,
            },
    {
        match GlobalConfig::config_dir() {
            Ok(dir) => Ok(GlobalConfig::path_in(dir.as_str())),
            Err(e) => Err(e),
        }
    }

    /// The single directory holding the command shims, on PATH only while a
    /// shell is inside a code root. Lives under the config dir so code roots
    /// stay clean.
    pub fn shim_dir() -> (path: Result<String, ConfigError>)
        ensures
            match path {
                Ok(p) => exists|dir: Seq<char>|
                    belongs_to(dir, "rbuild"@) && p@ == #[trigger] extended(dir, "shims"@),
                Err(e) => e == ConfigError::NoConfigDir,
            },
    {
        match GlobalConfig::config_dir() {
            Ok(dir) => Ok(GlobalConfig::shim_dir_in(dir.as_str())),
            Err(e) => Err(e),
        }
    }

    /// A minimal configuration: no remote, no code root, and the default build
    /// settings.
    pub fn minimal() -> (config: GlobalConfig)
        ensures
            config.is_minimal(),
    {
        let config = GlobalConfig {
            remote: RemoteConfig {
                host: String::new(),
                identity_file: None,
                docker: String::new(),
            },
            roots: Vec::new(),
            build: BuildSettings::default(),
        };
        config
    }

    /// Whether nothing has been set up: no remote, no code root, and the default
    /// build settings.
    pub open spec fn is_minimal(self) -> bool {
        &&& self.remote.host@.len() == 0
        &&& self.remote.identity_file is None
        &&& self.remote.docker@.len() == 0
        &&& self.roots@.len() == 0
        &&& views(self.build.commands@) == default_command_names()
        &&& self.build.linux_image@ == "rbuild/linux:latest"@
        &&& self.build.wine_image@ == "rbuild/wine:latest"@
        &&& views(self.build.artifacts@) == seq!["target/**"@]
    }

    /// The configuration if it could be loaded, else a minimal default (used by
    /// the hook and shim fast paths, where absence simply means "not set up").
    pub fn load_or_default<E>(loaded: Result<GlobalConfig, E>) -> (config: Option<GlobalConfig>)
        ensures
            match loaded {
                Ok(c) => config == Some(c),
                Err(_) => config matches Some(c) && c.is_minimal(),
            },
    {
        match loaded {
            Ok(c) => Some(c),
            Err(_) => Some(GlobalConfig::minimal()),
        }
    }

    /// The configuration with the paths of its roots in portable form, as every
    /// path is that they are compared with.
    pub fn with_portable_roots(self, windows: bool) -> (config: GlobalConfig)
        ensures
            config.remote == self.remote,
            config.build == self.build,
            config.roots@.len() == self.roots@.len(),
            forall|i: int|
                0 <= i < config.roots@.len() ==> (#[trigger] config.roots@[i]).path@
                    == portable_text(self.roots@[i].path@, windows) && config.roots@[i].name
                    == self.roots@[i].name,
    {
        let GlobalConfig { remote, roots: listed, build } = self;
        let mut roots: Vec<Root> = Vec::new();
        let mut i: usize = 0;
        while i < listed.len()
            invariant
                i <= listed@.len(),
                roots@.len() == i,
                forall|j: int|
                    0 <= j < i ==> (#[trigger] roots@[j]).path@ == portable_text(
                        listed@[j].path@,
                        windows,
                    ) && roots@[j].name == listed@[j].name,
            decreases listed@.len() - i,
        {
            let r = &listed[i];
            roots.push(Root { path: portable(r.path.as_str(), windows), name: r.name.clone() });
            i = i + 1;
        }
        GlobalConfig { remote, roots, build }
    }

    /// Adds a code root (idempotently by path) with the given workspace name.
    /// If a root for the same path exists, its name is updated.
    pub fn add_root(&mut self, dir: &str, name: String)
        ensures
            final(self).remote == old(self).remote,
            final(self).build == old(self).build,
            forall|k: int| #[trigger]
                registered(old(self).roots@, dir@, k) ==> final(self).roots@ == old(
                    self,
                ).roots@.update(k, Root { path: old(self).roots@[k].path, name }),
            (forall|k: int| !#[trigger] registered(old(self).roots@, dir@, k)) ==> {
                let n = old(self).roots@.len() as int;
                &&& final(self).roots@.len() == n + 1
                &&& final(self).roots@.take(n) == old(self).roots@
                &&& final(self).roots@[n].path@ == dir@
                &&& final(self).roots@[n].name == name
            },
            exists|k: int|
                0 <= k < final(self).roots@.len() && components(
                    (#[trigger] final(self).roots@[k]).path@,
                ) == components(dir@) && final(self).roots@[k].name == name,
            old(self).roots@.len() <= final(self).roots@.len() <= old(self).roots@.len() + 1,
            forall|j: int|
                0 <= j < old(self).roots@.len() ==> {
                    &&& (#[trigger] final(self).roots@[j]).path == old(self).roots@[j].path
                    &&& components(old(self).roots@[j].path@) != components(dir@)
                        ==> final(self).roots@[j] == old(self).roots@[j]
                },
            (exists|j: int|
                0 <= j < old(self).roots@.len() && components((#[trigger] old(self).roots@[j]).path@)
                    == components(dir@)) ==> final(self).roots@.len() == old(self).roots@.len(),
    {
        let mut i: usize = 0;
        while i < self.roots.len()
            invariant
                i <= self.roots@.len(),
                *self == *old(self),
                forall|j: int|
                    0 <= j < i ==> components((#[trigger] self.roots@[j]).path@) != components(
                        dir@,
                    ),
            decreases self.roots@.len() - i,
        {
            if same_path(self.roots[i].path.as_str(), dir) {
                assert(registered(old(self).roots@, dir@, i as int));
                let path = self.roots[i].path.clone();
                self.roots.set(i, Root { path, name });
                proof {
                    assert(components(self.roots@[i as int].path@) == components(dir@));
                    assert forall|k: int| #[trigger]
                        registered(old(self).roots@, dir@, k) implies k == i by {
                        if k > i {
                            assert(components(old(self).roots@[i as int].path@) != components(dir@));
                        }
                    }
                }
                return;
            }
            i = i + 1;
        }
        let ghost before = self.roots@;
        self.roots.push(Root { path: dir.to_owned(), name });
        proof {
            assert(self.roots@.take(before.len() as int) =~= before);
            assert forall|k: int| !#[trigger] registered(before, dir@, k) by {
                if registered(before, dir@, k) {
                    assert(components(before[k].path@) != components(dir@));
                }
            }
        }
    }

    /// Returns the build location for `cwd` if it lies within a registered code
    /// root. When roots nest, the deepest (longest) match wins.
    pub fn locate(&self, cwd: &str) -> (found: Option<Location>)
        ensures
            match found {
                None => forall|k: int|
                    0 <= k < self.roots@.len() ==> !starts_with(
                        cwd@,
                        (#[trigger] self.roots@[k]).path@,
                    ),
                Some(l) => exists|k: int| #[trigger]
                    chosen(self.roots@, cwd@, k) && l.root == self.roots@[k].path
                        && l.workspace_id@ == workspace_id(self.roots@[k].name@) && l.rel_cwd@
                        == replaced(
                        rest(cwd@, components(self.roots@[k].path@).len() as int),
                        '\\',
                        '/',
                    ),
            },
    {
        let mut best: Option<usize> = None;
        let mut i: usize = 0;
        while i < self.roots.len()
            invariant
                i <= self.roots@.len(),
                match best {
                    None => forall|j: int|
                        0 <= j < i ==> !starts_with(cwd@, (#[trigger] self.roots@[j]).path@),
                    Some(b) => b < i && chosen(self.roots@.take(i as int), cwd@, b as int),
                },
            decreases self.roots@.len() - i,
        {
            let ghost seen = self.roots@.take(i as int);
            let ghost now = self.roots@.take(i + 1);
            if is_below(cwd, self.roots[i].path.as_str()) {
                let better = match best {
                    None => true,
                    Some(b) => self.roots[b].path.as_str().as_bytes().len()
                        <= self.roots[i].path.as_str().as_bytes().len(),
                };
                if better {
                    proof {
                        assert forall|j: int|
                            0 <= j < now.len() && starts_with(
                                cwd@,
                                (#[trigger] now[j]).path@,
                            ) implies byte_len(now[j].path@) <= byte_len(now[i as int].path@) by {
                            if j < i {
                                assert(now[j] == self.roots@[j]);
                                assert(now[j] == seen[j]);
                            }
                        }
                        assert(chosen(now, cwd@, i as int));
                    }
                    best = Some(i);
                } else {
                    proof {
                        let b = best->0 as int;
                        assert(now[b] == seen[b]);
                        assert forall|j: int|
                            0 <= j < now.len() && starts_with(
                                cwd@,
                                (#[trigger] now[j]).path@,
                            ) implies byte_len(now[j].path@) <= byte_len(now[b].path@) && (j > b
                            ==> byte_len(now[j].path@) < byte_len(now[b].path@)) by {
                            if j < i {
                                assert(now[j] == seen[j]);
                            }
                        }
                        assert(chosen(now, cwd@, b));
                    }
                }
            } else {
                proof {
                    if best is Some {
                        let b = best->0 as int;
                        assert(now[b] == seen[b]);
                        assert forall|j: int|
                            0 <= j < now.len() && starts_with(
                                cwd@,
                                (#[trigger] now[j]).path@,
                            ) implies byte_len(now[j].path@) <= byte_len(now[b].path@) && (j > b
                            ==> byte_len(now[j].path@) < byte_len(now[b].path@)) by {
                            if j < i {
                                assert(now[j] == seen[j]);
                            }
                        }
                        assert(chosen(now, cwd@, b));
                    }
                }
            }
            i = i + 1;
        }
        assert(self.roots@.take(self.roots@.len() as int) =~= self.roots@);
        match best {
            None => None,
            Some(b) => {
                let root = &self.roots[b];
                let rel_cwd = match strip_dir(cwd, root.path.as_str()) {
                    Some(tail) => replace_char(tail.as_str(), '\\', '/'),
                    None => String::new(),
                };
                Some(
                    Location {
                        root: root.path.clone(),
                        workspace_id: root.workspace_id(),
                        rel_cwd,
                    },
                )
            },
        }
    }

    /// Image to use for a target.
    pub fn image_for(&self, target: Target) -> (image: &str)
        ensures
            image@ == match target {
                Target::Linux => self.build.linux_image@,
                Target::Windows => self.build.wine_image@,
            },
    {
        match target {
            Target::Linux => self.build.linux_image.as_str(),
            Target::Windows => self.build.wine_image.as_str(),
        }
    }
}

/// Default workspace name for a freshly added root: the directory's own name.
/// Same-named folders on different machines therefore share a workspace (e.g.
/// `~/Code` and `D:/Code` are both `Code`); differently-named folders stay
/// separate. A directory without a name of its own, such as a drive's root on
/// Windows, is called `root`.
pub fn default_workspace_name(root: &str, windows: bool) -> (name: String)
    ensures
        name@ == match name_on(root@, windows) {
            Some(n) => n,
            None => "root"@,
        },
{
    match own_name_on(root, windows) {
        Some(n) => n,
        None => "root".to_owned(),
    }
}

/// Whether a character stands in a workspace id as it is.
pub open spec fn is_safe(c: char) -> bool {
    'a' <= c <= 'z' || 'A' <= c <= 'Z' || '0' <= c <= '9' || c == '-' || c == '_'
}

/// The text with every unsafe character replaced by a dash.
pub open spec fn made_safe(s: Seq<char>) -> Seq<char> {
    s.map_values(
        |c: char|
            if is_safe(c) {
                c
            } else {
                '-'
            },
    )
}

/// How much of the name a workspace id shows.
pub const ID_PREFIX: usize = 24;

/// How many digits of the name's digest a workspace id shows.
pub const ID_DIGITS: usize = 12;

/// The id of a workspace: the start of its name, made safe, and the start of
/// the digest of the full name.
pub open spec fn workspace_id(name: Seq<char>) -> Seq<char> {
    let prefix = if name.len() <= ID_PREFIX {
        made_safe(name)
    } else {
        made_safe(name).take(ID_PREFIX as int)
    };
    prefix + "-"@ + hex_text(blake3_digest(encode_utf8(name))).take(ID_DIGITS as int)
}

/// Stable workspace id from a (possibly shared) workspace name. Two machines
/// that use the same name get the same id, hence the same remote workspace.
/// Whatever the name, the id is a safe single path segment.
pub fn workspace_id_for_name(name: &str) -> (id: String)
    ensures
        id@ == workspace_id(name@),
        plain_id(id@),
{
    // Keep a readable prefix, disambiguated by a hash of the full name so that
    // odd characters or long names still produce a safe single-segment id.
    let chars = to_chars(name);
    let mut id = String::new();
    let mut i: usize = 0;
    while i < chars.len() && i < ID_PREFIX
        invariant
            i <= chars@.len(),
            i <= ID_PREFIX,
            id@ =~= made_safe(chars@).take(i as int),
            forall|j: int| 0 <= j < id@.len() ==> is_safe(#[trigger] id@[j]),
        decreases chars@.len() - i,
    {
        let c = chars[i];
        let safe = ('a' <= c && c <= 'z') || ('A' <= c && c <= 'Z') || ('0' <= c && c <= '9') || c
            == '-' || c == '_';
        id.push(
            if safe {
                c
            } else {
                '-'
            },
        );
        i = i + 1;
    }
    assert(made_safe(chars@).take(chars@.len() as int) =~= made_safe(chars@));
    let digest = crate::hash::Hash::of(name.as_bytes()).to_hex();
    let ghost prefix = id@;
    proof {
        lemma_hex_text_len(blake3_digest(encode_utf8(name@)));
        reveal_strlit("-");
    }
    let digits = to_chars(digest.as_str());
    assert(digits@.take(12) =~= digits@.subrange(0, 12));
    id.append("-");
    id.append(from_chars(&digits[0..ID_DIGITS]).as_str());
    proof {
        let hex = hex_text(blake3_digest(encode_utf8(name@)));
        assert forall|j: int| 0 <= j < id@.len() implies is_safe(#[trigger] id@[j]) by {
            if j > prefix.len() {
                let d = j - prefix.len() - 1;
                assert(id@[j] == hex[d]);
                let v = choose|v: int| 0 <= v < 16 && hex[d] == #[trigger] digit(v);
                assert(is_safe(digit(v)));
            }
        }
        lemma_safe_is_plain(id@);
    }
    id
}

proof fn lemma_safe_is_plain(id: Seq<char>)
    requires
        id.len() > 0,
        forall|j: int| 0 <= j < id.len() ==> is_safe(#[trigger] id[j]),
    ensures
        plain_id(id),
{
    if id.contains('/') {
        assert(is_safe(id[id.index_of('/')]));
    }
    if id.contains('\\') {
        assert(is_safe(id[id.index_of('\\')]));
    }
    if has_text(id, ".."@) {
        reveal_strlit("..");
        let i = choose|i: int| occurs_at(id, ".."@, i);
        assert(id.subrange(i, i + 2)[0] == '.');
        assert(is_safe(id[i]));
    }
}

/// A path written plainly: its components with one separator between them.
pub open spec fn written(parts: Seq<Seq<char>>) -> Seq<char>
    decreases parts.len(),
{
    if parts.len() == 0 {
        Seq::empty()
    } else {
        let dir = written(parts.drop_last());
        if dir.len() == 0 || dir.last() == '/' {
            dir + parts.last()
        } else {
            dir.push('/') + parts.last()
        }
    }
}

proof fn lemma_byte_len_concat(a: Seq<char>, b: Seq<char>)
    ensures
        byte_len(a + b) == byte_len(a) + byte_len(b),
    decreases a.len(),
{
    if a.len() == 0 {
        assert(a + b =~= b);
    } else {
        assert((a + b).drop_first() =~= a.drop_first() + b);
        assert((a + b)[0] == a[0]);
        lemma_byte_len_concat(a.drop_first(), b);
    }
}

proof fn lemma_byte_len_positive(a: Seq<char>)
    requires
        a.len() > 0,
    ensures
        byte_len(a) > 0,
{
    assert(encode_scalar(a[0] as u32).len() > 0);
}

proof fn lemma_written_grows(parts: Seq<Seq<char>>, n: int)
    requires
        0 <= n <= parts.len(),
        forall|i: int| 0 <= i < parts.len() ==> (#[trigger] parts[i]).len() > 0,
    ensures
        byte_len(written(parts.take(n))) + (parts.len() - n) <= byte_len(written(parts)),
    decreases parts.len(),
{
    if n == parts.len() {
        assert(parts.take(n) =~= parts);
    } else {
        let init = parts.drop_last();
        assert forall|i: int| 0 <= i < init.len() implies (#[trigger] init[i]).len() > 0 by {
            assert(parts[i].len() > 0);
        }
        lemma_written_grows(init, n);
        assert(init.take(n) =~= parts.take(n));
        let dir = written(init);
        let name = parts.last();
        assert(name == parts[parts.len() - 1]);
        lemma_byte_len_positive(name);
        lemma_byte_len_concat(dir, name);
        lemma_byte_len_concat(dir.push('/'), name);
        lemma_byte_len_concat(dir, seq!['/']);
        assert(dir + seq!['/'] =~= dir.push('/'));
    }
}

/// When roots nest, the deepest one wins: no root at or above the directory
/// has more components than the chosen one. It speaks of roots written plainly,
/// without repeated separators or `.` components.
pub proof fn law_deepest_root_wins(roots: Seq<Root>, cwd: Seq<char>, k: int, j: int)
    requires
        chosen(roots, cwd, k),
        0 <= j < roots.len(),
        starts_with(cwd, roots[j].path@),
        roots[k].path@ == written(components(roots[k].path@)),
        roots[j].path@ == written(components(roots[j].path@)),
    ensures
        components(roots[j].path@).len() <= components(roots[k].path@).len(),
{
    let deep = components(roots[j].path@);
    let n = components(roots[k].path@).len() as int;
    if deep.len() > n {
        assert(deep.take(n) =~= components(cwd).take(n));
        crate::path::lemma_spans(roots[j].path@);
        assert forall|i: int| 0 <= i < deep.len() implies (#[trigger] deep[i]).len() > 0 by {
            let s = crate::path::spans(roots[j].path@)[i];
            assert(deep[i] == roots[j].path@.subrange(s.0, s.1));
        }
        lemma_written_grows(deep, n);
    }
}

/// A location names the directory: the components of its root, followed by
/// those of the path below the root, are the components of the directory.
pub proof fn law_location_names_the_directory(roots: Seq<Root>, cwd: Seq<char>, k: int)
    requires
        chosen(roots, cwd, k),
    ensures
        ({
            let n = components(roots[k].path@).len() as int;
            components(roots[k].path@) + components(rest(cwd, n)) == components(cwd)
        }),
{
    let n = components(roots[k].path@).len() as int;
    law_rest_keeps_the_components(cwd, n);
    assert(components(cwd).take(n) + components(cwd).skip(n) =~= components(cwd));
}

/// What a workspace id looks like: up to 24 characters of the name, with a dash
/// for each that is not a letter, a digit, a dash or an underscore, then a dash,
/// then the first twelve digits of the digest of the whole name.
pub proof fn law_workspace_id_shows_the_name(name: Seq<char>)
    ensures
        ({
            let id = workspace_id(name);
            let n = if name.len() < 24 {
                name.len() as int
            } else {
                24
            };
            let digits = hex_text(blake3_digest(encode_utf8(name)));
            &&& forall|i: int|
                0 <= i < n ==> #[trigger] id[i] == if 'a' <= name[i] <= 'z' || 'A' <= name[i] <= 'Z'
                    || '0' <= name[i] <= '9' || name[i] == '-' || name[i] == '_' {
                    name[i]
                } else {
                    '-'
                }
            &&& id[n] == '-'
            &&& digits.len() >= 12 ==> id.len() == n + 13 && forall|j: int|
                0 <= j < 12 ==> id[n + 1 + j] == #[trigger] digits[j]
        }),
{
    reveal_strlit("-");
    let id = workspace_id(name);
    let n = if name.len() < 24 {
        name.len() as int
    } else {
        24
    };
    let digits = hex_text(blake3_digest(encode_utf8(name)));
    if digits.len() >= 12 {
        assert forall|j: int| 0 <= j < 12 implies id[n + 1 + j] == #[trigger] digits[j] by {
            assert(digits.take(12)[j] == digits[j]);
        }
    }
}

proof fn lemma_some_root_is_chosen(roots: Seq<Root>, cwd: Seq<char>, j: int) -> (k: int)
    requires
        0 <= j < roots.len(),
        starts_with(cwd, roots[j].path@),
    ensures
        chosen(roots, cwd, k),
    decreases roots.len(),
{
    let n = roots.len() - 1;
    let init = roots.drop_last();
    let last = roots.last();
    if exists|i: int| 0 <= i < n && starts_with(cwd, (#[trigger] roots[i]).path@) {
        let i = choose|i: int| 0 <= i < n && starts_with(cwd, (#[trigger] roots[i]).path@);
        assert(init[i] == roots[i]);
        let b = lemma_some_root_is_chosen(init, cwd, i);
        assert(init[b] == roots[b]);
        if starts_with(cwd, last.path@) && byte_len(last.path@) >= byte_len(roots[b].path@) {
            assert forall|x: int|
                0 <= x < roots.len() && starts_with(cwd, (#[trigger] roots[x]).path@) implies {
                &&& byte_len(roots[x].path@) <= byte_len(roots[n].path@)
                &&& x > n ==> byte_len(roots[x].path@) < byte_len(roots[n].path@)
            } by {
                if x < n {
                    assert(init[x] == roots[x]);
                }
            }
            n
        } else {
            assert forall|x: int|
                0 <= x < roots.len() && starts_with(cwd, (#[trigger] roots[x]).path@) implies {
                &&& byte_len(roots[x].path@) <= byte_len(roots[b].path@)
                &&& x > b ==> byte_len(roots[x].path@) < byte_len(roots[b].path@)
            } by {
                if x < n {
                    assert(init[x] == roots[x]);
                }
            }
            b
        }
    } else {
        assert(j == n);
        n
    }
}

/// A directory is located just where some root lies at or above it, and exactly
/// one root is chosen for it: the one whose path is longest, and of several with
/// the same path the last.
pub proof fn law_every_directory_has_at_most_one_root(roots: Seq<Root>, cwd: Seq<char>)
    ensures
        (exists|k: int| #[trigger] chosen(roots, cwd, k)) <==> exists|j: int|
            {
                let top = components((#[trigger] roots[j]).path@);
                &&& 0 <= j < roots.len()
                &&& top.len() <= components(cwd).len()
                &&& components(cwd).take(top.len() as int) == top
            },
        forall|k: int, j: int|
            #![trigger chosen(roots, cwd, k), chosen(roots, cwd, j)]
            chosen(roots, cwd, k) && chosen(roots, cwd, j) ==> k == j,
        forall|k: int, j: int|
            chosen(roots, cwd, k) && 0 <= j < roots.len() && roots[j].path@ == roots[k].path@ ==> j
                <= k,
{
    if exists|j: int|
        {
            let top = components((#[trigger] roots[j]).path@);
            &&& 0 <= j < roots.len()
            &&& top.len() <= components(cwd).len()
            &&& components(cwd).take(top.len() as int) == top
        } {
        let j = choose|j: int|
            {
                let top = components((#[trigger] roots[j]).path@);
                &&& 0 <= j < roots.len()
                &&& top.len() <= components(cwd).len()
                &&& components(cwd).take(top.len() as int) == top
            };
        let k = lemma_some_root_is_chosen(roots, cwd, j);
    }
}

/// The chosen root is the longest in bytes of those at or above the directory, and
/// the last of those that are equally long.
pub proof fn law_longest_root_is_chosen(roots: Seq<Root>, cwd: Seq<char>, k: int, j: int)
    requires
        chosen(roots, cwd, k),
        0 <= j < roots.len(),
        components(roots[j].path@).len() <= components(cwd).len(),
        components(cwd).take(components(roots[j].path@).len() as int) == components(
            roots[j].path@,
        ),
    ensures
        components(cwd).take(components(roots[k].path@).len() as int) == components(
            roots[k].path@,
        ),
        encode_utf8(roots[j].path@).len() <= encode_utf8(roots[k].path@).len(),
        encode_utf8(roots[j].path@).len() == encode_utf8(roots[k].path@).len() ==> j <= k,
{
}

} // verus!

//! Daemon-side build handling: run the requested command in a backend, stream
//! its output, then offer the produced artifacts back to the client.

use vstd::prelude::*;
use vstd::string::to_string_from_display_ensures;
use vstd::string::StringExecFns;

use crate::chunk::{zstd_decoded, zstd_encoded, COMPRESSION_LEVEL};
use crate::daemon::backend::{for_target, DockerBackend};
use crate::daemon::sync::{plain_id, send_file, workspace_dir, SyncError};
use crate::path::{extend, extended};
use crate::proto::{EntryView, Message, Target};
use crate::scan::{lists, Manifest};
use crate::text::{
    has_prefix, has_text, is_just, law_prefix_suffix_and_infix, strip_prefix, trim_of, trimmed_of,
    trimmed_start, views,
};

verus! {

/// `globset::Error`, by which globset refuses a glob or a set of globs.
#[verifier::external_type_specification]
#[verifier::external_body]
pub struct ExGlobError(globset::Error);

/// `globset::GlobSetBuilder`, a list of globs to be matched together.
#[verifier::external_type_specification]
#[verifier::external_body]
pub struct ExGlobSetBuilder(globset::GlobSetBuilder);

/// `globset::GlobSet`, globs that are matched together.
#[verifier::external_type_specification]
#[verifier::external_body]
pub struct ExGlobSet(globset::GlobSet);

/// Whether a text is a glob that globset accepts.
pub uninterp spec fn glob_parses(glob: Seq<char>) -> bool;

/// Whether a glob matches a path.
pub uninterp spec fn glob_matches(glob: Seq<char>, path: Seq<char>) -> bool;

/// The globs that a builder has been given, in order.
pub uninterp spec fn builder_globs(builder: globset::GlobSetBuilder) -> Seq<Seq<char>>;

/// The globs of a set, in order.
pub uninterp spec fn set_globs(set: globset::GlobSet) -> Seq<Seq<char>>;

/// Whether globs can be compiled into one set.
pub uninterp spec fn globs_compile(globs: Seq<Seq<char>>) -> bool;

/// Whether one of the globs matches a path.
pub open spec fn any_matches(globs: Seq<Seq<char>>, path: Seq<char>) -> bool {
    exists|i: int| 0 <= i < globs.len() && glob_matches(#[trigger] globs[i], path)
}

/// Calls `globset::GlobSetBuilder::new`.
///
/// Believed of the crate: a new builder holds no glob.
#[verifier::external_body]
fn glob_builder() -> (builder: globset::GlobSetBuilder)
    ensures
        builder_globs(builder) == Seq::<Seq<char>>::empty(),
{
    globset::GlobSetBuilder::new()
}

/// Calls `globset::GlobSetBuilder::add` on the `globset::Glob` that a text
/// spells.
///
/// Believed of the crate: whether the text spells a glob depends on the text
/// alone; a glob is added after those that are there, and a text that spells
/// none leaves the builder as it was.
#[verifier::external_body]
fn add_glob(builder: &mut globset::GlobSetBuilder, glob: &str) -> (added: Result<
    (),
    globset::Error,
>)
    ensures
        added is Ok <==> glob_parses(glob@),
        builder_globs(*final(builder)) == if added is Ok {
            builder_globs(*old(builder)).push(glob@)
        } else {
            builder_globs(*old(builder))
        },
{
    builder.add(globset::Glob::new(glob)?);
    Ok(())
}

/// Calls `globset::GlobSetBuilder::build`.
///
/// Believed of the crate: whether a set comes out depends on the builder's globs
/// alone, which together may be too large to compile, and a set that comes out
/// holds those globs.
#[verifier::external_body]
fn build_set(builder: &globset::GlobSetBuilder) -> (set: Result<globset::GlobSet, globset::Error>)
    ensures
        set is Ok <==> globs_compile(builder_globs(*builder)),
        set matches Ok(s) ==> set_globs(s) == builder_globs(*builder),
{
    builder.build()
}

/// Calls `globset::GlobSet::is_match`.
///
/// Believed of the crate: the set matches a path exactly when one of its globs
/// does, and whether a glob does depends on the two texts alone.
#[verifier::external_body]
fn set_matches(set: &globset::GlobSet, path: &str) -> (yes: bool)
    ensures
        yes == (exists|i: int|
            (0 <= i && i < set_globs(*set).len() && glob_matches(
                #[trigger] set_globs(*set)[i],
                path@,
            ))),
{
    set.is_match(path)
}

/// Why a build could not be run.
#[derive(Debug)]
pub enum BuildError {
    /// The workspace id or a payload was refused.
    Sync(SyncError),
    /// The workspace has never been synced.
    NotSynced(String),
    NoWorkspaceVolume,
    NoCacheVolume,
    /// An artifact glob does not parse.
    BadGlob(String),
    /// The artifact globs cannot be matched together, in globset's own words.
    GlobSet(String),
}

impl BuildError {
    /// What went wrong, in words.
    pub open spec fn text(self) -> Seq<char> {
        match self {
            BuildError::Sync(e) => e.text(),
            BuildError::NotSynced(id) => "workspace "@ + id@ + " not synced yet"@,
            BuildError::NoWorkspaceVolume => "RBUILD_WS_VOLUME not set — daemon must run with a workspace volume"@,
            BuildError::NoCacheVolume => "RBUILD_CACHE_VOLUME not set — daemon must run with a cache volume"@,
            BuildError::BadGlob(glob) => "bad artifact glob "@ + glob@,
            BuildError::GlobSet(words) => words@,
        }
    }

    /// What went wrong, in words.
    pub fn message(&self) -> (text: String)
        ensures
            text@ == self.text(),
    {
        match self {
            BuildError::Sync(e) => e.message(),
            BuildError::NotSynced(id) => "workspace ".to_owned().concat(id.as_str()).concat(
                " not synced yet",
            ),
            BuildError::NoWorkspaceVolume => "RBUILD_WS_VOLUME not set — daemon must run with a workspace volume".to_owned(),
            BuildError::NoCacheVolume => "RBUILD_CACHE_VOLUME not set — daemon must run with a cache volume".to_owned(),
            BuildError::BadGlob(glob) => "bad artifact glob ".to_owned().concat(glob.as_str()),
            BuildError::GlobSet(words) => words.clone(),
        }
    }
}

/// What a build runs with.
#[derive(Debug)]
pub struct BuildSetup {
    /// The workspace directory.
    pub workspace: String,
    /// The Docker volume that holds it.
    pub ws_volume: String,
    /// The Docker volume that holds the build cache.
    pub cache_volume: String,
    pub backend: DockerBackend,
}

/// Checks that a build can run, and picks the backend for it. Build containers
/// are launched as siblings via the Docker socket, so they mount the same named
/// volumes as the daemon (by name, not by host path: the daemon's own mounts
/// have no host-visible path).
pub fn run(
    workspace_id: &str,
    workspace_root: &str,
    exists: bool,
    target: Target,
    linux_image: &str,
    wine_image: &str,
    ws_volume: Option<String>,
    cache_volume: Option<String>,
) -> (setup: Result<BuildSetup, BuildError>)
    ensures
        match setup {
            Ok(s) => {
                &&& plain_id(workspace_id@) && exists
                &&& s.workspace@ == workspace_root@
                &&& ws_volume == Some(s.ws_volume)
                &&& cache_volume == Some(s.cache_volume)
                &&& match target {
                    Target::Linux => s.backend.image_text() == linux_image@ && !s.backend.is_wine(),
                    Target::Windows => s.backend.image_text() == wine_image@ && s.backend.is_wine(),
                }
            },
            Err(BuildError::Sync(SyncError::InvalidWorkspace(id))) => !plain_id(workspace_id@) && id@
                == workspace_id@,
            Err(BuildError::NotSynced(id)) => plain_id(workspace_id@) && !exists && id@
                == workspace_id@,
            Err(BuildError::NoWorkspaceVolume) => plain_id(workspace_id@) && exists
                && ws_volume is None,
            Err(BuildError::NoCacheVolume) => plain_id(workspace_id@) && exists && ws_volume is Some
                && cache_volume is None,
            Err(_) => false,
        },
{
    let workspace = match workspace_dir(workspace_id, workspace_root) {
        Ok(dir) => dir,
        Err(e) => {
            return Err(BuildError::Sync(e));
        },
    };
    if !exists {
        return Err(BuildError::NotSynced(workspace_id.to_owned()));
    }
    let ws_volume = match ws_volume {
        Some(v) => v,
        None => {
            return Err(BuildError::NoWorkspaceVolume);
        },
    };
    let cache_volume = match cache_volume {
        Some(v) => v,
        None => {
            return Err(BuildError::NoCacheVolume);
        },
    };
    let backend = for_target(target, linux_image, wine_image);
    Ok(BuildSetup { workspace, ws_volume, cache_volume, backend })
}

/// Whether every glob of a list parses.
pub open spec fn all_parse(globs: Seq<Seq<char>>) -> bool {
    forall|i: int| 0 <= i < globs.len() ==> glob_parses(#[trigger] globs[i])
}

/// The part of every artifact's path that names the build's directory.
pub open spec fn artifact_prefix(cwd: Seq<char>) -> Seq<char> {
    let dir = trimmed_of(cwd, '/');
    if dir.len() == 0 {
        Seq::empty()
    } else {
        dir + "/"@
    }
}

/// Whether a file is an artifact: it lies in the build's directory, and one of
/// the globs matches its path from there.
pub open spec fn is_artifact(cwd: Seq<char>, globs: Seq<Seq<char>>, path: Seq<char>) -> bool {
    let prefix = artifact_prefix(cwd);
    &&& has_prefix(path, prefix)
    &&& any_matches(globs, path.skip(prefix.len() as int))
}

/// The artifacts among the files of a workspace.
pub open spec fn artifacts(
    all: Map<Seq<char>, EntryView>,
    cwd: Seq<char>,
    globs: Seq<Seq<char>>,
) -> Map<Seq<char>, EntryView> {
    Map::new(|p: Seq<char>| all.contains_key(p) && is_artifact(cwd, globs, p), |p: Seq<char>| all[p])
}

/// What the daemon makes of globset's answer to compiling the globs.
pub fn compiled(answer: Result<globset::GlobSet, globset::Error>) -> (set: Result<
    globset::GlobSet,
    BuildError,
>)
    ensures
        match answer {
            Ok(s) => set == Ok::<globset::GlobSet, BuildError>(s),
            Err(e) => set matches Err(BuildError::GlobSet(words))
                && to_string_from_display_ensures(&e, words),
        },
{
    match answer {
        Ok(s) => Ok(s),
        Err(e) => Err(BuildError::GlobSet(e.to_string())),
    }
}

/// Puts the globs together.
fn compile_globs(globs: &[String]) -> (set: Result<globset::GlobSet, BuildError>)
    ensures
        match set {
            Ok(s) => set_globs(s) == views(globs@) && all_parse(views(globs@)) && globs_compile(
                views(globs@),
            ),
            Err(BuildError::BadGlob(g)) => exists|i: int|
                0 <= i < globs@.len() && #[trigger] globs@[i] == g && !glob_parses(g@) && all_parse(
                    views(globs@).take(i),
                ),
            Err(e) => e is GlobSet && all_parse(views(globs@)) && !globs_compile(
                views(globs@),
            ),
        },
{
    let mut builder = glob_builder();
    let ghost all = views(globs@);
    let mut i: usize = 0;
    assert(all.take(0) =~= Seq::<Seq<char>>::empty());
    while i < globs.len()
        invariant
            i <= globs@.len(),
            all == views(globs@),
            builder_globs(builder) == all.take(i as int),
            all_parse(all.take(i as int)),
        decreases globs@.len() - i,
    {
        assert(all[i as int] == globs@[i as int]@);
        if add_glob(&mut builder, globs[i].as_str()).is_err() {
            return Err(BuildError::BadGlob(globs[i].clone()));
        }
        assert(all.take(i + 1) =~= all.take(i as int).push(all[i as int]));
        i = i + 1;
    }
    assert(all.take(all.len() as int) =~= all);
    compiled(build_set(&builder))
}

/// A file's path from the build's directory, if it lies there.
pub fn artifact_rel(cwd: &str, path: &str) -> (rel: Option<String>)
    ensures
        match rel {
            Some(r) => has_prefix(path@, artifact_prefix(cwd@)) && r@ == path@.skip(
                artifact_prefix(cwd@).len() as int,
            ),
            None => !has_prefix(path@, artifact_prefix(cwd@)),
        },
        cwd@.len() > 0 && cwd@[0] != '/' && cwd@.last() != '/' ==> match rel {
            Some(r) => path@ == cwd@ + seq!['/'] + r@,
            None => forall|r: Seq<char>| path@ != #[trigger] (cwd@ + seq!['/'] + r),
        },
        cwd@.len() == 0 ==> (rel matches Some(r) && r@ == path@),
{
    proof {
        if cwd@.len() == 0 || (cwd@[0] != '/' && cwd@.last() != '/') {
            lemma_prefix_of_directory(cwd@, path@);
        }
    }
    let dir = trim_of(cwd, '/');
    let prefix = if dir.as_str().is_empty() {
        let none = String::new();
        assert(none@ =~= Seq::<char>::empty());
        none
    } else {
        dir.concat("/")
    };
    strip_prefix(path, prefix.as_str())
}

/// Picks out the artifacts produced by a build. `cwd` is the build's directory
/// relative to the workspace root; globs are matched against paths relative to
/// `cwd` (the natural frame for `target/**`), but the returned manifest keys
/// remain workspace-relative so the client mirrors them to the right place.
pub fn scan_artifacts(all: &Manifest, cwd: &str, globs: &[String]) -> (out: Result<
    Manifest,
    BuildError,
>)
    ensures
        match out {
            Ok(m) => all_parse(views(globs@)) && globs_compile(views(globs@)) && m@ == artifacts(
                all@,
                cwd@,
                views(globs@),
            ),
            Err(BuildError::BadGlob(g)) => exists|i: int|
                0 <= i < globs@.len() && #[trigger] globs@[i] == g && !glob_parses(g@) && all_parse(
                    views(globs@).take(i),
                ),
            Err(e) => e is GlobSet && all_parse(views(globs@)) && !globs_compile(
                views(globs@),
            ),
        },
{
    let set = match compile_globs(globs) {
        Ok(set) => set,
        Err(e) => {
            return Err(e);
        },
    };
    let ghost texts = views(globs@);
    let ghost paths = all.paths();
    let mut out = Manifest::new();
    let keys = all.keys();
    let mut i: usize = 0;
    assert(out@ =~= artifacts_upto(all@, cwd@, texts, paths, 0));
    while i < keys.len()
        invariant
            i <= keys@.len(),
            texts == views(globs@),
            set_globs(set) == texts,
            paths == all.paths(),
            views(keys@) == paths,
            lists(paths, |p: Seq<char>| all@.contains_key(p)),
            out@ == artifacts_upto(all@, cwd@, texts, paths, i as int),
        decreases keys@.len() - i,
    {
        let path = keys[i].as_str();
        let ghost before = out@;
        assert(paths[i as int] == path@);
        assert(paths.contains(path@));
        let wanted = match artifact_rel(cwd, path) {
            Some(rel) => set_matches(&set, rel.as_str()),
            None => false,
        };
        assert(wanted == is_artifact(cwd@, texts, path@));
        if wanted {
            if let Some(e) = all.get(path) {
                out.insert(keys[i].clone(), e.clone());
            }
        }
        proof {
            assert(paths.take(i + 1) =~= paths.take(i as int).push(path@));
            assert forall|p: Seq<char>| #[trigger]
                paths.take(i + 1).contains(p) <==> paths.take(i as int).contains(p) || p
                == path@ by {
                if paths.take(i as int).contains(p) {
                    let k = paths.take(i as int).index_of(p);
                    assert(paths.take(i + 1)[k] == p);
                }
                if p == path@ {
                    assert(paths.take(i + 1)[i as int] == p);
                }
            }
            assert(out@ =~= artifacts_upto(all@, cwd@, texts, paths, i + 1));
        }
        i = i + 1;
    }
    proof {
        assert(paths.take(paths.len() as int) =~= paths);
        assert forall|p: Seq<char>| all@.contains_key(p) implies #[trigger] paths.contains(p) by {
            assert((|p: Seq<char>| all@.contains_key(p))(p));
        }
        assert(out@ =~= artifacts(all@, cwd@, texts));
    }
    Ok(out)
}

spec fn artifacts_upto(
    all: Map<Seq<char>, EntryView>,
    cwd: Seq<char>,
    globs: Seq<Seq<char>>,
    paths: Seq<Seq<char>>,
    n: int,
) -> Map<Seq<char>, EntryView> {
    Map::new(
        |p: Seq<char>|
            paths.take(n).contains(p) && all.contains_key(p) && is_artifact(cwd, globs, p),
        |p: Seq<char>| all[p],
    )
}

/// Offers the artifacts to the client.
pub fn offer(artifacts: &Manifest) -> (message: Message)
    ensures
        message matches Message::ArtifactManifest { entries } && {
            &&& lists(artifacts.paths(), |p: Seq<char>| artifacts@.contains_key(p))
            &&& entries@.len() == artifacts.paths().len()
            &&& forall|i: int|
                0 <= i < entries@.len() ==> #[trigger] entries@[i]@
                    == artifacts@[artifacts.paths()[i]]
        },
{
    Message::ArtifactManifest { entries: artifacts.values() }
}

/// Where an artifact that the client asks for stands.
pub fn artifact_path(workspace: &str, rel: &str) -> (path: String)
    ensures
        path@ == extended(workspace@, rel@),
{
    extend(workspace, rel)
}

/// One artifact on its way to the client: its header, and its packed content
/// for the data frame that follows. The real mode is preserved so executables
/// come back runnable.
pub fn send_artifact(rel: &str, len: u64, mode: u32, data: &[u8]) -> (out: Result<
    (Message, Vec<u8>),
    BuildError,
>)
    ensures
        match out {
            Ok((Message::FileHeader { path, len: l, mode: m, compressed }, sent)) => {
                &&& path@ == rel@ && l == len && m == mode && compressed
                &&& sent@ == zstd_encoded(data@, COMPRESSION_LEVEL as int)
                &&& zstd_decoded(sent@) == Some(data@)
            },
            Ok(_) => false,
            Err(e) => e matches BuildError::Sync(SyncError::Codec(c)) && c is Compress,
        },
{
    match send_file(rel, len, mode, data) {
        Ok(frames) => Ok(frames),
        Err(e) => Err(BuildError::Sync(e)),
    }
}

/// Only files of the build's own directory come back, and only those that a
/// glob matches.
pub proof fn law_artifacts_lie_in_the_build_directory(
    all: Map<Seq<char>, EntryView>,
    cwd: Seq<char>,
    globs: Seq<Seq<char>>,
    path: Seq<char>,
)
    requires
        artifacts(all, cwd, globs).contains_key(path),
    ensures
        has_prefix(path, artifact_prefix(cwd)),
        all.contains_key(path),
        artifacts(all, cwd, globs)[path] == all[path],
{
}

proof fn lemma_untrimmed(s: Seq<char>, c: char)
    requires
        s.len() == 0 || (s[0] != c && s.last() != c),
    ensures
        trimmed_of(s, c) == s,
{
}

/// What comes back from a build, told by its directory: a file below the
/// directory is an artifact just where one of the globs matches its path from
/// there, it keeps its entry, and no file outside the directory is an artifact.
pub proof fn law_artifacts_are_the_matching_files(
    all: Map<Seq<char>, EntryView>,
    cwd: Seq<char>,
    globs: Seq<Seq<char>>,
    rel: Seq<char>,
    path: Seq<char>,
)
    requires
        cwd.len() > 0,
        cwd[0] != '/',
        cwd.last() != '/',
    ensures
        artifacts(all, cwd, globs).contains_key(cwd + seq!['/'] + rel) <==> all.contains_key(
            cwd + seq!['/'] + rel,
        ) && exists|i: int| 0 <= i < globs.len() && glob_matches(#[trigger] globs[i], rel),
        artifacts(all, cwd, globs).contains_key(path) ==> {
            &&& all.contains_key(path)
            &&& artifacts(all, cwd, globs)[path] == all[path]
            &&& path.len() > cwd.len()
            &&& path.take(cwd.len() as int) == cwd
            &&& path[cwd.len() as int] == '/'
        },
{
    lemma_untrimmed(cwd, '/');
    reveal_strlit("/");
    assert("/"@ =~= seq!['/']);
    let prefix = cwd + seq!['/'];
    assert(artifact_prefix(cwd) == prefix);
    let file = prefix + rel;
    assert(file.take(prefix.len() as int) =~= prefix);
    assert(file.skip(prefix.len() as int) =~= rel);
    if has_prefix(path, prefix) {
        assert(path.take(cwd.len() as int) =~= prefix.take(cwd.len() as int));
        assert(prefix.take(cwd.len() as int) =~= cwd);
        assert(path.take(prefix.len() as int)[cwd.len() as int] == '/');
    }
}

/// A build at the root of the workspace is matched by whole paths.
pub proof fn law_artifacts_of_the_root(
    all: Map<Seq<char>, EntryView>,
    globs: Seq<Seq<char>>,
    path: Seq<char>,
)
    ensures
        artifacts(all, Seq::empty(), globs).contains_key(path) <==> all.contains_key(path)
            && exists|i: int| 0 <= i < globs.len() && glob_matches(#[trigger] globs[i], path),
        artifacts(all, Seq::empty(), globs).contains_key(path) ==> artifacts(
            all,
            Seq::empty(),
            globs,
        )[path] == all[path],
{
    lemma_untrimmed(Seq::empty(), '/');
    assert(path.take(0) =~= Seq::<char>::empty());
    assert(path.skip(0) =~= path);
}

/// Slashes around the build's directory make no difference.
pub proof fn law_artifacts_ignore_outer_slashes(
    all: Map<Seq<char>, EntryView>,
    cwd: Seq<char>,
    globs: Seq<Seq<char>>,
)
    ensures
        artifacts(all, cwd + seq!['/'], globs) == artifacts(all, cwd, globs),
        artifacts(all, seq!['/'] + cwd, globs) == artifacts(all, cwd, globs),
{
    let slash = is_just('/');
    assert((seq!['/'] + cwd).skip(1) =~= cwd);
    assert(trimmed_start(seq!['/'] + cwd, slash) == trimmed_start(cwd, slash));
    lemma_trim_last(cwd);
    assert(artifact_prefix(cwd + seq!['/']) == artifact_prefix(cwd));
    assert(artifact_prefix(seq!['/'] + cwd) == artifact_prefix(cwd));
    assert(artifacts(all, cwd + seq!['/'], globs) =~= artifacts(all, cwd, globs));
    assert(artifacts(all, seq!['/'] + cwd, globs) =~= artifacts(all, cwd, globs));
}

proof fn lemma_trim_last(s: Seq<char>)
    ensures
        trimmed_of(s + seq!['/'], '/') == trimmed_of(s, '/'),
    decreases s.len(),
{
    let slash = is_just('/');
    let t = s + seq!['/'];
    if s.len() > 0 && s[0] == '/' {
        assert(t.skip(1) =~= s.skip(1) + seq!['/']);
        lemma_trim_last(s.skip(1));
        assert(t[0] == '/' && slash(t[0]) && slash(s[0]));
        assert(trimmed_start(t, slash) == trimmed_start(t.skip(1), slash));
        assert(trimmed_start(s, slash) == trimmed_start(s.skip(1), slash));
    } else if s.len() == 0 {
        assert(t[0] == '/' && slash(t[0]));
        assert(t.skip(1) =~= Seq::<char>::empty());
        assert(s =~= Seq::<char>::empty());
        assert(trimmed_start(t, slash) == trimmed_start(t.skip(1), slash));
    } else {
        assert(t[0] == s[0] && !slash(s[0]));
        assert(t.last() == '/' && slash(t.last()));
        assert(trimmed_start(t, slash) == t);
        assert(trimmed_start(s, slash) == s);
        assert(t.drop_last() =~= s);
    }
}

/// An error names what it is about: the workspace, the glob, or what was said.
pub proof fn law_build_errors_name_their_subject(e: BuildError)
    ensures
        e matches BuildError::NotSynced(id) ==> has_text(e.text(), id@),
        e matches BuildError::BadGlob(glob) ==> has_text(e.text(), glob@),
        e matches BuildError::GlobSet(words) ==> e.text() == words@,
        e matches BuildError::Sync(s) ==> e.text() == s.text(),
{
    match e {
        BuildError::NotSynced(id) => {
            assert(e.text() =~= "workspace "@ + id@ + " not synced yet"@);
            law_prefix_suffix_and_infix(e.text(), id@);
        },
        BuildError::BadGlob(glob) => {
            assert(e.text() =~= "bad artifact glob "@ + glob@ + Seq::<char>::empty());
            law_prefix_suffix_and_infix(e.text(), glob@);
        },
        _ => {},
    }
}

/// A list of globs parses just where each of them does.
pub proof fn law_every_glob_must_parse(a: Seq<Seq<char>>, b: Seq<Seq<char>>)
    ensures
        all_parse(a + b) <==> all_parse(a) && all_parse(b),
        a.len() == 1 ==> (all_parse(a) <==> glob_parses(a[0])),
        a.len() == 0 ==> all_parse(a),
{
    if all_parse(a + b) {
        assert forall|i: int| 0 <= i < a.len() implies glob_parses(#[trigger] a[i]) by {
            assert((a + b)[i] == a[i]);
        }
        assert forall|i: int| 0 <= i < b.len() implies glob_parses(#[trigger] b[i]) by {
            assert((a + b)[a.len() + i] == b[i]);
        }
    }
}

proof fn lemma_prefix_of_directory(cwd: Seq<char>, path: Seq<char>)
    requires
        cwd.len() == 0 || (cwd[0] != '/' && cwd.last() != '/'),
    ensures
        cwd.len() == 0 ==> artifact_prefix(cwd).len() == 0 && has_prefix(path, artifact_prefix(cwd))
            && path.skip(0) == path,
        cwd.len() > 0 ==> artifact_prefix(cwd) == cwd + seq!['/'],
        cwd.len() > 0 && has_prefix(path, artifact_prefix(cwd)) ==> path == cwd + seq!['/']
            + path.skip(artifact_prefix(cwd).len() as int),
        cwd.len() > 0 && !has_prefix(path, artifact_prefix(cwd)) ==> forall|r: Seq<char>|
            path != #[trigger] (cwd + seq!['/'] + r),
{
    lemma_untrimmed(cwd, '/');
    reveal_strlit("/");
    assert("/"@ =~= seq!['/']);
    let prefix = artifact_prefix(cwd);
    law_prefix_suffix_and_infix(path, prefix);
    assert(path.skip(0) =~= path);
    if cwd.len() == 0 {
        assert(path.take(0) =~= prefix);
    } else if has_prefix(path, prefix) {
        assert(path =~= cwd + seq!['/'] + path.skip(prefix.len() as int));
    }
}

/// A file lies in the build's directory just where its path goes on from the
/// directory's with a slash.
pub proof fn law_build_directory_is_told_by_its_path(cwd: Seq<char>, path: Seq<char>)
    requires
        cwd.len() > 0,
        cwd[0] != '/',
        cwd.last() != '/',
    ensures
        has_prefix(path, artifact_prefix(cwd)) <==> exists|rel: Seq<char>|
            path == #[trigger] (cwd + seq!['/'] + rel),
        artifact_prefix(cwd).len() == cwd.len() + 1,
        artifact_prefix(Seq::empty()).len() == 0,
{
    lemma_prefix_of_directory(cwd, path);
    lemma_prefix_of_directory(Seq::empty(), path);
}

} // verus!

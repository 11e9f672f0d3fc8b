//! Client-side build dispatch: send a build request, render its output live,
//! and pull back the artifacts it produced.

use vstd::prelude::*;

use crate::chunk::{decompress, zstd_decoded, CodecError};
use crate::config::GlobalConfig;
use crate::path::{extend, extended};
use crate::proto::{BuildRequest, ManifestEntry, Message, OutputFd, Target};
use crate::text::{copy_all, same, views};

verus! {

/// The logical stream that builds run on.
pub const BUILD_STREAM: u32 = 2;

/// Build tools rely on a handful of environment variables; only these safe,
/// build-relevant ones are forwarded, not the client's entire environment.
pub open spec fn kept_names() -> Seq<Seq<char>> {
    seq!["CARGO_TERM_COLOR"@, "RUST_BACKTRACE"@, "RUSTFLAGS"@, "CC"@, "CXX"@]
}

/// The value of a variable: the first with its name.
pub open spec fn value_of(env: Seq<(String, String)>, name: Seq<char>) -> Option<Seq<char>>
    decreases env.len(),
{
    if env.len() == 0 {
        None
    } else if env[0].0@ == name {
        Some(env[0].1@)
    } else {
        value_of(env.skip(1), name)
    }
}

/// The variables of `names` that are set, with their values.
pub open spec fn set_among(env: Seq<(String, String)>, names: Seq<Seq<char>>) -> Seq<
    (Seq<char>, Seq<char>),
>
    decreases names.len(),
{
    if names.len() == 0 {
        Seq::empty()
    } else {
        let before = set_among(env, names.drop_last());
        match value_of(env, names.last()) {
            Some(v) => before.push((names.last(), v)),
            None => before,
        }
    }
}

/// What the pairs of a list hold.
pub open spec fn pair_views(list: Seq<(String, String)>) -> Seq<(Seq<char>, Seq<char>)> {
    Seq::new(list.len(), |i: int| (list[i].0@, list[i].1@))
}

fn look_up(env: &[(String, String)], name: &str) -> (value: Option<String>)
    ensures
        match value {
            Some(v) => value_of(env@, name@) == Some(v@),
            None => value_of(env@, name@) is None,
        },
{
    let mut i: usize = 0;
    assert(env@.skip(0) =~= env@);
    while i < env.len()
        invariant
            i <= env@.len(),
            value_of(env@, name@) == value_of(env@.skip(i as int), name@),
        decreases env@.len() - i,
    {
        assert(env@.skip(i as int)[0] == env@[i as int]);
        assert(env@.skip(i as int).skip(1) =~= env@.skip(i + 1));
        if same(env[i].0.as_str(), name) {
            return Some(env[i].1.clone());
        }
        i = i + 1;
    }
    None
}

/// The environment variables to forward, out of the client's environment.
pub fn forwarded_env(env: &[(String, String)]) -> (kept: Vec<(String, String)>)
    ensures
        pair_views(kept@) == set_among(env@, kept_names()),
{
    let names: Vec<&'static str> = vec![
        "CARGO_TERM_COLOR",
        "RUST_BACKTRACE",
        "RUSTFLAGS",
        "CC",
        "CXX",
    ];
    let ghost all = kept_names();
    let mut kept: Vec<(String, String)> = Vec::new();
    let mut i: usize = 0;
    assert(all.take(0) =~= Seq::<Seq<char>>::empty());
    assert(pair_views(kept@) =~= set_among(env@, all.take(0)));
    while i < names.len()
        invariant
            i <= names@.len(),
            names@.len() == all.len(),
            all == kept_names(),
            forall|j: int| 0 <= j < names@.len() ==> (#[trigger] names@[j])@ == all[j],
            pair_views(kept@) == set_among(env@, all.take(i as int)),
        decreases names@.len() - i,
    {
        assert(all.take(i + 1).drop_last() =~= all.take(i as int));
        let ghost before = pair_views(kept@);
        assert(names@[i as int]@ == all[i as int]);
        if let Some(v) = look_up(env, names[i]) {
            let ghost value = v@;
            kept.push((names[i].to_owned(), v));
            assert(pair_views(kept@) =~= before.push((all[i as int], value)));
        }
        i = i + 1;
    }
    assert(all.take(all.len() as int) =~= all);
    kept
}

/// The message that asks the remote to run a build. The build runs in `rel_cwd`
/// (relative to the code-root mirror).
pub fn dispatch(
    config: &GlobalConfig,
    workspace_id: &str,
    argv: Vec<String>,
    rel_cwd: String,
    target: Target,
    env: Vec<(String, String)>,
) -> (open: Message)
    ensures
        open matches Message::OpenBuild {
            stream,
            workspace,
            request,
            artifact_globs,
            linux_image,
            wine_image,
        } && {
            &&& stream == BUILD_STREAM
            &&& workspace@ == workspace_id@
            &&& request == (BuildRequest { argv, cwd: rel_cwd, target, env })
            &&& artifact_globs@ == config.build.artifacts@
            &&& linux_image == config.build.linux_image
            &&& wine_image == config.build.wine_image
        },
{
    Message::OpenBuild {
        stream: BUILD_STREAM,
        workspace: workspace_id.to_owned(),
        request: BuildRequest { argv, cwd: rel_cwd, target, env },
        artifact_globs: copy_all(config.build.artifacts.as_slice()),
        linux_image: config.build.linux_image.clone(),
        wine_image: config.build.wine_image.clone(),
    }
}

/// Why a build's result could not be taken.
#[derive(Debug)]
pub enum DriveError {
    /// The remote reported an error.
    Remote(String),
    /// The remote sent something that has no place in a build.
    Unexpected(Message),
    /// An artifact could not be unpacked.
    Codec(CodecError),
}

/// What to do about a message of a build.
#[derive(Debug)]
pub enum DriveStep {
    /// Note that the container has started.
    Started(String),
    /// Print a line of output.
    Print(OutputFd, String),
    /// Compare the offered artifacts with the local ones and ask for those that
    /// differ.
    Compare(Vec<ManifestEntry>),
    /// Wait for the next frame.
    Wait,
    /// The build has ended.
    Finished(i32),
}

/// An artifact announced by a header.
#[derive(Debug)]
pub struct IncomingArtifact {
    pub path: String,
    pub mode: u32,
    pub compressed: bool,
}

/// An artifact to be written.
#[derive(Debug)]
pub struct ArtifactWrite {
    pub target: String,
    pub data: Vec<u8>,
    /// The mode to set, unless it is 0.
    pub mode: u32,
}

/// Follows a build until it ends: prints its output and handles the artifact
/// exchange.
#[derive(Debug)]
pub struct Driver {
    root: String,
    incoming: Option<IncomingArtifact>,
}

/// A driver as contracts speak of it.
pub struct DriverView {
    pub root: Seq<char>,
    /// The path, mode and packing of the artifact that the next data frame
    /// holds.
    pub incoming: Option<(Seq<char>, u32, bool)>,
}

impl View for Driver {
    type V = DriverView;

    closed spec fn view(&self) -> DriverView {
        DriverView {
            root: self.root@,
            incoming: match self.incoming {
                Some(a) => Some((a.path@, a.mode, a.compressed)),
                None => None,
            },
        }
    }
}

/// What is written for an artifact, given its content.
pub open spec fn artifact_write_of(
    root: Seq<char>,
    path: Seq<char>,
    mode: u32,
    data: Seq<u8>,
    w: ArtifactWrite,
) -> bool {
    w.target@ == extended(root, path) && w.data@ == data && w.mode == mode
}

/// The write for an artifact out of its unpacked content.
pub fn write_unpacked(root: &str, art: IncomingArtifact, unpacked: Result<Vec<u8>, CodecError>) -> (out:
    Result<ArtifactWrite, DriveError>)
    ensures
        match unpacked {
            Ok(data) => out matches Ok(w) && artifact_write_of(
                root@,
                art.path@,
                art.mode,
                data@,
                w,
            ),
            Err(e) => out == Err::<ArtifactWrite, DriveError>(DriveError::Codec(e)),
        },
{
    match unpacked {
        Ok(data) => Ok(
            ArtifactWrite { target: extend(root, art.path.as_str()), data, mode: art.mode },
        ),
        Err(e) => Err(DriveError::Codec(e)),
    }
}

/// What comes of an artifact's data frame.
pub open spec fn artifact_outcome(
    root: Seq<char>,
    path: Seq<char>,
    mode: u32,
    compressed: bool,
    payload: Seq<u8>,
    out: Result<ArtifactWrite, DriveError>,
) -> bool {
    match out {
        Ok(w) => if compressed {
            zstd_decoded(payload) matches Some(data) && artifact_write_of(root, path, mode, data, w)
        } else {
            artifact_write_of(root, path, mode, payload, w)
        },
        Err(e) => compressed && (e matches DriveError::Codec(c) && c is Decompress),
    }
}

/// The write for an artifact out of its data frame.
pub fn write_artifact(root: &str, art: IncomingArtifact, payload: &[u8]) -> (out: Result<
    ArtifactWrite,
    DriveError,
>)
    ensures
        artifact_outcome(root@, art.path@, art.mode, art.compressed, payload@, out),
{
    let data = if art.compressed {
        decompress(payload)
    } else {
        let mut copy: Vec<u8> = Vec::new();
        copy.extend_from_slice(payload);
        assert(copy@ =~= payload@);
        Ok(copy)
    };
    write_unpacked(root, art, data)
}

impl Driver {
    pub fn new(root: String) -> (driver: Driver)
        ensures
            driver@ == (DriverView { root: root@, incoming: None }),
    {
        Driver { root, incoming: None }
    }

    /// A data frame came in: it carries artifact content for the file named by
    /// the last header. Without one it is dropped.
    pub fn on_data(&mut self, payload: &[u8]) -> (out: Result<Option<ArtifactWrite>, DriveError>)
        ensures
            final(self)@ == (DriverView { incoming: None, ..old(self)@ }),
            match old(self)@.incoming {
                None => out matches Ok(None),
                Some((path, mode, compressed)) => match out {
                    Ok(None) => false,
                    Ok(Some(w)) => artifact_outcome(
                        old(self)@.root,
                        path,
                        mode,
                        compressed,
                        payload@,
                        Ok(w),
                    ),
                    Err(e) => artifact_outcome(
                        old(self)@.root,
                        path,
                        mode,
                        compressed,
                        payload@,
                        Err(e),
                    ),
                },
            },
    {
        let mut incoming: Option<IncomingArtifact> = None;
        std::mem::swap(&mut self.incoming, &mut incoming);
        match incoming {
            None => Ok(None),
            Some(art) => match write_artifact(self.root.as_str(), art, payload) {
                Ok(w) => Ok(Some(w)),
                Err(e) => Err(e),
            },
        }
    }

    /// A control message came in.
    pub fn on_message(&mut self, msg: Message) -> (out: Result<DriveStep, DriveError>)
        ensures
            match msg {
                Message::FileHeader { path, len, mode, compressed } => {
                    &&& out == Ok::<DriveStep, DriveError>(DriveStep::Wait)
                    &&& final(self)@ == (DriverView {
                        incoming: Some((path@, mode, compressed)),
                        ..old(self)@
                    })
                },
                _ => final(self)@ == old(self)@,
            },
            match msg {
                Message::FileHeader { .. } => true,
                Message::BuildStarted { container } => out == Ok::<DriveStep, DriveError>(
                    DriveStep::Started(container),
                ),
                Message::BuildOutput { stream_fd, data } => out == Ok::<DriveStep, DriveError>(
                    DriveStep::Print(stream_fd, data),
                ),
                Message::ArtifactManifest { entries } => out == Ok::<DriveStep, DriveError>(
                    DriveStep::Compare(entries),
                ),
                Message::BuildFinished { exit_code } => out == Ok::<DriveStep, DriveError>(
                    DriveStep::Finished(exit_code),
                ),
                Message::Error { message } => out == Err::<DriveStep, DriveError>(
                    DriveError::Remote(message),
                ),
                other => out == Err::<DriveStep, DriveError>(DriveError::Unexpected(other)),
            },
    {
        match msg {
            Message::BuildStarted { container } => Ok(DriveStep::Started(container)),
            Message::BuildOutput { stream_fd, data } => Ok(DriveStep::Print(stream_fd, data)),
            Message::ArtifactManifest { entries } => Ok(DriveStep::Compare(entries)),
            Message::FileHeader { path, len: _, mode, compressed } => {
                self.incoming = Some(IncomingArtifact { path, mode, compressed });
                Ok(DriveStep::Wait)
            },
            Message::BuildFinished { exit_code } => Ok(DriveStep::Finished(exit_code)),
            Message::Error { message } => Err(DriveError::Remote(message)),
            other => Err(DriveError::Unexpected(other)),
        }
    }
}

/// The paths of the artifacts whose content differs locally, or is absent.
pub open spec fn missing(entries: Seq<ManifestEntry>, local: Seq<Option<crate::hash::Hash>>) -> Seq<
    Seq<char>,
>
    decreases entries.len(),
{
    if entries.len() == 0 || local.len() == 0 {
        Seq::empty()
    } else {
        let before = missing(entries.drop_last(), local.drop_last());
        let here = local.last() matches Some(h) && h@ == entries.last().hash@;
        if here {
            before
        } else {
            before.push(entries.last().path@)
        }
    }
}

/// Compares the remote artifact manifest against the hashes of the local copies
/// (none where there is no readable copy) and returns the paths whose content
/// differs: only those transfer.
pub fn artifacts_to_pull(
    entries: &[ManifestEntry],
    local: &[Option<crate::hash::Hash>],
) -> (need: Vec<String>)
    requires
        entries@.len() == local@.len(),
    ensures
        views(need@) == missing(entries@, local@),
{
    let mut need: Vec<String> = Vec::new();
    let mut i: usize = 0;
    assert(views(need@) =~= missing(entries@.take(0), local@.take(0)));
    while i < entries.len()
        invariant
            i <= entries@.len(),
            entries@.len() == local@.len(),
            views(need@) == missing(entries@.take(i as int), local@.take(i as int)),
        decreases entries@.len() - i,
    {
        assert(entries@.take(i + 1).drop_last() =~= entries@.take(i as int));
        assert(local@.take(i + 1).drop_last() =~= local@.take(i as int));
        let same = match local[i] {
            Some(h) => h == entries[i].hash,
            None => false,
        };
        if !same {
            let ghost before = need@;
            need.push(entries[i].path.clone());
            assert(views(need@) =~= views(before).push(entries@[i as int].path@));
        }
        i = i + 1;
    }
    assert(entries@.take(entries@.len() as int) =~= entries@);
    assert(local@.take(local@.len() as int) =~= local@);
    need
}

/// Where the local copy of an artifact stands.
pub fn local_artifact(root: &str, path: &str) -> (target: String)
    ensures
        target@ == extended(root@, path@),
{
    extend(root, path)
}

proof fn lemma_missing_none(entries: Seq<ManifestEntry>, local: Seq<Option<crate::hash::Hash>>)
    requires
        entries.len() == local.len(),
        forall|i: int|
            0 <= i < entries.len() ==> (#[trigger] local[i] matches Some(h) && h@
                == entries[i].hash@),
    ensures
        missing(entries, local).len() == 0,
    decreases entries.len(),
{
    if entries.len() > 0 {
        assert(local.last() == local[local.len() - 1]);
        let (e, l) = (entries.drop_last(), local.drop_last());
        assert forall|i: int| 0 <= i < e.len() implies (#[trigger] l[i] matches Some(h) && h@
            == e[i].hash@) by {
            assert(local[i] == l[i]);
        }
        lemma_missing_none(e, l);
    }
}

/// Nothing is transferred twice: when every local copy has the content that the
/// remote offers, no artifact is asked for.
pub proof fn law_unchanged_artifacts_stay(
    entries: Seq<ManifestEntry>,
    local: Seq<Option<crate::hash::Hash>>,
)
    requires
        entries.len() == local.len(),
        forall|i: int|
            0 <= i < entries.len() ==> (#[trigger] local[i] matches Some(h) && h@
                == entries[i].hash@),
    ensures
        missing(entries, local) == Seq::<Seq<char>>::empty(),
{
    lemma_missing_none(entries, local);
    assert(missing(entries, local) =~= Seq::<Seq<char>>::empty());
}

/// An artifact comes back as it was built: from what the daemon sends for it
/// the client writes the same bytes. Unpacking may fail for want of memory.
pub proof fn law_artifact_arrives(
    root: Seq<char>,
    path: Seq<char>,
    mode: u32,
    data: Seq<u8>,
    packed: Seq<u8>,
    out: Result<ArtifactWrite, DriveError>,
)
    requires
        zstd_decoded(packed) == Some(data),
        artifact_outcome(root, path, mode, true, packed, out),
    ensures
        match out {
            Ok(w) => w.target@ == extended(root, path) && w.data@ == data && w.mode == mode,
            Err(e) => e matches DriveError::Codec(c) && c is Decompress,
        },
{
}

/// Artifacts are compared one by one: two lists together miss what each misses on
/// its own, and a single artifact is missed just where there is no local copy with
/// its content.
pub proof fn law_artifacts_are_compared_one_by_one(
    a: Seq<ManifestEntry>,
    x: Seq<Option<crate::hash::Hash>>,
    b: Seq<ManifestEntry>,
    y: Seq<Option<crate::hash::Hash>>,
)
    requires
        a.len() == x.len(),
        b.len() == y.len(),
    ensures
        missing(a + b, x + y) == missing(a, x) + missing(b, y),
        a.len() == 0 ==> missing(a, x) == Seq::<Seq<char>>::empty(),
        a.len() == 1 ==> missing(a, x) == if x[0] is Some && x[0]->0@ == a[0].hash@ {
            Seq::<Seq<char>>::empty()
        } else {
            seq![a[0].path@]
        },
    decreases b.len(),
{
    if a.len() == 1 {
        assert(missing(a.drop_last(), x.drop_last()) =~= Seq::<Seq<char>>::empty());
        assert(missing(a, x) =~= if x[0] is Some && x[0]->0@ == a[0].hash@ {
            Seq::<Seq<char>>::empty()
        } else {
            seq![a[0].path@]
        });
    }
    if b.len() == 0 {
        assert(a + b =~= a);
        assert(x + y =~= x);
        assert(missing(a + b, x + y) =~= missing(a, x) + missing(b, y));
    } else {
        law_artifacts_are_compared_one_by_one(a, x, b.drop_last(), y.drop_last());
        assert((a + b).drop_last() =~= a + b.drop_last());
        assert((x + y).drop_last() =~= x + y.drop_last());
        assert((a + b).last() == b.last());
        assert((x + y).last() == y.last());
        assert(missing(a + b, x + y) =~= missing(a, x) + missing(b, y));
    }
}

/// An artifact is asked for just where it is offered and no local copy has the
/// content that is offered.
pub proof fn law_changed_artifacts_are_asked_for(
    entries: Seq<ManifestEntry>,
    local: Seq<Option<crate::hash::Hash>>,
    path: Seq<char>,
)
    requires
        entries.len() == local.len(),
    ensures
        missing(entries, local).contains(path) <==> exists|i: int|
            0 <= i < entries.len() && (#[trigger] entries[i]).path@ == path && (local[i] is None
                || local[i]->0@ != entries[i].hash@),
    decreases entries.len(),
{
    if entries.len() > 0 {
        let e = entries.drop_last();
        let l = local.drop_last();
        let n = entries.len() - 1;
        law_changed_artifacts_are_asked_for(e, l, path);
        let before = missing(e, l);
        let all = missing(entries, local);
        let new = local[n] is None || local[n]->0@ != entries[n].hash@;
        assert(all == if new {
            before.push(entries[n].path@)
        } else {
            before
        });
        if before.contains(path) {
            let k = before.index_of(path);
            assert(all[k] == path);
            let i = choose|i: int|
                0 <= i < e.len() && (#[trigger] e[i]).path@ == path && (l[i] is None || l[i]->0@
                    != e[i].hash@);
            assert(entries[i] == e[i] && local[i] == l[i]);
        }
        if new && entries[n].path@ == path {
            assert(all[before.len() as int] == path);
        }
        if all.contains(path) {
            let k = all.index_of(path);
            if k < before.len() {
                assert(before[k] == path);
            }
        }
        if exists|i: int|
            0 <= i < entries.len() && (#[trigger] entries[i]).path@ == path && (local[i] is None
                || local[i]->0@ != entries[i].hash@) {
            let i = choose|i: int|
                0 <= i < entries.len() && (#[trigger] entries[i]).path@ == path && (local[i] is None
                    || local[i]->0@ != entries[i].hash@);
            if i < n {
                assert(e[i] == entries[i] && l[i] == local[i]);
            }
        }
    }
}

proof fn lemma_value_of(env: Seq<(String, String)>, name: Seq<char>, value: Seq<char>)
    ensures
        value_of(env, name) == Some(value) <==> exists|i: int|
            {
                &&& 0 <= i < env.len()
                &&& (#[trigger] env[i]).0@ == name
                &&& env[i].1@ == value
                &&& forall|j: int| 0 <= j < i ==> (#[trigger] env[j]).0@ != name
            },
    decreases env.len(),
{
    if env.len() > 0 && env[0].0@ != name {
        let rest = env.skip(1);
        lemma_value_of(rest, name, value);
        if value_of(rest, name) == Some(value) {
            let i = choose|i: int|
                {
                    &&& 0 <= i < rest.len()
                    &&& (#[trigger] rest[i]).0@ == name
                    &&& rest[i].1@ == value
                    &&& forall|j: int| 0 <= j < i ==> (#[trigger] rest[j]).0@ != name
                };
            assert(env[i + 1] == rest[i]);
            assert forall|j: int| 0 <= j < i + 1 implies (#[trigger] env[j]).0@ != name by {
                if j > 0 {
                    assert(rest[j - 1].0@ != name);
                }
            }
        }
        if exists|i: int|
            {
                &&& 0 <= i < env.len()
                &&& (#[trigger] env[i]).0@ == name
                &&& env[i].1@ == value
                &&& forall|j: int| 0 <= j < i ==> (#[trigger] env[j]).0@ != name
            } {
            let i = choose|i: int|
                {
                    &&& 0 <= i < env.len()
                    &&& (#[trigger] env[i]).0@ == name
                    &&& env[i].1@ == value
                    &&& forall|j: int| 0 <= j < i ==> (#[trigger] env[j]).0@ != name
                };
            assert(rest[i - 1] == env[i]);
            assert forall|j: int| 0 <= j < i - 1 implies (#[trigger] rest[j]).0@ != name by {
                assert(env[j + 1].0@ != name);
            }
        }
    } else if env.len() > 0 {
        if value_of(env, name) == Some(value) {
            assert(env[0].0@ == name);
        }
        if exists|i: int|
            {
                &&& 0 <= i < env.len()
                &&& (#[trigger] env[i]).0@ == name
                &&& env[i].1@ == value
                &&& forall|j: int| 0 <= j < i ==> (#[trigger] env[j]).0@ != name
            } {
            let i = choose|i: int|
                {
                    &&& 0 <= i < env.len()
                    &&& (#[trigger] env[i]).0@ == name
                    &&& env[i].1@ == value
                    &&& forall|j: int| 0 <= j < i ==> (#[trigger] env[j]).0@ != name
                };
            assert(i == 0) by {
                if i > 0 {
                    assert(env[0].0@ != name);
                }
            }
        }
    }
}

proof fn lemma_set_among(
    env: Seq<(String, String)>,
    names: Seq<Seq<char>>,
    name: Seq<char>,
    value: Seq<char>,
)
    ensures
        set_among(env, names).contains((name, value)) <==> names.contains(name) && value_of(
            env,
            name,
        ) == Some(value),
    decreases names.len(),
{
    let pair = (name, value);
    let all = set_among(env, names);
    if names.len() > 0 {
        let init = names.drop_last();
        let before = set_among(env, init);
        lemma_set_among(env, init, name, value);
        if before.contains(pair) {
            let k = before.index_of(pair);
            assert(all[k] == pair);
            let j = init.index_of(name);
            assert(names[j] == name);
        }
        if names.last() == name {
            assert(names[names.len() - 1] == name);
            if value_of(env, name) == Some(value) {
                assert(all[before.len() as int] == pair);
            }
        }
        if names.contains(name) && names.last() != name {
            let j = names.index_of(name);
            assert(init[j] == name);
        }
        if all.contains(pair) {
            let k = all.index_of(pair);
            if k < before.len() {
                assert(before[k] == pair);
            }
        }
    }
}

/// Which variables go with a build: the five that build tools rely on, wherever
/// they are set, each with the value that it has in the client's environment, and
/// no other variable.
pub proof fn law_forwarded_variables(
    env: Seq<(String, String)>,
    name: Seq<char>,
    value: Seq<char>,
)
    ensures
        set_among(env, kept_names()).contains((name, value)) <==> (name == "CARGO_TERM_COLOR"@
            || name == "RUST_BACKTRACE"@ || name == "RUSTFLAGS"@ || name == "CC"@ || name == "CXX"@)
            && exists|i: int|
            {
                &&& 0 <= i < env.len()
                &&& (#[trigger] env[i]).0@ == name
                &&& env[i].1@ == value
                &&& forall|j: int| 0 <= j < i ==> (#[trigger] env[j]).0@ != name
            },
{
    let names = kept_names();
    lemma_set_among(env, names, name, value);
    lemma_value_of(env, name, value);
    assert(names[0] == "CARGO_TERM_COLOR"@ && names[1] == "RUST_BACKTRACE"@ && names[2]
        == "RUSTFLAGS"@ && names[3] == "CC"@ && names[4] == "CXX"@);
    if names.contains(name) {
        let k = names.index_of(name);
        assert(k == 0 || k == 1 || k == 2 || k == 3 || k == 4);
    }
}

/// An artifact that was sent as it is comes back as it was, below the root, with
/// its mode.
pub proof fn law_raw_artifact_arrives(
    root: Seq<char>,
    path: Seq<char>,
    mode: u32,
    payload: Seq<u8>,
    out: Result<ArtifactWrite, DriveError>,
)
    requires
        artifact_outcome(root, path, mode, false, payload, out),
    ensures
        out matches Ok(w) && w.target@ == extended(root, path) && w.data@ == payload && w.mode
            == mode,
{
}

/// A list of variables shows each name with its value, in order.
pub proof fn law_every_pair_shows(list: Seq<(String, String)>, i: int)
    requires
        0 <= i < list.len(),
    ensures
        pair_views(list).len() == list.len(),
        pair_views(list)[i] == (list[i].0@, list[i].1@),
{
}

/// The names are looked up one by one, in order, and each that is set goes along
/// once.
pub proof fn law_names_are_looked_up_in_order(
    env: Seq<(String, String)>,
    names: Seq<Seq<char>>,
    name: Seq<char>,
)
    ensures
        set_among(env, Seq::empty()) == Seq::<(Seq<char>, Seq<char>)>::empty(),
        set_among(env, names.push(name)) == set_among(env, names) + (match value_of(env, name) {
            Some(value) => seq![(name, value)],
            None => Seq::<(Seq<char>, Seq<char>)>::empty(),
        }),
{
    assert(names.push(name).drop_last() =~= names);
    assert(set_among(env, names.push(name)) =~= set_among(env, names) + (match value_of(env, name) {
        Some(value) => seq![(name, value)],
        None => Seq::<(Seq<char>, Seq<char>)>::empty(),
    }));
}

} // verus!

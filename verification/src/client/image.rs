//! Building the remote build images on demand.
//!
//! The client carries the Dockerfiles and Wine wrappers, so it can build
//! `rbuild/linux` and `rbuild/wine` on the remote itself: over the same SSH
//! connection, streaming an in-memory tar build context into `docker build -`.
//! Nothing is written to the remote host filesystem; the resulting image lives
//! in Docker's own storage and is labelled for clean uninstall.

use vstd::prelude::*;
use vstd::string::StringExecFns;

use crate::client::deploy::LABEL;
use crate::proto::Target;
use crate::text::{same, trim, trimmed};

verus! {

/// The image that a target's builds run in.
pub open spec fn image_text(target: Target) -> Seq<char> {
    match target {
        Target::Linux => "rbuild/linux:latest"@,
        Target::Windows => "rbuild/wine:latest"@,
    }
}

/// The image that a target's builds run in.
pub fn image_name(target: Target) -> (name: &'static str)
    ensures
        name@ == image_text(target),
{
    match target {
        Target::Linux => "rbuild/linux:latest",
        Target::Windows => "rbuild/wine:latest",
    }
}

/// What to call a target's image when talking to the user.
pub fn image_kind(target: Target) -> (kind: &'static str)
    ensures
        kind@ == match target {
            Target::Linux => "Linux"@,
            Target::Windows => "Windows (Wine)"@,
        },
{
    match target {
        Target::Linux => "Linux",
        Target::Windows => "Windows (Wine)",
    }
}

/// The script that tells whether an image exists on the remote.
pub fn inspect_script(docker: &str, target: Target) -> (script: String)
    ensures
        script@ == docker@ + " image inspect "@ + image_text(target)
            + " >/dev/null 2>&1 && echo yes || echo no"@,
{
    docker.to_owned().concat(" image inspect ").concat(image_name(target)).concat(
        " >/dev/null 2>&1 && echo yes || echo no",
    )
}

/// Whether the image exists, out of what the script printed.
pub fn image_present(output: &str) -> (present: bool)
    ensures
        present == (trimmed(output@) == "yes"@),
{
    same(trim(output).as_str(), "yes")
}

/// The script that builds a target's image from a tar context on its input.
pub open spec fn build_text(docker: Seq<char>, target: Target) -> Seq<char> {
    docker + " build -t "@ + image_text(target) + " --label "@ + LABEL@ + " -"@
}

/// The script that has to run before a build, if any: the one that builds the
/// target's image, unless the image is there. Idempotent and safe to ask before
/// every build.
pub fn ensure_image(docker: &str, target: Target, present: bool) -> (script: Option<String>)
    ensures
        match script {
            Some(s) => !present && s@ == build_text(docker@, target),
            None => present,
        },
{
    if present {
        return None;
    }
    Some(
        docker.to_owned().concat(" build -t ").concat(image_name(target)).concat(
            " --label ",
        ).concat(LABEL).concat(" -"),
    )
}

/// The files that build contexts are made of.
#[derive(Debug)]
pub struct Assets {
    pub linux_dockerfile: String,
    pub wine_dockerfile: String,
    pub wine_common: String,
    pub wine_cargo: String,
    pub wine_rustc: String,
}

/// A file of a build context.
#[derive(Debug)]
pub struct ContextFile {
    pub path: String,
    pub contents: String,
    pub executable: bool,
}

/// A file of an archive: its path, its mode and its bytes.
pub struct ArchiveEntry {
    pub path: Seq<char>,
    pub mode: u32,
    pub bytes: Seq<u8>,
}

/// The mode that a file of a build context gets.
pub open spec fn file_mode(executable: bool) -> u32 {
    if executable {
        0o755u32
    } else {
        0o644u32
    }
}

/// An archive entry for a text file.
pub open spec fn text_entry(path: Seq<char>, contents: Seq<char>, executable: bool) -> ArchiveEntry {
    ArchiveEntry {
        path,
        mode: file_mode(executable),
        bytes: vstd::utf8::encode_utf8(contents),
    }
}

/// The files of a target's build context. The Dockerfile must be named
/// `Dockerfile`; the Wine image copies its wrappers, whose executable bit
/// matters.
pub open spec fn context_entries(target: Target, assets: Assets) -> Seq<ArchiveEntry> {
    match target {
        Target::Linux => seq![text_entry("Dockerfile"@, assets.linux_dockerfile@, false)],
        Target::Windows => seq![
            text_entry("Dockerfile"@, assets.wine_dockerfile@, false),
            text_entry("wine-wrappers/_common.sh"@, assets.wine_common@, true),
            text_entry("wine-wrappers/cargo"@, assets.wine_cargo@, true),
            text_entry("wine-wrappers/rustc"@, assets.wine_rustc@, true),
        ],
    }
}

/// What the files of a list are in an archive.
pub open spec fn as_entries(files: Seq<ContextFile>) -> Seq<ArchiveEntry> {
    Seq::new(
        files.len(),
        |i: int| text_entry(files[i].path@, files[i].contents@, files[i].executable),
    )
}

/// The files of a target's build context.
pub fn context_files(target: Target, assets: &Assets) -> (files: Vec<ContextFile>)
    ensures
        as_entries(files@) == context_entries(target, *assets),
{
    let files = match target {
        Target::Linux => vec![
            ContextFile {
                path: "Dockerfile".to_owned(),
                contents: assets.linux_dockerfile.clone(),
                executable: false,
            },
        ],
        Target::Windows => vec![
            ContextFile {
                path: "Dockerfile".to_owned(),
                contents: assets.wine_dockerfile.clone(),
                executable: false,
            },
            ContextFile {
                path: "wine-wrappers/_common.sh".to_owned(),
                contents: assets.wine_common.clone(),
                executable: true,
            },
            ContextFile {
                path: "wine-wrappers/cargo".to_owned(),
                contents: assets.wine_cargo.clone(),
                executable: true,
            },
            ContextFile {
                path: "wine-wrappers/rustc".to_owned(),
                contents: assets.wine_rustc.clone(),
                executable: true,
            },
        ],
    };
    assert(as_entries(files@) =~= context_entries(target, *assets));
    files
}

/// An archive under construction: a `tar::Builder` that writes to memory.
#[verifier::external_body]
pub struct Archive {
    inner: tar::Builder<Vec<u8>>,
}

/// The entries that an archive under construction holds.
pub uninterp spec fn tar_entries(archive: Archive) -> Seq<ArchiveEntry>;

/// The archive that `tar` makes of entries.
pub uninterp spec fn tar_bytes(entries: Seq<ArchiveEntry>) -> Seq<u8>;

/// Whether `tar` takes a file of this path into an archive.
pub uninterp spec fn tar_accepts(path: Seq<char>) -> bool;

/// Whether a character stands in plain paths.
pub open spec fn is_plain(c: char) -> bool {
    'a' <= c <= 'z' || 'A' <= c <= 'Z' || '0' <= c <= '9' || c == '_' || c == '-' || c == '.' || c
        == '/'
}

/// Whether the first `n` characters of a path are plain, with no two dots in a
/// row.
pub open spec fn plain_upto(path: Seq<char>, n: int) -> bool
    decreases n,
{
    n <= 0 || (is_plain(path[n - 1]) && !(n >= 2 && path[n - 1] == '.' && path[n - 2] == '.')
        && plain_upto(path, n - 1))
}

/// Whether a path is plain: relative, of letters, digits, `_`, `-`, `.` and `/`
/// with no two dots in a row, and short enough for an archive's header.
pub open spec fn plain_path(path: Seq<char>) -> bool {
    0 < path.len() <= 100 && path[0] != '/' && plain_upto(path, path.len() as int)
}

/// Calls `tar::Builder::new` on an empty vector.
///
/// Believed of the crate: a new archive holds no entry.
#[verifier::external_body]
fn tar_new() -> (archive: Archive)
    ensures
        tar_entries(archive) == Seq::<ArchiveEntry>::empty(),
{
    Archive { inner: tar::Builder::new(Vec::new()) }
}

/// Calls `tar::Builder::append_data` with a new GNU header that carries the
/// data's size and the mode.
///
/// Believed of the crate: whether it accepts a file depends on the path alone,
/// since nothing else fails in memory, and a plain path is accepted. A file that
/// it accepts is added after those that are there.
#[verifier::external_body]
fn tar_append(archive: &mut Archive, path: &str, mode: u32, data: &[u8]) -> (added:
    Result<(), std::io::Error>)
    ensures
        added is Ok <==> tar_accepts(path@),
        plain_path(path@) ==> added is Ok,
        added is Ok ==> tar_entries(*final(archive)) == tar_entries(*old(archive)).push(
            (ArchiveEntry { path: path@, mode, bytes: data@ }),
        ),
{
    let mut header = tar::Header::new_gnu();
    header.set_size(data.len() as u64);
    header.set_mode(mode);
    header.set_cksum();
    archive.inner.append_data(&mut header, path, data)
}

/// Calls `tar::Builder::into_inner`.
///
/// Believed of the crate: the bytes of a finished archive are a function of the
/// entries that were added, and in memory an archive can always be finished.
#[verifier::external_body]
fn tar_finish(archive: Archive) -> (bytes: Result<Vec<u8>, std::io::Error>)
    ensures
        bytes is Ok,
        bytes matches Ok(b) ==> b@ == tar_bytes(tar_entries(archive)),
{
    archive.inner.into_inner()
}

/// Why a build context could not be made.
#[derive(Debug)]
pub enum ContextError {
    /// A file was not accepted.
    Add(String),
    /// The archive could not be finished.
    Finish,
}

impl ContextError {
    /// What went wrong, in words.
    pub open spec fn text(self) -> Seq<char> {
        match self {
            ContextError::Add(path) => "adding "@ + path@ + " to build context"@,
            ContextError::Finish => "finalizing build context tar"@,
        }
    }

    /// What went wrong, in words.
    pub fn message(&self) -> (text: String)
        ensures
            text@ == self.text(),
    {
        match self {
            ContextError::Add(path) => "adding ".to_owned().concat(path.as_str()).concat(
                " to build context",
            ),
            ContextError::Finish => "finalizing build context tar".to_owned(),
        }
    }
}

proof fn lemma_context_paths_are_plain(target: Target, assets: Assets)
    ensures
        forall|i: int|
            0 <= i < context_entries(target, assets).len() ==> plain_path(
                (#[trigger] context_entries(target, assets)[i]).path,
            ),
{
    reveal_strlit("Dockerfile");
    reveal_strlit("wine-wrappers/_common.sh");
    reveal_strlit("wine-wrappers/cargo");
    reveal_strlit("wine-wrappers/rustc");
    reveal_with_fuel(plain_upto, 26);
    assert(plain_path("Dockerfile"@));
    assert(plain_path("wine-wrappers/_common.sh"@));
    assert(plain_path("wine-wrappers/cargo"@));
    assert(plain_path("wine-wrappers/rustc"@));
}

/// Builds an uncompressed tar of the Docker build context for `target`. Docker
/// accepts a raw tar on stdin. The files' paths are plain, so every one of them
/// is accepted.
pub fn build_context(target: Target, assets: &Assets) -> (context: Result<Vec<u8>, ContextError>)
    ensures
        context matches Ok(bytes) && bytes@ == tar_bytes(context_entries(target, *assets)),
{
    let files = context_files(target, assets);
    let ghost all = context_entries(target, *assets);
    let mut archive = tar_new();
    let mut i: usize = 0;
    proof {
        lemma_context_paths_are_plain(target, *assets);
    }
    assert(all.take(0) =~= Seq::<ArchiveEntry>::empty());
    while i < files.len()
        invariant
            i <= files@.len(),
            as_entries(files@) == all,
            all == context_entries(target, *assets),
            forall|j: int| 0 <= j < all.len() ==> plain_path((#[trigger] all[j]).path),
            tar_entries(archive) == all.take(i as int),
        decreases files@.len() - i,
    {
        let f = &files[i];
        assert(all[i as int] == as_entries(files@)[i as int]);
        let mode = if f.executable {
            0o755
        } else {
            0o644
        };
        if tar_append(&mut archive, f.path.as_str(), mode, f.contents.as_str().as_bytes()).is_err() {
            return Err(ContextError::Add(f.path.clone()));
        }
        assert(all.take(i + 1) =~= all.take(i as int).push(all[i as int]));
        i = i + 1;
    }
    assert(all.take(all.len() as int) =~= all);
    match tar_finish(archive) {
        Ok(bytes) => Ok(bytes),
        Err(_) => Err(ContextError::Finish),
    }
}

/// What a build context holds: the target's Dockerfile, under the name that Docker
/// looks for and not executable; for Windows also the three wrappers, executable.
/// Every file holds its asset's text, byte for byte.
pub proof fn law_context_holds_the_assets(assets: Assets)
    ensures
        ({
            let linux = context_entries(Target::Linux, assets);
            let wine = context_entries(Target::Windows, assets);
            &&& linux.len() == 1
            &&& linux[0].path == "Dockerfile"@ && linux[0].mode == 420 && linux[0].bytes
                == vstd::utf8::encode_utf8(assets.linux_dockerfile@)
            &&& wine.len() == 4
            &&& wine[0].path == "Dockerfile"@ && wine[0].mode == 420 && wine[0].bytes
                == vstd::utf8::encode_utf8(assets.wine_dockerfile@)
            &&& wine[1].path == "wine-wrappers/_common.sh"@ && wine[1].mode == 493 && wine[1].bytes
                == vstd::utf8::encode_utf8(assets.wine_common@)
            &&& wine[2].path == "wine-wrappers/cargo"@ && wine[2].mode == 493 && wine[2].bytes
                == vstd::utf8::encode_utf8(assets.wine_cargo@)
            &&& wine[3].path == "wine-wrappers/rustc"@ && wine[3].mode == 493 && wine[3].bytes
                == vstd::utf8::encode_utf8(assets.wine_rustc@)
        }),
{
}

/// An image is built under the name that builds ask for, with the label by which
/// an uninstall finds what is rbuild's.
pub proof fn law_image_is_built_under_its_name(docker: Seq<char>, target: Target)
    ensures
        build_text(docker, target) == docker + " build -t "@ + (match target {
            Target::Linux => "rbuild/linux:latest"@,
            Target::Windows => "rbuild/wine:latest"@,
        }) + " --label "@ + LABEL@ + " -"@,
{
}

/// The error about a file names the file.
pub proof fn law_context_error_names_the_file(path: String)
    ensures
        crate::text::has_text(ContextError::Add(path).text(), path@),
{
    let text = ContextError::Add(path).text();
    assert(text =~= "adding "@ + path@ + " to build context"@);
    crate::text::law_prefix_suffix_and_infix(text, path@);
}

/// A list of context files becomes a list of archive entries, one for each: its
/// path, its text byte for byte, and the mode of an executable or a plain file.
pub proof fn law_every_context_file_is_archived(files: Seq<ContextFile>, i: int)
    requires
        0 <= i < files.len(),
    ensures
        as_entries(files).len() == files.len(),
        as_entries(files)[i].path == files[i].path@,
        as_entries(files)[i].bytes == vstd::utf8::encode_utf8(files[i].contents@),
        as_entries(files)[i].mode == if files[i].executable {
            493int
        } else {
            420
        },
{
}

} // verus!

//! Bootstrapping rbuild's remote side: entirely in Docker, nothing on the host
//! filesystem.
//!
//! The daemon is a static binary stored in a labelled Docker volume
//! (`rbuild-bin`). The daemon, and every build it launches, run in containers
//! that mount labelled named volumes for the workspace and cache. So the
//! remote's only footprint is Docker's own storage: `rbuild uninstall` removes
//! the labelled volumes and images and the host is exactly as it was.

use vstd::prelude::*;
use vstd::string::StringExecFns;

use crate::config::RemoteConfig;
use crate::path::{extend, extended};
use crate::text::{
    has_prefix, has_suffix, has_text, law_prefix_suffix_and_infix, lines, same, split_lines, trim,
    trimmed, views,
};

verus! {

/// Label put on every volume and image rbuild creates, so uninstall can find
/// and remove them all without guessing names.
pub const LABEL: &'static str = "rbuild=true";

/// Label put on every daemon container, so running daemons can be found and
/// stopped without touching build containers.
pub const DAEMON_LABEL: &'static str = "rbuild.role=daemon";

/// Minimal image used to host the daemon and run cleanup. `docker:cli` carries
/// the docker client the daemon needs to launch sibling build containers.
pub const DAEMON_IMAGE: &'static str = "docker:cli";

/// Tiny image for plain file operations (streaming the daemon binary into its
/// volume). Kept separate from the daemon image because its entrypoint is a
/// shell, not the docker client.
pub const HELPER_IMAGE: &'static str = "alpine";

/// Name of the labelled volume that holds the daemon binary. It is shared;
/// workspace and cache volumes are per workspace id.
pub const BIN_VOLUME: &'static str = "rbuild-bin";

/// Why the remote side could not be set up.
#[derive(Debug)]
pub enum DeployError {
    /// Docker works neither plainly nor with sudo on this host.
    NoDocker(String),
    /// The daemon binary is in none of its places.
    NoDaemonBinary,
}

impl DeployError {
    /// What went wrong, in words.
    pub open spec fn text(self) -> Seq<char> {
        match self {
            DeployError::NoDocker(host) => "Docker not usable on "@ + host@
                + " as `docker` or `sudo docker`. Ensure Docker is installed and your SSH user can run it (docker group, or passwordless sudo)."@,
            DeployError::NoDaemonBinary => "static daemon binary not found (looked in target/daemon/). Build it with `scripts/build-daemon.sh`."@,
        }
    }

    /// What went wrong, in words.
    pub fn message(&self) -> (text: String)
        ensures
            text@ == self.text(),
    {
        match self {
            DeployError::NoDocker(host) => "Docker not usable on ".to_owned().concat(
                host.as_str(),
            ).concat(
                " as `docker` or `sudo docker`. Ensure Docker is installed and your SSH user can run it (docker group, or passwordless sudo).",
            ),
            DeployError::NoDaemonBinary => "static daemon binary not found (looked in target/daemon/). Build it with `scripts/build-daemon.sh`.".to_owned(),
        }
    }
}

/// The volume of a workspace.
pub open spec fn ws_name(workspace_id: Seq<char>) -> Seq<char> {
    "rbuild-ws-"@ + workspace_id
}

/// The cache volume of a workspace.
pub open spec fn cache_name(workspace_id: Seq<char>) -> Seq<char> {
    "rbuild-cache-"@ + workspace_id
}

/// The volume of a workspace.
pub fn ws_volume(workspace_id: &str) -> (name: String)
    ensures
        name@ == ws_name(workspace_id@),
{
    "rbuild-ws-".to_owned().concat(workspace_id)
}

/// The cache volume of a workspace.
pub fn cache_volume(workspace_id: &str) -> (name: String)
    ensures
        name@ == cache_name(workspace_id@),
{
    "rbuild-cache-".to_owned().concat(workspace_id)
}

/// Different workspaces never share a volume, and no volume serves both as
/// workspace and as cache.
pub proof fn law_volumes_are_distinct(a: Seq<char>, b: Seq<char>)
    ensures
        ws_name(a) == ws_name(b) ==> a == b,
        cache_name(a) == cache_name(b) ==> a == b,
        ws_name(a) != cache_name(b),
{
    reveal_strlit("rbuild-ws-");
    reveal_strlit("rbuild-cache-");
    assert(a =~= ws_name(a).skip("rbuild-ws-"@.len() as int));
    assert(b =~= ws_name(b).skip("rbuild-ws-"@.len() as int));
    assert(a =~= cache_name(a).skip("rbuild-cache-"@.len() as int));
    assert(b =~= cache_name(b).skip("rbuild-cache-"@.len() as int));
    assert(ws_name(a)[7] == 'w');
    assert(cache_name(b)[7] == 'c');
}

/// The arguments of `ssh` that reach the remote. Batch mode makes a missing key
/// fail fast instead of hanging on a password prompt that has nowhere to read
/// from.
pub open spec fn ssh_args(remote: RemoteConfig) -> Seq<Seq<char>> {
    match remote.identity_file {
        Some(id) => seq!["-o"@, "BatchMode=yes"@, "-i"@, id@, remote.host@],
        None => seq!["-o"@, "BatchMode=yes"@, remote.host@],
    }
}

/// The arguments of `ssh` that reach the remote.
pub fn ssh_base(remote: &RemoteConfig) -> (args: Vec<String>)
    ensures
        views(args@) == ssh_args(*remote),
{
    let args = match &remote.identity_file {
        Some(id) => vec![
            "-o".to_owned(),
            "BatchMode=yes".to_owned(),
            "-i".to_owned(),
            id.clone(),
            remote.host.clone(),
        ],
        None => vec!["-o".to_owned(), "BatchMode=yes".to_owned(), remote.host.clone()],
    };
    assert(views(args@) =~= ssh_args(*remote));
    args
}

/// The arguments of `ssh` that run a script on the remote. The script is one
/// argument, so SSH hands it to the remote login shell intact.
pub fn ssh_command(remote: &RemoteConfig, script: &str) -> (args: Vec<String>)
    ensures
        views(args@) == ssh_args(*remote).push(script@),
{
    let mut args = ssh_base(remote);
    let ghost before = args@;
    args.push(script.to_owned());
    assert(views(args@) =~= views(before).push(script@));
    args
}

/// How Docker is invoked on the remote.
pub open spec fn docker_of(remote: RemoteConfig) -> Seq<char> {
    if remote.docker@.len() == 0 {
        "docker"@
    } else {
        remote.docker@
    }
}

/// The Docker invocation to use on the remote: `docker` or `sudo docker`. Uses
/// the cached value from config when present, otherwise `docker`.
pub fn docker_cmd(remote: &RemoteConfig) -> (cmd: &str)
    ensures
        cmd@ == docker_of(*remote),
{
    if remote.docker.as_str().is_empty() {
        "docker"
    } else {
        remote.docker.as_str()
    }
}

/// The invocations of Docker to try, in order.
pub open spec fn candidates() -> Seq<Seq<char>> {
    seq!["docker"@, "sudo docker"@]
}

/// The invocations of Docker to try, in order: plain `docker`, then `sudo
/// docker` (for hosts where the user isn't in the docker group but has
/// passwordless sudo).
pub fn docker_candidates() -> (list: Vec<String>)
    ensures
        views(list@) == candidates(),
{
    let list = vec!["docker".to_owned(), "sudo docker".to_owned()];
    assert(views(list@) =~= candidates());
    list
}

/// The script that tells whether an invocation of Docker works.
pub fn docker_probe(candidate: &str) -> (script: String)
    ensures
        script@ == candidate@ + " version --format '{{.Server.Version}}'"@,
{
    candidate.to_owned().concat(" version --format '{{.Server.Version}}'")
}

/// How Docker must be invoked on the remote, given which of the candidates
/// worked: the first that did. The result is cached in config by the caller.
pub fn detect_docker(remote: &RemoteConfig, plain_works: bool, sudo_works: bool) -> (cmd: Result<
    String,
    DeployError,
>)
    ensures
        match cmd {
            Ok(c) => c@ == if plain_works {
                candidates()[0]
            } else {
                candidates()[1]
            } && (plain_works || sudo_works),
            Err(e) => !plain_works && !sudo_works && e == DeployError::NoDocker(remote.host),
        },
{
    if plain_works {
        Ok("docker".to_owned())
    } else if sudo_works {
        Ok("sudo docker".to_owned())
    } else {
        Err(DeployError::NoDocker(remote.host.clone()))
    }
}

/// The script that lists the daemon binary's volume.
pub fn bin_volume_script(docker: &str) -> (script: String)
    ensures
        script@ == docker@ + " volume ls -q -f name=^"@ + BIN_VOLUME@ + "$"@,
{
    docker.to_owned().concat(" volume ls -q -f name=^").concat(BIN_VOLUME).concat("$")
}

/// Whether the daemon binary volume already exists on the remote, out of what
/// the listing printed. Used to decide if a deploy is needed before launching
/// the daemon container.
pub fn bin_volume_present(output: &str) -> (present: bool)
    ensures
        present == exists|i: int|
            0 <= i < lines(trimmed(output@)).len() && trimmed(
                #[trigger] lines(trimmed(output@))[i],
            ) == BIN_VOLUME@,
{
    let bare = trim(output);
    let list = split_lines(bare.as_str());
    let ghost all = lines(trimmed(output@));
    let mut i: usize = 0;
    while i < list.len()
        invariant
            i <= list@.len(),
            views(list@) == all,
            all == lines(trimmed(output@)),
            forall|j: int| 0 <= j < i ==> trimmed(#[trigger] all[j]) != BIN_VOLUME@,
        decreases list@.len() - i,
    {
        assert(all[i as int] == list@[i as int]@);
        if same(trim(list[i].as_str()).as_str(), BIN_VOLUME) {
            assert(trimmed(all[i as int]) == BIN_VOLUME@);
            return true;
        }
        i = i + 1;
    }
    assert(all.len() == list@.len());
    false
}

/// The script that loads the daemon binary, read from its input, into the
/// labelled volume. Idempotent: re-running overwrites the binary in place, so a
/// re-deploy after any change never duplicates state.
///
/// The helper image's entrypoint is overridden to `sh` so the redirect runs in
/// a real shell. The inner script uses only double quotes, so it survives SSH
/// concatenating the command into one string for the remote login shell.
pub fn upload_script(docker: &str) -> (script: String)
    ensures
        script@ == docker@ + " volume create --label "@ + LABEL@ + " "@ + BIN_VOLUME@
            + " >/dev/null && "@ + docker@ + " run --rm -i -v "@ + BIN_VOLUME@
            + ":/out --entrypoint sh "@ + HELPER_IMAGE@
            + " -c \"cat > /out/rbuildd && chmod 755 /out/rbuildd\""@,
{
    docker.to_owned().concat(" volume create --label ").concat(LABEL).concat(" ").concat(
        BIN_VOLUME,
    ).concat(" >/dev/null && ").concat(docker).concat(" run --rm -i -v ").concat(
        BIN_VOLUME,
    ).concat(":/out --entrypoint sh ").concat(HELPER_IMAGE).concat(
        " -c \"cat > /out/rbuildd && chmod 755 /out/rbuildd\"",
    )
}

/// Where the static daemon binary may lie, given the directory of the client's
/// own binary. The daemon runs in a minimal container, so it must be the static
/// build, never a dynamically-linked one next to the client.
pub fn daemon_binary_places(dir: &str) -> (places: (String, String))
    ensures
        places.0@ == extended(extended(dir@, "daemon"@), "rbuildd"@),
        places.1@ == extended(extended(extended(dir@, ".."@), "daemon"@), "rbuildd"@),
{
    (
        // Packaged layout: rbuild and daemon/rbuildd shipped side by side.
        extend(extend(dir, "daemon").as_str(), "rbuildd"),
        // Development layout: target/<profile>/rbuild and target/daemon/rbuildd.
        extend(extend(extend(dir, "..").as_str(), "daemon").as_str(), "rbuildd"),
    )
}

/// The place to take the daemon binary from: the first that is a file.
pub fn daemon_binary(dir: &str, packaged: bool, development: bool) -> (place: Result<
    String,
    DeployError,
>)
    ensures
        match place {
            Ok(p) => (packaged || development) && p@ == if packaged {
                extended(extended(dir@, "daemon"@), "rbuildd"@)
            } else {
                extended(extended(extended(dir@, ".."@), "daemon"@), "rbuildd"@)
            },
            Err(e) => !packaged && !development && e == DeployError::NoDaemonBinary,
        },
{
    let (first, second) = daemon_binary_places(dir);
    if packaged {
        Ok(first)
    } else if development {
        Ok(second)
    } else {
        Err(DeployError::NoDaemonBinary)
    }
}

/// The script that removes every labelled volume and rbuild image from the
/// remote: the entire remote footprint. Safe to run repeatedly; each step
/// tolerates "nothing to remove".
pub fn wipe_remote(docker: &str) -> (script: String)
    ensures
        script@ == "vols=$("@ + docker@ + " volume ls -q -f label="@ + LABEL@
            + "); [ -n \"$vols\" ] && "@ + docker@ + " volume rm -f $vols >/dev/null 2>&1; "@
            + docker@ + " rmi rbuild/linux:latest rbuild/wine:latest >/dev/null 2>&1; true"@,
{
    "vols=$(".to_owned().concat(docker).concat(" volume ls -q -f label=").concat(LABEL).concat(
        "); [ -n \"$vols\" ] && ",
    ).concat(docker).concat(" volume rm -f $vols >/dev/null 2>&1; ").concat(docker).concat(
        " rmi rbuild/linux:latest rbuild/wine:latest >/dev/null 2>&1; true",
    )
}

/// The script that stops every running daemon container.
pub open spec fn kill_text(docker: Seq<char>) -> Seq<char> {
    "ids=$("@ + docker + " ps -q -f label="@ + DAEMON_LABEL@ + "); [ -n \"$ids\" ] && "@ + docker
        + " kill $ids >/dev/null 2>&1; true"@
}

/// The script that stops every running daemon container, so that the next
/// connection launches a fresh one from the binary in the volume. Build
/// containers are untouched: only the daemons' label is looked for.
pub fn kill_daemons(docker: &str) -> (script: String)
    ensures
        script@ == kill_text(docker@),
{
    "ids=$(".to_owned().concat(docker).concat(" ps -q -f label=").concat(DAEMON_LABEL).concat(
        "); [ -n \"$ids\" ] && ",
    ).concat(docker).concat(" kill $ids >/dev/null 2>&1; true")
}

/// What ssh is called with: batch mode first, the remote's host last, and the
/// identity file, where there is one, right before the host.
pub proof fn law_ssh_names_the_host_last(remote: RemoteConfig)
    ensures
        ({
            let args = ssh_args(remote);
            &&& args.last() == remote.host@
            &&& args[0] == "-o"@ && args[1] == "BatchMode=yes"@
            &&& match remote.identity_file {
                Some(id) => args.len() == 5 && args[2] == "-i"@ && args[3] == id@,
                None => args.len() == 3,
            }
        }),
{
}

/// Docker is invoked as the remote's configuration says, and plainly where it says
/// nothing.
pub proof fn law_configured_docker_is_used(remote: RemoteConfig)
    ensures
        remote.docker@.len() > 0 ==> docker_of(remote) == remote.docker@,
        remote.docker@.len() == 0 ==> docker_of(remote) == "docker"@,
{
}

/// The daemons are looked for by their label, and what is found is stopped, with the
/// same invocation of Docker.
pub proof fn law_daemons_are_found_and_stopped(docker: Seq<char>)
    ensures
        has_prefix(kill_text(docker), "ids=$("@ + docker + " ps -q -f label="@ + DAEMON_LABEL@),
        has_suffix(kill_text(docker), docker + " kill $ids >/dev/null 2>&1; true"@),
{
    let script = kill_text(docker);
    let find = "ids=$("@ + docker + " ps -q -f label="@ + DAEMON_LABEL@;
    let middle = "); [ -n \"$ids\" ] && "@;
    let stop = docker + " kill $ids >/dev/null 2>&1; true"@;
    assert(script =~= find + (middle + stop));
    assert(script =~= (find + middle) + stop);
    law_prefix_suffix_and_infix(script, find);
    law_prefix_suffix_and_infix(script, stop);
}

/// The error about a missing Docker names the host.
pub proof fn law_missing_docker_names_the_host(host: String)
    ensures
        has_text(DeployError::NoDocker(host).text(), host@),
{
    let text = DeployError::NoDocker(host).text();
    let tail =
        " as `docker` or `sudo docker`. Ensure Docker is installed and your SSH user can run it (docker group, or passwordless sudo)."@;
    assert(text =~= "Docker not usable on "@ + host@ + tail);
    law_prefix_suffix_and_infix(text, host@);
}

} // verus!

//! Establishing the daemon connection over SSH.
//!
//! No port is ever opened. The client SSHes in and launches the daemon as a
//! Docker container (`docker run ... rbuildd serve`), speaking the frame
//! protocol over that process's stdin/stdout. The daemon container mounts the
//! Docker socket (so it can launch sibling build containers) plus the labelled
//! workspace and cache volumes. Nothing is written to the remote host FS.

use vstd::prelude::*;
use vstd::string::StringExecFns;

use crate::client::deploy::{
    cache_name, cache_volume, docker_cmd, docker_of, kill_text, ssh_args, ssh_command, ws_name,
    ws_volume, DeployError, BIN_VOLUME, DAEMON_IMAGE, DAEMON_LABEL, LABEL,
};
use crate::config::RemoteConfig;
use crate::daemon::serve::answers;
use crate::proto::{Message, PROTOCOL_VERSION};
use crate::text::{
    decimal, has_prefix, has_suffix, has_text, law_prefix_suffix_and_infix, occurs_at, to_decimal, trim,
    trimmed, views,
};

verus! {

/// Why a connection could not be made.
#[derive(Debug)]
pub enum ConnectError {
    /// The daemon refused the handshake, or speaks another protocol.
    Rejected { protocol: u32, message: String },
    /// The daemon answered the handshake with something else.
    Unexpected(Message),
}

impl ConnectError {
    /// What went wrong, in words, for the errors whose words the library has.
    pub fn message(&self) -> (text: Option<String>)
        ensures
            match *self {
                ConnectError::Rejected { protocol, message } => text matches Some(t) && t@
                    == "daemon rejected handshake (protocol "@ + decimal(protocol as nat)
                    + ", ours "@ + decimal(PROTOCOL_VERSION as nat) + "): "@ + message@,
                ConnectError::Unexpected(_) => text is None,
            },
    {
        match self {
            ConnectError::Rejected { protocol, message } => Some(
                "daemon rejected handshake (protocol ".to_owned().concat(
                    to_decimal(*protocol as u64).as_str(),
                ).concat(", ours ").concat(to_decimal(PROTOCOL_VERSION as u64).as_str()).concat(
                    "): ",
                ).concat(message.as_str()),
            ),
            ConnectError::Unexpected(_) => None,
        }
    }
}

/// What an error says when ssh itself failed, and not what ran on the remote.
pub const SSH_FAILED: &'static str = "connection to the remote failed";

/// Whether ssh itself failed, given its exit code (none where it could not be
/// run or was killed): it exits with 255 then, and with the remote command's own
/// code otherwise.
pub fn ssh_failed(code: Option<i32>) -> (failed: bool)
    ensures
        failed == match code {
            Some(c) => c == 255,
            None => true,
        },
{
    match code {
        Some(c) => c == 255,
        None => true,
    }
}

/// A step of connecting that failed, with what the remote or ssh printed.
#[derive(Debug)]
pub enum ConnectFailure {
    /// Docker could not be found on the host.
    Detect { host: String, said: String, ssh_failed: bool },
    /// The daemon binary could not be loaded.
    Upload { said: String, ssh_failed: bool },
    /// The daemon never spoke.
    Launch { said: String },
}

impl ConnectFailure {
    /// Whether the failure was ssh's own.
    pub open spec fn ssh_failed(self) -> bool {
        match self {
            ConnectFailure::Detect { ssh_failed, .. } => ssh_failed,
            ConnectFailure::Upload { ssh_failed, .. } => ssh_failed,
            ConnectFailure::Launch { .. } => false,
        }
    }

    /// The messages of the error that reports the failure, outermost first.
    pub open spec fn texts(self) -> Seq<Seq<char>> {
        match self {
            ConnectFailure::Detect { host, said, ssh_failed } => if ssh_failed {
                seq![DeployError::NoDocker(host).text(), said@, SSH_FAILED@]
            } else {
                seq![DeployError::NoDocker(host).text()]
            },
            ConnectFailure::Upload { said, ssh_failed } => if ssh_failed {
                seq!["auto-deploying rbuildd"@, "daemon upload failed: "@ + said@, SSH_FAILED@]
            } else {
                seq!["auto-deploying rbuildd"@, "daemon upload failed: "@ + said@]
            },
            ConnectFailure::Launch { said } => seq![
                "daemon did not respond. remote said: "@ + trimmed(said@),
            ],
        }
    }

    /// The messages of the error that reports the failure, outermost first.
    pub fn messages(self) -> (list: Vec<String>)
        ensures
            views(list@) == self.texts(),
    {
        let ghost texts = self.texts();
        let list = match self {
            ConnectFailure::Detect { host, said, ssh_failed } => {
                let none = DeployError::NoDocker(host).message();
                if ssh_failed {
                    vec![none, said, SSH_FAILED.to_owned()]
                } else {
                    vec![none]
                }
            },
            ConnectFailure::Upload { said, ssh_failed } => {
                let outer = "auto-deploying rbuildd".to_owned();
                let inner = "daemon upload failed: ".to_owned().concat(said.as_str());
                if ssh_failed {
                    vec![outer, inner, SSH_FAILED.to_owned()]
                } else {
                    vec![outer, inner]
                }
            },
            ConnectFailure::Launch { said } => vec![
                "daemon did not respond. remote said: ".to_owned().concat(
                    trim(said.as_str()).as_str(),
                ),
            ],
        };
        assert(views(list@) =~= texts);
        list
    }
}

/// What connecting has to do next.
#[derive(Debug, Clone, Copy, PartialEq, Eq, Structural)]
pub enum ConnectStep {
    /// Probe how Docker is invoked on the remote, and cache the answer.
    DetectDocker,
    /// See whether the daemon binary's volume exists.
    CheckVolume,
    /// Load the daemon binary into its volume.
    Deploy,
    /// Launch the daemon container and shake hands.
    Launch,
}

/// The first step of connecting: Docker is probed only when its invocation is
/// not known yet.
pub fn connect_or_deploy(remote: &RemoteConfig) -> (step: ConnectStep)
    ensures
        step == if remote.docker@.len() == 0 {
            ConnectStep::DetectDocker
        } else {
            ConnectStep::CheckVolume
        },
{
    if remote.docker.as_str().is_empty() {
        ConnectStep::DetectDocker
    } else {
        ConnectStep::CheckVolume
    }
}

/// The step after the volume check. The daemon is deployed first when the
/// volume is absent or could not be looked for: launching the daemon container
/// mounts the bin volume, which would auto-create it *unlabelled*, and a later
/// `docker volume create --label` is a no-op on an existing volume.
pub fn after_check(present: Option<bool>) -> (step: ConnectStep)
    ensures
        step == if present == Some(true) {
            ConnectStep::Launch
        } else {
            ConnectStep::Deploy
        },
{
    match present {
        Some(true) => ConnectStep::Launch,
        _ => ConnectStep::Deploy,
    }
}

/// The remote's configuration with the detected Docker invocation in it.
pub fn with_docker(remote: &RemoteConfig, docker: String) -> (detected: RemoteConfig)
    ensures
        detected.host == remote.host,
        detected.identity_file == remote.identity_file,
        detected.docker == docker,
{
    let identity_file = match &remote.identity_file {
        Some(id) => Some(id.clone()),
        None => None,
    };
    RemoteConfig { host: remote.host.clone(), identity_file, docker }
}

/// The remote shell command that launches the daemon.
pub open spec fn launch_text(docker: Seq<char>, workspace_id: Seq<char>) -> Seq<char> {
    let ws = ws_name(workspace_id);
    let cache = cache_name(workspace_id);
    docker + " volume create --label "@ + LABEL@ + " "@ + ws + " >/dev/null; "@ + docker
        + " volume create --label "@ + LABEL@ + " "@ + cache + " >/dev/null; exec "@ + docker
        + " run --rm -i --label "@ + DAEMON_LABEL@
        + " -v /var/run/docker.sock:/var/run/docker.sock -v "@ + BIN_VOLUME@
        + ":/rbuild-bin -v "@ + ws + ":/work -v "@ + cache
        + ":/cache -e RBUILD_WORK=/work -e RBUILD_WS_VOLUME="@ + ws + " -e RBUILD_CACHE_VOLUME="@
        + cache + " "@ + DAEMON_IMAGE@ + " /rbuild-bin/rbuildd serve"@
}

/// The remote shell command that creates the workspace's volumes (idempotent)
/// and runs the daemon container. `docker` is the client-side invocation
/// (`docker` or `sudo docker`); inside the launched container the daemon uses
/// plain `docker` against the mounted socket, so no sudo is needed there. The
/// container is labelled so that running daemons can be found and stopped.
pub fn launch_script(docker: &str, workspace_id: &str) -> (script: String)
    ensures
        script@ == launch_text(docker@, workspace_id@),
{
    let ws = ws_volume(workspace_id);
    let cache = cache_volume(workspace_id);
    docker.to_owned().concat(" volume create --label ").concat(LABEL).concat(" ").concat(
        ws.as_str(),
    ).concat(" >/dev/null; ").concat(docker).concat(" volume create --label ").concat(
        LABEL,
    ).concat(" ").concat(cache.as_str()).concat(" >/dev/null; exec ").concat(docker).concat(
        " run --rm -i --label ",
    ).concat(DAEMON_LABEL).concat(
        " -v /var/run/docker.sock:/var/run/docker.sock -v ",
    ).concat(BIN_VOLUME).concat(":/rbuild-bin -v ").concat(ws.as_str()).concat(
        ":/work -v ",
    ).concat(cache.as_str()).concat(":/cache -e RBUILD_WORK=/work -e RBUILD_WS_VOLUME=").concat(
        ws.as_str(),
    ).concat(" -e RBUILD_CACHE_VOLUME=").concat(cache.as_str()).concat(" ").concat(
        DAEMON_IMAGE,
    ).concat(" /rbuild-bin/rbuildd serve")
}

/// Stopping the daemons finds every one that was launched: both scripts name
/// the same label, the one to set it and the other to look for it.
pub proof fn law_daemons_are_stopped_by_their_label(docker: Seq<char>, workspace_id: Seq<char>)
    ensures
        has_text(launch_text(docker, workspace_id), " --label "@ + DAEMON_LABEL@),
        has_text(kill_text(docker), " -f label="@ + DAEMON_LABEL@),
{
    let ws = ws_name(workspace_id);
    let cache = cache_name(workspace_id);
    let launch = launch_text(docker, workspace_id);
    let before = docker + " volume create --label "@ + LABEL@ + " "@ + ws + " >/dev/null; "@ + docker
        + " volume create --label "@ + LABEL@ + " "@ + cache + " >/dev/null; exec "@ + docker;
    let set = " --label "@ + DAEMON_LABEL@;
    reveal_strlit(" run --rm -i --label ");
    reveal_strlit(" --label ");
    let run = " run --rm -i --label "@;
    let n = before.len() + run.len() - " --label "@.len();
    assert(run.skip(run.len() - " --label "@.len()) =~= " --label "@);
    assert(launch.take((before + run + DAEMON_LABEL@).len() as int) =~= before + run
        + DAEMON_LABEL@);
    assert(launch.subrange(n, n + set.len()) =~= (before + run + DAEMON_LABEL@).subrange(
        n,
        n + set.len(),
    ));
    assert((before + run + DAEMON_LABEL@).subrange(n, n + set.len()) =~= set);
    assert(occurs_at(launch, set, n));
    let kill = kill_text(docker);
    let find = " -f label="@ + DAEMON_LABEL@;
    reveal_strlit(" ps -q -f label=");
    reveal_strlit(" -f label=");
    let ps = " ps -q -f label="@;
    let head = "ids=$("@ + docker;
    let k = head.len() + ps.len() - " -f label="@.len();
    assert(ps.skip(ps.len() - " -f label="@.len()) =~= " -f label="@);
    assert(kill.take((head + ps + DAEMON_LABEL@).len() as int) =~= head + ps + DAEMON_LABEL@);
    assert(kill.subrange(k, k + find.len()) =~= (head + ps + DAEMON_LABEL@).subrange(
        k,
        k + find.len(),
    ));
    assert((head + ps + DAEMON_LABEL@).subrange(k, k + find.len()) =~= find);
    assert(occurs_at(kill, find, k));
}

/// The arguments of `ssh` that launch the daemon.
pub fn connect_args(remote: &RemoteConfig, workspace_id: &str) -> (args: Vec<String>)
    ensures
        views(args@) == ssh_args(*remote).push(launch_text(docker_of(*remote), workspace_id@)),
{
    ssh_command(remote, launch_script(docker_cmd(remote), workspace_id).as_str())
}

/// The stream reserved for the connection-level handshake.
pub const HANDSHAKE_STREAM: u32 = 0;

/// The first message the client sends.
pub fn hello(version: &str) -> (message: Message)
    ensures
        message matches Message::Hello { protocol, client_version } && protocol == PROTOCOL_VERSION
            && client_version@ == version@,
{
    Message::Hello { protocol: PROTOCOL_VERSION, client_version: version.to_owned() }
}

/// What the client makes of the daemon's answer to the handshake.
pub open spec fn accepts(answer: Message, version: Result<String, ConnectError>) -> bool {
    match answer {
        Message::Welcome { protocol, daemon_version, ok, message } => if ok && protocol
            == PROTOCOL_VERSION {
            version == Ok::<String, ConnectError>(daemon_version)
        } else {
            version == Err::<String, ConnectError>(ConnectError::Rejected { protocol, message })
        },
        other => version == Err::<String, ConnectError>(ConnectError::Unexpected(other)),
    }
}

/// The daemon's version, out of its answer to the handshake.
pub fn accept(answer: Message) -> (version: Result<String, ConnectError>)
    ensures
        accepts(answer, version),
{
    match answer {
        Message::Welcome { protocol, daemon_version, ok, message } => {
            if !ok || protocol != PROTOCOL_VERSION {
                Err(ConnectError::Rejected { protocol, message })
            } else {
                Ok(daemon_version)
            }
        },
        other => Err(ConnectError::Unexpected(other)),
    }
}

/// Whether a message is the greeting of a client of this protocol version.
pub open spec fn says_hello(message: Message) -> bool {
    message matches Message::Hello { protocol, .. } && protocol == PROTOCOL_VERSION
}

/// A client and a daemon of the same protocol version shake hands, and the
/// client learns the daemon's version. With any other first message the daemon
/// declines, and the client that reads its answer gives up: no session ever
/// begins on a mismatch.
pub proof fn law_handshake_agrees(
    first: Message,
    version: Seq<char>,
    answer: (Message, bool),
    out: Result<String, ConnectError>,
)
    requires
        answers(first, version, answer),
        accepts(answer.0, out),
    ensures
        answer.1 <==> says_hello(first),
        match out {
            Ok(v) => answer.1 && v@ == version,
            Err(ConnectError::Rejected { protocol, message }) => !answer.1 && protocol
                == PROTOCOL_VERSION && message@ == "protocol version mismatch"@,
            Err(_) => false,
        },
{
}

/// The daemon gets the volumes of its own workspace: they are made first, with the
/// label by which an uninstall finds them, then mounted as work and cache
/// directory, and named to the daemon, which mounts them into its builds.
pub proof fn law_daemon_gets_its_volumes(docker: Seq<char>, workspace_id: Seq<char>)
    ensures
        ({
            let script = launch_text(docker, workspace_id);
            let ws = "rbuild-ws-"@ + workspace_id;
            let cache = "rbuild-cache-"@ + workspace_id;
            &&& has_prefix(
                script,
                docker + " volume create --label "@ + LABEL@ + " "@ + ws + " >/dev/null; "@ + docker
                    + " volume create --label "@ + LABEL@ + " "@ + cache + " >/dev/null; exec "@
                    + docker + " run --rm -i --label "@ + DAEMON_LABEL@,
            )
            &&& has_text(
                script,
                BIN_VOLUME@ + ":/rbuild-bin -v "@ + ws + ":/work -v "@ + cache
                    + ":/cache -e RBUILD_WORK=/work -e RBUILD_WS_VOLUME="@ + ws
                    + " -e RBUILD_CACHE_VOLUME="@ + cache + " "@,
            )
            &&& has_suffix(script, DAEMON_IMAGE@ + " /rbuild-bin/rbuildd serve"@)
        }),
{
    let script = launch_text(docker, workspace_id);
    let ws = "rbuild-ws-"@ + workspace_id;
    let cache = "rbuild-cache-"@ + workspace_id;
    let head = docker + " volume create --label "@ + LABEL@ + " "@ + ws + " >/dev/null; "@ + docker
        + " volume create --label "@ + LABEL@ + " "@ + cache + " >/dev/null; exec "@ + docker
        + " run --rm -i --label "@ + DAEMON_LABEL@;
    let socket = " -v /var/run/docker.sock:/var/run/docker.sock -v "@;
    let mounts = BIN_VOLUME@ + ":/rbuild-bin -v "@ + ws + ":/work -v "@ + cache
        + ":/cache -e RBUILD_WORK=/work -e RBUILD_WS_VOLUME="@ + ws + " -e RBUILD_CACHE_VOLUME="@
        + cache + " "@;
    let tail = DAEMON_IMAGE@ + " /rbuild-bin/rbuildd serve"@;
    assert(script =~= (head + socket) + mounts + tail);
    assert(script =~= head + (socket + mounts + tail));
    assert(script =~= ((head + socket) + mounts) + tail);
    law_prefix_suffix_and_infix(script, head);
    law_prefix_suffix_and_infix(script, mounts);
    law_prefix_suffix_and_infix(script, tail);
}

/// Only an answer that accepts this very protocol version begins a session, and
/// the version that the client then knows is the one in the answer.
pub proof fn law_only_a_welcome_is_accepted(answer: Message, version: Result<String, ConnectError>)
    requires
        accepts(answer, version),
    ensures
        version is Ok <==> (answer matches Message::Welcome { protocol, ok, .. } && ok && protocol
            == PROTOCOL_VERSION),
        version is Ok ==> version->Ok_0 == answer->Welcome_daemon_version,
{
}

/// A failure to connect passes on what the remote or ssh printed, and ends with
/// ssh's own failure where it was that.
pub proof fn law_failure_passes_on_what_was_said(failure: ConnectFailure)
    ensures
        failure.texts().len() > 0,
        failure matches ConnectFailure::Detect { host, said, ssh_failed } ==> has_text(
            failure.texts()[0],
            host@,
        ) && (ssh_failed ==> failure.texts()[1] == said@),
        failure matches ConnectFailure::Upload { said, .. } ==> has_text(failure.texts()[1], said@),
        failure matches ConnectFailure::Launch { said } ==> has_text(
            failure.texts()[0],
            trimmed(said@),
        ),
        failure.ssh_failed() ==> failure.texts().last() == "connection to the remote failed"@,
{
    let none = Seq::<char>::empty();
    match failure {
        ConnectFailure::Detect { host, .. } => {
            crate::client::deploy::law_missing_docker_names_the_host(host);
        },
        ConnectFailure::Upload { said, .. } => {
            let text = failure.texts()[1];
            assert(text =~= "daemon upload failed: "@ + said@ + none);
            law_prefix_suffix_and_infix(text, said@);
        },
        ConnectFailure::Launch { said } => {
            let text = failure.texts()[0];
            assert(text =~= "daemon did not respond. remote said: "@ + trimmed(said@) + none);
            law_prefix_suffix_and_infix(text, trimmed(said@));
        },
    }
}

/// Between its label and its volumes the daemon's container gets the socket by which
/// it reaches Docker.
pub proof fn law_daemon_reaches_docker(docker: Seq<char>, workspace_id: Seq<char>)
    ensures
        has_text(
            launch_text(docker, workspace_id),
            DAEMON_LABEL@ + " -v /var/run/docker.sock:/var/run/docker.sock -v "@ + BIN_VOLUME@,
        ),
{
    let script = launch_text(docker, workspace_id);
    let ws = ws_name(workspace_id);
    let cache = cache_name(workspace_id);
    let made = docker + " volume create --label "@ + LABEL@ + " "@ + ws + " >/dev/null; "@ + docker
        + " volume create --label "@ + LABEL@ + " "@ + cache + " >/dev/null; exec "@ + docker
        + " run --rm -i --label "@;
    let socket = DAEMON_LABEL@ + " -v /var/run/docker.sock:/var/run/docker.sock -v "@ + BIN_VOLUME@;
    let named = ":/rbuild-bin -v "@ + ws + ":/work -v "@ + cache
        + ":/cache -e RBUILD_WORK=/work -e RBUILD_WS_VOLUME="@ + ws + " -e RBUILD_CACHE_VOLUME="@
        + cache + " "@ + DAEMON_IMAGE@ + " /rbuild-bin/rbuildd serve"@;
    assert(script =~= made + socket + named);
    law_prefix_suffix_and_infix(script, socket);
}

} // verus!

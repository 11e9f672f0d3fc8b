//! Build execution backends.
//!
//! A backend turns a [`BuildRequest`] into the command that runs it in
//! isolation; a sink takes its output as it is produced. Selection is by
//! [`Target`]: Linux builds use a Linux container; Windows builds run through
//! Wine in a Linux container. Keeping this behind a trait means another backend
//! drops in without touching the serve loop.

use vstd::prelude::*;
use vstd::string::StringExecFns;

use crate::proto::{BuildRequest, Message, OutputFd, Target};
use crate::text::{same, views};

verus! {

/// Where the workspace is mounted inside the container.
pub const WORKDIR: &'static str = "/work";

/// Where the cache volume is mounted, as the build user's HOME.
pub const CACHE_MNT: &'static str = "/rbuild-home";

/// Receives build output as it is produced, so the user sees a live build,
/// exactly as if it were local. Each call leaves a message for the client.
pub trait OutputSink {
    /// The messages for the client so far.
    spec fn messages(&self) -> Seq<Message>;

    /// A line of output.
    fn line(&mut self, fd: OutputFd, text: &str)
        ensures
            final(self).messages().len() == old(self).messages().len() + 1,
            final(self).messages().drop_last() == old(self).messages(),
            final(self).messages().last() matches Message::BuildOutput { stream_fd, data }
                && stream_fd == fd && data@ == text@,
    ;

    /// The container has been started.
    fn started(&mut self, container: &str)
        ensures
            final(self).messages().len() == old(self).messages().len() + 1,
            final(self).messages().drop_last() == old(self).messages(),
            final(self).messages().last() matches Message::BuildStarted { container: c } && c@
                == container@,
    ;
}

/// Output sink that keeps each backend output line for the client as a
/// BuildOutput message.
#[derive(Debug)]
pub struct BuildSink {
    pub pending: Vec<Message>,
}

impl BuildSink {
    /// A sink with nothing to send.
    pub fn new() -> (sink: BuildSink)
        ensures
            sink.pending@.len() == 0,
    {
        BuildSink { pending: Vec::new() }
    }
}

impl OutputSink for BuildSink {
    open spec fn messages(&self) -> Seq<Message> {
        self.pending@
    }

    fn line(&mut self, fd: OutputFd, text: &str) {
        self.pending.push(Message::BuildOutput { stream_fd: fd, data: text.to_owned() });
        assert(self.pending@.drop_last() =~= old(self).pending@);
    }

    fn started(&mut self, container: &str) {
        self.pending.push(Message::BuildStarted { container: container.to_owned() });
        assert(self.pending@.drop_last() =~= old(self).pending@);
    }
}

/// Runs builds in isolation.
pub trait BuildBackend {
    /// The arguments of `docker` that run a build.
    spec fn args(&self, req: BuildRequest, ws_volume: Seq<char>, cache_volume: Seq<char>) -> Seq<
        Seq<char>,
    >;

    /// The container image.
    spec fn container(&self) -> Seq<char>;

    /// The arguments of `docker` that run the build to completion. `ws_volume`
    /// is the Docker volume holding the workspace mirror (mounted at the
    /// build's working dir); `cache_volume` is a persistent volume mounted as
    /// the build user's HOME, so toolchain caches and the Wine prefix survive
    /// across builds without touching any host filesystem.
    fn run(&self, req: &BuildRequest, ws_volume: &str, cache_volume: &str) -> (args: Vec<String>)
        ensures
            views(args@) == self.args(*req, ws_volume@, cache_volume@),
    ;

    /// The image that is announced as started.
    fn image(&self) -> (image: &str)
        ensures
            image@ == self.container(),
    ;
}

/// Docker-based build backend. The same backend serves Linux builds (run the
/// command directly) and Windows builds (the image's wrappers route the command
/// through Wine): only the image and the environment differ.
#[derive(Debug)]
pub struct DockerBackend {
    image: String,
    /// Windows builds run inside a persistent Wine prefix. When set, the prefix
    /// lives under the build cache so it survives across builds (wine init is
    /// slow).
    wine: bool,
}

/// The directory a build runs in: the one that the user launched it from,
/// below the mounted workspace root.
pub open spec fn container_cwd(cwd: Seq<char>) -> Seq<char> {
    if cwd.len() == 0 || cwd == "."@ {
        WORKDIR@
    } else {
        WORKDIR@ + "/"@ + cwd
    }
}

/// The arguments that forward environment variables.
pub open spec fn env_args(env: Seq<(String, String)>) -> Seq<Seq<char>>
    decreases env.len(),
{
    if env.len() == 0 {
        Seq::empty()
    } else {
        env_args(env.drop_last()) + seq!["-e"@, env.last().0@ + "="@ + env.last().1@]
    }
}

/// The arguments of `docker` for a build.
pub open spec fn docker_args(
    image: Seq<char>,
    wine: bool,
    req: BuildRequest,
    ws_volume: Seq<char>,
    cache_volume: Seq<char>,
) -> Seq<Seq<char>> {
    seq![
        "run"@,
        "--rm"@,
        "-i"@,
        "-w"@,
        container_cwd(req.cwd@),
        "-v"@,
        ws_volume + ":/work"@,
        "-v"@,
        cache_volume + ":/rbuild-home"@,
        "-e"@,
        "HOME=/rbuild-home"@,
        "-e"@,
        "CARGO_HOME=/rbuild-home/cargo"@,
    ] + (if wine {
        seq!["-e"@, "WINEPREFIX=/rbuild-home/wineprefix"@, "-e"@, "WINEDEBUG=-all"@]
    } else {
        Seq::empty()
    }) + env_args(req.env@) + seq![image] + views(req.argv@)
}

impl DockerBackend {
    /// The image that builds run in.
    pub closed spec fn image_text(self) -> Seq<char> {
        self.image@
    }

    /// Whether builds run through Wine.
    pub closed spec fn is_wine(self) -> bool {
        self.wine
    }

    pub fn linux(image: &str) -> (backend: DockerBackend)
        ensures
            backend.image_text() == image@,
            !backend.is_wine(),
    {
        DockerBackend { image: image.to_owned(), wine: false }
    }

    pub fn wine(image: &str) -> (backend: DockerBackend)
        ensures
            backend.image_text() == image@,
            backend.is_wine(),
    {
        DockerBackend { image: image.to_owned(), wine: true }
    }
}

fn push_text(args: &mut Vec<String>, text: &str)
    ensures
        views(final(args)@) == views(old(args)@).push(text@),
{
    args.push(text.to_owned());
    assert(views(args@) =~= views(old(args)@).push(text@));
}

impl BuildBackend for DockerBackend {
    open spec fn args(
        &self,
        req: BuildRequest,
        ws_volume: Seq<char>,
        cache_volume: Seq<char>,
    ) -> Seq<Seq<char>> {
        docker_args(self.image_text(), self.is_wine(), req, ws_volume, cache_volume)
    }

    open spec fn container(&self) -> Seq<char> {
        self.image_text()
    }

    fn run(&self, req: &BuildRequest, ws_volume: &str, cache_volume: &str) -> (args: Vec<String>) {
        // The command runs in the subdirectory the user launched it from,
        // resolved relative to the mounted workspace root.
        let cwd = if req.cwd.as_str().is_empty() || same(req.cwd.as_str(), ".") {
            WORKDIR.to_owned()
        } else {
            WORKDIR.to_owned().concat("/").concat(req.cwd.as_str())
        };
        let mut args: Vec<String> = Vec::new();
        let ghost base = seq![
            "run"@,
            "--rm"@,
            "-i"@,
            "-w"@,
            container_cwd(req.cwd@),
            "-v"@,
            ws_volume@ + ":/work"@,
            "-v"@,
            cache_volume@ + ":/rbuild-home"@,
            "-e"@,
            "HOME=/rbuild-home"@,
            "-e"@,
            "CARGO_HOME=/rbuild-home/cargo"@,
        ];
        push_text(&mut args, "run");
        push_text(&mut args, "--rm");
        // Keep stdin closed; builds are non-interactive.
        push_text(&mut args, "-i");
        push_text(&mut args, "-w");
        push_text(&mut args, cwd.as_str());
        // Mount the same named volumes the daemon holds, so the build sees the
        // synced tree and shares the persistent cache. No host paths.
        push_text(&mut args, "-v");
        push_text(&mut args, ws_volume.to_owned().concat(":/work").as_str());
        // The cache is separate from the workspace so it never appears in the
        // synced tree.
        push_text(&mut args, "-v");
        push_text(&mut args, cache_volume.to_owned().concat(":/rbuild-home").as_str());
        push_text(&mut args, "-e");
        push_text(&mut args, "HOME=/rbuild-home");
        push_text(&mut args, "-e");
        push_text(&mut args, "CARGO_HOME=/rbuild-home/cargo");
        assert(views(args@) =~= base);
        let ghost wine = if self.is_wine() {
            seq!["-e"@, "WINEPREFIX=/rbuild-home/wineprefix"@, "-e"@, "WINEDEBUG=-all"@]
        } else {
            Seq::empty()
        };
        if self.wine {
            // Persist the Wine prefix in the cache volume so the slow first-run
            // initialization happens once.
            push_text(&mut args, "-e");
            push_text(&mut args, "WINEPREFIX=/rbuild-home/wineprefix");
            push_text(&mut args, "-e");
            push_text(&mut args, "WINEDEBUG=-all");
        }
        let ghost fixed = base + wine;
        assert(views(args@) =~= fixed);
        let mut i: usize = 0;
        assert(req.env@.take(0) =~= Seq::<(String, String)>::empty());
        assert(fixed + env_args(req.env@.take(0)) =~= fixed);
        while i < req.env.len()
            invariant
                i <= req.env@.len(),
                views(args@) == fixed + env_args(req.env@.take(i as int)),
            decreases req.env@.len() - i,
        {
            let (k, v) = &req.env[i];
            assert(req.env@.take(i + 1).drop_last() =~= req.env@.take(i as int));
            push_text(&mut args, "-e");
            push_text(&mut args, k.clone().concat("=").concat(v.as_str()).as_str());
            assert(views(args@) =~= fixed + env_args(req.env@.take(i + 1)));
            i = i + 1;
        }
        assert(req.env@.take(req.env@.len() as int) =~= req.env@);
        push_text(&mut args, self.image.as_str());
        let ghost head = fixed + env_args(req.env@) + seq![self.image@];
        assert(views(args@) =~= head);
        let mut j: usize = 0;
        let ghost argv = views(req.argv@);
        assert(head + argv.take(0) =~= head);
        while j < req.argv.len()
            invariant
                j <= req.argv@.len(),
                argv == views(req.argv@),
                views(args@) == head + argv.take(j as int),
            decreases req.argv@.len() - j,
        {
            push_text(&mut args, req.argv[j].as_str());
            assert(views(args@) =~= head + argv.take(j + 1));
            j = j + 1;
        }
        assert(argv.take(argv.len() as int) =~= argv);
        args
    }

    fn image(&self) -> (image: &str) {
        self.image.as_str()
    }
}

/// Picks a backend for the requested target.
pub fn for_target(target: Target, linux_image: &str, wine_image: &str) -> (backend: DockerBackend)
    ensures
        match target {
            Target::Linux => backend.image_text() == linux_image@ && !backend.is_wine(),
            Target::Windows => backend.image_text() == wine_image@ && backend.is_wine(),
        },
{
    match target {
        Target::Linux => DockerBackend::linux(linux_image),
        Target::Windows => DockerBackend::wine(wine_image),
    }
}

/// Which of a container's outputs are still read.
#[derive(Debug, Clone, Copy, PartialEq, Eq, Structural)]
pub enum Reading {
    /// Both, as lines arrive.
    Both,
    /// Only what is left of stderr: stdout has ended.
    Stderr,
    /// None: the container has nothing more to say.
    Neither,
}

impl Reading {
    /// What is read next, once a line or the end of an output has come. The end
    /// of stderr does not end the build's output; the end of stdout does, but
    /// for what is left on stderr.
    pub fn after(self, fd: OutputFd, ended: bool) -> (next: Reading)
        ensures
            next == match (self, fd) {
                (Reading::Both, OutputFd::Stdout) if ended => Reading::Stderr,
                (Reading::Stderr, OutputFd::Stderr) if ended => Reading::Neither,
                _ => self,
            },
    {
        match (self, fd) {
            (Reading::Both, OutputFd::Stdout) => if ended {
                Reading::Stderr
            } else {
                self
            },
            (Reading::Stderr, OutputFd::Stderr) => if ended {
                Reading::Neither
            } else {
                self
            },
            _ => self,
        }
    }
}

/// The exit code to report for a container: one that was killed has none.
pub fn exit_code(code: Option<i32>) -> (reported: i32)
    ensures
        reported == match code {
            Some(c) => c,
            None => -1i32,
        },
{
    match code {
        Some(c) => c,
        None => -1,
    }
}

proof fn lemma_env_args_len(env: Seq<(String, String)>)
    ensures
        env_args(env).len() == 2 * env.len(),
    decreases env.len(),
{
    if env.len() > 0 {
        lemma_env_args_len(env.drop_last());
    }
}

proof fn lemma_env_args_at(env: Seq<(String, String)>, i: int)
    requires
        0 <= i < env.len(),
    ensures
        env_args(env).subrange(2 * i, 2 * i + 2) == seq!["-e"@, env[i].0@ + "="@ + env[i].1@],
    decreases env.len(),
{
    let init = env.drop_last();
    let pair = seq!["-e"@, env.last().0@ + "="@ + env.last().1@];
    let before = env_args(init);
    lemma_env_args_len(init);
    assert(env_args(env) == before + pair);
    if i < init.len() {
        lemma_env_args_at(init, i);
        assert((before + pair).subrange(2 * i, 2 * i + 2) =~= before.subrange(2 * i, 2 * i + 2));
    } else {
        assert((before + pair).subrange(2 * i, 2 * i + 2) =~= pair);
    }
}

/// The command goes to the container whole: the last arguments are the words of
/// the command, all of them and in order, and the image stands right before them.
pub proof fn law_command_line_is_passed_on(
    backend: DockerBackend,
    req: BuildRequest,
    ws_volume: Seq<char>,
    cache_volume: Seq<char>,
)
    ensures
        ({
            let args = backend.args(req, ws_volume, cache_volume);
            let n = req.argv@.len() as int;
            &&& args.len() > n
            &&& args[args.len() - n - 1] == backend.image_text()
            &&& backend.container() == backend.image_text()
            &&& forall|i: int|
                0 <= i < n ==> args[args.len() - n + i] == (#[trigger] req.argv@[i])@
        }),
{
    let args = backend.args(req, ws_volume, cache_volume);
    let n = req.argv@.len() as int;
    assert(views(req.argv@).len() == n);
    assert forall|i: int| 0 <= i < n implies args[args.len() - n + i] == (
    #[trigger] req.argv@[i])@ by {
        assert(args[args.len() - n + i] == views(req.argv@)[i]);
    }
}

/// What stands before the image: the container is removed once it is done, runs
/// in the directory that the build was launched from, has the workspace and the
/// cache mounted, and gets every variable of the request, in order, as the last
/// ones before the image. Nothing else stands there but where the caches are, and
/// for Windows builds where Wine's prefix is.
pub proof fn law_container_is_set_up(
    backend: DockerBackend,
    req: BuildRequest,
    ws_volume: Seq<char>,
    cache_volume: Seq<char>,
)
    ensures
        ({
            let args = backend.args(req, ws_volume, cache_volume);
            let env = req.env@.len() as int;
            let fixed = if backend.is_wine() {
                17int
            } else {
                13
            };
            &&& args.len() == fixed + 2 * env + 1 + req.argv@.len()
            &&& args[0] == "run"@ && args[1] == "--rm"@ && args[2] == "-i"@
            &&& args[3] == "-w"@ && args[4] == if req.cwd@.len() == 0 || req.cwd@ == "."@ {
                "/work"@
            } else {
                "/work"@ + "/"@ + req.cwd@
            }
            &&& args[5] == "-v"@ && args[6] == ws_volume + ":/work"@
            &&& args[7] == "-v"@ && args[8] == cache_volume + ":/rbuild-home"@
            &&& args[9] == "-e"@ && args[10] == "HOME=/rbuild-home"@
            &&& args[11] == "-e"@ && args[12] == "CARGO_HOME=/rbuild-home/cargo"@
            &&& backend.is_wine() ==> {
                &&& args[13] == "-e"@ && args[14] == "WINEPREFIX=/rbuild-home/wineprefix"@
                &&& args[15] == "-e"@ && args[16] == "WINEDEBUG=-all"@
            }
            &&& forall|i: int|
                0 <= i < env ==> args.subrange(fixed + 2 * i, fixed + 2 * i + 2) == seq![
                    "-e"@,
                    (#[trigger] req.env@[i]).0@ + "="@ + req.env@[i].1@,
                ]
        }),
{
    lemma_env_args_len(req.env@);
    let args = backend.args(req, ws_volume, cache_volume);
    let env = env_args(req.env@);
    let fixed = if backend.is_wine() {
        17int
    } else {
        13
    };
    assert(views(req.argv@).len() == req.argv@.len());
    assert forall|i: int| 0 <= i < req.env@.len() implies args.subrange(
        fixed + 2 * i,
        fixed + 2 * i + 2,
    ) == seq!["-e"@, (#[trigger] req.env@[i]).0@ + "="@ + req.env@[i].1@] by {
        lemma_env_args_at(req.env@, i);
        assert(args.subrange(fixed + 2 * i, fixed + 2 * i + 2) =~= env.subrange(2 * i, 2 * i + 2));
    }
}

} // verus!

//! Build-command interception.
//!
//! rbuild installs small shims named after build commands (`cargo`, `cmake`,
//! ...) into a single directory under its config dir. Each shim is the `rbuild`
//! binary itself invoked under that name; on startup rbuild inspects `argv[0]`
//! and, if it isn't `rbuild`, runs in shim mode.
//!
//! A shim decides at runtime whether to offload or step aside:
//!   * inside a registered code root, and the command is one that is
//!     intercepted: run it remotely;
//!   * otherwise: exec the real tool, unchanged.
//!
//! Because the decision is made at run time from the current directory, shims
//! behave correctly even in shells with no directory hook (notably `cmd.exe`),
//! and uninstalling rbuild leaves nothing that could alter a normal command.

use vstd::prelude::*;
use vstd::string::StringExecFns;

use crate::client::connection::{ConnectFailure, SSH_FAILED};
use crate::client::shell_hook::is_inside;
use crate::config::GlobalConfig;
use crate::path::{components, extend, extended, name_on, own_name_on, same_path, starts_with};
use crate::text::{
    contains, has_suffix, has_text, holds, lines, lower, lowercase, lower_char, lowered,
    occurs_at, same, split, split_at_char, split_lines, strip_suffix, to_lowercase, trimmed, views,
};

verus! {

/// The command that a program name stands for; `None` for rbuild itself.
pub open spec fn command_of(name: Seq<char>) -> Option<Seq<char>> {
    let stem = if has_suffix(name, ".exe"@) {
        name.take(name.len() - ".exe"@.len())
    } else {
        name
    };
    if stem == "rbuild"@ {
        None
    } else {
        Some(stem)
    }
}

/// The command name a shim was invoked as, or None when running as plain
/// `rbuild`. On Unix the shim is a symlink, so the name is `argv[0]`. On Windows
/// the `.cmd` forwarder calls `rbuild.exe` directly, so it passes the name via
/// `RBUILD_SHIM_AS` instead: checked first so it works on every platform.
pub fn invoked_as(shim_as: Option<&str>, arg0: Option<&str>, windows: bool) -> (command: Option<
    String,
>)
    ensures
        match shim_as {
            Some(c) if c@.len() > 0 => command matches Some(n) && n@ == c@,
            _ => match arg0 {
                None => command is None,
                Some(a) => match name_on(a@, windows) {
                    None => command is None,
                    Some(name) => match command_of(name) {
                        None => command is None,
                        Some(c) => command matches Some(n) && n@ == c,
                    },
                },
            },
        },
{
    if let Some(c) = shim_as {
        if !c.is_empty() {
            return Some(c.to_owned());
        }
    }
    let arg0 = match arg0 {
        Some(a) => a,
        None => {
            return None;
        },
    };
    let name = match own_name_on(arg0, windows) {
        Some(n) => n,
        None => {
            return None;
        },
    };
    let stem = match strip_suffix(name.as_str(), ".exe") {
        Some(s) => s,
        None => name,
    };
    if same(stem.as_str(), "rbuild") {
        None
    } else {
        Some(stem)
    }
}

/// What a shim does.
#[derive(Debug)]
pub enum ShimStep {
    /// Run this command line remotely.
    Offload(Vec<String>),
    /// Run the real tool, untouched.
    RunReal,
}

/// Whether a command is run remotely: inside a registered code root, and only
/// if it is one that is intercepted.
pub open spec fn offloads(
    config: Option<&GlobalConfig>,
    cwd: Seq<char>,
    command: Seq<char>,
) -> bool {
    is_inside(config, cwd) && (config matches Some(c) && views(c.build.commands@).contains(
        command,
    ))
}

/// What a shim does in a directory.
pub fn run_as_shim(config: Option<&GlobalConfig>, cwd: &str, command: &str, argv: &[String]) -> (step:
    ShimStep)
    ensures
        match step {
            ShimStep::Offload(full) => offloads(config, cwd@, command@) && views(full@)
                == seq![command@] + views(argv@),
            ShimStep::RunReal => !offloads(config, cwd@, command@),
        },
{
    let offload = match config {
        Some(c) => match c.locate(cwd) {
            Some(_) => {
                proof {
                    let k = choose|k: int| #[trigger] crate::config::chosen(c.roots@, cwd@, k);
                    assert(starts_with(cwd@, c.roots@[k].path@));
                }
                holds(c.build.commands.as_slice(), command)
            },
            None => false,
        },
        None => false,
    };
    if offload {
        let mut full: Vec<String> = Vec::new();
        full.push(command.to_owned());
        let ghost all = views(argv@);
        let mut i: usize = 0;
        assert(views(full@) =~= seq![command@] + all.take(0));
        while i < argv.len()
            invariant
                i <= argv@.len(),
                all == views(argv@),
                views(full@) == seq![command@] + all.take(i as int),
            decreases argv@.len() - i,
        {
            let ghost before = full@;
            full.push(argv[i].clone());
            assert(views(full@) =~= views(before).push(all[i as int]));
            assert(views(full@) =~= seq![command@] + all.take(i + 1));
            i = i + 1;
        }
        assert(all.take(all.len() as int) =~= all);
        ShimStep::Offload(full)
    } else {
        ShimStep::RunReal
    }
}

/// Whether an error's text says that the remote is unavailable.
pub open spec fn unreachable_text(text: Seq<char>) -> bool {
    let msg = lowered(text);
    ||| has_text(msg, "did not respond"@)
    ||| has_text(msg, "could not resolve hostname"@)
    ||| has_text(msg, "connection"@)
    ||| has_text(msg, "timed out"@)
    ||| has_text(msg, "no route to host"@)
    ||| has_text(msg, "connection refused"@)
    ||| has_text(msg, "launching ssh"@)
}

/// Whether an error says that the remote is unavailable: one of its messages
/// does, from the outermost down to the cause.
pub open spec fn unreachable(messages: Seq<Seq<char>>) -> bool {
    exists|i: int| 0 <= i < messages.len() && unreachable_text(#[trigger] messages[i])
}

/// Whether a message says that the remote is unavailable. Case does not matter;
/// only ASCII letters have a lowercase that occurs in the phrases looked for.
pub fn says_unreachable(text: &str) -> (yes: bool)
    ensures
        yes == unreachable_text(text@),
{
    let msg = lower(text);
    let msg = msg.as_str();
    contains(msg, "did not respond") || contains(msg, "could not resolve hostname") || contains(
        msg,
        "connection",
    ) || contains(msg, "timed out") || contains(msg, "no route to host") || contains(
        msg,
        "connection refused",
    ) || contains(msg, "launching ssh")
}

/// Distinguishes "the remote is unavailable" (fall back to local) from a real
/// build/usage error (which must surface, not silently rebuild locally), given
/// all messages of an error, outermost first.
pub fn is_remote_unreachable(messages: &[String]) -> (yes: bool)
    ensures
        yes == unreachable(views(messages@)),
{
    let ghost all = views(messages@);
    let mut i: usize = 0;
    while i < messages.len()
        invariant
            i <= messages@.len(),
            all == views(messages@),
            forall|j: int| 0 <= j < i ==> !unreachable_text(#[trigger] all[j]),
        decreases messages@.len() - i,
    {
        assert(all[i as int] == messages@[i as int]@);
        if says_unreachable(messages[i].as_str()) {
            assert(unreachable_text(all[i as int]));
            return true;
        }
        i = i + 1;
    }
    assert(all.len() == messages@.len());
    false
}

/// The first line of an error's outermost message.
pub open spec fn cause(messages: Seq<Seq<char>>) -> Seq<char> {
    if messages.len() > 0 && lines(messages[0]).len() > 0 {
        lines(messages[0])[0]
    } else {
        "unreachable"@
    }
}

/// The first line of an error's outermost message.
pub fn short_cause(messages: &[String]) -> (text: String)
    ensures
        text@ == cause(views(messages@)),
{
    if messages.len() > 0 {
        let list = split_lines(messages[0].as_str());
        assert(views(messages@)[0] == messages@[0]@);
        assert(lines(messages@[0]@).len() == list@.len());
        if list.len() > 0 {
            assert(lines(messages@[0]@)[0] == list@[0]@);
            return list[0].clone();
        }
    }
    "unreachable".to_owned()
}

/// What is said when a build falls back to the local toolchain; `None` for an
/// error that must surface.
pub fn fall_back(messages: &[String]) -> (notice: Option<String>)
    ensures
        match notice {
            Some(n) => unreachable(views(messages@)) && n@ == "rbuild: remote unreachable ("@
                + cause(views(messages@)) + "); building locally instead."@,
            None => !unreachable(views(messages@)),
        },
{
    if is_remote_unreachable(messages) {
        Some(
            "rbuild: remote unreachable (".to_owned().concat(
                short_cause(messages).as_str(),
            ).concat("); building locally instead."),
        )
    } else {
        None
    }
}

/// A daemon that never answers counts as an unreachable remote, whatever the
/// remote printed: the build falls back to the local toolchain.
pub proof fn law_silence_counts_as_unreachable(said: Seq<char>)
    ensures
        unreachable_text("daemon did not respond. remote said: "@ + trimmed(said)),
{
    let text = "daemon did not respond. remote said: "@ + trimmed(said);
    let msg = lowered(text);
    reveal_strlit("daemon did not respond. remote said: ");
    reveal_strlit("did not respond");
    assert(msg.subrange(7, 22) =~= "did not respond"@) by {
        assert("did not respond"@.len() == 15);
        assert forall|i: int| 0 <= i < 15 implies msg[7 + i] == "did not respond"@[i] by {
            assert(msg[7 + i] == lower_char("daemon did not respond. remote said: "@[7 + i]));
            assert(i == 0 || i == 1 || i == 2 || i == 3 || i == 4 || i == 5 || i == 6 || i == 7 || i
                == 8 || i == 9 || i == 10 || i == 11 || i == 12 || i == 13 || i == 14);
        }
    }
    assert(occurs_at(msg, "did not respond"@, 7));
}

proof fn lemma_unreachable_suffix(before: Seq<char>, said: Seq<char>, phrase: Seq<char>)
    requires
        has_text(lowered(said), phrase),
    ensures
        has_text(lowered(before + said), phrase),
{
    let i = choose|i: int| occurs_at(lowered(said), phrase, i);
    let k = before.len() + i;
    let all = lowered(before + said);
    assert(all.subrange(k, k + phrase.len()) =~= lowered(said).subrange(i, i + phrase.len()));
    assert(occurs_at(all, phrase, k));
}

proof fn lemma_quoted_refusal(before: Seq<char>, said: Seq<char>)
    requires
        unreachable_text(said),
    ensures
        unreachable_text(before + said),
{
    let msg = lowered(said);
    if has_text(msg, "did not respond"@) {
        lemma_unreachable_suffix(before, said, "did not respond"@);
    } else if has_text(msg, "could not resolve hostname"@) {
        lemma_unreachable_suffix(before, said, "could not resolve hostname"@);
    } else if has_text(msg, "connection"@) {
        lemma_unreachable_suffix(before, said, "connection"@);
    } else if has_text(msg, "timed out"@) {
        lemma_unreachable_suffix(before, said, "timed out"@);
    } else if has_text(msg, "no route to host"@) {
        lemma_unreachable_suffix(before, said, "no route to host"@);
    } else if has_text(msg, "connection refused"@) {
        lemma_unreachable_suffix(before, said, "connection refused"@);
    } else {
        lemma_unreachable_suffix(before, said, "launching ssh"@);
    }
}

proof fn lemma_ssh_failure_is_unreachable()
    ensures
        unreachable_text(SSH_FAILED@),
{
    reveal_strlit("connection to the remote failed");
    reveal_strlit("connection");
    let msg = lowered(SSH_FAILED@);
    assert(msg.subrange(0, 10) =~= "connection"@) by {
        assert forall|i: int| 0 <= i < 10 implies msg[i] == "connection"@[i] by {
            assert(msg[i] == lower_char(SSH_FAILED@[i]));
            assert(i == 0 || i == 1 || i == 2 || i == 3 || i == 4 || i == 5 || i == 6 || i == 7 || i
                == 8 || i == 9);
        }
    }
    assert(occurs_at(msg, "connection"@, 0));
}

/// If the remote cannot be reached, the build falls back, at whichever step of
/// connecting that shows: while Docker is looked for, while the daemon is
/// loaded, or when it is launched.
pub proof fn law_unreachable_remote_falls_back(failure: ConnectFailure)
    requires
        failure.ssh_failed() || failure is Launch || (failure matches ConnectFailure::Upload {
            said,
            ..
        } && unreachable_text(said@)),
    ensures
        unreachable(failure.texts()),
{
    let texts = failure.texts();
    lemma_ssh_failure_is_unreachable();
    match failure {
        ConnectFailure::Detect { .. } => {
            assert(texts[texts.len() - 1] == SSH_FAILED@);
            assert(unreachable_text(texts[texts.len() - 1]));
        },
        ConnectFailure::Upload { said, ssh_failed } => {
            if ssh_failed {
                assert(texts[texts.len() - 1] == SSH_FAILED@);
                assert(unreachable_text(texts[texts.len() - 1]));
            } else {
                lemma_quoted_refusal("daemon upload failed: "@, said@);
                assert(unreachable_text(texts[1]));
            }
        },
        ConnectFailure::Launch { said } => {
            law_silence_counts_as_unreachable(said@);
            assert(unreachable_text(texts[0]));
        },
    }
}

/// The extensions that Windows tries unless the environment says otherwise.
pub const DEFAULT_EXTENSIONS: &'static str = ".COM;.EXE;.BAT;.CMD";

/// The file names that a command may have: on Windows a bare name may resolve
/// to one with an extension, in the order of the list, before the bare one.
pub open spec fn file_names(command: Seq<char>, extensions: Option<Seq<char>>) -> Seq<Seq<char>> {
    match extensions {
        Some(list) => split(list, ';').map_values(|ext: Seq<char>| command + lowercase(ext)).push(
            command,
        ),
        None => seq![command],
    }
}

/// The extensions that Windows tries, out of the environment.
pub fn extensions(configured: Option<String>) -> (list: String)
    ensures
        match configured {
            Some(c) => list == c,
            None => list@ == DEFAULT_EXTENSIONS@,
        },
{
    match configured {
        Some(c) => c,
        None => DEFAULT_EXTENSIONS.to_owned(),
    }
}

/// A list of extensions, as contracts speak of it.
pub open spec fn list_text(extensions: Option<&str>) -> Option<Seq<char>> {
    match extensions {
        Some(list) => Some(list@),
        None => None,
    }
}

/// Candidate filenames for a command in a directory: on Windows, where
/// extensions are given, `name.exe`, `name.cmd` and so on.
pub fn candidates(dir: &str, command: &str, extensions: Option<&str>) -> (paths: Vec<String>)
    ensures
        views(paths@) == file_names(command@, list_text(extensions)).map_values(
            |name: Seq<char>| extended(dir@, name),
        ),
{
    let ghost names = file_names(command@, list_text(extensions));
    let ghost place = |name: Seq<char>| extended(dir@, name);
    let mut paths: Vec<String> = Vec::new();
    if let Some(list) = extensions {
        let parts = split_at_char(list, ';');
        let ghost exts = split(list@, ';');
        let mut i: usize = 0;
        assert(views(paths@) =~= names.take(0).map_values(place));
        while i < parts.len()
            invariant
                i <= parts@.len(),
                views(parts@) == exts,
                place == (|name: Seq<char>| extended(dir@, name)),
                names == exts.map_values(|ext: Seq<char>| command@ + lowercase(ext)).push(command@),
                views(paths@) == names.take(i as int).map_values(place),
            decreases parts@.len() - i,
        {
            let ghost before = paths@;
            assert(exts[i as int] == parts@[i as int]@);
            let name = command.to_owned().concat(to_lowercase(parts[i].as_str()).as_str());
            paths.push(extend(dir, name.as_str()));
            assert(views(paths@) =~= views(before).push(place(names[i as int])));
            assert(names.take(i + 1).map_values(place) =~= names.take(i as int).map_values(
                place,
            ).push(place(names[i as int])));
            i = i + 1;
        }
        assert(parts@.len() == exts.len());
    } else {
        assert(views(paths@) =~= names.take(0).map_values(place));
    }
    let ghost before = paths@;
    let ghost n = views(paths@).len() as int;
    paths.push(extend(dir, command));
    assert(views(paths@) =~= views(before).push(place(command@)));
    assert(names.map_values(place) =~= names.take(n).map_values(place).push(place(command@)));
    paths
}

/// The places where the real command may lie: every candidate in every
/// directory of PATH but the shim directory.
pub open spec fn places(
    dirs: Seq<Seq<char>>,
    shim_dir: Option<Seq<char>>,
    names: Seq<Seq<char>>,
) -> Seq<Seq<char>>
    decreases dirs.len(),
{
    if dirs.len() == 0 {
        Seq::empty()
    } else {
        let before = places(dirs.drop_last(), shim_dir, names);
        let dir = dirs.last();
        if shim_dir matches Some(s) && components(dir) == components(s) {
            before
        } else {
            before + names.map_values(|name: Seq<char>| extended(dir, name))
        }
    }
}

/// The places on PATH where the real command may lie, in order, ignoring the
/// rbuild shim dir so a shim never resolves to itself.
pub fn search_places(
    dirs: &[String],
    shim_dir: Option<&str>,
    command: &str,
    extensions: Option<&str>,
) -> (paths: Vec<String>)
    ensures
        views(paths@) == places(
            views(dirs@),
            list_text(shim_dir),
            file_names(command@, list_text(extensions)),
        ),
{
    let ghost all = views(dirs@);
    let ghost names = file_names(command@, list_text(extensions));
    let ghost shim = list_text(shim_dir);
    let mut paths: Vec<String> = Vec::new();
    let mut i: usize = 0;
    assert(views(paths@) =~= places(all.take(0), shim, names));
    while i < dirs.len()
        invariant
            i <= dirs@.len(),
            all == views(dirs@),
            names == file_names(command@, list_text(extensions)),
            shim == list_text(shim_dir),
            views(paths@) == places(all.take(i as int), shim, names),
        decreases dirs@.len() - i,
    {
        let dir = dirs[i].as_str();
        assert(all[i as int] == dir@);
        assert(all.take(i + 1).drop_last() =~= all.take(i as int));
        let skip = match shim_dir {
            Some(s) => same_path(dir, s),
            None => false,
        };
        if !skip {
            let mut here = candidates(dir, command, extensions);
            let ghost before = views(paths@);
            let ghost found = views(here@);
            paths.append(&mut here);
            assert(views(paths@) =~= before + found);
        }
        i = i + 1;
    }
    assert(all.take(all.len() as int) =~= all);
    paths
}

/// The first place that holds an executable, given for each place whether it
/// does.
pub fn find_real_on_path(places: &[String], executable: &[bool]) -> (found: Option<String>)
    requires
        places@.len() == executable@.len(),
    ensures
        match found {
            Some(p) => exists|i: int|
                0 <= i < places@.len() && #[trigger] places@[i] == p && executable@[i] && forall|
                    j: int,
                |
                    0 <= j < i ==> !#[trigger] executable@[j],
            None => forall|j: int| 0 <= j < executable@.len() ==> !#[trigger] executable@[j],
        },
{
    let mut i: usize = 0;
    while i < places.len()
        invariant
            i <= places@.len(),
            places@.len() == executable@.len(),
            forall|j: int| 0 <= j < i ==> !#[trigger] executable@[j],
        decreases places@.len() - i,
    {
        if executable[i] {
            assert(places@[i as int] == places@[i as int]);
            return Some(places[i].clone());
        }
        i = i + 1;
    }
    None
}

/// Whether a file can be executed: on Unix, where files have a mode, one of its
/// execute bits must be set.
pub fn is_executable(is_file: bool, mode: Option<u32>) -> (yes: bool)
    ensures
        yes == (is_file && (mode matches Some(m) ==> m & 0o111 != 0)),
{
    match mode {
        Some(m) => is_file && m & 0o111 != 0,
        None => is_file,
    }
}

/// What is said when the real command is nowhere.
pub fn not_found(command: &str) -> (text: String)
    ensures
        text@ == "`"@ + command@ + "` not found on PATH (outside rbuild shims)"@,
{
    "`".to_owned().concat(command).concat("` not found on PATH (outside rbuild shims)")
}

/// The file of a command's shim: on Windows a script, elsewhere a link.
pub open spec fn shim_file(windows: bool, dir: Seq<char>, command: Seq<char>) -> Seq<char> {
    extended(
        dir,
        if windows {
            command + ".cmd"@
        } else {
            command
        },
    )
}

/// The files that the shim directory holds: exactly one shim per intercepted
/// command.
pub fn install_shims(windows: bool, dir: &str, commands: &[String]) -> (files: Vec<String>)
    ensures
        views(files@) == views(commands@).map_values(
            |command: Seq<char>| shim_file(windows, dir@, command),
        ),
{
    let ghost all = views(commands@);
    let ghost file = |command: Seq<char>| shim_file(windows, dir@, command);
    let mut files: Vec<String> = Vec::new();
    let mut i: usize = 0;
    assert(views(files@) =~= all.take(0).map_values(file));
    while i < commands.len()
        invariant
            i <= commands@.len(),
            all == views(commands@),
            file == (|command: Seq<char>| shim_file(windows, dir@, command)),
            views(files@) == all.take(i as int).map_values(file),
        decreases commands@.len() - i,
    {
        let ghost before = files@;
        assert(all[i as int] == commands@[i as int]@);
        let path = if windows {
            extend(dir, commands[i].clone().concat(".cmd").as_str())
        } else {
            extend(dir, commands[i].as_str())
        };
        files.push(path);
        assert(views(files@) =~= views(before).push(file(all[i as int])));
        assert(all.take(i + 1).map_values(file) =~= all.take(i as int).map_values(file).push(
            file(all[i as int]),
        ));
        i = i + 1;
    }
    assert(all.take(all.len() as int) =~= all);
    files
}

/// The script that stands in for a command on Windows. Symlinks need privilege
/// there, and a `.cmd` forwarder invokes rbuild.exe directly, so argv[0] would
/// be "rbuild"; the forwarder therefore tells rbuild which command it stands in
/// for via RBUILD_SHIM_AS. `%*` forwards the args.
pub fn shim_script(command: &str, exe: &str) -> (body: String)
    ensures
        body@ == "@echo off\r\nset \"RBUILD_SHIM_AS="@ + command@ + "\"\r\n\""@ + exe@
            + "\" %*\r\n"@,
{
    "@echo off\r\nset \"RBUILD_SHIM_AS=".to_owned().concat(command).concat("\"\r\n\"").concat(
        exe,
    ).concat("\" %*\r\n")
}

proof fn lemma_places_from(
    dirs: Seq<Seq<char>>,
    shim_dir: Option<Seq<char>>,
    names: Seq<Seq<char>>,
    i: int,
) -> (origin: (int, int))
    requires
        0 <= i < places(dirs, shim_dir, names).len(),
    ensures
        0 <= origin.0 < dirs.len(),
        0 <= origin.1 < names.len(),
        places(dirs, shim_dir, names)[i] == extended(dirs[origin.0], names[origin.1]),
        shim_dir matches Some(s) ==> components(dirs[origin.0]) != components(s),
    decreases dirs.len(),
{
    let init = dirs.drop_last();
    let before = places(init, shim_dir, names);
    if i < before.len() {
        lemma_places_from(init, shim_dir, names, i)
    } else {
        (dirs.len() - 1, i - before.len())
    }
}

/// A shim never resolves to itself: every place searched is a candidate in some
/// directory of PATH other than the shim directory.
pub proof fn law_shim_directory_is_skipped(
    dirs: Seq<Seq<char>>,
    shim_dir: Seq<char>,
    names: Seq<Seq<char>>,
    i: int,
)
    requires
        0 <= i < places(dirs, Some(shim_dir), names).len(),
    ensures
        exists|d: int, n: int|
            0 <= d < dirs.len() && 0 <= n < names.len() && places(dirs, Some(shim_dir), names)[i]
                == #[trigger] extended(dirs[d], names[n]) && components(dirs[d]) != components(
                shim_dir,
            ),
{
    let (d, n) = lemma_places_from(dirs, Some(shim_dir), names, i);
    assert(places(dirs, Some(shim_dir), names)[i] == extended(dirs[d], names[n]));
}

/// The program's name without `.exe` is the command; only rbuild itself, with or
/// without it, is none.
pub proof fn law_program_name_is_the_command(name: Seq<char>)
    ensures
        command_of(name + ".exe"@) == if name == "rbuild"@ {
            None
        } else {
            Some(name)
        },
        !(exists|stem: Seq<char>| name == #[trigger] (stem + ".exe"@)) ==> command_of(name)
            == if name == "rbuild"@ {
            None
        } else {
            Some(name)
        },
{
    let all = name + ".exe"@;
    assert(all.skip(name.len() as int) =~= ".exe"@);
    assert(all.take(name.len() as int) =~= name);
    crate::text::law_prefix_suffix_and_infix(name, ".exe"@);
}

/// When a command is run remotely: one of the registered roots lies at or above
/// the directory, component by component, and the command is one of those that are
/// intercepted.
pub proof fn law_offloading_needs_root_and_command(
    config: GlobalConfig,
    cwd: Seq<char>,
    command: Seq<char>,
)
    ensures
        offloads(Some(&config), cwd, command) <==> (exists|k: int|
            {
                let root = components((#[trigger] config.roots@[k]).path@);
                &&& 0 <= k < config.roots@.len()
                &&& root.len() <= components(cwd).len()
                &&& components(cwd).take(root.len() as int) == root
            }) && (exists|j: int|
            0 <= j < config.build.commands@.len() && (#[trigger] config.build.commands@[j])@
                == command),
        !offloads(None, cwd, command),
{
    let names = views(config.build.commands@);
    if names.contains(command) {
        let j = names.index_of(command);
        assert(config.build.commands@[j]@ == command);
    }
    if exists|j: int|
        0 <= j < config.build.commands@.len() && (#[trigger] config.build.commands@[j])@
            == command {
        let j = choose|j: int|
            0 <= j < config.build.commands@.len() && (#[trigger] config.build.commands@[j])@
                == command;
        assert(names[j] == command);
    }
}

/// Directories are searched one by one: two parts of PATH give the places of the
/// one and then those of the other, a directory gives one place for every name, in
/// order, and the shim directory gives none, however it is written.
pub proof fn law_path_is_searched_in_order(
    a: Seq<Seq<char>>,
    b: Seq<Seq<char>>,
    shim_dir: Option<Seq<char>>,
    names: Seq<Seq<char>>,
)
    ensures
        places(a + b, shim_dir, names) == places(a, shim_dir, names) + places(b, shim_dir, names),
        a.len() == 0 ==> places(a, shim_dir, names) == Seq::<Seq<char>>::empty(),
        a.len() == 1 ==> {
            let found = places(a, shim_dir, names);
            if shim_dir is Some && components(a[0]) == components(shim_dir->0) {
                found.len() == 0
            } else {
                found.len() == names.len() && forall|i: int|
                    0 <= i < names.len() ==> #[trigger] found[i] == extended(a[0], names[i])
            }
        },
    decreases b.len(),
{
    if a.len() == 1 {
        assert(places(a.drop_last(), shim_dir, names) =~= Seq::<Seq<char>>::empty());
    }
    if b.len() == 0 {
        assert(a + b =~= a);
        assert(places(a + b, shim_dir, names) =~= places(a, shim_dir, names) + places(
            b,
            shim_dir,
            names,
        ));
    } else {
        law_path_is_searched_in_order(a, b.drop_last(), shim_dir, names);
        assert((a + b).drop_last() =~= a + b.drop_last());
        assert((a + b).last() == b.last());
        assert(places(a + b, shim_dir, names) =~= places(a, shim_dir, names) + places(
            b,
            shim_dir,
            names,
        ));
    }
}

/// Every directory of PATH but the shim directory is searched for every name.
pub proof fn law_every_directory_is_searched(
    dirs: Seq<Seq<char>>,
    shim_dir: Option<Seq<char>>,
    names: Seq<Seq<char>>,
    d: int,
    n: int,
)
    requires
        0 <= d < dirs.len(),
        0 <= n < names.len(),
        shim_dir matches Some(s) ==> components(dirs[d]) != components(s),
    ensures
        places(dirs, shim_dir, names).contains(extended(dirs[d], names[n])),
    decreases dirs.len(),
{
    let init = dirs.drop_last();
    let before = places(init, shim_dir, names);
    let all = places(dirs, shim_dir, names);
    let want = extended(dirs[d], names[n]);
    if d < init.len() {
        law_every_directory_is_searched(init, shim_dir, names, d, n);
        let k = before.index_of(want);
        assert(all[k] == want);
    } else {
        assert(all[before.len() + n] == want);
    }
}

/// The names that a command is looked for by: with every extension of the list, in
/// the list's order, and then bare; without a list only bare.
pub proof fn law_every_extension_is_tried(command: Seq<char>, list: Seq<char>)
    ensures
        file_names(command, None) == seq![command],
        ({
            let names = file_names(command, Some(list));
            let exts = split(list, ';');
            &&& names.len() == exts.len() + 1
            &&& names.last() == command
            &&& forall|i: int|
                0 <= i < exts.len() ==> #[trigger] names[i] == command + lowercase(exts[i])
        }),
{
}

/// The words by which an unavailable remote is recognised, in any case and anywhere
/// in the text, and no others.
pub proof fn law_unreachable_is_told_by_its_words(text: Seq<char>)
    ensures
        unreachable_text(text) <==> exists|a: Seq<char>, p: Seq<char>, b: Seq<char>|
            lowered(text) == #[trigger] (a + p + b) && (p == "did not respond"@ || p
                == "could not resolve hostname"@ || p == "connection"@ || p == "timed out"@ || p
                == "no route to host"@ || p == "connection refused"@ || p == "launching ssh"@),
{
    let msg = lowered(text);
    crate::text::law_prefix_suffix_and_infix(msg, "did not respond"@);
    crate::text::law_prefix_suffix_and_infix(msg, "could not resolve hostname"@);
    crate::text::law_prefix_suffix_and_infix(msg, "connection"@);
    crate::text::law_prefix_suffix_and_infix(msg, "timed out"@);
    crate::text::law_prefix_suffix_and_infix(msg, "no route to host"@);
    crate::text::law_prefix_suffix_and_infix(msg, "connection refused"@);
    crate::text::law_prefix_suffix_and_infix(msg, "launching ssh"@);
}

/// One message that says so is enough, wherever in the error it stands.
pub proof fn law_any_message_tells(messages: Seq<Seq<char>>, k: int)
    requires
        0 <= k < messages.len(),
    ensures
        unreachable_text(messages[k]) ==> unreachable(messages),
        (forall|i: int| 0 <= i < messages.len() ==> !unreachable_text(#[trigger] messages[i]))
            ==> !unreachable(messages),
{
}

/// The cause that is shown is the outermost message up to its first line ending; an
/// error that says nothing is shown as unreachable.
pub proof fn law_cause_is_the_first_line(
    line: Seq<char>,
    more: Seq<char>,
    others: Seq<Seq<char>>,
)
    requires
        !line.contains('\n'),
    ensures
        cause(seq![line] + others) == if line.len() == 0 {
            "unreachable"@
        } else {
            line
        },
        cause(seq![line + seq!['\n'] + more] + others) == if line.len() > 0 && line.last() == '\r' {
            line.drop_last()
        } else {
            line
        },
        cause(Seq::empty()) == "unreachable"@,
{
    crate::text::law_lines_are_read_one_by_one(line, more);
    assert((seq![line] + others)[0] == line);
    assert((seq![line + seq!['\n'] + more] + others)[0] == line + seq!['\n'] + more);
}

/// A shim lies in the shim directory, however that is written; on Windows its name
/// ends in `.cmd`.
pub proof fn law_shims_lie_in_the_shim_directory(dir: Seq<char>, command: Seq<char>)
    ensures
        shim_file(false, dir, command) == extended(dir, command),
        shim_file(true, dir, command) == extended(dir, command + ".cmd"@),
{
}

/// Every command has a shim of its own, under its own name in the shim directory;
/// on Windows it is a script.
pub proof fn law_shims_are_named_after_their_commands(
    dir: Seq<char>,
    command: Seq<char>,
    other: Seq<char>,
)
    requires
        dir.len() > 0,
        dir.last() != '/',
        command.len() > 0,
        command[0] != '/',
        other.len() > 0,
        other[0] != '/',
    ensures
        shim_file(false, dir, command) == dir + seq!['/'] + command,
        shim_file(true, dir, command) == dir + seq!['/'] + command + ".cmd"@,
        command != other ==> shim_file(false, dir, command) != shim_file(false, dir, other)
            && shim_file(true, dir, command) != shim_file(true, dir, other),
{
    lemma_shim_file(dir, command);
    lemma_shim_file(dir, other);
    let head = dir + seq!['/'];
    lemma_cancel(head, command, other, Seq::empty());
    lemma_cancel(head, command, other, ".cmd"@);
    assert(head + command + Seq::<char>::empty() =~= head + command);
    assert(head + other + Seq::<char>::empty() =~= head + other);
}

proof fn lemma_shim_file(dir: Seq<char>, command: Seq<char>)
    requires
        dir.len() > 0,
        dir.last() != '/',
        command.len() > 0,
        command[0] != '/',
    ensures
        shim_file(false, dir, command) == dir + seq!['/'] + command,
        shim_file(true, dir, command) == dir + seq!['/'] + command + ".cmd"@,
{
    assert((command + ".cmd"@)[0] == command[0]);
    assert(dir.push('/') =~= dir + seq!['/']);
    assert(dir + seq!['/'] + (command + ".cmd"@) =~= dir + seq!['/'] + command + ".cmd"@);
}

proof fn lemma_cancel(head: Seq<char>, x: Seq<char>, y: Seq<char>, tail: Seq<char>)
    ensures
        head + x + tail == head + y + tail ==> x == y,
{
    let a = head + x + tail;
    let b = head + y + tail;
    if a == b {
        assert(a.len() == head.len() + x.len() + tail.len());
        assert(b.len() == head.len() + y.len() + tail.len());
        let n = head.len() as int;
        assert(a.subrange(n, n + x.len()) =~= x);
        assert(b.subrange(n, n + y.len()) =~= y);
    }
}

/// A list that is given is the one that is used.
pub proof fn law_given_list_is_used(list: &str)
    ensures
        list_text(Some(list)) == Some(list@),
        list_text(None) is None,
{
}

} // verus!

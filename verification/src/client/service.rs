//! OS login service that runs the live-sync agent.
//!
//! The agent must start at login and keep running so edits propagate without
//! any terminal open. It is registered with the platform's user-level service
//! manager (systemd on Linux, launchd on macOS, Task Scheduler on Windows), all
//! at the per-user level so no root/admin is needed and uninstall is clean.

use vstd::prelude::*;
use vstd::string::StringExecFns;

use crate::path::{extend, extended};
use crate::text::{decimal, has_text, law_prefix_suffix_and_infix, to_decimal, views};

verus! {

/// A stable identifier for the service across platforms.
pub const SERVICE_NAME: &'static str = "rbuild-agent";

/// The platform's service manager.
#[derive(Debug, Clone, Copy, PartialEq, Eq, Structural)]
pub enum Manager {
    Systemd,
    Launchd,
    TaskScheduler,
}

/// A command to run for the service manager.
#[derive(Debug)]
pub struct ManagerCommand {
    pub program: String,
    pub args: Vec<String>,
    /// Whether a failure is to be reported.
    pub must_succeed: bool,
}

/// A service manager command as contracts speak of it.
pub struct CommandView {
    pub program: Seq<char>,
    pub args: Seq<Seq<char>>,
    pub must_succeed: bool,
}

impl View for ManagerCommand {
    type V = CommandView;

    open spec fn view(&self) -> CommandView {
        CommandView {
            program: self.program@,
            args: views(self.args@),
            must_succeed: self.must_succeed,
        }
    }
}

/// What the commands of a list hold.
pub open spec fn command_views(list: Seq<ManagerCommand>) -> Seq<CommandView> {
    Seq::new(list.len(), |i: int| list[i]@)
}

/// Whether the login service is to be touched at all: not where the user
/// manages the agent, and says so in the environment.
pub fn managed(no_service: bool) -> (yes: bool)
    ensures
        yes == !no_service,
{
    !no_service
}

/// The label that launchd knows the agent by.
pub open spec fn label_text() -> Seq<char> {
    "com.rbuild."@ + SERVICE_NAME@
}

/// The label that launchd knows the agent by.
pub fn label() -> (text: String)
    ensures
        text@ == label_text(),
{
    "com.rbuild.".to_owned().concat(SERVICE_NAME)
}

/// Where the service's definition is kept, if the platform keeps one in a file.
pub open spec fn file_of(manager: Manager, home: Seq<char>) -> Option<Seq<char>> {
    match manager {
        Manager::Systemd => Some(
            extended(extended(home, ".config/systemd/user"@), SERVICE_NAME@ + ".service"@),
        ),
        Manager::Launchd => Some(
            extended(extended(home, "Library/LaunchAgents"@), label_text() + ".plist"@),
        ),
        Manager::TaskScheduler => None,
    }
}

/// Where the service's definition is kept, if the platform keeps one in a file.
pub fn service_file(manager: Manager, home: &str) -> (path: Option<String>)
    ensures
        match path {
            Some(p) => file_of(manager, home@) == Some(p@),
            None => file_of(manager, home@) is None,
        },
{
    match manager {
        Manager::Systemd => Some(
            extend(
                extend(home, ".config/systemd/user").as_str(),
                SERVICE_NAME.to_owned().concat(".service").as_str(),
            ),
        ),
        Manager::Launchd => Some(
            extend(
                extend(home, "Library/LaunchAgents").as_str(),
                label().concat(".plist").as_str(),
            ),
        ),
        Manager::TaskScheduler => None,
    }
}

/// The service's definition. On Linux `Restart=always` keeps the agent up
/// across crashes; the agent itself tolerates an unconfigured or offline state,
/// so starting early is fine.
pub open spec fn definition(manager: Manager, exe: Seq<char>) -> Option<Seq<char>> {
    match manager {
        Manager::Systemd => Some(
            "[Unit]\nDescription=rbuild live-sync agent\nAfter=network-online.target\n\n[Service]\nExecStart="@
                + exe
                + " agent\nRestart=always\nRestartSec=3\n\n[Install]\nWantedBy=default.target\n"@,
        ),
        Manager::Launchd => Some(
            "<?xml version=\"1.0\" encoding=\"UTF-8\"?>\n<!DOCTYPE plist PUBLIC \"-//Apple//DTD PLIST 1.0//EN\" \"http://www.apple.com/DTDs/PropertyList-1.0.dtd\">\n<plist version=\"1.0\"><dict>\n<key>Label</key><string>"@
                + label_text()
                + "</string>\n<key>ProgramArguments</key><array><string>"@ + exe
                + "</string><string>agent</string></array>\n<key>RunAtLoad</key><true/>\n<key>KeepAlive</key><true/>\n</dict></plist>\n"@,
        ),
        Manager::TaskScheduler => None,
    }
}

/// The service's definition, if the platform keeps one in a file.
pub fn service_definition(manager: Manager, exe: &str) -> (text: Option<String>)
    ensures
        match text {
            Some(t) => definition(manager, exe@) == Some(t@),
            None => definition(manager, exe@) is None,
        },
{
    match manager {
        Manager::Systemd => Some(
            "[Unit]\nDescription=rbuild live-sync agent\nAfter=network-online.target\n\n[Service]\nExecStart=".to_owned().concat(
                exe,
            ).concat(
                " agent\nRestart=always\nRestartSec=3\n\n[Install]\nWantedBy=default.target\n",
            ),
        ),
        Manager::Launchd => Some(
            "<?xml version=\"1.0\" encoding=\"UTF-8\"?>\n<!DOCTYPE plist PUBLIC \"-//Apple//DTD PLIST 1.0//EN\" \"http://www.apple.com/DTDs/PropertyList-1.0.dtd\">\n<plist version=\"1.0\"><dict>\n<key>Label</key><string>".to_owned().concat(
                label().as_str(),
            ).concat("</string>\n<key>ProgramArguments</key><array><string>").concat(exe).concat(
                "</string><string>agent</string></array>\n<key>RunAtLoad</key><true/>\n<key>KeepAlive</key><true/>\n</dict></plist>\n",
            ),
        ),
        Manager::TaskScheduler => None,
    }
}

/// The commands that install and start the service.
pub open spec fn install_commands(
    manager: Manager,
    exe: Seq<char>,
    file: Seq<char>,
    uid: u32,
) -> Seq<CommandView> {
    match manager {
        Manager::Systemd => seq![
            CommandView {
                program: "systemctl"@,
                args: seq!["--user"@, "daemon-reload"@],
                must_succeed: true,
            },
            CommandView {
                program: "systemctl"@,
                args: seq!["--user"@, "enable"@, "--now"@, SERVICE_NAME@],
                must_succeed: true,
            },
        ],
        Manager::Launchd => seq![
            CommandView {
                program: "launchctl"@,
                args: seq!["bootstrap"@, "gui/"@ + decimal(uid as nat), file],
                must_succeed: false,
            },
        ],
        Manager::TaskScheduler => seq![
            CommandView {
                program: "schtasks"@,
                args: seq![
                    "/Create"@,
                    "/SC"@,
                    "ONLOGON"@,
                    "/TN"@,
                    SERVICE_NAME@,
                    "/TR"@,
                    "\""@ + exe + "\" agent"@,
                    "/F"@,
                ],
                must_succeed: true,
            },
            CommandView {
                program: "schtasks"@,
                args: seq!["/Run"@, "/TN"@, SERVICE_NAME@],
                must_succeed: false,
            },
        ],
    }
}

/// The commands that stop the service and take it off, before and after its
/// file is removed.
pub open spec fn uninstall_commands(manager: Manager, file: Seq<char>, uid: u32) -> (
    Seq<CommandView>,
    Seq<CommandView>,
) {
    match manager {
        Manager::Systemd => (
            seq![
                CommandView {
                    program: "systemctl"@,
                    args: seq!["--user"@, "disable"@, "--now"@, SERVICE_NAME@],
                    must_succeed: false,
                },
            ],
            seq![
                CommandView {
                    program: "systemctl"@,
                    args: seq!["--user"@, "daemon-reload"@],
                    must_succeed: false,
                },
            ],
        ),
        Manager::Launchd => (
            seq![
                CommandView {
                    program: "launchctl"@,
                    args: seq!["bootout"@, "gui/"@ + decimal(uid as nat), file],
                    must_succeed: false,
                },
            ],
            Seq::empty(),
        ),
        Manager::TaskScheduler => (
            seq![
                CommandView {
                    program: "schtasks"@,
                    args: seq!["/End"@, "/TN"@, SERVICE_NAME@],
                    must_succeed: false,
                },
                CommandView {
                    program: "schtasks"@,
                    args: seq!["/Delete"@, "/TN"@, SERVICE_NAME@, "/F"@],
                    must_succeed: false,
                },
            ],
            Seq::empty(),
        ),
    }
}

fn command(program: &str, args: Vec<String>, must_succeed: bool) -> (c: ManagerCommand)
    ensures
        c@ == (CommandView { program: program@, args: views(args@), must_succeed }),
{
    ManagerCommand { program: program.to_owned(), args, must_succeed }
}

/// The commands that install (idempotently) and start the login service that
/// runs `rbuild agent`.
pub fn install(manager: Manager, exe: &str, file: &str, uid: u32) -> (list: Vec<ManagerCommand>)
    ensures
        command_views(list@) == install_commands(manager, exe@, file@, uid),
{
    let list = match manager {
        Manager::Systemd => {
            let reload = vec!["--user".to_owned(), "daemon-reload".to_owned()];
            assert(views(reload@) =~= seq!["--user"@, "daemon-reload"@]);
            let enable = vec![
                "--user".to_owned(),
                "enable".to_owned(),
                "--now".to_owned(),
                SERVICE_NAME.to_owned(),
            ];
            assert(views(enable@) =~= seq!["--user"@, "enable"@, "--now"@, SERVICE_NAME@]);
            vec![command("systemctl", reload, true), command("systemctl", enable, true)]
        },
        Manager::Launchd => {
            let domain = "gui/".to_owned().concat(to_decimal(uid as u64).as_str());
            let bootstrap = vec!["bootstrap".to_owned(), domain, file.to_owned()];
            assert(views(bootstrap@) =~= seq![
                "bootstrap"@,
                "gui/"@ + decimal(uid as nat),
                file@,
            ]);
            vec![command("launchctl", bootstrap, false)]
        },
        Manager::TaskScheduler => {
            let create = vec![
                "/Create".to_owned(),
                "/SC".to_owned(),
                "ONLOGON".to_owned(),
                "/TN".to_owned(),
                SERVICE_NAME.to_owned(),
                "/TR".to_owned(),
                "\"".to_owned().concat(exe).concat("\" agent"),
                "/F".to_owned(),
            ];
            assert(views(create@) =~= seq![
                "/Create"@,
                "/SC"@,
                "ONLOGON"@,
                "/TN"@,
                SERVICE_NAME@,
                "/TR"@,
                "\""@ + exe@ + "\" agent"@,
                "/F"@,
            ]);
            let start = vec!["/Run".to_owned(), "/TN".to_owned(), SERVICE_NAME.to_owned()];
            assert(views(start@) =~= seq!["/Run"@, "/TN"@, SERVICE_NAME@]);
            vec![command("schtasks", create, true), command("schtasks", start, false)]
        },
    };
    assert(command_views(list@) =~= install_commands(manager, exe@, file@, uid));
    list
}

/// The commands that stop and remove the login service: those to run before its
/// file is removed, and those to run after. Safe when not installed.
pub fn uninstall(manager: Manager, file: &str, uid: u32) -> (lists: (
    Vec<ManagerCommand>,
    Vec<ManagerCommand>,
))
    ensures
        (command_views(lists.0@), command_views(lists.1@)) == uninstall_commands(
            manager,
            file@,
            uid,
        ),
{
    let lists = match manager {
        Manager::Systemd => {
            let disable = vec![
                "--user".to_owned(),
                "disable".to_owned(),
                "--now".to_owned(),
                SERVICE_NAME.to_owned(),
            ];
            assert(views(disable@) =~= seq!["--user"@, "disable"@, "--now"@, SERVICE_NAME@]);
            let reload = vec!["--user".to_owned(), "daemon-reload".to_owned()];
            assert(views(reload@) =~= seq!["--user"@, "daemon-reload"@]);
            (
                vec![command("systemctl", disable, false)],
                vec![command("systemctl", reload, false)],
            )
        },
        Manager::Launchd => {
            let domain = "gui/".to_owned().concat(to_decimal(uid as u64).as_str());
            let bootout = vec!["bootout".to_owned(), domain, file.to_owned()];
            assert(views(bootout@) =~= seq!["bootout"@, "gui/"@ + decimal(uid as nat), file@]);
            (vec![command("launchctl", bootout, false)], Vec::new())
        },
        Manager::TaskScheduler => {
            let end = vec!["/End".to_owned(), "/TN".to_owned(), SERVICE_NAME.to_owned()];
            assert(views(end@) =~= seq!["/End"@, "/TN"@, SERVICE_NAME@]);
            let delete = vec![
                "/Delete".to_owned(),
                "/TN".to_owned(),
                SERVICE_NAME.to_owned(),
                "/F".to_owned(),
            ];
            assert(views(delete@) =~= seq!["/Delete"@, "/TN"@, SERVICE_NAME@, "/F"@]);
            (
                vec![command("schtasks", end, false), command("schtasks", delete, false)],
                Vec::new(),
            )
        },
    };
    proof {
        let want = uninstall_commands(manager, file@, uid);
        assert(command_views(lists.0@) =~= want.0);
        assert(command_views(lists.1@) =~= want.1);
    }
    lists
}

/// The service runs the agent of this very binary: where the platform keeps a
/// definition in a file, the definition names the binary, and elsewhere the
/// command that makes the service does.
pub proof fn law_service_runs_this_binary(
    manager: Manager,
    exe: Seq<char>,
    file: Seq<char>,
    uid: u32,
)
    ensures
        definition(manager, exe) is Some <==> manager != Manager::TaskScheduler,
        definition(manager, exe) matches Some(text) ==> has_text(text, exe),
        manager == Manager::TaskScheduler ==> install_commands(manager, exe, file, uid)[0].args[6]
            == "\""@ + exe + "\" agent"@,
        manager == Manager::Launchd ==> install_commands(manager, exe, file, uid)[0].args[2] == file,
{
    match manager {
        Manager::Systemd => {
            let text = definition(manager, exe)->0;
            let a =
                "[Unit]\nDescription=rbuild live-sync agent\nAfter=network-online.target\n\n[Service]\nExecStart="@;
            let b = " agent\nRestart=always\nRestartSec=3\n\n[Install]\nWantedBy=default.target\n"@;
            assert(text =~= a + exe + b);
            law_prefix_suffix_and_infix(text, exe);
        },
        Manager::Launchd => {
            let text = definition(manager, exe)->0;
            let a =
                "<?xml version=\"1.0\" encoding=\"UTF-8\"?>\n<!DOCTYPE plist PUBLIC \"-//Apple//DTD PLIST 1.0//EN\" \"http://www.apple.com/DTDs/PropertyList-1.0.dtd\">\n<plist version=\"1.0\"><dict>\n<key>Label</key><string>"@
                + label_text() + "</string>\n<key>ProgramArguments</key><array><string>"@;
            let b =
                "</string><string>agent</string></array>\n<key>RunAtLoad</key><true/>\n<key>KeepAlive</key><true/>\n</dict></plist>\n"@;
            assert(text =~= a + exe + b);
            law_prefix_suffix_and_infix(text, exe);
        },
        Manager::TaskScheduler => {},
    }
}

/// What was installed is what an uninstall takes off: it speaks of the same service,
/// of the same file and the same user.
pub proof fn law_uninstall_takes_off_what_was_installed(
    manager: Manager,
    exe: Seq<char>,
    file: Seq<char>,
    uid: u32,
)
    ensures
        ({
            let on = install_commands(manager, exe, file, uid);
            let off = uninstall_commands(manager, file, uid).0;
            &&& on.len() > 0 && off.len() > 0
            &&& on.last().program == off[0].program
            &&& match manager {
                Manager::Systemd => on.last().args.last() == "rbuild-agent"@ && off[0].args.last()
                    == "rbuild-agent"@,
                Manager::Launchd => on[0].args[1] == off[0].args[1] && on[0].args[2] == off[0].args[2],
                Manager::TaskScheduler => on[0].args[4] == "rbuild-agent"@ && off.len() == 2
                    && off[0].args[2] == "rbuild-agent"@ && off[1].args[2] == "rbuild-agent"@,
            }
            &&& forall|i: int| 0 <= i < off.len() ==> !(#[trigger] off[i]).must_succeed
        }),
{
}

/// The file of the definition lies below the user's home directory and is called
/// after the service.
pub proof fn law_definition_lies_below_home(home: Seq<char>)
    requires
        home.len() > 0,
        home.last() != '/',
    ensures
        file_of(Manager::Systemd, home) == Some(
            home + "/.config/systemd/user/rbuild-agent.service"@,
        ),
        file_of(Manager::Launchd, home) == Some(
            home + "/Library/LaunchAgents/com.rbuild.rbuild-agent.plist"@,
        ),
        file_of(Manager::TaskScheduler, home) is None,
{
    reveal_strlit("/.config/systemd/user/rbuild-agent.service");
    reveal_strlit("/Library/LaunchAgents/com.rbuild.rbuild-agent.plist");
    reveal_strlit(".config/systemd/user");
    reveal_strlit("rbuild-agent");
    reveal_strlit(".service");
    reveal_strlit("Library/LaunchAgents");
    reveal_strlit("com.rbuild.");
    reveal_strlit(".plist");
    assert(file_of(Manager::Systemd, home)->0 =~= home
        + "/.config/systemd/user/rbuild-agent.service"@);
    assert(file_of(Manager::Launchd, home)->0 =~= home
        + "/Library/LaunchAgents/com.rbuild.rbuild-agent.plist"@);
}

/// The commands of each platform: on Linux the units are read again and the service
/// is enabled and started at once; on macOS it is loaded into the user's session; on
/// Windows a task at logon is made anew and run. They are reported where the service
/// would not be there without them.
pub proof fn law_service_is_enabled_and_started(exe: Seq<char>, file: Seq<char>, uid: u32)
    ensures
        ({
            let on = install_commands(Manager::Systemd, exe, file, uid);
            &&& on.len() == 2
            &&& on[0].program == "systemctl"@ && on[0].args == seq!["--user"@, "daemon-reload"@]
                && on[0].must_succeed
            &&& on[1].program == "systemctl"@ && on[1].args == seq![
                "--user"@,
                "enable"@,
                "--now"@,
                "rbuild-agent"@,
            ] && on[1].must_succeed
        }),
        ({
            let on = install_commands(Manager::Launchd, exe, file, uid);
            &&& on.len() == 1
            &&& on[0].program == "launchctl"@ && on[0].args == seq![
                "bootstrap"@,
                "gui/"@ + decimal(uid as nat),
                file,
            ] && !on[0].must_succeed
        }),
        ({
            let on = install_commands(Manager::TaskScheduler, exe, file, uid);
            &&& on.len() == 2
            &&& on[0].program == "schtasks"@ && on[0].must_succeed && on[0].args == seq![
                "/Create"@,
                "/SC"@,
                "ONLOGON"@,
                "/TN"@,
                "rbuild-agent"@,
                "/TR"@,
                "\""@ + exe + "\" agent"@,
                "/F"@,
            ]
            &&& on[1].program == "schtasks"@ && !on[1].must_succeed && on[1].args == seq![
                "/Run"@,
                "/TN"@,
                "rbuild-agent"@,
            ]
        }),
{
}

/// A list of commands shows each of them, in order.
pub proof fn law_every_command_shows(list: Seq<ManagerCommand>, i: int)
    requires
        0 <= i < list.len(),
    ensures
        command_views(list).len() == list.len(),
        command_views(list)[i].program == list[i].program@,
        command_views(list)[i].args == views(list[i].args@),
        command_views(list)[i].must_succeed == list[i].must_succeed,
{
}

/// The commands that take the service off: it is stopped and disabled where it was
/// enabled, unloaded where it was loaded, and its task is ended and deleted; on Linux
/// the units are read again once the file is gone. None of them has to succeed.
pub proof fn law_service_is_stopped_and_disabled(file: Seq<char>, uid: u32)
    ensures
        ({
            let (off, after) = uninstall_commands(Manager::Systemd, file, uid);
            &&& off.len() == 1 && after.len() == 1
            &&& off[0].program == "systemctl"@ && off[0].args == seq![
                "--user"@,
                "disable"@,
                "--now"@,
                "rbuild-agent"@,
            ]
            &&& after[0].program == "systemctl"@ && after[0].args == seq![
                "--user"@,
                "daemon-reload"@,
            ] && !after[0].must_succeed
        }),
        ({
            let (off, after) = uninstall_commands(Manager::Launchd, file, uid);
            &&& off.len() == 1 && after.len() == 0
            &&& off[0].program == "launchctl"@ && off[0].args == seq![
                "bootout"@,
                "gui/"@ + decimal(uid as nat),
                file,
            ]
        }),
        ({
            let (off, after) = uninstall_commands(Manager::TaskScheduler, file, uid);
            &&& off.len() == 2 && after.len() == 0
            &&& off[0].program == "schtasks"@ && off[0].args == seq![
                "/End"@,
                "/TN"@,
                "rbuild-agent"@,
            ]
            &&& off[1].program == "schtasks"@ && off[1].args == seq![
                "/Delete"@,
                "/TN"@,
                "rbuild-agent"@,
                "/F"@,
            ]
        }),
{
}

} // verus!

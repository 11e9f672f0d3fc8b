//! Shell integration: a direnv-style hook that puts a linked project's shim
//! directory on PATH only while the shell is inside that project, and removes
//! it on leaving. The hook calls back into `rbuild hook <shell>` on each
//! prompt to print the shell code that adjusts PATH.
//!
//! All installs are idempotent and uninstall-clean: edits live between stable
//! markers and are rewritten (never appended) so re-running never duplicates,
//! and removal matches the markers regardless of how install ran.

use vstd::prelude::*;
use vstd::string::StringExecFns;

use crate::config::GlobalConfig;
use crate::path::{extend, extended, starts_with};
use crate::text::{
    all_ascii, are_pieces, contains, cut, ends_with, flat, free_upto, has_prefix, has_text, is_ended,
    is_piece, is_white, join, joined, lemma_flat_pieces, lemma_free, lemma_pieces_concat, lemma_pieces_flat,
    lemma_split_concat, lemma_split_parts, lemma_split_single, lemma_trimmed_ignores_ending,
    lemma_trimmed_keeps_first, lemma_trimmed_keeps_last, lines, lowercase, lowered, occurs_at,
    pieces, same, split, split_at_char, split_lines, split_once, split_pieces, to_lowercase, trim,
    trimmed, trimmed_end, trimmed_start, unlines, views, write_lines, write_pieces,
};

verus! {

/// The line that opens what rbuild writes into a profile.
pub const MARKER_BEGIN: &'static str = "# >>> rbuild >>>";

/// The line that closes it.
pub const MARKER_END: &'static str = "# <<< rbuild <<<";

/// Shells rbuild can integrate with.
#[derive(Debug, Clone, Copy, PartialEq, Eq, Structural)]
pub enum Shell {
    Bash,
    Zsh,
    Fish,
    PowerShell,
    Cmd,
}

/// The shell that a name in lowercase stands for.
pub open spec fn shell_named(name: Seq<char>) -> Option<Shell> {
    if name == "bash"@ {
        Some(Shell::Bash)
    } else if name == "zsh"@ {
        Some(Shell::Zsh)
    } else if name == "fish"@ {
        Some(Shell::Fish)
    } else if name == "powershell"@ || name == "pwsh"@ {
        Some(Shell::PowerShell)
    } else if name == "cmd"@ {
        Some(Shell::Cmd)
    } else {
        None
    }
}

impl Shell {
    /// The shell's name.
    pub open spec fn text(self) -> Seq<char> {
        match self {
            Shell::Bash => "bash"@,
            Shell::Zsh => "zsh"@,
            Shell::Fish => "fish"@,
            Shell::PowerShell => "powershell"@,
            Shell::Cmd => "cmd"@,
        }
    }

    /// The shell that a name stands for, in upper or lower case: lowercasing
    /// the name first changes nothing.
    pub fn parse(s: &str) -> (shell: Option<Shell>)
        ensures
            shell == shell_named(lowercase(s@)),
            shell == shell_named(lowercase(lowercase(s@))),
            all_ascii(s@) ==> shell == shell_named(lowered(s@)),
    {
        let name = to_lowercase(s);
        let name = name.as_str();
        if same(name, "bash") {
            Some(Shell::Bash)
        } else if same(name, "zsh") {
            Some(Shell::Zsh)
        } else if same(name, "fish") {
            Some(Shell::Fish)
        } else if same(name, "powershell") || same(name, "pwsh") {
            Some(Shell::PowerShell)
        } else if same(name, "cmd") {
            Some(Shell::Cmd)
        } else {
            None
        }
    }

    pub fn name(self) -> (name: &'static str)
        ensures
            name@ == self.text(),
    {
        match self {
            Shell::Bash => "bash",
            Shell::Zsh => "zsh",
            Shell::Fish => "fish",
            Shell::PowerShell => "powershell",
            Shell::Cmd => "cmd",
        }
    }
}

/// A shell is found again by its own name.
pub proof fn law_shell_name_parses(shell: Shell)
    ensures
        all_ascii(shell.text()),
        shell_named(lowered(shell.text())) == Some(shell),
{
    reveal_strlit("bash");
    reveal_strlit("zsh");
    reveal_strlit("fish");
    reveal_strlit("powershell");
    reveal_strlit("pwsh");
    reveal_strlit("cmd");
    assert(lowered(shell.text()) =~= shell.text());
    match shell {
        Shell::Bash => {},
        Shell::Zsh => {},
        Shell::Fish => {
            assert("fish"@[0] != "bash"@[0]);
        },
        Shell::PowerShell => {},
        Shell::Cmd => {
            assert("cmd"@[0] != "zsh"@[0]);
        },
    }
}

/// Why a shell could not be integrated.
#[derive(Debug, Clone, Copy, PartialEq, Eq, Structural)]
pub enum HookError {
    NoHome,
    CmdHasNoProfile,
    CmdNeedsWindows,
}

impl HookError {
    /// What went wrong, in words.
    pub open spec fn text(self) -> Seq<char> {
        match self {
            HookError::NoHome => "could not determine home directory"@,
            HookError::CmdHasNoProfile => "cmd uses AutoRun, not an rc file"@,
            HookError::CmdNeedsWindows => "cmd integration is only available on Windows"@,
        }
    }

    /// What went wrong, in words.
    pub fn message(&self) -> (text: String)
        ensures
            text@ == self.text(),
    {
        match self {
            HookError::NoHome => "could not determine home directory".to_owned(),
            HookError::CmdHasNoProfile => "cmd uses AutoRun, not an rc file".to_owned(),
            HookError::CmdNeedsWindows => "cmd integration is only available on Windows".to_owned(),
        }
    }
}

/// The user's home directory, out of what the environment says.
pub fn dirs_home(home: Option<String>, user_profile: Option<String>) -> (dir: Option<String>)
    ensures
        dir == if home is Some {
            home
        } else {
            user_profile
        },
{
    match home {
        Some(h) => Some(h),
        None => user_profile,
    }
}

/// The rc/profile file a shell's hook line is written to.
pub fn rc_path(shell: Shell, home: Option<&str>) -> (path: Result<String, HookError>)
    ensures
        match home {
            None => path == Err::<String, HookError>(HookError::NoHome),
            Some(h) => match shell {
                Shell::Bash => path matches Ok(p) && p@ == extended(h@, ".bashrc"@),
                Shell::Zsh => path matches Ok(p) && p@ == extended(h@, ".zshrc"@),
                Shell::Fish => path matches Ok(p) && p@ == extended(
                    h@,
                    ".config/fish/config.fish"@,
                ),
                Shell::PowerShell => path matches Ok(p) && p@ == extended(
                    extended(extended(h@, "Documents"@), "PowerShell"@),
                    "Microsoft.PowerShell_profile.ps1"@,
                ),
                Shell::Cmd => path == Err::<String, HookError>(HookError::CmdHasNoProfile),
            },
        },
{
    let home = match home {
        Some(h) => h,
        None => {
            return Err(HookError::NoHome);
        },
    };
    match shell {
        Shell::Bash => Ok(extend(home, ".bashrc")),
        Shell::Zsh => Ok(extend(home, ".zshrc")),
        Shell::Fish => Ok(extend(home, ".config/fish/config.fish")),
        // The well-known cross-edition PowerShell profile location.
        Shell::PowerShell => Ok(
            extend(
                extend(extend(home, "Documents").as_str(), "PowerShell").as_str(),
                "Microsoft.PowerShell_profile.ps1",
            ),
        ),
        // cmd has no rc file; handled via the AutoRun registry value instead.
        Shell::Cmd => Err(HookError::CmdHasNoProfile),
    }
}

pub const BASH_OPEN: &'static str = "_rbuild_hook() { eval \"$(\"";

pub const BASH_HOOK: &'static str = "\" hook ";

pub const BASH_CLOSE: &'static str = ")\"; }";

pub const BASH_PROMPT: &'static str = "PROMPT_COMMAND=\"_rbuild_hook;${PROMPT_COMMAND:-}\"";

pub const FISH_OPEN: &'static str = "function _rbuild_hook --on-event fish_prompt";

pub const FISH_INDENT: &'static str = "    ";

pub const FISH_SOURCE: &'static str = " hook fish | source";

pub const FISH_CLOSE: &'static str = "end";

pub const POWERSHELL_SAVE: &'static str =
    "if (-not (Test-Path Function:\\_rbuild_orig_prompt)) { Copy-Item Function:\\prompt Function:\\_rbuild_orig_prompt -ErrorAction SilentlyContinue }";

pub const POWERSHELL_OPEN: &'static str = "function global:prompt { & \"";

pub const POWERSHELL_CLOSE: &'static str =
    "\" hook powershell | Out-String | Invoke-Expression; if (Test-Path Function:\\_rbuild_orig_prompt) { _rbuild_orig_prompt } else { \"PS $($executionContext.SessionState.Path.CurrentLocation)$('>' * ($nestedPromptLevel + 1)) \" } }";

/// The lines of the hook for a shell.
pub open spec fn hook_lines(shell: Shell, bin: Seq<char>) -> Seq<Seq<char>> {
    match shell {
        Shell::Bash | Shell::Zsh => seq![
            MARKER_BEGIN@,
            BASH_OPEN@ + bin + BASH_HOOK@ + shell.text() + BASH_CLOSE@,
            BASH_PROMPT@,
            MARKER_END@,
        ],
        Shell::Fish => seq![
            MARKER_BEGIN@,
            FISH_OPEN@,
            FISH_INDENT@ + bin + FISH_SOURCE@,
            FISH_CLOSE@,
            MARKER_END@,
        ],
        Shell::PowerShell => seq![
            MARKER_BEGIN@,
            POWERSHELL_SAVE@,
            POWERSHELL_OPEN@ + bin + POWERSHELL_CLOSE@,
            MARKER_END@,
        ],
        Shell::Cmd => Seq::empty(),
    }
}

/// The block a shell sources on each prompt. It asks `rbuild` for the PATH
/// adjustment appropriate to the current directory and applies it.
pub fn hook_block(shell: Shell, rbuild_bin: &str) -> (block: String)
    ensures
        block@ == unlines(hook_lines(shell, rbuild_bin@)),
{
    let list: Vec<String> = match shell {
        Shell::Bash | Shell::Zsh => vec![
            MARKER_BEGIN.to_owned(),
            BASH_OPEN.to_owned().concat(rbuild_bin).concat(BASH_HOOK).concat(shell.name()).concat(
                BASH_CLOSE,
            ),
            BASH_PROMPT.to_owned(),
            MARKER_END.to_owned(),
        ],
        Shell::Fish => vec![
            MARKER_BEGIN.to_owned(),
            FISH_OPEN.to_owned(),
            FISH_INDENT.to_owned().concat(rbuild_bin).concat(FISH_SOURCE),
            FISH_CLOSE.to_owned(),
            MARKER_END.to_owned(),
        ],
        Shell::PowerShell => vec![
            MARKER_BEGIN.to_owned(),
            POWERSHELL_SAVE.to_owned(),
            POWERSHELL_OPEN.to_owned().concat(rbuild_bin).concat(POWERSHELL_CLOSE),
            MARKER_END.to_owned(),
        ],
        Shell::Cmd => Vec::new(),
    };
    assert(views(list@) =~= hook_lines(shell, rbuild_bin@));
    write_lines(list.as_slice())
}

/// Whether a line is the marker that opens a block.
pub open spec fn is_begin(line: Seq<char>) -> bool {
    trimmed(line) == MARKER_BEGIN@
}

/// Whether a line is the marker that closes a block.
pub open spec fn is_end(line: Seq<char>) -> bool {
    trimmed(line) == MARKER_END@
}

/// Where the last opening marker stands among lines; -1 where there is none.
pub open spec fn last_begin(list: Seq<Seq<char>>) -> int
    decreases list.len(),
{
    if list.len() == 0 {
        -1
    } else if is_begin(list.last()) {
        list.len() - 1
    } else {
        last_begin(list.drop_last())
    }
}

/// The lines that lie outside every complete block. A closing marker closes the
/// nearest opening one before it that is still open, and everything from that
/// one on goes; an opening marker that is never closed stays with what follows
/// it, and so does a closing marker that closes nothing.
pub open spec fn outside(list: Seq<Seq<char>>) -> Seq<Seq<char>>
    decreases list.len(),
{
    if list.len() == 0 {
        Seq::empty()
    } else {
        let before = outside(list.drop_last());
        if is_end(list.last()) && last_begin(before) >= 0 {
            before.take(last_begin(before))
        } else {
            before.push(list.last())
        }
    }
}

/// A text without its blocks. The rest is as it was, line endings too.
pub open spec fn stripped(text: Seq<char>) -> Seq<char> {
    flat(outside(pieces(text)))
}

proof fn lemma_last_begin(list: Seq<Seq<char>>)
    ensures
        -1 <= last_begin(list) < list.len(),
        last_begin(list) >= 0 ==> is_begin(list[last_begin(list)]),
        forall|i: int| last_begin(list) < i < list.len() ==> !is_begin(#[trigger] list[i]),
    decreases list.len(),
{
    if list.len() > 0 && !is_begin(list.last()) {
        let init = list.drop_last();
        lemma_last_begin(init);
        assert forall|i: int| last_begin(list) < i < list.len() implies !is_begin(
            #[trigger] list[i],
        ) by {
            if i < init.len() {
                assert(!is_begin(init[i]));
            }
        }
    }
}

fn find_last_begin(list: &[String]) -> (at: Option<usize>)
    ensures
        match at {
            Some(k) => last_begin(views(list@)) == k && k < list@.len(),
            None => last_begin(views(list@)) < 0,
        },
{
    let ghost all = views(list@);
    let mut n: usize = list.len();
    assert(all.take(all.len() as int) =~= all);
    while n > 0
        invariant
            n <= list@.len(),
            all == views(list@),
            last_begin(all) == last_begin(all.take(n as int)),
        decreases n,
    {
        assert(all.take(n as int).last() == list@[n - 1]@);
        assert(all.take(n as int).drop_last() =~= all.take(n - 1));
        if same(trim(list[n - 1].as_str()).as_str(), MARKER_BEGIN) {
            return Some(n - 1);
        }
        n = n - 1;
    }
    None
}

/// Removes every complete `MARKER_BEGIN..MARKER_END` block from `text`,
/// returning the remainder as it was. Tolerates multiple blocks in case an older
/// buggy install left more than one.
pub fn strip_block(text: &str) -> (rest: String)
    ensures
        rest@ == stripped(text@),
        no_block(pieces(text@)) ==> rest@ == text@,
{
    proof {
        if no_block(pieces(text@)) {
            law_strip_leaves_a_text_without_blocks(text@);
        }
    }
    let list = split_pieces(text);
    let ghost all = pieces(text@);
    let mut out: Vec<String> = Vec::new();
    let mut i: usize = 0;
    assert(views(out@) =~= outside(all.take(0)));
    while i < list.len()
        invariant
            i <= list@.len(),
            views(list@) == all,
            views(out@) == outside(all.take(i as int)),
        decreases list@.len() - i,
    {
        let line = &list[i];
        assert(all[i as int] == line@);
        assert(all.take(i + 1).drop_last() =~= all.take(i as int));
        let ghost before = views(out@);
        let opened = if same(trim(line.as_str()).as_str(), MARKER_END) {
            find_last_begin(out.as_slice())
        } else {
            None
        };
        match opened {
            Some(k) => {
                out.truncate(k);
                assert(views(out@) =~= before.take(k as int));
            },
            None => {
                out.push(line.clone());
                assert(views(out@) =~= before.push(line@));
            },
        }
        i = i + 1;
    }
    assert(all.take(all.len() as int) =~= all);
    write_pieces(out.as_slice())
}

proof fn lemma_markers_differ()
    ensures
        MARKER_BEGIN@ != MARKER_END@,
        MARKER_BEGIN@.len() == 16,
        MARKER_END@.len() == 16,
        MARKER_BEGIN@[0] == '#',
        MARKER_END@[0] == '#',
        MARKER_BEGIN@.last() == '>',
        MARKER_END@.last() == '<',
        !MARKER_BEGIN@.contains('\n'),
        !MARKER_END@.contains('\n'),
        trimmed(MARKER_BEGIN@) == MARKER_BEGIN@,
        trimmed(MARKER_END@) == MARKER_END@,
{
    reveal_strlit("# >>> rbuild >>>");
    reveal_strlit("# <<< rbuild <<<");
    assert(MARKER_BEGIN@[2] != MARKER_END@[2]);
    reveal_with_fuel(free_upto, 17);
    assert(free_upto(MARKER_BEGIN@, '\n', 16));
    assert(free_upto(MARKER_END@, '\n', 16));
    lemma_free(MARKER_BEGIN@, '\n', 16);
    lemma_free(MARKER_END@, '\n', 16);
    let drop = |c: char| is_white(c);
    assert(trimmed_start(MARKER_BEGIN@, drop) == MARKER_BEGIN@);
    assert(trimmed_end(MARKER_BEGIN@, drop) == MARKER_BEGIN@);
    assert(trimmed_start(MARKER_END@, drop) == MARKER_END@);
    assert(trimmed_end(MARKER_END@, drop) == MARKER_END@);
}

/// The text with its last line ended.
pub open spec fn ended(text: Seq<char>) -> Seq<char> {
    if text.len() > 0 && text.last() != '\n' {
        text.push('\n')
    } else {
        text
    }
}

/// The profile text with the hook installed: whatever block was there is
/// replaced by one at the end.
pub open spec fn installed(shell: Shell, bin: Seq<char>, existing: Seq<char>) -> Seq<char> {
    ended(stripped(existing)) + unlines(hook_lines(shell, bin))
}

/// The profile text with the hook installed (or refreshed). Idempotent: strips
/// any prior rbuild block first, then writes exactly one.
pub fn install(shell: Shell, rbuild_bin: &str, existing: &str) -> (next: String)
    ensures
        next@ == installed(shell, rbuild_bin@, existing@),
{
    let mut next = strip_block(existing);
    let ghost kept = next@;
    proof {
        reveal_strlit("\n");
        if kept.len() > 0 {
            let tail = kept.skip(kept.len() - 1);
            assert(tail[0] == kept.last());
            if kept.last() == '\n' {
                assert(tail =~= "\n"@);
            }
        }
    }
    if !next.as_str().is_empty() && !ends_with(next.as_str(), "\n") {
        next.push('\n');
    }
    assert(next@ == ended(kept));
    next.append(hook_block(shell, rbuild_bin).as_str());
    next
}

/// The profile text without the hook, unless there is nothing to remove.
pub fn uninstall(existing: &str) -> (next: Option<String>)
    ensures
        match next {
            Some(t) => t@ == stripped(existing@) && t@ != existing@,
            None => stripped(existing@) == existing@,
        },
{
    let cleaned = strip_block(existing);
    if same(cleaned.as_str(), existing) {
        None
    } else {
        Some(cleaned)
    }
}

/// Whether lines hold no complete block: no closing marker follows an opening
/// one.
pub open spec fn no_block(list: Seq<Seq<char>>) -> bool {
    forall|i: int, j: int|
        0 <= i < j < list.len() ==> !(is_begin(#[trigger] list[i]) && is_end(#[trigger] list[j]))
}

/// One block: it opens with the first line, closes with the last, and holds no
/// marker between.
pub open spec fn is_block(list: Seq<Seq<char>>) -> bool {
    &&& list.len() >= 2
    &&& is_begin(list[0])
    &&& is_end(list.last())
    &&& forall|i: int|
        0 < i < list.len() - 1 ==> !is_begin(#[trigger] list[i]) && !is_end(list[i])
}

proof fn lemma_outside_of_no_block(list: Seq<Seq<char>>)
    requires
        no_block(list),
    ensures
        outside(list) == list,
    decreases list.len(),
{
    if list.len() > 0 {
        let init = list.drop_last();
        assert forall|i: int, j: int| 0 <= i < j < init.len() implies !(is_begin(
            #[trigger] init[i],
        ) && is_end(#[trigger] init[j])) by {
            assert(!(is_begin(list[i]) && is_end(list[j])));
        }
        lemma_outside_of_no_block(init);
        lemma_last_begin(init);
        if is_end(list.last()) && last_begin(init) >= 0 {
            assert(!(is_begin(list[last_begin(init)]) && is_end(list[list.len() - 1])));
        }
        assert(init.push(list.last()) =~= list);
    } else {
        assert(outside(list) =~= list);
    }
}

proof fn lemma_outside_has_no_block(list: Seq<Seq<char>>)
    requires
        are_pieces(list),
    ensures
        no_block(outside(list)),
        are_pieces(outside(list)),
        outside(list).len() <= list.len(),
        forall|i: int|
            0 <= i < outside(list).len() - 1 ==> is_ended(#[trigger] outside(list)[i]),
        outside(list).len() > 0 && list.len() > 0 && is_ended(list.last()) ==> is_ended(
            outside(list).last(),
        ),
    decreases list.len(),
{
    if list.len() > 0 {
        let init = list.drop_last();
        let line = list.last();
        assert(line == list[list.len() - 1]);
        assert(is_piece(line));
        assert forall|i: int| 0 <= i < init.len() implies is_piece(#[trigger] init[i]) by {
            assert(is_piece(list[i]));
        }
        assert forall|i: int| 0 <= i < init.len() - 1 implies is_ended(#[trigger] init[i]) by {
            assert(is_ended(list[i]));
        }
        lemma_outside_has_no_block(init);
        let before = outside(init);
        let after = outside(list);
        lemma_last_begin(before);
        if init.len() > 0 {
            assert(is_ended(list[list.len() - 2]));
            assert(init.last() == list[list.len() - 2]);
        }
        assert(before.len() > 0 ==> is_ended(before.last()));
        assert forall|i: int| 0 <= i < before.len() implies is_ended(#[trigger] before[i]) by {
            if i == before.len() - 1 {
                assert(before[i] == before.last());
            }
        }
        lemma_markers_differ();
        assert forall|i: int| 0 <= i < after.len() implies is_piece(#[trigger] after[i]) by {
            if i < before.len() {
                assert(is_piece(before[i]));
            }
        }
        assert forall|i: int| 0 <= i < after.len() - 1 implies is_ended(#[trigger] after[i]) by {
            assert(is_ended(before[i]));
        }
        assert forall|i: int, j: int| 0 <= i < j < after.len() implies !(is_begin(
            #[trigger] after[i],
        ) && is_end(#[trigger] after[j])) by {
            if j < before.len() {
                assert(!(is_begin(before[i]) && is_end(before[j])));
            } else {
                assert(after[i] == before[i]);
            }
        }
        if is_end(line) && last_begin(before) >= 0 && after.len() > 0 {
            assert(after.last() == before[after.len() - 1]);
        }
    }
}

proof fn lemma_block_disappears(before: Seq<Seq<char>>, block: Seq<Seq<char>>, n: int)
    requires
        is_block(block),
        1 <= n <= block.len(),
    ensures
        outside(before + block.take(n)) == if n < block.len() {
            outside(before) + block.take(n)
        } else {
            outside(before)
        },
    decreases n,
{
    lemma_markers_differ();
    let now = before + block.take(n);
    let line = block[n - 1];
    assert(now.last() == line);
    assert(now.drop_last() =~= before + block.take(n - 1));
    let rest = outside(before);
    if n == 1 {
        assert(now.drop_last() =~= before);
        assert(rest.push(line) =~= rest + block.take(1));
    } else {
        lemma_block_disappears(before, block, n - 1);
        let open = rest + block.take(n - 1);
        assert(outside(now.drop_last()) == open);
        if n < block.len() {
            assert(!is_end(block[n - 1]));
            assert(open.push(line) =~= rest + block.take(n));
        } else {
            lemma_last_begin(open);
            assert(open[rest.len() as int] == block[0]);
            assert forall|i: int| rest.len() < i < open.len() implies !is_begin(
                #[trigger] open[i],
            ) by {
                assert(open[i] == block[i - rest.len()]);
            }
            assert(last_begin(open) == rest.len());
            assert(open.take(rest.len() as int) =~= rest);
        }
    }
}

/// Where there is no block there is nothing to remove: a text in which no
/// closing marker follows an opening one is returned as it is, to the last
/// character. So is every text without a marker.
pub proof fn law_strip_leaves_a_text_without_blocks(text: Seq<char>)
    requires
        no_block(pieces(text)),
    ensures
        stripped(text) == text,
{
    lemma_outside_of_no_block(pieces(text));
    lemma_flat_pieces(text);
}

/// Stripping removes exactly the block: whatever stands above and below it comes
/// back as it was, if no block is left there. What stands above ends in a line
/// feed, as the block does.
pub proof fn law_strip_removes_exactly_the_block(
    above: Seq<char>,
    block: Seq<char>,
    below: Seq<char>,
)
    requires
        above.len() == 0 || above.last() == '\n',
        block.len() > 0 && block.last() == '\n',
        is_block(pieces(block)),
        no_block(pieces(above + below)),
    ensures
        stripped(above + block + below) == above + below,
{
    lemma_pieces_concat(above, block);
    lemma_pieces_concat(above + block, below);
    lemma_pieces_concat(above, below);
    let (a, b, c) = (pieces(above), pieces(block), pieces(below));
    assert(pieces(above + block + below) == a + b + c);
    lemma_block_disappears(a, b, b.len() as int);
    assert(b.take(b.len() as int) =~= b);
    lemma_outside_continues(a + b, a, c);
    lemma_outside_of_no_block(a + c);
    lemma_flat_pieces(above + below);
}

proof fn lemma_outside_continues(x: Seq<Seq<char>>, y: Seq<Seq<char>>, more: Seq<Seq<char>>)
    requires
        outside(x) == outside(y),
    ensures
        outside(x + more) == outside(y + more),
    decreases more.len(),
{
    if more.len() == 0 {
        assert(x + more =~= x);
        assert(y + more =~= y);
    } else {
        let init = more.drop_last();
        lemma_outside_continues(x, y, init);
        assert((x + more).drop_last() =~= x + init);
        assert((y + more).drop_last() =~= y + init);
    }
}

/// Blocks do not pile up: one block after another is removed just as well.
pub proof fn law_strip_removes_repeated_blocks(above: Seq<char>, a: Seq<char>, b: Seq<char>)
    requires
        above.len() == 0 || above.last() == '\n',
        no_block(pieces(above)),
        is_block(pieces(a)),
        is_block(pieces(b)),
        a.len() > 0 && a.last() == '\n',
    ensures
        stripped(above + a + b) == above,
{
    let (p, x, y) = (pieces(above), pieces(a), pieces(b));
    lemma_pieces_concat(above, a);
    lemma_pieces_concat(above + a, b);
    lemma_block_disappears(p, x, x.len() as int);
    assert(x.take(x.len() as int) =~= x);
    lemma_block_disappears(p + x, y, y.len() as int);
    assert(y.take(y.len() as int) =~= y);
    lemma_outside_of_no_block(p);
    lemma_flat_pieces(above);
}

/// Stripping leaves no complete block behind, and is idempotent.
pub proof fn law_strip_is_idempotent(text: Seq<char>)
    ensures
        no_block(pieces(stripped(text))),
        stripped(stripped(text)) == stripped(text),
{
    let all = pieces(text);
    lemma_flat_pieces(text);
    lemma_outside_has_no_block(all);
    lemma_pieces_flat(outside(all));
    law_strip_leaves_a_text_without_blocks(stripped(text));
}

proof fn lemma_ended_has_no_block(text: Seq<char>)
    requires
        no_block(pieces(text)),
    ensures
        no_block(pieces(ended(text))),
{
    lemma_flat_pieces(text);
    if text.len() > 0 && text.last() != '\n' {
        let before = pieces(text);
        let after = pieces(ended(text));
        let last = before.last();
        assert(ended(text).drop_last() =~= text);
        assert(after =~= before.drop_last().push(last.push('\n')));
        lemma_trimmed_ignores_ending(last, '\n');
        assert forall|i: int, j: int| 0 <= i < j < after.len() implies !(is_begin(
            #[trigger] after[i],
        ) && is_end(#[trigger] after[j])) by {
            assert(!(is_begin(before[i]) && is_end(before[j])));
        }
    }
}

/// Uninstalling undoes installing: what is left is the text without its blocks,
/// its last line ended.
pub proof fn law_uninstall_undoes_install(shell: Shell, bin: Seq<char>, text: Seq<char>)
    requires
        is_block(pieces(unlines(hook_lines(shell, bin)))),
    ensures
        stripped(installed(shell, bin, text)) == ended(stripped(text)),
{
    let kept = ended(stripped(text));
    let block = unlines(hook_lines(shell, bin));
    law_strip_is_idempotent(text);
    lemma_ended_has_no_block(stripped(text));
    lemma_pieces_concat(kept, block);
    let b = pieces(block);
    lemma_block_disappears(pieces(kept), b, b.len() as int);
    assert(b.take(b.len() as int) =~= b);
    lemma_outside_of_no_block(pieces(kept));
    lemma_flat_pieces(kept);
}

/// Installing again changes nothing, and installing anew refreshes: the result
/// is as if the earlier install had never been.
pub proof fn law_install_replaces_earlier_install(
    old_shell: Shell,
    old_bin: Seq<char>,
    shell: Shell,
    bin: Seq<char>,
    text: Seq<char>,
)
    requires
        is_block(pieces(unlines(hook_lines(old_shell, old_bin)))),
    ensures
        installed(shell, bin, installed(old_shell, old_bin, text)) == installed(shell, bin, text),
{
    law_uninstall_undoes_install(old_shell, old_bin, text);
}

proof fn lemma_no_feed(s: Seq<char>)
    requires
        free_upto(s, '\n', s.len() as int),
    ensures
        !s.contains('\n'),
{
    lemma_free(s, '\n', s.len() as int);
}

proof fn lemma_concat_no_feed(a: Seq<char>, b: Seq<char>)
    requires
        !a.contains('\n'),
        !b.contains('\n'),
    ensures
        !(a + b).contains('\n'),
{
    if (a + b).contains('\n') {
        let k = (a + b).index_of('\n');
        if k < a.len() {
            assert(a[k] == '\n');
        } else {
            assert(b[k - a.len()] == '\n');
        }
    }
}

proof fn lemma_bash_lines(shell: Shell, bin: Seq<char>)
    requires
        shell == Shell::Bash || shell == Shell::Zsh,
        !bin.contains('\n'),
    ensures
        is_block(hook_lines(shell, bin)),
        forall|i: int|
            0 <= i < hook_lines(shell, bin).len() ==> !(#[trigger] hook_lines(shell, bin)[i]).contains('\n'),
{
    lemma_markers_differ();
    reveal_strlit("_rbuild_hook() { eval \"$(\"");
    reveal_strlit("\" hook ");
    reveal_strlit("bash");
    reveal_strlit("zsh");
    reveal_strlit(")\"; }");
    reveal_strlit("PROMPT_COMMAND=\"_rbuild_hook;${PROMPT_COMMAND:-}\"");
    reveal_with_fuel(free_upto, 60);
    lemma_no_feed(BASH_OPEN@);
    lemma_no_feed(BASH_HOOK@);
    lemma_no_feed(shell.text());
    lemma_no_feed(BASH_CLOSE@);
    lemma_no_feed(BASH_PROMPT@);
    let call = BASH_OPEN@ + bin + BASH_HOOK@ + shell.text() + BASH_CLOSE@;
    lemma_concat_no_feed(BASH_OPEN@, bin);
    lemma_concat_no_feed(BASH_OPEN@ + bin, BASH_HOOK@);
    lemma_concat_no_feed(BASH_OPEN@ + bin + BASH_HOOK@, shell.text());
    lemma_concat_no_feed(BASH_OPEN@ + bin + BASH_HOOK@ + shell.text(), BASH_CLOSE@);
    assert(call[0] == '_');
    assert(call.last() == '}');
    lemma_trimmed_keeps_first(call);
    lemma_trimmed_keeps_first(BASH_PROMPT@);
}

proof fn lemma_fish_lines(bin: Seq<char>)
    requires
        !bin.contains('\n'),
    ensures
        is_block(hook_lines(Shell::Fish, bin)),
        forall|i: int|
            0 <= i < hook_lines(Shell::Fish, bin).len() ==> !(
            #[trigger] hook_lines(Shell::Fish, bin)[i]).contains('\n'),
{
    lemma_markers_differ();
    reveal_strlit("function _rbuild_hook --on-event fish_prompt");
    reveal_strlit("    ");
    reveal_strlit(" hook fish | source");
    reveal_strlit("end");
    reveal_with_fuel(free_upto, 60);
    lemma_no_feed(FISH_OPEN@);
    lemma_no_feed(FISH_INDENT@);
    lemma_no_feed(FISH_SOURCE@);
    lemma_no_feed(FISH_CLOSE@);
    let call = FISH_INDENT@ + bin + FISH_SOURCE@;
    lemma_concat_no_feed(FISH_INDENT@, bin);
    lemma_concat_no_feed(FISH_INDENT@ + bin, FISH_SOURCE@);
    assert(call.last() == 'e');
    lemma_trimmed_keeps_last(call);
    lemma_trimmed_keeps_first(FISH_OPEN@);
    lemma_trimmed_keeps_first(FISH_CLOSE@);
}

proof fn lemma_powershell_lines(bin: Seq<char>)
    requires
        !bin.contains('\n'),
    ensures
        is_block(hook_lines(Shell::PowerShell, bin)),
        forall|i: int|
            0 <= i < hook_lines(Shell::PowerShell, bin).len() ==> !(
            #[trigger] hook_lines(Shell::PowerShell, bin)[i]).contains('\n'),
{
    lemma_markers_differ();
    assert(POWERSHELL_SAVE@[0] == 'i' && POWERSHELL_SAVE@.last() == '}' && POWERSHELL_SAVE@.len()
        > 0 && !POWERSHELL_SAVE@.contains('\n')) by {
        reveal_strlit(
            "if (-not (Test-Path Function:\\_rbuild_orig_prompt)) { Copy-Item Function:\\prompt Function:\\_rbuild_orig_prompt -ErrorAction SilentlyContinue }",
        );
        reveal_with_fuel(free_upto, 42);
        assert(free_upto(POWERSHELL_SAVE@, '\n', 40));
        assert(free_upto(POWERSHELL_SAVE@, '\n', 80));
        assert(free_upto(POWERSHELL_SAVE@, '\n', 120));
        lemma_no_feed(POWERSHELL_SAVE@);
    }
    assert(POWERSHELL_OPEN@[0] == 'f' && POWERSHELL_OPEN@.len() > 0 && !POWERSHELL_OPEN@.contains(
        '\n',
    )) by {
        reveal_strlit("function global:prompt { & \"");
        reveal_with_fuel(free_upto, 40);
        lemma_no_feed(POWERSHELL_OPEN@);
    }
    assert(POWERSHELL_CLOSE@.last() == '}' && POWERSHELL_CLOSE@.len() > 0
        && !POWERSHELL_CLOSE@.contains('\n')) by {
        reveal_strlit(
            "\" hook powershell | Out-String | Invoke-Expression; if (Test-Path Function:\\_rbuild_orig_prompt) { _rbuild_orig_prompt } else { \"PS $($executionContext.SessionState.Path.CurrentLocation)$('>' * ($nestedPromptLevel + 1)) \" } }",
        );
        reveal_with_fuel(free_upto, 42);
        assert(free_upto(POWERSHELL_CLOSE@, '\n', 40));
        assert(free_upto(POWERSHELL_CLOSE@, '\n', 80));
        assert(free_upto(POWERSHELL_CLOSE@, '\n', 120));
        assert(free_upto(POWERSHELL_CLOSE@, '\n', 160));
        assert(free_upto(POWERSHELL_CLOSE@, '\n', 200));
        lemma_no_feed(POWERSHELL_CLOSE@);
    }
    let call = POWERSHELL_OPEN@ + bin + POWERSHELL_CLOSE@;
    lemma_concat_no_feed(POWERSHELL_OPEN@, bin);
    lemma_concat_no_feed(POWERSHELL_OPEN@ + bin, POWERSHELL_CLOSE@);
    assert(call[0] == 'f');
    assert(call.last() == '}');
    lemma_trimmed_keeps_first(call);
    lemma_trimmed_keeps_first(POWERSHELL_SAVE@);
}

/// Lines with a line feed after each.
spec fn fed(list: Seq<Seq<char>>) -> Seq<Seq<char>> {
    Seq::new(list.len(), |i: int| list[i].push('\n'))
}

proof fn lemma_unlines_is_flat(list: Seq<Seq<char>>)
    ensures
        unlines(list) == flat(fed(list)),
    decreases list.len(),
{
    if list.len() > 0 {
        lemma_unlines_is_flat(list.drop_last());
        assert(fed(list).drop_last() =~= fed(list.drop_last()));
        assert(unlines(list) =~= flat(fed(list)));
    }
}

proof fn lemma_fed_block(list: Seq<Seq<char>>)
    requires
        is_block(list),
        forall|i: int| 0 <= i < list.len() ==> !(#[trigger] list[i]).contains('\n'),
    ensures
        pieces(unlines(list)) == fed(list),
        is_block(fed(list)),
{
    let lines = fed(list);
    assert forall|i: int| 0 <= i < lines.len() implies is_piece(#[trigger] lines[i]) && is_ended(
        lines[i],
    ) && trimmed(lines[i]) == trimmed(list[i]) by {
        lemma_trimmed_ignores_ending(list[i], '\n');
        assert(!list[i].contains('\n'));
        assert forall|k: int| 0 <= k < lines[i].len() - 1 implies #[trigger] lines[i][k]
            != '\n' by {
            assert(list[i].contains(list[i][k]));
        }
    }
    lemma_unlines_is_flat(list);
    lemma_pieces_flat(lines);
    assert(lines[0] == list[0].push('\n'));
    assert(lines[lines.len() - 1] == list[list.len() - 1].push('\n'));
    assert forall|i: int| 0 < i < lines.len() - 1 implies !is_begin(#[trigger] lines[i])
        && !is_end(lines[i]) by {
        assert(!is_begin(list[i]));
    }
}

/// The hook of every shell with a profile is one block, wherever rbuild is
/// installed, unless its path holds a line feed.
pub proof fn law_hook_is_one_block(shell: Shell, bin: Seq<char>)
    requires
        shell != Shell::Cmd,
        !bin.contains('\n'),
    ensures
        is_block(pieces(unlines(hook_lines(shell, bin)))),
{
    match shell {
        Shell::Bash | Shell::Zsh => lemma_bash_lines(shell, bin),
        Shell::Fish => lemma_fish_lines(bin),
        _ => lemma_powershell_lines(bin),
    }
    lemma_fed_block(hook_lines(shell, bin));
}

/// Takes the shim directory that the last prompt put on PATH off it again.
pub const BASH_RESET: &'static str =
    "if [ -n \"$RBUILD_SHIM_DIR\" ]; then PATH=$(printf '%s' \"$PATH\" | tr ':' '\\n' | grep -vxF \"$RBUILD_SHIM_DIR\" | paste -sd:); unset RBUILD_SHIM_DIR; fi\n";

/// The same for fish.
pub const FISH_RESET: &'static str =
    "if set -q RBUILD_SHIM_DIR; set PATH (string match -v -- $RBUILD_SHIM_DIR $PATH); set -e RBUILD_SHIM_DIR; end\n";

/// The same for PowerShell.
pub const POWERSHELL_RESET: &'static str =
    "if ($env:RBUILD_SHIM_DIR) { $env:PATH = ($env:PATH -split ';' | Where-Object { $_ -ne $env:RBUILD_SHIM_DIR }) -join ';'; Remove-Item Env:\\RBUILD_SHIM_DIR } ";

/// The code that a prompt runs: it takes back what an earlier prompt added to
/// PATH, and inside a code root puts the shim directory first.
pub open spec fn prompt_code(shell: Shell, target: Option<Seq<char>>) -> Seq<char> {
    match shell {
        Shell::Bash | Shell::Zsh => BASH_RESET@ + match target {
            Some(dir) => "export RBUILD_SHIM_DIR='"@ + dir + "'; export PATH='"@ + dir
                + "':\"$PATH\"\n"@,
            None => Seq::empty(),
        },
        Shell::Fish => FISH_RESET@ + match target {
            Some(dir) => "set -gx RBUILD_SHIM_DIR '"@ + dir + "'; set -gx PATH '"@ + dir
                + "' $PATH\n"@,
            None => Seq::empty(),
        },
        Shell::PowerShell => POWERSHELL_RESET@ + match target {
            Some(dir) => "$env:RBUILD_SHIM_DIR = '"@ + dir + "'; $env:PATH = '"@ + dir
                + "' + ';' + $env:PATH"@,
            None => Seq::empty(),
        },
        Shell::Cmd => Seq::empty(),
    }
}

/// The directory to put on PATH, as contracts speak of it.
pub open spec fn dir_text(target: Option<&str>) -> Option<Seq<char>> {
    match target {
        Some(dir) => Some(dir@),
        None => None,
    }
}

/// The shim dir that was injected is tracked in `RBUILD_SHIM_DIR` so the next
/// prompt can remove exactly that entry, never touching the user's own PATH
/// entries.
pub fn bash_hook(target: Option<&str>) -> (code: String)
    ensures
        code@ == prompt_code(Shell::Bash, dir_text(target)),
{
    // Remove any previously-injected shim dir from PATH.
    let mut s = BASH_RESET.to_owned();
    if let Some(dir) = target {
        let add = "export RBUILD_SHIM_DIR='".to_owned().concat(dir).concat(
            "'; export PATH='",
        ).concat(dir).concat("':\"$PATH\"\n");
        s.append(add.as_str());
    } else {
        assert(s@ + Seq::<char>::empty() =~= s@);
    }
    s
}

/// The prompt code for fish.
pub fn fish_hook(target: Option<&str>) -> (code: String)
    ensures
        code@ == prompt_code(Shell::Fish, dir_text(target)),
{
    let mut s = FISH_RESET.to_owned();
    if let Some(dir) = target {
        let add = "set -gx RBUILD_SHIM_DIR '".to_owned().concat(dir).concat(
            "'; set -gx PATH '",
        ).concat(dir).concat("' $PATH\n");
        s.append(add.as_str());
    } else {
        assert(s@ + Seq::<char>::empty() =~= s@);
    }
    s
}

/// The prompt code for PowerShell.
pub fn powershell_hook(target: Option<&str>) -> (code: String)
    ensures
        code@ == prompt_code(Shell::PowerShell, dir_text(target)),
{
    let mut s = POWERSHELL_RESET.to_owned();
    if let Some(dir) = target {
        let add = "$env:RBUILD_SHIM_DIR = '".to_owned().concat(dir).concat(
            "'; $env:PATH = '",
        ).concat(dir).concat("' + ';' + $env:PATH");
        s.append(add.as_str());
    } else {
        assert(s@ + Seq::<char>::empty() =~= s@);
    }
    s
}

/// Whether a directory lies at or below one of the code roots.
pub open spec fn is_inside(config: Option<&GlobalConfig>, cwd: Seq<char>) -> bool {
    config matches Some(c) && exists|k: int|
        0 <= k < c.roots@.len() && starts_with(cwd, (#[trigger] c.roots@[k]).path@)
}

/// Where nothing is set up no directory is inside a code root: a minimal
/// configuration counts as none.
pub proof fn law_minimal_config_has_no_inside(config: GlobalConfig, cwd: Seq<char>)
    requires
        config.is_minimal(),
    ensures
        !is_inside(Some(&config), cwd),
{
}

/// The PATH-adjustment code printed for the current directory: inside a
/// registered code root it exposes the shim dir, otherwise it removes it.
pub fn emit_hook(
    shell: Shell,
    config: Option<&GlobalConfig>,
    cwd: &str,
    shim_dir: Option<&str>,
) -> (code: String)
    ensures
        code@ == prompt_code(
            shell,
            if is_inside(config, cwd@) {
                dir_text(shim_dir)
            } else {
                None
            },
        ),
{
    let inside = match config {
        Some(c) => match c.locate(cwd) {
            Some(_) => {
                proof {
                    let k = choose|k: int| #[trigger] crate::config::chosen(c.roots@, cwd@, k);
                    assert(starts_with(cwd@, c.roots@[k].path@));
                }
                true
            },
            None => false,
        },
        None => false,
    };
    let target = if inside {
        shim_dir
    } else {
        None
    };
    match shell {
        Shell::Bash | Shell::Zsh => bash_hook(target),
        Shell::Fish => fish_hook(target),
        Shell::PowerShell => powershell_hook(target),
        Shell::Cmd => {
            let none = String::new();
            assert(none@ =~= Seq::<char>::empty());
            none
        },
    }
}

// cmd has no per-directory hook, so the shim dir cannot be added and removed per
// directory the way the other shells do. But the shims themselves do a runtime
// cwd check (offload only inside a code root, else exec the real tool), so it's
// safe to keep the shim dir on PATH for all cmd sessions. It is prepended via
// the command-processor AutoRun value, which cmd runs at every startup. Only
// rbuild's own `&`-separated segment is touched, preserving any the user has.

/// The registry key that holds the AutoRun value.
pub const AUTORUN_KEY: &'static str = "HKCU\\Software\\Microsoft\\Command Processor";

/// The AutoRun segment that puts the shim directory on PATH. The marker tags it
/// so install and uninstall can find exactly it.
pub open spec fn segment(shim_dir: Seq<char>) -> Seq<char> {
    "set \"PATH="@ + shim_dir + ";%PATH%\" "@ + MARKER_BEGIN@
}

/// The AutoRun segment that puts the shim directory on PATH.
pub fn cmd_segment(shim_dir: &str) -> (text: String)
    ensures
        text@ == segment(shim_dir@),
{
    "set \"PATH=".to_owned().concat(shim_dir).concat(";%PATH%\" ").concat(MARKER_BEGIN)
}

/// Whether an AutoRun segment carries the marker.
pub open spec fn is_ours(part: Seq<char>) -> bool {
    has_text(part, MARKER_BEGIN@)
}

/// The parts that do not carry the marker.
pub open spec fn theirs(parts: Seq<Seq<char>>) -> Seq<Seq<char>>
    decreases parts.len(),
{
    if parts.len() == 0 {
        Seq::empty()
    } else if is_ours(parts.last()) {
        theirs(parts.drop_last())
    } else {
        theirs(parts.drop_last()).push(parts.last())
    }
}

/// An AutoRun value without rbuild's segments.
pub open spec fn autorun_without(value: Seq<char>) -> Seq<char> {
    joined(theirs(split(value, '&')), "&"@)
}

/// Drops rbuild's `&`-separated AutoRun segment (the one tagged with the
/// marker), preserving any other segments the user has.
pub fn strip_autorun_segment(value: &str) -> (rest: String)
    ensures
        rest@ == autorun_without(value@),
{
    let parts = split_at_char(value, '&');
    let ghost all = split(value@, '&');
    let mut keep: Vec<String> = Vec::new();
    let mut i: usize = 0;
    assert(all.take(0) =~= Seq::<Seq<char>>::empty());
    while i < parts.len()
        invariant
            i <= parts@.len(),
            views(parts@) == all,
            views(keep@) =~= theirs(all.take(i as int)),
        decreases parts@.len() - i,
    {
        assert(all[i as int] == parts@[i as int]@);
        assert(all.take(i + 1).drop_last() =~= all.take(i as int));
        if !contains(parts[i].as_str(), MARKER_BEGIN) {
            let ghost before = keep@;
            keep.push(parts[i].clone());
            assert(views(keep@) =~= views(before).push(all[i as int]));
        }
        i = i + 1;
    }
    assert(all.take(all.len() as int) =~= all);
    join(keep.as_slice(), "&")
}

/// The arguments of `reg` that set the AutoRun value.
pub open spec fn reg_add(value: Seq<char>) -> Seq<Seq<char>> {
    seq![
        "add"@,
        AUTORUN_KEY@,
        "/v"@,
        "AutoRun"@,
        "/t"@,
        "REG_SZ"@,
        "/d"@,
        value,
        "/f"@,
    ]
}

/// The arguments of `reg` that remove the AutoRun value.
pub open spec fn reg_delete() -> Seq<Seq<char>> {
    seq!["delete"@, AUTORUN_KEY@, "/v"@, "AutoRun"@, "/f"@]
}

fn reg_add_args(value: String) -> (args: Vec<String>)
    ensures
        views(args@) == reg_add(value@),
{
    let args = vec![
        "add".to_owned(),
        AUTORUN_KEY.to_owned(),
        "/v".to_owned(),
        "AutoRun".to_owned(),
        "/t".to_owned(),
        "REG_SZ".to_owned(),
        "/d".to_owned(),
        value,
        "/f".to_owned(),
    ];
    assert(views(args@) =~= reg_add(value@));
    args
}

/// The arguments of `reg` that ask for the AutoRun value.
pub fn reg_query_args() -> (args: Vec<String>)
    ensures
        views(args@) == seq!["query"@, AUTORUN_KEY@, "/v"@, "AutoRun"@],
{
    let args = vec![
        "query".to_owned(),
        AUTORUN_KEY.to_owned(),
        "/v".to_owned(),
        "AutoRun".to_owned(),
    ];
    assert(views(args@) =~= seq!["query"@, AUTORUN_KEY@, "/v"@, "AutoRun"@]);
    args
}

/// The AutoRun value with rbuild's segment in it once, at the end.
pub open spec fn autorun_with(existing: Seq<char>, shim_dir: Seq<char>) -> Seq<char> {
    let cleaned = autorun_without(existing);
    if cleaned.len() == 0 {
        segment(shim_dir)
    } else {
        cleaned + "&"@ + segment(shim_dir)
    }
}

/// What `reg` is called with to install the cmd integration. cmd only exists on
/// Windows.
pub fn install_cmd(windows: bool, shim_dir: &str, existing: Option<String>) -> (args: Result<
    Vec<String>,
    HookError,
>)
    ensures
        if windows {
            args matches Ok(a) && views(a@) == reg_add(
                autorun_with(
                    match existing {
                        Some(v) => v@,
                        None => Seq::empty(),
                    },
                    shim_dir@,
                ),
            )
        } else {
            args == Err::<Vec<String>, HookError>(HookError::CmdNeedsWindows)
        },
{
    if !windows {
        return Err(HookError::CmdNeedsWindows);
    }
    let segment = cmd_segment(shim_dir);
    let value = match existing {
        Some(v) => v,
        None => {
            let none = String::new();
            assert(none@ =~= Seq::<char>::empty());
            none
        },
    };
    let cleaned = strip_autorun_segment(value.as_str());
    let combined = if cleaned.as_str().is_empty() {
        segment
    } else {
        cleaned.concat("&").concat(segment.as_str())
    };
    Ok(reg_add_args(combined))
}

/// What `reg` is called with to remove the cmd integration, if anything is to
/// be done.
pub fn uninstall_cmd(windows: bool, existing: Option<String>) -> (args: Option<Vec<String>>)
    ensures
        ({
            let value = match existing {
                Some(v) => v@,
                None => Seq::empty(),
            };
            let cleaned = autorun_without(value);
            if !windows {
                args is None
            } else if cleaned.len() == 0 {
                args matches Some(a) && views(a@) == reg_delete()
            } else if cleaned != value {
                args matches Some(a) && views(a@) == reg_add(cleaned)
            } else {
                args is None
            }
        }),
{
    if !windows {
        return None;
    }
    let value = match existing {
        Some(v) => v,
        None => {
            let none = String::new();
            assert(none@ =~= Seq::<char>::empty());
            none
        },
    };
    let cleaned = strip_autorun_segment(value.as_str());
    if cleaned.as_str().is_empty() {
        let args = vec![
            "delete".to_owned(),
            AUTORUN_KEY.to_owned(),
            "/v".to_owned(),
            "AutoRun".to_owned(),
            "/f".to_owned(),
        ];
        assert(views(args@) =~= reg_delete());
        Some(args)
    } else if !same(cleaned.as_str(), value.as_str()) {
        Some(reg_add_args(cleaned))
    } else {
        None
    }
}

/// The first line that holds a word.
pub open spec fn line_with(list: Seq<Seq<char>>, word: Seq<char>) -> Option<Seq<char>>
    decreases list.len(),
{
    if list.len() == 0 {
        None
    } else if has_text(list[0], word) {
        Some(list[0])
    } else {
        line_with(list.skip(1), word)
    }
}

/// What follows the type in a line of `reg query`: the text after the first
/// `REG_SZ`, up to a second one.
pub open spec fn reg_value(line: Seq<char>) -> Option<Seq<char>> {
    match cut(line, "REG_SZ"@) {
        None => None,
        Some((_, after)) => match cut(after, "REG_SZ"@) {
            None => Some(trimmed(after)),
            Some((value, _)) => Some(trimmed(value)),
        },
    }
}

/// The AutoRun value out of what `reg query` prints.
pub fn read_autorun(output: &str) -> (value: Option<String>)
    ensures
        match line_with(lines(output@), "AutoRun"@) {
            None => value is None,
            Some(line) => match reg_value(line) {
                None => value is None,
                Some(v) => value matches Some(t) && t@ == v,
            },
        },
{
    let list = split_lines(output);
    let ghost all = lines(output@);
    let mut i: usize = 0;
    assert(all.skip(0) =~= all);
    while i < list.len()
        invariant
            i <= list@.len(),
            views(list@) == all,
            all == lines(output@),
            line_with(all, "AutoRun"@) == line_with(all.skip(i as int), "AutoRun"@),
        decreases list@.len() - i,
    {
        assert(all.skip(i as int)[0] == list@[i as int]@);
        assert(all.skip(i as int).skip(1) =~= all.skip(i + 1));
        if contains(list[i].as_str(), "AutoRun") {
            return match split_once(list[i].as_str(), "REG_SZ") {
                None => None,
                Some((_, after)) => match split_once(after.as_str(), "REG_SZ") {
                    None => Some(trim(after.as_str())),
                    Some((value, _)) => Some(trim(value.as_str())),
                },
            };
        }
        i = i + 1;
    }
    None
}

proof fn lemma_theirs_none(parts: Seq<Seq<char>>)
    requires
        forall|i: int| 0 <= i < parts.len() ==> is_ours(#[trigger] parts[i]),
    ensures
        theirs(parts).len() == 0,
    decreases parts.len(),
{
    if parts.len() > 0 {
        assert(parts.last() == parts[parts.len() - 1]);
        assert forall|i: int| 0 <= i < parts.drop_last().len() implies is_ours(
            #[trigger] parts.drop_last()[i],
        ) by {
            assert(is_ours(parts[i]));
        }
        lemma_theirs_none(parts.drop_last());
    }
}

proof fn lemma_theirs_all(parts: Seq<Seq<char>>)
    requires
        forall|i: int| 0 <= i < parts.len() ==> !is_ours(#[trigger] parts[i]),
    ensures
        theirs(parts) == parts,
    decreases parts.len(),
{
    if parts.len() > 0 {
        assert(parts.last() == parts[parts.len() - 1]);
        assert forall|i: int| 0 <= i < parts.drop_last().len() implies !is_ours(
            #[trigger] parts.drop_last()[i],
        ) by {
            assert(!is_ours(parts[i]));
        }
        lemma_theirs_all(parts.drop_last());
        assert(parts.drop_last().push(parts.last()) =~= parts);
    }
    assert(theirs(parts) =~= parts);
}

proof fn lemma_theirs_concat(a: Seq<Seq<char>>, b: Seq<Seq<char>>)
    ensures
        theirs(a + b) == theirs(a) + theirs(b),
    decreases b.len(),
{
    if b.len() == 0 {
        assert(a + b =~= a);
        assert(theirs(a) + theirs(b) =~= theirs(a));
    } else {
        assert((a + b).drop_last() =~= a + b.drop_last());
        lemma_theirs_concat(a, b.drop_last());
        assert(theirs(a + b) =~= theirs(a) + theirs(b));
    }
}

proof fn lemma_theirs_members(parts: Seq<Seq<char>>)
    ensures
        forall|i: int|
            0 <= i < theirs(parts).len() ==> !is_ours(#[trigger] theirs(parts)[i])
                && parts.contains(theirs(parts)[i]),
    decreases parts.len(),
{
    if parts.len() > 0 {
        let init = parts.drop_last();
        lemma_theirs_members(init);
        assert forall|i: int| 0 <= i < theirs(parts).len() implies !is_ours(
            #[trigger] theirs(parts)[i],
        ) && parts.contains(theirs(parts)[i]) by {
            if i < theirs(init).len() {
                assert(theirs(parts)[i] == theirs(init)[i]);
                let k = init.index_of(theirs(init)[i]);
                assert(parts[k] == theirs(init)[i]);
            } else {
                assert(parts[parts.len() - 1] == theirs(parts)[i]);
            }
        }
    }
}

proof fn lemma_split_joined(parts: Seq<Seq<char>>)
    requires
        parts.len() > 0,
        forall|i: int| 0 <= i < parts.len() ==> !(#[trigger] parts[i]).contains('&'),
    ensures
        split(joined(parts, "&"@), '&') == parts,
    decreases parts.len(),
{
    reveal_strlit("&");
    assert("&"@ =~= seq!['&']);
    assert(parts.last() == parts[parts.len() - 1]);
    lemma_split_single(parts.last(), '&');
    if parts.len() == 1 {
        assert(seq![parts[0]] =~= parts);
    } else {
        let init = parts.drop_last();
        assert forall|i: int| 0 <= i < init.len() implies !(#[trigger] init[i]).contains('&') by {
            assert(!parts[i].contains('&'));
        }
        lemma_split_joined(init);
        lemma_split_concat(joined(init, "&"@), '&', parts.last());
        assert(init + seq![parts.last()] =~= parts);
    }
}

/// The user's own AutoRun segments are preserved: with rbuild's segment beside
/// them they come back as they were, and without it nothing changes. Of a value
/// that is all rbuild's nothing is left.
pub proof fn law_autorun_strip_preserves_others(own: Seq<char>, ours: Seq<char>)
    requires
        forall|i: int|
            #![trigger split(own, '&')[i]]
            0 <= i < split(own, '&').len() ==> !is_ours(split(own, '&')[i]),
        forall|i: int|
            #![trigger split(ours, '&')[i]]
            0 <= i < split(ours, '&').len() ==> is_ours(split(ours, '&')[i]),
    ensures
        autorun_without(own + "&"@ + ours) == own,
        autorun_without(own) == own,
        autorun_without(ours).len() == 0,
{
    reveal_strlit("&");
    assert("&"@ =~= seq!['&']);
    lemma_split_concat(own, '&', ours);
    lemma_theirs_concat(split(own, '&'), split(ours, '&'));
    lemma_theirs_all(split(own, '&'));
    lemma_theirs_none(split(ours, '&'));
    assert(theirs(split(own, '&')) + theirs(split(ours, '&')) =~= split(own, '&'));
    crate::text::lemma_join_split(own, '&');
}

proof fn lemma_autorun_without_is_theirs(value: Seq<char>)
    ensures
        theirs(split(autorun_without(value), '&')) == split(autorun_without(value), '&'),
{
    let kept = theirs(split(value, '&'));
    lemma_theirs_members(split(value, '&'));
    lemma_split_parts(value, '&');
    assert forall|i: int| 0 <= i < kept.len() implies !(#[trigger] kept[i]).contains('&') by {
        let k = split(value, '&').index_of(kept[i]);
        assert(split(value, '&')[k] == kept[i]);
    }
    if kept.len() == 0 {
        let empty = Seq::<char>::empty();
        assert(autorun_without(value) =~= empty);
        assert(split(empty, '&') =~= seq![empty]);
        lemma_markers_differ();
        assert(!is_ours(empty));
        assert forall|i: int| 0 <= i < seq![empty].len() implies !is_ours(
            #[trigger] seq![empty][i],
        ) by {}
        lemma_theirs_all(seq![empty]);
    } else {
        lemma_split_joined(kept);
        lemma_theirs_all(kept);
    }
}

/// Stripping an AutoRun value is idempotent.
pub proof fn law_autorun_strip_is_idempotent(value: Seq<char>)
    ensures
        autorun_without(autorun_without(value)) == autorun_without(value),
{
    lemma_autorun_without_is_theirs(value);
    reveal_strlit("&");
    assert("&"@ =~= seq!['&']);
    crate::text::lemma_join_split(autorun_without(value), '&');
}

/// Uninstalling undoes installing in the AutoRun value, and installing again
/// changes nothing. Every `&`-separated part of the segment must carry the
/// marker, as a segment without `&` does.
pub proof fn law_autorun_uninstall_undoes_install(existing: Seq<char>, shim_dir: Seq<char>)
    requires
        forall|i: int|
            #![trigger split(segment(shim_dir), '&')[i]]
            0 <= i < split(segment(shim_dir), '&').len() ==> is_ours(
                split(segment(shim_dir), '&')[i],
            ),
    ensures
        autorun_without(autorun_with(existing, shim_dir)) == autorun_without(existing),
        autorun_with(autorun_with(existing, shim_dir), shim_dir) == autorun_with(
            existing,
            shim_dir,
        ),
{
    let cleaned = autorun_without(existing);
    let ours = segment(shim_dir);
    if cleaned.len() == 0 {
        lemma_theirs_none(split(ours, '&'));
        assert(autorun_without(ours) =~= cleaned);
    } else {
        lemma_autorun_without_is_theirs(existing);
        lemma_theirs_members(split(cleaned, '&'));
        law_autorun_strip_preserves_others(cleaned, ours);
    }
}

/// The segment for a directory without `&` in its path carries the marker in
/// its only part.
pub proof fn law_segment_carries_the_marker(shim_dir: Seq<char>)
    requires
        !shim_dir.contains('&'),
    ensures
        split(segment(shim_dir), '&') == seq![segment(shim_dir)],
        is_ours(segment(shim_dir)),
{
    let ours = segment(shim_dir);
    reveal_strlit("set \"PATH=");
    reveal_strlit(";%PATH%\" ");
    reveal_strlit("# >>> rbuild >>>");
    let n = ours.len() as int;
    if ours.contains('&') {
        let k = ours.index_of('&');
        let a = "set \"PATH="@.len() as int;
        let b = a + shim_dir.len();
        reveal_with_fuel(free_upto, 20);
        assert(free_upto("set \"PATH="@, '&', a));
        lemma_free("set \"PATH="@, '&', a);
        assert(free_upto(";%PATH%\" "@, '&', ";%PATH%\" "@.len() as int));
        lemma_free(";%PATH%\" "@, '&', ";%PATH%\" "@.len() as int);
        assert(free_upto(MARKER_BEGIN@, '&', 16));
        lemma_free(MARKER_BEGIN@, '&', 16);
        if k < a {
            assert("set \"PATH="@[k] == '&');
        } else if k < b {
            assert(shim_dir[k - a] == '&');
        } else if k < b + ";%PATH%\" "@.len() {
            assert(";%PATH%\" "@[k - b] == '&');
        } else {
            assert(MARKER_BEGIN@[k - b - ";%PATH%\" "@.len()] == '&');
        }
    }
    lemma_split_single(ours, '&');
    assert(ours.subrange(n - 16, n) =~= MARKER_BEGIN@);
    assert(occurs_at(ours, MARKER_BEGIN@, n - 16));
}

proof fn lemma_trimmed_to(a: Seq<char>, m: Seq<char>, b: Seq<char>)
    requires
        forall|i: int| 0 <= i < a.len() ==> is_white(#[trigger] a[i]),
        forall|i: int| 0 <= i < b.len() ==> is_white(#[trigger] b[i]),
        m.len() > 0,
        !is_white(m[0]),
        !is_white(m.last()),
    ensures
        trimmed(a + m + b) == m,
{
    let s = a + m + b;
    let r = crate::text::law_trimming_takes_the_white_ends(s, ' ');
    let n = a.len() as int;
    let e = n + m.len();
    assert(s[n] == m[0]);
    assert(s[e - 1] == m.last());
    assert(r.0 <= n < r.1);
    assert(r.0 <= e - 1 < r.1);
    assert(r.0 == n) by {
        if r.0 < n {
            assert(s[r.0] == a[r.0]);
        }
    }
    assert(r.1 == e) by {
        if r.1 > e {
            assert(s[r.1 - 1] == b[r.1 - 1 - e]);
        }
    }
    assert(s.subrange(n, e) =~= m);
}

/// A line is a marker just where the marker's text stands in it alone, with
/// nothing but white space around it.
pub proof fn law_markers_stand_alone(line: Seq<char>)
    ensures
        is_begin(line) <==> exists|a: Seq<char>, b: Seq<char>|
            {
                &&& line == #[trigger] (a + "# >>> rbuild >>>"@ + b)
                &&& forall|i: int| 0 <= i < a.len() ==> is_white(#[trigger] a[i])
                &&& forall|i: int| 0 <= i < b.len() ==> is_white(#[trigger] b[i])
            },
        is_end(line) <==> exists|a: Seq<char>, b: Seq<char>|
            {
                &&& line == #[trigger] (a + "# <<< rbuild <<<"@ + b)
                &&& forall|i: int| 0 <= i < a.len() ==> is_white(#[trigger] a[i])
                &&& forall|i: int| 0 <= i < b.len() ==> is_white(#[trigger] b[i])
            },
{
    reveal_strlit("# >>> rbuild >>>");
    reveal_strlit("# <<< rbuild <<<");
    lemma_marker_stands_alone(line, "# >>> rbuild >>>"@);
    lemma_marker_stands_alone(line, "# <<< rbuild <<<"@);
}

proof fn lemma_marker_stands_alone(line: Seq<char>, m: Seq<char>)
    requires
        m.len() > 0,
        !is_white(m[0]),
        !is_white(m.last()),
    ensures
        trimmed(line) == m <==> exists|a: Seq<char>, b: Seq<char>|
            {
                &&& line == #[trigger] (a + m + b)
                &&& forall|i: int| 0 <= i < a.len() ==> is_white(#[trigger] a[i])
                &&& forall|i: int| 0 <= i < b.len() ==> is_white(#[trigger] b[i])
            },
{
    if trimmed(line) == m {
        let r = crate::text::law_trimming_takes_the_white_ends(line, ' ');
        let a = line.take(r.0);
        let b = line.skip(r.1);
        assert(line =~= a + m + b);
        assert forall|i: int| 0 <= i < a.len() implies is_white(#[trigger] a[i]) by {
            assert(a[i] == line[i]);
        }
        assert forall|i: int| 0 <= i < b.len() implies is_white(#[trigger] b[i]) by {
            assert(b[i] == line[r.1 + i]);
        }
    }
    if exists|a: Seq<char>, b: Seq<char>|
        {
            &&& line == #[trigger] (a + m + b)
            &&& forall|i: int| 0 <= i < a.len() ==> is_white(#[trigger] a[i])
            &&& forall|i: int| 0 <= i < b.len() ==> is_white(#[trigger] b[i])
        } {
        let (a, b) = choose|a: Seq<char>, b: Seq<char>|
            {
                &&& line == #[trigger] (a + m + b)
                &&& forall|i: int| 0 <= i < a.len() ==> is_white(#[trigger] a[i])
                &&& forall|i: int| 0 <= i < b.len() ==> is_white(#[trigger] b[i])
            };
        lemma_trimmed_to(a, m, b);
    }
}

/// Lines are taken one by one: a closing marker takes away everything from the
/// last opening marker on that is still there, and any other line is kept.
pub proof fn law_strip_goes_line_by_line(list: Seq<Seq<char>>, line: Seq<char>, k: int)
    requires
        -1 <= k < outside(list).len(),
        k >= 0 ==> is_begin(outside(list)[k]),
        forall|j: int| k < j < outside(list).len() ==> !is_begin(#[trigger] outside(list)[j]),
    ensures
        outside(Seq::empty()) == Seq::<Seq<char>>::empty(),
        outside(list.push(line)) == if is_end(line) && k >= 0 {
            outside(list).take(k)
        } else {
            outside(list).push(line)
        },
{
    let before = outside(list);
    assert(list.push(line).drop_last() =~= list);
    lemma_last_begin(before);
    assert(last_begin(before) == k) by {
        let l = last_begin(before);
        if l < k {
            assert(!is_begin(before[k]));
        }
        if l > k {
            assert(!is_begin(before[l]));
        }
    }
}

/// Installing keeps the profile: a profile without a block stands there as it was,
/// followed by the hook on lines of its own.
pub proof fn law_install_keeps_the_profile(shell: Shell, bin: Seq<char>, text: Seq<char>)
    requires
        no_block(pieces(text)),
    ensures
        has_prefix(installed(shell, bin, text), text),
        installed(shell, bin, text) == text + (if text.len() == 0 || text.last() == '\n' {
            Seq::<char>::empty()
        } else {
            seq!['\n']
        }) + unlines(hook_lines(shell, bin)),
{
    law_strip_leaves_a_text_without_blocks(text);
    let all = installed(shell, bin, text);
    assert(all =~= text + (if text.len() == 0 || text.last() == '\n' {
        Seq::<char>::empty()
    } else {
        seq!['\n']
    }) + unlines(hook_lines(shell, bin)));
    assert(all.take(text.len() as int) =~= text);
}

/// The hook runs rbuild: between the two markers one line calls the binary that it
/// was installed for, with the subcommand that prints the code for this very
/// shell.
pub proof fn law_hook_calls_the_binary(shell: Shell, bin: Seq<char>)
    requires
        shell != Shell::Cmd,
    ensures
        ({
            let list = hook_lines(shell, bin);
            &&& list.len() == if shell == Shell::Fish {
                5int
            } else {
                4
            }
            &&& list[0] == "# >>> rbuild >>>"@
            &&& list.last() == "# <<< rbuild <<<"@
            &&& match shell {
                Shell::Bash => list[1] == "_rbuild_hook() { eval \"$(\""@ + bin + "\" hook "@
                    + "bash"@ + ")\"; }"@,
                Shell::Zsh => list[1] == "_rbuild_hook() { eval \"$(\""@ + bin + "\" hook "@
                    + "zsh"@ + ")\"; }"@,
                Shell::Fish => list[2] == "    "@ + bin + " hook fish | source"@,
                _ => exists|more: Seq<char>|
                    list[2] == "function global:prompt { & \""@ + bin + #[trigger] (
                    "\" hook powershell | Out-String | Invoke-Expression;"@ + more),
            }
            &&& match shell {
                Shell::Bash | Shell::Zsh => list[2]
                    == "PROMPT_COMMAND=\"_rbuild_hook;${PROMPT_COMMAND:-}\""@,
                Shell::Fish => list[1] == "function _rbuild_hook --on-event fish_prompt"@ && list[3]
                    == "end"@,
                _ => list[1] == POWERSHELL_SAVE@,
            }
        }),
{
    if shell == Shell::PowerShell {
        reveal_strlit("\" hook powershell | Out-String | Invoke-Expression;");
        reveal_strlit(
            "\" hook powershell | Out-String | Invoke-Expression; if (Test-Path Function:\\_rbuild_orig_prompt) { _rbuild_orig_prompt } else { \"PS $($executionContext.SessionState.Path.CurrentLocation)$('>' * ($nestedPromptLevel + 1)) \" } }",
        );
        let call = "\" hook powershell | Out-String | Invoke-Expression;"@;
        let more = POWERSHELL_CLOSE@.skip(call.len() as int);
        assert(POWERSHELL_CLOSE@.take(call.len() as int) =~= call);
        assert(POWERSHELL_CLOSE@ =~= call + more);
        assert(hook_lines(shell, bin)[2] == "function global:prompt { & \""@ + bin + (call + more));
    }
}

/// A prompt takes back first what an earlier one added, wherever the shell stands
/// now, and inside a root puts the shim directory first on PATH and remembers it.
pub proof fn law_prompt_resets_before_it_adds(shell: Shell, dir: Seq<char>)
    ensures
        shell != Shell::Cmd ==> has_prefix(prompt_code(shell, Some(dir)), prompt_code(shell, None))
            && prompt_code(shell, None).len() > 0,
        shell == Shell::Bash || shell == Shell::Zsh ==> prompt_code(shell, Some(dir)) == prompt_code(
            shell,
            None,
        ) + "export RBUILD_SHIM_DIR='"@ + dir + "'; export PATH='"@ + dir + "':\"$PATH\"\n"@,
        shell == Shell::Fish ==> prompt_code(shell, Some(dir)) == prompt_code(shell, None)
            + "set -gx RBUILD_SHIM_DIR '"@ + dir + "'; set -gx PATH '"@ + dir + "' $PATH\n"@,
        shell == Shell::PowerShell ==> prompt_code(shell, Some(dir)) == prompt_code(shell, None)
            + "$env:RBUILD_SHIM_DIR = '"@ + dir + "'; $env:PATH = '"@ + dir
            + "' + ';' + $env:PATH"@,
        shell == Shell::Cmd ==> prompt_code(shell, Some(dir)).len() == 0 && prompt_code(
            shell,
            None,
        ).len() == 0,
        prompt_code(Shell::Zsh, Some(dir)) == prompt_code(Shell::Bash, Some(dir)),
{
    let with = prompt_code(shell, Some(dir));
    let bare = prompt_code(shell, None);
    match shell {
        Shell::Bash | Shell::Zsh => {
            reveal_strlit(
                "if [ -n \"$RBUILD_SHIM_DIR\" ]; then PATH=$(printf '%s' \"$PATH\" | tr ':' '\\n' | grep -vxF \"$RBUILD_SHIM_DIR\" | paste -sd:); unset RBUILD_SHIM_DIR; fi\n",
            );
            assert(bare =~= BASH_RESET@);
            assert(with =~= bare + "export RBUILD_SHIM_DIR='"@ + dir + "'; export PATH='"@ + dir
                + "':\"$PATH\"\n"@);
            assert(with.take(bare.len() as int) =~= bare);
        },
        Shell::Fish => {
            reveal_strlit(
                "if set -q RBUILD_SHIM_DIR; set PATH (string match -v -- $RBUILD_SHIM_DIR $PATH); set -e RBUILD_SHIM_DIR; end\n",
            );
            assert(bare =~= FISH_RESET@);
            assert(with =~= bare + "set -gx RBUILD_SHIM_DIR '"@ + dir + "'; set -gx PATH '"@ + dir
                + "' $PATH\n"@);
            assert(with.take(bare.len() as int) =~= bare);
        },
        Shell::PowerShell => {
            reveal_strlit(
                "if ($env:RBUILD_SHIM_DIR) { $env:PATH = ($env:PATH -split ';' | Where-Object { $_ -ne $env:RBUILD_SHIM_DIR }) -join ';'; Remove-Item Env:\\RBUILD_SHIM_DIR } ",
            );
            assert(bare =~= POWERSHELL_RESET@);
            assert(with =~= bare + "$env:RBUILD_SHIM_DIR = '"@ + dir + "'; $env:PATH = '"@ + dir
                + "' + ';' + $env:PATH"@);
            assert(with.take(bare.len() as int) =~= bare);
        },
        Shell::Cmd => {},
    }
}

/// A directory is inside a code root just where the components of one of the roots
/// are the first of its own.
pub proof fn law_inside_goes_by_components(config: GlobalConfig, cwd: Seq<char>)
    ensures
        is_inside(Some(&config), cwd) <==> exists|k: int|
            {
                let root = crate::path::components((#[trigger] config.roots@[k]).path@);
                &&& 0 <= k < config.roots@.len()
                &&& root.len() <= crate::path::components(cwd).len()
                &&& crate::path::components(cwd).take(root.len() as int) == root
            },
        !is_inside(None, cwd),
{
}

/// Of an AutoRun value exactly the segments that carry the marker go; the others
/// stay, in order, with one `&` between them.
pub proof fn law_only_marked_segments_go(value: Seq<char>)
    ensures
        autorun_without(value) == joined(
            split(value, '&').filter(|part: Seq<char>| !has_text(part, "# >>> rbuild >>>"@)),
            seq!['&'],
        ),
{
    reveal_strlit("&");
    assert("&"@ =~= seq!['&']);
    lemma_theirs_is_a_filter(split(value, '&'));
}

proof fn lemma_theirs_is_a_filter(parts: Seq<Seq<char>>)
    ensures
        theirs(parts) == parts.filter(|part: Seq<char>| !has_text(part, "# >>> rbuild >>>"@)),
    decreases parts.len(),
{
    reveal(Seq::filter);
    let keep = |part: Seq<char>| !has_text(part, "# >>> rbuild >>>"@);
    if parts.len() > 0 {
        lemma_theirs_is_a_filter(parts.drop_last());
    }
    assert(theirs(parts) =~= parts.filter(keep));
}

/// The installed AutoRun value puts the shim directory first on PATH with its last
/// segment, behind what the user has of their own.
pub proof fn law_autorun_ends_with_the_segment(existing: Seq<char>, shim_dir: Seq<char>)
    ensures
        ({
            let segment = "set \"PATH="@ + shim_dir + ";%PATH%\" "@ + "# >>> rbuild >>>"@;
            let kept = autorun_without(existing);
            autorun_with(existing, shim_dir) == if kept.len() == 0 {
                segment
            } else {
                kept + seq!['&'] + segment
            }
        }),
{
    reveal_strlit("&");
    assert("&"@ =~= seq!['&']);
}

/// The first line that holds a word is the one that is taken.
pub proof fn law_first_line_is_taken(list: Seq<Seq<char>>, word: Seq<char>, k: int)
    requires
        0 <= k <= list.len(),
        forall|j: int| 0 <= j < k ==> !has_text(#[trigger] list[j], word),
        k < list.len() ==> has_text(list[k], word),
    ensures
        line_with(list, word) == if k < list.len() {
            Some(list[k])
        } else {
            None
        },
    decreases list.len(),
{
    if list.len() > 0 && k > 0 {
        let rest = list.skip(1);
        assert(!has_text(list[0], word));
        assert forall|j: int| 0 <= j < k - 1 implies !has_text(#[trigger] rest[j], word) by {
            assert(!has_text(list[j + 1], word));
        }
        law_first_line_is_taken(rest, word, k - 1);
    }
}

proof fn lemma_type_is_found(before: Seq<char>, after: Seq<char>)
    requires
        !has_text(before, "REG_SZ"@),
    ensures
        cut(before + "REG_SZ"@ + after, "REG_SZ"@) == Some((before, after)),
{
    let word = "REG_SZ"@;
    let line = before + word + after;
    let n = before.len() as int;
    reveal_strlit("REG_SZ");
    crate::text::law_cut_is_at_the_first_place(line, word);
    let (a, b) = cut(line, word)->0;
    assert(line == a + word + b);
    let k = a.len() as int;
    assert(k <= n);
    if k < n {
        let w = (a + word + b).subrange(k, k + 6);
        assert(w =~= word);
        if k + 6 <= n {
            assert(before.subrange(k, k + 6) =~= word);
            assert(occurs_at(before, word, k));
        } else {
            // The word does not overlap itself.
            assert(line[n] == word[0]);
            assert(line[n] == w[n - k]);
            assert(n - k == 1 || n - k == 2 || n - k == 3 || n - k == 4 || n - k == 5);
        }
    }
    assert(a =~= line.take(n));
    assert(line.take(n) =~= before);
    assert(b =~= line.skip(n + 6));
    assert(line.skip(n + 6) =~= after);
}

/// The value of a registry entry is read back as it was printed: what stands
/// behind its type, without white space around it.
pub proof fn law_registry_value_is_read_back(before: Seq<char>, value: Seq<char>, more: Seq<char>)
    requires
        !has_text(before, "REG_SZ"@),
        !has_text(value, "REG_SZ"@),
    ensures
        reg_value(before) is None,
        reg_value(before + "REG_SZ"@ + value) == Some(trimmed(value)),
        reg_value(before + "REG_SZ"@ + (value + "REG_SZ"@ + more)) == Some(trimmed(value)),
{
    lemma_type_is_found(before, value);
    lemma_type_is_found(before, value + "REG_SZ"@ + more);
    lemma_type_is_found(value, more);
}

/// Each shell is known by its own name, PowerShell by a second one too, and no
/// other name stands for a shell.
pub proof fn law_shells_are_known_by_name(name: Seq<char>, shell: Shell)
    ensures
        shell_named(name) == Some(shell) <==> match shell {
            Shell::Bash => name == "bash"@,
            Shell::Zsh => name == "zsh"@,
            Shell::Fish => name == "fish"@,
            Shell::PowerShell => name == "powershell"@ || name == "pwsh"@,
            Shell::Cmd => name == "cmd"@,
        },
{
    reveal_strlit("bash");
    reveal_strlit("zsh");
    reveal_strlit("fish");
    reveal_strlit("powershell");
    reveal_strlit("pwsh");
    reveal_strlit("cmd");
    assert("bash"@[0] == 'b' && "zsh"@[0] == 'z' && "fish"@[0] == 'f' && "cmd"@[0] == 'c');
    assert("powershell"@[0] == 'p' && "pwsh"@[0] == 'p');
}

/// A directory that is given is the one that is used.
pub proof fn law_given_directory_is_used(dir: &str)
    ensures
        dir_text(Some(dir)) == Some(dir@),
        dir_text(None) is None,
{
}

/// The commands for the registry speak of the AutoRun value of the command
/// processor, and the one that sets it carries the value whole.
pub proof fn law_registry_commands_name_the_value(value: Seq<char>)
    ensures
        ({
            let set = reg_add(value);
            let drop = reg_delete();
            &&& set.len() == 9 && set[0] == "add"@ && set[6] == "/d"@ && set[7] == value
            &&& set[2] == "/v"@ && set[3] == "AutoRun"@ && set[4] == "/t"@ && set[5] == "REG_SZ"@
            &&& drop.len() == 5 && drop[0] == "delete"@
            &&& drop[2] == "/v"@ && drop[3] == "AutoRun"@
            &&& set[1] == "HKCU\\Software\\Microsoft\\Command Processor"@ && drop[1] == set[1]
            &&& set.last() == "/f"@ && drop.last() == "/f"@
        }),
{
}

/// What an earlier install left does not matter: installing into a profile is the
/// same as installing into the profile without its blocks.
pub proof fn law_install_ignores_earlier_blocks(shell: Shell, bin: Seq<char>, text: Seq<char>)
    ensures
        installed(shell, bin, text) == installed(shell, bin, stripped(text)),
        has_prefix(installed(shell, bin, text), stripped(text)),
{
    law_strip_is_idempotent(text);
    law_install_keeps_the_profile(shell, bin, stripped(text));
}

} // verus!

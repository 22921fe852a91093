use vstd::prelude::*;

use crate::cli::shell_kind_spec;
use crate::text::{chars_contain, chars_of, contains_seq};

verus! {

/// A shell that `hy` can integrate with.
#[derive(Debug, Clone, Copy, PartialEq, Eq)]
pub enum ShellKind {
    Bash,
    Zsh,
}

/// Arguments of `hy init`.
#[derive(Debug, Clone, PartialEq, Eq)]
pub struct InitArgs {
    pub shell: ShellKind,
}

/// Arguments of `hy install`.
#[derive(Debug, Clone, PartialEq, Eq)]
pub struct InstallArgs {
    pub shell: ShellKind,
}


/// The shell hook for bash.
pub open spec fn bash_hook() -> Seq<char> {
    "# hy shell integration (bash)
__hy_record() {
  local entry
  entry=$(HISTTIMEFORMAT= builtin history 1) || return
  [[ $entry =~ ^[[:space:]]*([0-9]+)[[:space:]]+(.*)$ ]] || return
  \"${HY_BIN:-hy}\" record --cwd \"$PWD\" --command \"${BASH_REMATCH[2]}\" --history-id \"${BASH_REMATCH[1]}\" --shell bash
}
PROMPT_COMMAND=\"__hy_record${PROMPT_COMMAND:+; $PROMPT_COMMAND}\"
"@
}

/// The shell hook for zsh.
pub open spec fn zsh_hook() -> Seq<char> {
    "# hy shell integration (zsh)
__hy_record() {
  local entry
  entry=$(fc -l -1 2>/dev/null) || return
  [[ $entry =~ '^[[:space:]]*([0-9]+)[[:space:]]+(.*)$' ]] || return
  \"${HY_BIN:-hy}\" record --cwd \"$PWD\" --command \"${match[2]}\" --history-id \"${match[1]}\" --shell zsh
}
autoload -Uz add-zsh-hook
add-zsh-hook precmd __hy_record
"@
}

/// The hook that `hy init` prints for a shell: it calls `hy record` after
/// every command with the working directory, the command and its history
/// number.
pub fn init_snippet(shell: ShellKind) -> (text: &'static str)
    ensures
        text@ == match shell {
            ShellKind::Bash => bash_hook(),
            ShellKind::Zsh => zsh_hook(),
        },
{
    match shell {
        ShellKind::Bash => "# hy shell integration (bash)
__hy_record() {
  local entry
  entry=$(HISTTIMEFORMAT= builtin history 1) || return
  [[ $entry =~ ^[[:space:]]*([0-9]+)[[:space:]]+(.*)$ ]] || return
  \"${HY_BIN:-hy}\" record --cwd \"$PWD\" --command \"${BASH_REMATCH[2]}\" --history-id \"${BASH_REMATCH[1]}\" --shell bash
}
PROMPT_COMMAND=\"__hy_record${PROMPT_COMMAND:+; $PROMPT_COMMAND}\"
",
        ShellKind::Zsh => "# hy shell integration (zsh)
__hy_record() {
  local entry
  entry=$(fc -l -1 2>/dev/null) || return
  [[ $entry =~ '^[[:space:]]*([0-9]+)[[:space:]]+(.*)$' ]] || return
  \"${HY_BIN:-hy}\" record --cwd \"$PWD\" --command \"${match[2]}\" --history-id \"${match[1]}\" --shell zsh
}
autoload -Uz add-zsh-hook
add-zsh-hook precmd __hy_record
",
    }
}

/// The start-up file in the home directory that `hy install` edits.
pub fn rc_file_name(shell: ShellKind) -> (name: &'static str)
    ensures
        name@ == match shell {
            ShellKind::Bash => ".bashrc"@,
            ShellKind::Zsh => ".zshrc"@,
        },
{
    match shell {
        ShellKind::Bash => ".bashrc",
        ShellKind::Zsh => ".zshrc",
    }
}

/// The marker line of an installed hook.
pub open spec fn install_marker() -> Seq<char> {
    "# hy shell integration"@
}

/// The lines that `hy install` appends to the start-up file.
pub open spec fn install_block(shell: ShellKind) -> Seq<char> {
    match shell {
        ShellKind::Bash => "\n# hy shell integration\neval \"$(hy init bash)\"\n"@,
        ShellKind::Zsh => "\n# hy shell integration\neval \"$(hy init zsh)\"\n"@,
    }
}

/// The lines that `hy install` appends to the start-up file for `shell`.
pub fn install_lines(shell: ShellKind) -> (text: &'static str)
    ensures
        text@ == install_block(shell),
{
    match shell {
        ShellKind::Bash => "\n# hy shell integration\neval \"$(hy init bash)\"\n",
        ShellKind::Zsh => "\n# hy shell integration\neval \"$(hy init zsh)\"\n",
    }
}

/// Whether a start-up file still needs the hook: it does not hold the marker.
pub fn needs_install(rc_content: &str) -> (b: bool)
    ensures
        b == !contains_seq(rc_content@, install_marker()),
{
    let hay = chars_of(rc_content);
    let needle = chars_of("# hy shell integration");
    !chars_contain(&hay, &needle)
}


/// The name of a shell on the command line.
pub open spec fn shell_word(shell: ShellKind) -> Seq<char> {
    match shell {
        ShellKind::Bash => "bash"@,
        ShellKind::Zsh => "zsh"@,
    }
}

/// The other shell.
pub open spec fn other_shell(shell: ShellKind) -> ShellKind {
    match shell {
        ShellKind::Bash => ShellKind::Zsh,
        ShellKind::Zsh => ShellKind::Bash,
    }
}

/// The installed block loads the hook of the shell it is installed for: it
/// holds the marker and `hy init ` followed by that shell's own name, which
/// the command line reads back as that shell, and it never names the other
/// shell.
pub proof fn lemma_install_block_loads_its_own_hook(shell: ShellKind)
    ensures
        contains_seq(install_block(shell), "hy init "@ + shell_word(shell)),
        contains_seq(install_block(shell), install_marker()),
        shell_kind_spec(shell_word(shell)) == Ok::<ShellKind, Seq<char>>(shell),
        !contains_seq(install_block(shell), shell_word(other_shell(shell))),
{
    reveal_strlit("\n# hy shell integration\neval \"$(hy init bash)\"\n");
    reveal_strlit("\n# hy shell integration\neval \"$(hy init zsh)\"\n");
    reveal_strlit("hy init ");
    reveal_strlit("bash");
    reveal_strlit("zsh");
    reveal_strlit("# hy shell integration");
    let b = install_block(shell);
    let w = "hy init "@ + shell_word(shell);
    assert(b.subrange(32, 32 + w.len() as int) =~= w);
    assert(b.subrange(1, 1 + install_marker().len() as int) =~= install_marker());
    let o = shell_word(other_shell(shell));
    let first = o[0];
    assert forall|k: int| 0 <= k < b.len() implies b[k] != first by {}
    if contains_seq(b, o) {
        let i = choose|i: int| 0 <= i <= b.len() - o.len() && #[trigger] b.subrange(i, i + o.len()) == o;
        assert(b.subrange(i, i + o.len())[0] == b[i]);
    }
}

} // verus!

//! Hand-authored shell completion scripts.

use vstd::prelude::*;
use vstd::string::StringSliceAdditionalSpecFns;

use crate::bytes::bytes_eq;

verus! {

/// Completion script for bash.
pub const BASH: &'static str = "# bash completion for lup
_lup() {
    local cur prev
    cur=\"${COMP_WORDS[COMP_CWORD]}\"
    prev=\"${COMP_WORDS[COMP_CWORD-1]}\"
    if [[ \"$prev\" == \"--completions\" ]]; then
        COMPREPLY=( $(compgen -W \"bash zsh fish\" -- \"$cur\") )
        return 0
    fi
    if [[ \"$cur\" == -* ]]; then
        COMPREPLY=( $(compgen -W \"-a --all -e --echo -g --git -r --root -f --files -d --dirs -L --follow -P --no-follow --relative -0 --null --completions -h --help -V --version\" -- \"$cur\") )
        return 0
    fi
    COMPREPLY=( $(compgen -f -- \"$cur\") )
}
complete -F _lup lup
";

/// Completion script for zsh.
pub const ZSH: &'static str = "#compdef lup

_lup() {
    _arguments -s \\
        '(-a --all)'{-a,--all}'[print every hit, closest-first]' \\
        '(-e --echo)'{-e,--echo}'[print file contents instead of paths]' \\
        '(-g --git -r --root)'{-g,--git}'[stop at the git root]' \\
        '(-g --git -r --root)'{-r,--root}'[walk to the filesystem root]' \\
        '(-f --files -d --dirs)'{-f,--files}'[only match regular files]' \\
        '(-f --files -d --dirs)'{-d,--dirs}'[only match directories]' \\
        '(-L --follow -P --no-follow)'{-L,--follow}'[follow symlinks]' \\
        '(-L --follow -P --no-follow)'{-P,--no-follow}'[do not follow symlinks]' \\
        '--relative[print paths relative to PWD]' \\
        '(-0 --null)'{-0,--null}'[terminate records with NUL]' \\
        '--completions[print a completion script]:shell:(bash zsh fish)' \\
        '(- *)'{-h,--help}'[print help]' \\
        '(- *)'{-V,--version}'[print version]' \\
        '1:query:_files'
}

_lup \"$@\"
";

/// Completion script for fish.
pub const FISH: &'static str = "# fish completion for lup
complete -c lup -s a -l all -d 'Print every hit, closest-first'
complete -c lup -s e -l echo -d 'Print file contents instead of paths'
complete -c lup -s g -l git -d 'Stop at git root'
complete -c lup -s r -l root -d 'Walk to filesystem root'
complete -c lup -s f -l files -d 'Only match regular files'
complete -c lup -s d -l dirs -d 'Only match directories'
complete -c lup -s L -l follow -d 'Follow symlinks'
complete -c lup -s P -l no-follow -d 'Do not follow symlinks'
complete -c lup -l relative -d 'Print paths relative to PWD'
complete -c lup -s 0 -l null -d 'Terminate records with NUL'
complete -c lup -l completions -x -a 'bash zsh fish' -d 'Print completion script'
complete -c lup -s h -l help -d 'Print help'
complete -c lup -s V -l version -d 'Print version'
";

/// The script that `completion_text` returns for `shell`.
pub open spec fn completion_spec(shell: Seq<u8>) -> Option<&'static str> {
    if shell == "bash".spec_bytes() {
        Some(BASH)
    } else if shell == "zsh".spec_bytes() {
        Some(ZSH)
    } else if shell == "fish".spec_bytes() {
        Some(FISH)
    } else {
        None
    }
}

/// The completion script for `shell` (`bash`, `zsh` or `fish`); `None` for
/// any other shell.
pub fn completion_text(shell: &[u8]) -> (r: Option<&'static str>)
    ensures
        r == completion_spec(shell@),
{
    if bytes_eq(shell, "bash".as_bytes()) {
        Some(BASH)
    } else if bytes_eq(shell, "zsh".as_bytes()) {
        Some(ZSH)
    } else if bytes_eq(shell, "fish".as_bytes()) {
        Some(FISH)
    } else {
        None
    }
}

} // verus!

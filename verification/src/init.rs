//! Options of the shell configuration.

use vstd::prelude::*;

use crate::cmd::{Init, InitHook, InitShell};

verus! {

/// A control key, by its letter in lower case.
#[derive(Clone, Copy, Debug, PartialEq, Eq, Structural)]
pub struct FzfInsertBinding {
    pub letter: char,
}

/// Why a key cannot be bound.
#[derive(Debug)]
pub enum BindingError {
    /// The key specification is not a caret and an ASCII letter.
    InvalidKey { keyspec: String },
    /// The key is reserved in Bash.
    ReservedKey,
    /// The shell has no such binding.
    UnsupportedShell { shell: InitShell },
}

/// What an error says.
pub enum BindingErrorView {
    InvalidKey { keyspec: Seq<char> },
    ReservedKey,
    UnsupportedShell { shell: InitShell },
}

impl View for BindingError {
    type V = BindingErrorView;

    open spec fn view(&self) -> BindingErrorView {
        match self {
            BindingError::InvalidKey { keyspec } => BindingErrorView::InvalidKey {
                keyspec: keyspec@,
            },
            BindingError::ReservedKey => BindingErrorView::ReservedKey,
            BindingError::UnsupportedShell { shell } => BindingErrorView::UnsupportedShell {
                shell: *shell,
            },
        }
    }
}

/// The name of a shell.
pub open spec fn shell_text(shell: InitShell) -> Seq<char> {
    match shell {
        InitShell::Bash => "bash"@,
        InitShell::Elvish => "elvish"@,
        InitShell::Fish => "fish"@,
        InitShell::Nushell => "nushell"@,
        InitShell::Posix => "posix"@,
        InitShell::Powershell => "powershell"@,
        InitShell::Tcsh => "tcsh"@,
        InitShell::Xonsh => "xonsh"@,
        InitShell::Zsh => "zsh"@,
    }
}

/// The name of a shell.
fn shell_name(shell: InitShell) -> (name: &'static str)
    ensures
        name@ == shell_text(shell),
{
    match shell {
        InitShell::Bash => "bash",
        InitShell::Elvish => "elvish",
        InitShell::Fish => "fish",
        InitShell::Nushell => "nushell",
        InitShell::Posix => "posix",
        InitShell::Powershell => "powershell",
        InitShell::Tcsh => "tcsh",
        InitShell::Xonsh => "xonsh",
        InitShell::Zsh => "zsh",
    }
}

impl BindingErrorView {
    /// What the message says.
    pub open spec fn text(self) -> Seq<char> {
        match self {
            BindingErrorView::InvalidKey { keyspec } => "invalid key specification '"@ + keyspec
                + "': expected '^' and an ASCII letter"@,
            BindingErrorView::ReservedKey => "key specification '^z' is not supported for bash"@,
            BindingErrorView::UnsupportedShell { shell } =>
                "--bind-fzf-insert is not supported for "@ + shell_text(shell),
        }
    }
}

impl BindingError {
    /// A message for the user.
    pub fn message(&self) -> (message: String)
        ensures
            message@ == self@.text(),
    {
        match self {
            BindingError::InvalidKey { keyspec } => {
                let mut message = "invalid key specification '".to_owned();
                message.append(keyspec.as_str());
                message.append("': expected '^' and an ASCII letter");
                message
            },
            BindingError::ReservedKey => {
                "key specification '^z' is not supported for bash".to_owned()
            },
            BindingError::UnsupportedShell { shell } => {
                let mut message = "--bind-fzf-insert is not supported for ".to_owned();
                message.append(shell_name(*shell));
                message
            },
        }
    }
}

/// Whether a character is an ASCII letter.
pub open spec fn is_letter(c: char) -> bool {
    'a' <= c <= 'z' || 'A' <= c <= 'Z'
}

/// An ASCII letter in lower case.
pub open spec fn lower(c: char) -> char {
    if 'A' <= c <= 'Z' {
        (c as u32 + 32) as char
    } else {
        c
    }
}

/// The letter of a key specification: a caret and an ASCII letter.
pub open spec fn control_letter(keyspec: Seq<char>) -> Option<char> {
    if keyspec.len() == 2 && keyspec[0] == '^' && is_letter(keyspec[1]) {
        Some(lower(keyspec[1]))
    } else {
        None
    }
}

/// Whether a shell can bind a key.
pub open spec fn can_bind(shell: InitShell) -> bool {
    shell == InitShell::Bash || shell == InitShell::Fish || shell == InitShell::Nushell || shell
        == InitShell::Zsh
}

/// The binding that a shell gets for a key specification.
pub open spec fn binding(shell: InitShell, keyspec: Option<Seq<char>>) -> Result<
    Option<FzfInsertBinding>,
    BindingErrorView,
> {
    match keyspec {
        None => Ok(None),
        Some(keyspec) => if !can_bind(shell) {
            Err(BindingErrorView::UnsupportedShell { shell })
        } else if shell == InitShell::Bash && control_letter(keyspec) == Some('z') {
            Err(BindingErrorView::ReservedKey)
        } else {
            match control_letter(keyspec) {
                Some(letter) => Ok(Some(FzfInsertBinding { letter })),
                None => Err(BindingErrorView::InvalidKey { keyspec }),
            }
        },
    }
}

fn lower_case(c: char) -> (letter: char)
    requires
        is_letter(c),
    ensures
        letter == lower(c),
{
    if 'A' <= c && c <= 'Z' {
        (c as u8 + 32u8) as char
    } else {
        c
    }
}

impl FzfInsertBinding {
    /// The binding of a key specification in caret notation, such as `^g`. The
    /// case of the letter does not matter.
    pub fn parse(keyspec: &str) -> (parsed: Result<FzfInsertBinding, BindingError>)
        ensures
            match parsed {
                Ok(binding) => control_letter(keyspec@) == Some(binding.letter),
                Err(error) => control_letter(keyspec@) is None && error@
                    == (BindingErrorView::InvalidKey { keyspec: keyspec@ }),
            },
    {
        if keyspec.unicode_len() == 2 && keyspec.get_char(0) == '^' {
            let c = keyspec.get_char(1);
            if ('a' <= c && c <= 'z') || ('A' <= c && c <= 'Z') {
                return Ok(FzfInsertBinding { letter: lower_case(c) });
            }
        }
        Err(BindingError::InvalidKey { keyspec: keyspec.to_owned() })
    }
}

/// The binding that a shell gets for a key specification. Bash, Fish, Nushell
/// and Zsh can bind any control key, but for `^z` in Bash.
pub fn fzf_insert_binding(shell: &InitShell, keyspec: Option<&str>) -> (bound: Result<
    Option<FzfInsertBinding>,
    BindingError,
>)
    ensures
        match bound {
            Ok(bound) => binding(
                *shell,
                match keyspec {
                    Some(keyspec) => Some(keyspec@),
                    None => None,
                },
            ) == Ok::<Option<FzfInsertBinding>, BindingErrorView>(bound),
            Err(error) => binding(
                *shell,
                match keyspec {
                    Some(keyspec) => Some(keyspec@),
                    None => None,
                },
            ) == Err::<Option<FzfInsertBinding>, BindingErrorView>(error@),
        },
{
    match keyspec {
        None => Ok(None),
        Some(keyspec) => match shell {
            InitShell::Bash | InitShell::Fish | InitShell::Nushell | InitShell::Zsh => {
                match FzfInsertBinding::parse(keyspec) {
                    Ok(binding) => if *shell == InitShell::Bash && binding.letter == 'z' {
                        Err(BindingError::ReservedKey)
                    } else {
                        Ok(Some(binding))
                    },
                    Err(error) => Err(error),
                }
            },
            _ => Err(BindingError::UnsupportedShell { shell: *shell }),
        },
    }
}

/// The options that a shell's configuration is made from.
#[derive(Debug)]
pub struct Opts {
    pub cmd: Option<String>,
    pub hook: InitHook,
    pub echo: bool,
    pub resolve_symlinks: bool,
    pub bind_fzf_insert: Option<FzfInsertBinding>,
}

impl Init {
    /// The options that the shell's configuration is made from, given two
    /// settings of the environment.
    pub fn opts(&self, echo: bool, resolve_symlinks: bool) -> (opts: Result<Opts, BindingError>)
        ensures
            ({
                let keyspec = match self.bind_fzf_insert {
                    Some(keyspec) => Some(keyspec@),
                    None => None,
                };
                match opts {
                    Ok(opts) => {
                        &&& binding(self.shell, keyspec) == Ok::<
                            Option<FzfInsertBinding>,
                            BindingErrorView,
                        >(opts.bind_fzf_insert)
                        &&& self.no_cmd ==> opts.cmd is None
                        &&& !self.no_cmd ==> opts.cmd is Some && opts.cmd->0@ == self.cmd@
                        &&& opts.hook == self.hook
                        &&& opts.echo == echo
                        &&& opts.resolve_symlinks == resolve_symlinks
                    },
                    Err(error) => binding(self.shell, keyspec) == Err::<
                        Option<FzfInsertBinding>,
                        BindingErrorView,
                    >(error@),
                }
            }),
    {
        let keyspec: Option<&str> = match &self.bind_fzf_insert {
            Some(keyspec) => Some(keyspec.as_str()),
            None => None,
        };
        match fzf_insert_binding(&self.shell, keyspec) {
            Ok(bind_fzf_insert) => {
                let cmd = if self.no_cmd {
                    None
                } else {
                    Some(self.cmd.as_str().to_owned())
                };
                Ok(Opts { cmd, hook: self.hook, echo, resolve_symlinks, bind_fzf_insert })
            },
            Err(error) => Err(error),
        }
    }
}

/// The case of the letter in a key specification does not matter.
pub proof fn key_letters_are_case_insensitive(shell: InitShell, c: char)
    requires
        is_letter(c),
    ensures
        binding(shell, Some(seq!['^', c])) == binding(shell, Some(seq!['^', lower(c)])),
{
    assert(is_letter(lower(c)));
    assert(lower(lower(c)) == lower(c));
}

/// Bash, Fish, Nushell and Zsh bind every ASCII letter behind a caret, in lower
/// case, but that Bash refuses `^z`, and nothing else that is such a key.
pub proof fn every_letter_but_one_can_be_bound(shell: InitShell, c: char)
    requires
        shell is Bash || shell is Fish || shell is Nushell || shell is Zsh,
        'a' <= c <= 'z' || 'A' <= c <= 'Z',
    ensures
        match binding(shell, Some(seq!['^', c])) {
            Ok(bound) => {
                &&& !(shell is Bash && (c == 'z' || c == 'Z'))
                &&& bound is Some
                &&& 'a' <= c <= 'z' ==> bound->0.letter == c
                &&& 'A' <= c <= 'Z' ==> bound->0.letter as u32 == c as u32 + 32
            },
            Err(error) => shell is Bash && (c == 'z' || c == 'Z') && error is ReservedKey,
        },
{
    assert(seq!['^', c].len() == 2);
    assert(seq!['^', c][1] == c);
    if 'A' <= c <= 'Z' {
        assert(lower(c) as u32 == c as u32 + 32);
    }
}

/// A key specification that is not a caret and one ASCII letter is refused as
/// such in every shell that can bind keys, and only there.
pub proof fn other_keys_are_invalid(shell: InitShell, keyspec: Seq<char>)
    requires
        shell is Bash || shell is Fish || shell is Nushell || shell is Zsh,
    ensures
        binding(shell, Some(keyspec)) == Err::<Option<FzfInsertBinding>, BindingErrorView>(
            BindingErrorView::InvalidKey { keyspec },
        ) <==> !(keyspec.len() == 2 && keyspec[0] == '^' && ('a' <= keyspec[1] <= 'z' || 'A'
            <= keyspec[1] <= 'Z')),
{
}

/// Where no key is asked for, none is bound, and that is no error. Shells other
/// than the four that bind keys refuse every key, for that they cannot bind it.
pub proof fn other_shells_bind_nothing(shell: InitShell, keyspec: Seq<char>)
    ensures
        binding(shell, None) == Ok::<Option<FzfInsertBinding>, BindingErrorView>(None),
        binding(shell, Some(keyspec)) == Err::<Option<FzfInsertBinding>, BindingErrorView>(
            BindingErrorView::UnsupportedShell { shell },
        ) <==> (shell is Elvish || shell is Posix || shell is Powershell || shell is Tcsh
            || shell is Xonsh),
{
}

/// What is bound does not depend on the shell, but that Bash reserves one key.
pub proof fn shells_bind_alike(a: InitShell, b: InitShell, keyspec: Option<Seq<char>>)
    requires
        binding(a, keyspec) is Ok,
        binding(b, keyspec) is Ok,
    ensures
        binding(a, keyspec) == binding(b, keyspec),
{
}

/// A key specification has at most one letter, and none but an ASCII letter in
/// lower case.
pub proof fn control_letters_are_lower_case(keyspec: Seq<char>)
    ensures
        match control_letter(keyspec) {
            Some(letter) => {
                &&& 'a' <= letter <= 'z'
                &&& keyspec == seq!['^', letter] || (keyspec.len() == 2 && keyspec[0] == '^'
                    && keyspec[1] as u32 + 32 == letter as u32)
            },
            None => keyspec.len() != 2 || keyspec[0] != '^' || !('a' <= keyspec[1] <= 'z' || 'A'
                <= keyspec[1] <= 'Z'),
        },
{
    if keyspec.len() == 2 {
        let c = keyspec[1];
        assert(keyspec =~= seq![keyspec[0], c]);
        if 'A' <= c <= 'Z' {
            assert(lower(c) as u32 == c as u32 + 32);
        }
    }
}

/// Different errors are told apart by their messages, and a message names the
/// key or the shell that it is about.
pub proof fn messages_name_the_culprit(keyspec: Seq<char>, shell: InitShell)
    ensures
        (BindingErrorView::InvalidKey { keyspec }).text().take(27)
            == "invalid key specification '"@,
        (BindingErrorView::InvalidKey { keyspec }).text().subrange(
            27,
            27 + keyspec.len() as int,
        ) == keyspec,
        (BindingErrorView::InvalidKey { keyspec }).text().skip(27 + keyspec.len() as int)
            == "': expected '^' and an ASCII letter"@,
        (BindingErrorView::UnsupportedShell { shell }).text().take(39)
            == "--bind-fzf-insert is not supported for "@,
        (BindingErrorView::UnsupportedShell { shell }).text().skip(39) == shell_text(shell),
        BindingErrorView::ReservedKey.text() == "key specification '^z' is not supported for bash"@,
{
    reveal_strlit("invalid key specification '");
    reveal_strlit("': expected '^' and an ASCII letter");
    reveal_strlit("--bind-fzf-insert is not supported for ");
    let invalid = (BindingErrorView::InvalidKey { keyspec }).text();
    let unsupported = (BindingErrorView::UnsupportedShell { shell }).text();
    assert(invalid.take(27) =~= "invalid key specification '"@);
    assert(invalid.subrange(27, 27 + keyspec.len() as int) =~= keyspec);
    assert(invalid.skip(27 + keyspec.len() as int) =~= "': expected '^' and an ASCII letter"@);
    assert(unsupported.take(39) =~= "--bind-fzf-insert is not supported for "@);
    assert(unsupported.skip(39) =~= shell_text(shell));
}

/// Every shell has its own name, in lower case, and no two have the same.
pub proof fn shell_names_differ(a: InitShell, b: InitShell)
    requires
        a != b,
    ensures
        shell_text(a) != shell_text(b),
        forall|i: int| 0 <= i < shell_text(a).len() ==> 'a' <= #[trigger] shell_text(a)[i] <= 'z',
        a is Bash ==> shell_text(a) == seq!['b', 'a', 's', 'h'],
        a is Elvish ==> shell_text(a) == seq!['e', 'l', 'v', 'i', 's', 'h'],
        a is Fish ==> shell_text(a) == seq!['f', 'i', 's', 'h'],
        a is Nushell ==> shell_text(a) == seq!['n', 'u', 's', 'h', 'e', 'l', 'l'],
        a is Posix ==> shell_text(a) == seq!['p', 'o', 's', 'i', 'x'],
        a is Powershell ==> shell_text(a) == seq![
            'p', 'o', 'w', 'e', 'r', 's', 'h', 'e', 'l', 'l',
        ],
        a is Tcsh ==> shell_text(a) == seq!['t', 'c', 's', 'h'],
        a is Xonsh ==> shell_text(a) == seq!['x', 'o', 'n', 's', 'h'],
        a is Zsh ==> shell_text(a) == seq!['z', 's', 'h'],
{
    reveal_strlit("bash");
    reveal_strlit("elvish");
    reveal_strlit("fish");
    reveal_strlit("nushell");
    reveal_strlit("posix");
    reveal_strlit("powershell");
    reveal_strlit("tcsh");
    reveal_strlit("xonsh");
    reveal_strlit("zsh");
    assert(shell_text(a).len() != shell_text(b).len() || shell_text(a)[0] != shell_text(b)[0]);
}

} // verus!

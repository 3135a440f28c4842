use zoxide::cmd::{Dedupe, Init, InitHook, InitShell};
use zoxide::globs::pathglobs_or_star;
use zoxide::init::{fzf_insert_binding, FzfInsertBinding};

/// The command that a command line stands for.
fn parse(args: &[&str]) -> Dedupe {
    let pathglobs = args[1..].iter().map(|glob| glob.to_string()).collect();
    Dedupe { pathglobs: pathglobs_or_star(pathglobs), assume_insensitive: false, dry_run: false }
}

#[test]
fn dedupe_pathglobs_default_to_star() {
    let cmd = parse(&["dedupe"]);

    assert_eq!(cmd.pathglobs, ["*"]);
}

#[test]
fn dedupe_supplied_pathglobs_replace_default() {
    let cmd = parse(&["dedupe", "/foo/*", "/bar/*"]);

    assert_eq!(cmd.pathglobs, ["/foo/*", "/bar/*"]);
}

#[test]
fn rejects_fzf_insert_binding_for_unsupported_shells() {
    for (shell, name) in [
        (InitShell::Elvish, "elvish"),
        (InitShell::Posix, "posix"),
        (InitShell::Powershell, "powershell"),
        (InitShell::Tcsh, "tcsh"),
        (InitShell::Xonsh, "xonsh"),
    ] {
        let error = fzf_insert_binding(&shell, Some("^g")).unwrap_err();
        assert_eq!(error.message(), format!("--bind-fzf-insert is not supported for {name}"));
    }
}

#[test]
fn rejects_ctrl_z_for_bash() {
    let error = fzf_insert_binding(&InitShell::Bash, Some("^Z")).unwrap_err();
    assert_eq!(error.message(), "key specification '^z' is not supported for bash");
}

#[test]
fn binds_control_letters() {
    for shell in [InitShell::Bash, InitShell::Fish, InitShell::Nushell, InitShell::Zsh] {
        for keyspec in ["^g", "^G"] {
            let bound = fzf_insert_binding(&shell, Some(keyspec)).unwrap();
            assert_eq!(bound, Some(FzfInsertBinding { letter: 'g' }));
        }
    }
    let bound = fzf_insert_binding(&InitShell::Zsh, Some("^Z")).unwrap();
    assert_eq!(bound, Some(FzfInsertBinding { letter: 'z' }));
}

#[test]
fn no_key_is_no_binding_in_any_shell() {
    for shell in [InitShell::Bash, InitShell::Elvish, InitShell::Xonsh] {
        assert_eq!(fzf_insert_binding(&shell, None).unwrap(), None);
    }
}

#[test]
fn rejects_other_key_specifications() {
    for keyspec in ["", "^", "g", "^gg", "^1", "^\u{e9}", "C-g", "^["] {
        let error = fzf_insert_binding(&InitShell::Zsh, Some(keyspec)).unwrap_err();
        assert_eq!(
            error.message(),
            format!("invalid key specification '{keyspec}': expected '^' and an ASCII letter")
        );
    }
}

#[test]
fn init_options_carry_over() {
    let mut init = Init {
        shell: InitShell::Bash,
        bind_fzf_insert: Some("^t".to_owned()),
        no_cmd: false,
        cmd: "j".to_owned(),
        hook: InitHook::Prompt,
    };
    let opts = init.opts(true, false).unwrap();
    assert_eq!(opts.cmd.as_deref(), Some("j"));
    assert_eq!(opts.hook, InitHook::Prompt);
    assert!(opts.echo && !opts.resolve_symlinks);
    assert_eq!(opts.bind_fzf_insert, Some(FzfInsertBinding { letter: 't' }));

    init.no_cmd = true;
    init.bind_fzf_insert = None;
    let opts = init.opts(false, true).unwrap();
    assert_eq!(opts.cmd, None);
    assert_eq!(opts.bind_fzf_insert, None);
    assert!(!opts.echo && opts.resolve_symlinks);

    init.bind_fzf_insert = Some("^z".to_owned());
    assert!(init.opts(false, false).is_err());
}

use rs_prompt::cli::{
    default_user, init_exe_path, parse_command, parse_prompt_args, parse_prompt_escape,
    parse_shell, parse_status, system_hostname, write_init_script, write_single_quoted, Command,
    ParseError, PromptArgs,
};
use rs_prompt::prompt::Shell;
use rs_prompt::prompt_escape::PromptEscape;

#[test]
fn parses_status() {
    assert_eq!(0, parse_status("0"));
    assert_eq!(2, parse_status("2"));
    assert_eq!(255, parse_status("999"));
    assert_eq!(0, parse_status("nope"));
}

#[test]
fn status_edge_cases() {
    assert_eq!(0, parse_status(""));
    assert_eq!(0, parse_status("+"));
    assert_eq!(7, parse_status("+7"));
    assert_eq!(0, parse_status("-1"));
    assert_eq!(255, parse_status("65535"));
    assert_eq!(0, parse_status("65536"));
    assert_eq!(0, parse_status("99999999999999999999"));
    assert_eq!(42, parse_status("0042"));
    assert_eq!(0, parse_status(" 1"));
    assert_eq!(255, parse_status("256"));
    assert_eq!(255, parse_status("255"));
}

#[test]
fn parses_prompt_options() {
    let args = vec![
        "--status=2".to_string(),
        "--cwd".to_string(),
        "/tmp/project".to_string(),
        "--host=build42.lab".to_string(),
    ];

    assert_eq!(
        PromptArgs {
            status: 2,
            cwd: Some("/tmp/project".to_string()),
            host: Some("build42.lab".to_string()),
            user: None,
            shell: Shell::Zsh,
            prompt_escape: PromptEscape::Raw,
        },
        parse_prompt_args(&args).unwrap()
    );
}

#[test]
fn parses_prompt_user_and_shell_options() {
    let args = vec![
        "--user".to_string(),
        "root".to_string(),
        "--shell=bash".to_string(),
        "--prompt-escape".to_string(),
        "bash".to_string(),
    ];

    assert_eq!(
        PromptArgs {
            status: 0,
            cwd: None,
            host: None,
            user: Some("root".to_string()),
            shell: Shell::Bash,
            prompt_escape: PromptEscape::Bash,
        },
        parse_prompt_args(&args).unwrap()
    );
}

#[test]
fn parses_fish_shell() {
    let args = vec![
        "--shell=fish".to_string(),
        "--prompt-escape=fish".to_string(),
    ];
    let parsed = parse_prompt_args(&args).unwrap();
    assert_eq!(Shell::Fish, parsed.shell);
    assert_eq!(PromptEscape::Fish, parsed.prompt_escape);
}

#[test]
fn parses_prompt_escape_option() {
    let args = vec!["--prompt-escape=zsh".to_string()];
    assert_eq!(
        PromptEscape::Zsh,
        parse_prompt_args(&args).unwrap().prompt_escape
    );
}

#[test]
fn rejects_unknown_prompt_escape() {
    let args = vec!["--prompt-escape=tcsh".to_string()];
    assert_eq!(Err(ParseError::Usage), parse_prompt_args(&args));
}

#[test]
fn reports_missing_values() {
    let args = vec!["--cwd".to_string()];
    assert_eq!(Err(ParseError::MissingValue("--cwd")), parse_prompt_args(&args));
    let args = vec!["--host".to_string()];
    assert_eq!(Err(ParseError::MissingValue("--host")), parse_prompt_args(&args));
    let args = vec!["--status=1".to_string(), "--user".to_string()];
    assert_eq!(Err(ParseError::MissingValue("--user")), parse_prompt_args(&args));
}

#[test]
fn option_edge_cases() {
    // a trailing --status reads as 0
    let args = vec!["--status=3".to_string(), "--status".to_string()];
    assert_eq!(0, parse_prompt_args(&args).unwrap().status);
    // later options override earlier ones
    let args = vec!["--user=a".to_string(), "--user=b".to_string()];
    assert_eq!(Some("b".to_string()), parse_prompt_args(&args).unwrap().user);
    // a trailing --shell or --prompt-escape is rejected
    assert_eq!(Err(ParseError::Usage), parse_prompt_args(&["--shell".to_string()]));
    assert_eq!(
        Err(ParseError::Usage),
        parse_prompt_args(&["--prompt-escape".to_string()])
    );
    assert_eq!(Err(ParseError::Usage), parse_prompt_args(&["--verbose".to_string()]));
    assert_eq!(Err(ParseError::Usage), parse_prompt_args(&["--shell=tcsh".to_string()]));
    // an empty value is a value
    assert_eq!(Some("".to_string()), parse_prompt_args(&["--cwd=".to_string()]).unwrap().cwd);
    let none: Vec<String> = Vec::new();
    assert_eq!(
        PromptArgs {
            status: 0,
            cwd: None,
            host: None,
            user: None,
            shell: Shell::Zsh,
            prompt_escape: PromptEscape::Raw,
        },
        parse_prompt_args(&none).unwrap()
    );
    assert_eq!(Ok(PromptEscape::Raw), parse_prompt_escape("none"));
    assert_eq!(Ok(Shell::Zsh), parse_shell("zsh"));
    assert_eq!(Err(ParseError::Usage), parse_shell("Zsh"));
}

#[test]
fn quotes_init_binary_path() {
    let mut out = String::new();
    write_single_quoted(&mut out, "/tmp/it's/rs-prompt");
    assert_eq!("'/tmp/it'\\''s/rs-prompt'", out);
}

#[test]
fn substitutes_every_placeholder() {
    let mut out = String::new();
    write_init_script(
        &mut out,
        "/bin/rs prompt",
        "a=__RS_PROMPT_BIN__; b=__RS_PROMPT_BIN__ __RS_PROMPT_BI",
    );
    assert_eq!("a='/bin/rs prompt'; b='/bin/rs prompt' __RS_PROMPT_BI", out);

    let mut out = String::new();
    write_init_script(&mut out, "x", "no placeholder here\n");
    assert_eq!("no placeholder here\n", out);
}

#[test]
fn selects_commands() {
    let args = |v: &[&str]| v.iter().map(|s| s.to_string()).collect::<Vec<String>>();
    assert_eq!(Command::Prompt, parse_command(&args(&["rs-prompt"])));
    assert_eq!(Command::Prompt, parse_command(&args(&["rs-prompt", "prompt", "--status=1"])));
    assert_eq!(Command::Init(Shell::Zsh), parse_command(&args(&["rs-prompt", "init"])));
    assert_eq!(Command::Init(Shell::Fish), parse_command(&args(&["rs-prompt", "init", "fish"])));
    assert_eq!(Command::Usage, parse_command(&args(&["rs-prompt", "init", "tcsh"])));
    assert_eq!(Command::Usage, parse_command(&args(&["rs-prompt", "help"])));
    assert_eq!("/usr/bin/rsp", init_exe_path(&args(&["/usr/bin/rsp", "init"])));
    assert_eq!("rs-prompt", init_exe_path(&[]));
}

#[test]
fn chooses_user_and_host() {
    assert_eq!("me", default_user(Some("me"), Some("other")));
    assert_eq!("other", default_user(Some(""), Some("other")));
    assert_eq!("other", default_user(None, Some("other")));
    assert_eq!("", default_user(None, Some("")));
    assert_eq!("h", system_hostname(Some("h"), Some("file\n")));
    assert_eq!("file", system_hostname(Some(""), Some("file\r\n\n")));
    assert_eq!("unknown", system_hostname(None, Some("\n")));
    assert_eq!("unknown", system_hostname(None, None));
    assert_eq!("a\nb", system_hostname(None, Some("a\nb\n")));
}

/// How a POSIX shell reads a word of single-quoted parts and backslash escapes.
fn shell_unquote(word: &str) -> String {
    let mut out = String::new();
    let mut quoted = false;
    let mut chars = word.chars();
    while let Some(c) = chars.next() {
        if quoted {
            if c == '\'' {
                quoted = false;
            } else {
                out.push(c);
            }
        } else if c == '\'' {
            quoted = true;
        } else if c == '\\' {
            if let Some(next) = chars.next() {
                out.push(next);
            } else {
                out.push(c);
            }
        } else {
            out.push(c);
        }
    }
    out
}

#[test]
fn single_quoted_word_reads_back() {
    for value in ["", "plain", "it's", "''", "a b\\c", "'x'y'"] {
        let mut out = String::new();
        write_single_quoted(&mut out, value);
        assert_eq!(value, shell_unquote(&out));
    }
}

#[test]
fn printed_status_reads_back() {
    for status in 0..=255u8 {
        let mut out = String::new();
        rs_prompt::prompt::write_decimal(&mut out, status);
        assert_eq!(status, parse_status(&out));
    }
}

#[test]
fn option_spellings_agree() {
    let pairs: [(&str, &str); 6] = [
        ("--status", "17"),
        ("--cwd", "/srv"),
        ("--host", "h.example"),
        ("--user", "bob"),
        ("--shell", "fish"),
        ("--prompt-escape", "bash"),
    ];
    for (name, value) in pairs {
        let joined = vec![format!("{name}={value}"), "--status=3".to_string()];
        let split = vec![name.to_string(), value.to_string(), "--status=3".to_string()];
        assert_eq!(parse_prompt_args(&joined), parse_prompt_args(&split));
    }
    let joined = vec!["--shell=tcsh".to_string()];
    let split = vec!["--shell".to_string(), "tcsh".to_string()];
    assert_eq!(parse_prompt_args(&joined), parse_prompt_args(&split));
}

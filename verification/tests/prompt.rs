use rs_prompt::ansi;
use rs_prompt::prompt::{render, render_with_hidden, write_decimal, write_end_marker, Options, Shell};

#[test]
fn composes_prompt_snippets() {
    // cwd <tmp>/home/dev/foo/bar, home <tmp>/home, no working copy anywhere
    let out = render(
        Options {
            cwd: "/tmp/t/home/dev/foo/bar",
            home: "/tmp/t/home",
            hostname: "host9.example",
            user: "",
            virtual_env: Some("/venvs/env"),
            status: 2,
            shell: Shell::Zsh,
        },
        &[None, None, None, None, None, None],
    );

    assert!(out.contains(&format!(
        "{}host{}9{}",
        ansi::WHITE,
        ansi::UNDERLINE,
        ansi::UNDERLINE_OFF
    )));
    assert!(out.contains(&format!("{}(env){}", ansi::YELLOW, ansi::RESET)));
    assert!(out.contains("~/d/f/bar"));
    assert!(out.ends_with(&format!("] {}{}%{} ", ansi::BOLD, ansi::BLUE, ansi::RESET)));
}

#[test]
fn hides_empty_user() {
    let out = render(
        Options {
            cwd: "/tmp",
            home: "/home/example",
            hostname: "host9.example",
            user: "",
            virtual_env: None,
            status: 0,
            shell: Shell::Zsh,
        },
        &[None],
    );

    assert!(out.starts_with(&format!(
        "{}host{}9{}{} ",
        ansi::WHITE,
        ansi::UNDERLINE,
        ansi::UNDERLINE_OFF,
        ansi::RESET
    )));
}

#[test]
fn hides_hostname_and_user_without_leading_whitespace() {
    let out = render_with_hidden(
        Options {
            cwd: "/tmp",
            home: "/home/example",
            hostname: "host9.example",
            user: "alice",
            virtual_env: None,
            status: 0,
            shell: Shell::Zsh,
        },
        &[None],
        &["alice"],
        &["host9.example"],
    );

    assert!(out.starts_with(&format!("{}{}", ansi::WHITE, ansi::GREEN)));
    assert!(!out.starts_with(' '));
    assert!(!out.contains("alice@"));
    assert!(!out.contains("host9"));
}

#[test]
fn hides_hostname_identity_even_for_visible_user() {
    let out = render_with_hidden(
        Options {
            cwd: "/tmp",
            home: "/home/example",
            hostname: "host9.example",
            user: "alice",
            virtual_env: None,
            status: 0,
            shell: Shell::Zsh,
        },
        &[None],
        &[],
        &["host9.example"],
    );

    assert!(out.starts_with(&format!("{}{}", ansi::WHITE, ansi::GREEN)));
    assert!(!out.contains("alice@"));
    assert!(!out.contains("host9"));
}

#[test]
fn shows_other_users_and_root() {
    let user = render(
        Options {
            cwd: "/tmp",
            home: "/home/example",
            hostname: "host9.example",
            user: "alice",
            virtual_env: None,
            status: 0,
            shell: Shell::Zsh,
        },
        &[None],
    );
    assert!(user.starts_with(&format!(
        "{}{}alice{}{}@host",
        ansi::WHITE,
        ansi::LIGHT_GREEN,
        ansi::RESET,
        ansi::WHITE
    )));

    assert!(!user.contains(&format!("{}alice", ansi::LIGHT_RED)));
}

#[test]
fn colors_root_user_light_red_and_marker_dark_red() {
    let root = render(
        Options {
            cwd: "/tmp",
            home: "/root",
            hostname: "host9.example",
            user: "root",
            virtual_env: None,
            status: 0,
            shell: Shell::Bash,
        },
        &[None],
    );
    assert!(root.starts_with(&format!(
        "{}{}root{}{}@host",
        ansi::WHITE,
        ansi::LIGHT_RED,
        ansi::RESET,
        ansi::WHITE
    )));
    assert!(!root.contains(&format!("{}root", ansi::LIGHT_GREEN)));
    assert!(root.ends_with(&format!("{}{}#{} ", ansi::BOLD, ansi::RED, ansi::RESET)));
    assert!(!root.ends_with(&format!(
        "{}{}#{} ",
        ansi::BOLD,
        ansi::LIGHT_RED,
        ansi::RESET
    )));
}

#[test]
fn shell_specific_end_markers() {
    let zsh = render(
        Options {
            cwd: "/tmp",
            home: "/home/example",
            hostname: "host",
            user: "",
            virtual_env: None,
            status: 0,
            shell: Shell::Zsh,
        },
        &[None],
    );
    assert!(zsh.ends_with(&format!("{}{}%{} ", ansi::BOLD, ansi::BLUE, ansi::RESET)));

    let bash = render(
        Options {
            cwd: "/tmp",
            home: "/home/example",
            hostname: "host",
            user: "",
            virtual_env: None,
            status: 0,
            shell: Shell::Bash,
        },
        &[None],
    );
    assert!(bash.ends_with(&format!("{}${} ", ansi::GREEN, ansi::RESET)));

    let fish = render(
        Options {
            cwd: "/tmp",
            home: "/home/example",
            hostname: "host",
            user: "",
            virtual_env: None,
            status: 0,
            shell: Shell::Fish,
        },
        &[None],
    );
    assert!(fish.ends_with(&format!("{}{}>{} ", ansi::BOLD, ansi::BLUE, ansi::RESET)));
}

#[test]
fn renders_the_whole_prompt() {
    let out = render(
        Options {
            cwd: "/srv/app",
            home: "/home/me",
            hostname: "web1.example.org",
            user: "me",
            virtual_env: Some("/venvs/tools/"),
            status: 130,
            shell: Shell::Bash,
        },
        &[None, None],
    );
    let expected = format!(
        "{w}{lg}me{r}{w}@web{u}1{uo}{r} {y}(tools){r} {g}/s/app{r} [{red}130{r}] {g}${r} ",
        w = ansi::WHITE,
        lg = ansi::LIGHT_GREEN,
        r = ansi::RESET,
        u = ansi::UNDERLINE,
        uo = ansi::UNDERLINE_OFF,
        y = ansi::YELLOW,
        g = ansi::GREEN,
        red = ansi::RED
    );
    assert_eq!(expected, out);
}

#[test]
fn empty_hostname_and_empty_venv_are_left_out() {
    let out = render(
        Options {
            cwd: "/",
            home: "/home/me",
            hostname: "",
            user: "me",
            virtual_env: Some("/"),
            status: 0,
            shell: Shell::Fish,
        },
        &[],
    );
    assert_eq!(
        format!(
            "{}{}/{} {}{}>{} ",
            ansi::WHITE,
            ansi::GREEN,
            ansi::RESET,
            ansi::BOLD,
            ansi::BLUE,
            ansi::RESET
        ),
        out
    );
}

#[test]
fn writes_decimals_and_markers() {
    for (n, s) in [(0u8, "0"), (7, "7"), (10, "10"), (99, "99"), (100, "100"), (255, "255")] {
        let mut out = String::new();
        write_decimal(&mut out, n);
        assert_eq!(s, out);
    }
    let mut out = String::new();
    write_end_marker(&mut out, Shell::Fish, true);
    assert_eq!(format!("{}{}#{} ", ansi::BOLD, ansi::RED, ansi::RESET), out);
}

#[test]
fn root_prompt_ends_with_hash_for_every_shell() {
    for shell in [Shell::Zsh, Shell::Bash, Shell::Fish] {
        let out = render(
            Options {
                cwd: "/root",
                home: "/root",
                hostname: "box",
                user: "root",
                virtual_env: None,
                status: 1,
                shell,
            },
            &[None],
        );
        assert!(out.ends_with(&format!("{}{}#{} ", ansi::BOLD, ansi::RED, ansi::RESET)));
        assert!(out.contains("~"));
    }
}

use rs_prompt::ansi;
use rs_prompt::prompt_escape::{apply, PromptEscape};

#[test]
fn leaves_raw_prompt_unchanged() {
    let prompt = format!(
        "{}host{} ~/src {}%{} ",
        ansi::WHITE,
        ansi::RESET,
        ansi::BOLD,
        ansi::RESET
    );

    assert_eq!(prompt, apply(&prompt, PromptEscape::Raw));
}

#[test]
fn wraps_zsh_ansi_and_escapes_visible_percent() {
    let prompt = format!(
        "{}host{} 100% {}%{} ",
        ansi::WHITE,
        ansi::RESET,
        ansi::BOLD,
        ansi::RESET
    );

    assert_eq!(
        format!(
            "%{{{}%}}host%{{{}%}} 100%% %{{{}%}}%%%{{{}%}} ",
            ansi::WHITE,
            ansi::RESET,
            ansi::BOLD,
            ansi::RESET
        ),
        apply(&prompt, PromptEscape::Zsh)
    );
}

#[test]
fn wraps_bash_ansi() {
    let prompt = format!(
        "{}host{} {}${} ",
        ansi::WHITE,
        ansi::RESET,
        ansi::GREEN,
        ansi::RESET
    );

    assert_eq!(
        format!(
            "\\[{}\\]host\\[{}\\] \\[{}\\]$\\[{}\\] ",
            ansi::WHITE,
            ansi::RESET,
            ansi::GREEN,
            ansi::RESET
        ),
        apply(&prompt, PromptEscape::Bash)
    );
}

#[test]
fn leaves_plain_text_unchanged_except_zsh_percent() {
    assert_eq!("host ~/src $ ", apply("host ~/src $ ", PromptEscape::Bash));
    assert_eq!("host 50%% %% ", apply("host 50% % ", PromptEscape::Zsh));
}

#[test]
fn keeps_incomplete_sequences_visible() {
    // ESC [ followed by something that is not an SGR sequence stays as text
    assert_eq!("\x1b[x%%", apply("\x1b[x%", PromptEscape::Zsh));
    assert_eq!("a\x1b[12", apply("a\x1b[12", PromptEscape::Bash));
    assert_eq!("\x1b", apply("\x1b", PromptEscape::Bash));
    assert_eq!("\\[\x1b[1;31m\\]x", apply("\x1b[1;31mx", PromptEscape::Bash));
    assert_eq!("%{\x1b[m%}", apply("\x1b[m", PromptEscape::Zsh));
}

#[test]
fn fish_prompt_is_not_escaped() {
    let prompt = format!("{}100%{}", ansi::RED, ansi::RESET);
    assert_eq!(prompt, apply(&prompt, PromptEscape::Fish));
}

#[test]
fn escaping_never_shortens_the_prompt() {
    for prompt in ["", "%", "\x1b[0m", "a\x1b[b", "\x1b[31mred\x1b[0m 100%"] {
        for escape in [PromptEscape::Raw, PromptEscape::Zsh, PromptEscape::Bash, PromptEscape::Fish] {
            assert!(apply(prompt, escape).chars().count() >= prompt.chars().count());
        }
    }
}

/// What zsh shows: `%{`/`%}` show nothing, `%%` shows `%`.
fn zsh_reads(s: &str) -> String {
    let chars: Vec<char> = s.chars().collect();
    let mut out = String::new();
    let mut i = 0;
    while i < chars.len() {
        if i + 1 < chars.len() && chars[i] == '%' && chars[i + 1] == '%' {
            out.push('%');
            i += 2;
        } else if i + 1 < chars.len() && chars[i] == '%' && (chars[i + 1] == '{' || chars[i + 1] == '}') {
            i += 2;
        } else {
            out.push(chars[i]);
            i += 1;
        }
    }
    out
}

/// What bash shows: `\[`/`\]` show nothing.
fn bash_reads(s: &str) -> String {
    s.replace("\\[", "").replace("\\]", "")
}

#[test]
fn shells_show_the_rendered_prompt() {
    for prompt in [
        format!("{}host{} 100% {}%{} ", ansi::WHITE, ansi::RESET, ansi::BOLD, ansi::RESET),
        "%{ not a marker %}".to_string(),
        "\x1b[x\x1b[1;2m%%".to_string(),
    ] {
        assert_eq!(prompt, zsh_reads(&apply(&prompt, PromptEscape::Zsh)));
    }
    let prompt = format!("{}host{} {}${} ", ansi::WHITE, ansi::RESET, ansi::GREEN, ansi::RESET);
    assert_eq!(prompt, bash_reads(&apply(&prompt, PromptEscape::Bash)));
}

use rs_prompt::ansi;
use rs_prompt::host::{short_hostname, write_highlighted};

#[test]
fn shortens_at_first_dot() {
    assert_eq!("build42", short_hostname("build42.lab"));
    assert_eq!("workstation", short_hostname("workstation"));
}

#[test]
fn highlights_digit_runs() {
    let mut out = String::new();
    write_highlighted(&mut out, "db12zone34").unwrap();
    assert_eq!(
        format!(
            "db{}12{}zone{}34{}",
            ansi::UNDERLINE,
            ansi::UNDERLINE_OFF,
            ansi::UNDERLINE,
            ansi::UNDERLINE_OFF
        ),
        out
    );
}

#[test]
fn short_hostname_edge_cases() {
    assert_eq!("", short_hostname(""));
    assert_eq!("", short_hostname(".lab"));
    assert_eq!("a", short_hostname("a.b.c"));
    assert_eq!("host", short_hostname("host."));
}

#[test]
fn short_hostname_is_idempotent_on_example() {
    let once = short_hostname("db1.example.org");
    assert_eq!(once, short_hostname(once));
}

#[test]
fn highlights_leading_and_trailing_digits() {
    let mut out = String::from("> ");
    write_highlighted(&mut out, "9box").unwrap();
    assert_eq!(format!("> {}9{}box", ansi::UNDERLINE, ansi::UNDERLINE_OFF), out);

    let mut out = String::new();
    write_highlighted(&mut out, "").unwrap();
    assert_eq!("", out);

    let mut out = String::new();
    write_highlighted(&mut out, "nodigits").unwrap();
    assert_eq!("nodigits", out);

    let mut out = String::new();
    write_highlighted(&mut out, "123").unwrap();
    assert_eq!(format!("{}123{}", ansi::UNDERLINE, ansi::UNDERLINE_OFF), out);
}

#[test]
fn highlighting_keeps_the_visible_text() {
    let mut out = String::new();
    write_highlighted(&mut out, "rack7node42x").unwrap();
    let visible = out.replace(ansi::UNDERLINE_OFF, "").replace(ansi::UNDERLINE, "");
    assert_eq!("rack7node42x", visible);
}

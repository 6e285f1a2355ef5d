use rs_prompt::ansi;
use rs_prompt::path::{
    count_components, display_path, display_path_defined, is_under_home, join_prefix,
    prefix_paths, split_components, truncate_component, truncates_at_boundary, write_components,
    Component,
};
use rs_prompt::vcs::VcsType;

#[test]
fn truncates_components() {
    assert_eq!("d", truncate_component("drivers"));
    assert_eq!(".c", truncate_component(".config"));
}

#[test]
fn truncation_edge_cases() {
    assert_eq!("", truncate_component(""));
    assert_eq!(".", truncate_component("."));
    assert_eq!("x", truncate_component("x"));
    assert!(truncates_at_boundary("drivers"));
    assert!(truncates_at_boundary(".c"));
    assert!(!truncates_at_boundary("é"));
    assert!(!truncates_at_boundary(".é"));
    assert!(truncates_at_boundary("dé"));
}

#[test]
fn detects_home_boundary() {
    assert!(is_under_home("/home/me/dev", "/home/me"));
    assert!(is_under_home("/home/me", "/home/me"));
    assert!(!is_under_home("/home/me2/dev", "/home/me"));
}

#[test]
fn empty_home_contains_nothing() {
    assert!(!is_under_home("/home/me", ""));
    assert!(!is_under_home("/home", "/home/me"));
}

#[test]
fn shortens_home_relative_path() {
    assert_eq!(
        "~/d/f/bar",
        display_path("/home/me/dev/foo/bar", "/home/me", &[None, None, None, None, None])
    );
}

#[test]
fn starts_at_outermost_vcs_root() {
    // tmp/outer holds .git, tmp/outer/inner holds .jj
    let rendered = display_path(
        "/tmp/outer/inner/deep",
        "/tmp",
        &[None, Some(VcsType::Git), Some(VcsType::Jj), None],
    );
    assert_eq!(
        format!(
            "{}{}outer{}{}{}/{}{}inner{}{}{}/deep",
            ansi::BOLD,
            ansi::RED,
            ansi::RESET,
            ansi::GREEN,
            "",
            ansi::BOLD,
            ansi::YELLOW,
            ansi::RESET,
            ansi::GREEN,
            ""
        ),
        rendered
    );
}

#[test]
fn preserves_leading_slash_for_root_level_vcs_paths() {
    let mut out = String::new();
    let components = vec![Component {
        name: "tmp",
        vcs_type: Some(VcsType::Git),
    }];

    write_components(&mut out, &components, true, true).unwrap();

    assert_eq!(
        format!(
            "/{}{}tmp{}{}",
            ansi::BOLD,
            ansi::RED,
            ansi::RESET,
            ansi::GREEN
        ),
        out
    );
}

#[test]
fn displays_paths_outside_home() {
    assert_eq!("/", display_path("/", "/home/me", &[]));
    assert_eq!("/u/l/bin", display_path("/usr/local/bin", "/home/me", &[None, None, None]));
    assert_eq!("~", display_path("/home/me", "/home/me", &[None, None]));
    assert_eq!("/h/me", display_path("/home/me", "/", &[None, None]));
    assert_eq!("/.c/x", display_path("/.config/x", "/home/me", &[None, None]));
}

#[test]
fn repository_at_the_top_level_keeps_the_slash() {
    assert_eq!(
        format!("/{}{}srv{}{}/a/bin", ansi::BOLD, ansi::WHITE, ansi::RESET, ansi::GREEN),
        display_path("/srv/app/bin", "/home/me", &[Some(VcsType::Repo), None, None])
    );
}

#[test]
fn components_and_prefixes() {
    let cs = split_components("//a//bc/");
    assert_eq!(2, cs.len());
    assert_eq!("a", cs[0].name);
    assert_eq!("bc", cs[1].name);
    assert_eq!(None, cs[1].vcs_type);
    assert_eq!(2, count_components("/a/bc"));
    assert_eq!(0, count_components("///"));
    assert_eq!("/a/bc", join_prefix(&cs));
    assert_eq!("/", join_prefix(&[]));
    assert_eq!(vec!["/a".to_string(), "/a/bc".to_string()], prefix_paths("/a/bc/"));
}

#[test]
fn abbreviation_is_defined_only_at_char_boundaries() {
    assert!(display_path_defined("/é/x", "/home/me", &[None, None]) == false);
    assert!(display_path_defined("/x/é", "/home/me", &[None, None]));
    assert!(display_path_defined("/é/x", "/home/me", &[Some(VcsType::Git), None]));
    assert_eq!(
        format!("/{}{}é{}{}/x", ansi::BOLD, ansi::RED, ansi::RESET, ansi::GREEN),
        display_path("/é/x", "/home/me", &[Some(VcsType::Git), None])
    );
}

use rs_prompt::ansi;
use rs_prompt::vcs::{detect, marker_exists, marker_name, Detection, MarkerKind, VcsType};

#[test]
fn detects_markers_in_priority_order() {
    // git project: no .jj, a .git directory
    assert_eq!(
        Detection::Done(Some(VcsType::Git)),
        detect(&[MarkerKind::Missing, MarkerKind::Directory])
    );
    // jj project
    assert_eq!(Detection::Done(Some(VcsType::Jj)), detect(&[MarkerKind::Directory]));
    // repo project
    assert_eq!(
        Detection::Done(Some(VcsType::Repo)),
        detect(&[MarkerKind::Missing, MarkerKind::Missing, MarkerKind::Directory])
    );
    // .jj beside .git: jj wins
    assert_eq!(
        Detection::Done(Some(VcsType::Jj)),
        detect(&[MarkerKind::Directory, MarkerKind::Directory])
    );
}

#[test]
fn detects_git_file_marker() {
    assert_eq!(
        Detection::Done(Some(VcsType::Git)),
        detect(&[MarkerKind::Missing, MarkerKind::File])
    );
}

#[test]
fn detects_symlink_marker_without_following() {
    assert_eq!(Detection::Done(Some(VcsType::Jj)), detect(&[MarkerKind::Symlink]));
}

#[test]
fn asks_for_markers_in_order() {
    assert_eq!(Detection::Probe(VcsType::Jj), detect(&[]));
    assert_eq!(Detection::Probe(VcsType::Git), detect(&[MarkerKind::Missing]));
    assert_eq!(
        Detection::Probe(VcsType::Repo),
        detect(&[MarkerKind::Missing, MarkerKind::Missing])
    );
    assert_eq!(
        Detection::Done(None),
        detect(&[MarkerKind::Missing, MarkerKind::Missing, MarkerKind::Missing])
    );
}

#[test]
fn files_mark_only_git() {
    assert_eq!(
        Detection::Probe(VcsType::Git),
        detect(&[MarkerKind::File])
    );
    assert_eq!(
        Detection::Done(None),
        detect(&[MarkerKind::File, MarkerKind::Other, MarkerKind::File])
    );
    assert!(marker_exists(MarkerKind::File, true));
    assert!(!marker_exists(MarkerKind::File, false));
    assert!(!marker_exists(MarkerKind::Other, true));
    assert!(!marker_exists(MarkerKind::Missing, true));
}

#[test]
fn decision_stays_after_more_lookups() {
    let first = detect(&[MarkerKind::Missing, MarkerKind::Symlink]);
    let more = detect(&[MarkerKind::Missing, MarkerKind::Symlink, MarkerKind::Directory]);
    assert_eq!(first, more);
}

#[test]
fn marker_names_and_colors() {
    assert_eq!(".jj", marker_name(VcsType::Jj));
    assert_eq!(".git", marker_name(VcsType::Git));
    assert_eq!(".repo", marker_name(VcsType::Repo));
    assert_eq!(ansi::YELLOW, ansi::fg_for_vcs(VcsType::Jj));
    assert_eq!(ansi::RED, ansi::fg_for_vcs(VcsType::Git));
    assert_eq!(ansi::WHITE, ansi::fg_for_vcs(VcsType::Repo));
}

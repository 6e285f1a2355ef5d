//! Recognising the root of a working copy by its marker entry (`.jj`, `.git`
//! or `.repo`). The file-system lookups happen outside; this module decides
//! which marker to look at next and what the lookups found.
use vstd::prelude::*;

verus! {

/// The kinds of version-control working copies the prompt recognises.
#[derive(Clone, Copy, Debug, PartialEq, Eq, Structural)]
pub enum VcsType {
    Jj,
    Git,
    Repo,
}

/// What a lookup of a marker entry found, without following symlinks.
#[derive(Clone, Copy, Debug, PartialEq, Eq, Structural)]
pub enum MarkerKind {
    /// No entry of that name.
    Missing,
    Directory,
    Symlink,
    File,
    /// Any other kind of entry (a socket, a device, ...).
    Other,
}

/// The next step of detection: look up the marker of a kind, or the result.
#[derive(Clone, Copy, Debug, PartialEq, Eq, Structural)]
pub enum Detection {
    Probe(VcsType),
    Done(Option<VcsType>),
}

/// The name of the entry that marks a working copy of `kind`.
pub open spec fn spec_marker_name(kind: VcsType) -> &'static str {
    match kind {
        VcsType::Jj => ".jj",
        VcsType::Git => ".git",
        VcsType::Repo => ".repo",
    }
}

pub fn marker_name(kind: VcsType) -> (name: &'static str)
    ensures
        name == spec_marker_name(kind),
{
    match kind {
        VcsType::Jj => ".jj",
        VcsType::Git => ".git",
        VcsType::Repo => ".repo",
    }
}

/// Only a git marker may be a plain file (as in a worktree).
pub open spec fn allows_file(kind: VcsType) -> bool {
    kind == VcsType::Git
}

/// Whether an entry of the given kind counts as a marker: a directory or a
/// symlink, or a plain file where files are allowed.
pub open spec fn spec_marker_exists(found: MarkerKind, allow_file: bool) -> bool {
    ||| found == MarkerKind::Directory
    ||| found == MarkerKind::Symlink
    ||| allow_file && found == MarkerKind::File
}

pub fn marker_exists(found: MarkerKind, allow_file: bool) -> (r: bool)
    ensures
        r == spec_marker_exists(found, allow_file),
{
    match found {
        MarkerKind::Directory | MarkerKind::Symlink => true,
        MarkerKind::File => allow_file,
        MarkerKind::Missing | MarkerKind::Other => false,
    }
}

/// The markers in the order they are looked for: jj first, then git, then repo.
pub open spec fn priority(i: int) -> VcsType {
    if i == 0 {
        VcsType::Jj
    } else if i == 1 {
        VcsType::Git
    } else {
        VcsType::Repo
    }
}

/// Detection from the `i`-th marker on, where `observed[j]` is what the lookup
/// of the `j`-th marker found.
pub open spec fn detect_from(observed: Seq<MarkerKind>, i: int) -> Detection
    decreases 3 - i,
{
    if i < 0 || i >= 3 {
        Detection::Done(None)
    } else if i >= observed.len() {
        Detection::Probe(priority(i))
    } else if spec_marker_exists(observed[i], allows_file(priority(i))) {
        Detection::Done(Some(priority(i)))
    } else {
        detect_from(observed, i + 1)
    }
}

/// The kind of the first marker present, in priority order, given the
/// lookups done so far; or the marker to look up next where the lookups so
/// far do not decide it.
pub open spec fn spec_detect(observed: Seq<MarkerKind>) -> Detection {
    detect_from(observed, 0)
}

pub fn detect(observed: &[MarkerKind]) -> (step: Detection)
    ensures
        step == spec_detect(observed@),
{
    let mut i: usize = 0;
    while i < 3
        invariant
            i <= 3,
            spec_detect(observed@) == detect_from(observed@, i as int),
        decreases 3 - i,
    {
        let kind = if i == 0 {
            VcsType::Jj
        } else if i == 1 {
            VcsType::Git
        } else {
            VcsType::Repo
        };
        assert(kind == priority(i as int));
        if i >= observed.len() {
            return Detection::Probe(kind);
        }
        if marker_exists(observed[i], kind == VcsType::Git) {
            return Detection::Done(Some(kind));
        }
        i = i + 1;
    }
    Detection::Done(None)
}

/// A decision, once reached, stays: looking up more markers does not change it.
pub proof fn law_detection_is_final(observed: Seq<MarkerKind>, more: Seq<MarkerKind>)
    requires
        spec_detect(observed) is Done,
    ensures
        spec_detect(observed + more) == spec_detect(observed),
{
    lemma_detect_from_extend(observed, more, 0);
}

proof fn lemma_detect_from_extend(observed: Seq<MarkerKind>, more: Seq<MarkerKind>, i: int)
    requires
        0 <= i,
        detect_from(observed, i) is Done,
    ensures
        detect_from(observed + more, i) == detect_from(observed, i),
    decreases 3 - i,
{
    if i < 3 && i < observed.len() {
        assert((observed + more)[i] == observed[i]);
        if !spec_marker_exists(observed[i], allows_file(priority(i))) {
            lemma_detect_from_extend(observed, more, i + 1);
        }
    }
}

/// Lookups are asked for in priority order, one marker at a time: after `n`
/// lookups that found nothing, the next one asked for is the `n`-th marker.
pub proof fn law_probes_in_priority_order(observed: Seq<MarkerKind>)
    requires
        observed.len() < 3,
        forall|j: int|
            0 <= j < observed.len() ==> !spec_marker_exists(
                #[trigger] observed[j],
                allows_file(priority(j)),
            ),
    ensures
        spec_detect(observed) == Detection::Probe(priority(observed.len() as int)),
{
    lemma_probe_next(observed, 0);
}

proof fn lemma_probe_next(observed: Seq<MarkerKind>, i: int)
    requires
        0 <= i <= observed.len() < 3,
        forall|j: int|
            0 <= j < observed.len() ==> !spec_marker_exists(
                #[trigger] observed[j],
                allows_file(priority(j)),
            ),
    ensures
        detect_from(observed, i) == Detection::Probe(priority(observed.len() as int)),
    decreases 3 - i,
{
    if i < observed.len() {
        assert(!spec_marker_exists(observed[i], allows_file(priority(i))));
        lemma_probe_next(observed, i + 1);
    }
}

/// With all three markers looked up, the result is the first kind, in the
/// order jj, git, repo, whose marker is a directory or a symlink, or for git
/// also a plain file; nothing where none is.
pub proof fn law_detection_of_three_lookups(jj: MarkerKind, git: MarkerKind, repo: MarkerKind)
    ensures
        spec_detect(seq![jj, git, repo]) == if jj == MarkerKind::Directory || jj
            == MarkerKind::Symlink {
            Detection::Done(Some(VcsType::Jj))
        } else if git == MarkerKind::Directory || git == MarkerKind::Symlink || git
            == MarkerKind::File {
            Detection::Done(Some(VcsType::Git))
        } else if repo == MarkerKind::Directory || repo == MarkerKind::Symlink {
            Detection::Done(Some(VcsType::Repo))
        } else {
            Detection::Done(None)
        },
{
    let o = seq![jj, git, repo];
    assert(o[0] == jj && o[1] == git && o[2] == repo);
    assert(priority(0) == VcsType::Jj && priority(1) == VcsType::Git && priority(2)
        == VcsType::Repo);
    assert(detect_from(o, 3) == Detection::Done(None));
    assert(detect_from(o, 2) == if repo == MarkerKind::Directory || repo == MarkerKind::Symlink {
        Detection::Done(Some(VcsType::Repo))
    } else {
        Detection::Done(None)
    });
    assert(detect_from(o, 1) == if git == MarkerKind::Directory || git == MarkerKind::Symlink
        || git == MarkerKind::File {
        Detection::Done(Some(VcsType::Git))
    } else {
        detect_from(o, 2)
    });
}

/// Before anything is looked up, the jj marker is asked for first.
pub proof fn law_detection_starts_with_jj()
    ensures
        spec_detect(Seq::<MarkerKind>::empty()) == Detection::Probe(VcsType::Jj),
{
}

} // verus!

//! Rendering of the working directory: `~` for the home directory,
//! abbreviated intermediate components, and highlighted working-copy roots.
use vstd::prelude::*;

use crate::ansi;
use crate::text::{chars_of, has_prefix, is_ascii_char, push_char, str_eq, strip_prefix};
use crate::vcs::VcsType;

verus! {

/// One `/`-separated part of a path, with the kind of working copy rooted there.
#[derive(Clone, Copy)]
pub struct Component<'a> {
    pub name: &'a str,
    pub vcs_type: Option<VcsType>,
}

impl<'a> View for Component<'a> {
    type V = (Seq<char>, Option<VcsType>);

    open spec fn view(&self) -> (Seq<char>, Option<VcsType>) {
        (self.name@, self.vcs_type)
    }
}

/// The views of a slice of components.
pub open spec fn component_views(cs: Seq<Component>) -> Seq<(Seq<char>, Option<VcsType>)> {
    cs.map_values(|c: Component| c@)
}

/// Splitting `s` at each `/`, where `cur` is the part read so far, keeping
/// only the nonempty parts.
pub open spec fn components_from(s: Seq<char>, cur: Seq<char>) -> Seq<Seq<char>>
    decreases s.len(),
{
    if s.len() == 0 {
        if cur.len() > 0 {
            seq![cur]
        } else {
            seq![]
        }
    } else if s[0] == '/' {
        (if cur.len() > 0 {
            seq![cur]
        } else {
            seq![]
        }) + components_from(s.drop_first(), seq![])
    } else {
        components_from(s.drop_first(), cur.push(s[0]))
    }
}

/// The nonempty `/`-separated parts of `path`, in order.
pub open spec fn components(path: Seq<char>) -> Seq<Seq<char>> {
    components_from(path, seq![])
}

/// How many characters of an intermediate component the prompt keeps: the
/// first one, or the first two where the name starts with `.`.
pub open spec fn truncation_len(name: Seq<char>) -> int {
    if name.len() == 0 {
        0
    } else if name[0] == '.' {
        if name.len() < 2 {
            name.len() as int
        } else {
            2
        }
    } else {
        1
    }
}

/// Whether the kept characters end on a UTF-8 character boundary of `name`,
/// the names that `truncate_component` is defined on (it cuts at a byte offset).
pub open spec fn truncates_cleanly(name: Seq<char>) -> bool {
    ||| name.len() == 0
    ||| name[0] == '.' && (name.len() < 2 || is_ascii_char(name[1]))
    ||| name[0] != '.' && is_ascii_char(name[0])
}

/// The abbreviation of an intermediate component: its first character, or its
/// first two where it starts with `.` (`drivers` to `d`, `.config` to `.c`).
pub fn truncate_component(component: &str) -> (r: &str)
    requires
        truncates_cleanly(component@),
    ensures
        r@ == component@.take(truncation_len(component@)),
{
    let len = component.unicode_len();
    if len == 0 {
        assert(component@.take(0) =~= component@);
        return component;
    }
    if component.get_char(0) == '.' {
        let keep = if len < 2 {
            len
        } else {
            2
        };
        component.substring_char(0, keep)
    } else {
        component.substring_char(0, 1)
    }
}

/// Whether `path` is `home` or lies below it.
pub open spec fn under_home(path: Seq<char>, home: Seq<char>) -> bool {
    &&& home.len() > 0
    &&& has_prefix(path, home)
    &&& (path.len() == home.len() || path[home.len() as int] == '/')
}

/// Whether `path` is the home directory or lies below it.
pub fn is_under_home(path: &str, home: &str) -> (r: bool)
    ensures
        r == under_home(path@, home@),
{
    let home_len = home.unicode_len();
    if home_len == 0 {
        return false;
    }
    match strip_prefix(path, home) {
        None => false,
        Some(rest) => {
            let rest_len = rest.unicode_len();
            rest_len == 0 || rest.get_char(0) == '/'
        },
    }
}

/// The components of `path`, none of them marked as a working-copy root.
pub fn split_components<'a>(path: &'a str) -> (cs: Vec<Component<'a>>)
    ensures
        cs@.len() == components(path@).len(),
        forall|i: int|
            0 <= i < cs@.len() ==> (#[trigger] cs@[i])@ == (components(path@)[i], None::<VcsType>),
{
    let chars = chars_of(path);
    let ghost s = path@;
    let mut cs: Vec<Component<'a>> = Vec::new();
    let mut start: usize = 0;
    let mut i: usize = 0;
    assert(s.skip(0) =~= s);
    assert(s.subrange(0, 0) =~= Seq::<char>::empty());
    assert(cs@.map_values(|c: Component| c.name@) =~= Seq::<Seq<char>>::empty());
    while i < chars.len()
        invariant
            chars@ == s,
            s == path@,
            start <= i <= chars.len(),
            components(s) == cs@.map_values(|c: Component| c.name@) + components_from(
                s.skip(i as int),
                s.subrange(start as int, i as int),
            ),
            forall|j: int| 0 <= j < cs@.len() ==> (#[trigger] cs@[j]).vcs_type == None::<VcsType>,
        decreases chars.len() - i,
    {
        let ghost names = cs@.map_values(|c: Component| c.name@);
        let ghost cur = s.subrange(start as int, i as int);
        assert(s.skip(i as int).drop_first() =~= s.skip(i + 1));
        assert(s.skip(i as int)[0] == s[i as int]);
        if chars[i] == '/' {
            if i > start {
                let part = path.substring_char(start, i);
                cs.push(Component { name: part, vcs_type: None });
                assert(cs@.map_values(|c: Component| c.name@) =~= names + seq![cur]);
            }
            start = i + 1;
            assert(s.subrange(start as int, start as int) =~= Seq::<char>::empty());
        } else {
            assert(s.subrange(start as int, i + 1) =~= cur.push(s[i as int]));
        }
        i = i + 1;
    }
    let ghost names = cs@.map_values(|c: Component| c.name@);
    let ghost cur = s.subrange(start as int, i as int);
    assert(s.skip(i as int) =~= Seq::<char>::empty());
    if i > start {
        let part = path.substring_char(start, i);
        cs.push(Component { name: part, vcs_type: None });
        assert(cs@.map_values(|c: Component| c.name@) =~= names + seq![cur]);
    }
    assert(components(s) =~= cs@.map_values(|c: Component| c.name@));
    assert forall|k: int| 0 <= k < cs@.len() implies (#[trigger] cs@[k])@ == (
        components(path@)[k],
        None::<VcsType>,
    ) by {
        assert(cs@.map_values(|c: Component| c.name@)[k] == cs@[k].name@);
    }
    cs
}

/// The number of nonempty `/`-separated parts of `path`.
pub fn count_components(path: &str) -> (n: usize)
    ensures
        n == components(path@).len(),
{
    split_components(path).len()
}

/// The names of a slice of components.
pub open spec fn names_of(cs: Seq<Component>) -> Seq<Seq<char>> {
    cs.map_values(|c: Component| c.name@)
}

/// The first `k` of `names`, joined by `/`.
pub open spec fn joined(names: Seq<Seq<char>>, k: int) -> Seq<char>
    decreases k,
{
    if k <= 0 {
        seq![]
    } else {
        joined(names, k - 1) + (if k > 1 {
            seq!['/']
        } else {
            seq![]
        }) + names[k - 1]
    }
}

/// `joined` reads only the names it joins.
pub proof fn lemma_joined_take(names: Seq<Seq<char>>, n: int, k: int)
    requires
        0 <= k <= n <= names.len(),
    ensures
        joined(names.take(n), k) == joined(names, k),
    decreases k,
{
    if k > 0 {
        lemma_joined_take(names, n, k - 1);
    }
}

/// The absolute path made of `components`: `/` followed by their names joined by `/`.
pub fn join_prefix(components: &[Component]) -> (path: String)
    ensures
        path@ == seq!['/'] + joined(names_of(components@), components@.len() as int),
{
    let mut out = String::new();
    push_char(&mut out, '/');
    let ghost names = names_of(components@);
    let mut index: usize = 0;
    while index < components.len()
        invariant
            index <= components@.len(),
            names == names_of(components@),
            out@ == seq!['/'] + joined(names, index as int),
        decreases components@.len() - index,
    {
        if index != 0 {
            push_char(&mut out, '/');
        }
        out.append(components[index].name);
        assert(names[index as int] == components@[index as int].name@);
        assert(out@ =~= seq!['/'] + joined(names, index + 1));
        index = index + 1;
    }
    out
}

/// The directories from the outermost down to `cwd` itself, one for each
/// component of `cwd`: the places where a working copy may be rooted.
pub fn prefix_paths(cwd: &str) -> (paths: Vec<String>)
    ensures
        paths@.len() == components(cwd@).len(),
        forall|i: int|
            0 <= i < paths@.len() ==> (#[trigger] paths@[i])@ == seq!['/'] + joined(
                components(cwd@),
                i + 1,
            ),
{
    let comps = split_components(cwd);
    let ghost names = components(cwd@);
    assert(names_of(comps@) =~= names);
    let mut paths: Vec<String> = Vec::new();
    let mut i: usize = 0;
    while i < comps.len()
        invariant
            i <= comps@.len(),
            comps@.len() == names.len(),
            names == components(cwd@),
            names_of(comps@) == names,
            paths@.len() == i,
            forall|j: int|
                0 <= j < i ==> (#[trigger] paths@[j])@ == seq!['/'] + joined(names, j + 1),
        decreases comps@.len() - i,
    {
        let prefix = vstd::slice::slice_subrange(comps.as_slice(), 0, i + 1);
        let p = join_prefix(prefix);
        proof {
            assert(names_of(prefix@) =~= names.take(i + 1));
            lemma_joined_take(names, i + 1, i + 1);
        }
        paths.push(p);
        i = i + 1;
    }
    paths
}

/// The text of one component in the rendered path: a working-copy root in bold
/// and its kind's colour when highlighting, the last component in full, and
/// any other abbreviated.
pub open spec fn piece(c: (Seq<char>, Option<VcsType>), last: bool, highlight: bool) -> Seq<char> {
    if highlight && c.1 is Some {
        ansi::BOLD@ + ansi::spec_fg_for_vcs(c.1->0)@ + c.0 + ansi::RESET@ + ansi::GREEN@
    } else if last {
        c.0
    } else {
        c.0.take(truncation_len(c.0))
    }
}

/// The pieces of the first `k` components, separated by `/`.
pub open spec fn pieces(cs: Seq<(Seq<char>, Option<VcsType>)>, k: int, highlight: bool) -> Seq<
    char,
>
    decreases k,
{
    if k <= 0 {
        seq![]
    } else {
        pieces(cs, k - 1, highlight) + (if k > 1 {
            seq!['/']
        } else {
            seq![]
        }) + piece(cs[k - 1], k - 1 == cs.len() - 1, highlight)
    }
}

/// The rendering of a list of components, after a `/` where asked for.
pub open spec fn components_text(
    cs: Seq<(Seq<char>, Option<VcsType>)>,
    highlight: bool,
    leading_slash: bool,
) -> Seq<char> {
    (if leading_slash {
        seq!['/']
    } else {
        seq![]
    }) + pieces(cs, cs.len() as int, highlight)
}

/// Every component that gets abbreviated can be cut where the abbreviation ends.
pub open spec fn pieces_defined(cs: Seq<(Seq<char>, Option<VcsType>)>, highlight: bool) -> bool {
    forall|i: int|
        0 <= i < cs.len() - 1 && !(highlight && cs[i].1 is Some) ==> truncates_cleanly(
            #[trigger] cs[i].0,
        )
}

/// Appends the rendering of `components`, highlighting working-copy roots
/// where asked, after a `/` where asked.
pub fn write_components(
    out: &mut String,
    components: &[Component],
    highlight_vcs: bool,
    preserve_leading_slash: bool,
) -> (r: Result<(), std::fmt::Error>)
    requires
        pieces_defined(component_views(components@), highlight_vcs),
    ensures
        r is Ok,
        final(out)@ == old(out)@ + components_text(
            component_views(components@),
            highlight_vcs,
            preserve_leading_slash,
        ),
{
    let ghost cs = component_views(components@);
    let ghost lead = if preserve_leading_slash {
        seq!['/']
    } else {
        seq![]
    };
    if preserve_leading_slash {
        push_char(out, '/');
    }
    let len = components.len();
    let mut index: usize = 0;
    while index < len
        invariant
            len == components@.len(),
            cs == component_views(components@),
            pieces_defined(cs, highlight_vcs),
            index <= len,
            out@ == old(out)@ + lead + pieces(cs, index as int, highlight_vcs),
        decreases len - index,
    {
        let component = components[index];
        assert(cs[index as int] == component@);
        if index != 0 {
            push_char(out, '/');
        }
        let ghost sep = out@;
        if highlight_vcs && component.vcs_type.is_some() {
            let kind = component.vcs_type.unwrap();
            out.append(ansi::BOLD);
            out.append(ansi::fg_for_vcs(kind));
            out.append(component.name);
            out.append(ansi::RESET);
            out.append(ansi::GREEN);
        } else if index == len - 1 {
            out.append(component.name);
        } else {
            assert(truncates_cleanly(cs[index as int].0));
            out.append(truncate_component(component.name));
        }
        assert(out@ =~= sep + piece(cs[index as int], index == cs.len() - 1, highlight_vcs));
        assert(out@ =~= old(out)@ + lead + pieces(cs, index + 1, highlight_vcs));
        index = index + 1;
    }
    Ok(())
}

/// The working-copy kind found at the `i`-th component; `None` past the end of `kinds`.
pub open spec fn kind_at(kinds: Seq<Option<VcsType>>, i: int) -> Option<VcsType> {
    if 0 <= i < kinds.len() {
        kinds[i]
    } else {
        None
    }
}

/// The components of `cwd`, each with the working-copy kind found there.
pub open spec fn marked_components(cwd: Seq<char>, kinds: Seq<Option<VcsType>>) -> Seq<
    (Seq<char>, Option<VcsType>),
> {
    let names = components(cwd);
    Seq::new(names.len(), |i: int| (names[i], kind_at(kinds, i)))
}

/// The index of the first component from `i` on that roots a working copy,
/// or the number of components where none does.
pub open spec fn first_marked(cs: Seq<(Seq<char>, Option<VcsType>)>, i: int) -> int
    decreases cs.len() - i,
{
    if i < 0 || i >= cs.len() {
        cs.len() as int
    } else if cs[i].1 is Some {
        i
    } else {
        first_marked(cs, i + 1)
    }
}

/// `first_marked` is the first marked component from `i` on.
pub proof fn lemma_first_marked(cs: Seq<(Seq<char>, Option<VcsType>)>, i: int)
    requires
        0 <= i <= cs.len(),
    ensures
        i <= first_marked(cs, i) <= cs.len(),
        forall|j: int| i <= j < first_marked(cs, i) ==> cs[j].1 is None,
        first_marked(cs, i) < cs.len() ==> cs[first_marked(cs, i)].1 is Some,
    decreases cs.len() - i,
{
    if i < cs.len() && cs[i].1 is None {
        lemma_first_marked(cs, i + 1);
    }
}

/// How the prompt shows the working directory `cwd`, given the working-copy
/// kind found at each of its components:
/// - from the outermost working-copy root down, with each root highlighted;
/// - else, below `home`, as `~` and the components below it;
/// - else as the absolute path;
/// every component but the last abbreviated, roots excepted.
pub open spec fn display_text(cwd: Seq<char>, home: Seq<char>, kinds: Seq<Option<VcsType>>) -> Seq<
    char,
> {
    let cs = marked_components(cwd, kinds);
    let root = first_marked(cs, 0);
    let h = components(home).len();
    if root < cs.len() {
        components_text(cs.skip(root), true, root == 0)
    } else if under_home(cwd, home) && h > 0 {
        seq!['~'] + if cs.len() > h {
            seq!['/'] + components_text(cs.skip(h as int), false, false)
        } else {
            seq![]
        }
    } else if cwd == seq!['/'] {
        seq!['/']
    } else {
        seq!['/'] + components_text(cs, false, false)
    }
}

/// The inputs on which `display_path` is defined: each component it
/// abbreviates can be cut at the byte where the abbreviation ends.
pub open spec fn display_defined(cwd: Seq<char>, home: Seq<char>, kinds: Seq<Option<VcsType>>) -> bool {
    let cs = marked_components(cwd, kinds);
    let root = first_marked(cs, 0);
    let h = components(home).len();
    if root < cs.len() {
        pieces_defined(cs.skip(root), true)
    } else if under_home(cwd, home) && h > 0 {
        cs.len() > h ==> pieces_defined(cs.skip(h as int), false)
    } else if cwd == seq!['/'] {
        true
    } else {
        pieces_defined(cs, false)
    }
}

/// The components of `cwd`, marked with `kinds`, and the index of the first
/// one that roots a working copy.
fn mark_components<'a>(cwd: &'a str, kinds: &[Option<VcsType>]) -> (r: (
    Vec<Component<'a>>,
    Option<usize>,
))
    ensures
        component_views(r.0@) == marked_components(cwd@, kinds@),
        r.1 matches Some(root) ==> root == first_marked(marked_components(cwd@, kinds@), 0) && root
            < r.0@.len(),
        r.1 is None ==> first_marked(marked_components(cwd@, kinds@), 0) == r.0@.len(),
{
    let comps = split_components(cwd);
    let ghost cs = marked_components(cwd@, kinds@);
    let mut marked: Vec<Component<'a>> = Vec::new();
    let mut outermost: Option<usize> = None;
    let mut index: usize = 0;
    while index < comps.len()
        invariant
            index <= comps@.len(),
            comps@.len() == cs.len(),
            cs == marked_components(cwd@, kinds@),
            forall|j: int| 0 <= j < comps@.len() ==> (#[trigger] comps@[j])@ == (
                components(cwd@)[j],
                None::<VcsType>,
            ),
            component_views(marked@) == cs.take(index as int),
            outermost is None ==> forall|j: int| 0 <= j < index ==> cs[j].1 is None,
            outermost matches Some(root) ==> root < index && cs[root as int].1 is Some && forall|
                j: int,
            |
                0 <= j < root ==> cs[j].1 is None,
        decreases comps@.len() - index,
    {
        let kind = if index < kinds.len() {
            kinds[index]
        } else {
            None
        };
        assert(comps@[index as int]@ == (components(cwd@)[index as int], None::<VcsType>));
        assert(kind == cs[index as int].1);
        let ghost views = component_views(marked@);
        marked.push(Component { name: comps[index].name, vcs_type: kind });
        assert(component_views(marked@) =~= views.push(cs[index as int]));
        if kind.is_some() && outermost.is_none() {
            outermost = Some(index);
        }
        assert(component_views(marked@) =~= cs.take(index + 1));
        index = index + 1;
    }
    assert(cs.take(index as int) =~= cs);
    proof {
        lemma_first_marked(cs, 0);
        let fm = first_marked(cs, 0);
        if let Some(root) = outermost {
            if fm < root {
                assert(cs[fm].1 is None);
            }
            if fm > root {
                assert(cs[root as int].1 is None);
            }
        } else {
            if fm < cs.len() {
                assert(cs[fm].1 is None);
            }
        }
    }
    (marked, outermost)
}

/// The working directory as the prompt shows it, given the working-copy kind
/// found at each component of `cwd` (`kinds[i]` for the directory of the
/// first `i + 1` components, the `i`-th of `prefix_paths(cwd)`).
pub fn display_path(cwd: &str, home: &str, kinds: &[Option<VcsType>]) -> (shown: String)
    requires
        display_defined(cwd@, home@, kinds@),
    ensures
        shown@ == display_text(cwd@, home@, kinds@),
{
    let (components, outermost_vcs_index) = mark_components(cwd, kinds);
    let ghost cs = marked_components(cwd@, kinds@);
    let len = components.len();
    assert(len == cs.len());
    proof {
        lemma_first_marked(cs, 0);
    }
    let mut out = String::new();
    if let Some(root) = outermost_vcs_index {
        let tail = vstd::slice::slice_subrange(components.as_slice(), root, len);
        assert(component_views(tail@) =~= cs.skip(root as int));
        let _ = write_components(&mut out, tail, true, root == 0);
        assert(out@ =~= display_text(cwd@, home@, kinds@));
        return out;
    }
    let home_offset = if is_under_home(cwd, home) {
        count_components(home)
    } else {
        0
    };
    if home_offset > 0 {
        push_char(&mut out, '~');
        if len > home_offset {
            push_char(&mut out, '/');
            let tail = vstd::slice::slice_subrange(components.as_slice(), home_offset, len);
            assert(component_views(tail@) =~= cs.skip(home_offset as int));
            let _ = write_components(&mut out, tail, false, false);
        }
        assert(out@ =~= display_text(cwd@, home@, kinds@));
        return out;
    }
    let root_path = "/";
    proof {
        reveal_strlit("/");
    }
    assert(root_path@ =~= seq!['/']);
    if str_eq(cwd, root_path) {
        push_char(&mut out, '/');
        assert(out@ =~= display_text(cwd@, home@, kinds@));
        return out;
    }
    push_char(&mut out, '/');
    let _ = write_components(&mut out, components.as_slice(), false, false);
    assert(out@ =~= display_text(cwd@, home@, kinds@));
    out
}

/// Whether `truncate_component` is defined on `name`.
pub fn truncates_at_boundary(name: &str) -> (r: bool)
    ensures
        r == truncates_cleanly(name@),
{
    let len = name.unicode_len();
    if len == 0 {
        return true;
    }
    let first = name.get_char(0);
    if first == '.' {
        len < 2 || (name.get_char(1) as u32) < 128
    } else {
        (first as u32) < 128
    }
}

/// Whether every component that `write_components` would abbreviate can be cut.
fn pieces_can_be_cut(components: &[Component], highlight_vcs: bool) -> (r: bool)
    ensures
        r == pieces_defined(component_views(components@), highlight_vcs),
{
    let ghost cs = component_views(components@);
    let len = components.len();
    let mut index: usize = 0;
    while index < len
        invariant
            len == components@.len(),
            cs == component_views(components@),
            index <= len,
            forall|i: int|
                0 <= i < index && i < cs.len() - 1 && !(highlight_vcs && cs[i].1 is Some)
                    ==> truncates_cleanly(#[trigger] cs[i].0),
        decreases len - index,
    {
        let component = components[index];
        assert(cs[index as int] == component@);
        if index + 1 < len && !(highlight_vcs && component.vcs_type.is_some())
            && !truncates_at_boundary(component.name) {
            assert(!truncates_cleanly(cs[index as int].0));
            return false;
        }
        index = index + 1;
    }
    true
}

/// Whether `display_path` is defined on these inputs.
pub fn display_path_defined(cwd: &str, home: &str, kinds: &[Option<VcsType>]) -> (r: bool)
    ensures
        r == display_defined(cwd@, home@, kinds@),
{
    let (components, outermost_vcs_index) = mark_components(cwd, kinds);
    let ghost cs = marked_components(cwd@, kinds@);
    let len = components.len();
    assert(len == cs.len());
    proof {
        lemma_first_marked(cs, 0);
    }
    if let Some(root) = outermost_vcs_index {
        let tail = vstd::slice::slice_subrange(components.as_slice(), root, len);
        assert(component_views(tail@) =~= cs.skip(root as int));
        return pieces_can_be_cut(tail, true);
    }
    let home_offset = if is_under_home(cwd, home) {
        count_components(home)
    } else {
        0
    };
    if home_offset > 0 {
        if len > home_offset {
            let tail = vstd::slice::slice_subrange(components.as_slice(), home_offset, len);
            assert(component_views(tail@) =~= cs.skip(home_offset as int));
            return pieces_can_be_cut(tail, false);
        }
        return true;
    }
    let root_path = "/";
    proof {
        reveal_strlit("/");
    }
    assert(root_path@ =~= seq!['/']);
    if str_eq(cwd, root_path) {
        return true;
    }
    pieces_can_be_cut(components.as_slice(), false)
}

/// Whether `s` ends with `suffix`.
pub open spec fn has_suffix(s: Seq<char>, suffix: Seq<char>) -> bool {
    suffix.len() <= s.len() && s.skip(s.len() - suffix.len()) == suffix
}

proof fn lemma_concat_has_suffix(a: Seq<char>, b: Seq<char>)
    ensures
        has_suffix(a + b, b),
{
    assert((a + b).skip(a.len() as int) =~= b);
}

/// The rendering of a nonempty list of components ends with the last one,
/// in full where it is not shown as a working-copy root.
proof fn lemma_text_ends_with_last(
    cs: Seq<(Seq<char>, Option<VcsType>)>,
    highlight: bool,
    leading_slash: bool,
)
    requires
        cs.len() > 0,
        !(highlight && cs.last().1 is Some),
    ensures
        has_suffix(components_text(cs, highlight, leading_slash), cs.last().0),
{
    let n = cs.len() as int;
    let lead = if leading_slash {
        seq!['/']
    } else {
        seq![]
    };
    let front = lead + pieces(cs, n - 1, highlight) + (if n > 1 {
        seq!['/']
    } else {
        seq![]
    });
    assert(piece(cs[n - 1], true, highlight) == cs.last().0);
    assert(components_text(cs, highlight, leading_slash) =~= front + cs.last().0);
    lemma_concat_has_suffix(front, cs.last().0);
}

/// Below the home directory, and outside any working copy, the path is shown
/// starting with `~`.
pub proof fn law_home_shown_as_tilde(cwd: Seq<char>, home: Seq<char>, kinds: Seq<Option<VcsType>>)
    requires
        forall|i: int| 0 <= i < kinds.len() ==> kinds[i] is None,
        under_home(cwd, home),
        components(home).len() > 0,
    ensures
        display_text(cwd, home, kinds).len() > 0,
        display_text(cwd, home, kinds)[0] == '~',
{
    let cs = marked_components(cwd, kinds);
    lemma_first_marked(cs, 0);
    if first_marked(cs, 0) < cs.len() {
        let r = first_marked(cs, 0);
        assert(cs[r].1 == kind_at(kinds, r));
    }
}

/// The directory itself, where the path shows more than the home directory,
/// is shown in full at the end, unless it roots a working copy (then it is
/// highlighted instead).
pub proof fn law_last_component_in_full(cwd: Seq<char>, home: Seq<char>, kinds: Seq<Option<VcsType>>)
    requires
        components(cwd).len() > 0,
        kind_at(kinds, components(cwd).len() - 1) is None,
        under_home(cwd, home) ==> components(cwd).len() > components(home).len(),
    ensures
        has_suffix(display_text(cwd, home, kinds), components(cwd).last()),
{
    let cs = marked_components(cwd, kinds);
    let n = cs.len() as int;
    let h = components(home).len() as int;
    lemma_first_marked(cs, 0);
    let root = first_marked(cs, 0);
    assert(cs.last() == (components(cwd).last(), kind_at(kinds, n - 1)));
    if root < n {
        let tail = cs.skip(root);
        assert(tail.last() == cs.last());
        lemma_text_ends_with_last(tail, true, root == 0);
    } else if under_home(cwd, home) && h > 0 {
        let tail = cs.skip(h);
        assert(tail.last() == cs.last());
        lemma_text_ends_with_last(tail, false, false);
        let t = components_text(tail, false, false);
        assert(display_text(cwd, home, kinds) =~= seq!['~', '/'] + t);
        assert(has_suffix(t, cs.last().0));
        assert((seq!['~', '/'] + t).skip(2 + t.len() - cs.last().0.len()) =~= t.skip(
            t.len() - cs.last().0.len(),
        ));
    } else {
        if cwd == seq!['/'] {
            assert(cwd.drop_first() =~= Seq::<char>::empty());
            assert(components_from(Seq::<char>::empty(), Seq::<char>::empty()).len() == 0);
            assert(components(cwd).len() == 0);
        }
        lemma_text_ends_with_last(cs, false, false);
        let t = components_text(cs, false, false);
        assert(display_text(cwd, home, kinds) =~= seq!['/'] + t);
        assert((seq!['/'] + t).skip(1 + t.len() - cs.last().0.len()) =~= t.skip(
            t.len() - cs.last().0.len(),
        ));
    }
}

proof fn lemma_pieces_start_with_first(
    cs: Seq<(Seq<char>, Option<VcsType>)>,
    k: int,
    highlight: bool,
)
    requires
        1 <= k <= cs.len(),
    ensures
        has_prefix(pieces(cs, k, highlight), piece(cs[0], 0 == cs.len() - 1, highlight)),
    decreases k,
{
    let first = piece(cs[0], 0 == cs.len() - 1, highlight);
    if k == 1 {
        assert(pieces(cs, 0, highlight) =~= Seq::<char>::empty());
        assert(pieces(cs, 1, highlight) =~= first);
        assert(pieces(cs, 1, highlight).take(first.len() as int) =~= first);
    } else {
        lemma_pieces_start_with_first(cs, k - 1, highlight);
        let prev = pieces(cs, k - 1, highlight);
        let whole = pieces(cs, k, highlight);
        assert(whole =~= prev + ((if k > 1 {
            seq!['/']
        } else {
            seq![]
        }) + piece(cs[k - 1], k - 1 == cs.len() - 1, highlight)));
        assert(whole.take(first.len() as int) =~= prev.take(first.len() as int));
    }
}

/// Inside a working copy the path is shown from the outermost working-copy
/// root on, that root first and highlighted in its kind's colour (after a `/`
/// where it is a top-level directory); the directories above it are left out.
pub proof fn law_display_starts_at_outermost_root(
    cwd: Seq<char>,
    home: Seq<char>,
    kinds: Seq<Option<VcsType>>,
    root: int,
)
    requires
        0 <= root < components(cwd).len(),
        kind_at(kinds, root) is Some,
        forall|j: int| 0 <= j < root ==> kind_at(kinds, j) is None,
    ensures
        has_prefix(
            display_text(cwd, home, kinds),
            (if root == 0 {
                seq!['/']
            } else {
                seq![]
            }) + ansi::BOLD@ + ansi::spec_fg_for_vcs(kind_at(kinds, root)->0)@ + components(
                cwd,
            )[root] + ansi::RESET@ + ansi::GREEN@,
        ),
{
    let cs = marked_components(cwd, kinds);
    lemma_first_marked(cs, 0);
    let fm = first_marked(cs, 0);
    if fm < root {
        assert(cs[fm].1 == kind_at(kinds, fm));
    }
    if fm > root {
        assert(cs[root].1 == kind_at(kinds, root));
    }
    assert(fm == root);
    let tail = cs.skip(root);
    lemma_pieces_start_with_first(tail, tail.len() as int, true);
    assert(tail[0] == cs[root]);
    assert(cs[root] == (components(cwd)[root], kind_at(kinds, root)));
    let first = piece(tail[0], 0 == tail.len() - 1, true);
    assert(first == ansi::BOLD@ + ansi::spec_fg_for_vcs(kind_at(kinds, root)->0)@ + components(
        cwd,
    )[root] + ansi::RESET@ + ansi::GREEN@);
    let lead = if root == 0 {
        seq!['/']
    } else {
        seq![]
    };
    let text = components_text(tail, true, root == 0);
    let p = pieces(tail, tail.len() as int, true);
    assert(text == lead + p);
    assert(display_text(cwd, home, kinds) == text);
    assert(p.take(first.len() as int) == first);
    assert(text.take((lead + first).len() as int) =~= lead + p.take(first.len() as int));
    let target = (if root == 0 {
        seq!['/']
    } else {
        seq![]
    }) + ansi::BOLD@ + ansi::spec_fg_for_vcs(kind_at(kinds, root)->0)@ + components(cwd)[root]
        + ansi::RESET@ + ansi::GREEN@;
    assert(target =~= lead + first);
    assert(has_prefix(text, target));
}

/// Outside the home directory and outside any working copy, the path is
/// shown as an absolute path: it starts with `/`, and it has one `/` before
/// each component (just `/` where there is none).
pub proof fn law_outside_home_shown_absolute(
    cwd: Seq<char>,
    home: Seq<char>,
    kinds: Seq<Option<VcsType>>,
)
    requires
        forall|i: int| 0 <= i < components(cwd).len() ==> kind_at(kinds, i) is None,
        !under_home(cwd, home),
    ensures
        display_text(cwd, home, kinds).len() > 0,
        display_text(cwd, home, kinds)[0] == '/',
        components(cwd).len() == 0 ==> display_text(cwd, home, kinds) == seq!['/'],
        components(cwd).len() > 0 ==> display_text(cwd, home, kinds) == seq!['/'] + pieces(
            marked_components(cwd, kinds),
            components(cwd).len() as int,
            false,
        ),
{
    let cs = marked_components(cwd, kinds);
    lemma_first_marked(cs, 0);
    if first_marked(cs, 0) < cs.len() {
        let r = first_marked(cs, 0);
        assert(cs[r].1 == kind_at(kinds, r));
    }
    if cwd == seq!['/'] {
        assert(cwd.drop_first() =~= Seq::<char>::empty());
        assert(components_from(Seq::<char>::empty(), Seq::<char>::empty()).len() == 0);
        assert(components(cwd).len() == 0);
    } else {
        if cs.len() == 0 {
            assert(pieces(cs, 0, false) =~= Seq::<char>::empty());
            assert(display_text(cwd, home, kinds) =~= seq!['/']);
        }
    }
}

/// The names as the path shows them: the last in full, any other abbreviated.
pub open spec fn abbreviated(names: Seq<Seq<char>>) -> Seq<Seq<char>> {
    Seq::new(
        names.len(),
        |i: int|
            if i == names.len() - 1 {
                names[i]
            } else {
                names[i].take(truncation_len(names[i]))
            },
    )
}

/// The names of a list of marked components.
pub open spec fn view_names(cs: Seq<(Seq<char>, Option<VcsType>)>) -> Seq<Seq<char>> {
    Seq::new(cs.len(), |i: int| cs[i].0)
}

proof fn lemma_pieces_joined(cs: Seq<(Seq<char>, Option<VcsType>)>, k: int)
    requires
        0 <= k <= cs.len(),
    ensures
        pieces(cs, k, false) == joined(abbreviated(view_names(cs)), k),
    decreases k,
{
    if k > 0 {
        lemma_pieces_joined(cs, k - 1);
    }
}

/// Outside the home directory and outside any working copy, the shown path
/// is the absolute path (as `join_prefix` writes it) of the abbreviated
/// components: `/usr/local/bin` shows as `/u/l/bin`.
pub proof fn law_outside_home_is_joined_abbreviation(
    cwd: Seq<char>,
    home: Seq<char>,
    kinds: Seq<Option<VcsType>>,
)
    requires
        forall|i: int| 0 <= i < components(cwd).len() ==> kind_at(kinds, i) is None,
        !under_home(cwd, home),
    ensures
        display_text(cwd, home, kinds) == seq!['/'] + joined(
            abbreviated(components(cwd)),
            components(cwd).len() as int,
        ),
{
    law_outside_home_shown_absolute(cwd, home, kinds);
    let cs = marked_components(cwd, kinds);
    lemma_pieces_joined(cs, cs.len() as int);
    assert(view_names(cs) =~= components(cwd));
    if components(cwd).len() == 0 {
        assert(joined(abbreviated(components(cwd)), 0) =~= Seq::<char>::empty());
        assert(seq!['/'] + Seq::<char>::empty() =~= seq!['/']);
    }
}

/// An intermediate component is abbreviated to its first character, or its
/// first two where it starts with `.` and has two; nothing else is kept.
pub proof fn law_truncation(name: Seq<char>)
    ensures
        has_prefix(name, name.take(truncation_len(name))),
        name.len() == 0 ==> name.take(truncation_len(name)).len() == 0,
        name.len() > 0 && name[0] != '.' ==> name.take(truncation_len(name)) == seq![name[0]],
        name.len() >= 2 && name[0] == '.' ==> name.take(truncation_len(name)) == seq![
            '.',
            name[1],
        ],
        name.len() == 1 ==> name.take(truncation_len(name)) == name,
{
    if name.len() > 0 && name[0] != '.' {
        assert(name.take(1) =~= seq![name[0]]);
    }
    if name.len() >= 2 && name[0] == '.' {
        assert(name.take(2) =~= seq!['.', name[1]]);
    }
    if name.len() == 1 {
        assert(name.take(1) =~= name);
    }
    assert(name.take(truncation_len(name)).take(truncation_len(name)) =~= name.take(
        truncation_len(name),
    ));
}

/// Below the home directory and outside any working copy, the shown path is
/// `~`, then, where the directory lies deeper than home, `/` and the
/// abbreviated components below home joined by `/`: `/home/me/dev/foo/bar`
/// with home `/home/me` shows as `~/d/f/bar`.
pub proof fn law_below_home_is_tilde_and_rest(
    cwd: Seq<char>,
    home: Seq<char>,
    kinds: Seq<Option<VcsType>>,
)
    requires
        forall|i: int| 0 <= i < components(cwd).len() ==> kind_at(kinds, i) is None,
        under_home(cwd, home),
        components(home).len() > 0,
    ensures
        ({
            let n = components(cwd).len() as int;
            let h = components(home).len() as int;
            display_text(cwd, home, kinds) == seq!['~'] + if n > h {
                seq!['/'] + joined(abbreviated(components(cwd).skip(h)), n - h)
            } else {
                seq![]
            }
        }),
{
    let cs = marked_components(cwd, kinds);
    lemma_first_marked(cs, 0);
    if first_marked(cs, 0) < cs.len() {
        let r = first_marked(cs, 0);
        assert(cs[r].1 == kind_at(kinds, r));
    }
    let n = cs.len() as int;
    let h = components(home).len() as int;
    if n > h {
        let tail = cs.skip(h);
        lemma_pieces_joined(tail, tail.len() as int);
        assert(view_names(tail) =~= components(cwd).skip(h));
    }
}

/// Whether `s` holds no two `/` in a row and does not end with `/`.
pub open spec fn slashes_single_and_inner(s: Seq<char>) -> bool {
    &&& forall|i: int| 0 <= i < s.len() - 1 ==> !(s[i] == '/' && #[trigger] s[i + 1] == '/')
    &&& (s.len() > 0 ==> s.last() != '/')
}

proof fn lemma_joined_front(x: Seq<char>, rest: Seq<Seq<char>>, k: int)
    requires
        1 <= k <= rest.len(),
    ensures
        joined(seq![x] + rest, k + 1) == x + seq!['/'] + joined(rest, k),
    decreases k,
{
    let all = seq![x] + rest;
    assert(all[k] == rest[k - 1]);
    if k == 1 {
        assert(all[0] == x);
        assert(joined(all, 0) =~= Seq::<char>::empty());
        assert(joined(rest, 0) =~= Seq::<char>::empty());
        assert(joined(all, 1) =~= x);
        assert(joined(rest, 1) =~= rest[0]);
    } else {
        lemma_joined_front(x, rest, k - 1);
    }
}

proof fn lemma_components_join_back(s: Seq<char>, cur: Seq<char>)
    requires
        forall|i: int| 0 <= i < cur.len() ==> cur[i] != '/',
        slashes_single_and_inner(s),
        cur.len() > 0 || s.len() == 0 || s[0] != '/',
    ensures
        joined(components_from(s, cur), components_from(s, cur).len() as int) == cur + s,
    decreases s.len(),
{
    if s.len() == 0 {
        if cur.len() > 0 {
            assert(joined(seq![cur], 0) =~= Seq::<char>::empty());
            assert(joined(seq![cur], 1) =~= cur);
        }
        assert(cur + s =~= cur);
    } else {
        let t = s.drop_first();
        assert(slashes_single_and_inner(t)) by {
            assert forall|i: int| 0 <= i < t.len() - 1 implies !(t[i] == '/' && #[trigger] t[i
                + 1] == '/') by {
                assert(t[i] == s[i + 1] && t[i + 1] == s[i + 2]);
            }
            if t.len() > 0 {
                assert(t.last() == s.last());
            }
        }
        if s[0] == '/' {
            assert(t.len() > 0);
            assert(t[0] == s[1]);
            assert(t[0] != '/');
            lemma_components_join_back(t, seq![]);
            let l = components_from(t, seq![]);
            assert(Seq::<char>::empty() + t =~= t);
            assert(l.len() > 0) by {
                if l.len() == 0 {
                    assert(joined(l, 0) =~= Seq::<char>::empty());
                }
            }
            lemma_joined_front(cur, l, l.len() as int);
            assert(components_from(s, cur) == seq![cur] + l);
            assert(cur + s =~= cur + seq!['/'] + t);
        } else {
            let c2 = cur.push(s[0]);
            assert forall|i: int| 0 <= i < c2.len() implies c2[i] != '/' by {
                if i < cur.len() {
                    assert(c2[i] == cur[i]);
                }
            }
            lemma_components_join_back(t, c2);
            assert(c2 + t =~= cur + s);
        }
    }
}

/// An absolute path written with single `/`s and none at the end is the
/// path that `join_prefix` makes of all its components: the last of the
/// `prefix_paths` is the directory itself.
pub proof fn law_components_join_back_to_path(cwd: Seq<char>)
    requires
        cwd.len() >= 2,
        cwd[0] == '/',
        slashes_single_and_inner(cwd),
    ensures
        seq!['/'] + joined(components(cwd), components(cwd).len() as int) == cwd,
{
    let t = cwd.drop_first();
    assert(t[0] == cwd[1]);
    assert(cwd[1] != '/') by {
        assert(!(cwd[0] == '/' && cwd[1] == '/'));
    }
    assert(slashes_single_and_inner(t)) by {
        assert forall|i: int| 0 <= i < t.len() - 1 implies !(t[i] == '/' && #[trigger] t[i + 1]
            == '/') by {
            assert(t[i] == cwd[i + 1] && t[i + 1] == cwd[i + 2]);
        }
        assert(t.last() == cwd.last());
    }
    lemma_components_join_back(t, seq![]);
    assert(components(cwd) == Seq::<Seq<char>>::empty() + components_from(t, seq![]));
    assert(Seq::<Seq<char>>::empty() + components_from(t, seq![]) =~= components_from(t, seq![]));
    assert(Seq::<char>::empty() + t =~= t);
    assert(seq!['/'] + t =~= cwd);
}

} // verus!

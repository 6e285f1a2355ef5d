//! Composing the prompt: user and host, virtual environment, working
//! directory, exit status and the shell's end marker.
use vstd::prelude::*;

use crate::ansi;
use crate::host::{highlighted, short_hostname, spec_short_hostname, write_highlighted};
use crate::path::{display_defined, display_path, display_text, has_suffix};
use crate::text::{push_char, str_eq};
use crate::vcs::VcsType;
use crate::venv::{basename, spec_basename};

verus! {

/// User names for which the prompt shows no `user@` (configured here; none).
fn hidden_users() -> (names: Vec<&'static str>)
    ensures
        names@.len() == 0,
{
    Vec::new()
}

/// Host names for which the prompt shows neither user nor host (configured
/// here; none).
fn hidden_hostnames() -> (names: Vec<&'static str>)
    ensures
        names@.len() == 0,
{
    Vec::new()
}

/// What the prompt is made of.
pub struct Options<'a> {
    pub cwd: &'a str,
    pub home: &'a str,
    pub hostname: &'a str,
    pub user: &'a str,
    pub virtual_env: Option<&'a str>,
    pub status: u8,
    pub shell: Shell,
}

/// The shell the prompt is written for.
#[derive(Clone, Copy, Debug, PartialEq, Eq, Structural)]
pub enum Shell {
    Zsh,
    Bash,
    Fish,
}

/// The decimal digit for `d` (below 10).
pub open spec fn digit_char(d: int) -> char {
    (d + 48) as char
}

/// `n` in decimal, without leading zeros.
pub open spec fn decimal(n: nat) -> Seq<char>
    decreases n,
{
    if n < 10 {
        seq![digit_char(n as int)]
    } else {
        decimal(n / 10).push(digit_char((n % 10) as int))
    }
}

/// Appends the decimal digit `d`.
fn push_digit(out: &mut String, d: u8)
    requires
        d < 10,
    ensures
        final(out)@ == old(out)@.push(digit_char(d as int)),
{
    let c = (d + 48) as char;
    push_char(out, c);
}

/// Appends `n` in decimal.
pub fn write_decimal(out: &mut String, n: u8)
    ensures
        final(out)@ == old(out)@ + decimal(n as nat),
{
    let ghost start = out@;
    if n >= 100 {
        push_digit(out, n / 100);
        push_digit(out, (n / 10) % 10);
        push_digit(out, n % 10);
        assert((n / 10) / 10 == n / 100);
        assert(decimal((n / 100) as nat) =~= seq![digit_char((n / 100) as int)]);
        assert(decimal((n / 10) as nat) =~= decimal((n / 100) as nat).push(
            digit_char(((n / 10) % 10) as int),
        ));
        assert(decimal(n as nat) =~= decimal((n / 10) as nat).push(digit_char((n % 10) as int)));
        assert(out@ =~= start + decimal(n as nat));
    } else if n >= 10 {
        push_digit(out, n / 10);
        push_digit(out, n % 10);
        assert(decimal((n / 10) as nat) =~= seq![digit_char((n / 10) as int)]);
        assert(decimal(n as nat) =~= decimal((n / 10) as nat).push(digit_char((n % 10) as int)));
        assert(out@ =~= start + decimal(n as nat));
    } else {
        push_digit(out, n);
        assert(out@ =~= start + decimal(n as nat));
    }
}

/// Whether `name` is one of `names`.
pub open spec fn listed(names: Seq<&str>, name: Seq<char>) -> bool {
    exists|i: int| 0 <= i < names.len() && (#[trigger] names[i])@ == name
}

fn is_listed(names: &[&str], name: &str) -> (r: bool)
    ensures
        r == listed(names@, name@),
{
    let mut i: usize = 0;
    while i < names.len()
        invariant
            i <= names@.len(),
            forall|j: int| 0 <= j < i ==> (#[trigger] names@[j])@ != name@,
        decreases names@.len() - i,
    {
        if str_eq(names[i], name) {
            return true;
        }
        i = i + 1;
    }
    false
}

/// A user or host name is shown where it is not empty and not hidden.
pub open spec fn shown(name: Seq<char>, hidden: Seq<&str>) -> bool {
    name.len() > 0 && !listed(hidden, name)
}

/// Whether the prompt shows `user@`.
pub fn should_show_user(user: &str, hidden_users: &[&str]) -> (r: bool)
    ensures
        r == shown(user@, hidden_users@),
{
    user.unicode_len() > 0 && !is_listed(hidden_users, user)
}

/// Whether the prompt shows the user and host at all.
pub fn should_show_hostname(hostname: &str, hidden_hostnames: &[&str]) -> (r: bool)
    ensures
        r == shown(hostname@, hidden_hostnames@),
{
    hostname.unicode_len() > 0 && !is_listed(hidden_hostnames, hostname)
}

pub open spec fn spec_is_root(user: Seq<char>) -> bool {
    user == "root"@
}

/// Whether `user` is `root`.
pub fn is_root(user: &str) -> (r: bool)
    ensures
        r == spec_is_root(user@),
{
    str_eq(user, "root")
}

/// The colour of the user name: light red for root, light green otherwise.
pub open spec fn spec_user_color(user: Seq<char>) -> &'static str {
    if spec_is_root(user) {
        ansi::LIGHT_RED
    } else {
        ansi::LIGHT_GREEN
    }
}

/// The colour of the user name.
pub fn user_color(user: &str) -> (color: &'static str)
    ensures
        color == spec_user_color(user@),
{
    if is_root(user) {
        ansi::LIGHT_RED
    } else {
        ansi::LIGHT_GREEN
    }
}

/// The end of the prompt: a bold red `#` for root; otherwise a bold blue `%`
/// for zsh, a green `$` for bash, a bold blue `>` for fish; then a space.
pub open spec fn end_marker(shell: Shell, root: bool) -> Seq<char> {
    if root {
        ansi::BOLD@ + ansi::RED@ + seq!['#'] + ansi::RESET@ + seq![' ']
    } else {
        match shell {
            Shell::Zsh => ansi::BOLD@ + ansi::BLUE@ + seq!['%'] + ansi::RESET@ + seq![' '],
            Shell::Bash => ansi::GREEN@ + seq!['$'] + ansi::RESET@ + seq![' '],
            Shell::Fish => ansi::BOLD@ + ansi::BLUE@ + seq!['>'] + ansi::RESET@ + seq![' '],
        }
    }
}

/// Appends the end marker of the prompt.
pub fn write_end_marker(out: &mut String, shell: Shell, root: bool)
    ensures
        final(out)@ == old(out)@ + end_marker(shell, root),
{
    let ghost start = out@;
    if root {
        out.append(ansi::BOLD);
        out.append(ansi::RED);
        push_char(out, '#');
        out.append(ansi::RESET);
        push_char(out, ' ');
        assert(out@ =~= start + end_marker(shell, root));
        return ;
    }
    match shell {
        Shell::Zsh => {
            out.append(ansi::BOLD);
            out.append(ansi::BLUE);
            push_char(out, '%');
            out.append(ansi::RESET);
        },
        Shell::Bash => {
            out.append(ansi::GREEN);
            push_char(out, '$');
            out.append(ansi::RESET);
        },
        Shell::Fish => {
            out.append(ansi::BOLD);
            out.append(ansi::BLUE);
            push_char(out, '>');
            out.append(ansi::RESET);
        },
    }
    push_char(out, ' ');
    assert(out@ =~= start + end_marker(shell, root));
}

/// The user and host, where the host is shown: `user@` where the user is shown
/// too, then the short host name with its digits underlined, then a space.
pub open spec fn identity_text(options: Options, hidden_users: Seq<&str>, hidden_hostnames: Seq<&str>) -> Seq<char> {
    if shown(options.hostname@, hidden_hostnames) {
        (if shown(options.user@, hidden_users) {
            spec_user_color(options.user@)@ + options.user@ + ansi::RESET@ + ansi::WHITE@ + seq!['@']
        } else {
            seq![]
        }) + highlighted(spec_short_hostname(options.hostname@)) + ansi::RESET@ + seq![' ']
    } else {
        seq![]
    }
}

/// The name of the virtual environment in yellow parentheses, where there is one.
pub open spec fn venv_text(virtual_env: Option<&str>) -> Seq<char> {
    match virtual_env {
        Some(v) if spec_basename(v@).len() > 0 => ansi::YELLOW@ + seq!['('] + spec_basename(v@)
            + seq![')'] + ansi::RESET@ + seq![' '],
        _ => seq![],
    }
}

/// A nonzero exit status in red brackets.
pub open spec fn status_text(status: u8) -> Seq<char> {
    if status != 0 {
        seq!['['] + ansi::RED@ + decimal(status as nat) + ansi::RESET@ + seq![']', ' ']
    } else {
        seq![]
    }
}

/// The whole prompt, given the working-copy kind found at each component of
/// the working directory.
pub open spec fn prompt_text(
    options: Options,
    kinds: Seq<Option<VcsType>>,
    hidden_users: Seq<&str>,
    hidden_hostnames: Seq<&str>,
) -> Seq<char> {
    ansi::WHITE@ + identity_text(options, hidden_users, hidden_hostnames) + venv_text(
        options.virtual_env,
    ) + ansi::GREEN@ + display_text(options.cwd@, options.home@, kinds) + ansi::RESET@ + seq![' ']
        + status_text(options.status) + end_marker(options.shell, spec_is_root(options.user@))
}

/// Appends the user and host part of the prompt.
fn write_identity(out: &mut String, options: &Options<'_>, hidden_users: &[&str], hidden_hostnames: &[&str])
    ensures
        final(out)@ == old(out)@ + identity_text(*options, hidden_users@, hidden_hostnames@),
{
    let ghost start = out@;
    if should_show_hostname(options.hostname, hidden_hostnames) {
        let short_hostname = short_hostname(options.hostname);
        if should_show_user(options.user, hidden_users) {
            out.append(user_color(options.user));
            out.append(options.user);
            out.append(ansi::RESET);
            out.append(ansi::WHITE);
            push_char(out, '@');
        }
        let _ = write_highlighted(out, short_hostname);
        out.append(ansi::RESET);
        push_char(out, ' ');
    }
    assert(out@ =~= start + identity_text(*options, hidden_users@, hidden_hostnames@));
}

/// Appends the virtual-environment part of the prompt.
fn write_venv(out: &mut String, virtual_env: Option<&str>)
    ensures
        final(out)@ == old(out)@ + venv_text(virtual_env),
{
    let ghost start = out@;
    if let Some(virtual_env) = virtual_env {
        let name = basename(virtual_env);
        if name.unicode_len() > 0 {
            out.append(ansi::YELLOW);
            push_char(out, '(');
            out.append(name);
            push_char(out, ')');
            out.append(ansi::RESET);
            push_char(out, ' ');
        }
    }
    assert(out@ =~= start + venv_text(virtual_env));
}

/// Appends the exit-status part of the prompt.
fn write_status(out: &mut String, status: u8)
    ensures
        final(out)@ == old(out)@ + status_text(status),
{
    let ghost start = out@;
    if status != 0 {
        push_char(out, '[');
        out.append(ansi::RED);
        write_decimal(out, status);
        out.append(ansi::RESET);
        push_char(out, ']');
        push_char(out, ' ');
    }
    assert(out@ =~= start + status_text(status));
}

/// The prompt, hiding the given users and hosts, given the working-copy kind
/// found at each component of the working directory.
pub fn render_with_hidden(
    options: Options<'_>,
    vcs_kinds: &[Option<VcsType>],
    hidden_users: &[&str],
    hidden_hostnames: &[&str],
) -> (prompt: String)
    requires
        display_defined(options.cwd@, options.home@, vcs_kinds@),
    ensures
        prompt@ == prompt_text(options, vcs_kinds@, hidden_users@, hidden_hostnames@),
{
    let mut out = String::new();
    out.append(ansi::WHITE);
    write_identity(&mut out, &options, hidden_users, hidden_hostnames);
    write_venv(&mut out, options.virtual_env);
    out.append(ansi::GREEN);
    let shown_path = display_path(options.cwd, options.home, vcs_kinds);
    out.append(shown_path.as_str());
    out.append(ansi::RESET);
    push_char(&mut out, ' ');
    write_status(&mut out, options.status);
    write_end_marker(&mut out, options.shell, is_root(options.user));
    assert(out@ =~= prompt_text(options, vcs_kinds@, hidden_users@, hidden_hostnames@));
    out
}

/// The prompt, with the users and hosts hidden that this build hides (none).
pub fn render(options: Options<'_>, vcs_kinds: &[Option<VcsType>]) -> (prompt: String)
    requires
        display_defined(options.cwd@, options.home@, vcs_kinds@),
    ensures
        prompt@ == prompt_text(options, vcs_kinds@, Seq::empty(), Seq::empty()),
{
    let users = hidden_users();
    let hosts = hidden_hostnames();
    let r = render_with_hidden(options, vcs_kinds, users.as_slice(), hosts.as_slice());
    assert(users@ =~= Seq::<&str>::empty());
    assert(hosts@ =~= Seq::<&str>::empty());
    r
}

/// Every prompt ends with the end marker of its shell, and for root with
/// the bold red `#` whatever the shell.
pub proof fn law_prompt_ends_with_marker(
    options: Options,
    kinds: Seq<Option<VcsType>>,
    hidden_users: Seq<&str>,
    hidden_hostnames: Seq<&str>,
)
    ensures
        has_suffix(
            prompt_text(options, kinds, hidden_users, hidden_hostnames),
            end_marker(options.shell, spec_is_root(options.user@)),
        ),
        spec_is_root(options.user@) ==> has_suffix(
            prompt_text(options, kinds, hidden_users, hidden_hostnames),
            ansi::BOLD@ + ansi::RED@ + seq!['#'] + ansi::RESET@ + seq![' '],
        ),
{
    let whole = prompt_text(options, kinds, hidden_users, hidden_hostnames);
    let marker = end_marker(options.shell, spec_is_root(options.user@));
    let front = ansi::WHITE@ + identity_text(options, hidden_users, hidden_hostnames) + venv_text(
        options.virtual_env,
    ) + ansi::GREEN@ + display_text(options.cwd@, options.home@, kinds) + ansi::RESET@ + seq![' ']
        + status_text(options.status);
    assert(whole =~= front + marker);
    assert(whole.skip(front.len() as int) =~= marker);
}

/// Where the host is hidden (or unknown), so is the user: the prompt starts
/// with the virtual environment or the path, right after the white colour.
pub proof fn law_hidden_host_hides_user(
    options: Options,
    kinds: Seq<Option<VcsType>>,
    hidden_users: Seq<&str>,
    hidden_hostnames: Seq<&str>,
)
    requires
        !shown(options.hostname@, hidden_hostnames),
    ensures
        prompt_text(options, kinds, hidden_users, hidden_hostnames) == ansi::WHITE@ + venv_text(
            options.virtual_env,
        ) + ansi::GREEN@ + display_text(options.cwd@, options.home@, kinds) + ansi::RESET@
            + seq![' '] + status_text(options.status) + end_marker(
            options.shell,
            spec_is_root(options.user@),
        ),
{
    assert(identity_text(options, hidden_users, hidden_hostnames) =~= Seq::<char>::empty());
    assert(prompt_text(options, kinds, hidden_users, hidden_hostnames) =~= ansi::WHITE@ + venv_text(
        options.virtual_env,
    ) + ansi::GREEN@ + display_text(options.cwd@, options.home@, kinds) + ansi::RESET@ + seq![' ']
        + status_text(options.status) + end_marker(options.shell, spec_is_root(options.user@)));
}

/// A user listed among the hidden users is never shown: the prompt holds no
/// `user@` part, exactly as for an empty user name; the host is shown as
/// before.
pub proof fn law_hidden_user_not_shown(
    options: Options,
    nameless: Options,
    kinds: Seq<Option<VcsType>>,
    hidden_users: Seq<&str>,
    hidden_hostnames: Seq<&str>,
    i: int,
)
    requires
        0 <= i < hidden_users.len(),
        hidden_users[i]@ == options.user@,
        nameless.user@.len() == 0,
        nameless.hostname@ == options.hostname@,
    ensures
        identity_text(options, hidden_users, hidden_hostnames) == identity_text(
            nameless,
            hidden_users,
            hidden_hostnames,
        ),
        identity_text(options, hidden_users, hidden_hostnames) == if shown(
            options.hostname@,
            hidden_hostnames,
        ) {
            highlighted(spec_short_hostname(options.hostname@)) + ansi::RESET@ + seq![' ']
        } else {
            seq![]
        },
{
    assert(listed(hidden_users, options.user@));
    assert(identity_text(options, hidden_users, hidden_hostnames) =~= if shown(
        options.hostname@,
        hidden_hostnames,
    ) {
        highlighted(spec_short_hostname(options.hostname@)) + ansi::RESET@ + seq![' ']
    } else {
        seq![]
    });
    assert(identity_text(nameless, hidden_users, hidden_hostnames) =~= if shown(
        options.hostname@,
        hidden_hostnames,
    ) {
        highlighted(spec_short_hostname(options.hostname@)) + ansi::RESET@ + seq![' ']
    } else {
        seq![]
    });
}

/// A user name that is neither empty nor hidden is shown, on a shown host, as
/// `user@` before the host: in light red for `root`, light green otherwise.
pub proof fn law_visible_user_shown(
    options: Options,
    hidden_users: Seq<&str>,
    hidden_hostnames: Seq<&str>,
)
    requires
        options.user@.len() > 0,
        forall|i: int| 0 <= i < hidden_users.len() ==> hidden_users[i]@ != options.user@,
        options.hostname@.len() > 0,
        forall|i: int| 0 <= i < hidden_hostnames.len() ==> hidden_hostnames[i]@ != options.hostname@,
    ensures
        identity_text(options, hidden_users, hidden_hostnames) == (if options.user@ == "root"@ {
            ansi::LIGHT_RED@
        } else {
            ansi::LIGHT_GREEN@
        }) + options.user@ + ansi::RESET@ + ansi::WHITE@ + seq!['@'] + highlighted(
            spec_short_hostname(options.hostname@),
        ) + ansi::RESET@ + seq![' '],
{
    assert(!listed(hidden_users, options.user@));
    assert(!listed(hidden_hostnames, options.hostname@));
}

/// A host name listed among the hidden hosts hides the whole user and host part.
pub proof fn law_hidden_host_not_shown(
    options: Options,
    hidden_users: Seq<&str>,
    hidden_hostnames: Seq<&str>,
    i: int,
)
    requires
        0 <= i < hidden_hostnames.len(),
        hidden_hostnames[i]@ == options.hostname@,
    ensures
        identity_text(options, hidden_users, hidden_hostnames) == Seq::<char>::empty(),
{
    assert(listed(hidden_hostnames, options.hostname@));
}

/// A nonzero exit status adds `[status]` in red, and nothing else, just
/// before the end marker; a zero status adds nothing.
pub proof fn law_status_shown_only_when_nonzero(
    ok: Options,
    failed: Options,
    kinds: Seq<Option<VcsType>>,
    hidden_users: Seq<&str>,
    hidden_hostnames: Seq<&str>,
)
    requires
        ok.status == 0,
        failed.status != 0,
        ok.cwd == failed.cwd,
        ok.home == failed.home,
        ok.hostname == failed.hostname,
        ok.user == failed.user,
        ok.virtual_env == failed.virtual_env,
        ok.shell == failed.shell,
    ensures
        ({
            let base = prompt_text(ok, kinds, hidden_users, hidden_hostnames);
            let marker = end_marker(ok.shell, spec_is_root(ok.user@));
            &&& has_suffix(base, marker)
            &&& prompt_text(failed, kinds, hidden_users, hidden_hostnames) == base.take(
                base.len() - marker.len(),
            ) + seq!['['] + ansi::RED@ + decimal(failed.status as nat) + ansi::RESET@ + seq![
                ']',
                ' ',
            ] + marker
        }),
{
    let marker = end_marker(ok.shell, spec_is_root(ok.user@));
    let front = ansi::WHITE@ + identity_text(ok, hidden_users, hidden_hostnames) + venv_text(
        ok.virtual_env,
    ) + ansi::GREEN@ + display_text(ok.cwd@, ok.home@, kinds) + ansi::RESET@ + seq![' '];
    let base = prompt_text(ok, kinds, hidden_users, hidden_hostnames);
    assert(status_text(0) =~= Seq::<char>::empty());
    assert(base =~= front + marker);
    assert(base.skip(front.len() as int) =~= marker);
    assert(base.take(base.len() - marker.len()) =~= front);
    assert(identity_text(failed, hidden_users, hidden_hostnames) == identity_text(
        ok,
        hidden_users,
        hidden_hostnames,
    ));
    assert(prompt_text(failed, kinds, hidden_users, hidden_hostnames) =~= front + seq!['[']
        + ansi::RED@ + decimal(failed.status as nat) + ansi::RESET@ + seq![']', ' '] + marker);
}

/// An active virtual environment with a name adds `(name)` in yellow, and
/// nothing else, right after the user and host part; one whose name is
/// empty adds nothing.
pub proof fn law_venv_shown_after_identity(
    plain: Options,
    with_venv: Options,
    venv: &str,
    kinds: Seq<Option<VcsType>>,
    hidden_users: Seq<&str>,
    hidden_hostnames: Seq<&str>,
)
    requires
        plain.virtual_env is None,
        with_venv.virtual_env == Some(venv),
        plain.cwd == with_venv.cwd,
        plain.home == with_venv.home,
        plain.hostname == with_venv.hostname,
        plain.user == with_venv.user,
        plain.status == with_venv.status,
        plain.shell == with_venv.shell,
    ensures
        ({
            let base = prompt_text(plain, kinds, hidden_users, hidden_hostnames);
            let k = (ansi::WHITE@.len() + identity_text(plain, hidden_users, hidden_hostnames).len()) as int;
            let name = spec_basename(venv@);
            prompt_text(with_venv, kinds, hidden_users, hidden_hostnames) == if name.len() > 0 {
                base.take(k) + ansi::YELLOW@ + seq!['('] + name + seq![')'] + ansi::RESET@ + seq![
                    ' ',
                ] + base.skip(k)
            } else {
                base
            }
        }),
{
    let head = ansi::WHITE@ + identity_text(plain, hidden_users, hidden_hostnames);
    let tail = ansi::GREEN@ + display_text(plain.cwd@, plain.home@, kinds) + ansi::RESET@ + seq![
        ' ',
    ] + status_text(plain.status) + end_marker(plain.shell, spec_is_root(plain.user@));
    let base = prompt_text(plain, kinds, hidden_users, hidden_hostnames);
    assert(venv_text(plain.virtual_env) =~= Seq::<char>::empty());
    assert(base =~= head + tail);
    assert(base.take(head.len() as int) =~= head);
    assert(base.skip(head.len() as int) =~= tail);
    assert(identity_text(with_venv, hidden_users, hidden_hostnames) == identity_text(
        plain,
        hidden_users,
        hidden_hostnames,
    ));
    assert(prompt_text(with_venv, kinds, hidden_users, hidden_hostnames) =~= head + venv_text(
        with_venv.virtual_env,
    ) + tail);
}

} // verus!

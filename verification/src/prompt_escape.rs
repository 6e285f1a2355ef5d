//! Marking the ANSI colour sequences of a prompt as zero-width for the shell
//! that displays it (`%{..%}` for zsh, `\[..\]` for bash).
use vstd::prelude::*;

use crate::text::{chars_of, is_digit, push_char, push_range};

verus! {

/// How the finished prompt is escaped for the shell that prints it.
#[derive(Clone, Copy, Debug, PartialEq, Eq, Structural)]
pub enum PromptEscape {
    /// No escaping: the prompt as rendered.
    Raw,
    Zsh,
    Bash,
    Fish,
}

/// A character that may stand between `ESC [` and the final `m` of a
/// select-graphic-rendition sequence.
pub open spec fn is_sgr_param(c: char) -> bool {
    is_digit(c) || c == ';'
}

/// The end (one past the `m`) of the SGR sequence whose parameters continue
/// at `i`, if the parameters end in an `m` before anything else.
pub open spec fn sgr_end(s: Seq<char>, i: int) -> Option<int>
    decreases s.len() - i,
{
    if i < 0 || i >= s.len() {
        None
    } else if s[i] == 'm' {
        Some(i + 1)
    } else if is_sgr_param(s[i]) {
        sgr_end(s, i + 1)
    } else {
        None
    }
}

pub proof fn lemma_sgr_end_bounds(s: Seq<char>, i: int)
    ensures
        sgr_end(s, i) matches Some(n) ==> 0 <= i < n <= s.len(),
    decreases s.len() - i,
{
    if 0 <= i < s.len() && s[i] != 'm' && is_sgr_param(s[i]) {
        lemma_sgr_end_bounds(s, i + 1);
    }
}

/// Whether `s` starts with the control sequence introducer `ESC [`.
pub open spec fn starts_csi(s: Seq<char>) -> bool {
    s.len() >= 2 && s[0] == '\x1b' && s[1] == '['
}

/// The length of the SGR sequence (`ESC [` digits and `;` then `m`) that
/// starts `s`, if `s` starts with one.
pub open spec fn sgr_len(s: Seq<char>) -> Option<int> {
    if starts_csi(s) {
        sgr_end(s, 2)
    } else {
        None
    }
}

/// A visible character as the shell needs it: zsh reads `%` as a prompt
/// escape, so there it is doubled.
pub open spec fn visible_char(c: char, escape_percent: bool) -> Seq<char> {
    if escape_percent && c == '%' {
        seq!['%', '%']
    } else {
        seq![c]
    }
}

/// What opens a zero-width section: `%{` for zsh, `\[` for bash.
pub open spec fn open_marker(zsh: bool) -> Seq<char> {
    if zsh {
        seq!['%', '{']
    } else {
        seq!['\\', '[']
    }
}

/// What closes a zero-width section: `%}` for zsh, `\]` for bash.
pub open spec fn close_marker(zsh: bool) -> Seq<char> {
    if zsh {
        seq!['%', '}']
    } else {
        seq!['\\', ']']
    }
}

/// `s` with each SGR sequence enclosed in zero-width markers, and, for zsh,
/// each visible `%` doubled. An `ESC [` that does not begin an SGR sequence
/// is kept as visible text.
pub open spec fn wrapped(s: Seq<char>, zsh: bool) -> Seq<char>
    decreases s.len(),
{
    if s.len() == 0 {
        seq![]
    } else if starts_csi(s) {
        proof {
            lemma_sgr_end_bounds(s, 2);
        }
        match sgr_len(s) {
            Some(n) => open_marker(zsh) + s.take(n) + close_marker(zsh) + wrapped(s.skip(n), zsh),
            None => seq!['\x1b', '['] + wrapped(s.skip(2), zsh),
        }
    } else {
        visible_char(s[0], zsh) + wrapped(s.skip(1), zsh)
    }
}

/// The prompt as the shell should receive it.
pub open spec fn spec_apply(prompt: Seq<char>, escape: PromptEscape) -> Seq<char> {
    match escape {
        PromptEscape::Raw => prompt,
        PromptEscape::Zsh => wrapped(prompt, true),
        PromptEscape::Bash => wrapped(prompt, false),
        PromptEscape::Fish => prompt,
    }
}

/// Escapes `prompt` for the shell: zsh and bash get their zero-width markers,
/// fish, which measures escape sequences itself, and `None` get it unchanged.
pub fn apply(prompt: &str, escape: PromptEscape) -> (r: String)
    ensures
        r@ == spec_apply(prompt@, escape),
{
    match escape {
        PromptEscape::Raw => prompt.to_owned(),
        PromptEscape::Zsh => wrap_and_escape_zsh(prompt),
        PromptEscape::Bash => wrap_bash(prompt),
        PromptEscape::Fish => prompt.to_owned(),
    }
}

fn wrap_and_escape_zsh(prompt: &str) -> (r: String)
    ensures
        r@ == wrapped(prompt@, true),
{
    wrap_ansi(prompt, true)
}

fn wrap_bash(prompt: &str) -> (r: String)
    ensures
        r@ == wrapped(prompt@, false),
{
    wrap_ansi(prompt, false)
}

/// The end of the SGR sequence that starts at `start` in `chars`, if one does.
fn ansi_sgr_len(chars: &Vec<char>, start: usize) -> (r: Option<usize>)
    requires
        start <= chars.len(),
    ensures
        r matches Some(n) ==> sgr_len(chars@.skip(start as int)) == Some(n as int),
        r is None ==> sgr_len(chars@.skip(start as int)) is None,
{
    let ghost t = chars@.skip(start as int);
    let len = chars.len();
    if len - start < 2 || chars[start] != '\x1b' || chars[start + 1] != '[' {
        return None;
    }
    let mut k: usize = 2;
    while start + k < len
        invariant
            t == chars@.skip(start as int),
            len == chars.len(),
            start + 2 <= len,
            2 <= k <= len - start,
            starts_csi(t),
            sgr_end(t, 2) == sgr_end(t, k as int),
        decreases len - start - k,
    {
        let c = chars[start + k];
        assert(t[k as int] == c);
        if c == 'm' {
            return Some(k + 1);
        }
        if !(('0' <= c && c <= '9') || c == ';') {
            return None;
        }
        k = k + 1;
    }
    None
}

/// Appends one visible character, doubling `%` where asked.
fn push_visible(out: &mut String, c: char, escape_percent: bool)
    ensures
        final(out)@ == old(out)@ + visible_char(c, escape_percent),
{
    if escape_percent && c == '%' {
        push_char(out, '%');
        push_char(out, '%');
    } else {
        push_char(out, c);
    }
}

fn wrap_ansi(prompt: &str, zsh: bool) -> (r: String)
    ensures
        r@ == wrapped(prompt@, zsh),
{
    let chars = chars_of(prompt);
    let ghost s = prompt@;
    let len = chars.len();
    let mut out = String::new();
    let mut i: usize = 0;
    assert(s.skip(0) =~= s);
    while i < len
        invariant
            chars@ == s,
            len == chars.len(),
            i <= len,
            wrapped(s, zsh) == out@ + wrapped(s.skip(i as int), zsh),
        decreases len - i,
    {
        let ghost rest = s.skip(i as int);
        let ghost before = out@;
        if i + 1 < len && chars[i] == '\x1b' && chars[i + 1] == '[' {
            assert(starts_csi(rest));
            match ansi_sgr_len(&chars, i) {
                Some(n) => {
                    proof {
                        lemma_sgr_end_bounds(rest, 2);
                    }
                    if zsh {
                        push_char(&mut out, '%');
                        push_char(&mut out, '{');
                    } else {
                        push_char(&mut out, '\\');
                        push_char(&mut out, '[');
                    }
                    push_range(&mut out, &chars, i, i + n);
                    if zsh {
                        push_char(&mut out, '%');
                        push_char(&mut out, '}');
                    } else {
                        push_char(&mut out, '\\');
                        push_char(&mut out, ']');
                    }
                    assert(s.subrange(i as int, i + n) =~= rest.take(n as int));
                    assert(rest.skip(n as int) =~= s.skip(i + n));
                    assert(out@ =~= before + open_marker(zsh) + rest.take(n as int) + close_marker(
                        zsh,
                    ));
                    i = i + n;
                },
                None => {
                    push_char(&mut out, '\x1b');
                    push_char(&mut out, '[');
                    assert(rest.skip(2) =~= s.skip(i + 2));
                    assert(out@ =~= before + seq!['\x1b', '[']);
                    i = i + 2;
                },
            }
        } else {
            assert(!starts_csi(rest));
            assert(rest[0] == s[i as int]);
            push_visible(&mut out, chars[i], zsh);
            assert(rest.skip(1) =~= s.skip(i + 1));
            i = i + 1;
        }
    }
    assert(s.skip(len as int) =~= Seq::<char>::empty());
    assert(out@ =~= out@ + wrapped(s.skip(len as int), zsh));
    out
}

/// `s` with every `%` doubled.
pub open spec fn percent_doubled(s: Seq<char>) -> Seq<char>
    decreases s.len(),
{
    if s.len() == 0 {
        seq![]
    } else {
        visible_char(s[0], true) + percent_doubled(s.skip(1))
    }
}

/// Text without escape sequences passes the bash escaping unchanged.
pub proof fn law_bash_keeps_plain_text(s: Seq<char>)
    requires
        forall|i: int| 0 <= i < s.len() ==> s[i] != '\x1b',
    ensures
        wrapped(s, false) == s,
    decreases s.len(),
{
    if s.len() > 0 {
        assert(!starts_csi(s));
        let t = s.skip(1);
        assert forall|i: int| 0 <= i < t.len() implies t[i] != '\x1b' by {
            assert(t[i] == s[i + 1]);
        }
        law_bash_keeps_plain_text(t);
        assert(s =~= seq![s[0]] + t);
    }
}

/// Text without escape sequences comes out of the zsh escaping with each `%`
/// doubled and nothing else changed.
pub proof fn law_zsh_doubles_percent_in_plain_text(s: Seq<char>)
    requires
        forall|i: int| 0 <= i < s.len() ==> s[i] != '\x1b',
    ensures
        wrapped(s, true) == percent_doubled(s),
    decreases s.len(),
{
    if s.len() > 0 {
        assert(!starts_csi(s));
        let t = s.skip(1);
        assert forall|i: int| 0 <= i < t.len() implies t[i] != '\x1b' by {
            assert(t[i] == s[i + 1]);
        }
        law_zsh_doubles_percent_in_plain_text(t);
    }
}

/// Escaping for the shell only adds: the zero-width markers, and for zsh
/// a second `%`; so the result is never shorter than the prompt.
pub proof fn law_escaping_never_shortens(s: Seq<char>, zsh: bool)
    ensures
        wrapped(s, zsh).len() >= s.len(),
    decreases s.len(),
{
    if s.len() > 0 {
        if starts_csi(s) {
            lemma_sgr_end_bounds(s, 2);
            match sgr_len(s) {
                Some(n) => {
                    law_escaping_never_shortens(s.skip(n), zsh);
                },
                None => {
                    law_escaping_never_shortens(s.skip(2), zsh);
                },
            }
        } else {
            law_escaping_never_shortens(s.skip(1), zsh);
        }
    }
}

/// The text a terminal shows for `s`: `s` without its SGR sequences.
pub open spec fn visible_text(s: Seq<char>) -> Seq<char>
    decreases s.len(),
{
    if s.len() == 0 {
        seq![]
    } else {
        proof {
            lemma_sgr_end_bounds(s, 2);
        }
        match sgr_len(s) {
            Some(n) => visible_text(s.skip(n)),
            None => seq![s[0]] + visible_text(s.skip(1)),
        }
    }
}

/// An SGR sequence in front of `rest` shows nothing.
pub proof fn lemma_sgr_prefix(seq_: Seq<char>, rest: Seq<char>)
    requires
        sgr_len(seq_) == Some(seq_.len() as int),
    ensures
        visible_text(seq_ + rest) == visible_text(rest),
{
    let s = seq_ + rest;
    assert(starts_csi(s));
    lemma_sgr_end_extend(seq_, rest, 2);
    assert(s.skip(seq_.len() as int) =~= rest);
}

proof fn lemma_sgr_end_extend(a: Seq<char>, b: Seq<char>, i: int)
    requires
        0 <= i,
        sgr_end(a, i) matches Some(n) && n == a.len(),
    ensures
        sgr_end(a + b, i) == sgr_end(a, i),
    decreases a.len() - i,
{
    lemma_sgr_end_bounds(a, i);
    assert((a + b)[i] == a[i]);
    if a[i] != 'm' {
        lemma_sgr_end_extend(a, b, i + 1);
    }
}

/// A character other than `ESC` in front of `rest` shows as itself.
pub proof fn lemma_visible_plain_char(c: char, rest: Seq<char>)
    requires
        c != '\x1b',
    ensures
        visible_text(seq![c] + rest) == seq![c] + visible_text(rest),
{
    let s = seq![c] + rest;
    assert(!starts_csi(s));
    assert(s.skip(1) =~= rest);
}

/// The text zsh shows for a prompt: `%{` and `%}` mark zero-width sections
/// and show nothing, `%%` shows `%`.
pub open spec fn zsh_reads(s: Seq<char>) -> Seq<char>
    decreases s.len(),
{
    if s.len() == 0 {
        seq![]
    } else if s.len() >= 2 && s[0] == '%' && s[1] == '%' {
        seq!['%'] + zsh_reads(s.skip(2))
    } else if s.len() >= 2 && s[0] == '%' && (s[1] == '{' || s[1] == '}') {
        zsh_reads(s.skip(2))
    } else {
        seq![s[0]] + zsh_reads(s.skip(1))
    }
}

/// The text bash shows for a prompt: `\[` and `\]` mark zero-width sections
/// and show nothing.
pub open spec fn bash_reads(s: Seq<char>) -> Seq<char>
    decreases s.len(),
{
    if s.len() == 0 {
        seq![]
    } else if s.len() >= 2 && s[0] == '\\' && (s[1] == '[' || s[1] == ']') {
        bash_reads(s.skip(2))
    } else {
        seq![s[0]] + bash_reads(s.skip(1))
    }
}

/// Text with no `%` (for zsh) or no `\` (for bash) reads as itself in front of `rest`.
proof fn lemma_reads_plain_prefix(t: Seq<char>, rest: Seq<char>, zsh: bool)
    requires
        forall|i: int| 0 <= i < t.len() ==> t[i] != (if zsh {
            '%'
        } else {
            '\\'
        }),
    ensures
        zsh ==> zsh_reads(t + rest) == t + zsh_reads(rest),
        !zsh ==> bash_reads(t + rest) == t + bash_reads(rest),
    decreases t.len(),
{
    if t.len() > 0 {
        let u = t.skip(1);
        assert forall|i: int| 0 <= i < u.len() implies u[i] != (if zsh {
            '%'
        } else {
            '\\'
        }) by {
            assert(u[i] == t[i + 1]);
        }
        lemma_reads_plain_prefix(u, rest, zsh);
        assert((t + rest)[0] == t[0]);
        assert((t + rest).skip(1) =~= u + rest);
        assert(t =~= seq![t[0]] + u);
    } else {
        assert(t + rest =~= rest);
    }
}

/// The parameters of an SGR sequence hold neither `%` nor `\`.
proof fn lemma_sgr_chars_plain(s: Seq<char>, i: int, j: int)
    requires
        2 <= i <= j,
        sgr_end(s, i) matches Some(n) && j < n,
        starts_csi(s) || i > 2,
    ensures
        s[j] != '%' && s[j] != '\\',
    decreases j - i,
{
    lemma_sgr_end_bounds(s, i);
    if j > i {
        if s[i] != 'm' {
            lemma_sgr_end_bounds(s, i + 1);
            lemma_sgr_chars_plain(s, i + 1, j);
        }
    }
}

/// zsh shows exactly the rendered prompt: the zero-width markers show
/// nothing and every doubled `%` shows once.
pub proof fn law_zsh_shows_the_prompt(s: Seq<char>)
    ensures
        zsh_reads(wrapped(s, true)) == s,
    decreases s.len(),
{
    lemma_wrapped_read_back(s, true);
}

/// bash shows exactly the rendered prompt, where the prompt itself holds no `\`.
pub proof fn law_bash_shows_the_prompt(s: Seq<char>)
    requires
        forall|i: int| 0 <= i < s.len() ==> s[i] != '\\',
    ensures
        bash_reads(wrapped(s, false)) == s,
{
    lemma_wrapped_read_back(s, false);
}

proof fn lemma_wrapped_read_back(s: Seq<char>, zsh: bool)
    requires
        !zsh ==> forall|i: int| 0 <= i < s.len() ==> s[i] != '\\',
    ensures
        zsh ==> zsh_reads(wrapped(s, true)) == s,
        !zsh ==> bash_reads(wrapped(s, false)) == s,
    decreases s.len(),
{
    let forbidden = if zsh {
        '%'
    } else {
        '\\'
    };
    if s.len() == 0 {
        return;
    }
    if starts_csi(s) {
        lemma_sgr_end_bounds(s, 2);
        match sgr_len(s) {
            Some(n) => {
                let t = s.skip(n);
                assert forall|i: int| 0 <= i < t.len() && !zsh implies t[i] != '\\' by {
                    assert(t[i] == s[i + n]);
                }
                lemma_wrapped_read_back(t, zsh);
                let body = s.take(n);
                assert forall|i: int| 0 <= i < body.len() implies body[i] != forbidden by {
                    if i >= 2 {
                        lemma_sgr_chars_plain(s, 2, i);
                    }
                }
                let w = wrapped(t, zsh);
                lemma_reads_plain_prefix(body, close_marker(zsh) + w, zsh);
                let whole = open_marker(zsh) + body + close_marker(zsh) + w;
                assert(wrapped(s, zsh) == whole);
                assert(whole.skip(2) =~= body + (close_marker(zsh) + w));
                assert((close_marker(zsh) + w).skip(2) =~= w);
                assert(s =~= body + t);
            },
            None => {
                let t = s.skip(2);
                assert forall|i: int| 0 <= i < t.len() && !zsh implies t[i] != '\\' by {
                    assert(t[i] == s[i + 2]);
                }
                lemma_wrapped_read_back(t, zsh);
                let w = wrapped(t, zsh);
                let head = seq!['\x1b', '['];
                lemma_reads_plain_prefix(head, w, zsh);
                assert(wrapped(s, zsh) == head + w);
                assert(s =~= head + t);
            },
        }
    } else {
        let t = s.skip(1);
        assert forall|i: int| 0 <= i < t.len() && !zsh implies t[i] != '\\' by {
            assert(t[i] == s[i + 1]);
        }
        lemma_wrapped_read_back(t, zsh);
        let w = wrapped(t, zsh);
        assert(wrapped(s, zsh) == visible_char(s[0], zsh) + w);
        if zsh && s[0] == '%' {
            let whole = seq!['%', '%'] + w;
            assert(whole.skip(2) =~= w);
        } else {
            lemma_reads_plain_prefix(seq![s[0]], w, zsh);
        }
        assert(s =~= seq![s[0]] + t);
    }
}

/// Whether `s` is a complete SGR sequence: `ESC [`, digits and `;`, then `m`.
pub open spec fn is_sgr_sequence(s: Seq<char>) -> bool {
    &&& s.len() >= 3
    &&& s[0] == '\x1b'
    &&& s[1] == '['
    &&& s.last() == 'm'
    &&& forall|i: int| 2 <= i < s.len() - 1 ==> (is_digit(#[trigger] s[i]) || s[i] == ';')
}

proof fn lemma_sgr_end_of_sequence(s: Seq<char>, rest: Seq<char>, i: int)
    requires
        is_sgr_sequence(s),
        2 <= i < s.len(),
    ensures
        sgr_end(s + rest, i) == Some(s.len() as int),
    decreases s.len() - i,
{
    assert((s + rest)[i] == s[i]);
    if i < s.len() - 1 {
        assert(is_digit(s[i]) || s[i] == ';');
        lemma_sgr_end_of_sequence(s, rest, i + 1);
    }
}

/// Every colour sequence is enclosed in the shell's zero-width markers, and
/// the rest of the prompt is escaped on its own.
pub proof fn law_sgr_sequence_is_marked(sgr: Seq<char>, rest: Seq<char>, zsh: bool)
    requires
        is_sgr_sequence(sgr),
    ensures
        wrapped(sgr + rest, zsh) == (if zsh {
            seq!['%', '{']
        } else {
            seq!['\\', '[']
        }) + sgr + (if zsh {
            seq!['%', '}']
        } else {
            seq!['\\', ']']
        }) + wrapped(rest, zsh),
{
    let s = sgr + rest;
    assert(s[0] == '\x1b' && s[1] == '[');
    lemma_sgr_end_of_sequence(sgr, rest, 2);
    assert(s.take(sgr.len() as int) =~= sgr);
    assert(s.skip(sgr.len() as int) =~= rest);
}

/// A character other than `ESC` is escaped on its own: kept, or for zsh a
/// `%` doubled.
pub proof fn law_visible_char_kept(c: char, rest: Seq<char>, zsh: bool)
    requires
        c != '\x1b',
    ensures
        wrapped(seq![c] + rest, zsh) == (if zsh && c == '%' {
            seq!['%', '%']
        } else {
            seq![c]
        }) + wrapped(rest, zsh),
{
    let s = seq![c] + rest;
    assert(!starts_csi(s));
    assert(s.skip(1) =~= rest);
}

} // verus!

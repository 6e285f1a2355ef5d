//! The host name as the prompt shows it: cut at the first `.`, with each run
//! of digits underlined.
use vstd::prelude::*;

use crate::ansi;
use crate::text::{char_is_digit, chars_of, index_of, is_digit, lemma_index_of, push_char};
use crate::prompt_escape::{lemma_sgr_prefix, sgr_end, sgr_len, visible_text};

verus! {

/// The part of `hostname` before its first `.` (all of it where it has none).
pub open spec fn spec_short_hostname(hostname: Seq<char>) -> Seq<char> {
    hostname.take(index_of(hostname, '.'))
}

/// The host name without its domain.
pub fn short_hostname(hostname: &str) -> (short: &str)
    ensures
        short@ == spec_short_hostname(hostname@),
        short@.len() <= hostname@.len(),
        forall|i: int| 0 <= i < short@.len() ==> short@[i] == hostname@[i] && hostname@[i] != '.',
        short@.len() == hostname@.len() || hostname@[short@.len() as int] == '.',
{
    proof {
        law_short_hostname_up_to_first_dot(hostname@);
    }
    let chars = chars_of(hostname);
    let mut i: usize = 0;
    while i < chars.len()
        invariant
            chars@ == hostname@,
            i <= chars.len(),
            forall|j: int| 0 <= j < i ==> hostname@[j] != '.',
        decreases chars.len() - i,
    {
        if chars[i] == '.' {
            proof {
                crate::text::lemma_index_of_at(hostname@, '.', i as int);
            }
            return hostname.substring_char(0, i);
        }
        i = i + 1;
    }
    proof {
        crate::text::lemma_index_of_at(hostname@, '.', i as int);
    }
    assert(hostname@.take(i as int) =~= hostname@);
    hostname
}

/// The rendering of `s`, where the text before it ended inside a run of
/// digits exactly when `in_digits`: each run of digits is enclosed in
/// `UNDERLINE` and `UNDERLINE_OFF`.
pub open spec fn highlighted_from(s: Seq<char>, in_digits: bool) -> Seq<char>
    decreases s.len(),
{
    if s.len() == 0 {
        if in_digits {
            ansi::UNDERLINE_OFF@
        } else {
            seq![]
        }
    } else {
        let d = is_digit(s[0]);
        let marker = if d && !in_digits {
            ansi::UNDERLINE@
        } else if !d && in_digits {
            ansi::UNDERLINE_OFF@
        } else {
            seq![]
        };
        marker + seq![s[0]] + highlighted_from(s.skip(1), d)
    }
}

/// `hostname` with each run of digits underlined.
pub open spec fn highlighted(hostname: Seq<char>) -> Seq<char> {
    highlighted_from(hostname, false)
}

/// Appends `hostname` with each run of digits underlined.
pub fn write_highlighted(out: &mut String, hostname: &str) -> (r: Result<(), std::fmt::Error>)
    ensures
        r is Ok,
        final(out)@ == old(out)@ + highlighted(hostname@),
{
    let chars = chars_of(hostname);
    let ghost s = hostname@;
    let mut in_digits = false;
    let mut i: usize = 0;
    assert(s.skip(0) =~= s);
    while i < chars.len()
        invariant
            chars@ == s,
            i <= chars.len(),
            old(out)@ + highlighted(s) == out@ + highlighted_from(s.skip(i as int), in_digits),
        decreases chars.len() - i,
    {
        let ghost rest = s.skip(i as int);
        let ghost before = out@;
        let ghost prev = in_digits;
        let ch = chars[i];
        assert(rest[0] == ch);
        let is_digit = char_is_digit(ch);
        if is_digit && !in_digits {
            out.append(ansi::UNDERLINE);
            in_digits = true;
        } else if !is_digit && in_digits {
            out.append(ansi::UNDERLINE_OFF);
            in_digits = false;
        }
        push_char(out, ch);
        assert(rest.skip(1) =~= s.skip(i + 1));
        assert(before + highlighted_from(rest, prev) =~= out@ + highlighted_from(
            s.skip(i + 1),
            in_digits,
        ));
        i = i + 1;
    }
    if in_digits {
        out.append(ansi::UNDERLINE_OFF);
    }
    assert(s.skip(i as int) =~= Seq::<char>::empty());
    Ok(())
}

/// The short host name holds no `.`.
pub proof fn law_short_hostname_has_no_dot(hostname: Seq<char>)
    ensures
        forall|i: int|
            0 <= i < spec_short_hostname(hostname).len() ==> spec_short_hostname(hostname)[i]
                != '.',
{
    lemma_index_of(hostname, '.');
}

/// The short host name is the host name up to, not including, its first
/// `.`: every character before that `.` is kept (a `-` too), and a name
/// without `.` is kept whole.
pub proof fn law_short_hostname_up_to_first_dot(hostname: Seq<char>)
    ensures
        spec_short_hostname(hostname).len() <= hostname.len(),
        forall|i: int|
            0 <= i < spec_short_hostname(hostname).len() ==> spec_short_hostname(hostname)[i]
                == hostname[i] && hostname[i] != '.',
        spec_short_hostname(hostname).len() == hostname.len() || hostname[spec_short_hostname(
            hostname,
        ).len() as int] == '.',
{
    lemma_index_of(hostname, '.');
}

/// Shortening a short host name changes nothing.
pub proof fn law_short_hostname_idempotent(hostname: Seq<char>)
    ensures
        spec_short_hostname(spec_short_hostname(hostname)) == spec_short_hostname(hostname),
{
    let short = spec_short_hostname(hostname);
    lemma_index_of(hostname, '.');
    law_short_hostname_has_no_dot(hostname);
    crate::text::lemma_index_of_at(short, '.', short.len() as int);
    assert(short.take(short.len() as int) =~= short);
}

/// Underlining adds only escape sequences: with them removed, the highlighted
/// host name reads as the host name (for names without escape characters).
pub proof fn law_highlighting_keeps_visible_text(hostname: Seq<char>)
    requires
        forall|i: int| 0 <= i < hostname.len() ==> hostname[i] != '\x1b',
    ensures
        visible_text(highlighted(hostname)) == hostname,
{
    lemma_highlighted_visible(hostname, false);
}

/// The underline markers are complete SGR sequences.
proof fn lemma_underline_markers_are_sgr()
    ensures
        sgr_len(ansi::UNDERLINE@) == Some(ansi::UNDERLINE@.len() as int),
        sgr_len(ansi::UNDERLINE_OFF@) == Some(ansi::UNDERLINE_OFF@.len() as int),
{
    reveal_strlit("\x1b[4m");
    reveal_strlit("\x1b[24m");
    let u = ansi::UNDERLINE@;
    let o = ansi::UNDERLINE_OFF@;
    assert(u =~= seq!['\x1b', '[', '4', 'm']);
    assert(o =~= seq!['\x1b', '[', '2', '4', 'm']);
    assert(sgr_end(u, 3) == Some(4int));
    assert(sgr_end(u, 2) == Some(4int));
    assert(sgr_end(o, 4) == Some(5int));
    assert(sgr_end(o, 3) == Some(5int));
    assert(sgr_end(o, 2) == Some(5int));
}

proof fn lemma_highlighted_visible(s: Seq<char>, in_digits: bool)
    requires
        forall|i: int| 0 <= i < s.len() ==> s[i] != '\x1b',
    ensures
        visible_text(highlighted_from(s, in_digits)) == s,
    decreases s.len(),
{
    lemma_underline_markers_are_sgr();
    if s.len() == 0 {
        if in_digits {
            lemma_sgr_prefix(ansi::UNDERLINE_OFF@, seq![]);
            assert(ansi::UNDERLINE_OFF@ + Seq::<char>::empty() =~= ansi::UNDERLINE_OFF@);
        }
    } else {
        let t = s.skip(1);
        assert forall|i: int| 0 <= i < t.len() implies t[i] != '\x1b' by {
            assert(t[i] == s[i + 1]);
        }
        let d = is_digit(s[0]);
        lemma_highlighted_visible(t, d);
        let rest = seq![s[0]] + highlighted_from(t, d);
        crate::prompt_escape::lemma_visible_plain_char(s[0], highlighted_from(t, d));
        if d && !in_digits {
            lemma_sgr_prefix(ansi::UNDERLINE@, rest);
            assert(highlighted_from(s, in_digits) =~= ansi::UNDERLINE@ + rest);
        } else if !d && in_digits {
            lemma_sgr_prefix(ansi::UNDERLINE_OFF@, rest);
            assert(highlighted_from(s, in_digits) =~= ansi::UNDERLINE_OFF@ + rest);
        } else {
            assert(highlighted_from(s, in_digits) =~= rest);
        }
        assert(s =~= seq![s[0]] + t);
    }
}

/// A host name without digits is shown as it is.
pub proof fn law_no_digits_no_underline(hostname: Seq<char>)
    requires
        forall|i: int| 0 <= i < hostname.len() ==> !is_digit(hostname[i]),
    ensures
        highlighted(hostname) == hostname,
{
    lemma_no_digits(hostname);
}

proof fn lemma_no_digits(s: Seq<char>)
    requires
        forall|i: int| 0 <= i < s.len() ==> !is_digit(s[i]),
    ensures
        highlighted_from(s, false) == s,
    decreases s.len(),
{
    if s.len() > 0 {
        let t = s.skip(1);
        assert forall|i: int| 0 <= i < t.len() implies !is_digit(t[i]) by {
            assert(t[i] == s[i + 1]);
        }
        lemma_no_digits(t);
        assert(!is_digit(s[0]));
        assert(s =~= seq![s[0]] + t);
    }
}

/// A run of digits is shown underlined as a whole.
pub proof fn law_digit_run_underlined(digits: Seq<char>)
    requires
        digits.len() > 0,
        forall|i: int| 0 <= i < digits.len() ==> is_digit(digits[i]),
    ensures
        highlighted(digits) == ansi::UNDERLINE@ + digits + ansi::UNDERLINE_OFF@,
{
    let t = digits.skip(1);
    assert forall|i: int| 0 <= i < t.len() implies is_digit(t[i]) by {
        assert(t[i] == digits[i + 1]);
    }
    lemma_digits_inside(t);
    assert(is_digit(digits[0]));
    assert(highlighted_from(digits, false) =~= ansi::UNDERLINE@ + seq![digits[0]]
        + highlighted_from(t, true));
    assert(digits =~= seq![digits[0]] + t);
}

proof fn lemma_digits_inside(s: Seq<char>)
    requires
        forall|i: int| 0 <= i < s.len() ==> is_digit(s[i]),
    ensures
        highlighted_from(s, true) == s + ansi::UNDERLINE_OFF@,
    decreases s.len(),
{
    if s.len() == 0 {
        assert(s + ansi::UNDERLINE_OFF@ =~= ansi::UNDERLINE_OFF@);
    } else {
        let t = s.skip(1);
        assert forall|i: int| 0 <= i < t.len() implies is_digit(t[i]) by {
            assert(t[i] == s[i + 1]);
        }
        lemma_digits_inside(t);
        assert(is_digit(s[0]));
        assert(highlighted_from(s, true) =~= seq![s[0]] + highlighted_from(t, true));
        assert(s + ansi::UNDERLINE_OFF@ =~= seq![s[0]] + (t + ansi::UNDERLINE_OFF@));
    }
}

/// Parts of a host name that meet at two non-digits are highlighted apart:
/// the highlighting of the whole is the highlighting of the parts, joined.
pub proof fn law_highlight_splits_between_non_digits(a: Seq<char>, b: Seq<char>)
    requires
        a.len() > 0,
        !is_digit(a.last()),
    ensures
        highlighted(a + b) == highlighted(a) + highlighted(b),
{
    lemma_highlight_split(a, b, false);
}

proof fn lemma_highlight_split(a: Seq<char>, b: Seq<char>, in_digits: bool)
    requires
        a.len() > 0,
        !is_digit(a.last()),
    ensures
        highlighted_from(a + b, in_digits) == highlighted_from(a, in_digits) + highlighted_from(
            b,
            false,
        ),
    decreases a.len(),
{
    let t = a.skip(1);
    let d = is_digit(a[0]);
    assert((a + b)[0] == a[0]);
    assert((a + b).skip(1) =~= t + b);
    let marker = if d && !in_digits {
        ansi::UNDERLINE@
    } else if !d && in_digits {
        ansi::UNDERLINE_OFF@
    } else {
        seq![]
    };
    if t.len() == 0 {
        assert(!d);
        assert(t + b =~= b);
        assert(highlighted_from(t, false) =~= Seq::<char>::empty());
        assert(highlighted_from(a, in_digits) =~= marker + seq![a[0]]);
        assert(highlighted_from(a + b, in_digits) =~= marker + seq![a[0]] + highlighted_from(b, false));
    } else {
        assert(t.last() == a.last());
        lemma_highlight_split(t, b, d);
        assert(highlighted_from(a + b, in_digits) =~= marker + seq![a[0]] + highlighted_from(
            t + b,
            d,
        ));
        assert(highlighted_from(a, in_digits) =~= marker + seq![a[0]] + highlighted_from(t, d));
        assert(highlighted_from(a + b, in_digits) =~= highlighted_from(a, in_digits)
            + highlighted_from(b, false));
    }
}

} // verus!

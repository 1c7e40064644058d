use crate::text::{decimal_text, push_decimal, push_two_digits, two_digits};
use vstd::prelude::*;
use vstd::string::{StrSliceExecFns, StringExecFns};

verus! {

/// A number of seconds in text: hours, minutes and seconds of two digits
/// each, behind the number of days where that is not zero.
pub open spec fn duration_text(seconds: u64) -> Seq<char> {
    let days = seconds / 86400;
    let clock = two_digits(((seconds % 86400) / 3600) as nat) + ":"@ + two_digits(
        ((seconds % 3600) / 60) as nat,
    ) + ":"@ + two_digits((seconds % 60) as nat);
    if days > 0 {
        decimal_text(days as nat) + "d "@ + clock
    } else {
        clock
    }
}

/// `text` without the line break at its end: without a final line feed and,
/// where there was one, without a carriage return in front of it.
pub open spec fn without_newline(text: Seq<char>) -> Seq<char> {
    if text.len() > 0 && text.last() == '\n' {
        let line = text.drop_last();
        if line.len() > 0 && line.last() == '\r' {
            line.drop_last()
        } else {
            line
        }
    } else {
        text
    }
}

/// A duration of whole seconds in text, such as `3d 04:05:06` or
/// `04:05:06`.
pub fn friendly_duration(seconds: u64) -> (s: String)
    ensures
        s@ == duration_text(seconds),
{
    let days = seconds / 86400;
    let mut out = String::new();
    if days > 0 {
        push_decimal(&mut out, days);
        out.append("d ");
    }
    push_two_digits(&mut out, (seconds % 86400) / 3600);
    out.append(":");
    push_two_digits(&mut out, (seconds % 3600) / 60);
    out.append(":");
    push_two_digits(&mut out, seconds % 60);
    assert(out@ =~= duration_text(seconds));
    out
}

/// Removes the line break at the end of `s`: a line feed and, where there
/// was one, the carriage return in front of it.
pub fn trim_newline(s: &mut String)
    ensures
        final(s)@ == without_newline(old(s)@),
{
    let n = s.as_str().unicode_len();
    if n == 0 || s.as_str().get_char(n - 1) != '\n' {
        return ;
    }
    let keep = if n >= 2 && s.as_str().get_char(n - 2) == '\r' {
        n - 2
    } else {
        n - 1
    };
    let kept = s.as_str().substring_char(0, keep).to_owned();
    proof {
        let line = s@.drop_last();
        assert(s@.subrange(0, n - 1) =~= line);
        if n >= 2 {
            assert(line.last() == s@[n - 2]);
            assert(s@.subrange(0, n - 2) =~= line.drop_last());
        }
    }
    *s = kept;
}

} // verus!

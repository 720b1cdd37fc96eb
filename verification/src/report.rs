//! Text the daemon writes to its log about running jobs.
use vstd::prelude::*;
use crate::text::{decimal, push_char, push_decimal};

verus! {

/// A running time of `secs` whole seconds, as the log shows it: `1d 2h 3m 4s`,
/// `2h 3m 4s`, `3m 4s` or `4s`, from the largest unit that is not zero. `None` for
/// less than a second, which is written with sub-second precision instead.
pub open spec fn spec_elapsed_text(secs: u64) -> Option<Seq<char>> {
    let days = secs / 86400;
    let rem = secs % 86400;
    let hours = rem / 3600;
    let rem2 = rem % 3600;
    let mins = rem2 / 60;
    let sec = rem2 % 60;
    if days > 0 {
        Some(decimal(days as nat) + seq!['d', ' '] + decimal(hours as nat) + seq!['h', ' ']
            + decimal(mins as nat) + seq!['m', ' '] + decimal(sec as nat) + seq!['s'])
    } else if hours > 0 {
        Some(decimal(hours as nat) + seq!['h', ' '] + decimal(mins as nat) + seq!['m', ' ']
            + decimal(sec as nat) + seq!['s'])
    } else if mins > 0 {
        Some(decimal(mins as nat) + seq!['m', ' '] + decimal(sec as nat) + seq!['s'])
    } else if sec > 0 {
        Some(decimal(sec as nat) + seq!['s'])
    } else {
        None
    }
}

/// The running time of a job started at `start_unix`, seen at `now_secs`, as the log
/// shows it; `None` when less than a second has passed.
pub fn elapsed_text(now_secs: u64, start_unix: u64) -> (r: Option<String>)
    ensures
        match r {
            Some(s) => spec_elapsed_text(now_secs.saturating_sub(start_unix)) == Some(s@),
            None => spec_elapsed_text(now_secs.saturating_sub(start_unix)) is None,
        },
{
    let secs = now_secs.saturating_sub(start_unix);
    let days = secs / 86400;
    let rem = secs % 86400;
    let hours = rem / 3600;
    let rem2 = rem % 3600;
    let mins = rem2 / 60;
    let sec = rem2 % 60;
    let mut s = String::new();
    if days > 0 {
        push_decimal(&mut s, days);
        push_char(&mut s, 'd');
        push_char(&mut s, ' ');
    }
    if days > 0 || hours > 0 {
        push_decimal(&mut s, hours);
        push_char(&mut s, 'h');
        push_char(&mut s, ' ');
    }
    if days > 0 || hours > 0 || mins > 0 {
        push_decimal(&mut s, mins);
        push_char(&mut s, 'm');
        push_char(&mut s, ' ');
    }
    if days > 0 || hours > 0 || mins > 0 || sec > 0 {
        push_decimal(&mut s, sec);
        push_char(&mut s, 's');
        assert(Some(s@) == spec_elapsed_text(secs)) by {
            if days > 0 {
                assert(s@ =~= decimal(days as nat) + seq!['d', ' '] + decimal(hours as nat) + seq![
                    'h',
                    ' ',
                ] + decimal(mins as nat) + seq!['m', ' '] + decimal(sec as nat) + seq!['s']);
            } else if hours > 0 {
                assert(s@ =~= decimal(hours as nat) + seq!['h', ' '] + decimal(mins as nat) + seq![
                    'm',
                    ' ',
                ] + decimal(sec as nat) + seq!['s']);
            } else if mins > 0 {
                assert(s@ =~= decimal(mins as nat) + seq!['m', ' '] + decimal(sec as nat) + seq![
                    's',
                ]);
            } else {
                assert(s@ =~= decimal(sec as nat) + seq!['s']);
            }
        }
        Some(s)
    } else {
        None
    }
}

} // verus!

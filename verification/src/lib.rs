//! Core logic of an hours tracker for a watched game process: an append-only
//! per-session log of `"YYYY-MM-DD <seconds>s"` lines, sorted on load, with a
//! binary search over date tokens and a trailing two-week window sum.
pub mod calculate_past_two;
pub mod dates;
pub mod text;
pub mod update;
pub mod website_files;

use crate::dates::date_str;
use crate::dates::date_string;
use crate::dates::date_wf;
use crate::dates::Date;
use crate::text::dec_str;
use crate::text::parse_seconds_token;
use crate::text::parse_secs;
use crate::text::push_char;
use crate::text::lex_cmp;
use crate::text::split_lines;
use crate::text::split_nl;
use crate::text::trim_blank;
use crate::text::trim_spec;
use crate::text::u64_to_string;
use crate::text::LineOrder;
use crate::text::ws_rest;
use crate::text::ws_token;
use crate::text::ws_token_split;
use vstd::prelude::*;
use vstd::string::StringExecFns;

verus! {

/// Error raised when no session record exists on or after the start of the
/// trailing two-week window.
#[derive(Debug, Clone, PartialEq, Eq, Structural)]
pub struct PastTwoError;

impl PastTwoError {
    /// The diagnostic text carried by this error.
    pub fn message(&self) -> (r: String)
        ensures
            r@ == "next closest date to the date two weeks ago could not be found."@,
    {
        String::from_str("next closest date to the date two weeks ago could not be found.")
    }
}

/// The serialized form of one session record, as it is appended to the log.
pub open spec fn date_line_spec(d: Date, seconds: u64) -> Seq<char> {
    date_str(d) + seq![' '] + dec_str(seconds as int) + seq!['s', '\n']
}

/// One session record's log line: the date, a space, and the seconds with
/// an `s`, ended by a newline.
pub fn date_line(today: Date, seconds: u64) -> (r: String)
    requires
        date_wf(today),
    ensures
        r@ == date_line_spec(today, seconds),
{
    let mut r = date_string(today);
    push_char(&mut r, ' ');
    let secs = u64_to_string(seconds);
    r.append(secs.as_str());
    push_char(&mut r, 's');
    push_char(&mut r, '\n');
    proof {
        assert(r@ =~= date_line_spec(today, seconds));
    }
    r
}

/// One second of the live stopwatch display: seconds roll into minutes at
/// sixty, and minutes into hours.
pub fn stopwatch_tick(hours: u16, minutes: u8, seconds: u8) -> (r: (u16, u8, u8))
    requires
        hours < u16::MAX,
        minutes < 60,
        seconds < 60,
    ensures
        r == (if seconds == 59 {
            if minutes + 1 == 60 {
                (((hours + 1) as u16), 0u8, 0u8)
            } else {
                (hours, ((minutes + 1) as u8), 0u8)
            }
        } else {
            (hours, minutes, ((seconds + 1) as u8))
        }),
{
    if seconds == 59 {
        let m = minutes + 1;
        if m == 60 {
            (hours + 1, 0, 0)
        } else {
            (hours, m, 0)
        }
    } else {
        (hours, minutes, seconds + 1)
    }
}

/// The total-seconds count read back from the hours file: the third token
/// of its second line, read exactly as the log's duration tokens are.
pub fn retrieve_total_seconds(contents: &str) -> (r: Option<u64>)
    ensures
        r == (if split_nl(contents@).len() >= 2 {
            parse_secs(ws_token(ws_rest(ws_rest(split_nl(contents@)[1]))))
        } else {
            None::<u64>
        }),
{
    let lines = split_lines(contents);
    if lines.len() < 2 {
        return None;
    }
    let (_t0, r1) = ws_token_split(lines[1].as_str());
    let (_t1, r2) = ws_token_split(r1);
    let (t2, _r3) = ws_token_split(r2);
    parse_seconds_token(t2)
}

/// The fractional-hours token read back from the hours file: the third
/// token of its third line, handed on for the caller's own number parsing.
pub fn retrieve_hours_token(contents: &str) -> (r: Option<String>)
    ensures
        r is Some <==> split_nl(contents@).len() >= 3,
        r matches Some(t) ==> t@ == ws_token(ws_rest(ws_rest(split_nl(contents@)[2]))),
{
    let lines = split_lines(contents);
    if lines.len() < 3 {
        return None;
    }
    let (_t0, r1) = ws_token_split(lines[2].as_str());
    let (_t1, r2) = ws_token_split(r1);
    let (t2, _r3) = ws_token_split(r2);
    Some(t2.to_owned())
}

/// Whether the watched process name occurs among the running ones.
pub fn name_is_running(names: &Vec<String>, target: &str) -> (r: bool)
    ensures
        r == (exists|i: int| 0 <= i < names@.len() && (#[trigger] names@[i])@ == target@),
{
    let mut i: usize = 0;
    while i < names.len()
        invariant
            i <= names@.len(),
            forall|j: int| 0 <= j < i ==> (#[trigger] names@[j])@ != target@,
        decreases names@.len() - i,
    {
        if matches!(lex_cmp(names[i].as_str(), target), LineOrder::Same) {
            return true;
        }
        i = i + 1;
    }
    false
}

/// What the console answer after a tracked session asks for.
pub enum RunChoice {
    /// End the program.
    End,
    /// Wait for the next session.
    Continue,
    /// Neither; the program ends with a diagnostic.
    Invalid,
}

/// Reads the end-of-session answer: `y` ends the program, `n` keeps it
/// waiting, anything else is invalid. Blanks around the answer are ignored.
pub fn end_program_choice(option: &str) -> (r: RunChoice)
    ensures
        (r is End) <==> (trim_spec(option@) == "y"@ || trim_spec(option@) == "Y"@),
        (r is Continue) <==> (trim_spec(option@) == "n"@ || trim_spec(option@) == "N"@),
{
    proof {
        reveal_strlit("y");
        reveal_strlit("Y");
        reveal_strlit("n");
        reveal_strlit("N");
        assert("y"@ =~= seq!['y']);
        assert("Y"@ =~= seq!['Y']);
        assert("n"@ =~= seq!['n']);
        assert("N"@ =~= seq!['N']);
    }
    let t = trim_blank(option);
    if matches!(lex_cmp(t, "y"), LineOrder::Same) || matches!(lex_cmp(t, "Y"), LineOrder::Same) {
        RunChoice::End
    } else if matches!(lex_cmp(t, "n"), LineOrder::Same) || matches!(
        lex_cmp(t, "N"),
        LineOrder::Same,
    ) {
        RunChoice::Continue
    } else {
        RunChoice::Invalid
    }
}

/// Whether a console answer confirms with a `y`, in either case, with
/// blanks around it ignored.
pub fn confirms(option: &str) -> (r: bool)
    ensures
        r == (trim_spec(option@) == "y"@ || trim_spec(option@) == "Y"@),
{
    let t = trim_blank(option);
    matches!(lex_cmp(t, "y"), LineOrder::Same) || matches!(lex_cmp(t, "Y"), LineOrder::Same)
}

} // verus!

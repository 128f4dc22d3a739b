//! The time that a node took to sync, from the lines of its log.

use vstd::prelude::*;
use vstd::slice::slice_subrange;
use crate::chars::{whitespace, CharClass};
use crate::clock::{parse_time, parsed_time};
use crate::text::{
    contains, contains_text, lines_of, skip_leading, split_lines, strip_leading, to_chars,
    to_text, views,
};

verus! {

/// The number of lines at the start of a log that are looked at.
pub const MAX_LINES: usize = 1000;

/// The nanoseconds of a second.
pub const NANOS: i128 = 1_000_000_000;

/// The options of a measurement.
#[derive(Debug)]
pub struct Config {
    /// The file that holds the log.
    pub file: String,
}

impl Clone for Config {
    fn clone(&self) -> (copy: Self)
        ensures
            copy == *self,
    {
        Config { file: self.file.clone() }
    }
}

/// The measurement of the sync times.
pub struct WarpTime;

/// The times of the phases of a sync, in nanoseconds.
#[derive(Clone, Copy, Debug, PartialEq, Eq, Structural)]
pub struct Phases {
    /// From the start of the warp sync to its end.
    pub warp: u128,
    /// From the end of the warp sync to the end of the state sync.
    pub state: u128,
    /// From the start of the warp sync to the end of the state sync.
    pub total: u128,
}

/// Why the sync times cannot be told.
#[derive(Clone, Copy, Debug, PartialEq, Eq, Structural)]
pub enum WarpError {
    /// No line tells that the warp sync started.
    NoStart,
    /// No later line tells that the warp sync ended.
    NoWarpEnd,
    /// No later line tells that the state sync ended.
    NoStateEnd,
    /// A line that tells of a phase does not begin with a date and a time.
    NoTime,
    /// A phase ended before it began.
    Backwards,
}

/// The length of the run of characters at the start of `s` that are no
/// whitespace.
pub open spec fn word_len(s: Seq<char>) -> nat
    decreases s.len(),
{
    if s.len() > 0 && !whitespace(s[0]) {
        1 + word_len(s.drop_first())
    } else {
        0
    }
}

/// The first word of `s`: the first run of characters that are no
/// whitespace.
pub open spec fn first_word(s: Seq<char>) -> Seq<char> {
    let trimmed = strip_leading(s, CharClass::Whitespace);
    trimmed.take(word_len(trimmed) as int)
}

/// What follows the first word of `s`.
pub open spec fn after_first_word(s: Seq<char>) -> Seq<char> {
    let trimmed = strip_leading(s, CharClass::Whitespace);
    trimmed.skip(word_len(trimmed) as int)
}

/// The date and the time with which a line begins: its first two words,
/// with a space between them.
pub open spec fn time_text(line: Seq<char>) -> Option<Seq<char>> {
    let date = first_word(line);
    let time = first_word(after_first_word(line));
    if date.len() == 0 || time.len() == 0 {
        None
    } else {
        Some(date + " "@ + time)
    }
}

/// The format of the date and the time of a line.
pub open spec fn line_time_format() -> Seq<char> {
    "%Y-%m-%d %H:%M:%S.%f"@
}

/// The time of a line, in nanoseconds since the start of 1970.
pub open spec fn time_of(line: Seq<char>) -> Option<int> {
    match time_text(line) {
        None => None,
        Some(text) => match parsed_time(text, line_time_format()) {
            None => None,
            Some(time) => Some(time.0 * NANOS + time.1),
        },
    }
}

/// The first line at or after `from` that holds the marker.
pub open spec fn first_with(lines: Seq<Seq<char>>, marker: Seq<char>, from: int) -> Option<int>
    decreases lines.len() - from,
{
    if from < 0 || from >= lines.len() {
        None
    } else if contains_text(lines[from], marker) {
        Some(from)
    } else {
        first_with(lines, marker, from + 1)
    }
}

/// The text that tells that the warp sync started.
pub open spec fn start_marker() -> Seq<char> {
    "Warping, Downloading finality proofs"@
}

/// The text that tells that the warp sync ended.
pub open spec fn warp_end_marker() -> Seq<char> {
    "Warp sync is complete"@
}

/// The text that tells that the state sync ended.
pub open spec fn state_end_marker() -> Seq<char> {
    "State sync is complete"@
}

/// The time from `from` to `to`.
pub open spec fn elapsed(from: int, to: int) -> Result<int, WarpError> {
    if to < from {
        Err(WarpError::Backwards)
    } else {
        Ok(to - from)
    }
}

/// The sync times that the lines tell: the first line that tells of the
/// start of the warp sync, the first after it that tells of its end, and
/// the first after that which tells of the end of the state sync give the
/// three times.
pub open spec fn phases_of(lines: Seq<Seq<char>>) -> Result<(int, int, int), WarpError> {
    match first_with(lines, start_marker(), 0) {
        None => Err(WarpError::NoStart),
        Some(a) => match time_of(lines[a]) {
            None => Err(WarpError::NoTime),
            Some(start) => match first_with(lines, warp_end_marker(), a + 1) {
                None => Err(WarpError::NoWarpEnd),
                Some(b) => match time_of(lines[b]) {
                    None => Err(WarpError::NoTime),
                    Some(warped) => match first_with(lines, state_end_marker(), b + 1) {
                        None => Err(WarpError::NoStateEnd),
                        Some(c) => match time_of(lines[c]) {
                            None => Err(WarpError::NoTime),
                            Some(synced) => if warped < start || synced < warped {
                                Err(WarpError::Backwards)
                            } else {
                                Ok((warped - start, synced - warped, synced - start))
                            },
                        },
                    },
                },
            },
        },
    }
}

/// The first lines of a text, as many as are looked at.
pub open spec fn looked_at(text: Seq<char>) -> Seq<Seq<char>> {
    let lines = lines_of(text);
    if lines.len() > MAX_LINES {
        lines.take(MAX_LINES as int)
    } else {
        lines
    }
}

/// Splits off the first word.
fn split_word<'a>(s: &'a [char]) -> (r: (&'a [char], &'a [char]))
    ensures
        r.0@ == first_word(s@),
        r.1@ == after_first_word(s@),
{
    let trimmed = skip_leading(s, CharClass::Whitespace);
    let mut n: usize = 0;
    assert(trimmed@.skip(0) == trimmed@);
    while n < trimmed.len() && !trimmed[n].is_whitespace()
        invariant
            n <= trimmed@.len(),
            word_len(trimmed@) == n + word_len(trimmed@.skip(n as int)),
        decreases trimmed@.len() - n,
    {
        proof {
            assert(trimmed@.skip(n as int).drop_first() == trimmed@.skip(n + 1));
        }
        n += 1;
    }
    let end = trimmed.len();
    (slice_subrange(trimmed, 0, n), slice_subrange(trimmed, n, end))
}

/// Finds the first line at or after `from` that holds the marker.
fn find_line(lines: &Vec<String>, limit: usize, marker: &str, from: usize) -> (r: Option<usize>)
    requires
        limit <= lines@.len(),
    ensures
        match r {
            Some(i) => first_with(views(lines@).take(limit as int), marker@, from as int) == Some(
                i as int,
            ) && from <= i < limit,
            None => first_with(views(lines@).take(limit as int), marker@, from as int) is None,
        },
{
    let needle = to_chars(marker);
    let mut i: usize = from;
    let ghost looked = views(lines@).take(limit as int);
    while i < limit
        invariant
            from <= i,
            limit <= lines@.len(),
            needle@ == marker@,
            looked == views(lines@).take(limit as int),
            first_with(looked, marker@, from as int) == first_with(looked, marker@, i as int),
        decreases limit - i,
    {
        let line = to_chars(lines[i].as_str());
        proof {
            assert(looked[i as int] == lines@[i as int]@);
        }
        if contains(line.as_slice(), needle.as_slice()) {
            return Some(i);
        }
        i += 1;
    }
    None
}

impl WarpTime {
    /// Reads the time of a line: the date and the time of day with which
    /// it begins, in nanoseconds since the start of 1970.
    pub fn extract_time(line: &str) -> (r: Option<i128>)
        ensures
            match r {
                Some(time) => time_of(line@) == Some(time as int) && i64::MIN * NANOS <= time
                    <= i64::MAX * NANOS + u32::MAX,
                None => time_of(line@) is None,
            },
    {
        let chars = to_chars(line);
        let (date, rest) = split_word(chars.as_slice());
        let (time, _) = split_word(rest);
        if date.len() == 0 || time.len() == 0 {
            return None;
        }
        let mut text = to_text(date);
        text.push(' ');
        let ghost with_space = text@;
        let mut i: usize = 0;
        while i < time.len()
            invariant
                i <= time@.len(),
                text@ == with_space + time@.take(i as int),
            decreases time@.len() - i,
        {
            text.push(time[i]);
            proof {
                assert(time@.take(i + 1) == time@.take(i as int).push(time@[i as int]));
                assert(text@ =~= with_space + time@.take(i + 1));
            }
            i += 1;
        }
        proof {
            reveal_strlit(" ");
            assert(time@.take(i as int) == time@);
            assert(text@ =~= date@ + " "@ + time@);
        }
        match parse_time(text.as_str(), "%Y-%m-%d %H:%M:%S.%f") {
            None => None,
            Some(stamp) => Some((stamp.0 as i128) * NANOS + (stamp.1 as i128)),
        }
    }

    /// Tells the sync times from the text of a log, of which the first
    /// thousand lines are looked at.
    pub fn measure(text: &str) -> (r: Result<Phases, WarpError>)
        ensures
            match r {
                Ok(phases) => phases_of(looked_at(text@)) == Ok::<(int, int, int), WarpError>(
                    (phases.warp as int, phases.state as int, phases.total as int),
                ),
                Err(error) => phases_of(looked_at(text@)) == Err::<(int, int, int), WarpError>(
                    error,
                ),
            },
    {
        let chars = to_chars(text);
        let lines = split_lines(chars.as_slice());
        let limit = if lines.len() > MAX_LINES {
            MAX_LINES
        } else {
            lines.len()
        };
        proof {
            assert(views(lines@).take(limit as int) =~= looked_at(text@));
        }
        let ghost looked = looked_at(text@);
        let a = match find_line(&lines, limit, "Warping, Downloading finality proofs", 0) {
            Some(a) => a,
            None => {
                return Err(WarpError::NoStart);
            },
        };
        assert(looked[a as int] == lines@[a as int]@);
        let start = match Self::extract_time(lines[a].as_str()) {
            Some(start) => start,
            None => {
                return Err(WarpError::NoTime);
            },
        };
        let b = match find_line(&lines, limit, "Warp sync is complete", a + 1) {
            Some(b) => b,
            None => {
                return Err(WarpError::NoWarpEnd);
            },
        };
        assert(looked[b as int] == lines@[b as int]@);
        let warped = match Self::extract_time(lines[b].as_str()) {
            Some(warped) => warped,
            None => {
                return Err(WarpError::NoTime);
            },
        };
        let c = match find_line(&lines, limit, "State sync is complete", b + 1) {
            Some(c) => c,
            None => {
                return Err(WarpError::NoStateEnd);
            },
        };
        assert(looked[c as int] == lines@[c as int]@);
        let synced = match Self::extract_time(lines[c].as_str()) {
            Some(synced) => synced,
            None => {
                return Err(WarpError::NoTime);
            },
        };
        if warped < start || synced < warped {
            return Err(WarpError::Backwards);
        }
        Ok(
            Phases {
                warp: (warped - start) as u128,
                state: (synced - warped) as u128,
                total: (synced - start) as u128,
            },
        )
    }
}

} // verus!

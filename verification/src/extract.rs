//! Reading one field out of one line of the wiki's item table: an item's
//! title, its level, its price, its production time and its source.
//!
//! The search itself is a regular expression (`matching`); what is made of
//! the capture groups it reports is stated and proved here, in functions
//! that take the reported groups as their argument.

use vstd::prelude::*;
use crate::matching::{captures, compile, regex_captures, regex_compiles};
use crate::numeric::{parse_u32, spec_parse_u32};

verus! {

/// Finds the quoted text of the first `title="..."` attribute.
pub const TITLE_PATTERN: &'static str = "title=\"([^\"]+)\"";

/// Finds the digits that follow the first `<td>`.
pub const LEVEL_PATTERN: &'static str = "<td>(\\d+)";

/// Reads a duration after the first `<td>`: days, hours and minutes, each
/// optional, in that order, as `1 d 20 h 24 min`.
pub const TIME_PATTERN: &'static str = "<td>(?:(\\d+) d ?)?(?:(\\d+) h ?)?(?:(\\d+) min)?";

/// The capture groups of `pattern` in `line`; `None` where the pattern does
/// not compile or does not match.
pub open spec fn search(pattern: Seq<char>, line: Seq<char>) -> Option<Seq<Option<Seq<char>>>> {
    if regex_compiles(pattern) {
        regex_captures(pattern, line)
    } else {
        None
    }
}

/// The text of group `k`, where it exists and took part in the match.
pub open spec fn group_text(groups: Seq<Option<Seq<char>>>, k: int) -> Option<Seq<char>> {
    if 0 <= k < groups.len() {
        groups[k]
    } else {
        None
    }
}

/// The text of the first capture group of a match.
pub open spec fn first_group_of(caps: Option<Seq<Option<Seq<char>>>>) -> Option<Seq<char>> {
    match caps {
        Some(groups) => group_text(groups, 1),
        None => None,
    }
}

/// The first capture group of a match read as a `u32`.
pub open spec fn number_of(caps: Option<Seq<Option<Seq<char>>>>) -> Option<u32> {
    match first_group_of(caps) {
        Some(t) => spec_parse_u32(t),
        None => None,
    }
}

/// Group `k` read as a `u32`, or 0 where it is absent or no `u32`.
pub open spec fn group_number(groups: Seq<Option<Seq<char>>>, k: int) -> int {
    match group_text(groups, k) {
        Some(t) => match spec_parse_u32(t) {
            Some(v) => v as int,
            None => 0,
        },
        None => 0,
    }
}

/// The minutes that a duration match spells: groups 1, 2 and 3 are days,
/// hours and minutes.
pub open spec fn minutes_of(caps: Option<Seq<Option<Seq<char>>>>) -> Option<int> {
    match caps {
        Some(g) => Some(group_number(g, 1) * 1440 + group_number(g, 2) * 60 + group_number(g, 3)),
        None => None,
    }
}

/// The minute count of a duration match fits in a `u32`.
pub open spec fn minutes_fit(caps: Option<Seq<Option<Seq<char>>>>) -> bool {
    match minutes_of(caps) {
        Some(t) => t <= u32::MAX,
        None => true,
    }
}

/// The title on a line.
pub open spec fn spec_extract_title(line: Seq<char>) -> Option<Seq<char>> {
    first_group_of(search(TITLE_PATTERN@, line))
}

/// The level on a line.
pub open spec fn spec_extract_level(line: Seq<char>) -> Option<u32> {
    number_of(search(LEVEL_PATTERN@, line))
}

/// The duration on a line in minutes, unbounded.
pub open spec fn spec_time_total(line: Seq<char>) -> Option<int> {
    minutes_of(search(TIME_PATTERN@, line))
}

/// The duration on a line fits in a `u32` (where there is one).
pub open spec fn time_fits(line: Seq<char>) -> bool {
    minutes_fit(search(TIME_PATTERN@, line))
}

/// The duration on a line in minutes, as a `u32`.
pub open spec fn spec_extract_time(line: Seq<char>) -> Option<u32> {
    match spec_time_total(line) {
        Some(t) => Some(t as u32),
        None => None,
    }
}

/// Runs `pattern` over `line`: `None` where it does not compile or does not
/// match.
fn search_line(pattern: &str, line: &str) -> (res: Option<Vec<Option<String>>>)
    ensures
        res.deep_view() == search(pattern@, line@),
{
    match compile(pattern) {
        Some(p) => captures(&p, line),
        None => None,
    }
}

/// The text of the first capture group of a match, where the match has one
/// that took part.
pub fn first_group(caps: Option<Vec<Option<String>>>) -> (res: Option<String>)
    ensures
        res.deep_view() == first_group_of(caps.deep_view()),
{
    match caps {
        Some(groups) => {
            if groups.len() > 1 {
                match &groups[1] {
                    Some(t) => Some(t.clone()),
                    None => None,
                }
            } else {
                None
            }
        },
        None => None,
    }
}

/// The first capture group of a match read as a `u32` (an optional `+`
/// and ASCII digits whose value fits); `None` otherwise.
pub fn number_from_captures(caps: Option<Vec<Option<String>>>) -> (res: Option<u32>)
    ensures
        res == number_of(caps.deep_view()),
{
    match first_group(caps) {
        Some(t) => parse_u32(t.as_str()),
        None => None,
    }
}

/// Group `k` of a match read as a `u32`; 0 where the group is missing, took
/// no part, or is no `u32`.
fn group_value(groups: &Vec<Option<String>>, k: usize) -> (res: u32)
    ensures
        res == group_number(groups.deep_view(), k as int),
{
    if k < groups.len() {
        match &groups[k] {
            Some(t) => match parse_u32(t.as_str()) {
                Some(v) => v,
                None => 0,
            },
            None => 0,
        }
    } else {
        0
    }
}

/// The minute count of a duration match, in a type that cannot overflow.
fn total_minutes(caps: &Option<Vec<Option<String>>>) -> (res: Option<u64>)
    ensures
        match minutes_of(caps.deep_view()) {
            Some(t) => res == Some(t as u64) && t >= 0,
            None => res is None,
        },
{
    match caps {
        Some(groups) => {
            let days = group_value(groups, 1) as u64;
            let hours = group_value(groups, 2) as u64;
            let minutes = group_value(groups, 3) as u64;
            Some(days * 1440 + hours * 60 + minutes)
        },
        None => None,
    }
}

/// The minutes that a duration match spells: days (group 1) times 1440,
/// plus hours (group 2) times 60, plus minutes (group 3), where a group that
/// is missing or no `u32` counts 0; `None` where there is no match.
pub fn minutes_from_captures(caps: Option<Vec<Option<String>>>) -> (res: Option<u32>)
    requires
        minutes_fit(caps.deep_view()),
    ensures
        match minutes_of(caps.deep_view()) {
            Some(t) => res == Some(t as u32),
            None => res is None,
        },
{
    match caps {
        Some(groups) => {
            let days = group_value(&groups, 1);
            let hours = group_value(&groups, 2);
            let minutes = group_value(&groups, 3);
            Some(days * 24 * 60 + hours * 60 + minutes)
        },
        None => None,
    }
}

/// The title on a line: the text between the quotes of its first
/// `title="..."` with at least one character between them.
pub fn extract_title(input: &str) -> (res: Option<String>)
    ensures
        res.deep_view() == spec_extract_title(input@),
        res.deep_view() == first_group_of(search(TITLE_PATTERN@, input@)),
{
    first_group(search_line(TITLE_PATTERN, input))
}

/// The level on a line: the digits right after its first `<td>` that is
/// followed by a digit, read as a `u32`.
pub fn extract_level(input: &str) -> (res: Option<u32>)
    ensures
        res == spec_extract_level(input@),
        res == number_of(search(LEVEL_PATTERN@, input@)),
{
    number_from_captures(search_line(LEVEL_PATTERN, input))
}

/// The price on a line; it is written as a level is.
pub fn extract_price(input: &str) -> (res: Option<u32>)
    ensures
        res == spec_extract_level(input@),
        res == number_of(search(LEVEL_PATTERN@, input@)),
{
    extract_level(input)
}

/// The source of an item on a line; it is written as a title is.
pub fn extract_source(input: &str) -> (res: Option<String>)
    ensures
        res.deep_view() == spec_extract_title(input@),
        res.deep_view() == first_group_of(search(TITLE_PATTERN@, input@)),
{
    extract_title(input)
}

/// The duration on a line in minutes: after its first `<td>`, days, hours
/// and minutes, each optional, as `1 d 20 h 24 min`; a part that is absent
/// counts 0. `None` only where the line has no `<td>`.
pub fn extract_time(input: &str) -> (res: Option<u32>)
    requires
        time_fits(input@),
    ensures
        res == spec_extract_time(input@),
{
    minutes_from_captures(search_line(TIME_PATTERN, input))
}

/// `extract_time` where the minute count fits in a `u32`, and `None` where
/// it does not (there `extract_time` cannot be called); the line is
/// searched once.
pub fn extract_time_checked(input: &str) -> (res: Option<Option<u32>>)
    ensures
        res is None <==> !time_fits(input@),
        res matches Some(r) ==> r == spec_extract_time(input@),
{
    let caps = search_line(TIME_PATTERN, input);
    match total_minutes(&caps) {
        Some(t) => {
            if t > 0xffff_ffff {
                return None;
            }
        },
        None => {},
    }
    Some(minutes_from_captures(caps))
}

/// A title is the first capture group of the title pattern searched in the
/// line, and a level or price the first capture group of the level pattern
/// read as a `u32`; a duration is the days, hours and minutes groups of the
/// duration pattern.
pub proof fn lemma_fields_follow_patterns(line: Seq<char>)
    ensures
        spec_extract_title(line) == first_group_of(search(TITLE_PATTERN@, line)),
        spec_extract_level(line) == number_of(search(LEVEL_PATTERN@, line)),
        spec_time_total(line) == minutes_of(search(TIME_PATTERN@, line)),
{
}

/// The three patterns, character by character: `title="([^"]+)"`,
/// `<td>(\d+)` and `<td>(?:(\d+) d ?)?(?:(\d+) h ?)?(?:(\d+) min)?`.
pub proof fn lemma_pattern_texts()
    ensures
        TITLE_PATTERN@ =~= seq!['t', 'i', 't', 'l', 'e', '=', '"', '(', '[', '^', '"', ']', '+', ')', '"'],
        LEVEL_PATTERN@ =~= seq!['<', 't', 'd', '>', '(', '\\', 'd', '+', ')'],
        TIME_PATTERN@ =~= seq![
            '<', 't', 'd', '>',
            '(', '?', ':', '(', '\\', 'd', '+', ')', ' ', 'd', ' ', '?', ')', '?',
            '(', '?', ':', '(', '\\', 'd', '+', ')', ' ', 'h', ' ', '?', ')', '?',
            '(', '?', ':', '(', '\\', 'd', '+', ')', ' ', 'm', 'i', 'n', ')', '?',
        ],
{
    reveal_strlit("title=\"([^\"]+)\"");
    reveal_strlit("<td>(\\d+)");
    reveal_strlit("<td>(?:(\\d+) d ?)?(?:(\\d+) h ?)?(?:(\\d+) min)?");
}

/// One day is 1440 minutes, one hour 60: a duration match with days `d`,
/// hours `h` and minutes `m` spells `1440 * d + 60 * h + m` minutes.
pub proof fn lemma_minutes_units(
    g: Seq<Option<Seq<char>>>,
    d: u32,
    h: u32,
    m: u32,
)
    requires
        g.len() >= 4,
        g[1] matches Some(t) && spec_parse_u32(t) == Some(d),
        g[2] matches Some(t) && spec_parse_u32(t) == Some(h),
        g[3] matches Some(t) && spec_parse_u32(t) == Some(m),
    ensures
        minutes_of(Some(g)) == Some(1440 * d + 60 * h + m),
{
}

/// A part of a duration that took no part in the match counts 0, and a
/// match without any part spells 0 minutes.
pub proof fn lemma_minutes_absent_parts(g: Seq<Option<Seq<char>>>)
    requires
        forall|k: int| 1 <= k < g.len() ==> g[k] is None,
    ensures
        minutes_of(Some(g)) == Some(0int),
{
}

/// A title is the text of the first capture group of a match, where the
/// match has one; there is none without a match.
pub proof fn lemma_first_group(g: Seq<Option<Seq<char>>>)
    ensures
        g.len() > 1 ==> first_group_of(Some(g)) == g[1],
        g.len() <= 1 ==> first_group_of(Some(g)) is None,
        first_group_of(None) is None,
        g.len() > 1 ==> number_of(Some(g)) == match g[1] {
            Some(t) => spec_parse_u32(t),
            None => None,
        },
        number_of(None) is None,
{
}

} // verus!

//! Sorting the lines of a log into the families of the mined patterns.

use vstd::prelude::*;
use regex::Regex;
use crate::engine::{regex_accepts, regex_source};
use crate::miner::{RegexDetails, Site};
use vstd::string::StringExecFns;
use crate::text::{
    contains, contains_text, find_last, lines_of, rfind, split_lines, to_chars, to_text, view_of,
    views,
};

verus! {

/// A rule that splits a family by what follows a marker: in a line that
/// holds `marker`, what follows the last `splitter` is the key.
pub struct DedupRule {
    pub marker: Seq<char>,
    pub splitter: Seq<char>,
}

/// The key under which a line is counted apart within its family: by the
/// first rule whose marker the line holds and whose splitter it holds too,
/// what follows the last occurrence of that splitter.
pub open spec fn dedup_key(rules: Seq<DedupRule>, line: Seq<char>) -> Option<Seq<char>>
    decreases rules.len(),
{
    if rules.len() == 0 {
        None
    } else if contains_text(line, rules[0].marker) {
        match find_last(line, rules[0].splitter) {
            Some(p) => Some(line.skip(p + rules[0].splitter.len())),
            None => dedup_key(rules.drop_first(), line),
        }
    } else {
        dedup_key(rules.drop_first(), line)
    }
}

/// The first pattern at or after `from` that matches the line.
pub open spec fn first_match(patterns: Seq<(Regex, RegexDetails)>, line: Seq<char>, from: int)
    -> Option<int>
    decreases patterns.len() - from,
{
    if from < 0 || from >= patterns.len() {
        None
    } else if regex_accepts(&patterns[from].0, line) {
        Some(from)
    } else {
        first_match(patterns, line, from + 1)
    }
}

/// `first_match` gives the earliest pattern that matches, and none only
/// where no pattern matches.
pub proof fn lemma_first_match(patterns: Seq<(Regex, RegexDetails)>, line: Seq<char>, from: int)
    requires
        0 <= from,
    ensures
        match first_match(patterns, line, from) {
            Some(w) => from <= w < patterns.len() && regex_accepts(&patterns[w].0, line)
                && forall|m: int| from <= m < w ==> !regex_accepts(&patterns[m].0, line),
            None => forall|m: int|
                from <= m < patterns.len() ==> !regex_accepts(&patterns[m].0, line),
        },
    decreases patterns.len() - from,
{
    if from < patterns.len() && !regex_accepts(&patterns[from].0, line) {
        lemma_first_match(patterns, line, from + 1);
    }
}

/// The key of a group: the pattern, followed by the dedup key in round
/// brackets where there is one.
pub open spec fn group_key(source: Seq<char>, dedup: Option<Seq<char>>) -> Seq<char> {
    match dedup {
        Some(key) => source + "("@ + key + ")"@,
        None => source,
    }
}

/// What becomes of one line.
pub enum Verdict {
    /// The line is empty.
    Empty,
    /// The line belongs to the group with this key and this call site.
    Matched { key: Seq<char>, site: Site },
    /// No pattern matches the line.
    Unknown,
}

/// What becomes of a line: an empty line is empty; otherwise the first
/// pattern that matches it decides its group; a line that no pattern
/// matches is unknown.
pub open spec fn verdict(
    patterns: Seq<(Regex, RegexDetails)>,
    rules: Seq<DedupRule>,
    line: Seq<char>,
) -> Verdict {
    if line.len() == 0 {
        Verdict::Empty
    } else {
        match first_match(patterns, line, 0) {
            Some(w) => Verdict::Matched {
                key: group_key(regex_source(&patterns[w].0), dedup_key(rules, line)),
                site: patterns[w].1@,
            },
            None => Verdict::Unknown,
        }
    }
}

/// The counters of a classification.
pub struct Tally {
    pub total: nat,
    pub empty: nat,
    pub matched: nat,
    pub unknown: nat,
}

/// The lines of one group, in the order in which they came.
pub struct Family {
    pub key: Seq<char>,
    pub site: Site,
    pub lines: Seq<Seq<char>>,
}

/// The state of a classification: the counters, the groups in the order in
/// which each was first met, and the unknown lines in the order in which
/// they came.
pub struct Sorted {
    pub tally: Tally,
    pub groups: Seq<Family>,
    pub unknown: Seq<Seq<char>>,
}

/// The state before any line.
pub open spec fn nothing_sorted() -> Sorted {
    Sorted {
        tally: Tally { total: 0, empty: 0, matched: 0, unknown: 0 },
        groups: Seq::empty(),
        unknown: Seq::empty(),
    }
}

/// The position of the group with this key and call site at or after `from`.
pub open spec fn group_index(groups: Seq<Family>, key: Seq<char>, site: Site, from: int) -> Option<
    int,
>
    decreases groups.len() - from,
{
    if from < 0 || from >= groups.len() {
        None
    } else if groups[from].key == key && groups[from].site == site {
        Some(from)
    } else {
        group_index(groups, key, site, from + 1)
    }
}

/// The groups after one more line of the group with this key and call site:
/// the line is added to that group, which is opened at the end where it
/// is new.
pub open spec fn file_line(groups: Seq<Family>, key: Seq<char>, site: Site, line: Seq<char>)
    -> Seq<Family> {
    match group_index(groups, key, site, 0) {
        Some(g) => groups.update(
            g,
            Family { key, site, lines: groups[g].lines.push(line) },
        ),
        None => groups.push(Family { key, site, lines: seq![line] }),
    }
}

/// The state after one more line.
pub open spec fn step(
    state: Sorted,
    patterns: Seq<(Regex, RegexDetails)>,
    rules: Seq<DedupRule>,
    line: Seq<char>,
) -> Sorted {
    let tally = state.tally;
    match verdict(patterns, rules, line) {
        Verdict::Empty => Sorted {
            tally: Tally { total: tally.total + 1, empty: tally.empty + 1, ..tally },
            ..state
        },
        Verdict::Matched { key, site } => Sorted {
            tally: Tally { total: tally.total + 1, matched: tally.matched + 1, ..tally },
            groups: file_line(state.groups, key, site, line),
            ..state
        },
        Verdict::Unknown => Sorted {
            tally: Tally { total: tally.total + 1, unknown: tally.unknown + 1, ..tally },
            unknown: state.unknown.push(line),
            ..state
        },
    }
}

/// The state after the lines of a stream, in their order.
pub open spec fn run(
    state: Sorted,
    patterns: Seq<(Regex, RegexDetails)>,
    rules: Seq<DedupRule>,
    lines: Seq<Seq<char>>,
) -> Sorted
    decreases lines.len(),
{
    if lines.len() == 0 {
        state
    } else {
        step(run(state, patterns, rules, lines.drop_last()), patterns, rules, lines.last())
    }
}

/// The number of lines in the groups with this key and call site.
pub open spec fn count_in(groups: Seq<Family>, key: Seq<char>, site: Site) -> nat
    decreases groups.len(),
{
    if groups.len() == 0 {
        0
    } else {
        count_in(groups.drop_last(), key, site) + if groups.last().key == key && groups.last().site
            == site {
            groups.last().lines.len()
        } else {
            0nat
        }
    }
}

/// The number of lines in all groups.
pub open spec fn count_all(groups: Seq<Family>) -> nat
    decreases groups.len(),
{
    if groups.len() == 0 {
        0
    } else {
        count_all(groups.drop_last()) + groups.last().lines.len()
    }
}

/// Whether no two groups have the same key and call site.
pub open spec fn distinct(groups: Seq<Family>) -> bool {
    forall|a: int, b: int|
        0 <= a < b < groups.len() ==> !(groups[a].key == groups[b].key && groups[a].site
            == groups[b].site)
}

/// What holds of every state of a classification: every line was counted
/// once, as empty, matched or unknown; the unknown lines are the lines
/// counted as unknown, and the lines of the groups those counted as
/// matched; no group is empty, and no two groups have the same key and
/// call site.
pub open spec fn well_sorted(state: Sorted) -> bool {
    &&& state.tally.total == state.tally.empty + state.tally.matched + state.tally.unknown
    &&& state.tally.unknown == state.unknown.len()
    &&& state.tally.matched == count_all(state.groups)
    &&& distinct(state.groups)
    &&& forall|g: int| 0 <= g < state.groups.len() ==> (#[trigger] state.groups[g]).lines.len() > 0
}

/// `group_index` gives the earliest group with the key and call site, and
/// none only where there is none.
pub proof fn lemma_group_index(groups: Seq<Family>, key: Seq<char>, site: Site, from: int)
    requires
        0 <= from,
    ensures
        match group_index(groups, key, site, from) {
            Some(g) => from <= g < groups.len() && groups[g].key == key && groups[g].site == site
                && forall|m: int|
                from <= m < g ==> !(groups[m].key == key && groups[m].site == site),
            None => forall|m: int|
                from <= m < groups.len() ==> !(groups[m].key == key && groups[m].site == site),
        },
    decreases groups.len() - from,
{
    if from < groups.len() && !(groups[from].key == key && groups[from].site == site) {
        lemma_group_index(groups, key, site, from + 1);
    }
}

/// One more line in the group at `g` is one more line for its key and call
/// site, and for no other.
pub proof fn lemma_count_one_more(
    groups: Seq<Family>,
    g: int,
    line: Seq<char>,
    key: Seq<char>,
    site: Site,
)
    requires
        0 <= g < groups.len(),
    ensures
        ({
            let grown = groups.update(
                g,
                Family {
                    key: groups[g].key,
                    site: groups[g].site,
                    lines: groups[g].lines.push(line),
                },
            );
            &&& count_all(grown) == count_all(groups) + 1
            &&& count_in(grown, key, site) == count_in(groups, key, site) + if groups[g].key == key
                && groups[g].site == site {
                1nat
            } else {
                0nat
            }
        }),
    decreases groups.len(),
{
    let family = Family {
        key: groups[g].key,
        site: groups[g].site,
        lines: groups[g].lines.push(line),
    };
    let grown = groups.update(g, family);
    if g == groups.len() - 1 {
        assert(grown.drop_last() =~= groups.drop_last());
    } else {
        lemma_count_one_more(groups.drop_last(), g, line, key, site);
        assert(grown.drop_last() =~= groups.drop_last().update(g, family));
    }
}

/// A key and call site that no group has counts no line.
pub proof fn lemma_count_absent(groups: Seq<Family>, key: Seq<char>, site: Site)
    requires
        forall|m: int| 0 <= m < groups.len() ==> !(groups[m].key == key && groups[m].site == site),
    ensures
        count_in(groups, key, site) == 0,
    decreases groups.len(),
{
    if groups.len() > 0 {
        lemma_count_absent(groups.drop_last(), key, site);
    }
}

/// Filing a line adds one line to its group and to no other, and keeps the
/// groups distinct and not empty.
pub proof fn lemma_file_line(
    groups: Seq<Family>,
    key: Seq<char>,
    site: Site,
    line: Seq<char>,
    other_key: Seq<char>,
    other_site: Site,
)
    ensures
        count_all(file_line(groups, key, site, line)) == count_all(groups) + 1,
        count_in(file_line(groups, key, site, line), other_key, other_site) == count_in(
            groups,
            other_key,
            other_site,
        ) + if other_key == key && other_site == site {
            1nat
        } else {
            0nat
        },
        distinct(groups) ==> distinct(file_line(groups, key, site, line)),
        (forall|g: int| 0 <= g < groups.len() ==> (#[trigger] groups[g]).lines.len() > 0)
            ==> forall|g: int|
            0 <= g < file_line(groups, key, site, line).len() ==> (#[trigger] file_line(
                groups,
                key,
                site,
                line,
            )[g]).lines.len() > 0,
{
    lemma_group_index(groups, key, site, 0);
    let filed = file_line(groups, key, site, line);
    match group_index(groups, key, site, 0) {
        Some(g) => {
            lemma_count_one_more(groups, g, line, other_key, other_site);
        },
        None => {
            assert(filed.drop_last() =~= groups);
        },
    }
}

/// Every step keeps a state well sorted.
pub proof fn lemma_step_well_sorted(
    state: Sorted,
    patterns: Seq<(Regex, RegexDetails)>,
    rules: Seq<DedupRule>,
    line: Seq<char>,
)
    requires
        well_sorted(state),
    ensures
        well_sorted(step(state, patterns, rules, line)),
        step(state, patterns, rules, line).tally.total == state.tally.total + 1,
{
    match verdict(patterns, rules, line) {
        Verdict::Matched { key, site } => {
            lemma_file_line(state.groups, key, site, line, key, site);
        },
        _ => {},
    }
}

/// Of every classified stream: the total is the sum of the empty, the
/// matched and the unknown lines, and it grew by the length of the stream.
pub proof fn lemma_run_well_sorted(
    state: Sorted,
    patterns: Seq<(Regex, RegexDetails)>,
    rules: Seq<DedupRule>,
    lines: Seq<Seq<char>>,
)
    requires
        well_sorted(state),
    ensures
        well_sorted(run(state, patterns, rules, lines)),
        run(state, patterns, rules, lines).tally.total == state.tally.total + lines.len(),
    decreases lines.len(),
{
    if lines.len() > 0 {
        lemma_run_well_sorted(state, patterns, rules, lines.drop_last());
        lemma_step_well_sorted(
            run(state, patterns, rules, lines.drop_last()),
            patterns,
            rules,
            lines.last(),
        );
    }
}

/// The number of lines of the stream that belong to the group with this
/// key and call site.
pub open spec fn hits(
    patterns: Seq<(Regex, RegexDetails)>,
    rules: Seq<DedupRule>,
    lines: Seq<Seq<char>>,
    key: Seq<char>,
    site: Site,
) -> nat
    decreases lines.len(),
{
    if lines.len() == 0 {
        0
    } else {
        hits(patterns, rules, lines.drop_last(), key, site) + if verdict(
            patterns,
            rules,
            lines.last(),
        ) == (Verdict::Matched { key, site }) {
            1nat
        } else {
            0nat
        }
    }
}

/// The number of lines of the stream with the given verdict, for the two
/// verdicts without a group.
pub open spec fn tells(
    patterns: Seq<(Regex, RegexDetails)>,
    rules: Seq<DedupRule>,
    lines: Seq<Seq<char>>,
    what: Verdict,
) -> nat
    decreases lines.len(),
{
    if lines.len() == 0 {
        0
    } else {
        tells(patterns, rules, lines.drop_last(), what) + if verdict(patterns, rules, lines.last())
            == what {
            1nat
        } else {
            0nat
        }
    }
}

/// A stream adds to each group the lines of the stream that belong to it,
/// whatever was sorted before.
pub proof fn lemma_run_counts(
    state: Sorted,
    patterns: Seq<(Regex, RegexDetails)>,
    rules: Seq<DedupRule>,
    lines: Seq<Seq<char>>,
    key: Seq<char>,
    site: Site,
)
    ensures
        count_in(run(state, patterns, rules, lines).groups, key, site) == count_in(
            state.groups,
            key,
            site,
        ) + hits(patterns, rules, lines, key, site),
    decreases lines.len(),
{
    if lines.len() > 0 {
        lemma_run_counts(state, patterns, rules, lines.drop_last(), key, site);
        let before = run(state, patterns, rules, lines.drop_last());
        match verdict(patterns, rules, lines.last()) {
            Verdict::Matched { key: k, site: s } => {
                lemma_file_line(before.groups, k, s, lines.last(), key, site);
            },
            _ => {},
        }
    }
}

/// A stream adds its length to the total, and to the counters of the empty
/// and the unknown lines the lines of the stream that are empty and
/// unknown, whatever was sorted before.
pub proof fn lemma_run_tally(
    state: Sorted,
    patterns: Seq<(Regex, RegexDetails)>,
    rules: Seq<DedupRule>,
    lines: Seq<Seq<char>>,
)
    ensures
        run(state, patterns, rules, lines).tally.total == state.tally.total + lines.len(),
        run(state, patterns, rules, lines).tally.empty == state.tally.empty + tells(
            patterns,
            rules,
            lines,
            Verdict::Empty,
        ),
        run(state, patterns, rules, lines).tally.unknown == state.tally.unknown + tells(
            patterns,
            rules,
            lines,
            Verdict::Unknown,
        ),
    decreases lines.len(),
{
    if lines.len() > 0 {
        lemma_run_tally(state, patterns, rules, lines.drop_last());
    }
}

/// Classifying a stream twice doubles the counters: the total, the empty,
/// the matched and the unknown lines.
pub proof fn lemma_twice_doubles_counters(
    patterns: Seq<(Regex, RegexDetails)>,
    rules: Seq<DedupRule>,
    lines: Seq<Seq<char>>,
)
    ensures
        ({
            let once = run(nothing_sorted(), patterns, rules, lines);
            let twice = run(once, patterns, rules, lines);
            &&& twice.tally.total == 2 * once.tally.total
            &&& twice.tally.empty == 2 * once.tally.empty
            &&& twice.tally.unknown == 2 * once.tally.unknown
            &&& twice.tally.matched == 2 * once.tally.matched
        }),
{
    let once = run(nothing_sorted(), patterns, rules, lines);
    lemma_run_tally(nothing_sorted(), patterns, rules, lines);
    lemma_run_tally(once, patterns, rules, lines);
    lemma_run_well_sorted(nothing_sorted(), patterns, rules, lines);
    lemma_run_well_sorted(once, patterns, rules, lines);
}

/// Classifying a stream twice gives every group twice the lines that
/// classifying it once gives.
pub proof fn lemma_twice_doubles(
    patterns: Seq<(Regex, RegexDetails)>,
    rules: Seq<DedupRule>,
    lines: Seq<Seq<char>>,
    key: Seq<char>,
    site: Site,
)
    ensures
        ({
            let once = run(nothing_sorted(), patterns, rules, lines);
            let twice = run(once, patterns, rules, lines);
            count_in(twice.groups, key, site) == 2 * count_in(once.groups, key, site)
        }),
{
    let once = run(nothing_sorted(), patterns, rules, lines);
    lemma_run_counts(nothing_sorted(), patterns, rules, lines, key, site);
    lemma_run_counts(once, patterns, rules, lines, key, site);
}

/// Whether `later` has the groups of `earlier` at their places, and maybe
/// more after them.
pub open spec fn keeps_groups(earlier: Seq<Family>, later: Seq<Family>) -> bool {
    &&& earlier.len() <= later.len()
    &&& forall|g: int|
        0 <= g < earlier.len() ==> (#[trigger] later[g]).key == earlier[g].key && later[g].site
            == earlier[g].site
}

/// Whether the groups hold the group that the verdict files a line in.
pub open spec fn is_filed(groups: Seq<Family>, verdict: Verdict) -> bool {
    match verdict {
        Verdict::Matched { key, site } => group_index(groups, key, site, 0) is Some,
        _ => true,
    }
}

/// A group that is there stays there.
pub proof fn lemma_filed_stays(earlier: Seq<Family>, later: Seq<Family>, verdict: Verdict)
    requires
        keeps_groups(earlier, later),
        is_filed(earlier, verdict),
    ensures
        is_filed(later, verdict),
{
    match verdict {
        Verdict::Matched { key, site } => {
            lemma_group_index(earlier, key, site, 0);
            lemma_group_index(later, key, site, 0);
            let g = group_index(earlier, key, site, 0).unwrap();
            assert(later[g].key == key && later[g].site == site);
        },
        _ => {},
    }
}

/// In distinct groups, the lines under the key and call site of a group are
/// the lines of that group.
pub proof fn lemma_count_of_group(groups: Seq<Family>, g: int)
    requires
        distinct(groups),
        0 <= g < groups.len(),
    ensures
        count_in(groups, groups[g].key, groups[g].site) == groups[g].lines.len(),
    decreases groups.len(),
{
    let head = groups.drop_last();
    if g == groups.len() - 1 {
        assert forall|m: int| 0 <= m < head.len() implies !(head[m].key == groups[g].key
            && head[m].site == groups[g].site) by {
            assert(head[m] == groups[m]);
        }
        lemma_count_absent(head, groups[g].key, groups[g].site);
    } else {
        assert(distinct(head)) by {
            assert forall|a: int, b: int| 0 <= a < b < head.len() implies !(head[a].key
                == head[b].key && head[a].site == head[b].site) by {
                assert(head[a] == groups[a] && head[b] == groups[b]);
            }
        }
        assert(head[g] == groups[g]);
        lemma_count_of_group(head, g);
    }
}

/// A step keeps the groups at their places, files a matched line in a group
/// that is there afterwards, and opens no group where the group of the line
/// was there before.
pub proof fn lemma_step_keeps_groups(
    state: Sorted,
    patterns: Seq<(Regex, RegexDetails)>,
    rules: Seq<DedupRule>,
    line: Seq<char>,
)
    ensures
        keeps_groups(state.groups, step(state, patterns, rules, line).groups),
        is_filed(step(state, patterns, rules, line).groups, verdict(patterns, rules, line)),
        is_filed(state.groups, verdict(patterns, rules, line)) ==> step(
            state,
            patterns,
            rules,
            line,
        ).groups.len() == state.groups.len(),
{
    match verdict(patterns, rules, line) {
        Verdict::Matched { key, site } => {
            let after = file_line(state.groups, key, site, line);
            lemma_group_index(state.groups, key, site, 0);
            lemma_group_index(after, key, site, 0);
            match group_index(state.groups, key, site, 0) {
                Some(g) => {
                    assert(after[g].key == key && after[g].site == site);
                },
                None => {
                    assert(after[state.groups.len() as int].key == key);
                    assert(after[state.groups.len() as int].site == site);
                },
            }
        },
        _ => {},
    }
}

/// A stream keeps the groups at their places, and files every matched line
/// of it in a group that is there afterwards.
pub proof fn lemma_run_keeps_groups(
    state: Sorted,
    patterns: Seq<(Regex, RegexDetails)>,
    rules: Seq<DedupRule>,
    lines: Seq<Seq<char>>,
)
    ensures
        keeps_groups(state.groups, run(state, patterns, rules, lines).groups),
        forall|n: int|
            0 <= n < lines.len() ==> is_filed(
                run(state, patterns, rules, lines).groups,
                verdict(patterns, rules, #[trigger] lines[n]),
            ),
    decreases lines.len(),
{
    if lines.len() > 0 {
        let head = lines.drop_last();
        let before = run(state, patterns, rules, head);
        let after = run(state, patterns, rules, lines);
        lemma_run_keeps_groups(state, patterns, rules, head);
        lemma_step_keeps_groups(before, patterns, rules, lines.last());
        assert forall|n: int| 0 <= n < lines.len() implies is_filed(
            after.groups,
            verdict(patterns, rules, #[trigger] lines[n]),
        ) by {
            if n < head.len() {
                assert(head[n] == lines[n]);
                lemma_filed_stays(before.groups, after.groups, verdict(patterns, rules, lines[n]));
            }
        }
    }
}

/// A stream whose matched lines all have their group opens no group.
pub proof fn lemma_run_opens_none(
    state: Sorted,
    patterns: Seq<(Regex, RegexDetails)>,
    rules: Seq<DedupRule>,
    lines: Seq<Seq<char>>,
)
    requires
        forall|n: int|
            0 <= n < lines.len() ==> is_filed(
                state.groups,
                verdict(patterns, rules, #[trigger] lines[n]),
            ),
    ensures
        run(state, patterns, rules, lines).groups.len() == state.groups.len(),
    decreases lines.len(),
{
    if lines.len() > 0 {
        let head = lines.drop_last();
        let before = run(state, patterns, rules, head);
        assert forall|n: int| 0 <= n < head.len() implies is_filed(
            state.groups,
            verdict(patterns, rules, #[trigger] head[n]),
        ) by {
            assert(head[n] == lines[n]);
        }
        lemma_run_opens_none(state, patterns, rules, head);
        lemma_run_keeps_groups(state, patterns, rules, head);
        assert(is_filed(state.groups, verdict(patterns, rules, lines[lines.len() - 1])));
        lemma_filed_stays(state.groups, before.groups, verdict(patterns, rules, lines.last()));
        lemma_step_keeps_groups(before, patterns, rules, lines.last());
    }
}

/// Classifying a stream a second time opens no group and moves none: every
/// group keeps its place, its key and its call site and holds twice the
/// lines, and there are twice the unknown lines.
pub proof fn lemma_twice_keeps_groups(
    patterns: Seq<(Regex, RegexDetails)>,
    rules: Seq<DedupRule>,
    lines: Seq<Seq<char>>,
)
    ensures
        ({
            let once = run(nothing_sorted(), patterns, rules, lines);
            let twice = run(once, patterns, rules, lines);
            &&& twice.groups.len() == once.groups.len()
            &&& forall|g: int|
                0 <= g < once.groups.len() ==> (#[trigger] twice.groups[g]).key
                    == once.groups[g].key && twice.groups[g].site == once.groups[g].site
                    && twice.groups[g].lines.len() == 2 * once.groups[g].lines.len()
            &&& twice.unknown.len() == 2 * once.unknown.len()
        }),
{
    let once = run(nothing_sorted(), patterns, rules, lines);
    let twice = run(once, patterns, rules, lines);
    lemma_run_well_sorted(nothing_sorted(), patterns, rules, lines);
    lemma_run_well_sorted(once, patterns, rules, lines);
    lemma_run_keeps_groups(nothing_sorted(), patterns, rules, lines);
    lemma_run_opens_none(once, patterns, rules, lines);
    lemma_run_keeps_groups(once, patterns, rules, lines);
    assert forall|g: int| 0 <= g < once.groups.len() implies (#[trigger] twice.groups[g]).key
        == once.groups[g].key && twice.groups[g].site == once.groups[g].site
        && twice.groups[g].lines.len() == 2 * once.groups[g].lines.len() by {
        let key = once.groups[g].key;
        let site = once.groups[g].site;
        lemma_twice_doubles(patterns, rules, lines, key, site);
        lemma_count_of_group(once.groups, g);
        lemma_count_of_group(twice.groups, g);
    }
    lemma_twice_doubles_counters(patterns, rules, lines);
}

/// The patterns with those at `i` and `j` in each other's place.
pub open spec fn swapped(patterns: Seq<(Regex, RegexDetails)>, i: int, j: int) -> Seq<
    (Regex, RegexDetails),
> {
    patterns.update(i, patterns[j]).update(j, patterns[i])
}

/// Whether, for this line, the patterns at `i` and at `j` overlap with no
/// pattern from `i` to `j`: neither matches the line together with another
/// of them.
pub open spec fn apart(patterns: Seq<(Regex, RegexDetails)>, i: int, j: int, line: Seq<char>)
    -> bool {
    &&& forall|m: int|
        i < m <= j ==> !(regex_accepts(&patterns[i].0, line) && regex_accepts(
            &patterns[m].0,
            line,
        ))
    &&& forall|m: int|
        i <= m < j ==> !(regex_accepts(&patterns[m].0, line) && regex_accepts(
            &patterns[j].0,
            line,
        ))
}

/// Swapping two patterns that are apart for a line leaves the verdict on
/// the line as it was.
pub proof fn lemma_swap_verdict(
    patterns: Seq<(Regex, RegexDetails)>,
    i: int,
    j: int,
    rules: Seq<DedupRule>,
    line: Seq<char>,
)
    requires
        0 <= i < j < patterns.len(),
        apart(patterns, i, j, line),
    ensures
        verdict(swapped(patterns, i, j), rules, line) == verdict(patterns, rules, line),
{
    let other = swapped(patterns, i, j);
    lemma_first_match(patterns, line, 0);
    lemma_first_match(other, line, 0);
    assert(other[i] == patterns[j]);
    assert(other[j] == patterns[i]);
    assert forall|m: int| 0 <= m < patterns.len() && m != i && m != j implies other[m]
        == patterns[m] by {}
    if line.len() > 0 {
        match first_match(patterns, line, 0) {
            None => {
                if first_match(other, line, 0) is Some {
                    let w = first_match(other, line, 0).unwrap();
                    if w == i {
                        assert(regex_accepts(&patterns[j].0, line));
                    } else if w == j {
                        assert(regex_accepts(&patterns[i].0, line));
                    } else {
                        assert(regex_accepts(&patterns[w].0, line));
                    }
                }
            },
            Some(w) => {
                let target: int = if w == i {
                    j
                } else if w == j {
                    i
                } else {
                    w
                };
                assert(regex_accepts(&other[target].0, line));
                assert forall|m: int| 0 <= m < target implies !regex_accepts(
                    &other[m].0,
                    line,
                ) by {
                    if m == i {
                        assert(other[m] == patterns[j]);
                    } else if m == j {
                        assert(other[m] == patterns[i]);
                    } else {
                        assert(other[m] == patterns[m]);
                    }
                }
                assert(first_match(other, line, 0) == Some(target));
                assert(other[target] == patterns[w]);
            },
        }
    }
}

/// First match wins, and yet the order of two patterns that are apart does
/// not matter: where, for every line of the stream, the patterns at `i` and
/// at `j` match together with no pattern from `i` to `j`, swapping them
/// leaves every counter and every group as it was.
pub proof fn lemma_swap_apart(
    state: Sorted,
    patterns: Seq<(Regex, RegexDetails)>,
    i: int,
    j: int,
    rules: Seq<DedupRule>,
    lines: Seq<Seq<char>>,
)
    requires
        0 <= i < j < patterns.len(),
        forall|n: int| 0 <= n < lines.len() ==> apart(patterns, i, j, #[trigger] lines[n]),
    ensures
        run(state, swapped(patterns, i, j), rules, lines) == run(state, patterns, rules, lines),
    decreases lines.len(),
{
    if lines.len() > 0 {
        let head = lines.drop_last();
        assert forall|n: int| 0 <= n < head.len() implies apart(
            patterns,
            i,
            j,
            #[trigger] head[n],
        ) by {
            assert(head[n] == lines[n]);
        }
        lemma_swap_apart(state, patterns, i, j, rules, head);
        assert(apart(patterns, i, j, lines[lines.len() - 1]));
        lemma_swap_verdict(patterns, i, j, rules, lines.last());
    }
}

/// The counters of a classification.
#[derive(Clone, Copy, Debug, PartialEq, Eq)]
pub struct Stats {
    /// The lines seen.
    pub total: usize,
    /// The empty lines among them.
    pub empty_lines: usize,
    /// The lines that a pattern matched.
    pub warning_err: usize,
    /// The lines that no pattern matched.
    pub unknown: usize,
}

impl View for Stats {
    type V = Tally;

    open spec fn view(&self) -> Tally {
        Tally {
            total: self.total as nat,
            empty: self.empty_lines as nat,
            matched: self.warning_err as nat,
            unknown: self.unknown as nat,
        }
    }
}

impl Stats {
    /// Counters that have counted nothing.
    pub fn new() -> (stats: Self)
        ensures
            stats@ == nothing_sorted().tally,
    {
        Stats { total: 0, empty_lines: 0, warning_err: 0, unknown: 0 }
    }
}

/// A rule that splits a family by what follows a marker.
#[derive(Debug)]
pub struct DeduplicationInfo {
    /// The text by which a line falls under the rule.
    pub log_line: String,
    /// The text after whose last occurrence the key stands.
    pub dedup_after: String,
}

impl View for DeduplicationInfo {
    type V = DedupRule;

    open spec fn view(&self) -> DedupRule {
        DedupRule { marker: self.log_line@, splitter: self.dedup_after@ }
    }
}

/// The rules that are in force unless others are given: the two forms of
/// the peer bans, split by their reason, and the block import errors, split
/// by what follows the last colon.
pub open spec fn default_rules() -> Seq<DedupRule> {
    seq![
        DedupRule {
            marker: "banned, disconnecting, reason:"@,
            splitter: "banned, disconnecting, reason:"@,
        },
        DedupRule { marker: "Banned, disconnecting."@, splitter: "Reason:"@ },
        DedupRule { marker: "Error importing block"@, splitter: ":"@ },
    ]
}

/// The lines of one group.
#[derive(Debug)]
pub struct Group {
    /// The key: the pattern, with the dedup key where there is one.
    pub key: String,
    /// Where the pattern was mined.
    pub details: RegexDetails,
    /// The lines, in the order in which they came.
    pub lines: Vec<String>,
}

impl View for Group {
    type V = Family;

    open spec fn view(&self) -> Family {
        Family { key: self.key@, site: self.details@, lines: views(self.lines@) }
    }
}

/// A classification in progress: the compiled patterns, the rules, and
/// what the lines seen so far were sorted into.
pub struct WarnErr {
    stats: Stats,
    unknown_lines: Vec<String>,
    found_lines: Vec<Group>,
    dedup_info: Vec<DeduplicationInfo>,
    regexes: Vec<(Regex, RegexDetails)>,
}

impl View for WarnErr {
    type V = Sorted;

    closed spec fn view(&self) -> Sorted {
        Sorted {
            tally: self.stats@,
            groups: views(self.found_lines@),
            unknown: views(self.unknown_lines@),
        }
    }
}

impl WarnErr {
    /// The compiled patterns, in the order in which they are tried.
    pub closed spec fn patterns(&self) -> Seq<(Regex, RegexDetails)> {
        self.regexes@
    }

    /// The rules, in the order in which they are tried.
    pub closed spec fn rules(&self) -> Seq<DedupRule> {
        views(self.dedup_info@)
    }

    /// A classification with the given patterns and the default rules,
    /// before any line.
    pub fn new(regexes: Vec<(Regex, RegexDetails)>) -> (sorter: Self)
        ensures
            sorter@ == nothing_sorted(),
            sorter.patterns() == regexes@,
            sorter.rules() == default_rules(),
    {
        let mut dedup_info: Vec<DeduplicationInfo> = Vec::new();
        dedup_info.push(
            DeduplicationInfo {
                log_line: "banned, disconnecting, reason:".to_owned(),
                dedup_after: "banned, disconnecting, reason:".to_owned(),
            },
        );
        dedup_info.push(
            DeduplicationInfo {
                log_line: "Banned, disconnecting.".to_owned(),
                dedup_after: "Reason:".to_owned(),
            },
        );
        dedup_info.push(
            DeduplicationInfo {
                log_line: "Error importing block".to_owned(),
                dedup_after: ":".to_owned(),
            },
        );
        proof {
            assert(views(dedup_info@) =~= default_rules());
        }
        Self::with_rules(regexes, dedup_info)
    }

    /// A classification with the given patterns and rules, before any line.
    pub fn with_rules(regexes: Vec<(Regex, RegexDetails)>, dedup_info: Vec<DeduplicationInfo>)
        -> (sorter: Self)
        ensures
            sorter@ == nothing_sorted(),
            sorter.patterns() == regexes@,
            sorter.rules() == views(dedup_info@),
    {
        let sorter = WarnErr {
            stats: Stats::new(),
            unknown_lines: Vec::new(),
            found_lines: Vec::new(),
            dedup_info,
            regexes,
        };
        proof {
            assert(views(sorter.found_lines@) =~= Seq::<Family>::empty());
            assert(views(sorter.unknown_lines@) =~= Seq::<Seq<char>>::empty());
        }
        sorter
    }

    /// The counters.
    pub fn stats(&self) -> (stats: Stats)
        ensures
            stats@ == self@.tally,
    {
        self.stats
    }

    /// The unknown lines, in the order in which they came.
    pub fn unknown_lines(&self) -> (lines: &Vec<String>)
        ensures
            views(lines@) == self@.unknown,
    {
        &self.unknown_lines
    }

    /// The groups, in the order in which each was first met.
    pub fn found_lines(&self) -> (groups: &Vec<Group>)
        ensures
            views(groups@) == self@.groups,
    {
        &self.found_lines
    }

    /// Finds the key under which a line is counted apart within its family.
    pub fn find_deduplication_key(&self, line: &str) -> (r: Option<String>)
        ensures
            view_of(r) == dedup_key(self.rules(), line@),
    {
        let text = to_chars(line);
        let mut i: usize = 0;
        proof {
            assert(self.rules().skip(0) =~= self.rules());
        }
        while i < self.dedup_info.len()
            invariant
                i <= self.dedup_info.len(),
                text@ == line@,
                dedup_key(self.rules(), line@) == dedup_key(self.rules().skip(i as int), line@),
            decreases self.dedup_info.len() - i,
        {
            let marker = to_chars(self.dedup_info[i].log_line.as_str());
            let splitter = to_chars(self.dedup_info[i].dedup_after.as_str());
            proof {
                let rest = self.rules().skip(i as int);
                assert(rest[0] == self.dedup_info@[i as int]@);
                assert(rest.drop_first() =~= self.rules().skip(i + 1));
            }
            if contains(text.as_slice(), marker.as_slice()) {
                match rfind(text.as_slice(), splitter.as_slice()) {
                    Some(p) => {
                        let end = text.len();
                        let rest = vstd::slice::slice_subrange(
                            text.as_slice(),
                            p + splitter.len(),
                            end,
                        );
                        return Some(to_text(rest));
                    },
                    None => {},
                }
            }
            i += 1;
        }
        None
    }

    /// Adds a line to the group with the given key and call site.
    fn file(&mut self, key: String, details: RegexDetails, line: String)
        ensures
            views(final(self).found_lines@) == file_line(
                views(old(self).found_lines@),
                key@,
                details@,
                line@,
            ),
            final(self).stats == old(self).stats,
            final(self).unknown_lines == old(self).unknown_lines,
            final(self).dedup_info == old(self).dedup_info,
            final(self).regexes == old(self).regexes,
    {
        let ghost groups = views(self.found_lines@);
        let mut g: usize = 0;
        while g < self.found_lines.len()
            invariant
                g <= self.found_lines.len(),
                *self == *old(self),
                groups == views(self.found_lines@),
                group_index(groups, key@, details@, 0) == group_index(
                    groups,
                    key@,
                    details@,
                    g as int,
                ),
            decreases self.found_lines.len() - g,
        {
            if self.found_lines[g].key == key && self.found_lines[g].details.same(&details) {
                let ghost before = self.found_lines@;
                self.found_lines[g].lines.push(line);
                proof {
                    assert(views(self.found_lines@) =~= groups.update(
                        g as int,
                        Family { key: key@, site: details@, lines: groups[g as int].lines.push(line@) },
                    )) by {
                        assert(views(self.found_lines@[g as int].lines@) =~= views(
                            before[g as int].lines@,
                        ).push(line@));
                    }
                }
                return ;
            }
            g += 1;
        }
        let mut lines: Vec<String> = Vec::new();
        lines.push(line);
        self.found_lines.push(Group { key, details, lines });
        proof {
            assert(views(lines@) =~= seq![line@]);
            assert(views(self.found_lines@) =~= groups.push(
                Family { key: key@, site: details@, lines: seq![line@] },
            ));
        }
    }

    /// Sorts one line: counts it, and files it in the group of the first
    /// pattern that matches it, or with the unknown lines.
    pub fn process_line(&mut self, line: &str)
        requires
            well_sorted(old(self)@),
            old(self)@.tally.total < usize::MAX,
        ensures
            final(self)@ == step(old(self)@, old(self).patterns(), old(self).rules(), line@),
            final(self).patterns() == old(self).patterns(),
            final(self).rules() == old(self).rules(),
            well_sorted(final(self)@),
    {
        proof {
            lemma_step_well_sorted(self@, self.patterns(), self.rules(), line@);
        }
        self.stats.total += 1;
        if line.is_empty() {
            self.stats.empty_lines += 1;
            return ;
        }
        let mut i: usize = 0;
        while i < self.regexes.len()
            invariant
                i <= self.regexes.len(),
                self.regexes == old(self).regexes,
                self.dedup_info == old(self).dedup_info,
                self.found_lines == old(self).found_lines,
                self.unknown_lines == old(self).unknown_lines,
                self.stats == (Stats { total: (old(self).stats.total + 1) as usize, ..old(self).stats }),
                well_sorted(old(self)@),
                well_sorted(step(old(self)@, old(self).patterns(), old(self).rules(), line@)),
                old(self)@.tally.total < usize::MAX,
                line@.len() > 0,
                first_match(self.regexes@, line@, 0) == first_match(self.regexes@, line@, i as int),
            decreases self.regexes.len() - i,
        {
            if self.regexes[i].0.is_match(line) {
                let dedup = self.find_deduplication_key(line);
                let mut key = self.regexes[i].0.as_str().to_owned();
                match dedup {
                    Some(dedup) => {
                        key.append("(");
                        key.append(dedup.as_str());
                        key.append(")");
                    },
                    None => {},
                }
                let details = self.regexes[i].1.clone();
                self.file(key, details, line.to_owned());
                self.stats.warning_err += 1;
                return ;
            }
            i += 1;
        }
        self.stats.unknown += 1;
        self.unknown_lines.push(line.to_owned());
        proof {
            assert(views(self.unknown_lines@) =~= views(old(self).unknown_lines@).push(line@));
        }
    }

    /// Sorts the lines of a stream, in their order.
    pub fn process_lines(&mut self, lines: &Vec<String>)
        requires
            well_sorted(old(self)@),
            old(self)@.tally.total + lines@.len() <= usize::MAX,
        ensures
            final(self)@ == run(
                old(self)@,
                old(self).patterns(),
                old(self).rules(),
                views(lines@),
            ),
            final(self).patterns() == old(self).patterns(),
            final(self).rules() == old(self).rules(),
            well_sorted(final(self)@),
    {
        let mut i: usize = 0;
        proof {
            assert(views(lines@).take(0) =~= Seq::<Seq<char>>::empty());
        }
        while i < lines.len()
            invariant
                i <= lines.len(),
                self.patterns() == old(self).patterns(),
                self.rules() == old(self).rules(),
                well_sorted(self@),
                self@.tally.total == old(self)@.tally.total + i,
                old(self)@.tally.total + lines@.len() <= usize::MAX,
                self@ == run(
                    old(self)@,
                    old(self).patterns(),
                    old(self).rules(),
                    views(lines@).take(i as int),
                ),
            decreases lines.len() - i,
        {
            proof {
                let all = views(lines@);
                assert(all.take(i + 1).drop_last() =~= all.take(i as int));
                assert(all.take(i + 1).last() == lines@[i as int]@);
                lemma_step_well_sorted(self@, self.patterns(), self.rules(), lines@[i as int]@);
            }
            self.process_line(lines[i].as_str());
            i += 1;
        }
        proof {
            assert(views(lines@).take(i as int) =~= views(lines@));
        }
    }

    /// Sorts the lines of a text, in their order.
    pub fn process_text(&mut self, text: &str)
        requires
            well_sorted(old(self)@),
            old(self)@.tally.total + lines_of(text@).len() <= usize::MAX,
        ensures
            final(self)@ == run(
                old(self)@,
                old(self).patterns(),
                old(self).rules(),
                lines_of(text@),
            ),
            final(self).patterns() == old(self).patterns(),
            final(self).rules() == old(self).rules(),
            well_sorted(final(self)@),
    {
        let chars = to_chars(text);
        let lines = split_lines(chars.as_slice());
        self.process_lines(&lines);
    }

    /// Sorts those lines of a text that are marked as a warning or an
    /// error, in their order.
    pub fn process_marked_text(&mut self, text: &str)
        requires
            well_sorted(old(self)@),
            old(self)@.tally.total + lines_of(text@).len() <= usize::MAX,
        ensures
            final(self)@ == run(
                old(self)@,
                old(self).patterns(),
                old(self).rules(),
                marked(lines_of(text@)),
            ),
            final(self).patterns() == old(self).patterns(),
            final(self).rules() == old(self).rules(),
            well_sorted(final(self)@),
    {
        let chars = to_chars(text);
        let lines = split_lines(chars.as_slice());
        let kept = keep_marked(lines);
        self.process_lines(&kept);
    }
}

/// Whether a line is marked as a warning or an error: it holds `WARN` or
/// `ERROR`.
pub open spec fn is_marked(line: Seq<char>) -> bool {
    contains_text(line, "WARN"@) || contains_text(line, "ERROR"@)
}

/// The marked lines among the given ones, in their order.
pub open spec fn marked(lines: Seq<Seq<char>>) -> Seq<Seq<char>>
    decreases lines.len(),
{
    if lines.len() == 0 {
        Seq::empty()
    } else if is_marked(lines.last()) {
        marked(lines.drop_last()).push(lines.last())
    } else {
        marked(lines.drop_last())
    }
}

/// There are no more marked lines than lines.
pub proof fn lemma_marked_len(lines: Seq<Seq<char>>)
    ensures
        marked(lines).len() <= lines.len(),
    decreases lines.len(),
{
    if lines.len() > 0 {
        lemma_marked_len(lines.drop_last());
    }
}

/// Keeps the lines that are marked as a warning or an error.
pub fn keep_marked(lines: Vec<String>) -> (kept: Vec<String>)
    ensures
        views(kept@) == marked(views(lines@)),
        kept@.len() <= lines@.len(),
{
    let warn = to_chars("WARN");
    let error = to_chars("ERROR");
    let mut kept: Vec<String> = Vec::new();
    let mut i: usize = 0;
    proof {
        assert(views(lines@).take(0) =~= Seq::<Seq<char>>::empty());
        assert(views(kept@) =~= Seq::<Seq<char>>::empty());
    }
    while i < lines.len()
        invariant
            i <= lines.len(),
            warn@ == "WARN"@,
            error@ == "ERROR"@,
            views(kept@) == marked(views(lines@).take(i as int)),
        decreases lines.len() - i,
    {
        let chars = to_chars(lines[i].as_str());
        let ghost before = views(kept@);
        proof {
            let all = views(lines@);
            assert(all.take(i + 1).drop_last() =~= all.take(i as int));
            assert(all.take(i + 1).last() == lines@[i as int]@);
        }
        if contains(chars.as_slice(), warn.as_slice()) || contains(
            chars.as_slice(),
            error.as_slice(),
        ) {
            kept.push(lines[i].clone());
            proof {
                assert(views(kept@) =~= before.push(lines@[i as int]@));
            }
        }
        i += 1;
    }
    proof {
        assert(views(lines@).take(i as int) =~= views(lines@));
        lemma_marked_len(views(lines@));
    }
    kept
}

/// The number of empty lines among the given ones.
pub open spec fn empty_among(lines: Seq<Seq<char>>) -> nat
    decreases lines.len(),
{
    if lines.len() == 0 {
        0
    } else {
        empty_among(lines.drop_last()) + if lines.last().len() == 0 {
            1nat
        } else {
            0nat
        }
    }
}

/// Counts the lines of a text that was scanned for panics: the empty lines
/// as empty, and all others in the total.
pub fn count_lines(stats: Stats, text: &str) -> (counted: Stats)
    requires
        stats.total + lines_of(text@).len() <= usize::MAX,
        stats.empty_lines + lines_of(text@).len() <= usize::MAX,
    ensures
        counted.empty_lines == stats.empty_lines + empty_among(lines_of(text@)),
        counted.total == stats.total + lines_of(text@).len() - empty_among(lines_of(text@)),
        counted.warning_err == stats.warning_err,
        counted.unknown == stats.unknown,
{
    let chars = to_chars(text);
    let lines = split_lines(chars.as_slice());
    let mut counted = stats;
    let mut i: usize = 0;
    let ghost all = views(lines@);
    proof {
        assert(all.take(0) =~= Seq::<Seq<char>>::empty());
    }
    while i < lines.len()
        invariant
            i <= lines.len(),
            all == views(lines@),
            stats.total + all.len() <= usize::MAX,
            stats.empty_lines + all.len() <= usize::MAX,
            empty_among(all.take(i as int)) <= i,
            counted.empty_lines == stats.empty_lines + empty_among(all.take(i as int)),
            counted.total == stats.total + i - empty_among(all.take(i as int)),
            counted.warning_err == stats.warning_err,
            counted.unknown == stats.unknown,
        decreases lines.len() - i,
    {
        proof {
            assert(all.take(i + 1).drop_last() =~= all.take(i as int));
            assert(all.take(i + 1).last() == lines@[i as int]@);
        }
        if lines[i].as_str().is_empty() {
            counted.empty_lines += 1;
        } else {
            counted.total += 1;
        }
        i += 1;
    }
    proof {
        assert(all.take(i as int) =~= all);
    }
    counted
}

} // verus!

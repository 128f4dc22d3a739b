//! The ranked report of a classification.

use vstd::prelude::*;
use vstd::string::{StrSliceExecFns, StringExecFns};
use crate::classifier::{Family, Group};
use vstd::seq_lib::seq_to_set_is_finite;
use vstd::set_lib::{lemma_int_range, lemma_subset_equality, set_int_range};
use crate::text::{decimal, push_decimal, views};

verus! {

/// Whether the group at `a` stands before the group at `b` in the report:
/// it has more lines, or as many and was met earlier.
pub open spec fn ranks_before(groups: Seq<Family>, a: int, b: int) -> bool {
    groups[a].lines.len() > groups[b].lines.len() || (groups[a].lines.len()
        == groups[b].lines.len() && a < b)
}

/// Whether `order` lists the groups by falling number of lines, groups
/// with as many lines in the order in which they were met.
pub open spec fn is_ranking(order: Seq<usize>, groups: Seq<Family>) -> bool {
    &&& order.len() == groups.len()
    &&& forall|i: int| 0 <= i < order.len() ==> (#[trigger] order[i]) < groups.len()
    &&& forall|i: int, j: int|
        0 <= i < j < order.len() ==> ranks_before(groups, order[i] as int, order[j] as int)
}

/// A ranking lists every group.
pub proof fn lemma_ranking_lists_all(order: Seq<usize>, groups: Seq<Family>, g: int)
    requires
        is_ranking(order, groups),
        0 <= g < groups.len(),
    ensures
        exists|i: int| 0 <= i < order.len() && order[i] == g,
{
    let places = order.map_values(|place: usize| place as int);
    assert(places.no_duplicates()) by {
        assert forall|i: int, j: int| 0 <= i < places.len() && 0 <= j < places.len() && i
            != j implies places[i] != places[j] by {
            if i < j {
                assert(ranks_before(groups, order[i] as int, order[j] as int));
            } else {
                assert(ranks_before(groups, order[j] as int, order[i] as int));
            }
        }
    }
    places.unique_seq_to_set();
    seq_to_set_is_finite(places);
    let all = set_int_range(0, groups.len() as int);
    lemma_int_range(0, groups.len() as int);
    assert(places.to_set().subset_of(all)) by {
        assert forall|place: int| places.to_set().contains(place) implies all.contains(
            place,
        ) by {
            let i = choose|i: int| 0 <= i < places.len() && places[i] == place;
            assert(order[i] < groups.len());
        }
    }
    lemma_subset_equality(places.to_set(), all);
    assert(all.contains(g));
    assert(places.to_set().contains(g));
    let i = choose|i: int| 0 <= i < places.len() && places[i] == g;
    assert(order[i] == g);
}

/// The groups have one ranking and no other.
pub proof fn lemma_ranking_is_unique(first: Seq<usize>, second: Seq<usize>, groups: Seq<Family>)
    requires
        is_ranking(first, groups),
        is_ranking(second, groups),
    ensures
        first == second,
{
    assert forall|i: int| 0 <= i < first.len() implies first[i] == second[i] by {
        lemma_ranking_agrees(first, second, groups, i);
    }
    assert(first =~= second);
}

proof fn lemma_ranking_agrees(
    first: Seq<usize>,
    second: Seq<usize>,
    groups: Seq<Family>,
    i: int,
)
    requires
        is_ranking(first, groups),
        is_ranking(second, groups),
        0 <= i < first.len(),
    ensures
        first[i] == second[i],
    decreases i,
{
    if first[i] != second[i] {
        let (early, late) = if ranks_before(groups, first[i] as int, second[i] as int) {
            (first, second)
        } else {
            (second, first)
        };
        // the group that `early` has at `i` stands in `late` before `i`,
        // where the two rankings agree
        lemma_ranking_lists_all(late, groups, early[i] as int);
        let j = choose|j: int| 0 <= j < late.len() && late[j] == early[i];
        if j > i {
            assert(ranks_before(groups, late[i] as int, late[j] as int));
        } else {
            lemma_ranking_agrees(first, second, groups, j);
            assert(ranks_before(groups, early[j] as int, early[i] as int));
        }
    }
}

/// The ranking of the groups.
pub open spec fn ranking_of(groups: Seq<Family>) -> Seq<usize> {
    choose|order: Seq<usize>| is_ranking(order, groups)
}

/// Ranks the groups for the report: the positions of the groups, by
/// falling number of lines.
pub fn ranking(groups: &Vec<Group>) -> (order: Vec<usize>)
    ensures
        is_ranking(order@, views(groups@)),
        order@ == ranking_of(views(groups@)),
{
    let mut order: Vec<usize> = Vec::new();
    let mut g: usize = 0;
    let ghost families = views(groups@);
    while g < groups.len()
        invariant
            g <= groups.len(),
            families == views(groups@),
            order@.len() == g,
            forall|i: int| 0 <= i < order@.len() ==> (#[trigger] order@[i]) < g,
            forall|i: int, j: int|
                0 <= i < j < order@.len() ==> ranks_before(
                    families,
                    order@[i] as int,
                    order@[j] as int,
                ),
        decreases groups.len() - g,
    {
        let size = groups[g].lines.len();
        let mut at: usize = 0;
        while at < order.len() && groups[order[at]].lines.len() >= size
            invariant
                at <= order@.len(),
                g < groups.len(),
                families == views(groups@),
                size == families[g as int].lines.len(),
                forall|i: int| 0 <= i < order@.len() ==> (#[trigger] order@[i]) < g,
                forall|i: int|
                    0 <= i < at ==> families[(#[trigger] order@[i]) as int].lines.len() >= size,
            decreases order@.len() - at,
        {
            at += 1;
        }
        let ghost before = order@;
        order.insert(at, g);
        proof {
            assert forall|i: int, j: int| 0 <= i < j < order@.len() implies ranks_before(
                families,
                order@[i] as int,
                order@[j] as int,
            ) by {
                if j < at {
                    assert(order@[i] == before[i] && order@[j] == before[j]);
                } else if j == at {
                    assert(order@[i] == before[i]);
                } else if i < at {
                    assert(order@[i] == before[i] && order@[j] == before[j - 1]);
                } else if i == at {
                    assert(order@[j] == before[j - 1]);
                    assert(ranks_before(families, before[at as int] as int, before[j - 1] as int)
                        || at as int == j - 1);
                } else {
                    assert(order@[i] == before[i - 1] && order@[j] == before[j - 1]);
                }
            }
            assert forall|i: int| 0 <= i < order@.len() implies (#[trigger] order@[i]) < g + 1 by {
                if i < at {
                    assert(order@[i] == before[i]);
                } else if i > at {
                    assert(order@[i] == before[i - 1]);
                }
            }
        }
        g += 1;
    }
    proof {
        assert(is_ranking(order@, families));
        assert(is_ranking(ranking_of(families), families));
        lemma_ranking_is_unique(order@, ranking_of(families), families);
    }
    order
}

/// The width of the first two columns of the table.
pub const NARROW: usize = 10;

/// The width of the last column of the table.
pub const WIDE: usize = 135;

/// `count` spaces.
pub open spec fn spaces(count: nat) -> Seq<char> {
    Seq::new(count, |i: int| ' ')
}

/// The text, filled up with spaces to the width where it is shorter.
pub open spec fn padded(text: Seq<char>, width: nat) -> Seq<char> {
    if text.len() >= width {
        text
    } else {
        text + spaces((width - text.len()) as nat)
    }
}

/// One row of the table: the three columns, each filled up to its width,
/// with a bar between them.
pub open spec fn row(count: Seq<char>, severity: Seq<char>, key: Seq<char>) -> Seq<char> {
    padded(count, NARROW as nat) + " | "@ + padded(severity, NARROW as nat) + " | "@ + padded(
        key,
        WIDE as nat,
    )
}

/// The head of the table.
pub open spec fn header() -> Seq<char> {
    row("Count"@, "Severity"@, "Key"@)
}

/// The row of a group: the number of its lines, its severity tag, its key.
pub open spec fn group_row(group: Family) -> Seq<char> {
    row(decimal(group.lines.len()), group.site.ty, group.key)
}

/// The rows of the groups that hold lines, in the given order; a group
/// without lines has no row.
pub open spec fn rows(groups: Seq<Family>, order: Seq<usize>) -> Seq<Seq<char>>
    decreases order.len(),
{
    if order.len() == 0 {
        Seq::empty()
    } else {
        let group = groups[order.last() as int];
        if group.lines.len() > 0 {
            rows(groups, order.drop_last()).push(group_row(group))
        } else {
            rows(groups, order.drop_last())
        }
    }
}

/// The table: the head, then one row for each group that holds lines, in
/// the given order.
pub open spec fn table(groups: Seq<Family>, order: Seq<usize>) -> Seq<Seq<char>> {
    seq![header()] + rows(groups, order)
}

/// A group with its raw lines: the row of the group, each line after a
/// dash, and an empty line.
pub open spec fn raw_group(group: Family) -> Seq<Seq<char>> {
    seq![group_row(group)] + group.lines.map_values(|line: Seq<char>| "  - "@ + line) + seq![
        Seq::<char>::empty(),
    ]
}

/// Appends the text, filled up with spaces to the width.
fn push_padded(out: &mut String, text: &str, width: usize)
    ensures
        final(out)@ == old(out)@ + padded(text@, width as nat),
{
    out.append(text);
    let length = text.unicode_len();
    if length < width {
        let mut i: usize = length;
        proof {
            assert(out@ =~= old(out)@ + text@ + spaces(0));
        }
        while i < width
            invariant
                length <= i <= width,
                length == text@.len(),
                out@ == old(out)@ + text@ + spaces((i - length) as nat),
            decreases width - i,
        {
            out.push(' ');
            proof {
                assert(spaces((i - length) as nat).push(' ') =~= spaces((i + 1 - length) as nat));
                assert(out@ =~= old(out)@ + text@ + spaces((i + 1 - length) as nat));
            }
            i += 1;
        }
        proof {
            assert(out@ =~= old(out)@ + padded(text@, width as nat));
        }
    }
}

/// Writes one row of the table.
pub fn render_row(count: &str, severity: &str, key: &str) -> (text: String)
    ensures
        text@ == row(count@, severity@, key@),
{
    let mut out = String::new();
    push_padded(&mut out, count, NARROW);
    out.append(" | ");
    push_padded(&mut out, severity, NARROW);
    out.append(" | ");
    push_padded(&mut out, key, WIDE);
    proof {
        assert(out@ =~= row(count@, severity@, key@));
    }
    out
}

/// Writes the head of the table.
pub fn render_header() -> (text: String)
    ensures
        text@ == header(),
{
    render_row("Count", "Severity", "Key")
}

/// Writes the row of a group.
pub fn render_group_row(group: &Group) -> (text: String)
    ensures
        text@ == group_row(group@),
{
    let mut count = String::new();
    push_decimal(&mut count, group.lines.len());
    proof {
        assert(count@ =~= decimal(group.lines@.len()));
    }
    render_row(count.as_str(), group.details.ty.as_str(), group.key.as_str())
}

/// Writes the head and the rows of the given groups, in the given order.
fn render_rows(groups: &Vec<Group>, order: &Vec<usize>) -> (lines: Vec<String>)
    requires
        forall|i: int| 0 <= i < order@.len() ==> (#[trigger] order@[i]) < groups@.len(),
    ensures
        views(lines@) == table(views(groups@), order@),
{
    let mut lines: Vec<String> = Vec::new();
    lines.push(render_header());
    let mut i: usize = 0;
    let ghost families = views(groups@);
    proof {
        assert(order@.take(0) =~= Seq::<usize>::empty());
        assert(views(lines@) =~= table(families, order@.take(0)));
    }
    while i < order.len()
        invariant
            i <= order.len(),
            families == views(groups@),
            forall|i: int| 0 <= i < order@.len() ==> (#[trigger] order@[i]) < groups@.len(),
            views(lines@) == table(families, order@.take(i as int)),
        decreases order.len() - i,
    {
        let ghost before = views(lines@);
        let group = &groups[order[i]];
        proof {
            assert(order@.take(i + 1).drop_last() =~= order@.take(i as int));
            assert(families[order@[i as int] as int] == group@);
        }
        if group.lines.len() > 0 {
            lines.push(render_group_row(group));
            proof {
                assert(views(lines@) =~= before.push(group_row(group@)));
                assert(views(lines@) =~= table(families, order@.take(i + 1)));
            }
        }
        i += 1;
    }
    proof {
        assert(order@.take(i as int) =~= order@);
    }
    lines
}

/// Writes the table of the report: the head, then one row for each group
/// that holds lines, by falling number of lines.
pub fn render_table(groups: &Vec<Group>) -> (lines: Vec<String>)
    ensures
        views(lines@) == table(views(groups@), ranking_of(views(groups@))),
{
    let order = ranking(groups);
    render_rows(groups, &order)
}

/// The groups that hold lines, each with its raw lines, in the given order.
pub open spec fn raw_groups(groups: Seq<Family>, order: Seq<usize>) -> Seq<Seq<char>>
    decreases order.len(),
{
    if order.len() == 0 {
        Seq::empty()
    } else {
        let group = groups[order.last() as int];
        if group.lines.len() > 0 {
            raw_groups(groups, order.drop_last()) + raw_group(group)
        } else {
            raw_groups(groups, order.drop_last())
        }
    }
}

/// Writes the groups that hold lines, each with its raw lines, by falling
/// number of lines.
pub fn render_raw(groups: &Vec<Group>) -> (lines: Vec<String>)
    ensures
        views(lines@) == raw_groups(views(groups@), ranking_of(views(groups@))),
{
    let order = ranking(groups);
    let mut lines: Vec<String> = Vec::new();
    let mut i: usize = 0;
    let ghost families = views(groups@);
    proof {
        assert(order@.take(0) =~= Seq::<usize>::empty());
        assert(views(lines@) =~= Seq::<Seq<char>>::empty());
    }
    while i < order.len()
        invariant
            i <= order.len(),
            families == views(groups@),
            is_ranking(order@, families),
            views(lines@) == raw_groups(families, order@.take(i as int)),
        decreases order.len() - i,
    {
        let ghost before = views(lines@);
        let group = &groups[order[i]];
        proof {
            assert(order@.take(i + 1).drop_last() =~= order@.take(i as int));
            assert(families[order@[i as int] as int] == group@);
        }
        if group.lines.len() > 0 {
            let mut written = render_raw_group(group);
            let ghost added = views(written@);
            lines.append(&mut written);
            proof {
                assert(views(lines@) =~= before + added);
            }
        }
        i += 1;
    }
    proof {
        assert(order@.take(i as int) =~= order@);
    }
    lines
}

/// Writes a group with its raw lines.
pub fn render_raw_group(group: &Group) -> (lines: Vec<String>)
    ensures
        views(lines@) == raw_group(group@),
{
    let mut lines: Vec<String> = Vec::new();
    lines.push(render_group_row(group));
    let mut i: usize = 0;
    let ghost dashed = group@.lines.map_values(|line: Seq<char>| "  - "@ + line);
    proof {
        assert(views(lines@) =~= seq![group_row(group@)] + dashed.take(0));
    }
    while i < group.lines.len()
        invariant
            i <= group.lines.len(),
            dashed == group@.lines.map_values(|line: Seq<char>| "  - "@ + line),
            views(lines@) == seq![group_row(group@)] + dashed.take(i as int),
        decreases group.lines.len() - i,
    {
        let ghost before = views(lines@);
        let mut line = String::new();
        line.append("  - ");
        line.append(group.lines[i].as_str());
        lines.push(line);
        proof {
            assert(line@ =~= "  - "@ + group@.lines[i as int]);
            assert(views(lines@) =~= before.push(dashed[i as int]));
            assert(views(lines@) =~= seq![group_row(group@)] + dashed.take(i + 1));
        }
        i += 1;
    }
    let ghost before = views(lines@);
    lines.push(String::new());
    proof {
        assert(dashed.take(i as int) =~= dashed);
        assert(views(lines@) =~= before.push(Seq::<char>::empty()));
        assert(views(lines@) =~= raw_group(group@));
    }
    lines
}

} // verus!

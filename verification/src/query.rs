//! Building the commands that query the log backend.

use vstd::pervasive::unreached;
use vstd::prelude::*;
use vstd::string::StringExecFns;
use crate::clock::{
    format_time, formatted_time, now_seconds, parse_time, parsed_time, query_time_format,
    time_format,
};
use crate::text::{decimal, push_decimal, view_of, views};

verus! {

/// The seconds of one sub-window of a chunked query.
pub const HOUR: i64 = 3600;

/// What a query is built from.
pub struct QueryConfig {
    pub address: Option<Seq<char>>,
    pub chain: Option<Seq<char>>,
    pub start_time: Option<Seq<char>>,
    pub end_time: Option<Seq<char>>,
    pub levels: Seq<Seq<char>>,
    pub batch: nat,
    pub limit: nat,
    pub exclude_common_errors: bool,
    pub appended_query: Seq<char>,
    pub org_id: Option<Seq<char>>,
    pub node: Option<Seq<char>>,
}

/// Why no query could be built.
#[derive(Clone, Copy, Debug, PartialEq, Eq, Structural)]
pub enum QueryError {
    /// A bound of the window is not a time in the format of the queries.
    InvalidTime,
    /// A time of the window lies beyond what the calendar can write.
    TimeOutOfRange,
}

/// Builds the commands that query the log backend.
pub struct QueryBuilder {
    address: Option<String>,
    chain: Option<String>,
    start_time: Option<String>,
    end_time: Option<String>,
    levels: Vec<String>,
    batch: usize,
    limit: usize,
    exclude_common_errors: bool,
    appended_query: String,
    org_id: Option<String>,
    node: Option<String>,
}

impl View for QueryBuilder {
    type V = QueryConfig;

    closed spec fn view(&self) -> QueryConfig {
        QueryConfig {
            address: view_of(self.address),
            chain: view_of(self.chain),
            start_time: view_of(self.start_time),
            end_time: view_of(self.end_time),
            levels: views(self.levels@),
            batch: self.batch as nat,
            limit: self.limit as nat,
            exclude_common_errors: self.exclude_common_errors,
            appended_query: self.appended_query@,
            org_id: view_of(self.org_id),
            node: view_of(self.node),
        }
    }
}

/// The configuration of a new builder.
pub open spec fn default_config() -> QueryConfig {
    QueryConfig {
        address: None,
        chain: None,
        start_time: None,
        end_time: None,
        levels: Seq::empty(),
        batch: 5000,
        limit: 100000,
        exclude_common_errors: true,
        appended_query: Seq::empty(),
        org_id: None,
        node: None,
    }
}

/// The address that is queried where none is set.
pub open spec fn default_address() -> Seq<char> {
    "127.0.0.1:10700"@
}

/// The chain that is queried where none is set.
pub open spec fn default_chain() -> Seq<char> {
    "versi-networking"@
}

/// The clauses that leave the common errors out of a query.
pub open spec fn common_errors() -> Seq<char> {
    " != `Error while dialing` != `Some security issues have been detected` != `The hardware does not meet`"@
}

/// The parts joined, with the separator between each two.
pub open spec fn join(parts: Seq<Seq<char>>, separator: Seq<char>) -> Seq<char>
    decreases parts.len(),
{
    if parts.len() == 0 {
        Seq::empty()
    } else if parts.len() == 1 {
        parts[0]
    } else {
        join(parts.drop_last(), separator) + separator + parts.last()
    }
}

/// The selector of the levels: empty where none is set.
pub open spec fn level_clause(levels: Seq<Seq<char>>) -> Seq<char> {
    if levels.len() == 0 {
        Seq::empty()
    } else {
        ", level=~\""@ + join(levels, "|"@) + "\""@
    }
}

/// The selector of the node: empty where none is set.
pub open spec fn node_clause(node: Option<Seq<char>>) -> Seq<char> {
    match node {
        Some(node) => ", node=~\""@ + node + "\" "@,
        None => Seq::empty(),
    }
}

/// The option that names the organization: empty where none is set.
pub open spec fn org_clause(org_id: Option<Seq<char>>) -> Seq<char> {
    match org_id {
        Some(org_id) => " --org-id='"@ + org_id + "' "@,
        None => Seq::empty(),
    }
}

/// The text, or the default where there is none.
pub open spec fn or_default(text: Option<Seq<char>>, default: Seq<char>) -> Seq<char> {
    match text {
        Some(text) => text,
        None => default,
    }
}

/// The command that queries the window from `from` to `to`.
pub open spec fn command(config: QueryConfig, from: Seq<char>, to: Seq<char>) -> Seq<char> {
    "logcli query --addr="@ + or_default(config.address, default_address())
        + " --timezone=UTC --from=\""@ + from + "\" --to=\""@ + to + "\" '{chain=\""@ + or_default(
        config.chain,
        default_chain(),
    ) + "\" "@ + level_clause(config.levels) + " "@ + node_clause(config.node) + "} "@ + (
    if config.exclude_common_errors {
        common_errors()
    } else {
        Seq::empty()
    }) + " "@ + config.appended_query + "' --batch "@ + decimal(config.batch) + " --limit "@
        + decimal(config.limit) + " "@ + org_clause(config.org_id)
}

/// The time written in the format of the queries; `None` where the calendar
/// does not reach that far.
pub open spec fn stamp(seconds: int) -> Option<Seq<char>> {
    if i64::MIN <= seconds <= i64::MAX {
        formatted_time(seconds, query_time_format())
    } else {
        None
    }
}

/// Whether the window is whole: both of its bounds are set, or none is. A
/// query with exactly one bound is an error, and no command is built of it.
pub open spec fn is_whole(config: QueryConfig) -> bool {
    (config.start_time is Some) == (config.end_time is Some)
}

/// The hour that ends at `now`, the two bounds written as texts.
pub open spec fn last_hour(now: int) -> Result<(Seq<char>, Seq<char>), QueryError> {
    match (stamp(now - HOUR), stamp(now)) {
        (Some(start), Some(end)) => Ok((start, end)),
        _ => Err(QueryError::TimeOutOfRange),
    }
}

/// The window of a query at the time `now`: the two bounds where they are
/// set, and the hour that ends at `now` where they are not.
pub open spec fn window(config: QueryConfig, now: int) -> Result<
    (Seq<char>, Seq<char>),
    QueryError,
>
    recommends
        is_whole(config),
{
    match (config.start_time, config.end_time) {
        (Some(start), Some(end)) => Ok((start, end)),
        _ => last_hour(now),
    }
}

/// The one command that queries the whole window.
pub open spec fn single(config: QueryConfig, now: int) -> Result<Seq<char>, QueryError> {
    match window(config, now) {
        Ok((start, end)) => Ok(command(config, start, end)),
        Err(error) => Err(error),
    }
}

/// The commands for the window from the time `from`, written `from_text`, to
/// the time `end`, written `end_text`: one for each full hour, and one for
/// what is left, which ends with `end_text`.
pub open spec fn chunks_from(
    config: QueryConfig,
    from_text: Seq<char>,
    from: int,
    end_text: Seq<char>,
    end: int,
) -> Result<Seq<Seq<char>>, QueryError>
    decreases end - from,
{
    if from >= end {
        Ok(Seq::empty())
    } else if from + HOUR >= end {
        Ok(seq![command(config, from_text, end_text)])
    } else {
        match stamp(from + HOUR) {
            None => Err(QueryError::TimeOutOfRange),
            Some(next_text) => match chunks_from(config, next_text, from + HOUR, end_text, end) {
                Ok(rest) => Ok(seq![command(config, from_text, next_text)] + rest),
                Err(error) => Err(error),
            },
        }
    }
}

/// The commands that query, hour by hour, the window between two bounds
/// that are set. The bounds are read as times in the format of the queries,
/// to the second.
pub open spec fn chunks_between(config: QueryConfig, start: Seq<char>, end: Seq<char>) -> Result<
    Seq<Seq<char>>,
    QueryError,
> {
    match (parsed_time(start, query_time_format()), parsed_time(end, query_time_format())) {
        (Some(from), Some(to)) => chunks_from(config, start, from.0, end, to.0),
        _ => Err(QueryError::InvalidTime),
    }
}

/// The commands that query the window hour by hour. Where no bound is set
/// the window is the hour that ends at `now`, which one command covers.
pub open spec fn chunked(config: QueryConfig, now: int) -> Result<Seq<Seq<char>>, QueryError>
    recommends
        is_whole(config),
{
    match (config.start_time, config.end_time) {
        (Some(start), Some(end)) => chunks_between(config, start, end),
        _ => match last_hour(now) {
            Ok((start, end)) => chunks_from(config, start, now - HOUR, end, now),
            Err(error) => Err(error),
        },
    }
}

/// Whether `text` is the view of what was built.
pub open spec fn built(r: Result<String, QueryError>, expected: Result<Seq<char>, QueryError>)
    -> bool {
    match r {
        Ok(text) => expected == Ok::<Seq<char>, QueryError>(text@),
        Err(error) => expected == Err::<Seq<char>, QueryError>(error),
    }
}

/// Whether `commands` are the views of what was built.
pub open spec fn built_all(
    r: Result<Vec<String>, QueryError>,
    expected: Result<Seq<Seq<char>>, QueryError>,
) -> bool {
    match r {
        Ok(commands) => expected == Ok::<Seq<Seq<char>>, QueryError>(views(commands@)),
        Err(error) => expected == Err::<Seq<Seq<char>>, QueryError>(error),
    }
}

/// Appends the parts, with the separator between each two.
pub fn push_joined(out: &mut String, parts: &Vec<String>, separator: &str)
    ensures
        final(out)@ == old(out)@ + join(views(parts@), separator@),
{
    let mut i: usize = 0;
    proof {
        assert(views(parts@).take(0) =~= Seq::<Seq<char>>::empty());
        assert(out@ =~= old(out)@ + join(views(parts@).take(0), separator@));
    }
    while i < parts.len()
        invariant
            i <= parts.len(),
            out@ == old(out)@ + join(views(parts@).take(i as int), separator@),
        decreases parts.len() - i,
    {
        if i > 0 {
            out.append(separator);
        }
        out.append(parts[i].as_str());
        proof {
            let all = views(parts@);
            assert(all.take(i + 1).drop_last() =~= all.take(i as int));
            assert(all.take(i + 1).last() == parts@[i as int]@);
            assert(all.take(i + 1)[0] == parts@[0]@);
            assert(out@ =~= old(out)@ + join(all.take(i + 1), separator@));
        }
        i += 1;
    }
    proof {
        assert(views(parts@).take(i as int) =~= views(parts@));
    }
}

impl QueryBuilder {
    /// A builder with nothing set: the default address and chain, no window,
    /// no levels, batches of 5000, a limit of 100000, the common errors
    /// left out.
    pub fn new() -> (builder: Self)
        ensures
            builder@ == default_config(),
    {
        let builder = Self {
            address: None,
            chain: None,
            start_time: None,
            end_time: None,
            levels: Vec::new(),
            batch: 5000,
            limit: 100000,
            exclude_common_errors: true,
            appended_query: String::new(),
            org_id: None,
            node: None,
        };
        proof {
            assert(views(builder.levels@) =~= Seq::<Seq<char>>::empty());
        }
        builder
    }

    /// Sets the address of the backend.
    pub fn address(self, address: String) -> (builder: Self)
        ensures
            builder@ == (QueryConfig { address: Some(address@), ..self@ }),
    {
        Self { address: Some(address), ..self }
    }

    /// Sets the chain to query.
    pub fn chain(self, chain: String) -> (builder: Self)
        ensures
            builder@ == (QueryConfig { chain: Some(chain@), ..self@ }),
    {
        Self { chain: Some(chain), ..self }
    }

    /// Sets the two bounds of the window, each written as
    /// `YYYY-MM-DDTHH:MM:SSZ`.
    pub fn set_time(self, start_time: Option<String>, end_time: Option<String>) -> (builder:
        Self)
        ensures
            builder@ == (QueryConfig {
                start_time: view_of(start_time),
                end_time: view_of(end_time),
                ..self@
            }),
    {
        Self { start_time, end_time, ..self }
    }

    /// Sets whether the common errors are left out of the query.
    pub fn exclude_common_errors(self, exclude_common_errors: bool) -> (builder: Self)
        ensures
            builder@ == (QueryConfig { exclude_common_errors, ..self@ }),
    {
        Self { exclude_common_errors, ..self }
    }

    /// Sets the size of a batch.
    pub fn batch(self, batch: usize) -> (builder: Self)
        ensures
            builder@ == (QueryConfig { batch: batch as nat, ..self@ }),
    {
        Self { batch, ..self }
    }

    /// Sets the limit of the query.
    pub fn limit(self, limit: usize) -> (builder: Self)
        ensures
            builder@ == (QueryConfig { limit: limit as nat, ..self@ }),
    {
        Self { limit, ..self }
    }

    /// Sets the levels to query.
    pub fn levels(self, levels: Vec<String>) -> (builder: Self)
        ensures
            builder@ == (QueryConfig { levels: views(levels@), ..self@ }),
    {
        Self { levels, ..self }
    }

    /// Sets the text that is appended to the query.
    pub fn append_query(self, query: String) -> (builder: Self)
        ensures
            builder@ == (QueryConfig { appended_query: query@, ..self@ }),
    {
        Self { appended_query: query, ..self }
    }

    /// Sets the organization.
    pub fn org_id(self, org_id: Option<String>) -> (builder: Self)
        ensures
            builder@ == (QueryConfig { org_id: view_of(org_id), ..self@ }),
    {
        Self { org_id, ..self }
    }

    /// Sets the node to query.
    pub fn node(self, node: Option<String>) -> (builder: Self)
        ensures
            builder@ == (QueryConfig { node: view_of(node), ..self@ }),
    {
        Self { node, ..self }
    }

    /// The command that queries the window from `from` to `to`.
    pub fn command_for(&self, from: &str, to: &str) -> (text: String)
        ensures
            text@ == command(self@, from@, to@),
    {
        let mut out = String::new();
        out.append("logcli query --addr=");
        match &self.address {
            Some(address) => out.append(address.as_str()),
            None => out.append("127.0.0.1:10700"),
        }
        out.append(" --timezone=UTC --from=\"");
        out.append(from);
        out.append("\" --to=\"");
        out.append(to);
        out.append("\" '{chain=\"");
        match &self.chain {
            Some(chain) => out.append(chain.as_str()),
            None => out.append("versi-networking"),
        }
        out.append("\" ");
        if self.levels.len() > 0 {
            let ghost before = out@;
            out.append(", level=~\"");
            push_joined(&mut out, &self.levels, "|");
            out.append("\"");
            proof {
                assert(out@ =~= before + level_clause(views(self.levels@)));
            }
        } else {
            proof {
                assert(out@ =~= out@ + level_clause(views(self.levels@)));
            }
        }
        out.append(" ");
        let ghost before_node = out@;
        match &self.node {
            Some(node) => {
                out.append(", node=~\"");
                out.append(node.as_str());
                out.append("\" ");
            },
            None => {},
        }
        proof {
            assert(out@ =~= before_node + node_clause(view_of(self.node)));
        }
        out.append("} ");
        let ghost before_errors = out@;
        if self.exclude_common_errors {
            out.append(
                " != `Error while dialing` != `Some security issues have been detected` != `The hardware does not meet`",
            );
        }
        proof {
            assert(out@ =~= before_errors + (if self.exclude_common_errors {
                common_errors()
            } else {
                Seq::empty()
            }));
        }
        out.append(" ");
        out.append(self.appended_query.as_str());
        out.append("' --batch ");
        push_decimal(&mut out, self.batch);
        out.append(" --limit ");
        push_decimal(&mut out, self.limit);
        out.append(" ");
        let ghost before_org = out@;
        match &self.org_id {
            Some(org_id) => {
                out.append(" --org-id='");
                out.append(org_id.as_str());
                out.append("' ");
            },
            None => {},
        }
        proof {
            assert(out@ =~= before_org + org_clause(view_of(self.org_id)));
        }
        out
    }

    /// Tests whether the window is whole: both of its bounds are set, or
    /// none is.
    pub fn has_whole_window(&self) -> (b: bool)
        ensures
            b == is_whole(self@),
    {
        self.start_time.is_some() == self.end_time.is_some()
    }

    /// The hour that ends at `now`, the two bounds written as texts.
    fn last_hour_at(now: i64) -> (r: Result<(String, String), QueryError>)
        ensures
            match r {
                Ok((start, end)) => last_hour(now as int) == Ok::<
                    (Seq<char>, Seq<char>),
                    QueryError,
                >((start@, end@)) && now - HOUR >= i64::MIN,
                Err(error) => last_hour(now as int) == Err::<(Seq<char>, Seq<char>), QueryError>(
                    error,
                ),
            },
    {
        if now < i64::MIN + HOUR {
            return Err(QueryError::TimeOutOfRange);
        }
        let start = format_time(now - HOUR, time_format());
        let end = format_time(now, time_format());
        match (start, end) {
            (Some(start), Some(end)) => Ok((start, end)),
            _ => Err(QueryError::TimeOutOfRange),
        }
    }

    /// Builds the one command that queries the whole window, for the time
    /// `now` in seconds since the start of 1970.
    ///
    /// Where both bounds are set the window runs from one to the other;
    /// where none is set it is the hour that ends at `now`. A window with
    /// exactly one bound is not taken.
    pub fn build_at(&self, now: i64) -> (r: Result<String, QueryError>)
        requires
            is_whole(self@),
        ensures
            built(r, single(self@, now as int)),
    {
        match (&self.start_time, &self.end_time) {
            (Some(start), Some(end)) => Ok(self.command_for(start.as_str(), end.as_str())),
            (None, None) => match Self::last_hour_at(now) {
                Ok((start, end)) => Ok(self.command_for(start.as_str(), end.as_str())),
                Err(error) => Err(error),
            },
            _ => unreached(),
        }
    }

    /// Builds the one command that queries the whole window. The system
    /// clock is read where the window is not set, and only there.
    pub fn build(&self) -> (r: Result<String, QueryError>)
        requires
            is_whole(self@),
        ensures
            self@.start_time is Some ==> (r matches Ok(text) && text@ == command(
                self@,
                self@.start_time->0,
                self@.end_time->0,
            )),
            self@.start_time is None ==> exists|now: i64| built(r, single(self@, now as int)),
    {
        match (&self.start_time, &self.end_time) {
            (Some(start), Some(end)) => Ok(self.command_for(start.as_str(), end.as_str())),
            _ => {
                let now = now_seconds();
                let r = self.build_at(now);
                proof {
                    assert(built(r, single(self@, now as int)));
                }
                r
            },
        }
    }

    /// The commands for the window from the time `from`, written `start`,
    /// to the time `to`, written `end`.
    fn chunks(&self, start: String, from: i64, end: &str, to: i64) -> (r: Result<
        Vec<String>,
        QueryError,
    >)
        ensures
            built_all(r, chunks_from(self@, start@, from as int, end@, to as int)),
    {
        let mut commands: Vec<String> = Vec::new();
        let ghost whole = chunks_from(self@, start@, from as int, end@, to as int);
        let mut from_text = start;
        let mut at = from;
        proof {
            assert(views(commands@) =~= Seq::<Seq<char>>::empty());
            let rest = chunks_from(self@, from_text@, at as int, end@, to as int);
            if rest is Ok {
                assert(Seq::<Seq<char>>::empty() + rest->Ok_0 =~= rest->Ok_0);
            }
        }
        loop
            invariant
                whole == chunks_from(self@, start@, from as int, end@, to as int),
                whole == after(
                    views(commands@),
                    chunks_from(self@, from_text@, at as int, end@, to as int),
                ),
            decreases to - at,
        {
            let ghost done = views(commands@);
            if at >= to {
                proof {
                    assert(done + Seq::<Seq<char>>::empty() =~= done);
                }
                return Ok(commands);
            }
            if (to as i128) - (at as i128) <= (HOUR as i128) {
                commands.push(self.command_for(from_text.as_str(), end));
                proof {
                    assert(views(commands@) =~= done + seq![
                        command(self@, from_text@, end@),
                    ]);
                }
                return Ok(commands);
            }
            let next = at + HOUR;
            match format_time(next, time_format()) {
                None => {
                    return Err(QueryError::TimeOutOfRange);
                },
                Some(next_text) => {
                    commands.push(self.command_for(from_text.as_str(), next_text.as_str()));
                    proof {
                        let first = command(self@, from_text@, next_text@);
                        assert(views(commands@) =~= done.push(first));
                        let rest = chunks_from(self@, next_text@, next as int, end@, to as int);
                        if rest is Ok {
                            assert(done + (seq![first] + rest->Ok_0) =~= done.push(first)
                                + rest->Ok_0);
                        }
                    }
                    from_text = next_text;
                    at = next;
                },
            }
        }
    }

    /// The commands for the window whose two bounds are set.
    fn chunks_of(&self, start: &String, end: &String) -> (r: Result<Vec<String>, QueryError>)
        ensures
            built_all(r, chunks_between(self@, start@, end@)),
    {
        let from = parse_time(start.as_str(), time_format());
        let to = parse_time(end.as_str(), time_format());
        match (from, to) {
            (Some(from), Some(to)) => self.chunks(start.clone(), from.0, end.as_str(), to.0),
            _ => Err(QueryError::InvalidTime),
        }
    }

    /// Builds the commands that query the window hour by hour, for the time
    /// `now` in seconds since the start of 1970.
    ///
    /// The window is that of [`QueryBuilder::build_at`]. Each command covers
    /// one hour, from the start of the window on; what is left at the end,
    /// an hour or less, is covered by a last command that ends with the end
    /// of the window as it was given. Where no bound is set, one command
    /// covers the hour that ends at `now`.
    pub fn build_chunks_at(&self, now: i64) -> (r: Result<Vec<String>, QueryError>)
        requires
            is_whole(self@),
        ensures
            built_all(r, chunked(self@, now as int)),
            self@.start_time is None ==> (r matches Ok(commands) ==> commands@.len() == 1),
    {
        match (&self.start_time, &self.end_time) {
            (Some(start), Some(end)) => self.chunks_of(start, end),
            (None, None) => match Self::last_hour_at(now) {
                Ok((start, end)) => {
                    let r = self.chunks(start, now - HOUR, end.as_str(), now);
                    proof {
                        if r is Ok {
                            assert(views(r->Ok_0@).len() == 1);
                        }
                    }
                    r
                },
                Err(error) => Err(error),
            },
            _ => unreached(),
        }
    }

    /// Builds the commands that query the window hour by hour. The system
    /// clock is read where the window is not set, and only there.
    pub fn build_chunks(&self) -> (r: Result<Vec<String>, QueryError>)
        requires
            is_whole(self@),
        ensures
            self@.start_time is Some ==> built_all(
                r,
                chunks_between(self@, self@.start_time->0, self@.end_time->0),
            ),
            self@.start_time is None ==> exists|now: i64|
                built_all(r, chunked(self@, now as int)),
            self@.start_time is None ==> (r matches Ok(commands) ==> commands@.len() == 1),
    {
        match (&self.start_time, &self.end_time) {
            (Some(start), Some(end)) => self.chunks_of(start, end),
            _ => {
                let now = now_seconds();
                let r = self.build_chunks_at(now);
                proof {
                    assert(built_all(r, chunked(self@, now as int)));
                }
                r
            },
        }
    }
}

impl Default for QueryBuilder {
    fn default() -> (builder: Self)
        ensures
            builder@ == default_config(),
    {
        Self::new()
    }
}

/// The commands `done`, followed by those of `rest` where there are any.
pub open spec fn after(done: Seq<Seq<char>>, rest: Result<Seq<Seq<char>>, QueryError>) -> Result<
    Seq<Seq<char>>,
    QueryError,
> {
    match rest {
        Ok(rest) => Ok(done + rest),
        Err(error) => Err(error),
    }
}

/// The number of commands for a window from `from` to `end`: one for every
/// hour that the window has begun.
pub open spec fn chunk_count(from: int, end: int) -> nat {
    if end <= from {
        0
    } else {
        ((end - from + HOUR - 1) / (HOUR as int)) as nat
    }
}

/// The text of the bound between the sub-windows `k - 1` and `k`: the start
/// of the window as it was given, then the times an hour apart, and the end
/// of the window as it was given.
pub open spec fn bound_text(
    from_text: Seq<char>,
    from: int,
    end_text: Seq<char>,
    end: int,
    k: int,
) -> Seq<char> {
    if k <= 0 {
        from_text
    } else if from + k * HOUR >= end {
        end_text
    } else {
        stamp(from + k * HOUR).unwrap()
    }
}

/// The commands of a chunked query cover the window hour by hour: there is
/// one for every hour begun, each runs from one bound to the next, the first
/// from the start of the window and the last to its end.
pub proof fn lemma_chunks_are_hours(
    config: QueryConfig,
    from_text: Seq<char>,
    from: int,
    end_text: Seq<char>,
    end: int,
)
    ensures
        chunks_from(config, from_text, from, end_text, end) matches Ok(commands) ==> {
            &&& commands.len() == chunk_count(from, end)
            &&& forall|k: int|
                0 <= k < commands.len() ==> #[trigger] commands[k] == command(
                    config,
                    bound_text(from_text, from, end_text, end, k),
                    bound_text(from_text, from, end_text, end, k + 1),
                )
        },
    decreases end - from,
{
    if from < end && from + HOUR < end {
        match stamp(from + HOUR) {
            None => {},
            Some(next_text) => {
                let next = from + HOUR;
                lemma_chunks_are_hours(config, next_text, next, end_text, end);
                match chunks_from(config, next_text, next, end_text, end) {
                    Err(_) => {},
                    Ok(rest) => {
                        let commands = seq![command(config, from_text, next_text)] + rest;
                        assert forall|k: int| 0 <= k < commands.len() implies #[trigger] commands[k]
                            == command(
                            config,
                            bound_text(from_text, from, end_text, end, k),
                            bound_text(from_text, from, end_text, end, k + 1),
                        ) by {
                            if k > 0 {
                                assert(commands[k] == rest[k - 1]);
                                assert(bound_text(next_text, next, end_text, end, k - 1)
                                    == bound_text(from_text, from, end_text, end, k));
                                assert(bound_text(next_text, next, end_text, end, k)
                                    == bound_text(from_text, from, end_text, end, k + 1));
                            }
                        }
                    },
                }
            },
        }
    }
}

} // verus!

//! The options of a run, and what they ask for.

use vstd::prelude::*;
use crate::query::{
    built_all, chunked, chunks_between, default_config, QueryBuilder, QueryConfig, QueryError,
};
use crate::text::views;
use crate::text::view_of;

verus! {

/// The options of a run.
#[derive(Debug)]
pub struct Config {
    /// The address of the log backend.
    pub address: String,
    /// A file to read the lines from, in place of a query.
    pub file: Option<String>,
    /// The chain to query.
    pub chain: String,
    /// The node to query.
    pub node: Option<String>,
    /// The start of the window, as `YYYY-MM-DDTHH:MM:SSZ`.
    pub start_time: Option<String>,
    /// The end of the window, as `YYYY-MM-DDTHH:MM:SSZ`.
    pub end_time: Option<String>,
    /// The organization.
    pub org_id: Option<String>,
    /// Whether to go without mined patterns.
    pub skip_regex_build: bool,
    /// The repository whose sources are mined.
    pub regex_repo: Option<String>,
    /// The branch whose sources are mined.
    pub regex_branch: Option<String>,
    /// Whether the report holds the raw lines of each group.
    pub raw: bool,
}

impl Clone for Config {
    fn clone(&self) -> (copy: Self)
        ensures
            copy == *self,
    {
        Config {
            address: self.address.clone(),
            file: self.file.clone(),
            chain: self.chain.clone(),
            node: self.node.clone(),
            start_time: self.start_time.clone(),
            end_time: self.end_time.clone(),
            org_id: self.org_id.clone(),
            skip_regex_build: self.skip_regex_build,
            regex_repo: self.regex_repo.clone(),
            regex_branch: self.regex_branch.clone(),
            raw: self.raw,
        }
    }
}

/// Where the lines of a run come from.
#[derive(Debug)]
pub enum QueryType {
    /// From the file at this path.
    File(String),
    /// From the log backend, by these commands.
    Grafana(Vec<String>),
}

/// What is amiss with the options.
#[derive(Clone, Copy, Debug, PartialEq, Eq, Structural)]
pub enum ConfigError {
    /// Patterns are to be mined, and no repository is given.
    MissingRepo,
    /// Patterns are to be mined, and no branch is given.
    MissingBranch,
}

/// The query for warnings and errors that the options ask for.
pub open spec fn warning_query(opts: Config) -> QueryConfig {
    QueryConfig {
        address: Some(opts.address@),
        chain: Some(opts.chain@),
        levels: seq!["WARN"@, "ERROR"@],
        start_time: view_of(opts.start_time),
        end_time: view_of(opts.end_time),
        org_id: view_of(opts.org_id),
        node: view_of(opts.node),
        ..default_config()
    }
}

/// The query for panics that the options ask for: any level, the common
/// errors not left out, and only lines that hold `panic`.
pub open spec fn panic_query(opts: Config) -> QueryConfig {
    QueryConfig {
        address: Some(opts.address@),
        chain: Some(opts.chain@),
        start_time: view_of(opts.start_time),
        end_time: view_of(opts.end_time),
        exclude_common_errors: false,
        appended_query: "|~ `panic`"@,
        ..default_config()
    }
}

/// Whether the lines come from the log backend by the expected commands,
/// or the expected error is returned.
pub open spec fn planned(
    r: Result<QueryType, QueryError>,
    expected: Result<Seq<Seq<char>>, QueryError>,
) -> bool {
    match r {
        Ok(QueryType::Grafana(commands)) => built_all(Ok(commands), expected),
        Ok(QueryType::File(_)) => false,
        Err(error) => built_all(Err(error), expected),
    }
}

/// Builds the query for warnings and errors.
pub fn warning_builder(opts: Config) -> (builder: QueryBuilder)
    ensures
        builder@ == warning_query(opts),
{
    let mut levels: Vec<String> = Vec::new();
    levels.push("WARN".to_owned());
    levels.push("ERROR".to_owned());
    proof {
        assert(views(levels@) =~= seq!["WARN"@, "ERROR"@]);
    }
    QueryBuilder::new().address(opts.address).chain(opts.chain).levels(levels).set_time(
        opts.start_time,
        opts.end_time,
    ).org_id(opts.org_id).node(opts.node)
}

/// Builds the query for panics.
pub fn panic_builder(opts: Config) -> (builder: QueryBuilder)
    ensures
        builder@ == panic_query(opts),
{
    QueryBuilder::new().address(opts.address).chain(opts.chain).set_time(
        opts.start_time,
        opts.end_time,
    ).exclude_common_errors(false).append_query("|~ `panic`".to_owned())
}

/// Whether the options ask for a window with both bounds, or with none.
pub open spec fn has_whole_window(opts: Config) -> bool {
    (opts.start_time is Some) == (opts.end_time is Some)
}

/// Tests whether the options ask for a window with both bounds, or with
/// none.
pub fn window_is_whole(opts: &Config) -> (b: bool)
    ensures
        b == has_whole_window(*opts),
{
    opts.start_time.is_some() == opts.end_time.is_some()
}

/// Where the lines of a run for warnings and errors come from: from the
/// file where one is given, and else from the log backend, by the commands
/// of the query hour by hour. Without a file, a window with exactly one
/// bound is not taken.
pub fn build_query(opts: Config) -> (r: Result<QueryType, QueryError>)
    requires
        opts.file is None ==> has_whole_window(opts),
    ensures
        opts.file is Some ==> (r matches Ok(QueryType::File(path)) && Some(path@) == view_of(
            opts.file,
        )),
        opts.file is None && opts.start_time is Some ==> planned(
            r,
            chunks_between(warning_query(opts), opts.start_time->0@, opts.end_time->0@),
        ),
        opts.file is None && opts.start_time is None ==> exists|now: i64|
            planned(r, chunked(warning_query(opts), now as int)),
{
    if opts.file.is_some() {
        return Ok(QueryType::File(opts.file.unwrap()));
    }
    let builder = warning_builder(opts);
    let built = builder.build_chunks();
    let ghost expected = if opts.start_time is Some {
        chunks_between(builder@, opts.start_time->0@, opts.end_time->0@)
    } else {
        let now = choose|now: i64| built_all(built, chunked(builder@, now as int));
        chunked(builder@, now as int)
    };
    proof {
        assert(built_all(built, expected));
    }
    match built {
        Ok(commands) => {
            let r = Ok(QueryType::Grafana(commands));
            proof {
                assert(planned(r, expected));
            }
            r
        },
        Err(error) => {
            let r = Err(error);
            proof {
                assert(planned(r, expected));
            }
            r
        },
    }
}

/// The repository and the branch to mine, if patterns are to be mined.
pub fn regex_origin(opts: &Config) -> (r: Result<Option<(String, String)>, ConfigError>)
    ensures
        match r {
            Ok(None) => opts.skip_regex_build,
            Ok(Some((repo, branch))) => !opts.skip_regex_build && view_of(opts.regex_repo) == Some(
                repo@,
            ) && view_of(opts.regex_branch) == Some(branch@),
            Err(ConfigError::MissingRepo) => !opts.skip_regex_build && opts.regex_repo is None,
            Err(ConfigError::MissingBranch) => !opts.skip_regex_build && opts.regex_repo is Some
                && opts.regex_branch is None,
        },
{
    if opts.skip_regex_build {
        return Ok(None);
    }
    match (&opts.regex_repo, &opts.regex_branch) {
        (None, _) => Err(ConfigError::MissingRepo),
        (Some(_), None) => Err(ConfigError::MissingBranch),
        (Some(repo), Some(branch)) => Ok(Some((repo.clone(), branch.clone()))),
    }
}

} // verus!

//! The source files of a repository, out of the archive of one of its
//! branches.

use vstd::prelude::*;
use vstd::string::StringExecFns;
use vstd::utf8::{decode_utf8, valid_utf8};
use crate::miner::files_view;
use crate::text::{ends_with, occurs, to_chars};

verus! {

/// The entries of a gzip-compressed tar archive, each with its path and its
/// content; `None` where the bytes cannot be read as such an archive.
pub uninterp spec fn archive_entries(body: Seq<u8>) -> Option<Seq<(Seq<char>, Seq<u8>)>>;

/// `GzDecoder::new` of `flate2` decompresses the bytes, `Archive::new` and
/// `Archive::entries` of `tar` walk the entries of what comes out,
/// `Entry::path` gives the path of each, and reading an entry to its end
/// gives its content. A path that is not UTF-8 is handed out with
/// replacement characters. Not proved. Assumed: what is handed out depends
/// on the bytes alone.
#[verifier::external_body]
fn read_archive(body: &[u8]) -> (r: Option<Vec<(String, Vec<u8>)>>)
    ensures
        match r {
            Some(entries) => archive_entries(body@) == Some(
                entries@.map_values(|entry: (String, Vec<u8>)| (entry.0@, entry.1@)),
            ),
            None => archive_entries(body@) is None,
        },
{
    let mut archive = tar::Archive::new(flate2::read::GzDecoder::new(body));
    let mut entries = Vec::new();
    for entry in archive.entries().ok()? {
        let mut entry = entry.ok()?;
        let path = entry.path().ok()?.to_string_lossy().into_owned();
        let mut content = Vec::new();
        std::io::Read::read_to_end(&mut entry, &mut content).ok()?;
        entries.push((path, content));
    }
    Some(entries)
}

/// `str::from_utf8` of std takes bytes as a text where they are valid
/// UTF-8, and refuses them where they are not. Not proved.
#[verifier::external_body]
fn as_text<'a>(bytes: &'a [u8]) -> (r: Option<&'a str>)
    ensures
        match r {
            Some(text) => valid_utf8(bytes@) && text@ == decode_utf8(bytes@),
            None => !valid_utf8(bytes@),
        },
{
    std::str::from_utf8(bytes).ok()
}

/// The address of the archive of a branch: the address of the repository,
/// `/archive/`, the branch, and `.tar.gz`.
pub open spec fn archive_address(repository: Seq<char>, branch: Seq<char>) -> Seq<char> {
    repository + "/archive/"@ + branch + ".tar.gz"@
}

/// The address of the archive of a branch.
pub fn archive_url(url: &str, branch: &str) -> (address: String)
    ensures
        address@ == archive_address(url@, branch@),
{
    let mut address = String::new();
    address.append(url);
    address.append("/archive/");
    address.append(branch);
    address.append(".tar.gz");
    proof {
        assert(address@ =~= archive_address(url@, branch@));
    }
    address
}

/// Whether a path is that of a source file: it ends in `.rs`.
pub open spec fn is_source_path(path: Seq<char>) -> bool {
    ends_with(path, ".rs"@)
}

/// Tests whether a path is that of a source file.
pub fn is_source(path: &str) -> (b: bool)
    ensures
        b == is_source_path(path@),
{
    let chars = to_chars(path);
    let ending = to_chars(".rs");
    if ending.len() > chars.len() {
        return false;
    }
    occurs(chars.as_slice(), ending.as_slice(), chars.len() - ending.len())
}

/// Why no source files were had from an archive.
#[derive(Debug, PartialEq, Eq)]
pub enum FetchError {
    /// The bytes cannot be read as a gzip-compressed tar archive.
    Archive,
    /// The source file at this path is not UTF-8.
    Encoding(String),
}

/// What the source files among the entries are had as.
pub enum Sources {
    /// The source files, each with its path and its text.
    Files(Seq<(Seq<char>, Seq<char>)>),
    /// The path of the first source file that is not UTF-8.
    Broken(Seq<char>),
}

/// The source files among the entries, in their order; entries that are no
/// source files are left out. A source file that is not UTF-8 spoils all.
pub open spec fn sources_among(entries: Seq<(Seq<char>, Seq<u8>)>) -> Sources
    decreases entries.len(),
{
    if entries.len() == 0 {
        Sources::Files(Seq::empty())
    } else {
        match sources_among(entries.drop_last()) {
            Sources::Broken(path) => Sources::Broken(path),
            Sources::Files(before) => {
                let entry = entries.last();
                if !is_source_path(entry.0) {
                    Sources::Files(before)
                } else if valid_utf8(entry.1) {
                    Sources::Files(before.push((entry.0, decode_utf8(entry.1))))
                } else {
                    Sources::Broken(entry.0)
                }
            },
        }
    }
}

/// A broken source file among the first entries spoils every longer run
/// of entries.
pub proof fn lemma_broken_stays(entries: Seq<(Seq<char>, Seq<u8>)>, n: int)
    requires
        0 <= n <= entries.len(),
        sources_among(entries.take(n)) is Broken,
    ensures
        sources_among(entries) == sources_among(entries.take(n)),
    decreases entries.len(),
{
    if n < entries.len() {
        assert(entries.drop_last().take(n) =~= entries.take(n));
        lemma_broken_stays(entries.drop_last(), n);
    } else {
        assert(entries.take(n) =~= entries);
    }
}

/// Unpacks the source files of a gzip-compressed tar archive: the entries
/// whose path ends in `.rs`, each with its path and its text, in the order
/// of the archive.
///
/// Fails where the bytes cannot be read as such an archive, and where a
/// source file is not UTF-8.
pub fn unpack_sources(body: &[u8]) -> (r: Result<Vec<(String, String)>, FetchError>)
    ensures
        match r {
            Ok(files) => archive_entries(body@) matches Some(entries) && sources_among(entries)
                == Sources::Files(files_view(files@)),
            Err(FetchError::Archive) => archive_entries(body@) is None,
            Err(FetchError::Encoding(path)) => archive_entries(body@) matches Some(entries)
                && sources_among(entries) == Sources::Broken(path@),
        },
{
    let entries = match read_archive(body) {
        Some(entries) => entries,
        None => {
            return Err(FetchError::Archive);
        },
    };
    let ghost all = entries@.map_values(|entry: (String, Vec<u8>)| (entry.0@, entry.1@));
    let mut files: Vec<(String, String)> = Vec::new();
    let mut i: usize = 0;
    proof {
        assert(all.take(0) =~= Seq::empty());
        assert(files_view(files@) =~= Seq::empty());
    }
    while i < entries.len()
        invariant
            i <= entries.len(),
            all == entries@.map_values(|entry: (String, Vec<u8>)| (entry.0@, entry.1@)),
            archive_entries(body@) == Some(all),
            sources_among(all.take(i as int)) == Sources::Files(files_view(files@)),
        decreases entries.len() - i,
    {
        proof {
            assert(all.take(i + 1).drop_last() =~= all.take(i as int));
            assert(all.take(i + 1).last() == (entries@[i as int].0@, entries@[i as int].1@));
        }
        if is_source(entries[i].0.as_str()) {
            match as_text(entries[i].1.as_slice()) {
                Some(text) => {
                    let ghost before = files_view(files@);
                    files.push((entries[i].0.clone(), text.to_owned()));
                    proof {
                        assert(files_view(files@) =~= before.push(
                            (entries@[i as int].0@, text@),
                        ));
                    }
                },
                None => {
                    proof {
                        lemma_broken_stays(all, i + 1);
                    }
                    return Err(FetchError::Encoding(entries[i].0.clone()));
                },
            }
        }
        i += 1;
    }
    proof {
        assert(all.take(i as int) =~= all);
    }
    Ok(files)
}

} // verus!

//! The command line as the program sees it, and its resolution into what a
//! run needs: a known algorithm, a non-empty search word, and where the files
//! come from.
use std::path::PathBuf;

use vstd::prelude::*;
use vstd::string::*;
use vstd::utf8::*;

use crate::filelist::{byte_views, manifest_entries, manifest_paths, opt_bytes};
use crate::search::{find_algorithm, is_algorithm_code};

verus! {

#[verifier::external_type_specification]
#[verifier::external_body]
pub struct ExPathBuf(PathBuf);

#[verifier::external_type_specification]
#[verifier::external_body]
pub struct ExIoError(std::io::Error);

/// The parsed command line.
#[derive(Debug)]
pub struct Args {
    pub verbose: bool,
    pub timing: bool,
    pub algorithm: String,
    pub list: bool,
    pub filelist: Option<PathBuf>,
    pub search_word: Option<String>,
    pub files: Vec<String>,
}

/// A reason the command line cannot be run.
#[derive(Debug)]
pub enum AppError {
    /// The algorithm code is not one of the listed ones.
    UnknownAlgorithm(String),
    /// `-f/--filelist` was given together with file arguments.
    ConflictingFileArgs,
    /// The manifest named by `-f/--filelist` could not be read.
    FilelistOpen(PathBuf, std::io::Error),
    /// The search word is empty; it would match every line.
    EmptySearchWord,
}

/// What a run needs, once the command line has been checked.
#[derive(Debug)]
pub struct ResolvedArgs {
    pub verbose: bool,
    pub timing: bool,
    pub algorithm_code: String,
    pub search_word: String,
    /// The files named on the command line, or `/dev/stdin` when none were
    /// named and no manifest was given. Empty when `filelist` is set: the
    /// files are then the manifest's entries.
    pub files: Vec<String>,
    /// The manifest to read the files from, as given by `-f/--filelist`.
    pub filelist: Option<PathBuf>,
}

/// The default input when no file is named.
pub open spec fn stdin_path() -> Seq<char> {
    "/dev/stdin"@
}

/// The views of a list of strings.
pub open spec fn string_views(v: Seq<String>) -> Seq<Seq<char>> {
    v.map_values(|s: String| s@)
}

/// Checks the command line and says where the files come from.
///
/// The algorithm is checked first, then the search word, then that
/// `-f/--filelist` and file arguments were not both given. With a manifest the
/// files are left to it; otherwise they are the file arguments, or
/// `/dev/stdin` when there are none.
pub fn resolve(args: Args, search_word: String) -> (resolved: Result<ResolvedArgs, AppError>)
    ensures
        !is_algorithm_code(args.algorithm@) ==> (resolved matches Err(
            AppError::UnknownAlgorithm(code),
        ) && code@ == args.algorithm@),
        is_algorithm_code(args.algorithm@) && search_word@.len() == 0 ==> resolved matches Err(
            AppError::EmptySearchWord,
        ),
        is_algorithm_code(args.algorithm@) && search_word@.len() > 0 && args.filelist.is_some()
            && args.files@.len() > 0 ==> resolved matches Err(AppError::ConflictingFileArgs),
        is_algorithm_code(args.algorithm@) && search_word@.len() > 0 && !(args.filelist.is_some()
            && args.files@.len() > 0) ==> (resolved matches Ok(r) && {
            &&& r.verbose == args.verbose
            &&& r.timing == args.timing
            &&& r.algorithm_code@ == args.algorithm@
            &&& r.search_word@ == search_word@
            &&& r.filelist == args.filelist
            &&& args.filelist.is_some() ==> r.files@.len() == 0
            &&& args.filelist.is_none() && args.files@.len() > 0 ==> string_views(r.files@)
                == string_views(args.files@)
            &&& args.filelist.is_none() && args.files@.len() == 0 ==> string_views(r.files@)
                == seq![stdin_path()]
        }),
{
    if find_algorithm(args.algorithm.as_str()).is_none() {
        return Err(AppError::UnknownAlgorithm(args.algorithm));
    }
    if search_word.as_str().is_empty() {
        return Err(AppError::EmptySearchWord);
    }
    if args.filelist.is_some() && args.files.len() > 0 {
        return Err(AppError::ConflictingFileArgs);
    }
    let files = if args.filelist.is_some() {
        Vec::new()
    } else if args.files.len() > 0 {
        args.files
    } else {
        let mut stdin: Vec<String> = Vec::new();
        stdin.push(String::from_str("/dev/stdin"));
        proof {
            assert(string_views(stdin@) =~= seq![stdin_path()]);
        }
        stdin
    };
    Ok(
        ResolvedArgs {
            verbose: args.verbose,
            timing: args.timing,
            algorithm_code: args.algorithm,
            search_word,
            files,
            filelist: args.filelist,
        },
    )
}

/// The files a manifest lists, from the outcome of reading it: a failed read
/// is the `FilelistOpen` error naming the manifest; otherwise the paths are
/// the manifest's entries (see `manifest_entries`), with `~` expanded against
/// `home`.
pub fn manifest_files(
    path: PathBuf,
    contents: Result<String, std::io::Error>,
    home: Option<&[u8]>,
) -> (files: Result<Vec<Vec<u8>>, AppError>)
    ensures
        match contents {
            Ok(text) => (files matches Ok(paths) && byte_views(paths@) == manifest_paths(
                encode_utf8(text@),
                opt_bytes(home),
            )),
            Err(e) => (files matches Err(AppError::FilelistOpen(p, e2)) && p == path && e2 == e),
        },
{
    match contents {
        Ok(text) => Ok(manifest_entries(text.as_str(), home)),
        Err(e) => Err(AppError::FilelistOpen(path, e)),
    }
}

} // verus!

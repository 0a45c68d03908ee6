//! File names as the configuration holds them, and the few questions that
//! are asked of them. How a path is read is the business of the standard
//! library of the platform at hand; what it answers is named here, and the
//! rules of this library are stated over those answers.

use std::path::Path;
use vstd::prelude::*;
use crate::error::Error;

verus! {

/// What `Path::is_absolute` answers for the path `path`.
pub uninterp spec fn absolute_path(path: Seq<char>) -> bool;

/// What `Path::parent` answers for the path `path`, as text.
pub uninterp spec fn parent_path(path: Seq<char>) -> Option<Seq<char>>;

/// What `Path::join` makes of the directory `dir` and the path `file`, as
/// text.
pub uninterp spec fn joined_path(dir: Seq<char>, file: Seq<char>) -> Option<Seq<char>>;

/// The number of components that `Path::components` finds in `path`.
pub uninterp spec fn path_parts(path: Seq<char>) -> nat;

/// Whether the platform takes `path` as absolute, by `Path::is_absolute`.
/// The answer depends on the text of the path alone.
#[verifier::external_body]
fn path_is_absolute(path: &str) -> (absolute: bool)
    ensures
        absolute == absolute_path(path@),
{
    Path::new(path).is_absolute()
}

/// The directory part of `path`, by `Path::parent`; none if the path ends in
/// a root or is empty. The answer depends on the text of the path alone.
#[verifier::external_body]
fn path_parent(path: &str) -> (parent: Option<String>)
    ensures
        match parent {
            Some(p) => parent_path(path@) == Some(p@),
            None => parent_path(path@) is None,
        },
{
    Path::new(path).parent().and_then(|p| p.to_str()).map(|s| s.to_owned())
}

/// The path `file` as seen from the directory `dir`, by `Path::join`; none
/// if the result is not text. The answer depends on the two texts alone.
#[verifier::external_body]
fn path_join(dir: &str, file: &str) -> (joined: Option<String>)
    ensures
        match joined {
            Some(j) => joined_path(dir@, file@) == Some(j@),
            None => joined_path(dir@, file@) is None,
        },
{
    Path::new(dir).join(file).to_str().map(|s| s.to_owned())
}

/// The number of components of `path`, by `Path::components`. The answer
/// depends on the text of the path alone.
#[verifier::external_body]
fn path_components(path: &str) -> (count: usize)
    ensures
        count == path_parts(path@),
{
    Path::new(path).components().count()
}

/// The name that a configuration file at `config` gives to its file
/// `filename`: an empty name and an absolute name as they are, any other as
/// seen from the directory of the configuration file. There is none if that
/// file has no directory or the name cannot be written as text.
pub open spec fn relative_name(config: Seq<char>, filename: Seq<char>) -> Option<Seq<char>> {
    if filename.len() == 0 || absolute_path(filename) {
        Some(filename)
    } else {
        match parent_path(config) {
            Some(dir) => joined_path(dir, filename),
            None => None,
        }
    }
}

/// Whether the name `filename` is read from the directory of the
/// configuration file: it is neither empty nor absolute.
pub open spec fn hangs_on_directory(filename: Seq<char>) -> bool {
    filename.len() > 0 && !absolute_path(filename)
}

/// A name that is not read from the directory of the configuration file
/// is the same for every configuration file.
pub proof fn lemma_free_name(config: Seq<char>, filename: Seq<char>)
    requires
        !hangs_on_directory(filename),
    ensures
        relative_name(config, filename) == Some(filename),
{
}

/// The name by which a model is given the file `path`: a path of one
/// component as seen from the current directory, any other as it is.
pub open spec fn prepared_name(path: Seq<char>) -> Option<Seq<char>> {
    if path_parts(path) == 1 {
        joined_path("./"@, path)
    } else {
        Some(path)
    }
}

/// The file name to use for `filename`, given whether it is absolute and
/// what it is when seen from the directory of the configuration file: an
/// empty or absolute name stays as it is, any other is replaced.
pub fn resolved_name(filename: &str, absolute: bool, joined: Option<String>) -> (name: Result<
    String,
    Error,
>)
    ensures
        match name {
            Ok(n) => if filename@.len() == 0 || absolute {
                n@ == filename@
            } else {
                joined matches Some(j) && n == j
            },
            Err(e) => e == Error::Config && filename@.len() > 0 && !absolute && joined is None,
        },
{
    if filename.is_empty() || absolute {
        return Ok(filename.to_owned());
    }
    match joined {
        Some(j) => Ok(j),
        None => Err(Error::Config),
    }
}

/// Whether the name `filename` is read from the directory of the
/// configuration file, so that the place of that file has to be known.
pub fn needs_directory(filename: &str) -> (needed: bool)
    ensures
        needed == hangs_on_directory(filename@),
{
    !filename.is_empty() && !path_is_absolute(filename)
}

/// The file name `filename` of a configuration, made to start from the
/// directory of the configuration file `config_path`, which is given in
/// absolute form. An empty name and an absolute name stay as they are.
pub fn relativize_path(config_path: &str, filename: &str) -> (name: Result<String, Error>)
    ensures
        match relative_name(config_path@, filename@) {
            Some(n) => name matches Ok(made) && made@ == n,
            None => name == Err::<String, Error>(Error::Config),
        },
{
    if filename.is_empty() {
        return Ok(filename.to_owned());
    }
    let absolute = path_is_absolute(filename);
    let joined = if absolute {
        None
    } else {
        match path_parent(config_path) {
            Some(dir) => path_join(dir.as_str(), filename),
            None => None,
        }
    };
    resolved_name(filename, absolute, joined)
}

/// The path to hand to a model for `path`, given the number of its
/// components and what it is when seen from the current directory: a path of
/// one component is replaced, as a model takes only paths that name a
/// directory.
pub fn prepared_path(path: &str, components: usize, joined: Option<String>) -> (name: Result<
    String,
    Error,
>)
    ensures
        match name {
            Ok(n) => if components == 1 {
                joined matches Some(j) && n == j
            } else {
                n@ == path@
            },
            Err(e) => e == Error::Config && components == 1 && joined is None,
        },
{
    if components == 1 {
        match joined {
            Some(j) => Ok(j),
            None => Err(Error::Config),
        }
    } else {
        Ok(path.to_owned())
    }
}

/// The path to hand to a model for `path`: a path that is a bare file name
/// is made to start from the current directory.
pub fn prepare_path(path: &str) -> (name: Result<String, Error>)
    ensures
        match prepared_name(path@) {
            Some(n) => name matches Ok(made) && made@ == n,
            None => name == Err::<String, Error>(Error::Config),
        },
{
    let components = path_components(path);
    let joined = if components == 1 {
        path_join("./", path)
    } else {
        None
    };
    prepared_path(path, components, joined)
}

} // verus!

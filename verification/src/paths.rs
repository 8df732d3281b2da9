//! Paths of modules: the directory of an importing file, an import specifier
//! joined to it, and the canonical form that identifies a module.

use crate::text::text_of;
use path_absolutize::Absolutize;
use std::path::Path;
use vstd::prelude::*;

verus! {

/// What `std::path::Path::parent` gives for `path`: the path without its
/// final component, or nothing where it ends in a root or is empty.
pub uninterp spec fn parent_of(path: Seq<char>) -> Option<Seq<char>>;

/// What `std::path::Path::join` gives for `base` and `rest`.
pub uninterp spec fn joined(base: Seq<char>, rest: Seq<char>) -> Option<Seq<char>>;

/// What `path_absolutize::Absolutize::absolutize_from` gives for `path` when
/// relative paths start at `cwd`: the path without `.` and `..`, behind `cwd`
/// where it is relative.
pub uninterp spec fn absolutized(path: Seq<char>, cwd: Seq<char>) -> Option<Seq<char>>;

/// Calls `std::path::Path::parent`. The result is a function of `path`; it is
/// missing where the path has no parent or the parent is not valid Unicode.
#[verifier::external_body]
fn path_parent(path: &str) -> (parent: Option<String>)
    ensures
        text_of(parent) == parent_of(path@),
{
    Some(Path::new(path).parent()?.to_str()?.to_owned())
}

/// Calls `std::path::Path::join`. The result is a function of `base` and
/// `rest`; it is missing where the joined path is not valid Unicode.
#[verifier::external_body]
fn path_join(base: &str, rest: &str) -> (path: Option<String>)
    ensures
        text_of(path) == joined(base@, rest@),
{
    Some(Path::new(base).join(rest).to_str()?.to_owned())
}

/// Calls `path_absolutize::Absolutize::absolutize_from`, which reads neither
/// the file system nor the working directory. The result is a function of `path` and
/// `cwd`; it is missing where the absolute path is not valid Unicode.
#[verifier::external_body]
fn path_absolutize_from(path: &str, cwd: &str) -> (absolute: Option<String>)
    ensures
        text_of(absolute) == absolutized(path@, cwd@),
{
    Some(Path::new(path).absolutize_from(cwd).to_str()?.to_owned())
}

/// The canonical path of the module that the file at `importer` means by
/// `specifier`: the specifier joined to the directory of the importer, made
/// absolute.
pub open spec fn resolved(importer: Seq<char>, specifier: Seq<char>, cwd: Seq<char>) -> Option<
    Seq<char>,
> {
    match parent_of(importer) {
        Some(dir) => match joined(dir, specifier) {
            Some(path) => absolutized(path, cwd),
            None => None,
        },
        None => None,
    }
}

/// The canonical form of `path`, with `cwd` as the working directory.
pub fn canonical_path(path: &str, cwd: &str) -> (absolute: Option<String>)
    ensures
        text_of(absolute) == absolutized(path@, cwd@),
{
    path_absolutize_from(path, cwd)
}

/// Resolves `specifier`, as written in the file at `importer`, to the
/// canonical path of the module it names.
pub fn resolve_specifier(importer: &str, specifier: &str, cwd: &str) -> (path: Option<String>)
    ensures
        text_of(path) == resolved(importer@, specifier@, cwd@),
{
    match path_parent(importer) {
        Some(dir) => match path_join(dir.as_str(), specifier) {
            Some(path) => path_absolutize_from(path.as_str(), cwd),
            None => None,
        },
        None => None,
    }
}

} // verus!

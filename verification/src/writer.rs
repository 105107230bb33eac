//! Deciding what to write: file names, whether a file changes, which files are stale.
use vstd::prelude::*;

use crate::config::{Config, ConfigItem};
use std::path::{Path, PathBuf};

verus! {

/// What writing a generated file did: created it, replaced its content, or left it as it was.
#[derive(Debug, Clone, Copy, PartialEq, Eq, Structural)]
pub enum WriteStatus {
    Created,
    Updated,
    Skipped,
}

impl WriteStatus {
    /// The word that reports the status.
    pub fn label(&self) -> (r: &'static str)
        ensures
            r@ == match self {
                WriteStatus::Created => "created"@,
                WriteStatus::Updated => "updated"@,
                WriteStatus::Skipped => "skip: no changes"@,
            },
    {
        match self {
            WriteStatus::Created => "created",
            WriteStatus::Updated => "updated",
            WriteStatus::Skipped => "skip: no changes",
        }
    }

    /// Whether the file is written: a created or an updated file is, a skipped one is not.
    pub fn writes_file(&self) -> (r: bool)
        ensures
            r == !(*self is Skipped),
    {
        match self {
            WriteStatus::Skipped => false,
            _ => true,
        }
    }
}

/// The path that `Path::join` gives for `base` joined with `name`: `name` appended after a
/// separator, or in place of `base` where `name` is absolute, by the path rules of the platform
/// the program is built for.
pub uninterp spec fn joined_path(base: Seq<char>, name: Seq<char>) -> PathBuf;

/// `base` joined with `name` by `Path::join`. The contract names the joined path as a function of
/// the two strings and states nothing more of it.
#[verifier::external_body]
fn join_path(base: &str, name: &str) -> (r: PathBuf)
    ensures
        r == joined_path(base@, name@),
{
    Path::new(base).join(name)
}

/// The path of the file generated under the name `file_name`: the target directory joined with
/// it.
pub fn get_target_path(config: &Config, file_name: &str) -> (r: PathBuf)
    ensures
        r == joined_path(config.path_to_target@, file_name@),
{
    join_path(config.path_to_target.as_str(), file_name)
}

/// The name of the file generated for an item: its name, a dot, and the target extension.
pub fn get_file_name(config: &Config, item: &ConfigItem) -> (r: String)
    ensures
        r@ == item.name@ + seq!['.'] + config.target_extension@,
{
    let mut name = item.name.clone();
    crate::text::push_char(&mut name, '.');
    name.append(config.target_extension.as_str());
    name
}

/// The names of the files generated for the configuration's items, in order: the files that
/// cleaning keeps.
pub fn managed_file_names(config: &Config) -> (r: Vec<String>)
    ensures
        r@.len() == config.configs@.len(),
        forall|i: int|
            0 <= i < r@.len() ==> #[trigger] r@[i]@ == config.configs@[i].name@ + seq!['.']
                + config.target_extension@,
{
    let mut names: Vec<String> = Vec::new();
    let mut i: usize = 0;
    while i < config.configs.len()
        invariant
            0 <= i <= config.configs@.len(),
            names@.len() == i,
            forall|k: int|
                0 <= k < i ==> #[trigger] names@[k]@ == config.configs@[k].name@ + seq!['.']
                    + config.target_extension@,
        decreases config.configs@.len() - i,
    {
        names.push(get_file_name(config, &config.configs[i]));
        i = i + 1;
    }
    names
}

/// The status of writing `new_content` to a file that holds `existing`, or to a file that does
/// not exist (`None`): a missing file is created, a file with other content is updated, and a
/// file that already holds the content is skipped.
pub fn write_status(existing: Option<&String>, new_content: &String) -> (r: WriteStatus)
    ensures
        r == match existing {
            None => WriteStatus::Created,
            Some(e) => if e@ == new_content@ {
                WriteStatus::Skipped
            } else {
                WriteStatus::Updated
            },
        },
{
    match existing {
        None => WriteStatus::Created,
        Some(e) => if e.eq(new_content) {
            WriteStatus::Skipped
        } else {
            WriteStatus::Updated
        },
    }
}

/// Whether a file of the target directory is one of the generated files, which cleaning keeps.
pub fn is_managed(file_name: &String, managed_files: &Vec<String>) -> (r: bool)
    ensures
        r == exists|i: int| 0 <= i < managed_files@.len() && #[trigger] managed_files@[i]@ == file_name@,
{
    let mut i: usize = 0;
    while i < managed_files.len()
        invariant
            0 <= i <= managed_files@.len(),
            forall|j: int| 0 <= j < i ==> #[trigger] managed_files@[j]@ != file_name@,
        decreases managed_files@.len() - i,
    {
        if managed_files[i].eq(file_name) {
            return true;
        }
        i = i + 1;
    }
    false
}

/// Whether cleaning removes an entry of the target directory: a regular file, whose name is
/// valid UTF-8 (`Some`), that is not one of the generated files.
pub fn is_stale(is_file: bool, file_name: Option<&String>, managed_files: &Vec<String>) -> (r: bool)
    ensures
        r == (is_file && match file_name {
            Some(name) => !exists|i: int|
                0 <= i < managed_files@.len() && #[trigger] managed_files@[i]@ == name@,
            None => false,
        }),
{
    if !is_file {
        return false;
    }
    match file_name {
        Some(name) => !is_managed(name, managed_files),
        None => false,
    }
}

} // verus!

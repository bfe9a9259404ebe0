//! Errors of workspace operations.

use vstd::prelude::*;
use crate::model::document_keys_distinct;
use crate::toml::{document_entries, parse_document, parsed_document, root_is_table};
use std::path::{Path, PathBuf};
use toml_edit::{DocumentMut, TomlError};

verus! {

#[verifier::external_type_specification]
#[verifier::external_body]
pub struct ExPathBuf(PathBuf);

#[verifier::external_type_specification]
#[verifier::external_body]
pub struct ExPath(Path);

#[verifier::external_type_specification]
#[verifier::external_body]
pub struct ExIoError(std::io::Error);

/// Errors of hoist, sort and restore operations.
#[derive(Debug)]
pub enum HoistError {
    /// No Cargo.toml found at the given path
    NoCargoToml(PathBuf),
    /// Failed to read a file
    ReadFile { path: PathBuf, source: std::io::Error },
    /// Failed to write a file
    WriteFile { path: PathBuf, source: std::io::Error },
    /// Failed to parse the TOML of a file
    ParseToml { path: PathBuf, source: TomlError },
    /// Failed to copy a file
    CopyFile { from: PathBuf, to: PathBuf, source: std::io::Error },
    /// Invalid root directory
    InvalidRoot(PathBuf),
}

pub type Result<T> = std::result::Result<T, HoistError>;

/// `Path::to_path_buf`: an owned copy of a path.
#[verifier::external_body]
fn path_to_buf(p: &Path) -> PathBuf {
    p.to_path_buf()
}

/// Parses TOML content; `path` names the file in the error.
pub fn parse_toml(content: &str, path: &Path) -> (r: Result<DocumentMut>)
    ensures
        r is Ok <==> parsed_document(content@) is Some,
        r matches Ok(d) ==> parsed_document(content@) == Some(document_entries(d)),
        r matches Ok(d) ==> root_is_table(d),
        r matches Ok(d) ==> document_keys_distinct(document_entries(d)),
        r is Err ==> r->Err_0 is ParseToml,
{
    match parse_document(content) {
        Ok(d) => Ok(d),
        Err(e) => Err(HoistError::ParseToml { path: path_to_buf(path), source: e }),
    }
}

} // verus!

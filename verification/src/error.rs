//! The errors that the launchers report.

use vstd::prelude::*;
use regex::Error as RegexError;
use serde_yaml::Error as YamlError;

verus! {

#[verifier::external_type_specification]
#[verifier::external_body]
pub struct ExFromUtf8Error(std::string::FromUtf8Error);

#[verifier::external_type_specification]
#[verifier::external_body]
pub struct ExIoError(std::io::Error);

#[verifier::external_type_specification]
#[verifier::external_body]
pub struct ExYamlError(YamlError);

#[verifier::external_type_specification]
#[verifier::external_body]
pub struct ExRegexError(RegexError);

/// Everything that can go wrong while a launcher runs.
#[derive(Debug)]
pub enum Error {
    /// Bytes that were to be text are not UTF-8.
    FromUtf8(std::string::FromUtf8Error),
    /// Reading or writing a file, or running a program, failed.
    IO(std::io::Error),
    /// A YAML or JSON file could not be read or written.
    SerdeYaml(YamlError),
    /// A pattern could not be compiled.
    Regex(RegexError),
    /// None of the configuration files exists.
    ConfigNotFound,
    /// The menu program offered no standard input.
    NoneStdin,
    /// The menu program answered with nothing.
    EmptyResult,
}

} // verus!

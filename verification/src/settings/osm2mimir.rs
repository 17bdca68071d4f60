//! Settings and command line of the OpenStreetMap import.
use vstd::prelude::*;
use crate::poi::PoiConfig;
use crate::settings::{prefixed_settings, settings_with_prefix, StreetExclusion};
use crate::text::strs;

verus! {

/// Whether points of interest are imported, and how they are recognized.
#[derive(Debug, Clone)]
pub struct Poi {
    pub import: bool,
    pub config: Option<PoiConfig>,
}

/// Whether streets are imported, and which ways are not streets.
#[derive(Debug, Clone)]
pub struct Street {
    pub import: bool,
    pub exclusions: StreetExclusion,
}

/// The file that holds the map objects while they are read, and its cache size.
#[derive(Debug, Clone)]
pub struct Database {
    pub file: String,
    pub buffer_size: usize,
}

/// The settings of the import that the library reads.
#[derive(Debug, Clone)]
pub struct Settings {
    pub mode: Option<String>,
    pub pois: Poi,
    pub streets: Street,
    pub database: Option<Database>,
    pub nb_threads: Option<usize>,
}

/// What the command line gives.
#[derive(Debug, Clone)]
pub struct Opts {
    pub config_dir: String,
    pub run_mode: Option<String>,
    pub settings: Vec<String>,
    pub input: String,
    pub cmd: Command,
}

/// What to do.
#[derive(Debug, Clone, Copy, PartialEq, Eq, Structural)]
pub enum Command {
    /// Run the import.
    Run,
    /// Print the configuration.
    Config,
}

/// Why settings are refused.
#[derive(Debug, Clone)]
pub enum Error {
    Invalid { msg: String },
}

/// The message given when nothing is to be imported.
pub open spec fn nothing_to_do_msg() -> Seq<char> {
    "Neither streets nor POIs import is enabled. Nothing to do. Use -s pois.import=true or -s streets.import=true"@
}

/// Refuses settings that import neither streets nor points of interest.
pub fn validate(settings: Settings) -> (r: Result<Settings, Error>)
    ensures
        match r {
            Ok(s) => (settings.streets.import || settings.pois.import) && s == settings,
            Err(Error::Invalid { msg }) => !settings.streets.import && !settings.pois.import && msg@
                == nothing_to_do_msg(),
        },
{
    if !settings.streets.import && !settings.pois.import {
        return Err(
            Error::Invalid {
                msg: "Neither streets nor POIs import is enabled. Nothing to do. Use -s pois.import=true or -s streets.import=true".to_owned(),
            },
        );
    }
    Ok(settings)
}

/// The command-line settings that configure the index of streets.
pub fn street_index_settings(settings: &Vec<String>) -> (r: Vec<String>)
    ensures
        strs(r@) == prefixed_settings(strs(settings@), "elasticsearch.street"@),
{
    settings_with_prefix(settings, "elasticsearch.street")
}

/// The command-line settings that configure the index of points of interest.
pub fn poi_index_settings(settings: &Vec<String>) -> (r: Vec<String>)
    ensures
        strs(r@) == prefixed_settings(strs(settings@), "elasticsearch.poi"@),
{
    settings_with_prefix(settings, "elasticsearch.poi")
}

} // verus!

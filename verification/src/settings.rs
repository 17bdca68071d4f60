//! Settings of the programs, as the library reads them.
use vstd::prelude::*;
use crate::poi::PoiConfig;
use crate::text::{has_prefix, starts_with, strs};

pub mod b2;
pub mod bragi;
pub mod ctlmimir;
pub mod osm2mimir;

verus! {

/// The values of the `highway` tag whose ways are not streets.
#[derive(Debug, Clone)]
pub struct StreetExclusion {
    pub highways: Option<Vec<String>>,
}

/// How streets are read.
#[derive(Debug, Clone)]
pub struct Street {
    pub exclusion: StreetExclusion,
}

/// How regions are read (nothing can be set yet).
#[derive(Debug, Clone)]
pub struct Admin {}

/// The settings of an import.
#[derive(Debug, Clone)]
pub struct Settings {
    pub street: Option<Street>,
    pub poi: Option<PoiConfig>,
    pub admin: Option<Admin>,
}

/// The excluded highway values that the settings give (none when unset).
pub open spec fn excluded_highways(s: Settings) -> Seq<Seq<char>> {
    match s.street {
        Some(st) => match st.exclusion.highways {
            Some(h) => strs(h@),
            None => seq![],
        },
        None => seq![],
    }
}

impl Settings {
    /// The excluded highway values (see `excluded_highways`).
    pub fn invalid_highways(&self) -> (r: Vec<String>)
        ensures
            strs(r@) == excluded_highways(*self),
    {
        match &self.street {
            Some(st) => match &st.exclusion.highways {
                Some(h) => crate::places::copy_strings(h),
                None => {
                    let v: Vec<String> = Vec::new();
                    assert(strs(v@) =~= seq![]);
                    v
                },
            },
            None => {
                let v: Vec<String> = Vec::new();
                assert(strs(v@) =~= seq![]);
                v
            },
        }
    }
}

/// A source of configuration, merged in order.
#[derive(Debug, Clone, PartialEq, Eq)]
pub enum ConfigSource {
    /// The file named `stem` (with any extension the reader knows) in the
    /// directory `dir`; it must exist.
    File { dir: String, stem: String },
    /// The default configuration built into the program.
    Embedded,
}

/// Why the settings cannot be read.
#[derive(Debug, Clone, Copy, PartialEq, Eq, Structural)]
pub enum SettingsError {
    /// A named configuration was asked for without a configuration directory.
    NameWithoutConfigDir,
}

/// The source is the file `stem` of the directory `dir`.
pub open spec fn is_file_source(s: ConfigSource, dir: Seq<char>, stem: Seq<char>) -> bool {
    s matches ConfigSource::File { dir: d, stem: t } && d@ == dir && t@ == stem
}

impl Settings {
    /// The configuration sources that the settings are read from: with a
    /// configuration directory, its `default` file, then the file of the
    /// named configuration if one is asked for; without one, the built-in
    /// default, and an error if a named configuration is asked for.
    pub fn config_sources(config_dir: &Option<String>, name: &Option<String>) -> (r: Result<
        Vec<ConfigSource>,
        SettingsError,
    >)
        ensures
            match (config_dir, name) {
                (Some(d), Some(n)) => r matches Ok(v) && v@.len() == 2 && is_file_source(v@[0], d@, "default"@)
                    && is_file_source(v@[1], d@, n@),
                (Some(d), None) => r matches Ok(v) && v@.len() == 1 && is_file_source(v@[0], d@, "default"@),
                (None, Some(_)) => r == Err::<Vec<ConfigSource>, SettingsError>(SettingsError::NameWithoutConfigDir),
                (None, None) => r matches Ok(v) && v@.len() == 1 && v@[0] is Embedded,
            },
    {
        proof {
            reveal_strlit("default");
        }
        match config_dir {
            Some(d) => {
                let mut v: Vec<ConfigSource> = Vec::new();
                v.push(ConfigSource::File { dir: d.clone(), stem: "default".to_owned() });
                match name {
                    Some(n) => v.push(ConfigSource::File { dir: d.clone(), stem: n.clone() }),
                    None => {},
                }
                Ok(v)
            },
            None => match name {
                Some(_) => Err(SettingsError::NameWithoutConfigDir),
                None => {
                    let mut v: Vec<ConfigSource> = Vec::new();
                    v.push(ConfigSource::Embedded);
                    Ok(v)
                },
            },
        }
    }
}

/// The settings given on the command line that begin with `prefix`, in
/// order.
pub open spec fn prefixed_settings(settings: Seq<Seq<char>>, prefix: Seq<char>) -> Seq<Seq<char>> {
    settings.filter(|s: Seq<char>| has_prefix(s, prefix))
}

/// The settings that begin with `prefix` (see `prefixed_settings`): those
/// that configure one index.
pub fn settings_with_prefix(settings: &Vec<String>, prefix: &str) -> (r: Vec<String>)
    ensures
        strs(r@) == prefixed_settings(strs(settings@), prefix@),
{
    let mut r: Vec<String> = Vec::new();
    let mut i: usize = 0;
    while i < settings.len()
        invariant
            i <= settings.len(),
            strs(r@) == prefixed_settings(strs(settings@.take(i as int)), prefix@),
        decreases settings.len() - i,
    {
        let ghost before = r@;
        assert(strs(settings@.take(i + 1)) =~= strs(settings@.take(i as int)).push(settings@[i as int]@));
        if starts_with(settings[i].as_str(), prefix) {
            r.push(settings[i].clone());
            assert(strs(r@) =~= strs(before).push(settings@[i as int]@));
        }
        proof {
            let t = strs(settings@.take(i as int));
            let x = settings@[i as int]@;
            t.lemma_filter_push(x, |s: Seq<char>| has_prefix(s, prefix@));
        }
        i = i + 1;
    }
    assert(settings@.take(settings.len() as int) =~= settings@);
    r
}

} // verus!

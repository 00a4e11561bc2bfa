use vstd::prelude::*;

verus! {

/// Error: the configuration table handed over by the host lacks a key.
#[derive(Debug, Clone)]
pub struct ConfigDictMissingKey(pub String);

/// Error: the wiki root directory must be an absolute path.
#[derive(Debug, Clone, PartialEq, Eq, Structural)]
pub struct HomePathNotAbsolute;

/// Process-wide, read-only settings: the wiki root and the format strings
/// used to generate note ids and to parse frontmatter date and time fields.
#[derive(Debug, Clone)]
pub struct Config {
    pub home_path: String,
    pub note_id_timestamp_format: String,
    pub date_format: String,
    pub time_format: String,
}

impl Config {
    /// A path string is absolute when it starts with the root separator.
    pub open spec fn spec_is_absolute(s: Seq<char>) -> bool {
        s.len() > 0 && s[0] == '/'
    }

    /// Builds a configuration, rejecting a wiki root that is not absolute.
    pub fn new(
        home_path: String,
        note_id_timestamp_format: String,
        date_format: String,
        time_format: String,
    ) -> (r: Result<Config, HomePathNotAbsolute>)
        ensures
            Self::spec_is_absolute(home_path@) <==> r is Ok,
            r matches Ok(c) ==> c.home_path@ == home_path@
                && c.note_id_timestamp_format@ == note_id_timestamp_format@
                && c.date_format@ == date_format@
                && c.time_format@ == time_format@,
    {
        if home_path.as_str().unicode_len() == 0 {
            return Err(HomePathNotAbsolute);
        }
        if home_path.as_str().get_char(0) != '/' {
            return Err(HomePathNotAbsolute);
        }
        Ok(Config { home_path, note_id_timestamp_format, date_format, time_format })
    }
}

} // verus!

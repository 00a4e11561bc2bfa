use vstd::prelude::*;
use crate::config::Config;
use crate::markdown::{MdNode, spec_find_frontmatter, find_frontmatter, NoFrontmatter};
use crate::note::Tag;
use crate::strutil::{spec_split, split_str, str_eq};

verus! {

// ---------------------------------------------------------------------------
// The YAML data model
// ---------------------------------------------------------------------------

/// A parsed YAML value, holding exactly what the frontmatter extractors
/// read: strings, numbers, booleans, lists and key-value tables in
/// document order; everything else is opaque.
#[derive(Debug)]
pub enum YamlValue {
    Str(String),
    Int(i64),
    Bool(bool),
    List(Vec<YamlValue>),
    Table(Vec<(YamlValue, YamlValue)>),
    Other,
}

/// Why a document's frontmatter could not be parsed.
#[derive(PartialEq, Eq, Debug, Clone, Copy, Structural)]
pub enum InvalidFrontmatter {
    NoFrontmatter,
    YamlScanError,
    NoDocuments,
}

/// Why a frontmatter field could not be extracted.
#[derive(Debug, Clone, Copy)]
pub enum GetFrontmatterFieldError {
    NotHashTable,
    NoField(&'static str),
    FieldWrongType { expected_type: &'static str },
}

/// Why a timestamp could not be extracted.
#[derive(PartialEq, Eq, Debug, Clone, Copy, Structural)]
pub enum GetTimestampError {
    NotHashTable,
    NoDateField,
    TimestampFieldsNotString,
    TimestampParseError,
}

// ---------------------------------------------------------------------------
// Loading (trusted boundary)
// ---------------------------------------------------------------------------

pub uninterp spec fn yaml_docs_of(text: Seq<char>) -> Option<Seq<YamlValue>>;

/// Declares the outside YAML value so that the conversion helper below
/// may mention it.
#[verifier::external_type_specification]
#[verifier::external_body]
pub struct ExYaml(yaml_rust::Yaml);

/// Relies on yaml_rust::Yaml: moves each value into the library's own
/// shape, one value for one value; table entries keep their order.
#[verifier::external_body]
fn convert_yaml(y: &yaml_rust::Yaml) -> YamlValue {
    match y {
        yaml_rust::Yaml::String(s) => YamlValue::Str(s.clone()),
        yaml_rust::Yaml::Integer(i) => YamlValue::Int(*i),
        yaml_rust::Yaml::Boolean(b) => YamlValue::Bool(*b),
        yaml_rust::Yaml::Array(xs) => YamlValue::List(xs.iter().map(convert_yaml).collect()),
        yaml_rust::Yaml::Hash(h) => YamlValue::Table(
            h.iter().map(|(k, v)| (convert_yaml(k), convert_yaml(v))).collect(),
        ),
        _ => YamlValue::Other,
    }
}

/// Relies on yaml_rust::YamlLoader::load_from_str: a deterministic parse
/// of the text into a list of documents, so the converted list is named
/// `yaml_docs_of`; a scan error yields nothing.
#[verifier::external_body]
fn load_yaml(s: &str) -> (r: Option<Vec<YamlValue>>)
    ensures
        match r {
            Some(docs) => yaml_docs_of(s@) == Some(docs@),
            None => yaml_docs_of(s@) is None,
        },
{
    match yaml_rust::YamlLoader::load_from_str(s) {
        Ok(docs) => Some(docs.iter().map(convert_yaml).collect()),
        Err(_) => None,
    }
}

/// What parsing a document's frontmatter yields: the first YAML document
/// of the first frontmatter block.
pub open spec fn spec_parse_frontmatter(md: MdNode) -> Result<YamlValue, InvalidFrontmatter> {
    match spec_find_frontmatter(md) {
        None => Err(InvalidFrontmatter::NoFrontmatter),
        Some(text) => match yaml_docs_of(text) {
            None => Err(InvalidFrontmatter::YamlScanError),
            Some(docs) => if docs.len() == 0 {
                Err(InvalidFrontmatter::NoDocuments)
            } else {
                Ok(docs[0])
            },
        },
    }
}

/// Parses the document's frontmatter block as YAML and takes its first
/// document; an empty document list is an error, not a crash.
pub fn parse_frontmatter(md: &MdNode) -> (r: Result<YamlValue, InvalidFrontmatter>)
    ensures
        match r {
            Ok(v) => spec_parse_frontmatter(*md) == Ok::<_, InvalidFrontmatter>(v),
            Err(e) => spec_parse_frontmatter(*md) == Err::<YamlValue, _>(e),
        },
{
    let text = match find_frontmatter(md) {
        Ok(t) => t,
        Err(NoFrontmatter) => {
            return Err(InvalidFrontmatter::NoFrontmatter);
        },
    };
    let mut docs = match load_yaml(text.as_str()) {
        Some(d) => d,
        None => {
            return Err(InvalidFrontmatter::YamlScanError);
        },
    };
    if docs.len() == 0 {
        return Err(InvalidFrontmatter::NoDocuments);
    }
    let ghost gdocs = docs@;
    let first = docs.remove(0);
    proof {
        assert(first == gdocs[0]);
    }
    Ok(first)
}

// ---------------------------------------------------------------------------
// Field lookup
// ---------------------------------------------------------------------------

/// First value under a string key equal to `key`, in table order.
pub open spec fn spec_table_lookup(
    pairs: Seq<(YamlValue, YamlValue)>,
    key: Seq<char>,
) -> Option<YamlValue>
    decreases pairs.len(),
{
    if pairs.len() == 0 {
        None
    } else {
        match pairs[0].0 {
            YamlValue::Str(s) => if s@ == key {
                Some(pairs[0].1)
            } else {
                spec_table_lookup(pairs.drop_first(), key)
            },
            _ => spec_table_lookup(pairs.drop_first(), key),
        }
    }
}

fn table_lookup<'a>(pairs: &'a Vec<(YamlValue, YamlValue)>, key: &str, i: usize) -> (r: Option<
    &'a YamlValue,
>)
    requires
        i <= pairs.len(),
    ensures
        match r {
            Some(v) => spec_table_lookup(pairs@.skip(i as int), key@) == Some(*v),
            None => spec_table_lookup(pairs@.skip(i as int), key@) is None,
        },
    decreases pairs.len() - i,
{
    if i == pairs.len() {
        None
    } else {
        proof {
            assert(pairs@.skip(i as int)[0] == pairs@[i as int]);
            assert(pairs@.skip(i as int).drop_first() =~= pairs@.skip(i as int + 1));
        }
        let hit = match &pairs[i].0 {
            YamlValue::Str(s) => str_eq(s.as_str(), key),
            _ => false,
        };
        if hit {
            Some(&pairs[i].1)
        } else {
            table_lookup(pairs, key, i + 1)
        }
    }
}

// ---------------------------------------------------------------------------
// Title
// ---------------------------------------------------------------------------

/// Extracts the `title` field: the frontmatter must be a table holding a
/// string under that key.
pub fn get_title(frontmatter: &YamlValue) -> (r: Result<String, GetFrontmatterFieldError>)
    ensures
        ({
            let fm = *frontmatter;
            match r {
                Ok(t) => fm matches YamlValue::Table(pairs) && (spec_table_lookup(
                    pairs@,
                    "title"@,
                ) matches Some(v) && v matches YamlValue::Str(s) && s@ == t@),
                Err(GetFrontmatterFieldError::NotHashTable) => !(fm is Table),
                Err(GetFrontmatterFieldError::NoField(f)) => f@ == "title"@ && (
                fm matches YamlValue::Table(pairs) && spec_table_lookup(pairs@, "title"@) is None),
                Err(GetFrontmatterFieldError::FieldWrongType { .. }) => fm matches YamlValue::Table(
                    pairs,
                ) && (spec_table_lookup(pairs@, "title"@) matches Some(v) && !(v is Str)),
            }
        }),
{
    let pairs = match frontmatter {
        YamlValue::Table(pairs) => pairs,
        _ => {
            return Err(GetFrontmatterFieldError::NotHashTable);
        },
    };
    proof {
        assert(pairs@.skip(0) =~= pairs@);
    }
    match table_lookup(pairs, "title", 0) {
        None => Err(GetFrontmatterFieldError::NoField("title")),
        Some(v) => match v {
            YamlValue::Str(s) => Ok(s.clone()),
            _ => Err(GetFrontmatterFieldError::FieldWrongType { expected_type: "string" }),
        },
    }
}

// ---------------------------------------------------------------------------
// Tags
// ---------------------------------------------------------------------------

/// The tag sequences parsed from one space-delimited string.
pub open spec fn spec_tags_of_string(s: Seq<char>) -> Seq<Seq<Seq<char>>> {
    spec_split(s, seq![' ']).map_values(|t: Seq<char>| spec_split(t, "::"@))
}

/// Whether every list element is a string.
pub open spec fn spec_all_strings(elems: Seq<YamlValue>) -> bool {
    forall|k: int| 0 <= k < elems.len() ==> (#[trigger] elems[k]) is Str
}

/// The tag sequences parsed from a list of strings.
pub open spec fn spec_tags_of_list(elems: Seq<YamlValue>) -> Seq<Seq<Seq<char>>> {
    elems.map_values(
        |e: YamlValue|
            match e {
                YamlValue::Str(s) => spec_split(s@, "::"@),
                _ => Seq::empty(),
            },
    )
}

/// Extracts the `tags` field: either one space-delimited string or a list
/// of strings, each token a `::`-separated tag.
#[verifier::loop_isolation(false)]
pub fn get_tags(frontmatter: &YamlValue) -> (r: Result<Vec<Tag>, GetFrontmatterFieldError>)
    ensures
        ({
            let fm = *frontmatter;
            match r {
                Ok(tags) => fm matches YamlValue::Table(pairs) && (spec_table_lookup(
                    pairs@,
                    "tags"@,
                ) matches Some(v) && match v {
                    YamlValue::Str(s) => tags.deep_view() == spec_tags_of_string(s@),
                    YamlValue::List(elems) => spec_all_strings(elems@) && tags.deep_view()
                        == spec_tags_of_list(elems@),
                    _ => false,
                }),
                Err(GetFrontmatterFieldError::NotHashTable) => !(fm is Table),
                Err(GetFrontmatterFieldError::NoField(f)) => f@ == "tags"@ && (
                fm matches YamlValue::Table(pairs) && spec_table_lookup(pairs@, "tags"@) is None),
                Err(GetFrontmatterFieldError::FieldWrongType { .. }) => fm matches YamlValue::Table(
                    pairs,
                ) && (spec_table_lookup(pairs@, "tags"@) matches Some(v) && match v {
                    YamlValue::Str(_) => false,
                    YamlValue::List(elems) => !spec_all_strings(elems@),
                    _ => true,
                }),
            }
        }),
{
    let pairs = match frontmatter {
        YamlValue::Table(pairs) => pairs,
        _ => {
            return Err(GetFrontmatterFieldError::NotHashTable);
        },
    };
    proof {
        assert(pairs@.skip(0) =~= pairs@);
    }
    let v = match table_lookup(pairs, "tags", 0) {
        None => {
            return Err(GetFrontmatterFieldError::NoField("tags"));
        },
        Some(v) => v,
    };
    match v {
        YamlValue::Str(s) => {
            proof {
                reveal_strlit(" ");
                assert(" "@ =~= seq![' ']);
            }
            let tokens = split_str(s.as_str(), " ");
            let mut tags: Vec<Tag> = Vec::new();
            let mut i: usize = 0;
            while i < tokens.len()
                invariant
                    i <= tokens.len(),
                    tags.deep_view() == spec_tags_of_string(s@).take(i as int),
                    tokens.deep_view() == spec_split(s@, seq![' ']),
                decreases tokens.len() - i,
            {
                let tag = Tag::parse_from_str(tokens[i].as_str());
                let ghost pre = tags.deep_view();
                tags.push(tag);
                proof {
                    assert(tags.deep_view() =~~= pre.push(tag.deep_view()));
                    assert(pre.push(tag.deep_view()) =~~= spec_tags_of_string(s@).take(
                        i as int + 1,
                    ));
                }
                i = i + 1;
            }
            proof {
                assert(spec_tags_of_string(s@).take(tokens.len() as int) =~~= spec_tags_of_string(
                    s@,
                ));
            }
            Ok(tags)
        },
        YamlValue::List(elems) => {
            let mut tags: Vec<Tag> = Vec::new();
            let mut i: usize = 0;
            while i < elems.len()
                invariant
                    i <= elems.len(),
                    spec_all_strings(elems@.take(i as int)),
                    tags.deep_view() == spec_tags_of_list(elems@).take(i as int),
                decreases elems.len() - i,
            {
                let e = &elems[i];
                match e {
                    YamlValue::Str(s) => {
                        let tag = Tag::parse_from_str(s.as_str());
                        let ghost pre = tags.deep_view();
                        tags.push(tag);
                        proof {
                            assert(elems@.take(i as int + 1) =~= elems@.take(i as int).push(
                                elems@[i as int],
                            ));
                            assert(spec_all_strings(elems@.take(i as int + 1))) by {
                                assert forall|k: int| 0 <= k < i + 1 implies (
                                #[trigger] elems@.take(i as int + 1)[k]) is Str by {
                                    if k < i {
                                        assert(elems@.take(i as int + 1)[k] == elems@.take(
                                            i as int,
                                        )[k]);
                                    }
                                }
                            }
                            assert(tags.deep_view() =~~= pre.push(tag.deep_view()));
                            assert(pre.push(tag.deep_view()) =~~= spec_tags_of_list(elems@).take(
                                i as int + 1,
                            ));
                        }
                    },
                    _ => {
                        proof {
                            assert(!((elems@[i as int]) is Str));
                            assert(!spec_all_strings(elems@));
                        }
                        return Err(
                            GetFrontmatterFieldError::FieldWrongType {
                                expected_type: "array of strings (or string)",
                            },
                        );
                    },
                }
                i = i + 1;
            }
            proof {
                assert(elems@.take(elems.len() as int) =~= elems@);
                assert(spec_tags_of_list(elems@).take(elems.len() as int) =~~= spec_tags_of_list(
                    elems@,
                ));
            }
            Ok(tags)
        },
        _ => Err(
            GetFrontmatterFieldError::FieldWrongType {
                expected_type: "array of strings or string",
            },
        ),
    }
}

// ---------------------------------------------------------------------------
// Timestamps
// ---------------------------------------------------------------------------

/// A calendar timestamp as plain numbers: days from the calendar epoch and
/// seconds from midnight.  Ordered first by day, then by second.
#[derive(PartialEq, Eq, Debug, Clone, Copy, Structural)]
pub struct Timestamp {
    pub days: i64,
    pub secs: u32,
}

/// Chronological order on timestamps.
pub open spec fn spec_ts_le(a: Timestamp, b: Timestamp) -> bool {
    a.days < b.days || (a.days == b.days && a.secs <= b.secs)
}

impl Timestamp {
    /// Decides the chronological order.
    pub fn le(&self, other: &Timestamp) -> (r: bool)
        ensures
            r == spec_ts_le(*self, *other),
    {
        self.days < other.days || (self.days == other.days && self.secs <= other.secs)
    }
}

pub uninterp spec fn date_num_of(s: Seq<char>, fmt: Seq<char>) -> Option<i64>;

pub uninterp spec fn time_num_of(s: Seq<char>, fmt: Seq<char>) -> Option<u32>;

/// Relies on chrono::NaiveDate::parse_from_str and
/// chrono::Datelike::num_days_from_ce: the parsed date as a day count, a
/// function of the text and the format alone, named `date_num_of`.
#[verifier::external_body]
fn parse_date_num(s: &str, fmt: &str) -> (r: Option<i64>)
    ensures
        r == date_num_of(s@, fmt@),
{
    match chrono::NaiveDate::parse_from_str(s, fmt) {
        Ok(d) => Some(chrono::Datelike::num_days_from_ce(&d) as i64),
        Err(_) => None,
    }
}

/// Relies on chrono::NaiveTime::parse_from_str and
/// chrono::Timelike::num_seconds_from_midnight: the parsed time as seconds
/// from midnight, a function of the text and the format alone, named
/// `time_num_of`.
#[verifier::external_body]
fn parse_time_num(s: &str, fmt: &str) -> (r: Option<u32>)
    ensures
        r == time_num_of(s@, fmt@),
{
    match chrono::NaiveTime::parse_from_str(s, fmt) {
        Ok(t) => Some(chrono::Timelike::num_seconds_from_midnight(&t)),
        Err(_) => None,
    }
}

// ---------------------------------------------------------------------------
// Whole-text extraction with absorbed failures
// ---------------------------------------------------------------------------

/// The title a document tree provides, if any step yields one.
pub open spec fn spec_title_opt(tree: MdNode) -> Option<Seq<char>> {
    match spec_parse_frontmatter(tree) {
        Ok(fm) => match fm {
            YamlValue::Table(pairs) => match spec_table_lookup(pairs@, "title"@) {
                Some(v) => match v {
                    YamlValue::Str(s) => Some(s@),
                    _ => None,
                },
                None => None,
            },
            _ => None,
        },
        Err(_) => None,
    }
}

/// The document's title, or nothing when any step fails.
pub fn title_opt(md: &MdNode) -> (r: Option<String>)
    ensures
        match r {
            Some(t) => spec_title_opt(*md) == Some(t@),
            None => spec_title_opt(*md) is None,
        },
{
    match parse_frontmatter(md) {
        Ok(fm) => match get_title(&fm) {
            Ok(t) => Some(t),
            Err(_) => None,
        },
        Err(_) => None,
    }
}

/// The timestamp a document tree provides, if any step yields one.
pub open spec fn spec_ts_opt(tree: MdNode, cfg: Config) -> Option<Timestamp> {
    match spec_parse_frontmatter(tree) {
        Ok(fm) => match spec_get_timestamp(fm, cfg) {
            Ok(t) => Some(t),
            Err(_) => None,
        },
        Err(_) => None,
    }
}

/// The document's timestamp, or nothing when any step fails.
pub fn ts_opt(md: &MdNode, config: &Config) -> (r: Option<Timestamp>)
    ensures
        r == spec_ts_opt(*md, *config),
{
    match parse_frontmatter(md) {
        Ok(fm) => match get_timestamp(&fm, config) {
            Ok(t) => Some(t),
            Err(_) => None,
        },
        Err(_) => None,
    }
}

/// The title of a note text: parse, take the frontmatter, read `title`;
/// every failure is absorbed into nothing.
pub open spec fn spec_title_of_contents(text: Seq<char>) -> Option<Seq<char>> {
    match crate::markdown::md_parse_of(text) {
        Some(tree) => spec_title_opt(tree),
        None => None,
    }
}

/// The timestamp of a note text, with every failure absorbed.
pub open spec fn spec_ts_of_contents(text: Seq<char>, cfg: Config) -> Option<Timestamp> {
    match crate::markdown::md_parse_of(text) {
        Some(tree) => spec_ts_opt(tree, cfg),
        None => None,
    }
}

/// Extracts a note text's title, absorbing every failure.
pub fn title_of_contents(text: &str) -> (r: Option<String>)
    ensures
        match r {
            Some(t) => spec_title_of_contents(text@) == Some(t@),
            None => spec_title_of_contents(text@) is None,
        },
{
    match crate::markdown::parse_markdown(text) {
        Ok(tree) => title_opt(&tree),
        Err(_) => None,
    }
}

/// What extracting the timestamp yields: the `date` field parsed with the
/// date format, and the optional `time` field parsed with the time format,
/// midnight when absent.
pub open spec fn spec_get_timestamp(fm: YamlValue, cfg: Config) -> Result<
    Timestamp,
    GetTimestampError,
> {
    match fm {
        YamlValue::Table(pairs) => match spec_table_lookup(pairs@, "date"@) {
            None => Err(GetTimestampError::NoDateField),
            Some(dv) => match dv {
                YamlValue::Str(ds) => match date_num_of(ds@, cfg.date_format@) {
                    None => Err(GetTimestampError::TimestampParseError),
                    Some(days) => match spec_table_lookup(pairs@, "time"@) {
                        None => Ok(Timestamp { days, secs: 0 }),
                        Some(tv) => match tv {
                            YamlValue::Str(ts) => match time_num_of(ts@, cfg.time_format@) {
                                None => Err(GetTimestampError::TimestampParseError),
                                Some(secs) => Ok(Timestamp { days, secs }),
                            },
                            _ => Err(GetTimestampError::TimestampFieldsNotString),
                        },
                    },
                },
                _ => Err(GetTimestampError::TimestampFieldsNotString),
            },
        },
        _ => Err(GetTimestampError::NotHashTable),
    }
}

/// Extracts the note's timestamp from its frontmatter.
pub fn get_timestamp(frontmatter: &YamlValue, config: &Config) -> (r: Result<
    Timestamp,
    GetTimestampError,
>)
    ensures
        match r {
            Ok(t) => spec_get_timestamp(*frontmatter, *config) == Ok::<_, GetTimestampError>(t),
            Err(e) => spec_get_timestamp(*frontmatter, *config) == Err::<Timestamp, _>(e),
        },
{
    let pairs = match frontmatter {
        YamlValue::Table(pairs) => pairs,
        _ => {
            return Err(GetTimestampError::NotHashTable);
        },
    };
    proof {
        assert(pairs@.skip(0) =~= pairs@);
    }
    let dv = match table_lookup(pairs, "date", 0) {
        None => {
            return Err(GetTimestampError::NoDateField);
        },
        Some(dv) => dv,
    };
    let ds = match dv {
        YamlValue::Str(ds) => ds,
        _ => {
            return Err(GetTimestampError::TimestampFieldsNotString);
        },
    };
    let days = match parse_date_num(ds.as_str(), config.date_format.as_str()) {
        None => {
            return Err(GetTimestampError::TimestampParseError);
        },
        Some(days) => days,
    };
    match table_lookup(pairs, "time", 0) {
        None => Ok(Timestamp { days, secs: 0 }),
        Some(tv) => match tv {
            YamlValue::Str(ts) => match parse_time_num(ts.as_str(), config.time_format.as_str()) {
                None => Err(GetTimestampError::TimestampParseError),
                Some(secs) => Ok(Timestamp { days, secs }),
            },
            _ => Err(GetTimestampError::TimestampFieldsNotString),
        },
    }
}

} // verus!

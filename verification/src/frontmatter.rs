//! The metadata header of a document, and the fallback rules that make
//! `title` and `date` total: a missing title comes from the file stem, a
//! missing or unusable date from the file's modification time.

use vstd::prelude::*;
use vstd::string::*;
use crate::strutil::lower_seq;
use crate::strutil::lower_ascii;
use crate::strutil::str_eq;
use crate::yamlval::yaml_check;
use crate::yamlval::yaml_mapping_check;
use crate::yamlval::yaml_field_present;
use crate::yamlval::yaml_str_field;
use crate::yamlval::yaml_bool_field;
use crate::yamlval::yaml_seq_len;
use crate::yamlval::yaml_seq_str;
use crate::yamlval::yaml_wf;
use crate::yamlval::ymapping_of;
use crate::yamlval::yfield_of;
use crate::yamlval::ystr_of;
use crate::yamlval::ybool_of;
use crate::yamlval::yseqlen_of;
use crate::yamlval::yseqstr_of;

verus! {

/// Why a header block was rejected.
#[derive(Debug, PartialEq, Eq)]
pub enum ParseError {
    /// The header text is not well-formed YAML.
    Syntax,
    /// The header is well-formed YAML but no key-to-value mapping.
    NotAMapping,
    /// A header field holds a value of the wrong shape; carries the
    /// field's name.
    BadField(String),
}

/// A decimal digit.
pub open spec fn is_digit(c: char) -> bool {
    48 <= c as u32 && c as u32 <= 57
}

/// The leading `YYYY-MM-DD` of a string, if it starts with one.
pub open spec fn date_prefix_spec(s: Seq<char>) -> Option<Seq<char>> {
    if s.len() >= 10 && is_digit(s[0]) && is_digit(s[1]) && is_digit(s[2]) && is_digit(s[3]) && s[4]
        == '-' && is_digit(s[5]) && is_digit(s[6]) && s[7] == '-' && is_digit(s[8]) && is_digit(
        s[9],
    ) {
        Some(s.take(10))
    } else {
        None
    }
}

/// View of an optional string field.
pub open spec fn opt_view(o: Option<String>) -> Option<Seq<char>> {
    match o {
        Some(s) => Some(s@),
        None => None,
    }
}

/// View of an optional list-of-strings field.
pub open spec fn opt_deep_view(o: Option<Vec<String>>) -> Option<Seq<Seq<char>>> {
    match o {
        Some(v) => Some(v.deep_view()),
        None => None,
    }
}

/// The date prefix of an optional field.
pub open spec fn opt_prefix(o: Option<Seq<char>>) -> Option<Seq<char>> {
    match o {
        Some(s) => date_prefix_spec(s),
        None => None,
    }
}

/// Mathematical image of a raw header block.
pub struct GRaw {
    pub title: Option<Seq<char>>,
    pub date: Option<Seq<char>>,
    pub modified: Option<Seq<char>>,
    pub created: Option<Seq<char>>,
    pub published: Option<Seq<char>>,
    pub authors: Option<Seq<Seq<char>>>,
    pub draft: Option<Seq<char>>,
    pub link: Option<Seq<char>>,
    pub tags: Option<Seq<Seq<char>>>,
}

/// A raw header exactly as the document gave it: every field optional,
/// nothing derived yet.
pub struct Raw {
    pub title: Option<String>,
    pub date: Option<String>,
    pub modified: Option<String>,
    pub created: Option<String>,
    pub published: Option<String>,
    pub authors: Option<Vec<String>>,
    pub draft: Option<String>,
    pub link: Option<String>,
    pub tags: Option<Vec<String>>,
}

impl View for Raw {
    type V = GRaw;

    open spec fn view(&self) -> GRaw {
        GRaw {
            title: opt_view(self.title),
            date: opt_view(self.date),
            modified: opt_view(self.modified),
            created: opt_view(self.created),
            published: opt_view(self.published),
            authors: opt_deep_view(self.authors),
            draft: opt_view(self.draft),
            link: opt_view(self.link),
            tags: opt_deep_view(self.tags),
        }
    }
}

/// A raw header with no field at all, as when a document has no header
/// block.
pub open spec fn empty_raw() -> GRaw {
    GRaw {
        title: None,
        date: None,
        modified: None,
        created: None,
        published: None,
        authors: None,
        draft: None,
        link: None,
        tags: None,
    }
}

/// The date the header determines: the first of `modified`, `created`,
/// `date` that starts with `YYYY-MM-DD`, else the fallback.
pub open spec fn raw_date_spec(g: GRaw, fallback: Seq<char>) -> Seq<char> {
    match opt_prefix(g.modified) {
        Some(p) => p,
        None => match opt_prefix(g.created) {
            Some(p) => p,
            None => match opt_prefix(g.date) {
                Some(p) => p,
                None => fallback,
            },
        },
    }
}

pub open spec fn true_chars() -> Seq<char> {
    seq!['t', 'r', 'u', 'e']
}

/// A page is a draft exactly when its `draft` field, lower-cased, reads
/// `true`.
pub open spec fn draft_spec(d: Option<Seq<char>>) -> bool {
    match d {
        Some(s) => lower_seq(s) == true_chars(),
        None => false,
    }
}

/// Whether the first ten characters are a date, `2024-03-01`-shaped.
fn date_shaped(s: &str) -> (r: bool)
    ensures
        r == (date_prefix_spec(s@) is Some),
{
    let len = s.unicode_len();
    if len < 10 {
        return false;
    }
    let d0 = s.get_char(0);
    let d1 = s.get_char(1);
    let d2 = s.get_char(2);
    let d3 = s.get_char(3);
    let h4 = s.get_char(4);
    let d5 = s.get_char(5);
    let d6 = s.get_char(6);
    let h7 = s.get_char(7);
    let d8 = s.get_char(8);
    let d9 = s.get_char(9);
    (d0 as u32) >= 48 && (d0 as u32) <= 57 && (d1 as u32) >= 48 && (d1 as u32) <= 57 && (d2 as u32)
        >= 48 && (d2 as u32) <= 57 && (d3 as u32) >= 48 && (d3 as u32) <= 57 && h4 == '-' && (d5
        as u32) >= 48 && (d5 as u32) <= 57 && (d6 as u32) >= 48 && (d6 as u32) <= 57 && h7 == '-'
        && (d8 as u32) >= 48 && (d8 as u32) <= 57 && (d9 as u32) >= 48 && (d9 as u32) <= 57
}

/// The leading `YYYY-MM-DD` of a string, if it starts with one;
/// whatever follows the date is ignored.
pub fn date_prefix(s: &str) -> (r: Option<String>)
    ensures
        opt_view(r) == date_prefix_spec(s@),
{
    if date_shaped(s) {
        let p = s.substring_char(0, 10).to_owned();
        proof {
            assert(p@ =~= s@.take(10));
        }
        Some(p)
    } else {
        None
    }
}

impl Raw {
    /// The date prefix of one optional header field.
    fn field_prefix(o: &Option<String>) -> (r: Option<String>)
        ensures
            opt_view(r) == opt_prefix(opt_view(*o)),
    {
        match o {
            Some(s) => date_prefix(s.as_str()),
            None => None,
        }
    }

    /// The date this header determines, falling back to the given
    /// (modification-time) date.
    pub fn date(&self, fallback: &str) -> (r: String)
        ensures
            r@ == raw_date_spec(self@, fallback@),
    {
        match Self::field_prefix(&self.modified) {
            Some(p) => p,
            None => match Self::field_prefix(&self.created) {
                Some(p) => p,
                None => match Self::field_prefix(&self.date) {
                    Some(p) => p,
                    None => fallback.to_owned(),
                },
            },
        }
    }

    /// The title this header determines: the `title` field, else the
    /// file's stem.
    pub fn title(&self, stem: &str) -> (r: String)
        ensures
            r@ == (match self@.title {
                Some(t) => t,
                None => stem@,
            }),
    {
        match &self.title {
            Some(t) => t.as_str().to_owned(),
            None => stem.to_owned(),
        }
    }

    /// Whether this header marks a draft: `draft` equals `true`,
    /// compared without regard to case.
    pub fn draft(&self) -> (r: bool)
        ensures
            r == draft_spec(self@.draft),
    {
        match &self.draft {
            Some(s) => {
                let lowered = lower_ascii(s.as_str());
                let r = str_eq(lowered.as_str(), "true");
                proof {
                    reveal_strlit("true");
                    assert("true"@ =~= true_chars());
                }
                r
            },
            None => false,
        }
    }

    /// The authors list, empty when absent.
    pub fn authors(&self) -> (r: Vec<String>)
        ensures
            r.deep_view() == (match self@.authors {
                Some(a) => a,
                None => Seq::<Seq<char>>::empty(),
            }),
    {
        match &self.authors {
            Some(a) => clone_string_vec(a),
            None => Vec::new(),
        }
    }

    /// The `published` date prefix; no fallback, absent when the field
    /// is missing or carries no date.
    pub fn published(&self) -> (r: Option<String>)
        ensures
            opt_view(r) == opt_prefix(self@.published),
    {
        Self::field_prefix(&self.published)
    }

    /// The `link` field, passed through verbatim.
    pub fn link(&self) -> (r: Option<String>)
        ensures
            opt_view(r) == self@.link,
    {
        match &self.link {
            Some(l) => Some(l.as_str().to_owned()),
            None => None,
        }
    }

    /// The tags list, empty when absent.
    pub fn tags(&self) -> (r: Vec<String>)
        ensures
            r.deep_view() == (match self@.tags {
                Some(t) => t,
                None => Seq::<Seq<char>>::empty(),
            }),
    {
        match &self.tags {
            Some(t) => clone_string_vec(t),
            None => Vec::new(),
        }
    }
}

/// Copy a list of strings.
fn clone_string_vec(v: &Vec<String>) -> (r: Vec<String>)
    ensures
        r.deep_view() =~= v.deep_view(),
{
    let mut out: Vec<String> = Vec::new();
    let mut i: usize = 0;
    while i < v.len()
        invariant
            i <= v@.len(),
            out.deep_view() =~= v.deep_view().take(i as int),
        decreases v@.len() - i,
    {
        out.push(v[i].as_str().to_owned());
        proof {
            assert(out.deep_view() =~= v.deep_view().take(i as int).push(v@[i as int]@));
            assert(v.deep_view().take(i as int + 1) =~= v.deep_view().take(i as int).push(
                v.deep_view()[i as int],
            ));
        }
        i = i + 1;
    }
    proof {
        assert(v.deep_view().take(v@.len() as int) =~= v.deep_view());
    }
    out
}

/// Mathematical image of a finished metadata record.
pub struct GFrontMatter {
    pub title: Seq<char>,
    pub draft: bool,
    pub date: Seq<char>,
    pub authors: Seq<Seq<char>>,
    pub published: Option<Seq<char>>,
    pub link: Option<Seq<char>>,
    pub tags: Seq<Seq<char>>,
}

/// The metadata of one document after extraction; `title` and `date`
/// are always present, by fallback if need be.
#[derive(Debug)]
pub struct FrontMatter {
    pub title: String,
    pub draft: bool,
    pub date: String,
    pub authors: Vec<String>,
    pub published: Option<String>,
    pub link: Option<String>,
    pub tags: Vec<String>,
}

impl View for FrontMatter {
    type V = GFrontMatter;

    open spec fn view(&self) -> GFrontMatter {
        GFrontMatter {
            title: self.title@,
            draft: self.draft,
            date: self.date@,
            authors: self.authors.deep_view(),
            published: opt_view(self.published),
            link: opt_view(self.link),
            tags: self.tags.deep_view(),
        }
    }
}

/// The record a raw header yields, every fallback applied.
pub open spec fn from_raw_spec(g: GRaw, stem: Seq<char>, fallback_date: Seq<char>) -> GFrontMatter {
    GFrontMatter {
        title: match g.title {
            Some(t) => t,
            None => stem,
        },
        draft: draft_spec(g.draft),
        date: raw_date_spec(g, fallback_date),
        authors: match g.authors {
            Some(a) => a,
            None => Seq::empty(),
        },
        published: opt_prefix(g.published),
        link: g.link,
        tags: match g.tags {
            Some(t) => t,
            None => Seq::empty(),
        },
    }
}

/// One optional string-scalar field reads cleanly: it is absent, or it
/// holds a string.
pub open spec fn str_field_ok(t: Seq<char>, k: Seq<char>) -> bool {
    yfield_of(t, k) ==> ystr_of(t, k) is Some
}

/// The value of one optional string-scalar field.
pub open spec fn str_field_val(t: Seq<char>, k: Seq<char>) -> Option<Seq<char>> {
    if yfield_of(t, k) {
        ystr_of(t, k)
    } else {
        None
    }
}

/// The `draft` field reads cleanly: absent, a string, or a boolean.
pub open spec fn draft_field_ok(t: Seq<char>) -> bool {
    yfield_of(t, "draft"@) ==> (ystr_of(t, "draft"@) is Some || ybool_of(t, "draft"@) is Some)
}

/// The value of the `draft` field, a boolean read as its text.
pub open spec fn draft_field_val(t: Seq<char>) -> Option<Seq<char>> {
    if !yfield_of(t, "draft"@) {
        None
    } else {
        match ystr_of(t, "draft"@) {
            Some(s) => Some(s),
            None => match ybool_of(t, "draft"@) {
                Some(b) => if b {
                    Some("true"@)
                } else {
                    Some("false"@)
                },
                None => None,
            },
        }
    }
}

/// A string-or-list field reads cleanly: absent, one string, or a
/// sequence of strings.
pub open spec fn list_field_ok(t: Seq<char>, k: Seq<char>) -> bool {
    yfield_of(t, k) ==> (ystr_of(t, k) is Some || (yseqlen_of(t, k) is Some && forall|
        i: int,
    | 0 <= i < yseqlen_of(t, k)->Some_0 ==> yseqstr_of(t, k, i) is Some))
}

/// The normalised value of a string-or-list field.
pub open spec fn list_field_val(t: Seq<char>, k: Seq<char>) -> Option<Seq<Seq<char>>> {
    if !yfield_of(t, k) {
        None
    } else {
        match ystr_of(t, k) {
            Some(s) => Some(seq![s]),
            None => match yseqlen_of(t, k) {
                Some(n) => Some(
                    Seq::new(
                        n as nat,
                        |i: int|
                            match yseqstr_of(t, k, i) {
                                Some(s) => s,
                                None => Seq::empty(),
                            },
                    ),
                ),
                None => None,
            },
        }
    }
}

/// The raw header the text encodes, field by named field.
pub open spec fn raw_of(t: Seq<char>) -> GRaw {
    GRaw {
        title: str_field_val(t, "title"@),
        date: str_field_val(t, "date"@),
        modified: str_field_val(t, "modified"@),
        created: str_field_val(t, "created"@),
        published: str_field_val(t, "published"@),
        authors: list_field_val(t, "authors"@),
        draft: draft_field_val(t),
        link: str_field_val(t, "link"@),
        tags: list_field_val(t, "tags"@),
    }
}

/// The first field, in extraction order, whose value has the wrong
/// shape: the field a `BadField` error names.
pub open spec fn first_bad_field(t: Seq<char>) -> Option<Seq<char>> {
    if !str_field_ok(t, "title"@) {
        Some("title"@)
    } else if !str_field_ok(t, "date"@) {
        Some("date"@)
    } else if !str_field_ok(t, "modified"@) {
        Some("modified"@)
    } else if !str_field_ok(t, "created"@) {
        Some("created"@)
    } else if !str_field_ok(t, "published"@) {
        Some("published"@)
    } else if !str_field_ok(t, "link"@) {
        Some("link"@)
    } else if !draft_field_ok(t) {
        Some("draft"@)
    } else if !list_field_ok(t, "authors"@) {
        Some("authors"@)
    } else if !list_field_ok(t, "tags"@) {
        Some("tags"@)
    } else {
        None
    }
}

/// A present header extracts cleanly: well-formed YAML, a mapping, and
/// every recognised field of the right shape.
pub open spec fn header_ok(t: Seq<char>) -> bool {
    yaml_wf(t) && ymapping_of(t) && first_bad_field(t) is None
}

/// An optional header extracts cleanly; no header trivially does.
pub open spec fn header_opt_ok(y: Option<Seq<char>>) -> bool {
    match y {
        None => true,
        Some(t) => header_ok(t),
    }
}

/// The highest epoch second the date formatter accepts (end of year
/// 9999).
pub const MAX_FORMATTABLE_EPOCH: i64 = 253402300799;

/// The `YYYY-MM-DD` date, in UTC, that an epoch second count falls on.
pub uninterp spec fn date_of_epoch(secs: i64) -> Seq<char>;

/// Relies on `time::OffsetDateTime::from_unix_timestamp` and ISO-8601
/// date formatting: the calendar date, in UTC, of an epoch second
/// count; total for timestamps between 1970 and the year 9999.
#[verifier::external_body]
pub fn epoch_date(secs: i64) -> (r: String)
    requires
        0 <= secs <= MAX_FORMATTABLE_EPOCH,
    ensures
        r@ == date_of_epoch(secs),
{
    let dt = time::OffsetDateTime::from_unix_timestamp(secs).expect("timestamp in range");
    dt.format(&time::format_description::well_known::Iso8601::DATE).expect("date in range")
}

impl FrontMatter {
    /// Apply every fallback rule to a raw header: the exact record it
    /// determines, given the file's stem and its modification date.
    pub fn from_raw(raw: &Raw, stem: &str, fallback_date: &str) -> (r: FrontMatter)
        ensures
            r@ == from_raw_spec(raw@, stem@, fallback_date@),
    {
        FrontMatter {
            title: raw.title(stem),
            draft: raw.draft(),
            date: raw.date(fallback_date),
            authors: raw.authors(),
            published: raw.published(),
            link: raw.link(),
            tags: raw.tags(),
        }
    }

    /// Read one optional string field of the header.
    fn get_string_field(text: &str, name: &str) -> (r: Result<Option<String>, ParseError>)
        ensures
            str_field_ok(text@, name@) ==> (r matches Ok(o) && opt_view(o) == str_field_val(
                text@,
                name@,
            )),
            !str_field_ok(text@, name@) ==> (r matches Err(e) && e matches ParseError::BadField(k)
                && k@ == name@),
    {
        if !yaml_field_present(text, name) {
            return Ok(None);
        }
        match yaml_str_field(text, name) {
            Some(s) => Ok(Some(s)),
            None => Err(ParseError::BadField(name.to_owned())),
        }
    }

    /// Read the `draft` field: a string is taken as it stands, a YAML
    /// boolean as the text it was written as.
    fn get_draft_field(text: &str) -> (r: Result<Option<String>, ParseError>)
        ensures
            draft_field_ok(text@) ==> (r matches Ok(o) && opt_view(o) == draft_field_val(text@)),
            !draft_field_ok(text@) ==> (r matches Err(e) && e matches ParseError::BadField(k) && k@
                == "draft"@),
    {
        if !yaml_field_present(text, "draft") {
            return Ok(None);
        }
        match yaml_str_field(text, "draft") {
            Some(s) => Ok(Some(s)),
            None => match yaml_bool_field(text, "draft") {
                Some(b) => Ok(
                    Some(
                        if b {
                            "true".to_owned()
                        } else {
                            "false".to_owned()
                        },
                    ),
                ),
                None => Err(ParseError::BadField("draft".to_owned())),
            },
        }
    }

    /// Read a field that may be one string or a list of strings,
    /// normalised to a list.
    fn get_string_or_vec_field(text: &str, name: &str) -> (r: Result<
        Option<Vec<String>>,
        ParseError,
    >)
        ensures
            list_field_ok(text@, name@) ==> (r matches Ok(o) && opt_deep_view(o) == list_field_val(
                text@,
                name@,
            )),
            !list_field_ok(text@, name@) ==> (r matches Err(e) && e matches ParseError::BadField(k)
                && k@ == name@),
    {
        if !yaml_field_present(text, name) {
            return Ok(None);
        }
        match yaml_str_field(text, name) {
            Some(s) => {
                let ghost sv = s@;
                let mut one: Vec<String> = Vec::new();
                one.push(s);
                proof {
                    assert(one.deep_view() =~= seq![sv]);
                }
                return Ok(Some(one));
            },
            None => {},
        }
        let n = match yaml_seq_len(text, name) {
            Some(n) => n,
            None => {
                return Err(ParseError::BadField(name.to_owned()));
            },
        };
        let mut out: Vec<String> = Vec::new();
        let mut i: usize = 0;
        while i < n
            invariant
                yfield_of(text@, name@),
                ystr_of(text@, name@) is None,
                yseqlen_of(text@, name@) == Some(n as int),
                i <= n,
                forall|j: int| 0 <= j < i ==> yseqstr_of(text@, name@, j) is Some,
                out.deep_view() =~= Seq::new(
                    i as nat,
                    |j: int|
                        match yseqstr_of(text@, name@, j) {
                            Some(s) => s,
                            None => Seq::empty(),
                        },
                ),
            decreases n - i,
        {
            match yaml_seq_str(text, name, i) {
                Some(s) => {
                    let ghost pre = out.deep_view();
                    let ghost sv = s@;
                    out.push(s);
                    proof {
                        assert(out.deep_view() =~= pre.push(sv));
                        assert(out.deep_view() =~= Seq::new(
                            (i + 1) as nat,
                            |j: int|
                                match yseqstr_of(text@, name@, j) {
                                    Some(s2) => s2,
                                    None => Seq::empty(),
                                },
                        ));
                    }
                },
                None => {
                    proof {
                        assert(yseqstr_of(text@, name@, i as int) is None);
                        assert(!list_field_ok(text@, name@)) by {
                            if list_field_ok(text@, name@) {
                                assert(yseqstr_of(text@, name@, i as int) is Some);
                            }
                        }
                    }
                    return Err(ParseError::BadField(name.to_owned()));
                },
            }
            i = i + 1;
        }
        Ok(Some(out))
    }

    /// Pull every recognised field out of the header text, in a fixed
    /// order, stopping at the first one of the wrong shape.
    fn raw_from_text(text: &str) -> (r: Result<Raw, ParseError>)
        ensures
            (match first_bad_field(text@) {
                None => r matches Ok(raw) && raw@ == raw_of(text@),
                Some(f) => r matches Err(e) && e matches ParseError::BadField(k) && k@ == f,
            }),
    {
        let title = match Self::get_string_field(text, "title") {
            Ok(t) => t,
            Err(e) => {
                return Err(e);
            },
        };
        let date = match Self::get_string_field(text, "date") {
            Ok(t) => t,
            Err(e) => {
                return Err(e);
            },
        };
        let modified = match Self::get_string_field(text, "modified") {
            Ok(t) => t,
            Err(e) => {
                return Err(e);
            },
        };
        let created = match Self::get_string_field(text, "created") {
            Ok(t) => t,
            Err(e) => {
                return Err(e);
            },
        };
        let published = match Self::get_string_field(text, "published") {
            Ok(t) => t,
            Err(e) => {
                return Err(e);
            },
        };
        let link = match Self::get_string_field(text, "link") {
            Ok(t) => t,
            Err(e) => {
                return Err(e);
            },
        };
        let draft = match Self::get_draft_field(text) {
            Ok(t) => t,
            Err(e) => {
                return Err(e);
            },
        };
        let authors = match Self::get_string_or_vec_field(text, "authors") {
            Ok(t) => t,
            Err(e) => {
                return Err(e);
            },
        };
        let tags = match Self::get_string_or_vec_field(text, "tags") {
            Ok(t) => t,
            Err(e) => {
                return Err(e);
            },
        };
        Ok(Raw { title, date, modified, created, published, authors, draft, link, tags })
    }

    /// Extract the metadata record of one document from its optional
    /// header text.  With no header every field falls back; with a
    /// header, the fields it holds are taken and the rest fall back.
    /// `Syntax` is returned exactly when the text is not well-formed
    /// YAML, `NotAMapping` exactly when it parses to something other
    /// than a mapping, and `BadField` exactly for the first field of
    /// the wrong shape; otherwise the record is the named field reads
    /// under the fallback rules.
    pub fn try_from_yaml(stem: &str, mtime_epoch: i64, yaml: Option<&str>) -> (r: Result<
        FrontMatter,
        ParseError,
    >)
        requires
            0 <= mtime_epoch <= MAX_FORMATTABLE_EPOCH,
        ensures
            yaml is None ==> (r matches Ok(fm) && fm@ == from_raw_spec(
                empty_raw(),
                stem@,
                date_of_epoch(mtime_epoch),
            )),
            yaml matches Some(t) ==> ((r matches Err(e) && e == ParseError::Syntax) <==> !yaml_wf(
                t@,
            )),
            yaml matches Some(t) ==> (yaml_wf(t@) ==> ((r matches Err(e) && e
                == ParseError::NotAMapping) <==> !ymapping_of(t@))),
            yaml matches Some(t) ==> ((yaml_wf(t@) && ymapping_of(t@)) ==> (match first_bad_field(
                t@,
            ) {
                Some(f) => r matches Err(e) && e matches ParseError::BadField(k) && k@ == f,
                None => r matches Ok(fm) && fm@ == from_raw_spec(
                    raw_of(t@),
                    stem@,
                    date_of_epoch(mtime_epoch),
                ),
            })),
    {
        let fallback = epoch_date(mtime_epoch);
        let text = match yaml {
            None => {
                let empty = Raw {
                    title: None,
                    date: None,
                    modified: None,
                    created: None,
                    published: None,
                    authors: None,
                    draft: None,
                    link: None,
                    tags: None,
                };
                proof {
                    assert(empty@ == empty_raw());
                }
                return Ok(Self::from_raw(&empty, stem, fallback.as_str()));
            },
            Some(t) => t,
        };
        if !yaml_check(text) {
            return Err(ParseError::Syntax);
        }
        if !yaml_mapping_check(text) {
            return Err(ParseError::NotAMapping);
        }
        let raw = match Self::raw_from_text(text) {
            Ok(raw) => raw,
            Err(e) => {
                return Err(e);
            },
        };
        let fm = Self::from_raw(&raw, stem, fallback.as_str());
        proof {
            assert(fm@ == from_raw_spec(raw@, stem@, date_of_epoch(mtime_epoch)));
        }
        Ok(fm)
    }
}

} // verus!

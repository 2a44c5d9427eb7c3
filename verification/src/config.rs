//! Site configuration: which folders the index build ignores, and which
//! folders get listing pages.

use vstd::prelude::*;
use crate::strutil::str_eq;
use crate::frontmatter::ParseError;
use crate::yamlval::yaml_check;
use crate::yamlval::yaml_mapping_check;
use crate::yamlval::yaml_field_present;
use crate::yamlval::yaml_seq_len;
use crate::yamlval::yaml_seq_str;
use crate::yamlval::yaml_wf;
use crate::yamlval::ymapping_of;
use crate::yamlval::yfield_of;
use crate::yamlval::yseqlen_of;
use crate::yamlval::yseqstr_of;

verus! {

/// Whether some member of `xs` is the string `x`.
pub open spec fn contains_str(xs: Seq<Seq<char>>, x: Seq<char>) -> bool {
    exists|i: int| 0 <= i < xs.len() && xs[i] == x
}

/// A folder-list field of the configuration reads cleanly: absent, or
/// a sequence of strings.
pub open spec fn cfg_list_ok(t: Seq<char>, k: Seq<char>) -> bool {
    yfield_of(t, k) ==> (yseqlen_of(t, k) is Some && forall|i: int|
        0 <= i < yseqlen_of(t, k)->Some_0 ==> yseqstr_of(t, k, i) is Some)
}

/// The value of a folder-list field, empty when absent.
pub open spec fn cfg_list_val(t: Seq<char>, k: Seq<char>) -> Seq<Seq<char>> {
    if !yfield_of(t, k) {
        Seq::empty()
    } else {
        match yseqlen_of(t, k) {
            Some(n) => Seq::new(
                n as nat,
                |i: int|
                    match yseqstr_of(t, k, i) {
                        Some(s) => s,
                        None => Seq::empty(),
                    },
            ),
            None => Seq::empty(),
        }
    }
}

/// The configuration the text encodes, field by named field.
pub open spec fn config_of(t: Seq<char>) -> GConfig {
    GConfig {
        ignored_folders: cfg_list_val(t, "ignored_folders"@),
        list_folders: cfg_list_val(t, "list_folders"@),
    }
}

/// The first configuration field of the wrong shape, in reading order.
pub open spec fn cfg_first_bad(t: Seq<char>) -> Option<Seq<char>> {
    if !cfg_list_ok(t, "ignored_folders"@) {
        Some("ignored_folders"@)
    } else if !cfg_list_ok(t, "list_folders"@) {
        Some("list_folders"@)
    } else {
        None
    }
}

/// Mathematical image of a configuration.
pub struct GConfig {
    pub ignored_folders: Seq<Seq<char>>,
    pub list_folders: Seq<Seq<char>>,
}

/// Configuration for how to generate the site.  Folder paths are
/// root-relative, `/`-separated.
pub struct Config {
    /// Folders whose whole subtree the index build skips.
    pub ignored_folders: Vec<String>,
    /// Folders to generate list pages for.
    pub list_folders: Vec<String>,
}

impl View for Config {
    type V = GConfig;

    open spec fn view(&self) -> GConfig {
        GConfig {
            ignored_folders: self.ignored_folders.deep_view(),
            list_folders: self.list_folders.deep_view(),
        }
    }
}

impl Default for Config {
    /// The configuration an absent config file means: nothing ignored,
    /// no list folders.
    fn default() -> (r: Self)
        ensures
            r@.ignored_folders =~= Seq::<Seq<char>>::empty(),
            r@.list_folders =~= Seq::<Seq<char>>::empty(),
    {
        Config { ignored_folders: Vec::new(), list_folders: Vec::new() }
    }
}

impl Config {
    /// Read one optional list-of-strings field; a missing field means
    /// its empty default.
    fn get_list_field(text: &str, name: &str) -> (r: Result<Vec<String>, ParseError>)
        ensures
            cfg_list_ok(text@, name@) ==> (r matches Ok(v) && v.deep_view() == cfg_list_val(
                text@,
                name@,
            )),
            !cfg_list_ok(text@, name@) ==> (r matches Err(e) && e matches ParseError::BadField(k)
                && k@ == name@),
    {
        if !yaml_field_present(text, name) {
            let empty: Vec<String> = Vec::new();
            proof {
                assert(empty.deep_view() =~= Seq::<Seq<char>>::empty());
            }
            return Ok(empty);
        }
        let n = match yaml_seq_len(text, name) {
            Some(n) => n,
            None => {
                return Err(ParseError::BadField(name.to_owned()));
            },
        };
        let mut out: Vec<String> = Vec::new();
        let mut i: usize = 0;
        while i < n
            invariant
                yfield_of(text@, name@),
                yseqlen_of(text@, name@) == Some(n as int),
                i <= n,
                forall|j: int| 0 <= j < i ==> yseqstr_of(text@, name@, j) is Some,
                out.deep_view() =~= Seq::new(
                    i as nat,
                    |j: int|
                        match yseqstr_of(text@, name@, j) {
                            Some(s) => s,
                            None => Seq::empty(),
                        },
                ),
            decreases n - i,
        {
            match yaml_seq_str(text, name, i) {
                Some(s) => {
                    let ghost pre = out.deep_view();
                    let ghost sv = s@;
                    out.push(s);
                    proof {
                        assert(out.deep_view() =~= pre.push(sv));
                        assert(out.deep_view() =~= Seq::new(
                            (i + 1) as nat,
                            |j: int|
                                match yseqstr_of(text@, name@, j) {
                                    Some(s2) => s2,
                                    None => Seq::empty(),
                                },
                        ));
                    }
                },
                None => {
                    proof {
                        assert(yseqstr_of(text@, name@, i as int) is None);
                        assert(!cfg_list_ok(text@, name@)) by {
                            if cfg_list_ok(text@, name@) {
                                assert(yseqstr_of(text@, name@, i as int) is Some);
                            }
                        }
                    }
                    return Err(ParseError::BadField(name.to_owned()));
                },
            }
            i = i + 1;
        }
        Ok(out)
    }

    /// Parse the configuration from a YAML string.  `Syntax` comes
    /// exactly when the text is not well-formed YAML, `NotAMapping`
    /// exactly when it is no mapping, `BadField` exactly for the first
    /// folder list of the wrong shape; otherwise the named field reads
    /// give the configuration, a missing field meaning its empty
    /// default.
    pub fn try_from_yaml(yaml: &str) -> (r: Result<Config, ParseError>)
        ensures
            (r matches Err(e) && e == ParseError::Syntax) <==> !yaml_wf(yaml@),
            yaml_wf(yaml@) ==> ((r matches Err(e) && e == ParseError::NotAMapping) <==> !ymapping_of(
                yaml@,
            )),
            (yaml_wf(yaml@) && ymapping_of(yaml@)) ==> (match cfg_first_bad(yaml@) {
                Some(f) => r matches Err(e) && e matches ParseError::BadField(k) && k@ == f,
                None => r matches Ok(cfg) && cfg@ == config_of(yaml@),
            }),
    {
        if !yaml_check(yaml) {
            return Err(ParseError::Syntax);
        }
        if !yaml_mapping_check(yaml) {
            return Err(ParseError::NotAMapping);
        }
        let ignored_folders = match Self::get_list_field(yaml, "ignored_folders") {
            Ok(v) => v,
            Err(e) => {
                return Err(e);
            },
        };
        let list_folders = match Self::get_list_field(yaml, "list_folders") {
            Ok(v) => v,
            Err(e) => {
                return Err(e);
            },
        };
        Ok(Config { ignored_folders, list_folders })
    }

    /// Whether a root-relative folder path is configured as ignored.
    pub fn is_ignored(&self, rel: &str) -> (r: bool)
        ensures
            r == contains_str(self@.ignored_folders, rel@),
    {
        let n = self.ignored_folders.len();
        let mut i: usize = 0;
        while i < n
            invariant
                n == self.ignored_folders@.len(),
                i <= n,
                forall|j: int| 0 <= j < i ==> self@.ignored_folders[j] != rel@,
            decreases n - i,
        {
            proof {
                assert(self@.ignored_folders[i as int] == self.ignored_folders@[i as int]@);
            }
            if str_eq(self.ignored_folders[i].as_str(), rel) {
                return true;
            }
            i = i + 1;
        }
        proof {
            if contains_str(self@.ignored_folders, rel@) {
                let j = choose|j: int|
                    0 <= j < self@.ignored_folders.len() && self@.ignored_folders[j] == rel@;
                assert(self@.ignored_folders[j] != rel@);
            }
        }
        false
    }
}

} // verus!

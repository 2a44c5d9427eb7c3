//! Trusted surface over `serde_yaml`: each helper parses the header
//! text and reads one thing out of the result.  Parsing is a
//! deterministic function of the text alone, so every read bears a
//! name, and the extraction contracts upstream are stated in those
//! names.

use vstd::prelude::*;

verus! {

/// Whether the text is well-formed YAML.
pub uninterp spec fn yaml_wf(text: Seq<char>) -> bool;

/// Whether the text parses to a key-to-value mapping.
pub uninterp spec fn ymapping_of(text: Seq<char>) -> bool;

/// Whether the mapping the text parses to holds this key.
pub uninterp spec fn yfield_of(text: Seq<char>, key: Seq<char>) -> bool;

/// The string scalar under this key, if the key holds one.
pub uninterp spec fn ystr_of(text: Seq<char>, key: Seq<char>) -> Option<Seq<char>>;

/// The boolean scalar under this key, if the key holds one.
pub uninterp spec fn ybool_of(text: Seq<char>, key: Seq<char>) -> Option<bool>;

/// The length of the sequence under this key, if the key holds one.
pub uninterp spec fn yseqlen_of(text: Seq<char>, key: Seq<char>) -> Option<int>;

/// The string scalar at one position of the sequence under this key.
pub uninterp spec fn yseqstr_of(text: Seq<char>, key: Seq<char>, i: int) -> Option<Seq<char>>;

/// Relies on `serde_yaml::from_str`: whether the text is well-formed
/// YAML.  Parsing depends on the text alone.
#[verifier::external_body]
pub fn yaml_check(text: &str) -> (r: bool)
    ensures
        r == yaml_wf(text@),
{
    serde_yaml::from_str::<serde_yaml::Value>(text).is_ok()
}

/// Relies on `serde_yaml::from_str` and `Value::is_mapping`: whether
/// the text parses to a mapping.
#[verifier::external_body]
pub fn yaml_mapping_check(text: &str) -> (r: bool)
    ensures
        r == ymapping_of(text@),
{
    serde_yaml::from_str::<serde_yaml::Value>(text).map_or(false, |v| v.is_mapping())
}

/// Relies on `serde_yaml::from_str` and `Value::get`: whether the
/// parsed mapping holds this key.
#[verifier::external_body]
pub fn yaml_field_present(text: &str, key: &str) -> (r: bool)
    ensures
        r == yfield_of(text@, key@),
{
    serde_yaml::from_str::<serde_yaml::Value>(text).map_or(false, |v| v.get(key).is_some())
}

/// Relies on `serde_yaml::from_str`, `Value::get` and `Value::as_str`:
/// the string scalar under this key, if the key holds one.
#[verifier::external_body]
pub fn yaml_str_field(text: &str, key: &str) -> (r: Option<String>)
    ensures
        (match r {
            Some(s) => ystr_of(text@, key@) == Some(s@),
            None => ystr_of(text@, key@) is None,
        }),
{
    let v: serde_yaml::Value = serde_yaml::from_str(text).ok()?;
    v.get(key)?.as_str().map(str::to_owned)
}

/// Relies on `serde_yaml::from_str`, `Value::get` and `Value::as_bool`:
/// the boolean scalar under this key, if the key holds one.
#[verifier::external_body]
pub fn yaml_bool_field(text: &str, key: &str) -> (r: Option<bool>)
    ensures
        (match r {
            Some(b) => ybool_of(text@, key@) == Some(b),
            None => ybool_of(text@, key@) is None,
        }),
{
    let v: serde_yaml::Value = serde_yaml::from_str(text).ok()?;
    v.get(key)?.as_bool()
}

/// Relies on `serde_yaml::from_str`, `Value::get` and
/// `Value::as_sequence`: how many items the sequence under this key
/// holds, if the key holds one.
#[verifier::external_body]
pub fn yaml_seq_len(text: &str, key: &str) -> (r: Option<usize>)
    ensures
        (match r {
            Some(n) => yseqlen_of(text@, key@) == Some(n as int),
            None => yseqlen_of(text@, key@) is None,
        }),
{
    let v: serde_yaml::Value = serde_yaml::from_str(text).ok()?;
    v.get(key)?.as_sequence().map(|s| s.len())
}

/// Relies on `serde_yaml::from_str`, `Value::get`,
/// `Value::as_sequence` and `Value::as_str`: the string scalar at one
/// position of the sequence under this key.
#[verifier::external_body]
pub fn yaml_seq_str(text: &str, key: &str, i: usize) -> (r: Option<String>)
    ensures
        (match r {
            Some(s) => yseqstr_of(text@, key@, i as int) == Some(s@),
            None => yseqstr_of(text@, key@, i as int) is None,
        }),
{
    let v: serde_yaml::Value = serde_yaml::from_str(text).ok()?;
    v.get(key)?.as_sequence()?.get(i)?.as_str().map(str::to_owned)
}

} // verus!

//! The per-directory declaration: one recognized key naming the remote
//! recipe location.

use vstd::prelude::*;
use vstd::string::*;

verus! {

/// The string standing under `key` at the top level of the YAML document
/// `doc`, if the document parses and carries one there.
pub uninterp spec fn yaml_string_field(doc: Seq<char>, key: Seq<char>) -> Option<Seq<char>>;

/// Relies on serde_yaml::from_str, serde_yaml::Value::get and
/// serde_yaml::Value::as_str: whether a YAML document holds a string under
/// a given top-level key, and which string, is a function of the document
/// text and the key alone.
#[verifier::external_body]
fn yaml_lookup_string(doc: &str, key: &str) -> (r: Option<String>)
    ensures
        r is Some <==> yaml_string_field(doc@, key@) is Some,
        r matches Some(s) ==> yaml_string_field(doc@, key@) matches Some(v) && s@ == v,
{
    match serde_yaml::from_str::<serde_yaml::Value>(doc) {
        Ok(root) => root.get(key).and_then(|f| f.as_str()).map(|s| s.to_string()),
        Err(_) => None,
    }
}

/// The declaration loaded from a directory's `rchan.yaml`.
#[derive(Debug)]
pub struct RchanConfig {
    /// URL of the remote recipe file.
    pub remote_pkgbuild: String,
}

impl RchanConfig {
    /// Parses declaration text: the document must carry a string under the
    /// `remote_pkgbuild` key; every other key is ignored.
    pub fn from_text(text: &str) -> (r: Option<RchanConfig>)
        ensures
            match yaml_string_field(text@, "remote_pkgbuild"@) {
                Some(url) => r matches Some(c) && c.remote_pkgbuild@ == url,
                None => r is None,
            },
    {
        match yaml_lookup_string(text, "remote_pkgbuild") {
            Some(url) => Some(RchanConfig { remote_pkgbuild: url }),
            None => None,
        }
    }
}

} // verus!

//! What a dump says of its site.

use vstd::prelude::*;

verus! {

/// The base of the site, the name space of its templates, and the name
/// spaces it knows.
#[derive(Clone, Debug, Default, PartialEq)]
pub struct SiteInfo {
    pub base: String,
    pub url_base: String,
    pub template_prefix: String,
    pub template_namespace: String,
    pub known_namespaces: Vec<String>,
}

} // verus!

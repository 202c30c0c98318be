//! Where the files of a run are found.

use vstd::prelude::*;
use vstd::string::*;

verus! {

/// Where the dump and its index are found.
#[derive(Clone, Debug, PartialEq)]
pub struct Data {
    /// The path of the dump.
    pub dump: String,
    /// The path of the index of the dump.
    pub index: String,
}

/// Where the kept indices are found.
#[derive(Clone, Debug, PartialEq)]
pub struct Indices {
    pub pages: String,
    pub templates: String,
}

impl Indices {
    /// The path of the kept index of pages, where none is given.
    pub fn default_indices_path() -> (p: String)
        ensures
            p@ == "indices"@,
    {
        String::from_str("indices")
    }

    /// The path of the kept index of templates, where none is given.
    pub fn default_template_indices_path() -> (p: String)
        ensures
            p@ == "template_indices"@,
    {
        String::from_str("template_indices")
    }
}

impl Default for Indices {
    fn default() -> (r: Indices)
        ensures
            r.pages@ == "indices"@,
            r.templates@ == "template_indices"@,
    {
        Indices {
            pages: Indices::default_indices_path(),
            templates: Indices::default_template_indices_path(),
        }
    }
}

/// Where the search index is found.
#[derive(Clone, Debug, PartialEq)]
pub struct SearchIndex {
    pub index_dir: String,
}

/// Where the files of links and of their counts are found.
#[derive(Clone, Debug, PartialEq)]
pub struct Anchors {
    pub anchors: String,
    pub anchor_counts: String,
}

impl Anchors {
    /// The path of the file of links, where none is given.
    pub fn default_anchors_path() -> (p: String)
        ensures
            p@ == "anchors.tsv"@,
    {
        String::from_str("anchors.tsv")
    }

    /// The path of the file of counts, where none is given.
    pub fn default_anchor_counts_path() -> (p: String)
        ensures
            p@ == "anchor_counts.tsv"@,
    {
        String::from_str("anchor_counts.tsv")
    }
}

/// All settings of a run.
#[derive(Clone, Debug, PartialEq)]
pub struct Settings {
    pub data: Data,
    pub indices: Indices,
    pub templates: String,
    pub anchors: Anchors,
    pub search_index: SearchIndex,
}

impl Settings {
    /// The path of the file of templates, where none is given.
    pub fn default_templates_path() -> (p: String)
        ensures
            p@ == "templates.xml"@,
    {
        String::from_str("templates.xml")
    }

    /// The settings with the given paths, and with the default of each path
    /// that is not given.
    pub fn with_defaults(
        data: Data,
        indices: Option<Indices>,
        templates: Option<String>,
        anchors: Anchors,
        search_index: SearchIndex,
    ) -> (s: Settings)
        ensures
            s.data == data,
            s.anchors == anchors,
            s.search_index == search_index,
            match indices {
                Some(i) => s.indices == i,
                None => s.indices.pages@ == "indices"@ && s.indices.templates@
                    == "template_indices"@,
            },
            match templates {
                Some(t) => s.templates == t,
                None => s.templates@ == "templates.xml"@,
            },
    {
        Settings {
            data,
            indices: match indices {
                Some(i) => i,
                None => Indices::default(),
            },
            templates: match templates {
                Some(t) => t,
                None => Settings::default_templates_path(),
            },
            anchors,
            search_index,
        }
    }
}

} // verus!

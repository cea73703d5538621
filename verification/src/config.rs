//! The settings that the index is run with.

use vstd::prelude::*;
use vstd::string::StringExecFns;

verus! {

/// Where the notes lie and what a new note is made from.
#[derive(Clone, Debug, PartialEq, Eq)]
pub struct ConfigOptions {
    /// The directory that holds the notes, one directory below it per project.
    pub zettelkasten: String,
    /// The file whose text a new note starts from.
    pub template: String,
}

impl ConfigOptions {
    /// Settings with the notes under `zettelkasten` and the template at
    /// `template`.
    pub fn new(zettelkasten: &str, template: &str) -> (cfg: ConfigOptions)
        ensures
            cfg.zettelkasten@ == zettelkasten@,
            cfg.template@ == template@,
    {
        ConfigOptions {
            zettelkasten: String::from_str(zettelkasten),
            template: String::from_str(template),
        }
    }
}

} // verus!

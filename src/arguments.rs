//! The options of a run, as the command line gives them.
use vstd::prelude::*;

verus! {

/// A path that tilde expansion changes: `~` alone, or `~` and a separator first.
pub open spec fn tilde_expandable(p: Seq<char>) -> bool {
    p.len() > 0 && p[0] == '~' && (p.len() == 1 || p[1] == '/' || p[1] == '\\')
}

/// `r` is what tilde expansion may make of `p`: `p` itself, or, for a path that
/// starts with `~`, some home directory followed by the rest of `p`.
pub open spec fn expanded_from(r: Seq<char>, p: Seq<char>) -> bool {
    if tilde_expandable(p) {
        r == p || exists|home: Seq<char>| r == home + p.drop_first()
    } else {
        r == p
    }
}

/// The options of a run.
pub struct Arguments {
    /// The manifest to edit.
    pub toml_path: String,
    /// The groups file.
    pub groups_path: String,
    /// Ask before each dependency.
    pub ask: bool,
    /// Be more verbose.
    pub verbose: bool,
    /// Write versions as tilde requirements: `~1.0` in place of `1.0.104`.
    pub use_tilde_version: bool,
    pub subcommand: Subcommand,
}

/// What a run does.
pub enum Subcommand {
    /// List all available groups.
    List,
    /// Add groups to the project.
    Add { group_names: Vec<String> },
}

impl Arguments {
    /// The groups file, with a leading `~` expanded.
    pub fn get_groups_path(&self) -> (r: String)
        ensures
            expanded_from(r@, self.groups_path@),
    {
        Arguments::tilde(&self.groups_path)
    }

    /// The manifest, with a leading `~` expanded.
    pub fn get_toml_path(&self) -> (r: String)
        ensures
            expanded_from(r@, self.toml_path@),
    {
        Arguments::tilde(&self.toml_path)
    }

    /// Relies on shellexpand::tilde: a path that does not start with `~` and a
    /// separator, or `~` alone, comes back as it is; one that does comes back with
    /// the home directory in place of the `~`, or as it is where none is known.
    #[verifier::external_body]
    fn tilde(path: &String) -> (r: String)
        ensures
            expanded_from(r@, path@),
    {
        shellexpand::tilde(path).to_string()
    }
}

} // verus!

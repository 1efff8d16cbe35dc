use vstd::prelude::*;
use vstd::string::StrSliceExecFns;
use crate::text::{contains_text, same_text};

verus! {

/// Whether a name begins with a dot.
pub open spec fn is_dotfile(name: Seq<char>) -> bool {
    name.len() > 0 && name[0] == '.'
}

/// The directory names that a scan passes over unless they are asked for.
pub open spec fn ignored_directories() -> Seq<Seq<char>> {
    seq!["node_modules"@, "target"@, "dist"@, "build"@, "public"@, "out"@]
}

/// A filter as mathematical values: what [`Filter`] stands for.
pub struct FilterData {
    pub include_dotfiles: bool,
    pub included: Seq<Seq<char>>,
    pub excluded: Seq<Seq<char>>,
    pub here: bool,
}

impl FilterData {
    /// Whether an entry of this name is passed over for its leading dot: it has one, dotfiles
    /// are not asked for, and neither is this name.
    pub open spec fn hides(self, name: Seq<char>) -> bool {
        is_dotfile(name) && !self.include_dotfiles && !self.included.contains(name)
    }

    /// Whether a directory of this name is passed over for its name: it is one of the ignored
    /// names and has not been asked for.
    pub open spec fn prunes(self, name: Seq<char>) -> bool {
        ignored_directories().contains(name) && !self.included.contains(name)
    }

    /// Whether files of this language are left out of the count.
    pub open spec fn excludes(self, language: Seq<char>) -> bool {
        self.excluded.contains(language)
    }
}

/// What a scan takes in and what it leaves out.
#[derive(Debug, Clone)]
pub struct Filter {
    /// Take in files and directories whose names begin with a dot.
    pub include_dotfiles: bool,
    /// Names to take in although a leading dot, or the list of ignored directories, would
    /// leave them out.
    pub included: Vec<String>,
    /// Languages to leave out of the count.
    pub excluded: Vec<String>,
    /// Scan the given directory itself, without a search for the root of its project.
    pub here: bool,
}

impl View for Filter {
    type V = FilterData;

    open spec fn view(&self) -> FilterData {
        FilterData {
            include_dotfiles: self.include_dotfiles,
            included: self.included.deep_view(),
            excluded: self.excluded.deep_view(),
            here: self.here,
        }
    }
}

fn begins_with_dot(name: &str) -> (dotted: bool)
    ensures
        dotted == is_dotfile(name@),
{
    !name.is_empty() && name.get_char(0) == '.'
}

fn is_ignored_directory(name: &str) -> (ignored: bool)
    ensures
        ignored == ignored_directories().contains(name@),
{
    let ghost names = ignored_directories();
    let ignored = same_text(name, "node_modules") || same_text(name, "target") || same_text(
        name,
        "dist",
    ) || same_text(name, "build") || same_text(name, "public") || same_text(name, "out");
    proof {
        if ignored {
            assert(names[0] == "node_modules"@ && names[1] == "target"@ && names[2] == "dist"@
                && names[3] == "build"@ && names[4] == "public"@ && names[5] == "out"@);
        }
    }
    ignored
}

impl Filter {
    /// Whether an entry of this name is passed over for its leading dot.
    pub fn hides(&self, name: &str) -> (hidden: bool)
        ensures
            hidden == self@.hides(name@),
    {
        begins_with_dot(name) && !self.include_dotfiles && !contains_text(&self.included, name)
    }

    /// Whether a directory of this name is passed over for its name.
    pub fn prunes(&self, name: &str) -> (pruned: bool)
        ensures
            pruned == self@.prunes(name@),
    {
        is_ignored_directory(name) && !contains_text(&self.included, name)
    }

    /// Whether files of this language are left out of the count.
    pub fn excludes(&self, language: &str) -> (left_out: bool)
        ensures
            left_out == self@.excludes(language@),
    {
        contains_text(&self.excluded, language)
    }
}

} // verus!

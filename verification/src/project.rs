//! Setting up a new project, and the dialogs that ask for one.

use crate::order::{rank_names, Rank};
use vstd::prelude::*;

verus! {

/// What sets a new project up once its directory is there.
#[derive(Clone, Copy, Debug, PartialEq, Eq, Structural)]
pub enum Setup {
    /// `cargo init`, which makes the repository too.
    CargoInit,
    /// An empty repository with a first commit.
    GitInit,
}

/// The language whose projects cargo sets up.
pub open spec fn rust() -> Seq<char> {
    seq!['R', 'u', 's', 't']
}

/// What sets up a project in the language `lang`: cargo a project in
/// Rust, git every other.
pub fn create_project(lang: &str) -> (setup: Setup)
    ensures
        setup == if lang@ == rust() {
            Setup::CargoInit
        } else {
            Setup::GitInit
        },
{
    proof {
        reveal_strlit("Rust");
    }
    assert("Rust"@ =~= rust());
    if rank_names(lang, "Rust") == Rank::Same {
        Setup::CargoInit
    } else {
        Setup::GitInit
    }
}

/// The name that the dialog proposes for a new project.
pub open spec fn proposed_name() -> Seq<char> {
    seq!['n', 'e', 'w', '_', 'p', 'r', 'o', 'j', 'e', 'c', 't']
}

/// The dialog that asks for a new project.
#[derive(Default, Debug, Clone, PartialEq, Eq)]
pub struct AddDialog {
    /// Whether the dialog is shown.
    pub open: bool,
    /// The languages that the dialog completes to.
    pub known_langs: Vec<String>,
    /// The categories that the dialog completes to.
    pub known_category: Vec<String>,
    pub lang: String,
    pub category: String,
    pub name: String,
}

impl AddDialog {
    /// Clears what was typed and proposes the name again. What the dialog
    /// completes to, and whether it is shown, stay.
    pub fn reset(&mut self)
        ensures
            final(self).lang@.len() == 0,
            final(self).category@.len() == 0,
            final(self).name@ == proposed_name(),
            final(self).open == old(self).open,
            final(self).known_langs == old(self).known_langs,
            final(self).known_category == old(self).known_category,
    {
        proof {
            reveal_strlit("new_project");
        }
        assert("new_project"@ =~= proposed_name());
        self.lang = String::new();
        self.category = String::new();
        self.name = String::from_str("new_project");
    }
}

/// The dialog that asks for an idea, new or to be changed.
#[derive(Default, Debug, Clone, PartialEq, Eq)]
pub struct AddIdea {
    /// The identity of the idea that is changed.
    pub id: i32,
    /// Whether an idea is changed, not added.
    pub mode: bool,
    pub lang: String,
    pub description: String,
    pub title: String,
}

} // verus!

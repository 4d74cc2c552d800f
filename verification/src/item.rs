//! The item model: one logical entry of the job table.
//!
//! An entry is either *structured* — created by this tool, carrying a JSON
//! payload in a marker comment — or *opaque*: foreign text preserved
//! exactly as it was read. Views map every type onto sequences of
//! characters so that contracts can speak about contents, not about
//! particular heap values.

use vstd::prelude::*;

verus! {

/// Sync metadata carried by the one registry entry per repository.
pub struct RepoArgs {
    /// Regular expression selecting which repository files are scanned.
    pub whitelist: String,
    /// Branch the repository is kept on.
    pub branch: String,
}

/// The payload of a structured entry.
///
/// `group` is either the reserved registry tag or a repository name;
/// `name` is the repository identifier (on a registry entry) or the
/// relative path of a discovered task file. `repo_args` is present only
/// on registry entries.
pub struct ItemArgs {
    pub group: String,
    pub name: String,
    pub repo_args: Option<RepoArgs>,
}

/// What an entry carries besides its schedule line: a parsed payload for
/// entries this tool owns, or the raw block text of a foreign entry.
pub enum Payload {
    Structured(ItemArgs),
    Opaque(String),
}

/// One logical entry of the job table.
///
/// `schedule` is the five-field time specification and `cmd` the shell
/// command, both stored verbatim. For an opaque entry the two fields are
/// empty and the raw text lives in the payload.
pub struct Item {
    pub schedule: String,
    pub cmd: String,
    pub args: Payload,
}

/// Mathematical image of [`RepoArgs`].
#[verifier::ext_equal]
pub struct RepoArgsV {
    pub whitelist: Seq<char>,
    pub branch: Seq<char>,
}

/// Mathematical image of [`ItemArgs`].
#[verifier::ext_equal]
pub struct ItemArgsV {
    pub group: Seq<char>,
    pub name: Seq<char>,
    pub repo_args: Option<RepoArgsV>,
}

/// Mathematical image of [`Payload`].
#[verifier::ext_equal]
pub enum PayloadV {
    Structured(ItemArgsV),
    Opaque(Seq<char>),
}

/// Mathematical image of [`Item`].
#[verifier::ext_equal]
pub struct ItemV {
    pub schedule: Seq<char>,
    pub cmd: Seq<char>,
    pub args: PayloadV,
}

impl View for RepoArgs {
    type V = RepoArgsV;

    open spec fn view(&self) -> RepoArgsV {
        RepoArgsV { whitelist: self.whitelist@, branch: self.branch@ }
    }
}

impl View for ItemArgs {
    type V = ItemArgsV;

    open spec fn view(&self) -> ItemArgsV {
        ItemArgsV {
            group: self.group@,
            name: self.name@,
            repo_args: match self.repo_args {
                Some(r) => Some(r@),
                None => None,
            },
        }
    }
}

impl View for Payload {
    type V = PayloadV;

    open spec fn view(&self) -> PayloadV {
        match self {
            Payload::Structured(a) => PayloadV::Structured(a@),
            Payload::Opaque(raw) => PayloadV::Opaque(raw@),
        }
    }
}

impl View for Item {
    type V = ItemV;

    open spec fn view(&self) -> ItemV {
        ItemV { schedule: self.schedule@, cmd: self.cmd@, args: self.args@ }
    }
}

impl Clone for RepoArgs {
    fn clone(&self) -> (r: Self)
        ensures
            r == *self,
    {
        RepoArgs { whitelist: self.whitelist.clone(), branch: self.branch.clone() }
    }
}

impl Clone for ItemArgs {
    fn clone(&self) -> (r: Self)
        ensures
            r == *self,
    {
        ItemArgs {
            group: self.group.clone(),
            name: self.name.clone(),
            repo_args: match &self.repo_args {
                Some(ra) => Some(ra.clone()),
                None => None,
            },
        }
    }
}

impl Clone for Payload {
    fn clone(&self) -> (r: Self)
        ensures
            r == *self,
    {
        match self {
            Payload::Structured(a) => Payload::Structured(a.clone()),
            Payload::Opaque(raw) => Payload::Opaque(raw.clone()),
        }
    }
}

impl Clone for Item {
    fn clone(&self) -> (r: Self)
        ensures
            r == *self,
    {
        Item { schedule: self.schedule.clone(), cmd: self.cmd.clone(), args: self.args.clone() }
    }
}

/// The views of a table, in order.
pub open spec fn views(t: Seq<Item>) -> Seq<ItemV> {
    t.map_values(|i: Item| i@)
}

} // verus!

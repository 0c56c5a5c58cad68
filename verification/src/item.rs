//! The records the launcher stores and exchanges.
use vstd::prelude::*;

verus! {

/// One launch entry: an application, a website, a file or a folder.
#[derive(Clone, Debug, PartialEq, Eq)]
pub struct Item {
    pub id: i64,
    pub icon: String,
    pub name: String,
    pub alias: String,
    /// `application`, `website`, `file` or `folder`.
    pub kind: String,
    pub url: String,
    pub args: String,
    pub workdir: String,
    pub description: String,
    pub enabled: bool,
    pub updated_at: String,
}

impl Item {
    /// A field-by-field copy of the entry.
    pub fn duplicate(&self) -> (r: Item)
        ensures
            r == *self,
    {
        Item {
            id: self.id,
            icon: self.icon.clone(),
            name: self.name.clone(),
            alias: self.alias.clone(),
            kind: self.kind.clone(),
            url: self.url.clone(),
            args: self.args.clone(),
            workdir: self.workdir.clone(),
            description: self.description.clone(),
            enabled: self.enabled,
            updated_at: self.updated_at.clone(),
        }
    }

    /// Builds an entry from the columns of a stored row; a stored `enabled`
    /// flag counts as set when it is not zero.
    pub fn from_columns(
        id: i64,
        name: String,
        alias: String,
        kind: String,
        url: String,
        args: String,
        workdir: String,
        description: String,
        icon: String,
        enabled: i64,
        updated_at: String,
    ) -> (r: Item)
        ensures
            r == (Item {
                id,
                icon,
                name,
                alias,
                kind,
                url,
                args,
                workdir,
                description,
                enabled: enabled != 0,
                updated_at,
            }),
    {
        Item {
            id,
            icon,
            name,
            alias,
            kind,
            url,
            args,
            workdir,
            description,
            enabled: enabled != 0,
            updated_at,
        }
    }
}

/// A missing `enabled` flag in an incoming entry counts as set.
pub fn default_true() -> (r: bool)
    ensures
        r,
{
    true
}

/// Counts reported by a synchronisation run.
#[derive(Clone, Copy, Debug, PartialEq, Eq)]
pub struct SyncResult {
    pub added: i32,
    pub updated: i32,
    pub total: i32,
}

/// An entry found by a folder or bookmark synchronisation.
#[derive(Clone, Debug, PartialEq, Eq)]
pub struct SyncedItem {
    pub name: String,
    pub alias: String,
    pub kind: String,
    pub url: String,
    pub description: String,
    pub icon: String,
}

impl SyncedItem {
    /// A field-by-field copy.
    pub fn duplicate(&self) -> (r: SyncedItem)
        ensures
            r == *self,
    {
        SyncedItem {
            name: self.name.clone(),
            alias: self.alias.clone(),
            kind: self.kind.clone(),
            url: self.url.clone(),
            description: self.description.clone(),
            icon: self.icon.clone(),
        }
    }
}

/// An application found by the system scan.
#[derive(Clone, Debug, PartialEq, Eq)]
pub struct ScannedApp {
    pub name: String,
    pub target: String,
    pub args: String,
    pub dir: String,
    pub icon: String,
}

/// A folder whose contents are synchronised into the launcher.
#[derive(Clone, Debug, PartialEq, Eq)]
pub struct FolderRoot {
    pub path: String,
    pub name: String,
    pub recursive: bool,
}

impl FolderRoot {
    /// A field-by-field copy.
    pub fn duplicate(&self) -> (r: FolderRoot)
        ensures
            r == *self,
    {
        FolderRoot { path: self.path.clone(), name: self.name.clone(), recursive: self.recursive }
    }
}

/// A directory shown in the folder picker.
#[derive(Clone, Debug, PartialEq, Eq)]
pub struct DirEntry {
    pub name: String,
    pub path: String,
    pub is_dir: bool,
}

impl DirEntry {
    /// A field-by-field copy.
    pub fn duplicate(&self) -> (r: DirEntry)
        ensures
            r == *self,
    {
        DirEntry { name: self.name.clone(), path: self.path.clone(), is_dir: self.is_dir }
    }
}

/// The answer of an update check.
#[derive(Clone, Debug, PartialEq, Eq)]
pub struct ReleaseCheck {
    pub found: bool,
    pub url: String,
}

} // verus!

//! The application seen by the command handlers: the ordered store roots
//! discovered for one invocation (nearest first), with the group operations
//! that address the nearest root. Group names created here are sanitized to
//! filesystem-safe tokens.
use vstd::prelude::*;
use crate::model::{sanitize_name, sanitize_filename, CommandGroup, SebasError};
use crate::store::{
    insert_file, lookup, names_of, remove_file, store_wf, GroupFileV, Store,
};

verus! {

/// One discovered store root: the directory that marks it, and the group
/// files persisted inside it.
#[derive(Debug)]
pub struct StoreRoot {
    pub path: String,
    pub store: Store,
}

/// The mathematical image of a `StoreRoot`.
pub ghost struct StoreRootV {
    pub path: Seq<char>,
    pub files: Seq<GroupFileV>,
}

impl View for StoreRoot {
    type V = StoreRootV;

    open spec fn view(&self) -> StoreRootV {
        StoreRootV { path: self.path@, files: self.store@ }
    }
}

/// The images of a sequence of store roots.
pub open spec fn root_views(s: Seq<StoreRoot>) -> Seq<StoreRootV> {
    s.map_values(|r: StoreRoot| r@)
}

/// A well-formed invocation: at least one store root was discovered, and
/// every root's files are strictly sorted by name.
pub open spec fn app_wf(roots: Seq<StoreRootV>) -> bool {
    roots.len() > 0 && forall|i: int| 0 <= i < roots.len() ==> store_wf(#[trigger] roots[i].files)
}

/// The first root's files replaced, the rest untouched.
pub open spec fn update_first(roots: Seq<StoreRootV>, files: Seq<GroupFileV>) -> Seq<StoreRootV>
    recommends
        roots.len() > 0,
{
    roots.update(0, StoreRootV { path: roots[0].path, files })
}

/// The engine for one invocation, bound to the store roots discovered by
/// walking up from the working directory, nearest first. Mutating group
/// operations address the nearest root.
#[derive(Debug)]
pub struct SebasApp {
    pub roots: Vec<StoreRoot>,
}

impl View for SebasApp {
    type V = Seq<StoreRootV>;

    open spec fn view(&self) -> Seq<StoreRootV> {
        root_views(self.roots@)
    }
}

impl SebasApp {
    /// Whether this invocation's roots are well-formed.
    pub open spec fn wf(&self) -> bool {
        app_wf(self@)
    }

    /// The nearest store root's path.
    pub open spec fn sebas_dir(&self) -> Seq<char>
        recommends
            self@.len() > 0,
    {
        self@[0].path
    }

    /// Binds the engine to the discovered store roots; with none discovered
    /// there is nothing to work on, which is `NotFound` ("no store here —
    /// initialize one first").
    pub fn new(roots: Vec<StoreRoot>) -> (r: Result<Self, SebasError>)
        ensures
            match r {
                Result::Ok(app) => roots@.len() > 0 && app@ == root_views(roots@),
                Result::Err(e) => e == SebasError::NotFound && roots@.len() == 0,
            },
    {
        if roots.len() == 0 {
            Result::Err(SebasError::NotFound)
        } else {
            Result::Ok(SebasApp { roots })
        }
    }

    /// Loads a group from the nearest root: the persisted commands if its
    /// file exists, the fresh empty group otherwise.
    pub fn load_group(&self, group_name: &str) -> (g: CommandGroup)
        requires
            self@.len() > 0,
        ensures
            g@ == match lookup(self@[0].files, group_name@) {
                Option::Some(c) => c,
                Option::None => Seq::empty(),
            },
    {
        self.roots[0].store.load(group_name)
    }

    /// Whether the nearest root has a file for this group.
    pub fn has_group(&self, group_name: &str) -> (r: bool)
        requires
            self@.len() > 0,
        ensures
            r == (lookup(self@[0].files, group_name@) is Some),
    {
        self.roots[0].store.has_group(group_name)
    }

    /// Saves a group into the nearest root, overwriting its file or creating
    /// it.
    pub fn save_group(&mut self, group_name: &str, group: &CommandGroup)
        requires
            old(self)@.len() > 0,
        ensures
            final(self)@ == update_first(
                old(self)@,
                insert_file(
                    old(self)@[0].files,
                    GroupFileV { name: group_name@, commands: group@ },
                ),
            ),
            old(self).wf() ==> final(self).wf(),
    {
        let ghost r0 = self@;
        let mut root = self.roots.remove(0);
        root.store.save(group_name, group);
        self.roots.insert(0, root);
        proof {
            lemma_update_first(r0, self@, root@);
        }
    }

    /// The group names present at the nearest root, in sorted order.
    pub fn get_all_groups(&self) -> (r: Vec<String>)
        requires
            self@.len() > 0,
        ensures
            r@.map_values(|s: String| s@) == names_of(self@[0].files),
    {
        self.roots[0].store.list_groups()
    }

    /// Creates a group at the nearest root under the sanitized name;
    /// `AlreadyExists` (with nothing changed) if a file for that name is
    /// present.
    pub fn add_group(&mut self, name: &str) -> (r: Result<(), SebasError>)
        requires
            old(self)@.len() > 0,
        ensures
            match r {
                Result::Ok(()) => lookup(old(self)@[0].files, sanitize_name(name@)) is None
                    && final(self)@ == update_first(
                    old(self)@,
                    insert_file(
                        old(self)@[0].files,
                        GroupFileV { name: sanitize_name(name@), commands: Seq::empty() },
                    ),
                ),
                Result::Err(e) => e == SebasError::AlreadyExists && lookup(
                    old(self)@[0].files,
                    sanitize_name(name@),
                ) is Some && final(self)@ == old(self)@,
            },
            old(self).wf() ==> final(self).wf(),
    {
        let sanitized = sanitize_filename(name);
        if self.has_group(sanitized.as_str()) {
            return Result::Err(SebasError::AlreadyExists);
        }
        let group = CommandGroup::new();
        self.save_group(sanitized.as_str(), &group);
        Result::Ok(())
    }

    /// Renames a group at the nearest root; the destination name is
    /// sanitized. `NotFound` if the source group has no file,
    /// `AlreadyExists` if the destination already has one; either error
    /// leaves every group unchanged.
    pub fn rename_group(&mut self, old_name: &str, new_name: &str) -> (r: Result<(), SebasError>)
        requires
            old(self)@.len() > 0,
        ensures
            match r {
                Result::Ok(()) => lookup(old(self)@[0].files, old_name@) is Some && lookup(
                    old(self)@[0].files,
                    sanitize_name(new_name@),
                ) is None && final(self)@ == update_first(
                    old(self)@,
                    insert_file(
                        remove_file(old(self)@[0].files, old_name@),
                        GroupFileV {
                            name: sanitize_name(new_name@),
                            commands: lookup(old(self)@[0].files, old_name@)->0,
                        },
                    ),
                ),
                Result::Err(e) => final(self)@ == old(self)@ && ((e == SebasError::NotFound
                    && lookup(old(self)@[0].files, old_name@) is None) || (e
                    == SebasError::AlreadyExists && lookup(old(self)@[0].files, old_name@) is Some
                    && lookup(old(self)@[0].files, sanitize_name(new_name@)) is Some)),
            },
            old(self).wf() ==> final(self).wf(),
    {
        let ghost r0 = self@;
        let sanitized = sanitize_filename(new_name);
        let mut root = self.roots.remove(0);
        let result = root.store.rename(old_name, sanitized.as_str());
        self.roots.insert(0, root);
        proof {
            lemma_update_first(r0, self@, root@);
            if result is Err {
                assert(update_first(r0, r0[0].files) =~= r0);
            }
        }
        result
    }

    /// Removes a group's file from the nearest root; `NotFound` (with
    /// nothing changed) if it has none.
    pub fn remove_group(&mut self, name: &str) -> (r: Result<(), SebasError>)
        requires
            old(self)@.len() > 0,
        ensures
            match r {
                Result::Ok(()) => lookup(old(self)@[0].files, name@) is Some && final(self)@
                    == update_first(old(self)@, remove_file(old(self)@[0].files, name@)),
                Result::Err(e) => e == SebasError::NotFound && lookup(
                    old(self)@[0].files,
                    name@,
                ) is None && final(self)@ == old(self)@,
            },
            old(self).wf() ==> final(self).wf(),
    {
        let ghost r0 = self@;
        let mut root = self.roots.remove(0);
        let result = root.store.delete(name);
        self.roots.insert(0, root);
        proof {
            lemma_update_first(r0, self@, root@);
            if result is Err {
                assert(update_first(r0, r0[0].files) =~= r0);
            }
        }
        result
    }
}

/// Removing the first root and reinserting its updated value is exactly
/// `update_first`, and keeps well-formedness when the updated store is
/// well-formed.
proof fn lemma_update_first(r0: Seq<StoreRootV>, r1: Seq<StoreRootV>, root: StoreRootV)
    requires
        r0.len() > 0,
        root.path == r0[0].path,
        r1 =~= seq![root] + r0.drop_first(),
    ensures
        r1 == update_first(r0, root.files),
        app_wf(r0) && store_wf(root.files) ==> app_wf(r1),
{
    assert(r1 =~= update_first(r0, root.files));
    if app_wf(r0) && store_wf(root.files) {
        assert forall|i: int| 0 <= i < r1.len() implies store_wf(#[trigger] r1[i].files) by {
            if i > 0 {
                assert(r1[i] == r0[i]);
            }
        }
    }
}

} // verus!

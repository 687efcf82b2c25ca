//! The mutating command operations: adding a command to a group of the
//! nearest root, and editing or removing a command addressed by identifier,
//! wherever in the discovered roots it lives. Removal and edits address the
//! command by its hash inside its group; a group left without commands loses
//! its file rather than being saved empty.
use vstd::prelude::*;
use vstd::pervasive::unreached;
use crate::clock::now_rfc3339;
use crate::groups::{app_wf, update_first, SebasApp, StoreRoot, StoreRootV};
use crate::hashing::{command_hash, generate_hash};
use crate::model::{
    clone_opt_string, cmd_views, opt_view, sanitize_filename, sanitize_name, CommandGroup,
    ResolvedCommand, ResolvedCommandV, SavedCommand, SavedCommandV, SebasError,
};
use crate::resolver::{
    files_entries, find_spec, first_hash_match, group_entries, is_index_id, lemma_cmd_push,
    resolve_spec, roots_entries,
};
use crate::store::{insert_file, lookup, remove_file, store_wf, GroupFileV};
use crate::text::str_eq;

verus! {

/// Some discovered root is marked by this path.
pub open spec fn has_root(roots: Seq<StoreRootV>, path: Seq<char>) -> bool {
    exists|i: int| 0 <= i < roots.len() && (#[trigger] roots[i]).path == path
}

/// The position of the first root marked by this path, or a negative value
/// when none is.
pub open spec fn first_root_idx(roots: Seq<StoreRootV>, path: Seq<char>) -> int
    decreases roots.len(),
{
    if roots.len() == 0 {
        -1
    } else if roots[0].path == path {
        0
    } else if first_root_idx(roots.drop_first(), path) == -1 {
        -1
    } else {
        first_root_idx(roots.drop_first(), path) + 1
    }
}

/// The position of the first root marked by a path is pinned by being a
/// match that no earlier position matches.
pub proof fn lemma_first_root_idx_char(roots: Seq<StoreRootV>, path: Seq<char>, k: int)
    requires
        0 <= k < roots.len(),
        roots[k].path == path,
        forall|j: int| 0 <= j < k ==> (#[trigger] roots[j]).path != path,
    ensures
        first_root_idx(roots, path) == k,
    decreases k,
{
    if k == 0 {
    } else {
        assert(roots[0].path != path);
        assert forall|j: int| 0 <= j < k - 1 implies (#[trigger] roots.drop_first()[j]).path
            != path by {
            assert(roots.drop_first()[j] == roots[j + 1]);
        }
        assert(roots.drop_first()[k - 1] == roots[k]);
        lemma_first_root_idx_char(roots.drop_first(), path, k - 1);
    }
}

/// Every listing row of one root's files carries that root's path.
proof fn lemma_files_entries_path(path: Seq<char>, files: Seq<GroupFileV>, idx: int)
    requires
        0 <= idx < files_entries(path, files).len(),
    ensures
        files_entries(path, files)[idx].folder_path == path,
    decreases files.len(),
{
    let left = files_entries(path, files.drop_last());
    if idx < left.len() {
        lemma_files_entries_path(path, files.drop_last(), idx);
    } else {
        let ge = group_entries(path, files.last());
        assert(files_entries(path, files)[idx] == ge[idx - left.len()]);
    }
}

/// Every listing row names the path of one of the discovered roots.
proof fn lemma_roots_entries_root(roots: Seq<StoreRootV>, idx: int)
    requires
        0 <= idx < roots_entries(roots).len(),
    ensures
        has_root(roots, roots_entries(roots)[idx].folder_path),
    decreases roots.len(),
{
    let left = roots_entries(roots.drop_last());
    if idx < left.len() {
        lemma_roots_entries_root(roots.drop_last(), idx);
        let p = roots_entries(roots)[idx].folder_path;
        assert(roots_entries(roots)[idx] == left[idx]);
        let i = choose|i: int|
            0 <= i < roots.drop_last().len() && (#[trigger] roots.drop_last()[i]).path == p;
        assert(roots[i] == roots.drop_last()[i]);
    } else {
        let last = roots.last();
        lemma_files_entries_path(last.path, last.files, idx - left.len());
        assert(roots_entries(roots)[idx] == files_entries(last.path, last.files)[idx
            - left.len()]);
        assert(roots[roots.len() - 1].path == roots_entries(roots)[idx].folder_path);
    }
}

/// A first hash match is one of the entries.
proof fn lemma_first_match_in(entries: Seq<ResolvedCommandV>, id: Seq<char>)
    requires
        first_hash_match(entries, id) is Some,
    ensures
        exists|idx: int|
            0 <= idx < entries.len() && (#[trigger] entries[idx]) == first_hash_match(
                entries,
                id,
            )->0,
    decreases entries.len(),
{
    if id.is_prefix_of(entries[0].command.hash) {
        assert(entries[0] == first_hash_match(entries, id)->0);
    } else {
        lemma_first_match_in(entries.drop_first(), id);
        let idx = choose|idx: int|
            0 <= idx < entries.drop_first().len() && (#[trigger] entries.drop_first()[idx])
                == first_hash_match(entries.drop_first(), id)->0;
        assert(entries[idx + 1] == first_hash_match(entries, id)->0);
    }
}

/// What an identifier resolves to is one of the merged entries, so the root
/// it names was discovered.
pub proof fn lemma_found_has_root(roots: Seq<StoreRootV>, id: Seq<char>)
    requires
        find_spec(resolve_spec(roots), id) is Some,
    ensures
        has_root(roots, find_spec(resolve_spec(roots), id)->0.folder_path),
{
    let entries = resolve_spec(roots);
    let e = find_spec(entries, id)->0;
    if is_index_id(id) {
        let idx = crate::text::str_to_nat(id) - 1;
        assert(entries[idx] == e);
        assert(entries[idx].folder_path == roots_entries(roots)[idx].folder_path);
        lemma_roots_entries_root(roots, idx);
    } else {
        lemma_first_match_in(entries, id);
        let idx = choose|idx: int|
            0 <= idx < entries.len() && (#[trigger] entries[idx]) == e;
        assert(entries[idx].folder_path == roots_entries(roots)[idx].folder_path);
        lemma_roots_entries_root(roots, idx);
    }
}

/// The commands of a group with one hash's commands removed.
pub open spec fn filter_hash(cmds: Seq<SavedCommandV>, h: Seq<char>) -> Seq<SavedCommandV> {
    cmds.filter(|c: SavedCommandV| c.hash != h)
}

/// The commands stored under a name, or none at all for an absent group.
pub open spec fn lookup_or_empty(files: Seq<GroupFileV>, name: Seq<char>) -> Seq<SavedCommandV> {
    match lookup(files, name) {
        Option::Some(c) => c,
        Option::None => Seq::empty(),
    }
}

/// A root's files after dropping every command with a hash from one group:
/// the group's file disappears when nothing remains, and is rewritten
/// otherwise.
pub open spec fn remove_hash_from_group(
    files: Seq<GroupFileV>,
    group: Seq<char>,
    h: Seq<char>,
) -> Seq<GroupFileV> {
    let remaining = filter_hash(lookup_or_empty(files, group), h);
    if remaining.len() == 0 {
        remove_file(files, group)
    } else {
        insert_file(files, GroupFileV { name: group, commands: remaining })
    }
}

/// The roots after removing a resolved command from its group at its root.
pub open spec fn remove_entry_spec(roots: Seq<StoreRootV>, e: ResolvedCommandV) -> Seq<
    StoreRootV,
> {
    let k = first_root_idx(roots, e.folder_path);
    roots.update(
        k,
        StoreRootV {
            path: roots[k].path,
            files: remove_hash_from_group(roots[k].files, e.group, e.command.hash),
        },
    )
}

/// An edited command: new text brings a freshly derived hash (an edit is a
/// new identity), a new comment replaces the old, and the creation timestamp
/// survives.
pub open spec fn updated_command(
    c: SavedCommandV,
    new_command: Option<Seq<char>>,
    new_comment: Option<Seq<char>>,
) -> SavedCommandV {
    SavedCommandV {
        command: match new_command {
            Option::Some(t) => t,
            Option::None => c.command,
        },
        hash: match new_command {
            Option::Some(t) => command_hash(t),
            Option::None => c.hash,
        },
        comment: match new_comment {
            Option::Some(t) => Option::Some(t),
            Option::None => c.comment,
        },
        created_at: c.created_at,
    }
}

/// Where an edited command lands: the sanitized new group when one is given,
/// its current group otherwise.
pub open spec fn target_group_name(e: ResolvedCommandV, new_group: Option<Seq<char>>) -> Seq<
    char,
> {
    match new_group {
        Option::Some(g) => sanitize_name(g),
        Option::None => e.group,
    }
}

/// The roots after an edit: the command leaves its group (as a removal
/// does), and its updated form is appended to the target group at the same
/// root.
pub open spec fn edit_entry_spec(
    roots: Seq<StoreRootV>,
    e: ResolvedCommandV,
    new_command: Option<Seq<char>>,
    new_group: Option<Seq<char>>,
    new_comment: Option<Seq<char>>,
) -> Seq<StoreRootV> {
    let k = first_root_idx(roots, e.folder_path);
    let files1 = remove_hash_from_group(roots[k].files, e.group, e.command.hash);
    let tg = target_group_name(e, new_group);
    let upd = updated_command(e.command, new_command, new_comment);
    let tcmds = lookup_or_empty(files1, tg).push(upd);
    roots.update(
        k,
        StoreRootV {
            path: roots[k].path,
            files: insert_file(files1, GroupFileV { name: tg, commands: tcmds }),
        },
    )
}

/// The group name a new command lands in: the sanitized given name, or the
/// sanitized default bucket.
pub open spec fn added_group_name(group: Option<Seq<char>>) -> Seq<char> {
    match group {
        Option::Some(g) => sanitize_name(g),
        Option::None => sanitize_name("Miscellaneous"@),
    }
}

/// Removing an absent group file changes nothing.
proof fn lemma_remove_absent(files: Seq<GroupFileV>, name: Seq<char>)
    requires
        lookup(files, name) is None,
    ensures
        remove_file(files, name) == files,
    decreases files.len(),
{
    if files.len() == 0 {
        assert(remove_file(files, name) =~= files);
    } else {
        lemma_remove_absent(files.drop_first(), name);
        assert(remove_file(files, name) =~= files);
    }
}

/// Keeps only the commands whose hash differs from the given one.
#[verifier::loop_isolation(false)]
fn filter_commands(v: &Vec<SavedCommand>, hash: &str) -> (r: Vec<SavedCommand>)
    ensures
        cmd_views(r@) == filter_hash(cmd_views(v@), hash@),
{
    let ghost all = cmd_views(v@);
    let ghost pred = |c: SavedCommandV| c.hash != hash@;
    let mut r: Vec<SavedCommand> = Vec::new();
    let mut i: usize = 0;
    proof {
        reveal(Seq::filter);
        assert(all.take(0) =~= Seq::<SavedCommandV>::empty());
        assert(cmd_views(r@) =~= all.take(0).filter(pred));
    }
    while i < v.len()
        invariant
            i <= v@.len(),
            all.len() == v@.len(),
            cmd_views(r@) == all.take(i as int).filter(pred),
        decreases v@.len() - i,
    {
        let keep = !str_eq(v[i].hash.as_str(), hash);
        proof {
            assert(all[i as int] == v@[i as int]@);
            assert(keep == pred(all[i as int]));
            assert(all.take(i as int + 1).drop_last() =~= all.take(i as int));
            assert(all.take(i as int + 1).last() == all[i as int]);
        }
        if keep {
            let e = v[i].clone();
            let ghost prev = r@;
            r.push(e);
            proof {
                reveal(Seq::filter);
                lemma_cmd_push(prev, e);
                assert(cmd_views(r@) =~= all.take(i as int + 1).filter(pred));
            }
        } else {
            proof {
                reveal(Seq::filter);
                assert(cmd_views(r@) =~= all.take(i as int + 1).filter(pred));
            }
        }
        i = i + 1;
    }
    proof {
        assert(all.take(all.len() as int) =~= all);
    }
    r
}

impl SebasApp {
    /// The position of the first discovered root marked by this path.
    fn root_index_of(&self, path: &str) -> (k: usize)
        requires
            has_root(self@, path@),
        ensures
            k < self@.len(),
            self@[k as int].path == path@,
            k as int == first_root_idx(self@, path@),
    {
        let mut i: usize = 0;
        while i < self.roots.len()
            invariant
                i <= self@.len(),
                self@.len() == self.roots@.len(),
                forall|j: int| 0 <= j < i ==> (#[trigger] self@[j]).path != path@,
            decreases self@.len() - i,
        {
            proof {
                assert(self@[i as int] == self.roots@[i as int]@);
            }
            if str_eq(self.roots[i].path.as_str(), path) {
                proof {
                    lemma_first_root_idx_char(self@, path@, i as int);
                }
                return i;
            }
            i = i + 1;
        }
        proof {
            let w = choose|w: int| 0 <= w < self@.len() && (#[trigger] self@[w]).path == path@;
            assert(false);
        }
        unreached()
    }

    /// Bookmarks a command: it joins the (sanitized) named group — or the
    /// default bucket — at the nearest root, stamped with the hash derived
    /// from its text and with the current time. The stored command is handed
    /// back.
    pub fn add_command(
        &mut self,
        command_text: String,
        group: Option<String>,
        comment: Option<String>,
    ) -> (r: SavedCommand)
        requires
            old(self)@.len() > 0,
        ensures
            r@.command == command_text@,
            r@.hash == command_hash(command_text@),
            r@.comment == opt_view(comment),
            final(self)@ == update_first(
                old(self)@,
                insert_file(
                    old(self)@[0].files,
                    GroupFileV {
                        name: added_group_name(opt_view(group)),
                        commands: lookup_or_empty(
                            old(self)@[0].files,
                            added_group_name(opt_view(group)),
                        ).push(r@),
                    },
                ),
            ),
            old(self).wf() ==> final(self).wf(),
    {
        let group_name = match &group {
            Option::Some(g) => sanitize_filename(g.as_str()),
            Option::None => sanitize_filename("Miscellaneous"),
        };
        let mut g = self.load_group(group_name.as_str());
        let hash = generate_hash(command_text.as_str());
        let created_at = now_rfc3339();
        let cmd = SavedCommand { command: command_text, comment, hash, created_at };
        let stored = cmd.clone();
        let ghost prev_cmds = g.commands@;
        g.commands.push(stored);
        proof {
            lemma_cmd_push(prev_cmds, cmd);
            assert(g@ == lookup_or_empty(old(self)@[0].files, group_name@).push(cmd@));
        }
        self.save_group(group_name.as_str(), &g);
        cmd
    }

    /// Removes the command an identifier resolves to from its group at its
    /// root; the group's file disappears with its last command. An
    /// identifier that resolves to nothing is `NotFound` and changes
    /// nothing.
    pub fn remove_command(&mut self, identifier: &str) -> (r: Result<(), SebasError>)
        ensures
            match r {
                Result::Ok(()) => find_spec(
                    resolve_spec(old(self)@),
                    identifier@,
                ) is Some && final(self)@ == remove_entry_spec(
                    old(self)@,
                    find_spec(resolve_spec(old(self)@), identifier@)->0,
                ),
                Result::Err(e) => e == SebasError::NotFound && find_spec(
                    resolve_spec(old(self)@),
                    identifier@,
                ) is None && final(self)@ == old(self)@,
            },
            old(self).wf() ==> final(self).wf(),
    {
        let ghost r0 = self@;
        match self.find_command_by_identifier(identifier) {
            Option::None => Result::Err(SebasError::NotFound),
            Option::Some(e) => {
                proof {
                    lemma_found_has_root(r0, identifier@);
                }
                let k = self.root_index_of(e.folder_path.as_str());
                let mut root = self.roots.remove(k);
                proof {
                    assert(root@ == r0[k as int]);
                }
                remove_hash_at(&mut root, &e);
                self.roots.insert(k, root);
                proof {
                    lemma_update_at(r0, self@, root@, k as int);
                }
                Result::Ok(())
            },
        }
    }
}

/// Removing one root and reinserting its updated value at the same position
/// updates exactly that root, and keeps well-formedness when the updated
/// store is well-formed.
pub proof fn lemma_update_at(r0: Seq<StoreRootV>, r1: Seq<StoreRootV>, root: StoreRootV, k: int)
    requires
        0 <= k < r0.len(),
        root.path == r0[k].path,
        r1 =~= r0.take(k) + (seq![root] + r0.skip(k + 1)),
    ensures
        r1 == r0.update(k, StoreRootV { path: r0[k].path, files: root.files }),
        app_wf(r0) && store_wf(root.files) ==> app_wf(r1),
{
    assert(r1 =~= r0.update(k, StoreRootV { path: r0[k].path, files: root.files }));
    if app_wf(r0) && store_wf(root.files) {
        assert forall|i: int| 0 <= i < r1.len() implies store_wf(#[trigger] r1[i].files) by {
            if i != k {
                assert(r1[i] == r0[i]);
            }
        }
    }
}

/// Drops every command carrying the resolved entry's hash from its group in
/// this root's store, deleting the group file when nothing remains.
fn remove_hash_at(root: &mut StoreRoot, e: &ResolvedCommand)
    ensures
        final(root)@.path == old(root)@.path,
        final(root)@.files == remove_hash_from_group(old(root)@.files, e.group@, e.command.hash@),
        store_wf(old(root)@.files) ==> store_wf(final(root)@.files),
{
    let ghost files0 = root@.files;
    let g = root.store.load(e.group.as_str());
    let remaining = filter_commands(&g.commands, e.command.hash.as_str());
    proof {
        if lookup(files0, e.group@) is None {
            assert(cmd_views(g.commands@) == g@);
            assert(filter_hash(g@, e.command.hash@) =~= Seq::<SavedCommandV>::empty()) by {
                reveal(Seq::filter);
            }
        }
        assert(cmd_views(remaining@) == filter_hash(
            lookup_or_empty(files0, e.group@),
            e.command.hash@,
        ));
    }
    if remaining.len() == 0 {
        let deleted = root.store.delete(e.group.as_str());
        proof {
            if deleted is Err {
                lemma_remove_absent(files0, e.group@);
            }
        }
    } else {
        let ng = CommandGroup { commands: remaining };
        root.store.save(e.group.as_str(), &ng);
    }
}

impl SebasApp {
    /// Edits the command an identifier resolves to: its text (which re-derives
    /// its hash), its comment, or the group it lives in — a move is a removal
    /// from the old group followed by an insertion into the target group at
    /// the same root. An identifier that resolves to nothing is `NotFound`
    /// and changes nothing.
    pub fn edit_command(
        &mut self,
        identifier: &str,
        new_command: Option<String>,
        new_group: Option<String>,
        new_comment: Option<String>,
    ) -> (r: Result<(), SebasError>)
        ensures
            match r {
                Result::Ok(()) => find_spec(
                    resolve_spec(old(self)@),
                    identifier@,
                ) is Some && final(self)@ == edit_entry_spec(
                    old(self)@,
                    find_spec(resolve_spec(old(self)@), identifier@)->0,
                    opt_view(new_command),
                    opt_view(new_group),
                    opt_view(new_comment),
                ),
                Result::Err(e) => e == SebasError::NotFound && find_spec(
                    resolve_spec(old(self)@),
                    identifier@,
                ) is None && final(self)@ == old(self)@,
            },
            old(self).wf() ==> final(self).wf(),
    {
        let ghost r0 = self@;
        match self.find_command_by_identifier(identifier) {
            Option::None => Result::Err(SebasError::NotFound),
            Option::Some(e) => {
                proof {
                    lemma_found_has_root(r0, identifier@);
                }
                let k = self.root_index_of(e.folder_path.as_str());
                let mut root = self.roots.remove(k);
                proof {
                    assert(root@ == r0[k as int]);
                }
                remove_hash_at(&mut root, &e);
                let ghost files1 = root@.files;
                let target = match &new_group {
                    Option::Some(g2) => sanitize_filename(g2.as_str()),
                    Option::None => e.group.clone(),
                };
                let upd_command = match &new_command {
                    Option::Some(t) => t.clone(),
                    Option::None => e.command.command.clone(),
                };
                let upd_hash = match &new_command {
                    Option::Some(t) => generate_hash(t.as_str()),
                    Option::None => e.command.hash.clone(),
                };
                let upd_comment = match &new_comment {
                    Option::Some(cm) => Option::Some(cm.clone()),
                    Option::None => clone_opt_string(&e.command.comment),
                };
                let upd = SavedCommand {
                    command: upd_command,
                    comment: upd_comment,
                    hash: upd_hash,
                    created_at: e.command.created_at.clone(),
                };
                proof {
                    assert(upd@ == updated_command(
                        e@.command,
                        opt_view(new_command),
                        opt_view(new_comment),
                    ));
                    assert(target@ == target_group_name(e@, opt_view(new_group)));
                }
                let mut tg = root.store.load(target.as_str());
                let ghost tcmds0 = tg.commands@;
                let ghost updv = upd@;
                tg.commands.push(upd);
                proof {
                    lemma_cmd_push(tcmds0, upd);
                    assert(tg@ == lookup_or_empty(files1, target@).push(updv));
                }
                root.store.save(target.as_str(), &tg);
                self.roots.insert(k, root);
                proof {
                    lemma_update_at(r0, self@, root@, k as int);
                }
                Result::Ok(())
            },
        }
    }
}

} // verus!

//! One store root's persisted state: a set of named group files, kept
//! strictly sorted by name so that listings and the merge order of the
//! resolver are deterministic. Loading an absent group yields a fresh empty
//! group; deleting an absent group is `NotFound`; renaming onto an existing
//! group is `AlreadyExists`.
use vstd::prelude::*;
use crate::model::{
    clone_commands, cmd_views, CommandGroup, SavedCommand, SavedCommandV, SebasError,
};
use crate::text::{
    lemma_lex_connex, lemma_lex_le_refl, lemma_lex_lt_le, lemma_lex_lt_trans, lex_le, lex_lt,
    str_eq, str_le,
};

verus! {

/// One persisted group file: a name and the commands stored under it.
#[derive(Debug)]
pub struct GroupFile {
    pub name: String,
    pub commands: Vec<SavedCommand>,
}

/// The mathematical image of a `GroupFile`.
pub ghost struct GroupFileV {
    pub name: Seq<char>,
    pub commands: Seq<SavedCommandV>,
}

impl View for GroupFile {
    type V = GroupFileV;

    open spec fn view(&self) -> GroupFileV {
        GroupFileV { name: self.name@, commands: cmd_views(self.commands@) }
    }
}

/// The images of a sequence of group files.
pub open spec fn file_views(s: Seq<GroupFile>) -> Seq<GroupFileV> {
    s.map_values(|f: GroupFile| f@)
}

/// The group files of a store, strictly sorted by name: every name occurs at
/// most once.
pub open spec fn store_wf(files: Seq<GroupFileV>) -> bool {
    forall|i: int, j: int|
        0 <= i < j < files.len() ==> lex_lt(#[trigger] files[i].name, #[trigger] files[j].name)
}

/// The commands stored under a name, or nothing: the first file carrying the
/// name decides.
pub open spec fn lookup(files: Seq<GroupFileV>, name: Seq<char>) -> Option<Seq<SavedCommandV>>
    decreases files.len(),
{
    if files.len() == 0 {
        Option::None
    } else if files[0].name == name {
        Option::Some(files[0].commands)
    } else {
        lookup(files.drop_first(), name)
    }
}

/// Saving a group file into the sorted list: an existing file with the same
/// name is replaced in place, otherwise the file enters at its sorted
/// position.
pub open spec fn insert_file(files: Seq<GroupFileV>, g: GroupFileV) -> Seq<GroupFileV>
    decreases files.len(),
{
    if files.len() == 0 {
        seq![g]
    } else if g.name == files[0].name {
        seq![g] + files.drop_first()
    } else if lex_lt(g.name, files[0].name) {
        seq![g] + files
    } else {
        seq![files[0]] + insert_file(files.drop_first(), g)
    }
}

/// Deleting a group file: the first file carrying the name leaves the list.
pub open spec fn remove_file(files: Seq<GroupFileV>, name: Seq<char>) -> Seq<GroupFileV>
    decreases files.len(),
{
    if files.len() == 0 {
        files
    } else if files[0].name == name {
        files.drop_first()
    } else {
        seq![files[0]] + remove_file(files.drop_first(), name)
    }
}

/// The names of the group files, in their stored order.
pub open spec fn names_of(files: Seq<GroupFileV>) -> Seq<Seq<char>> {
    files.map_values(|f: GroupFileV| f.name)
}

/// Scanning past names other than the sought one does not change a lookup.
pub proof fn lemma_lookup_skip(files: Seq<GroupFileV>, name: Seq<char>, i: int)
    requires
        0 <= i <= files.len(),
        forall|j: int| 0 <= j < i ==> (#[trigger] files[j].name) != name,
    ensures
        lookup(files, name) == lookup(files.skip(i), name),
    decreases i,
{
    if i == 0 {
        assert(files.skip(0) =~= files);
    } else {
        assert(files[0].name != name);
        lemma_lookup_skip(files.drop_first(), name, i - 1);
        assert(files.drop_first().skip(i - 1) =~= files.skip(i));
    }
}

/// Scanning past names strictly below the inserted one peels a prefix off
/// the insertion.
pub proof fn lemma_insert_skip(files: Seq<GroupFileV>, g: GroupFileV, i: int)
    requires
        0 <= i <= files.len(),
        forall|j: int| 0 <= j < i ==> !lex_le(g.name, #[trigger] files[j].name),
    ensures
        insert_file(files, g) == files.take(i) + insert_file(files.skip(i), g),
    decreases i,
{
    if i == 0 {
        assert(files.skip(0) =~= files);
        assert(files.take(0) + insert_file(files, g) =~= insert_file(files, g));
    } else {
        assert(!lex_le(g.name, files[0].name));
        if g.name == files[0].name {
            lemma_lex_le_refl(g.name);
        }
        lemma_lex_lt_le(g.name, files[0].name);
        lemma_insert_skip(files.drop_first(), g, i - 1);
        assert(files.drop_first().skip(i - 1) =~= files.skip(i));
        assert(insert_file(files, g) =~= seq![files[0]] + (files.drop_first().take(i - 1)
            + insert_file(files.skip(i), g)));
        assert(seq![files[0]] + files.drop_first().take(i - 1) =~= files.take(i));
        assert(seq![files[0]] + (files.drop_first().take(i - 1) + insert_file(files.skip(i), g))
            =~= files.take(i) + insert_file(files.skip(i), g));
    }
}

/// Scanning past names other than the removed one peels a prefix off the
/// removal.
pub proof fn lemma_remove_skip(files: Seq<GroupFileV>, name: Seq<char>, i: int)
    requires
        0 <= i <= files.len(),
        forall|j: int| 0 <= j < i ==> (#[trigger] files[j].name) != name,
    ensures
        remove_file(files, name) == files.take(i) + remove_file(files.skip(i), name),
    decreases i,
{
    if i == 0 {
        assert(files.skip(0) =~= files);
        assert(files.take(0) + remove_file(files, name) =~= remove_file(files, name));
    } else {
        lemma_remove_skip(files.drop_first(), name, i - 1);
        assert(files.drop_first().skip(i - 1) =~= files.skip(i));
        assert(remove_file(files, name) =~= seq![files[0]] + (files.drop_first().take(i - 1)
            + remove_file(files.skip(i), name)));
        assert(seq![files[0]] + (files.drop_first().take(i - 1) + remove_file(
            files.skip(i),
            name,
        )) =~= files.take(i) + remove_file(files.skip(i), name));
    }
}

/// After saving a group, looking its name up finds exactly the saved
/// commands, and every other name is untouched.
pub proof fn lemma_lookup_insert(files: Seq<GroupFileV>, g: GroupFileV, n: Seq<char>)
    ensures
        lookup(insert_file(files, g), n) == (if n == g.name {
            Option::Some(g.commands)
        } else {
            lookup(files, n)
        }),
    decreases files.len(),
{
    let r = insert_file(files, g);
    if files.len() == 0 {
        assert(r[0] == g);
        assert(r.drop_first() =~= Seq::<GroupFileV>::empty());
        if n == g.name {
            assert(lookup(r, n) == Option::Some(g.commands));
        } else {
            assert(lookup(r, n) == lookup(r.drop_first(), n));
            assert(lookup(r.drop_first(), n) is None);
        }
    } else if g.name == files[0].name {
        assert(r[0] == g);
        assert(r.drop_first() =~= files.drop_first());
        if n == g.name {
            assert(lookup(r, n) == Option::Some(g.commands));
        } else {
            assert(lookup(r, n) == lookup(files.drop_first(), n));
            assert(lookup(files, n) == lookup(files.drop_first(), n));
        }
    } else if lex_lt(g.name, files[0].name) {
        assert(r[0] == g);
        assert(r.drop_first() =~= files);
        if n == g.name {
            assert(lookup(r, n) == Option::Some(g.commands));
        } else {
            assert(lookup(r, n) == lookup(files, n));
        }
    } else {
        assert(r[0] == files[0]);
        assert(r.drop_first() =~= insert_file(files.drop_first(), g));
        lemma_lookup_insert(files.drop_first(), g, n);
        if n == files[0].name {
            assert(lookup(r, n) == Option::Some(files[0].commands));
            assert(lookup(files, n) == Option::Some(files[0].commands));
            assert(n != g.name);
        } else {
            assert(lookup(r, n) == lookup(insert_file(files.drop_first(), g), n));
            assert(lookup(files, n) == lookup(files.drop_first(), n));
        }
    }
}

/// In a well-formed store the listed group names come out strictly sorted:
/// the listing is deterministic.
pub proof fn lemma_names_sorted(files: Seq<GroupFileV>)
    requires
        store_wf(files),
    ensures
        forall|i: int, j: int|
            0 <= i < j < names_of(files).len() ==> lex_lt(
                #[trigger] names_of(files)[i],
                #[trigger] names_of(files)[j],
            ),
{
    assert forall|i: int, j: int|
        0 <= i < j < names_of(files).len() implies lex_lt(
        #[trigger] names_of(files)[i],
        #[trigger] names_of(files)[j],
    ) by {
        assert(names_of(files)[i] == files[i].name);
        assert(names_of(files)[j] == files[j].name);
    }
}

/// A strictly sorted list stays strictly sorted when its first file is
/// dropped.
pub proof fn lemma_wf_drop_first(files: Seq<GroupFileV>)
    requires
        store_wf(files),
        files.len() > 0,
    ensures
        store_wf(files.drop_first()),
{
    assert forall|i: int, j: int|
        0 <= i < j < files.drop_first().len() implies lex_lt(
        #[trigger] files.drop_first()[i].name,
        #[trigger] files.drop_first()[j].name,
    ) by {
        assert(files.drop_first()[i] == files[i + 1]);
        assert(files.drop_first()[j] == files[j + 1]);
    }
}

/// After deleting a group from a sorted store, its name is gone and every
/// other name is untouched.
pub proof fn lemma_lookup_remove(files: Seq<GroupFileV>, name: Seq<char>, n: Seq<char>)
    requires
        store_wf(files),
    ensures
        lookup(remove_file(files, name), n) == (if n == name {
            Option::None::<Seq<SavedCommandV>>
        } else {
            lookup(files, n)
        }),
    decreases files.len(),
{
    if files.len() == 0 {
    } else if files[0].name == name {
        lemma_wf_drop_first(files);
        if n == name {
            lemma_lookup_no_name(files.drop_first(), n);
        }
    } else {
        let r = remove_file(files, name);
        assert(r[0] == files[0]);
        assert(r.drop_first() =~= remove_file(files.drop_first(), name));
        lemma_wf_drop_first(files);
        lemma_lookup_remove(files.drop_first(), name, n);
    }
}

/// In a sorted store, every name strictly below the first file's name is
/// absent.
proof fn lemma_lookup_no_name(files: Seq<GroupFileV>, n: Seq<char>)
    requires
        store_wf(files),
        files.len() > 0 ==> lex_lt(n, files[0].name),
    ensures
        lookup(files, n) is None,
    decreases files.len(),
{
    if files.len() > 0 {
        if files[0].name == n {
            lemma_lex_lt_le(n, files[0].name);
        }
        lemma_wf_drop_first(files);
        if files.len() > 1 {
            lemma_lex_lt_trans(n, files[0].name, files[1].name);
            assert(files.drop_first()[0] == files[1]);
        }
        lemma_lookup_no_name(files.drop_first(), n);
    }
}

/// A name is absent from a store exactly when it is absent from the listing
/// of its group names.
pub proof fn lemma_lookup_names(files: Seq<GroupFileV>, n: Seq<char>)
    ensures
        (lookup(files, n) is None) <==> !names_of(files).contains(n),
    decreases files.len(),
{
    if files.len() == 0 {
        if names_of(files).contains(n) {
            let i = choose|i: int| 0 <= i < names_of(files).len() && names_of(files)[i] == n;
        }
    } else {
        lemma_lookup_names(files.drop_first(), n);
        assert(names_of(files.drop_first()) =~= names_of(files).drop_first());
        if files[0].name == n {
            assert(names_of(files)[0] == n);
        } else if names_of(files).contains(n) {
            let i = choose|i: int| 0 <= i < names_of(files).len() && names_of(files)[i] == n;
            assert(names_of(files).drop_first()[i - 1] == n);
        } else {
            if names_of(files).drop_first().contains(n) {
                let i = choose|i: int|
                    0 <= i < names_of(files).drop_first().len() && names_of(
                        files,
                    ).drop_first()[i] == n;
                assert(names_of(files)[i + 1] == n);
            }
        }
    }
}

/// The persisted state of one store root: its group files, sorted strictly
/// by name.
#[derive(Debug)]
pub struct Store {
    files: Vec<GroupFile>,
}

impl View for Store {
    type V = Seq<GroupFileV>;

    closed spec fn view(&self) -> Seq<GroupFileV> {
        file_views(self.files@)
    }
}

impl Store {
    /// Whether the store's files are strictly sorted by group name.
    pub open spec fn wf(&self) -> bool {
        store_wf(self@)
    }

    /// A store with no group files.
    pub fn new() -> (s: Self)
        ensures
            s@ == Seq::<GroupFileV>::empty(),
            s.wf(),
    {
        let s = Store { files: Vec::new() };
        proof {
            assert(s@ =~= Seq::<GroupFileV>::empty());
        }
        s
    }

    /// How many group files the store holds.
    pub fn num_files(&self) -> (r: usize)
        ensures
            r == self@.len(),
    {
        self.files.len()
    }

    /// The group file at a position of the sorted list.
    pub fn file_at(&self, i: usize) -> (f: &GroupFile)
        requires
            i < self@.len(),
        ensures
            f@ == self@[i as int],
    {
        &self.files[i]
    }

    /// The position of the first group file carrying a name, if one does.
    fn find_idx(&self, name: &str) -> (r: Option<usize>)
        ensures
            match r {
                Option::Some(i) => i < self@.len() && self@[i as int].name == name@ && (forall|
                    j: int,
                |
                    0 <= j < i ==> (#[trigger] self@[j].name) != name@) && lookup(self@, name@)
                    == Option::Some(self@[i as int].commands),
                Option::None => lookup(self@, name@) is None,
            },
    {
        let mut i: usize = 0;
        while i < self.files.len()
            invariant
                i <= self@.len(),
                self@.len() == self.files@.len(),
                forall|j: int| 0 <= j < i ==> (#[trigger] self@[j].name) != name@,
            decreases self@.len() - i,
        {
            if str_eq(self.files[i].name.as_str(), name) {
                proof {
                    lemma_lookup_skip(self@, name@, i as int);
                    assert(self@.skip(i as int)[0] == self@[i as int]);
                }
                return Option::Some(i);
            }
            i = i + 1;
        }
        proof {
            lemma_lookup_skip(self@, name@, i as int);
            assert(self@.skip(i as int).len() == 0);
        }
        Option::None
    }

    /// Loads the commands persisted under a group name; an absent group is
    /// not an error but the fresh empty group.
    pub fn load(&self, name: &str) -> (g: CommandGroup)
        ensures
            g@ == match lookup(self@, name@) {
                Option::Some(c) => c,
                Option::None => Seq::<SavedCommandV>::empty(),
            },
    {
        match self.find_idx(name) {
            Option::Some(i) => CommandGroup { commands: clone_commands(&self.files[i].commands) },
            Option::None => CommandGroup::new(),
        }
    }

    /// Whether a group file with this name is present.
    pub fn has_group(&self, name: &str) -> (r: bool)
        ensures
            r == (lookup(self@, name@) is Some),
    {
        match self.find_idx(name) {
            Option::Some(_) => true,
            Option::None => false,
        }
    }

    /// Saves a group under a name, overwriting the group file if it exists
    /// and creating it at its sorted position otherwise.
    pub fn save(&mut self, name: &str, group: &CommandGroup)
        ensures
            final(self)@ == insert_file(
                old(self)@,
                GroupFileV { name: name@, commands: group@ },
            ),
            old(self).wf() ==> final(self).wf(),
    {
        let gf = GroupFile {
            name: String::from_str(name),
            commands: clone_commands(&group.commands),
        };
        self.insert_sorted(gf);
    }

    /// The first position whose stored name is at or above the given name;
    /// the length when every stored name is below it.
    fn insertion_point(&self, name: &str) -> (r: usize)
        ensures
            r <= self@.len(),
            forall|j: int| 0 <= j < r ==> !lex_le(name@, (#[trigger] self@[j]).name),
            r < self@.len() ==> lex_le(name@, self@[r as int].name),
    {
        let mut i: usize = 0;
        while i < self.files.len()
            invariant
                i <= self.files@.len(),
                self@.len() == self.files@.len(),
                forall|j: int| 0 <= j < i ==> !lex_le(name@, (#[trigger] self@[j]).name),
            decreases self.files@.len() - i,
        {
            if str_le(name, self.files[i].name.as_str()) {
                return i;
            }
            i = i + 1;
        }
        i
    }

    /// Places a group file at its sorted position, replacing a file of the
    /// same name.
    fn insert_sorted(&mut self, gf: GroupFile)
        ensures
            final(self)@ == insert_file(old(self)@, gf@),
            old(self).wf() ==> final(self).wf(),
    {
        let ghost s = self@;
        let ghost g = gf@;
        let i = self.insertion_point(gf.name.as_str());
        proof {
            lemma_insert_skip(s, g, i as int);
        }
        if i < self.files.len() {
            proof {
                assert(s.skip(i as int)[0] == s[i as int]);
                assert(lex_le(g.name, s[i as int].name));
            }
            if str_eq(&gf.name, self.files[i].name.as_str()) {
                let _ = self.files.remove(i);
                self.files.insert(i, gf);
                proof {
                    assert(s.skip(i as int).drop_first() =~= s.skip(i as int + 1));
                    assert(insert_file(s.skip(i as int), g) =~= seq![g] + s.skip(i as int + 1));
                    assert(self@ =~= s.take(i as int) + (seq![g] + s.skip(i as int + 1)));
                    if store_wf(s) {
                        lemma_wf_replace(s, g, i as int);
                    }
                }
            } else {
                proof {
                    lemma_lex_lt_le(g.name, s[i as int].name);
                    assert(insert_file(s.skip(i as int), g) =~= seq![g] + s.skip(i as int));
                }
                self.files.insert(i, gf);
                proof {
                    assert(self@ =~= s.take(i as int) + (seq![g] + s.skip(i as int)));
                    if store_wf(s) {
                        lemma_wf_insert(s, g, i as int);
                    }
                }
            }
        } else {
            proof {
                assert(s.skip(i as int).len() == 0);
                assert(insert_file(s.skip(i as int), g) =~= seq![g]);
            }
            self.files.push(gf);
            proof {
                assert(self@ =~= s.take(i as int) + seq![g]);
                assert(self@ =~= s + seq![g]);
                if store_wf(s) {
                    lemma_wf_append(s, g);
                }
            }
        }
    }

    /// Removes the group file carrying a name; an absent group is
    /// `NotFound` and the store is left unchanged.
    pub fn delete(&mut self, name: &str) -> (r: Result<(), SebasError>)
        ensures
            match r {
                Result::Ok(()) => lookup(old(self)@, name@) is Some && final(self)@ == remove_file(
                    old(self)@,
                    name@,
                ),
                Result::Err(e) => e == SebasError::NotFound && lookup(old(self)@, name@) is None
                    && final(self)@ == old(self)@,
            },
            old(self).wf() ==> final(self).wf(),
    {
        let ghost s = self@;
        match self.find_idx(name) {
            Option::Some(i) => {
                proof {
                    lemma_remove_skip(s, name@, i as int);
                    assert(s.skip(i as int)[0] == s[i as int]);
                    assert(s.skip(i as int).drop_first() =~= s.skip(i as int + 1));
                }
                let _ = self.files.remove(i);
                proof {
                    assert(self@ =~= s.take(i as int) + s.skip(i as int + 1));
                    if store_wf(s) {
                        lemma_wf_remove(s, i as int);
                    }
                }
                Result::Ok(())
            },
            Option::None => Result::Err(SebasError::NotFound),
        }
    }

    /// Renames a group: `NotFound` if the source has no file, `AlreadyExists`
    /// if the destination already has one (either error leaves the store
    /// unchanged); otherwise the source file moves, contents intact, to the
    /// destination name's sorted position.
    pub fn rename(&mut self, old_name: &str, new_name: &str) -> (r: Result<(), SebasError>)
        ensures
            match r {
                Result::Ok(()) => lookup(old(self)@, old_name@) is Some && lookup(
                    old(self)@,
                    new_name@,
                ) is None && final(self)@ == insert_file(
                    remove_file(old(self)@, old_name@),
                    GroupFileV {
                        name: new_name@,
                        commands: lookup(old(self)@, old_name@)->0,
                    },
                ),
                Result::Err(e) => final(self)@ == old(self)@ && ((e == SebasError::NotFound
                    && lookup(old(self)@, old_name@) is None) || (e == SebasError::AlreadyExists
                    && lookup(old(self)@, old_name@) is Some && lookup(
                    old(self)@,
                    new_name@,
                ) is Some)),
            },
            old(self).wf() ==> final(self).wf(),
    {
        let ghost s = self@;
        match self.find_idx(old_name) {
            Option::None => Result::Err(SebasError::NotFound),
            Option::Some(i) => {
                if self.has_group(new_name) {
                    return Result::Err(SebasError::AlreadyExists);
                }
                proof {
                    lemma_remove_skip(s, old_name@, i as int);
                    assert(s.skip(i as int)[0] == s[i as int]);
                    assert(s.skip(i as int).drop_first() =~= s.skip(i as int + 1));
                }
                let gf = self.files.remove(i);
                proof {
                    assert(gf@ == s[i as int]);
                    assert(self@ =~= s.take(i as int) + s.skip(i as int + 1));
                    assert(self@ == remove_file(s, old_name@));
                    if store_wf(s) {
                        lemma_wf_remove(s, i as int);
                    }
                }
                let ngf = GroupFile { name: String::from_str(new_name), commands: gf.commands };
                proof {
                    assert(ngf@ == GroupFileV { name: new_name@, commands: s[i as int].commands });
                }
                self.insert_sorted(ngf);
                Result::Ok(())
            },
        }
    }

    /// The group names present, in their stored (sorted) order.
    pub fn list_groups(&self) -> (r: Vec<String>)
        ensures
            r@.map_values(|s: String| s@) == names_of(self@),
    {
        let mut r: Vec<String> = Vec::new();
        let mut i: usize = 0;
        while i < self.files.len()
            invariant
                i <= self.files@.len(),
                self@.len() == self.files@.len(),
                r@.map_values(|s: String| s@) =~= names_of(self@.take(i as int)),
            decreases self.files@.len() - i,
        {
            r.push(self.files[i].name.clone());
            proof {
                let f = |gv: GroupFileV| gv.name;
                self@.lemma_map_take_succ(f, i as int);
                assert(r@.map_values(|s: String| s@) =~= names_of(self@.take(i as int + 1)));
            }
            i = i + 1;
        }
        proof {
            assert(self@.take(self@.len() as int) =~= self@);
        }
        r
    }
}

/// Replacing the file at a position with one of the same name keeps the
/// store sorted.
proof fn lemma_wf_replace(s: Seq<GroupFileV>, g: GroupFileV, i: int)
    requires
        0 <= i < s.len(),
        s[i].name == g.name,
        store_wf(s),
    ensures
        store_wf(s.take(i) + (seq![g] + s.skip(i + 1))),
{
    let r = s.take(i) + (seq![g] + s.skip(i + 1));
    assert forall|a: int, b: int| 0 <= a < b < r.len() implies lex_lt(
        #[trigger] r[a].name,
        #[trigger] r[b].name,
    ) by {
        let ra = if a == i {
            g
        } else {
            s[a]
        };
        let rb = if b == i {
            g
        } else {
            s[b]
        };
        assert(r[a] == ra);
        assert(r[b] == rb);
    }
}

/// Inserting a file between its sorted neighbours keeps the store sorted.
proof fn lemma_wf_insert(s: Seq<GroupFileV>, g: GroupFileV, i: int)
    requires
        0 <= i < s.len(),
        store_wf(s),
        forall|j: int| 0 <= j < i ==> !lex_le(g.name, (#[trigger] s[j]).name),
        lex_lt(g.name, s[i].name),
    ensures
        store_wf(s.take(i) + (seq![g] + s.skip(i))),
{
    let r = s.take(i) + (seq![g] + s.skip(i));
    assert forall|a: int, b: int| 0 <= a < b < r.len() implies lex_lt(
        #[trigger] r[a].name,
        #[trigger] r[b].name,
    ) by {
        let ra = if a < i {
            s[a]
        } else if a == i {
            g
        } else {
            s[a - 1]
        };
        let rb = if b < i {
            s[b]
        } else if b == i {
            g
        } else {
            s[b - 1]
        };
        assert(r[a] == ra);
        assert(r[b] == rb);
        if b == i {
            lemma_lex_connex(g.name, s[a].name);
        }
        if a == i && b > i {
            if i < b - 1 {
                lemma_lex_lt_trans(g.name, s[i].name, s[b - 1].name);
            }
        }
        if a < i && b > i {
            lemma_lex_connex(g.name, s[a].name);
            if i < b - 1 {
                lemma_lex_lt_trans(g.name, s[i].name, s[b - 1].name);
            }
            lemma_lex_lt_trans(s[a].name, g.name, s[b - 1].name);
        }
    }
}

/// Appending a file above every stored name keeps the store sorted.
proof fn lemma_wf_append(s: Seq<GroupFileV>, g: GroupFileV)
    requires
        store_wf(s),
        forall|j: int| 0 <= j < s.len() ==> !lex_le(g.name, (#[trigger] s[j]).name),
    ensures
        store_wf(s + seq![g]),
{
    let r = s + seq![g];
    assert forall|a: int, b: int| 0 <= a < b < r.len() implies lex_lt(
        #[trigger] r[a].name,
        #[trigger] r[b].name,
    ) by {
        if b < s.len() {
            assert(r[a] == s[a]);
            assert(r[b] == s[b]);
        } else {
            assert(r[a] == s[a]);
            assert(r[b] == g);
            lemma_lex_connex(g.name, s[a].name);
        }
    }
}

/// Removing the file at a position keeps the store sorted.
proof fn lemma_wf_remove(s: Seq<GroupFileV>, i: int)
    requires
        0 <= i < s.len(),
        store_wf(s),
    ensures
        store_wf(s.take(i) + s.skip(i + 1)),
{
    let r = s.take(i) + s.skip(i + 1);
    assert forall|a: int, b: int| 0 <= a < b < r.len() implies lex_lt(
        #[trigger] r[a].name,
        #[trigger] r[b].name,
    ) by {
        let ra = if a < i {
            s[a]
        } else {
            s[a + 1]
        };
        let rb = if b < i {
            s[b]
        } else {
            s[b + 1]
        };
        assert(r[a] == ra);
        assert(r[b] == rb);
    }
}

} // verus!

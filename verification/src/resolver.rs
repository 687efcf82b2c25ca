//! The resolver: merges every group of every discovered store root into one
//! flat, stably indexed sequence, and resolves a user-supplied identifier —
//! a 1-based position or a hash prefix — to exactly one entry. The merge
//! order is roots nearest-first, groups sorted by name (the stores keep them
//! so), and commands sorted by their text; the 1-based index of an entry is
//! its position in that merged sequence, recomputed on every pass.
use vstd::prelude::*;
use vstd::multiset::Multiset;
use crate::groups::{SebasApp, StoreRootV};
use crate::model::{
    cmd_views, opt_view, ResolvedCommand, ResolvedCommandV, SavedCommand, SavedCommandV,
    SebasError,
};
use crate::store::GroupFileV;
use crate::text::{
    all_digits, contains_sub, lex_lt, lower_of, lowercase, parse_usize, str_contains, str_eq,
    str_lt, str_starts_with, str_to_nat,
};

verus! {

/// The images of a sequence of resolved commands.
pub open spec fn rc_views(s: Seq<ResolvedCommand>) -> Seq<ResolvedCommandV> {
    s.map_values(|c: ResolvedCommand| c@)
}

/// Appending one resolved command appends its image.
pub proof fn lemma_rc_push(prev: Seq<ResolvedCommand>, e: ResolvedCommand)
    ensures
        rc_views(prev.push(e)) == rc_views(prev).push(e@),
{
    let f = |c: ResolvedCommand| c@;
    prev.lemma_push_map_commute(f, e);
}

/// Appending one saved command appends its image.
pub proof fn lemma_cmd_push(prev: Seq<SavedCommand>, e: SavedCommand)
    ensures
        cmd_views(prev.push(e)) == cmd_views(prev).push(e@),
{
    let f = |c: SavedCommand| c@;
    prev.lemma_push_map_commute(f, e);
}

/// Placing one command into a text-sorted run: it enters before the first
/// strictly greater text, after any equal ones (so the sort is stable).
pub open spec fn insert_cmd(c: SavedCommandV, s: Seq<SavedCommandV>) -> Seq<SavedCommandV>
    decreases s.len(),
{
    if s.len() == 0 {
        seq![c]
    } else if lex_lt(c.command, s[0].command) {
        seq![c] + s
    } else {
        seq![s[0]] + insert_cmd(c, s.drop_first())
    }
}

/// A group's commands sorted by their text, stably, for display.
pub open spec fn sort_cmds(s: Seq<SavedCommandV>) -> Seq<SavedCommandV>
    decreases s.len(),
{
    if s.len() == 0 {
        s
    } else {
        insert_cmd(s.last(), sort_cmds(s.drop_last()))
    }
}

/// A run of commands whose texts never decrease.
pub open spec fn sorted_cmds(s: Seq<SavedCommandV>) -> bool {
    forall|i: int, j: int|
        0 <= i < j < s.len() ==> crate::text::lex_le(
            (#[trigger] s[i]).command,
            (#[trigger] s[j]).command,
        )
}

/// Scanning past texts at or below the inserted one peels a prefix off the
/// insertion.
pub proof fn lemma_insert_cmd_skip(c: SavedCommandV, s: Seq<SavedCommandV>, i: int)
    requires
        0 <= i <= s.len(),
        forall|j: int| 0 <= j < i ==> !lex_lt(c.command, (#[trigger] s[j]).command),
    ensures
        insert_cmd(c, s) == s.take(i) + insert_cmd(c, s.skip(i)),
    decreases i,
{
    if i == 0 {
        assert(s.skip(0) =~= s);
        assert(s.take(0) + insert_cmd(c, s) =~= insert_cmd(c, s));
    } else {
        lemma_insert_cmd_skip(c, s.drop_first(), i - 1);
        assert(s.drop_first().skip(i - 1) =~= s.skip(i));
        assert(insert_cmd(c, s) =~= seq![s[0]] + (s.drop_first().take(i - 1) + insert_cmd(
            c,
            s.skip(i),
        )));
        assert(seq![s[0]] + (s.drop_first().take(i - 1) + insert_cmd(c, s.skip(i))) =~= s.take(i)
            + insert_cmd(c, s.skip(i)));
    }
}

/// Places one command into a text-sorted vector, exactly as `insert_cmd`
/// does.
#[verifier::loop_isolation(false)]
fn sorted_insert(v: &mut Vec<SavedCommand>, c: SavedCommand)
    ensures
        cmd_views(final(v)@) == insert_cmd(c@, cmd_views(old(v)@)),
{
    let ghost s = cmd_views(old(v)@);
    let ghost cv = c@;
    let mut i: usize = 0;
    while i < v.len()
        invariant
            i <= v@.len(),
            cmd_views(v@) == s,
            s.len() == v@.len(),
            forall|j: int| 0 <= j < i ==> !lex_lt(cv.command, (#[trigger] s[j]).command),
        decreases v@.len() - i,
    {
        proof {
            assert(s[i as int] == v@[i as int]@);
        }
        if str_lt(c.command.as_str(), v[i].command.as_str()) {
            proof {
                lemma_insert_cmd_skip(cv, s, i as int);
                assert(s.skip(i as int)[0] == s[i as int]);
                assert(insert_cmd(cv, s.skip(i as int)) =~= seq![cv] + s.skip(i as int));
            }
            v.insert(i, c);
            proof {
                assert(cmd_views(v@) =~= s.take(i as int) + (seq![cv] + s.skip(i as int)));
            }
            return ;
        }
        i = i + 1;
    }
    let ghost prev = v@;
    proof {
        lemma_insert_cmd_skip(cv, s, i as int);
        assert(s.skip(i as int).len() == 0);
        assert(insert_cmd(cv, s.skip(i as int)) =~= seq![cv]);
    }
    v.push(c);
    proof {
        lemma_cmd_push(prev, c);
        assert(s.take(i as int) =~= s);
        assert(cmd_views(v@) =~= s + seq![cv]);
        assert(s + seq![cv] =~= s.take(i as int) + insert_cmd(cv, s.skip(i as int)));
    }
}

/// Sorts a group's commands by their text, stably.
pub fn sort_commands(v: &Vec<SavedCommand>) -> (r: Vec<SavedCommand>)
    ensures
        cmd_views(r@) == sort_cmds(cmd_views(v@)),
{
    let mut r: Vec<SavedCommand> = Vec::new();
    let mut i: usize = 0;
    proof {
        assert(cmd_views(v@.take(0)) =~= Seq::<SavedCommandV>::empty());
        assert(cmd_views(r@) =~= Seq::<SavedCommandV>::empty());
    }
    while i < v.len()
        invariant
            i <= v@.len(),
            cmd_views(r@) == sort_cmds(cmd_views(v@.take(i as int))),
        decreases v@.len() - i,
    {
        sorted_insert(&mut r, v[i].clone());
        proof {
            let f = |c: SavedCommand| c@;
            v@.lemma_map_take_succ(f, i as int);
            let t1 = cmd_views(v@.take(i as int + 1));
            assert(t1.drop_last() =~= cmd_views(v@.take(i as int)));
            assert(t1.last() == v@[i as int]@);
            assert(sort_cmds(t1) == insert_cmd(t1.last(), sort_cmds(t1.drop_last())));
        }
        i = i + 1;
    }
    proof {
        assert(v@.take(v@.len() as int) =~= v@);
    }
    r
}

/// Inserting keeps a text-sorted run text-sorted.
pub proof fn lemma_insert_cmd_sorted(c: SavedCommandV, s: Seq<SavedCommandV>)
    requires
        sorted_cmds(s),
    ensures
        sorted_cmds(insert_cmd(c, s)),
    decreases s.len(),
{
    if s.len() == 0 {
    } else if lex_lt(c.command, s[0].command) {
        let r = seq![c] + s;
        crate::text::lemma_lex_lt_le(c.command, s[0].command);
        assert forall|i: int, j: int|
            0 <= i < j < r.len() implies crate::text::lex_le(
            (#[trigger] r[i]).command,
            (#[trigger] r[j]).command,
        ) by {
            if i == 0 {
                assert(r[j] == s[j - 1]);
                if j > 1 {
                    crate::text::lemma_lex_le_trans(c.command, s[0].command, s[j - 1].command);
                }
            } else {
                assert(r[i] == s[i - 1]);
                assert(r[j] == s[j - 1]);
            }
        }
    } else {
        // the head's text is at or below the inserted one
        crate::text::lemma_lex_le_total(c.command, s[0].command);
        crate::text::lemma_lex_lt_le(c.command, s[0].command);
        crate::text::lemma_lex_le_refl(s[0].command);
        assert(crate::text::lex_le(s[0].command, c.command));
        assert(sorted_cmds(s.drop_first())) by {
            assert forall|i: int, j: int|
                0 <= i < j < s.drop_first().len() implies crate::text::lex_le(
                (#[trigger] s.drop_first()[i]).command,
                (#[trigger] s.drop_first()[j]).command,
            ) by {
                assert(s.drop_first()[i] == s[i + 1]);
                assert(s.drop_first()[j] == s[j + 1]);
            }
        }
        lemma_insert_cmd_sorted(c, s.drop_first());
        let t = insert_cmd(c, s.drop_first());
        let r = seq![s[0]] + t;
        assert forall|i: int, j: int|
            0 <= i < j < r.len() implies crate::text::lex_le(
            (#[trigger] r[i]).command,
            (#[trigger] r[j]).command,
        ) by {
            if i == 0 {
                assert(r[j] == t[j - 1]);
                lemma_insert_cmd_elems(c, s.drop_first(), j - 1);
                if t[j - 1] != c {
                    let w = choose|w: int|
                        0 <= w < s.drop_first().len() && s.drop_first()[w] == t[j - 1];
                    assert(s.drop_first()[w] == s[w + 1]);
                    assert(crate::text::lex_le(s[0].command, s[w + 1].command));
                }
            } else {
                assert(r[i] == t[i - 1]);
                assert(r[j] == t[j - 1]);
            }
        }
    }
}

/// Every element of an insertion is the inserted command or one of the run.
pub proof fn lemma_insert_cmd_elems(c: SavedCommandV, s: Seq<SavedCommandV>, k: int)
    requires
        0 <= k < insert_cmd(c, s).len(),
    ensures
        insert_cmd(c, s)[k] == c || s.contains(insert_cmd(c, s)[k]),
    decreases s.len(),
{
    if s.len() == 0 {
    } else if lex_lt(c.command, s[0].command) {
        if k > 0 {
            assert(insert_cmd(c, s)[k] == s[k - 1]);
        }
    } else {
        if k == 0 {
            assert(insert_cmd(c, s)[0] == s[0]);
        } else {
            lemma_insert_cmd_elems(c, s.drop_first(), k - 1);
            assert(insert_cmd(c, s)[k] == insert_cmd(c, s.drop_first())[k - 1]);
            if s.drop_first().contains(insert_cmd(c, s.drop_first())[k - 1]) {
                let w = choose|w: int|
                    0 <= w < s.drop_first().len() && s.drop_first()[w] == insert_cmd(
                        c,
                        s.drop_first(),
                    )[k - 1];
                assert(s[w + 1] == insert_cmd(c, s.drop_first())[k - 1]);
            }
        }
    }
}

/// The sort leaves a run whose texts never decrease.
pub proof fn lemma_sort_cmds_sorted(s: Seq<SavedCommandV>)
    ensures
        sorted_cmds(sort_cmds(s)),
    decreases s.len(),
{
    if s.len() > 0 {
        lemma_sort_cmds_sorted(s.drop_last());
        lemma_insert_cmd_sorted(s.last(), sort_cmds(s.drop_last()));
    }
}

/// The sort keeps exactly the same commands, as a multiset.
pub proof fn lemma_sort_cmds_multiset(s: Seq<SavedCommandV>)
    ensures
        sort_cmds(s).to_multiset() == s.to_multiset(),
    decreases s.len(),
{
    broadcast use vstd::seq_lib::group_to_multiset_ensures;

    if s.len() > 0 {
        lemma_sort_cmds_multiset(s.drop_last());
        lemma_insert_cmd_multiset(s.last(), sort_cmds(s.drop_last()));
        assert(s =~= s.drop_last().push(s.last()));
    }
}

/// Insertion adds exactly the inserted command, as a multiset.
proof fn lemma_insert_cmd_multiset(c: SavedCommandV, s: Seq<SavedCommandV>)
    ensures
        insert_cmd(c, s).to_multiset() == s.to_multiset().insert(c),
    decreases s.len(),
{
    broadcast use vstd::seq_lib::group_to_multiset_ensures;

    if s.len() == 0 {
        assert(insert_cmd(c, s) =~= Seq::<SavedCommandV>::empty().push(c));
        assert(Seq::<SavedCommandV>::empty().push(c).to_multiset() =~= s.to_multiset().insert(c));
    } else if lex_lt(c.command, s[0].command) {
        assert(seq![c] + s =~= s.insert(0, c));
        vstd::seq_lib::lemma_multiset_commutative(seq![c], s);
        assert(seq![c].to_multiset() =~= Multiset::empty().insert(c));
        assert((seq![c] + s).to_multiset() =~= s.to_multiset().insert(c));
    } else {
        lemma_insert_cmd_multiset(c, s.drop_first());
        vstd::seq_lib::lemma_multiset_commutative(seq![s[0]], insert_cmd(c, s.drop_first()));
        vstd::seq_lib::lemma_multiset_commutative(seq![s[0]], s.drop_first());
        assert(seq![s[0]] + s.drop_first() =~= s);
        assert(seq![s[0]].to_multiset() =~= Multiset::empty().insert(s[0]));
        assert((seq![s[0]] + insert_cmd(c, s.drop_first())).to_multiset() =~= s.to_multiset().insert(
            c,
        ));
    }
}

/// The listing rows of one group at one root: its commands sorted by text,
/// each joined to the group's name and the root's path. Indices are assigned
/// afterwards, over the whole merged sequence.
pub open spec fn group_entries(path: Seq<char>, gf: GroupFileV) -> Seq<ResolvedCommandV> {
    sort_cmds(gf.commands).map_values(
        |c: SavedCommandV|
            ResolvedCommandV { command: c, group: gf.name, folder_path: path, index: 0 },
    )
}

/// The listing rows of a root's group files, in stored (name-sorted) order.
pub open spec fn files_entries(path: Seq<char>, files: Seq<GroupFileV>) -> Seq<ResolvedCommandV>
    decreases files.len(),
{
    if files.len() == 0 {
        Seq::empty()
    } else {
        files_entries(path, files.drop_last()) + group_entries(path, files.last())
    }
}

/// The listing rows of every root, nearest root first.
pub open spec fn roots_entries(roots: Seq<StoreRootV>) -> Seq<ResolvedCommandV>
    decreases roots.len(),
{
    if roots.len() == 0 {
        Seq::empty()
    } else {
        roots_entries(roots.drop_last()) + files_entries(
            roots.last().path,
            roots.last().files,
        )
    }
}

/// Each entry given its 1-based position in the merged sequence.
pub open spec fn with_indices(s: Seq<ResolvedCommandV>) -> Seq<ResolvedCommandV> {
    Seq::new(
        s.len(),
        |i: int|
            ResolvedCommandV {
                command: s[i].command,
                group: s[i].group,
                folder_path: s[i].folder_path,
                index: i + 1,
            },
    )
}

/// The whole merged, indexed sequence for one invocation.
pub open spec fn resolve_spec(roots: Seq<StoreRootV>) -> Seq<ResolvedCommandV> {
    with_indices(roots_entries(roots))
}

impl SebasApp {
    /// Builds the merged listing: for each root nearest-first, for each
    /// group in name order, for each command in text order, one entry whose
    /// index is its 1-based position in the result. The sequence is
    /// recomputed identically on every call with unchanged stores.
    #[verifier::loop_isolation(false)]
    pub fn resolve_all_commands(&self) -> (r: Vec<ResolvedCommand>)
        ensures
            rc_views(r@) == resolve_spec(self@),
    {
        let mut core: Vec<ResolvedCommand> = Vec::new();
        let mut d: usize = 0;
        proof {
            assert(self@.take(0) =~= Seq::<StoreRootV>::empty());
            assert(rc_views(core@) =~= Seq::<ResolvedCommandV>::empty());
        }
        while d < self.roots.len()
            invariant
                d <= self.roots@.len(),
                rc_views(core@) == roots_entries(self@.take(d as int)),
            decreases self.roots@.len() - d,
        {
            let root = &self.roots[d];
            proof {
                assert(root@ == self@[d as int]);
            }
            let ghost files = self@[d as int].files;
            let ghost path = self@[d as int].path;
            let nf = root.store.num_files();
            let mut f: usize = 0;
            proof {
                assert(files.take(0) =~= Seq::<GroupFileV>::empty());
                assert(rc_views(core@) =~= roots_entries(self@.take(d as int)) + files_entries(
                    path,
                    files.take(0),
                ));
            }
            while f < nf
                invariant
                    f <= files.len(),
                    rc_views(core@) == roots_entries(self@.take(d as int)) + files_entries(
                        path,
                        files.take(f as int),
                    ),
                decreases files.len() - f,
            {
                let gf = root.store.file_at(f);
                proof {
                    assert(gf@ == files[f as int]);
                }
                let sorted = sort_commands(&gf.commands);
                let ghost ge = group_entries(path, files[f as int]);
                let mut k: usize = 0;
                proof {
                    assert(ge.take(0) =~= Seq::<ResolvedCommandV>::empty());
                    assert(rc_views(core@) =~= (roots_entries(self@.take(d as int))
                        + files_entries(path, files.take(f as int))) + ge.take(0));
                }
                while k < sorted.len()
                    invariant
                        k <= sorted@.len(),
                        sorted@.len() == ge.len(),
                        cmd_views(sorted@) == sort_cmds(files[f as int].commands),
                        rc_views(core@) == (roots_entries(self@.take(d as int)) + files_entries(
                            path,
                            files.take(f as int),
                        )) + ge.take(k as int),
                    decreases sorted@.len() - k,
                {
                    let entry = ResolvedCommand {
                        command: sorted[k].clone(),
                        group: gf.name.clone(),
                        folder_path: root.path.clone(),
                        index: 0,
                    };
                    proof {
                        assert(ge[k as int] == entry@);
                    }
                    let ghost prev = core@;
                    core.push(entry);
                    proof {
                        lemma_rc_push(prev, entry);
                        assert(ge.take(k as int + 1).drop_last() =~= ge.take(k as int));
                        assert(ge.take(k as int + 1).last() == ge[k as int]);
                        assert(rc_views(core@) =~= (roots_entries(self@.take(d as int))
                            + files_entries(path, files.take(f as int))) + ge.take(k as int + 1));
                    }
                    k = k + 1;
                }
                proof {
                    assert(ge.take(ge.len() as int) =~= ge);
                    assert(files.take(f as int + 1).drop_last() =~= files.take(f as int));
                    assert(files.take(f as int + 1).last() == files[f as int]);
                    assert(files_entries(path, files.take(f as int + 1)) == files_entries(
                        path,
                        files.take(f as int),
                    ) + ge);
                    assert(rc_views(core@) =~= roots_entries(self@.take(d as int)) + files_entries(
                        path,
                        files.take(f as int + 1),
                    ));
                }
                f = f + 1;
            }
            proof {
                assert(files.take(files.len() as int) =~= files);
                assert(self@.take(d as int + 1).drop_last() =~= self@.take(d as int));
                assert(self@.take(d as int + 1).last() == self@[d as int]);
                assert(rc_views(core@) =~= roots_entries(self@.take(d as int + 1)));
            }
            d = d + 1;
        }
        proof {
            assert(self@.take(self@.len() as int) =~= self@);
        }
        assign_indices(core)
    }
}

/// Stamps each entry with its 1-based position.
fn assign_indices(v: Vec<ResolvedCommand>) -> (r: Vec<ResolvedCommand>)
    ensures
        rc_views(r@) == with_indices(rc_views(v@)),
{
    let mut r: Vec<ResolvedCommand> = Vec::new();
    let mut i: usize = 0;
    while i < v.len()
        invariant
            i <= v@.len(),
            rc_views(r@) =~= with_indices(rc_views(v@)).take(i as int),
        decreases v@.len() - i,
    {
        let e = &v[i];
        let entry = ResolvedCommand {
            command: e.command.clone(),
            group: e.group.clone(),
            folder_path: e.folder_path.clone(),
            index: i + 1,
        };
        proof {
            assert(entry@ == with_indices(rc_views(v@))[i as int]);
        }
        let ghost prev = r@;
        r.push(entry);
        proof {
            lemma_rc_push(prev, entry);
            assert(rc_views(r@) =~= with_indices(rc_views(v@)).take(i as int + 1));
        }
        i = i + 1;
    }
    proof {
        assert(with_indices(rc_views(v@)).take(v@.len() as int) =~= with_indices(rc_views(v@)));
    }
    r
}

/// An identifier addressed by position: one or more digits denoting a
/// machine-representable value of at least one.
pub open spec fn is_index_id(id: Seq<char>) -> bool {
    id.len() > 0 && all_digits(id) && str_to_nat(id) <= usize::MAX && str_to_nat(id) >= 1
}

/// The first entry, in merge order, whose hash opens with the identifier.
pub open spec fn first_hash_match(entries: Seq<ResolvedCommandV>, id: Seq<char>) -> Option<
    ResolvedCommandV,
>
    decreases entries.len(),
{
    if entries.len() == 0 {
        Option::None
    } else if id.is_prefix_of(entries[0].command.hash) {
        Option::Some(entries[0])
    } else {
        first_hash_match(entries.drop_first(), id)
    }
}

/// What an identifier resolves to: a positive in-range number addresses the
/// entry at that 1-based position; anything else is read as a hash prefix,
/// first match in merge order winning; no match is nothing.
pub open spec fn find_spec(entries: Seq<ResolvedCommandV>, id: Seq<char>) -> Option<
    ResolvedCommandV,
> {
    if is_index_id(id) {
        if str_to_nat(id) <= entries.len() {
            Option::Some(entries[str_to_nat(id) - 1])
        } else {
            Option::None
        }
    } else {
        first_hash_match(entries, id)
    }
}

/// Scanning past entries whose hashes do not open with the identifier does
/// not change the first match.
pub proof fn lemma_first_match_skip(entries: Seq<ResolvedCommandV>, id: Seq<char>, i: int)
    requires
        0 <= i <= entries.len(),
        forall|j: int| 0 <= j < i ==> !id.is_prefix_of((#[trigger] entries[j]).command.hash),
    ensures
        first_hash_match(entries, id) == first_hash_match(entries.skip(i), id),
    decreases i,
{
    if i == 0 {
        assert(entries.skip(0) =~= entries);
    } else {
        lemma_first_match_skip(entries.drop_first(), id, i - 1);
        assert(entries.drop_first().skip(i - 1) =~= entries.skip(i));
    }
}

/// The image of an optional resolved command.
pub open spec fn opt_rc_view(r: Option<ResolvedCommand>) -> Option<ResolvedCommandV> {
    match r {
        Option::Some(c) => Option::Some(c@),
        Option::None => Option::None,
    }
}

impl SebasApp {
    /// Resolves an identifier against the merged listing: a positive number
    /// is a 1-based index (out of range finds nothing); anything else is a
    /// hash prefix, the first entry in merge order winning.
    #[verifier::loop_isolation(false)]
    pub fn find_command_by_identifier(&self, identifier: &str) -> (r: Option<ResolvedCommand>)
        ensures
            opt_rc_view(r) == find_spec(resolve_spec(self@), identifier@),
    {
        let resolved = self.resolve_all_commands();
        let ghost entries = resolve_spec(self@);
        let parsed = parse_usize(identifier);
        let use_index = match parsed {
            Option::Some(n) => n >= 1,
            Option::None => false,
        };
        proof {
            assert(use_index == is_index_id(identifier@));
        }
        if use_index {
            let n = parsed.unwrap();
            if n <= resolved.len() {
                proof {
                    assert(entries[n - 1] == resolved@[n - 1]@);
                }
                Option::Some(resolved[n - 1].clone())
            } else {
                Option::None
            }
        } else {
            let mut i: usize = 0;
            while i < resolved.len()
                invariant
                    i <= resolved@.len(),
                    rc_views(resolved@) == entries,
                    entries.len() == resolved@.len(),
                    forall|j: int|
                        0 <= j < i ==> !identifier@.is_prefix_of(
                            (#[trigger] entries[j]).command.hash,
                        ),
                decreases resolved@.len() - i,
            {
                if str_starts_with(resolved[i].command.hash.as_str(), identifier) {
                    proof {
                        assert(resolved@[i as int]@ == entries[i as int]);
                        lemma_first_match_skip(entries, identifier@, i as int);
                        assert(entries.skip(i as int)[0] == entries[i as int]);
                    }
                    return Option::Some(resolved[i].clone());
                }
                proof {
                    assert(resolved@[i as int]@ == entries[i as int]);
                }
                i = i + 1;
            }
            proof {
                lemma_first_match_skip(entries, identifier@, i as int);
                assert(entries.skip(i as int).len() == 0);
            }
            Option::None
        }
    }

    /// Resolves an identifier and hands the entry to the caller; an
    /// identifier that resolves to nothing is `NotFound`.
    pub fn get_command(&self, identifier: &str) -> (r: Result<ResolvedCommand, SebasError>)
        ensures
            match r {
                Result::Ok(c) => find_spec(resolve_spec(self@), identifier@) == Option::Some(c@),
                Result::Err(e) => e == SebasError::NotFound && find_spec(
                    resolve_spec(self@),
                    identifier@,
                ) is None,
            },
    {
        match self.find_command_by_identifier(identifier) {
            Option::Some(c) => Result::Ok(c),
            Option::None => Result::Err(SebasError::NotFound),
        }
    }

    /// The merged listing, kept to one group when a filter is given. Entries
    /// keep the indices the full merge assigned them.
    #[verifier::loop_isolation(false)]
    pub fn list_commands(&self, group_filter: Option<String>) -> (r: Vec<ResolvedCommand>)
        ensures
            rc_views(r@) == resolve_spec(self@).filter(
                |e: ResolvedCommandV| group_matches(e, opt_view(group_filter)),
            ),
    {
        let resolved = self.resolve_all_commands();
        let ghost entries = resolve_spec(self@);
        let ghost pred = |e: ResolvedCommandV| group_matches(e, opt_view(group_filter));
        let mut r: Vec<ResolvedCommand> = Vec::new();
        let mut i: usize = 0;
        proof {
            reveal(Seq::filter);
            assert(entries.take(0) =~= Seq::<ResolvedCommandV>::empty());
            assert(rc_views(r@) =~= entries.take(0).filter(pred));
        }
        while i < resolved.len()
            invariant
                i <= resolved@.len(),
                rc_views(r@) == entries.take(i as int).filter(pred),
            decreases resolved@.len() - i,
        {
            let keep = match &group_filter {
                Option::Some(g) => str_eq(resolved[i].group.as_str(), g.as_str()),
                Option::None => true,
            };
            proof {
                assert(resolved@[i as int]@ == entries[i as int]);
                assert(keep == pred(entries[i as int]));
                assert(entries.take(i as int + 1).drop_last() =~= entries.take(i as int));
                assert(entries.take(i as int + 1).last() == entries[i as int]);
            }
            if keep {
                let e = resolved[i].clone();
                let ghost prev = r@;
                r.push(e);
                proof {
                    reveal(Seq::filter);
                    lemma_rc_push(prev, e);
                    assert(rc_views(r@) =~= entries.take(i as int + 1).filter(pred));
                }
            } else {
                proof {
                    reveal(Seq::filter);
                    assert(rc_views(r@) =~= entries.take(i as int + 1).filter(pred));
                }
            }
            i = i + 1;
        }
        proof {
            assert(entries.take(entries.len() as int) =~= entries);
        }
        r
    }

    /// The merged entries whose lower-cased command text or comment contains
    /// the lower-cased query. Entries keep their merge indices.
    #[verifier::loop_isolation(false)]
    pub fn search_commands(&self, query: &str) -> (r: Vec<ResolvedCommand>)
        ensures
            rc_views(r@) == resolve_spec(self@).filter(
                |e: ResolvedCommandV| matches_query(e.command, lower_of(query@)),
            ),
    {
        let resolved = self.resolve_all_commands();
        let ghost entries = resolve_spec(self@);
        let ghost pred = |e: ResolvedCommandV| matches_query(e.command, lower_of(query@));
        let query_lower = lowercase(query);
        let mut r: Vec<ResolvedCommand> = Vec::new();
        let mut i: usize = 0;
        proof {
            reveal(Seq::filter);
            assert(entries.take(0) =~= Seq::<ResolvedCommandV>::empty());
            assert(rc_views(r@) =~= entries.take(0).filter(pred));
        }
        while i < resolved.len()
            invariant
                i <= resolved@.len(),
                rc_views(r@) == entries.take(i as int).filter(pred),
            decreases resolved@.len() - i,
        {
            let command_lower = lowercase(resolved[i].command.command.as_str());
            let keep = if str_contains(command_lower.as_str(), query_lower.as_str()) {
                true
            } else {
                match &resolved[i].command.comment {
                    Option::Some(cm) => {
                        let comment_lower = lowercase(cm.as_str());
                        str_contains(comment_lower.as_str(), query_lower.as_str())
                    },
                    Option::None => false,
                }
            };
            proof {
                assert(resolved@[i as int]@ == entries[i as int]);
                assert(keep == pred(entries[i as int]));
                assert(entries.take(i as int + 1).drop_last() =~= entries.take(i as int));
                assert(entries.take(i as int + 1).last() == entries[i as int]);
            }
            if keep {
                let e = resolved[i].clone();
                let ghost prev = r@;
                r.push(e);
                proof {
                    reveal(Seq::filter);
                    lemma_rc_push(prev, e);
                    assert(rc_views(r@) =~= entries.take(i as int + 1).filter(pred));
                }
            } else {
                proof {
                    reveal(Seq::filter);
                    assert(rc_views(r@) =~= entries.take(i as int + 1).filter(pred));
                }
            }
            i = i + 1;
        }
        proof {
            assert(entries.take(entries.len() as int) =~= entries);
        }
        r
    }
}

/// Whether an entry belongs to the filtered group; no filter admits all.
pub open spec fn group_matches(e: ResolvedCommandV, f: Option<Seq<char>>) -> bool {
    match f {
        Option::Some(g) => e.group == g,
        Option::None => true,
    }
}

/// Whether a command matches a lower-cased search query: its lower-cased
/// text contains the query, or its lower-cased comment does.
pub open spec fn matches_query(c: SavedCommandV, query_lower: Seq<char>) -> bool {
    contains_sub(lower_of(c.command), query_lower) || (c.comment is Some && contains_sub(
        lower_of(c.comment->0),
        query_lower,
    ))
}

} // verus!

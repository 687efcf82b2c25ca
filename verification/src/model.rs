//! The data model: a saved command with its stable hash fingerprint, a named
//! group of commands, the ephemeral merge-ordered projection handed to
//! listings and the picker, and the error kinds of the engine.
use vstd::prelude::*;

verus! {

/// The failure kinds that the engine reports. `NotFound` and `AlreadyExists`
/// are user-correctable; `ParseError` marks a corrupt persisted group;
/// `IoError` marks a filesystem or terminal failure surfaced by the caller.
#[derive(Debug, PartialEq, Eq, Structural, Clone, Copy)]
pub enum SebasError {
    NotFound,
    AlreadyExists,
    ParseError,
    IoError,
}

/// One bookmarked shell command, as persisted inside a group file.
#[derive(Debug)]
pub struct SavedCommand {
    /// The exact shell invocation.
    pub command: String,
    /// Optional free-text annotation.
    pub comment: Option<String>,
    /// Eight hex characters derived from `command` at creation time.
    pub hash: String,
    /// Creation timestamp, informational only.
    pub created_at: String,
}

/// The mathematical image of a `SavedCommand`.
pub ghost struct SavedCommandV {
    pub command: Seq<char>,
    pub comment: Option<Seq<char>>,
    pub hash: Seq<char>,
    pub created_at: Seq<char>,
}

/// The image of an optional string.
pub open spec fn opt_view(o: Option<String>) -> Option<Seq<char>> {
    match o {
        Option::Some(s) => Option::Some(s@),
        Option::None => Option::None,
    }
}

impl View for SavedCommand {
    type V = SavedCommandV;

    open spec fn view(&self) -> SavedCommandV {
        SavedCommandV {
            command: self.command@,
            comment: opt_view(self.comment),
            hash: self.hash@,
            created_at: self.created_at@,
        }
    }
}

/// Copies an optional string, preserving the value exactly.
pub fn clone_opt_string(o: &Option<String>) -> (r: Option<String>)
    ensures
        r == *o,
{
    match o {
        Option::Some(s) => Option::Some(s.clone()),
        Option::None => Option::None,
    }
}

impl Clone for SavedCommand {
    fn clone(&self) -> (r: Self)
        ensures
            r@ == self@,
    {
        SavedCommand {
            command: self.command.clone(),
            comment: clone_opt_string(&self.comment),
            hash: self.hash.clone(),
            created_at: self.created_at.clone(),
        }
    }
}

/// The images of a sequence of saved commands.
pub open spec fn cmd_views(s: Seq<SavedCommand>) -> Seq<SavedCommandV> {
    s.map_values(|c: SavedCommand| c@)
}

/// Copies a command list, preserving every command's image.
pub fn clone_commands(v: &Vec<SavedCommand>) -> (r: Vec<SavedCommand>)
    ensures
        cmd_views(r@) == cmd_views(v@),
{
    let mut commands: Vec<SavedCommand> = Vec::new();
    let mut i: usize = 0;
    while i < v.len()
        invariant
            i <= v.len(),
            cmd_views(commands@) =~= cmd_views(v@.take(i as int)),
        decreases v.len() - i,
    {
        commands.push(v[i].clone());
        proof {
            let f = |c: SavedCommand| c@;
            v@.lemma_map_take_succ(f, i as int);
            assert(cmd_views(commands@) =~= cmd_views(v@.take(i as int + 1)));
        }
        i = i + 1;
    }
    proof {
        assert(v@.take(v@.len() as int) =~= v@);
    }
    commands
}

/// An ordered bucket of commands; groups are persisted one file per group,
/// and a group that loses its last command is deleted rather than saved
/// empty.
#[derive(Debug)]
pub struct CommandGroup {
    pub commands: Vec<SavedCommand>,
}

impl View for CommandGroup {
    type V = Seq<SavedCommandV>;

    open spec fn view(&self) -> Seq<SavedCommandV> {
        cmd_views(self.commands@)
    }
}

impl CommandGroup {
    /// A fresh group with no commands: the "no commands yet" state that a
    /// load of an absent group file reports.
    pub fn new() -> (g: Self)
        ensures
            g@ == Seq::<SavedCommandV>::empty(),
    {
        let g = CommandGroup { commands: Vec::new() };
        proof {
            assert(g@ =~= Seq::<SavedCommandV>::empty());
        }
        g
    }
}

impl Clone for CommandGroup {
    fn clone(&self) -> (r: Self)
        ensures
            r@ == self@,
    {
        CommandGroup { commands: clone_commands(&self.commands) }
    }
}

/// One read-only entry of the merged listing: a command joined to its group
/// name and store-root path, carrying the 1-based position it was assigned
/// by the merge. The index is recomputed on every resolution pass and never
/// persisted.
#[derive(Debug)]
pub struct ResolvedCommand {
    pub command: SavedCommand,
    pub group: String,
    pub folder_path: String,
    pub index: usize,
}

/// The mathematical image of a `ResolvedCommand`.
pub ghost struct ResolvedCommandV {
    pub command: SavedCommandV,
    pub group: Seq<char>,
    pub folder_path: Seq<char>,
    pub index: int,
}

impl View for ResolvedCommand {
    type V = ResolvedCommandV;

    open spec fn view(&self) -> ResolvedCommandV {
        ResolvedCommandV {
            command: self.command@,
            group: self.group@,
            folder_path: self.folder_path@,
            index: self.index as int,
        }
    }
}

impl Clone for ResolvedCommand {
    fn clone(&self) -> (r: Self)
        ensures
            r@ == self@,
    {
        ResolvedCommand {
            command: self.command.clone(),
            group: self.group.clone(),
            folder_path: self.folder_path.clone(),
            index: self.index,
        }
    }
}

/// Whether a character counts as alphanumeric, named but not written out:
/// the standard library's Unicode classification is relied on for its
/// value.
pub uninterp spec fn is_alnum_of(c: char) -> bool;

/// Relies on `char::is_alphanumeric`: the Unicode letter-or-number
/// classification of one character, a function of the character alone.
#[verifier::external_body]
fn char_is_alphanumeric(c: char) -> (r: bool)
    ensures
        r == is_alnum_of(c),
{
    c.is_alphanumeric()
}

/// How one character of a group name is filtered: alphanumerics, `_` and
/// `-` pass through, every other character becomes `_`. Lower-casing comes
/// after, over the whole filtered name.
pub open spec fn filter_char(c: char) -> char {
    if is_alnum_of(c) || c == '_' || c == '-' {
        c
    } else {
        '_'
    }
}

/// A group name sanitized to a filesystem-safe token: each character
/// filtered, then the whole name lower-cased.
pub open spec fn sanitize_name(s: Seq<char>) -> Seq<char> {
    crate::text::lower_of(s.map_values(|c: char| filter_char(c)))
}

/// Sanitizes a group name to a filesystem-safe token: alphanumerics, `_`
/// and `-` are kept, every other character is replaced by `_`, and the
/// result is lower-cased.
#[verifier::loop_isolation(false)]
pub fn sanitize_filename(input: &str) -> (r: String)
    ensures
        r@ == sanitize_name(input@),
{
    let ghost fc = |c: char| filter_char(c);
    let len = input.unicode_len();
    let mut filtered = String::new();
    let mut i: usize = 0;
    proof {
        assert(filtered@ =~= input@.take(0).map_values(fc));
    }
    while i < len
        invariant
            i <= len,
            len == input@.len(),
            filtered@ == input@.take(i as int).map_values(fc),
        decreases len - i,
    {
        let c = input.get_char(i);
        let keep = if char_is_alphanumeric(c) {
            true
        } else {
            (c as u32) == 95 || (c as u32) == 45
        };
        let piece: String = if keep {
            proof {
                if (c as u32) == 95 {
                    crate::text::lemma_char_eq(c, '_');
                }
                if (c as u32) == 45 {
                    crate::text::lemma_char_eq(c, '-');
                }
                assert(filter_char(input@[i as int]) == c);
            }
            char_str(c)
        } else {
            proof {
                assert(filter_char(input@[i as int]) == '_');
                reveal_strlit("_");
            }
            String::from_str("_")
        };
        filtered.append(piece.as_str());
        proof {
            input@.lemma_map_take_succ(fc, i as int);
            assert(filtered@ =~= input@.take(i as int + 1).map_values(fc));
        }
        i = i + 1;
    }
    proof {
        assert(input@.take(len as int) =~= input@);
    }
    crate::text::lowercase(filtered.as_str())
}

/// A one-character string holding exactly the given character. Relies on
/// `String::push` appending the character.
#[verifier::external_body]
fn char_str(c: char) -> (r: String)
    ensures
        r@ == seq![c],
{
    let mut s = String::new();
    s.push(c);
    s
}

/// A handle on one fixed storage directory, used by callers that bookmark
/// into an explicit base path rather than a discovered store root.
#[derive(Debug)]
pub struct StorageManager {
    pub base_path: String,
}

impl StorageManager {
    /// Wraps an already-resolved base path; the caller has created the
    /// directory.
    pub fn new(base_path: String) -> (r: Self)
        ensures
            r.base_path@ == base_path@,
    {
        StorageManager { base_path }
    }

    /// The storage directory this manager points at.
    pub fn get_base_path(&self) -> (r: &String)
        ensures
            r@ == self.base_path@,
    {
        &self.base_path
    }
}

} // verus!

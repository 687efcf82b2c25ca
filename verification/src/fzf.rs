//! The fuzzy-selector path's deterministic half. The outside fuzzy finder is
//! handed one display line per entry and gives one chosen line back; built
//! here, verified: the line's shape, the recovery of the command text from a
//! chosen line, and the lookup of the first entry carrying that text. Only
//! spawning the finder and piping the lines stays with the caller.
use vstd::prelude::*;
use crate::model::{ResolvedCommand, ResolvedCommandV};
use crate::resolver::rc_views;
use crate::text::{dec_str, str_eq, usize_to_dec};


verus! {

/// The display line of one entry: its index in brackets, its group, a bar,
/// and its command text.
pub open spec fn display_line(e: ResolvedCommandV) -> Seq<char>
    recommends
        e.index >= 0,
{
    seq!['['] + dec_str(e.index as nat) + seq![']', ' '] + e.group + seq![' ', '|', ' ']
        + e.command.command
}

/// Builds the display line handed to the fuzzy finder for one entry.
pub fn fzf_display_line(e: &ResolvedCommand) -> (r: String)
    ensures
        r@ == display_line(e@),
{
    proof {
        reveal_strlit("[");
        reveal_strlit("] ");
        reveal_strlit(" | ");
    }
    let mut r = String::from_str("[");
    let idx = usize_to_dec(e.index);
    r.append(idx.as_str());
    r.append("] ");
    r.append(e.group.as_str());
    r.append(" | ");
    r.append(e.command.command.as_str());
    proof {
        assert(r@ =~= display_line(e@));
    }
    r
}

/// The first entry, in merge order, whose command text is exactly the given
/// text.
pub open spec fn first_with_command(entries: Seq<ResolvedCommandV>, text: Seq<char>) -> Option<
    ResolvedCommandV,
>
    decreases entries.len(),
{
    if entries.len() == 0 {
        Option::None
    } else if entries[0].command.command == text {
        Option::Some(entries[0])
    } else {
        first_with_command(entries.drop_first(), text)
    }
}

/// Scanning past entries with other texts does not change the first match.
proof fn lemma_first_with_command_skip(
    entries: Seq<ResolvedCommandV>,
    text: Seq<char>,
    i: int,
)
    requires
        0 <= i <= entries.len(),
        forall|j: int| 0 <= j < i ==> (#[trigger] entries[j]).command.command != text,
    ensures
        first_with_command(entries, text) == first_with_command(entries.skip(i), text),
    decreases i,
{
    if i == 0 {
        assert(entries.skip(0) =~= entries);
    } else {
        lemma_first_with_command_skip(entries.drop_first(), text, i - 1);
        assert(entries.drop_first().skip(i - 1) =~= entries.skip(i));
    }
}

/// Finds the first entry whose command text is exactly the chosen text, as
/// the selector path does after a line is picked.
#[verifier::loop_isolation(false)]
pub fn find_by_command(entries: &Vec<ResolvedCommand>, text: &str) -> (r: Option<
    ResolvedCommand,
>)
    ensures
        crate::resolver::opt_rc_view(r) == first_with_command(rc_views(entries@), text@),
{
    let ghost ev = rc_views(entries@);
    let mut i: usize = 0;
    while i < entries.len()
        invariant
            i <= entries@.len(),
            forall|j: int| 0 <= j < i ==> (#[trigger] ev[j]).command.command != text@,
        decreases entries@.len() - i,
    {
        proof {
            assert(ev[i as int] == entries@[i as int]@);
        }
        if str_eq(entries[i].command.command.as_str(), text) {
            proof {
                lemma_first_with_command_skip(ev, text@, i as int);
                assert(ev.skip(i as int)[0] == ev[i as int]);
            }
            return Option::Some(entries[i].clone());
        }
        i = i + 1;
    }
    proof {
        lemma_first_with_command_skip(ev, text@, i as int);
        assert(ev.skip(i as int).len() == 0);
    }
    Option::None
}

/// The bar separator of a display line.
pub open spec fn bar_sep() -> Seq<char> {
    seq![' ', '|', ' ']
}

/// The position of the first bar separator at or after a position, or a
/// negative value when none follows.
pub open spec fn bar_index(s: Seq<char>, k: int) -> int
    decreases s.len() - k,
{
    if k < 0 || k > s.len() - 3 {
        -1
    } else if s.subrange(k, k + 3) == bar_sep() {
        k
    } else {
        bar_index(s, k + 1)
    }
}

/// The command text recovered from a chosen display line: everything after
/// the first bar separator, or the whole line when no separator is present.
pub open spec fn after_first_bar(s: Seq<char>) -> Seq<char> {
    if bar_index(s, 0) >= 0 {
        s.skip(bar_index(s, 0) + 3)
    } else {
        s
    }
}

/// A scan past positions without the separator reaches the first one
/// carrying it.
proof fn lemma_bar_index_skip(s: Seq<char>, j: int, k: int)
    requires
        0 <= j <= k <= s.len() - 3,
        s.subrange(k, k + 3) == bar_sep(),
        forall|p: int| j <= p < k ==> (#[trigger] s.subrange(p, p + 3)) != bar_sep(),
    ensures
        bar_index(s, j) == k,
    decreases k - j,
{
    if j < k {
        assert(s.subrange(j, j + 3) != bar_sep());
        lemma_bar_index_skip(s, j + 1, k);
    }
}

/// Law (selector round trip): recovering the command text from an entry's
/// own display line gives back exactly the entry's stored command text,
/// whenever the group name holds no bar character.
pub proof fn lemma_display_line_round_trip(e: ResolvedCommandV)
    requires
        e.index >= 0,
        forall|i: int| 0 <= i < e.group.len() ==> (#[trigger] e.group[i]) != '|',
    ensures
        after_first_bar(display_line(e)) == e.command.command,
{
    let s = display_line(e);
    let dec = dec_str(e.index as nat);
    crate::text::lemma_dec_str_digits(e.index as nat);
    let p1 = seq!['['] + dec;
    let p2 = p1 + seq![']', ' '];
    let p3 = p2 + e.group;
    let p4 = p3 + seq![' ', '|', ' '];
    assert(s =~= p4 + e.command.command);
    let l = p3.len() as int;
    assert(s.subrange(l, l + 3) =~= bar_sep());
    assert forall|q: int| 0 <= q <= l implies (#[trigger] s[q]) != '|' by {
        if q < l {
            assert(s[q] == p4[q]);
            assert(p4[q] == p3[q]);
            if q == 0 {
                assert(p3[0] == '[');
            } else if q < p1.len() {
                assert(p3[q] == dec[q - 1]);
                assert(crate::text::is_digit(dec[q - 1]));
            } else if q == p1.len() {
                assert(p3[q] == ']');
            } else if q == p1.len() + 1 {
                assert(p3[q] == ' ');
            } else {
                assert(p3[q] == e.group[q - p2.len()]);
            }
        } else {
            assert(s[q] == p4[q]);
            assert(p4[l] == ' ');
        }
    }
    assert forall|p: int| 0 <= p < l implies (#[trigger] s.subrange(p, p + 3)) != bar_sep() by {
        if s.subrange(p, p + 3) == bar_sep() {
            assert(s.subrange(p, p + 3)[1] == s[p + 1]);
            assert(s[p + 1] == '|');
        }
    }
    lemma_bar_index_skip(s, 0, l);
    assert(s.skip(l + 3) =~= e.command.command);
}

/// Recovers the command text from the line the fuzzy finder returned.
#[verifier::loop_isolation(false)]
pub fn selected_command_text(line: &str) -> (r: String)
    ensures
        r@ == after_first_bar(line@),
{
    let len = line.unicode_len();
    if len < 3 {
        return String::from_str(line);
    }
    let mut k: usize = 0;
    while k <= len - 3
        invariant
            len == line@.len(),
            len >= 3,
            k <= len,
            bar_index(line@, 0) == bar_index(line@, k as int),
        decreases len - k,
    {
        let c0 = line.get_char(k);
        let c1 = line.get_char(k + 1);
        let c2 = line.get_char(k + 2);
        if c0 == ' ' && c1 == '|' && c2 == ' ' {
            proof {
                assert(line@.subrange(k as int, k as int + 3) =~= bar_sep());
                assert(bar_index(line@, k as int) == k as int);
            }
            let rest = line.substring_char(k + 3, len);
            proof {
                assert(rest@ =~= line@.skip(k as int + 3));
            }
            return String::from_str(rest);
        }
        proof {
            assert(line@.subrange(k as int, k as int + 3) != bar_sep()) by {
                if line@.subrange(k as int, k as int + 3) == bar_sep() {
                    assert(line@.subrange(k as int, k as int + 3)[0] == line@[k as int]);
                    assert(line@.subrange(k as int, k as int + 3)[1] == line@[k as int + 1]);
                    assert(line@.subrange(k as int, k as int + 3)[2] == line@[k as int + 2]);
                }
            }
            assert(bar_index(line@, k as int) == bar_index(line@, k as int + 1));
        }
        k = k + 1;
    }
    proof {
        assert(bar_index(line@, k as int) == -1);
    }
    String::from_str(line)
}

} // verus!

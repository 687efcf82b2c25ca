//! The interactive picker: a terminal state machine over the merged listing.
//! Rows are group headers (not selectable) and command entries (selectable);
//! a cursor moves cyclically over the selectable rows, `Enter` on an entry
//! selects it, and a cancel key ends the session with nothing chosen. The
//! machine here is pure: the caller renders the rows and feeds key events
//! in; drawing and the raw terminal mode stay outside.
use vstd::prelude::*;
use crate::model::{ResolvedCommand, ResolvedCommandV};

verus! {

/// One rendered row: a group header, or a selectable command entry.
#[derive(Debug)]
pub enum PickerRow {
    Header(String),
    Entry(ResolvedCommand),
}

/// The mathematical image of a row.
pub ghost enum PickerRowV {
    Header(Seq<char>),
    Entry(ResolvedCommandV),
}

impl View for PickerRow {
    type V = PickerRowV;

    open spec fn view(&self) -> PickerRowV {
        match self {
            PickerRow::Header(s) => PickerRowV::Header(s@),
            PickerRow::Entry(e) => PickerRowV::Entry(e@),
        }
    }
}

/// The images of a sequence of rows.
pub open spec fn row_views(s: Seq<PickerRow>) -> Seq<PickerRowV> {
    s.map_values(|r: PickerRow| r@)
}

/// One key event handed to the machine; anything that is not navigation,
/// selection or cancellation is `Other` and does nothing.
#[derive(Clone, Copy, PartialEq, Eq, Structural, Debug)]
pub enum PickerEvent {
    Down,
    Up,
    Enter,
    Cancel,
    Other,
}

/// How a picker session ends: with the chosen entry, or with nothing.
#[derive(Debug)]
pub enum PickerOutcome {
    Selected(ResolvedCommand),
    Cancelled,
}

/// Whether the row at a position is selectable.
pub open spec fn selectable(rows: Seq<PickerRowV>, i: int) -> bool {
    0 <= i < rows.len() && rows[i] is Entry
}

/// Some row is selectable.
pub open spec fn any_selectable(rows: Seq<PickerRowV>) -> bool {
    exists|i: int| #[trigger] selectable(rows, i)
}

/// The cyclic forward scan: the first selectable position at displacement
/// `d` or beyond (below the row count), or the current position when none
/// is.
pub open spec fn scan_fwd(rows: Seq<PickerRowV>, cur: int, d: int) -> int
    decreases rows.len() - d,
{
    if d < 1 || d >= rows.len() {
        cur
    } else if selectable(rows, (cur + d) % (rows.len() as int)) {
        (cur + d) % (rows.len() as int)
    } else {
        scan_fwd(rows, cur, d + 1)
    }
}

/// The cyclic backward scan, mirroring `scan_fwd`.
pub open spec fn scan_bwd(rows: Seq<PickerRowV>, cur: int, d: int) -> int
    decreases rows.len() - d,
{
    if d < 1 || d >= rows.len() {
        cur
    } else if selectable(rows, (cur + rows.len() - d) % (rows.len() as int)) {
        (cur + rows.len() - d) % (rows.len() as int)
    } else {
        scan_bwd(rows, cur, d + 1)
    }
}

/// Where the cursor lands after moving down from a position: the next
/// selectable row, wrapping past the end; it stays put when no other row is
/// selectable.
pub open spec fn next_fwd(rows: Seq<PickerRowV>, cur: int) -> int {
    scan_fwd(rows, cur, 1)
}

/// Where the cursor lands after moving up from a position.
pub open spec fn next_bwd(rows: Seq<PickerRowV>, cur: int) -> int {
    scan_bwd(rows, cur, 1)
}

/// The first selectable position, or zero when none is.
pub open spec fn first_sel(rows: Seq<PickerRowV>) -> int {
    if rows.len() == 0 || selectable(rows, 0) {
        0
    } else {
        next_fwd(rows, 0)
    }
}

/// The rows built from the merged entries: a header opens each run of
/// entries that share a group and root, and every entry follows its header.
pub open spec fn rows_of(entries: Seq<ResolvedCommandV>, prev: Option<(Seq<char>, Seq<char>)>)
    -> Seq<PickerRowV>
    decreases entries.len(),
{
    if entries.len() == 0 {
        Seq::empty()
    } else {
        let e = entries[0];
        let key = Option::Some((e.group, e.folder_path));
        (if prev == key {
            seq![PickerRowV::Entry(e)]
        } else {
            seq![PickerRowV::Header(e.group), PickerRowV::Entry(e)]
        }) + rows_of(entries.drop_first(), key)
    }
}

/// A live picker: the rows of one merged listing and a cursor that rests on
/// a selectable row whenever one exists.
pub struct Picker {
    pub rows: Vec<PickerRow>,
    pub cursor: usize,
}

impl View for Picker {
    type V = Seq<PickerRowV>;

    open spec fn view(&self) -> Seq<PickerRowV> {
        row_views(self.rows@)
    }
}

impl Picker {
    /// A well-placed cursor: inside the rows (or zero when there are none),
    /// and on a selectable row whenever any row is selectable.
    pub open spec fn wf(&self) -> bool {
        &&& (self@.len() == 0 ==> self.cursor == 0)
        &&& (self@.len() > 0 ==> self.cursor < self@.len())
        &&& (any_selectable(self@) ==> selectable(self@, self.cursor as int))
    }
}

/// Appending one row appends its image.
proof fn lemma_row_push(prev: Seq<PickerRow>, r: PickerRow)
    ensures
        row_views(prev.push(r)) == row_views(prev).push(r@),
{
    let f = |x: PickerRow| x@;
    prev.lemma_push_map_commute(f, r);
}

/// A scan either moves to a selectable row or stays where it was.
proof fn lemma_scan_result(rows: Seq<PickerRowV>, cur: int, d: int, forward: bool)
    requires
        d >= 1,
    ensures
        forward ==> (scan_fwd(rows, cur, d) == cur || selectable(rows, scan_fwd(rows, cur, d))),
        !forward ==> (scan_bwd(rows, cur, d) == cur || selectable(rows, scan_bwd(rows, cur, d))),
    decreases rows.len() - d,
{
    if d < rows.len() {
        lemma_scan_result(rows, cur, d + 1, forward);
    }
}

/// Whether a row holds a command entry.
fn row_is_entry(r: &PickerRow) -> (b: bool)
    ensures
        b == (r@ is Entry),
{
    match r {
        PickerRow::Entry(_) => true,
        PickerRow::Header(_) => false,
    }
}

/// The cyclic position a displacement lands on, forward.
proof fn lemma_pos_fwd(cur: int, d: int, len: int)
    requires
        0 <= cur < len,
        1 <= d < len,
    ensures
        (cur + d) % len == if cur + d < len {
            cur + d
        } else {
            cur + d - len
        },
{
    if cur + d < len {
        vstd::arithmetic::div_mod::lemma_small_mod((cur + d) as nat, len as nat);
    } else {
        vstd::arithmetic::div_mod::lemma_mod_multiples_vanish(1, cur + d - len, len);
        vstd::arithmetic::div_mod::lemma_small_mod((cur + d - len) as nat, len as nat);
    }
}

/// The cyclic position a displacement lands on, backward.
proof fn lemma_pos_bwd(cur: int, d: int, len: int)
    requires
        0 <= cur < len,
        1 <= d < len,
    ensures
        (cur + len - d) % len == if cur >= d {
            cur - d
        } else {
            cur + len - d
        },
{
    if cur >= d {
        vstd::arithmetic::div_mod::lemma_mod_multiples_vanish(1, cur - d, len);
        vstd::arithmetic::div_mod::lemma_small_mod((cur - d) as nat, len as nat);
    } else {
        vstd::arithmetic::div_mod::lemma_small_mod((cur + len - d) as nat, len as nat);
    }
}

/// The position the cursor moves to, cyclically, in either direction: the
/// nearest selectable row, or the current position when no other row is
/// selectable.
#[verifier::loop_isolation(false)]
fn find_next(rows: &Vec<PickerRow>, current: usize, forward: bool) -> (r: usize)
    requires
        row_views(rows@).len() == 0 ==> current == 0,
        row_views(rows@).len() > 0 ==> current < row_views(rows@).len(),
    ensures
        forward ==> r as int == next_fwd(row_views(rows@), current as int),
        !forward ==> r as int == next_bwd(row_views(rows@), current as int),
{
    let ghost v = row_views(rows@);
    let len = rows.len();
    if len == 0 {
        return current;
    }
    let mut d: usize = 1;
    while d < len
        invariant
            1 <= d <= len,
            len == v.len(),
            current < len,
            len == rows@.len(),
            forward ==> scan_fwd(v, current as int, 1) == scan_fwd(v, current as int, d as int),
            !forward ==> scan_bwd(v, current as int, 1) == scan_bwd(v, current as int, d as int),
        decreases len - d,
    {
        let idx: usize = if forward {
            if current >= len - d {
                current - (len - d)
            } else {
                current + d
            }
        } else {
            if current >= d {
                current - d
            } else {
                current + (len - d)
            }
        };
        proof {
            if forward {
                lemma_pos_fwd(current as int, d as int, len as int);
                assert(idx as int == (current + d) % (len as int));
            } else {
                lemma_pos_bwd(current as int, d as int, len as int);
                assert(idx as int == (current + len - d) % (len as int));
            }
            assert(v[idx as int] == rows@[idx as int]@);
        }
        if row_is_entry(&rows[idx]) {
            return idx;
        }
        d = d + 1;
    }
    current
}

impl Picker {
    /// Builds the picker over the merged entries: a header row opens each
    /// run of entries sharing a group and root, and the cursor starts on the
    /// first selectable row (or at the top of an empty listing).
    #[verifier::loop_isolation(false)]
    pub fn new(entries: Vec<ResolvedCommand>) -> (p: Picker)
        ensures
            p@ == rows_of(
                crate::resolver::rc_views(entries@),
                Option::None::<(Seq<char>, Seq<char>)>,
            ),
            p.cursor as int == first_sel(p@),
            p.wf(),
    {
        let ghost ev = crate::resolver::rc_views(entries@);
        let mut rows: Vec<PickerRow> = Vec::new();
        let mut i: usize = 0;
        let ghost mut pk: Option<(Seq<char>, Seq<char>)> = Option::None;
        proof {
            assert(ev.skip(0) =~= ev);
        }
        while i < entries.len()
            invariant
                i <= entries@.len(),
                rows_of(ev, Option::None) == row_views(rows@) + rows_of(ev.skip(i as int), pk),
                i == 0 ==> pk is None,
                i > 0 ==> pk == Option::Some(
                    (entries@[i - 1]@.group, entries@[i - 1]@.folder_path),
                ),
            decreases entries@.len() - i,
        {
            let e = &entries[i];
            proof {
                assert(ev.skip(i as int)[0] == ev[i as int]);
                assert(ev[i as int] == entries@[i as int]@);
                assert(ev.skip(i as int).drop_first() =~= ev.skip(i as int + 1));
            }
            let ghost key = Option::Some((e@.group, e@.folder_path));
            let same = if i == 0 {
                false
            } else {
                let prev = &entries[i - 1];
                crate::text::str_eq(prev.group.as_str(), e.group.as_str())
                    && crate::text::str_eq(prev.folder_path.as_str(), e.folder_path.as_str())
            };
            proof {
                assert(same == (pk == key));
            }
            if !same {
                let header_row = PickerRow::Header(e.group.clone());
                let ghost prows = rows@;
                rows.push(header_row);
                proof {
                    lemma_row_push(prows, header_row);
                }
            }
            let ghost prows2 = rows@;
            let entry_row = PickerRow::Entry(e.clone());
            rows.push(entry_row);
            proof {
                lemma_row_push(prows2, entry_row);
                assert(rows_of(ev, Option::None) =~= row_views(rows@) + rows_of(
                    ev.skip(i as int + 1),
                    key,
                ));
                pk = key;
            }
            i = i + 1;
        }
        proof {
            assert(ev.skip(ev.len() as int).len() == 0);
            assert(rows_of(ev, Option::None) =~= row_views(rows@));
        }
        let cursor: usize = if rows.len() == 0 {
            0
        } else if row_is_entry(&rows[0]) {
            proof {
                assert(row_views(rows@)[0] == rows@[0]@);
            }
            0
        } else {
            proof {
                assert(row_views(rows@)[0] == rows@[0]@);
            }
            find_next(&rows, 0, true)
        };
        let p = Picker { rows, cursor };
        proof {
            if p@.len() > 0 && !selectable(p@, 0) {
                lemma_scan_result(p@, 0, 1, true);
                if any_selectable(p@) {
                    lemma_scan_finds(p@, 0);
                }
            }
        }
        p
    }

    /// Feeds one key event to the machine. Navigation moves the cursor
    /// cyclically over the selectable rows and yields nothing; `Enter` on a
    /// selectable row ends the session with that entry chosen; a cancel key
    /// ends it with nothing; any other key does nothing. The rows never
    /// change.
    pub fn step(&mut self, ev: PickerEvent) -> (r: Option<PickerOutcome>)
        requires
            old(self).wf(),
        ensures
            final(self).wf(),
            final(self)@ == old(self)@,
            match ev {
                PickerEvent::Down => r is None && final(self).cursor as int == next_fwd(
                    old(self)@,
                    old(self).cursor as int,
                ),
                PickerEvent::Up => r is None && final(self).cursor as int == next_bwd(
                    old(self)@,
                    old(self).cursor as int,
                ),
                PickerEvent::Enter => final(self).cursor == old(self).cursor && (if selectable(
                    old(self)@,
                    old(self).cursor as int,
                ) {
                    r is Some && r->0 is Selected && ((r->0)->Selected_0)@ == old(self)@[old(
                        self,
                    ).cursor as int]->Entry_0
                } else {
                    r is None
                }),
                PickerEvent::Cancel => final(self).cursor == old(self).cursor && r is Some
                    && r->0 is Cancelled,
                PickerEvent::Other => final(self).cursor == old(self).cursor && r is None,
            },
    {
        match ev {
            PickerEvent::Down => {
                let next = find_next(&self.rows, self.cursor, true);
                proof {
                    lemma_scan_result(self@, self.cursor as int, 1, true);
                }
                self.cursor = next;
                Option::None
            },
            PickerEvent::Up => {
                let next = find_next(&self.rows, self.cursor, false);
                proof {
                    lemma_scan_result(self@, self.cursor as int, 1, false);
                }
                self.cursor = next;
                Option::None
            },
            PickerEvent::Enter => {
                if self.rows.len() == 0 {
                    return Option::None;
                }
                proof {
                    assert(self@[self.cursor as int] == self.rows@[self.cursor as int]@);
                }
                match &self.rows[self.cursor] {
                    PickerRow::Entry(e) => Option::Some(PickerOutcome::Selected(e.clone())),
                    PickerRow::Header(_) => Option::None,
                }
            },
            PickerEvent::Cancel => Option::Some(PickerOutcome::Cancelled),
            PickerEvent::Other => Option::None,
        }
    }
}

/// A forward scan stops at the first selectable displacement.
proof fn lemma_scan_fwd_hits(rows: Seq<PickerRowV>, cur: int, d: int, e: int)
    requires
        0 <= cur < rows.len(),
        1 <= d <= e < rows.len(),
        selectable(rows, (cur + e) % (rows.len() as int)),
        forall|d2: int|
            d <= d2 < e ==> !(#[trigger] selectable(rows, (cur + d2) % (rows.len() as int))),
    ensures
        scan_fwd(rows, cur, d) == (cur + e) % (rows.len() as int),
    decreases e - d,
{
    let len = rows.len() as int;
    if selectable(rows, (cur + d) % len) {
        assert(d == e) by {
            if d < e {
                assert(!selectable(rows, (cur + d) % len));
            }
        }
    } else {
        lemma_scan_fwd_hits(rows, cur, d + 1, e);
    }
}

/// A forward scan with no selectable displacement left stays put.
proof fn lemma_scan_fwd_none(rows: Seq<PickerRowV>, cur: int, d: int)
    requires
        0 <= cur < rows.len(),
        1 <= d,
        forall|d2: int|
            d <= d2 < rows.len() ==> !(#[trigger] selectable(
                rows,
                (cur + d2) % (rows.len() as int),
            )),
    ensures
        scan_fwd(rows, cur, d) == cur,
    decreases rows.len() - d,
{
    let len = rows.len() as int;
    if d < len {
        assert(!selectable(rows, (cur + d) % len));
        lemma_scan_fwd_none(rows, cur, d + 1);
    }
}

/// A backward scan stops at the first selectable displacement.
proof fn lemma_scan_bwd_hits(rows: Seq<PickerRowV>, cur: int, d: int, e: int)
    requires
        0 <= cur < rows.len(),
        1 <= d <= e < rows.len(),
        selectable(rows, (cur + rows.len() - e) % (rows.len() as int)),
        forall|d2: int|
            d <= d2 < e ==> !(#[trigger] selectable(
                rows,
                (cur + rows.len() - d2) % (rows.len() as int),
            )),
    ensures
        scan_bwd(rows, cur, d) == (cur + rows.len() - e) % (rows.len() as int),
    decreases e - d,
{
    let len = rows.len() as int;
    if selectable(rows, (cur + len - d) % len) {
        assert(d == e) by {
            if d < e {
                assert(!selectable(rows, (cur + len - d) % len));
            }
        }
    } else {
        lemma_scan_bwd_hits(rows, cur, d + 1, e);
    }
}

/// A backward scan with no selectable displacement left stays put.
proof fn lemma_scan_bwd_none(rows: Seq<PickerRowV>, cur: int, d: int)
    requires
        0 <= cur < rows.len(),
        1 <= d,
        forall|d2: int|
            d <= d2 < rows.len() ==> !(#[trigger] selectable(
                rows,
                (cur + rows.len() - d2) % (rows.len() as int),
            )),
    ensures
        scan_bwd(rows, cur, d) == cur,
    decreases rows.len() - d,
{
    let len = rows.len() as int;
    if d < len {
        assert(!selectable(rows, (cur + len - d) % len));
        lemma_scan_bwd_none(rows, cur, d + 1);
    }
}

/// With exactly one selectable row, moving down or up from it is a no-op:
/// the cursor stays on that row.
pub proof fn lemma_single_selectable_noop(rows: Seq<PickerRowV>, cur: int)
    requires
        selectable(rows, cur),
        forall|j: int| #[trigger] selectable(rows, j) ==> j == cur,
    ensures
        next_fwd(rows, cur) == cur,
        next_bwd(rows, cur) == cur,
{
    let len = rows.len() as int;
    assert forall|d2: int| 1 <= d2 < len implies !(#[trigger] selectable(rows, (cur + d2) % len)) by {
        lemma_pos_fwd(cur, d2, len);
        assert((cur + d2) % len != cur);
    }
    assert forall|d2: int| 1 <= d2 < len implies !(#[trigger] selectable(rows, (cur + len - d2) % len)) by {
        lemma_pos_bwd(cur, d2, len);
        assert((cur + len - d2) % len != cur);
    }
    lemma_scan_fwd_none(rows, cur, 1);
    lemma_scan_bwd_none(rows, cur, 1);
}

/// From the last selectable row, moving down wraps to the first selectable
/// row.
pub proof fn lemma_down_from_last_wraps(rows: Seq<PickerRowV>, cur: int, f: int)
    requires
        selectable(rows, cur),
        forall|j: int| #[trigger] selectable(rows, j) ==> j <= cur,
        selectable(rows, f),
        forall|j: int| 0 <= j < f ==> !selectable(rows, j),
    ensures
        next_fwd(rows, cur) == f,
{
    let len = rows.len() as int;
    assert(f <= cur);
    if f == cur {
        assert forall|j: int| #[trigger] selectable(rows, j) implies j == cur by {
            assert(j <= cur);
            if j < cur {
                assert(!selectable(rows, j));
            }
        }
        lemma_single_selectable_noop(rows, cur);
    } else {
        let ds = len - cur + f;
        assert(1 <= ds < len);
        lemma_pos_fwd(cur, ds, len);
        assert((cur + ds) % len == f);
        assert forall|d2: int| 1 <= d2 < ds implies !(#[trigger] selectable(rows, (cur + d2) % len)) by {
            lemma_pos_fwd(cur, d2, len);
            if cur + d2 < len {
                assert((cur + d2) % len > cur);
            } else {
                assert((cur + d2) % len == cur + d2 - len);
                assert(cur + d2 - len < f);
            }
        }
        lemma_scan_fwd_hits(rows, cur, 1, ds);
    }
}

/// From the first selectable row, moving up wraps to the last selectable
/// row.
pub proof fn lemma_up_from_first_wraps(rows: Seq<PickerRowV>, cur: int, l: int)
    requires
        selectable(rows, cur),
        forall|j: int| #[trigger] selectable(rows, j) ==> j >= cur,
        selectable(rows, l),
        forall|j: int| l < j < rows.len() ==> !selectable(rows, j),
    ensures
        next_bwd(rows, cur) == l,
{
    let len = rows.len() as int;
    assert(l >= cur);
    if l == cur {
        assert forall|j: int| #[trigger] selectable(rows, j) implies j == cur by {
            assert(j >= cur);
            if j > cur {
                assert(!selectable(rows, j));
            }
        }
        lemma_single_selectable_noop(rows, cur);
    } else {
        let ds = len - l + cur;
        assert(1 <= ds < len);
        lemma_pos_bwd(cur, ds, len);
        assert((cur + len - ds) % len == l);
        assert forall|d2: int| 1 <= d2 < ds implies !(#[trigger] selectable(rows, (cur + len - d2) % len)) by {
            lemma_pos_bwd(cur, d2, len);
            if cur >= d2 {
                assert((cur + len - d2) % len < cur);
            } else {
                assert((cur + len - d2) % len == cur + len - d2);
                assert(cur + len - d2 > l);
            }
        }
        lemma_scan_bwd_hits(rows, cur, 1, ds);
    }
}

/// A forward scan that came back to a non-selectable start found no
/// selectable row at any displacement it tried.
proof fn lemma_scan_no_hit(rows: Seq<PickerRowV>, cur: int, d: int, d2: int)
    requires
        0 <= cur < rows.len(),
        1 <= d <= d2 < rows.len(),
        scan_fwd(rows, cur, d) == cur,
        !selectable(rows, cur),
    ensures
        !selectable(rows, (cur + d2) % (rows.len() as int)),
    decreases d2 - d,
{
    let len = rows.len() as int;
    lemma_pos_fwd(cur, d, len);
    assert((cur + d) % len != cur);
    if selectable(rows, (cur + d) % len) {
        assert(scan_fwd(rows, cur, d) == (cur + d) % len);
    } else {
        if d2 > d {
            assert(scan_fwd(rows, cur, d) == scan_fwd(rows, cur, d + 1));
            lemma_scan_no_hit(rows, cur, d + 1, d2);
        }
    }
}

/// From a non-selectable start, a forward scan finds a selectable row
/// whenever one exists.
proof fn lemma_scan_finds(rows: Seq<PickerRowV>, cur: int)
    requires
        0 <= cur < rows.len(),
        any_selectable(rows),
        !selectable(rows, cur),
    ensures
        selectable(rows, scan_fwd(rows, cur, 1)),
{
    let len = rows.len() as int;
    lemma_scan_result(rows, cur, 1, true);
    if scan_fwd(rows, cur, 1) == cur {
        let w = choose|w: int| selectable(rows, w);
        assert(w != cur);
        let dw = if w > cur {
            w - cur
        } else {
            w + len - cur
        };
        assert(1 <= dw < len);
        lemma_pos_fwd(cur, dw, len);
        assert((cur + dw) % len == w);
        lemma_scan_no_hit(rows, cur, 1, dw);
    }
}

} // verus!

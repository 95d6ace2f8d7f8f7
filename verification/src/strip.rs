//! The tab strip and the tab sidebar: how a drag reorders tabs, how a
//! terminal title is shortened into a tab label, and the small mappings the
//! strip's chrome is drawn from.
use vstd::prelude::*;
use vstd::string::*;

use crate::seqs::{first_index, lemma_first_index_absent, lemma_first_index_found};
use crate::ids::TabId;
use crate::rows::opt_view;
use crate::switcher::{lower_contains, lowercase, Liveness, MachineRail, RemoteTarget};
use crate::text::{contains_seq, owned, str_eq, chars_of, extend_chars, join, join_chars, runs_view, skip_chars, string_of, take_chars};

verus! {

// ------------------------------------------------------------- drag maths

/// The positions `0..len`.
pub open spec fn identity_order(len: nat) -> Seq<usize> {
    Seq::new(len, |i: int| i as usize)
}

pub(crate) fn identity_vec(len: usize) -> (v: Vec<usize>)
    ensures
        v@ == identity_order(len as nat),
{
    let mut v: Vec<usize> = Vec::new();
    let mut i: usize = 0;
    while i < len
        invariant
            i <= len,
            v@ == identity_order(i as nat),
        decreases len - i,
    {
        v.push(i);
        i = i + 1;
        assert(v@ =~= identity_order(i as nat));
    }
    v
}

/// The target slot of a drag, given the insertion slot computed after the
/// source was lifted out of the list: slots at or after the source shift up
/// by one. `None` for a source outside the list, an insertion past the
/// shortened list, or a target that is the source itself.
pub open spec fn target_after_removal_of(source: nat, insertion: nat, len: nat) -> Option<nat> {
    if source >= len || insertion >= if len >= 1 {
        (len - 1) as nat
    } else {
        0nat
    } {
        None
    } else {
        let target = if insertion >= source {
            insertion + 1
        } else {
            insertion
        };
        if target < len && target != source {
            Some(target as nat)
        } else {
            None
        }
    }
}

pub fn target_after_removal(source: usize, insertion: usize, len: usize) -> (target: Option<usize>)
    ensures
        target matches Some(t) ==> target_after_removal_of(source as nat, insertion as nat, len as nat)
            == Some(t as nat),
        target is None ==> target_after_removal_of(source as nat, insertion as nat, len as nat) is None,
{
    let shortened = if len >= 1 {
        len - 1
    } else {
        0
    };
    if source >= len || insertion >= shortened {
        return None;
    }
    let target = if insertion >= source {
        insertion + 1
    } else {
        insertion
    };
    if target < len && target != source {
        Some(target)
    } else {
        None
    }
}

/// The order after moving the tab at `source` onto the slot of `target`
/// (both positions in the original list): lift the source out and insert it
/// at the target's original position.
pub open spec fn hover_order(source: nat, target: nat, len: nat) -> Seq<usize> {
    identity_order(len).remove(source as int).insert(target as int, source as usize)
}

pub fn order_for_hover(source: usize, target: usize, len: usize) -> (order: Option<Vec<usize>>)
    ensures
        (source >= len || target >= len || source == target) ==> order is None,
        !(source >= len || target >= len || source == target) ==> (order matches Some(o) && o@
            == hover_order(source as nat, target as nat, len as nat)),
{
    if source >= len || target >= len || source == target {
        return None;
    }
    let mut order = identity_vec(len);
    let dragged = order.remove(source);
    let at = if target < order.len() {
        target
    } else {
        order.len()
    };
    order.insert(at, dragged);
    Some(order)
}

/// The chip a drag would merge into: the hovered chip, mapped to its
/// insertion slot in the list without the dragged chip and back, only when
/// that lands on the hovered chip itself (a slot in a gap, or outside the
/// strip, names no target).
pub open spec fn merge_target_of(from: nat, hovered: Option<nat>, len: nat) -> Option<nat> {
    match hovered {
        Some(h) => {
            let insertion: nat = if h >= from {
                if h >= 1 {
                    (h - 1) as nat
                } else {
                    0
                }
            } else {
                h
            };
            match target_after_removal_of(from, insertion, len) {
                Some(t) => if t == h {
                    Some(h)
                } else {
                    None
                },
                None => None,
            }
        },
        None => None,
    }
}

/// The chip a drag would merge into (see `merge_target_of`).
pub fn merge_target(from: usize, hovered: Option<usize>, len: usize) -> (target: Option<usize>)
    ensures
        match target {
            Some(t) => merge_target_of(from as nat, opt_nat(hovered), len as nat) == Some(t as nat),
            None => merge_target_of(from as nat, opt_nat(hovered), len as nat) is None,
        },
{
    match hovered {
        Some(h) => {
            let insertion = if h >= from {
                if h >= 1 {
                    h - 1
                } else {
                    0
                }
            } else {
                h
            };
            match target_after_removal(from, insertion, len) {
                Some(t) => if t == h {
                    Some(h)
                } else {
                    None
                },
                None => None,
            }
        },
        None => None,
    }
}

/// A position, if any, as a natural number.
pub open spec fn opt_nat(o: Option<usize>) -> Option<nat> {
    match o {
        Some(x) => Some(x as nat),
        None => None,
    }
}

/// A drag merges into exactly the chip under the pointer: any other chip of
/// the strip, and never the dragged chip itself.
pub proof fn lemma_merge_targets_the_hovered_chip(from: nat, h: nat, len: nat)
    ensures
        merge_target_of(from, Some(h), len) == (if from < len && h < len && h != from {
            Some(h)
        } else {
            None
        }),
{
}

/// The order the strip draws while a tab is dragged: with a reorder under
/// way over a chip, the dragged tab lifted to that chip's place (when that
/// is a move at all); otherwise the drag preview's own order.
pub fn strip_display_order(from: usize, hovered: Option<usize>, reorder: bool, len: usize, preview: Vec<usize>) -> (order: Vec<usize>)
    ensures
        order@ == (match hovered {
            Some(t) if reorder && !(from >= len || t >= len || from == t) => hover_order(
                from as nat,
                t as nat,
                len as nat,
            ),
            _ => preview@,
        }),
{
    match hovered {
        Some(t) => if reorder {
            match order_for_hover(from, t, len) {
                Some(o) => o,
                None => preview,
            }
        } else {
            preview
        },
        None => preview,
    }
}

/// A list of positions that holds each of `0..len` exactly once.
pub open spec fn is_permutation(order: Seq<usize>, len: nat) -> bool {
    &&& order.len() == len
    &&& forall|i: int| 0 <= i < len ==> #[trigger] order[i] < len
    &&& order.no_duplicates()
}

/// Moving `moved` to slot `at` of `0..len` keeps every tab exactly once,
/// puts `moved` at `at`, and leaves every other tab in its old relative
/// order.
pub proof fn lemma_move_is_permutation(moved: nat, at: nat, len: nat)
    requires
        len <= usize::MAX,
        moved < len,
        at < len,
    ensures
        ({
            let order = identity_order(len).remove(moved as int).insert(at as int, moved as usize);
            &&& is_permutation(order, len)
            &&& order[at as int] == moved
            &&& order.remove(at as int) == identity_order(len).remove(moved as int)
        }),
{
    let base = identity_order(len);
    let rest = base.remove(moved as int);
    let order = rest.insert(at as int, moved as usize);
    assert forall|k: int| 0 <= k < rest.len() implies #[trigger] rest[k] == (if k < moved {
        k
    } else {
        k + 1
    }) as usize by {
        if k < moved {
            assert(rest[k] == base[k]);
        } else {
            assert(rest[k] == base[k + 1]);
        }
    }
    assert forall|k: int| 0 <= k < order.len() implies #[trigger] order[k] == (if k < at {
        rest[k]
    } else if k == at {
        moved as usize
    } else {
        rest[k - 1]
    }) by {}
    assert(order.remove(at as int) =~= rest);
    assert forall|i: int| 0 <= i < len implies #[trigger] order[i] < len by {
        if i < at {
            assert(rest[i] < len);
        } else if i > at {
            assert(rest[i - 1] < len);
        }
    }
    assert forall|i: int, j: int|
        0 <= i < order.len() && 0 <= j < order.len() && i != j implies order[i] != order[j] by {
        let a = if i < at {
            i
        } else {
            i - 1
        };
        let b = if j < at {
            j
        } else {
            j - 1
        };
        if i != at && j != at {
            assert(a != b);
            assert(order[i] == rest[a]);
            assert(order[j] == rest[b]);
        } else if i == at {
            assert(order[j] == rest[b]);
        } else {
            assert(order[i] == rest[a]);
        }
    }
}

/// Moving one tab that a search left visible across another visible tab:
/// `visible` holds the shown tabs' positions in increasing order, `from` and
/// `to` index into it. The moved tab takes the anchor's position and no other
/// tab moves relative to its neighbours. `None` for a `visible` that is not
/// strictly increasing inside `0..total`, or `from`/`to` outside it, or equal.
pub open spec fn reordered_rows_of(total: nat, visible: Seq<usize>, from: nat, to: nat) -> Option<Seq<usize>> {
    if (exists|i: int| 0 <= i < visible.len() && #[trigger] visible[i] >= total) || (exists|i: int|
        0 <= i < visible.len() - 1 && #[trigger] visible[i] >= visible[i + 1]) {
        None
    } else if from >= visible.len() || to >= visible.len() {
        None
    } else if visible[from as int] == visible[to as int] {
        None
    } else {
        Some(
            identity_order(total).remove(visible[from as int] as int).insert(
                visible[to as int] as int,
                visible[from as int],
            ),
        )
    }
}

pub fn reordered_rows(total: usize, visible: &[usize], from: usize, to: usize) -> (order: Option<Vec<usize>>)
    ensures
        match reordered_rows_of(total as nat, visible@, from as nat, to as nat) {
            Some(o) => order matches Some(v) && v@ == o,
            None => order is None,
        },
{
    let mut i: usize = 0;
    while i < visible.len()
        invariant
            i <= visible@.len(),
            forall|k: int| 0 <= k < i ==> #[trigger] visible@[k] < total,
            forall|k: int| 0 <= k < i && k + 1 < visible@.len() ==> #[trigger] visible@[k] < visible@[k + 1],
        decreases visible@.len() - i,
    {
        if visible[i] >= total {
            return None;
        }
        if i + 1 < visible.len() && visible[i] >= visible[i + 1] {
            return None;
        }
        i = i + 1;
    }
    if from >= visible.len() || to >= visible.len() {
        return None;
    }
    let moved = visible[from];
    let anchor = visible[to];
    if moved == anchor {
        return None;
    }
    let mut order = identity_vec(total);
    order.remove(moved);
    order.insert(anchor, moved);
    Some(order)
}

/// A reorder of the sidebar rows keeps every tab exactly once, puts the
/// moved tab at its anchor's position, and keeps everything else in order.
pub proof fn lemma_reordered_rows_is_permutation(total: usize, visible: Seq<usize>, from: nat, to: nat)
    requires
        reordered_rows_of(total as nat, visible, from, to) is Some,
    ensures
        ({
            let order = reordered_rows_of(total as nat, visible, from, to).unwrap();
            let moved = visible[from as int];
            &&& is_permutation(order, total as nat)
            &&& order[visible[to as int] as int] == moved
            &&& order.remove(visible[to as int] as int) == identity_order(total as nat).remove(moved as int)
        }),
{
    lemma_move_is_permutation(visible[from as int] as nat, visible[to as int] as nat, total as nat);
}

// ----------------------------------------------------------- tab titles

/// Whether `c` has the Unicode `White_Space` property, which is what std's
/// `char::is_whitespace` tests: the controls U+0009 to U+000D, the space,
/// U+0085, the no-break space, the Ogham space mark, the spaces U+2000 to
/// U+200A, the line and paragraph separators, the narrow no-break space,
/// the medium mathematical space and the ideographic space.
pub open spec fn char_whitespace(c: char) -> bool {
    let n = c as u32;
    ||| 0x9 <= n <= 0xD
    ||| n == 0x20
    ||| n == 0x85
    ||| n == 0xA0
    ||| n == 0x1680
    ||| 0x2000 <= n <= 0x200A
    ||| n == 0x2028
    ||| n == 0x2029
    ||| n == 0x202F
    ||| n == 0x205F
    ||| n == 0x3000
}

/// Whether `c` is whitespace, as std's `char::is_whitespace` tests it (see
/// `char_whitespace`).
fn is_whitespace(c: char) -> (ws: bool)
    ensures
        ws == char_whitespace(c),
{
    let n = c as u32;
    (0x9 <= n && n <= 0xD) || n == 0x20 || n == 0x85 || n == 0xA0 || n == 0x1680 || (0x2000 <= n && n
        <= 0x200A) || n == 0x2028 || n == 0x2029 || n == 0x202F || n == 0x205F || n == 0x3000
}

/// `s` without its leading whitespace.
pub open spec fn trim_start(s: Seq<char>) -> Seq<char>
    decreases s.len(),
{
    if s.len() > 0 && char_whitespace(s[0]) {
        trim_start(s.drop_first())
    } else {
        s
    }
}

/// `s` without its trailing whitespace.
pub open spec fn trim_end(s: Seq<char>) -> Seq<char>
    decreases s.len(),
{
    if s.len() > 0 && char_whitespace(s.last()) {
        trim_end(s.drop_last())
    } else {
        s
    }
}

/// `s` without leading or trailing whitespace (std's `str::trim`).
pub open spec fn trim(s: Seq<char>) -> Seq<char> {
    trim_end(trim_start(s))
}

proof fn lemma_trim_start_skip(s: Seq<char>, i: int)
    requires
        0 <= i <= s.len(),
        forall|k: int| 0 <= k < i ==> char_whitespace(#[trigger] s[k]),
        i == s.len() || !char_whitespace(s[i]),
    ensures
        trim_start(s) == s.skip(i),
    decreases i,
{
    if i > 0 {
        let t = s.drop_first();
        assert forall|k: int| 0 <= k < i - 1 implies char_whitespace(#[trigger] t[k]) by {
            assert(t[k] == s[k + 1]);
        }
        if i < s.len() {
            assert(t[i - 1] == s[i]);
        }
        lemma_trim_start_skip(t, i - 1);
        assert(t.skip(i - 1) =~= s.skip(i));
    } else {
        assert(s.skip(0) =~= s);
    }
}

proof fn lemma_trim_end_take(s: Seq<char>, j: int)
    requires
        0 <= j <= s.len(),
        forall|k: int| j <= k < s.len() ==> char_whitespace(#[trigger] s[k]),
        j == 0 || !char_whitespace(s[j - 1]),
    ensures
        trim_end(s) == s.take(j),
    decreases s.len() - j,
{
    if j < s.len() {
        let t = s.drop_last();
        assert(char_whitespace(s.last()));
        assert forall|k: int| j <= k < t.len() implies char_whitespace(#[trigger] t[k]) by {
            assert(t[k] == s[k]);
        }
        if j > 0 {
            assert(t[j - 1] == s[j - 1]);
        }
        lemma_trim_end_take(t, j);
        assert(t.take(j) =~= s.take(j));
    } else {
        assert(s.take(j) =~= s);
    }
}

/// `s` without leading or trailing whitespace.
pub fn trim_chars(s: &[char]) -> (out: Vec<char>)
    ensures
        out@ == trim(s@),
{
    let mut start: usize = 0;
    while start < s.len() && is_whitespace(s[start])
        invariant
            start <= s@.len(),
            forall|k: int| 0 <= k < start ==> char_whitespace(#[trigger] s@[k]),
        decreases s@.len() - start,
    {
        start = start + 1;
    }
    proof {
        lemma_trim_start_skip(s@, start as int);
    }
    let ghost rest = s@.skip(start as int);
    let mut end: usize = s.len();
    while end > start && is_whitespace(s[end - 1])
        invariant
            start <= end <= s@.len(),
            rest == s@.skip(start as int),
            forall|k: int| end <= k < s@.len() ==> char_whitespace(#[trigger] s@[k]),
        decreases end,
    {
        end = end - 1;
    }
    proof {
        let j = end - start;
        assert forall|k: int| j <= k < rest.len() implies char_whitespace(#[trigger] rest[k]) by {
            assert(rest[k] == s@[k + start]);
        }
        if j > 0 {
            assert(rest[j - 1] == s@[end - 1]);
        }
        lemma_trim_end_take(rest, j as int);
        assert(rest.take(j as int) =~= s@.subrange(start as int, end as int));
    }
    let mut out: Vec<char> = Vec::new();
    let mut i = start;
    while i < end
        invariant
            start <= i <= end <= s@.len(),
            out@ == s@.subrange(start as int, i as int),
        decreases end - i,
    {
        out.push(s[i]);
        i = i + 1;
        assert(out@ =~= s@.subrange(start as int, i as int));
    }
    out
}

/// `s` without its trailing slashes (std's `trim_end_matches('/')`).
pub open spec fn trim_end_slashes(s: Seq<char>) -> Seq<char>
    decreases s.len(),
{
    if s.len() > 0 && s.last() == '/' {
        trim_end_slashes(s.drop_last())
    } else {
        s
    }
}

/// `path` with the home directory `home` written as `~`. A path already
/// starting with `~`, no home, or a home that is only slashes leaves the
/// path as it is; so does a path that is not the home or under it.
pub open spec fn abbreviate_home_of(path: Seq<char>, home: Option<Seq<char>>) -> Seq<char> {
    if path.len() > 0 && path[0] == '~' {
        path
    } else {
        match home {
            None => path,
            Some(h) => {
                let h = trim_end_slashes(h);
                if h.len() == 0 {
                    path
                } else if path == h {
                    seq!['~']
                } else if h.len() < path.len() && path.take(h.len() as int) == h && path[h.len() as int] == '/' {
                    seq!['~'] + path.skip(h.len() as int)
                } else {
                    path
                }
            },
        }
    }
}

fn trim_end_slashes_exec(s: &[char]) -> (out: Vec<char>)
    ensures
        out@ == trim_end_slashes(s@),
{
    let mut end = s.len();
    assert(s@.take(end as int) =~= s@);
    while end > 0 && s[end - 1] == '/'
        invariant
            end <= s@.len(),
            trim_end_slashes(s@) == trim_end_slashes(s@.take(end as int)),
        decreases end,
    {
        assert(s@.take(end as int).drop_last() =~= s@.take(end - 1));
        end = end - 1;
    }
    assert(s@.take(end as int) =~= s@.take(end as int));
    crate::text::take_chars(s, end)
}

/// `path` with the home directory written as `~`.
pub fn abbreviate_home(path: &[char], home: Option<&[char]>) -> (out: Vec<char>)
    ensures
        out@ == abbreviate_home_of(path@, match home {
            Some(h) => Some(h@),
            None => None,
        }),
{
    if path.len() > 0 && path[0] == '~' {
        return crate::text::take_chars(path, path.len());
    }
    let home = match home {
        Some(h) => h,
        None => {
            return crate::text::take_chars(path, path.len());
        },
    };
    let h = trim_end_slashes_exec(home);
    if h.len() == 0 {
        return crate::text::take_chars(path, path.len());
    }
    if crate::text::chars_eq(path, h.as_slice()) {
        let mut out: Vec<char> = Vec::new();
        out.push('~');
        assert(out@ =~= seq!['~']);
        return out;
    }
    if h.len() < path.len() && crate::text::starts_with_chars(path, h.as_slice()) && path[h.len()] == '/' {
        let mut out: Vec<char> = Vec::new();
        out.push('~');
        let rest = crate::text::skip_chars(path, h.len());
        let mut i: usize = 0;
        while i < rest.len()
            invariant
                i <= rest@.len(),
                out@ == seq!['~'] + rest@.take(i as int),
            decreases rest@.len() - i,
        {
            out.push(rest[i]);
            i = i + 1;
            assert(out@ =~= seq!['~'] + rest@.take(i as int));
        }
        assert(rest@.take(rest@.len() as int) =~= rest@);
        return out;
    }
    crate::text::take_chars(path, path.len())
}


// ------------------------------------------------------------ chip window

/// The minimum width the chips are drawn at.
#[derive(Clone, Copy, Debug, PartialEq, Eq, Structural)]
pub enum ChipWidth {
    /// The natural minimum width.
    Natural,
    /// The compression floor, below the natural minimum.
    Floor,
}

/// What fits into the strip, as measured by the caller: whether every chip
/// fits at the natural minimum width, whether every chip fits at the floor
/// width, and how many floor-width chips fit beside no, one and two
/// overflow chips.
#[derive(Clone, Copy, Debug, PartialEq, Eq, Structural)]
pub struct ChipRoom {
    pub all_natural: bool,
    pub all_floor: bool,
    pub bare: usize,
    pub one_edge: usize,
    pub two_edges: usize,
}

/// The chips drawn when tabs exceed the strip: `visible` chips from `start`,
/// with the counts of hidden tabs on either edge.
#[derive(Clone, Copy, Debug, PartialEq, Eq, Structural)]
pub struct TabChipWindow {
    pub start: usize,
    pub visible: usize,
    pub chip_min_w: ChipWidth,
    pub leading_hidden: usize,
    pub trailing_hidden: usize,
}

/// Where a window of `visible` chips out of `count` starts so that it holds
/// `active`: as far left as it can while ending at or after `active`.
pub open spec fn window_start(active: int, visible: int, count: int) -> int {
    if active >= visible {
        let s = active + 1 - visible;
        if s < count - visible {
            s
        } else {
            count - visible
        }
    } else {
        0
    }
}

/// How many overflow chips a window needs: one per edge with hidden tabs.
pub open spec fn edge_count(start: int, visible: int, count: int) -> int {
    (if start > 0 { 1int } else { 0int }) + (if start + visible < count { 1int } else { 0int })
}

/// How many floor-width chips fit beside `edges` overflow chips; never less
/// than one.
pub open spec fn room_beside(room: ChipRoom, edges: int) -> int {
    let c = if edges == 0 {
        room.bare
    } else if edges == 1 {
        room.one_edge
    } else {
        room.two_edges
    };
    if c < 1 {
        1
    } else {
        c as int
    }
}

/// A window of `visible` chips holding `active` fits, or is down to one chip.
pub open spec fn window_fits(room: ChipRoom, active: int, visible: int, count: int) -> bool {
    visible == 1 || room_beside(room, edge_count(window_start(active, visible, count), visible, count))
        >= visible
}

/// The widest window, of at most `visible` chips, that fits.
pub open spec fn fitting_visible(room: ChipRoom, active: int, count: int, visible: int) -> int
    decreases visible,
{
    if visible <= 1 || window_fits(room, active, visible, count) {
        visible
    } else {
        fitting_visible(room, active, count, visible - 1)
    }
}

/// The chip window for `count` tabs with `active` the active one: every chip
/// at the natural width if they all fit so, else every chip at the floor
/// width if they all fit so, else the widest window that fits at the floor
/// width and holds the active tab (the last one when `active` is past the
/// end).
pub open spec fn chip_window_of(count: nat, active: nat, room: ChipRoom) -> TabChipWindow {
    if count == 0 || room.all_natural {
        TabChipWindow {
            start: 0,
            visible: count as usize,
            chip_min_w: ChipWidth::Natural,
            leading_hidden: 0,
            trailing_hidden: 0,
        }
    } else if room.all_floor {
        TabChipWindow {
            start: 0,
            visible: count as usize,
            chip_min_w: ChipWidth::Floor,
            leading_hidden: 0,
            trailing_hidden: 0,
        }
    } else {
        let a: int = if active < count - 1 { active as int } else { count - 1 };
        let v = fitting_visible(room, a, count as int, count as int);
        let s = window_start(a, v, count as int);
        TabChipWindow {
            start: s as usize,
            visible: v as usize,
            chip_min_w: ChipWidth::Floor,
            leading_hidden: s as usize,
            trailing_hidden: (count - s - v) as usize,
        }
    }
}

proof fn lemma_fitting_visible_range(room: ChipRoom, active: int, count: int, visible: int)
    requires
        visible >= 1,
    ensures
        1 <= fitting_visible(room, active, count, visible) <= visible,
    decreases visible,
{
    if visible > 1 && !window_fits(room, active, visible, count) {
        lemma_fitting_visible_range(room, active, count, visible - 1);
    }
}

/// How many floor-width chips fit beside the overflow chips a window of
/// `v` chips holding `active` needs.
pub open spec fn window_room(room: ChipRoom, active: int, v: int, count: int) -> int {
    room_beside(room, edge_count(window_start(active, v, count), v, count))
}

proof fn lemma_fitting_visible_widest(room: ChipRoom, active: int, count: int, visible: int)
    requires
        visible >= 1,
    ensures
        forall|v: int|
            fitting_visible(room, active, count, visible) < v <= visible ==> v != 1 && #[trigger] window_room(
                room,
                active,
                v,
                count,
            ) < v,
        fitting_visible(room, active, count, visible) == 1 || window_room(
            room,
            active,
            fitting_visible(room, active, count, visible),
            count,
        ) >= fitting_visible(room, active, count, visible),
    decreases visible,
{
    if visible > 1 && !window_fits(room, active, visible, count) {
        lemma_fitting_visible_widest(room, active, count, visible - 1);
        let f = fitting_visible(room, active, count, visible);
        assert(f == fitting_visible(room, active, count, visible - 1));
        assert forall|v: int| f < v <= visible implies v != 1 && #[trigger] window_room(room, active, v, count) < v by {
            if v == visible {
                assert(!window_fits(room, active, visible, count));
            }
        }
    }
}

/// When the tabs do not all fit, the chip window is the widest that fits:
/// its chips fit beside the overflow chips it needs (or it is down to one
/// chip), and no window of more chips holding the active tab (the last tab
/// when `active` is past the end) would fit beside the overflow chips that
/// window would need.
pub proof fn lemma_chip_window_is_the_widest_that_fits(count: nat, active: nat, room: ChipRoom)
    requires
        0 < count <= usize::MAX,
        !room.all_natural,
        !room.all_floor,
    ensures
        ({
            let w = chip_window_of(count, active, room);
            let a: int = if active < count - 1 { active as int } else { count - 1 };
            &&& w.visible == 1 || window_room(room, a, w.visible as int, count as int) >= w.visible
            &&& w.start == window_start(a, w.visible as int, count as int)
            &&& forall|v: int| w.visible < v <= count ==> #[trigger] window_room(room, a, v, count as int) < v
        }),
{
    let a: int = if active < count - 1 { active as int } else { count - 1 };
    lemma_fitting_visible_range(room, a, count as int, count as int);
    lemma_fitting_visible_widest(room, a, count as int, count as int);
    let f = fitting_visible(room, a, count as int, count as int);
    let w = chip_window_of(count, active, room);
    assert(w.visible as int == f);
    assert forall|v: int| w.visible < v <= count implies #[trigger] window_room(room, a, v, count as int) < v by {
        assert(f < v <= count);
    }
}

/// The chip window for `count` tabs, `active` the active one, in a strip
/// with the given room. The window always holds the active tab, and its
/// start, its chips and the tabs hidden after it add up to `count`.
pub fn tab_chip_window(count: usize, active: usize, room: ChipRoom) -> (w: TabChipWindow)
    ensures
        w == chip_window_of(count as nat, active as nat, room),
        w.leading_hidden == w.start,
        w.start + w.visible + w.trailing_hidden == count,
        count > 0 ==> w.visible >= 1,
        count > 0 && active < count ==> w.start <= active < w.start + w.visible,
        count == 0 || room.all_natural ==> w.start == 0 && w.visible == count && w.chip_min_w
            == ChipWidth::Natural,
        count > 0 && !room.all_natural && room.all_floor ==> w.start == 0 && w.visible == count
            && w.chip_min_w == ChipWidth::Floor,
        count > 0 && !room.all_natural ==> w.chip_min_w == ChipWidth::Floor,
        count > 0 && !room.all_natural && !room.all_floor ==> {
            let a: int = if active < count - 1 { active as int } else { count - 1 };
            &&& w.visible == 1 || window_room(room, a, w.visible as int, count as int) >= w.visible
            &&& w.start == window_start(a, w.visible as int, count as int)
            &&& forall|v: int| w.visible < v <= count ==> #[trigger] window_room(room, a, v, count as int) < v
        },
{
    proof {
        if count > 0 && !room.all_natural && !room.all_floor {
            lemma_chip_window_is_the_widest_that_fits(count as nat, active as nat, room);
        }
    }
    if count == 0 || room.all_natural {
        return TabChipWindow {
            start: 0,
            visible: count,
            chip_min_w: ChipWidth::Natural,
            leading_hidden: 0,
            trailing_hidden: 0,
        };
    }
    if room.all_floor {
        return TabChipWindow {
            start: 0,
            visible: count,
            chip_min_w: ChipWidth::Floor,
            leading_hidden: 0,
            trailing_hidden: 0,
        };
    }
    let a: usize = if active < count - 1 { active } else { count - 1 };
    let mut visible: usize = count;
    loop
        invariant
            1 <= visible <= count,
            a < count,
            a == (if active < count - 1 { active as int } else { count - 1 }),
            !room.all_natural,
            !room.all_floor,
            fitting_visible(room, a as int, count as int, count as int) == fitting_visible(
                room,
                a as int,
                count as int,
                visible as int,
            ),
        decreases visible,
    {
        let start: usize = if a >= visible {
            let s = a + 1 - visible;
            if s < count - visible {
                s
            } else {
                count - visible
            }
        } else {
            0
        };
        assert(start == window_start(a as int, visible as int, count as int));
        let edges: usize = (if start > 0 { 1 } else { 0 }) + (if start + visible < count { 1 } else { 0 });
        let raw = if edges == 0 {
            room.bare
        } else if edges == 1 {
            room.one_edge
        } else {
            room.two_edges
        };
        let cap = if raw < 1 { 1 } else { raw };
        assert(cap == room_beside(room, edge_count(start as int, visible as int, count as int)));
        if cap >= visible || visible == 1 {
            proof {
                lemma_fitting_visible_widest(room, a as int, count as int, count as int);
                assert(fitting_visible(room, a as int, count as int, visible as int) == visible);
                assert forall|v: int| visible < v <= count implies #[trigger] window_room(
                    room,
                    a as int,
                    v,
                    count as int,
                ) < v by {
                    assert(fitting_visible(room, a as int, count as int, count as int) < v <= count);
                }
            }
            return TabChipWindow {
                start,
                visible,
                chip_min_w: ChipWidth::Floor,
                leading_hidden: start,
                trailing_hidden: count - start - visible,
            };
        }
        visible = visible - 1;
    }
}

// ------------------------------------------------------------- tab titles

/// Whether `c` occurs in `s`.
pub fn contains_char(s: &[char], c: char) -> (r: bool)
    ensures
        r == s@.contains(c),
{
    let mut i: usize = 0;
    while i < s.len()
        invariant
            i <= s@.len(),
            forall|j: int| 0 <= j < i ==> s@[j] != c,
        decreases s@.len() - i,
    {
        if s[i] == c {
            assert(s@[i as int] == c);
            return true;
        }
        i = i + 1;
    }
    false
}

/// The path part of a terminal title: what follows the first `:` when the
/// text before it names a user (holds an `@`), else the whole title.
pub open spec fn host_path(raw: Seq<char>) -> Seq<char> {
    match first_index(raw, ':') {
        Some(i) => if raw.take(i).contains('@') {
            raw.skip(i + 1)
        } else {
            raw
        },
        None => raw,
    }
}

fn host_path_exec(t: &[char]) -> (out: Vec<char>)
    ensures
        out@ == host_path(t@),
{
    let mut i: usize = 0;
    while i < t.len() && t[i] != ':'
        invariant
            i <= t@.len(),
            forall|j: int| 0 <= j < i ==> #[trigger] t@[j] != ':',
        decreases t@.len() - i,
    {
        i = i + 1;
    }
    if i == t.len() {
        proof {
            assert(!t@.contains(':'));
            lemma_first_index_absent(t@, ':');
            assert(t@.take(t@.len() as int) =~= t@);
        }
        return take_chars(t, t.len());
    }
    proof {
        lemma_first_index_found(t@, ':', i as int);
    }
    let head = take_chars(t, i);
    if contains_char(head.as_slice(), '@') {
        skip_chars(t, i + 1)
    } else {
        assert(t@.take(t@.len() as int) =~= t@);
        take_chars(t, t.len())
    }
}

/// The nonempty pieces of `s` between slashes that are closed, and the piece
/// still open at its end.
pub open spec fn split_state(s: Seq<char>) -> (Seq<Seq<char>>, Seq<char>)
    decreases s.len(),
{
    if s.len() == 0 {
        (Seq::empty(), Seq::empty())
    } else {
        let (done, open) = split_state(s.drop_last());
        if s.last() == '/' {
            if open.len() > 0 {
                (done.push(open), Seq::empty())
            } else {
                (done, Seq::empty())
            }
        } else {
            (done, open.push(s.last()))
        }
    }
}

/// The nonempty pieces of `s` between slashes (std's `split('/')` with the
/// empty pieces left out).
pub open spec fn path_segments(s: Seq<char>) -> Seq<Seq<char>> {
    let (done, open) = split_state(s);
    if open.len() > 0 {
        done.push(open)
    } else {
        done
    }
}

proof fn lemma_runs_view_push(runs: Seq<Vec<char>>, run: Vec<char>)
    ensures
        runs_view(runs.push(run)) == runs_view(runs).push(run@),
{
    assert(runs_view(runs.push(run)) =~= runs_view(runs).push(run@));
}

fn path_segments_exec(s: &[char]) -> (out: Vec<Vec<char>>)
    ensures
        runs_view(out@) == path_segments(s@),
{
    let mut done: Vec<Vec<char>> = Vec::new();
    let mut open: Vec<char> = Vec::new();
    let mut i: usize = 0;
    assert(runs_view(done@) =~= Seq::<Seq<char>>::empty());
    assert(s@.take(0) =~= Seq::<char>::empty());
    while i < s.len()
        invariant
            i <= s@.len(),
            split_state(s@.take(i as int)) == (runs_view(done@), open@),
        decreases s@.len() - i,
    {
        assert(s@.take(i + 1).drop_last() =~= s@.take(i as int));
        assert(s@.take(i + 1).last() == s@[i as int]);
        if s[i] == '/' {
            if open.len() > 0 {
                proof {
                    lemma_runs_view_push(done@, open);
                }
                done.push(open);
                open = Vec::new();
                assert(open@ =~= Seq::<char>::empty());
            } else {
                assert(open@ =~= Seq::<char>::empty());
            }
        } else {
            open.push(s[i]);
        }
        i = i + 1;
    }
    assert(s@.take(s@.len() as int) =~= s@);
    if open.len() > 0 {
        proof {
            lemma_runs_view_push(done@, open);
        }
        done.push(open);
    }
    done
}

/// How a path is anchored: under the home directory, at the root, or not.
#[derive(Clone, Copy, Debug, PartialEq, Eq, Structural)]
pub enum PathKind {
    Home,
    Absolute,
    Relative,
}

/// The anchor of `path` and what follows it.
pub open spec fn path_anchor(path: Seq<char>) -> (PathKind, Seq<char>) {
    if path.len() >= 2 && path[0] == '~' && path[1] == '/' {
        (PathKind::Home, path.skip(2))
    } else if path.len() > 0 && path[0] == '/' {
        (PathKind::Absolute, path.skip(1))
    } else {
        (PathKind::Relative, path)
    }
}

/// What a label starts with for a path of the given anchor that is shown in
/// full.
pub open spec fn anchor_prefix(kind: PathKind) -> Seq<char> {
    match kind {
        PathKind::Home => seq!['~', '/'],
        PathKind::Absolute => seq!['/'],
        PathKind::Relative => Seq::empty(),
    }
}

/// The label of a path that is already home-abbreviated: `~` stays `~`; a
/// path with no segment is its anchor alone; a path of more than three
/// levels (the home directory counts as one) shows `…/` and its last three
/// segments; any other path shows in full, slashes normalised.
pub open spec fn path_label(path: Seq<char>) -> Seq<char> {
    if path == seq!['~'] {
        seq!['~']
    } else {
        let (kind, body) = path_anchor(path);
        let segs = path_segments(body);
        if segs.len() == 0 {
            match kind {
                PathKind::Home => seq!['~'],
                PathKind::Absolute => seq!['/'],
                PathKind::Relative => Seq::empty(),
            }
        } else {
            let depth = segs.len() + if kind == PathKind::Home { 1int } else { 0int };
            if depth > 3 {
                seq!['…', '/'] + join(segs.skip(segs.len() - 3), seq!['/'])
            } else {
                anchor_prefix(kind) + join(segs, seq!['/'])
            }
        }
    }
}

/// A label of more than forty characters cut to its first forty and `…`.
pub open spec fn clamp_label(label: Seq<char>) -> Seq<char> {
    if label.len() > 40 {
        label.take(40).push('…')
    } else {
        label
    }
}

/// Leading whitespace goes only up to a part that holds something else.
proof fn lemma_trim_start_concat(x: Seq<char>, y: Seq<char>)
    requires
        exists|k: int| 0 <= k < x.len() && !char_whitespace(#[trigger] x[k]),
    ensures
        trim_start(x + y) == trim_start(x) + y,
    decreases x.len(),
{
    let k = choose|k: int| 0 <= k < x.len() && !char_whitespace(#[trigger] x[k]);
    if char_whitespace(x[0]) {
        let t = x.drop_first();
        assert(k > 0);
        assert(t[k - 1] == x[k]);
        assert((x + y).drop_first() =~= t + y);
        lemma_trim_start_concat(t, y);
    }
}

/// Trailing whitespace goes only back to a character that is not.
proof fn lemma_trim_end_after(x: Seq<char>, c: char, y: Seq<char>)
    requires
        !char_whitespace(c),
    ensures
        trim_end(x + seq![c] + y) == x + seq![c] + trim_end(y),
    decreases y.len(),
{
    if y.len() == 0 {
        assert(x + seq![c] + y =~= x + seq![c]);
        assert((x + seq![c]).last() == c);
    } else {
        assert((x + seq![c] + y).last() == y.last());
        if char_whitespace(y.last()) {
            assert((x + seq![c] + y).drop_last() =~= x + seq![c] + y.drop_last());
            lemma_trim_end_after(x, c, y.drop_last());
        }
    }
}

/// Trimming the front drops only leading characters: what was not there is
/// not there after, and a character that is not whitespace stays.
proof fn lemma_trim_start_keeps(x: Seq<char>, c: char)
    ensures
        !x.contains(c) ==> !trim_start(x).contains(c),
        x.contains(c) && !char_whitespace(c) ==> trim_start(x).contains(c),
    decreases x.len(),
{
    if x.len() > 0 && char_whitespace(x[0]) {
        let t = x.drop_first();
        lemma_trim_start_keeps(t, c);
        if !x.contains(c) {
            assert forall|k: int| 0 <= k < t.len() implies t[k] != c by {
                assert(t[k] == x[k + 1]);
            }
        }
        if x.contains(c) && !char_whitespace(c) {
            let k = choose|k: int| 0 <= k < x.len() && x[k] == c;
            assert(k > 0);
            assert(t[k - 1] == c);
        }
    }
}

/// The first place of a title that holds something other than whitespace,
/// and the end of its last such place: trim keeps exactly what lies
/// between.
proof fn lemma_trim_window(p: Seq<char>)
    ensures
        trim(trim_end(p)) == trim(p),
        trim(trim(p)) == trim(p),
        forall|c: char| !p.contains(c) ==> !trim(p).contains(c),
{
    let i = choose_lead(p);
    let j = choose_trail(p);
    lemma_trim_start_skip(p, i);
    lemma_trim_end_take(p, j);
    if i == p.len() {
        assert(j == 0) by {
            if j > 0 {
                assert(char_whitespace(p[j - 1]));
            }
        }
        assert(trim_start(p) =~= Seq::<char>::empty());
        assert(trim(p) =~= Seq::<char>::empty());
        assert(trim_end(p) =~= Seq::<char>::empty());
        assert(trim_start(Seq::<char>::empty()) =~= Seq::<char>::empty());
        assert(trim_end(Seq::<char>::empty()) =~= Seq::<char>::empty());
    } else {
        assert(i < j) by {
            if j <= i {
                assert(char_whitespace(p[i]));
            }
        }
        let w = p.subrange(i, j);
        let s1 = p.skip(i);
        assert forall|k: int| j - i <= k < s1.len() implies char_whitespace(#[trigger] s1[k]) by {
            assert(s1[k] == p[k + i]);
        }
        assert(s1[j - i - 1] == p[j - 1]);
        lemma_trim_end_take(s1, j - i);
        assert(s1.take(j - i) =~= w);
        let t1 = p.take(j);
        assert forall|k: int| 0 <= k < i implies char_whitespace(#[trigger] t1[k]) by {
            assert(t1[k] == p[k]);
        }
        assert(t1[i] == p[i]);
        lemma_trim_start_skip(t1, i);
        assert(t1.skip(i) =~= w);
        assert(w[0] == p[i]);
        assert(w[w.len() - 1] == p[j - 1]);
        lemma_trim_start_skip(w, 0);
        assert(w.skip(0) =~= w);
        lemma_trim_end_take(w, w.len() as int);
        assert(w.take(w.len() as int) =~= w);
        assert forall|c: char| !p.contains(c) implies !w.contains(c) by {
            if w.contains(c) {
                let k = choose|k: int| 0 <= k < w.len() && w[k] == c;
                assert(p[k + i] == c);
            }
        }
    }
}

/// Where the leading whitespace of `p` ends.
proof fn choose_lead(p: Seq<char>) -> (i: int)
    ensures
        0 <= i <= p.len(),
        forall|k: int| 0 <= k < i ==> char_whitespace(#[trigger] p[k]),
        i == p.len() || !char_whitespace(p[i]),
    decreases p.len(),
{
    if p.len() > 0 && char_whitespace(p[0]) {
        let t = p.drop_first();
        let r = choose_lead(t);
        assert forall|k: int| 0 <= k < r + 1 implies char_whitespace(#[trigger] p[k]) by {
            if k > 0 {
                assert(p[k] == t[k - 1]);
            }
        }
        if r < t.len() {
            assert(p[r + 1] == t[r]);
        }
        r + 1
    } else {
        0
    }
}

/// Where the trailing whitespace of `p` starts.
proof fn choose_trail(p: Seq<char>) -> (j: int)
    ensures
        0 <= j <= p.len(),
        forall|k: int| j <= k < p.len() ==> char_whitespace(#[trigger] p[k]),
        j == 0 || !char_whitespace(p[j - 1]),
    decreases p.len(),
{
    if p.len() > 0 && char_whitespace(p.last()) {
        let t = p.drop_last();
        let r = choose_trail(t);
        assert forall|k: int| r <= k < p.len() implies char_whitespace(#[trigger] p[k]) by {
            if k < t.len() {
                assert(p[k] == t[k]);
            }
        }
        if r > 0 {
            assert(p[r - 1] == t[r - 1]);
        }
        r
    } else {
        p.len() as int
    }
}

/// A `user@host:` prefix is dropped from a terminal title: when the user,
/// the host and the path hold no colon, the title with the prefix reads
/// as the path alone.
pub proof fn lemma_short_title_drops_user_host(
    u: Seq<char>,
    h: Seq<char>,
    p: Seq<char>,
    home: Option<Seq<char>>,
)
    requires
        !u.contains(':'),
        !h.contains(':'),
        !p.contains(':'),
    ensures
        short_title_of(u + seq!['@'] + h + seq![':'] + p, home) == short_title_of(p, home),
{
    let a = u + seq!['@'] + h;
    let raw = u + seq!['@'] + h + seq![':'] + p;
    assert(raw =~= a + (seq![':'] + p));
    assert(a[u.len() as int] == '@');
    assert(!char_whitespace('@'));
    assert(!char_whitespace(':'));
    lemma_trim_start_concat(a, seq![':'] + p);
    let a1 = trim_start(a);
    assert(a1 + (seq![':'] + p) =~= a1 + seq![':'] + p);
    lemma_trim_end_after(a1, ':', p);
    let t = a1 + seq![':'] + trim_end(p);
    assert(trim(raw) == t);
    assert(!a.contains(':')) by {
        if a.contains(':') {
            let k = choose|k: int| 0 <= k < a.len() && a[k] == ':';
            if k < u.len() {
                assert(u[k] == ':');
            } else if k > u.len() {
                assert(h[k - u.len() - 1] == ':');
            }
        }
    }
    assert(a.contains('@'));
    lemma_trim_start_keeps(a, ':');
    lemma_trim_start_keeps(a, '@');
    assert forall|k: int| 0 <= k < a1.len() implies #[trigger] t[k] != ':' by {
        assert(t[k] == a1[k]);
    }
    assert(t[a1.len() as int] == ':');
    lemma_first_index_found(t, ':', a1.len() as int);
    assert(t.take(a1.len() as int) =~= a1);
    assert(t.skip(a1.len() as int + 1) =~= trim_end(p));
    assert(host_path(t) == trim_end(p));
    assert(t.len() > 0);
    lemma_trim_window(p);
    let tp = trim(p);
    assert(!tp.contains(':'));
    lemma_first_index_absent(tp, ':');
    assert(host_path(tp) == tp);
}

/// The tab label of a terminal title, given the home directory.
pub open spec fn short_title_of(raw: Seq<char>, home: Option<Seq<char>>) -> Seq<char> {
    let t = trim(raw);
    if t.len() == 0 {
        Seq::empty()
    } else {
        let after = trim(host_path(t));
        if after.len() == 0 {
            Seq::empty()
        } else {
            clamp_label(path_label(abbreviate_home_of(after, home)))
        }
    }
}

fn path_label_exec(path: &[char]) -> (out: Vec<char>)
    ensures
        out@ == path_label(path@),
{
    if path.len() == 1 && path[0] == '~' {
        let mut out: Vec<char> = Vec::new();
        out.push('~');
        assert(path@ =~= seq!['~']);
        assert(out@ =~= seq!['~']);
        return out;
    }
    assert(path@ != seq!['~']) by {
        if path@ == seq!['~'] {
            assert(path@.len() == 1 && path@[0] == '~');
        }
    }
    let ghost anchored = path_anchor(path@);
    let home = path.len() >= 2 && path[0] == '~' && path[1] == '/';
    let kind: PathKind;
    let body: Vec<char>;
    if home {
        kind = PathKind::Home;
        body = skip_chars(path, 2);
    } else if path.len() > 0 && path[0] == '/' {
        kind = PathKind::Absolute;
        body = skip_chars(path, 1);
    } else {
        kind = PathKind::Relative;
        assert(path@.take(path@.len() as int) =~= path@);
        body = take_chars(path, path.len());
    }
    assert(anchored == (kind, body@));
    let mut segs = path_segments_exec(body.as_slice());
    let ghost all = runs_view(segs@);
    if segs.len() == 0 {
        let mut out: Vec<char> = Vec::new();
        match kind {
            PathKind::Home => {
                out.push('~');
                assert(out@ =~= seq!['~']);
            },
            PathKind::Absolute => {
                out.push('/');
                assert(out@ =~= seq!['/']);
            },
            PathKind::Relative => {
                assert(out@ =~= Seq::<char>::empty());
            },
        }
        return out;
    }
    let extra: usize = if home { 1 } else { 0 };
    if segs.len() > 3 - extra {
        let ghost full = runs_view(segs@);
        let mut dropped: usize = 0;
        let total = segs.len();
        while segs.len() > 3
            invariant
                total == full.len(),
                segs@.len() >= 3,
                dropped + segs@.len() == total,
                runs_view(segs@) == full.skip(dropped as int),
            decreases segs@.len(),
        {
            let ghost before = segs@;
            segs.remove(0);
            dropped = dropped + 1;
            assert forall|k: int| 0 <= k < segs@.len() implies #[trigger] runs_view(segs@)[k]
                == full.skip(dropped as int)[k] by {
                assert(segs@[k] == before[k + 1]);
                assert(runs_view(before)[k + 1] == full.skip(dropped - 1)[k + 1]);
            }
            assert(runs_view(segs@) =~= full.skip(dropped as int));
        }
        let joined = join_chars(segs.as_slice(), &['/']);
        let mut out: Vec<char> = Vec::new();
        out.push('…');
        out.push('/');
        extend_chars(&mut out, joined.as_slice());
        proof {
            assert(dropped == full.len() - 3);
            assert(full.skip(dropped as int) == full.skip(full.len() - 3));
            assert(seq!['/'] =~= [ '/' ]@);
            assert(out@ =~= seq!['…', '/'] + join(full.skip(full.len() - 3), seq!['/']));
        }
        return out;
    }
    let joined = join_chars(segs.as_slice(), &['/']);
    let mut out: Vec<char> = Vec::new();
    match kind {
        PathKind::Home => {
            out.push('~');
            out.push('/');
        },
        PathKind::Absolute => {
            out.push('/');
        },
        PathKind::Relative => {},
    }
    assert(out@ =~= anchor_prefix(kind));
    extend_chars(&mut out, joined.as_slice());
    proof {
        assert(seq!['/'] =~= ['/']@);
    }
    out
}

fn clamp_label_exec(label: Vec<char>) -> (out: Vec<char>)
    ensures
        out@ == clamp_label(label@),
{
    if label.len() > 40 {
        let mut out = take_chars(label.as_slice(), 40);
        out.push('…');
        out
    } else {
        label
    }
}

/// The tab label of a terminal title. Whitespace round the title is
/// dropped; a `user@host:` prefix is dropped; the home directory `home` is
/// written as `~`; deep paths keep their last three segments after `…/`; a
/// label longer than forty characters is cut to forty and `…`.
pub fn short_title(raw: &str, home: Option<&str>) -> (out: String)
    ensures
        out@ == short_title_of(raw@, match home {
            Some(h) => Some(h@),
            None => None,
        }),
        out@.len() <= 41,
{
    let chars = chars_of(raw);
    let t = trim_chars(chars.as_slice());
    if t.len() == 0 {
        return String::new();
    }
    let hp = host_path_exec(t.as_slice());
    let after = trim_chars(hp.as_slice());
    if after.len() == 0 {
        return String::new();
    }
    let abbreviated = match home {
        Some(h) => {
            let hc = chars_of(h);
            abbreviate_home(after.as_slice(), Some(hc.as_slice()))
        },
        None => abbreviate_home(after.as_slice(), None),
    };
    let label = path_label_exec(abbreviated.as_slice());
    let clamped = clamp_label_exec(label);
    string_of(clamped.as_slice())
}

// ---------------------------------------------------------------- chrome

/// The glyph of the environment indicator: it follows the window's
/// environment, remote or local, and nothing else.
pub open spec fn environment_icon_of(is_remote: bool) -> Seq<char> {
    if is_remote {
        "icons/machine-remote.svg"@
    } else {
        "icons/machine-local.svg"@
    }
}

/// The glyph of the environment indicator.
pub fn environment_indicator_icon(is_remote: bool) -> (icon: &'static str)
    ensures
        icon@ == environment_icon_of(is_remote),
{
    if is_remote {
        "icons/machine-remote.svg"
    } else {
        "icons/machine-local.svg"
    }
}

/// How a tab chip is drawn: the active tab is an elevated surface with an
/// accent indicator; inactive tabs are flat.
#[derive(Clone, Copy, Debug, PartialEq, Eq, Structural)]
pub struct TabChipHierarchy {
    pub elevated: bool,
    pub indicator: bool,
}

/// How a tab chip is drawn.
pub fn tab_chip_hierarchy(is_active: bool) -> (h: TabChipHierarchy)
    ensures
        h.elevated == is_active,
        h.indicator == is_active,
{
    TabChipHierarchy { elevated: is_active, indicator: is_active }
}

/// The workspace-selection shortcut for the workspace at `index`: the
/// first nine workspaces have one, numbered from one.
pub fn select_workspace_action(index: usize) -> (slot: Option<u8>)
    ensures
        index < 9 ==> slot == Some((index + 1) as u8),
        index >= 9 ==> slot is None,
{
    if index < 9 {
        Some((index + 1) as u8)
    } else {
        None
    }
}

/// Where a title-bar chrome action is anchored.
#[derive(Clone, Copy, Debug, PartialEq, Eq, Structural)]
pub enum TitlebarChromeAnchor {
    ContentLeading,
    ContentTrailing,
    WindowChrome,
}

/// The anchor of each title-bar chrome action: the environment indicator
/// leads the content bar, the command palette trails it, the settings sit
/// in the window chrome; any other action has none.
pub open spec fn chrome_anchor_of(action: Seq<char>) -> Option<TitlebarChromeAnchor> {
    if action == "environment"@ {
        Some(TitlebarChromeAnchor::ContentLeading)
    } else if action == "command_palette"@ {
        Some(TitlebarChromeAnchor::ContentTrailing)
    } else if action == "settings"@ {
        Some(TitlebarChromeAnchor::WindowChrome)
    } else {
        None
    }
}

/// Where a title-bar chrome action is anchored.
pub fn titlebar_chrome_anchor(action: &str) -> (anchor: Option<TitlebarChromeAnchor>)
    ensures
        anchor == chrome_anchor_of(action@),
{
    if crate::text::str_eq(action, "environment") {
        Some(TitlebarChromeAnchor::ContentLeading)
    } else if crate::text::str_eq(action, "command_palette") {
        Some(TitlebarChromeAnchor::ContentTrailing)
    } else if crate::text::str_eq(action, "settings") {
        Some(TitlebarChromeAnchor::WindowChrome)
    } else {
        None
    }
}

// --------------------------------------------------------------- sidebar

/// The settings the sidebar reads.
pub struct Config {
    /// Whether a tab's diff counts open the diff preview.
    pub sidebar_diff_preview: bool,
}

impl Default for Config {
    fn default() -> (cfg: Self)
        ensures
            cfg.sidebar_diff_preview,
    {
        Config { sidebar_diff_preview: true }
    }
}

/// What a click on a tab's diff counts opens: the repository given, when
/// the setting allows a preview at all.
pub fn diff_click_cwd<T>(cfg: &Config, target: Option<T>) -> (opens: Option<T>)
    ensures
        opens == (if cfg.sidebar_diff_preview { target } else { None }),
{
    if cfg.sidebar_diff_preview {
        target
    } else {
        None
    }
}

/// The texts a sidebar search looks at for one tab: its label, the title of
/// its leaf, and its git branch when it is in a repository.
pub struct SidebarTabText {
    pub label: String,
    pub leaf_title: String,
    pub branch: Option<String>,
}

/// A tab stays in the sidebar for a (lowercase) query when the query is
/// empty or its label, its leaf's title or its branch, lowercased, holds it.
pub open spec fn sidebar_tab_matches(t: SidebarTabText, query: Seq<char>) -> bool {
    query.len() == 0 || contains_seq(lowercase(t.label@), query) || contains_seq(
        lowercase(t.leaf_title@),
        query,
    ) || match t.branch {
        Some(b) => contains_seq(lowercase(b@), query),
        None => false,
    }
}

/// The positions of the tabs that stay in the sidebar, in order.
pub open spec fn sidebar_visible_of(tabs: Seq<SidebarTabText>, query: Seq<char>) -> Seq<usize>
    decreases tabs.len(),
{
    if tabs.len() == 0 {
        Seq::empty()
    } else {
        let before = sidebar_visible_of(tabs.drop_last(), query);
        if sidebar_tab_matches(tabs.last(), query) {
            before.push((tabs.len() - 1) as usize)
        } else {
            before
        }
    }
}

/// The sidebar keeps exactly the tabs that hold the query, each once and in
/// tab order: every kept position names a tab that holds it, positions
/// rise, and every tab that holds it is kept.
pub proof fn lemma_sidebar_keeps_the_matching_tabs(tabs: Seq<SidebarTabText>, query: Seq<char>)
    requires
        tabs.len() <= usize::MAX,
    ensures
        ({
            let shown = sidebar_visible_of(tabs, query);
            &&& forall|k: int| 0 <= k < shown.len() ==> (#[trigger] shown[k] as int) < tabs.len()
            &&& forall|k: int| 0 <= k < shown.len() ==> sidebar_tab_matches(tabs[#[trigger] shown[k] as int], query)
            &&& forall|a: int, b: int| 0 <= a < b < shown.len() ==> #[trigger] shown[a] < #[trigger] shown[b]
            &&& forall|i: int|
                0 <= i < tabs.len() && #[trigger] sidebar_tab_matches(tabs[i], query) ==> shown.contains(i as usize)
        }),
    decreases tabs.len(),
{
    if tabs.len() > 0 {
        let r = tabs.drop_last();
        lemma_sidebar_keeps_the_matching_tabs(r, query);
        let before = sidebar_visible_of(r, query);
        let shown = sidebar_visible_of(tabs, query);
        assert forall|k: int| 0 <= k < before.len() implies sidebar_tab_matches(tabs[#[trigger] before[k] as int], query) by {
            assert(tabs[before[k] as int] == r[before[k] as int]);
        }
        assert forall|i: int| 0 <= i < tabs.len() && #[trigger] sidebar_tab_matches(tabs[i], query) implies shown.contains(
            i as usize,
        ) by {
            if i == tabs.len() - 1 {
                assert(shown[shown.len() - 1] == i as usize);
            } else {
                assert(r[i] == tabs[i]);
                assert(before.contains(i as usize));
                let k = choose|k: int| 0 <= k < before.len() && before[k] == i as usize;
                assert(shown[k] == i as usize);
            }
        }
    }
}

/// The positions of the tabs that stay in the sidebar for a (lowercase)
/// query.
pub fn sidebar_visible_tabs(tabs: &[SidebarTabText], query: &str) -> (shown: Vec<usize>)
    ensures
        shown@ == sidebar_visible_of(tabs@, query@),
        forall|k: int| 0 <= k < shown@.len() ==> (#[trigger] shown@[k] as int) < tabs@.len(),
        forall|k: int| 0 <= k < shown@.len() ==> sidebar_tab_matches(tabs@[#[trigger] shown@[k] as int], query@),
        forall|a: int, b: int| 0 <= a < b < shown@.len() ==> #[trigger] shown@[a] < #[trigger] shown@[b],
        forall|i: int|
            0 <= i < tabs@.len() && #[trigger] sidebar_tab_matches(tabs@[i], query@) ==> shown@.contains(i as usize),
{
    let tab_count: usize = tabs.len();
    proof {
        assert(tabs@.len() == tab_count);
        lemma_sidebar_keeps_the_matching_tabs(tabs@, query@);
    }
    let mut shown: Vec<usize> = Vec::new();
    let mut i: usize = 0;
    assert(tabs@.take(0) =~= Seq::<SidebarTabText>::empty());
    while i < tabs.len()
        invariant
            i <= tabs@.len(),
            shown@ == sidebar_visible_of(tabs@.take(i as int), query@),
        decreases tabs@.len() - i,
    {
        assert(tabs@.take(i + 1).drop_last() =~= tabs@.take(i as int));
        assert(tabs@.take(i + 1).last() == tabs@[i as int]);
        let t = &tabs[i];
        let hit = query.unicode_len() == 0 || lower_contains(t.label.as_str(), query) || lower_contains(
            t.leaf_title.as_str(),
            query,
        ) || match &t.branch {
            Some(b) => lower_contains(b.as_str(), query),
            None => false,
        };
        if hit {
            shown.push(i);
        }
        i = i + 1;
    }
    assert(tabs@.take(tabs@.len() as int) =~= tabs@);
    shown
}

/// The rows the sidebar draws under its machine: none while the machine is
/// folded (`expanded` false), else the tabs the query keeps.
pub open spec fn sidebar_drawn_of(tabs: Seq<SidebarTabText>, query: Seq<char>, expanded: bool) -> Seq<usize> {
    if expanded {
        sidebar_visible_of(tabs, query)
    } else {
        Seq::empty()
    }
}

/// The rows the sidebar draws for a (lowercase) query under the machine
/// keyed `machine_key` of the rail (this computer's key is empty): a
/// search shows the tabs it keeps even on a folded machine; with no search
/// a folded machine shows none.
pub fn sidebar_drawn_rows(tabs: &[SidebarTabText], query: &str, rail: &MachineRail, machine_key: &str) -> (drawn: Vec<
    usize,
>)
    ensures
        drawn@ == sidebar_drawn_of(tabs@, query@, rail.expanded_of(machine_key@, query@.len() > 0)),
{
    let searching = query.unicode_len() > 0;
    if rail.expanded(machine_key, searching) {
        sidebar_visible_tabs(tabs, query)
    } else {
        Vec::new()
    }
}

proof fn lemma_sidebar_visible_members(tabs: Seq<SidebarTabText>, query: Seq<char>)
    requires
        tabs.len() <= usize::MAX,
    ensures
        forall|k: int| 0 <= k < sidebar_visible_of(tabs, query).len() ==> (#[trigger] sidebar_visible_of(tabs, query)[k])
            < tabs.len(),
        forall|i: int|
            0 <= i < tabs.len() ==> (sidebar_visible_of(tabs, query).contains(i as usize) <==> sidebar_tab_matches(
                #[trigger] tabs[i],
                query,
            )),
    decreases tabs.len(),
{
    if tabs.len() > 0 {
        let d = tabs.drop_last();
        lemma_sidebar_visible_members(d, query);
        let before = sidebar_visible_of(d, query);
        let now = sidebar_visible_of(tabs, query);
        let last = (tabs.len() - 1) as usize;
        assert forall|k: int| 0 <= k < now.len() implies (#[trigger] now[k]) < tabs.len() by {
            if k < before.len() {
                assert(now[k] == before[k]);
            }
        }
        assert forall|i: int| 0 <= i < tabs.len() implies (now.contains(i as usize) <==> sidebar_tab_matches(
            #[trigger] tabs[i],
            query,
        )) by {
            if i < d.len() {
                assert(d[i] == tabs[i]);
                assert(before.contains(i as usize) ==> now.contains(i as usize)) by {
                    if before.contains(i as usize) {
                        let k = choose|k: int| 0 <= k < before.len() && before[k] == i as usize;
                        assert(now[k] == before[k]);
                    }
                }
                assert(now.contains(i as usize) ==> before.contains(i as usize)) by {
                    if now.contains(i as usize) {
                        let k = choose|k: int| 0 <= k < now.len() && now[k] == i as usize;
                        if k < before.len() {
                            assert(now[k] == before[k]);
                        } else {
                            assert(now[k] == last);
                        }
                    }
                }
            } else {
                assert(tabs[i] == tabs.last());
                if sidebar_tab_matches(tabs.last(), query) {
                    assert(now[now.len() - 1] == last);
                } else {
                    assert(!before.contains(last)) by {
                        if before.contains(last) {
                            let k = choose|k: int| 0 <= k < before.len() && before[k] == last;
                        }
                    }
                }
            }
        }
    }
}

/// Folding this computer's machine takes its rows off the sidebar and a
/// search outranks the fold: row `i` is drawn exactly when there is no
/// search and the machine is not folded, or there is a search and the
/// tab's label, leaf title or branch holds it; nothing but tab positions
/// is drawn. Nothing else is read, so the active tab is hidden by a fold
/// like any other.
pub proof fn lemma_fold_takes_rows_off_the_sidebar(
    tabs: Seq<SidebarTabText>,
    query: Seq<char>,
    rail: MachineRail,
    i: int,
)
    requires
        tabs.len() <= usize::MAX,
        0 <= i < tabs.len(),
    ensures
        ({
            let folded = rail.folded().contains(Seq::<char>::empty());
            let drawn = sidebar_drawn_of(tabs, query, rail.expanded_of(Seq::<char>::empty(), query.len() > 0));
            &&& forall|k: int| 0 <= k < drawn.len() ==> #[trigger] drawn[k] < tabs.len()
            &&& drawn.contains(i as usize) <==> ((query.len() == 0 && !folded) || (query.len() > 0
                && sidebar_tab_matches(tabs[i], query)))
        }),
{
    lemma_sidebar_visible_members(tabs, query);
    let folded = rail.folded().contains(Seq::<char>::empty());
    let expanded = rail.expanded_of(Seq::<char>::empty(), query.len() > 0);
    let drawn = sidebar_drawn_of(tabs, query, expanded);
    let v = sidebar_visible_of(tabs, query);
    assert(v.contains(i as usize) <==> sidebar_tab_matches(tabs[i], query));
    if expanded {
        assert(drawn == v);
        assert(query.len() == 0 ==> !folded);
    } else {
        assert(query.len() == 0 && folded);
        assert(drawn =~= Seq::<usize>::empty());
        if drawn.contains(i as usize) {
            let k = choose|k: int| 0 <= k < drawn.len() && drawn[k] == i as usize;
        }
    }
}

/// Whether a pending sidebar drag may still be applied on release: the tab
/// bar is still on the left, the window's tabs are still the ones, in the
/// order, the drag started with, and the search still shows the same rows.
pub fn sidebar_reorder_still_valid(
    bar_on_left: bool,
    drag_tabs: &[TabId],
    tabs: &[TabId],
    drag_visible: &[usize],
    visible: &[usize],
) -> (valid: bool)
    ensures
        valid == (bar_on_left && drag_tabs@ == tabs@ && drag_visible@ == visible@),
{
    if !bar_on_left || drag_tabs.len() != tabs.len() || drag_visible.len() != visible.len() {
        return false;
    }
    let mut i: usize = 0;
    while i < tabs.len()
        invariant
            drag_tabs@.len() == tabs@.len(),
            i <= tabs@.len(),
            forall|j: int| 0 <= j < i ==> drag_tabs@[j] == tabs@[j],
        decreases tabs@.len() - i,
    {
        if drag_tabs[i] != tabs[i] {
            return false;
        }
        i = i + 1;
    }
    assert(drag_tabs@ =~= tabs@);
    let mut k: usize = 0;
    while k < visible.len()
        invariant
            drag_visible@.len() == visible@.len(),
            drag_tabs@ == tabs@,
            k <= visible@.len(),
            forall|j: int| 0 <= j < k ==> drag_visible@[j] == visible@[j],
        decreases visible@.len() - k,
    {
        if drag_visible[k] != visible[k] {
            return false;
        }
        k = k + 1;
    }
    assert(drag_visible@ =~= visible@);
    true
}

/// What the sidebar's hover card says of a tab: the full title, branch
/// (with its diff counts) and working directory where the row cut them
/// short, and the host the tab's pane is on.
pub struct SidebarInfo {
    pub title: Option<String>,
    pub branch: Option<(String, u32, u32)>,
    pub cwd: Option<String>,
    pub host: Option<String>,
}

/// The full text, when the shown text is not all of it.
pub open spec fn elided_of(pair: Option<(Seq<char>, Seq<char>)>) -> Option<Seq<char>> {
    match pair {
        Some((shown, full)) => if shown != full {
            Some(full)
        } else {
            None
        },
        None => None,
    }
}

fn elided(pair: &Option<(String, String)>) -> (full: Option<String>)
    ensures
        opt_view(full) == elided_of(match pair {
            Some((a, b)) => Some((a@, b@)),
            None => None,
        }),
{
    match pair {
        Some((shown, full)) => if !str_eq(shown.as_str(), full.as_str()) {
            Some(full.clone())
        } else {
            None
        },
        None => None,
    }
}

/// The hover card of a sidebar row, from what the row shows (the shown and
/// the full title, branch and working directory) and the host of the tab's
/// pane; nothing when the card would be empty.
pub fn sidebar_info(
    title: &Option<(String, String)>,
    branch: &Option<(String, String, u32, u32)>,
    cwd: &Option<(String, String)>,
    host: Option<String>,
) -> (info: Option<SidebarInfo>)
    ensures
        ({
            let t = elided_of(match title {
                Some((a, b)) => Some((a@, b@)),
                None => None,
            });
            let c = elided_of(match cwd {
                Some((a, b)) => Some((a@, b@)),
                None => None,
            });
            let br: Option<(Seq<char>, u32, u32)> = match branch {
                Some((shown, full, added, removed)) => if shown@ != full@ {
                    Some((full@, *added, *removed))
                } else {
                    None
                },
                None => None,
            };
            let any = t is Some || br is Some || c is Some || host is Some;
            &&& any ==> (info matches Some(i) && opt_view(i.title) == t && opt_view(i.cwd) == c
                && opt_view(i.host) == opt_view(host) && match i.branch {
                Some((f, a, r)) => br == Some((f@, a, r)),
                None => br is None,
            })
            &&& !any ==> info is None
        }),
{
    let t = elided(title);
    let c = elided(cwd);
    let br = match branch {
        Some((shown, full, added, removed)) => if !str_eq(shown.as_str(), full.as_str()) {
            Some((full.clone(), *added, *removed))
        } else {
            None
        },
        None => None,
    };
    if t.is_some() || br.is_some() || c.is_some() || host.is_some() {
        Some(SidebarInfo { title: t, branch: br, cwd: c, host })
    } else {
        None
    }
}

// ------------------------------------------------------- environment chip

/// What the remote link of this window's workspace reports.
pub enum RemoteStatus {
    Attached,
    Connecting,
    Reconnecting { attempt: u32 },
    Failed(String),
    Preempted,
    Disconnected,
}

/// The name the environment indicator shows.
#[derive(Debug, PartialEq, Eq)]
pub enum EnvironmentLabel {
    /// This computer.
    ThisComputer,
    /// A remote machine, by the name given.
    Remote(String),
}

/// The state line of the environment indicator.
#[derive(Debug, PartialEq, Eq)]
pub enum EnvironmentState {
    /// This computer's own environment.
    Local,
    /// Attached over SSH.
    Ssh,
    Connecting,
    /// The link failed; the reason is shown as it came.
    AuthError(String),
    Disconnected,
}

/// The environment indicator: its name, its state line, the colour of its
/// dot and its glyph.
#[derive(Debug, PartialEq, Eq)]
pub struct EnvironmentIndicator {
    pub label: EnvironmentLabel,
    pub state: EnvironmentState,
    pub dot: u32,
    pub icon: &'static str,
}

/// The green of a live link.
pub const LIVE_DOT: u32 = 0x22C55E;
/// The grey of an unknown link.
pub const UNKNOWN_DOT: u32 = 0x9AA0A6;
/// The amber of a link being made.
pub const CONNECTING_DOT: u32 = 0xEAB308;
/// The red of a failed link.
pub const FAILED_DOT: u32 = 0xEF4444;

/// The environment indicator of a window. `remote` is how the window's
/// remote target spells itself, for a window on a remote machine;
/// `remote_label` is the configured name of that machine, when there is
/// one. The state and dot follow the link: attached is SSH and green,
/// connecting or reconnecting is amber, a failure shows its reason in red,
/// anything else is disconnected and grey. The glyph follows the
/// environment alone.
pub fn environment_indicator_state(
    remote: Option<String>,
    remote_label: Option<String>,
    status: Option<&RemoteStatus>,
) -> (ind: EnvironmentIndicator)
    ensures
        remote is None ==> ind.label == EnvironmentLabel::ThisComputer && ind.state
            == EnvironmentState::Local && ind.dot == LIVE_DOT && ind.icon@ == environment_icon_of(false),
        remote matches Some(spelling) ==> {
            &&& ind.icon@ == environment_icon_of(true)
            &&& ind.label matches EnvironmentLabel::Remote(l) && l@ == match remote_label {
                Some(n) => n@,
                None => spelling@,
            }
            &&& match status {
                Some(RemoteStatus::Attached) => ind.state == EnvironmentState::Ssh && ind.dot == LIVE_DOT,
                Some(RemoteStatus::Connecting) | Some(RemoteStatus::Reconnecting { .. }) => ind.state
                    == EnvironmentState::Connecting && ind.dot == CONNECTING_DOT,
                Some(RemoteStatus::Failed(e)) => ind.state matches EnvironmentState::AuthError(r) && r@
                    == e@ && ind.dot == FAILED_DOT,
                _ => ind.state == EnvironmentState::Disconnected && ind.dot == UNKNOWN_DOT,
            }
        },
{
    let spelling = match remote {
        None => {
            return EnvironmentIndicator {
                label: EnvironmentLabel::ThisComputer,
                state: EnvironmentState::Local,
                dot: LIVE_DOT,
                icon: environment_indicator_icon(false),
            };
        },
        Some(s) => s,
    };
    let (state, dot) = match status {
        Some(RemoteStatus::Attached) => (EnvironmentState::Ssh, LIVE_DOT),
        Some(RemoteStatus::Connecting) | Some(RemoteStatus::Reconnecting { .. }) => (
            EnvironmentState::Connecting,
            CONNECTING_DOT,
        ),
        Some(RemoteStatus::Failed(e)) => (EnvironmentState::AuthError(e.clone()), FAILED_DOT),
        _ => (EnvironmentState::Disconnected, UNKNOWN_DOT),
    };
    let label = match remote_label {
        Some(n) => n,
        None => spelling,
    };
    EnvironmentIndicator {
        label: EnvironmentLabel::Remote(label),
        state,
        dot,
        icon: environment_indicator_icon(true),
    }
}

/// A machine offered in the environment menu: the environment it opens,
/// its name, its detail line, and the selector its row carries.
pub struct EnvironmentHost {
    pub environment: String,
    pub label: String,
    pub detail: String,
    pub selector: String,
}

/// A row of the environment menu: its text, its selector, and whether it
/// is the window's own environment (and so disabled).
pub struct EnvironmentMenuRow {
    pub text: String,
    pub selector: String,
    pub current: bool,
}

/// The text of a machine's row: its name, and its detail after `  ·  `
/// when the detail is not blank.
pub open spec fn host_row_text(label: Seq<char>, detail: Seq<char>) -> Seq<char> {
    if trim(detail).len() == 0 {
        label
    } else {
        label + "  ·  "@ + detail
    }
}

/// The machines of the environment menu, the first of each environment,
/// in order.
pub open spec fn distinct_hosts(hosts: Seq<EnvironmentHost>, seen: Set<Seq<char>>) -> Seq<EnvironmentHost>
    decreases hosts.len(),
{
    if hosts.len() == 0 {
        Seq::empty()
    } else if seen.contains(hosts[0].environment@) {
        distinct_hosts(hosts.drop_first(), seen)
    } else {
        seq![hosts[0]] + distinct_hosts(hosts.drop_first(), seen.insert(hosts[0].environment@))
    }
}

/// `hosts[i]` is the first host of its environment.
pub open spec fn first_of_its_environment(hosts: Seq<EnvironmentHost>, i: int) -> bool {
    forall|j: int| 0 <= j < i ==> (#[trigger] hosts[j]).environment@ != hosts[i].environment@
}

proof fn lemma_distinct_hosts_distinct(hosts: Seq<EnvironmentHost>, seen: Set<Seq<char>>)
    ensures
        forall|a: int, b: int|
            0 <= a < b < distinct_hosts(hosts, seen).len() ==> (#[trigger] distinct_hosts(hosts, seen)[a]).environment@
                != (#[trigger] distinct_hosts(hosts, seen)[b]).environment@,
        forall|k: int|
            0 <= k < distinct_hosts(hosts, seen).len() ==> !seen.contains(
                (#[trigger] distinct_hosts(hosts, seen)[k]).environment@,
            ),
    decreases hosts.len(),
{
    if hosts.len() > 0 {
        let h = hosts[0];
        let t = hosts.drop_first();
        let d = distinct_hosts(hosts, seen);
        if seen.contains(h.environment@) {
            lemma_distinct_hosts_distinct(t, seen);
            assert(d == distinct_hosts(t, seen));
        } else {
            let s2 = seen.insert(h.environment@);
            let rest = distinct_hosts(t, s2);
            lemma_distinct_hosts_distinct(t, s2);
            assert(d == seq![h] + rest);
            assert forall|k: int| 0 <= k < d.len() implies !seen.contains((#[trigger] d[k]).environment@) by {
                if k > 0 {
                    assert(d[k] == rest[k - 1]);
                }
            }
            assert forall|a: int, b: int|
                0 <= a < b < d.len() implies (#[trigger] d[a]).environment@ != (#[trigger] d[b]).environment@ by {
                assert(d[b] == rest[b - 1]);
                if a > 0 {
                    assert(d[a] == rest[a - 1]);
                } else {
                    assert(!s2.contains(rest[b - 1].environment@));
                }
            }
        }
    }
}

proof fn lemma_distinct_hosts_first(hosts: Seq<EnvironmentHost>, seen: Set<Seq<char>>)
    ensures
        forall|k: int|
            0 <= k < distinct_hosts(hosts, seen).len() ==> exists|i: int|
                0 <= i < hosts.len() && #[trigger] hosts[i] == #[trigger] distinct_hosts(hosts, seen)[k]
                    && first_of_its_environment(hosts, i),
    decreases hosts.len(),
{
    if hosts.len() > 0 {
        let h = hosts[0];
        let t = hosts.drop_first();
        let d = distinct_hosts(hosts, seen);
        lemma_distinct_hosts_distinct(hosts, seen);
        if seen.contains(h.environment@) {
            lemma_distinct_hosts_first(t, seen);
            assert(d == distinct_hosts(t, seen));
            assert forall|k: int| 0 <= k < d.len() implies exists|i: int|
                0 <= i < hosts.len() && #[trigger] hosts[i] == #[trigger] d[k] && first_of_its_environment(hosts, i) by {
                let i = choose|i: int| 0 <= i < t.len() && #[trigger] t[i] == d[k] && first_of_its_environment(t, i);
                assert(hosts[i + 1] == t[i]);
                assert(!seen.contains(d[k].environment@));
                assert forall|j: int| 0 <= j < i + 1 implies (#[trigger] hosts[j]).environment@ != hosts[i
                    + 1].environment@ by {
                    if j > 0 {
                        assert(hosts[j] == t[j - 1]);
                    }
                }
            }
        } else {
            let s2 = seen.insert(h.environment@);
            let rest = distinct_hosts(t, s2);
            lemma_distinct_hosts_first(t, s2);
            lemma_distinct_hosts_distinct(t, s2);
            assert(d == seq![h] + rest);
            assert forall|k: int| 0 <= k < d.len() implies exists|i: int|
                0 <= i < hosts.len() && #[trigger] hosts[i] == #[trigger] d[k] && first_of_its_environment(hosts, i) by {
                if k == 0 {
                    assert(hosts[0] == d[0]);
                    assert(first_of_its_environment(hosts, 0));
                } else {
                    assert(d[k] == rest[k - 1]);
                    let i = choose|i: int|
                        0 <= i < t.len() && #[trigger] t[i] == rest[k - 1] && first_of_its_environment(t, i);
                    assert(hosts[i + 1] == t[i]);
                    assert(!s2.contains(rest[k - 1].environment@));
                    assert forall|j: int| 0 <= j < i + 1 implies (#[trigger] hosts[j]).environment@ != hosts[i
                        + 1].environment@ by {
                        if j > 0 {
                            assert(hosts[j] == t[j - 1]);
                        }
                    }
                }
            }
        }
    }
}

proof fn lemma_distinct_hosts_cover(hosts: Seq<EnvironmentHost>, seen: Set<Seq<char>>)
    ensures
        forall|i: int|
            0 <= i < hosts.len() && !seen.contains((#[trigger] hosts[i]).environment@) ==> exists|k: int|
                0 <= k < distinct_hosts(hosts, seen).len() && (#[trigger] distinct_hosts(hosts, seen)[k]).environment@
                    == hosts[i].environment@,
    decreases hosts.len(),
{
    if hosts.len() > 0 {
        let h = hosts[0];
        let t = hosts.drop_first();
        let d = distinct_hosts(hosts, seen);
        if seen.contains(h.environment@) {
            lemma_distinct_hosts_cover(t, seen);
            assert(d == distinct_hosts(t, seen));
            assert forall|i: int|
                0 <= i < hosts.len() && !seen.contains((#[trigger] hosts[i]).environment@) implies exists|k: int|
                0 <= k < d.len() && (#[trigger] d[k]).environment@ == hosts[i].environment@ by {
                assert(i > 0);
                assert(t[i - 1] == hosts[i]);
            }
        } else {
            let s2 = seen.insert(h.environment@);
            let rest = distinct_hosts(t, s2);
            lemma_distinct_hosts_cover(t, s2);
            assert(d == seq![h] + rest);
            assert forall|i: int|
                0 <= i < hosts.len() && !seen.contains((#[trigger] hosts[i]).environment@) implies exists|k: int|
                0 <= k < d.len() && (#[trigger] d[k]).environment@ == hosts[i].environment@ by {
                if i == 0 || hosts[i].environment@ == h.environment@ {
                    assert(d[0] == h);
                } else {
                    assert(t[i - 1] == hosts[i]);
                    assert(!s2.contains(t[i - 1].environment@));
                    let k = choose|k: int| 0 <= k < rest.len() && (#[trigger] rest[k]).environment@ == t[i - 1].environment@;
                    assert(d[k + 1] == rest[k]);
                }
            }
        }
    }
}

/// The environment menu lists each environment once, by the first of its
/// hosts: no two entries share an environment, each entry is a host that
/// comes before every other host of its environment, and every
/// environment of the hosts has an entry.
pub proof fn lemma_menu_lists_each_environment_once(hosts: Seq<EnvironmentHost>)
    ensures
        ({
            let d = distinct_hosts(hosts, Set::empty());
            &&& forall|a: int, b: int|
                0 <= a < b < d.len() ==> (#[trigger] d[a]).environment@ != (#[trigger] d[b]).environment@
            &&& forall|k: int|
                0 <= k < d.len() ==> exists|i: int|
                    0 <= i < hosts.len() && #[trigger] hosts[i] == #[trigger] d[k] && first_of_its_environment(hosts, i)
            &&& forall|i: int|
                0 <= i < hosts.len() ==> exists|k: int|
                    0 <= k < d.len() && (#[trigger] d[k]).environment@ == (#[trigger] hosts[i]).environment@
        }),
{
    lemma_distinct_hosts_distinct(hosts, Set::empty());
    lemma_distinct_hosts_first(hosts, Set::empty());
    lemma_distinct_hosts_cover(hosts, Set::empty());
    let d = distinct_hosts(hosts, Set::empty());
    assert forall|i: int| 0 <= i < hosts.len() implies exists|k: int|
        0 <= k < d.len() && (#[trigger] d[k]).environment@ == (#[trigger] hosts[i]).environment@ by {
        assert(!Set::<Seq<char>>::empty().contains(hosts[i].environment@));
    }
}

/// The machine rows of the environment menu (between this computer's row
/// and the settings row): one per environment, the first host of each, the
/// window's own environment marked.
pub fn environment_menu_rows(current: &str, hosts: &[EnvironmentHost]) -> (rows: Vec<EnvironmentMenuRow>)
    ensures
        ({
            let d = distinct_hosts(hosts@, Set::empty());
            &&& rows@.len() == d.len()
            &&& forall|k: int| 0 <= k < d.len() ==> {
                let r = #[trigger] rows@[k];
                &&& r.text@ == host_row_text(d[k].label@, d[k].detail@)
                &&& r.selector@ == d[k].selector@
                &&& r.current == (d[k].environment@ == current@)
            }
            &&& forall|a: int, b: int|
                0 <= a < b < d.len() ==> (#[trigger] d[a]).environment@ != (#[trigger] d[b]).environment@
            &&& forall|k: int|
                0 <= k < d.len() ==> exists|i: int|
                    0 <= i < hosts@.len() && #[trigger] hosts@[i] == #[trigger] d[k] && first_of_its_environment(
                        hosts@,
                        i,
                    )
            &&& forall|i: int|
                0 <= i < hosts@.len() ==> exists|k: int|
                    0 <= k < d.len() && (#[trigger] d[k]).environment@ == (#[trigger] hosts@[i]).environment@
        }),
{
    proof {
        lemma_menu_lists_each_environment_once(hosts@);
    }
    let mut rows: Vec<EnvironmentMenuRow> = Vec::new();
    let mut seen: Vec<String> = Vec::new();
    let mut i: usize = 0;
    let ghost mut made: Seq<EnvironmentHost> = Seq::empty();
    assert(hosts@.skip(0) =~= hosts@);
    assert(crate::rows::strings_view(seen@).to_set() =~= Set::<Seq<char>>::empty());
    assert(made + distinct_hosts(hosts@, Set::empty()) =~= distinct_hosts(hosts@, Set::empty()));
    while i < hosts.len()
        invariant
            i <= hosts@.len(),
            distinct_hosts(hosts@, Set::empty()) == made + distinct_hosts(
                hosts@.skip(i as int),
                crate::rows::strings_view(seen@).to_set(),
            ),
            rows@.len() == made.len(),
            forall|k: int| 0 <= k < made.len() ==> {
                let r = #[trigger] rows@[k];
                &&& r.text@ == host_row_text(made[k].label@, made[k].detail@)
                &&& r.selector@ == made[k].selector@
                &&& r.current == (made[k].environment@ == current@)
            },
        decreases hosts@.len() - i,
    {
        let h = &hosts[i];
        let ghost rest = hosts@.skip(i as int);
        assert(rest[0] == *h);
        assert(rest.drop_first() =~= hosts@.skip(i + 1));
        let ghost sv = crate::rows::strings_view(seen@);
        let mut dup = false;
        let mut j: usize = 0;
        while j < seen.len()
            invariant
                j <= seen@.len(),
                sv == crate::rows::strings_view(seen@),
                !dup ==> forall|k: int| 0 <= k < j ==> sv[k] != h.environment@,
                dup ==> sv.contains(h.environment@),
            decreases seen@.len() - j,
        {
            if str_eq(seen[j].as_str(), h.environment.as_str()) {
                assert(sv[j as int] == h.environment@);
                dup = true;
            }
            j = j + 1;
        }
        assert(dup == sv.to_set().contains(h.environment@));
        if !dup {
            let trimmed = trim_chars(chars_of(h.detail.as_str()).as_slice());
            let text = if trimmed.len() == 0 {
                h.label.clone()
            } else {
                let mut t = chars_of(h.label.as_str());
                let sep = chars_of("  ·  ");
                extend_chars(&mut t, sep.as_slice());
                let d = chars_of(h.detail.as_str());
                extend_chars(&mut t, d.as_slice());
                string_of(t.as_slice())
            };
            let row = EnvironmentMenuRow {
                text,
                selector: h.selector.clone(),
                current: str_eq(h.environment.as_str(), current),
            };
            let ghost before_seen = sv;
            rows.push(row);
            seen.push(h.environment.clone());
            proof {
                assert(crate::rows::strings_view(seen@) =~= before_seen.push(h.environment@));
                let now = crate::rows::strings_view(seen@);
                assert forall|x: Seq<char>| now.to_set().contains(x) == before_seen.to_set().insert(h.environment@).contains(x) by {
                    if now.contains(x) {
                        let k = choose|k: int| 0 <= k < now.len() && now[k] == x;
                        if k < before_seen.len() {
                            assert(before_seen[k] == x);
                        }
                    }
                    if before_seen.contains(x) {
                        let k = choose|k: int| 0 <= k < before_seen.len() && before_seen[k] == x;
                        assert(now[k] == x);
                    }
                    if x == h.environment@ {
                        assert(now[before_seen.len() as int] == x);
                    }
                }
                assert(now.to_set() =~= before_seen.to_set().insert(h.environment@));
                let old_made = made;
                made = made.push(*h);
                assert(old_made + (seq![*h] + distinct_hosts(hosts@.skip(i + 1), crate::rows::strings_view(seen@).to_set())) =~= made + distinct_hosts(hosts@.skip(i + 1), crate::rows::strings_view(seen@).to_set()));
            }
        }
        i = i + 1;
    }
    assert(hosts@.skip(i as int) =~= Seq::<EnvironmentHost>::empty());
    assert(made + Seq::<EnvironmentHost>::empty() =~= made);
    rows
}

/// The lowercase hexadecimal digit of `n` (below sixteen).
pub open spec fn hex_char(n: int) -> char {
    if n < 10 {
        (48 + n) as char
    } else {
        (87 + n) as char
    }
}

/// The 32 lowercase hexadecimal digits of the 128 bits of `id`, most
/// significant first.
pub open spec fn uuid_hex(id: u128) -> Seq<char> {
    Seq::new(32, |k: int| hex_char(((id >> ((124 - 4 * k) as u128)) & 15u128) as int))
}

/// The hyphenated text of the UUID whose 128 bits, big-endian, are `id`:
/// its hex digits in groups of 8, 4, 4, 4 and 12.
pub open spec fn uuid_hyphenated(id: u128) -> Seq<char> {
    let h = uuid_hex(id);
    h.subrange(0, 8) + "-"@ + h.subrange(8, 12) + "-"@ + h.subrange(12, 16) + "-"@ + h.subrange(16, 20)
        + "-"@ + h.subrange(20, 32)
}

/// The `uuid` crate's hyphenated text of `Uuid::from_u128(id)`: lowercase
/// hex digits of the big-endian bytes, grouped 8-4-4-4-12.
#[verifier::external_body]
fn uuid_hyphenated_text(id: u128) -> (text: String)
    ensures
        text@ == uuid_hyphenated(id),
{
    uuid::Uuid::from_u128(id).hyphenated().to_string()
}

/// The selector an environment menu row carries, from the target's kind:
/// a saved profile by its id, any other target by its connection key (as
/// the caller spells it).
pub fn environment_menu_target_selector(target: &RemoteTarget, connection_key: &str) -> (selector: String)
    ensures
        selector@ == match target {
            RemoteTarget::Profile { id } => "ENVIRONMENT_MENU_TARGET_PROFILE_"@ + uuid_hyphenated(*id),
            _ => "ENVIRONMENT_MENU_TARGET_"@ + connection_key@,
        },
{
    match target {
        RemoteTarget::Profile { id } => {
            let mut out = chars_of("ENVIRONMENT_MENU_TARGET_PROFILE_");
            let text = uuid_hyphenated_text(*id);
            let t = chars_of(text.as_str());
            extend_chars(&mut out, t.as_slice());
            string_of(out.as_slice())
        },
        _ => {
            let mut out = chars_of("ENVIRONMENT_MENU_TARGET_");
            let k = chars_of(connection_key);
            extend_chars(&mut out, k.as_slice());
            string_of(out.as_slice())
        },
    }
}

// ------------------------------------------------------ workspace avatar

/// The uppercase of a character as std's `char::to_uppercase` gives it
/// (one character or more).
pub uninterp spec fn char_uppercase(c: char) -> Seq<char>;

/// std's `char::to_uppercase`, collected into a string. Its Unicode case
/// mapping is not restated here.
#[verifier::external_body]
fn uppercase_of(c: char) -> (out: String)
    ensures
        out@ == char_uppercase(c),
{
    c.to_uppercase().to_string()
}

/// What a workspace's avatar shows: the uppercase of its name's first
/// character (a tilde for an empty name), and the colour of its liveness
/// dot (none for a stopped workspace).
pub struct AvatarFace {
    pub initial: String,
    pub dot: Option<u32>,
}

/// What a workspace's avatar shows (see `AvatarFace`).
pub fn workspace_avatar_face(name: &str, live: Liveness) -> (face: AvatarFace)
    ensures
        face.initial@ == (if name@.len() > 0 {
            char_uppercase(name@[0])
        } else {
            "~"@
        }),
        face.dot == match live {
            Liveness::Alive => Some(LIVE_DOT),
            Liveness::Unknown => Some(UNKNOWN_DOT),
            Liveness::Stopped => None::<u32>,
        },
{
    let dot = match live {
        Liveness::Alive => Some(LIVE_DOT),
        Liveness::Unknown => Some(UNKNOWN_DOT),
        Liveness::Stopped => None,
    };
    let cs = chars_of(name);
    let initial = if cs.len() > 0 {
        uppercase_of(cs[0])
    } else {
        owned("~")
    };
    AvatarFace { initial, dot }
}

// --------------------------------------------------------- tab labels

/// A tab's label: a text, or the numbered default of a shell tab.
#[derive(Debug, PartialEq, Eq)]
pub enum TabLabel {
    Text(String),
    /// The default label of the shell tab at this position, from one.
    ShellDefault(usize),
}

/// A tab's label: its name, trimmed, when it has a name that is not blank;
/// else the short title of its leaf's title; else, when that is blank too,
/// the numbered default.
pub fn tab_label(name: &Option<String>, leaf_title: &str, home: Option<&str>, index: usize) -> (label: TabLabel)
    requires
        index < usize::MAX,
    ensures
        ({
            let short = short_title_of(leaf_title@, match home {
                Some(h) => Some(h@),
                None => None,
            });
            match name {
                Some(n) if trim(n@).len() > 0 => label matches TabLabel::Text(t) && t@ == trim(n@),
                _ => if trim(short).len() > 0 {
                    label matches TabLabel::Text(t) && t@ == short
                } else {
                    label == TabLabel::ShellDefault((index + 1) as usize)
                },
            }
        }),
{
    if let Some(n) = name {
        let trimmed = trim_chars(chars_of(n.as_str()).as_slice());
        if trimmed.len() > 0 {
            return TabLabel::Text(string_of(trimmed.as_slice()));
        }
    }
    let short = short_title(leaf_title, home);
    let t = trim_chars(chars_of(short.as_str()).as_slice());
    if t.len() > 0 {
        TabLabel::Text(short)
    } else {
        TabLabel::ShellDefault(index + 1)
    }
}

// ------------------------------------------------------- tab context menu

/// What an entry of a tab's context menu does.
#[derive(Clone, Copy, Debug, PartialEq, Eq, Structural)]
pub enum TabMenuAction {
    Rename,
    MarkUnread,
    NewWorktreeTab,
    ForkSession,
    SplitRight,
    SplitDown,
    MoveToNewWindow,
    CopyCwd,
    CopySessionId,
    CloseTab,
    CloseOtherTabs,
    CloseTabsBelow,
    CloseTabsRight,
}

/// An entry of a tab's context menu.
#[derive(Clone, Copy, Debug, PartialEq, Eq, Structural)]
pub enum TabMenuEntry {
    Item { action: TabMenuAction, enabled: bool },
    Separator,
}

/// The agent session a tab runs, as the menu needs it: whether the agent
/// can fork sessions at all, whether this one can be forked now, and
/// whether its session id is known.
#[derive(Clone, Copy, Debug, PartialEq, Eq, Structural)]
pub struct MenuSession {
    pub fork_offered: bool,
    pub forkable: bool,
    pub has_session_id: bool,
}

/// What a tab's context menu is built from.
#[derive(Clone, Copy, Debug, PartialEq, Eq, Structural)]
pub struct TabMenuFacts {
    pub index: usize,
    pub tab_count: usize,
    pub has_agent: bool,
    pub agent_done: bool,
    pub in_repo: bool,
    pub session: Option<MenuSession>,
    pub has_cwd: bool,
    /// The strip is vertical: "below" rather than "to the right".
    pub below_wording: bool,
}

/// An enabled or disabled entry.
pub open spec fn item(action: TabMenuAction, enabled: bool) -> TabMenuEntry {
    TabMenuEntry::Item { action, enabled }
}

/// The head of a tab's context menu: rename, and mark unread for an agent
/// tab (enabled once the agent is done).
pub open spec fn menu_head(f: TabMenuFacts) -> Seq<TabMenuEntry> {
    seq![item(TabMenuAction::Rename, true)] + if f.has_agent {
        seq![item(TabMenuAction::MarkUnread, f.agent_done)]
    } else {
        Seq::empty()
    }
}

/// A new worktree tab, for a tab in a repository.
pub open spec fn menu_repo(f: TabMenuFacts) -> Seq<TabMenuEntry> {
    if f.in_repo {
        seq![TabMenuEntry::Separator, item(TabMenuAction::NewWorktreeTab, true)]
    } else {
        Seq::empty()
    }
}

/// Forking the agent session, when its agent can fork (enabled when this
/// session can be forked now); it shares the worktree entry's group.
pub open spec fn menu_fork(f: TabMenuFacts) -> Seq<TabMenuEntry> {
    match f.session {
        Some(s) => if s.fork_offered {
            if f.in_repo {
                seq![item(TabMenuAction::ForkSession, s.forkable)]
            } else {
                seq![TabMenuEntry::Separator, item(TabMenuAction::ForkSession, s.forkable)]
            }
        } else {
            Seq::empty()
        },
        None => Seq::empty(),
    }
}

/// The splits, moving the tab to a new window, and copying the working
/// directory (enabled when it is known) and the agent session's id (for an
/// agent session; enabled when it is known).
pub open spec fn menu_middle(f: TabMenuFacts) -> Seq<TabMenuEntry> {
    seq![
        TabMenuEntry::Separator,
        item(TabMenuAction::SplitRight, true),
        item(TabMenuAction::SplitDown, true),
        item(TabMenuAction::MoveToNewWindow, true),
        TabMenuEntry::Separator,
        item(TabMenuAction::CopyCwd, f.has_cwd),
    ] + match f.session {
        Some(s) => seq![item(TabMenuAction::CopySessionId, s.has_session_id)],
        None => Seq::empty(),
    }
}

/// Closing the tab, the other tabs (enabled when there are others) and the
/// tabs after it (enabled when there are any), named by the strip's
/// direction.
pub open spec fn menu_close(f: TabMenuFacts) -> Seq<TabMenuEntry> {
    seq![
        TabMenuEntry::Separator,
        item(TabMenuAction::CloseTab, true),
        item(TabMenuAction::CloseOtherTabs, f.tab_count > 1),
        item(
            if f.below_wording {
                TabMenuAction::CloseTabsBelow
            } else {
                TabMenuAction::CloseTabsRight
            },
            f.index + 1 < f.tab_count,
        ),
    ]
}

/// A tab's context menu, group after group.
pub open spec fn tab_menu_of(f: TabMenuFacts) -> Seq<TabMenuEntry> {
    menu_head(f) + menu_repo(f) + menu_fork(f) + menu_middle(f) + menu_close(f)
}

fn push_menu_head(m: &mut Vec<TabMenuEntry>, f: TabMenuFacts)
    ensures
        final(m)@ == old(m)@ + menu_head(f),
{
    let ghost m0 = m@;
    m.push(TabMenuEntry::Item { action: TabMenuAction::Rename, enabled: true });
    if f.has_agent {
        m.push(TabMenuEntry::Item { action: TabMenuAction::MarkUnread, enabled: f.agent_done });
    }
    assert(m@ =~= m0 + menu_head(f));
}

fn push_menu_repo_and_fork(m: &mut Vec<TabMenuEntry>, f: TabMenuFacts)
    ensures
        final(m)@ == old(m)@ + menu_repo(f) + menu_fork(f),
{
    let ghost m0 = m@;
    if f.in_repo {
        m.push(TabMenuEntry::Separator);
        m.push(TabMenuEntry::Item { action: TabMenuAction::NewWorktreeTab, enabled: true });
    }
    assert(m@ =~= m0 + menu_repo(f));
    let ghost m1 = m@;
    match f.session {
        Some(s) => {
            if s.fork_offered {
                if !f.in_repo {
                    m.push(TabMenuEntry::Separator);
                }
                m.push(TabMenuEntry::Item { action: TabMenuAction::ForkSession, enabled: s.forkable });
            }
        },
        None => {},
    }
    assert(m@ =~= m1 + menu_fork(f));
}

fn push_menu_middle(m: &mut Vec<TabMenuEntry>, f: TabMenuFacts)
    ensures
        final(m)@ == old(m)@ + menu_middle(f),
{
    let ghost m0 = m@;
    m.push(TabMenuEntry::Separator);
    m.push(TabMenuEntry::Item { action: TabMenuAction::SplitRight, enabled: true });
    m.push(TabMenuEntry::Item { action: TabMenuAction::SplitDown, enabled: true });
    m.push(TabMenuEntry::Item { action: TabMenuAction::MoveToNewWindow, enabled: true });
    m.push(TabMenuEntry::Separator);
    m.push(TabMenuEntry::Item { action: TabMenuAction::CopyCwd, enabled: f.has_cwd });
    match f.session {
        Some(s) => {
            m.push(TabMenuEntry::Item { action: TabMenuAction::CopySessionId, enabled: s.has_session_id });
        },
        None => {},
    }
    assert(m@ =~= m0 + menu_middle(f));
}

fn push_menu_close(m: &mut Vec<TabMenuEntry>, f: TabMenuFacts)
    ensures
        final(m)@ == old(m)@ + menu_close(f),
{
    let ghost m0 = m@;
    m.push(TabMenuEntry::Separator);
    m.push(TabMenuEntry::Item { action: TabMenuAction::CloseTab, enabled: true });
    m.push(TabMenuEntry::Item { action: TabMenuAction::CloseOtherTabs, enabled: f.tab_count > 1 });
    let last = if f.below_wording {
        TabMenuAction::CloseTabsBelow
    } else {
        TabMenuAction::CloseTabsRight
    };
    m.push(TabMenuEntry::Item { action: last, enabled: f.index < f.tab_count && f.tab_count - f.index > 1 });
    assert(m@ =~= m0 + menu_close(f));
}

/// A tab's context menu (see `tab_menu_of`).
pub fn tab_context_menu(f: TabMenuFacts) -> (menu: Vec<TabMenuEntry>)
    ensures
        menu@ == tab_menu_of(f),
{
    let mut m: Vec<TabMenuEntry> = Vec::new();
    push_menu_head(&mut m, f);
    push_menu_repo_and_fork(&mut m, f);
    push_menu_middle(&mut m, f);
    push_menu_close(&mut m, f);
    assert(m@ =~= tab_menu_of(f));
    m
}

/// No two separators follow each other.
pub open spec fn well_separated(s: Seq<TabMenuEntry>) -> bool {
    forall|i: int, j: int|
        0 <= i && j == i + 1 && j < s.len() ==> !(#[trigger] s[i] is Separator && #[trigger] s[j] is Separator)
}

proof fn lemma_join_well_separated(a: Seq<TabMenuEntry>, b: Seq<TabMenuEntry>)
    requires
        well_separated(a),
        well_separated(b),
        a.len() > 0,
        a.last() is Item,
    ensures
        well_separated(a + b),
        b.len() > 0 ==> (a + b).last() == b.last(),
        b.len() == 0 ==> (a + b).last() == a.last(),
{
    let c = a + b;
    assert forall|i: int, j: int| 0 <= i && j == i + 1 && j < c.len() implies !(#[trigger] c[i] is Separator && #[trigger] c[j] is Separator) by {
        if j < a.len() {
            assert(c[i] == a[i] && c[j] == a[j]);
        } else if i == a.len() - 1 {
            assert(c[i] == a.last());
        } else {
            assert(c[i] == b[i - a.len()] && c[j] == b[j - a.len()]);
        }
    }
    if b.len() == 0 {
        assert(c =~= a);
    }
}

/// A tab's context menu starts and ends with an entry that does something
/// and never shows two separators in a row.
pub proof fn lemma_tab_menu_separators_sit_between_items(f: TabMenuFacts)
    ensures
        ({
            let m = tab_menu_of(f);
            &&& m.len() > 0
            &&& m[0] is Item
            &&& m.last() is Item
            &&& well_separated(m)
        }),
{
    let h = menu_head(f);
    let r = menu_repo(f);
    let k = menu_fork(f);
    let md = menu_middle(f);
    let cl = menu_close(f);
    assert(well_separated(h));
    assert(well_separated(r));
    assert(well_separated(k));
    assert(well_separated(md)) by {
        assert forall|i: int, j: int| 0 <= i && j == i + 1 && j < md.len() implies !(#[trigger] md[i] is Separator && #[trigger] md[j] is Separator) by {
            if j >= 6 {
                assert(md[j] is Item);
            }
        }
    }
    assert(well_separated(cl));
    lemma_join_well_separated(h, r);
    lemma_join_well_separated(h + r, k);
    lemma_join_well_separated(h + r + k, md);
    lemma_join_well_separated(h + r + k + md, cl);
    assert((h + r + k + md + cl)[0] == h[0]);
}

} // verus!

//! The history of visited notes that Alt+Left and Alt+Right walk, with the
//! editor and viewer positions of each visit.

use vstd::prelude::*;

use crate::app::saturating_add_signed;
use crate::path::{path_eq, path_eq_exec};
use crate::text::chars_of;

verus! {

broadcast use vstd::string::group_string_axioms;

/// A visited note and where the editor and viewer were in it.
#[derive(Clone, Debug, PartialEq, Eq)]
pub struct HistoryEntry {
    pub path: String,
    pub editor_cursor: usize,
    pub editor_scroll: u16,
    pub editor_horizontal_scroll: u16,
    pub viewer_scroll: u16,
}

/// The mathematical value of a [`HistoryEntry`].
pub struct EntryModel {
    pub path: Seq<char>,
    pub editor_cursor: usize,
    pub editor_scroll: u16,
    pub editor_horizontal_scroll: u16,
    pub viewer_scroll: u16,
}

impl View for HistoryEntry {
    type V = EntryModel;

    open spec fn view(&self) -> EntryModel {
        EntryModel {
            path: self.path@,
            editor_cursor: self.editor_cursor,
            editor_scroll: self.editor_scroll,
            editor_horizontal_scroll: self.editor_horizontal_scroll,
            viewer_scroll: self.viewer_scroll,
        }
    }
}

pub open spec fn entries_view(v: Seq<HistoryEntry>) -> Seq<EntryModel> {
    v.map_values(|e: HistoryEntry| e@)
}

fn copy_entry(e: &HistoryEntry) -> (r: HistoryEntry)
    ensures
        r@ == e@,
{
    HistoryEntry {
        path: e.path.clone(),
        editor_cursor: e.editor_cursor,
        editor_scroll: e.editor_scroll,
        editor_horizontal_scroll: e.editor_horizontal_scroll,
        viewer_scroll: e.viewer_scroll,
    }
}

/// The visited notes, oldest first, and the position of the current visit.
#[derive(Clone, Debug, PartialEq, Eq)]
pub struct NoteHistory {
    pub entries: Vec<HistoryEntry>,
    pub index: Option<usize>,
}

/// The mathematical value of a [`NoteHistory`].
pub struct HistoryModel {
    pub entries: Seq<EntryModel>,
    pub index: Option<int>,
}

impl View for NoteHistory {
    type V = HistoryModel;

    open spec fn view(&self) -> HistoryModel {
        HistoryModel {
            entries: entries_view(self.entries@),
            index: match self.index {
                Some(i) => Some(i as int),
                None => None,
            },
        }
    }
}

/// The current position, when there is one, names an entry.
pub open spec fn history_wf(h: HistoryModel) -> bool {
    h.index matches Some(i) ==> 0 <= i < h.entries.len()
}

/// A new visit of `e`: the visits after the current one are dropped, and
/// `e` becomes the current, last visit.
pub open spec fn spec_record(h: HistoryModel, e: EntryModel) -> HistoryModel {
    let keep = match h.index {
        Some(i) => i + 1,
        None => 0,
    };
    let kept = if keep < h.entries.len() {
        h.entries.take(keep)
    } else {
        h.entries
    };
    HistoryModel { entries: kept.push(e), index: Some(kept.len() as int) }
}

/// The current visit updated with the position `e`, when it is a visit of
/// the same note.
pub open spec fn spec_capture(h: HistoryModel, e: EntryModel) -> HistoryModel {
    match h.index {
        Some(i) => if 0 <= i < h.entries.len() && path_eq(h.entries[i].path, e.path) {
            HistoryModel { entries: h.entries.update(i, e), index: h.index }
        } else {
            h
        },
        None => h,
    }
}

/// The visit `delta` steps from the current one, kept inside the history;
/// `None` when there is no current visit or the step goes nowhere.
pub open spec fn spec_step_target(h: HistoryModel, delta: int) -> Option<int> {
    match h.index {
        Some(i) => {
            let last = if h.entries.len() > 0 {
                h.entries.len() - 1
            } else {
                0
            };
            let moved = saturating_add_signed(i, delta);
            let t = if moved < last {
                moved
            } else {
                last
            };
            if t == i {
                None
            } else {
                Some(t)
            }
        },
        None => None,
    }
}

/// The last position `j < i` whose visit is not of `path`.
pub open spec fn last_other_before(entries: Seq<EntryModel>, path: Seq<char>, i: int) -> Option<int>
    decreases i,
{
    if i <= 0 {
        None
    } else if !path_eq(entries[i - 1].path, path) {
        Some(i - 1)
    } else {
        last_other_before(entries, path, i - 1)
    }
}

/// The visits that are not of `path`.
pub open spec fn without_path(entries: Seq<EntryModel>, path: Seq<char>) -> Seq<EntryModel>
    decreases entries.len(),
{
    if entries.len() == 0 {
        seq![]
    } else {
        without_path(entries.drop_last(), path) + if path_eq(entries.last().path, path) {
            seq![]
        } else {
            seq![entries.last()]
        }
    }
}

/// The last position in `entries` whose visit is of `path`.
pub open spec fn last_visit_of(entries: Seq<EntryModel>, path: Seq<char>) -> Option<int>
    decreases entries.len(),
{
    if entries.len() == 0 {
        None
    } else if path_eq(entries.last().path, path) {
        Some(entries.len() - 1)
    } else {
        last_visit_of(entries.drop_last(), path)
    }
}

/// The history after the note at `path` was deleted: its visits are
/// dropped, and the current visit becomes the last visit of the note
/// visited last before the current one (among other notes), if any.
pub open spec fn spec_forget(h: HistoryModel, path: Seq<char>) -> HistoryModel {
    let previous = match h.index {
        Some(i) => match last_other_before(h.entries, path, i) {
            Some(j) => Some(h.entries[j].path),
            None => None,
        },
        None => None,
    };
    let kept = without_path(h.entries, path);
    HistoryModel {
        entries: kept,
        index: match previous {
            Some(p) => last_visit_of(kept, p),
            None => None,
        },
    }
}

/// The visits of `previous` now name `current` (after a rename).
pub open spec fn spec_rename(h: HistoryModel, previous: Seq<char>, current: Seq<char>) -> HistoryModel {
    HistoryModel {
        entries: h.entries.map_values(
            |e: EntryModel|
                if path_eq(e.path, previous) {
                    EntryModel { path: current, ..e }
                } else {
                    e
                },
        ),
        index: h.index,
    }
}

/// Whether the current position of `h` names a visit (see [`history_wf`]).
pub fn history_ok(h: &NoteHistory) -> (r: bool)
    ensures
        r == history_wf(h@),
{
    match h.index {
        Some(i) => i < h.entries.len(),
        None => true,
    }
}

fn same_path(a: &str, b: &str) -> (r: bool)
    ensures
        r == path_eq(a@, b@),
{
    let ac = chars_of(a);
    let bc = chars_of(b);
    path_eq_exec(ac.as_slice(), bc.as_slice())
}

impl NoteHistory {
    /// An empty history.
    pub fn new() -> (r: NoteHistory)
        ensures
            r@.entries.len() == 0,
            r@.index is None,
    {
        NoteHistory { entries: Vec::new(), index: None }
    }

    /// Records a visit (see [`spec_record`]).
    pub fn record(&mut self, entry: HistoryEntry)
        requires
            history_wf(old(self)@),
        ensures
            final(self)@ == spec_record(old(self)@, entry@),
            history_wf(final(self)@),
    {
        assert(self@.entries.len() == self.entries.len());
        let keep = match self.index {
            Some(i) => i + 1,
            None => 0,
        };
        let ghost old_entries = entries_view(self.entries@);
        if keep < self.entries.len() {
            self.entries.truncate(keep);
            assert(entries_view(self.entries@) =~= old_entries.take(keep as int));
        }
        let ghost kept = entries_view(self.entries@);
        let ghost ev = entry@;
        self.entries.push(entry);
        assert(entries_view(self.entries@) =~= kept.push(ev));
        self.index = Some(self.entries.len() - 1);
    }

    /// Updates the current visit with a position (see [`spec_capture`]).
    pub fn capture(&mut self, position: HistoryEntry)
        ensures
            final(self)@ == spec_capture(old(self)@, position@),
    {
        match self.index {
            Some(i) => {
                if i < self.entries.len() && same_path(self.entries[i].path.as_str(), position.path.as_str()) {
                    let ghost before = entries_view(self.entries@);
                    let ghost pv = position@;
                    self.entries.set(i, position);
                    assert(entries_view(self.entries@) =~= before.update(i as int, pv));
                }
            },
            None => {},
        }
    }

    /// The visit that a step of `delta` goes to (see [`spec_step_target`]).
    pub fn step_target(&self, delta: isize) -> (r: Option<usize>)
        requires
            history_wf(self@),
        ensures
            match spec_step_target(self@, delta as int) {
                Some(t) => r == Some(t as usize) && t < self@.entries.len(),
                None => r is None,
            },
    {
        match self.index {
            Some(i) => {
                let last = if self.entries.len() > 0 {
                    self.entries.len() - 1
                } else {
                    0
                };
                let moved = add_signed(i, delta);
                let t = if moved < last {
                    moved
                } else {
                    last
                };
                if t == i {
                    None
                } else {
                    Some(t)
                }
            },
            None => None,
        }
    }

    /// Makes the visit at `target` the current one.
    pub fn go_to(&mut self, target: usize)
        requires
            target < old(self)@.entries.len(),
        ensures
            final(self)@ == (HistoryModel { entries: old(self)@.entries, index: Some(target as int) }),
            history_wf(final(self)@),
    {
        self.index = Some(target);
    }

    /// A copy of the visit at `i`.
    pub fn entry(&self, i: usize) -> (r: HistoryEntry)
        requires
            i < self@.entries.len(),
        ensures
            r@ == self@.entries[i as int],
    {
        copy_entry(&self.entries[i])
    }

    /// Forgets a deleted note (see [`spec_forget`]).
    pub fn forget(&mut self, path: &str)
        requires
            history_wf(old(self)@),
        ensures
            final(self)@ == spec_forget(old(self)@, path@),
            history_wf(final(self)@),
    {
        let ghost h = self@;
        let previous: Option<String> = match self.index {
            Some(i) => match last_other_before_exec(&self.entries, path, i) {
                Some(k) => Some(self.entries[k].path.clone()),
                None => None,
            },
            None => None,
        };
        let mut kept: Vec<HistoryEntry> = Vec::new();
        let mut k: usize = 0;
        while k < self.entries.len()
            invariant
                k <= self.entries.len(),
                h == self@,
                entries_view(kept@) == without_path(h.entries.take(k as int), path@),
            decreases self.entries.len() - k,
        {
            assert(h.entries.take(k + 1).drop_last() =~= h.entries.take(k as int));
            assert(h.entries.take(k + 1).last() == self.entries@[k as int]@);
            if !same_path(self.entries[k].path.as_str(), path) {
                let ghost before = entries_view(kept@);
                let e = copy_entry(&self.entries[k]);
                kept.push(e);
                assert(entries_view(kept@) =~= before + seq![self.entries@[k as int]@]);
            } else {
                assert(entries_view(kept@) =~= entries_view(kept@) + Seq::<EntryModel>::empty());
            }
            k = k + 1;
        }
        assert(h.entries.take(self.entries.len() as int) =~= h.entries);
        let index = match previous {
            Some(p) => last_visit_of_exec(&kept, p.as_str()),
            None => None,
        };
        proof {
            if let Some(x) = index {
                lemma_last_visit_of_bound(entries_view(kept@), previous.unwrap()@);
            }
        }
        self.entries = kept;
        self.index = index;
    }
}

impl NoteHistory {
    /// The visits of `previous` now name `current` (see [`spec_rename`]).
    pub fn rename(&mut self, previous: &str, current: &str)
        ensures
            final(self)@ == spec_rename(old(self)@, previous@, current@),
            history_wf(old(self)@) ==> history_wf(final(self)@),
    {
        let ghost h = self@;
        let mut k: usize = 0;
        while k < self.entries.len()
            invariant
                k <= self.entries.len(),
                self.entries.len() == h.entries.len(),
                self.index == old(self).index,
                h == old(self)@,
                forall|m: int|
                    0 <= m < self.entries.len() ==> #[trigger] entries_view(self.entries@)[m] == if m < k {
                        if path_eq(h.entries[m].path, previous@) {
                            EntryModel { path: current@, ..h.entries[m] }
                        } else {
                            h.entries[m]
                        }
                    } else {
                        h.entries[m]
                    },
            decreases self.entries.len() - k,
        {
            let ghost before = entries_view(self.entries@);
            assert(before[k as int] == self.entries@[k as int]@);
            assert(before[k as int] == h.entries[k as int]);
            if same_path(self.entries[k].path.as_str(), previous) {
                let e = HistoryEntry {
                    path: current.to_owned(),
                    editor_cursor: self.entries[k].editor_cursor,
                    editor_scroll: self.entries[k].editor_scroll,
                    editor_horizontal_scroll: self.entries[k].editor_horizontal_scroll,
                    viewer_scroll: self.entries[k].viewer_scroll,
                };
                let ghost ev = e@;
                assert(ev == EntryModel { path: current@, ..h.entries[k as int] });
                self.entries.set(k, e);
                assert(entries_view(self.entries@) =~= before.update(k as int, ev));
            }
            k = k + 1;
        }
        assert(entries_view(self.entries@) =~= spec_rename(h, previous@, current@).entries);
    }
}

fn last_other_before_exec(entries: &Vec<HistoryEntry>, path: &str, i: usize) -> (r: Option<usize>)
    requires
        i <= entries.len(),
    ensures
        opt_index(r) == last_other_before(entries_view(entries@), path@, i as int),
        r matches Some(k) ==> k < i,
{
    let ghost ev = entries_view(entries@);
    let mut j = i;
    while j > 0
        invariant
            j <= i <= entries.len(),
            ev == entries_view(entries@),
            last_other_before(ev, path@, i as int) == last_other_before(ev, path@, j as int),
        decreases j,
    {
        assert(ev[j - 1] == entries@[j - 1]@);
        if !same_path(entries[j - 1].path.as_str(), path) {
            return Some(j - 1);
        }
        j = j - 1;
    }
    None
}

pub open spec fn opt_index(o: Option<usize>) -> Option<int> {
    match o {
        Some(x) => Some(x as int),
        None => None,
    }
}

proof fn lemma_last_visit_of_bound(entries: Seq<EntryModel>, path: Seq<char>)
    ensures
        last_visit_of(entries, path) matches Some(k) ==> 0 <= k < entries.len(),
    decreases entries.len(),
{
    if entries.len() > 0 && !path_eq(entries.last().path, path) {
        lemma_last_visit_of_bound(entries.drop_last(), path);
    }
}

fn last_visit_of_exec(entries: &Vec<HistoryEntry>, path: &str) -> (r: Option<usize>)
    ensures
        opt_index(r) == last_visit_of(entries_view(entries@), path@),
{
    let ghost ev = entries_view(entries@);
    let mut m = entries.len();
    assert(ev.take(m as int) =~= ev);
    while m > 0
        invariant
            m <= entries.len(),
            ev == entries_view(entries@),
            last_visit_of(ev, path@) == last_visit_of(ev.take(m as int), path@),
        decreases m,
    {
        assert(ev.take(m as int).last() == entries@[m - 1]@);
        assert(ev.take(m as int).drop_last() =~= ev.take(m - 1));
        if same_path(entries[m - 1].path.as_str(), path) {
            return Some(m - 1);
        }
        m = m - 1;
    }
    None
}

fn add_signed(current: usize, delta: isize) -> (r: usize)
    ensures
        r == saturating_add_signed(current as int, delta as int),
{
    if delta >= 0 {
        current.saturating_add(delta as usize)
    } else {
        let magnitude = ((-(delta + 1)) as usize) + 1;
        current.saturating_sub(magnitude)
    }
}


/// After recording a visit, going one step back and one step forward
/// returns to it, when there was a visit before it.
pub proof fn lemma_back_and_forward(h: HistoryModel, e: EntryModel)
    requires
        history_wf(h),
        h.index is Some,
        h.entries.len() < usize::MAX,
    ensures
        ({
            let r = spec_record(h, e);
            let i = r.index.unwrap();
            &&& i > 0
            &&& spec_step_target(r, -1) == Some(i - 1)
            &&& spec_step_target(HistoryModel { entries: r.entries, index: Some(i - 1) }, 1) == Some(i)
        }),
{
    let i0 = h.index.unwrap();
    let keep = i0 + 1;
    let kept = if keep < h.entries.len() {
        h.entries.take(keep)
    } else {
        h.entries
    };
    assert(kept.len() == keep);
    let r = spec_record(h, e);
    assert(r.entries.len() == keep + 1);
    assert(r.index == Some(keep));
}

/// A recorded visit is the last and current one, and the visits up to the
/// previous current one stay.
pub proof fn lemma_record(h: HistoryModel, e: EntryModel)
    requires
        history_wf(h),
    ensures
        ({
            let r = spec_record(h, e);
            &&& history_wf(r)
            &&& r.index == Some(r.entries.len() - 1)
            &&& r.entries.last() == e
            &&& forall|k: int| 0 <= k < r.entries.len() - 1 ==> r.entries[k] == h.entries[k]
            &&& (h.index matches Some(i) ==> r.entries.len() == i + 2)
        }),
{
}

proof fn lemma_without_path(entries: Seq<EntryModel>, path: Seq<char>)
    ensures
        forall|k: int| 0 <= k < without_path(entries, path).len() ==> !path_eq(
            #[trigger] without_path(entries, path)[k].path,
            path,
        ),
    decreases entries.len(),
{
    if entries.len() > 0 {
        lemma_without_path(entries.drop_last(), path);
        let d = without_path(entries.drop_last(), path);
        let w = without_path(entries, path);
        assert forall|k: int| 0 <= k < w.len() implies !path_eq(#[trigger] w[k].path, path) by {
            if k < d.len() {
                assert(w[k] == d[k]);
            }
        }
    }
}

/// After a note is deleted, no visit of it is left.
pub proof fn lemma_forget(h: HistoryModel, path: Seq<char>)
    ensures
        forall|k: int| 0 <= k < spec_forget(h, path).entries.len() ==> !path_eq(
            #[trigger] spec_forget(h, path).entries[k].path,
            path,
        ),
{
    lemma_without_path(h.entries, path);
}

} // verus!

use vstd::prelude::*;

use crate::dump::StorageSlot;
use crate::felt::{lower_hex, Felt};

verus! {

/// The key's hexadecimal form begins with `prefix`.
pub open spec fn key_matches(prefix: Seq<char>, key: Felt) -> bool {
    prefix.is_prefix_of(lower_hex(key.value()))
}

/// The rows of `rows` whose key matches `prefix`, in their order.
pub open spec fn rows_matching(rows: Seq<(Felt, Felt)>, prefix: Seq<char>) -> Seq<(Felt, Felt)>
    decreases rows.len(),
{
    if rows.len() == 0 {
        Seq::empty()
    } else {
        let rest = rows_matching(rows.drop_last(), prefix);
        if key_matches(prefix, rows.last().0) {
            rest.push(rows.last())
        } else {
            rest
        }
    }
}

/// The selection after moving down a list of `total` rows: wraps from the last
/// row to the first; an empty list, or one with nothing selected, gets row 0.
pub open spec fn after_next(selected: Option<usize>, total: usize) -> Option<usize> {
    if total == 0 {
        Some(0usize)
    } else {
        match selected {
            Some(i) => if i >= total - 1 {
                Some(0usize)
            } else {
                Some((i + 1) as usize)
            },
            None => Some(0usize),
        }
    }
}

/// The selection after moving up a list of `total` rows: wraps from the first
/// row to the last; an empty list, or one with nothing selected, gets row 0.
pub open spec fn after_previous(selected: Option<usize>, total: usize) -> Option<usize> {
    if total == 0 {
        Some(0usize)
    } else {
        match selected {
            Some(i) => if i == 0 {
                Some((total - 1) as usize)
            } else {
                Some((i - 1) as usize)
            },
            None => Some(0usize),
        }
    }
}

/// The characters of `s`, in order.
fn chars_of(s: &str) -> (r: Vec<char>)
    ensures
        r@ == s@,
{
    let mut out: Vec<char> = Vec::new();
    proof {
        vstd::string::axiom_spec_iter(s);
    }
    for c in it: s.chars()
        invariant
            it.seq() == s@,
            out@.len() == it.index(),
            forall|i: int| 0 <= i < it.index() ==> #[trigger] out@[i] == s@[i],
    {
        out.push(c);
    }
    assert(out@ =~= s@);
    out
}

fn starts_with(s: &Vec<char>, prefix: &Vec<char>) -> (r: bool)
    ensures
        r == prefix@.is_prefix_of(s@),
{
    if prefix.len() > s.len() {
        return false;
    }
    let n = prefix.len();
    let mut i: usize = 0;
    while i < n
        invariant
            i <= n,
            n == prefix@.len(),
            n <= s@.len(),
            forall|j: int| 0 <= j < i ==> prefix@[j] == s@[j],
        decreases n - i,
    {
        if prefix[i] != s[i] {
            assert(prefix@[i as int] != s@.subrange(0, n as int)[i as int]);
            return false;
        }
        i = i + 1;
    }
    assert(prefix@ =~= s@.subrange(0, n as int));
    true
}

/// The key/value rows that the browser shows, which row is selected, and how
/// many rows the last filtering left.
pub struct StatefulStorageList {
    pub selected: Option<usize>,
    pub total_items: usize,
    pub storages: Vec<(Felt, Felt)>,
}

impl StatefulStorageList {
    /// A list of the slots' keys and values, in the slots' order, with nothing
    /// selected.
    pub fn with_items(items: Vec<StorageSlot>) -> (r: StatefulStorageList)
        ensures
            r.storages@ == items@.map_values(|s: StorageSlot| (s.key, s.value.value)),
            r.total_items == 0,
            r.selected is None,
    {
        let mut storages: Vec<(Felt, Felt)> = Vec::new();
        let n = items.len();
        let mut i: usize = 0;
        while i < n
            invariant
                i <= n,
                n == items@.len(),
                storages@ == items@.take(i as int).map_values(
                    |s: StorageSlot| (s.key, s.value.value),
                ),
            decreases n - i,
        {
            let slot = items[i];
            storages.push((slot.key, slot.value.value));
            assert(items@.take(i + 1) =~= items@.take(i as int).push(slot));
            assert(items@.take(i + 1).map_values(|s: StorageSlot| (s.key, s.value.value))
                =~= storages@);
            i = i + 1;
        }
        assert(items@.take(n as int) =~= items@);
        StatefulStorageList { selected: None, total_items: 0, storages }
    }

    /// Moves the selection one row down.
    pub fn next(&mut self)
        ensures
            final(self).selected == after_next(old(self).selected, old(self).total_items),
            final(self).total_items == old(self).total_items,
            final(self).storages@ == old(self).storages@,
    {
        if self.total_items == 0 {
            self.selected = None;
        }
        let i = match self.selected {
            Some(i) => if i >= self.total_items - 1 {
                0
            } else {
                i + 1
            },
            None => 0,
        };
        self.selected = Some(i);
    }

    /// Moves the selection one row up.
    pub fn previous(&mut self)
        ensures
            final(self).selected == after_previous(old(self).selected, old(self).total_items),
            final(self).total_items == old(self).total_items,
            final(self).storages@ == old(self).storages@,
    {
        if self.total_items == 0 {
            self.selected = None;
        }
        let i = match self.selected {
            Some(i) => if i == 0 {
                self.total_items - 1
            } else {
                i - 1
            },
            None => 0,
        };
        self.selected = Some(i);
    }

    pub fn unselect(&mut self)
        ensures
            final(self).selected is None,
            final(self).total_items == old(self).total_items,
            final(self).storages@ == old(self).storages@,
    {
        self.selected = None;
    }

    /// The rows whose key, written in hexadecimal, begins with `prefix` (all rows
    /// for an empty prefix), in list order; their number becomes the list's total.
    pub fn matching_rows(&mut self, prefix: &str) -> (r: Vec<(Felt, Felt)>)
        ensures
            r@ == rows_matching(old(self).storages@, prefix@),
            final(self).total_items == r@.len(),
            final(self).selected == old(self).selected,
            final(self).storages@ == old(self).storages@,
    {
        let wanted = chars_of(prefix);
        let mut out: Vec<(Felt, Felt)> = Vec::new();
        let n = self.storages.len();
        let mut i: usize = 0;
        while i < n
            invariant
                i <= n,
                n == self.storages@.len(),
                out@ == rows_matching(self.storages@.take(i as int), prefix@),
                out@.len() <= i,
                wanted@ == prefix@,
            decreases n - i,
        {
            let row = self.storages[i];
            assert(self.storages@.take(i + 1).drop_last() =~= self.storages@.take(i as int));
            let hex = row.0.hex_chars();
            if starts_with(&hex, &wanted) {
                out.push(row);
            }
            i = i + 1;
        }
        assert(self.storages@.take(n as int) =~= self.storages@);
        self.total_items = out.len();
        out
    }
}

/// A key pressed in the browser.
#[derive(Clone, Copy, Debug, PartialEq, Eq, Structural)]
pub enum Key {
    Esc,
    Down,
    Up,
    Enter,
    /// Any other key: it edits the search text.
    Other,
}

/// What the browser does after a key.
#[derive(Clone, Copy, Debug, PartialEq, Eq, Structural)]
pub enum Action {
    /// Leave the browser.
    Quit,
    /// Draw again.
    Redraw,
    /// Hand the key to the search text, then draw again.
    EditSearch,
}

/// The browser: the scanned contract and range, and the list of slots.
pub struct App {
    pub to: u64,
    pub from: u64,
    pub contract: Felt,
    pub items: StatefulStorageList,
}

impl App {
    pub fn new(contract: Felt, from: u64, to: u64, storages: Vec<StorageSlot>) -> (r: App)
        ensures
            r.contract == contract,
            r.from == from,
            r.to == to,
            r.items.storages@ == storages@.map_values(|s: StorageSlot| (s.key, s.value.value)),
            r.items.total_items == 0,
            r.items.selected is None,
    {
        App { to, from, contract, items: StatefulStorageList::with_items(storages) }
    }

    /// Applies one key: Esc leaves, Down and Up move the selection, Enter does
    /// nothing, and any other key goes to the search text.
    pub fn handle_key(&mut self, key: Key) -> (r: Action)
        ensures
            r == (match key {
                Key::Esc => Action::Quit,
                Key::Other => Action::EditSearch,
                _ => Action::Redraw,
            }),
            final(self).items.selected == (match key {
                Key::Down => after_next(old(self).items.selected, old(self).items.total_items),
                Key::Up => after_previous(old(self).items.selected, old(self).items.total_items),
                _ => old(self).items.selected,
            }),
            final(self).items.total_items == old(self).items.total_items,
            final(self).items.storages@ == old(self).items.storages@,
            final(self).contract == old(self).contract,
            final(self).from == old(self).from,
            final(self).to == old(self).to,
    {
        match key {
            Key::Esc => Action::Quit,
            Key::Down => {
                self.items.next();
                Action::Redraw
            },
            Key::Up => {
                self.items.previous();
                Action::Redraw
            },
            Key::Enter => Action::Redraw,
            Key::Other => Action::EditSearch,
        }
    }
}

} // verus!

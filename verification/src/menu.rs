//! Selection model of the board-type menu: a list of variant names and a
//! cursor that wraps around at either end.

use vstd::prelude::*;

verus! {

/// The row selected after one step down from `sel` in a list of `len`
/// entries.
pub open spec fn next_index(sel: Option<usize>, len: int) -> int {
    match sel {
        Option::Some(i) => {
            if i as int >= len - 1 {
                0
            } else {
                i as int + 1
            }
        },
        Option::None => 0,
    }
}

/// The row selected after one step up from `sel` in a list of `len`
/// entries.
pub open spec fn previous_index(sel: Option<usize>, len: int) -> int {
    match sel {
        Option::Some(i) => {
            if i == 0 {
                len - 1
            } else {
                i as int - 1
            }
        },
        Option::None => 0,
    }
}

/// The menu state: the available board-type names and the highlighted row.
pub struct App {
    pub items: Vec<String>,
    pub selected: Option<usize>,
}

impl App {
    /// A menu over the given names, with nothing highlighted yet.
    pub fn new(items: Vec<String>) -> (r: App)
        ensures
            r.items@ == items@,
            r.selected is None,
    {
        App { items, selected: None }
    }

    /// Move the highlight one row down, wrapping to the top from the last
    /// row.
    pub fn next(&mut self)
        requires
            old(self).items@.len() >= 1,
        ensures
            final(self).items@ == old(self).items@,
            match final(self).selected {
                Option::Some(k) => k as int == next_index(
                    old(self).selected,
                    old(self).items@.len() as int,
                ),
                Option::None => false,
            },
    {
        let i: usize = match self.selected {
            Some(i) => {
                if i >= self.items.len() - 1 {
                    0
                } else {
                    i + 1
                }
            },
            None => 0,
        };
        self.selected = Some(i);
    }

    /// Move the highlight one row up, wrapping to the bottom from the
    /// first row.
    pub fn previous(&mut self)
        requires
            old(self).items@.len() >= 1,
        ensures
            final(self).items@ == old(self).items@,
            match final(self).selected {
                Option::Some(k) => k as int == previous_index(
                    old(self).selected,
                    old(self).items@.len() as int,
                ),
                Option::None => false,
            },
    {
        let i: usize = match self.selected {
            Some(i) => {
                if i == 0 {
                    self.items.len() - 1
                } else {
                    i - 1
                }
            },
            None => 0,
        };
        self.selected = Some(i);
    }
}

} // verus!

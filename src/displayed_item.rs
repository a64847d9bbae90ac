use vstd::prelude::*;
use vstd::string::StringExecFns;

use crate::time::push_decimal;
use crate::translation::{radix_string, SignalInfo};
use crate::wave_container::VarName;

verus! {

/// Which part of a variable's path its displayed name shows.
#[derive(Clone, Copy, Debug, PartialEq, Eq, Structural)]
pub enum SignalNameType {
    /// The name alone
    Local,
    /// The shortest suffix of the path that tells it from the other shown signals
    Unique,
    /// The full path
    Global,
}

/// One line of the list of displayed items.
pub enum DisplayedItem {
    Signal(DisplayedSignal),
    Divider(DisplayedDivider),
    Cursor(DisplayedCursor),
}

pub struct DisplayedSignal {
    pub signal_ref: VarName,
    pub info: SignalInfo,
    pub color: Option<String>,
    pub background_color: Option<String>,
    pub display_name: String,
    pub display_name_type: SignalNameType,
}

pub struct DisplayedDivider {
    pub color: Option<String>,
    pub background_color: Option<String>,
    pub name: String,
}

pub struct DisplayedCursor {
    pub color: Option<String>,
    pub background_color: Option<String>,
    pub name: String,
    pub idx: u8,
}

/// An optional string as a sequence of characters.
pub open spec fn opt_view(s: Option<String>) -> Option<Seq<char>> {
    match s {
        Some(x) => Some(x@),
        None => None,
    }
}

fn clone_opt(s: &Option<String>) -> (r: Option<String>)
    ensures
        opt_view(r) == opt_view(*s),
{
    match s {
        Some(x) => Some(x.clone()),
        None => None,
    }
}

impl DisplayedItem {
    pub open spec fn spec_color(&self) -> Option<Seq<char>> {
        match self {
            DisplayedItem::Signal(s) => opt_view(s.color),
            DisplayedItem::Divider(d) => opt_view(d.color),
            DisplayedItem::Cursor(c) => opt_view(c.color),
        }
    }

    pub open spec fn spec_background_color(&self) -> Option<Seq<char>> {
        match self {
            DisplayedItem::Signal(s) => opt_view(s.background_color),
            DisplayedItem::Divider(d) => opt_view(d.background_color),
            DisplayedItem::Cursor(c) => opt_view(c.background_color),
        }
    }

    pub open spec fn spec_name(&self) -> Seq<char> {
        match self {
            DisplayedItem::Signal(s) => s.display_name@,
            DisplayedItem::Divider(d) => d.name@,
            DisplayedItem::Cursor(c) => c.name@,
        }
    }

    /// Whether two items are of the same variant and agree on everything but
    /// the colors and the name.
    pub open spec fn same_but_looks(&self, other: &DisplayedItem) -> bool {
        match (self, other) {
            (DisplayedItem::Signal(a), DisplayedItem::Signal(b)) => a.signal_ref == b.signal_ref
                && a.info == b.info && a.display_name_type == b.display_name_type,
            (DisplayedItem::Divider(_), DisplayedItem::Divider(_)) => true,
            (DisplayedItem::Cursor(a), DisplayedItem::Cursor(b)) => a.idx == b.idx,
            _ => false,
        }
    }

    pub fn color(&self) -> (r: Option<String>)
        ensures
            opt_view(r) == self.spec_color(),
    {
        let color = match self {
            DisplayedItem::Signal(signal) => &signal.color,
            DisplayedItem::Divider(divider) => &divider.color,
            DisplayedItem::Cursor(cursor) => &cursor.color,
        };
        clone_opt(color)
    }

    pub fn set_color(&mut self, color_name: Option<String>)
        ensures
            final(self).spec_color() == opt_view(color_name),
            final(self).spec_background_color() == old(self).spec_background_color(),
            final(self).spec_name() == old(self).spec_name(),
            final(self).same_but_looks(old(self)),
    {
        match self {
            DisplayedItem::Signal(signal) => {
                signal.color = color_name;
            },
            DisplayedItem::Divider(divider) => {
                divider.color = color_name;
            },
            DisplayedItem::Cursor(cursor) => {
                cursor.color = color_name;
            },
        }
    }

    pub fn name(&self) -> (r: String)
        ensures
            r@ == self.spec_name(),
    {
        let name = match self {
            DisplayedItem::Signal(signal) => &signal.display_name,
            DisplayedItem::Divider(divider) => &divider.name,
            DisplayedItem::Cursor(cursor) => &cursor.name,
        };
        name.clone()
    }

    /// The name as the list shows it: a cursor's is prefixed by its index.
    pub fn display_name(&self) -> (r: String)
        ensures
            r@ == match self {
                DisplayedItem::Cursor(c) => radix_string(c.idx as nat, 10) + seq![':', ' '] + c.name@,
                _ => self.spec_name(),
            },
    {
        match self {
            DisplayedItem::Signal(signal) => signal.display_name.clone(),
            DisplayedItem::Divider(divider) => divider.name.clone(),
            DisplayedItem::Cursor(cursor) => {
                let mut r = String::new();
                push_decimal(&mut r, cursor.idx as u128);
                proof {
                    reveal_strlit(": ");
                }
                r.append(": ");
                r.append(cursor.name.as_str());
                assert(r@ =~= radix_string(cursor.idx as nat, 10) + seq![':', ' '] + cursor.name@);
                r
            },
        }
    }

    /// Renames a divider or a cursor; a signal keeps the name of its variable.
    pub fn set_name(&mut self, name: String)
        ensures
            match *old(self) {
                DisplayedItem::Signal(_) => final(self).spec_name() == old(self).spec_name(),
                _ => final(self).spec_name() == name@,
            },
            final(self).spec_color() == old(self).spec_color(),
            final(self).spec_background_color() == old(self).spec_background_color(),
            final(self).same_but_looks(old(self)),
    {
        match self {
            DisplayedItem::Signal(_) => {},
            DisplayedItem::Divider(divider) => {
                divider.name = name;
            },
            DisplayedItem::Cursor(cursor) => {
                cursor.name = name;
            },
        }
    }

    pub fn background_color(&self) -> (r: Option<String>)
        ensures
            opt_view(r) == self.spec_background_color(),
    {
        let background_color = match self {
            DisplayedItem::Signal(signal) => &signal.background_color,
            DisplayedItem::Divider(divider) => &divider.background_color,
            DisplayedItem::Cursor(cursor) => &cursor.background_color,
        };
        clone_opt(background_color)
    }

    pub fn set_background_color(&mut self, color_name: Option<String>)
        ensures
            final(self).spec_background_color() == opt_view(color_name),
            final(self).spec_color() == old(self).spec_color(),
            final(self).spec_name() == old(self).spec_name(),
            final(self).same_but_looks(old(self)),
    {
        match self {
            DisplayedItem::Signal(signal) => {
                signal.background_color = color_name;
            },
            DisplayedItem::Divider(divider) => {
                divider.background_color = color_name;
            },
            DisplayedItem::Cursor(cursor) => {
                cursor.background_color = color_name;
            },
        }
    }
}

} // verus!

//! The key bindings help list: the rows of the bindings overlay, in display
//! order. Turning rows into terminal widgets happens outside the library.

use vstd::prelude::*;

verus! {

/// One row of the key bindings list.
#[derive(Clone, Debug, PartialEq)]
pub enum BindingRow {
    /// A blank separator row.
    Empty,
    /// A section heading.
    Heading { name: String },
    /// A binding with the keys and what they do.
    Binding { binding: String, description: String },
    /// A continuation line for the previous binding's description.
    BindingCtd { description: String },
}

/// The rows of the key bindings overlay, in display order.
#[derive(Debug)]
pub struct KeyBindingsList {
    pub rows: Vec<BindingRow>,
}

impl KeyBindingsList {
    /// An empty list.
    pub fn new() -> (r: KeyBindingsList)
        ensures
            r.rows@.len() == 0,
    {
        KeyBindingsList { rows: Vec::new() }
    }

    /// Appends a blank separator row.
    pub fn empty(&mut self)
        ensures
            final(self).rows@ == old(self).rows@.push(BindingRow::Empty),
    {
        self.rows.push(BindingRow::Empty);
    }

    /// Appends a section heading.
    pub fn heading(&mut self, name: &str)
        ensures
            final(self).rows@.len() == old(self).rows@.len() + 1,
            final(self).rows@.take(old(self).rows@.len() as int) == old(self).rows@,
            final(self).rows@.last() matches BindingRow::Heading { name: n } && n@ == name@,
    {
        self.rows.push(BindingRow::Heading { name: name.to_owned() });
        proof {
            assert(self.rows@.take(self.rows@.len() - 1) =~= old(self).rows@);
        }
    }

    /// Appends a binding row: the keys and their description.
    pub fn binding(&mut self, binding: &str, description: &str)
        ensures
            final(self).rows@.len() == old(self).rows@.len() + 1,
            final(self).rows@.take(old(self).rows@.len() as int) == old(self).rows@,
            final(self).rows@.last() matches BindingRow::Binding { binding: b, description: d }
                && b@ == binding@ && d@ == description@,
    {
        self.rows.push(
            BindingRow::Binding { binding: binding.to_owned(), description: description.to_owned() },
        );
        proof {
            assert(self.rows@.take(self.rows@.len() - 1) =~= old(self).rows@);
        }
    }

    /// Appends a continuation row for the previous binding's description.
    pub fn binding_ctd(&mut self, description: &str)
        ensures
            final(self).rows@.len() == old(self).rows@.len() + 1,
            final(self).rows@.take(old(self).rows@.len() as int) == old(self).rows@,
            final(self).rows@.last() matches BindingRow::BindingCtd { description: d } && d@
                == description@,
    {
        self.rows.push(BindingRow::BindingCtd { description: description.to_owned() });
        proof {
            assert(self.rows@.take(self.rows@.len() - 1) =~= old(self).rows@);
        }
    }
}

} // verus!

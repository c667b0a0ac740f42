//! The menu that reads `config.json`: the first entry with the chosen
//! name is carried out.

use vstd::prelude::*;

use crate::text::{concat, str_eq};

verus! {

/// An entry of the menu's configuration.
pub enum MenuItem {
    /// Runs `cmd` with `/bin/sh -c`.
    Cmd { name: String, cmd: String },
    /// Opens the menu configured in the directory `dir`.
    Dir { name: String, dir: String },
}

/// Every entry, a command or a submenu, is named, and so picked, by its
/// `name` field.
pub proof fn law_entry_named_by_name(item: MenuItem)
    ensures
        item matches MenuItem::Cmd { name, .. } ==> item.name_view() == name@,
        item matches MenuItem::Dir { name, .. } ==> item.name_view() == name@,
{
}

impl MenuItem {
    /// The name shown for the entry.
    pub open spec fn name_view(&self) -> Seq<char> {
        match self {
            MenuItem::Cmd { name, .. } => name@,
            MenuItem::Dir { name, .. } => name@,
        }
    }

    /// The name shown for the entry.
    pub fn name(&self) -> (r: &str)
        ensures
            r@ == self.name_view(),
    {
        match self {
            MenuItem::Cmd { name: n, .. } => n.as_str(),
            MenuItem::Dir { name: n, .. } => n.as_str(),
        }
    }
}

/// The entry to carry out once `choice` was answered: the first entry of
/// that name, if there is one.
pub fn menu(items: &Vec<MenuItem>, choice: &str) -> (r: Option<usize>)
    ensures
        r matches Some(i) ==> i < items@.len() && items@[i as int].name_view() == choice@
            && forall|j: int| 0 <= j < i ==> items@[j].name_view() != choice@,
        r is None ==> forall|j: int| 0 <= j < items@.len() ==> items@[j].name_view() != choice@,
{
    let n = items.len();
    let mut i: usize = 0;
    while i < n
        invariant
            n == items@.len(),
            i <= n,
            forall|j: int| 0 <= j < i ==> items@[j].name_view() != choice@,
        decreases n - i,
    {
        if str_eq(items[i].name(), choice) {
            return Some(i);
        }
        i = i + 1;
    }
    None
}

/// The directory of this menu's configuration.
pub fn get_menu_dir(conf_dir: &str) -> (r: String)
    ensures
        r@ == conf_dir@ + "/menu"@,
{
    concat(conf_dir, "/menu")
}

} // verus!

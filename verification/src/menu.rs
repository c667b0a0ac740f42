//! The first menu: entries that run a command or open a submenu.

use vstd::prelude::*;

use crate::error::Error;
use crate::text::{concat, owned, str_eq};

verus! {

/// An entry of a menu's configuration.
pub enum MenuItem {
    /// Runs `cmd` with `/bin/sh -c`.
    Cmd { name: String, cmd: String },
    /// Opens the menu configured in the directory `dir`.
    Dir { name: String, dir: String },
}

/// Every entry, a command or a submenu, is named, and so picked, by its
/// `name` field.
pub proof fn law_entry_named_by_name(item: MenuItem)
    ensures
        item matches MenuItem::Cmd { name, .. } ==> item.name_view() == name@,
        item matches MenuItem::Dir { name, .. } ==> item.name_view() == name@,
{
}

impl MenuItem {
    /// The name shown for the entry.
    pub open spec fn name_view(&self) -> Seq<char> {
        match self {
            MenuItem::Cmd { name, .. } => name@,
            MenuItem::Dir { name, .. } => name@,
        }
    }

    /// The name shown for the entry.
    pub fn get_name(&self) -> (r: &str)
        ensures
            r@ == self.name_view(),
    {
        match self {
            MenuItem::Cmd { name, .. } => name.as_str(),
            MenuItem::Dir { name, .. } => name.as_str(),
        }
    }
}

/// The names shown, in the order of the configuration.
pub fn names(items: &Vec<MenuItem>) -> (r: Vec<String>)
    ensures
        r@.len() == items@.len(),
        forall|i: int| 0 <= i < r@.len() ==> #[trigger] r@[i]@ == items@[i].name_view(),
{
    let n = items.len();
    let mut out: Vec<String> = Vec::new();
    let mut i: usize = 0;
    while i < n
        invariant
            n == items@.len(),
            i <= n,
            out@.len() == i,
            forall|j: int| 0 <= j < i ==> #[trigger] out@[j]@ == items@[j].name_view(),
        decreases n - i,
    {
        out.push(owned(items[i].get_name()));
        i = i + 1;
    }
    out
}

/// The entries to carry out once `choice` was answered: every entry of
/// that name, in the order of the configuration.
pub fn menu(items: &Vec<MenuItem>, choice: &str) -> (r: Vec<usize>)
    ensures
        forall|k: int| 0 <= k < r@.len() ==> #[trigger] r@[k] < items@.len()
            && items@[r@[k] as int].name_view() == choice@,
        forall|k: int, l: int| 0 <= k < l < r@.len() ==> r@[k] < r@[l],
        forall|i: int| 0 <= i < items@.len() && #[trigger] items@[i].name_view() == choice@
            ==> r@.contains(i as usize),
{
    let n = items.len();
    let mut out: Vec<usize> = Vec::new();
    let mut i: usize = 0;
    while i < n
        invariant
            n == items@.len(),
            i <= n,
            forall|k: int| 0 <= k < out@.len() ==> #[trigger] out@[k] < i
                && items@[out@[k] as int].name_view() == choice@,
            forall|k: int, l: int| 0 <= k < l < out@.len() ==> out@[k] < out@[l],
            forall|j: int| 0 <= j < i && #[trigger] items@[j].name_view() == choice@
                ==> out@.contains(j as usize),
        decreases n - i,
    {
        if str_eq(items[i].get_name(), choice) {
            let ghost before = out@;
            out.push(i);
            assert forall|j: int| 0 <= j < i + 1 && #[trigger] items@[j].name_view() == choice@
                implies out@.contains(j as usize) by {
                if j < i {
                    let k = choose|k: int| 0 <= k < before.len() && before[k] == j as usize;
                    assert(out@[k] == j as usize);
                } else {
                    assert(out@[out@.len() - 1] == j as usize);
                }
            }
        } else {
            assert forall|j: int| 0 <= j < i + 1 && #[trigger] items@[j].name_view() == choice@
                implies out@.contains(j as usize) by {
                if j == i {
                    assert(false);
                }
            }
        }
        i = i + 1;
    }
    out
}

/// The configuration files, in the order in which they are looked for.
pub open spec fn config_names() -> Seq<Seq<char>> {
    seq!["config.yaml"@, "config.yml"@, "config.json"@]
}

/// The configuration file to read: the first of `config.yaml`,
/// `config.yml` and `config.json` that `exists` marks as present, where
/// `exists[i]` tells whether the `i`-th of them is there.
pub fn load(exists: &Vec<bool>) -> (r: Result<String, Error>)
    ensures
        r matches Ok(p) ==> exists|i: int| 0 <= i < 3 && i < exists@.len() && exists@[i]
            && p@ == config_names()[i]
            && forall|j: int| 0 <= j < i ==> !exists@[j],
        r is Err ==> forall|j: int| 0 <= j < 3 && j < exists@.len() ==> !exists@[j],
        r matches Err(e) ==> e is ConfigNotFound,
{
    if exists.len() > 0 && exists[0] {
        Ok(owned("config.yaml"))
    } else if exists.len() > 1 && exists[1] {
        Ok(owned("config.yml"))
    } else if exists.len() > 2 && exists[2] {
        Ok(owned("config.json"))
    } else {
        Err(Error::ConfigNotFound)
    }
}

/// The directory of this menu's configuration.
pub fn get_menu_dir(conf_dir: &str) -> (r: String)
    ensures
        r@ == conf_dir@ + "/menu"@,
{
    concat(conf_dir, "/menu")
}

} // verus!

//! Read-side projection of the boot menu: derived from the current document
//! plus external menu metadata the engine does not own, recomputed on every
//! call and never cached across a configuration change.

use crate::document::{default_key, lookup, DirectiveDocument};
use crate::strutil::str_eq;
use crate::directive::no_newline;
use vstd::prelude::*;

verus! {

/// One entry of the external boot-menu source (menu files the engine reads
/// but does not own), reduced to the plain values the projection needs.
pub struct MenuEntry {
    pub title: String,
    pub identifier: String,
}

/// Mathematical model of a [`MenuEntry`].
pub ghost struct MenuEntryModel {
    pub title: Seq<char>,
    pub identifier: Seq<char>,
}

impl View for MenuEntry {
    type V = MenuEntryModel;

    open spec fn view(&self) -> MenuEntryModel {
        MenuEntryModel { title: self.title@, identifier: self.identifier@ }
    }
}

/// A menu entry the document can refer to: single-line fields.
pub open spec fn menu_entry_wf(e: MenuEntryModel) -> bool {
    no_newline(e.title) && no_newline(e.identifier)
}

/// A selectable boot-menu choice, derived on demand; `is_default` holds
/// exactly when the document's default directive names this entry.
pub struct BootEntry {
    pub title: String,
    pub identifier: String,
    pub is_default: bool,
}

impl BootEntry {
    /// Derives the boot-menu choices from the current document and the menu
    /// source: one entry per menu item, in menu order, and an entry is the
    /// default exactly when the first `GRUB_DEFAULT` assignment equals its
    /// identifier.
    pub fn get_entries(doc: &DirectiveDocument, menu: &Vec<MenuEntry>) -> (r: Vec<BootEntry>)
        ensures
            r@.len() == menu@.len(),
            forall|i: int|
                0 <= i < menu@.len() ==> {
                    &&& (#[trigger] r@[i]).title@ == menu@[i]@.title
                    &&& r@[i].identifier@ == menu@[i]@.identifier
                    &&& (r@[i].is_default <==> lookup(doc@, default_key()) == Some(
                        menu@[i]@.identifier,
                    ))
                },
    {
        let chosen = doc.get("GRUB_DEFAULT");
        proof {
            reveal_strlit("GRUB_DEFAULT");
        }
        let mut out: Vec<BootEntry> = Vec::new();
        let n = menu.len();
        let mut i: usize = 0;
        while i < n
            invariant
                n == menu@.len(),
                i <= n,
                out@.len() == i,
                match chosen {
                    Some(v) => lookup(doc@, default_key()) == Some(v@),
                    None => lookup(doc@, default_key()) is None,
                },
                forall|j: int|
                    0 <= j < i ==> {
                        &&& (#[trigger] out@[j]).title@ == menu@[j]@.title
                        &&& out@[j].identifier@ == menu@[j]@.identifier
                        &&& (out@[j].is_default <==> lookup(doc@, default_key()) == Some(
                            menu@[j]@.identifier,
                        ))
                    },
            decreases n - i,
        {
            let e = &menu[i];
            let is_default = match &chosen {
                Some(v) => str_eq(v.as_str(), e.identifier.as_str()),
                None => false,
            };
            out.push(
                BootEntry {
                    title: e.title.clone(),
                    identifier: e.identifier.clone(),
                    is_default,
                },
            );
            i = i + 1;
        }
        out
    }
}

} // verus!

//! Pause-menu state: a small list of entries with one hovered row. Input
//! devices and rendering live outside this crate; the menu only decides how
//! pressed buttons move the hover and what was selected.

use vstd::prelude::*;
use crate::Sprite;
use crate::game_object::JobStationVariant;

verus! {

/// Which of the three kinds of menu interaction the player made.
#[derive(Clone, Copy, PartialEq, Eq, Structural, Debug)]
pub enum MenuAction {
    Select,
    Next,
    Previous,
}

/// One row of a menu.
#[derive(Clone, Copy, PartialEq, Eq, Structural, Debug)]
pub enum MenuEntry {
    Quit,
    Continue,
    Options,
    Build,
    BuildSelect(JobStationVariant),
    ManageCharacters,
    ManageCharacter { brain_index: usize },
    Volume,
    FlipAcceptCancel(bool),
}

impl MenuEntry {
    /// The sprite drawn for this row, if it has one of its own.
    pub fn sprite(self) -> (r: Option<Sprite>)
        ensures
            r == match self {
                MenuEntry::Quit => Some(Sprite::MenuItemQuit),
                MenuEntry::Continue => Some(Sprite::MenuItemContinue),
                MenuEntry::Options => Some(Sprite::MenuItemOptions),
                MenuEntry::Build => Some(Sprite::MenuItemBuild),
                MenuEntry::BuildSelect(_) => None::<Sprite>,
                MenuEntry::ManageCharacters => Some(Sprite::MenuItemManageChars),
                MenuEntry::ManageCharacter { .. } => None::<Sprite>,
                MenuEntry::Volume => Some(Sprite::MenuItemVolume),
                MenuEntry::FlipAcceptCancel(flip) => if flip {
                    Some(Sprite::MenuItemFlipACtrue)
                } else {
                    Some(Sprite::MenuItemFlipACfalse)
                },
            },
    {
        match self {
            MenuEntry::Quit => Some(Sprite::MenuItemQuit),
            MenuEntry::Continue => Some(Sprite::MenuItemContinue),
            MenuEntry::Options => Some(Sprite::MenuItemOptions),
            MenuEntry::Build => Some(Sprite::MenuItemBuild),
            MenuEntry::BuildSelect(_) => None,
            MenuEntry::ManageCharacters => Some(Sprite::MenuItemManageChars),
            MenuEntry::Volume => Some(Sprite::MenuItemVolume),
            MenuEntry::ManageCharacter { .. } => None,
            MenuEntry::FlipAcceptCancel(true) => Some(Sprite::MenuItemFlipACtrue),
            MenuEntry::FlipAcceptCancel(false) => Some(Sprite::MenuItemFlipACfalse),
        }
    }
}

/// One open menu: its rows and the hovered index.
pub struct Menu {
    entries: Vec<MenuEntry>,
    selected_index: usize,
    pub rendered: bool,
}

/// The menu system's mode: a stack of nested menus, or placing a building.
pub enum MenuMode {
    MenuStack(Vec<Menu>),
    BuildPlacement,
}

impl Menu {
    pub closed spec fn spec_entries(self) -> Seq<MenuEntry> {
        self.entries@
    }

    pub closed spec fn spec_hover_index(self) -> int {
        self.selected_index as int
    }

    pub closed spec fn spec_rendered(self) -> bool {
        self.rendered
    }

    /// The hover always sits on a row (menus are built non-empty or never
    /// hovered).
    pub closed spec fn wf(self) -> bool {
        if self.entries@.len() == 0 {
            self.selected_index == 0
        } else {
            self.selected_index < self.entries@.len()
        }
    }

    /// The top-level pause menu.
    pub fn main_menu() -> (r: Menu)
        ensures
            r.wf(),
            r.spec_entries() =~= seq![
                MenuEntry::Continue,
                MenuEntry::Build,
                MenuEntry::ManageCharacters,
                MenuEntry::Options,
                MenuEntry::Quit,
            ],
            r.spec_hover_index() == 0,
            r.spec_rendered(),
    {
        let mut entries: Vec<MenuEntry> = Vec::new();
        entries.push(MenuEntry::Continue);
        entries.push(MenuEntry::Build);
        entries.push(MenuEntry::ManageCharacters);
        entries.push(MenuEntry::Options);
        entries.push(MenuEntry::Quit);
        Menu { entries, selected_index: 0, rendered: true }
    }

    /// The options submenu.
    pub fn options(flip_accept_cancel: bool) -> (r: Menu)
        ensures
            r.wf(),
            r.spec_entries() =~= seq![
                MenuEntry::Volume,
                MenuEntry::FlipAcceptCancel(flip_accept_cancel),
            ],
            r.spec_hover_index() == 0,
            r.spec_rendered(),
    {
        let mut entries: Vec<MenuEntry> = Vec::new();
        entries.push(MenuEntry::Volume);
        entries.push(MenuEntry::FlipAcceptCancel(flip_accept_cancel));
        Menu { entries, selected_index: 0, rendered: true }
    }

    /// The character-management submenu: one row per character, up to
    /// eight.
    pub fn manage_characters(character_count: usize) -> (r: Menu)
        ensures
            r.wf(),
            r.spec_entries().len() == vstd::math::min(character_count as int, 8),
            forall|i: int|
                0 <= i < r.spec_entries().len() ==> r.spec_entries()[i] == (
                MenuEntry::ManageCharacter { brain_index: i as usize }),
            r.spec_hover_index() == 0,
            !r.spec_rendered(),
    {
        let count: usize = if character_count < 8 {
            character_count
        } else {
            8
        };
        let mut entries: Vec<MenuEntry> = Vec::new();
        let mut brain_index: usize = 0;
        while brain_index < count
            invariant
                brain_index <= count,
                count <= 8,
                entries@.len() == brain_index,
                forall|i: int|
                    0 <= i < brain_index ==> entries@[i] == (MenuEntry::ManageCharacter {
                        brain_index: i as usize,
                    }),
            decreases count - brain_index,
        {
            entries.push(MenuEntry::ManageCharacter { brain_index });
            brain_index = brain_index + 1;
        }
        Menu { entries, selected_index: 0, rendered: false }
    }

    pub fn len(&self) -> (r: usize)
        ensures
            r == self.spec_entries().len(),
    {
        self.entries.len()
    }

    pub fn hover_index(&self) -> (r: usize)
        ensures
            r == self.spec_hover_index(),
    {
        self.selected_index
    }

    /// The hovered row.
    pub fn hover_entry(&self) -> (r: MenuEntry)
        requires
            self.wf(),
            self.spec_entries().len() > 0,
        ensures
            r == self.spec_entries()[self.spec_hover_index()],
    {
        self.entries[self.selected_index]
    }

    pub fn entry(&self, index: usize) -> (r: &MenuEntry)
        requires
            index < self.spec_entries().len(),
        ensures
            *r == self.spec_entries()[index as int],
    {
        &self.entries[index]
    }

    /// Rewrites one row; used to toggle stateful entries after selection.
    pub fn set_entry(&mut self, index: usize, entry: MenuEntry)
        requires
            index < old(self).spec_entries().len(),
        ensures
            final(self).wf() == old(self).wf(),
            final(self).spec_entries() == old(self).spec_entries().update(index as int, entry),
            final(self).spec_hover_index() == old(self).spec_hover_index(),
            final(self).spec_rendered() == old(self).spec_rendered(),
    {
        self.entries[index] = entry;
    }

    /// The sprite for a row, if the row exists and has one.
    pub fn sprite(&self, index: usize) -> (r: Option<Sprite>)
        ensures
            index >= self.spec_entries().len() ==> r is None,
    {
        if index < self.entries.len() {
            self.entries[index].sprite()
        } else {
            None
        }
    }

    /// Moves the hover by the pressed up/down buttons, then reports the
    /// hovered row and the action the remaining pressed buttons mean:
    /// accept selects, left steps back, right steps forward.
    pub fn update(&mut self, up: bool, down: bool, left: bool, right: bool, accept: bool) -> (r:
        Option<(usize, MenuAction)>)
        requires
            old(self).wf(),
            old(self).spec_entries().len() > 0,
        ensures
            final(self).wf(),
            final(self).spec_entries() == old(self).spec_entries(),
            final(self).spec_rendered() == old(self).spec_rendered(),
            ({
                let moved = if up && old(self).spec_hover_index() > 0 {
                    old(self).spec_hover_index() - 1
                } else {
                    old(self).spec_hover_index()
                };
                let hovered = if down && moved + 1 < old(self).spec_entries().len() {
                    moved + 1
                } else {
                    moved
                };
                &&& final(self).spec_hover_index() == hovered
                &&& r == if accept {
                    Some((hovered as usize, MenuAction::Select))
                } else if left {
                    Some((hovered as usize, MenuAction::Previous))
                } else if right {
                    Some((hovered as usize, MenuAction::Next))
                } else {
                    None::<(usize, MenuAction)>
                }
            }),
    {
        if up && self.selected_index > 0 {
            self.selected_index = self.selected_index - 1;
        }
        if down && self.selected_index < self.entries.len() - 1 {
            self.selected_index = self.selected_index + 1;
        }
        if accept {
            Some((self.selected_index, MenuAction::Select))
        } else if left {
            Some((self.selected_index, MenuAction::Previous))
        } else if right {
            Some((self.selected_index, MenuAction::Next))
        } else {
            None
        }
    }
}

} // verus!

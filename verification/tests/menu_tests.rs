use colony_core::menu::{Menu, MenuAction, MenuEntry};
use colony_core::Sprite;

#[test]
fn main_menu_layout() {
    let menu = Menu::main_menu();
    assert_eq!(menu.len(), 5);
    assert_eq!(menu.hover_index(), 0);
    assert_eq!(*menu.entry(0), MenuEntry::Continue);
    assert_eq!(*menu.entry(4), MenuEntry::Quit);
    assert_eq!(menu.sprite(4), Some(Sprite::MenuItemQuit));
    assert_eq!(menu.sprite(9), None);
}

#[test]
fn hover_moves_and_stops_at_the_edges() {
    let mut menu = Menu::main_menu();
    assert_eq!(menu.update(true, false, false, false, false), None);
    assert_eq!(menu.hover_index(), 0);
    for expected in [1, 2, 3, 4, 4] {
        menu.update(false, true, false, false, false);
        assert_eq!(menu.hover_index(), expected);
    }
}

#[test]
fn update_reports_the_selection() {
    let mut menu = Menu::options(false);
    let selected = menu.update(false, true, false, false, true);
    assert_eq!(selected, Some((1, MenuAction::Select)));
    assert_eq!(*menu.entry(1), MenuEntry::FlipAcceptCancel(false));
    menu.set_entry(1, MenuEntry::FlipAcceptCancel(true));
    assert_eq!(*menu.entry(1), MenuEntry::FlipAcceptCancel(true));
    let next = menu.update(false, false, false, true, false);
    assert_eq!(next, Some((1, MenuAction::Next)));
    let previous = menu.update(false, false, true, false, false);
    assert_eq!(previous, Some((1, MenuAction::Previous)));
}

#[test]
fn manage_characters_caps_at_eight_rows() {
    let menu = Menu::manage_characters(3);
    assert_eq!(menu.len(), 3);
    assert_eq!(*menu.entry(2), MenuEntry::ManageCharacter { brain_index: 2 });
    let capped = Menu::manage_characters(20);
    assert_eq!(capped.len(), 8);
    assert_eq!(Menu::manage_characters(0).len(), 0);
}

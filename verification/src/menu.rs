//! The menu that a client shows while it does not race.

use vstd::prelude::*;
use vstd::string::StringExecFns;

use crate::client::Game;
use crate::client::MenuEffect;
use crate::client::MenuItemAction;
use crate::client::Session;
use crate::interop::ClientId;
use crate::roster::Pick;

verus! {

broadcast use vstd::std_specs::btree::group_btree_axioms;

/// One line of the menu: what it says, and what choosing it does. A line
/// without an action is a label.
#[derive(Debug, PartialEq, Eq)]
pub struct MenuItem {
    pub text: String,
    pub action: Option<MenuItemAction>,
}

/// A line of the menu as mathematical values.
pub struct MenuLine {
    pub text: Seq<char>,
    pub action: Option<MenuItemAction>,
}

impl View for MenuItem {
    type V = MenuLine;

    open spec fn view(&self) -> MenuLine {
        MenuLine { text: self.text@, action: self.action }
    }
}

/// Where a line of the menu stands.
#[derive(Clone, Copy, Debug, PartialEq, Eq)]
pub enum MenuPlace {
    /// In the list, so many rows below its top.
    Row(usize),
    /// Apart from the list, in the corner.
    Corner,
}

/// The lines of a list of menu items.
pub open spec fn lines(items: Seq<MenuItem>) -> Seq<MenuLine> {
    items.map_values(|item: MenuItem| item@)
}

/// The lines of a menu, each with its place.
pub open spec fn placed_lines(items: Seq<(MenuPlace, MenuItem)>) -> Seq<(MenuPlace, MenuLine)> {
    items.map_values(|item: (MenuPlace, MenuItem)| (item.0, item.1@))
}

impl Session {
    /// The lines that every list starts with, whatever the client intends:
    /// the name, and what a host, a joined client and an idle client can do.
    pub open spec fn menu_head(self) -> Seq<MenuLine> {
        let name = MenuLine {
            text: "your name: "@ + self.name,
            action: Some(MenuItemAction::EditName),
        };
        if self.host_race {
            seq![
                name,
                MenuLine { text: "Start!"@, action: Some(MenuItemAction::StartRace) },
                MenuLine { text: "cancel"@, action: Some(MenuItemAction::Cancel) },
                MenuLine { text: "joined people:"@, action: None },
                MenuLine { text: "YOU"@, action: None },
            ]
        } else if self.join_race is Some {
            seq![
                name,
                MenuLine { text: "wait for the race to start"@, action: None },
                MenuLine { text: "leave"@, action: Some(MenuItemAction::Cancel) },
                MenuLine { text: "joined people:"@, action: None },
                MenuLine { text: "YOU"@, action: None },
            ]
        } else {
            seq![
                name,
                MenuLine { text: "Start SOLO!"@, action: Some(MenuItemAction::StartRace) },
                MenuLine { text: "Host a race"@, action: Some(MenuItemAction::Host) },
                MenuLine { text: "join race:"@, action: None },
            ]
        }
    }

    /// The other clients that the list names: for a host those that have
    /// joined it, for a joined client its host and those that have joined
    /// the same host, and for an idle client those that host a race.
    pub open spec fn menu_pick(self) -> Pick {
        if self.host_race {
            Pick::JoinedTo(self.my_id)
        } else {
            match self.join_race {
                Some(host) => Pick::RaceOf(host),
                None => Pick::Hosting,
            }
        }
    }

    /// What choosing the line of another client does: an idle client joins
    /// the host that the line names, and every other line is a label.
    pub open spec fn menu_action(self, id: ClientId) -> Option<MenuItemAction> {
        if !self.host_race && self.join_race is None {
            Some(MenuItemAction::Join(id))
        } else {
            None
        }
    }

    /// The list: the head, and then the other clients that it names, by
    /// their names and in the order of their numbers.
    pub open spec fn menu_rows(self) -> Seq<MenuLine> {
        let ids = self.picked_others(self.menu_pick());
        self.menu_head() + Seq::new(
            ids.len(),
            |i: int| MenuLine { text: self.others[ids[i]].name@, action: self.menu_action(ids[i]) },
        )
    }

    /// The line in the corner, which starts and stops spectating.
    pub open spec fn spectate_line(self) -> MenuLine {
        MenuLine {
            text: if self.spectating {
                "stop spectating"@
            } else {
                "spectate"@
            },
            action: Some(MenuItemAction::ToggleSpectating),
        }
    }

    /// The menu: for a spectator the line in the corner alone, else the list
    /// row by row, and then the line in the corner.
    pub open spec fn menu(self) -> Seq<(MenuPlace, MenuLine)> {
        let rows = self.menu_rows();
        let corner = (MenuPlace::Corner, self.spectate_line());
        if self.spectating {
            seq![corner]
        } else {
            Seq::new(rows.len(), |i: int| (MenuPlace::Row(i as usize), rows[i])).push(corner)
        }
    }
}

/// What the first of the lines under the pointer that can be chosen does;
/// `hovered` says of each line, in the order of the menu, whether it is
/// under the pointer.
pub open spec fn first_hit(menu: Seq<(MenuPlace, MenuLine)>, hovered: Seq<bool>) -> Option<
    MenuItemAction,
>
    decreases menu.len(),
{
    if menu.len() == 0 {
        None
    } else {
        match first_hit(menu.drop_last(), hovered) {
            Some(action) => Some(action),
            None => if menu.len() <= hovered.len() && hovered[menu.len() - 1] {
                menu.last().1.action
            } else {
                None
            },
        }
    }
}

/// What a click does, besides the change of the client's state.
#[derive(Debug, PartialEq, Eq)]
pub struct Click {
    /// What the chosen line asks for.
    pub effect: MenuEffect,
    /// Whether the editing of the name is to end.
    pub stop_text_edit: bool,
}

impl Session {
    /// The line that a click chooses: none while the client races, for the
    /// menu is not shown then.
    pub open spec fn clicked(self, hovered: Seq<bool>) -> Option<MenuItemAction> {
        if self.baby is Some {
            None
        } else {
            first_hit(self.menu(), hovered)
        }
    }

    /// The state after a click.
    pub open spec fn after_click(self, hovered: Seq<bool>) -> Session {
        match self.clicked(hovered) {
            Some(action) => self.chosen(action),
            None => self,
        }
    }

    /// What a click does: it does what the chosen line asks for, and ends
    /// the editing of the name unless the line is the name itself. A click
    /// that chooses no line ends the editing, and a click of a racing client
    /// does nothing.
    pub open spec fn click(self, hovered: Seq<bool>) -> Click {
        match self.clicked(hovered) {
            Some(action) => Click {
                effect: self.effect(action),
                stop_text_edit: action != MenuItemAction::EditName,
            },
            None => Click { effect: MenuEffect::Nothing, stop_text_edit: self.baby is None },
        }
    }
}

/// A label of the menu.
fn label(text: &str) -> (item: MenuItem)
    ensures
        item@ == (MenuLine { text: text@, action: None }),
{
    MenuItem { text: text.to_owned(), action: None }
}

/// A line of the menu that can be chosen.
fn button(text: &str, action: MenuItemAction) -> (item: MenuItem)
    ensures
        item@ == (MenuLine { text: text@, action: Some(action) }),
{
    MenuItem { text: text.to_owned(), action: Some(action) }
}

impl Game {
    /// The list of the menu, from its top.
    pub fn menu_rows(&self) -> (items: Vec<MenuItem>)
        ensures
            lines(items@) == self@.menu_rows(),
    {
        let mut items: Vec<MenuItem> = Vec::new();
        items.push(
            MenuItem {
                text: "your name: ".to_owned().concat(self.name.as_str()),
                action: Some(MenuItemAction::EditName),
            },
        );
        let pick = if self.host_race {
            items.push(button("Start!", MenuItemAction::StartRace));
            items.push(button("cancel", MenuItemAction::Cancel));
            items.push(label("joined people:"));
            items.push(label("YOU"));
            Pick::JoinedTo(self.my_id)
        } else if let Some(joined) = self.join_race {
            items.push(label("wait for the race to start"));
            items.push(button("leave", MenuItemAction::Cancel));
            items.push(label("joined people:"));
            items.push(label("YOU"));
            Pick::RaceOf(joined)
        } else {
            items.push(button("Start SOLO!", MenuItemAction::StartRace));
            items.push(button("Host a race", MenuItemAction::Host));
            items.push(label("join race:"));
            Pick::Hosting
        };
        let idle = !self.host_race && self.join_race.is_none();
        assert(lines(items@) =~= self@.menu_head());
        let ghost head = items@.len();
        let ids = self.picked_others(pick);
        let mut i: usize = 0;
        while i < ids.len()
            invariant
                0 <= i <= ids.len(),
                pick == self@.menu_pick(),
                idle == (!self.host_race && self.join_race is None),
                ids@ == self@.picked_others(pick),
                forall|id: ClientId| ids@.contains(id) ==> self@.others.contains_key(id),
                items@.len() == head + i,
                head == self@.menu_head().len(),
                forall|k: int| 0 <= k < head ==> (#[trigger] items@[k])@ == self@.menu_head()[k],
                forall|k: int|
                    0 <= k < i ==> (#[trigger] items@[head + k])@ == (MenuLine {
                        text: self@.others[ids@[k]].name@,
                        action: self@.menu_action(ids@[k]),
                    }),
            decreases ids.len() - i,
        {
            let id = ids[i];
            assert(ids@.contains(ids@[i as int]));
            let client = self.others.get(&id).unwrap();
            let action = if idle {
                Some(MenuItemAction::Join(id))
            } else {
                None
            };
            let ghost before = items@;
            items.push(MenuItem { text: client.name.clone(), action });
            proof {
                assert forall|k: int| 0 <= k < head implies (#[trigger] items@[k])@
                    == self@.menu_head()[k] by {
                    assert(items@[k] == before[k]);
                }
                assert forall|k: int| 0 <= k < i + 1 implies (#[trigger] items@[head + k])@ == (
                MenuLine {
                    text: self@.others[ids@[k]].name@,
                    action: self@.menu_action(ids@[k]),
                }) by {
                    if k < i {
                        assert(items@[head + k] == before[head + k]);
                    }
                }
            }
            i = i + 1;
        }
        proof {
            let rows = self@.menu_rows();
            let named = Seq::new(
                ids@.len(),
                |i: int|
                    MenuLine {
                        text: self@.others[ids@[i]].name@,
                        action: self@.menu_action(ids@[i]),
                    },
            );
            assert(rows == self@.menu_head() + named);
            assert(rows.len() == items@.len());
            assert forall|k: int| 0 <= k < items@.len() implies lines(items@)[k] == rows[k] by {
                if k < head {
                    assert(items@[k]@ == self@.menu_head()[k]);
                } else {
                    assert(items@[head + (k - head)]@ == named[k - head]);
                }
            }
            assert(lines(items@) =~= rows);
        }
        items
    }

    /// The menu, each line with its place.
    pub fn menu(&self) -> (menu: Vec<(MenuPlace, MenuItem)>)
        ensures
            placed_lines(menu@) == self@.menu(),
    {
        let spectate = (
            MenuPlace::Corner,
            button(
                if self.spectating {
                    "stop spectating"
                } else {
                    "spectate"
                },
                MenuItemAction::ToggleSpectating,
            ),
        );
        let mut result: Vec<(MenuPlace, MenuItem)> = Vec::new();
        if self.spectating {
            result.push(spectate);
            proof {
                assert(placed_lines(result@) =~= self@.menu());
            }
            return result;
        }
        let items = self.menu_rows();
        let ghost rows = self@.menu_rows();
        let ghost sent = items@;
        proof {
            assert(rows.len() == sent.len());
            assert forall|k: int| 0 <= k < sent.len() implies (#[trigger] sent[k])@ == rows[k] by {
                assert(lines(sent)[k] == sent[k]@);
            }
        }
        for item in it: items
            invariant
                it.seq() == sent,
                rows.len() == sent.len(),
                forall|k: int| 0 <= k < sent.len() ==> (#[trigger] sent[k])@ == rows[k],
                result@.len() == it.index(),
                forall|k: int|
                    0 <= k < it.index() ==> (#[trigger] result@[k]).0 == MenuPlace::Row(k as usize)
                        && result@[k].1@ == rows[k],
        {
            let row = result.len();
            let ghost before = result@;
            result.push((MenuPlace::Row(row), item));
            proof {
                assert forall|k: int| 0 <= k < it.index() + 1 implies (#[trigger] result@[k]).0
                    == MenuPlace::Row(k as usize) && result@[k].1@ == rows[k] by {
                    if k < it.index() {
                        assert(result@[k] == before[k]);
                    }
                }
            }
        }
        result.push(spectate);
        proof {
            assert(placed_lines(result@) =~= self@.menu());
        }
        result
    }

    /// Takes in a click; `hovered` says of each line of the menu, in the
    /// menu's order, whether it is under the pointer.
    pub fn click_menu(&mut self, hovered: &Vec<bool>) -> (click: Click)
        ensures
            final(self)@ == old(self)@.after_click(hovered@),
            click == old(self)@.click(hovered@),
    {
        if self.baby.is_some() {
            return Click { effect: MenuEffect::Nothing, stop_text_edit: false };
        }
        let menu = self.menu();
        let ghost shown = self@.menu();
        let mut i: usize = 0;
        while i < menu.len()
            invariant
                0 <= i <= menu.len(),
                placed_lines(menu@) == shown,
                shown == self@.menu(),
                self@ == old(self)@,
                self@.baby is None,
                first_hit(shown.take(i as int), hovered@) is None,
            decreases menu.len() - i,
        {
            proof {
                let upto = shown.take(i + 1);
                assert(upto.drop_last() =~= shown.take(i as int));
                assert(upto.last() == shown[i as int]);
                assert(placed_lines(menu@)[i as int] == (menu@[i as int].0, menu@[i as int].1@));
            }
            if i < hovered.len() && hovered[i] {
                if let Some(action) = menu[i].1.action {
                    proof {
                        let upto = shown.take(i + 1);
                        assert(upto.len() == i + 1);
                        assert(upto.last().1.action == Some(action));
                        assert(first_hit(upto, hovered@) == Some(action));
                        lemma_first_hit_stays(shown, hovered@, i + 1);
                    }
                    let effect = self.perform_menu_action(action);
                    let stop_text_edit = match action {
                        MenuItemAction::EditName => false,
                        _ => true,
                    };
                    return Click { effect, stop_text_edit };
                }
            }
            i = i + 1;
        }
        proof {
            assert(shown.take(menu@.len() as int) =~= shown);
        }
        Click { effect: MenuEffect::Nothing, stop_text_edit: true }
    }
}

/// A line that is hit among the first lines of a menu is hit in the whole
/// menu.
proof fn lemma_first_hit_stays(menu: Seq<(MenuPlace, MenuLine)>, hovered: Seq<bool>, n: int)
    requires
        0 <= n <= menu.len(),
        first_hit(menu.take(n), hovered) is Some,
    ensures
        first_hit(menu, hovered) == first_hit(menu.take(n), hovered),
    decreases menu.len() - n,
{
    if n < menu.len() {
        let longer = menu.take(n + 1);
        assert(longer.drop_last() =~= menu.take(n));
        lemma_first_hit_stays(menu, hovered, n + 1);
    } else {
        assert(menu.take(n) =~= menu);
    }
}

} // verus!

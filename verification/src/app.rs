//! The shell around the screens: which one is in front, what a key does, and what the screens are
//! told when the source or the settings change.
//!
//! The screens draw themselves and read their own keys. The shell decides whose key it is, and
//! says in a [`Step`] what a screen has to be asked or told.

use vstd::prelude::*;

use crate::config::{nothing_set, Config, Tier};
use crate::env::{copied_path, ancestor, answered, is_top, none_below, probe_target, Environment, EnvironmentView, Room, Tool};
use crate::order::items_copied;
use crate::paths::{path_of, FilePath, PathView};
use crate::screens::{
    defaults_of, silent, Account, AccountView, ChatMedia, ChatMediaView, HelpRow, History, HistoryView, Memories, MemoriesView, Overview,
    OverviewView, Pane, PaneView, RunAlert, RunDefaults, RunDefaultsView, Settings, SettingsLayers, SettingsView, TabActivity,
};
use crate::tab::{jumped, tab_at, Tab};
use crate::text::{lower, lowered, opt_view, path_quoted, path_quoted_text};

verus! {

// ---- keys ----

#[derive(Debug, Clone, Copy, PartialEq, Eq, Structural)]
pub enum KeyCode {
    Char(char),
    Left,
    Right,
    Up,
    Down,
    Enter,
    Esc,
    /// The alt key by itself.
    Alt,
    Other,
}

#[derive(Debug, Clone, Copy, PartialEq, Eq, Structural)]
pub struct Modifiers {
    pub shift: bool,
    pub control: bool,
    pub alt: bool,
    /// Any of the others.
    pub rest: bool,
}

#[derive(Debug, Clone, Copy, PartialEq, Eq, Structural)]
pub struct Key {
    pub code: KeyCode,
    pub modifiers: Modifiers,
}

#[derive(Debug, Clone, Copy, PartialEq, Eq, Structural)]
pub enum KeyKind {
    Press,
    Repeat,
    Release,
}

impl Key {
    /// Whether nothing is held with it.
    pub open spec fn is_bare(self) -> bool {
        !self.modifiers.shift && self.is_plain()
    }

    /// Whether nothing but shift is held with it.
    pub open spec fn is_plain(self) -> bool {
        !self.modifiers.control && !self.modifiers.alt && !self.modifiers.rest
    }

    /// Whether alt alone is held with it.
    pub open spec fn is_jump(self) -> bool {
        self.modifiers.alt && !self.modifiers.shift && !self.modifiers.control && !self.modifiers.rest
    }

    /// Whether it types a letter, in either case.
    pub open spec fn types(self, small: char, capital: char) -> bool {
        self.is_plain() && (self.code == KeyCode::Char(small) || self.code == KeyCode::Char(capital))
    }

    /// The way out from anywhere: control and a small c, without shift.
    pub open spec fn is_interrupt(self) -> bool {
        self.code == KeyCode::Char('c') && self.modifiers.control && !self.modifiers.shift
    }

    fn bare(self) -> (r: bool)
        ensures
            r == self.is_bare(),
    {
        !self.modifiers.shift && self.plain()
    }

    fn plain(self) -> (r: bool)
        ensures
            r == self.is_plain(),
    {
        !self.modifiers.control && !self.modifiers.alt && !self.modifiers.rest
    }

    fn typed(self, small: char, capital: char) -> (r: bool)
        ensures
            r == self.types(small, capital),
    {
        match self.code {
            KeyCode::Char(c) => self.plain() && (c == small || c == capital),
            _ => false,
        }
    }
}

// ---- what is open over the screens ----

/// The actions a screen offered when the menu was opened, and the row the caret is on.
#[derive(Debug, PartialEq, Eq)]
pub struct ActionMenuState {
    pub labels: Vec<&'static str>,
    pub hotkeys: Vec<Option<char>>,
    pub selected: usize,
}

/// What is open over the screen and takes its keys.
#[derive(Debug, PartialEq, Eq)]
pub enum Modal {
    ActionMenu(ActionMenuState),
    Help { scroll: u16 },
}

#[verifier::ext_equal]
pub struct MenuView {
    pub labels: Seq<&'static str>,
    pub hotkeys: Seq<Option<char>>,
    pub selected: int,
}

#[verifier::ext_equal]
pub enum ModalView {
    ActionMenu(MenuView),
    Help { scroll: u16 },
}

impl View for ActionMenuState {
    type V = MenuView;

    open spec fn view(&self) -> MenuView {
        MenuView { labels: self.labels@, hotkeys: self.hotkeys@, selected: self.selected as int }
    }
}

impl View for Modal {
    type V = ModalView;

    open spec fn view(&self) -> ModalView {
        match *self {
            Modal::ActionMenu(menu) => ModalView::ActionMenu(menu@),
            Modal::Help { scroll } => ModalView::Help { scroll },
        }
    }
}

pub open spec fn opt_modal(modal: Option<Modal>) -> Option<ModalView> {
    match modal {
        Some(modal) => Some(modal@),
        None => None,
    }
}

/// What a key asks of a menu or of the help.
pub enum Choice {
    Keep,
    Close,
    Pick(&'static str),
}

/// The first row a hotkey belongs to, or the number of rows where it belongs to none.
pub open spec fn hotkey_at(hotkeys: Seq<Option<char>>, key: char) -> int
    decreases hotkeys.len(),
{
    if hotkeys.len() == 0 {
        0
    } else if hotkeys[0] == Some(key) {
        0
    } else {
        1 + hotkey_at(hotkeys.drop_first(), key)
    }
}

pub open spec fn picked(menu: MenuView, row: int) -> Choice {
    if 0 <= row < menu.labels.len() {
        Choice::Pick(menu.labels[row])
    } else {
        Choice::Keep
    }
}

/// The caret goes round, enter and a hotkey pick, escape and q close.
pub open spec fn menu_keyed(menu: MenuView, key: Key) -> (MenuView, Choice) {
    let rows = menu.labels.len() as int;
    if key.is_bare() && key.code == KeyCode::Up {
        (if rows > 0 { MenuView { selected: (menu.selected - 1) % rows, ..menu } } else { menu }, Choice::Keep)
    } else if key.is_bare() && key.code == KeyCode::Down {
        (if rows > 0 { MenuView { selected: (menu.selected + 1) % rows, ..menu } } else { menu }, Choice::Keep)
    } else if key.is_bare() && key.code == KeyCode::Enter {
        (menu, picked(menu, menu.selected))
    } else if key.code == KeyCode::Esc || key.types('q', 'Q') {
        (menu, Choice::Close)
    } else {
        match key.code {
            KeyCode::Char(c) => if key.is_plain() {
                let row = hotkey_at(menu.hotkeys, lower(c));
                (menu, if row < menu.hotkeys.len() { picked(menu, row) } else { Choice::Keep })
            } else {
                (menu, Choice::Keep)
            },
            _ => (menu, Choice::Keep),
        }
    }
}

/// The arrows scroll as far as there is text; escape, q and the question mark close.
pub open spec fn help_keyed(scroll: u16, key: Key, last: u16) -> (u16, Choice) {
    if key.is_bare() && key.code == KeyCode::Up {
        (if scroll == 0 { 0u16 } else { (scroll - 1) as u16 }, Choice::Keep)
    } else if key.is_bare() && key.code == KeyCode::Down {
        (if scroll < last { (scroll + 1) as u16 } else { last }, Choice::Keep)
    } else if key.is_plain() && (key.code == KeyCode::Esc || key.types('q', 'Q') || key.code == KeyCode::Char('?')) {
        (scroll, Choice::Close)
    } else {
        (scroll, Choice::Keep)
    }
}

proof fn lemma_hotkey_at(hotkeys: Seq<Option<char>>, key: char, row: int)
    requires
        0 <= row <= hotkeys.len(),
        forall|i: int| 0 <= i < row ==> hotkeys[i] != Some(key),
        row < hotkeys.len() ==> hotkeys[row] == Some(key),
    ensures
        hotkey_at(hotkeys, key) == row,
    decreases row,
{
    if row > 0 {
        let rest = hotkeys.drop_first();
        assert forall|i: int| 0 <= i < row - 1 implies rest[i] != Some(key) by {
            assert(rest[i] == hotkeys[i + 1]);
        }
        lemma_hotkey_at(rest, key, row - 1);
    }
}

impl ActionMenuState {
    fn pick(&self, row: usize) -> (r: Choice)
        ensures
            r == picked(self@, row as int),
    {
        if row < self.labels.len() {
            Choice::Pick(self.labels[row])
        } else {
            Choice::Keep
        }
    }

    fn row_of(&self, key: char) -> (r: usize)
        ensures
            r == hotkey_at(self.hotkeys@, key),
            r <= self.hotkeys@.len(),
    {
        let mut row: usize = 0;
        while row < self.hotkeys.len()
            invariant
                row <= self.hotkeys@.len(),
                forall|i: int| 0 <= i < row ==> self.hotkeys@[i] != Some(key),
            decreases self.hotkeys@.len() - row,
        {
            let found = match self.hotkeys[row] {
                Some(hotkey) => hotkey == key,
                None => false,
            };
            if found {
                proof {
                    lemma_hotkey_at(self.hotkeys@, key, row as int);
                }
                return row;
            }
            row += 1;
        }
        proof {
            lemma_hotkey_at(self.hotkeys@, key, row as int);
        }
        row
    }

    fn step(&mut self, up: bool)
        requires
            old(self).labels@.len() > 0,
        ensures
            final(self)@ == (MenuView {
                selected: (old(self)@.selected + (if up { -1int } else { 1int })) % (old(self)@.labels.len() as int),
                ..old(self)@
            }),
    {
        let rows: usize = self.labels.len();
        let at: usize = self.selected % rows;
        proof {
            let q = self.selected as int / rows as int;
            vstd::arithmetic::div_mod::lemma_fundamental_div_mod(self.selected as int, rows as int);
            assert(q * rows == rows * q) by (nonlinear_arith);
            assert((q - 1) * rows == rows * q - rows) by (nonlinear_arith);
            assert((q + 1) * rows == rows * q + rows) by (nonlinear_arith);
            if up {
                if at == 0 {
                    vstd::arithmetic::div_mod::lemma_fundamental_div_mod_converse(self.selected - 1, rows as int, q - 1, rows - 1);
                } else {
                    vstd::arithmetic::div_mod::lemma_fundamental_div_mod_converse(self.selected - 1, rows as int, q, at - 1);
                }
            } else if at == rows - 1 {
                vstd::arithmetic::div_mod::lemma_fundamental_div_mod_converse(self.selected + 1, rows as int, q + 1, 0);
            } else {
                vstd::arithmetic::div_mod::lemma_fundamental_div_mod_converse(self.selected + 1, rows as int, q, at + 1);
            }
        }
        self.selected = if up {
            if at == 0 {
                rows - 1
            } else {
                at - 1
            }
        } else if at == rows - 1 {
            0
        } else {
            at + 1
        };
    }

    /// What a key does to the menu.
    pub fn handle_key(&mut self, key: Key) -> (r: Choice)
        ensures
            (final(self)@, r) == menu_keyed(old(self)@, key),
    {
        match key.code {
            KeyCode::Up | KeyCode::Down => {
                if key.bare() && self.labels.len() > 0 {
                    self.step(key.code == KeyCode::Up);
                }
                Choice::Keep
            },
            KeyCode::Enter => if key.bare() {
                self.pick(self.selected)
            } else {
                Choice::Keep
            },
            KeyCode::Esc => Choice::Close,
            KeyCode::Char(c) => if key.typed('q', 'Q') {
                Choice::Close
            } else if key.plain() {
                let row: usize = self.row_of(lowered(c));
                if row < self.hotkeys.len() {
                    self.pick(row)
                } else {
                    Choice::Keep
                }
            } else {
                Choice::Keep
            },
            _ => Choice::Keep,
        }
    }
}

/// What a key does to the help scrolled to a row, where `last` is the furthest it scrolls.
pub fn handle_help_key(scroll: u16, key: Key, last: u16) -> (r: (u16, Choice))
    ensures
        r == help_keyed(scroll, key, last),
{
    match key.code {
        KeyCode::Up => if key.bare() {
            (if scroll == 0 { 0 } else { scroll - 1 }, Choice::Keep)
        } else {
            (scroll, Choice::Keep)
        },
        KeyCode::Down => if key.bare() {
            (if scroll < last { scroll + 1 } else { last }, Choice::Keep)
        } else {
            (scroll, Choice::Keep)
        },
        KeyCode::Esc => (scroll, if key.plain() { Choice::Close } else { Choice::Keep }),
        KeyCode::Char(c) => (
            scroll,
            if key.typed('q', 'Q') || (key.plain() && c == '?') { Choice::Close } else { Choice::Keep },
        ),
        _ => (scroll, Choice::Keep),
    }
}

/// A caret on a row stays on a row, and the menu's rows stay what they were.
pub proof fn law_the_caret_stays_on_a_row(menu: MenuView, key: Key)
    requires
        0 <= menu.selected < menu.labels.len(),
    ensures
        0 <= menu_keyed(menu, key).0.selected < menu.labels.len(),
        menu_keyed(menu, key).0.labels == menu.labels,
        menu_keyed(menu, key).0.hotkeys == menu.hotkeys,
{
    let rows = menu.labels.len() as int;
    vstd::arithmetic::div_mod::lemma_mod_bound(menu.selected - 1, rows);
    vstd::arithmetic::div_mod::lemma_mod_bound(menu.selected + 1, rows);
}

/// Going down and then up comes back to the row, and so does going up and then down.
pub proof fn law_up_undoes_down(menu: MenuView, up: Key, down: Key)
    requires
        0 <= menu.selected < menu.labels.len(),
        up.is_bare() && up.code == KeyCode::Up,
        down.is_bare() && down.code == KeyCode::Down,
    ensures
        menu_keyed(menu_keyed(menu, down).0, up).0 == menu,
        menu_keyed(menu_keyed(menu, up).0, down).0 == menu,
{
    let rows = menu.labels.len() as int;
    let at = menu.selected;
    if at + 1 == rows {
        vstd::arithmetic::div_mod::lemma_fundamental_div_mod_converse(at + 1, rows, 1, 0);
    } else {
        vstd::arithmetic::div_mod::lemma_small_mod((at + 1) as nat, rows as nat);
    }
    if at == 0 {
        vstd::arithmetic::div_mod::lemma_fundamental_div_mod_converse(at - 1, rows, -1, rows - 1);
    } else {
        vstd::arithmetic::div_mod::lemma_small_mod((at - 1) as nat, rows as nat);
    }
    vstd::arithmetic::div_mod::lemma_fundamental_div_mod_converse(-1, rows, -1, rows - 1);
    vstd::arithmetic::div_mod::lemma_fundamental_div_mod_converse(rows, rows, 1, 0);
    vstd::arithmetic::div_mod::lemma_small_mod(at as nat, rows as nat);
    assert(menu_keyed(menu_keyed(menu, down).0, up).0.selected == at);
    assert(menu_keyed(menu_keyed(menu, up).0, down).0.selected == at);
}

// ---- the shell ----

pub struct App {
    tier: Tier,
    active: Tab,
    alt_held: bool,
    quit_armed: bool,
    running: bool,
    modal: Option<Modal>,
    activity: [Option<TabActivity>; 6],
    overview: Overview,
    memories: Memories,
    chat_media: ChatMedia,
    history: History,
    account: Account,
    settings: Settings,
}

#[verifier::ext_equal]
pub struct AppView {
    pub tier: Tier,
    pub active: Tab,
    pub alt_held: bool,
    pub quit_armed: bool,
    pub running: bool,
    pub modal: Option<ModalView>,
    /// By the tab's place.
    pub activity: Seq<Option<TabActivity>>,
    pub overview: OverviewView,
    pub memories: MemoriesView,
    pub chat_media: ChatMediaView,
    pub history: HistoryView,
    pub account: AccountView,
    pub settings: SettingsView,
}

impl View for App {
    type V = AppView;

    closed spec fn view(&self) -> AppView {
        AppView {
            tier: self.tier,
            active: self.active,
            alt_held: self.alt_held,
            quit_armed: self.quit_armed,
            running: self.running,
            modal: opt_modal(self.modal),
            activity: self.activity@,
            overview: self.overview@,
            memories: self.memories@,
            chat_media: self.chat_media@,
            history: self.history@,
            account: self.account@,
            settings: self.settings@,
        }
    }
}

/// What a screen has to be asked or told before the shell is done with a key.
pub enum Step {
    Settled,
    /// The screen in front reads the key; [`App::screen_answered`] takes what it said.
    Ask,
    /// The tab's screen moves its caret back to its form.
    Ascend(Tab),
    /// The tab's screen does one of its actions.
    Act(Tab, &'static str),
    /// The source is read afresh from this path; see [`App::reprobe_source`].
    Reprobe(String),
}

impl AppView {
    /// The pane of a tab that drives runs.
    pub open spec fn pane_of(self, tab: Tab) -> Option<PaneView> {
        match tab {
            Tab::Memories => Some(self.memories.pane),
            Tab::ChatMedia => Some(self.chat_media.pane),
            Tab::History => Some(self.history.pane),
            _ => None,
        }
    }

    pub open spec fn alert_of(self, tab: Tab) -> Option<RunAlert> {
        match self.pane_of(tab) {
            Some(pane) => pane.alert,
            None => None,
        }
    }

    /// Whether the caret of the screen in front stands below its form.
    pub open spec fn is_descended(self) -> bool {
        match self.pane_of(self.active) {
            Some(pane) => pane.descended,
            None => self.active == Tab::Account && self.account.descended,
        }
    }

    /// Whether the screen in front is taking text.
    pub open spec fn is_editing(self) -> bool {
        match self.active {
            Tab::Settings => self.settings.editing,
            Tab::Overview => self.overview.editing,
            _ => false,
        }
    }

    pub open spec fn disarmed(self) -> AppView {
        AppView { quit_armed: false, ..self }
    }

    pub open spec fn switched(self, tab: Tab) -> AppView {
        AppView { active: tab, activity: self.activity.update(tab.place(), None), ..self }
    }

    /// The same with the pane of a tab changed, on a tab that has one.
    pub open spec fn with_pane(self, tab: Tab, pane: PaneView) -> AppView {
        match tab {
            Tab::Memories => AppView { memories: MemoriesView { pane, ..self.memories }, ..self },
            Tab::ChatMedia => AppView { chat_media: ChatMediaView { pane, ..self.chat_media }, ..self },
            Tab::History => AppView { history: HistoryView { pane, ..self.history }, ..self },
            _ => self,
        }
    }

    /// Whether a toast is up that a key may dismiss.
    pub open spec fn toast_yields(self) -> bool {
        !self.is_editing() && self.settings.toast
    }

    /// Without the toast, or without the alert in front where no toast yields.
    pub open spec fn dismissed(self) -> AppView {
        if self.toast_yields() {
            AppView { settings: SettingsView { toast: false, ..self.settings }, ..self }
        } else {
            match self.pane_of(self.active) {
                Some(pane) => self.with_pane(self.active, PaneView { alert: None, ..pane }),
                None => self,
            }
        }
    }

    /// The menu of what the screen in front offers, where it offers anything.
    pub open spec fn menu(self) -> Option<MenuView> {
        match self.pane_of(self.active) {
            Some(pane) => if pane.actions.len() > 0 {
                Some(MenuView { labels: pane.actions, hotkeys: pane.hotkeys, selected: 0 })
            } else {
                None
            },
            None => None,
        }
    }

    /// A menu has its caret on a row, nothing is open over an armed quit, and there is an entry
    /// for every tab: none is marked that is in front or that no run belongs to.
    pub open spec fn wf(self) -> bool {
        &&& self.activity.len() == 6
        &&& self.activity[self.active.place()] is None
        &&& self.activity[Tab::Overview.place()] is None
        &&& self.activity[Tab::Account.place()] is None
        &&& self.activity[Tab::Settings.place()] is None
        &&& self.modal is Some ==> !self.quit_armed
        &&& self.modal matches Some(ModalView::ActionMenu(menu)) ==> 0 <= menu.selected < menu.labels.len()
    }
}

/// What a key does while something is open over the screen.
pub open spec fn modal_keyed(app: AppView, key: Key, help_last: u16) -> (AppView, Step) {
    let (modal, choice) = match app.modal {
        Some(ModalView::ActionMenu(menu)) => {
            let (menu, choice) = menu_keyed(menu, key);
            (Some(ModalView::ActionMenu(menu)), choice)
        },
        Some(ModalView::Help { scroll }) => {
            let (scroll, choice) = help_keyed(scroll, key, help_last);
            (Some(ModalView::Help { scroll }), choice)
        },
        None => (None, Choice::Keep),
    };
    match choice {
        Choice::Keep => (AppView { modal, ..app }, Step::Settled),
        Choice::Close => (AppView { modal: None, ..app }, Step::Settled),
        Choice::Pick(label) => (
            AppView { modal: None, ..app },
            if app.pane_of(app.active) is Some { Step::Act(app.active, label) } else { Step::Settled },
        ),
    }
}

/// What a key does. The way out comes first, then what it dismisses, then what is open over the
/// screen; a letter belongs to the shell only while no text is being taken, and the rest is the
/// screen's.
pub open spec fn keyed(app: AppView, key: Key, help_last: u16) -> (AppView, Step) {
    if key.is_interrupt() {
        (AppView { running: false, ..app }, Step::Settled)
    } else if key.types('x', 'X') && (app.toast_yields() || app.alert_of(app.active) is Some) {
        (app.dismissed().disarmed(), Step::Settled)
    } else if app.modal is Some {
        modal_keyed(app, key, help_last)
    } else if key.types('q', 'Q') && app.is_descended() {
        (app.disarmed(), Step::Ascend(app.active))
    } else if key.types('q', 'Q') && !app.is_editing() {
        if app.quit_armed {
            (AppView { running: false, ..app }, Step::Settled)
        } else {
            (AppView { quit_armed: true, ..app }, Step::Settled)
        }
    } else if !app.is_editing() && key.types('?', '?') {
        (AppView { modal: Some(ModalView::Help { scroll: 0 }), ..app.disarmed() }, Step::Settled)
    } else if !app.is_editing() && key.types('a', 'A') {
        (
            match app.menu() {
                Some(menu) => AppView { modal: Some(ModalView::ActionMenu(menu)), ..app.disarmed() },
                None => app.disarmed(),
            },
            Step::Settled,
        )
    } else {
        (app.disarmed(), Step::Ask)
    }
}

impl App {
    fn pane(&self, tab: Tab) -> (r: Option<&Pane>)
        ensures
            match r {
                Some(pane) => self@.pane_of(tab) == Some(pane@),
                None => self@.pane_of(tab) is None,
            },
    {
        match tab {
            Tab::Memories => Some(&self.memories.pane),
            Tab::ChatMedia => Some(&self.chat_media.pane),
            Tab::History => Some(&self.history.pane),
            _ => None,
        }
    }

    /// The alert a tab's screen holds.
    #[must_use]
    pub fn screen_alert(&self, tab: Tab) -> (r: Option<&RunAlert>)
        ensures
            match r {
                Some(alert) => self@.alert_of(tab) == Some(*alert),
                None => self@.alert_of(tab) is None,
            },
    {
        match self.pane(tab) {
            Some(pane) => match &pane.alert {
                Some(alert) => Some(alert),
                None => None,
            },
            None => None,
        }
    }

    /// The alert in the footer: the one of the screen in front.
    #[must_use]
    pub fn alert(&self) -> (r: Option<&RunAlert>)
        ensures
            match r {
                Some(alert) => self@.alert_of(self@.active) == Some(*alert),
                None => self@.alert_of(self@.active) is None,
            },
    {
        self.screen_alert(self.active)
    }

    /// Whether the caret of the screen in front stands below its form.
    #[must_use]
    pub fn descended(&self) -> (r: bool)
        ensures
            r == self@.is_descended(),
    {
        match self.pane(self.active) {
            Some(pane) => pane.descended,
            None => match self.active {
                Tab::Account => self.account.descended,
                _ => false,
            },
        }
    }

    fn editing_text(&self) -> (r: bool)
        ensures
            r == self@.is_editing(),
    {
        match self.active {
            Tab::Settings => self.settings.editing,
            Tab::Overview => self.overview.editing,
            _ => false,
        }
    }

    fn dismiss_toast(&mut self) -> (r: bool)
        ensures
            r == old(self)@.settings.toast,
            final(self)@ == (AppView { settings: SettingsView { toast: false, ..old(self)@.settings }, ..old(self)@ }),
    {
        let up = self.settings.toast;
        self.settings.toast = false;
        up
    }

    fn dismiss_alert(&mut self) -> (r: bool)
        ensures
            r == (old(self)@.alert_of(old(self)@.active) is Some),
            final(self)@ == (match old(self)@.pane_of(old(self)@.active) {
                Some(pane) => old(self)@.with_pane(old(self)@.active, PaneView { alert: None, ..pane }),
                None => old(self)@,
            }),
    {
        let shown = self.alert().is_some();
        match self.active {
            Tab::Memories => {
                self.memories.pane.alert = None;
            },
            Tab::ChatMedia => {
                self.chat_media.pane.alert = None;
            },
            Tab::History => {
                self.history.pane.alert = None;
            },
            _ => {},
        }
        shown
    }

    /// Brings a tab to the front, which settles what was going on there.
    pub fn switch_to(&mut self, tab: Tab)
        ensures
            final(self)@ == old(self)@.switched(tab),
    {
        self.active = tab;
        let place: usize = tab.index();
        self.activity[place] = None;
    }

    fn open_action_menu(&self) -> (r: Option<ActionMenuState>)
        ensures
            match r {
                Some(menu) => self@.menu() == Some(menu@),
                None => self@.menu() is None,
            },
    {
        match self.pane(self.active) {
            Some(pane) => if pane.actions.len() > 0 {
                Some(ActionMenuState { labels: items_copied(&pane.actions), hotkeys: items_copied(&pane.hotkeys), selected: 0 })
            } else {
                None
            },
            None => None,
        }
    }

    /// What a key does while something is open over the screen. The help scrolls no further than
    /// `help_last`.
    pub fn handle_modal_key(&mut self, key: Key, help_last: u16) -> (r: Step)
        ensures
            (final(self)@, r) == modal_keyed(old(self)@, key, help_last),
    {
        let choice = match self.modal.take() {
            Some(Modal::ActionMenu(menu)) => {
                let mut menu = menu;
                let choice = menu.handle_key(key);
                self.modal = Some(Modal::ActionMenu(menu));
                choice
            },
            Some(Modal::Help { scroll }) => {
                let (scroll, choice) = handle_help_key(scroll, key, help_last);
                self.modal = Some(Modal::Help { scroll });
                choice
            },
            None => Choice::Keep,
        };
        match choice {
            Choice::Keep => Step::Settled,
            Choice::Close => {
                self.modal = None;
                Step::Settled
            },
            Choice::Pick(label) => {
                self.modal = None;
                match self.active {
                    Tab::Memories | Tab::ChatMedia | Tab::History => Step::Act(self.active, label),
                    _ => Step::Settled,
                }
            },
        }
    }

    /// What a key does. The help scrolls no further than `help_last`.
    pub fn handle_key(&mut self, key: Key, help_last: u16) -> (r: Step)
        ensures
            (final(self)@, r) == keyed(old(self)@, key, help_last),
    {
        let interrupt = match key.code {
            KeyCode::Char(c) => c == 'c' && key.modifiers.control && !key.modifiers.shift,
            _ => false,
        };
        if interrupt {
            self.running = false;
            return Step::Settled;
        }
        let editing = self.editing_text();
        if key.typed('x', 'X') {
            if !editing && self.settings.toast {
                self.dismiss_toast();
                self.quit_armed = false;
                return Step::Settled;
            }
            if self.alert().is_some() {
                self.dismiss_alert();
                self.quit_armed = false;
                return Step::Settled;
            }
        }
        if self.modal.is_some() {
            return self.handle_modal_key(key, help_last);
        }
        if key.typed('q', 'Q') {
            if self.descended() {
                self.quit_armed = false;
                return Step::Ascend(self.active);
            }
            if !editing {
                if self.quit_armed {
                    self.running = false;
                } else {
                    self.quit_armed = true;
                }
                return Step::Settled;
            }
        }
        self.quit_armed = false;
        if !editing {
            if key.typed('?', '?') {
                self.modal = Some(Modal::Help { scroll: 0 });
                return Step::Settled;
            }
            if key.typed('a', 'A') {
                match self.open_action_menu() {
                    Some(menu) => {
                        self.modal = Some(Modal::ActionMenu(menu));
                    },
                    None => {},
                }
                return Step::Settled;
            }
        }
        Step::Ask
    }

    /// What follows once the screen in front has read the key it was asked about.
    pub fn screen_answered(&mut self, key: Key, answer: ScreenAnswer) -> (r: Step)
        ensures
            (final(self)@, r) == moved_on(old(self)@, key, answer),
    {
        match answer {
            ScreenAnswer::Committed { consumed } => {
                match self.active {
                    Tab::Settings => self.refresh_run_defaults(),
                    _ => {},
                }
                if consumed {
                    Step::Settled
                } else {
                    self.move_tab(key)
                }
            },
            ScreenAnswer::Moved { source } => Step::Reprobe(source),
            ScreenAnswer::Consumed => Step::Settled,
            ScreenAnswer::Unhandled => self.move_tab(key),
        }
    }

    fn move_tab(&mut self, key: Key) -> (r: Step)
        ensures
            (final(self)@, r) == tab_moved(old(self)@, key),
    {
        match key.code {
            KeyCode::Left => {
                if key.bare() {
                    self.switch_to(self.active.previous());
                }
                Step::Settled
            },
            KeyCode::Right => {
                if key.bare() {
                    self.switch_to(self.active.next());
                }
                Step::Settled
            },
            KeyCode::Char(c) => {
                let jump = key.modifiers.alt && !key.modifiers.shift && !key.modifiers.control && !key.modifiers.rest;
                if jump && '0' <= c && c <= '9' {
                    match Tab::from_jump_digit(c as u32 - 48) {
                        Some(tab) => {
                            let left = self.active;
                            self.switch_to(tab);
                            Step::Ascend(left)
                        },
                        None => Step::Settled,
                    }
                } else {
                    Step::Settled
                }
            },
            _ => Step::Settled,
        }
    }

    /// What a key event does: the alt key alone shows or hides the jump digits, and letting any
    /// other key go does nothing.
    pub fn handle_event(&mut self, key: Key, kind: KeyKind, help_last: u16) -> (r: Step)
        ensures
            (final(self)@, r) == happened(old(self)@, key, kind, help_last),
    {
        if key.code == KeyCode::Alt {
            self.alt_held = kind != KeyKind::Release;
            Step::Settled
        } else if kind != KeyKind::Release {
            self.handle_key(key, help_last)
        } else {
            Step::Settled
        }
    }

    /// Moves the run forms to what the settings now come to.
    pub fn refresh_run_defaults(&mut self)
        ensures
            final(self)@ == refreshed(old(self)@),
    {
        let defaults = self.settings.effective();
        let out_root = defaults.out_root;
        self.memories.apply_run_defaults(out_root.clone(), copied_path(&defaults.ffmpeg), defaults.transcode);
        self.chat_media.apply_run_defaults(out_root.clone(), defaults.ffmpeg, defaults.transcode, defaults.overlay_mode);
        self.history.apply_out_root(out_root);
    }

    /// Hands in what the run screens say after their timer went off, and marks the tab of a run
    /// that ended out of sight.
    pub fn tick(&mut self, memories: Pane, chat_media: Pane, history: Pane, toast: bool)
        ensures
            final(self)@ == ticked(old(self)@, memories@, chat_media@, history@, toast),
    {
        let before = (self.memories.pane.alert.is_some(), self.chat_media.pane.alert.is_some(), self.history.pane.alert.is_some());
        self.memories.pane = memories;
        self.chat_media.pane = chat_media;
        self.history.pane = history;
        self.settings.toast = toast;
        self.record_activity(Tab::Memories, before.0);
        self.record_activity(Tab::ChatMedia, before.1);
        self.record_activity(Tab::History, before.2);
    }

    fn record_activity(&mut self, tab: Tab, before: bool)
        ensures
            final(self)@ == recorded(old(self)@, tab, before),
    {
        if !before && tab != self.active {
            let ended = match self.screen_alert(tab) {
                Some(alert) => Some(alert.activity()),
                None => None,
            };
            match ended {
                Some(kind) => {
                    let place: usize = tab.index();
                    self.activity[place] = Some(kind);
                },
                None => {},
            }
        }
    }

    /// Whether the shell has to wake without a key: while a run is under way or the toast is up.
    #[must_use]
    pub fn awaits_tick(&self) -> (r: bool)
        ensures
            r == (self@.memories.pane.in_flight || self@.chat_media.pane.in_flight || self@.history.pane.in_flight
                || self@.settings.toast),
    {
        self.memories.pane.in_flight || self.chat_media.pane.in_flight || self.history.pane.in_flight || self.settings.toast
    }
}

/// What the screen in front made of a key.
pub enum ScreenAnswer {
    Unhandled,
    Consumed,
    /// The settings screen wrote the file anew.
    Committed { consumed: bool },
    /// The overview was given another source.
    Moved { source: String },
}

/// What a key the screen left alone does: the arrows step to the tab beside, and alt with a digit
/// jumps, which leaves the screen in front at its form.
pub open spec fn tab_moved(app: AppView, key: Key) -> (AppView, Step) {
    match key.code {
        KeyCode::Left => (if key.is_bare() { app.switched(tab_at(app.active.place() - 1)) } else { app }, Step::Settled),
        KeyCode::Right => (if key.is_bare() { app.switched(tab_at(app.active.place() + 1)) } else { app }, Step::Settled),
        KeyCode::Char(c) => if key.is_jump() && '0' <= c <= '9' {
            match jumped((c as u32 - 48) as u32) {
                Some(tab) => (app.switched(tab), Step::Ascend(app.active)),
                None => (app, Step::Settled),
            }
        } else {
            (app, Step::Settled)
        },
        _ => (app, Step::Settled),
    }
}

pub open spec fn moved_on(app: AppView, key: Key, answer: ScreenAnswer) -> (AppView, Step) {
    match answer {
        ScreenAnswer::Unhandled => tab_moved(app, key),
        ScreenAnswer::Consumed => (app, Step::Settled),
        ScreenAnswer::Committed { consumed } => {
            let app = if app.active == Tab::Settings {
                refreshed(app)
            } else {
                app
            };
            if consumed {
                (app, Step::Settled)
            } else {
                tab_moved(app, key)
            }
        },
        ScreenAnswer::Moved { source } => (app, Step::Reprobe(source)),
    }
}

pub open spec fn happened(app: AppView, key: Key, kind: KeyKind, help_last: u16) -> (AppView, Step) {
    if key.code == KeyCode::Alt {
        (AppView { alt_held: kind != KeyKind::Release, ..app }, Step::Settled)
    } else if kind != KeyKind::Release {
        keyed(app, key, help_last)
    } else {
        (app, Step::Settled)
    }
}

/// The run forms at what the settings come to, but for what a form set itself.
pub open spec fn refreshed(app: AppView) -> AppView {
    let defaults = app.settings.effective();
    AppView {
        memories: app.memories.moved_to(defaults.out_root, defaults.ffmpeg, defaults.transcode),
        chat_media: app.chat_media.moved_to(defaults.out_root, defaults.ffmpeg, defaults.transcode, defaults.overlay_mode),
        history: HistoryView { out_root: defaults.out_root, ..app.history },
        ..app
    }
}

/// A tab out of sight whose alert is new is marked with how its run ended.
pub open spec fn recorded(app: AppView, tab: Tab, before: bool) -> AppView {
    match app.alert_of(tab) {
        Some(alert) => if !before && tab != app.active {
            AppView { activity: app.activity.update(tab.place(), Some(alert.kind)), ..app }
        } else {
            app
        },
        None => app,
    }
}

pub open spec fn ticked(app: AppView, memories: PaneView, chat_media: PaneView, history: PaneView, toast: bool) -> AppView {
    let after = AppView {
        memories: MemoriesView { pane: memories, ..app.memories },
        chat_media: ChatMediaView { pane: chat_media, ..app.chat_media },
        history: HistoryView { pane: history, ..app.history },
        settings: SettingsView { toast, ..app.settings },
        ..app
    };
    recorded(
        recorded(
            recorded(after, Tab::Memories, app.memories.pane.alert is Some),
            Tab::ChatMedia,
            app.chat_media.pane.alert is Some,
        ),
        Tab::History,
        app.history.pane.alert is Some,
    )
}

// ---- the source and the machine ----

/// Every run screen at a source, at the defaults, and on a machine.
pub open spec fn placed(app: AppView, source: Seq<char>, defaults: RunDefaultsView, environment: EnvironmentView) -> AppView {
    AppView {
        settings: SettingsView { source, ..app.settings },
        memories: MemoriesView {
            source,
            out_root: defaults.out_root,
            environment,
            transcode: defaults.transcode,
            transcode_set: false,
            pane: silent(),
        },
        chat_media: ChatMediaView {
            source,
            out_root: defaults.out_root,
            environment,
            transcode: defaults.transcode,
            transcode_set: false,
            overlay_mode: defaults.overlay_mode,
            overlay_set: false,
            pane: silent(),
        },
        history: HistoryView { source, out_root: defaults.out_root, pane: silent() },
        account: AccountView { source, descended: false, help_keys: Seq::empty() },
        ..app
    }
}

/// What was found, with the ffmpeg the file names in the place of the one that was.
pub open spec fn composed(found: EnvironmentView, defaults: RunDefaultsView) -> EnvironmentView {
    EnvironmentView {
        ffmpeg: match defaults.ffmpeg {
            Some(ffmpeg) => Some(ffmpeg),
            None => found.ffmpeg,
        },
        ..found
    }
}

/// The screens once the machine was looked at: the overview beside the source's own disk, the run
/// screens beside the output root's.
pub open spec fn reprobed(
    app: AppView,
    source: Seq<char>,
    defaults: RunDefaultsView,
    found: EnvironmentView,
    room: Room,
) -> AppView {
    let environment = composed(found, defaults);
    placed(
        AppView {
            settings: SettingsView { detected_ffmpeg: found.ffmpeg, ..app.settings },
            overview: OverviewView { environment, editing: false, report: Seq::empty() },
            ..app
        },
        source,
        defaults,
        EnvironmentView { available_space: room.available, total_space: room.total, ..environment },
    )
}

/// The shell before anything was looked at.
pub open spec fn unplaced(tier: Tier) -> AppView {
    let nowhere = EnvironmentView { ffmpeg: None, vlc: None, available_space: None, total_space: None };
    placed(
        AppView {
            tier,
            active: Tab::Overview,
            alt_held: false,
            quit_armed: false,
            running: true,
            modal: None,
            activity: seq![None, None, None, None, None, None],
            overview: OverviewView { environment: nowhere, editing: false, report: Seq::empty() },
            settings: SettingsView {
                cli_out: None,
                config: nothing_set(),
                source: Seq::empty(),
                detected_ffmpeg: None,
                editing: false,
                toast: false,
                help_keys: Seq::empty(),
            },
            ..arbitrary()
        },
        Seq::empty(),
        defaults_of(None, nothing_set(), Seq::empty()),
        nowhere,
    )
}

/// Whether the machine can have been looked at with this outcome: each tool where it was located,
/// and the room of the source's disk.
pub open spec fn found_by<L: Fn(Tool) -> Option<FilePath>, M: Fn(&FilePath) -> Room>(
    locate: L,
    measure: M,
    source: Seq<char>,
    found: Environment,
) -> bool {
    &&& call_ensures(locate, (Tool::Ffmpeg,), found.ffmpeg)
    &&& call_ensures(locate, (Tool::Vlc,), found.vlc)
    &&& measured(measure, path_of(source), Room { available: found.available_space, total: found.total_space })
}

pub open spec fn measured<M: Fn(&FilePath) -> Room>(measure: M, path: PathView, room: Room) -> bool {
    exists|at: FilePath| at@ == path && #[trigger] call_ensures(measure, (&at,), room)
}

/// Whether a path is the nearest directory to another that is there.
pub open spec fn nearest<T: Fn(&FilePath) -> bool>(there: T, path: PathView, target: PathView) -> bool {
    exists|up: nat| #[trigger]
        ancestor(path, up) == Some(target) && none_below(there, path, up) && (answered(there, target, true) || (is_top(target)
            && answered(there, target, false)))
}

/// Whether the output root's disk can have been measured to have this room.
pub open spec fn room_for<T: Fn(&FilePath) -> bool, M: Fn(&FilePath) -> Room>(there: T, measure: M, out_root: Seq<char>, room: Room) -> bool {
    exists|target: PathView| #[trigger] nearest(there, path_of(out_root), target) && measured(measure, target, room)
}

/// Whether the screens can have come to stand so by looking at the machine.
pub open spec fn reprobed_by<L: Fn(Tool) -> Option<FilePath>, T: Fn(&FilePath) -> bool, M: Fn(&FilePath) -> Room>(
    app: AppView,
    source: Seq<char>,
    defaults: RunDefaultsView,
    locate: L,
    there: T,
    measure: M,
    after: AppView,
) -> bool {
    exists|found: Environment, room: Room|
        #![trigger found_by(locate, measure, source, found), room_for(there, measure, defaults.out_root, room)]
        found_by(locate, measure, source, found) && room_for(there, measure, defaults.out_root, room) && after == reprobed(
            app,
            source,
            defaults,
            found@,
            room,
        )
}

impl App {
    /// The shell before anything was looked at.
    #[must_use]
    pub fn new(tier: Tier) -> (r: Self)
        ensures
            r@ == unplaced(tier),
    {
        let defaults = RunDefaults::resolve(None, &Config::default(), "");
        proof {
            reveal_strlit("");
            assert(""@ =~= Seq::<char>::empty());
        }
        let app = App {
            tier,
            active: Tab::Overview,
            alt_held: false,
            quit_armed: false,
            running: true,
            modal: None,
            activity: [None, None, None, None, None, None],
            overview: Overview { environment: Environment::default(), editing: false, report: String::new() },
            memories: Memories::with_environment(
                String::new(),
                defaults.out_root.clone(),
                Environment::default(),
                defaults.transcode,
            ),
            chat_media: ChatMedia::with_environment(
                String::new(),
                defaults.out_root.clone(),
                Environment::default(),
                defaults.transcode,
                defaults.overlay_mode,
            ),
            history: History::with_environment(String::new(), defaults.out_root),
            account: Account::with_environment(String::new()),
            settings: Settings::with_layers(SettingsLayers::unset()),
        };
        assert(app@ =~= unplaced(tier));
        app
    }

    fn set_source_environment(&mut self, source: String, defaults: RunDefaults, environment: Environment)
        ensures
            final(self)@ == placed(old(self)@, source@, defaults@, environment@),
    {
        self.settings.source = source.clone();
        self.memories =
        Memories::with_environment(source.clone(), defaults.out_root.clone(), environment.clone(), defaults.transcode);
        self.chat_media =
        ChatMedia::with_environment(
            source.clone(),
            defaults.out_root.clone(),
            environment,
            defaults.transcode,
            defaults.overlay_mode,
        );
        self.history = History::with_environment(source.clone(), defaults.out_root);
        self.account = Account::with_environment(source);
    }

    /// The run screens at a source, at the defaults, and on a machine.
    #[must_use]
    pub fn with_source_environment(self, source: String, defaults: RunDefaults, environment: Environment) -> (r: Self)
        ensures
            r@ == placed(self@, source@, defaults@, environment@),
    {
        let mut app = self;
        app.set_source_environment(source, defaults, environment);
        app
    }

    #[must_use]
    pub fn with_overview(self, overview: Overview) -> (r: Self)
        ensures
            r@ == (AppView { overview: overview@, ..self@ }),
    {
        let mut app = self;
        app.overview = overview;
        app
    }

    /// Tells the screens what looking at the machine came to: what was found there beside the
    /// source's own disk, and the room at the output root.
    pub fn probed(&mut self, source: String, defaults: RunDefaults, found: Environment, room: Room)
        ensures
            final(self)@ == reprobed(old(self)@, source@, defaults@, found@, room),
    {
        let mut environment = found;
        let detected = copied_path(&environment.ffmpeg);
        match &defaults.ffmpeg {
            Some(ffmpeg) => {
                environment.ffmpeg = Some(ffmpeg.clone());
            },
            None => {},
        }
        let media = environment.measured_at(room);
        self.settings.detected_ffmpeg = detected;
        self.overview = Overview { environment, editing: false, report: String::new() };
        self.set_source_environment(source, defaults, media);
    }

    fn reprobe_with<L: Fn(Tool) -> Option<FilePath>, T: Fn(&FilePath) -> bool, M: Fn(&FilePath) -> Room>(
        &mut self,
        source: String,
        defaults: RunDefaults,
        locate: L,
        there: T,
        measure: M,
    )
        requires
            forall|tool: Tool| #[trigger] call_requires(locate, (tool,)),
            forall|asked: FilePath| #[trigger] call_requires(there, (&asked,)),
            forall|asked: FilePath| #[trigger] call_requires(measure, (&asked,)),
        ensures
            reprobed_by(old(self)@, source@, defaults@, locate, there, measure, final(self)@),
    {
        let at = FilePath::new(&source);
        let own = measure(&at);
        assert(measured(measure, path_of(source@), own));
        let found = Environment::from_probes(&locate, own.available, own.total);
        let root = FilePath::new(&defaults.out_root);
        let target = probe_target(&root, there);
        assert(nearest(there, path_of(defaults.out_root@), target@));
        let room = measure(&target);
        assert(measured(measure, target@, room));
        let ghost before = self@;
        let ghost (spelled, settled, seen) = (source@, defaults@, found);
        assert(found_by(locate, measure, spelled, seen));
        assert(room_for(there, measure, settled.out_root, room));
        self.probed(source, defaults, found, room);
        assert(self@ == reprobed(before, spelled, settled, seen@, room));
    }

    /// The shell over a source, once the machine was looked at: each tool is located once, and the
    /// disks of the source and of the output root are measured.
    #[must_use]
    pub fn start_with<L: Fn(Tool) -> Option<FilePath>, T: Fn(&FilePath) -> bool, M: Fn(&FilePath) -> Room>(
        tier: Tier,
        source: String,
        defaults: RunDefaults,
        layers: SettingsLayers,
        locate: L,
        there: T,
        measure: M,
    ) -> (r: Self)
        requires
            forall|tool: Tool| #[trigger] call_requires(locate, (tool,)),
            forall|asked: FilePath| #[trigger] call_requires(there, (&asked,)),
            forall|asked: FilePath| #[trigger] call_requires(measure, (&asked,)),
        ensures
            reprobed_by(opened(tier, layers), source@, defaults@, locate, there, measure, r@),
    {
        let mut app = App::new(tier);
        let ghost layers_before = layers;
        app.settings = Settings::with_layers(layers);
        assert(app@ =~= opened(tier, layers_before));
        app.reprobe_with(source, defaults, locate, there, measure);
        app
    }

    /// The shell over a source, given what looking at the machine came to.
    #[must_use]
    pub fn start(tier: Tier, source: String, defaults: RunDefaults, layers: SettingsLayers, found: Environment, room: Room) -> (r: Self)
        ensures
            r@ == reprobed(opened(tier, layers), source@, defaults@, found@, room),
    {
        let mut app = App::new(tier);
        let ghost layers_before = layers;
        app.settings = Settings::with_layers(layers);
        assert(app@ =~= opened(tier, layers_before));
        app.probed(source, defaults, found, room);
        app
    }

    /// Moves to another source: the defaults are settled anew as the settings stand, and the
    /// machine is looked at again.
    pub fn reprobe_source<L: Fn(Tool) -> Option<FilePath>, T: Fn(&FilePath) -> bool, M: Fn(&FilePath) -> Room>(
        &mut self,
        source: String,
        locate: L,
        there: T,
        measure: M,
    )
        requires
            forall|tool: Tool| #[trigger] call_requires(locate, (tool,)),
            forall|asked: FilePath| #[trigger] call_requires(there, (&asked,)),
            forall|asked: FilePath| #[trigger] call_requires(measure, (&asked,)),
        ensures
            reprobed_by(
                old(self)@,
                source@,
                defaults_of(old(self)@.settings.cli_out, old(self)@.settings.config, source@),
                locate,
                there,
                measure,
                final(self)@,
            ),
    {
        let defaults = RunDefaults::resolve(
            match &self.settings.cli_out {
                Some(out) => Some(out.as_str()),
                None => None,
            },
            &self.settings.config,
            source.as_str(),
        );
        self.reprobe_with(source, defaults, locate, there, measure);
    }
}

/// The shell with its settings opened over their layers.
pub open spec fn opened(tier: Tier, layers: SettingsLayers) -> AppView {
    AppView {
        settings: SettingsView {
            cli_out: opt_view(layers.cli_out),
            config: layers.config@,
            source: Seq::empty(),
            detected_ffmpeg: None,
            editing: false,
            toast: false,
            help_keys: Seq::empty(),
        },
        ..unplaced(tier)
    }
}

// ---- what the shell shows ----

/// A heading of the help and the keys under it.
#[derive(Debug, PartialEq, Eq)]
pub struct HelpSection {
    pub title: &'static str,
    pub rows: Vec<HelpRow>,
}

#[verifier::ext_equal]
pub struct HelpSectionView {
    pub title: Seq<char>,
    pub rows: Seq<(Seq<char>, Seq<char>)>,
}

pub open spec fn rows_view(rows: Seq<HelpRow>) -> Seq<(Seq<char>, Seq<char>)> {
    rows.map_values(|row: HelpRow| (row.keys@, row.what@))
}

impl View for HelpSection {
    type V = HelpSectionView;

    open spec fn view(&self) -> HelpSectionView {
        HelpSectionView { title: self.title@, rows: rows_view(self.rows@) }
    }
}

pub open spec fn sections_view(sections: Seq<HelpSection>) -> Seq<HelpSectionView> {
    sections.map_values(|section: HelpSection| section@)
}

/// The keys that work on every screen.
pub open spec fn global_keys() -> Seq<(Seq<char>, Seq<char>)> {
    seq![
        ("q"@, "back / quit"@),
        ("?"@, "help"@),
        ("a"@, "actions"@),
        ("← →"@, "switch tab"@),
        ("⌃c"@, "quit"@),
    ]
}

impl AppView {
    /// The keys the screen in front says it reads.
    pub open spec fn screen_keys(self) -> Seq<HelpRow> {
        match self.active {
            Tab::Memories => self.memories.pane.help_keys,
            Tab::ChatMedia => self.chat_media.pane.help_keys,
            Tab::History => self.history.pane.help_keys,
            Tab::Account => self.account.help_keys,
            Tab::Settings => self.settings.help_keys,
            Tab::Overview => Seq::empty(),
        }
    }

    pub open spec fn help(self) -> Seq<HelpSectionView> {
        let global = HelpSectionView { title: "global"@, rows: global_keys() };
        if self.screen_keys().len() == 0 {
            seq![global]
        } else {
            seq![global, HelpSectionView { title: self.active.words(), rows: rows_view(self.screen_keys()) }]
        }
    }

    /// What every screen but the overview says of the source, a line each.
    pub open spec fn report_lines(self) -> Seq<Seq<char>> {
        seq![
            "memories-source="@ + path_quoted(self.memories.source),
            "memories-out="@ + path_quoted(self.memories.out_root),
            "chat-source="@ + path_quoted(self.chat_media.source),
            "chat-out="@ + path_quoted(self.chat_media.out_root),
            "history-source="@ + path_quoted(self.history.source),
            "history-out="@ + path_quoted(self.history.out_root),
            "account-source="@ + path_quoted(self.account.source),
        ]
    }

    /// Every screen's own view of the source: what the overview reports, then the others' lines.
    pub open spec fn report(self) -> Seq<char> {
        self.overview.report + ended(self.report_lines())
    }
}

/// Some lines, each with the line break that ends it.
pub open spec fn ended(lines: Seq<Seq<char>>) -> Seq<char>
    decreases lines.len(),
{
    if lines.len() == 0 {
        Seq::empty()
    } else {
        ended(lines.drop_last()) + lines.last() + seq!['\n']
    }
}

/// Adds a line: a key and the path it has.
fn report_path(out: &mut String, key: &str, path: &str)
    ensures
        final(out)@ == old(out)@ + (key@ + path_quoted(path@)) + seq!['\n'],
        !path_quoted(path@).contains('\n'),
{
    out.append(key);
    out.append(&path_quoted_text(path));
    out.append("\n");
    proof {
        reveal_strlit("\n");
    }
    assert("\n"@ =~= seq!['\n']);
    assert(out@ =~= old(out)@ + (key@ + path_quoted(path@)) + seq!['\n']);
}

proof fn lemma_line(key: Seq<char>, value: Seq<char>)
    requires
        !key.contains('\n'),
        !value.contains('\n'),
    ensures
        !(key + value).contains('\n'),
{
    assert forall|i: int| 0 <= i < (key + value).len() implies (key + value)[i] != '\n' by {
        if i < key.len() {
            assert(key.contains(key[i]));
        } else {
            assert(value.contains(value[i - key.len()]));
        }
    }
}

impl App {
    /// The help: the keys that work everywhere, then those of the screen in front.
    #[must_use]
    pub fn help_sections(&self) -> (r: Vec<HelpSection>)
        ensures
            sections_view(r@) == self@.help(),
    {
        let mut global: Vec<HelpRow> = Vec::new();
        global.push(HelpRow { keys: "q", what: "back / quit" });
        global.push(HelpRow { keys: "?", what: "help" });
        global.push(HelpRow { keys: "a", what: "actions" });
        global.push(HelpRow { keys: "← →", what: "switch tab" });
        global.push(HelpRow { keys: "⌃c", what: "quit" });
        assert(rows_view(global@) =~= global_keys());
        let mut sections: Vec<HelpSection> = Vec::new();
        sections.push(HelpSection { title: "global", rows: global });
        let screen = match self.active {
            Tab::Memories => items_copied(&self.memories.pane.help_keys),
            Tab::ChatMedia => items_copied(&self.chat_media.pane.help_keys),
            Tab::History => items_copied(&self.history.pane.help_keys),
            Tab::Account => items_copied(&self.account.help_keys),
            Tab::Settings => items_copied(&self.settings.help_keys),
            Tab::Overview => Vec::new(),
        };
        if screen.len() > 0 {
            sections.push(HelpSection { title: self.active.label(), rows: screen });
        }
        assert(sections_view(sections@) =~= self@.help());
        sections
    }

    /// Every screen's own view of the source: what the overview reports, then a line for each path
    /// the others hold. A path never breaks its line.
    #[must_use]
    pub fn source_report(&self) -> (r: String)
        ensures
            r@ == self@.report(),
            forall|i: int| 0 <= i < self@.report_lines().len() ==> !(#[trigger] self@.report_lines()[i]).contains('\n'),
    {
        let mut out = self.overview.report.clone();
        report_path(&mut out, "memories-source=", &self.memories.source);
        report_path(&mut out, "memories-out=", &self.memories.out_root);
        report_path(&mut out, "chat-source=", &self.chat_media.source);
        report_path(&mut out, "chat-out=", &self.chat_media.out_root);
        report_path(&mut out, "history-source=", &self.history.source);
        report_path(&mut out, "history-out=", &self.history.out_root);
        report_path(&mut out, "account-source=", &self.account.source);
        proof {
            let lines = self@.report_lines();
            reveal_strlit("memories-source=");
            reveal_strlit("memories-out=");
            reveal_strlit("chat-source=");
            reveal_strlit("chat-out=");
            reveal_strlit("history-source=");
            reveal_strlit("history-out=");
            reveal_strlit("account-source=");
            lemma_line("memories-source="@, path_quoted(self@.memories.source));
            lemma_line("memories-out="@, path_quoted(self@.memories.out_root));
            lemma_line("chat-source="@, path_quoted(self@.chat_media.source));
            lemma_line("chat-out="@, path_quoted(self@.chat_media.out_root));
            lemma_line("history-source="@, path_quoted(self@.history.source));
            lemma_line("history-out="@, path_quoted(self@.history.out_root));
            lemma_line("account-source="@, path_quoted(self@.account.source));
            reveal_with_fuel(ended, 8);
            assert(lines.drop_last() =~= lines.take(6));
            assert(lines.take(6).drop_last() =~= lines.take(5));
            assert(lines.take(5).drop_last() =~= lines.take(4));
            assert(lines.take(4).drop_last() =~= lines.take(3));
            assert(lines.take(3).drop_last() =~= lines.take(2));
            assert(lines.take(2).drop_last() =~= lines.take(1));
            assert(lines.take(1).drop_last() =~= Seq::<Seq<char>>::empty());
            assert(out@ =~= self@.report());
        }
        out
    }

    /// Whether the screen in front offers anything to do.
    #[must_use]
    pub fn has_actions(&self) -> (r: bool)
        ensures
            r == (self@.menu() is Some),
    {
        match self.pane(self.active) {
            Some(pane) => pane.actions.len() > 0,
            None => false,
        }
    }

    /// The tier the screens' colors are made for.
    #[must_use]
    pub fn palette(&self) -> (r: Tier)
        ensures
            r == self@.tier,
    {
        self.tier
    }

    #[must_use]
    pub fn active(&self) -> (r: Tab)
        ensures
            r == self@.active,
    {
        self.active
    }

    /// What is going on at each tab out of sight, from the left.
    #[must_use]
    pub fn activity(&self) -> (r: &[Option<TabActivity>; 6])
        ensures
            r@ == self@.activity,
    {
        &self.activity
    }

    #[must_use]
    pub fn is_quit_armed(&self) -> (r: bool)
        ensures
            r == self@.quit_armed,
    {
        self.quit_armed
    }

    #[must_use]
    pub fn is_running(&self) -> (r: bool)
        ensures
            r == self@.running,
    {
        self.running
    }

    #[must_use]
    pub fn alt_held(&self) -> (r: bool)
        ensures
            r == self@.alt_held,
    {
        self.alt_held
    }

    #[must_use]
    pub fn modal(&self) -> (r: Option<&Modal>)
        ensures
            match r {
                Some(modal) => self@.modal == Some(modal@),
                None => self@.modal is None,
            },
    {
        match &self.modal {
            Some(modal) => Some(modal),
            None => None,
        }
    }

    #[must_use]
    pub fn overview(&self) -> (r: &Overview)
        ensures
            r@ == self@.overview,
    {
        &self.overview
    }

    #[must_use]
    pub fn memories(&self) -> (r: &Memories)
        ensures
            r@ == self@.memories,
    {
        &self.memories
    }

    #[must_use]
    pub fn chat_media(&self) -> (r: &ChatMedia)
        ensures
            r@ == self@.chat_media,
    {
        &self.chat_media
    }

    #[must_use]
    pub fn history(&self) -> (r: &History)
        ensures
            r@ == self@.history,
    {
        &self.history
    }

    #[must_use]
    pub fn account(&self) -> (r: &Account)
        ensures
            r@ == self@.account,
    {
        &self.account
    }

    #[must_use]
    pub fn settings(&self) -> (r: &Settings)
        ensures
            r@ == self@.settings,
    {
        &self.settings
    }

    pub fn overview_mut(&mut self) -> (r: &mut Overview)
        ensures
            (*r)@ == old(self)@.overview,
            final(self)@ == (AppView { overview: final(r)@, ..old(self)@ }),
    {
        &mut self.overview
    }

    pub fn memories_mut(&mut self) -> (r: &mut Memories)
        ensures
            (*r)@ == old(self)@.memories,
            final(self)@ == (AppView { memories: final(r)@, ..old(self)@ }),
    {
        &mut self.memories
    }

    pub fn chat_media_mut(&mut self) -> (r: &mut ChatMedia)
        ensures
            (*r)@ == old(self)@.chat_media,
            final(self)@ == (AppView { chat_media: final(r)@, ..old(self)@ }),
    {
        &mut self.chat_media
    }

    pub fn history_mut(&mut self) -> (r: &mut History)
        ensures
            (*r)@ == old(self)@.history,
            final(self)@ == (AppView { history: final(r)@, ..old(self)@ }),
    {
        &mut self.history
    }

    pub fn account_mut(&mut self) -> (r: &mut Account)
        ensures
            (*r)@ == old(self)@.account,
            final(self)@ == (AppView { account: final(r)@, ..old(self)@ }),
    {
        &mut self.account
    }

    pub fn settings_mut(&mut self) -> (r: &mut Settings)
        ensures
            (*r)@ == old(self)@.settings,
            final(self)@ == (AppView { settings: final(r)@, ..old(self)@ }),
    {
        &mut self.settings
    }
}

// ---- what holds of every key ----

/// Control and c leaves from anywhere, whatever is open.
pub proof fn law_the_interrupt_always_leaves(app: AppView, key: Key, help_last: u16)
    requires
        key.is_interrupt(),
    ensures
        !keyed(app, key, help_last).0.running,
{
}

/// No single key but the interrupt ends a shell whose quit is not armed, and one that ends an armed
/// one is a q with nothing open and no text being taken.
pub proof fn law_leaving_takes_two_presses(app: AppView, key: Key, help_last: u16)
    requires
        app.running,
        !keyed(app, key, help_last).0.running,
        !key.is_interrupt(),
    ensures
        app.quit_armed,
        key.types('q', 'Q'),
        app.modal is None,
        !app.is_descended(),
        !app.is_editing(),
{
}

/// A quit stays armed over nothing but the interrupt: every other key either ends the shell or
/// disarms it, while nothing is open.
pub proof fn law_every_other_key_disarms(app: AppView, key: Key, help_last: u16)
    requires
        app.quit_armed,
        app.wf(),
        !key.is_interrupt(),
    ensures
        !keyed(app, key, help_last).0.quit_armed || !keyed(app, key, help_last).0.running,
{
}

/// What is open over a screen takes every key but the interrupt and a dismissal: the tab in front,
/// the quit and the screens stay as they are, and no screen is asked.
pub proof fn law_what_is_open_takes_the_keys(app: AppView, key: Key, help_last: u16)
    requires
        app.modal is Some,
        !key.is_interrupt(),
        !key.types('x', 'X'),
    ensures
        keyed(app, key, help_last).0 == (AppView { modal: keyed(app, key, help_last).0.modal, ..app }),
        keyed(app, key, help_last).1 !is Ask,
        keyed(app, key, help_last).1 !is Ascend,
{
}

/// While a screen is taking text, no letter but the interrupt's is the shell's.
pub proof fn law_text_reaches_the_screen(app: AppView, key: Key, help_last: u16)
    requires
        app.is_editing(),
        app.modal is None,
        !key.is_interrupt(),
    ensures
        keyed(app, key, help_last) == (app.disarmed(), Step::Ask),
{
}

proof fn lemma_modal_key_keeps(app: AppView, key: Key, help_last: u16)
    requires
        app.wf(),
    ensures
        modal_keyed(app, key, help_last).0.wf(),
{
    match app.modal {
        Some(ModalView::ActionMenu(menu)) => law_the_caret_stays_on_a_row(menu, key),
        _ => {},
    }
}

/// A key leaves the tab in front and every tab's entry as they are.
proof fn lemma_key_marks_nothing(app: AppView, key: Key, help_last: u16)
    ensures
        keyed(app, key, help_last).0.active == app.active,
        keyed(app, key, help_last).0.activity == app.activity,
{
}

proof fn lemma_key_keeps(app: AppView, key: Key, help_last: u16)
    requires
        app.wf(),
    ensures
        keyed(app, key, help_last).0.wf(),
{
    lemma_modal_key_keeps(app, key, help_last);
    lemma_key_marks_nothing(app, key, help_last);
}

/// No key moves a caret off its menu, leaves something open over an armed quit, loses a tab's
/// entry, or marks a tab that is in front or that no run belongs to.
pub proof fn law_a_key_keeps_the_shell_well_formed(app: AppView, key: Key, kind: KeyKind, help_last: u16)
    requires
        app.wf(),
    ensures
        happened(app, key, kind, help_last).0.wf(),
        keyed(app, key, help_last).0.wf(),
        modal_keyed(app, key, help_last).0.wf(),
{
    lemma_modal_key_keeps(app, key, help_last);
    lemma_key_keeps(app, key, help_last);
}

/// Nor does what follows a screen's answer, a timer, another source, another tab, or anything done
/// to the screens themselves; and a shell starts so.
pub proof fn law_the_rest_keeps_the_shell_well_formed(
    app: AppView,
    key: Key,
    answer: ScreenAnswer,
    panes: (PaneView, PaneView, PaneView),
    toast: bool,
    source: Seq<char>,
    defaults: RunDefaultsView,
    found: EnvironmentView,
    room: Room,
    tier: Tier,
    layers: SettingsLayers,
    tab: Tab,
    other: AppView,
)
    requires
        app.wf(),
    ensures
        moved_on(app, key, answer).0.wf(),
        ticked(app, panes.0, panes.1, panes.2, toast).wf(),
        reprobed(app, source, defaults, found, room).wf(),
        placed(app, source, defaults, found).wf(),
        refreshed(app).wf(),
        app.switched(tab).wf(),
        (AppView {
            overview: other.overview,
            memories: other.memories,
            chat_media: other.chat_media,
            history: other.history,
            account: other.account,
            settings: other.settings,
            ..app
        }).wf(),
        unplaced(tier).wf(),
        opened(tier, layers).wf(),
{
}

/// In a well-formed shell only the run of a tab out of sight is marked: the tab in front is not,
/// nor are the overview, the account and the settings.
pub proof fn law_only_runs_out_of_sight_are_marked(app: AppView, tab: Tab)
    requires
        app.wf(),
    ensures
        app.activity.len() == Tab::ALL@.len(),
        Tab::ALL@[tab.place()] == tab,
        app.activity[tab.place()] is Some ==> tab != app.active && app.pane_of(tab) is Some,
{
}

/// Whatever changes the tab in front settles what was going on at the tab it goes to, and touches
/// no other tab's entry.
pub proof fn law_visiting_a_tab_settles_it(app: AppView, key: Key, answer: ScreenAnswer, other: Tab)
    requires
        app.wf(),
        moved_on(app, key, answer).0.active != app.active,
    ensures
        ({
            let after = moved_on(app, key, answer).0;
            &&& after.activity[after.active.place()] is None
            &&& other != after.active ==> after.activity[other.place()] == app.activity[other.place()]
        }),
{
}

/// A run that ends out of sight marks its tab once: a tab whose alert was there before the timer
/// went off, or that is in front, keeps the entry it had.
pub proof fn law_only_a_new_alert_marks_a_tab(
    app: AppView,
    memories: PaneView,
    chat_media: PaneView,
    history: PaneView,
    toast: bool,
    tab: Tab,
)
    requires
        app.wf(),
    ensures
        ({
            let after = ticked(app, memories, chat_media, history, toast);
            &&& app.alert_of(tab) is Some || tab == app.active || after.alert_of(tab) is None ==> after.activity[tab.place()]
                == app.activity[tab.place()]
            &&& app.alert_of(tab) is None && tab != app.active ==> match after.alert_of(tab) {
                Some(alert) => after.activity[tab.place()] == Some(alert.kind),
                None => true,
            }
        }),
{
}

/// A commit of the settings reaches every run form, and leaves what a form set itself.
pub proof fn law_a_commit_keeps_what_a_form_set(app: AppView)
    ensures
        ({
            let after = refreshed(app);
            let defaults = app.settings.effective();
            &&& after.memories.out_root == defaults.out_root
            &&& after.chat_media.out_root == defaults.out_root
            &&& after.history.out_root == defaults.out_root
            &&& after.memories.environment.ffmpeg == defaults.ffmpeg
            &&& after.chat_media.environment.ffmpeg == defaults.ffmpeg
            &&& app.memories.transcode_set ==> after.memories.transcode == app.memories.transcode
            &&& app.chat_media.transcode_set ==> after.chat_media.transcode == app.chat_media.transcode
            &&& app.chat_media.overlay_set ==> after.chat_media.overlay_mode == app.chat_media.overlay_mode
        }),
{
}

/// One look at the machine reaches every screen, and an ffmpeg the file names beats the one that
/// was found while the settings still show what was.
pub proof fn law_the_file_beats_the_search(
    app: AppView,
    source: Seq<char>,
    defaults: RunDefaultsView,
    found: EnvironmentView,
    room: Room,
)
    ensures
        ({
            let after = reprobed(app, source, defaults, found, room);
            let ffmpeg = match defaults.ffmpeg {
                Some(ffmpeg) => Some(ffmpeg),
                None => found.ffmpeg,
            };
            &&& after.overview.environment.ffmpeg == ffmpeg
            &&& after.memories.environment.ffmpeg == ffmpeg
            &&& after.chat_media.environment.ffmpeg == ffmpeg
            &&& after.memories.environment.vlc == found.vlc
            &&& after.chat_media.environment.vlc == found.vlc
            &&& after.settings.detected_ffmpeg == found.ffmpeg
        }),
{
}

/// A key with nothing held.
pub open spec fn pressed(code: KeyCode) -> Key {
    Key { code, modifiers: Modifiers { shift: false, control: false, alt: false, rest: false } }
}

/// A key with shift held.
pub open spec fn shifted(code: KeyCode) -> Key {
    Key { code, modifiers: Modifiers { shift: true, control: false, alt: false, rest: false } }
}

/// A key with alt held.
pub open spec fn alted(code: KeyCode) -> Key {
    Key { code, modifiers: Modifiers { shift: false, control: false, alt: true, rest: false } }
}

/// Down goes to the next row and round to the first, up to the one before and round to the last,
/// and enter picks the row the caret is on.
pub proof fn law_the_caret_goes_where_the_arrow_points(menu: MenuView)
    requires
        0 <= menu.selected < menu.labels.len(),
    ensures
        menu.selected + 1 < menu.labels.len() ==> menu_keyed(menu, pressed(KeyCode::Down)).0.selected == menu.selected + 1,
        menu.selected + 1 == menu.labels.len() ==> menu_keyed(menu, pressed(KeyCode::Down)).0.selected == 0,
        menu.selected > 0 ==> menu_keyed(menu, pressed(KeyCode::Up)).0.selected == menu.selected - 1,
        menu.selected == 0 ==> menu_keyed(menu, pressed(KeyCode::Up)).0.selected == menu.labels.len() - 1,
        menu_keyed(menu, pressed(KeyCode::Down)).1 is Keep,
        menu_keyed(menu, pressed(KeyCode::Up)).1 is Keep,
        menu_keyed(menu, pressed(KeyCode::Enter)) == (menu, Choice::Pick(menu.labels[menu.selected])),
        menu_keyed(menu, pressed(KeyCode::Esc)) == (menu, Choice::Close),
        menu_keyed(menu, pressed(KeyCode::Char('q'))) == (menu, Choice::Close),
        menu_keyed(menu, shifted(KeyCode::Char('Q'))) == (menu, Choice::Close),
{
    let rows = menu.labels.len() as int;
    if menu.selected + 1 < rows {
        vstd::arithmetic::div_mod::lemma_small_mod((menu.selected + 1) as nat, rows as nat);
    } else {
        vstd::arithmetic::div_mod::lemma_mod_self_0(rows);
    }
    if menu.selected > 0 {
        vstd::arithmetic::div_mod::lemma_small_mod((menu.selected - 1) as nat, rows as nat);
    } else {
        vstd::arithmetic::div_mod::lemma_mod_add_multiples_vanish(-1, rows);
        vstd::arithmetic::div_mod::lemma_small_mod((rows - 1) as nat, rows as nat);
    }
}

/// A letter picks the action of the first row it is the hotkey of, in either case, and does nothing
/// where it is none's.
pub proof fn law_a_hotkey_picks_its_action(menu: MenuView, c: char, row: int)
    requires
        menu.hotkeys.len() == menu.labels.len(),
        'a' <= c <= 'z',
        c != 'q',
        0 <= row <= menu.hotkeys.len(),
        forall|i: int| 0 <= i < row ==> menu.hotkeys[i] != Some(c),
        row < menu.hotkeys.len() ==> menu.hotkeys[row] == Some(c),
    ensures
        row < menu.labels.len() ==> menu_keyed(menu, pressed(KeyCode::Char(c))) == (menu, Choice::Pick(menu.labels[row])),
        row == menu.labels.len() ==> menu_keyed(menu, pressed(KeyCode::Char(c))) == (menu, Choice::Keep),
        forall|capital: char| 'A' <= capital <= 'Z' && capital as int + 32 == c as int ==> #[trigger] menu_keyed(
            menu,
            shifted(KeyCode::Char(capital)),
        ) == menu_keyed(menu, pressed(KeyCode::Char(c))),
{
    lemma_hotkey_at(menu.hotkeys, c, row);
}

/// Down scrolls the help a line further and stops at the last, up a line back and stops at the
/// first; escape, q and the question mark close it.
pub proof fn law_the_help_scrolls_a_line_at_a_time(scroll: u16, last: u16)
    ensures
        scroll < last ==> help_keyed(scroll, pressed(KeyCode::Down), last) == ((scroll + 1) as u16, Choice::Keep),
        scroll >= last ==> help_keyed(scroll, pressed(KeyCode::Down), last) == (last, Choice::Keep),
        scroll > 0 ==> help_keyed(scroll, pressed(KeyCode::Up), last) == ((scroll - 1) as u16, Choice::Keep),
        scroll == 0 ==> help_keyed(scroll, pressed(KeyCode::Up), last) == (0u16, Choice::Keep),
        help_keyed(scroll, pressed(KeyCode::Esc), last).1 is Close,
        help_keyed(scroll, pressed(KeyCode::Char('q')), last).1 is Close,
        help_keyed(scroll, shifted(KeyCode::Char('Q')), last).1 is Close,
        help_keyed(scroll, shifted(KeyCode::Char('?')), last).1 is Close,
        help_keyed(scroll, pressed(KeyCode::Char('?')), last).1 is Close,
{
}

/// What the shell's own letters do where nothing is open and no text is taken: the question mark
/// opens the help at its top, a the menu of what the screen offers at its first row, and q arms the
/// quit, leaves where it is armed, and goes back to the form from below it first of all.
pub proof fn law_the_letters_do_what_the_help_says(app: AppView, help_last: u16)
    requires
        app.modal is None,
        !app.is_editing(),
    ensures
        keyed(app, shifted(KeyCode::Char('?')), help_last).0.modal == Some(ModalView::Help { scroll: 0 }),
        ({
            let (after, step) = keyed(app, pressed(KeyCode::Char('a')), help_last);
            &&& step is Settled
            &&& app.pane_of(app.active) matches Some(pane) ==> if pane.actions.len() > 0 {
                after.modal matches Some(ModalView::ActionMenu(menu)) && menu.labels == pane.actions && menu.hotkeys == pane.hotkeys
                    && menu.selected == 0
            } else {
                after.modal is None
            }
            &&& app.pane_of(app.active) is None ==> after.modal is None
        }),
        ({
            let (after, step) = keyed(app, pressed(KeyCode::Char('q')), help_last);
            &&& app.is_descended() ==> step == Step::Ascend(app.active) && !after.quit_armed && after.running == app.running
            &&& !app.is_descended() && !app.quit_armed ==> step is Settled && after.quit_armed && after.running == app.running
            &&& !app.is_descended() && app.quit_armed ==> step is Settled && !after.running
        }),
        keyed(app, shifted(KeyCode::Char('Q')), help_last) == keyed(app, pressed(KeyCode::Char('q')), help_last),
        keyed(app, shifted(KeyCode::Char('A')), help_last) == keyed(app, pressed(KeyCode::Char('a')), help_last),
{
}

/// An x takes the toast down where one is up and no text is taken, else the alert of the screen in
/// front; it takes down one of the two at a time, and no other screen's alert.
pub proof fn law_a_dismissal_takes_one_thing_down(app: AppView, help_last: u16, other: Tab)
    requires
        other != app.active,
    ensures
        ({
            let (after, step) = keyed(app, pressed(KeyCode::Char('x')), help_last);
            &&& app.settings.toast && !app.is_editing() ==> step is Settled && !after.settings.toast && after.alert_of(app.active)
                == app.alert_of(app.active)
            &&& !(app.settings.toast && !app.is_editing()) && app.alert_of(app.active) is Some ==> step is Settled && after.alert_of(
                app.active,
            ) is None && after.settings.toast == app.settings.toast
            &&& after.alert_of(other) == app.alert_of(other)
        }),
{
}

/// The arrows step to the tab beside, round at either end, and alt with a digit jumps to the tab of
/// that number, a nine to the last.
pub proof fn law_tabs_are_reached_by_arrow_and_number(app: AppView, c: char)
    requires
        '0' <= c <= '9',
    ensures
        ({
            let (after, step) = moved_on(app, pressed(KeyCode::Right), ScreenAnswer::Unhandled);
            step is Settled && after.active.place() == (if app.active is Settings { 0 } else { app.active.place() + 1 })
        }),
        ({
            let (after, step) = moved_on(app, pressed(KeyCode::Left), ScreenAnswer::Unhandled);
            step is Settled && after.active.place() == (if app.active is Overview { 5 } else { app.active.place() - 1 })
        }),
        ({
            let (after, step) = moved_on(app, alted(KeyCode::Char(c)), ScreenAnswer::Unhandled);
            &&& '1' <= c <= '6' ==> after.active.place() == c as int - '1' as int && step == Step::Ascend(app.active)
            &&& c == '9' ==> after.active is Settings && step == Step::Ascend(app.active)
            &&& c == '0' || c == '7' || c == '8' ==> after == app && step is Settled
        }),
        forall|code: KeyCode| #[trigger] moved_on(app, pressed(code), ScreenAnswer::Consumed) == (app, Step::Settled),
{
}

/// Alt shows the jump digits for as long as it is down, and letting any other key go does nothing.
pub proof fn law_only_a_press_counts(app: AppView, key: Key, help_last: u16)
    ensures
        key.code is Alt ==> happened(app, key, KeyKind::Press, help_last).0.alt_held,
        key.code is Alt ==> happened(app, key, KeyKind::Repeat, help_last).0.alt_held,
        key.code is Alt ==> !happened(app, key, KeyKind::Release, help_last).0.alt_held,
        !(key.code is Alt) ==> happened(app, key, KeyKind::Release, help_last) == (app, Step::Settled),
        !(key.code is Alt) ==> happened(app, key, KeyKind::Repeat, help_last) == happened(app, key, KeyKind::Press, help_last),
{
}

/// The overview shows the room of the source's disk and the run screens that of the output root's;
/// every screen is at the new source, every run form at the defaults, and nothing a run said stays.
pub proof fn law_each_screen_shows_its_own_disk(
    app: AppView,
    source: Seq<char>,
    defaults: RunDefaultsView,
    found: EnvironmentView,
    room: Room,
)
    ensures
        ({
            let after = reprobed(app, source, defaults, found, room);
            &&& after.overview.environment.available_space == found.available_space
            &&& after.overview.environment.total_space == found.total_space
            &&& after.memories.environment.available_space == room.available
            &&& after.memories.environment.total_space == room.total
            &&& after.chat_media.environment.available_space == room.available
            &&& after.chat_media.environment.total_space == room.total
            &&& after.memories.source == source && after.chat_media.source == source && after.history.source == source
            &&& after.account.source == source && after.settings.source == source
            &&& after.memories.out_root == defaults.out_root && after.chat_media.out_root == defaults.out_root
            &&& after.history.out_root == defaults.out_root
            &&& after.memories.transcode == defaults.transcode && after.chat_media.transcode == defaults.transcode
            &&& after.chat_media.overlay_mode == defaults.overlay_mode
            &&& !after.memories.transcode_set && !after.chat_media.transcode_set && !after.chat_media.overlay_set
            &&& after.alert_of(Tab::Memories) is None && after.alert_of(Tab::ChatMedia) is None && after.alert_of(Tab::History) is None
            &&& after.active == app.active && after.tier == app.tier && after.settings.config == app.settings.config
        }),
{
}

} // verus!

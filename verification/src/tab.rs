//! The tabs the screens stand under.

use vstd::prelude::*;

verus! {

#[derive(Debug, Clone, Copy, PartialEq, Eq, Hash, Structural)]
pub enum Tab {
    Overview,
    Memories,
    ChatMedia,
    History,
    Account,
    Settings,
}

/// The tab at a place in the row, counted from the left and round again.
pub open spec fn tab_at(place: int) -> Tab {
    let at = place % 6;
    if at == 0 {
        Tab::Overview
    } else if at == 1 {
        Tab::Memories
    } else if at == 2 {
        Tab::ChatMedia
    } else if at == 3 {
        Tab::History
    } else if at == 4 {
        Tab::Account
    } else {
        Tab::Settings
    }
}

impl Tab {
    /// Every tab, from the left.
    pub const ALL: [Tab; 6] = [Tab::Overview, Tab::Memories, Tab::ChatMedia, Tab::History, Tab::Account, Tab::Settings];

    pub open spec fn words(self) -> Seq<char> {
        match self {
            Tab::Overview => "overview"@,
            Tab::Memories => "memories"@,
            Tab::ChatMedia => "chat media"@,
            Tab::History => "history"@,
            Tab::Account => "account"@,
            Tab::Settings => "settings"@,
        }
    }

    #[must_use]
    pub fn label(self) -> (r: &'static str)
        ensures
            r@ == self.words(),
    {
        match self {
            Tab::Overview => "overview",
            Tab::Memories => "memories",
            Tab::ChatMedia => "chat media",
            Tab::History => "history",
            Tab::Account => "account",
            Tab::Settings => "settings",
        }
    }

    pub open spec fn place(self) -> int {
        match self {
            Tab::Overview => 0,
            Tab::Memories => 1,
            Tab::ChatMedia => 2,
            Tab::History => 3,
            Tab::Account => 4,
            Tab::Settings => 5,
        }
    }

    pub fn index(self) -> (r: usize)
        ensures
            r == self.place(),
            r < 6,
    {
        match self {
            Tab::Overview => 0,
            Tab::Memories => 1,
            Tab::ChatMedia => 2,
            Tab::History => 3,
            Tab::Account => 4,
            Tab::Settings => 5,
        }
    }

    fn at(index: usize) -> (r: Tab)
        requires
            index < 6,
        ensures
            r == tab_at(index as int),
    {
        if index == 0 {
            Tab::Overview
        } else if index == 1 {
            Tab::Memories
        } else if index == 2 {
            Tab::ChatMedia
        } else if index == 3 {
            Tab::History
        } else if index == 4 {
            Tab::Account
        } else {
            Tab::Settings
        }
    }

    /// The tab to the right, round to the first.
    #[must_use]
    pub fn next(self) -> (r: Self)
        ensures
            r == tab_at(self.place() + 1),
    {
        Tab::at((self.index() + 1) % 6)
    }

    /// The tab to the left, round to the last.
    #[must_use]
    pub fn previous(self) -> (r: Self)
        ensures
            r == tab_at(self.place() - 1),
    {
        Tab::at((self.index() + 5) % 6)
    }

    /// The tab a digit jumps to: nine to the last, one to eight to the one at that place.
    #[must_use]
    pub fn from_jump_digit(digit: u32) -> (r: Option<Self>)
        ensures
            r == jumped(digit),
    {
        if digit == 9 {
            Some(Tab::Settings)
        } else if 1 <= digit && digit <= 6 {
            Some(Tab::at(digit as usize - 1))
        } else {
            None
        }
    }

    /// The digit that jumps to a tab.
    #[must_use]
    pub fn jump_index(self) -> (r: Option<u8>)
        ensures
            r == Some((self.place() + 1) as u8),
    {
        Some(self.index() as u8 + 1)
    }
}

pub open spec fn jumped(digit: u32) -> Option<Tab> {
    if digit == 9 {
        Some(Tab::Settings)
    } else if 1 <= digit <= 6 {
        Some(tab_at(digit - 1))
    } else {
        None
    }
}

/// Going right and then left comes back, and so does going left and then right.
pub proof fn law_next_undoes_previous(tab: Tab)
    ensures
        tab_at(tab_at(tab.place() + 1).place() - 1) == tab,
        tab_at(tab_at(tab.place() - 1).place() + 1) == tab,
{
}

/// The digit shown on a tab jumps to it.
pub proof fn law_a_jump_digit_leads_to_its_tab(tab: Tab)
    ensures
        jumped((tab.place() + 1) as u32) == Some(tab),
{
}

} // verus!

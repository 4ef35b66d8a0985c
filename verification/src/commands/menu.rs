//! Routing of application-menu items to the events the window is sent: the
//! fixed items by name, and theme and accent items by their prefix, whose
//! rest is the chosen value.

use vstd::prelude::*;

verus! {

/// What the window is told when a menu item is chosen.
#[derive(Debug, Clone, PartialEq, Eq)]
pub enum MenuAction {
    OpenFolder,
    ShowShortcuts,
    ShowNotices,
    /// Show the named visualization.
    SetVisualization(String),
    /// Switch to the named theme.
    SetTheme(String),
    /// Switch to the named accent colour.
    SetAccent(String),
}

/// `s` begins with `p`.
pub open spec fn starts_with(s: Seq<char>, p: Seq<char>) -> bool {
    p.len() <= s.len() && s.subrange(0, p.len() as int) == p
}

/// The action for the menu item `id`, if it has one: the fixed items by
/// name; then any item named `theme-` or `accent-` followed by a value.
pub open spec fn routes_to(id: Seq<char>, r: Option<MenuAction>) -> bool {
    if id == "open-folder"@ {
        r == Some(MenuAction::OpenFolder)
    } else if id == "show-shortcuts"@ {
        r == Some(MenuAction::ShowShortcuts)
    } else if id == "show-notices"@ {
        r == Some(MenuAction::ShowNotices)
    } else if id == "viz-treemap"@ {
        r matches Some(MenuAction::SetVisualization(v)) && v@ == "treemap"@
    } else if id == "viz-sunburst"@ {
        r matches Some(MenuAction::SetVisualization(v)) && v@ == "sunburst"@
    } else if starts_with(id, "theme-"@) {
        r matches Some(MenuAction::SetTheme(v)) && v@ == id.skip("theme-"@.len() as int)
    } else if starts_with(id, "accent-"@) {
        r matches Some(MenuAction::SetAccent(v)) && v@ == id.skip("accent-"@.len() as int)
    } else {
        r is None
    }
}

/// The name of the window event an action is sent as.
pub open spec fn event_name_of(a: MenuAction) -> Seq<char> {
    match a {
        MenuAction::OpenFolder => "menu-open-folder"@,
        MenuAction::ShowShortcuts => "menu-show-shortcuts"@,
        MenuAction::ShowNotices => "menu-show-notices"@,
        MenuAction::SetVisualization(_) => "menu-set-visualization"@,
        MenuAction::SetTheme(_) => "menu-set-theme"@,
        MenuAction::SetAccent(_) => "menu-set-accent"@,
    }
}

/// Whether `s` reads exactly `lit`.
fn text_is(s: &str, lit: &str) -> (r: bool)
    ensures
        r == (s@ == lit@),
{
    let n = s.unicode_len();
    if n != lit.unicode_len() {
        return false;
    }
    let mut i: usize = 0;
    while i < n
        invariant
            n == s@.len(),
            n == lit@.len(),
            i <= n,
            forall|j: int| 0 <= j < i ==> s@[j] == lit@[j],
        decreases n - i,
    {
        if s.get_char(i) != lit.get_char(i) {
            return false;
        }
        i = i + 1;
    }
    assert(s@ =~= lit@);
    true
}

/// Whether `s` begins with `p`.
fn has_prefix(s: &str, p: &str) -> (r: bool)
    ensures
        r == starts_with(s@, p@),
{
    let n = p.unicode_len();
    if s.unicode_len() < n {
        return false;
    }
    let mut i: usize = 0;
    while i < n
        invariant
            n == p@.len(),
            n <= s@.len(),
            i <= n,
            forall|j: int| 0 <= j < i ==> s@[j] == p@[j],
        decreases n - i,
    {
        if s.get_char(i) != p.get_char(i) {
            assert(s@.subrange(0, n as int)[i as int] != p@[i as int]);
            return false;
        }
        i = i + 1;
    }
    assert(s@.subrange(0, n as int) =~= p@);
    true
}

/// The action for the menu item `id`, or `None` for an item that sends
/// nothing.
pub fn route_menu_event(id: &str) -> (r: Option<MenuAction>)
    ensures
        routes_to(id@, r),
{
    proof {
        reveal_strlit("theme-");
        reveal_strlit("accent-");
    }
    if text_is(id, "open-folder") {
        Some(MenuAction::OpenFolder)
    } else if text_is(id, "show-shortcuts") {
        Some(MenuAction::ShowShortcuts)
    } else if text_is(id, "show-notices") {
        Some(MenuAction::ShowNotices)
    } else if text_is(id, "viz-treemap") {
        Some(MenuAction::SetVisualization("treemap".to_owned()))
    } else if text_is(id, "viz-sunburst") {
        Some(MenuAction::SetVisualization("sunburst".to_owned()))
    } else if has_prefix(id, "theme-") {
        let n = id.unicode_len();
        Some(MenuAction::SetTheme(id.substring_char(6, n).to_owned()))
    } else if has_prefix(id, "accent-") {
        let n = id.unicode_len();
        Some(MenuAction::SetAccent(id.substring_char(7, n).to_owned()))
    } else {
        None
    }
}

impl MenuAction {
    /// The name of the window event this action is sent as.
    pub fn event_name(&self) -> (r: String)
        ensures
            r@ == event_name_of(*self),
    {
        match self {
            MenuAction::OpenFolder => "menu-open-folder".to_owned(),
            MenuAction::ShowShortcuts => "menu-show-shortcuts".to_owned(),
            MenuAction::ShowNotices => "menu-show-notices".to_owned(),
            MenuAction::SetVisualization(_) => "menu-set-visualization".to_owned(),
            MenuAction::SetTheme(_) => "menu-set-theme".to_owned(),
            MenuAction::SetAccent(_) => "menu-set-accent".to_owned(),
        }
    }

    /// The value the event carries: the chosen visualization, theme or
    /// accent, and nothing for the other items.
    pub fn payload(&self) -> (r: Option<String>)
        ensures
            match *self {
                MenuAction::SetVisualization(v) => r matches Some(p) && p@ == v@,
                MenuAction::SetTheme(v) => r matches Some(p) && p@ == v@,
                MenuAction::SetAccent(v) => r matches Some(p) && p@ == v@,
                _ => r is None,
            },
    {
        match self {
            MenuAction::SetVisualization(v) => Some(v.as_str().to_owned()),
            MenuAction::SetTheme(v) => Some(v.as_str().to_owned()),
            MenuAction::SetAccent(v) => Some(v.as_str().to_owned()),
            _ => None,
        }
    }
}

} // verus!

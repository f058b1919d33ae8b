//! The key dispatch table of the interactive browser: which command each key
//! triggers in each input mode. The shell reads events and performs the
//! commands; the decision of what a key means is made — and pinned — here.

use vstd::prelude::*;

verus! {

/// The browser's input mode.
#[derive(Debug, Clone, Copy, PartialEq, Eq, Structural)]
pub enum Mode {
    Browse,
    Help,
    Search,
}

/// A decoded key press: the key itself and the modifiers held with it.
#[derive(Debug, Clone, Copy, PartialEq, Eq, Structural)]
pub struct KeyInput {
    pub code: KeyCode,
    pub shift: bool,
    pub ctrl: bool,
}

/// The keys the browser distinguishes.
#[derive(Debug, Clone, Copy, PartialEq, Eq, Structural)]
pub enum KeyCode {
    Character(char),
    Up,
    Down,
    Left,
    Right,
    PageUp,
    PageDown,
    Enter,
    Esc,
}

/// What a key press asks the browser to do.
#[derive(Debug, Clone, Copy, PartialEq, Eq, Structural)]
pub enum Command {
    Quit,
    ShowHelp,
    HideHelp,
    ScrollHelpUp,
    ScrollHelpDown,
    SortByFilename,
    SortByTag(usize),
    StartSearch,
    CancelSearch,
    FinishSearch,
    SearchInput,
    SearchNext,
    SearchPrev,
    MoveDown,
    MoveUp,
    HalfPageDown,
    HalfPageUp,
    FullPageDown,
    FullPageUp,
    MoveToFirst,
    MoveToLast,
    MoveToFirstSibling,
    MoveToLastSibling,
    MoveToNextSibling,
    MoveToPrevSibling,
    MoveToParent,
    MoveToNextChild,
    MoveIntoTree,
    MoveUpTree,
    ToggleNode,
    ExpandSiblings,
    CollapseSiblings,
    ExpandRecursive,
    CollapseRecursive,
    Nothing,
}

/// The dispatch table, as a function: what each key press means in each
/// mode. Modifier-carrying bindings take precedence over their plain forms.
pub open spec fn spec_command_for_key(mode: Mode, key: KeyInput) -> Command {
    match mode {
        Mode::Browse => match key.code {
            KeyCode::Character('1') => Command::SortByFilename,
            KeyCode::Character('2') => Command::SortByTag(0),
            KeyCode::Character('3') => Command::SortByTag(1),
            KeyCode::Character('q') => Command::Quit,
            KeyCode::Esc => Command::Quit,
            KeyCode::Character('?') => Command::ShowHelp,
            KeyCode::Character('/') => Command::StartSearch,
            KeyCode::Up => if key.shift {
                Command::MoveToPrevSibling
            } else {
                Command::MoveUp
            },
            KeyCode::Character('K') => Command::MoveToPrevSibling,
            KeyCode::Down => if key.shift {
                Command::MoveToNextSibling
            } else {
                Command::MoveDown
            },
            KeyCode::Character('J') => Command::MoveToNextSibling,
            KeyCode::Character('k') => Command::MoveUp,
            KeyCode::Character('p') => if key.ctrl {
                Command::MoveUp
            } else {
                Command::Nothing
            },
            KeyCode::Character('j') => Command::MoveDown,
            KeyCode::Character('n') => if key.ctrl {
                Command::MoveDown
            } else {
                Command::SearchNext
            },
            KeyCode::Character('d') => if key.ctrl {
                Command::HalfPageDown
            } else {
                Command::Nothing
            },
            KeyCode::Character('u') => if key.ctrl {
                Command::HalfPageUp
            } else {
                Command::Nothing
            },
            KeyCode::Character('f') => if key.ctrl {
                Command::FullPageDown
            } else {
                Command::Nothing
            },
            KeyCode::PageDown => Command::FullPageDown,
            KeyCode::Character('b') => if key.ctrl {
                Command::FullPageUp
            } else {
                Command::Nothing
            },
            KeyCode::PageUp => Command::FullPageUp,
            KeyCode::Character('g') => Command::MoveToFirst,
            KeyCode::Character('G') => Command::MoveToLast,
            KeyCode::Character('0') => Command::MoveToFirstSibling,
            KeyCode::Character('^') => Command::MoveToFirstSibling,
            KeyCode::Character('$') => Command::MoveToLastSibling,
            KeyCode::Character('c') => Command::CollapseSiblings,
            KeyCode::Character('e') => Command::ExpandSiblings,
            KeyCode::Character('E') => Command::ExpandRecursive,
            KeyCode::Character('C') => Command::CollapseRecursive,
            KeyCode::Enter => Command::ToggleNode,
            KeyCode::Character(' ') => Command::ToggleNode,
            KeyCode::Character('H') => Command::MoveToParent,
            KeyCode::Left => if key.shift {
                Command::MoveToParent
            } else {
                Command::MoveUpTree
            },
            KeyCode::Character('L') => Command::MoveToNextChild,
            KeyCode::Right => if key.shift {
                Command::MoveToNextChild
            } else {
                Command::MoveIntoTree
            },
            KeyCode::Character('l') => Command::MoveIntoTree,
            KeyCode::Character('h') => Command::MoveUpTree,
            KeyCode::Character('N') => Command::SearchPrev,
            _ => Command::Nothing,
        },
        Mode::Search => match key.code {
            KeyCode::Esc => Command::CancelSearch,
            KeyCode::Enter => Command::FinishSearch,
            _ => Command::SearchInput,
        },
        Mode::Help => match key.code {
            KeyCode::Character('?') => Command::HideHelp,
            KeyCode::Character('q') => Command::HideHelp,
            KeyCode::Esc => Command::HideHelp,
            KeyCode::Up => Command::ScrollHelpUp,
            KeyCode::Character('k') => Command::ScrollHelpUp,
            KeyCode::Down => Command::ScrollHelpDown,
            KeyCode::Character('j') => Command::ScrollHelpDown,
            _ => Command::Nothing,
        },
    }
}

/// What a key press asks the browser to do, per the dispatch table.
pub fn command_for_key(mode: Mode, key: KeyInput) -> (c: Command)
    ensures
        c == spec_command_for_key(mode, key),
{
    match mode {
        Mode::Browse => match key.code {
            KeyCode::Character('1') => Command::SortByFilename,
            KeyCode::Character('2') => Command::SortByTag(0),
            KeyCode::Character('3') => Command::SortByTag(1),
            KeyCode::Character('q') => Command::Quit,
            KeyCode::Esc => Command::Quit,
            KeyCode::Character('?') => Command::ShowHelp,
            KeyCode::Character('/') => Command::StartSearch,
            KeyCode::Up => if key.shift {
                Command::MoveToPrevSibling
            } else {
                Command::MoveUp
            },
            KeyCode::Character('K') => Command::MoveToPrevSibling,
            KeyCode::Down => if key.shift {
                Command::MoveToNextSibling
            } else {
                Command::MoveDown
            },
            KeyCode::Character('J') => Command::MoveToNextSibling,
            KeyCode::Character('k') => Command::MoveUp,
            KeyCode::Character('p') => if key.ctrl {
                Command::MoveUp
            } else {
                Command::Nothing
            },
            KeyCode::Character('j') => Command::MoveDown,
            KeyCode::Character('n') => if key.ctrl {
                Command::MoveDown
            } else {
                Command::SearchNext
            },
            KeyCode::Character('d') => if key.ctrl {
                Command::HalfPageDown
            } else {
                Command::Nothing
            },
            KeyCode::Character('u') => if key.ctrl {
                Command::HalfPageUp
            } else {
                Command::Nothing
            },
            KeyCode::Character('f') => if key.ctrl {
                Command::FullPageDown
            } else {
                Command::Nothing
            },
            KeyCode::PageDown => Command::FullPageDown,
            KeyCode::Character('b') => if key.ctrl {
                Command::FullPageUp
            } else {
                Command::Nothing
            },
            KeyCode::PageUp => Command::FullPageUp,
            KeyCode::Character('g') => Command::MoveToFirst,
            KeyCode::Character('G') => Command::MoveToLast,
            KeyCode::Character('0') => Command::MoveToFirstSibling,
            KeyCode::Character('^') => Command::MoveToFirstSibling,
            KeyCode::Character('$') => Command::MoveToLastSibling,
            KeyCode::Character('c') => Command::CollapseSiblings,
            KeyCode::Character('e') => Command::ExpandSiblings,
            KeyCode::Character('E') => Command::ExpandRecursive,
            KeyCode::Character('C') => Command::CollapseRecursive,
            KeyCode::Enter => Command::ToggleNode,
            KeyCode::Character(' ') => Command::ToggleNode,
            KeyCode::Character('H') => Command::MoveToParent,
            KeyCode::Left => if key.shift {
                Command::MoveToParent
            } else {
                Command::MoveUpTree
            },
            KeyCode::Character('L') => Command::MoveToNextChild,
            KeyCode::Right => if key.shift {
                Command::MoveToNextChild
            } else {
                Command::MoveIntoTree
            },
            KeyCode::Character('l') => Command::MoveIntoTree,
            KeyCode::Character('h') => Command::MoveUpTree,
            KeyCode::Character('N') => Command::SearchPrev,
            _ => Command::Nothing,
        },
        Mode::Search => match key.code {
            KeyCode::Esc => Command::CancelSearch,
            KeyCode::Enter => Command::FinishSearch,
            _ => Command::SearchInput,
        },
        Mode::Help => match key.code {
            KeyCode::Character('?') => Command::HideHelp,
            KeyCode::Character('q') => Command::HideHelp,
            KeyCode::Esc => Command::HideHelp,
            KeyCode::Up => Command::ScrollHelpUp,
            KeyCode::Character('k') => Command::ScrollHelpUp,
            KeyCode::Down => Command::ScrollHelpDown,
            KeyCode::Character('j') => Command::ScrollHelpDown,
            _ => Command::Nothing,
        },
    }
}

/// The key bindings summary as the browser shell shows it.
pub open spec fn shell_help_view() -> Seq<char> {
    r#"Navigation:
  ?                    - Show help
  q/Esc                - Quit
  1                    - Sort tree by filename
  2                    - Sort tree by tags
  3                    - Sort tree by tags, only showing tags with different values
  k/↑/ctrl+p           - Move up
  j/↓/ctrl+n           - Move down
  h/←                  - Move to parent or close node
  l/→                  - Expand node or move to first child
  H/shift+←            - Move to parent
  L/shift+→            - Move to next child (expand if collapsed)
  J/shift+↓            - Move to next sibling (same level)
  K/shift+↑            - Move to previous sibling (same level)
  ctrl+u               - Move half page up
  ctrl+d               - Move half page down
  ctrl+f/page-down     - Move page down
  ctrl+b/page-up       - Move page up
  g                    - Move to first element
  G                    - Move to last element
  0/^                  - Move to first sibling
  $                    - Move to last sibling
  Enter/Space          - Toggle expand/collapse
  c                    - Collapse current node and siblings
  e                    - Expand current node and siblings
  E                    - Expand current node recursively
  C                    - Collapse current node recursively
"#@
}

/// The key bindings summary the browser shell shows.
pub fn help_text() -> (r: &'static str)
    ensures
        r@ == shell_help_view(),
{
    r#"Navigation:
  ?                    - Show help
  q/Esc                - Quit
  1                    - Sort tree by filename
  2                    - Sort tree by tags
  3                    - Sort tree by tags, only showing tags with different values
  k/↑/ctrl+p           - Move up
  j/↓/ctrl+n           - Move down
  h/←                  - Move to parent or close node
  l/→                  - Expand node or move to first child
  H/shift+←            - Move to parent
  L/shift+→            - Move to next child (expand if collapsed)
  J/shift+↓            - Move to next sibling (same level)
  K/shift+↑            - Move to previous sibling (same level)
  ctrl+u               - Move half page up
  ctrl+d               - Move half page down
  ctrl+f/page-down     - Move page down
  ctrl+b/page-up       - Move page up
  g                    - Move to first element
  G                    - Move to last element
  0/^                  - Move to first sibling
  $                    - Move to last sibling
  Enter/Space          - Toggle expand/collapse
  c                    - Collapse current node and siblings
  e                    - Expand current node and siblings
  E                    - Expand current node recursively
  C                    - Collapse current node recursively
"#
}

} // verus!

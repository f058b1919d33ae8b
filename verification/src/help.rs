//! The help screen's text: a fixed resource loaded once, offered whole, as
//! numbered lines, and as the window of lines a scrolled overlay shows.

use vstd::prelude::*;

verus! {

/// The help text as one string.
pub open spec fn raw_help_view() -> Seq<char> {
    r#"Navigation:
  q/Esc                - Quit
  1                    - Sort tree by filename
  2                    - Sort tree by tags
  3                    - Sort tree by tags, only showing tags with different values
  i                    - Enter edit mode for selected tag
  /                    - Enter search mode
  ?                    - Show help

  Enter/Space          - Toggle expand/collapse
  j/↓/ctrl+n           - Move down visible tree structure over all hierarchy levels
  k/↑/ctrl+p           - Move up visible tree structure over all hierarchy levels
  h/←                  - Move to parent or close node
  l/→                  - Expand node or move to first child
  H/shift+←            - Move to parent
  L/shift+→            - Move to next child (expand if collapsed)
  J/shift+↓            - Move to next sibling (same level)
  K/shift+↑            - Move to previous sibling (same level)
  g                    - Move to first element
  G                    - Move to last element
  0/^                  - Move to first sibling
  $                    - Move to last sibling
  c                    - Collapse current node and siblings
  e                    - Expand current node and siblings
  E                    - Expand current node recursively
  C                    - Collapse current node recursively

  ctrl+u               - Move half page up
  ctrl+d               - Move half page down
  ctrl+f/page-down     - Move page down
  ctrl+b/page-up       - Move page up

  n                    - Search for next occurence if search text present
  N                    - Search for prev occurence if search text present
"#@
}

/// The help text, line by line.
pub open spec fn help_lines_view() -> Seq<Seq<char>> {
    seq![
        "Navigation:"@,
        "  q/Esc                - Quit"@,
        "  1                    - Sort tree by filename"@,
        "  2                    - Sort tree by tags"@,
        "  3                    - Sort tree by tags, only showing tags with different values"@,
        "  i                    - Enter edit mode for selected tag"@,
        "  /                    - Enter search mode"@,
        "  ?                    - Show help"@,
        ""@,
        "  Enter/Space          - Toggle expand/collapse"@,
        "  j/↓/ctrl+n           - Move down visible tree structure over all hierarchy levels"@,
        "  k/↑/ctrl+p           - Move up visible tree structure over all hierarchy levels"@,
        "  h/←                  - Move to parent or close node"@,
        "  l/→                  - Expand node or move to first child"@,
        "  H/shift+←            - Move to parent"@,
        "  L/shift+→            - Move to next child (expand if collapsed)"@,
        "  J/shift+↓            - Move to next sibling (same level)"@,
        "  K/shift+↑            - Move to previous sibling (same level)"@,
        "  g                    - Move to first element"@,
        "  G                    - Move to last element"@,
        "  0/^                  - Move to first sibling"@,
        "  $                    - Move to last sibling"@,
        "  c                    - Collapse current node and siblings"@,
        "  e                    - Expand current node and siblings"@,
        "  E                    - Expand current node recursively"@,
        "  C                    - Collapse current node recursively"@,
        ""@,
        "  ctrl+u               - Move half page up"@,
        "  ctrl+d               - Move half page down"@,
        "  ctrl+f/page-down     - Move page down"@,
        "  ctrl+b/page-up       - Move page up"@,
        ""@,
        "  n                    - Search for next occurence if search text present"@,
        "  N                    - Search for prev occurence if search text present"@,
    ]
}

/// The help text as a single string.
pub fn raw_help_text() -> (r: &'static str)
    ensures
        r@ == raw_help_view(),
{
    r#"Navigation:
  q/Esc                - Quit
  1                    - Sort tree by filename
  2                    - Sort tree by tags
  3                    - Sort tree by tags, only showing tags with different values
  i                    - Enter edit mode for selected tag
  /                    - Enter search mode
  ?                    - Show help

  Enter/Space          - Toggle expand/collapse
  j/↓/ctrl+n           - Move down visible tree structure over all hierarchy levels
  k/↑/ctrl+p           - Move up visible tree structure over all hierarchy levels
  h/←                  - Move to parent or close node
  l/→                  - Expand node or move to first child
  H/shift+←            - Move to parent
  L/shift+→            - Move to next child (expand if collapsed)
  J/shift+↓            - Move to next sibling (same level)
  K/shift+↑            - Move to previous sibling (same level)
  g                    - Move to first element
  G                    - Move to last element
  0/^                  - Move to first sibling
  $                    - Move to last sibling
  c                    - Collapse current node and siblings
  e                    - Expand current node and siblings
  E                    - Expand current node recursively
  C                    - Collapse current node recursively

  ctrl+u               - Move half page up
  ctrl+d               - Move half page down
  ctrl+f/page-down     - Move page down
  ctrl+b/page-up       - Move page up

  n                    - Search for next occurence if search text present
  N                    - Search for prev occurence if search text present
"#
}

/// The help text, one entry per line.
pub fn help_text<'a>() -> (r: Vec<&'a str>)
    ensures
        r@.map_values(|s: &str| s@) == help_lines_view(),
        r@.len() == help_lines_view().len(),
{
    let mut v: Vec<&'a str> = Vec::new();
    v.push("Navigation:");
    v.push("  q/Esc                - Quit");
    v.push("  1                    - Sort tree by filename");
    v.push("  2                    - Sort tree by tags");
    v.push("  3                    - Sort tree by tags, only showing tags with different values");
    v.push("  i                    - Enter edit mode for selected tag");
    v.push("  /                    - Enter search mode");
    v.push("  ?                    - Show help");
    v.push("");
    v.push("  Enter/Space          - Toggle expand/collapse");
    v.push("  j/↓/ctrl+n           - Move down visible tree structure over all hierarchy levels");
    v.push("  k/↑/ctrl+p           - Move up visible tree structure over all hierarchy levels");
    v.push("  h/←                  - Move to parent or close node");
    v.push("  l/→                  - Expand node or move to first child");
    v.push("  H/shift+←            - Move to parent");
    v.push("  L/shift+→            - Move to next child (expand if collapsed)");
    v.push("  J/shift+↓            - Move to next sibling (same level)");
    v.push("  K/shift+↑            - Move to previous sibling (same level)");
    v.push("  g                    - Move to first element");
    v.push("  G                    - Move to last element");
    v.push("  0/^                  - Move to first sibling");
    v.push("  $                    - Move to last sibling");
    v.push("  c                    - Collapse current node and siblings");
    v.push("  e                    - Expand current node and siblings");
    v.push("  E                    - Expand current node recursively");
    v.push("  C                    - Collapse current node recursively");
    v.push("");
    v.push("  ctrl+u               - Move half page up");
    v.push("  ctrl+d               - Move half page down");
    v.push("  ctrl+f/page-down     - Move page down");
    v.push("  ctrl+b/page-up       - Move page up");
    v.push("");
    v.push("  n                    - Search for next occurence if search text present");
    v.push("  N                    - Search for prev occurence if search text present");
    proof {
        assert(v@.map_values(|s: &str| s@) =~= help_lines_view());
    }
    v
}

/// How many lines the help text has.
pub fn num_help_text_lines() -> (r: usize)
    ensures
        r == help_lines_view().len(),
{
    let v = help_text();
    v.len()
}

/// The largest scroll offset the help overlay accepts: all but the last
/// three lines can move off screen.
pub fn max_help_scroll() -> (r: usize)
    ensures
        r == help_lines_view().len() - 3,
{
    let n = num_help_text_lines();
    n - 3
}

/// The window of help lines an overlay of `height` rows shows when scrolled
/// down `scroll` lines; a scroll past the end shows nothing.
#[verifier::loop_isolation(false)]
pub fn help_window<'a>(scroll: usize, height: usize) -> (r: Vec<&'a str>)
    ensures
        ({
            let n = help_lines_view().len();
            let lo = if scroll as int <= n { scroll as int } else { n as int };
            let hi = if scroll as int + height as int <= n {
                scroll as int + height as int
            } else {
                n as int
            };
            r@.map_values(|s: &str| s@) == help_lines_view().subrange(lo, hi)
        }),
{
    let lines = help_text();
    let n = lines.len();
    let lo = if scroll <= n {
        scroll
    } else {
        n
    };
    let hi = if height <= n - lo {
        lo + height
    } else {
        n
    };
    let mut r: Vec<&'a str> = Vec::new();
    let mut i = lo;
    while i < hi
        invariant
            lo <= i <= hi,
            r@.map_values(|s: &str| s@) == help_lines_view().subrange(lo as int, i as int),
        decreases hi - i,
    {
        r.push(lines[i]);
        proof {
            assert(r@.map_values(|s: &str| s@) =~= help_lines_view().subrange(
                lo as int,
                i + 1,
            ));
        }
        i = i + 1;
    }
    proof {
        assert(help_lines_view().subrange(lo as int, lo as int) =~= Seq::<Seq<char>>::empty());
        assert(Seq::<&str>::empty().map_values(|s: &str| s@) =~= Seq::<Seq<char>>::empty());
    }
    r
}

} // verus!

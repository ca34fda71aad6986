//! The state of the project set-up pages: which page is shown, which input
//! has the focus, and how an input shows its cursor.

use vstd::prelude::*;
use vstd::string::*;

verus! {

/// The input that has the focus on the path page.
#[derive(Clone, Copy, Debug, PartialEq, Eq, Structural)]
pub enum PathPageFocus {
    ParentPathInput,
    RootFolderInput,
}

impl Default for PathPageFocus {
    fn default() -> (r: PathPageFocus)
        ensures
            r == PathPageFocus::ParentPathInput,
    {
        PathPageFocus::ParentPathInput
    }
}

impl PathPageFocus {
    /// The other input.
    pub fn toggled(self) -> (r: PathPageFocus)
        ensures
            r != self,
    {
        match self {
            PathPageFocus::ParentPathInput => PathPageFocus::RootFolderInput,
            PathPageFocus::RootFolderInput => PathPageFocus::ParentPathInput,
        }
    }
}

/// The pages of project set-up, in the order in which they are gone
/// through: name, preview, path, confirmation.
#[derive(Clone, Copy, Debug, PartialEq, Eq, Structural)]
pub enum ProjectInitPage {
    Preview,
    Name,
    Path { focus: PathPageFocus },
    Confirmation,
}

/// The number shown for a page, from 1 to 4.
pub open spec fn page_number(p: ProjectInitPage) -> int {
    match p {
        ProjectInitPage::Name => 1,
        ProjectInitPage::Preview => 2,
        ProjectInitPage::Path { .. } => 3,
        ProjectInitPage::Confirmation => 4,
    }
}

impl ProjectInitPage {
    /// The number shown for this page.
    pub fn page_num(&self) -> (r: usize)
        ensures
            r == page_number(*self),
    {
        match self {
            ProjectInitPage::Name => 1,
            ProjectInitPage::Preview => 2,
            ProjectInitPage::Path { .. } => 3,
            ProjectInitPage::Confirmation => 4,
        }
    }

    /// Moves to the next page; the last page stays. The path page starts
    /// with the focus on the parent path.
    pub fn switch_to_next_page(&mut self)
        ensures
            page_number(*final(self)) == if page_number(*old(self)) < 4 { page_number(*old(self)) + 1 } else { 4 },
            *final(self) is Path ==> (*final(self))->focus == PathPageFocus::ParentPathInput,
    {
        *self = match *self {
            ProjectInitPage::Name => ProjectInitPage::Preview,
            ProjectInitPage::Preview => ProjectInitPage::Path { focus: PathPageFocus::default() },
            ProjectInitPage::Path { .. } => ProjectInitPage::Confirmation,
            ProjectInitPage::Confirmation => ProjectInitPage::Confirmation,
        };
    }

    /// Moves to the previous page; the first page stays. The path page
    /// starts with the focus on the parent path.
    pub fn switch_to_previous_page(&mut self)
        ensures
            page_number(*final(self)) == if page_number(*old(self)) > 1 { page_number(*old(self)) - 1 } else { 1 },
            *final(self) is Path ==> (*final(self))->focus == PathPageFocus::ParentPathInput,
    {
        *self = match *self {
            ProjectInitPage::Name => ProjectInitPage::Name,
            ProjectInitPage::Preview => ProjectInitPage::Name,
            ProjectInitPage::Path { .. } => ProjectInitPage::Preview,
            ProjectInitPage::Confirmation => ProjectInitPage::Path { focus: PathPageFocus::default() },
        };
    }
}

/// The block that marks the cursor in an input.
pub const CURSOR_MARK: &'static str = "\u{2588}";

/// The text of an input with the cursor at character `cursor` shown: the
/// block after the text when the cursor is at its end, and in place of the
/// character under it otherwise.
pub open spec fn with_cursor(text: Seq<char>, cursor: int) -> Seq<char> {
    if cursor >= text.len() {
        text + CURSOR_MARK@
    } else {
        text.subrange(0, cursor) + CURSOR_MARK@ + text.subrange(cursor + 1, text.len() as int)
    }
}

/// The text of an input as shown with its cursor at character `cursor`.
pub fn visual_input_text(text: &str, cursor: usize) -> (r: String)
    ensures
        r@ == with_cursor(text@, cursor as int),
{
    let n = text.unicode_len();
    if cursor >= n {
        let mut r = String::from_str(text);
        r.append(CURSOR_MARK);
        r
    } else {
        let mut r = String::from_str(text.substring_char(0, cursor));
        r.append(CURSOR_MARK);
        r.append(text.substring_char(cursor + 1, n));
        r
    }
}

} // verus!

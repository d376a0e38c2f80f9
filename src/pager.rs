use vstd::prelude::*;

verus! {

/// A reading position: a chapter index and the first line shown.
#[derive(Clone, Copy, Debug, PartialEq, Eq, Structural)]
pub struct Progress {
    pub chapter: usize,
    pub line: usize,
}

/// A keystroke, as the pager tells them apart.
#[derive(Clone, Copy, Debug, PartialEq, Eq, Structural)]
pub enum Key {
    Quit,
    PageDown,
    PageUp,
    LineDown,
    LineUp,
    NextChapter,
    PreviousChapter,
    Top,
    Bottom,
    Image,
    Other,
}

/// What the pager does after a keystroke.
#[derive(Clone, Copy, Debug, PartialEq, Eq, Structural)]
pub enum Action {
    /// Draw the position given.
    Redraw,
    /// Render the chapter of the position given, then draw it.
    Load,
    /// Render the chapter of the position given, then draw its last page.
    LoadAtEnd,
    /// Leave, keeping the position.
    Quit,
    /// Show the image with this number.
    ShowImage(usize),
    /// Ask which image to show.
    AskImage,
    /// Report that the chapter has no image.
    NoImages,
}

/// What the pager knows of the screen and the chapter on it.
#[derive(Clone, Copy, Debug, PartialEq, Eq, Structural)]
pub struct Screen {
    pub rows: usize,
    pub lines: usize,
    pub chapters: usize,
    pub images: usize,
}

/// The first line of the last page of a chapter of `lines` lines.
pub open spec fn last_page_spec(lines: nat, rows: nat) -> nat
    recommends
        rows > 0,
{
    if lines == 0 {
        0
    } else {
        ((lines - 1) as nat / rows) * rows
    }
}

/// The first line of the last page of a chapter of `lines` lines.
pub fn last_page(lines: usize, rows: usize) -> (r: usize)
    requires
        rows > 0,
    ensures
        r == last_page_spec(lines as nat, rows as nat),
        r < lines || lines == 0,
{
    if lines == 0 {
        return 0;
    }
    let n: usize = lines - 1;
    let q: usize = n / rows;
    proof {
        let (qi, ni, ri) = (q as int, n as int, rows as int);
        assert(qi * ri <= ni) by (nonlinear_arith)
            requires
                qi == ni / ri,
                ri > 0,
                ni >= 0,
        ;
    }
    q * rows
}

/// The position and action that a keystroke leads to from `p`.
pub open spec fn step_spec(p: Progress, k: Key, s: Screen) -> (Progress, Action) {
    match k {
        Key::Quit => (p, Action::Quit),
        Key::PageDown => if p.line + s.rows < s.lines {
            (Progress { line: (p.line + s.rows) as usize, ..p }, Action::Redraw)
        } else if p.chapter + 1 < s.chapters {
            (Progress { chapter: (p.chapter + 1) as usize, line: 0 }, Action::Load)
        } else {
            (p, Action::Redraw)
        },
        Key::PageUp => if p.line >= s.rows {
            (Progress { line: (p.line - s.rows) as usize, ..p }, Action::Redraw)
        } else if p.line == 0 && p.chapter > 0 {
            (Progress { chapter: (p.chapter - 1) as usize, line: 0 }, Action::LoadAtEnd)
        } else {
            (Progress { line: 0, ..p }, Action::Redraw)
        },
        Key::LineDown => if p.line + 1 < s.lines {
            (Progress { line: (p.line + 1) as usize, ..p }, Action::Redraw)
        } else {
            (p, Action::Redraw)
        },
        Key::LineUp => if p.line > 0 {
            (Progress { line: (p.line - 1) as usize, ..p }, Action::Redraw)
        } else {
            (p, Action::Redraw)
        },
        Key::NextChapter => if p.chapter + 1 < s.chapters {
            (Progress { chapter: (p.chapter + 1) as usize, line: 0 }, Action::Load)
        } else {
            (p, Action::Redraw)
        },
        Key::PreviousChapter => if p.chapter > 0 {
            (Progress { chapter: (p.chapter - 1) as usize, line: 0 }, Action::Load)
        } else {
            (p, Action::Redraw)
        },
        Key::Top => (Progress { line: 0, ..p }, Action::Redraw),
        Key::Bottom => (
            Progress { line: last_page_spec(s.lines as nat, s.rows as nat) as usize, ..p },
            Action::Redraw,
        ),
        Key::Image => if s.images == 1 {
            (p, Action::ShowImage(0))
        } else if s.images > 1 {
            (p, Action::AskImage)
        } else {
            (p, Action::NoImages)
        },
        Key::Other => (p, Action::Redraw),
    }
}

/// Decides what a keystroke does to the reading position.
pub fn step(p: Progress, k: Key, s: Screen) -> (r: (Progress, Action))
    requires
        s.rows > 0,
    ensures
        r == step_spec(p, k, s),
{
    match k {
        Key::Quit => (p, Action::Quit),
        Key::PageDown => if p.line < s.lines && s.rows < s.lines - p.line {
            (Progress { line: p.line + s.rows, ..p }, Action::Redraw)
        } else if s.chapters > 0 && p.chapter < s.chapters - 1 {
            (Progress { chapter: p.chapter + 1, line: 0 }, Action::Load)
        } else {
            (p, Action::Redraw)
        },
        Key::PageUp => if p.line >= s.rows {
            (Progress { line: p.line - s.rows, ..p }, Action::Redraw)
        } else if p.line == 0 && p.chapter > 0 {
            (Progress { chapter: p.chapter - 1, line: 0 }, Action::LoadAtEnd)
        } else {
            (Progress { line: 0, ..p }, Action::Redraw)
        },
        Key::LineDown => if s.lines > 0 && p.line < s.lines - 1 {
            (Progress { line: p.line + 1, ..p }, Action::Redraw)
        } else {
            (p, Action::Redraw)
        },
        Key::LineUp => if p.line > 0 {
            (Progress { line: p.line - 1, ..p }, Action::Redraw)
        } else {
            (p, Action::Redraw)
        },
        Key::NextChapter => if s.chapters > 0 && p.chapter < s.chapters - 1 {
            (Progress { chapter: p.chapter + 1, line: 0 }, Action::Load)
        } else {
            (p, Action::Redraw)
        },
        Key::PreviousChapter => if p.chapter > 0 {
            (Progress { chapter: p.chapter - 1, line: 0 }, Action::Load)
        } else {
            (p, Action::Redraw)
        },
        Key::Top => (Progress { line: 0, ..p }, Action::Redraw),
        Key::Bottom => (Progress { line: last_page(s.lines, s.rows), ..p }, Action::Redraw),
        Key::Image => if s.images == 1 {
            (p, Action::ShowImage(0))
        } else if s.images > 1 {
            (p, Action::AskImage)
        } else {
            (p, Action::NoImages)
        },
        Key::Other => (p, Action::Redraw),
    }
}

/// The image that a typed selection names, where it names one of `images`.
pub fn choose_image(selection: Option<usize>, images: usize) -> (r: Option<usize>)
    ensures
        r == match selection {
            Some(i) => if i < images { Some(i) } else { None },
            None => None,
        },
{
    match selection {
        Some(i) => if i < images { Some(i) } else { None },
        None => None,
    }
}

} // verus!

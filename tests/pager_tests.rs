use epsaku::pager::{choose_image, last_page, step, Action, Key, Progress, Screen};

fn screen(lines: usize, chapters: usize, images: usize) -> Screen {
    Screen { rows: 10, lines, chapters, images }
}

fn at(chapter: usize, line: usize) -> Progress {
    Progress { chapter, line }
}

#[test]
fn page_down_scrolls_then_moves_on() {
    assert_eq!(step(at(0, 0), Key::PageDown, screen(25, 2, 0)), (at(0, 10), Action::Redraw));
    assert_eq!(step(at(0, 20), Key::PageDown, screen(25, 2, 0)), (at(1, 0), Action::Load));
    assert_eq!(step(at(1, 20), Key::PageDown, screen(25, 2, 0)), (at(1, 20), Action::Redraw));
}

#[test]
fn page_up_scrolls_then_goes_back_to_the_last_page() {
    assert_eq!(step(at(1, 15), Key::PageUp, screen(25, 2, 0)), (at(1, 5), Action::Redraw));
    assert_eq!(step(at(1, 5), Key::PageUp, screen(25, 2, 0)), (at(1, 0), Action::Redraw));
    assert_eq!(step(at(1, 0), Key::PageUp, screen(25, 2, 0)), (at(0, 0), Action::LoadAtEnd));
    assert_eq!(step(at(0, 0), Key::PageUp, screen(25, 2, 0)), (at(0, 0), Action::Redraw));
    assert_eq!(last_page(25, 10), 20);
    assert_eq!(last_page(20, 10), 10);
    assert_eq!(last_page(1, 10), 0);
}

#[test]
fn line_and_chapter_moves() {
    assert_eq!(step(at(0, 3), Key::LineDown, screen(5, 3, 0)), (at(0, 4), Action::Redraw));
    assert_eq!(step(at(0, 4), Key::LineDown, screen(5, 3, 0)), (at(0, 4), Action::Redraw));
    assert_eq!(step(at(0, 0), Key::LineUp, screen(5, 3, 0)), (at(0, 0), Action::Redraw));
    assert_eq!(step(at(1, 3), Key::NextChapter, screen(5, 3, 0)), (at(2, 0), Action::Load));
    assert_eq!(step(at(2, 3), Key::NextChapter, screen(5, 3, 0)), (at(2, 3), Action::Redraw));
    assert_eq!(step(at(1, 3), Key::PreviousChapter, screen(5, 3, 0)), (at(0, 0), Action::Load));
    assert_eq!(step(at(1, 3), Key::Top, screen(5, 3, 0)), (at(1, 0), Action::Redraw));
    assert_eq!(step(at(1, 3), Key::Bottom, screen(35, 3, 0)), (at(1, 30), Action::Redraw));
    assert_eq!(step(at(1, 3), Key::Quit, screen(35, 3, 0)), (at(1, 3), Action::Quit));
}

#[test]
fn image_key_depends_on_the_image_count() {
    assert_eq!(step(at(0, 0), Key::Image, screen(5, 1, 0)).1, Action::NoImages);
    assert_eq!(step(at(0, 0), Key::Image, screen(5, 1, 1)).1, Action::ShowImage(0));
    assert_eq!(step(at(0, 0), Key::Image, screen(5, 1, 3)).1, Action::AskImage);
    assert_eq!(choose_image(Some(2), 3), Some(2));
    assert_eq!(choose_image(Some(3), 3), None);
    assert_eq!(choose_image(None, 3), None);
}

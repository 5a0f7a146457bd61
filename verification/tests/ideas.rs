use sphinx::ideas::{Idea, IdeasBoard};
use sphinx::project::{create_project, AddDialog, AddIdea, Setup};
use sphinx::refresh::FetchError;

fn idea(id: i32, title: &str) -> Idea {
    Idea {
        id,
        title: title.to_string(),
        description: format!("about {}", title),
        lang: "Rust".to_string(),
    }
}

#[test]
fn default_board_fetches_at_the_first_question() {
    let mut board = IdeasBoard::default();
    assert_eq!(board.ideas(), None);
    assert!(IdeasBoard::new_board(&mut board, 0));
    assert!(!IdeasBoard::new_board(&mut board, 1));
}

#[test]
fn new_board_waits_twenty_seconds_after_its_first_fetch() {
    let mut board = IdeasBoard::new(1_000);
    assert_eq!(board.ideas(), None);
    assert!(!IdeasBoard::new_board(&mut board, 1_000));
    assert!(!IdeasBoard::new_board(&mut board, 20_999));
    assert!(IdeasBoard::new_board(&mut board, 21_000));
    assert!(!IdeasBoard::new_board(&mut board, 21_001));
}

#[test]
fn update_ideas_shows_the_list_that_was_read() {
    let mut board = IdeasBoard::new(0);
    IdeasBoard::update_ideas(&mut board, Ok(vec![idea(1, "one"), idea(2, "two")]));
    assert_eq!(board.ideas(), Some(&vec![idea(1, "one"), idea(2, "two")]));
    IdeasBoard::update_ideas(&mut board, Ok(vec![]));
    assert_eq!(board.ideas(), Some(&vec![]));
}

#[test]
fn update_ideas_keeps_the_list_where_the_fetch_failed() {
    let mut board = IdeasBoard::new(0);
    IdeasBoard::update_ideas(&mut board, Err(FetchError::Failed));
    assert_eq!(board.ideas(), None);
    IdeasBoard::update_ideas(&mut board, Ok(vec![idea(1, "one")]));
    IdeasBoard::update_ideas(&mut board, Err(FetchError::Failed));
    assert_eq!(board.ideas(), Some(&vec![idea(1, "one")]));
}

#[test]
fn mark_update_ideas_fetches_at_the_next_question() {
    let mut board = IdeasBoard::new(0);
    IdeasBoard::update_ideas(&mut board, Ok(vec![idea(1, "one")]));
    assert!(!IdeasBoard::new_board(&mut board, 10));
    IdeasBoard::mark_update_ideas(&mut board);
    assert_eq!(board.ideas(), Some(&vec![idea(1, "one")]));
    assert!(IdeasBoard::new_board(&mut board, 10));
    assert!(!IdeasBoard::new_board(&mut board, 11));
}

#[test]
fn create_project_leaves_rust_to_cargo() {
    assert_eq!(create_project("Rust"), Setup::CargoInit);
    assert_eq!(create_project("rust"), Setup::GitInit);
    assert_eq!(create_project("Rust "), Setup::GitInit);
    assert_eq!(create_project("Python"), Setup::GitInit);
    assert_eq!(create_project(""), Setup::GitInit);
}

#[test]
fn reset_clears_what_was_typed() {
    let mut dialog = AddDialog {
        open: true,
        known_langs: vec!["Rust".to_string(), "Go".to_string()],
        known_category: vec!["tools".to_string()],
        lang: "Go".to_string(),
        category: "tools".to_string(),
        name: "sphinx".to_string(),
    };
    dialog.reset();
    assert_eq!(
        dialog,
        AddDialog {
            open: true,
            known_langs: vec!["Rust".to_string(), "Go".to_string()],
            known_category: vec!["tools".to_string()],
            lang: String::new(),
            category: String::new(),
            name: "new_project".to_string(),
        }
    );
}

#[test]
fn add_idea_starts_empty() {
    let dialog = AddIdea::default();
    assert_eq!(dialog.id, 0);
    assert!(!dialog.mode);
    assert!(dialog.title.is_empty() && dialog.description.is_empty() && dialog.lang.is_empty());
}

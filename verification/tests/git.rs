use sphinx::refresh::FetchError;
use sphinx::sphinx_git::{
    annotate, commit_log, Commit, CommitSettings, GitWidget, History, LoggedCommit,
};

fn logged(id: u8, summary: &str) -> LoggedCommit {
    LoggedCommit { id: vec![id; 20], summary: Some(summary.to_string()) }
}

fn line(message: &str, is_local_head: bool, is_remote_head: bool) -> Commit {
    Commit { message: message.to_string(), is_local_head, is_remote_head }
}

fn history() -> History {
    History {
        commits: vec![logged(3, "third"), logged(2, "second"), logged(1, "first")],
        local_head: vec![3; 20],
        remote_head: Some(vec![2; 20]),
    }
}

fn settings(user: &str) -> CommitSettings {
    CommitSettings { git_user: user.to_string(), git_mail: format!("{}@example.org", user) }
}

#[test]
fn annotate_marks_the_two_tips() {
    assert_eq!(
        annotate(&history()),
        vec![line("third", true, false), line("second", false, true), line("first", false, false)]
    );
}

#[test]
fn annotate_marks_one_commit_as_both_tips() {
    let h = History { remote_head: Some(vec![3; 20]), ..history() };
    assert_eq!(annotate(&h)[0], line("third", true, true));
    assert_eq!(annotate(&h)[1], line("second", false, false));
}

#[test]
fn annotate_without_a_remote_marks_no_remote_tip() {
    let h = History { remote_head: None, ..history() };
    assert!(annotate(&h).iter().all(|c| !c.is_remote_head));
    assert!(annotate(&h)[0].is_local_head);
}

#[test]
fn annotate_tells_identifiers_of_different_length_apart() {
    let h = History {
        commits: vec![LoggedCommit { id: vec![3; 19], summary: None }],
        local_head: vec![3; 20],
        remote_head: Some(vec![3; 19]),
    };
    assert_eq!(annotate(&h), vec![line("", false, true)]);
}

#[test]
fn annotate_of_an_empty_history_is_empty() {
    let h = History { commits: vec![], local_head: vec![], remote_head: None };
    assert!(annotate(&h).is_empty());
}

#[test]
fn commit_log_without_repository_is_empty() {
    assert!(commit_log(&Err(FetchError::RepositoryAbsent)).is_empty());
    assert!(commit_log(&Err(FetchError::Failed)).is_empty());
}

#[test]
fn commit_log_of_a_history_is_its_lines() {
    assert_eq!(commit_log(&Ok(history())), annotate(&history()));
}

#[test]
fn git_widget_fetches_for_a_new_repository() {
    let (git, launch) = GitWidget::new("projects/a", &settings("ann"), GitWidget::default(), 0);
    assert!(launch);
    assert_eq!(git.repo, "projects/a");
    assert_eq!(git.commits(), None);
    assert_eq!(git.settings(), &settings("ann"));
}

#[test]
fn git_widget_keeps_the_log_for_less_than_twenty_seconds() {
    let (mut git, _) = GitWidget::new("projects/a", &settings("ann"), GitWidget::default(), 0);
    assert!(!git.update_commits(Ok(history())));
    let (git, launch) = GitWidget::new("projects/a", &settings("bob"), git, 19_999);
    assert!(!launch);
    assert_eq!(git.commits(), Some(&annotate(&history())));
    assert_eq!(git.settings(), &settings("ann"));
    let (git, launch) = GitWidget::new("projects/a", &settings("bob"), git, 20_000);
    assert!(launch);
    assert_eq!(git.commits(), Some(&annotate(&history())));
    assert_eq!(git.settings(), &settings("bob"));
    let (_, launch) = GitWidget::new("projects/a", &settings("bob"), git, 20_001);
    assert!(!launch);
}

#[test]
fn git_widget_fetches_at_once_for_another_repository() {
    let (mut git, _) = GitWidget::new("projects/a", &settings("ann"), GitWidget::default(), 0);
    git.update_commits(Ok(history()));
    let (git, launch) = GitWidget::new("projects/b", &settings("ann"), git, 1);
    assert!(launch);
    assert_eq!(git.repo, "projects/b");
    assert_eq!(git.commits(), None);
    let (_, launch) = GitWidget::new("projects/b", &settings("ann"), git, 2);
    assert!(!launch);
}

#[test]
fn git_widget_shows_an_empty_log_where_the_repository_is_absent() {
    let (mut git, _) = GitWidget::new("projects/a", &settings("ann"), GitWidget::default(), 0);
    git.update_commits(Ok(history()));
    assert!(git.update_commits(Err(FetchError::RepositoryAbsent)));
    assert_eq!(git.commits(), Some(&vec![]));
    assert!(!git.update_commits(Err(FetchError::Failed)));
    assert_eq!(git.commits(), Some(&vec![]));
    assert_eq!(git.repo, "projects/a");
}

#[test]
fn default_git_widget_is_due_at_once() {
    let (_, launch) = GitWidget::new("", &settings("ann"), GitWidget::default(), 5);
    assert!(launch);
}

#[test]
fn git_widget_keeps_the_log_where_the_fetch_failed() {
    let (mut git, _) = GitWidget::new("projects/a", &settings("ann"), GitWidget::default(), 0);
    assert!(!git.update_commits(Ok(history())));
    let (mut git, launch) = GitWidget::new("projects/a", &settings("ann"), git, 20_000);
    assert!(launch);
    assert!(!git.update_commits(Err(FetchError::Failed)));
    assert_eq!(git.commits(), Some(&annotate(&history())));
    assert_eq!(git.repo, "projects/a");
    assert_eq!(git.settings(), &settings("ann"));
    let (_, launch) = GitWidget::new("projects/a", &settings("ann"), git, 20_001);
    assert!(!launch);
}

#[test]
fn git_widget_shows_no_log_where_the_first_fetch_failed() {
    let (mut git, _) = GitWidget::new("projects/a", &settings("ann"), GitWidget::default(), 0);
    assert!(!git.update_commits(Err(FetchError::Failed)));
    assert_eq!(git.commits(), None);
}

#[test]
fn git_widget_replaces_the_log_whole() {
    let (mut git, _) = GitWidget::new("projects/a", &settings("ann"), GitWidget::default(), 0);
    git.update_commits(Ok(history()));
    let shorter = History {
        commits: vec![logged(9, "only")],
        local_head: vec![9; 20],
        remote_head: None,
    };
    git.update_commits(Ok(shorter));
    assert_eq!(git.commits(), Some(&vec![line("only", true, false)]));
}

#[test]
fn default_git_widget_has_nobody_to_sign() {
    let git = GitWidget::default();
    assert_eq!(git.repo, "");
    assert_eq!(git.commits(), None);
    assert_eq!(git.settings(), &CommitSettings::default());
    assert_eq!(git.settings().git_user, "");
    assert_eq!(git.settings().git_mail, "");
}

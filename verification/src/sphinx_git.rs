//! The commit history of the selected project, as the git view shows it.
//!
//! Reading a repository is the caller's work. What it read comes in as a
//! `History`; the widget marks the tips in it, keeps the result for a
//! while, and says when the history is to be read again. A fetch that
//! failed never takes away the log that is held.

use crate::order::{rank_bytes, rank_names, Rank};
use crate::refresh::{CacheView, FetchError, RefreshCache, DEFAULT_TTL};
use vstd::prelude::*;

verus! {

/// Who signs the commits that the git view makes.
#[derive(Default, Debug, PartialEq, Eq)]
pub struct CommitSettings {
    pub git_user: String,
    pub git_mail: String,
}

/// Commit settings as a mathematical value.
pub struct CommitSettingsView {
    pub git_user: Seq<char>,
    pub git_mail: Seq<char>,
}

impl View for CommitSettings {
    type V = CommitSettingsView;

    open spec fn view(&self) -> CommitSettingsView {
        CommitSettingsView { git_user: self.git_user@, git_mail: self.git_mail@ }
    }
}

impl Clone for CommitSettings {
    /// A second value with the same two strings.
    fn clone(&self) -> (copy: CommitSettings)
        ensures
            copy@ == self@,
    {
        CommitSettings { git_user: self.git_user.clone(), git_mail: self.git_mail.clone() }
    }
}

/// One commit as the repository has it.
#[derive(Debug, Clone, PartialEq, Eq)]
pub struct LoggedCommit {
    /// The bytes of the commit's identifier.
    pub id: Vec<u8>,
    /// The first line of its message, where it has one that is text.
    pub summary: Option<String>,
}

/// A logged commit as a mathematical value.
pub struct LoggedCommitView {
    pub id: Seq<u8>,
    pub summary: Option<Seq<char>>,
}

impl View for LoggedCommit {
    type V = LoggedCommitView;

    open spec fn view(&self) -> LoggedCommitView {
        LoggedCommitView {
            id: self.id@,
            summary: match self.summary {
                Some(s) => Some(s@),
                None => None,
            },
        }
    }
}

/// What was read from a repository: the commits from the tip of the
/// current branch back to the root, and the two tips.
#[derive(Debug, Clone, PartialEq, Eq)]
pub struct History {
    /// Newest first.
    pub commits: Vec<LoggedCommit>,
    /// The identifier that the current branch points at.
    pub local_head: Vec<u8>,
    /// The identifier that the tracked remote branch points at, where
    /// there is one.
    pub remote_head: Option<Vec<u8>>,
}

/// A history as a mathematical value.
pub struct HistoryView {
    pub commits: Seq<LoggedCommitView>,
    pub local_head: Seq<u8>,
    pub remote_head: Option<Seq<u8>>,
}

impl View for History {
    type V = HistoryView;

    open spec fn view(&self) -> HistoryView {
        HistoryView {
            commits: self.commits@.map_values(|c: LoggedCommit| c@),
            local_head: self.local_head@,
            remote_head: match self.remote_head {
                Some(id) => Some(id@),
                None => None,
            },
        }
    }
}

/// One line of the git view.
#[derive(Default, Debug, Clone, PartialEq, Eq)]
pub struct Commit {
    pub message: String,
    /// The commit is the tip of the local branch.
    pub is_local_head: bool,
    /// The commit is the tip of the tracked remote branch.
    pub is_remote_head: bool,
}

/// A line of the git view as a mathematical value.
pub struct CommitView {
    pub message: Seq<char>,
    pub is_local_head: bool,
    pub is_remote_head: bool,
}

impl View for Commit {
    type V = CommitView;

    open spec fn view(&self) -> CommitView {
        CommitView {
            message: self.message@,
            is_local_head: self.is_local_head,
            is_remote_head: self.is_remote_head,
        }
    }
}

/// The lines of a log as mathematical values.
pub open spec fn commit_views(log: Seq<Commit>) -> Seq<CommitView> {
    log.map_values(|c: Commit| c@)
}

/// The line of one commit: its summary, empty where it has none, and
/// whether its identifier is that of each tip.
pub open spec fn line_of(
    c: LoggedCommitView,
    local_head: Seq<u8>,
    remote_head: Option<Seq<u8>>,
) -> CommitView {
    CommitView {
        message: match c.summary {
            Some(s) => s,
            None => Seq::empty(),
        },
        is_local_head: c.id == local_head,
        is_remote_head: remote_head == Some(c.id),
    }
}

/// The lines of a history, one for each commit, in the order read.
pub open spec fn annotated(h: HistoryView) -> Seq<CommitView> {
    h.commits.map_values(|c: LoggedCommitView| line_of(c, h.local_head, h.remote_head))
}

/// The log that the git view shows for what a fetch came back with: the
/// lines of the history, or no line at all where there is no history.
pub open spec fn commit_log_spec(fetched: Result<HistoryView, FetchError>) -> Seq<CommitView> {
    match fetched {
        Ok(h) => annotated(h),
        Err(_) => Seq::empty(),
    }
}

/// What a fetch came back with, as a mathematical value.
pub open spec fn fetched_view(fetched: Result<History, FetchError>) -> Result<
    HistoryView,
    FetchError,
> {
    match fetched {
        Ok(h) => Ok(h@),
        Err(e) => Err(e),
    }
}

/// Whether two identifiers are the same bytes.
fn same_id(a: &Vec<u8>, b: &Vec<u8>) -> (same: bool)
    ensures
        same == (a@ == b@),
{
    rank_bytes(a.as_slice(), b.as_slice()) == Rank::Same
}

/// Marks the tips in a history.
pub fn annotate(history: &History) -> (log: Vec<Commit>)
    ensures
        commit_views(log@) == annotated(history@),
{
    let mut log: Vec<Commit> = Vec::new();
    let mut i: usize = 0;
    while i < history.commits.len()
        invariant
            i <= history.commits.len(),
            log.len() == i,
            forall|k: int|
                0 <= k < i ==> (#[trigger] log[k])@ == line_of(
                    history.commits[k]@,
                    history.local_head@,
                    history@.remote_head,
                ),
        decreases history.commits.len() - i,
    {
        let c = &history.commits[i];
        let message = match &c.summary {
            Some(s) => s.clone(),
            None => String::new(),
        };
        let is_local_head = same_id(&c.id, &history.local_head);
        let is_remote_head = match &history.remote_head {
            Some(tip) => same_id(&c.id, tip),
            None => false,
        };
        log.push(Commit { message, is_local_head, is_remote_head });
        i = i + 1;
    }
    assert(commit_views(log@) =~= annotated(history@));
    log
}

/// The log for what a fetch came back with. A repository that is missing
/// or cannot be read gives an empty log, not an error.
pub fn commit_log(fetched: &Result<History, FetchError>) -> (log: Vec<Commit>)
    ensures
        commit_views(log@) == commit_log_spec(fetched_view(*fetched)),
{
    match fetched {
        Ok(history) => annotate(history),
        Err(_) => {
            let log: Vec<Commit> = Vec::new();
            assert(commit_views(log@) =~= Seq::empty());
            log
        },
    }
}

/// The git view of one repository.
pub struct GitWidget {
    /// The path of the repository: the key of what is kept.
    pub repo: String,
    state: RefreshCache<Vec<Commit>>,
    settings: CommitSettings,
}

/// A git view as a mathematical value.
pub struct GitWidgetView {
    pub repo: Seq<char>,
    /// The log shown; `None` while nothing was fetched for `repo`.
    pub commits: Option<Seq<CommitView>>,
    /// When the log was last asked for; `None` before the first time.
    pub last_update: Option<nat>,
    pub ttl: nat,
    pub settings: CommitSettingsView,
}

impl View for GitWidget {
    type V = GitWidgetView;

    closed spec fn view(&self) -> GitWidgetView {
        GitWidgetView {
            repo: self.repo@,
            commits: match self.state@.current {
                Some(log) => Some(commit_views(log@)),
                None => None,
            },
            last_update: self.state@.last_fetch_started_at,
            ttl: self.state@.ttl,
            settings: self.settings@,
        }
    }
}

impl GitWidgetView {
    /// The log of `self` is due to be fetched at `now` for the repository
    /// at `repo_path`: it is the log of another repository, or it is as
    /// old as the time to live or older, or it was never asked for.
    pub open spec fn stale(self, repo_path: Seq<char>, now: nat) -> bool {
        ||| self.repo != repo_path
        ||| (CacheView::<Seq<CommitView>> {
            current: self.commits,
            last_fetch_started_at: self.last_update,
            ttl: self.ttl,
        }).expired(now)
    }

    /// The git view for the repository at `repo_path` at `now`, and
    /// whether its log is to be fetched. A view of another repository
    /// gives way to an empty one with the settings handed in; a view whose
    /// log is due goes on showing it and takes the settings handed in; any
    /// other view stays as it is.
    pub open spec fn renewed(
        self,
        repo_path: Seq<char>,
        settings: CommitSettingsView,
        now: nat,
    ) -> (GitWidgetView, bool) {
        if self.repo != repo_path {
            (
                GitWidgetView {
                    repo: repo_path,
                    commits: None,
                    last_update: Some(now),
                    settings,
                    ..self
                },
                true,
            )
        } else if self.stale(repo_path, now) {
            (GitWidgetView { last_update: Some(now), settings, ..self }, true)
        } else {
            (self, false)
        }
    }

    /// The git view after a fetch of the history came back. A history
    /// replaces the log; a repository that is absent has an empty log; a
    /// fetch that failed changes nothing.
    pub open spec fn updated(self, fetched: Result<HistoryView, FetchError>) -> GitWidgetView {
        match fetched {
            Ok(h) => GitWidgetView { commits: Some(annotated(h)), ..self },
            Err(FetchError::RepositoryAbsent) => GitWidgetView {
                commits: Some(Seq::empty()),
                ..self
            },
            Err(FetchError::Failed) => self,
        }
    }
}

impl Default for GitWidget {
    /// The git view of no repository, with nobody to sign commits: its
    /// log is due at once.
    fn default() -> (git: GitWidget)
        ensures
            git@ == (GitWidgetView {
                repo: Seq::empty(),
                commits: None,
                last_update: None,
                ttl: DEFAULT_TTL as nat,
                settings: CommitSettingsView { git_user: Seq::empty(), git_mail: Seq::empty() },
            }),
    {
        GitWidget {
            repo: String::new(),
            state: RefreshCache::new(DEFAULT_TTL),
            settings: CommitSettings { git_user: String::new(), git_mail: String::new() },
        }
    }
}

impl GitWidget {
    /// The git view to show for the repository at `repo_path` at `now`,
    /// made from the view `git` of the frame before, and whether the
    /// caller is to fetch the history and hand it to `update_commits`.
    pub fn new(
        repo_path: &str,
        git_settings: &CommitSettings,
        git: GitWidget,
        now: u64,
    ) -> (renewed: (GitWidget, bool))
        ensures
            (renewed.0@, renewed.1) == git@.renewed(repo_path@, git_settings@, now as nat),
            renewed.1 == git@.stale(repo_path@, now as nat),
    {
        let mut git = git;
        if rank_names(repo_path, git.repo.as_str()) != Rank::Same {
            git.repo = repo_path.to_owned();
            git.state.reset();
        }
        if git.state.peek_and_maybe_refresh(now).0 {
            git.settings = git_settings.clone();
            (git, true)
        } else {
            (git, false)
        }
    }

    /// Takes in what a fetch of the history came back with, and says
    /// whether the caller is to set up a repository at the path. A history
    /// replaces the log whole, with its tips marked. Where there is no
    /// repository the log is empty, and the repository is to be set up. A
    /// fetch that failed leaves the view as it was: the log that was held
    /// stays, and where none was held none is shown.
    pub fn update_commits(&mut self, fetched: Result<History, FetchError>) -> (set_up: bool)
        ensures
            final(self)@ == old(self)@.updated(fetched_view(fetched)),
            fetched == Err::<History, FetchError>(FetchError::Failed) ==> final(self)@ == old(
                self,
            )@,
            set_up == (fetched == Err::<History, FetchError>(FetchError::RepositoryAbsent)),
    {
        match fetched {
            Err(FetchError::Failed) => false,
            Err(FetchError::RepositoryAbsent) => {
                let log = commit_log(&fetched);
                self.state.complete::<FetchError>(Ok(log));
                true
            },
            Ok(_) => {
                let log = commit_log(&fetched);
                self.state.complete::<FetchError>(Ok(log));
                false
            },
        }
    }

    /// The log to show; `None` while nothing was fetched for the
    /// repository.
    pub fn commits(&self) -> (log: Option<&Vec<Commit>>)
        ensures
            match log {
                Some(lines) => self@.commits == Some(commit_views(lines@)),
                None => self@.commits is None,
            },
    {
        self.state.current()
    }

    /// Who signs the commits made from this view.
    pub fn settings(&self) -> (settings: &CommitSettings)
        ensures
            settings@ == self@.settings,
    {
        &self.settings
    }
}

} // verus!

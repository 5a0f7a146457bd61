//! The board of shared ideas. The ideas live in a database; the board
//! keeps the list that was read last and says when to read it again.

use crate::refresh::{CacheView, FetchError, RefreshCache, DEFAULT_TTL};
use vstd::prelude::*;

verus! {

/// One shared idea.
#[derive(Default, Debug, Clone, PartialEq, Eq)]
pub struct Idea {
    pub id: i32,
    pub title: String,
    pub description: String,
    /// The language suggested for it.
    pub lang: String,
}

/// An idea as a mathematical value.
pub struct IdeaView {
    pub id: int,
    pub title: Seq<char>,
    pub description: Seq<char>,
    pub lang: Seq<char>,
}

impl View for Idea {
    type V = IdeaView;

    open spec fn view(&self) -> IdeaView {
        IdeaView {
            id: self.id as int,
            title: self.title@,
            description: self.description@,
            lang: self.lang@,
        }
    }
}

/// The ideas of a list as mathematical values.
pub open spec fn idea_views(list: Seq<Idea>) -> Seq<IdeaView> {
    list.map_values(|i: Idea| i@)
}

/// The list of ideas read last, and when it was last asked for.
pub struct IdeasBoard {
    idea_list: RefreshCache<Vec<Idea>>,
}

/// A board as a mathematical value: a cache of the list of ideas.
pub open spec fn board_view(c: CacheView<Vec<Idea>>) -> CacheView<Seq<IdeaView>> {
    CacheView {
        current: match c.current {
            Some(list) => Some(idea_views(list@)),
            None => None,
        },
        last_fetch_started_at: c.last_fetch_started_at,
        ttl: c.ttl,
    }
}

/// What a fetch of the ideas came back with, as a mathematical value.
pub open spec fn fetched_ideas(fetched: Result<Vec<Idea>, FetchError>) -> Result<
    Seq<IdeaView>,
    FetchError,
> {
    match fetched {
        Ok(list) => Ok(idea_views(list@)),
        Err(e) => Err(e),
    }
}

impl View for IdeasBoard {
    type V = CacheView<Seq<IdeaView>>;

    closed spec fn view(&self) -> CacheView<Seq<IdeaView>> {
        board_view(self.idea_list@)
    }
}

impl Default for IdeasBoard {
    /// A board that holds no list; the first question launches a fetch.
    fn default() -> (board: IdeasBoard)
        ensures
            board@ == (CacheView::<Seq<IdeaView>> {
                current: None,
                last_fetch_started_at: None,
                ttl: DEFAULT_TTL as nat,
            }),
    {
        IdeasBoard { idea_list: RefreshCache::new(DEFAULT_TTL) }
    }
}

impl IdeasBoard {
    /// A board that holds no list and whose first fetch the caller
    /// launches at `now`.
    pub fn new(now: u64) -> (board: IdeasBoard)
        ensures
            board@ == (CacheView::<Seq<IdeaView>> {
                current: None,
                last_fetch_started_at: Some(now as nat),
                ttl: DEFAULT_TTL as nat,
            }),
    {
        IdeasBoard { idea_list: RefreshCache::launched(DEFAULT_TTL, now) }
    }

    /// The question of each frame: whether the caller is to fetch the
    /// ideas now. The list shown stays as it is until `update_ideas`.
    pub fn new_board(ideas: &mut IdeasBoard, now: u64) -> (launch: bool)
        ensures
            (final(ideas)@, launch) == old(ideas)@.asked(now as nat),
            launch == old(ideas)@.expired(now as nat),
    {
        ideas.idea_list.peek_and_maybe_refresh(now).0
    }

    /// Declares the list out of date, as after an idea was written: the
    /// next question launches a fetch whatever the time.
    pub fn mark_update_ideas(ideas: &mut IdeasBoard)
        ensures
            final(ideas)@ == old(ideas)@.invalidated(),
            forall|now: nat| final(ideas)@.expired(now),
    {
        ideas.idea_list.invalidate();
    }

    /// Takes in what a fetch of the ideas came back with. A list replaces
    /// the one shown; a failure leaves the board as it was.
    pub fn update_ideas(ideas: &mut IdeasBoard, fetched: Result<Vec<Idea>, FetchError>)
        ensures
            final(ideas)@ == old(ideas)@.completed(fetched_ideas(fetched)),
            fetched is Err ==> final(ideas)@ == old(ideas)@,
    {
        ideas.idea_list.complete(fetched);
    }

    /// The list to show; `None` while no fetch has given one.
    pub fn ideas(&self) -> (list: Option<&Vec<Idea>>)
        ensures
            match list {
                Some(ideas) => self@.current == Some(idea_views(ideas@)),
                None => self@.current is None,
            },
    {
        self.idea_list.current()
    }
}

} // verus!

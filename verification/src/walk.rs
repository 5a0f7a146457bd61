//! The walk that builds a directory tree, one listing at a time.
//!
//! The walk never touches the file system. It names the directory whose
//! listing it needs next; the caller reads that directory and hands the
//! listing in. A directory below the root that cannot be read is left out
//! of the tree; the walk fails only where the root cannot be read.

use crate::dir_tree::{
    children_sorted, depth_capped, entry_views, lemma_directory_view,
    lemma_subdirectories_sorted, lemma_within_depth_capped, sorted_by_name,
    sorted_subdirectories, subdirectories, trees, trees_sorted, within_depth, Directory, Entry,
    EntryView, Tree,
};
use crate::order::name_le;
use vstd::prelude::*;

verus! {

/// How far below the root the explorer's tree goes.
pub const MAX_DEPTH: u32 = 3;

/// Why a walk gave no tree.
#[derive(Clone, Copy, Debug, PartialEq, Eq, Structural)]
pub enum ScanError {
    /// The root of the walk could not be read.
    RootUnreadable,
}

/// A directory whose listing was read and whose entries are being built.
struct Frame {
    name: String,
    path: String,
    /// The directories below, in the order of their names.
    pending: Vec<Entry>,
    /// How many of `pending` were taken up.
    next: usize,
    /// The trees of those that were read, in the same order.
    built: Vec<Directory>,
}

/// A frame as a mathematical value.
#[verifier::ext_equal]
pub struct FrameView {
    pub name: Seq<char>,
    pub path: Seq<char>,
    /// The directories below that the walk has not taken up yet.
    pub pending: Seq<EntryView>,
    /// The trees built so far.
    pub built: Seq<Tree>,
}

impl View for Frame {
    type V = FrameView;

    closed spec fn view(&self) -> FrameView {
        FrameView {
            name: self.name@,
            path: self.path@,
            pending: entry_views(self.pending@).skip(self.next as int),
            built: trees(self.built@),
        }
    }
}

/// A walk in progress: it waits for the listing of one directory.
pub struct Walk {
    max_depth: u32,
    /// The directories from the root down to the parent of the awaited one.
    stack: Vec<Frame>,
    /// The awaited directory.
    name: String,
    path: String,
}

/// A walk as a mathematical value. The awaited directory has the depth
/// `stack.len()`.
#[verifier::ext_equal]
pub struct WalkView {
    pub max_depth: nat,
    pub stack: Seq<FrameView>,
    pub name: Seq<char>,
    pub path: Seq<char>,
}

/// What a walk does with a listing.
pub enum Step {
    /// The walk needs the listing of another directory.
    Read(Walk),
    /// The tree is complete.
    Done(Directory),
    /// There is no tree.
    Failed(ScanError),
}

/// A step as a mathematical value.
#[verifier::ext_equal]
pub enum StepView {
    Read(WalkView),
    Done(Tree),
    Failed(ScanError),
}

/// The trees built in a frame and the directories pending in it stand in
/// the order of their names, the built ones first, with the directory
/// `child` that the walk is busy with below the frame between them. The
/// children of every node built stand in that order too.
pub open spec fn frame_in_order(f: FrameView, child: Option<Seq<char>>) -> bool {
    &&& trees_sorted(f.built)
    &&& sorted_by_name(f.pending)
    &&& forall|i: int, j: int|
        0 <= i < f.built.len() && 0 <= j < f.pending.len() ==> name_le(
            f.built[i].name,
            f.pending[j].name,
        )
    &&& child matches Some(c) ==> {
        &&& forall|i: int| 0 <= i < f.built.len() ==> name_le((#[trigger] f.built[i]).name, c)
        &&& forall|j: int| 0 <= j < f.pending.len() ==> name_le(c, (#[trigger] f.pending[j]).name)
    }
    &&& forall|k: int| 0 <= k < f.built.len() ==> children_sorted(#[trigger] f.built[k])
}

/// The name of the directory that the walk is busy with below the `i`-th
/// frame: that of the frame above, or for the top frame the awaited one.
pub open spec fn child_of(stack: Seq<FrameView>, i: int, awaited: Option<Seq<char>>) -> Option<
    Seq<char>,
> {
    if i + 1 < stack.len() {
        Some(stack[i + 1].name)
    } else {
        awaited
    }
}

/// Every frame is in order.
pub open spec fn stack_in_order(stack: Seq<FrameView>, awaited: Option<Seq<char>>) -> bool {
    forall|i: int|
        0 <= i < stack.len() ==> frame_in_order(#[trigger] stack[i], child_of(stack, i, awaited))
}

/// The trees built in each frame stand one below the frame.
pub open spec fn stack_within_depth(stack: Seq<FrameView>, max_depth: nat) -> bool {
    forall|i: int, k: int|
        0 <= i < stack.len() && 0 <= k < stack[i].built.len() ==> within_depth(
            #[trigger] stack[i].built[k],
            (i + 1) as nat,
            max_depth,
        )
}

impl WalkView {
    /// The awaited directory is no deeper than the walk goes, what was
    /// built stands at the depth of its place, and every frame is in
    /// order.
    pub open spec fn wf(self) -> bool {
        &&& self.stack.len() <= self.max_depth
        &&& stack_within_depth(self.stack, self.max_depth)
        &&& stack_in_order(self.stack, Some(self.name))
    }
}

/// The walk over `path` before anything was read.
pub open spec fn start_spec(name: Seq<char>, path: Seq<char>, max_depth: nat) -> WalkView {
    WalkView { max_depth, stack: Seq::empty(), name, path }
}

/// Closes the frames that have nothing pending, each into the tree of its
/// directory, and hands that tree to the frame below. It stops at the
/// first frame that has a directory pending, which is read next, or with
/// the tree of the root. A walk always settles at least one frame; with
/// none there is no tree.
pub open spec fn settle(max_depth: nat, stack: Seq<FrameView>) -> StepView
    decreases stack.len(),
{
    if stack.len() == 0 {
        StepView::Failed(ScanError::RootUnreadable)
    } else {
        let top = stack.last();
        if top.pending.len() > 0 {
            StepView::Read(
                WalkView {
                    max_depth,
                    stack: stack.drop_last().push(
                        FrameView { pending: top.pending.drop_first(), ..top },
                    ),
                    name: top.pending[0].name,
                    path: top.pending[0].path,
                },
            )
        } else {
            let node = Tree {
                name: top.name,
                path: top.path,
                depth: (stack.len() - 1) as nat,
                children: top.built,
            };
            if stack.len() == 1 {
                StepView::Done(node)
            } else {
                let below = stack[stack.len() - 2];
                settle(
                    max_depth,
                    stack.drop_last().drop_last().push(
                        FrameView { built: below.built.push(node), ..below },
                    ),
                )
            }
        }
    }
}

/// The frame of the awaited directory once its listing is there: at the
/// depth where the walk ends nothing is pending, above it the directories
/// of the listing are, in the order of their names.
pub open spec fn opened(w: WalkView, listing: Seq<EntryView>) -> FrameView {
    FrameView {
        name: w.name,
        path: w.path,
        pending: if w.stack.len() >= w.max_depth {
            Seq::empty()
        } else {
            subdirectories(listing)
        },
        built: Seq::empty(),
    }
}

/// What the walk does with the listing of the awaited directory; `None`
/// says that the directory could not be read.
pub open spec fn dir_walk_spec(w: WalkView, listing: Option<Seq<EntryView>>) -> StepView {
    match listing {
        None => if w.stack.len() == 0 {
            StepView::Failed(ScanError::RootUnreadable)
        } else {
            settle(w.max_depth, w.stack)
        },
        Some(entries) => settle(w.max_depth, w.stack.push(opened(w, entries))),
    }
}

/// The listing that was handed in, as a mathematical value.
pub open spec fn listing_view(listing: Option<Vec<Entry>>) -> Option<Seq<EntryView>> {
    match listing {
        None => None,
        Some(entries) => Some(entry_views(entries@)),
    }
}

/// Settling keeps what was built at the depth of its place and every
/// frame in order, and the tree it ends with has both.
pub proof fn lemma_settle_wf(max_depth: nat, stack: Seq<FrameView>)
    requires
        1 <= stack.len() <= max_depth + 1,
        stack.len() == max_depth + 1 ==> stack.last().pending.len() == 0,
        stack_within_depth(stack, max_depth),
        stack_in_order(stack, None),
    ensures
        match settle(max_depth, stack) {
            StepView::Read(w) => w.wf() && w.max_depth == max_depth,
            StepView::Done(t) => within_depth(t, 0, max_depth) && children_sorted(t),
            StepView::Failed(_) => false,
        },
    decreases stack.len(),
{
    let top = stack.last();
    let n = stack.len() as int;
    assert(frame_in_order(top, child_of(stack, n - 1, None)));
    if top.pending.len() > 0 {
        let e = top.pending[0];
        let shown = FrameView { pending: top.pending.drop_first(), ..top };
        let next = stack.drop_last().push(shown);
        assert forall|i: int, k: int|
            0 <= i < next.len() && 0 <= k < next[i].built.len() implies within_depth(
            #[trigger] next[i].built[k],
            (i + 1) as nat,
            max_depth,
        ) by {
            assert(next[i].built == stack[i].built);
        }
        assert forall|i: int| 0 <= i < next.len() implies frame_in_order(
            #[trigger] next[i],
            child_of(next, i, Some(e.name)),
        ) by {
            if i < n - 1 {
                assert(next[i] == stack[i]);
                assert(next[i + 1].name == stack[i + 1].name);
                assert(frame_in_order(stack[i], child_of(stack, i, None)));
            } else {
                assert forall|a: int, b: int| 0 <= a < b < shown.pending.len() implies name_le(
                    shown.pending[a].name,
                    shown.pending[b].name,
                ) by {
                    assert(shown.pending[a] == top.pending[a + 1]);
                    assert(shown.pending[b] == top.pending[b + 1]);
                }
                assert forall|a: int, b: int|
                    0 <= a < shown.built.len() && 0 <= b < shown.pending.len() implies name_le(
                    shown.built[a].name,
                    shown.pending[b].name,
                ) by {
                    assert(shown.pending[b] == top.pending[b + 1]);
                }
                assert forall|b: int| 0 <= b < shown.pending.len() implies name_le(
                    e.name,
                    (#[trigger] shown.pending[b]).name,
                ) by {
                    assert(shown.pending[b] == top.pending[b + 1]);
                }
            }
        }
    } else {
        let node = Tree { name: top.name, path: top.path, depth: (n - 1) as nat, children: top.built };
        assert(within_depth(node, (n - 1) as nat, max_depth));
        assert(children_sorted(node));
        if n > 1 {
            let below = stack[n - 2];
            let raised = FrameView { built: below.built.push(node), ..below };
            let next = stack.drop_last().drop_last().push(raised);
            assert(frame_in_order(below, child_of(stack, n - 2, None)));
            assert forall|i: int, k: int|
                0 <= i < next.len() && 0 <= k < next[i].built.len() implies within_depth(
                #[trigger] next[i].built[k],
                (i + 1) as nat,
                max_depth,
            ) by {
                if i < next.len() - 1 {
                    assert(next[i].built == stack[i].built);
                } else if k < below.built.len() {
                    assert(next[i].built[k] == stack[i].built[k]);
                }
            }
            assert forall|i: int| 0 <= i < next.len() implies frame_in_order(
                #[trigger] next[i],
                child_of(next, i, None),
            ) by {
                if i < n - 2 {
                    assert(next[i] == stack[i]);
                    assert(next[i + 1].name == stack[i + 1].name);
                    assert(frame_in_order(stack[i], child_of(stack, i, None)));
                } else {
                    assert forall|a: int, b: int| 0 <= a < b < raised.built.len() implies name_le(
                        raised.built[a].name,
                        raised.built[b].name,
                    ) by {
                        assert(raised.built[a] == below.built[a]);
                        if b < below.built.len() {
                            assert(raised.built[b] == below.built[b]);
                        }
                    }
                    assert forall|a: int, b: int|
                        0 <= a < raised.built.len() && 0 <= b
                            < raised.pending.len() implies name_le(
                        raised.built[a].name,
                        raised.pending[b].name,
                    ) by {
                        if a < below.built.len() {
                            assert(raised.built[a] == below.built[a]);
                        }
                    }
                    assert forall|k: int| 0 <= k < raised.built.len() implies children_sorted(
                        #[trigger] raised.built[k],
                    ) by {
                        if k < below.built.len() {
                            assert(raised.built[k] == below.built[k]);
                        }
                    }
                }
            }
            lemma_settle_wf(max_depth, next);
        }
    }
}

/// Whatever listing a well-formed walk is handed, the walk that goes on is
/// well-formed; and the tree of a walk that ends has every node at the
/// depth of its place, none deeper than the walk goes, none with children
/// at that depth, and the children of every node in the order of their
/// names. The walk fails only on a root that cannot be read.
pub proof fn lemma_dir_walk_wf(w: WalkView, listing: Option<Seq<EntryView>>)
    requires
        w.wf(),
    ensures
        match dir_walk_spec(w, listing) {
            StepView::Read(next) => next.wf() && next.max_depth == w.max_depth,
            StepView::Done(t) => {
                &&& within_depth(t, 0, w.max_depth)
                &&& depth_capped(t, w.max_depth)
                &&& children_sorted(t)
            },
            StepView::Failed(_) => listing is None && w.stack.len() == 0,
        },
{
    let n = w.stack.len() as int;
    match listing {
        None => {
            if n > 0 {
                assert forall|i: int| 0 <= i < n implies frame_in_order(
                    #[trigger] w.stack[i],
                    child_of(w.stack, i, None),
                ) by {
                    assert(frame_in_order(w.stack[i], child_of(w.stack, i, Some(w.name))));
                }
                lemma_settle_wf(w.max_depth, w.stack);
            }
        },
        Some(entries) => {
            let frame = opened(w, entries);
            let stack = w.stack.push(frame);
            lemma_subdirectories_sorted(entries);
            assert forall|i: int, k: int|
                0 <= i < stack.len() && 0 <= k < stack[i].built.len() implies within_depth(
                #[trigger] stack[i].built[k],
                (i + 1) as nat,
                w.max_depth,
            ) by {
                assert(stack[i] == w.stack[i]);
            }
            assert forall|i: int| 0 <= i < stack.len() implies frame_in_order(
                #[trigger] stack[i],
                child_of(stack, i, None),
            ) by {
                if i < n {
                    assert(stack[i] == w.stack[i]);
                    assert(stack[i + 1].name == if i + 1 < n {
                        w.stack[i + 1].name
                    } else {
                        w.name
                    });
                    assert(frame_in_order(w.stack[i], child_of(w.stack, i, Some(w.name))));
                }
            }
            lemma_settle_wf(w.max_depth, stack);
        },
    }
    if let StepView::Done(t) = dir_walk_spec(w, listing) {
        lemma_within_depth_capped(t, 0, w.max_depth);
    }
}

/// The frames of a stack as mathematical values.
spec fn frame_views(stack: Seq<Frame>) -> Seq<FrameView> {
    stack.map_values(|f: Frame| f@)
}

impl View for Walk {
    type V = WalkView;

    closed spec fn view(&self) -> WalkView {
        WalkView {
            max_depth: self.max_depth as nat,
            stack: frame_views(self.stack@),
            name: self.name@,
            path: self.path@,
        }
    }
}

impl View for Step {
    type V = StepView;

    open spec fn view(&self) -> StepView {
        match self {
            Step::Read(w) => StepView::Read(w@),
            Step::Done(d) => StepView::Done(d@),
            Step::Failed(e) => StepView::Failed(*e),
        }
    }
}

/// Each frame has taken up no more than it has pending.
spec fn cursors_in_range(stack: Seq<Frame>) -> bool {
    forall|i: int| 0 <= i < stack.len() ==> (#[trigger] stack[i]).next <= stack[i].pending.len()
}

/// The name of a root that has no last component.
pub open spec fn placeholder() -> Seq<char> {
    seq!['.']
}

/// The name of the root's node: the last component of its path, or `.`
/// where the path has none.
pub fn root_name(component: Option<String>) -> (name: String)
    ensures
        name@ == match component {
            Some(n) => n@,
            None => placeholder(),
        },
{
    match component {
        Some(n) => n,
        None => {
            proof {
                reveal_strlit(".");
            }
            assert("."@ =~= placeholder());
            String::from_str(".")
        },
    }
}

/// `part` is a stretch of `whole`: some characters of it that stand side
/// by side, and at least one.
pub open spec fn is_stretch_of(part: Seq<char>, whole: Seq<char>) -> bool {
    exists|from: int, to: int|
        0 <= from < to <= whole.len() && part == #[trigger] whole.subrange(from, to)
}

/// `std::path::Path::file_name` on `path`: its last component, where it
/// has one. Which stretch of the path that is depends on the platform's
/// separators, so all that is claimed is that it is a stretch of the
/// path: a component is a part of the path between separators, and never
/// an empty one, since separators that follow each other count once.
#[verifier::external_body]
fn last_component(path: &str) -> (name: Option<String>)
    ensures
        name matches Some(n) ==> is_stretch_of(n@, path@),
{
    std::path::Path::new(path).file_name().map(|n| n.to_string_lossy().into_owned())
}

impl Walk {
    #[verifier::type_invariant]
    spec fn inv(&self) -> bool {
        &&& self@.wf()
        &&& cursors_in_range(self.stack@)
    }

    /// The walk over the directory at `path`, whose node will be named
    /// `name`, down to `max_depth` levels below it. It waits for the
    /// listing of `path`.
    pub fn start(name: String, path: String, max_depth: u32) -> (walk: Walk)
        ensures
            walk@ == start_spec(name@, path@, max_depth as nat),
            walk@.wf(),
    {
        let walk = Walk { max_depth, stack: Vec::new(), name, path };
        assert(walk@.stack =~= Seq::empty());
        walk
    }

    /// The walk over the directory at `root`, named by the last component
    /// of `root` as the platform reads it: a stretch of `root`, or `.`
    /// where `root` has no last component.
    pub fn new(root: &str, max_depth: u32) -> (walk: Walk)
        ensures
            walk@.path == root@,
            walk@.stack.len() == 0,
            walk@.max_depth == max_depth,
            walk@.name == placeholder() || is_stretch_of(walk@.name, root@),
            walk@.wf(),
    {
        Walk::start(root_name(last_component(root)), root.to_owned(), max_depth)
    }

    /// The path of the directory whose listing the walk waits for.
    pub fn wanted(&self) -> (path: &str)
        ensures
            path@ == self@.path,
    {
        self.path.as_str()
    }

    /// The depth of the directory whose listing the walk waits for.
    pub fn depth(&self) -> (depth: u32)
        ensures
            depth == self@.stack.len(),
            depth <= self@.max_depth,
    {
        proof {
            use_type_invariant(self);
        }
        self.stack.len() as u32
    }

    /// How far below the root the walk goes.
    pub fn max_depth(&self) -> (max_depth: u32)
        ensures
            max_depth == self@.max_depth,
    {
        self.max_depth
    }
}

/// Takes the walk one listing further. `listing` holds the entries of the
/// directory that the walk waited for, or `None` where that directory
/// could not be read.
///
/// Whatever the listings were that the walk was handed, the tree it ends
/// with has no node deeper than the walk goes, no children below a node at
/// that depth, and the children of every node in the order of their names.
pub fn dir_walk(walk: Walk, listing: Option<Vec<Entry>>) -> (step: Step)
    ensures
        step@ == dir_walk_spec(walk@, listing_view(listing)),
        walk@.wf(),
        match step@ {
            StepView::Read(next) => next.wf() && next.max_depth == walk@.max_depth,
            StepView::Done(t) => {
                &&& within_depth(t, 0, walk@.max_depth)
                &&& depth_capped(t, walk@.max_depth)
                &&& children_sorted(t)
            },
            StepView::Failed(e) => {
                &&& e == ScanError::RootUnreadable
                &&& listing is None
                &&& walk@.stack.len() == 0
            },
        },
{
    proof {
        use_type_invariant(&walk);
        lemma_dir_walk_wf(walk@, listing_view(listing));
    }
    let ghost goal = dir_walk_spec(walk@, listing_view(listing));
    let ghost before = walk@;
    let Walk { max_depth, stack, name, path } = walk;
    let mut stack = stack;
    match listing {
        None => {
            if stack.len() == 0 {
                return Step::Failed(ScanError::RootUnreadable);
            }
        },
        Some(entries) => {
            let pending = if stack.len() >= max_depth as usize {
                Vec::new()
            } else {
                sorted_subdirectories(&entries)
            };
            let frame = Frame { name, path, pending, next: 0, built: Vec::new() };
            proof {
                assert(entry_views(frame.pending@).skip(0) =~= entry_views(frame.pending@));
                assert(frame@.pending =~= opened(before, entry_views(entries@)).pending);
                assert(frame@.built =~= Seq::empty());
                assert(frame@ == opened(before, entry_views(entries@)));
            }
            stack.push(frame);
            assert(frame_views(stack@) =~= before.stack.push(frame@));
        },
    }
    loop
        invariant
            1 <= stack.len() <= max_depth + 1,
            cursors_in_range(stack@),
            settle(max_depth as nat, frame_views(stack@)) == goal,
            goal == dir_walk_spec(walk@, listing_view(listing)),
            walk@.wf(),
            match goal {
                StepView::Read(next) => next.wf() && next.max_depth == walk@.max_depth,
                StepView::Done(t) => {
                    &&& within_depth(t, 0, walk@.max_depth)
                    &&& depth_capped(t, walk@.max_depth)
                    &&& children_sorted(t)
                },
                StepView::Failed(_) => false,
            },
        decreases stack.len(),
    {
        let ghost frames = frame_views(stack@);
        let mut top = stack.pop().unwrap();
        assert(top@ == frames.last());
        assert(frame_views(stack@) =~= frames.drop_last());
        if top.next < top.pending.len() {
            let name = top.pending[top.next].name.clone();
            let path = top.pending[top.next].path.clone();
            let ghost shown = top@;
            top.next = top.next + 1;
            proof {
                assert(shown.pending[0] == top.pending[top.next - 1]@);
                assert(top@.pending =~= shown.pending.drop_first());
                assert(top@ == (FrameView { pending: shown.pending.drop_first(), ..shown }));
            }
            stack.push(top);
            assert(frame_views(stack@) =~= frames.drop_last().push(top@));
            return Step::Read(Walk { max_depth, stack, name, path });
        }
        let Frame { name, path, pending: _, next: _, built } = top;
        let node = Directory { name, entries: built, depth: stack.len() as u32, path };
        proof {
            lemma_directory_view(node);
            assert(top@.pending.len() == 0);
        }
        match stack.pop() {
            None => {
                return Step::Done(node);
            },
            Some(below) => {
                let mut below = below;
                let ghost under = below@;
                below.built.push(node);
                proof {
                    assert(below@.built =~= under.built.push(node@));
                    assert(below@ == (FrameView { built: under.built.push(node@), ..under }));
                }
                stack.push(below);
                proof {
                    assert(frame_views(stack@) =~= frames.drop_last().drop_last().push(below@));
                    assert(under == frames[frames.len() - 2]);
                }
            },
        }
    }
}

} // verus!

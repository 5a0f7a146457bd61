//! What a walk amounts to: the tree of a file system that holds still.
//!
//! A file system is taken as a function from a path to the listing of the
//! directory there, or to `None` where nothing can be read. The tree of
//! such a file system is defined outright, and the walk is shown to build
//! exactly that tree when each listing it is handed is the file system's.

use crate::dir_tree::{
    children_sorted, depth_capped, lemma_subdirectories_sorted, lemma_within_depth_capped,
    sorted_by_name, subdirectories, trees_sorted, within_depth, EntryView, Tree,
};
use crate::order::name_le;
use crate::walk::{
    dir_walk_spec, lemma_dir_walk_wf, opened, settle, start_spec, FrameView, ScanError, StepView,
    WalkView,
};
use vstd::prelude::*;

verus! {

/// The tree of the directory at `path`, which lies `depth` levels below
/// the root, or `None` where it cannot be read. A directory at
/// `max_depth` has no children in the tree, whatever it holds.
pub open spec fn subtree(
    fs: spec_fn(Seq<char>) -> Option<Seq<EntryView>>,
    name: Seq<char>,
    path: Seq<char>,
    depth: nat,
    max_depth: nat,
) -> Option<Tree>
    decreases max_depth + 1 - depth, 0nat,
{
    match fs(path) {
        None => None,
        Some(listing) => Some(
            Tree {
                name,
                path,
                depth,
                children: if depth >= max_depth {
                    Seq::empty()
                } else {
                    forest(fs, subdirectories(listing), depth + 1, max_depth)
                },
            },
        ),
    }
}

/// The trees of those directories of `row` that can be read, in the order
/// of `row`. They lie `depth` levels below the root.
pub open spec fn forest(
    fs: spec_fn(Seq<char>) -> Option<Seq<EntryView>>,
    row: Seq<EntryView>,
    depth: nat,
    max_depth: nat,
) -> Seq<Tree>
    decreases max_depth + 1 - depth, row.len(),
{
    if row.len() == 0 || depth > max_depth {
        Seq::empty()
    } else {
        let rest = forest(fs, row.drop_first(), depth, max_depth);
        match subtree(fs, row[0].name, row[0].path, depth, max_depth) {
            Some(t) => seq![t] + rest,
            None => rest,
        }
    }
}

/// What a whole walk over the directory at `path` comes to.
pub open spec fn scan(
    fs: spec_fn(Seq<char>) -> Option<Seq<EntryView>>,
    name: Seq<char>,
    path: Seq<char>,
    max_depth: nat,
) -> Result<Tree, ScanError> {
    match subtree(fs, name, path, 0, max_depth) {
        Some(t) => Ok(t),
        None => Err(ScanError::RootUnreadable),
    }
}

/// The tree of a directory is named as asked, has every node at the depth
/// of its place, and has the children of every node in the order of their
/// names.
pub proof fn lemma_subtree_shape(
    fs: spec_fn(Seq<char>) -> Option<Seq<EntryView>>,
    name: Seq<char>,
    path: Seq<char>,
    depth: nat,
    max_depth: nat,
)
    requires
        depth <= max_depth,
    ensures
        subtree(fs, name, path, depth, max_depth) matches Some(t) ==> {
            &&& t.name == name
            &&& t.path == path
            &&& within_depth(t, depth, max_depth)
            &&& children_sorted(t)
        },
    decreases max_depth + 1 - depth, 0nat,
{
    if let Some(listing) = fs(path) {
        let t = subtree(fs, name, path, depth, max_depth)->0;
        if depth < max_depth {
            let row = subdirectories(listing);
            lemma_subdirectories_sorted(listing);
            lemma_forest_shape(fs, row, depth + 1, max_depth);
            assert(t.children == forest(fs, row, depth + 1, max_depth));
            assert forall|i: int| 0 <= i < t.children.len() implies within_depth(
                #[trigger] t.children[i],
                depth + 1,
                max_depth,
            ) && children_sorted(t.children[i]) by {
                assert(t.children[i] == forest(fs, row, depth + 1, max_depth)[i]);
            }
        } else {
            assert(t.children.len() == 0);
        }
    }
}

/// The trees of a sorted row stand at the depth of the row, each with its
/// children in order and each named like a directory of the row, and are
/// themselves in the order of their names.
pub proof fn lemma_forest_shape(
    fs: spec_fn(Seq<char>) -> Option<Seq<EntryView>>,
    row: Seq<EntryView>,
    depth: nat,
    max_depth: nat,
)
    requires
        depth <= max_depth,
        sorted_by_name(row),
    ensures
        forall|k: int|
            0 <= k < forest(fs, row, depth, max_depth).len() ==> {
                let t = #[trigger] forest(fs, row, depth, max_depth)[k];
                &&& within_depth(t, depth, max_depth)
                &&& children_sorted(t)
                &&& exists|j: int| 0 <= j < row.len() && row[j].name == t.name
            },
        trees_sorted(forest(fs, row, depth, max_depth)),
    decreases max_depth + 1 - depth, row.len(),
{
    if row.len() > 0 {
        let rest_row = row.drop_first();
        let rest = forest(fs, rest_row, depth, max_depth);
        let all = forest(fs, row, depth, max_depth);
        assert(sorted_by_name(rest_row)) by {
            assert forall|i: int, j: int| 0 <= i < j < rest_row.len() implies name_le(
                rest_row[i].name,
                rest_row[j].name,
            ) by {
                assert(rest_row[i] == row[i + 1]);
                assert(rest_row[j] == row[j + 1]);
            }
        }
        lemma_forest_shape(fs, rest_row, depth, max_depth);
        lemma_subtree_shape(fs, row[0].name, row[0].path, depth, max_depth);
        let first = subtree(fs, row[0].name, row[0].path, depth, max_depth);
        let shift: int = if first is Some { 1 } else { 0 };
        assert forall|k: int| 0 <= k < all.len() implies {
            let t = #[trigger] all[k];
            &&& within_depth(t, depth, max_depth)
            &&& children_sorted(t)
            &&& exists|j: int| 0 <= j < row.len() && row[j].name == t.name
        } by {
            if k < shift {
                assert(row[0].name == all[k].name);
            } else {
                assert(all[k] == rest[k - shift]);
                let j = choose|j: int| 0 <= j < rest_row.len() && rest_row[j].name == rest[k - shift].name;
                assert(row[j + 1].name == all[k].name);
            }
        }
        assert forall|i: int, j: int| 0 <= i < j < all.len() implies name_le(
            all[i].name,
            all[j].name,
        ) by {
            assert(all[j] == rest[j - shift]);
            if i < shift {
                let m = choose|m: int| 0 <= m < rest_row.len() && rest_row[m].name == rest[j - shift].name;
                assert(rest_row[m] == row[m + 1]);
                assert(name_le(row[0].name, row[m + 1].name));
            } else {
                assert(all[i] == rest[i - shift]);
            }
        }
    }
}

/// The directories of `row` that `fs` can read, in the order of `row`.
pub open spec fn readable(
    fs: spec_fn(Seq<char>) -> Option<Seq<EntryView>>,
    row: Seq<EntryView>,
) -> Seq<EntryView> {
    row.filter(|e: EntryView| fs(e.path) is Some)
}

/// The trees of a row are the trees of exactly those directories of the
/// row that can be read, one for each, in the order of the row.
pub proof fn lemma_forest_members(
    fs: spec_fn(Seq<char>) -> Option<Seq<EntryView>>,
    row: Seq<EntryView>,
    depth: nat,
    max_depth: nat,
)
    requires
        depth <= max_depth,
    ensures
        forest(fs, row, depth, max_depth) == readable(fs, row).map_values(
            |e: EntryView| subtree(fs, e.name, e.path, depth, max_depth)->0,
        ),
    decreases row.len(),
{
    let can = |e: EntryView| fs(e.path) is Some;
    let tree = |e: EntryView| subtree(fs, e.name, e.path, depth, max_depth)->0;
    reveal_with_fuel(Seq::filter, 2);
    if row.len() == 0 {
        assert(forest(fs, row, depth, max_depth) =~= readable(fs, row).map_values(tree));
    } else {
        let first = seq![row[0]];
        let rest = row.drop_first();
        lemma_forest_members(fs, rest, depth, max_depth);
        assert(row =~= first + rest);
        Seq::filter_distributes_over_add(first, rest, can);
        assert(first.drop_last() =~= Seq::<EntryView>::empty());
        let found = readable(fs, rest);
        if can(row[0]) {
            assert(first.filter(can) =~= first);
            assert(readable(fs, row) =~= first + found);
            assert(subtree(fs, row[0].name, row[0].path, depth, max_depth) == Some(tree(row[0])));
            assert(readable(fs, row).map_values(tree) =~= seq![tree(row[0])] + found.map_values(
                tree,
            ));
        } else {
            assert(first.filter(can) =~= Seq::<EntryView>::empty());
            assert(readable(fs, row) =~= found);
            assert(subtree(fs, row[0].name, row[0].path, depth, max_depth) is None);
        }
    }
}

/// A directory at the depth where the walk ends that can be read is in
/// the tree, without children, whatever it holds.
pub proof fn lemma_leaf_at_max_depth(
    fs: spec_fn(Seq<char>) -> Option<Seq<EntryView>>,
    name: Seq<char>,
    path: Seq<char>,
    max_depth: nat,
)
    requires
        fs(path) is Some,
    ensures
        subtree(fs, name, path, max_depth, max_depth) == Some(
            Tree { name, path, depth: max_depth, children: Seq::empty() },
        ),
{
}

/// The tree of a whole walk has no node deeper than `max_depth`, no
/// children below a node at `max_depth`, and the children of every node in
/// the order of their names.
pub proof fn lemma_scan_shape(
    fs: spec_fn(Seq<char>) -> Option<Seq<EntryView>>,
    name: Seq<char>,
    path: Seq<char>,
    max_depth: nat,
)
    ensures
        scan(fs, name, path, max_depth) matches Ok(t) ==> {
            &&& t.name == name
            &&& t.path == path
            &&& t.depth == 0
            &&& depth_capped(t, max_depth)
            &&& children_sorted(t)
        },
        scan(fs, name, path, max_depth) is Err <==> fs(path) is None,
{
    lemma_subtree_shape(fs, name, path, 0, max_depth);
    if let Some(t) = subtree(fs, name, path, 0, max_depth) {
        lemma_within_depth_capped(t, 0, max_depth);
    }
}

/// The tree of a frame's directory once everything pending in it is read
/// from `fs`; `child` is the tree, if any, of the directory that the walk
/// is busy with below the frame.
pub open spec fn close(
    fs: spec_fn(Seq<char>) -> Option<Seq<EntryView>>,
    max_depth: nat,
    frame: FrameView,
    depth: nat,
    child: Option<Tree>,
) -> Tree {
    let built = match child {
        Some(t) => frame.built.push(t),
        None => frame.built,
    };
    Tree {
        name: frame.name,
        path: frame.path,
        depth,
        children: built + forest(fs, frame.pending, depth + 1, max_depth),
    }
}

/// The tree of the root once every frame of `stack` is closed, from the
/// top down.
pub open spec fn unwind(
    fs: spec_fn(Seq<char>) -> Option<Seq<EntryView>>,
    max_depth: nat,
    stack: Seq<FrameView>,
    child: Option<Tree>,
) -> Tree
    recommends
        stack.len() > 0,
    decreases stack.len(),
{
    let t = close(fs, max_depth, stack.last(), (stack.len() - 1) as nat, child);
    if stack.len() <= 1 {
        t
    } else {
        unwind(fs, max_depth, stack.drop_last(), Some(t))
    }
}

/// What the walk `w` comes to if every listing it is handed from here on
/// is that of `fs`.
pub open spec fn outcome(
    w: WalkView,
    fs: spec_fn(Seq<char>) -> Option<Seq<EntryView>>,
) -> Result<Tree, ScanError> {
    let awaited = subtree(fs, w.name, w.path, w.stack.len(), w.max_depth);
    if w.stack.len() == 0 {
        match awaited {
            Some(t) => Ok(t),
            None => Err(ScanError::RootUnreadable),
        }
    } else {
        Ok(unwind(fs, w.max_depth, w.stack, awaited))
    }
}

/// A walk that has read nothing yet comes to the tree of its root.
pub proof fn lemma_start_outcome(
    fs: spec_fn(Seq<char>) -> Option<Seq<EntryView>>,
    name: Seq<char>,
    path: Seq<char>,
    max_depth: nat,
)
    ensures
        outcome(start_spec(name, path, max_depth), fs) == scan(fs, name, path, max_depth),
{
}

/// Settling ends with the tree that the stack comes to, or goes on with a
/// walk that comes to it.
pub proof fn lemma_settle_outcome(
    fs: spec_fn(Seq<char>) -> Option<Seq<EntryView>>,
    max_depth: nat,
    stack: Seq<FrameView>,
)
    requires
        1 <= stack.len() <= max_depth + 1,
        stack.len() == max_depth + 1 ==> stack.last().pending.len() == 0,
    ensures
        match settle(max_depth, stack) {
            StepView::Read(w) => outcome(w, fs) == Ok::<Tree, ScanError>(
                unwind(fs, max_depth, stack, None),
            ),
            StepView::Done(t) => t == unwind(fs, max_depth, stack, None),
            StepView::Failed(_) => false,
        },
    decreases stack.len(),
{
    let top = stack.last();
    let depth = (stack.len() - 1) as nat;
    if top.pending.len() > 0 {
        let e = top.pending[0];
        let shown = FrameView { pending: top.pending.drop_first(), ..top };
        let next = stack.drop_last().push(shown);
        let awaited = subtree(fs, e.name, e.path, stack.len(), max_depth);
        assert(next.last() == shown);
        assert(next.drop_last() =~= stack.drop_last());
        let rest = forest(fs, top.pending.drop_first(), depth + 1, max_depth);
        assert(forest(fs, top.pending, depth + 1, max_depth) == match awaited {
            Some(t) => seq![t] + rest,
            None => rest,
        });
        assert(close(fs, max_depth, shown, depth, awaited).children =~= close(
            fs,
            max_depth,
            top,
            depth,
            None,
        ).children);
        assert(close(fs, max_depth, shown, depth, awaited) =~= close(
            fs,
            max_depth,
            top,
            depth,
            None,
        ));
        assert(unwind(fs, max_depth, next, awaited) == unwind(fs, max_depth, stack, None));
        let w = WalkView { max_depth, stack: next, name: e.name, path: e.path };
        assert(settle(max_depth, stack) == StepView::Read(w));
        assert(outcome(w, fs) == Ok::<Tree, ScanError>(unwind(fs, max_depth, next, awaited)));
    } else {
        let node = Tree { name: top.name, path: top.path, depth, children: top.built };
        assert(close(fs, max_depth, top, depth, None) =~= node);
        if stack.len() > 1 {
            let below = stack[stack.len() - 2];
            let raised = FrameView { built: below.built.push(node), ..below };
            let next = stack.drop_last().drop_last().push(raised);
            lemma_settle_outcome(fs, max_depth, next);
            assert(stack.drop_last().last() == below);
            assert(next.last() == raised);
            assert(next.drop_last() =~= stack.drop_last().drop_last());
            assert(close(fs, max_depth, raised, (depth - 1) as nat, None) =~= close(
                fs,
                max_depth,
                below,
                (depth - 1) as nat,
                Some(node),
            ));
            assert(unwind(fs, max_depth, stack, None) == unwind(
                fs,
                max_depth,
                stack.drop_last(),
                Some(node),
            ));
            assert(unwind(fs, max_depth, stack.drop_last(), Some(node)) == unwind(
                fs,
                max_depth,
                next,
                None,
            ));
            assert(settle(max_depth, stack) == settle(max_depth, next));
        } else {
            assert(settle(max_depth, stack) == StepView::Done(node));
        }
    }
}

/// Handing a walk the listing that `fs` has of the awaited directory does
/// not change what the walk comes to; and a walk that ends with that
/// listing ends with what it came to.
pub proof fn lemma_dir_walk_outcome(
    w: WalkView,
    fs: spec_fn(Seq<char>) -> Option<Seq<EntryView>>,
)
    requires
        w.stack.len() <= w.max_depth,
    ensures
        match dir_walk_spec(w, fs(w.path)) {
            StepView::Read(next) => outcome(next, fs) == outcome(w, fs),
            StepView::Done(t) => outcome(w, fs) == Ok::<Tree, ScanError>(t),
            StepView::Failed(e) => outcome(w, fs) == Err::<Tree, ScanError>(e),
        },
{
    match fs(w.path) {
        None => {
            if w.stack.len() > 0 {
                lemma_settle_outcome(fs, w.max_depth, w.stack);
            }
        },
        Some(listing) => {
            let frame = opened(w, listing);
            let stack = w.stack.push(frame);
            lemma_settle_outcome(fs, w.max_depth, stack);
            let awaited = subtree(fs, w.name, w.path, w.stack.len(), w.max_depth);
            assert(stack.last() == frame);
            assert(stack.drop_last() =~= w.stack);
            assert(close(fs, w.max_depth, frame, w.stack.len(), None) =~= awaited->0);
        },
    }
}

/// The walk `w` taken on for at most `fuel` listings, each of them that of
/// `fs`: what it ends with, or `None` where it has not ended by then.
pub open spec fn run(
    w: WalkView,
    fs: spec_fn(Seq<char>) -> Option<Seq<EntryView>>,
    fuel: nat,
) -> Option<Result<Tree, ScanError>>
    decreases fuel,
{
    if fuel == 0 {
        None
    } else {
        match dir_walk_spec(w, fs(w.path)) {
            StepView::Read(next) => run(next, fs, (fuel - 1) as nat),
            StepView::Done(t) => Some(Ok(t)),
            StepView::Failed(e) => Some(Err(e)),
        }
    }
}

/// How many directories a walk reads for the tree of the directory at
/// `path`, which lies `depth` levels below the root: that directory, and
/// what its tree takes below it.
pub open spec fn reads(
    fs: spec_fn(Seq<char>) -> Option<Seq<EntryView>>,
    path: Seq<char>,
    depth: nat,
    max_depth: nat,
) -> nat
    decreases max_depth + 1 - depth, 0nat,
{
    match fs(path) {
        Some(listing) if depth < max_depth => 1 + reads_row(
            fs,
            subdirectories(listing),
            depth + 1,
            max_depth,
        ),
        _ => 1,
    }
}

/// How many directories a walk reads for the trees of `row`.
pub open spec fn reads_row(
    fs: spec_fn(Seq<char>) -> Option<Seq<EntryView>>,
    row: Seq<EntryView>,
    depth: nat,
    max_depth: nat,
) -> nat
    decreases max_depth + 1 - depth, row.len(),
{
    if row.len() == 0 || depth > max_depth {
        0
    } else {
        reads(fs, row[0].path, depth, max_depth) + reads_row(
            fs,
            row.drop_first(),
            depth,
            max_depth,
        )
    }
}

/// How many directories a walk reads for what is pending in `stack`.
pub open spec fn pending_reads(
    fs: spec_fn(Seq<char>) -> Option<Seq<EntryView>>,
    max_depth: nat,
    stack: Seq<FrameView>,
) -> nat
    decreases stack.len(),
{
    if stack.len() == 0 {
        0
    } else {
        pending_reads(fs, max_depth, stack.drop_last()) + reads_row(
            fs,
            stack.last().pending,
            stack.len(),
            max_depth,
        )
    }
}

/// How many listings the walk `w` still asks for, the awaited one
/// counted, if each is that of `fs`.
pub open spec fn remaining(
    w: WalkView,
    fs: spec_fn(Seq<char>) -> Option<Seq<EntryView>>,
) -> nat {
    reads(fs, w.path, w.stack.len(), w.max_depth) + pending_reads(fs, w.max_depth, w.stack)
}

/// Settling goes on with a walk that has all the pending reads before it,
/// or ends where none is pending.
pub proof fn lemma_settle_remaining(
    fs: spec_fn(Seq<char>) -> Option<Seq<EntryView>>,
    max_depth: nat,
    stack: Seq<FrameView>,
)
    requires
        1 <= stack.len() <= max_depth + 1,
        stack.len() == max_depth + 1 ==> stack.last().pending.len() == 0,
    ensures
        match settle(max_depth, stack) {
            StepView::Read(w) => remaining(w, fs) == pending_reads(fs, max_depth, stack),
            StepView::Done(_) => pending_reads(fs, max_depth, stack) == 0,
            StepView::Failed(_) => false,
        },
    decreases stack.len(),
{
    let top = stack.last();
    let depth = stack.len();
    assert(pending_reads(fs, max_depth, stack) == pending_reads(fs, max_depth, stack.drop_last())
        + reads_row(fs, top.pending, depth, max_depth));
    if top.pending.len() > 0 {
        // the first pending directory is awaited, the others stay pending
        let e = top.pending[0];
        let shown = FrameView { pending: top.pending.drop_first(), ..top };
        let next = stack.drop_last().push(shown);
        let w = WalkView { max_depth, stack: next, name: e.name, path: e.path };
        assert(settle(max_depth, stack) == StepView::Read(w));
        assert(next.last() == shown);
        assert(next.drop_last() =~= stack.drop_last());
        assert(reads_row(fs, top.pending, depth, max_depth) == reads(
            fs,
            e.path,
            depth,
            max_depth,
        ) + reads_row(fs, shown.pending, depth, max_depth));
        assert(pending_reads(fs, max_depth, next) == pending_reads(
            fs,
            max_depth,
            stack.drop_last(),
        ) + reads_row(fs, shown.pending, depth, max_depth));
        assert(remaining(w, fs) == reads(fs, e.path, depth, max_depth) + pending_reads(
            fs,
            max_depth,
            next,
        ));
    } else if stack.len() > 1 {
        // the frame closes into the frame below, which keeps what it has pending
        let below = stack[stack.len() - 2];
        let node = Tree {
            name: top.name,
            path: top.path,
            depth: (stack.len() - 1) as nat,
            children: top.built,
        };
        let raised = FrameView { built: below.built.push(node), ..below };
        let next = stack.drop_last().drop_last().push(raised);
        lemma_settle_remaining(fs, max_depth, next);
        assert(settle(max_depth, stack) == settle(max_depth, next));
        assert(stack.drop_last().last() == below);
        assert(next.last() == raised);
        assert(next.drop_last() =~= stack.drop_last().drop_last());
        assert(reads_row(fs, top.pending, depth, max_depth) == 0);
        assert(pending_reads(fs, max_depth, next) == pending_reads(
            fs,
            max_depth,
            stack.drop_last(),
        ));
    } else {
        assert(stack.drop_last() =~= Seq::empty());
        assert(pending_reads(fs, max_depth, stack.drop_last()) == 0);
        assert(reads_row(fs, top.pending, depth, max_depth) == 0);
    }
}

/// Each listing of `fs` that a walk is handed leaves it with one listing
/// less to ask for; the walk ends with the last.
pub proof fn lemma_dir_walk_remaining(
    w: WalkView,
    fs: spec_fn(Seq<char>) -> Option<Seq<EntryView>>,
)
    requires
        w.stack.len() <= w.max_depth,
    ensures
        match dir_walk_spec(w, fs(w.path)) {
            StepView::Read(next) => remaining(next, fs) + 1 == remaining(w, fs),
            _ => remaining(w, fs) == 1,
        },
{
    match fs(w.path) {
        None => {
            if w.stack.len() > 0 {
                lemma_settle_remaining(fs, w.max_depth, w.stack);
            }
        },
        Some(listing) => {
            let frame = opened(w, listing);
            let stack = w.stack.push(frame);
            lemma_settle_remaining(fs, w.max_depth, stack);
            assert(stack.last() == frame);
            assert(stack.drop_last() =~= w.stack);
        },
    }
}

/// A walk that is handed the listings of a file system that holds still
/// ends, after exactly as many listings as it has directories to read,
/// with what it came to from the first.
pub proof fn lemma_run_ends(
    w: WalkView,
    fs: spec_fn(Seq<char>) -> Option<Seq<EntryView>>,
    fuel: nat,
)
    requires
        w.wf(),
    ensures
        fuel >= remaining(w, fs) ==> run(w, fs, fuel) == Some(outcome(w, fs)),
        fuel < remaining(w, fs) ==> run(w, fs, fuel) is None,
    decreases fuel,
{
    lemma_dir_walk_remaining(w, fs);
    if fuel > 0 {
        lemma_dir_walk_outcome(w, fs);
        lemma_dir_walk_wf(w, fs(w.path));
        if let StepView::Read(next) = dir_walk_spec(w, fs(w.path)) {
            lemma_run_ends(next, fs, (fuel - 1) as nat);
        }
    }
}

/// The whole of a walk over a file system that holds still. It ends,
/// after `reads` listings. It ends with an error exactly where the root
/// cannot be read. Else it ends with the tree of the file system: no node
/// of it lies deeper than `max_depth`, a node at `max_depth` has no
/// children whatever its directory holds, and the children of every node
/// stand in the order of their names.
pub proof fn lemma_walk(
    fs: spec_fn(Seq<char>) -> Option<Seq<EntryView>>,
    name: Seq<char>,
    path: Seq<char>,
    max_depth: nat,
)
    ensures
        run(start_spec(name, path, max_depth), fs, reads(fs, path, 0, max_depth)) == Some(
            scan(fs, name, path, max_depth),
        ),
        scan(fs, name, path, max_depth) is Err <==> fs(path) is None,
        scan(fs, name, path, max_depth) matches Ok(t) ==> {
            &&& t.name == name
            &&& t.path == path
            &&& t.depth == 0
            &&& depth_capped(t, max_depth)
            &&& children_sorted(t)
        },
{
    let w = start_spec(name, path, max_depth);
    lemma_start_outcome(fs, name, path, max_depth);
    lemma_run_ends(w, fs, reads(fs, path, 0, max_depth));
    lemma_scan_shape(fs, name, path, max_depth);
}

/// Two walks over one root, each handed the listings of one file system
/// that holds still, end alike: both with the tree of that file system,
/// or both with the error that its root cannot be read.
pub proof fn lemma_walks_agree(
    fs: spec_fn(Seq<char>) -> Option<Seq<EntryView>>,
    name: Seq<char>,
    path: Seq<char>,
    max_depth: nat,
    fuel_a: nat,
    fuel_b: nat,
)
    requires
        run(start_spec(name, path, max_depth), fs, fuel_a) is Some,
        run(start_spec(name, path, max_depth), fs, fuel_b) is Some,
    ensures
        run(start_spec(name, path, max_depth), fs, fuel_a) == run(
            start_spec(name, path, max_depth),
            fs,
            fuel_b,
        ),
        run(start_spec(name, path, max_depth), fs, fuel_a) == Some(
            scan(fs, name, path, max_depth),
        ),
{
    let w = start_spec(name, path, max_depth);
    lemma_run_ends(w, fs, fuel_a);
    lemma_run_ends(w, fs, fuel_b);
    lemma_start_outcome(fs, name, path, max_depth);
}

} // verus!

//! The directory tree that the explorer shows, and the listing of one
//! directory from which a level of it is made.

use crate::order::{lemma_name_le_total, lemma_name_le_transitive, name_le, rank_names, Rank};
use std::cmp::Ordering;
use vstd::prelude::*;

verus! {

/// A directory of the tree, as a mathematical value.
#[verifier::ext_equal]
pub struct Tree {
    pub name: Seq<char>,
    pub path: Seq<char>,
    pub depth: nat,
    pub children: Seq<Tree>,
}

/// One directory with the directories below it. Files have no node.
#[derive(Default, Debug, PartialEq, Eq)]
pub struct Directory {
    /// The last component of `path`.
    pub name: String,
    /// The directories directly below, in the order of their names.
    pub entries: Vec<Directory>,
    /// The distance from the root of the walk, which has depth 0.
    pub depth: u32,
    /// Where the directory is found again.
    pub path: String,
}

impl View for Directory {
    type V = Tree;

    open spec fn view(&self) -> Tree
        decreases self, 0nat,
    {
        Tree {
            name: self.name@,
            path: self.path@,
            depth: self.depth as nat,
            children: first_trees(self.entries, self.entries.len() as nat),
        }
    }
}

/// The trees of the first `n` directories of a row.
pub open spec fn first_trees(row: Vec<Directory>, n: nat) -> Seq<Tree>
    decreases row, n,
{
    if n == 0 || n > row.len() {
        Seq::empty()
    } else {
        first_trees(row, (n - 1) as nat).push(row[n - 1]@)
    }
}

/// Every node of `t` has the depth of its place, counted from `depth` at
/// `t` itself, and none lies deeper than `max_depth`.
pub open spec fn within_depth(t: Tree, depth: nat, max_depth: nat) -> bool
    decreases t,
{
    &&& t.depth == depth
    &&& depth <= max_depth
    &&& forall|i: int|
        0 <= i < t.children.len() ==> within_depth(#[trigger] t.children[i], depth + 1, max_depth)
}

/// No node of `t` lies deeper than `max_depth`, and a node at that depth
/// has no children.
pub open spec fn depth_capped(t: Tree, max_depth: nat) -> bool
    decreases t,
{
    &&& t.depth <= max_depth
    &&& t.depth == max_depth ==> t.children.len() == 0
    &&& forall|i: int| 0 <= i < t.children.len() ==> depth_capped(#[trigger] t.children[i], max_depth)
}

/// A tree whose nodes have the depth of their place is capped.
pub proof fn lemma_within_depth_capped(t: Tree, depth: nat, max_depth: nat)
    requires
        within_depth(t, depth, max_depth),
    ensures
        depth_capped(t, max_depth),
    decreases t,
{
    assert forall|i: int| 0 <= i < t.children.len() implies depth_capped(
        #[trigger] t.children[i],
        max_depth,
    ) by {
        lemma_within_depth_capped(t.children[i], depth + 1, max_depth);
    }
    if t.children.len() > 0 {
        assert(within_depth(t.children[0], depth + 1, max_depth));
    }
}

/// The trees of a row stand in the order of their names.
pub open spec fn trees_sorted(row: Seq<Tree>) -> bool {
    forall|i: int, j: int| 0 <= i < j < row.len() ==> name_le(row[i].name, row[j].name)
}

/// The children of every node stand in the order of their names.
pub open spec fn children_sorted(t: Tree) -> bool
    decreases t,
{
    &&& trees_sorted(t.children)
    &&& forall|i: int| 0 <= i < t.children.len() ==> children_sorted(#[trigger] t.children[i])
}

/// The trees of a row of directories.
pub open spec fn trees(row: Seq<Directory>) -> Seq<Tree> {
    row.map_values(|d: Directory| d@)
}

proof fn lemma_first_trees(row: Vec<Directory>, n: nat)
    requires
        n <= row.len(),
    ensures
        first_trees(row, n) == trees(row@.take(n as int)),
    decreases n,
{
    if n > 0 {
        lemma_first_trees(row, (n - 1) as nat);
        assert(trees(row@.take(n as int)) =~= trees(row@.take(n - 1)).push(row@[n - 1]@));
    } else {
        assert(trees(row@.take(0)) =~= Seq::empty());
    }
}

/// What a directory is to the tree that it stands for: its own three
/// values, and the trees of its entries.
pub proof fn lemma_directory_view(d: Directory)
    ensures
        d@.name == d.name@,
        d@.path == d.path@,
        d@.depth == d.depth,
        d@.children == trees(d.entries@),
{
    lemma_first_trees(d.entries, d.entries.len() as nat);
    assert(d.entries@.take(d.entries.len() as int) =~= d.entries@);
}

impl Clone for Directory {
    /// A second tree with the same nodes.
    fn clone(&self) -> (copy: Directory)
        ensures
            copy@ == self@,
        decreases self,
    {
        let mut entries: Vec<Directory> = Vec::new();
        let mut i: usize = 0;
        while i < self.entries.len()
            invariant
                i <= self.entries.len(),
                entries.len() == i,
                forall|k: int| 0 <= k < i ==> (#[trigger] entries[k])@ == self.entries[k]@,
            decreases self.entries.len() - i,
        {
            entries.push(self.entries[i].clone());
            i = i + 1;
        }
        let copy = Directory {
            name: self.name.clone(),
            entries,
            depth: self.depth,
            path: self.path.clone(),
        };
        proof {
            lemma_directory_view(copy);
            lemma_directory_view(*self);
            assert(trees(copy.entries@) =~= trees(self.entries@));
        }
        copy
    }
}

/// One entry of a directory, as the file system names it.
#[derive(Debug, PartialEq, Eq)]
pub struct Entry {
    /// The entry's own name, the last component of `path`.
    pub name: String,
    /// Where the entry is found.
    pub path: String,
    /// Whether the entry is a directory.
    pub is_dir: bool,
}

/// An entry as a mathematical value.
pub struct EntryView {
    pub name: Seq<char>,
    pub path: Seq<char>,
    pub is_dir: bool,
}

impl View for Entry {
    type V = EntryView;

    open spec fn view(&self) -> EntryView {
        EntryView { name: self.name@, path: self.path@, is_dir: self.is_dir }
    }
}

/// The entries of a listing as mathematical values.
pub open spec fn entry_views(listing: Seq<Entry>) -> Seq<EntryView> {
    listing.map_values(|e: Entry| e@)
}

impl Clone for Entry {
    /// A second entry with the same three values.
    fn clone(&self) -> (copy: Entry)
        ensures
            copy@ == self@,
    {
        Entry { name: self.name.clone(), path: self.path.clone(), is_dir: self.is_dir }
    }
}

/// The filter of the walk: true of an entry that the tree leaves out, which
/// is every entry that is not a directory.
pub fn is_dir(entry: &Entry) -> (left_out: bool)
    ensures
        left_out == !entry@.is_dir,
{
    !entry.is_dir
}

/// The order of the walk: how the name of `a` stands to the name of `b`.
pub fn sort_by_name(a: &Entry, b: &Entry) -> (order: Ordering)
    ensures
        order is Less <==> !name_le(b@.name, a@.name),
        order is Greater <==> !name_le(a@.name, b@.name),
        order is Equal <==> a@.name == b@.name,
{
    match rank_names(a.name.as_str(), b.name.as_str()) {
        Rank::Before => Ordering::Less,
        Rank::Same => Ordering::Equal,
        Rank::After => Ordering::Greater,
    }
}

/// Whether `a` is listed strictly later than `b`.
fn listed_later(a: &Entry, b: &Entry) -> (later: bool)
    ensures
        later == !name_le(a@.name, b@.name),
{
    match sort_by_name(a, b) {
        Ordering::Greater => true,
        _ => false,
    }
}

/// The entries stand in the order of their names.
pub open spec fn sorted_by_name(row: Seq<EntryView>) -> bool {
    forall|i: int, j: int| 0 <= i < j < row.len() ==> name_le(row[i].name, row[j].name)
}

/// Where `e` goes in `row`: before the entries at the end of `row` whose
/// names are listed strictly later than that of `e`.
pub open spec fn slot(row: Seq<EntryView>, e: EntryView) -> int
    decreases row.len(),
{
    if row.len() > 0 && !name_le(row.last().name, e.name) {
        slot(row.drop_last(), e)
    } else {
        row.len() as int
    }
}

/// The directories among `listing` in the order of their names; of two
/// with one name, the one that `listing` has first comes first.
pub open spec fn subdirectories(listing: Seq<EntryView>) -> Seq<EntryView>
    decreases listing.len(),
{
    if listing.len() == 0 {
        Seq::empty()
    } else {
        let rest = subdirectories(listing.drop_last());
        let e = listing.last();
        if e.is_dir {
            rest.insert(slot(rest, e), e)
        } else {
            rest
        }
    }
}

/// The entries of `row` that are named `name`, in the order of `row`.
pub open spec fn named(row: Seq<EntryView>, name: Seq<char>) -> Seq<EntryView> {
    row.filter(|e: EntryView| e.name == name)
}

/// The directories of `listing` that are named `name`, in the order of
/// `listing`.
pub open spec fn directories_named(listing: Seq<EntryView>, name: Seq<char>) -> Seq<EntryView> {
    listing.filter(|e: EntryView| e.is_dir && e.name == name)
}

/// The slot of `e` lies in the row, every entry from it on is listed
/// strictly later than `e`, and the entry before it is not.
pub proof fn lemma_slot(row: Seq<EntryView>, e: EntryView)
    ensures
        0 <= slot(row, e) <= row.len(),
        forall|k: int| slot(row, e) <= k < row.len() ==> !name_le((#[trigger] row[k]).name, e.name),
        slot(row, e) > 0 ==> name_le(row[slot(row, e) - 1].name, e.name),
    decreases row.len(),
{
    if row.len() > 0 && !name_le(row.last().name, e.name) {
        let front = row.drop_last();
        lemma_slot(front, e);
        assert forall|k: int| slot(row, e) <= k < row.len() implies !name_le(
            (#[trigger] row[k]).name,
            e.name,
        ) by {
            if k < front.len() {
                assert(row[k] == front[k]);
            }
        }
    }
}

/// Putting an entry into its slot keeps a sorted row sorted.
pub proof fn lemma_insert_keeps_sorted(row: Seq<EntryView>, e: EntryView)
    requires
        sorted_by_name(row),
    ensures
        sorted_by_name(row.insert(slot(row, e), e)),
{
    let p = slot(row, e);
    let out = row.insert(p, e);
    lemma_slot(row, e);
    assert forall|i: int, j: int| 0 <= i < j < out.len() implies name_le(
        out[i].name,
        out[j].name,
    ) by {
        if j == p {
            // out[i] is row[i], which is at or before row[p - 1]
            if i < p - 1 {
                lemma_name_le_transitive(row[i].name, row[p - 1].name, e.name);
            }
        } else if i == p {
            // out[j] is row[j - 1], strictly later than e
            assert(!name_le(row[j - 1].name, e.name));
            lemma_name_le_total(e.name, row[j - 1].name);
        } else {
            let i0 = if i < p { i } else { i - 1 };
            let j0 = if j < p { j } else { j - 1 };
            assert(out[i] == row[i0]);
            assert(out[j] == row[j0]);
        }
    }
}

/// The directories of a listing stand in the order of their names.
pub proof fn lemma_subdirectories_sorted(listing: Seq<EntryView>)
    ensures
        sorted_by_name(subdirectories(listing)),
    decreases listing.len(),
{
    if listing.len() > 0 {
        lemma_subdirectories_sorted(listing.drop_last());
        if listing.last().is_dir {
            lemma_insert_keeps_sorted(subdirectories(listing.drop_last()), listing.last());
        }
    }
}

/// The directories of a listing are the listing's directories, each as
/// often as the listing has it, and nothing else.
pub proof fn lemma_subdirectories_content(listing: Seq<EntryView>)
    ensures
        subdirectories(listing).to_multiset() == listing.filter(
            |e: EntryView| e.is_dir,
        ).to_multiset(),
    decreases listing.len(),
{
    let dirs = |e: EntryView| e.is_dir;
    if listing.len() == 0 {
        assert(listing.filter(dirs) =~= Seq::empty());
    } else {
        let front = listing.drop_last();
        let e = listing.last();
        let rest = subdirectories(front);
        lemma_subdirectories_content(front);
        assert(listing =~= front + seq![e]);
        Seq::filter_distributes_over_add(front, seq![e], dirs);
        reveal_with_fuel(Seq::filter, 2);
        if e.is_dir {
            let p = slot(rest, e);
            lemma_slot(rest, e);
            let out = rest.insert(p, e);
            assert(out.remove(p) =~= rest);
            vstd::seq_lib::to_multiset_remove(out, p);
            assert(seq![e].filter(dirs) =~= seq![e]);
            assert(front.filter(dirs) + seq![e] =~= front.filter(dirs).push(e));
            vstd::seq_lib::to_multiset_build(front.filter(dirs), e);
            out.to_multiset_ensures();
            assert(out.to_multiset() =~= rest.to_multiset().insert(e));
        } else {
            assert(seq![e].filter(dirs) =~= Seq::empty());
            assert(front.filter(dirs) + Seq::<EntryView>::empty() =~= front.filter(dirs));
        }
    }
}

proof fn lemma_filter_none(row: Seq<EntryView>, pred: spec_fn(EntryView) -> bool)
    requires
        forall|k: int| 0 <= k < row.len() ==> !pred(#[trigger] row[k]),
    ensures
        row.filter(pred) == Seq::<EntryView>::empty(),
    decreases row.len(),
{
    reveal(Seq::filter);
    if row.len() > 0 {
        let front = row.drop_last();
        assert forall|k: int| 0 <= k < front.len() implies !pred(#[trigger] front[k]) by {
            assert(front[k] == row[k]);
        }
        lemma_filter_none(front, pred);
    }
}

/// Among the directories of a listing, those of one name stand as the
/// listing has them: sorting keeps what it need not move in its place.
pub proof fn lemma_subdirectories_stable(listing: Seq<EntryView>, name: Seq<char>)
    ensures
        named(subdirectories(listing), name) == directories_named(listing, name),
    decreases listing.len(),
{
    let named = |e: EntryView| e.name == name;
    let wanted = |e: EntryView| e.is_dir && e.name == name;
    reveal(Seq::filter);
    if listing.len() > 0 {
        let front = listing.drop_last();
        let e = listing.last();
        let rest = subdirectories(front);
        lemma_subdirectories_stable(front, name);
        if e.is_dir {
            let p = slot(rest, e);
            lemma_slot(rest, e);
            let head = rest.take(p);
            let tail = rest.skip(p);
            assert(rest =~= head + tail);
            assert(rest.insert(p, e) =~= (head + seq![e]) + tail);
            Seq::filter_distributes_over_add(head, tail, named);
            Seq::filter_distributes_over_add(head + seq![e], tail, named);
            Seq::filter_distributes_over_add(head, seq![e], named);
            assert(seq![e].drop_last() =~= Seq::<EntryView>::empty());
            if e.name == name {
                assert forall|k: int| 0 <= k < tail.len() implies !named(#[trigger] tail[k]) by {
                    assert(tail[k] == rest[p + k]);
                    crate::order::lemma_name_le_reflexive(name);
                }
                lemma_filter_none(tail, named);
                assert(seq![e].filter(named) =~= seq![e]);
                assert(rest.insert(p, e).filter(named) =~= rest.filter(named).push(e));
            } else {
                lemma_filter_none(seq![e], named);
                assert(rest.insert(p, e).filter(named) =~= rest.filter(named));
            }
        }
    }
}

/// An entry of a row is among the entries of the row that have its name.
proof fn lemma_named_has(row: Seq<EntryView>, k: int)
    requires
        0 <= k < row.len(),
    ensures
        named(row, row[k].name).contains(row[k]),
{
    row.lemma_filter_contains(|e: EntryView| e.name == row[k].name, k);
}

/// What is among the entries of a name has the name and is in the row.
proof fn lemma_named_from(row: Seq<EntryView>, name: Seq<char>, i: int)
    requires
        0 <= i < named(row, name).len(),
    ensures
        named(row, name)[i].name == name,
        row.contains(named(row, name)[i]),
{
    let pred = |e: EntryView| e.name == name;
    row.lemma_filter_pred(pred, i);
    assert(row.filter(pred).contains(row.filter(pred)[i]));
    row.lemma_filter_contains_rev(pred, row.filter(pred)[i]);
}

/// Of two entries of a row with one name, that name has two entries.
proof fn lemma_named_twice(row: Seq<EntryView>, i: int, j: int)
    requires
        0 <= i < j < row.len(),
        row[i].name == row[j].name,
    ensures
        named(row, row[i].name).len() >= 2,
    decreases row.len(),
{
    reveal(Seq::filter);
    let front = row.drop_last();
    if j == row.len() - 1 {
        lemma_named_has(front, i);
    } else {
        lemma_named_twice(front, i, j);
    }
}

/// Where no two directories of a listing have one name, the directories
/// stand in strictly ascending order: each is listed strictly later than
/// the one before it.
pub proof fn lemma_subdirectories_strict(listing: Seq<EntryView>)
    requires
        forall|name: Seq<char>| (#[trigger] directories_named(listing, name)).len() <= 1,
    ensures
        forall|i: int, j: int|
            0 <= i < j < subdirectories(listing).len() ==> !name_le(
                subdirectories(listing)[j].name,
                subdirectories(listing)[i].name,
            ),
{
    let row = subdirectories(listing);
    lemma_subdirectories_sorted(listing);
    assert forall|i: int, j: int| 0 <= i < j < row.len() implies !name_le(
        row[j].name,
        row[i].name,
    ) by {
        if name_le(row[j].name, row[i].name) {
            crate::order::lemma_name_le_antisymmetric(row[i].name, row[j].name);
            lemma_named_twice(row, i, j);
            lemma_subdirectories_stable(listing, row[i].name);
            assert(directories_named(listing, row[i].name).len() <= 1);
        }
    }
}

/// Two sorted rows that hold, for every name, the same entries of that
/// name in the same order, are one row.
pub proof fn lemma_sorted_rows_agree(a: Seq<EntryView>, b: Seq<EntryView>)
    requires
        sorted_by_name(a),
        sorted_by_name(b),
        forall|name: Seq<char>| #[trigger] named(a, name) == named(b, name),
    ensures
        a == b,
    decreases a.len(),
{
    reveal(Seq::filter);
    if a.len() == 0 {
        if b.len() > 0 {
            lemma_named_has(b, 0);
            assert(named(a, b[0].name) == named(b, b[0].name));
        }
        assert(a =~= b);
    } else {
        let x = a.last();
        let same = |e: EntryView| e.name == x.name;
        // x is the last of its name in `a`, so it is in `b`
        assert(named(a, x.name).last() == x);
        assert(named(b, x.name) == named(a, x.name));
        lemma_named_from(b, x.name, named(b, x.name).len() - 1);
        assert(b.len() > 0) by {
            assert(b.contains(x));
        }
        let y = b.last();
        // the name of y is in `a`, where no name is listed later than that of x
        lemma_named_has(b, b.len() - 1);
        assert(named(a, y.name) == named(b, y.name));
        let w = choose|w: int| 0 <= w < named(b, y.name).len() && named(b, y.name)[w] == y;
        lemma_named_from(a, y.name, w);
        let k = choose|k: int| 0 <= k < a.len() && a[k] == named(a, y.name)[w];
        assert(name_le(a[k].name, x.name)) by {
            if k < a.len() - 1 {
                assert(name_le(a[k].name, a[a.len() - 1].name));
            } else {
                crate::order::lemma_name_le_reflexive(x.name);
            }
        }
        // the name of x is in `b`, where no name is listed later than that of y
        let j = choose|j: int| 0 <= j < b.len() && b[j] == x;
        assert(name_le(x.name, y.name)) by {
            if j < b.len() - 1 {
                assert(name_le(b[j].name, b[b.len() - 1].name));
            } else {
                crate::order::lemma_name_le_reflexive(x.name);
            }
        }
        crate::order::lemma_name_le_antisymmetric(x.name, y.name);
        // so y is the last of the name of x in `b`, as x is in `a`
        assert(named(b, x.name).last() == y);
        assert(x == y);
        let a0 = a.drop_last();
        let b0 = b.drop_last();
        assert forall|name: Seq<char>| #[trigger] named(a0, name) == named(b0, name) by {
            assert(named(a, name) == named(b, name));
            if name == x.name {
                assert(named(a0, name) =~= named(a, name).drop_last());
                assert(named(b0, name) =~= named(b, name).drop_last());
            }
        }
        assert(sorted_by_name(a0)) by {
            assert forall|i: int, j: int| 0 <= i < j < a0.len() implies name_le(
                a0[i].name,
                a0[j].name,
            ) by {
                assert(a0[i] == a[i] && a0[j] == a[j]);
            }
        }
        assert(sorted_by_name(b0)) by {
            assert forall|i: int, j: int| 0 <= i < j < b0.len() implies name_le(
                b0[i].name,
                b0[j].name,
            ) by {
                assert(b0[i] == b[i] && b0[j] == b[j]);
            }
        }
        lemma_sorted_rows_agree(a0, b0);
        assert(a =~= a0.push(x));
        assert(b =~= b0.push(y));
    }
}

/// The directories of a listing are the one row that is sorted by name and
/// holds, for every name, the directories of that name as the listing has
/// them.
pub proof fn lemma_subdirectories_unique(listing: Seq<EntryView>, row: Seq<EntryView>)
    requires
        sorted_by_name(row),
        forall|name: Seq<char>| #[trigger] named(row, name) == directories_named(listing, name),
    ensures
        row == subdirectories(listing),
{
    lemma_subdirectories_sorted(listing);
    assert forall|name: Seq<char>| #[trigger]
        named(row, name) == named(subdirectories(listing), name) by {
        lemma_subdirectories_stable(listing, name);
    }
    lemma_sorted_rows_agree(row, subdirectories(listing));
}

/// Puts `e` into its slot in `row`.
fn place(row: &mut Vec<Entry>, e: Entry)
    ensures
        entry_views(final(row)@) == entry_views(old(row)@).insert(
            slot(entry_views(old(row)@), e@),
            e@,
        ),
{
    let ghost before = entry_views(row@);
    let mut j: usize = row.len();
    assert(before.take(j as int) =~= before);
    while j > 0 && listed_later(&row[j - 1], &e)
        invariant
            j <= row.len(),
            entry_views(row@) == before,
            slot(before, e@) == slot(before.take(j as int), e@),
        decreases j,
    {
        proof {
            assert(before.take(j as int).last() == row[j - 1]@);
            assert(before.take(j as int).drop_last() =~= before.take(j - 1));
        }
        j = j - 1;
    }
    proof {
        if j > 0 {
            assert(before.take(j as int).last() == row[j - 1]@);
        }
        assert(before.take(0) =~= Seq::empty());
        assert(before =~= before.take(before.len() as int));
    }
    row.insert(j, e);
    assert(entry_views(row@) =~= before.insert(j as int, e@));
}

/// Picks the directories out of a listing and puts them in the order of
/// their names.
pub fn sorted_subdirectories(listing: &Vec<Entry>) -> (row: Vec<Entry>)
    ensures
        entry_views(row@) == subdirectories(entry_views(listing@)),
{
    let mut row: Vec<Entry> = Vec::new();
    let mut i: usize = 0;
    assert(entry_views(listing@).take(0) =~= Seq::empty());
    while i < listing.len()
        invariant
            i <= listing.len(),
            entry_views(row@) == subdirectories(entry_views(listing@).take(i as int)),
        decreases listing.len() - i,
    {
        proof {
            let all = entry_views(listing@);
            assert(all.take(i + 1).drop_last() =~= all.take(i as int));
            assert(all.take(i + 1).last() == listing[i as int]@);
        }
        if !is_dir(&listing[i]) {
            place(&mut row, listing[i].clone());
        }
        i = i + 1;
    }
    assert(entry_views(listing@).take(listing.len() as int) =~= entry_views(listing@));
    row
}

} // verus!

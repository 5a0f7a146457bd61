//! How the explorer shows a tree: as a drawing in text, and as the blocks
//! in which the entries of a directory are laid out.

use crate::dir_tree::{lemma_directory_view, trees, Directory, Tree};
use vstd::prelude::*;

verus! {

/// What joins an entry to the line of its directory: an elbow before the
/// last entry, a tee before every other.
pub open spec fn connector(last: bool) -> Seq<char> {
    if last {
        seq!['\u{2514}', '\u{2500}', '\u{2500}', ' ']
    } else {
        seq!['\u{251c}', '\u{2500}', '\u{2500}', ' ']
    }
}

/// What stands before the lines below an entry: blanks below the last
/// entry, a pipe below every other.
pub open spec fn indent(last: bool) -> Seq<char> {
    if last {
        seq![' ', ' ', ' ', ' ']
    } else {
        seq!['\u{2502}', ' ', ' ', ' ']
    }
}

/// The lines of the entries of `t` from the `i`-th on, each followed by
/// the lines of what is below it. Each line starts with `prefix`.
pub open spec fn lines_from(t: Tree, i: int, prefix: Seq<char>) -> Seq<Seq<char>>
    decreases t, t.children.len() - i,
{
    if i < 0 || i >= t.children.len() {
        Seq::empty()
    } else {
        let last = i == t.children.len() - 1;
        let child = t.children[i];
        seq![prefix + connector(last) + child.name] + lines_from(child, 0, prefix + indent(last))
            + lines_from(t, i + 1, prefix)
    }
}

/// The drawing of a tree under the heading `root`: the heading, then one
/// line for each directory below the root.
pub open spec fn drawing(root: Seq<char>, t: Tree) -> Seq<Seq<char>> {
    seq![root] + lines_from(t, 0, Seq::empty())
}

/// The lines of a text as mathematical values.
pub open spec fn line_views(text: Seq<String>) -> Seq<Seq<char>> {
    text.map_values(|line: String| line@)
}

/// Appends the lines of everything below `node` to `text`.
fn visit(node: &Directory, prefix: &str, text: &mut Vec<String>)
    ensures
        line_views(final(text)@) == line_views(old(text)@) + lines_from(node@, 0, prefix@),
    decreases node,
{
    let ghost before = line_views(text@);
    let count = node.entries.len();
    let mut i: usize = 0;
    proof {
        lemma_directory_view(*node);
        assert(before + Seq::<Seq<char>>::empty() =~= before);
    }
    while i < count
        invariant
            i <= count,
            count == node.entries.len(),
            node@.children == trees(node.entries@),
            line_views(text@) + lines_from(node@, i as int, prefix@) == before + lines_from(
                node@,
                0,
                prefix@,
            ),
        decreases count - i,
    {
        let entry = &node.entries[i];
        let last = i == count - 1;
        let ghost shown = line_views(text@);
        let mut line = String::from_str(prefix);
        let mut deeper = String::from_str(prefix);
        if last {
            proof {
                reveal_strlit("\u{2514}\u{2500}\u{2500} ");
                reveal_strlit("    ");
            }
            assert("\u{2514}\u{2500}\u{2500} "@ =~= connector(true));
            assert("    "@ =~= indent(true));
            line.append("\u{2514}\u{2500}\u{2500} ");
            deeper.append("    ");
        } else {
            proof {
                reveal_strlit("\u{251c}\u{2500}\u{2500} ");
                reveal_strlit("\u{2502}   ");
            }
            assert("\u{251c}\u{2500}\u{2500} "@ =~= connector(false));
            assert("\u{2502}   "@ =~= indent(false));
            line.append("\u{251c}\u{2500}\u{2500} ");
            deeper.append("\u{2502}   ");
        }
        line.append(entry.name.as_str());
        proof {
            lemma_directory_view(*entry);
            assert(node@.children[i as int] == entry@);
        }
        text.push(line);
        assert(line_views(text@) =~= shown.push(prefix@ + connector(last) + entry@.name));
        visit(entry, deeper.as_str(), text);
        proof {
            let below = lines_from(entry@, 0, prefix@ + indent(last));
            let rest = lines_from(node@, i + 1, prefix@);
            assert(lines_from(node@, i as int, prefix@) == seq![
                prefix@ + connector(last) + entry@.name,
            ] + below + rest);
            assert(line_views(text@) + rest =~= shown + lines_from(node@, i as int, prefix@));
        }
        i = i + 1;
    }
    assert(line_views(text@) + Seq::<Seq<char>>::empty() =~= line_views(text@));
}

/// Draws the tree `dir` under the heading `root`: the lines to print, in
/// order, one for the heading and one for each directory below the root.
pub fn print_tree(root: &str, dir: &Directory) -> (text: Vec<String>)
    ensures
        line_views(text@) == drawing(root@, dir@),
{
    let mut text: Vec<String> = Vec::new();
    text.push(String::from_str(root));
    assert(line_views(text@) =~= seq![root@]);
    proof {
        reveal_strlit("");
    }
    assert(""@ =~= Seq::<char>::empty());
    visit(dir, "", &mut text);
    text
}

/// A stretch of the entries of a directory, as the explorer shows them.
#[derive(Clone, Copy, Debug, PartialEq, Eq, Structural)]
pub enum Block {
    /// The entries `from..to`, none of which has entries of its own. They
    /// are shown together, as plain labels.
    Leaves { from: usize, to: usize },
    /// The entry at `index`, which has entries of its own and is shown
    /// under a header. `count` numbers such entries from 1.
    Branch { index: usize, count: usize },
}

/// Directories down to this depth are shown with their entries unfolded.
pub const UNFOLDED_ABOVE: u32 = 2;

/// The block of a run of leaves that began at `from` and ends before `to`,
/// where there is such a run.
pub open spec fn run_block(run: Option<int>, to: int) -> Seq<Block> {
    match run {
        Some(from) => seq![Block::Leaves { from: from as usize, to: to as usize }],
        None => Seq::empty(),
    }
}

/// The blocks of the entries of `row` from the `i`-th on, where `count`
/// entries before it have entries of their own and `run` is where the run
/// of leaves began that reaches up to `i`, if one does.
pub open spec fn blocks_from(row: Seq<Tree>, i: int, count: int, run: Option<int>) -> Seq<Block>
    decreases row.len() - i,
{
    if i < 0 || i >= row.len() {
        run_block(run, row.len() as int)
    } else if row[i].children.len() == 0 {
        blocks_from(
            row,
            i + 1,
            count,
            Some(
                match run {
                    Some(from) => from,
                    None => i,
                },
            ),
        )
    } else {
        run_block(run, i) + seq![Block::Branch { index: i as usize, count: (count + 1) as usize }]
            + blocks_from(row, i + 1, count + 1, None)
    }
}

/// The blocks of a row of entries: each longest run of leaves is one
/// block, each entry with entries of its own is one.
pub open spec fn explorer_blocks(row: Seq<Tree>) -> Seq<Block> {
    blocks_from(row, 0, 0, None)
}

/// The places in the row that a block shows, in order.
pub open spec fn places(b: Block) -> Seq<int> {
    match b {
        Block::Leaves { from, to } => Seq::new((to - from) as nat, |k: int| from + k),
        Block::Branch { index, count } => seq![index as int],
    }
}

/// The places that a row of blocks shows, in order.
pub open spec fn all_places(blocks: Seq<Block>) -> Seq<int>
    decreases blocks.len(),
{
    if blocks.len() == 0 {
        Seq::empty()
    } else {
        places(blocks[0]) + all_places(blocks.drop_first())
    }
}

/// How many of the first `i` entries of `row` have entries of their own.
pub open spec fn branches(row: Seq<Tree>, i: int) -> int
    decreases i,
{
    if i <= 0 || i > row.len() {
        0
    } else {
        branches(row, i - 1) + if row[i - 1].children.len() > 0 {
            1int
        } else {
            0int
        }
    }
}

/// A block of leaves holds a run of leaves that no leaf comes before or
/// after; a block of one entry holds an entry with entries of its own,
/// numbered among such entries.
pub open spec fn block_fits(row: Seq<Tree>, b: Block) -> bool {
    match b {
        Block::Leaves { from, to } => {
            &&& from < to <= row.len()
            &&& forall|k: int| from <= k < to ==> (#[trigger] row[k]).children.len() == 0
            &&& from > 0 ==> row[from - 1].children.len() > 0
            &&& to < row.len() ==> row[to as int].children.len() > 0
        },
        Block::Branch { index, count } => {
            &&& index < row.len()
            &&& row[index as int].children.len() > 0
            &&& count == branches(row, index + 1)
        },
    }
}

proof fn lemma_branches_bound(row: Seq<Tree>, i: int)
    requires
        0 <= i <= row.len(),
    ensures
        0 <= branches(row, i) <= i,
    decreases i,
{
    if i > 0 {
        lemma_branches_bound(row, i - 1);
    }
}

proof fn lemma_all_places_add(a: Seq<Block>, b: Seq<Block>)
    ensures
        all_places(a + b) == all_places(a) + all_places(b),
    decreases a.len(),
{
    if a.len() == 0 {
        assert(a + b =~= b);
        assert(all_places(a) + all_places(b) =~= all_places(b));
    } else {
        assert((a + b).drop_first() =~= a.drop_first() + b);
        lemma_all_places_add(a.drop_first(), b);
        assert(all_places(a + b) =~= all_places(a) + all_places(b));
    }
}

proof fn lemma_one_block(b: Block)
    ensures
        all_places(seq![b]) == places(b),
{
    let one = seq![b];
    assert(one[0] == b);
    assert(one.drop_first() =~= Seq::<Block>::empty());
    assert(all_places(one.drop_first()) =~= Seq::<int>::empty());
    assert(places(b) + Seq::<int>::empty() =~= places(b));
    assert(all_places(one) == places(one[0]) + all_places(one.drop_first()));
}

/// The first place that the blocks from `i` on show: where the run began
/// that reaches up to `i`, or `i`.
spec fn first_place(i: int, run: Option<int>) -> int {
    match run {
        Some(from) => from,
        None => i,
    }
}

proof fn lemma_blocks_places(row: Seq<Tree>, i: int, count: int, run: Option<int>)
    requires
        0 <= i <= row.len() <= usize::MAX,
        0 <= count <= i,
        run matches Some(from) ==> 0 <= from < i,
    ensures
        all_places(blocks_from(row, i, count, run)) == Seq::new(
            (row.len() - first_place(i, run)) as nat,
            |k: int| first_place(i, run) + k,
        ),
    decreases row.len() - i,
{
    let start = first_place(i, run);
    let want = Seq::new((row.len() - start) as nat, |k: int| start + k);
    if i >= row.len() {
        match run {
            Some(from) => {
                lemma_one_block(Block::Leaves { from: from as usize, to: row.len() as usize });
                assert(places(Block::Leaves { from: from as usize, to: row.len() as usize })
                    =~= want);
            },
            None => {
                assert(want =~= Seq::empty());
            },
        }
    } else if row[i].children.len() == 0 {
        lemma_blocks_places(row, i + 1, count, Some(start));
    } else {
        let head = run_block(run, i);
        let branch = Block::Branch { index: i as usize, count: (count + 1) as usize };
        let rest = blocks_from(row, i + 1, count + 1, None);
        lemma_blocks_places(row, i + 1, count + 1, None);
        lemma_all_places_add(head + seq![branch], rest);
        lemma_all_places_add(head, seq![branch]);
        lemma_one_block(branch);
        let before = Seq::new((i - start) as nat, |k: int| start + k);
        match run {
            Some(from) => {
                lemma_one_block(Block::Leaves { from: from as usize, to: i as usize });
                assert(places(Block::Leaves { from: from as usize, to: i as usize }) =~= before);
            },
            None => {
                assert(before =~= Seq::empty());
            },
        }
        assert(all_places(head) == before);
        assert(before + seq![i] + all_places(rest) =~= want);
    }
}

proof fn lemma_blocks_fit(row: Seq<Tree>, i: int, count: int, run: Option<int>)
    requires
        0 <= i <= row.len() <= usize::MAX,
        count == branches(row, i),
        match run {
            Some(from) => {
                &&& 0 <= from < i
                &&& forall|k: int| from <= k < i ==> (#[trigger] row[k]).children.len() == 0
                &&& from > 0 ==> row[from - 1].children.len() > 0
            },
            None => i > 0 ==> row[i - 1].children.len() > 0,
        },
    ensures
        forall|k: int|
            0 <= k < blocks_from(row, i, count, run).len() ==> block_fits(
                row,
                #[trigger] blocks_from(row, i, count, run)[k],
            ),
    decreases row.len() - i,
{
    let all = blocks_from(row, i, count, run);
    lemma_branches_bound(row, i);
    if i >= row.len() {
        assert(all == run_block(run, row.len() as int));
        assert forall|k: int| 0 <= k < all.len() implies block_fits(row, #[trigger] all[k]) by {
            assert(run is Some);
            assert(all[k] == Block::Leaves { from: (run->0) as usize, to: row.len() as usize });
        }
    } else if row[i].children.len() == 0 {
        assert(branches(row, i + 1) == count);
        let start = first_place(i, run);
        assert forall|k: int| start <= k < i + 1 implies (#[trigger] row[k]).children.len()
            == 0 by {}
        lemma_blocks_fit(row, i + 1, count, Some(start));
        assert(all == blocks_from(row, i + 1, count, Some(start)));
    } else {
        let head = run_block(run, i);
        let branch = Block::Branch { index: i as usize, count: (count + 1) as usize };
        let rest = blocks_from(row, i + 1, count + 1, None);
        assert(branches(row, i + 1) == count + 1);
        lemma_blocks_fit(row, i + 1, count + 1, None);
        assert(block_fits(row, branch));
        assert(all == head + seq![branch] + rest);
        assert forall|k: int| 0 <= k < all.len() implies block_fits(row, #[trigger] all[k]) by {
            if k < head.len() {
                assert(all[k] == head[k]);
                assert(head[k] == Block::Leaves { from: (run->0) as usize, to: i as usize });
            } else if k == head.len() {
                assert(all[k] == branch);
            } else {
                assert(all[k] == rest[k - head.len() - 1]);
            }
        }
    }
}

/// Laid end to end, the blocks of a row show every entry of the row once,
/// in the order of the row. A block of leaves is a run of leaves with no
/// leaf before or after it; a block of one entry is an entry with entries
/// of its own, numbered from 1 among such entries.
pub proof fn lemma_explorer_blocks(row: Seq<Tree>)
    requires
        row.len() <= usize::MAX,
    ensures
        all_places(explorer_blocks(row)) == Seq::new(row.len(), |k: int| k),
        forall|k: int|
            0 <= k < explorer_blocks(row).len() ==> block_fits(
                row,
                #[trigger] explorer_blocks(row)[k],
            ),
{
    lemma_blocks_places(row, 0, 0, None);
    lemma_blocks_fit(row, 0, 0, None);
    assert(Seq::new((row.len() - 0) as nat, |k: int| 0 + k) =~= Seq::new(row.len(), |k: int| k));
}

/// Lays out the entries of `pnode` for the explorer: runs of leaves
/// together, every other entry alone.
pub fn explorer_tree(pnode: &Directory) -> (blocks: Vec<Block>)
    ensures
        blocks@ == explorer_blocks(pnode@.children),
{
    let ghost row = pnode@.children;
    let n = pnode.entries.len();
    let mut blocks: Vec<Block> = Vec::new();
    let mut i: usize = 0;
    let mut count: usize = 0;
    let mut run: Option<usize> = None;
    proof {
        lemma_directory_view(*pnode);
        assert(blocks@ + explorer_blocks(row) =~= explorer_blocks(row));
    }
    while i < n
        invariant
            i <= n,
            n == pnode.entries.len(),
            row == trees(pnode.entries@),
            count <= i,
            run matches Some(from) ==> from < i,
            blocks@ + blocks_from(
                row,
                i as int,
                count as int,
                match run {
                    Some(from) => Some(from as int),
                    None => None,
                },
            ) == explorer_blocks(row),
        decreases n - i,
    {
        let ghost open = match run {
            Some(from) => Some(from as int),
            None => None,
        };
        let ghost done = blocks@;
        proof {
            lemma_directory_view(pnode.entries[i as int]);
        }
        if pnode.entries[i].entries.len() == 0 {
            if run.is_none() {
                run = Some(i);
            }
        } else {
            if let Some(from) = run {
                blocks.push(Block::Leaves { from, to: i });
                run = None;
            }
            count = count + 1;
            blocks.push(Block::Branch { index: i, count });
            assert(blocks@ =~= done + run_block(open, i as int) + seq![
                Block::Branch { index: i, count },
            ]);
            assert(blocks@ + blocks_from(row, i + 1, count as int, None) =~= done + blocks_from(
                row,
                i as int,
                count - 1,
                open,
            ));
        }
        i = i + 1;
    }
    let ghost done = blocks@;
    if let Some(from) = run {
        blocks.push(Block::Leaves { from, to: n });
    }
    assert(blocks@ =~= done + run_block(
        match run {
            Some(from) => Some(from as int),
            None => None,
        },
        n as int,
    ));
    blocks
}

} // verus!

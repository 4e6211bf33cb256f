//! Populating a tree node from one directory's listing.
//!
//! The filesystem walk itself (enumerating a directory, reading an
//! entry's metadata, consulting an ignore matcher) happens outside this
//! library; it hands each directory level over as a list of `FsEntry`
//! values. `attach_entries` then applies the keep-or-skip rules, appends
//! the kept entries to the tree in enumeration order with the
//! last-sibling flag set on the final kept entry, and reports which new
//! nodes are directories so the caller can descend into them.

use crate::tree::NodeModel;
use crate::tree::Tree;
use crate::tree::TreeItem;
use crate::tree::tree_wf;
use vstd::prelude::*;

verus! {

/// One directory entry as the walk reports it: the entry's base name,
/// whether it is a directory, and whether the ignore matcher (when one
/// was consulted) excluded it. When no matcher was consulted the walk
/// reports `excluded` as false.
pub struct FsEntry {
    pub name: String,
    pub is_dir: bool,
    pub excluded: bool,
}

/// Mathematical model of one directory entry.
pub struct EntryModel {
    pub name: Seq<char>,
    pub is_dir: bool,
    pub excluded: bool,
}

impl View for FsEntry {
    type V = EntryModel;

    open spec fn view(&self) -> EntryModel {
        EntryModel { name: self.name@, is_dir: self.is_dir, excluded: self.excluded }
    }
}

impl DeepView for FsEntry {
    type V = EntryModel;

    open spec fn deep_view(&self) -> EntryModel {
        self@
    }
}

/// Whether an entry is kept in the tree. With ignore-awareness off every
/// entry is kept. With it on, an entry named exactly as the
/// version-control metadata directory is skipped before any other check,
/// and an entry the matcher excluded is skipped as well.
pub open spec fn spec_kept(e: EntryModel, git: bool) -> bool {
    !git || (e.name != ".git"@ && !e.excluded)
}

/// The entries of one directory level that survive the keep-or-skip
/// rules, in enumeration order.
pub open spec fn kept_entries(entries: Seq<EntryModel>, git: bool) -> Seq<EntryModel> {
    entries.filter(|e: EntryModel| spec_kept(e, git))
}

/// The arena indices, in order, of the kept entries that are
/// directories, when the kept entries are appended starting at `base`.
pub open spec fn dir_indices(kept: Seq<EntryModel>, base: int) -> Seq<int>
    decreases kept.len(),
{
    if kept.len() == 0 {
        Seq::empty()
    } else {
        let rest = dir_indices(kept.drop_last(), base);
        if kept.last().is_dir {
            rest.push(base + kept.len() - 1)
        } else {
            rest
        }
    }
}

/// A sequence of machine indices read as mathematical integers.
pub open spec fn as_ints(s: Seq<usize>) -> Seq<int> {
    s.map_values(|x: usize| x as int)
}

/// The tree that results from attaching one directory level: the kept
/// entries become fresh nodes appended at the end of the arena, each
/// childless, pointing back to `parent`, flagged as last sibling exactly
/// on the final kept entry; `parent` gains their indices, in order, as
/// its children.
pub open spec fn spec_attach(
    t: Seq<NodeModel>,
    parent: int,
    entries: Seq<EntryModel>,
    git: bool,
) -> Seq<NodeModel> {
    let kept = kept_entries(entries, git);
    let base = t.len() as int;
    let updated = NodeModel {
        children: t[parent].children + Seq::new(kept.len(), |j: int| base + j),
        ..t[parent]
    };
    t.update(parent, updated) + Seq::new(
        kept.len(),
        |j: int|
            NodeModel {
                text: kept[j].name,
                is_dir: kept[j].is_dir,
                is_last: j == kept.len() - 1,
                children: Seq::empty(),
                parent: Some(parent),
            },
    )
}

/// Executable form of `spec_kept`.
fn is_kept(e: &FsEntry, git: bool) -> (r: bool)
    ensures
        r == spec_kept(e@, git),
{
    if !git {
        true
    } else {
        let vcs = String::from_str(".git");
        if e.name == vcs {
            false
        } else {
            !e.excluded
        }
    }
}

/// Extending a directory listing by one entry extends its kept entries
/// by that entry exactly when the entry is kept.
proof fn lemma_kept_take_step(entries: Seq<EntryModel>, git: bool, i: int)
    requires
        0 <= i < entries.len(),
    ensures
        kept_entries(entries.take(i + 1), git) == if spec_kept(entries[i], git) {
            kept_entries(entries.take(i), git).push(entries[i])
        } else {
            kept_entries(entries.take(i), git)
        },
{
    reveal(Seq::filter);
    assert(entries.take(i + 1).drop_last() =~= entries.take(i));
    assert(entries.take(i + 1).last() == entries[i]);
}

/// Extending the kept entries by one extends the directory-index list by
/// that entry's index exactly when the entry is a directory.
proof fn lemma_dir_indices_step(kept: Seq<EntryModel>, base: int, e: EntryModel)
    ensures
        dir_indices(kept.push(e), base) == if e.is_dir {
            dir_indices(kept, base).push(base + kept.len())
        } else {
            dir_indices(kept, base)
        },
{
    assert(kept.push(e).drop_last() =~= kept);
    assert(kept.push(e).last() == e);
}

/// The node appended for the `j`-th kept entry of one directory level:
/// it carries that entry's name and directory flag, is childless, points
/// back to `parent`, and is flagged as last sibling exactly when `j` is
/// `last_j` (the index of the final kept entry).
pub open spec fn attached_node_ok(
    t: Seq<NodeModel>,
    base: int,
    kept: Seq<EntryModel>,
    parent: int,
    last_j: int,
    j: int,
) -> bool {
    &&& t[base + j].text == kept[j].name
    &&& t[base + j].is_dir == kept[j].is_dir
    &&& (t[base + j].is_last <==> j == last_j)
    &&& t[base + j].children.len() == 0
    &&& t[base + j].parent == Some(parent)
}

/// Attaches one directory level to the tree. `entries` is the raw
/// listing of the directory that node `parent` stands for, in
/// enumeration order; `git` selects ignore-aware traversal. Every kept
/// entry becomes a fresh child of `parent`, in order, with the
/// last-sibling flag on the final kept entry — computed among the
/// entries actually kept, not the raw listing. Returns the arena
/// indices of the kept entries that are directories, in order, for the
/// caller to descend into.
pub fn attach_entries(tree: &mut Tree, parent: usize, entries: &Vec<FsEntry>, git: bool) -> (kept_dirs: Vec<usize>)
    requires
        old(tree).wf(),
        parent < old(tree)@.len(),
        old(tree)@[parent as int].is_dir,
        old(tree)@[parent as int].children.len() == 0,
    ensures
        final(tree).wf(),
        final(tree)@ == spec_attach(old(tree)@, parent as int, entries.deep_view(), git),
        final(tree)@.len() == old(tree)@.len() + kept_entries(entries.deep_view(), git).len(),
        final(tree)@[parent as int].children.len() == kept_entries(
            entries.deep_view(),
            git,
        ).len(),
        forall|j: int|
            0 <= j < kept_entries(entries.deep_view(), git).len()
                ==> #[trigger] final(tree)@[parent as int].children[j] == old(tree)@.len() + j,
        forall|j: int|
            0 <= j < kept_entries(entries.deep_view(), git).len() ==> #[trigger] attached_node_ok(
                final(tree)@,
                old(tree)@.len() as int,
                kept_entries(entries.deep_view(), git),
                parent as int,
                kept_entries(entries.deep_view(), git).len() - 1,
                j,
            ),
        forall|j: int|
            0 <= j < old(tree)@.len() && j != parent ==> final(tree)@[j] == old(tree)@[j],
        as_ints(kept_dirs@) == dir_indices(
            kept_entries(entries.deep_view(), git),
            old(tree)@.len() as int,
        ),
        forall|x: int|
            0 <= x < kept_dirs@.len() ==> old(tree)@.len() <= #[trigger] kept_dirs@[x]
                < final(tree)@.len() && final(tree)@[kept_dirs@[x] as int].is_dir,
{
    let ghost em = entries.deep_view();
    let ghost t0 = old(tree)@;
    let n = entries.len();
    let mut kept_count: usize = 0;
    let mut i: usize = 0;
    while i < n
        invariant
            n == entries@.len(),
            em == entries.deep_view(),
            i <= n,
            kept_count <= i,
            kept_count as int == kept_entries(em.take(i as int), git).len(),
        decreases n - i,
    {
        proof {
            lemma_kept_take_step(em, git, i as int);
            assert(em[i as int] == entries@[i as int]@);
        }
        if is_kept(&entries[i], git) {
            kept_count = kept_count + 1;
        }
        i = i + 1;
    }
    proof {
        assert(em.take(n as int) =~= em);
    }
    let base = tree.nodes.len();
    let mut kept_dirs: Vec<usize> = Vec::new();
    let mut m: usize = 0;
    let mut k: usize = 0;
    while k < n
        invariant
            n == entries@.len(),
            em == entries.deep_view(),
            k <= n,
            m <= k,
            tree.wf(),
            tree_wf(t0),
            parent < t0.len(),
            t0[parent as int].is_dir,
            t0[parent as int].children.len() == 0,
            base == t0.len(),
            kept_count as int == kept_entries(em, git).len(),
            m as int == kept_entries(em.take(k as int), git).len(),
            tree@.len() == t0.len() + m,
            tree@[parent as int].text == t0[parent as int].text,
            tree@[parent as int].is_dir == t0[parent as int].is_dir,
            tree@[parent as int].is_last == t0[parent as int].is_last,
            tree@[parent as int].parent == t0[parent as int].parent,
            tree@[parent as int].children.len() == m as int,
            forall|j: int|
                0 <= j < m ==> #[trigger] tree@[parent as int].children[j] == base + j,
            forall|j: int| 0 <= j < t0.len() && j != parent ==> tree@[j] == t0[j],
            forall|j: int|
                0 <= j < m ==> #[trigger] attached_node_ok(
                    tree@,
                    base as int,
                    kept_entries(em.take(k as int), git),
                    parent as int,
                    kept_count - 1,
                    j,
                ),
            as_ints(kept_dirs@) == dir_indices(kept_entries(em.take(k as int), git), base as int),
            forall|x: int|
                0 <= x < kept_dirs@.len() ==> base <= #[trigger] kept_dirs@[x] < tree@.len()
                    && tree@[kept_dirs@[x] as int].is_dir,
        decreases n - k,
    {
        proof {
            lemma_kept_take_step(em, git, k as int);
            assert(em[k as int] == entries@[k as int]@);
        }
        let ghost kept_before = kept_entries(em.take(k as int), git);
        if is_kept(&entries[k], git) {
            let name = entries[k].name.clone();
            let entry_is_dir = entries[k].is_dir;
            let last_flag = m + 1 == kept_count;
            let ghost pre = tree@;
            let idx = TreeItem::new(tree, parent, name, entry_is_dir, last_flag);
            if entry_is_dir {
                kept_dirs.push(idx);
            }
            proof {
                lemma_dir_indices_step(kept_before, base as int, em[k as int]);
                let kept_after = kept_entries(em.take(k as int + 1), git);
                assert(kept_after == kept_before.push(em[k as int]));
                assert(kept_after[m as int] == em[k as int]);
                if entry_is_dir {
                    assert(as_ints(kept_dirs@) =~= dir_indices(kept_before, base as int).push(
                        base + m,
                    ));
                }
                assert forall|j: int| 0 <= j < m + 1 implies #[trigger] attached_node_ok(
                    tree@,
                    base as int,
                    kept_after,
                    parent as int,
                    kept_count - 1,
                    j,
                ) by {
                    if j < m {
                        assert(attached_node_ok(
                            pre,
                            base as int,
                            kept_before,
                            parent as int,
                            kept_count - 1,
                            j,
                        ));
                        assert(base + j != parent && base + j < pre.len());
                        assert(tree@[base + j] == pre[base + j]);
                        assert(kept_after[j] == kept_before[j]);
                    } else {
                        assert(tree@[base + j] == tree@[idx as int]);
                    }
                }
            }
            m = m + 1;
        } else {
            proof {
                assert(kept_entries(em.take(k as int + 1), git) == kept_before);
            }
        }
        k = k + 1;
    }
    proof {
        assert(em.take(n as int) =~= em);
        let kept = kept_entries(em, git);
        let result = spec_attach(t0, parent as int, em, git);
        assert(result.len() == t0.len() + kept.len());
        assert forall|j: int| 0 <= j < tree@.len() implies tree@[j] =~= result[j] by {
            if j == parent {
                assert(result[j].children =~= tree@[j].children);
            } else if j < t0.len() {
                assert(result[j] == t0[j]);
            } else {
                assert(result[j].text == kept[j - base].name);
                assert(attached_node_ok(
                    tree@,
                    base as int,
                    kept,
                    parent as int,
                    kept_count - 1,
                    j - base,
                ));
                assert(result[j].children =~= tree@[j].children);
            }
        }
        assert(tree@ =~~= result);
    }
    kept_dirs
}

/// Law: attaching a directory level with k kept entries gives the parent
/// exactly k more children, and among the appended nodes exactly one —
/// the one for the final kept entry, in enumeration order — carries the
/// last-sibling flag.
pub proof fn lemma_kept_children_one_last(
    t: Seq<NodeModel>,
    parent: int,
    entries: Seq<EntryModel>,
    git: bool,
)
    requires
        0 <= parent < t.len(),
    ensures
        spec_attach(t, parent, entries, git)[parent].children.len() == t[parent].children.len()
            + kept_entries(entries, git).len(),
        forall|j: int|
            0 <= j < kept_entries(entries, git).len() ==> (#[trigger] spec_attach(
                t,
                parent,
                entries,
                git,
            )[t.len() + j].is_last <==> j == kept_entries(entries, git).len() - 1),
{
    let result = spec_attach(t, parent, entries, git);
    let kept = kept_entries(entries, git);
    assert(result[parent].children.len() == t[parent].children.len() + kept.len());
    assert forall|j: int| 0 <= j < kept.len() implies (#[trigger] result[t.len() + j].is_last
        <==> j == kept.len() - 1) by {
        assert(result[t.len() + j] == Seq::new(
            kept.len(),
            |j: int|
                NodeModel {
                    text: kept[j].name,
                    is_dir: kept[j].is_dir,
                    is_last: j == kept.len() - 1,
                    children: Seq::empty(),
                    parent: Some(parent),
                },
        )[j]);
    }
}

/// Law: with ignore-awareness enabled, no kept entry is named as the
/// version-control metadata directory — whatever the ignore matcher said
/// of it — and no kept entry was excluded by the matcher. Nodes are only
/// ever created for kept entries, so such entries are absent from the
/// tree and from its rendering.
pub proof fn lemma_skipped_entries_never_kept(entries: Seq<EntryModel>, git: bool)
    requires
        git,
    ensures
        forall|j: int|
            0 <= j < kept_entries(entries, git).len() ==> (#[trigger] kept_entries(entries, git)[j]).name
                != ".git"@ && !kept_entries(entries, git)[j].excluded,
{
    broadcast use vstd::seq_lib::group_filter_ensures;

    assert forall|j: int| 0 <= j < kept_entries(entries, git).len() implies (#[trigger] kept_entries(
        entries,
        git,
    )[j]).name != ".git"@ && !kept_entries(entries, git)[j].excluded by {
        assert(spec_kept(kept_entries(entries, git)[j], git));
    }
}

/// Law: a trailing entry that the keep-or-skip rules drop changes
/// nothing — attaching a listing with such an entry appended builds the
/// same tree as attaching the listing without it. Removing an ignored
/// trailing entry therefore shifts the last-sibling flag to the new
/// final kept entry.
pub proof fn lemma_trailing_skipped_entry_no_effect(
    t: Seq<NodeModel>,
    parent: int,
    entries: Seq<EntryModel>,
    e: EntryModel,
    git: bool,
)
    requires
        !spec_kept(e, git),
    ensures
        spec_attach(t, parent, entries.push(e), git) == spec_attach(t, parent, entries, git),
{
    reveal(Seq::filter);
    assert(entries.push(e).drop_last() =~= entries);
    assert(entries.push(e).last() == e);
    assert(kept_entries(entries.push(e), git) == kept_entries(entries, git));
}

/// Law: building is deterministic. From equal starting trees and equal
/// directory listings, attaching yields equal trees and rendering yields
/// equal text — so building the same static directory twice, without
/// concurrent modification, produces identical output both times.
pub proof fn lemma_build_deterministic(
    t1: Seq<NodeModel>,
    t2: Seq<NodeModel>,
    parent: int,
    e1: Seq<EntryModel>,
    e2: Seq<EntryModel>,
    git: bool,
)
    requires
        t1 == t2,
        e1 == e2,
    ensures
        spec_attach(t1, parent, e1, git) == spec_attach(t2, parent, e2, git),
        crate::tree::spec_render(spec_attach(t1, parent, e1, git), 0, false)
            == crate::tree::spec_render(spec_attach(t2, parent, e2, git), 0, false),
{
}

} // verus!

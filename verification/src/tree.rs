//! The in-memory tree of filesystem entries and its text rendering.
//!
//! Nodes live in an arena (`Tree`): owning parent-to-child edges are the
//! index lists in `children`, and each node's `parent` field is a plain
//! back-index used only for the upward walk that computes a row's leading
//! glyphs at render time. A node is always appended after its parent, so
//! every child index is strictly greater than its parent's index.

use vstd::prelude::*;
use vstd::string::*;

verus! {

/// Relies on `String::push` from std: it appends exactly the given
/// character to the end of the string; vstd gives it no specification.
pub assume_specification[ String::push ](s: &mut String, ch: char)
    ensures
        final(s)@ == old(s)@.push(ch),
;

/// Mathematical model of one node: the display text as a character
/// sequence, the two flags, and the arena indices of its children and
/// parent as unbounded integers.
#[verifier::ext_equal]
pub struct NodeModel {
    pub text: Seq<char>,
    pub is_dir: bool,
    pub is_last: bool,
    pub children: Seq<int>,
    pub parent: Option<int>,
}

/// One filesystem entry in the rendered tree. `children` and `parent`
/// hold arena indices into the owning `Tree`.
pub struct TreeItem {
    pub text: String,
    pub is_dir: bool,
    pub is_last: bool,
    pub children: Vec<usize>,
    pub parent: Option<usize>,
}

impl View for TreeItem {
    type V = NodeModel;

    open spec fn view(&self) -> NodeModel {
        NodeModel {
            text: self.text@,
            is_dir: self.is_dir,
            is_last: self.is_last,
            children: self.children@.map_values(|c: usize| c as int),
            parent: match self.parent {
                Some(p) => Some(p as int),
                None => None,
            },
        }
    }
}

/// The arena that owns every node. Index 0 is the root.
pub struct Tree {
    pub nodes: Vec<TreeItem>,
}

impl View for Tree {
    type V = Seq<NodeModel>;

    open spec fn view(&self) -> Seq<NodeModel> {
        self.nodes@.map_values(|n: TreeItem| n@)
    }
}

/// The branch glyph drawn directly before a node's own name: an
/// elbow when the node is the last of its siblings, a tee otherwise,
/// each preceded by one space.
pub open spec fn branch_glyph(is_last: bool) -> Seq<char> {
    if is_last {
        seq![' ', '\u{2514}', '\u{2500}', '\u{2500}']
    } else {
        seq![' ', '\u{251c}', '\u{2500}', '\u{2500}']
    }
}

/// The continuation glyph drawn for an ancestor level: blank when that
/// ancestor was the last of its siblings (nothing follows below it), a
/// vertical bar otherwise, each preceded by one space and padded to the
/// same width as a branch glyph.
pub open spec fn continuation_glyph(is_last: bool) -> Seq<char> {
    if is_last {
        seq![' ', ' ', ' ', ' ']
    } else {
        seq![' ', '\u{2502}', ' ', ' ']
    }
}

/// The glyph strings collected by the upward walk from node `i`, in the
/// order they are found: the node's own branch glyph first, then one
/// continuation glyph per ancestor, stopping before the root (the root
/// never receives a glyph).
pub open spec fn symbol_list(t: Seq<NodeModel>, i: int, from_child: bool) -> Seq<Seq<char>>
    decreases i,
{
    let own = if from_child {
        continuation_glyph(t[i].is_last)
    } else {
        branch_glyph(t[i].is_last)
    };
    match t[i].parent {
        None => seq![own],
        Some(p) => if 0 <= p < i && (t[p].parent is Some) {
            seq![own] + symbol_list(t, p, true)
        } else {
            seq![own]
        },
    }
}

/// Concatenates a sequence of glyph strings in reverse order, so that a
/// bottom-up collection reads leftmost-ancestor first.
pub open spec fn flatten_rev(s: Seq<Seq<char>>) -> Seq<char>
    decreases s.len(),
{
    if s.len() == 0 {
        Seq::empty()
    } else {
        flatten_rev(s.drop_first()) + s.first()
    }
}

/// The continuation glyphs owed to node `p` and all its ancestors below
/// the root, leftmost (closest to the root) first. The root itself
/// contributes nothing.
pub open spec fn continuation_part(t: Seq<NodeModel>, p: int) -> Seq<char>
    decreases p,
{
    match t[p].parent {
        None => Seq::empty(),
        Some(pp) => (if 0 <= pp < p {
            continuation_part(t, pp)
        } else {
            Seq::empty()
        }) + continuation_glyph(t[p].is_last),
    }
}

/// The full left margin of node `i`'s row: the continuation glyphs of
/// its strict ancestors (root excluded), then its own branch glyph.
pub open spec fn spec_prefix(t: Seq<NodeModel>, i: int) -> Seq<char> {
    match t[i].parent {
        None => branch_glyph(t[i].is_last),
        Some(p) => (if 0 <= p < i {
            continuation_part(t, p)
        } else {
            Seq::empty()
        }) + branch_glyph(t[i].is_last),
    }
}

/// One character of a display name: backslash path separators are
/// rewritten to forward slashes, every other character is kept.
pub open spec fn normalize_char(c: char) -> char {
    if c == '\\' {
        '/'
    } else {
        c
    }
}

/// A node's name with every backslash rewritten to a forward slash.
pub open spec fn normalized_name(text: Seq<char>) -> Seq<char> {
    text.map_values(|c: char| normalize_char(c))
}

/// The display text of one node: the normalized name, with a trailing
/// slash appended for a directory unless the name already ends in one.
pub open spec fn display_text(n: NodeModel) -> Seq<char> {
    let name = normalized_name(n.text);
    if n.is_dir && !(name.len() > 0 && name[name.len() - 1] == '/') {
        name.push('/')
    } else {
        name
    }
}

/// One rendered row: the node's display text, preceded by its computed
/// left margin and a single space when `prefix_self` is set.
pub open spec fn spec_row(t: Seq<NodeModel>, i: int, prefix_self: bool) -> Seq<char> {
    if prefix_self {
        spec_prefix(t, i) + seq![' '] + display_text(t[i])
    } else {
        display_text(t[i])
    }
}

/// The whole rendered block for node `i`'s subtree: its own row, then
/// each child's block on following lines, in child insertion order.
pub open spec fn spec_render(t: Seq<NodeModel>, i: int, prefix_self: bool) -> Seq<char>
    decreases t.len() - i, 1int, 0int,
{
    spec_row(t, i, prefix_self) + if 0 <= i < t.len() {
        spec_child_rows(t, i, 0)
    } else {
        Seq::empty()
    }
}

/// The rows contributed by the children of node `i` from position `k`
/// on: a newline before each child's whole rendered block.
pub open spec fn spec_child_rows(t: Seq<NodeModel>, i: int, k: int) -> Seq<char>
    decreases t.len() - i, 0int, t[i].children.len() - k,
{
    if 0 <= i < t.len() && 0 <= k < t[i].children.len() {
        let c = t[i].children[k];
        (if i < c < t.len() {
            seq!['\n'] + spec_render(t, c, true)
        } else {
            seq!['\n']
        }) + spec_child_rows(t, i, k + 1)
    } else {
        Seq::empty()
    }
}

/// Executable form of `branch_glyph`.
fn branch_glyph_str(is_last: bool) -> (r: &'static str)
    ensures
        r@ == branch_glyph(is_last),
{
    proof {
        reveal_strlit(" \u{2514}\u{2500}\u{2500}");
        reveal_strlit(" \u{251c}\u{2500}\u{2500}");
    }
    if is_last {
        let r = " \u{2514}\u{2500}\u{2500}";
        proof {
            assert(r@ =~= branch_glyph(true));
        }
        r
    } else {
        let r = " \u{251c}\u{2500}\u{2500}";
        proof {
            assert(r@ =~= branch_glyph(false));
        }
        r
    }
}

/// Executable form of `continuation_glyph`.
fn continuation_glyph_str(is_last: bool) -> (r: &'static str)
    ensures
        r@ == continuation_glyph(is_last),
{
    proof {
        reveal_strlit("    ");
        reveal_strlit(" \u{2502}  ");
    }
    if is_last {
        let r = "    ";
        proof {
            assert(r@ =~= continuation_glyph(true));
        }
        r
    } else {
        let r = " \u{2502}  ";
        proof {
            assert(r@ =~= continuation_glyph(false));
        }
        r
    }
}

/// Local well-formedness of the node at index `i`: children lie strictly
/// after it in the arena and point back to it, its parent lies strictly
/// before it, and a non-directory has no children.
pub open spec fn node_wf(t: Seq<NodeModel>, i: int) -> bool {
    &&& forall|j: int|
        0 <= j < t[i].children.len() ==> i < #[trigger] t[i].children[j] < t.len()
    &&& forall|j: int|
        0 <= j < t[i].children.len() ==> t[#[trigger] t[i].children[j]].parent == Some(i)
    &&& (t[i].parent matches Some(p) ==> 0 <= p < i)
    &&& (!t[i].is_dir ==> t[i].children.len() == 0)
}

/// Well-formedness of the whole arena: non-empty, the node at index 0 is
/// a root (no parent, treated as last sibling), and every node is locally
/// well formed.
pub open spec fn tree_wf(t: Seq<NodeModel>) -> bool {
    &&& 1 <= t.len()
    &&& t[0].parent is None
    &&& t[0].is_last
    &&& forall|i: int| 0 <= i < t.len() ==> node_wf(t, i)
}

impl Tree {
    pub open spec fn wf(&self) -> bool {
        tree_wf(self@)
    }

    /// Number of nodes in the arena.
    pub fn len(&self) -> (n: usize)
        ensures
            n == self@.len(),
    {
        self.nodes.len()
    }
}

/// Walks upward from node `i` and appends the glyph strings it meets to
/// `symbols`, bottom-up: node `i`'s own glyph first (a branch glyph, or
/// a continuation glyph when the walk arrived from a child), then one
/// continuation glyph per ancestor below the root. The caller reverses
/// and joins the collected strings to obtain the row's left margin.
pub fn fill_symbols(symbols: &mut Vec<String>, tree: &Tree, i: usize, sent_from_child: bool)
    requires
        tree.wf(),
        i < tree@.len(),
    ensures
        final(symbols).deep_view() == old(symbols).deep_view() + symbol_list(
            tree@,
            i as int,
            sent_from_child,
        ),
    decreases i,
{
    proof {
        assert(tree@[i as int] == tree.nodes@[i as int]@);
        assert(node_wf(tree@, i as int));
    }
    let glyph: &'static str = if sent_from_child {
        continuation_glyph_str(tree.nodes[i].is_last)
    } else {
        branch_glyph_str(tree.nodes[i].is_last)
    };
    let ghost own = glyph@;
    symbols.push(String::from_str(glyph));
    proof {
        assert(symbols.deep_view() =~= old(symbols).deep_view() + seq![own]);
    }
    match tree.nodes[i].parent {
        Some(p) => {
            proof {
                assert(tree@[i as int].parent == Some(p as int));
                assert(tree@[p as int] == tree.nodes@[p as int]@);
            }
            if tree.nodes[p].parent.is_some() {
                let ghost mid = symbols.deep_view();
                fill_symbols(symbols, tree, p, true);
                proof {
                    assert(symbols.deep_view() =~= old(symbols).deep_view() + (seq![own]
                        + symbol_list(tree@, p as int, true)));
                    assert(symbol_list(tree@, i as int, sent_from_child) == seq![own]
                        + symbol_list(tree@, p as int, true));
                }
            } else {
                proof {
                    assert(symbol_list(tree@, i as int, sent_from_child) =~= seq![own]);
                }
            }
        },
        None => {
            proof {
                assert(symbol_list(tree@, i as int, sent_from_child) =~= seq![own]);
            }
        },
    }
}

/// The glyph strings collected for a non-root node by a walk that
/// arrived from one of its children concatenate, in reverse, to exactly
/// the continuation glyphs owed to that node and its ancestors.
proof fn lemma_flatten_symbols_cont(t: Seq<NodeModel>, p: int)
    requires
        tree_wf(t),
        0 <= p < t.len(),
        t[p].parent is Some,
    ensures
        flatten_rev(symbol_list(t, p, true)) == continuation_part(t, p),
    decreases p,
{
    assert(node_wf(t, p));
    let pp = t[p].parent->0;
    let own = continuation_glyph(t[p].is_last);
    if t[pp].parent is Some {
        lemma_flatten_symbols_cont(t, pp);
        let rest = symbol_list(t, pp, true);
        assert((seq![own] + rest).drop_first() =~= rest);
        assert((seq![own] + rest).first() == own);
        assert(flatten_rev(symbol_list(t, p, true)) == continuation_part(t, pp) + own);
    } else {
        let sl = symbol_list(t, p, true);
        assert(sl =~= seq![own]);
        assert(sl.drop_first() =~= Seq::<Seq<char>>::empty());
        assert(flatten_rev(sl) == flatten_rev(sl.drop_first()) + own);
        assert(flatten_rev(sl) =~= own);
        assert(continuation_part(t, pp) == Seq::<char>::empty());
        assert(continuation_part(t, p) =~= own);
    }
}

/// The glyph strings collected by `fill_symbols`, reversed and joined,
/// are exactly the row's left margin.
proof fn lemma_flatten_symbols_prefix(t: Seq<NodeModel>, i: int)
    requires
        tree_wf(t),
        0 <= i < t.len(),
    ensures
        flatten_rev(symbol_list(t, i, false)) == spec_prefix(t, i),
{
    assert(node_wf(t, i));
    let own = branch_glyph(t[i].is_last);
    match t[i].parent {
        None => {
            let sl = symbol_list(t, i, false);
            assert(sl =~= seq![own]);
            assert(sl.drop_first() =~= Seq::<Seq<char>>::empty());
            assert(sl.first() == own);
            assert(flatten_rev(sl) == flatten_rev(sl.drop_first()) + sl.first());
            assert(flatten_rev(sl.drop_first()) == Seq::<char>::empty());
            assert(Seq::<char>::empty() + own =~= own);
        },
        Some(p) => {
            if t[p].parent is Some {
                lemma_flatten_symbols_cont(t, p);
                let rest = symbol_list(t, p, true);
                assert((seq![own] + rest).drop_first() =~= rest);
                assert((seq![own] + rest).first() == own);
                assert(flatten_rev(symbol_list(t, i, false)) == continuation_part(t, p) + own);
            } else {
                let sl = symbol_list(t, i, false);
                assert(sl =~= seq![own]);
                assert(sl.drop_first() =~= Seq::<Seq<char>>::empty());
                assert(sl.first() == own);
                assert(flatten_rev(sl) == flatten_rev(sl.drop_first()) + sl.first());
                assert(flatten_rev(sl.drop_first()) == Seq::<char>::empty());
                assert(Seq::<char>::empty() + own =~= own);
                assert(continuation_part(t, p) == Seq::<char>::empty());
                assert(spec_prefix(t, i) =~= own);
            }
        },
    }
}

/// Law: rendering a childless node yields exactly one row — its own,
/// with no newline after it.
pub proof fn lemma_childless_render_single_row(t: Seq<NodeModel>, i: int, prefix_self: bool)
    requires
        0 <= i < t.len(),
        t[i].children.len() == 0,
    ensures
        spec_render(t, i, prefix_self) == spec_row(t, i, prefix_self),
{
    assert(spec_child_rows(t, i, 0) == Seq::<char>::empty());
    assert(spec_row(t, i, prefix_self) + Seq::<char>::empty() =~= spec_row(t, i, prefix_self));
}

impl TreeItem {
    /// Builds the root of a fresh tree: a single node with the given
    /// display text and directory flag, no parent, no children, and the
    /// last-sibling flag set (the root has no siblings).
    pub fn new_top_level(text: String, is_dir: bool) -> (t: Tree)
        ensures
            t.wf(),
            t@.len() == 1,
            t@[0].text == text@,
            t@[0].is_dir == is_dir,
            t@[0].is_last,
            t@[0].children.len() == 0,
            t@[0].parent is None,
    {
        let node = TreeItem {
            text,
            is_dir,
            is_last: true,
            children: Vec::new(),
            parent: None,
        };
        let t = Tree { nodes: vec![node] };
        proof {
            assert(t@.len() == 1);
            assert(t@[0].children.len() == 0);
        }
        t
    }

    /// Attaches a new child under `parent`: the node is created with the
    /// given text, directory flag, and last-sibling flag, its back-index
    /// set to `parent`, and its arena index appended to the parent's
    /// child list. The caller must supply `is_last` correctly: it is
    /// fixed at attach time and is not recomputed later.
    pub fn new(tree: &mut Tree, parent: usize, text: String, is_dir: bool, is_last: bool) -> (idx:
        usize)
        requires
            old(tree).wf(),
            parent < old(tree)@.len(),
            old(tree)@[parent as int].is_dir,
        ensures
            final(tree).wf(),
            idx == old(tree)@.len(),
            final(tree)@.len() == old(tree)@.len() + 1,
            final(tree)@[idx as int].text == text@,
            final(tree)@[idx as int].is_dir == is_dir,
            final(tree)@[idx as int].is_last == is_last,
            final(tree)@[idx as int].children.len() == 0,
            final(tree)@[idx as int].parent == Some(parent as int),
            final(tree)@[parent as int].children == old(tree)@[parent as int].children.push(
                idx as int,
            ),
            final(tree)@[parent as int].text == old(tree)@[parent as int].text,
            final(tree)@[parent as int].is_dir == old(tree)@[parent as int].is_dir,
            final(tree)@[parent as int].is_last == old(tree)@[parent as int].is_last,
            final(tree)@[parent as int].parent == old(tree)@[parent as int].parent,
            forall|j: int|
                0 <= j < old(tree)@.len() && j != parent ==> final(tree)@[j] == old(tree)@[j],
    {
        let idx = tree.nodes.len();
        let node = TreeItem {
            text,
            is_dir,
            is_last,
            children: Vec::new(),
            parent: Some(parent),
        };
        tree.nodes.push(node);
        tree.nodes[parent].children.push(idx);
        proof {
            let t = tree@;
            let ot = old(tree)@;
            assert(t[parent as int].children =~= ot[parent as int].children.push(idx as int));
            assert forall|j: int| 0 <= j < ot.len() && j != parent implies t[j] == ot[j] by {
                assert(tree.nodes@[j] == old(tree).nodes@[j]);
            }
            assert forall|i: int| 0 <= i < t.len() implies node_wf(t, i) by {
                if i == parent {
                    assert(node_wf(ot, i));
                    assert(t[i].parent == ot[i].parent);
                    assert(t[i].is_dir == ot[i].is_dir);
                    let cs = t[i].children;
                    assert forall|j: int| 0 <= j < cs.len() implies i < #[trigger] cs[j] < t.len()
                        && t[cs[j]].parent == Some(i) by {
                        if j < cs.len() - 1 {
                            assert(cs[j] == ot[i].children[j]);
                            assert(node_wf(ot, i));
                        } else {
                            assert(cs[j] == idx as int);
                        }
                    }
                } else if i == idx {
                    assert(t[i].children.len() == 0);
                } else {
                    assert(node_wf(ot, i));
                    assert(t[i] == ot[i]);
                    assert forall|j: int|
                        0 <= j < t[i].children.len() implies i < #[trigger] t[i].children[j]
                        < t.len() && t[t[i].children[j]].parent == Some(i) by {
                        assert(ot[i].children[j] == t[i].children[j]);
                        if t[i].children[j] != parent && t[i].children[j] < ot.len() {
                            assert(t[t[i].children[j]] == ot[t[i].children[j]]);
                        }
                    }
                }
            }
        }
        idx
    }

    /// The display form of this node's name: backslashes become forward
    /// slashes, and a directory gains a trailing slash unless its name
    /// already ends in one.
    pub fn display_string(&self) -> (r: String)
        ensures
            r@ == display_text(self@),
    {
        let n = self.text.as_str().unicode_len();
        let mut name = String::new();
        let mut j: usize = 0;
        while j < n
            invariant
                n == self.text@.len(),
                j <= n,
                name@ == normalized_name(self.text@.subrange(0, j as int)),
            decreases n - j,
        {
            let c = self.text.as_str().get_char(j);
            let d = if c == '\\' {
                '/'
            } else {
                c
            };
            name.push(d);
            proof {
                assert(normalized_name(self.text@.subrange(0, j + 1 as int)) =~= normalized_name(
                    self.text@.subrange(0, j as int),
                ).push(normalize_char(self.text@[j as int])));
            }
            j = j + 1;
        }
        proof {
            assert(self.text@.subrange(0, n as int) =~= self.text@);
            assert(name@.len() == n);
        }
        let needs_slash = if self.is_dir {
            if n == 0 {
                true
            } else {
                let last = name.as_str().get_char(n - 1);
                last != '/'
            }
        } else {
            false
        };
        if needs_slash {
            name.push('/');
        }
        name
    }

    /// Renders node `i`'s whole subtree as one newline-joined text block:
    /// its own row first (with a computed left margin when `prefix_self`
    /// is set, bare otherwise), then every child's block in insertion
    /// order.
    pub fn to_row_str(tree: &Tree, i: usize, prefix_self: bool) -> (r: String)
        requires
            tree.wf(),
            i < tree@.len(),
        ensures
            r@ == spec_render(tree@, i as int, prefix_self),
        decreases tree@.len() - i,
    {
        proof {
            assert(tree@[i as int] == tree.nodes@[i as int]@);
            assert(node_wf(tree@, i as int));
            reveal_strlit(" ");
            reveal_strlit("\n");
        }
        let mut row = String::new();
        if prefix_self {
            let mut symbols: Vec<String> = Vec::new();
            fill_symbols(&mut symbols, tree, i, false);
            proof {
                assert(symbols.deep_view() =~= symbol_list(tree@, i as int, false));
            }
            let mut j: usize = symbols.len();
            proof {
                assert(symbols.deep_view().skip(j as int) =~= Seq::<Seq<char>>::empty());
                assert(row@ =~= flatten_rev(symbols.deep_view().skip(j as int)));
            }
            while j > 0
                invariant
                    j <= symbols.deep_view().len(),
                    symbols.deep_view() == symbol_list(tree@, i as int, false),
                    row@ == flatten_rev(symbols.deep_view().skip(j as int)),
                decreases j,
            {
                j = j - 1;
                row.append(symbols[j].as_str());
                proof {
                    let sv = symbols.deep_view();
                    assert(symbols@[j as int]@ == sv[j as int]);
                    assert(sv.skip(j as int).drop_first() =~= sv.skip(j as int + 1));
                    assert(sv.skip(j as int).first() == sv[j as int]);
                    assert(row@ =~= flatten_rev(sv.skip(j as int)));
                }
            }
            proof {
                let sv = symbols.deep_view();
                assert(sv.skip(0) =~= sv);
                lemma_flatten_symbols_prefix(tree@, i as int);
                assert(row@ == spec_prefix(tree@, i as int));
            }
            row.append(" ");
            proof {
                assert(" "@ =~= seq![' ']);
                assert(row@ =~= spec_prefix(tree@, i as int) + seq![' ']);
            }
        }
        let dn = tree.nodes[i].display_string();
        row.append(dn.as_str());
        proof {
            assert(row@ =~= spec_row(tree@, i as int, prefix_self));
            assert(row@ + spec_child_rows(tree@, i as int, 0) =~= spec_render(
                tree@,
                i as int,
                prefix_self,
            ));
        }
        let n_children = tree.nodes[i].children.len();
        proof {
            assert(tree@[i as int].children.len() == n_children as int);
        }
        let mut k: usize = 0;
        while k < n_children
            invariant
                tree.wf(),
                i < tree@.len(),
                tree@[i as int] == tree.nodes@[i as int]@,
                n_children == tree@[i as int].children.len(),
                k <= n_children,
                row@ + spec_child_rows(tree@, i as int, k as int) == spec_render(
                    tree@,
                    i as int,
                    prefix_self,
                ),
            decreases n_children - k,
        {
            let c = tree.nodes[i].children[k];
            proof {
                assert(tree@[i as int].children[k as int] == c as int);
                assert(node_wf(tree@, i as int));
                assert(i < c < tree@.len());
                reveal_strlit("\n");
            }
            let block = Self::to_row_str(tree, c, true);
            row.append("\n");
            row.append(block.as_str());
            proof {
                assert("\n"@ =~= seq!['\n']);
                assert(spec_child_rows(tree@, i as int, k as int) == (seq!['\n'] + spec_render(
                    tree@,
                    c as int,
                    true,
                )) + spec_child_rows(tree@, i as int, k as int + 1));
                assert(row@ + spec_child_rows(tree@, i as int, k as int + 1) =~= spec_render(
                    tree@,
                    i as int,
                    prefix_self,
                ));
            }
            k = k + 1;
        }
        proof {
            assert(spec_child_rows(tree@, i as int, n_children as int) == Seq::<char>::empty());
            assert(row@ + Seq::<char>::empty() =~= row@);
        }
        row
    }
}

} // verus!

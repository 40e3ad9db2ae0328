use vstd::prelude::*;

verus! {

/// One node of the sidebar's file tree: a directory or a markdown file,
/// with its display name, its path, its depth, whether it is expanded, and
/// its children in display order.
#[derive(Debug)]
pub struct TreeNode {
    pub name: String,
    pub path: String,
    pub is_dir: bool,
    pub depth: usize,
    pub expanded: bool,
    pub children: Vec<TreeNode>,
}

/// The mathematical value of a `TreeNode`.
#[verifier::ext_equal]
pub struct TreeView {
    pub name: Seq<char>,
    pub path: Seq<char>,
    pub is_dir: bool,
    pub depth: nat,
    pub expanded: bool,
    pub children: Seq<TreeView>,
}

pub open spec fn tree_view(n: TreeNode) -> TreeView
    decreases n,
{
    TreeView {
        name: n.name@,
        path: n.path@,
        is_dir: n.is_dir,
        depth: n.depth as nat,
        expanded: n.expanded,
        children: tree_views(n.children@),
    }
}

pub open spec fn tree_views(cs: Seq<TreeNode>) -> Seq<TreeView>
    decreases cs,
{
    if cs.len() == 0 {
        Seq::empty()
    } else {
        seq![tree_view(cs[0])] + tree_views(cs.drop_first())
    }
}

pub proof fn lemma_tree_views_len(cs: Seq<TreeNode>)
    ensures
        tree_views(cs).len() == cs.len(),
    decreases cs.len(),
{
    if cs.len() > 0 {
        lemma_tree_views_len(cs.drop_first());
    }
}

pub proof fn lemma_tree_views_index(cs: Seq<TreeNode>, i: int)
    requires
        0 <= i < cs.len(),
    ensures
        tree_views(cs).len() == cs.len(),
        tree_views(cs)[i] == tree_view(cs[i]),
    decreases cs.len(),
{
    lemma_tree_views_len(cs);
    if i > 0 {
        lemma_tree_views_index(cs.drop_first(), i - 1);
        assert(cs.drop_first()[i - 1] == cs[i]);
        lemma_tree_views_len(cs.drop_first());
        assert(tree_views(cs)[i] == tree_views(cs.drop_first())[i - 1]);
    }
}

impl View for TreeNode {
    type V = TreeView;

    open spec fn view(&self) -> TreeView {
        tree_view(*self)
    }
}

/// The visible rows of a subtree, in display order: the node itself, then,
/// if it is expanded, the visible rows of each child.
pub open spec fn visible_of(t: TreeView) -> Seq<TreeView>
    decreases t,
{
    seq![t] + if t.expanded {
        visible_of_list(t.children)
    } else {
        Seq::empty()
    }
}

pub open spec fn visible_of_list(cs: Seq<TreeView>) -> Seq<TreeView>
    decreases cs,
{
    if cs.len() == 0 {
        Seq::empty()
    } else {
        visible_of(cs[0]) + visible_of_list(cs.drop_first())
    }
}

pub proof fn lemma_visible_list_push(cs: Seq<TreeView>, c: TreeView)
    ensures
        visible_of_list(cs.push(c)) == visible_of_list(cs) + visible_of(c),
    decreases cs.len(),
{
    if cs.len() == 0 {
        assert(cs.push(c)[0] == c);
        assert(cs.push(c).drop_first() =~= Seq::<TreeView>::empty());
        assert(visible_of_list(Seq::<TreeView>::empty()) =~= Seq::<TreeView>::empty());
        assert(visible_of_list(cs.push(c)) == visible_of(c) + visible_of_list(
            cs.push(c).drop_first(),
        ));
        assert(visible_of_list(cs.push(c)) =~= visible_of_list(cs) + visible_of(c));
    } else {
        assert(cs.push(c)[0] == cs[0]);
        assert(cs.push(c).drop_first() =~= cs.drop_first().push(c));
        lemma_visible_list_push(cs.drop_first(), c);
        assert(visible_of_list(cs.push(c)) =~= visible_of_list(cs) + visible_of(c));
    }
}

/// The view of a vector of borrowed nodes.
pub open spec fn refs_view(s: Seq<&TreeNode>) -> Seq<TreeView> {
    s.map_values(|p: &TreeNode| p@)
}

impl TreeNode {
    /// A fresh node; the root (depth 0) starts expanded.
    pub fn new(name: String, path: String, is_dir: bool, depth: usize) -> (r: Self)
        ensures
            r@ == (TreeView {
                name: name@,
                path: path@,
                is_dir: is_dir,
                depth: depth as nat,
                expanded: depth == 0,
                children: Seq::empty(),
            }),
    {
        let r = Self {
            name,
            path,
            is_dir,
            depth,
            expanded: depth == 0,
            children: Vec::new(),
        };
        proof {
            assert(r@.children =~= Seq::<TreeView>::empty());
            assert(r@ =~= (TreeView {
                name: r.name@,
                path: r.path@,
                is_dir: is_dir,
                depth: depth as nat,
                expanded: depth == 0,
                children: Seq::empty(),
            }));
        }
        r
    }

    /// Flip the expansion of a directory; files stay as they are.
    pub fn toggle_expanded(&mut self)
        ensures
            final(self)@ == (TreeView {
                expanded: if old(self)@.is_dir {
                    !old(self)@.expanded
                } else {
                    old(self)@.expanded
                },
                ..old(self)@
            }),
    {
        if self.is_dir {
            self.expanded = !self.expanded;
        }
        proof {
            assert(self@.children =~= old(self)@.children);
            assert(self@ =~= (TreeView {
                expanded: if old(self)@.is_dir {
                    !old(self)@.expanded
                } else {
                    old(self)@.expanded
                },
                ..old(self)@
            }));
        }
    }

    fn collect_visible<'a>(&'a self, items: &mut Vec<&'a TreeNode>)
        ensures
            refs_view(final(items)@) == refs_view(old(items)@) + visible_of(self@),
        decreases *self,
    {
        items.push(self);
        proof {
            assert(refs_view(items@) =~= refs_view(old(items)@).push(self@));
        }
        if self.expanded {
            let ghost cs = self@.children;
            let mut i: usize = 0;
            proof {
                lemma_tree_views_len(self.children@);
                assert(cs.take(0) =~= Seq::<TreeView>::empty());
                assert(refs_view(items@) =~= refs_view(old(items)@) + seq![self@]
                    + visible_of_list(cs.take(0)));
            }
            while i < self.children.len()
                invariant
                    i <= self.children@.len(),
                    cs == self@.children,
                    cs.len() == self.children@.len(),
                    refs_view(items@) == refs_view(old(items)@) + seq![self@]
                        + visible_of_list(cs.take(i as int)),
                decreases self.children@.len() - i,
            {
                let ghost before = items@;
                self.children[i].collect_visible(items);
                proof {
                    lemma_tree_views_index(self.children@, i as int);
                    assert(self.children@[i as int]@ == cs[i as int]);
                    assert(cs.take(i + 1) =~= cs.take(i as int).push(cs[i as int]));
                    lemma_visible_list_push(cs.take(i as int), cs[i as int]);
                    assert(refs_view(items@) =~= refs_view(old(items)@) + seq![self@]
                        + visible_of_list(cs.take(i + 1)));
                }
                i = i + 1;
            }
            proof {
                assert(cs.take(cs.len() as int) =~= cs);
                assert(refs_view(items@) =~= refs_view(old(items)@) + visible_of(self@));
            }
        } else {
            proof {
                assert(refs_view(items@) =~= refs_view(old(items)@) + visible_of(self@));
            }
        }
    }

    /// All visible rows of the tree, in display order.
    pub fn visible_items(&self) -> (r: Vec<&TreeNode>)
        ensures
            refs_view(r@) == visible_of(self@),
    {
        let mut items: Vec<&TreeNode> = Vec::new();
        proof {
            assert(refs_view(items@) =~= Seq::<TreeView>::empty());
        }
        self.collect_visible(&mut items);
        proof {
            assert(Seq::<TreeView>::empty() + visible_of(self@) =~= visible_of(self@));
        }
        items
    }
}

/// What to do to the node found at a visible index.
#[derive(Debug, Clone, Copy)]
pub enum NodeOp {
    Toggle,
    Expand,
}

/// The node after an operation: `Toggle` flips a directory's expansion,
/// `Expand` only opens a closed directory.
pub open spec fn apply_op(t: TreeView, op: NodeOp) -> TreeView {
    match op {
        NodeOp::Toggle => TreeView {
            expanded: if t.is_dir {
                !t.expanded
            } else {
                t.expanded
            },
            ..t
        },
        NodeOp::Expand => TreeView {
            expanded: if t.is_dir && !t.expanded {
                true
            } else {
                t.expanded
            },
            ..t
        },
    }
}

/// The subtree after applying `op` to the node at visible index `idx`
/// (0 is the subtree's root).
pub open spec fn op_at(t: TreeView, idx: int, op: NodeOp) -> TreeView
    decreases t,
{
    if idx == 0 {
        apply_op(t, op)
    } else if t.expanded {
        TreeView { children: op_at_list(t.children, idx - 1, op), ..t }
    } else {
        t
    }
}

pub open spec fn op_at_list(cs: Seq<TreeView>, idx: int, op: NodeOp) -> Seq<TreeView>
    decreases cs,
{
    if cs.len() == 0 {
        cs
    } else if idx < visible_of(cs[0]).len() {
        seq![op_at(cs[0], idx, op)] + cs.drop_first()
    } else {
        seq![cs[0]] + op_at_list(cs.drop_first(), idx - visible_of(cs[0]).len(), op)
    }
}

/// Splitting the visible rows of a child list at one child.
pub proof fn lemma_visible_list_cat(a: Seq<TreeView>, b: Seq<TreeView>)
    ensures
        visible_of_list(a + b) == visible_of_list(a) + visible_of_list(b),
    decreases a.len(),
{
    if a.len() == 0 {
        assert(a + b =~= b);
        assert(visible_of_list(a) =~= Seq::<TreeView>::empty());
        assert(visible_of_list(a + b) =~= visible_of_list(a) + visible_of_list(b));
    } else {
        assert((a + b)[0] == a[0]);
        assert((a + b).drop_first() =~= a.drop_first() + b);
        lemma_visible_list_cat(a.drop_first(), b);
        assert(visible_of_list(a + b) =~= visible_of_list(a) + visible_of_list(b));
    }
}

pub proof fn lemma_visible_list_split(cs: Seq<TreeView>, i: int)
    requires
        0 <= i < cs.len(),
    ensures
        visible_of_list(cs).len() == visible_of_list(cs.take(i)).len()
            + visible_of(cs[i]).len() + visible_of_list(cs.skip(i + 1)).len(),
{
    assert(cs =~= cs.take(i) + (seq![cs[i]] + cs.skip(i + 1)));
    lemma_visible_list_cat(cs.take(i), seq![cs[i]] + cs.skip(i + 1));
    lemma_visible_list_cat(seq![cs[i]], cs.skip(i + 1));
    assert(seq![cs[i]].drop_first() =~= Seq::<TreeView>::empty());
    assert(visible_of_list(Seq::<TreeView>::empty()) =~= Seq::<TreeView>::empty());
    assert(visible_of_list(seq![cs[i]]) =~= visible_of(cs[i]));
}

/// `op_at_list` hits exactly child `i` when the index falls into that
/// child's visible range.
proof fn lemma_op_at_list_at(cs: Seq<TreeView>, idx: int, op: NodeOp, i: int)
    requires
        0 <= i < cs.len(),
        visible_of_list(cs.take(i)).len() <= idx,
        idx < visible_of_list(cs.take(i)).len() + visible_of(cs[i]).len(),
    ensures
        op_at_list(cs, idx, op) == cs.update(
            i,
            op_at(cs[i], idx - visible_of_list(cs.take(i)).len(), op),
        ),
    decreases i,
{
    if i == 0 {
        assert(cs.take(0) =~= Seq::<TreeView>::empty());
        assert(visible_of_list(Seq::<TreeView>::empty()) =~= Seq::<TreeView>::empty());
        assert(idx < visible_of(cs[0]).len());
        assert(seq![op_at(cs[0], idx, op)] + cs.drop_first() =~= cs.update(
            0,
            op_at(cs[0], idx, op),
        ));
    } else {
        let pre = cs.take(i);
        assert(pre[0] == cs[0]);
        assert(pre.drop_first() =~= cs.drop_first().take(i - 1));
        assert(visible_of_list(pre) == visible_of(cs[0]) + visible_of_list(
            cs.drop_first().take(i - 1),
        ));
        assert(idx >= visible_of(cs[0]).len());
        assert(cs.drop_first()[i - 1] == cs[i]);
        lemma_op_at_list_at(cs.drop_first(), idx - visible_of(cs[0]).len(), op, i - 1);
        assert(seq![cs[0]] + cs.drop_first().update(
            i - 1,
            op_at(cs[i], idx - visible_of_list(cs.take(i)).len(), op),
        ) =~= cs.update(i, op_at(cs[i], idx - visible_of_list(cs.take(i)).len(), op)));
    }
}

pub proof fn lemma_tree_views_update(cs: Seq<TreeNode>, i: int, x: TreeNode)
    requires
        0 <= i < cs.len(),
    ensures
        tree_views(cs.update(i, x)) == tree_views(cs).update(i, tree_view(x)),
    decreases cs.len(),
{
    lemma_tree_views_len(cs);
    lemma_tree_views_len(cs.update(i, x));
    if i == 0 {
        assert(cs.update(0, x)[0] == x);
        assert(cs.update(0, x).drop_first() =~= cs.drop_first());
        assert(tree_views(cs.update(0, x)) =~= tree_views(cs).update(0, tree_view(x)));
    } else {
        assert(cs.update(i, x)[0] == cs[0]);
        assert(cs.update(i, x).drop_first() =~= cs.drop_first().update(i - 1, x));
        lemma_tree_views_update(cs.drop_first(), i - 1, x);
        assert(cs.drop_first()[i - 1] == cs[i]);
        assert(tree_views(cs.update(i, x)) =~= tree_views(cs).update(i, tree_view(x)));
    }
}

impl TreeNode {
    /// Walk the visible rows of this subtree, whose first row has index
    /// `current_idx`, and apply `op` to the row `target_idx` if it lies in
    /// this subtree. Returns whether it did, and the index just past the
    /// subtree when it did not.
    fn apply_at_rec(&mut self, current_idx: usize, target_idx: usize, op: NodeOp) -> (res: (
        bool,
        usize,
    ))
        requires
            current_idx <= target_idx,
        ensures
            res.0 <==> target_idx < current_idx + visible_of(old(self)@).len(),
            res.0 ==> final(self)@ == op_at(old(self)@, target_idx - current_idx, op),
            !res.0 ==> final(self)@ == old(self)@ && res.1 as int == current_idx
                + visible_of(old(self)@).len() && res.1 <= target_idx,
        decreases visible_of(self@).len(),
    {
        proof {
            assert(visible_of(self@).len() >= 1);
        }
        if current_idx == target_idx {
            match op {
                NodeOp::Toggle => self.toggle_expanded(),
                NodeOp::Expand => {
                    if !self.expanded {
                        self.toggle_expanded();
                    }
                }
            }
            proof {
                assert(self@ =~= apply_op(old(self)@, op));
            }
            return (true, current_idx);
        }
        if !self.expanded {
            proof {
                assert(visible_of(self@) =~= seq![self@]);
            }
            return (false, current_idx + 1);
        }
        let ghost cs = self@.children;
        let mut cnt: usize = current_idx + 1;
        let mut i: usize = 0;
        proof {
            lemma_tree_views_len(self.children@);
            assert(cs.take(0) =~= Seq::<TreeView>::empty());
            assert(visible_of_list(Seq::<TreeView>::empty()) =~= Seq::<TreeView>::empty());
        }
        while i < self.children.len()
            invariant
                i <= self.children@.len(),
                self@ == old(self)@,
                self.expanded,
                cs == self@.children,
                cs.len() == self.children@.len(),
                current_idx < target_idx,
                cnt <= target_idx,
                cnt as int == current_idx + 1 + visible_of_list(cs.take(i as int)).len(),
            decreases self.children@.len() - i,
        {
            let ghost prev = self.children@;
            proof {
                lemma_tree_views_index(prev, i as int);
                assert(tree_views(prev) == cs);
                assert(prev[i as int]@ == cs[i as int]);
                lemma_visible_list_split(cs, i as int);
                assert(visible_of(cs[i as int]).len() < visible_of(self@).len());
            }
            let (found, c2) = self.children[i].apply_at_rec(cnt, target_idx, op);
            proof {
                assert(self.children@ == prev.update(i as int, self.children@[i as int]));
                lemma_tree_views_update(prev, i as int, self.children@[i as int]);
            }
            if found {
                proof {
                    let idx = target_idx - current_idx;
                    assert(self.children@[i as int]@ == op_at(cs[i as int], target_idx - cnt, op));
                    assert(self@.children =~= cs.update(
                        i as int,
                        op_at(cs[i as int], target_idx - cnt, op),
                    ));
                    lemma_op_at_list_at(cs, idx - 1, op, i as int);
                    assert(self@.children =~= op_at_list(cs, idx - 1, op));
                    assert(self@ =~= op_at(old(self)@, idx, op));
                    lemma_visible_list_split(cs, i as int);
                    assert(target_idx < current_idx + visible_of(old(self)@).len());
                }
                return (true, c2);
            }
            proof {
                assert(self.children@[i as int]@ == cs[i as int]);
                assert(tree_views(self.children@) =~= cs);
                assert(self@ =~= old(self)@);
                assert(cs.take(i + 1) =~= cs.take(i as int).push(cs[i as int]));
                lemma_visible_list_push(cs.take(i as int), cs[i as int]);
            }
            cnt = c2;
            i = i + 1;
        }
        proof {
            assert(cs.take(cs.len() as int) =~= cs);
            assert(visible_of(self@).len() == 1 + visible_of_list(cs).len());
        }
        (false, cnt)
    }

    /// Apply `op` to the node at the given visible index; returns whether
    /// such a row exists.
    pub fn apply_at(&mut self, target_idx: usize, op: NodeOp) -> (found: bool)
        ensures
            found <==> target_idx < visible_of(old(self)@).len(),
            found ==> final(self)@ == op_at(old(self)@, target_idx as int, op),
            !found ==> final(self)@ == old(self)@,
    {
        let (found, _) = self.apply_at_rec(0, target_idx, op);
        found
    }
}

/// The parent's visible index of the visible row `idx` in a subtree whose
/// root sits at visible index `base` and has parent `pidx`.
pub open spec fn parent_of(t: TreeView, idx: int, base: int, pidx: Option<usize>) -> Option<
    usize,
>
    decreases t,
{
    if idx == base {
        pidx
    } else if t.expanded {
        parent_of_list(t.children, idx, base + 1, base)
    } else {
        None
    }
}

pub open spec fn parent_of_list(cs: Seq<TreeView>, idx: int, base: int, self_base: int) -> Option<
    usize,
>
    decreases cs,
{
    if cs.len() == 0 {
        None
    } else if idx < base + visible_of(cs[0]).len() {
        parent_of(cs[0], idx, base, Some(self_base as usize))
    } else {
        parent_of_list(cs.drop_first(), idx, base + visible_of(cs[0]).len(), self_base)
    }
}

impl TreeNode {
    fn find_parent_rec(&self, current_idx: usize, target_idx: usize, parent_idx: Option<usize>)
        -> (res: (Option<usize>, usize, bool))
        requires
            current_idx <= target_idx,
        ensures
            res.2 <==> target_idx < current_idx + visible_of(self@).len(),
            res.2 ==> res.0 == parent_of(self@, target_idx as int, current_idx as int,
                parent_idx,
            ),
            !res.2 ==> res.1 as int == current_idx + visible_of(self@).len() && res.1
                <= target_idx,
        decreases *self,
    {
        proof {
            assert(visible_of(self@).len() >= 1);
        }
        if current_idx == target_idx {
            return (parent_idx, current_idx, true);
        }
        if !self.expanded {
            proof {
                assert(visible_of(self@) =~= seq![self@]);
            }
            return (None, current_idx + 1, false);
        }
        let ghost cs = self@.children;
        let mut cnt: usize = current_idx + 1;
        let mut i: usize = 0;
        proof {
            lemma_tree_views_len(self.children@);
            assert(cs.take(0) =~= Seq::<TreeView>::empty());
            assert(visible_of_list(Seq::<TreeView>::empty()) =~= Seq::<TreeView>::empty());
            assert(cs.skip(0) =~= cs);
        }
        while i < self.children.len()
            invariant
                i <= self.children@.len(),
                self.expanded,
                cs == self@.children,
                cs.len() == self.children@.len(),
                current_idx < target_idx,
                cnt <= target_idx,
                cnt as int == current_idx + 1 + visible_of_list(cs.take(i as int)).len(),
                parent_of_list(cs.skip(i as int), target_idx as int, cnt as int,
                    current_idx as int,
                ) == parent_of_list(cs, target_idx as int, current_idx + 1, current_idx as int),
            decreases self.children@.len() - i,
        {
            proof {
                lemma_tree_views_index(self.children@, i as int);
                assert(cs.skip(i as int)[0] == cs[i as int]);
            }
            let (p, c2, found) = self.children[i].find_parent_rec(
                cnt,
                target_idx,
                Some(current_idx),
            );
            if found {
                proof {
                    lemma_visible_list_split(cs, i as int);
                    assert(parent_of_list(
                        cs.skip(i as int),
                        target_idx as int,
                        cnt as int,
                        current_idx as int,
                    ) == parent_of(cs[i as int], target_idx as int, cnt as int,
                        Some(current_idx as usize),
                    ));
                    assert(parent_of(self@, target_idx as int, current_idx as int, parent_idx)
                        == parent_of_list(cs, target_idx as int, current_idx + 1,
                        current_idx as int,
                    ));
                    assert(target_idx < current_idx + visible_of(self@).len());
                }
                return (p, c2, true);
            }
            proof {
                assert(cs.take(i + 1) =~= cs.take(i as int).push(cs[i as int]));
                lemma_visible_list_push(cs.take(i as int), cs[i as int]);
                assert(cs.skip(i as int).drop_first() =~= cs.skip(i + 1));
                assert(parent_of_list(
                    cs.skip(i as int),
                    target_idx as int,
                    cnt as int,
                    current_idx as int,
                ) == parent_of_list(cs.skip(i + 1), target_idx as int, c2 as int,
                    current_idx as int,
                ));
            }
            cnt = c2;
            i = i + 1;
        }
        proof {
            assert(cs.take(cs.len() as int) =~= cs);
            assert(visible_of(self@).len() == 1 + visible_of_list(cs).len());
        }
        (None, cnt, false)
    }

    /// The visible index of the parent of the row at `target_idx`, if that
    /// row exists and is not the root.
    pub fn find_parent_index(&self, target_idx: usize) -> (r: Option<usize>)
        ensures
            target_idx < visible_of(self@).len() ==> r == parent_of(
                self@,
                target_idx as int,
                0,
                None,
            ),
            target_idx >= visible_of(self@).len() ==> r is None,
    {
        let (p, _, found) = self.find_parent_rec(0, target_idx, None);
        if found {
            p
        } else {
            None
        }
    }
}

/// The paths of every file of a subtree, in display order.
pub open spec fn files_of(t: TreeView) -> Seq<Seq<char>>
    decreases t,
{
    (if !t.is_dir {
        seq![t.path]
    } else {
        Seq::empty()
    }) + files_of_list(t.children)
}

pub open spec fn files_of_list(cs: Seq<TreeView>) -> Seq<Seq<char>>
    decreases cs,
{
    if cs.len() == 0 {
        Seq::empty()
    } else {
        files_of(cs[0]) + files_of_list(cs.drop_first())
    }
}

pub proof fn lemma_files_list_push(cs: Seq<TreeView>, c: TreeView)
    ensures
        files_of_list(cs.push(c)) == files_of_list(cs) + files_of(c),
    decreases cs.len(),
{
    if cs.len() == 0 {
        assert(cs.push(c)[0] == c);
        assert(cs.push(c).drop_first() =~= Seq::<TreeView>::empty());
        assert(files_of_list(Seq::<TreeView>::empty()) =~= Seq::<Seq<char>>::empty());
        assert(files_of_list(cs.push(c)) =~= files_of_list(cs) + files_of(c));
    } else {
        assert(cs.push(c)[0] == cs[0]);
        assert(cs.push(c).drop_first() =~= cs.drop_first().push(c));
        lemma_files_list_push(cs.drop_first(), c);
        assert(files_of_list(cs.push(c)) =~= files_of_list(cs) + files_of(c));
    }
}

impl TreeNode {
    fn collect_files_into(&self, out: &mut Vec<String>)
        ensures
            final(out).deep_view() == old(out).deep_view() + files_of(self@),
        decreases *self,
    {
        if !self.is_dir {
            let p = self.path.clone();
            out.push(p);
            proof {
                assert(out.deep_view() =~= old(out).deep_view().push(self.path@));
            }
        }
        let ghost cs = self@.children;
        let ghost base = out.deep_view();
        let mut i: usize = 0;
        proof {
            lemma_tree_views_len(self.children@);
            assert(cs.take(0) =~= Seq::<TreeView>::empty());
            assert(files_of_list(Seq::<TreeView>::empty()) =~= Seq::<Seq<char>>::empty());
            assert(out.deep_view() =~= base + files_of_list(cs.take(0)));
        }
        while i < self.children.len()
            invariant
                i <= self.children@.len(),
                cs == self@.children,
                cs.len() == self.children@.len(),
                out.deep_view() == base + files_of_list(cs.take(i as int)),
            decreases self.children@.len() - i,
        {
            proof {
                lemma_tree_views_index(self.children@, i as int);
            }
            self.children[i].collect_files_into(out);
            proof {
                assert(cs.take(i + 1) =~= cs.take(i as int).push(cs[i as int]));
                lemma_files_list_push(cs.take(i as int), cs[i as int]);
                assert(out.deep_view() =~= base + files_of_list(cs.take(i + 1)));
            }
            i = i + 1;
        }
        proof {
            assert(cs.take(cs.len() as int) =~= cs);
            assert(out.deep_view() =~= old(out).deep_view() + files_of(self@));
        }
    }

    /// The paths of every file in the tree, in display order.
    pub fn collect_all_files(&self) -> (r: Vec<String>)
        ensures
            r.deep_view() == files_of(self@),
    {
        let mut out: Vec<String> = Vec::new();
        proof {
            assert(out.deep_view() =~= Seq::<Seq<char>>::empty());
        }
        self.collect_files_into(&mut out);
        proof {
            assert(Seq::<Seq<char>>::empty() + files_of(self@) =~= files_of(self@));
        }
        out
    }
}

/// The sidebar order of siblings: directories before files, and within a
/// kind by lowercased name.
pub open spec fn child_key_le(a: TreeView, b: TreeView) -> bool {
    (a.is_dir && !b.is_dir) || (a.is_dir == b.is_dir && crate::text::lex_le(
        crate::text::lower_of(a.name),
        crate::text::lower_of(b.name),
    ))
}

/// Where a new child goes among sorted siblings: after every sibling that
/// orders at or before it.
pub open spec fn insert_pos(cs: Seq<TreeView>, c: TreeView) -> int
    decreases cs.len(),
{
    if cs.len() == 0 {
        0
    } else if child_key_le(cs[0], c) {
        1 + insert_pos(cs.drop_first(), c)
    } else {
        0
    }
}

pub proof fn lemma_insert_pos_bounds(cs: Seq<TreeView>, c: TreeView)
    ensures
        0 <= insert_pos(cs, c) <= cs.len(),
    decreases cs.len(),
{
    if cs.len() > 0 && child_key_le(cs[0], c) {
        lemma_insert_pos_bounds(cs.drop_first(), c);
    }
}

proof fn lemma_insert_pos_is(cs: Seq<TreeView>, c: TreeView, p: int)
    requires
        0 <= p <= cs.len(),
        forall|k: int| 0 <= k < p ==> child_key_le(#[trigger] cs[k], c),
        p == cs.len() || !child_key_le(cs[p], c),
    ensures
        insert_pos(cs, c) == p,
    decreases p,
{
    if p == 0 {
    } else {
        assert(child_key_le(cs[0], c));
        assert forall|k: int| 0 <= k < p - 1 implies child_key_le(
            #[trigger] cs.drop_first()[k],
            c,
        ) by {
            assert(cs.drop_first()[k] == cs[k + 1]);
        }
        if p < cs.len() {
            assert(cs.drop_first()[p - 1] == cs[p]);
        }
        lemma_insert_pos_is(cs.drop_first(), c, p - 1);
    }
}

/// The first child with the given name.
pub open spec fn find_child(cs: Seq<TreeView>, name: Seq<char>) -> Option<int>
    decreases cs.len(),
{
    if cs.len() == 0 {
        None
    } else if cs[0].name == name {
        Some(0int)
    } else {
        match find_child(cs.drop_first(), name) {
            Some(i) => Some(i + 1),
            None => None,
        }
    }
}

proof fn lemma_find_child_is(cs: Seq<TreeView>, name: Seq<char>, i: int)
    requires
        0 <= i < cs.len(),
        cs[i].name == name,
        forall|k: int| 0 <= k < i ==> (#[trigger] cs[k]).name != name,
    ensures
        find_child(cs, name) == Some(i),
    decreases i,
{
    if i > 0 {
        assert(cs[0].name != name);
        assert(cs.drop_first()[i - 1] == cs[i]);
        assert forall|k: int| 0 <= k < i - 1 implies (#[trigger] cs.drop_first()[k]).name
            != name by {
            assert(cs.drop_first()[k] == cs[k + 1]);
        }
        lemma_find_child_is(cs.drop_first(), name, i - 1);
    }
}

proof fn lemma_find_child_none(cs: Seq<TreeView>, name: Seq<char>)
    requires
        forall|k: int| 0 <= k < cs.len() ==> (#[trigger] cs[k]).name != name,
    ensures
        find_child(cs, name) is None,
    decreases cs.len(),
{
    if cs.len() > 0 {
        assert forall|k: int| 0 <= k < cs.drop_first().len() implies (
        #[trigger] cs.drop_first()[k]).name != name by {
            assert(cs.drop_first()[k] == cs[k + 1]);
        }
        lemma_find_child_none(cs.drop_first(), name);
    }
}

pub proof fn lemma_tree_views_insert(cs: Seq<TreeNode>, i: int, x: TreeNode)
    requires
        0 <= i <= cs.len(),
    ensures
        tree_views(cs.insert(i, x)) == tree_views(cs).insert(i, tree_view(x)),
    decreases cs.len(),
{
    lemma_tree_views_len(cs);
    lemma_tree_views_len(cs.insert(i, x));
    if i == 0 {
        assert(cs.insert(0, x)[0] == x);
        assert(cs.insert(0, x).drop_first() =~= cs);
        assert(tree_views(cs.insert(0, x)) =~= tree_views(cs).insert(0, tree_view(x)));
    } else {
        assert(cs.insert(i, x)[0] == cs[0]);
        assert(cs.insert(i, x).drop_first() =~= cs.drop_first().insert(i - 1, x));
        lemma_tree_views_insert(cs.drop_first(), i - 1, x);
        assert(tree_views(cs.insert(i, x)) =~= tree_views(cs).insert(i, tree_view(x)));
    }
}

pub proof fn lemma_tree_views_push(cs: Seq<TreeNode>, x: TreeNode)
    ensures
        tree_views(cs.push(x)) == tree_views(cs).push(tree_view(x)),
    decreases cs.len(),
{
    lemma_tree_views_len(cs);
    lemma_tree_views_len(cs.push(x));
    if cs.len() == 0 {
        assert(cs.push(x)[0] == x);
        assert(cs.push(x).drop_first() =~= Seq::<TreeNode>::empty());
        assert(tree_views(Seq::<TreeNode>::empty()) =~= Seq::<TreeView>::empty());
        assert(tree_views(cs.push(x)) =~= tree_views(cs).push(tree_view(x)));
    } else {
        assert(cs.push(x)[0] == cs[0]);
        assert(cs.push(x).drop_first() =~= cs.drop_first().push(x));
        lemma_tree_views_push(cs.drop_first(), x);
        assert(tree_views(cs.push(x)) =~= tree_views(cs).push(tree_view(x)));
    }
}

/// A fresh, collapsed node as `insert_path` creates it.
pub open spec fn new_node_view(
    name: Seq<char>,
    path: Seq<char>,
    is_dir: bool,
    depth: nat,
) -> TreeView {
    TreeView {
        name: name,
        path: path,
        is_dir: is_dir,
        depth: depth,
        expanded: depth == 0,
        children: Seq::empty(),
    }
}

/// The tree after inserting one scanned entry: walk the name components
/// from `at` on, reusing a child of the same name where one exists,
/// creating sorted leaf nodes and appended intermediate directories
/// otherwise.
pub open spec fn insert_spec(
    t: TreeView,
    full_path: Seq<char>,
    comps: Seq<Seq<char>>,
    at: int,
    depth: nat,
    is_dir: bool,
) -> TreeView
    decreases comps.len() - at,
{
    if at >= comps.len() {
        t
    } else {
        let name = comps[at];
        let existing = find_child(t.children, name);
        if at == comps.len() - 1 {
            match existing {
                Some(_) => t,
                None => {
                    let child = new_node_view(name, full_path, is_dir, depth + 1);
                    TreeView {
                        children: t.children.insert(insert_pos(t.children, child), child),
                        ..t
                    }
                },
            }
        } else {
            match existing {
                Some(i) => TreeView {
                    children: t.children.update(
                        i,
                        insert_spec(t.children[i], full_path, comps, at + 1, depth + 1, is_dir),
                    ),
                    ..t
                },
                None => {
                    let child = new_node_view(
                        name,
                        t.path + seq!['/'] + name,
                        true,
                        depth + 1,
                    );
                    TreeView {
                        children: t.children.push(
                            insert_spec(child, full_path, comps, at + 1, depth + 1, is_dir),
                        ),
                        ..t
                    }
                },
            }
        }
    }
}

/// Find the first child with the given name.
fn find_child_idx(node: &TreeNode, name: &String) -> (r: Option<usize>)
    ensures
        match r {
            Some(i) => i < node@.children.len() && find_child(node@.children, name@) == Some(
                i as int,
            ),
            None => find_child(node@.children, name@) is None,
        },
{
    let ghost cs = node@.children;
    proof {
        lemma_tree_views_len(node.children@);
    }
    let mut i: usize = 0;
    while i < node.children.len()
        invariant
            i <= node.children@.len(),
            cs == node@.children,
            cs.len() == node.children@.len(),
            forall|k: int| 0 <= k < i ==> (#[trigger] cs[k]).name != name@,
        decreases node.children@.len() - i,
    {
        proof {
            lemma_tree_views_index(node.children@, i as int);
        }
        if crate::text::str_eq(node.children[i].name.as_str(), name.as_str()) {
            proof {
                lemma_find_child_is(cs, name@, i as int);
            }
            return Some(i);
        }
        i = i + 1;
    }
    proof {
        lemma_find_child_none(cs, name@);
    }
    None
}

/// Decide the sibling order between an existing child and a new one.
fn child_le(a: &TreeNode, b: &TreeNode) -> (r: bool)
    ensures
        r == child_key_le(a@, b@),
{
    if a.is_dir && !b.is_dir {
        true
    } else if a.is_dir == b.is_dir {
        let la = crate::text::to_lower(a.name.as_str());
        let lb = crate::text::to_lower(b.name.as_str());
        crate::text::str_lex_le(la.as_str(), lb.as_str())
    } else {
        false
    }
}

/// Where the new child goes among this node's children.
fn find_insert_pos(node: &TreeNode, child: &TreeNode) -> (p: usize)
    ensures
        p <= node.children@.len(),
        p as int == insert_pos(node@.children, child@),
{
    let ghost cs = node@.children;
    proof {
        lemma_tree_views_len(node.children@);
    }
    let mut p: usize = 0;
    while p < node.children.len()
        invariant
            p <= node.children@.len(),
            cs == node@.children,
            cs.len() == node.children@.len(),
            forall|k: int| 0 <= k < p ==> child_key_le(#[trigger] cs[k], child@),
        decreases node.children@.len() - p,
    {
        proof {
            lemma_tree_views_index(node.children@, p as int);
        }
        if !child_le(&node.children[p], child) {
            proof {
                lemma_insert_pos_is(cs, child@, p as int);
            }
            return p;
        }
        p = p + 1;
    }
    proof {
        lemma_insert_pos_is(cs, child@, cs.len() as int);
    }
    p
}

/// Insert one scanned entry into the tree, walking its name components
/// from `at` on: new files and directories are placed among their siblings
/// in sidebar order, intermediate directories are created as needed.
pub fn insert_path(
    node: &mut TreeNode,
    full_path: &String,
    components: &Vec<String>,
    at: usize,
    depth: usize,
    is_dir: bool,
)
    requires
        depth + components@.len() - at <= usize::MAX,
        at <= components@.len(),
    ensures
        final(node)@ == insert_spec(
            old(node)@,
            full_path@,
            components.deep_view(),
            at as int,
            depth as nat,
            is_dir,
        ),
    decreases components@.len() - at,
{
    let ghost cv = components.deep_view();
    if at >= components.len() {
        return;
    }
    let name = &components[at];
    proof {
        assert(cv[at as int] == components@[at as int]@);
    }
    let existing = find_child_idx(node, name);
    if at == components.len() - 1 {
        match existing {
            Some(_) => {}
            None => {
                let child = TreeNode::new(name.clone(), full_path.clone(), is_dir, depth + 1);
                let p = find_insert_pos(node, &child);
                let ghost prev = node.children@;
                node.children.insert(p, child);
                proof {
                    lemma_insert_pos_bounds(old(node)@.children, child@);
                    lemma_tree_views_insert(prev, p as int, child);
                    assert(node@ =~= insert_spec(
                        old(node)@,
                        full_path@,
                        cv,
                        at as int,
                        depth as nat,
                        is_dir,
                    ));
                }
            }
        }
    } else {
        match existing {
            Some(i) => {
                let ghost prev = node.children@;
                proof {
                    lemma_tree_views_len(prev);
                    lemma_tree_views_index(prev, i as int);
                }
                insert_path(&mut node.children[i], full_path, components, at + 1, depth + 1,
                    is_dir,
                );
                proof {
                    assert(node.children@ == prev.update(i as int, node.children@[i as int]));
                    lemma_tree_views_update(prev, i as int, node.children@[i as int]);
                    assert(node@ =~= insert_spec(
                        old(node)@,
                        full_path@,
                        cv,
                        at as int,
                        depth as nat,
                        is_dir,
                    ));
                }
            }
            None => {
                let mut child_path = node.path.clone();
                child_path.append("/");
                child_path.append(name.as_str());
                proof {
                    reveal_strlit("/");
                    assert("/"@ =~= seq!['/']);
                }
                let child = TreeNode::new(name.clone(), child_path, true, depth + 1);
                let ghost prev = node.children@;
                node.children.push(child);
                let last = node.children.len() - 1;
                proof {
                    lemma_tree_views_push(prev, child);
                    lemma_tree_views_len(prev);
                    lemma_tree_views_len(node.children@);
                    lemma_tree_views_index(node.children@, last as int);
                }
                let ghost mid = node.children@;
                insert_path(
                    &mut node.children[last],
                    full_path,
                    components,
                    at + 1,
                    depth + 1,
                    is_dir,
                );
                proof {
                    assert(node.children@ == mid.update(last as int, node.children@[last as int]));
                    lemma_tree_views_update(mid, last as int, node.children@[last as int]);
                    assert(tree_views(node.children@) =~= tree_views(prev).push(
                        insert_spec(
                            child@,
                            full_path@,
                            cv,
                            at + 1,
                            (depth + 1) as nat,
                            is_dir,
                        ),
                    ));
                    assert(node@ =~= insert_spec(
                        old(node)@,
                        full_path@,
                        cv,
                        at as int,
                        depth as nat,
                        is_dir,
                    ));
                }
            }
        }
    }
}

/// The size of a subtree, counting every node.
pub open spec fn tree_size(t: TreeView) -> nat
    decreases t,
{
    1 + list_size(t.children)
}

pub open spec fn list_size(cs: Seq<TreeView>) -> nat
    decreases cs,
{
    if cs.len() == 0 {
        0
    } else {
        tree_size(cs[0]) + list_size(cs.drop_first())
    }
}

proof fn lemma_list_size_member(cs: Seq<TreeView>, i: int)
    requires
        0 <= i < cs.len(),
    ensures
        tree_size(cs[i]) <= list_size(cs),
    decreases i,
{
    if i == 0 {
    } else {
        assert(cs.drop_first()[i - 1] == cs[i]);
        lemma_list_size_member(cs.drop_first(), i - 1);
    }
}

/// The tree with every directory that contains no entry removed, at every
/// level.
pub open spec fn prune_spec(t: TreeView) -> TreeView
    decreases tree_size(t), 0nat,
        via prune_spec_dec
{
    TreeView { children: prune_list(t.children), ..t }
}

/// The children that survive pruning, each pruned itself.
pub open spec fn prune_list(cs: Seq<TreeView>) -> Seq<TreeView>
    decreases list_size(cs), cs.len(),
        via prune_list_dec
{
    if cs.len() == 0 {
        Seq::empty()
    } else {
        let c = prune_spec(cs[0]);
        (if c.is_dir && c.children.len() == 0 {
            Seq::<TreeView>::empty()
        } else {
            seq![c]
        }) + prune_list(cs.drop_first())
    }
}

#[via_fn]
proof fn prune_spec_dec(t: TreeView) {
    assert(list_size(t.children) < tree_size(t));
}

#[via_fn]
proof fn prune_list_dec(cs: Seq<TreeView>) {
    if cs.len() > 0 {
        assert(tree_size(cs[0]) >= 1);
        assert(list_size(cs) == tree_size(cs[0]) + list_size(cs.drop_first()));
    }
}

proof fn lemma_prune_list_step(cs: Seq<TreeView>, i: int)
    requires
        0 <= i < cs.len(),
    ensures
        prune_list(cs.skip(i)) == (if prune_spec(cs[i]).is_dir && prune_spec(
            cs[i],
        ).children.len() == 0 {
            Seq::<TreeView>::empty()
        } else {
            seq![prune_spec(cs[i])]
        }) + prune_list(cs.skip(i + 1)),
{
    assert(cs.skip(i)[0] == cs[i]);
    assert(cs.skip(i).drop_first() =~= cs.skip(i + 1));
}

/// Take one child out of a scratch vector, leaving a leaf placeholder that
/// is dropped with the vector.
fn take_child(kids: &mut Vec<TreeNode>, i: usize) -> (c: TreeNode)
    requires
        i < old(kids)@.len(),
    ensures
        c == old(kids)@[i as int],
        final(kids)@.len() == old(kids)@.len(),
        forall|k: int| 0 <= k < old(kids)@.len() && k != i ==> final(kids)@[k] == old(kids)@[k],
{
    let mut c = TreeNode::new(String::new(), String::new(), false, 1);
    let slot = &mut kids[i];
    core::mem::swap(slot, &mut c);
    c
}

/// Remove every directory that contains no entry, at every level.
pub fn prune_empty_dirs(node: &mut TreeNode)
    ensures
        final(node)@ == prune_spec(old(node)@),
    decreases tree_size(node@), 0nat,
{
    let ghost cs = node@.children;
    let mut kids: Vec<TreeNode> = Vec::new();
    core::mem::swap(&mut node.children, &mut kids);
    proof {
        lemma_tree_views_len(kids@);
        assert(tree_views(kids@) == cs);
        assert forall|k: int| 0 <= k < cs.len() implies tree_view(#[trigger] kids@[k])
            == cs[k] by {
            lemma_tree_views_index(kids@, k);
        }
    }
    let mut kept: Vec<TreeNode> = Vec::new();
    let mut i: usize = 0;
    proof {
        assert(tree_views(kept@) =~= Seq::<TreeView>::empty());
        assert(cs.skip(0) =~= cs);
        assert(tree_views(kept@) + prune_list(cs.skip(0)) =~= prune_list(cs));
    }
    while i < kids.len()
        invariant
            i <= kids@.len(),
            kids@.len() == cs.len(),
            cs == old(node)@.children,
            forall|k: int| i <= k < cs.len() ==> tree_view(#[trigger] kids@[k]) == cs[k],
            tree_views(kept@) + prune_list(cs.skip(i as int)) == prune_list(cs),
        decreases kids@.len() - i,
    {
        let ghost pre_kept = kept@;
        proof {
            lemma_list_size_member(cs, i as int);
            assert(list_size(old(node)@.children) < tree_size(old(node)@));
        }
        let mut c = take_child(&mut kids, i);
        proof {
            assert(c@ == cs[i as int]);
            assert(tree_size(c@) < tree_size(old(node)@));
        }
        prune_empty_dirs(&mut c);
        let keep = !c.is_dir || c.children.len() > 0;
        proof {
            lemma_tree_views_len(c.children@);
            assert(keep == !(prune_spec(cs[i as int]).is_dir && prune_spec(
                cs[i as int],
            ).children.len() == 0));
        }
        if keep {
            kept.push(c);
            proof {
                lemma_tree_views_push(pre_kept, c);
            }
        }
        proof {
            lemma_prune_list_step(cs, i as int);
            assert(tree_views(kept@) + prune_list(cs.skip(i as int + 1)) =~= prune_list(cs));
        }
        i = i + 1;
    }
    node.children = kept;
    proof {
        assert(cs.skip(cs.len() as int) =~= Seq::<TreeView>::empty());
        assert(prune_list(Seq::<TreeView>::empty()) =~= Seq::<TreeView>::empty());
        assert(tree_views(node.children@) =~= prune_list(cs));
        assert(node@ =~= prune_spec(old(node)@));
    }
}

} // verus!

use vstd::prelude::*;

use crate::tree::{SyntaxTree, TreeModel};
use crate::walk::same_text;

verus! {

/// The kind labels of punctuation and operator tokens, which a semantic tree
/// leaves out. Membership is exact equality of labels.
pub open spec fn is_punctuation(k: Seq<char>) -> bool {
    ||| k == "{"@
    ||| k == "}"@
    ||| k == ":"@
    ||| k == "//"@
    ||| k == ";"@
    ||| k == "<"@
    ||| k == ">"@
    ||| k == "->"@
    ||| k == "("@
    ||| k == ")"@
}

pub fn is_punctuation_kind(k: &str) -> (r: bool)
    ensures
        r == is_punctuation(k@),
{
    same_text(k, "{") || same_text(k, "}") || same_text(k, ":") || same_text(k, "//")
        || same_text(k, ";") || same_text(k, "<") || same_text(k, ">") || same_text(k, "->")
        || same_text(k, "(") || same_text(k, ")")
}

impl TreeModel {
    /// The children of a node that start at `c`, up to the end `e` of the
    /// node's subtree, with punctuation left out.
    pub open spec fn kept_children(self, c: int, e: int) -> Seq<int>
        decreases e - c,
    {
        if c < self.sub_end(c) <= e {
            let rest = self.kept_children(self.sub_end(c), e);
            if is_punctuation(self.kind(c)) {
                rest
            } else {
                seq![c] + rest
            }
        } else {
            Seq::empty()
        }
    }

    /// The children of node `i` that are not punctuation, in order.
    pub open spec fn kept_children_of(self, i: int) -> Seq<int> {
        self.kept_children(i + 1, self.sub_end(i))
    }
}

/// A node of a semantic tree: its kind, the exact source text it spans, and
/// its children without punctuation.
pub struct SyntaxNode {
    pub kind: String,
    pub text: String,
    pub children: Vec<SyntaxNode>,
}

/// `n` is the semantic tree of node `i` of `t`.
pub open spec fn trims_to(t: TreeModel, i: int, n: SyntaxNode) -> bool
    decreases t.len() - i,
{
    let kept = t.kept_children_of(i);
    &&& n.kind@ == t.kind(i)
    &&& n.text@ == t.text(i)
    &&& n.children.len() == kept.len()
    &&& forall|k: int|
        0 <= k < kept.len() && i < kept[k] <= t.len() ==> trims_to(
            t,
            kept[k],
            #[trigger] n.children@[k],
        )
}

/// No node below `n` has a punctuation kind.
pub open spec fn punctuation_free(n: SyntaxNode) -> bool
    decreases n,
{
    forall|k: int|
        0 <= k < n.children.len() ==> !is_punctuation((#[trigger] n.children@[k]).kind@)
            && punctuation_free(n.children@[k])
}

/// The positions among the first `len` of `ch` that are not punctuation.
pub open spec fn kept_positions(ch: Seq<SyntaxNode>, len: int) -> Seq<int>
    decreases len,
{
    if len <= 0 {
        Seq::empty()
    } else if is_punctuation(ch[len - 1].kind@) {
        kept_positions(ch, len - 1)
    } else {
        kept_positions(ch, len - 1).push(len - 1)
    }
}

/// `b` is `a` with every punctuation node below it removed.
pub open spec fn filters_to(a: SyntaxNode, b: SyntaxNode) -> bool
    decreases a,
{
    let kept = kept_positions(a.children@, a.children.len() as int);
    &&& b.kind@ == a.kind@
    &&& b.text@ == a.text@
    &&& b.children.len() == kept.len()
    &&& forall|k: int|
        0 <= k < kept.len() && 0 <= kept[k] < a.children.len() ==> filters_to(
            a.children@[kept[k]],
            #[trigger] b.children@[k],
        )
}

/// `a` and `b` have the same kinds, texts and shape.
pub open spec fn same_tree(a: SyntaxNode, b: SyntaxNode) -> bool
    decreases a,
{
    &&& a.kind@ == b.kind@
    &&& a.text@ == b.text@
    &&& a.children.len() == b.children.len()
    &&& forall|k: int|
        0 <= k < a.children.len() ==> same_tree(#[trigger] a.children@[k], b.children@[k])
}

/// The kept children between `c` and `e` lie in that range and are not
/// punctuation.
proof fn lemma_kept_children_bounds(t: TreeModel, c: int, e: int)
    ensures
        forall|x: int|
            #![trigger t.kept_children(c, e).contains(x)]
            t.kept_children(c, e).contains(x) ==> c <= x < e && !is_punctuation(t.kind(x)),
    decreases e - c,
{
    if c < t.sub_end(c) <= e {
        lemma_kept_children_bounds(t, t.sub_end(c), e);
        let rest = t.kept_children(t.sub_end(c), e);
        assert forall|x: int| t.kept_children(c, e).contains(x) implies c <= x < e
            && !is_punctuation(t.kind(x)) by {
            if !is_punctuation(t.kind(c)) && x != c {
                assert(t.kept_children(c, e) == seq![c] + rest);
                let k = choose|k: int| 0 <= k < t.kept_children(c, e).len() && t.kept_children(c, e)[k] == x;
                assert(rest[k - 1] == x);
                assert(rest.contains(x));
            }
        }
    }
}

impl SyntaxNode {
    /// The semantic tree of node `i`: its kind and exact source text, and
    /// the semantic trees of its children, punctuation left out, in order.
    pub fn from_node(tree: &SyntaxTree, i: usize) -> (r: SyntaxNode)
        requires
            tree@.wf(),
            i < tree@.len(),
        ensures
            trims_to(tree@, i as int, r),
        decreases tree@.len() - i,
    {
        let ghost t = tree@;
        let e = tree.node(i).subtree_end;
        let mut children: Vec<SyntaxNode> = Vec::new();
        let mut c = i + 1;
        let ghost done: Seq<int> = Seq::empty();
        proof {
            if c < e {
                crate::walk::lemma_first_child_parent(t, i as int);
            }
        }
        while c < e
            invariant
                t == tree@,
                t.wf(),
                i < t.len(),
                e == t.sub_end(i as int),
                i < c <= e,
                c < e ==> t.parent(c as int) == i,
                t.kept_children_of(i as int) == done + t.kept_children(c as int, e as int),
                children@.len() == done.len(),
                forall|k: int| 0 <= k < done.len() ==> i < #[trigger] done[k] < c,
                forall|k: int|
                    0 <= k < done.len() ==> trims_to(t, done[k], #[trigger] children@[k]),
            decreases e - c,
        {
            let child = SyntaxNode::from_node(tree, c);
            let next = tree.node(c).subtree_end;
            proof {
                assert(t.sub_end(c as int) <= e);
                if next < e {
                    crate::walk::lemma_next_sibling_parent(t, c as int);
                }
            }
            let ghost rest = t.kept_children(next as int, e as int);
            if !is_punctuation_kind(child.kind.as_str()) {
                let ghost old_children = children@;
                let ghost old_done = done;
                let ghost child_ghost = child;
                children.push(child);
                proof {
                    assert(done + (seq![c as int] + rest) =~= done.push(c as int) + rest);
                    done = done.push(c as int);
                    assert forall|k: int| 0 <= k < done.len() implies i < done[k] <= c
                        && trims_to(t, done[k], #[trigger] children@[k]) by {
                        if k < done.len() - 1 {
                            assert(children@[k] == old_children[k]);
                            assert(done[k] == old_done[k]);
                            assert(trims_to(t, old_done[k], old_children[k]));
                        } else {
                            assert(done[k] == c);
                            assert(children@[k] == child_ghost);
                            assert(trims_to(t, c as int, child_ghost));
                        }
                    }
                }
            }
            c = next;
            proof {
                assert(c < e ==> t.parent(c as int) == i);
                assert(t.kept_children_of(i as int) == done + t.kept_children(c as int, e as int));
                assert(children@.len() == done.len());
            }
        }
        proof {
            assert(done + t.kept_children(c as int, e as int) =~= done);
        }
        let r = SyntaxNode { kind: tree.node(i).kind.clone(), text: tree.text(i), children };
        proof {
            let kept = t.kept_children_of(i as int);
            assert(kept == done);
            assert(r.kind@ == t.kind(i as int));
            assert forall|k: int| 0 <= k < kept.len() && i < kept[k] <= t.len() implies trims_to(
                t,
                kept[k],
                #[trigger] r.children@[k],
            ) by {
                assert(trims_to(t, done[k], children@[k]));
            }

        }
        r
    }

    /// A copy of this node with every punctuation node below it removed.
    pub fn without_punctuation(&self) -> (r: SyntaxNode)
        ensures
            filters_to(*self, r),
        decreases self,
    {
        let mut children: Vec<SyntaxNode> = Vec::new();
        let mut j: usize = 0;
        while j < self.children.len()
            invariant
                j <= self.children@.len(),
                children@.len() == kept_positions(self.children@, j as int).len(),
                forall|k: int|
                    0 <= k < children@.len() ==> 0 <= #[trigger] kept_positions(
                        self.children@,
                        j as int,
                    )[k] < j && filters_to(
                        self.children@[kept_positions(self.children@, j as int)[k]],
                        children@[k],
                    ),
            decreases self.children@.len() - j,
        {
            let ch = &self.children[j];
            if !is_punctuation_kind(ch.kind.as_str()) {
                let f = ch.without_punctuation();
                children.push(f);
            }
            j = j + 1;
        }
        SyntaxNode { kind: self.kind.clone(), text: self.text.clone(), children }
    }
}

/// Every node below a semantic tree built from a syntax tree has a kind
/// outside the punctuation set.
pub proof fn lemma_trim_has_no_punctuation(t: TreeModel, i: int, n: SyntaxNode)
    requires
        t.wf(),
        0 <= i < t.len(),
        trims_to(t, i, n),
    ensures
        punctuation_free(n),
    decreases t.len() - i,
{
    let kept = t.kept_children_of(i);
    lemma_kept_children_bounds(t, i + 1, t.sub_end(i));
    assert forall|k: int| 0 <= k < n.children.len() implies !is_punctuation(
        (#[trigger] n.children@[k]).kind@,
    ) && punctuation_free(n.children@[k]) by {
        assert(kept.contains(kept[k]));
        lemma_trim_has_no_punctuation(t, kept[k], n.children@[k]);
    }
}

/// With no punctuation among the first `len` nodes, every one of them is kept.
proof fn lemma_kept_positions_all(ch: Seq<SyntaxNode>, len: int)
    requires
        0 <= len <= ch.len(),
        forall|k: int| 0 <= k < len ==> !is_punctuation((#[trigger] ch[k]).kind@),
    ensures
        kept_positions(ch, len) == Seq::new(len as nat, |x: int| x),
    decreases len,
{
    if len > 0 {
        lemma_kept_positions_all(ch, len - 1);
        assert(kept_positions(ch, len) =~= Seq::new(len as nat, |x: int| x));
    }
}

/// Removing punctuation from a tree that holds none gives the same tree.
pub proof fn lemma_filter_free_tree(a: SyntaxNode, b: SyntaxNode)
    requires
        punctuation_free(a),
        filters_to(a, b),
    ensures
        same_tree(a, b),
    decreases a,
{
    lemma_kept_positions_all(a.children@, a.children.len() as int);
    let kept = kept_positions(a.children@, a.children.len() as int);
    assert forall|k: int| 0 <= k < a.children.len() implies same_tree(
        #[trigger] a.children@[k],
        b.children@[k],
    ) by {
        assert(kept[k] == k);
        assert(filters_to(a.children@[k], b.children@[k]));
        lemma_filter_free_tree(a.children@[k], b.children@[k]);
    }
}

/// Trimming is idempotent: removing punctuation once more from a semantic
/// tree built from a syntax tree changes nothing.
pub proof fn lemma_trim_idempotent(t: TreeModel, i: int, n: SyntaxNode, m: SyntaxNode)
    requires
        t.wf(),
        0 <= i < t.len(),
        trims_to(t, i, n),
        filters_to(n, m),
    ensures
        same_tree(n, m),
{
    lemma_trim_has_no_punctuation(t, i, n);
    lemma_filter_free_tree(n, m);
}

} // verus!

use vstd::prelude::*;
use vstd::string::StringSliceAdditionalSpecFns;
use vstd::utf8::encode_utf8;

use crate::tree::{SyntaxTree, TreeModel};

verus! {

impl TreeModel {
    /// Number of steps up from `j` to `r`, for `j` in the subtree of `r`.
    pub open spec fn depth_in(self, r: int, j: int) -> nat
        decreases j - r,
    {
        if r < j && r <= self.parent(j) < j {
            1 + self.depth_in(r, self.parent(j))
        } else {
            0
        }
    }

    /// The nodes of `lo..hi` whose kind is `k`, in document order.
    pub open spec fn kind_matches(self, k: Seq<char>, lo: int, hi: int) -> Seq<usize>
        decreases hi - lo,
    {
        if hi <= lo {
            Seq::empty()
        } else if self.kind(hi - 1) == k {
            self.kind_matches(k, lo, hi - 1).push((hi - 1) as usize)
        } else {
            self.kind_matches(k, lo, hi - 1)
        }
    }

    /// The named children of a node that start at `c`, up to the end `e` of
    /// the node's subtree.
    pub open spec fn named_from(self, c: int, e: int) -> Seq<usize>
        decreases e - c,
    {
        if 0 <= c < self.sub_end(c) <= e {
            let rest = self.named_from(self.sub_end(c), e);
            if self.nodes[c].named {
                seq![c as usize] + rest
            } else {
                rest
            }
        } else {
            Seq::empty()
        }
    }

    /// The named children of node `i`, in order.
    pub open spec fn named_children_of(self, i: int) -> Seq<usize> {
        self.named_from(i + 1, self.sub_end(i))
    }

    /// The nodes of the subtree of `r` (`r` included) whose kind is `k`.
    pub open spec fn descendants_of_kind(self, r: int, k: Seq<char>) -> Seq<usize> {
        self.kind_matches(k, r, self.sub_end(r))
    }
}

/// The matches of a kind in `lo..hi` lie in that range and have that kind.
pub proof fn lemma_kind_matches_bounds(t: TreeModel, k: Seq<char>, lo: int, hi: int)
    requires
        0 <= lo,
        hi <= usize::MAX,
    ensures
        forall|j: int|
            0 <= j < t.kind_matches(k, lo, hi).len() ==> lo <= #[trigger] t.kind_matches(
                k,
                lo,
                hi,
            )[j] < hi && t.kind(t.kind_matches(k, lo, hi)[j] as int) == k,
    decreases hi - lo,
{
    if hi > lo {
        lemma_kind_matches_bounds(t, k, lo, hi - 1);
        let prev = t.kind_matches(k, lo, hi - 1);
        let cur = t.kind_matches(k, lo, hi);
        assert forall|j: int| 0 <= j < cur.len() implies lo <= #[trigger] cur[j] < hi && t.kind(
            cur[j] as int,
        ) == k by {
            if j < prev.len() {
                assert(cur[j] == prev[j]);
            }
        }
    }
}

/// Inside the subtree of `r`, a node's parent lies in that subtree too.
pub proof fn lemma_parent_in_subtree(t: TreeModel, r: int, j: int)
    requires
        t.wf(),
        0 <= r < j < t.sub_end(r),
        r < t.len(),
    ensures
        r <= t.parent(j) < j,
{
    let p = t.parent(j);
    if p < r {
        assert(t.sub_end(r) <= j);
    }
}

/// The node that follows a node's subtree, when still inside its parent's
/// subtree, is its next sibling.
pub proof fn lemma_next_sibling_parent(t: TreeModel, j: int)
    requires
        t.wf(),
        0 < j < t.len(),
        t.sub_end(j) < t.sub_end(t.parent(j)),
    ensures
        t.parent(t.sub_end(j)) == t.parent(j),
{
    let s = t.sub_end(j);
    let p = t.parent(j);
    let ps = t.parent(s);
    assert(0 < s < t.len());
    if ps < p {
        assert(t.sub_end(p) <= s);
    } else if ps > p {
        if ps < j {
            assert(t.sub_end(ps) <= j);
        } else if ps > j {
            assert(t.sub_end(ps) <= t.sub_end(j));
        }
    }
}

/// The first node after `j` is its first child when it has one.
pub proof fn lemma_first_child_parent(t: TreeModel, j: int)
    requires
        t.wf(),
        0 <= j < t.len(),
        j + 1 < t.sub_end(j),
    ensures
        t.parent(j + 1) == j,
{
    let c = j + 1;
    let p = t.parent(c);
    if p < j {
        assert(t.sub_end(j) <= c);
    }
}

/// A position in a tree that moves by single steps: to the first child, to
/// the next sibling, or to the parent. It never leaves the subtree of the
/// node it started at.
pub struct Cursor {
    root: usize,
    node: usize,
}

/// Where a cursor stands: the node it started at, and the current node.
pub ghost struct CursorModel {
    pub root: int,
    pub node: int,
}

impl View for Cursor {
    type V = CursorModel;

    closed spec fn view(&self) -> CursorModel {
        CursorModel { root: self.root as int, node: self.node as int }
    }
}

impl CursorModel {
    pub open spec fn inv(self, t: TreeModel) -> bool {
        &&& t.wf()
        &&& 0 <= self.root < t.len()
        &&& self.root <= self.node < t.sub_end(self.root)
    }
}

impl Cursor {
    pub fn new(tree: &SyntaxTree, start: usize) -> (r: Cursor)
        requires
            tree@.wf(),
            start < tree@.len(),
        ensures
            r@ == (CursorModel { root: start as int, node: start as int }),
            r@.inv(tree@),
    {
        Cursor { root: start, node: start }
    }

    pub fn node(&self) -> (r: usize)
        ensures
            r == self@.node,
    {
        self.node
    }

    /// Moves to the first child of the current node, if it has one.
    pub fn goto_first_child(&mut self, tree: &SyntaxTree) -> (r: bool)
        requires
            old(self)@.inv(tree@),
        ensures
            final(self)@.inv(tree@),
            final(self)@.root == old(self)@.root,
            r == (old(self)@.node + 1 < tree@.sub_end(old(self)@.node)),
            r ==> final(self)@.node == old(self)@.node + 1 && tree@.parent(final(self)@.node)
                == old(self)@.node,
            !r ==> final(self)@ == old(self)@,
    {
        let n = self.node;
        if n + 1 < tree.node(n).subtree_end {
            proof {
                lemma_first_child_parent(tree@, n as int);
                assert(tree@.sub_end(n as int) <= tree@.sub_end(self.root as int));
            }
            self.node = n + 1;
            true
        } else {
            false
        }
    }

    /// Moves to the next sibling of the current node, if it has one inside
    /// the subtree the cursor started at.
    pub fn goto_next_sibling(&mut self, tree: &SyntaxTree) -> (r: bool)
        requires
            old(self)@.inv(tree@),
        ensures
            final(self)@.inv(tree@),
            final(self)@.root == old(self)@.root,
            r == (old(self)@.node != old(self)@.root && tree@.sub_end(old(self)@.node)
                < tree@.sub_end(tree@.parent(old(self)@.node))),
            r ==> final(self)@.node == tree@.sub_end(old(self)@.node) && tree@.parent(
                final(self)@.node,
            ) == tree@.parent(old(self)@.node),
            !r ==> final(self)@ == old(self)@,
    {
        let n = self.node;
        if n == self.root {
            return false;
        }
        proof {
            lemma_parent_in_subtree(tree@, self.root as int, n as int);
        }
        let p = tree.node(n).parent;
        let s = tree.node(n).subtree_end;
        if s < tree.node(p).subtree_end {
            proof {
                lemma_next_sibling_parent(tree@, n as int);
                assert(tree@.sub_end(p as int) <= tree@.sub_end(self.root as int));
            }
            self.node = s;
            true
        } else {
            false
        }
    }

    /// Moves to the parent of the current node, unless the cursor stands at
    /// the node it started at.
    pub fn goto_parent(&mut self, tree: &SyntaxTree) -> (r: bool)
        requires
            old(self)@.inv(tree@),
        ensures
            final(self)@.inv(tree@),
            final(self)@.root == old(self)@.root,
            r == (old(self)@.node != old(self)@.root),
            r ==> final(self)@.node == tree@.parent(old(self)@.node),
            !r ==> final(self)@ == old(self)@,
    {
        let n = self.node;
        if n == self.root {
            return false;
        }
        proof {
            lemma_parent_in_subtree(tree@, self.root as int, n as int);
        }
        self.node = tree.node(n).parent;
        true
    }
}

/// One step of a walk: a node and its depth below the node the walk started at.
pub struct WalkStep {
    pub node: usize,
    pub depth: usize,
}

/// Visits the subtree of a node in document order, one node per call of
/// `next`, moving only by cursor steps.
pub struct Walker {
    cursor: Cursor,
    depth: usize,
    done: bool,
    descents: usize,
    ascents: usize,
}

/// What a walker holds: the cursor's position, the current depth, whether
/// the walk is over, and how many steps down and up the cursor has taken.
pub ghost struct WalkerModel {
    pub root: int,
    pub node: int,
    pub depth: int,
    pub done: bool,
    pub descents: int,
    pub ascents: int,
}

impl View for Walker {
    type V = WalkerModel;

    closed spec fn view(&self) -> WalkerModel {
        WalkerModel {
            root: self.cursor@.root,
            node: self.cursor@.node,
            depth: self.depth as int,
            done: self.done,
            descents: self.descents as int,
            ascents: self.ascents as int,
        }
    }
}

impl WalkerModel {
    pub open spec fn inv(self, t: TreeModel) -> bool {
        &&& t.wf()
        &&& 0 <= self.root < t.len()
        &&& self.root <= self.node < t.sub_end(self.root)
        &&& self.descents == self.ascents + self.depth
        &&& 0 <= self.ascents
        &&& self.done ==> self.depth == 0
        &&& !self.done ==> self.depth == t.depth_in(self.root, self.node) && self.descents
            <= self.node - self.root
    }

    /// How many nodes are still to be visited.
    pub open spec fn remaining(self, t: TreeModel) -> int {
        if self.done {
            0
        } else {
            t.sub_end(self.root) - self.node
        }
    }
}

impl Walker {
    pub fn new(tree: &SyntaxTree, start: usize) -> (r: Walker)
        requires
            tree@.wf(),
            start < tree@.len(),
        ensures
            r@.inv(tree@),
            r@.root == start,
            r@.node == start,
            r@.depth == 0,
            !r@.done,
            r@.descents == 0,
            r@.ascents == 0,
    {
        Walker { cursor: Cursor::new(tree, start), depth: 0, done: false, descents: 0, ascents: 0 }
    }

    pub fn is_done(&self) -> (r: bool)
        ensures
            r == self@.done,
    {
        self.done
    }

    pub fn depth(&self) -> (r: usize)
        ensures
            r == self@.depth,
    {
        self.depth
    }

    /// Steps taken to a first child so far.
    pub fn descents(&self) -> (r: usize)
        ensures
            r == self@.descents,
    {
        self.descents
    }

    /// Steps taken to a parent so far.
    pub fn ascents(&self) -> (r: usize)
        ensures
            r == self@.ascents,
    {
        self.ascents
    }

    /// The current node and its depth, then a move to the node that follows
    /// it in document order; `None` once the whole subtree has been visited.
    /// The walk ends when the cursor can no longer step up to a parent.
    pub fn next(&mut self, tree: &SyntaxTree) -> (r: Option<WalkStep>)
        requires
            old(self)@.inv(tree@),
        ensures
            final(self)@.inv(tree@),
            final(self)@.root == old(self)@.root,
            old(self)@.done ==> r is None && final(self)@ == old(self)@,
            !old(self)@.done ==> (r matches Some(s) && s.node == old(self)@.node && s.depth
                == old(self)@.depth),
            !old(self)@.done ==> if old(self)@.node + 1 == tree@.sub_end(old(self)@.root) {
                final(self)@.done
            } else {
                !final(self)@.done && final(self)@.node == old(self)@.node + 1
            },
            final(self)@.remaining(tree@) < old(self)@.remaining(tree@) || old(self)@.done,
    {
        if self.done {
            return None;
        }
        let ghost t = tree@;
        let ghost root = self.cursor@.root;
        let ghost k = self.cursor@.node;
        let step = WalkStep { node: self.cursor.node(), depth: self.depth };
        if self.cursor.goto_first_child(tree) {
            self.depth = self.depth + 1;
            self.descents = self.descents + 1;
            proof {
                lemma_parent_in_subtree(t, root, k + 1);
            }
            return Some(step);
        }
        if self.cursor.goto_next_sibling(tree) {
            proof {
                lemma_parent_in_subtree(t, root, k);
                assert(t.sub_end(k) == k + 1);
                lemma_parent_in_subtree(t, root, k + 1);
            }
            return Some(step);
        }
        proof {
            assert(t.sub_end(k) == k + 1);
        }
        loop
            invariant
                t == tree@,
                root == old(self)@.root,
                k == old(self)@.node,
                !old(self)@.done,
                step.node == k,
                step.depth == old(self)@.depth,
                self.cursor@.inv(t),
                self.cursor@.root == root,
                !self.done,
                t.sub_end(self.cursor@.node) == k + 1,
                self.cursor@.node == root || t.sub_end(self.cursor@.node) >= t.sub_end(
                    t.parent(self.cursor@.node),
                ),
                self.depth == t.depth_in(root, self.cursor@.node),
                self.descents == self.ascents + self.depth,
                self.descents <= k - root,
            decreases self.cursor@.node - root,
        {
            let ghost c = self.cursor@.node;
            if !self.cursor.goto_parent(tree) {
                self.done = true;
                proof {
                    assert(self.depth == 0);
                }
                return Some(step);
            }
            proof {
                lemma_parent_in_subtree(t, root, c);
                assert(t.sub_end(c) <= t.sub_end(t.parent(c)));
                assert(self.depth >= 1);
            }
            self.depth = self.depth - 1;
            self.ascents = self.ascents + 1;
            let ghost pc = self.cursor@.node;
            if self.cursor.goto_next_sibling(tree) {
                proof {
                    lemma_parent_in_subtree(t, root, k + 1);
                    lemma_parent_in_subtree(t, root, pc);
                    assert(t.depth_in(root, k + 1) == 1 + t.depth_in(root, t.parent(k + 1)));
                    assert(t.depth_in(root, pc) == 1 + t.depth_in(root, t.parent(pc)));
                }
                return Some(step);
            }
        }
    }
}

/// Whether two strings hold the same characters.
pub fn same_text(a: &str, b: &str) -> (r: bool)
    ensures
        r == (a@ == b@),
{
    let x = a.as_bytes();
    let y = b.as_bytes();
    proof {
        vstd::utf8::encode_utf8_decode_utf8(a@);
        vstd::utf8::encode_utf8_decode_utf8(b@);
    }
    if x.len() != y.len() {
        return false;
    }
    let mut i: usize = 0;
    while i < x.len()
        invariant
            x@ == encode_utf8(a@),
            y@ == encode_utf8(b@),
            x@.len() == y@.len(),
            i <= x@.len(),
            forall|j: int| 0 <= j < i ==> x@[j] == y@[j],
        decreases x@.len() - i,
    {
        if x[i] != y[i] {
            return false;
        }
        i = i + 1;
    }
    proof {
        assert(x@ =~= y@);
    }
    true
}

/// Walks the whole subtree of `start`: the nodes in document order, each
/// once, with its depth below `start`, and the walker as the walk left it.
pub fn walk(tree: &SyntaxTree, start: usize) -> (r: (Vec<WalkStep>, Walker))
    requires
        tree@.wf(),
        start < tree@.len(),
    ensures
        r.0@.len() == tree@.sub_end(start as int) - start,
        forall|k: int|
            0 <= k < r.0@.len() ==> (#[trigger] r.0@[k]).node == start + k && r.0@[k].depth
                == tree@.depth_in(start as int, start + k),
        r.1@.done,
        r.1@.root == start,
        r.1@.depth == 0,
        r.1@.descents == r.1@.ascents,
{
    let ghost t = tree@;
    let mut walker = Walker::new(tree, start);
    let mut steps: Vec<WalkStep> = Vec::new();
    loop
        invariant
            t == tree@,
            walker@.inv(t),
            walker@.root == start,
            !walker@.done ==> walker@.node == start + steps@.len(),
            walker@.done ==> steps@.len() == t.sub_end(start as int) - start,
            forall|k: int|
                0 <= k < steps@.len() ==> (#[trigger] steps@[k]).node == start + k
                    && steps@[k].depth == t.depth_in(start as int, start + k),
        ensures
            walker@.done,
        decreases walker@.remaining(t),
    {
        match walker.next(tree) {
            None => {
                break ;
            },
            Some(step) => {
                steps.push(step);
            },
        }
    }
    (steps, walker)
}

/// Every node of the subtree of `root` (`root` included) whose kind is
/// `kind`, in document order.
pub fn find_descendants(tree: &SyntaxTree, root: usize, kind: &str) -> (r: Vec<usize>)
    requires
        tree@.wf(),
        root < tree@.len(),
    ensures
        r@ == tree@.descendants_of_kind(root as int, kind@),
{
    let ghost t = tree@;
    let mut walker = Walker::new(tree, root);
    let mut found: Vec<usize> = Vec::new();
    loop
        invariant
            t == tree@,
            walker@.inv(t),
            walker@.root == root,
            !walker@.done ==> found@ == t.kind_matches(kind@, root as int, walker@.node),
            walker@.done ==> found@ == t.kind_matches(kind@, root as int, t.sub_end(root as int)),
        ensures
            walker@.done,
        decreases walker@.remaining(t),
    {
        match walker.next(tree) {
            None => {
                break ;
            },
            Some(step) => {
                let node = step.node;
                if same_text(tree.kind(node), kind) {
                    found.push(node);
                }
            },
        }
    }
    found
}

/// The named children of `node`, in order, found by cursor steps.
pub fn named_children(tree: &SyntaxTree, node: usize) -> (r: Vec<usize>)
    requires
        tree@.wf(),
        node < tree@.len(),
    ensures
        r@ == tree@.named_children_of(node as int),
{
    let ghost t = tree@;
    let ghost e = t.sub_end(node as int);
    let mut cursor = Cursor::new(tree, node);
    let mut out: Vec<usize> = Vec::new();
    if !cursor.goto_first_child(tree) {
        return out;
    }
    loop
        invariant
            t == tree@,
            cursor@.inv(t),
            cursor@.root == node,
            e == t.sub_end(node as int),
            node < cursor@.node < e,
            t.parent(cursor@.node) == node,
            out@ + t.named_from(cursor@.node, e) == t.named_children_of(node as int),
        decreases e - cursor@.node,
    {
        let c = cursor.node();
        let ghost rest = t.named_from(t.sub_end(c as int), e);
        proof {
            assert(t.sub_end(c as int) <= e);
        }
        if tree.node(c).named {
            proof {
                assert(out@ + (seq![c] + rest) =~= out@.push(c) + rest);
            }
            out.push(c);
        }
        if !cursor.goto_next_sibling(tree) {
            proof {
                assert(out@ + rest =~= out@);
            }
            return out;
        }
    }
}

} // verus!

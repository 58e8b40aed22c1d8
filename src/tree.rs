use vstd::prelude::*;
use vstd::string::StringSliceAdditionalSpecFns;
use vstd::utf8::{decode_utf8, encode_utf8, is_char_boundary};

verus! {

/// One node of a syntax tree, stored in document (pre-order) position.
///
/// `start` and `end` delimit the node's bytes in the source; `parent` is the
/// index of the enclosing node (unused for the root) and `subtree_end` is one
/// past the index of the last node of the subtree rooted here.
pub struct NodeData {
    pub kind: String,
    pub start: usize,
    pub end: usize,
    pub named: bool,
    pub parent: usize,
    pub subtree_end: usize,
}

/// A place in a source text, as a row and a column both counted from 1.
#[derive(Clone, Copy, Debug, PartialEq, Eq, Structural)]
pub struct Position {
    pub row: usize,
    pub column: usize,
}

impl Position {
    /// The position of a row and a column counted from 0.
    pub fn from_point(row: usize, column: usize) -> (r: Position)
        requires
            row < usize::MAX,
            column < usize::MAX,
        ensures
            r.row == row + 1,
            r.column == column + 1,
    {
        Position { row: row + 1, column: column + 1 }
    }
}

/// The characters whose UTF-8 encoding is the byte range `[start, end)` of `src`.
pub open spec fn slice_text(src: Seq<char>, start: int, end: int) -> Seq<char> {
    decode_utf8(encode_utf8(src).subrange(start, end))
}

/// The mathematical content of a syntax tree: its source text and its nodes
/// in pre-order.
pub ghost struct TreeModel {
    pub source: Seq<char>,
    pub nodes: Seq<NodeData>,
}

impl TreeModel {
    pub open spec fn len(self) -> int {
        self.nodes.len() as int
    }

    pub open spec fn kind(self, i: int) -> Seq<char> {
        self.nodes[i].kind@
    }

    pub open spec fn sub_end(self, i: int) -> int {
        self.nodes[i].subtree_end as int
    }

    pub open spec fn parent(self, i: int) -> int {
        self.nodes[i].parent as int
    }

    pub open spec fn bytes(self) -> Seq<u8> {
        encode_utf8(self.source)
    }

    /// The source text that node `i` spans.
    pub open spec fn text(self, i: int) -> Seq<char> {
        slice_text(self.source, self.nodes[i].start as int, self.nodes[i].end as int)
    }

    pub open spec fn range_ok(self, start: int, end: int) -> bool {
        &&& 0 <= start <= end <= self.bytes().len()
        &&& is_char_boundary(self.bytes(), start)
        &&& is_char_boundary(self.bytes(), end)
    }

    /// Nested subtrees laid out in pre-order: each subtree is a contiguous
    /// index range, and a node's parent is the nearest node whose subtree
    /// encloses it.
    pub open spec fn shape_ok(self) -> bool {
        &&& self.len() > 0
        &&& self.sub_end(0) == self.len()
        &&& forall|i: int| 0 <= i < self.len() ==> i < #[trigger] self.sub_end(i) <= self.len()
        &&& forall|i: int|
            0 < i < self.len() ==> {
                let p = #[trigger] self.parent(i);
                &&& 0 <= p < i < self.sub_end(p)
                &&& self.sub_end(i) <= self.sub_end(p)
            }
        &&& forall|i: int, q: int|
            #![trigger self.parent(i), self.sub_end(q)]
            0 < i < self.len() && self.parent(i) < q < i ==> self.sub_end(q) <= i
        &&& forall|i: int, j: int|
            0 <= i < j < self.sub_end(i) && j < self.len() ==> #[trigger] self.sub_end(j)
                <= #[trigger] self.sub_end(i)
    }

    pub open spec fn ranges_ok(self) -> bool {
        forall|i: int|
            0 <= i < self.len() ==> self.range_ok(
                (#[trigger] self.nodes[i]).start as int,
                self.nodes[i].end as int,
            )
    }

    pub open spec fn wf(self) -> bool {
        self.shape_ok() && self.ranges_ok()
    }
}

/// A syntax tree over a source text: every node carries a kind label, a byte
/// range of the source and its place in the tree.
pub struct SyntaxTree {
    source: String,
    nodes: Vec<NodeData>,
}

impl View for SyntaxTree {
    type V = TreeModel;

    closed spec fn view(&self) -> TreeModel {
        TreeModel { source: self.source@, nodes: self.nodes@ }
    }
}

impl SyntaxTree {
    pub fn source(&self) -> (r: &String)
        ensures
            r@ == self@.source,
    {
        &self.source
    }

    pub fn len(&self) -> (r: usize)
        ensures
            r == self@.len(),
    {
        self.nodes.len()
    }

    /// The root is always the node at index 0.
    pub fn root(&self) -> (r: usize)
        ensures
            r == 0,
    {
        0
    }

    pub fn node(&self, i: usize) -> (r: &NodeData)
        requires
            i < self@.len(),
        ensures
            *r == self@.nodes[i as int],
    {
        &self.nodes[i]
    }

    pub fn kind(&self, i: usize) -> (r: &str)
        requires
            i < self@.len(),
        ensures
            r@ == self@.kind(i as int),
    {
        self.nodes[i].kind.as_str()
    }

    /// The exact source text of node `i`.
    pub fn text(&self, i: usize) -> (r: String)
        requires
            self@.wf(),
            i < self@.len(),
        ensures
            r@ == self@.text(i as int),
            encode_utf8(r@) == self@.bytes().subrange(
                self@.nodes[i as int].start as int,
                self@.nodes[i as int].end as int,
            ),
    {
        proof {
            assert(self@.range_ok(self@.nodes[i as int].start as int, self@.nodes[i as int].end as int));
        }
        let start = self.nodes[i].start;
        let end = self.nodes[i].end;
        let s = self.source.as_str();
        let (_, rest) = s.split_at(start);
        proof {
            vstd::utf8::encode_utf8_decode_utf8(rest@);
            let b = self@.bytes();
            vstd::utf8::encode_utf8_valid_utf8(self@.source);
            assert(rest.spec_bytes() =~= b.subrange(start as int, b.len() as int));
            assert(rest.spec_bytes().subrange(0, (end - start) as int) =~= b.subrange(start as int, end as int));
            assert(is_char_boundary(rest.spec_bytes(), (end - start) as int)) by {
                lemma_boundary_shift(b, start as int, end as int);
            }
        }
        let (mid, _) = rest.split_at(end - start);
        proof {
            vstd::utf8::encode_utf8_decode_utf8(mid@);
            assert(mid.spec_bytes() =~= self@.bytes().subrange(start as int, end as int));
        }
        mid.to_owned()
    }
}

/// The text of every node, encoded again, is exactly the bytes of the source
/// that the node's range delimits.
pub proof fn lemma_text_is_source_slice(t: TreeModel, i: int)
    requires
        t.wf(),
        0 <= i < t.len(),
    ensures
        encode_utf8(t.text(i)) == t.bytes().subrange(
            t.nodes[i].start as int,
            t.nodes[i].end as int,
        ),
{
    let b = t.bytes();
    let start = t.nodes[i].start as int;
    let end = t.nodes[i].end as int;
    assert(t.range_ok(start, end));
    vstd::utf8::encode_utf8_valid_utf8(t.source);
    vstd::utf8::valid_utf8_split(b, start);
    let rest = b.subrange(start, b.len() as int);
    lemma_boundary_shift(b, start, end);
    vstd::utf8::valid_utf8_split(rest, end - start);
    assert(rest.subrange(0, end - start) =~= b.subrange(start, end));
    vstd::utf8::decode_utf8_encode_utf8(b.subrange(start, end));
}

/// A char boundary of the whole byte sequence past a boundary `start` is a
/// boundary of the suffix that starts there.
proof fn lemma_boundary_shift(b: Seq<u8>, start: int, end: int)
    requires
        vstd::utf8::valid_utf8(b),
        0 <= start <= end <= b.len(),
        is_char_boundary(b, start),
        is_char_boundary(b, end),
    ensures
        is_char_boundary(b.subrange(start, b.len() as int), end - start),
{
    let rest = b.subrange(start, b.len() as int);
    vstd::utf8::valid_utf8_split(b, start);
    if end == b.len() {
        vstd::utf8::is_char_boundary_start_end_of_seq(rest);
    } else {
        vstd::utf8::is_char_boundary_iff_not_is_continuation_byte(b, end);
        vstd::utf8::is_char_boundary_iff_not_is_continuation_byte(rest, end - start);
        assert(rest[end - start] == b[end]);
    }
}

/// What a builder holds: the source, the nodes opened so far in pre-order,
/// and the indices of the nodes still open, outermost first.
pub ghost struct BuilderModel {
    pub source: Seq<char>,
    pub nodes: Seq<NodeData>,
    pub open: Seq<usize>,
}

impl BuilderModel {
    pub open spec fn tree(self) -> TreeModel {
        TreeModel { source: self.source, nodes: self.nodes }
    }

    pub open spec fn is_open(self, i: int) -> bool {
        self.open.contains(i as usize)
    }

    /// Where the subtree of `i` ends once every open node is closed now.
    pub open spec fn span_end(self, i: int) -> int {
        if self.is_open(i) {
            self.nodes.len() as int
        } else {
            self.nodes[i].subtree_end as int
        }
    }

    pub open spec fn inv(self) -> bool {
        let n = self.nodes.len() as int;
        let st = self.open;
        &&& forall|k: int| 0 <= k < st.len() ==> #[trigger] st[k] < n
        &&& forall|a: int, b: int| 0 <= a < b < st.len() ==> #[trigger] st[a] < #[trigger] st[b]
        &&& st.len() > 0 ==> st[0] == 0
        &&& forall|k: int| 0 < k < st.len() ==> self.nodes[#[trigger] st[k] as int].parent == st[k - 1]
        &&& forall|i: int| 0 <= i < n ==> i < #[trigger] self.span_end(i) <= n
        &&& forall|i: int|
            0 < i < n ==> {
                let p = #[trigger] self.tree().parent(i);
                &&& 0 <= p < i < self.span_end(p)
                &&& self.span_end(i) <= self.span_end(p)
            }
        &&& forall|i: int, q: int|
            #![trigger self.tree().parent(i), self.span_end(q)]
            0 < i < n && self.tree().parent(i) < q < i ==> self.span_end(q) <= i
        &&& forall|i: int, j: int|
            0 <= i < j < self.span_end(i) && j < n ==> #[trigger] self.span_end(j)
                <= #[trigger] self.span_end(i)
        &&& forall|i: int, k: int|
            #![trigger self.span_end(i), st[k]]
            0 <= i < n && !self.is_open(i) && 0 <= k < st.len() ==> !(i < st[k] < self.span_end(i))
        &&& st.len() == 0 && n > 0 ==> self.nodes[0].subtree_end == n
        &&& self.tree().ranges_ok()
    }
}

/// Builds a `SyntaxTree` from the nodes of a source text, given in document
/// order: each node is opened, its children are added, then it is closed.
pub struct TreeBuilder {
    source: String,
    nodes: Vec<NodeData>,
    open: Vec<usize>,
}

impl View for TreeBuilder {
    type V = BuilderModel;

    closed spec fn view(&self) -> BuilderModel {
        BuilderModel { source: self.source@, nodes: self.nodes@, open: self.open@ }
    }
}

impl TreeBuilder {
    pub fn new(source: String) -> (r: TreeBuilder)
        ensures
            r@.source == source@,
            r@.nodes.len() == 0,
            r@.open.len() == 0,
            r@.inv(),
    {
        TreeBuilder { source, nodes: Vec::new(), open: Vec::new() }
    }

    /// Opens a node as the next child of the innermost open node, or as the
    /// root when nothing has been added yet. Refused, with nothing changed,
    /// when the byte range is not a range of whole characters of the source,
    /// or when a complete tree has already been closed.
    #[verifier::rlimit(40)]
    pub fn open_node(&mut self, kind: String, start: usize, end: usize, named: bool) -> (r: bool)
        requires
            old(self)@.inv(),
        ensures
            final(self)@.inv(),
            r == (old(self)@.tree().range_ok(start as int, end as int) && (
            old(self)@.open.len() > 0 || old(self)@.nodes.len() == 0)),
            r ==> final(self)@.nodes == old(self)@.nodes.push(
                (NodeData {
                    kind,
                    start,
                    end,
                    named,
                    parent: if old(self)@.open.len() > 0 {
                        old(self)@.open.last()
                    } else {
                        0
                    },
                    subtree_end: 0,
                }),
            ),
            r ==> final(self)@.open == old(self)@.open.push(old(self)@.nodes.len() as usize),
            !r ==> final(self)@ == old(self)@,
            final(self)@.source == old(self)@.source,
    {
        proof {
            vstd::utf8::encode_utf8_valid_utf8(self@.source);
        }
        let len = self.source.as_str().as_bytes().len();
        if !(start <= end && end <= len && self.source.as_str().is_char_boundary(start)
            && self.source.as_str().is_char_boundary(end)) {
            return false;
        }
        let n = self.nodes.len();
        let has_open = self.open.len() > 0;
        if !has_open && n > 0 {
            return false;
        }
        let parent = if has_open {
            self.open[self.open.len() - 1]
        } else {
            0
        };
        let ghost m0 = self@;
        let node = NodeData { kind, start, end, named, parent, subtree_end: 0 };
        self.nodes.push(node);
        self.open.push(n);
        proof {
            let m = self@;
            let nn = n as int;
            assert(m.open =~= m0.open.push(n));
            assert forall|i: int| 0 <= i < nn implies m.is_open(i) == m0.is_open(i) by {
                if m.is_open(i) {
                    let k = choose|k: int| 0 <= k < m.open.len() && m.open[k] == i as usize;
                    if k < m0.open.len() {
                        assert(m0.open[k] == i as usize);
                    }
                }
                if m0.is_open(i) {
                    let k = choose|k: int| 0 <= k < m0.open.len() && m0.open[k] == i as usize;
                    assert(m.open[k] == i as usize);
                }
            }
            assert(m.is_open(nn)) by {
                assert(m.open[m0.open.len() as int] == n);
            }
            assert forall|i: int| 0 <= i < nn implies m.span_end(i) == if m0.is_open(i) {
                nn + 1
            } else {
                m0.span_end(i)
            } by {}
            assert forall|i: int| 0 <= i < nn && m0.is_open(i) implies i <= parent && (i > 0
                ==> m0.is_open(m0.tree().parent(i))) by {
                let k = choose|k: int| 0 <= k < m0.open.len() && m0.open[k] == i as usize;
                if k > 0 {
                    assert(m0.open[k - 1] == m0.tree().parent(i));
                }
                if k < m0.open.len() - 1 {
                    assert(m0.open[k] < m0.open[m0.open.len() - 1]);
                }
            }
            if has_open {
                assert(m0.is_open(parent as int)) by {
                    assert(m0.open[m0.open.len() - 1] == parent);
                }
            }
            let t = m.tree();
            assert(t.parent(nn) == parent);
            assert forall|i: int| 0 <= i < nn implies t.parent(i) == m0.tree().parent(i) by {
                assert(m.nodes[i] == m0.nodes[i]);
            }
            assert forall|i: int| 0 <= i <= nn implies i < #[trigger] m.span_end(i) <= nn + 1 by {}
            assert forall|i: int| 0 < i <= nn implies {
                let p = #[trigger] t.parent(i);
                &&& 0 <= p < i < m.span_end(p)
                &&& m.span_end(i) <= m.span_end(p)
            } by {
                if i < nn {
                    let p = m0.tree().parent(i);
                    if m0.is_open(i) {
                        assert(m0.is_open(p));
                    }
                }
            }
            assert forall|i: int, q: int|
                #![trigger t.parent(i), m.span_end(q)]
                0 < i <= nn && t.parent(i) < q < i implies m.span_end(q) <= i by {
                if i < nn {
                    assert(m0.span_end(q) <= i);
                } else {
                    assert(q > parent);
                    if m0.is_open(q) {
                        assert(q <= parent);
                    }
                }
            }
            assert forall|i: int, j: int|
                0 <= i < j < m.span_end(i) && j <= nn implies #[trigger] m.span_end(j)
                    <= #[trigger] m.span_end(i) by {
                if j < nn && !m0.is_open(i) {
                    assert(m0.span_end(j) <= m0.span_end(i));
                    if m0.is_open(j) {
                        let k = choose|k: int| 0 <= k < m0.open.len() && m0.open[k] == j as usize;
                        assert(!(i < m0.open[k] < m0.span_end(i)));
                    }
                }
            }
            assert forall|i: int, k: int|
                #![trigger m.span_end(i), m.open[k]]
                0 <= i <= nn && !m.is_open(i) && 0 <= k < m.open.len() implies !(i < m.open[k]
                    < m.span_end(i)) by {
                if k < m0.open.len() {
                    assert(m.open[k] == m0.open[k]);
                }
            }
            assert forall|k: int| 0 < k < m.open.len() implies m.nodes[#[trigger] m.open[k] as int].parent
                == m.open[k - 1] by {
                if k < m0.open.len() {
                    assert(m.open[k] == m0.open[k]);
                    assert(m.nodes[m0.open[k] as int] == m0.nodes[m0.open[k] as int]);
                }
            }
            assert(m.tree().ranges_ok()) by {
                assert forall|i: int| 0 <= i < m.nodes.len() implies m.tree().range_ok(
                    (#[trigger] m.nodes[i]).start as int,
                    m.nodes[i].end as int,
                ) by {
                    if i < nn {
                        assert(m0.tree().nodes[i] == m0.nodes[i]);
                        assert(m.nodes[i] == m0.nodes[i]);
                    }
                }
            }
        }
        true
    }

    /// Closes the innermost open node. Refused when no node is open.
    pub fn close_node(&mut self) -> (r: bool)
        requires
            old(self)@.inv(),
        ensures
            final(self)@.inv(),
            r == (old(self)@.open.len() > 0),
            r ==> final(self)@.open == old(self)@.open.drop_last(),
            r ==> final(self)@.nodes == old(self)@.nodes.update(
                old(self)@.open.last() as int,
                (NodeData {
                    subtree_end: old(self)@.nodes.len() as usize,
                    ..old(self)@.nodes[old(self)@.open.last() as int]
                }),
            ),
            !r ==> final(self)@ == old(self)@,
            final(self)@.source == old(self)@.source,
    {
        if self.open.len() == 0 {
            return false;
        }
        let ghost m0 = self@;
        let top = self.open.pop().unwrap();
        let n = self.nodes.len();
        self.nodes[top].subtree_end = n;
        proof {
            let m = self@;
            let t = top as int;
            assert(m.nodes =~= m0.nodes.update(
                t,
                NodeData { subtree_end: n, ..m0.nodes[t] },
            ));
            assert(m.open =~= m0.open.drop_last());
            assert forall|i: int| 0 <= i < n && i != t implies m.is_open(i) == m0.is_open(i) by {
                if m0.is_open(i) {
                    let k = choose|k: int| 0 <= k < m0.open.len() && m0.open[k] == i as usize;
                    assert(m.open[k] == i as usize);
                }
            }
            assert(!m.is_open(t)) by {
                if m.is_open(t) {
                    let k = choose|k: int| 0 <= k < m.open.len() && m.open[k] == top;
                    assert(m0.open[k] < m0.open[m0.open.len() - 1]);
                }
            }
            assert(m0.is_open(t)) by {
                assert(m0.open[m0.open.len() - 1] == top);
            }
            assert forall|i: int| 0 <= i < n implies m.span_end(i) == m0.span_end(i) by {}
            assert forall|i: int| 0 <= i < n implies m.tree().parent(i) == m0.tree().parent(i) by {}
            assert(m.tree().ranges_ok()) by {
                assert forall|i: int| 0 <= i < m.nodes.len() implies m.tree().range_ok(
                    (#[trigger] m.nodes[i]).start as int,
                    m.nodes[i].end as int,
                ) by {
                    assert(m0.tree().nodes[i] == m0.nodes[i]);
                    assert(m0.nodes[i].start == m.nodes[i].start);
                }
            }
            if m.open.len() == 0 {
                assert(t == 0);
            }
        }
        true
    }

    /// The finished tree: present exactly when a root was added and every
    /// node has been closed.
    pub fn finish(self) -> (r: Option<SyntaxTree>)
        requires
            self@.inv(),
        ensures
            r is Some <==> (self@.open.len() == 0 && self@.nodes.len() > 0),
            r matches Some(t) ==> t@ == self@.tree() && t@.wf(),
    {
        if self.open.len() == 0 && self.nodes.len() > 0 {
            proof {
                let m = self@;
                assert forall|i: int| 0 <= i < m.nodes.len() implies !m.is_open(i) by {}
                assert forall|i: int| 0 <= i < m.nodes.len() implies m.span_end(i)
                    == m.tree().sub_end(i) by {}
                assert forall|i: int| 0 <= i < m.nodes.len() implies m.tree().parent(i)
                    == m.nodes[i].parent by {}
                let t = m.tree();
                assert forall|i: int| 0 <= i < t.len() implies i < #[trigger] t.sub_end(i) <= t.len() by {
                    assert(m.span_end(i) == t.sub_end(i));
                }
                assert forall|i: int| 0 < i < t.len() implies {
                    let p = #[trigger] t.parent(i);
                    &&& 0 <= p < i < t.sub_end(p)
                    &&& t.sub_end(i) <= t.sub_end(p)
                } by {
                    let p = t.parent(i);
                    assert(m.span_end(i) == t.sub_end(i));
                    assert(m.span_end(p) == t.sub_end(p));
                }
                assert forall|i: int, q: int|
                    #![trigger t.parent(i), t.sub_end(q)]
                    0 < i < t.len() && t.parent(i) < q < i implies t.sub_end(q) <= i by {
                    assert(m.span_end(q) == t.sub_end(q));
                }
                assert forall|i: int, j: int|
                    0 <= i < j < t.sub_end(i) && j < t.len() implies #[trigger] t.sub_end(j)
                        <= #[trigger] t.sub_end(i) by {
                    assert(m.span_end(i) == t.sub_end(i));
                    assert(m.span_end(j) == t.sub_end(j));
                }
                assert(t.shape_ok());
            }
            Some(SyntaxTree { source: self.source, nodes: self.nodes })
        } else {
            None
        }
    }
}

} // verus!

use vstd::prelude::*;

verus! {

/// A node of the raw (and, after aggregation, the aggregated) tree.
/// Before aggregation `size` is the path's own resolved size only;
/// after aggregation it also includes the sizes of all retained children.
pub struct Node {
    pub name: String,
    pub size: u64,
    pub children: Vec<Node>,
    pub inode_device: Option<(u64, u64)>,
}

/// Mathematical model of a `Node`: sizes are unbounded integers so that
/// aggregate sums can be written without overflow concerns.
#[verifier::ext_equal]
pub ghost struct NodeView {
    pub name: Seq<char>,
    pub size: int,
    pub children: Seq<NodeView>,
    pub inode_device: Option<(u64, u64)>,
}

impl Node {
    pub open spec fn view(self) -> NodeView
        decreases self,
    {
        NodeView {
            name: self.name@,
            size: self.size as int,
            children: node_views(self.children@),
            inode_device: self.inode_device,
        }
    }
}

/// The models of a sequence of nodes, in order.
pub open spec fn node_views(s: Seq<Node>) -> Seq<NodeView>
    decreases s,
{
    if s.len() == 0 {
        Seq::empty()
    } else {
        seq![s[0]@] + node_views(s.drop_first())
    }
}

/// What the node builder returns: `None` when the path's own metadata could
/// not be resolved (the node and its subtree are dropped), otherwise a node
/// carrying the path's own size — a unit count of one in file-count mode —
/// and its hardlink identity.
pub open spec fn build_node_spec(
    name: Seq<char>,
    children: Seq<NodeView>,
    metadata: Option<(u64, Option<(u64, u64)>)>,
    by_filecount: bool,
) -> Option<NodeView> {
    match metadata {
        Option::None => Option::None,
        Option::Some((size, inode_device)) => Option::Some(
            NodeView {
                name: name,
                size: if by_filecount { 1 } else { size as int },
                children: children,
                inode_device: inode_device,
            },
        ),
    }
}

/// Builds one tree node from a path, its already-built children, and the
/// outcome of the metadata resolver for that path. A failed resolution
/// yields no node at all.
pub fn build_node(
    dir: String,
    children: Vec<Node>,
    metadata: Option<(u64, Option<(u64, u64)>)>,
    by_filecount: bool,
) -> (r: Option<Node>)
    ensures
        opt_node_view(r) == build_node_spec(dir@, node_views(children@), metadata, by_filecount),
{
    match metadata {
        Option::Some((size, inode_device)) => {
            let own: u64 = if by_filecount {
                1
            } else {
                size
            };
            Option::Some(
                Node { name: dir, size: own, children: children, inode_device: inode_device },
            )
        },
        Option::None => Option::None,
    }
}

/// The model of an optional node.
pub open spec fn opt_node_view(o: Option<Node>) -> Option<NodeView> {
    match o {
        Option::None => Option::None,
        Option::Some(n) => Option::Some(n@),
    }
}

/// A node sequence and its model have the same length.
pub proof fn lemma_node_views_len(s: Seq<Node>)
    ensures
        node_views(s).len() == s.len(),
    decreases s.len(),
{
    if s.len() > 0 {
        lemma_node_views_len(s.drop_first());
    }
}

/// The model of a node sequence at one index is that node's model.
pub proof fn lemma_node_views_index(s: Seq<Node>, i: int)
    requires
        0 <= i < s.len(),
    ensures
        node_views(s).len() == s.len(),
        node_views(s)[i] == s[i]@,
    decreases s.len(),
{
    lemma_node_views_len(s);
    if i > 0 {
        lemma_node_views_index(s.drop_first(), i - 1);
    }
}

/// Pushing a node onto a vector appends its model.
pub proof fn lemma_node_views_push(s: Seq<Node>, n: Node)
    ensures
        node_views(s.push(n)) == node_views(s) + seq![n@],
{
    lemma_node_views_len(s);
    lemma_node_views_len(s.push(n));
    assert forall|i: int| 0 <= i < s.push(n).len() implies node_views(s.push(n))[i] == (node_views(
        s,
    ) + seq![n@])[i] by {
        lemma_node_views_index(s.push(n), i);
        if i < s.len() {
            lemma_node_views_index(s, i);
        }
    }
    assert(node_views(s.push(n)) =~= node_views(s) + seq![n@]);
}

/// The display shape of an aggregated tree, handed to the rendering layer:
/// the hardlink identity token has no display meaning and is dropped.
pub struct DisplayNode {
    pub name: String,
    pub size: u64,
    pub children: Vec<DisplayNode>,
}

/// Mathematical model of a `DisplayNode`.
#[verifier::ext_equal]
pub ghost struct DisplayNodeView {
    pub name: Seq<char>,
    pub size: int,
    pub children: Seq<DisplayNodeView>,
}

impl DisplayNode {
    pub open spec fn view(self) -> DisplayNodeView
        decreases self,
    {
        DisplayNodeView {
            name: self.name@,
            size: self.size as int,
            children: display_views(self.children@),
        }
    }

    /// How many children this node has.
    pub fn num_siblings(&self) -> (r: u64)
        ensures
            r == self@.children.len(),
    {
        proof {
            lemma_display_views_len(self.children@);
        }
        self.children.len() as u64
    }

    /// The node's children, in stored order, or in reversed order when
    /// reversed iteration was requested.
    pub fn get_children_from_node(&self, is_reversed: bool) -> (r: Vec<DisplayNode>)
        ensures
            display_views(r@) == if is_reversed {
                self@.children.reverse()
            } else {
                self@.children
            },
    {
        proof {
            lemma_display_views_len(self.children@);
        }
        let mut out: Vec<DisplayNode> = Vec::new();
        if is_reversed {
            let mut i: usize = self.children.len();
            while i > 0
                invariant
                    0 <= i <= self.children.len(),
                    out@.len() == self.children@.len() - i,
                    self@.children.len() == self.children@.len(),
                    forall|j: int|
                        0 <= j < out@.len() ==> #[trigger] out@[j]@ == self@.children[self.children@.len()
                            - 1 - j],
                decreases i,
            {
                i = i - 1;
                let c = clone_display(&self.children[i]);
                proof {
                    lemma_display_views_index(self.children@, i as int);
                }
                out.push(c);
            }
            proof {
                lemma_display_views_len(out@);
                assert forall|j: int| 0 <= j < out@.len() implies display_views(out@)[j]
                    == self@.children.reverse()[j] by {
                    lemma_display_views_index(out@, j);
                }
                assert(display_views(out@) =~= self@.children.reverse());
            }
        } else {
            let mut i: usize = 0;
            while i < self.children.len()
                invariant
                    0 <= i <= self.children.len(),
                    out@.len() == i,
                    self@.children.len() == self.children@.len(),
                    forall|j: int| 0 <= j < i ==> #[trigger] out@[j]@ == self@.children[j],
                decreases self.children.len() - i,
            {
                let c = clone_display(&self.children[i]);
                proof {
                    lemma_display_views_index(self.children@, i as int);
                }
                out.push(c);
                i = i + 1;
            }
            proof {
                lemma_display_views_len(out@);
                assert forall|j: int| 0 <= j < out@.len() implies display_views(out@)[j]
                    == self@.children[j] by {
                    lemma_display_views_index(out@, j);
                }
                assert(display_views(out@) =~= self@.children);
            }
        }
        out
    }
}

impl DisplayNode {
    /// Whether this node sorts at or before `other` for presentation:
    /// primary key size ascending, secondary key name ascending.
    pub fn le(&self, other: &DisplayNode) -> (r: bool)
        ensures
            r == display_le(self@, other@),
    {
        if self.size != other.size {
            self.size < other.size
        } else {
            names_le(&self.name, &other.name)
        }
    }
}

impl Node {
    /// The same order as the display shape uses: size ascending, then name
    /// ascending.
    pub fn le(&self, other: &Node) -> (r: bool)
        ensures
            r == (self@.size < other@.size || (self@.size == other@.size && lex_le(
                self@.name,
                other@.name,
            ))),
    {
        if self.size != other.size {
            self.size < other.size
        } else {
            names_le(&self.name, &other.name)
        }
    }
}

impl Clone for DisplayNode {
    /// A clone models the same tree.
    fn clone(&self) -> (res: Self)
        ensures
            res@ == self@,
    {
        clone_display(self)
    }
}

/// The display shape of a tree: the same names, sizes and children, with
/// the hardlink identity token dropped.
pub open spec fn display_of(n: NodeView) -> DisplayNodeView
    decreases n, 0int,
{
    DisplayNodeView { name: n.name, size: n.size, children: display_of_seq(n.children) }
}

/// The display shapes of a forest, in order.
pub open spec fn display_of_seq(s: Seq<NodeView>) -> Seq<DisplayNodeView>
    decreases s, 1int,
{
    if s.len() == 0 {
        Seq::empty()
    } else {
        seq![display_of(s[0])] + display_of_seq(s.drop_first())
    }
}

/// The display shape of a forest at one index is that tree's display shape.
pub proof fn lemma_display_of_seq_index(s: Seq<NodeView>, i: int)
    requires
        0 <= i < s.len(),
    ensures
        display_of_seq(s).len() == s.len(),
        display_of_seq(s)[i] == display_of(s[i]),
    decreases s.len(),
{
    lemma_display_of_seq_len(s);
    if i > 0 {
        lemma_display_of_seq_index(s.drop_first(), i - 1);
    }
}

/// A forest and its display shape have the same length.
pub proof fn lemma_display_of_seq_len(s: Seq<NodeView>)
    ensures
        display_of_seq(s).len() == s.len(),
    decreases s.len(),
{
    if s.len() > 0 {
        lemma_display_of_seq_len(s.drop_first());
    }
}

/// Converts an aggregated tree to the display shape handed to rendering:
/// the identity token is dropped, everything else carries over unchanged.
pub fn to_display(n: &Node) -> (r: DisplayNode)
    ensures
        r@ == display_of(n@),
    decreases *n,
{
    let mut kids: Vec<DisplayNode> = Vec::new();
    let mut i: usize = 0;
    proof {
        lemma_node_views_len(n.children@);
    }
    while i < n.children.len()
        invariant
            0 <= i <= n.children.len(),
            kids@.len() == i,
            n@.children.len() == n.children@.len(),
            forall|j: int| 0 <= j < i ==> #[trigger] kids@[j]@ == display_of(n@.children[j]),
        decreases n.children.len() - i,
    {
        let c = to_display(&n.children[i]);
        proof {
            lemma_node_views_index(n.children@, i as int);
        }
        kids.push(c);
        i = i + 1;
    }
    proof {
        lemma_display_views_len(kids@);
        lemma_display_of_seq_len(n@.children);
        assert forall|j: int| 0 <= j < kids@.len() implies display_views(kids@)[j] == display_of_seq(
            n@.children,
        )[j] by {
            lemma_display_views_index(kids@, j);
            lemma_display_of_seq_index(n@.children, j);
        }
        assert(display_views(kids@) =~= display_of_seq(n@.children));
    }
    let r = DisplayNode { name: n.name.clone(), size: n.size, children: kids };
    proof {
        assert(r@ =~= display_of(n@));
    }
    r
}

/// Lexicographic order on names, by character code point: the empty name
/// comes first, then by the first differing character.
pub open spec fn lex_le(a: Seq<char>, b: Seq<char>) -> bool
    decreases a.len(),
{
    if a.len() == 0 {
        true
    } else if b.len() == 0 {
        false
    } else if a[0] == b[0] {
        lex_le(a.drop_first(), b.drop_first())
    } else {
        (a[0] as u32) < (b[0] as u32)
    }
}

/// The display order: primary key size ascending, secondary key name
/// ascending.
pub open spec fn display_le(a: DisplayNodeView, b: DisplayNodeView) -> bool {
    a.size < b.size || (a.size == b.size && lex_le(a.name, b.name))
}

/// A shared prefix of equal characters does not decide the order.
pub proof fn lemma_lex_le_skip(a: Seq<char>, b: Seq<char>, i: int)
    requires
        0 <= i <= a.len(),
        i <= b.len(),
        forall|j: int| 0 <= j < i ==> a[j] == b[j],
    ensures
        lex_le(a, b) == lex_le(a.skip(i), b.skip(i)),
    decreases i,
{
    if i == 0 {
        assert(a.skip(0) =~= a);
        assert(b.skip(0) =~= b);
    } else {
        lemma_lex_le_skip(a, b, i - 1);
        assert(a.skip(i - 1).drop_first() =~= a.skip(i));
        assert(b.skip(i - 1).drop_first() =~= b.skip(i));
        assert(a.skip(i - 1)[0] == a[i - 1]);
        assert(b.skip(i - 1)[0] == b[i - 1]);
        assert(a.skip(i - 1).len() > 0);
        assert(b.skip(i - 1).len() > 0);
    }
}

/// Compares two names in lexicographic character order.
pub fn names_le(a: &String, b: &String) -> (r: bool)
    ensures
        r == lex_le(a@, b@),
{
    let alen = a.as_str().unicode_len();
    let blen = b.as_str().unicode_len();
    let mut i: usize = 0;
    while i < alen && i < blen
        invariant
            0 <= i <= alen,
            i <= blen,
            alen == a@.len(),
            blen == b@.len(),
            forall|j: int| 0 <= j < i ==> a@[j] == b@[j],
        decreases alen - i,
    {
        let ca = a.as_str().get_char(i);
        let cb = b.as_str().get_char(i);
        if ca != cb {
            proof {
                lemma_lex_le_skip(a@, b@, i as int);
                assert(a@.skip(i as int)[0] == a@[i as int]);
                assert(b@.skip(i as int)[0] == b@[i as int]);
                assert(a@.skip(i as int).len() > 0);
                assert(b@.skip(i as int).len() > 0);
            }
            return (ca as u32) < (cb as u32);
        }
        i += 1;
    }
    proof {
        lemma_lex_le_skip(a@, b@, i as int);
        if i == alen {
            assert(a@.skip(i as int).len() == 0);
        } else {
            assert(b@.skip(i as int).len() == 0);
            assert(a@.skip(i as int).len() > 0);
        }
    }
    alen <= blen
}

/// The models of a sequence of display nodes, in order.
pub open spec fn display_views(s: Seq<DisplayNode>) -> Seq<DisplayNodeView>
    decreases s,
{
    if s.len() == 0 {
        Seq::empty()
    } else {
        seq![s[0]@] + display_views(s.drop_first())
    }
}

/// A display node sequence and its model have the same length.
pub proof fn lemma_display_views_len(s: Seq<DisplayNode>)
    ensures
        display_views(s).len() == s.len(),
    decreases s.len(),
{
    if s.len() > 0 {
        lemma_display_views_len(s.drop_first());
    }
}

/// The model of a display node sequence at one index is that node's model.
pub proof fn lemma_display_views_index(s: Seq<DisplayNode>, i: int)
    requires
        0 <= i < s.len(),
    ensures
        display_views(s).len() == s.len(),
        display_views(s)[i] == s[i]@,
    decreases s.len(),
{
    lemma_display_views_len(s);
    if i > 0 {
        lemma_display_views_index(s.drop_first(), i - 1);
    }
}

/// Copies a display tree; the copy models the same tree.
pub fn clone_display(n: &DisplayNode) -> (r: DisplayNode)
    ensures
        r@ == n@,
    decreases *n,
{
    let mut kids: Vec<DisplayNode> = Vec::new();
    let mut i: usize = 0;
    while i < n.children.len()
        invariant
            0 <= i <= n.children.len(),
            kids@.len() == i,
            forall|j: int| 0 <= j < i ==> #[trigger] kids@[j]@ == n.children@[j]@,
        decreases n.children.len() - i,
    {
        let c = clone_display(&n.children[i]);
        kids.push(c);
        i = i + 1;
    }
    proof {
        lemma_display_views_len(kids@);
        lemma_display_views_len(n.children@);
        assert forall|j: int| 0 <= j < kids@.len() implies display_views(kids@)[j] == display_views(
            n.children@,
        )[j] by {
            lemma_display_views_index(kids@, j);
            lemma_display_views_index(n.children@, j);
        }
        assert(display_views(kids@) =~= display_views(n.children@));
    }
    let r = DisplayNode { name: n.name.clone(), size: n.size, children: kids };
    proof {
        assert(r@ =~= n@);
    }
    r
}

/// The sum of the sizes carried by a sequence of nodes.
pub open spec fn sum_sizes(s: Seq<NodeView>) -> int
    decreases s.len(),
{
    if s.len() == 0 {
        0
    } else {
        s[0].size + sum_sizes(s.drop_first())
    }
}

/// A node model is well formed when every size in it fits a machine word.
/// The model of every executable `Node` is well formed.
pub open spec fn view_wf(n: NodeView) -> bool
    decreases n,
{
    &&& 0 <= n.size <= u64::MAX
    &&& forall|i: int| 0 <= i < n.children.len() ==> view_wf(#[trigger] n.children[i])
}

/// Every node of the sequence is well formed.
pub open spec fn seq_wf(s: Seq<NodeView>) -> bool {
    forall|i: int| 0 <= i < s.len() ==> view_wf(#[trigger] s[i])
}

/// The total of all sizes in a raw tree: the root's own size plus,
/// recursively, the total of every node below it.
pub open spec fn raw_total(n: NodeView) -> int
    decreases n, 0int,
{
    n.size + raw_total_seq(n.children)
}

/// The total of all sizes in a forest of raw trees.
pub open spec fn raw_total_seq(s: Seq<NodeView>) -> int
    decreases s, 1int,
{
    if s.len() == 0 {
        0
    } else {
        raw_total(s[0]) + raw_total_seq(s.drop_first())
    }
}

/// The height of a node model: one more than the tallest child.
pub open spec fn node_height(n: NodeView) -> nat
    decreases n, 0int,
{
    1 + forest_height(n.children)
}

/// The height of the tallest tree of a forest.
pub open spec fn forest_height(s: Seq<NodeView>) -> nat
    decreases s, 1int,
{
    if s.len() == 0 {
        0
    } else {
        let h = node_height(s[0]);
        let r = forest_height(s.drop_first());
        if h > r {
            h
        } else {
            r
        }
    }
}

/// No tree of a forest is taller than the forest.
pub proof fn lemma_forest_height_index(s: Seq<NodeView>, i: int)
    requires
        0 <= i < s.len(),
    ensures
        node_height(s[i]) <= forest_height(s),
    decreases s.len(),
{
    if i > 0 {
        lemma_forest_height_index(s.drop_first(), i - 1);
    }
}

/// The model of every executable node is well formed.
pub proof fn lemma_node_view_wf(n: Node)
    ensures
        view_wf(n@),
    decreases n,
{
    lemma_node_views_len(n.children@);
    assert forall|i: int| 0 <= i < n@.children.len() implies view_wf(#[trigger] n@.children[i]) by {
        lemma_node_views_index(n.children@, i);
        lemma_node_view_wf(n.children@[i]);
    }
}

/// A forest of well-formed trees has a nonnegative total.
pub proof fn lemma_raw_total_seq_nonneg(s: Seq<NodeView>)
    requires
        seq_wf(s),
    ensures
        raw_total_seq(s) >= 0,
    decreases s, 1int,
{
    if s.len() > 0 {
        lemma_raw_total_nonneg(s[0]);
        assert(seq_wf(s.drop_first())) by {
            assert(forall|i: int|
                0 <= i < s.drop_first().len() ==> #[trigger] s.drop_first()[i] == s[i + 1]);
        }
        lemma_raw_total_seq_nonneg(s.drop_first());
    }
}

/// A well-formed tree has a total at least its own size, which is nonnegative.
pub proof fn lemma_raw_total_nonneg(n: NodeView)
    requires
        view_wf(n),
    ensures
        raw_total(n) >= n.size >= 0,
    decreases n, 0int,
{
    assert(seq_wf(n.children));
    lemma_raw_total_seq_nonneg(n.children);
}

/// One well-formed tree of a forest contributes no more than the whole forest.
pub proof fn lemma_raw_total_seq_index(s: Seq<NodeView>, i: int)
    requires
        seq_wf(s),
        0 <= i < s.len(),
    ensures
        raw_total(s[i]) <= raw_total_seq(s),
    decreases s.len(),
{
    assert(seq_wf(s.drop_first())) by {
        assert(forall|j: int|
            0 <= j < s.drop_first().len() ==> #[trigger] s.drop_first()[j] == s[j + 1]);
    }
    if i == 0 {
        lemma_raw_total_seq_nonneg(s.drop_first());
    } else {
        lemma_raw_total_nonneg(s[0]);
        lemma_raw_total_seq_index(s.drop_first(), i - 1);
    }
}

/// Appending one tree to a forest adds its total.
pub proof fn lemma_raw_total_seq_snoc(s: Seq<NodeView>)
    requires
        s.len() > 0,
    ensures
        raw_total_seq(s) == raw_total_seq(s.drop_last()) + raw_total(s.last()),
    decreases s.len(),
{
    if s.len() == 1 {
        assert(s.drop_first() =~= Seq::<NodeView>::empty());
        assert(s.drop_last() =~= Seq::<NodeView>::empty());
    } else {
        lemma_raw_total_seq_snoc(s.drop_first());
        assert(s.drop_first().drop_last() =~= s.drop_last().drop_first());
        assert(s.drop_first().last() == s.last());
        assert(s.drop_last()[0] == s[0]);
        assert(s.drop_last().len() > 0);
    }
}

/// A prefix of a well-formed forest has a total no more than the whole.
pub proof fn lemma_raw_total_seq_take_le(s: Seq<NodeView>, k: int)
    requires
        seq_wf(s),
        0 <= k <= s.len(),
    ensures
        raw_total_seq(s.take(k)) <= raw_total_seq(s),
    decreases s.len() - k,
{
    if k == s.len() {
        assert(s.take(k) =~= s);
    } else {
        lemma_raw_total_seq_take_le(s, k + 1);
        assert(s.take(k + 1).drop_last() =~= s.take(k));
        assert(s.take(k + 1).last() == s[k]);
        lemma_raw_total_seq_snoc(s.take(k + 1));
        lemma_raw_total_nonneg(s[k]);
        assert(seq_wf(s[k].children));
        lemma_raw_total_seq_nonneg(s[k].children);
    }
}

/// Appending one node to a sequence adds its size to the sum.
pub proof fn lemma_sum_sizes_snoc(s: Seq<NodeView>, m: NodeView)
    ensures
        sum_sizes(s + seq![m]) == sum_sizes(s) + m.size,
    decreases s.len(),
{
    assert((s + seq![m]).len() == s.len() + 1);
    assert(sum_sizes(s + seq![m]) == (s + seq![m])[0].size + sum_sizes((s + seq![m]).drop_first()));
    if s.len() == 0 {
        assert((s + seq![m]).drop_first() =~= Seq::<NodeView>::empty());
        assert((s + seq![m])[0] == m);
    } else {
        lemma_sum_sizes_snoc(s.drop_first(), m);
        assert((s + seq![m]).drop_first() =~= s.drop_first() + seq![m]);
        assert((s + seq![m])[0] == s[0]);
    }
}

} // verus!

use vstd::prelude::*;

use crate::node::{
    build_node, build_node_spec, lemma_node_view_wf, lemma_node_views_index, lemma_node_views_len,
    lemma_forest_height_index, lemma_node_views_push, lemma_raw_total_nonneg,
    lemma_raw_total_seq_index, lemma_raw_total_seq_nonneg, lemma_raw_total_seq_take_le, node_height,
    lemma_sum_sizes_snoc, node_views, opt_node_view, raw_total, raw_total_seq, seq_wf, sum_sizes,
    view_wf, Node, NodeView,
};

verus! {

/// What kind of thing a directory entry is, as reported by the listing.
pub enum EntryKind {
    Directory,
    Symlink,
    Other,
}

/// A snapshot of one filesystem path as the platform reported it: its full
/// path, its final name component, its entry kind (`None` when the kind could
/// not be determined), the outcome of the metadata resolver for the path, and
/// — for directories — the listing outcome and the listed entries.
pub struct FsEntry {
    pub path: String,
    pub name: String,
    pub kind: Option<EntryKind>,
    pub metadata: Option<(u64, Option<(u64, u64)>)>,
    pub listing_failed: bool,
    pub entries: Vec<FsEntry>,
}

/// Mathematical model of an `FsEntry`.
#[verifier::ext_equal]
pub ghost struct FsView {
    pub path: Seq<char>,
    pub name: Seq<char>,
    pub kind: Option<EntryKind>,
    pub metadata: Option<(u64, Option<(u64, u64)>)>,
    pub listing_failed: bool,
    pub entries: Seq<FsView>,
}

impl FsEntry {
    pub open spec fn view(self) -> FsView
        decreases self,
    {
        FsView {
            path: self.path@,
            name: self.name@,
            kind: self.kind,
            metadata: self.metadata,
            listing_failed: self.listing_failed,
            entries: fs_views(self.entries@),
        }
    }
}

/// The models of a sequence of snapshot entries, in order.
pub open spec fn fs_views(s: Seq<FsEntry>) -> Seq<FsView>
    decreases s,
{
    if s.len() == 0 {
        Seq::empty()
    } else {
        seq![s[0]@] + fs_views(s.drop_first())
    }
}

/// A name marks a hidden entry when it begins with the hidden marker `'.'`.
pub open spec fn is_hidden(name: Seq<char>) -> bool {
    name.len() > 0 && name[0] == '.'
}

/// An optional node as a sequence of zero or one nodes.
pub open spec fn opt_seq(o: Option<NodeView>) -> Seq<NodeView> {
    match o {
        Option::None => Seq::empty(),
        Option::Some(n) => seq![n],
    }
}

/// The raw tree (and failure flag) that walking one snapshot produces: the
/// children come from the listing — none at all when the listing failed,
/// which also raises the flag — and the directory's own node is built from
/// its own metadata alone.
pub open spec fn walk_spec(fs: FsView, ignore: Seq<Seq<char>>, by_filecount: bool, show_hidden: bool) -> (Option<
    NodeView,
>, bool)
    decreases fs, 0int,
{
    let (children, failed) = if fs.listing_failed {
        (Seq::<NodeView>::empty(), true)
    } else {
        walk_entries_spec(fs.entries, ignore, by_filecount, show_hidden)
    };
    (build_node_spec(fs.path, children, fs.metadata, by_filecount), failed)
}

/// How one listed entry is treated: hidden-and-not-requested or ignored
/// entries contribute nothing and record no failure; an entry whose kind is
/// unknown records a failure and is skipped; a symbolic link becomes a leaf
/// built from its own metadata — its target is never followed; a directory
/// is walked recursively; anything else becomes a leaf.
pub open spec fn process_entry_spec(e: FsView, ignore: Seq<Seq<char>>, by_filecount: bool, show_hidden: bool) -> (Option<
    NodeView,
>, bool)
    decreases e, 1int,
{
    if (is_hidden(e.name) && !show_hidden) || ignore.contains(e.path) {
        (Option::None, false)
    } else {
        match e.kind {
            Option::None => (Option::None, true),
            Option::Some(EntryKind::Symlink) => (
                build_node_spec(e.path, Seq::empty(), e.metadata, by_filecount),
                false,
            ),
            Option::Some(EntryKind::Directory) => walk_spec(e, ignore, by_filecount, show_hidden),
            Option::Some(EntryKind::Other) => (
                build_node_spec(e.path, Seq::empty(), e.metadata, by_filecount),
                false,
            ),
        }
    }
}

/// All listed entries of one directory, in listing order; the failure flag
/// is the disjunction over the entries.
pub open spec fn walk_entries_spec(es: Seq<FsView>, ignore: Seq<Seq<char>>, by_filecount: bool, show_hidden: bool) -> (Seq<
    NodeView,
>, bool)
    decreases es, 2int,
{
    if es.len() == 0 {
        (Seq::empty(), false)
    } else {
        let (first, f0) = process_entry_spec(es[0], ignore, by_filecount, show_hidden);
        let (rest, f1) = walk_entries_spec(es.drop_first(), ignore, by_filecount, show_hidden);
        (opt_seq(first) + rest, f0 || f1)
    }
}

/// Appending one entry to a walked listing appends its processed result.
pub proof fn lemma_walk_entries_snoc(es: Seq<FsView>, ignore: Seq<Seq<char>>, by_filecount: bool, show_hidden: bool)
    requires
        es.len() > 0,
    ensures
        ({
            let (front, f0) = walk_entries_spec(es.drop_last(), ignore, by_filecount, show_hidden);
            let (last, f1) = process_entry_spec(es.last(), ignore, by_filecount, show_hidden);
            walk_entries_spec(es, ignore, by_filecount, show_hidden) == ((front + opt_seq(last), f0
                || f1))
        }),
    decreases es.len(),
{
    if es.len() == 1 {
        assert(es.drop_last() =~= Seq::<FsView>::empty());
        assert(es.drop_first() =~= Seq::<FsView>::empty());
        let (last, f1) = process_entry_spec(es.last(), ignore, by_filecount, show_hidden);
        assert(es[0] == es.last());
        assert(opt_seq(last) + Seq::<NodeView>::empty() =~= Seq::<NodeView>::empty() + opt_seq(
            last,
        ));
    } else {
        lemma_walk_entries_snoc(es.drop_first(), ignore, by_filecount, show_hidden);
        assert(es.drop_first().drop_last() =~= es.drop_last().drop_first());
        assert(es.drop_first().last() == es.last());
        assert(es.drop_last()[0] == es[0]);
        assert(es.drop_last().len() > 0);
        let (first, g0) = process_entry_spec(es[0], ignore, by_filecount, show_hidden);
        let (mid, g1) = walk_entries_spec(es.drop_last().drop_first(), ignore, by_filecount, show_hidden);
        let (last, g2) = process_entry_spec(es.last(), ignore, by_filecount, show_hidden);
        assert(opt_seq(first) + (mid + opt_seq(last)) =~= (opt_seq(first) + mid) + opt_seq(last));
    }
}

/// Tests whether one of the strings in `v` equals `s`.
pub fn contains_string(v: &Vec<String>, s: &String) -> (r: bool)
    ensures
        r == v.deep_view().contains(s@),
{
    let mut i: usize = 0;
    while i < v.len()
        invariant
            0 <= i <= v.len(),
            forall|j: int| 0 <= j < i ==> v.deep_view()[j] != s@,
        decreases v.len() - i,
    {
        assert(v.deep_view()[i as int] == v[i as int]@);
        if v[i] == *s {
            assert(v.deep_view().contains(s@));
            return true;
        }
        i += 1;
    }
    false
}

/// Tests whether a name begins with the hidden marker.
pub fn name_is_hidden(name: &String) -> (r: bool)
    ensures
        r == is_hidden(name@),
{
    let len = name.as_str().unicode_len();
    if len == 0 {
        false
    } else {
        let c = name.as_str().get_char(0);
        proof {
            reveal_strlit(".");
        }
        c == '.'
    }
}

/// Walks one snapshot entry as a directory: lists its entries — recording a
/// failure and keeping no children when the listing failed — processes every
/// entry, and builds this directory's own node from its own metadata and the
/// successfully built children.
pub fn walk(fs: &FsEntry, ignore_directories: &Vec<String>, by_filecount: bool, show_hidden: bool) -> (r: (
    Option<Node>,
    bool,
))
    ensures
        ({
            let (n, f) = walk_spec(fs@, ignore_directories.deep_view(), by_filecount, show_hidden);
            opt_node_view(r.0) == n && r.1 == f
        }),
    decreases *fs, 0int,
{
    let ghost ig = ignore_directories.deep_view();
    let mut children: Vec<Node> = Vec::new();
    let mut failed: bool = false;
    if fs.listing_failed {
        failed = true;
    } else {
        proof {
            lemma_fs_views_len(fs.entries@);
        }
        let mut i: usize = 0;
        while i < fs.entries.len()
            invariant
                0 <= i <= fs.entries.len(),
                fs@.entries.len() == fs.entries@.len(),
                ({
                    let (ns, f) = walk_entries_spec(
                        fs@.entries.take(i as int),
                        ig,
                        by_filecount,
                        show_hidden,
                    );
                    node_views(children@) == ns && failed == f
                }),
                ig == ignore_directories.deep_view(),
            decreases fs.entries.len() - i,
        {
            proof {
                lemma_fs_views_index(fs.entries@, i as int);
                assert(fs@.entries.take(i as int + 1).drop_last() =~= fs@.entries.take(i as int));
                assert(fs@.entries.take(i as int + 1).last() == fs@.entries[i as int]);
            }
            let (n, f) = process_entry(&fs.entries[i], ignore_directories, by_filecount, show_hidden);
            proof {
                lemma_fs_views_len(fs.entries@);
                lemma_walk_entries_snoc(
                    fs@.entries.take(i as int + 1),
                    ig,
                    by_filecount,
                    show_hidden,
                );
            }
            match n {
                Option::Some(node) => {
                    proof {
                        lemma_node_views_push(children@, node);
                    }
                    children.push(node);
                },
                Option::None => {
                    proof {
                        let (ns, _fx) = walk_entries_spec(
                            fs@.entries.take(i as int),
                            ig,
                            by_filecount,
                            show_hidden,
                        );
                        assert(ns + opt_seq(opt_node_view(n)) =~= ns);
                    }
                },
            }
            if f {
                failed = true;
            }
            i += 1;
        }
        proof {
            assert(fs@.entries.take(fs.entries@.len() as int) =~= fs@.entries);
        }
    }
    let node = build_node(fs.path.clone(), children, fs.metadata, by_filecount);
    (node, failed)
}

/// Processes one listed entry as the walk model says.
pub fn process_entry(e: &FsEntry, ignore_directories: &Vec<String>, by_filecount: bool, show_hidden: bool) -> (r: (
    Option<Node>,
    bool,
))
    ensures
        ({
            let (n, f) = process_entry_spec(
                e@,
                ignore_directories.deep_view(),
                by_filecount,
                show_hidden,
            );
            opt_node_view(r.0) == n && r.1 == f
        }),
    decreases *e, 1int,
{
    let hidden = name_is_hidden(&e.name);
    if (hidden && !show_hidden) || contains_string(ignore_directories, &e.path) {
        (Option::None, false)
    } else {
        match &e.kind {
            Option::None => (Option::None, true),
            Option::Some(EntryKind::Symlink) => (
                build_node(e.path.clone(), Vec::new(), e.metadata, by_filecount),
                false,
            ),
            Option::Some(EntryKind::Directory) => walk(e, ignore_directories, by_filecount, show_hidden),
            Option::Some(EntryKind::Other) => (
                build_node(e.path.clone(), Vec::new(), e.metadata, by_filecount),
                false,
            ),
        }
    }
}

/// An entry sequence and its model have the same length.
pub proof fn lemma_fs_views_len(s: Seq<FsEntry>)
    ensures
        fs_views(s).len() == s.len(),
    decreases s.len(),
{
    if s.len() > 0 {
        lemma_fs_views_len(s.drop_first());
    }
}

/// The model of an entry sequence at one index is that entry's model.
pub proof fn lemma_fs_views_index(s: Seq<FsEntry>, i: int)
    requires
        0 <= i < s.len(),
    ensures
        fs_views(s).len() == s.len(),
        fs_views(s)[i] == s[i]@,
    decreases s.len(),
{
    lemma_fs_views_len(s);
    if i > 0 {
        lemma_fs_views_index(s.drop_first(), i - 1);
    }
}

/// Whether this node is discarded as a duplicate: dedup is active only in
/// apparent-size mode, only for nodes that carry an identity token, and only
/// when that token was already seen in this root's pass.
pub open spec fn is_duplicate(n: NodeView, seen: Seq<(u64, u64)>, use_apparent_size: bool) -> bool {
    use_apparent_size && match n.inode_device {
        Option::Some(id) => seen.contains(id),
        Option::None => false,
    }
}

/// The seen identities after this node's own token is recorded.
pub open spec fn marked_seen(n: NodeView, seen: Seq<(u64, u64)>, use_apparent_size: bool) -> Seq<
    (u64, u64),
> {
    if use_apparent_size {
        match n.inode_device {
            Option::Some(id) => seen.push(id),
            Option::None => seen,
        }
    } else {
        seen
    }
}

/// The dedup-and-aggregation pass on one raw tree: a duplicate is discarded
/// with its whole subtree; otherwise its identity is recorded, its children
/// are cleaned left to right against the growing seen set, and the produced
/// node's size is its own raw size plus the sum of the retained, already
/// aggregated children's sizes.
pub open spec fn clean_spec(n: NodeView, seen: Seq<(u64, u64)>, use_apparent_size: bool) -> (Option<
    NodeView,
>, Seq<(u64, u64)>)
    decreases n, 0int,
{
    if is_duplicate(n, seen, use_apparent_size) {
        (Option::None, seen)
    } else {
        let seen1 = marked_seen(n, seen, use_apparent_size);
        let (kids, seen2) = clean_seq_spec(n.children, seen1, use_apparent_size);
        (
            Option::Some(
                NodeView {
                    name: n.name,
                    size: n.size + sum_sizes(kids),
                    children: kids,
                    inode_device: n.inode_device,
                },
            ),
            seen2,
        )
    }
}

/// The dedup-and-aggregation pass on a forest, left to right, threading the
/// seen identities through.
pub open spec fn clean_seq_spec(s: Seq<NodeView>, seen: Seq<(u64, u64)>, use_apparent_size: bool) -> (Seq<
    NodeView,
>, Seq<(u64, u64)>)
    decreases s, 1int,
{
    if s.len() == 0 {
        (Seq::empty(), seen)
    } else {
        let (first, seen1) = clean_spec(s[0], seen, use_apparent_size);
        let (rest, seen2) = clean_seq_spec(s.drop_first(), seen1, use_apparent_size);
        (opt_seq(first) + rest, seen2)
    }
}

/// Cleaning one more tree at the end of a forest cleans it against the seen
/// set that the front of the forest produced.
pub proof fn lemma_clean_seq_snoc(s: Seq<NodeView>, seen: Seq<(u64, u64)>, use_apparent_size: bool)
    requires
        s.len() > 0,
    ensures
        clean_seq_spec(s, seen, use_apparent_size).0 == clean_seq_spec(
            s.drop_last(),
            seen,
            use_apparent_size,
        ).0 + opt_seq(
            clean_spec(
                s.last(),
                clean_seq_spec(s.drop_last(), seen, use_apparent_size).1,
                use_apparent_size,
            ).0,
        ),
        clean_seq_spec(s, seen, use_apparent_size).1 == clean_spec(
            s.last(),
            clean_seq_spec(s.drop_last(), seen, use_apparent_size).1,
            use_apparent_size,
        ).1,
    decreases s.len(),
{
    let (first, seen1) = clean_spec(s[0], seen, use_apparent_size);
    if s.len() == 1 {
        assert(s.drop_last() =~= Seq::<NodeView>::empty());
        assert(s.drop_first() =~= Seq::<NodeView>::empty());
        assert(clean_seq_spec(Seq::<NodeView>::empty(), seen1, use_apparent_size) == ((
            Seq::<NodeView>::empty(),
            seen1,
        )));
        assert(clean_seq_spec(Seq::<NodeView>::empty(), seen, use_apparent_size) == ((
            Seq::<NodeView>::empty(),
            seen,
        )));
        assert(s[0] == s.last());
        assert(opt_seq(first) + Seq::<NodeView>::empty() =~= Seq::<NodeView>::empty() + opt_seq(
            first,
        ));
    } else {
        lemma_clean_seq_snoc(s.drop_first(), seen1, use_apparent_size);
        assert(s.drop_first().drop_last() =~= s.drop_last().drop_first());
        assert(s.drop_first().last() == s.last());
        assert(s.drop_last()[0] == s[0]);
        assert(s.drop_last().len() > 0);
        let (mid, g1) = clean_seq_spec(s.drop_last().drop_first(), seen1, use_apparent_size);
        let (last, g2) = clean_spec(s.last(), g1, use_apparent_size);
        assert(clean_seq_spec(s.drop_last(), seen, use_apparent_size).0 == opt_seq(first) + mid);
        assert(clean_seq_spec(s.drop_last(), seen, use_apparent_size).1 == g1);
        assert(clean_seq_spec(s, seen, use_apparent_size).0 == opt_seq(first) + (mid + opt_seq(
            last,
        )));
        assert(opt_seq(first) + (mid + opt_seq(last)) =~= (opt_seq(first) + mid) + opt_seq(last));
    }
}

/// A produced node's size is bounded by the raw total of the tree it came
/// from.
pub proof fn lemma_clean_size_bound(n: NodeView, seen: Seq<(u64, u64)>, use_apparent_size: bool)
    requires
        view_wf(n),
    ensures
        ({
            match clean_spec(n, seen, use_apparent_size).0 {
                Option::Some(m) => 0 <= m.size <= raw_total(n),
                Option::None => true,
            }
        }),
    decreases n, 0int,
{
    if !is_duplicate(n, seen, use_apparent_size) {
        assert(seq_wf(n.children));
        lemma_clean_seq_sum_bound(n.children, marked_seen(n, seen, use_apparent_size), use_apparent_size);
    }
}

/// A cleaned forest's sizes sum to no more than the forest's raw total.
pub proof fn lemma_clean_seq_sum_bound(s: Seq<NodeView>, seen: Seq<(u64, u64)>, use_apparent_size: bool)
    requires
        seq_wf(s),
    ensures
        0 <= sum_sizes(clean_seq_spec(s, seen, use_apparent_size).0) <= raw_total_seq(s),
    decreases s, 1int,
{
    if s.len() > 0 {
        assert(seq_wf(s.drop_first())) by {
            assert(forall|i: int|
                0 <= i < s.drop_first().len() ==> #[trigger] s.drop_first()[i] == s[i + 1]);
        }
        let (first, seen1) = clean_spec(s[0], seen, use_apparent_size);
        let (rest, seen2) = clean_seq_spec(s.drop_first(), seen1, use_apparent_size);
        lemma_clean_size_bound(s[0], seen, use_apparent_size);
        lemma_clean_seq_sum_bound(s.drop_first(), seen1, use_apparent_size);
        lemma_raw_total_nonneg(s[0]);
        match first {
            Option::Some(m) => {
                assert(opt_seq(first) + rest =~= seq![m] + rest);
                assert((seq![m] + rest).drop_first() =~= rest);
                assert((seq![m] + rest)[0] == m);
            },
            Option::None => {
                assert(opt_seq(first) + rest =~= rest);
            },
        }
    }
}

/// Tests whether an identity token was already recorded.
pub fn contains_id(v: &Vec<(u64, u64)>, id: (u64, u64)) -> (r: bool)
    ensures
        r == v@.contains(id),
{
    let mut i: usize = 0;
    while i < v.len()
        invariant
            0 <= i <= v.len(),
            forall|j: int| 0 <= j < i ==> v@[j] != id,
        decreases v.len() - i,
    {
        if v[i].0 == id.0 && v[i].1 == id.1 {
            assert(v@.contains(id));
            return true;
        }
        i += 1;
    }
    false
}

/// Removes duplicate hardlinked nodes and computes true aggregate sizes
/// bottom-up: the returned node — absent when this node's identity was
/// already seen under apparent-size mode — carries its own raw size plus the
/// sizes of all retained children, and `inodes` grows by every identity
/// newly seen in the retained part of the tree.
#[verifier::loop_isolation(false)]
pub fn clean_inodes(x: Node, inodes: &mut Vec<(u64, u64)>, use_apparent_size: bool) -> (r: Option<
    Node,
>)
    requires
        raw_total(x@) <= u64::MAX,
    ensures
        ({
            let (m, seen2) = clean_spec(x@, old(inodes)@, use_apparent_size);
            opt_node_view(r) == m && final(inodes)@ == seen2
        }),
    decreases node_height(x@),
{
    proof {
        lemma_node_view_wf(x);
        lemma_raw_total_seq_nonneg(x@.children);
    }
    let ghost xv = x@;
    if use_apparent_size {
        match x.inode_device {
            Option::Some(id) => {
                if contains_id(inodes, id) {
                    return Option::None;
                }
                inodes.push(id);
            },
            Option::None => {},
        }
    }
    let ghost seen1 = inodes@;
    assert(seen1 == marked_seen(xv, old(inodes)@, use_apparent_size));
    let Node { name, size, children, inode_device } = x;
    let ghost all = children@;
    let mut rest = children;
    let n_children = rest.len();
    let mut new_children: Vec<Node> = Vec::new();
    let mut child_sum: u64 = 0;
    let mut k: usize = 0;
    proof {
        lemma_node_views_len(all);
        assert(all.skip(0) =~= all);
        assert(all.len() == n_children);
        assert(xv.children.take(0) =~= Seq::<NodeView>::empty());
    }
    while rest.len() > 0
        invariant
            0 <= k <= all.len(),
            all.len() == n_children,
            rest@ == all.skip(k as int),
            xv.children == node_views(all),
            xv.children.len() == all.len(),
            view_wf(xv),
            raw_total(xv) <= u64::MAX,
            xv.size == size,
            ({
                let (ks, sk) = clean_seq_spec(xv.children.take(k as int), seen1, use_apparent_size);
                &&& node_views(new_children@) == ks
                &&& inodes@ == sk
                &&& child_sum == sum_sizes(ks)
            }),
        decreases rest@.len(),
    {
        let c = rest.remove(0);
        proof {
            assert(all.skip(k as int).remove(0) =~= all.skip(k as int + 1));
            assert(c == all[k as int]);
            lemma_node_views_index(all, k as int);
            assert(c@ == xv.children[k as int]);
            assert(seq_wf(xv.children));
            lemma_raw_total_seq_index(xv.children, k as int);
            lemma_raw_total_nonneg(c@);
            lemma_forest_height_index(xv.children, k as int);
            assert(c@ == xv.children[k as int]);
            assert(node_height(c@) < node_height(xv));
        }
        let cleaned = clean_inodes(c, inodes, use_apparent_size);
        proof {
            assert(xv.children.take(k as int + 1).drop_last() =~= xv.children.take(k as int));
            assert(xv.children.take(k as int + 1).last() == xv.children[k as int]);
            lemma_clean_seq_snoc(xv.children.take(k as int + 1), seen1, use_apparent_size);
            assert(seq_wf(xv.children.take(k as int + 1))) by {
                assert(forall|i: int|
                    0 <= i < k as int + 1 ==> #[trigger] xv.children.take(k as int + 1)[i]
                        == xv.children[i]);
            }
            lemma_clean_seq_sum_bound(xv.children.take(k as int + 1), seen1, use_apparent_size);
            lemma_raw_total_seq_take_le(xv.children, k as int + 1);
        }
        let ghost ks_old = clean_seq_spec(xv.children.take(k as int), seen1, use_apparent_size).0;
        match cleaned {
            Option::Some(nc) => {
                proof {
                    lemma_sum_sizes_snoc(ks_old, nc@);
                    lemma_node_views_push(new_children@, nc);
                    assert(ks_old + opt_seq(opt_node_view(cleaned)) =~= ks_old + seq![nc@]);
                }
                child_sum = child_sum + nc.size;
                new_children.push(nc);
            },
            Option::None => {
                proof {
                    assert(ks_old + opt_seq(opt_node_view(cleaned)) =~= ks_old);
                }
            },
        }
        k = k + 1;
    }
    proof {
        assert(all.skip(k as int).len() == 0);
        assert(xv.children.take(k as int) =~= xv.children);
        lemma_clean_seq_sum_bound(xv.children, seen1, use_apparent_size);
    }
    let total = size + child_sum;
    let result = Node { name, size: total, children: new_children, inode_device };
    proof {
        let (kids, _s2) = clean_seq_spec(xv.children, seen1, use_apparent_size);
        assert(result@ =~= NodeView {
            name: xv.name,
            size: xv.size + sum_sizes(kids),
            children: kids,
            inode_device: xv.inode_device,
        });
    }
    Option::Some(result)
}

/// The raw total of an optional tree; an absent tree totals zero.
pub open spec fn opt_total(o: Option<NodeView>) -> int {
    match o {
        Option::None => 0,
        Option::Some(m) => raw_total(m),
    }
}

/// Every root's raw tree — when its own metadata resolves — has a total that
/// fits a machine word; this is what the aggregated sizes need in order not
/// to overflow.
pub open spec fn roots_fit(
    roots: Seq<FsView>,
    ignore: Seq<Seq<char>>,
    by_filecount: bool,
    show_hidden: bool,
) -> bool {
    forall|i: int|
        0 <= i < roots.len() ==> opt_total(
            #[trigger] walk_spec(roots[i], ignore, by_filecount, show_hidden).0,
        ) <= u64::MAX
}

/// The whole run: each root is walked and then — when its own metadata
/// resolved — deduplicated and aggregated against a seen set private to that
/// root; the failure flags of all roots are or-reduced into one.
pub open spec fn walk_it_spec(
    roots: Seq<FsView>,
    ignore: Seq<Seq<char>>,
    use_apparent_size: bool,
    by_filecount: bool,
    show_hidden: bool,
) -> (Seq<NodeView>, bool)
    decreases roots.len(),
{
    if roots.len() == 0 {
        (Seq::empty(), false)
    } else {
        let (n, f) = walk_spec(roots[0], ignore, by_filecount, show_hidden);
        let cleaned = match n {
            Option::None => Seq::<NodeView>::empty(),
            Option::Some(m) => opt_seq(clean_spec(m, Seq::empty(), use_apparent_size).0),
        };
        let (rest, f2) = walk_it_spec(
            roots.drop_first(),
            ignore,
            use_apparent_size,
            by_filecount,
            show_hidden,
        );
        (cleaned + rest, f || f2)
    }
}

/// Walking one more root at the end appends that root's aggregated tree.
pub proof fn lemma_walk_it_snoc(
    roots: Seq<FsView>,
    ignore: Seq<Seq<char>>,
    use_apparent_size: bool,
    by_filecount: bool,
    show_hidden: bool,
)
    requires
        roots.len() > 0,
    ensures
        ({
            let (front, f0) = walk_it_spec(
                roots.drop_last(),
                ignore,
                use_apparent_size,
                by_filecount,
                show_hidden,
            );
            let (n, f1) = walk_spec(roots.last(), ignore, by_filecount, show_hidden);
            let cleaned = match n {
                Option::None => Seq::<NodeView>::empty(),
                Option::Some(m) => opt_seq(clean_spec(m, Seq::empty(), use_apparent_size).0),
            };
            walk_it_spec(roots, ignore, use_apparent_size, by_filecount, show_hidden) == ((
                front + cleaned,
                f0 || f1,
            ))
        }),
    decreases roots.len(),
{
    if roots.len() == 1 {
        assert(roots.drop_last() =~= Seq::<FsView>::empty());
        assert(roots.drop_first() =~= Seq::<FsView>::empty());
        assert(roots[0] == roots.last());
        let (n, f1) = walk_spec(roots.last(), ignore, by_filecount, show_hidden);
        let cleaned = match n {
            Option::None => Seq::<NodeView>::empty(),
            Option::Some(m) => opt_seq(clean_spec(m, Seq::empty(), use_apparent_size).0),
        };
        assert(cleaned + Seq::<NodeView>::empty() =~= Seq::<NodeView>::empty() + cleaned);
    } else {
        lemma_walk_it_snoc(
            roots.drop_first(),
            ignore,
            use_apparent_size,
            by_filecount,
            show_hidden,
        );
        assert(roots.drop_first().drop_last() =~= roots.drop_last().drop_first());
        assert(roots.drop_first().last() == roots.last());
        assert(roots.drop_last()[0] == roots[0]);
        assert(roots.drop_last().len() > 0);
        let (n0, g0) = walk_spec(roots[0], ignore, by_filecount, show_hidden);
        let cleaned0 = match n0 {
            Option::None => Seq::<NodeView>::empty(),
            Option::Some(m) => opt_seq(clean_spec(m, Seq::empty(), use_apparent_size).0),
        };
        let (mid, g1) = walk_it_spec(
            roots.drop_last().drop_first(),
            ignore,
            use_apparent_size,
            by_filecount,
            show_hidden,
        );
        let (nl, g2) = walk_spec(roots.last(), ignore, by_filecount, show_hidden);
        let cleanedl = match nl {
            Option::None => Seq::<NodeView>::empty(),
            Option::Some(m) => opt_seq(clean_spec(m, Seq::empty(), use_apparent_size).0),
        };
        assert(cleaned0 + (mid + cleanedl) =~= (cleaned0 + mid) + cleanedl);
    }
}

/// Runs the whole scan over a snapshot: walks every root in the order
/// supplied, removes duplicate hardlinked nodes per root, aggregates sizes
/// bottom-up, and reports one flag that is true exactly when some directory
/// listing or entry read failed anywhere.
#[verifier::loop_isolation(false)]
pub fn walk_it(
    dirs: Vec<FsEntry>,
    ignore_directories: Vec<String>,
    use_apparent_size: bool,
    by_filecount: bool,
    show_hidden: bool,
) -> (r: (Vec<Node>, bool))
    requires
        roots_fit(fs_views(dirs@), ignore_directories.deep_view(), by_filecount, show_hidden),
    ensures
        ({
            let (ts, f) = walk_it_spec(
                fs_views(dirs@),
                ignore_directories.deep_view(),
                use_apparent_size,
                by_filecount,
                show_hidden,
            );
            node_views(r.0@) == ts && r.1 == f
        }),
{
    let ghost roots = fs_views(dirs@);
    let ghost ig = ignore_directories.deep_view();
    let mut top_level_nodes: Vec<Node> = Vec::new();
    let mut permissions_flag: bool = false;
    proof {
        lemma_fs_views_len(dirs@);
        assert(roots.take(0) =~= Seq::<FsView>::empty());
    }
    let mut i: usize = 0;
    while i < dirs.len()
        invariant
            0 <= i <= dirs.len(),
            ({
                let (ts, f) = walk_it_spec(
                    roots.take(i as int),
                    ig,
                    use_apparent_size,
                    by_filecount,
                    show_hidden,
                );
                node_views(top_level_nodes@) == ts && permissions_flag == f
            }),
        decreases dirs.len() - i,
    {
        proof {
            lemma_fs_views_index(dirs@, i as int);
            assert(roots.take(i as int + 1).drop_last() =~= roots.take(i as int));
            assert(roots.take(i as int + 1).last() == roots[i as int]);
            lemma_walk_it_snoc(
                roots.take(i as int + 1),
                ig,
                use_apparent_size,
                by_filecount,
                show_hidden,
            );
        }
        let (walked, failed) = walk(&dirs[i], &ignore_directories, by_filecount, show_hidden);
        let ghost ts_old = walk_it_spec(
            roots.take(i as int),
            ig,
            use_apparent_size,
            by_filecount,
            show_hidden,
        ).0;
        match walked {
            Option::Some(n) => {
                proof {
                    assert(opt_total(walk_spec(roots[i as int], ig, by_filecount, show_hidden).0)
                        <= u64::MAX);
                    assert(raw_total(n@) <= u64::MAX);
                }
                let mut inodes: Vec<(u64, u64)> = Vec::new();
                let cleaned = clean_inodes(n, &mut inodes, use_apparent_size);
                match cleaned {
                    Option::Some(c) => {
                        proof {
                            lemma_node_views_push(top_level_nodes@, c);
                            assert(ts_old + opt_seq(opt_node_view(cleaned)) =~= ts_old + seq![c@]);
                        }
                        top_level_nodes.push(c);
                    },
                    Option::None => {
                        proof {
                            assert(ts_old + opt_seq(opt_node_view(cleaned)) =~= ts_old);
                        }
                    },
                }
            },
            Option::None => {
                proof {
                    assert(ts_old + Seq::<NodeView>::empty() =~= ts_old);
                }
            },
        }
        if failed {
            permissions_flag = true;
        }
        i += 1;
    }
    proof {
        assert(roots.take(dirs@.len() as int) =~= roots);
    }
    (top_level_nodes, permissions_flag)
}

} // verus!

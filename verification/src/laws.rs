//! The properties the engine guarantees, stated and proved over the walk and
//! aggregation models.

use vstd::multiset::Multiset;
use vstd::prelude::*;

use crate::dirwalker::{
    clean_seq_spec, clean_spec, is_duplicate, is_hidden, marked_seen, opt_seq, process_entry_spec,
    walk_entries_spec, walk_it_spec, walk_spec, EntryKind, FsView,
};
use crate::node::{
    build_node_spec, seq_wf, sum_sizes, view_wf, NodeView,
};

verus! {

/// A tree that some run of the dedup-and-aggregation pass produced.
pub open spec fn produced_by_clean(m: NodeView, use_apparent_size: bool) -> bool {
    exists|n: NodeView, seen: Seq<(u64, u64)>|
        view_wf(n) && clean_spec(n, seen, use_apparent_size).0 == Option::Some(m)
}

/// Law: a produced node's size is its own raw size plus the sum of its
/// children's aggregated sizes; and every child of a produced tree is itself
/// a produced tree, so the equation holds recursively to the leaves.
pub proof fn lemma_aggregation_size_invariant(
    n: NodeView,
    seen: Seq<(u64, u64)>,
    use_apparent_size: bool,
)
    requires
        view_wf(n),
        clean_spec(n, seen, use_apparent_size).0 is Some,
    ensures
        ({
            let m = clean_spec(n, seen, use_apparent_size).0.unwrap();
            &&& m.size == n.size + sum_sizes(m.children)
            &&& forall|i: int|
                0 <= i < m.children.len() ==> produced_by_clean(
                    #[trigger] m.children[i],
                    use_apparent_size,
                )
        }),
{
    assert(seq_wf(n.children));
    let seen1 = marked_seen(n, seen, use_apparent_size);
    lemma_clean_seq_produced(n.children, seen1, use_apparent_size);
    let kids = clean_seq_spec(n.children, seen1, use_apparent_size).0;
    let m = clean_spec(n, seen, use_apparent_size).0.unwrap();
    assert(!is_duplicate(n, seen, use_apparent_size));
    assert(m.children == kids);
    assert(m.size == n.size + sum_sizes(kids));
}

/// Every tree of a cleaned forest was produced by the pass.
pub proof fn lemma_clean_seq_produced(s: Seq<NodeView>, seen: Seq<(u64, u64)>, use_apparent_size: bool)
    requires
        seq_wf(s),
    ensures
        ({
            let ks = clean_seq_spec(s, seen, use_apparent_size).0;
            forall|i: int|
                0 <= i < ks.len() ==> produced_by_clean(#[trigger] ks[i], use_apparent_size)
        }),
    decreases s.len(),
{
    if s.len() > 0 {
        assert(seq_wf(s.drop_first())) by {
            assert(forall|i: int|
                0 <= i < s.drop_first().len() ==> #[trigger] s.drop_first()[i] == s[i + 1]);
        }
        let (first, seen1) = clean_spec(s[0], seen, use_apparent_size);
        let (rest, _seen2) = clean_seq_spec(s.drop_first(), seen1, use_apparent_size);
        lemma_clean_seq_produced(s.drop_first(), seen1, use_apparent_size);
        let ks = clean_seq_spec(s, seen, use_apparent_size).0;
        assert forall|i: int| 0 <= i < ks.len() implies produced_by_clean(
            #[trigger] ks[i],
            use_apparent_size,
        ) by {
            match first {
                Option::Some(m) => {
                    assert(ks =~= seq![m] + rest);
                    if i == 0 {
                        assert(view_wf(s[0]));
                        assert(clean_spec(s[0], seen, use_apparent_size).0 == Option::Some(m));
                    } else {
                        assert(ks[i] == rest[i - 1]);
                    }
                },
                Option::None => {
                    assert(ks =~= rest);
                    assert(ks[i] == rest[i]);
                },
            }
        }
    }
}

/// Law: a directory whose listing fails still yields its own node — when its
/// own metadata resolves — with no children at all, and raises the failure
/// flag; nothing else of the snapshot is consulted.
pub proof fn lemma_unreadable_listing(
    fs: FsView,
    ignore: Seq<Seq<char>>,
    by_filecount: bool,
    show_hidden: bool,
)
    requires
        fs.listing_failed,
    ensures
        walk_spec(fs, ignore, by_filecount, show_hidden) == ((
            build_node_spec(fs.path, Seq::<NodeView>::empty(), fs.metadata, by_filecount),
            true,
        )),
{
}

/// Law: an entry whose path is in the ignore set contributes nothing — its
/// whole subtree is absent — and records no failure.
pub proof fn lemma_ignored_entry_skipped(
    e: FsView,
    ignore: Seq<Seq<char>>,
    by_filecount: bool,
    show_hidden: bool,
)
    requires
        ignore.contains(e.path),
    ensures
        process_entry_spec(e, ignore, by_filecount, show_hidden) == ((
            Option::<NodeView>::None,
            false,
        )),
{
}

/// Law: a hidden entry — one whose name begins with the hidden marker — is
/// absent when hidden entries were not requested, and records no failure.
pub proof fn lemma_hidden_entry_skipped(
    e: FsView,
    ignore: Seq<Seq<char>>,
    by_filecount: bool,
)
    requires
        is_hidden(e.name),
    ensures
        process_entry_spec(e, ignore, by_filecount, false) == ((Option::<NodeView>::None, false)),
{
}

/// Law: when hidden entries are requested, an entry's name plays no part in
/// its processing: the entry is treated exactly as the same entry under any
/// other name, hidden or not.
pub proof fn lemma_hidden_entry_shown(
    e: FsView,
    other_name: Seq<char>,
    ignore: Seq<Seq<char>>,
    by_filecount: bool,
)
    ensures
        process_entry_spec(e, ignore, by_filecount, true) == process_entry_spec(
            FsView { name: other_name, ..e },
            ignore,
            by_filecount,
            true,
        ),
{
    let e2 = FsView { name: other_name, ..e };
    assert(walk_spec(e, ignore, by_filecount, true) == walk_spec(e2, ignore, by_filecount, true));
}

/// Law: a symbolic link is turned into a leaf built from the link's own
/// metadata; its target is never followed, so neither the link's listing
/// fields nor anything below them is consulted, and a cycle of links cannot
/// cause recursion.
pub proof fn lemma_symlink_never_followed(
    e: FsView,
    ignore: Seq<Seq<char>>,
    by_filecount: bool,
    show_hidden: bool,
)
    requires
        e.kind == Option::Some(EntryKind::Symlink),
        !(is_hidden(e.name) && !show_hidden),
        !ignore.contains(e.path),
    ensures
        process_entry_spec(e, ignore, by_filecount, show_hidden) == ((
            build_node_spec(e.path, Seq::<NodeView>::empty(), e.metadata, by_filecount),
            false,
        )),
{
}

/// Every tree the walker builds is well formed: its sizes come from machine
/// words, or are the unit weight.
pub proof fn lemma_walk_spec_wf(fs: FsView, ignore: Seq<Seq<char>>, by_filecount: bool, show_hidden: bool)
    ensures
        ({
            match walk_spec(fs, ignore, by_filecount, show_hidden).0 {
                Option::Some(m) => view_wf(m),
                Option::None => true,
            }
        }),
    decreases fs, 0int,
{
    if !fs.listing_failed {
        lemma_walk_entries_wf(fs.entries, ignore, by_filecount, show_hidden);
    }
    let children = if fs.listing_failed {
        Seq::<NodeView>::empty()
    } else {
        walk_entries_spec(fs.entries, ignore, by_filecount, show_hidden).0
    };
    match walk_spec(fs, ignore, by_filecount, show_hidden).0 {
        Option::Some(m) => {
            assert(m.children == children);
            assert(forall|i: int| 0 <= i < m.children.len() ==> view_wf(#[trigger] m.children[i]));
        },
        Option::None => {},
    }
}

/// Every processed entry yields a well-formed tree, if any.
pub proof fn lemma_process_entry_wf(e: FsView, ignore: Seq<Seq<char>>, by_filecount: bool, show_hidden: bool)
    ensures
        ({
            match process_entry_spec(e, ignore, by_filecount, show_hidden).0 {
                Option::Some(m) => view_wf(m),
                Option::None => true,
            }
        }),
    decreases e, 1int,
{
    if !((is_hidden(e.name) && !show_hidden) || ignore.contains(e.path)) {
        match e.kind {
            Option::Some(EntryKind::Directory) => {
                lemma_walk_spec_wf(e, ignore, by_filecount, show_hidden);
            },
            _ => {},
        }
    }
}

/// Every tree of a walked listing is well formed.
pub proof fn lemma_walk_entries_wf(es: Seq<FsView>, ignore: Seq<Seq<char>>, by_filecount: bool, show_hidden: bool)
    ensures
        ({
            let ns = walk_entries_spec(es, ignore, by_filecount, show_hidden).0;
            forall|i: int| 0 <= i < ns.len() ==> view_wf(#[trigger] ns[i])
        }),
    decreases es, 2int,
{
    if es.len() > 0 {
        let (first, _f0) = process_entry_spec(es[0], ignore, by_filecount, show_hidden);
        let rest = walk_entries_spec(es.drop_first(), ignore, by_filecount, show_hidden).0;
        lemma_process_entry_wf(es[0], ignore, by_filecount, show_hidden);
        lemma_walk_entries_wf(es.drop_first(), ignore, by_filecount, show_hidden);
        let ns = walk_entries_spec(es, ignore, by_filecount, show_hidden).0;
        assert forall|i: int| 0 <= i < ns.len() implies view_wf(#[trigger] ns[i]) by {
            match first {
                Option::Some(m) => {
                    assert(ns =~= seq![m] + rest);
                    if i > 0 {
                        assert(ns[i] == rest[i - 1]);
                    }
                },
                Option::None => {
                    assert(ns =~= rest);
                    assert(ns[i] == rest[i]);
                },
            }
        }
    }
}

/// Law: every tree the whole run returns was produced by the
/// dedup-and-aggregation pass from the raw tree its root's walk built, so
/// the size invariant holds of every returned tree and, recursively, of
/// every node within it.
pub proof fn lemma_walk_it_trees_produced(
    roots: Seq<FsView>,
    ignore: Seq<Seq<char>>,
    use_apparent_size: bool,
    by_filecount: bool,
    show_hidden: bool,
)
    ensures
        ({
            let ts = walk_it_spec(roots, ignore, use_apparent_size, by_filecount, show_hidden).0;
            forall|i: int|
                0 <= i < ts.len() ==> produced_by_clean(#[trigger] ts[i], use_apparent_size)
        }),
    decreases roots.len(),
{
    if roots.len() > 0 {
        let (n, _f) = walk_spec(roots[0], ignore, by_filecount, show_hidden);
        lemma_walk_spec_wf(roots[0], ignore, by_filecount, show_hidden);
        lemma_walk_it_trees_produced(
            roots.drop_first(),
            ignore,
            use_apparent_size,
            by_filecount,
            show_hidden,
        );
        let cleaned = match n {
            Option::None => Seq::<NodeView>::empty(),
            Option::Some(m) => opt_seq(clean_spec(m, Seq::empty(), use_apparent_size).0),
        };
        let rest = walk_it_spec(
            roots.drop_first(),
            ignore,
            use_apparent_size,
            by_filecount,
            show_hidden,
        ).0;
        let ts = walk_it_spec(roots, ignore, use_apparent_size, by_filecount, show_hidden).0;
        assert forall|i: int| 0 <= i < ts.len() implies produced_by_clean(
            #[trigger] ts[i],
            use_apparent_size,
        ) by {
            assert(ts =~= cleaned + rest);
            if i < cleaned.len() {
                match n {
                    Option::Some(m) => {
                        match clean_spec(m, Seq::empty(), use_apparent_size).0 {
                            Option::Some(c) => {
                                assert(ts[i] == c);
                                assert(view_wf(m));
                                assert(clean_spec(m, Seq::empty(), use_apparent_size).0
                                    == Option::Some(c));
                            },
                            Option::None => {},
                        }
                    },
                    Option::None => {},
                }
            } else {
                assert(ts[i] == rest[i - cleaned.len()]);
            }
        }
    }
}

/// Every node of the tree carries the unit size used by file-count mode.
pub open spec fn all_unit_sizes(n: NodeView) -> bool
    decreases n,
{
    &&& n.size == 1
    &&& forall|i: int| 0 <= i < n.children.len() ==> all_unit_sizes(#[trigger] n.children[i])
}

/// How many nodes a tree holds.
pub open spec fn node_count(m: NodeView) -> int
    decreases m, 0int,
{
    1 + node_count_seq(m.children)
}

/// How many nodes a forest holds.
pub open spec fn node_count_seq(s: Seq<NodeView>) -> int
    decreases s, 1int,
{
    if s.len() == 0 {
        0
    } else {
        node_count(s[0]) + node_count_seq(s.drop_first())
    }
}

/// Law: when every raw node carries the unit size — as the walker produces
/// in file-count mode — an aggregated subtree's size is exactly the number
/// of retained entries within it, each weighted one.
pub proof fn lemma_filecount_aggregates_to_count(
    n: NodeView,
    seen: Seq<(u64, u64)>,
    use_apparent_size: bool,
)
    requires
        all_unit_sizes(n),
    ensures
        ({
            match clean_spec(n, seen, use_apparent_size).0 {
                Option::Some(m) => m.size == node_count(m),
                Option::None => true,
            }
        }),
    decreases n, 0int,
{
    if !is_duplicate(n, seen, use_apparent_size) {
        let seen1 = marked_seen(n, seen, use_apparent_size);
        lemma_filecount_seq(n.children, seen1, use_apparent_size);
        let kids = clean_seq_spec(n.children, seen1, use_apparent_size).0;
        let m = clean_spec(n, seen, use_apparent_size).0.unwrap();
        assert(m.children == kids);
        assert(m.size == n.size + sum_sizes(kids));
    }
}

/// A cleaned forest of unit-sized trees has sizes summing to its node count.
pub proof fn lemma_filecount_seq(s: Seq<NodeView>, seen: Seq<(u64, u64)>, use_apparent_size: bool)
    requires
        forall|i: int| 0 <= i < s.len() ==> all_unit_sizes(#[trigger] s[i]),
    ensures
        ({
            let ks = clean_seq_spec(s, seen, use_apparent_size).0;
            sum_sizes(ks) == node_count_seq(ks)
        }),
    decreases s, 1int,
{
    if s.len() > 0 {
        assert(forall|i: int|
            0 <= i < s.drop_first().len() ==> #[trigger] s.drop_first()[i] == s[i + 1]);
        let (first, seen1) = clean_spec(s[0], seen, use_apparent_size);
        let rest = clean_seq_spec(s.drop_first(), seen1, use_apparent_size).0;
        lemma_filecount_aggregates_to_count(s[0], seen, use_apparent_size);
        lemma_filecount_seq(s.drop_first(), seen1, use_apparent_size);
        match first {
            Option::Some(m) => {
                assert(opt_seq(first) + rest =~= seq![m] + rest);
                assert((seq![m] + rest)[0] == m);
                assert((seq![m] + rest).drop_first() =~= rest);
                assert((seq![m] + rest).len() > 0);
            },
            Option::None => {
                assert(opt_seq(first) + rest =~= rest);
            },
        }
    }
}

/// In file-count mode the walker hands every node the unit size.
pub proof fn lemma_walk_unit_sizes(fs: FsView, ignore: Seq<Seq<char>>, show_hidden: bool)
    ensures
        ({
            match walk_spec(fs, ignore, true, show_hidden).0 {
                Option::Some(m) => all_unit_sizes(m),
                Option::None => true,
            }
        }),
    decreases fs, 0int,
{
    if !fs.listing_failed {
        lemma_walk_entries_unit_sizes(fs.entries, ignore, show_hidden);
    }
    let children = if fs.listing_failed {
        Seq::<NodeView>::empty()
    } else {
        walk_entries_spec(fs.entries, ignore, true, show_hidden).0
    };
    match walk_spec(fs, ignore, true, show_hidden).0 {
        Option::Some(m) => {
            assert(m.children == children);
            assert(m.size == 1);
            assert(forall|i: int|
                0 <= i < m.children.len() ==> all_unit_sizes(#[trigger] m.children[i]));
        },
        Option::None => {},
    }
}

/// In file-count mode every processed entry has only unit sizes.
pub proof fn lemma_process_entry_unit_sizes(e: FsView, ignore: Seq<Seq<char>>, show_hidden: bool)
    ensures
        ({
            match process_entry_spec(e, ignore, true, show_hidden).0 {
                Option::Some(m) => all_unit_sizes(m),
                Option::None => true,
            }
        }),
    decreases e, 1int,
{
    if !((is_hidden(e.name) && !show_hidden) || ignore.contains(e.path)) {
        match e.kind {
            Option::Some(EntryKind::Directory) => {
                lemma_walk_unit_sizes(e, ignore, show_hidden);
            },
            _ => {},
        }
    }
}

/// In file-count mode a walked listing holds only unit sizes.
pub proof fn lemma_walk_entries_unit_sizes(es: Seq<FsView>, ignore: Seq<Seq<char>>, show_hidden: bool)
    ensures
        ({
            let ns = walk_entries_spec(es, ignore, true, show_hidden).0;
            forall|i: int| 0 <= i < ns.len() ==> all_unit_sizes(#[trigger] ns[i])
        }),
    decreases es, 2int,
{
    if es.len() > 0 {
        let (first, _f0) = process_entry_spec(es[0], ignore, true, show_hidden);
        let rest = walk_entries_spec(es.drop_first(), ignore, true, show_hidden).0;
        lemma_process_entry_unit_sizes(es[0], ignore, show_hidden);
        lemma_walk_entries_unit_sizes(es.drop_first(), ignore, show_hidden);
        let ns = walk_entries_spec(es, ignore, true, show_hidden).0;
        assert forall|i: int| 0 <= i < ns.len() implies all_unit_sizes(#[trigger] ns[i]) by {
            match first {
                Option::Some(m) => {
                    assert(ns =~= seq![m] + rest);
                    if i > 0 {
                        assert(ns[i] == rest[i - 1]);
                    }
                },
                Option::None => {
                    assert(ns =~= rest);
                    assert(ns[i] == rest[i]);
                },
            }
        }
    }
}

/// The aggregated tree `m` mirrors the raw tree `n` node for node — nothing
/// was discarded — with every size aggregated.
pub open spec fn aggregated_shape_of(n: NodeView, m: NodeView) -> bool
    decreases n,
{
    &&& m.name == n.name
    &&& m.inode_device == n.inode_device
    &&& m.size == n.size + sum_sizes(m.children)
    &&& m.children.len() == n.children.len()
    &&& forall|i: int|
        0 <= i < n.children.len() ==> aggregated_shape_of(
            #[trigger] n.children[i],
            m.children[i],
        )
}

/// Law: under on-disk-usage mode no hardlink deduplication happens — every
/// raw node is retained, duplicate identities included, and only the sizes
/// are aggregated; the seen set is never consulted nor grown.
pub proof fn lemma_disk_usage_keeps_every_node(n: NodeView, seen: Seq<(u64, u64)>)
    ensures
        clean_spec(n, seen, false).0 is Some,
        aggregated_shape_of(n, clean_spec(n, seen, false).0.unwrap()),
        clean_spec(n, seen, false).1 == seen,
    decreases n, 0int,
{
    lemma_disk_usage_seq(n.children, seen);
    let m = clean_spec(n, seen, false).0.unwrap();
    assert(m.children == clean_seq_spec(n.children, seen, false).0);
}

/// Under on-disk-usage mode a cleaned forest keeps every tree in order.
pub proof fn lemma_disk_usage_seq(s: Seq<NodeView>, seen: Seq<(u64, u64)>)
    ensures
        ({
            let (ks, seen2) = clean_seq_spec(s, seen, false);
            &&& seen2 == seen
            &&& ks.len() == s.len()
            &&& forall|i: int| 0 <= i < s.len() ==> aggregated_shape_of(#[trigger] s[i], ks[i])
        }),
    decreases s, 1int,
{
    if s.len() > 0 {
        lemma_disk_usage_keeps_every_node(s[0], seen);
        lemma_disk_usage_seq(s.drop_first(), seen);
        let m = clean_spec(s[0], seen, false).0.unwrap();
        let rest = clean_seq_spec(s.drop_first(), seen, false).0;
        let ks = clean_seq_spec(s, seen, false).0;
        assert(ks =~= seq![m] + rest);
        assert(ks[0] == m);
        assert forall|i: int| 0 <= i < s.len() implies aggregated_shape_of(
            #[trigger] s[i],
            ks[i],
        ) by {
            if i > 0 {
                assert(s.drop_first()[i - 1] == s[i]);
                assert(ks[i] == rest[i - 1]);
            }
        }
    }
}

/// How often the identity token `id` occurs in the tree.
pub open spec fn id_count(m: NodeView, id: (u64, u64)) -> int
    decreases m, 0int,
{
    (if m.inode_device == Option::Some(id) {
        1int
    } else {
        0int
    }) + id_count_seq(m.children, id)
}

/// How often the identity token `id` occurs in the forest.
pub open spec fn id_count_seq(s: Seq<NodeView>, id: (u64, u64)) -> int
    decreases s, 1int,
{
    if s.len() == 0 {
        0
    } else {
        id_count(s[0], id) + id_count_seq(s.drop_first(), id)
    }
}

/// A recorded identity stays recorded when another one is recorded.
pub proof fn lemma_push_keeps_contains(s: Seq<(u64, u64)>, x: (u64, u64), y: (u64, u64))
    requires
        s.contains(y),
    ensures
        s.push(x).contains(y),
{
    let i = choose|i: int| 0 <= i < s.len() && s[i] == y;
    assert(s.push(x)[i] == y);
}

/// Law: under apparent-size mode each hardlink identity survives at most
/// once per root — an identity already seen never reappears, and one that
/// does appear is recorded in the seen set the pass returns, so exactly one
/// of any set of duplicate entries is retained and counted.
pub proof fn lemma_dedup_unique_identities(n: NodeView, seen: Seq<(u64, u64)>, id: (u64, u64))
    ensures
        ({
            let (out, seen2) = clean_spec(n, seen, true);
            &&& (match out {
                Option::Some(m) => {
                    &&& id_count(m, id) <= 1
                    &&& (seen.contains(id) ==> id_count(m, id) == 0)
                    &&& (id_count(m, id) >= 1 ==> seen2.contains(id))
                },
                Option::None => true,
            })
            &&& (seen.contains(id) ==> seen2.contains(id))
        }),
    decreases n, 0int,
{
    let (out, seen2) = clean_spec(n, seen, true);
    if !is_duplicate(n, seen, true) {
        let seen1 = marked_seen(n, seen, true);
        lemma_dedup_seq(n.children, seen1, id);
        let (kids, kseen) = clean_seq_spec(n.children, seen1, true);
        let m = out.unwrap();
        assert(m.children == kids);
        assert(m.inode_device == n.inode_device);
        assert(id_count(m, id) == (if m.inode_device == Option::Some(id) {
            1int
        } else {
            0int
        }) + id_count_seq(kids, id));
        match n.inode_device {
            Option::Some(nid) => {
                assert(seen1 == seen.push(nid));
                assert(seen1[seen.len() as int] == nid);
                assert(seen1.contains(nid));
                if nid == id {
                    assert(!seen.contains(id));
                    assert(seen1.contains(id));
                    assert(id_count_seq(kids, id) == 0);
                } else {
                    if seen.contains(id) {
                        lemma_push_keeps_contains(seen, nid, id);
                    }
                }
            },
            Option::None => {
                assert(seen1 == seen);
            },
        }
    }
}

/// The forest form of the dedup-uniqueness law.
pub proof fn lemma_dedup_seq(s: Seq<NodeView>, seen: Seq<(u64, u64)>, id: (u64, u64))
    ensures
        ({
            let (ks, seen2) = clean_seq_spec(s, seen, true);
            &&& id_count_seq(ks, id) <= 1
            &&& (seen.contains(id) ==> id_count_seq(ks, id) == 0)
            &&& (id_count_seq(ks, id) >= 1 ==> seen2.contains(id))
            &&& (seen.contains(id) ==> seen2.contains(id))
        }),
    decreases s, 1int,
{
    if s.len() > 0 {
        let (first, seen_mid) = clean_spec(s[0], seen, true);
        let (rest, seen2) = clean_seq_spec(s.drop_first(), seen_mid, true);
        lemma_dedup_unique_identities(s[0], seen, id);
        lemma_dedup_seq(s.drop_first(), seen_mid, id);
        let ks = clean_seq_spec(s, seen, true).0;
        match first {
            Option::Some(m) => {
                assert(ks =~= seq![m] + rest);
                assert(ks[0] == m);
                assert(ks.drop_first() =~= rest);
                assert(ks.len() > 0);
                assert(id_count_seq(ks, id) == id_count(m, id) + id_count_seq(rest, id));
                if id_count(m, id) >= 1 {
                    assert(seen_mid.contains(id));
                    assert(id_count_seq(rest, id) == 0);
                }
            },
            Option::None => {
                assert(ks =~= rest);
            },
        }
    }
}

} // verus!

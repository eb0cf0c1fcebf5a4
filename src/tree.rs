//! Rendering a flat list of relative file paths as an indented tree.
//!
//! The tree is derived, never stored: its nodes are the non-empty segment
//! prefixes of the paths, listed once each in lexicographic order of their
//! segments, which is the depth-first order with siblings sorted by name.
use vstd::prelude::*;
use vstd::string::*;
use crate::order::{
    char_lt, is_strict_total, lemma_lex_skip, lemma_lex_strict_total, lemma_push_to_set,
    lemma_sorted_insert, lemma_sorted_listing_exists, lemma_sorted_unique,
    lemma_text_lt_strict_total, lex_lt, strictly_sorted, text_lt,
};
use crate::path::{segments, split_segments, texts};

verus! {

/// A node of the tree: the segments of a file path or of one of its
/// directories.
pub type Node = Seq<Seq<char>>;

/// Order of nodes: lexicographic by segment, a directory before what it holds.
pub open spec fn node_lt() -> spec_fn(Node, Node) -> bool {
    |a: Node, b: Node| lex_lt(a, b, text_lt())
}

/// The order of nodes is a strict total order.
pub proof fn lemma_node_lt_strict_total()
    ensures
        is_strict_total(node_lt()),
{
    lemma_text_lt_strict_total();
    lemma_lex_strict_total(text_lt());
    assert(node_lt() == (|a: Node, b: Node| lex_lt(a, b, text_lt())));
}

/// The nodes that a path with segments `segs` implies: each non-empty prefix,
/// shortest first.
pub open spec fn prefixes(segs: Seq<Seq<char>>) -> Seq<Node> {
    Seq::new(segs.len(), |k: int| segs.take(k + 1))
}

/// The nodes that the paths imply, path by path, with repeats.
pub open spec fn all_nodes(files: Seq<Seq<char>>) -> Seq<Node>
    decreases files.len(),
{
    if files.len() == 0 {
        Seq::empty()
    } else {
        all_nodes(files.drop_last()) + prefixes(segments(files.last()))
    }
}

/// The set of nodes of the tree of `files`.
pub open spec fn tree_nodes(files: Seq<Seq<char>>) -> Set<Node> {
    all_nodes(files).to_set()
}

/// The nodes of a set in increasing order, each once.
pub open spec fn sorted_listing(nodes: Set<Node>) -> Seq<Node> {
    choose|s: Seq<Node>| strictly_sorted(s, node_lt()) && s.to_set() == nodes
}

/// `m` is a sibling of `n` that sorts after it.
pub open spec fn later_sibling(m: Node, n: Node) -> bool {
    &&& m.len() == n.len()
    &&& m.drop_last() == n.drop_last()
    &&& text_lt()(n.last(), m.last())
}

/// `n` is the last of its siblings.
pub open spec fn is_last_child(nodes: Set<Node>, n: Node) -> bool {
    !exists|m: Node| #[trigger] nodes.contains(m) && later_sibling(m, n)
}

/// `n` is a directory: some node lies directly under it.
pub open spec fn has_children(nodes: Set<Node>, n: Node) -> bool {
    exists|m: Node| #[trigger] nodes.contains(m) && m.len() == n.len() + 1 && m.drop_last() == n
}

/// The guide columns that precede the line of `n`, one for each of its first
/// `k` ancestors: a vertical bar below an ancestor that has later siblings,
/// blank below one that is last.
pub open spec fn guide(nodes: Set<Node>, n: Node, k: int) -> Seq<char>
    decreases k,
{
    if k <= 0 {
        Seq::empty()
    } else {
        guide(nodes, n, k - 1) + if is_last_child(nodes, n.take(k)) {
            "    "@
        } else {
            "│   "@
        }
    }
}

/// The line of node `n`: guide columns, connector, name, a slash for a
/// directory.
pub open spec fn node_line(nodes: Set<Node>, n: Node) -> Seq<char> {
    guide(nodes, n, n.len() - 1) + (if is_last_child(nodes, n) {
        "└── "@
    } else {
        "├── "@
    }) + n.last() + (if has_children(nodes, n) {
        "/"@
    } else {
        Seq::empty()
    }) + "\n"@
}

/// The lines of the nodes `s`, in order.
pub open spec fn lines_text(nodes: Set<Node>, s: Seq<Node>) -> Seq<char>
    decreases s.len(),
{
    if s.len() == 0 {
        Seq::empty()
    } else {
        lines_text(nodes, s.drop_last()) + node_line(nodes, s.last())
    }
}

/// Header and root line of a rendered tree.
pub open spec fn tree_head(root: Seq<char>) -> Seq<char> {
    "Directory Structure:\n"@ + root + "/\n"@
}

/// The rendered tree of the nodes `nodes` under a root named `root`.
pub open spec fn tree_text(root: Seq<char>, nodes: Set<Node>) -> Seq<char> {
    tree_head(root) + lines_text(nodes, sorted_listing(nodes))
}

/// The name shown for the root: its own, or "root" when it has none.
pub open spec fn root_label(name: Option<String>) -> Seq<char> {
    match name {
        Some(s) => s@,
        None => "root"@,
    }
}

/// The nodes held by a list of segment vectors.
pub open spec fn listing(v: Seq<Vec<String>>) -> Seq<Node> {
    v.map_values(|n: Vec<String>| texts(n@))
}

/// Three-way comparison of two names in code-point order.
pub(crate) fn compare_text(a: &String, b: &String) -> (r: i8)
    ensures
        r == 0 <==> a@ == b@,
        r < 0 <==> text_lt()(a@, b@),
        r > 0 <==> text_lt()(b@, a@),
{
    proof {
        lemma_text_lt_strict_total();
    }
    let la = a.as_str().unicode_len();
    let lb = b.as_str().unicode_len();
    let mut i: usize = 0;
    while i < la && i < lb
        invariant
            la == a@.len(),
            lb == b@.len(),
            0 <= i <= la,
            i <= lb,
            a@.take(i as int) == b@.take(i as int),
        decreases la - i,
    {
        let ca = a.as_str().get_char(i);
        let cb = b.as_str().get_char(i);
        if ca != cb {
            proof {
                lemma_lex_skip(a@, b@, char_lt(), i as int);
                lemma_lex_skip(b@, a@, char_lt(), i as int);
                assert(a@.skip(i as int)[0] == ca);
                assert(b@.skip(i as int)[0] == cb);
            }
            if (ca as u32) < (cb as u32) {
                return -1;
            } else {
                return 1;
            }
        }
        assert(a@.take(i + 1) == a@.take(i as int).push(ca));
        assert(b@.take(i + 1) == b@.take(i as int).push(cb));
        i = i + 1;
    }
    proof {
        lemma_lex_skip(a@, b@, char_lt(), i as int);
        lemma_lex_skip(b@, a@, char_lt(), i as int);
    }
    if la < lb {
        -1
    } else if lb < la {
        1
    } else {
        assert(a@ == a@.take(i as int));
        assert(b@ == b@.take(i as int));
        0
    }
}

/// Three-way comparison of two nodes in tree order.
fn compare_nodes(a: &Vec<String>, b: &Vec<String>) -> (r: i8)
    ensures
        r == 0 <==> texts(a@) == texts(b@),
        r < 0 <==> node_lt()(texts(a@), texts(b@)),
        r > 0 <==> node_lt()(texts(b@), texts(a@)),
{
    proof {
        lemma_node_lt_strict_total();
    }
    let ghost ta = texts(a@);
    let ghost tb = texts(b@);
    let mut i: usize = 0;
    while i < a.len() && i < b.len()
        invariant
            ta == texts(a@),
            tb == texts(b@),
            0 <= i <= a@.len(),
            i <= b@.len(),
            ta.take(i as int) == tb.take(i as int),
        decreases a.len() - i,
    {
        let c = compare_text(&a[i], &b[i]);
        if c != 0 {
            proof {
                lemma_lex_skip(ta, tb, text_lt(), i as int);
                lemma_lex_skip(tb, ta, text_lt(), i as int);
                assert(ta.skip(i as int)[0] == a@[i as int]@);
                assert(tb.skip(i as int)[0] == b@[i as int]@);
            }
            return c;
        }
        assert(ta.take(i + 1) == ta.take(i as int).push(a@[i as int]@));
        assert(tb.take(i + 1) == tb.take(i as int).push(b@[i as int]@));
        i = i + 1;
    }
    proof {
        lemma_lex_skip(ta, tb, text_lt(), i as int);
        lemma_lex_skip(tb, ta, text_lt(), i as int);
    }
    if a.len() < b.len() {
        -1
    } else if b.len() < a.len() {
        1
    } else {
        assert(ta == ta.take(i as int));
        assert(tb == tb.take(i as int));
        0
    }
}

/// Adds node `x` to the strictly sorted list `nodes`, unless it is there.
fn insert_node(nodes: &mut Vec<Vec<String>>, x: Vec<String>)
    requires
        strictly_sorted(listing(old(nodes)@), node_lt()),
    ensures
        strictly_sorted(listing(final(nodes)@), node_lt()),
        listing(final(nodes)@).to_set() == listing(old(nodes)@).to_set().insert(texts(x@)),
{
    proof {
        lemma_node_lt_strict_total();
    }
    let ghost tx = texts(x@);
    let ghost l = listing(nodes@);
    let mut lo: usize = 0;
    let mut hi: usize = nodes.len();
    while lo < hi
        invariant
            *nodes == *old(nodes),
            tx == texts(x@),
            l == listing(nodes@),
            lo <= hi <= l.len(),
            is_strict_total(node_lt()),
            strictly_sorted(l, node_lt()),
            forall|j: int| 0 <= j < lo ==> #[trigger] node_lt()(l[j], tx),
            hi < l.len() ==> !node_lt()(l[hi as int], tx),
        decreases hi - lo,
    {
        let mid = lo + (hi - lo) / 2;
        assert(l[mid as int] == texts(nodes@[mid as int]@));
        if compare_nodes(&nodes[mid], &x) < 0 {
            assert forall|j: int| 0 <= j < mid + 1 implies #[trigger] node_lt()(l[j], tx) by {
                if j < mid {
                    assert(node_lt()(l[j], l[mid as int]));
                }
            }
            lo = mid + 1;
        } else {
            hi = mid;
        }
    }
    let p = lo;
    assert(p < l.len() ==> l[p as int] == texts(nodes@[p as int]@));
    if p < nodes.len() && compare_nodes(&nodes[p], &x) == 0 {
        proof {
            assert(l[p as int] == tx);
            assert(l.to_set().contains(tx));
            assert(l.to_set().insert(tx) == l.to_set());
        }
        return;
    }
    proof {
        lemma_sorted_insert(listing(nodes@), p as int, tx, node_lt());
    }
    nodes.insert(p, x);
    assert(listing(nodes@) == listing(old(nodes)@).insert(p as int, tx));
}

/// The first `k` segments of `segs`, as a node of its own.
fn node_prefix(segs: &Vec<String>, k: usize) -> (r: Vec<String>)
    requires
        k <= segs@.len(),
    ensures
        texts(r@) == texts(segs@).take(k as int),
{
    let mut r: Vec<String> = Vec::new();
    let mut j: usize = 0;
    while j < k
        invariant
            j <= k <= segs@.len(),
            r@ == segs@.take(j as int),
        decreases k - j,
    {
        r.push(segs[j].clone());
        assert(r@ == segs@.take(j + 1));
        j = j + 1;
    }
    assert(texts(r@) == texts(segs@).take(k as int));
    r
}

/// The nodes of the tree of `files`, in increasing order, each once.
fn collect_nodes(files: &Vec<String>) -> (r: Vec<Vec<String>>)
    ensures
        strictly_sorted(listing(r@), node_lt()),
        listing(r@).to_set() == tree_nodes(texts(files@)),
{
    let ghost f = texts(files@);
    let mut nodes: Vec<Vec<String>> = Vec::new();
    let mut i: usize = 0;
    assert(f.take(0) == Seq::<Seq<char>>::empty());
    assert(listing(nodes@).to_set() == Set::<Node>::empty());
    while i < files.len()
        invariant
            f == texts(files@),
            i <= files@.len(),
            strictly_sorted(listing(nodes@), node_lt()),
            listing(nodes@).to_set() == all_nodes(f.take(i as int)).to_set(),
        decreases files.len() - i,
    {
        let segs = split_segments(files[i].as_str());
        let ghost before = all_nodes(f.take(i as int));
        let ghost pre = prefixes(texts(segs@));
        let mut k: usize = 0;
        assert(before + pre.take(0) == before);
        while k < segs.len()
            invariant
                f == texts(files@),
                i < files@.len(),
                k <= segs@.len(),
                pre == prefixes(texts(segs@)),
                strictly_sorted(listing(nodes@), node_lt()),
                listing(nodes@).to_set() == (before + pre.take(k as int)).to_set(),
            decreases segs.len() - k,
        {
            let node = node_prefix(&segs, k + 1);
            proof {
                assert(texts(node@) == pre[k as int]);
                assert(before + pre.take(k + 1) == (before + pre.take(k as int)).push(pre[k as int]));
                lemma_push_to_set(before + pre.take(k as int), pre[k as int]);
            }
            insert_node(&mut nodes, node);
            k = k + 1;
        }
        proof {
            assert(pre.take(k as int) == pre);
            assert(f.take(i + 1).drop_last() == f.take(i as int));
            assert(f.take(i + 1).last() == files@[i as int]@);
        }
        i = i + 1;
    }
    assert(f.take(i as int) == f);
    nodes
}

/// Whether the first `j` segments of `m` and `n` agree.
fn same_prefix(m: &Vec<String>, n: &Vec<String>, j: usize) -> (r: bool)
    requires
        j <= m@.len(),
        j <= n@.len(),
    ensures
        r == (texts(m@).take(j as int) == texts(n@).take(j as int)),
{
    let mut i: usize = 0;
    while i < j
        invariant
            i <= j <= m@.len(),
            j <= n@.len(),
            texts(m@).take(i as int) == texts(n@).take(i as int),
        decreases j - i,
    {
        if m[i] != n[i] {
            assert(texts(m@).take(j as int)[i as int] != texts(n@).take(j as int)[i as int]);
            return false;
        }
        assert(texts(m@).take(i + 1) == texts(m@).take(i as int).push(m@[i as int]@));
        assert(texts(n@).take(i + 1) == texts(n@).take(i as int).push(n@[i as int]@));
        i = i + 1;
    }
    true
}

/// Whether the ancestor of `n` of depth `k` (or `n` itself, when `k` is its
/// length) is the last of its siblings among `nodes`.
fn last_child_at(nodes: &Vec<Vec<String>>, n: &Vec<String>, k: usize) -> (r: bool)
    requires
        1 <= k <= n@.len(),
    ensures
        r == is_last_child(listing(nodes@).to_set(), texts(n@).take(k as int)),
{
    let ghost t = texts(n@).take(k as int);
    let ghost l = listing(nodes@);
    assert(t.drop_last() == texts(n@).take(k - 1));
    assert(t.last() == n@[k - 1]@);
    let mut j: usize = 0;
    while j < nodes.len()
        invariant
            t == texts(n@).take(k as int),
            t.drop_last() == texts(n@).take(k - 1),
            t.last() == n@[k - 1]@,
            l == listing(nodes@),
            1 <= k <= n@.len(),
            j <= nodes@.len(),
            forall|q: int| 0 <= q < j ==> !later_sibling(#[trigger] l[q], t),
        decreases nodes.len() - j,
    {
        let m = &nodes[j];
        assert(l[j as int] == texts(m@));
        if m.len() == k {
            assert(texts(m@).drop_last() == texts(m@).take(k - 1));
            assert(texts(m@).last() == m@[k - 1]@);
            if same_prefix(m, n, k - 1) && compare_text(&n[k - 1], &m[k - 1]) < 0 {
                assert(later_sibling(l[j as int], t));
                assert(l.to_set().contains(l[j as int]));
                return false;
            }
        }
        j = j + 1;
    }
    assert forall|m: Node| #[trigger] l.to_set().contains(m) implies !later_sibling(m, t) by {
        let q = choose|q: int| 0 <= q < l.len() && l[q] == m;
        assert(!later_sibling(l[q], t));
    }
    true
}

/// Whether some node of `nodes` lies directly under `n`.
fn has_children_at(nodes: &Vec<Vec<String>>, n: &Vec<String>) -> (r: bool)
    ensures
        r == has_children(listing(nodes@).to_set(), texts(n@)),
{
    let ghost t = texts(n@);
    let ghost l = listing(nodes@);
    let mut j: usize = 0;
    while j < nodes.len()
        invariant
            t == texts(n@),
            l == listing(nodes@),
            j <= nodes@.len(),
            forall|q: int|
                0 <= q < j ==> !(#[trigger] l[q].len() == t.len() + 1 && l[q].drop_last() == t),
        decreases nodes.len() - j,
    {
        let m = &nodes[j];
        if m.len() > n.len() && m.len() - n.len() == 1 {
            assert(texts(m@).drop_last() == texts(m@).take(n@.len() as int));
            assert(t == t.take(n@.len() as int));
            if same_prefix(m, n, n.len()) {
                assert(l.to_set().contains(l[j as int]));
                return true;
            }
        }
        j = j + 1;
    }
    assert forall|m: Node| #[trigger] l.to_set().contains(m) implies !(m.len() == t.len() + 1
        && m.drop_last() == t) by {
        let q = choose|q: int| 0 <= q < l.len() && l[q] == m;
        assert(!(l[q].len() == t.len() + 1 && l[q].drop_last() == t));
    }
    false
}

/// Appends the line of node `n` to `out`.
fn append_node_line(out: &mut String, nodes: &Vec<Vec<String>>, n: &Vec<String>)
    requires
        n@.len() >= 1,
    ensures
        final(out)@ == old(out)@ + node_line(listing(nodes@).to_set(), texts(n@)),
{
    let ghost set = listing(nodes@).to_set();
    let ghost t = texts(n@);
    let mut k: usize = 1;
    while k < n.len()
        invariant
            set == listing(nodes@).to_set(),
            t == texts(n@),
            1 <= k <= n@.len(),
            out@ == old(out)@ + guide(set, t, k - 1),
        decreases n.len() - k,
    {
        if last_child_at(nodes, n, k) {
            out.append("    ");
        } else {
            out.append("│   ");
        }
        assert(out@ == old(out)@ + guide(set, t, k as int));
        k = k + 1;
    }
    let ghost g = guide(set, t, t.len() - 1);
    assert(t.take(n@.len() as int) == t);
    let last = n.len() - 1;
    let ghost c: Seq<char>;
    if last_child_at(nodes, n, n.len()) {
        out.append("└── ");
        proof {
            c = "└── "@;
        }
    } else {
        out.append("├── ");
        proof {
            c = "├── "@;
        }
    }
    out.append(n[last].as_str());
    let ghost d: Seq<char>;
    if has_children_at(nodes, n) {
        out.append("/");
        proof {
            d = "/"@;
        }
    } else {
        proof {
            d = Seq::empty();
        }
        assert(out@ == out@ + d);
    }
    out.append("\n");
    assert(t.last() == n@[last as int]@);
    assert(out@ == old(out)@ + (g + c + t.last() + d + "\n"@));
}

/// Every node that a list of paths implies has at least one segment.
proof fn lemma_all_nodes_nonempty(files: Seq<Seq<char>>)
    ensures
        forall|i: int| 0 <= i < all_nodes(files).len() ==> #[trigger] all_nodes(files)[i].len() >= 1,
    decreases files.len(),
{
    if files.len() > 0 {
        lemma_all_nodes_nonempty(files.drop_last());
        let a = all_nodes(files.drop_last());
        let p = prefixes(segments(files.last()));
        assert forall|i: int| 0 <= i < all_nodes(files).len() implies #[trigger] all_nodes(
            files,
        )[i].len() >= 1 by {
            if i >= a.len() {
                assert(all_nodes(files)[i] == p[i - a.len()]);
            } else {
                assert(all_nodes(files)[i] == a[i]);
            }
        }
    }
}

/// Renders `files` (paths relative to the root, '/'-separated) as a tree
/// under a root named `root_name` ("root" when the root has no name).
///
/// Every directory that a path implies gets one line, whatever the order and
/// the repeats of `files`; siblings are sorted by name, and a directory's line
/// ends in a slash.
pub fn generate_directory_tree(root_name: Option<String>, files: &Vec<String>) -> (r: String)
    ensures
        r@ == tree_text(root_label(root_name), tree_nodes(texts(files@))),
{
    let mut tree = String::new();
    tree.append("Directory Structure:\n");
    match &root_name {
        Some(name) => tree.append(name.as_str()),
        None => tree.append("root"),
    }
    tree.append("/\n");
    let ghost head = tree@;
    assert(head == tree_head(root_label(root_name)));
    let nodes = collect_nodes(files);
    let ghost set = listing(nodes@).to_set();
    let ghost l = listing(nodes@);
    proof {
        lemma_all_nodes_nonempty(texts(files@));
    }
    let mut j: usize = 0;
    assert(l.take(0) == Seq::<Node>::empty());
    while j < nodes.len()
        invariant
            set == listing(nodes@).to_set(),
            l == listing(nodes@),
            set == tree_nodes(texts(files@)),
            forall|i: int|
                0 <= i < all_nodes(texts(files@)).len() ==> #[trigger] all_nodes(
                    texts(files@),
                )[i].len() >= 1,
            j <= nodes@.len(),
            tree@ == head + lines_text(set, l.take(j as int)),
        decreases nodes.len() - j,
    {
        proof {
            assert(set.contains(l[j as int]));
            assert(all_nodes(texts(files@)).to_set().contains(l[j as int]));
            let q = choose|q: int|
                0 <= q < all_nodes(texts(files@)).len() && all_nodes(texts(files@))[q] == l[j as int];
            assert(texts(nodes@[j as int]@).len() >= 1);
        }
        append_node_line(&mut tree, &nodes, &nodes[j]);
        assert(l.take(j + 1).drop_last() == l.take(j as int));
        j = j + 1;
    }
    proof {
        assert(l.take(j as int) == l);
        assert(strictly_sorted(l, node_lt()) && l.to_set() == set);
        let s = sorted_listing(set);
        lemma_node_lt_strict_total();
        lemma_sorted_unique(s, l, node_lt());
    }
    tree
}

/// A node belongs to the tree of `files` exactly when it is a prefix node of
/// one of the paths.
proof fn lemma_tree_nodes_member(files: Seq<Seq<char>>, n: Node)
    ensures
        tree_nodes(files).contains(n) <==> exists|i: int|
            0 <= i < files.len() && #[trigger] prefixes(segments(files[i])).contains(n),
    decreases files.len(),
{
    if files.len() > 0 {
        let init = files.drop_last();
        let a = all_nodes(init);
        let p = prefixes(segments(files.last()));
        lemma_tree_nodes_member(init, n);
        if tree_nodes(files).contains(n) {
            let q = choose|q: int| 0 <= q < all_nodes(files).len() && all_nodes(files)[q] == n;
            if q < a.len() {
                assert(a[q] == n);
                assert(a.to_set().contains(n));
                let i = choose|i: int| 0 <= i < init.len() && #[trigger] prefixes(segments(init[i])).contains(n);
                assert(files[i] == init[i]);
            } else {
                assert(p[q - a.len()] == n);
                assert(p.contains(n));
                assert(files[files.len() - 1] == files.last());
            }
        }
        if exists|i: int| 0 <= i < files.len() && #[trigger] prefixes(segments(files[i])).contains(n) {
            let i = choose|i: int| 0 <= i < files.len() && #[trigger] prefixes(segments(files[i])).contains(n);
            if i < init.len() {
                assert(init[i] == files[i]);
                assert(a.to_set().contains(n));
                let q = choose|q: int| 0 <= q < a.len() && a[q] == n;
                assert(all_nodes(files)[q] == n);
            } else {
                let q = choose|q: int| 0 <= q < p.len() && p[q] == n;
                assert(all_nodes(files)[a.len() + q] == n);
            }
            assert(tree_nodes(files).contains(n));
        }
    }
}

/// The rendered tree depends on the set of paths only: neither their order
/// nor their repeats change it.
pub proof fn lemma_tree_order_independent(root: Seq<char>, files1: Seq<Seq<char>>, files2: Seq<Seq<char>>)
    requires
        files1.to_set() == files2.to_set(),
    ensures
        tree_text(root, tree_nodes(files1)) == tree_text(root, tree_nodes(files2)),
{
    assert forall|n: Node| tree_nodes(files1).contains(n) implies tree_nodes(files2).contains(n) by {
        lemma_tree_nodes_member(files1, n);
        lemma_tree_nodes_member(files2, n);
        let i = choose|i: int| 0 <= i < files1.len() && #[trigger] prefixes(segments(files1[i])).contains(n);
        assert(files1.to_set().contains(files1[i]));
        let j = choose|j: int| 0 <= j < files2.len() && files2[j] == files1[i];
        assert(prefixes(segments(files2[j])).contains(n));
    }
    assert forall|n: Node| tree_nodes(files2).contains(n) implies tree_nodes(files1).contains(n) by {
        lemma_tree_nodes_member(files1, n);
        lemma_tree_nodes_member(files2, n);
        let i = choose|i: int| 0 <= i < files2.len() && #[trigger] prefixes(segments(files2[i])).contains(n);
        assert(files2.to_set().contains(files2[i]));
        let j = choose|j: int| 0 <= j < files1.len() && files1[j] == files2[i];
        assert(prefixes(segments(files1[j])).contains(n));
    }
    assert(tree_nodes(files1) == tree_nodes(files2));
}

/// A directory shared by two different paths is listed once in the tree, and
/// listed as a directory.
pub proof fn lemma_shared_directory_listed_once(files: Seq<Seq<char>>, a: int, b: int, dir: Node)
    requires
        0 <= a < files.len(),
        0 <= b < files.len(),
        files[a] != files[b],
        1 <= dir.len() < segments(files[a]).len(),
        dir.len() < segments(files[b]).len(),
        segments(files[a]).take(dir.len() as int) == dir,
        segments(files[b]).take(dir.len() as int) == dir,
    ensures
        has_children(tree_nodes(files), dir),
        exists|i: int| 0 <= i < sorted_listing(tree_nodes(files)).len() && sorted_listing(tree_nodes(files))[i] == dir,
        forall|i: int, j: int|
            0 <= i < sorted_listing(tree_nodes(files)).len() && 0 <= j < sorted_listing(tree_nodes(files)).len()
                && #[trigger] sorted_listing(tree_nodes(files))[i] == dir && #[trigger] sorted_listing(tree_nodes(files))[j] == dir ==> i == j,
{
    let set = tree_nodes(files);
    let segs = segments(files[a]);
    lemma_node_lt_strict_total();
    lemma_sorted_listing_exists(all_nodes(files), node_lt());
    let s = sorted_listing(set);
    assert(prefixes(segs)[dir.len() - 1] == dir);
    assert(prefixes(segs).contains(dir));
    let child = prefixes(segs)[dir.len() as int];
    assert(prefixes(segs).contains(child));
    assert(child.drop_last() == dir);
    lemma_tree_nodes_member(files, dir);
    lemma_tree_nodes_member(files, child);
    assert(set.contains(child));
    assert(s.to_set().contains(dir));
    assert forall|i: int, j: int|
        0 <= i < s.len() && 0 <= j < s.len() && #[trigger] s[i] == dir && #[trigger] s[j] == dir implies i == j by {
        if i < j {
            assert(node_lt()(s[i], s[j]));
        } else if j < i {
            assert(node_lt()(s[j], s[i]));
        }
    }
}

/// An empty list of paths renders as the header and the root line alone.
pub proof fn lemma_empty_tree(root: Seq<char>)
    ensures
        tree_text(root, tree_nodes(Seq::empty())) == tree_head(root),
{
    let set = tree_nodes(Seq::<Seq<char>>::empty());
    assert(set == Set::<Node>::empty());
    let e = Seq::<Node>::empty();
    assert(strictly_sorted(e, node_lt()) && e.to_set() == set);
    let s = sorted_listing(set);
    if s.len() > 0 {
        assert(s.to_set().contains(s[0]));
    }
    assert(tree_head(root) + Seq::<char>::empty() == tree_head(root));
}

} // verus!

//! The directory tree of a project: the walked paths under the root,
//! sorted, and nested into nodes (or printed as indented lines).
use vstd::prelude::*;

use crate::map::walk::{comps_lt, components_of, lemma_comps_lt_total, lemma_comps_lt_trans, path_components};
use crate::order::{stable_sort, stable_sorted, Ranked};
use crate::text::{chars_of, file_name, file_name_of, slice_eq, str_eq, string_from_chars};

verus! {

/// A node of the tree: a file or a directory, with its children in the
/// order they were first seen.
#[derive(Debug)]
pub struct Node {
    pub name: String,
    pub children: Vec<Node>,
    pub is_dir: bool,
}

pub struct NodeView {
    pub name: Seq<char>,
    pub children: Seq<NodeView>,
    pub is_dir: bool,
}

pub open spec fn node_view(n: Node) -> NodeView
    decreases n,
{
    NodeView { name: n.name@, children: views_of(n.children@), is_dir: n.is_dir }
}

/// The views of the nodes of `cs`, in order.
pub open spec fn views_of(cs: Seq<Node>) -> Seq<NodeView>
    decreases cs,
{
    if cs.len() == 0 {
        Seq::empty()
    } else {
        views_of(cs.drop_last()).push(node_view(cs.last()))
    }
}

pub proof fn lemma_views_of(cs: Seq<Node>)
    ensures
        views_of(cs).len() == cs.len(),
        forall|i: int| 0 <= i < cs.len() ==> #[trigger] views_of(cs)[i] == node_view(cs[i]),
    decreases cs.len(),
{
    if cs.len() > 0 {
        lemma_views_of(cs.drop_last());
    }
}

/// The views of `cs` after one node changed or was added.
pub proof fn lemma_views_of_update(cs: Seq<Node>, i: int, n: Node)
    requires
        0 <= i < cs.len(),
    ensures
        views_of(cs.update(i, n)) == views_of(cs).update(i, node_view(n)),
        views_of(cs.push(n)) == views_of(cs).push(node_view(n)),
{
    lemma_views_of(cs);
    lemma_views_of(cs.update(i, n));
    lemma_views_of(cs.push(n));
    assert(views_of(cs.update(i, n)) =~= views_of(cs).update(i, node_view(n)));
    assert(views_of(cs.push(n)) =~= views_of(cs).push(node_view(n)));
}

pub proof fn lemma_views_of_push(cs: Seq<Node>, n: Node)
    ensures
        views_of(cs.push(n)) == views_of(cs).push(node_view(n)),
{
    lemma_views_of(cs);
    lemma_views_of(cs.push(n));
    assert(views_of(cs.push(n)) =~= views_of(cs).push(node_view(n)));
}

/// The position of the first child named `name`.
fn find_child(children: &Vec<Node>, name: &str) -> (res: Option<usize>)
    ensures
        match res {
            Some(k) => first_child(views_of(children@), name@, k as int),
            None => forall|k: int| !first_child(views_of(children@), name@, k),
        },
{
    proof {
        lemma_views_of(children@);
    }
    let mut i: usize = 0;
    while i < children.len()
        invariant
            i <= children@.len(),
            views_of(children@).len() == children@.len(),
            forall|j: int| 0 <= j < children@.len() ==> #[trigger] views_of(children@)[j] == node_view(children@[j]),
            forall|j: int| 0 <= j < i ==> #[trigger] children@[j].name@ != name@,
        decreases children@.len() - i,
    {
        if str_eq(children[i].name.as_str(), name) {
            proof {
                assert forall|j: int| 0 <= j < i implies views_of(children@)[j].name != name@ by {
                    assert(views_of(children@)[j] == node_view(children@[j]));
                }
                assert(views_of(children@)[i as int] == node_view(children@[i as int]));
            }
            return Some(i);
        }
        i = i + 1;
    }
    proof {
        assert forall|k: int| !first_child(views_of(children@), name@, k) by {
            if 0 <= k < children@.len() {
                assert(views_of(children@)[k] == node_view(children@[k]));
            }
        }
    }
    None
}

/// `k` is the first child named `name`.
pub open spec fn first_child(cs: Seq<NodeView>, name: Seq<char>, k: int) -> bool {
    0 <= k < cs.len() && cs[k].name == name && forall|j: int| 0 <= j < k ==> cs[j].name != name
}

/// Adds the path `parts` below `n`: the first part goes to the first child
/// of that name, created (a directory when more parts follow, else as
/// `is_dir` says) when there is none; the rest goes below it.
pub open spec fn insert_spec(n: NodeView, parts: Seq<Seq<char>>, is_dir: bool) -> NodeView
    decreases parts.len(),
{
    if parts.len() == 0 {
        n
    } else if exists|k: int| first_child(n.children, parts[0], k) {
        let k = choose|k: int| first_child(n.children, parts[0], k);
        NodeView {
            children: n.children.update(k, insert_spec(n.children[k], parts.skip(1), is_dir)),
            ..n
        }
    } else {
        let c = NodeView { name: parts[0], children: Seq::empty(), is_dir: parts.len() > 1 || is_dir };
        NodeView { children: n.children.push(insert_spec(c, parts.skip(1), is_dir)), ..n }
    }
}

/// A child named `p` at `j` means some child is the first of that name.
proof fn lemma_first_child_exists(cs: Seq<NodeView>, p: Seq<char>, j: int)
    requires
        0 <= j < cs.len(),
        cs[j].name == p,
    ensures
        exists|k: int| first_child(cs, p, k),
    decreases j,
{
    if forall|i: int| 0 <= i < j ==> cs[i].name != p {
        assert(first_child(cs, p, j));
    } else {
        let i = choose|i: int| 0 <= i < j && cs[i].name == p;
        lemma_first_child_exists(cs, p, i);
    }
}

/// At most one child is the first of a name.
proof fn lemma_first_child_unique(cs: Seq<NodeView>, p: Seq<char>, a: int, b: int)
    requires
        first_child(cs, p, a),
        first_child(cs, p, b),
    ensures
        a == b,
{
}

/// Inserting a path keeps the node's own name and kind.
proof fn lemma_insert_keeps_node(n: NodeView, parts: Seq<Seq<char>>, is_dir: bool)
    ensures
        insert_spec(n, parts, is_dir).name == n.name,
        insert_spec(n, parts, is_dir).is_dir == n.is_dir,
{
}

/// Inserting the same path a second time leaves the tree unchanged.
pub proof fn lemma_insert_idempotent(n: NodeView, parts: Seq<Seq<char>>, is_dir: bool)
    ensures
        insert_spec(insert_spec(n, parts, is_dir), parts, is_dir) == insert_spec(n, parts, is_dir),
    decreases parts.len(),
{
    if parts.len() == 0 {
        return;
    }
    let m = insert_spec(n, parts, is_dir);
    let p = parts[0];
    let rest = parts.skip(1);
    if exists|k: int| first_child(n.children, p, k) {
        let k = choose|k: int| first_child(n.children, p, k);
        let c = insert_spec(n.children[k], rest, is_dir);
        lemma_insert_keeps_node(n.children[k], rest, is_dir);
        assert(m.children == n.children.update(k, c));
        assert(first_child(m.children, p, k));
        let k2 = choose|k2: int| first_child(m.children, p, k2);
        lemma_first_child_unique(m.children, p, k, k2);
        lemma_insert_idempotent(n.children[k], rest, is_dir);
        assert(m.children.update(k, insert_spec(m.children[k], rest, is_dir)) =~= m.children);
    } else {
        let c0 = NodeView { name: p, children: Seq::empty(), is_dir: parts.len() > 1 || is_dir };
        let c = insert_spec(c0, rest, is_dir);
        lemma_insert_keeps_node(c0, rest, is_dir);
        let last = n.children.len() as int;
        assert(m.children == n.children.push(c));
        assert forall|j: int| 0 <= j < last implies m.children[j].name != p by {
            if n.children[j].name == p {
                lemma_first_child_exists(n.children, p, j);
            }
        }
        assert(first_child(m.children, p, last));
        let k2 = choose|k2: int| first_child(m.children, p, k2);
        lemma_first_child_unique(m.children, p, last, k2);
        lemma_insert_idempotent(c0, rest, is_dir);
        assert(m.children.update(last, insert_spec(m.children[last], rest, is_dir)) =~= m.children);
    }
}

/// No two children of `n`, at any level below it, share a name.
pub open spec fn names_distinct(n: NodeView) -> bool
    decreases n,
{
    &&& forall|i: int, j: int|
        0 <= i < j < n.children.len() ==> #[trigger] n.children[i].name != #[trigger] n.children[j].name
    &&& all_names_distinct(n.children)
}

/// Every node of `cs` has distinct names at every level below it.
pub open spec fn all_names_distinct(cs: Seq<NodeView>) -> bool
    decreases cs,
{
    if cs.len() == 0 {
        true
    } else {
        all_names_distinct(cs.drop_last()) && names_distinct(cs.last())
    }
}

proof fn lemma_all_names_distinct(cs: Seq<NodeView>)
    ensures
        all_names_distinct(cs) <==> forall|i: int| 0 <= i < cs.len() ==> #[trigger] names_distinct(cs[i]),
    decreases cs.len(),
{
    if cs.len() > 0 {
        let d = cs.drop_last();
        lemma_all_names_distinct(d);
        if all_names_distinct(cs) {
            assert forall|i: int| 0 <= i < cs.len() implies #[trigger] names_distinct(cs[i]) by {
                if i < cs.len() - 1 {
                    assert(d[i] == cs[i]);
                    assert(names_distinct(d[i]));
                }
            }
        }
        if forall|i: int| 0 <= i < cs.len() ==> #[trigger] names_distinct(cs[i]) {
            assert forall|i: int| 0 <= i < d.len() implies #[trigger] names_distinct(d[i]) by {
                assert(d[i] == cs[i]);
                assert(names_distinct(cs[i]));
            }
            assert(names_distinct(cs[cs.len() - 1]));
        }
    }
}

/// The path `parts` runs down from `n`: each part names the first child of
/// that name below the previous one.
pub open spec fn has_path(n: NodeView, parts: Seq<Seq<char>>) -> bool
    decreases parts.len(),
{
    if parts.len() == 0 {
        true
    } else if exists|k: int| first_child(n.children, parts[0], k) {
        let k = choose|k: int| first_child(n.children, parts[0], k);
        has_path(n.children[k], parts.skip(1))
    } else {
        false
    }
}

/// After inserting a path, it runs down from the node, and names stay
/// distinct at every level when they were.
pub proof fn lemma_insert_path_and_names(n: NodeView, parts: Seq<Seq<char>>, is_dir: bool)
    ensures
        has_path(insert_spec(n, parts, is_dir), parts),
        names_distinct(n) ==> names_distinct(insert_spec(n, parts, is_dir)),
    decreases parts.len(),
{
    if parts.len() == 0 {
        return;
    }
    let m = insert_spec(n, parts, is_dir);
    let p = parts[0];
    let rest = parts.skip(1);
    lemma_all_names_distinct(n.children);
    lemma_all_names_distinct(m.children);
    if exists|k: int| first_child(n.children, p, k) {
        let k = choose|k: int| first_child(n.children, p, k);
        let c = insert_spec(n.children[k], rest, is_dir);
        lemma_insert_keeps_node(n.children[k], rest, is_dir);
        lemma_insert_path_and_names(n.children[k], rest, is_dir);
        assert(m.children == n.children.update(k, c));
        assert(first_child(m.children, p, k));
        let k2 = choose|k2: int| first_child(m.children, p, k2);
        lemma_first_child_unique(m.children, p, k, k2);
        if names_distinct(n) {
            assert(names_distinct(n.children[k]));
            assert forall|i: int| 0 <= i < m.children.len() implies #[trigger] names_distinct(
                m.children[i],
            ) by {
                if i != k {
                    assert(m.children[i] == n.children[i]);
                }
            }
            assert forall|i: int, j: int| 0 <= i < j < m.children.len() implies #[trigger] m.children[i].name
                != #[trigger] m.children[j].name by {
                assert(n.children[i].name != n.children[j].name);
            }
        }
    } else {
        let c0 = NodeView { name: p, children: Seq::empty(), is_dir: parts.len() > 1 || is_dir };
        let c = insert_spec(c0, rest, is_dir);
        lemma_insert_keeps_node(c0, rest, is_dir);
        lemma_insert_path_and_names(c0, rest, is_dir);
        let last = n.children.len() as int;
        assert(m.children == n.children.push(c));
        assert forall|j: int| 0 <= j < last implies m.children[j].name != p by {
            if n.children[j].name == p {
                lemma_first_child_exists(n.children, p, j);
            }
        }
        assert(first_child(m.children, p, last));
        let k2 = choose|k2: int| first_child(m.children, p, k2);
        lemma_first_child_unique(m.children, p, last, k2);
        lemma_all_names_distinct(c0.children);
        assert(names_distinct(c0));
        if names_distinct(n) {
            assert forall|i: int| 0 <= i < m.children.len() implies #[trigger] names_distinct(
                m.children[i],
            ) by {
                if i < last {
                    assert(m.children[i] == n.children[i]);
                }
            }
            assert forall|i: int, j: int| 0 <= i < j < m.children.len() implies #[trigger] m.children[i].name
                != #[trigger] m.children[j].name by {
                if j < last {
                    assert(n.children[i].name != n.children[j].name);
                }
            }
        }
    }
}

/// Adds the path `parts[from..]` below `node` (see `insert_spec`).
pub fn insert(node: &mut Node, parts: &Vec<String>, from: usize, is_dir: bool)
    requires
        from <= parts@.len(),
    ensures
        node_view(*final(node)) == insert_spec(
            node_view(*old(node)),
            parts@.skip(from as int).map_values(|p: String| p@),
            is_dir,
        ),
    decreases parts@.len() - from,
{
    let ghost ps = parts@.skip(from as int).map_values(|p: String| p@);
    let ghost n0 = node_view(*node);
    if from >= parts.len() {
        assert(ps.len() == 0);
        return;
    }
    assert(ps[0] == parts@[from as int]@);
    assert(ps.skip(1) =~= parts@.skip(from + 1).map_values(|p: String| p@));
    let head = &parts[from];
    match find_child(&node.children, head.as_str()) {
        Some(i) => {
            proof {
                let k = choose|k: int| first_child(n0.children, ps[0], k);
                assert(k == i);
                lemma_views_of(node.children@);
            }
            let ghost cs0 = node.children@;
            let ghost child0 = node_view(node.children@[i as int]);
            insert(&mut node.children[i], parts, from + 1, is_dir);
            proof {
                lemma_views_of_update(cs0, i as int, node.children@[i as int]);
                assert(node.children@ =~= cs0.update(i as int, node.children@[i as int]));
                assert(node_view(*node).children == n0.children.update(
                    i as int,
                    insert_spec(child0, ps.skip(1), is_dir),
                ));
            }
        },
        None => {
            let fresh = Node {
                name: head.clone(),
                children: Vec::new(),
                is_dir: parts.len() - from > 1 || is_dir,
            };
            let ghost fv = node_view(fresh);
            assert(fv.children =~= Seq::<NodeView>::empty());
            let ghost cs0 = node.children@;
            node.children.push(fresh);
            let last = node.children.len() - 1;
            let ghost cs1 = node.children@;
            insert(&mut node.children[last], parts, from + 1, is_dir);
            proof {
                lemma_views_of_push(cs0, node.children@[last as int]);
                assert(node.children@ =~= cs0.push(node.children@[last as int]));
                assert(node_view(*node).children == n0.children.push(
                    insert_spec(fv, ps.skip(1), is_dir),
                ));
            }
        },
    }
}

/// Every path's components begin with the root's.
pub open spec fn under_root(root: Seq<char>, paths: Seq<(String, bool)>) -> bool {
    forall|k: int|
        0 <= k < paths.len() ==> path_components(root).is_prefix_of(
            path_components(#[trigger] paths[k].0@),
        )
}

/// The name shown for the root: its file name, or `.`.
pub open spec fn root_name(root: Seq<char>) -> Seq<char> {
    match file_name(root) {
        Some(n) => n,
        None => "."@,
    }
}

/// The tree of `paths` (each with whether it is a directory) under `root`:
/// each path, relative to the root, inserted in order.
pub open spec fn tree_of(root: Seq<char>, paths: Seq<(String, bool)>) -> NodeView
    decreases paths.len(),
{
    if paths.len() == 0 {
        NodeView { name: root_name(root), children: Seq::empty(), is_dir: true }
    } else {
        let p = paths.last();
        insert_spec(
            tree_of(root, paths.drop_last()),
            path_components(p.0@).skip(path_components(root).len() as int),
            p.1,
        )
    }
}

/// The tree of the walked `paths` below `root` (see `tree_of`).
pub fn build_tree(root: &str, paths: &Vec<(String, bool)>) -> (res: Node)
    requires
        under_root(root@, paths@),
    ensures
        node_view(res) == tree_of(root@, paths@),
{
    let rc = chars_of(root);
    let name = match file_name_of(rc.as_slice()) {
        Some(n) => string_from_chars(n.as_slice()),
        None => ".".to_owned(),
    };
    let mut root_node = Node { name, children: Vec::new(), is_dir: true };
    let root_comps = components_of(rc.as_slice());
    let skip = root_comps.len();
    let mut i: usize = 0;
    proof {
        reveal_strlit(".");
    }
    assert(node_view(root_node).children =~= Seq::<NodeView>::empty());
    assert(paths@.take(0) =~= Seq::<(String, bool)>::empty());
    while i < paths.len()
        invariant
            i <= paths@.len(),
            under_root(root@, paths@),
            skip == path_components(root@).len(),
            node_view(root_node) == tree_of(root@, paths@.take(i as int)),
        decreases paths@.len() - i,
    {
        let (p, d) = (&paths[i].0, paths[i].1);
        assert(paths@.take(i + 1).drop_last() =~= paths@.take(i as int));
        assert(paths@.take(i + 1).last() == paths@[i as int]);
        let pc = chars_of(p.as_str());
        let comps = components_of(pc.as_slice());
        let ghost cv = comps@.map_values(|c: Vec<char>| c@);
        assert(path_components(root@).is_prefix_of(path_components(paths@[i as int].0@)));
        let mut parts: Vec<String> = Vec::new();
        let mut j: usize = 0;
        while j < comps.len()
            invariant
                j <= comps@.len(),
                cv == comps@.map_values(|c: Vec<char>| c@),
                parts@.map_values(|s: String| s@) == cv.take(j as int),
            decreases comps@.len() - j,
        {
            let ghost before = parts@;
            parts.push(string_from_chars(comps[j].as_slice()));
            assert(parts@.map_values(|s: String| s@) =~= before.map_values(|s: String| s@).push(
                cv[j as int],
            ));
            assert(cv.take(j + 1) =~= cv.take(j as int).push(cv[j as int]));
            j = j + 1;
        }
        assert(cv.take(j as int) =~= cv);
        assert(parts@.skip(skip as int).map_values(|s: String| s@) =~= cv.skip(skip as int));
        insert(&mut root_node, &parts, skip, d);
        i = i + 1;
    }
    assert(paths@.take(i as int) =~= paths@);
    root_node
}

// ---------------------------------------------------------------------------
// The walked paths
// ---------------------------------------------------------------------------
/// A walked path and whether it is a directory.
#[derive(Debug)]
pub struct TreePath {
    pub path: String,
    pub is_dir: bool,
}

/// Paths come in component order.
impl Ranked for TreePath {
    open spec fn spec_rank_le(&self, other: &Self) -> bool {
        comps_lt(path_components(self.path@), path_components(other.path@)) || path_components(
            self.path@,
        ) == path_components(other.path@)
    }

    fn rank_le(&self, other: &Self) -> (res: bool) {
        let a = chars_of(self.path.as_str());
        let b = chars_of(other.path.as_str());
        let ca = components_of(a.as_slice());
        let cb = components_of(b.as_slice());
        proof {
            lemma_comps_lt_total(path_components(self.path@), path_components(other.path@));
        }
        if comps_less_or_equal(&ca, &cb) {
            true
        } else {
            false
        }
    }

    proof fn rank_total(a: &Self, b: &Self) {
        lemma_comps_lt_total(path_components(a.path@), path_components(b.path@));
    }

    proof fn rank_trans(a: &Self, b: &Self, c: &Self) {
        let (x, y, z) = (path_components(a.path@), path_components(b.path@), path_components(c.path@));
        if comps_lt(x, y) && comps_lt(y, z) {
            lemma_comps_lt_trans(x, y, z);
        }
    }
}

/// Whether components `a` sort before or equal components `b`.
fn comps_less_or_equal(a: &Vec<Vec<char>>, b: &Vec<Vec<char>>) -> (res: bool)
    ensures
        res == (comps_lt(a@.map_values(|c: Vec<char>| c@), b@.map_values(|c: Vec<char>| c@))
            || a@.map_values(|c: Vec<char>| c@) == b@.map_values(|c: Vec<char>| c@)),
{
    let ghost av = a@.map_values(|c: Vec<char>| c@);
    let ghost bv = b@.map_values(|c: Vec<char>| c@);
    proof {
        lemma_comps_lt_total(av, bv);
        crate::map::walk::lemma_comps_lt_irrefl(av);
    }
    if same_components(a, b) {
        true
    } else {
        crate::map::walk::comps_less(a, b)
    }
}

/// Whether two component lists are equal.
fn same_components(a: &Vec<Vec<char>>, b: &Vec<Vec<char>>) -> (res: bool)
    ensures
        res == (a@.map_values(|c: Vec<char>| c@) == b@.map_values(|c: Vec<char>| c@)),
{
    let ghost av = a@.map_values(|c: Vec<char>| c@);
    let ghost bv = b@.map_values(|c: Vec<char>| c@);
    if a.len() != b.len() {
        assert(av.len() != bv.len());
        return false;
    }
    let mut i: usize = 0;
    while i < a.len()
        invariant
            i <= a@.len(),
            a@.len() == b@.len(),
            av == a@.map_values(|c: Vec<char>| c@),
            bv == b@.map_values(|c: Vec<char>| c@),
            forall|j: int| 0 <= j < i ==> av[j] == bv[j],
        decreases a@.len() - i,
    {
        if !slice_eq(a[i].as_slice(), b[i].as_slice()) {
            assert(av[i as int] != bv[i as int]);
            return false;
        }
        i = i + 1;
    }
    assert(av =~= bv);
    true
}

/// `p` names the same place as the root, component for component.
pub open spec fn is_root(root: Seq<char>, p: Seq<char>) -> bool {
    path_components(p) == path_components(root)
}

/// The walked entries other than the root itself, in walk order.
pub open spec fn below_root(root: Seq<char>, walked: Seq<TreePath>) -> Seq<TreePath>
    decreases walked.len(),
{
    if walked.len() == 0 {
        Seq::empty()
    } else {
        let prev = below_root(root, walked.drop_last());
        if is_root(root, walked.last().path@) {
            prev
        } else {
            prev.push(walked.last())
        }
    }
}

/// The walked entries other than the root, sorted by path.
pub fn tree_paths(root: &str, walked: Vec<TreePath>) -> (res: Vec<TreePath>)
    ensures
        stable_sorted(below_root(root@, walked@), res@),
{
    let rc = chars_of(root);
    let root_comps = components_of(rc.as_slice());
    let mut kept: Vec<TreePath> = Vec::new();
    let ghost all = walked@;
    let mut rest = walked;
    let n = rest.len();
    let mut i: usize = 0;
    assert(all.take(0) =~= Seq::<TreePath>::empty());
    while i < n
        invariant
            i <= n,
            n == all.len(),
            rest@ == all.skip(i as int),
            root_comps@.map_values(|c: Vec<char>| c@) == path_components(root@),
            kept@ == below_root(root@, all.take(i as int)),
        decreases n - i,
    {
        let e = rest.remove(0);
        assert(e == all[i as int]);
        assert(rest@ =~= all.skip(i + 1));
        assert(all.take(i + 1).drop_last() =~= all.take(i as int));
        assert(all.take(i + 1).last() == e);
        let pc = chars_of(e.path.as_str());
        let comps = components_of(pc.as_slice());
        if !same_components(&comps, &root_comps) {
            kept.push(e);
        }
        i = i + 1;
    }
    assert(all.take(i as int) =~= all);
    stable_sort(kept)
}

// ---------------------------------------------------------------------------
// Printing
// ---------------------------------------------------------------------------
/// `n` copies of two spaces.
pub open spec fn indent(n: nat) -> Seq<char>
    decreases n,
{
    if n == 0 {
        Seq::empty()
    } else {
        indent((n - 1) as nat) + "  "@
    }
}

/// The lines for one path after the one whose components were `last`: each
/// component, indented by its depth, unless the previous path had the same
/// component at that depth.
pub open spec fn path_lines(last: Seq<Seq<char>>, parts: Seq<Seq<char>>) -> Seq<Seq<char>>
    decreases parts.len(),
{
    if parts.len() == 0 {
        Seq::empty()
    } else {
        let i = parts.len() - 1;
        let prev = path_lines(last, parts.drop_last());
        if i < last.len() && last[i] == parts[i] {
            prev
        } else {
            prev.push(indent((i + 1) as nat) + parts[i])
        }
    }
}

/// The printed tree: the root's name, then the lines of each path in turn.
pub open spec fn lines_of(root: Seq<char>, paths: Seq<Seq<char>>) -> Seq<Seq<char>>
    decreases paths.len(),
{
    if paths.len() == 0 {
        seq![root_name(root)]
    } else {
        let skip = path_components(root).len() as int;
        let parts = path_components(paths.last()).skip(skip);
        let last = if paths.len() >= 2 {
            path_components(paths[paths.len() - 2]).skip(skip)
        } else {
            Seq::empty()
        };
        lines_of(root, paths.drop_last()) + path_lines(last, parts)
    }
}

fn indent_of(n: usize) -> (res: String)
    ensures
        res@ == indent(n as nat),
{
    let mut s = String::new();
    let mut i: usize = 0;
    assert(s@ =~= indent(0));
    while i < n
        invariant
            i <= n,
            s@ == indent(i as nat),
        decreases n - i,
    {
        s.append("  ");
        i = i + 1;
    }
    s
}

/// The components of `p` after the first `skip`, as strings.
fn parts_after(p: &str, skip: usize) -> (res: Vec<String>)
    requires
        skip <= path_components(p@).len(),
    ensures
        res@.map_values(|s: String| s@) == path_components(p@).skip(skip as int),
{
    let pc = chars_of(p);
    let comps = components_of(pc.as_slice());
    let ghost cv = comps@.map_values(|c: Vec<char>| c@);
    let mut out: Vec<String> = Vec::new();
    let mut j: usize = skip;
    assert(cv.skip(skip as int).take(0) =~= Seq::<Seq<char>>::empty());
    while j < comps.len()
        invariant
            skip <= j <= comps@.len(),
            cv == comps@.map_values(|c: Vec<char>| c@),
            out@.map_values(|s: String| s@) == cv.skip(skip as int).take(j - skip),
        decreases comps@.len() - j,
    {
        let ghost before = out@;
        out.push(string_from_chars(comps[j].as_slice()));
        assert(out@.map_values(|s: String| s@) =~= before.map_values(|s: String| s@).push(cv[j as int]));
        assert(cv.skip(skip as int).take(j + 1 - skip) =~= cv.skip(skip as int).take(j - skip).push(
            cv[j as int],
        ));
        j = j + 1;
    }
    assert(cv.skip(skip as int).take(j - skip) =~= cv.skip(skip as int));
    out
}

/// Every path's components begin with the root's.
pub open spec fn all_under_root(root: Seq<char>, paths: Seq<String>) -> bool {
    forall|k: int|
        0 <= k < paths.len() ==> path_components(root).is_prefix_of(
            path_components(#[trigger] paths[k]@),
        )
}

/// The lines that print the tree of the sorted `paths` under `root`.
pub fn tree_lines(root: &str, paths: &Vec<String>) -> (res: Vec<String>)
    requires
        all_under_root(root@, paths@),
    ensures
        res@.map_values(|s: String| s@) == lines_of(root@, paths@.map_values(|p: String| p@)),
{
    let ghost pv = paths@.map_values(|p: String| p@);
    let rc = chars_of(root);
    let name = match file_name_of(rc.as_slice()) {
        Some(n) => string_from_chars(n.as_slice()),
        None => ".".to_owned(),
    };
    proof {
        reveal_strlit(".");
    }
    let skip = components_of(rc.as_slice()).len();
    let mut out: Vec<String> = Vec::new();
    out.push(name);
    let mut last: Vec<String> = Vec::new();
    let mut i: usize = 0;
    assert(out@.map_values(|s: String| s@) =~= lines_of(root@, pv.take(0)));
    assert(pv.take(0) =~= Seq::<Seq<char>>::empty());
    while i < paths.len()
        invariant
            i <= paths@.len(),
            pv == paths@.map_values(|p: String| p@),
            all_under_root(root@, paths@),
            skip == path_components(root@).len(),
            out@.map_values(|s: String| s@) == lines_of(root@, pv.take(i as int)),
            last@.map_values(|s: String| s@) == if i >= 1 {
                path_components(pv[i - 1]).skip(skip as int)
            } else {
                Seq::empty()
            },
        decreases paths@.len() - i,
    {
        assert(path_components(root@).is_prefix_of(path_components(paths@[i as int]@)));
        let parts = parts_after(paths[i].as_str(), skip);
        let ghost lv = last@.map_values(|s: String| s@);
        let ghost partv = parts@.map_values(|s: String| s@);
        assert(pv.take(i + 1).drop_last() =~= pv.take(i as int));
        assert(pv.take(i + 1).last() == pv[i as int]);
        assert(lines_of(root@, pv.take(i + 1)) == lines_of(root@, pv.take(i as int)) + path_lines(
            lv,
            partv,
        )) by {
            if i >= 1 {
                assert(pv.take(i + 1)[i - 1] == pv[i - 1]);
            }
        }
        let ghost base = out@.map_values(|s: String| s@);
        let mut k: usize = 0;
        assert(partv.take(0) =~= Seq::<Seq<char>>::empty());
        assert(base + path_lines(lv, partv.take(0)) =~= base);
        while k < parts.len()
            invariant
                k <= parts@.len(),
                lv == last@.map_values(|s: String| s@),
                partv == parts@.map_values(|s: String| s@),
                out@.map_values(|s: String| s@) == base + path_lines(lv, partv.take(k as int)),
            decreases parts@.len() - k,
        {
            assert(partv.take(k + 1).drop_last() =~= partv.take(k as int));
            assert(partv.take(k + 1)[k as int] == partv[k as int]);
            let same = k < last.len() && str_eq(last[k].as_str(), parts[k].as_str());
            if !same {
                let ind = indent_of(k + 1);
                let mut line = ind;
                line.append(parts[k].as_str());
                let ghost before = out@;
                out.push(line);
                assert(out@.map_values(|s: String| s@) =~= before.map_values(|s: String| s@).push(
                    indent((k + 1) as nat) + partv[k as int],
                ));
            }
            k = k + 1;
        }
        assert(partv.take(k as int) =~= partv);
        last = parts;
        i = i + 1;
    }
    assert(pv.take(i as int) =~= pv);
    out
}

} // verus!

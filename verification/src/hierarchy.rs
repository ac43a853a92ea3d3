//! The parent-to-children relation of a scene graph and the expansion of a
//! subtree request into the list of nodes below a root.

use vstd::prelude::*;

verus! {

/// A scene graph reduced to its parent-to-children relation. Nodes are the
/// indices `0..len`; entry `i` lists the children of node `i`, in order.
pub struct Hierarchy {
    children: Vec<Vec<usize>>,
}

/// The children lists as plain sequences.
pub open spec fn rows(children: Seq<Vec<usize>>) -> Seq<Seq<usize>> {
    Seq::new(children.len(), |i: int| children[i]@)
}

/// Every child named in `g` is itself a node of `g`.
pub open spec fn closed_graph(g: Seq<Seq<usize>>) -> bool {
    forall|i: int, j: int|
        0 <= i < g.len() && 0 <= j < g[i].len() ==> (#[trigger] g[i][j]) < g.len()
}

/// `child` is listed among the children of `parent`.
pub open spec fn is_child(g: Seq<Seq<usize>>, parent: usize, child: usize) -> bool {
    parent < g.len() && g[parent as int].contains(child)
}

/// Position `i` of `p` and the one after it are parent and child.
pub open spec fn is_step(g: Seq<Seq<usize>>, p: Seq<usize>, i: int) -> bool {
    is_child(g, p[i], p[i + 1])
}

/// `p` walks downwards through `g`, over at least one edge.
pub open spec fn is_path(g: Seq<Seq<usize>>, p: Seq<usize>) -> bool {
    p.len() >= 2 && forall|i: int| 0 <= i < p.len() - 1 ==> #[trigger] is_step(g, p, i)
}

/// `n` lies below `root`: a child, a grandchild, and so on.
pub open spec fn descendant(g: Seq<Seq<usize>>, root: usize, n: usize) -> bool {
    exists|p: Seq<usize>| #[trigger] is_path(g, p) && p[0] == root && p.last() == n
}

/// A child lies below its parent.
pub proof fn lemma_child_is_descendant(g: Seq<Seq<usize>>, root: usize, c: usize)
    requires
        is_child(g, root, c),
    ensures
        descendant(g, root, c),
{
    let p = seq![root, c];
    assert forall|i: int| 0 <= i < p.len() - 1 implies #[trigger] is_step(g, p, i) by {
        assert(p[0] == root && p[1] == c);
    }
    assert(is_path(g, p) && p[0] == root && p.last() == c);
}

/// A child of a node below `root` lies below `root`.
pub proof fn lemma_descend_further(g: Seq<Seq<usize>>, root: usize, v: usize, c: usize)
    requires
        descendant(g, root, v),
        is_child(g, v, c),
    ensures
        descendant(g, root, c),
{
    let p = choose|p: Seq<usize>| #[trigger] is_path(g, p) && p[0] == root && p.last() == v;
    let q = p.push(c);
    assert forall|i: int| 0 <= i < q.len() - 1 implies #[trigger] is_step(g, q, i) by {
        if i < p.len() - 1 {
            assert(is_step(g, p, i));
        }
    }
    assert(is_path(g, q) && q[0] == root && q.last() == c);
}

proof fn lemma_no_children_no_descendants(g: Seq<Seq<usize>>, root: usize)
    requires
        root >= g.len(),
    ensures
        forall|m: usize| !descendant(g, root, m),
{
    assert forall|m: usize| !descendant(g, root, m) by {
        if descendant(g, root, m) {
            let p = choose|p: Seq<usize>| #[trigger] is_path(g, p) && p[0] == root && p.last() == m;
            assert(is_step(g, p, 0));
        }
    }
}

/// How many of the nodes `0..n` are not on `path`.
pub open spec fn off_path(n: nat, path: Seq<usize>) -> nat
    decreases n,
{
    if n == 0 {
        0
    } else {
        off_path((n - 1) as nat, path) + if path.contains((n - 1) as usize) {
            0nat
        } else {
            1nat
        }
    }
}

/// The list `done`, extended by a walk over `kids[j..]`: each child that is
/// neither on `path` (being walked) nor listed yet is walked in turn, first
/// what lies below it, by its own children list, then the child itself.
pub open spec fn walk(
    g: Seq<Seq<usize>>,
    kids: Seq<usize>,
    j: int,
    path: Seq<usize>,
    done: Seq<usize>,
) -> Seq<usize>
    decreases off_path(g.len(), path), kids.len() - j,
{
    if j < 0 || j >= kids.len() {
        done
    } else {
        let c = kids[j];
        if c >= g.len() || path.contains(c) || done.contains(c) {
            walk(g, kids, j + 1, path, done)
        } else {
            proof {
                lemma_off_path_push(g.len(), path, c);
            }
            let below = walk(g, g[c as int], 0, path.push(c), done);
            walk(g, kids, j + 1, path, below.push(c))
        }
    }
}

/// The nodes below `root` in the order of a depth-first walk that lists a
/// node after the nodes below it, and the children of one node in the order
/// of their list. A node that comes up a second time is passed over.
pub open spec fn post_order(g: Seq<Seq<usize>>, root: usize) -> Seq<usize> {
    if root < g.len() {
        walk(g, g[root as int], 0, Seq::<usize>::empty(), Seq::<usize>::empty())
    } else {
        Seq::<usize>::empty()
    }
}

/// A list with `c` added holds what it held, and `c`.
pub proof fn lemma_push_contains(s: Seq<usize>, c: usize, v: usize)
    ensures
        s.push(c).contains(v) <==> s.contains(v) || v == c,
{
    let t = s.push(c);
    if s.contains(v) {
        let i = choose|i: int| 0 <= i < s.len() && s[i] == v;
        assert(t[i] == v);
    }
    if v == c {
        assert(t[s.len() as int] == v);
    }
    if t.contains(v) {
        let i = choose|i: int| 0 <= i < t.len() && t[i] == v;
        if i < s.len() {
            assert(s[i] == v);
        }
    }
}

/// A longer path leaves no more nodes off it, and fewer where the node
/// added is one of `0..n` and new to the path.
pub proof fn lemma_off_path_push(n: nat, path: Seq<usize>, c: usize)
    ensures
        off_path(n, path.push(c)) <= off_path(n, path),
        c < n && !path.contains(c) ==> off_path(n, path.push(c)) < off_path(n, path),
    decreases n,
{
    if n > 0 {
        lemma_off_path_push((n - 1) as nat, path, c);
        lemma_push_contains(path, c, (n - 1) as usize);
    }
}

/// The root and every listed node have all their children listed.
spec fn saturated(g: Seq<Seq<usize>>, list: Seq<usize>, root: usize) -> bool {
    forall|v: usize, c: usize|
        (v == root || list.contains(v)) && #[trigger] is_child(g, v, c) ==> list.contains(c)
}

proof fn lemma_saturated_holds_path(
    g: Seq<Seq<usize>>,
    list: Seq<usize>,
    root: usize,
    p: Seq<usize>,
    i: int,
)
    requires
        saturated(g, list, root),
        is_path(g, p),
        p[0] == root,
        1 <= i < p.len(),
    ensures
        list.contains(p[i]),
    decreases i,
{
    if i > 1 {
        lemma_saturated_holds_path(g, list, root, p, i - 1);
    }
    assert(is_step(g, p, i - 1));
}

/// What holds of the list before and after a walk: nothing is listed twice
/// or while on `path`, every listed node lies below `root`, and every child
/// of a listed node is on `path` or listed.
spec fn orderly(g: Seq<Seq<usize>>, root: usize, path: Seq<usize>, list: Seq<usize>) -> bool {
    &&& list.no_duplicates()
    &&& forall|v: usize| #[trigger]
        list.contains(v) ==> !path.contains(v) && descendant(g, root, v)
    &&& forall|v: usize, c: usize|
        list.contains(v) && #[trigger] is_child(g, v, c) ==> path.contains(c) || list.contains(c)
}

/// The children still to walk are nodes below `root`.
spec fn reachable_kids(g: Seq<Seq<usize>>, root: usize, kids: Seq<usize>, j: int) -> bool {
    forall|k: int|
        j <= k < kids.len() ==> (#[trigger] kids[k]) < g.len() && descendant(g, root, kids[k])
}

proof fn lemma_walk(
    g: Seq<Seq<usize>>,
    root: usize,
    kids: Seq<usize>,
    j: int,
    path: Seq<usize>,
    done: Seq<usize>,
)
    requires
        closed_graph(g),
        0 <= j <= kids.len(),
        reachable_kids(g, root, kids, j),
        orderly(g, root, path, done),
    ensures
        orderly(g, root, path, walk(g, kids, j, path, done)),
        forall|v: usize| done.contains(v) ==> walk(g, kids, j, path, done).contains(v),
        forall|k: int|
            j <= k < kids.len() ==> path.contains(#[trigger] kids[k]) || walk(
                g,
                kids,
                j,
                path,
                done,
            ).contains(kids[k]),
    decreases off_path(g.len(), path), kids.len() - j,
{
    if j < kids.len() {
        let c = kids[j];
        assert(c < g.len() && descendant(g, root, c));
        if path.contains(c) || done.contains(c) {
            lemma_walk(g, root, kids, j + 1, path, done);
        } else {
            let path2 = path.push(c);
            let row = g[c as int];
            lemma_off_path_push(g.len(), path, c);
            assert forall|v: usize| path2.contains(v) <==> path.contains(v) || v == c by {
                lemma_push_contains(path, c, v);
            }
            assert(reachable_kids(g, root, row, 0)) by {
                assert forall|k: int| 0 <= k < row.len() implies (#[trigger] row[k]) < g.len()
                    && descendant(g, root, row[k]) by {
                    assert(row.contains(row[k]));
                    lemma_descend_further(g, root, c, row[k]);
                }
            }
            lemma_walk(g, root, row, 0, path2, done);
            let below = walk(g, row, 0, path2, done);
            let done2 = below.push(c);
            assert forall|v: usize| done2.contains(v) <==> below.contains(v) || v == c by {
                lemma_push_contains(below, c, v);
            }
            assert(!below.contains(c));
            assert(done2.no_duplicates()) by {
                assert forall|a: int, b: int|
                    0 <= a < done2.len() && 0 <= b < done2.len() && a != b implies done2[a]
                    != done2[b] by {
                    if a < below.len() {
                        assert(below.contains(below[a]));
                    }
                    if b < below.len() {
                        assert(below.contains(below[b]));
                    }
                }
            }
            assert forall|v: usize, d: usize|
                done2.contains(v) && #[trigger] is_child(g, v, d) implies path.contains(d)
                || done2.contains(d) by {
                if v == c {
                    let k = choose|k: int| 0 <= k < row.len() && row[k] == d;
                    assert(path2.contains(row[k]) || below.contains(row[k]));
                }
            }
            assert(orderly(g, root, path, done2));
            lemma_walk(g, root, kids, j + 1, path, done2);
        }
    }
}

/// The post-order list holds exactly the nodes below `root`, each once.
pub proof fn lemma_post_order_lists_descendants(g: Seq<Seq<usize>>, root: usize)
    requires
        closed_graph(g),
    ensures
        post_order(g, root).no_duplicates(),
        forall|n: usize| post_order(g, root).contains(n) <==> descendant(g, root, n),
{
    let list = post_order(g, root);
    let none = Seq::<usize>::empty();
    if root < g.len() {
        let kids = g[root as int];
        assert(reachable_kids(g, root, kids, 0)) by {
            assert forall|k: int| 0 <= k < kids.len() implies (#[trigger] kids[k]) < g.len()
                && descendant(g, root, kids[k]) by {
                assert(kids.contains(kids[k]));
                lemma_child_is_descendant(g, root, kids[k]);
            }
        }
        lemma_walk(g, root, kids, 0, none, none);
        assert(saturated(g, list, root)) by {
            assert forall|v: usize, c: usize|
                (v == root || list.contains(v)) && #[trigger] is_child(g, v, c)
                implies list.contains(c) by {
                if v == root && !list.contains(v) {
                    let k = choose|k: int| 0 <= k < kids.len() && kids[k] == c;
                    assert(none.contains(kids[k]) || list.contains(kids[k]));
                }
            }
        }
        assert forall|n: usize| descendant(g, root, n) implies list.contains(n) by {
            let p = choose|p: Seq<usize>| #[trigger] is_path(g, p) && p[0] == root && p.last() == n;
            lemma_saturated_holds_path(g, list, root, p, p.len() - 1);
        }
    } else {
        lemma_no_children_no_descendants(g, root);
    }
}

/// No node lies below itself.
pub open spec fn acyclic(g: Seq<Seq<usize>>) -> bool {
    forall|v: usize| !#[trigger] descendant(g, v, v)
}

proof fn lemma_along_path(g: Seq<Seq<usize>>, a: usize, p: Seq<usize>, i: int)
    requires
        descendant(g, a, p[0]),
        is_path(g, p),
        1 <= i < p.len(),
    ensures
        descendant(g, a, p[i]),
    decreases i,
{
    if i > 1 {
        lemma_along_path(g, a, p, i - 1);
    }
    assert(is_step(g, p, i - 1));
    lemma_descend_further(g, a, p[i - 1], p[i]);
}

/// What lies below a node below `a` lies below `a`.
pub proof fn lemma_descendant_transitive(g: Seq<Seq<usize>>, a: usize, b: usize, c: usize)
    requires
        descendant(g, a, b),
        descendant(g, b, c),
    ensures
        descendant(g, a, c),
{
    let p = choose|p: Seq<usize>| #[trigger] is_path(g, p) && p[0] == b && p.last() == c;
    lemma_along_path(g, a, p, p.len() - 1);
}

/// Every child of a listed node is listed.
spec fn finished(g: Seq<Seq<usize>>, list: Seq<usize>) -> bool {
    forall|v: usize, c: usize| list.contains(v) && #[trigger] is_child(g, v, c) ==> list.contains(c)
}

proof fn lemma_finished_holds_path(g: Seq<Seq<usize>>, list: Seq<usize>, p: Seq<usize>, i: int)
    requires
        finished(g, list),
        is_path(g, p),
        list.contains(p[0]),
        0 <= i < p.len(),
    ensures
        list.contains(p[i]),
    decreases i,
{
    if i > 0 {
        lemma_finished_holds_path(g, list, p, i - 1);
        assert(is_step(g, p, i - 1));
    }
}

proof fn lemma_finished_holds_descendants(g: Seq<Seq<usize>>, list: Seq<usize>, v: usize, n: usize)
    requires
        finished(g, list),
        list.contains(v),
        descendant(g, v, n),
    ensures
        list.contains(n),
{
    let p = choose|p: Seq<usize>| #[trigger] is_path(g, p) && p[0] == v && p.last() == n;
    lemma_finished_holds_path(g, list, p, p.len() - 1);
}

/// No listed node comes before a node below it.
spec fn bottom_up(g: Seq<Seq<usize>>, list: Seq<usize>) -> bool {
    forall|p: int, q: int|
        0 <= p < list.len() && 0 <= q < list.len() && descendant(
            g,
            #[trigger] list[p],
            #[trigger] list[q],
        ) ==> q < p
}

/// `list` begins with `done`.
spec fn extends(done: Seq<usize>, list: Seq<usize>) -> bool {
    &&& done.len() <= list.len()
    &&& forall|i: int| 0 <= i < done.len() ==> #[trigger] list[i] == done[i]
}

/// What holds of the list before and after a walk through a graph without
/// cycles: nothing is listed twice or while on `path`, the children of a
/// listed node are listed, and no node comes before a node below it.
spec fn settled(g: Seq<Seq<usize>>, path: Seq<usize>, list: Seq<usize>) -> bool {
    &&& list.no_duplicates()
    &&& forall|v: usize| #[trigger] list.contains(v) ==> !path.contains(v)
    &&& finished(g, list)
    &&& bottom_up(g, list)
}

/// The children still to walk are nodes that lie below `top` and below
/// every node on `path`.
spec fn kids_below(
    g: Seq<Seq<usize>>,
    top: usize,
    kids: Seq<usize>,
    j: int,
    path: Seq<usize>,
) -> bool {
    forall|k: int|
        j <= k < kids.len() ==> (#[trigger] kids[k]) < g.len() && descendant(g, top, kids[k]) && (
        forall|x: usize| path.contains(x) ==> #[trigger] descendant(g, x, kids[k]))
}

proof fn lemma_walk_bottom_up(
    g: Seq<Seq<usize>>,
    top: usize,
    kids: Seq<usize>,
    j: int,
    path: Seq<usize>,
    done: Seq<usize>,
)
    requires
        closed_graph(g),
        acyclic(g),
        0 <= j <= kids.len(),
        kids_below(g, top, kids, j, path),
        settled(g, path, done),
    ensures
        settled(g, path, walk(g, kids, j, path, done)),
        extends(done, walk(g, kids, j, path, done)),
        forall|v: usize| #[trigger]
            walk(g, kids, j, path, done).contains(v) ==> done.contains(v) || descendant(g, top, v),
        forall|k: int|
            j <= k < kids.len() ==> walk(g, kids, j, path, done).contains(#[trigger] kids[k]),
    decreases off_path(g.len(), path), kids.len() - j,
{
    if j < kids.len() {
        let c = kids[j];
        assert(c < g.len() && descendant(g, top, c));
        if path.contains(c) {
            assert(descendant(g, c, c));
        } else if done.contains(c) {
            lemma_walk_bottom_up(g, top, kids, j + 1, path, done);
            let r = walk(g, kids, j + 1, path, done);
            let i = choose|i: int| 0 <= i < done.len() && done[i] == c;
            assert(r[i] == c);
        } else {
            let path2 = path.push(c);
            let row = g[c as int];
            lemma_off_path_push(g.len(), path, c);
            assert forall|v: usize| path2.contains(v) <==> path.contains(v) || v == c by {
                lemma_push_contains(path, c, v);
            }
            assert(kids_below(g, c, row, 0, path2)) by {
                assert forall|k: int| 0 <= k < row.len() implies (#[trigger] row[k]) < g.len()
                    && descendant(g, c, row[k]) && (forall|x: usize|
                    path2.contains(x) ==> #[trigger] descendant(g, x, row[k])) by {
                    assert(row.contains(row[k]));
                    lemma_child_is_descendant(g, c, row[k]);
                    assert forall|x: usize| path2.contains(x) implies #[trigger] descendant(
                        g,
                        x,
                        row[k],
                    ) by {
                        if x != c {
                            assert(descendant(g, x, c));
                            lemma_descend_further(g, x, c, row[k]);
                        }
                    }
                }
            }
            lemma_walk_bottom_up(g, c, row, 0, path2, done);
            let below = walk(g, row, 0, path2, done);
            let done2 = below.push(c);
            let last = below.len() as int;
            assert forall|v: usize| done2.contains(v) <==> below.contains(v) || v == c by {
                lemma_push_contains(below, c, v);
            }
            assert(!below.contains(c));
            assert(done2.no_duplicates()) by {
                assert forall|a: int, b: int|
                    0 <= a < done2.len() && 0 <= b < done2.len() && a != b implies done2[a]
                    != done2[b] by {
                    if a < below.len() {
                        assert(below.contains(below[a]));
                    }
                    if b < below.len() {
                        assert(below.contains(below[b]));
                    }
                }
            }
            assert(finished(g, done2)) by {
                assert forall|v: usize, d: usize|
                    done2.contains(v) && #[trigger] is_child(g, v, d) implies done2.contains(d) by {
                    if v == c {
                        let k = choose|k: int| 0 <= k < row.len() && row[k] == d;
                        assert(below.contains(row[k]));
                    }
                }
            }
            assert(bottom_up(g, done2)) by {
                assert forall|p: int, q: int|
                    0 <= p < done2.len() && 0 <= q < done2.len() && descendant(
                        g,
                        #[trigger] done2[p],
                        #[trigger] done2[q],
                    ) implies q < p by {
                    if p < last && q < last {
                        assert(done2[p] == below[p] && done2[q] == below[q]);
                    } else if p < last {
                        let v = below[p];
                        assert(below.contains(v));
                        assert(done2[q] == c);
                        if done.contains(v) {
                            lemma_finished_holds_descendants(g, done, v, c);
                        } else {
                            lemma_descendant_transitive(g, c, v, c);
                            assert(descendant(g, c, c));
                        }
                    } else if q == last {
                        assert(descendant(g, c, c));
                    }
                }
            }
            assert(settled(g, path, done2));
            lemma_walk_bottom_up(g, top, kids, j + 1, path, done2);
            let r = walk(g, kids, j + 1, path, done2);
            assert(r[last] == c);
            assert forall|v: usize| #[trigger] r.contains(v) implies done.contains(v) || descendant(
                g,
                top,
                v,
            ) by {
                if done2.contains(v) && v != c && !done.contains(v) {
                    lemma_descendant_transitive(g, top, c, v);
                }
            }
        }
    }
}

/// In a graph without cycles every node is listed after the nodes below it.
pub proof fn lemma_descendants_come_first(g: Seq<Seq<usize>>, root: usize, p: int, q: int)
    requires
        closed_graph(g),
        acyclic(g),
        0 <= p < post_order(g, root).len(),
        0 <= q < post_order(g, root).len(),
        descendant(g, post_order(g, root)[p], post_order(g, root)[q]),
    ensures
        q < p,
{
    let none = Seq::<usize>::empty();
    let kids = g[root as int];
    assert(kids_below(g, root, kids, 0, none)) by {
        assert forall|k: int| 0 <= k < kids.len() implies (#[trigger] kids[k]) < g.len()
            && descendant(g, root, kids[k]) && (forall|x: usize|
            none.contains(x) ==> #[trigger] descendant(g, x, kids[k])) by {
            assert(kids.contains(kids[k]));
            lemma_child_is_descendant(g, root, kids[k]);
        }
    }
    lemma_walk_bottom_up(g, root, kids, 0, none, none);
}

proof fn lemma_walk_leaves(g: Seq<Seq<usize>>, kids: Seq<usize>, j: int)
    requires
        0 <= j <= kids.len(),
        kids.no_duplicates(),
        forall|k: int|
            0 <= k < kids.len() ==> (#[trigger] kids[k]) < g.len() && g[kids[k] as int].len() == 0,
    ensures
        walk(g, kids, j, Seq::<usize>::empty(), kids.take(j)) == kids,
    decreases kids.len() - j,
{
    let none = Seq::<usize>::empty();
    if j < kids.len() {
        let c = kids[j];
        assert(!kids.take(j).contains(c)) by {
            if kids.take(j).contains(c) {
                let i = choose|i: int| 0 <= i < kids.take(j).len() && kids.take(j)[i] == c;
                assert(kids[i] == kids[j]);
            }
        }
        lemma_off_path_push(g.len(), none, c);
        assert(walk(g, g[c as int], 0, none.push(c), kids.take(j)) == kids.take(j));
        assert(kids.take(j).push(c) =~= kids.take(j + 1));
        lemma_walk_leaves(g, kids, j + 1);
    } else {
        assert(kids.take(j) =~= kids);
    }
}

/// Where the children of `root` are leaves, and none is named twice, the
/// post-order list is the children list itself.
pub proof fn lemma_leaves_in_list_order(g: Seq<Seq<usize>>, root: usize)
    requires
        root < g.len(),
        g[root as int].no_duplicates(),
        forall|k: int|
            0 <= k < g[root as int].len() ==> (#[trigger] g[root as int][k]) < g.len()
                && g[g[root as int][k] as int].len() == 0,
    ensures
        post_order(g, root) == g[root as int],
{
    lemma_walk_leaves(g, g[root as int], 0);
    assert(g[root as int].take(0) =~= Seq::<usize>::empty());
}

impl View for Hierarchy {
    type V = Seq<Seq<usize>>;

    closed spec fn view(&self) -> Seq<Seq<usize>> {
        rows(self.children@)
    }
}

impl Hierarchy {
    /// Takes the children lists of the nodes `0..children.len()`. The lists
    /// are accepted exactly when every child they name is one of those nodes.
    pub fn new(children: Vec<Vec<usize>>) -> (out: Option<Hierarchy>)
        ensures
            out.is_some() <==> closed_graph(rows(children@)),
            out matches Some(h) ==> h@ == rows(children@),
    {
        let ghost g = rows(children@);
        let n = children.len();
        let mut i: usize = 0;
        while i < n
            invariant
                i <= n,
                n == children@.len(),
                g == rows(children@),
                g.len() == n,
                forall|a: int, b: int|
                    0 <= a < i && 0 <= b < g[a].len() ==> (#[trigger] g[a][b]) < n,
            decreases n - i,
        {
            let row = &children[i];
            let mut j: usize = 0;
            while j < row.len()
                invariant
                    i < n,
                    n == children@.len(),
                    j <= row@.len(),
                    g.len() == n,
                    g == rows(children@),
                    row@ == g[i as int],
                    forall|b: int| 0 <= b < j ==> (#[trigger] row@[b]) < n,
                decreases row@.len() - j,
            {
                if row[j] >= n {
                    proof {
                        assert(g[i as int][j as int] >= g.len());
                    }
                    return None;
                }
                j += 1;
            }
            i += 1;
        }
        Some(Hierarchy { children })
    }

    /// The number of nodes.
    pub fn len(&self) -> (n: usize)
        ensures
            n == self@.len(),
    {
        self.children.len()
    }

    /// Every child named is a node: what `new` has checked.
    #[verifier::type_invariant]
    spec fn closed(&self) -> bool {
        closed_graph(rows(self.children@))
    }
}

/// The marks say which nodes are on `path` or listed.
spec fn marked(n: nat, marks: Seq<bool>, path: Seq<usize>, list: Seq<usize>) -> bool {
    &&& marks.len() == n
    &&& forall|v: usize|
        v < n ==> (#[trigger] marks[v as int] <==> path.contains(v) || list.contains(v))
}

/// How many entries of `marks` are still `false`.
spec fn unmarked(marks: Seq<bool>) -> nat
    decreases marks.len(),
{
    if marks.len() == 0 {
        0
    } else {
        unmarked(marks.drop_last()) + if marks.last() {
            0nat
        } else {
            1nat
        }
    }
}

proof fn lemma_mark(marks: Seq<bool>, i: int)
    requires
        0 <= i < marks.len(),
        !marks[i],
    ensures
        unmarked(marks.update(i, true)) + 1 == unmarked(marks),
    decreases marks.len(),
{
    let after = marks.update(i, true);
    if i == marks.len() - 1 {
        assert(after.drop_last() =~= marks.drop_last());
    } else {
        assert(after.drop_last() =~= marks.drop_last().update(i, true));
        lemma_mark(marks.drop_last(), i);
    }
}

/// A walk that was put aside: the node whose children are being walked and
/// the position in its children list at which the walk goes on.
struct Frame {
    node: usize,
    next: usize,
}

/// The nodes being walked: those of all frames but the first, which holds
/// the root.
spec fn path_of(frames: Seq<Frame>) -> Seq<usize>
    decreases frames.len(),
{
    if frames.len() <= 1 {
        Seq::<usize>::empty()
    } else {
        path_of(frames.drop_last()).push(frames.last().node)
    }
}

/// The list that comes out when the walks put aside are carried on, the last
/// frame first, each node being listed when its own walk is over.
spec fn resume(g: Seq<Seq<usize>>, frames: Seq<Frame>, out: Seq<usize>) -> Seq<usize>
    decreases frames.len(),
{
    if frames.len() == 0 {
        out
    } else {
        let top = frames.last();
        let list = walk(g, g[top.node as int], top.next as int, path_of(frames), out);
        resume(
            g,
            frames.drop_last(),
            if frames.len() == 1 {
                list
            } else {
                list.push(top.node)
            },
        )
    }
}

/// Every frame names a node and a position within its children list.
spec fn frames_fit(g: Seq<Seq<usize>>, frames: Seq<Frame>) -> bool {
    forall|i: int|
        0 <= i < frames.len() ==> (#[trigger] frames[i]).node < g.len() && frames[i].next
            <= g[frames[i].node as int].len()
}

/// How many children the last frame has still to walk.
spec fn slack(g: Seq<Seq<usize>>, frames: Seq<Frame>) -> int {
    if frames.len() == 0 {
        0
    } else {
        g[frames.last().node as int].len() - frames.last().next
    }
}

/// Lists the nodes below `root`, each once: first what lies below the first
/// child, then that child, then the same for the next child, and so on. A
/// root that is no node of the graph has nothing below it. The walks of the
/// nodes above the current one wait on a stack in memory, so the depth of
/// the graph costs no call depth.
pub fn all_children(graph: &Hierarchy, root: usize) -> (out: Vec<usize>)
    ensures
        out@ == post_order(graph@, root),
        out@.no_duplicates(),
        forall|n: usize| out@.contains(n) <==> descendant(graph@, root, n),
{
    proof {
        use_type_invariant(graph);
        lemma_post_order_lists_descendants(graph@, root);
    }
    let ghost g = graph@;
    let n = graph.children.len();
    let mut out: Vec<usize> = Vec::new();
    if root >= n {
        return out;
    }
    let mut marks: Vec<bool> = Vec::new();
    let mut k: usize = 0;
    while k < n
        invariant
            k <= n,
            marks@.len() == k,
            forall|i: int| 0 <= i < k ==> !marks@[i],
        decreases n - k,
    {
        marks.push(false);
        k += 1;
    }
    let mut stack: Vec<Frame> = Vec::new();
    stack.push(Frame { node: root, next: 0 });
    proof {
        let none = Seq::<usize>::empty();
        let list = walk(g, g[root as int], 0, none, none);
        assert(stack@.drop_last() =~= Seq::<Frame>::empty());
        assert(out@ =~= none);
        assert(path_of(stack@) == none);
        assert(resume(g, stack@.drop_last(), list) == list);
        assert(resume(g, stack@, out@) == list);
    }
    while stack.len() > 0
        invariant
            g == graph@,
            closed_graph(g),
            n == g.len(),
            n == graph.children@.len(),
            frames_fit(g, stack@),
            marked(n as nat, marks@, path_of(stack@), out@),
            resume(g, stack@, out@) == post_order(g, root),
        decreases unmarked(marks@), stack@.len(), slack(g, stack@),
    {
        let ghost frames = stack@;
        let ghost path = path_of(frames);
        let ghost listed = out@;
        let top = stack.len() - 1;
        let node = stack[top].node;
        let next = stack[top].next;
        let row = &graph.children[node];
        assert(row@ == g[node as int]);
        if next < row.len() {
            let c = row[next];
            assert(g[node as int][next as int] < g.len());
            stack.set(top, Frame { node, next: next + 1 });
            let ghost moved = stack@;
            proof {
                assert(moved.drop_last() =~= frames.drop_last());
                assert(path_of(moved) == path);
            }
            if !marks[c] {
                proof {
                    lemma_mark(marks@, c as int);
                }
                marks.set(c, true);
                stack.push(Frame { node: c, next: 0 });
                proof {
                    assert(stack@.drop_last() =~= moved);
                    assert(path_of(stack@) == path.push(c));
                    assert forall|v: usize| v < n implies (#[trigger] marks@[v as int]
                        <==> path.push(c).contains(v) || out@.contains(v)) by {
                        lemma_push_contains(path, c, v);
                    }
                    let below = walk(g, g[c as int], 0, path.push(c), listed);
                    let list = walk(g, row@, next + 1, path, below.push(c));
                    assert(walk(g, row@, next as int, path, listed) == list);
                    let rest = frames.drop_last();
                    let carried = if frames.len() == 1 {
                        list
                    } else {
                        list.push(node)
                    };
                    assert(resume(g, frames, listed) == resume(g, rest, carried));
                    assert(moved.last().next == next + 1 && moved.last().node == node);
                    assert(resume(g, moved, below.push(c)) == resume(g, rest, carried));
                    assert(stack@.last().node == c && stack@.last().next == 0);
                    assert(resume(g, stack@, listed) == resume(g, moved, below.push(c)));
                }
            } else {
                proof {
                    let list = walk(g, row@, next + 1, path, listed);
                    assert(walk(g, row@, next as int, path, listed) == list);
                    let rest = frames.drop_last();
                    let carried = if frames.len() == 1 {
                        list
                    } else {
                        list.push(node)
                    };
                    assert(resume(g, frames, listed) == resume(g, rest, carried));
                    assert(moved.last().next == next + 1 && moved.last().node == node);
                    assert(resume(g, moved, listed) == resume(g, rest, carried));
                }
            }
        } else {
            stack.pop();
            proof {
                assert(stack@ =~= frames.drop_last());
                assert(walk(g, row@, next as int, path, listed) == listed);
                let carried = if frames.len() == 1 {
                    listed
                } else {
                    listed.push(node)
                };
                assert(resume(g, frames, listed) == resume(g, stack@, carried));
            }
            if stack.len() > 0 {
                out.push(node);
                proof {
                    assert(path == path_of(stack@).push(node));
                    assert forall|v: usize| v < n implies (#[trigger] marks@[v as int]
                        <==> path_of(stack@).contains(v) || out@.contains(v)) by {
                        lemma_push_contains(path_of(stack@), node, v);
                        lemma_push_contains(listed, node, v);
                    }
                }
            }
        }
    }
    out
}

/// One subtree request carried out: the recursive marker leaves `root`, and
/// the eligibility marker goes to each node of `descendants`.
pub struct Expansion {
    pub root: usize,
    pub descendants: Vec<usize>,
}

/// `e` names exactly the nodes below its root, each once, a node after the
/// nodes below it.
pub open spec fn expands(g: Seq<Seq<usize>>, e: Expansion) -> bool {
    &&& e.descendants@ == post_order(g, e.root)
    &&& e.descendants@.no_duplicates()
    &&& forall|n: usize| e.descendants@.contains(n) <==> descendant(g, e.root, n)
}

/// `out` carries out the requests on `roots`, one for one and in order.
pub open spec fn expands_all(g: Seq<Seq<usize>>, roots: Seq<usize>, out: Seq<Expansion>) -> bool {
    &&& out.len() == roots.len()
    &&& forall|i: int|
        0 <= i < out.len() ==> (#[trigger] out[i]).root == roots[i] && expands(g, out[i])
}

/// What one propagation pass does to the markers, per resource kind.
pub struct Propagation {
    pub material: Vec<Expansion>,
    pub mesh: Vec<Expansion>,
}

fn expand_roots(graph: &Hierarchy, roots: &Vec<usize>) -> (out: Vec<Expansion>)
    ensures
        expands_all(graph@, roots@, out@),
{
    let mut out: Vec<Expansion> = Vec::new();
    let mut i: usize = 0;
    while i < roots.len()
        invariant
            i <= roots@.len(),
            expands_all(graph@, roots@.take(i as int), out@),
        decreases roots@.len() - i,
    {
        let root = roots[i];
        let descendants = all_children(graph, root);
        out.push(Expansion { root, descendants });
        i += 1;
    }
    proof {
        assert(roots@.take(roots@.len() as int) =~= roots@);
    }
    out
}

/// Carries out every subtree request of one tick. `material_roots` and
/// `mesh_roots` are the nodes that carry the recursive marker of their kind.
/// Each request is expanded in full within the pass: every node below the
/// root becomes eligible, the root itself only where the relation leads back
/// to it, and the root's recursive marker is spent, also where nothing lies
/// below it.
pub fn apply_auto_instance_recursive(
    graph: &Hierarchy,
    material_roots: &Vec<usize>,
    mesh_roots: &Vec<usize>,
) -> (out: Propagation)
    ensures
        expands_all(graph@, material_roots@, out.material@),
        expands_all(graph@, mesh_roots@, out.mesh@),
{
    let material = expand_roots(graph, material_roots);
    let mesh = expand_roots(graph, mesh_roots);
    Propagation { material, mesh }
}

} // verus!

//! An in-memory file system: a tree of named nodes, each a file holding
//! bytes or a directory holding nodes kept in order of their names.
use vstd::prelude::*;
use super::{FileSystem, FsError, FsResult};
use crate::text::{chars_of, chars_lt, lemma_lt_trichotomy, lemma_lt_transitive};

verus! {

broadcast use vstd::string::group_string_axioms;

/// A path resolved into its components.
pub type Path = Seq<Seq<char>>;

/// What a path names: a file with its contents, or a directory.
pub enum Entry {
    File(Seq<u8>),
    Dir,
}

/// The contents of a node.
pub enum INodeKind {
    File(Vec<u8>),
    Directory(Vec<INode>),
}

/// A named node of the tree.
pub struct INode {
    pub name: String,
    pub kind: INodeKind,
}

/// The names of a directory's children are strictly increasing.
pub open spec fn names_sorted(ch: Seq<INode>) -> bool {
    forall|i: int, j: int| 0 <= i < j < ch.len() ==> chars_lt(#[trigger] ch[i].name@, #[trigger] ch[j].name@)
}

/// A well-formed tree: every directory keeps its children strictly ordered
/// by name (so no name occurs twice), all the way down.
pub open spec fn node_wf(n: INode) -> bool
    decreases n,
{
    match n.kind {
        INodeKind::File(_) => true,
        INodeKind::Directory(ch) => {
            &&& names_sorted(ch@)
            &&& forall|i: int| 0 <= i < ch@.len() ==> node_wf(#[trigger] ch@[i])
        },
    }
}

/// The children of a node (none for a file).
pub open spec fn children(n: INode) -> Seq<INode> {
    match n.kind {
        INodeKind::Directory(ch) => ch@,
        INodeKind::File(_) => Seq::empty(),
    }
}

pub open spec fn is_dir(n: INode) -> bool {
    n.kind is Directory
}

/// `n` is a directory with a child called `name`.
pub open spec fn has_child(n: INode, name: Seq<char>) -> bool {
    is_dir(n) && exists|i: int| 0 <= i < children(n).len() && (#[trigger] children(n)[i]).name@ == name
}

/// The child of `n` called `name` (meaningful when [`has_child`] holds).
pub open spec fn child_named(n: INode, name: Seq<char>) -> INode {
    let i = choose|i: int| 0 <= i < children(n).len() && (#[trigger] children(n)[i]).name@ == name;
    children(n)[i]
}

/// The node that a path leads to from `n`, walking one directory per
/// component.
pub open spec fn lookup(n: INode, p: Path) -> Option<INode>
    decreases p.len(),
{
    if p.len() == 0 {
        Some(n)
    } else if has_child(n, p[0]) {
        lookup(child_named(n, p[0]), p.skip(1))
    } else {
        None
    }
}

/// What a node is, seen from outside.
pub open spec fn entry_of(n: INode) -> Entry {
    match n.kind {
        INodeKind::File(d) => Entry::File(d@),
        INodeKind::Directory(_) => Entry::Dir,
    }
}

/// Everything reachable from `n`, by path relative to `n`.
pub open spec fn node_view(n: INode) -> Map<Path, Entry> {
    Map::new(|p: Path| lookup(n, p) is Some, |p: Path| entry_of(lookup(n, p)->Some_0))
}

/// `p` is a prefix of `q`.
pub open spec fn is_prefix(p: Path, q: Path) -> bool {
    p.len() <= q.len() && q.take(p.len() as int) == p
}

/// The error a path that names nothing is refused with: `NotADirectory`
/// when one of its proper prefixes names a file, `NotFound` otherwise.
pub open spec fn path_error(m: Map<Path, Entry>, p: Path) -> FsError {
    if exists|k: int| 0 <= k < p.len() && #[trigger] m.contains_key(p.take(k)) && m[p.take(k)] is File {
        FsError::NotADirectory
    } else {
        FsError::NotFound
    }
}

/// What well-formedness says of a directory's children.
proof fn lemma_wf_dir(n: INode)
    requires
        node_wf(n),
        is_dir(n),
    ensures
        names_sorted(children(n)),
        forall|i: int| 0 <= i < children(n).len() ==> #[trigger] node_wf(children(n)[i]),
{
    match n.kind {
        INodeKind::Directory(ch) => {
            assert(children(n) == ch@);
            assert(names_sorted(ch@));
            assert forall|i: int| 0 <= i < ch@.len() implies #[trigger] node_wf(ch@[i]) by {
                assert(node_wf(ch@[i]));
            }
        },
        INodeKind::File(_) => {},
    }
}

/// In a well-formed directory each name belongs to one child only.
proof fn lemma_child_unique(n: INode, i: int)
    requires
        node_wf(n),
        is_dir(n),
        0 <= i < children(n).len(),
    ensures
        has_child(n, children(n)[i].name@),
        child_named(n, children(n)[i].name@) == children(n)[i],
        node_wf(children(n)[i]),
{
    lemma_wf_dir(n);
    let name = children(n)[i].name@;
    assert(children(n)[i].name@ == name);
    let j = choose|j: int| 0 <= j < children(n).len() && (#[trigger] children(n)[j]).name@ == name;
    if j < i {
        lemma_lt_trichotomy(children(n)[j].name@, children(n)[i].name@);
    } else if i < j {
        lemma_lt_trichotomy(children(n)[i].name@, children(n)[j].name@);
    }
}

/// The child found by name is one of the children, and well formed.
proof fn lemma_child_named_wf(n: INode, name: Seq<char>)
    requires
        node_wf(n),
        has_child(n, name),
    ensures
        node_wf(child_named(n, name)),
        child_named(n, name).name@ == name,
        exists|i: int| 0 <= i < children(n).len() && children(n)[i] == child_named(n, name),
{
    lemma_wf_dir(n);
    let i = choose|i: int| 0 <= i < children(n).len() && (#[trigger] children(n)[i]).name@ == name;
    assert(children(n)[i] == child_named(n, name));
}

/// Looking up a path through a child is looking up the rest in that child.
proof fn lemma_lookup_child(n: INode, name: Seq<char>, r: Path)
    requires
        has_child(n, name),
    ensures
        lookup(n, seq![name] + r) == lookup(child_named(n, name), r),
{
    let q = seq![name] + r;
    assert(q[0] == name);
    assert(q.skip(1) =~= r);
}

/// Paths that start with a name the directory lacks lead nowhere.
proof fn lemma_lookup_missing(n: INode, q: Path)
    requires
        q.len() > 0,
        !has_child(n, q[0]),
    ensures
        lookup(n, q) is None,
{
}

/// Looking up `p + r` is looking up `r` from wherever `p` leads.
proof fn lemma_lookup_concat(n: INode, p: Path, r: Path)
    requires
        lookup(n, p) is Some,
    ensures
        lookup(n, p + r) == lookup(lookup(n, p)->Some_0, r),
    decreases p.len(),
{
    if p.len() == 0 {
        assert(p + r =~= r);
    } else {
        let c = child_named(n, p[0]);
        assert((p + r)[0] == p[0]);
        assert((p + r).skip(1) =~= p.skip(1) + r);
        lemma_lookup_concat(c, p.skip(1), r);
    }
}

/// Whatever a well-formed tree leads to is well formed.
proof fn lemma_lookup_wf(n: INode, p: Path)
    requires
        node_wf(n),
        lookup(n, p) is Some,
    ensures
        node_wf(lookup(n, p)->Some_0),
    decreases p.len(),
{
    if p.len() > 0 {
        lemma_child_named_wf(n, p[0]);
        lemma_lookup_wf(child_named(n, p[0]), p.skip(1));
    }
}

/// A file sees only itself.
proof fn lemma_file_view(n: INode, q: Path)
    requires
        !is_dir(n),
    ensures
        (lookup(n, q) is Some) <==> q.len() == 0,
{
}

/// Two directories that agree on every child name except `x`.
pub open spec fn agree_except(a: INode, b: INode, x: Seq<char>) -> bool {
    &&& is_dir(a)
    &&& is_dir(b)
    &&& forall|y: Seq<char>| y != x ==> {
        &&& #[trigger] has_child(a, y) == has_child(b, y)
        &&& has_child(a, y) ==> child_named(a, y) == child_named(b, y)
    }
}

/// Paths that do not go through `x` see the same nodes in both directories.
proof fn lemma_frame(a: INode, b: INode, x: Seq<char>, q: Path)
    requires
        agree_except(a, b, x),
        q.len() > 0,
        q[0] != x,
    ensures
        lookup(a, q) == lookup(b, q),
{
    assert(has_child(a, q[0]) == has_child(b, q[0]));
}

/// The view of a directory through one of its children.
proof fn lemma_view_child(n: INode, x: Seq<char>)
    requires
        has_child(n, x),
    ensures
        forall|r: Path| #![trigger node_view(child_named(n, x)).contains_key(r)]
            node_view(n).contains_key(seq![x] + r) == node_view(child_named(n, x)).contains_key(r),
        forall|r: Path| #![trigger node_view(child_named(n, x))[r]]
            node_view(child_named(n, x)).contains_key(r) ==> node_view(n)[seq![x] + r] == node_view(child_named(n, x))[r],
{
    assert forall|r: Path| #![trigger node_view(child_named(n, x)).contains_key(r)]
        node_view(n).contains_key(seq![x] + r) == node_view(child_named(n, x)).contains_key(r) by {
        lemma_lookup_child(n, x, r);
    }
    assert forall|r: Path| #![trigger node_view(child_named(n, x))[r]]
        node_view(child_named(n, x)).contains_key(r) implies node_view(n)[seq![x] + r] == node_view(child_named(n, x))[r] by {
        lemma_lookup_child(n, x, r);
    }
}

/// A path through child `x` is refused the way the rest is refused in `x`.
proof fn lemma_path_error_child(n: INode, x: Seq<char>, r: Path)
    requires
        has_child(n, x),
    ensures
        path_error(node_view(n), seq![x] + r) == path_error(node_view(child_named(n, x)), r),
{
    let c = child_named(n, x);
    let q = seq![x] + r;
    let m = node_view(n);
    let mc = node_view(c);
    lemma_view_child(n, x);
    if exists|k: int| 0 <= k < r.len() && #[trigger] mc.contains_key(r.take(k)) && mc[r.take(k)] is File {
        let k = choose|k: int| 0 <= k < r.len() && #[trigger] mc.contains_key(r.take(k)) && mc[r.take(k)] is File;
        assert(q.take(k + 1) =~= seq![x] + r.take(k));
        assert(mc.contains_key(r.take(k)));
        assert(m.contains_key(q.take(k + 1)) && m[q.take(k + 1)] is File);
    }
    if exists|k: int| 0 <= k < q.len() && #[trigger] m.contains_key(q.take(k)) && m[q.take(k)] is File {
        let k = choose|k: int| 0 <= k < q.len() && #[trigger] m.contains_key(q.take(k)) && m[q.take(k)] is File;
        if k == 0 {
            assert(q.take(0) =~= Seq::<Seq<char>>::empty());
            assert(lookup(n, q.take(0)) == Some(n));
        } else {
            assert(q.take(k) =~= seq![x] + r.take(k - 1));
            assert(mc.contains_key(r.take(k - 1)));
            assert(mc.contains_key(r.take(k - 1)) && mc[r.take(k - 1)] is File);
        }
    }
}

/// The part of `m` below `p`, by path relative to `p`.
pub open spec fn subview(m: Map<Path, Entry>, p: Path) -> Map<Path, Entry> {
    Map::new(|r: Path| m.contains_key(p + r), |r: Path| m[p + r])
}

/// `m` with everything below `p` replaced by `s`.
pub open spec fn graft(m: Map<Path, Entry>, p: Path, s: Map<Path, Entry>) -> Map<Path, Entry> {
    Map::new(
        |q: Path| if is_prefix(p, q) { s.contains_key(q.skip(p.len() as int)) } else { m.contains_key(q) },
        |q: Path| if is_prefix(p, q) { s[q.skip(p.len() as int)] } else { m[q] },
    )
}

/// `m` without `p` and everything below it.
pub open spec fn without_subtree(m: Map<Path, Entry>, p: Path) -> Map<Path, Entry> {
    Map::new(|q: Path| m.contains_key(q) && !is_prefix(p, q), |q: Path| m[q])
}

/// The view of a directory is the view of its child `x` grafted under `x`.
proof fn lemma_subview_child(n: INode, x: Seq<char>, p: Path)
    requires
        has_child(n, x),
    ensures
        subview(node_view(n), seq![x] + p) =~= subview(node_view(child_named(n, x)), p),
        node_view(n).contains_key(seq![x] + p) == node_view(child_named(n, x)).contains_key(p),
{
    lemma_view_child(n, x);
    assert forall|r: Path| #[trigger] subview(node_view(n), seq![x] + p).contains_key(r)
        == subview(node_view(child_named(n, x)), p).contains_key(r) by {
        assert((seq![x] + p) + r =~= seq![x] + (p + r));
        assert(node_view(child_named(n, x)).contains_key(p + r) == node_view(n).contains_key(seq![x] + (p + r)));
    }
    assert forall|r: Path| #[trigger] subview(node_view(n), seq![x] + p).contains_key(r)
        implies subview(node_view(n), seq![x] + p)[r] == subview(node_view(child_named(n, x)), p)[r] by {
        assert((seq![x] + p) + r =~= seq![x] + (p + r));
        assert(node_view(child_named(n, x)).contains_key(p + r));
    }
    assert(node_view(child_named(n, x)).contains_key(p) == node_view(n).contains_key(seq![x] + p));
}

/// Replacing child `x` of a directory grafts the child's new view under `x`.
proof fn lemma_graft_child(a: INode, b: INode, x: Seq<char>, p: Path, s: Map<Path, Entry>)
    requires
        agree_except(a, b, x),
        has_child(a, x),
        has_child(b, x),
        node_view(child_named(b, x)) == graft(node_view(child_named(a, x)), p, s),
    ensures
        node_view(b) =~= graft(node_view(a), seq![x] + p, s),
{
    let q = seq![x] + p;
    let ca = child_named(a, x);
    let cb = child_named(b, x);
    lemma_view_child(a, x);
    lemma_view_child(b, x);
    assert forall|t: Path| #[trigger] node_view(b).contains_key(t) == graft(node_view(a), q, s).contains_key(t)
        && (node_view(b).contains_key(t) ==> node_view(b)[t] == graft(node_view(a), q, s)[t]) by {
        if t.len() == 0 {
            assert(!is_prefix(q, t));
            assert(lookup(a, t) == Some(a));
            assert(lookup(b, t) == Some(b));
        } else if t[0] == x {
            let t1 = t.skip(1);
            assert(t =~= seq![x] + t1);
            assert(node_view(b).contains_key(seq![x] + t1) == node_view(cb).contains_key(t1));
            assert(node_view(a).contains_key(seq![x] + t1) == node_view(ca).contains_key(t1));
            if is_prefix(q, t) {
                assert(t1.take(p.len() as int) =~= t.take(q.len() as int).skip(1));
                assert(q.skip(1) =~= p);
                assert(is_prefix(p, t1));
                assert(t1.skip(p.len() as int) =~= t.skip(q.len() as int));
            } else {
                if is_prefix(p, t1) {
                    assert(t.take(q.len() as int) =~= seq![x] + t1.take(p.len() as int));
                }
                assert(!is_prefix(p, t1));
            }
            if node_view(b).contains_key(t) {
                assert(node_view(cb).contains_key(t1));
                assert(node_view(b)[seq![x] + t1] == node_view(cb)[t1]);
                if !is_prefix(q, t) {
                    assert(node_view(a)[seq![x] + t1] == node_view(ca)[t1]);
                }
            }
        } else {
            lemma_frame(a, b, x, t);
            assert(!is_prefix(q, t)) by {
                if is_prefix(q, t) {
                    assert(t.take(q.len() as int)[0] == q[0]);
                }
            }
        }
    }
}

/// Grafting at the empty path replaces everything.
proof fn lemma_graft_root(m: Map<Path, Entry>, s: Map<Path, Entry>)
    ensures
        graft(m, Seq::empty(), s) =~= s,
        subview(m, Seq::empty()) =~= m,
{
    assert forall|q: Path| #[trigger] graft(m, Seq::empty(), s).contains_key(q) == s.contains_key(q) by {
        assert(q.take(0) =~= Seq::<Seq<char>>::empty());
        assert(q.skip(0) =~= q);
    }
    assert forall|q: Path| #[trigger] graft(m, Seq::empty(), s).contains_key(q) implies graft(m, Seq::empty(), s)[q] == s[q] by {
        assert(q.take(0) =~= Seq::<Seq<char>>::empty());
        assert(q.skip(0) =~= q);
    }
    assert forall|r: Path| #[trigger] subview(m, Seq::empty()).contains_key(r) == m.contains_key(r) by {
        assert(Seq::<Seq<char>>::empty() + r =~= r);
    }
    assert forall|r: Path| #[trigger] subview(m, Seq::empty()).contains_key(r) implies subview(m, Seq::empty())[r] == m[r] by {
        assert(Seq::<Seq<char>>::empty() + r =~= r);
    }
}

/// Grafting a subview with one more entry is inserting that entry.
proof fn lemma_graft_insert(m: Map<Path, Entry>, p: Path, r: Path, v: Entry)
    ensures
        graft(m, p, subview(m, p).insert(r, v)) =~= m.insert(p + r, v),
{
    let g = graft(m, p, subview(m, p).insert(r, v));
    assert forall|q: Path| #[trigger] g.contains_key(q) == m.insert(p + r, v).contains_key(q)
        && (g.contains_key(q) ==> g[q] == m.insert(p + r, v)[q]) by {
        if is_prefix(p, q) {
            let t = q.skip(p.len() as int);
            assert(p + t =~= q);
            if t == r {
                assert(q == p + r);
            } else {
                assert(q != p + r) by {
                    if q == p + r {
                        assert(q.skip(p.len() as int) =~= r);
                    }
                }
            }
        } else {
            assert(q != p + r) by {
                if q == p + r {
                    assert(q.take(p.len() as int) =~= p);
                }
            }
        }
    }
}

/// Grafting a subview without the subtree at `r` is removing `p + r`'s subtree.
proof fn lemma_graft_remove(m: Map<Path, Entry>, p: Path, r: Path)
    ensures
        graft(m, p, without_subtree(subview(m, p), r)) =~= without_subtree(m, p + r),
{
    let g = graft(m, p, without_subtree(subview(m, p), r));
    let w = without_subtree(m, p + r);
    assert((p + r).skip(p.len() as int) =~= r);
    assert((p + r).take(p.len() as int) =~= p);
    assert forall|q: Path| #[trigger] g.contains_key(q) == w.contains_key(q) by {
        if is_prefix(p, q) {
            let t = q.skip(p.len() as int);
            assert(p + t =~= q);
            assert(g.contains_key(q) == (m.contains_key(p + t) && !is_prefix(r, t)));
            if is_prefix(r, t) {
                assert(q.take((p + r).len() as int) =~= p + t.take(r.len() as int));
                assert(is_prefix(p + r, q));
            } else {
                if is_prefix(p + r, q) {
                    assert(t.take(r.len() as int) =~= q.take((p + r).len() as int).skip(p.len() as int));
                    assert(false);
                }
            }
        } else {
            if is_prefix(p + r, q) {
                assert(q.take(p.len() as int) =~= q.take((p + r).len() as int).take(p.len() as int));
                assert(false);
            }
        }
    }
    assert forall|q: Path| #[trigger] g.contains_key(q) implies g[q] == w[q] by {
        if is_prefix(p, q) {
            let t = q.skip(p.len() as int);
            assert(p + t =~= q);
        }
    }
}

/// Inserting a child whose name was missing, at its place in the order.
proof fn lemma_agree_insert(a: INode, b: INode, pos: int, leaf: INode)
    requires
        node_wf(a),
        is_dir(a),
        is_dir(b),
        0 <= pos <= children(a).len(),
        children(b) == children(a).insert(pos, leaf),
        forall|j: int| 0 <= j < pos ==> chars_lt(#[trigger] children(a)[j].name@, leaf.name@),
        forall|j: int| pos <= j < children(a).len() ==> chars_lt(leaf.name@, #[trigger] children(a)[j].name@),
        node_wf(leaf),
    ensures
        node_wf(b),
        agree_except(a, b, leaf.name@),
        has_child(b, leaf.name@),
        child_named(b, leaf.name@) == leaf,
        !has_child(a, leaf.name@),
{
    lemma_wf_dir(a);
    let ca = children(a);
    let cb = children(b);
    let x = leaf.name@;
    assert(names_sorted(cb)) by {
        assert forall|i: int, j: int| 0 <= i < j < cb.len() implies chars_lt(#[trigger] cb[i].name@, #[trigger] cb[j].name@) by {
            if j < pos {
            } else if j == pos {
                assert(cb[i] == ca[i]);
            } else if i < pos {
                assert(cb[j] == ca[j - 1]);
                assert(cb[i] == ca[i]);
                assert(chars_lt(ca[i].name@, x));
                assert(chars_lt(x, ca[j - 1].name@));
                lemma_lt_transitive(ca[i].name@, x, ca[j - 1].name@);
            } else if i == pos {
                assert(cb[j] == ca[j - 1]);
            } else {
                assert(cb[j] == ca[j - 1]);
                assert(cb[i] == ca[i - 1]);
            }
        }
    }
    assert forall|i: int| 0 <= i < cb.len() implies node_wf(#[trigger] cb[i]) by {
        if i < pos {
            assert(cb[i] == ca[i]);
        } else if i > pos {
            assert(cb[i] == ca[i - 1]);
        }
    }
    match b.kind {
        INodeKind::Directory(v) => {
            assert(v@ == cb);
        },
        INodeKind::File(_) => {},
    }
    assert(node_wf(b));
    assert(!has_child(a, x)) by {
        if has_child(a, x) {
            let k = choose|k: int| 0 <= k < ca.len() && (#[trigger] ca[k]).name@ == x;
            if k < pos {
                lemma_lt_trichotomy(ca[k].name@, x);
            } else {
                lemma_lt_trichotomy(x, ca[k].name@);
            }
        }
    }
    assert(cb[pos] == leaf);
    lemma_child_unique(b, pos);
    assert forall|y: Seq<char>| y != x implies {
        &&& #[trigger] has_child(a, y) == has_child(b, y)
        &&& has_child(a, y) ==> child_named(a, y) == child_named(b, y)
    } by {
        if has_child(a, y) {
            let k = choose|k: int| 0 <= k < ca.len() && (#[trigger] ca[k]).name@ == y;
            let kb = if k < pos { k } else { k + 1 };
            assert(cb[kb] == ca[k]);
            lemma_child_unique(a, k);
            lemma_child_unique(b, kb);
        }
        if has_child(b, y) {
            let k = choose|k: int| 0 <= k < cb.len() && (#[trigger] cb[k]).name@ == y;
            assert(k != pos);
            let ka = if k < pos { k } else { k - 1 };
            assert(cb[k] == ca[ka]);
            assert(ca[ka].name@ == y);
        }
    }
}

/// Removing one child.
proof fn lemma_agree_remove(a: INode, b: INode, pos: int)
    requires
        node_wf(a),
        is_dir(a),
        is_dir(b),
        0 <= pos < children(a).len(),
        children(b) == children(a).remove(pos),
    ensures
        node_wf(b),
        agree_except(a, b, children(a)[pos].name@),
        has_child(a, children(a)[pos].name@),
        !has_child(b, children(a)[pos].name@),
{
    lemma_wf_dir(a);
    let ca = children(a);
    let cb = children(b);
    let x = ca[pos].name@;
    assert(names_sorted(cb)) by {
        assert forall|i: int, j: int| 0 <= i < j < cb.len() implies chars_lt(#[trigger] cb[i].name@, #[trigger] cb[j].name@) by {
            let ia = if i < pos { i } else { i + 1 };
            let ja = if j < pos { j } else { j + 1 };
            assert(cb[i] == ca[ia]);
            assert(cb[j] == ca[ja]);
        }
    }
    assert forall|i: int| 0 <= i < cb.len() implies node_wf(#[trigger] cb[i]) by {
        let ia = if i < pos { i } else { i + 1 };
        assert(cb[i] == ca[ia]);
    }
    match b.kind {
        INodeKind::Directory(v) => {
            assert(v@ == cb);
        },
        INodeKind::File(_) => {},
    }
    assert(node_wf(b));
    lemma_child_unique(a, pos);
    assert(!has_child(b, x)) by {
        if has_child(b, x) {
            let k = choose|k: int| 0 <= k < cb.len() && (#[trigger] cb[k]).name@ == x;
            let ka = if k < pos { k } else { k + 1 };
            assert(cb[k] == ca[ka]);
            if ka < pos {
                lemma_lt_trichotomy(ca[ka].name@, x);
            } else {
                lemma_lt_trichotomy(x, ca[ka].name@);
            }
        }
    }
    assert forall|y: Seq<char>| y != x implies {
        &&& #[trigger] has_child(a, y) == has_child(b, y)
        &&& has_child(a, y) ==> child_named(a, y) == child_named(b, y)
    } by {
        if has_child(a, y) {
            let k = choose|k: int| 0 <= k < ca.len() && (#[trigger] ca[k]).name@ == y;
            assert(k != pos);
            let kb = if k < pos { k } else { k - 1 };
            assert(cb[kb] == ca[k]);
            lemma_child_unique(a, k);
            lemma_child_unique(b, kb);
        }
        if has_child(b, y) {
            let k = choose|k: int| 0 <= k < cb.len() && (#[trigger] cb[k]).name@ == y;
            let ka = if k < pos { k } else { k + 1 };
            assert(cb[k] == ca[ka]);
        }
    }
}

/// Replacing one child by a node of the same name.
proof fn lemma_agree_update(a: INode, b: INode, pos: int, c: INode)
    requires
        node_wf(a),
        is_dir(a),
        is_dir(b),
        0 <= pos < children(a).len(),
        children(b) == children(a).update(pos, c),
        c.name@ == children(a)[pos].name@,
        node_wf(c),
    ensures
        node_wf(b),
        agree_except(a, b, c.name@),
        has_child(a, c.name@),
        has_child(b, c.name@),
        child_named(a, c.name@) == children(a)[pos],
        child_named(b, c.name@) == c,
{
    lemma_wf_dir(a);
    let ca = children(a);
    let cb = children(b);
    let x = c.name@;
    assert(names_sorted(cb)) by {
        assert forall|i: int, j: int| 0 <= i < j < cb.len() implies chars_lt(#[trigger] cb[i].name@, #[trigger] cb[j].name@) by {
            assert(cb[i].name@ == ca[i].name@);
            assert(cb[j].name@ == ca[j].name@);
        }
    }
    assert forall|i: int| 0 <= i < cb.len() implies node_wf(#[trigger] cb[i]) by {
        if i != pos {
            assert(cb[i] == ca[i]);
        }
    }
    match b.kind {
        INodeKind::Directory(v) => {
            assert(v@ == cb);
        },
        INodeKind::File(_) => {},
    }
    assert(node_wf(b));
    lemma_child_unique(a, pos);
    assert(cb[pos] == c);
    lemma_child_unique(b, pos);
    assert forall|y: Seq<char>| y != x implies {
        &&& #[trigger] has_child(a, y) == has_child(b, y)
        &&& has_child(a, y) ==> child_named(a, y) == child_named(b, y)
    } by {
        if has_child(a, y) {
            let k = choose|k: int| 0 <= k < ca.len() && (#[trigger] ca[k]).name@ == y;
            assert(k != pos);
            assert(cb[k] == ca[k]);
            lemma_child_unique(a, k);
            lemma_child_unique(b, k);
        }
        if has_child(b, y) {
            let k = choose|k: int| 0 <= k < cb.len() && (#[trigger] cb[k]).name@ == y;
            assert(k != pos);
            assert(cb[k] == ca[k]);
        }
    }
}

/// The view after adding a childless node `x`.
proof fn lemma_view_add(a: INode, b: INode, x: Seq<char>)
    requires
        agree_except(a, b, x),
        !has_child(a, x),
        has_child(b, x),
        children(child_named(b, x)).len() == 0,
    ensures
        node_view(b) =~= node_view(a).insert(seq![x], entry_of(child_named(b, x))),
{
    let leaf = child_named(b, x);
    assert forall|q: Path| #[trigger] node_view(b).contains_key(q) == node_view(a).insert(seq![x], entry_of(leaf)).contains_key(q)
        && (node_view(b).contains_key(q) ==> node_view(b)[q] == node_view(a).insert(seq![x], entry_of(leaf))[q]) by {
        if q.len() == 0 {
            assert(q != seq![x]);
        } else if q[0] == x {
            let t = q.skip(1);
            assert(q =~= seq![x] + t);
            lemma_lookup_child(b, x, t);
            if t.len() == 0 {
                assert(q =~= seq![x]);
            } else {
                assert(!has_child(leaf, t[0]));
                assert(q != seq![x]);
            }
        } else {
            lemma_frame(a, b, x, q);
            assert(q != seq![x]);
        }
    }
}

/// The view after removing child `x`.
proof fn lemma_view_remove(a: INode, b: INode, x: Seq<char>)
    requires
        agree_except(a, b, x),
        has_child(a, x),
        !has_child(b, x),
    ensures
        node_view(b) =~= without_subtree(node_view(a), seq![x]),
{
    assert forall|q: Path| #[trigger] node_view(b).contains_key(q) == without_subtree(node_view(a), seq![x]).contains_key(q)
        && (node_view(b).contains_key(q) ==> node_view(b)[q] == node_view(a)[q]) by {
        if q.len() == 0 {
            assert(!is_prefix(seq![x], q));
        } else if q[0] == x {
            assert(q.take(1) =~= seq![x]);
        } else {
            lemma_frame(a, b, x, q);
            assert(!is_prefix(seq![x], q)) by {
                if is_prefix(seq![x], q) {
                    assert(q.take(1)[0] == x);
                }
            }
        }
    }
}

/// A request to change the tree at the node a path leads to.
enum Edit {
    /// Replace the contents of the file there.
    Write(Vec<u8>),
    /// Add an empty file with this name to the directory there.
    AddFile(Vec<char>),
    /// Add an empty directory with this name to the directory there.
    AddDir(Vec<char>),
    /// Remove the child with this name, and all below it, from the directory there.
    Remove(Vec<char>),
}

/// What an edit does to the view `s` of the node it applies to.
spec fn local_edit(s: Map<Path, Entry>, e: Edit) -> Result<Map<Path, Entry>, FsError> {
    let here = s[Seq::empty()];
    match e {
        Edit::Write(d) => if here is Dir {
            Err(FsError::NotAFile)
        } else {
            Ok(s.insert(Seq::empty(), Entry::File(d@)))
        },
        Edit::AddFile(n) => if here is File {
            Err(FsError::NotADirectory)
        } else if s.contains_key(seq![n@]) {
            Err(FsError::AlreadyExists)
        } else {
            Ok(s.insert(seq![n@], Entry::File(Seq::empty())))
        },
        Edit::AddDir(n) => if here is File {
            Err(FsError::NotADirectory)
        } else if s.contains_key(seq![n@]) {
            Err(FsError::AlreadyExists)
        } else {
            Ok(s.insert(seq![n@], Entry::Dir))
        },
        Edit::Remove(n) => if here is File {
            Err(FsError::NotADirectory)
        } else if !s.contains_key(seq![n@]) {
            Err(FsError::NotFound)
        } else {
            Ok(without_subtree(s, seq![n@]))
        },
    }
}

/// What an edit at path `p` does to the whole view.
spec fn edit_outcome(m: Map<Path, Entry>, p: Path, e: Edit) -> Result<Map<Path, Entry>, FsError> {
    if !m.contains_key(p) {
        Err(path_error(m, p))
    } else {
        match local_edit(subview(m, p), e) {
            Ok(s2) => Ok(graft(m, p, s2)),
            Err(x) => Err(x),
        }
    }
}

/// The components of a path held as character vectors.
pub open spec fn parts_view(v: Seq<Vec<char>>) -> Path {
    v.map(|_i: int, x: Vec<char>| x@)
}

/// Finds where `name` is or belongs among children ordered by name.
fn find_child(ch: &Vec<INode>, name: &Vec<char>) -> (r: (bool, usize))
    requires
        names_sorted(ch@),
    ensures
        r.1 <= ch@.len(),
        forall|j: int| 0 <= j < r.1 ==> chars_lt(#[trigger] ch@[j].name@, name@),
        r.0 ==> r.1 < ch@.len() && ch@[r.1 as int].name@ == name@,
        !r.0 ==> forall|j: int| r.1 <= j < ch@.len() ==> chars_lt(name@, #[trigger] ch@[j].name@),
{
    let mut i: usize = 0;
    while i < ch.len()
        invariant
            i <= ch@.len(),
            names_sorted(ch@),
            forall|j: int| 0 <= j < i ==> chars_lt(#[trigger] ch@[j].name@, name@),
        decreases ch.len() - i,
    {
        let cn = chars_of(ch[i].name.as_str());
        match crate::text::chars_compare(&cn, name) {
            crate::text::Order::Less => {
                i = i + 1;
            },
            crate::text::Order::Equal => {
                return (true, i);
            },
            crate::text::Order::Greater => {
                assert forall|j: int| i <= j < ch@.len() implies chars_lt(name@, #[trigger] ch@[j].name@) by {
                    if j > i {
                        lemma_lt_transitive(name@, ch@[i as int].name@, ch@[j].name@);
                    }
                }
                return (false, i);
            },
        }
    }
    (false, i)
}

/// The node itself is at the empty path.
proof fn lemma_view_here(n: INode)
    ensures
        node_view(n).contains_key(Seq::empty()),
        node_view(n)[Seq::empty()] == entry_of(n),
{
    assert(lookup(n, Seq::empty()) == Some(n));
}

/// Applies an edit to the node it is aimed at.
fn apply_here(node: &mut INode, edit: Edit) -> (r: FsResult<()>)
    requires
        node_wf(*old(node)),
    ensures
        node_wf(*final(node)),
        final(node).name == old(node).name,
        is_dir(*final(node)) == is_dir(*old(node)),
        match local_edit(node_view(*old(node)), edit) {
            Ok(s2) => r is Ok && node_view(*final(node)) == s2,
            Err(e) => r == Err::<(), FsError>(e) && node_view(*final(node)) == node_view(*old(node)),
        },
{
    let ghost a = *node;
    proof { lemma_view_here(a); }
    let mut kind = INodeKind::File(Vec::new());
    std::mem::swap(&mut kind, &mut node.kind);
    match kind {
        INodeKind::File(old_data) => {
            match edit {
                Edit::Write(d) => {
                    node.kind = INodeKind::File(d);
                    proof {
                        let b = *node;
                        lemma_view_here(b);
                        assert forall|q: Path| #[trigger] node_view(b).contains_key(q)
                            == node_view(a).insert(Seq::empty(), entry_of(b)).contains_key(q)
                            && (node_view(b).contains_key(q) ==> node_view(b)[q] == node_view(a).insert(Seq::empty(), entry_of(b))[q]) by {
                            lemma_file_view(a, q);
                            lemma_file_view(b, q);
                            if q.len() == 0 {
                                assert(q =~= Seq::<Seq<char>>::empty());
                            }
                        }
                        assert(node_view(b) =~= node_view(a).insert(Seq::empty(), entry_of(b)));
                    }
                    Ok(())
                },
                _ => {
                    node.kind = INodeKind::File(old_data);
                    Err(FsError::NotADirectory)
                },
            }
        },
        INodeKind::Directory(mut ch) => {
            proof { lemma_wf_dir(a); }
            assert(children(a) == ch@);
            match edit {
                Edit::Write(_) => {
                    node.kind = INodeKind::Directory(ch);
                    Err(FsError::NotAFile)
                },
                Edit::AddFile(n) => {
                    let (found, pos) = find_child(&ch, &n);
                    if found {
                        proof {
                            lemma_child_unique(a, pos as int);
                            lemma_lookup_child(a, n@, Seq::empty());
                            assert(seq![n@] + Seq::<Seq<char>>::empty() =~= seq![n@]);
                        }
                        node.kind = INodeKind::Directory(ch);
                        return Err(FsError::AlreadyExists);
                    }
                    let leaf = INode { name: crate::text::string_from_chars(&n), kind: INodeKind::File(Vec::new()) };
                    let ghost lf = leaf;
                    ch.insert(pos, leaf);
                    node.kind = INodeKind::Directory(ch);
                    proof {
                        let b = *node;
                        assert(children(b) == children(a).insert(pos as int, lf));
                        lemma_agree_insert(a, b, pos as int, lf);
                        lemma_view_add(a, b, n@);
                        assert(entry_of(lf) == Entry::File(Seq::<u8>::empty()));
                        lemma_lookup_missing(a, seq![n@]);
                    }
                    Ok(())
                },
                Edit::AddDir(n) => {
                    let (found, pos) = find_child(&ch, &n);
                    if found {
                        proof {
                            lemma_child_unique(a, pos as int);
                            lemma_lookup_child(a, n@, Seq::empty());
                            assert(seq![n@] + Seq::<Seq<char>>::empty() =~= seq![n@]);
                        }
                        node.kind = INodeKind::Directory(ch);
                        return Err(FsError::AlreadyExists);
                    }
                    let leaf = INode { name: crate::text::string_from_chars(&n), kind: INodeKind::Directory(Vec::new()) };
                    let ghost lf = leaf;
                    proof {
                        assert(names_sorted(children(lf)));
                        assert(node_wf(lf));
                    }
                    ch.insert(pos, leaf);
                    node.kind = INodeKind::Directory(ch);
                    proof {
                        let b = *node;
                        assert(children(b) == children(a).insert(pos as int, lf));
                        lemma_agree_insert(a, b, pos as int, lf);
                        lemma_view_add(a, b, n@);
                        lemma_lookup_missing(a, seq![n@]);
                    }
                    Ok(())
                },
                Edit::Remove(n) => {
                    let (found, pos) = find_child(&ch, &n);
                    if !found {
                        proof {
                            assert(!has_child(a, n@)) by {
                                if has_child(a, n@) {
                                    let k = choose|k: int| 0 <= k < ch@.len() && (#[trigger] ch@[k]).name@ == n@;
                                    if k < pos {
                                        lemma_lt_trichotomy(ch@[k].name@, n@);
                                    } else {
                                        lemma_lt_trichotomy(n@, ch@[k].name@);
                                    }
                                }
                            }
                            lemma_lookup_missing(a, seq![n@]);
                        }
                        node.kind = INodeKind::Directory(ch);
                        return Err(FsError::NotFound);
                    }
                    let _removed = ch.remove(pos);
                    node.kind = INodeKind::Directory(ch);
                    proof {
                        let b = *node;
                        assert(children(b) == children(a).remove(pos as int));
                        lemma_agree_remove(a, b, pos as int);
                        lemma_view_remove(a, b, n@);
                        lemma_lookup_child(a, n@, Seq::empty());
                        assert(seq![n@] + Seq::<Seq<char>>::empty() =~= seq![n@]);
                    }
                    Ok(())
                },
            }
        },
    }
}

/// Below a file, every path is refused as going through a file.
proof fn lemma_path_error_file(n: INode, q: Path)
    requires
        !is_dir(n),
        q.len() > 0,
    ensures
        path_error(node_view(n), q) == FsError::NotADirectory,
        !node_view(n).contains_key(q),
{
    assert(q.take(0) =~= Seq::<Seq<char>>::empty());
    lemma_view_here(n);
    assert(node_view(n).contains_key(q.take(0)) && node_view(n)[q.take(0)] is File);
}

/// A path whose first component a directory lacks is not found.
proof fn lemma_path_error_missing(n: INode, q: Path)
    requires
        is_dir(n),
        q.len() > 0,
        !has_child(n, q[0]),
    ensures
        path_error(node_view(n), q) == FsError::NotFound,
        !node_view(n).contains_key(q),
{
    let m = node_view(n);
    if exists|k: int| 0 <= k < q.len() && #[trigger] m.contains_key(q.take(k)) && m[q.take(k)] is File {
        let k = choose|k: int| 0 <= k < q.len() && #[trigger] m.contains_key(q.take(k)) && m[q.take(k)] is File;
        if k == 0 {
            assert(q.take(0) =~= Seq::<Seq<char>>::empty());
            lemma_view_here(n);
        } else {
            assert(q.take(k)[0] == q[0]);
        }
    }
}

/// Two directories that differ only in child `x`, whose views agree, agree.
proof fn lemma_same_child_view(a: INode, b: INode, x: Seq<char>)
    requires
        agree_except(a, b, x),
        has_child(a, x),
        has_child(b, x),
        node_view(child_named(a, x)) == node_view(child_named(b, x)),
    ensures
        node_view(a) == node_view(b),
{
    lemma_view_child(a, x);
    lemma_view_child(b, x);
    assert forall|t: Path| #[trigger] node_view(b).contains_key(t) == node_view(a).contains_key(t)
        && (node_view(b).contains_key(t) ==> node_view(b)[t] == node_view(a)[t]) by {
        if t.len() == 0 {
            lemma_view_here(a);
            lemma_view_here(b);
        } else if t[0] == x {
            let t1 = t.skip(1);
            assert(t =~= seq![x] + t1);
            assert(node_view(b).contains_key(seq![x] + t1) == node_view(child_named(b, x)).contains_key(t1));
            assert(node_view(a).contains_key(seq![x] + t1) == node_view(child_named(a, x)).contains_key(t1));
            if node_view(b).contains_key(t) {
                assert(node_view(b)[seq![x] + t1] == node_view(child_named(b, x))[t1]);
                assert(node_view(a)[seq![x] + t1] == node_view(child_named(a, x))[t1]);
            }
        } else {
            lemma_frame(a, b, x, t);
        }
    }
    assert(node_view(a) =~= node_view(b));
}

/// Walks to the node a path leads to.
fn get_node<'a>(node: &'a INode, parts: &Vec<Vec<char>>, depth: usize) -> (r: FsResult<&'a INode>)
    requires
        node_wf(*node),
        depth <= parts.len(),
    ensures
        match r {
            Ok(t) => lookup(*node, parts_view(parts@).skip(depth as int)) == Some(*t) && node_wf(*t),
            Err(e) => lookup(*node, parts_view(parts@).skip(depth as int)) is None
                && e == path_error(node_view(*node), parts_view(parts@).skip(depth as int)),
        },
    decreases parts.len() - depth,
{
    let ghost q = parts_view(parts@).skip(depth as int);
    if depth == parts.len() {
        assert(q.len() == 0);
        return Ok(node);
    }
    assert(q[0] == parts@[depth as int]@);
    match &node.kind {
        INodeKind::File(_) => {
            proof { lemma_path_error_file(*node, q); }
            Err(FsError::NotADirectory)
        },
        INodeKind::Directory(ch) => {
            proof { lemma_wf_dir(*node); }
            assert(children(*node) == ch@);
            let (found, pos) = find_child(ch, &parts[depth]);
            if !found {
                proof {
                    assert(!has_child(*node, q[0])) by {
                        if has_child(*node, q[0]) {
                            let k = choose|k: int| 0 <= k < ch@.len() && (#[trigger] ch@[k]).name@ == q[0];
                            if k < pos {
                                lemma_lt_trichotomy(ch@[k].name@, q[0]);
                            } else {
                                lemma_lt_trichotomy(q[0], ch@[k].name@);
                            }
                        }
                    }
                    lemma_path_error_missing(*node, q);
                }
                return Err(FsError::NotFound);
            }
            proof {
                lemma_child_unique(*node, pos as int);
                let q1 = parts_view(parts@).skip(depth + 1);
                assert(q =~= seq![q[0]] + q1);
                lemma_lookup_child(*node, q[0], q1);
                lemma_path_error_child(*node, q[0], q1);
            }
            get_node(&ch[pos], parts, depth + 1)
        },
    }
}

/// Applies an edit at the node a path leads to.
fn edit_node(node: &mut INode, parts: &Vec<Vec<char>>, depth: usize, edit: Edit) -> (r: FsResult<()>)
    requires
        node_wf(*old(node)),
        depth <= parts.len(),
    ensures
        node_wf(*final(node)),
        final(node).name == old(node).name,
        is_dir(*final(node)) == is_dir(*old(node)),
        match edit_outcome(node_view(*old(node)), parts_view(parts@).skip(depth as int), edit) {
            Ok(m2) => r is Ok && node_view(*final(node)) == m2,
            Err(e) => r == Err::<(), FsError>(e) && node_view(*final(node)) == node_view(*old(node)),
        },
    decreases parts.len() - depth,
{
    let ghost a = *node;
    let ghost q = parts_view(parts@).skip(depth as int);
    if depth == parts.len() {
        proof {
            assert(q =~= Seq::<Seq<char>>::empty());
            lemma_view_here(a);
            lemma_graft_root(node_view(a), node_view(a));
            assert forall|s2: Map<Path, Entry>| #[trigger] graft(node_view(a), q, s2) == s2 by {
                lemma_graft_root(node_view(a), s2);
            }
        }
        return apply_here(node, edit);
    }
    assert(q[0] == parts@[depth as int]@);
    let mut kind = INodeKind::File(Vec::new());
    std::mem::swap(&mut kind, &mut node.kind);
    match kind {
        INodeKind::File(d) => {
            node.kind = INodeKind::File(d);
            assert(node.kind == a.kind);
            assert(*node == a);
            proof { lemma_path_error_file(a, q); }
            Err(FsError::NotADirectory)
        },
        INodeKind::Directory(mut ch) => {
            proof { lemma_wf_dir(a); }
            assert(children(a) == ch@);
            let (found, pos) = find_child(&ch, &parts[depth]);
            if !found {
                proof {
                    assert(!has_child(a, q[0])) by {
                        if has_child(a, q[0]) {
                            let k = choose|k: int| 0 <= k < ch@.len() && (#[trigger] ch@[k]).name@ == q[0];
                            if k < pos {
                                lemma_lt_trichotomy(ch@[k].name@, q[0]);
                            } else {
                                lemma_lt_trichotomy(q[0], ch@[k].name@);
                            }
                        }
                    }
                    lemma_path_error_missing(a, q);
                }
                node.kind = INodeKind::Directory(ch);
                return Err(FsError::NotFound);
            }
            let ghost old_ch = ch@;
            let mut c = ch.remove(pos);
            let ghost ca = c;
            assert(ca == old_ch[pos as int]);
            proof { lemma_child_unique(a, pos as int); }
            let r = edit_node(&mut c, parts, depth + 1, edit);
            let ghost cb = c;
            ch.insert(pos, c);
            node.kind = INodeKind::Directory(ch);
            proof {
                let b = *node;
                assert(children(b) =~= old_ch.update(pos as int, cb));
                lemma_agree_update(a, b, pos as int, cb);
                let x = q[0];
                let q1 = parts_view(parts@).skip(depth + 1);
                assert(q =~= seq![x] + q1);
                lemma_subview_child(a, x, q1);
                lemma_path_error_child(a, x, q1);
                if node_view(ca).contains_key(q1) {
                    match local_edit(subview(node_view(ca), q1), edit) {
                        Ok(s2) => {
                            lemma_graft_child(a, b, x, q1, s2);
                        },
                        Err(_) => {
                            lemma_same_child_view(a, b, x);
                        },
                    }
                } else {
                    lemma_same_child_view(a, b, x);
                }
            }
            r
        },
    }
}

/// The pieces of `s` between slashes, empty ones included (what
/// `str::split('/')` yields).
pub open spec fn slash_pieces(s: Seq<char>) -> Seq<Seq<char>>
    decreases s.len(),
{
    if s.len() == 0 {
        seq![Seq::empty()]
    } else {
        let r = slash_pieces(s.drop_last());
        if s.last() == '/' {
            r.push(Seq::empty())
        } else {
            r.update(r.len() - 1, r.last().push(s.last()))
        }
    }
}

pub open spec fn nonempty(x: Seq<char>) -> bool {
    x.len() > 0
}

/// The components of a path: its non-empty pieces between slashes.
pub open spec fn path_parts(s: Seq<char>) -> Path {
    slash_pieces(s).filter(|x: Seq<char>| nonempty(x))
}

proof fn lemma_filter_all_empty(a: Seq<Seq<char>>)
    requires
        forall|i: int| 0 <= i < a.len() ==> a[i].len() == 0,
    ensures
        a.filter(|x: Seq<char>| nonempty(x)) == Seq::<Seq<char>>::empty(),
    decreases a.len(),
{
    reveal(Seq::filter);
    if a.len() > 0 {
        lemma_filter_all_empty(a.drop_last());
        assert(a.last() == a[a.len() - 1]);
    }
}

proof fn lemma_filter_all_nonempty(a: Seq<Seq<char>>)
    requires
        forall|i: int| 0 <= i < a.len() ==> a[i].len() > 0,
    ensures
        a.filter(|x: Seq<char>| nonempty(x)) == a,
    decreases a.len(),
{
    reveal(Seq::filter);
    if a.len() > 0 {
        lemma_filter_all_nonempty(a.drop_last());
        assert(a.last() == a[a.len() - 1]);
        assert(a.drop_last().push(a.last()) =~= a);
    } else {
        assert(a =~= Seq::<Seq<char>>::empty());
    }
}

/// When a string's pieces are some empty ones followed by non-empty ones,
/// its components are the non-empty ones.
pub proof fn lemma_path_parts_split(s: Seq<char>, pre: Path, q: Path)
    requires
        slash_pieces(s) == pre + q,
        forall|i: int| 0 <= i < pre.len() ==> pre[i].len() == 0,
        forall|i: int| 0 <= i < q.len() ==> q[i].len() > 0,
    ensures
        path_parts(s) == q,
{
    let f = |x: Seq<char>| nonempty(x);
    Seq::filter_distributes_over_add(pre, q, f);
    lemma_filter_all_empty(pre);
    lemma_filter_all_nonempty(q);
    assert(Seq::<Seq<char>>::empty() + q =~= q);
}

/// No piece of a string holds a slash.
pub proof fn lemma_pieces_no_slash(s: Seq<char>)
    ensures
        forall|i: int, k: int| 0 <= i < slash_pieces(s).len() && 0 <= k < slash_pieces(s)[i].len()
            ==> slash_pieces(s)[i][k] != '/',
    decreases s.len(),
{
    if s.len() > 0 {
        lemma_pieces_no_slash(s.drop_last());
        lemma_slash_pieces_len(s.drop_last());
        let r = slash_pieces(s.drop_last());
        if s.last() != '/' {
            let t = r.update(r.len() - 1, r.last().push(s.last()));
            assert forall|i: int, k: int| 0 <= i < t.len() && 0 <= k < t[i].len() implies t[i][k] != '/' by {
                if i == r.len() - 1 && k == r.last().len() {
                } else if i == r.len() - 1 {
                    assert(t[i][k] == r[i][k]);
                } else {
                    assert(t[i] == r[i]);
                }
            }
        } else {
            let t = r.push(Seq::<char>::empty());
            assert forall|i: int, k: int| 0 <= i < t.len() && 0 <= k < t[i].len() implies t[i][k] != '/' by {
                if i < r.len() {
                    assert(t[i] == r[i]);
                }
            }
        }
    }
}

/// A string has at least one piece.
pub proof fn lemma_slash_pieces_len_pub(s: Seq<char>)
    ensures
        slash_pieces(s).len() >= 1,
{
    lemma_slash_pieces_len(s);
}

proof fn lemma_slash_pieces_len(s: Seq<char>)
    ensures
        slash_pieces(s).len() >= 1,
    decreases s.len(),
{
    if s.len() > 0 {
        lemma_slash_pieces_len(s.drop_last());
    }
}

/// Splits a path into its components.
pub fn split_path(path: &str) -> (r: Vec<Vec<char>>)
    ensures
        parts_view(r@) == path_parts(path@),
{
    broadcast use vstd::seq_lib::group_seq_properties;
    let cs = chars_of(path);
    let mut done: Vec<Vec<char>> = Vec::new();
    let mut cur: Vec<char> = Vec::new();
    let ghost mut pieces: Seq<Seq<char>> = Seq::empty();
    let mut i: usize = 0;
    assert(cs@.take(0) =~= Seq::<char>::empty());
    assert(pieces.filter(|x: Seq<char>| nonempty(x)) =~= Seq::<Seq<char>>::empty());
    while i < cs.len()
        invariant
            i <= cs.len(),
            cs@ == path@,
            slash_pieces(cs@.take(i as int)) == pieces.push(cur@),
            parts_view(done@) == pieces.filter(|x: Seq<char>| nonempty(x)),
        decreases cs.len() - i,
    {
        let c = cs[i];
        let ghost pre = cs@.take(i as int);
        assert(cs@.take(i + 1).drop_last() =~= pre);
        assert(cs@.take(i + 1).last() == c);
        if c == '/' {
            proof {
                pieces.lemma_filter_push(cur@, |x: Seq<char>| nonempty(x));
            }
            if cur.len() > 0 {
                let ghost before = done@;
                done.push(cur);
                assert(parts_view(done@) =~= parts_view(before).push(cur@));
            }
            proof {
                pieces = pieces.push(cur@);
            }
            cur = Vec::new();
            assert(slash_pieces(cs@.take(i + 1)) =~= pieces.push(cur@));
        } else {
            cur.push(c);
            assert(slash_pieces(cs@.take(i + 1)) =~= pieces.push(cur@));
        }
        i = i + 1;
    }
    assert(cs@.take(cs@.len() as int) =~= cs@);
    proof {
        pieces.lemma_filter_push(cur@, |x: Seq<char>| nonempty(x));
    }
    if cur.len() > 0 {
        let ghost before = done@;
        done.push(cur);
        assert(parts_view(done@) =~= parts_view(before).push(cur@));
    }
    done
}

/// What reading a path yields: a file's contents, or why not.
pub open spec fn read_outcome(m: Map<Path, Entry>, p: Path) -> Result<Seq<u8>, FsError> {
    if !m.contains_key(p) {
        Err(path_error(m, p))
    } else {
        match m[p] {
            Entry::File(d) => Ok(d),
            Entry::Dir => Err(FsError::NotAFile),
        }
    }
}

/// What writing `d` to the file at `p` makes of the tree, or why not.
pub open spec fn write_outcome(m: Map<Path, Entry>, p: Path, d: Seq<u8>) -> Result<Map<Path, Entry>, FsError> {
    if !m.contains_key(p) {
        Err(path_error(m, p))
    } else if m[p] is Dir {
        Err(FsError::NotAFile)
    } else {
        Ok(m.insert(p, Entry::File(d)))
    }
}

/// What adding `e` (an empty file or directory) at `p` makes of the tree, or
/// why not. The empty path names the root, which is left as it is.
pub open spec fn add_outcome(m: Map<Path, Entry>, p: Path, e: Entry) -> Result<Map<Path, Entry>, FsError> {
    if p.len() == 0 {
        Ok(m)
    } else {
        let parent = p.drop_last();
        if !m.contains_key(parent) {
            Err(path_error(m, parent))
        } else if m[parent] is File {
            Err(FsError::NotADirectory)
        } else if m.contains_key(p) {
            Err(FsError::AlreadyExists)
        } else {
            Ok(m.insert(p, e))
        }
    }
}

/// What removing `p` and everything below it makes of the tree, or why
/// not. The empty path names the root, which is left as it is.
pub open spec fn remove_outcome(m: Map<Path, Entry>, p: Path) -> Result<Map<Path, Entry>, FsError> {
    if p.len() == 0 {
        Ok(m)
    } else {
        let parent = p.drop_last();
        if !m.contains_key(parent) {
            Err(path_error(m, parent))
        } else if m[parent] is File {
            Err(FsError::NotADirectory)
        } else if !m.contains_key(p) {
            Err(FsError::NotFound)
        } else {
            Ok(without_subtree(m, p))
        }
    }
}

/// The names directly inside the directory at `p`.
pub open spec fn dir_names(m: Map<Path, Entry>, p: Path) -> Set<Seq<char>> {
    Set::new(|x: Seq<char>| m.contains_key(p.push(x)))
}

/// The view is a tree: the root is a directory, and whatever is named by a
/// path has a directory at the path's parent.
pub open spec fn is_tree(m: Map<Path, Entry>) -> bool {
    &&& m.contains_key(Seq::empty())
    &&& m[Seq::empty()] is Dir
    &&& forall|p: Path| #[trigger] m.contains_key(p) && p.len() > 0 ==> m.contains_key(p.drop_last()) && m[p.drop_last()] is Dir
}

proof fn lemma_write_outcome(m: Map<Path, Entry>, p: Path, d: Vec<u8>)
    ensures
        edit_outcome(m, p, Edit::Write(d)) == write_outcome(m, p, d@),
{
    if m.contains_key(p) {
        assert(p + Seq::<Seq<char>>::empty() =~= p);
        assert(subview(m, p)[Seq::empty()] == m[p]);
        lemma_graft_insert(m, p, Seq::empty(), Entry::File(d@));
    }
}

proof fn lemma_add_outcome(m: Map<Path, Entry>, p: Path, n: Vec<char>, e: Edit, v: Entry)
    requires
        p.len() > 0,
        n@ == p.last(),
        e == Edit::AddFile(n) && v == Entry::File(Seq::empty()) || e == Edit::AddDir(n) && v == Entry::Dir,
    ensures
        edit_outcome(m, p.drop_last(), e) == add_outcome(m, p, v),
{
    let parent = p.drop_last();
    assert(parent + seq![n@] =~= p);
    if m.contains_key(parent) {
        assert(parent + Seq::<Seq<char>>::empty() =~= parent);
        assert(subview(m, parent)[Seq::empty()] == m[parent]);
        assert(subview(m, parent).contains_key(seq![n@]) == m.contains_key(p));
        lemma_graft_insert(m, parent, seq![n@], v);
    }
}

proof fn lemma_remove_outcome(m: Map<Path, Entry>, p: Path, n: Vec<char>)
    requires
        p.len() > 0,
        n@ == p.last(),
    ensures
        edit_outcome(m, p.drop_last(), Edit::Remove(n)) == remove_outcome(m, p),
{
    let parent = p.drop_last();
    assert(parent + seq![n@] =~= p);
    if m.contains_key(parent) {
        assert(parent + Seq::<Seq<char>>::empty() =~= parent);
        assert(subview(m, parent)[Seq::empty()] == m[parent]);
        assert(subview(m, parent).contains_key(seq![n@]) == m.contains_key(p));
        lemma_graft_remove(m, parent, seq![n@]);
    }
}

/// The view of a well-formed directory tree is a tree.
proof fn lemma_node_view_is_tree(n: INode)
    requires
        node_wf(n),
        is_dir(n),
    ensures
        is_tree(node_view(n)),
{
    lemma_view_here(n);
    assert forall|p: Path| #[trigger] node_view(n).contains_key(p) && p.len() > 0 implies
        node_view(n).contains_key(p.drop_last()) && node_view(n)[p.drop_last()] is Dir by {
        let t = p.last();
        assert(p.drop_last() + seq![t] =~= p);
        lemma_parent_is_dir(n, p.drop_last(), t);
    }
}

proof fn lemma_parent_is_dir(n: INode, p: Path, t: Seq<char>)
    requires
        lookup(n, p + seq![t]) is Some,
    ensures
        lookup(n, p) is Some,
        is_dir(lookup(n, p)->Some_0),
    decreases p.len(),
{
    if p.len() == 0 {
        assert(p + seq![t] =~= seq![t]);
    } else {
        assert((p + seq![t])[0] == p[0]);
        assert((p + seq![t]).skip(1) =~= p.skip(1) + seq![t]);
        lemma_parent_is_dir(child_named(n, p[0]), p.skip(1), t);
    }
}

/// An in-memory file system.
pub struct MemFs {
    root: INode,
    current_path: String,
}

impl View for MemFs {
    type V = Map<Path, Entry>;

    /// Every path that names something, with what it names. (The root is
    /// always a well-formed directory; the view reads so for any value.)
    closed spec fn view(&self) -> Map<Path, Entry> {
        if node_wf(self.root) && is_dir(self.root) {
            node_view(self.root)
        } else {
            map![Seq::<Seq<char>>::empty() => Entry::Dir]
        }
    }
}

/// Every file system is a tree whose root is a directory: the empty path
/// names the root, and whatever a path names sits in a directory named by
/// the path's parent.
pub proof fn lemma_always_tree(fs: MemFs)
    ensures
        is_tree(fs@),
        fs@.contains_key(Seq::empty()),
        fs@[Seq::empty()] == Entry::Dir,
{
    if node_wf(fs.root) && is_dir(fs.root) {
        lemma_node_view_is_tree(fs.root);
    } else {
        let m = map![Seq::<Seq<char>>::empty() => Entry::Dir];
        assert forall|p: Path| #[trigger] m.contains_key(p) && p.len() > 0 implies
            m.contains_key(p.drop_last()) && m[p.drop_last()] is Dir by {
            assert(p =~= Seq::<Seq<char>>::empty());
        }
    }
}

/// `""` and `"/"` both name the root, which every file system has: so
/// `exists_at` and `is_dir` answer `true` for them. (Paths with the same
/// components answer alike, since every query goes by `path_parts`.)
pub proof fn law_root_always_exists(fs: MemFs)
    ensures
        path_parts(Seq::empty()) == Seq::<Seq<char>>::empty(),
        path_parts(seq!['/']) == Seq::<Seq<char>>::empty(),
        fs@.contains_key(path_parts(Seq::empty())),
        fs@[path_parts(Seq::empty())] is Dir,
        fs@.contains_key(path_parts(seq!['/'])),
        fs@[path_parts(seq!['/'])] is Dir,
{
    let e = Seq::<char>::empty();
    let none = Seq::<Seq<char>>::empty();
    assert(slash_pieces(e) == seq![e]);
    assert(seq![e] =~= seq![e] + none);
    lemma_path_parts_split(e, seq![e], none);
    let r = seq!['/'];
    assert(r.drop_last() =~= e);
    assert(r.last() == '/');
    assert(slash_pieces(r) =~= seq![e, e] + none);
    lemma_path_parts_split(r, seq![e, e], none);
    lemma_always_tree(fs);
}

/// A directory with no children.
fn empty_dir(name: String) -> (r: INode)
    ensures
        r.name == name,
        node_wf(r),
        is_dir(r),
        children(r).len() == 0,
{
    let r = INode { name, kind: INodeKind::Directory(Vec::new()) };
    assert(names_sorted(children(r)));
    r
}

impl MemFs {
    #[verifier::type_invariant]
    closed spec fn inv(self) -> bool {
        node_wf(self.root) && is_dir(self.root)
    }

    /// A file system holding only the empty root directory.
    pub fn new() -> (r: MemFs)
        ensures
            r@ == map![Seq::<Seq<char>>::empty() => Entry::Dir],
            is_tree(r@),
    {
        let root = empty_dir(crate::text::owned("/"));
        proof {
            lemma_view_here(root);
            assert forall|q: Path| #[trigger] node_view(root).contains_key(q)
                == map![Seq::<Seq<char>>::empty() => Entry::Dir].contains_key(q)
                && (node_view(root).contains_key(q) ==> node_view(root)[q] == Entry::Dir) by {
                if q.len() > 0 {
                    lemma_path_error_missing(root, q);
                } else {
                    assert(q =~= Seq::<Seq<char>>::empty());
                }
            }
            assert(node_view(root) =~= map![Seq::<Seq<char>>::empty() => Entry::Dir]);
        }
        proof { lemma_node_view_is_tree(root); }
        MemFs { root, current_path: crate::text::owned("/") }
    }

    /// Runs an edit against the tree, keeping it well formed.
    fn edit(&mut self, parts: &Vec<Vec<char>>, edit: Edit) -> (r: FsResult<()>)
        ensures
            is_tree(final(self)@),
            match edit_outcome(old(self)@, parts_view(parts@), edit) {
                Ok(m2) => r is Ok && final(self)@ == m2,
                Err(e) => r == Err::<(), FsError>(e) && final(self)@ == old(self)@,
            },
    {
        proof { use_type_invariant(&*self); }
        let mut root = empty_dir(String::new());
        std::mem::swap(&mut root, &mut self.root);
        assert(parts_view(parts@).skip(0) =~= parts_view(parts@));
        let r = edit_node(&mut root, parts, 0, edit);
        self.root = root;
        proof { lemma_node_view_is_tree(self.root); }
        r
    }

    /// The contents of the file at `path`.
    pub fn read(&self, path: &str) -> (r: FsResult<Vec<u8>>)
        ensures
            match r {
                Ok(d) => read_outcome(self@, path_parts(path@)) == Ok::<Seq<u8>, FsError>(d@),
                Err(e) => read_outcome(self@, path_parts(path@)) == Err::<Seq<u8>, FsError>(e),
            },
    {
        proof { use_type_invariant(self); }
        let parts = split_path(path);
        assert(parts_view(parts@).skip(0) =~= parts_view(parts@));
        let node = get_node(&self.root, &parts, 0)?;
        match &node.kind {
            INodeKind::File(contents) => {
                proof { lemma_view_here(*node); }
                Ok(contents.clone())
            },
            INodeKind::Directory(_) => {
                proof { lemma_view_here(*node); }
                Err(FsError::NotAFile)
            },
        }
    }

    /// Replaces the contents of the file at `path`.
    pub fn write(&mut self, path: &str, data: &[u8]) -> (r: FsResult<()>)
        ensures
            is_tree(final(self)@),
            match write_outcome(old(self)@, path_parts(path@), data@) {
                Ok(m2) => r is Ok && final(self)@ == m2,
                Err(e) => r == Err::<(), FsError>(e) && final(self)@ == old(self)@,
            },
    {
        let parts = split_path(path);
        let d = vstd::slice::slice_to_vec(data);
        proof { lemma_write_outcome(self@, parts_view(parts@), d); }
        self.edit(&parts, Edit::Write(d))
    }

    /// Adds an empty file or directory at `path`.
    fn add(&mut self, path: &str, dir: bool) -> (r: FsResult<()>)
        ensures
            is_tree(final(self)@),
            match add_outcome(old(self)@, path_parts(path@), if dir { Entry::Dir } else { Entry::File(Seq::empty()) }) {
                Ok(m2) => r is Ok && final(self)@ == m2,
                Err(e) => r == Err::<(), FsError>(e) && final(self)@ == old(self)@,
            },
    {
        proof { use_type_invariant(&*self); lemma_node_view_is_tree(self.root); }
        let mut parts = split_path(path);
        if parts.len() == 0 {
            return Ok(());
        }
        let ghost all = parts_view(parts@);
        let last = parts.pop().unwrap();
        assert(parts_view(parts@) =~= all.drop_last());
        let edit = if dir { Edit::AddDir(last) } else { Edit::AddFile(last) };
        proof {
            lemma_add_outcome(self@, all, last, edit, if dir { Entry::Dir } else { Entry::File(Seq::empty()) });
        }
        self.edit(&parts, edit)
    }

    /// Creates an empty file at `path`, inside an existing directory.
    pub fn create(&mut self, path: &str) -> (r: FsResult<()>)
        ensures
            is_tree(final(self)@),
            match add_outcome(old(self)@, path_parts(path@), Entry::File(Seq::empty())) {
                Ok(m2) => r is Ok && final(self)@ == m2,
                Err(e) => r == Err::<(), FsError>(e) && final(self)@ == old(self)@,
            },
    {
        self.add(path, false)
    }

    /// Creates an empty directory at `path`, inside an existing directory.
    pub fn mkdir(&mut self, path: &str) -> (r: FsResult<()>)
        ensures
            is_tree(final(self)@),
            match add_outcome(old(self)@, path_parts(path@), Entry::Dir) {
                Ok(m2) => r is Ok && final(self)@ == m2,
                Err(e) => r == Err::<(), FsError>(e) && final(self)@ == old(self)@,
            },
    {
        self.add(path, true)
    }

    /// Removes the file or directory at `path`, with everything below it.
    pub fn remove(&mut self, path: &str) -> (r: FsResult<()>)
        ensures
            is_tree(final(self)@),
            match remove_outcome(old(self)@, path_parts(path@)) {
                Ok(m2) => r is Ok && final(self)@ == m2,
                Err(e) => r == Err::<(), FsError>(e) && final(self)@ == old(self)@,
            },
    {
        proof { use_type_invariant(&*self); lemma_node_view_is_tree(self.root); }
        let mut parts = split_path(path);
        if parts.len() == 0 {
            return Ok(());
        }
        let ghost all = parts_view(parts@);
        let last = parts.pop().unwrap();
        assert(parts_view(parts@) =~= all.drop_last());
        proof {
            lemma_remove_outcome(self@, all, last);
        }
        self.edit(&parts, Edit::Remove(last))
    }

    /// The names inside the directory at `path`, in increasing order.
    pub fn readdir(&self, path: &str) -> (r: FsResult<Vec<String>>)
        ensures
            match r {
                Ok(names) => {
                    let p = path_parts(path@);
                    &&& self@.contains_key(p) && self@[p] is Dir
                    &&& crate::args::strings_view(names@).to_set() == dir_names(self@, p)
                    &&& forall|i: int, j: int| 0 <= i < j < names@.len() ==> chars_lt(#[trigger] names@[i]@, #[trigger] names@[j]@)
                },
                Err(e) => {
                    let p = path_parts(path@);
                    e == if !self@.contains_key(p) { path_error(self@, p) } else { FsError::NotADirectory }
                        && (self@.contains_key(p) ==> self@[p] is File)
                },
            },
    {
        proof { use_type_invariant(self); }
        let parts = split_path(path);
        let ghost p = parts_view(parts@);
        assert(p.skip(0) =~= p);
        let node = get_node(&self.root, &parts, 0)?;
        proof { lemma_view_here(*node); lemma_lookup_concat(self.root, p, Seq::empty()); assert(p + Seq::<Seq<char>>::empty() =~= p); }
        match &node.kind {
            INodeKind::Directory(ch) => {
                proof { lemma_wf_dir(*node); }
                assert(children(*node) == ch@);
                let mut names: Vec<String> = Vec::new();
                let mut i: usize = 0;
                while i < ch.len()
                    invariant
                        i <= ch@.len(),
                        names@.len() == i,
                        forall|k: int| 0 <= k < i ==> #[trigger] names@[k]@ == ch@[k].name@,
                    decreases ch.len() - i,
                {
                    names.push(ch[i].name.clone());
                    i = i + 1;
                }
                proof {
                    let t = *node;
                    assert forall|x: Seq<char>| #[trigger] crate::args::strings_view(names@).to_set().contains(x)
                        == dir_names(self@, p).contains(x) by {
                        lemma_lookup_concat(self.root, p, seq![x]);
                        assert(seq![x] + Seq::<Seq<char>>::empty() =~= seq![x]);
                        if has_child(t, x) {
                            lemma_lookup_child(t, x, Seq::empty());
                        } else {
                            lemma_lookup_missing(t, seq![x]);
                        }
                        assert(p.push(x) =~= p + seq![x]);
                        if crate::args::strings_view(names@).to_set().contains(x) {
                            let k = choose|k: int| 0 <= k < names@.len() && crate::args::strings_view(names@)[k] == x;
                            assert(ch@[k].name@ == x);
                            assert(has_child(t, x));
                        }
                        if dir_names(self@, p).contains(x) {
                            assert(has_child(t, x));
                            let k = choose|k: int| 0 <= k < children(t).len() && (#[trigger] children(t)[k]).name@ == x;
                            assert(crate::args::strings_view(names@)[k] == x);
                        }
                    }
                    assert(crate::args::strings_view(names@).to_set() =~= dir_names(self@, p));
                }
                Ok(names)
            },
            INodeKind::File(_) => Err(FsError::NotADirectory),
        }
    }

    /// Whether `path` names anything.
    pub fn exists_at(&self, path: &str) -> (r: bool)
        ensures
            r == self@.contains_key(path_parts(path@)),
    {
        proof { use_type_invariant(self); }
        let parts = split_path(path);
        assert(parts_view(parts@).skip(0) =~= parts_view(parts@));
        match get_node(&self.root, &parts, 0) {
            Ok(_) => true,
            Err(_) => false,
        }
    }

    /// Whether `path` names a directory.
    pub fn is_dir(&self, path: &str) -> (r: bool)
        ensures
            r == (self@.contains_key(path_parts(path@)) && self@[path_parts(path@)] is Dir),
    {
        proof { use_type_invariant(self); }
        let parts = split_path(path);
        assert(parts_view(parts@).skip(0) =~= parts_view(parts@));
        match get_node(&self.root, &parts, 0) {
            Ok(node) => {
                proof { lemma_view_here(*node); lemma_lookup_concat(self.root, parts_view(parts@), Seq::empty()); assert(parts_view(parts@) + Seq::<Seq<char>>::empty() =~= parts_view(parts@)); }
                match &node.kind {
                    INodeKind::Directory(_) => true,
                    INodeKind::File(_) => false,
                }
            },
            Err(_) => false,
        }
    }
}

/// Reading a file just written gives back the bytes written.
pub proof fn law_read_after_write(m: Map<Path, Entry>, p: Path, d: Seq<u8>)
    requires
        write_outcome(m, p, d) is Ok,
    ensures
        read_outcome(write_outcome(m, p, d)->Ok_0, p) == Ok::<Seq<u8>, FsError>(d),
{
}

/// Writing one file leaves every other path as it was.
pub proof fn law_write_frame(m: Map<Path, Entry>, p: Path, d: Seq<u8>, q: Path)
    requires
        write_outcome(m, p, d) is Ok,
        q != p,
    ensures
        (write_outcome(m, p, d)->Ok_0).contains_key(q) == m.contains_key(q),
        m.contains_key(q) ==> (write_outcome(m, p, d)->Ok_0)[q] == m[q],
{
}

/// A refused write changes nothing (stated in `MemFs::write`), and a write
/// is refused exactly when the path does not name a file.
pub proof fn law_write_refused(m: Map<Path, Entry>, p: Path, d: Seq<u8>)
    ensures
        write_outcome(m, p, d) is Err <==> !(m.contains_key(p) && m[p] is File),
{
}

/// A file just created reads as empty.
pub proof fn law_create_then_read(m: Map<Path, Entry>, p: Path)
    requires
        p.len() > 0,
        add_outcome(m, p, Entry::File(Seq::empty())) is Ok,
    ensures
        read_outcome(add_outcome(m, p, Entry::File(Seq::empty()))->Ok_0, p) == Ok::<Seq<u8>, FsError>(Seq::empty()),
{
}

/// Creating the same path twice: the second attempt is refused as existing.
pub proof fn law_create_twice(m: Map<Path, Entry>, p: Path, e1: Entry, e2: Entry)
    requires
        p.len() > 0,
        add_outcome(m, p, e1) is Ok,
    ensures
        add_outcome(add_outcome(m, p, e1)->Ok_0, p, e2) == Err::<Map<Path, Entry>, FsError>(FsError::AlreadyExists),
{
    let m2 = add_outcome(m, p, e1)->Ok_0;
    assert(m2.contains_key(p.drop_last()));
    assert(m2[p.drop_last()] == m[p.drop_last()]) by {
        assert(p.drop_last() != p);
    }
}

/// A new entry shows up in its directory's listing, and nothing else changes
/// there.
pub proof fn law_listing_after_add(m: Map<Path, Entry>, p: Path, e: Entry)
    requires
        p.len() > 0,
        add_outcome(m, p, e) is Ok,
    ensures
        dir_names(add_outcome(m, p, e)->Ok_0, p.drop_last()) == dir_names(m, p.drop_last()).insert(p.last()),
{
    let m2 = add_outcome(m, p, e)->Ok_0;
    assert(p.drop_last().push(p.last()) =~= p);
    assert forall|x: Seq<char>| #[trigger] dir_names(m2, p.drop_last()).contains(x)
        == dir_names(m, p.drop_last()).insert(p.last()).contains(x) by {
        if x != p.last() {
            assert(p.drop_last().push(x) != p) by {
                if p.drop_last().push(x) == p {
                    assert(p.drop_last().push(x).last() == x);
                }
            }
        }
    }
    assert(dir_names(m2, p.drop_last()) =~= dir_names(m, p.drop_last()).insert(p.last()));
}

/// In a tree, nothing lies below a path that names nothing.
proof fn lemma_tree_below_missing(m: Map<Path, Entry>, p: Path, q: Path)
    requires
        is_tree(m),
        !m.contains_key(p),
        is_prefix(p, q),
    ensures
        !m.contains_key(q),
    decreases q.len() - p.len(),
{
    if q.len() > p.len() {
        assert(q.drop_last().take(p.len() as int) =~= q.take(p.len() as int));
        lemma_tree_below_missing(m, p, q.drop_last());
    } else {
        assert(q.take(p.len() as int) =~= q);
    }
}

/// A directory just made is empty.
pub proof fn law_mkdir_then_listing(m: Map<Path, Entry>, p: Path)
    requires
        is_tree(m),
        p.len() > 0,
        add_outcome(m, p, Entry::Dir) is Ok,
    ensures
        dir_names(add_outcome(m, p, Entry::Dir)->Ok_0, p) == Set::<Seq<char>>::empty(),
{
    let m2 = add_outcome(m, p, Entry::Dir)->Ok_0;
    assert forall|x: Seq<char>| !#[trigger] dir_names(m2, p).contains(x) by {
        assert(p.push(x) != p);
        assert(p.push(x).take(p.len() as int) =~= p);
        lemma_tree_below_missing(m, p, p.push(x));
    }
    assert(dir_names(m2, p) =~= Set::<Seq<char>>::empty());
}

/// Removing what was just created gives back the tree as it was.
pub proof fn law_remove_undoes_add(m: Map<Path, Entry>, p: Path, e: Entry)
    requires
        is_tree(m),
        p.len() > 0,
        add_outcome(m, p, e) is Ok,
    ensures
        remove_outcome(add_outcome(m, p, e)->Ok_0, p) == Ok::<Map<Path, Entry>, FsError>(m),
{
    let m2 = add_outcome(m, p, e)->Ok_0;
    assert(m2.contains_key(p.drop_last()));
    assert(m2[p.drop_last()] == m[p.drop_last()]) by {
        assert(p.drop_last() != p);
    }
    let r = without_subtree(m2, p);
    assert forall|q: Path| #[trigger] r.contains_key(q) == m.contains_key(q) by {
        if is_prefix(p, q) {
            lemma_tree_below_missing(m, p, q);
        } else {
            assert(q != p) by {
                if q == p {
                    assert(q.take(p.len() as int) =~= q);
                }
            }
        }
    }
    assert(r =~= m);
}

/// After a removal, nothing at or below the removed path remains, and
/// everything else is as it was.
pub proof fn law_remove_subtree(m: Map<Path, Entry>, p: Path, q: Path)
    requires
        p.len() > 0,
        remove_outcome(m, p) is Ok,
    ensures
        is_prefix(p, q) ==> !(remove_outcome(m, p)->Ok_0).contains_key(q),
        !is_prefix(p, q) ==> (remove_outcome(m, p)->Ok_0).contains_key(q) == m.contains_key(q),
{
}

impl FileSystem for MemFs {
    fn read(&self, path: &str) -> (r: FsResult<Vec<u8>>)
        ensures
            match r {
                Ok(d) => read_outcome(self@, path_parts(path@)) == Ok::<Seq<u8>, FsError>(d@),
                Err(e) => read_outcome(self@, path_parts(path@)) == Err::<Seq<u8>, FsError>(e),
            },
    {
        MemFs::read(self, path)
    }

    fn write(&mut self, path: &str, data: &[u8]) -> (r: FsResult<()>)
        ensures
            is_tree(final(self)@),
            match write_outcome(old(self)@, path_parts(path@), data@) {
                Ok(m2) => r is Ok && final(self)@ == m2,
                Err(e) => r == Err::<(), FsError>(e) && final(self)@ == old(self)@,
            },
    {
        MemFs::write(self, path, data)
    }

    fn create(&mut self, path: &str) -> (r: FsResult<()>)
        ensures
            is_tree(final(self)@),
            match add_outcome(old(self)@, path_parts(path@), Entry::File(Seq::empty())) {
                Ok(m2) => r is Ok && final(self)@ == m2,
                Err(e) => r == Err::<(), FsError>(e) && final(self)@ == old(self)@,
            },
    {
        MemFs::create(self, path)
    }

    fn mkdir(&mut self, path: &str) -> (r: FsResult<()>)
        ensures
            is_tree(final(self)@),
            match add_outcome(old(self)@, path_parts(path@), Entry::Dir) {
                Ok(m2) => r is Ok && final(self)@ == m2,
                Err(e) => r == Err::<(), FsError>(e) && final(self)@ == old(self)@,
            },
    {
        MemFs::mkdir(self, path)
    }

    fn remove(&mut self, path: &str) -> (r: FsResult<()>)
        ensures
            is_tree(final(self)@),
            match remove_outcome(old(self)@, path_parts(path@)) {
                Ok(m2) => r is Ok && final(self)@ == m2,
                Err(e) => r == Err::<(), FsError>(e) && final(self)@ == old(self)@,
            },
    {
        MemFs::remove(self, path)
    }

    fn readdir(&self, path: &str) -> (r: FsResult<Vec<String>>)
        ensures
            match r {
                Ok(names) => {
                    let p = path_parts(path@);
                    &&& self@.contains_key(p) && self@[p] is Dir
                    &&& crate::args::strings_view(names@).to_set() == dir_names(self@, p)
                    &&& forall|i: int, j: int| 0 <= i < j < names@.len() ==> chars_lt(#[trigger] names@[i]@, #[trigger] names@[j]@)
                },
                Err(e) => {
                    let p = path_parts(path@);
                    e == if !self@.contains_key(p) { path_error(self@, p) } else { FsError::NotADirectory }
                        && (self@.contains_key(p) ==> self@[p] is File)
                },
            },
    {
        MemFs::readdir(self, path)
    }

    fn exists_at(&self, path: &str) -> (r: bool)
        ensures
            r == self@.contains_key(path_parts(path@)),
    {
        MemFs::exists_at(self, path)
    }

    fn is_dir(&self, path: &str) -> (r: bool)
        ensures
            r == (self@.contains_key(path_parts(path@)) && self@[path_parts(path@)] is Dir),
    {
        MemFs::is_dir(self, path)
    }
}

} // verus!

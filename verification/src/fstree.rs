use vstd::prelude::*;
use crate::archive::{ExtractAction, ExtractActionView};
use crate::text::str_eq;

verus! {

/// One node of a modelled directory tree.
pub enum FsNode {
    Dir,
    File { data: Vec<u8> },
}

/// The model of one node.
pub enum FsNodeView {
    Dir,
    File { data: Seq<u8> },
}

impl View for FsNode {
    type V = FsNodeView;

    open spec fn view(&self) -> FsNodeView {
        match self {
            FsNode::Dir => FsNodeView::Dir,
            FsNode::File { data } => (FsNodeView::File { data: data@ }),
        }
    }
}

impl DeepView for FsNode {
    type V = FsNodeView;

    open spec fn deep_view(&self) -> FsNodeView {
        self@
    }
}

/// One entry: a relative path, as components, and the node at it.
pub struct FsEntry {
    pub path: Vec<String>,
    pub node: FsNode,
}

impl View for FsEntry {
    type V = (Seq<Seq<char>>, FsNodeView);

    open spec fn view(&self) -> (Seq<Seq<char>>, FsNodeView) {
        (self.path.deep_view(), self.node@)
    }
}

impl DeepView for FsEntry {
    type V = (Seq<Seq<char>>, FsNodeView);

    open spec fn deep_view(&self) -> (Seq<Seq<char>>, FsNodeView) {
        self@
    }
}

/// An in-memory model of a directory tree: entries in the order they were
/// made, where the newest entry for a path is the one that holds.
pub struct FsTree {
    pub entries: Vec<FsEntry>,
}

/// The entry list of a tree's model.
pub open spec fn tree_seq(t: FsTree) -> Seq<(Seq<Seq<char>>, FsNodeView)> {
    t.entries.deep_view()
}

/// The node at `p`: the newest entry with that path wins.
pub open spec fn lookup_seq(es: Seq<(Seq<Seq<char>>, FsNodeView)>, p: Seq<Seq<char>>) -> Option<
    FsNodeView,
>
    decreases es.len(),
{
    if es.len() == 0 {
        None
    } else if es.last().0 == p {
        Some(es.last().1)
    } else {
        lookup_seq(es.drop_last(), p)
    }
}

/// Entries past `i` that all miss `p` do not change what `p` looks up to.
pub proof fn lemma_lookup_take(es: Seq<(Seq<Seq<char>>, FsNodeView)>, p: Seq<Seq<char>>, i: int)
    requires
        0 <= i <= es.len(),
        forall|k: int| i <= k < es.len() ==> (#[trigger] es[k]).0 != p,
    ensures
        lookup_seq(es, p) == lookup_seq(es.take(i), p),
    decreases es.len(),
{
    if i < es.len() {
        assert(es.last() == es[es.len() - 1]);
        lemma_lookup_take(es.drop_last(), p, i);
        assert(es.drop_last().take(i) =~= es.take(i));
    } else {
        assert(es.take(i) =~= es);
    }
}

impl FsTree {
    /// An empty tree.
    pub fn new() -> (r: FsTree)
        ensures
            tree_seq(r) == Seq::<(Seq<Seq<char>>, FsNodeView)>::empty(),
    {
        let r = FsTree { entries: Vec::new() };
        proof {
            assert(tree_seq(r) =~= Seq::<(Seq<Seq<char>>, FsNodeView)>::empty());
        }
        r
    }

    /// Records a file at `path`, shadowing whatever was there.
    pub fn put_file(&mut self, path: Vec<String>, data: Vec<u8>)
        ensures
            tree_seq(*final(self)) == tree_seq(*old(self)).push(
                (path.deep_view(), FsNodeView::File { data: data@ }),
            ),
    {
        let ghost before = tree_seq(*self);
        let ghost pv = path.deep_view();
        let ghost dv = data@;
        self.entries.push(FsEntry { path, node: FsNode::File { data } });
        proof {
            assert(tree_seq(*self) =~~= before.push((pv, FsNodeView::File { data: dv })));
        }
    }

    /// Records a directory at `path`, shadowing whatever was there.
    pub fn put_dir(&mut self, path: Vec<String>)
        ensures
            tree_seq(*final(self)) == tree_seq(*old(self)).push(
                (path.deep_view(), FsNodeView::Dir),
            ),
    {
        let ghost before = tree_seq(*self);
        let ghost pv = path.deep_view();
        self.entries.push(FsEntry { path, node: FsNode::Dir });
        proof {
            assert(tree_seq(*self) =~~= before.push((pv, FsNodeView::Dir)));
        }
    }
}

/// Equality of two paths given as component lists.
pub fn path_eq(a: &Vec<String>, b: &Vec<String>) -> (r: bool)
    ensures
        r == (a.deep_view() == b.deep_view()),
{
    if a.len() != b.len() {
        proof {
            assert(a.deep_view().len() == a.len());
            assert(b.deep_view().len() == b.len());
        }
        return false;
    }
    let mut i: usize = 0;
    while i < a.len()
        invariant
            a.len() == b.len(),
            i <= a.len(),
            a.deep_view().len() == a.len(),
            b.deep_view().len() == b.len(),
            forall|k: int| 0 <= k < i ==> a.deep_view()[k] == b.deep_view()[k],
        decreases a.len() - i,
    {
        if !str_eq(a[i].as_str(), b[i].as_str()) {
            proof {
                assert(a.deep_view()[i as int] != b.deep_view()[i as int]);
            }
            return false;
        }
        i += 1;
    }
    proof {
        assert(a.deep_view() =~= b.deep_view());
    }
    true
}

/// Copies a path's components.
fn clone_path(p: &Vec<String>) -> (r: Vec<String>)
    ensures
        r.deep_view() == p.deep_view(),
{
    let mut r: Vec<String> = Vec::new();
    let mut i: usize = 0;
    while i < p.len()
        invariant
            i <= p.len(),
            p.deep_view().len() == p.len(),
            r@.len() == i,
            r.deep_view() == p.deep_view().take(i as int),
        decreases p.len() - i,
    {
        r.push(p[i].clone());
        proof {
            assert(r.deep_view() =~~= p.deep_view().take(i + 1));
        }
        i += 1;
    }
    proof {
        assert(p.deep_view().take(p.len() as int) =~= p.deep_view());
    }
    r
}

/// Copies a byte vector.
fn clone_bytes(d: &Vec<u8>) -> (r: Vec<u8>)
    ensures
        r@ == d@,
{
    let mut r: Vec<u8> = Vec::new();
    let mut i: usize = 0;
    while i < d.len()
        invariant
            i <= d.len(),
            r@ == d@.take(i as int),
        decreases d.len() - i,
    {
        r.push(d[i]);
        proof {
            assert(r@ =~= d@.take(i + 1));
        }
        i += 1;
    }
    proof {
        assert(d@.take(d.len() as int) =~= d@);
    }
    r
}

/// Copies a node.
fn clone_node(n: &FsNode) -> (r: FsNode)
    ensures
        r@ == n@,
{
    match n {
        FsNode::Dir => FsNode::Dir,
        FsNode::File { data } => FsNode::File { data: clone_bytes(data) },
    }
}

/// Whether the tree holds anything at `p`.
pub fn tree_contains(t: &FsTree, p: &Vec<String>) -> (r: bool)
    ensures
        r == (lookup_seq(tree_seq(*t), p.deep_view()) is Some),
{
    let mut i: usize = t.entries.len();
    while i > 0
        invariant
            i <= t.entries.len(),
            tree_seq(*t).len() == t.entries.len(),
            forall|k: int| i <= k < tree_seq(*t).len() ==> (#[trigger] tree_seq(*t)[k]).0
                != p.deep_view(),
        decreases i,
    {
        i = i - 1;
        if path_eq(&t.entries[i].path, p) {
            proof {
                lemma_lookup_take(tree_seq(*t), p.deep_view(), i + 1);
                assert(tree_seq(*t).take(i + 1).last() == tree_seq(*t)[i as int]);
            }
            return true;
        }
    }
    proof {
        lemma_lookup_take(tree_seq(*t), p.deep_view(), 0);
        assert(tree_seq(*t).take(0) =~= Seq::<(Seq<Seq<char>>, FsNodeView)>::empty());
    }
    false
}

/// The bytes of the file at `p`, when the newest entry there is a file.
pub fn get_file<'a>(t: &'a FsTree, p: &Vec<String>) -> (r: Option<&'a Vec<u8>>)
    ensures
        (match lookup_seq(tree_seq(*t), p.deep_view()) {
            Some(FsNodeView::File { data }) => r is Some && r->0@ == data,
            _ => r is None,
        }),
{
    let mut i: usize = t.entries.len();
    while i > 0
        invariant
            i <= t.entries.len(),
            tree_seq(*t).len() == t.entries.len(),
            forall|k: int| i <= k < tree_seq(*t).len() ==> (#[trigger] tree_seq(*t)[k]).0
                != p.deep_view(),
        decreases i,
    {
        i = i - 1;
        if path_eq(&t.entries[i].path, p) {
            proof {
                lemma_lookup_take(tree_seq(*t), p.deep_view(), i + 1);
                assert(tree_seq(*t).take(i + 1).last() == tree_seq(*t)[i as int]);
            }
            match &t.entries[i].node {
                FsNode::File { data } => {
                    return Some(data);
                },
                FsNode::Dir => {
                    return None;
                },
            }
        }
    }
    proof {
        lemma_lookup_take(tree_seq(*t), p.deep_view(), 0);
        assert(tree_seq(*t).take(0) =~= Seq::<(Seq<Seq<char>>, FsNodeView)>::empty());
    }
    None
}

/// One merge step: a file overwrites; a directory is made only when the path
/// is not yet present; nothing is ever removed.
pub open spec fn merge_step(
    es: Seq<(Seq<Seq<char>>, FsNodeView)>,
    e: (Seq<Seq<char>>, FsNodeView),
) -> Seq<(Seq<Seq<char>>, FsNodeView)> {
    match e.1 {
        FsNodeView::File { .. } => es.push(e),
        FsNodeView::Dir => if lookup_seq(es, e.0) is Some {
            es
        } else {
            es.push(e)
        },
    }
}

/// Merging a source entry list into a destination, oldest source entry first.
pub open spec fn merge_seq(
    dst: Seq<(Seq<Seq<char>>, FsNodeView)>,
    src: Seq<(Seq<Seq<char>>, FsNodeView)>,
) -> Seq<(Seq<Seq<char>>, FsNodeView)>
    decreases src.len(),
{
    if src.len() == 0 {
        dst
    } else {
        merge_step(merge_seq(dst, src.drop_last()), src.last())
    }
}

/// The Installer's primitive: merges the source tree into the destination.
/// Files are copied over whatever was at their path; directories are made
/// when absent and never replace anything; every other destination entry is
/// left as it was.
pub fn merge_into(dest: &mut FsTree, src: &FsTree)
    ensures
        tree_seq(*final(dest)) == merge_seq(tree_seq(*old(dest)), tree_seq(*src)),
{
    let ghost dst0 = tree_seq(*dest);
    let ghost srcv = tree_seq(*src);
    let mut i: usize = 0;
    proof {
        assert(srcv.take(0) =~= Seq::<(Seq<Seq<char>>, FsNodeView)>::empty());
    }
    while i < src.entries.len()
        invariant
            i <= src.entries.len(),
            srcv == tree_seq(*src),
            srcv.len() == src.entries.len(),
            tree_seq(*dest) == merge_seq(dst0, srcv.take(i as int)),
        decreases src.entries.len() - i,
    {
        proof {
            assert(srcv.take(i + 1).drop_last() =~= srcv.take(i as int));
            assert(srcv.take(i + 1).last() == srcv[i as int]);
        }
        let ghost before = tree_seq(*dest);
        let e = &src.entries[i];
        let is_file = match &e.node {
            FsNode::File { .. } => true,
            FsNode::Dir => false,
        };
        if is_file {
            dest.entries.push(FsEntry { path: clone_path(&e.path), node: clone_node(&e.node) });
            proof {
                assert(tree_seq(*dest) =~~= before.push(srcv[i as int]));
            }
        } else {
            if !tree_contains(dest, &e.path) {
                dest.entries.push(FsEntry { path: clone_path(&e.path), node: FsNode::Dir });
                proof {
                    assert(tree_seq(*dest) =~~= before.push(srcv[i as int]));
                }
            }
        }
        proof {
            assert(tree_seq(*dest) == merge_step(before, srcv[i as int]));
        }
        i += 1;
    }
    proof {
        assert(srcv.take(src.entries.len() as int) =~= srcv);
    }
}

/// Path components of `p` from position `k` on.
fn path_skip(p: &Vec<String>, k: usize) -> (r: Vec<String>)
    requires
        k <= p.len(),
    ensures
        r.deep_view() == p.deep_view().skip(k as int),
{
    let mut r: Vec<String> = Vec::new();
    let mut i: usize = k;
    proof {
        assert(p.deep_view().subrange(k as int, k as int) =~= Seq::<Seq<char>>::empty());
        assert(r.deep_view() =~= p.deep_view().subrange(k as int, k as int));
    }
    while i < p.len()
        invariant
            k <= i <= p.len(),
            p.deep_view().len() == p.len(),
            r@.len() == i - k,
            r.deep_view() == p.deep_view().subrange(k as int, i as int),
        decreases p.len() - i,
    {
        r.push(p[i].clone());
        proof {
            assert(r.deep_view() =~~= p.deep_view().subrange(k as int, i + 1));
        }
        i += 1;
    }
    r
}

/// Joins two paths.
fn path_concat(a: &Vec<String>, b: &Vec<String>) -> (r: Vec<String>)
    ensures
        r.deep_view() == a.deep_view() + b.deep_view(),
{
    let mut r = clone_path(a);
    let mut i: usize = 0;
    proof {
        assert(r.deep_view() =~= a.deep_view() + b.deep_view().take(0));
    }
    while i < b.len()
        invariant
            i <= b.len(),
            a.deep_view().len() == a.len(),
            b.deep_view().len() == b.len(),
            r@.len() == a.len() + i,
            r.deep_view() == a.deep_view() + b.deep_view().take(i as int),
        decreases b.len() - i,
    {
        r.push(b[i].clone());
        proof {
            assert(r@.len() == a.len() + i + 1);
            assert(r@[a.len() + i] == b@[i as int]);
            assert(forall|k: int| 0 <= k < a.len() + i ==> r.deep_view()[k] == (a.deep_view()
                + b.deep_view().take(i as int))[k]);
            assert(r.deep_view() =~~= a.deep_view() + b.deep_view().take(i + 1));
        }
        i += 1;
    }
    proof {
        assert(b.deep_view().take(b.len() as int) =~= b.deep_view());
    }
    r
}

/// Whether `q` is a proper initial part of `p`.
fn path_under(p: &Vec<String>, q: &Vec<String>) -> (r: bool)
    ensures
        r == (q.deep_view().len() < p.deep_view().len() && p.deep_view().take(
            q.deep_view().len() as int,
        ) == q.deep_view()),
{
    if p.len() <= q.len() {
        return false;
    }
    let mut i: usize = 0;
    while i < q.len()
        invariant
            q.len() < p.len(),
            i <= q.len(),
            p.deep_view().len() == p.len(),
            q.deep_view().len() == q.len(),
            forall|k: int| 0 <= k < i ==> p.deep_view()[k] == q.deep_view()[k],
        decreases q.len() - i,
    {
        if !str_eq(p[i].as_str(), q[i].as_str()) {
            proof {
                assert(p.deep_view().take(q.deep_view().len() as int)[i as int] != q.deep_view()[
                    i as int]);
            }
            return false;
        }
        i += 1;
    }
    proof {
        assert(p.deep_view().take(q.deep_view().len() as int) =~= q.deep_view());
    }
    true
}

/// One step of directory creation: the path is made a directory only when
/// nothing is at it yet.
pub open spec fn dir_step(
    es: Seq<(Seq<Seq<char>>, FsNodeView)>,
    q: Seq<Seq<char>>,
) -> Seq<(Seq<Seq<char>>, FsNodeView)> {
    if lookup_seq(es, q) is Some {
        es
    } else {
        es.push((q, FsNodeView::Dir))
    }
}

/// Directories made for the first `k` initial parts of `p`, shortest first.
pub open spec fn ensure_chain(
    es: Seq<(Seq<Seq<char>>, FsNodeView)>,
    p: Seq<Seq<char>>,
    k: int,
) -> Seq<(Seq<Seq<char>>, FsNodeView)>
    decreases k,
{
    if k <= 0 {
        es
    } else {
        dir_step(ensure_chain(es, p, k - 1), p.take(k))
    }
}

/// What one extraction action does to the tree: a directory entry makes the
/// directory and its ancestors; a file entry makes the ancestors, then puts
/// the file, over whatever was at its path.
pub open spec fn apply_one(
    es: Seq<(Seq<Seq<char>>, FsNodeView)>,
    a: ExtractActionView,
) -> Seq<(Seq<Seq<char>>, FsNodeView)> {
    match a {
        ExtractActionView::MakeDir { path } => ensure_chain(es, path, path.len() as int),
        ExtractActionView::WriteFile { path, data } => ensure_chain(
            es,
            path,
            path.len() - 1,
        ).push((path, FsNodeView::File { data })),
    }
}

/// The actions applied in order.
pub open spec fn apply_seq(
    es: Seq<(Seq<Seq<char>>, FsNodeView)>,
    acts: Seq<ExtractActionView>,
) -> Seq<(Seq<Seq<char>>, FsNodeView)>
    decreases acts.len(),
{
    if acts.len() == 0 {
        es
    } else {
        apply_one(apply_seq(es, acts.drop_last()), acts.last())
    }
}

/// Makes directories for the first `k` initial parts of `path`, shortest
/// first, leaving alone every part that is already present.
fn ensure_dirs(dest: &mut FsTree, path: &Vec<String>, k: usize)
    requires
        k <= path@.len(),
    ensures
        tree_seq(*final(dest)) == ensure_chain(tree_seq(*old(dest)), path.deep_view(), k as int),
{
    let ghost dst0 = tree_seq(*dest);
    let mut cur: Vec<String> = Vec::new();
    let mut j: usize = 0;
    while j < k
        invariant
            j <= k <= path@.len(),
            path.deep_view().len() == path@.len(),
            cur@.len() == j,
            cur.deep_view() == path.deep_view().take(j as int),
            tree_seq(*dest) == ensure_chain(dst0, path.deep_view(), j as int),
        decreases k - j,
    {
        cur.push(path[j].clone());
        proof {
            assert(cur.deep_view() =~~= path.deep_view().take(j + 1));
        }
        let ghost before = tree_seq(*dest);
        if !tree_contains(dest, &cur) {
            dest.entries.push(FsEntry { path: clone_path(&cur), node: FsNode::Dir });
            proof {
                assert(tree_seq(*dest) =~~= before.push(
                    (path.deep_view().take(j + 1), FsNodeView::Dir),
                ));
            }
        }
        proof {
            assert(tree_seq(*dest) == dir_step(before, path.deep_view().take(j + 1)));
        }
        j += 1;
    }
}

/// The ArchiveExtractor's write pass: applies a planned extraction to the
/// tree, in order — directories made when absent, ancestors made for every
/// file, file contents put over whatever was at their path.
pub fn apply_actions(dest: &mut FsTree, acts: &Vec<ExtractAction>)
    ensures
        tree_seq(*final(dest)) == apply_seq(tree_seq(*old(dest)), acts.deep_view()),
{
    let ghost dst0 = tree_seq(*dest);
    let ghost av = acts.deep_view();
    let mut i: usize = 0;
    proof {
        assert(av.take(0) =~= Seq::<ExtractActionView>::empty());
    }
    while i < acts.len()
        invariant
            i <= acts.len(),
            av == acts.deep_view(),
            av.len() == acts.len(),
            tree_seq(*dest) == apply_seq(dst0, av.take(i as int)),
        decreases acts.len() - i,
    {
        proof {
            assert(av.take(i + 1).drop_last() =~= av.take(i as int));
            assert(av.take(i + 1).last() == av[i as int]);
        }
        let ghost before = tree_seq(*dest);
        match &acts[i] {
            ExtractAction::MakeDir { path } => {
                proof {
                    assert(av[i as int] == (ExtractActionView::MakeDir {
                        path: path.deep_view(),
                    }));
                }
                ensure_dirs(dest, path, path.len());
            },
            ExtractAction::WriteFile { path, data } => {
                proof {
                    assert(av[i as int] == (ExtractActionView::WriteFile {
                        path: path.deep_view(),
                        data: data@,
                    }));
                }
                if path.len() > 0 {
                    ensure_dirs(dest, path, path.len() - 1);
                } else {
                    proof {
                        assert(ensure_chain(before, path.deep_view(), path.deep_view().len() - 1)
                            == before);
                    }
                }
                let ghost mid = tree_seq(*dest);
                dest.entries.push(
                    FsEntry { path: clone_path(path), node: FsNode::File { data: clone_bytes(data) } },
                );
                proof {
                    assert(tree_seq(*dest) =~~= mid.push(
                        (path.deep_view(), FsNodeView::File { data: data@ }),
                    ));
                }
            },
        }
        proof {
            assert(tree_seq(*dest) == apply_one(before, av[i as int]));
        }
        i += 1;
    }
    proof {
        assert(av.take(acts.len() as int) =~= av);
    }
}

/// The entries under `q`, with `q` stripped off their paths.
pub open spec fn subtree_seq(es: Seq<(Seq<Seq<char>>, FsNodeView)>, q: Seq<Seq<char>>) -> Seq<
    (Seq<Seq<char>>, FsNodeView),
>
    decreases es.len(),
{
    if es.len() == 0 {
        es
    } else {
        let pre = subtree_seq(es.drop_last(), q);
        if q.len() < es.last().0.len() && es.last().0.take(q.len() as int) == q {
            pre.push((es.last().0.skip(q.len() as int), es.last().1))
        } else {
            pre
        }
    }
}

/// The entries with `q` put in front of their paths.
pub open spec fn prefix_seq(es: Seq<(Seq<Seq<char>>, FsNodeView)>, q: Seq<Seq<char>>) -> Seq<
    (Seq<Seq<char>>, FsNodeView),
>
    decreases es.len(),
{
    if es.len() == 0 {
        es
    } else {
        prefix_seq(es.drop_last(), q).push(((q + es.last().0), es.last().1))
    }
}

/// The part of the tree under `prefix`, re-rooted there: entry order kept,
/// the prefix stripped, everything else dropped.
pub fn subtree(t: &FsTree, prefix: &Vec<String>) -> (r: FsTree)
    ensures
        tree_seq(r) == subtree_seq(tree_seq(*t), prefix.deep_view()),
{
    let ghost tv = tree_seq(*t);
    let mut out = FsTree { entries: Vec::new() };
    let mut i: usize = 0;
    proof {
        assert(tv.take(0) =~= Seq::<(Seq<Seq<char>>, FsNodeView)>::empty());
        assert(tree_seq(out) =~= subtree_seq(tv.take(0), prefix.deep_view()));
    }
    while i < t.entries.len()
        invariant
            i <= t.entries.len(),
            tv == tree_seq(*t),
            tv.len() == t.entries.len(),
            tree_seq(out) == subtree_seq(tv.take(i as int), prefix.deep_view()),
        decreases t.entries.len() - i,
    {
        proof {
            assert(tv.take(i + 1).drop_last() =~= tv.take(i as int));
            assert(tv.take(i + 1).last() == tv[i as int]);
        }
        let ghost before = tree_seq(out);
        let e = &t.entries[i];
        if path_under(&e.path, prefix) {
            let stripped = path_skip(&e.path, prefix.len());
            out.entries.push(FsEntry { path: stripped, node: clone_node(&e.node) });
            proof {
                assert(tree_seq(out) =~~= before.push(
                    (e.path.deep_view().skip(prefix.deep_view().len() as int), e.node@),
                ));
            }
        }
        i += 1;
    }
    proof {
        assert(tv.take(t.entries.len() as int) =~= tv);
    }
    out
}

/// The tree re-rooted under `prefix`: every entry's path gets the prefix.
pub fn prefixed(t: &FsTree, prefix: &Vec<String>) -> (r: FsTree)
    ensures
        tree_seq(r) == prefix_seq(tree_seq(*t), prefix.deep_view()),
{
    let ghost tv = tree_seq(*t);
    let mut out = FsTree { entries: Vec::new() };
    let mut i: usize = 0;
    proof {
        assert(tv.take(0) =~= Seq::<(Seq<Seq<char>>, FsNodeView)>::empty());
        assert(tree_seq(out) =~= prefix_seq(tv.take(0), prefix.deep_view()));
    }
    while i < t.entries.len()
        invariant
            i <= t.entries.len(),
            tv == tree_seq(*t),
            tv.len() == t.entries.len(),
            tree_seq(out) == prefix_seq(tv.take(i as int), prefix.deep_view()),
        decreases t.entries.len() - i,
    {
        proof {
            assert(tv.take(i + 1).drop_last() =~= tv.take(i as int));
            assert(tv.take(i + 1).last() == tv[i as int]);
        }
        let ghost before = tree_seq(out);
        let e = &t.entries[i];
        let joined = path_concat(prefix, &e.path);
        out.entries.push(FsEntry { path: joined, node: clone_node(&e.node) });
        proof {
            assert(tree_seq(out) =~~= before.push(
                (prefix.deep_view() + e.path.deep_view(), e.node@),
            ));
        }
        i += 1;
    }
    proof {
        assert(tv.take(t.entries.len() as int) =~= tv);
    }
    out
}

/// The Installer's second pass: merges the package's navigation-data subtree
/// into the fixed `NavData` sub-folder of the installation root.
pub fn install_navdata(dest: &mut FsTree, extracted: &FsTree, navdata_path: &Vec<String>)
    ensures
        tree_seq(*final(dest)) == merge_seq(
            tree_seq(*old(dest)),
            prefix_seq(
                subtree_seq(tree_seq(*extracted), navdata_path.deep_view()),
                seq!["NavData"@],
            ),
        ),
{
    let sub = subtree(extracted, navdata_path);
    let mut navroot: Vec<String> = Vec::new();
    navroot.push("NavData".to_owned());
    proof {
        assert(navroot.deep_view() =~= seq!["NavData"@]);
    }
    let pre = prefixed(&sub, &navroot);
    merge_into(dest, &pre);
}

/// The entries of a tree as write actions, in entry order: a directory to
/// make when absent, a file to put over whatever is at its path.
pub open spec fn actions_of(es: Seq<(Seq<Seq<char>>, FsNodeView)>) -> Seq<ExtractActionView>
    decreases es.len(),
{
    if es.len() == 0 {
        Seq::empty()
    } else {
        actions_of(es.drop_last()).push(
            match es.last().1 {
                FsNodeView::Dir => (ExtractActionView::MakeDir { path: es.last().0 }),
                FsNodeView::File { data } => (ExtractActionView::WriteFile {
                    path: es.last().0,
                    data,
                }),
            },
        )
    }
}

/// Turns a tree into the action list that writes it out: the Installer's
/// passes hand these to whoever owns the real directory, so that what lands
/// on disk is computed here.
pub fn tree_actions(t: &FsTree) -> (r: Vec<ExtractAction>)
    ensures
        r.deep_view() == actions_of(tree_seq(*t)),
{
    let ghost tv = tree_seq(*t);
    let mut out: Vec<ExtractAction> = Vec::new();
    let mut i: usize = 0;
    proof {
        assert(tv.take(0) =~= Seq::<(Seq<Seq<char>>, FsNodeView)>::empty());
        assert(out.deep_view() =~= actions_of(tv.take(0)));
    }
    while i < t.entries.len()
        invariant
            i <= t.entries.len(),
            tv == tree_seq(*t),
            tv.len() == t.entries.len(),
            out@.len() == i,
            out.deep_view() == actions_of(tv.take(i as int)),
        decreases t.entries.len() - i,
    {
        proof {
            assert(tv.take(i + 1).drop_last() =~= tv.take(i as int));
            assert(tv.take(i + 1).last() == tv[i as int]);
        }
        let e = &t.entries[i];
        match &e.node {
            FsNode::Dir => {
                out.push(ExtractAction::MakeDir { path: clone_path(&e.path) });
            },
            FsNode::File { data } => {
                out.push(
                    ExtractAction::WriteFile { path: clone_path(&e.path), data: clone_bytes(data) },
                );
            },
        }
        proof {
            assert(out.deep_view() =~~= actions_of(tv.take(i + 1)));
        }
        i += 1;
    }
    proof {
        assert(tv.take(t.entries.len() as int) =~= tv);
    }
    out
}

/// Making directories never changes a path that already holds something.
proof fn lemma_ensure_chain_keeps(
    es: Seq<(Seq<Seq<char>>, FsNodeView)>,
    q: Seq<Seq<char>>,
    k: int,
    p: Seq<Seq<char>>,
)
    requires
        lookup_seq(es, p) is Some,
    ensures
        lookup_seq(ensure_chain(es, q, k), p) == lookup_seq(es, p),
    decreases k,
{
    if k > 0 {
        lemma_ensure_chain_keeps(es, q, k - 1, p);
        let m = ensure_chain(es, q, k - 1);
        let stepped = dir_step(m, q.take(k));
        if stepped != m {
            assert(stepped == m.push((q.take(k), FsNodeView::Dir)));
            assert(stepped.drop_last() =~= m);
            assert(q.take(k) != p);
        }
    }
}

/// Law: writing a tree out leaves every file at a path the tree does not hold
/// exactly as it was — applying the tree's actions is a merge, not a mirror.
pub proof fn lemma_tree_actions_preserve_files(
    dst: Seq<(Seq<Seq<char>>, FsNodeView)>,
    src: Seq<(Seq<Seq<char>>, FsNodeView)>,
    p: Seq<Seq<char>>,
    d: Seq<u8>,
)
    requires
        lookup_seq(src, p) is None,
        lookup_seq(dst, p) == Some(FsNodeView::File { data: d }),
    ensures
        lookup_seq(apply_seq(dst, actions_of(src)), p) == Some(FsNodeView::File { data: d }),
    decreases src.len(),
{
    if src.len() > 0 {
        lemma_tree_actions_preserve_files(dst, src.drop_last(), p, d);
        let m = apply_seq(dst, actions_of(src.drop_last()));
        let e = src.last();
        assert(actions_of(src).drop_last() =~= actions_of(src.drop_last()));
        match e.1 {
            FsNodeView::Dir => {
                lemma_ensure_chain_keeps(m, e.0, e.0.len() as int, p);
            },
            FsNodeView::File { data } => {
                lemma_ensure_chain_keeps(m, e.0, e.0.len() - 1, p);
                let mid = ensure_chain(m, e.0, e.0.len() - 1);
                assert(mid.push((e.0, FsNodeView::File { data })).drop_last() =~= mid);
                assert(e.0 != p);
            },
        }
    }
}

/// Law: a file the tree holds at `p` ends up at `p`, over whatever was there.
pub proof fn lemma_tree_actions_overwrite(
    dst: Seq<(Seq<Seq<char>>, FsNodeView)>,
    src: Seq<(Seq<Seq<char>>, FsNodeView)>,
    p: Seq<Seq<char>>,
    d: Seq<u8>,
)
    requires
        lookup_seq(src, p) == Some(FsNodeView::File { data: d }),
    ensures
        lookup_seq(apply_seq(dst, actions_of(src)), p) == Some(FsNodeView::File { data: d }),
    decreases src.len(),
{
    let m = apply_seq(dst, actions_of(src.drop_last()));
    let e = src.last();
    assert(actions_of(src).drop_last() =~= actions_of(src.drop_last()));
    if e.0 == p {
        assert(e.1 == FsNodeView::File { data: d });
        let mid = ensure_chain(m, e.0, e.0.len() - 1);
        assert(mid.push((e.0, FsNodeView::File { data: d })).drop_last() =~= mid);
    } else {
        lemma_tree_actions_overwrite(dst, src.drop_last(), p, d);
        match e.1 {
            FsNodeView::Dir => {
                lemma_ensure_chain_keeps(m, e.0, e.0.len() as int, p);
            },
            FsNodeView::File { data } => {
                lemma_ensure_chain_keeps(m, e.0, e.0.len() - 1, p);
                let mid = ensure_chain(m, e.0, e.0.len() - 1);
                assert(mid.push((e.0, FsNodeView::File { data })).drop_last() =~= mid);
            },
        }
    }
}

/// Law: a path the source does not hold looks up after the merge to exactly
/// what it looked up to before — a merge, not a mirror.
pub proof fn lemma_merge_preserves(
    dst: Seq<(Seq<Seq<char>>, FsNodeView)>,
    src: Seq<(Seq<Seq<char>>, FsNodeView)>,
    p: Seq<Seq<char>>,
)
    requires
        lookup_seq(src, p) is None,
    ensures
        lookup_seq(merge_seq(dst, src), p) == lookup_seq(dst, p),
    decreases src.len(),
{
    if src.len() > 0 {
        lemma_merge_preserves(dst, src.drop_last(), p);
        let m = merge_seq(dst, src.drop_last());
        let stepped = merge_step(m, src.last());
        if stepped != m {
            assert(stepped == m.push(src.last()));
            assert(stepped.drop_last() =~= m);
        }
    }
}

/// Law: a file the source holds at `p` overwrites whatever the destination
/// held there.
pub proof fn lemma_merge_overwrites(
    dst: Seq<(Seq<Seq<char>>, FsNodeView)>,
    src: Seq<(Seq<Seq<char>>, FsNodeView)>,
    p: Seq<Seq<char>>,
    d: Seq<u8>,
)
    requires
        lookup_seq(src, p) == Some(FsNodeView::File { data: d }),
    ensures
        lookup_seq(merge_seq(dst, src), p) == Some(FsNodeView::File { data: d }),
    decreases src.len(),
{
    let m = merge_seq(dst, src.drop_last());
    let stepped = merge_step(m, src.last());
    if src.last().0 == p {
        assert(src.last().1 == FsNodeView::File { data: d });
        assert(stepped == m.push(src.last()));
        assert(stepped.drop_last() =~= m);
    } else {
        lemma_merge_overwrites(dst, src.drop_last(), p, d);
        if stepped != m {
            assert(stepped == m.push(src.last()));
            assert(stepped.drop_last() =~= m);
        }
    }
}

} // verus!

use vstd::prelude::*;
use crate::entry::{DiskNode, FileEntry};
use crate::tree::{join_spec, level_ok, shallow_from, tree_kept, distinct_names};

verus! {

/// A plain name: non-empty and free of the separator.
pub open spec fn plain_name(n: Seq<char>) -> bool {
    n.len() > 0 && !n.contains('/')
}

/// Every listing of the snapshot, at every depth, holds plain, distinct
/// names, as a directory on disk does.
pub open spec fn snapshot_ok(ns: Seq<DiskNode>) -> bool
    decreases ns,
{
    &&& distinct_names(ns)
    &&& forall|j: int| #![trigger ns[j]] 0 <= j < ns.len() ==> plain_name(ns[j].name@)
        && (ns[j].contents is Some ==> snapshot_ok(ns[j].contents->Some_0@))
}

/// The shape of a tree that path uniqueness rests on: paths joined from
/// plain, distinct names, at every level.
pub open spec fn tree_wf(es: Seq<FileEntry>, prefix: Seq<char>) -> bool
    decreases es,
{
    &&& forall|i: int, j: int| 0 <= i < j < es.len() ==> (#[trigger] es[i]).name@ != (#[trigger] es[j]).name@
    &&& forall|i: int| #![trigger es[i]] 0 <= i < es.len() ==> plain_name(es[i].name@)
        && es[i].path@ == join_spec(prefix, es[i].name@)
        && (es[i].is_directory && es[i].children is Some ==> tree_wf(es[i].children->Some_0@, es[i].path@))
}

/// Every path of a tree, depth first.
pub open spec fn tree_paths(es: Seq<FileEntry>) -> Seq<Seq<char>>
    decreases es,
{
    if es.len() == 0 {
        Seq::empty()
    } else {
        tree_paths(es.subrange(0, es.len() - 1)) + entry_paths(es[es.len() - 1])
    }
}

pub open spec fn entry_paths(e: FileEntry) -> Seq<Seq<char>>
    decreases e,
{
    seq![e.path@] + if e.is_directory && e.children is Some {
        tree_paths(e.children->Some_0@)
    } else {
        Seq::empty()
    }
}

/// `p` is `q` or lies below it.
pub open spec fn under(p: Seq<char>, q: Seq<char>) -> bool {
    p == q || (p.len() > q.len() && p.take(q.len() as int) == q && p[q.len() as int] == '/')
}

proof fn lemma_tree_wf_from_level(es: Seq<FileEntry>, ns: Seq<DiskNode>, prefix: Seq<char>)
    requires
        level_ok(es, ns, prefix),
        snapshot_ok(ns),
    ensures
        tree_wf(es, prefix),
    decreases es,
{
    assert forall|i: int, j: int| 0 <= i < j < es.len() implies (#[trigger] es[i]).name@ != (#[trigger] es[j]).name@ by {
        crate::tree::lemma_sibling_paths_distinct(es, ns, prefix, i, j);
    }
    assert forall|i: int| #![trigger es[i]] 0 <= i < es.len() implies plain_name(es[i].name@)
        && es[i].path@ == join_spec(prefix, es[i].name@)
        && (es[i].is_directory && es[i].children is Some ==> tree_wf(es[i].children->Some_0@, es[i].path@)) by {
        let a = choose|a: int| #![trigger ns[a]] 0 <= a < ns.len() && tree_kept(ns[a]) && shallow_from(es[i], ns[a], prefix)
            && (es[i].is_directory ==> level_ok(es[i].children->Some_0@, ns[a].contents->Some_0@, es[i].path@));
        if es[i].is_directory {
            lemma_tree_wf_from_level(es[i].children->Some_0@, ns[a].contents->Some_0@, es[i].path@);
        }
    }
}

proof fn lemma_join_under(prefix: Seq<char>, name: Seq<char>)
    requires
        prefix.len() > 0,
    ensures
        under(join_spec(prefix, name), prefix),
        join_spec(prefix, name).len() > prefix.len(),
{
    let p = join_spec(prefix, name);
    assert(p.take(prefix.len() as int) =~= prefix);
    assert(p[prefix.len() as int] == '/');
}

proof fn lemma_under_trans(p: Seq<char>, q: Seq<char>, r: Seq<char>)
    requires
        under(p, q),
        under(q, r),
    ensures
        under(p, r),
{
    if p != q && q != r {
        assert(p.take(r.len() as int) =~= q.take(r.len() as int));
        assert(p[r.len() as int] == q[r.len() as int]);
    }
}

/// Every path of a tree lies below the path of one of its top entries.
proof fn lemma_paths_under(es: Seq<FileEntry>, prefix: Seq<char>, k: int)
    requires
        tree_wf(es, prefix),
        0 <= k < tree_paths(es).len(),
    ensures
        exists|i: int| 0 <= i < es.len() && under(tree_paths(es)[k], #[trigger] es[i].path@),
    decreases es, 0int,
{
    let front = es.subrange(0, es.len() - 1);
    let last = es[es.len() - 1];
    assert(tree_wf(front, prefix)) by {
        assert forall|i: int, j: int| 0 <= i < j < front.len() implies (#[trigger] front[i]).name@ != (#[trigger] front[j]).name@ by {
            assert(front[i] == es[i] && front[j] == es[j]);
        }
        assert forall|i: int| #![trigger front[i]] 0 <= i < front.len() implies plain_name(front[i].name@)
            && front[i].path@ == join_spec(prefix, front[i].name@)
            && (front[i].is_directory && front[i].children is Some ==> tree_wf(front[i].children->Some_0@, front[i].path@)) by {
            assert(front[i] == es[i]);
        }
    }
    let tf = tree_paths(front);
    if k < tf.len() {
        lemma_paths_under(front, prefix, k);
        let i = choose|i: int| 0 <= i < front.len() && under(tf[k], #[trigger] front[i].path@);
        assert(front[i] == es[i]);
    } else {
        lemma_entry_paths_under(last, k - tf.len());
        assert(es[es.len() - 1] == last);
    }
}

/// Every path of an entry lies below the entry's own path.
proof fn lemma_entry_paths_under(e: FileEntry, k: int)
    requires
        e.path@.len() > 0,
        e.is_directory && e.children is Some ==> tree_wf(e.children->Some_0@, e.path@),
        0 <= k < entry_paths(e).len(),
    ensures
        under(entry_paths(e)[k], e.path@),
        k > 0 ==> entry_paths(e)[k].len() > e.path@.len(),
    decreases e, 1int,
{
    if k > 0 {
        let cs = e.children->Some_0@;
        lemma_paths_under(cs, e.path@, k - 1);
        let i = choose|i: int| 0 <= i < cs.len() && under(tree_paths(cs)[k - 1], #[trigger] cs[i].path@);
        lemma_join_under(e.path@, cs[i].name@);
        lemma_under_trans(tree_paths(cs)[k - 1], cs[i].path@, e.path@);
    }
}

/// Paths below two different plain names of one level never meet.
proof fn lemma_siblings_apart(prefix: Seq<char>, a: Seq<char>, b: Seq<char>, p: Seq<char>)
    requires
        plain_name(a),
        plain_name(b),
        a != b,
        under(p, join_spec(prefix, a)),
    ensures
        !under(p, join_spec(prefix, b)),
{
    let pa = join_spec(prefix, a);
    let pb = join_spec(prefix, b);
    let off: int = if prefix.len() == 0 { 0 } else { prefix.len() + 1int };
    assert(pa.len() == off + a.len());
    assert(pb.len() == off + b.len());
    assert forall|t: int| 0 <= t < a.len() implies p[off + t] == a[t] by {
        assert(pa[off + t] == a[t]);
        if p != pa {
            assert(p.take(pa.len() as int)[off + t] == pa[off + t]);
        }
    }
    if under(p, pb) {
        assert forall|t: int| 0 <= t < b.len() implies p[off + t] == b[t] by {
            assert(pb[off + t] == b[t]);
            if p != pb {
                assert(p.take(pb.len() as int)[off + t] == pb[off + t]);
            }
        }
        if a.len() == b.len() {
            assert(a =~= b);
        } else if a.len() < b.len() {
            assert(p.len() > pa.len());
            assert(p[pa.len() as int] == '/');
            assert(b[a.len() as int] == '/');
            assert(b.contains('/'));
        } else {
            assert(p.len() > pb.len());
            assert(p[pb.len() as int] == '/');
            assert(a[b.len() as int] == '/');
            assert(a.contains('/'));
        }
    }
}

proof fn lemma_front_wf(es: Seq<FileEntry>, prefix: Seq<char>)
    requires
        tree_wf(es, prefix),
        es.len() > 0,
    ensures
        tree_wf(es.subrange(0, es.len() - 1), prefix),
{
    let front = es.subrange(0, es.len() - 1);
    assert forall|i: int, j: int| 0 <= i < j < front.len() implies (#[trigger] front[i]).name@ != (#[trigger] front[j]).name@ by {
        assert(front[i] == es[i] && front[j] == es[j]);
    }
    assert forall|i: int| #![trigger front[i]] 0 <= i < front.len() implies plain_name(front[i].name@)
        && front[i].path@ == join_spec(prefix, front[i].name@)
        && (front[i].is_directory && front[i].children is Some ==> tree_wf(front[i].children->Some_0@, front[i].path@)) by {
        assert(front[i] == es[i]);
    }
}

proof fn lemma_tree_paths_unique(es: Seq<FileEntry>, prefix: Seq<char>)
    requires
        tree_wf(es, prefix),
    ensures
        tree_paths(es).no_duplicates(),
    decreases es, 0int,
{
    if es.len() > 0 {
        let front = es.subrange(0, es.len() - 1);
        let last = es[es.len() - 1];
        lemma_front_wf(es, prefix);
        lemma_tree_paths_unique(front, prefix);
        lemma_entry_paths_unique(last);
        let a = tree_paths(front);
        let b = entry_paths(last);
        assert forall|x: int, y: int| 0 <= x < a.len() && 0 <= y < b.len() implies a[x] != b[y] by {
            lemma_paths_under(front, prefix, x);
            let i = choose|i: int| 0 <= i < front.len() && under(a[x], #[trigger] front[i].path@);
            assert(front[i] == es[i]);
            lemma_entry_paths_under(last, y);
            assert(es[i].name@ != es[es.len() - 1].name@);
            if a[x] == b[y] {
                lemma_siblings_apart(prefix, es[i].name@, last.name@, a[x]);
            }
        }
        assert(tree_paths(es) == a + b);
        assert forall|x: int, y: int| 0 <= x < (a + b).len() && 0 <= y < (a + b).len() && x != y
            implies (a + b)[x] != (a + b)[y] by {
            if x < a.len() && y >= a.len() {
                assert((a + b)[y] == b[y - a.len()]);
            } else if y < a.len() && x >= a.len() {
                assert((a + b)[x] == b[x - a.len()]);
            } else if x >= a.len() && y >= a.len() {
                assert((a + b)[x] == b[x - a.len()]);
                assert((a + b)[y] == b[y - a.len()]);
            }
        }
    }
}

proof fn lemma_entry_paths_unique(e: FileEntry)
    requires
        e.path@.len() > 0,
        e.is_directory && e.children is Some ==> tree_wf(e.children->Some_0@, e.path@),
    ensures
        entry_paths(e).no_duplicates(),
    decreases e, 1int,
{
    let ps = entry_paths(e);
    if e.is_directory && e.children is Some {
        let cs = e.children->Some_0@;
        lemma_tree_paths_unique(cs, e.path@);
        assert forall|x: int, y: int| 0 <= x < ps.len() && 0 <= y < ps.len() && x != y
            implies ps[x] != ps[y] by {
            if x == 0 {
                lemma_entry_paths_under(e, y);
            } else if y == 0 {
                lemma_entry_paths_under(e, x);
            } else {
                assert(ps[x] == tree_paths(cs)[x - 1]);
                assert(ps[y] == tree_paths(cs)[y - 1]);
            }
        }
    } else {
        assert(ps =~= seq![e.path@]);
    }
}

/// No two entries of a tree share a path, where the snapshot it was built
/// from holds plain, distinct names in every directory.
pub proof fn lemma_tree_paths_unique_from(es: Seq<FileEntry>, ns: Seq<DiskNode>, prefix: Seq<char>)
    requires
        level_ok(es, ns, prefix),
        snapshot_ok(ns),
    ensures
        tree_paths(es).no_duplicates(),
{
    lemma_tree_wf_from_level(es, ns, prefix);
    lemma_tree_paths_unique(es, prefix);
}

} // verus!

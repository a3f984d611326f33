use vstd::prelude::*;
use vstd::string::StringExecFns;
use crate::entry::{DiskNode, FileEntry, VaultError};
use crate::filter::{admitted_spec, markdown_spec, is_admitted, is_markdown_name};
use crate::order::{sorted_by, keyed, insert_sorted};

verus! {

broadcast use vstd::seq_lib::group_to_multiset_ensures;

/// `name` placed under `prefix` with the canonical `/` separator; directly
/// under the root the path is the name itself.
pub open spec fn join_spec(prefix: Seq<char>, name: Seq<char>) -> Seq<char> {
    if prefix.len() == 0 {
        name
    } else {
        prefix + seq!['/'] + name
    }
}

pub fn join_path(prefix: &String, name: &String) -> (r: String)
    ensures
        r@ == join_spec(prefix@, name@),
{
    if prefix.as_str().is_empty() {
        name.clone()
    } else {
        let sep = "/";
        proof {
            reveal_strlit("/");
        }
        let r = prefix.clone().concat(sep);
        r.concat(name.as_str())
    }
}

/// Items that appear in a tree: admitted, and a directory or a markdown file.
pub open spec fn tree_kept(n: DiskNode) -> bool {
    admitted_spec(n.name@) && (n.is_directory || markdown_spec(n.name@))
}

/// The path of the first directory, in listing order and depth first, that
/// the tree would descend into but that could not be read.
pub open spec fn level_fault(ns: Seq<DiskNode>, prefix: Seq<char>) -> Option<Seq<char>>
    decreases ns,
{
    if ns.len() == 0 {
        None
    } else {
        match level_fault(ns.subrange(0, ns.len() - 1), prefix) {
            Some(p) => Some(p),
            None => node_fault(ns[ns.len() - 1], prefix),
        }
    }
}

pub open spec fn node_fault(n: DiskNode, prefix: Seq<char>) -> Option<Seq<char>>
    decreases n,
{
    if !(n.is_directory && admitted_spec(n.name@)) {
        None
    } else {
        match n.contents {
            None => Some(join_spec(prefix, n.name@)),
            Some(c) => level_fault(c@, join_spec(prefix, n.name@)),
        }
    }
}

pub open spec fn node_key(n: DiskNode) -> (Seq<char>, bool) {
    (n.name@, n.is_directory)
}

pub open spec fn entry_key(e: FileEntry) -> (Seq<char>, bool) {
    (e.name@, e.is_directory)
}

/// Name and kind of each item kept at one level, in listing order.
pub open spec fn kept_keys(ns: Seq<DiskNode>) -> Seq<(Seq<char>, bool)>
    decreases ns.len(),
{
    if ns.len() == 0 {
        Seq::empty()
    } else {
        let rest = kept_keys(ns.drop_last());
        if tree_kept(ns.last()) {
            rest.push(node_key(ns.last()))
        } else {
            rest
        }
    }
}

pub open spec fn entry_keys(es: Seq<FileEntry>) -> Seq<(Seq<char>, bool)> {
    es.map_values(|e: FileEntry| entry_key(e))
}

/// `e` is the entry built from `n` under `prefix`, leaving the children aside.
pub open spec fn shallow_from(e: FileEntry, n: DiskNode, prefix: Seq<char>) -> bool {
    &&& e.name@ == n.name@
    &&& e.is_directory == n.is_directory
    &&& e.path@ == join_spec(prefix, n.name@)
    &&& e.is_directory ==> e.children is Some && n.contents is Some
    &&& !e.is_directory ==> e.children is None
}

/// `es` is the tree built from the listing `ns` placed at `prefix`: sorted,
/// holding exactly the kept items, each built from one of them, directories
/// with their own levels built in the same way.
pub open spec fn level_ok(es: Seq<FileEntry>, ns: Seq<DiskNode>, prefix: Seq<char>) -> bool
    decreases es,
{
    &&& sorted_by(es, false)
    &&& entry_keys(es).to_multiset() == kept_keys(ns).to_multiset()
    &&& forall|i: int| #![trigger es[i]] 0 <= i < es.len() ==> exists|j: int| #![trigger ns[j]]
        0 <= j < ns.len() && tree_kept(ns[j]) && shallow_from(es[i], ns[j], prefix)
        && (es[i].is_directory ==> level_ok(
            es[i].children->Some_0@, ns[j].contents->Some_0@, es[i].path@))
}

/// `e` is the entry built from `n` under `prefix`.
pub open spec fn entry_from(e: FileEntry, n: DiskNode, prefix: Seq<char>) -> bool {
    shallow_from(e, n, prefix)
        && (e.is_directory ==> level_ok(e.children->Some_0@, n.contents->Some_0@, e.path@))
}

pub(crate) proof fn lemma_fault_extends(ns: Seq<DiskNode>, prefix: Seq<char>, k: int)
    requires
        0 <= k <= ns.len(),
        level_fault(ns.take(k), prefix) is Some,
    ensures
        level_fault(ns, prefix) == level_fault(ns.take(k), prefix),
    decreases ns.len() - k,
{
    if k < ns.len() {
        assert(ns.take(k + 1).subrange(0, k) =~= ns.take(k));
        lemma_fault_extends(ns, prefix, k + 1);
    } else {
        assert(ns.take(k) =~= ns);
    }
}

pub proof fn lemma_insert_to_multiset<A>(s: Seq<A>, k: int, x: A)
    requires
        0 <= k <= s.len(),
    ensures
        s.insert(k, x).to_multiset() =~= s.to_multiset().insert(x),
{
    let t = s.insert(k, x);
    assert(t.remove(k) =~= s);
    assert(t[k] == x);
    assert(t.contains(x));
    assert(t.to_multiset().count(x) > 0);
}

/// Builds one level of the tree from its listing, recursing into admitted
/// directories. Fails, with no partial tree, on the first directory that
/// could not be read.
pub fn build_level(nodes: &Vec<DiskNode>, prefix: &String) -> (r: Result<Vec<FileEntry>, VaultError>)
    ensures
        match r {
            Ok(es) => level_fault(nodes@, prefix@) is None && level_ok(es@, nodes@, prefix@),
            Err(err) => err is IoError && level_fault(nodes@, prefix@) == Some(err->IoError_0@),
        },
    decreases nodes@,
{
    let mut out: Vec<FileEntry> = Vec::new();
    let mut keys: Vec<Vec<char>> = Vec::new();
    let mut i: usize = 0;
    let ghost mut src: Seq<int> = Seq::empty();
    assert(nodes@.take(0) =~= Seq::<DiskNode>::empty());
    while i < nodes.len()
        invariant
            i <= nodes.len(),
            level_fault(nodes@.take(i as int), prefix@) is None,
            sorted_by(out@, false),
            keyed(out@, keys@, false),
            entry_keys(out@).to_multiset() == kept_keys(nodes@.take(i as int)).to_multiset(),
            src.len() == out@.len(),
            forall|a: int| 0 <= a < out@.len() ==> 0 <= #[trigger] src[a] < i
                && tree_kept(nodes@[src[a]]) && entry_from(out@[a], nodes@[src[a]], prefix@),
        decreases nodes.len() - i,
    {
        let n = &nodes[i];
        let ghost cur = nodes@.take(i + 1);
        assert(cur.subrange(0, i as int) =~= nodes@.take(i as int));
        assert(cur.drop_last() =~= nodes@.take(i as int));
        assert(cur[i as int] == nodes@[i as int]);
        assert(level_fault(cur, prefix@) == node_fault(nodes@[i as int], prefix@));
        if is_admitted(n.name.as_str()) && (n.is_directory || is_markdown_name(n.name.as_str())) {
            let path = join_path(prefix, &n.name);
            let entry;
            if n.is_directory {
                match &n.contents {
                    None => {
                        assert(node_fault(nodes@[i as int], prefix@) == Some(path@));
                        proof {
                            lemma_fault_extends(nodes@, prefix@, i + 1);
                        }
                        return Err(VaultError::IoError(path));
                    },
                    Some(c) => {
                        assert(decreases_to!(nodes@ => c@)) by {
                            assert(decreases_to!(nodes@ => nodes@[i as int]));
                        }
                        match build_level(c, &path) {
                            Err(err) => {
                                assert(node_fault(nodes@[i as int], prefix@) == Some(err->IoError_0@));
                                proof {
                                    lemma_fault_extends(nodes@, prefix@, i + 1);
                                }
                                return Err(err);
                            },
                            Ok(children) => {
                                assert(node_fault(nodes@[i as int], prefix@) is None);
                                entry = FileEntry {
                                    name: n.name.clone(),
                                    path,
                                    is_directory: true,
                                    children: Some(children),
                                };
                            },
                        }
                    },
                }
            } else {
                entry = FileEntry { name: n.name.clone(), path, is_directory: false, children: None };
            }
            assert(entry_from(entry, nodes@[i as int], prefix@));
            let ghost before = out@;
            insert_sorted(&mut out, &mut keys, entry, false);
            proof {
                let k = choose|k: int| 0 <= k <= before.len() && out@ == before.insert(k, entry);
                assert(entry_keys(out@) =~= entry_keys(before).insert(k, entry_key(entry)));
                lemma_insert_to_multiset(entry_keys(before), k, entry_key(entry));
                let ghost before_src = src;
                src = src.insert(k, i as int);
                assert forall|a: int| 0 <= a < out@.len() implies 0 <= #[trigger] src[a] < i + 1
                    && tree_kept(nodes@[src[a]]) && entry_from(out@[a], nodes@[src[a]], prefix@) by {
                    if a < k {
                        assert(out@[a] == before[a] && src[a] == before_src[a]);
                    } else if a == k {
                    } else {
                        assert(out@[a] == before[a - 1] && src[a] == before_src[a - 1]);
                    }
                }
            }
        } else {
            assert(!tree_kept(nodes@[i as int]));
            assert(kept_keys(cur) == kept_keys(nodes@.take(i as int)));
        }
        i = i + 1;
    }
    assert(nodes@.take(nodes.len() as int) =~= nodes@);
    assert(sorted_by(out@, false));
    assert(entry_keys(out@).to_multiset() == kept_keys(nodes@).to_multiset());
    proof {
        lemma_level_ok_intro(out@, nodes@, prefix@, src);
    }
    Ok(out)
}

proof fn lemma_level_ok_intro(es: Seq<FileEntry>, ns: Seq<DiskNode>, prefix: Seq<char>, src: Seq<int>)
    requires
        sorted_by(es, false),
        entry_keys(es).to_multiset() == kept_keys(ns).to_multiset(),
        src.len() == es.len(),
        forall|a: int| 0 <= a < es.len() ==> 0 <= #[trigger] src[a] < ns.len()
            && tree_kept(ns[src[a]]) && entry_from(es[a], ns[src[a]], prefix),
    ensures
        level_ok(es, ns, prefix),
{
    assert forall|i: int| #![trigger es[i]] 0 <= i < es.len() implies exists|j: int| #![trigger ns[j]]
        0 <= j < ns.len() && tree_kept(ns[j]) && shallow_from(es[i], ns[j], prefix)
        && (es[i].is_directory ==> level_ok(
            es[i].children->Some_0@, ns[j].contents->Some_0@, es[i].path@)) by {
        let j = src[i];
        assert(entry_from(es[i], ns[j], prefix));
    }
}

/// Builds the whole tree of a vault from the snapshot of its root
/// directory. Paths are relative to the root, which is not an entry itself.
pub fn build_tree(root: &DiskNode) -> (r: Result<Vec<FileEntry>, VaultError>)
    ensures
        !root.is_directory ==> r == Err::<Vec<FileEntry>, VaultError>(VaultError::NotADirectory(root.name)),
        root.is_directory && root.contents is None ==> r == Err::<Vec<FileEntry>, VaultError>(
            VaultError::IoError(root.name)),
        root.is_directory && root.contents is Some ==> match r {
            Ok(es) => level_fault(root.contents->Some_0@, Seq::empty()) is None
                && level_ok(es@, root.contents->Some_0@, Seq::empty()),
            Err(err) => err is IoError
                && level_fault(root.contents->Some_0@, Seq::empty()) == Some(err->IoError_0@),
        },
{
    if !root.is_directory {
        return Err(VaultError::NotADirectory(root.name.clone()));
    }
    match &root.contents {
        None => Err(VaultError::IoError(root.name.clone())),
        Some(c) => build_level(c, &String::new()),
    }
}

} // verus!

verus! {

/// Path components joined with the canonical separator.
pub open spec fn joined(parts: Seq<Seq<char>>) -> Seq<char>
    decreases parts.len(),
{
    if parts.len() == 0 {
        Seq::empty()
    } else {
        join_spec(joined(parts.drop_last()), parts.last())
    }
}

/// Joins the components of a relative path with `/`, whatever the host's
/// own separator.
pub fn join_components(parts: &Vec<String>) -> (r: String)
    ensures
        r@ == joined(parts@.map_values(|p: String| p@)),
{
    let mut r = String::new();
    let mut i: usize = 0;
    let ghost ps = parts@.map_values(|p: String| p@);
    assert(ps.take(0) =~= Seq::<Seq<char>>::empty());
    while i < parts.len()
        invariant
            i <= parts.len(),
            ps == parts@.map_values(|p: String| p@),
            r@ == joined(ps.take(i as int)),
        decreases parts.len() - i,
    {
        r = join_path(&r, &parts[i]);
        assert(ps.take(i + 1).drop_last() =~= ps.take(i as int));
        i = i + 1;
    }
    assert(ps.take(parts.len() as int) =~= ps);
    r
}

/// Within a tree, every entry's path is its parent's path joined with its
/// own name, at every level, and every level is sorted with directories
/// first and then by case-insensitive name.
pub proof fn lemma_tree_shape(es: Seq<FileEntry>, ns: Seq<DiskNode>, prefix: Seq<char>, i: int)
    requires
        level_ok(es, ns, prefix),
        0 <= i < es.len(),
    ensures
        es[i].path@ == join_spec(prefix, es[i].name@),
        sorted_by(es, false),
        es[i].is_directory ==> es[i].children is Some && exists|n: DiskNode| level_ok(
            es[i].children->Some_0@, n.contents->Some_0@, es[i].path@),
        !es[i].is_directory ==> es[i].children is None,
{
    let j = choose|j: int| #![trigger ns[j]] 0 <= j < ns.len() && tree_kept(ns[j]) && shallow_from(es[i], ns[j], prefix)
        && (es[i].is_directory ==> level_ok(es[i].children->Some_0@, ns[j].contents->Some_0@, es[i].path@));
    if es[i].is_directory {
        let n = ns[j];
        assert(level_ok(es[i].children->Some_0@, n.contents->Some_0@, es[i].path@));
    }
}

} // verus!

verus! {

/// No two items of one listing share a name, as in any directory.
pub open spec fn distinct_names(ns: Seq<DiskNode>) -> bool {
    forall|i: int, j: int| 0 <= i < j < ns.len() ==> (#[trigger] ns[i]).name@ != (#[trigger] ns[j]).name@
}

proof fn lemma_kept_keys_from(ns: Seq<DiskNode>, k: (Seq<char>, bool))
    requires
        kept_keys(ns).contains(k),
    ensures
        exists|j: int| 0 <= j < ns.len() && #[trigger] node_key(ns[j]) == k,
    decreases ns.len(),
{
    let rest = kept_keys(ns.drop_last());
    if tree_kept(ns.last()) && k == node_key(ns.last()) {
        assert(node_key(ns[ns.len() - 1]) == k);
    } else {
        if tree_kept(ns.last()) {
            let idx = choose|idx: int| 0 <= idx < kept_keys(ns).len() && kept_keys(ns)[idx] == k;
            assert(idx < rest.len());
            assert(rest[idx] == k);
        }
        lemma_kept_keys_from(ns.drop_last(), k);
        let j = choose|j: int| 0 <= j < ns.drop_last().len() && #[trigger] node_key(ns.drop_last()[j]) == k;
        assert(node_key(ns[j]) == k);
    }
}

proof fn lemma_kept_keys_once(ns: Seq<DiskNode>, k: (Seq<char>, bool))
    requires
        distinct_names(ns),
    ensures
        kept_keys(ns).to_multiset().count(k) <= 1,
    decreases ns.len(),
{
    if ns.len() > 0 {
        let front = ns.drop_last();
        assert(distinct_names(front)) by {
            assert forall|i: int, j: int| 0 <= i < j < front.len() implies (#[trigger] front[i]).name@
                != (#[trigger] front[j]).name@ by {
                assert(front[i] == ns[i] && front[j] == ns[j]);
            }
        }
        lemma_kept_keys_once(front, k);
        if tree_kept(ns.last()) && k == node_key(ns.last()) {
            if kept_keys(front).contains(k) {
                lemma_kept_keys_from(front, k);
                let j = choose|j: int| 0 <= j < front.len() && #[trigger] node_key(front[j]) == k;
                assert(ns[j] == front[j]);
                assert(ns[j].name@ == ns[ns.len() - 1].name@);
            }
            assert(kept_keys(front).to_multiset().count(k) == 0);
        }
    }
}

proof fn lemma_two_positions(s: Seq<(Seq<char>, bool)>, i: int, j: int)
    requires
        0 <= i < s.len(),
        0 <= j < s.len(),
        i != j,
        s[i] == s[j],
    ensures
        s.to_multiset().count(s[i]) >= 2,
{
    let t = s.remove(i);
    let jj = if j < i { j } else { j - 1 };
    assert(t[jj] == s[j]);
    assert(t.contains(s[i]));
    assert(t.to_multiset() == s.to_multiset().remove(s[i]));
    assert(t.to_multiset().count(s[i]) > 0);
    assert(s.contains(s[i]));
    assert(s.to_multiset().count(s[i]) > 0);
}

proof fn lemma_join_injective(prefix: Seq<char>, a: Seq<char>, b: Seq<char>)
    requires
        join_spec(prefix, a) == join_spec(prefix, b),
    ensures
        a == b,
{
    if prefix.len() > 0 {
        let n = prefix.len() + 1;
        assert(join_spec(prefix, a).skip(n as int) =~= a);
        assert(join_spec(prefix, b).skip(n as int) =~= b);
    }
}

/// Within one level of a tree built from a listing whose names are
/// distinct, no two entries share a path.
pub proof fn lemma_sibling_paths_distinct(es: Seq<FileEntry>, ns: Seq<DiskNode>, prefix: Seq<char>, i: int, j: int)
    requires
        level_ok(es, ns, prefix),
        distinct_names(ns),
        0 <= i < es.len(),
        0 <= j < es.len(),
        i != j,
    ensures
        es[i].path@ != es[j].path@,
{
    let a = choose|a: int| #![trigger ns[a]] 0 <= a < ns.len() && tree_kept(ns[a]) && shallow_from(es[i], ns[a], prefix)
        && (es[i].is_directory ==> level_ok(es[i].children->Some_0@, ns[a].contents->Some_0@, es[i].path@));
    let b = choose|b: int| #![trigger ns[b]] 0 <= b < ns.len() && tree_kept(ns[b]) && shallow_from(es[j], ns[b], prefix)
        && (es[j].is_directory ==> level_ok(es[j].children->Some_0@, ns[b].contents->Some_0@, es[j].path@));
    if es[i].path@ == es[j].path@ {
        lemma_join_injective(prefix, es[i].name@, es[j].name@);
        if a == b {
            let ks = entry_keys(es);
            assert(ks[i] == ks[j]);
            lemma_two_positions(ks, i, j);
            lemma_kept_keys_once(ns, ks[i]);
        } else if a < b {
            assert(ns[a].name@ != ns[b].name@);
        } else {
            assert(ns[b].name@ != ns[a].name@);
        }
    }
}

} // verus!

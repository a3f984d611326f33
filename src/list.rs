use vstd::prelude::*;
use crate::entry::{DiskNode, FileEntry, VaultError};
use crate::filter::{admitted_spec, markdown_spec, is_admitted, is_markdown_name};
use crate::order::{sorted_by, keyed, insert_sorted};
use crate::tree::{join_spec, join_path, level_fault, node_fault, node_key, entry_key, entry_keys,
    lemma_fault_extends, lemma_insert_to_multiset};

verus! {

broadcast use vstd::seq_lib::group_to_multiset_ensures;

/// Name and kind of each admitted item of one listing, in listing order.
pub open spec fn admitted_keys(ns: Seq<DiskNode>) -> Seq<(Seq<char>, bool)>
    decreases ns.len(),
{
    if ns.len() == 0 {
        Seq::empty()
    } else {
        let rest = admitted_keys(ns.drop_last());
        if admitted_spec(ns.last().name@) {
            rest.push(node_key(ns.last()))
        } else {
            rest
        }
    }
}

/// `e` is listed under `prefix`, without its children loaded.
pub open spec fn listed_under(e: FileEntry, prefix: Seq<char>) -> bool {
    e.path@ == join_spec(prefix, e.name@) && e.children is None
}

/// Lists one directory: every admitted item of any kind, sorted with
/// directories first and then by case-insensitive name. Paths are the
/// directory's own path joined with each name.
pub fn list_shallow(dir: &DiskNode) -> (r: Result<Vec<FileEntry>, VaultError>)
    ensures
        !dir.is_directory ==> r == Err::<Vec<FileEntry>, VaultError>(VaultError::NotADirectory(dir.name)),
        dir.is_directory && dir.contents is None ==> r == Err::<Vec<FileEntry>, VaultError>(
            VaultError::IoError(dir.name)),
        dir.is_directory && dir.contents is Some ==> r is Ok,
        r matches Ok(es) ==> {
            &&& sorted_by(es@, false)
            &&& entry_keys(es@).to_multiset() == admitted_keys(dir.contents->Some_0@).to_multiset()
            &&& forall|i: int| 0 <= i < es@.len() ==> listed_under(#[trigger] es@[i], dir.name@)
        },
{
    if !dir.is_directory {
        return Err(VaultError::NotADirectory(dir.name.clone()));
    }
    let nodes = match &dir.contents {
        None => {
            return Err(VaultError::IoError(dir.name.clone()));
        },
        Some(c) => c,
    };
    let mut out: Vec<FileEntry> = Vec::new();
    let mut keys: Vec<Vec<char>> = Vec::new();
    let mut i: usize = 0;
    assert(nodes@.take(0) =~= Seq::<DiskNode>::empty());
    while i < nodes.len()
        invariant
            i <= nodes.len(),
            sorted_by(out@, false),
            keyed(out@, keys@, false),
            entry_keys(out@).to_multiset() == admitted_keys(nodes@.take(i as int)).to_multiset(),
            forall|a: int| 0 <= a < out@.len() ==> listed_under(#[trigger] out@[a], dir.name@),
        decreases nodes.len() - i,
    {
        let n = &nodes[i];
        let ghost cur = nodes@.take(i + 1);
        assert(cur.drop_last() =~= nodes@.take(i as int));
        if is_admitted(n.name.as_str()) {
            assert(admitted_keys(cur) == admitted_keys(nodes@.take(i as int)).push(node_key(nodes@[i as int])));
            let path = join_path(&dir.name, &n.name);
            let entry = FileEntry { name: n.name.clone(), path, is_directory: n.is_directory, children: None };
            let ghost before = out@;
            insert_sorted(&mut out, &mut keys, entry, false);
            proof {
                let k = choose|k: int| 0 <= k <= before.len() && out@ == before.insert(k, entry);
                assert(entry_keys(out@) =~= entry_keys(before).insert(k, entry_key(entry)));
                lemma_insert_to_multiset(entry_keys(before), k, entry_key(entry));
                assert forall|a: int| 0 <= a < out@.len() implies listed_under(#[trigger] out@[a], dir.name@) by {
                    if a < k {
                        assert(out@[a] == before[a]);
                    } else if a > k {
                        assert(out@[a] == before[a - 1]);
                    }
                }
            }
        }
        i = i + 1;
    }
    assert(nodes@.take(nodes.len() as int) =~= nodes@);
    assert(dir.contents->Some_0@ == nodes@);
    assert(entry_keys(out@).to_multiset() == admitted_keys(nodes@).to_multiset());
    Ok(out)
}

/// The markdown files below one listing, depth first in listing order, as
/// (name, path) pairs.
pub open spec fn level_files(ns: Seq<DiskNode>, prefix: Seq<char>) -> Seq<(Seq<char>, Seq<char>)>
    decreases ns,
{
    if ns.len() == 0 {
        Seq::empty()
    } else {
        level_files(ns.subrange(0, ns.len() - 1), prefix) + node_files(ns[ns.len() - 1], prefix)
    }
}

pub open spec fn node_files(n: DiskNode, prefix: Seq<char>) -> Seq<(Seq<char>, Seq<char>)>
    decreases n,
{
    if !admitted_spec(n.name@) {
        Seq::empty()
    } else if n.is_directory {
        match n.contents {
            Some(c) => level_files(c@, join_spec(prefix, n.name@)),
            None => Seq::empty(),
        }
    } else if markdown_spec(n.name@) {
        seq![(n.name@, join_spec(prefix, n.name@))]
    } else {
        Seq::empty()
    }
}

pub open spec fn file_key(e: FileEntry) -> (Seq<char>, Seq<char>) {
    (e.name@, e.path@)
}

pub open spec fn file_keys(es: Seq<FileEntry>) -> Seq<(Seq<char>, Seq<char>)> {
    es.map_values(|e: FileEntry| file_key(e))
}

pub open spec fn all_files(es: Seq<FileEntry>) -> bool {
    forall|i: int| 0 <= i < es.len() ==> !(#[trigger] es[i]).is_directory && es[i].children is None
}

/// Appends the markdown files below `nodes` to `out`, or fails on the first
/// admitted directory that could not be read.
fn collect_files(nodes: &Vec<DiskNode>, prefix: &String, out: &mut Vec<FileEntry>) -> (r: Result<(), VaultError>)
    requires
        all_files(old(out)@),
    ensures
        all_files(final(out)@),
        match r {
            Ok(_) => level_fault(nodes@, prefix@) is None
                && file_keys(final(out)@) == file_keys(old(out)@) + level_files(nodes@, prefix@),
            Err(err) => err is IoError && level_fault(nodes@, prefix@) == Some(err->IoError_0@),
        },
    decreases nodes@,
{
    let ghost start = out@;
    let mut i: usize = 0;
    assert(nodes@.take(0) =~= Seq::<DiskNode>::empty());
    assert(file_keys(out@) =~= file_keys(start) + level_files(nodes@.take(0), prefix@));
    while i < nodes.len()
        invariant
            i <= nodes.len(),
            all_files(out@),
            level_fault(nodes@.take(i as int), prefix@) is None,
            file_keys(out@) == file_keys(start) + level_files(nodes@.take(i as int), prefix@),
        decreases nodes.len() - i,
    {
        let n = &nodes[i];
        let ghost cur = nodes@.take(i + 1);
        assert(cur.subrange(0, i as int) =~= nodes@.take(i as int));
        assert(cur[i as int] == nodes@[i as int]);
        assert(level_fault(cur, prefix@) == node_fault(nodes@[i as int], prefix@));
        assert(level_files(cur, prefix@) == level_files(nodes@.take(i as int), prefix@) + node_files(nodes@[i as int], prefix@));
        let ghost mid = out@;
        if is_admitted(n.name.as_str()) {
            let path = join_path(prefix, &n.name);
            if n.is_directory {
                match &n.contents {
                    None => {
                        assert(node_fault(nodes@[i as int], prefix@) == Some(path@));
                        proof {
                            lemma_fault_extends(nodes@, prefix@, i + 1);
                        }
                        return Err(VaultError::IoError(path));
                    },
                    Some(c) => {
                        assert(decreases_to!(nodes@ => c@)) by {
                            assert(decreases_to!(nodes@ => nodes@[i as int]));
                        }
                        match collect_files(c, &path, out) {
                            Err(err) => {
                                assert(node_fault(nodes@[i as int], prefix@) == Some(err->IoError_0@));
                                proof {
                                    lemma_fault_extends(nodes@, prefix@, i + 1);
                                }
                                return Err(err);
                            },
                            Ok(_) => {
                                assert(node_fault(nodes@[i as int], prefix@) is None);
                                assert(file_keys(out@) =~= file_keys(start) + level_files(cur, prefix@));
                            },
                        }
                    },
                }
            } else if is_markdown_name(n.name.as_str()) {
                let entry = FileEntry { name: n.name.clone(), path, is_directory: false, children: None };
                out.push(entry);
                assert(file_keys(out@) =~= file_keys(mid).push(file_key(entry)));
                assert(node_files(nodes@[i as int], prefix@) =~= seq![file_key(entry)]);
                assert(file_keys(out@) =~= file_keys(start) + level_files(cur, prefix@));
            } else {
                assert(node_files(nodes@[i as int], prefix@) =~= Seq::empty());
                assert(file_keys(out@) =~= file_keys(start) + level_files(cur, prefix@));
            }
        } else {
            assert(node_files(nodes@[i as int], prefix@) =~= Seq::empty());
            assert(file_keys(out@) =~= file_keys(start) + level_files(cur, prefix@));
        }
        i = i + 1;
    }
    assert(nodes@.take(nodes.len() as int) =~= nodes@);
    Ok(())
}

/// Lists every markdown file below a vault root as one flat sequence, sorted
/// by case-insensitive path; directories themselves never appear.
pub fn list_recursive_markdown(root: &DiskNode) -> (r: Result<Vec<FileEntry>, VaultError>)
    ensures
        !root.is_directory ==> r == Err::<Vec<FileEntry>, VaultError>(VaultError::NotADirectory(root.name)),
        root.is_directory && root.contents is None ==> r == Err::<Vec<FileEntry>, VaultError>(
            VaultError::IoError(root.name)),
        root.is_directory && root.contents is Some ==> match r {
            Ok(es) => level_fault(root.contents->Some_0@, Seq::empty()) is None
                && sorted_by(es@, true)
                && all_files(es@)
                && file_keys(es@).to_multiset() == level_files(root.contents->Some_0@, Seq::empty()).to_multiset(),
            Err(err) => err is IoError
                && level_fault(root.contents->Some_0@, Seq::empty()) == Some(err->IoError_0@),
        },
{
    if !root.is_directory {
        return Err(VaultError::NotADirectory(root.name.clone()));
    }
    let nodes = match &root.contents {
        None => {
            return Err(VaultError::IoError(root.name.clone()));
        },
        Some(c) => c,
    };
    let mut found: Vec<FileEntry> = Vec::new();
    let top = String::new();
    match collect_files(nodes, &top, &mut found) {
        Err(err) => {
            return Err(err);
        },
        Ok(_) => {},
    }
    assert(file_keys(found@) =~= level_files(nodes@, Seq::empty()));
    let mut out: Vec<FileEntry> = Vec::new();
    let mut keys: Vec<Vec<char>> = Vec::new();
    let mut i: usize = 0;
    assert(found@.take(0) =~= Seq::<FileEntry>::empty());
    while i < found.len()
        invariant
            i <= found.len(),
            all_files(found@),
            all_files(out@),
            sorted_by(out@, true),
            keyed(out@, keys@, true),
            file_keys(out@).to_multiset() == file_keys(found@.take(i as int)).to_multiset(),
        decreases found.len() - i,
    {
        let f = &found[i];
        let entry = FileEntry { name: f.name.clone(), path: f.path.clone(), is_directory: false, children: None };
        let ghost before = out@;
        insert_sorted(&mut out, &mut keys, entry, true);
        proof {
            let k = choose|k: int| 0 <= k <= before.len() && out@ == before.insert(k, entry);
            assert(file_keys(out@) =~= file_keys(before).insert(k, file_key(entry)));
            lemma_insert_to_multiset(file_keys(before), k, file_key(entry));
            assert(file_keys(found@.take(i + 1)) =~= file_keys(found@.take(i as int)).push(file_key(entry)));
            assert forall|a: int| 0 <= a < out@.len() implies !(#[trigger] out@[a]).is_directory
                && out@[a].children is None by {
                if a < k {
                    assert(out@[a] == before[a]);
                } else if a > k {
                    assert(out@[a] == before[a - 1]);
                }
            }
        }
        i = i + 1;
    }
    assert(found@.take(found.len() as int) =~= found@);
    Ok(out)
}

} // verus!

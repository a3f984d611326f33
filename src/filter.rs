use vstd::prelude::*;

verus! {

/// The name of the vault's own metadata directory, always admitted.
pub const METADATA_DIR: &'static str = ".vault";

/// The hidden-file marker.
pub open spec fn hidden_spec(name: Seq<char>) -> bool {
    name.len() > 0 && name[0] == '.'
}

pub open spec fn metadata_name() -> Seq<char> {
    seq!['.', 'v', 'a', 'u', 'l', 't']
}

/// Entries shown in trees and listings: not hidden, or the metadata directory.
pub open spec fn admitted_spec(name: Seq<char>) -> bool {
    !hidden_spec(name) || name == metadata_name()
}

pub open spec fn ends_with(s: Seq<char>, suffix: Seq<char>) -> bool {
    suffix.len() <= s.len() && s.subrange(s.len() - suffix.len(), s.len() as int) == suffix
}

/// A name whose extension (what follows the last dot, with a non-empty stem
/// before it) is `md` or `markdown`.
pub open spec fn markdown_spec(name: Seq<char>) -> bool {
    (name.len() > 3 && ends_with(name, seq!['.', 'm', 'd']))
    || (name.len() > 9 && ends_with(name, seq!['.', 'm', 'a', 'r', 'k', 'd', 'o', 'w', 'n']))
}

/// Copies the characters of `s` into a vector.
pub fn chars_of(s: &str) -> (r: Vec<char>)
    ensures
        r@ == s@,
{
    let mut r: Vec<char> = Vec::new();
    for c in it: s.chars()
        invariant
            r@ == it.seq().take(it.index() as int),
            it.seq() == s@,
    {
        r.push(c);
    }
    r
}

/// True when the name starts with the hidden-file marker.
pub fn is_hidden(name: &str) -> (r: bool)
    ensures
        r == hidden_spec(name@),
{
    let cs = chars_of(name);
    cs.len() > 0 && cs[0] == '.'
}

fn chars_end_with(cs: &Vec<char>, suffix: &[char]) -> (r: bool)
    ensures
        r == ends_with(cs@, suffix@),
{
    if suffix.len() > cs.len() {
        return false;
    }
    let off: usize = cs.len() - suffix.len();
    let mut i: usize = 0;
    while i < suffix.len()
        invariant
            off + suffix.len() == cs.len(),
            i <= suffix.len(),
            forall|j: int| 0 <= j < i ==> cs@[off + j] == suffix@[j],
        decreases suffix.len() - i,
    {
        if cs[off + i] != suffix[i] {
            assert(cs@.subrange(off as int, cs.len() as int)[i as int] != suffix@[i as int]);
            return false;
        }
        i = i + 1;
    }
    assert(cs@.subrange(off as int, cs.len() as int) =~= suffix@);
    true
}

/// The admission rule applied at every level of every traversal: hidden
/// names are refused, except the metadata directory.
pub fn is_admitted(name: &str) -> (r: bool)
    ensures
        r == admitted_spec(name@),
        r <==> (!hidden_spec(name@) || name@ == metadata_name()),
{
    let cs = chars_of(name);
    if cs.len() == 0 || cs[0] != '.' {
        return true;
    }
    let meta = ['.', 'v', 'a', 'u', 'l', 't'];
    let same = cs.len() == 6 && chars_end_with(&cs, &meta);
    proof {
        if cs.len() == 6 {
            assert(cs@.subrange(0, 6) =~= cs@);
            assert(meta@ =~= metadata_name());
        }
    }
    same
}

/// True when the name carries the `md` or `markdown` extension.
pub fn is_markdown_name(name: &str) -> (r: bool)
    ensures
        r == markdown_spec(name@),
{
    let cs = chars_of(name);
    let md = ['.', 'm', 'd'];
    let long = ['.', 'm', 'a', 'r', 'k', 'd', 'o', 'w', 'n'];
    proof {
        assert(md@ =~= seq!['.', 'm', 'd']);
        assert(long@ =~= seq!['.', 'm', 'a', 'r', 'k', 'd', 'o', 'w', 'n']);
    }
    (cs.len() > 3 && chars_end_with(&cs, &md)) || (cs.len() > 9 && chars_end_with(&cs, &long))
}

/// The metadata directory is admitted though it starts with the hidden
/// marker; every other name that starts with the marker is refused.
pub proof fn lemma_only_metadata_escapes(name: Seq<char>)
    ensures
        admitted_spec(metadata_name()),
        hidden_spec(metadata_name()),
        hidden_spec(name) && name != metadata_name() ==> !admitted_spec(name),
{
}

} // verus!

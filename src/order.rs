use vstd::prelude::*;
use crate::entry::FileEntry;

verus! {

/// The result of `str::to_lowercase`, a function of the characters alone.
pub uninterp spec fn lower_of(s: Seq<char>) -> Seq<char>;

/// Relies on str::to_lowercase: the Unicode lower-case form of `s`, which
/// depends on the characters alone.
#[verifier::external_body]
fn lowercase(s: &str) -> (r: String)
    ensures
        r@ == lower_of(s@),
{
    s.to_lowercase()
}

/// Lexicographic order on characters, by code point.
pub open spec fn lex_le(a: Seq<char>, b: Seq<char>) -> bool
    decreases a.len(),
{
    if a.len() == 0 {
        true
    } else if b.len() == 0 {
        false
    } else if a[0] != b[0] {
        a[0] < b[0]
    } else {
        lex_le(a.drop_first(), b.drop_first())
    }
}

pub proof fn lemma_lex_total(a: Seq<char>, b: Seq<char>)
    ensures
        lex_le(a, b) || lex_le(b, a),
    decreases a.len(),
{
    if a.len() > 0 && b.len() > 0 && a[0] == b[0] {
        lemma_lex_total(a.drop_first(), b.drop_first());
    }
}

pub proof fn lemma_lex_trans(a: Seq<char>, b: Seq<char>, c: Seq<char>)
    requires
        lex_le(a, b),
        lex_le(b, c),
    ensures
        lex_le(a, c),
    decreases a.len(),
{
    if a.len() > 0 && b.len() > 0 && c.len() > 0 && a[0] == b[0] && b[0] == c[0] {
        lemma_lex_trans(a.drop_first(), b.drop_first(), c.drop_first());
    }
}

/// Decides `lex_le` on two character vectors.
fn chars_le(a: &Vec<char>, b: &Vec<char>) -> (r: bool)
    ensures
        r == lex_le(a@, b@),
{
    let mut i: usize = 0;
    assert(a@.skip(0) =~= a@);
    assert(b@.skip(0) =~= b@);
    while i < a.len() && i < b.len()
        invariant
            i <= a.len(),
            i <= b.len(),
            lex_le(a@, b@) == lex_le(a@.skip(i as int), b@.skip(i as int)),
        decreases a.len() - i,
    {
        if a[i] != b[i] {
            return a[i] < b[i];
        }
        assert(a@.skip(i as int).drop_first() =~= a@.skip(i + 1));
        assert(b@.skip(i as int).drop_first() =~= b@.skip(i + 1));
        i = i + 1;
    }
    i == a.len()
}

/// The text an entry is ordered by: its name within one level, its whole
/// path in a flat listing.
pub open spec fn sort_text(e: FileEntry, by_path: bool) -> Seq<char> {
    if by_path { e.path@ } else { e.name@ }
}

/// Directories before files; within one kind, case-insensitive order.
pub open spec fn entry_le(a: FileEntry, b: FileEntry, by_path: bool) -> bool {
    (a.is_directory && !b.is_directory)
    || (a.is_directory == b.is_directory
        && lex_le(lower_of(sort_text(a, by_path)), lower_of(sort_text(b, by_path))))
}

pub open spec fn sorted_by(es: Seq<FileEntry>, by_path: bool) -> bool {
    forall|i: int, j: int| 0 <= i < j < es.len() ==> entry_le(#[trigger] es[i], #[trigger] es[j], by_path)
}

pub proof fn lemma_entry_le_trans(a: FileEntry, b: FileEntry, c: FileEntry, by_path: bool)
    requires
        entry_le(a, b, by_path),
        entry_le(b, c, by_path),
    ensures
        entry_le(a, c, by_path),
{
    if a.is_directory == b.is_directory && b.is_directory == c.is_directory {
        lemma_lex_trans(
            lower_of(sort_text(a, by_path)),
            lower_of(sort_text(b, by_path)),
            lower_of(sort_text(c, by_path)),
        );
    }
}

/// A sorted sequence of entries together with the lower-cased texts they
/// are ordered by.
pub open spec fn keyed(es: Seq<FileEntry>, keys: Seq<Vec<char>>, by_path: bool) -> bool {
    &&& keys.len() == es.len()
    &&& forall|i: int| 0 <= i < es.len() ==> (#[trigger] keys[i])@ == lower_of(sort_text(es[i], by_path))
}

/// Inserts `e` into the sorted `out`, after every entry that does not
/// order strictly after it.
pub fn insert_sorted(out: &mut Vec<FileEntry>, keys: &mut Vec<Vec<char>>, e: FileEntry, by_path: bool)
    requires
        sorted_by(old(out)@, by_path),
        keyed(old(out)@, old(keys)@, by_path),
    ensures
        sorted_by(final(out)@, by_path),
        keyed(final(out)@, final(keys)@, by_path),
        exists|k: int| 0 <= k <= old(out)@.len() && final(out)@ == old(out)@.insert(k, e),
{
    let text = if by_path { lowercase(e.path.as_str()) } else { lowercase(e.name.as_str()) };
    let key = crate::filter::chars_of(text.as_str());
    let mut k: usize = 0;
    let mut stop = false;
    while k < out.len() && !stop
        invariant
            stop ==> k < out.len() && entry_le(e, out@[k as int], by_path),
            out@ == old(out)@,
            keys@ == old(keys)@,
            keyed(out@, keys@, by_path),
            key@ == lower_of(sort_text(e, by_path)),
            k <= out.len(),
            forall|j: int| 0 <= j < k ==> entry_le(#[trigger] out@[j], e, by_path),
        decreases out.len() - k + (if stop { 0int } else { 1int }),
    {
        let d = out[k].is_directory;
        let later = if e.is_directory != d {
            e.is_directory
        } else {
            !chars_le(&keys[k], &key)
        };
        proof {
            lemma_lex_total(keys@[k as int]@, key@);
        }
        if later {
            stop = true;
        } else {
            k = k + 1;
        }
    }
    let ghost before = out@;
    out.insert(k, e);
    keys.insert(k, key);
    proof {
        assert forall|i: int, j: int| 0 <= i < j < out@.len() implies entry_le(
            #[trigger] out@[i], #[trigger] out@[j], by_path) by {
            if i < k && j == k {
            } else if i == k && j > k {
                if j - 1 > k {
                    lemma_entry_le_trans(e, before[k as int], before[j - 1], by_path);
                }
            } else if i < k && j > k {
            } else if i > k {
                assert(out@[i] == before[i - 1]);
            }
        }
        assert(keyed(out@, keys@, by_path));
    }
}

} // verus!

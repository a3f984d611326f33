use vstd::prelude::*;
use crate::entry::{FileContent, GrepMatch, MatchView, VaultError};
use crate::filter::{hidden_spec, markdown_spec, is_hidden, is_markdown_name};
use crate::pattern::{CompiledPattern, compile_pattern, effective_pattern, find_first, regex_accepts,
    regex_first};

verus! {

/// `s` cut at every `\n`: one more piece than there are newlines.
pub open spec fn pieces(s: Seq<char>) -> Seq<Seq<char>>
    decreases s.len(),
{
    if s.len() == 0 {
        seq![Seq::empty()]
    } else {
        let rest = pieces(s.drop_first());
        if s[0] == '\n' {
            seq![Seq::empty()] + rest
        } else {
            rest.update(0, seq![s[0]] + rest[0])
        }
    }
}

/// A line that was ended by `\n` loses a `\r` just before it.
pub open spec fn strip_cr(l: Seq<char>) -> Seq<char> {
    if l.len() > 0 && l.last() == '\r' { l.drop_last() } else { l }
}

/// The lines of a text as `str::lines` yields them: split at `\n` or
/// `\r\n`; a final line ending adds no empty line; an empty text has none.
pub open spec fn lines_of(s: Seq<char>) -> Seq<Seq<char>> {
    if s.len() == 0 {
        Seq::empty()
    } else {
        let ended = s.last() == '\n';
        let ps = pieces(if ended { s.drop_last() } else { s });
        Seq::new(ps.len(), |i: int| if i < ps.len() - 1 || ended { strip_cr(ps[i]) } else { ps[i] })
    }
}

/// Relies on str::lines: the lines of `text`, as described by `lines_of`.
#[verifier::external_body]
fn split_lines(text: &str) -> (r: Vec<String>)
    ensures
        r@.len() == lines_of(text@).len(),
        forall|i: int| 0 <= i < r@.len() ==> (#[trigger] r@[i])@ == lines_of(text@)[i],
{
    text.lines().map(|l| l.to_string()).collect()
}

/// The record for line `i` of a file, if the pattern matches there with a
/// non-empty match.
pub open spec fn line_hit(pattern: Seq<char>, path: Seq<char>, lines: Seq<Seq<char>>, i: int) -> Seq<MatchView> {
    let m = regex_first(pattern, lines[i]);
    if m is Some && m->Some_0.0 < m->Some_0.1 {
        seq![MatchView {
            filepath: path,
            line_number: i + 1,
            line_content: lines[i],
            match_start: m->Some_0.0 as int,
            match_end: m->Some_0.1 as int,
        }]
    } else {
        Seq::empty()
    }
}

/// The records of the first `n` lines, in line order.
pub open spec fn hits_upto(pattern: Seq<char>, path: Seq<char>, lines: Seq<Seq<char>>, n: int) -> Seq<MatchView>
    decreases n,
{
    if n <= 0 {
        Seq::empty()
    } else {
        hits_upto(pattern, path, lines, n - 1) + line_hit(pattern, path, lines, n - 1)
    }
}

/// Every record of one file.
pub open spec fn file_hits(pattern: Seq<char>, path: Seq<char>, text: Seq<char>) -> Seq<MatchView> {
    hits_upto(pattern, path, lines_of(text), lines_of(text).len() as int)
}

/// Every record of a sequence of files, in file order.
pub open spec fn all_hits(pattern: Seq<char>, files: Seq<FileContent>) -> Seq<MatchView>
    decreases files.len(),
{
    if files.len() == 0 {
        Seq::empty()
    } else {
        all_hits(pattern, files.drop_last()) + file_hits(pattern, files.last().path@, files.last().content@)
    }
}

/// The first `max` records of `s`.
pub open spec fn capped(s: Seq<MatchView>, max: int) -> Seq<MatchView> {
    if s.len() <= max { s } else { s.take(max) }
}

pub open spec fn views(ms: Seq<GrepMatch>) -> Seq<MatchView> {
    ms.map_values(|m: GrepMatch| m@)
}

proof fn lemma_hits_prefix(pattern: Seq<char>, path: Seq<char>, lines: Seq<Seq<char>>, i: int, n: int)
    requires
        0 <= i <= n,
    ensures
        hits_upto(pattern, path, lines, i).len() <= hits_upto(pattern, path, lines, n).len(),
        hits_upto(pattern, path, lines, n).take(hits_upto(pattern, path, lines, i).len() as int)
            == hits_upto(pattern, path, lines, i),
    decreases n - i,
{
    if i < n {
        lemma_hits_prefix(pattern, path, lines, i, n - 1);
        let a = hits_upto(pattern, path, lines, i);
        let b = hits_upto(pattern, path, lines, n - 1);
        let c = hits_upto(pattern, path, lines, n);
        assert(c =~= b + line_hit(pattern, path, lines, n - 1));
        assert(c.take(a.len() as int) =~= b.take(a.len() as int));
    } else {
        let a = hits_upto(pattern, path, lines, i);
        assert(a.take(a.len() as int) =~= a);
    }
}

proof fn lemma_capped_extend(prev: Seq<MatchView>, more: Seq<MatchView>, max: int)
    requires
        prev.len() >= max >= 0,
    ensures
        capped(prev + more, max) == capped(prev, max),
{
    assert((prev + more).take(max) =~= prev.take(max));
    if prev.len() == max {
        assert(prev.take(max) =~= prev);
    }
}

/// Appends the records of one file to `out`, stopping as soon as `out`
/// holds `max` records.
pub fn scan_text(pattern: &CompiledPattern, filepath: &String, content: &String, max: usize, out: &mut Vec<GrepMatch>)
    requires
        old(out)@.len() <= max,
        forall|k: int| 0 <= k < old(out)@.len() ==> (#[trigger] old(out)@[k])@.wf(),
    ensures
        views(final(out)@) == capped(views(old(out)@) + file_hits(pattern.text(), filepath@, content@), max as int),
        final(out)@.len() <= max,
        forall|k: int| 0 <= k < final(out)@.len() ==> (#[trigger] final(out)@[k])@.wf(),
{
    let lines = split_lines(content.as_str());
    let ghost ls = lines_of(content@);
    let ghost start = views(out@);
    let ghost pat = pattern.text();
    let mut i: usize = 0;
    assert(views(out@) =~= start + hits_upto(pat, filepath@, ls, 0));
    while i < lines.len() && out.len() < max
        invariant
            i <= lines.len(),
            pat == pattern.text(),
            lines@.len() == ls.len(),
            forall|j: int| 0 <= j < lines@.len() ==> (#[trigger] lines@[j])@ == ls[j],
            out@.len() <= max,
            views(out@) == start + hits_upto(pat, filepath@, ls, i as int),
            forall|k: int| 0 <= k < out@.len() ==> (#[trigger] out@[k])@.wf(),
        decreases lines.len() - i,
    {
        let line = &lines[i];
        let ghost before = out@;
        assert(line@ == ls[i as int]);
        let line_str = line.as_str();
        let found = find_first(pattern, line_str);
        assert(line_str@ == ls[i as int]);
        assert(found == regex_first(pat, ls[i as int]));
        match found {
            Some((s, e)) => {
                if s < e {
                    let m = GrepMatch {
                        filepath: filepath.clone(),
                        line_number: i + 1,
                        line_content: line.clone(),
                        match_start: s,
                        match_end: e,
                    };
                    out.push(m);
                    assert(views(out@) =~= views(before).push(m@));
                    assert(line_hit(pat, filepath@, ls, i as int) =~= seq![m@]);
                } else {
                    assert(line_hit(pat, filepath@, ls, i as int) =~= Seq::empty());
                }
            },
            None => {
                assert(line_hit(pat, filepath@, ls, i as int) =~= Seq::empty());
            },
        }
        assert(views(out@) =~= start + hits_upto(pat, filepath@, ls, i + 1));
        i = i + 1;
    }
    proof {
        let all = hits_upto(pat, filepath@, ls, ls.len() as int);
        lemma_hits_prefix(pat, filepath@, ls, i as int, ls.len() as int);
        if i < lines.len() {
            let part = hits_upto(pat, filepath@, ls, i as int);
            assert(all =~= part + all.skip(part.len() as int));
            assert(start + all =~= (start + part) + all.skip(part.len() as int));
            lemma_capped_extend(start + part, all.skip(part.len() as int), max as int);
        }
    }
}

/// A search in progress over the files of a vault, fed one file at a time.
pub struct SearchSession {
    pub pattern: CompiledPattern,
    pub max_results: usize,
    pub matches: Vec<GrepMatch>,
}

impl SearchSession {
    pub open spec fn wf(&self) -> bool {
        &&& self.matches@.len() <= self.max_results
        &&& forall|k: int| 0 <= k < self.matches@.len() ==> (#[trigger] self.matches@[k])@.wf()
    }

    /// Starts a search for `pattern`, read as a regular expression or else
    /// as literal text, that keeps at most `max_results` records.
    pub fn new(pattern: &str, max_results: usize) -> (r: Result<SearchSession, VaultError>)
        ensures
            r is Ok <==> regex_accepts(effective_pattern(pattern@)),
            r matches Ok(s) ==> s.wf() && s.pattern.text() == effective_pattern(pattern@)
                && s.max_results == max_results && s.matches@.len() == 0,
            r matches Err(e) ==> e is InvalidPattern && e->InvalidPattern_0@ == pattern@,
    {
        match compile_pattern(pattern) {
            Ok(c) => Ok(SearchSession { pattern: c, max_results, matches: Vec::new() }),
            Err(e) => Err(e),
        }
    }

    /// Whether another file can still contribute a record.
    pub fn wants_more(&self) -> (r: bool)
        ensures
            r == (self.matches@.len() < self.max_results),
    {
        self.matches.len() < self.max_results
    }

    /// Scans the text of one file at `filepath`.
    pub fn add_file(&mut self, filepath: &String, content: &String)
        requires
            old(self).wf(),
        ensures
            final(self).wf(),
            final(self).pattern == old(self).pattern,
            final(self).max_results == old(self).max_results,
            views(final(self).matches@) == capped(
                views(old(self).matches@) + file_hits(old(self).pattern.text(), filepath@, content@),
                old(self).max_results as int,
            ),
    {
        scan_text(&self.pattern, filepath, content, self.max_results, &mut self.matches);
    }

    pub fn into_matches(self) -> (r: Vec<GrepMatch>)
        ensures
            r == self.matches,
    {
        self.matches
    }
}

/// The result cap of a search when the caller names none.
pub const DEFAULT_MAX_RESULTS: usize = 100;

/// The cap a search runs with: the one asked for, else the default.
pub fn result_cap(requested: Option<usize>) -> (r: usize)
    ensures
        r == match requested {
            Some(m) => m,
            None => DEFAULT_MAX_RESULTS,
        },
{
    match requested {
        Some(m) => m,
        None => DEFAULT_MAX_RESULTS,
    }
}

/// True for the files a search reads: markdown files that are not hidden.
pub fn is_searchable_file(name: &str) -> (r: bool)
    ensures
        r == (!hidden_spec(name@) && markdown_spec(name@)),
{
    !is_hidden(name) && is_markdown_name(name)
}

/// Searches the given notes in order and returns at most `max_results`
/// records, the first ones in file order and then line order.
pub fn search_notes(pattern: &str, files: &Vec<FileContent>, max_results: usize) -> (r: Result<Vec<GrepMatch>, VaultError>)
    ensures
        r is Ok <==> regex_accepts(effective_pattern(pattern@)),
        r matches Ok(ms) ==> views(ms@) == capped(all_hits(effective_pattern(pattern@), files@), max_results as int)
            && ms@.len() <= max_results,
        r matches Err(e) ==> e is InvalidPattern && e->InvalidPattern_0@ == pattern@,
{
    let mut session = match SearchSession::new(pattern, max_results) {
        Ok(s) => s,
        Err(e) => {
            return Err(e);
        },
    };
    let ghost pat = effective_pattern(pattern@);
    let mut i: usize = 0;
    assert(files@.take(0) =~= Seq::<FileContent>::empty());
    assert(views(session.matches@) =~= Seq::empty());
    while i < files.len() && session.wants_more()
        invariant
            i <= files.len(),
            session.wf(),
            session.pattern.text() == pat,
            session.max_results == max_results,
            views(session.matches@) == capped(all_hits(pat, files@.take(i as int)), max_results as int),
        decreases files.len() - i,
    {
        let f = &files[i];
        let ghost before = views(session.matches@);
        session.add_file(&f.path, &f.content);
        proof {
            let prev = all_hits(pat, files@.take(i as int));
            assert(files@.take(i + 1).drop_last() =~= files@.take(i as int));
            let fh = file_hits(pat, files@[i as int].path@, files@[i as int].content@);
            assert(all_hits(pat, files@.take(i + 1)) == prev + fh);
            assert(before =~= prev);
            assert(views(session.matches@) == capped(prev + fh, max_results as int));
        }
        i = i + 1;
    }
    proof {
        if i < files.len() {
            let part = all_hits(pat, files@.take(i as int));
            lemma_all_hits_prefix(pat, files@, i as int);
            let rest = all_hits(pat, files@).skip(part.len() as int);
            assert(all_hits(pat, files@) =~= part + rest);
            lemma_capped_extend(part, rest, max_results as int);
        } else {
            assert(files@.take(i as int) =~= files@);
        }
    }
    Ok(session.into_matches())
}

proof fn lemma_all_hits_prefix(pattern: Seq<char>, files: Seq<FileContent>, i: int)
    requires
        0 <= i <= files.len(),
    ensures
        all_hits(pattern, files.take(i)).len() <= all_hits(pattern, files).len(),
        all_hits(pattern, files).take(all_hits(pattern, files.take(i)).len() as int)
            == all_hits(pattern, files.take(i)),
    decreases files.len() - i,
{
    let a = all_hits(pattern, files.take(i));
    if i < files.len() {
        lemma_all_hits_prefix(pattern, files, i + 1);
        assert(files.take(i + 1).drop_last() =~= files.take(i));
        let b = all_hits(pattern, files.take(i + 1));
        let c = all_hits(pattern, files);
        assert(b.take(a.len() as int) =~= a);
        assert(c.take(a.len() as int) =~= b.take(b.len() as int).take(a.len() as int));
    } else {
        assert(files.take(i) =~= files);
        assert(a.take(a.len() as int) =~= a);
    }
}

/// A search is a function of the notes, the pattern and the cap: two
/// searches over the same notes give the same records in the same order,
/// and never more than the cap.
pub proof fn lemma_search_repeatable(
    pattern: Seq<char>,
    files: Seq<FileContent>,
    max_results: int,
    first: Seq<MatchView>,
    second: Seq<MatchView>,
)
    requires
        max_results >= 0,
        first == capped(all_hits(effective_pattern(pattern), files), max_results),
        second == capped(all_hits(effective_pattern(pattern), files), max_results),
    ensures
        first == second,
        first.len() <= max_results,
{
}

} // verus!

use vstd::prelude::*;

verus! {

/// One node of the vault as seen through the filters: a directory (with its
/// children when the listing is recursive) or a markdown file.
#[derive(Debug)]
pub struct FileEntry {
    pub name: String,
    /// Path relative to the listed root, joined with `/`.
    pub path: String,
    pub is_directory: bool,
    /// Present for directories of a recursive tree, absent for files.
    pub children: Option<Vec<FileEntry>>,
}

/// The text of one note.
#[derive(Debug)]
pub struct FileContent {
    pub path: String,
    pub content: String,
    pub size: u64,
}

/// One located occurrence of a search pattern.
#[derive(Debug)]
pub struct GrepMatch {
    /// Root-relative path of the containing file.
    pub filepath: String,
    /// 1-based.
    pub line_number: usize,
    /// The whole line, without its line ending.
    pub line_content: String,
    /// Byte offset of the match start within `line_content`.
    pub match_start: usize,
    /// Byte offset just past the match within `line_content`.
    pub match_end: usize,
}

/// What a directory listing reports of one item on disk.
#[derive(Debug)]
pub struct DiskNode {
    pub name: String,
    pub is_directory: bool,
    /// For a directory: its items, or `None` where it could not be read.
    pub contents: Option<Vec<DiskNode>>,
}

/// Why an operation on the vault failed, with the path concerned.
#[derive(Debug)]
pub enum VaultError {
    NotFound(String),
    NotADirectory(String),
    IoError(String),
    InvalidPattern(String),
}

pub struct MatchView {
    pub filepath: Seq<char>,
    pub line_number: int,
    pub line_content: Seq<char>,
    pub match_start: int,
    pub match_end: int,
}

impl View for GrepMatch {
    type V = MatchView;

    open spec fn view(&self) -> MatchView {
        MatchView {
            filepath: self.filepath@,
            line_number: self.line_number as int,
            line_content: self.line_content@,
            match_start: self.match_start as int,
            match_end: self.match_end as int,
        }
    }
}

/// The number of bytes of the UTF-8 encoding of `s`.
pub open spec fn byte_len(s: Seq<char>) -> int {
    vstd::utf8::encode_utf8(s).len() as int
}

impl MatchView {
    /// A match is non-empty and lies within its line.
    pub open spec fn wf(self) -> bool {
        0 <= self.match_start < self.match_end <= byte_len(self.line_content)
        && self.line_number >= 1
    }
}

impl GrepMatch {
    pub fn line_number(&self) -> (r: usize)
        ensures
            r == self.line_number,
    {
        self.line_number
    }
}

} // verus!

//! The units of memory and where they come from.
use vstd::prelude::*;
use vstd::string::*;
use crate::date::Date;
use crate::text;
use crate::text::copy_opt;

verus! {

/// Where a chunk came from.
#[derive(Clone, Copy, Debug, PartialEq, Eq)]
pub enum MemorySource {
    /// The curated file.
    Curated,
    /// A dated daily log.
    Daily { date: Date },
}

impl MemorySource {
    /// Whether two sources are the same.
    pub fn same(&self, other: &MemorySource) -> (r: bool)
        ensures
            r == (*self == *other),
    {
        match (self, other) {
            (MemorySource::Curated, MemorySource::Curated) => true,
            (MemorySource::Daily { date: a }, MemorySource::Daily { date: b }) => a.same(b),
            _ => false,
        }
    }
}

/// One unit of memory, cut from a Markdown file.
#[derive(Debug, PartialEq, Eq)]
pub struct MemoryChunk {
    /// Position among the chunks that were cut together.
    pub id: i64,
    /// The file's kind.
    pub source: MemorySource,
    /// The file's path.
    pub path: String,
    /// The nearest heading, or `None` before the first one.
    pub heading: Option<String>,
    /// The body, its heading line first.
    pub text: String,
    /// The first line, counted from 1.
    pub line_start: u32,
    /// The last line, counted from 1.
    pub line_end: u32,
}

/// What a chunk holds.
#[verifier::ext_equal]
pub struct ChunkView {
    pub id: int,
    pub source: MemorySource,
    pub path: Seq<char>,
    pub heading: Option<Seq<char>>,
    pub text: Seq<char>,
    pub line_start: int,
    pub line_end: int,
}

impl View for MemoryChunk {
    type V = ChunkView;

    open spec fn view(&self) -> ChunkView {
        ChunkView {
            id: self.id as int,
            source: self.source,
            path: self.path@,
            heading: text::opt_view(self.heading),
            text: self.text@,
            line_start: self.line_start as int,
            line_end: self.line_end as int,
        }
    }
}

/// What each chunk holds.
pub open spec fn chunk_views(s: Seq<MemoryChunk>) -> Seq<ChunkView> {
    Seq::new(s.len(), |i: int| s[i]@)
}

impl Clone for MemoryChunk {
    fn clone(&self) -> (r: Self)
        ensures
            r == *self,
    {
        MemoryChunk {
            id: self.id,
            source: self.source,
            path: self.path.clone(),
            heading: copy_opt(&self.heading),
            text: self.text.clone(),
            line_start: self.line_start,
            line_end: self.line_end,
        }
    }
}

} // verus!

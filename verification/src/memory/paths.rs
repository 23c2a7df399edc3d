//! The files of a memory directory.
use vstd::prelude::*;
use vstd::string::*;
use crate::date;
use crate::date::Date;
use crate::memory::config::{Memory, MemoryConfig};
use crate::path;
use crate::path::join_path;

verus! {

/// The curated file of a memory directory.
pub open spec fn curated_file(root: Seq<char>) -> Seq<char> {
    path::child_path(root, "MEMORY.md"@)
}

/// The log of a day in a memory directory.
pub open spec fn daily_file(root: Seq<char>, y: int, m: int, d: int) -> Seq<char> {
    path::child_path(path::child_path(root, "daily"@), date::written(y, m, d) + ".md"@)
}

/// The index of a memory directory.
pub open spec fn index_file(root: Seq<char>) -> Seq<char> {
    path::child_path(root, "index.db"@)
}

impl Memory {
    /// The memory in a directory.
    pub fn new(root: &str, config: MemoryConfig) -> (r: Self)
        ensures
            r.root@ == root@,
            r.config == config,
    {
        Memory { root: root.to_owned(), config }
    }

    /// The directory.
    pub fn root(&self) -> (r: &str)
        ensures
            r@ == self.root@,
    {
        self.root.as_str()
    }

    /// The settings.
    pub fn config(&self) -> (r: &MemoryConfig)
        ensures
            *r == self.config,
    {
        &self.config
    }

    /// The path of the curated file.
    pub fn curated_path(&self) -> (r: String)
        ensures
            r@ == curated_file(self.root@),
    {
        join_path(self.root.as_str(), "MEMORY.md")
    }

    /// The path of the log of a day.
    pub fn daily_path(&self, day: &Date) -> (r: String)
        ensures
            r@ == daily_file(self.root@, day@.0, day@.1, day@.2),
    {
        let dir: String = join_path(self.root.as_str(), "daily");
        let mut name: String = day.to_text();
        name.append(".md");
        join_path(dir.as_str(), name.as_str())
    }

    /// The path of the index.
    pub fn index_path(&self) -> (r: String)
        ensures
            r@ == index_file(self.root@),
    {
        join_path(self.root.as_str(), "index.db")
    }
}

} // verus!

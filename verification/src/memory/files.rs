//! Memory files: paths, line ranges, listing and reading them all.
use vstd::prelude::*;
use vstd::string::*;
use crate::date;
use crate::date::Date;
use crate::memory::chunk;
use crate::memory::chunk::{ChunkView, MemoryChunk, MemorySource};
use crate::memory::chunking;
use crate::memory::chunking::chunk_markdown;
use crate::memory::config::Memory;
use crate::text;
use crate::text::{
    chars_of,
    join_range,
    lines_of,
    same_text,
    split_char_text,
    string_of,
    text_no_later,
};

verus! {

/// Which file a `MemoryFile` is.
#[derive(Debug, Clone, Copy, PartialEq, Eq)]
pub enum MemoryFileKind {
    /// The curated file.
    Curated,
    /// A dated daily log.
    Daily,
}

/// A memory file as a listing shows it.
#[derive(Debug, PartialEq, Eq)]
pub struct MemoryFile {
    /// The file name.
    pub name: String,
    /// The path below the memory directory.
    pub rel_path: String,
    /// Which file it is.
    pub kind: MemoryFileKind,
    /// Its size.
    pub size_bytes: u64,
    /// When it was last modified, in milliseconds since 1970, or 0.
    pub modified_ms: i64,
}

// ---------------------------------------------------------------------------
// Line ranges
// ---------------------------------------------------------------------------

/// The lines from the first up to the last, counted from 1; a missing first is
/// the first line, a missing last the end of the file.
pub open spec fn line_slice(
    s: Seq<char>,
    first: Option<u32>,
    last: Option<u32>,
) -> Seq<char> {
    if first is None && last is None {
        s
    } else {
        let ls = text::lines(s);
        let n = ls.len() as int;
        let a = if first is None || first->0 == 0 {
            0
        } else if first->0 - 1 > n {
            n
        } else {
            first->0 - 1
        };
        let b = if last is None || last->0 > n {
            n
        } else {
            last->0 as int
        };
        if a < b {
            text::join(ls.subrange(a, b), seq!['\n'])
        } else {
            Seq::empty()
        }
    }
}

/// A file's text, or the lines of it from the first up to the last.
pub fn slice_lines(raw: &str, line_start: Option<u32>, line_end: Option<u32>) -> (r: String)
    requires
        text::lines(raw@).len() <= u32::MAX,
    ensures
        r@ == line_slice(raw@, line_start, line_end),
{
    if line_start.is_none() && line_end.is_none() {
        return raw.to_owned();
    }
    let ls: Vec<String> = lines_of(raw);
    let n: usize = ls.len();
    proof {
        reveal_strlit("\n");
        assert("\n"@ =~= seq!['\n']);
        assert(text::views(ls@).len() == ls@.len());
    }
    let a: usize = match line_start {
        None => 0,
        Some(x) => if x == 0 {
            0
        } else if (x - 1) as usize > n {
            n
        } else {
            (x - 1) as usize
        },
    };
    let b: usize = match line_end {
        None => n,
        Some(x) => if x as usize > n {
            n
        } else {
            x as usize
        },
    };
    if a < b {
        join_range(&ls, a, b, "\n")
    } else {
        String::new()
    }
}

/// Reading the span of a chunk gives the chunk's text.
pub proof fn law_slice_of_a_span_is_the_chunk(s: Seq<char>, source: MemorySource, path: Seq<char>, i: int)
    requires
        0 <= i < chunking::chunks(text::lines(s), source, path).len(),
        text::lines(s).len() <= u32::MAX,
    ensures
        ({
            let c = chunking::chunks(text::lines(s), source, path)[i];
            line_slice(s, Some(c.line_start as u32), Some(c.line_end as u32)) == c.text
        }),
{
    chunking::law_chunks_match_their_spans(text::lines(s), source, path);
    let c = chunking::chunks(text::lines(s), source, path)[i];
    assert(chunking::matches_span(c, text::lines(s)));
}

// ---------------------------------------------------------------------------
// Sizes
// ---------------------------------------------------------------------------

impl Memory {
    /// Whether memory is on.
    pub fn is_enabled(&self) -> (r: bool)
        ensures
            r == self.config.enabled,
    {
        self.config.enabled
    }

    /// Whether a curated file of that size calls for consolidation: it exceeds
    /// the budget by more than a tenth.
    pub fn needs_consolidation(&self, size: usize) -> (r: bool)
        requires
            self.config.injection_budget_bytes + self.config.injection_budget_bytes / 10
                <= usize::MAX,
        ensures
            r == (size > self.config.injection_budget_bytes + self.config.injection_budget_bytes
                / 10),
    {
        size > self.config.injection_budget_bytes + self.config.injection_budget_bytes / 10
    }
}

// ---------------------------------------------------------------------------
// Paths
// ---------------------------------------------------------------------------

/// Whether a part between slashes counts as a component of a path.
pub open spec fn counts(part: Seq<char>, first: bool) -> bool {
    part.len() > 0 && (first || part != seq!['.'])
}

/// The components among the first `n` parts between slashes: empty parts do
/// not count, and `.` counts only in front.
pub open spec fn named_parts(parts: Seq<Seq<char>>, n: int) -> Seq<Seq<char>>
    decreases n,
{
    if n <= 0 {
        Seq::empty()
    } else if counts(parts[n - 1], n == 1) {
        named_parts(parts, n - 1).push(parts[n - 1])
    } else {
        named_parts(parts, n - 1)
    }
}

/// Whether a path starts at the root of the file system.
pub open spec fn absolute(path: Seq<char>) -> bool {
    path.len() > 0 && path[0] == '/'
}

/// The components of a path.
pub open spec fn components(path: Seq<char>) -> Seq<Seq<char>> {
    let parts = text::split_char(path, '/');
    named_parts(parts, parts.len() as int)
}

/// Whether a path lies in a directory: no component is `..`, and the components
/// of the directory are the first ones of the path.
pub open spec fn inside(path: Seq<char>, root: Seq<char>) -> bool {
    &&& forall|i: int| 0 <= i < components(path).len() ==> #[trigger] components(path)[i] != seq![
        '.',
        '.',
    ]
    &&& absolute(path) == absolute(root)
    &&& components(root).is_prefix_of(components(path))
}

/// The components of a path.
fn components_of(path: &str) -> (r: Vec<String>)
    ensures
        text::views(r@) == components(path@),
{
    let parts: Vec<String> = split_char_text(path, '/');
    let ghost pv = text::views(parts@);
    let mut out: Vec<String> = Vec::new();
    let mut i: usize = 0;
    proof {
        reveal_strlit(".");
        assert("."@ =~= seq!['.']);
        assert(text::views(out@) =~= named_parts(pv, 0));
    }
    while i < parts.len()
        invariant
            i <= parts@.len(),
            pv == text::views(parts@),
            "."@ == seq!['.'],
            text::views(out@) == named_parts(pv, i as int),
        decreases parts@.len() - i,
    {
        let ghost before = text::views(out@);
        assert(pv[i as int] == parts@[i as int]@);
        if !parts[i].as_str().is_empty() && (i == 0 || !same_text(parts[i].as_str(), ".")) {
            out.push(parts[i].clone());
            assert(text::views(out@) =~= before.push(pv[i as int]));
        }
        i = i + 1;
    }
    out
}

/// Whether a path starts at the root of the file system.
fn is_absolute(path: &str) -> (r: bool)
    ensures
        r == absolute(path@),
{
    let v: Vec<char> = chars_of(path);
    v.len() > 0 && v[0] == '/'
}

impl Memory {
    /// Whether a path lies in the memory directory. A path with a `..` component
    /// never does.
    pub fn within_root(&self, path: &str) -> (r: bool)
        ensures
            r == inside(path@, self.root@),
    {
        let p: Vec<String> = components_of(path);
        let q: Vec<String> = components_of(self.root.as_str());
        let ghost pv = text::views(p@);
        let ghost qv = text::views(q@);
        proof {
            reveal_strlit("..");
            assert(".."@ =~= seq!['.', '.']);
        }
        let mut i: usize = 0;
        while i < p.len()
            invariant
                i <= p@.len(),
                pv == text::views(p@),
                pv == components(path@),
                ".."@ == seq!['.', '.'],
                forall|j: int| 0 <= j < i ==> #[trigger] pv[j] != seq!['.', '.'],
            decreases p@.len() - i,
        {
            if same_text(p[i].as_str(), "..") {
                assert(pv[i as int] == seq!['.', '.']);
                return false;
            }
            i = i + 1;
        }
        if is_absolute(path) != is_absolute(self.root.as_str()) || q.len() > p.len() {
            return false;
        }
        let mut k: usize = 0;
        while k < q.len()
            invariant
                k <= q@.len() <= p@.len(),
                pv == text::views(p@),
                qv == text::views(q@),
                pv == components(path@),
                qv == components(self.root@),
                forall|j: int| 0 <= j < k ==> #[trigger] pv[j] == qv[j],
            decreases q@.len() - k,
        {
            if !same_text(p[k].as_str(), q[k].as_str()) {
                assert(pv[k as int] != qv[k as int]);
                assert(!qv.is_prefix_of(pv)) by {
                    assert(pv.subrange(0, qv.len() as int)[k as int] == pv[k as int]);
                }
                return false;
            }
            k = k + 1;
        }
        assert(pv.subrange(0, qv.len() as int) =~= qv);
        true
    }

    /// A file's text, or the lines of it from the first up to the last. A path
    /// outside the memory directory reads as empty, whatever `raw` holds.
    pub fn get(
        &self,
        path: &str,
        raw: &str,
        line_start: Option<u32>,
        line_end: Option<u32>,
    ) -> (r: String)
        requires
            text::lines(raw@).len() <= u32::MAX,
        ensures
            r@ == (if inside(path@, self.root@) {
                line_slice(raw@, line_start, line_end)
            } else {
                Seq::empty()
            }),
    {
        if self.within_root(path) {
            slice_lines(raw, line_start, line_end)
        } else {
            String::new()
        }
    }

    /// The text of a file below the memory directory; `None` for a path that
    /// leaves it.
    pub fn read_file(&self, path: &str, raw: &str) -> (r: Option<String>)
        ensures
            match r {
                Some(s) => inside(path@, self.root@) && s@ == raw@,
                None => !inside(path@, self.root@),
            },
    {
        if self.within_root(path) {
            Some(raw.to_owned())
        } else {
            None
        }
    }
}

/// Nothing outside the memory directory can be read: whatever a path with a
/// `..` component, or one that starts elsewhere, holds, it reads as empty.
pub proof fn law_escaping_paths_are_outside(path: Seq<char>, root: Seq<char>, i: int)
    requires
        0 <= i < components(path).len(),
        components(path)[i] == seq!['.', '.'],
    ensures
        !inside(path, root),
{
}

/// Whether a file name, being the last component of a path, has the extension
/// `md`.
pub open spec fn markdown_name(name: Seq<char>) -> bool {
    name.len() > 3 && name.skip(name.len() - 3) == seq!['.', 'm', 'd']
}

/// Whether a path names a Markdown file.
pub open spec fn markdown_path(path: Seq<char>) -> bool {
    components(path).len() > 0 && markdown_name(components(path).last())
}

/// Whether a path names a Markdown file.
pub fn is_markdown(path: &str) -> (r: bool)
    ensures
        r == markdown_path(path@),
{
    let p: Vec<String> = components_of(path);
    proof {
        assert(text::views(p@).len() == p@.len());
    }
    if p.len() == 0 {
        return false;
    }
    let name: &String = &p[p.len() - 1];
    assert(text::views(p@).last() == name@);
    has_markdown_name(name.as_str())
}

/// Whether a file name has the extension `md`.
pub fn has_markdown_name(name: &str) -> (r: bool)
    ensures
        r == markdown_name(name@),
{
    let v: Vec<char> = chars_of(name);
    let n: usize = v.len();
    if n > 3 && v[n - 3] == '.' && v[n - 2] == 'm' && v[n - 1] == 'd' {
        assert(name@.skip(n - 3) =~= seq!['.', 'm', 'd']);
        true
    } else {
        proof {
            if n > 3 && name@.skip(n - 3) == seq!['.', 'm', 'd'] {
                assert(name@.skip(n - 3)[0] == name@[n - 3]);
                assert(name@.skip(n - 3)[1] == name@[n - 2]);
                assert(name@.skip(n - 3)[2] == name@[n - 1]);
            }
        }
        false
    }
}

// ---------------------------------------------------------------------------
// All files
// ---------------------------------------------------------------------------

/// A file of the daily directory.
#[derive(Debug, PartialEq, Eq)]
pub struct DailyFile {
    /// The file name.
    pub name: String,
    /// The path.
    pub path: String,
    /// The text.
    pub raw: String,
}

/// Whether `s` holds the items of `t`, in ascending order of their names.
pub open spec fn name_sorted(s: Seq<DailyFile>) -> bool {
    forall|i: int, j: int|
        0 <= i < j < s.len() ==> text::text_le((#[trigger] s[i]).name@, (#[trigger] s[j]).name@)
}

/// The place among the first `n` sorted files before which a name goes.
fn name_place(files: &Vec<DailyFile>, name: &str) -> (r: usize)
    requires
        name_sorted(files@),
    ensures
        r <= files@.len(),
        forall|j: int| 0 <= j < r ==> text::text_le((#[trigger] files@[j]).name@, name@),
        forall|j: int| r <= j < files@.len() ==> text::text_le(name@, (#[trigger] files@[j]).name@),
{
    let mut i: usize = files.len();
    while i > 0 && !text_no_later(files[i - 1].name.as_str(), name)
        invariant
            i <= files@.len(),
            name_sorted(files@),
            forall|j: int|
                i <= j < files@.len() ==> text::text_le(name@, (#[trigger] files@[j]).name@),
        decreases i,
    {
        proof {
            text::lemma_text_le_total(files@[i - 1].name@, name@);
        }
        i = i - 1;
    }
    proof {
        assert forall|j: int| 0 <= j < i implies text::text_le(
            (#[trigger] files@[j]).name@,
            name@,
        ) by {
            if j < i - 1 {
                assert(text::text_le(files@[j].name@, files@[i - 1].name@));
                text::lemma_text_le_trans(files@[j].name@, files@[i - 1].name@, name@);
            }
        }
    }
    i
}

/// The Markdown files among those, in ascending order of their names.
pub fn sort_daily(files: Vec<DailyFile>) -> (r: Vec<DailyFile>)
    ensures
        name_sorted(r@),
        r@.to_multiset() =~= files@.filter(|f: DailyFile| markdown_name(f.name@)).to_multiset(),
{
    let ghost all = files@;
    let ghost keep = |f: DailyFile| markdown_name(f.name@);
    let mut rest: Vec<DailyFile> = files;
    let mut out: Vec<DailyFile> = Vec::new();
    proof {
        broadcast use vstd::seq_lib::group_to_multiset_ensures;

        assert(out@.to_multiset().add(all.filter(keep).to_multiset()) =~= all.filter(
            keep,
        ).to_multiset());
    }
    while rest.len() > 0
        invariant
            name_sorted(out@),
            keep == (|f: DailyFile| markdown_name(f.name@)),
            out@.to_multiset().add(rest@.filter(keep).to_multiset()) =~= all.filter(
                keep,
            ).to_multiset(),
        decreases rest@.len(),
    {
        let ghost before = rest@;
        let ghost sorted = out@;
        match rest.pop() {
            Some(f) => {
                proof {
                    broadcast use vstd::seq_lib::group_to_multiset_ensures;

                    assert(before =~= rest@.push(f));
                    reveal(Seq::filter);
                    assert(before.drop_last() =~= rest@);
                }
                if has_markdown_name(f.name.as_str()) {
                    let at: usize = name_place(&out, f.name.as_str());
                    out.insert(at, f);
                    proof {
                        broadcast use vstd::seq_lib::group_to_multiset_ensures;

                        assert(out@ =~= sorted.insert(at as int, f));
                        assert(out@.to_multiset() =~= sorted.to_multiset().insert(f));
                        assert(before.filter(keep) =~= rest@.filter(keep).push(f));
                        assert(before.filter(keep).to_multiset() =~= rest@.filter(
                            keep,
                        ).to_multiset().insert(f));
                        assert(name_sorted(out@));
                    }
                } else {
                    proof {
                        assert(before.filter(keep) =~= rest@.filter(keep));
                    }
                }
            },
            None => {
                assert(false);
            },
        }
    }
    proof {
        broadcast use vstd::seq_lib::group_to_multiset_ensures;

        reveal(Seq::filter);
        assert(rest@.filter(keep) =~= Seq::<DailyFile>::empty());
        assert(out@.to_multiset().add(Seq::<DailyFile>::empty().to_multiset())
            =~= out@.to_multiset());
    }
    out
}

/// Whether a source is that of a daily file: its name without the extension is
/// the date, and a file that is not named by a date counts as curated.
pub open spec fn source_of_name(name: Seq<char>, source: MemorySource) -> bool {
    let stem = name.take(name.len() - 3);
    match date::date_of_text(stem) {
        Some(d) => source is Daily && source->date@ == d,
        None => source == MemorySource::Curated,
    }
}

/// The source of a daily file.
pub fn daily_source(name: &str) -> (r: MemorySource)
    requires
        markdown_name(name@),
    ensures
        source_of_name(name@, r),
{
    let v: Vec<char> = chars_of(name);
    let stem: String = string_of(&v, 0, v.len() - 3);
    proof {
        assert(stem@ =~= name@.take(name@.len() - 3));
    }
    match Date::parse(stem.as_str()) {
        Some(date) => MemorySource::Daily { date },
        None => MemorySource::Curated,
    }
}

/// The chunks of the first `n` daily files, whose sources are given.
pub open spec fn daily_chunks(
    files: Seq<DailyFile>,
    sources: Seq<MemorySource>,
    n: int,
) -> Seq<ChunkView>
    decreases n,
{
    if n <= 0 {
        Seq::empty()
    } else {
        daily_chunks(files, sources, n - 1) + chunking::chunks(
            text::lines(files[n - 1].raw@),
            sources[n - 1],
            files[n - 1].path@,
        )
    }
}

/// The chunks of every file: those of the curated one, then those of the daily
/// logs in the order of the list.
pub fn all_chunks(curated: &str, curated_path: &str, daily: &Vec<DailyFile>) -> (r: Vec<
    MemoryChunk,
>)
    requires
        text::lines(curated@).len() <= u32::MAX,
        forall|i: int|
            0 <= i < daily@.len() ==> markdown_name((#[trigger] daily@[i]).name@) && text::lines(
                daily@[i].raw@,
            ).len() <= u32::MAX,
    ensures
        exists|sources: Seq<MemorySource>|
            #![trigger daily_chunks(daily@, sources, daily@.len() as int)]
            sources.len() == daily@.len() && (forall|i: int|
                0 <= i < daily@.len() ==> source_of_name(
                    (#[trigger] daily@[i]).name@,
                    sources[i],
                )) && chunk::chunk_views(r@) == chunking::chunks(
                text::lines(curated@),
                MemorySource::Curated,
                curated_path@,
            ) + daily_chunks(daily@, sources, daily@.len() as int),
{
    let mut out: Vec<MemoryChunk> = chunk_markdown(curated, MemorySource::Curated, curated_path);
    let ghost base = chunk::chunk_views(out@);
    let ghost mut sources: Seq<MemorySource> = Seq::empty();
    let mut i: usize = 0;
    assert(base + daily_chunks(daily@, sources, 0) =~= base);
    while i < daily.len()
        invariant
            i <= daily@.len(),
            sources.len() == i,
            forall|j: int|
                0 <= j < daily@.len() ==> markdown_name((#[trigger] daily@[j]).name@)
                    && text::lines(daily@[j].raw@).len() <= u32::MAX,
            forall|j: int|
                0 <= j < i ==> source_of_name((#[trigger] daily@[j]).name@, sources[j]),
            chunk::chunk_views(out@) == base + daily_chunks(daily@, sources, i as int),
        decreases daily@.len() - i,
    {
        let source: MemorySource = daily_source(daily[i].name.as_str());
        let mut more: Vec<MemoryChunk> = chunk_markdown(
            daily[i].raw.as_str(),
            source,
            daily[i].path.as_str(),
        );
        let ghost old_sources = sources;
        let ghost had = out@;
        let ghost got = more@;
        proof {
            sources = sources.push(source);
            lemma_daily_chunks_prefix(daily@, old_sources, sources, i as int);
        }
        out.append(&mut more);
        proof {
            assert(out@ =~= had + got);
            assert(chunk::chunk_views(out@) =~= chunk::chunk_views(had) + chunk::chunk_views(got));
            assert(base + daily_chunks(daily@, sources, i + 1) =~= chunk::chunk_views(had)
                + chunk::chunk_views(got));
        }
        i = i + 1;
    }
    out
}

proof fn lemma_daily_chunks_prefix(
    files: Seq<DailyFile>,
    a: Seq<MemorySource>,
    b: Seq<MemorySource>,
    n: int,
)
    requires
        0 <= n <= a.len() <= b.len(),
        forall|i: int| 0 <= i < n ==> a[i] == b[i],
    ensures
        daily_chunks(files, a, n) == daily_chunks(files, b, n),
    decreases n,
{
    if n > 0 {
        lemma_daily_chunks_prefix(files, a, b, n - 1);
    }
}

/// The listing of the files: the curated one, where there is one, then the
/// daily logs from the newest, which has the greatest name, to the oldest.
pub fn list_files(curated: Option<MemoryFile>, daily: Vec<MemoryFile>) -> (r: Vec<MemoryFile>)
    ensures
        ({
            let n = (if curated is Some { 1int } else { 0 });
            &&& r@.len() >= n
            &&& curated is Some ==> r@[0] == curated->0
            &&& forall|i: int, j: int|
                n <= i < j < r@.len() ==> text::text_le(
                    (#[trigger] r@[j]).name@,
                    (#[trigger] r@[i]).name@,
                )
            &&& r@.skip(n).to_multiset() =~= daily@.to_multiset()
        }),
{
    let ghost all = daily@;
    let ghost n = (if curated is Some { 1int } else { 0 });
    let mut out: Vec<MemoryFile> = Vec::new();
    let mut first: usize = 0;
    match curated {
        Some(f) => {
            out.push(f);
            first = 1;
        },
        None => {},
    }
    let ghost head = out@;
    let mut rest: Vec<MemoryFile> = daily;
    proof {
        broadcast use vstd::seq_lib::group_to_multiset_ensures;

        assert(out@.skip(n) =~= Seq::<MemoryFile>::empty());
        assert(out@.skip(n).to_multiset().add(rest@.to_multiset()) =~= all.to_multiset());
    }
    while rest.len() > 0
        invariant
            first == n,
            n == head.len(),
            n <= out@.len(),
            out@.take(n) == head,
            forall|i: int, j: int|
                n <= i < j < out@.len() ==> text::text_le(
                    (#[trigger] out@[j]).name@,
                    (#[trigger] out@[i]).name@,
                ),
            out@.skip(n).to_multiset().add(rest@.to_multiset()) =~= all.to_multiset(),
        decreases rest@.len(),
    {
        let ghost before = rest@;
        let ghost had = out@;
        match rest.pop() {
            Some(f) => {
                let mut at: usize = out.len();
                while at > first && !text_no_later(f.name.as_str(), out[at - 1].name.as_str())
                    invariant
                        out@ == had,
                        first == n,
                        first <= at <= out@.len(),
                        forall|i: int, j: int|
                            n <= i < j < out@.len() ==> text::text_le(
                                (#[trigger] out@[j]).name@,
                                (#[trigger] out@[i]).name@,
                            ),
                        forall|j: int|
                            at <= j < out@.len() ==> text::text_le(
                                (#[trigger] out@[j]).name@,
                                f.name@,
                            ),
                    decreases at,
                {
                    proof {
                        text::lemma_text_le_total(f.name@, out@[at - 1].name@);
                    }
                    at = at - 1;
                }
                proof {
                    assert forall|j: int| n <= j < at implies text::text_le(
                        f.name@,
                        (#[trigger] out@[j]).name@,
                    ) by {
                        if j < at - 1 {
                            text::lemma_text_le_trans(
                                f.name@,
                                out@[at - 1].name@,
                                out@[j].name@,
                            );
                        }
                    }
                }
                out.insert(at, f);
                proof {
                    broadcast use vstd::seq_lib::group_to_multiset_ensures;

                    assert(out@ =~= had.insert(at as int, f));
                    assert(out@.skip(n) =~= had.skip(n).insert(at - n, f));
                    assert(out@.skip(n).to_multiset() =~= had.skip(n).to_multiset().insert(f));
                    assert(before =~= rest@.push(f));
                    assert(before.to_multiset() =~= rest@.to_multiset().insert(f));
                    assert(out@.take(n) =~= had.take(n));
                }
            },
            None => {
                assert(false);
            },
        }
    }
    proof {
        broadcast use vstd::seq_lib::group_to_multiset_ensures;

        assert(rest@ =~= Seq::<MemoryFile>::empty());
        assert(out@.skip(n).to_multiset().add(Seq::<MemoryFile>::empty().to_multiset())
            =~= out@.skip(n).to_multiset());
        if curated is Some {
            assert(out@.take(n)[0] == out@[0]);
        }
    }
    out
}

} // verus!

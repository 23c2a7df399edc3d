//! The ambient block: what of memory goes into the system prompt.
use vstd::prelude::*;
use vstd::string::*;
use crate::date;
use crate::date::Date;
use crate::memory::chunk;
use crate::memory::chunk::{ChunkView, MemoryChunk, MemorySource};
use crate::memory::chunking;
use crate::memory::chunking::chunk_markdown;
use crate::memory::config::{Memory, MemoryConfig, Score};
use crate::memory::consolidate;
use crate::memory::keys;
use crate::memory::keys::chunk_key;
use crate::memory::markdown;
use crate::memory::markdown::head_within;
use crate::text;
use crate::text::{byte_len, holds_text, is_blank, join_all, lines_of, same_text, trim_text};

verus! {

/// What follows a truncated curated section.
pub open spec fn truncation_note() -> Seq<char> {
    "\n\n_(memory truncated — use `memory_search` for the rest)_"@
}

/// The curated text within the budget: all of it where it fits, else its head
/// and a note.
pub open spec fn bounded(curated: Seq<char>, budget: int) -> Seq<char> {
    if text::utf8_len(curated) > budget {
        markdown::head(curated, budget) + truncation_note()
    } else {
        curated
    }
}

/// The curated section, unless there is nothing but white space.
pub open spec fn curated_part(raw: Seq<char>, budget: int) -> Option<Seq<char>> {
    if text::trim(raw).len() == 0 {
        None
    } else {
        Some(bounded(text::trim(raw), budget))
    }
}

/// One day of the daily section.
pub open spec fn day_entry(label: Seq<char>, d: (int, int, int), log: Seq<char>) -> Seq<char> {
    if text::trim(log).len() == 0 {
        Seq::empty()
    } else {
        "\n#### "@ + label + " ("@ + date::written(d.0, d.1, d.2) + ")\n"@ + text::trim(log)
            + seq!['\n']
    }
}

/// The daily section: the day before `today`, then `today`. On the first day
/// of the calendar there is no day before, and `today` stands in its place.
pub open spec fn daily_part(
    today: (int, int, int),
    yesterday_log: Seq<char>,
    today_log: Seq<char>,
) -> Option<Seq<char>> {
    let recent = match date::day_before(today.0, today.1, today.2) {
        Some(y) => day_entry("Yesterday"@, y, yesterday_log) + day_entry(
            "Today"@,
            today,
            today_log,
        ),
        None => day_entry("Yesterday"@, today, today_log),
    };
    if recent.len() == 0 {
        None
    } else {
        Some("\n### Recent daily log\n"@ + recent)
    }
}

/// The whole block, unless both parts are absent.
pub open spec fn block(curated: Option<Seq<char>>, daily: Option<Seq<char>>) -> Option<Seq<char>> {
    if curated is None && daily is None {
        None
    } else {
        Some(
            "## Memory\n"@ + (match curated {
                Some(c) => seq!['\n'] + c + seq!['\n'],
                None => Seq::empty(),
            }) + (match daily {
                Some(d) => d,
                None => Seq::empty(),
            }),
        )
    }
}

/// Whether a chunk key is dormant: its recorded weight is below the threshold.
/// A key without a record is not.
pub open spec fn dormant(stats: Seq<(String, Score)>, threshold: Score, key: Seq<char>) -> bool {
    match consolidate::weight_of(stats, stats.len() as int, key) {
        Some(w) => w < threshold,
        None => false,
    }
}

/// Whether a chunk covers line `ln`, counted from 1.
pub open spec fn covers(c: ChunkView, ln: int) -> bool {
    c.line_start <= ln <= c.line_end
}

/// Whether a chunk of that dormancy covers line `ln`.
pub open spec fn covered(
    cs: Seq<ChunkView>,
    stats: Seq<(String, Score)>,
    threshold: Score,
    ln: int,
    asleep: bool,
) -> bool {
    exists|i: int|
        0 <= i < cs.len() && covers(#[trigger] cs[i], ln) && dormant(
            stats,
            threshold,
            keys::chunk_key_spec(cs[i]),
        ) == asleep
}

/// Whether line `ln` goes: a dormant chunk covers it, and no live one.
pub open spec fn line_goes(
    cs: Seq<ChunkView>,
    stats: Seq<(String, Score)>,
    threshold: Score,
    ln: int,
) -> bool {
    covered(cs, stats, threshold, ln, true) && !covered(cs, stats, threshold, ln, false)
}

/// The lines among the first `n` that stay.
pub open spec fn staying(
    ls: Seq<Seq<char>>,
    cs: Seq<ChunkView>,
    stats: Seq<(String, Score)>,
    threshold: Score,
    n: int,
) -> Seq<Seq<char>>
    decreases n,
{
    if n <= 0 {
        Seq::empty()
    } else if line_goes(cs, stats, threshold, n) {
        staying(ls, cs, stats, threshold, n - 1)
    } else {
        staying(ls, cs, stats, threshold, n - 1).push(ls[n - 1])
    }
}

/// The curated text without the lines of dormant chunks; unchanged where no
/// line goes.
pub open spec fn awake_text(
    raw: Seq<char>,
    cs: Seq<ChunkView>,
    stats: Seq<(String, Score)>,
    threshold: Score,
) -> Seq<char> {
    let ls = text::lines(raw);
    let kept = staying(ls, cs, stats, threshold, ls.len() as int);
    if kept.len() == ls.len() {
        raw
    } else {
        text::join(kept, seq!['\n'])
    }
}

/// The distinct keys of the live ones among the first `n` chunks, in order.
pub open spec fn live_keys(
    cs: Seq<ChunkView>,
    stats: Seq<(String, Score)>,
    threshold: Score,
    n: int,
) -> Seq<Seq<char>>
    decreases n,
{
    if n <= 0 {
        Seq::empty()
    } else {
        let prev = live_keys(cs, stats, threshold, n - 1);
        let k = keys::chunk_key_spec(cs[n - 1]);
        if !dormant(stats, threshold, k) && !prev.contains(k) {
            prev.push(k)
        } else {
            prev
        }
    }
}

/// The curated section without dormant chunks, and the keys of the live ones.
pub open spec fn filtered(
    raw: Seq<char>,
    path: Seq<char>,
    stats: Seq<(String, Score)>,
    threshold: Score,
    budget: int,
) -> (Option<Seq<char>>, Seq<Seq<char>>) {
    let cs = chunking::chunks(text::lines(raw), MemorySource::Curated, path);
    let part = curated_part(awake_text(raw, cs, stats, threshold), budget);
    if text::trim(raw).len() == 0 || part is None {
        (None, Seq::empty())
    } else {
        (part, live_keys(cs, stats, threshold, cs.len() as int))
    }
}

/// The block of the whole curated text and the two days; none when memory is off.
pub open spec fn plain_block(
    config: MemoryConfig,
    curated: Seq<char>,
    today: (int, int, int),
    yesterday_log: Seq<char>,
    today_log: Seq<char>,
) -> Option<Seq<char>> {
    if config.enabled {
        block(
            curated_part(curated, config.injection_budget_bytes as int),
            daily_part(today, yesterday_log, today_log),
        )
    } else {
        None
    }
}

/// The block of the curated text without dormant chunks and the two days; none
/// when memory is off.
pub open spec fn filtered_block(
    config: MemoryConfig,
    curated: Seq<char>,
    path: Seq<char>,
    stats: Seq<(String, Score)>,
    today: (int, int, int),
    yesterday_log: Seq<char>,
    today_log: Seq<char>,
) -> Option<Seq<char>> {
    if config.enabled {
        let f = filtered(
            curated,
            path,
            stats,
            config.decay.dormant_threshold,
            config.injection_budget_bytes as int,
        );
        block(f.0, daily_part(today, yesterday_log, today_log))
    } else {
        None
    }
}

/// The curated text within the budget.
fn bound_curated(curated: String, budget: usize) -> (r: String)
    ensures
        r@ == bounded(curated@, budget as int),
{
    if byte_len(curated.as_str()) > budget {
        let mut out: String = head_within(curated.as_str(), budget).to_owned();
        out.append("\n\n_(memory truncated — use `memory_search` for the rest)_");
        out
    } else {
        curated
    }
}

/// Adds one day of the daily section.
fn push_day(out: &mut String, label: &str, d: &Date, log: &str)
    ensures
        final(out)@ == old(out)@ + day_entry(label@, d@, log@),
{
    let t: String = trim_text(log);
    let ghost before = out@;
    if !t.as_str().is_empty() {
        let ds: String = d.to_text();
        out.append("\n#### ");
        out.append(label);
        out.append(" (");
        out.append(ds.as_str());
        out.append(")\n");
        out.append(t.as_str());
        out.push('\n');
    }
    proof {
        assert(out@ =~= before + day_entry(label@, d@, log@));
    }
}

/// Whether a chunk key is dormant.
fn is_dormant(stats: &Vec<(String, Score)>, threshold: Score, key: &str) -> (r: bool)
    ensures
        r == dormant(stats@, threshold, key@),
{
    let mut i: usize = stats.len();
    while i > 0
        invariant
            i <= stats@.len(),
            consolidate::weight_of(stats@, stats@.len() as int, key@) == consolidate::weight_of(
                stats@,
                i as int,
                key@,
            ),
        decreases i,
    {
        if same_text(stats[i - 1].0.as_str(), key) {
            return stats[i - 1].1 < threshold;
        }
        i = i - 1;
    }
    false
}

/// Whether line `ln` goes, given which chunks are dormant.
fn goes(cs: &Vec<MemoryChunk>, asleep: &Vec<bool>, ln: u32, Ghost(stats): Ghost<
    Seq<(String, Score)>,
>, Ghost(threshold): Ghost<Score>) -> (r: bool)
    requires
        asleep@.len() == cs@.len(),
        forall|i: int|
            0 <= i < cs@.len() ==> #[trigger] asleep@[i] == dormant(
                stats,
                threshold,
                keys::chunk_key_spec(cs@[i]@),
            ),
    ensures
        r == line_goes(chunk::chunk_views(cs@), stats, threshold, ln as int),
{
    let ghost cv = chunk::chunk_views(cs@);
    let mut sleeping: bool = false;
    let mut i: usize = 0;
    while i < cs.len()
        invariant
            i <= cs@.len(),
            asleep@.len() == cs@.len(),
            cv == chunk::chunk_views(cs@),
            forall|j: int|
                0 <= j < cs@.len() ==> #[trigger] asleep@[j] == dormant(
                    stats,
                    threshold,
                    keys::chunk_key_spec(cs@[j]@),
                ),
            forall|j: int|
                0 <= j < i && covers(#[trigger] cv[j], ln as int) ==> dormant(
                    stats,
                    threshold,
                    keys::chunk_key_spec(cv[j]),
                ),
            sleeping == exists|j: int| 0 <= j < i && covers(#[trigger] cv[j], ln as int),
        decreases cs@.len() - i,
    {
        assert(cv[i as int] == cs@[i as int]@);
        if cs[i].line_start <= ln && ln <= cs[i].line_end {
            assert(covers(cv[i as int], ln as int));
            if !asleep[i] {
                assert(covered(cv, stats, threshold, ln as int, false));
                return false;
            }
            sleeping = true;
        }
        i = i + 1;
    }
    proof {
        if sleeping {
            let j = choose|j: int| 0 <= j < cv.len() && covers(#[trigger] cv[j], ln as int);
            assert(covered(cv, stats, threshold, ln as int, true));
        }
    }
    sleeping
}

proof fn lemma_staying_len(
    ls: Seq<Seq<char>>,
    cs: Seq<ChunkView>,
    stats: Seq<(String, Score)>,
    threshold: Score,
    n: int,
)
    requires
        0 <= n <= ls.len(),
    ensures
        staying(ls, cs, stats, threshold, n).len() <= n,
        staying(ls, cs, stats, threshold, n).len() == n <==> (forall|i: int|
            1 <= i <= n ==> !#[trigger] line_goes(cs, stats, threshold, i)),
    decreases n,
{
    if n > 0 {
        lemma_staying_len(ls, cs, stats, threshold, n - 1);
    }
}

impl Memory {
    /// The curated section without dormant chunks, and the keys of the chunks
    /// that are in it. `stats` holds the effective weights of recalled chunks.
    pub fn curated_filter(&self, raw: &str, path: &str, stats: &Vec<(String, Score)>) -> (r: (
        Option<String>,
        Vec<String>,
    ))
        requires
            text::lines(raw@).len() <= u32::MAX,
        ensures
            text::opt_view(r.0) == filtered(
                raw@,
                path@,
                stats@,
                self.config.decay.dormant_threshold,
                self.config.injection_budget_bytes as int,
            ).0,
            text::views(r.1@) == filtered(
                raw@,
                path@,
                stats@,
                self.config.decay.dormant_threshold,
                self.config.injection_budget_bytes as int,
            ).1,
    {
        let threshold: Score = self.config.decay.dormant_threshold;
        let budget: usize = self.config.injection_budget_bytes;
        if is_blank(raw) {
            let none: Vec<String> = Vec::new();
            assert(text::views(none@) =~= Seq::<Seq<char>>::empty());
            return (None, none);
        }
        let cs: Vec<MemoryChunk> = chunk_markdown(raw, MemorySource::Curated, path);
        let ghost cv = chunk::chunk_views(cs@);
        let mut asleep: Vec<bool> = Vec::new();
        let mut live: Vec<String> = Vec::new();
        let mut i: usize = 0;
        assert(text::views(live@) =~= live_keys(cv, stats@, threshold, 0));
        while i < cs.len()
            invariant
                i <= cs@.len(),
                asleep@.len() == i,
                cv == chunk::chunk_views(cs@),
                forall|j: int|
                    0 <= j < i ==> #[trigger] asleep@[j] == dormant(
                        stats@,
                        threshold,
                        keys::chunk_key_spec(cs@[j]@),
                    ),
                text::views(live@) == live_keys(cv, stats@, threshold, i as int),
            decreases cs@.len() - i,
        {
            let ghost before = text::views(live@);
            assert(cv[i as int] == cs@[i as int]@);
            let k: String = chunk_key(&cs[i]);
            let d: bool = is_dormant(stats, threshold, k.as_str());
            asleep.push(d);
            if !d && !holds_text(&live, k.as_str()) {
                live.push(k);
                assert(text::views(live@) =~= before.push(k@));
            }
            i = i + 1;
        }
        let ls: Vec<String> = lines_of(raw);
        let ghost lv = text::views(ls@);
        let mut kept: Vec<String> = Vec::new();
        let mut n: usize = 0;
        assert(text::views(kept@) =~= staying(lv, cv, stats@, threshold, 0));
        while n < ls.len()
            invariant
                n <= ls@.len(),
                ls@.len() <= u32::MAX,
                lv == text::views(ls@),
                cv == chunk::chunk_views(cs@),
                asleep@.len() == cs@.len(),
                forall|j: int|
                    0 <= j < cs@.len() ==> #[trigger] asleep@[j] == dormant(
                        stats@,
                        threshold,
                        keys::chunk_key_spec(cs@[j]@),
                    ),
                text::views(kept@) == staying(lv, cv, stats@, threshold, n as int),
            decreases ls@.len() - n,
        {
            let ghost before = text::views(kept@);
            let ln: u32 = n as u32 + 1;
            if !goes(&cs, &asleep, ln, Ghost(stats@), Ghost(threshold)) {
                kept.push(ls[n].clone());
                proof {
                    assert(lv[n as int] == ls@[n as int]@);
                    assert(text::views(kept@) =~= before.push(lv[n as int]));
                }
            }
            n = n + 1;
        }
        proof {
            reveal_strlit("\n");
            assert("\n"@ =~= seq!['\n']);
            assert(text::views(kept@).len() == kept@.len());
            assert(lv.len() == ls@.len());
        }
        let awake: String = if kept.len() == ls.len() {
            raw.to_owned()
        } else {
            join_all(&kept, "\n")
        };
        assert(awake@ == awake_text(raw@, cv, stats@, threshold));
        let t: String = trim_text(awake.as_str());
        if t.as_str().is_empty() {
            let none: Vec<String> = Vec::new();
            assert(text::views(none@) =~= Seq::<Seq<char>>::empty());
            return (None, none);
        }
        let out: String = bound_curated(t, budget);
        (Some(out), live)
    }

    /// The curated section, unless the file holds nothing but white space.
    pub fn curated_section(&self, raw: &str) -> (r: Option<String>)
        ensures
            text::opt_view(r) == curated_part(raw@, self.config.injection_budget_bytes as int),
    {
        let t: String = trim_text(raw);
        if t.as_str().is_empty() {
            None
        } else {
            Some(bound_curated(t, self.config.injection_budget_bytes))
        }
    }

    /// The ambient block: the curated section, then yesterday's and today's log.
    /// None when memory is off or nothing has been recorded.
    pub fn ambient_block_for(
        &self,
        curated: &str,
        today: &Date,
        yesterday_log: &str,
        today_log: &str,
    ) -> (r: Option<String>)
        ensures
            text::opt_view(r) == plain_block(
                self.config,
                curated@,
                today@,
                yesterday_log@,
                today_log@,
            ),
    {
        if !self.config.enabled {
            return None;
        }
        let c: Option<String> = self.curated_section(curated);
        let d: Option<String> = daily_section(today, yesterday_log, today_log);
        assemble(c, d)
    }

    /// The ambient block without dormant curated chunks, and the keys of the
    /// chunks that are in it.
    pub fn ambient_block_filtered_keyed_for(
        &self,
        curated: &str,
        path: &str,
        stats: &Vec<(String, Score)>,
        today: &Date,
        yesterday_log: &str,
        today_log: &str,
    ) -> (r: (Option<String>, Vec<String>))
        requires
            text::lines(curated@).len() <= u32::MAX,
        ensures
            text::opt_view(r.0) == filtered_block(
                self.config,
                curated@,
                path@,
                stats@,
                today@,
                yesterday_log@,
                today_log@,
            ),
            text::views(r.1@) == (if self.config.enabled {
                filtered(
                    curated@,
                    path@,
                    stats@,
                    self.config.decay.dormant_threshold,
                    self.config.injection_budget_bytes as int,
                ).1
            } else {
                Seq::empty()
            }),
    {
        if !self.config.enabled {
            let none: Vec<String> = Vec::new();
            assert(text::views(none@) =~= Seq::empty());
            return (None, none);
        }
        let (c, ks) = self.curated_filter(curated, path, stats);
        let d: Option<String> = daily_section(today, yesterday_log, today_log);
        (assemble(c, d), ks)
    }

    /// The ambient block without dormant curated chunks.
    pub fn ambient_block_filtered_for(
        &self,
        curated: &str,
        path: &str,
        stats: &Vec<(String, Score)>,
        today: &Date,
        yesterday_log: &str,
        today_log: &str,
    ) -> (r: Option<String>)
        requires
            text::lines(curated@).len() <= u32::MAX,
        ensures
            text::opt_view(r) == filtered_block(
                self.config,
                curated@,
                path@,
                stats@,
                today@,
                yesterday_log@,
                today_log@,
            ),
    {
        self.ambient_block_filtered_keyed_for(
            curated,
            path,
            stats,
            today,
            yesterday_log,
            today_log,
        ).0
    }
}

/// The daily section.
pub fn daily_section(today: &Date, yesterday_log: &str, today_log: &str) -> (r: Option<String>)
    ensures
        text::opt_view(r) == daily_part(today@, yesterday_log@, today_log@),
{
    let yesterday: Option<Date> = today.pred_opt();
    let mut recent = String::new();
    match &yesterday {
        Some(y) => {
            push_day(&mut recent, "Yesterday", y, yesterday_log);
            push_day(&mut recent, "Today", today, today_log);
            proof {
                assert(recent@ =~= day_entry("Yesterday"@, y@, yesterday_log@) + day_entry(
                    "Today"@,
                    today@,
                    today_log@,
                ));
            }
        },
        None => {
            push_day(&mut recent, "Yesterday", today, today_log);
            proof {
                assert(recent@ =~= day_entry("Yesterday"@, today@, today_log@));
            }
        },
    }
    if recent.as_str().is_empty() {
        None
    } else {
        let mut out: String = "\n### Recent daily log\n".to_owned();
        out.append(recent.as_str());
        Some(out)
    }
}

/// The block made of its parts.
fn assemble(curated: Option<String>, daily: Option<String>) -> (r: Option<String>)
    ensures
        text::opt_view(r) == block(text::opt_view(curated), text::opt_view(daily)),
{
    if curated.is_none() && daily.is_none() {
        return None;
    }
    let mut out: String = "## Memory\n".to_owned();
    match &curated {
        Some(c) => {
            out.push('\n');
            out.append(c.as_str());
            out.push('\n');
        },
        None => {},
    }
    match &daily {
        Some(d) => {
            out.append(d.as_str());
        },
        None => {},
    }
    proof {
        assert(out@ =~= block(text::opt_view(curated), text::opt_view(daily))->0);
    }
    Some(out)
}

// ---------------------------------------------------------------------------
// Laws
// ---------------------------------------------------------------------------

/// Without recorded weights, as when decay is off, no chunk is dormant and the
/// filtered section is the unfiltered one.
pub proof fn law_filter_without_weights_changes_nothing(
    raw: Seq<char>,
    path: Seq<char>,
    threshold: Score,
    budget: int,
)
    ensures
        filtered(raw, path, Seq::empty(), threshold, budget).0 == curated_part(raw, budget),
{
    let stats: Seq<(String, Score)> = Seq::empty();
    let ls = text::lines(raw);
    let cs = chunking::chunks(ls, MemorySource::Curated, path);
    assert forall|i: int| 1 <= i <= ls.len() implies !#[trigger] line_goes(
        cs,
        stats,
        threshold,
        i,
    ) by {
        assert(!covered(cs, stats, threshold, i, true));
    }
    lemma_staying_len(ls, cs, stats, threshold, ls.len() as int);
}

/// Without recorded weights the filtered block is the plain one, byte for byte.
pub proof fn law_block_without_weights_is_the_plain_one(
    config: MemoryConfig,
    curated: Seq<char>,
    path: Seq<char>,
    today: (int, int, int),
    yesterday_log: Seq<char>,
    today_log: Seq<char>,
)
    ensures
        filtered_block(config, curated, path, Seq::empty(), today, yesterday_log, today_log)
            == plain_block(config, curated, today, yesterday_log, today_log),
{
    law_filter_without_weights_changes_nothing(
        curated,
        path,
        config.decay.dormant_threshold,
        config.injection_budget_bytes as int,
    );
}

/// A chunk that was never recalled is live: its lines stay, and its key is
/// among those of the section.
pub proof fn law_never_recalled_chunks_stay(
    ls: Seq<Seq<char>>,
    cs: Seq<ChunkView>,
    stats: Seq<(String, Score)>,
    threshold: Score,
    i: int,
    ln: int,
)
    requires
        0 <= i < cs.len(),
        consolidate::weight_of(stats, stats.len() as int, keys::chunk_key_spec(cs[i])) is None,
    ensures
        covers(cs[i], ln) ==> !line_goes(cs, stats, threshold, ln),
        live_keys(cs, stats, threshold, cs.len() as int).contains(keys::chunk_key_spec(cs[i])),
{
    if covers(cs[i], ln) {
        assert(covered(cs, stats, threshold, ln, false));
    }
    lemma_live_keys(cs, stats, threshold, cs.len() as int, i);
}

proof fn lemma_live_keys(
    cs: Seq<ChunkView>,
    stats: Seq<(String, Score)>,
    threshold: Score,
    n: int,
    i: int,
)
    requires
        0 <= i < n <= cs.len(),
        !dormant(stats, threshold, keys::chunk_key_spec(cs[i])),
    ensures
        live_keys(cs, stats, threshold, n).contains(keys::chunk_key_spec(cs[i])),
    decreases n,
{
    let prev = live_keys(cs, stats, threshold, n - 1);
    let out = live_keys(cs, stats, threshold, n);
    let k = keys::chunk_key_spec(cs[i]);
    if i < n - 1 {
        lemma_live_keys(cs, stats, threshold, n - 1, i);
        let j = choose|j: int| 0 <= j < prev.len() && prev[j] == k;
        assert(out[j] == k);
    } else if !prev.contains(k) {
        assert(out[prev.len() as int] == k);
    }
}

/// A line that a live chunk covers stays, though dormant ones cover it too.
pub proof fn law_live_lines_stay(
    cs: Seq<ChunkView>,
    stats: Seq<(String, Score)>,
    threshold: Score,
    i: int,
    ln: int,
)
    requires
        0 <= i < cs.len(),
        covers(cs[i], ln),
        !dormant(stats, threshold, keys::chunk_key_spec(cs[i])),
    ensures
        !line_goes(cs, stats, threshold, ln),
{
    assert(covered(cs, stats, threshold, ln, false));
}

/// Filtering never touches the daily section: the block ends with it whatever
/// the curated part is.
pub proof fn law_daily_section_is_untouched(
    curated: Option<Seq<char>>,
    daily: Seq<char>,
)
    ensures
        block(curated, Some(daily)) is Some,
        daily.is_suffix_of(block(curated, Some(daily))->0),
{
    let b = block(curated, Some(daily))->0;
    assert(b.subrange(b.len() - daily.len(), b.len() as int) =~= daily);
}

} // verus!

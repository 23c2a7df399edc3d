//! What of memory stands in the system prompt, in terms of the files.
use vstd::prelude::*;
use vstd::string::*;
use crate::date;
use crate::memory::ambient;
use crate::memory::chunk::{ChunkView, MemorySource};
use crate::memory::chunking;
use crate::memory::config::{MemoryConfig, Score};
use crate::memory::consolidation;
use crate::memory::keys;
use crate::memory::markdown;
use crate::text;

verus! {

// ---------------------------------------------------------------------------
// The parts of the block
// ---------------------------------------------------------------------------

/// The block shows each part that there is: the curated section on lines of its own
/// and after it the daily section, whether the other is there or not. Without either
/// there is no block.
pub proof fn law_the_block_shows_every_part(
    curated: Option<Seq<char>>,
    daily: Option<Seq<char>>,
)
    ensures
        ambient::block(curated, daily) is None <==> curated is None && daily is None,
        curated is Some && daily is Some ==> ambient::block(curated, daily) == Some(
            "## Memory\n"@ + seq!['\n'] + curated->0 + seq!['\n'] + daily->0,
        ),
        curated is Some && daily is None ==> ambient::block(curated, daily) == Some(
            "## Memory\n"@ + seq!['\n'] + curated->0 + seq!['\n'],
        ),
        curated is None && daily is Some ==> ambient::block(curated, daily) == Some(
            "## Memory\n"@ + daily->0,
        ),
        curated is Some ==> text::contains_text(ambient::block(curated, daily)->0, curated->0),
        daily is Some ==> text::contains_text(ambient::block(curated, daily)->0, daily->0),
{
    let none = Seq::<char>::empty();
    let b = ambient::block(curated, daily)->0;
    let head = "## Memory\n"@;
    if let Some(c) = curated {
        let tail = match daily {
            Some(d) => d,
            None => none,
        };
        assert(b =~= head + seq!['\n'] + c + seq!['\n'] + tail);
        if daily is None {
            assert(b =~= head + seq!['\n'] + c + seq!['\n']);
        }
        let n = head.len() as int + 1;
        assert(b.subrange(n, n + c.len()) =~= c);
        assert(text::stands_at(b, c, n));
    } else if daily is Some {
        assert(b =~= head + daily->0);
    }
    if let Some(d) = daily {
        let n = b.len() - d.len();
        assert(b.subrange(n, n + d.len()) =~= d);
        assert(text::stands_at(b, d, n as int));
    }
}

/// The curated section is the curated text without white space at its ends, whole
/// where it fits the budget. A longer one is cut to its head, and a note says so.
pub proof fn law_the_curated_section_is_the_curated_text(raw: Seq<char>, budget: int)
    requires
        0 <= budget,
    ensures
        ({
            let t = text::trim(raw);
            let part = ambient::curated_part(raw, budget);
            &&& part is None <==> t.len() == 0
            &&& t.len() > 0 && text::utf8_len(t) <= budget ==> part == Some(t)
            &&& t.len() > 0 && text::utf8_len(t) > budget ==> exists|h: Seq<char>| #[trigger]
                is_head(t, budget, h) && part == Some(
                    h + "\n\n_(memory truncated — use `memory_search` for the rest)_"@,
                )
        }),
{
    let t = text::trim(raw);
    if t.len() > 0 && text::utf8_len(t) > budget {
        law_the_head_is_the_largest(t, budget);
    }
}

/// Whether `h` is the head of a text that is over its budget: the largest prefix that
/// fits and ends before a line feed, or, where there is none, the largest that fits.
pub open spec fn is_head(s: Seq<char>, budget: int, h: Seq<char>) -> bool {
    &&& h.is_prefix_of(s)
    &&& h.len() < s.len()
    &&& text::utf8_len(h) <= budget
    &&& forall|m: int|
        h.len() < m < s.len() && #[trigger] s[m] == '\n' ==> text::utf8_len(s.take(m)) > budget
    &&& !(h.len() > 0 && s[h.len() as int] == '\n') ==> text::utf8_len(s.take(h.len() as int + 1))
        > budget
}

/// The head of a text that is over its budget is the largest there is.
pub proof fn law_the_head_is_the_largest(s: Seq<char>, budget: int)
    requires
        0 <= budget < text::utf8_len(s),
    ensures
        is_head(s, budget, markdown::head(s, budget)),
{
    markdown::law_head_fits(s, budget);
    let h = markdown::head(s, budget);
    let k = markdown::chars_within(s, budget) as int;
    markdown::lemma_chars_within(s, budget);
    markdown::lemma_last_newline(s, k);
    assert forall|m: int| h.len() < m < s.len() && #[trigger] s[m] == '\n' implies text::utf8_len(
        s.take(m),
    ) > budget by {
        if m > k {
            assert(s.take(m).take(k + 1) =~= s.take(k + 1));
            text::lemma_utf8_len_take(s.take(m), k + 1);
        }
    }
}

/// The daily section shows the log of the day before and then that of today, each
/// under its date, and passes over a log without text. Without either there is no
/// section.
pub proof fn law_the_daily_section_shows_both_days(
    today: (int, int, int),
    yesterday: (int, int, int),
    yesterday_log: Seq<char>,
    today_log: Seq<char>,
)
    requires
        date::day_before(today.0, today.1, today.2) == Some(yesterday),
    ensures
        ({
            let y = text::trim(yesterday_log);
            let t = text::trim(today_log);
            let part = ambient::daily_part(today, yesterday_log, today_log);
            let before = "\n#### "@ + "Yesterday"@ + " ("@ + date::written(
                yesterday.0,
                yesterday.1,
                yesterday.2,
            ) + ")\n"@ + y + seq!['\n'];
            let now = "\n#### "@ + "Today"@ + " ("@ + date::written(today.0, today.1, today.2)
                + ")\n"@ + t + seq!['\n'];
            let head = "\n### Recent daily log\n"@;
            &&& y.len() == 0 && t.len() == 0 ==> part is None
            &&& y.len() > 0 && t.len() == 0 ==> part == Some(head + before)
            &&& y.len() == 0 && t.len() > 0 ==> part == Some(head + now)
            &&& y.len() > 0 && t.len() > 0 ==> part == Some(head + before + now)
        }),
{
    let none = Seq::<char>::empty();
    let part = ambient::daily_part(today, yesterday_log, today_log);
    let a = ambient::day_entry("Yesterday"@, yesterday, yesterday_log);
    let b = ambient::day_entry("Today"@, today, today_log);
    let head = "\n### Recent daily log\n"@;
    assert(head + (a + b) =~= head + a + b);
    assert(none + b =~= b);
    assert(a + none =~= a);
    assert(none + none =~= none);
}

/// The day before is the one with the number before in its month, the last of the
/// month before, or the last of the year before.
pub proof fn law_the_day_before_is_the_day_before(y: int, m: int, d: int)
    requires
        date::is_date(y, m, d),
    ensures
        d > 1 ==> date::day_before(y, m, d) == Some((y, m, d - 1)),
        d == 1 && m > 1 ==> date::day_before(y, m, d) == Some(
            (y, m - 1, date::days_in_month(y, m - 1) as int),
        ),
        d == 1 && m == 1 && y > date::MIN_YEAR ==> date::day_before(y, m, d) == Some((y - 1, 12int, 31int)),
{
}

/// With memory on, the prompt holds the whole curated text where it fits its budget,
/// whatever the logs say, and the log of today. With memory off it holds nothing.
pub proof fn law_the_prompt_holds_the_curated_text_and_the_log(
    config: MemoryConfig,
    curated: Seq<char>,
    today: (int, int, int),
    yesterday_log: Seq<char>,
    today_log: Seq<char>,
)
    ensures
        ({
            let b = ambient::plain_block(config, curated, today, yesterday_log, today_log);
            let c = text::trim(curated);
            let t = text::trim(today_log);
            &&& !config.enabled ==> b is None
            &&& config.enabled && c.len() > 0 && text::utf8_len(c) <= config.injection_budget_bytes
                ==> b is Some && text::contains_text(b->0, c)
            &&& config.enabled && t.len() > 0 ==> b is Some && text::contains_text(b->0, t)
        }),
{
    let c = text::trim(curated);
    let t = text::trim(today_log);
    let part = ambient::curated_part(curated, config.injection_budget_bytes as int);
    let daily = ambient::daily_part(today, yesterday_log, today_log);
    let b = ambient::plain_block(config, curated, today, yesterday_log, today_log);
    law_the_block_shows_every_part(part, daily);
    if config.enabled && t.len() > 0 {
        lemma_todays_log_is_shown(today, yesterday_log, today_log);
        lemma_contains_within(b->0, daily->0, t);
    }
}

proof fn lemma_contains_within(s: Seq<char>, d: Seq<char>, t: Seq<char>)
    requires
        text::contains_text(s, d),
        text::contains_text(d, t),
    ensures
        text::contains_text(s, t),
{
    let i = choose|i: int| text::stands_at(s, d, i);
    let n = choose|n: int| text::stands_at(d, t, n);
    assert(s.subrange(i + n, i + n + t.len()) =~= s.subrange(i, i + d.len()).subrange(
        n,
        n + t.len(),
    ));
    assert(text::stands_at(s, t, i + n));
}

proof fn lemma_todays_log_is_shown(
    today: (int, int, int),
    yesterday_log: Seq<char>,
    today_log: Seq<char>,
)
    requires
        text::trim(today_log).len() > 0,
    ensures
        ambient::daily_part(today, yesterday_log, today_log) is Some,
        text::contains_text(
            ambient::daily_part(today, yesterday_log, today_log)->0,
            text::trim(today_log),
        ),
{
    let t = text::trim(today_log);
    let label = if date::day_before(today.0, today.1, today.2) is Some {
        "Today"@
    } else {
        "Yesterday"@
    };
    let entry = ambient::day_entry(label, today, today_log);
    let d = ambient::daily_part(today, yesterday_log, today_log)->0;
    assert(d =~= d.take(d.len() - entry.len()) + entry);
    let m = entry.len() - t.len() - 1;
    assert(entry.subrange(m, m + t.len()) =~= t);
    let n = d.len() - t.len() - 1;
    assert(d.subrange(n, n + t.len()) =~= entry.subrange(m, m + t.len()));
    assert(text::stands_at(d, t, n as int));
}

// ---------------------------------------------------------------------------
// Dormant chunks
// ---------------------------------------------------------------------------

/// A chunk is dormant just where the last weight that is recorded of it is below the
/// threshold; one without a weight is not.
pub proof fn law_a_chunk_is_dormant_below_the_threshold(
    stats: Seq<(String, Score)>,
    threshold: Score,
    key: Seq<char>,
    i: int,
)
    requires
        -1 <= i < stats.len(),
        i >= 0 ==> stats[i].0@ == key,
        forall|j: int| i < j < stats.len() ==> (#[trigger] stats[j]).0@ != key,
    ensures
        ambient::dormant(stats, threshold, key) <==> i >= 0 && stats[i].1 < threshold,
{
    consolidation::law_the_last_weight_of_a_key_counts(stats, key, i);
}

/// Whether a chunk of those lines covers a line, counted from 0.
pub open spec fn holds_line(c: ChunkView, i: int) -> bool {
    c.line_start <= i + 1 <= c.line_end
}

/// Whether a line sleeps: some chunk covers it, and every chunk that does is dormant.
pub open spec fn sleeps(
    cs: Seq<ChunkView>,
    stats: Seq<(String, Score)>,
    threshold: Score,
    i: int,
) -> bool {
    &&& exists|c: int| 0 <= c < cs.len() && holds_line(#[trigger] cs[c], i)
    &&& forall|c: int|
        0 <= c < cs.len() && holds_line(#[trigger] cs[c], i) ==> ambient::dormant(
            stats,
            threshold,
            keys::chunk_key_spec(cs[c]),
        )
}

/// Whether `kept` holds the lines at those places, in order, and these are the places
/// of the lines that do not sleep.
pub open spec fn keeps_awake(
    ls: Seq<Seq<char>>,
    cs: Seq<ChunkView>,
    stats: Seq<(String, Score)>,
    threshold: Score,
    kept: Seq<Seq<char>>,
    at: Seq<int>,
) -> bool {
    &&& at.len() == kept.len()
    &&& forall|a: int| 0 <= a < at.len() ==> 0 <= (#[trigger] at[a]) < ls.len() && kept[a] == ls[at[a]]
    &&& forall|a: int, b: int| 0 <= a < b < at.len() ==> #[trigger] at[a] < #[trigger] at[b]
    &&& forall|i: int|
        0 <= i < ls.len() ==> (#[trigger] sleeps(cs, stats, threshold, i) <==> !at.contains(i))
}

/// The filtered section is the curated text without the lines that sleep, and those
/// alone: the others stay as they are and in order. Where no line sleeps it is the
/// text itself.
pub proof fn law_just_the_sleeping_lines_go(
    raw: Seq<char>,
    path: Seq<char>,
    stats: Seq<(String, Score)>,
    threshold: Score,
    budget: int,
)
    ensures
        ({
            let ls = text::lines(raw);
            let cs = chunking::chunks(ls, MemorySource::Curated, path);
            let part = ambient::filtered(raw, path, stats, threshold, budget).0;
            &&& text::trim(raw).len() == 0 ==> part is None
            &&& text::trim(raw).len() > 0 && (forall|i: int|
                0 <= i < ls.len() ==> !#[trigger] sleeps(cs, stats, threshold, i)) ==> part
                == ambient::curated_part(raw, budget)
            &&& text::trim(raw).len() > 0 && (exists|i: int|
                0 <= i < ls.len() && #[trigger] sleeps(cs, stats, threshold, i)) ==> exists|
                kept: Seq<Seq<char>>,
                at: Seq<int>,
            | #[trigger]
                keeps_awake(ls, cs, stats, threshold, kept, at) && part == ambient::curated_part(
                    text::join(kept, seq!['\n']),
                    budget,
                )
        }),
{
    let ls = text::lines(raw);
    let cs = chunking::chunks(ls, MemorySource::Curated, path);
    let n = ls.len() as int;
    let kept = ambient::staying(ls, cs, stats, threshold, n);
    lemma_keeps_awake(ls, cs, stats, threshold, n);
    assert(ls.take(n) =~= ls);
    let at = choose|at: Seq<int>| #[trigger] keeps_awake(ls, cs, stats, threshold, kept, at);
    if kept.len() == n {
        lemma_all_places(at, n);
        assert forall|i: int| 0 <= i < n implies !#[trigger] sleeps(cs, stats, threshold, i) by {
            assert(at[i] == i);
        }
    } else if forall|i: int| 0 <= i < n ==> !#[trigger] sleeps(cs, stats, threshold, i) {
        lemma_too_few_places(at, n);
        let i = choose|i: int| 0 <= i < n && !at.contains(i);
        assert(sleeps(cs, stats, threshold, i));
    }
}

/// As many rising places as there are lines are all of them.
proof fn lemma_all_places(at: Seq<int>, n: int)
    requires
        at.len() == n,
        forall|a: int| 0 <= a < at.len() ==> 0 <= #[trigger] at[a] < n,
        forall|a: int, b: int| 0 <= a < b < at.len() ==> #[trigger] at[a] < #[trigger] at[b],
    ensures
        forall|i: int| 0 <= i < n ==> #[trigger] at[i] == i,
{
    assert forall|i: int| 0 <= i < n implies #[trigger] at[i] == i by {
        lemma_places_rise(at, 0, i);
        lemma_places_rise(at, i, n - 1);
    }
}

proof fn lemma_places_rise(at: Seq<int>, a: int, b: int)
    requires
        0 <= a <= b < at.len(),
        forall|x: int, y: int| 0 <= x < y < at.len() ==> #[trigger] at[x] < #[trigger] at[y],
    ensures
        at[a] + (b - a) <= at[b],
    decreases b - a,
{
    if a < b {
        lemma_places_rise(at, a, b - 1);
        assert(at[b - 1] < at[b]);
    }
}

/// Fewer rising places than there are lines leave one out.
proof fn lemma_too_few_places(at: Seq<int>, n: int)
    requires
        0 <= n,
        at.len() != n,
        forall|a: int| 0 <= a < at.len() ==> 0 <= #[trigger] at[a] < n,
        forall|a: int, b: int| 0 <= a < b < at.len() ==> #[trigger] at[a] < #[trigger] at[b],
    ensures
        exists|i: int| 0 <= i < n && !at.contains(i),
{
    if at.len() > 0 {
        lemma_places_rise(at, 0, at.len() - 1);
    }
    if forall|i: int| 0 <= i < n ==> at.contains(i) {
        if n > 0 {
            lemma_place_found(at, n, n - 1);
        }
    }
}

proof fn lemma_place_found(at: Seq<int>, n: int, i: int)
    requires
        0 <= i < n,
        forall|a: int| 0 <= a < at.len() ==> 0 <= #[trigger] at[a] < n,
        forall|a: int, b: int| 0 <= a < b < at.len() ==> #[trigger] at[a] < #[trigger] at[b],
        forall|k: int| 0 <= k < n ==> at.contains(k),
    ensures
        i < at.len(),
        at[i] == i,
    decreases i,
{
    assert(at.contains(i));
    let a = choose|a: int| 0 <= a < at.len() && at[a] == i;
    lemma_places_rise(at, 0, a);
    if i > 0 {
        lemma_place_found(at, n, i - 1);
        if a < i {
            assert(at[a] <= at[i - 1]);
        }
    }
}

proof fn lemma_sleeps(
    cs: Seq<ChunkView>,
    stats: Seq<(String, Score)>,
    threshold: Score,
    i: int,
)
    ensures
        sleeps(cs, stats, threshold, i) <==> ambient::line_goes(cs, stats, threshold, i + 1),
{
    if sleeps(cs, stats, threshold, i) {
        let c = choose|c: int| 0 <= c < cs.len() && holds_line(#[trigger] cs[c], i);
        assert(ambient::covers(cs[c], i + 1));
        assert(ambient::covered(cs, stats, threshold, i + 1, true));
        if ambient::covered(cs, stats, threshold, i + 1, false) {
            let e = choose|e: int|
                0 <= e < cs.len() && ambient::covers(#[trigger] cs[e], i + 1) && ambient::dormant(
                    stats,
                    threshold,
                    keys::chunk_key_spec(cs[e]),
                ) == false;
            assert(holds_line(cs[e], i));
        }
    }
    if ambient::line_goes(cs, stats, threshold, i + 1) {
        let c = choose|c: int|
            0 <= c < cs.len() && ambient::covers(#[trigger] cs[c], i + 1) && ambient::dormant(
                stats,
                threshold,
                keys::chunk_key_spec(cs[c]),
            ) == true;
        assert(holds_line(cs[c], i));
        assert forall|e: int| 0 <= e < cs.len() && holds_line(#[trigger] cs[e], i) implies ambient::dormant(
            stats,
            threshold,
            keys::chunk_key_spec(cs[e]),
        ) by {
            assert(ambient::covers(cs[e], i + 1));
        }
    }
}

proof fn lemma_keeps_awake(
    ls: Seq<Seq<char>>,
    cs: Seq<ChunkView>,
    stats: Seq<(String, Score)>,
    threshold: Score,
    n: int,
)
    requires
        0 <= n <= ls.len(),
    ensures
        exists|at: Seq<int>| #[trigger]
            keeps_awake(
                ls.take(n),
                cs,
                stats,
                threshold,
                ambient::staying(ls, cs, stats, threshold, n),
                at,
            ),
    decreases n,
{
    let out = ambient::staying(ls, cs, stats, threshold, n);
    let now = ls.take(n);
    if n == 0 {
        assert(keeps_awake(now, cs, stats, threshold, out, Seq::<int>::empty()));
    } else {
        lemma_keeps_awake(ls, cs, stats, threshold, n - 1);
        let prev = ambient::staying(ls, cs, stats, threshold, n - 1);
        let before = ls.take(n - 1);
        let at = choose|at: Seq<int>| #[trigger]
            keeps_awake(before, cs, stats, threshold, prev, at);
        lemma_sleeps(cs, stats, threshold, n - 1);
        assert(forall|a: int| 0 <= a < at.len() ==> now[#[trigger] at[a]] == before[at[a]]);
        if sleeps(cs, stats, threshold, n - 1) {
            assert(out == prev);
            assert forall|i: int| 0 <= i < now.len() implies (#[trigger] sleeps(
                cs,
                stats,
                threshold,
                i,
            ) <==> !at.contains(i)) by {
                if i == n - 1 && at.contains(i) {
                    let a = choose|a: int| 0 <= a < at.len() && at[a] == i;
                    assert(at[a] < n - 1);
                }
            }
            assert(keeps_awake(now, cs, stats, threshold, out, at));
        } else {
            let next = at.push(n - 1);
            assert(out == prev.push(ls[n - 1]));
            assert forall|i: int| 0 <= i < now.len() implies (#[trigger] sleeps(
                cs,
                stats,
                threshold,
                i,
            ) <==> !next.contains(i)) by {
                if i == n - 1 {
                    assert(next[at.len() as int] == i);
                } else {
                    assert(sleeps(cs, stats, threshold, i) <==> !at.contains(i));
                    if at.contains(i) {
                        let a = choose|a: int| 0 <= a < at.len() && at[a] == i;
                        assert(next[a] == i);
                    }
                    if next.contains(i) {
                        let a = choose|a: int| 0 <= a < next.len() && next[a] == i;
                        assert(at[a] == i);
                    }
                }
            }
            assert forall|a: int| 0 <= a < next.len() implies 0 <= (#[trigger] next[a]) < now.len()
                && out[a] == now[next[a]] by {
                if a < at.len() {
                    assert(next[a] == at[a]);
                }
            }
            assert(keeps_awake(now, cs, stats, threshold, out, next));
        }
    }
}

/// The keys that come with a filtered section are those of the chunks that are not
/// dormant, each once; without a section there are none.
pub proof fn law_the_keys_are_those_of_the_chunks_that_are_awake(
    raw: Seq<char>,
    path: Seq<char>,
    stats: Seq<(String, Score)>,
    threshold: Score,
    budget: int,
    k: Seq<char>,
)
    ensures
        ({
            let cs = chunking::chunks(text::lines(raw), MemorySource::Curated, path);
            let f = ambient::filtered(raw, path, stats, threshold, budget);
            &&& f.0 is None ==> f.1.len() == 0
            &&& f.1.no_duplicates()
            &&& f.0 is Some ==> (f.1.contains(k) <==> exists|i: int|
                0 <= i < cs.len() && keys::chunk_key_spec(#[trigger] cs[i]) == k
                    && !ambient::dormant(stats, threshold, k))
        }),
{
    let cs = chunking::chunks(text::lines(raw), MemorySource::Curated, path);
    lemma_awake_keys(cs, stats, threshold, cs.len() as int, k);
}

proof fn lemma_awake_keys(
    cs: Seq<ChunkView>,
    stats: Seq<(String, Score)>,
    threshold: Score,
    n: int,
    k: Seq<char>,
)
    requires
        0 <= n <= cs.len(),
    ensures
        ambient::live_keys(cs, stats, threshold, n).no_duplicates(),
        ambient::live_keys(cs, stats, threshold, n).contains(k) <==> exists|i: int|
            0 <= i < n && keys::chunk_key_spec(#[trigger] cs[i]) == k && !ambient::dormant(
                stats,
                threshold,
                k,
            ),
    decreases n,
{
    if n > 0 {
        lemma_awake_keys(cs, stats, threshold, n - 1, k);
        let prev = ambient::live_keys(cs, stats, threshold, n - 1);
        let out = ambient::live_keys(cs, stats, threshold, n);
        if prev.contains(k) {
            let a = choose|a: int| 0 <= a < prev.len() && prev[a] == k;
            assert(out[a] == k);
        }
        if out != prev {
            assert(out[prev.len() as int] == keys::chunk_key_spec(cs[n - 1]));
        }
        if out.contains(k) && !prev.contains(k) {
            let a = choose|a: int| 0 <= a < out.len() && out[a] == k;
            if a < prev.len() {
                assert(prev[a] == k);
            }
            assert(keys::chunk_key_spec(cs[n - 1]) == k);
        }
    }
}

/// The block of a prompt holds what its parts are, with dormant chunks left out or not,
/// and there is none where memory is off.
pub proof fn law_a_block_is_made_of_its_parts(
    config: MemoryConfig,
    curated: Seq<char>,
    path: Seq<char>,
    stats: Seq<(String, Score)>,
    today: (int, int, int),
    yesterday_log: Seq<char>,
    today_log: Seq<char>,
)
    ensures
        ({
            let budget = config.injection_budget_bytes as int;
            let daily = ambient::daily_part(today, yesterday_log, today_log);
            let whole = ambient::curated_part(curated, budget);
            let awake = ambient::filtered(
                curated,
                path,
                stats,
                config.decay.dormant_threshold,
                budget,
            ).0;
            let p = ambient::plain_block(config, curated, today, yesterday_log, today_log);
            let f = ambient::filtered_block(
                config,
                curated,
                path,
                stats,
                today,
                yesterday_log,
                today_log,
            );
            &&& !config.enabled ==> p is None && f is None
            &&& config.enabled && whole is Some ==> p is Some && text::contains_text(p->0, whole->0)
            &&& config.enabled && awake is Some ==> f is Some && text::contains_text(f->0, awake->0)
            &&& config.enabled && daily is Some ==> p is Some && text::contains_text(p->0, daily->0)
                && f is Some && text::contains_text(f->0, daily->0)
            &&& whole is None && daily is None ==> p is None
            &&& awake is None && daily is None ==> f is None
        }),
{
    let budget = config.injection_budget_bytes as int;
    let daily = ambient::daily_part(today, yesterday_log, today_log);
    let whole = ambient::curated_part(curated, budget);
    let awake = ambient::filtered(
        curated,
        path,
        stats,
        config.decay.dormant_threshold,
        budget,
    ).0;
    law_the_block_shows_every_part(whole, daily);
    law_the_block_shows_every_part(awake, daily);
}

} // verus!

//! Stable identities of chunks.
use vstd::prelude::*;
use vstd::string::*;
use vstd::utf8::*;
use crate::date;
use crate::date::Date;
use crate::lines;
use crate::memory::chunk::{ChunkView, MemoryChunk, MemorySource};
use crate::number;
use crate::number::hex_text;
use crate::text;
use crate::text::{char_width, chars_of, join_all, lines_of, runs_of, text_starts_with, CharClass};

verus! {

/// The SHA-256 digest of a byte sequence.
pub uninterp spec fn sha256(bytes: Seq<u8>) -> Seq<u8>;

/// `sha2::Sha256::digest`. The digest is named; it has 32 bytes.
#[verifier::external_body]
fn sha256_digest(bytes: &[u8]) -> (r: Vec<u8>)
    ensures
        r@ == sha256(bytes@),
        r@.len() == 32,
{
    <sha2::Sha256 as sha2::Digest>::digest(bytes).to_vec()
}

/// The words of a line with one blank between neighbours: without white space at
/// either end, and with each run of white space inside as one blank.
pub open spec fn collapsed(line: Seq<char>) -> Seq<char> {
    text::join(text::runs(line, CharClass::NonSpace), seq![' '])
}

/// The first `n` lines, each collapsed, without those that are blank.
pub open spec fn kept_lines(ls: Seq<Seq<char>>, n: int) -> Seq<Seq<char>>
    decreases n,
{
    if n <= 0 {
        Seq::empty()
    } else if collapsed(ls[n - 1]).len() == 0 {
        kept_lines(ls, n - 1)
    } else {
        kept_lines(ls, n - 1).push(collapsed(ls[n - 1]))
    }
}

/// `s` with every line trimmed, each run of white space inside a line as one
/// blank, and blank lines dropped.
pub open spec fn normalized(s: Seq<char>) -> Seq<char> {
    text::join(kept_lines(text::lines(s), text::lines(s).len() as int), seq!['\n'])
}

/// The first eight bytes of the digest of the normalised text, in hexadecimal.
pub open spec fn text_hash(s: Seq<char>) -> Seq<char> {
    number::hex(sha256(encode_utf8(normalized(s))).take(8))
}

/// The identity of a fact whatever file it stands in: its heading and the hash
/// of its text.
pub open spec fn content_key_spec(heading: Option<Seq<char>>, body: Seq<char>) -> Seq<char> {
    (match heading {
        Some(h) => h,
        None => Seq::empty(),
    }) + seq![':'] + text_hash(body)
}

/// The text that stands for a source.
pub open spec fn source_tag(source: MemorySource) -> Seq<char> {
    match source {
        MemorySource::Curated => "curated"@,
        MemorySource::Daily { date } => "daily:"@ + date::written(date@.0, date@.1, date@.2),
    }
}

/// The identity of a fact in its file.
pub open spec fn chunk_key_spec(c: ChunkView) -> Seq<char> {
    source_tag(c.source) + seq![':'] + content_key_spec(c.heading, c.text)
}

/// `s` with every line trimmed, each run of white space inside a line as one
/// blank, and blank lines dropped.
pub fn normalize_text(s: &str) -> (r: String)
    ensures
        r@ == normalized(s@),
{
    let ls: Vec<String> = lines_of(s);
    let ghost lv = text::views(ls@);
    let mut out: Vec<String> = Vec::new();
    let mut i: usize = 0;
    proof {
        reveal_strlit("\n");
        assert("\n"@ =~= seq!['\n']);
        reveal_strlit(" ");
        assert(" "@ =~= seq![' ']);
        assert(text::views(out@) =~= kept_lines(lv, 0));
    }
    while i < ls.len()
        invariant
            i <= ls@.len(),
            lv == text::views(ls@),
            " "@ == seq![' '],
            text::views(out@) == kept_lines(lv, i as int),
        decreases ls@.len() - i,
    {
        let words: Vec<String> = runs_of(ls[i].as_str(), CharClass::NonSpace);
        let t: String = join_all(&words, " ");
        let ghost before = text::views(out@);
        assert(lv[i as int] == ls@[i as int]@);
        if !t.as_str().is_empty() {
            out.push(t);
            assert(text::views(out@) =~= before.push(t@));
        }
        i = i + 1;
    }
    join_all(&out, "\n")
}

/// The identity of a fact whatever file it stands in.
pub fn content_key(c: &MemoryChunk) -> (r: String)
    ensures
        r@ == content_key_spec(c@.heading, c@.text),
{
    let normal: String = normalize_text(c.text.as_str());
    let digest: Vec<u8> = sha256_digest(normal.as_str().as_bytes());
    let hash: String = hex_text(&digest, 8);
    let mut out: String = match &c.heading {
        Some(h) => h.clone(),
        None => String::new(),
    };
    out.push(':');
    out.append(hash.as_str());
    proof {
        assert(out@ =~= content_key_spec(c@.heading, c@.text));
    }
    out
}

/// The text that stands for a source in keys and in the index.
pub fn source_to_str(source: &MemorySource) -> (r: String)
    ensures
        r@ == source_tag(*source),
{
    match source {
        MemorySource::Curated => "curated".to_owned(),
        MemorySource::Daily { date } => {
            let mut s: String = "daily:".to_owned();
            let d: String = date.to_text();
            s.append(d.as_str());
            s
        },
    }
}

/// The source that a text stands for: a daily log where it is `daily:` and a
/// date, else the curated file.
pub open spec fn source_of_tag(s: Seq<char>, r: MemorySource) -> bool {
    if text::starts_with(s, "daily:"@) && date::date_of_text(s.skip(6)) is Some {
        match r {
            MemorySource::Daily { date } => date::date_of_text(s.skip(6)) == Some(date@),
            MemorySource::Curated => false,
        }
    } else {
        r == MemorySource::Curated
    }
}

/// The source that a text stands for.
pub fn source_from_str(s: &str) -> (r: MemorySource)
    ensures
        source_of_tag(s@, r),
        forall|y: int, m: int, d: int|
            date::is_date(y, m, d) && 0 <= y <= 9999 && s@ == "daily:"@ + #[trigger] date::iso_date(
                y,
                m,
                d,
            ) ==> (match r {
                MemorySource::Daily { date } => date@ == (y, m, d),
                MemorySource::Curated => false,
            }),
{
    proof {
        reveal_strlit("daily:");
    }
    if text_starts_with(s, "daily:") {
        let v: Vec<char> = chars_of(s);
        let rest: String = text::string_of(&v, 6, v.len());
        proof {
            assert(rest@ =~= s@.skip(6));
            assert forall|y: int, m: int, d: int|
                s@ == "daily:"@ + #[trigger] date::iso_date(y, m, d) implies rest@
                == date::iso_date(y, m, d) by {
                assert(s@.skip(6) =~= date::iso_date(y, m, d));
            }
        }
        match Date::parse(rest.as_str()) {
            Some(date) => MemorySource::Daily { date },
            None => MemorySource::Curated,
        }
    } else {
        proof {
            assert forall|y: int, m: int, d: int|
                s@ == "daily:"@ + #[trigger] date::iso_date(y, m, d) implies false by {
                assert(s@.take(6) =~= "daily:"@);
            }
        }
        MemorySource::Curated
    }
}

/// The identity of a fact in its file: its source, its heading and the hash of
/// its text. It stays when lines shift or white space changes, and changes with
/// the content.
pub fn chunk_key(c: &MemoryChunk) -> (r: String)
    ensures
        r@ == chunk_key_spec(c@),
{
    let mut out: String = source_to_str(&c.source);
    out.push(':');
    let k: String = content_key(c);
    out.append(k.as_str());
    proof {
        assert(out@ =~= chunk_key_spec(c@));
    }
    out
}

/// The number of characters that take exactly `bytes` bytes at the start of
/// `s`, if there is such a number.
pub open spec fn chars_taking(s: Seq<char>, bytes: int) -> Option<nat>
    decreases s.len(),
{
    if bytes == 0 {
        Some(0)
    } else if s.len() == 0 || bytes < 0 {
        None
    } else {
        match chars_taking(s.skip(1), bytes - text::utf8_width(s[0])) {
            Some(n) => Some(n + 1),
            None => None,
        }
    }
}

/// The content part of a key: what follows `daily:`, a date of ten bytes and a
/// colon, or what follows `curated:`.
pub open spec fn content_part(key: Seq<char>) -> Seq<char> {
    if text::starts_with(key, "daily:"@) {
        let rest = key.skip(6);
        match chars_taking(rest, 11) {
            Some(n) => rest.skip(n as int),
            None => rest,
        }
    } else if text::starts_with(key, "curated:"@) {
        key.skip(8)
    } else {
        key
    }
}

/// The content part of a chunk key.
pub fn content_key_of(key: &str) -> (r: &str)
    ensures
        r@ == content_part(key@),
{
    proof {
        reveal_strlit("daily:");
        reveal_strlit("curated:");
    }
    let v: Vec<char> = chars_of(key);
    let len: usize = v.len();
    if text_starts_with(key, "daily:") {
        let ghost rest = v@.skip(6);
        let mut i: usize = 6;
        let mut left: usize = 11;
        let mut fits: bool = true;
        while left > 0 && fits
            invariant
                6 <= i <= v@.len(),
                len == v@.len(),
                left <= 11,
                rest == v@.skip(6),
                fits ==> chars_taking(rest, 11) == (match chars_taking(
                    v@.skip(i as int),
                    left as int,
                ) {
                    Some(n) => Some((n + (i - 6)) as nat),
                    None => None,
                }),
                !fits ==> chars_taking(rest, 11) is None,
            decreases len - i + (if fits { 1int } else { 0int }),
        {
            if i < len {
                let w: usize = char_width(v[i]);
                proof {
                    assert(v@.skip(i as int).skip(1) =~= v@.skip(i + 1));
                }
                if w <= left {
                    left = left - w;
                    i = i + 1;
                } else {
                    assert(chars_taking(v@.skip(i + 1), left - w) is None);
                    fits = false;
                }
            } else {
                fits = false;
            }
        }
        if fits {
            proof {
                assert(key@.subrange(i as int, len as int) =~= rest.skip(i - 6));
            }
            key.substring_char(i, len)
        } else {
            proof {
                assert(key@.subrange(6, len as int) =~= rest);
            }
            key.substring_char(6, len)
        }
    } else if text_starts_with(key, "curated:") {
        proof {
            assert(key@.subrange(8, len as int) =~= key@.skip(8));
        }
        key.substring_char(8, len)
    } else {
        key
    }
}

proof fn lemma_chars_taking_ascii(s: Seq<char>, n: int)
    requires
        0 <= n <= s.len(),
        forall|i: int| 0 <= i < n ==> ((#[trigger] s[i]) as u32) < 128,
    ensures
        chars_taking(s, n) == Some(n as nat),
    decreases n,
{
    if n > 0 {
        assert forall|i: int| 0 <= i < n - 1 implies ((#[trigger] s.skip(1)[i]) as u32) < 128 by {
            assert(s.skip(1)[i] == s[i + 1]);
        }
        assert((s[0] as u32) < 128);
        lemma_chars_taking_ascii(s.skip(1), n - 1);
    }
}

/// The content part of a chunk's key is the key of its content, for curated
/// chunks and for daily ones whose year has four digits.
pub proof fn law_content_part_of_chunk_key(c: ChunkView)
    requires
        match c.source {
            MemorySource::Curated => true,
            MemorySource::Daily { date } => date::is_date(date@.0, date@.1, date@.2) && 0 <= date@.0
                <= 9999,
        },
    ensures
        content_part(chunk_key_spec(c)) == content_key_spec(c.heading, c.text),
{
    reveal_strlit("daily:");
    reveal_strlit("curated");
    reveal_strlit("curated:");
    let k = content_key_spec(c.heading, c.text);
    let key = chunk_key_spec(c);
    match c.source {
        MemorySource::Curated => {
            assert(key[0] == 'c');
            assert(key.take(6)[0] == 'c');
            assert("daily:"@[0] == 'd');
            assert(key.take(8) =~= "curated:"@);
            assert(key.skip(8) =~= k);
        },
        MemorySource::Daily { date } => {
            date::lemma_iso_date_len(date@.0, date@.1, date@.2);
            let iso = date::iso_date(date@.0, date@.1, date@.2);
            assert(key.take(6) =~= "daily:"@);
            let rest = key.skip(6);
            assert(rest =~= iso + seq![':'] + k);
            assert forall|i: int| 0 <= i < 11 implies ((#[trigger] rest[i]) as u32) < 128 by {
                if i < 10 {
                    assert(rest[i] == iso[i]);
                } else {
                    assert(rest[i] == ':');
                }
            }
            lemma_chars_taking_ascii(rest, 11);
            assert(rest.skip(11) =~= k);
        },
    }
}

/// A chunk's key rests on its source, its heading and its normalised text
/// alone: not on its position, its path or its line numbers, nor on how much
/// white space stands between its words, at the ends of its lines or in blank
/// lines.
pub proof fn law_key_ignores_position_and_spacing(a: ChunkView, b: ChunkView)
    requires
        a.source == b.source,
        a.heading == b.heading,
        normalized(a.text) == normalized(b.text),
    ensures
        chunk_key_spec(a) == chunk_key_spec(b),
{
}

/// Two chunks of one heading and one text share their content key whatever
/// files they stand in.
pub proof fn law_content_key_ignores_source(a: ChunkView, b: ChunkView)
    requires
        a.heading == b.heading,
        normalized(a.text) == normalized(b.text),
    ensures
        content_key_spec(a.heading, a.text) == content_key_spec(b.heading, b.text),
{
}

/// What collapsing a line gives, where it gives anything, is a line that begins
/// and ends with something other than white space, and collapses to itself.
proof fn lemma_collapsed(line: Seq<char>)
    requires
        forall|j: int| 0 <= j < line.len() ==> #[trigger] line[j] != '\n',
    ensures
        ({
            let t = collapsed(line);
            t.len() > 0 ==> lines::plain(t) && lines::snug(t) && collapsed(t) == t
        }),
{
    let class = CharClass::NonSpace;
    let ws = text::runs(line, class);
    let t = collapsed(line);
    assert forall|i: int| 0 <= i < ws.len() implies is_word(#[trigger] ws[i]) by {
        text::lemma_runs_are_runs(line, class, i);
    }
    if ws.len() > 0 {
        lemma_words_joined(ws);
        assert(is_word(ws[0]) && is_word(ws.last()));
        lines::lemma_joined_ends(ws, seq![' ']);
        assert(text::in_class(class, ws[0][0]));
        let w = ws.last();
        assert(text::in_class(class, w[w.len() - 1]));
        assert(text::is_space('\r'));
    }
}

/// Whether a text is a word: not empty, and without white space.
pub open spec fn is_word(w: Seq<char>) -> bool {
    &&& w.len() > 0
    &&& forall|j: int| 0 <= j < w.len() ==> text::in_class(CharClass::NonSpace, #[trigger] w[j])
}

/// Words that are joined by single blanks are the words of the result, which
/// holds no line feed.
pub proof fn lemma_words_joined(ws: Seq<Seq<char>>)
    requires
        forall|i: int| 0 <= i < ws.len() ==> is_word(#[trigger] ws[i]),
    ensures
        text::runs(text::join(ws, seq![' ']), CharClass::NonSpace) == ws,
        forall|j: int|
            0 <= j < text::join(ws, seq![' ']).len() ==> #[trigger] text::join(ws, seq![' '])[j]
                != '\n',
    decreases ws.len(),
{
    let class = CharClass::NonSpace;
    let sep = seq![' '];
    let t = text::join(ws, sep);
    assert(text::is_space(' ') && text::is_space('\n'));
    if ws.len() == 1 {
        let w = ws[0];
        let none = Seq::<char>::empty();
        text::lemma_runs_first(w, none, class);
        assert(w + none =~= w);
        assert(text::runs(none, class) =~= Seq::<Seq<char>>::empty());
        assert(seq![w] + Seq::<Seq<char>>::empty() =~= ws);
        assert forall|j: int| 0 <= j < t.len() implies #[trigger] t[j] != '\n' by {
            assert(text::in_class(class, w[j]));
        }
    } else if ws.len() > 1 {
        let w = ws[0];
        let first = ws.take(1);
        let rest = ws.skip(1);
        assert forall|i: int| 0 <= i < rest.len() implies is_word(#[trigger] rest[i]) by {
            assert(rest[i] == ws[i + 1]);
        }
        lemma_words_joined(rest);
        assert(first + rest =~= ws);
        lines::lemma_join_concat(first, rest, sep);
        let u = text::join(rest, sep);
        let tail = sep + u;
        assert(text::join(first, sep) == w);
        assert(t =~= w + tail);
        text::lemma_runs_first(w, tail, class);
        assert(tail[0] == ' ');
        assert(tail.skip(1) =~= u);
        assert(text::runs(tail, class) == rest);
        assert(seq![w] + rest =~= ws);
        assert forall|j: int| 0 <= j < t.len() implies #[trigger] t[j] != '\n' by {
            if j < w.len() {
                assert(text::in_class(class, w[j]));
            } else if j > w.len() {
                assert(t[j] == u[j - w.len() - 1]);
            }
        }
    } else {
        assert(text::runs(t, class) =~= ws);
    }
}

proof fn lemma_kept_lines_are_snug(s: Seq<char>, n: int)
    requires
        0 <= n <= text::lines(s).len(),
    ensures
        forall|i: int|
            0 <= i < kept_lines(text::lines(s), n).len() ==> tidy_line(
                #[trigger] kept_lines(text::lines(s), n)[i],
            ),
    decreases n,
{
    if n > 0 {
        lemma_kept_lines_are_snug(s, n - 1);
        let line = text::lines(s)[n - 1];
        assert forall|j: int| 0 <= j < line.len() implies #[trigger] line[j] != '\n' by {
            lines::lemma_lines_hold_no_feed(s, n - 1, j);
        }
        lemma_collapsed(line);
        let prev = kept_lines(text::lines(s), n - 1);
        let now = kept_lines(text::lines(s), n);
        assert forall|i: int| 0 <= i < now.len() implies tidy_line(#[trigger] now[i]) by {
            if i < prev.len() {
                assert(now[i] == prev[i]);
            } else {
                assert(now[i] == collapsed(line));
            }
        }
    }
}

/// Whether a line is as normalising leaves one.
pub open spec fn tidy_line(t: Seq<char>) -> bool {
    lines::plain(t) && lines::snug(t) && collapsed(t) == t
}

proof fn lemma_tidy_lines_are_kept(ls: Seq<Seq<char>>, n: int)
    requires
        0 <= n <= ls.len(),
        forall|i: int| 0 <= i < ls.len() ==> tidy_line(#[trigger] ls[i]),
    ensures
        kept_lines(ls, n) == ls.take(n),
    decreases n,
{
    if n > 0 {
        lemma_tidy_lines_are_kept(ls, n - 1);
        assert(tidy_line(ls[n - 1]));
        assert(ls.take(n) =~= ls.take(n - 1).push(ls[n - 1]));
    } else {
        assert(ls.take(0) =~= Seq::empty());
    }
}

/// How much white space stands between the words of a line, and what kind of
/// white space it is, changes nothing.
pub proof fn law_inner_spacing_is_ignored(a: Seq<char>, b: Seq<char>)
    requires
        text::runs(a, CharClass::NonSpace) == text::runs(b, CharClass::NonSpace),
        forall|j: int| 0 <= j < a.len() ==> #[trigger] a[j] != '\n',
        forall|j: int| 0 <= j < b.len() ==> #[trigger] b[j] != '\n',
    ensures
        normalized(a) == normalized(b),
        text_hash(a) == text_hash(b),
{
    lemma_normalized_line(a);
    lemma_normalized_line(b);
}

proof fn lemma_normalized_line(a: Seq<char>)
    requires
        forall|j: int| 0 <= j < a.len() ==> #[trigger] a[j] != '\n',
    ensures
        normalized(a) == collapsed(a),
{
    let class = CharClass::NonSpace;
    if a.len() == 0 {
        assert(text::lines(a) =~= Seq::<Seq<char>>::empty());
        assert(text::runs(a, class) =~= Seq::<Seq<char>>::empty());
        assert(kept_lines(text::lines(a), 0) =~= Seq::<Seq<char>>::empty());
    } else {
        text::lemma_find_char(a, '\n', 0);
        assert(text::lines(a) =~= seq![a]);
        reveal_with_fuel(kept_lines, 2);
        let ks = kept_lines(text::lines(a), 1);
        if collapsed(a).len() == 0 {
            assert(ks =~= Seq::<Seq<char>>::empty());
            assert(normalized(a) =~= collapsed(a));
        } else {
            assert(ks =~= seq![collapsed(a)]);
        }
    }
}

/// Normalising a text again changes nothing, so a text and its normalised form
/// have one key.
pub proof fn law_normalizing_again_changes_nothing(s: Seq<char>)
    ensures
        normalized(normalized(s)) == normalized(s),
        text_hash(normalized(s)) == text_hash(s),
{
    let ls = text::lines(s);
    let ks = kept_lines(ls, ls.len() as int);
    lemma_kept_lines_are_snug(s, ls.len() as int);
    let t = normalized(s);
    if ks.len() == 0 {
        assert(t =~= Seq::<char>::empty());
        assert(text::lines(t) =~= Seq::<Seq<char>>::empty());
        assert(kept_lines(text::lines(t), 0) =~= ks);
    } else {
        assert(tidy_line(ks[ks.len() - 1]));
        lines::lemma_lines_of_joined(ks);
        lemma_tidy_lines_are_kept(ks, ks.len() as int);
        assert(ks.take(ks.len() as int) =~= ks);
    }
}

} // verus!

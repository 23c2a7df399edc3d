//! Plain-text primitives over character sequences: white space, lines,
//! trimming, joining, splitting, searching, ordering and UTF-8 lengths.
use vstd::prelude::*;
use vstd::string::*;
use vstd::utf8::*;

verus! {

/// Appends one character: the string then holds its old characters and that
/// one. This is `std::string::String::push`.
pub assume_specification[ String::push ](s: &mut String, c: char)
    ensures
        final(s)@ == old(s)@.push(c),
;

// ---------------------------------------------------------------------------
// Conversions
// ---------------------------------------------------------------------------

/// The characters of each string of `s`.
pub open spec fn views(s: Seq<String>) -> Seq<Seq<char>> {
    Seq::new(s.len(), |i: int| s[i]@)
}

/// The characters of `s`, in order.
pub fn chars_of(s: &str) -> (v: Vec<char>)
    ensures
        v@ == s@,
{
    let mut v: Vec<char> = Vec::new();
    for c in it: s.chars()
        invariant
            v@ == it.seq().take(it.index()),
            it.seq() == s@,
    {
        v.push(c);
        assert(v@ =~= it.seq().take(it.index() + 1));
    }
    v
}

/// The text that bytes stand for in UTF-8, each part that is not UTF-8 being
/// replaced.
pub uninterp spec fn utf8_lossy(bytes: Seq<u8>) -> Seq<char>;

/// Reads bytes as UTF-8 by `std::string::String::from_utf8_lossy`, which depends
/// on the bytes alone.
#[verifier::external_body]
pub(crate) fn lossy_text(bytes: &Vec<u8>) -> (r: String)
    ensures
        r@ == utf8_lossy(bytes@),
{
    String::from_utf8_lossy(bytes).into_owned()
}

/// The string that holds the characters of `v` from `from` up to `to`.
pub fn string_of(v: &Vec<char>, from: usize, to: usize) -> (s: String)
    requires
        from <= to <= v@.len(),
    ensures
        s@ == v@.subrange(from as int, to as int),
{
    let mut s = String::new();
    let mut i: usize = from;
    while i < to
        invariant
            from <= i <= to <= v@.len(),
            s@ == v@.subrange(from as int, i as int),
        decreases to - i,
    {
        s.push(v[i]);
        i = i + 1;
        assert(s@ =~= v@.subrange(from as int, i as int));
    }
    s
}

/// Whether two texts hold the same characters.
pub fn same_text(a: &str, b: &str) -> (r: bool)
    ensures
        r == (a@ == b@),
{
    let x: String = a.to_owned();
    let y: String = b.to_owned();
    x == y
}

/// `opt` with its string seen as characters.
pub open spec fn opt_view(opt: Option<String>) -> Option<Seq<char>> {
    match opt {
        Some(s) => Some(s@),
        None => None,
    }
}

/// A copy of an optional string.
pub fn copy_opt(s: &Option<String>) -> (r: Option<String>)
    ensures
        r == *s,
{
    match s {
        Some(t) => Some(t.clone()),
        None => None,
    }
}

/// Whether two optional texts agree.
pub fn same_opt_text(a: &Option<String>, b: &Option<String>) -> (r: bool)
    ensures
        r == (opt_view(*a) == opt_view(*b)),
{
    match (a, b) {
        (Some(x), Some(y)) => same_text(x.as_str(), y.as_str()),
        (None, None) => true,
        _ => false,
    }
}

/// Whether `v` holds the text `s`.
pub fn holds_text(v: &Vec<String>, s: &str) -> (r: bool)
    ensures
        r == views(v@).contains(s@),
{
    let mut i: usize = 0;
    while i < v.len()
        invariant
            i <= v@.len(),
            forall|j: int| 0 <= j < i ==> views(v@)[j] != s@,
        decreases v@.len() - i,
    {
        if same_text(v[i].as_str(), s) {
            assert(views(v@)[i as int] == s@);
            return true;
        }
        i = i + 1;
    }
    false
}

// ---------------------------------------------------------------------------
// UTF-8 lengths
// ---------------------------------------------------------------------------

/// The number of bytes that `c` takes in UTF-8.
pub open spec fn utf8_width(c: char) -> nat {
    if (c as u32) < 0x80 {
        1
    } else if (c as u32) < 0x800 {
        2
    } else if (c as u32) < 0x10000 {
        3
    } else {
        4
    }
}

/// The number of bytes that `s` takes in UTF-8.
pub open spec fn utf8_len(s: Seq<char>) -> nat
    decreases s.len(),
{
    if s.len() == 0 {
        0
    } else {
        utf8_width(s[0]) + utf8_len(s.skip(1))
    }
}

/// `utf8_len` is the length of the UTF-8 encoding.
pub proof fn lemma_utf8_len(s: Seq<char>)
    ensures
        encode_utf8(s).len() == utf8_len(s),
    decreases s.len(),
{
    if s.len() > 0 {
        lemma_utf8_len(s.drop_first());
        assert(s.drop_first() =~= s.skip(1));
        char_is_scalar(s[0]);
        assert(encode_scalar(s[0] as u32).len() == utf8_width(s[0]));
    }
}

/// Every character takes at least one byte.
pub proof fn lemma_utf8_len_at_least(s: Seq<char>)
    ensures
        utf8_len(s) >= s.len(),
    decreases s.len(),
{
    if s.len() > 0 {
        lemma_utf8_len_at_least(s.skip(1));
    }
}

/// Byte lengths add up over concatenation.
pub proof fn lemma_utf8_len_concat(a: Seq<char>, b: Seq<char>)
    ensures
        utf8_len(a + b) == utf8_len(a) + utf8_len(b),
    decreases a.len(),
{
    if a.len() == 0 {
        assert(a + b =~= b);
    } else {
        lemma_utf8_len_concat(a.skip(1), b);
        assert((a + b).skip(1) =~= a.skip(1) + b);
    }
}

/// A prefix takes no more bytes than the whole.
pub proof fn lemma_utf8_len_take(s: Seq<char>, n: int)
    requires
        0 <= n <= s.len(),
    ensures
        utf8_len(s.take(n)) <= utf8_len(s),
        utf8_len(s) == utf8_len(s.take(n)) + utf8_len(s.skip(n)),
{
    lemma_utf8_len_concat(s.take(n), s.skip(n));
    assert(s.take(n) + s.skip(n) =~= s);
}

/// The byte length of `s`.
pub fn byte_len(s: &str) -> (n: usize)
    ensures
        n == utf8_len(s@),
        s@.len() <= n,
{
    proof {
        lemma_utf8_len(s@);
        lemma_utf8_len_at_least(s@);
    }
    s.as_bytes().len()
}

/// The number of bytes that `c` takes in UTF-8.
pub fn char_width(c: char) -> (n: usize)
    ensures
        n == utf8_width(c),
        1 <= n <= 4,
{
    let u: u32 = c as u32;
    if u < 0x80 {
        1
    } else if u < 0x800 {
        2
    } else if u < 0x10000 {
        3
    } else {
        4
    }
}

// ---------------------------------------------------------------------------
// Character classes
// ---------------------------------------------------------------------------

/// The characters with the Unicode `White_Space` property.
pub open spec fn is_space(c: char) -> bool {
    let u = c as u32;
    ||| 0x9 <= u <= 0xd
    ||| u == 0x20
    ||| u == 0x85
    ||| u == 0xa0
    ||| u == 0x1680
    ||| 0x2000 <= u <= 0x200a
    ||| u == 0x2028
    ||| u == 0x2029
    ||| u == 0x202f
    ||| u == 0x205f
    ||| u == 0x3000
}

/// Whether `c` is white space.
pub fn char_is_space(c: char) -> (r: bool)
    ensures
        r == is_space(c),
{
    let u: u32 = c as u32;
    (0x9 <= u && u <= 0xd) || u == 0x20 || u == 0x85 || u == 0xa0 || u == 0x1680 || (0x2000 <= u
        && u <= 0x200a) || u == 0x2028 || u == 0x2029 || u == 0x202f || u == 0x205f || u == 0x3000
}

/// The ASCII letters.
pub open spec fn ascii_letter(c: char) -> bool {
    ascii_upper(c) || ascii_lower(c)
}

/// `A` to `Z`.
pub open spec fn ascii_upper(c: char) -> bool {
    0x41 <= c as u32 <= 0x5a
}

/// `a` to `z`.
pub open spec fn ascii_lower(c: char) -> bool {
    0x61 <= c as u32 <= 0x7a
}

/// `0` to `9`.
pub open spec fn ascii_digit(c: char) -> bool {
    0x30 <= c as u32 <= 0x39
}

/// What the Unicode tables say of `c` being alphabetic.
pub uninterp spec fn unicode_alphabetic(c: char) -> bool;

/// Whether `c` has the Unicode `Alphabetic` property.
pub open spec fn alphabetic(c: char) -> bool {
    if (c as u32) < 128 {
        ascii_letter(c)
    } else {
        unicode_alphabetic(c)
    }
}

/// `char::is_alphabetic`. Its answer is named; among the ASCII characters it holds
/// of the letters alone.
#[verifier::external_body]
fn std_is_alphabetic(c: char) -> (r: bool)
    ensures
        r == unicode_alphabetic(c),
        (c as u32) < 128 ==> r == (ascii_letter(c)),
{
    c.is_alphabetic()
}

/// Whether `c` has the Unicode `Alphabetic` property.
pub fn char_is_alphabetic(c: char) -> (r: bool)
    ensures
        r == alphabetic(c),
{
    std_is_alphabetic(c)
}

/// What the Unicode tables say of `c` being alphabetic or numeric.
pub uninterp spec fn unicode_alphanumeric(c: char) -> bool;

/// Whether `c` has the Unicode `Alphabetic` property or is numeric.
pub open spec fn alphanumeric(c: char) -> bool {
    if (c as u32) < 128 {
        ascii_letter(c) || ascii_digit(c)
    } else {
        unicode_alphanumeric(c)
    }
}

/// `char::is_alphanumeric`. Its answer is named; among the ASCII characters it holds
/// of the letters and digits alone.
#[verifier::external_body]
fn std_is_alphanumeric(c: char) -> (r: bool)
    ensures
        r == unicode_alphanumeric(c),
        (c as u32) < 128 ==> r == (ascii_letter(c) || ascii_digit(c)),
{
    c.is_alphanumeric()
}

/// Whether `c` has the Unicode `Alphabetic` property or is numeric.
pub fn char_is_alphanumeric(c: char) -> (r: bool)
    ensures
        r == alphanumeric(c),
{
    std_is_alphanumeric(c)
}

/// What the Unicode tables say of `c` being uppercase.
pub uninterp spec fn unicode_uppercase(c: char) -> bool;

/// Whether `c` has the Unicode `Uppercase` property.
pub open spec fn uppercase(c: char) -> bool {
    if (c as u32) < 128 {
        ascii_upper(c)
    } else {
        unicode_uppercase(c)
    }
}

/// `char::is_uppercase`. Its answer is named; among the ASCII characters it holds
/// of `A` to `Z` alone.
#[verifier::external_body]
fn std_is_uppercase(c: char) -> (r: bool)
    ensures
        r == unicode_uppercase(c),
        (c as u32) < 128 ==> r == (ascii_upper(c)),
{
    c.is_uppercase()
}

/// Whether `c` has the Unicode `Uppercase` property.
pub fn char_is_uppercase(c: char) -> (r: bool)
    ensures
        r == uppercase(c),
{
    std_is_uppercase(c)
}

/// What the Unicode tables say of `c` being lowercase.
pub uninterp spec fn unicode_lowercase(c: char) -> bool;

/// Whether `c` has the Unicode `Lowercase` property.
pub open spec fn lowercase(c: char) -> bool {
    if (c as u32) < 128 {
        ascii_lower(c)
    } else {
        unicode_lowercase(c)
    }
}

/// `char::is_lowercase`. Its answer is named; among the ASCII characters it holds
/// of `a` to `z` alone.
#[verifier::external_body]
fn std_is_lowercase(c: char) -> (r: bool)
    ensures
        r == unicode_lowercase(c),
        (c as u32) < 128 ==> r == (ascii_lower(c)),
{
    c.is_lowercase()
}

/// Whether `c` has the Unicode `Lowercase` property.
pub fn char_is_lowercase(c: char) -> (r: bool)
    ensures
        r == lowercase(c),
{
    std_is_lowercase(c)
}

/// `c` in lowercase where it is an ASCII letter, else `c`.
pub open spec fn ascii_lower_char(c: char) -> char {
    if ascii_upper(c) {
        (c as u32 + 32) as char
    } else {
        c
    }
}

/// `s` with its ASCII letters in lowercase.
pub open spec fn ascii_lowered(s: Seq<char>) -> Seq<char> {
    Seq::new(s.len(), |i: int| ascii_lower_char(s[i]))
}

/// `s` with its ASCII letters in lowercase.
pub fn ascii_lower_text(s: &str) -> (r: String)
    ensures
        r@ == ascii_lowered(s@),
{
    let v: Vec<char> = chars_of(s);
    let mut out = String::new();
    let mut i: usize = 0;
    while i < v.len()
        invariant
            i <= v@.len(),
            v@ == s@,
            out@ == ascii_lowered(s@).take(i as int),
        decreases v@.len() - i,
    {
        let u: u32 = v[i] as u32;
        let c: char = if 0x41 <= u && u <= 0x5a {
            (u as u8 + 32) as char
        } else {
            v[i]
        };
        out.push(c);
        i = i + 1;
        assert(out@ =~= ascii_lowered(s@).take(i as int));
    }
    assert(ascii_lowered(s@).take(i as int) =~= ascii_lowered(s@));
    out
}

// ---------------------------------------------------------------------------
// Trimming
// ---------------------------------------------------------------------------

/// `s` without its leading white space.
pub open spec fn trim_start(s: Seq<char>) -> Seq<char>
    decreases s.len(),
{
    if s.len() > 0 && is_space(s[0]) {
        trim_start(s.skip(1))
    } else {
        s
    }
}

/// `s` without its trailing white space.
pub open spec fn trim_end(s: Seq<char>) -> Seq<char>
    decreases s.len(),
{
    if s.len() > 0 && is_space(s.last()) {
        trim_end(s.drop_last())
    } else {
        s
    }
}

/// `s` without white space at either end.
pub open spec fn trim(s: Seq<char>) -> Seq<char> {
    trim_end(trim_start(s))
}

/// Whether `s` holds nothing but white space.
pub open spec fn blank(s: Seq<char>) -> bool {
    forall|i: int| 0 <= i < s.len() ==> is_space(#[trigger] s[i])
}

/// The number of leading characters of `s` that `trim_start` drops.
fn leading_spaces(v: &Vec<char>) -> (n: usize)
    ensures
        n <= v@.len(),
        trim_start(v@) == v@.skip(n as int),
        n < v@.len() ==> !is_space(v@[n as int]),
{
    let mut i: usize = 0;
    proof {
        assert(v@.skip(0) =~= v@);
    }
    while i < v.len() && char_is_space(v[i])
        invariant
            i <= v@.len(),
            trim_start(v@) == trim_start(v@.skip(i as int)),
        decreases v@.len() - i,
    {
        proof {
            assert(v@.skip(i as int).skip(1) =~= v@.skip(i + 1));
        }
        i = i + 1;
    }
    i
}

/// The length that `trim_end` leaves of the part of `v` from `from`.
fn trailing_end(v: &Vec<char>, from: usize) -> (n: usize)
    requires
        from <= v@.len(),
    ensures
        from <= n <= v@.len(),
        trim_end(v@.skip(from as int)) == v@.subrange(from as int, n as int),
{
    let mut j: usize = v.len();
    proof {
        assert(v@.subrange(from as int, j as int) =~= v@.skip(from as int));
    }
    while j > from && char_is_space(v[j - 1])
        invariant
            from <= j <= v@.len(),
            trim_end(v@.skip(from as int)) == trim_end(v@.subrange(from as int, j as int)),
        decreases j,
    {
        proof {
            assert(v@.subrange(from as int, j as int).drop_last() =~= v@.subrange(
                from as int,
                j - 1,
            ));
        }
        j = j - 1;
    }
    j
}

/// `s` without white space at either end.
pub fn trim_text(s: &str) -> (r: String)
    ensures
        r@ == trim(s@),
{
    let v: Vec<char> = chars_of(s);
    let a: usize = leading_spaces(&v);
    let b: usize = trailing_end(&v, a);
    string_of(&v, a, b)
}

/// `s` without its leading white space.
pub fn trim_start_text(s: &str) -> (r: String)
    ensures
        r@ == trim_start(s@),
{
    let v: Vec<char> = chars_of(s);
    let a: usize = leading_spaces(&v);
    string_of(&v, a, v.len())
}

/// `s` without its trailing white space.
pub fn trim_end_text(s: &str) -> (r: String)
    ensures
        r@ == trim_end(s@),
{
    let v: Vec<char> = chars_of(s);
    let b: usize = trailing_end(&v, 0);
    proof {
        assert(v@.skip(0) =~= v@);
    }
    string_of(&v, 0, b)
}

/// `s` without its leading characters equal to `c`.
pub open spec fn trim_start_char(s: Seq<char>, c: char) -> Seq<char>
    decreases s.len(),
{
    if s.len() > 0 && s[0] == c {
        trim_start_char(s.skip(1), c)
    } else {
        s
    }
}

/// `s` without its trailing characters equal to `c`.
pub open spec fn trim_end_char(s: Seq<char>, c: char) -> Seq<char>
    decreases s.len(),
{
    if s.len() > 0 && s.last() == c {
        trim_end_char(s.drop_last(), c)
    } else {
        s
    }
}

/// `s` without its leading characters equal to `c`.
pub fn trim_start_char_text(s: &str, c: char) -> (r: String)
    ensures
        r@ == trim_start_char(s@, c),
{
    let v: Vec<char> = chars_of(s);
    let mut i: usize = 0;
    proof {
        assert(v@.skip(0) =~= v@);
    }
    while i < v.len() && v[i] == c
        invariant
            i <= v@.len(),
            v@ == s@,
            trim_start_char(s@, c) == trim_start_char(v@.skip(i as int), c),
        decreases v@.len() - i,
    {
        proof {
            assert(v@.skip(i as int).skip(1) =~= v@.skip(i + 1));
        }
        i = i + 1;
    }
    string_of(&v, i, v.len())
}

/// `s` without its trailing characters equal to `c`.
pub fn trim_end_char_text(s: &str, c: char) -> (r: String)
    ensures
        r@ == trim_end_char(s@, c),
{
    let v: Vec<char> = chars_of(s);
    let mut j: usize = v.len();
    proof {
        assert(v@.subrange(0, j as int) =~= v@);
    }
    while j > 0 && v[j - 1] == c
        invariant
            j <= v@.len(),
            v@ == s@,
            trim_end_char(s@, c) == trim_end_char(v@.subrange(0, j as int), c),
        decreases j,
    {
        proof {
            assert(v@.subrange(0, j as int).drop_last() =~= v@.subrange(0, j - 1));
        }
        j = j - 1;
    }
    string_of(&v, 0, j)
}

/// Whether `s` holds nothing but white space.
pub fn is_blank(s: &str) -> (r: bool)
    ensures
        r == blank(s@),
        r == (trim(s@).len() == 0),
{
    let v: Vec<char> = chars_of(s);
    let a: usize = leading_spaces(&v);
    proof {
        lemma_trim_start_empty(v@);
        if a < v@.len() {
            lemma_trim_end_keeps_first(v@.skip(a as int));
        }
    }
    a == v.len()
}

/// Blank text is what trimming at the start leaves nothing of.
pub proof fn lemma_trim_start_empty(s: Seq<char>)
    ensures
        blank(s) <==> trim_start(s).len() == 0,
    decreases s.len(),
{
    if s.len() > 0 {
        lemma_trim_start_empty(s.skip(1));
        if is_space(s[0]) {
            if blank(s.skip(1)) {
                assert forall|i: int| 0 <= i < s.len() implies is_space(#[trigger] s[i]) by {
                    if i > 0 {
                        assert(s[i] == s.skip(1)[i - 1]);
                    }
                }
            }
            if blank(s) {
                assert forall|i: int| 0 <= i < s.skip(1).len() implies is_space(
                    #[trigger] s.skip(1)[i],
                ) by {
                    assert(s.skip(1)[i] == s[i + 1]);
                }
            }
        }
    }
}

/// Trimming at the end keeps a first character that is no white space.
pub proof fn lemma_trim_end_keeps_first(s: Seq<char>)
    requires
        s.len() > 0,
        !is_space(s[0]),
    ensures
        trim_end(s).len() > 0,
        trim_end(s)[0] == s[0],
    decreases s.len(),
{
    if is_space(s.last()) {
        assert(s.len() > 1);
        lemma_trim_end_keeps_first(s.drop_last());
    }
}

// ---------------------------------------------------------------------------
// Searching
// ---------------------------------------------------------------------------

/// The first index at or after `from` at which `c` stands, or the length of `s`.
pub open spec fn find_char(s: Seq<char>, c: char, from: int) -> int
    decreases s.len() - from,
{
    if from >= s.len() {
        s.len() as int
    } else if s[from] == c {
        from
    } else {
        find_char(s, c, from + 1)
    }
}

/// Whether `p` stands in `s` at index `i`.
pub open spec fn stands_at(s: Seq<char>, p: Seq<char>, i: int) -> bool {
    0 <= i && i + p.len() <= s.len() && s.subrange(i, i + p.len()) == p
}

/// The first index at or after `from` at which `p` stands in `s`.
pub open spec fn find_text(s: Seq<char>, p: Seq<char>, from: int) -> Option<int>
    decreases s.len() + 1 - from,
{
    if from + p.len() > s.len() {
        None
    } else if stands_at(s, p, from) {
        Some(from)
    } else {
        find_text(s, p, from + 1)
    }
}

/// What `find_char` finds.
pub proof fn lemma_find_char(s: Seq<char>, c: char, from: int)
    requires
        0 <= from <= s.len(),
    ensures
        from <= find_char(s, c, from) <= s.len(),
        find_char(s, c, from) < s.len() ==> s[find_char(s, c, from)] == c,
        forall|i: int| from <= i < find_char(s, c, from) ==> s[i] != c,
    decreases s.len() - from,
{
    if from < s.len() && s[from] != c {
        lemma_find_char(s, c, from + 1);
    }
}

/// What `find_text` finds.
pub proof fn lemma_find_text(s: Seq<char>, p: Seq<char>, from: int)
    requires
        0 <= from,
    ensures
        match find_text(s, p, from) {
            Some(i) => from <= i && stands_at(s, p, i) && forall|j: int|
                from <= j < i ==> !stands_at(s, p, j),
            None => forall|j: int| from <= j ==> !stands_at(s, p, j),
        },
    decreases s.len() + 1 - from,
{
    if from + p.len() > s.len() {
    } else if stands_at(s, p, from) {
    } else {
        lemma_find_text(s, p, from + 1);
    }
}

/// The first index at or after `from` at which `c` stands, or the length of `v`.
pub fn char_index(v: &Vec<char>, c: char, from: usize) -> (i: usize)
    requires
        from <= v@.len(),
    ensures
        i == find_char(v@, c, from as int),
        from <= i <= v@.len(),
        i < v@.len() ==> v@[i as int] == c,
        forall|j: int| from <= j < i ==> v@[j] != c,
{
    let mut i: usize = from;
    while i < v.len() && v[i] != c
        invariant
            from <= i <= v@.len(),
            find_char(v@, c, from as int) == find_char(v@, c, i as int),
            forall|j: int| from <= j < i ==> v@[j] != c,
        decreases v@.len() - i,
    {
        i = i + 1;
    }
    i
}

/// Whether `p` stands in `v` at index `i`.
pub fn text_stands_at(v: &Vec<char>, p: &Vec<char>, i: usize) -> (r: bool)
    ensures
        r == stands_at(v@, p@, i as int),
{
    if p.len() > v.len() || i > v.len() - p.len() {
        return false;
    }
    let mut k: usize = 0;
    while k < p.len() && v[i + k] == p[k]
        invariant
            i + p.len() <= v.len(),
            k <= p@.len(),
            forall|j: int| 0 <= j < k ==> v@[i + j] == p@[j],
        decreases p@.len() - k,
    {
        k = k + 1;
    }
    if k == p.len() {
        assert(v@.subrange(i as int, i + p@.len()) =~= p@);
        true
    } else {
        assert(v@.subrange(i as int, i + p@.len())[k as int] != p@[k as int]);
        false
    }
}

/// The first index at or after `from` at which `p` stands in `v`.
pub fn text_index(v: &Vec<char>, p: &Vec<char>, from: usize) -> (r: Option<usize>)
    ensures
        match r {
            Some(i) => find_text(v@, p@, from as int) == Some(i as int) && from <= i && i + p@.len()
                <= v@.len(),
            None => find_text(v@, p@, from as int) is None,
        },
{
    let mut i: usize = from;
    while p.len() <= v.len() && i <= v.len() - p.len()
        invariant
            from <= i,
            find_text(v@, p@, from as int) == find_text(v@, p@, i as int),
        decreases v@.len() + 1 - i,
    {
        if text_stands_at(v, p, i) {
            return Some(i);
        }
        proof {
            if i == v.len() {
                assert(v@.subrange(i as int, i as int) =~= p@);
            }
        }
        i = i + 1;
    }
    None
}

/// Whether `s` begins with `p`.
pub open spec fn starts_with(s: Seq<char>, p: Seq<char>) -> bool {
    p.len() <= s.len() && s.take(p.len() as int) == p
}

/// Whether `s` begins with `p`.
pub fn text_starts_with(s: &str, p: &str) -> (r: bool)
    ensures
        r == starts_with(s@, p@),
{
    let v: Vec<char> = chars_of(s);
    let q: Vec<char> = chars_of(p);
    let r: bool = text_stands_at(&v, &q, 0);
    r
}

/// Whether `p` occurs in `s`.
pub open spec fn contains_text(s: Seq<char>, p: Seq<char>) -> bool {
    exists|i: int| stands_at(s, p, i)
}

/// Whether `p` occurs in `s`.
pub fn text_contains(s: &str, p: &str) -> (r: bool)
    ensures
        r == contains_text(s@, p@),
{
    let v: Vec<char> = chars_of(s);
    let q: Vec<char> = chars_of(p);
    proof {
        lemma_find_text(v@, q@, 0);
    }
    text_index(&v, &q, 0).is_some()
}

// ---------------------------------------------------------------------------
// Lines and joining
// ---------------------------------------------------------------------------

/// `s` without one trailing carriage return.
pub open spec fn strip_cr(s: Seq<char>) -> Seq<char> {
    if s.len() > 0 && s.last() == '\r' {
        s.drop_last()
    } else {
        s
    }
}

/// The lines of `s`: each ends at a line feed, which may follow a carriage
/// return; what follows the last line feed is a line too, unless it is empty.
pub open spec fn lines(s: Seq<char>) -> Seq<Seq<char>>
    decreases s.len(),
{
    if s.len() == 0 {
        Seq::empty()
    } else {
        let n = find_char(s, '\n', 0);
        if n >= s.len() || n < 0 {
            seq![s]
        } else {
            seq![strip_cr(s.take(n))] + lines(s.skip(n + 1))
        }
    }
}

/// Searching a suffix is searching from its start.
pub proof fn lemma_find_char_skip(s: Seq<char>, c: char, k: int, from: int)
    requires
        0 <= k <= s.len(),
        0 <= from <= s.len() - k,
    ensures
        find_char(s.skip(k), c, from) == find_char(s, c, k + from) - k,
    decreases s.len() - k - from,
{
    if k + from < s.len() && s[k + from] != c {
        lemma_find_char_skip(s, c, k, from + 1);
    }
}

/// The lines of `s`.
pub fn lines_of(s: &str) -> (r: Vec<String>)
    ensures
        views(r@) == lines(s@),
{
    let v: Vec<char> = chars_of(s);
    let mut out: Vec<String> = Vec::new();
    let mut at: usize = 0;
    proof {
        assert(v@.skip(0) =~= v@);
        assert(views(out@) + lines(v@) =~= lines(v@));
    }
    while at < v.len()
        invariant
            at <= v@.len(),
            v@ == s@,
            lines(s@) == views(out@) + lines(v@.skip(at as int)),
        decreases v@.len() - at,
    {
        let n: usize = char_index(&v, '\n', at);
        let ghost rest = v@.skip(at as int);
        let ghost before = views(out@);
        proof {
            lemma_find_char_skip(v@, '\n', at as int, 0);
        }
        if n == v.len() {
            let line: String = string_of(&v, at, n);
            out.push(line);
            proof {
                assert(line@ =~= rest);
                assert(v@.skip(n as int).len() == 0);
                assert(lines(rest) =~= seq![rest]);
                assert(views(out@) =~= before + seq![rest]);
                assert(lines(v@.skip(n as int)) =~= Seq::<Seq<char>>::empty());
                assert(views(out@) + lines(v@.skip(n as int)) =~= before + lines(rest));
            }
            at = n;
        } else {
            let end: usize = if n > at && v[n - 1] == '\r' {
                n - 1
            } else {
                n
            };
            let line: String = string_of(&v, at, end);
            out.push(line);
            proof {
                assert(rest.take(n - at) =~= v@.subrange(at as int, n as int));
                assert(line@ =~= strip_cr(rest.take(n - at)));
                assert(rest.skip(n - at + 1) =~= v@.skip(n + 1));
                assert(views(out@) =~= before + seq![line@]);
                assert(views(out@) + lines(v@.skip(n + 1)) =~= before + lines(rest));
            }
            at = n + 1;
        }
    }
    proof {
        assert(v@.skip(at as int).len() == 0);
        assert(lines(v@.skip(at as int)) =~= Seq::<Seq<char>>::empty());
        assert(views(out@) =~= lines(s@));
    }
    out
}

/// `parts` with `sep` between neighbours.
pub open spec fn join(parts: Seq<Seq<char>>, sep: Seq<char>) -> Seq<char>
    decreases parts.len(),
{
    if parts.len() == 0 {
        Seq::empty()
    } else if parts.len() == 1 {
        parts[0]
    } else {
        join(parts.drop_last(), sep) + sep + parts.last()
    }
}

/// The strings of `v` from `from` up to `to`, with `sep` between neighbours.
pub fn join_range(v: &Vec<String>, from: usize, to: usize, sep: &str) -> (r: String)
    requires
        from <= to <= v@.len(),
    ensures
        r@ == join(views(v@).subrange(from as int, to as int), sep@),
{
    let mut out = String::new();
    let mut i: usize = from;
    let ghost all = views(v@);
    while i < to
        invariant
            from <= i <= to <= v@.len(),
            all == views(v@),
            out@ == join(all.subrange(from as int, i as int), sep@),
        decreases to - i,
    {
        let ghost next = all.subrange(from as int, i + 1);
        if i > from {
            out.append(sep);
        }
        out.append(v[i].as_str());
        proof {
            assert(next.drop_last() =~= all.subrange(from as int, i as int));
            assert(next.last() == v@[i as int]@);
            if i == from {
                assert(out@ =~= v@[i as int]@);
            }
        }
        i = i + 1;
    }
    out
}

/// The strings of `v`, with `sep` between neighbours.
pub fn join_all(v: &Vec<String>, sep: &str) -> (r: String)
    ensures
        r@ == join(views(v@), sep@),
{
    proof {
        assert(views(v@).subrange(0, v@.len() as int) =~= views(v@));
    }
    join_range(v, 0, v.len(), sep)
}

/// One more part.
pub proof fn lemma_join_push(parts: Seq<Seq<char>>, sep: Seq<char>, p: Seq<char>)
    ensures
        join(parts.push(p), sep) == (if parts.len() == 0 {
            p
        } else {
            join(parts, sep) + sep + p
        }),
{
    assert(parts.push(p).drop_last() =~= parts);
}

// ---------------------------------------------------------------------------
// Splitting
// ---------------------------------------------------------------------------

/// The classes of characters that text is cut into runs of.
#[derive(Clone, Copy)]
pub enum CharClass {
    /// Letters and digits.
    Alphanumeric,
    /// Letters, digits, `_` and `:`.
    Symbol,
    /// Everything but white space.
    NonSpace,
}

/// Whether `c` belongs to the class.
pub open spec fn in_class(class: CharClass, c: char) -> bool {
    match class {
        CharClass::Alphanumeric => alphanumeric(c),
        CharClass::Symbol => alphanumeric(c) || c == '_' || c == ':',
        CharClass::NonSpace => !is_space(c),
    }
}

/// Whether `c` belongs to the class.
pub fn char_in_class(class: CharClass, c: char) -> (r: bool)
    ensures
        r == in_class(class, c),
{
    match class {
        CharClass::Alphanumeric => char_is_alphanumeric(c),
        CharClass::Symbol => char_is_alphanumeric(c) || c == '_' || c == ':',
        CharClass::NonSpace => !char_is_space(c),
    }
}

/// The number of leading characters of `s` that belong to the class.
pub open spec fn run_len(s: Seq<char>, class: CharClass) -> nat
    decreases s.len(),
{
    if s.len() > 0 && in_class(class, s[0]) {
        1 + run_len(s.skip(1), class)
    } else {
        0
    }
}

/// A run is no longer than the text.
pub proof fn lemma_run_len(s: Seq<char>, class: CharClass)
    ensures
        run_len(s, class) <= s.len(),
        s.len() > 0 && in_class(class, s[0]) ==> run_len(s, class) > 0,
        forall|i: int| 0 <= i < run_len(s, class) ==> in_class(class, s[i]),
        run_len(s, class) < s.len() ==> !in_class(class, s[run_len(s, class) as int]),
    decreases s.len(),
{
    if s.len() > 0 && in_class(class, s[0]) {
        lemma_run_len(s.skip(1), class);
        if run_len(s, class) < s.len() {
            assert(s[run_len(s, class) as int] == s.skip(1)[run_len(s.skip(1), class) as int]);
        }
        assert forall|i: int| 0 <= i < run_len(s, class) implies in_class(class, s[i]) by {
            if i > 0 {
                assert(s[i] == s.skip(1)[i - 1]);
            }
        }
    }
}

/// The maximal runs of characters of the class, in order.
pub open spec fn runs(s: Seq<char>, class: CharClass) -> Seq<Seq<char>>
    decreases s.len(),
{
    if s.len() == 0 {
        Seq::empty()
    } else if !in_class(class, s[0]) {
        runs(s.skip(1), class)
    } else {
        let n = run_len(s, class) as int;
        if 0 < n <= s.len() {
            seq![s.take(n)] + runs(s.skip(n), class)
        } else {
            Seq::empty()
        }
    }
}

/// The maximal runs of characters of the class, in order.
pub fn runs_of(s: &str, class: CharClass) -> (r: Vec<String>)
    ensures
        views(r@) == runs(s@, class),
{
    let v: Vec<char> = chars_of(s);
    let mut out: Vec<String> = Vec::new();
    let mut at: usize = 0;
    proof {
        assert(v@.skip(0) =~= v@);
        assert(views(out@) + runs(v@, class) =~= runs(v@, class));
    }
    while at < v.len()
        invariant
            at <= v@.len(),
            v@ == s@,
            runs(s@, class) == views(out@) + runs(v@.skip(at as int), class),
        decreases v@.len() - at,
    {
        let ghost rest = v@.skip(at as int);
        let ghost before = views(out@);
        if !char_in_class(class, v[at]) {
            proof {
                assert(rest.skip(1) =~= v@.skip(at + 1));
            }
            at = at + 1;
        } else {
            let mut end: usize = at;
            proof {
                assert(rest.skip(0) =~= rest);
            }
            while end < v.len() && char_in_class(class, v[end])
                invariant
                    at <= end <= v@.len(),
                    rest == v@.skip(at as int),
                    run_len(rest, class) == (end - at) + run_len(v@.skip(end as int), class),
                decreases v@.len() - end,
            {
                proof {
                    assert(v@.skip(end as int).skip(1) =~= v@.skip(end + 1));
                }
                end = end + 1;
            }
            let tok: String = string_of(&v, at, end);
            out.push(tok);
            proof {
                lemma_run_len(rest, class);
                assert(run_len(rest, class) == end - at);
                assert(rest.take(end - at) =~= tok@);
                assert(rest.skip(end - at) =~= v@.skip(end as int));
                assert(views(out@) =~= before + seq![tok@]);
                assert(views(out@) + runs(v@.skip(end as int), class) =~= before + runs(
                    rest,
                    class,
                ));
            }
            at = end;
        }
    }
    proof {
        assert(v@.skip(at as int).len() == 0);
        assert(views(out@) =~= runs(s@, class));
    }
    out
}

/// A run that ends where the class ends is as long as it looks.
pub proof fn lemma_run_len_exact(a: Seq<char>, rest: Seq<char>, class: CharClass)
    requires
        forall|i: int| 0 <= i < a.len() ==> in_class(class, #[trigger] a[i]),
        rest.len() > 0 ==> !in_class(class, rest[0]),
    ensures
        run_len(a + rest, class) == a.len(),
    decreases a.len(),
{
    if a.len() == 0 {
        assert(a + rest =~= rest);
    } else {
        assert((a + rest)[0] == a[0]);
        assert((a + rest).skip(1) =~= a.skip(1) + rest);
        lemma_run_len_exact(a.skip(1), rest, class);
    }
}

/// The first run of a text that starts with a whole run, and the runs after it.
pub proof fn lemma_runs_first(a: Seq<char>, rest: Seq<char>, class: CharClass)
    requires
        a.len() > 0,
        forall|i: int| 0 <= i < a.len() ==> in_class(class, #[trigger] a[i]),
        rest.len() > 0 ==> !in_class(class, rest[0]),
    ensures
        runs(a + rest, class) == seq![a] + runs(rest, class),
{
    lemma_run_len_exact(a, rest, class);
    assert((a + rest)[0] == a[0]);
    assert((a + rest).take(a.len() as int) =~= a);
    assert((a + rest).skip(a.len() as int) =~= rest);
}

/// No run goes across a place where one of the two neighbours is not of the class.
pub proof fn lemma_runs_across(a: Seq<char>, b: Seq<char>, class: CharClass)
    requires
        a.len() > 0 && b.len() > 0 ==> !in_class(class, a.last()) || !in_class(class, b[0]),
    ensures
        runs(a + b, class) == runs(a, class) + runs(b, class),
    decreases a.len(),
{
    if a.len() == 0 {
        assert(a + b =~= b);
        assert(runs(a, class) + runs(b, class) =~= runs(b, class));
    } else if !in_class(class, a[0]) {
        assert((a + b).skip(1) =~= a.skip(1) + b);
        lemma_runs_across(a.skip(1), b, class);
    } else {
        let n = run_len(a, class) as int;
        lemma_run_len(a, class);
        let rest = a.skip(n) + b;
        assert(a + b =~= a.take(n) + rest);
        assert(rest.len() > 0 ==> !in_class(class, rest[0])) by {
            if n == a.len() {
                assert(in_class(class, a[n - 1]));
            }
        }
        lemma_runs_first(a.take(n), rest, class);
        lemma_runs_across(a.skip(n), b, class);
        assert(seq![a.take(n)] + (runs(a.skip(n), class) + runs(b, class)) =~= runs(a, class) + runs(
            b,
            class,
        ));
    }
}

/// A run is not empty, and its characters belong to the class.
pub proof fn lemma_runs_are_runs(s: Seq<char>, class: CharClass, i: int)
    requires
        0 <= i < runs(s, class).len(),
    ensures
        runs(s, class)[i].len() > 0,
        forall|j: int|
            0 <= j < runs(s, class)[i].len() ==> in_class(class, #[trigger] runs(s, class)[i][j]),
    decreases s.len(),
{
    if s.len() > 0 {
        if !in_class(class, s[0]) {
            lemma_runs_are_runs(s.skip(1), class, i);
        } else {
            let n = run_len(s, class) as int;
            lemma_run_len(s, class);
            let rest = runs(s.skip(n), class);
            if i == 0 {
                assert(runs(s, class)[0] == s.take(n));
            } else {
                assert(runs(s, class)[i] == rest[i - 1]);
                lemma_runs_are_runs(s.skip(n), class, i - 1);
            }
        }
    }
}

/// The parts of `s` between the occurrences of `c`, empty ones too.
pub open spec fn split_char(s: Seq<char>, c: char) -> Seq<Seq<char>>
    decreases s.len(),
{
    let n = find_char(s, c, 0);
    if n >= s.len() || n < 0 {
        seq![s]
    } else {
        seq![s.take(n)] + split_char(s.skip(n + 1), c)
    }
}

/// The parts of `s` between the occurrences of `c`, empty ones too.
pub fn split_char_text(s: &str, c: char) -> (r: Vec<String>)
    ensures
        views(r@) == split_char(s@, c),
{
    let v: Vec<char> = chars_of(s);
    let mut out: Vec<String> = Vec::new();
    let mut at: usize = 0;
    proof {
        assert(v@.skip(0) =~= v@);
        assert(views(out@) + split_char(v@, c) =~= split_char(v@, c));
    }
    loop
        invariant
            at <= v@.len(),
            v@ == s@,
            split_char(s@, c) == views(out@) + split_char(v@.skip(at as int), c),
        decreases v@.len() - at,
    {
        let n: usize = char_index(&v, c, at);
        let ghost rest = v@.skip(at as int);
        let ghost before = views(out@);
        proof {
            lemma_find_char_skip(v@, c, at as int, 0);
        }
        let part: String = string_of(&v, at, n);
        out.push(part);
        proof {
            assert(views(out@) =~= before + seq![part@]);
            assert(rest.take(n - at) =~= part@);
        }
        if n == v.len() {
            proof {
                assert(rest =~= part@);
                assert(views(out@) =~= split_char(s@, c));
            }
            return out;
        }
        proof {
            assert(rest.skip(n - at + 1) =~= v@.skip(n + 1));
            assert(views(out@) + split_char(v@.skip(n + 1), c) =~= before + split_char(rest, c));
        }
        at = n + 1;
    }
}

// ---------------------------------------------------------------------------
// Ordering
// ---------------------------------------------------------------------------

/// Lexicographic order by code point, which is the byte order of UTF-8.
pub open spec fn text_le(a: Seq<char>, b: Seq<char>) -> bool
    decreases a.len(),
{
    if a.len() == 0 {
        true
    } else if b.len() == 0 {
        false
    } else if a[0] != b[0] {
        (a[0] as u32) < (b[0] as u32)
    } else {
        text_le(a.skip(1), b.skip(1))
    }
}

/// The order is total.
pub proof fn lemma_text_le_total(a: Seq<char>, b: Seq<char>)
    ensures
        text_le(a, b) || text_le(b, a),
        text_le(a, b) && text_le(b, a) ==> a == b,
    decreases a.len(),
{
    if a.len() > 0 && b.len() > 0 {
        lemma_text_le_total(a.skip(1), b.skip(1));
        char_u32_cast(a[0], a[0] as u32);
        char_u32_cast(b[0], b[0] as u32);
        if text_le(a, b) && text_le(b, a) {
            assert(a[0] == b[0]);
            assert(a =~= seq![a[0]] + a.skip(1));
            assert(b =~= seq![b[0]] + b.skip(1));
        }
    } else if text_le(a, b) && text_le(b, a) {
        assert(a =~= b);
    }
}

/// The order is transitive.
pub proof fn lemma_text_le_trans(a: Seq<char>, b: Seq<char>, c: Seq<char>)
    requires
        text_le(a, b),
        text_le(b, c),
    ensures
        text_le(a, c),
    decreases a.len(),
{
    if a.len() > 0 {
        if a[0] == b[0] && b[0] == c[0] {
            lemma_text_le_trans(a.skip(1), b.skip(1), c.skip(1));
        }
    }
}

/// Whether `a` comes no later than `b`.
pub fn text_no_later(a: &str, b: &str) -> (r: bool)
    ensures
        r == text_le(a@, b@),
{
    let x: Vec<char> = chars_of(a);
    let y: Vec<char> = chars_of(b);
    let mut i: usize = 0;
    proof {
        assert(x@.skip(0) =~= x@);
        assert(y@.skip(0) =~= y@);
    }
    while i < x.len() && i < y.len() && x[i] == y[i]
        invariant
            i <= x@.len(),
            i <= y@.len(),
            text_le(x@, y@) == text_le(x@.skip(i as int), y@.skip(i as int)),
        decreases x@.len() - i,
    {
        proof {
            assert(x@.skip(i as int).skip(1) =~= x@.skip(i + 1));
            assert(y@.skip(i as int).skip(1) =~= y@.skip(i + 1));
        }
        i = i + 1;
    }
    if i == x.len() {
        true
    } else if i == y.len() {
        false
    } else {
        (x[i] as u32) < (y[i] as u32)
    }
}

} // verus!

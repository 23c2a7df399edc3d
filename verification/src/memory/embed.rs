//! The vectors of semantic recall. A component is the bit pattern of a 32-bit
//! floating-point number; without a vector, recall goes by words alone.
use vstd::prelude::*;
use vstd::string::*;
use crate::text;
use crate::text::{is_blank, trim_end_char_text};

verus! {

/// Turns text into a vector, where one is to be had.
pub trait Embedder {
    /// The vector of a query.
    fn embed_query(&self, query: &str) -> Option<Vec<u32>>;

    /// The vector of a chunk.
    fn embed_chunk(&self, text: &str) -> Option<Vec<u32>>;
}

/// The embedder that has no vectors.
#[derive(Debug, Clone, Copy)]
pub struct NoopEmbedder;

impl Embedder for NoopEmbedder {
    fn embed_query(&self, query: &str) -> (r: Option<Vec<u32>>)
        ensures
            r is None,
    {
        None
    }

    fn embed_chunk(&self, text: &str) -> (r: Option<Vec<u32>>)
        ensures
            r is None,
    {
        None
    }
}

/// Where the vectors of a server are asked for.
pub open spec fn endpoint(base: Seq<char>) -> Seq<char> {
    text::trim_end_char(base, '/') + "/embeddings"@
}

/// Where the vectors of a server are asked for; slashes at the end of its
/// address do not matter.
pub fn embeddings_endpoint(base_url: &str) -> (r: String)
    ensures
        r@ == endpoint(base_url@),
{
    let mut out: String = trim_end_char_text(base_url, '/');
    out.append("/embeddings");
    out
}

/// Whether a component is zero, of either sign.
pub open spec fn is_zero(bits: u32) -> bool {
    bits == 0 || bits == 0x8000_0000
}

/// Whether a vector is of use: it has components, and not all of them are zero.
pub open spec fn usable(v: Seq<u32>) -> bool {
    exists|i: int| 0 <= i < v.len() && !is_zero(#[trigger] v[i])
}

/// The vector that a server answered with, where it is of use. `answer` is
/// absent where the server could not be asked or did not answer with success.
/// Blank text has none.
pub fn accept_vector(input: &str, answer: Option<Vec<u32>>) -> (r: Option<Vec<u32>>)
    ensures
        r == if answer is Some && !text::blank(input@) && usable(answer->0@) {
            answer
        } else {
            None
        },
{
    if is_blank(input) {
        return None;
    }
    let ghost given = answer;
    let v: Vec<u32> = match answer {
        Some(v) => v,
        None => {
            return None;
        },
    };
    let mut i: usize = 0;
    while i < v.len()
        invariant
            i <= v@.len(),
            given == Some(v),
            !text::blank(input@),
            given == answer,
            forall|j: int| 0 <= j < i ==> is_zero(#[trigger] v@[j]),
        decreases v@.len() - i,
    {
        if v[i] != 0 && v[i] != 0x8000_0000 {
            assert(!is_zero(v@[i as int]));
            return Some(v);
        }
        i = i + 1;
    }
    None
}

/// Whether text is worth asking a server for: blank text never is.
pub fn worth_asking(input: &str) -> (r: bool)
    ensures
        r == !text::blank(input@),
{
    !is_blank(input)
}

// ---------------------------------------------------------------------------
// Stored vectors
// ---------------------------------------------------------------------------

/// The four bytes of a component, the lowest first.
pub open spec fn le_bytes(x: u32) -> Seq<u8> {
    seq![
        (x % 256) as u8,
        (x / 256 % 256) as u8,
        (x / 65536 % 256) as u8,
        (x / 16777216) as u8,
    ]
}

/// A vector as it is stored: its components one behind the other.
pub open spec fn blob(v: Seq<u32>) -> Seq<u8>
    decreases v.len(),
{
    if v.len() == 0 {
        Seq::empty()
    } else {
        blob(v.drop_last()) + le_bytes(v.last())
    }
}

/// The component that four bytes stand for.
pub open spec fn from_le(a: u8, b: u8, c: u8, d: u8) -> int {
    a + 256 * b + 65536 * c + 16777216 * d
}

/// The vector that stored bytes stand for. Bytes past the last four are ignored.
pub open spec fn unblob(b: Seq<u8>) -> Seq<int> {
    Seq::new(
        b.len() / 4,
        |i: int| from_le(b[4 * i], b[4 * i + 1], b[4 * i + 2], b[4 * i + 3]),
    )
}

/// A vector as it is stored.
pub fn vec_to_blob(v: &Vec<u32>) -> (r: Vec<u8>)
    ensures
        r@ == blob(v@),
{
    let mut out: Vec<u8> = Vec::new();
    let mut i: usize = 0;
    proof {
        assert(v@.take(0) =~= Seq::<u32>::empty());
    }
    while i < v.len()
        invariant
            i <= v@.len(),
            out@ == blob(v@.take(i as int)),
        decreases v@.len() - i,
    {
        let x: u32 = v[i];
        let ghost before = out@;
        out.push((x % 256) as u8);
        out.push((x / 256 % 256) as u8);
        out.push((x / 65536 % 256) as u8);
        out.push((x / 16777216) as u8);
        proof {
            assert(out@ =~= before + le_bytes(x));
            assert(v@.take(i + 1).drop_last() =~= v@.take(i as int));
        }
        i = i + 1;
    }
    proof {
        assert(v@.take(i as int) =~= v@);
    }
    out
}

/// The vector that stored bytes stand for. Bytes past the last four are ignored.
pub fn blob_to_vec(b: &Vec<u8>) -> (r: Vec<u32>)
    ensures
        r@.map_values(|x: u32| x as int) == unblob(b@),
{
    let mut out: Vec<u32> = Vec::new();
    let len: usize = b.len();
    let n: usize = len / 4;
    let mut i: usize = 0;
    while i < n
        invariant
            i <= n,
            len == b@.len(),
            n == b@.len() / 4,
            out@.len() == i,
            forall|j: int|
                0 <= j < i ==> #[trigger] out@[j] == from_le(
                    b@[4 * j],
                    b@[4 * j + 1],
                    b@[4 * j + 2],
                    b@[4 * j + 3],
                ),
        decreases n - i,
    {
        assert(4 * i + 3 < len);
        let x: u32 = b[4 * i] as u32 + 256 * (b[4 * i + 1] as u32) + 65536 * (b[4 * i + 2] as u32)
            + 16777216 * (b[4 * i + 3] as u32);
        out.push(x);
        i = i + 1;
    }
    assert(out@.map_values(|x: u32| x as int) =~= unblob(b@));
    out
}

/// A stored vector takes four bytes for each component.
proof fn lemma_blob_len(v: Seq<u32>)
    ensures
        blob(v).len() == 4 * v.len(),
    decreases v.len(),
{
    if v.len() > 0 {
        lemma_blob_len(v.drop_last());
    }
}

/// The bytes of each component of a stored vector.
proof fn lemma_blob_at(v: Seq<u32>, i: int)
    requires
        0 <= i < v.len(),
    ensures
        blob(v).len() == 4 * v.len(),
        blob(v)[4 * i] == le_bytes(v[i])[0],
        blob(v)[4 * i + 1] == le_bytes(v[i])[1],
        blob(v)[4 * i + 2] == le_bytes(v[i])[2],
        blob(v)[4 * i + 3] == le_bytes(v[i])[3],
    decreases v.len(),
{
    lemma_blob_len(v);
    lemma_blob_len(v.drop_last());
    if i < v.len() - 1 {
        lemma_blob_at(v.drop_last(), i);
    }
}

/// A stored vector is read back as it was stored.
pub proof fn law_stored_vector_is_read_back(v: Seq<u32>)
    ensures
        unblob(blob(v)) == v.map_values(|x: u32| x as int),
{
    lemma_blob_len(v);
    assert forall|i: int| 0 <= i < v.len() implies #[trigger] unblob(blob(v))[i] == v[i] as int by {
        lemma_blob_at(v, i);
        let x = v[i];
        assert(x % 256 + 256 * (x / 256 % 256) + 65536 * (x / 65536 % 256) + 16777216 * (x
            / 16777216) == x) by (nonlinear_arith);
    }
    assert(unblob(blob(v)) =~= v.map_values(|x: u32| x as int));
}

} // verus!

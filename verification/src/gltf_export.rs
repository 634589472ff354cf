//! Vertex data prepared for glTF buffers.
use vstd::prelude::*;
use vstd::string::StringExecFns;
use base64::Engine;

verus! {

/// A list of vertex indices.
#[derive(Debug, Default, Clone, PartialEq, PartialOrd, Hash)]
pub struct Indices(Vec<u32>);

impl View for Indices {
    type V = Seq<u32>;

    closed spec fn view(&self) -> Seq<u32> {
        self.0@
    }
}

impl Indices {
    /// The indices in `v`, in order.
    pub fn from_vec(v: Vec<u32>) -> (r: Indices)
        ensures
            r@ == v@,
    {
        Indices(v)
    }

    /// The indices, in order.
    pub fn into_vec(self) -> (r: Vec<u32>)
        ensures
            r@ == self@,
    {
        self.0
    }

    /// The indices, in order.
    pub fn as_vec(&self) -> (r: &Vec<u32>)
        ensures
            r@ == self@,
    {
        &self.0
    }
}


/// The character of the standard base64 alphabet (`A`-`Z`, `a`-`z`, `0`-`9`, `+`, `/`)
/// for the six-bit value `v`.
pub open spec fn base64_char(v: int) -> char {
    if v < 26 {
        (65 + v) as char
    } else if v < 52 {
        (97 + v - 26) as char
    } else if v < 62 {
        (48 + v - 52) as char
    } else if v == 62 {
        '+'
    } else {
        '/'
    }
}

/// The standard base64 encoding of `b`: each group of three bytes, read as 24 bits from the
/// first byte's high bit, gives four characters of six bits each; a last group of one or two
/// bytes is read with zero bits after it and padded with `=` to four characters.
pub open spec fn base64_standard(b: Seq<u8>) -> Seq<char>
    decreases b.len(),
{
    let x = b[0] as int;
    let y = if b.len() > 1 { b[1] as int } else { 0 };
    let z = if b.len() > 2 { b[2] as int } else { 0 };
    if b.len() == 0 {
        Seq::empty()
    } else if b.len() == 1 {
        seq![base64_char(x / 4), base64_char((x % 4) * 16), '=', '=']
    } else if b.len() == 2 {
        seq![base64_char(x / 4), base64_char((x % 4) * 16 + y / 16), base64_char((y % 16) * 4), '=']
    } else {
        seq![
            base64_char(x / 4),
            base64_char((x % 4) * 16 + y / 16),
            base64_char((y % 16) * 4 + z / 64),
            base64_char(z % 64),
        ] + base64_standard(b.subrange(3, b.len() as int))
    }
}

/// Four characters for every started group of three bytes.
pub proof fn lemma_base64_standard_len(b: Seq<u8>)
    ensures
        base64_standard(b).len() == 4 * ((b.len() + 2) / 3),
    decreases b.len(),
{
    if b.len() >= 3 {
        lemma_base64_standard_len(b.subrange(3, b.len() as int));
    }
}

/// Encodes `bytes` with `base64::engine::general_purpose::STANDARD`.
///
/// Trusted: that engine uses the standard alphabet and pads with `=` (its configuration
/// `PAD`), so its text is `base64_standard` of the bytes. The crate panics where the length
/// of the text overflows `usize`, which `requires` rules out.
#[verifier::external_body]
fn encode_base64(bytes: &Vec<u8>) -> (r: String)
    requires
        bytes@.len() / 3 * 4 + 4 <= usize::MAX,
    ensures
        r@ == base64_standard(bytes@),
{
    base64::engine::general_purpose::STANDARD.encode(bytes)
}

/// The little-endian bytes of `w`.
pub open spec fn le_bytes(w: u32) -> Seq<u8> {
    seq![(w % 256) as u8, ((w / 256) % 256) as u8, ((w / 65536) % 256) as u8, (w / 16777216) as u8]
}

/// The little-endian bytes of each word, in order.
pub open spec fn words_le_bytes(words: Seq<u32>) -> Seq<u8>
    decreases words.len(),
{
    if words.len() == 0 {
        Seq::empty()
    } else {
        words_le_bytes(words.drop_last()) + le_bytes(words.last())
    }
}

/// Each word gives four bytes.
proof fn lemma_words_le_bytes_len(words: Seq<u32>)
    ensures
        words_le_bytes(words).len() == 4 * words.len(),
    decreases words.len(),
{
    if words.len() > 0 {
        lemma_words_le_bytes_len(words.drop_last());
    }
}

/// The bytes of 32-bit words as a glTF buffer lays them out: each word little-endian, in order.
pub fn words_to_bytes(words: &Vec<u32>) -> (r: Vec<u8>)
    requires
        words@.len() * 4 <= usize::MAX,
    ensures
        r@ == words_le_bytes(words@),
        r@.len() == 4 * words@.len(),
{
    let mut out: Vec<u8> = Vec::new();
    let mut i: usize = 0;
    while i < words.len()
        invariant
            i <= words@.len(),
            out@ == words_le_bytes(words@.subrange(0, i as int)),
        decreases words@.len() - i,
    {
        let w = words[i];
        out.push((w % 256) as u8);
        out.push(((w / 256) % 256) as u8);
        out.push(((w / 65536) % 256) as u8);
        out.push((w / 16777216) as u8);
        proof {
            assert(words@.subrange(0, i + 1).drop_last() =~= words@.subrange(0, i as int));
            assert(out@ =~= words_le_bytes(words@.subrange(0, i as int)) + le_bytes(w));
        }
        i += 1;
    }
    proof {
        assert(words@.subrange(0, words@.len() as int) =~= words@);
        lemma_words_le_bytes_len(words@);
    }
    out
}

/// `bytes` followed by the fewest zero bytes that make its length a multiple of four.
pub open spec fn padded(bytes: Seq<u8>) -> Seq<u8> {
    bytes + Seq::new(((4 - bytes.len() % 4) % 4) as nat, |i: int| 0u8)
}

/// Pads `bytes` with zeros to a multiple of four bytes.
pub fn to_padded_byte_vector(bytes: Vec<u8>) -> (r: Vec<u8>)
    requires
        bytes@.len() + 3 <= usize::MAX,
    ensures
        r@ == padded(bytes@),
        r@.len() % 4 == 0,
{
    let mut v = bytes;
    let ghost orig = v@;
    while v.len() % 4 != 0
        invariant
            orig.len() <= v@.len() <= orig.len() + 3,
            orig.len() + 3 <= usize::MAX,
            v@.subrange(0, orig.len() as int) == orig,
            forall|i: int| orig.len() <= i < v@.len() ==> v@[i] == 0,
            v@.len() - orig.len() <= (4 - orig.len() % 4) % 4,
        decreases orig.len() + 3 - v@.len(),
    {
        v.push(0);
    }
    proof {
        assert(v@ =~= padded(orig));
    }
    v
}

/// The data URI that embeds `bytes`, padded to four bytes, as a base64 glTF buffer.
pub fn to_data_uri(bytes: Vec<u8>) -> (r: String)
    requires
        (bytes@.len() + 3) / 3 * 4 + 4 <= usize::MAX,
    ensures
        r@ == "data:model/gltf-binary;base64,"@ + base64_standard(padded(bytes@)),
{
    let padded_bytes = to_padded_byte_vector(bytes);
    let prefix = "data:model/gltf-binary;base64,".to_owned();
    let encoded = encode_base64(&padded_bytes);
    prefix.concat(encoded.as_str())
}

/// Where a buffer of vertex data lands in a glTF document, and how it is read back.
#[derive(Debug, Clone, PartialEq)]
pub struct BufferLayout {
    /// Length of the buffer in bytes.
    pub byte_length: u32,
    /// Distance in bytes from one element to the next.
    pub byte_stride: u32,
    /// Number of elements.
    pub count: u32,
    /// Index of the new buffer among the document's buffers.
    pub buffer: u32,
    /// Index of the new view among the document's buffer views.
    pub buffer_view: u32,
    /// The buffer's bytes as a data URI.
    pub uri: String,
}

/// The layout of a buffer of `words` grouped into elements of `element_words` 32-bit words,
/// appended to a document that holds `buffers` buffers and `views` buffer views.
pub fn buffer_layout(words: &Vec<u32>, element_words: usize, buffers: usize, views: usize) -> (r:
    BufferLayout)
    requires
        element_words > 0,
        element_words * 4 <= usize::MAX,
        (words@.len() as int) % (element_words as int) == 0,
        (words@.len() * 4 + 3) / 3 * 4 + 4 <= usize::MAX,
    ensures
        r.byte_length == (words@.len() * 4) as u32,
        r.byte_stride == (element_words * 4) as u32,
        r.count == ((words@.len() as int) / (element_words as int)) as u32,
        r.buffer == buffers as u32,
        r.buffer_view == views as u32,
        r.uri@ == "data:model/gltf-binary;base64,"@ + base64_standard(padded(words_le_bytes(words@))),
{
    let bytes = words_to_bytes(words);
    proof {
        lemma_words_le_bytes_len(words@);
    }
    let vertex_size = element_words * 4;
    let vertex_count = words.len() / element_words;
    proof {
        assert(vertex_size * vertex_count == words@.len() * 4) by (nonlinear_arith)
            requires
                vertex_size == element_words * 4,
                vertex_count == (words@.len() as int) / (element_words as int),
                (words@.len() as int) % (element_words as int) == 0,
                element_words > 0,
        ;
    }
    BufferLayout {
        byte_length: (vertex_size * vertex_count) as u32,
        byte_stride: vertex_size as u32,
        count: vertex_count as u32,
        buffer: buffers as u32,
        buffer_view: views as u32,
        uri: to_data_uri(bytes),
    }
}

} // verus!

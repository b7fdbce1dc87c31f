//! Splitting documents into chunks.

use crate::keyed::Keyed;
use vstd::prelude::*;
use vstd::utf8::*;
use vstd::string::StringSliceAdditionalSpecFns;
use crate::text::{lemma_words_join_ws, contains_seq, occurs_at, find_from, lemma_split_pieces_maximal, lemma_occurs_in_subrange, words, words_in, lemma_words_in_push, lemma_words_trim, lemma_words_flatten, lemma_words_join, decimal, lemma_decimal_injective, trim, is_ws, join, lemma_trim_shape, lemma_split_join, split, split_from, lemma_find_from, find_pattern, chars_of, string_of, push_char, push_decimal, trim_bounds};

verus! {

/// A document to be processed: an identifier, its text and free-form metadata.
pub struct Document {
    /// Unique document identifier
    pub id: String,
    /// Textual content of the document
    pub content: String,
    /// Additional document metadata
    pub metadata: Keyed<String>,
}

impl Document {
    /// Creates a document with the given identifier and text and no metadata.
    pub fn new(id: &str, content: &str) -> (d: Document)
        ensures
            d.id@ == id@,
            d.content@ == content@,
            d.metadata.wf(),
            d.metadata@ == Map::<Seq<char>, String>::empty(),
    {
        Document { id: id.to_owned(), content: content.to_owned(), metadata: Keyed::new() }
    }

    /// Adds one metadata entry; an existing entry under the same key is replaced.
    pub fn with_metadata(self, key: &str, value: &str) -> (d: Document)
        requires
            self.metadata.wf(),
        ensures
            d.id == self.id,
            d.content == self.content,
            d.metadata.wf(),
            d.metadata@.contains_key(key@),
            d.metadata@[key@]@ == value@,
            d.metadata@ == self.metadata@.insert(key@, d.metadata@[key@]),
    {
        let mut d = self;
        let k = key.to_owned();
        let v = value.to_owned();
        d.metadata.insert(k, v);
        d
    }
}

/// The abstract value of a chunk.
pub struct ChunkView {
    pub id: Seq<char>,
    pub content: Seq<char>,
    pub document_id: Seq<char>,
    pub position: usize,
    pub metadata: Map<Seq<char>, String>,
}

/// A piece of a document.
#[derive(Debug)]
pub struct Chunk {
    /// Unique chunk identifier
    pub id: String,
    /// Textual content of the chunk
    pub content: String,
    /// Reference to the source document
    pub document_id: String,
    /// Position of the chunk in the original document
    pub position: usize,
    /// Metadata inherited from the document
    pub metadata: Keyed<String>,
}

impl View for Chunk {
    type V = ChunkView;

    open spec fn view(&self) -> ChunkView {
        ChunkView {
            id: self.id@,
            content: self.content@,
            document_id: self.document_id@,
            position: self.position,
            metadata: self.metadata@,
        }
    }
}

impl Clone for Chunk {
    fn clone(&self) -> (c: Chunk)
        ensures
            c@ == self@,
    {
        Chunk {
            id: self.id.clone(),
            content: self.content.clone(),
            document_id: self.document_id.clone(),
            position: self.position,
            metadata: self.metadata.clone(),
        }
    }
}

/// How a document is split into chunks.
#[derive(Debug, Clone, Copy)]
pub enum ChunkingStrategy {
    /// Split into pieces of at most this many bytes, preferring to cut before a space
    FixedSize(usize),
    /// Split at blank lines
    Paragraph,
    /// Split after each period that is followed by a space
    Sentence,
}


/// The identifier of the `i`-th chunk of the document `doc_id`: `"{doc_id}_{i}"`.
pub open spec fn chunk_id(doc_id: Seq<char>, i: nat) -> Seq<char> {
    doc_id + seq!['_'] + decimal(i)
}

/// The `i`-th chunk of `doc`, holding `content`.
pub open spec fn expected_chunk(doc: &Document, content: Seq<char>, i: int) -> ChunkView {
    ChunkView {
        id: chunk_id(doc.id@, i as nat),
        content: content,
        document_id: doc.id@,
        position: i as usize,
        metadata: doc.metadata@,
    }
}

/// The trimmed pieces that are not empty, in order.
pub open spec fn kept(raw: Seq<Seq<char>>) -> Seq<Seq<char>>
    decreases raw.len(),
{
    if raw.len() == 0 {
        seq![]
    } else {
        let t = trim(raw.last());
        if t.len() > 0 {
            kept(raw.drop_last()).push(t)
        } else {
            kept(raw.drop_last())
        }
    }
}

/// `chunks` are the chunks of `doc` whose contents are `texts`, each followed by `suffix`.
pub open spec fn chunks_match(
    doc: &Document,
    texts: Seq<Seq<char>>,
    suffix: Seq<char>,
    chunks: Seq<Chunk>,
) -> bool {
    &&& chunks.len() == texts.len()
    &&& forall|i: int|
        0 <= i < chunks.len() ==> #[trigger] chunks[i]@ == expected_chunk(doc, texts[i] + suffix, i)
}

/// The suffix that a sentence chunk gets (a period), or none.
pub open spec fn suffix_of(dot: bool) -> Seq<char> {
    if dot {
        seq!['.']
    } else {
        seq![]
    }
}

/// Turns the piece `v[lo..hi]` into the next chunk, unless it is blank.
fn push_piece(
    doc: &Document,
    chunks: &mut Vec<Chunk>,
    v: &Vec<char>,
    lo: usize,
    hi: usize,
    dot: bool,
    Ghost(done): Ghost<Seq<Seq<char>>>,
)
    requires
        lo <= hi <= v.len(),
        chunks_match(doc, kept(done), suffix_of(dot), old(chunks)@),
    ensures
        chunks_match(doc, kept(done.push(v@.subrange(lo as int, hi as int))), suffix_of(dot), final(chunks)@),
{
    let ghost raw = done.push(v@.subrange(lo as int, hi as int));
    assert(raw.drop_last() =~= done);
    let (a, b) = trim_bounds(v, lo, hi);
    if a < b {
        let pos = chunks.len();
        let mut content = string_of(v, a, b);
        if dot {
            push_char(&mut content, '.');
        }
        let mut id = doc.id.clone();
        push_char(&mut id, '_');
        push_decimal(&mut id, pos);
        let chunk = Chunk {
            id,
            content,
            document_id: doc.id.clone(),
            position: pos,
            metadata: doc.metadata.clone(),
        };
        chunks.push(chunk);
        proof {
            let texts = kept(raw);
            assert(texts == kept(done).push(v@.subrange(a as int, b as int)));
            assert(chunks@[pos as int]@.content =~= texts[pos as int] + suffix_of(dot));
            assert(chunks@[pos as int]@.id =~= chunk_id(doc.id@, pos as nat));
            assert forall|i: int| 0 <= i < chunks@.len() implies #[trigger] chunks@[i]@
                == expected_chunk(doc, texts[i] + suffix_of(dot), i) by {
                if i < pos {
                    assert(chunks@[i] == old(chunks)@[i]);
                }
            }
        }
    } else {
        assert(kept(raw) == kept(done));
    }
}


/// The chunks made from the pieces of `doc` between occurrences of `sep`.
fn chunk_by_separator(doc: &Document, sep: &Vec<char>, dot: bool) -> (chunks: Vec<Chunk>)
    requires
        sep@.len() > 0,
    ensures
        chunks_match(doc, kept(split(doc.content@, sep@)), suffix_of(dot), chunks@),
{
    let v = chars_of(doc.content.as_str());
    let n = v.len();
    let mut chunks: Vec<Chunk> = Vec::new();
    let mut k: usize = 0;
    let ghost mut done: Seq<Seq<char>> = seq![];
    loop
        invariant_except_break
            k <= n,
            n == v@.len(),
            v@ == doc.content@,
            sep@.len() > 0,
            split(v@, sep@) == done + split_from(v@, sep@, k as int),
            chunks_match(doc, kept(done), suffix_of(dot), chunks@),
        ensures
            v@ == doc.content@,
            chunks_match(doc, kept(split(v@, sep@)), suffix_of(dot), chunks@),
        decreases n - k,
    {
        match find_pattern(&v, sep, k) {
            Some(i) => {
                proof {
                    lemma_find_from(v@, sep@, k as int);
                }
                push_piece(doc, &mut chunks, &v, k, i, dot, Ghost(done));
                proof {
                    let piece = v@.subrange(k as int, i as int);
                    assert(done + split_from(v@, sep@, k as int) =~= done.push(piece) + split_from(
                        v@,
                        sep@,
                        i + sep@.len(),
                    ));
                    done = done.push(piece);
                }
                k = i + sep.len();
            },
            None => {
                push_piece(doc, &mut chunks, &v, k, n, dot, Ghost(done));
                proof {
                    let piece = v@.subrange(k as int, n as int);
                    assert(split(v@, sep@) =~= done.push(piece));
                }
                break ;
            },
        }
    }
    chunks
}

/// The separator of paragraphs: a blank line.
pub open spec fn paragraph_separator() -> Seq<char> {
    seq!['\n', '\n']
}

/// The separator of sentences: a period followed by a space.
pub open spec fn sentence_separator() -> Seq<char> {
    seq!['.', ' ']
}

/// One chunk per paragraph: the text between blank lines, trimmed, blank ones skipped.
fn chunk_by_paragraph(doc: &Document) -> (chunks: Vec<Chunk>)
    ensures
        chunks_match(doc, kept(split(doc.content@, paragraph_separator())), seq![], chunks@),
{
    let sep = vec!['\n', '\n'];
    assert(sep@ == paragraph_separator());
    chunk_by_separator(doc, &sep, false)
}

/// One chunk per sentence: the text between `". "` separators, trimmed, blank
/// ones skipped, each closed by a period.
fn chunk_by_sentence(doc: &Document) -> (chunks: Vec<Chunk>)
    ensures
        chunks_match(doc, kept(split(doc.content@, sentence_separator())), seq!['.'], chunks@),
{
    let sep = vec!['.', ' '];
    assert(sep@ == sentence_separator());
    chunk_by_separator(doc, &sep, true)
}


/// The index of the last space byte in `b[lo..hi]`, as `rfind(' ')` finds it.
pub open spec fn last_space(b: Seq<u8>, lo: int, hi: int) -> Option<int>
    decreases hi - lo,
{
    if hi <= lo {
        None
    } else if b[hi - 1] == 32u8 {
        Some(hi - 1)
    } else {
        last_space(b, lo, hi - 1)
    }
}

/// Where the fixed-size piece that starts at byte `cur` ends: at the end of the
/// text when fewer than `size` bytes are left, else at the last space of the
/// next `size` bytes, else after those `size` bytes.
pub open spec fn fixed_end(b: Seq<u8>, size: int, cur: int) -> int {
    if cur + size >= b.len() {
        b.len() as int
    } else {
        match last_space(b, cur, cur + size) {
            Some(j) => j,
            None => cur + size,
        }
    }
}

/// Fixed-size chunking from byte `cur` on ends and never slices inside a
/// character: each step moves forward, the window end `cur + size` is a
/// character boundary whenever it lies inside the text, and `cur + size` fits
/// in a `usize`.
pub open spec fn fixed_ok(b: Seq<u8>, size: int, cur: int) -> bool
    decreases b.len() - cur,
{
    if cur >= b.len() {
        true
    } else {
        let e = fixed_end(b, size, cur);
        if cur < e <= b.len() {
            &&& cur + size <= usize::MAX
            &&& (cur + size >= b.len() || is_char_boundary(b, cur + size))
            &&& fixed_ok(b, size, e)
        } else {
            false
        }
    }
}

/// The raw fixed-size pieces of the UTF-8 text `b`, from byte `cur` on.
pub open spec fn fixed_pieces(b: Seq<u8>, size: int, cur: int) -> Seq<Seq<char>>
    decreases b.len() - cur,
{
    if cur >= b.len() {
        seq![]
    } else {
        let e = fixed_end(b, size, cur);
        if cur < e <= b.len() {
            seq![decode_utf8(b.subrange(cur, e))] + fixed_pieces(b, size, e)
        } else {
            seq![]
        }
    }
}

/// The last space byte of `b[lo..hi]`.
fn last_space_in(b: &[u8], lo: usize, hi: usize) -> (r: Option<usize>)
    requires
        lo <= hi <= b@.len(),
    ensures
        r matches Some(j) ==> last_space(b@, lo as int, hi as int) == Some(j as int),
        r is None ==> last_space(b@, lo as int, hi as int) is None,
{
    let mut h = hi;
    while h > lo
        invariant
            lo <= h <= hi <= b@.len(),
            last_space(b@, lo as int, hi as int) == last_space(b@, lo as int, h as int),
        decreases h - lo,
    {
        if b[h - 1] == 32u8 {
            return Some(h - 1);
        }
        h = h - 1;
    }
    None
}

/// A found space lies inside the searched range and holds a space.
proof fn lemma_last_space(b: Seq<u8>, lo: int, hi: int)
    requires
        hi <= b.len(),
    ensures
        last_space(b, lo, hi) matches Some(j) ==> lo <= j < hi && b[j] == 32u8,
    decreases hi - lo,
{
    if hi > lo && b[hi - 1] != 32u8 {
        lemma_last_space(b, lo, hi - 1);
    }
}

/// Pieces of at most `size` bytes, each ending at the end of the text, before
/// a space, or at the window end.
fn chunk_by_fixed_size(doc: &Document, size: usize) -> (chunks: Vec<Chunk>)
    requires
        fixed_ok(encode_utf8(doc.content@), size as int, 0),
    ensures
        chunks_match(doc, kept(fixed_pieces(encode_utf8(doc.content@), size as int, 0)), seq![], chunks@),
{
    broadcast use encode_utf8_valid_utf8, encode_utf8_decode_utf8, is_char_boundary_start_end_of_seq;

    let s = doc.content.as_str();
    let bytes = s.as_bytes();
    let len = bytes.len();
    let ghost b = encode_utf8(doc.content@);
    assert(bytes@ == b);
    let mut chunks: Vec<Chunk> = Vec::new();
    let mut cur: usize = 0;
    let ghost mut done: Seq<Seq<char>> = seq![];
    assert(done + fixed_pieces(b, size as int, 0) =~= fixed_pieces(b, size as int, 0));
    while cur < len
        invariant
            s@ == doc.content@,
            b == encode_utf8(doc.content@),
            bytes@ == b,
            len == b.len(),
            valid_utf8(b),
            cur <= len,
            is_char_boundary(b, cur as int),
            fixed_ok(b, size as int, cur as int),
            fixed_pieces(b, size as int, 0) == done + fixed_pieces(b, size as int, cur as int),
            chunks_match(doc, kept(done), seq![], chunks@),
        decreases len - cur,
    {
        let end = if size >= len - cur {
            len
        } else {
            let hi = cur + size;
            match last_space_in(bytes, cur, hi) {
                Some(j) => j,
                None => hi,
            }
        };
        proof {
            is_char_boundary_start_end_of_seq(b);
            if cur + size < len {
                lemma_last_space(b, cur as int, cur + size);
                if end < cur + size {
                    is_char_boundary_iff_not_is_continuation_byte(b, end as int);
                }
            }
            assert(end == fixed_end(b, size as int, cur as int));
            assert(is_char_boundary(b, end as int));
        }
        let (left, _) = s.split_at(end);
        proof {
            assert(left.spec_bytes() == b.subrange(0, end as int));
            valid_utf8_split(b, end as int);
            is_char_boundary_iff_not_is_continuation_byte(b, cur as int);
            is_char_boundary_iff_not_is_continuation_byte(left.spec_bytes(), cur as int);
        }
        let (_, piece) = left.split_at(cur);
        let pv = chars_of(piece);
        proof {
            assert(piece.spec_bytes() =~= b.subrange(cur as int, end as int));
            encode_utf8_decode_utf8(piece@);
            assert(pv@ == decode_utf8(b.subrange(cur as int, end as int)));
            assert(pv@.subrange(0, pv@.len() as int) =~= pv@);
        }
        push_piece(doc, &mut chunks, &pv, 0, pv.len(), false, Ghost(done));
        proof {
            let p = decode_utf8(b.subrange(cur as int, end as int));
            assert(done + fixed_pieces(b, size as int, cur as int) =~= done.push(p) + fixed_pieces(
                b,
                size as int,
                end as int,
            ));
            done = done.push(p);
        }
        cur = end;
    }
    assert(done =~= fixed_pieces(b, size as int, 0));
    chunks
}


/// The texts that `strategy` can split: fixed-size chunking would loop forever
/// or slice inside a character outside this predicate; the other strategies
/// take any text.
pub open spec fn chunkable(content: Seq<char>, strategy: ChunkingStrategy) -> bool {
    match strategy {
        ChunkingStrategy::FixedSize(size) => fixed_ok(encode_utf8(content), size as int, 0),
        _ => true,
    }
}

/// The raw pieces that `strategy` cuts `content` into, before trimming.
pub open spec fn raw_pieces(content: Seq<char>, strategy: ChunkingStrategy) -> Seq<Seq<char>> {
    match strategy {
        ChunkingStrategy::FixedSize(size) => fixed_pieces(encode_utf8(content), size as int, 0),
        ChunkingStrategy::Paragraph => split(content, paragraph_separator()),
        ChunkingStrategy::Sentence => split(content, sentence_separator()),
    }
}

/// The text each chunk is made from: the non-blank raw pieces, trimmed.
pub open spec fn chunk_texts(content: Seq<char>, strategy: ChunkingStrategy) -> Seq<Seq<char>> {
    kept(raw_pieces(content, strategy))
}

/// What follows each chunk text in its chunk: a period for sentences, nothing otherwise.
pub open spec fn chunk_suffix(strategy: ChunkingStrategy) -> Seq<char> {
    match strategy {
        ChunkingStrategy::Sentence => seq!['.'],
        _ => seq![],
    }
}

/// Splits a document into chunks according to the strategy.
///
/// Chunk `i` holds the `i`-th non-blank piece, trimmed (and closed by a period
/// for sentences); its identifier is `"{doc.id}_{i}"`, its position `i`, and it
/// carries the document's identifier and metadata.
pub fn chunk_document(doc: &Document, strategy: &ChunkingStrategy) -> (chunks: Vec<Chunk>)
    requires
        chunkable(doc.content@, *strategy),
    ensures
        chunks_match(doc, chunk_texts(doc.content@, *strategy), chunk_suffix(*strategy), chunks@),
{
    match strategy {
        ChunkingStrategy::FixedSize(size) => chunk_by_fixed_size(doc, *size),
        ChunkingStrategy::Paragraph => chunk_by_paragraph(doc),
        ChunkingStrategy::Sentence => chunk_by_sentence(doc),
    }
}

/// Whether fixed-size chunking of `content` with `size` ends without slicing
/// inside a character.
fn fixed_size_ok(content: &str, size: usize) -> (ok: bool)
    ensures
        ok == fixed_ok(encode_utf8(content@), size as int, 0),
{
    broadcast use encode_utf8_valid_utf8, is_char_boundary_start_end_of_seq;

    let bytes = content.as_bytes();
    let len = bytes.len();
    let ghost b = encode_utf8(content@);
    assert(bytes@ == b);
    let mut cur: usize = 0;
    while cur < len
        invariant
            bytes@ == b,
            len == b.len(),
            b == encode_utf8(content@),
            cur <= len,
            fixed_ok(b, size as int, 0) == fixed_ok(b, size as int, cur as int),
        decreases len - cur,
    {
        if size > usize::MAX - cur {
            return false;
        }
        let end = if size >= len - cur {
            len
        } else {
            let hi = cur + size;
            if !content.is_char_boundary(hi) {
                return false;
            }
            match last_space_in(bytes, cur, hi) {
                Some(j) => j,
                None => hi,
            }
        };
        proof {
            if cur + size < len {
                lemma_last_space(b, cur as int, cur + size);
            }
            assert(end == fixed_end(b, size as int, cur as int));
        }
        if end <= cur {
            return false;
        }
        cur = end;
    }
    true
}

/// Whether `chunk_document` can split `doc` with `strategy`: fixed-size
/// chunking must make progress at every step and cut only at character boundaries.
pub fn is_chunkable(doc: &Document, strategy: &ChunkingStrategy) -> (ok: bool)
    ensures
        ok == chunkable(doc.content@, *strategy),
{
    match strategy {
        ChunkingStrategy::FixedSize(size) => fixed_size_ok(doc.content.as_str(), *size),
        _ => true,
    }
}


/// What each kept text is: a non-empty trimmed raw piece.
proof fn lemma_kept(raw: Seq<Seq<char>>)
    ensures
        forall|i: int|
            0 <= i < kept(raw).len() ==> (#[trigger] kept(raw)[i]).len() > 0 && exists|j: int|
                0 <= j < raw.len() && #[trigger] trim(raw[j]) == kept(raw)[i],
    decreases raw.len(),
{
    if raw.len() > 0 {
        let prev = raw.drop_last();
        lemma_kept(prev);
        assert forall|i: int| 0 <= i < kept(raw).len() implies (#[trigger] kept(raw)[i]).len() > 0
            && exists|j: int| 0 <= j < raw.len() && #[trigger] trim(raw[j]) == kept(raw)[i] by {
            if i < kept(prev).len() {
                let j = choose|j: int| 0 <= j < prev.len() && #[trigger] trim(prev[j]) == kept(prev)[i];
                assert(raw[j] == prev[j]);
            } else {
                assert(trim(raw[raw.len() - 1]) == kept(raw)[i]);
            }
        }
    }
}

/// Every chunk holds text: its text is not empty and neither starts nor ends
/// with whitespace.
pub proof fn lemma_chunk_texts_not_blank(content: Seq<char>, strategy: ChunkingStrategy)
    ensures
        forall|i: int|
            0 <= i < chunk_texts(content, strategy).len() ==> {
                let t = #[trigger] chunk_texts(content, strategy)[i];
                &&& t.len() > 0
                &&& !is_ws(t[0])
                &&& !is_ws(t.last())
            },
{
    let raw = raw_pieces(content, strategy);
    lemma_kept(raw);
    assert forall|i: int| 0 <= i < chunk_texts(content, strategy).len() implies {
        let t = #[trigger] chunk_texts(content, strategy)[i];
        &&& t.len() > 0
        &&& !is_ws(t[0])
        &&& !is_ws(t.last())
    } by {
        let j = choose|j: int| 0 <= j < raw.len() && #[trigger] trim(raw[j]) == kept(raw)[i];
        lemma_trim_shape(raw[j]);
    }
}

/// Splitting at blank lines or sentence ends loses no text: the raw pieces,
/// joined with the separator, give back the document's text.
pub proof fn lemma_separator_pieces_cover(content: Seq<char>, strategy: ChunkingStrategy)
    requires
        strategy is Paragraph || strategy is Sentence,
    ensures
        join(raw_pieces(content, strategy), match strategy {
            ChunkingStrategy::Paragraph => paragraph_separator(),
            _ => sentence_separator(),
        }) == content,
{
    let sep = match strategy {
        ChunkingStrategy::Paragraph => paragraph_separator(),
        _ => sentence_separator(),
    };
    lemma_split_join(content, sep, 0);
    assert(content.subrange(0, content.len() as int) =~= content);
}

/// UTF-8 encoding distributes over concatenation.
pub proof fn lemma_encode_concat(x: Seq<char>, y: Seq<char>)
    ensures
        encode_utf8(x + y) == encode_utf8(x) + encode_utf8(y),
    decreases x.len(),
{
    if x.len() > 0 {
        lemma_encode_concat(x.drop_first(), y);
        assert((x + y).drop_first() =~= x.drop_first() + y);
        assert((x + y)[0] == x[0]);
        assert(encode_utf8(x + y) =~= encode_utf8(x) + encode_utf8(y));
    } else {
        assert(x + y =~= y);
    }
}

/// A part of a text takes no more bytes than the text.
pub proof fn lemma_encode_subrange_len(s: Seq<char>, a: int, b: int)
    requires
        0 <= a <= b <= s.len(),
    ensures
        encode_utf8(s.subrange(a, b)).len() <= encode_utf8(s).len(),
{
    let pre = s.subrange(0, a);
    let mid = s.subrange(a, b);
    let post = s.subrange(b, s.len() as int);
    assert(s =~= pre + mid + post);
    lemma_encode_concat(pre + mid, post);
    lemma_encode_concat(pre, mid);
}

/// The bytes between two character boundaries are valid UTF-8 and encode what they decode to.
proof fn lemma_slice_valid(b: Seq<u8>, lo: int, hi: int)
    requires
        valid_utf8(b),
        0 <= lo <= hi <= b.len(),
        is_char_boundary(b, lo),
        is_char_boundary(b, hi),
    ensures
        valid_utf8(b.subrange(lo, hi)),
        encode_utf8(decode_utf8(b.subrange(lo, hi))) == b.subrange(lo, hi),
        decode_utf8(b.subrange(lo, b.len() as int)) == decode_utf8(b.subrange(lo, hi)) + decode_utf8(
            b.subrange(hi, b.len() as int),
        ),
{
    broadcast use is_char_boundary_start_end_of_seq;

    valid_utf8_split(b, hi);
    valid_utf8_split(b, lo);
    let left = b.subrange(0, hi);
    let right = b.subrange(lo, b.len() as int);
    if lo < hi {
        is_char_boundary_iff_not_is_continuation_byte(b, lo);
        is_char_boundary_iff_not_is_continuation_byte(left, lo);
        assert(left[lo] == b[lo]);
    }
    valid_utf8_split(left, lo);
    assert(left.subrange(lo, left.len() as int) =~= b.subrange(lo, hi));
    decode_utf8_encode_utf8(b.subrange(lo, hi));
    if hi < b.len() {
        is_char_boundary_iff_not_is_continuation_byte(b, hi);
        is_char_boundary_iff_not_is_continuation_byte(right, hi - lo);
        assert(right[hi - lo] == b[hi]);
    }
    decode_utf8_split(right, hi - lo);
    assert(right.subrange(0, hi - lo) =~= b.subrange(lo, hi));
    assert(right.subrange(hi - lo, right.len() as int) =~= b.subrange(hi, b.len() as int));
}

/// One step of fixed-size chunking moves forward by at most `size` bytes, to a boundary.
proof fn lemma_fixed_end(b: Seq<u8>, size: int, cur: int)
    requires
        valid_utf8(b),
        0 <= cur < b.len(),
        fixed_ok(b, size, cur),
    ensures
        cur < fixed_end(b, size, cur) <= b.len(),
        fixed_end(b, size, cur) - cur <= size,
        is_char_boundary(b, fixed_end(b, size, cur)),
        fixed_ok(b, size, fixed_end(b, size, cur)),
{
    broadcast use is_char_boundary_start_end_of_seq;

    let e = fixed_end(b, size, cur);
    if cur + size < b.len() {
        lemma_last_space(b, cur, cur + size);
        if e < cur + size {
            is_char_boundary_iff_not_is_continuation_byte(b, e);
        }
    }
}

/// The fixed-size pieces from a boundary on: each takes at most `size` bytes,
/// and together they are the rest of the text.
proof fn lemma_fixed_pieces(b: Seq<u8>, size: int, cur: int)
    requires
        valid_utf8(b),
        0 <= cur <= b.len(),
        is_char_boundary(b, cur),
        fixed_ok(b, size, cur),
    ensures
        forall|i: int| 0 <= i < fixed_pieces(b, size, cur).len() ==> encode_utf8(#[trigger] fixed_pieces(b, size, cur)[i]).len() <= size,
        fixed_pieces(b, size, cur).flatten() == decode_utf8(b.subrange(cur, b.len() as int)),
    decreases b.len() - cur,
{
    if cur < b.len() {
        let e = fixed_end(b, size, cur);
        lemma_fixed_end(b, size, cur);
        lemma_fixed_pieces(b, size, e);
        lemma_slice_valid(b, cur, e);
        let ps = fixed_pieces(b, size, cur);
        assert(ps.drop_first() =~= fixed_pieces(b, size, e));
        assert forall|i: int| 0 <= i < ps.len() implies encode_utf8(#[trigger] ps[i]).len() <= size by {
            if i > 0 {
                assert(ps[i] == fixed_pieces(b, size, e)[i - 1]);
            }
        }
    } else {
        assert(b.subrange(cur, b.len() as int) =~= Seq::<u8>::empty());
    }
}

/// Fixed-size chunking loses no text: its raw pieces, put together, give back
/// the document's text.
pub proof fn lemma_fixed_pieces_cover(content: Seq<char>, size: usize)
    requires
        chunkable(content, ChunkingStrategy::FixedSize(size)),
    ensures
        raw_pieces(content, ChunkingStrategy::FixedSize(size)).flatten() == content,
{
    broadcast use encode_utf8_valid_utf8, encode_utf8_decode_utf8, is_char_boundary_start_end_of_seq;

    let b = encode_utf8(content);
    lemma_fixed_pieces(b, size as int, 0);
    assert(b.subrange(0, b.len() as int) =~= b);
}

/// No fixed-size chunk takes more bytes than the size it was cut with.
pub proof fn lemma_fixed_size_bound(content: Seq<char>, size: usize)
    requires
        chunkable(content, ChunkingStrategy::FixedSize(size)),
    ensures
        forall|i: int|
            0 <= i < chunk_texts(content, ChunkingStrategy::FixedSize(size)).len() ==> encode_utf8(
                #[trigger] chunk_texts(content, ChunkingStrategy::FixedSize(size))[i],
            ).len() <= size,
{
    broadcast use encode_utf8_valid_utf8, is_char_boundary_start_end_of_seq;

    let b = encode_utf8(content);
    let raw = raw_pieces(content, ChunkingStrategy::FixedSize(size));
    lemma_fixed_pieces(b, size as int, 0);
    lemma_kept(raw);
    assert forall|i: int| 0 <= i < chunk_texts(content, ChunkingStrategy::FixedSize(size)).len() implies encode_utf8(
        #[trigger] chunk_texts(content, ChunkingStrategy::FixedSize(size))[i],
    ).len() <= size by {
        let j = choose|j: int| 0 <= j < raw.len() && #[trigger] trim(raw[j]) == kept(raw)[i];
        let a = lemma_trim_shape(raw[j]);
        lemma_encode_subrange_len(raw[j], a, a + trim(raw[j]).len());
    }
}


/// Some space byte lies in `b[i..i + size]`.
pub open spec fn has_space_from(b: Seq<u8>, i: int, size: int) -> bool {
    exists|j: int| i <= j < i + size && b[j] == 32u8
}

/// Every stretch of `size` bytes that ends before the end of the text holds a
/// space: fixed-size chunking can then always cut before a space.
pub open spec fn spaced(b: Seq<u8>, size: int) -> bool {
    forall|i: int| 0 <= i && i + size < b.len() ==> #[trigger] has_space_from(b, i, size)
}

/// A space in the searched range is found.
proof fn lemma_last_space_found(b: Seq<u8>, lo: int, hi: int, j: int)
    requires
        lo <= j < hi <= b.len(),
        b[j] == 32u8,
    ensures
        last_space(b, lo, hi) is Some,
    decreases hi - lo,
{
    if b[hi - 1] != 32u8 {
        lemma_last_space_found(b, lo, hi - 1, j);
    }
}

/// UTF-8 text that starts with a space byte decodes to text that starts with a space.
proof fn lemma_decode_space_first(p: Seq<u8>)
    requires
        valid_utf8(p),
        p.len() > 0,
        p[0] == 32u8,
    ensures
        decode_utf8(p).len() > 0,
        is_ws(decode_utf8(p)[0]),
{
    let b0 = p[0];
    assert(b0 & 0x7Fu8 == 32u8) by (bit_vector)
        requires
            b0 == 32u8,
    ;
    assert(decode_first_scalar(p) == 32u32);
    assert(decode_utf8(p)[0] == (decode_first_scalar(p) as char));
}

/// When every window of `size` bytes holds a space, each fixed-size piece after
/// the first starts with a space (and so does the first, when the text does).
proof fn lemma_fixed_pieces_start_with_space(b: Seq<u8>, size: int, cur: int)
    requires
        valid_utf8(b),
        0 <= cur <= b.len(),
        is_char_boundary(b, cur),
        fixed_ok(b, size, cur),
        spaced(b, size),
    ensures
        forall|i: int|
            0 < i < fixed_pieces(b, size, cur).len() ==> (#[trigger] fixed_pieces(b, size, cur)[i]).len() > 0
                && is_ws(fixed_pieces(b, size, cur)[i][0]),
        cur < b.len() && b[cur] == 32u8 ==> fixed_pieces(b, size, cur).len() > 0
            && fixed_pieces(b, size, cur)[0].len() > 0 && is_ws(fixed_pieces(b, size, cur)[0][0]),
    decreases b.len() - cur,
{
    if cur < b.len() {
        let e = fixed_end(b, size, cur);
        lemma_fixed_end(b, size, cur);
        lemma_fixed_pieces_start_with_space(b, size, e);
        lemma_slice_valid(b, cur, e);
        let ps = fixed_pieces(b, size, cur);
        let tail = fixed_pieces(b, size, e);
        assert(ps[0] == decode_utf8(b.subrange(cur, e)));
        assert(ps.drop_first() =~= tail);
        if b[cur] == 32u8 {
            lemma_decode_space_first(b.subrange(cur, e));
        }
        if e < b.len() {
            assert(has_space_from(b, cur, size));
            let j = choose|j: int| cur <= j < cur + size && b[j] == 32u8;
            lemma_last_space_found(b, cur, cur + size, j);
            lemma_last_space(b, cur, cur + size);
            assert(b[e] == 32u8);
        }
        assert forall|i: int| 0 < i < ps.len() implies (#[trigger] ps[i]).len() > 0 && is_ws(ps[i][0]) by {
            assert(ps[i] == tail[i - 1]);
        }
    }
}

/// What kept pieces say is what the raw pieces say: trimming and dropping
/// blank pieces keeps every word.
proof fn lemma_kept_words(raw: Seq<Seq<char>>)
    ensures
        words_in(kept(raw)) == words_in(raw),
    decreases raw.len(),
{
    if raw.len() > 0 {
        let prev = raw.drop_last();
        let last = raw.last();
        lemma_kept_words(prev);
        assert(raw =~= prev.push(last));
        lemma_words_in_push(prev, last);
        lemma_words_trim(last);
        if trim(last).len() > 0 {
            lemma_words_in_push(kept(prev), trim(last));
        } else {
            assert(trim(last) =~= Seq::<char>::empty());
            assert(words_in(kept(prev)) + words(last) =~= words_in(kept(prev)));
        }
    }
}

/// Fixed-size chunking loses no word when every stretch of `size` bytes before
/// the end holds a space: the chunks, joined with spaces, hold exactly the
/// document's words. Each chunk is non-empty and at most `size` bytes long.
pub proof fn lemma_fixed_chunks_keep_words(content: Seq<char>, size: usize)
    requires
        chunkable(content, ChunkingStrategy::FixedSize(size)),
        spaced(encode_utf8(content), size as int),
    ensures
        words(join(chunk_texts(content, ChunkingStrategy::FixedSize(size)), seq![' '])) == words(content),
        forall|i: int|
            0 <= i < chunk_texts(content, ChunkingStrategy::FixedSize(size)).len() ==> {
                let t = #[trigger] chunk_texts(content, ChunkingStrategy::FixedSize(size))[i];
                t.len() > 0 && encode_utf8(t).len() <= size
            },
{
    broadcast use encode_utf8_valid_utf8, is_char_boundary_start_end_of_seq;

    let strategy = ChunkingStrategy::FixedSize(size);
    let b = encode_utf8(content);
    let raw = raw_pieces(content, strategy);
    lemma_fixed_pieces_cover(content, size);
    lemma_fixed_pieces_start_with_space(b, size as int, 0);
    lemma_words_flatten(raw);
    lemma_kept_words(raw);
    lemma_words_join(kept(raw));
    lemma_chunk_texts_not_blank(content, strategy);
    lemma_fixed_size_bound(content, size);
}

/// There are no more kept pieces than raw ones.
proof fn lemma_kept_len(raw: Seq<Seq<char>>)
    ensures
        kept(raw).len() <= raw.len(),
    decreases raw.len(),
{
    if raw.len() > 0 {
        lemma_kept_len(raw.drop_last());
    }
}

/// Every fixed-size step moves forward, so there are no more pieces than bytes left.
proof fn lemma_fixed_pieces_len(b: Seq<u8>, size: int, cur: int)
    requires
        0 <= cur <= b.len(),
        fixed_ok(b, size, cur),
    ensures
        fixed_pieces(b, size, cur).len() <= b.len() - cur,
    decreases b.len() - cur,
{
    if cur < b.len() {
        lemma_fixed_pieces_len(b, size, fixed_end(b, size, cur));
    }
}

/// Fixed-size chunking makes no more chunks than the text has bytes.
pub proof fn lemma_fixed_chunk_count(content: Seq<char>, size: usize)
    requires
        chunkable(content, ChunkingStrategy::FixedSize(size)),
    ensures
        chunk_texts(content, ChunkingStrategy::FixedSize(size)).len() <= encode_utf8(content).len(),
{
    let raw = raw_pieces(content, ChunkingStrategy::FixedSize(size));
    lemma_kept_len(raw);
    lemma_fixed_pieces_len(encode_utf8(content), size as int, 0);
}

/// Every byte is ASCII.
pub open spec fn all_ascii(b: Seq<u8>) -> bool {
    forall|i: int| 0 <= i < b.len() ==> #[trigger] b[i] < 128u8
}

/// After every space that leaves more than `size` bytes of text, another space
/// follows within the next `size - 1` bytes.
pub open spec fn space_follows_space(b: Seq<u8>, size: int) -> bool {
    forall|j: int| 0 <= j && j + size < b.len() && #[trigger] b[j] == 32u8 ==> has_space_from(b, j + 1, size - 1)
}

/// Every stretch of `w` bytes inside the text holds a space: no run of
/// non-space bytes is longer than `w - 1`.
pub open spec fn windows_have_space(b: Seq<u8>, w: int) -> bool {
    forall|i: int| 0 <= i && i + w <= b.len() ==> #[trigger] has_space_from(b, i, w)
}

/// The space found is the last one of the range.
proof fn lemma_last_space_is_last(b: Seq<u8>, lo: int, hi: int, k: int)
    requires
        lo <= k < hi <= b.len(),
        b[k] == 32u8,
    ensures
        last_space(b, lo, hi) matches Some(j) && k <= j,
    decreases hi - lo,
{
    if b[hi - 1] != 32u8 {
        lemma_last_space_is_last(b, lo, hi - 1, k);
    }
}

/// Fixed-size chunking of ASCII text from `cur` on makes progress at every step.
proof fn lemma_ascii_fixed_ok(b: Seq<u8>, size: int, cur: int)
    requires
        valid_utf8(b),
        all_ascii(b),
        0 < size <= usize::MAX,
        space_follows_space(b, size),
        b.len() <= isize::MAX,
        0 <= cur,
        cur == 0 || cur >= b.len() || size < b.len(),
    ensures
        fixed_ok(b, size, cur),
    decreases b.len() - cur,
{
    if cur < b.len() {
        let e = fixed_end(b, size, cur);
        if cur + size < b.len() {
            lemma_last_space(b, cur, cur + size);
            if let Some(j) = last_space(b, cur, cur + size) {
                if j == cur {
                    assert(b[cur] == 32u8);
                    assert(has_space_from(b, cur + 1, size - 1));
                    let k = choose|k: int| cur + 1 <= k < cur + 1 + size - 1 && b[k] == 32u8;
                    lemma_last_space_is_last(b, cur, cur + size, k);
                }
            }
            assert(b[cur + size] < 128u8);
            is_char_boundary_iff_not_is_continuation_byte(b, cur + size);
        }
        assert(cur < e <= b.len());
        lemma_ascii_fixed_ok(b, size, e);
    }
}

/// Fixed-size chunking can split an ASCII text whenever a space is never
/// followed by `size - 1` bytes without another space before the end (and the
/// text has a length that a string can have).
pub proof fn lemma_ascii_chunkable(content: Seq<char>, size: usize)
    requires
        size > 0,
        all_ascii(encode_utf8(content)),
        space_follows_space(encode_utf8(content), size as int),
        encode_utf8(content).len() <= isize::MAX,
    ensures
        chunkable(content, ChunkingStrategy::FixedSize(size)),
{
    broadcast use encode_utf8_valid_utf8;

    lemma_ascii_fixed_ok(encode_utf8(content), size as int, 0);
}

/// In an ASCII text where no run of non-space bytes is longer than `size - 2`,
/// fixed-size chunking can split the text, and every stretch of `size` bytes
/// before the end holds a space, so the chunks keep every word.
pub proof fn lemma_short_runs_chunkable(content: Seq<char>, size: usize)
    requires
        size >= 2,
        all_ascii(encode_utf8(content)),
        windows_have_space(encode_utf8(content), size - 1),
        encode_utf8(content).len() <= isize::MAX,
    ensures
        chunkable(content, ChunkingStrategy::FixedSize(size)),
        spaced(encode_utf8(content), size as int),
{
    let b = encode_utf8(content);
    let w = size - 1;
    assert forall|i: int| 0 <= i && i + size < b.len() implies #[trigger] has_space_from(b, i, size as int) by {
        assert(has_space_from(b, i, w as int));
        let k = choose|k: int| i <= k < i + w && b[k] == 32u8;
        assert(i <= k < i + size && b[k] == 32u8);
    }
    assert forall|j: int| 0 <= j && j + size < b.len() && #[trigger] b[j] == 32u8 implies has_space_from(b, j + 1, size - 1) by {
        assert(has_space_from(b, j + 1, w as int));
    }
    lemma_ascii_chunkable(content, size);
}

/// What splitting at `sep` and keeping the non-blank trimmed pieces gives:
/// the pieces joined with `sep` are the text, no occurrence of `sep` lies
/// inside a piece or straddles a cut, no kept text holds `sep`, and a text
/// without `sep` is one piece.
proof fn lemma_split_chunks(content: Seq<char>, sep: Seq<char>)
    requires
        sep.len() > 0,
    ensures
        join(split(content, sep), sep) == content,
        split(content, sep).len() > 0,
        forall|i: int|
            0 <= i < split(content, sep).len() - 1 ==> !contains_seq(
                #[trigger] split(content, sep)[i] + sep.subrange(0, sep.len() - 1),
                sep,
            ),
        forall|i: int| 0 <= i < split(content, sep).len() ==> !contains_seq(#[trigger] split(content, sep)[i], sep),
        forall|i: int| 0 <= i < kept(split(content, sep)).len() ==> !contains_seq(#[trigger] kept(split(content, sep))[i], sep),
        !contains_seq(content, sep) ==> kept(split(content, sep)) == if trim(content).len() > 0 {
            seq![trim(content)]
        } else {
            seq![]
        },
{
    let raw = split(content, sep);
    lemma_split_join(content, sep, 0);
    assert(content.subrange(0, content.len() as int) =~= content);
    lemma_split_pieces_maximal(content, sep, 0);
    lemma_kept(raw);
    assert forall|i: int| 0 <= i < kept(raw).len() implies !contains_seq(#[trigger] kept(raw)[i], sep) by {
        let j = choose|j: int| 0 <= j < raw.len() && #[trigger] trim(raw[j]) == kept(raw)[i];
        let a = lemma_trim_shape(raw[j]);
        if contains_seq(kept(raw)[i], sep) {
            let t = choose|t: int| occurs_at(kept(raw)[i], sep, t);
            lemma_occurs_in_subrange(raw[j], a, a + trim(raw[j]).len(), sep, t);
        }
    }
    if !contains_seq(content, sep) {
        lemma_find_from(content, sep, 0);
        if let Some(i) = find_from(content, sep, 0) {
            assert(occurs_at(content, sep, i));
        }
        assert(raw =~= seq![content]);
        assert(raw.drop_last() =~= Seq::<Seq<char>>::empty());
        assert(raw.last() == content);
        assert(kept(raw.drop_last()) =~= Seq::<Seq<char>>::empty());
        if trim(content).len() > 0 {
            assert(kept(raw) =~= seq![trim(content)]);
        } else {
            assert(kept(raw) =~= Seq::<Seq<char>>::empty());
        }
    }
}

/// Paragraph chunking cuts at blank lines and nowhere else: the raw pieces,
/// joined with `"\n\n"`, are the text; no piece holds `"\n\n"`, and none
/// before the last ends in a line break (so every blank line is a cut); no
/// chunk holds a blank line; and a text without one is a single chunk, its
/// trimmed self (no chunk if it is blank).
pub proof fn lemma_paragraph_chunks(content: Seq<char>)
    ensures
        join(raw_pieces(content, ChunkingStrategy::Paragraph), seq!['\n', '\n']) == content,
        forall|i: int|
            0 <= i < raw_pieces(content, ChunkingStrategy::Paragraph).len() - 1 ==> !contains_seq(
                #[trigger] raw_pieces(content, ChunkingStrategy::Paragraph)[i] + seq!['\n'],
                seq!['\n', '\n'],
            ),
        forall|i: int|
            0 <= i < raw_pieces(content, ChunkingStrategy::Paragraph).len() ==> !contains_seq(
                #[trigger] raw_pieces(content, ChunkingStrategy::Paragraph)[i],
                seq!['\n', '\n'],
            ),
        forall|i: int|
            0 <= i < chunk_texts(content, ChunkingStrategy::Paragraph).len() ==> !contains_seq(
                #[trigger] chunk_texts(content, ChunkingStrategy::Paragraph)[i],
                seq!['\n', '\n'],
            ),
        !contains_seq(content, seq!['\n', '\n']) ==> chunk_texts(content, ChunkingStrategy::Paragraph)
            == if trim(content).len() > 0 {
            seq![trim(content)]
        } else {
            seq![]
        },
{
    let sep = seq!['\n', '\n'];
    assert(sep.subrange(0, 1) =~= seq!['\n']);
    assert(paragraph_separator() == sep);
    lemma_split_chunks(content, sep);
}

/// Paragraph chunking keeps every word of the text, in order: the chunks'
/// words, one chunk after another, are the text's words.
pub proof fn lemma_paragraph_keeps_words(content: Seq<char>)
    ensures
        words_in(chunk_texts(content, ChunkingStrategy::Paragraph)) == words(content),
{
    let sep = seq!['\n', '\n'];
    assert(paragraph_separator() == sep);
    let raw = raw_pieces(content, ChunkingStrategy::Paragraph);
    lemma_split_chunks(content, sep);
    assert forall|k: int| 0 <= k < sep.len() implies is_ws(#[trigger] sep[k]) by {
        assert(sep[k] == '\n');
    }
    lemma_words_join_ws(raw, sep);
    lemma_kept_words(raw);
}

/// Sentence chunking cuts after a period followed by a space and nowhere else:
/// the raw pieces, joined with `". "`, are the text; no piece holds `". "`,
/// and none before the last ends in a period (so every `". "` is a cut); no
/// chunk text holds `". "`; and a text without `". "` is a single chunk, its
/// trimmed self (no chunk if it is blank).
pub proof fn lemma_sentence_chunks(content: Seq<char>)
    ensures
        join(raw_pieces(content, ChunkingStrategy::Sentence), seq!['.', ' ']) == content,
        forall|i: int|
            0 <= i < raw_pieces(content, ChunkingStrategy::Sentence).len() - 1 ==> !contains_seq(
                #[trigger] raw_pieces(content, ChunkingStrategy::Sentence)[i] + seq!['.'],
                seq!['.', ' '],
            ),
        forall|i: int|
            0 <= i < raw_pieces(content, ChunkingStrategy::Sentence).len() ==> !contains_seq(
                #[trigger] raw_pieces(content, ChunkingStrategy::Sentence)[i],
                seq!['.', ' '],
            ),
        forall|i: int|
            0 <= i < chunk_texts(content, ChunkingStrategy::Sentence).len() ==> !contains_seq(
                #[trigger] chunk_texts(content, ChunkingStrategy::Sentence)[i],
                seq!['.', ' '],
            ),
        !contains_seq(content, seq!['.', ' ']) ==> chunk_texts(content, ChunkingStrategy::Sentence)
            == if trim(content).len() > 0 {
            seq![trim(content)]
        } else {
            seq![]
        },
{
    let sep = seq!['.', ' '];
    assert(sep.subrange(0, 1) =~= seq!['.']);
    assert(sentence_separator() == sep);
    lemma_split_chunks(content, sep);
}

/// Chunk identifiers are unique: different positions give different identifiers.
pub proof fn lemma_chunk_ids_distinct(doc_id: Seq<char>, i: nat, j: nat)
    requires
        i != j,
    ensures
        chunk_id(doc_id, i) != chunk_id(doc_id, j),
{
    if chunk_id(doc_id, i) == chunk_id(doc_id, j) {
        let pre = doc_id + seq!['_'];
        let a = chunk_id(doc_id, i);
        assert(a.subrange(pre.len() as int, a.len() as int) =~= decimal(i));
        assert(chunk_id(doc_id, j).subrange(pre.len() as int, chunk_id(doc_id, j).len() as int) =~= decimal(j));
        lemma_decimal_injective(i, j);
    }
}

/// The chunks of a document carry pairwise different identifiers.
pub proof fn lemma_chunks_have_distinct_ids(
    doc: &Document,
    texts: Seq<Seq<char>>,
    suffix: Seq<char>,
    chunks: Seq<Chunk>,
)
    requires
        chunks_match(doc, texts, suffix, chunks),
    ensures
        forall|a: int, b: int| 0 <= a < b < chunks.len() ==> (#[trigger] chunks[a]).id@ != (#[trigger] chunks[b]).id@,
{
    assert forall|a: int, b: int| 0 <= a < b < chunks.len() implies (#[trigger] chunks[a]).id@ != (#[trigger] chunks[b]).id@ by {
        assert(chunks[a]@ == expected_chunk(doc, texts[a] + suffix, a));
        assert(chunks[b]@ == expected_chunk(doc, texts[b] + suffix, b));
        lemma_chunk_ids_distinct(doc.id@, a as nat, b as nat);
    }
}

} // verus!

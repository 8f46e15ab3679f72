use vstd::prelude::*;
use vstd::slice::slice_to_vec;

verus! {

/// A four-character code identifying a RIFF chunk.
#[derive(Debug, PartialEq, Eq, Clone, Copy, Hash)]
pub struct FourCC {
    inner: [u8; 4],
}

impl View for FourCC {
    type V = Seq<u8>;

    closed spec fn view(&self) -> Seq<u8> {
        self.inner@
    }
}

/// A code is four bytes long.
pub proof fn lemma_four_cc_len(cc: FourCC)
    ensures
        cc@.len() == 4,
{
}

impl FourCC {
    /// Creates a `FourCC` from four bytes.
    pub fn new(bytes: [u8; 4]) -> (r: Self)
        ensures
            r@ == bytes@,
    {
        Self { inner: bytes }
    }

    /// The four bytes of the code.
    pub fn as_bytes(&self) -> (r: &[u8; 4])
        ensures
            r@ == self@,
    {
        &self.inner
    }
}

/// The content of a chunk: a plain chunk's code and payload, a `LIST`'s children, or a
/// `RIFF` root's form type and children.
pub enum SpecChunk {
    Chunk { four_cc: Seq<u8>, data: Seq<u8> },
    List { chunks: Seq<SpecChunk> },
    Riff { four_cc: Seq<u8>, chunks: Seq<SpecChunk> },
}

/// One node of a RIFF chunk tree.
#[derive(Debug, PartialEq, Eq)]
pub enum Chunk {
    /// A plain chunk: a code and a payload.
    Chunk { four_cc: FourCC, data: Vec<u8> },
    /// A `LIST` chunk holding child chunks.
    List { chunks: Vec<Chunk> },
    /// The `RIFF` root: a form type and child chunks.
    Riff { four_cc: FourCC, chunks: Vec<Chunk> },
}

/// The content of `c`.
pub open spec fn chunk_view(c: Chunk) -> SpecChunk
    decreases c, 0nat,
{
    match c {
        Chunk::Chunk { four_cc, data } => SpecChunk::Chunk { four_cc: four_cc@, data: data@ },
        Chunk::List { chunks } => SpecChunk::List { chunks: chunks_view(chunks@) },
        Chunk::Riff { four_cc, chunks } => SpecChunk::Riff { four_cc: four_cc@, chunks: chunks_view(chunks@) },
    }
}

/// The contents of `cs`, in order.
pub open spec fn chunks_view(cs: Seq<Chunk>) -> Seq<SpecChunk>
    decreases cs, cs.len(),
{
    if cs.len() == 0 {
        Seq::empty()
    } else {
        chunks_view(cs.drop_last()).push(chunk_view(cs.last()))
    }
}

impl View for Chunk {
    type V = SpecChunk;

    open spec fn view(&self) -> SpecChunk {
        chunk_view(*self)
    }
}

/// Errors when building a `FourCC` from raw bytes.
#[derive(Debug, PartialEq, Eq, Clone, Copy)]
pub enum FourCCError {
    /// The source did not hold exactly four bytes.
    InvalidLength { actual: usize },
}

/// `std::io::Error`, carried through unchanged by `ChunkError::Io`; nothing is claimed
/// about its contents.
#[verifier::external_type_specification]
#[verifier::external_body]
pub struct ExIoError(std::io::Error);

/// Errors when reading or writing RIFF chunk data.
#[derive(Debug)]
pub enum ChunkError {
    /// The buffer is shorter than the data it announces.
    BufferTooShort { needed: usize, actual: usize },
    /// A four-character code could not be read.
    FourCC(FourCCError),
    /// Reading or writing the underlying stream failed.
    Io(std::io::Error),
}

/// The value of four bytes read as a little-endian unsigned integer.
pub open spec fn le32(b0: u8, b1: u8, b2: u8, b3: u8) -> int {
    b0 + b1 * 256 + b2 * 65536 + b3 * 16777216
}

/// The little-endian 32-bit value stored at `at` in `buf`.
pub open spec fn le32_at(buf: Seq<u8>, at: int) -> int {
    le32(buf[at], buf[at + 1], buf[at + 2], buf[at + 3])
}

/// The code `RIFF`.
pub open spec fn tag_riff() -> Seq<u8> {
    seq![0x52u8, 0x49u8, 0x46u8, 0x46u8]
}

/// The code `LIST`.
pub open spec fn tag_list() -> Seq<u8> {
    seq![0x4cu8, 0x49u8, 0x53u8, 0x54u8]
}

/// The byte count a chunk with a payload of `size` bytes occupies, header included, as a
/// `usize` (this wraps only where `usize` is narrower than 64 bits).
pub open spec fn needed_len(size: int) -> usize {
    if 8 + size <= usize::MAX {
        (8 + size) as usize
    } else {
        (8 + size - usize::MAX - 1) as usize
    }
}

/// Reading one plain chunk (code, size, payload) from the start of `buf`.
pub open spec fn spec_parse_chunk(buf: Seq<u8>) -> Result<SpecChunk, ChunkError> {
    if buf.len() < 8 {
        Err(ChunkError::BufferTooShort { needed: 8, actual: buf.len() as usize })
    } else if buf.len() < 8 + le32_at(buf, 4) {
        Err(ChunkError::BufferTooShort { needed: needed_len(le32_at(buf, 4)), actual: buf.len() as usize })
    } else {
        Ok(SpecChunk::Chunk { four_cc: buf.subrange(0, 4), data: buf.subrange(8, 8 + le32_at(buf, 4)) })
    }
}

/// Reading the chunks that follow one another from `offset` on, for as long as `offset`
/// does not pass `limit`: each is read as `spec_parse_child` reads a child, and the next
/// one starts right after its full size (announced size plus the 8-byte header).
pub open spec fn spec_parse_children(buf: Seq<u8>, limit: int, offset: int) -> Result<Seq<SpecChunk>, ChunkError>
    decreases buf.len(), 0nat, buf.len() - offset,
{
    if limit < offset || offset <= 0 || offset > buf.len() {
        Ok(Seq::empty())
    } else {
        match spec_parse_child(buf.skip(offset)) {
            Err(e) => Err(e),
            Ok(c) => {
                let next = offset + spec_size(c) + 8;
                if next > buf.len() {
                    // Never taken: a child read from a buffer fits in it (`lemma_child_fits`).
                    Ok(seq![c])
                } else {
                    match spec_parse_children(buf, limit, next) {
                        Ok(rest) => Ok(seq![c] + rest),
                        Err(e) => Err(e),
                    }
                }
            },
        }
    }
}

/// Reading a `LIST` chunk from `buf`: the chunks from byte 8 on, while the offset does
/// not pass the size in its header.
pub open spec fn spec_parse_list(buf: Seq<u8>) -> Result<SpecChunk, ChunkError>
    decreases buf.len(), 1nat, 0int,
{
    match spec_parse_children(buf, le32_at(buf, 4), 8) {
        Ok(cs) => Ok(SpecChunk::List { chunks: cs }),
        Err(e) => Err(e),
    }
}

/// Reading a child of a `RIFF` root or of a `LIST` from the start of `buf`. A child coded
/// `LIST` is read as a `LIST` when its contents read as chunks that fill exactly the size
/// in its header; otherwise (a list type such as `INFO` before its sub-chunks, or contents
/// that do not read) it falls back to a plain chunk. Every other child, one coded `RIFF`
/// included, is read as a plain chunk. Either way a child that reads takes up the size in
/// its header plus 8 bytes.
pub open spec fn spec_parse_child(buf: Seq<u8>) -> Result<SpecChunk, ChunkError>
    decreases buf.len(), 2nat, 0int,
{
    if buf.len() >= 8 && buf.subrange(0, 4) == tag_list() {
        match spec_parse_list(buf) {
            Ok(l) => if spec_size(l) == le32_at(buf, 4) {
                Ok(l)
            } else {
                spec_parse_chunk(buf)
            },
            Err(_) => spec_parse_chunk(buf),
        }
    } else {
        spec_parse_chunk(buf)
    }
}

/// Reading a chunk from `buf` by its first four bytes: a `RIFF` root, a `LIST`, or a
/// plain chunk; the chunks a `RIFF` root or `LIST` holds are read by `spec_parse_child`.
pub open spec fn spec_parse(buf: Seq<u8>) -> Result<SpecChunk, ChunkError> {
    if buf.len() < 8 {
        Err(ChunkError::BufferTooShort { needed: 8, actual: buf.len() as usize })
    } else if buf.subrange(0, 4) == tag_riff() {
        if buf.len() < 12 {
            Err(ChunkError::BufferTooShort { needed: 12, actual: buf.len() as usize })
        } else {
            match spec_parse_children(buf, le32_at(buf, 4), 12) {
                Ok(cs) => Ok(SpecChunk::Riff { four_cc: buf.subrange(8, 12), chunks: cs }),
                Err(e) => Err(e),
            }
        }
    } else if buf.subrange(0, 4) == tag_list() {
        spec_parse_list(buf)
    } else {
        spec_parse_chunk(buf)
    }
}

/// A parse result seen through the views of its chunk.
pub open spec fn parse_result_view(r: Result<Chunk, ChunkError>) -> Result<SpecChunk, ChunkError> {
    match r {
        Ok(c) => Ok(c@),
        Err(e) => Err(e),
    }
}

/// A parse result with the byte count its chunk occupies is `expected`, seen through views.
pub open spec fn sized_result_matches(r: Result<(Chunk, usize), ChunkError>, expected: Result<SpecChunk, ChunkError>) -> bool {
    match r {
        Ok((c, n)) => expected == Ok::<SpecChunk, ChunkError>(c@) && n == spec_size(c@) + 8,
        Err(e) => expected == Err::<SpecChunk, ChunkError>(e),
    }
}

/// A child read from `buf` takes up the size in its header plus 8 bytes, and fits in `buf`.
pub proof fn lemma_child_fits(buf: Seq<u8>)
    ensures
        spec_parse_child(buf) matches Ok(c) ==> buf.len() >= 8 && spec_size(c) == le32_at(buf, 4)
            && spec_size(c) + 8 <= buf.len(),
    decreases buf.len(), 2nat, 0int,
{
    if buf.len() >= 8 {
        assert(le32_at(buf, 4) <= u32::MAX);
        if buf.subrange(0, 4) == tag_list() {
            lemma_children_fit(buf, le32_at(buf, 4), 8);
        }
    }
}

/// The chunks read from `offset` on lie within `buf`.
pub proof fn lemma_children_fit(buf: Seq<u8>, limit: int, offset: int)
    requires
        0 < offset <= buf.len(),
    ensures
        spec_parse_children(buf, limit, offset) matches Ok(cs) ==> offset + sum_full(cs) <= buf.len(),
    decreases buf.len(), 0nat, buf.len() - offset,
{
    if limit >= offset {
        let tail = buf.skip(offset);
        lemma_child_fits(tail);
        if let Ok(c) = spec_parse_child(tail) {
            let next = offset + spec_size(c) + 8;
            if next < buf.len() {
                lemma_children_fit(buf, limit, next);
            }
            if let Ok(rest) = spec_parse_children(buf, limit, next) {
                lemma_sum_full_cons(c, rest);
                if next == buf.len() {
                    assert(limit < next || rest.len() == 0) by {
                        if limit >= next {
                            assert(spec_parse_child(buf.skip(next)).is_err()) by {
                                assert(buf.skip(next).len() == 0);
                            }
                        }
                    }
                    assert(sum_full(rest) == 0) by {
                        if limit < next {
                            assert(rest =~= Seq::<SpecChunk>::empty());
                        }
                    }
                }
            }
        }
    } else {
        assert(spec_parse_children(buf, limit, offset) == Ok::<Seq<SpecChunk>, ChunkError>(Seq::empty()));
    }
}

/// Reading the chunks from `offset` on, each as a plain chunk, for as long as `offset`
/// does not pass `limit`.
pub open spec fn spec_parse_plain_children(buf: Seq<u8>, limit: int, offset: int) -> Result<Seq<SpecChunk>, ChunkError>
    decreases buf.len() - offset,
{
    if limit < offset || offset <= 0 || offset > buf.len() {
        Ok(Seq::empty())
    } else {
        match spec_parse_chunk(buf.skip(offset)) {
            Err(e) => Err(e),
            Ok(c) => {
                let next = offset + spec_size(c) + 8;
                if next > buf.len() {
                    Ok(seq![c])
                } else {
                    match spec_parse_plain_children(buf, limit, next) {
                        Ok(rest) => Ok(seq![c] + rest),
                        Err(e) => Err(e),
                    }
                }
            },
        }
    }
}

/// `c`, read as a child, stands where `p` stands when the same bytes are read as a plain
/// chunk: it is `p`, or a `LIST` of the same size where `p` is the plain chunk coded `LIST`.
pub open spec fn same_place(c: SpecChunk, p: SpecChunk) -> bool {
    ||| c == p
    ||| {
        &&& c is List
        &&& p is Chunk
        &&& p->Chunk_four_cc == tag_list()
        &&& spec_size(c) == spec_size(p)
    }
}

/// Reading a child succeeds exactly when reading the same bytes as a plain chunk does,
/// with the same error otherwise; what it reads stands in the plain chunk's place.
pub proof fn lemma_child_as_plain(buf: Seq<u8>)
    ensures
        match (spec_parse_child(buf), spec_parse_chunk(buf)) {
            (Ok(c), Ok(p)) => same_place(c, p),
            (Err(e), Err(f)) => e == f,
            _ => false,
        },
{
    lemma_child_fits(buf);
    if buf.len() >= 8 {
        assert(le32_at(buf, 4) <= u32::MAX);
    }
}

/// Reading the children of a `RIFF` root or a `LIST` succeeds exactly when reading each of
/// them as a plain chunk does, with the same error otherwise; the children are read at
/// the same offsets, and each stands in the place of the plain chunk read there.
pub proof fn lemma_children_as_plain(buf: Seq<u8>, limit: int, offset: int)
    ensures
        match (spec_parse_children(buf, limit, offset), spec_parse_plain_children(buf, limit, offset)) {
            (Ok(cs), Ok(ps)) => cs.len() == ps.len() && forall|i: int| 0 <= i < cs.len() ==> #[trigger] same_place(cs[i], ps[i]),
            (Err(e), Err(f)) => e == f,
            _ => false,
        },
    decreases buf.len() - offset,
{
    if !(limit < offset || offset <= 0 || offset > buf.len()) {
        let tail = buf.skip(offset);
        lemma_child_as_plain(tail);
        if let Ok(c) = spec_parse_child(tail) {
            let p = spec_parse_chunk(tail)->Ok_0;
            assert(spec_size(c) == spec_size(p));
            let next = offset + spec_size(c) + 8;
            if next <= buf.len() {
                lemma_children_as_plain(buf, limit, next);
                if let Ok(rest) = spec_parse_children(buf, limit, next) {
                    let prest = spec_parse_plain_children(buf, limit, next)->Ok_0;
                    let cs = seq![c] + rest;
                    let ps = seq![p] + prest;
                    assert forall|i: int| 0 <= i < cs.len() implies #[trigger] same_place(cs[i], ps[i]) by {
                        if i > 0 {
                            assert(cs[i] == rest[i - 1]);
                            assert(ps[i] == prest[i - 1]);
                        }
                    }
                }
            } else {
                assert(same_place(seq![c][0], seq![p][0]));
            }
        }
    }
}

/// A chunk read from `buf` fits in it: its full size is at most `buf.len()`.
pub proof fn lemma_parse_fits(buf: Seq<u8>)
    ensures
        spec_parse(buf) matches Ok(c) ==> spec_size(c) + 8 <= buf.len(),
{
    if buf.len() >= 8 {
        if buf.subrange(0, 4) == tag_riff() {
            if buf.len() >= 12 {
                lemma_children_fit(buf, le32_at(buf, 4), 12);
            }
        } else if buf.subrange(0, 4) == tag_list() {
            lemma_children_fit(buf, le32_at(buf, 4), 8);
        } else {
            assert(le32_at(buf, 4) <= u32::MAX);
        }
    }
}

proof fn lemma_chunks_view_push(cs: Seq<Chunk>, c: Chunk)
    ensures
        chunks_view(cs.push(c)) == chunks_view(cs).push(c@),
{
    assert(cs.push(c).drop_last() =~= cs);
}

fn read_le32(buf: &[u8], at: usize) -> (r: u32)
    requires
        at + 4 <= buf@.len(),
    ensures
        r == le32_at(buf@, at as int),
{
    (buf[at] as u32) + (buf[at + 1] as u32) * 256 + (buf[at + 2] as u32) * 65536 + (buf[at + 3] as u32) * 16777216
}

impl Chunk {
    /// Reads a plain chunk (code, size, payload) from the start of `buffer`.
    pub fn parse_chunk(buffer: &[u8]) -> (res: Result<Chunk, ChunkError>)
        ensures
            parse_result_view(res) == spec_parse_chunk(buffer@),
            res matches Ok(c) ==> c is Chunk,
    {
        if buffer.len() < 8 {
            return Err(ChunkError::BufferTooShort { needed: 8, actual: buffer.len() });
        }
        let four_cc = match FourCC::try_from(&buffer[0..4]) {
            Ok(cc) => cc,
            Err(e) => return Err(ChunkError::FourCC(e)),
        };
        let size = read_le32(buffer, 4) as usize;
        if buffer.len() - 8 < size {
            return Err(ChunkError::BufferTooShort { needed: 8usize.wrapping_add(size), actual: buffer.len() });
        }
        let data = slice_to_vec(&buffer[8..8 + size]);
        proof {
            assert(four_cc@ =~= buffer@.subrange(0, 4));
        }
        Ok(Chunk::Chunk { four_cc, data })
    }

    /// Reads the chunks that follow one another from `start` on while the offset stays
    /// within `limit`; also gives the offset where the last one ends.
    fn parse_children(buffer: &[u8], limit: u32, start: usize) -> (res: Result<(Vec<Chunk>, usize), ChunkError>)
        requires
            0 < start <= buffer@.len(),
        ensures
            match res {
                Ok((cs, end)) => spec_parse_children(buffer@, limit as int, start as int) == Ok::<Seq<SpecChunk>, ChunkError>(chunks_view(cs@))
                    && end == start + sum_full(chunks_view(cs@)),
                Err(e) => spec_parse_children(buffer@, limit as int, start as int) == Err::<Seq<SpecChunk>, ChunkError>(e),
            },
        decreases buffer@.len(), 0nat,
    {
        let mut chunks: Vec<Chunk> = Vec::new();
        let mut offset: usize = start;
        while offset <= limit as usize
            invariant
                0 < start <= offset <= buffer@.len(),
                offset == start + sum_full(chunks_view(chunks@)),
                match spec_parse_children(buffer@, limit as int, offset as int) {
                    Ok(rest) => spec_parse_children(buffer@, limit as int, start as int) == Ok::<Seq<SpecChunk>, ChunkError>(chunks_view(chunks@) + rest),
                    Err(e) => spec_parse_children(buffer@, limit as int, start as int) == Err::<Seq<SpecChunk>, ChunkError>(e),
                },
            decreases buffer@.len() - offset,
        {
            let sub = &buffer[offset..buffer.len()];
            assert(sub@ =~= buffer@.skip(offset as int));
            let parsed = Chunk::parse_child(sub);
            match parsed {
                Err(e) => {
                    return Err(e);
                },
                Ok((c, n)) => {
                    let ghost old_chunks = chunks@;
                    proof {
                        lemma_child_fits(sub@);
                        lemma_chunks_view_push(old_chunks, c);
                        assert(chunks_view(old_chunks).push(c@).drop_last() =~= chunks_view(old_chunks));
                        let next = offset + n;
                        let rest_now = spec_parse_children(buffer@, limit as int, offset as int);
                        let rest_next = spec_parse_children(buffer@, limit as int, next);
                        match rest_next {
                            Ok(r) => {
                                assert(rest_now == Ok::<Seq<SpecChunk>, ChunkError>(seq![c@] + r));
                                assert(chunks_view(old_chunks) + (seq![c@] + r) =~= chunks_view(old_chunks).push(c@) + r);
                            },
                            Err(e) => {},
                        }
                    }
                    chunks.push(c);
                    offset = offset + n;
                },
            }
        }
        proof {
            assert(chunks_view(chunks@) + Seq::<SpecChunk>::empty() =~= chunks_view(chunks@));
        }
        Ok((chunks, offset))
    }

    /// Reads a `LIST` chunk and the chunks it holds; also gives the byte count it occupies.
    fn parse_list(buffer: &[u8]) -> (res: Result<(Chunk, usize), ChunkError>)
        requires
            buffer@.len() >= 8,
        ensures
            sized_result_matches(res, spec_parse_list(buffer@)),
            res matches Ok((c, _)) ==> c is List,
        decreases buffer@.len(), 1nat,
    {
        let list_size = read_le32(buffer, 4);
        match Chunk::parse_children(buffer, list_size, 8) {
            Ok((chunks, end)) => Ok((Chunk::List { chunks }, end)),
            Err(e) => Err(e),
        }
    }

    /// Reads a plain chunk; also gives the byte count it occupies.
    fn parse_plain_sized(value: &[u8]) -> (res: Result<(Chunk, usize), ChunkError>)
        ensures
            sized_result_matches(res, spec_parse_chunk(value@)),
    {
        match Chunk::parse_chunk(value) {
            Ok(c) => {
                let n = match &c {
                    Chunk::Chunk { data, .. } => data.len(),
                    _ => 0,
                };
                proof {
                    assert(le32_at(value@, 4) <= u32::MAX);
                    assert(c@ == spec_parse_chunk(value@)->Ok_0);
                    assert(n == le32_at(value@, 4) && 8 + n <= value.len());
                }
                Ok((c, 8 + n))
            },
            Err(e) => Err(e),
        }
    }

    /// Reads a child of a `RIFF` root or of a `LIST`, as `spec_parse_child` describes:
    /// a `LIST` whose contents fill its announced size, or else a plain chunk; also gives
    /// the byte count it occupies.
    fn parse_child(value: &[u8]) -> (res: Result<(Chunk, usize), ChunkError>)
        ensures
            sized_result_matches(res, spec_parse_child(value@)),
        decreases value@.len(), 2nat,
    {
        let is_list = value.len() >= 8 && value[0] == 0x4c && value[1] == 0x49 && value[2] == 0x53 && value[3] == 0x54;
        proof {
            assert(is_list <==> value@.len() >= 8 && value@.subrange(0, 4) =~= tag_list());
        }
        if is_list {
            let size = read_le32(value, 4);
            if let Ok((c, n)) = Chunk::parse_list(value) {
                if n - 8 == size as usize {
                    return Ok((c, n));
                }
            }
        }
        Chunk::parse_plain_sized(value)
    }

    /// Reads a `RIFF` root and the chunks it holds; also gives the byte count it occupies.
    fn parse_riff(buffer: &[u8]) -> (res: Result<(Chunk, usize), ChunkError>)
        requires
            buffer@.len() >= 8,
            buffer@.subrange(0, 4) == tag_riff(),
        ensures
            sized_result_matches(res, spec_parse(buffer@)),
            res matches Ok((c, _)) ==> c is Riff,
    {
        if buffer.len() < 12 {
            return Err(ChunkError::BufferTooShort { needed: 12, actual: buffer.len() });
        }
        let riff_size = read_le32(buffer, 4);
        let four_cc = match FourCC::try_from(&buffer[8..12]) {
            Ok(cc) => cc,
            Err(e) => return Err(ChunkError::FourCC(e)),
        };
        proof {
            assert(four_cc@ =~= buffer@.subrange(8, 12));
        }
        match Chunk::parse_children(buffer, riff_size, 12) {
            Ok((chunks, end)) => Ok((Chunk::Riff { four_cc, chunks }, end)),
            Err(e) => Err(e),
        }
    }

    /// Reads a chunk from the start of `value` by its first four bytes: a `RIFF` root, a
    /// `LIST`, or a plain chunk; also gives the byte count it occupies.
    fn parse_sized(value: &[u8]) -> (res: Result<(Chunk, usize), ChunkError>)
        ensures
            sized_result_matches(res, spec_parse(value@)),
    {
        if value.len() < 8 {
            return Err(ChunkError::BufferTooShort { needed: 8, actual: value.len() });
        }
        let is_riff = value[0] == 0x52 && value[1] == 0x49 && value[2] == 0x46 && value[3] == 0x46;
        let is_list = value[0] == 0x4c && value[1] == 0x49 && value[2] == 0x53 && value[3] == 0x54;
        proof {
            assert(is_riff <==> value@.subrange(0, 4) =~= tag_riff());
            assert(is_list <==> value@.subrange(0, 4) =~= tag_list());
        }
        if is_riff {
            Chunk::parse_riff(value)
        } else if is_list {
            Chunk::parse_list(value)
        } else {
            Chunk::parse_plain_sized(value)
        }
    }

    fn parse(value: &[u8]) -> (res: Result<Chunk, ChunkError>)
        ensures
            parse_result_view(res) == spec_parse(value@),
    {
        match Chunk::parse_sized(value) {
            Ok((c, _)) => Ok(c),
            Err(e) => Err(e),
        }
    }
}

impl<'a> TryFrom<&'a [u8]> for Chunk {
    type Error = ChunkError;

    fn try_from(value: &'a [u8]) -> (res: Result<Self, Self::Error>)
        ensures
            parse_result_view(res) == spec_parse(value@),
    {
        Chunk::parse(value)
    }
}

// A parsed chunk holds vectors, which spec code cannot build, so the result of
// `try_from` is stated through views by its own `ensures` rather than by `try_from_spec`.
impl<'a> vstd::std_specs::convert::TryFromSpecImpl<&'a [u8]> for Chunk {
    open spec fn obeys_try_from_spec() -> bool {
        false
    }

    open spec fn try_from_spec(v: &'a [u8]) -> Result<Self, Self::Error> {
        vstd::pervasive::arbitrary()
    }
}

/// The size a chunk announces in its header: the payload length (cut to 32 bits) for a
/// plain chunk, the full sizes of its children for a `LIST`, and those plus the four
/// bytes of the form type for a `RIFF` root.
pub open spec fn spec_size(c: SpecChunk) -> nat
    decreases c, 0nat,
{
    match c {
        SpecChunk::Chunk { data, .. } => (data.len() as u32) as nat,
        SpecChunk::List { chunks } => sum_full(chunks),
        SpecChunk::Riff { chunks, .. } => sum_full(chunks) + 4,
    }
}

/// The sum of the full sizes (announced size plus the 8-byte header) of `cs`.
pub open spec fn sum_full(cs: Seq<SpecChunk>) -> nat
    decreases cs, cs.len(),
{
    if cs.len() == 0 {
        0
    } else {
        sum_full(cs.drop_last()) + spec_size(cs.last()) + 8
    }
}

/// Every size computed on the way to `spec_size(c)` fits in a `u32`.
pub open spec fn size_ok(c: SpecChunk) -> bool
    decreases c, 0nat,
{
    match c {
        SpecChunk::Chunk { .. } => true,
        SpecChunk::List { chunks } => all_size_ok(chunks) && sum_full(chunks) <= u32::MAX,
        SpecChunk::Riff { chunks, .. } => all_size_ok(chunks) && sum_full(chunks) + 4 <= u32::MAX,
    }
}

/// Every child is `size_ok` and its full size fits in a `u32`.
pub open spec fn all_size_ok(cs: Seq<SpecChunk>) -> bool
    decreases cs, cs.len(),
{
    if cs.len() == 0 {
        true
    } else {
        all_size_ok(cs.drop_last()) && size_ok(cs.last()) && spec_size(cs.last()) + 8 <= u32::MAX
    }
}

pub(crate) proof fn lemma_chunks_view_index(cs: Seq<Chunk>)
    ensures
        chunks_view(cs).len() == cs.len(),
        forall|i: int| 0 <= i < cs.len() ==> #[trigger] chunks_view(cs)[i] == cs[i]@,
    decreases cs.len(),
{
    if cs.len() > 0 {
        lemma_chunks_view_index(cs.drop_last());
    }
}

proof fn lemma_sum_full_nonneg(cs: Seq<SpecChunk>)
    ensures
        sum_full(cs) >= 8 * cs.len(),
    decreases cs.len(),
{
    if cs.len() > 0 {
        lemma_sum_full_nonneg(cs.drop_last());
    }
}

proof fn lemma_prefix_ok(cs: Seq<SpecChunk>, i: int)
    requires
        0 <= i <= cs.len(),
        all_size_ok(cs),
    ensures
        all_size_ok(cs.take(i)),
        sum_full(cs.take(i)) <= sum_full(cs),
        i < cs.len() ==> size_ok(cs[i]) && spec_size(cs[i]) + 8 <= u32::MAX,
    decreases cs.len() - i,
{
    if i == cs.len() {
        assert(cs.take(i) =~= cs);
    } else {
        lemma_prefix_ok(cs.drop_last(), i);
        assert(cs.drop_last().take(i) =~= cs.take(i));
        if i < cs.len() - 1 {
            assert(cs.drop_last()[i] == cs[i]);
        }
    }
}

proof fn lemma_take_step(cs: Seq<SpecChunk>, i: int)
    requires
        0 <= i < cs.len(),
    ensures
        sum_full(cs.take(i + 1)) == sum_full(cs.take(i)) + spec_size(cs[i]) + 8,
        all_size_ok(cs.take(i + 1)) == (all_size_ok(cs.take(i)) && size_ok(cs[i]) && spec_size(cs[i]) + 8 <= u32::MAX),
{
    assert(cs.take(i + 1).drop_last() =~= cs.take(i));
}

impl Chunk {
    /// The announced size, computed with 32-bit wrapping arithmetic; exact whenever
    /// `size_ok` holds.
    fn size_wrapping(&self) -> (r: u32)
        ensures
            size_ok(self@) ==> r == spec_size(self@),
        decreases self, 0nat,
    {
        match self {
            Chunk::Chunk { data, .. } => data.len() as u32,
            Chunk::Riff { chunks, .. } => {
                let total = Chunk::sum_full_wrapping(chunks);
                total.wrapping_add(4)
            },
            Chunk::List { chunks } => Chunk::sum_full_wrapping(chunks),
        }
    }

    fn sum_full_wrapping(chunks: &Vec<Chunk>) -> (r: u32)
        ensures
            all_size_ok(chunks_view(chunks@)) && sum_full(chunks_view(chunks@)) <= u32::MAX
                ==> r == sum_full(chunks_view(chunks@)),
        decreases chunks@, 2nat,
    {
        let ghost cv = chunks_view(chunks@);
        let mut total: u32 = 0;
        let mut i: usize = 0;
        proof {
            lemma_chunks_view_index(chunks@);
            assert(cv.take(0) =~= Seq::<SpecChunk>::empty());
        }
        while i < chunks.len()
            invariant
                0 <= i <= chunks@.len(),
                cv == chunks_view(chunks@),
                cv.len() == chunks@.len(),
                forall|j: int| 0 <= j < chunks@.len() ==> #[trigger] cv[j] == chunks@[j]@,
                all_size_ok(cv) && sum_full(cv) <= u32::MAX ==> total == sum_full(cv.take(i as int)),
            decreases chunks@.len() - i,
        {
            let child = &chunks[i];
            proof {
                assert(decreases_to!(chunks@ => chunks@[i as int]));
            }
            let s = child.full_size();
            proof {
                lemma_take_step(cv, i as int);
                if all_size_ok(cv) && sum_full(cv) <= u32::MAX {
                    lemma_prefix_ok(cv, i as int + 1);
                    lemma_prefix_ok(cv, i as int);
                    lemma_sum_full_nonneg(cv.take(i as int));
                }
            }
            total = total.wrapping_add(s);
            i = i + 1;
        }
        proof {
            assert(cv.take(chunks@.len() as int) =~= cv);
        }
        total
    }

    /// The full byte count of this chunk: its announced size plus the 8-byte header
    /// (32-bit wrapping; exact whenever the sizes fit).
    fn full_size(&self) -> (r: u32)
        ensures
            size_ok(self@) && spec_size(self@) + 8 <= u32::MAX ==> r == spec_size(self@) + 8,
        decreases self, 1nat,
    {
        self.size_wrapping().wrapping_add(8)
    }

    /// The size this chunk announces in its header (the 8-byte header itself excluded).
    pub fn size(&self) -> (r: u32)
        requires
            size_ok(self@),
        ensures
            r == spec_size(self@),
    {
        self.size_wrapping()
    }
}

/// The four little-endian bytes of `x` (taken modulo 2^32).
pub open spec fn le_bytes(x: nat) -> Seq<u8> {
    seq![(x % 256) as u8, ((x / 256) % 256) as u8, ((x / 65536) % 256) as u8, ((x / 16777216) % 256) as u8]
}

/// The size a `RIFF` root writes in its header: its size rounded up to an even number.
pub open spec fn written_size(size: nat) -> nat {
    if size % 2 == 1 {
        size + 1
    } else {
        size
    }
}

/// The padding byte a `RIFF` root of odd size ends with.
pub open spec fn pad(size: nat) -> Seq<u8> {
    if size % 2 == 1 {
        seq![0u8]
    } else {
        Seq::empty()
    }
}

/// The bytes a chunk is written as.
pub open spec fn spec_encode(c: SpecChunk) -> Seq<u8>
    decreases c, 0nat,
{
    match c {
        SpecChunk::Chunk { four_cc, data } => four_cc + le_bytes(spec_size(c)) + data,
        SpecChunk::List { chunks } => tag_list() + le_bytes(spec_size(c)) + encode_all(chunks),
        SpecChunk::Riff { four_cc, chunks } => tag_riff() + le_bytes(written_size(spec_size(c))) + four_cc
            + encode_all(chunks) + pad(spec_size(c)),
    }
}

/// The encodings of `cs`, one after the other.
pub open spec fn encode_all(cs: Seq<SpecChunk>) -> Seq<u8>
    decreases cs, cs.len(),
{
    if cs.len() == 0 {
        Seq::empty()
    } else {
        encode_all(cs.drop_last()) + spec_encode(cs.last())
    }
}

/// Writing `c` overflows no 32-bit size: its sizes fit, and a `RIFF` root's size can
/// still be rounded up to an even number.
pub open spec fn encodable(c: SpecChunk) -> bool {
    &&& size_ok(c)
    &&& c is Riff ==> spec_size(c) < u32::MAX
}

fn push_le32(out: &mut Vec<u8>, x: u32)
    ensures
        final(out)@ == old(out)@ + le_bytes(x as nat),
{
    out.push((x % 256) as u8);
    out.push(((x / 256) % 256) as u8);
    out.push(((x / 65536) % 256) as u8);
    out.push(((x / 16777216) % 256) as u8);
    proof {
        assert(final(out)@ =~= old(out)@ + le_bytes(x as nat));
    }
}

fn push_all(out: &mut Vec<u8>, bytes: &[u8])
    ensures
        final(out)@ == old(out)@ + bytes@,
{
    let mut i: usize = 0;
    while i < bytes.len()
        invariant
            0 <= i <= bytes@.len(),
            out@ == old(out)@ + bytes@.take(i as int),
        decreases bytes@.len() - i,
    {
        out.push(bytes[i]);
        i = i + 1;
        proof {
            assert(out@ =~= old(out)@ + bytes@.take(i as int));
        }
    }
    proof {
        assert(bytes@.take(i as int) =~= bytes@);
    }
}

impl Chunk {
    /// Writes a `LIST` chunk announcing `size`, followed by the encodings of `chunks`.
    fn encode_list(chunks: &Vec<Chunk>, size: u32) -> (r: Vec<u8>)
        ensures
            all_size_ok(chunks_view(chunks@)) ==> r@ == tag_list() + le_bytes(size as nat) + encode_all(chunks_view(chunks@)),
        decreases chunks@, 1nat,
    {
        let mut result: Vec<u8> = Vec::new();
        result.push(0x4c);
        result.push(0x49);
        result.push(0x53);
        result.push(0x54);
        push_le32(&mut result, size);
        let ghost header = result@;
        proof {
            assert(header =~= tag_list() + le_bytes(size as nat));
        }
        Chunk::encode_children(chunks, &mut result);
        result
    }

    /// Appends the encodings of `chunks` to `out`.
    fn encode_children(chunks: &Vec<Chunk>, out: &mut Vec<u8>)
        ensures
            all_size_ok(chunks_view(chunks@)) ==> final(out)@ == old(out)@ + encode_all(chunks_view(chunks@)),
        decreases chunks@, 0nat,
    {
        let ghost cv = chunks_view(chunks@);
        let ghost start = out@;
        let mut i: usize = 0;
        proof {
            lemma_chunks_view_index(chunks@);
            assert(encode_all(cv.take(0)) =~= Seq::<u8>::empty());
            assert(out@ =~= start + encode_all(cv.take(0)));
        }
        while i < chunks.len()
            invariant
                0 <= i <= chunks@.len(),
                cv == chunks_view(chunks@),
                cv.len() == chunks@.len(),
                forall|j: int| 0 <= j < chunks@.len() ==> #[trigger] cv[j] == chunks@[j]@,
                all_size_ok(cv) ==> out@ == start + encode_all(cv.take(i as int)),
            decreases chunks@.len() - i,
        {
            let child = &chunks[i];
            proof {
                assert(decreases_to!(chunks@ => chunks@[i as int]));
            }
            let mut bytes = child.to_bytes();
            proof {
                assert(cv.take(i as int + 1).drop_last() =~= cv.take(i as int));
                if all_size_ok(cv) {
                    lemma_prefix_ok(cv, i as int);
                }
            }
            out.append(&mut bytes);
            proof {
                if all_size_ok(cv) {
                    assert(out@ =~= start + encode_all(cv.take(i as int + 1)));
                }
            }
            i = i + 1;
        }
        proof {
            assert(cv.take(chunks@.len() as int) =~= cv);
        }
    }

    /// Writes a `RIFF` root announcing `size` (rounded up to an even number), its form
    /// type, the encodings of `chunks`, and a padding byte when `size` is odd.
    fn encode_riff(four_cc: &FourCC, chunks: &Vec<Chunk>, size: u32) -> (r: Vec<u8>)
        ensures
            all_size_ok(chunks_view(chunks@)) && size < u32::MAX ==> r@ == tag_riff() + le_bytes(written_size(size as nat))
                + four_cc@ + encode_all(chunks_view(chunks@)) + pad(size as nat),
        decreases chunks@, 1nat,
    {
        let is_odd_size = size % 2 == 1;
        let written = if is_odd_size {
            size.wrapping_add(1)
        } else {
            size
        };
        let mut result: Vec<u8> = Vec::new();
        result.push(0x52);
        result.push(0x49);
        result.push(0x46);
        result.push(0x46);
        push_le32(&mut result, written);
        push_all(&mut result, four_cc.as_bytes());
        Chunk::encode_children(chunks, &mut result);
        if is_odd_size {
            result.push(0x00);
        }
        proof {
            if all_size_ok(chunks_view(chunks@)) && size < u32::MAX {
                assert(result@ =~= tag_riff() + le_bytes(written_size(size as nat))
                    + four_cc@ + encode_all(chunks_view(chunks@)) + pad(size as nat));
            }
        }
        result
    }

    /// Writes a plain chunk: its code, `size`, and its payload.
    fn encode_chunk(four_cc: &FourCC, data: &[u8], size: u32) -> (r: Vec<u8>)
        ensures
            r@ == four_cc@ + le_bytes(size as nat) + data@,
    {
        let mut result: Vec<u8> = Vec::new();
        push_all(&mut result, four_cc.as_bytes());
        push_le32(&mut result, size);
        push_all(&mut result, data);
        proof {
            assert(result@ =~= four_cc@ + le_bytes(size as nat) + data@);
        }
        result
    }

    /// The bytes this chunk is written as.
    fn to_bytes(&self) -> (r: Vec<u8>)
        ensures
            encodable(self@) ==> r@ == spec_encode(self@),
        decreases self, 0nat,
    {
        let size = self.size_wrapping();
        match self {
            Chunk::List { chunks } => Chunk::encode_list(chunks, size),
            Chunk::Riff { four_cc, chunks } => Chunk::encode_riff(four_cc, chunks, size),
            Chunk::Chunk { four_cc, data } => Chunk::encode_chunk(four_cc, data.as_slice(), size),
        }
    }
}

proof fn lemma_le32_roundtrip(x: nat)
    requires
        x <= u32::MAX,
    ensures
        le32(le_bytes(x)[0], le_bytes(x)[1], le_bytes(x)[2], le_bytes(x)[3]) == x,
{
    let b0 = x % 256;
    let b1 = (x / 256) % 256;
    let b2 = (x / 65536) % 256;
    let b3 = (x / 16777216) % 256;
    assert(b0 + b1 * 256 + b2 * 65536 + b3 * 16777216 == x) by (nonlinear_arith)
        requires
            x <= 0xffff_ffff,
            b0 == x % 256,
            b1 == (x / 256) % 256,
            b2 == (x / 65536) % 256,
            b3 == (x / 16777216) % 256,
    ;
}

proof fn lemma_sum_full_cons(c: SpecChunk, cs: Seq<SpecChunk>)
    ensures
        sum_full(seq![c] + cs) == spec_size(c) + 8 + sum_full(cs),
    decreases cs.len(),
{
    if cs.len() == 0 {
        assert(seq![c] + cs =~= seq![c]);
        assert(seq![c].drop_last() =~= Seq::<SpecChunk>::empty());
        assert(seq![c].last() == c);
        assert(sum_full(Seq::<SpecChunk>::empty()) == 0);
        assert(sum_full(cs) == 0);
    } else {
        lemma_sum_full_cons(c, cs.drop_last());
        assert((seq![c] + cs).drop_last() =~= seq![c] + cs.drop_last());
    }
}

proof fn lemma_encode_all_cons(c: SpecChunk, cs: Seq<SpecChunk>)
    ensures
        encode_all(seq![c] + cs) == spec_encode(c) + encode_all(cs),
    decreases cs.len(),
{
    if cs.len() == 0 {
        assert(seq![c] + cs =~= seq![c]);
        assert(seq![c].drop_last() =~= Seq::<SpecChunk>::empty());
        assert(seq![c].last() == c);
        assert(encode_all(Seq::<SpecChunk>::empty()) == Seq::<u8>::empty());
        assert(encode_all(cs) == Seq::<u8>::empty());
        assert(encode_all(seq![c]) =~= spec_encode(c) + encode_all(cs));
    } else {
        lemma_encode_all_cons(c, cs.drop_last());
        assert((seq![c] + cs).drop_last() =~= seq![c] + cs.drop_last());
        assert(encode_all(seq![c] + cs) =~= spec_encode(c) + encode_all(cs));
    }
}

impl Default for FourCC {
    fn default() -> (r: Self)
        ensures
            r@ == seq![0u8, 0u8, 0u8, 0u8],
    {
        let r = FourCC { inner: [0, 0, 0, 0] };
        proof {
            assert(r@ =~= seq![0u8, 0u8, 0u8, 0u8]);
        }
        r
    }
}

impl From<[u8; 4]> for FourCC {
    fn from(from: [u8; 4]) -> (r: Self)
        ensures
            r@ == from@,
    {
        Self { inner: from }
    }
}

impl vstd::std_specs::convert::FromSpecImpl<[u8; 4]> for FourCC {
    open spec fn obeys_from_spec() -> bool {
        true
    }

    closed spec fn from_spec(v: [u8; 4]) -> Self {
        FourCC { inner: v }
    }
}

impl<'a> From<&'a [u8; 4]> for FourCC {
    fn from(from: &'a [u8; 4]) -> (r: Self)
        ensures
            r@ == from@,
    {
        Self { inner: *from }
    }
}

impl<'a> vstd::std_specs::convert::FromSpecImpl<&'a [u8; 4]> for FourCC {
    open spec fn obeys_from_spec() -> bool {
        true
    }

    closed spec fn from_spec(v: &'a [u8; 4]) -> Self {
        FourCC { inner: *v }
    }
}

impl From<FourCC> for [u8; 4] {
    fn from(value: FourCC) -> (r: Self)
        ensures
            r@ == value@,
    {
        value.inner
    }
}

impl vstd::std_specs::convert::FromSpecImpl<FourCC> for [u8; 4] {
    open spec fn obeys_from_spec() -> bool {
        true
    }

    closed spec fn from_spec(v: FourCC) -> Self {
        v.inner
    }
}

impl From<FourCC> for Vec<u8> {
    fn from(value: FourCC) -> (r: Self)
        ensures
            r@ == value@,
    {
        let mut r: Vec<u8> = Vec::new();
        push_all(&mut r, value.as_bytes());
        r
    }
}

// Spec code cannot build a `Vec`, so the result is stated by the `ensures` of `from`.
impl vstd::std_specs::convert::FromSpecImpl<FourCC> for Vec<u8> {
    open spec fn obeys_from_spec() -> bool {
        false
    }

    open spec fn from_spec(v: FourCC) -> Self {
        vstd::pervasive::arbitrary()
    }
}

impl AsRef<[u8]> for FourCC {
    fn as_ref(&self) -> (r: &[u8])
        ensures
            r@ == self@,
    {
        self.inner.as_slice()
    }
}

impl<'a> TryFrom<&'a [u8]> for FourCC {
    type Error = FourCCError;

    fn try_from(value: &'a [u8]) -> (res: Result<Self, Self::Error>)
        ensures
            value@.len() == 4 ==> (res matches Ok(cc) && cc@ == value@),
            value@.len() != 4 ==> res == Err::<FourCC, FourCCError>(FourCCError::InvalidLength { actual: value@.len() as usize }),
    {
        if value.len() != 4 {
            return Err(FourCCError::InvalidLength { actual: value.len() });
        }
        let cc = FourCC { inner: [value[0], value[1], value[2], value[3]] };
        proof {
            assert(cc@ =~= value@);
        }
        Ok(cc)
    }
}

impl<'a> vstd::std_specs::convert::TryFromSpecImpl<&'a [u8]> for FourCC {
    open spec fn obeys_try_from_spec() -> bool {
        true
    }

    closed spec fn try_from_spec(v: &'a [u8]) -> Result<Self, Self::Error> {
        if v@.len() == 4 {
            Ok(FourCC { inner: [v@[0], v@[1], v@[2], v@[3]] })
        } else {
            Err(FourCCError::InvalidLength { actual: v@.len() as usize })
        }
    }
}

impl<'a> TryFrom<&'a Vec<u8>> for Chunk {
    type Error = ChunkError;

    fn try_from(value: &'a Vec<u8>) -> (res: Result<Self, Self::Error>)
        ensures
            parse_result_view(res) == spec_parse(value@),
    {
        Chunk::parse(value.as_slice())
    }
}

// See the `TryFrom<&[u8]>` case: the result is stated through views.
impl<'a> vstd::std_specs::convert::TryFromSpecImpl<&'a Vec<u8>> for Chunk {
    open spec fn obeys_try_from_spec() -> bool {
        false
    }

    open spec fn try_from_spec(v: &'a Vec<u8>) -> Result<Self, Self::Error> {
        vstd::pervasive::arbitrary()
    }
}

impl TryFrom<Vec<u8>> for Chunk {
    type Error = ChunkError;

    fn try_from(value: Vec<u8>) -> (res: Result<Self, Self::Error>)
        ensures
            parse_result_view(res) == spec_parse(value@),
    {
        Chunk::parse(value.as_slice())
    }
}

// See the `TryFrom<&[u8]>` case: the result is stated through views.
impl vstd::std_specs::convert::TryFromSpecImpl<Vec<u8>> for Chunk {
    open spec fn obeys_try_from_spec() -> bool {
        false
    }

    open spec fn try_from_spec(v: Vec<u8>) -> Result<Self, Self::Error> {
        vstd::pervasive::arbitrary()
    }
}

impl<'a> From<&'a Chunk> for Vec<u8> {
    /// The bytes `value` is written as: its code (`RIFF`, `LIST` or its own), its size in
    /// little-endian order, then its payload or its children, and for a `RIFF` root of odd
    /// size a padding byte. Whenever the sizes fit in 32 bits these are `spec_encode(value@)`.
    fn from(value: &'a Chunk) -> (r: Self)
        ensures
            encodable(value@) ==> r@ == spec_encode(value@),
    {
        value.to_bytes()
    }
}

// Spec code cannot build a `Vec`, so the result is stated by the `ensures` of `from`.
impl<'a> vstd::std_specs::convert::FromSpecImpl<&'a Chunk> for Vec<u8> {
    open spec fn obeys_from_spec() -> bool {
        false
    }

    open spec fn from_spec(v: &'a Chunk) -> Self {
        vstd::pervasive::arbitrary()
    }
}

impl From<Chunk> for Vec<u8> {
    fn from(value: Chunk) -> (r: Self)
        ensures
            encodable(value@) ==> r@ == spec_encode(value@),
    {
        value.to_bytes()
    }
}

// Spec code cannot build a `Vec`, so the result is stated by the `ensures` of `from`.
impl vstd::std_specs::convert::FromSpecImpl<Chunk> for Vec<u8> {
    open spec fn obeys_from_spec() -> bool {
        false
    }

    open spec fn from_spec(v: Chunk) -> Self {
        vstd::pervasive::arbitrary()
    }
}

/// The character a code byte is shown as: printable ASCII (space included) as itself,
/// anything else as `.`.
pub open spec fn shown_char(b: u8) -> char {
    if 0x20 <= b <= 0x7e {
        b as char
    } else {
        '.'
    }
}

/// Showing a byte of a code: every printable ASCII byte, space through `~` (letters,
/// digits and punctuation), is shown as the character with that code; every other byte
/// is shown as `.`.
pub proof fn lemma_shown_char(b: u8)
    ensures
        0x20 <= b <= 0x7e ==> shown_char(b) as u32 == b as u32,
        !(0x20 <= b <= 0x7e) ==> shown_char(b) == '.',
{
}

/// `String::push`: appends `c` to `s`.
#[verifier::external_body]
fn string_push(s: &mut String, c: char)
    ensures
        final(s)@ == old(s)@.push(c),
{
    s.push(c)
}

impl FourCC {
    /// The code as text: its printable ASCII bytes as they are, every other byte as `.`.
    pub fn to_display_string(&self) -> (r: String)
        ensures
            r@ == self@.map_values(|b: u8| shown_char(b)),
            r@.len() == 4,
            forall|i: int| 0 <= i < 4 && 0x20 <= self@[i] <= 0x7e ==> #[trigger] r@[i] as u32 == self@[i] as u32,
            forall|i: int| 0 <= i < 4 && !(0x20 <= self@[i] <= 0x7e) ==> #[trigger] r@[i] == '.',
    {
        let mut r = String::new();
        let mut i: usize = 0;
        while i < 4
            invariant
                0 <= i <= 4,
                self@.len() == 4,
                r@ == self@.take(i as int).map_values(|b: u8| shown_char(b)),
            decreases 4 - i,
        {
            let b = self.inner[i];
            let c = if 0x20 <= b && b <= 0x7e {
                b as char
            } else {
                '.'
            };
            string_push(&mut r, c);
            i = i + 1;
            proof {
                assert(r@ =~= self@.take(i as int).map_values(|b: u8| shown_char(b)));
            }
        }
        proof {
            assert(self@.take(4) =~= self@);
        }
        r
    }
}

impl Chunk {
    /// A copy of this chunk and of all it holds.
    fn deep_copy(&self) -> (r: Chunk)
        ensures
            r@ == self@,
        decreases self, 0nat,
    {
        match self {
            Chunk::Chunk { four_cc, data } => Chunk::Chunk { four_cc: *four_cc, data: slice_to_vec(data.as_slice()) },
            Chunk::List { chunks } => Chunk::List { chunks: Chunk::copy_all(chunks) },
            Chunk::Riff { four_cc, chunks } => Chunk::Riff { four_cc: *four_cc, chunks: Chunk::copy_all(chunks) },
        }
    }

    fn copy_all(chunks: &Vec<Chunk>) -> (r: Vec<Chunk>)
        ensures
            chunks_view(r@) == chunks_view(chunks@),
        decreases chunks@, 1nat,
    {
        let mut r: Vec<Chunk> = Vec::new();
        let mut i: usize = 0;
        proof {
            lemma_chunks_view_index(chunks@);
        }
        while i < chunks.len()
            invariant
                0 <= i <= chunks@.len(),
                r@.len() == i,
                forall|j: int| 0 <= j < i ==> #[trigger] r@[j]@ == chunks@[j]@,
            decreases chunks@.len() - i,
        {
            proof {
                assert(decreases_to!(chunks@ => chunks@[i as int]));
            }
            let c = chunks[i].deep_copy();
            r.push(c);
            i = i + 1;
        }
        proof {
            lemma_chunks_view_index(r@);
            lemma_chunks_view_index(chunks@);
            assert(chunks_view(r@) =~= chunks_view(chunks@));
        }
        r
    }
}

impl Clone for Chunk {
    fn clone(&self) -> (r: Self)
        ensures
            r@ == self@,
    {
        self.deep_copy()
    }
}

proof fn lemma_all_size_ok_cons(c: SpecChunk, cs: Seq<SpecChunk>)
    ensures
        all_size_ok(seq![c] + cs) == (size_ok(c) && spec_size(c) + 8 <= u32::MAX && all_size_ok(cs)),
    decreases cs.len(),
{
    if cs.len() == 0 {
        assert(seq![c] + cs =~= seq![c]);
        assert(seq![c].drop_last() =~= Seq::<SpecChunk>::empty());
        assert(seq![c].last() == c);
        assert(all_size_ok(Seq::<SpecChunk>::empty()));
        assert(all_size_ok(cs));
    } else {
        lemma_all_size_ok_cons(c, cs.drop_last());
        assert((seq![c] + cs).drop_last() =~= seq![c] + cs.drop_last());
        assert((seq![c] + cs).last() == cs.last());
    }
}

/// Every code is four bytes long, every plain payload's length fits in 32 bits, and no
/// `RIFF` root below the top of `c` has an odd size: the chunks whose encoding is as long
/// as their announced size plus the header.
pub open spec fn layout_ok(c: SpecChunk) -> bool
    decreases c, 0nat,
{
    match c {
        SpecChunk::Chunk { four_cc, data } => four_cc.len() == 4 && data.len() <= u32::MAX,
        SpecChunk::List { chunks } => all_layout_ok(chunks),
        SpecChunk::Riff { four_cc, chunks } => four_cc.len() == 4 && all_layout_ok(chunks),
    }
}

/// `c` is `layout_ok` and is no `RIFF` root of odd size.
pub open spec fn child_layout_ok(c: SpecChunk) -> bool
    decreases c, 1nat,
{
    layout_ok(c) && (c is Riff ==> spec_size(c) % 2 == 0)
}

/// Every chunk of `cs` is `child_layout_ok`.
pub open spec fn all_layout_ok(cs: Seq<SpecChunk>) -> bool
    decreases cs, cs.len(),
{
    if cs.len() == 0 {
        true
    } else {
        all_layout_ok(cs.drop_last()) && child_layout_ok(cs.last())
    }
}

/// The codes reading keeps: a plain chunk at the top is coded neither `RIFF` nor `LIST`,
/// and the chunks below the top are `child_shape_ok`.
pub open spec fn shape_ok(c: SpecChunk, strict: bool) -> bool {
    match c {
        SpecChunk::Chunk { four_cc, .. } => four_cc != tag_riff() && four_cc != tag_list(),
        SpecChunk::List { chunks } => all_child_shape_ok(chunks, strict),
        SpecChunk::Riff { chunks, .. } => all_child_shape_ok(chunks, strict),
    }
}

/// A child is no `RIFF` root, the chunks it holds are `child_shape_ok` in turn, and, when
/// `strict`, a plain child is not coded `LIST` (reading may take such a child for a
/// `LIST`, or not, by what its payload holds).
pub open spec fn child_shape_ok(c: SpecChunk, strict: bool) -> bool
    decreases c, 0nat,
{
    match c {
        SpecChunk::Chunk { four_cc, .. } => strict ==> four_cc != tag_list(),
        SpecChunk::List { chunks } => all_child_shape_ok(chunks, strict),
        SpecChunk::Riff { .. } => false,
    }
}

/// Every chunk of `cs` is `child_shape_ok`.
pub open spec fn all_child_shape_ok(cs: Seq<SpecChunk>, strict: bool) -> bool
    decreases cs, cs.len(),
{
    if cs.len() == 0 {
        true
    } else {
        all_child_shape_ok(cs.drop_last(), strict) && child_shape_ok(cs.last(), strict)
    }
}

/// A chunk that reading gives back as it is, at every level of its tree: it is
/// `layout_ok` and strictly `shape_ok`, and every size fits its 32-bit field.
pub open spec fn canonical(c: SpecChunk) -> bool {
    encodable(c) && layout_ok(c) && shape_ok(c, true)
}

/// `c` is `size_ok` and its full size fits in a `u32`.
pub open spec fn child_size_ok(c: SpecChunk) -> bool {
    size_ok(c) && spec_size(c) + 8 <= u32::MAX
}

proof fn lemma_all_layout_index(cs: Seq<SpecChunk>)
    ensures
        all_layout_ok(cs) == forall|i: int| 0 <= i < cs.len() ==> #[trigger] child_layout_ok(cs[i]),
    decreases cs.len(),
{
    if cs.len() > 0 {
        let init = cs.drop_last();
        lemma_all_layout_index(init);
        assert(cs.last() == cs[cs.len() - 1]);
        assert forall|i: int| 0 <= i < init.len() implies init[i] == cs[i] by {}
        if forall|i: int| 0 <= i < cs.len() ==> #[trigger] child_layout_ok(cs[i]) {
            assert(child_layout_ok(cs[cs.len() - 1]));
            assert forall|i: int| 0 <= i < init.len() implies #[trigger] child_layout_ok(init[i]) by {
                assert(child_layout_ok(cs[i]));
            }
        }
        if all_layout_ok(cs) {
            assert forall|i: int| 0 <= i < cs.len() implies #[trigger] child_layout_ok(cs[i]) by {
                if i < cs.len() - 1 {
                    assert(child_layout_ok(init[i]));
                }
            }
        }
    }
}

proof fn lemma_all_child_shape_index(cs: Seq<SpecChunk>, strict: bool)
    ensures
        all_child_shape_ok(cs, strict) == forall|i: int| 0 <= i < cs.len() ==> #[trigger] child_shape_ok(cs[i], strict),
    decreases cs.len(),
{
    if cs.len() > 0 {
        let init = cs.drop_last();
        lemma_all_child_shape_index(init, strict);
        assert(cs.last() == cs[cs.len() - 1]);
        assert forall|i: int| 0 <= i < init.len() implies init[i] == cs[i] by {}
        if forall|i: int| 0 <= i < cs.len() ==> #[trigger] child_shape_ok(cs[i], strict) {
            assert(child_shape_ok(cs[cs.len() - 1], strict));
            assert forall|i: int| 0 <= i < init.len() implies #[trigger] child_shape_ok(init[i], strict) by {
                assert(child_shape_ok(cs[i], strict));
            }
        }
        if all_child_shape_ok(cs, strict) {
            assert forall|i: int| 0 <= i < cs.len() implies #[trigger] child_shape_ok(cs[i], strict) by {
                if i < cs.len() - 1 {
                    assert(child_shape_ok(init[i], strict));
                }
            }
        }
    }
}

proof fn lemma_all_size_ok_index(cs: Seq<SpecChunk>)
    ensures
        all_size_ok(cs) == forall|i: int| 0 <= i < cs.len() ==> #[trigger] child_size_ok(cs[i]),
    decreases cs.len(),
{
    if cs.len() > 0 {
        let init = cs.drop_last();
        lemma_all_size_ok_index(init);
        assert(cs.last() == cs[cs.len() - 1]);
        assert forall|i: int| 0 <= i < init.len() implies init[i] == cs[i] by {}
        if forall|i: int| 0 <= i < cs.len() ==> #[trigger] child_size_ok(cs[i]) {
            assert(child_size_ok(cs[cs.len() - 1]));
            assert forall|i: int| 0 <= i < init.len() implies #[trigger] child_size_ok(init[i]) by {
                assert(child_size_ok(cs[i]));
            }
        }
        if all_size_ok(cs) {
            assert forall|i: int| 0 <= i < cs.len() implies #[trigger] child_size_ok(cs[i]) by {
                if i < cs.len() - 1 {
                    assert(child_size_ok(init[i]));
                }
            }
        }
    }
}

/// The encoded length of a `layout_ok` chunk.
proof fn lemma_encode_len(c: SpecChunk)
    requires
        layout_ok(c),
    ensures
        spec_encode(c).len() == spec_size(c) + 8 + (if c is Riff { pad(spec_size(c)).len() } else { 0 }),
    decreases c, 0nat,
{
    match c {
        SpecChunk::Chunk { .. } => {},
        SpecChunk::List { chunks } => lemma_encode_all_len(chunks),
        SpecChunk::Riff { chunks, .. } => lemma_encode_all_len(chunks),
    }
}

proof fn lemma_encode_all_len(cs: Seq<SpecChunk>)
    requires
        all_layout_ok(cs),
    ensures
        encode_all(cs).len() == sum_full(cs),
    decreases cs, cs.len(),
{
    if cs.len() > 0 {
        lemma_encode_all_len(cs.drop_last());
        assert(child_layout_ok(cs.last()));
        lemma_encode_len(cs.last());
    }
}

/// Writing a chunk announces, in its size field, the byte count that follows the header
/// (but for the padding byte of an odd-sized `RIFF` root), for every chunk whose codes are
/// four bytes long, whose payload lengths fit in 32 bits, and that holds no `RIFF` root of
/// odd size below its top.
pub proof fn lemma_encoded_len(c: SpecChunk)
    requires
        layout_ok(c),
    ensures
        c is Riff ==> spec_encode(c).len() == spec_size(c) + 8 + pad(spec_size(c)).len(),
        !(c is Riff) ==> spec_encode(c).len() == spec_size(c) + 8,
{
    lemma_encode_len(c);
}

/// A `layout_ok` chunk whose full size fits in a `u32` has every size fitting its field.
proof fn lemma_small_size_ok(c: SpecChunk)
    requires
        layout_ok(c),
        spec_size(c) + 8 <= u32::MAX,
    ensures
        size_ok(c),
    decreases c, 0nat,
{
    match c {
        SpecChunk::Chunk { .. } => {},
        SpecChunk::List { chunks } => lemma_small_all_size_ok(chunks),
        SpecChunk::Riff { chunks, .. } => lemma_small_all_size_ok(chunks),
    }
}

proof fn lemma_small_all_size_ok(cs: Seq<SpecChunk>)
    requires
        all_layout_ok(cs),
        sum_full(cs) <= u32::MAX,
    ensures
        all_size_ok(cs),
    decreases cs, cs.len(),
{
    if cs.len() > 0 {
        lemma_small_all_size_ok(cs.drop_last());
        assert(child_layout_ok(cs.last()));
        lemma_small_size_ok(cs.last());
    }
}

/// Any buffer that starts with the encoding of a child `c` reads, as a child, as `c`.
proof fn lemma_child_prefix(buf: Seq<u8>, c: SpecChunk)
    requires
        child_layout_ok(c),
        child_shape_ok(c, true),
        child_size_ok(c),
        spec_encode(c).len() <= buf.len(),
        buf.subrange(0, spec_encode(c).len() as int) == spec_encode(c),
    ensures
        spec_parse_child(buf) == Ok::<SpecChunk, ChunkError>(c),
    decreases c, 0nat,
{
    let enc = spec_encode(c);
    assert forall|k: int| 0 <= k < enc.len() implies buf[k] == enc[k] by {
        assert(buf.subrange(0, enc.len() as int)[k] == buf[k]);
    }
    match c {
        SpecChunk::Chunk { four_cc, data } => {
            lemma_le32_roundtrip(data.len());
            assert(buf.subrange(0, 4) =~= four_cc);
            assert(le32_at(buf, 4) == data.len());
            assert(buf.subrange(8, 8 + data.len() as int) =~= data);
        },
        SpecChunk::List { chunks } => {
            let size = spec_size(c);
            let body = encode_all(chunks);
            lemma_le32_roundtrip(size);
            lemma_encode_all_len(chunks);
            assert(buf.subrange(0, 4) =~= tag_list());
            assert(le32_at(buf, 4) == size);
            assert(buf.subrange(8, 8 + body.len() as int) =~= body);
            if chunks.len() > 0 {
                lemma_sum_full_nonneg(chunks.drop_last());
            }
            lemma_children_prefix(buf, size as int, 8, chunks);
        },
        SpecChunk::Riff { .. } => {},
    }
}

proof fn lemma_children_prefix(buf: Seq<u8>, limit: int, offset: int, cs: Seq<SpecChunk>)
    requires
        0 < offset,
        all_layout_ok(cs),
        all_child_shape_ok(cs, true),
        all_size_ok(cs),
        offset + encode_all(cs).len() <= buf.len(),
        buf.subrange(offset, offset + encode_all(cs).len()) == encode_all(cs),
        cs.len() > 0 ==> offset + sum_full(cs.drop_last()) <= limit,
        offset + sum_full(cs) > limit,
    ensures
        spec_parse_children(buf, limit, offset) == Ok::<Seq<SpecChunk>, ChunkError>(cs),
    decreases cs, cs.len(),
{
    if cs.len() == 0 {
        assert(cs =~= Seq::<SpecChunk>::empty());
    } else {
        let c = cs[0];
        let rest = cs.subrange(1, cs.len() as int);
        assert(cs =~= seq![c] + rest);
        lemma_all_layout_index(cs);
        lemma_all_child_shape_index(cs, true);
        lemma_all_size_ok_index(cs);
        lemma_all_layout_index(rest);
        lemma_all_child_shape_index(rest, true);
        lemma_all_size_ok_index(rest);
        assert forall|i: int| 0 <= i < rest.len() implies rest[i] == cs[i + 1] by {}
        assert(child_layout_ok(cs[0]) && child_shape_ok(cs[0], true) && child_size_ok(cs[0]));
        assert(all_layout_ok(rest)) by {
            assert forall|i: int| 0 <= i < rest.len() implies #[trigger] child_layout_ok(rest[i]) by {
                assert(child_layout_ok(cs[i + 1]));
            }
        }
        assert(all_child_shape_ok(rest, true)) by {
            assert forall|i: int| 0 <= i < rest.len() implies #[trigger] child_shape_ok(rest[i], true) by {
                assert(child_shape_ok(cs[i + 1], true));
            }
        }
        assert(all_size_ok(rest)) by {
            assert forall|i: int| 0 <= i < rest.len() implies #[trigger] child_size_ok(rest[i]) by {
                assert(child_size_ok(cs[i + 1]));
            }
        }
        lemma_encode_all_cons(c, rest);
        lemma_sum_full_cons(c, rest);
        lemma_encode_len(c);
        lemma_encode_all_len(cs);
        lemma_encode_all_len(rest);
        let enc = spec_encode(c);
        assert(enc.len() == spec_size(c) + 8);
        let tail = buf.skip(offset);
        assert(tail.subrange(0, enc.len() as int) =~= enc) by {
            assert(buf.subrange(offset, offset + enc.len()) =~= encode_all(cs).subrange(0, enc.len() as int));
        }
        lemma_child_prefix(tail, c);
        let next = offset + spec_size(c) + 8;
        if rest.len() > 0 {
            assert(cs.drop_last() =~= seq![c] + rest.drop_last());
            lemma_sum_full_cons(c, rest.drop_last());
        } else {
            lemma_sum_full_nonneg(cs.drop_last());
        }
        assert(buf.subrange(next, next + encode_all(rest).len()) =~= encode_all(rest)) by {
            let whole = buf.subrange(offset, offset + encode_all(cs).len());
            assert(whole == enc + encode_all(rest));
            assert(buf.subrange(next, next + encode_all(rest).len()) =~= whole.subrange(enc.len() as int, whole.len() as int));
            assert(whole.subrange(enc.len() as int, whole.len() as int) =~= encode_all(rest));
        }
        lemma_children_prefix(buf, limit, next, rest);
        assert(offset <= limit) by {
            lemma_sum_full_nonneg(cs.drop_last());
        }
    }
}

/// Any buffer that starts with the encoding of a canonical chunk `c` reads as `c`.
#[verifier::spinoff_prover]
#[verifier::rlimit(40)]
proof fn lemma_parse_prefix(buf: Seq<u8>, c: SpecChunk)
    requires
        canonical(c),
        spec_encode(c).len() <= buf.len(),
        buf.subrange(0, spec_encode(c).len() as int) == spec_encode(c),
    ensures
        spec_parse(buf) == Ok::<SpecChunk, ChunkError>(c),
{
    let enc = spec_encode(c);
    assert forall|k: int| 0 <= k < enc.len() implies buf[k] == enc[k] by {
        assert(buf.subrange(0, enc.len() as int)[k] == buf[k]);
    }
    match c {
        SpecChunk::Chunk { four_cc, data } => {
            lemma_le32_roundtrip(data.len());
            assert(buf.subrange(0, 4) =~= four_cc);
            assert(le32_at(buf, 4) == data.len());
            assert(buf.subrange(8, 8 + data.len() as int) =~= data);
        },
        SpecChunk::List { chunks } => {
            let size = spec_size(c);
            let body = encode_all(chunks);
            lemma_le32_roundtrip(size);
            lemma_encode_all_len(chunks);
            assert(buf.subrange(0, 4) =~= tag_list());
            assert(buf.subrange(0, 4) != tag_riff()) by {
                assert(buf.subrange(0, 4)[0] != tag_riff()[0]);
            }
            assert(le32_at(buf, 4) == size);
            assert(buf.subrange(8, 8 + body.len() as int) =~= body);
            if chunks.len() > 0 {
                lemma_sum_full_nonneg(chunks.drop_last());
            }
            lemma_children_prefix(buf, size as int, 8, chunks);
        },
        SpecChunk::Riff { four_cc, chunks } => {
            let size = spec_size(c);
            let body = encode_all(chunks);
            let w = written_size(size);
            lemma_le32_roundtrip(w);
            lemma_encode_all_len(chunks);
            assert(buf.subrange(0, 4) =~= tag_riff());
            assert(le32_at(buf, 4) == w);
            assert(buf.subrange(8, 12) =~= four_cc);
            assert(buf.subrange(12, 12 + body.len() as int) =~= body);
            if chunks.len() > 0 {
                lemma_sum_full_nonneg(chunks.drop_last());
            }
            lemma_children_prefix(buf, w as int, 12, chunks);
        },
    }
}

/// Reading what writing gives back the chunk: `spec_parse(spec_encode(c)) == Ok(c)` for
/// every chunk whose encoding is at most 2^32 - 1 bytes long, whose codes are four bytes
/// long and whose payload lengths fit in 32 bits, that is no plain chunk coded `RIFF` or
/// `LIST`, and that holds below its top no `RIFF` root and no plain chunk coded `LIST`.
/// Nested `LIST` chunks, plain children coded `RIFF` and odd-sized roots are included.
pub proof fn lemma_parse_encode_roundtrip(c: SpecChunk)
    requires
        layout_ok(c),
        shape_ok(c, true),
        spec_encode(c).len() <= u32::MAX,
    ensures
        spec_parse(spec_encode(c)) == Ok::<SpecChunk, ChunkError>(c),
{
    lemma_encode_len(c);
    lemma_small_size_ok(c);
    assert(canonical(c));
    assert(spec_encode(c).subrange(0, spec_encode(c).len() as int) =~= spec_encode(c));
    lemma_parse_prefix(spec_encode(c), c);
}

proof fn lemma_child_shape(buf: Seq<u8>)
    requires
        buf.len() <= u32::MAX,
    ensures
        spec_parse_child(buf) matches Ok(c) ==> child_layout_ok(c) && child_shape_ok(c, false) && child_size_ok(c)
            && spec_size(c) + 8 <= buf.len(),
    decreases buf.len(), 2nat, 0int,
{
    lemma_child_fits(buf);
    if buf.len() >= 8 {
        assert(le32_at(buf, 4) <= u32::MAX);
        if buf.subrange(0, 4) == tag_list() {
            lemma_children_shape(buf, le32_at(buf, 4), 8);
        }
    }
}

proof fn lemma_children_shape(buf: Seq<u8>, limit: int, offset: int)
    requires
        buf.len() <= u32::MAX,
        0 < offset <= buf.len(),
    ensures
        spec_parse_children(buf, limit, offset) matches Ok(cs) ==> all_layout_ok(cs) && all_child_shape_ok(cs, false)
            && all_size_ok(cs) && offset + sum_full(cs) <= buf.len(),
    decreases buf.len(), 0nat, buf.len() - offset,
{
    lemma_children_fit(buf, limit, offset);
    if limit >= offset {
        let tail = buf.skip(offset);
        lemma_child_shape(tail);
        if let Ok(c) = spec_parse_child(tail) {
            let next = offset + spec_size(c) + 8;
            if next < buf.len() {
                lemma_children_shape(buf, limit, next);
            } else if next == buf.len() && limit >= next {
                assert(spec_parse_child(buf.skip(next)).is_err()) by {
                    assert(buf.skip(next).len() == 0);
                }
            }
            if let Ok(rest) = spec_parse_children(buf, limit, next) {
                let cs = seq![c] + rest;
                if next == buf.len() {
                    assert(rest =~= Seq::<SpecChunk>::empty());
                }
                lemma_all_layout_index(rest);
                lemma_all_layout_index(cs);
                lemma_all_child_shape_index(rest, false);
                lemma_all_child_shape_index(cs, false);
                assert forall|i: int| 0 <= i < cs.len() implies #[trigger] child_layout_ok(cs[i])
                    && child_shape_ok(cs[i], false) by {
                    if i > 0 {
                        assert(cs[i] == rest[i - 1]);
                    }
                }
                lemma_all_size_ok_cons(c, rest);
                lemma_sum_full_cons(c, rest);
            }
        }
    } else {
        assert(spec_parse_children(buf, limit, offset) == Ok::<Seq<SpecChunk>, ChunkError>(Seq::empty()));
    }
}

proof fn lemma_parsed_shape(buf: Seq<u8>)
    requires
        buf.len() <= u32::MAX,
    ensures
        spec_parse(buf) matches Ok(c) ==> layout_ok(c) && shape_ok(c, false) && size_ok(c)
            && spec_size(c) + 8 <= buf.len(),
{
    lemma_parse_fits(buf);
    if buf.len() >= 8 {
        if buf.subrange(0, 4) == tag_riff() {
            if buf.len() >= 12 {
                lemma_children_shape(buf, le32_at(buf, 4), 12);
            }
        } else if buf.subrange(0, 4) == tag_list() {
            lemma_children_shape(buf, le32_at(buf, 4), 8);
        } else {
            assert(le32_at(buf, 4) <= u32::MAX);
        }
    }
}

/// Every chunk read from at most 2^32 - 1 bytes is `layout_ok` and `shape_ok` (plain
/// children coded `LIST` allowed), and its sizes fit in 32 bits; it is canonical as soon
/// as it holds no plain child coded `LIST`.
pub proof fn lemma_parsed_is_canonical(buf: Seq<u8>)
    requires
        buf.len() <= u32::MAX,
        spec_parse(buf) is Ok,
    ensures
        layout_ok(spec_parse(buf)->Ok_0),
        shape_ok(spec_parse(buf)->Ok_0, false),
        encodable(spec_parse(buf)->Ok_0),
        shape_ok(spec_parse(buf)->Ok_0, true) ==> canonical(spec_parse(buf)->Ok_0),
{
    lemma_parsed_shape(buf);
}

/// Writing a chunk that was read and reading the bytes again gives the same chunk, for
/// every input of at most 2^32 - 1 bytes that reads without error into a chunk with no
/// plain child coded `LIST`.
pub proof fn lemma_reparse_stable(buf: Seq<u8>)
    requires
        buf.len() <= u32::MAX,
        spec_parse(buf) is Ok,
        shape_ok(spec_parse(buf)->Ok_0, true),
    ensures
        spec_parse(spec_encode(spec_parse(buf)->Ok_0)) == spec_parse(buf),
{
    let c = spec_parse(buf)->Ok_0;
    lemma_parsed_is_canonical(buf);
    assert(spec_encode(c).subrange(0, spec_encode(c).len() as int) =~= spec_encode(c));
    lemma_parse_prefix(spec_encode(c), c);
}

} // verus!

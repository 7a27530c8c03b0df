//! The paged writer: slices frozen columns into row-bounded pages, hands
//! each page to a pluggable encoder, streams the result to a byte sink, and
//! records per-page metadata plus a fixed 8-byte footer.

use vstd::bytes::spec_u32_from_le_bytes;
use vstd::bytes::spec_u32_to_le_bytes;
use vstd::bytes::u32_to_le_bytes;
use vstd::prelude::*;

use crate::builder::lemma_row_len_bound;
use crate::builder::row_bytes;
use crate::builder::row_len;
use crate::builder::BinaryViewArray;
use crate::builder::extend_from_slice;
use crate::error::Error;

verus! {

/// A compression codec tag, recorded per page by the pluggable strategy.
#[derive(Clone, Copy, PartialEq, Eq, Structural, Debug)]
pub enum Compression {
    Uncompressed,
    Lz4,
    Zstd,
}

/// Options declaring how columns are paged and compressed.
pub struct WriteOptions {
    /// The codec applied unless the strategy prefers another.
    pub default_compression: Compression,
    /// Minimum compression gain, in percent, required to prefer an
    /// alternative encoding.
    pub default_compress_ratio: Option<u64>,
    /// Row-count ceiling per page; absent means the whole column is one page.
    pub max_page_size: Option<usize>,
    /// Codecs excluded from selection.
    pub forbidden_compressions: Vec<Compression>,
}

/// Per-page metadata: bytes written and rows covered.
#[derive(Clone, Copy, PartialEq, Eq, Structural, Debug)]
pub struct PageMeta {
    pub length: u64,
    pub num_values: u64,
}

/// Per-leaf metadata: the stream offset of the first page, then one
/// [`PageMeta`] per page in order.
pub struct ColumnMeta {
    pub offset: u64,
    pub pages: Vec<PageMeta>,
}

/// One named column of a schema.
pub struct Field {
    pub name: String,
}

/// A byte sink: the abstract output stream the writer appends to. A failed
/// write promises nothing about the stream's tail; callers must not treat a
/// stream without its footer as complete. A sink that can never fail says so
/// through `infallible`, and success then follows from the contract.
pub trait Sink {
    /// Everything successfully written so far.
    spec fn contents(&self) -> Seq<u8>;

    /// Whether this sink promises that every write succeeds.
    spec fn infallible(&self) -> bool;

    /// Append `buf` to the stream.
    fn write_all(&mut self, buf: &[u8]) -> (r: Result<(), Error>)
        ensures
            r is Ok ==> final(self).contents() == old(self).contents() + buf@,
            old(self).infallible() ==> r is Ok && final(self).infallible(),
    ;
}

/// An in-memory sink; every write succeeds.
pub struct VecSink {
    data: Vec<u8>,
}

impl VecSink {
    pub fn new() -> (r: VecSink)
        ensures
            r.contents() == Seq::<u8>::empty(),
    {
        VecSink { data: Vec::new() }
    }

    /// The bytes written so far.
    pub fn data(&self) -> (r: &Vec<u8>)
        ensures
            r@ == self.contents(),
    {
        &self.data
    }
}

impl Sink for VecSink {
    closed spec fn contents(&self) -> Seq<u8> {
        self.data@
    }

    open spec fn infallible(&self) -> bool {
        true
    }

    fn write_all(&mut self, buf: &[u8]) -> (r: Result<(), Error>) {
        extend_from_slice(&mut self.data, buf);
        Ok(())
    }
}

/// A page encoding strategy: serializes a row range of a leaf column (and
/// compresses it as its options direct) into the scratch buffer. What it
/// produces is a function of the rows and options alone — the same page
/// encodes to the same bytes — and is never empty.
pub trait PageEncoder {
    /// The bytes this strategy produces for the given rows.
    spec fn page_bytes(&self, rows: Seq<Option<Seq<u8>>>) -> Seq<u8>;

    /// Serialize rows `[offset, offset + length)` of `leaf` into `scratch`,
    /// replacing its contents.
    fn encode_page(
        &self,
        leaf: &BinaryViewArray,
        offset: usize,
        length: usize,
        options: &WriteOptions,
        scratch: &mut Vec<u8>,
    )
        requires
            leaf.wf(),
            offset + length <= leaf.rows().len(),
            length <= u32::MAX,
        ensures
            final(scratch)@ == self.page_bytes(
                leaf.rows().subrange(offset as int, offset as int + length as int),
            ),
            final(scratch)@.len() > 0,
    ;
}

/// The uncompressed page layout of [`PlainPageEncoder`]: a little-endian
/// `u32` row count, then per row a little-endian `u32` byte length, one
/// validity byte (1 for a value, 0 for null), and the row's bytes.
pub open spec fn plain_page_bytes(rows: Seq<Option<Seq<u8>>>) -> Seq<u8> {
    spec_u32_to_le_bytes(rows.len() as u32) + plain_rows_bytes(rows)
}

/// The per-row section of the plain page layout.
pub open spec fn plain_rows_bytes(rows: Seq<Option<Seq<u8>>>) -> Seq<u8>
    decreases rows.len(),
{
    if rows.len() == 0 {
        Seq::empty()
    } else {
        plain_rows_bytes(rows.drop_last()) + plain_row_bytes(rows.last())
    }
}

/// One row of the plain page layout.
pub open spec fn plain_row_bytes(row: Option<Seq<u8>>) -> Seq<u8> {
    spec_u32_to_le_bytes(row_len(row) as u32) + seq![
        if row is Some {
            1u8
        } else {
            0u8
        },
    ] + row_bytes(row)
}

proof fn lemma_plain_rows_bytes_push(rows: Seq<Option<Seq<u8>>>, row: Option<Seq<u8>>)
    ensures
        plain_rows_bytes(rows.push(row)) == plain_rows_bytes(rows) + plain_row_bytes(row),
{
    assert(rows.push(row).drop_last() =~= rows);
}

/// The built-in strategy: no compression, the plain page layout.
pub struct PlainPageEncoder;

impl PageEncoder for PlainPageEncoder {
    open spec fn page_bytes(&self, rows: Seq<Option<Seq<u8>>>) -> Seq<u8> {
        plain_page_bytes(rows)
    }

    #[verifier::loop_isolation(false)]
    fn encode_page(
        &self,
        leaf: &BinaryViewArray,
        offset: usize,
        length: usize,
        options: &WriteOptions,
        scratch: &mut Vec<u8>,
    ) {
        let total = leaf.len();
        let ghost page_rows = leaf.rows().subrange(offset as int, offset as int + length as int);
        let mut out: Vec<u8> = u32_to_le_bytes(length as u32);
        let mut i: usize = 0;
        while i < length
            invariant
                i <= length,
                offset + length <= total,
                out@ == spec_u32_to_le_bytes(length as u32) + plain_rows_bytes(
                    page_rows.take(i as int),
                ),
            decreases length - i,
        {
            let ghost done = page_rows.take(i as int);
            let row = offset + i;
            proof {
                assert(page_rows[i as int] == leaf.rows()[row as int]);
                lemma_row_len_bound(*leaf, row as int);
            }
            let bytes = leaf.value_at(row);
            proof {
                if leaf.rows()[row as int] is None {
                    assert(bytes@ =~= row_bytes(leaf.rows()[row as int]));
                }
            }
            let len_bytes = u32_to_le_bytes(bytes.len() as u32);
            extend_from_slice(&mut out, len_bytes.as_slice());
            if leaf.is_null_at(row) {
                out.push(0u8);
            } else {
                out.push(1u8);
            }
            extend_from_slice(&mut out, bytes.as_slice());
            proof {
                lemma_plain_rows_bytes_push(done, page_rows[i as int]);
                assert(page_rows.take(i + 1) =~= done.push(page_rows[i as int]));
                assert(row_len(page_rows[i as int]) == bytes@.len());
                assert(out@ =~= spec_u32_to_le_bytes(length as u32) + plain_rows_bytes(
                    page_rows.take(i + 1),
                ));
            }
            i = i + 1;
        }
        proof {
            assert(page_rows.take(length as int) =~= page_rows);
            vstd::bytes::lemma_auto_spec_u32_to_from_le_bytes();
            assert(page_rows.len() == length as int);
        }
        *scratch = out;
    }
}

/// A batch of same-length frozen columns, the unit handed to the writer.
/// (Whether the columns really agree on length is checked by
/// [`NativeWriter::encode_chunk`], not assumed here.)
pub struct Chunk {
    columns: Vec<BinaryViewArray>,
}

impl Chunk {
    pub closed spec fn spec_columns(self) -> Seq<BinaryViewArray> {
        self.columns@
    }

    /// The chunk's row count: that of its first column.
    pub open spec fn spec_rows(self) -> int {
        if self.spec_columns().len() == 0 {
            0
        } else {
            self.spec_columns()[0].rows().len() as int
        }
    }

    /// Every column is a well-formed frozen column.
    pub open spec fn wf(self) -> bool {
        forall|c: int|
            0 <= c < self.spec_columns().len() ==> (#[trigger] self.spec_columns()[c]).wf()
    }

    pub fn new(columns: Vec<BinaryViewArray>) -> (r: Chunk)
        ensures
            r.spec_columns() == columns@,
    {
        Chunk { columns }
    }

    /// The number of rows (of the first column; the writer checks the rest).
    pub fn len(&self) -> (r: usize)
        ensures
            r == self.spec_rows(),
    {
        if self.columns.len() == 0 {
            0
        } else {
            self.columns[0].len()
        }
    }

    pub fn num_columns(&self) -> (r: usize)
        ensures
            r == self.spec_columns().len(),
    {
        self.columns.len()
    }

    pub fn column(&self, c: usize) -> (r: &BinaryViewArray)
        requires
            c < self.spec_columns().len(),
        ensures
            *r == self.spec_columns()[c as int],
    {
        &self.columns[c]
    }
}

/// How many pages a column of `rows` rows yields under a page size: the
/// ceiling of `rows / page_size`, 0 for an empty column.
pub open spec fn page_count(rows: int, page_size: int) -> int
    recommends
        page_size >= 1,
    decreases rows, when page_size >= 1 || rows <= 0
{
    if rows <= 0 {
        0
    } else if rows <= page_size {
        1
    } else {
        1 + page_count(rows - page_size, page_size)
    }
}

/// Law: `page_count` is the ceiling of `rows / page_size`.
pub proof fn lemma_page_count_is_ceiling(rows: int, page_size: int)
    requires
        rows >= 0,
        page_size >= 1,
    ensures
        page_count(rows, page_size) == (rows + page_size - 1) / page_size,
    decreases rows,
{
    if rows == 0 {
        assert((page_size - 1) / page_size == 0) by (nonlinear_arith)
            requires
                page_size >= 1,
        ;
    } else if rows <= page_size {
        assert((rows + page_size - 1) / page_size == 1) by (nonlinear_arith)
            requires
                1 <= rows <= page_size,
        ;
    } else {
        lemma_page_count_is_ceiling(rows - page_size, page_size);
        assert((rows + page_size - 1) / page_size == 1 + (rows - page_size + page_size - 1)
            / page_size) by (nonlinear_arith)
            requires
                page_size >= 1 && rows > page_size,
        ;
    }
}

/// The page size used for a column of `rows` rows: the configured ceiling,
/// but never more than the column itself.
pub open spec fn spec_page_size(max_page_size: Option<usize>, rows: int) -> int {
    match max_page_size {
        Some(m) => if m < rows {
            m as int
        } else {
            rows
        },
        None => rows,
    }
}

/// Sum of the rows covered by a sequence of pages.
pub open spec fn pages_values_sum(pages: Seq<PageMeta>) -> int
    decreases pages.len(),
{
    if pages.len() == 0 {
        0
    } else {
        pages_values_sum(pages.drop_last()) + pages.last().num_values as int
    }
}

/// Sum of the bytes covered by a sequence of pages.
pub open spec fn pages_bytes_sum(pages: Seq<PageMeta>) -> int
    decreases pages.len(),
{
    if pages.len() == 0 {
        0
    } else {
        pages_bytes_sum(pages.drop_last()) + pages.last().length as int
    }
}

proof fn lemma_pages_sums_push(pages: Seq<PageMeta>, p: PageMeta)
    ensures
        pages_values_sum(pages.push(p)) == pages_values_sum(pages) + p.num_values as int,
        pages_bytes_sum(pages.push(p)) == pages_bytes_sum(pages) + p.length as int,
{
    assert(pages.push(p).drop_last() =~= pages);
}

/// What one leaf's pages must look like for a column of `rows` rows under
/// page size `p`: `page_count` pages, every page non-empty in bytes, at most
/// `p` rows each and exactly `p` on all but the last, together covering the
/// column.
pub open spec fn column_pages_ok(pages: Seq<PageMeta>, rows: int, p: int) -> bool {
    &&& pages.len() == page_count(rows, p)
    &&& pages_values_sum(pages) == rows
    &&& forall|j: int|
        0 <= j < pages.len() ==> {
            &&& (#[trigger] pages[j]).length > 0
            &&& 1 <= pages[j].num_values as int <= p
            &&& (j < pages.len() - 1 ==> pages[j].num_values as int == p)
        }
}

/// The bytes one column contributes to the stream: its pages' encodings in
/// row order, each page covering at most `p` rows.
pub open spec fn column_stream<C: PageEncoder>(codec: C, rows: Seq<Option<Seq<u8>>>, p: int) -> Seq<
    u8,
>
    recommends
        p >= 1 || rows.len() == 0,
    decreases rows.len(), when p >= 1 || rows.len() == 0
{
    if rows.len() == 0 {
        Seq::empty()
    } else if rows.len() <= p {
        codec.page_bytes(rows)
    } else {
        codec.page_bytes(rows.take(p)) + column_stream(codec, rows.skip(p), p)
    }
}

/// The bytes a whole chunk contributes: each column's stream, in schema
/// order.
pub open spec fn chunk_stream<C: PageEncoder>(
    codec: C,
    cols: Seq<BinaryViewArray>,
    p: int,
) -> Seq<u8>
    decreases cols.len(),
{
    if cols.len() == 0 {
        Seq::empty()
    } else {
        chunk_stream(codec, cols.drop_last(), p) + column_stream(codec, cols.last().rows(), p)
    }
}

/// The rows of page `j` of a column paged at `p` rows: the `j`-th window of
/// `p` consecutive rows, the last window holding the remainder.
pub open spec fn page_window(rows: Seq<Option<Seq<u8>>>, p: int, j: int) -> Seq<Option<Seq<u8>>> {
    rows.subrange(
        j * p,
        if (j + 1) * p <= rows.len() {
            (j + 1) * p
        } else {
            rows.len() as int
        },
    )
}

/// Each recorded page length equals the byte length of the encoder's output
/// for exactly that page's rows.
pub open spec fn column_pages_exact<C: PageEncoder>(
    codec: C,
    pages: Seq<PageMeta>,
    rows: Seq<Option<Seq<u8>>>,
    p: int,
) -> bool {
    forall|j: int|
        0 <= j < pages.len() ==> (#[trigger] pages[j]).length as int == codec.page_bytes(
            page_window(rows, p, j),
        ).len()
}

proof fn lemma_chunk_stream_push<C: PageEncoder>(
    codec: C,
    cols: Seq<BinaryViewArray>,
    col: BinaryViewArray,
    p: int,
)
    ensures
        chunk_stream(codec, cols.push(col), p) == chunk_stream(codec, cols, p) + column_stream(
            codec,
            col.rows(),
            p,
        ),
{
    assert(cols.push(col).drop_last() =~= cols);
}

/// A prefix of the columns, plus the next column, never contributes more
/// bytes than the whole chunk.
proof fn lemma_chunk_stream_take_le<C: PageEncoder>(
    codec: C,
    cols: Seq<BinaryViewArray>,
    p: int,
    k: int,
)
    requires
        0 <= k < cols.len(),
    ensures
        chunk_stream(codec, cols.take(k), p).len() + column_stream(codec, cols[k].rows(), p).len()
            <= chunk_stream(codec, cols, p).len(),
    decreases cols.len() - k,
{
    lemma_chunk_stream_push(codec, cols.take(k), cols[k], p);
    assert(cols.take(k + 1) =~= cols.take(k).push(cols[k]));
    if k + 1 < cols.len() {
        lemma_chunk_stream_take_le(codec, cols, p, k + 1);
    } else {
        assert(cols.take(k + 1) =~= cols);
    }
}

/// The writer: owns the sink, the schema, the options, the page encoding
/// strategy, the metadata directory built so far, and a scratch buffer.
pub struct NativeWriter<S: Sink, C: PageEncoder> {
    writer: S,
    offset: u64,
    schema: Vec<Field>,
    options: WriteOptions,
    codec: C,
    metas: Vec<ColumnMeta>,
    scratch: Vec<u8>,
}

impl<S: Sink, C: PageEncoder> NativeWriter<S, C> {
    pub closed spec fn spec_offset(self) -> u64 {
        self.offset
    }

    pub closed spec fn spec_metas(self) -> Seq<ColumnMeta> {
        self.metas@
    }

    pub closed spec fn spec_schema(self) -> Seq<Field> {
        self.schema@
    }

    pub closed spec fn spec_options(self) -> WriteOptions {
        self.options
    }

    pub closed spec fn spec_contents(self) -> Seq<u8> {
        self.writer.contents()
    }

    /// Whether the writer's sink promises that every write succeeds.
    pub closed spec fn sink_infallible(self) -> bool {
        self.writer.infallible()
    }

    /// The page encoding strategy the writer was built with.
    pub closed spec fn spec_codec(self) -> C {
        self.codec
    }

    /// The running offset always equals the bytes written to the sink.
    pub closed spec fn wf(self) -> bool {
        self.offset as int == self.writer.contents().len()
    }

    /// A writer over a fresh stream.
    pub fn new(writer: S, codec: C, schema: Vec<Field>, options: WriteOptions) -> (r: NativeWriter<
        S,
        C,
    >)
        requires
            writer.contents() == Seq::<u8>::empty(),
        ensures
            r.wf(),
            r.spec_offset() == 0,
            r.spec_metas() == Seq::<ColumnMeta>::empty(),
            r.spec_schema() == schema@,
            r.spec_options() == options,
            r.spec_codec() == codec,
            r.spec_contents() == Seq::<u8>::empty(),
    {
        NativeWriter {
            writer,
            offset: 0,
            schema,
            options,
            codec,
            metas: Vec::new(),
            scratch: Vec::new(),
        }
    }

    pub fn offset(&self) -> (r: u64)
        ensures
            r == self.spec_offset(),
    {
        self.offset
    }

    /// The metadata directory collected so far.
    pub fn metas(&self) -> (r: &Vec<ColumnMeta>)
        ensures
            r@ == self.spec_metas(),
    {
        &self.metas
    }

    /// The sink, for reading back what was written.
    pub fn writer(&self) -> (r: &S)
        ensures
            r.contents() == self.spec_contents(),
    {
        &self.writer
    }

    /// Encode and write one chunk: checks its shape against the schema, then
    /// splits every column into pages of at most `max_page_size` rows, writes
    /// each through the page encoder, and appends one [`ColumnMeta`] per
    /// column. Rejected shapes write nothing; a failed write leaves the
    /// directory at the last whole page.
    #[verifier::loop_isolation(false)]
    pub fn encode_chunk(&mut self, chunk: &Chunk) -> (r: Result<(), Error>)
        requires
            old(self).wf(),
            chunk.wf(),
            chunk.spec_rows() <= u32::MAX,
            old(self).spec_options().max_page_size matches Some(m) ==> m >= 1,
        ensures
            !(r matches Err(e) && e is WriteFailed) ==> final(self).wf(),
            final(self).spec_schema() == old(self).spec_schema(),
            final(self).spec_options() == old(self).spec_options(),
            final(self).spec_codec() == old(self).spec_codec(),
            old(self).spec_metas().is_prefix_of(final(self).spec_metas()),
            chunk.spec_columns().len() != old(self).spec_schema().len() ==> (r matches Err(e)
                && e matches Error::SchemaMismatch { columns, fields } && columns
                == chunk.spec_columns().len() && fields == old(self).spec_schema().len()),
            (r matches Err(e) && e is SchemaMismatch) ==> chunk.spec_columns().len() != old(
                self,
            ).spec_schema().len(),
            r matches Err(e) ==> (e matches Error::LengthMismatch { column } ==> {
                &&& chunk.spec_columns().len() == old(self).spec_schema().len()
                &&& 0 <= column < chunk.spec_columns().len()
                &&& chunk.spec_columns()[column as int].rows().len() != chunk.spec_rows()
                &&& forall|j: int|
                    0 <= j < column ==> (#[trigger] chunk.spec_columns()[j]).rows().len()
                        == chunk.spec_rows()
            }),
            (chunk.spec_columns().len() == old(self).spec_schema().len() && exists|k: int|
                0 <= k < chunk.spec_columns().len() && (#[trigger] chunk.spec_columns()[
                    k
                ]).rows().len() != chunk.spec_rows()) ==> (r matches Err(e)
                && e is LengthMismatch),
            r matches Err(e) ==> (e is SchemaMismatch || e is LengthMismatch || e is WriteFailed),
            (chunk.spec_columns().len() == old(self).spec_schema().len() && (forall|c: int|
                0 <= c < chunk.spec_columns().len() ==> (#[trigger] chunk.spec_columns()[
                    c
                ]).rows().len() == chunk.spec_rows()) && chunk.spec_rows() == 0) ==> r is Ok,
            (chunk.spec_columns().len() == old(self).spec_schema().len() && (forall|c: int|
                0 <= c < chunk.spec_columns().len() ==> (#[trigger] chunk.spec_columns()[
                    c
                ]).rows().len() == chunk.spec_rows()) && old(self).sink_infallible() && old(
                self,
            ).spec_offset() + chunk_stream(
                old(self).spec_codec(),
                chunk.spec_columns(),
                spec_page_size(old(self).spec_options().max_page_size, chunk.spec_rows()),
            ).len() <= u64::MAX) ==> r is Ok,
            (r matches Err(e) && !(e is WriteFailed)) ==> {
                &&& final(self).spec_metas() == old(self).spec_metas()
                &&& final(self).spec_offset() == old(self).spec_offset()
                &&& final(self).spec_contents() == old(self).spec_contents()
            },
            r is Ok ==> {
                &&& final(self).spec_contents() == old(self).spec_contents() + chunk_stream(
                    old(self).spec_codec(),
                    chunk.spec_columns(),
                    spec_page_size(old(self).spec_options().max_page_size, chunk.spec_rows()),
                )
                &&& chunk.spec_columns().len() == old(self).spec_schema().len()
                &&& forall|c: int|
                    0 <= c < chunk.spec_columns().len()
                        ==> (#[trigger] chunk.spec_columns()[c]).rows().len() == chunk.spec_rows()
                &&& final(self).spec_metas().len() == old(self).spec_metas().len()
                    + chunk.spec_columns().len()
                &&& forall|c: int|
                    0 <= c < chunk.spec_columns().len() ==> column_pages_ok(
                        (#[trigger] final(self).spec_metas()[old(self).spec_metas().len() + c]).pages@,
                        chunk.spec_rows(),
                        spec_page_size(old(self).spec_options().max_page_size, chunk.spec_rows()),
                    )
                &&& forall|c: int|
                    0 <= c < chunk.spec_columns().len() ==> column_pages_exact(
                        old(self).spec_codec(),
                        (#[trigger] final(self).spec_metas()[old(self).spec_metas().len() + c]).pages@,
                        chunk.spec_columns()[c].rows(),
                        spec_page_size(old(self).spec_options().max_page_size, chunk.spec_rows()),
                    )
                &&& forall|c: int|
                    0 <= c < chunk.spec_columns().len() ==> (#[trigger] final(self).spec_metas()[old(
                        self,
                    ).spec_metas().len() + c]).offset as int == old(self).spec_offset() + (
                    pages_bytes_sum_of_metas(
                        final(self).spec_metas().subrange(
                            old(self).spec_metas().len() as int,
                            old(self).spec_metas().len() + c,
                        ),
                    ))
                &&& final(self).spec_offset() as int == old(self).spec_offset()
                    + pages_bytes_sum_of_metas(
                    final(self).spec_metas().subrange(
                        old(self).spec_metas().len() as int,
                        final(self).spec_metas().len() as int,
                    ),
                )
            },
    {
        let ncols = chunk.num_columns();
        let nfields = self.schema.len();
        if ncols != nfields {
            return Err(Error::SchemaMismatch { columns: ncols, fields: nfields });
        }
        let rows = chunk.len();
        let mut c: usize = 0;
        while c < ncols
            invariant
                c <= ncols,
                forall|k: int|
                    0 <= k < c ==> (#[trigger] chunk.spec_columns()[k]).rows().len()
                        == chunk.spec_rows(),
            decreases ncols - c,
        {
            if chunk.column(c).len() != rows {
                return Err(Error::LengthMismatch { column: c });
            }
            c = c + 1;
        }
        let page_size = match self.options.max_page_size {
            Some(m) => if m < rows {
                m
            } else {
                rows
            },
            None => rows,
        };
        let ghost p = page_size as int;
        proof {
            assert(p == spec_page_size(old(self).spec_options().max_page_size, chunk.spec_rows()));
        }
        let ghost base = old(self).spec_metas().len() as int;
        let mut c: usize = 0;
        while c < ncols
            invariant
                c <= ncols,
                self.wf(),
                self.schema == old(self).schema,
                self.options == old(self).options,
                self.codec == old(self).codec,
                self.metas@.len() == base + c,
                self.metas@.subrange(0, base) == old(self).spec_metas(),
                forall|k: int|
                    0 <= k < c ==> column_pages_ok(
                        (#[trigger] self.metas@[base + k]).pages@,
                        rows as int,
                        p,
                    ),
                forall|k: int|
                    0 <= k < c ==> (#[trigger] self.metas@[base + k]).offset as int == old(
                        self,
                    ).spec_offset() + pages_bytes_sum_of_metas(
                        self.metas@.subrange(base, base + k),
                    ),
                self.offset as int == old(self).spec_offset() + pages_bytes_sum_of_metas(
                    self.metas@.subrange(base, base + c),
                ),
                self.writer.contents() == old(self).spec_contents() + chunk_stream(
                    old(self).codec,
                    chunk.spec_columns().subrange(0, c as int),
                    p,
                ),
                old(self).sink_infallible() ==> self.writer.infallible(),
                forall|k: int|
                    0 <= k < c ==> column_pages_exact(
                        old(self).codec,
                        (#[trigger] self.metas@[base + k]).pages@,
                        chunk.spec_columns()[k].rows(),
                        p,
                    ),
            decreases ncols - c,
        {
            let start = self.offset;
            let ghost col_start_contents = self.writer.contents();
            let ghost crows = chunk.spec_columns()[c as int].rows();
            proof {
                assert(crows.skip(0) =~= crows);
            }
            let mut page_metas: Vec<PageMeta> = Vec::new();
            let mut off: usize = 0;
            while off < rows
                invariant
                    off <= rows,
                    rows <= u32::MAX,
                    c < ncols,
                    page_size as int == p,
                    rows > 0 ==> p >= 1,
                    self.wf(),
                    self.schema == old(self).schema,
                    self.options == old(self).options,
                    self.codec == old(self).codec,
                    self.metas@.len() == base + c,
                    self.metas@.subrange(0, base) == old(self).spec_metas(),
                    forall|k: int|
                        0 <= k < c ==> column_pages_ok(
                            (#[trigger] self.metas@[base + k]).pages@,
                            rows as int,
                            p,
                        ),
                    forall|k: int|
                        0 <= k < c ==> (#[trigger] self.metas@[base + k]).offset as int == old(
                            self,
                        ).spec_offset() + pages_bytes_sum_of_metas(
                            self.metas@.subrange(base, base + k),
                        ),
                    start as int == old(self).spec_offset() + pages_bytes_sum_of_metas(
                        self.metas@.subrange(base, base + c),
                    ),
                    page_metas@.len() + page_count(rows - off, p) == page_count(rows as int, p),
                    pages_values_sum(page_metas@) == off as int,
                    off < rows ==> off as int == page_metas@.len() * p,
                    forall|j: int|
                        0 <= j < page_metas@.len() ==> {
                            &&& (#[trigger] page_metas@[j]).length > 0
                            &&& 1 <= page_metas@[j].num_values as int <= p
                            &&& (j < page_metas@.len() - 1 || off < rows ==> page_metas@[
                                j
                            ].num_values as int == p)
                        },
                    self.offset as int == start + pages_bytes_sum(page_metas@),
                    crows == chunk.spec_columns()[c as int].rows(),
                    crows.len() == rows as int,
                    col_start_contents + column_stream(old(self).codec, crows, p)
                        == self.writer.contents() + column_stream(
                        old(self).codec,
                        crows.skip(off as int),
                        p,
                    ),
                    old(self).sink_infallible() ==> self.writer.infallible(),
                    forall|k: int|
                        0 <= k < c ==> column_pages_exact(
                            old(self).codec,
                            (#[trigger] self.metas@[base + k]).pages@,
                            chunk.spec_columns()[k].rows(),
                            p,
                        ),
                    forall|j: int|
                        0 <= j < page_metas@.len() ==> (#[trigger] page_metas@[j]).length as int
                            == old(self).codec.page_bytes(page_window(crows, p, j)).len(),
                decreases rows - off,
            {
                let remaining = rows - off;
                let len = if page_size < remaining {
                    page_size
                } else {
                    remaining
                };
                self.codec.encode_page(
                    chunk.column(c),
                    off,
                    len,
                    &self.options,
                    &mut self.scratch,
                );
                let written_usize = self.scratch.len();
                if self.offset > u64::MAX - written_usize as u64 {
                    proof {
                        // under the stated success conditions the stream-length
                        // bound rules this branch out
                        if chunk.spec_columns().len() == old(self).spec_schema().len() && (forall|
                            k: int,
                        |
                            0 <= k < chunk.spec_columns().len()
                                ==> (#[trigger] chunk.spec_columns()[k]).rows().len()
                                == chunk.spec_rows()) && old(self).sink_infallible() && old(
                            self,
                        ).spec_offset() + chunk_stream(
                            old(self).spec_codec(),
                            chunk.spec_columns(),
                            p,
                        ).len() <= u64::MAX {
                            let codec = old(self).codec;
                            let rem = crows.skip(off as int);
                            if crows.len() - off <= p {
                                assert(rem =~= crows.subrange(
                                    off as int,
                                    off as int + len as int,
                                ));
                                assert(column_stream(codec, rem, p) == codec.page_bytes(rem));
                            } else {
                                assert(rem.take(p as int) =~= crows.subrange(
                                    off as int,
                                    off as int + len as int,
                                ));
                                assert(column_stream(codec, rem, p) == codec.page_bytes(
                                    rem.take(p as int),
                                ) + column_stream(codec, rem.skip(p as int), p));
                            }
                            assert(self.scratch@.len() <= column_stream(codec, rem, p).len());
                            assert(self.writer.contents().len() + column_stream(
                                codec,
                                rem,
                                p,
                            ).len() == col_start_contents.len() + column_stream(
                                codec,
                                crows,
                                p,
                            ).len());
                            lemma_chunk_stream_take_le(codec, chunk.spec_columns(), p, c as int);
                            assert(false);
                        }
                    }
                    return Err(Error::WriteFailed);
                }
                match self.writer.write_all(self.scratch.as_slice()) {
                    Ok(()) => {},
                    Err(_) => {
                        return Err(Error::WriteFailed);
                    },
                }
                self.offset = self.offset + written_usize as u64;
                let meta = PageMeta { length: written_usize as u64, num_values: len as u64 };
                proof {
                    lemma_pages_sums_push(page_metas@, meta);
                }
                page_metas.push(meta);
                proof {
                    if off + len < rows {
                        assert(len == page_size);
                        assert((page_metas@.len()) * p == (page_metas@.len() - 1) * p + p)
                            by (nonlinear_arith);
                        assert(rows - off > p);
                        assert(page_count(rows - off, p) == 1 + page_count(rows - off - p, p));
                    } else {
                        assert(off + len == rows);
                        assert(rows - off <= p);
                        assert(page_count(rows - off, p) == 1);
                        assert(page_count(rows - (off + len), p) == 0);
                    }
                    let jj = page_metas@.len() - 1;
                    assert(off as int == jj * p);
                    assert((jj + 1) * p == jj * p + p) by (nonlinear_arith);
                    assert(page_window(crows, p, jj) =~= crows.subrange(
                        off as int,
                        off as int + len as int,
                    ));
                    assert(page_metas@[jj].length as int == old(self).codec.page_bytes(
                        page_window(crows, p, jj),
                    ).len());
                    let codec = old(self).codec;
                    let rem = crows.skip(off as int);
                    if crows.len() - off <= p {
                        assert(rem =~= crows.subrange(off as int, off as int + len as int));
                        assert(crows.skip(off as int + len as int)
                            =~= Seq::<Option<Seq<u8>>>::empty());
                        assert(column_stream(codec, rem, p) == codec.page_bytes(rem));
                    } else {
                        assert(rem.take(p as int) =~= crows.subrange(
                            off as int,
                            off as int + len as int,
                        ));
                        assert(rem.skip(p as int) =~= crows.skip(off as int + len as int));
                        assert(column_stream(codec, rem, p) == codec.page_bytes(rem.take(p as int))
                            + column_stream(codec, rem.skip(p as int), p));
                    }
                    assert(col_start_contents + column_stream(codec, crows, p)
                        =~= self.writer.contents() + column_stream(
                        codec,
                        crows.skip(off as int + len as int),
                        p,
                    ));
                }
                off = off + len;
            }
            proof {
                let codec = old(self).codec;
                assert(crows.skip(off as int) =~= Seq::<Option<Seq<u8>>>::empty());
                assert(self.writer.contents() =~= col_start_contents + column_stream(
                    codec,
                    crows,
                    p,
                ));
                lemma_chunk_stream_push(
                    codec,
                    chunk.spec_columns().subrange(0, c as int),
                    chunk.spec_columns()[c as int],
                    p,
                );
                assert(chunk.spec_columns().subrange(0, c as int + 1) =~= chunk.spec_columns(
                ).subrange(0, c as int).push(chunk.spec_columns()[c as int]));
                assert(self.writer.contents() =~= old(self).spec_contents() + chunk_stream(
                    codec,
                    chunk.spec_columns().subrange(0, c as int + 1),
                    p,
                ));
            }
            let ghost metas_before = self.metas@;
            let meta = ColumnMeta { offset: start, pages: page_metas };
            self.metas.push(meta);
            proof {
                assert(self.metas@ == metas_before.push(meta));
                assert(self.metas@.subrange(0, base) =~= metas_before.subrange(0, base));
                assert(self.metas@.subrange(base, base + c) =~= metas_before.subrange(
                    base,
                    base + c,
                ));
                assert(self.metas@.subrange(base, base + c + 1) =~= metas_before.subrange(
                    base,
                    base + c,
                ).push(meta));
                lemma_metas_bytes_push(metas_before.subrange(base, base + c), meta);
                assert(column_pages_ok(meta.pages@, rows as int, p));
                assert forall|k: int| 0 <= k < c + 1 implies column_pages_ok(
                    (#[trigger] self.metas@[base + k]).pages@,
                    rows as int,
                    p,
                ) && column_pages_exact(
                    old(self).codec,
                    (#[trigger] self.metas@[base + k]).pages@,
                    chunk.spec_columns()[k].rows(),
                    p,
                ) by {
                    if k < c {
                        assert(self.metas@[base + k] == metas_before[base + k]);
                    } else {
                        assert(self.metas@[base + k] == meta);
                        assert(meta.pages@ == page_metas@);
                    }
                }
                assert forall|k: int| 0 <= k < c + 1 implies (#[trigger] self.metas@[base
                    + k]).offset as int == old(self).spec_offset() + pages_bytes_sum_of_metas(
                    self.metas@.subrange(base, base + k),
                ) by {
                    assert(self.metas@.subrange(base, base + k) =~= metas_before.subrange(
                        base,
                        base + k,
                    ));
                    if k < c {
                        assert(self.metas@[base + k] == metas_before[base + k]);
                    } else {
                        assert(self.metas@[base + k] == meta);
                    }
                }
            }
            c = c + 1;
        }
        proof {
            assert(self.metas@.subrange(base, base + ncols as int) =~= self.metas@.subrange(
                base,
                self.metas@.len() as int,
            ));
            assert(chunk.spec_columns().subrange(0, ncols as int) =~= chunk.spec_columns());
        }
        Ok(())
    }
}

/// Sum of the page byte lengths of a sequence of column metas.
pub open spec fn pages_bytes_sum_of_metas(metas: Seq<ColumnMeta>) -> int
    decreases metas.len(),
{
    if metas.len() == 0 {
        0
    } else {
        pages_bytes_sum_of_metas(metas.drop_last()) + pages_bytes_sum(metas.last().pages@)
    }
}

proof fn lemma_metas_bytes_push(metas: Seq<ColumnMeta>, m: ColumnMeta)
    ensures
        pages_bytes_sum_of_metas(metas.push(m)) == pages_bytes_sum_of_metas(metas)
            + pages_bytes_sum(m.pages@),
{
    assert(metas.push(m).drop_last() =~= metas);
}

/// The fixed end-of-stream marker.
pub open spec fn eof_marker_bytes() -> Seq<u8> {
    seq![255u8, 255u8, 255u8, 255u8]
}

/// The 8-byte footer: the end marker, then the metadata section's total
/// length, little-endian.
pub open spec fn eof_footer(total_len: i32) -> Seq<u8> {
    eof_marker_bytes() + spec_u32_to_le_bytes(total_len as u32)
}

/// The footer is exactly 8 bytes, opens with the marker, and its last 4
/// bytes decode (little-endian) back to the length that was written.
pub proof fn lemma_eof_footer(total_len: i32)
    ensures
        eof_footer(total_len).len() == 8,
        eof_footer(total_len).subrange(0, 4) == eof_marker_bytes(),
        spec_u32_from_le_bytes(eof_footer(total_len).subrange(4, 8)) == total_len as u32,
{
    vstd::bytes::lemma_auto_spec_u32_to_from_le_bytes();
    assert(eof_footer(total_len).subrange(0, 4) =~= eof_marker_bytes());
    assert(eof_footer(total_len).subrange(4, 8) =~= spec_u32_to_le_bytes(total_len as u32));
}

/// The end-of-stream marker as bytes.
pub fn eof_marker() -> (r: [u8; 4])
    ensures
        r@ == eof_marker_bytes(),
{
    let r: [u8; 4] = [255u8, 255u8, 255u8, 255u8];
    proof {
        assert(r@ =~= eof_marker_bytes());
    }
    r
}

/// Close the stream: write the end marker followed by the 4-byte
/// little-endian length of the metadata section — always exactly 8 bytes,
/// from which a reader can seek back to the metadata directory.
pub fn write_eof<S: Sink>(writer: &mut S, total_len: i32) -> (r: Result<usize, Error>)
    ensures
        r matches Ok(n) ==> n == 8 && final(writer).contents() == old(writer).contents()
            + eof_footer(total_len),
        r is Err ==> r matches Err(Error::WriteFailed),
        old(writer).infallible() ==> r is Ok,
{
    let marker = eof_marker();
    match writer.write_all(marker.as_slice()) {
        Ok(()) => {},
        Err(_) => {
            return Err(Error::WriteFailed);
        },
    }
    let len_bytes = u32_to_le_bytes(total_len as u32);
    match writer.write_all(len_bytes.as_slice()) {
        Ok(()) => {},
        Err(_) => {
            return Err(Error::WriteFailed);
        },
    }
    proof {
        assert(writer.contents() =~= old(writer).contents() + eof_footer(total_len));
    }
    Ok(8)
}

} // verus!

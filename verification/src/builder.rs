//! The single-writer column builder: a sequence of views, a buffer arena
//! (frozen buffers plus one growable in-progress buffer), an optional
//! validity bitmap, and running size counters.

use vstd::prelude::*;

use crate::bitmap::MutableBitmap;
use crate::error::Error;
use crate::view::pad_bytes;
use crate::view::view_bytes_in;
use crate::view::view_ok_in;
use crate::view::lemma_view_stable;
use crate::view::lemma_zero_view_ok;
use crate::view::ByteView;
use crate::view::MAX_INLINE_LENGTH;

verus! {

/// Smallest capacity given to a fresh in-progress buffer.
pub const DEFAULT_BLOCK_SIZE: usize = 8 * 1024;

/// Largest capacity the doubling policy will ask for on its own (a single
/// oversized value may still force a larger buffer).
pub const MAX_BLOCK_SIZE: usize = 16 * 1024 * 1024;

/// Logical byte length of a row: the element's length, 0 for null.
pub open spec fn row_len(row: Option<Seq<u8>>) -> int {
    match row {
        Some(b) => b.len() as int,
        None => 0,
    }
}

/// Sum of the logical byte lengths of a sequence of rows.
pub open spec fn rows_total_len(rows: Seq<Option<Seq<u8>>>) -> int
    decreases rows.len(),
{
    if rows.len() == 0 {
        0
    } else {
        rows_total_len(rows.drop_last()) + row_len(rows.last())
    }
}

/// Sum of the byte lengths of a sequence of buffers.
pub open spec fn buffers_total_len(bufs: Seq<Vec<u8>>) -> int
    decreases bufs.len(),
{
    if bufs.len() == 0 {
        0
    } else {
        buffers_total_len(bufs.drop_last()) + bufs.last()@.len()
    }
}

/// Sum of the lengths recorded in a sequence of views.
pub open spec fn views_total_len(views: Seq<ByteView>) -> int
    decreases views.len(),
{
    if views.len() == 0 {
        0
    } else {
        views_total_len(views.drop_last()) + views.last().length as int
    }
}

proof fn lemma_buffers_total_len_push(bufs: Seq<Vec<u8>>, b: Vec<u8>)
    ensures
        buffers_total_len(bufs.push(b)) == buffers_total_len(bufs) + b@.len(),
{
    assert(bufs.push(b).drop_last() =~= bufs);
}

proof fn lemma_views_total_len_push(views: Seq<ByteView>, v: ByteView)
    ensures
        views_total_len(views.push(v)) == views_total_len(views) + v.length as int,
{
    assert(views.push(v).drop_last() =~= views);
}

/// The bytes of a row: the element's bytes, empty for null.
pub open spec fn row_bytes(row: Option<Seq<u8>>) -> Seq<u8> {
    match row {
        Some(b) => b,
        None => Seq::empty(),
    }
}

/// Sum of the out-of-line byte lengths of a sequence of rows: the arena
/// bytes the rows cost when each is pushed once.
pub open spec fn rows_buffer_len(rows: Seq<Option<Seq<u8>>>) -> int
    decreases rows.len(),
{
    if rows.len() == 0 {
        0
    } else {
        rows_buffer_len(rows.drop_last()) + (if row_len(rows.last()) > 12 {
            row_len(rows.last())
        } else {
            0
        })
    }
}

/// The rows a slice of plain values stands for.
pub open spec fn values_as_rows(s: Seq<Vec<u8>>) -> Seq<Option<Seq<u8>>> {
    Seq::new(s.len(), |i: int| Some(s[i]@))
}

/// The rows a slice of optional values stands for.
pub open spec fn options_as_rows(s: Seq<Option<Vec<u8>>>) -> Seq<Option<Seq<u8>>> {
    Seq::new(
        s.len(),
        |i: int|
            match s[i] {
                Some(v) => Some(v@),
                None => None,
            },
    )
}

/// One step of the running sums over a prefix of the rows.
proof fn lemma_rows_take_step(rows: Seq<Option<Seq<u8>>>, k: int)
    requires
        0 <= k < rows.len(),
    ensures
        rows_total_len(rows.take(k + 1)) == rows_total_len(rows.take(k)) + row_len(rows[k]),
        rows_buffer_len(rows.take(k + 1)) == rows_buffer_len(rows.take(k)) + (if row_len(rows[k])
            > 12 {
            row_len(rows[k])
        } else {
            0
        }),
{
    assert(rows.take(k + 1).drop_last() =~= rows.take(k));
    assert(rows.take(k + 1).last() == rows[k]);
}

/// Both running sums are monotone in the prefix and bounded by the total.
proof fn lemma_rows_take_le(rows: Seq<Option<Seq<u8>>>, k: int)
    requires
        0 <= k <= rows.len(),
    ensures
        rows_total_len(rows.take(k)) <= rows_total_len(rows),
        rows_buffer_len(rows.take(k)) <= rows_buffer_len(rows),
        rows_buffer_len(rows.take(k)) >= 0,
        rows_total_len(rows.take(k)) >= 0,
    decreases rows.len() - k,
{
    lemma_rows_nonneg(rows.take(k));
    if k < rows.len() {
        lemma_rows_take_step(rows, k);
        lemma_rows_take_le(rows, k + 1);
    } else {
        assert(rows.take(k) =~= rows);
    }
}

/// Both sums are nonnegative.
proof fn lemma_rows_nonneg(rows: Seq<Option<Seq<u8>>>)
    ensures
        rows_total_len(rows) >= 0,
        rows_buffer_len(rows) >= 0,
    decreases rows.len(),
{
    if rows.len() > 0 {
        lemma_rows_nonneg(rows.drop_last());
    }
}

/// The sum of view lengths is nonnegative.
proof fn lemma_views_total_len_nonneg(views: Seq<ByteView>)
    ensures
        views_total_len(views) >= 0,
    decreases views.len(),
{
    if views.len() > 0 {
        lemma_views_total_len_nonneg(views.drop_last());
    }
}

/// Every buffer of length at least 13 makes the total at least 13 per buffer.
proof fn lemma_buffers_total_len_lower(bufs: Seq<Vec<u8>>)
    requires
        forall|i: int| 0 <= i < bufs.len() ==> (#[trigger] bufs[i])@.len() >= 13,
    ensures
        buffers_total_len(bufs) >= 13 * bufs.len(),
    decreases bufs.len(),
{
    if bufs.len() > 0 {
        lemma_buffers_total_len_lower(bufs.drop_last());
    }
}

/// A mutable column of variable-length binary values in the view layout.
///
/// Values of at most 12 bytes live inline in their view; longer values are
/// appended to the in-progress buffer of the arena and referenced by
/// `(buffer_idx, offset)`. `total_bytes_len` is the sum of the logical
/// lengths of all rows (0 for null); `total_buffer_len` is the number of
/// bytes held by the arena (out-of-line values only, each stored once).
///
/// A view stores its buffer index in 4 bytes, and every frozen buffer holds
/// at least 13 bytes (no value shorter goes out of line). The push
/// operations therefore ask, as a machine limit, that the arena stay under
/// `13 * u32::MAX` bytes: within it the index always fits.
pub struct MutableBinaryViewArray {
    views: Vec<ByteView>,
    completed_buffers: Vec<Vec<u8>>,
    in_progress_buffer: Vec<u8>,
    in_progress_capacity: usize,
    validity: Option<MutableBitmap>,
    total_bytes_len: u64,
    total_buffer_len: u64,
}

impl MutableBinaryViewArray {
    /// Sum of the logical byte lengths of all rows (0 for a null).
    pub closed spec fn total_bytes(self) -> u64 {
        self.total_bytes_len
    }

    /// Bytes held by the arena: out-of-line values only, each stored once.
    pub closed spec fn total_buffer(self) -> u64 {
        self.total_buffer_len
    }

    pub fn total_bytes_len(&self) -> (r: u64)
        ensures
            r == self.total_bytes(),
    {
        self.total_bytes_len
    }

    pub fn total_buffer_len(&self) -> (r: u64)
        ensures
            r == self.total_buffer(),
    {
        self.total_buffer_len
    }

    /// The arena's addressing space: the frozen buffers in order, then the
    /// in-progress buffer under the next index.
    pub closed spec fn bufs(self) -> Seq<Seq<u8>> {
        self.completed_buffers@.map_values(|b: Vec<u8>| b@).push(self.in_progress_buffer@)
    }

    /// Whether a validity bitmap has been materialized.
    pub closed spec fn has_validity(self) -> bool {
        self.validity is Some
    }

    closed spec fn row_is_null(self, i: int) -> bool {
        match self.validity {
            Some(bm) => 0 <= i < bm@.len() && !bm@[i],
            None => false,
        }
    }

    /// The bitmap, when present, has no bit for a row that does not exist
    /// yet. Every public operation keeps this; it is all
    /// [`Self::push_value_ignore_validity`] needs of the bitmap.
    pub closed spec fn validity_not_ahead(self) -> bool {
        match self.validity {
            Some(bm) => bm@.len() <= self.views@.len(),
            None => true,
        }
    }

    /// The logical rows: `None` for null, `Some(bytes)` otherwise.
    pub closed spec fn rows(self) -> Seq<Option<Seq<u8>>> {
        Seq::new(
            self.views@.len(),
            |i: int|
                if self.row_is_null(i) {
                    None
                } else {
                    Some(view_bytes_in(self.views@[i], self.bufs()))
                },
        )
    }

    /// The arena and counter invariants.
    pub closed spec fn arena_wf(self) -> bool {
        &&& forall|i: int|
            0 <= i < self.views@.len() ==> view_ok_in(#[trigger] self.views@[i], self.bufs())
        &&& self.total_buffer_len as int == buffers_total_len(self.completed_buffers@)
            + self.in_progress_buffer@.len()
        &&& forall|i: int|
            0 <= i < self.completed_buffers@.len() ==> (#[trigger] self.completed_buffers@[i])@.len()
                >= 13
        &&& self.in_progress_buffer@.len() == 0 || self.in_progress_buffer@.len() >= 13
        &&& self.in_progress_buffer@.len() <= self.in_progress_capacity
        &&& self.total_bytes_len as int == views_total_len(self.views@)
    }

    /// The builder's full invariant: a well-formed arena, a bitmap (when
    /// present) with one bit per row, and a zero view under every null row.
    pub closed spec fn wf(self) -> bool {
        &&& self.arena_wf()
        &&& match self.validity {
            Some(bm) => bm@.len() == self.views@.len(),
            None => true,
        }
        &&& forall|i: int|
            0 <= i < self.views@.len() && self.row_is_null(i) ==> (#[trigger] self.views@[i]).length
                == 0
    }

    pub fn new() -> (r: MutableBinaryViewArray)
        ensures
            r.wf(),
            r.rows() == Seq::<Option<Seq<u8>>>::empty(),
            !r.has_validity(),
            r.total_bytes() == 0,
            r.total_buffer() == 0,
    {
        Self::with_capacity(0)
    }

    pub fn with_capacity(capacity: usize) -> (r: MutableBinaryViewArray)
        ensures
            r.wf(),
            r.rows() == Seq::<Option<Seq<u8>>>::empty(),
            !r.has_validity(),
            r.total_bytes() == 0,
            r.total_buffer() == 0,
    {
        let r = MutableBinaryViewArray {
            views: Vec::with_capacity(capacity),
            completed_buffers: Vec::new(),
            in_progress_buffer: Vec::new(),
            in_progress_capacity: 0,
            validity: None,
            total_bytes_len: 0,
            total_buffer_len: 0,
        };
        proof {
            assert(r.rows() =~= Seq::<Option<Seq<u8>>>::empty());
        }
        r
    }

    /// Reserve room for `additional` more views; the contents do not change.
    pub fn reserve(&mut self, additional: usize)
        ensures
            final(self).wf() == old(self).wf(),
            final(self).rows() == old(self).rows(),
            final(self).has_validity() == old(self).has_validity(),
            final(self).total_bytes() == old(self).total_bytes(),
            final(self).total_buffer() == old(self).total_buffer(),
    {
        self.views.reserve(additional);
        proof {
            assert(self.rows() =~= old(self).rows());
        }
    }

    /// Encode one value into the arena (inline values touch nothing) and
    /// return its view, without pushing the view. Every view that was well
    /// formed before stays well formed and denotes the same bytes.
    fn encode_value(&mut self, value: &[u8]) -> (v: ByteView)
        requires
            old(self).arena_wf(),
            value@.len() <= u32::MAX,
            value@.len() > 12 ==> old(self).total_buffer() + value@.len() <= 13 * (
            u32::MAX as int),
        ensures
            final(self).arena_wf(),
            final(self).views@ == old(self).views@,
            final(self).validity == old(self).validity,
            final(self).total_bytes() == old(self).total_bytes(),
            final(self).total_buffer() as int == old(self).total_buffer() + (
            if value@.len() > 12 {
                value@.len() as int
            } else {
                0
            }),
            view_ok_in(v, final(self).bufs()),
            view_bytes_in(v, final(self).bufs()) == value@,
            v.length as int == value@.len(),
            forall|w: ByteView|
                view_ok_in(w, old(self).bufs()) ==> #[trigger] view_ok_in(w, final(self).bufs())
                    && view_bytes_in(w, final(self).bufs()) == view_bytes_in(w, old(self).bufs()),
    {
        let length_usize = value.len();
        let length = length_usize as u32;
        if length <= MAX_INLINE_LENGTH {
            let inline = pack_inline(value);
            let v = ByteView { length, prefix: [0u8; 4], buffer_idx: 0, offset: 0, inline };
            proof {
                assert(view_bytes_in(v, self.bufs()) =~= value@);
            }
            v
        } else {
            proof {
                lemma_buffers_total_len_lower(self.completed_buffers@);
            }
            self.total_buffer_len = self.total_buffer_len + length_usize as u64;
            let required: u64 = self.in_progress_buffer.len() as u64 + length_usize as u64;
            let does_not_fit_in_buffer = (self.in_progress_capacity as u64) < required;
            let offset_will_not_fit = self.in_progress_buffer.len() as u64 > u32::MAX as u64;
            let ghost bufs0 = self.bufs();
            if does_not_fit_in_buffer || offset_will_not_fit {
                let doubled = if self.in_progress_capacity >= MAX_BLOCK_SIZE {
                    MAX_BLOCK_SIZE
                } else {
                    self.in_progress_capacity * 2
                };
                let clamped = if doubled < DEFAULT_BLOCK_SIZE {
                    DEFAULT_BLOCK_SIZE
                } else if doubled > MAX_BLOCK_SIZE {
                    MAX_BLOCK_SIZE
                } else {
                    doubled
                };
                let new_capacity = if clamped < length_usize {
                    length_usize
                } else {
                    clamped
                };
                let mut flushed: Vec<u8> = Vec::new();
                core::mem::swap(&mut flushed, &mut self.in_progress_buffer);
                self.in_progress_capacity = new_capacity;
                if flushed.len() > 0 {
                    proof {
                        lemma_buffers_total_len_push(self.completed_buffers@, flushed);
                    }
                    self.completed_buffers.push(flushed);
                }
            }
            let ghost bufs1 = self.bufs();
            proof {
                assert forall|i: int| 0 <= i < bufs0.len() implies (#[trigger] bufs0[i]).is_prefix_of(
                    bufs1[i],
                ) by {
                    assert(bufs0[i] =~= bufs1[i].subrange(0, bufs0[i].len() as int));
                }
            }
            let offset_usize = self.in_progress_buffer.len();
            let offset = offset_usize as u32;
            extend_from_slice(&mut self.in_progress_buffer, value);
            let prefix = [value[0], value[1], value[2], value[3]];
            proof {
                // the frozen buffer count still fits a u32 index
                lemma_buffers_total_len_lower(self.completed_buffers@);
            }
            let buffer_idx = self.completed_buffers.len() as u32;
            let v = ByteView { length, prefix, buffer_idx, offset, inline: [0u8; 12] };
            proof {
                let bufs2 = self.bufs();
                assert forall|i: int| 0 <= i < bufs1.len() implies (#[trigger] bufs1[i]).is_prefix_of(
                    bufs2[i],
                ) by {
                    assert(bufs1[i] =~= bufs2[i].subrange(0, bufs1[i].len() as int));
                }
                assert forall|w: ByteView| view_ok_in(w, bufs0) implies #[trigger] view_ok_in(
                    w,
                    bufs2,
                ) && view_bytes_in(w, bufs2) == view_bytes_in(w, bufs0) by {
                    lemma_view_stable(w, bufs0, bufs1);
                    lemma_view_stable(w, bufs1, bufs2);
                }
                assert forall|i: int| 0 <= i < self.views@.len() implies view_ok_in(
                    #[trigger] self.views@[i],
                    bufs2,
                ) by {
                    assert(view_ok_in(self.views@[i], bufs0));
                }
                assert(bufs2[buffer_idx as int] == self.in_progress_buffer@);
                assert(view_bytes_in(v, bufs2) =~= value@);
                assert(v.prefix@ =~= bufs2[buffer_idx as int].subrange(
                    offset as int,
                    offset as int + 4,
                ));
            }
            v
        }
    }

    /// Push a value without touching the validity bitmap. When a bitmap is
    /// present the caller owes it a matching bit before the builder is well
    /// formed again.
    pub fn push_value_ignore_validity(&mut self, value: &[u8])
        requires
            old(self).arena_wf(),
            old(self).validity_not_ahead(),
            value@.len() <= u32::MAX,
            old(self).total_bytes() + value@.len() <= u64::MAX,
            value@.len() > 12 ==> old(self).total_buffer() + value@.len() <= 13 * (
            u32::MAX as int),
        ensures
            final(self).arena_wf(),
            final(self).validity_not_ahead(),
            final(self).rows() == old(self).rows().push(Some(value@)),
            old(self).wf() && !old(self).has_validity() ==> final(self).wf(),
            final(self).has_validity() == old(self).has_validity(),
            final(self).total_bytes() == old(self).total_bytes() + value@.len(),
            final(self).total_buffer() as int == old(self).total_buffer() + (
            if value@.len() > 12 {
                value@.len() as int
            } else {
                0
            }),
    {
        let v = self.encode_value(value);
        proof {
            lemma_views_total_len_push(self.views@, v);
        }
        self.views.push(v);
        self.total_bytes_len = self.total_bytes_len + value.len() as u64;
        proof {
            assert(self.rows() =~= old(self).rows().push(Some(value@)));
        }
    }

    /// Push a non-null value.
    pub fn push_value(&mut self, value: &[u8])
        requires
            old(self).wf(),
            value@.len() <= u32::MAX,
            old(self).total_bytes() + value@.len() <= u64::MAX,
            value@.len() > 12 ==> old(self).total_buffer() + value@.len() <= 13 * (
            u32::MAX as int),
        ensures
            final(self).wf(),
            final(self).rows() == old(self).rows().push(Some(value@)),
            final(self).has_validity() == old(self).has_validity(),
            final(self).total_bytes() == old(self).total_bytes() + value@.len(),
            final(self).total_buffer() as int == old(self).total_buffer() + (
            if value@.len() > 12 {
                value@.len() as int
            } else {
                0
            }),
    {
        let v = self.encode_value(value);
        proof {
            lemma_views_total_len_push(self.views@, v);
        }
        self.views.push(v);
        self.total_bytes_len = self.total_bytes_len + value.len() as u64;
        match &mut self.validity {
            Some(bm) => bm.push(true),
            None => {},
        }
        proof {
            assert(self.rows() =~= old(self).rows().push(Some(value@)));
        }
    }

    /// Push one element of another column, given as its view plus the
    /// buffers that view points into: an inline view is copied as it stands,
    /// an out-of-line view re-encodes the referenced bytes into this
    /// builder's own arena.
    pub fn push_view(&mut self, v: ByteView, buffers: &[Vec<u8>])
        requires
            old(self).wf(),
            view_ok_in(v, buffers@.map_values(|b: Vec<u8>| b@)),
            old(self).total_bytes() + v.length <= u64::MAX,
            v.length > 12 ==> old(self).total_buffer() + v.length <= 13 * (u32::MAX as int),
        ensures
            final(self).wf(),
            final(self).rows() == old(self).rows().push(
                Some(view_bytes_in(v, buffers@.map_values(|b: Vec<u8>| b@))),
            ),
            final(self).has_validity() == old(self).has_validity(),
            final(self).total_bytes() == old(self).total_bytes() + v.length,
            final(self).total_buffer() as int == old(self).total_buffer() + (
            if v.length > 12 {
                v.length as int
            } else {
                0
            }),
    {
        let ghost ext_bufs = buffers@.map_values(|b: Vec<u8>| b@);
        if v.length <= MAX_INLINE_LENGTH {
            proof {
                lemma_views_total_len_push(self.views@, v);
            }
            self.views.push(v);
            self.total_bytes_len = self.total_bytes_len + v.length as u64;
            match &mut self.validity {
                Some(bm) => bm.push(true),
                None => {},
            }
            proof {
                assert(view_ok_in(v, self.bufs()));
                assert(view_bytes_in(v, self.bufs()) == view_bytes_in(v, ext_bufs));
                assert(self.rows() =~= old(self).rows().push(Some(view_bytes_in(v, ext_bufs))));
            }
        } else {
            let buf: &Vec<u8> = &buffers[v.buffer_idx as usize];
            let buf_len: usize = buf.len();
            let start = v.offset as usize;
            let end = start + v.length as usize;
            proof {
                assert(end <= buf_len);
            }
            let bytes = vstd::slice::slice_subrange(buf.as_slice(), start, end);
            proof {
                assert(bytes@ == view_bytes_in(v, ext_bufs));
            }
            self.push_value(bytes);
        }
    }

    /// Push a value or a null.
    pub fn push(&mut self, value: Option<&[u8]>)
        requires
            old(self).wf(),
            value matches Some(v) ==> {
                &&& v@.len() <= u32::MAX
                &&& old(self).total_bytes() + v@.len() <= u64::MAX
                &&& (v@.len() > 12 ==> old(self).total_buffer() + v@.len() <= 13 * (
                u32::MAX as int))
            },
        ensures
            final(self).wf(),
            final(self).rows() == old(self).rows().push(
                match value {
                    Some(v) => Some(v@),
                    None => None,
                },
            ),
            final(self).total_bytes() == old(self).total_bytes() + (
            match value {
                Some(v) => v@.len() as int,
                None => 0,
            }),
            final(self).total_buffer() as int == old(self).total_buffer() + (
            match value {
                Some(v) => if v@.len() > 12 {
                    v@.len() as int
                } else {
                    0
                },
                None => 0,
            }),
            final(self).has_validity() == (old(self).has_validity() || value is None),
    {
        match value {
            Some(v) => self.push_value(v),
            None => self.push_null(),
        }
    }

    /// Materialize a bitmap marking every present row as non-null; when
    /// `unset_last` is set the newest row is marked null instead.
    fn init_validity(&mut self, unset_last: bool)
        requires
            old(self).validity is None,
            unset_last ==> old(self).views@.len() > 0,
        ensures
            final(self).views@ == old(self).views@,
            final(self).completed_buffers == old(self).completed_buffers,
            final(self).in_progress_buffer == old(self).in_progress_buffer,
            final(self).in_progress_capacity == old(self).in_progress_capacity,
            final(self).total_bytes() == old(self).total_bytes(),
            final(self).total_buffer() == old(self).total_buffer(),
            final(self).validity matches Some(bm) && bm@ == if unset_last {
                Seq::new(old(self).views@.len(), |i: int| true).update(
                    old(self).views@.len() - 1,
                    false,
                )
            } else {
                Seq::new(old(self).views@.len(), |i: int| true)
            },
    {
        let n = self.views.len();
        let mut bm = MutableBitmap::with_capacity(n);
        bm.extend_constant(n, true);
        proof {
            assert(bm@ =~= Seq::new(old(self).views@.len(), |i: int| true));
        }
        if unset_last {
            bm.set(n - 1, false);
        }
        self.validity = Some(bm);
    }

    /// Push a null row: a zero view plus a `false` validity bit, materializing
    /// the bitmap on first use.
    pub fn push_null(&mut self)
        requires
            old(self).wf(),
        ensures
            final(self).wf(),
            final(self).rows() == old(self).rows().push(None),
            final(self).total_bytes() == old(self).total_bytes(),
            final(self).total_buffer() == old(self).total_buffer(),
            final(self).has_validity(),
    {
        let v = ByteView::new_zero();
        proof {
            lemma_views_total_len_push(self.views@, v);
            lemma_zero_view_ok(v, self.bufs());
        }
        self.views.push(v);
        match &mut self.validity {
            Some(bm) => bm.push(false),
            None => self.init_validity(true),
        }
        proof {
            assert(self.rows() =~= old(self).rows().push(None));
        }
    }

    /// Append `additional` null rows.
    #[verifier::loop_isolation(false)]
    pub fn extend_null(&mut self, additional: usize)
        requires
            old(self).wf(),
        ensures
            final(self).wf(),
            final(self).rows() == old(self).rows() + Seq::new(
                additional as nat,
                |k: int| None::<Seq<u8>>,
            ),
            final(self).total_bytes() == old(self).total_bytes(),
            final(self).total_buffer() == old(self).total_buffer(),
            final(self).has_validity() == (old(self).has_validity() || additional > 0),
    {
        if self.validity.is_none() && additional > 0 {
            self.init_validity(false);
        }
        match &mut self.validity {
            Some(bm) => bm.extend_constant(additional, false),
            None => {},
        }
        let ghost mid = *self;
        let zero = ByteView::new_zero();
        let mut i: usize = 0;
        while i < additional
            invariant
                i <= additional,
                self.views@ == mid.views@ + Seq::new(i as nat, |k: int| zero),
                self.completed_buffers == mid.completed_buffers,
                self.in_progress_buffer == mid.in_progress_buffer,
                self.in_progress_capacity == mid.in_progress_capacity,
                self.validity == mid.validity,
                self.total_bytes_len == mid.total_bytes_len,
                self.total_buffer_len == mid.total_buffer_len,
                views_total_len(self.views@) == views_total_len(mid.views@),
            decreases additional - i,
        {
            proof {
                lemma_views_total_len_push(self.views@, zero);
            }
            self.views.push(zero);
            proof {
                assert(self.views@ =~= mid.views@ + Seq::new((i + 1) as nat, |k: int| zero));
            }
            i = i + 1;
        }
        proof {
            assert forall|j: int| 0 <= j < self.views@.len() implies view_ok_in(
                #[trigger] self.views@[j],
                self.bufs(),
            ) by {
                if j < mid.views@.len() {
                    assert(view_ok_in(old(self).views@[j], old(self).bufs()));
                } else {
                    lemma_zero_view_ok(zero, self.bufs());
                }
            }
            assert forall|j: int|
                0 <= j < self.views@.len() && self.row_is_null(j) implies (
            #[trigger] self.views@[j]).length == 0 by {
                if j < mid.views@.len() {
                    assert(self.views@[j] == old(self).views@[j]);
                    assert(self.row_is_null(j) == old(self).row_is_null(j));
                }
            }
            assert(self.rows() =~= old(self).rows() + Seq::new(
                additional as nat,
                |k: int| None::<Seq<u8>>,
            ));
        }
    }

    /// Append `additional` copies of one value (or of null). A long value is
    /// encoded once: the arena grows by one copy of its bytes however many
    /// rows reference it, while `total_bytes_len` counts every row.
    #[verifier::loop_isolation(false)]
    pub fn extend_constant(&mut self, additional: usize, value: Option<&[u8]>)
        requires
            old(self).wf(),
            value matches Some(v) ==> {
                &&& v@.len() <= u32::MAX
                &&& old(self).total_bytes() + additional * v@.len() <= u64::MAX
                &&& (v@.len() > 12 && additional > 0 ==> old(self).total_buffer() + v@.len() <= 13
                    * (u32::MAX as int))
            },
        ensures
            final(self).wf(),
            final(self).rows() == old(self).rows() + Seq::new(
                additional as nat,
                |k: int|
                    match value {
                        Some(v) => Some(v@),
                        None => None,
                    },
            ),
            final(self).total_bytes() == old(self).total_bytes() + additional * (
            match value {
                Some(v) => v@.len() as int,
                None => 0,
            }),
            final(self).total_buffer() as int == old(self).total_buffer() + (
            match value {
                Some(v) => if additional > 0 && v@.len() > 12 {
                    v@.len() as int
                } else {
                    0
                },
                None => 0,
            }),
            final(self).has_validity() == (old(self).has_validity() || value is None),
    {
        match value {
            None => {
                if self.validity.is_none() {
                    self.init_validity(false);
                }
                self.extend_null(additional);
            },
            Some(v) => {
                if additional == 0 {
                    proof {
                        assert(self.rows() =~= old(self).rows() + Seq::new(
                            0nat,
                            |k: int| Some(v@),
                        ));
                    }
                    return ;
                }
                match &mut self.validity {
                    Some(bm) => bm.extend_constant(additional, true),
                    None => {},
                }
                let view = self.encode_value(v);
                proof {
                    lemma_views_total_len_nonneg(self.views@);
                    assert((v@.len() as int) * (additional as int) == additional * v@.len())
                        by (nonlinear_arith);
                    assert(old(self).total_bytes() + additional * v@.len() <= u64::MAX);
                }
                self.total_bytes_len = self.total_bytes_len + (v.len() as u64) * (
                additional as u64);
                let ghost mid = *self;
                let mut i: usize = 0;
                while i < additional
                    invariant
                        i <= additional,
                        self.views@ == mid.views@ + Seq::new(i as nat, |k: int| view),
                        self.completed_buffers == mid.completed_buffers,
                        self.in_progress_buffer == mid.in_progress_buffer,
                        self.in_progress_capacity == mid.in_progress_capacity,
                        self.validity == mid.validity,
                        self.total_bytes_len == mid.total_bytes_len,
                        self.total_buffer_len == mid.total_buffer_len,
                        views_total_len(self.views@) == views_total_len(mid.views@) + i * (
                        v@.len() as int),
                    decreases additional - i,
                {
                    proof {
                        lemma_views_total_len_push(self.views@, view);
                        assert((i + 1) * (v@.len() as int) == i * (v@.len() as int) + v@.len())
                            by (nonlinear_arith);
                    }
                    self.views.push(view);
                    proof {
                        assert(self.views@ =~= mid.views@ + Seq::new((i + 1) as nat, |k: int| view));
                    }
                    i = i + 1;
                }
                proof {
                    assert(additional * (v@.len() as int) == (additional as u64) as int * (
                    v@.len() as int)) by (nonlinear_arith);
                    assert forall|j: int| 0 <= j < self.views@.len() implies view_ok_in(
                        #[trigger] self.views@[j],
                        self.bufs(),
                    ) by {
                        if j < mid.views@.len() {
                            assert(view_ok_in(old(self).views@[j], old(self).bufs()));
                        }
                    }
                    assert forall|j: int|
                        0 <= j < self.views@.len() && self.row_is_null(j) implies (
                    #[trigger] self.views@[j]).length == 0 by {
                        if j < old(self).views@.len() {
                            assert(self.views@[j] == old(self).views@[j]);
                            assert(self.row_is_null(j) ==> old(self).row_is_null(j));
                        }
                    }
                    assert(self.rows() =~= old(self).rows() + Seq::new(
                        additional as nat,
                        |k: int| Some(v@),
                    ));
                }
            },
        }
    }

    /// Append every value of a slice as a non-null row.
    #[verifier::loop_isolation(false)]
    pub fn extend_values(&mut self, values: &[Vec<u8>])
        requires
            old(self).wf(),
            forall|i: int| 0 <= i < values@.len() ==> (#[trigger] values@[i])@.len() <= u32::MAX,
            old(self).total_bytes() + rows_total_len(values_as_rows(values@)) <= u64::MAX,
            old(self).total_buffer() + rows_buffer_len(values_as_rows(values@)) <= 13 * (
            u32::MAX as int),
        ensures
            final(self).wf(),
            final(self).rows() == old(self).rows() + values_as_rows(values@),
            final(self).total_bytes() == old(self).total_bytes() + rows_total_len(
                values_as_rows(values@),
            ),
            final(self).total_buffer() == old(self).total_buffer() + rows_buffer_len(
                values_as_rows(values@),
            ),
            final(self).has_validity() == old(self).has_validity(),
    {
        self.reserve(values.len());
        let ghost vrows = values_as_rows(values@);
        let mut i: usize = 0;
        while i < values.len()
            invariant
                i <= values@.len(),
                self.wf(),
                self.rows() == old(self).rows() + vrows.take(i as int),
                self.total_bytes() == old(self).total_bytes() + rows_total_len(
                    vrows.take(i as int),
                ),
                self.total_buffer() == old(self).total_buffer() + rows_buffer_len(
                    vrows.take(i as int),
                ),
                self.has_validity() == old(self).has_validity(),
            decreases values@.len() - i,
        {
            proof {
                lemma_rows_take_step(vrows, i as int);
                lemma_rows_take_le(vrows, i as int);
                lemma_rows_take_le(vrows, i as int + 1);
            }
            self.push_value(values[i].as_slice());
            proof {
                assert(old(self).rows() + vrows.take(i as int + 1) =~= (old(self).rows()
                    + vrows.take(i as int)).push(Some(values@[i as int]@)));
            }
            i = i + 1;
        }
        proof {
            assert(vrows.take(values@.len() as int) =~= vrows);
        }
    }

    /// Same as [`Self::extend_values`]; the fixed-size promise of the source
    /// changes nothing about what is appended.
    pub fn extend_trusted_len_values(&mut self, values: &[Vec<u8>])
        requires
            old(self).wf(),
            forall|i: int| 0 <= i < values@.len() ==> (#[trigger] values@[i])@.len() <= u32::MAX,
            old(self).total_bytes() + rows_total_len(values_as_rows(values@)) <= u64::MAX,
            old(self).total_buffer() + rows_buffer_len(values_as_rows(values@)) <= 13 * (
            u32::MAX as int),
        ensures
            final(self).wf(),
            final(self).rows() == old(self).rows() + values_as_rows(values@),
            final(self).total_bytes() == old(self).total_bytes() + rows_total_len(
                values_as_rows(values@),
            ),
            final(self).total_buffer() == old(self).total_buffer() + rows_buffer_len(
                values_as_rows(values@),
            ),
            final(self).has_validity() == old(self).has_validity(),
    {
        self.extend_values(values)
    }

    /// Append every entry of a slice of optional values, null for `None`.
    #[verifier::loop_isolation(false)]
    pub fn extend(&mut self, values: &[Option<Vec<u8>>])
        requires
            old(self).wf(),
            forall|i: int|
                0 <= i < values@.len() ==> row_len(#[trigger] options_as_rows(values@)[i])
                    <= u32::MAX,
            old(self).total_bytes() + rows_total_len(options_as_rows(values@)) <= u64::MAX,
            old(self).total_buffer() + rows_buffer_len(options_as_rows(values@)) <= 13 * (
            u32::MAX as int),
        ensures
            final(self).wf(),
            final(self).rows() == old(self).rows() + options_as_rows(values@),
            final(self).total_bytes() == old(self).total_bytes() + rows_total_len(
                options_as_rows(values@),
            ),
            final(self).total_buffer() == old(self).total_buffer() + rows_buffer_len(
                options_as_rows(values@),
            ),
            final(self).has_validity() == (old(self).has_validity() || exists|j: int|
                0 <= j < values@.len() && values@[j] is None),
    {
        self.reserve(values.len());
        let ghost orows = options_as_rows(values@);
        let mut i: usize = 0;
        while i < values.len()
            invariant
                i <= values@.len(),
                self.wf(),
                self.rows() == old(self).rows() + orows.take(i as int),
                self.total_bytes() == old(self).total_bytes() + rows_total_len(
                    orows.take(i as int),
                ),
                self.total_buffer() == old(self).total_buffer() + rows_buffer_len(
                    orows.take(i as int),
                ),
                self.has_validity() == (old(self).has_validity() || exists|j: int|
                    0 <= j < i && values@[j] is None),
            decreases values@.len() - i,
        {
            proof {
                lemma_rows_take_step(orows, i as int);
                lemma_rows_take_le(orows, i as int);
                lemma_rows_take_le(orows, i as int + 1);
            }
            match &values[i] {
                Some(v) => self.push(Some(v.as_slice())),
                None => self.push(None),
            }
            proof {
                assert(old(self).rows() + orows.take(i as int + 1) =~= (old(self).rows()
                    + orows.take(i as int)).push(orows[i as int]));
            }
            i = i + 1;
        }
        proof {
            assert(orows.take(values@.len() as int) =~= orows);
        }
    }

    /// Same as [`Self::extend`]; the fixed-size promise of the source changes
    /// nothing about what is appended.
    pub fn extend_trusted_len(&mut self, values: &[Option<Vec<u8>>])
        requires
            old(self).wf(),
            forall|i: int|
                0 <= i < values@.len() ==> row_len(#[trigger] options_as_rows(values@)[i])
                    <= u32::MAX,
            old(self).total_bytes() + rows_total_len(options_as_rows(values@)) <= u64::MAX,
            old(self).total_buffer() + rows_buffer_len(options_as_rows(values@)) <= 13 * (
            u32::MAX as int),
        ensures
            final(self).wf(),
            final(self).rows() == old(self).rows() + options_as_rows(values@),
            final(self).total_bytes() == old(self).total_bytes() + rows_total_len(
                options_as_rows(values@),
            ),
            final(self).total_buffer() == old(self).total_buffer() + rows_buffer_len(
                options_as_rows(values@),
            ),
            final(self).has_validity() == (old(self).has_validity() || exists|j: int|
                0 <= j < values@.len() && values@[j] is None),
    {
        self.extend(values)
    }

    /// A fresh builder holding the given optional values.
    pub fn from_iterator(values: &[Option<Vec<u8>>]) -> (r: MutableBinaryViewArray)
        requires
            forall|i: int|
                0 <= i < values@.len() ==> row_len(#[trigger] options_as_rows(values@)[i])
                    <= u32::MAX,
            rows_total_len(options_as_rows(values@)) <= u64::MAX,
            rows_buffer_len(options_as_rows(values@)) <= 13 * (u32::MAX as int),
        ensures
            r.wf(),
            r.rows() == options_as_rows(values@),
            r.total_bytes() == rows_total_len(options_as_rows(values@)),
            r.total_buffer() == rows_buffer_len(options_as_rows(values@)),
            r.has_validity() == exists|j: int| 0 <= j < values@.len() && values@[j] is None,
    {
        let mut r = Self::with_capacity(values.len());
        r.extend(values);
        proof {
            assert(Seq::<Option<Seq<u8>>>::empty() + options_as_rows(values@) =~= options_as_rows(
                values@,
            ));
        }
        r
    }

    /// A fresh builder holding the given values, none of them null.
    pub fn from_values_iter(values: &[Vec<u8>]) -> (r: MutableBinaryViewArray)
        requires
            forall|i: int| 0 <= i < values@.len() ==> (#[trigger] values@[i])@.len() <= u32::MAX,
            rows_total_len(values_as_rows(values@)) <= u64::MAX,
            rows_buffer_len(values_as_rows(values@)) <= 13 * (u32::MAX as int),
        ensures
            r.wf(),
            r.rows() == values_as_rows(values@),
            r.total_bytes() == rows_total_len(values_as_rows(values@)),
            r.total_buffer() == rows_buffer_len(values_as_rows(values@)),
            !r.has_validity(),
    {
        let mut r = Self::with_capacity(values.len());
        r.extend_values(values);
        proof {
            assert(Seq::<Option<Seq<u8>>>::empty() + values_as_rows(values@) =~= values_as_rows(
                values@,
            ));
        }
        r
    }

    /// A fresh builder holding the given optional values.
    pub fn from(slice: &[Option<Vec<u8>>]) -> (r: MutableBinaryViewArray)
        requires
            forall|i: int|
                0 <= i < slice@.len() ==> row_len(#[trigger] options_as_rows(slice@)[i])
                    <= u32::MAX,
            rows_total_len(options_as_rows(slice@)) <= u64::MAX,
            rows_buffer_len(options_as_rows(slice@)) <= 13 * (u32::MAX as int),
        ensures
            r.wf(),
            r.rows() == options_as_rows(slice@),
            r.total_bytes() == rows_total_len(options_as_rows(slice@)),
            r.total_buffer() == rows_buffer_len(options_as_rows(slice@)),
            r.has_validity() == exists|j: int| 0 <= j < slice@.len() && slice@[j] is None,
    {
        Self::from_iterator(slice)
    }

    /// Remove and return the last element (its bytes; empty bytes for a null
    /// row); nothing on an empty builder. The arena keeps any out-of-line
    /// bytes, so `total_buffer_len` does not shrink.
    pub fn pop(&mut self) -> (r: Option<Vec<u8>>)
        requires
            old(self).wf(),
        ensures
            final(self).wf(),
            old(self).rows().len() == 0 ==> {
                &&& r is None
                &&& final(self).rows() == old(self).rows()
                &&& final(self).total_bytes() == old(self).total_bytes()
            },
            old(self).rows().len() > 0 ==> {
                &&& r matches Some(v) && v@ == row_bytes(old(self).rows().last())
                &&& final(self).rows() == old(self).rows().drop_last()
                &&& final(self).total_bytes() == old(self).total_bytes() - row_len(
                    old(self).rows().last(),
                )
            },
            final(self).total_buffer() == old(self).total_buffer(),
            final(self).has_validity() == old(self).has_validity(),
    {
        if self.views.len() == 0 {
            return None;
        }
        let n = self.views.len();
        let value = self.value_at(n - 1);
        let v = self.views[n - 1];
        proof {
            lemma_views_total_len_nonneg(self.views@.drop_last());
            assert(views_total_len(self.views@) == views_total_len(self.views@.drop_last())
                + v.length as int);
            if old(self).rows()[n - 1] is Some {
                assert(view_ok_in(self.views@[n - 1], self.bufs()));
            }
        }
        self.total_bytes_len = self.total_bytes_len - v.length as u64;
        self.views.pop();
        match &mut self.validity {
            Some(bm) => bm.pop(),
            None => {},
        }
        proof {
            assert(self.rows() =~= old(self).rows().drop_last());
            assert(value@ =~= row_bytes(old(self).rows().last()));
        }
        Some(value)
    }

    /// Flush a non-empty in-progress buffer into the frozen list. No view's
    /// bytes change: views that pointed at the in-progress buffer now point
    /// at the same bytes under the last frozen index.
    fn finish_in_progress(&mut self)
        requires
            old(self).arena_wf(),
        ensures
            final(self).arena_wf(),
            final(self).views@ == old(self).views@,
            final(self).validity == old(self).validity,
            final(self).total_bytes_len == old(self).total_bytes_len,
            final(self).total_buffer_len == old(self).total_buffer_len,
            final(self).in_progress_buffer@.len() == 0,
            final(self).rows() == old(self).rows(),
            forall|w: ByteView|
                view_ok_in(w, old(self).bufs()) ==> #[trigger] view_ok_in(w, final(self).bufs())
                    && view_bytes_in(w, final(self).bufs()) == view_bytes_in(w, old(self).bufs()),
    {
        let ghost bufs0 = self.bufs();
        if self.in_progress_buffer.len() > 0 {
            let mut flushed: Vec<u8> = Vec::new();
            core::mem::swap(&mut flushed, &mut self.in_progress_buffer);
            self.in_progress_capacity = 0;
            proof {
                lemma_buffers_total_len_push(self.completed_buffers@, flushed);
            }
            self.completed_buffers.push(flushed);
        }
        proof {
            let bufs1 = self.bufs();
            assert forall|i: int| 0 <= i < bufs0.len() implies (#[trigger] bufs0[i]).is_prefix_of(
                bufs1[i],
            ) by {
                assert(bufs0[i] =~= bufs1[i].subrange(0, bufs0[i].len() as int));
            }
            assert forall|w: ByteView| view_ok_in(w, bufs0) implies #[trigger] view_ok_in(w, bufs1)
                && view_bytes_in(w, bufs1) == view_bytes_in(w, bufs0) by {
                lemma_view_stable(w, bufs0, bufs1);
            }
            assert forall|i: int| 0 <= i < self.views@.len() implies view_ok_in(
                #[trigger] self.views@[i],
                bufs1,
            ) by {
                assert(view_ok_in(self.views@[i], bufs0));
            }
            assert(self.rows() =~= old(self).rows());
        }
    }

    /// Finalize the builder into an immutable column: flush the in-progress
    /// buffer and hand over views, buffers, validity and counters. The rows
    /// read back unchanged.
    pub fn freeze(self) -> (r: BinaryViewArray)
        requires
            self.wf(),
        ensures
            r.wf(),
            r.rows() == self.rows(),
            r.total_bytes() == self.total_bytes(),
            r.total_buffer() == self.total_buffer(),
            r.has_validity() == self.has_validity(),
            r.spec_data_type() == DataType::BinaryView,
    {
        self.freeze_with(DataType::BinaryView)
    }

    /// Finalize into a text column: succeeds, with the column tagged
    /// [`DataType::Utf8View`], exactly when every row's bytes are valid
    /// UTF-8; otherwise reports the first offending row and consumes the
    /// builder.
    pub fn freeze_utf8(self) -> (r: Result<BinaryViewArray, Error>)
        requires
            self.wf(),
        ensures
            r is Ok <==> forall|i: int|
                0 <= i < self.rows().len() ==> vstd::utf8::valid_utf8(
                    row_bytes(#[trigger] self.rows()[i]),
                ),
            r matches Ok(c) ==> {
                &&& c.wf()
                &&& c.rows() == self.rows()
                &&& c.total_bytes() == self.total_bytes()
                &&& c.total_buffer() == self.total_buffer()
                &&& c.has_validity() == self.has_validity()
                &&& c.spec_data_type() == DataType::Utf8View
            },
            r matches Err(e) ==> e matches Error::InvalidUtf8 { row, length } && {
                &&& 0 <= row < self.rows().len()
                &&& !vstd::utf8::valid_utf8(row_bytes(self.rows()[row as int]))
                &&& length as int == row_len(self.rows()[row as int])
                &&& forall|j: int|
                    0 <= j < row ==> vstd::utf8::valid_utf8(row_bytes(#[trigger] self.rows()[j]))
            },
    {
        let mut b = self;
        match b.validate_utf8() {
            Ok(()) => Ok(b.freeze_with(DataType::Utf8View)),
            Err(e) => Err(e),
        }
    }

    /// Finalization shared by [`Self::freeze`] and [`Self::freeze_utf8`].
    fn freeze_with(self, data_type: DataType) -> (r: BinaryViewArray)
        requires
            self.wf(),
        ensures
            r.wf(),
            r.rows() == self.rows(),
            r.total_bytes() == self.total_bytes(),
            r.total_buffer() == self.total_buffer(),
            r.has_validity() == self.has_validity(),
            r.spec_data_type() == data_type,
    {
        let mut b = self;
        b.finish_in_progress();
        let ghost done = b;
        let r = BinaryViewArray {
            data_type,
            views: b.views,
            buffers: b.completed_buffers,
            validity: b.validity,
            total_bytes_len: b.total_bytes_len,
            total_buffer_len: b.total_buffer_len,
        };
        proof {
            let bufs1 = done.bufs();
            assert forall|i: int| 0 <= i < r.views@.len() implies view_ok_in(
                #[trigger] r.views@[i],
                r.bufs(),
            ) && view_bytes_in(r.views@[i], r.bufs()) == view_bytes_in(r.views@[i], bufs1) by {
                let w = r.views@[i];
                assert(view_ok_in(w, bufs1));
                if w.length > MAX_INLINE_LENGTH {
                    let cnt = done.completed_buffers@.len() as int;
                    assert(bufs1.len() == cnt + 1);
                    assert(done.in_progress_buffer@.len() == 0);
                    assert(w.offset as int + w.length as int <= bufs1[w.buffer_idx as int].len());
                    if w.buffer_idx as int == cnt {
                        assert(bufs1[cnt] == done.in_progress_buffer@);
                        assert(false);
                    }
                    assert((w.buffer_idx as int) < cnt);
                    assert(r.bufs().len() == cnt);
                    assert(r.bufs()[w.buffer_idx as int] == r.buffers@[w.buffer_idx as int]@);
                    assert(bufs1[w.buffer_idx as int] == done.completed_buffers@[w.buffer_idx as int]@);
                }
            }
            assert(r.rows() =~= done.rows());
            assert(done.rows() == self.rows());
        }
        r
    }

    /// Check that every row's bytes are valid UTF-8, flushing the in-progress
    /// buffer first as finalization would. Returns the first offending row
    /// and its byte length; null rows (no bytes) always pass.
    #[verifier::loop_isolation(false)]
    pub fn validate_utf8(&mut self) -> (r: Result<(), Error>)
        requires
            old(self).wf(),
        ensures
            final(self).wf(),
            final(self).rows() == old(self).rows(),
            final(self).total_bytes() == old(self).total_bytes(),
            final(self).total_buffer() == old(self).total_buffer(),
            final(self).has_validity() == old(self).has_validity(),
            r is Ok <==> forall|i: int|
                0 <= i < old(self).rows().len() ==> vstd::utf8::valid_utf8(
                    row_bytes(#[trigger] old(self).rows()[i]),
                ),
            r matches Err(e) ==> e matches Error::InvalidUtf8 { row, length } && {
                &&& 0 <= row < old(self).rows().len()
                &&& !vstd::utf8::valid_utf8(row_bytes(old(self).rows()[row as int]))
                &&& length as int == row_len(old(self).rows()[row as int])
                &&& forall|j: int|
                    0 <= j < row ==> vstd::utf8::valid_utf8(
                        row_bytes(#[trigger] old(self).rows()[j]),
                    )
            },
    {
        self.finish_in_progress();
        let n = self.views.len();
        let mut i: usize = 0;
        while i < n
            invariant
                i <= n,
                self.wf(),
                self.rows() == old(self).rows(),
                n == self.rows().len(),
                forall|j: int|
                    0 <= j < i ==> vstd::utf8::valid_utf8(row_bytes(#[trigger] self.rows()[j])),
            decreases n - i,
        {
            let bytes = self.value_at(i);
            proof {
                if self.rows()[i as int] is None {
                    assert(bytes@ =~= row_bytes(self.rows()[i as int]));
                }
            }
            if !utf8_check(bytes.as_slice()) {
                let length = self.views[i].length;
                proof {
                    if self.rows()[i as int] is Some {
                        assert(view_ok_in(self.views@[i as int], self.bufs()));
                    }
                }
                return Err(Error::InvalidUtf8 { row: i, length });
            }
            i = i + 1;
        }
        Ok(())
    }

    /// How many views fit before the builder reallocates.
    pub fn capacity(&self) -> (r: usize)
        ensures
            r >= self.rows().len(),
    {
        vec_capacity(&self.views)
    }

    /// Every row's bytes, in order, ignoring validity (a null row reads as
    /// empty bytes).
    #[verifier::loop_isolation(false)]
    pub fn values(&self) -> (r: Vec<Vec<u8>>)
        requires
            self.wf(),
        ensures
            r@.len() == self.rows().len(),
            forall|i: int| 0 <= i < r@.len() ==> (#[trigger] r@[i])@ == row_bytes(self.rows()[i]),
    {
        let n = self.views.len();
        let mut r: Vec<Vec<u8>> = Vec::with_capacity(n);
        let mut i: usize = 0;
        while i < n
            invariant
                i <= n,
                n == self.rows().len(),
                r@.len() == i,
                forall|j: int|
                    0 <= j < i ==> (#[trigger] r@[j])@ == row_bytes(self.rows()[j]),
            decreases n - i,
        {
            let v = self.value_at(i);
            proof {
                if self.rows()[i as int] is None {
                    assert(v@ =~= row_bytes(self.rows()[i as int]));
                }
            }
            r.push(v);
            i = i + 1;
        }
        r
    }

    /// Read back the element at row `i`: its bytes for a value row (resolving
    /// inline and out-of-line views alike), the empty byte string for a null.
    pub fn value_at(&self, i: usize) -> (r: Vec<u8>)
        requires
            self.wf(),
            i < self.rows().len(),
        ensures
            match self.rows()[i as int] {
                Some(b) => r@ == b,
                None => r@.len() == 0,
            },
    {
        let v = self.views[i];
        proof {
            assert(view_ok_in(self.views@[i as int], self.bufs()));
        }
        if v.length <= MAX_INLINE_LENGTH {
            let len = v.length as usize;
            let mut r: Vec<u8> = Vec::with_capacity(len);
            let mut k: usize = 0;
            while k < len
                invariant
                    k <= len,
                    len <= 12,
                    v.inline@.len() == 12,
                    r@ == v.inline@.subrange(0, k as int),
                decreases len - k,
            {
                r.push(v.inline[k]);
                proof {
                    assert(r@ =~= v.inline@.subrange(0, k + 1));
                }
                k = k + 1;
            }
            proof {
                if self.rows()[i as int] is Some {
                    assert(self.rows()[i as int] == Some(
                        view_bytes_in(self.views@[i as int], self.bufs()),
                    ));
                }
            }
            r
        } else {
            let buffer_idx = v.buffer_idx as usize;
            let offset = v.offset as usize;
            let len = v.length as usize;
            let buf: &Vec<u8> = if buffer_idx == self.completed_buffers.len() {
                &self.in_progress_buffer
            } else {
                &self.completed_buffers[buffer_idx]
            };
            proof {
                assert(buf@ == self.bufs()[v.buffer_idx as int]);
            }
            let buf_len: usize = buf.len();
            let mut r: Vec<u8> = Vec::with_capacity(len);
            let mut k: usize = 0;
            while k < len
                invariant
                    k <= len,
                    offset + len <= buf_len == buf@.len(),
                    r@ == buf@.subrange(offset as int, offset as int + k),
                decreases len - k,
            {
                r.push(buf[offset + k]);
                proof {
                    assert(r@ =~= buf@.subrange(offset as int, offset as int + k + 1));
                }
                k = k + 1;
            }
            r
        }
    }

    pub fn len(&self) -> (r: usize)
        ensures
            r == self.rows().len(),
    {
        self.views.len()
    }

    pub fn is_empty(&self) -> (r: bool)
        ensures
            r == (self.rows().len() == 0),
    {
        self.len() == 0
    }

    /// The views, one per row. Each view records its row's byte length; an
    /// inline view carries the row's bytes zero-padded to 12, and an
    /// out-of-line view repeats the row's first four bytes as its prefix —
    /// the record layout downstream readers rely on.
    pub fn views(&self) -> (r: &Vec<ByteView>)
        requires
            self.wf(),
        ensures
            r@.len() == self.rows().len(),
            forall|i: int|
                0 <= i < r@.len() ==> (#[trigger] r@[i]).length as int == row_len(self.rows()[i]),
            forall|i: int|
                0 <= i < r@.len() && row_len(self.rows()[i]) <= 12 ==> (#[trigger] r@[i]).inline@
                    == pad_bytes(row_bytes(self.rows()[i]), 12),
            forall|i: int|
                0 <= i < r@.len() && row_len(self.rows()[i]) > 12 ==> (#[trigger] r@[i]).prefix@
                    == row_bytes(self.rows()[i]).subrange(0, 4),
    {
        proof {
            assert forall|i: int| 0 <= i < self.views@.len() implies {
                &&& (#[trigger] self.views@[i]).length as int == row_len(self.rows()[i])
                &&& (row_len(self.rows()[i]) <= 12 ==> self.views@[i].inline@ == pad_bytes(
                    row_bytes(self.rows()[i]),
                    12,
                ))
                &&& (row_len(self.rows()[i]) > 12 ==> self.views@[i].prefix@ == row_bytes(
                    self.rows()[i],
                ).subrange(0, 4))
            } by {
                let v = self.views@[i];
                assert(view_ok_in(v, self.bufs()));
                if self.row_is_null(i) {
                    assert(v.length == 0);
                    assert(v.inline@ =~= pad_bytes(row_bytes(self.rows()[i]), 12));
                } else {
                    if v.length <= MAX_INLINE_LENGTH {
                        assert(v.inline@ =~= pad_bytes(row_bytes(self.rows()[i]), 12));
                    } else {
                        assert(v.prefix@ =~= row_bytes(self.rows()[i]).subrange(0, 4));
                    }
                }
            }
        }
        &self.views
    }

    /// The validity bitmap, when one has been materialized. When absent, no
    /// row is null; when present, bit `i` is `true` exactly for value rows.
    pub fn validity(&self) -> (r: Option<&MutableBitmap>)
        requires
            self.wf(),
        ensures
            match r {
                Some(bm) => {
                    &&& bm@.len() == self.rows().len()
                    &&& forall|i: int| 0 <= i < bm@.len() ==> bm@[i] == (self.rows()[i] is Some)
                },
                None => forall|i: int| 0 <= i < self.rows().len() ==> self.rows()[i] is Some,
            },
            r is Some == self.has_validity(),
    {
        match &self.validity {
            Some(bm) => Some(bm),
            None => None,
        }
    }
}

/// The logical type of a column's elements.
#[derive(Clone, Copy, PartialEq, Eq, Structural, Debug)]
pub enum DataType {
    /// Arbitrary bytes.
    BinaryView,
    /// Valid UTF-8 text.
    Utf8View,
}

/// A frozen binary-view column: views, frozen buffers, optional validity,
/// and the builder's final counters. Never mutated after construction.
pub struct BinaryViewArray {
    pub(crate) data_type: DataType,
    pub(crate) views: Vec<ByteView>,
    pub(crate) buffers: Vec<Vec<u8>>,
    pub(crate) validity: Option<MutableBitmap>,
    pub(crate) total_bytes_len: u64,
    pub(crate) total_buffer_len: u64,
}

impl BinaryViewArray {
    /// The frozen addressing space.
    pub closed spec fn bufs(self) -> Seq<Seq<u8>> {
        self.buffers@.map_values(|b: Vec<u8>| b@)
    }

    closed spec fn row_is_null(self, i: int) -> bool {
        match self.validity {
            Some(bm) => 0 <= i < bm@.len() && !bm@[i],
            None => false,
        }
    }

    /// The logical rows: `None` for null, `Some(bytes)` otherwise.
    pub closed spec fn rows(self) -> Seq<Option<Seq<u8>>> {
        Seq::new(
            self.views@.len(),
            |i: int|
                if self.row_is_null(i) {
                    None
                } else {
                    Some(view_bytes_in(self.views@[i], self.bufs()))
                },
        )
    }

    pub closed spec fn spec_data_type(self) -> DataType {
        self.data_type
    }

    /// Sum of the logical byte lengths of all rows (0 for a null).
    pub closed spec fn total_bytes(self) -> u64 {
        self.total_bytes_len
    }

    /// Bytes held by the frozen buffers.
    pub closed spec fn total_buffer(self) -> u64 {
        self.total_buffer_len
    }

    pub fn total_bytes_len(&self) -> (r: u64)
        ensures
            r == self.total_bytes(),
    {
        self.total_bytes_len
    }

    pub fn total_buffer_len(&self) -> (r: u64)
        ensures
            r == self.total_buffer(),
    {
        self.total_buffer_len
    }

    pub closed spec fn has_validity(self) -> bool {
        self.validity is Some
    }

    /// Every view resolves inside the frozen buffers, the bitmap (when
    /// present) has one bit per row, and null rows hold zero views.
    pub closed spec fn wf(self) -> bool {
        &&& forall|i: int|
            0 <= i < self.views@.len() ==> view_ok_in(#[trigger] self.views@[i], self.bufs())
        &&& match self.validity {
            Some(bm) => bm@.len() == self.views@.len(),
            None => true,
        }
        &&& forall|i: int|
            0 <= i < self.views@.len() && self.row_is_null(i) ==> (#[trigger] self.views@[i]).length
                == 0
    }

    pub fn data_type(&self) -> (r: DataType)
        ensures
            r == self.spec_data_type(),
    {
        self.data_type
    }

    pub fn len(&self) -> (r: usize)
        ensures
            r == self.rows().len(),
    {
        self.views.len()
    }

    pub fn is_empty(&self) -> (r: bool)
        ensures
            r == (self.rows().len() == 0),
    {
        self.views.len() == 0
    }

    /// The validity bitmap, when any row is tracked as null; absent means
    /// every row holds a value.
    pub fn validity(&self) -> (r: Option<&MutableBitmap>)
        requires
            self.wf(),
        ensures
            match r {
                Some(bm) => {
                    &&& bm@.len() == self.rows().len()
                    &&& forall|i: int| 0 <= i < bm@.len() ==> bm@[i] == (self.rows()[i] is Some)
                },
                None => forall|i: int| 0 <= i < self.rows().len() ==> self.rows()[i] is Some,
            },
            r is Some == self.has_validity(),
    {
        match &self.validity {
            Some(bm) => Some(bm),
            None => None,
        }
    }

    /// Whether row `i` is null.
    pub fn is_null_at(&self, i: usize) -> (r: bool)
        requires
            self.wf(),
            i < self.rows().len(),
        ensures
            r == (self.rows()[i as int] is None),
    {
        match &self.validity {
            Some(bm) => !bm.get(i),
            None => false,
        }
    }

    /// Read the element at row `i`: its bytes for a value row, the empty byte
    /// string for a null.
    pub fn value_at(&self, i: usize) -> (r: Vec<u8>)
        requires
            self.wf(),
            i < self.rows().len(),
        ensures
            match self.rows()[i as int] {
                Some(b) => r@ == b,
                None => r@.len() == 0,
            },
    {
        let v = self.views[i];
        proof {
            assert(view_ok_in(self.views@[i as int], self.bufs()));
        }
        if v.length <= MAX_INLINE_LENGTH {
            let len = v.length as usize;
            let mut r: Vec<u8> = Vec::with_capacity(len);
            let mut k: usize = 0;
            while k < len
                invariant
                    k <= len,
                    len <= 12,
                    v.inline@.len() == 12,
                    r@ == v.inline@.subrange(0, k as int),
                decreases len - k,
            {
                r.push(v.inline[k]);
                proof {
                    assert(r@ =~= v.inline@.subrange(0, k + 1));
                }
                k = k + 1;
            }
            r
        } else {
            let buffer_idx = v.buffer_idx as usize;
            let offset = v.offset as usize;
            let len = v.length as usize;
            let buf: &Vec<u8> = &self.buffers[buffer_idx];
            proof {
                assert(buf@ == self.bufs()[v.buffer_idx as int]);
            }
            let buf_len: usize = buf.len();
            let mut r: Vec<u8> = Vec::with_capacity(len);
            let mut k: usize = 0;
            while k < len
                invariant
                    k <= len,
                    offset + len <= buf_len == buf@.len(),
                    r@ == buf@.subrange(offset as int, offset as int + k),
                decreases len - k,
            {
                r.push(buf[offset + k]);
                proof {
                    assert(r@ =~= buf@.subrange(offset as int, offset as int + k + 1));
                }
                k = k + 1;
            }
            r
        }
    }
}

/// A well-formed builder meets the two weaker preconditions of
/// [`MutableBinaryViewArray::push_value_ignore_validity`]: its arena is well
/// formed and its bitmap is not ahead of its rows.
pub proof fn lemma_wf_components(b: MutableBinaryViewArray)
    requires
        b.wf(),
    ensures
        b.arena_wf(),
        b.validity_not_ahead(),
{
}

/// Law: in a well-formed builder, `total_bytes_len` is exactly the sum of
/// the logical byte lengths of the rows, nulls counting 0. Together with each
/// operation's `ensures` on `rows()`, this is the accounting that holds after
/// any sequence of pushes and extends.
pub proof fn lemma_total_bytes_is_row_sum(b: MutableBinaryViewArray)
    requires
        b.wf(),
    ensures
        b.total_bytes() as int == rows_total_len(b.rows()),
{
    lemma_rows_views_take(b, b.views@.len() as int);
    assert(b.rows().take(b.views@.len() as int) =~= b.rows());
    assert(b.views@.take(b.views@.len() as int) =~= b.views@);
}

proof fn lemma_rows_views_take(b: MutableBinaryViewArray, k: int)
    requires
        b.wf(),
        0 <= k <= b.views@.len(),
    ensures
        rows_total_len(b.rows().take(k)) == views_total_len(b.views@.take(k)),
    decreases k,
{
    if k > 0 {
        lemma_rows_views_take(b, k - 1);
        assert(b.rows().take(k).drop_last() =~= b.rows().take(k - 1));
        assert(b.views@.take(k).drop_last() =~= b.views@.take(k - 1));
        assert(row_len(b.rows()[k - 1]) == b.views@[k - 1].length as int) by {
            assert(view_ok_in(b.views@[k - 1], b.bufs()));
        }
        assert(b.rows().take(k).last() == b.rows()[k - 1]);
        assert(b.views@.take(k).last() == b.views@[k - 1]);
    }
}

/// Law: encoding a value and reading that row back yields exactly the bytes
/// that went in. `push_value` ensures the rows gain `Some(v)`; `value_at` on
/// that row then returns `v`, whether the value was stored inline or in the
/// arena.
pub proof fn lemma_push_value_round_trip(
    pre: MutableBinaryViewArray,
    post: MutableBinaryViewArray,
    v: Seq<u8>,
)
    requires
        post.rows() == pre.rows().push(Some(v)),
    ensures
        post.rows().len() == pre.rows().len() + 1,
        post.rows()[pre.rows().len() as int] == Some(v),
        row_bytes(post.rows()[pre.rows().len() as int]) == v,
{
}

/// Relies on std's str::from_utf8: it returns `Ok` exactly when the bytes
/// are a valid UTF-8 encoding, the property vstd states as `valid_utf8`.
#[verifier::external_body]
fn utf8_check(bytes: &[u8]) -> (r: bool)
    ensures
        r == vstd::utf8::valid_utf8(bytes@),
{
    std::str::from_utf8(bytes).is_ok()
}

/// Relies on std's Vec::capacity: the number of elements the vector can hold
/// without reallocating, which is never less than its length.
#[verifier::external_body]
fn vec_capacity<T>(v: &Vec<T>) -> (r: usize)
    ensures
        r >= v@.len(),
{
    v.capacity()
}

impl Default for MutableBinaryViewArray {
    /// An empty builder, as [`MutableBinaryViewArray::new`] gives.
    fn default() -> (r: MutableBinaryViewArray)
        ensures
            r.wf(),
            r.rows() == Seq::<Option<Seq<u8>>>::empty(),
            !r.has_validity(),
            r.total_bytes() == 0,
            r.total_buffer() == 0,
    {
        MutableBinaryViewArray::new()
    }
}

/// Every row of a well-formed column is at most `u32::MAX` bytes long: its
/// view records the length as a `u32`.
pub proof fn lemma_row_len_bound(a: BinaryViewArray, i: int)
    requires
        a.wf(),
        0 <= i < a.rows().len(),
    ensures
        row_len(a.rows()[i]) <= u32::MAX,
{
    if a.rows()[i] is Some {
        assert(view_ok_in(a.views@[i], a.bufs()));
    }
}

/// Copy a slice of at most 12 bytes into a fixed 12-byte array, zero-padded.
fn pack_inline(value: &[u8]) -> (r: [u8; 12])
    requires
        value@.len() <= 12,
    ensures
        r@ == pad_bytes(value@, 12),
{
    let mut r = [0u8; 12];
    let mut k: usize = 0;
    while k < value.len()
        invariant
            k <= value@.len() <= 12,
            r@.len() == 12,
            forall|j: int| 0 <= j < k ==> r@[j] == value@[j],
            forall|j: int| k <= j < 12 ==> r@[j] == 0u8,
        decreases value@.len() - k,
    {
        r[k] = value[k];
        k = k + 1;
    }
    proof {
        assert(r@ =~= pad_bytes(value@, 12));
    }
    r
}

/// Append every byte of `value` to `dst`.
pub(crate) fn extend_from_slice(dst: &mut Vec<u8>, value: &[u8])
    ensures
        final(dst)@ == old(dst)@ + value@,
{
    let mut k: usize = 0;
    while k < value.len()
        invariant
            k <= value@.len(),
            dst@ == old(dst)@ + value@.subrange(0, k as int),
        decreases value@.len() - k,
    {
        dst.push(value[k]);
        proof {
            assert(old(dst)@ + value@.subrange(0, k + 1) =~= (old(dst)@ + value@.subrange(
                0,
                k as int,
            )).push(value@[k as int]));
        }
        k = k + 1;
    }
    proof {
        assert(value@.subrange(0, value@.len() as int) =~= value@);
    }
}

} // verus!

//! The fixed-width element descriptor and the rules that tie it to the
//! buffer arena it may point into.

use vstd::prelude::*;

verus! {

/// Largest element length that is stored inline in the descriptor itself.
pub const MAX_INLINE_LENGTH: u32 = 12;

/// A fixed-width descriptor for one column element.
///
/// When `length <= 12` the value lives in `inline` (zero-padded). When
/// `length > 12` the value lives in a buffer of the arena: `buffer_idx`
/// names the buffer, `offset` the start within it, and `prefix` repeats the
/// first four bytes of the value so that comparisons can often be decided
/// without touching the buffer. Its 16-byte on-disk form is produced by
/// [`ByteView::to_le_bytes`].
#[derive(Clone, Copy)]
pub struct ByteView {
    pub length: u32,
    pub prefix: [u8; 4],
    pub buffer_idx: u32,
    pub offset: u32,
    pub inline: [u8; 12],
}

/// `s` truncated or zero-padded to exactly `n` bytes.
pub open spec fn pad_bytes(s: Seq<u8>, n: int) -> Seq<u8> {
    Seq::new(n as nat, |k: int| if k < s.len() { s[k] } else { 0u8 })
}

/// A view is well formed with respect to an ordered addressing space of
/// buffers: inline bytes beyond the length are zero, and an out-of-line view
/// points at a real byte range whose first four bytes it repeats as `prefix`.
pub open spec fn view_ok_in(v: ByteView, bufs: Seq<Seq<u8>>) -> bool {
    if v.length <= MAX_INLINE_LENGTH {
        forall|k: int| v.length <= k < 12 ==> v.inline@[k] == 0u8
    } else {
        &&& (v.buffer_idx as int) < bufs.len()
        &&& v.offset as int + v.length as int <= bufs[v.buffer_idx as int].len()
        &&& v.prefix@ == bufs[v.buffer_idx as int].subrange(
            v.offset as int,
            v.offset as int + 4,
        )
    }
}

/// The element bytes a view denotes within an addressing space of buffers.
pub open spec fn view_bytes_in(v: ByteView, bufs: Seq<Seq<u8>>) -> Seq<u8> {
    if v.length <= MAX_INLINE_LENGTH {
        v.inline@.subrange(0, v.length as int)
    } else {
        bufs[v.buffer_idx as int].subrange(v.offset as int, v.offset as int + v.length as int)
    }
}

/// A zero view: the encoding of a null element (and the builder's default).
pub open spec fn is_zero_view(v: ByteView) -> bool {
    &&& v.length == 0
    &&& forall|k: int| 0 <= k < 12 ==> v.inline@[k] == 0u8
}

impl ByteView {
    /// The zero view used for null rows.
    pub fn new_zero() -> (v: ByteView)
        ensures
            is_zero_view(v),
            v.length == 0,
    {
        let v = ByteView {
            length: 0,
            prefix: [0u8; 4],
            buffer_idx: 0,
            offset: 0,
            inline: [0u8; 12],
        };
        v
    }
}

/// The 16-byte little-endian layout of a view, as downstream readers consume
/// it: 4 length bytes, then for an inline view the 12 zero-padded value
/// bytes, and for an out-of-line view the 4 prefix bytes, 4 buffer-index
/// bytes and 4 offset bytes.
pub open spec fn spec_view_le_bytes(v: ByteView) -> Seq<u8> {
    if v.length <= MAX_INLINE_LENGTH {
        vstd::bytes::spec_u32_to_le_bytes(v.length) + v.inline@
    } else {
        vstd::bytes::spec_u32_to_le_bytes(v.length) + v.prefix@ + vstd::bytes::spec_u32_to_le_bytes(
            v.buffer_idx,
        ) + vstd::bytes::spec_u32_to_le_bytes(v.offset)
    }
}

impl ByteView {
    /// The view's fixed-width on-disk form.
    pub fn to_le_bytes(&self) -> (r: Vec<u8>)
        ensures
            r@ == spec_view_le_bytes(*self),
            r@.len() == 16,
    {
        proof {
            vstd::bytes::lemma_auto_spec_u32_to_from_le_bytes();
        }
        let mut r = vstd::bytes::u32_to_le_bytes(self.length);
        if self.length <= MAX_INLINE_LENGTH {
            let mut k: usize = 0;
            while k < 12
                invariant
                    k <= 12,
                    r@ == vstd::bytes::spec_u32_to_le_bytes(self.length) + self.inline@.subrange(
                        0,
                        k as int,
                    ),
                decreases 12 - k,
            {
                r.push(self.inline[k]);
                proof {
                    assert(r@ =~= vstd::bytes::spec_u32_to_le_bytes(self.length)
                        + self.inline@.subrange(0, k + 1));
                }
                k = k + 1;
            }
            proof {
                assert(self.inline@.subrange(0, 12) =~= self.inline@);
            }
        } else {
            let mut k: usize = 0;
            while k < 4
                invariant
                    k <= 4,
                    r@ == vstd::bytes::spec_u32_to_le_bytes(self.length) + self.prefix@.subrange(
                        0,
                        k as int,
                    ),
                decreases 4 - k,
            {
                r.push(self.prefix[k]);
                proof {
                    assert(r@ =~= vstd::bytes::spec_u32_to_le_bytes(self.length)
                        + self.prefix@.subrange(0, k + 1));
                }
                k = k + 1;
            }
            proof {
                assert(self.prefix@.subrange(0, 4) =~= self.prefix@);
            }
            let mut idx_bytes = vstd::bytes::u32_to_le_bytes(self.buffer_idx);
            r.append(&mut idx_bytes);
            let mut off_bytes = vstd::bytes::u32_to_le_bytes(self.offset);
            r.append(&mut off_bytes);
        }
        r
    }
}

impl Default for ByteView {
    fn default() -> (v: ByteView)
        ensures
            is_zero_view(v),
            v.length == 0,
    {
        ByteView::new_zero()
    }
}

/// A zero view is well formed in any addressing space and denotes no bytes.
pub proof fn lemma_zero_view_ok(v: ByteView, bufs: Seq<Seq<u8>>)
    requires
        is_zero_view(v),
    ensures
        view_ok_in(v, bufs),
        view_bytes_in(v, bufs) == Seq::<u8>::empty(),
{
    assert(view_bytes_in(v, bufs) =~= Seq::<u8>::empty());
}

/// Growing the arena never disturbs a view that was already well formed:
/// as long as every buffer it could point at keeps its old bytes as a
/// prefix (new buffers may appear after them), the view stays well formed
/// and denotes the same bytes.
pub proof fn lemma_view_stable(v: ByteView, bufs1: Seq<Seq<u8>>, bufs2: Seq<Seq<u8>>)
    requires
        view_ok_in(v, bufs1),
        bufs1.len() <= bufs2.len(),
        forall|i: int| 0 <= i < bufs1.len() ==> (#[trigger] bufs1[i]).is_prefix_of(bufs2[i]),
    ensures
        view_ok_in(v, bufs2),
        view_bytes_in(v, bufs2) == view_bytes_in(v, bufs1),
{
    if v.length > MAX_INLINE_LENGTH {
        let b = v.buffer_idx as int;
        assert(bufs1[b].is_prefix_of(bufs2[b]));
        assert forall|k: int| 0 <= k < bufs1[b].len() implies bufs1[b][k] == bufs2[b][k] by {
            assert(bufs1[b][k] == bufs2[b].subrange(0, bufs1[b].len() as int)[k]);
        }
        assert(bufs2[b].subrange(v.offset as int, v.offset as int + v.length as int)
            =~= bufs1[b].subrange(v.offset as int, v.offset as int + v.length as int));
        assert(bufs2[b].subrange(v.offset as int, v.offset as int + 4) =~= bufs1[b].subrange(
            v.offset as int,
            v.offset as int + 4,
        ));
    }
}

} // verus!

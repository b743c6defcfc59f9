//! Where a typed array view lies in its buffer, and copying values into a
//! typed array at an offset (`TypedArray.prototype.set`).
use vstd::prelude::*;

verus! {

/// Why a view over an ArrayBuffer is refused (each a RangeError).
#[derive(Clone, Copy, Debug, PartialEq, Eq, Structural)]
pub enum ViewError {
    /// The byte offset is not a multiple of the element size.
    MisalignedOffset,
    /// No length was given and the buffer's length is not a multiple of
    /// the element size.
    MisalignedBuffer,
    /// No length was given and the offset lies past the buffer's end.
    OffsetOutOfBounds,
    /// The given length does not fit in the buffer after the offset.
    InvalidLength,
}

/// Where a view lies in its buffer.
#[derive(Clone, Copy, Debug, PartialEq, Eq, Structural)]
pub struct ViewLayout {
    pub byte_offset: u64,
    pub byte_length: u64,
    /// The number of elements.
    pub length: u64,
}

/// The element sizes of the typed array kinds.
pub open spec fn valid_element_size(size: u64) -> bool {
    size == 1 || size == 2 || size == 4 || size == 8
}

/// InitializeTypedArrayFromArrayBuffer: a view of `size`-byte elements at
/// byte `offset` of a `buf_len`-byte buffer, `length` elements long (to the
/// end of the buffer when `None`).
pub open spec fn view_layout_spec(buf_len: u64, offset: u64, length: Option<u64>, size: u64) -> Result<ViewLayout, ViewError> {
    if offset % size != 0 {
        Err(ViewError::MisalignedOffset)
    } else {
        match length {
            None => if buf_len % size != 0 {
                Err(ViewError::MisalignedBuffer)
            } else if buf_len < offset {
                Err(ViewError::OffsetOutOfBounds)
            } else {
                Ok(
                    ViewLayout {
                        byte_offset: offset,
                        byte_length: (buf_len - offset) as u64,
                        length: ((buf_len - offset) / (size as int)) as u64,
                    },
                )
            },
            Some(n) => if offset + n * size > buf_len {
                Err(ViewError::InvalidLength)
            } else {
                Ok(ViewLayout { byte_offset: offset, byte_length: (n * size) as u64, length: n })
            },
        }
    }
}

/// The message of the RangeError a refused view throws.
pub open spec fn view_error_message(e: ViewError) -> Seq<char> {
    match e {
        ViewError::MisalignedOffset => "Start offset of Uint8Array should be a multiple of 1"@,
        ViewError::MisalignedBuffer => "Attempting to construct an invalid TypedArray"@,
        ViewError::OffsetOutOfBounds => "Start offset is outside the bounds of the buffer"@,
        ViewError::InvalidLength => "Invalid typed array length"@,
    }
}

impl ViewError {
    /// The message of the RangeError this refusal throws.
    pub fn message(&self) -> (r: &'static str)
        ensures
            r@ == view_error_message(*self),
    {
        match self {
            ViewError::MisalignedOffset => "Start offset of Uint8Array should be a multiple of 1",
            ViewError::MisalignedBuffer => "Attempting to construct an invalid TypedArray",
            ViewError::OffsetOutOfBounds => "Start offset is outside the bounds of the buffer",
            ViewError::InvalidLength => "Invalid typed array length",
        }
    }
}

/// Where a view of `size`-byte elements at byte `offset` of a
/// `buf_len`-byte buffer lies, `length` elements long or to the end of the
/// buffer; offsets and lengths are array indices (at most 2^53 - 1).
pub fn buffer_view_layout(buf_len: u64, offset: u64, length: Option<u64>, size: u64) -> (r: Result<ViewLayout, ViewError>)
    requires
        valid_element_size(size),
        buf_len <= 9007199254740991,
        offset <= 9007199254740991,
        length matches Some(n) ==> n <= 9007199254740991,
    ensures
        r == view_layout_spec(buf_len, offset, length, size),
{
    if offset % size != 0 {
        return Err(ViewError::MisalignedOffset);
    }
    match length {
        None => {
            if buf_len % size != 0 {
                return Err(ViewError::MisalignedBuffer);
            }
            if buf_len < offset {
                return Err(ViewError::OffsetOutOfBounds);
            }
            let byte_length = buf_len - offset;
            Ok(ViewLayout { byte_offset: offset, byte_length, length: byte_length / size })
        },
        Some(n) => {
            assert(n * size <= 9007199254740991 * 8) by (nonlinear_arith)
                requires
                    n <= 9007199254740991,
                    size <= 8,
            ;
            let nb = n * size;
            if offset + nb > buf_len {
                return Err(ViewError::InvalidLength);
            }
            Ok(ViewLayout { byte_offset: offset, byte_length: nb, length: n })
        },
    }
}

/// An accepted view lies inside its buffer, starts on an element boundary,
/// and spans exactly its elements.
pub proof fn law_view_inside_buffer(buf_len: u64, offset: u64, length: Option<u64>, size: u64)
    requires
        valid_element_size(size),
    ensures
        view_layout_spec(buf_len, offset, length, size) matches Ok(v) ==> {
            &&& v.byte_offset + v.byte_length <= buf_len
            &&& v.byte_offset % size == 0
            &&& v.byte_length == v.length * size
        },
{
    if offset % size == 0 && length is None && buf_len % size == 0 && buf_len >= offset {
        let d = buf_len - offset;
        assert(d % (size as int) == 0) by (nonlinear_arith)
            requires
                offset % size == 0,
                buf_len % size == 0,
                d == buf_len - offset,
                size > 0,
        {
            assert(offset == (offset / size) * size + offset % size);
            assert(buf_len == (buf_len / size) * size + buf_len % size);
            assert(d == (buf_len / size - offset / size) * size);
        }
        assert(d == (d / (size as int)) * size) by (nonlinear_arith)
            requires
                d % (size as int) == 0,
                size > 0,
                d >= 0,
        ;
    }
}

/// Why `set` refuses to copy (a RangeError, "Offset is out of bounds").
#[derive(Clone, Copy, Debug, PartialEq, Eq, Structural)]
pub enum SetError {
    OutOfBounds,
}

/// The message of the error this refusal throws.
pub open spec fn set_error_message(e: SetError) -> Seq<char> {
    match e {
        SetError::OutOfBounds => "Offset is out of bounds"@,
    }
}

impl SetError {
    /// The message of the error this refusal throws.
    pub fn message(&self) -> (r: &'static str)
        ensures
            r@ == set_error_message(*self),
    {
        match self {
            SetError::OutOfBounds => "Offset is out of bounds",
        }
    }
}

/// `target` with `source` written from position `offset` on.
pub open spec fn set_spec<T>(target: Seq<T>, offset: int, source: Seq<T>) -> Seq<T> {
    Seq::new(target.len(), |t: int| if offset <= t < offset + source.len() { source[t - offset] } else { target[t] })
}

/// `TypedArray.prototype.set` on element values already converted to the
/// target's kind: the source must fit in the target from `offset` on.
pub fn set_elements<T: Copy>(target: &mut Vec<T>, offset: usize, source: &[T]) -> (r: Result<(), SetError>)
    requires
        offset + source@.len() <= usize::MAX,
    ensures
        (r is Err) == (source@.len() + offset > old(target)@.len()),
        r is Ok ==> final(target)@ == set_spec(old(target)@, offset as int, source@),
        r is Err ==> final(target)@ == old(target)@,
{
    if source.len() + offset > target.len() {
        return Err(SetError::OutOfBounds);
    }
    let ghost t0 = target@;
    let mut i: usize = 0;
    while i < source.len()
        invariant
            i <= source@.len(),
            offset + source@.len() <= t0.len(),
            target.len() == t0.len(),
            forall|p: int| 0 <= p < t0.len() ==> #[trigger] target@[p] == (if offset <= p < offset + i {
                source@[p - offset]
            } else {
                t0[p]
            }),
        decreases source.len() - i,
    {
        target.set(offset + i, source[i]);
        i = i + 1;
    }
    assert(target@ =~= set_spec(t0, offset as int, source@));
    Ok(())
}

} // verus!

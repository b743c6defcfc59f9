use rune_interpreter::typed_layout::{buffer_view_layout, set_elements, SetError, ViewError, ViewLayout};

#[test]
fn test_view_layout_to_end() {
    assert_eq!(
        buffer_view_layout(16, 4, None, 4),
        Ok(ViewLayout { byte_offset: 4, byte_length: 12, length: 3 })
    );
    assert_eq!(
        buffer_view_layout(16, 16, None, 8),
        Ok(ViewLayout { byte_offset: 16, byte_length: 0, length: 0 })
    );
    assert_eq!(buffer_view_layout(16, 2, None, 4), Err(ViewError::MisalignedOffset));
    assert_eq!(buffer_view_layout(10, 0, None, 4), Err(ViewError::MisalignedBuffer));
    assert_eq!(buffer_view_layout(16, 24, None, 8), Err(ViewError::OffsetOutOfBounds));
    assert_eq!(
        ViewError::OffsetOutOfBounds.message(),
        "Start offset is outside the bounds of the buffer"
    );
}

#[test]
fn test_view_layout_with_length() {
    assert_eq!(
        buffer_view_layout(16, 8, Some(2), 4),
        Ok(ViewLayout { byte_offset: 8, byte_length: 8, length: 2 })
    );
    assert_eq!(buffer_view_layout(16, 8, Some(3), 4), Err(ViewError::InvalidLength));
    // the length is checked even when the buffer is misaligned
    assert_eq!(
        buffer_view_layout(10, 0, Some(2), 4),
        Ok(ViewLayout { byte_offset: 0, byte_length: 8, length: 2 })
    );
    assert_eq!(ViewError::InvalidLength.message(), "Invalid typed array length");
}

#[test]
fn test_set_elements() {
    let mut t = vec![0u8; 5];
    assert_eq!(set_elements(&mut t, 1, &[7, 8, 9]), Ok(()));
    assert_eq!(t, vec![0, 7, 8, 9, 0]);
    assert_eq!(set_elements(&mut t, 3, &[1, 2, 3]), Err(SetError::OutOfBounds));
    assert_eq!(t, vec![0, 7, 8, 9, 0]);
    assert_eq!(set_elements(&mut t, 5, &[]), Ok(()));
    assert_eq!(set_elements(&mut t, 6, &[]), Err(SetError::OutOfBounds));
}

#[test]
fn test_set_error_message() {
    assert_eq!(SetError::OutOfBounds.message(), "Offset is out of bounds");
}

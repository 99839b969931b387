use supervisor_schema::framing::{append_frame, split_frames};

#[test]
fn append_frame_writes_length_then_item() {
    let mut out = vec![9u8];
    append_frame(&mut out, b"hey");
    assert_eq!(out, vec![9, 3, 0, 0, 0, 0, 0, 0, 0, b'h', b'e', b'y']);
    append_frame(&mut out, b"");
    assert_eq!(out.len(), 20);
    assert_eq!(&out[12..], &[0u8; 8]);
}

#[test]
fn split_frames_reads_items_in_order() {
    let mut bytes = Vec::new();
    append_frame(&mut bytes, b"second");
    append_frame(&mut bytes, b"first");
    append_frame(&mut bytes, b"");
    assert_eq!(
        split_frames(&bytes),
        vec![b"second".to_vec(), b"first".to_vec(), Vec::new()]
    );
}

#[test]
fn split_frames_of_nothing_is_empty() {
    assert!(split_frames(&[]).is_empty());
}

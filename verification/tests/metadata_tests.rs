use sledgehammer_bindgen::metadata::{update_memory_size, update_metadata_ptrs};

#[test]
fn a_new_reader_is_created_and_flagged() {
    let u = update_metadata_ptrs(None, 0, 4096, 64);
    assert_eq!(u.create, Some(64));
    assert_eq!(u.stored_msg_ptr, 4096);
    assert!(u.msg_moved);
}

#[test]
fn unmoved_message_keeps_the_flag_down() {
    let u = update_metadata_ptrs(Some(64), 4096, 4096, 64);
    assert_eq!(u.create, None);
    assert_eq!(u.stored_msg_ptr, 4096);
    assert!(!u.msg_moved);
}

#[test]
fn moved_message_is_stored_and_flagged() {
    let u = update_metadata_ptrs(Some(64), 4096, 8192, 64);
    assert_eq!(u.create, None);
    assert_eq!(u.stored_msg_ptr, 8192);
    assert!(u.msg_moved);
}

#[test]
fn a_reader_holding_another_buffer_is_created_again() {
    let u = update_metadata_ptrs(Some(128), 4096, 4096, 64);
    assert_eq!(u.create, Some(64));
    assert_eq!(u.stored_msg_ptr, 4096);
    assert!(u.msg_moved);
}

#[test]
fn each_buffer_runs_its_own_message() {
    // Two buffers with metadata at 64 and 128 flush in turn; the reader keeps
    // the metadata and the message pointer it last read.
    let mut reader_metadata: Option<u32> = None;
    let mut kept = 0u32;
    let mut stored = [0u32, 0u32];
    let metadata = [64u32, 128u32];
    let flushes = [(0usize, 100u32), (1, 500), (0, 100), (0, 200), (1, 500), (1, 600)];
    for &(b, msg_ptr) in flushes.iter() {
        let u = update_metadata_ptrs(reader_metadata, stored[b], msg_ptr, metadata[b]);
        if let Some(ptr) = u.create {
            reader_metadata = Some(ptr);
        }
        if u.msg_moved {
            kept = u.stored_msg_ptr;
        }
        stored[b] = u.stored_msg_ptr;
        assert_eq!(kept, msg_ptr);
        assert_eq!(reader_metadata, Some(metadata[b]));
    }
}

#[test]
fn memory_is_handed_over_only_when_its_size_changed() {
    assert_eq!(update_memory_size(0, 17), (true, 17));
    assert_eq!(update_memory_size(17, 17), (false, 17));
    assert_eq!(update_memory_size(17, 18), (true, 18));
}

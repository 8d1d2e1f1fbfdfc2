use bfinder::classify::{classify_stat, EntryMetadata};

#[test]
fn regular_file_mode_is_classified_with_size() {
    assert_eq!(
        classify_stat(0o100644, 500),
        EntryMetadata::RegularFile { size: 500 }
    );
    assert_eq!(
        classify_stat(0o100755, 0),
        EntryMetadata::RegularFile { size: 0 }
    );
}

#[test]
fn directory_mode_is_classified_directory() {
    assert_eq!(classify_stat(0o040755, 0), EntryMetadata::Directory);
    assert_eq!(classify_stat(0o040000, 4096), EntryMetadata::Directory);
}

#[test]
fn symlink_mode_is_other_never_a_file() {
    // A symlink to an enormous file must not look like a regular file.
    assert_eq!(classify_stat(0o120777, u64::MAX), EntryMetadata::Other);
}

#[test]
fn device_socket_and_fifo_modes_are_other() {
    assert_eq!(classify_stat(0o020644, 9), EntryMetadata::Other); // char device
    assert_eq!(classify_stat(0o060644, 9), EntryMetadata::Other); // block device
    assert_eq!(classify_stat(0o140755, 9), EntryMetadata::Other); // socket
    assert_eq!(classify_stat(0o010644, 9), EntryMetadata::Other); // fifo
}

use wgpu_3dgs_editor::buffer::SelectionBuffer;
use wgpu_3dgs_editor::buffer::word_count_for;
use wgpu_3dgs_editor::error::Error;

fn fresh_word_count(n: u32) -> usize {
    SelectionBuffer::new(n).word_count()
}

#[test]
fn word_count_is_ceiling_of_element_count() {
    assert_eq!(fresh_word_count(0), 0);
    assert_eq!(fresh_word_count(1), 1);
    assert_eq!(fresh_word_count(31), 1);
    assert_eq!(fresh_word_count(32), 1);
    assert_eq!(fresh_word_count(33), 2);
    assert_eq!(fresh_word_count(64), 2);
    assert_eq!(fresh_word_count(65), 3);
    assert_eq!(fresh_word_count(10000), 313);
    assert_eq!(fresh_word_count(u32::MAX), 134217728);
    assert_eq!(word_count_for(10000), 313);
}

#[test]
fn fresh_buffer_downloads_all_zero_words() {
    for n in [0u32, 1, 31, 32, 33, 10000] {
        let buf = SelectionBuffer::new(n);
        let words = buf.download().expect("download of a fresh buffer");
        assert_eq!(words.len(), word_count_for(n));
        assert!(words.iter().all(|w| *w == 0));
    }
}

#[test]
fn get_and_set_single_bits() {
    let mut buf = SelectionBuffer::new(70);
    assert!(!buf.get(0));
    buf.set(0, true);
    buf.set(33, true);
    buf.set(69, true);
    assert!(buf.get(0));
    assert!(buf.get(33));
    assert!(buf.get(69));
    assert!(!buf.get(1));
    assert!(!buf.get(32));
    assert!(!buf.get(68));
    buf.set(33, false);
    assert!(!buf.get(33));
    let words = buf.download().expect("download");
    assert_eq!(words[0], 1);
    assert_eq!(words[1], 0);
    assert_eq!(words[2], 1 << 5);
}

#[test]
fn count_ones_counts_element_bits() {
    let mut buf = SelectionBuffer::new(100);
    assert_eq!(buf.count_ones(), 0);
    for i in [0u32, 5, 31, 32, 64, 99] {
        buf.set(i, true);
    }
    assert_eq!(buf.count_ones(), 6);
    buf.set(5, false);
    assert_eq!(buf.count_ones(), 5);
}

#[test]
fn from_words_keeps_the_words() {
    let words = vec![0xdeadbeefu32, 0x12345678, 0x0000ffff];
    let buf = SelectionBuffer::from_words(96, words.clone());
    assert_eq!(buf.element_count(), 96);
    assert_eq!(buf.download().expect("download"), words);
}

#[test]
fn from_mapped_bytes_decodes_little_endian_words() {
    let bytes = vec![0x78u8, 0x56, 0x34, 0x12, 0xff, 0x00, 0x00, 0x80];
    let buf = SelectionBuffer::from_mapped_bytes(64, &bytes).expect("well-sized mapping");
    let words = buf.download().expect("download");
    assert_eq!(words, vec![0x12345678u32, 0x800000ff]);
}

#[test]
fn from_mapped_bytes_rejects_wrong_sizes() {
    let bytes = vec![0u8; 7];
    assert!(matches!(
        SelectionBuffer::from_mapped_bytes(64, &bytes),
        Err(Error::MapFailed)
    ));
    let bytes = vec![0u8; 8];
    assert!(matches!(
        SelectionBuffer::from_mapped_bytes(65, &bytes),
        Err(Error::MapFailed)
    ));
    assert!(SelectionBuffer::from_mapped_bytes(64, &bytes).is_ok());
}

#[test]
fn error_messages_name_the_failure() {
    assert_eq!(Error::PollFailed.message(), "device poll failed");
    assert_eq!(Error::MapFailed.message(), "buffer mapping failed");
    assert_eq!(Error::DeviceLost.message(), "device lost");
}

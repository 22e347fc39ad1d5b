use knn_ocr::idx::{be_bytes_to_u32, labeled_data_from_bytes, IdxError, DATA_MAGIC, LABEL_MAGIC};

fn be(v: u32) -> Vec<u8> {
    v.to_be_bytes().to_vec()
}

fn data_file(n: u32, rows: u32, cols: u32, pixels: &[u8]) -> Vec<u8> {
    let mut d = be(DATA_MAGIC);
    d.extend(be(n));
    d.extend(be(rows));
    d.extend(be(cols));
    d.extend_from_slice(pixels);
    d
}

fn label_file(n: u32, labels: &[u8]) -> Vec<u8> {
    let mut l = be(LABEL_MAGIC);
    l.extend(be(n));
    l.extend_from_slice(labels);
    l
}

#[test]
fn be_bytes_to_u32_reads_big_endian() {
    assert_eq!(be_bytes_to_u32(&[0x00, 0x00, 0x08, 0x03]), 0x803);
    assert_eq!(be_bytes_to_u32(&[0x12, 0x34, 0x56, 0x78, 0xff]), 0x1234_5678);
    assert_eq!(be_bytes_to_u32(&[0xff, 0xff, 0xff, 0xff]), u32::MAX);
}

#[test]
fn decodes_images_and_labels_in_order() {
    let pixels = [1u8, 2, 3, 4, 5, 6, 7, 8, 9, 10, 11, 12];
    let data = data_file(3, 2, 2, &pixels);
    let labels = label_file(3, &[7, 0, 9]);
    let items = labeled_data_from_bytes(&data, &labels).unwrap();
    assert_eq!(items.len(), 3);
    assert_eq!(items[0].features, vec![1, 2, 3, 4]);
    assert_eq!(items[0].label, 7);
    assert_eq!(items[1].features, vec![5, 6, 7, 8]);
    assert_eq!(items[1].label, 0);
    assert_eq!(items[2].features, vec![9, 10, 11, 12]);
    assert_eq!(items[2].label, 9);
}

#[test]
fn extra_bytes_after_the_last_item_are_ignored() {
    let data = data_file(1, 1, 3, &[4, 5, 6, 99, 99]);
    let labels = label_file(1, &[3, 8, 8]);
    let items = labeled_data_from_bytes(&data, &labels).unwrap();
    assert_eq!(items.len(), 1);
    assert_eq!(items[0].features, vec![4, 5, 6]);
    assert_eq!(items[0].label, 3);
}

#[test]
fn empty_data_sets_decode_to_nothing() {
    let items = labeled_data_from_bytes(&data_file(0, 28, 28, &[]), &label_file(0, &[])).unwrap();
    assert!(items.is_empty());
}

#[test]
fn short_headers_are_refused() {
    let labels = label_file(1, &[1]);
    assert_eq!(labeled_data_from_bytes(&[0, 0, 8], &labels).err(), Some(IdxError::TooShort));
    let data = data_file(1, 1, 1, &[1]);
    assert_eq!(labeled_data_from_bytes(&data, &[0, 0]).err(), Some(IdxError::TooShort));
    assert_eq!(labeled_data_from_bytes(&data[..6], &labels).err(), Some(IdxError::TooShort));
    assert_eq!(labeled_data_from_bytes(&data[..12], &labels).err(), Some(IdxError::TooShort));
}

#[test]
fn wrong_magic_numbers_are_refused() {
    let data = data_file(1, 1, 1, &[1]);
    let labels = label_file(1, &[1]);
    assert_eq!(labeled_data_from_bytes(&labels, &labels).err(), Some(IdxError::BadDataMagic));
    assert_eq!(labeled_data_from_bytes(&data, &data).err(), Some(IdxError::BadLabelMagic));
}

#[test]
fn differing_counts_are_refused() {
    let data = data_file(2, 1, 1, &[1, 2]);
    let labels = label_file(3, &[1, 2, 3]);
    assert_eq!(labeled_data_from_bytes(&data, &labels).err(), Some(IdxError::CountMismatch));
}

#[test]
fn truncated_files_are_refused() {
    let data = data_file(2, 2, 2, &[1, 2, 3, 4, 5, 6, 7]);
    let labels = label_file(2, &[1, 2]);
    assert_eq!(labeled_data_from_bytes(&data, &labels).err(), Some(IdxError::Truncated));
    let data = data_file(2, 2, 2, &[1, 2, 3, 4, 5, 6, 7, 8]);
    let labels = label_file(2, &[1]);
    assert_eq!(labeled_data_from_bytes(&data, &labels).err(), Some(IdxError::Truncated));
}

#[test]
fn image_size_overflow_is_refused() {
    if usize::BITS == 32 {
        let data = data_file(1, 0x10000, 0x10000, &[]);
        let labels = label_file(1, &[1]);
        assert_eq!(labeled_data_from_bytes(&data, &labels).err(), Some(IdxError::SizeOverflow));
    } else {
        let data = data_file(1, 0x10000, 0x10000, &[]);
        let labels = label_file(1, &[1]);
        assert_eq!(labeled_data_from_bytes(&data, &labels).err(), Some(IdxError::Truncated));
    }
}

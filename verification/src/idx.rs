//! Decoding of the IDX file pair (images and labels) used by the MNIST data set.

use vstd::prelude::*;

verus! {

/// One image of the data set: its pixels and the digit it shows.
pub struct LabeledFeatures {
    /// feature set
    pub features: Vec<u8>,
    /// classification of feature set
    pub label: u8,
}

/// The big-endian value of the four bytes `b[at..at + 4]`.
pub open spec fn be_u32_at(b: Seq<u8>, at: int) -> int {
    b[at] * 0x100_0000 + b[at + 1] * 0x1_0000 + b[at + 2] * 0x100 + b[at + 3]
}

/// Reads the first four bytes of `bytes` as a big-endian `u32`.
pub fn be_bytes_to_u32(bytes: &[u8]) -> (r: u32)
    requires
        bytes.len() >= 4,
    ensures
        r == be_u32_at(bytes@, 0),
{
    let b0 = bytes[0];
    let b1 = bytes[1];
    let b2 = bytes[2];
    let b3 = bytes[3];
    let r: u32 = ((b0 as u32) << 24) | ((b1 as u32) << 16) | ((b2 as u32) << 8) | ((b3 as u32) << 0);
    assert(r == b0 * 0x100_0000 + b1 * 0x1_0000 + b2 * 0x100 + b3) by (bit_vector)
        requires
            r == ((b0 as u32) << 24) | ((b1 as u32) << 16) | ((b2 as u32) << 8) | ((b3 as u32) << 0),
    ;
    r
}


/// Magic number at the start of an IDX image file.
pub const DATA_MAGIC: u32 = 0x803;

/// Magic number at the start of an IDX label file.
pub const LABEL_MAGIC: u32 = 0x801;

/// Why a pair of IDX files cannot be decoded.
#[derive(Clone, Copy, PartialEq, Eq, Debug)]
pub enum IdxError {
    /// A file ends inside its header.
    TooShort,
    /// The image file does not start with `DATA_MAGIC`.
    BadDataMagic,
    /// The label file does not start with `LABEL_MAGIC`.
    BadLabelMagic,
    /// The two files count a different number of items.
    CountMismatch,
    /// The number of pixels of one image does not fit in a `usize`.
    SizeOverflow,
    /// A file ends before the last item it announces.
    Truncated,
}

/// Number of images announced by the image file.
pub open spec fn image_count(data: Seq<u8>) -> int {
    be_u32_at(data, 4)
}

/// Number of pixels of each image announced by the image file (rows times columns).
pub open spec fn pixel_count(data: Seq<u8>) -> int {
    be_u32_at(data, 8) * be_u32_at(data, 12)
}

/// The error, if any, met when decoding `data` and `labels`, checks taken in this order.
pub open spec fn idx_error(data: Seq<u8>, labels: Seq<u8>) -> Option<IdxError> {
    if data.len() < 4 || labels.len() < 4 {
        Some(IdxError::TooShort)
    } else if be_u32_at(data, 0) != DATA_MAGIC {
        Some(IdxError::BadDataMagic)
    } else if be_u32_at(labels, 0) != LABEL_MAGIC {
        Some(IdxError::BadLabelMagic)
    } else if data.len() < 8 || labels.len() < 8 {
        Some(IdxError::TooShort)
    } else if image_count(data) != be_u32_at(labels, 4) {
        Some(IdxError::CountMismatch)
    } else if data.len() < 16 {
        Some(IdxError::TooShort)
    } else if pixel_count(data) > usize::MAX {
        Some(IdxError::SizeOverflow)
    } else if 16 + image_count(data) * pixel_count(data) > data.len() || 8 + image_count(data)
        > labels.len() {
        Some(IdxError::Truncated)
    } else {
        None
    }
}

/// Image `i` of a well-formed pair of files: its pixels and its label.
pub open spec fn idx_item_ok(data: Seq<u8>, labels: Seq<u8>, i: int, item: LabeledFeatures) -> bool {
    let p = pixel_count(data);
    &&& item.features@ == data.subrange(16 + i * p, 16 + (i + 1) * p)
    &&& item.label == labels[8 + i]
}

proof fn lemma_image_offsets(i: int, n: int, p: int)
    requires
        0 <= i < n,
        0 <= p,
    ensures
        16 + i * p + p == 16 + (i + 1) * p,
        16 + (i + 1) * p <= 16 + n * p,
        0 <= i * p,
{
    assert((i + 1) * p == i * p + p) by (nonlinear_arith);
    assert((i + 1) * p <= n * p) by (nonlinear_arith)
        requires
            i + 1 <= n,
            0 <= p,
    ;
    assert(0 <= i * p) by (nonlinear_arith)
        requires
            0 <= i,
            0 <= p,
    ;
}

/// Image `i` of a well-formed pair holds the label byte at offset `8 + i` of the label
/// file, and as pixel `j` the byte at offset `16 + i * p + j` of the image file, where `p`
/// is the number of pixels per image.
pub proof fn lemma_idx_item_bytes(data: Seq<u8>, labels: Seq<u8>, i: int, item: LabeledFeatures)
    requires
        0 <= i,
        16 + (i + 1) * pixel_count(data) <= data.len(),
        idx_item_ok(data, labels, i, item),
    ensures
        item.label == labels[8 + i],
        item.features@.len() == pixel_count(data),
        forall|j: int|
            0 <= j < pixel_count(data) ==> item.features@[j] == data[16 + i * pixel_count(data) + j],
{
    let p = pixel_count(data);
    assert(0 <= p) by (nonlinear_arith)
        requires
            p == be_u32_at(data, 8) * be_u32_at(data, 12),
            0 <= be_u32_at(data, 8),
            0 <= be_u32_at(data, 12),
    ;
    assert(16 + i * p + p == 16 + (i + 1) * p && 0 <= i * p) by (nonlinear_arith)
        requires
            0 <= i,
            0 <= p,
    ;
}

/// Decodes an IDX image file and its IDX label file into labeled feature vectors, one
/// per image, in file order.
pub fn labeled_data_from_bytes(data_bytes: &[u8], label_bytes: &[u8]) -> (r: Result<
    Vec<LabeledFeatures>,
    IdxError,
>)
    ensures
        match r {
            Ok(items) => {
                &&& idx_error(data_bytes@, label_bytes@) is None
                &&& items.len() == image_count(data_bytes@)
                &&& forall|i: int|
                    0 <= i < items.len() ==> idx_item_ok(
                        data_bytes@,
                        label_bytes@,
                        i,
                        #[trigger] items@[i],
                    )
                &&& forall|i: int|
                    0 <= i < items.len() ==> (#[trigger] items@[i]).label == label_bytes@[8 + i]
                        && items@[i].features@.len() == pixel_count(data_bytes@)
                        && forall|j: int|
                        0 <= j < pixel_count(data_bytes@) ==> items@[i].features@[j]
                            == data_bytes@[16 + i * pixel_count(data_bytes@) + j]
            },
            Err(e) => idx_error(data_bytes@, label_bytes@) == Some(e),
        },
{
    if data_bytes.len() < 4 || label_bytes.len() < 4 {
        return Err(IdxError::TooShort);
    }
    if be_bytes_to_u32(data_bytes) != DATA_MAGIC {
        return Err(IdxError::BadDataMagic);
    }
    if be_bytes_to_u32(label_bytes) != LABEL_MAGIC {
        return Err(IdxError::BadLabelMagic);
    }
    if data_bytes.len() < 8 || label_bytes.len() < 8 {
        return Err(IdxError::TooShort);
    }
    let n_images = be_bytes_to_u32(&data_bytes[4..8]);
    let n_labels = be_bytes_to_u32(&label_bytes[4..8]);
    assert(data_bytes@.subrange(4, 8)[0] == data_bytes@[4]);
    if n_images != n_labels {
        return Err(IdxError::CountMismatch);
    }
    if data_bytes.len() < 16 {
        return Err(IdxError::TooShort);
    }
    let n_rows = be_bytes_to_u32(&data_bytes[8..12]);
    let n_cols = be_bytes_to_u32(&data_bytes[12..16]);
    let n = n_images as usize;
    let rows = n_rows as usize;
    let cols = n_cols as usize;
    let n_pixels = match rows.checked_mul(cols) {
        Some(p) => p,
        None => {
            return Err(IdxError::SizeOverflow);
        },
    };
    let data_len = data_bytes.len();
    let label_start: usize = 8;
    let data_start: usize = 16;
    let room: usize = data_len - data_start;
    if n > label_bytes.len() - label_start || (n > 0 && n_pixels > 0 && n > room / n_pixels) {
        proof {
            if n > 0 && n_pixels > 0 && n > room / n_pixels {
                assert(n * n_pixels > room) by (nonlinear_arith)
                    requires
                        n > room / n_pixels,
                        n_pixels > 0,
                ;
            }
        }
        return Err(IdxError::Truncated);
    }
    proof {
        if n > 0 && n_pixels > 0 {
            assert(n * n_pixels <= room) by (nonlinear_arith)
                requires
                    n <= room / n_pixels,
                    n_pixels > 0,
            ;
        } else {
            assert(n * n_pixels == 0) by (nonlinear_arith)
                requires
                    n == 0 || n_pixels == 0,
            ;
        }
    }
    let mut results: Vec<LabeledFeatures> = Vec::new();
    for i in 0..n
        invariant
            n == image_count(data_bytes@),
            n_pixels == pixel_count(data_bytes@),
            data_len == data_bytes.len(),
            data_start == 16,
            label_start == 8,
            16 + n * n_pixels <= data_len,
            8 + n <= label_bytes.len(),
            results.len() == i,
            forall|j: int|
                0 <= j < i ==> idx_item_ok(
                    data_bytes@,
                    label_bytes@,
                    j,
                    #[trigger] results@[j],
                ),
    {
        proof {
            lemma_image_offsets(i as int, n as int, n_pixels as int);
        }
        let start = data_start + i * n_pixels;
        let end = start + n_pixels;
        let pixels_slice = &data_bytes[start..end];
        let mut features: Vec<u8> = Vec::new();
        features.extend_from_slice(pixels_slice);
        assert(features@ =~= data_bytes@.subrange(start as int, end as int));
        let label = label_bytes[label_start + i];
        results.push(LabeledFeatures { features, label });
    }
    proof {
        assert forall|i: int| 0 <= i < results.len() implies (#[trigger] results@[i]).label
            == label_bytes@[8 + i] && results@[i].features@.len() == pixel_count(data_bytes@)
            && forall|j: int|
            0 <= j < pixel_count(data_bytes@) ==> results@[i].features@[j] == data_bytes@[16 + i
                * pixel_count(data_bytes@) + j] by {
            lemma_image_offsets(i, n as int, n_pixels as int);
            lemma_idx_item_bytes(data_bytes@, label_bytes@, i, results@[i]);
        }
    }
    Ok(results)
}

} // verus!

//! The SZIP filter.

use clawhdf5::builders::FormatError;
use clawhdf5::szip::{szip_decoded, szip_decompress, szip_params, SzipParams};

#[test]
fn szip_disabled_returns_unsupported() {
    let result = szip_decompress(&[], &[4, 8, 10, 0, 8], 64);
    assert!(
        matches!(result, Err(FormatError::UnsupportedFilter(4))),
        "expected UnsupportedFilter(4), got {result:?}"
    );
}

#[test]
fn szip_client_data_is_read() {
    assert_eq!(
        szip_params(&[1], &[0x04, 8, 10, 0, 16], 64),
        Ok(SzipParams {
            bits_per_sample: 16,
            block_size: 8,
            rsi: 128,
            preprocess: true,
            msb: true,
            allow_k13: false,
            output_size: 64,
        })
    );
    assert_eq!(
        szip_params(&[1], &[0x140, 32, 10, 0, 32], 1),
        Ok(SzipParams {
            bits_per_sample: 32,
            block_size: 32,
            rsi: 128,
            preprocess: false,
            msb: false,
            allow_k13: true,
            output_size: 1,
        })
    );
}

#[test]
fn szip_requests_are_checked_in_order() {
    let error = |text: &str| Err(FormatError::ChunkedReadError(text.to_string()));
    assert_eq!(szip_params(&[], &[0, 0, 0, 0], 0), error("szip: missing client data"));
    assert_eq!(szip_params(&[], &[0, 0, 0, 0, 0], 0), error("szip: invalid bits per sample"));
    assert_eq!(szip_params(&[], &[0, 0, 0, 0, 33], 0), error("szip: invalid bits per sample"));
    assert_eq!(szip_params(&[], &[0, 0, 0, 0, 8], 0), error("szip: unknown output size"));
    assert_eq!(szip_params(&[], &[0, 0, 0, 0, 8], 1), error("szip: empty input"));
}

#[test]
fn szip_output_is_cut() {
    assert_eq!(szip_decoded(0, vec![1, 2, 3, 4], 1), Ok(vec![1, 2, 3]));
    assert_eq!(szip_decoded(0, vec![1, 2], 2), Ok(vec![]));
    assert_eq!(
        szip_decoded(-3, vec![1, 2], 0),
        Err(FormatError::DecompressionError("szip: libaec error -3".to_string()))
    );
}

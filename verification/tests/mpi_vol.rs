//! The connector for MPI programs.

use clawhdf5::file_writer::FileWriter;
use clawhdf5::mpi_vol::{
    collective_file, collective_read, merge_shards, MpiVol, VolCapability, VolError,
};

#[test]
fn mpi_vol_no_feature_returns_unsupported() {
    let result = MpiVol::new_world();
    assert!(
        matches!(result, Err(VolError::Unsupported(_))),
        "expected Unsupported error without mpi-io feature"
    );
}

#[test]
fn mpi_vol_capabilities_include_parallel_io() {
    let caps = MpiVol::expected_capabilities();
    assert!(
        caps.contains(&VolCapability::ParallelIO),
        "expected ParallelIO in {caps:?}"
    );
    assert!(caps.contains(&VolCapability::ReadData));
    assert!(caps.contains(&VolCapability::WriteData));
}

#[test]
fn no_feature_error_contains_feature_name() {
    let e = MpiVol::new_world().unwrap_err();
    assert!(
        e.message().contains("mpi-io"),
        "error should mention 'mpi-io': {}",
        e.message()
    );
}

#[test]
fn files_are_opened_and_closed() {
    let mut vol = MpiVol { location: None };
    assert_eq!(vol.name(), "mpi-io");
    assert_eq!(vol.capabilities(), MpiVol::expected_capabilities());
    assert_eq!((vol.rank(), vol.size()), (0, 1));
    assert_eq!(vol.read_dataset("x"), Err(VolError::NotOpen));
    assert_eq!(vol.write_dataset("x", &[], &[0], "f64"), Err(VolError::NotOpen));
    vol.open("file.h5").unwrap();
    assert_eq!(vol.location.as_deref(), Some("file.h5"));
    let unsupported = VolError::Unsupported("mpi-io feature not enabled".to_string());
    assert_eq!(vol.read_dataset("x"), Err(unsupported));
    assert!(matches!(vol.write_dataset("x", &[], &[0], "f64"), Err(VolError::Unsupported(_))));
    vol.close().unwrap();
    assert_eq!(vol.location, None);
}

#[test]
fn collective_read_gives_the_dataset() {
    let values = [1.0f64, 2.0, 3.0, 4.0, 5.0];
    let bits: Vec<u64> = values.iter().map(|v| v.to_bits()).collect();
    let mut fw = FileWriter::new();
    fw.create_dataset("temperature").with_f64_bits(&bits);
    let bytes = fw.finish().unwrap();

    let data = collective_read(&bytes, "temperature").unwrap();
    assert_eq!(data.len(), 40);
    let got: Vec<f64> = data
        .chunks_exact(8)
        .map(|c| f64::from_le_bytes(c.try_into().unwrap()))
        .collect();
    assert_eq!(got, values);

    assert_eq!(
        collective_read(&bytes, "pressure"),
        Err(VolError::NotFound("pressure: no such object".to_string()))
    );
    assert_eq!(
        collective_read(&bytes, ""),
        Err(VolError::DataError("no datatype".to_string()))
    );
    assert_eq!(
        collective_read(&bytes[1..], "temperature"),
        Err(VolError::DataError("no superblock".to_string()))
    );
}

#[test]
fn collective_write_joins_the_pieces() {
    let shards: Vec<Vec<u8>> =
        (0..4).map(|rank| (rank as f64 * 10.0).to_le_bytes().to_vec()).collect();
    let merged = merge_shards(&shards);
    assert_eq!(merged.len(), 32);
    let bytes = collective_file("values", &merged, "f64").unwrap().finish().unwrap();
    let raw = collective_read(&bytes, "values").unwrap();
    let values: Vec<f64> = raw
        .chunks_exact(8)
        .map(|c| f64::from_le_bytes(c.try_into().unwrap()))
        .collect();
    assert_eq!(values, vec![0.0, 10.0, 20.0, 30.0]);
}

#[test]
fn collective_write_drops_a_broken_element() {
    let merged = merge_shards(&vec![vec![1, 2, 3], vec![4, 5, 6]]);
    let fw = collective_file("v", &merged, "f32").unwrap();
    assert_eq!((fw.alignment_threshold, fw.alignment_bytes), (0, 0));
    assert_eq!(fw.root_datasets[0].alignment, 0);
    let bytes = fw.finish().unwrap();
    assert_eq!(collective_read(&bytes, "v"), Ok(vec![1, 2, 3, 4]));
    let refused = collective_file("v", &merged, "i8").map(|_| ()).unwrap_err();
    assert_eq!(
        refused,
        VolError::Unsupported("mpi-io write: unsupported dtype i8".to_string())
    );
    assert_eq!(refused.message(), "unsupported: mpi-io write: unsupported dtype i8");
}

use qdplot::error::{CanvasError, DatasetError};

#[test]
fn canvas_errors_as_text() {
    assert_eq!(
        CanvasError::OutOfRange(String::from("(1, 2)")).to_string(),
        "Canvas Error: Out of range (1, 2)"
    );
    assert_eq!(CanvasError::NoData.to_string(), "Canvas Error: No Data");
}

#[test]
fn dataset_errors_as_text() {
    assert_eq!(DatasetError::NoData.to_string(), "Data Error: No data");
    assert_eq!(
        DatasetError::InvalidData(String::from("x1")).to_string(),
        "Data Error: Invalid Data: x1"
    );
}

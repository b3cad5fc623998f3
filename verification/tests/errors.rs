use libcsv::CsvError;

#[test]
fn messages() {
    assert_eq!(CsvError::NoHeaders.message(), "Invalid CSV: no headers found");
    assert_eq!(
        CsvError::HeaderNotFound("nonexistent".to_string()).message(),
        "Header 'nonexistent' not found in CSV file/string"
    );
    assert_eq!(
        CsvError::FieldNotFound("größe".to_string()).message(),
        "Row has no field for header 'größe'"
    );
}

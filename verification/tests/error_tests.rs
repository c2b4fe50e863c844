use flat_db::error::{ErrorSource, IoKind, TableError, TableOperation};

#[test]
fn operations_in_words() {
    let expected = [
        (TableOperation::ReadChunk, "read chunk", "ReadChunk"),
        (TableOperation::WriteChunk, "write chunk", "WriteChunk"),
        (TableOperation::ReadDir, "read directory", "ReadDir"),
        (TableOperation::ReadEntry, "read entry", "ReadEntry"),
        (TableOperation::AcquireLock, "acquire lock", "AcquireLock"),
        (TableOperation::ReleaseLock, "release lock", "ReleaseLock"),
        (TableOperation::Serialize, "serialize", "Serialize"),
        (TableOperation::Deserialize, "deserialize", "Deserialize"),
        (TableOperation::JoinTask, "update multiple chunks", "JoinTask"),
        (TableOperation::SetMany, "set items", "SetMany"),
    ];
    for (operation, words, name) in expected {
        assert_eq!(operation.as_str(), words);
        assert_eq!(operation.to_string(), words);
        assert_eq!(operation.name(), name);
    }
}

#[test]
fn io_error_holds_what_it_was_given() {
    let error = TableError::io(
        TableOperation::ReadChunk,
        Some("db/ab.yml".to_owned()),
        IoKind::Other,
        "permission denied".to_owned(),
    );
    assert_eq!(error.operation, TableOperation::ReadChunk);
    assert_eq!(error.path, Some("db/ab.yml".to_owned()));
    assert!(matches!(
        &error.source,
        ErrorSource::Io { kind: IoKind::Other, message } if message == "permission denied"
    ));
    assert_eq!(error.source_message(), Some(&"permission denied".to_owned()));
    assert!(error.related().is_none());
    assert!(!error.is_timeout());
    assert_eq!(error.to_string(), "Failed to read chunk\nPath: db/ab.yml");
    assert_eq!(error.code(), "flat_db::Table::ReadChunk");
}

#[test]
fn yaml_error_holds_what_it_was_given() {
    let error = TableError::yaml(TableOperation::Deserialize, None, "bad indent".to_owned());
    assert_eq!(error.operation, TableOperation::Deserialize);
    assert_eq!(error.path, None);
    assert!(matches!(&error.source, ErrorSource::Yaml(message) if message == "bad indent"));
    assert_eq!(error.source_message(), Some(&"bad indent".to_owned()));
    assert_eq!(error.to_string(), "Failed to deserialize");
    assert_eq!(error.code(), "flat_db::Table::Deserialize");
}

#[test]
fn join_error_has_no_path() {
    let error = TableError::join("task panicked".to_owned());
    assert_eq!(error.operation, TableOperation::JoinTask);
    assert_eq!(error.path, None);
    assert!(matches!(&error.source, ErrorSource::Join(message) if message == "task panicked"));
    assert_eq!(error.to_string(), "Failed to update multiple chunks");
}

#[test]
fn batch_error_counts_both_kinds() {
    let inner = vec![
        TableError::yaml(TableOperation::Serialize, Some("a".to_owned()), "x".to_owned()),
        TableError::join("y".to_owned()),
    ];
    let error = TableError::batch(3, 2, inner);
    assert_eq!(error.operation, TableOperation::SetMany);
    assert_eq!(error.path, None);
    assert_eq!(error.to_string(), "Failed to set items\n3 succeeded, 2 failed");
    assert_eq!(error.code(), "flat_db::Table::SetMany");
    assert!(error.source_message().is_none());
    let related = error.related().expect("a batch holds errors");
    assert_eq!(related.len(), 2);
    assert_eq!(related[0].operation, TableOperation::Serialize);
    assert_eq!(related[0].to_string(), "Failed to serialize\nPath: a");
    assert_eq!(related[1].operation, TableOperation::JoinTask);
    match &error.source {
        ErrorSource::Batch { succeeded, failed, errors } => {
            assert_eq!((*succeeded, *failed, errors.len()), (3, 2, 2));
        }
        other => panic!("not a batch: {other:?}"),
    }
}

#[test]
fn timed_out_wait_is_told_apart() {
    let timed_out = TableError::io(
        TableOperation::AcquireLock,
        Some("db/ab.lock".to_owned()),
        IoKind::TimedOut,
        "late".to_owned(),
    );
    assert!(timed_out.is_timeout());
    assert_eq!(timed_out.to_string(), "Failed to acquire lock\nPath: db/ab.lock");
    assert!(!TableError::join("late".to_owned()).is_timeout());
}

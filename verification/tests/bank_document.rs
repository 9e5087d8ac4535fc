use trimsec::TimeBank;
use trimsec::TrimsecError;

#[test]
fn test_bank_document_round_trip() {
    let mut bank = TimeBank { entries: vec![] };
    bank.add_time("2024-05-01", 100);
    bank.add_time("2024-05-02", 50);
    let text = bank.to_json();
    let reread = TimeBank::from_json(&text).unwrap();
    assert_eq!(reread.entries.len(), 2);
    assert_eq!(reread.entries[0].date, "2024-05-01");
    assert_eq!(reread.entries[0].saved_time, 100);
    assert_eq!(reread.entries[1].date, "2024-05-02");
    assert_eq!(reread.entries[1].saved_time, 50);
    // writing the re-read bank gives the same bytes back
    assert_eq!(reread.to_json(), text);
}

#[test]
fn test_bank_document_canonical_form() {
    let mut bank = TimeBank { entries: vec![] };
    bank.add_time("2024-05-01", 150);
    assert_eq!(bank.to_json(), "{\"entries\":[{\"date\":\"2024-05-01\",\"saved_time\":150}]}");
    let empty = TimeBank { entries: vec![] };
    assert_eq!(empty.to_json(), "{\"entries\":[]}");
}

#[test]
fn test_bank_document_reads_whitespace_and_fractions() {
    // the shape an earlier version of the tool wrote: pretty-printed, with
    // float-formatted seconds
    let text = "{\n  \"entries\": [\n    {\n      \"date\": \"2024-05-01\",\n      \"saved_time\": 150.0\n    },\n    {\n      \"date\": \"2024-05-02\",\n      \"saved_time\": 7.5\n    }\n  ]\n}";
    let bank = TimeBank::from_json(text).unwrap();
    assert_eq!(bank.entries.len(), 2);
    assert_eq!(bank.entries[0].saved_time, 150);
    // sub-second precision is dropped
    assert_eq!(bank.entries[1].saved_time, 7);
}

#[test]
fn test_bank_document_reads_serde_output() {
    let mut entry = serde_json::Map::new();
    entry.insert(
        "date".to_string(),
        serde_json::Value::String("2024-05-01".to_string()),
    );
    entry.insert(
        "saved_time".to_string(),
        serde_json::Value::Number(serde_json::Number::from_f64(150.0).unwrap()),
    );
    let mut doc = serde_json::Map::new();
    doc.insert(
        "entries".to_string(),
        serde_json::Value::Array(vec![serde_json::Value::Object(entry)]),
    );
    let pretty = serde_json::to_string_pretty(&serde_json::Value::Object(doc)).unwrap();
    let bank = TimeBank::from_json(&pretty).unwrap();
    assert_eq!(bank.entries.len(), 1);
    assert_eq!(bank.entries[0].date, "2024-05-01");
    assert_eq!(bank.entries[0].saved_time, 150);
}

#[test]
fn test_bank_document_empty() {
    let bank = TimeBank::from_json("{\"entries\":[]}").unwrap();
    assert_eq!(bank.entries.len(), 0);
    let bank = TimeBank::from_json(" { \"entries\" : [ ] } ").unwrap();
    assert_eq!(bank.entries.len(), 0);
}

#[test]
fn test_bank_document_malformed() {
    assert!(matches!(TimeBank::from_json(""), Err(TrimsecError::TimeBankUnloaded)));
    assert!(matches!(TimeBank::from_json("garbage"), Err(TrimsecError::TimeBankUnloaded)));
    assert!(matches!(TimeBank::from_json("{\"entries\":["), Err(TrimsecError::TimeBankUnloaded)));
    assert!(matches!(
        TimeBank::from_json("{\"entries\":[{\"date\":\"x\",\"saved_time\":-1}]}"),
        Err(TrimsecError::TimeBankUnloaded)
    ));
    assert!(matches!(
        TimeBank::from_json("{\"entries\":[]} trailing"),
        Err(TrimsecError::TimeBankUnloaded)
    ));
}

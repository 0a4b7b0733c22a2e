use treasure_hunt::clues::on_disk::{ClueDefinition, Clues as ClueRecords};
use treasure_hunt::clues::{answer_to_code, Clue, Clues};

#[test]
fn test_answer_to_code_is_sha3_256() {
    // SHA3-256 of the empty string, the standard test vector.
    let code = answer_to_code("");
    assert_eq!(
        hex::encode(&code),
        "a7ffc6f8bf1ed76651c14756a061d662f580ff4de43b49fa82d80a4b80f8434a"
    );
    // A different input gives a different digest.
    let other = answer_to_code("0");
    assert_eq!(other.len(), 32);
    assert_ne!(code, other);
}

#[test]
fn test_mock_clue_spells_its_digest() {
    let clue = Clue::mock(7, "Library");
    assert_eq!(clue.location, "Library");
    assert_eq!(clue.code.len(), 32);
    // The poem is the digest in lowercase hexadecimal, computed here
    // digit by digit.
    let expected: String = clue.code.iter().map(|b| format!("{:02x}", b)).collect();
    assert_eq!(clue.poem, expected);
    assert_eq!(clue.hint, clue.poem);
    assert_eq!(clue.item, clue.poem);
    // The answer is the decimal rendering of the seed.
    assert_eq!(clue.code, answer_to_code("7"));
}

#[test]
fn test_from_records_hashes_answers() {
    let records = ClueRecords(vec![
        ClueDefinition {
            poem: "Where shelves touch the ceiling".to_string(),
            hint: "Look up".to_string(),
            item: "A red bookmark".to_string(),
            location: "Library".to_string(),
            answer: "atlas".to_string(),
        },
        ClueDefinition {
            poem: "Under the old clock".to_string(),
            hint: "It ticks".to_string(),
            item: "A brass key".to_string(),
            location: "Hall".to_string(),
            answer: "pendulum".to_string(),
        },
    ]);
    let catalog = Clues::from_records(&records);
    assert_eq!(catalog.0.len(), 2);
    assert_eq!(catalog.0[0].poem, "Where shelves touch the ceiling");
    assert_eq!(catalog.0[0].location, "Library");
    assert_eq!(catalog.0[0].code, answer_to_code("atlas"));
    assert_eq!(catalog.0[1].code, answer_to_code("pendulum"));
    // No plaintext answer survives in the catalog's fields.
    assert_ne!(catalog.0[0].code, answer_to_code("pendulum"));
}

#[test]
fn test_mock_catalog_shape() {
    let clues = Clues::mock();
    assert_eq!(clues.0.len(), 14);
    let locations: Vec<&str> = clues.0.iter().map(|c| c.location.as_str()).collect();
    assert_eq!(
        locations,
        ["A", "B", "C", "D", "D", "D", "E", "E", "F", "F", "G", "G", "H", "H"]
    );
}

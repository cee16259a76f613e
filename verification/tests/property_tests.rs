use decree::decree::Decree;
use decree::error::{DecreeErrType, Error};
use decree::inscribe::{Field, FieldVal, Record, INSCRIBE_LENGTH};
use decree::Inscribe;

fn bytes_field(key: &'static str, data: &[u8]) -> Field {
    Field {
        sort_key: key,
        value: FieldVal::Bytes(data.to_vec()),
    }
}

// The challenge stream does not depend on the order in which inputs are
// supplied.
#[test]
fn two_input_order_independence() {
    let inputs = ["input1", "input2"];
    let challenges = ["challenge1"];

    let mut a = Decree::new("test", &inputs, &challenges).unwrap();
    a.add_serial("input1", 10u32).unwrap();
    a.add_serial("input2", 14u32).unwrap();
    let mut out_a: Vec<u8> = vec![0u8; 32];
    a.get_challenge("challenge1", &mut out_a).unwrap();

    let mut b = Decree::new("test", &inputs, &challenges).unwrap();
    b.add_serial("input2", 14u32).unwrap();
    b.add_serial("input1", 10u32).unwrap();
    let mut out_b: Vec<u8> = vec![0u8; 32];
    b.get_challenge("challenge1", &mut out_b).unwrap();

    assert_eq!(out_a, out_b);
}

// Identical protocols produce byte-identical challenges; the requested
// length is honored exactly.
#[test]
fn challenge_determinism_and_length() {
    let inputs = ["input1"];
    let challenges = ["challenge1", "challenge2"];
    let value: Vec<u8> = vec![1, 2, 3, 4];

    let mut a = Decree::new("test", &inputs, &challenges).unwrap();
    a.add_bytes("input1", &value).unwrap();
    let mut a1: Vec<u8> = vec![0u8; 16];
    let mut a2: Vec<u8> = vec![0u8; 48];
    a.get_challenge("challenge1", &mut a1).unwrap();
    a.get_challenge("challenge2", &mut a2).unwrap();

    let mut b = Decree::new("test", &inputs, &challenges).unwrap();
    b.add_bytes("input1", &value).unwrap();
    let mut b1: Vec<u8> = vec![0u8; 16];
    let mut b2: Vec<u8> = vec![0u8; 48];
    b.get_challenge("challenge1", &mut b1).unwrap();
    b.get_challenge("challenge2", &mut b2).unwrap();

    assert_eq!(a1.len(), 16);
    assert_eq!(a2.len(), 48);
    assert_eq!(a1, b1);
    assert_eq!(a2, b2);
    assert_ne!(a1, vec![0u8; 16]);
}

// Changing only the protocol name changes the challenge bytes.
#[test]
fn name_separation() {
    let inputs = ["input1"];
    let challenges = ["challenge1"];
    let value: Vec<u8> = vec![7u8; 8];

    let mut a = Decree::new("protocol_one", &inputs, &challenges).unwrap();
    a.add_bytes("input1", &value).unwrap();
    let mut out_a: Vec<u8> = vec![0u8; 32];
    a.get_challenge("challenge1", &mut out_a).unwrap();

    let mut b = Decree::new("protocol_two", &inputs, &challenges).unwrap();
    b.add_bytes("input1", &value).unwrap();
    let mut out_b: Vec<u8> = vec![0u8; 32];
    b.get_challenge("challenge1", &mut out_b).unwrap();

    assert_ne!(out_a, out_b);
}

// A transcript extended into a second phase keeps the phase-one duplex
// state, so its challenges differ from a fresh transcript that declared
// only the second phase.
#[test]
fn extend_differs_from_fresh() {
    let value: Vec<u8> = vec![5u8; 4];

    let mut extended = Decree::new("test", &["input1"], &["challenge1"]).unwrap();
    extended.add_bytes("input1", &value).unwrap();
    let mut drain: Vec<u8> = vec![0u8; 32];
    extended.get_challenge("challenge1", &mut drain).unwrap();
    extended.extend(&["input2"], &["challenge2"]).unwrap();
    extended.add_bytes("input2", &value).unwrap();
    let mut out_extended: Vec<u8> = vec![0u8; 32];
    extended
        .get_challenge("challenge2", &mut out_extended)
        .unwrap();

    let mut fresh = Decree::new("test", &["input2"], &["challenge2"]).unwrap();
    fresh.add_bytes("input2", &value).unwrap();
    let mut out_fresh: Vec<u8> = vec![0u8; 32];
    fresh.get_challenge("challenge2", &mut out_fresh).unwrap();

    assert_ne!(out_extended, out_fresh);
}

// A drained transcript accepts an extension and completes a second phase.
#[test]
fn extend_happy_path() {
    let value: Vec<u8> = vec![9u8; 4];
    let mut d = Decree::new("test", &["input1"], &["challenge1"]).unwrap();
    d.add_bytes("input1", &value).unwrap();
    let mut out: Vec<u8> = vec![0u8; 32];
    d.get_challenge("challenge1", &mut out).unwrap();

    d.extend(&["input2", "input3"], &["challenge2"]).unwrap();
    d.add_bytes("input3", &value).unwrap();
    d.add_bytes("input2", &value).unwrap();
    let mut out2: Vec<u8> = vec![0u8; 32];
    d.get_challenge("challenge2", &mut out2).unwrap();
    assert_ne!(out, out2);
}

// Duplicate input labels are rejected at construction and at extension.
#[test]
fn duplicate_labels_rejected() {
    let challenges = ["challenge1"];
    match Decree::new("test", &["repeated", "repeated"], &challenges) {
        Ok(_) => panic!("duplicate_labels_rejected failure"),
        Err(e) => {
            assert_eq!(e.get_type(), DecreeErrType::InitFail);
            assert_eq!(e.get_str(), "Inputs must be distinct");
        }
    }

    let value: Vec<u8> = vec![1u8; 4];
    let mut d = Decree::new("test", &["input1"], &challenges).unwrap();
    d.add_bytes("input1", &value).unwrap();
    let mut out: Vec<u8> = vec![0u8; 32];
    d.get_challenge("challenge1", &mut out).unwrap();
    match d.extend(&["again", "again"], &["challenge2"]) {
        Ok(_) => panic!("duplicate_labels_rejected failure"),
        Err(e) => {
            assert_eq!(e.get_type(), DecreeErrType::InitFail);
            assert_eq!(e.get_str(), "Inputs must be distinct");
        }
    }
}

// Extending with an empty schema is rejected.
#[test]
fn extend_empty_rejected() {
    let value: Vec<u8> = vec![1u8; 4];
    let empty: [&'static str; 0] = [];

    let mut d = Decree::new("test", &["input1"], &["challenge1"]).unwrap();
    d.add_bytes("input1", &value).unwrap();
    let mut out: Vec<u8> = vec![0u8; 32];
    d.get_challenge("challenge1", &mut out).unwrap();

    match d.extend(&empty, &["challenge2"]) {
        Ok(_) => panic!("extend_empty_rejected failure"),
        Err(e) => {
            assert_eq!(e.get_type(), DecreeErrType::ExtendFail);
            assert_eq!(e.get_str(), "Must specify at least one input");
        }
    }
    match d.extend(&["input2"], &empty) {
        Ok(_) => panic!("extend_empty_rejected failure"),
        Err(e) => {
            assert_eq!(e.get_type(), DecreeErrType::ExtendFail);
            assert_eq!(e.get_str(), "Must specify at least one challenge");
        }
    }
}

// Each misuse carries its declared error kind.
#[test]
fn error_kind_matrix() {
    let value: Vec<u8> = vec![2u8; 4];
    let mut d = Decree::new("test", &["input1", "input2"], &["challenge1"]).unwrap();
    let mut out: Vec<u8> = vec![0u8; 32];

    let before_commit = d.get_challenge("challenge1", &mut out).unwrap_err();
    assert_eq!(before_commit.get_type(), DecreeErrType::General);

    let bad_label = d.add_bytes("nope", &value).unwrap_err();
    assert_eq!(bad_label.get_type(), DecreeErrType::InvalidLabel);

    d.add_bytes("input1", &value).unwrap();
    let reused = d.add_bytes("input1", &value).unwrap_err();
    assert_eq!(reused.get_type(), DecreeErrType::InvalidLabel);

    let early_extend = d.extend(&["input3"], &["challenge2"]).unwrap_err();
    assert_eq!(early_extend.get_type(), DecreeErrType::ExtendFail);

    d.add_bytes("input2", &value).unwrap();
    let post_commit = d.add_bytes("input2", &value).unwrap_err();
    assert_eq!(post_commit.get_type(), DecreeErrType::General);

    let unspec = d.get_challenge("other", &mut out).unwrap_err();
    assert_eq!(unspec.get_type(), DecreeErrType::InvalidChallenge);
}

// The error constructors report their kind and message.
#[test]
fn error_constructors() {
    assert_eq!(
        Error::new(DecreeErrType::InitFail, "Duplicate labels").get_type(),
        DecreeErrType::InitFail
    );
    assert_eq!(
        Error::new_invalid_label("Label reused").get_type(),
        DecreeErrType::InvalidLabel
    );
    assert_eq!(
        Error::new_invalid_challenge("Out of order challenge").get_type(),
        DecreeErrType::InvalidChallenge
    );
    assert_eq!(
        Error::new_init_fail("Failed initialization").get_type(),
        DecreeErrType::InitFail
    );
    assert_eq!(
        Error::new_extend_fail("Failed extension").get_type(),
        DecreeErrType::ExtendFail
    );
    assert_eq!(
        Error::new_general("Failed serialization").get_type(),
        DecreeErrType::General
    );
    assert_eq!(
        Error::new_general("Failed serialization").get_str(),
        "Failed serialization"
    );
}

// A value bcs cannot encode is reported as a serialization failure.
#[test]
fn serialize_failure_reported() {
    let mut d = Decree::new("test", &["input1"], &["challenge1"]).unwrap();
    match d.add_serial("input1", 1.5f64) {
        Ok(_) => panic!("serialize_failure_reported failure"),
        Err(e) => {
            assert_eq!(e.get_type(), DecreeErrType::General);
            assert_eq!(e.get_str(), "Could not serialize");
        }
    }
    // The failed addition left the label unused.
    d.add_serial("input1", 10u32).unwrap();
}

// Reordering field declarations while keeping sort keys leaves the digest
// unchanged.
#[test]
fn inscription_field_order_independence() {
    let r1 = Record {
        mark: "ordering",
        fields: vec![
            bytes_field("k2", &[1, 2, 3]),
            bytes_field("k1", &[9]),
            bytes_field("k3", &[4, 4]),
        ],
        additional: Vec::new(),
    };
    let r2 = Record {
        mark: "ordering",
        fields: vec![
            bytes_field("k1", &[9]),
            bytes_field("k3", &[4, 4]),
            bytes_field("k2", &[1, 2, 3]),
        ],
        additional: Vec::new(),
    };
    assert_eq!(r1.inscription().unwrap(), r2.inscription().unwrap());
}

// A skipped field contributes nothing: the digest equals that of the
// record without it.
#[test]
fn inscription_skip_elision() {
    let r1 = Record {
        mark: "skipping",
        fields: vec![
            bytes_field("k1", &[1]),
            Field {
                sort_key: "k2",
                value: FieldVal::Skip,
            },
            bytes_field("k3", &[3]),
        ],
        additional: Vec::new(),
    };
    let r2 = Record {
        mark: "skipping",
        fields: vec![bytes_field("k1", &[1]), bytes_field("k3", &[3])],
        additional: Vec::new(),
    };
    assert_eq!(r1.inscription().unwrap(), r2.inscription().unwrap());
}

// Changing a sort key changes the hashing order, and with it the digest.
#[test]
fn inscription_sort_key_changes_digest() {
    let r1 = Record {
        mark: "keys",
        fields: vec![bytes_field("a", &[1, 1]), bytes_field("b", &[2])],
        additional: Vec::new(),
    };
    let r2 = Record {
        mark: "keys",
        fields: vec![bytes_field("c", &[1, 1]), bytes_field("b", &[2])],
        additional: Vec::new(),
    };
    assert_ne!(r1.inscription().unwrap(), r2.inscription().unwrap());
}

// Two records differing only in their mark produce different digests.
#[test]
fn inscription_mark_separation() {
    let r1 = Record {
        mark: "mark_one",
        fields: vec![bytes_field("k1", &[1, 2, 3])],
        additional: Vec::new(),
    };
    let r2 = Record {
        mark: "mark_two",
        fields: vec![bytes_field("k1", &[1, 2, 3])],
        additional: Vec::new(),
    };
    assert_ne!(r1.inscription().unwrap(), r2.inscription().unwrap());
}

// The digest depends on the additional data and on each absorbed byte.
#[test]
fn inscription_depends_on_contents() {
    let base = Record {
        mark: "contents",
        fields: vec![bytes_field("k1", &[1, 2, 3])],
        additional: b"side".to_vec(),
    };
    let other_bytes = Record {
        mark: "contents",
        fields: vec![bytes_field("k1", &[1, 2, 4])],
        additional: b"side".to_vec(),
    };
    let other_addl = Record {
        mark: "contents",
        fields: vec![bytes_field("k1", &[1, 2, 3])],
        additional: b"Side".to_vec(),
    };
    let d = base.inscription().unwrap();
    assert_eq!(d.len(), INSCRIBE_LENGTH);
    assert_ne!(d, other_bytes.inscription().unwrap());
    assert_ne!(d, other_addl.inscription().unwrap());
    assert_ne!(d, vec![1, 2, 3]);
}

// Duplicate sort keys are a schema error, at the top level and nested.
#[test]
fn duplicate_sort_keys_rejected() {
    let dup = Record {
        mark: "dup",
        fields: vec![bytes_field("same", &[1]), bytes_field("same", &[2])],
        additional: Vec::new(),
    };
    match dup.inscription() {
        Ok(_) => panic!("duplicate_sort_keys_rejected failure"),
        Err(e) => {
            assert_eq!(e.get_type(), DecreeErrType::General);
            assert_eq!(e.get_str(), "Duplicate sort keys");
        }
    }

    let outer = Record {
        mark: "outer",
        fields: vec![Field {
            sort_key: "inner",
            value: FieldVal::Nested(Box::new(Record {
                mark: "dup",
                fields: vec![bytes_field("same", &[1]), bytes_field("same", &[2])],
                additional: Vec::new(),
            })),
        }],
        additional: Vec::new(),
    };
    assert!(outer.inscription().is_err());
}

// Adding a value through its inscription is the same as precomputing the
// digest and adding those 64 bytes directly.
#[test]
fn recurse_matches_precomputed_digest() {
    let record = Record {
        mark: "payload",
        fields: vec![bytes_field("k1", &[1, 2, 3]), bytes_field("k2", &[4])],
        additional: Vec::new(),
    };
    let digest = record.get_inscription().unwrap();
    let other: Vec<u8> = vec![8u8; 8];

    let inputs = ["input1", "input2"];
    let challenges = ["challenge1"];

    let mut a = Decree::new("test", &inputs, &challenges).unwrap();
    a.add("input1", record).unwrap();
    a.add_bytes("input2", &other).unwrap();
    let mut out_a: Vec<u8> = vec![0u8; 32];
    a.get_challenge("challenge1", &mut out_a).unwrap();

    let mut b = Decree::new("test", &inputs, &challenges).unwrap();
    b.add_bytes("input1", &digest).unwrap();
    b.add_bytes("input2", &other).unwrap();
    let mut out_b: Vec<u8> = vec![0u8; 32];
    b.get_challenge("challenge1", &mut out_b).unwrap();

    assert_eq!(out_a, out_b);
}

// The default additional data of the trait is empty; Record's is its own.
#[test]
fn get_additional_default() {
    let record = Record {
        mark: "payload",
        fields: vec![bytes_field("k1", &[1])],
        additional: b"extra".to_vec(),
    };
    assert_eq!(record.get_additional().unwrap(), b"extra".to_vec());
    assert_eq!(record.get_mark(), "payload");
}

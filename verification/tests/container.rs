use sha2::{Digest, Sha256};
use venturi::bytecode::{Instruction, Value};
use venturi::vcbin::{decode, encode, hash_input, VcBin, VcBinGraph, VcBinInterface, VcBinPermissions};

fn sections() -> Vec<Vec<u8>> {
    vec![
        b"{\"name\":\"auth\"}".to_vec(),
        b"{\"inputs\":[]}".to_vec(),
        b"{}".to_vec(),
        Vec::new(),
        b"[1,2,3]".to_vec(),
    ]
}

#[test]
fn encode_then_decode_gives_back_the_sections() {
    let secs = sections();
    let hash = [7u8; 32];
    let bytes = encode(&secs, &hash);
    assert_eq!(&bytes[0..4], b"VCBN");
    assert_eq!(&bytes[4..6], &[1u8, 0u8]);
    assert_eq!(&bytes[6..8], &[0u8, 0u8]);
    assert_eq!(&bytes[8..16], &(secs[0].len() as u64).to_le_bytes());
    let frames = decode(&bytes);
    assert!(frames.failure.is_none());
    assert_eq!(frames.sections, secs);
    assert_eq!(frames.hash, hash);
}

#[test]
fn decode_refuses_short_and_foreign_files() {
    let f = decode(b"VCBN");
    assert_eq!(f.failure.unwrap().message(), "VCBIN error: File too short");
    assert!(f.sections.is_empty());
    let f = decode(b"NOPE\x01\x00\x00\x00");
    assert_eq!(f.failure.unwrap().message(), "VCBIN error: Invalid magic bytes");
    assert_eq!(f.hash, [0u8; 32]);
}

#[test]
fn decode_reports_truncated_sections() {
    let secs = sections();
    let bytes = encode(&secs, &[1u8; 32]);
    // Cut inside the first section's data.
    let f = decode(&bytes[0..20]);
    assert_eq!(f.failure.unwrap().message(), "VCBIN error: Section data truncated");
    // Cut inside the second section's length prefix.
    let first_end = 8 + 8 + secs[0].len();
    let f = decode(&bytes[0..first_end + 3]);
    assert_eq!(f.failure.unwrap().message(), "VCBIN error: Section truncated");
    assert_eq!(f.sections, vec![secs[0].clone()]);
}

#[test]
fn decode_without_hash_gives_zero_hash() {
    let secs = sections();
    let bytes = encode(&secs, &[9u8; 32]);
    let f = decode(&bytes[0..bytes.len() - 32]);
    assert!(f.failure.is_none());
    assert_eq!(f.hash, [0u8; 32]);
}

#[test]
fn hash_is_sha256_over_magic_version_and_sections() {
    let secs = sections();
    let mut h = Sha256::new();
    h.update(b"VCBN");
    h.update(1u16.to_le_bytes());
    for s in &secs {
        h.update(s);
    }
    let expected: [u8; 32] = h.finalize().into();
    assert_eq!(VcBin::compute_hash(&secs), expected);
    let mut input = b"VCBN".to_vec();
    input.extend_from_slice(&[1, 0]);
    for s in &secs {
        input.extend_from_slice(s);
    }
    assert_eq!(hash_input(&secs), input);
}

fn chassis() -> VcBin {
    VcBin::new(
        "auth".to_string(),
        "plane".to_string(),
        1_700_000_000,
        VcBinInterface { inputs: vec![], outputs: vec![] },
        VcBinPermissions { allowed_vans: vec!["@core".to_string()] },
        VcBinGraph { nodes: vec![], edges: vec![], entry: "main".to_string(), exit: "main".to_string() },
        vec![Instruction::Push(Value::Int(1)), Instruction::Return],
        &sections(),
    )
}

#[test]
fn new_chassis_and_sealing() {
    let mut v = chassis();
    assert_eq!(v.metadata.name, "auth");
    assert_eq!(v.metadata.version, "1.0");
    assert_eq!(v.metadata.mode, "plane");
    assert_eq!(v.metadata.timestamp, 1_700_000_000);
    // A new chassis verifies against the encodings it was made with.
    let secs = sections();
    assert!(v.verify_hash(&secs));
    assert_eq!(v.hash, VcBin::compute_hash(&secs));
    let mut other = secs.clone();
    other[2] = b"{\"allowed_vans\":[]}".to_vec();
    assert!(!v.verify_hash(&other));
    v.seal(&other);
    assert!(v.verify_hash(&other));
    assert!(!v.verify_hash(&secs));
}

use blume::stcm2::format::{
    from_bytes, to_bytes, decode_string, encode_string, Parameter, Address, Action,
    OP_LINE, OP_YIELD,
};
use blume::Error;

fn w(out: &mut Vec<u8>, v: u32) {
    out.extend_from_slice(&v.to_le_bytes());
}

/// A small script blob, written out by hand: two actions (a plain one and
/// a call with a global pointer back to the first), one export label.
fn sample_file() -> Vec<u8> {
    let mut f = Vec::new();
    f.extend_from_slice(b"STCM2");
    f.extend_from_slice(&[0u8; 27]); // tag
    w(&mut f, 196); // export table offset (just after its magic)
    w(&mut f, 1); // one export
    f.extend_from_slice(&[0u8; 40]); // reserved words
    f.extend_from_slice(b"GLOBAL_DATA\0\0\0\0\0");
    f.extend_from_slice(&[0xAA; 16]); // global data
    f.extend_from_slice(b"CODE_START_\0");
    assert_eq!(f.len(), 124);
    // action at offset 124: opcode 0x99, one immediate, 4 data bytes
    w(&mut f, 0);
    w(&mut f, 0x99);
    w(&mut f, 1);
    w(&mut f, 32);
    w(&mut f, 7);
    w(&mut f, 0xff000000);
    w(&mut f, 0xff000000);
    f.extend_from_slice(&[1, 2, 3, 4]);
    // action at offset 156: a call to 124, one global pointer to 124
    w(&mut f, 1);
    w(&mut f, 124);
    w(&mut f, 1);
    w(&mut f, 28);
    w(&mut f, 0xffffff41);
    w(&mut f, 124);
    w(&mut f, 0xff000000);
    assert_eq!(f.len(), 184);
    f.extend_from_slice(b"EXPORT_DATA\0");
    w(&mut f, 0);
    let mut name = [0u8; 32];
    name[..5].copy_from_slice(b"entry");
    f.extend_from_slice(&name);
    w(&mut f, 156);
    // pad to a 16-byte boundary
    while f.len() % 16 != 0 {
        f.push(0);
    }
    assert_eq!(f.len(), 240);
    f
}

#[test]
fn decode_sample() {
    let f = sample_file();
    let doc = from_bytes(&f).unwrap();
    assert_eq!(doc.tag.len(), 27);
    assert_eq!(doc.global_data, vec![0xAA; 16]);
    assert_eq!(doc.actions.len(), 2);
    let (a0, act0) = &doc.actions[0];
    assert_eq!(*a0, Address { orig: 124, sub: 0 });
    assert!(!act0.call);
    assert_eq!(act0.opcode, 0x99);
    assert_eq!(act0.params, vec![Parameter::Value(7)]);
    assert_eq!(act0.data, vec![1, 2, 3, 4]);
    assert!(act0.export.is_none());
    let (a1, act1) = &doc.actions[1];
    assert_eq!(*a1, Address { orig: 156, sub: 0 });
    assert!(act1.call);
    assert_eq!(act1.opcode, 124);
    assert_eq!(act1.params, vec![Parameter::GlobalPointer(124)]);
    assert!(act1.data.is_empty());
    assert!(act1.export.is_some());
}

#[test]
fn encode_decode_round_trip() {
    let f = sample_file();
    let doc = from_bytes(&f).unwrap();
    let out = to_bytes(&doc).unwrap();
    // relocation resolves every pointer back to the same offsets
    assert_eq!(out, f);
    let again = from_bytes(&out).unwrap();
    assert_eq!(again, doc);
}

#[test]
fn dangling_reference_is_unresolved() {
    let f = sample_file();
    let mut doc = from_bytes(&f).unwrap();
    // retarget the call to an address no action has
    doc.actions[1].1.opcode = 999;
    assert_eq!(to_bytes(&doc), Err(Error::Unresolved));
}

#[test]
fn bad_reserved_word_is_rejected() {
    let mut f = sample_file();
    f[44] = 1; // first reserved word
    assert_eq!(from_bytes(&f), Err(Error::Format));
}

#[test]
fn bad_call_flag_is_rejected() {
    let mut f = sample_file();
    f[124] = 2; // the call flag must be 0 or 1
    assert_eq!(from_bytes(&f), Err(Error::Format));
}

#[test]
fn bad_parameter_is_rejected() {
    let mut f = sample_file();
    // break the third word of the first parameter record
    f[124 + 24] = 0x11;
    assert_eq!(from_bytes(&f), Err(Error::Format));
}

#[test]
fn export_to_unknown_address_is_rejected() {
    let mut f = sample_file();
    // the export record's address word
    f[196 + 36] = 0x55;
    assert_eq!(from_bytes(&f), Err(Error::Format));
}

#[test]
fn truncated_script_is_rejected() {
    let f = sample_file();
    assert_eq!(from_bytes(&f[..100].to_vec()), Err(Error::Truncated(100)));
    assert_eq!(from_bytes(&f[..130].to_vec()), Err(Error::Truncated(140)));
}

#[test]
fn string_record_round_trip() {
    let rec = encode_string(&b"Hello".to_vec()).unwrap();
    // two redundant lengths: 2 quads, 8 bytes
    assert_eq!(&rec[0..4], &0u32.to_le_bytes());
    assert_eq!(&rec[4..8], &2u32.to_le_bytes());
    assert_eq!(&rec[8..12], &1u32.to_le_bytes());
    assert_eq!(&rec[12..16], &8u32.to_le_bytes());
    assert_eq!(rec.len(), 24);
    assert_eq!(decode_string(0, &rec).unwrap(), b"Hello".to_vec());
}

#[test]
fn string_record_rejects_disagreeing_lengths() {
    let mut rec = encode_string(&b"Hello".to_vec()).unwrap();
    rec[4] = 3; // qlen no longer matches len / 4
    assert_eq!(decode_string(0, &rec), Err(Error::Structure));
    let rec2 = encode_string(&b"Hi".to_vec()).unwrap();
    // leftover bytes after the declared length
    let mut long = rec2.clone();
    long.push(0);
    assert_eq!(decode_string(0, &long), Err(Error::Structure));
    // a record that does not start at the front of the blob
    assert_eq!(decode_string(1, &rec2), Err(Error::Structure));
}

#[test]
fn parameter_wire_patterns() {
    assert_eq!(
        Parameter::parse([0xffffff41, 300, 0xff000000], 100, 50),
        Ok(Parameter::GlobalPointer(300))
    );
    assert_eq!(
        Parameter::parse([120, 0xff000000, 0xff000000], 100, 50),
        Ok(Parameter::LocalPointer(20))
    );
    assert_eq!(
        Parameter::parse([7, 0xff000000, 0xff000000], 100, 50),
        Ok(Parameter::Value(7))
    );
    // in-window values with a 0xff top byte stay immediates
    assert_eq!(
        Parameter::parse([0xff000005, 0xff000000, 0xff000000], 0xff000000, 50),
        Ok(Parameter::Value(0xff000005))
    );
    assert_eq!(
        Parameter::parse([1, 2, 3], 0, 0),
        Err(Error::Format)
    );
}

#[test]
fn address_ordering() {
    let a = Address { orig: 100, sub: 0 };
    let b = Address { orig: 100, sub: 1 };
    let c = Address { orig: 100, sub: 2 };
    let d = Address { orig: 101, sub: 0 };
    assert!(a.lt(&b) && b.lt(&c) && c.lt(&d));
    assert!(!b.lt(&a));
    assert!(a.lt(&d));
    // an original-only address ties as sub-index 0
    assert!(!a.lt(&Address { orig: 100, sub: 0 }));
}

#[test]
fn yield_action_shape() {
    let y = Action {
        export: None,
        call: false,
        opcode: OP_YIELD,
        params: vec![],
        data: vec![],
    };
    assert_eq!(y.opcode, 0xd3);
    assert_eq!(OP_LINE, 0xd2);
}

#[test]
fn encoder_is_deterministic() {
    // every sentinel is overwritten before a successful return, so two
    // encodings of one document agree byte for byte despite the random
    // canaries
    let doc = from_bytes(&sample_file()).unwrap();
    assert_eq!(to_bytes(&doc).unwrap(), to_bytes(&doc).unwrap());
}

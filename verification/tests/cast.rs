use blume::characters::{decode_jp_speaker, characters, EnSpeaker};
use blume::biendian::BiEndian;
use blume::translate::Translator;
use blume::web::{Row, View, IsHtmx};
use blume::cli::Args;
use blume::Error;

#[test]
fn known_speakers_decode() {
    match decode_jp_speaker("\u{30e1}\u{30a2}\u{30ea}").unwrap() {
        EnSpeaker::Character(c) => assert_eq!(c.enspeaker, "Mary"),
        other => panic!("wrong speaker: {:?}", other),
    }
    match decode_jp_speaker("\u{ff1f}\u{ff1f}\u{ff1f}").unwrap() {
        EnSpeaker::Str(s) => assert_eq!(s, "???"),
        other => panic!("wrong speaker: {:?}", other),
    }
    match decode_jp_speaker("\u{30af}\u{30e9}\u{30a6}\u{30b9}\u{306e}\u{58f0}").unwrap() {
        EnSpeaker::Str(s) => assert_eq!(s, "Klaus's voice"),
        other => panic!("wrong speaker: {:?}", other),
    }
    assert_eq!(decode_jp_speaker("nobody"), Err(Error::Format));
}

#[test]
fn cast_is_complete() {
    let cs = characters();
    assert_eq!(cs.len(), 23);
    assert_eq!(cs[0].enspeaker, "Mary");
    assert_eq!(cs[22].enspeaker, "Man in black");
}

#[test]
fn bi_endian_round_trips() {
    let x: u16 = 0x1234;
    let b = x.to_bi_endian();
    assert_eq!(b, (0x34, 0x12, 0x12, 0x34));
    assert_eq!(u16::from_bi_endian(b), Some(x));
    assert_eq!(u16::from_bi_endian((0x34, 0x12, 0x12, 0x35)), None);
    let y: u32 = 0xdeadbeef;
    assert_eq!(u32::from_bi_endian(y.to_bi_endian()), Some(y));
    assert_eq!(u32::from_bi_endian((1, 2, 3, 4, 4, 3, 2, 5)), None);
}

#[test]
fn boundary_records_hold_their_values() {
    let t = Translator::new("session-a".to_string());
    assert_eq!(t.session, "session-a");
    let v = View::new("/cur".to_string(), "/edit".to_string());
    assert_eq!(v.current, "/cur");
    assert_eq!(v.edit_current, "/edit");
    let r = Row {
        address: 5,
        speaker: "A".to_string(),
        original: "o".to_string(),
        control: "c".to_string(),
        current: "n".to_string(),
    };
    assert_eq!(r.address, 5);
    assert!(IsHtmx(true).0);
    let a = Args::new("game.uni".to_string(), 7, false);
    assert_eq!(a.id, 7);
    assert!(!a.dry_run);
}

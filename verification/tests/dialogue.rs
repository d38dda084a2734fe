use blume::stcm2::format::{Operation, Action, OP_YIELD, OP_SPEAKER, OP_LINE, OP_CHOICE, Parameter, encode_string};
use blume::stcm2::parse::{parse, trim, Dialogue};
use blume::Error;

fn yield_op(addr: u32) -> Operation {
    let _ = addr;
    Operation::Unknown(Action {
        export: None,
        call: false,
        opcode: OP_YIELD,
        params: vec![],
        data: vec![],
    })
}

#[test]
fn speaker_line_yield_folds_to_one_line() {
    let ops = vec![
        Operation::Speaker { addr: 10, s: b"X".to_vec() },
        Operation::Line { addr: 20, s: b"hi".to_vec() },
        yield_op(30),
    ];
    let ds = parse(&ops).unwrap();
    assert_eq!(ds, vec![Dialogue::Line {
        addr: 10,
        speaker: "X".to_string(),
        line: "hi".to_string(),
    }]);
}

#[test]
fn line_choices_yield_folds_to_choice() {
    let ops = vec![
        Operation::Line { addr: 40, s: b"ask?".to_vec() },
        Operation::Choice { addr: 41, id: 0, s: b"yes".to_vec() },
        Operation::Choice { addr: 42, id: 1, s: b"no".to_vec() },
        yield_op(43),
    ];
    let ds = parse(&ops).unwrap();
    assert_eq!(ds, vec![Dialogue::Choice {
        addr: 40,
        prompt: "ask?".to_string(),
        options: vec!["yes".to_string(), "no".to_string()],
    }]);
}

#[test]
fn lines_concatenate_trimmed() {
    // the interpunct (0x81 0x45 in the source encoding) pads names and is
    // trimmed; inner text is kept
    let ops = vec![
        Operation::Line { addr: 1, s: b" one ".to_vec() },
        Operation::Line { addr: 2, s: vec![0x81, 0x45, b'2', 0x81, 0x45] },
        yield_op(3),
    ];
    let ds = parse(&ops).unwrap();
    assert_eq!(ds, vec![Dialogue::Line {
        addr: 1,
        speaker: String::new(),
        line: "one2".to_string(),
    }]);
}

#[test]
fn yield_with_no_text_is_a_no_op() {
    let ops = vec![yield_op(1), yield_op(2)];
    assert_eq!(parse(&ops).unwrap(), vec![]);
}

#[test]
fn second_speaker_without_flush_is_rejected() {
    let ops = vec![
        Operation::Speaker { addr: 1, s: b"A".to_vec() },
        Operation::Speaker { addr: 2, s: b"B".to_vec() },
    ];
    assert_eq!(parse(&ops), Err(Error::Format));
}

#[test]
fn line_after_choice_is_rejected() {
    let ops = vec![
        Operation::Line { addr: 1, s: b"p".to_vec() },
        Operation::Choice { addr: 2, id: 0, s: b"o".to_vec() },
        Operation::Line { addr: 3, s: b"q".to_vec() },
    ];
    assert_eq!(parse(&ops), Err(Error::Format));
}

#[test]
fn invalid_text_encoding_is_rejected() {
    // a lead byte with no trail byte is not valid in the source encoding
    let ops = vec![Operation::Line { addr: 1, s: vec![0x82] }];
    assert_eq!(parse(&ops), Err(Error::Encoding));
}

#[test]
fn trim_strips_whitespace_and_interpunct() {
    assert_eq!(trim("  hi "), "hi".to_string());
    assert_eq!(trim("\u{30fb}\u{30fb}x\u{30fb}"), "x".to_string());
    assert_eq!(trim("\u{3000}y\u{3000}"), "y".to_string());
    assert_eq!(trim(""), String::new());
}

#[test]
fn op_classifies_dialogue_actions() {
    let line = Action {
        export: None,
        call: false,
        opcode: OP_LINE,
        params: vec![Parameter::LocalPointer(0)],
        data: encode_string(&b"hi".to_vec()).unwrap(),
    };
    match line.op(50).unwrap() {
        Operation::Line { addr, s } => {
            assert_eq!(addr, 50);
            assert_eq!(s, b"hi".to_vec());
        }
        other => panic!("wrong classification: {:?}", other),
    }
    let speaker = Action {
        export: None,
        call: false,
        opcode: OP_SPEAKER,
        params: vec![Parameter::LocalPointer(0)],
        data: encode_string(&b"X".to_vec()).unwrap(),
    };
    assert_eq!(
        speaker.op(51).unwrap(),
        Operation::Speaker { addr: 51, s: b"X".to_vec() }
    );
    let choice = Action {
        export: None,
        call: false,
        opcode: OP_CHOICE,
        params: vec![Parameter::LocalPointer(0), Parameter::Value(3)],
        data: encode_string(&b"go".to_vec()).unwrap(),
    };
    assert_eq!(
        choice.op(52).unwrap(),
        Operation::Choice { addr: 52, id: 3, s: b"go".to_vec() }
    );
    // a call is opaque even under a dialogue opcode
    let call = Action {
        export: None,
        call: true,
        opcode: OP_LINE,
        params: vec![],
        data: vec![],
    };
    assert_eq!(call.clone().op(53).unwrap(), Operation::Unknown(call));
    // a dialogue opcode with the wrong parameter shape is malformed
    let bad = Action {
        export: None,
        call: false,
        opcode: OP_LINE,
        params: vec![Parameter::Value(1)],
        data: vec![],
    };
    assert_eq!(bad.op(54), Err(Error::Format));
}

use blume::stcm2::format::{Action, Address, Parameter, Stcm2, encode_string, decode_string, OP_LINE, OP_YIELD, OP_SPEAKER, OP_CHOICE};
use blume::stcm2::patch::{patch, tokenize, split_lines_intelligent, speaker_replacement, Token, replace_all};
use blume::Error;

fn line_action(text: &[u8]) -> Action {
    Action {
        export: None,
        call: false,
        opcode: OP_LINE,
        params: vec![Parameter::LocalPointer(0)],
        data: encode_string(&text.to_vec()).unwrap(),
    }
}

fn yield_action() -> Action {
    Action {
        export: None,
        call: false,
        opcode: OP_YIELD,
        params: vec![],
        data: vec![],
    }
}

fn doc_with_one_line() -> Stcm2 {
    Stcm2 {
        tag: vec![0; 27],
        global_data: vec![],
        actions: vec![
            (Address { orig: 108, sub: 0 }, line_action(b"old text")),
            (Address { orig: 140, sub: 0 }, yield_action()),
        ],
    }
}

#[test]
fn ninety_unit_replacement_needs_three_lines() {
    let doc = doc_with_one_line();
    // 45 fullwidth characters: 90 display units against a width of 44
    let wide: String = std::iter::repeat('\u{3042}').take(45).collect();
    let patched = patch(&doc, vec![(108, wide)]).unwrap();
    // the window is replaced by at least 3 Line actions, then the closer
    let lines: Vec<&(Address, Action)> = patched.actions.iter()
        .filter(|(_, a)| a.opcode == OP_LINE && !a.call)
        .collect();
    assert!(lines.len() >= 3);
    // inserted under ascending sub-indices of the original address
    for (k, (addr, _)) in lines.iter().enumerate() {
        assert_eq!(*addr, Address { orig: 108, sub: k as u32 });
    }
    // each line decodes on its own, stays within the display width, and
    // the pieces concatenate (indentation dropped) to the replacement
    let mut joined: Vec<u8> = Vec::new();
    for (_, a) in &lines {
        let piece = decode_string(0, &a.data).unwrap();
        let toks = tokenize(&piece).unwrap();
        let width: usize = toks.iter().map(|t| t.width()).sum();
        assert!(width <= 44);
        joined.extend_from_slice(&piece);
    }
    // drop the fullwidth-space indents that continuation lines start with
    let mut j = 0;
    let mut without_indent = Vec::new();
    while j < joined.len() {
        if j + 1 < joined.len() && joined[j] == 0x81 && joined[j + 1] == 0x40 {
            j += 2;
        } else {
            without_indent.push(joined[j]);
            j += 1;
        }
    }
    let expected: Vec<u8> = std::iter::repeat([0x82u8, 0xa0u8]).take(45).flatten().collect();
    assert_eq!(without_indent, expected);
    // the closer passes through untouched
    assert_eq!(patched.actions.last().unwrap().0, Address { orig: 140, sub: 0 });
}

#[test]
fn untranslated_window_passes_through() {
    let doc = doc_with_one_line();
    let patched = patch(&doc, vec![]).unwrap();
    assert_eq!(patched.actions, doc.actions);
}

#[test]
fn stale_translation_is_fatal() {
    let doc = doc_with_one_line();
    assert_eq!(
        patch(&doc, vec![(9999, "x".to_string())]),
        Err(Error::UnmatchedTranslation(9999))
    );
}

#[test]
fn unknown_speaker_is_fatal() {
    let speaker = Action {
        export: None,
        call: false,
        opcode: OP_SPEAKER,
        params: vec![Parameter::LocalPointer(0)],
        data: encode_string(&b"nobody".to_vec()).unwrap(),
    };
    let doc = Stcm2 {
        tag: vec![0; 27],
        global_data: vec![],
        actions: vec![
            (Address { orig: 108, sub: 0 }, speaker),
            (Address { orig: 150, sub: 0 }, yield_action()),
        ],
    };
    assert_eq!(patch(&doc, vec![]), Err(Error::UnknownSpeaker(108)));
}

#[test]
fn speaker_names_are_replaced() {
    // the on-screen name of Daniela, in the source encoding
    let jp = vec![0x83u8, 0x5f, 0x83, 0x6a, 0x83, 0x47, 0x83, 0x89];
    let speaker = Action {
        export: None,
        call: false,
        opcode: OP_SPEAKER,
        params: vec![Parameter::LocalPointer(0)],
        data: encode_string(&jp).unwrap(),
    };
    let doc = Stcm2 {
        tag: vec![0; 27],
        global_data: vec![],
        actions: vec![
            (Address { orig: 108, sub: 0 }, speaker),
            (Address { orig: 160, sub: 0 }, line_action(b"x")),
            (Address { orig: 200, sub: 0 }, yield_action()),
        ],
    };
    let patched = patch(&doc, vec![]).unwrap();
    let renamed = decode_string(0, &patched.actions[0].1.data).unwrap();
    assert_eq!(renamed, b"Daniela".to_vec());
}

#[test]
fn mary_is_rewritten_to_the_placeholder() {
    let doc = doc_with_one_line();
    let patched = patch(&doc, vec![(108, "Mary waves.".to_string())]).unwrap();
    let piece = decode_string(0, &patched.actions[0].1.data).unwrap();
    assert_eq!(piece, b"#Name[1] waves.".to_vec());
}

#[test]
fn speaker_replacement_table() {
    let tag = b"#Name[1]".to_vec();
    assert_eq!(
        speaker_replacement(&tag),
        Some(encode_string(&tag).unwrap())
    );
    assert_eq!(speaker_replacement(&b"nobody".to_vec()), None);
}

#[test]
fn tokenize_classifies_units() {
    let toks = tokenize(&b"#Name[1]a".to_vec()).unwrap();
    assert_eq!(toks, vec![Token::Name, Token::Halfwidth(b'a')]);
    let toks2 = tokenize(&vec![0x82, 0xa0, b'b']).unwrap();
    assert_eq!(toks2, vec![Token::Fullwidth(0x82, 0xa0), Token::Halfwidth(b'b')]);
    assert_eq!(tokenize(&vec![0x82]), Err(Error::Encoding));
    assert_eq!(Token::Name.width(), 10);
    assert_eq!(Token::Fullwidth(0x82, 0xa0).width(), 2);
    assert_eq!(Token::Halfwidth(b'a').width(), 1);
}

#[test]
fn wrapping_prefers_whitespace() {
    // two words of 30 halfwidth units each cannot share a 45-unit line
    let mut bytes = Vec::new();
    bytes.extend(std::iter::repeat(b'a').take(30));
    bytes.push(b' ');
    bytes.extend(std::iter::repeat(b'b').take(30));
    let toks = tokenize(&bytes).unwrap();
    let lines = split_lines_intelligent(&toks);
    assert_eq!(lines.len(), 2);
    assert_eq!(lines[0], std::iter::repeat(b'a').take(30).collect::<Vec<u8>>());
    assert_eq!(lines[1], std::iter::repeat(b'b').take(30).collect::<Vec<u8>>());
}

#[test]
fn wrapping_keeps_short_text_on_one_line() {
    let toks = tokenize(&b"short line".to_vec()).unwrap();
    let lines = split_lines_intelligent(&toks);
    assert_eq!(lines, vec![b"short line".to_vec()]);
}

#[test]
fn replace_all_rewrites_every_occurrence() {
    let s: Vec<char> = "xMaryxMary".chars().collect();
    let from: Vec<char> = "Mary".chars().collect();
    let to: Vec<char> = "#Name[1]".chars().collect();
    let r: String = replace_all(&s, &from, &to).into_iter().collect();
    assert_eq!(r, "x#Name[1]x#Name[1]");
}

#[test]
fn speaker_inside_open_window_is_fatal() {
    let jp = vec![0x83u8, 0x5f, 0x83, 0x6a, 0x83, 0x47, 0x83, 0x89];
    let speaker = Action {
        export: None,
        call: false,
        opcode: OP_SPEAKER,
        params: vec![Parameter::LocalPointer(0)],
        data: encode_string(&jp).unwrap(),
    };
    let doc = Stcm2 {
        tag: vec![0; 27],
        global_data: vec![],
        actions: vec![
            (Address { orig: 108, sub: 0 }, line_action(b"x")),
            (Address { orig: 140, sub: 0 }, speaker),
        ],
    };
    assert_eq!(patch(&doc, vec![]), Err(Error::OverlappingWindow(140)));
}

#[test]
fn special_value_line_passes_through() {
    let special = Action {
        export: None,
        call: false,
        opcode: OP_LINE,
        params: vec![Parameter::Value(212)],
        data: vec![],
    };
    let doc = Stcm2 {
        tag: vec![0; 27],
        global_data: vec![],
        actions: vec![
            (Address { orig: 108, sub: 0 }, special.clone()),
            (Address { orig: 124, sub: 0 }, yield_action()),
        ],
    };
    let patched = patch(&doc, vec![]).unwrap();
    assert_eq!(patched.actions[0].1, special);
}

#[test]
fn choice_keeps_buffered_lines() {
    let choice = Action {
        export: None,
        call: false,
        opcode: OP_CHOICE,
        params: vec![Parameter::LocalPointer(0), Parameter::Value(1)],
        data: encode_string(&b"opt".to_vec()).unwrap(),
    };
    let doc = Stcm2 {
        tag: vec![0; 27],
        global_data: vec![],
        actions: vec![
            (Address { orig: 108, sub: 0 }, line_action(b"prompt")),
            (Address { orig: 150, sub: 0 }, choice),
            (Address { orig: 190, sub: 0 }, yield_action()),
        ],
    };
    // even with a translation staged for the window, a choice is excluded
    // from patching and the buffered line passes through with it
    let r = patch(&doc, vec![(108, "tl".to_string())]);
    assert_eq!(r, Err(Error::UnmatchedTranslation(108)));
    let patched = patch(&doc, vec![]).unwrap();
    assert_eq!(patched.actions.len(), 3);
    assert_eq!(patched.actions[0].0, Address { orig: 108, sub: 0 });
}

#[test]
fn window_open_at_end_is_fatal() {
    let doc = Stcm2 {
        tag: vec![0; 27],
        global_data: vec![],
        actions: vec![(Address { orig: 108, sub: 0 }, line_action(b"dangling"))],
    };
    assert_eq!(patch(&doc, vec![]), Err(Error::UnclosedWindow(108)));
}

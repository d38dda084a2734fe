//! The dialogue extractor: a single-pass fold over decoded actions, in
//! Address order, into higher-level Dialogue units.
//!
//! Speaker text accumulates into a speaker buffer, line text into a line
//! buffer, choice options into an option list; any other action flushes:
//! a non-empty line buffer becomes a `Choice` when options are pending,
//! else a `Line`.  Text is decoded from Shift-JIS and trimmed of
//! whitespace and the interpunct.

use vstd::prelude::*;
use vstd::string::*;
use crate::Error;
use crate::sjis::{sjis_decode_of, decode_sjis};
use crate::stcm2::format::{Operation, OperationV};

verus! {

broadcast use vstd::seq::group_seq_axioms;

/// One extracted dialogue unit.
#[derive(Clone, Debug, PartialEq, Eq)]
pub enum Dialogue {
    Choice {
        addr: u32,
        prompt: String,
        options: Vec<String>,
    },
    Line {
        addr: u32,
        speaker: String,
        line: String,
    },
}

/// Mathematical model of a `Dialogue`.
#[verifier::ext_equal]
pub enum DialogueV {
    Choice {
        addr: u32,
        prompt: Seq<char>,
        options: Seq<Seq<char>>,
    },
    Line {
        addr: u32,
        speaker: Seq<char>,
        line: Seq<char>,
    },
}

impl View for Dialogue {
    type V = DialogueV;

    open spec fn view(&self) -> DialogueV {
        match self {
            Dialogue::Choice { addr, prompt, options } => DialogueV::Choice {
                addr: *addr,
                prompt: prompt@,
                options: Seq::new(options@.len(), |i: int| options@[i]@),
            },
            Dialogue::Line { addr, speaker, line } => DialogueV::Line {
                addr: *addr,
                speaker: speaker@,
                line: line@,
            },
        }
    }
}

/// The models of a run of dialogue units.
pub open spec fn dialogue_views(ds: Seq<Dialogue>) -> Seq<DialogueV> {
    Seq::new(ds.len(), |i: int| ds[i]@)
}

/// The models of a run of operations.
pub open spec fn op_views(ops: Seq<Operation>) -> Seq<OperationV> {
    Seq::new(ops.len(), |i: int| ops[i]@)
}

/// A character the extractor strips from line ends: Unicode whitespace or
/// the interpunct that pads names in the scripts.
pub open spec fn is_trimmable(c: char) -> bool {
    ||| c == ' '
    ||| ('\u{0009}' <= c && c <= '\u{000d}')
    ||| c == '\u{0085}'
    ||| c == '\u{00a0}'
    ||| c == '\u{1680}'
    ||| ('\u{2000}' <= c && c <= '\u{200a}')
    ||| c == '\u{2028}'
    ||| c == '\u{2029}'
    ||| c == '\u{202f}'
    ||| c == '\u{205f}'
    ||| c == '\u{3000}'
    ||| c == '\u{30fb}'
}

fn is_trimmable_char(c: char) -> (r: bool)
    ensures
        r == is_trimmable(c),
{
    c == ' '
        || ('\u{0009}' <= c && c <= '\u{000d}')
        || c == '\u{0085}'
        || c == '\u{00a0}'
        || c == '\u{1680}'
        || ('\u{2000}' <= c && c <= '\u{200a}')
        || c == '\u{2028}'
        || c == '\u{2029}'
        || c == '\u{202f}'
        || c == '\u{205f}'
        || c == '\u{3000}'
        || c == '\u{30fb}'
}

/// `s` without its trimmable prefix.
pub open spec fn trim_front(s: Seq<char>) -> Seq<char>
    decreases s.len(),
{
    if s.len() > 0 && is_trimmable(s.first()) {
        trim_front(s.drop_first())
    } else {
        s
    }
}

/// `s` without its trimmable suffix.
pub open spec fn trim_back(s: Seq<char>) -> Seq<char>
    decreases s.len(),
{
    if s.len() > 0 && is_trimmable(s.last()) {
        trim_back(s.drop_last())
    } else {
        s
    }
}

/// `s` with trimmable characters stripped from both ends.
pub open spec fn spec_trim(s: Seq<char>) -> Seq<char> {
    trim_back(trim_front(s))
}

/// Strips whitespace and the interpunct from both ends.
pub fn trim(s: &str) -> (r: String)
    ensures
        r@ == spec_trim(s@),
{
    let n = s.unicode_len();
    let mut a: usize = 0;
    proof {
        assert(s@.skip(0) =~= s@);
    }
    while a < n && is_trimmable_char(s.get_char(a))
        invariant
            a <= n,
            n == s@.len(),
            trim_front(s@) == trim_front(s@.skip(a as int)),
        decreases n - a,
    {
        proof {
            assert(s@.skip(a as int).drop_first() =~= s@.skip(a as int + 1));
            assert(s@.skip(a as int).first() == s@[a as int]);
        }
        a = a + 1;
    }
    proof {
        if a < n {
            assert(s@.skip(a as int).first() == s@[a as int]);
        }
        assert(trim_front(s@) == s@.skip(a as int));
    }
    let mut b: usize = n;
    while b > a && is_trimmable_char(s.get_char(b - 1))
        invariant
            a <= b <= n,
            n == s@.len(),
            trim_front(s@) == s@.skip(a as int),
            trim_back(s@.subrange(a as int, n as int))
                == trim_back(s@.subrange(a as int, b as int)),
        decreases b,
    {
        proof {
            assert(s@.subrange(a as int, b as int).drop_last()
                =~= s@.subrange(a as int, b as int - 1));
            assert(s@.subrange(a as int, b as int).last() == s@[b - 1]);
        }
        b = b - 1;
    }
    proof {
        if b > a {
            assert(s@.subrange(a as int, b as int).last() == s@[b - 1]);
        }
        assert(trim_back(s@.subrange(a as int, b as int))
            == s@.subrange(a as int, b as int));
        assert(s@.skip(a as int) =~= s@.subrange(a as int, n as int));
        assert(spec_trim(s@) == s@.subrange(a as int, b as int));
    }
    let piece = s.substring_char(a, b);
    String::from_str(piece)
}

/// The running state of the fold.
#[verifier::ext_equal]
pub struct FoldStV {
    pub addr: Option<u32>,
    pub speaker: Seq<char>,
    pub options: Seq<Seq<char>>,
    pub line: Seq<char>,
}

/// The state after everything has been flushed.
pub open spec fn fold_st_empty() -> FoldStV {
    FoldStV { addr: None, speaker: Seq::empty(), options: Seq::empty(), line: Seq::empty() }
}

/// What the dialogue fold gives on every run of operations, from a state
/// and the units already emitted.
pub open spec fn spec_fold(
    ops: Seq<OperationV>,
    st: FoldStV,
    acc: Seq<DialogueV>,
) -> Result<Seq<DialogueV>, Error>
    decreases ops.len(),
{
    if ops.len() == 0 {
        Ok(acc)
    } else {
        match ops.first() {
            OperationV::Line { addr, s } => {
                if st.options.len() > 0 {
                    Err(Error::Format)
                } else {
                    match sjis_decode_of(s) {
                        None => Err(Error::Encoding),
                        Some(txt) => spec_fold(ops.drop_first(), FoldStV {
                            addr: if st.addr is None { Some(addr) } else { st.addr },
                            line: st.line + spec_trim(txt),
                            ..st
                        }, acc),
                    }
                }
            }
            OperationV::Choice { addr, id: _, s } => {
                match sjis_decode_of(s) {
                    None => Err(Error::Encoding),
                    Some(txt) => spec_fold(ops.drop_first(), FoldStV {
                        addr: if st.addr is None { Some(addr) } else { st.addr },
                        options: st.options.push(txt),
                        ..st
                    }, acc),
                }
            }
            OperationV::Speaker { addr, s } => {
                if st.speaker.len() > 0 || st.options.len() > 0 {
                    Err(Error::Format)
                } else {
                    match sjis_decode_of(s) {
                        None => Err(Error::Encoding),
                        Some(txt) => spec_fold(ops.drop_first(), FoldStV {
                            addr: if st.addr is None { Some(addr) } else { st.addr },
                            speaker: st.speaker + txt,
                            ..st
                        }, acc),
                    }
                }
            }
            OperationV::Unknown(_) => {
                if st.line.len() == 0 {
                    spec_fold(ops.drop_first(), fold_st_empty(), acc)
                } else if st.options.len() > 0 {
                    match st.addr {
                        None => Err(Error::Format),
                        Some(a) => spec_fold(ops.drop_first(), fold_st_empty(),
                            acc.push(DialogueV::Choice {
                                addr: a,
                                prompt: st.line,
                                options: st.options,
                            })),
                    }
                } else {
                    match st.addr {
                        None => Err(Error::Format),
                        Some(a) => spec_fold(ops.drop_first(), fold_st_empty(),
                            acc.push(DialogueV::Line {
                                addr: a,
                                speaker: st.speaker,
                                line: st.line,
                            })),
                    }
                }
            }
        }
    }
}

/// The string payloads are small enough to decode (a machine limit; any
/// real script is far below it).
pub open spec fn ops_payloads_small(ops: Seq<OperationV>) -> bool {
    forall|i: int| 0 <= i < ops.len() ==> match #[trigger] ops[i] {
        OperationV::Speaker { s, .. } => s.len() < 0x1000_0000,
        OperationV::Line { s, .. } => s.len() < 0x1000_0000,
        OperationV::Choice { s, .. } => s.len() < 0x1000_0000,
        OperationV::Unknown(_) => true,
    }
}

/// Folds decoded actions into dialogue units, exactly as `spec_fold` says
/// from the empty state.
///
/// Fails with `Encoding` when a payload is not valid Shift-JIS, and with
/// `Format` when the run violates the state machine: options pending at a
/// plain line, a second speaker before a flush, or text with no address.
#[verifier::loop_isolation(false)]
pub fn parse(ops: &Vec<Operation>) -> (r: Result<Vec<Dialogue>, Error>)
    requires
        ops_payloads_small(op_views(ops@)),
    ensures
        match r {
            Ok(ds) => spec_fold(op_views(ops@), fold_st_empty(), Seq::empty())
                == Ok::<Seq<DialogueV>, Error>(dialogue_views(ds@)),
            Err(e) => spec_fold(op_views(ops@), fold_st_empty(), Seq::empty())
                == Err::<Seq<DialogueV>, Error>(e),
        },
{
    let ghost ovs = op_views(ops@);
    let ghost target = spec_fold(ovs, fold_st_empty(), Seq::empty());
    let n = ops.len();
    let mut di: Vec<Dialogue> = Vec::new();
    let mut st_addr: Option<u32> = None;
    let mut st_speaker: String = String::new();
    let mut st_options: Vec<String> = Vec::new();
    let mut st_line: String = String::new();
    let mut i: usize = 0;
    proof {
        let st0 = FoldStV {
            addr: st_addr,
            speaker: st_speaker@,
            options: Seq::new(st_options@.len(), |k: int| st_options@[k]@),
            line: st_line@,
        };
        assert(st0 =~= fold_st_empty());
        assert(dialogue_views(di@) =~= Seq::<DialogueV>::empty());
        assert(ovs.skip(0) =~= ovs);
    }
    while i < n
        invariant
            i <= n,
            n == ops@.len(),
            spec_fold(ovs.skip(i as int), FoldStV {
                addr: st_addr,
                speaker: st_speaker@,
                options: Seq::new(st_options@.len(), |k: int| st_options@[k]@),
                line: st_line@,
            }, dialogue_views(di@)) == target,
        decreases n - i,
    {
        let ghost stv = FoldStV {
            addr: st_addr,
            speaker: st_speaker@,
            options: Seq::new(st_options@.len(), |k: int| st_options@[k]@),
            line: st_line@,
        };
        let ghost dv = dialogue_views(di@);
        proof {
            assert(ovs.skip(i as int).first() == ovs[i as int]);
            assert(ovs.skip(i as int).drop_first() =~= ovs.skip(i as int + 1));
            assert(ovs[i as int] == ops@[i as int]@);
        }
        let op = &ops[i];
        match op {
            Operation::Line { addr, s } => {
                if st_options.len() > 0 {
                    return Err(Error::Format);
                }
                match decode_sjis(s) {
                    None => {
                        return Err(Error::Encoding);
                    }
                    Some(txt) => {
                        if st_addr.is_none() {
                            st_addr = Some(*addr);
                        }
                        let piece = trim(txt.as_str());
                        st_line.append(piece.as_str());
                        proof {
                            let st1 = FoldStV {
                                addr: st_addr,
                                speaker: st_speaker@,
                                options: Seq::new(st_options@.len(), |k: int| st_options@[k]@),
                                line: st_line@,
                            };
                            assert(st1 =~= (FoldStV {
                                addr: if stv.addr is None { Some(*addr) } else { stv.addr },
                                line: stv.line + spec_trim(txt@),
                                ..stv
                            }));
                        }
                    }
                }
            }
            Operation::Choice { addr, id: _, s } => {
                match decode_sjis(s) {
                    None => {
                        return Err(Error::Encoding);
                    }
                    Some(txt) => {
                        if st_addr.is_none() {
                            st_addr = Some(*addr);
                        }
                        let ghost opts0 = st_options@;
                        st_options.push(txt);
                        proof {
                            let st1 = FoldStV {
                                addr: st_addr,
                                speaker: st_speaker@,
                                options: Seq::new(st_options@.len(), |k: int| st_options@[k]@),
                                line: st_line@,
                            };
                            assert(Seq::new(st_options@.len(), |k: int| st_options@[k]@)
                                =~= stv.options.push(txt@));
                            assert(st1 =~= (FoldStV {
                                addr: if stv.addr is None { Some(*addr) } else { stv.addr },
                                options: stv.options.push(txt@),
                                ..stv
                            }));
                        }
                    }
                }
            }
            Operation::Speaker { addr, s } => {
                if !st_speaker.as_str().is_empty() || st_options.len() > 0 {
                    return Err(Error::Format);
                }
                match decode_sjis(s) {
                    None => {
                        return Err(Error::Encoding);
                    }
                    Some(txt) => {
                        if st_addr.is_none() {
                            st_addr = Some(*addr);
                        }
                        st_speaker.append(txt.as_str());
                        proof {
                            let st1 = FoldStV {
                                addr: st_addr,
                                speaker: st_speaker@,
                                options: Seq::new(st_options@.len(), |k: int| st_options@[k]@),
                                line: st_line@,
                            };
                            assert(st1 =~= (FoldStV {
                                addr: if stv.addr is None { Some(*addr) } else { stv.addr },
                                speaker: stv.speaker + txt@,
                                ..stv
                            }));
                        }
                    }
                }
            }
            Operation::Unknown(_) => {
                if !st_line.as_str().is_empty() {
                    let a = match st_addr {
                        Some(a) => a,
                        None => {
                            return Err(Error::Format);
                        }
                    };
                    let line = st_line;
                    st_line = String::new();
                    let speaker = st_speaker;
                    st_speaker = String::new();
                    let options = st_options;
                    st_options = Vec::new();
                    let ghost dv0 = dialogue_views(di@);
                    if options.len() > 0 {
                        di.push(Dialogue::Choice { addr: a, prompt: line, options });
                        proof {
                            assert(dialogue_views(di@) =~= dv0.push(DialogueV::Choice {
                                addr: a,
                                prompt: stv.line,
                                options: stv.options,
                            }));
                        }
                    } else {
                        di.push(Dialogue::Line { addr: a, speaker, line });
                        proof {
                            assert(dialogue_views(di@) =~= dv0.push(DialogueV::Line {
                                addr: a,
                                speaker: stv.speaker,
                                line: stv.line,
                            }));
                        }
                    }
                } else {
                    st_line = String::new();
                    st_speaker = String::new();
                    st_options = Vec::new();
                }
                st_addr = None;
                proof {
                    let st1 = FoldStV {
                        addr: st_addr,
                        speaker: st_speaker@,
                        options: Seq::new(st_options@.len(), |k: int| st_options@[k]@),
                        line: st_line@,
                    };
                    assert(st1 =~= fold_st_empty());
                }
            }
        }
        i = i + 1;
    }
    proof {
        assert(ovs.skip(n as int) =~= Seq::<OperationV>::empty());
    }
    Ok(di)
}

} // verus!

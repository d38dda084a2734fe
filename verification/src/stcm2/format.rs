//! Structural codec for one STCM2 script blob.
//!
//! A blob is: a 5-byte magic, a 27-byte format tag, the export table offset
//! and count, ten reserved zero words, a global-data region found by
//! scanning in 16-byte strides for the code-start marker, a run of Action
//! records, and the export table.  All integers are little-endian `u32`.
//!
//! Decoding (`from_bytes`) is stated exactly by the spec-level parser
//! `spec_from_bytes`; encoding (`to_bytes`) performs deferred address
//! relocation with random sentinels and a fixed-point resolver sweep.

use vstd::prelude::*;
use crate::Error;
use crate::words::{word_at, w32, zeros, off32, off32_of, read_u32_le, put_u32_le, put_zeros, bytes_eq_at, lemma_word_at_of_w32, write_u32_at};

verus! {

broadcast use vstd::seq::group_seq_axioms;

/// Position of an Action: the byte offset it had in the source blob, and
/// the ordinal of an action synthesized at that offset while patching
/// (0 for the original, counting up for each inserted replacement).
#[derive(Clone, Copy, Debug, PartialEq, Eq, Hash, Structural)]
pub struct Address {
    pub orig: u32,
    pub sub: u32,
}

/// Lexicographic order on addresses: original offset first, sub-index as
/// the tie-breaker, so inserted actions keep their place in the on-disk
/// iteration order.
pub open spec fn addr_lt(a: Address, b: Address) -> bool {
    a.orig < b.orig || (a.orig == b.orig && a.sub < b.sub)
}

impl Address {
    /// Strict lexicographic comparison.
    pub fn lt(&self, other: &Address) -> (r: bool)
        ensures
            r == addr_lt(*self, *other),
    {
        self.orig < other.orig || (self.orig == other.orig && self.sub < other.sub)
    }
}

/// Address ordering is strict and total: addresses inserted at one
/// original offset ascend with their sub-index, an original-only address
/// (sub 0) comes before all of them, and any two distinct addresses are
/// ordered one way exactly.
pub proof fn lemma_address_ordering(a: u32, i: u32, j: u32, other: Address)
    ensures
        i < j ==> addr_lt(Address { orig: a, sub: i }, Address { orig: a, sub: j }),
        other.orig < a ==> addr_lt(other, Address { orig: a, sub: i }),
        a < other.orig ==> addr_lt(Address { orig: a, sub: i }, other),
{
}

/// `addr_lt` is a strict total order.
pub proof fn lemma_addr_lt_strict_total(x: Address, y: Address, z: Address)
    ensures
        !addr_lt(x, x),
        addr_lt(x, y) ==> !addr_lt(y, x),
        addr_lt(x, y) && addr_lt(y, z) ==> addr_lt(x, z),
        x != y ==> addr_lt(x, y) || addr_lt(y, x),
{
}

/// A typed operand of an Action.
#[derive(Clone, Copy, Debug, PartialEq, Eq, Structural)]
pub enum Parameter {
    /// Refers to another Action by its original byte offset.
    GlobalPointer(u32),
    /// An offset into the owning Action's trailing data blob.
    LocalPointer(u32),
    /// An opaque 32-bit immediate.
    Value(u32),
}

/// Classification of one 3-word wire parameter, given where the owning
/// record's data blob sits (`data_addr`) and how long it is (`data_len`).
/// Exactly one wire pattern maps to each variant; anything else is
/// rejected.
pub open spec fn spec_param_parse(
    v0: u32,
    v1: u32,
    v2: u32,
    data_addr: u32,
    data_len: u32,
) -> Result<Parameter, Error> {
    if v0 == 0xffffff41u32 && v2 == 0xff000000u32 {
        Ok(Parameter::GlobalPointer(v1))
    } else if v1 == 0xff000000u32 && v2 == 0xff000000u32 {
        if (v0 & 0xff000000u32) != 0xff000000u32
            && data_addr <= v0 && v0 < data_addr + data_len {
            Ok(Parameter::LocalPointer((v0 - data_addr) as u32))
        } else {
            Ok(Parameter::Value(v0))
        }
    } else {
        Err(Error::Format)
    }
}

impl Parameter {
    /// Decodes one wire parameter.  The data window must not wrap the
    /// 32-bit address space (the record layout guarantees this).
    pub fn parse(value: [u32; 3], data_addr: u32, data_len: u32) -> (r: Result<Parameter, Error>)
        requires
            data_addr + data_len <= u32::MAX,
        ensures
            r == spec_param_parse(value[0], value[1], value[2], data_addr, data_len),
    {
        let v0 = value[0];
        let v1 = value[1];
        let v2 = value[2];
        if v0 == 0xffffff41u32 && v2 == 0xff000000u32 {
            Ok(Parameter::GlobalPointer(v1))
        } else if v1 == 0xff000000u32 && v2 == 0xff000000u32 {
            if (v0 & 0xff000000u32) != 0xff000000u32
                && v0 >= data_addr && v0 < data_addr + data_len {
                Ok(Parameter::LocalPointer(v0 - data_addr))
            } else {
                Ok(Parameter::Value(v0))
            }
        } else {
            Err(Error::Format)
        }
    }
}

/// The wire words a parameter is emitted as, once its pointers are
/// resolved: `target` is the resolved file offset for a global pointer,
/// `data_off` the resolved file offset of the owning record's data blob.
pub open spec fn spec_param_resolved(p: Parameter, target: u32, data_off: u32) -> (u32, u32, u32) {
    match p {
        Parameter::GlobalPointer(_) => (0xffffff41u32, target, 0xff000000u32),
        Parameter::LocalPointer(off) => ((data_off + off) as u32, 0xff000000u32, 0xff000000u32),
        Parameter::Value(v) => (v, 0xff000000u32, 0xff000000u32),
    }
}

/// Wire round-trip of a parameter (the relocation-free part of the codec
/// round-trip): a resolved local pointer or an immediate parses back to
/// itself, and a resolved global pointer parses back as a global pointer
/// to the resolved offset.
pub proof fn lemma_param_words_round_trip(p: Parameter, target: u32, data_addr: u32, data_len: u32)
    requires
        data_addr + data_len <= u32::MAX,
        (p matches Parameter::LocalPointer(off) ==> off < data_len
            && ((data_addr + off) as u32) & 0xff000000u32 != 0xff000000u32),
        (p matches Parameter::Value(v) ==> v != 0xffffff41u32
            && (v & 0xff000000u32 == 0xff000000u32
                || !(data_addr <= v < data_addr + data_len))),
    ensures
        ({
            let (v0, v1, v2) = spec_param_resolved(p, target, data_addr);
            match p {
                Parameter::GlobalPointer(_) =>
                    spec_param_parse(v0, v1, v2, data_addr, data_len)
                        == Ok::<Parameter, Error>(Parameter::GlobalPointer(target)),
                _ => spec_param_parse(v0, v1, v2, data_addr, data_len)
                        == Ok::<Parameter, Error>(p),
            }
        }),
{
    match p {
        Parameter::LocalPointer(off) => {
            assert(0xffffff41u32 & 0xff000000u32 == 0xff000000u32) by (bit_vector);
            assert(data_addr <= (data_addr + off) as u32);
            assert(((data_addr + off) as u32) < data_addr + data_len);
            assert(((data_addr + off) as u32 - data_addr) as u32 == off);
        }
        _ => {}
    }
}

/// One bytecode record: an optional 32-byte export label, whether the
/// opcode field is really a call target, the opcode (or target), the
/// ordered parameters, and the trailing data blob.
#[derive(Clone, Debug, PartialEq, Eq)]
pub struct Action {
    pub export: Option<Vec<u8>>,
    pub call: bool,
    pub opcode: u32,
    pub params: Vec<Parameter>,
    pub data: Vec<u8>,
}

/// Mathematical model of an `Action`.
#[verifier::ext_equal]
pub struct ActionV {
    pub export: Option<Seq<u8>>,
    pub call: bool,
    pub opcode: u32,
    pub params: Seq<Parameter>,
    pub data: Seq<u8>,
}

impl View for Action {
    type V = ActionV;

    open spec fn view(&self) -> ActionV {
        ActionV {
            export: match self.export {
                Some(e) => Some(e@),
                None => None,
            },
            call: self.call,
            opcode: self.opcode,
            params: self.params@,
            data: self.data@,
        }
    }
}

/// A decoded view of one action: one of the dialogue opcodes with its
/// string payload extracted, or anything else left opaque to be copied
/// verbatim.
#[derive(Clone, Debug, PartialEq, Eq)]
pub enum Operation {
    Speaker { addr: u32, s: Vec<u8> },
    Line { addr: u32, s: Vec<u8> },
    Choice { addr: u32, id: u32, s: Vec<u8> },
    Unknown(Action),
}

/// Mathematical model of an `Operation`.
#[verifier::ext_equal]
pub enum OperationV {
    Speaker { addr: u32, s: Seq<u8> },
    Line { addr: u32, s: Seq<u8> },
    Choice { addr: u32, id: u32, s: Seq<u8> },
    Unknown(ActionV),
}

impl View for Operation {
    type V = OperationV;

    open spec fn view(&self) -> OperationV {
        match self {
            Operation::Speaker { addr, s } => OperationV::Speaker { addr: *addr, s: s@ },
            Operation::Line { addr, s } => OperationV::Line { addr: *addr, s: s@ },
            Operation::Choice { addr, id, s } =>
                OperationV::Choice { addr: *addr, id: *id, s: s@ },
            Operation::Unknown(a) => OperationV::Unknown(a@),
        }
    }
}

/// The single local-pointer parameter of a dialogue action, when its
/// parameter list has exactly that shape.
pub open spec fn single_local(ps: Seq<Parameter>) -> Option<u32> {
    if ps.len() == 1 {
        match ps[0] {
            Parameter::LocalPointer(x) => Some(x),
            _ => None,
        }
    } else {
        None
    }
}

/// What classifying one action gives: a call is opaque; the three dialogue
/// opcodes must carry their string payload in the expected parameter
/// shape; everything else is opaque.
pub open spec fn spec_op(a: ActionV, orig_addr: u32) -> Result<OperationV, Error> {
    if a.call {
        Ok(OperationV::Unknown(a))
    } else if a.opcode == OP_SPEAKER {
        match single_local(a.params) {
            Some(p) => match spec_decode_string(p, a.data) {
                Ok(s) => Ok(OperationV::Speaker { addr: orig_addr, s }),
                Err(e) => Err(e),
            },
            None => Err(Error::Format),
        }
    } else if a.opcode == OP_LINE {
        match single_local(a.params) {
            Some(p) => match spec_decode_string(p, a.data) {
                Ok(s) => Ok(OperationV::Line { addr: orig_addr, s }),
                Err(e) => Err(e),
            },
            None => Err(Error::Format),
        }
    } else if a.opcode == OP_CHOICE {
        if a.params.len() == 2 && a.params[0] is LocalPointer && a.params[1] is Value {
            match spec_decode_string(a.params[0]->LocalPointer_0, a.data) {
                Ok(s) => Ok(OperationV::Choice {
                    addr: orig_addr,
                    id: a.params[1]->Value_0,
                    s,
                }),
                Err(e) => Err(e),
            }
        } else {
            Err(Error::Format)
        }
    } else {
        Ok(OperationV::Unknown(a))
    }
}

impl Action {
    /// Classifies this action at the given original address, decoding the
    /// string payload of the dialogue opcodes.
    ///
    /// Fails with `Format` when a dialogue opcode carries the wrong
    /// parameter shape, and with `Structure` when its string record is
    /// malformed.
    pub fn op(self, orig_addr: u32) -> (r: Result<Operation, Error>)
        ensures
            match r {
                Ok(o) => spec_op(self@, orig_addr) == Ok::<OperationV, Error>(o@),
                Err(e) => spec_op(self@, orig_addr) == Err::<OperationV, Error>(e),
            },
    {
        if self.call {
            return Ok(Operation::Unknown(self));
        }
        if self.opcode == OP_SPEAKER || self.opcode == OP_LINE {
            if self.params.len() != 1 {
                return Err(Error::Format);
            }
            let p = match self.params[0] {
                Parameter::LocalPointer(x) => x,
                _ => {
                    return Err(Error::Format);
                }
            };
            let s = match decode_string(p, &self.data) {
                Ok(s) => s,
                Err(e) => {
                    return Err(e);
                }
            };
            if self.opcode == OP_SPEAKER {
                Ok(Operation::Speaker { addr: orig_addr, s })
            } else {
                Ok(Operation::Line { addr: orig_addr, s })
            }
        } else if self.opcode == OP_CHOICE {
            if self.params.len() != 2 {
                return Err(Error::Format);
            }
            let p = match self.params[0] {
                Parameter::LocalPointer(x) => x,
                _ => {
                    return Err(Error::Format);
                }
            };
            let id = match self.params[1] {
                Parameter::Value(v) => v,
                _ => {
                    return Err(Error::Format);
                }
            };
            let s = match decode_string(p, &self.data) {
                Ok(s) => s,
                Err(e) => {
                    return Err(e);
                }
            };
            Ok(Operation::Choice { addr: orig_addr, id, s })
        } else {
            Ok(Operation::Unknown(self))
        }
    }
}

/// Opcode of a speaker-name action.
pub const OP_SPEAKER: u32 = 0xd4;
/// Opcode of a scene-advance action.
pub const OP_YIELD: u32 = 0xd3;
/// Opcode of a dialogue-line action.
pub const OP_LINE: u32 = 0xd2;
/// Opcode of a choice-option action.
pub const OP_CHOICE: u32 = 0xe7;

/// One whole script: format tag, global data, and the actions keyed and
/// ordered by Address.
#[derive(Clone, Debug, PartialEq, Eq)]
pub struct Stcm2 {
    pub tag: Vec<u8>,
    pub global_data: Vec<u8>,
    pub actions: Vec<(Address, Action)>,
}

/// Mathematical model of a `Stcm2`.
#[verifier::ext_equal]
pub struct Stcm2V {
    pub tag: Seq<u8>,
    pub global_data: Seq<u8>,
    pub actions: Seq<(Address, ActionV)>,
}

/// The models of an action table's pairs.
pub open spec fn pairs_view(acts: Seq<(Address, Action)>) -> Seq<(Address, ActionV)> {
    Seq::new(acts.len(), |i: int| (acts[i].0, acts[i].1@))
}

impl View for Stcm2 {
    type V = Stcm2V;

    open spec fn view(&self) -> Stcm2V {
        Stcm2V {
            tag: self.tag@,
            global_data: self.global_data@,
            actions: pairs_view(self.actions@),
        }
    }
}

/// The action table is strictly ordered by Address (so addresses are also
/// unique).
pub open spec fn actions_sorted(acts: Seq<(Address, ActionV)>) -> bool {
    forall|i: int, j: int| 0 <= i < j < acts.len()
        ==> addr_lt((#[trigger] acts[i]).0, (#[trigger] acts[j]).0)
}

/// Bytes `s` with every trailing NUL removed.
pub open spec fn trim_zeros(s: Seq<u8>) -> Seq<u8>
    decreases s.len(),
{
    if s.len() > 0 && s.last() == 0 {
        trim_zeros(s.drop_last())
    } else {
        s
    }
}

/// What decoding a length-prefixed string record gives on every input:
/// the record must sit at offset 0, carry its two redundant length fields
/// in agreement (`len / 4 == qlen`), and fill the blob exactly; the
/// payload comes back with trailing NUL padding removed.
pub open spec fn spec_decode_string(addr: u32, data: Seq<u8>) -> Result<Seq<u8>, Error> {
    if addr != 0 {
        Err(Error::Structure)
    } else if data.len() < 16 {
        Err(Error::Structure)
    } else {
        let w0 = word_at(data, 0);
        let qlen = word_at(data, 4);
        let w2 = word_at(data, 8);
        let len = word_at(data, 12);
        if w0 != 0 || w2 != 1 {
            Err(Error::Structure)
        } else if len / 4 != qlen {
            Err(Error::Structure)
        } else if data.len() != 16 + len {
            Err(Error::Structure)
        } else {
            Ok(trim_zeros(data.subrange(16, 16 + len)))
        }
    }
}

/// Decodes the string record of an Action's data blob.
///
/// Fails with `Structure` when the record does not begin at the start of
/// the blob, the magic words are off, the redundant lengths disagree, or
/// bytes are left over after the declared length.
pub fn decode_string(addr: u32, data: &Vec<u8>) -> (r: Result<Vec<u8>, Error>)
    ensures
        match r {
            Ok(s) => spec_decode_string(addr, data@) == Ok::<Seq<u8>, Error>(s@),
            Err(e) => spec_decode_string(addr, data@) == Err::<Seq<u8>, Error>(e),
        },
{
    let n = data.len();
    if addr != 0 {
        return Err(Error::Structure);
    }
    if n < 16 {
        return Err(Error::Structure);
    }
    let w0 = read_u32_le(data, 0);
    let qlen = read_u32_le(data, 4);
    let w2 = read_u32_le(data, 8);
    let len = read_u32_le(data, 12);
    if w0 != 0 || w2 != 1 {
        return Err(Error::Structure);
    }
    if len / 4 != qlen {
        return Err(Error::Structure);
    }
    if !(n as u64 == 16 + len as u64) {
        return Err(Error::Structure);
    }
    // cut the payload and clip the zero padding off its end
    let mut end: usize = n;
    while end > 16 && data[end - 1] == 0
        invariant
            16 <= end <= n,
            n == data@.len(),
            n == 16 + len,
            trim_zeros(data@.subrange(16, 16 + len as int))
                == trim_zeros(data@.subrange(16, end as int)),
        decreases end,
    {
        proof {
            assert(data@.subrange(16, end as int).drop_last()
                =~= data@.subrange(16, end as int - 1));
        }
        end = end - 1;
    }
    proof {
        assert(trim_zeros(data@.subrange(16, end as int))
            == data@.subrange(16, end as int));
    }
    let s = vstd::slice::slice_to_vec(
        vstd::slice::slice_subrange(data.as_slice(), 16, end));
    Ok(s)
}

/// The wire form of a string record: two redundant lengths (in 4-byte
/// units and in bytes), the payload, and NUL padding to a 4-byte boundary.
pub open spec fn spec_encode_string(s: Seq<u8>) -> Seq<u8> {
    let qlen = (s.len() + 3) / 4;
    w32(0) + w32(qlen as u32) + w32(1) + w32((qlen * 4) as u32)
        + s + zeros(qlen * 4 - s.len())
}

/// Encodes bytes as a string record.  Fails with `Overflow` only when the
/// padded length does not fit the record's 32-bit length field.
pub fn encode_string(enc: &Vec<u8>) -> (r: Result<Vec<u8>, Error>)
    ensures
        enc@.len() <= 0xffff_fffc ==> (r matches Ok(b) && b@ == spec_encode_string(enc@)),
        enc@.len() > 0xffff_fffc ==> r == Err::<Vec<u8>, Error>(Error::Overflow),
{
    let n = enc.len();
    if n as u64 > 0xffff_fffc {
        return Err(Error::Overflow);
    }
    let qlen: u64 = (n as u64 + 3) / 4;
    let mut b: Vec<u8> = Vec::new();
    put_u32_le(&mut b, 0);
    put_u32_le(&mut b, qlen as u32);
    put_u32_le(&mut b, 1);
    put_u32_le(&mut b, (qlen * 4) as u32);
    b.extend_from_slice(enc.as_slice());
    let pad: usize = (qlen * 4 - n as u64) as usize;
    put_zeros(&mut b, pad);
    proof {
        assert(b@ =~= spec_encode_string(enc@));
    }
    Ok(b)
}

proof fn lemma_trim_zeros_pad(s: Seq<u8>, n: int)
    requires
        n >= 0,
    ensures
        trim_zeros(s + zeros(n)) == trim_zeros(s),
    decreases n,
{
    if n == 0 {
        assert(s + zeros(0) =~= s);
    } else {
        assert((s + zeros(n)).last() == 0);
        assert((s + zeros(n)).drop_last() =~= s + zeros(n - 1));
        lemma_trim_zeros_pad(s, n - 1);
    }
}

/// String-record round-trip (the text-carrying part of the codec
/// round-trip): decoding an encoded record gives the payload back, with
/// its trailing NULs clipped just as the decoder clips the padding.
pub proof fn lemma_string_round_trip(s: Seq<u8>)
    requires
        s.len() <= 0xffff_fffc,
    ensures
        spec_decode_string(0, spec_encode_string(s)) == Ok::<Seq<u8>, Error>(trim_zeros(s)),
{
    vstd::bytes::lemma_auto_spec_u32_to_from_le_bytes();
    let b = spec_encode_string(s);
    let qlen = (s.len() + 3) / 4;
    assert(b.len() == 16 + qlen * 4);
    assert(b.subrange(0, 4) =~= w32(0));
    assert(b.subrange(4, 8) =~= w32(qlen as u32));
    assert(b.subrange(8, 12) =~= w32(1));
    assert(b.subrange(12, 16) =~= w32((qlen * 4) as u32));
    lemma_word_at_of_w32(b, 0, 0);
    lemma_word_at_of_w32(b, 4, qlen as u32);
    lemma_word_at_of_w32(b, 8, 1);
    lemma_word_at_of_w32(b, 12, (qlen * 4) as u32);
    assert((qlen * 4) as u32 / 4 == qlen as u32);
    assert(b.subrange(16, 16 + (qlen * 4) as int) =~= s + zeros(qlen * 4 - s.len()));
    lemma_trim_zeros_pad(s, qlen * 4 - s.len());
}

/// The magic that opens every script: `b"STCM2"`.
pub open spec fn spec_stcm2_magic() -> Seq<u8> {
    seq![0x53u8, 0x54u8, 0x43u8, 0x4du8, 0x32u8]
}

/// The 16-byte marker before the global-data region.
pub open spec fn spec_global_data_magic() -> Seq<u8> {
    seq![0x47u8, 0x4cu8, 0x4fu8, 0x42u8, 0x41u8, 0x4cu8, 0x5fu8, 0x44u8,
         0x41u8, 0x54u8, 0x41u8, 0x00u8, 0x00u8, 0x00u8, 0x00u8, 0x00u8]
}

/// The 12-byte marker before the code region.
pub open spec fn spec_code_start_magic() -> Seq<u8> {
    seq![0x43u8, 0x4fu8, 0x44u8, 0x45u8, 0x5fu8, 0x53u8,
         0x54u8, 0x41u8, 0x52u8, 0x54u8, 0x5fu8, 0x00u8]
}

/// The 12-byte marker before the export table.
pub open spec fn spec_export_data_magic() -> Seq<u8> {
    seq![0x45u8, 0x58u8, 0x50u8, 0x4fu8, 0x52u8, 0x54u8,
         0x5fu8, 0x44u8, 0x41u8, 0x54u8, 0x41u8, 0x00u8]
}

fn stcm2_magic() -> (m: Vec<u8>)
    ensures
        m@ == spec_stcm2_magic(),
{
    let mut m: Vec<u8> = Vec::new();
    m.push(0x53);
    m.push(0x54);
    m.push(0x43);
    m.push(0x4d);
    m.push(0x32);
    proof { assert(m@ =~= spec_stcm2_magic()); }
    m
}

fn global_data_magic() -> (m: Vec<u8>)
    ensures
        m@ == spec_global_data_magic(),
{
    let mut m: Vec<u8> = Vec::new();
    m.push(0x47);
    m.push(0x4c);
    m.push(0x4f);
    m.push(0x42);
    m.push(0x41);
    m.push(0x4c);
    m.push(0x5f);
    m.push(0x44);
    m.push(0x41);
    m.push(0x54);
    m.push(0x41);
    m.push(0x00);
    m.push(0x00);
    m.push(0x00);
    m.push(0x00);
    m.push(0x00);
    proof { assert(m@ =~= spec_global_data_magic()); }
    m
}

fn code_start_magic() -> (m: Vec<u8>)
    ensures
        m@ == spec_code_start_magic(),
{
    let mut m: Vec<u8> = Vec::new();
    m.push(0x43);
    m.push(0x4f);
    m.push(0x44);
    m.push(0x45);
    m.push(0x5f);
    m.push(0x53);
    m.push(0x54);
    m.push(0x41);
    m.push(0x52);
    m.push(0x54);
    m.push(0x5f);
    m.push(0x00);
    proof { assert(m@ =~= spec_code_start_magic()); }
    m
}

fn export_data_magic() -> (m: Vec<u8>)
    ensures
        m@ == spec_export_data_magic(),
{
    let mut m: Vec<u8> = Vec::new();
    m.push(0x45);
    m.push(0x58);
    m.push(0x50);
    m.push(0x4f);
    m.push(0x52);
    m.push(0x54);
    m.push(0x5f);
    m.push(0x44);
    m.push(0x41);
    m.push(0x54);
    m.push(0x41);
    m.push(0x00);
    proof { assert(m@ =~= spec_export_data_magic()); }
    m
}

/// Where the code-start marker stands: the smallest 16-byte stride `k`
/// (counted from the fixed global-data offset 96) at which the marker is
/// found, or `None` when the scan runs off the end of the buffer.
pub open spec fn spec_find_code(b: Seq<u8>, k: int) -> Option<int>
    decreases b.len() - k when 0 <= k
{
    if 96 + k + 12 > b.len() {
        None
    } else if b.subrange(96 + k, 96 + k + 12) == spec_code_start_magic() {
        Some(k)
    } else {
        spec_find_code(b, k + 16)
    }
}

/// Parses `n` wire parameters of 3 words each starting at `pos`.
pub open spec fn spec_parse_params(
    b: Seq<u8>,
    pos: int,
    n: int,
    data_addr: u32,
    data_len: u32,
) -> Result<Seq<Parameter>, Error>
    decreases n when n >= 0
{
    if n <= 0 {
        Ok(Seq::empty())
    } else {
        match spec_param_parse(
            word_at(b, pos), word_at(b, pos + 4), word_at(b, pos + 8),
            data_addr, data_len,
        ) {
            Err(e) => Err(e),
            Ok(p) => match spec_parse_params(b, pos + 12, n - 1, data_addr, data_len) {
                Err(e) => Err(e),
                Ok(rest) => Ok(seq![p] + rest),
            },
        }
    }
}

/// Parses action records from `pos` while `pos < end`, giving the actions
/// (keyed by their byte offset, sub-index 0) and the position the run
/// stopped at.
pub open spec fn spec_parse_actions(
    b: Seq<u8>,
    pos: int,
    end: int,
) -> Result<(Seq<(Address, ActionV)>, int), Error>
    decreases end - pos when pos < end ==> 0 <= pos
{
    if pos >= end {
        Ok((Seq::empty(), pos))
    } else if pos + 16 > b.len() {
        Err(Error::Truncated(off32(pos + 16)))
    } else {
        let w0 = word_at(b, pos);
        let opcode = word_at(b, pos + 4);
        let np = word_at(b, pos + 8) as int;
        let length = word_at(b, pos + 12) as int;
        if w0 != 0 && w0 != 1 {
            Err(Error::Format)
        } else if length < 16 + 12 * np {
            Err(Error::Format)
        } else if pos + length > b.len() {
            Err(Error::Truncated(off32(pos + length)))
        } else if pos + length > u32::MAX {
            Err(Error::Format)
        } else {
            let data_addr = (pos + 16 + 12 * np) as u32;
            let data_len = (length - 16 - 12 * np) as u32;
            match spec_parse_params(b, pos + 16, np, data_addr, data_len) {
                Err(e) => Err(e),
                Ok(params) => {
                    let data = b.subrange(pos + 16 + 12 * np, pos + length);
                    let act = (Address { orig: pos as u32, sub: 0u32 }, ActionV {
                        export: None,
                        call: w0 == 1,
                        opcode,
                        params,
                        data,
                    });
                    if pos + length >= end {
                        Ok((seq![act], pos + length))
                    } else {
                        match spec_parse_actions(b, pos + length, end) {
                            Err(e) => Err(e),
                            Ok((rest, fin)) => Ok((seq![act] + rest, fin)),
                        }
                    }
                }
            }
        }
    }
}

/// Attaches `cnt` export records starting at `pos` to their actions: each
/// record names an existing action (by original address, sub-index 0) that
/// has no label yet.
pub open spec fn spec_apply_exports(
    b: Seq<u8>,
    pos: int,
    cnt: int,
    acts: Seq<(Address, ActionV)>,
) -> Result<Seq<(Address, ActionV)>, Error>
    decreases cnt when cnt >= 0
{
    if cnt <= 0 {
        Ok(acts)
    } else if pos + 40 > b.len() {
        Err(Error::Truncated(off32(pos + 40)))
    } else if word_at(b, pos) != 0 {
        Err(Error::Format)
    } else {
        let name = b.subrange(pos + 4, pos + 36);
        let key = Address { orig: word_at(b, pos + 36), sub: 0u32 };
        if !(exists|i: int| 0 <= i < acts.len() && (#[trigger] acts[i]).0 == key) {
            Err(Error::Format)
        } else {
            let i = choose|i: int| 0 <= i < acts.len() && (#[trigger] acts[i]).0 == key;
            if acts[i].1.export is Some {
                Err(Error::Format)
            } else {
                spec_apply_exports(b, pos + 40, cnt - 1, acts.update(i, (key, ActionV {
                    export: Some(name),
                    ..acts[i].1
                })))
            }
        }
    }
}

/// What decoding a whole script blob gives on every input.
pub open spec fn spec_from_bytes(b: Seq<u8>) -> Result<Stcm2V, Error> {
    if b.len() < 5 || b.subrange(0, 5) != spec_stcm2_magic() {
        Err(Error::Format)
    } else if b.len() < 96 {
        Err(Error::Truncated(96))
    } else {
        let tag = b.subrange(5, 32);
        let export_addr = word_at(b, 32) as int;
        let export_len = word_at(b, 36) as int;
        if !(forall|q: int| 0 <= q < 10 ==> #[trigger] word_at(b, 40 + 4 * q) == 0) {
            Err(Error::Format)
        } else if b.subrange(80, 96) != spec_global_data_magic() {
            Err(Error::Format)
        } else {
            match spec_find_code(b, 0) {
                None => Err(Error::Truncated(off32(b.len() as int))),
                Some(k) => {
                    if export_addr < 12 {
                        Err(Error::Format)
                    } else {
                        match spec_parse_actions(b, 96 + k + 12, export_addr - 12) {
                            Err(e) => Err(e),
                            Ok((acts, fin)) => {
                                if fin + 12 > b.len()
                                    || b.subrange(fin, fin + 12) != spec_export_data_magic() {
                                    Err(Error::Format)
                                } else {
                                    match spec_apply_exports(b, fin + 12, export_len, acts) {
                                        Err(e) => Err(e),
                                        Ok(acts2) => Ok(Stcm2V {
                                            tag,
                                            global_data: b.subrange(96, 96 + k),
                                            actions: acts2,
                                        }),
                                    }
                                }
                            }
                        }
                    }
                }
            }
        }
    }
}

/// Decodes one script blob into its document, exactly as the spec-level
/// parser `spec_from_bytes` says, and with the action table strictly
/// ordered by Address.
///
/// Fails with `Format` on a bad magic, a non-zero reserved word, a
/// malformed parameter, an export that names no action or names one twice,
/// and with `Truncated` when the buffer ends before a declared structure
/// does.
#[verifier::loop_isolation(false)]
#[verifier::rlimit(60)]
pub fn from_bytes(file: &Vec<u8>) -> (r: Result<Stcm2, Error>)
    ensures
        match r {
            Ok(doc) => spec_from_bytes(file@) == Ok::<Stcm2V, Error>(doc@)
                && actions_sorted(doc@.actions),
            Err(e) => spec_from_bytes(file@) == Err::<Stcm2V, Error>(e),
        },
{
    let ghost b = file@;
    let lenb = file.len();
    if lenb < 5 {
        return Err(Error::Format);
    }
    let magic = stcm2_magic();
    if !bytes_eq_at(file, 0, &magic) {
        return Err(Error::Format);
    }
    if lenb < 96 {
        return Err(Error::Truncated(96));
    }
    let tag = vstd::slice::slice_to_vec(
        vstd::slice::slice_subrange(file.as_slice(), 5, 32));
    let export_addr = read_u32_le(file, 32);
    let export_len = read_u32_le(file, 36);
    // ten reserved words must be zero
    let mut q: usize = 0;
    while q < 10
        invariant
            q <= 10,
            forall|j: int| 0 <= j < q ==> #[trigger] word_at(b, 40 + 4 * j) == 0,
        decreases 10 - q,
    {
        if read_u32_le(file, 40 + 4 * q) != 0 {
            proof {
                assert(word_at(b, 40 + 4 * (q as int)) != 0);
            }
            return Err(Error::Format);
        }
        q = q + 1;
    }
    let gmagic = global_data_magic();
    if !bytes_eq_at(file, 80, &gmagic) {
        return Err(Error::Format);
    }

    // scan forward in 16-byte strides for the code-start marker
    let cmagic = code_start_magic();
    let mut k: usize = 0;
    loop
        invariant
            spec_find_code(b, 0) == spec_find_code(b, k as int),
            k <= lenb,
        decreases lenb - k,
    {
        if lenb < 108 || k > lenb - 108 {
            assert(spec_find_code(b, k as int) is None);
            return Err(Error::Truncated(off32_of(lenb as u64)));
        }
        if bytes_eq_at(file, 96 + k, &cmagic) {
            assert(spec_find_code(b, k as int) == Some(k as int));
            break;
        }
        assert(spec_find_code(b, k as int) == spec_find_code(b, k as int + 16));
        k = k + 16;
    }
    let global_data = vstd::slice::slice_to_vec(
        vstd::slice::slice_subrange(file.as_slice(), 96, 96 + k));
    if export_addr < 12 {
        return Err(Error::Format);
    }
    let code_pos: usize = 96 + k + 12;
    let ghost end_i: int = export_addr as int - 12;

    // the action records
    let mut acts: Vec<(Address, Action)> = Vec::new();
    let mut cur: usize = code_pos;
    let ghost target = spec_parse_actions(b, code_pos as int, end_i);
    proof {
        assert(pairs_view(acts@) =~= Seq::<(Address, ActionV)>::empty());
    }
    proof {
        if spec_parse_actions(b, code_pos as int, end_i) is Ok {
            assert(pairs_view(acts@)
                + spec_parse_actions(b, code_pos as int, end_i)->Ok_0.0
                =~= spec_parse_actions(b, code_pos as int, end_i)->Ok_0.0);
        }
    }
    while (cur as u64) < (export_addr as u64) - 12
        invariant
            code_pos <= cur,
            (cur as u64) < (export_addr as u64) - 12 ==> cur <= u32::MAX,
            cur <= lenb,
            (match spec_parse_actions(b, cur as int, end_i) {
                Ok((rest, fin)) =>
                    target == Ok::<(Seq<(Address, ActionV)>, int), Error>((
                        pairs_view(acts@) + rest, fin)),
                Err(e) =>
                    target == Err::<(Seq<(Address, ActionV)>, int), Error>(e),
            }),
            forall|i: int| 0 <= i < acts@.len()
                ==> (#[trigger] pairs_view(acts@)[i]).0.sub == 0
                    && pairs_view(acts@)[i].0.orig < cur,
            actions_sorted(pairs_view(acts@)),
        decreases end_i - cur,
    {
        let ghost pv0 = pairs_view(acts@);
        if (cur as u64) + 16 > lenb as u64 {
            return Err(Error::Truncated(off32_of(cur as u64 + 16)));
        }
        let w0 = read_u32_le(file, cur);
        let opcode = read_u32_le(file, cur + 4);
        let np32 = read_u32_le(file, cur + 8);
        let length32 = read_u32_le(file, cur + 12);
        if w0 != 0 && w0 != 1 {
            return Err(Error::Format);
        }
        if (length32 as u64) < 16 + 12 * (np32 as u64) {
            return Err(Error::Format);
        }
        if (cur as u64) + (length32 as u64) > lenb as u64 {
            return Err(Error::Truncated(off32_of(cur as u64 + length32 as u64)));
        }
        if (cur as u64) + (length32 as u64) > u32::MAX as u64 {
            return Err(Error::Format);
        }
        let np: usize = np32 as usize;
        let length: usize = length32 as usize;
        let data_addr32: u32 = (cur as u32) + 16 + 12 * np32;
        let data_len32: u32 = length32 - 16 - 12 * np32;

        // the parameter records
        let mut params: Vec<Parameter> = Vec::new();
        let ghost ptarget = spec_parse_params(
            b, cur + 16 as int, np as int, data_addr32, data_len32);
        let mut j: usize = 0;
        proof {
            assert(params@ =~= Seq::<Parameter>::empty());
            if ptarget is Ok {
                assert(params@ + ptarget->Ok_0 =~= ptarget->Ok_0);
            }
        }
        while j < np
            invariant
                j <= np,
                params@.len() == j,
                (match spec_parse_params(
                    b, cur + 16 + 12 * (j as int), np - j as int,
                    data_addr32, data_len32,
                ) {
                    Ok(rest) => ptarget == Ok::<Seq<Parameter>, Error>(params@ + rest),
                    Err(e) => ptarget == Err::<Seq<Parameter>, Error>(e),
                }),
            decreases np - j,
        {
            let ppos = cur + 16 + 12 * j;
            let v0 = read_u32_le(file, ppos);
            let v1 = read_u32_le(file, ppos + 4);
            let v2 = read_u32_le(file, ppos + 8);
            let vals: [u32; 3] = [v0, v1, v2];
            proof {
                assert(vals[0] == v0 && vals[1] == v1 && vals[2] == v2);
            }
            match Parameter::parse(vals, data_addr32, data_len32) {
                Ok(p) => {
                    let ghost params0 = params@;
                    params.push(p);
                    proof {
                        let jj = j as int;
                        let rest0 = spec_parse_params(
                            b, cur + 16 + 12 * jj, np - jj, data_addr32, data_len32);
                        let rest1 = spec_parse_params(
                            b, cur + 16 + 12 * (jj + 1), np - jj - 1,
                            data_addr32, data_len32);
                        assert(word_at(b, cur + 16 + 12 * jj) == v0
                            && word_at(b, cur + 16 + 12 * jj + 4) == v1
                            && word_at(b, cur + 16 + 12 * jj + 8) == v2);
                        assert(spec_param_parse(v0, v1, v2, data_addr32, data_len32)
                            == Ok::<Parameter, Error>(p));
                        match rest1 {
                            Ok(r1) => {
                                assert(rest0 == Ok::<Seq<Parameter>, Error>(seq![p] + r1));
                                assert(params@ + r1 =~= params0 + (seq![p] + r1));
                            }
                            Err(e1) => {
                                assert(rest0 == Err::<Seq<Parameter>, Error>(e1));
                            }
                        }
                    }
                }
                Err(e) => {
                    return Err(e);
                }
            }
            j = j + 1;
        }
        proof {
            assert(params@ + Seq::<Parameter>::empty() =~= params@);
        }

        let data = vstd::slice::slice_to_vec(
            vstd::slice::slice_subrange(file.as_slice(), cur + 16 + 12 * np, cur + length));
        let act = Action {
            export: None,
            call: w0 == 1,
            opcode,
            params,
            data,
        };
        let addr = Address { orig: cur as u32, sub: 0 };
        acts.push((addr, act));
        proof {
            let sact = (addr, ActionV {
                export: None,
                call: w0 == 1,
                opcode,
                params: params@,
                data: b.subrange(cur + 16 + 12 * (np as int), cur + length as int),
            });
            assert(pairs_view(acts@) =~= pv0 + seq![sact]);
            let step = spec_parse_actions(b, cur as int, end_i);
            if cur + length >= end_i {
                assert(step == Ok::<(Seq<(Address, ActionV)>, int), Error>((
                    seq![sact], cur + length as int)));
                assert(pv0 + seq![sact] =~= pairs_view(acts@));
            } else {
                let next = spec_parse_actions(b, cur + length as int, end_i);
                if next is Ok {
                    assert(pv0 + (seq![sact] + next->Ok_0.0)
                        =~= (pv0 + seq![sact]) + next->Ok_0.0);
                }
            }
        }
        cur = cur + length;
        if (cur as u64) >= (export_addr as u64) - 12 {
            break;
        }
    }

    // the export table marker
    if lenb - cur < 12 {
        return Err(Error::Format);
    }
    let emagic = export_data_magic();
    if !bytes_eq_at(file, cur, &emagic) {
        return Err(Error::Format);
    }
    let ghost parsed0 = pairs_view(acts@);
    let ghost exp0: int = cur + 12 as int;
    let ghost etarget = spec_apply_exports(b, exp0, export_len as int, parsed0);

    // the export records
    let mut epos: usize = cur + 12;
    let mut left: u32 = export_len;
    while left > 0
        invariant
            epos == exp0 + 40 * (export_len as int - left as int),
            epos <= lenb,
            left <= export_len,
            acts@.len() == parsed0.len(),
            (match spec_apply_exports(b, epos as int, left as int, pairs_view(acts@)) {
                Ok(a2) => etarget == Ok::<Seq<(Address, ActionV)>, Error>(a2),
                Err(e) => etarget == Err::<Seq<(Address, ActionV)>, Error>(e),
            }),
            forall|i: int| 0 <= i < acts@.len()
                ==> (#[trigger] pairs_view(acts@)[i]).0.sub == 0,
            actions_sorted(pairs_view(acts@)),
        decreases left,
    {
        let ghost pv = pairs_view(acts@);
        if lenb - epos < 40 {
            let pay: u32 = if epos as u64 >= 0xffff_ffff {
                proof { reveal(crate::words::off32); }
                0xffff_ffff
            } else {
                off32_of(epos as u64 + 40)
            };
            assert(pay == off32(epos + 40)) by {
                reveal(crate::words::off32);
            }
            return Err(Error::Truncated(pay));
        }
        if read_u32_le(file, epos) != 0 {
            return Err(Error::Format);
        }
        let name = vstd::slice::slice_to_vec(
            vstd::slice::slice_subrange(file.as_slice(), epos + 4, epos + 36));
        let a = read_u32_le(file, epos + 36);
        let key = Address { orig: a, sub: 0 };

        // find the action this label binds to
        let nacts = acts.len();
        let mut idx: usize = 0;
        let mut found: bool = false;
        while idx < nacts && !found
            invariant
                idx <= nacts,
                nacts == acts@.len(),
                !found ==> forall|t: int| 0 <= t < idx
                    ==> (#[trigger] pairs_view(acts@)[t]).0 != key,
                found ==> idx < nacts && pairs_view(acts@)[idx as int].0 == key,
            decreases nacts - idx + (if found { 0int } else { 1int }),
        {
            if acts[idx].0.orig == key.orig && acts[idx].0.sub == key.sub {
                found = true;
            } else {
                idx = idx + 1;
            }
        }
        if !found {
            proof {
                assert(!(exists|i: int| 0 <= i < pv.len()
                    && (#[trigger] pv[i]).0 == key));
            }
            return Err(Error::Format);
        }
        proof {
            assert(exists|i: int| 0 <= i < pv.len() && (#[trigger] pv[i]).0 == key);
            let ci = choose|i: int| 0 <= i < pv.len() && (#[trigger] pv[i]).0 == key;
            if ci < idx as int {
                assert(addr_lt(pv[ci].0, pv[idx as int].0));
                assert(false);
            }
            if (idx as int) < ci {
                assert(addr_lt(pv[idx as int].0, pv[ci].0));
                assert(false);
            }
            assert(ci == idx as int);
        }
        let (kaddr, old_act) = acts.remove(idx);
        if old_act.export.is_some() {
            return Err(Error::Format);
        }
        let new_act = Action {
            export: Some(name),
            call: old_act.call,
            opcode: old_act.opcode,
            params: old_act.params,
            data: old_act.data,
        };
        acts.insert(idx, (kaddr, new_act));
        proof {
            assert(pairs_view(acts@) =~= pv.update(idx as int, (key, ActionV {
                export: Some(b.subrange(epos + 4, epos + 36)),
                ..pv[idx as int].1
            })));
        }
        epos = epos + 40;
        left = left - 1;
    }
    proof {
        assert(etarget == Ok::<Seq<(Address, ActionV)>, Error>(pairs_view(acts@)));
    }

    let doc = Stcm2 {
        tag,
        global_data,
        actions: acts,
    };
    proof {
        assert(doc@.tag =~= b.subrange(5, 32));
        assert(doc@.global_data =~= b.subrange(96, 96 + k as int));
        assert(spec_from_bytes(b) == Ok::<Stcm2V, Error>(doc@));
    }
    Ok(doc)
}

/// Relies on rand::random: a fresh arbitrary value; nothing is assumed
/// about which one.  It seeds the canary sentinels of the encoder.
pub assume_specification<T>[ rand::random::<T> ]() -> (r: T)
    where
        rand::distributions::Standard: rand::distributions::Distribution<T>,
;

/// The wire size of one action record.
pub open spec fn rec_len(a: ActionV) -> int {
    16 + 12 * (a.params.len() as int) + (a.data.len() as int)
}

/// The wire size of a run of action records.
pub open spec fn code_len(acts: Seq<(Address, ActionV)>) -> int
    decreases acts.len(),
{
    if acts.len() == 0 {
        0
    } else {
        code_len(acts.drop_last()) + rec_len(acts.last().1)
    }
}

/// How many actions carry an export label.
pub open spec fn export_count(acts: Seq<(Address, ActionV)>) -> int
    decreases acts.len(),
{
    if acts.len() == 0 {
        0
    } else {
        export_count(acts.drop_last()) + (if acts.last().1.export is Some { 1int } else { 0int })
    }
}

/// The file offset the encoder assigns to action `i`: everything before the
/// code region, plus the records in front of it.
pub open spec fn spec_rec_off(doc: Stcm2V, i: int) -> int {
    108 + doc.global_data.len() + code_len(doc.actions.take(i))
}

/// The value patched into the header: the offset just after the
/// export-table marker.
pub open spec fn spec_export_addr(doc: Stcm2V) -> int {
    spec_rec_off(doc, doc.actions.len() as int) + 12
}

/// The length of the output before the final 16-byte padding.
pub open spec fn spec_pre_pad_len(doc: Stcm2V) -> int {
    spec_export_addr(doc) + 40 * export_count(doc.actions)
}

/// The length of the finished output, padded to a 16-byte boundary.
pub open spec fn spec_padded_len(doc: Stcm2V) -> int {
    let pre = spec_pre_pad_len(doc);
    if pre % 16 == 0 {
        pre
    } else {
        pre + 16 - pre % 16
    }
}

/// The header region of an encoded document, byte for byte: the magic,
/// the format tag, the export-table offset and count, ten reserved zero
/// words, and the global-data region between its two markers.
pub open spec fn spec_header_bytes(doc: Stcm2V) -> Seq<u8> {
    spec_stcm2_magic() + doc.tag
        + w32(spec_export_addr(doc) as u32)
        + w32(export_count(doc.actions) as u32)
        + zeros(40)
        + spec_global_data_magic() + doc.global_data + spec_code_start_magic()
}

/// The position of the action keyed by `key` in the table (meaningful
/// when the key is present; with a sorted table it is unique).
pub open spec fn spec_action_index(acts: Seq<(Address, ActionV)>, key: Address) -> int {
    choose|i: int| 0 <= i < acts.len() && (#[trigger] acts[i]).0 == key
}

/// With a sorted table, an action's own key finds exactly its position.
pub proof fn lemma_action_index_self(acts: Seq<(Address, ActionV)>, i: int)
    requires
        actions_sorted(acts),
        0 <= i < acts.len(),
    ensures
        spec_action_index(acts, acts[i].0) == i,
{
    let key = acts[i].0;
    assert(0 <= i < acts.len() && (#[trigger] acts[i]).0 == key);
    assert(exists|k: int| 0 <= k < acts.len() && (#[trigger] acts[k]).0 == key);
    let k = spec_action_index(acts, key);
    if k < i {
        assert(addr_lt(acts[k].0, acts[i].0));
        assert(false);
    }
    if i < k {
        assert(addr_lt(acts[i].0, acts[k].0));
        assert(false);
    }
}

/// The resolved file offset of the action at original address `t`.
pub open spec fn spec_target_off(doc: Stcm2V, t: u32) -> u32 {
    spec_rec_off(doc, spec_action_index(doc.actions, Address { orig: t, sub: 0u32 })) as u32
}

/// The resolved file offset of action `i`'s trailing data blob.
pub open spec fn spec_data_off(doc: Stcm2V, i: int) -> u32 {
    (spec_rec_off(doc, i) + 16 + 12 * doc.actions[i].1.params.len()) as u32
}

/// The three resolved wire words of one parameter, as bytes.
pub open spec fn spec_param_bytes(doc: Stcm2V, p: Parameter, doff: u32) -> Seq<u8> {
    match p {
        Parameter::GlobalPointer(t) =>
            w32(0xffffff41u32) + w32(spec_target_off(doc, t)) + w32(0xff000000u32),
        Parameter::LocalPointer(off) =>
            w32((doff + off) as u32) + w32(0xff000000u32) + w32(0xff000000u32),
        Parameter::Value(v) =>
            w32(v) + w32(0xff000000u32) + w32(0xff000000u32),
    }
}

/// The wire bytes of a parameter list.
pub open spec fn spec_params_bytes(doc: Stcm2V, ps: Seq<Parameter>, doff: u32) -> Seq<u8>
    decreases ps.len(),
{
    if ps.len() == 0 {
        Seq::empty()
    } else {
        spec_params_bytes(doc, ps.drop_last(), doff) + spec_param_bytes(doc, ps.last(), doff)
    }
}

/// The wire bytes of one action record, every deferred field resolved: the
/// call flag, the opcode (or the call target's resolved offset), the
/// parameter count and record length, the parameter words, and the data
/// verbatim.
pub open spec fn spec_record_bytes(doc: Stcm2V, i: int) -> Seq<u8> {
    let a = doc.actions[i].1;
    w32(if a.call { 1u32 } else { 0u32 })
        + w32(if a.call { spec_target_off(doc, a.opcode) } else { a.opcode })
        + w32(a.params.len() as u32)
        + w32(rec_len(a) as u32)
        + spec_params_bytes(doc, a.params, spec_data_off(doc, i))
        + a.data
}

/// The code region: the records of the first `i` actions, in order.
pub open spec fn spec_code_bytes(doc: Stcm2V, i: int) -> Seq<u8>
    decreases i when i >= 0
{
    if i <= 0 {
        Seq::empty()
    } else {
        spec_code_bytes(doc, i - 1) + spec_record_bytes(doc, i - 1)
    }
}

/// The export table: one 40-byte record per labelled action among the
/// first `i`, in order: a zero word, the 32-byte label, and the action's
/// resolved offset.
pub open spec fn spec_export_bytes(doc: Stcm2V, i: int) -> Seq<u8>
    decreases i when i >= 0
{
    if i <= 0 {
        Seq::empty()
    } else {
        spec_export_bytes(doc, i - 1) + (match doc.actions[i - 1].1.export {
            Some(name) => w32(0) + name + w32(spec_rec_off(doc, i - 1) as u32),
            None => Seq::empty(),
        })
    }
}

/// The whole encoded document: header, code region, export marker and
/// table, zero padding to a 16-byte boundary.
pub open spec fn spec_to_bytes(doc: Stcm2V) -> Seq<u8> {
    spec_header_bytes(doc)
        + spec_code_bytes(doc, doc.actions.len() as int)
        + spec_export_data_magic()
        + spec_export_bytes(doc, doc.actions.len() as int)
        + zeros(spec_padded_len(doc) - spec_pre_pad_len(doc))
}

pub proof fn lemma_params_bytes_len(doc: Stcm2V, ps: Seq<Parameter>, doff: u32)
    ensures
        spec_params_bytes(doc, ps, doff).len() == 12 * ps.len(),
    decreases ps.len(),
{
    vstd::bytes::lemma_auto_spec_u32_to_from_le_bytes();
    if ps.len() > 0 {
        lemma_params_bytes_len(doc, ps.drop_last(), doff);
    }
}

pub proof fn lemma_record_bytes_len(doc: Stcm2V, i: int)
    requires
        0 <= i < doc.actions.len(),
    ensures
        spec_record_bytes(doc, i).len() == rec_len(doc.actions[i].1),
{
    vstd::bytes::lemma_auto_spec_u32_to_from_le_bytes();
    lemma_params_bytes_len(doc, doc.actions[i].1.params, spec_data_off(doc, i));
}

pub proof fn lemma_code_bytes_len(doc: Stcm2V, i: int)
    requires
        0 <= i <= doc.actions.len(),
    ensures
        spec_code_bytes(doc, i).len() == code_len(doc.actions.take(i)),
    decreases i,
{
    if i > 0 {
        lemma_code_bytes_len(doc, i - 1);
        lemma_record_bytes_len(doc, i - 1);
        assert(doc.actions.take(i).drop_last() =~= doc.actions.take(i - 1));
        assert(doc.actions.take(i).last() == doc.actions[i - 1]);
    } else {
        assert(doc.actions.take(0) =~= Seq::<(Address, ActionV)>::empty());
    }
}

pub proof fn lemma_export_bytes_len(doc: Stcm2V, i: int)
    requires
        encodable(doc),
        0 <= i <= doc.actions.len(),
    ensures
        spec_export_bytes(doc, i).len() == 40 * export_count(doc.actions.take(i)),
    decreases i,
{
    vstd::bytes::lemma_auto_spec_u32_to_from_le_bytes();
    if i > 0 {
        lemma_export_bytes_len(doc, i - 1);
        assert(doc.actions.take(i).drop_last() =~= doc.actions.take(i - 1));
        assert(doc.actions.take(i).last() == doc.actions[i - 1]);
        assert(action_encodable(doc.actions[i - 1].1));
    } else {
        assert(doc.actions.take(0) =~= Seq::<(Address, ActionV)>::empty());
    }
}

/// The encoded image has the padded length, its header region is the
/// header bytes, and the code region of the first `i` actions sits at the
/// fixed offsets.
#[verifier::rlimit(100)]
pub proof fn lemma_spec_image_len(doc: Stcm2V)
    requires
        encodable(doc),
    ensures
        spec_header_bytes(doc).len() == spec_rec_off(doc, 0),
        spec_to_bytes(doc).len() == spec_padded_len(doc),
        spec_to_bytes(doc).subrange(0, spec_rec_off(doc, 0)) == spec_header_bytes(doc),
{
    vstd::bytes::lemma_auto_spec_u32_to_from_le_bytes();
    let n = doc.actions.len() as int;
    assert(doc.actions.take(0) =~= Seq::<(Address, ActionV)>::empty());
    assert(doc.actions.take(n) =~= doc.actions);
    lemma_code_bytes_len(doc, n);
    lemma_export_bytes_len(doc, n);
    lemma_export_count_nonneg(doc.actions);
    lemma_code_len_nonneg(doc.actions);
    assert(spec_to_bytes(doc).subrange(0, spec_rec_off(doc, 0)) =~= spec_header_bytes(doc));
}

/// Record `i` stands in the encoded image at its assigned offset.
#[verifier::rlimit(100)]
pub proof fn lemma_spec_at_record(doc: Stcm2V, i: int)
    requires
        encodable(doc),
        0 <= i < doc.actions.len(),
    ensures
        spec_record_bytes(doc, i).len() == rec_len(doc.actions[i].1),
        spec_to_bytes(doc).subrange(
            spec_rec_off(doc, i),
            spec_rec_off(doc, i) + rec_len(doc.actions[i].1),
        ) == spec_record_bytes(doc, i),
{
    vstd::bytes::lemma_auto_spec_u32_to_from_le_bytes();
    let n = doc.actions.len() as int;
    lemma_record_bytes_len(doc, i);
    lemma_spec_image_len(doc);
    lemma_code_bytes_len(doc, n);
    lemma_export_bytes_len(doc, n);
    lemma_code_at(doc, n, i);
    lemma_code_len_prefix(doc.actions, i);
    lemma_code_len_prefix(doc.actions, i + 1);
    assert(doc.actions.take(n) =~= doc.actions);
    assert(spec_to_bytes(doc).subrange(
        spec_rec_off(doc, i),
        spec_rec_off(doc, i) + rec_len(doc.actions[i].1),
    ) =~= spec_code_bytes(doc, n).subrange(
        code_len(doc.actions.take(i)),
        code_len(doc.actions.take(i)) + rec_len(doc.actions[i].1),
    ));
}

#[verifier::rlimit(100)]
proof fn lemma_code_at(doc: Stcm2V, m: int, i: int)
    requires
        0 <= i < m <= doc.actions.len(),
    ensures
        spec_code_bytes(doc, m).subrange(
            code_len(doc.actions.take(i)),
            code_len(doc.actions.take(i)) + rec_len(doc.actions[i].1),
        ) == spec_record_bytes(doc, i),
    decreases m,
{
    lemma_record_bytes_len(doc, i);
    lemma_code_bytes_len(doc, m);
    lemma_code_len_prefix(doc.actions, i);
    if i == m - 1 {
        lemma_code_bytes_len(doc, m - 1);
        assert(spec_code_bytes(doc, m).subrange(
            code_len(doc.actions.take(i)),
            code_len(doc.actions.take(i)) + rec_len(doc.actions[i].1),
        ) =~= spec_record_bytes(doc, i));
    } else {
        lemma_code_at(doc, m - 1, i);
        lemma_code_bytes_len(doc, m - 1);
        lemma_code_len_prefix(doc.actions, i + 1);
        lemma_code_len_prefix_le(doc.actions, i + 1, m - 1);
        assert(spec_code_bytes(doc, m).subrange(
            code_len(doc.actions.take(i)),
            code_len(doc.actions.take(i)) + rec_len(doc.actions[i].1),
        ) =~= spec_code_bytes(doc, m - 1).subrange(
            code_len(doc.actions.take(i)),
            code_len(doc.actions.take(i)) + rec_len(doc.actions[i].1),
        ));
    }
}

/// Prefix code lengths grow with the prefix.
pub proof fn lemma_code_len_prefix_le(acts: Seq<(Address, ActionV)>, i: int, m: int)
    requires
        0 <= i <= m <= acts.len(),
    ensures
        code_len(acts.take(i)) <= code_len(acts.take(m)),
    decreases m - i,
{
    if i < m {
        lemma_code_len_prefix(acts, i);
        lemma_code_len_prefix_le(acts, i + 1, m);
    }
}

/// The export-table marker stands right after the last record.
#[verifier::rlimit(100)]
pub proof fn lemma_spec_at_export_magic(doc: Stcm2V)
    requires
        encodable(doc),
    ensures
        spec_to_bytes(doc).subrange(
            spec_rec_off(doc, doc.actions.len() as int),
            spec_rec_off(doc, doc.actions.len() as int) + 12,
        ) == spec_export_data_magic(),
{
    vstd::bytes::lemma_auto_spec_u32_to_from_le_bytes();
    let n = doc.actions.len() as int;
    lemma_spec_image_len(doc);
    lemma_code_bytes_len(doc, n);
    lemma_export_bytes_len(doc, n);
    assert(doc.actions.take(n) =~= doc.actions);
    assert(spec_to_bytes(doc).subrange(
        spec_rec_off(doc, n),
        spec_rec_off(doc, n) + 12,
    ) =~= spec_export_data_magic());
}

/// A labelled action's export record stands at its slot of the table.
#[verifier::rlimit(100)]
pub proof fn lemma_spec_at_export_rec(doc: Stcm2V, i: int)
    requires
        encodable(doc),
        0 <= i < doc.actions.len(),
        doc.actions[i].1.export is Some,
    ensures
        spec_to_bytes(doc).subrange(
            spec_export_addr(doc) + 40 * export_count(doc.actions.take(i)),
            spec_export_addr(doc) + 40 * export_count(doc.actions.take(i)) + 40,
        ) == w32(0) + doc.actions[i].1.export->0
            + w32(spec_rec_off(doc, i) as u32),
{
    vstd::bytes::lemma_auto_spec_u32_to_from_le_bytes();
    let n = doc.actions.len() as int;
    lemma_spec_image_len(doc);
    lemma_code_bytes_len(doc, n);
    lemma_export_bytes_len(doc, n);
    lemma_export_count_prefix(doc.actions, i);
    lemma_export_count_prefix(doc.actions, i + 1);
    lemma_export_bytes_len(doc, i);
    lemma_export_bytes_len(doc, i + 1);
    lemma_export_at(doc, n, i);
    assert(doc.actions.take(n) =~= doc.actions);
    assert(action_encodable(doc.actions[i].1));
    assert(spec_to_bytes(doc).subrange(
        spec_export_addr(doc) + 40 * export_count(doc.actions.take(i)),
        spec_export_addr(doc) + 40 * export_count(doc.actions.take(i)) + 40,
    ) =~= spec_export_bytes(doc, n).subrange(
        40 * export_count(doc.actions.take(i)),
        40 * export_count(doc.actions.take(i)) + 40,
    ));
}

#[verifier::rlimit(100)]
proof fn lemma_export_at(doc: Stcm2V, m: int, i: int)
    requires
        encodable(doc),
        0 <= i < m <= doc.actions.len(),
        doc.actions[i].1.export is Some,
    ensures
        spec_export_bytes(doc, m).subrange(
            40 * export_count(doc.actions.take(i)),
            40 * export_count(doc.actions.take(i)) + 40,
        ) == w32(0) + doc.actions[i].1.export->0
            + w32(spec_rec_off(doc, i) as u32),
    decreases m,
{
    vstd::bytes::lemma_auto_spec_u32_to_from_le_bytes();
    lemma_export_bytes_len(doc, m);
    lemma_export_bytes_len(doc, i);
    lemma_export_count_prefix(doc.actions, i);
    assert(action_encodable(doc.actions[i].1));
    if i == m - 1 {
        lemma_export_bytes_len(doc, m - 1);
        assert(spec_export_bytes(doc, m).subrange(
            40 * export_count(doc.actions.take(i)),
            40 * export_count(doc.actions.take(i)) + 40,
        ) =~= w32(0) + doc.actions[i].1.export->0
            + w32(spec_rec_off(doc, i) as u32));
    } else {
        lemma_export_at(doc, m - 1, i);
        lemma_export_bytes_len(doc, m - 1);
        lemma_export_count_prefix(doc.actions, i + 1);
        lemma_export_count_le(doc.actions, i + 1, m - 1);
        assert(spec_export_bytes(doc, m).subrange(
            40 * export_count(doc.actions.take(i)),
            40 * export_count(doc.actions.take(i)) + 40,
        ) =~= spec_export_bytes(doc, m - 1).subrange(
            40 * export_count(doc.actions.take(i)),
            40 * export_count(doc.actions.take(i)) + 40,
        ));
    }
}

/// Prefix export counts grow with the prefix.
pub proof fn lemma_export_count_le(acts: Seq<(Address, ActionV)>, i: int, m: int)
    requires
        0 <= i <= m <= acts.len(),
    ensures
        export_count(acts.take(i)) <= export_count(acts.take(m)),
    decreases m - i,
{
    if i < m {
        lemma_export_count_prefix(acts, i);
        lemma_export_count_le(acts, i + 1, m);
    }
}

/// Everything after the export table is zero padding.
#[verifier::rlimit(100)]
pub proof fn lemma_spec_tail_zeros(doc: Stcm2V)
    requires
        encodable(doc),
    ensures
        forall|q: int| spec_pre_pad_len(doc) <= q < spec_padded_len(doc)
            ==> #[trigger] spec_to_bytes(doc)[q] == 0,
{
    vstd::bytes::lemma_auto_spec_u32_to_from_le_bytes();
    let n = doc.actions.len() as int;
    lemma_spec_image_len(doc);
    lemma_code_bytes_len(doc, n);
    lemma_export_bytes_len(doc, n);
    assert(doc.actions.take(n) =~= doc.actions);
}

/// One action's fields are encodable: a 32-byte label if any, data padded
/// to whole words, and local pointers inside (or just past) the data blob.
pub open spec fn action_encodable(a: ActionV) -> bool {
    &&& (a.export matches Some(e) ==> e.len() == 32)
    &&& a.data.len() % 4 == 0
    &&& forall|j: int| 0 <= j < a.params.len()
        ==> ((#[trigger] a.params[j]) matches Parameter::LocalPointer(off)
            ==> off <= a.data.len())
}

/// What the encoder needs of a document: a sorted action table, the fixed
/// tag width, a global-data region of whole 16-byte rows (as decoding
/// guarantees), encodable actions, and a total size the 32-bit offset
/// fields can carry.
pub open spec fn encodable(doc: Stcm2V) -> bool {
    &&& actions_sorted(doc.actions)
    &&& doc.tag.len() == 27
    &&& doc.global_data.len() % 16 == 0
    &&& forall|i: int| 0 <= i < doc.actions.len()
        ==> action_encodable((#[trigger] doc.actions[i]).1)
    &&& spec_padded_len(doc) <= u32::MAX
}

/// Some action stands at original address `o` (sub-index 0).
pub open spec fn has_action(acts: Seq<(Address, ActionV)>, o: u32) -> bool {
    exists|i: int| 0 <= i < acts.len()
        && (#[trigger] acts[i]).0 == (Address { orig: o, sub: 0u32 })
}

/// Every reference the document makes — call targets and global-pointer
/// parameters — lands on an action of the document.
pub open spec fn refs_resolvable(acts: Seq<(Address, ActionV)>) -> bool {
    forall|i: int| 0 <= i < acts.len() ==> {
        &&& ((#[trigger] acts[i]).1.call ==> has_action(acts, acts[i].1.opcode))
        &&& forall|j: int| 0 <= j < acts[i].1.params.len()
            ==> ((#[trigger] acts[i].1.params[j]) matches Parameter::GlobalPointer(t)
                ==> has_action(acts, t))
    }
}

pub proof fn lemma_code_len_prefix(acts: Seq<(Address, ActionV)>, i: int)
    requires
        0 <= i <= acts.len(),
    ensures
        0 <= code_len(acts.take(i)) <= code_len(acts),
        i < acts.len() ==> code_len(acts.take(i + 1))
            == code_len(acts.take(i)) + rec_len(acts[i].1),
        i < acts.len() ==> rec_len(acts[i].1) >= 16,
    decreases acts.len() - i,
{
    if i < acts.len() {
        assert(acts.take(i + 1).drop_last() =~= acts.take(i));
        assert(acts.take(i + 1).last() == acts[i]);
        lemma_code_len_prefix(acts, i + 1);
        lemma_code_len_nonneg(acts.take(i));
    } else {
        assert(acts.take(i) =~= acts);
        lemma_code_len_nonneg(acts);
    }
}

pub proof fn lemma_code_len_nonneg(acts: Seq<(Address, ActionV)>)
    ensures
        code_len(acts) >= 0,
    decreases acts.len(),
{
    if acts.len() > 0 {
        lemma_code_len_nonneg(acts.drop_last());
    }
}

/// Every record is at least its fixed 16-byte head.
pub proof fn lemma_code_len_lb(acts: Seq<(Address, ActionV)>)
    ensures
        code_len(acts) >= 16 * acts.len(),
    decreases acts.len(),
{
    if acts.len() > 0 {
        lemma_code_len_lb(acts.drop_last());
    }
}

pub proof fn lemma_export_count_prefix(acts: Seq<(Address, ActionV)>, i: int)
    requires
        0 <= i <= acts.len(),
    ensures
        0 <= export_count(acts.take(i)) <= export_count(acts),
        i < acts.len() ==> export_count(acts.take(i + 1))
            == export_count(acts.take(i))
                + (if acts[i].1.export is Some { 1int } else { 0int }),
    decreases acts.len() - i,
{
    if i < acts.len() {
        assert(acts.take(i + 1).drop_last() =~= acts.take(i));
        assert(acts.take(i + 1).last() == acts[i]);
        lemma_export_count_prefix(acts, i + 1);
        lemma_export_count_nonneg(acts.take(i));
    } else {
        assert(acts.take(i) =~= acts);
        lemma_export_count_nonneg(acts);
    }
}

pub proof fn lemma_export_count_nonneg(acts: Seq<(Address, ActionV)>)
    ensures
        export_count(acts) >= 0,
    decreases acts.len(),
{
    if acts.len() > 0 {
        lemma_export_count_nonneg(acts.drop_last());
    }
}

pub proof fn lemma_export_count_ub(acts: Seq<(Address, ActionV)>)
    ensures
        export_count(acts) <= acts.len(),
    decreases acts.len(),
{
    if acts.len() > 0 {
        lemma_export_count_ub(acts.drop_last());
    }
}

/// One deferred relocation: the byte offset of a word that was emitted as
/// a random sentinel, the sentinel itself, and what the word must become.
#[derive(Clone, Copy)]
struct Fixup {
    pos: usize,
    canary: u32,
    kind: FixKind,
}

/// What a sentinel word stands for.
#[derive(Clone, Copy)]
enum FixKind {
    /// The record offset of the action at original address `t`.
    Call(u32),
    /// The record offset of the action at original address `t`.
    Global(u32),
    /// The data offset of the owning action, plus a local offset.
    Local(Address, u32),
}

/// The reference-table key a fixup waits for.
spec fn fix_key(k: FixKind) -> Address {
    match k {
        FixKind::Call(t) => Address { orig: t, sub: 0u32 },
        FixKind::Global(t) => Address { orig: t, sub: 0u32 },
        FixKind::Local(o, _) => o,
    }
}

/// A fixup was generated by the document: its target is a call target or a
/// global-pointer parameter of some action, or its own record's data.
spec fn fix_from_doc(k: FixKind, acts: Seq<(Address, ActionV)>) -> bool {
    match k {
        FixKind::Call(t) => exists|i: int| 0 <= i < acts.len()
            && (#[trigger] acts[i]).1.call && acts[i].1.opcode == t,
        FixKind::Global(t) => exists|i: int, j: int| 0 <= i < acts.len()
            && 0 <= j < acts[i].1.params.len()
            && (#[trigger] acts[i].1.params[j]) == Parameter::GlobalPointer(t),
        FixKind::Local(o, off) => exists|i: int| 0 <= i < acts.len()
            && (#[trigger] acts[i]).0 == o && off <= acts[i].1.data.len(),
    }
}

/// Looks an address up in the reference table: the record offset and data
/// offset assigned to it.
fn refs_lookup(refs: &Vec<(Address, u32, u32)>, key: Address) -> (r: Option<(u32, u32)>)
    ensures
        (r is Some) == (exists|i: int| 0 <= i < refs@.len()
            && (#[trigger] refs@[i]).0 == key),
        (r matches Some(v) ==> exists|i: int| 0 <= i < refs@.len()
            && #[trigger] refs@[i] == (key, v.0, v.1)),
{
    let n = refs.len();
    let mut i: usize = 0;
    while i < n
        invariant
            i <= n,
            n == refs@.len(),
            forall|t: int| 0 <= t < i ==> (#[trigger] refs@[t]).0 != key,
        decreases n - i,
    {
        let e = refs[i];
        if e.0.orig == key.orig && e.0.sub == key.sub {
            return Some((e.1, e.2));
        }
        i = i + 1;
    }
    None
}

/// An address stands in the reference table.
spec fn key_in_refs(refs: Seq<(Address, u32, u32)>, k: Address) -> bool {
    exists|t: int| 0 <= t < refs.len() && (#[trigger] refs[t]).0 == k
}

/// A fixup for this key is still pending.
spec fn pend_has_key(fx: Seq<Fixup>, k: Address) -> bool {
    exists|i: int| 0 <= i < fx.len() && fix_key((#[trigger] fx[i]).kind) == k
}

/// The value a fixup's sentinel is resolved to: the target action's
/// record offset for calls and global pointers, the owning action's data
/// offset plus the local offset for local pointers.
spec fn fix_resolved(doc: Stcm2V, k: FixKind) -> u32 {
    match k {
        FixKind::Call(t) => spec_target_off(doc, t),
        FixKind::Global(t) => spec_target_off(doc, t),
        FixKind::Local(o, off) =>
            (spec_data_off(doc, spec_action_index(doc.actions, o)) + off) as u32,
    }
}

/// In the encoded image, a call's opcode word holds the target's resolved
/// offset.
#[verifier::rlimit(100)]
proof fn lemma_window_value_call(doc: Stcm2V, i: int)
    requires
        encodable(doc),
        0 <= i < doc.actions.len(),
        doc.actions[i].1.call,
    ensures
        spec_to_bytes(doc).subrange(spec_rec_off(doc, i) + 4, spec_rec_off(doc, i) + 8)
            == w32(spec_target_off(doc, doc.actions[i].1.opcode)),
{
    vstd::bytes::lemma_auto_spec_u32_to_from_le_bytes();
    lemma_spec_at_record(doc, i);
    lemma_spec_image_len(doc);
    lemma_code_len_prefix(doc.actions, i);
    lemma_code_len_prefix(doc.actions, i + 1);
    lemma_export_count_nonneg(doc.actions);
    assert(doc.actions.take(doc.actions.len() as int) =~= doc.actions);
    let a = doc.actions[i].1;
    lemma_params_bytes_len(doc, a.params, spec_data_off(doc, i));
    let rec = spec_record_bytes(doc, i);
    assert(spec_rec_off(doc, i) + rec_len(a) <= spec_to_bytes(doc).len());
    let head = w32(1u32) + w32(spec_target_off(doc, a.opcode))
        + w32(a.params.len() as u32) + w32(rec_len(a) as u32);
    assert(rec =~= head + spec_params_bytes(doc, a.params, spec_data_off(doc, i)) + a.data);
    assert(head.subrange(4, 8) =~= w32(spec_target_off(doc, a.opcode)));
    assert(rec.subrange(4, 8) =~= head.subrange(4, 8));
    lemma_record_bytes_len(doc, i);
    let sub = spec_to_bytes(doc).subrange(spec_rec_off(doc, i), spec_rec_off(doc, i) + rec_len(a));
    assert forall|k: int| 0 <= k < 4 implies
        #[trigger] spec_to_bytes(doc).subrange(spec_rec_off(doc, i) + 4, spec_rec_off(doc, i) + 8)[k]
            == rec.subrange(4, 8)[k] by {
        assert(rec.subrange(4, 8)[k] == rec[4 + k]);
        assert(rec[4 + k] == sub[4 + k]);
        assert(sub[4 + k] == spec_to_bytes(doc)[spec_rec_off(doc, i) + 4 + k]);
        assert(spec_to_bytes(doc).subrange(spec_rec_off(doc, i) + 4,
            spec_rec_off(doc, i) + 8)[k] == spec_to_bytes(doc)[spec_rec_off(doc, i) + 4 + k]);
    }
    assert(spec_to_bytes(doc).subrange(spec_rec_off(doc, i) + 4, spec_rec_off(doc, i) + 8)
        =~= rec.subrange(4, 8));
}

/// In the encoded image, parameter `j` of record `i` holds its resolved
/// wire words.
#[verifier::rlimit(100)]
proof fn lemma_window_value_param(doc: Stcm2V, i: int, j: int)
    requires
        encodable(doc),
        0 <= i < doc.actions.len(),
        0 <= j < doc.actions[i].1.params.len(),
    ensures
        spec_to_bytes(doc).subrange(
            spec_rec_off(doc, i) + 16 + 12 * j,
            spec_rec_off(doc, i) + 16 + 12 * j + 12,
        ) == spec_param_bytes(doc, doc.actions[i].1.params[j], spec_data_off(doc, i)),
{
    vstd::bytes::lemma_auto_spec_u32_to_from_le_bytes();
    lemma_spec_at_record(doc, i);
    lemma_spec_image_len(doc);
    lemma_code_len_prefix(doc.actions, i);
    lemma_code_len_prefix(doc.actions, i + 1);
    lemma_export_count_nonneg(doc.actions);
    assert(doc.actions.take(doc.actions.len() as int) =~= doc.actions);
    assert(spec_rec_off(doc, i) + rec_len(doc.actions[i].1) <= spec_to_bytes(doc).len());
    let ps = doc.actions[i].1.params;
    let doff = spec_data_off(doc, i);
    lemma_params_bytes_len(doc, ps, doff);
    lemma_params_at(doc, ps, doff, j);
    let a = doc.actions[i].1;
    let rec = spec_record_bytes(doc, i);
    let head = w32(if a.call { 1u32 } else { 0u32 })
        + w32(if a.call { spec_target_off(doc, a.opcode) } else { a.opcode })
        + w32(a.params.len() as u32) + w32(rec_len(a) as u32);
    assert(rec =~= head + spec_params_bytes(doc, ps, doff) + a.data);
    assert(head.len() == 16);
    assert(rec.subrange(16 + 12 * j, 16 + 12 * j + 12)
        =~= spec_params_bytes(doc, ps, doff).subrange(12 * j, 12 * j + 12));
    lemma_record_bytes_len(doc, i);
    let sub = spec_to_bytes(doc).subrange(spec_rec_off(doc, i), spec_rec_off(doc, i) + rec_len(a));
    let base = spec_rec_off(doc, i) + 16 + 12 * j;
    assert forall|k: int| 0 <= k < 12 implies
        #[trigger] spec_to_bytes(doc).subrange(base, base + 12)[k]
            == rec.subrange(16 + 12 * j, 16 + 12 * j + 12)[k] by {
        assert(rec.subrange(16 + 12 * j, 16 + 12 * j + 12)[k] == rec[16 + 12 * j + k]);
        assert(rec[16 + 12 * j + k] == sub[16 + 12 * j + k]);
        assert(sub[16 + 12 * j + k] == spec_to_bytes(doc)[base + k]);
        assert(spec_to_bytes(doc).subrange(base, base + 12)[k]
            == spec_to_bytes(doc)[base + k]);
    }
    assert(spec_to_bytes(doc).subrange(
        spec_rec_off(doc, i) + 16 + 12 * j,
        spec_rec_off(doc, i) + 16 + 12 * j + 12,
    ) =~= rec.subrange(16 + 12 * j, 16 + 12 * j + 12));
}

/// The four bytes at word offset `w` of parameter `j`'s wire block stand
/// in the encoded image at `cpos`.
proof fn proof_window_slice(doc: Stcm2V, i: int, j: int, w: int, cpos: int)
    requires
        encodable(doc),
        0 <= i < doc.actions.len(),
        0 <= j < doc.actions[i].1.params.len(),
        0 <= w <= 8,
        cpos == spec_rec_off(doc, i) + 16 + 12 * j + w,
    ensures
        spec_to_bytes(doc).subrange(cpos, cpos + 4)
            == spec_param_bytes(doc, doc.actions[i].1.params[j],
                spec_data_off(doc, i)).subrange(w, w + 4),
{
    vstd::bytes::lemma_auto_spec_u32_to_from_le_bytes();
    lemma_window_value_param(doc, i, j);
    lemma_spec_image_len(doc);
    lemma_code_len_prefix(doc.actions, i);
    lemma_code_len_prefix(doc.actions, i + 1);
    lemma_export_count_nonneg(doc.actions);
    assert(doc.actions.take(doc.actions.len() as int) =~= doc.actions);
    assert(spec_rec_off(doc, i) + rec_len(doc.actions[i].1) <= spec_to_bytes(doc).len());
    lemma_params_bytes_len(doc, doc.actions[i].1.params, spec_data_off(doc, i));
    let blk = spec_param_bytes(doc, doc.actions[i].1.params[j], spec_data_off(doc, i));
    let base = spec_rec_off(doc, i) + 16 + 12 * j;
    let sub = spec_to_bytes(doc).subrange(base, base + 12);
    assert forall|k: int| 0 <= k < 4 implies
        #[trigger] spec_to_bytes(doc).subrange(cpos, cpos + 4)[k]
            == blk.subrange(w, w + 4)[k] by {
        assert(blk.subrange(w, w + 4)[k] == blk[w + k]);
        assert(blk[w + k] == sub[w + k]);
        assert(sub[w + k] == spec_to_bytes(doc)[base + w + k]);
        assert(spec_to_bytes(doc).subrange(cpos, cpos + 4)[k]
            == spec_to_bytes(doc)[cpos + k]);
    }
    assert(spec_to_bytes(doc).subrange(cpos, cpos + 4) =~= blk.subrange(w, w + 4));
}

/// Parameter `j`'s wire words inside the parameter region.
proof fn lemma_params_at(doc: Stcm2V, ps: Seq<Parameter>, doff: u32, j: int)
    requires
        0 <= j < ps.len(),
    ensures
        spec_params_bytes(doc, ps, doff).subrange(12 * j, 12 * j + 12)
            == spec_param_bytes(doc, ps[j], doff),
    decreases ps.len(),
{
    vstd::bytes::lemma_auto_spec_u32_to_from_le_bytes();
    lemma_params_bytes_len(doc, ps, doff);
    if j == ps.len() - 1 {
        lemma_params_bytes_len(doc, ps.drop_last(), doff);
        assert(spec_params_bytes(doc, ps, doff).subrange(12 * j, 12 * j + 12)
            =~= spec_param_bytes(doc, ps[j], doff));
    } else {
        lemma_params_at(doc, ps.drop_last(), doff, j);
        lemma_params_bytes_len(doc, ps.drop_last(), doff);
        assert(ps.drop_last()[j] == ps[j]);
        assert(spec_params_bytes(doc, ps, doff).subrange(12 * j, 12 * j + 12)
            =~= spec_params_bytes(doc, ps.drop_last(), doff).subrange(12 * j, 12 * j + 12));
    }
}

/// One pending fixup is sound: its window sits past the header, inside the
/// buffer, still holds its sentinel, it came from the document, and a local
/// fixup's resolved value will fit in 32 bits.
spec fn fixup_ok(
    f: Fixup,
    out: Seq<u8>,
    doc: Stcm2V,
    refs: Seq<(Address, u32, u32)>,
) -> bool {
    &&& 96 <= f.pos
    &&& f.pos + 4 <= out.len()
    &&& out.subrange(f.pos as int, f.pos + 4) == w32(f.canary)
    &&& fix_from_doc(f.kind, doc.actions)
    &&& spec_to_bytes(doc).subrange(f.pos as int, f.pos + 4)
            == w32(fix_resolved(doc, f.kind))
    &&& (f.kind is Local ==> exists|t: int| 0 <= t < refs.len()
            && (#[trigger] refs[t]).0 == fix_key(f.kind)
            && refs[t].2 + off_of(f.kind) <= u32::MAX)
}

/// All pending fixups are sound, with pairwise disjoint windows in
/// emission order.
spec fn fixups_wf(
    fx: Seq<Fixup>,
    out: Seq<u8>,
    doc: Stcm2V,
    refs: Seq<(Address, u32, u32)>,
) -> bool {
    &&& forall|i: int| 0 <= i < fx.len() ==> fixup_ok(#[trigger] fx[i], out, doc, refs)
    &&& forall|i: int, j: int| 0 <= i < j < fx.len()
        ==> (#[trigger] fx[i]).pos + 4 <= (#[trigger] fx[j]).pos
}

/// Some pending fixup's sentinel window covers byte `q`.
spec fn in_windows(fx: Seq<Fixup>, q: int) -> bool {
    exists|i: int| 0 <= i < fx.len() && (#[trigger] fx[i]).pos <= q < fx[i].pos + 4
}

/// Every emitted byte outside the pending sentinel windows — and, while
/// `hole` is set, outside the header's export-offset placeholder — already
/// equals the encoded image.
spec fn out_matches(out: Seq<u8>, doc: Stcm2V, fx: Seq<Fixup>, hole: bool) -> bool {
    forall|q: int| 0 <= q < out.len() && !in_windows(fx, q) && !(hole && 32 <= q < 36)
        ==> #[trigger] out[q] == spec_to_bytes(doc)[q]
}

/// Appending bytes that either match the image or sit under a window
/// keeps the buffer matching.
proof fn lemma_matches_grow(doc: Stcm2V, fx: Seq<Fixup>, o0: Seq<u8>, o1: Seq<u8>, hole: bool)
    requires
        out_matches(o0, doc, fx, hole),
        o0.len() <= o1.len(),
        o1.subrange(0, o0.len() as int) == o0,
        forall|q: int| o0.len() <= q < o1.len()
            ==> #[trigger] o1[q] == spec_to_bytes(doc)[q] || in_windows(fx, q),
    ensures
        out_matches(o1, doc, fx, hole),
{
    assert forall|q: int| 0 <= q < o1.len() && !in_windows(fx, q) && !(hole && 32 <= q < 36)
        implies #[trigger] o1[q] == spec_to_bytes(doc)[q] by {
        if q < o0.len() {
            assert(o1[q] == o1.subrange(0, o0.len() as int)[q]);
        }
    }
}

/// Growing the pending set only exempts more bytes.
proof fn lemma_matches_more_windows(
    doc: Stcm2V,
    fx0: Seq<Fixup>,
    fx1: Seq<Fixup>,
    out: Seq<u8>,
    hole: bool,
)
    requires
        out_matches(out, doc, fx0, hole),
        fx0.len() <= fx1.len(),
        fx0 == fx1.subrange(0, fx0.len() as int),
    ensures
        out_matches(out, doc, fx1, hole),
{
    assert forall|q: int| 0 <= q < out.len() && !in_windows(fx1, q) && !(hole && 32 <= q < 36)
        implies #[trigger] out[q] == spec_to_bytes(doc)[q] by {
        if in_windows(fx0, q) {
            let w = choose|w: int| 0 <= w < fx0.len()
                && (#[trigger] fx0[w]).pos <= q < fx0[w].pos + 4;
            assert(fx1[w] == fx1.subrange(0, fx0.len() as int)[w]);
            assert(false);
        }
    }
}

/// Appending exactly the image's bytes at the buffer's end keeps it
/// matching.
proof fn lemma_appended_matches(doc: Stcm2V, o0: Seq<u8>, o1: Seq<u8>, piece: Seq<u8>)
    requires
        o1 == o0 + piece,
        o0.len() + piece.len() <= spec_to_bytes(doc).len(),
        spec_to_bytes(doc).subrange(o0.len() as int, o0.len() + piece.len() as int) == piece,
    ensures
        forall|q: int| o0.len() <= q < o1.len()
            ==> #[trigger] o1[q] == spec_to_bytes(doc)[q],
{
    assert forall|q: int| o0.len() <= q < o1.len()
        implies #[trigger] o1[q] == spec_to_bytes(doc)[q] by {
        assert(o1[q] == piece[q - o0.len()]);
        assert(spec_to_bytes(doc).subrange(o0.len() as int, o0.len() + piece.len() as int)[q - o0.len()]
            == spec_to_bytes(doc)[q]);
    }
}

/// The fixed 16-byte head of record `i` in the encoded image.
#[verifier::rlimit(100)]
proof fn lemma_spec_head(doc: Stcm2V, i: int)
    requires
        encodable(doc),
        0 <= i < doc.actions.len(),
    ensures
        ({
            let a = doc.actions[i].1;
            let ro = spec_rec_off(doc, i);
            &&& spec_to_bytes(doc).subrange(ro, ro + 4)
                == w32(if a.call { 1u32 } else { 0u32 })
            &&& spec_to_bytes(doc).subrange(ro + 8, ro + 12)
                == w32(a.params.len() as u32)
            &&& spec_to_bytes(doc).subrange(ro + 12, ro + 16)
                == w32(rec_len(a) as u32)
            &&& !a.call ==> spec_to_bytes(doc).subrange(ro + 4, ro + 8) == w32(a.opcode)
        }),
{
    vstd::bytes::lemma_auto_spec_u32_to_from_le_bytes();
    lemma_spec_at_record(doc, i);
    lemma_spec_image_len(doc);
    lemma_code_len_prefix(doc.actions, i);
    lemma_code_len_prefix(doc.actions, i + 1);
    lemma_export_count_nonneg(doc.actions);
    assert(doc.actions.take(doc.actions.len() as int) =~= doc.actions);
    let a = doc.actions[i].1;
    let ro = spec_rec_off(doc, i);
    lemma_params_bytes_len(doc, a.params, spec_data_off(doc, i));
    let rec = spec_record_bytes(doc, i);
    assert(ro + rec_len(a) <= spec_to_bytes(doc).len());
    let head = w32(if a.call { 1u32 } else { 0u32 })
        + w32(if a.call { spec_target_off(doc, a.opcode) } else { a.opcode })
        + w32(a.params.len() as u32) + w32(rec_len(a) as u32);
    assert(rec =~= head + spec_params_bytes(doc, a.params, spec_data_off(doc, i)) + a.data);
    let sub = spec_to_bytes(doc).subrange(ro, ro + rec_len(a));
    assert forall|k: int| 0 <= k < 4 implies
        #[trigger] spec_to_bytes(doc).subrange(ro, ro + 4)[k] == head[k] by {
        assert(sub[k] == spec_to_bytes(doc)[ro + k]);
        assert(rec[k] == head[k]);
        assert(spec_to_bytes(doc).subrange(ro, ro + 4)[k] == spec_to_bytes(doc)[ro + k]);
    }
    assert forall|k: int| 0 <= k < 4 implies
        #[trigger] spec_to_bytes(doc).subrange(ro + 4, ro + 8)[k] == head[4 + k] by {
        assert(sub[4 + k] == spec_to_bytes(doc)[ro + 4 + k]);
        assert(rec[4 + k] == head[4 + k]);
        assert(spec_to_bytes(doc).subrange(ro + 4, ro + 8)[k]
            == spec_to_bytes(doc)[ro + 4 + k]);
    }
    assert forall|k: int| 0 <= k < 4 implies
        #[trigger] spec_to_bytes(doc).subrange(ro + 8, ro + 12)[k] == head[8 + k] by {
        assert(sub[8 + k] == spec_to_bytes(doc)[ro + 8 + k]);
        assert(rec[8 + k] == head[8 + k]);
        assert(spec_to_bytes(doc).subrange(ro + 8, ro + 12)[k]
            == spec_to_bytes(doc)[ro + 8 + k]);
    }
    assert forall|k: int| 0 <= k < 4 implies
        #[trigger] spec_to_bytes(doc).subrange(ro + 12, ro + 16)[k] == head[12 + k] by {
        assert(sub[12 + k] == spec_to_bytes(doc)[ro + 12 + k]);
        assert(rec[12 + k] == head[12 + k]);
        assert(spec_to_bytes(doc).subrange(ro + 12, ro + 16)[k]
            == spec_to_bytes(doc)[ro + 12 + k]);
    }
    assert(spec_to_bytes(doc).subrange(ro, ro + 4)
        =~= w32(if a.call { 1u32 } else { 0u32 }));
    assert(spec_to_bytes(doc).subrange(ro + 8, ro + 12)
        =~= w32(a.params.len() as u32));
    assert(spec_to_bytes(doc).subrange(ro + 12, ro + 16)
        =~= w32(rec_len(a) as u32));
    if !a.call {
        assert(spec_to_bytes(doc).subrange(ro + 4, ro + 8) =~= w32(a.opcode));
    }
}

/// The trailing data of record `i` in the encoded image.
#[verifier::rlimit(100)]
proof fn lemma_spec_data(doc: Stcm2V, i: int)
    requires
        encodable(doc),
        0 <= i < doc.actions.len(),
    ensures
        ({
            let a = doc.actions[i].1;
            let dstart = spec_rec_off(doc, i) + 16 + 12 * a.params.len();
            spec_to_bytes(doc).subrange(dstart, dstart + a.data.len() as int) == a.data
        }),
{
    vstd::bytes::lemma_auto_spec_u32_to_from_le_bytes();
    lemma_spec_at_record(doc, i);
    lemma_spec_image_len(doc);
    lemma_code_len_prefix(doc.actions, i);
    lemma_code_len_prefix(doc.actions, i + 1);
    lemma_export_count_nonneg(doc.actions);
    assert(doc.actions.take(doc.actions.len() as int) =~= doc.actions);
    let a = doc.actions[i].1;
    let ro = spec_rec_off(doc, i);
    lemma_params_bytes_len(doc, a.params, spec_data_off(doc, i));
    let rec = spec_record_bytes(doc, i);
    assert(ro + rec_len(a) <= spec_to_bytes(doc).len());
    let head = w32(if a.call { 1u32 } else { 0u32 })
        + w32(if a.call { spec_target_off(doc, a.opcode) } else { a.opcode })
        + w32(a.params.len() as u32) + w32(rec_len(a) as u32);
    assert(rec =~= head + spec_params_bytes(doc, a.params, spec_data_off(doc, i)) + a.data);
    let sub = spec_to_bytes(doc).subrange(ro, ro + rec_len(a));
    let ds = 16 + 12 * a.params.len() as int;
    assert forall|k: int| 0 <= k < a.data.len()
        implies #[trigger] spec_to_bytes(doc).subrange(ro + ds, ro + ds + a.data.len() as int)[k]
            == a.data[k] by {
        assert(sub[ds + k] == spec_to_bytes(doc)[ro + ds + k]);
        assert(rec[ds + k] == a.data[k]);
        assert(spec_to_bytes(doc).subrange(ro + ds, ro + ds + a.data.len() as int)[k]
            == spec_to_bytes(doc)[ro + ds + k]);
    }
    assert(spec_to_bytes(doc).subrange(ro + ds, ro + ds + a.data.len() as int) =~= a.data);
}

/// Every call target and global-pointer parameter of the actions either
/// already has its address in the reference table or has a fixup pending.
spec fn covered(
    acts: Seq<(Address, ActionV)>,
    refs: Seq<(Address, u32, u32)>,
    fx: Seq<Fixup>,
) -> bool {
    forall|i: int| 0 <= i < acts.len() ==> {
        &&& ((#[trigger] acts[i]).1.call
            ==> key_in_refs(refs, Address { orig: acts[i].1.opcode, sub: 0u32 })
                || pend_has_key(fx, Address { orig: acts[i].1.opcode, sub: 0u32 }))
        &&& forall|j: int| 0 <= j < acts[i].1.params.len()
            ==> ((#[trigger] acts[i].1.params[j]) matches Parameter::GlobalPointer(t)
                ==> key_in_refs(refs, Address { orig: t, sub: 0u32 })
                    || pend_has_key(fx, Address { orig: t, sub: 0u32 }))
    }
}

/// Growing the buffer leaves every pending window intact.
proof fn lemma_windows_grow(
    fx: Seq<Fixup>,
    old_out: Seq<u8>,
    new_out: Seq<u8>,
    doc: Stcm2V,
    refs: Seq<(Address, u32, u32)>,
)
    requires
        fixups_wf(fx, old_out, doc, refs),
        old_out.len() <= new_out.len(),
        new_out.subrange(0, old_out.len() as int) == old_out,
    ensures
        fixups_wf(fx, new_out, doc, refs),
{
    assert forall|i: int| 0 <= i < fx.len() implies fixup_ok(#[trigger] fx[i], new_out, doc, refs) by {
        let f = fx[i];
        assert(new_out.subrange(f.pos as int, f.pos + 4)
            =~= old_out.subrange(f.pos as int, f.pos + 4)) by {
            assert(forall|q: int| 0 <= q < old_out.len()
                ==> #[trigger] new_out[q] == old_out.subrange(0, old_out.len() as int)[q]);
        }
    }
}

/// Coverage survives growing the reference table and the fixup list.
proof fn lemma_covered_mono(
    acts: Seq<(Address, ActionV)>,
    refs0: Seq<(Address, u32, u32)>,
    refs1: Seq<(Address, u32, u32)>,
    fx0: Seq<Fixup>,
    fx1: Seq<Fixup>,
)
    requires
        covered(acts, refs0, fx0),
        refs0.len() <= refs1.len(),
        refs0 == refs1.subrange(0, refs0.len() as int),
        fx0.len() <= fx1.len(),
        fx0 == fx1.subrange(0, fx0.len() as int),
    ensures
        covered(acts, refs1, fx1),
{
    assert forall|k: Address| key_in_refs(refs0, k) implies key_in_refs(refs1, k) by {
        let t = choose|t: int| 0 <= t < refs0.len() && (#[trigger] refs0[t]).0 == k;
        assert(refs1[t] == refs1.subrange(0, refs0.len() as int)[t]);
    }
    assert forall|k: Address| pend_has_key(fx0, k) implies pend_has_key(fx1, k) by {
        let t = choose|t: int| 0 <= t < fx0.len()
            && fix_key((#[trigger] fx0[t]).kind) == k;
        assert(fx1[t] == fx1.subrange(0, fx0.len() as int)[t]);
    }
}

/// A bigger reference table covers at least as much.
proof fn lemma_windows_refs_grow(
    fx: Seq<Fixup>,
    out: Seq<u8>,
    doc: Stcm2V,
    refs0: Seq<(Address, u32, u32)>,
    refs1: Seq<(Address, u32, u32)>,
)
    requires
        fixups_wf(fx, out, doc, refs0),
        refs1.len() >= refs0.len(),
        refs1.subrange(0, refs0.len() as int) == refs0,
    ensures
        fixups_wf(fx, out, doc, refs1),
{
    assert forall|i: int| 0 <= i < fx.len() implies fixup_ok(#[trigger] fx[i], out, doc, refs1) by {
        let f = fx[i];
        if f.kind is Local {
            let t = choose|t: int| 0 <= t < refs0.len()
                && (#[trigger] refs0[t]).0 == fix_key(f.kind)
                && refs0[t].2 + off_of(f.kind) <= u32::MAX;
            assert(refs1[t] == refs0.subrange(0, refs0.len() as int)[t]);
        }
    }
}

/// What a local fixup adds to its base.
spec fn off_of(k: FixKind) -> u32 {
    match k {
        FixKind::Local(_, off) => off,
        _ => 0u32,
    }
}

/// Emits one action record: reference-table entry, fixed fields, the three
/// words of each parameter — with a sentinel and a registered fixup where a
/// pointer waits for the final layout — and the trailing data.
#[verifier::loop_isolation(false)]
#[verifier::rlimit(100)]
fn emit_action(
    input: &Stcm2,
    i: usize,
    out: &mut Vec<u8>,
    refs: &mut Vec<(Address, u32, u32)>,
    fixups: &mut Vec<Fixup>,
)
    requires
        encodable(input@),
        i < input.actions@.len(),
        old(out)@.len() == spec_rec_off(input@, i as int),
        old(refs)@.len() == i,
        fixups_wf(old(fixups)@, old(out)@, input@, old(refs)@),
        covered(input@.actions.take(i as int), old(refs)@, old(fixups)@),
        out_matches(old(out)@, input@, old(fixups)@, true),
    ensures
        out_matches(final(out)@, input@, final(fixups)@, true),
        final(out)@.len() == spec_rec_off(input@, i + 1),
        forall|q: int| 0 <= q < old(out)@.len()
            ==> #[trigger] final(out)@[q] == old(out)@[q],
        forall|k: int| 0 <= k < final(fixups)@.len()
            ==> old(fixups)@.len() <= k
                || #[trigger] final(fixups)@[k] == old(fixups)@[k],
        old(fixups)@.len() <= final(fixups)@.len(),
        forall|k: int| old(fixups)@.len() <= k < final(fixups)@.len()
            ==> spec_rec_off(input@, i as int) <= (#[trigger] final(fixups)@[k]).pos,
        final(refs)@.len() == i + 1,
        final(refs)@.subrange(0, i as int) == old(refs)@,
        final(refs)@[i as int].0 == input@.actions[i as int].0,
        final(refs)@[i as int].1 as int == spec_rec_off(input@, i as int),
        final(refs)@[i as int].2 as int == spec_rec_off(input@, i as int) + 16
            + 12 * input@.actions[i as int].1.params.len(),
        fixups_wf(final(fixups)@, final(out)@, input@, final(refs)@),
        covered(input@.actions.take(i + 1), final(refs)@, final(fixups)@),
{
    let ghost doc = input@;
    let ghost av = input@.actions;
    proof {
        vstd::bytes::lemma_auto_spec_u32_to_from_le_bytes();
        lemma_code_len_prefix(av, i as int);
        lemma_code_len_prefix(av, i + 1);
        lemma_export_count_nonneg(av);
        assert(av.take(av.len() as int) =~= av);
        assert(spec_pre_pad_len(doc) <= spec_padded_len(doc));
        assert(spec_rec_off(doc, i + 1) <= spec_pre_pad_len(doc) <= u32::MAX);
        lemma_spec_image_len(doc);
        assert(spec_rec_off(doc, i + 1) <= spec_to_bytes(doc).len());
        lemma_spec_head(doc, i as int);
        lemma_spec_data(doc, i as int);
    }
    let ghost fx0 = fixups@;
    let ghost refs0 = refs@;
    let pair = &input.actions[i];
    let nparams = pair.1.params.len();
    let ndata = pair.1.data.len();
    assert(rec_len(av[i as int].1) == 16 + 12 * (nparams as int) + ndata);
    let rec_off: u32 = out.len() as u32;
    let data_off: u32 = rec_off + 16 + 12 * (nparams as u32);
    refs.push((pair.0, rec_off, data_off));
    proof {
        assert(refs@.subrange(0, refs0.len() as int) =~= refs0);
        lemma_windows_refs_grow(fixups@, out@, doc, refs0, refs@);
    }

    // fixed fields
    let ghost o0 = out@;
    if pair.1.call {
        put_u32_le(out, 1);
    } else {
        put_u32_le(out, 0);
    }
    proof {
        assert(out@.subrange(0, o0.len() as int) =~= o0);
        lemma_windows_grow(fixups@, o0, out@, doc, refs@);
        assert(forall|q: int| 0 <= q < o0.len()
            ==> #[trigger] out@[q] == out@.subrange(0, o0.len() as int)[q]);
        lemma_appended_matches(doc, o0, out@,
            w32(if av[i as int].1.call { 1u32 } else { 0u32 }));
        lemma_matches_grow(doc, fixups@, o0, out@, true);
    }
    if pair.1.call {
        let canary: u32 = rand::random();
        let ghost o1 = out@;
        let cpos = out.len();
        put_u32_le(out, canary);
        proof {
            assert(out@.subrange(0, o1.len() as int) =~= o1);
            lemma_windows_grow(fixups@, o1, out@, doc, refs@);
            assert(out@.subrange(cpos as int, cpos + 4) =~= w32(canary));
        }
        let ghost fxp = fixups@;
        fixups.push(Fixup { pos: cpos, canary, kind: FixKind::Call(pair.1.opcode) });
        proof {
            assert forall|k: int| 0 <= k < fxp.len()
                implies (#[trigger] fxp[k]).pos + 4 <= cpos by {
                assert(fixup_ok(fxp[k], o1, doc, refs@));
            }
            assert forall|k2: Address| pend_has_key(fxp, k2)
                implies pend_has_key(fixups@, k2) by {
                let w = choose|w: int| 0 <= w < fxp.len()
                    && fix_key((#[trigger] fxp[w]).kind) == k2;
                assert(fixups@[w] == fxp[w]);
            }
            assert(fix_from_doc(FixKind::Call(av[i as int].1.opcode), av));
            lemma_window_value_call(doc, i as int);
            assert(cpos as int == spec_rec_off(doc, i as int) + 4);
            assert(spec_to_bytes(doc).subrange(cpos as int, cpos + 4)
                == w32(fix_resolved(doc, FixKind::Call(av[i as int].1.opcode))));
            assert(fixups_wf(fixups@, out@, doc, refs@));
            assert(fix_key(fixups@.last().kind)
                == (Address { orig: av[i as int].1.opcode, sub: 0u32 }));
            assert(pend_has_key(fixups@,
                Address { orig: av[i as int].1.opcode, sub: 0u32 }));
            assert(fxp =~= fixups@.subrange(0, fxp.len() as int));
            lemma_matches_more_windows(doc, fxp, fixups@, o1, true);
            assert(forall|q: int| o1.len() <= q < out@.len()
                ==> in_windows(fixups@, q)) by {
                assert((#[trigger] fixups@[fixups@.len() - 1]).pos == cpos);
            }
            lemma_matches_grow(doc, fixups@, o1, out@, true);
        }
    } else {
        let ghost o1 = out@;
        put_u32_le(out, pair.1.opcode);
        proof {
            assert(out@.subrange(0, o1.len() as int) =~= o1);
            lemma_windows_grow(fixups@, o1, out@, doc, refs@);
            lemma_appended_matches(doc, o1, out@, w32(av[i as int].1.opcode));
            lemma_matches_grow(doc, fixups@, o1, out@, true);
        }
    }
    let ghost o2 = out@;
    put_u32_le(out, nparams as u32);
    proof {
        assert(out@.subrange(0, o2.len() as int) =~= o2);
        lemma_windows_grow(fixups@, o2, out@, doc, refs@);
        lemma_appended_matches(doc, o2, out@, w32(av[i as int].1.params.len() as u32));
        lemma_matches_grow(doc, fixups@, o2, out@, true);
    }
    let ghost o2b = out@;
    put_u32_le(out, 16 + 12 * (nparams as u32) + (ndata as u32));
    proof {
        assert(out@.subrange(0, o2b.len() as int) =~= o2b);
        lemma_windows_grow(fixups@, o2b, out@, doc, refs@);
        assert(16 + 12 * (nparams as u32) + (ndata as u32)
            == rec_len(av[i as int].1) as u32);
        lemma_appended_matches(doc, o2b, out@, w32(rec_len(av[i as int].1) as u32));
        lemma_matches_grow(doc, fixups@, o2b, out@, true);
    }

    // parameters: three words each, sentinels where a pointer waits
    let mut j: usize = 0;
    while j < nparams
        invariant
            j <= nparams,
            nparams == av[i as int].1.params.len(),
            out@.len() == spec_rec_off(doc, i as int) + 16 + 12 * (j as int),
            refs@.len() == i + 1,
            refs@[i as int].0 == av[i as int].0,
            refs@[i as int].2 as int
                == spec_rec_off(doc, i as int) + 16 + 12 * (nparams as int),
            fixups_wf(fixups@, out@, doc, refs@),
            forall|t: int| 0 <= t < j
                ==> ((#[trigger] av[i as int].1.params[t])
                    matches Parameter::GlobalPointer(g)
                    ==> pend_has_key(fixups@,
                        Address { orig: g, sub: 0u32 })),
            av[i as int].1.call ==> pend_has_key(fixups@,
                Address { orig: av[i as int].1.opcode, sub: 0u32 }),
            out_matches(out@, doc, fixups@, true),
            fx0.len() <= fixups@.len(),
            forall|k1: int| 0 <= k1 < fx0.len() ==> #[trigger] fixups@[k1] == fx0[k1],
            forall|k1: int| fx0.len() <= k1 < fixups@.len()
                ==> spec_rec_off(doc, i as int) <= (#[trigger] fixups@[k1]).pos,
            forall|q: int| 0 <= q < old(out)@.len()
                ==> #[trigger] out@[q] == old(out)@[q],
        decreases nparams - j,
    {
        let p = pair.1.params[j];
        match p {
            Parameter::GlobalPointer(t) => {
                let ghost o3 = out@;
                put_u32_le(out, 0xffffff41u32);
                proof {
                    assert(out@.subrange(0, o3.len() as int) =~= o3);
                    lemma_windows_grow(fixups@, o3, out@, doc, refs@);
                    assert(av[i as int].1.params[j as int]
                        == Parameter::GlobalPointer(t));
                    lemma_window_value_param(doc, i as int, j as int);
                    assert(spec_param_bytes(doc, av[i as int].1.params[j as int],
                            spec_data_off(doc, i as int))
                        =~= w32(0xffffff41u32) + w32(spec_target_off(doc, t))
                            + w32(0xff000000u32));
                    assert(spec_param_bytes(doc, av[i as int].1.params[j as int],
                            spec_data_off(doc, i as int)).subrange(0, 4)
                        =~= w32(0xffffff41u32));
                    proof_window_slice(doc, i as int, j as int, 0, o3.len() as int);
                    lemma_appended_matches(doc, o3, out@, w32(0xffffff41u32));
                    lemma_matches_grow(doc, fixups@, o3, out@, true);
                }
                let canary: u32 = rand::random();
                let ghost o4 = out@;
                let cpos = out.len();
                put_u32_le(out, canary);
                proof {
                    assert(out@.subrange(0, o4.len() as int) =~= o4);
                    lemma_windows_grow(fixups@, o4, out@, doc, refs@);
                    assert(out@.subrange(cpos as int, cpos + 4) =~= w32(canary));
                }
                let ghost fxp = fixups@;
                fixups.push(Fixup { pos: cpos, canary, kind: FixKind::Global(t) });
                proof {
                    assert forall|k: int| 0 <= k < fxp.len()
                        implies (#[trigger] fxp[k]).pos + 4 <= cpos by {
                        assert(fixup_ok(fxp[k], o4, doc, refs@));
                    }
                    assert forall|k2: Address| pend_has_key(fxp, k2)
                        implies pend_has_key(fixups@, k2) by {
                        let w = choose|w: int| 0 <= w < fxp.len()
                            && fix_key((#[trigger] fxp[w]).kind) == k2;
                        assert(fixups@[w] == fxp[w]);
                    }
                    assert(av[i as int].1.params[j as int]
                        == Parameter::GlobalPointer(t));
                    assert(fix_from_doc(FixKind::Global(t), av));
                    lemma_window_value_param(doc, i as int, j as int);
                    assert(cpos as int == spec_rec_off(doc, i as int) + 16 + 12 * (j as int) + 4);
                    assert(spec_param_bytes(doc, av[i as int].1.params[j as int],
                            spec_data_off(doc, i as int))
                        =~= w32(0xffffff41u32) + w32(spec_target_off(doc, t))
                            + w32(0xff000000u32));
                    assert(spec_param_bytes(doc, av[i as int].1.params[j as int],
                            spec_data_off(doc, i as int)).subrange(4, 8)
                        =~= w32(spec_target_off(doc, t)));
                    proof_window_slice(doc, i as int, j as int, 4, cpos as int);
                    assert(spec_to_bytes(doc).subrange(cpos as int, cpos + 4)
                        =~= spec_param_bytes(doc, av[i as int].1.params[j as int],
                            spec_data_off(doc, i as int)).subrange(4, 8));
                    assert(fixups_wf(fixups@, out@, doc, refs@));
                    assert(fix_key(fixups@.last().kind)
                        == (Address { orig: t, sub: 0u32 }));
                    assert(pend_has_key(fixups@, Address { orig: t, sub: 0u32 }));
                    assert(fxp =~= fixups@.subrange(0, fxp.len() as int));
                    lemma_matches_more_windows(doc, fxp, fixups@, o4, true);
                    assert(forall|q: int| o4.len() <= q < out@.len()
                        ==> in_windows(fixups@, q)) by {
                        assert((#[trigger] fixups@[fixups@.len() - 1]).pos == cpos);
                    }
                    lemma_matches_grow(doc, fixups@, o4, out@, true);
                }
                let ghost o5 = out@;
                put_u32_le(out, 0xff000000u32);
                proof {
                    assert(out@.subrange(0, o5.len() as int) =~= o5);
                    lemma_windows_grow(fixups@, o5, out@, doc, refs@);
                    assert(spec_param_bytes(doc, av[i as int].1.params[j as int],
                            spec_data_off(doc, i as int)).subrange(8, 12)
                        =~= w32(0xff000000u32));
                    proof_window_slice(doc, i as int, j as int, 8, o5.len() as int);
                    lemma_appended_matches(doc, o5, out@, w32(0xff000000u32));
                    lemma_matches_grow(doc, fixups@, o5, out@, true);
                }
            }
            Parameter::LocalPointer(off) => {
                let canary: u32 = rand::random();
                let ghost o3 = out@;
                let cpos = out.len();
                put_u32_le(out, canary);
                proof {
                    assert(out@.subrange(0, o3.len() as int) =~= o3);
                    lemma_windows_grow(fixups@, o3, out@, doc, refs@);
                    assert(out@.subrange(cpos as int, cpos + 4) =~= w32(canary));
                }
                let ghost fxp = fixups@;
                fixups.push(Fixup {
                    pos: cpos,
                    canary,
                    kind: FixKind::Local(pair.0, off),
                });
                proof {
                    assert forall|k: int| 0 <= k < fxp.len()
                        implies (#[trigger] fxp[k]).pos + 4 <= cpos by {
                        assert(fixup_ok(fxp[k], o3, doc, refs@));
                    }
                    assert forall|k2: Address| pend_has_key(fxp, k2)
                        implies pend_has_key(fixups@, k2) by {
                        let w = choose|w: int| 0 <= w < fxp.len()
                            && fix_key((#[trigger] fxp[w]).kind) == k2;
                        assert(fixups@[w] == fxp[w]);
                    }
                    assert(av[i as int].1.params[j as int]
                        == Parameter::LocalPointer(off));
                    assert(off <= av[i as int].1.data.len());
                    assert(fix_from_doc(FixKind::Local(av[i as int].0, off), av));
                    assert(refs@[i as int].2 + off <= u32::MAX);
                    lemma_window_value_param(doc, i as int, j as int);
                    lemma_action_index_self(av, i as int);
                    assert(cpos as int == spec_rec_off(doc, i as int) + 16 + 12 * (j as int));
                    assert(spec_param_bytes(doc, av[i as int].1.params[j as int],
                            spec_data_off(doc, i as int))
                        =~= w32((spec_data_off(doc, i as int) + off) as u32)
                            + w32(0xff000000u32) + w32(0xff000000u32));
                    assert(spec_param_bytes(doc, av[i as int].1.params[j as int],
                            spec_data_off(doc, i as int)).subrange(0, 4)
                        =~= w32((spec_data_off(doc, i as int) + off) as u32));
                    proof_window_slice(doc, i as int, j as int, 0, cpos as int);
                    assert(spec_to_bytes(doc).subrange(cpos as int, cpos + 4)
                        =~= spec_param_bytes(doc, av[i as int].1.params[j as int],
                            spec_data_off(doc, i as int)).subrange(0, 4));
                    assert(fix_resolved(doc, FixKind::Local(av[i as int].0, off))
                        == (spec_data_off(doc, i as int) + off) as u32);
                    assert(fixup_ok(fixups@.last(), out@, doc, refs@));
                    assert(fixups_wf(fixups@, out@, doc, refs@));
                    assert(fxp =~= fixups@.subrange(0, fxp.len() as int));
                    lemma_matches_more_windows(doc, fxp, fixups@, o3, true);
                    assert(forall|q: int| o3.len() <= q < out@.len()
                        ==> in_windows(fixups@, q)) by {
                        assert((#[trigger] fixups@[fixups@.len() - 1]).pos == cpos);
                    }
                    lemma_matches_grow(doc, fixups@, o3, out@, true);
                }
                let ghost o4 = out@;
                put_u32_le(out, 0xff000000u32);
                proof {
                    assert(out@.subrange(0, o4.len() as int) =~= o4);
                    lemma_windows_grow(fixups@, o4, out@, doc, refs@);
                    assert(spec_param_bytes(doc, av[i as int].1.params[j as int],
                            spec_data_off(doc, i as int)).subrange(4, 8)
                        =~= w32(0xff000000u32));
                    proof_window_slice(doc, i as int, j as int, 4, o4.len() as int);
                    lemma_appended_matches(doc, o4, out@, w32(0xff000000u32));
                    lemma_matches_grow(doc, fixups@, o4, out@, true);
                }
                let ghost o4b = out@;
                put_u32_le(out, 0xff000000u32);
                proof {
                    assert(out@.subrange(0, o4b.len() as int) =~= o4b);
                    lemma_windows_grow(fixups@, o4b, out@, doc, refs@);
                    assert(spec_param_bytes(doc, av[i as int].1.params[j as int],
                            spec_data_off(doc, i as int)).subrange(8, 12)
                        =~= w32(0xff000000u32));
                    proof_window_slice(doc, i as int, j as int, 8, o4b.len() as int);
                    lemma_appended_matches(doc, o4b, out@, w32(0xff000000u32));
                    lemma_matches_grow(doc, fixups@, o4b, out@, true);
                }
            }
            Parameter::Value(v) => {
                let ghost o3 = out@;
                put_u32_le(out, v);
                put_u32_le(out, 0xff000000u32);
                put_u32_le(out, 0xff000000u32);
                proof {
                    assert(out@.subrange(0, o3.len() as int) =~= o3);
                    lemma_windows_grow(fixups@, o3, out@, doc, refs@);
                    assert(av[i as int].1.params[j as int] == Parameter::Value(v));
                    lemma_window_value_param(doc, i as int, j as int);
                    assert(spec_param_bytes(doc, av[i as int].1.params[j as int],
                            spec_data_off(doc, i as int))
                        =~= w32(v) + w32(0xff000000u32) + w32(0xff000000u32));
                    assert(out@ =~= o3 + spec_param_bytes(doc,
                        av[i as int].1.params[j as int], spec_data_off(doc, i as int)));
                    lemma_appended_matches(doc, o3, out@, spec_param_bytes(doc,
                        av[i as int].1.params[j as int], spec_data_off(doc, i as int)));
                    lemma_matches_grow(doc, fixups@, o3, out@, true);
                }
            }
        }
        j = j + 1;
    }

    // trailing data
    let ghost o6 = out@;
    out.extend_from_slice(pair.1.data.as_slice());
    proof {
        assert(out@.subrange(0, o6.len() as int) =~= o6);
        lemma_windows_grow(fixups@, o6, out@, doc, refs@);
        assert(out@ =~= o6 + av[i as int].1.data);
        lemma_appended_matches(doc, o6, out@, av[i as int].1.data);
        lemma_matches_grow(doc, fixups@, o6, out@, true);
        assert(out@.len() == spec_rec_off(doc, i + 1));
        assert(fx0 =~= fixups@.subrange(0, fx0.len() as int));
        assert(refs0 =~= refs@.subrange(0, refs0.len() as int));
        lemma_covered_mono(av.take(i as int), refs0, refs@, fx0, fixups@);
        assert(covered(av.take(i + 1), refs@, fixups@)) by {
            assert(av.take(i + 1)[i as int] == av[i as int]);
            assert(forall|t: int| 0 <= t < i
                ==> #[trigger] av.take(i + 1)[t] == av.take(i as int)[t]);
        }
        assert(refs@.subrange(0, i as int) =~= refs0);
        assert(forall|q: int| 0 <= q < o6.len()
            ==> #[trigger] out@[q] == out@.subrange(0, o6.len() as int)[q]);
    }
}

/// The fixed-point resolver sweep: repeatedly tries every pending fixup,
/// overwriting its sentinel with the resolved offset once its target is in
/// the reference table; a pass that makes no progress names a dangling
/// reference and fails.
#[verifier::loop_isolation(false)]
#[verifier::rlimit(100)]
#[verifier::spinoff_prover]
fn resolve_all(
    out: &mut Vec<u8>,
    refs: &Vec<(Address, u32, u32)>,
    fixups: Vec<Fixup>,
    Ghost(doc): Ghost<Stcm2V>,
    Ghost(lo): Ghost<int>,
) -> (r: Result<(), Error>)
    requires
        refs@.len() == doc.actions.len(),
        forall|t: int| 0 <= t < doc.actions.len()
            ==> (#[trigger] refs@[t]).0 == doc.actions[t].0,
        actions_sorted(doc.actions),
        fixups_wf(fixups@, old(out)@, doc, refs@),
        covered(doc.actions, refs@, fixups@),
        0 <= lo,
        forall|k: int| 0 <= k < fixups@.len() ==> lo <= (#[trigger] fixups@[k]).pos,
        out_matches(old(out)@, doc, fixups@, false),
        old(out)@.len() <= spec_to_bytes(doc).len(),
        forall|t: int| 0 <= t < doc.actions.len() ==> (#[trigger] refs@[t]).1 as int
            == spec_rec_off(doc, t),
        forall|t: int| 0 <= t < doc.actions.len() ==> (#[trigger] refs@[t]).2 as int
            == spec_rec_off(doc, t) + 16 + 12 * doc.actions[t].1.params.len(),
    ensures
        final(out)@.len() == old(out)@.len(),
        forall|q: int| 0 <= q < lo && q < old(out)@.len()
            ==> #[trigger] final(out)@[q] == old(out)@[q],
        match r {
            Ok(_) => refs_resolvable(doc.actions)
                && out_matches(final(out)@, doc, Seq::<Fixup>::empty(), false),
            Err(e) => e == Error::Unresolved && !refs_resolvable(doc.actions),
        },
{
    let ghost av = doc.actions;
    let ghost n = av.len();
    proof {
        vstd::bytes::lemma_auto_spec_u32_to_from_le_bytes();
    }
    let mut pending = fixups;
    loop
        invariant
            out@.len() == old(out)@.len(),
            fixups_wf(pending@, out@, doc, refs@),
            covered(av, refs@, pending@),
            forall|k: int| 0 <= k < pending@.len()
                ==> lo <= (#[trigger] pending@[k]).pos,
            forall|q: int| 0 <= q < lo && q < old(out)@.len()
                ==> #[trigger] out@[q] == old(out)@[q],
            out_matches(out@, doc, pending@, false),
        decreases pending@.len(),
    {
        let n0 = pending.len();
        if n0 == 0 {
            break;
        }
        let mut remaining: Vec<Fixup> = Vec::new();
        proof {
            assert(remaining@ + pending@.skip(0) =~= pending@);
        }
        let mut t: usize = 0;
        while t < n0
            invariant
                t <= n0,
                n0 == pending@.len(),
                out@.len() == old(out)@.len(),
                fixups_wf(remaining@ + pending@.skip(t as int), out@, doc, refs@),
                remaining@.len() <= t,
                forall|q: int| 0 <= q < remaining@.len()
                    ==> !key_in_refs(refs@, fix_key((#[trigger] remaining@[q]).kind)),
                covered(av, refs@, remaining@ + pending@.skip(t as int)),
                forall|k: int| 0 <= k < remaining@.len()
                    ==> lo <= (#[trigger] remaining@[k]).pos,
                forall|q: int| 0 <= q < lo && q < old(out)@.len()
                    ==> #[trigger] out@[q] == old(out)@[q],
                out_matches(out@, doc, remaining@ + pending@.skip(t as int), false),
            decreases n0 - t,
        {
            let ghost comb0 = remaining@ + pending@.skip(t as int);
            let f = pending[t];
            proof {
                assert(pending@.skip(t as int)[0] == pending@[t as int]);
                assert(comb0[remaining@.len() as int] == f);
                assert(fixup_ok(f, out@, doc, refs@));
            }
            let key = match f.kind {
                FixKind::Call(tg) => Address { orig: tg, sub: 0 },
                FixKind::Global(tg) => Address { orig: tg, sub: 0 },
                FixKind::Local(o, _) => o,
            };
            assert(key == fix_key(f.kind));
            match refs_lookup(refs, key) {
                Some(v) => {
                    proof {
                        let w = choose|w: int| 0 <= w < refs@.len()
                            && #[trigger] refs@[w] == (key, v.0, v.1);
                        assert(av[w].0 == key);
                        assert(exists|u: int| 0 <= u < av.len()
                            && (#[trigger] av[u]).0 == key);
                        let u = spec_action_index(av, key);
                        assert(av[u].0 == key);
                        if w != u {
                            assert(addr_lt(av[w].0, av[u].0)
                                || addr_lt(av[u].0, av[w].0));
                            assert(false);
                        }
                    }
                    let val: u32 = match f.kind {
                        FixKind::Call(_) => v.0,
                        FixKind::Global(_) => v.0,
                        FixKind::Local(_, off) => {
                            proof {
                                let w = choose|w: int| 0 <= w < refs@.len()
                                    && #[trigger] refs@[w] == (key, v.0, v.1);
                                let u = choose|u: int| 0 <= u < refs@.len()
                                    && (#[trigger] refs@[u]).0 == key
                                    && refs@[u].2 + off_of(f.kind) <= u32::MAX;
                                assert(av[w].0 == key && av[u].0 == key);
                                if w != u {
                                    assert(addr_lt(av[w].0, av[u].0)
                                        || addr_lt(av[u].0, av[w].0));
                                    assert(false);
                                }
                            }
                            v.1 + off
                        }
                    };
                    proof {
                        assert(val == fix_resolved(doc, f.kind)) by {
                            let w = choose|w: int| 0 <= w < refs@.len()
                                && #[trigger] refs@[w] == (key, v.0, v.1);
                            let u = spec_action_index(av, key);
                            assert(av[w].0 == key && av[u].0 == key);
                            if w != u {
                                assert(addr_lt(av[w].0, av[u].0)
                                    || addr_lt(av[u].0, av[w].0));
                                assert(false);
                            }
                            match f.kind {
                                FixKind::Call(_) => {
                                    assert(v.0 as int == spec_rec_off(doc, w));
                                }
                                FixKind::Global(_) => {
                                    assert(v.0 as int == spec_rec_off(doc, w));
                                }
                                FixKind::Local(_, off2) => {
                                    assert(v.1 as int == spec_rec_off(doc, w)
                                        + 16 + 12 * av[w].1.params.len());
                                    assert(spec_data_off(doc, w) == v.1);
                                }
                            }
                        }
                    }
                    // the sentinel must still be in place: nothing else has
                    // written this window
                    let cur_word = read_u32_le(out, f.pos);
                    proof {
                        lemma_word_at_of_w32(out@, f.pos as int, f.canary);
                    }
                    if cur_word != f.canary {
                        return Err(Error::Unresolved);
                    }
                    let ghost ob = out@;
                    write_u32_at(out, f.pos, val);
                    proof {
                        let comb1 = remaining@ + pending@.skip(t + 1);
                        let fi = remaining@.len() as int;
                        assert(pending@.skip(t as int).skip(1) =~= pending@.skip(t + 1));
                        assert forall|q: int| 0 <= q < comb1.len()
                            implies #[trigger] comb1[q]
                                == (if q < fi { comb0[q] } else { comb0[q + 1] }) by {
                        }
                        assert forall|q: int| 0 <= q < comb1.len()
                            implies fixup_ok(#[trigger] comb1[q], out@, doc, refs@) by {
                            let qq = if q < fi { q } else { q + 1 };
                            let g = comb0[qq];
                            assert(comb1[q] == g);
                            assert(fixup_ok(g, ob, doc, refs@));
                            if qq < fi {
                                assert(g.pos + 4 <= f.pos);
                            } else if qq > fi {
                                assert(f.pos + 4 <= g.pos);
                            }
                            assert(out@.subrange(g.pos as int, g.pos + 4)
                                =~= ob.subrange(g.pos as int, g.pos + 4));
                        }
                        assert forall|q1: int, q2: int| 0 <= q1 < q2 < comb1.len()
                            implies (#[trigger] comb1[q1]).pos + 4
                                <= (#[trigger] comb1[q2]).pos by {
                            let r1 = if q1 < fi { q1 } else { q1 + 1 };
                            let r2 = if q2 < fi { q2 } else { q2 + 1 };
                            assert(comb0[r1] == comb1[q1] && comb0[r2] == comb1[q2]);
                        }
                        assert(covered(av, refs@, comb1)) by {
                            assert forall|k: Address|
                                pend_has_key(comb0, k)
                                implies key_in_refs(refs@, k) || pend_has_key(comb1, k) by {
                                let q = choose|q: int| 0 <= q < comb0.len()
                                    && fix_key((#[trigger] comb0[q]).kind) == k;
                                if q == fi {
                                    assert(key_in_refs(refs@, k));
                                } else {
                                    let q2 = if q < fi { q } else { q - 1 };
                                    assert(comb1[q2] == comb0[q]);
                                }
                            }
                        }
                        assert(fixup_ok(f, ob, doc, refs@));
                        assert(spec_to_bytes(doc).subrange(f.pos as int, f.pos + 4)
                            == w32(val));
                        assert forall|q: int| 0 <= q < out@.len() && !in_windows(comb1, q)
                            implies #[trigger] out@[q] == spec_to_bytes(doc)[q] by {
                            if f.pos <= q < f.pos + 4 {
                                assert(out@[q]
                                    == out@.subrange(f.pos as int, f.pos + 4)[q - f.pos]);
                                assert(spec_to_bytes(doc).subrange(
                                    f.pos as int, f.pos + 4)[q - f.pos]
                                    == spec_to_bytes(doc)[q]);
                            } else {
                                assert(out@[q] == ob[q]);
                                if in_windows(comb0, q) {
                                    let w = choose|w: int| 0 <= w < comb0.len()
                                        && (#[trigger] comb0[w]).pos <= q < comb0[w].pos + 4;
                                    if w == fi {
                                        assert(false);
                                    } else {
                                        let w2 = if w < fi { w } else { w - 1 };
                                        assert(comb1[w2] == comb0[w]);
                                        assert(in_windows(comb1, q));
                                        assert(false);
                                    }
                                }
                            }
                        }
                        assert(out_matches(out@, doc, comb1, false));
                    }
                }
                None => {
                    let ghost rem0 = remaining@;
                    remaining.push(f);
                    proof {
                        assert(pending@.skip(t as int).skip(1) =~= pending@.skip(t + 1));
                        assert(remaining@ + pending@.skip(t + 1) =~= comb0);
                    }
                }
            }
            t = t + 1;
        }
        proof {
            assert(pending@.skip(n0 as int) =~= Seq::<Fixup>::empty());
            assert(remaining@ + pending@.skip(n0 as int) =~= remaining@);
        }
        let nr = remaining.len();
        if nr == 0 {
            pending = remaining;
            break;
        }
        if nr == n0 {
            // a full pass made no progress: some reference names an address
            // the document does not have
            proof {
                let g = remaining@[0];
                assert(!key_in_refs(refs@, fix_key(g.kind)));
                assert(fix_from_doc(g.kind, av));
                match g.kind {
                    FixKind::Call(tg) => {
                        assert(!has_action(av, tg)) by {
                            if has_action(av, tg) {
                                let w = choose|w: int| 0 <= w < av.len()
                                    && (#[trigger] av[w]).0
                                        == (Address { orig: tg, sub: 0u32 });
                                assert(refs@[w].0 == av[w].0);
                                assert(key_in_refs(refs@, Address { orig: tg, sub: 0u32 }));
                            }
                        }
                        let w2 = choose|w2: int| 0 <= w2 < av.len()
                            && (#[trigger] av[w2]).1.call && av[w2].1.opcode == tg;
                        assert(!refs_resolvable(av));
                    }
                    FixKind::Global(tg) => {
                        assert(!has_action(av, tg)) by {
                            if has_action(av, tg) {
                                let w = choose|w: int| 0 <= w < av.len()
                                    && (#[trigger] av[w]).0
                                        == (Address { orig: tg, sub: 0u32 });
                                assert(refs@[w].0 == av[w].0);
                                assert(key_in_refs(refs@, Address { orig: tg, sub: 0u32 }));
                            }
                        }
                        assert(!refs_resolvable(av));
                    }
                    FixKind::Local(o, off) => {
                        assert(fixup_ok(g, out@, doc, refs@));
                        assert(false);
                    }
                }
            }
            return Err(Error::Unresolved);
        }
        proof {
            assert(remaining@.len() < pending@.len());
        }
        pending = remaining;
    }

    // nothing is pending: every reference found its action
    proof {
        assert(pending@.len() == 0);
        assert forall|q: int| 0 <= q < out@.len() && !in_windows(Seq::<Fixup>::empty(), q)
            implies #[trigger] out@[q] == spec_to_bytes(doc)[q] by {
            if in_windows(pending@, q) {
                let w = choose|w: int| 0 <= w < pending@.len()
                    && (#[trigger] pending@[w]).pos <= q < pending@[w].pos + 4;
                assert(false);
            }
        }
        assert(out_matches(out@, doc, Seq::<Fixup>::empty(), false));
        assert forall|i2: int| 0 <= i2 < av.len() implies {
            &&& ((#[trigger] av[i2]).1.call ==> has_action(av, av[i2].1.opcode))
            &&& forall|j2: int| 0 <= j2 < av[i2].1.params.len()
                ==> ((#[trigger] av[i2].1.params[j2])
                    matches Parameter::GlobalPointer(t2) ==> has_action(av, t2))
        } by {
            if av[i2].1.call {
                let k = Address { orig: av[i2].1.opcode, sub: 0u32 };
                assert(key_in_refs(refs@, k) || pend_has_key(pending@, k));
                assert(key_in_refs(refs@, k));
                let w = choose|w: int| 0 <= w < refs@.len()
                    && (#[trigger] refs@[w]).0 == k;
                assert(av[w].0 == k);
                assert(has_action(av, av[i2].1.opcode));
            }
            assert forall|j2: int| 0 <= j2 < av[i2].1.params.len()
                implies ((#[trigger] av[i2].1.params[j2])
                    matches Parameter::GlobalPointer(t2) ==> has_action(av, t2)) by {
                match av[i2].1.params[j2] {
                    Parameter::GlobalPointer(t2) => {
                        let k = Address { orig: t2, sub: 0u32 };
                        assert(key_in_refs(refs@, k) || pend_has_key(pending@, k));
                        assert(key_in_refs(refs@, k));
                        let w = choose|w: int| 0 <= w < refs@.len()
                            && (#[trigger] refs@[w]).0 == k;
                        assert(av[w].0 == k);
                        assert(has_action(av, t2));
                    }
                    _ => {}
                }
            }
        }
    }
    Ok(())
}

/// Encodes a document back into a script blob, resolving every internal
/// pointer by the deferred sentinel-and-sweep scheme: each field whose
/// value depends on the final layout is emitted as a random canary and
/// registered as a fixup; after everything is laid out, the fixups are
/// swept to a fixed point.
///
/// Succeeds exactly when every reference of the document — call targets
/// and global-pointer parameters — names an action the document has; the
/// output is then exactly the encoded image `spec_to_bytes`: header, every
/// record's words with its pointers resolved, the export table, and the
/// final padding.  Every sentinel is overwritten before a successful
/// return, so the output is a function of the document alone.  A document
/// with a dangling reference fails with `Unresolved`.
#[verifier::loop_isolation(false)]
#[verifier::rlimit(100)]
pub fn to_bytes(input: &Stcm2) -> (r: Result<Vec<u8>, Error>)
    requires
        encodable(input@),
    ensures
        match r {
            Ok(out) => refs_resolvable(input@.actions)
                && out@.len() == spec_padded_len(input@)
                && out@ == spec_to_bytes(input@)
                && out@.subrange(0, 108 + input@.global_data.len() as int)
                    == spec_header_bytes(input@),
            Err(e) => e == Error::Unresolved && !refs_resolvable(input@.actions),
        },
{
    let ghost doc = input@;
    let ghost av = input@.actions;
    let n = input.actions.len();
    proof {
        vstd::bytes::lemma_auto_spec_u32_to_from_le_bytes();
        assert(av.len() == n);
        lemma_code_len_prefix(av, 0);
        lemma_export_count_prefix(av, 0);
        lemma_code_len_lb(av);
        lemma_export_count_nonneg(av);
        lemma_export_count_ub(av);
        assert(av.take(n as int) =~= av);
        assert(spec_pre_pad_len(doc) <= spec_padded_len(doc));
        assert(16 * (n as int) <= code_len(av) <= spec_pre_pad_len(doc));
        assert(n <= 0x1000_0000);
    }

    // count the export labels
    let mut nexp: u32 = 0;
    let mut i: usize = 0;
    while i < n
        invariant
            i <= n,
            nexp == export_count(av.take(i as int)),
            nexp <= i,
        decreases n - i,
    {
        proof {
            lemma_export_count_prefix(av, i as int);
            lemma_export_count_prefix(av, i + 1);
            lemma_export_count_ub(av.take(i as int));
        }
        if input.actions[i].1.export.is_some() {
            nexp = nexp + 1;
        }
        i = i + 1;
    }
    proof {
        assert(av.take(n as int) =~= av);
    }

    // header: magic, tag, export offset placeholder, export count,
    // reserved words, global data, code marker
    let mut out = stcm2_magic();
    out.extend_from_slice(input.tag.as_slice());
    put_u32_le(&mut out, 0);
    put_u32_le(&mut out, nexp);
    put_zeros(&mut out, 40);
    let gm = global_data_magic();
    out.extend_from_slice(gm.as_slice());
    out.extend_from_slice(input.global_data.as_slice());
    let cm = code_start_magic();
    out.extend_from_slice(cm.as_slice());
    assert(out@.len() == 108 + doc.global_data.len());
    let ghost hend = 108 + doc.global_data.len() as int;
    proof {
        let hdr = spec_stcm2_magic() + doc.tag + w32(0) + w32(nexp)
            + zeros(40) + spec_global_data_magic() + doc.global_data
            + spec_code_start_magic();
        assert(out@ =~= hdr);
        assert(hdr.subrange(0, 32) =~= spec_header_bytes(doc).subrange(0, 32));
        assert(hdr.subrange(36, hend) =~= spec_header_bytes(doc).subrange(36, hend));
        assert forall|q: int| 0 <= q < hend && !(32 <= q < 36)
            implies #[trigger] out@[q] == spec_header_bytes(doc)[q] by {
            if q < 32 {
                assert(hdr.subrange(0, 32)[q] == hdr[q]);
                assert(spec_header_bytes(doc).subrange(0, 32)[q]
                    == spec_header_bytes(doc)[q]);
            } else {
                assert(hdr.subrange(36, hend)[q - 36] == hdr[q]);
                assert(spec_header_bytes(doc).subrange(36, hend)[q - 36]
                    == spec_header_bytes(doc)[q]);
            }
        }
        lemma_spec_image_len(doc);
        assert(forall|q: int| 0 <= q < hend
            ==> #[trigger] spec_to_bytes(doc)[q]
                == spec_to_bytes(doc).subrange(0, spec_rec_off(doc, 0))[q]);
    }

    // the action records, with sentinels for every deferred field
    let mut refs: Vec<(Address, u32, u32)> = Vec::new();
    let mut fixups: Vec<Fixup> = Vec::new();
    let mut i: usize = 0;
    proof {
        assert(av.take(0) =~= Seq::<(Address, ActionV)>::empty());
    }
    while i < n
        invariant
            i <= n,
            out@.len() == spec_rec_off(doc, i as int),
            refs@.len() == i,
            forall|t: int| 0 <= t < i ==> (#[trigger] refs@[t]).0 == av[t].0,
            fixups_wf(fixups@, out@, doc, refs@),
            covered(av.take(i as int), refs@, fixups@),
            out_matches(out@, doc, fixups@, true),
            forall|t: int| 0 <= t < i ==> (#[trigger] refs@[t]).1 as int
                == spec_rec_off(doc, t),
            forall|t: int| 0 <= t < i ==> (#[trigger] refs@[t]).2 as int
                == spec_rec_off(doc, t) + 16 + 12 * av[t].1.params.len(),
            forall|k: int| 0 <= k < fixups@.len()
                ==> hend <= (#[trigger] fixups@[k]).pos,
        decreases n - i,
    {
        let ghost refsb = refs@;
        let ghost fxb = fixups@;
        proof {
            lemma_code_len_prefix(av, i as int);
        }
        emit_action(input, i, &mut out, &mut refs, &mut fixups);
        proof {
            assert forall|t: int| 0 <= t < i + 1
                implies ((#[trigger] refs@[t]).0 == av[t].0
                    && refs@[t].1 as int == spec_rec_off(doc, t)
                    && refs@[t].2 as int
                        == spec_rec_off(doc, t) + 16 + 12 * av[t].1.params.len()) by {
                if t < i {
                    assert(refs@[t] == refs@.subrange(0, i as int)[t]);
                }
            }
            assert forall|k: int| 0 <= k < fixups@.len()
                implies hend <= (#[trigger] fixups@[k]).pos by {
                if k < fxb.len() {
                    assert(fixups@[k] == fxb[k]);
                }
            }
        }
        i = i + 1;
    }
    proof {
        assert(av.take(n as int) =~= av);
    }

    // export table and final padding
    emit_tail(input, &mut out, &refs, &fixups);
    let ghost pre_sweep = out@;
    proof {
        lemma_spec_image_len(doc);
    }

    // resolve every sentinel
    match resolve_all(&mut out, &refs, fixups, Ghost(doc), Ghost(hend)) {
        Ok(_) => {
            proof {
                assert(out@.subrange(0, hend) =~= pre_sweep.subrange(0, hend));
                assert(out@.subrange(0, hend) == spec_header_bytes(doc));
                assert(out@ =~= spec_to_bytes(doc));
            }
            Ok(out)
        }
        Err(e) => Err(e),
    }
}

/// Emits the export table — one 40-byte record per labelled action, and
/// the true export-table offset patched into the header — then pads the
/// output to a 16-byte boundary.
#[verifier::loop_isolation(false)]
#[verifier::rlimit(100)]
fn emit_tail(
    input: &Stcm2,
    out: &mut Vec<u8>,
    refs: &Vec<(Address, u32, u32)>,
    fixups: &Vec<Fixup>,
)
    requires
        encodable(input@),
        old(out)@.len() == spec_rec_off(input@, input.actions@.len() as int),
        refs@.len() == input.actions@.len(),
        fixups_wf(fixups@, old(out)@, input@, refs@),
        forall|q: int| 0 <= q < 108 + input@.global_data.len() && !(32 <= q < 36)
            ==> #[trigger] old(out)@[q] == spec_header_bytes(input@)[q],
        out_matches(old(out)@, input@, fixups@, true),
        forall|t: int| 0 <= t < input.actions@.len() ==> (#[trigger] refs@[t]).1 as int
            == spec_rec_off(input@, t),
    ensures
        final(out)@.len() == spec_padded_len(input@),
        fixups_wf(fixups@, final(out)@, input@, refs@),
        final(out)@.subrange(0, 108 + input@.global_data.len() as int)
            == spec_header_bytes(input@),
        out_matches(final(out)@, input@, fixups@, false),
{
    let ghost doc = input@;
    let ghost av = input@.actions;
    let n = input.actions.len();
    proof {
        vstd::bytes::lemma_auto_spec_u32_to_from_le_bytes();
        assert(av.take(n as int) =~= av);
        lemma_code_len_prefix(av, n as int);
        lemma_export_count_prefix(av, 0);
        lemma_export_count_nonneg(av);
        assert(spec_pre_pad_len(doc) <= spec_padded_len(doc));
        assert(av.take(0) =~= Seq::<(Address, ActionV)>::empty());
        lemma_spec_image_len(doc);
        lemma_spec_at_export_magic(doc);
        lemma_export_count_ub(av);
    }
    let ghost o7 = out@;
    let em = export_data_magic();
    out.extend_from_slice(em.as_slice());
    proof {
        assert(out@.subrange(0, o7.len() as int) =~= o7);
        lemma_windows_grow(fixups@, o7, out@, doc, refs@);
        assert(out@.len() == spec_export_addr(doc) <= spec_pre_pad_len(doc));
        assert(out@ =~= o7 + spec_export_data_magic());
        lemma_appended_matches(doc, o7, out@, spec_export_data_magic());
        lemma_matches_grow(doc, fixups@, o7, out@, true);
    }
    let export_addr: u32 = out.len() as u32;
    // patch the export-table offset into the header; the patch window ends
    // at byte 36, before any fixup window
    let ghost o8 = out@;
    let ghost hend = 108 + doc.global_data.len() as int;
    write_u32_at(out, 32, export_addr);
    proof {
        assert forall|t: int| 0 <= t < fixups@.len()
            implies fixup_ok(#[trigger] fixups@[t], out@, doc, refs@) by {
            let f = fixups@[t];
            assert(out@.subrange(f.pos as int, f.pos + 4)
                =~= o8.subrange(f.pos as int, f.pos + 4));
        }
        assert(export_addr as int == spec_export_addr(doc));
        assert(spec_header_bytes(doc).subrange(32, 36)
            =~= w32(spec_export_addr(doc) as u32));
        assert forall|q: int| 0 <= q < hend
            implies #[trigger] out@[q] == spec_header_bytes(doc)[q] by {
            if 32 <= q < 36 {
                assert(out@[q] == out@.subrange(32, 36)[q - 32]);
                assert(spec_header_bytes(doc)[q]
                    == spec_header_bytes(doc).subrange(32, 36)[q - 32]);
            } else {
                assert(out@[q] == o8[q]);
                assert(o8[q] == o8.subrange(0, o7.len() as int)[q]);
            }
        }
        assert(forall|q: int| 0 <= q < hend
            ==> #[trigger] spec_to_bytes(doc)[q]
                == spec_to_bytes(doc).subrange(0, spec_rec_off(doc, 0))[q]);
        assert forall|q: int| 0 <= q < out@.len() && !in_windows(fixups@, q)
            implies #[trigger] out@[q] == spec_to_bytes(doc)[q] by {
            if q < hend {
            } else if !(32 <= q < 36) {
                assert(out@[q] == o8[q]);
            }
        }
        assert(out_matches(out@, doc, fixups@, false));
    }
    let mut i: usize = 0;
    while i < n
        invariant
            i <= n,
            out@.len() == spec_export_addr(doc) + 40 * export_count(av.take(i as int)),
            out@.len() <= spec_pre_pad_len(doc),
            fixups_wf(fixups@, out@, doc, refs@),
            out_matches(out@, doc, fixups@, false),
            forall|q: int| 0 <= q < hend
                ==> #[trigger] out@[q] == spec_header_bytes(doc)[q],
        decreases n - i,
    {
        proof {
            lemma_export_count_prefix(av, i as int);
            lemma_export_count_prefix(av, i + 1);
            lemma_export_count_nonneg(av.take(i as int));
        }
        let has = input.actions[i].1.export.is_some();
        if has {
            let ghost o9 = out@;
            put_u32_le(out, 0);
            match &input.actions[i].1.export {
                Some(name) => {
                    out.extend_from_slice(name.as_slice());
                }
                None => {
                }
            }
            let e = refs[i];
            put_u32_le(out, e.1);
            proof {
                assert(out@.subrange(0, o9.len() as int) =~= o9);
                lemma_windows_grow(fixups@, o9, out@, doc, refs@);
                assert(forall|q: int| 0 <= q < o9.len()
                    ==> #[trigger] out@[q] == out@.subrange(0, o9.len() as int)[q]);
                lemma_spec_at_export_rec(doc, i as int);
                assert(e.1 == spec_rec_off(doc, i as int) as u32);
                assert(out@ =~= o9 + (w32(0) + av[i as int].1.export->0
                    + w32(spec_rec_off(doc, i as int) as u32)));
                lemma_appended_matches(doc, o9, out@,
                    w32(0) + av[i as int].1.export->0
                        + w32(spec_rec_off(doc, i as int) as u32));
                lemma_matches_grow(doc, fixups@, o9, out@, false);
            }
        }
        i = i + 1;
    }
    proof {
        assert(av.take(n as int) =~= av);
        assert(out@.len() == spec_pre_pad_len(doc));
        lemma_pre_pad_mod4(doc);
    }

    // pad to a 16-byte boundary
    while out.len() % 16 != 0
        invariant
            out@.len() % 4 == 0,
            out@.len() <= spec_padded_len(doc),
            spec_padded_len(doc) == (if out@.len() % 16 == 0 {
                out@.len() as int
            } else {
                out@.len() + 16 - out@.len() % 16
            }),
            fixups_wf(fixups@, out@, doc, refs@),
            out_matches(out@, doc, fixups@, false),
            spec_pre_pad_len(doc) <= out@.len(),
            forall|q: int| 0 <= q < hend
                ==> #[trigger] out@[q] == spec_header_bytes(doc)[q],
        decreases (16 - out@.len() % 16) % 16,
    {
        let ghost oa = out@;
        put_zeros(out, 4);
        proof {
            assert(out@.subrange(0, oa.len() as int) =~= oa);
            lemma_windows_grow(fixups@, oa, out@, doc, refs@);
            assert(forall|q: int| 0 <= q < oa.len()
                ==> #[trigger] out@[q] == out@.subrange(0, oa.len() as int)[q]);
            lemma_spec_tail_zeros(doc);
            assert forall|q: int| oa.len() <= q < out@.len()
                implies #[trigger] out@[q] == spec_to_bytes(doc)[q] by {
                assert(out@[q] == zeros(4)[q - oa.len()]);
            }
            lemma_matches_grow(doc, fixups@, oa, out@, false);
        }
    }
    assert(out@.len() == spec_padded_len(doc));
    proof {
        assert(spec_header_bytes(doc).len() == 108 + doc.global_data.len());
        assert(out@.subrange(0, hend) =~= spec_header_bytes(doc));
    }
}

/// Everything in front of the final padding is whole words wide.
proof fn lemma_pre_pad_mod4(doc: Stcm2V)
    requires
        encodable(doc),
    ensures
        spec_pre_pad_len(doc) % 4 == 0,
{
    lemma_code_len_mod4(doc.actions);
    assert(doc.actions.take(doc.actions.len() as int) =~= doc.actions);
    let g = doc.global_data.len() as int;
    let c = code_len(doc.actions);
    let e = export_count(doc.actions);
    assert(g % 4 == 0) by (nonlinear_arith)
        requires
            g % 16 == 0,
            g >= 0,
    ;
    assert((120 + g + c + 40 * e) % 4 == 0) by (nonlinear_arith)
        requires
            g % 4 == 0,
            c % 4 == 0,
    ;
}

proof fn lemma_code_len_mod4(acts: Seq<(Address, ActionV)>)
    requires
        forall|i: int| 0 <= i < acts.len()
            ==> action_encodable((#[trigger] acts[i]).1),
    ensures
        code_len(acts) % 4 == 0,
    decreases acts.len(),
{
    if acts.len() > 0 {
        assert(forall|i: int| 0 <= i < acts.drop_last().len()
            ==> action_encodable((#[trigger] acts.drop_last()[i]).1));
        lemma_code_len_mod4(acts.drop_last());
        assert(acts.last() == acts[acts.len() - 1]);
        assert(action_encodable(acts.last().1));
    }
}

} // verus!

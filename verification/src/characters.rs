//! The cast of the scripts: the mapping from on-screen speaker names to
//! their romanized names, used when extracted dialogue is prepared for a
//! translation provider.

use vstd::prelude::*;
use vstd::string::*;
use crate::Error;

verus! {

broadcast use vstd::seq::group_seq_axioms;

/// One character of the script: the speaker name as the script writes it,
/// the romanized name, and the optional descriptive fields a provider
/// prompt may use.
#[derive(Clone, Debug, PartialEq, Eq)]
pub struct Character {
    pub jpspeaker: &'static str,
    pub enspeaker: &'static str,
    pub gender: &'static str,
    pub jpfull: Option<&'static str>,
    pub enfull: Option<&'static str>,
    pub aliases: Vec<(&'static str, &'static str)>,
}

/// A decoded speaker: either a plain display string, or one of the cast.
#[derive(Clone, Debug, PartialEq, Eq)]
pub enum EnSpeaker {
    Str(String),
    Character(Character),
}

/// How a speaker name decodes: the unknown marker, the cast member at a
/// table index, or a cast member's off-screen voice.
pub enum SpeakerKindV {
    Marks,
    Cast(int),
    Voice(int),
}

/// The (speaker name, romanized name) pairs of the cast, in order.
pub open spec fn spec_cast() -> Seq<(Seq<char>, Seq<char>)> {
    seq![
        (seq!['\u{30e1}', '\u{30a2}', '\u{30ea}'], seq!['M', 'a', 'r', 'y']),
        (seq!['\u{30c0}', '\u{30cb}', '\u{30a8}', '\u{30e9}'], seq!['D', 'a', 'n', 'i', 'e', 'l', 'a']),
        (seq!['\u{30f4}', '\u{30a3}', '\u{30af}', '\u{30c8}', '\u{30eb}'], seq!['V', 'i', 'c', 't', 'o', 'r']),
        (seq!['\u{30aa}', '\u{30fc}', '\u{30ae}', '\u{30e5}', '\u{30b9}', '\u{30c8}'], seq!['A', 'u', 'g', 'u', 's', 't', 'e']),
        (seq!['\u{30a4}', '\u{30ea}', '\u{30e4}'], seq!['I', 'l', 'y', 'a']),
        (seq!['\u{30ea}', '\u{30c1}', '\u{30e3}', '\u{30fc}', '\u{30c9}'], seq!['R', 'i', 'c', 'h', 'a', 'r', 'd']),
        (seq!['\u{30e4}', '\u{30b3}', '\u{30d6}'], seq!['J', 'a', 'c', 'o', 'b']),
        (seq!['\u{30d0}', '\u{30fc}', '\u{30b8}', '\u{30cb}', '\u{30a2}'], seq!['V', 'i', 'r', 'g', 'i', 'n', 'i', 'a']),
        (seq!['\u{30b8}', '\u{30a7}', '\u{30e9}', '\u{30eb}', '\u{30c9}'], seq!['G', 'e', 'r', 'a', 'l', 'd']),
        (seq!['\u{30b3}', '\u{30f3}', '\u{30e9}', '\u{30c3}', '\u{30c9}'], seq!['C', 'o', 'n', 'r', 'a', 'd']),
        (seq!['\u{30d0}', '\u{30e9}', '\u{30fc}', '\u{30b8}', '\u{30e5}'], seq!['B', 'a', 'l', 'a', 'z', 's']),
        (seq!['\u{30af}', '\u{30e9}', '\u{30a6}', '\u{30b9}'], seq!['K', 'l', 'a', 'u', 's']),
        (seq!['\u{30b9}', '\u{30c6}', '\u{30d5}', '\u{30a1}', '\u{30f3}'], seq!['S', 't', 'e', 'f', 'a', 'n']),
        (seq!['\u{30ec}', '\u{30eb}', '\u{30e0}'], seq!['R', 'e', 'l', 'm']),
        (seq!['\u{30ec}', '\u{30aa}'], seq!['L', 'e', 'o']),
        (seq!['\u{30ae}', '\u{30eb}', '\u{30d9}', '\u{30eb}', '\u{30c8}'], seq!['G', 'i', 'l', 'b', 'e', 'r', 't']),
        (seq!['\u{30a8}', '\u{30df}', '\u{30ea}', '\u{30aa}'], seq!['E', 'm', 'i', 'l', 'i', 'o']),
        (seq!['\u{30c7}', '\u{30a3}', '\u{30e1}', '\u{30c8}', '\u{30ea}', '\u{30aa}'], seq!['D', 'e', 'm', 'e', 't', 'r', 'i', 'o']),
        (seq!['\u{30aa}', '\u{30ea}', '\u{30f4}', '\u{30a3}', '\u{30a2}'], seq!['O', 'l', 'i', 'v', 'i', 'a']),
        (seq!['\u{30f4}', '\u{30a9}', '\u{30eb}', '\u{30de}', '\u{30fc}'], seq!['V', 'o', 'l', 'm', 'e', 'r']),
        (seq!['\u{30c0}', '\u{30f3}', '\u{30b1}', '\u{30eb}', '\u{30cf}', '\u{30a4}', '\u{30c8}'], seq!['D', 'u', 'n', 'k', 'e', 'l', 'h', 'e', 'i', 't']),
        (seq!['\u{4eba}', '\u{72fc}'], seq!['W', 'e', 'r', 'e', 'w', 'o', 'l', 'f']),
        (seq!['\u{9ed2}', '\u{8863}', '\u{306e}', '\u{7537}', '\u{6027}'], seq!['M', 'a', 'n', ' ', 'i', 'n', ' ', 'b', 'l', 'a', 'c', 'k']),
    ]
}

/// The unknown-speaker marker and what it displays as.
pub open spec fn unknown_jp() -> Seq<char> {
    seq!['\u{ff1f}', '\u{ff1f}', '\u{ff1f}']
}

pub open spec fn unknown_en() -> Seq<char> {
    seq!['?', '?', '?']
}

/// The suffix marking an off-screen voice, and its romanized tail.
pub open spec fn voice_jp() -> Seq<char> {
    seq!['\u{306e}', '\u{58f0}']
}

pub open spec fn voice_en() -> Seq<char> {
    seq!['\'', 's', ' ', 'v', 'o', 'i', 'c', 'e']
}

/// What decoding a speaker name gives, scanning the cast in order: an
/// exact match is that cast member; the member's name followed by the
/// voice suffix is that member's off-screen voice; anything else is
/// unknown.
pub open spec fn spec_speaker_kind_from(
    tbl: Seq<(Seq<char>, Seq<char>)>,
    jp: Seq<char>,
    i: int,
) -> Option<SpeakerKindV>
    decreases tbl.len() - i when 0 <= i
{
    if i >= tbl.len() {
        None
    } else if tbl[i].0 == jp {
        Some(SpeakerKindV::Cast(i))
    } else if jp.len() == tbl[i].0.len() + 2
        && jp.subrange(0, tbl[i].0.len() as int) == tbl[i].0
        && jp.skip(tbl[i].0.len() as int) == voice_jp() {
        Some(SpeakerKindV::Voice(i))
    } else {
        spec_speaker_kind_from(tbl, jp, i + 1)
    }
}

pub open spec fn spec_speaker_kind(jp: Seq<char>) -> Option<SpeakerKindV> {
    if jp == unknown_jp() {
        Some(SpeakerKindV::Marks)
    } else {
        spec_speaker_kind_from(spec_cast(), jp, 0)
    }
}

/// The cast's name pairs as character lists.
fn cast_table() -> (t: Vec<(Vec<char>, Vec<char>)>)
    ensures
        t@.len() == spec_cast().len(),
        forall|i: int| 0 <= i < t@.len()
            ==> ((#[trigger] t@[i]).0@ == spec_cast()[i].0
                && t@[i].1@ == spec_cast()[i].1),
{
    let mut t: Vec<(Vec<char>, Vec<char>)> = Vec::new();
    {
        let mut jp: Vec<char> = Vec::new();
        jp.push('\u{30e1}');
        jp.push('\u{30a2}');
        jp.push('\u{30ea}');
        let mut en: Vec<char> = Vec::new();
        en.push('M');
        en.push('a');
        en.push('r');
        en.push('y');
        t.push((jp, en));
    }
    {
        let mut jp: Vec<char> = Vec::new();
        jp.push('\u{30c0}');
        jp.push('\u{30cb}');
        jp.push('\u{30a8}');
        jp.push('\u{30e9}');
        let mut en: Vec<char> = Vec::new();
        en.push('D');
        en.push('a');
        en.push('n');
        en.push('i');
        en.push('e');
        en.push('l');
        en.push('a');
        t.push((jp, en));
    }
    {
        let mut jp: Vec<char> = Vec::new();
        jp.push('\u{30f4}');
        jp.push('\u{30a3}');
        jp.push('\u{30af}');
        jp.push('\u{30c8}');
        jp.push('\u{30eb}');
        let mut en: Vec<char> = Vec::new();
        en.push('V');
        en.push('i');
        en.push('c');
        en.push('t');
        en.push('o');
        en.push('r');
        t.push((jp, en));
    }
    {
        let mut jp: Vec<char> = Vec::new();
        jp.push('\u{30aa}');
        jp.push('\u{30fc}');
        jp.push('\u{30ae}');
        jp.push('\u{30e5}');
        jp.push('\u{30b9}');
        jp.push('\u{30c8}');
        let mut en: Vec<char> = Vec::new();
        en.push('A');
        en.push('u');
        en.push('g');
        en.push('u');
        en.push('s');
        en.push('t');
        en.push('e');
        t.push((jp, en));
    }
    {
        let mut jp: Vec<char> = Vec::new();
        jp.push('\u{30a4}');
        jp.push('\u{30ea}');
        jp.push('\u{30e4}');
        let mut en: Vec<char> = Vec::new();
        en.push('I');
        en.push('l');
        en.push('y');
        en.push('a');
        t.push((jp, en));
    }
    {
        let mut jp: Vec<char> = Vec::new();
        jp.push('\u{30ea}');
        jp.push('\u{30c1}');
        jp.push('\u{30e3}');
        jp.push('\u{30fc}');
        jp.push('\u{30c9}');
        let mut en: Vec<char> = Vec::new();
        en.push('R');
        en.push('i');
        en.push('c');
        en.push('h');
        en.push('a');
        en.push('r');
        en.push('d');
        t.push((jp, en));
    }
    {
        let mut jp: Vec<char> = Vec::new();
        jp.push('\u{30e4}');
        jp.push('\u{30b3}');
        jp.push('\u{30d6}');
        let mut en: Vec<char> = Vec::new();
        en.push('J');
        en.push('a');
        en.push('c');
        en.push('o');
        en.push('b');
        t.push((jp, en));
    }
    {
        let mut jp: Vec<char> = Vec::new();
        jp.push('\u{30d0}');
        jp.push('\u{30fc}');
        jp.push('\u{30b8}');
        jp.push('\u{30cb}');
        jp.push('\u{30a2}');
        let mut en: Vec<char> = Vec::new();
        en.push('V');
        en.push('i');
        en.push('r');
        en.push('g');
        en.push('i');
        en.push('n');
        en.push('i');
        en.push('a');
        t.push((jp, en));
    }
    {
        let mut jp: Vec<char> = Vec::new();
        jp.push('\u{30b8}');
        jp.push('\u{30a7}');
        jp.push('\u{30e9}');
        jp.push('\u{30eb}');
        jp.push('\u{30c9}');
        let mut en: Vec<char> = Vec::new();
        en.push('G');
        en.push('e');
        en.push('r');
        en.push('a');
        en.push('l');
        en.push('d');
        t.push((jp, en));
    }
    {
        let mut jp: Vec<char> = Vec::new();
        jp.push('\u{30b3}');
        jp.push('\u{30f3}');
        jp.push('\u{30e9}');
        jp.push('\u{30c3}');
        jp.push('\u{30c9}');
        let mut en: Vec<char> = Vec::new();
        en.push('C');
        en.push('o');
        en.push('n');
        en.push('r');
        en.push('a');
        en.push('d');
        t.push((jp, en));
    }
    {
        let mut jp: Vec<char> = Vec::new();
        jp.push('\u{30d0}');
        jp.push('\u{30e9}');
        jp.push('\u{30fc}');
        jp.push('\u{30b8}');
        jp.push('\u{30e5}');
        let mut en: Vec<char> = Vec::new();
        en.push('B');
        en.push('a');
        en.push('l');
        en.push('a');
        en.push('z');
        en.push('s');
        t.push((jp, en));
    }
    {
        let mut jp: Vec<char> = Vec::new();
        jp.push('\u{30af}');
        jp.push('\u{30e9}');
        jp.push('\u{30a6}');
        jp.push('\u{30b9}');
        let mut en: Vec<char> = Vec::new();
        en.push('K');
        en.push('l');
        en.push('a');
        en.push('u');
        en.push('s');
        t.push((jp, en));
    }
    {
        let mut jp: Vec<char> = Vec::new();
        jp.push('\u{30b9}');
        jp.push('\u{30c6}');
        jp.push('\u{30d5}');
        jp.push('\u{30a1}');
        jp.push('\u{30f3}');
        let mut en: Vec<char> = Vec::new();
        en.push('S');
        en.push('t');
        en.push('e');
        en.push('f');
        en.push('a');
        en.push('n');
        t.push((jp, en));
    }
    {
        let mut jp: Vec<char> = Vec::new();
        jp.push('\u{30ec}');
        jp.push('\u{30eb}');
        jp.push('\u{30e0}');
        let mut en: Vec<char> = Vec::new();
        en.push('R');
        en.push('e');
        en.push('l');
        en.push('m');
        t.push((jp, en));
    }
    {
        let mut jp: Vec<char> = Vec::new();
        jp.push('\u{30ec}');
        jp.push('\u{30aa}');
        let mut en: Vec<char> = Vec::new();
        en.push('L');
        en.push('e');
        en.push('o');
        t.push((jp, en));
    }
    {
        let mut jp: Vec<char> = Vec::new();
        jp.push('\u{30ae}');
        jp.push('\u{30eb}');
        jp.push('\u{30d9}');
        jp.push('\u{30eb}');
        jp.push('\u{30c8}');
        let mut en: Vec<char> = Vec::new();
        en.push('G');
        en.push('i');
        en.push('l');
        en.push('b');
        en.push('e');
        en.push('r');
        en.push('t');
        t.push((jp, en));
    }
    {
        let mut jp: Vec<char> = Vec::new();
        jp.push('\u{30a8}');
        jp.push('\u{30df}');
        jp.push('\u{30ea}');
        jp.push('\u{30aa}');
        let mut en: Vec<char> = Vec::new();
        en.push('E');
        en.push('m');
        en.push('i');
        en.push('l');
        en.push('i');
        en.push('o');
        t.push((jp, en));
    }
    {
        let mut jp: Vec<char> = Vec::new();
        jp.push('\u{30c7}');
        jp.push('\u{30a3}');
        jp.push('\u{30e1}');
        jp.push('\u{30c8}');
        jp.push('\u{30ea}');
        jp.push('\u{30aa}');
        let mut en: Vec<char> = Vec::new();
        en.push('D');
        en.push('e');
        en.push('m');
        en.push('e');
        en.push('t');
        en.push('r');
        en.push('i');
        en.push('o');
        t.push((jp, en));
    }
    {
        let mut jp: Vec<char> = Vec::new();
        jp.push('\u{30aa}');
        jp.push('\u{30ea}');
        jp.push('\u{30f4}');
        jp.push('\u{30a3}');
        jp.push('\u{30a2}');
        let mut en: Vec<char> = Vec::new();
        en.push('O');
        en.push('l');
        en.push('i');
        en.push('v');
        en.push('i');
        en.push('a');
        t.push((jp, en));
    }
    {
        let mut jp: Vec<char> = Vec::new();
        jp.push('\u{30f4}');
        jp.push('\u{30a9}');
        jp.push('\u{30eb}');
        jp.push('\u{30de}');
        jp.push('\u{30fc}');
        let mut en: Vec<char> = Vec::new();
        en.push('V');
        en.push('o');
        en.push('l');
        en.push('m');
        en.push('e');
        en.push('r');
        t.push((jp, en));
    }
    {
        let mut jp: Vec<char> = Vec::new();
        jp.push('\u{30c0}');
        jp.push('\u{30f3}');
        jp.push('\u{30b1}');
        jp.push('\u{30eb}');
        jp.push('\u{30cf}');
        jp.push('\u{30a4}');
        jp.push('\u{30c8}');
        let mut en: Vec<char> = Vec::new();
        en.push('D');
        en.push('u');
        en.push('n');
        en.push('k');
        en.push('e');
        en.push('l');
        en.push('h');
        en.push('e');
        en.push('i');
        en.push('t');
        t.push((jp, en));
    }
    {
        let mut jp: Vec<char> = Vec::new();
        jp.push('\u{4eba}');
        jp.push('\u{72fc}');
        let mut en: Vec<char> = Vec::new();
        en.push('W');
        en.push('e');
        en.push('r');
        en.push('e');
        en.push('w');
        en.push('o');
        en.push('l');
        en.push('f');
        t.push((jp, en));
    }
    {
        let mut jp: Vec<char> = Vec::new();
        jp.push('\u{9ed2}');
        jp.push('\u{8863}');
        jp.push('\u{306e}');
        jp.push('\u{7537}');
        jp.push('\u{6027}');
        let mut en: Vec<char> = Vec::new();
        en.push('M');
        en.push('a');
        en.push('n');
        en.push(' ');
        en.push('i');
        en.push('n');
        en.push(' ');
        en.push('b');
        en.push('l');
        en.push('a');
        en.push('c');
        en.push('k');
        t.push((jp, en));
    }
    proof {
        assert forall|i: int| 0 <= i < t@.len()
            implies ((#[trigger] t@[i]).0@ == spec_cast()[i].0
                && t@[i].1@ == spec_cast()[i].1) by {
            assert(t@[i].0@ =~= spec_cast()[i].0);
            assert(t@[i].1@ =~= spec_cast()[i].1);
        }
    }
    t
}

/// The cast, with its descriptive fields.
pub fn characters() -> (t: Vec<Character>)
    ensures
        t@.len() == spec_cast().len(),
        forall|i: int| 0 <= i < t@.len()
            ==> ((#[trigger] t@[i]).jpspeaker@ == spec_cast()[i].0
                && t@[i].enspeaker@ == spec_cast()[i].1),
{
    let mut t: Vec<Character> = Vec::new();
    t.push(Character { jpspeaker: "\u{30e1}\u{30a2}\u{30ea}", enspeaker: "Mary", gender: "", jpfull: None, enfull: None, aliases: Vec::new() });
    t.push(Character { jpspeaker: "\u{30c0}\u{30cb}\u{30a8}\u{30e9}", enspeaker: "Daniela", gender: "", jpfull: None, enfull: None, aliases: Vec::new() });
    t.push(Character { jpspeaker: "\u{30f4}\u{30a3}\u{30af}\u{30c8}\u{30eb}", enspeaker: "Victor", gender: "", jpfull: None, enfull: None, aliases: Vec::new() });
    t.push(Character { jpspeaker: "\u{30aa}\u{30fc}\u{30ae}\u{30e5}\u{30b9}\u{30c8}", enspeaker: "Auguste", gender: "", jpfull: None, enfull: None, aliases: Vec::new() });
    t.push(Character { jpspeaker: "\u{30a4}\u{30ea}\u{30e4}", enspeaker: "Ilya", gender: "", jpfull: None, enfull: None, aliases: Vec::new() });
    t.push(Character { jpspeaker: "\u{30ea}\u{30c1}\u{30e3}\u{30fc}\u{30c9}", enspeaker: "Richard", gender: "", jpfull: None, enfull: None, aliases: Vec::new() });
    t.push(Character { jpspeaker: "\u{30e4}\u{30b3}\u{30d6}", enspeaker: "Jacob", gender: "", jpfull: None, enfull: None, aliases: Vec::new() });
    t.push(Character { jpspeaker: "\u{30d0}\u{30fc}\u{30b8}\u{30cb}\u{30a2}", enspeaker: "Virginia", gender: "", jpfull: None, enfull: None, aliases: Vec::new() });
    t.push(Character { jpspeaker: "\u{30b8}\u{30a7}\u{30e9}\u{30eb}\u{30c9}", enspeaker: "Gerald", gender: "", jpfull: None, enfull: None, aliases: Vec::new() });
    t.push(Character { jpspeaker: "\u{30b3}\u{30f3}\u{30e9}\u{30c3}\u{30c9}", enspeaker: "Conrad", gender: "", jpfull: None, enfull: None, aliases: Vec::new() });
    t.push(Character { jpspeaker: "\u{30d0}\u{30e9}\u{30fc}\u{30b8}\u{30e5}", enspeaker: "Balazs", gender: "", jpfull: None, enfull: None, aliases: Vec::new() });
    t.push(Character { jpspeaker: "\u{30af}\u{30e9}\u{30a6}\u{30b9}", enspeaker: "Klaus", gender: "", jpfull: None, enfull: None, aliases: Vec::new() });
    t.push(Character { jpspeaker: "\u{30b9}\u{30c6}\u{30d5}\u{30a1}\u{30f3}", enspeaker: "Stefan", gender: "", jpfull: None, enfull: None, aliases: Vec::new() });
    t.push(Character { jpspeaker: "\u{30ec}\u{30eb}\u{30e0}", enspeaker: "Relm", gender: "", jpfull: None, enfull: None, aliases: Vec::new() });
    t.push(Character { jpspeaker: "\u{30ec}\u{30aa}", enspeaker: "Leo", gender: "", jpfull: None, enfull: None, aliases: Vec::new() });
    t.push(Character { jpspeaker: "\u{30ae}\u{30eb}\u{30d9}\u{30eb}\u{30c8}", enspeaker: "Gilbert", gender: "", jpfull: None, enfull: None, aliases: Vec::new() });
    t.push(Character { jpspeaker: "\u{30a8}\u{30df}\u{30ea}\u{30aa}", enspeaker: "Emilio", gender: "", jpfull: None, enfull: None, aliases: Vec::new() });
    t.push(Character { jpspeaker: "\u{30c7}\u{30a3}\u{30e1}\u{30c8}\u{30ea}\u{30aa}", enspeaker: "Demetrio", gender: "", jpfull: None, enfull: None, aliases: Vec::new() });
    t.push(Character { jpspeaker: "\u{30aa}\u{30ea}\u{30f4}\u{30a3}\u{30a2}", enspeaker: "Olivia", gender: "", jpfull: None, enfull: None, aliases: Vec::new() });
    t.push(Character { jpspeaker: "\u{30f4}\u{30a9}\u{30eb}\u{30de}\u{30fc}", enspeaker: "Volmer", gender: "", jpfull: None, enfull: None, aliases: Vec::new() });
    t.push(Character { jpspeaker: "\u{30c0}\u{30f3}\u{30b1}\u{30eb}\u{30cf}\u{30a4}\u{30c8}", enspeaker: "Dunkelheit", gender: "", jpfull: None, enfull: None, aliases: Vec::new() });
    t.push(Character { jpspeaker: "\u{4eba}\u{72fc}", enspeaker: "Werewolf", gender: "", jpfull: None, enfull: None, aliases: Vec::new() });
    t.push(Character { jpspeaker: "\u{9ed2}\u{8863}\u{306e}\u{7537}\u{6027}", enspeaker: "Man in black", gender: "", jpfull: None, enfull: None, aliases: Vec::new() });
    proof {
        reveal_strlit("\u{30e1}\u{30a2}\u{30ea}");
        reveal_strlit("Mary");
        assert(("\u{30e1}\u{30a2}\u{30ea}")@ =~= spec_cast()[0].0);
        assert(("Mary")@ =~= spec_cast()[0].1);
        reveal_strlit("\u{30c0}\u{30cb}\u{30a8}\u{30e9}");
        reveal_strlit("Daniela");
        assert(("\u{30c0}\u{30cb}\u{30a8}\u{30e9}")@ =~= spec_cast()[1].0);
        assert(("Daniela")@ =~= spec_cast()[1].1);
        reveal_strlit("\u{30f4}\u{30a3}\u{30af}\u{30c8}\u{30eb}");
        reveal_strlit("Victor");
        assert(("\u{30f4}\u{30a3}\u{30af}\u{30c8}\u{30eb}")@ =~= spec_cast()[2].0);
        assert(("Victor")@ =~= spec_cast()[2].1);
        reveal_strlit("\u{30aa}\u{30fc}\u{30ae}\u{30e5}\u{30b9}\u{30c8}");
        reveal_strlit("Auguste");
        assert(("\u{30aa}\u{30fc}\u{30ae}\u{30e5}\u{30b9}\u{30c8}")@ =~= spec_cast()[3].0);
        assert(("Auguste")@ =~= spec_cast()[3].1);
        reveal_strlit("\u{30a4}\u{30ea}\u{30e4}");
        reveal_strlit("Ilya");
        assert(("\u{30a4}\u{30ea}\u{30e4}")@ =~= spec_cast()[4].0);
        assert(("Ilya")@ =~= spec_cast()[4].1);
        reveal_strlit("\u{30ea}\u{30c1}\u{30e3}\u{30fc}\u{30c9}");
        reveal_strlit("Richard");
        assert(("\u{30ea}\u{30c1}\u{30e3}\u{30fc}\u{30c9}")@ =~= spec_cast()[5].0);
        assert(("Richard")@ =~= spec_cast()[5].1);
        reveal_strlit("\u{30e4}\u{30b3}\u{30d6}");
        reveal_strlit("Jacob");
        assert(("\u{30e4}\u{30b3}\u{30d6}")@ =~= spec_cast()[6].0);
        assert(("Jacob")@ =~= spec_cast()[6].1);
        reveal_strlit("\u{30d0}\u{30fc}\u{30b8}\u{30cb}\u{30a2}");
        reveal_strlit("Virginia");
        assert(("\u{30d0}\u{30fc}\u{30b8}\u{30cb}\u{30a2}")@ =~= spec_cast()[7].0);
        assert(("Virginia")@ =~= spec_cast()[7].1);
        reveal_strlit("\u{30b8}\u{30a7}\u{30e9}\u{30eb}\u{30c9}");
        reveal_strlit("Gerald");
        assert(("\u{30b8}\u{30a7}\u{30e9}\u{30eb}\u{30c9}")@ =~= spec_cast()[8].0);
        assert(("Gerald")@ =~= spec_cast()[8].1);
        reveal_strlit("\u{30b3}\u{30f3}\u{30e9}\u{30c3}\u{30c9}");
        reveal_strlit("Conrad");
        assert(("\u{30b3}\u{30f3}\u{30e9}\u{30c3}\u{30c9}")@ =~= spec_cast()[9].0);
        assert(("Conrad")@ =~= spec_cast()[9].1);
        reveal_strlit("\u{30d0}\u{30e9}\u{30fc}\u{30b8}\u{30e5}");
        reveal_strlit("Balazs");
        assert(("\u{30d0}\u{30e9}\u{30fc}\u{30b8}\u{30e5}")@ =~= spec_cast()[10].0);
        assert(("Balazs")@ =~= spec_cast()[10].1);
        reveal_strlit("\u{30af}\u{30e9}\u{30a6}\u{30b9}");
        reveal_strlit("Klaus");
        assert(("\u{30af}\u{30e9}\u{30a6}\u{30b9}")@ =~= spec_cast()[11].0);
        assert(("Klaus")@ =~= spec_cast()[11].1);
        reveal_strlit("\u{30b9}\u{30c6}\u{30d5}\u{30a1}\u{30f3}");
        reveal_strlit("Stefan");
        assert(("\u{30b9}\u{30c6}\u{30d5}\u{30a1}\u{30f3}")@ =~= spec_cast()[12].0);
        assert(("Stefan")@ =~= spec_cast()[12].1);
        reveal_strlit("\u{30ec}\u{30eb}\u{30e0}");
        reveal_strlit("Relm");
        assert(("\u{30ec}\u{30eb}\u{30e0}")@ =~= spec_cast()[13].0);
        assert(("Relm")@ =~= spec_cast()[13].1);
        reveal_strlit("\u{30ec}\u{30aa}");
        reveal_strlit("Leo");
        assert(("\u{30ec}\u{30aa}")@ =~= spec_cast()[14].0);
        assert(("Leo")@ =~= spec_cast()[14].1);
        reveal_strlit("\u{30ae}\u{30eb}\u{30d9}\u{30eb}\u{30c8}");
        reveal_strlit("Gilbert");
        assert(("\u{30ae}\u{30eb}\u{30d9}\u{30eb}\u{30c8}")@ =~= spec_cast()[15].0);
        assert(("Gilbert")@ =~= spec_cast()[15].1);
        reveal_strlit("\u{30a8}\u{30df}\u{30ea}\u{30aa}");
        reveal_strlit("Emilio");
        assert(("\u{30a8}\u{30df}\u{30ea}\u{30aa}")@ =~= spec_cast()[16].0);
        assert(("Emilio")@ =~= spec_cast()[16].1);
        reveal_strlit("\u{30c7}\u{30a3}\u{30e1}\u{30c8}\u{30ea}\u{30aa}");
        reveal_strlit("Demetrio");
        assert(("\u{30c7}\u{30a3}\u{30e1}\u{30c8}\u{30ea}\u{30aa}")@ =~= spec_cast()[17].0);
        assert(("Demetrio")@ =~= spec_cast()[17].1);
        reveal_strlit("\u{30aa}\u{30ea}\u{30f4}\u{30a3}\u{30a2}");
        reveal_strlit("Olivia");
        assert(("\u{30aa}\u{30ea}\u{30f4}\u{30a3}\u{30a2}")@ =~= spec_cast()[18].0);
        assert(("Olivia")@ =~= spec_cast()[18].1);
        reveal_strlit("\u{30f4}\u{30a9}\u{30eb}\u{30de}\u{30fc}");
        reveal_strlit("Volmer");
        assert(("\u{30f4}\u{30a9}\u{30eb}\u{30de}\u{30fc}")@ =~= spec_cast()[19].0);
        assert(("Volmer")@ =~= spec_cast()[19].1);
        reveal_strlit("\u{30c0}\u{30f3}\u{30b1}\u{30eb}\u{30cf}\u{30a4}\u{30c8}");
        reveal_strlit("Dunkelheit");
        assert(("\u{30c0}\u{30f3}\u{30b1}\u{30eb}\u{30cf}\u{30a4}\u{30c8}")@ =~= spec_cast()[20].0);
        assert(("Dunkelheit")@ =~= spec_cast()[20].1);
        reveal_strlit("\u{4eba}\u{72fc}");
        reveal_strlit("Werewolf");
        assert(("\u{4eba}\u{72fc}")@ =~= spec_cast()[21].0);
        assert(("Werewolf")@ =~= spec_cast()[21].1);
        reveal_strlit("\u{9ed2}\u{8863}\u{306e}\u{7537}\u{6027}");
        reveal_strlit("Man in black");
        assert(("\u{9ed2}\u{8863}\u{306e}\u{7537}\u{6027}")@ =~= spec_cast()[22].0);
        assert(("Man in black")@ =~= spec_cast()[22].1);
        assert forall|i: int| 0 <= i < t@.len()
            implies ((#[trigger] t@[i]).jpspeaker@ == spec_cast()[i].0
                && t@[i].enspeaker@ == spec_cast()[i].1) by {
        }
    }
    t
}

/// Relies on std's String FromIterator over chars: the string of exactly
/// the given characters, in order.
#[verifier::external_body]
fn chars_to_string(v: &Vec<char>) -> (s: String)
    ensures
        s@ == v@,
{
    v.iter().collect()
}

fn char_vecs_eq(a: &Vec<char>, b: &Vec<char>) -> (r: bool)
    ensures
        r == (a@ == b@),
{
    let n = a.len();
    if n != b.len() {
        proof { assert(a@.len() != b@.len()); }
        return false;
    }
    let mut i: usize = 0;
    while i < n
        invariant
            i <= n,
            n == a@.len() == b@.len(),
            forall|q: int| 0 <= q < i ==> a@[q] == b@[q],
        decreases n - i,
    {
        if a[i] != b[i] {
            return false;
        }
        i = i + 1;
    }
    proof { assert(a@ =~= b@); }
    true
}

/// Decodes a speaker name, exactly as `spec_speaker_kind` says: the
/// unknown marker becomes its display string, a cast member comes back as
/// that member, a voice form as the member's romanized name with the
/// voice tail.  Fails with `Format` when the name is not in the cast.
#[verifier::loop_isolation(false)]
pub fn decode_jp_speaker(jpspeaker: &str) -> (r: Result<EnSpeaker, Error>)
    ensures
        match r {
            Ok(s) => match spec_speaker_kind(jpspeaker@) {
                Some(k) => match k {
                    SpeakerKindV::Marks => (s matches EnSpeaker::Str(t)
                        && t@ == unknown_en()),
                    SpeakerKindV::Cast(i) => (s matches EnSpeaker::Character(c)
                        && c.jpspeaker@ == spec_cast()[i].0
                        && c.enspeaker@ == spec_cast()[i].1),
                    SpeakerKindV::Voice(i) => (s matches EnSpeaker::Str(t)
                        && t@ == spec_cast()[i].1 + voice_en()),
                },
                None => false,
            },
            Err(e) => e == Error::Format && spec_speaker_kind(jpspeaker@) is None,
        },
{
    let jp = str_chars_of(jpspeaker);
    let mut unknown: Vec<char> = Vec::new();
    unknown.push('\u{ff1f}');
    unknown.push('\u{ff1f}');
    unknown.push('\u{ff1f}');
    proof {
        assert(unknown@ =~= unknown_jp());
    }
    if char_vecs_eq(&jp, &unknown) {
        let mut qs: Vec<char> = Vec::new();
        qs.push('?');
        qs.push('?');
        qs.push('?');
        proof {
            assert(qs@ =~= unknown_en());
        }
        let s = chars_to_string(&qs);
        return Ok(EnSpeaker::Str(s));
    }
    let tbl = cast_table();
    let mut chars = characters();
    let n = tbl.len();
    let mut i: usize = 0;
    proof {
        assert(spec_speaker_kind(jpspeaker@) == spec_speaker_kind_from(spec_cast(), jp@, 0));
    }
    while i < n
        invariant
            i <= n,
            n == tbl@.len() == spec_cast().len(),
            chars@.len() == spec_cast().len(),
            forall|q: int| 0 <= q < chars@.len()
                ==> ((#[trigger] chars@[q]).enspeaker@ == spec_cast()[q].1
                    && chars@[q].jpspeaker@ == spec_cast()[q].0),
            jp@ == jpspeaker@,
            forall|q: int| 0 <= q < tbl@.len()
                ==> ((#[trigger] tbl@[q]).0@ == spec_cast()[q].0
                    && tbl@[q].1@ == spec_cast()[q].1),
            spec_speaker_kind_from(spec_cast(), jp@, i as int)
                == spec_speaker_kind(jpspeaker@),
        decreases n - i,
    {
        if char_vecs_eq(&tbl[i].0, &jp) {
            let c = chars.remove(i);
            proof {
                assert(c.enspeaker@ == spec_cast()[i as int].1
                    && c.jpspeaker@ == spec_cast()[i as int].0);
                assert(spec_speaker_kind(jpspeaker@)
                    == Some(SpeakerKindV::Cast(i as int)));
            }
            return Ok(EnSpeaker::Character(c));
        }
        let m = tbl[i].0.len();
        let jn = jp.len();
        let mut is_voice = jn == m + 2;
        if is_voice {
            let mut q: usize = 0;
            while q < m && is_voice
                invariant
                    q <= m,
                    jn == m + 2,
                    m == tbl@[i as int].0@.len(),
                    jn == jp@.len(),
                    is_voice ==> forall|w: int| 0 <= w < q
                        ==> jp@[w] == tbl@[i as int].0@[w],
                    !is_voice ==> jp@.subrange(0, m as int) != tbl@[i as int].0@,
                decreases m - q + (if is_voice { 1int } else { 0int }),
            {
                if jp[q] != tbl[i].0[q] {
                    is_voice = false;
                    proof {
                        assert(jp@.subrange(0, m as int)[q as int] == jp@[q as int]);
                    }
                } else {
                    q = q + 1;
                }
            }
            if is_voice {
                if !(jp[m] == '\u{306e}' && jp[m + 1] == '\u{58f0}') {
                    is_voice = false;
                    proof {
                        assert(jp@.skip(m as int)[0] == jp@[m as int]
                            && jp@.skip(m as int)[1] == jp@[m as int + 1]);
                        assert(jp@.skip(m as int) != voice_jp());
                    }
                }
            }
        }
        if is_voice {
            proof {
                assert(jp@.subrange(0, m as int) =~= tbl@[i as int].0@);
                assert(jp@.skip(m as int) =~= voice_jp());
            }
            let mut full: Vec<char> = Vec::new();
            full.extend_from_slice(tbl[i].1.as_slice());
            full.push('\'');
            full.push('s');
            full.push(' ');
            full.push('v');
            full.push('o');
            full.push('i');
            full.push('c');
            full.push('e');
            proof {
                assert(full@ =~= spec_cast()[i as int].1 + voice_en());
            }
            let s = chars_to_string(&full);
            return Ok(EnSpeaker::Str(s));
        }
        proof {
            if jp@.len() == m + 2 && jp@.subrange(0, m as int) == tbl@[i as int].0@
                && jp@.skip(m as int) == voice_jp() {
                assert(false);
            }
        }
        i = i + 1;
    }
    Err(Error::Format)
}

/// The characters of a speaker name.
fn str_chars_of(s: &str) -> (r: Vec<char>)
    ensures
        r@ == s@,
{
    let n = s.unicode_len();
    let mut r: Vec<char> = Vec::new();
    let mut i: usize = 0;
    while i < n
        invariant
            i <= n,
            n == s@.len(),
            r@ == s@.take(i as int),
        decreases n - i,
    {
        let c = s.get_char(i);
        r.push(c);
        proof {
            assert(s@.take(i + 1) =~= s@.take(i as int).push(s@[i as int]));
        }
        i = i + 1;
    }
    proof {
        assert(s@.take(n as int) =~= s@);
    }
    r
}

} // verus!

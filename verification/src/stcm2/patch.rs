//! The patch engine: re-synthesizes dialogue actions from translated
//! text.
//!
//! A translation is normalized, re-encoded to Shift-JIS, tokenized into
//! fullwidth and halfwidth display units (the name placeholder counts as a
//! fixed width), and greedily packed into lines bounded by the display
//! width, preferring whitespace as the break point and indenting
//! continuation lines once a fullwidth-led line has been seen.  The packed
//! lines replace the original buffered Line actions under freshly
//! incremented sub-indices of the window's address.

use vstd::prelude::*;
use vstd::string::*;
use vstd::seq_lib::*;
use crate::Error;
use crate::words::{w32, zeros};
use crate::sjis::{sjis_encode_of, encode_sjis};
use crate::stcm2::format::{
    Address, Parameter, Action, ActionV, Stcm2, Stcm2V, pairs_view,
    spec_encode_string, encode_string, spec_decode_string, decode_string, single_local,
    OP_SPEAKER, OP_LINE, OP_YIELD, OP_CHOICE,
};

verus! {

broadcast use vstd::seq::group_seq_axioms;

/// The display width dialogue is packed to.
pub const MAX_LINE_LENGTH: usize = 44;

/// One display unit of encoded text: a two-byte fullwidth character, a
/// one-byte halfwidth character, or the name placeholder.
#[derive(Clone, Copy, Debug, PartialEq, Eq, Structural)]
pub enum Token {
    Fullwidth(u8, u8),
    Halfwidth(u8),
    Name,
}

/// How many display units a token occupies; the placeholder is budgeted at
/// a fixed name width.
pub open spec fn tok_width(t: Token) -> int {
    match t {
        Token::Fullwidth(_, _) => 2,
        Token::Halfwidth(_) => 1,
        Token::Name => 10,
    }
}

/// The bytes a token stands for.
pub open spec fn spec_rep(t: Token) -> Seq<u8> {
    match t {
        Token::Fullwidth(a, b) => seq![a, b],
        Token::Halfwidth(c) => seq![c],
        Token::Name => name_tag_bytes(),
    }
}

/// The bytes of the name placeholder, `#Name[1]`.
pub open spec fn name_tag_bytes() -> Seq<u8> {
    seq![0x23u8, 0x4eu8, 0x61u8, 0x6du8, 0x65u8, 0x5bu8, 0x31u8, 0x5du8]
}

fn name_tag() -> (r: Vec<u8>)
    ensures
        r@ == name_tag_bytes(),
{
    let mut r: Vec<u8> = Vec::new();
    r.push(0x23);
    r.push(0x4e);
    r.push(0x61);
    r.push(0x6d);
    r.push(0x65);
    r.push(0x5b);
    r.push(0x31);
    r.push(0x5d);
    proof { assert(r@ =~= name_tag_bytes()); }
    r
}

impl Token {
    /// The display width of this token.
    pub fn width(self) -> (r: usize)
        ensures
            r == tok_width(self),
    {
        match self {
            Token::Fullwidth(_, _) => 2,
            Token::Halfwidth(_) => 1,
            Token::Name => 10,
        }
    }

    /// The bytes this token stands for.
    pub fn rep(&self) -> (r: Vec<u8>)
        ensures
            r@ == spec_rep(*self),
    {
        match self {
            Token::Fullwidth(a, b) => {
                let mut r: Vec<u8> = Vec::new();
                r.push(*a);
                r.push(*b);
                proof { assert(r@ =~= spec_rep(*self)); }
                r
            }
            Token::Halfwidth(c) => {
                let mut r: Vec<u8> = Vec::new();
                r.push(*c);
                proof { assert(r@ =~= spec_rep(*self)); }
                r
            }
            Token::Name => name_tag(),
        }
    }
}

/// A byte that leads a two-byte Shift-JIS sequence.
pub open spec fn is_sjis_lead(b: u8) -> bool {
    (0x81 <= b && b <= 0x9f) || (0xe0 <= b && b <= 0xfc)
}

/// What tokenizing encoded text gives: the display units in order, the
/// name placeholder recognized first, or nothing when a fullwidth lead
/// byte has no trail byte.
pub open spec fn spec_tokenize(s: Seq<u8>) -> Option<Seq<Token>>
    decreases s.len(),
{
    if s.len() == 0 {
        Some(Seq::empty())
    } else if s.len() >= 8 && s.subrange(0, 8) == name_tag_bytes() {
        match spec_tokenize(s.skip(8)) {
            Some(r) => Some(seq![Token::Name] + r),
            None => None,
        }
    } else if is_sjis_lead(s.first()) {
        if s.len() < 2 {
            None
        } else {
            match spec_tokenize(s.skip(2)) {
                Some(r) => Some(seq![Token::Fullwidth(s[0], s[1])] + r),
                None => None,
            }
        }
    } else {
        match spec_tokenize(s.skip(1)) {
            Some(r) => Some(seq![Token::Halfwidth(s.first())] + r),
            None => None,
        }
    }
}

/// Splits encoded text into display units.  Fails with `Encoding` when a
/// fullwidth sequence is cut short.
pub fn tokenize(input: &Vec<u8>) -> (r: Result<Vec<Token>, Error>)
    ensures
        match r {
            Ok(ts) => spec_tokenize(input@) == Some(ts@),
            Err(e) => e == Error::Encoding && spec_tokenize(input@) is None,
        },
{
    let n = input.len();
    let tag = name_tag();
    let mut out: Vec<Token> = Vec::new();
    let mut i: usize = 0;
    proof {
        assert(input@.skip(0) =~= input@);
        if spec_tokenize(input@) is Some {
            assert(out@ + spec_tokenize(input@)->0 =~= spec_tokenize(input@)->0);
        }
    }
    while i < n
        invariant
            i <= n,
            n == input@.len(),
            tag@ == name_tag_bytes(),
            (match spec_tokenize(input@.skip(i as int)) {
                Some(rest) => spec_tokenize(input@) == Some(out@ + rest),
                None => spec_tokenize(input@) is None,
            }),
        decreases n - i,
    {
        let ghost out0 = out@;
        let ghost tail = input@.skip(i as int);
        proof {
            assert(tail.first() == input@[i as int]);
            assert(tail.len() == n - i);
        }
        if n - i >= 8 && crate::words::bytes_eq_at(input, i, &tag) {
            proof {
                assert(tail.subrange(0, 8) =~= input@.subrange(i as int, i + 8));
                assert(tail.skip(8) =~= input@.skip(i + 8));
            }
            out.push(Token::Name);
            i = i + 8;
            proof {
                step_lemma_token(out0, Token::Name, out@,
                    spec_tokenize(input@.skip(i as int)));
            }
        } else {
            let b = input[i];
            proof {
                if n - i >= 8 {
                    assert(tail.subrange(0, 8) =~= input@.subrange(i as int, i + 8));
                }
                assert(!(tail.len() >= 8 && tail.subrange(0, 8) == name_tag_bytes()));
            }
            if (0x81 <= b && b <= 0x9f) || (0xe0 <= b && b <= 0xfc) {
                if i + 1 >= n {
                    proof {
                        assert(spec_tokenize(tail) is None);
                    }
                    return Err(Error::Encoding);
                }
                let b2 = input[i + 1];
                proof {
                    assert(tail[1] == input@[i + 1]);
                    assert(tail.skip(2) =~= input@.skip(i + 2));
                }
                out.push(Token::Fullwidth(b, b2));
                i = i + 2;
                proof {
                    step_lemma_token(out0, Token::Fullwidth(b, b2), out@,
                        spec_tokenize(input@.skip(i as int)));
                }
            } else {
                proof {
                    assert(tail.skip(1) =~= input@.skip(i + 1));
                }
                out.push(Token::Halfwidth(b));
                i = i + 1;
                proof {
                    step_lemma_token(out0, Token::Halfwidth(b), out@,
                        spec_tokenize(input@.skip(i as int)));
                }
            }
        }
    }
    proof {
        assert(input@.skip(n as int) =~= Seq::<u8>::empty());
        assert(out@ + Seq::<Token>::empty() =~= out@);
    }
    Ok(out)
}

proof fn step_lemma_token(out0: Seq<Token>, t: Token, out1: Seq<Token>, rest: Option<Seq<Token>>)
    requires
        out1 == out0.push(t),
    ensures
        rest matches Some(r) ==> out0 + (seq![t] + r) == out1 + r,
{
    match rest {
        Some(r) => {
            assert(out0 + (seq![t] + r) =~= out1 + r);
        }
        None => {}
    }
}

/// The display width of a run of tokens.
pub open spec fn line_width(l: Seq<Token>) -> int
    decreases l.len(),
{
    if l.len() == 0 {
        0
    } else {
        line_width(l.drop_last()) + tok_width(l.last())
    }
}

/// A separator: the halfwidth space atoms are split on, or the fullwidth
/// space used for indentation.
pub open spec fn is_sep(t: Token) -> bool {
    t == Token::Halfwidth(0x20u8) || t == Token::Fullwidth(0x81u8, 0x40u8)
}

/// All the lines joined back together.
pub open spec fn flatten_lines(ls: Seq<Seq<Token>>) -> Seq<Token>
    decreases ls.len(),
{
    if ls.len() == 0 {
        Seq::empty()
    } else {
        flatten_lines(ls.drop_last()) + ls.last()
    }
}

/// The display width of the next whitespace-delimited atom, starting at
/// token `i`.
pub open spec fn atom_w(ts: Seq<Token>, i: int) -> int
    decreases ts.len() - i when 0 <= i
{
    if i >= ts.len() || ts[i] == Token::Halfwidth(0x20u8) {
        0
    } else {
        tok_width(ts[i]) + atom_w(ts, i + 1)
    }
}

/// The running state of the line packer.
#[verifier::ext_equal]
pub struct SplitSt {
    pub lines: Seq<Seq<Token>>,
    pub cur: Seq<Token>,
    pub cur_w: int,
    pub indent: bool,
}

/// An empty packing state.
pub open spec fn split_st_empty() -> SplitSt {
    SplitSt { lines: Seq::empty(), cur: Seq::empty(), cur_w: 0, indent: false }
}

/// Opens a line with the pending indent, places the token, and remembers
/// whether lines now start fullwidth-led.
pub open spec fn start_line(st: SplitSt, t: Token) -> SplitSt {
    let cur0: Seq<Token> = if st.indent { seq![Token::Fullwidth(0x81u8, 0x40u8)] } else { Seq::empty() };
    let w0: int = if st.indent { 2 } else { 0 };
    SplitSt {
        lines: st.lines,
        cur: cur0.push(t),
        cur_w: w0 + tok_width(t),
        indent: st.indent || t is Fullwidth,
    }
}

/// What the greedy packer gives from token `i` in state `st`: whitespace
/// is the preferred break point (an atom that cannot finish the line
/// starts the next one); a token that cannot fit a started line breaks
/// mid-atom; a final partial line is flushed.
pub open spec fn spec_split_from(ts: Seq<Token>, i: int, st: SplitSt, max: int) -> Seq<Seq<Token>>
    decreases ts.len() - i when 0 <= i
{
    if i >= ts.len() {
        if st.cur_w > 0 {
            st.lines.push(st.cur)
        } else {
            st.lines
        }
    } else {
        let t = ts[i];
        if t == Token::Halfwidth(0x20u8) {
            if st.cur_w == 0 {
                spec_split_from(ts, i + 1, st, max)
            } else if st.cur_w + 1 + atom_w(ts, i + 1) <= max {
                spec_split_from(ts, i + 1, SplitSt {
                    cur: st.cur.push(t),
                    cur_w: st.cur_w + 1,
                    ..st
                }, max)
            } else {
                spec_split_from(ts, i + 1, SplitSt {
                    lines: st.lines.push(st.cur),
                    cur: Seq::empty(),
                    cur_w: 0,
                    ..st
                }, max)
            }
        } else {
            if st.cur_w == 0 {
                spec_split_from(ts, i + 1, start_line(st, t), max)
            } else if st.cur_w + tok_width(t) > max {
                spec_split_from(ts, i + 1, start_line(SplitSt {
                    lines: st.lines.push(st.cur),
                    cur: Seq::empty(),
                    cur_w: 0,
                    ..st
                }, t), max)
            } else {
                spec_split_from(ts, i + 1, SplitSt {
                    cur: st.cur.push(t),
                    cur_w: st.cur_w + tok_width(t),
                    ..st
                }, max)
            }
        }
    }
}

/// The width of the next atom, computed ahead of a space.
fn atom_width_from(tokens: &Vec<Token>, i: usize) -> (r: u64)
    requires
        i <= tokens@.len(),
        tokens@.len() < 0x1000_0000,
    ensures
        r == atom_w(tokens@, i as int),
        r <= 10 * tokens@.len(),
{
    let n = tokens.len();
    let mut j: usize = i;
    let mut w: u64 = 0;
    while j < n && !(matches!(tokens[j], Token::Halfwidth(c) if c == 0x20))
        invariant
            i <= j <= n,
            n == tokens@.len(),
            n < 0x1000_0000,
            w + atom_w(tokens@, j as int) == atom_w(tokens@, i as int),
            w <= 10 * j,
        decreases n - j,
    {
        let tw = tokens[j].width();
        w = w + tw as u64;
        j = j + 1;
    }
    proof {
        assert(atom_w(tokens@, j as int) == 0);
    }
    w
}

/// Packs tokens greedily into display lines, whitespace preferred as the
/// break point, exactly as `spec_split_from` from the empty state.
#[verifier::loop_isolation(false)]
pub fn split_tokens(tokens: &Vec<Token>, max_width: usize) -> (lines: Vec<Vec<Token>>)
    requires
        12 <= max_width <= 0xffff,
        tokens@.len() < 0x1000_0000,
    ensures
        line_views(lines@) == spec_split_from(tokens@, 0, split_st_empty(), max_width as int),
{
    let ghost target = spec_split_from(tokens@, 0, split_st_empty(), max_width as int);
    let n = tokens.len();
    let mut lines: Vec<Vec<Token>> = Vec::new();
    let mut cur: Vec<Token> = Vec::new();
    let mut cur_w: usize = 0;
    let mut indent: bool = false;
    let mut i: usize = 0;
    proof {
        let st0 = SplitSt { lines: line_views(lines@), cur: cur@, cur_w: cur_w as int, indent };
        assert(st0 =~= split_st_empty());
        assert(line_views(lines@) =~= Seq::<Seq<Token>>::empty());
    }
    while i < n
        invariant
            i <= n,
            n == tokens@.len(),
            cur_w <= max_width,
            cur_w == 0 ==> cur@.len() == 0,
            spec_split_from(tokens@, i as int, SplitSt {
                lines: line_views(lines@),
                cur: cur@,
                cur_w: cur_w as int,
                indent,
            }, max_width as int) == target,
        decreases n - i,
    {
        let ghost stv = SplitSt {
            lines: line_views(lines@),
            cur: cur@,
            cur_w: cur_w as int,
            indent,
        };
        let t = tokens[i];
        let is_space = matches!(t, Token::Halfwidth(c) if c == 0x20);
        if is_space {
            if cur_w == 0 {
            } else {
                let aw = atom_width_from(tokens, i + 1);
                if (cur_w as u64) + 1 + aw <= max_width as u64 {
                    cur.push(t);
                    cur_w = cur_w + 1;
                    proof {
                        let st1 = SplitSt {
                            lines: line_views(lines@),
                            cur: cur@,
                            cur_w: cur_w as int,
                            indent,
                        };
                        assert(st1 =~= (SplitSt {
                            cur: stv.cur.push(t),
                            cur_w: stv.cur_w + 1,
                            ..stv
                        }));
                    }
                } else {
                    let ghost lv0 = line_views(lines@);
                    let full = cur;
                    cur = Vec::new();
                    cur_w = 0;
                    lines.push(full);
                    proof {
                        assert(line_views(lines@) =~= lv0.push(stv.cur));
                        let st1 = SplitSt {
                            lines: line_views(lines@),
                            cur: cur@,
                            cur_w: cur_w as int,
                            indent,
                        };
                        assert(st1 =~= (SplitSt {
                            lines: stv.lines.push(stv.cur),
                            cur: Seq::empty(),
                            cur_w: 0,
                            ..stv
                        }));
                    }
                }
            }
        } else {
            let w = t.width();
            if cur_w == 0 {
                if indent {
                    cur.push(Token::Fullwidth(0x81, 0x40));
                    cur_w = 2;
                }
                if matches!(t, Token::Fullwidth(_, _)) {
                    indent = true;
                }
                cur.push(t);
                cur_w = cur_w + w;
                proof {
                    let st1 = SplitSt {
                        lines: line_views(lines@),
                        cur: cur@,
                        cur_w: cur_w as int,
                        indent,
                    };
                    assert(st1 =~= start_line(stv, t));
                }
            } else if (cur_w as u64) + (w as u64) > max_width as u64 {
                let ghost lv0 = line_views(lines@);
                let full = cur;
                cur = Vec::new();
                cur_w = 0;
                lines.push(full);
                if indent {
                    cur.push(Token::Fullwidth(0x81, 0x40));
                    cur_w = 2;
                }
                if matches!(t, Token::Fullwidth(_, _)) {
                    indent = true;
                }
                cur.push(t);
                cur_w = cur_w + w;
                proof {
                    assert(line_views(lines@) =~= lv0.push(stv.cur));
                    let st1 = SplitSt {
                        lines: line_views(lines@),
                        cur: cur@,
                        cur_w: cur_w as int,
                        indent,
                    };
                    assert(st1 =~= start_line(SplitSt {
                        lines: stv.lines.push(stv.cur),
                        cur: Seq::empty(),
                        cur_w: 0,
                        ..stv
                    }, t));
                }
            } else {
                cur.push(t);
                cur_w = cur_w + w;
                proof {
                    let st1 = SplitSt {
                        lines: line_views(lines@),
                        cur: cur@,
                        cur_w: cur_w as int,
                        indent,
                    };
                    assert(st1 =~= (SplitSt {
                        cur: stv.cur.push(t),
                        cur_w: stv.cur_w + tok_width(t),
                        ..stv
                    }));
                }
            }
        }
        i = i + 1;
    }
    if cur_w > 0 {
        let ghost lv0 = line_views(lines@);
        lines.push(cur);
        proof {
            assert(line_views(lines@) =~= lv0.push(cur@));
        }
    }
    lines
}

/// The line views of a `Vec` of token lines.
pub open spec fn line_views(ls: Seq<Vec<Token>>) -> Seq<Seq<Token>> {
    Seq::new(ls.len(), |i: int| ls[i]@)
}

/// The bytes of one packed line.
pub open spec fn spec_render(l: Seq<Token>) -> Seq<u8>
    decreases l.len(),
{
    if l.len() == 0 {
        Seq::empty()
    } else {
        spec_render(l.drop_last()) + spec_rep(l.last())
    }
}

/// Renders one packed line to its bytes.
pub fn render_line(l: &Vec<Token>) -> (r: Vec<u8>)
    ensures
        r@ == spec_render(l@),
{
    let n = l.len();
    let mut r: Vec<u8> = Vec::new();
    let mut i: usize = 0;
    proof {
        assert(r@ =~= spec_render(l@.take(0)));
    }
    while i < n
        invariant
            i <= n,
            n == l@.len(),
            r@ == spec_render(l@.take(i as int)),
        decreases n - i,
    {
        let mut piece = l[i].rep();
        r.append(&mut piece);
        proof {
            assert(l@.take(i + 1).drop_last() =~= l@.take(i as int));
            assert(l@.take(i + 1).last() == l@[i as int]);
        }
        i = i + 1;
    }
    proof {
        assert(l@.take(n as int) =~= l@);
    }
    r
}

/// Packs tokens into lines and renders each as bytes, at the game's
/// display width.
pub fn split_lines_intelligent(input: &Vec<Token>) -> (r: Vec<Vec<u8>>)
    requires
        input@.len() < 0x1000_0000,
    ensures
        ({
            let lines = spec_split_from(input@, 0, split_st_empty(), MAX_LINE_LENGTH as int);
            &&& r@.len() == lines.len()
            &&& forall|i: int| 0 <= i < lines.len() ==> (#[trigger] r@[i])@ == spec_render(lines[i])
        }),
{
    let lines = split_tokens(input, MAX_LINE_LENGTH);
    let n = lines.len();
    let mut r: Vec<Vec<u8>> = Vec::new();
    let mut i: usize = 0;
    while i < n
        invariant
            i <= n,
            n == lines@.len(),
            r@.len() == i,
            forall|k: int| 0 <= k < i ==> (#[trigger] r@[k])@ == spec_render(lines@[k]@),
        decreases n - i,
    {
        let piece = render_line(&lines[i]);
        r.push(piece);
        i = i + 1;
    }
    proof {
        assert(line_views(lines@).len() == n);
        assert(forall|k: int| 0 <= k < n ==> #[trigger] line_views(lines@)[k] == lines@[k]@);
    }
    r
}

} // verus!

verus! {

/// `s` with every occurrence of `from` replaced by `to`, scanning left to
/// right.
pub open spec fn spec_replace_all(s: Seq<char>, from: Seq<char>, to: Seq<char>) -> Seq<char>
    decreases s.len() when from.len() >= 1
{
    if s.len() < from.len() {
        s
    } else if s.subrange(0, from.len() as int) == from {
        to + spec_replace_all(s.skip(from.len() as int), from, to)
    } else {
        seq![s.first()] + spec_replace_all(s.drop_first(), from, to)
    }
}

/// Replacement grows the text at most twofold when the replacement is at
/// most twice the needle.
pub proof fn lemma_replace_len(s: Seq<char>, from: Seq<char>, to: Seq<char>)
    requires
        from.len() >= 1,
        to.len() <= 2 * from.len(),
    ensures
        spec_replace_all(s, from, to).len() <= 2 * s.len(),
    decreases s.len(),
{
    if s.len() < from.len() {
    } else if s.subrange(0, from.len() as int) == from {
        lemma_replace_len(s.skip(from.len() as int), from, to);
    } else {
        lemma_replace_len(s.drop_first(), from, to);
    }
}

/// Replaces every occurrence of `from` by `to`, left to right.
#[verifier::loop_isolation(false)]
#[verifier::rlimit(100)]
pub fn replace_all(s: &Vec<char>, from: &Vec<char>, to: &Vec<char>) -> (r: Vec<char>)
    requires
        from@.len() >= 1,
    ensures
        r@ == spec_replace_all(s@, from@, to@),
{
    let n = s.len();
    let m = from.len();
    let mut out: Vec<char> = Vec::new();
    let mut i: usize = 0;
    proof {
        assert(s@.skip(0) =~= s@);
        assert(out@ + spec_replace_all(s@, from@, to@)
            =~= spec_replace_all(s@, from@, to@));
    }
    while i < n
        invariant
            i <= n,
            out@ + spec_replace_all(s@.skip(i as int), from@, to@)
                == spec_replace_all(s@, from@, to@),
        decreases n - i,
    {
        let ghost tail = s@.skip(i as int);
        let ghost out0 = out@;
        // does `from` stand here?
        let mut matches_here = m <= n && i <= n - m;
        if matches_here {
            let mut k: usize = 0;
            while k < m && matches_here
                invariant
                    k <= m,
                    i + m <= n,
                    matches_here ==> forall|q: int| 0 <= q < k
                        ==> s@[i + q] == from@[q],
                    !matches_here ==> tail.subrange(0, m as int) != from@,
                decreases m - k + (if matches_here { 1int } else { 0int }),
            {
                if s[i + k] != from[k] {
                    matches_here = false;
                    proof {
                        assert(tail.subrange(0, m as int)[k as int] == s@[i + k]);
                    }
                } else {
                    k = k + 1;
                }
            }
        }
        if matches_here {
            proof {
                assert(tail.subrange(0, m as int) =~= from@);
                assert(tail.skip(m as int) =~= s@.skip(i + m));
            }
            out.extend_from_slice(to.as_slice());
            i = i + m;
            proof {
                assert(out@ =~= out0 + to@);
                assert(out0 + (to@ + spec_replace_all(s@.skip(i as int), from@, to@))
                    =~= out@ + spec_replace_all(s@.skip(i as int), from@, to@));
            }
        } else {
            proof {
                if !(i + m <= n) {
                    assert(tail.len() < m);
                }
                assert(tail.drop_first() =~= s@.skip(i + 1));
            }
            let c = s[i];
            out.push(c);
            i = i + 1;
            proof {
                assert(out0 + (seq![c] + spec_replace_all(s@.skip(i as int), from@, to@))
                    =~= out@ + spec_replace_all(s@.skip(i as int), from@, to@));
            }
        }
    }
    proof {
        assert(s@.skip(n as int) =~= Seq::<char>::empty());
        assert(out@ + Seq::<char>::empty() =~= out@);
    }
    out
}

/// The speaker replacement table: each known Shift-JIS speaker name and
/// the bytes its dialogue name is rewritten to (the placeholder and the
/// unknown-name entry stand for themselves, the rest become romanized
/// names).
pub open spec fn spec_speakers() -> Seq<(Seq<u8>, Seq<u8>)> {
    seq![
        (seq![0x23u8, 0x4eu8, 0x61u8, 0x6du8, 0x65u8, 0x5bu8, 0x31u8, 0x5du8], seq![0x23u8, 0x4eu8, 0x61u8, 0x6du8, 0x65u8, 0x5bu8, 0x31u8, 0x5du8]),
        (seq![0x81u8, 0x48u8, 0x81u8, 0x48u8, 0x81u8, 0x48u8], seq![0x81u8, 0x48u8, 0x81u8, 0x48u8, 0x81u8, 0x48u8]),
        (seq![0x83u8, 0x5fu8, 0x83u8, 0x6au8, 0x83u8, 0x47u8, 0x83u8, 0x89u8], seq![0x44u8, 0x61u8, 0x6eu8, 0x69u8, 0x65u8, 0x6cu8, 0x61u8]),
        (seq![0x83u8, 0x94u8, 0x83u8, 0x42u8, 0x83u8, 0x4eu8, 0x83u8, 0x67u8, 0x83u8, 0x8bu8], seq![0x56u8, 0x69u8, 0x63u8, 0x74u8, 0x6fu8, 0x72u8]),
        (seq![0x83u8, 0x49u8, 0x81u8, 0x5bu8, 0x83u8, 0x4du8, 0x83u8, 0x85u8, 0x83u8, 0x58u8, 0x83u8, 0x67u8], seq![0x41u8, 0x75u8, 0x67u8, 0x75u8, 0x73u8, 0x74u8, 0x65u8]),
        (seq![0x83u8, 0x43u8, 0x83u8, 0x8au8, 0x83u8, 0x84u8], seq![0x49u8, 0x6cu8, 0x79u8, 0x61u8]),
        (seq![0x83u8, 0x8au8, 0x83u8, 0x60u8, 0x83u8, 0x83u8, 0x81u8, 0x5bu8, 0x83u8, 0x68u8], seq![0x52u8, 0x69u8, 0x63u8, 0x68u8, 0x61u8, 0x72u8, 0x64u8]),
        (seq![0x83u8, 0x84u8, 0x83u8, 0x52u8, 0x83u8, 0x75u8], seq![0x4au8, 0x61u8, 0x63u8, 0x6fu8, 0x62u8]),
        (seq![0x83u8, 0x6fu8, 0x81u8, 0x5bu8, 0x83u8, 0x57u8, 0x83u8, 0x6au8, 0x83u8, 0x41u8], seq![0x56u8, 0x69u8, 0x72u8, 0x67u8, 0x69u8, 0x6eu8, 0x69u8, 0x61u8]),
        (seq![0x83u8, 0x57u8, 0x83u8, 0x46u8, 0x83u8, 0x89u8, 0x83u8, 0x8bu8, 0x83u8, 0x68u8], seq![0x47u8, 0x65u8, 0x72u8, 0x61u8, 0x6cu8, 0x64u8]),
        (seq![0x83u8, 0x52u8, 0x83u8, 0x93u8, 0x83u8, 0x89u8, 0x83u8, 0x62u8, 0x83u8, 0x68u8], seq![0x43u8, 0x6fu8, 0x6eu8, 0x72u8, 0x61u8, 0x64u8]),
        (seq![0x83u8, 0x6fu8, 0x83u8, 0x89u8, 0x81u8, 0x5bu8, 0x83u8, 0x57u8, 0x83u8, 0x85u8], seq![0x42u8, 0x61u8, 0x6cu8, 0x61u8, 0x7au8, 0x73u8]),
        (seq![0x83u8, 0x4eu8, 0x83u8, 0x89u8, 0x83u8, 0x45u8, 0x83u8, 0x58u8], seq![0x43u8, 0x6cu8, 0x61u8, 0x75u8, 0x73u8]),
        (seq![0x83u8, 0x58u8, 0x83u8, 0x65u8, 0x83u8, 0x74u8, 0x83u8, 0x40u8, 0x83u8, 0x93u8], seq![0x53u8, 0x74u8, 0x65u8, 0x66u8, 0x61u8, 0x6eu8]),
        (seq![0x83u8, 0x8cu8, 0x83u8, 0x8bu8, 0x83u8, 0x80u8], seq![0x4cu8, 0x61u8, 0x72u8, 0x6du8]),
        (seq![0x83u8, 0x8cu8, 0x83u8, 0x49u8], seq![0x4cu8, 0x65u8, 0x6fu8]),
        (seq![0x83u8, 0x4du8, 0x83u8, 0x8bu8, 0x83u8, 0x78u8, 0x83u8, 0x8bu8, 0x83u8, 0x67u8], seq![0x47u8, 0x69u8, 0x6cu8, 0x62u8, 0x65u8, 0x72u8, 0x74u8]),
        (seq![0x83u8, 0x47u8, 0x83u8, 0x7eu8, 0x83u8, 0x8au8, 0x83u8, 0x49u8], seq![0x45u8, 0x6du8, 0x69u8, 0x6cu8, 0x69u8, 0x6fu8]),
        (seq![0x83u8, 0x66u8, 0x83u8, 0x42u8, 0x83u8, 0x81u8, 0x83u8, 0x67u8, 0x83u8, 0x8au8, 0x83u8, 0x49u8], seq![0x44u8, 0x65u8, 0x6du8, 0x65u8, 0x74u8, 0x72u8, 0x69u8, 0x6fu8]),
        (seq![0x83u8, 0x49u8, 0x83u8, 0x8au8, 0x83u8, 0x94u8, 0x83u8, 0x42u8, 0x83u8, 0x41u8], seq![0x4fu8, 0x6cu8, 0x69u8, 0x76u8, 0x69u8, 0x61u8]),
        (seq![0x83u8, 0x94u8, 0x83u8, 0x48u8, 0x83u8, 0x8bu8, 0x83u8, 0x7du8, 0x81u8, 0x5bu8], seq![0x56u8, 0x6fu8, 0x6cu8, 0x6du8, 0x65u8, 0x72u8]),
        (seq![0x83u8, 0x5fu8, 0x83u8, 0x93u8, 0x83u8, 0x50u8, 0x83u8, 0x8bu8, 0x83u8, 0x6eu8, 0x83u8, 0x43u8, 0x83u8, 0x67u8], seq![0x44u8, 0x75u8, 0x6eu8, 0x6bu8, 0x65u8, 0x6cu8, 0x68u8, 0x65u8, 0x69u8, 0x74u8]),
        (seq![0x90u8, 0x6cu8, 0x98u8, 0x54u8], seq![0x57u8, 0x65u8, 0x72u8, 0x65u8, 0x77u8, 0x6fu8, 0x6cu8, 0x66u8]),
        (seq![0x8du8, 0x95u8, 0x88u8, 0xdfu8, 0x82u8, 0xccu8, 0x92u8, 0x6au8, 0x90u8, 0xabu8], seq![0x4du8, 0x61u8, 0x6eu8, 0x20u8, 0x69u8, 0x6eu8, 0x20u8, 0x62u8, 0x6cu8, 0x61u8, 0x63u8, 0x6bu8]),
        (seq![0x83u8, 0x4eu8, 0x83u8, 0x89u8, 0x83u8, 0x45u8, 0x83u8, 0x58u8, 0x82u8, 0xccu8, 0x90u8, 0xbau8], seq![0x43u8, 0x6cu8, 0x61u8, 0x75u8, 0x73u8, 0x27u8, 0x73u8, 0x20u8, 0x76u8, 0x6fu8, 0x69u8, 0x63u8, 0x65u8]),
        (seq![0x83u8, 0x6fu8, 0x81u8, 0x5bu8, 0x83u8, 0x57u8, 0x83u8, 0x6au8, 0x83u8, 0x41u8, 0x82u8, 0xccu8, 0x90u8, 0xbau8], seq![0x56u8, 0x69u8, 0x72u8, 0x67u8, 0x69u8, 0x6eu8, 0x69u8, 0x61u8, 0x27u8, 0x73u8, 0x20u8, 0x76u8, 0x6fu8, 0x69u8, 0x63u8, 0x65u8]),
        (seq![0x83u8, 0x49u8, 0x81u8, 0x5bu8, 0x83u8, 0x4du8, 0x83u8, 0x85u8, 0x83u8, 0x58u8, 0x83u8, 0x67u8, 0x82u8, 0xccu8, 0x90u8, 0xbau8], seq![0x41u8, 0x75u8, 0x67u8, 0x75u8, 0x73u8, 0x74u8, 0x65u8, 0x27u8, 0x73u8, 0x20u8, 0x76u8, 0x6fu8, 0x69u8, 0x63u8, 0x65u8]),
        (seq![0x83u8, 0x58u8, 0x83u8, 0x65u8, 0x83u8, 0x74u8, 0x83u8, 0x40u8, 0x83u8, 0x93u8, 0x82u8, 0xccu8, 0x90u8, 0xbau8], seq![0x53u8, 0x74u8, 0x65u8, 0x66u8, 0x61u8, 0x6eu8, 0x27u8, 0x73u8, 0x20u8, 0x76u8, 0x6fu8, 0x69u8, 0x63u8, 0x65u8]),
    ]
}

fn speakers() -> (t: Vec<(Vec<u8>, Vec<u8>)>)
    ensures
        t@.len() == spec_speakers().len(),
        forall|i: int| 0 <= i < t@.len()
            ==> ((#[trigger] t@[i]).0@ == spec_speakers()[i].0
                && t@[i].1@ == spec_speakers()[i].1
                && t@[i].1@.len() <= 64),
{
    let mut t: Vec<(Vec<u8>, Vec<u8>)> = Vec::new();
    t.push((vec![0x23u8, 0x4eu8, 0x61u8, 0x6du8, 0x65u8, 0x5bu8, 0x31u8, 0x5du8], vec![0x23u8, 0x4eu8, 0x61u8, 0x6du8, 0x65u8, 0x5bu8, 0x31u8, 0x5du8]));
    t.push((vec![0x81u8, 0x48u8, 0x81u8, 0x48u8, 0x81u8, 0x48u8], vec![0x81u8, 0x48u8, 0x81u8, 0x48u8, 0x81u8, 0x48u8]));
    t.push((vec![0x83u8, 0x5fu8, 0x83u8, 0x6au8, 0x83u8, 0x47u8, 0x83u8, 0x89u8], vec![0x44u8, 0x61u8, 0x6eu8, 0x69u8, 0x65u8, 0x6cu8, 0x61u8]));
    t.push((vec![0x83u8, 0x94u8, 0x83u8, 0x42u8, 0x83u8, 0x4eu8, 0x83u8, 0x67u8, 0x83u8, 0x8bu8], vec![0x56u8, 0x69u8, 0x63u8, 0x74u8, 0x6fu8, 0x72u8]));
    t.push((vec![0x83u8, 0x49u8, 0x81u8, 0x5bu8, 0x83u8, 0x4du8, 0x83u8, 0x85u8, 0x83u8, 0x58u8, 0x83u8, 0x67u8], vec![0x41u8, 0x75u8, 0x67u8, 0x75u8, 0x73u8, 0x74u8, 0x65u8]));
    t.push((vec![0x83u8, 0x43u8, 0x83u8, 0x8au8, 0x83u8, 0x84u8], vec![0x49u8, 0x6cu8, 0x79u8, 0x61u8]));
    t.push((vec![0x83u8, 0x8au8, 0x83u8, 0x60u8, 0x83u8, 0x83u8, 0x81u8, 0x5bu8, 0x83u8, 0x68u8], vec![0x52u8, 0x69u8, 0x63u8, 0x68u8, 0x61u8, 0x72u8, 0x64u8]));
    t.push((vec![0x83u8, 0x84u8, 0x83u8, 0x52u8, 0x83u8, 0x75u8], vec![0x4au8, 0x61u8, 0x63u8, 0x6fu8, 0x62u8]));
    t.push((vec![0x83u8, 0x6fu8, 0x81u8, 0x5bu8, 0x83u8, 0x57u8, 0x83u8, 0x6au8, 0x83u8, 0x41u8], vec![0x56u8, 0x69u8, 0x72u8, 0x67u8, 0x69u8, 0x6eu8, 0x69u8, 0x61u8]));
    t.push((vec![0x83u8, 0x57u8, 0x83u8, 0x46u8, 0x83u8, 0x89u8, 0x83u8, 0x8bu8, 0x83u8, 0x68u8], vec![0x47u8, 0x65u8, 0x72u8, 0x61u8, 0x6cu8, 0x64u8]));
    t.push((vec![0x83u8, 0x52u8, 0x83u8, 0x93u8, 0x83u8, 0x89u8, 0x83u8, 0x62u8, 0x83u8, 0x68u8], vec![0x43u8, 0x6fu8, 0x6eu8, 0x72u8, 0x61u8, 0x64u8]));
    t.push((vec![0x83u8, 0x6fu8, 0x83u8, 0x89u8, 0x81u8, 0x5bu8, 0x83u8, 0x57u8, 0x83u8, 0x85u8], vec![0x42u8, 0x61u8, 0x6cu8, 0x61u8, 0x7au8, 0x73u8]));
    t.push((vec![0x83u8, 0x4eu8, 0x83u8, 0x89u8, 0x83u8, 0x45u8, 0x83u8, 0x58u8], vec![0x43u8, 0x6cu8, 0x61u8, 0x75u8, 0x73u8]));
    t.push((vec![0x83u8, 0x58u8, 0x83u8, 0x65u8, 0x83u8, 0x74u8, 0x83u8, 0x40u8, 0x83u8, 0x93u8], vec![0x53u8, 0x74u8, 0x65u8, 0x66u8, 0x61u8, 0x6eu8]));
    t.push((vec![0x83u8, 0x8cu8, 0x83u8, 0x8bu8, 0x83u8, 0x80u8], vec![0x4cu8, 0x61u8, 0x72u8, 0x6du8]));
    t.push((vec![0x83u8, 0x8cu8, 0x83u8, 0x49u8], vec![0x4cu8, 0x65u8, 0x6fu8]));
    t.push((vec![0x83u8, 0x4du8, 0x83u8, 0x8bu8, 0x83u8, 0x78u8, 0x83u8, 0x8bu8, 0x83u8, 0x67u8], vec![0x47u8, 0x69u8, 0x6cu8, 0x62u8, 0x65u8, 0x72u8, 0x74u8]));
    t.push((vec![0x83u8, 0x47u8, 0x83u8, 0x7eu8, 0x83u8, 0x8au8, 0x83u8, 0x49u8], vec![0x45u8, 0x6du8, 0x69u8, 0x6cu8, 0x69u8, 0x6fu8]));
    t.push((vec![0x83u8, 0x66u8, 0x83u8, 0x42u8, 0x83u8, 0x81u8, 0x83u8, 0x67u8, 0x83u8, 0x8au8, 0x83u8, 0x49u8], vec![0x44u8, 0x65u8, 0x6du8, 0x65u8, 0x74u8, 0x72u8, 0x69u8, 0x6fu8]));
    t.push((vec![0x83u8, 0x49u8, 0x83u8, 0x8au8, 0x83u8, 0x94u8, 0x83u8, 0x42u8, 0x83u8, 0x41u8], vec![0x4fu8, 0x6cu8, 0x69u8, 0x76u8, 0x69u8, 0x61u8]));
    t.push((vec![0x83u8, 0x94u8, 0x83u8, 0x48u8, 0x83u8, 0x8bu8, 0x83u8, 0x7du8, 0x81u8, 0x5bu8], vec![0x56u8, 0x6fu8, 0x6cu8, 0x6du8, 0x65u8, 0x72u8]));
    t.push((vec![0x83u8, 0x5fu8, 0x83u8, 0x93u8, 0x83u8, 0x50u8, 0x83u8, 0x8bu8, 0x83u8, 0x6eu8, 0x83u8, 0x43u8, 0x83u8, 0x67u8], vec![0x44u8, 0x75u8, 0x6eu8, 0x6bu8, 0x65u8, 0x6cu8, 0x68u8, 0x65u8, 0x69u8, 0x74u8]));
    t.push((vec![0x90u8, 0x6cu8, 0x98u8, 0x54u8], vec![0x57u8, 0x65u8, 0x72u8, 0x65u8, 0x77u8, 0x6fu8, 0x6cu8, 0x66u8]));
    t.push((vec![0x8du8, 0x95u8, 0x88u8, 0xdfu8, 0x82u8, 0xccu8, 0x92u8, 0x6au8, 0x90u8, 0xabu8], vec![0x4du8, 0x61u8, 0x6eu8, 0x20u8, 0x69u8, 0x6eu8, 0x20u8, 0x62u8, 0x6cu8, 0x61u8, 0x63u8, 0x6bu8]));
    t.push((vec![0x83u8, 0x4eu8, 0x83u8, 0x89u8, 0x83u8, 0x45u8, 0x83u8, 0x58u8, 0x82u8, 0xccu8, 0x90u8, 0xbau8], vec![0x43u8, 0x6cu8, 0x61u8, 0x75u8, 0x73u8, 0x27u8, 0x73u8, 0x20u8, 0x76u8, 0x6fu8, 0x69u8, 0x63u8, 0x65u8]));
    t.push((vec![0x83u8, 0x6fu8, 0x81u8, 0x5bu8, 0x83u8, 0x57u8, 0x83u8, 0x6au8, 0x83u8, 0x41u8, 0x82u8, 0xccu8, 0x90u8, 0xbau8], vec![0x56u8, 0x69u8, 0x72u8, 0x67u8, 0x69u8, 0x6eu8, 0x69u8, 0x61u8, 0x27u8, 0x73u8, 0x20u8, 0x76u8, 0x6fu8, 0x69u8, 0x63u8, 0x65u8]));
    t.push((vec![0x83u8, 0x49u8, 0x81u8, 0x5bu8, 0x83u8, 0x4du8, 0x83u8, 0x85u8, 0x83u8, 0x58u8, 0x83u8, 0x67u8, 0x82u8, 0xccu8, 0x90u8, 0xbau8], vec![0x41u8, 0x75u8, 0x67u8, 0x75u8, 0x73u8, 0x74u8, 0x65u8, 0x27u8, 0x73u8, 0x20u8, 0x76u8, 0x6fu8, 0x69u8, 0x63u8, 0x65u8]));
    t.push((vec![0x83u8, 0x58u8, 0x83u8, 0x65u8, 0x83u8, 0x74u8, 0x83u8, 0x40u8, 0x83u8, 0x93u8, 0x82u8, 0xccu8, 0x90u8, 0xbau8], vec![0x53u8, 0x74u8, 0x65u8, 0x66u8, 0x61u8, 0x6eu8, 0x27u8, 0x73u8, 0x20u8, 0x76u8, 0x6fu8, 0x69u8, 0x63u8, 0x65u8]));
    proof {
        assert forall|i: int| 0 <= i < t@.len()
            implies ((#[trigger] t@[i]).0@ == spec_speakers()[i].0
                && t@[i].1@ == spec_speakers()[i].1
                && t@[i].1@.len() <= 64) by {
            assert(t@[i].0@ =~= spec_speakers()[i].0);
            assert(t@[i].1@ =~= spec_speakers()[i].1);
        }
    }
    t
}

pub open spec fn spec_speaker_lookup(t: Seq<(Seq<u8>, Seq<u8>)>, name: Seq<u8>) -> Option<Seq<u8>>
    decreases t.len(),
{
    if t.len() == 0 {
        None
    } else if t.first().0 == name {
        Some(spec_encode_string(t.first().1))
    } else {
        spec_speaker_lookup(t.drop_first(), name)
    }
}

/// The replacement string record for a speaker name, when the name is in
/// the table.
pub open spec fn spec_speaker_replacement(name: Seq<u8>) -> Option<Seq<u8>> {
    spec_speaker_lookup(spec_speakers(), name)
}

fn entries_eq(a: &Vec<u8>, b: &Vec<u8>) -> (r: bool)
    ensures
        r == (a@ == b@),
{
    if a.len() != b.len() {
        proof {
            assert(a@.len() != b@.len());
        }
        return false;
    }
    let r = crate::words::bytes_eq_at(b, 0, a);
    proof {
        assert(b@.subrange(0, a@.len() as int) =~= b@);
    }
    r
}

/// Looks a speaker name up and encodes its replacement as a string record.
#[verifier::loop_isolation(false)]
pub fn speaker_replacement(name: &Vec<u8>) -> (r: Option<Vec<u8>>)
    ensures
        match r {
            Some(b) => spec_speaker_replacement(name@) == Some(b@),
            None => spec_speaker_replacement(name@) is None,
        },
{
    let t = speakers();
    let n = t.len();
    let mut i: usize = 0;
    proof {
        assert(spec_speakers().skip(0) =~= spec_speakers());
    }
    while i < n
        invariant
            i <= n,
            n == t@.len(),
            spec_speaker_lookup(spec_speakers().skip(i as int), name@)
                == spec_speaker_replacement(name@),
        decreases n - i,
    {
        proof {
            assert(spec_speakers().skip(i as int).first() == spec_speakers()[i as int]);
            assert(spec_speakers().skip(i as int).drop_first()
                =~= spec_speakers().skip(i as int + 1));
        }
        if entries_eq(&t[i].0, name) {
            match encode_string(&t[i].1) {
                Ok(b) => {
                    return Some(b);
                }
                Err(_) => {
                    // every table entry is far below the record's length
                    // field; this arm cannot be reached
                    proof { assert(false); }
                    return None;
                }
            }
        }
        i = i + 1;
    }
    proof {
        assert(spec_speakers().skip(n as int) =~= Seq::<(Seq<u8>, Seq<u8>)>::empty());
    }
    None
}

/// The Line action carrying one packed replacement line.
pub open spec fn line_action(rb: Seq<u8>) -> ActionV {
    ActionV {
        export: None,
        call: false,
        opcode: OP_LINE,
        params: seq![Parameter::LocalPointer(0u32)],
        data: spec_encode_string(rb),
    }
}

/// The scene-advance action inserted after every third packed line.
pub open spec fn yield_action() -> ActionV {
    ActionV {
        export: None,
        call: false,
        opcode: OP_YIELD,
        params: Seq::empty(),
        data: Seq::empty(),
    }
}

/// The actions a run of packed lines becomes, at ascending sub-indices of
/// `addr`, a Yield before every fourth line.  Fails with `Overflow` when a
/// sub-index would wrap or a line cannot fit a string record.
pub open spec fn spec_lines_to_actions(
    addr: Address,
    lines: Seq<Seq<Token>>,
    k: int,
    yc: int,
) -> Result<Seq<(Address, ActionV)>, Error>
    decreases lines.len() - k, (if yc >= 3 { 1int } else { 0int }) when 0 <= k
{
    if k >= lines.len() {
        Ok(Seq::empty())
    } else if yc >= 3 {
        if addr.sub == u32::MAX {
            Err(Error::Overflow)
        } else {
            match spec_lines_to_actions(
                Address { orig: addr.orig, sub: (addr.sub + 1) as u32 }, lines, k, 0,
            ) {
                Err(e) => Err(e),
                Ok(rest) => Ok(seq![(addr, yield_action())] + rest),
            }
        }
    } else {
        let rb = spec_render(lines[k]);
        if rb.len() > 0xffff_fffcnat {
            Err(Error::Overflow)
        } else if addr.sub == u32::MAX {
            Err(Error::Overflow)
        } else {
            match spec_lines_to_actions(
                Address { orig: addr.orig, sub: (addr.sub + 1) as u32 }, lines, k + 1, yc + 1,
            ) {
                Err(e) => Err(e),
                Ok(rest) => Ok(seq![(addr, line_action(rb))] + rest),
            }
        }
    }
}

/// Builds the replacement actions for the packed lines of one window.
#[verifier::loop_isolation(false)]
fn lines_to_actions(addr: Address, lines: &Vec<Vec<Token>>) -> (r: Result<
    Vec<(Address, Action)>,
    Error,
>)
    ensures
        match r {
            Ok(acts) => spec_lines_to_actions(addr, line_views(lines@), 0, 0)
                == Ok::<Seq<(Address, ActionV)>, Error>(pairs_view(acts@)),
            Err(e) => spec_lines_to_actions(addr, line_views(lines@), 0, 0)
                == Err::<Seq<(Address, ActionV)>, Error>(e),
        },
{
    let ghost lv = line_views(lines@);
    let ghost target = spec_lines_to_actions(addr, lv, 0, 0);
    let n = lines.len();
    let mut acts: Vec<(Address, Action)> = Vec::new();
    let mut cur = addr;
    let mut k: usize = 0;
    let mut yc: u8 = 0;
    proof {
        assert(pairs_view(acts@) =~= Seq::<(Address, ActionV)>::empty());
        if target is Ok {
            assert(pairs_view(acts@) + target->Ok_0 =~= target->Ok_0);
        }
    }
    while k < n
        invariant
            k <= n,
            n == lines@.len(),
            lv == line_views(lines@),
            yc <= 3,
            cur.orig == addr.orig,
            (match spec_lines_to_actions(cur, lv, k as int, yc as int) {
                Ok(rest) => target
                    == Ok::<Seq<(Address, ActionV)>, Error>(pairs_view(acts@) + rest),
                Err(e) => target == Err::<Seq<(Address, ActionV)>, Error>(e),
            }),
        decreases n - k, (if yc >= 3 { 1int } else { 0int }),
    {
        let ghost pv0 = pairs_view(acts@);
        if yc >= 3 {
            if cur.sub == u32::MAX {
                return Err(Error::Overflow);
            }
            acts.push((cur, Action {
                export: None,
                call: false,
                opcode: OP_YIELD,
                params: Vec::new(),
                data: Vec::new(),
            }));
            proof {
                assert(pairs_view(acts@) =~= pv0.push((cur, yield_action())));
                let nxt = spec_lines_to_actions(
                    Address { orig: cur.orig, sub: (cur.sub + 1) as u32 },
                    lv, k as int, 0);
                match nxt {
                    Ok(rest) => {
                        assert(pv0 + (seq![(cur, yield_action())] + rest)
                            =~= pairs_view(acts@) + rest);
                    }
                    Err(_) => {}
                }
            }
            cur = Address { orig: cur.orig, sub: cur.sub + 1 };
            yc = 0;
        } else {
            let rb = render_line(&lines[k]);
            let data = match encode_string(&rb) {
                Ok(d) => d,
                Err(e) => {
                    return Err(e);
                }
            };
            if cur.sub == u32::MAX {
                return Err(Error::Overflow);
            }
            let mut params: Vec<Parameter> = Vec::new();
            params.push(Parameter::LocalPointer(0));
            acts.push((cur, Action {
                export: None,
                call: false,
                opcode: OP_LINE,
                params,
                data,
            }));
            proof {
                assert(pairs_view(acts@)
                    =~= pv0.push((cur, line_action(spec_render(lv[k as int])))));
                let nxt = spec_lines_to_actions(
                    Address { orig: cur.orig, sub: (cur.sub + 1) as u32 },
                    lv, k + 1, yc + 1);
                match nxt {
                    Ok(rest) => {
                        assert(pv0 + (seq![(cur, line_action(spec_render(lv[k as int])))] + rest)
                            =~= pairs_view(acts@) + rest);
                    }
                    Err(_) => {}
                }
            }
            cur = Address { orig: cur.orig, sub: cur.sub + 1 };
            yc = yc + 1;
            k = k + 1;
        }
    }
    proof {
        assert(pairs_view(acts@) + Seq::<(Address, ActionV)>::empty() =~= pairs_view(acts@));
    }
    Ok(acts)
}

/// The needle of the name normalization.
pub open spec fn mary_chars() -> Seq<char> {
    seq!['M', 'a', 'r', 'y']
}

/// The placeholder the normalization writes instead.
pub open spec fn name_tag_chars() -> Seq<char> {
    seq!['#', 'N', 'a', 'm', 'e', '[', '1', ']']
}

/// What one window's replacement becomes: the translation normalized,
/// re-encoded to Shift-JIS, tokenized, packed into display lines, and laid
/// out as Line (and Yield) actions at ascending sub-indices of the window
/// address.
pub open spec fn spec_replacement_actions(wa: Address, tr: Seq<char>) -> Result<
    Seq<(Address, ActionV)>,
    Error,
> {
    let norm = spec_replace_all(
        spec_replace_all(tr, mary_chars(), name_tag_chars()),
        seq!['\u{e4}'], seq!['a']);
    match sjis_encode_of(norm) {
        None => Err(Error::Encoding),
        Some(bytes) => {
            if bytes.len() >= 0x1000_0000 {
                Err(Error::Overflow)
            } else {
                match spec_tokenize(bytes) {
                    None => Err(Error::Encoding),
                    Some(toks) => spec_lines_to_actions(
                        wa,
                        spec_split_from(toks, 0, split_st_empty(), MAX_LINE_LENGTH as int),
                        0, 0),
                }
            }
        }
    }
}

/// Tokenizing never yields more units than bytes.
proof fn lemma_tokenize_len(s: Seq<u8>)
    ensures
        spec_tokenize(s) matches Some(ts) ==> ts.len() <= s.len(),
    decreases s.len(),
{
    if s.len() == 0 {
    } else if s.len() >= 8 && s.subrange(0, 8) == name_tag_bytes() {
        lemma_tokenize_len(s.skip(8));
    } else if is_sjis_lead(s.first()) {
        if s.len() >= 2 {
            lemma_tokenize_len(s.skip(2));
        }
    } else {
        lemma_tokenize_len(s.skip(1));
    }
}

/// The characters of a string, one by one.
fn str_chars(s: &str) -> (r: Vec<char>)
    ensures
        r@ == s@,
{
    let n = s.unicode_len();
    let mut r: Vec<char> = Vec::new();
    let mut i: usize = 0;
    while i < n
        invariant
            i <= n,
            n == s@.len(),
            r@ == s@.take(i as int),
        decreases n - i,
    {
        let c = s.get_char(i);
        r.push(c);
        proof {
            assert(s@.take(i + 1) =~= s@.take(i as int).push(s@[i as int]));
        }
        i = i + 1;
    }
    proof {
        assert(s@.take(n as int) =~= s@);
    }
    r
}

fn mary_vec() -> (r: Vec<char>)
    ensures
        r@ == mary_chars(),
{
    let mut r: Vec<char> = Vec::new();
    r.push('M');
    r.push('a');
    r.push('r');
    r.push('y');
    proof { assert(r@ =~= mary_chars()); }
    r
}

fn name_tag_vec() -> (r: Vec<char>)
    ensures
        r@ == name_tag_chars(),
{
    let mut r: Vec<char> = Vec::new();
    r.push('#');
    r.push('N');
    r.push('a');
    r.push('m');
    r.push('e');
    r.push('[');
    r.push('1');
    r.push(']');
    proof { assert(r@ =~= name_tag_chars()); }
    r
}

/// Builds the replacement actions for one window from its translation.
fn make_replacement(wa: Address, tr: &String) -> (r: Result<Vec<(Address, Action)>, Error>)
    requires
        tr@.len() < 0x0080_0000,
    ensures
        match r {
            Ok(acts) => spec_replacement_actions(wa, tr@)
                == Ok::<Seq<(Address, ActionV)>, Error>(pairs_view(acts@)),
            Err(e) => spec_replacement_actions(wa, tr@)
                == Err::<Seq<(Address, ActionV)>, Error>(e),
        },
{
    let chars = str_chars(tr.as_str());
    let mary = mary_vec();
    let tag = name_tag_vec();
    let step1 = replace_all(&chars, &mary, &tag);
    let mut auml: Vec<char> = Vec::new();
    auml.push('\u{e4}');
    let mut plain_a: Vec<char> = Vec::new();
    plain_a.push('a');
    proof {
        assert(auml@ =~= seq!['\u{e4}']);
        assert(plain_a@ =~= seq!['a']);
        lemma_replace_len(tr@, mary_chars(), name_tag_chars());
        lemma_replace_len(step1@, seq!['\u{e4}'], seq!['a']);
    }
    let norm = replace_all(&step1, &auml, &plain_a);
    let bytes = match encode_sjis(&norm) {
        Some(b) => b,
        None => {
            return Err(Error::Encoding);
        }
    };
    if bytes.len() >= 0x1000_0000 {
        return Err(Error::Overflow);
    }
    let toks = match tokenize(&bytes) {
        Ok(t) => t,
        Err(e) => {
            return Err(e);
        }
    };
    proof {
        lemma_tokenize_len(bytes@);
    }
    let lines = split_tokens(&toks, MAX_LINE_LENGTH);
    lines_to_actions(wa, &lines)
}

} // verus!

verus! {

/// Copies a parameter list.
fn copy_params(v: &Vec<Parameter>) -> (r: Vec<Parameter>)
    ensures
        r@ == v@,
{
    let n = v.len();
    let mut r: Vec<Parameter> = Vec::new();
    let mut i: usize = 0;
    while i < n
        invariant
            i <= n,
            n == v@.len(),
            r@ == v@.take(i as int),
        decreases n - i,
    {
        r.push(v[i]);
        proof {
            assert(v@.take(i + 1) =~= v@.take(i as int).push(v@[i as int]));
        }
        i = i + 1;
    }
    proof {
        assert(v@.take(n as int) =~= v@);
    }
    r
}

impl Action {
    /// A structural copy of this action.
    pub fn duplicate(&self) -> (r: Action)
        ensures
            r@ == self@,
    {
        let export = match &self.export {
            Some(e) => Some(vstd::slice::slice_to_vec(e.as_slice())),
            None => None,
        };
        Action {
            export,
            call: self.call,
            opcode: self.opcode,
            params: copy_params(&self.params),
            data: vstd::slice::slice_to_vec(self.data.as_slice()),
        }
    }
}

/// The running state of the patch scan: the open window's address, the
/// buffered dialogue run, the translations not yet used, and the actions
/// already emitted.
#[verifier::ext_equal]
pub struct PatchStV {
    pub cur: Option<Address>,
    pub buffered: Seq<(Address, ActionV)>,
    pub tls: Seq<(u32, Seq<char>)>,
    pub out: Seq<(Address, ActionV)>,
}

/// The translation pairs of a `Vec`, with each text as its characters.
pub open spec fn tls_views(tls: Seq<(u32, String)>) -> Seq<(u32, Seq<char>)> {
    Seq::new(tls.len(), |i: int| (tls[i].0, tls[i].1@))
}

/// The first translation keyed by `o`, from position `j`; -1 when none.
pub open spec fn tls_find_from(tls: Seq<(u32, Seq<char>)>, o: u32, j: int) -> int
    decreases tls.len() - j when 0 <= j
{
    if j >= tls.len() {
        -1
    } else if tls[j].0 == o {
        j
    } else {
        tls_find_from(tls, o, j + 1)
    }
}

/// What the patch scan gives from action `i` in state `st`: speaker
/// actions open a buffering window and have their name replaced, plain
/// dialogue lines are buffered, a choice passes everything through, and
/// any other action closes the window — swapping the buffered run for the
/// freshly packed replacement when the window's address has a translation.
pub open spec fn spec_patch_from(
    acts: Seq<(Address, ActionV)>,
    i: int,
    st: PatchStV,
) -> Result<Seq<(Address, ActionV)>, Error>
    decreases acts.len() - i when 0 <= i
{
    if i >= acts.len() {
        if st.tls.len() > 0 {
            Err(Error::UnmatchedTranslation(st.tls[0].0))
        } else {
            match st.cur {
                Some(wa) => Err(Error::UnclosedWindow(wa.orig)),
                None => {
                    if st.buffered.len() > 0 {
                        Err(Error::UnclosedWindow(st.buffered[0].0.orig))
                    } else {
                        Ok(st.out)
                    }
                }
            }
        }
    } else {
        let addr = acts[i].0;
        let a = acts[i].1;
        if !a.call && a.opcode == OP_SPEAKER {
            if st.cur is Some || st.buffered.len() > 0 {
                Err(Error::OverlappingWindow(addr.orig))
            } else if !(a.export is None && single_local(a.params) == Some(0u32)) {
                Err(Error::Format)
            } else {
                match spec_decode_string(0, a.data) {
                    Err(e) => Err(e),
                    Ok(name) => match spec_speaker_replacement(name) {
                        None => Err(Error::UnknownSpeaker(addr.orig)),
                        Some(rep) => {
                            if addr.sub == u32::MAX {
                                Err(Error::Overflow)
                            } else {
                                spec_patch_from(acts, i + 1, PatchStV {
                                    cur: Some(Address {
                                        orig: addr.orig,
                                        sub: (addr.sub + 1) as u32,
                                    }),
                                    out: st.out.push((addr, ActionV { data: rep, ..a })),
                                    ..st
                                })
                            }
                        }
                    },
                }
            }
        } else if !a.call && a.opcode == OP_LINE {
            if a.params == seq![Parameter::Value(212u32)] {
                if st.cur is Some {
                    Err(Error::Format)
                } else {
                    spec_patch_from(acts, i + 1, PatchStV {
                        out: st.out.push((addr, a)),
                        ..st
                    })
                }
            } else if a.params == seq![Parameter::LocalPointer(0u32)] {
                if a.export is Some {
                    Err(Error::Format)
                } else {
                    spec_patch_from(acts, i + 1, PatchStV {
                        buffered: st.buffered.push((addr, a)),
                        cur: if st.cur is None { Some(addr) } else { st.cur },
                        ..st
                    })
                }
            } else {
                Err(Error::Format)
            }
        } else if a.opcode == OP_CHOICE {
            spec_patch_from(acts, i + 1, PatchStV {
                out: st.out + st.buffered + seq![(addr, a)],
                buffered: Seq::empty(),
                cur: None,
                ..st
            })
        } else {
            match st.cur {
                None => {
                    if st.buffered.len() > 0 {
                        Err(Error::Format)
                    } else {
                        spec_patch_from(acts, i + 1, PatchStV {
                            out: st.out.push((addr, a)),
                            cur: None,
                            ..st
                        })
                    }
                }
                Some(wa) => {
                    let fi = tls_find_from(st.tls, wa.orig, 0);
                    if fi < 0 {
                        spec_patch_from(acts, i + 1, PatchStV {
                            out: st.out + st.buffered + seq![(addr, a)],
                            buffered: Seq::empty(),
                            cur: None,
                            ..st
                        })
                    } else {
                        match spec_replacement_actions(wa, st.tls[fi].1) {
                            Err(e) => Err(e),
                            Ok(ins) => spec_patch_from(acts, i + 1, PatchStV {
                                out: st.out + ins + seq![(addr, a)],
                                buffered: Seq::empty(),
                                cur: None,
                                tls: st.tls.remove(fi),
                            }),
                        }
                    }
                }
            }
        }
    }
}

/// What patching a whole document gives: the rewritten action table.
pub open spec fn spec_patch(doc: Stcm2V, tls: Seq<(u32, Seq<char>)>) -> Result<
    Seq<(Address, ActionV)>,
    Error,
> {
    spec_patch_from(doc.actions, 0, PatchStV {
        cur: None,
        buffered: Seq::empty(),
        tls,
        out: Seq::empty(),
    })
}

/// Every translation is short enough to re-encode (a machine limit; any
/// real line is far below it).
pub open spec fn tls_small(tls: Seq<(u32, Seq<char>)>) -> bool {
    forall|i: int| 0 <= i < tls.len() ==> (#[trigger] tls[i]).1.len() < 0x0080_0000
}

/// Rewrites a document's dialogue from a translation table, exactly as
/// `spec_patch` says: every translated window is replaced by freshly
/// packed Line (and Yield) actions at inserted sub-indices, everything
/// else passes through unchanged, and every translation must be used.
///
/// Fails with `UnmatchedTranslation` naming a stale translation's address,
/// `OverlappingWindow` naming a speaker that arrives inside an open
/// window, `UnclosedWindow` naming a window still open when the scan
/// ends, `UnknownSpeaker` naming a window whose speaker is not in the
/// table, `Encoding` when a translation cannot be carried by Shift-JIS,
/// and `Format` when the dialogue run violates the scan's shape.
#[verifier::loop_isolation(false)]
pub fn patch(doc: &Stcm2, translations: Vec<(u32, String)>) -> (r: Result<Stcm2, Error>)
    requires
        tls_small(tls_views(translations@)),
    ensures
        match r {
            Ok(nd) => spec_patch(doc@, tls_views(translations@))
                    == Ok::<Seq<(Address, ActionV)>, Error>(nd@.actions)
                && nd@.tag == doc@.tag
                && nd@.global_data == doc@.global_data,
            Err(e) => spec_patch(doc@, tls_views(translations@))
                == Err::<Seq<(Address, ActionV)>, Error>(e),
        },
{
    let ghost av = doc@.actions;
    let ghost tls0 = tls_views(translations@);
    let ghost target = spec_patch(doc@, tls0);
    let n = doc.actions.len();
    let mut tls = translations;
    let mut out: Vec<(Address, Action)> = Vec::new();
    let mut buffered: Vec<(Address, Action)> = Vec::new();
    let mut cur: Option<Address> = None;
    let mut i: usize = 0;
    proof {
        assert(av.len() == n);
        let st0 = PatchStV {
            cur,
            buffered: pairs_view(buffered@),
            tls: tls_views(tls@),
            out: pairs_view(out@),
        };
        assert(st0 =~= (PatchStV {
            cur: None,
            buffered: Seq::empty(),
            tls: tls0,
            out: Seq::empty(),
        }));
    }
    while i < n
        invariant
            i <= n,
            n == doc.actions@.len(),
            av == doc@.actions,
            spec_patch_from(av, i as int, PatchStV {
                cur,
                buffered: pairs_view(buffered@),
                tls: tls_views(tls@),
                out: pairs_view(out@),
            }) == target,
            tls_small(tls_views(tls@)),
        decreases n - i,
    {
        let ghost stv = PatchStV {
            cur,
            buffered: pairs_view(buffered@),
            tls: tls_views(tls@),
            out: pairs_view(out@),
        };
        proof {
            assert(av[i as int] == (doc.actions@[i as int].0, doc.actions@[i as int].1@));
        }
        let pair = &doc.actions[i];
        let addr = pair.0;
        let a = &pair.1;
        let is_speaker = !a.call && a.opcode == OP_SPEAKER;
        let is_line = !a.call && a.opcode == OP_LINE;
        if is_speaker {
            if cur.is_some() || buffered.len() > 0 {
                return Err(Error::OverlappingWindow(addr.orig));
            }
            let shape_ok = a.export.is_none() && a.params.len() == 1
                && matches!(a.params[0], Parameter::LocalPointer(x) if x == 0);
            if !shape_ok {
                proof {
                    assert(!(a@.export is None && single_local(a@.params) == Some(0u32)));
                }
                return Err(Error::Format);
            }
            proof {
                assert(a@.export is None && single_local(a@.params) == Some(0u32));
            }
            let name = match decode_string(0, &a.data) {
                Ok(s) => s,
                Err(e) => {
                    return Err(e);
                }
            };
            let rep = match speaker_replacement(&name) {
                Some(b) => b,
                None => {
                    return Err(Error::UnknownSpeaker(addr.orig));
                }
            };
            if addr.sub == u32::MAX {
                return Err(Error::Overflow);
            }
            let ghost out0 = pairs_view(out@);
            out.push((addr, Action {
                export: None,
                call: false,
                opcode: a.opcode,
                params: copy_params(&a.params),
                data: rep,
            }));
            cur = Some(Address { orig: addr.orig, sub: addr.sub + 1 });
            proof {
                assert(pairs_view(out@)
                    =~= out0.push((addr, ActionV { data: spec_speaker_replacement(
                        spec_decode_string(0, a@.data)->Ok_0)->Some_0, ..a@ })));
            }
        } else if is_line {
            let v212 = a.params.len() == 1
                && matches!(a.params[0], Parameter::Value(v) if v == 212);
            let lp0 = a.params.len() == 1
                && matches!(a.params[0], Parameter::LocalPointer(x) if x == 0);
            proof {
                if v212 {
                    assert(a@.params =~= seq![Parameter::Value(212u32)]);
                } else {
                    if a@.params == seq![Parameter::Value(212u32)] {
                        assert(a.params@[0] == Parameter::Value(212u32));
                        assert(false);
                    }
                }
                if lp0 {
                    assert(a@.params =~= seq![Parameter::LocalPointer(0u32)]);
                } else {
                    if a@.params == seq![Parameter::LocalPointer(0u32)] {
                        assert(a.params@[0] == Parameter::LocalPointer(0u32));
                        assert(false);
                    }
                }
            }
            if v212 {
                if cur.is_some() {
                    return Err(Error::Format);
                }
                let ghost out0 = pairs_view(out@);
                out.push((addr, a.duplicate()));
                proof {
                    assert(pairs_view(out@) =~= out0.push((addr, a@)));
                }
            } else if lp0 {
                if a.export.is_some() {
                    return Err(Error::Format);
                }
                let ghost buf0 = pairs_view(buffered@);
                buffered.push((addr, a.duplicate()));
                if cur.is_none() {
                    cur = Some(addr);
                }
                proof {
                    assert(pairs_view(buffered@) =~= buf0.push((addr, a@)));
                }
            } else {
                return Err(Error::Format);
            }
        } else if a.opcode == OP_CHOICE {
            let ghost out0 = pairs_view(out@);
            let ghost buf0 = pairs_view(buffered@);
            out.append(&mut buffered);
            out.push((addr, a.duplicate()));
            cur = None;
            proof {
                assert(pairs_view(out@) =~= out0 + buf0 + seq![(addr, a@)]);
                assert(pairs_view(buffered@) =~= Seq::<(Address, ActionV)>::empty());
            }
        } else {
            match cur {
                None => {
                    if buffered.len() > 0 {
                        return Err(Error::Format);
                    }
                    let ghost out0 = pairs_view(out@);
                    out.push((addr, a.duplicate()));
                    proof {
                        assert(pairs_view(out@) =~= out0.push((addr, a@)));
                    }
                }
                Some(wa) => {
                    // find this window's translation, if any
                    let m = tls.len();
                    let mut fi: usize = 0;
                    let mut found = false;
                    while fi < m && !found
                        invariant
                            fi <= m,
                            m == tls@.len(),
                            tls_find_from(tls_views(tls@), wa.orig, 0)
                                == (if found {
                                    fi as int
                                } else {
                                    tls_find_from(tls_views(tls@), wa.orig, fi as int)
                                }),
                            found ==> fi < m && tls_views(tls@)[fi as int].0 == wa.orig,
                        decreases m - fi + (if found { 0int } else { 1int }),
                    {
                        if tls[fi].0 == wa.orig {
                            found = true;
                        } else {
                            fi = fi + 1;
                        }
                    }
                    if !found {
                        proof {
                            assert(tls_find_from(tls_views(tls@), wa.orig, 0) == -1);
                        }
                        let ghost out0 = pairs_view(out@);
                        let ghost buf0 = pairs_view(buffered@);
                        out.append(&mut buffered);
                        out.push((addr, a.duplicate()));
                        cur = None;
                        proof {
                            assert(pairs_view(out@) =~= out0 + buf0 + seq![(addr, a@)]);
                            assert(pairs_view(buffered@)
                                =~= Seq::<(Address, ActionV)>::empty());
                        }
                    } else {
                        let ghost tlsv0 = tls_views(tls@);
                        let entry = tls.remove(fi);
                        let ins = match make_replacement(wa, &entry.1) {
                            Ok(v) => v,
                            Err(e) => {
                                return Err(e);
                            }
                        };
                        buffered.clear();
                        let ghost out0 = pairs_view(out@);
                        let ghost insv = pairs_view(ins@);
                        let mut ins_mut = ins;
                        out.append(&mut ins_mut);
                        out.push((addr, a.duplicate()));
                        cur = None;
                        proof {
                            assert(tls_views(tls@) =~= tlsv0.remove(fi as int));
                            assert(pairs_view(out@) =~= out0 + insv + seq![(addr, a@)]);
                            assert(pairs_view(buffered@)
                                =~= Seq::<(Address, ActionV)>::empty());
                        }
                    }
                }
            }
        }
        i = i + 1;
    }
    if tls.len() > 0 {
        return Err(Error::UnmatchedTranslation(tls[0].0));
    }
    match cur {
        Some(wa) => {
            return Err(Error::UnclosedWindow(wa.orig));
        }
        None => {}
    }
    if buffered.len() > 0 {
        return Err(Error::UnclosedWindow(buffered[0].0.orig));
    }
    let nd = Stcm2 {
        tag: vstd::slice::slice_to_vec(doc.tag.as_slice()),
        global_data: vstd::slice::slice_to_vec(doc.global_data.as_slice()),
        actions: out,
    };
    proof {
        assert(spec_patch(doc@, tls0) == Ok::<Seq<(Address, ActionV)>, Error>(nd@.actions));
    }
    Ok(nd)
}

} // verus!

verus! {

/// The width of the text-carrying tokens from position `i` on: separators
/// are free, everything else pays its display width.
pub open spec fn content_width_from(ts: Seq<Token>, i: int) -> int
    decreases ts.len() - i when 0 <= i
{
    if i >= ts.len() {
        0
    } else {
        (if is_sep(ts[i]) { 0int } else { tok_width(ts[i]) }) + content_width_from(ts, i + 1)
    }
}

/// The summed display width of a run of lines.
pub open spec fn sum_widths(ls: Seq<Seq<Token>>) -> int
    decreases ls.len(),
{
    if ls.len() == 0 {
        0
    } else {
        sum_widths(ls.drop_last()) + line_width(ls.last())
    }
}

proof fn lemma_line_width_nonneg(l: Seq<Token>)
    ensures
        line_width(l) >= 0,
    decreases l.len(),
{
    if l.len() > 0 {
        lemma_line_width_nonneg(l.drop_last());
    }
}

proof fn lemma_sum_widths_le(ls: Seq<Seq<Token>>, max: int)
    requires
        forall|k: int| 0 <= k < ls.len() ==> line_width(#[trigger] ls[k]) <= max,
    ensures
        sum_widths(ls) <= ls.len() * max,
    decreases ls.len(),
{
    if ls.len() > 0 {
        assert(forall|k: int| 0 <= k < ls.drop_last().len()
            ==> line_width(#[trigger] ls.drop_last()[k]) <= max);
        lemma_sum_widths_le(ls.drop_last(), max);
        assert(ls.last() == ls[ls.len() - 1]);
        assert((ls.len() - 1) * max + max == ls.len() * max) by (nonlinear_arith);
    }
}

/// The packer's inductive bounds: every produced line stays within the
/// display width, and together the lines carry at least the text width
/// still to be consumed plus what the state already holds.
proof fn lemma_split_from_bounds(ts: Seq<Token>, i: int, st: SplitSt, max: int)
    requires
        0 <= i <= ts.len(),
        12 <= max,
        st.cur_w == line_width(st.cur),
        0 <= st.cur_w <= max,
        forall|k: int| 0 <= k < st.lines.len() ==> line_width(#[trigger] st.lines[k]) <= max,
    ensures
        ({
            let lines = spec_split_from(ts, i, st, max);
            &&& forall|k: int| 0 <= k < lines.len()
                ==> line_width(#[trigger] lines[k]) <= max
            &&& sum_widths(lines) >= sum_widths(st.lines) + st.cur_w
                + content_width_from(ts, i)
        }),
    decreases ts.len() - i,
{
    if i >= ts.len() {
        if st.cur_w > 0 {
            assert(st.lines.push(st.cur).drop_last() =~= st.lines);
            assert(st.lines.push(st.cur).last() == st.cur);
        }
    } else {
        let t = ts[i];
        if t == Token::Halfwidth(0x20u8) {
            if st.cur_w == 0 {
                lemma_split_from_bounds(ts, i + 1, st, max);
            } else if st.cur_w + 1 + atom_w(ts, i + 1) <= max {
                let st1 = SplitSt { cur: st.cur.push(t), cur_w: st.cur_w + 1, ..st };
                assert(st.cur.push(t).drop_last() =~= st.cur);
                assert(st.cur.push(t).last() == t);
                lemma_atom_w_nonneg(ts, i + 1);
                lemma_split_from_bounds(ts, i + 1, st1, max);
            } else {
                let st1 = SplitSt {
                    lines: st.lines.push(st.cur),
                    cur: Seq::empty(),
                    cur_w: 0,
                    ..st
                };
                assert(forall|k: int| 0 <= k < st1.lines.len()
                    ==> line_width(#[trigger] st1.lines[k]) <= max) by {
                    assert(st.lines.push(st.cur).last() == st.cur);
                    assert(forall|k: int| 0 <= k < st.lines.len()
                        ==> #[trigger] st.lines.push(st.cur)[k] == st.lines[k]);
                }
                lemma_split_from_bounds(ts, i + 1, st1, max);
                assert(st1.lines.drop_last() =~= st.lines);
                assert(st1.lines.last() == st.cur);
            }
        } else {
            if st.cur_w == 0 {
                let st1 = start_line(st, t);
                lemma_start_line(st, t, max);
                lemma_split_from_bounds(ts, i + 1, st1, max);
            } else if st.cur_w + tok_width(t) > max {
                let stf = SplitSt {
                    lines: st.lines.push(st.cur),
                    cur: Seq::empty(),
                    cur_w: 0,
                    ..st
                };
                assert(forall|k: int| 0 <= k < stf.lines.len()
                    ==> line_width(#[trigger] stf.lines[k]) <= max) by {
                    assert(st.lines.push(st.cur).last() == st.cur);
                    assert(forall|k: int| 0 <= k < st.lines.len()
                        ==> #[trigger] st.lines.push(st.cur)[k] == st.lines[k]);
                }
                let st1 = start_line(stf, t);
                lemma_start_line(stf, t, max);
                lemma_split_from_bounds(ts, i + 1, st1, max);
                assert(stf.lines.drop_last() =~= st.lines);
                assert(stf.lines.last() == st.cur);
            } else {
                let st1 = SplitSt {
                    cur: st.cur.push(t),
                    cur_w: st.cur_w + tok_width(t),
                    ..st
                };
                assert(st.cur.push(t).drop_last() =~= st.cur);
                assert(st.cur.push(t).last() == t);
                lemma_split_from_bounds(ts, i + 1, st1, max);
            }
        }
    }
}

proof fn lemma_atom_w_nonneg(ts: Seq<Token>, i: int)
    requires
        0 <= i,
    ensures
        atom_w(ts, i) >= 0,
    decreases ts.len() - i,
{
    if i < ts.len() && ts[i] != Token::Halfwidth(0x20u8) {
        lemma_atom_w_nonneg(ts, i + 1);
    }
}

proof fn lemma_start_line(st: SplitSt, t: Token, max: int)
    requires
        12 <= max,
    ensures
        ({
            let st1 = start_line(st, t);
            &&& st1.cur_w == line_width(st1.cur)
            &&& 0 <= st1.cur_w <= max
            &&& st1.cur_w >= tok_width(t)
            &&& st1.lines == st.lines
        }),
{
    let cur0: Seq<Token> = if st.indent { seq![Token::Fullwidth(0x81u8, 0x40u8)] } else { Seq::empty() };
    assert(line_width(cur0) == (if st.indent { 2int } else { 0int })) by {
        if st.indent {
            assert(cur0.drop_last() =~= Seq::<Token>::empty());
            assert(cur0.last() == Token::Fullwidth(0x81u8, 0x40u8));
            assert(line_width(Seq::<Token>::empty()) == 0);
            assert(line_width(cur0)
                == line_width(cur0.drop_last()) + tok_width(cur0.last()));
        } else {
            assert(line_width(cur0) == 0);
        }
    }
    assert(cur0.push(t).drop_last() =~= cur0);
    assert(cur0.push(t).last() == t);
}

/// Line wrapping: packed at width `max`, every line stays within `max`
/// display units, and the number of lines is enough to carry all the
/// text — so a text of `w` content units needs at least `w / max` lines,
/// rounded up.
pub proof fn lemma_line_wrapping(ts: Seq<Token>, max: int)
    requires
        12 <= max,
    ensures
        ({
            let lines = spec_split_from(ts, 0, split_st_empty(), max);
            &&& forall|k: int| 0 <= k < lines.len()
                ==> line_width(#[trigger] lines[k]) <= max
            &&& lines.len() * max >= content_width_from(ts, 0)
        }),
{
    lemma_split_from_bounds(ts, 0, split_st_empty(), max);
    let lines = spec_split_from(ts, 0, split_st_empty(), max);
    lemma_sum_widths_le(lines, max);
}

} // verus!

verus! {

/// The text-carrying tokens of a run, separators dropped.
pub open spec fn content(ts: Seq<Token>) -> Seq<Token>
    decreases ts.len(),
{
    if ts.len() == 0 {
        Seq::empty()
    } else {
        content(ts.drop_last()) + (if is_sep(ts.last()) {
            Seq::<Token>::empty()
        } else {
            seq![ts.last()]
        })
    }
}

/// The text-carrying tokens from position `i` on, in order.
pub open spec fn content_from(ts: Seq<Token>, i: int) -> Seq<Token>
    decreases ts.len() - i when 0 <= i
{
    if i >= ts.len() {
        Seq::empty()
    } else {
        (if is_sep(ts[i]) { Seq::<Token>::empty() } else { seq![ts[i]] })
            + content_from(ts, i + 1)
    }
}

proof fn lemma_content_add(a: Seq<Token>, b: Seq<Token>)
    ensures
        content(a + b) == content(a) + content(b),
    decreases b.len(),
{
    if b.len() == 0 {
        assert(a + b =~= a);
        assert(content(a) + content(b) =~= content(a));
    } else {
        assert((a + b).drop_last() =~= a + b.drop_last());
        assert((a + b).last() == b.last());
        lemma_content_add(a, b.drop_last());
        assert(content(a) + (content(b.drop_last()) + (if is_sep(b.last()) {
            Seq::<Token>::empty()
        } else {
            seq![b.last()]
        })) =~= (content(a) + content(b.drop_last())) + (if is_sep(b.last()) {
            Seq::<Token>::empty()
        } else {
            seq![b.last()]
        }));
    }
}

proof fn lemma_width_zero(l: Seq<Token>)
    requires
        line_width(l) == 0,
    ensures
        l == Seq::<Token>::empty(),
        content(l) == Seq::<Token>::empty(),
    decreases l.len(),
{
    if l.len() > 0 {
        lemma_line_width_nonneg(l.drop_last());
        assert(tok_width(l.last()) >= 1);
        assert(false);
    }
    assert(l =~= Seq::<Token>::empty());
}

/// The packer keeps the text: what its output lines carry, separators and
/// indentation dropped, is what the state and the rest of the input carry.
#[verifier::rlimit(100)]
proof fn lemma_split_from_content(ts: Seq<Token>, i: int, st: SplitSt, max: int)
    requires
        0 <= i <= ts.len(),
        12 <= max,
        st.cur_w == line_width(st.cur),
        0 <= st.cur_w <= max,
    ensures
        content(flatten_lines(spec_split_from(ts, i, st, max)))
            == content(flatten_lines(st.lines)) + content(st.cur) + content_from(ts, i),
    decreases ts.len() - i,
{
    if i >= ts.len() {
        if st.cur_w > 0 {
            assert(st.lines.push(st.cur).drop_last() =~= st.lines);
            assert(st.lines.push(st.cur).last() == st.cur);
            lemma_content_add(flatten_lines(st.lines), st.cur);
            assert(content(flatten_lines(st.lines)) + content(st.cur)
                + content_from(ts, i)
                =~= content(flatten_lines(st.lines)) + content(st.cur));
        } else {
            lemma_width_zero(st.cur);
            assert(content(flatten_lines(st.lines)) + content(st.cur)
                + content_from(ts, i) =~= content(flatten_lines(st.lines)));
        }
    } else {
        let t = ts[i];
        if t == Token::Halfwidth(0x20u8) {
            assert(is_sep(t));
            assert(content_from(ts, i) =~= content_from(ts, i + 1));
            if st.cur_w == 0 {
                lemma_split_from_content(ts, i + 1, st, max);
            } else if st.cur_w + 1 + atom_w(ts, i + 1) <= max {
                let st1 = SplitSt { cur: st.cur.push(t), cur_w: st.cur_w + 1, ..st };
                assert(st.cur.push(t).drop_last() =~= st.cur);
                assert(st.cur.push(t).last() == t);
                lemma_atom_w_nonneg(ts, i + 1);
                lemma_split_from_content(ts, i + 1, st1, max);
                assert(content(st1.cur) =~= content(st.cur));
            } else {
                let st1 = SplitSt {
                    lines: st.lines.push(st.cur),
                    cur: Seq::empty(),
                    cur_w: 0,
                    ..st
                };
                lemma_split_from_content(ts, i + 1, st1, max);
                assert(st1.lines.drop_last() =~= st.lines);
                assert(st1.lines.last() == st.cur);
                lemma_content_add(flatten_lines(st.lines), st.cur);
                assert(content(Seq::<Token>::empty()) =~= Seq::<Token>::empty());
                assert(content(flatten_lines(st.lines)) + content(st.cur)
                    + Seq::<Token>::empty() + content_from(ts, i + 1)
                    =~= content(flatten_lines(st.lines)) + content(st.cur)
                        + content_from(ts, i + 1));
            }
        } else {
            let ghost tc: Seq<Token> = if is_sep(t) { Seq::empty() } else { seq![t] };
            assert(content_from(ts, i) =~= tc + content_from(ts, i + 1));
            if st.cur_w == 0 {
                let st1 = start_line(st, t);
                lemma_start_line(st, t, max);
                lemma_width_zero(st.cur);
                lemma_split_from_content(ts, i + 1, st1, max);
                assert(content(st1.cur) =~= tc) by {
                    let cur0: Seq<Token> = if st.indent {
                        seq![Token::Fullwidth(0x81u8, 0x40u8)]
                    } else {
                        Seq::empty()
                    };
                    reveal_with_fuel(content, 3);
                    assert(cur0.push(t).drop_last() =~= cur0);
                    assert(cur0.push(t).last() == t);
                    if st.indent {
                        assert(cur0.drop_last() =~= Seq::<Token>::empty());
                        assert(is_sep(cur0.last()));
                        assert(content(cur0) =~= Seq::<Token>::empty());
                    } else {
                        assert(cur0 =~= Seq::<Token>::empty());
                        assert(content(cur0) =~= Seq::<Token>::empty());
                    }
                }
                assert(content(flatten_lines(st.lines)) + tc + content_from(ts, i + 1)
                    =~= content(flatten_lines(st.lines)) + content(st.cur)
                        + (tc + content_from(ts, i + 1)));
            } else if st.cur_w + tok_width(t) > max {
                let stf = SplitSt {
                    lines: st.lines.push(st.cur),
                    cur: Seq::empty(),
                    cur_w: 0,
                    ..st
                };
                let st1 = start_line(stf, t);
                lemma_start_line(stf, t, max);
                lemma_split_from_content(ts, i + 1, st1, max);
                assert(stf.lines.drop_last() =~= st.lines);
                assert(stf.lines.last() == st.cur);
                lemma_content_add(flatten_lines(st.lines), st.cur);
                assert(content(st1.cur) =~= tc) by {
                    let cur0: Seq<Token> = if stf.indent {
                        seq![Token::Fullwidth(0x81u8, 0x40u8)]
                    } else {
                        Seq::empty()
                    };
                    reveal_with_fuel(content, 3);
                    assert(cur0.push(t).drop_last() =~= cur0);
                    assert(cur0.push(t).last() == t);
                    if stf.indent {
                        assert(cur0.drop_last() =~= Seq::<Token>::empty());
                        assert(is_sep(cur0.last()));
                        assert(content(cur0) =~= Seq::<Token>::empty());
                    } else {
                        assert(cur0 =~= Seq::<Token>::empty());
                        assert(content(cur0) =~= Seq::<Token>::empty());
                    }
                }
                assert((content(flatten_lines(st.lines)) + content(st.cur))
                    + tc + content_from(ts, i + 1)
                    =~= content(flatten_lines(st.lines)) + content(st.cur)
                        + (tc + content_from(ts, i + 1)));
            } else {
                let st1 = SplitSt {
                    cur: st.cur.push(t),
                    cur_w: st.cur_w + tok_width(t),
                    ..st
                };
                assert(st.cur.push(t).drop_last() =~= st.cur);
                assert(st.cur.push(t).last() == t);
                lemma_split_from_content(ts, i + 1, st1, max);
                assert(content(st1.cur) =~= content(st.cur) + tc);
                assert(content(flatten_lines(st.lines)) + (content(st.cur) + tc)
                    + content_from(ts, i + 1)
                    =~= content(flatten_lines(st.lines)) + content(st.cur)
                        + (tc + content_from(ts, i + 1)));
            }
        }
    }
}

/// Line wrapping keeps the text: joined back together, the packed lines
/// carry exactly the input's text-carrying tokens, in order — only
/// break-point spaces and inserted indentation differ.
pub proof fn lemma_wrap_content(ts: Seq<Token>, max: int)
    requires
        12 <= max,
    ensures
        content(flatten_lines(spec_split_from(ts, 0, split_st_empty(), max)))
            == content_from(ts, 0),
{
    lemma_split_from_content(ts, 0, split_st_empty(), max);
    assert(content(flatten_lines(Seq::<Seq<Token>>::empty()))
        =~= Seq::<Token>::empty());
    assert(content(Seq::<Token>::empty()) =~= Seq::<Token>::empty());
    assert(content(flatten_lines(Seq::<Seq<Token>>::empty()))
        + content(Seq::<Token>::empty()) + content_from(ts, 0)
        =~= content_from(ts, 0));
}

} // verus!

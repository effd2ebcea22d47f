//! How the text typed into a box is read as an object: the grammar of box
//! text up to the numeric arguments that are floating point.
//!
//! The text is trimmed and one pair of surrounding brackets is removed. Its
//! first word names the object; the second word, where the object takes
//! one, is its argument.

use vstd::prelude::*;

use crate::labels::{parse_delay_hex, parse_unsigned, spec_parse_delay_hex, spec_parse_unsigned, spec_strip_brackets};
use crate::objects::ObjectTag;
use crate::text::{chars_of, is_whitespace, is_ws, trim, trim_bounds};

verus! {

broadcast use vstd::string::group_string_axioms;

/// The first position at or after `i` that is not whitespace (or the end).
pub open spec fn skip_ws(s: Seq<char>, i: int) -> int
    decreases s.len() - i,
{
    if 0 <= i < s.len() && is_ws(s[i]) {
        skip_ws(s, i + 1)
    } else {
        i
    }
}

/// The first position at or after `i` that is whitespace (or the end).
pub open spec fn word_end(s: Seq<char>, i: int) -> int
    decreases s.len() - i,
{
    if 0 <= i < s.len() && !is_ws(s[i]) {
        word_end(s, i + 1)
    } else {
        i
    }
}

/// The first whitespace-separated word of `s`; empty when `s` is blank.
pub open spec fn first_word(s: Seq<char>) -> Seq<char> {
    let a = skip_ws(s, 0);
    s.subrange(a, word_end(s, a))
}

/// The second whitespace-separated word of `s`, if there is one.
pub open spec fn second_word(s: Seq<char>) -> Option<Seq<char>> {
    let b = skip_ws(s, word_end(s, skip_ws(s, 0)));
    if b < s.len() {
        Some(s.subrange(b, word_end(s, b)))
    } else {
        None
    }
}

proof fn lemma_skip_ws(s: Seq<char>, i: int)
    requires
        0 <= i <= s.len(),
    ensures
        i <= skip_ws(s, i) <= s.len(),
        skip_ws(s, i) < s.len() ==> !is_ws(s[skip_ws(s, i)]),
    decreases s.len() - i,
{
    if i < s.len() && is_ws(s[i]) {
        lemma_skip_ws(s, i + 1);
    }
}

proof fn lemma_word_end(s: Seq<char>, i: int)
    requires
        0 <= i <= s.len(),
    ensures
        i <= word_end(s, i) <= s.len(),
    decreases s.len() - i,
{
    if i < s.len() && !is_ws(s[i]) {
        lemma_word_end(s, i + 1);
    }
}

fn skip_ws_exec(cs: &Vec<char>, i: usize) -> (r: usize)
    requires
        i <= cs@.len(),
    ensures
        r == skip_ws(cs@, i as int),
{
    let mut k = i;
    while k < cs.len() && is_whitespace(cs[k])
        invariant
            i <= k <= cs@.len(),
            skip_ws(cs@, i as int) == skip_ws(cs@, k as int),
        decreases cs@.len() - k,
    {
        k = k + 1;
    }
    k
}

fn word_end_exec(cs: &Vec<char>, i: usize) -> (r: usize)
    requires
        i <= cs@.len(),
    ensures
        r == word_end(cs@, i as int),
{
    let mut k = i;
    while k < cs.len() && !is_whitespace(cs[k])
        invariant
            i <= k <= cs@.len(),
            word_end(cs@, i as int) == word_end(cs@, k as int),
        decreases cs@.len() - k,
    {
        k = k + 1;
    }
    k
}

/// `i32::from_str`: an optional sign, then at least one decimal digit, the
/// value within the range of `i32`.
pub open spec fn spec_parse_i32(t: Seq<char>) -> Option<i32> {
    if t.len() > 0 && t[0] == '-' {
        let d = t.drop_first();
        if d.len() > 0 && d[0] == '+' {
            None
        } else {
            match spec_parse_unsigned(d, 10, 0x8000_0000) {
                Some(v) => Some((0 - v) as i32),
                None => None,
            }
        }
    } else {
        match spec_parse_unsigned(t, 10, 0x7fff_ffff) {
            Some(v) => Some(v as i32),
            None => None,
        }
    }
}

/// Reads `cs[lo..hi]` as an `i32` (see [`spec_parse_i32`]).
fn parse_i32(cs: &Vec<char>, lo: usize, hi: usize) -> (r: Option<i32>)
    requires
        lo <= hi <= cs@.len(),
    ensures
        r == spec_parse_i32(cs@.subrange(lo as int, hi as int)),
{
    let mut w: Vec<char> = Vec::new();
    let mut k = lo;
    while k < hi
        invariant
            lo <= k <= hi <= cs@.len(),
            w@ == cs@.subrange(lo as int, k as int),
        decreases hi - k,
    {
        w.push(cs[k]);
        k = k + 1;
    }
    let ghost t = cs@.subrange(lo as int, hi as int);
    if w.len() > 0 && w[0] == '-' {
        assert(w@.skip(1) =~= t.drop_first());
        if w.len() > 1 && w[1] == '+' {
            return None;
        }
        match parse_unsigned(&w, 1, 10, 0x8000_0000) {
            Some(v) => {
                let neg: i64 = 0 - (v as i64);
                Some(neg as i32)
            },
            None => None,
        }
    } else {
        assert(w@.skip(0) =~= t);
        match parse_unsigned(&w, 0, 10, 0x7fff_ffff) {
            Some(v) => Some(v as i32),
            None => None,
        }
    }
}

/// The object that a first word names, if any.
pub open spec fn spec_word_tag(w: Seq<char>) -> Option<ObjectTag> {
    if w == "osc~"@ {
        Some(ObjectTag::OscTilde)
    } else if w == "+~"@ {
        Some(ObjectTag::PlusTilde)
    } else if w == "*~"@ {
        Some(ObjectTag::MulTilde)
    } else if w == "dac~"@ {
        Some(ObjectTag::DacTilde)
    } else if w == "in"@ {
        Some(ObjectTag::In)
    } else if w == "param"@ {
        Some(ObjectTag::Param)
    } else if w == "out"@ {
        Some(ObjectTag::Out)
    } else if w == "delay_in"@ {
        Some(ObjectTag::DelayIn)
    } else if w == "delay_out"@ {
        Some(ObjectTag::DelayOut)
    } else if w == "send"@ {
        Some(ObjectTag::Send)
    } else if w == "receive"@ {
        Some(ObjectTag::Receive)
    } else if w == "combine"@ {
        Some(ObjectTag::Combine)
    } else if w == "metro"@ {
        Some(ObjectTag::Metro)
    } else if w == "random"@ {
        Some(ObjectTag::Random)
    } else {
        None
    }
}

/// Whether `cs[lo..hi]` spells `lit`.
fn spells(cs: &Vec<char>, lo: usize, hi: usize, lit: &str) -> (r: bool)
    requires
        lo <= hi <= cs@.len(),
    ensures
        r == (cs@.subrange(lo as int, hi as int) == lit@),
{
    let l = chars_of(lit);
    if hi - lo != l.len() {
        return false;
    }
    let mut k: usize = 0;
    while k < l.len()
        invariant
            hi - lo == l@.len(),
            lo <= hi <= cs@.len(),
            k <= l@.len(),
            l@ == lit@,
            forall|j: int| 0 <= j < k ==> cs@[lo + j] == l@[j],
        decreases l@.len() - k,
    {
        if cs[lo + k] != l[k] {
            assert(cs@.subrange(lo as int, hi as int)[k as int] != lit@[k as int]);
            return false;
        }
        k = k + 1;
    }
    assert(cs@.subrange(lo as int, hi as int) =~= lit@);
    true
}

fn word_tag(cs: &Vec<char>, lo: usize, hi: usize) -> (r: Option<ObjectTag>)
    requires
        lo <= hi <= cs@.len(),
    ensures
        r == spec_word_tag(cs@.subrange(lo as int, hi as int)),
{
    if spells(cs, lo, hi, "osc~") {
        Some(ObjectTag::OscTilde)
    } else if spells(cs, lo, hi, "+~") {
        Some(ObjectTag::PlusTilde)
    } else if spells(cs, lo, hi, "*~") {
        Some(ObjectTag::MulTilde)
    } else if spells(cs, lo, hi, "dac~") {
        Some(ObjectTag::DacTilde)
    } else if spells(cs, lo, hi, "in") {
        Some(ObjectTag::In)
    } else if spells(cs, lo, hi, "param") {
        Some(ObjectTag::Param)
    } else if spells(cs, lo, hi, "out") {
        Some(ObjectTag::Out)
    } else if spells(cs, lo, hi, "delay_in") {
        Some(ObjectTag::DelayIn)
    } else if spells(cs, lo, hi, "delay_out") {
        Some(ObjectTag::DelayOut)
    } else if spells(cs, lo, hi, "send") {
        Some(ObjectTag::Send)
    } else if spells(cs, lo, hi, "receive") {
        Some(ObjectTag::Receive)
    } else if spells(cs, lo, hi, "combine") {
        Some(ObjectTag::Combine)
    } else if spells(cs, lo, hi, "metro") {
        Some(ObjectTag::Metro)
    } else if spells(cs, lo, hi, "random") {
        Some(ObjectTag::Random)
    } else {
        None
    }
}

/// Box text read up to its floating-point arguments.
#[derive(Clone, Debug)]
pub enum ObjectHead {
    /// Blank text (after trimming and removing brackets): an empty message.
    Empty,
    /// An object without arguments (`+~`, `*~`, `dac~`, `in`, `param`,
    /// `out`, `combine`).
    Plain(ObjectTag),
    /// A delay or signal object with the id its second word gives.
    Signal { tag: ObjectTag, id: Option<u8> },
    /// `random` with its maximum: the second word as an `i32`, else 100.
    Random { max: i32 },
    /// `osc~` or `metro` with its second word, which the caller reads as a
    /// floating-point number.
    FloatArg { tag: ObjectTag, arg: Option<String> },
    /// Any other text: its first word, whether that is the only word, and
    /// the whole text. It is a number box when the word is a floating-point
    /// number and alone, else a message.
    Other { word: String, single: bool, text: String },
}

/// What [`ObjectHead`] holds, with its strings as character sequences.
pub enum HeadView {
    Empty,
    Plain(ObjectTag),
    Signal { tag: ObjectTag, id: Option<u8> },
    Random { max: i32 },
    FloatArg { tag: ObjectTag, arg: Option<Seq<char>> },
    Other { word: Seq<char>, single: bool, text: Seq<char> },
}

impl View for ObjectHead {
    type V = HeadView;

    open spec fn view(&self) -> HeadView {
        match self {
            ObjectHead::Empty => HeadView::Empty,
            ObjectHead::Plain(t) => HeadView::Plain(*t),
            ObjectHead::Signal { tag, id } => HeadView::Signal { tag: *tag, id: *id },
            ObjectHead::Random { max } => HeadView::Random { max: *max },
            ObjectHead::FloatArg { tag, arg } => HeadView::FloatArg {
                tag: *tag,
                arg: match arg {
                    Some(a) => Some(a@),
                    None => None,
                },
            },
            ObjectHead::Other { word, single, text } => HeadView::Other {
                word: word@,
                single: *single,
                text: text@,
            },
        }
    }
}

/// The text of a box once trimmed and stripped of one pair of brackets.
pub open spec fn box_body(text: Seq<char>) -> Seq<char> {
    spec_strip_brackets(trim(text))
}

/// How box text reads (see [`ObjectHead`]).
pub open spec fn spec_object_head(text: Seq<char>) -> HeadView {
    let s = box_body(text);
    let w = first_word(s);
    let arg = second_word(s);
    if s.len() == 0 {
        HeadView::Empty
    } else {
        match spec_word_tag(w) {
            Some(ObjectTag::OscTilde) => HeadView::FloatArg { tag: ObjectTag::OscTilde, arg },
            Some(ObjectTag::Metro) => HeadView::FloatArg { tag: ObjectTag::Metro, arg },
            Some(ObjectTag::Random) => HeadView::Random {
                max: match arg {
                    Some(a) => match spec_parse_i32(a) {
                        Some(v) => v,
                        None => 100,
                    },
                    None => 100,
                },
            },
            Some(ObjectTag::DelayIn) => HeadView::Signal { tag: ObjectTag::DelayIn, id: spec_parse_delay_hex(arg) },
            Some(ObjectTag::DelayOut) => HeadView::Signal { tag: ObjectTag::DelayOut, id: spec_parse_delay_hex(arg) },
            Some(ObjectTag::Send) => HeadView::Signal { tag: ObjectTag::Send, id: spec_parse_delay_hex(arg) },
            Some(ObjectTag::Receive) => HeadView::Signal { tag: ObjectTag::Receive, id: spec_parse_delay_hex(arg) },
            Some(t) => HeadView::Plain(t),
            None => HeadView::Other { word: w, single: arg is None, text: s },
        }
    }
}

/// The characters of the box body of `text`, and where they start in it.
fn body_chars(text: &str) -> (r: (Vec<char>, usize))
    ensures
        r.0@ == box_body(text@),
        r.1 + r.0@.len() <= text@.len(),
        r.1 + r.0@.len() <= usize::MAX,
        text@.subrange(r.1 as int, r.1 + r.0@.len()) == r.0@,
{
    let cs = chars_of(text);
    let n = cs.len();
    let (a, b) = trim_bounds(&cs, 0, n);
    assert(cs@.subrange(0, n as int) =~= cs@);
    let (lo, hi) = if b - a >= 2 && cs[a] == '[' && cs[b - 1] == ']' {
        (a + 1, b - 1)
    } else {
        (a, b)
    };
    assert(cs@.subrange(lo as int, hi as int) =~= box_body(text@));
    let mut st: Vec<char> = Vec::new();
    let mut k = lo;
    while k < hi
        invariant
            lo <= k <= hi <= cs@.len(),
            st@ == cs@.subrange(lo as int, k as int),
        decreases hi - k,
    {
        st.push(cs[k]);
        k = k + 1;
    }
    (st, lo)
}

/// Where the first two words of `s` begin and end.
fn word_bounds(st: &Vec<char>) -> (r: (usize, usize, usize, usize))
    ensures
        r.0 <= r.1 <= r.2 <= r.3 <= st@.len(),
        first_word(st@) == st@.subrange(r.0 as int, r.1 as int),
        second_word(st@) == (if r.2 < st@.len() {
            Some(st@.subrange(r.2 as int, r.3 as int))
        } else {
            None::<Seq<char>>
        }),
{
    let ghost s = st@;
    let w0 = skip_ws_exec(st, 0);
    proof {
        lemma_skip_ws(s, 0);
    }
    let w1 = word_end_exec(st, w0);
    proof {
        lemma_word_end(s, w0 as int);
    }
    let a0 = skip_ws_exec(st, w1);
    proof {
        lemma_skip_ws(s, w1 as int);
    }
    let a1 = word_end_exec(st, a0);
    proof {
        lemma_word_end(s, a0 as int);
    }
    (w0, w1, a0, a1)
}

fn random_max(st: &Vec<char>, a0: usize, a1: usize) -> (m: i32)
    requires
        a0 <= a1 <= st@.len(),
    ensures
        m == (if a0 < st@.len() {
            match spec_parse_i32(st@.subrange(a0 as int, a1 as int)) {
                Some(v) => v,
                None => 100,
            }
        } else {
            100
        }),
{
    if a0 < st.len() {
        match parse_i32(st, a0, a1) {
            Some(v) => v,
            None => 100,
        }
    } else {
        100
    }
}

/// Reads box text: trims it, removes one pair of surrounding brackets, and
/// reads the first word as the object's name and the second as its argument.
pub fn parse_object_head(text: &str) -> (r: ObjectHead)
    ensures
        r@ == spec_object_head(text@),
{
    let (st, lo) = body_chars(text);
    if st.len() == 0 {
        return ObjectHead::Empty;
    }
    let ghost s = st@;
    let (w0, w1, a0, a1) = word_bounds(&st);
    let has_arg = a0 < st.len();
    proof {
        assert(text@.subrange(lo + w0, lo + w1) =~= s.subrange(w0 as int, w1 as int));
        assert(text@.subrange(lo + a0, lo + a1) =~= s.subrange(a0 as int, a1 as int));
        assert(text@.subrange(lo as int, lo + s.len()) == s);
    }
    let tag = word_tag(&st, w0, w1);
    match tag {
        Some(ObjectTag::OscTilde) | Some(ObjectTag::Metro) => {
            let t = match tag {
                Some(x) => x,
                None => ObjectTag::OscTilde,
            };
            let arg = if has_arg {
                Some(text.substring_char(lo + a0, lo + a1).to_owned())
            } else {
                None
            };
            ObjectHead::FloatArg { tag: t, arg }
        },
        Some(ObjectTag::Random) => ObjectHead::Random { max: random_max(&st, a0, a1) },
        Some(ObjectTag::DelayIn) | Some(ObjectTag::DelayOut) | Some(ObjectTag::Send) | Some(
            ObjectTag::Receive,
        ) => {
            let t = match tag {
                Some(x) => x,
                None => ObjectTag::Send,
            };
            let id = if has_arg {
                parse_delay_hex(Some(text.substring_char(lo + a0, lo + a1)))
            } else {
                parse_delay_hex(None)
            };
            ObjectHead::Signal { tag: t, id }
        },
        Some(t) => ObjectHead::Plain(t),
        None => {
            let word = text.substring_char(lo + w0, lo + w1).to_owned();
            let body = text.substring_char(lo, lo + st.len()).to_owned();
            ObjectHead::Other { word, single: !has_arg, text: body }
        },
    }
}

} // verus!

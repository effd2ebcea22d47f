//! Facts about patch objects that do not depend on their numeric arguments:
//! port counts, signal-id labels, export bindings and io numbering.

use vstd::prelude::*;

use crate::export::decimal;

verus! {

broadcast use vstd::string::group_string_axioms;

/// The kind of a patch object, without its arguments.
#[derive(Clone, Copy, Debug, PartialEq, Eq, Structural)]
pub enum ObjectTag {
    OscTilde,
    PlusTilde,
    MulTilde,
    DacTilde,
    Metro,
    Random,
    FloatAtom,
    Message,
    Comment,
    In,
    Param,
    Out,
    DelayIn,
    DelayOut,
    Send,
    Receive,
    Combine,
}

/// Inlets of an object of this kind.
pub open spec fn spec_object_inlets(t: ObjectTag) -> usize {
    match t {
        ObjectTag::Comment | ObjectTag::Receive | ObjectTag::In | ObjectTag::DelayIn => 0,
        ObjectTag::Combine => 2,
        _ => 1,
    }
}

/// Outlets of an object of this kind.
pub open spec fn spec_object_outlets(t: ObjectTag) -> usize {
    match t {
        ObjectTag::Comment | ObjectTag::Send | ObjectTag::Out | ObjectTag::DacTilde => 0,
        _ => 1,
    }
}

pub fn object_inlets(t: ObjectTag) -> (n: usize)
    ensures
        n == spec_object_inlets(t),
{
    match t {
        ObjectTag::Comment | ObjectTag::Receive | ObjectTag::In | ObjectTag::DelayIn => 0,
        ObjectTag::Combine => 2,
        _ => 1,
    }
}

pub fn object_outlets(t: ObjectTag) -> (n: usize)
    ensures
        n == spec_object_outlets(t),
{
    match t {
        ObjectTag::Comment | ObjectTag::Send | ObjectTag::Out | ObjectTag::DacTilde => 0,
        _ => 1,
    }
}

/// The upper-case hexadecimal digit `d` (below 16).
pub open spec fn hex_char(d: int) -> char {
    "0123456789ABCDEF"@[d]
}

/// `kind`, then ` #` and the id as two upper-case hex digits when there is one.
pub open spec fn spec_signal_label(kind: Seq<char>, id: Option<u8>) -> Seq<char> {
    match id {
        Some(h) => kind + " #"@ + seq![hex_char((h / 16) as int), hex_char((h % 16) as int)],
        None => kind,
    }
}

/// The label of a signal / delay object: `send #1F`, or the bare kind.
pub fn signal_label(kind: &str, id: Option<u8>) -> (s: String)
    ensures
        s@ == spec_signal_label(kind@, id),
{
    let mut s = kind.to_owned();
    match id {
        Some(h) => {
            let digits = "0123456789ABCDEF";
            proof {
                reveal_strlit("0123456789ABCDEF");
            }
            let hi = (h / 16) as usize;
            let lo = (h % 16) as usize;
            s.append(" #");
            s.append(digits.substring_char(hi, hi + 1));
            s.append(digits.substring_char(lo, lo + 1));
            assert(digits@.subrange(hi as int, hi + 1) =~= seq![hex_char((h / 16) as int)]);
            assert(digits@.subrange(lo as int, lo + 1) =~= seq![hex_char((h % 16) as int)]);
            assert(s@ =~= spec_signal_label(kind@, id));
        },
        None => {},
    }
    s
}

/// The `:bind` symbol of an io object in an exported patch: `_in_N`,
/// `_out_N` or `_param_N` with `N` its io number (1 when unnumbered).
pub open spec fn spec_lop_bind(t: ObjectTag, io_index: Option<usize>) -> Option<Seq<char>> {
    let n = match io_index {
        Some(i) => i,
        None => 1,
    };
    match t {
        ObjectTag::In => Some("_in_"@ + decimal(n as nat)),
        ObjectTag::Out => Some("_out_"@ + decimal(n as nat)),
        ObjectTag::Param => Some("_param_"@ + decimal(n as nat)),
        _ => None,
    }
}

pub fn lop_bind(t: ObjectTag, io_index: Option<usize>) -> (r: Option<String>)
    ensures
        match spec_lop_bind(t, io_index) {
            Some(b) => r matches Some(s) && s@ == b,
            None => r is None,
        },
{
    let n = match io_index {
        Some(i) => i,
        None => 1,
    };
    let prefix = match t {
        ObjectTag::In => "_in_",
        ObjectTag::Out => "_out_",
        ObjectTag::Param => "_param_",
        _ => {
            return None;
        },
    };
    let mut s = prefix.to_owned();
    s.append(crate::export::decimal_string(n).as_str());
    Some(s)
}

/// Io number of each object: `[in]`, `[out]` and `[param]` objects are
/// numbered from 1 separately, in order; other objects get none.
pub open spec fn io_numbers(tags: Seq<ObjectTag>) -> Seq<Option<usize>>
    decreases tags.len(),
{
    if tags.len() == 0 {
        Seq::empty()
    } else {
        let rest = io_numbers(tags.drop_last());
        let t = tags.last();
        let earlier = tags.drop_last().filter(|x: ObjectTag| x == t).len();
        if t == ObjectTag::In || t == ObjectTag::Out || t == ObjectTag::Param {
            rest.push(Some((earlier + 1) as usize))
        } else {
            rest.push(None)
        }
    }
}

/// Number each io object among the objects in export order.
pub fn io_indices(tags: &[ObjectTag]) -> (r: Vec<Option<usize>>)
    requires
        tags@.len() < usize::MAX,
    ensures
        r@ == io_numbers(tags@),
{
    let mut next_in: usize = 1;
    let mut next_out: usize = 1;
    let mut next_param: usize = 1;
    let mut r: Vec<Option<usize>> = Vec::new();
    let mut i: usize = 0;
    proof {
        reveal_with_fuel(Seq::filter, 1);
        assert(tags@.take(0) =~= Seq::<ObjectTag>::empty());
    }
    while i < tags.len()
        invariant
            0 <= i <= tags@.len(),
            tags@.len() < usize::MAX,
            r@ == io_numbers(tags@.take(i as int)),
            next_in == tags@.take(i as int).filter(|x: ObjectTag| x == ObjectTag::In).len() + 1,
            next_out == tags@.take(i as int).filter(|x: ObjectTag| x == ObjectTag::Out).len() + 1,
            next_param == tags@.take(i as int).filter(|x: ObjectTag| x == ObjectTag::Param).len() + 1,
        decreases tags.len() - i,
    {
        let t = tags[i];
        let ghost pre = tags@.take(i as int);
        proof {
            assert(tags@.take(i + 1) =~= pre.push(t));
            assert(tags@.take(i + 1).drop_last() =~= pre);
            pre.lemma_filter_push(t, |x: ObjectTag| x == ObjectTag::In);
            pre.lemma_filter_push(t, |x: ObjectTag| x == ObjectTag::Out);
            pre.lemma_filter_push(t, |x: ObjectTag| x == ObjectTag::Param);
            pre.lemma_filter_len(|x: ObjectTag| x == ObjectTag::In);
            pre.lemma_filter_len(|x: ObjectTag| x == ObjectTag::Out);
            pre.lemma_filter_len(|x: ObjectTag| x == ObjectTag::Param);
            if t == ObjectTag::In {
                assert((|x: ObjectTag| x == t) =~= (|x: ObjectTag| x == ObjectTag::In));
            } else if t == ObjectTag::Out {
                assert((|x: ObjectTag| x == t) =~= (|x: ObjectTag| x == ObjectTag::Out));
            } else if t == ObjectTag::Param {
                assert((|x: ObjectTag| x == t) =~= (|x: ObjectTag| x == ObjectTag::Param));
            }
        }
        match t {
            ObjectTag::In => {
                r.push(Some(next_in));
                next_in = next_in + 1;
            },
            ObjectTag::Out => {
                r.push(Some(next_out));
                next_out = next_out + 1;
            },
            ObjectTag::Param => {
                r.push(Some(next_param));
                next_param = next_param + 1;
            },
            _ => {
                r.push(None);
            },
        }
        i = i + 1;
    }
    assert(tags@.take(i as int) =~= tags@);
    r
}

} // verus!

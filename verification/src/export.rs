//! Pieces of the `(patch …)` text a patch is saved as: quoted strings, box
//! ids and wire lines.

use vstd::prelude::*;

use crate::labels::{parse_unsigned, spec_parse_unsigned};
use crate::text::chars_of;

verus! {

broadcast use vstd::string::group_string_axioms;

/// One character as it appears inside a quoted string: `\` and `"` escaped
/// with a backslash.
pub open spec fn escape_char(c: char) -> Seq<char> {
    if c == '\\' {
        seq!['\\', '\\']
    } else if c == '"' {
        seq!['\\', '"']
    } else {
        seq![c]
    }
}

/// Every character of `s` escaped.
pub open spec fn escape_lop(s: Seq<char>) -> Seq<char>
    decreases s.len(),
{
    if s.len() == 0 {
        Seq::empty()
    } else {
        escape_lop(s.drop_last()) + escape_char(s.last())
    }
}

/// `s` escaped and wrapped in double quotes.
pub open spec fn spec_quote_lop_string(s: Seq<char>) -> Seq<char> {
    seq!['"'] + escape_lop(s) + seq!['"']
}

/// `text` as a quoted string: `\` becomes `\\`, `"` becomes `\"`, and the
/// whole is wrapped in double quotes.
pub fn quote_lop_string(text: &str) -> (r: String)
    ensures
        r@ == spec_quote_lop_string(text@),
{
    let cs = chars_of(text);
    let n = cs.len();
    let mut out = "\"".to_owned();
    proof {
        reveal_strlit("\"");
        reveal_strlit("\\\\");
        reveal_strlit("\\\"");
        assert(out@ =~= seq!['"']);
        assert(cs@.take(0) =~= Seq::<char>::empty());
    }
    let mut i: usize = 0;
    while i < n
        invariant
            0 <= i <= n,
            n == cs@.len(),
            cs@ == text@,
            out@ == seq!['"'] + escape_lop(cs@.take(i as int)),
        decreases n - i,
    {
        let ghost before = out@;
        assert(cs@.take(i + 1).drop_last() =~= cs@.take(i as int));
        assert(cs@.take(i + 1).last() == cs@[i as int]);
        let c = cs[i];
        if c == '\\' {
            out.append("\\\\");
            proof {
                reveal_strlit("\\\\");
            }
        } else if c == '"' {
            out.append("\\\"");
            proof {
                reveal_strlit("\\\"");
            }
        } else {
            out.append(text.substring_char(i, i + 1));
            assert(text@.subrange(i as int, i + 1) =~= seq![c]);
        }
        i = i + 1;
        assert(out@ =~= seq!['"'] + escape_lop(cs@.take(i as int)));
    }
    assert(cs@.take(n as int) =~= cs@);
    out.append("\"");
    proof {
        reveal_strlit("\"");
    }
    assert(out@ =~= spec_quote_lop_string(text@));
    out
}

/// `"obj-"`, the prefix of numbered box ids.
pub open spec fn obj_prefix() -> Seq<char> {
    seq!['o', 'b', 'j', '-']
}

/// The number in a box id `obj-N`, read as `u64::from_str` reads it.
pub open spec fn spec_box_id_number(id: Seq<char>) -> Option<u64> {
    if id.len() >= 4 && id.take(4) == obj_prefix() {
        match spec_parse_unsigned(id.skip(4), 10, u64::MAX as nat) {
            Some(v) => Some(v as u64),
            None => None,
        }
    } else {
        None
    }
}

/// The number `N` of a box id `obj-N`; `None` for any other id.
pub fn box_id_number(box_id: &str) -> (r: Option<u64>)
    ensures
        r == spec_box_id_number(box_id@),
{
    let cs = chars_of(box_id);
    if cs.len() < 4 || cs[0] != 'o' || cs[1] != 'b' || cs[2] != 'j' || cs[3] != '-' {
        proof {
            if box_id@.len() >= 4 && box_id@.take(4) == obj_prefix() {
                assert(box_id@.take(4)[0] == box_id@[0]);
                assert(box_id@.take(4)[1] == box_id@[1]);
                assert(box_id@.take(4)[2] == box_id@[2]);
                assert(box_id@.take(4)[3] == box_id@[3]);
            }
        }
        return None;
    }
    assert(box_id@.take(4) =~= obj_prefix());
    parse_unsigned(&cs, 4, 10, u64::MAX)
}

/// Decimal digits of `n`, no leading zeros.
pub open spec fn decimal(n: nat) -> Seq<char>
    decreases n,
{
    if n < 10 {
        seq![(('0' as u32) + n) as char]
    } else {
        decimal(n / 10) + seq![(('0' as u32) + n % 10) as char]
    }
}

/// The decimal digits of `n`, without sign or leading zeros, as
/// `usize::to_string` writes them.
pub(crate) fn decimal_string(n: usize) -> (r: String)
    ensures
        r@ == decimal(n as nat),
    decreases n,
{
    let digits = "0123456789";
    proof {
        reveal_strlit("0123456789");
    }
    let d = n % 10;
    let one = digits.substring_char(d, d + 1);
    assert(one@ =~= seq![(('0' as u32) + d) as char]) by {
        assert(digits@[d as int] == (('0' as u32) + d) as char);
    }
    if n < 10 {
        one.to_owned()
    } else {
        let mut s = decimal_string(n / 10);
        s.append(one);
        s
    }
}

/// `(wire wI :from (FROM P) :to (TO Q))`.
pub open spec fn spec_format_wire(
    wire_index: usize,
    from_id: Seq<char>,
    from_port: usize,
    to_id: Seq<char>,
    to_port: usize,
) -> Seq<char> {
    "(wire w"@ + decimal(wire_index as nat) + " :from ("@ + from_id + " "@ + decimal(from_port as nat)
        + ") :to ("@ + to_id + " "@ + decimal(to_port as nat) + "))"@
}

/// The wire line `(wire wI :from (FROM P) :to (TO Q))`.
pub fn format_wire(wire_index: usize, from_id: &str, from_port: usize, to_id: &str, to_port: usize) -> (r:
    String)
    ensures
        r@ == spec_format_wire(wire_index, from_id@, from_port, to_id@, to_port),
{
    let mut out = "(wire w".to_owned();
    out.append(decimal_string(wire_index).as_str());
    out.append(" :from (");
    out.append(from_id);
    out.append(" ");
    out.append(decimal_string(from_port).as_str());
    out.append(") :to (");
    out.append(to_id);
    out.append(" ");
    out.append(decimal_string(to_port).as_str());
    out.append("))");
    out
}

} // verus!

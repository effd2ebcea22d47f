//! Editor state vocabulary and the text side of operator autocomplete.

use vstd::prelude::*;

use vstd::utf8::{encode_utf8, is_char_boundary};

use crate::text::{
    byte_offset, byte_pos, char_index_of_byte, chars_of, is_whitespace, is_ws, lemma_boundary_is_pos,
    lemma_byte_pos_injective, lemma_byte_pos_mono, lemma_byte_pos_step, lemma_encode_append,
    lemma_encode_space, lemma_encode_split, lemma_scalar_len,
};

verus! {

broadcast use vstd::string::group_string_axioms;

/// How cables are drawn.
#[derive(Clone, Copy, Debug, PartialEq, Eq, Structural)]
pub enum CableStyle {
    Bezier,
    RightAngle,
    Straight,
}

impl Default for CableStyle {
    fn default() -> (s: Self)
        ensures
            s == CableStyle::Bezier,
    {
        CableStyle::Bezier
    }
}

/// Editor display and behaviour switches.
#[derive(Clone, Copy, Debug, PartialEq, Eq, Structural)]
pub struct Flags {
    pub snap_to_grid: bool,
    pub cable_style: CableStyle,
    pub show_grid: bool,
    pub direct_cables: bool,
    pub show_cursor: bool,
    pub show_cursor_preview: bool,
    pub grid_connect: bool,
    pub live_sort: bool,
}

impl Default for Flags {
    fn default() -> (f: Self)
        ensures
            f == (Flags {
                snap_to_grid: true,
                cable_style: CableStyle::Bezier,
                show_grid: true,
                direct_cables: true,
                show_cursor: false,
                show_cursor_preview: false,
                grid_connect: false,
                live_sort: true,
            }),
    {
        Flags {
            snap_to_grid: true,
            cable_style: CableStyle::default(),
            show_grid: true,
            direct_cables: true,
            show_cursor: false,
            show_cursor_preview: false,
            grid_connect: false,
            live_sort: true,
        }
    }
}

/// One end of a cable: an outlet or inlet of a node (by node index).
#[derive(Clone, Copy, Debug, PartialEq, Eq, Structural)]
pub enum PortEnd {
    Outlet { node: usize, idx: usize },
    Inlet { node: usize, idx: usize },
}

/// Role of a placeholder box in the column view.
#[derive(Clone, Copy, Debug, PartialEq, Eq, Structural)]
pub enum GhostRole {
    Anchor,
    Stub,
}

/// How a port is highlighted (`Idle`: not at all).
#[derive(Clone, Copy, Debug, PartialEq, Eq, Structural)]
pub enum PortHighlight {
    Idle,
    Hovered,
    Connecting,
    ConnectTarget,
}

/// What the label area of a node reported this frame.
#[derive(Clone, Copy, Debug, PartialEq, Eq, Structural)]
pub struct NodeAreaBody {
    pub clicked_label: bool,
    pub commit_edit: bool,
    pub cancel_edit: bool,
}

impl Default for NodeAreaBody {
    fn default() -> (b: Self)
        ensures
            !b.clicked_label && !b.commit_edit && !b.cancel_edit,
    {
        NodeAreaBody { clicked_label: false, commit_edit: false, cancel_edit: false }
    }
}

/// What the patch canvas reports after a frame (nothing so far).
#[derive(Clone, Copy, Debug, PartialEq, Eq, Structural)]
pub struct PatchCanvasResponse {}

impl Default for PatchCanvasResponse {
    fn default() -> (r: Self) {
        PatchCanvasResponse {  }
    }
}

/// What the autocomplete popup did this frame.
#[derive(Clone, Copy, Debug, PartialEq, Eq, Structural)]
pub struct AutocompleteAction {
    pub applied: bool,
    pub dismiss_popup: bool,
}

/// Installs crash logging; this build records nothing.
pub fn install() {
}

/// Records an event in the crash log; this build records nothing.
pub fn event(msg: &str) {
}

/// Where the crash log would be written: `crash.log`.
pub fn log_path() -> (p: String)
    ensures
        p@ == "crash.log"@,
{
    "crash.log".to_owned()
}

/// Whether the patch gets sorted: only a patch of two or more nodes is
/// rearranged.
pub fn sort_patch(node_count: usize) -> (r: bool)
    ensures
        r == (node_count > 1),
{
    if node_count <= 1 {
        return false;
    }
    true
}

/// Start of the word that ends at character position `cursor`: one past
/// the last whitespace before `cursor`, or 0.
pub open spec fn word_start(s: Seq<char>, cursor: int) -> int
    decreases cursor,
{
    if cursor <= 0 {
        0
    } else if is_ws(s[cursor - 1]) {
        cursor
    } else {
        word_start(s, cursor - 1)
    }
}

/// End of the word that starts at character position `cursor`: the first
/// whitespace at or after `cursor`, or the end.
pub open spec fn word_end(s: Seq<char>, cursor: int) -> int
    decreases s.len() - cursor,
{
    if cursor >= s.len() {
        s.len() as int
    } else if is_ws(s[cursor]) {
        cursor
    } else {
        word_end(s, cursor + 1)
    }
}

/// The cursor clamped to the text: at most its length in UTF-8 bytes.
pub open spec fn clamped_cursor(s: Seq<char>, cursor: int) -> int {
    if cursor < encode_utf8(s).len() {
        cursor
    } else {
        encode_utf8(s).len() as int
    }
}

/// The whitespace-free word around byte offset `cursor` (clamped to the
/// text): its start and end as UTF-8 byte offsets, and its text. The
/// clamped cursor must fall on a character boundary.
pub fn token_at_cursor(text: &str, cursor: usize) -> (r: (usize, usize, &str))
    requires
        encode_utf8(text@).len() <= usize::MAX,
        is_char_boundary(encode_utf8(text@), clamped_cursor(text@, cursor as int)),
    ensures
        forall|k: int|
            0 <= k <= text@.len() && #[trigger] byte_pos(text@, k) == clamped_cursor(text@, cursor as int) ==> {
                &&& r.0 == byte_pos(text@, word_start(text@, k))
                &&& r.1 == byte_pos(text@, word_end(text@, k))
                &&& r.2@ == text@.subrange(word_start(text@, k), word_end(text@, k))
            },
        r.0 <= r.1 <= encode_utf8(text@).len(),
{
    let cs = chars_of(text);
    let n = cs.len();
    let blen = text.len();
    proof {
        lemma_byte_pos_mono(cs@, 0, n as int);
    }
    let c = if cursor < blen {
        cursor
    } else {
        blen
    };
    proof {
        lemma_boundary_is_pos(text@, c as int);
    }
    let k = char_index_of_byte(&cs, c);
    let mut start = k;
    while start > 0 && !is_whitespace(cs[start - 1])
        invariant
            0 <= start <= k <= n,
            n == cs@.len(),
            cs@ == text@,
            word_start(cs@, k as int) == word_start(cs@, start as int),
        decreases start,
    {
        start = start - 1;
    }
    let mut end = k;
    while end < n && !is_whitespace(cs[end])
        invariant
            k <= end <= n,
            n == cs@.len(),
            cs@ == text@,
            word_end(cs@, k as int) == word_end(cs@, end as int),
        decreases n - end,
    {
        end = end + 1;
    }
    let bs = byte_offset(&cs, start);
    let be = byte_offset(&cs, end);
    proof {
        lemma_byte_pos_mono(cs@, start as int, end as int);
        lemma_byte_pos_mono(cs@, end as int, n as int);
        assert forall|k2: int|
            0 <= k2 <= text@.len() && #[trigger] byte_pos(text@, k2) == clamped_cursor(text@, cursor as int) implies k2
            == k by {
            lemma_byte_pos_injective(text@, k2, k as int);
        }
    }
    (bs, be, text.substring_char(start, end))
}

/// The buffer (as UTF-8 bytes) after completing: bytes `[start, end)`
/// replaced by `name`, then a space after the name unless the byte at offset
/// `end` of the new text is already a space.
pub open spec fn spec_apply_completion(b: Seq<u8>, start: int, end: int, name: Seq<u8>) -> Seq<u8> {
    let replaced = b.take(start) + name + b.skip(end);
    let needs_space = end == replaced.len() || replaced[end] != 0x20u8;
    if needs_space {
        replaced.take(start + name.len()) + seq![0x20u8] + replaced.skip(start + name.len())
    } else {
        replaced
    }
}

/// The bytes of `b` with `[start, end)` replaced by `name`.
pub open spec fn replaced_bytes(b: Seq<u8>, start: int, end: int, name: Seq<u8>) -> Seq<u8> {
    b.take(start) + name + b.skip(end)
}

/// Replaces the token at byte offsets `[token_start, token_end)` of
/// `buffer` with `name` and adds a space after it when the text at byte
/// offset `token_end` of the new buffer does not start with one. The offsets
/// must be character boundaries of the buffer, and `token_end` one of the
/// new buffer.
pub fn apply_completion(buffer: &mut String, token_start: usize, token_end: usize, name: &str)
    requires
        token_start <= token_end <= encode_utf8(old(buffer)@).len(),
        is_char_boundary(encode_utf8(old(buffer)@), token_start as int),
        is_char_boundary(encode_utf8(old(buffer)@), token_end as int),
        is_char_boundary(
            replaced_bytes(encode_utf8(old(buffer)@), token_start as int, token_end as int, encode_utf8(name@)),
            token_end as int,
        ),
        encode_utf8(old(buffer)@).len() + encode_utf8(name@).len() + 1 <= usize::MAX,
    ensures
        encode_utf8(final(buffer)@) == spec_apply_completion(
            encode_utf8(old(buffer)@),
            token_start as int,
            token_end as int,
            encode_utf8(name@),
        ),
{
    let ghost b = buffer@;
    let ghost bb = encode_utf8(b);
    let ghost nb = encode_utf8(name@);
    let bcs = chars_of(buffer.as_str());
    proof {
        lemma_boundary_is_pos(b, token_start as int);
        lemma_boundary_is_pos(b, token_end as int);
    }
    let ks = char_index_of_byte(&bcs, token_start);
    let ke = char_index_of_byte(&bcs, token_end);
    proof {
        if ke < ks {
            lemma_byte_pos_mono(b, ke as int, ks as int);
        }
        lemma_encode_split(b, ks as int);
        lemma_encode_split(b, ke as int);
    }
    let total = buffer.unicode_len();
    let mut replaced = buffer.as_str().substring_char(0, ks).to_owned();
    replaced.append(name);
    replaced.append(buffer.as_str().substring_char(ke, total));
    let ghost r = replaced@;
    assert(r =~= b.take(ks as int) + name@ + b.skip(ke as int));
    let ghost rb = replaced_bytes(bb, token_start as int, token_end as int, nb);
    proof {
        lemma_encode_append(b.take(ks as int) + name@, b.skip(ke as int));
        lemma_encode_append(b.take(ks as int), name@);
        assert(encode_utf8(r) =~= rb);
    }
    let rcs = chars_of(replaced.as_str());
    let rn = rcs.len();
    let cut = ks + name.unicode_len();
    proof {
        lemma_byte_pos_mono(r, 0, rn as int);
        assert(r.take(cut as int) =~= b.take(ks as int) + name@);
        lemma_encode_append(b.take(ks as int), name@);
        assert(byte_pos(r, cut as int) == token_start + nb.len());
        lemma_encode_split(r, cut as int);
    }
    let rlen = byte_offset(&rcs, rn);
    let needs_space = if token_end == rlen {
        true
    } else {
        proof {
            lemma_boundary_is_pos(r, token_end as int);
        }
        let kr = char_index_of_byte(&rcs, token_end);
        proof {
            if kr == rn {
                assert(false);
            }
            lemma_byte_pos_step(r, kr as int);
            lemma_scalar_len(r[kr as int]);
        }
        rcs[kr] != ' '
    };
    assert(needs_space == (token_end == rb.len() || rb[token_end as int] != 0x20u8));
    if needs_space {
        let mut spaced = replaced.as_str().substring_char(0, cut).to_owned();
        spaced.append(" ");
        spaced.append(replaced.as_str().substring_char(cut, rn));
        proof {
            reveal_strlit(" ");
            assert(spaced@ =~= r.take(cut as int) + seq![' '] + r.skip(cut as int));
            lemma_encode_append(r.take(cut as int) + seq![' '], r.skip(cut as int));
            lemma_encode_append(r.take(cut as int), seq![' ']);
            lemma_encode_space();
            assert(encode_utf8(spaced@) =~= spec_apply_completion(bb, token_start as int, token_end as int, nb));
        }
        *buffer = spaced;
    } else {
        *buffer = replaced;
    }
}

} // verus!

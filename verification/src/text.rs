//! Character-level helpers: whitespace, trimming, searching, case folding.

use vstd::prelude::*;
use vstd::utf8::{encode_scalar, encode_utf8, is_char_boundary, length_of_first_scalar, pop_first_scalar};

verus! {

broadcast use vstd::string::group_string_axioms;

/// The characters of `s`, in order.
pub fn chars_of(s: &str) -> (r: Vec<char>)
    ensures
        r@ == s@,
{
    let mut r: Vec<char> = Vec::new();
    for c in it: s.chars()
        invariant
            r@ == it.history(),
    {
        r.push(c);
    }
    r
}

/// Unicode `White_Space`, the set `char::is_whitespace` tests.
pub open spec fn is_ws(c: char) -> bool {
    let u = c as u32;
    ||| u == 0x20
    ||| 0x09 <= u <= 0x0d
    ||| u == 0x85
    ||| u == 0xa0
    ||| u == 0x1680
    ||| 0x2000 <= u <= 0x200a
    ||| u == 0x2028
    ||| u == 0x2029
    ||| u == 0x202f
    ||| u == 0x205f
    ||| u == 0x3000
}

pub fn is_whitespace(c: char) -> (r: bool)
    ensures
        r == is_ws(c),
{
    let u = c as u32;
    u == 0x20 || (0x09 <= u && u <= 0x0d) || u == 0x85 || u == 0xa0 || u == 0x1680 || (0x2000 <= u
        && u <= 0x200a) || u == 0x2028 || u == 0x2029 || u == 0x202f || u == 0x205f || u == 0x3000
}

/// `s` without its leading whitespace.
pub open spec fn trim_start(s: Seq<char>) -> Seq<char>
    decreases s.len(),
{
    if s.len() > 0 && is_ws(s[0]) {
        trim_start(s.drop_first())
    } else {
        s
    }
}

/// `s` without its trailing whitespace.
pub open spec fn trim_end(s: Seq<char>) -> Seq<char>
    decreases s.len(),
{
    if s.len() > 0 && is_ws(s.last()) {
        trim_end(s.drop_last())
    } else {
        s
    }
}

/// `s` without leading and trailing whitespace (`str::trim`).
pub open spec fn trim(s: Seq<char>) -> Seq<char> {
    trim_end(trim_start(s))
}

/// Bounds of `cs[lo..hi]` with surrounding whitespace removed.
pub fn trim_bounds(cs: &Vec<char>, lo: usize, hi: usize) -> (r: (usize, usize))
    requires
        lo <= hi <= cs@.len(),
    ensures
        lo <= r.0 <= r.1 <= hi,
        cs@.subrange(r.0 as int, r.1 as int) == trim(cs@.subrange(lo as int, hi as int)),
{
    let mut a = lo;
    while a < hi && is_whitespace(cs[a])
        invariant
            lo <= a <= hi <= cs@.len(),
            trim_start(cs@.subrange(lo as int, hi as int)) == trim_start(cs@.subrange(a as int, hi as int)),
        decreases hi - a,
    {
        assert(cs@.subrange(a as int, hi as int).drop_first() =~= cs@.subrange(a + 1, hi as int));
        a = a + 1;
    }
    assert(trim_start(cs@.subrange(a as int, hi as int)) == cs@.subrange(a as int, hi as int));
    let mut b = hi;
    while b > a && is_whitespace(cs[b - 1])
        invariant
            lo <= a <= b <= hi <= cs@.len(),
            trim_end(cs@.subrange(a as int, hi as int)) == trim_end(cs@.subrange(a as int, b as int)),
        decreases b - a,
    {
        assert(cs@.subrange(a as int, b as int).drop_last() =~= cs@.subrange(a as int, b - 1));
        b = b - 1;
    }
    assert(trim_end(cs@.subrange(a as int, b as int)) == cs@.subrange(a as int, b as int));
    (a, b)
}

/// `pat` occurs in `s` at position `i`.
pub open spec fn matches_at(s: Seq<char>, pat: Seq<char>, i: int) -> bool {
    0 <= i && i + pat.len() <= s.len() && s.subrange(i, i + pat.len()) == pat
}

/// First position at or after `i` where `pat` occurs in `s`.
pub open spec fn find_from(s: Seq<char>, pat: Seq<char>, i: int) -> Option<int>
    decreases s.len() + 1 - i,
{
    if i < 0 || i + pat.len() > s.len() {
        None
    } else if matches_at(s, pat, i) {
        Some(i)
    } else {
        find_from(s, pat, i + 1)
    }
}

/// First position where `pat` occurs in `s` (`str::find`, counted in chars).
pub fn find(cs: &Vec<char>, pat: &Vec<char>) -> (r: Option<usize>)
    ensures
        match find_from(cs@, pat@, 0) {
            Some(i) => r == Some(i as usize),
            None => r is None,
        },
{
    if pat.len() > cs.len() {
        return None;
    }
    let n = cs.len();
    let last = n - pat.len();
    let mut i: usize = 0;
    loop
        invariant
            n == cs@.len(),
            pat@.len() <= cs@.len(),
            last == cs@.len() - pat@.len(),
            i <= last,
            find_from(cs@, pat@, 0) == find_from(cs@, pat@, i as int),
        decreases last - i,
    {
        let mut k: usize = 0;
        let mut same = true;
        while k < pat.len()
            invariant
                0 <= k <= pat@.len(),
                n == cs@.len(),
                pat@.len() <= cs@.len(),
                last == cs@.len() - pat@.len(),
                i <= last,
                same <==> forall|j: int| 0 <= j < k ==> cs@[i + j] == pat@[j],
            decreases pat.len() - k,
        {
            assert(i + k < n);
            if cs[i + k] != pat[k] {
                same = false;
            }
            k = k + 1;
        }
        if same {
            assert(cs@.subrange(i as int, i + pat@.len()) =~= pat@);
            return Some(i);
        }
        assert(!matches_at(cs@, pat@, i as int)) by {
            if matches_at(cs@, pat@, i as int) {
                let j = choose|j: int| 0 <= j < pat@.len() && cs@[i + j] != pat@[j];
                assert(cs@.subrange(i as int, i + pat@.len())[j] == cs@[i + j]);
            }
        }
        if i == last {
            assert(find_from(cs@, pat@, i + 1) is None);
            return None;
        }
        i = i + 1;
    }
}

/// ASCII letters folded to lower case, other characters kept.
pub open spec fn ascii_lower(c: char) -> char {
    if 'A' <= c <= 'Z' {
        ((c as u32) + 32) as char
    } else {
        c
    }
}

/// `str::eq_ignore_ascii_case`.
pub open spec fn eq_ignore_ascii_case(a: Seq<char>, b: Seq<char>) -> bool {
    a.len() == b.len() && forall|i: int| 0 <= i < a.len() ==> ascii_lower(#[trigger] a[i]) == ascii_lower(b[i])
}

pub fn lower_ascii(c: char) -> (r: char)
    ensures
        r == ascii_lower(c),
{
    if 'A' <= c && c <= 'Z' {
        let b = (c as u8) + 32;
        b as char
    } else {
        c
    }
}

/// Whether `cs[lo..hi]` equals `pat` ignoring ASCII case.
pub fn range_eq_ignore_ascii_case(cs: &Vec<char>, lo: usize, hi: usize, pat: &Vec<char>) -> (r: bool)
    requires
        lo <= hi <= cs@.len(),
    ensures
        r == eq_ignore_ascii_case(cs@.subrange(lo as int, hi as int), pat@),
{
    if hi - lo != pat.len() {
        return false;
    }
    let mut k: usize = 0;
    while k < pat.len()
        invariant
            0 <= k <= pat@.len(),
            hi - lo == pat@.len(),
            lo <= hi <= cs@.len(),
            forall|j: int| 0 <= j < k ==> ascii_lower(cs@[lo + j]) == ascii_lower(pat@[j]),
        decreases pat.len() - k,
    {
        if lower_ascii(cs[lo + k]) != lower_ascii(pat[k]) {
            assert(cs@.subrange(lo as int, hi as int)[k as int] == cs@[lo + k]);
            return false;
        }
        k = k + 1;
    }
    assert forall|i: int| 0 <= i < pat@.len() implies ascii_lower(#[trigger] cs@.subrange(lo as int, hi as int)[i])
        == ascii_lower(pat@[i]) by {
        assert(cs@.subrange(lo as int, hi as int)[i] == cs@[lo + i]);
    }
    true
}

/// The UTF-8 byte offset of character position `k` of `s`.
pub open spec fn byte_pos(s: Seq<char>, k: int) -> int {
    encode_utf8(s.take(k)).len() as int
}

/// The encoding of a concatenation is the concatenation of the encodings.
pub proof fn lemma_encode_append(a: Seq<char>, b: Seq<char>)
    ensures
        encode_utf8(a + b) == encode_utf8(a) + encode_utf8(b),
    decreases a.len(),
{
    if a.len() == 0 {
        assert(a + b =~= b);
        assert(encode_utf8(a) =~= Seq::<u8>::empty());
        assert(encode_utf8(a) + encode_utf8(b) =~= encode_utf8(b));
    } else {
        lemma_encode_append(a.drop_first(), b);
        assert((a + b).drop_first() =~= a.drop_first() + b);
        assert((a + b)[0] == a[0]);
        assert(encode_utf8(a + b) =~= encode_scalar(a[0] as u32) + encode_utf8(a.drop_first() + b));
        assert(encode_utf8(a) =~= encode_scalar(a[0] as u32) + encode_utf8(a.drop_first()));
    }
}

/// The bytes of a character: between one and four.
pub proof fn lemma_scalar_len(c: char)
    ensures
        1 <= encode_scalar(c as u32).len() <= 4,
        encode_scalar(c as u32)[0] == 0x20 <==> c == ' ',
{
    let v = c as u32;
    vstd::utf8::char_is_scalar(c);
    if vstd::utf8::has_width_1_encoding(v) {
        assert((v & 0x7F) as u8 == 0x20 <==> v == 0x20) by (bit_vector)
            requires
                v <= 0x7F,
        ;
    } else if vstd::utf8::has_width_2_encoding(v) {
        assert(0xC0 | ((v >> 6) & 0x1F) as u8 != 0x20) by (bit_vector);
    } else if vstd::utf8::has_width_3_encoding(v) {
        assert(0xE0 | ((v >> 12) & 0x0F) as u8 != 0x20) by (bit_vector);
    } else {
        assert(0xF0 | ((v >> 18) & 0x7) as u8 != 0x20) by (bit_vector);
    }
}

/// One character further, the offset grows by that character's bytes.
pub proof fn lemma_byte_pos_step(s: Seq<char>, k: int)
    requires
        0 <= k < s.len(),
    ensures
        byte_pos(s, k + 1) == byte_pos(s, k) + encode_scalar(s[k] as u32).len(),
        byte_pos(s, k) < byte_pos(s, k + 1),
        encode_utf8(s)[byte_pos(s, k)] == encode_scalar(s[k] as u32)[0],
{
    assert(s.take(k + 1) =~= s.take(k) + seq![s[k]]);
    lemma_encode_append(s.take(k), seq![s[k]]);
    assert(seq![s[k]].drop_first() =~= Seq::<char>::empty());
    assert(encode_utf8(seq![s[k]]) =~= encode_scalar(s[k] as u32) + encode_utf8(Seq::<char>::empty()));
    lemma_scalar_len(s[k]);
    assert(s =~= s.take(k) + s.skip(k));
    lemma_encode_append(s.take(k), s.skip(k));
    assert(s.skip(k)[0] == s[k]);
    assert(encode_utf8(s.skip(k)) =~= encode_scalar(s[k] as u32) + encode_utf8(s.skip(k).drop_first()));
}

/// Offsets grow strictly with positions, from 0 to the length of the encoding.
pub proof fn lemma_byte_pos_mono(s: Seq<char>, i: int, j: int)
    requires
        0 <= i <= j <= s.len(),
    ensures
        byte_pos(s, i) <= byte_pos(s, j),
        i < j ==> byte_pos(s, i) < byte_pos(s, j),
        byte_pos(s, 0) == 0,
        byte_pos(s, s.len() as int) == encode_utf8(s).len(),
    decreases j - i,
{
    assert(s.take(0) =~= Seq::<char>::empty());
    assert(s.take(s.len() as int) =~= s);
    if i < j {
        lemma_byte_pos_step(s, j - 1);
        lemma_byte_pos_mono(s, i, j - 1);
    }
}

/// Offsets name positions one to one.
pub proof fn lemma_byte_pos_injective(s: Seq<char>, i: int, j: int)
    requires
        0 <= i <= s.len(),
        0 <= j <= s.len(),
        byte_pos(s, i) == byte_pos(s, j),
    ensures
        i == j,
{
    if i < j {
        lemma_byte_pos_mono(s, i, j);
    } else if j < i {
        lemma_byte_pos_mono(s, j, i);
    }
}

/// A character boundary of the encoding is the offset of some position.
pub proof fn lemma_boundary_is_pos(s: Seq<char>, idx: int)
    requires
        is_char_boundary(encode_utf8(s), idx),
    ensures
        exists|k: int| 0 <= k <= s.len() && #[trigger] byte_pos(s, k) == idx,
    decreases s.len(),
{
    vstd::utf8::encode_utf8_valid_utf8(s);
    let bytes = encode_utf8(s);
    if idx == 0 {
        lemma_byte_pos_mono(s, 0, 0);
        assert(byte_pos(s, 0) == idx);
    } else {
        assert(idx > 0 && idx <= bytes.len());
        assert(s.len() > 0);
        vstd::utf8::encode_utf8_first_scalar(s);
        let rest = s.drop_first();
        assert(pop_first_scalar(bytes) =~= encode_utf8(rest));
        let w = length_of_first_scalar(bytes);
        assert(is_char_boundary(encode_utf8(rest), idx - w));
        lemma_boundary_is_pos(rest, idx - w);
        let k = choose|k: int| 0 <= k <= rest.len() && #[trigger] byte_pos(rest, k) == idx - w;
        assert(s.take(k + 1) =~= seq![s[0]] + rest.take(k));
        lemma_encode_append(seq![s[0]], rest.take(k));
        assert(seq![s[0]].drop_first() =~= Seq::<char>::empty());
        assert(encode_utf8(seq![s[0]]) =~= encode_scalar(s[0] as u32) + encode_utf8(Seq::<char>::empty()));
        assert(byte_pos(s, k + 1) == idx);
    }
}

/// The UTF-8 length of `c`, as `char::len_utf8` gives it.
pub fn char_len_utf8(c: char) -> (r: usize)
    ensures
        r == encode_scalar(c as u32).len(),
{
    proof {
        vstd::utf8::char_is_scalar(c);
    }
    let v = c as u32;
    if v <= 0x7F {
        1
    } else if v <= 0x7FF {
        2
    } else if v <= 0xFFFF {
        3
    } else {
        4
    }
}

/// The byte offset of character position `k` of `cs`.
pub fn byte_offset(cs: &Vec<char>, k: usize) -> (r: usize)
    requires
        k <= cs@.len(),
        encode_utf8(cs@).len() <= usize::MAX,
    ensures
        r == byte_pos(cs@, k as int),
{
    let mut i: usize = 0;
    let mut b: usize = 0;
    proof {
        lemma_byte_pos_mono(cs@, 0, k as int);
    }
    while i < k
        invariant
            i <= k <= cs@.len(),
            b == byte_pos(cs@, i as int),
            encode_utf8(cs@).len() <= usize::MAX,
        decreases k - i,
    {
        proof {
            lemma_byte_pos_step(cs@, i as int);
            lemma_byte_pos_mono(cs@, i as int + 1, cs@.len() as int);
        }
        b = b + char_len_utf8(cs[i]);
        i = i + 1;
    }
    b
}

/// The character position whose byte offset is `b`.
pub fn char_index_of_byte(cs: &Vec<char>, b: usize) -> (k: usize)
    requires
        exists|j: int| 0 <= j <= cs@.len() && #[trigger] byte_pos(cs@, j) == b,
        encode_utf8(cs@).len() <= usize::MAX,
    ensures
        k <= cs@.len(),
        byte_pos(cs@, k as int) == b,
{
    let ghost j = choose|j: int| 0 <= j <= cs@.len() && #[trigger] byte_pos(cs@, j) == b;
    let n = cs.len();
    let mut k: usize = 0;
    let mut pos: usize = 0;
    proof {
        lemma_byte_pos_mono(cs@, 0, j);
    }
    while pos < b
        invariant
            n == cs@.len(),
            k <= j <= cs@.len(),
            pos == byte_pos(cs@, k as int),
            byte_pos(cs@, j) == b,
            encode_utf8(cs@).len() <= usize::MAX,
        decreases j - k,
    {
        proof {
            assert(k < j);
            lemma_byte_pos_step(cs@, k as int);
            lemma_byte_pos_mono(cs@, k as int + 1, j);
        }
        pos = pos + char_len_utf8(cs[k]);
        k = k + 1;
    }
    proof {
        if k < j {
            lemma_byte_pos_mono(cs@, k as int, j);
        }
    }
    k
}

/// Encoding splits where the characters split.
pub proof fn lemma_encode_split(s: Seq<char>, k: int)
    requires
        0 <= k <= s.len(),
    ensures
        encode_utf8(s.take(k)) == encode_utf8(s).take(byte_pos(s, k)),
        encode_utf8(s.skip(k)) == encode_utf8(s).skip(byte_pos(s, k)),
{
    assert(s =~= s.take(k) + s.skip(k));
    lemma_encode_append(s.take(k), s.skip(k));
    let e = encode_utf8(s.take(k)) + encode_utf8(s.skip(k));
    assert(e.take(encode_utf8(s.take(k)).len() as int) =~= encode_utf8(s.take(k)));
    assert(e.skip(encode_utf8(s.take(k)).len() as int) =~= encode_utf8(s.skip(k)));
}

/// A space is the single byte 0x20.
pub proof fn lemma_encode_space()
    ensures
        encode_utf8(seq![' ']) == seq![0x20u8],
{
    let v = ' ' as u32;
    assert(v == 0x20);
    assert((v & 0x7F) as u8 == 0x20u8) by (bit_vector)
        requires
            v == 0x20,
    ;
    assert(seq![' '].drop_first() =~= Seq::<char>::empty());
    assert(encode_utf8(seq![' ']) =~= encode_scalar(v) + encode_utf8(Seq::<char>::empty()));
    assert(encode_utf8(seq![' ']) =~= seq![0x20u8]);
}

} // verus!

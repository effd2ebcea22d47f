//! Box labels and signal ids: bracket stripping, number parsing, and the
//! choice of a free delay / signal id.

use vstd::prelude::*;

use std::collections::HashSet;

use crate::text::chars_of;

verus! {

broadcast use {vstd::std_specs::hash::group_hash_axioms, vstd::string::group_string_axioms};

/// `name` without one pair of surrounding square brackets.
pub open spec fn spec_strip_brackets(s: Seq<char>) -> Seq<char> {
    if s.len() >= 2 && s[0] == '[' && s.last() == ']' {
        s.subrange(1, s.len() - 1)
    } else {
        s
    }
}

/// Removes one pair of surrounding `[` `]`, when both are there.
pub fn strip_brackets(name: &str) -> (r: &str)
    ensures
        r@ == spec_strip_brackets(name@),
{
    let cs = chars_of(name);
    let n = cs.len();
    if n >= 2 && cs[0] == '[' && cs[n - 1] == ']' {
        name.substring_char(1, n - 1)
    } else {
        name
    }
}

/// Value of `c` as a digit in base `radix` (10 or 16).
pub open spec fn digit_value(c: char, radix: nat) -> Option<nat> {
    if '0' <= c <= '9' {
        Some((c as u32 - '0' as u32) as nat)
    } else if radix == 16 && 'a' <= c <= 'f' {
        Some((c as u32 - 'a' as u32 + 10) as nat)
    } else if radix == 16 && 'A' <= c <= 'F' {
        Some((c as u32 - 'A' as u32 + 10) as nat)
    } else {
        None
    }
}

/// Value of the digit string `s` in base `radix`; `None` on a non-digit.
pub open spec fn digits_value(s: Seq<char>, radix: nat) -> Option<nat>
    decreases s.len(),
{
    if s.len() == 0 {
        Some(0)
    } else {
        match (digits_value(s.drop_last(), radix), digit_value(s.last(), radix)) {
            (Some(v), Some(d)) => Some(v * radix + d),
            _ => None,
        }
    }
}

/// `s` without a leading `+`.
pub open spec fn strip_plus(s: Seq<char>) -> Seq<char> {
    if s.len() > 0 && s[0] == '+' {
        s.drop_first()
    } else {
        s
    }
}

/// The value of a non-empty digit string when it is at most `max`.
pub open spec fn digits_within(d: Seq<char>, radix: nat, max: nat) -> Option<nat> {
    if d.len() == 0 {
        None
    } else {
        match digits_value(d, radix) {
            Some(v) => if v <= max {
                Some(v)
            } else {
                None
            },
            None => None,
        }
    }
}

/// `from_str_radix` for an unsigned type whose largest value is `max`: an
/// optional `+`, then at least one digit, the value at most `max`.
pub open spec fn spec_parse_unsigned(s: Seq<char>, radix: nat, max: nat) -> Option<nat> {
    digits_within(strip_plus(s), radix, max)
}

/// A digit string whose prefix already exceeds a bound exceeds it too, or is
/// not a number.
proof fn lemma_digits_prefix(s: Seq<char>, radix: nat, k: int)
    requires
        0 <= k <= s.len(),
        radix >= 1,
    ensures
        digits_value(s, radix) matches Some(v) ==> digits_value(s.take(k), radix) matches Some(
            w,
        ) && w <= v,
    decreases s.len() - k,
{
    if k < s.len() {
        lemma_digits_prefix(s, radix, k + 1);
        let t = s.take(k + 1);
        assert(t.drop_last() =~= s.take(k));
        if digits_value(t, radix) is Some {
            let w = digits_value(s.take(k), radix)->0;
            assert(w * radix >= w) by (nonlinear_arith)
                requires
                    radix >= 1,
            ;
        }
    } else {
        assert(s.take(k) =~= s);
    }
}

fn digit_of(c: char, radix: u32) -> (r: Option<u32>)
    requires
        radix == 10 || radix == 16,
    ensures
        match digit_value(c, radix as nat) {
            Some(d) => r == Some(d as u32),
            None => r is None,
        },
{
    if '0' <= c && c <= '9' {
        Some(c as u32 - '0' as u32)
    } else if radix == 16 && 'a' <= c && c <= 'f' {
        Some(c as u32 - 'a' as u32 + 10)
    } else if radix == 16 && 'A' <= c && c <= 'F' {
        Some(c as u32 - 'A' as u32 + 10)
    } else {
        None
    }
}

/// Parses `cs[lo..]` as an unsigned number in base `radix` (10 or 16) no
/// larger than `max`, as `from_str_radix` does.
pub fn parse_unsigned(cs: &Vec<char>, lo: usize, radix: u32, max: u64) -> (r: Option<u64>)
    requires
        lo <= cs@.len(),
        radix == 10 || radix == 16,
    ensures
        match spec_parse_unsigned(cs@.skip(lo as int), radix as nat, max as nat) {
            Some(v) => r == Some(v as u64),
            None => r is None,
        },
{
    let n = cs.len();
    let ghost s = cs@.skip(lo as int);
    let mut i = lo;
    if i < n && cs[i] == '+' {
        i = i + 1;
    }
    let ghost d = cs@.skip(i as int);
    assert(d =~= strip_plus(s));
    if i == n {
        return None;
    }
    let start = i;
    let mut v: u128 = 0;
    assert(cs@.subrange(start as int, start as int) =~= Seq::<char>::empty());
    while i < n
        invariant
            start <= i <= n,
            n == cs@.len(),
            d == cs@.skip(start as int),
            d.len() > 0,
            spec_parse_unsigned(cs@.skip(lo as int), radix as nat, max as nat) == digits_within(
                d,
                radix as nat,
                max as nat,
            ),
            radix == 10 || radix == 16,
            v <= max,
            digits_value(cs@.subrange(start as int, i as int), radix as nat) == Some(v as nat),
        decreases n - i,
    {
        let ghost p = cs@.subrange(start as int, i as int);
        let ghost q = cs@.subrange(start as int, i + 1);
        assert(q.drop_last() =~= p);
        assert(q.last() == cs@[i as int]);
        match digit_of(cs[i], radix) {
            Some(dg) => {
                assert(v * radix <= (max as int) * 16) by (nonlinear_arith)
                    requires
                        v <= max,
                        radix <= 16,
                ;
                v = v * (radix as u128) + (dg as u128);
                i = i + 1;
                if v > max as u128 {
                    proof {
                        assert(d.take(i - start) =~= q);
                        lemma_digits_prefix(d, radix as nat, i - start);
                    }
                    return None;
                }
            },
            None => {
                proof {
                    assert(d.take(i + 1 - start) =~= q);
                    lemma_digits_prefix(d, radix as nat, i + 1 - start);
                }
                return None;
            },
        }
    }
    assert(cs@.subrange(start as int, n as int) =~= d);
    Some(v as u64)
}

/// The delay / signal id written in a token: an optional `#`, then a
/// hexadecimal `u8` as `u8::from_str_radix(_, 16)` reads it.
pub open spec fn spec_parse_delay_hex(token: Option<Seq<char>>) -> Option<u8> {
    match token {
        None => None,
        Some(t) => {
            let h = if t.len() > 0 && t[0] == '#' {
                t.drop_first()
            } else {
                t
            };
            match spec_parse_unsigned(h, 16, 255) {
                Some(v) => Some(v as u8),
                None => None,
            }
        },
    }
}

/// Reads a delay id such as `#1f` or `1F`; `None` for a missing or malformed
/// token.
pub fn parse_delay_hex(token: Option<&str>) -> (r: Option<u8>)
    ensures
        r == spec_parse_delay_hex(match token {
            Some(t) => Some(t@),
            None => None,
        }),
{
    let token = match token {
        Some(t) => t,
        None => {
            return None;
        },
    };
    let cs = chars_of(token);
    let lo: usize = if cs.len() > 0 && cs[0] == '#' {
        1
    } else {
        0
    };
    assert(cs@.skip(lo as int) =~= (if token@.len() > 0 && token@[0] == '#' {
        token@.drop_first()
    } else {
        token@
    }));
    match parse_unsigned(&cs, lo, 16, 255) {
        Some(v) => Some(v as u8),
        None => None,
    }
}

/// One step of the linear congruential generator.
pub open spec fn lcg_next(s: u64) -> u64 {
    s.wrapping_mul(1_103_515_245u64).wrapping_add(12_345u64)
}

/// The id a generator state proposes: bits 16..24 of the state.
pub open spec fn lcg_id(s: u64) -> u8 {
    (s >> 16u64) as u8
}

/// The first proposed id not in `used`, within `tries` steps from `seed`.
pub open spec fn lcg_pick(seed: u64, used: Set<u8>, tries: nat) -> Option<u8>
    decreases tries,
{
    if tries == 0 {
        None
    } else {
        let s = lcg_next(seed);
        if !used.contains(lcg_id(s)) {
            Some(lcg_id(s))
        } else {
            lcg_pick(s, used, (tries - 1) as nat)
        }
    }
}

/// The smallest id from `from` on that is not in `used`; 0 when there is none.
pub open spec fn first_unused(used: Set<u8>, from: nat) -> u8
    decreases 256 - from,
{
    if from > 255 {
        0
    } else if !used.contains(from as u8) {
        from as u8
    } else {
        first_unused(used, from + 1)
    }
}

/// The id chosen from `seed`: the first of 256 generator proposals not in
/// `used`, else the smallest free id, else 0.
pub open spec fn spec_unused_delay_hex(seed: u64, used: Set<u8>) -> u8 {
    match lcg_pick(seed, used, 256) {
        Some(id) => id,
        None => first_unused(used, 0),
    }
}

proof fn lemma_lcg_pick(seed: u64, used: Set<u8>, tries: nat)
    ensures
        lcg_pick(seed, used, tries) matches Some(id) ==> !used.contains(id),
    decreases tries,
{
    if tries > 0 {
        lemma_lcg_pick(lcg_next(seed), used, (tries - 1) as nat);
    }
}

proof fn lemma_first_unused(used: Set<u8>, from: nat, x: u8)
    requires
        from <= x,
        !used.contains(x),
    ensures
        !used.contains(first_unused(used, from)),
    decreases 256 - from,
{
    if from <= 255 && used.contains(from as u8) {
        lemma_first_unused(used, from + 1, x);
    }
}

/// Law: whenever some id is free, the chosen id is free.
pub proof fn lemma_unused_delay_hex_is_free(seed: u64, used: Set<u8>, x: u8)
    requires
        !used.contains(x),
    ensures
        !used.contains(spec_unused_delay_hex(seed, used)),
{
    lemma_lcg_pick(seed, used, 256);
    lemma_first_unused(used, 0, x);
}

/// The id chosen from `seed` (see [`spec_unused_delay_hex`]).
pub fn unused_delay_hex_from_seed(seed: u64, used: &HashSet<u8>) -> (id: u8)
    ensures
        id == spec_unused_delay_hex(seed, used@),
        (exists|x: u8| !used@.contains(x)) ==> !used@.contains(id),
{
    proof {
        if exists|x: u8| !used@.contains(x) {
            let x = choose|x: u8| !used@.contains(x);
            lemma_unused_delay_hex_is_free(seed, used@, x);
        }
    }
    match lcg_search(seed, used) {
        Some(id) => id,
        None => smallest_free(used),
    }
}

fn lcg_search(seed: u64, used: &HashSet<u8>) -> (r: Option<u8>)
    ensures
        r == lcg_pick(seed, used@, 256),
{
    let mut s = seed;
    let mut k: u32 = 0;
    while k < 256
        invariant
            0 <= k <= 256,
            lcg_pick(seed, used@, 256) == lcg_pick(s, used@, (256 - k) as nat),
        decreases 256 - k,
    {
        s = s.wrapping_mul(1_103_515_245).wrapping_add(12_345);
        let id = (s >> 16) as u8;
        if !used.contains(&id) {
            return Some(id);
        }
        k = k + 1;
    }
    None
}

fn smallest_free(used: &HashSet<u8>) -> (r: u8)
    ensures
        r == first_unused(used@, 0),
{
    let mut c: u32 = 0;
    while c <= 255
        invariant
            0 <= c <= 256,
            first_unused(used@, 0) == first_unused(used@, c as nat),
        decreases 256 - c,
    {
        let id = c as u8;
        assert(id == c as nat);
        if !used.contains(&id) {
            return id;
        }
        c = c + 1;
    }
    0
}

/// A seed taken from the clock (nanoseconds since the Unix epoch, truncated
/// to 64 bits; 0 if the clock is before the epoch). Nothing is promised of it.
#[verifier::external_body]
fn clock_seed() -> u64 {
    std::time::SystemTime::now().duration_since(std::time::UNIX_EPOCH).map(
        |d| d.as_nanos() as u64,
    ).unwrap_or(0)
}

/// A delay / signal id not in `used`, drawn from a clock-seeded generator;
/// whichever id comes back, it is free whenever some id is free, and it is 0
/// when all 256 are taken.
pub fn random_unused_delay_hex(used: &HashSet<u8>) -> (id: u8)
    ensures
        (exists|x: u8| !used@.contains(x)) ==> !used@.contains(id),
        (forall|x: u8| used@.contains(x)) ==> id == 0,
{
    let seed = clock_seed();
    let id = unused_delay_hex_from_seed(seed, used);
    proof {
        if forall|x: u8| used@.contains(x) {
            lemma_all_used(seed, used@, 256);
            lemma_all_used_first(used@, 0);
        }
    }
    id
}

proof fn lemma_all_used(seed: u64, used: Set<u8>, tries: nat)
    requires
        forall|x: u8| used.contains(x),
    ensures
        lcg_pick(seed, used, tries) is None,
    decreases tries,
{
    if tries > 0 {
        lemma_all_used(lcg_next(seed), used, (tries - 1) as nat);
    }
}

proof fn lemma_all_used_first(used: Set<u8>, from: nat)
    requires
        forall|x: u8| used.contains(x),
    ensures
        first_unused(used, from) == 0,
    decreases 256 - from,
{
    if from <= 255 {
        lemma_all_used_first(used, from + 1);
    }
}

} // verus!

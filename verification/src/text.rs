//! Character and string helpers the engine's contracts are stated over:
//! ASCII case folding, prefix tests, case-insensitive substring search and
//! decimal rendering of integers.

use vstd::prelude::*;
use vstd::string::*;

verus! {

/// ASCII lower-casing of one character; everything outside `A..=Z` is kept.
pub open spec fn lower_char(c: char) -> char {
    if 65 <= c as u32 && c as u32 <= 90 {
        ((c as u32 + 32) as u8) as char
    } else {
        c
    }
}

/// ASCII lower-casing of a character sequence.
pub open spec fn lower_seq(s: Seq<char>) -> Seq<char> {
    s.map_values(|c: char| lower_char(c))
}

/// Executable ASCII case folding of one character.
pub fn fold_char(c: char) -> (r: char)
    ensures
        r == lower_char(c),
{
    let u = c as u32;
    if 65 <= u && u <= 90 {
        ((u + 32) as u8) as char
    } else {
        c
    }
}

/// `p` is a prefix of `s`.
pub open spec fn has_prefix(s: Seq<char>, p: Seq<char>) -> bool {
    p.len() <= s.len() && s.subrange(0, p.len() as int) == p
}

proof fn lemma_prefix_pointwise(s: Seq<char>, p: Seq<char>)
    requires
        p.len() <= s.len(),
        forall|j: int| 0 <= j < p.len() ==> s[j] == p[j],
    ensures
        has_prefix(s, p),
{
    assert(s.subrange(0, p.len() as int) =~= p);
}

/// Whether the string `s` begins with the string `p`.
pub fn str_has_prefix(s: &str, p: &str) -> (r: bool)
    ensures
        r == has_prefix(s@, p@),
{
    let sl = s.unicode_len();
    let pl = p.unicode_len();
    if pl > sl {
        return false;
    }
    let mut j: usize = 0;
    while j < pl
        invariant
            sl == s@.len(),
            pl == p@.len(),
            pl <= sl,
            j <= pl,
            forall|k: int| 0 <= k < j ==> s@[k] == p@[k],
        decreases pl - j,
    {
        if s.get_char(j) != p.get_char(j) {
            assert(s@.subrange(0, p@.len() as int)[j as int] != p@[j as int]);
            return false;
        }
        j += 1;
    }
    proof {
        lemma_prefix_pointwise(s@, p@);
    }
    true
}

/// A case-insensitive occurrence of `needle` inside `hay` at position `i`.
pub open spec fn match_at(hay: Seq<char>, needle: Seq<char>, i: int) -> bool {
    &&& 0 <= i
    &&& i + needle.len() <= hay.len()
    &&& lower_seq(hay.subrange(i, i + needle.len())) == lower_seq(needle)
}

/// `hay` contains `needle` somewhere, compared ASCII-case-insensitively.
pub open spec fn contains_ci(hay: Seq<char>, needle: Seq<char>) -> bool {
    exists|i: int| match_at(hay, needle, i)
}

proof fn lemma_match_at_pointwise(hay: Seq<char>, needle: Seq<char>, i: int)
    requires
        0 <= i,
        i + needle.len() <= hay.len(),
        forall|j: int| 0 <= j < needle.len() ==> lower_char(hay[i + j]) == lower_char(needle[j]),
    ensures
        match_at(hay, needle, i),
{
    assert(lower_seq(hay.subrange(i, i + needle.len())) =~= lower_seq(needle));
}

/// Case-insensitive substring test: true iff `needle` occurs in `hay` when
/// both are folded to ASCII lower case.
pub fn str_contains_ci(hay: &str, needle: &str) -> (r: bool)
    ensures
        r == contains_ci(hay@, needle@),
{
    let hl = hay.unicode_len();
    let nl = needle.unicode_len();
    if nl > hl {
        assert(forall|i: int| !match_at(hay@, needle@, i));
        return false;
    }
    let mut i: usize = 0;
    while i <= hl - nl
        invariant
            hl == hay@.len(),
            nl == needle@.len(),
            nl <= hl,
            i <= hl - nl + 1,
            forall|k: int| 0 <= k < i ==> !match_at(hay@, needle@, k),
        decreases hl - nl - i + 1,
    {
        let mut j: usize = 0;
        let mut ok = true;
        while ok && j < nl
            invariant
                hl == hay@.len(),
                nl == needle@.len(),
                nl <= hl,
                i <= hl - nl,
                j <= nl,
                ok ==> forall|k: int|
                    0 <= k < j ==> lower_char(hay@[i + k]) == lower_char(needle@[k]),
                !ok ==> j < nl,
                !ok ==> !match_at(hay@, needle@, i as int),
            decreases nl - j + (if ok { 1int } else { 0int }),
        {
            if fold_char(hay.get_char(i + j)) != fold_char(needle.get_char(j)) {
                proof {
                    let jj = j as int;
                    if match_at(hay@, needle@, i as int) {
                        let sub = hay@.subrange(i as int, i + needle@.len());
                        assert(lower_seq(sub)[jj] == lower_seq(needle@)[jj]);
                        assert(lower_seq(sub)[jj] == lower_char(sub[jj]));
                        assert(sub[jj] == hay@[i + jj]);
                        assert(lower_seq(needle@)[jj] == lower_char(needle@[jj]));
                        assert(false);
                    }
                }
                ok = false;
            } else {
                j += 1;
            }
        }
        if ok {
            proof {
                lemma_match_at_pointwise(hay@, needle@, i as int);
            }
            return true;
        }
        i += 1;
    }
    proof {
        assert forall|k: int| !match_at(hay@, needle@, k) by {
            if 0 <= k && k + needle@.len() <= hay@.len() {
                assert(k < i);
            }
        }
    }
    false
}

/// The character for one decimal digit.
pub open spec fn digit_char(d: int) -> char {
    ((48 + d) as u8) as char
}

/// The decimal rendering of a non-negative integer, most significant
/// digit first.
pub open spec fn dec_seq(n: int) -> Seq<char>
    decreases n,
{
    if n <= 9 {
        seq![digit_char(if n < 0 { 0int } else { n })]
    } else {
        dec_seq(n / 10).push(digit_char(n % 10))
    }
}

/// One decimal digit as a string slice.
fn digit_str(d: u8) -> (r: &'static str)
    requires
        d < 10,
    ensures
        r@ =~= seq![digit_char(d as int)],
{
    proof {
        reveal_strlit("0");
        reveal_strlit("1");
        reveal_strlit("2");
        reveal_strlit("3");
        reveal_strlit("4");
        reveal_strlit("5");
        reveal_strlit("6");
        reveal_strlit("7");
        reveal_strlit("8");
        reveal_strlit("9");
    }
    match d {
        0 => "0",
        1 => "1",
        2 => "2",
        3 => "3",
        4 => "4",
        5 => "5",
        6 => "6",
        7 => "7",
        8 => "8",
        _ => "9",
    }
}

/// Renders `n` in decimal, most significant digit first, no sign, no
/// leading zeros (a single `'0'` for zero).
pub fn u128_to_dec(n: u128) -> (r: String)
    ensures
        r@ == dec_seq(n as int),
{
    let mut rest = n;
    let mut digits: Vec<u8> = Vec::new();
    // Low-order digits of `n` are collected first.
    while rest > 9
        invariant
            forall|k: int| 0 <= k < digits@.len() ==> digits@[k] < 10,
            dec_seq(n as int) =~= dec_seq(rest as int)
                + digits@.reverse().map_values(|d: u8| digit_char(d as int)),
        decreases rest,
    {
        let d = (rest % 10) as u8;
        let prev = Ghost(digits@);
        digits.push(d);
        rest = rest / 10;
        proof {
            assert(digits@.reverse() =~= seq![d] + prev@.reverse());
            assert(digits@.reverse().map_values(|x: u8| digit_char(x as int))
                =~= seq![digit_char(d as int)]
                    + prev@.reverse().map_values(|x: u8| digit_char(x as int)));
            assert(dec_seq(n as int) =~= dec_seq(rest as int)
                + digits@.reverse().map_values(|x: u8| digit_char(x as int)));
        }
    }
    let ghost head: int = rest as int;
    let ghost rtail: Seq<char> = digits@.reverse().map_values(|d: u8| digit_char(d as int));
    let mut out = digit_str(rest as u8).to_owned();
    let total = digits.len();
    let mut taken: usize = 0;
    while taken < total
        invariant
            total == digits@.len(),
            taken <= total,
            forall|k: int| 0 <= k < digits@.len() ==> digits@[k] < 10,
            rtail == digits@.reverse().map_values(|d: u8| digit_char(d as int)),
            rtail.len() == total,
            dec_seq(n as int) == seq![digit_char(head)] + rtail,
            out@ =~= seq![digit_char(head)] + rtail.subrange(0, taken as int),
        decreases total - taken,
    {
        let d = digits[total - 1 - taken];
        out.append(digit_str(d));
        proof {
            assert(digits@.reverse()[taken as int] == digits@[total - 1 - taken]);
            assert(rtail[taken as int] == digit_char(digits@[total - 1 - taken] as int));
            assert(out@ =~= seq![digit_char(head)] + rtail.subrange(0, taken + 1));
        }
        taken += 1;
    }
    proof {
        assert(rtail.subrange(0, total as int) =~= rtail);
    }
    out
}

} // verus!

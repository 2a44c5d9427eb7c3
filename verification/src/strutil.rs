//! Small verified helpers over strings: equality, lexicographic order,
//! ASCII lower-casing and decimal formatting.

use vstd::prelude::*;
use vstd::string::*;

verus! {

/// Lower-case an ASCII upper-case letter; leave every other character alone.
pub open spec fn lower_char(c: char) -> char {
    if 65 <= c as u32 && c as u32 <= 90 {
        ((c as u32 + 32) as u8) as char
    } else {
        c
    }
}

/// Lower-case every character of a sequence (ASCII letters only).
pub open spec fn lower_seq(s: Seq<char>) -> Seq<char> {
    s.map_values(|c: char| lower_char(c))
}

/// Lexicographic order on character sequences by code point, with a
/// proper prefix ordered first; this is the order `str` comparison uses.
pub open spec fn lex_le(a: Seq<char>, b: Seq<char>) -> bool
    decreases a.len(),
{
    if a.len() == 0 {
        true
    } else if b.len() == 0 {
        false
    } else if (a[0] as u32) < (b[0] as u32) {
        true
    } else if (a[0] as u32) > (b[0] as u32) {
        false
    } else {
        lex_le(a.drop_first(), b.drop_first())
    }
}

pub proof fn lemma_lex_le_total(a: Seq<char>, b: Seq<char>)
    ensures
        lex_le(a, b) || lex_le(b, a),
    decreases a.len(),
{
    if a.len() == 0 || b.len() == 0 {
    } else if (a[0] as u32) == (b[0] as u32) {
        lemma_lex_le_total(a.drop_first(), b.drop_first());
    }
}

pub proof fn lemma_lex_le_trans(a: Seq<char>, b: Seq<char>, c: Seq<char>)
    requires
        lex_le(a, b),
        lex_le(b, c),
    ensures
        lex_le(a, c),
    decreases a.len(),
{
    if a.len() == 0 {
    } else if b.len() == 0 {
    } else if c.len() == 0 {
    } else {
        if (a[0] as u32) == (b[0] as u32) && (b[0] as u32) == (c[0] as u32) {
            lemma_lex_le_trans(a.drop_first(), b.drop_first(), c.drop_first());
        }
    }
}

pub proof fn lemma_lex_le_antisym(a: Seq<char>, b: Seq<char>)
    requires
        lex_le(a, b),
        lex_le(b, a),
    ensures
        a =~= b,
    decreases a.len(),
{
    if a.len() == 0 {
        assert(b.len() == 0);
    } else {
        assert(b.len() > 0);
        assert(a[0] as u32 == b[0] as u32);
        vstd::utf8::char_u32_cast(a[0], a[0] as u32);
        vstd::utf8::char_u32_cast(b[0], b[0] as u32);
        assert(a[0] == b[0]);
        lemma_lex_le_antisym(a.drop_first(), b.drop_first());
        assert(a =~= seq![a[0]] + a.drop_first());
        assert(b =~= seq![b[0]] + b.drop_first());
    }
}

/// Character-by-character string equality.
pub fn str_eq(a: &str, b: &str) -> (r: bool)
    ensures
        r == (a@ == b@),
{
    let alen = a.unicode_len();
    let blen = b.unicode_len();
    if alen != blen {
        return false;
    }
    let mut i: usize = 0;
    while i < alen
        invariant
            alen == a@.len(),
            blen == b@.len(),
            alen == blen,
            i <= alen,
            forall|j: int| 0 <= j < i ==> a@[j] == b@[j],
        decreases alen - i,
    {
        if a.get_char(i) != b.get_char(i) {
            return false;
        }
        i = i + 1;
    }
    proof {
        assert(a@ =~= b@);
    }
    true
}

/// Decide `lex_le` on two strings.
pub fn str_lex_le(a: &str, b: &str) -> (r: bool)
    ensures
        r == lex_le(a@, b@),
{
    let alen = a.unicode_len();
    let blen = b.unicode_len();
    let mut i: usize = 0;
    proof {
        assert(a@.skip(0) =~= a@);
        assert(b@.skip(0) =~= b@);
    }
    loop
        invariant
            alen == a@.len(),
            blen == b@.len(),
            i <= alen,
            i <= blen,
            lex_le(a@, b@) == lex_le(a@.skip(i as int), b@.skip(i as int)),
        decreases alen - i,
    {
        if i == alen {
            proof {
                assert(a@.skip(i as int).len() == 0);
            }
            return true;
        }
        if i == blen {
            proof {
                assert(b@.skip(i as int).len() == 0);
                assert(a@.skip(i as int).len() > 0);
            }
            return false;
        }
        let ca = a.get_char(i);
        let cb = b.get_char(i);
        proof {
            assert(a@.skip(i as int)[0] == a@[i as int]);
            assert(b@.skip(i as int)[0] == b@[i as int]);
        }
        if (ca as u32) < (cb as u32) {
            return true;
        }
        if (ca as u32) > (cb as u32) {
            return false;
        }
        proof {
            assert(a@.skip(i as int).drop_first() =~= a@.skip(i as int + 1));
            assert(b@.skip(i as int).drop_first() =~= b@.skip(i as int + 1));
        }
        i = i + 1;
    }
}

/// Relies on `String::push` from std: appends one character to the string.
#[verifier::external_body]
pub fn push_char(s: &mut String, c: char)
    ensures
        final(s)@ == old(s)@.push(c),
{
    s.push(c);
}

/// ASCII lower-casing of one character, as `lower_char` describes.
pub fn lower_char_exec(c: char) -> (r: char)
    ensures
        r == lower_char(c),
{
    if (c as u32) >= 65 && (c as u32) <= 90 {
        ((c as u32 + 32) as u8) as char
    } else {
        c
    }
}

/// Lower-case a whole string (ASCII letters only).
pub fn lower_ascii(s: &str) -> (r: String)
    ensures
        r@ == lower_seq(s@),
{
    let len = s.unicode_len();
    let mut out = String::new();
    let mut i: usize = 0;
    while i < len
        invariant
            len == s@.len(),
            i <= len,
            out@ =~= lower_seq(s@).take(i as int),
        decreases len - i,
    {
        let c = lower_char_exec(s.get_char(i));
        push_char(&mut out, c);
        proof {
            assert(lower_seq(s@).take(i as int + 1) =~= lower_seq(s@).take(i as int).push(
                lower_char(s@[i as int]),
            ));
        }
        i = i + 1;
    }
    proof {
        assert(lower_seq(s@).take(len as int) =~= lower_seq(s@));
    }
    out
}

/// The decimal digit character for a value below ten.
pub open spec fn digit_char(n: nat) -> char {
    (((48 + n) as u8) as char)
}

/// The decimal notation of a natural number, most significant digit first.
pub open spec fn dec_str(n: nat) -> Seq<char>
    decreases n,
{
    if n < 10 {
        seq![digit_char(n)]
    } else {
        dec_str(n / 10).push(digit_char(n % 10))
    }
}

/// Format a number in decimal.
pub fn u64_to_string(n: u64) -> (r: String)
    ensures
        r@ == dec_str(n as nat),
{
    let mut digits: Vec<char> = Vec::new();
    let mut m: u64 = n;
    let d0: u64 = m % 10;
    let c0: char = ((48 + d0) as u8) as char;
    proof {
        assert(c0 == digit_char((m as nat) % 10));
        assert(digits@.push(c0).reverse() =~= seq![c0]);
        if m >= 10 {
            assert(dec_str(m as nat) == dec_str((m as nat) / 10).push(digit_char((m as nat) % 10)));
            assert(dec_str((m as nat) / 10).push(c0) =~= dec_str((m as nat) / 10) + seq![c0]);
        } else {
            assert(dec_str(m as nat) =~= seq![c0]);
        }
    }
    digits.push(c0);
    m = m / 10;
    while m > 0
        invariant
            m > 0 ==> dec_str(n as nat) =~= dec_str(m as nat) + digits@.reverse(),
            m == 0 ==> dec_str(n as nat) =~= digits@.reverse(),
        decreases m,
    {
        let d: u64 = m % 10;
        let c: char = ((48 + d) as u8) as char;
        proof {
            assert(c == digit_char((m as nat) % 10));
            let old_rev = digits@.reverse();
            assert(digits@.push(c).reverse() =~= seq![c] + old_rev);
            if m >= 10 {
                assert(dec_str(m as nat) == dec_str((m as nat) / 10).push(digit_char(
                    (m as nat) % 10,
                )));
                assert(dec_str((m as nat) / 10).push(c) + old_rev =~= dec_str((m as nat) / 10) + (
                seq![c] + old_rev));
            } else {
                assert(dec_str(m as nat) =~= seq![c]);
            }
        }
        digits.push(c);
        m = m / 10;
    }
    let mut out = String::new();
    let mut i: usize = digits.len();
    while i > 0
        invariant
            i <= digits@.len(),
            out@ =~= digits@.reverse().take(digits@.len() - i),
        decreases i,
    {
        i = i - 1;
        let c = digits[i];
        push_char(&mut out, c);
        proof {
            assert(digits@.reverse()[digits@.len() - i - 1] == digits@[i as int]);
            assert(digits@.reverse().take(digits@.len() - i) =~= digits@.reverse().take(
                digits@.len() - i - 1,
            ).push(digits@[i as int]));
        }
    }
    proof {
        assert(digits@.reverse().take(digits@.len() as int) =~= digits@.reverse());
    }
    out
}

} // verus!

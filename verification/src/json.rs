//! Low-level pieces of the line-framed JSON wire form: canonical escaping of
//! text, canonical decimal numbers, and the lemmas that splice encoded
//! fragments together. Every message crossing a process boundary is built
//! from these pieces; the codec module assembles them.

use vstd::prelude::*;

verus! {

// ===== where an encoded fragment sits inside a stream =====

/// `e` occurs in `s` exactly at position `i`.
pub open spec fn enc_at(s: Seq<char>, i: int, e: Seq<char>) -> bool {
    &&& 0 <= i
    &&& i + e.len() <= s.len()
    &&& s.subrange(i, i + e.len()) == e
}

/// A fragment made of two pieces can be split at the seam.
pub proof fn lemma_enc_at_split(s: Seq<char>, i: int, a: Seq<char>, b: Seq<char>)
    requires
        enc_at(s, i, a + b),
    ensures
        enc_at(s, i, a),
        enc_at(s, i + a.len(), b),
{
    assert(s.subrange(i, i + a.len()) =~= a);
    assert forall|k: int| 0 <= k < b.len() implies s.subrange(
        i + a.len(),
        i + a.len() + b.len(),
    )[k] == b[k] by {
        assert((a + b)[a.len() + k] == b[k]);
        assert(s.subrange(i, i + (a + b).len())[a.len() + k] == s[i + a.len() + k]);
    }
    assert(s.subrange(i + a.len(), i + a.len() + b.len()) =~= b);
}

/// Two adjacent fragments join into one.
pub proof fn lemma_enc_at_join(s: Seq<char>, i: int, a: Seq<char>, b: Seq<char>)
    requires
        enc_at(s, i, a),
        enc_at(s, i + a.len(), b),
    ensures
        enc_at(s, i, a + b),
{
    assert(s.subrange(i, i + a.len() + b.len()) =~= a + b);
}

// ===== canonical decimal numbers =====

pub open spec fn is_digit(c: char) -> bool {
    '0' <= c <= '9'
}

/// The sixteen lower-case hexadecimal digit characters.
pub open spec fn hex_char(n: int) -> char {
    if n == 0 { '0' }
    else if n == 1 { '1' }
    else if n == 2 { '2' }
    else if n == 3 { '3' }
    else if n == 4 { '4' }
    else if n == 5 { '5' }
    else if n == 6 { '6' }
    else if n == 7 { '7' }
    else if n == 8 { '8' }
    else if n == 9 { '9' }
    else if n == 10 { 'a' }
    else if n == 11 { 'b' }
    else if n == 12 { 'c' }
    else if n == 13 { 'd' }
    else if n == 14 { 'e' }
    else { 'f' }
}

/// Two characters with the same scalar value are the same character.
pub proof fn lemma_char_eq(a: char, b: char)
    requires
        a as u32 == b as u32,
    ensures
        a == b,
{
}

pub proof fn lemma_hex_char_inj(a: int, b: int)
    requires
        0 <= a < 16,
        0 <= b < 16,
        hex_char(a) == hex_char(b),
    ensures
        a == b,
{
}

/// Canonical decimal rendering of a non-negative number: no sign, no
/// leading zeros (except for the single digit `0` itself).
pub open spec fn enc_u64(n: int) -> Seq<char>
    decreases n,
{
    if n < 10 {
        seq![hex_char(n)]
    } else {
        enc_u64(n / 10) + seq![hex_char(n % 10)]
    }
}

pub proof fn lemma_enc_u64_shape(n: int)
    requires
        n >= 0,
    ensures
        enc_u64(n).len() >= 1,
        forall|k: int| 0 <= k < enc_u64(n).len() ==> is_digit(#[trigger] enc_u64(n)[k]),
        n >= 1 ==> enc_u64(n)[0] != '0',
        n == 0 ==> enc_u64(n) =~= seq!['0'],
        n < 10 ==> enc_u64(n).len() == 1,
        n >= 10 ==> enc_u64(n).len() >= 2,
    decreases n,
{
    if n >= 10 {
        lemma_enc_u64_shape(n / 10);
    }
}

pub proof fn lemma_enc_u64_inj(a: int, b: int)
    requires
        a >= 0,
        b >= 0,
        enc_u64(a) == enc_u64(b),
    ensures
        a == b,
    decreases a,
{
    lemma_enc_u64_shape(a);
    lemma_enc_u64_shape(b);
    if a < 10 && b < 10 {
        lemma_hex_char_inj(a, b);
    } else if a >= 10 && b >= 10 {
        let ea = enc_u64(a / 10);
        let eb = enc_u64(b / 10);
        assert(enc_u64(a).len() == ea.len() + 1);
        assert(enc_u64(b).len() == eb.len() + 1);
        assert(ea.len() == eb.len());
        assert forall|k: int| 0 <= k < ea.len() implies ea[k] == eb[k] by {
            assert(enc_u64(a)[k] == ea[k]);
            assert(enc_u64(b)[k] == eb[k]);
        }
        assert(ea =~= eb);
        lemma_enc_u64_inj(a / 10, b / 10);
        assert(enc_u64(a).last() == hex_char(a % 10));
        assert(enc_u64(b).last() == hex_char(b % 10));
        lemma_hex_char_inj(a % 10, b % 10);
    } else {
        // one is a single digit and the other is not, so the lengths differ
        assert(false);
    }
}

/// If one canonical number is a prefix of another, its value is no larger.
pub proof fn lemma_enc_u64_prefix_le(a: int, v: int)
    requires
        a >= 0,
        v >= 0,
        enc_u64(a).len() <= enc_u64(v).len(),
        enc_u64(v).subrange(0, enc_u64(a).len() as int) == enc_u64(a),
    ensures
        a <= v,
    decreases v,
{
    lemma_enc_u64_shape(a);
    lemma_enc_u64_shape(v);
    if enc_u64(a).len() == enc_u64(v).len() {
        assert(enc_u64(v).subrange(0, enc_u64(v).len() as int) =~= enc_u64(v));
        lemma_enc_u64_inj(a, v);
    } else {
        // a's digits are a proper prefix, hence a prefix of v / 10's digits
        assert(v >= 10);
        let ev = enc_u64(v / 10);
        assert(enc_u64(v).len() == ev.len() + 1);
        assert(enc_u64(a).len() <= ev.len());
        assert(ev.subrange(0, enc_u64(a).len() as int) =~= enc_u64(a)) by {
            assert(forall|k: int| 0 <= k < ev.len() ==> ev[k] == #[trigger] enc_u64(v)[k]);
        }
        lemma_enc_u64_prefix_le(a, v / 10);
        assert(v / 10 <= v);
    }
}

// ===== canonical text escaping =====

/// How one character is written inside a JSON string: `"` and `\` get a
/// backslash, control characters become `\u00XX` with lower-case hex, and
/// everything else stands for itself.
pub open spec fn esc_char(c: char) -> Seq<char> {
    if c == '"' {
        seq!['\\', '"']
    } else if c == '\\' {
        seq!['\\', '\\']
    } else if (c as u32) < 32 {
        seq!['\\', 'u', '0', '0', hex_char((c as u32) as int / 16), hex_char((c as u32) as int % 16)]
    } else {
        seq![c]
    }
}

pub open spec fn esc(s: Seq<char>) -> Seq<char>
    decreases s.len(),
{
    if s.len() == 0 {
        Seq::empty()
    } else {
        esc_char(s[0]) + esc(s.drop_first())
    }
}

/// A whole JSON string: quote, escaped content, quote.
pub open spec fn enc_str(s: Seq<char>) -> Seq<char> {
    seq!['"'] + esc(s) + seq!['"']
}

pub proof fn lemma_esc_snoc(s: Seq<char>, c: char)
    ensures
        esc(s.push(c)) == esc(s) + esc_char(c),
    decreases s.len(),
{
    if s.len() == 0 {
        assert(s.push(c)[0] == c);
        assert(s.push(c).len() == 1);
        assert(s.push(c).drop_first() =~= Seq::<char>::empty());
        assert(esc(s.push(c)) == esc_char(c) + esc(Seq::<char>::empty()));
        assert(esc_char(c) + Seq::<char>::empty() =~= esc_char(c));
        assert(esc(s) + esc_char(c) =~= esc_char(c));
        assert(esc(s.push(c)) =~= esc(s) + esc_char(c));
    } else {
        assert(s.push(c).drop_first() =~= s.drop_first().push(c));
        assert(s.push(c)[0] == s[0]);
        lemma_esc_snoc(s.drop_first(), c);
        assert(esc(s.push(c)) == esc_char(s[0]) + (esc(s.drop_first()) + esc_char(c)));
        assert(esc(s) == esc_char(s[0]) + esc(s.drop_first()));
        assert(esc_char(s[0]) + (esc(s.drop_first()) + esc_char(c)) =~= (esc_char(s[0]) + esc(
            s.drop_first(),
        )) + esc_char(c));
        assert(esc(s.push(c)) =~= esc(s) + esc_char(c));
    }
}

/// The escaped stream splits at any character boundary.
pub proof fn lemma_esc_split(s: Seq<char>, k: int)
    requires
        0 <= k <= s.len(),
    ensures
        esc(s) == esc(s.take(k)) + esc(s.skip(k)),
    decreases k,
{
    if k == 0 {
        assert(s.take(0) =~= Seq::<char>::empty());
        assert(s.skip(0) =~= s);
        assert(esc(s) =~= esc(s.take(0)) + esc(s.skip(0)));
    } else {
        assert(s.len() > 0);
        lemma_esc_split(s.drop_first(), k - 1);
        assert(s.take(k).drop_first() =~= s.drop_first().take(k - 1));
        assert(s.take(k)[0] == s[0]);
        assert(s.take(k).len() == k);
        assert(esc(s.take(k)) =~= esc_char(s[0]) + esc(s.drop_first().take(k - 1)));
        assert(s.skip(k) =~= s.drop_first().skip(k - 1));
        assert(esc(s) =~= esc(s.take(k)) + esc(s.skip(k)));
    }
}

/// What an escape sequence can look like: it never starts with a bare
/// quote, never contains a newline, and never starts with a raw control
/// character.
pub proof fn lemma_esc_char_shape(c: char)
    ensures
        1 <= esc_char(c).len() <= 6,
        esc_char(c)[0] != '"',
        forall|k: int| 0 <= k < esc_char(c).len() ==> #[trigger] esc_char(c)[k] != '\n',
        esc_char(c)[0] == '\\' || ((esc_char(c)[0] as u32) >= 32 && esc_char(c)[0] == c),
{
}

/// No newline ever appears inside escaped content, so one encoded message
/// always stays on one line.
pub proof fn lemma_esc_no_newline(s: Seq<char>)
    ensures
        forall|k: int| 0 <= k < esc(s).len() ==> #[trigger] esc(s)[k] != '\n',
    decreases s.len(),
{
    if s.len() > 0 {
        lemma_esc_char_shape(s[0]);
        lemma_esc_no_newline(s.drop_first());
        assert forall|k: int| 0 <= k < esc(s).len() implies #[trigger] esc(s)[k] != '\n' by {
            if k < esc_char(s[0]).len() {
                assert(esc(s)[k] == esc_char(s[0])[k]);
            } else {
                assert(esc(s)[k] == esc(s.drop_first())[k - esc_char(s[0]).len()]);
            }
        }
    }
}

// ===== executable building blocks =====

/// Relies on String::push from std: it appends exactly one character.
#[verifier::external_body]
pub(crate) fn push_char(s: &mut String, c: char)
    ensures
        final(s)@ == old(s)@.push(c),
{
    s.push(c);
}

/// The characters of a string slice, one element per character.
pub fn str_to_chars(s: &str) -> (v: Vec<char>)
    ensures
        v@ == s@,
{
    let n = s.unicode_len();
    let mut v: Vec<char> = Vec::new();
    let mut i: usize = 0;
    while i < n
        invariant
            i <= n,
            n == s@.len(),
            v@ == s@.take(i as int),
        decreases n - i,
    {
        let c = s.get_char(i);
        v.push(c);
        i = i + 1;
        proof {
            assert(v@ =~= s@.take(i as int));
        }
    }
    proof {
        assert(v@ =~= s@);
    }
    v
}

/// True exactly when the characters of `lit` sit in `s` at position `i`.
pub fn expect_lit(s: &Vec<char>, i: usize, lit: &str) -> (r: bool)
    requires
        i <= s@.len(),
    ensures
        r == enc_at(s@, i as int, lit@),
{
    let n = lit.unicode_len();
    let slen: usize = s.len();
    if n > slen - i {
        proof {
            assert(!enc_at(s@, i as int, lit@));
        }
        return false;
    }
    let mut k: usize = 0;
    while k < n
        invariant
            k <= n,
            n == lit@.len(),
            slen == s@.len(),
            i + n <= slen,
            forall|t: int| 0 <= t < k ==> s@[i + t] == lit@[t],
        decreases n - k,
    {
        if s[i + k] != lit.get_char(k) {
            proof {
                assert(s@.subrange(i as int, i + lit@.len()) != lit@) by {
                    assert(s@.subrange(i as int, i + lit@.len())[k as int] == s@[i + k]);
                }
            }
            return false;
        }
        k = k + 1;
    }
    proof {
        assert(s@.subrange(i as int, i + lit@.len()) =~= lit@);
    }
    true
}

/// The value of one decimal digit character, by exhaustive cases.
pub open spec fn digit_val_spec(c: char) -> int {
    if c == '0' { 0 }
    else if c == '1' { 1 }
    else if c == '2' { 2 }
    else if c == '3' { 3 }
    else if c == '4' { 4 }
    else if c == '5' { 5 }
    else if c == '6' { 6 }
    else if c == '7' { 7 }
    else if c == '8' { 8 }
    else { 9 }
}

pub fn exec_is_digit(c: char) -> (r: bool)
    ensures
        r == is_digit(c),
{
    c >= '0' && c <= '9'
}

pub(crate) fn exec_digit_val(c: char) -> (r: usize)
    requires
        is_digit(c),
    ensures
        r == digit_val_spec(c),
        r < 10,
        hex_char(r as int) == c,
{
    if c == '0' { 0 }
    else if c == '1' { 1 }
    else if c == '2' { 2 }
    else if c == '3' { 3 }
    else if c == '4' { 4 }
    else if c == '5' { 5 }
    else if c == '6' { 6 }
    else if c == '7' { 7 }
    else if c == '8' { 8 }
    else {
        proof {
            assert(c == '9');
        }
        9
    }
}

pub(crate) fn exec_hex_char(n: u32) -> (c: char)
    requires
        n < 16,
    ensures
        c == hex_char(n as int),
{
    if n == 0 { '0' }
    else if n == 1 { '1' }
    else if n == 2 { '2' }
    else if n == 3 { '3' }
    else if n == 4 { '4' }
    else if n == 5 { '5' }
    else if n == 6 { '6' }
    else if n == 7 { '7' }
    else if n == 8 { '8' }
    else if n == 9 { '9' }
    else if n == 10 { 'a' }
    else if n == 11 { 'b' }
    else if n == 12 { 'c' }
    else if n == 13 { 'd' }
    else if n == 14 { 'e' }
    else { 'f' }
}

/// The value of one lower-case hexadecimal digit, or `None` for any other
/// character; the inverse of [`hex_char`].
pub(crate) fn exec_hex_val(c: char) -> (r: Option<u32>)
    ensures
        match r {
            Some(v) => v < 16 && hex_char(v as int) == c,
            None => forall|v: int| 0 <= v < 16 ==> hex_char(v) != c,
        },
{
    if c == '0' { Some(0) }
    else if c == '1' { Some(1) }
    else if c == '2' { Some(2) }
    else if c == '3' { Some(3) }
    else if c == '4' { Some(4) }
    else if c == '5' { Some(5) }
    else if c == '6' { Some(6) }
    else if c == '7' { Some(7) }
    else if c == '8' { Some(8) }
    else if c == '9' { Some(9) }
    else if c == 'a' { Some(10) }
    else if c == 'b' { Some(11) }
    else if c == 'c' { Some(12) }
    else if c == 'd' { Some(13) }
    else if c == 'e' { Some(14) }
    else if c == 'f' { Some(15) }
    else { None }
}

/// The character with a given scalar value below 32, by exhaustive cases.
pub(crate) fn control_char(u: u32) -> (c: char)
    requires
        u < 32,
    ensures
        c as u32 == u,
{
    if u == 0 { '\u{00}' }
    else if u == 1 { '\u{01}' }
    else if u == 2 { '\u{02}' }
    else if u == 3 { '\u{03}' }
    else if u == 4 { '\u{04}' }
    else if u == 5 { '\u{05}' }
    else if u == 6 { '\u{06}' }
    else if u == 7 { '\u{07}' }
    else if u == 8 { '\u{08}' }
    else if u == 9 { '\u{09}' }
    else if u == 10 { '\u{0a}' }
    else if u == 11 { '\u{0b}' }
    else if u == 12 { '\u{0c}' }
    else if u == 13 { '\u{0d}' }
    else if u == 14 { '\u{0e}' }
    else if u == 15 { '\u{0f}' }
    else if u == 16 { '\u{10}' }
    else if u == 17 { '\u{11}' }
    else if u == 18 { '\u{12}' }
    else if u == 19 { '\u{13}' }
    else if u == 20 { '\u{14}' }
    else if u == 21 { '\u{15}' }
    else if u == 22 { '\u{16}' }
    else if u == 23 { '\u{17}' }
    else if u == 24 { '\u{18}' }
    else if u == 25 { '\u{19}' }
    else if u == 26 { '\u{1a}' }
    else if u == 27 { '\u{1b}' }
    else if u == 28 { '\u{1c}' }
    else if u == 29 { '\u{1d}' }
    else if u == 30 { '\u{1e}' }
    else { '\u{1f}' }
}

// ===== numbers =====

/// Appends the canonical decimal form of `n`.
pub fn append_usize(out: &mut String, n: usize)
    ensures
        final(out)@ == old(out)@ + enc_u64(n as int),
{
    if n < 10 {
        push_char(out, exec_hex_char(n as u32));
        proof {
            assert(out@ =~= old(out)@ + enc_u64(n as int));
        }
        return;
    }
    let mut digits: Vec<char> = Vec::new();
    let mut m: usize = n;
    while m >= 10
        invariant
            1 <= m,
            enc_u64(n as int) == enc_u64(m as int) + digits@.reverse(),
        decreases m,
    {
        let d: usize = m % 10;
        let ghost pre = digits@;
        digits.push(exec_hex_char(d as u32));
        m = m / 10;
        proof {
            assert(enc_u64((m * 10 + d) as int) == enc_u64(m as int) + seq![hex_char(d as int)]);
            assert(digits@.reverse() =~= seq![hex_char(d as int)] + pre.reverse());
            assert(enc_u64(m as int) + digits@.reverse() =~= (enc_u64(m as int) + seq![
                hex_char(d as int),
            ]) + pre.reverse());
        }
    }
    push_char(out, exec_hex_char(m as u32));
    proof {
        assert(enc_u64(m as int) == seq![hex_char(m as int)]);
        assert(out@ =~= old(out)@ + enc_u64(n as int).take(1 as int));
        assert(enc_u64(n as int).len() == 1 + digits@.len());
    }
    let total: usize = digits.len();
    let mut k: usize = 0;
    while k < total
        invariant
            k <= total,
            total == digits@.len(),
            enc_u64(n as int) == seq![hex_char(m as int)] + digits@.reverse(),
            enc_u64(n as int).len() == 1 + total,
            out@ == old(out)@ + enc_u64(n as int).take(1 + k),
        decreases total - k,
    {
        let c = digits[total - 1 - k];
        push_char(out, c);
        k = k + 1;
        proof {
            assert(digits@.reverse()[k - 1] == digits@[total - k]);
            assert(enc_u64(n as int)[k as int] == digits@[total - k]);
            assert(out@ =~= old(out)@ + enc_u64(n as int).take(1 + k));
        }
    }
    proof {
        assert(enc_u64(n as int).take(1 + total as int) =~= enc_u64(n as int));
    }
}

/// After the end of a canonical number there must not stand another digit.
pub open spec fn digit_delim(s: Seq<char>, j: int) -> bool {
    j == s.len() || !is_digit(s[j])
}

/// Reads a canonical decimal number. Succeeds on, and only on, exactly the
/// fragments that [`enc_u64`] produces for values that fit in `usize`,
/// provided no further digit follows.
pub fn parse_usize(s: &Vec<char>, i: usize) -> (r: Option<(usize, usize)>)
    requires
        i <= s@.len(),
    ensures
        r matches Some(p) ==> enc_at(s@, i as int, enc_u64(p.0 as int)) && p.1 as int == i
            + enc_u64(p.0 as int).len() && p.1 <= s@.len(),
        forall|v: usize|
            enc_at(s@, i as int, #[trigger] enc_u64(v as int)) && digit_delim(
                s@,
                i + enc_u64(v as int).len(),
            ) ==> r == Some((v, (i + enc_u64(v as int).len()) as usize)),
{
    let slen: usize = s.len();
    proof {
        assert forall|v: usize| enc_at(s@, i as int, #[trigger] enc_u64(v as int)) implies i
            < slen && is_digit(s@[i as int]) && s@[i as int] == enc_u64(v as int)[0] by {
            lemma_enc_u64_shape(v as int);
        }
    }
    if i >= slen {
        return None;
    }
    let c0 = s[i];
    if !exec_is_digit(c0) {
        return None;
    }
    if c0 == '0' {
        proof {
            assert(s@.subrange(i as int, i + 1) =~= enc_u64(0));
            assert forall|v: usize|
                enc_at(s@, i as int, #[trigger] enc_u64(v as int)) implies v == 0 by {
                lemma_enc_u64_shape(v as int);
            }
        }
        return Some((0, i + 1));
    }
    let mut acc: usize = exec_digit_val(c0);
    let mut j: usize = i + 1;
    proof {
        assert(s@.subrange(i as int, i + 1) =~= enc_u64(acc as int));
    }
    while j < slen && exec_is_digit(s[j])
        invariant
            i < j <= slen,
            slen == s@.len(),
            1 <= acc,
            enc_at(s@, i as int, enc_u64(acc as int)),
            j as int == i + enc_u64(acc as int).len(),
        decreases slen - j,
    {
        let d: usize = exec_digit_val(s[j]);
        proof {
            lemma_enc_u64_shape(acc as int);
        }
        if acc > (usize::MAX - d) / 10 {
            proof {
                assert(acc as int * 10 + d > usize::MAX) by (nonlinear_arith)
                    requires
                        acc as int > (usize::MAX - d) as int / 10,
                        0 <= d < 10,
                ;
                assert forall|v: usize|
                    !(enc_at(s@, i as int, #[trigger] enc_u64(v as int)) && digit_delim(
                        s@,
                        i + enc_u64(v as int).len(),
                    )) by {
                    if enc_at(s@, i as int, enc_u64(v as int)) && digit_delim(
                        s@,
                        i + enc_u64(v as int).len(),
                    ) {
                        lemma_enc_u64_shape(v as int);
                        let lv = enc_u64(v as int).len() as int;
                        let la = enc_u64(acc as int).len() as int;
                        assert forall|t: int| 0 <= t < lv implies enc_u64(v as int)[t] == s@[
                            i + t
                        ] by {
                            assert(s@.subrange(i as int, i + lv)[t] == s@[i + t]);
                        }
                        assert forall|t: int| 0 <= t < la implies enc_u64(acc as int)[t] == s@[
                            i + t
                        ] by {
                            assert(s@.subrange(i as int, i + la)[t] == s@[i + t]);
                        }
                        // the consumed digits are a proper prefix of v's digits
                        assert(is_digit(s@[j as int]));
                        if i + lv < j {
                            assert(enc_u64(acc as int)[lv] == s@[i + lv]);
                            assert(is_digit(s@[i + lv]));
                            assert(false);
                        }
                        if i + lv == j {
                            assert(!is_digit(s@[j as int]));
                            assert(false);
                        }
                        assert(j < i + lv);
                        let next: int = acc as int * 10 + d;
                        assert(enc_u64(next) == enc_u64(acc as int) + seq![hex_char(d as int)]);
                        assert(enc_u64(v as int).subrange(0, enc_u64(next).len() as int)
                            =~= enc_u64(next)) by {
                            assert(forall|t: int| 0 <= t < lv ==> enc_u64(v as int)[t] == s@[
                                i + t
                            ]);
                            assert(forall|t: int| 0 <= t < enc_u64(acc as int).len()
                                ==> enc_u64(acc as int)[t] == s@[i + t]);
                            assert(enc_u64(next)[enc_u64(next).len() - 1] == hex_char(d as int));
                            assert(s@[j as int] == hex_char(d as int));
                        }
                        lemma_enc_u64_prefix_le(next, v as int);
                    }
                }
            }
            return None;
        }
        proof {
            assert(acc * 10 + d <= usize::MAX) by (nonlinear_arith)
                requires
                    acc as int <= (usize::MAX - d) as int / 10,
                    0 <= d < 10,
            ;
            let next: int = acc as int * 10 + d as int;
            assert(enc_u64(next) == enc_u64(acc as int) + seq![hex_char(d as int)]);
            assert(s@.subrange(j as int, j + 1) =~= seq![hex_char(d as int)]);
            lemma_enc_at_join(s@, i as int, enc_u64(acc as int), seq![hex_char(d as int)]);
        }
        acc = acc * 10 + d;
        j = j + 1;
    }
    proof {
        assert forall|v: usize|
            enc_at(s@, i as int, #[trigger] enc_u64(v as int)) && digit_delim(
                s@,
                i + enc_u64(v as int).len(),
            ) implies acc == v && j as int == i + enc_u64(v as int).len() by {
            lemma_enc_u64_shape(v as int);
            lemma_enc_u64_shape(acc as int);
            let lv = enc_u64(v as int).len() as int;
            let la = enc_u64(acc as int).len() as int;
            assert forall|t: int| 0 <= t < lv implies enc_u64(v as int)[t] == s@[i + t] by {
                assert(s@.subrange(i as int, i + lv)[t] == s@[i + t]);
            }
            assert forall|t: int| 0 <= t < la implies enc_u64(acc as int)[t] == s@[i + t] by {
                assert(s@.subrange(i as int, i + la)[t] == s@[i + t]);
            }
            if j < i + lv {
                // the loop would not have stopped: the next character is a digit
                assert(enc_u64(v as int)[j - i] == s@[j as int]);
                assert(is_digit(s@[j as int]));
                assert(false);
            }
            if j > i + lv {
                // v's digits end with a non-digit delimiter inside what we read
                assert(enc_u64(acc as int)[lv] == s@[i + lv]);
                assert(is_digit(s@[i + lv]));
                assert(!digit_delim(s@, i + lv));
                assert(false);
            }
            assert(enc_u64(acc as int) =~= enc_u64(v as int));
            lemma_enc_u64_inj(acc as int, v as int);
        }
    }
    Some((acc, j))
}

// ===== strings =====

/// Appends the escaped content characters of `s` (no surrounding quotes).
pub fn append_escaped(out: &mut String, s: &str)
    ensures
        final(out)@ == old(out)@ + esc(s@),
{
    let n = s.unicode_len();
    let mut i: usize = 0;
    proof {
        assert(s@.take(0) =~= Seq::<char>::empty());
        assert(out@ =~= old(out)@ + esc(s@.take(0)));
    }
    while i < n
        invariant
            i <= n,
            n == s@.len(),
            out@ == old(out)@ + esc(s@.take(i as int)),
        decreases n - i,
    {
        let c = s.get_char(i);
        proof {
            lemma_esc_snoc(s@.take(i as int), c);
            assert(s@.take(i + 1) =~= s@.take(i as int).push(c));
        }
        if c == '"' {
            out.append("\\\"");
            proof {
                reveal_strlit("\\\"");
                assert("\\\""@ =~= esc_char(c));
            }
        } else if c == '\\' {
            out.append("\\\\");
            proof {
                reveal_strlit("\\\\");
                assert("\\\\"@ =~= esc_char(c));
            }
        } else if (c as u32) < 32 {
            let u = c as u32;
            out.append("\\u00");
            push_char(out, exec_hex_char(u / 16));
            push_char(out, exec_hex_char(u % 16));
            proof {
                reveal_strlit("\\u00");
                assert("\\u00"@ + seq![hex_char(u as int / 16)] + seq![hex_char(u as int % 16)]
                    =~= esc_char(c));
            }
        } else {
            push_char(out, c);
            proof {
                assert(seq![c] =~= esc_char(c));
            }
        }
        i = i + 1;
        proof {
            assert(out@ =~= old(out)@ + esc(s@.take(i as int)));
        }
    }
    proof {
        assert(s@.take(n as int) =~= s@);
    }
}

/// Appends a whole JSON string: quote, escaped content, quote.
pub fn append_string(out: &mut String, s: &str)
    ensures
        final(out)@ == old(out)@ + enc_str(s@),
{
    out.append("\"");
    append_escaped(out, s);
    out.append("\"");
    proof {
        reveal_strlit("\"");
        assert("\""@ =~= seq!['"']);
        assert(out@ =~= old(out)@ + enc_str(s@));
    }
}

/// What the stream looks like while a string body is being read: the part of
/// `v` already decoded sits escaped right after the opening quote, and what
/// follows is the escape of the rest, then the closing quote.
proof fn lemma_string_progress(s: Seq<char>, i: int, j: int, v: Seq<char>, outv: Seq<char>)
    requires
        enc_at(s, i, enc_str(v)),
        outv.len() <= v.len(),
        outv == v.take(outv.len() as int),
        j == i + 1 + esc(outv).len(),
    ensures
        j <= i + 1 + esc(v).len() < s.len(),
        s[i + 1 + esc(v).len()] == '"',
        outv.len() == v.len() ==> j == i + 1 + esc(v).len(),
        outv.len() < v.len() ==> enc_at(s, j, esc_char(v[outv.len() as int])) && j + esc_char(
            v[outv.len() as int],
        ).len() <= i + 1 + esc(v).len(),
{
    let k = outv.len() as int;
    assert(seq!['"'] + (esc(v) + seq!['"']) =~= enc_str(v));
    lemma_enc_at_split(s, i, seq!['"'], esc(v) + seq!['"']);
    lemma_enc_at_split(s, i + 1, esc(v), seq!['"']);
    assert(s.subrange(i + 1 + esc(v).len(), i + 1 + esc(v).len() + 1)[0] == s[i + 1 + esc(
        v,
    ).len()]);
    assert(s[i + 1 + esc(v).len()] == '"');
    lemma_esc_split(v, k);
    assert(esc(outv) == esc(v.take(k)));
    if k < v.len() {
        lemma_enc_at_split(s, i + 1, esc(v.take(k)), esc(v.skip(k)));
        assert(v.skip(k)[0] == v[k]);
        assert(v.skip(k).drop_first() =~= v.skip(k + 1));
        assert(esc(v.skip(k)) == esc_char(v[k]) + esc(v.skip(k + 1)));
        lemma_enc_at_split(s, j, esc_char(v[k]), esc(v.skip(k + 1)));
    } else {
        assert(outv =~= v);
    }
}

/// Reads a JSON string starting at `i`. Succeeds on, and only on, exactly
/// the fragments that [`enc_str`] produces, and returns the decoded text.
pub fn parse_string(s: &Vec<char>, i: usize) -> (r: Option<(String, usize)>)
    requires
        i <= s@.len(),
    ensures
        r matches Some(p) ==> enc_at(s@, i as int, enc_str(p.0@)) && p.1 as int == i + enc_str(
            p.0@,
        ).len() && p.1 <= s@.len(),
        forall|v: Seq<char>|
            enc_at(s@, i as int, #[trigger] enc_str(v)) ==> (r matches Some(p) && p.0@ == v
                && p.1 as int == i + enc_str(v).len()),
{
    let slen: usize = s.len();
    proof {
        assert forall|v: Seq<char>| enc_at(s@, i as int, #[trigger] enc_str(v)) implies i < slen
            && s@[i as int] == '"' by {
            assert(seq!['"'] + (esc(v) + seq!['"']) =~= enc_str(v));
            lemma_enc_at_split(s@, i as int, seq!['"'], esc(v) + seq!['"']);
            assert(s@.subrange(i as int, i + 1) =~= seq!['"']);
            assert(s@.subrange(i as int, i + 1)[0] == s@[i as int]);
        }
    }
    if i >= slen || s[i] != '"' {
        return None;
    }
    let mut out: String = String::new();
    let mut j: usize = i + 1;
    proof {
        assert(s@.subrange(i + 1, i + 1) =~= esc(out@));
    }
    while j < slen
        invariant
            i < j <= slen,
            slen == s@.len(),
            s@[i as int] == '"',
            j as int == i + 1 + esc(out@).len(),
            s@.subrange(i + 1, j as int) == esc(out@),
            forall|v: Seq<char>|
                enc_at(s@, i as int, #[trigger] enc_str(v)) ==> out@.len() <= v.len() && out@
                    == v.take(out@.len() as int),
        decreases slen - j,
    {
        let ghost outv = out@;
        proof {
            assert forall|v: Seq<char>| enc_at(s@, i as int, #[trigger] enc_str(v)) implies {
                &&& j as int <= i + 1 + esc(v).len() < slen
                &&& s@[i + 1 + esc(v).len()] == '"'
                &&& (outv.len() == v.len() ==> j as int == i + 1 + esc(v).len())
                &&& (outv.len() < v.len() ==> enc_at(s@, j as int, esc_char(v[outv.len() as int]))
                    && j + esc_char(v[outv.len() as int]).len() <= i + 1 + esc(v).len())
            } by {
                lemma_string_progress(s@, i as int, j as int, v, outv);
            }
        }
        let c = s[j];
        if c == '"' {
            proof {
                assert forall|v: Seq<char>|
                    enc_at(s@, i as int, #[trigger] enc_str(v)) implies out@ == v && j + 1 == i
                    + enc_str(v).len() by {
                    if out@.len() < v.len() {
                        lemma_esc_char_shape(v[out@.len() as int]);
                        assert(s@.subrange(
                            j as int,
                            j + esc_char(v[out@.len() as int]).len(),
                        )[0] == s@[j as int]);
                        assert(false);
                    }
                    assert(out@ =~= v);
                }
                assert(s@.subrange(j as int, j + 1) =~= seq!['"']);
                lemma_enc_at_join(s@, i + 1, esc(out@), seq!['"']);
                assert(s@.subrange(i as int, i + 1) =~= seq!['"']);
                lemma_enc_at_join(s@, i as int, seq!['"'], esc(out@) + seq!['"']);
                assert(seq!['"'] + (esc(out@) + seq!['"']) =~= enc_str(out@));
            }
            return Some((out, j + 1));
        } else if c == '\\' {
            proof {
                assert forall|v: Seq<char>|
                    enc_at(s@, i as int, #[trigger] enc_str(v)) implies outv.len() < v.len()
                    && esc_char(v[outv.len() as int])[0] == '\\' by {
                    if outv.len() == v.len() {
                        assert(s@[j as int] == '"');
                        assert(false);
                    }
                    assert(s@.subrange(j as int, j + esc_char(v[outv.len() as int]).len())[0]
                        == s@[j as int]);
                }
            }
            if j + 1 >= slen {
                proof {
                    assert forall|v: Seq<char>|
                        !enc_at(s@, i as int, #[trigger] enc_str(v)) by {
                        if enc_at(s@, i as int, enc_str(v)) {
                            lemma_esc_char_shape(v[outv.len() as int]);
                            assert(j + esc_char(v[outv.len() as int]).len() <= slen);
                            assert(false);
                        }
                    }
                }
                return None;
            }
            let e = s[j + 1];
            proof {
                assert forall|v: Seq<char>|
                    enc_at(s@, i as int, #[trigger] enc_str(v)) implies esc_char(
                    v[outv.len() as int],
                )[1] == e by {
                    lemma_esc_char_shape(v[outv.len() as int]);
                    assert(s@.subrange(j as int, j + esc_char(v[outv.len() as int]).len())[1]
                        == s@[j + 1]);
                }
            }
            if e == '"' {
                push_char(&mut out, '"');
                proof {
                    assert(s@.subrange(j as int, j + 2) =~= esc_char('"'));
                    lemma_esc_snoc(outv, '"');
                    lemma_enc_at_join(s@, i + 1, esc(outv), esc_char('"'));
                    assert forall|v: Seq<char>|
                        enc_at(s@, i as int, #[trigger] enc_str(v)) implies out@.len() <= v.len()
                        && out@ == v.take(out@.len() as int) by {
                        let k = outv.len() as int;
                        assert(esc_char(v[k])[1] == '"');
                        if v[k] == '\\' || (v[k] as u32) < 32 {
                            assert(false);
                        }
                        assert(v[k] == '"');
                        assert(out@ =~= v.take(k + 1));
                    }
                }
                j = j + 2;
            } else if e == '\\' {
                push_char(&mut out, '\\');
                proof {
                    assert(s@.subrange(j as int, j + 2) =~= esc_char('\\'));
                    lemma_esc_snoc(outv, '\\');
                    lemma_enc_at_join(s@, i + 1, esc(outv), esc_char('\\'));
                    assert forall|v: Seq<char>|
                        enc_at(s@, i as int, #[trigger] enc_str(v)) implies out@.len() <= v.len()
                        && out@ == v.take(out@.len() as int) by {
                        let k = outv.len() as int;
                        assert(esc_char(v[k])[1] == '\\');
                        if v[k] == '"' || (v[k] as u32) < 32 {
                            assert(false);
                        }
                        assert(v[k] == '\\');
                        assert(out@ =~= v.take(k + 1));
                    }
                }
                j = j + 2;
            } else if e == 'u' {
                proof {
                    assert forall|v: Seq<char>|
                        enc_at(s@, i as int, #[trigger] enc_str(v)) implies (v[outv.len() as int]
                        as u32) < 32 && j + 6 <= slen && s@[j + 2] == '0' && s@[j + 3] == '0'
                        && s@[j + 4] == hex_char((v[outv.len() as int] as u32) as int / 16) && s@[
                        j + 5
                    ] == hex_char((v[outv.len() as int] as u32) as int % 16) by {
                        let k = outv.len() as int;
                        let w = v[k];
                        assert(esc_char(w)[1] == 'u');
                        if w == '"' || w == '\\' {
                            assert(false);
                        }
                        assert((w as u32) < 32);
                        assert(esc_char(w).len() == 6);
                        assert(forall|t: int| 0 <= t < 6 ==> #[trigger] s@.subrange(
                            j as int,
                            j + 6,
                        )[t] == s@[j + t]);
                    }
                }
                if slen - j < 6 {
                    proof {
                        assert forall|v: Seq<char>|
                            !enc_at(s@, i as int, #[trigger] enc_str(v)) by {}
                    }
                    return None;
                }
                if s[j + 2] != '0' || s[j + 3] != '0' {
                    proof {
                        assert forall|v: Seq<char>|
                            !enc_at(s@, i as int, #[trigger] enc_str(v)) by {}
                    }
                    return None;
                }
                let h1 = exec_hex_val(s[j + 4]);
                let h2 = exec_hex_val(s[j + 5]);
                match (h1, h2) {
                    (Some(a), Some(b)) => {
                        let u: u32 = a * 16 + b;
                        if u >= 32 {
                            proof {
                                assert forall|v: Seq<char>|
                                    !enc_at(s@, i as int, #[trigger] enc_str(v)) by {
                                    if enc_at(s@, i as int, enc_str(v)) {
                                        let w = v[outv.len() as int];
                                        lemma_hex_char_inj(a as int, (w as u32) as int / 16);
                                        lemma_hex_char_inj(b as int, (w as u32) as int % 16);
                                        assert(false);
                                    }
                                }
                            }
                            return None;
                        }
                        let c2 = control_char(u);
                        push_char(&mut out, c2);
                        proof {
                            assert(s@.subrange(j as int, j + 6) =~= esc_char(c2));
                            lemma_esc_snoc(outv, c2);
                            lemma_enc_at_join(s@, i + 1, esc(outv), esc_char(c2));
                            assert forall|v: Seq<char>|
                                enc_at(s@, i as int, #[trigger] enc_str(v)) implies out@.len()
                                <= v.len() && out@ == v.take(out@.len() as int) by {
                                let k = outv.len() as int;
                                let w = v[k];
                                lemma_hex_char_inj(a as int, (w as u32) as int / 16);
                                lemma_hex_char_inj(b as int, (w as u32) as int % 16);
                                assert((w as u32) as int == 16 * ((w as u32) as int / 16) + ((
                                w as u32) as int % 16));
                                assert(u as int == a as int * 16 + b as int);
                                assert(c2 as u32 == w as u32);
                                lemma_char_eq(c2, w);
                                assert(c2 == w);
                                assert(out@ =~= v.take(k + 1));
                            }
                        }
                        j = j + 6;
                    },
                    _ => {
                        proof {
                            assert forall|v: Seq<char>|
                                !enc_at(s@, i as int, #[trigger] enc_str(v)) by {}
                        }
                        return None;
                    },
                }
            } else {
                proof {
                    assert forall|v: Seq<char>|
                        !enc_at(s@, i as int, #[trigger] enc_str(v)) by {
                        if enc_at(s@, i as int, enc_str(v)) {
                            let w = v[outv.len() as int];
                            lemma_esc_char_shape(w);
                            assert(esc_char(w)[1] == e);
                            if w == '"' || w == '\\' {
                                assert(false);
                            }
                            assert(esc_char(w)[1] == 'u');
                            assert(false);
                        }
                    }
                }
                return None;
            }
        } else {
            // a character standing for itself; raw control characters are
            // never part of a canonical fragment
            proof {
                assert forall|v: Seq<char>|
                    enc_at(s@, i as int, #[trigger] enc_str(v)) implies outv.len() < v.len()
                    && v[outv.len() as int] == c && (c as u32) >= 32 by {
                    if outv.len() == v.len() {
                        assert(s@[j as int] == '"');
                        assert(false);
                    }
                    let w = v[outv.len() as int];
                    lemma_esc_char_shape(w);
                    assert(s@.subrange(j as int, j + esc_char(w).len())[0] == s@[j as int]);
                    assert(esc_char(w)[0] == c);
                    if esc_char(w)[0] == '\\' {
                        assert(false);
                    }
                }
            }
            if (c as u32) < 32 {
                proof {
                    assert forall|v: Seq<char>|
                        !enc_at(s@, i as int, #[trigger] enc_str(v)) by {}
                }
                return None;
            }
            push_char(&mut out, c);
            proof {
                assert(s@.subrange(j as int, j + 1) =~= esc_char(c));
                lemma_esc_snoc(outv, c);
                lemma_enc_at_join(s@, i + 1, esc(outv), esc_char(c));
                assert forall|v: Seq<char>|
                    enc_at(s@, i as int, #[trigger] enc_str(v)) implies out@.len() <= v.len()
                    && out@ == v.take(out@.len() as int) by {
                    assert(out@ =~= v.take(outv.len() as int + 1));
                }
            }
            j = j + 1;
        }
    }
    // the input ended inside the string
    proof {
        assert forall|v: Seq<char>| !enc_at(s@, i as int, #[trigger] enc_str(v)) by {
            if enc_at(s@, i as int, enc_str(v)) {
                lemma_string_progress(s@, i as int, j as int, v, out@);
                assert(false);
            }
        }
    }
    None
}

} // verus!

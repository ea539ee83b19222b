//! Small verified text utilities shared by the trace parsers and the symbol
//! resolver: hexadecimal formatting and parsing, decimal parsing, whitespace
//! splitting, line splitting, trimming, and lexicographic comparison.

use vstd::prelude::*;

verus! {

/// The sixteen lowercase hexadecimal digit characters, by value.
pub open spec fn hex_char(d: nat) -> char {
    seq!['0', '1', '2', '3', '4', '5', '6', '7', '8', '9', 'a', 'b', 'c', 'd', 'e', 'f'][d as int]
}

/// The lowercase hexadecimal rendering of `x`, without prefix and without
/// leading zeros (a single `'0'` for zero).
pub open spec fn spec_hex(x: nat) -> Seq<char>
    decreases x,
{
    if x < 16 {
        seq![hex_char(x)]
    } else {
        spec_hex(x / 16).push(hex_char(x % 16))
    }
}

fn hex_digit_str(d: u64) -> (r: &'static str)
    requires
        d < 16,
    ensures
        r@ == seq![hex_char(d as nat)],
{
    proof {
        reveal_strlit("0");
        reveal_strlit("1");
        reveal_strlit("2");
        reveal_strlit("3");
        reveal_strlit("4");
        reveal_strlit("5");
        reveal_strlit("6");
        reveal_strlit("7");
        reveal_strlit("8");
        reveal_strlit("9");
        reveal_strlit("a");
        reveal_strlit("b");
        reveal_strlit("c");
        reveal_strlit("d");
        reveal_strlit("e");
        reveal_strlit("f");
    }
    match d {
        0 => "0",
        1 => "1",
        2 => "2",
        3 => "3",
        4 => "4",
        5 => "5",
        6 => "6",
        7 => "7",
        8 => "8",
        9 => "9",
        10 => "a",
        11 => "b",
        12 => "c",
        13 => "d",
        14 => "e",
        15 => "f",
        _ => "0",
    }
}

/// Renders `x` as lowercase hexadecimal without prefix or leading zeros.
pub fn u64_to_hex(x: u64) -> (r: String)
    ensures
        r@ == spec_hex(x as nat),
    decreases x,
{
    if x < 16 {
        hex_digit_str(x).to_owned()
    } else {
        let mut s = u64_to_hex(x / 16);
        s.append(hex_digit_str(x % 16));
        s
    }
}

/// The ten decimal digit characters, by value.
pub open spec fn dec_char(d: nat) -> char {
    seq!['0', '1', '2', '3', '4', '5', '6', '7', '8', '9'][d as int]
}

/// The decimal rendering of `x`, without leading zeros (a single `'0'` for
/// zero).
pub open spec fn spec_dec(x: nat) -> Seq<char>
    decreases x,
{
    if x < 10 {
        seq![dec_char(x)]
    } else {
        spec_dec(x / 10).push(dec_char(x % 10))
    }
}

fn dec_digit_str(d: u64) -> (r: &'static str)
    requires
        d < 10,
    ensures
        r@ == seq![dec_char(d as nat)],
{
    proof {
        reveal_strlit("0");
        reveal_strlit("1");
        reveal_strlit("2");
        reveal_strlit("3");
        reveal_strlit("4");
        reveal_strlit("5");
        reveal_strlit("6");
        reveal_strlit("7");
        reveal_strlit("8");
        reveal_strlit("9");
    }
    match d {
        0 => "0",
        1 => "1",
        2 => "2",
        3 => "3",
        4 => "4",
        5 => "5",
        6 => "6",
        7 => "7",
        8 => "8",
        9 => "9",
        _ => "0",
    }
}

/// Renders `x` in decimal without leading zeros.
pub fn u64_to_dec(x: u64) -> (r: String)
    ensures
        r@ == spec_dec(x as nat),
    decreases x,
{
    if x < 10 {
        dec_digit_str(x).to_owned()
    } else {
        let mut s = u64_to_dec(x / 10);
        s.append(dec_digit_str(x % 10));
        s
    }
}

/// Whether `c` is a decimal digit.
pub open spec fn is_dec_digit(c: char) -> bool {
    '0' <= c && c <= '9'
}

/// The value of a decimal digit character.
pub open spec fn dec_digit_val(c: char) -> nat
    recommends
        is_dec_digit(c),
{
    (c as nat - '0' as nat) as nat
}

/// Whether every character of `s` is a decimal digit.
pub open spec fn is_dec_digits(s: Seq<char>) -> bool {
    forall|i: int| 0 <= i < s.len() ==> is_dec_digit(#[trigger] s[i])
}

/// The value of a sequence of decimal digit characters, most significant
/// first.
pub open spec fn dec_val(s: Seq<char>) -> nat
    decreases s.len(),
{
    if s.len() == 0 {
        0
    } else {
        dec_val(s.drop_last()) * 10 + dec_digit_val(s.last())
    }
}

/// Extending a digit string on the right never lowers its value.
proof fn lemma_dec_val_take_le(s: Seq<char>, j: int)
    requires
        0 <= j <= s.len(),
    ensures
        dec_val(s.take(j)) <= dec_val(s),
    decreases s.len() - j,
{
    if j < s.len() {
        assert(s.take(j + 1).drop_last() =~= s.take(j));
        assert(s.take(j + 1).last() == s[j]);
        assert(dec_val(s.take(j)) <= dec_val(s.take(j + 1)));
        lemma_dec_val_take_le(s, j + 1);
    } else {
        assert(s.take(j) =~= s);
    }
}

/// Parses an unsigned decimal number. Returns the value exactly when `s` is
/// non-empty, holds decimal digits only, and its value fits in a `u64`.
pub fn parse_u64_dec(s: &str) -> (r: Option<u64>)
    ensures
        r is Some <==> (s@.len() > 0 && is_dec_digits(s@) && dec_val(s@) <= u64::MAX),
        r is Some ==> r->0 == dec_val(s@),
{
    let n = s.unicode_len();
    if n == 0 {
        return None;
    }
    let mut val: u64 = 0;
    let mut i: usize = 0;
    while i < n
        invariant
            0 <= i <= n,
            n == s@.len(),
            is_dec_digits(s@.take(i as int)),
            val == dec_val(s@.take(i as int)),
        decreases n - i,
    {
        let c = s.get_char(i);
        let d = c as u32;
        if d < 48 || d > 57 {
            assert(!is_dec_digit(s@[i as int]));
            return None;
        }
        let dv = (d - 48) as u64;
        proof {
            assert(s@.take(i + 1).drop_last() =~= s@.take(i as int));
            assert(s@.take(i + 1).last() == s@[i as int]);
            assert(is_dec_digit(s@[i as int]));
            assert(dv == dec_digit_val(s@[i as int]));
        }
        if val > (u64::MAX - dv) / 10 {
            proof {
                assert(val * 10 + dv > u64::MAX) by (nonlinear_arith)
                    requires
                        val > (u64::MAX - dv) / 10,
                        dv <= 9,
                ;
                assert(dec_val(s@.take(i + 1)) > u64::MAX);
                lemma_dec_val_take_le(s@, i + 1);
            }
            return None;
        }
        proof {
            assert(val * 10 + dv <= u64::MAX) by (nonlinear_arith)
                requires
                    val <= (u64::MAX - dv) / 10,
                    dv <= 9,
            ;
        }
        val = val * 10 + dv;
        i = i + 1;
    }
    proof {
        assert(s@.take(n as int) =~= s@);
    }
    Some(val)
}

/// Whether `c` is a hexadecimal digit, upper or lower case.
pub open spec fn is_hex_digit(c: char) -> bool {
    ('0' <= c && c <= '9') || ('a' <= c && c <= 'f') || ('A' <= c && c <= 'F')
}

/// The value of a hexadecimal digit character.
pub open spec fn hex_digit_val(c: char) -> nat
    recommends
        is_hex_digit(c),
{
    if '0' <= c && c <= '9' {
        (c as nat - '0' as nat) as nat
    } else if 'a' <= c && c <= 'f' {
        (c as nat - 'a' as nat + 10) as nat
    } else {
        (c as nat - 'A' as nat + 10) as nat
    }
}

/// Whether every character of `s` is a hexadecimal digit.
pub open spec fn is_hex_digits(s: Seq<char>) -> bool {
    forall|i: int| 0 <= i < s.len() ==> is_hex_digit(#[trigger] s[i])
}

/// The value of a sequence of hexadecimal digit characters, most significant
/// first.
pub open spec fn hex_val(s: Seq<char>) -> nat
    decreases s.len(),
{
    if s.len() == 0 {
        0
    } else {
        hex_val(s.drop_last()) * 16 + hex_digit_val(s.last())
    }
}

/// Extending a hexadecimal digit string on the right never lowers its value.
proof fn lemma_hex_val_take_le(s: Seq<char>, j: int)
    requires
        0 <= j <= s.len(),
    ensures
        hex_val(s.take(j)) <= hex_val(s),
    decreases s.len() - j,
{
    if j < s.len() {
        assert(s.take(j + 1).drop_last() =~= s.take(j));
        assert(s.take(j + 1).last() == s[j]);
        assert(hex_val(s.take(j)) <= hex_val(s.take(j + 1)));
        lemma_hex_val_take_le(s, j + 1);
    } else {
        assert(s.take(j) =~= s);
    }
}

/// Parses an unsigned hexadecimal number without prefix, accepting upper and
/// lower case digits. Returns the value exactly when `s` is non-empty, holds
/// hexadecimal digits only, and its value is at most `i64::MAX`, the bound
/// that signed 64-bit address arithmetic allows.
pub fn parse_hex_addr(s: &str) -> (r: Option<u64>)
    ensures
        r is Some <==> (s@.len() > 0 && is_hex_digits(s@) && hex_val(s@) <= i64::MAX),
        r is Some ==> r->0 == hex_val(s@),
{
    let n = s.unicode_len();
    if n == 0 {
        return None;
    }
    let bound: u64 = 0x7fff_ffff_ffff_ffff;
    let mut val: u64 = 0;
    let mut i: usize = 0;
    while i < n
        invariant
            0 <= i <= n,
            n == s@.len(),
            is_hex_digits(s@.take(i as int)),
            val == hex_val(s@.take(i as int)),
            val <= 0x7fff_ffff_ffff_ffff,
            bound == 0x7fff_ffff_ffff_ffff,
        decreases n - i,
    {
        let c = s.get_char(i);
        let d = c as u32;
        let dv: u64 = if d >= 48 && d <= 57 {
            (d - 48) as u64
        } else if d >= 97 && d <= 102 {
            (d - 97 + 10) as u64
        } else if d >= 65 && d <= 70 {
            (d - 65 + 10) as u64
        } else {
            assert(!is_hex_digit(s@[i as int]));
            return None;
        };
        proof {
            assert(s@.take(i + 1).drop_last() =~= s@.take(i as int));
            assert(s@.take(i + 1).last() == s@[i as int]);
            assert(is_hex_digit(s@[i as int]));
            assert(dv == hex_digit_val(s@[i as int]));
        }
        if val > (bound - dv) / 16 {
            proof {
                assert(val * 16 + dv > 0x7fff_ffff_ffff_ffff) by (nonlinear_arith)
                    requires
                        val > (0x7fff_ffff_ffff_ffffu64 - dv) / 16,
                        dv <= 15,
                ;
                assert(hex_val(s@.take(i + 1)) > i64::MAX);
                lemma_hex_val_take_le(s@, i + 1);
            }
            return None;
        }
        proof {
            assert(val * 16 + dv <= 0x7fff_ffff_ffff_ffff) by (nonlinear_arith)
                requires
                    val <= (0x7fff_ffff_ffff_ffffu64 - dv) / 16,
                    dv <= 15,
            ;
        }
        val = val * 16 + dv;
        i = i + 1;
    }
    proof {
        assert(s@.take(n as int) =~= s@);
    }
    Some(val)
}

/// Strict lexicographic order on character sequences.
pub open spec fn lex_lt(a: Seq<char>, b: Seq<char>) -> bool
    decreases a.len(),
{
    if b.len() == 0 {
        false
    } else if a.len() == 0 {
        true
    } else {
        a[0] < b[0] || (a[0] == b[0] && lex_lt(a.drop_first(), b.drop_first()))
    }
}

/// Lexicographic order on character sequences, allowing equality.
pub open spec fn lex_le(a: Seq<char>, b: Seq<char>) -> bool {
    lex_lt(a, b) || a == b
}

/// Compares two strings in strict lexicographic character order.
pub fn str_lt(a: &str, b: &str) -> (r: bool)
    ensures
        r == lex_lt(a@, b@),
{
    let an = a.unicode_len();
    let bn = b.unicode_len();
    proof {
        assert(a@.skip(0) =~= a@);
        assert(b@.skip(0) =~= b@);
    }
    let mut i: usize = 0;
    loop
        invariant
            0 <= i <= an,
            i <= bn,
            an == a@.len(),
            bn == b@.len(),
            lex_lt(a@, b@) == lex_lt(a@.skip(i as int), b@.skip(i as int)),
        decreases an - i,
    {
        if i >= bn {
            return false;
        }
        if i >= an {
            return true;
        }
        let ca = a.get_char(i);
        let cb = b.get_char(i);
        if ca != cb {
            return ca < cb;
        }
        proof {
            assert(a@.skip(i as int).drop_first() =~= a@.skip(i + 1));
            assert(b@.skip(i as int).drop_first() =~= b@.skip(i + 1));
        }
        i = i + 1;
    }
}

/// Of two distinct sequences, one is lexicographically below the other.
pub proof fn lemma_lex_total(a: Seq<char>, b: Seq<char>)
    ensures
        lex_lt(a, b) || lex_lt(b, a) || a == b,
    decreases a.len(),
{
    if a.len() > 0 && b.len() > 0 && a[0] == b[0] {
        lemma_lex_total(a.drop_first(), b.drop_first());
        if a.drop_first() == b.drop_first() {
            assert forall|i: int| 0 <= i < a.len() implies a[i] == b[i] by {
                if i > 0 {
                    assert(a[i] == a.drop_first()[i - 1]);
                    assert(b[i] == b.drop_first()[i - 1]);
                }
            }
            assert(a =~= b);
        }
    } else if a.len() == 0 && b.len() == 0 {
        assert(a =~= b);
    }
}

/// Lexicographic order is transitive.
pub proof fn lemma_lex_lt_trans(a: Seq<char>, b: Seq<char>, c: Seq<char>)
    requires
        lex_lt(a, b),
        lex_lt(b, c),
    ensures
        lex_lt(a, c),
    decreases a.len(),
{
    if a.len() > 0 && b.len() > 0 && c.len() > 0 {
        if a[0] == b[0] && b[0] == c[0] {
            lemma_lex_lt_trans(a.drop_first(), b.drop_first(), c.drop_first());
        }
    }
}

/// Nothing is lexicographically below itself.
pub proof fn lemma_lex_irrefl(a: Seq<char>)
    ensures
        !lex_lt(a, a),
    decreases a.len(),
{
    if a.len() > 0 {
        lemma_lex_irrefl(a.drop_first());
    }
}

/// The first character of a string, if any.
pub fn first_char(s: &str) -> (r: Option<char>)
    ensures
        r is Some <==> s@.len() > 0,
        r is Some ==> r->0 == s@[0],
{
    if s.unicode_len() == 0 {
        None
    } else {
        Some(s.get_char(0))
    }
}

/// Whether `s` begins with `prefix`, character by character.
pub open spec fn spec_starts_with(s: Seq<char>, prefix: Seq<char>) -> bool {
    prefix.len() <= s.len() && s.take(prefix.len() as int) == prefix
}

/// Whether `s` begins with `prefix`.
pub fn str_starts_with(s: &str, prefix: &str) -> (r: bool)
    ensures
        r == spec_starts_with(s@, prefix@),
{
    let n = s.unicode_len();
    let pn = prefix.unicode_len();
    if pn > n {
        proof {
            assert(!spec_starts_with(s@, prefix@));
        }
        return false;
    }
    let mut i: usize = 0;
    while i < pn
        invariant
            0 <= i <= pn <= n,
            n == s@.len(),
            pn == prefix@.len(),
            forall|k: int| 0 <= k < i ==> s@[k] == prefix@[k],
        decreases pn - i,
    {
        if s.get_char(i) != prefix.get_char(i) {
            proof {
                assert(s@.take(pn as int)[i as int] != prefix@[i as int]);
            }
            return false;
        }
        i = i + 1;
    }
    proof {
        assert(s@.take(pn as int) =~= prefix@);
    }
    true
}

/// Whether `sub` occurs in `s` starting at position `i`.
pub open spec fn contains_at(s: Seq<char>, sub: Seq<char>, i: int) -> bool {
    0 <= i && i + sub.len() <= s.len() && s.subrange(i, i + sub.len()) == sub
}

/// Whether `sub` occurs anywhere in `s`.
pub open spec fn spec_contains(s: Seq<char>, sub: Seq<char>) -> bool {
    exists|i: int| contains_at(s, sub, i)
}

/// Whether `sub` occurs at position `i` of `s`.
fn matches_at(s: &str, sub: &str, i: usize) -> (r: bool)
    requires
        i + sub@.len() <= s@.len(),
        s@.len() <= usize::MAX,
    ensures
        r == contains_at(s@, sub@, i as int),
{
    let sn = sub.unicode_len();
    let mut k: usize = 0;
    while k < sn
        invariant
            0 <= k <= sn,
            sn == sub@.len(),
            i + sn <= s@.len(),
            s@.len() <= usize::MAX,
            forall|j: int| 0 <= j < k ==> s@[i + j] == sub@[j],
        decreases sn - k,
    {
        if s.get_char(i + k) != sub.get_char(k) {
            proof {
                assert(s@.subrange(i as int, i + sn)[k as int] != sub@[k as int]);
            }
            return false;
        }
        k = k + 1;
    }
    proof {
        assert(s@.subrange(i as int, i + sn) =~= sub@);
    }
    true
}

/// Whether `sub` occurs anywhere in `s`.
pub fn str_contains(s: &str, sub: &str) -> (r: bool)
    ensures
        r == spec_contains(s@, sub@),
{
    let n = s.unicode_len();
    let sn = sub.unicode_len();
    if sn > n {
        proof {
            assert(forall|i: int| !contains_at(s@, sub@, i));
        }
        return false;
    }
    if sn == 0 {
        proof {
            assert(s@.subrange(0, 0) =~= sub@);
            assert(contains_at(s@, sub@, 0));
        }
        return true;
    }
    let mut i: usize = 0;
    while i <= n - sn
        invariant
            0 <= i <= n - sn + 1,
            1 <= sn <= n,
            n == s@.len(),
            sn == sub@.len(),
            forall|j: int| 0 <= j < i ==> !contains_at(s@, sub@, j),
        decreases n - i,
    {
        if matches_at(s, sub, i) {
            proof {
                assert(contains_at(s@, sub@, i as int));
            }
            return true;
        }
        i = i + 1;
    }
    proof {
        assert(forall|j: int| i <= j ==> !contains_at(s@, sub@, j));
    }
    false
}

/// Whether `c` is an ASCII whitespace separator.
pub open spec fn is_ws(c: char) -> bool {
    c == ' ' || c == '\t' || c == '\r' || c == '\n'
}

fn is_ws_exec(c: char) -> (r: bool)
    ensures
        r == is_ws(c),
{
    c == ' ' || c == '\t' || c == '\r' || c == '\n'
}

/// The length of the whitespace-free word beginning at position `i`.
pub open spec fn word_len(s: Seq<char>, i: int) -> int
    decreases s.len() - i,
        when 0 <= i <= s.len()
{
    if i >= s.len() || is_ws(s[i]) {
        0
    } else {
        1 + word_len(s, i + 1)
    }
}

/// The word beginning at `i` is non-empty exactly when `i` is not at a
/// separator, stays within bounds, holds no separator, and ends at one or at
/// the end of the sequence.
pub proof fn lemma_word_len_bounds(s: Seq<char>, i: int)
    requires
        0 <= i <= s.len(),
    ensures
        0 <= word_len(s, i),
        i + word_len(s, i) <= s.len(),
        forall|k: int| i <= k < i + word_len(s, i) ==> !is_ws(s[k]),
        i + word_len(s, i) == s.len() || is_ws(s[i + word_len(s, i)]),
    decreases s.len() - i,
{
    if i < s.len() && !is_ws(s[i]) {
        lemma_word_len_bounds(s, i + 1);
    }
}

/// A stretch without separators that ends at one, or at the end, is the word.
proof fn lemma_word_len_is(s: Seq<char>, i: int, j: int)
    requires
        0 <= i <= j <= s.len(),
        forall|k: int| i <= k < j ==> !is_ws(s[k]),
        j == s.len() || is_ws(s[j]),
    ensures
        word_len(s, i) == j - i,
    decreases j - i,
{
    if i < j {
        lemma_word_len_is(s, i + 1, j);
    }
}

/// The whitespace-separated words of `s` from position `i` on, in order.
pub open spec fn spec_split_ws(s: Seq<char>, i: int) -> Seq<Seq<char>>
    decreases s.len() - i,
        when 0 <= i <= s.len()
        via spec_split_ws_dec
{
    if i >= s.len() {
        seq![]
    } else if is_ws(s[i]) {
        spec_split_ws(s, i + 1)
    } else {
        seq![s.subrange(i, i + word_len(s, i))] + spec_split_ws(s, i + word_len(s, i))
    }
}

#[via_fn]
proof fn spec_split_ws_dec(s: Seq<char>, i: int) {
    if 0 <= i < s.len() && !is_ws(s[i]) {
        lemma_word_len_bounds(s, i);
    }
}

/// Splits `s` at runs of whitespace, as the words of `spec_split_ws`.
pub fn split_whitespace_fields(s: &str) -> (r: Vec<String>)
    ensures
        r.deep_view() == spec_split_ws(s@, 0),
{
    let n = s.unicode_len();
    let mut fields: Vec<String> = Vec::new();
    let mut i: usize = 0;
    proof {
        assert(fields.deep_view() + spec_split_ws(s@, 0) =~= spec_split_ws(s@, 0));
    }
    while i < n
        invariant
            0 <= i <= n,
            n == s@.len(),
            spec_split_ws(s@, 0) == fields.deep_view() + spec_split_ws(s@, i as int),
        decreases n - i,
    {
        let c = s.get_char(i);
        if is_ws_exec(c) {
            proof {
                assert(spec_split_ws(s@, i as int) == spec_split_ws(s@, i + 1));
            }
            i = i + 1;
        } else {
            let ghost old_fields = fields.deep_view();
            let start = i;
            let mut e = i + 1;
            loop
                invariant
                    start < e <= n,
                    n == s@.len(),
                    forall|k: int| start <= k < e ==> !is_ws(s@[k]),
                ensures
                    start < e <= n,
                    forall|k: int| start <= k < e ==> !is_ws(s@[k]),
                    e == n || is_ws(s@[e as int]),
                decreases n - e,
            {
                if e >= n {
                    break ;
                }
                if is_ws_exec(s.get_char(e)) {
                    break ;
                }
                e = e + 1;
            }
            proof {
                lemma_word_len_is(s@, start as int, e as int);
            }
            let w = s.substring_char(start, e);
            fields.push(w.to_owned());
            proof {
                assert(fields.deep_view() =~= old_fields.push(s@.subrange(
                    start as int,
                    e as int,
                )));
                assert(spec_split_ws(s@, start as int) == seq![
                    s@.subrange(start as int, e as int),
                ] + spec_split_ws(s@, e as int));
                assert(old_fields + spec_split_ws(s@, start as int) =~= fields.deep_view()
                    + spec_split_ws(s@, e as int));
            }
            i = e;
        }
    }
    proof {
        assert(fields.deep_view() + spec_split_ws(s@, n as int) =~= fields.deep_view());
    }
    fields
}

/// The distance from position `i` to the next line feed, or to the end.
pub open spec fn line_len(s: Seq<char>, i: int) -> int
    decreases s.len() - i,
        when 0 <= i <= s.len()
{
    if i >= s.len() || s[i] == '\n' {
        0
    } else {
        1 + line_len(s, i + 1)
    }
}

proof fn lemma_line_len_bounds(s: Seq<char>, i: int)
    requires
        0 <= i <= s.len(),
    ensures
        0 <= line_len(s, i),
        i + line_len(s, i) <= s.len(),
    decreases s.len() - i,
{
    if i < s.len() && s[i] != '\n' {
        lemma_line_len_bounds(s, i + 1);
    }
}

proof fn lemma_line_len_is(s: Seq<char>, i: int, j: int)
    requires
        0 <= i <= j <= s.len(),
        forall|k: int| i <= k < j ==> s[k] != '\n',
        j == s.len() || s[j] == '\n',
    ensures
        line_len(s, i) == j - i,
    decreases j - i,
{
    if i < j {
        lemma_line_len_is(s, i + 1, j);
    }
}

/// The lines of `s` from position `i` on, without their line feeds. A final
/// line feed ends the last line; it does not open an empty one.
pub open spec fn spec_split_lines(s: Seq<char>, i: int) -> Seq<Seq<char>>
    decreases s.len() - i,
        when 0 <= i <= s.len()
        via spec_split_lines_dec
{
    if i >= s.len() {
        seq![]
    } else {
        let l = line_len(s, i);
        if i + l >= s.len() {
            seq![s.subrange(i, s.len() as int)]
        } else {
            seq![s.subrange(i, i + l)] + spec_split_lines(s, i + l + 1)
        }
    }
}

#[via_fn]
proof fn spec_split_lines_dec(s: Seq<char>, i: int) {
    if 0 <= i <= s.len() && i < s.len() {
        lemma_line_len_bounds(s, i);
    }
}

/// Splits `s` into its lines, as `spec_split_lines` gives them.
pub fn split_lines(s: &str) -> (r: Vec<String>)
    ensures
        r.deep_view() == spec_split_lines(s@, 0),
{
    let n = s.unicode_len();
    let mut lines: Vec<String> = Vec::new();
    let mut i: usize = 0;
    proof {
        assert(lines.deep_view() + spec_split_lines(s@, 0) =~= spec_split_lines(s@, 0));
    }
    while i < n
        invariant
            0 <= i <= n,
            n == s@.len(),
            spec_split_lines(s@, 0) == lines.deep_view() + spec_split_lines(s@, i as int),
        decreases n - i,
    {
        let ghost old_lines = lines.deep_view();
        let start = i;
        let mut e = i;
        loop
            invariant
                start <= e <= n,
                n == s@.len(),
                forall|k: int| start <= k < e ==> s@[k] != '\n',
            ensures
                start <= e <= n,
                forall|k: int| start <= k < e ==> s@[k] != '\n',
                e == n || s@[e as int] == '\n',
            decreases n - e,
        {
            if e >= n {
                break ;
            }
            if s.get_char(e) == '\n' {
                break ;
            }
            e = e + 1;
        }
        proof {
            lemma_line_len_is(s@, start as int, e as int);
        }
        let w = s.substring_char(start, e);
        lines.push(w.to_owned());
        proof {
            assert(lines.deep_view() =~= old_lines.push(s@.subrange(start as int, e as int)));
        }
        if e >= n {
            proof {
                assert(s@.subrange(start as int, e as int) == s@.subrange(
                    start as int,
                    s@.len() as int,
                ));
                assert(spec_split_lines(s@, start as int) == seq![
                    s@.subrange(start as int, e as int),
                ]);
                assert(old_lines + spec_split_lines(s@, start as int) =~= lines.deep_view()
                    + spec_split_lines(s@, n as int));
            }
            i = n;
        } else {
            proof {
                assert(spec_split_lines(s@, start as int) == seq![
                    s@.subrange(start as int, e as int),
                ] + spec_split_lines(s@, e + 1));
                assert(old_lines + spec_split_lines(s@, start as int) =~= lines.deep_view()
                    + spec_split_lines(s@, e + 1));
            }
            i = e + 1;
        }
    }
    proof {
        assert(lines.deep_view() + spec_split_lines(s@, n as int) =~= lines.deep_view());
    }
    lines
}

/// `s` without its trailing whitespace.
pub open spec fn spec_trim_end_ws(s: Seq<char>) -> Seq<char>
    decreases s.len(),
{
    if s.len() == 0 || !is_ws(s.last()) {
        s
    } else {
        spec_trim_end_ws(s.drop_last())
    }
}

proof fn lemma_trim_end_ws(s: Seq<char>, j: int)
    requires
        0 <= j <= s.len(),
        forall|k: int| j <= k < s.len() ==> is_ws(s[k]),
        j == 0 || !is_ws(s[j - 1]),
    ensures
        spec_trim_end_ws(s) == s.take(j),
    decreases s.len(),
{
    if j == s.len() {
        assert(s.take(j) =~= s);
    } else {
        assert(is_ws(s.last()));
        assert(s.drop_last() =~= s.take(s.len() - 1));
        lemma_trim_end_ws(s.take(s.len() - 1), j);
        assert(s.take(s.len() - 1).take(j) =~= s.take(j));
    }
}

/// Removes trailing whitespace.
pub fn trim_end_ws(s: &str) -> (r: String)
    ensures
        r@ == spec_trim_end_ws(s@),
{
    let n = s.unicode_len();
    let mut j = n;
    loop
        invariant
            0 <= j <= n,
            n == s@.len(),
            forall|k: int| j <= k < n ==> is_ws(s@[k]),
        ensures
            0 <= j <= n,
            forall|k: int| j <= k < n ==> is_ws(s@[k]),
            j == 0 || !is_ws(s@[j - 1]),
        decreases j,
    {
        if j == 0 {
            break ;
        }
        if !is_ws_exec(s.get_char(j - 1)) {
            break ;
        }
        j = j - 1;
    }
    proof {
        lemma_trim_end_ws(s@, j as int);
    }
    s.substring_char(0, j).to_owned()
}

/// Whether `c` is trimmed from the front of a listing address field: a
/// leading zero or a space.
pub open spec fn is_zero_or_space(c: char) -> bool {
    c == '0' || c == ' '
}

/// `s` without its leading zeros and spaces.
pub open spec fn spec_trim_start_zeros(s: Seq<char>) -> Seq<char>
    decreases s.len(),
{
    if s.len() == 0 || !is_zero_or_space(s[0]) {
        s
    } else {
        spec_trim_start_zeros(s.drop_first())
    }
}

proof fn lemma_trim_start_zeros(s: Seq<char>, i: int)
    requires
        0 <= i <= s.len(),
        forall|k: int| 0 <= k < i ==> is_zero_or_space(s[k]),
        i == s.len() || !is_zero_or_space(s[i]),
    ensures
        spec_trim_start_zeros(s) == s.skip(i),
    decreases i,
{
    if i == 0 {
        assert(s.skip(0) =~= s);
    } else {
        assert(is_zero_or_space(s[0]));
        lemma_trim_start_zeros(s.drop_first(), i - 1);
        assert(s.drop_first().skip(i - 1) =~= s.skip(i));
    }
}

/// Removes leading zeros and spaces, as a listing address field is
/// normalized before parsing.
pub fn trim_start_zeros_spaces(s: &str) -> (r: String)
    ensures
        r@ == spec_trim_start_zeros(s@),
{
    let n = s.unicode_len();
    let mut i: usize = 0;
    loop
        invariant
            0 <= i <= n,
            n == s@.len(),
            forall|k: int| 0 <= k < i ==> is_zero_or_space(s@[k]),
        ensures
            0 <= i <= n,
            forall|k: int| 0 <= k < i ==> is_zero_or_space(s@[k]),
            i == n || !is_zero_or_space(s@[i as int]),
        decreases n - i,
    {
        if i >= n {
            break ;
        }
        let c = s.get_char(i);
        if !(c == '0' || c == ' ') {
            break ;
        }
        i = i + 1;
    }
    proof {
        lemma_trim_start_zeros(s@, i as int);
        assert(s@.subrange(i as int, n as int) =~= s@.skip(i as int));
    }
    s.substring_char(i, n).to_owned()
}

/// Whether `c` is an angle bracket.
pub open spec fn is_angle(c: char) -> bool {
    c == '<' || c == '>'
}

/// `s` without its leading and trailing angle brackets.
pub open spec fn spec_trim_angles(s: Seq<char>) -> Seq<char>
    decreases s.len(),
{
    if s.len() == 0 {
        s
    } else if is_angle(s[0]) {
        spec_trim_angles(s.drop_first())
    } else if is_angle(s.last()) {
        spec_trim_angles(s.drop_last())
    } else {
        s
    }
}

proof fn lemma_all_angles(s: Seq<char>)
    requires
        forall|k: int| 0 <= k < s.len() ==> is_angle(s[k]),
    ensures
        spec_trim_angles(s) == Seq::<char>::empty(),
    decreases s.len(),
{
    if s.len() == 0 {
        assert(s =~= Seq::<char>::empty());
    } else {
        lemma_all_angles(s.drop_first());
    }
}

proof fn lemma_trim_angles(s: Seq<char>, i: int, j: int)
    requires
        0 <= i <= j <= s.len(),
        forall|k: int| 0 <= k < i ==> is_angle(s[k]),
        forall|k: int| j <= k < s.len() ==> is_angle(s[k]),
        i == j || !is_angle(s[i]),
        i == j || !is_angle(s[j - 1]),
    ensures
        spec_trim_angles(s) == s.subrange(i, j),
    decreases s.len(),
{
    if i == j {
        lemma_all_angles(s);
        assert(s.subrange(i, j) =~= Seq::<char>::empty());
    } else if s.len() == 0 {
        assert(s.subrange(i, j) =~= s);
    } else if is_angle(s[0]) {
        assert(i >= 1);
        lemma_trim_angles(s.drop_first(), i - 1, j - 1);
        assert(s.drop_first().subrange(i - 1, j - 1) =~= s.subrange(i, j));
    } else if is_angle(s.last()) {
        assert(j <= s.len() - 1);
        assert(s.drop_last() =~= s.take(s.len() - 1));
        lemma_trim_angles(s.take(s.len() - 1), i, j);
        assert(s.take(s.len() - 1).subrange(i, j) =~= s.subrange(i, j));
    } else {
        assert(i == 0 && j == s.len());
        assert(s.subrange(i, j) =~= s);
    }
}

/// Removes angle brackets from both ends, as the bracketed function name of
/// a listing line is unwrapped.
pub fn trim_angle_brackets(s: &str) -> (r: String)
    ensures
        r@ == spec_trim_angles(s@),
{
    let n = s.unicode_len();
    let mut i: usize = 0;
    loop
        invariant
            0 <= i <= n,
            n == s@.len(),
            forall|k: int| 0 <= k < i ==> is_angle(s@[k]),
        ensures
            0 <= i <= n,
            forall|k: int| 0 <= k < i ==> is_angle(s@[k]),
            i == n || !is_angle(s@[i as int]),
        decreases n - i,
    {
        if i >= n {
            break ;
        }
        let c = s.get_char(i);
        if !(c == '<' || c == '>') {
            break ;
        }
        i = i + 1;
    }
    let mut j = n;
    loop
        invariant
            i <= j <= n,
            n == s@.len(),
            forall|k: int| j <= k < n ==> is_angle(s@[k]),
        ensures
            i <= j <= n,
            forall|k: int| j <= k < n ==> is_angle(s@[k]),
            j == i || !is_angle(s@[j - 1]),
        decreases j,
    {
        if j == i {
            break ;
        }
        let c = s.get_char(j - 1);
        if !(c == '<' || c == '>') {
            break ;
        }
        j = j - 1;
    }
    proof {
        lemma_trim_angles(s@, i as int, j as int);
    }
    s.substring_char(i, j).to_owned()
}

/// Whether `s` begins with the characters `0x`.
pub open spec fn has_0x(s: Seq<char>) -> bool {
    s.len() >= 2 && s[0] == '0' && s[1] == 'x'
}

/// `s` without every repetition of a leading `0x`.
pub open spec fn spec_strip_0x(s: Seq<char>) -> Seq<char>
    decreases s.len(),
{
    if has_0x(s) {
        spec_strip_0x(s.skip(2))
    } else {
        s
    }
}

/// Removes every repetition of a leading `0x`, as a hexadecimal base
/// address is normalized before parsing.
pub fn strip_0x_prefix(s: &str) -> (r: String)
    ensures
        r@ == spec_strip_0x(s@),
{
    let n = s.unicode_len();
    let mut i: usize = 0;
    proof {
        assert(s@.skip(0) =~= s@);
    }
    loop
        invariant
            0 <= i <= n,
            n == s@.len(),
            spec_strip_0x(s@) == spec_strip_0x(s@.skip(i as int)),
        ensures
            0 <= i <= n,
            spec_strip_0x(s@) == s@.skip(i as int),
        decreases n - i,
    {
        if n - i < 2 {
            proof {
                assert(!has_0x(s@.skip(i as int)));
            }
            break ;
        }
        let c0 = s.get_char(i);
        let c1 = s.get_char(i + 1);
        if !(c0 == '0' && c1 == 'x') {
            proof {
                assert(s@.skip(i as int)[0] == s@[i as int]);
                assert(s@.skip(i as int)[1] == s@[i + 1]);
                assert(!has_0x(s@.skip(i as int)));
            }
            break ;
        }
        proof {
            assert(s@.skip(i as int)[0] == s@[i as int]);
            assert(s@.skip(i as int)[1] == s@[i + 1]);
            assert(has_0x(s@.skip(i as int)));
            assert(s@.skip(i as int).skip(2) =~= s@.skip(i + 2));
        }
        i = i + 2;
    }
    s.substring_char(i, n).to_owned()
}

/// The character `c` with an ASCII upper-case letter mapped to lower case.
pub open spec fn lower_char(c: char) -> char {
    if 'A' <= c && c <= 'Z' {
        ((c as u32) + 32) as char
    } else {
        c
    }
}

/// `s` with every ASCII upper-case letter mapped to lower case.
pub open spec fn spec_ascii_lower(s: Seq<char>) -> Seq<char> {
    s.map_values(|c: char| lower_char(c))
}

/// Relies on std's `str::to_ascii_lowercase`: ASCII upper-case letters are
/// mapped to their lower-case counterparts and every other character is
/// kept unchanged.
#[verifier::external_body]
pub(crate) fn ascii_lowercase(s: &str) -> (r: String)
    ensures
        r@ == spec_ascii_lower(s@),
{
    s.to_ascii_lowercase()
}

/// Relies on std's `String::from_utf8`: it returns the decoded string
/// exactly when the bytes are valid UTF-8, and fails otherwise.
#[verifier::external_body]
pub(crate) fn string_from_utf8(v: Vec<u8>) -> (r: Option<String>)
    ensures
        r is Some <==> vstd::utf8::valid_utf8(v@),
        r is Some ==> r->0@ == vstd::utf8::decode_utf8(v@),
{
    match String::from_utf8(v) {
        Ok(s) => Some(s),
        Err(_) => None,
    }
}

} // verus!

//! Text as a sequence of characters: the key grammar of the store is built
//! from the operations of this module.

use vstd::prelude::*;
use vstd::string::StrSliceExecFns;

verus! {

/// `String::push` of std: appends the character to the end of the string.
pub assume_specification[ String::push ](s: &mut String, c: char)
    ensures
        final(s)@ == old(s)@.push(c),
;

// ── Models ───────────────────────────────────────────────────────────────────

/// `p` is an initial segment of `s`.
pub open spec fn has_prefix(s: Seq<char>, p: Seq<char>) -> bool {
    p.len() <= s.len() && s.take(p.len() as int) == p
}

/// `p` is a final segment of `s`.
pub open spec fn has_suffix(s: Seq<char>, p: Seq<char>) -> bool {
    p.len() <= s.len() && s.skip(s.len() - p.len()) == p
}

/// What stands behind the first `n` characters.
pub open spec fn behind(s: Seq<char>, p: Seq<char>) -> Seq<char> {
    s.skip(p.len() as int)
}

/// Lexicographic order by code point.
pub open spec fn text_lt(a: Seq<char>, b: Seq<char>) -> bool
    decreases a.len(),
{
    if b.len() == 0 {
        false
    } else if a.len() == 0 {
        true
    } else if a[0] == b[0] {
        text_lt(a.drop_first(), b.drop_first())
    } else {
        a[0] < b[0]
    }
}

/// The lower-case hexadecimal digit of a value below sixteen.
pub open spec fn hex_digit(d: int) -> char {
    if d < 10 {
        (48 + d) as char
    } else {
        (87 + d) as char
    }
}

/// The value of a hexadecimal digit of either case.
pub open spec fn hex_value(c: char) -> Option<int> {
    if '0' <= c && c <= '9' {
        Some(c as int - 48)
    } else if 'a' <= c && c <= 'f' {
        Some(c as int - 87)
    } else if 'A' <= c && c <= 'F' {
        Some(c as int - 55)
    } else {
        None
    }
}

/// `len` lower-case hexadecimal digits of `n`, most significant first.
pub open spec fn hex_fixed(n: int, len: nat) -> Seq<char>
    decreases len,
{
    if len == 0 {
        Seq::empty()
    } else {
        hex_fixed(n / 16, (len - 1) as nat).push(hex_digit(n % 16))
    }
}

/// The value of a string of hexadecimal digits, `None` if one of its
/// characters is no digit.
pub open spec fn hex_number(s: Seq<char>) -> Option<int>
    decreases s.len(),
{
    if s.len() == 0 {
        Some(0)
    } else {
        match (hex_number(s.drop_last()), hex_value(s.last())) {
            (Some(hi), Some(lo)) => Some(hi * 16 + lo),
            _ => None,
        }
    }
}

/// What remains of a number's text once one leading plus sign is dropped.
pub open spec fn unsigned_digits(s: Seq<char>) -> Seq<char> {
    if s.len() > 0 && s[0] == '+' {
        s.drop_first()
    } else {
        s
    }
}

/// The `u64` that a hexadecimal text denotes: an optional plus sign and at
/// least one digit, with a value that fits.
pub open spec fn parse_hex_spec(s: Seq<char>) -> Option<u64> {
    let d = unsigned_digits(s);
    if d.len() == 0 {
        None
    } else {
        match hex_number(d) {
            Some(v) => if v <= u64::MAX {
                Some(v as u64)
            } else {
                None
            },
            None => None,
        }
    }
}

/// The decimal digits of `n`, without leading zeros.
pub open spec fn dec_text(n: nat) -> Seq<char>
    decreases n,
{
    if n < 10 {
        seq![(48 + n) as char]
    } else {
        dec_text(n / 10).push((48 + n % 10) as char)
    }
}

/// The value of a decimal digit.
pub open spec fn dec_value(c: char) -> Option<int> {
    if '0' <= c && c <= '9' {
        Some(c as int - 48)
    } else {
        None
    }
}

/// The value of a string of decimal digits, `None` if one of its characters
/// is no digit.
pub open spec fn dec_number(s: Seq<char>) -> Option<int>
    decreases s.len(),
{
    if s.len() == 0 {
        Some(0)
    } else {
        match (dec_number(s.drop_last()), dec_value(s.last())) {
            (Some(hi), Some(lo)) => Some(hi * 10 + lo),
            _ => None,
        }
    }
}

/// The `u16` that a decimal text denotes: an optional plus sign and at least
/// one digit, with a value that fits.
pub open spec fn parse_u16_spec(s: Seq<char>) -> Option<u16> {
    let d = unsigned_digits(s);
    if d.len() == 0 {
        None
    } else {
        match dec_number(d) {
            Some(v) => if v <= u16::MAX {
                Some(v as u16)
            } else {
                None
            },
            None => None,
        }
    }
}

/// The views of a list of strings.
pub open spec fn views(v: Seq<String>) -> Seq<Seq<char>> {
    v.map_values(|s: String| s@)
}

// ── Characters and strings ───────────────────────────────────────────────────

/// The characters of `s`, in order.
pub fn chars_of(s: &str) -> (out: Vec<char>)
    ensures
        out@ == s@,
{
    let mut out: Vec<char> = Vec::new();
    for c in it: s.chars()
        invariant
            out@ == it.seq().take(it.index() as int),
            it.seq() == s@,
    {
        out.push(c);
    }
    assert(s@.take(s@.len() as int) == s@);
    out
}

/// The string of the characters `from .. to` of `v`.
pub fn string_between(v: &Vec<char>, from: usize, to: usize) -> (out: String)
    requires
        from <= to <= v@.len(),
    ensures
        out@ == v@.subrange(from as int, to as int),
{
    let mut out = String::new();
    let mut i: usize = from;
    while i < to
        invariant
            from <= i <= to <= v@.len(),
            out@ == v@.subrange(from as int, i as int),
        decreases to - i,
    {
        out.push(v[i]);
        i += 1;
        assert(v@.subrange(from as int, i as int) == v@.subrange(from as int, i - 1).push(v@[i - 1]));
    }
    out
}

/// Whether two strings hold the same characters.
pub fn same_text(a: &str, b: &str) -> (r: bool)
    ensures
        r == (a@ == b@),
{
    let x = chars_of(a);
    let y = chars_of(b);
    same_chars(&x, &y)
}

fn same_chars(x: &Vec<char>, y: &Vec<char>) -> (r: bool)
    ensures
        r == (x@ == y@),
{
    if x.len() != y.len() {
        return false;
    }
    let mut i: usize = 0;
    while i < x.len()
        invariant
            i <= x.len() == y.len(),
            forall|k: int| 0 <= k < i ==> x@[k] == y@[k],
        decreases x.len() - i,
    {
        if x[i] != y[i] {
            return false;
        }
        i += 1;
    }
    assert(x@ =~= y@);
    true
}

/// `a` followed by `b`.
pub fn join2(a: &str, b: &str) -> (out: String)
    ensures
        out@ == a@ + b@,
{
    let mut s = a.to_owned();
    s.append(b);
    s
}

/// `a`, `b` and `c` in a row.
pub fn join3(a: &str, b: &str, c: &str) -> (out: String)
    ensures
        out@ == a@ + b@ + c@,
{
    let mut s = a.to_owned();
    s.append(b);
    s.append(c);
    s
}

/// Whether `s` begins with `p`.
pub fn starts_with(s: &str, p: &str) -> (r: bool)
    ensures
        r == has_prefix(s@, p@),
{
    strip_prefix(s, p).is_some()
}

/// What stands behind the prefix `p` of `s`, `None` if `s` does not begin
/// with `p`.
pub fn strip_prefix(s: &str, p: &str) -> (r: Option<String>)
    ensures
        r is Some <==> has_prefix(s@, p@),
        r matches Some(rest) ==> rest@ == behind(s@, p@) && s@ == p@ + rest@,
{
    let x = chars_of(s);
    let y = chars_of(p);
    if x.len() < y.len() {
        return None;
    }
    let mut i: usize = 0;
    while i < y.len()
        invariant
            i <= y.len() <= x.len(),
            x@ == s@,
            y@ == p@,
            forall|k: int| 0 <= k < i ==> x@[k] == y@[k],
        decreases y.len() - i,
    {
        if x[i] != y[i] {
            assert(s@.take(p@.len() as int)[i as int] != p@[i as int]);
            return None;
        }
        i += 1;
    }
    assert(s@.take(p@.len() as int) =~= p@);
    assert(s@ =~= p@ + s@.skip(p@.len() as int));
    assert(s@.skip(p@.len() as int) =~= x@.subrange(y@.len() as int, x@.len() as int));
    Some(string_between(&x, y.len(), x.len()))
}

/// Whether `s` ends with `p`.
pub fn ends_with(s: &str, p: &str) -> (r: bool)
    ensures
        r == has_suffix(s@, p@),
{
    let x = chars_of(s);
    let y = chars_of(p);
    if x.len() < y.len() {
        return false;
    }
    let d: usize = x.len() - y.len();
    let mut i: usize = 0;
    while i < y.len()
        invariant
            i <= y.len() <= x.len(),
            d == x.len() - y.len(),
            x@ == s@,
            y@ == p@,
            forall|k: int| 0 <= k < i ==> x@[d + k] == y@[k],
        decreases y.len() - i,
    {
        if x[d + i] != y[i] {
            assert(s@.skip(s@.len() - p@.len())[i as int] != p@[i as int]);
            return false;
        }
        i += 1;
    }
    assert(s@.skip(s@.len() - p@.len()) =~= p@);
    true
}

/// The parts of `s` before and behind the first `c`, `None` if `s` holds no
/// `c`.
pub fn split_once(s: &str, c: char) -> (r: Option<(String, String)>)
    ensures
        r is Some <==> s@.contains(c),
        r matches Some((a, b)) ==> s@ == a@ + seq![c] + b@ && !a@.contains(c),
{
    let x = chars_of(s);
    let mut i: usize = 0;
    while i < x.len()
        invariant
            i <= x.len(),
            x@ == s@,
            forall|k: int| 0 <= k < i ==> x@[k] != c,
        decreases x.len() - i,
    {
        if x[i] == c {
            let a = string_between(&x, 0, i);
            let b = string_between(&x, i + 1, x.len());
            proof {
                assert(s@[i as int] == c);
                assert(s@ =~= a@ + seq![c] + b@);
                assert forall|k: int| 0 <= k < a@.len() implies a@[k] != c by {
                    assert(a@[k] == x@[k]);
                }
            }
            return Some((a, b));
        }
        i += 1;
    }
    None
}

/// The parts of `s` before and behind the last `c`, `None` if `s` holds no
/// `c`.
pub fn rsplit_once(s: &str, c: char) -> (r: Option<(String, String)>)
    ensures
        r is Some <==> s@.contains(c),
        r matches Some((a, b)) ==> s@ == a@ + seq![c] + b@ && !b@.contains(c),
{
    let x = chars_of(s);
    let mut i: usize = x.len();
    while i > 0
        invariant
            i <= x.len(),
            x@ == s@,
            forall|k: int| i <= k < x.len() ==> x@[k] != c,
        decreases i,
    {
        i -= 1;
        if x[i] == c {
            let a = string_between(&x, 0, i);
            let b = string_between(&x, i + 1, x.len());
            proof {
                assert(s@[i as int] == c);
                assert(s@ =~= a@ + seq![c] + b@);
                assert forall|k: int| 0 <= k < b@.len() implies b@[k] != c by {
                    assert(b@[k] == x@[k + i + 1]);
                }
            }
            return Some((a, b));
        }
    }
    None
}

/// Whether `s` holds `c`.
pub fn has_char(s: &str, c: char) -> (r: bool)
    ensures
        r == s@.contains(c),
{
    split_once(s, c).is_some()
}

/// Whether `a` stands before `b`.
pub fn text_before(a: &str, b: &str) -> (r: bool)
    ensures
        r == text_lt(a@, b@),
{
    let x = chars_of(a);
    let y = chars_of(b);
    let mut i: usize = 0;
    assert(a@.skip(0) =~= a@ && b@.skip(0) =~= b@);
    while i < x.len() && i < y.len()
        invariant
            i <= x.len(),
            i <= y.len(),
            x@ == a@,
            y@ == b@,
            text_lt(a@, b@) == text_lt(a@.skip(i as int), b@.skip(i as int)),
        decreases x.len() - i,
    {
        if x[i] != y[i] {
            return x[i] < y[i];
        }
        assert(a@.skip(i as int).drop_first() =~= a@.skip(i + 1));
        assert(b@.skip(i as int).drop_first() =~= b@.skip(i + 1));
        i += 1;
    }
    i < y.len()
}

/// Whether `t` is among the strings of `v`.
pub fn contains_text(v: &Vec<String>, t: &str) -> (r: bool)
    ensures
        r == views(v@).contains(t@),
{
    let mut i: usize = 0;
    while i < v.len()
        invariant
            i <= v.len(),
            forall|k: int| 0 <= k < i ==> v@[k]@ != t@,
        decreases v.len() - i,
    {
        if same_text(v[i].as_str(), t) {
            assert(views(v@)[i as int] == t@);
            return true;
        }
        i += 1;
    }
    assert forall|k: int| 0 <= k < views(v@).len() implies views(v@)[k] != t@ by {
        assert(views(v@)[k] == v@[k]@);
    }
    false
}

/// A copy of a list of strings.
pub fn copy_texts(v: &Vec<String>) -> (out: Vec<String>)
    ensures
        views(out@) == views(v@),
{
    let mut out: Vec<String> = Vec::new();
    let mut i: usize = 0;
    while i < v.len()
        invariant
            i <= v.len(),
            out@.len() == i,
            forall|k: int| 0 <= k < i ==> out@[k]@ == v@[k]@,
        decreases v.len() - i,
    {
        out.push(v[i].clone());
        i += 1;
    }
    assert(views(out@) =~= views(v@));
    out
}

/// A copy of a byte string.
pub fn copy_bytes(v: &Vec<u8>) -> (out: Vec<u8>)
    ensures
        out@ == v@,
{
    let mut out: Vec<u8> = Vec::new();
    let mut i: usize = 0;
    while i < v.len()
        invariant
            i <= v.len(),
            out@ == v@.take(i as int),
        decreases v.len() - i,
    {
        out.push(v[i]);
        i += 1;
    }
    assert(v@.take(v@.len() as int) == v@);
    out
}

// ── Numbers ──────────────────────────────────────────────────────────────────

fn digit_char(d: u8) -> (c: char)
    requires
        d < 16,
    ensures
        c == hex_digit(d as int),
{
    if d < 10 {
        (48 + d) as char
    } else {
        (87 + d) as char
    }
}

/// The last `len` hexadecimal digits of `n`, most significant first.
fn hex_text(n: u64, len: usize) -> (out: String)
    ensures
        out@ == hex_fixed(n as int, len as nat),
    decreases len,
{
    if len == 0 {
        return String::new();
    }
    let mut s = hex_text(n / 16, len - 1);
    s.push(digit_char((n % 16) as u8));
    s
}

/// `n` as sixteen lower-case hexadecimal digits.
pub fn hex16(n: u64) -> (out: String)
    ensures
        out@ == hex_fixed(n as int, 16),
{
    hex_text(n, 16)
}

/// `b` as two lower-case hexadecimal digits.
pub fn hex2(b: u8) -> (out: String)
    ensures
        out@ == hex_fixed(b as int, 2),
{
    hex_text(b as u64, 2)
}

fn digit_of(c: char) -> (r: Option<u8>)
    ensures
        r is Some <==> hex_value(c) is Some,
        r matches Some(d) ==> d < 16 && hex_value(c) == Some(d as int),
{
    if '0' <= c && c <= '9' {
        Some((c as u32 - 48) as u8)
    } else if 'a' <= c && c <= 'f' {
        Some((c as u32 - 87) as u8)
    } else if 'A' <= c && c <= 'F' {
        Some((c as u32 - 55) as u8)
    } else {
        None
    }
}

proof fn lemma_hex_number_prefix(s: Seq<char>, i: int)
    requires
        0 <= i <= s.len(),
    ensures
        hex_number(s.take(i)) is None ==> hex_number(s) is None,
        (hex_number(s.take(i)) is Some && hex_number(s) is Some) ==> hex_number(s.take(i))->0
            <= hex_number(s)->0,
    decreases s.len() - i,
{
    if i == s.len() {
        assert(s.take(i) =~= s);
    } else {
        lemma_hex_number_prefix(s, i + 1);
        assert(s.take(i + 1).drop_last() =~= s.take(i));
        lemma_hex_nonneg(s.take(i));
    }
}

proof fn lemma_hex_nonneg(s: Seq<char>)
    ensures
        hex_number(s) is Some ==> hex_number(s)->0 >= 0,
    decreases s.len(),
{
    if s.len() > 0 {
        lemma_hex_nonneg(s.drop_last());
    }
}

/// Reads a hexadecimal `u64`.
pub fn parse_hex_u64(s: &str) -> (r: Option<u64>)
    ensures
        r == parse_hex_spec(s@),
{
    let x = chars_of(s);
    let start: usize = if x.len() > 0 && x[0] == '+' {
        1
    } else {
        0
    };
    let ghost d = unsigned_digits(s@);
    assert(d =~= x@.skip(start as int));
    if start == x.len() {
        return None;
    }
    let mut acc: u64 = 0;
    let mut i: usize = start;
    assert(d.take(0) =~= Seq::<char>::empty());
    while i < x.len()
        invariant
            start <= i <= x.len(),
            d == x@.skip(start as int),
            hex_number(d.take(i - start)) == Some(acc as int),
            d.len() > 0,
            d == unsigned_digits(s@),
        decreases x.len() - i,
    {
        proof {
            assert(d.take(i - start + 1).drop_last() =~= d.take(i - start));
            assert(d.take(i - start + 1).last() == x@[i as int]);
            lemma_hex_number_prefix(d, i - start + 1);
        }
        match digit_of(x[i]) {
            None => {
                return None;
            },
            Some(v) => {
                if acc > 0x0fff_ffff_ffff_ffff {
                    return None;
                }
                acc = acc * 16 + v as u64;
            },
        }
        i += 1;
    }
    assert(d.take(d.len() as int) =~= d);
    Some(acc)
}

proof fn lemma_dec_number_prefix(s: Seq<char>, i: int)
    requires
        0 <= i <= s.len(),
    ensures
        dec_number(s.take(i)) is None ==> dec_number(s) is None,
        (dec_number(s.take(i)) is Some && dec_number(s) is Some) ==> dec_number(s.take(i))->0
            <= dec_number(s)->0,
    decreases s.len() - i,
{
    if i == s.len() {
        assert(s.take(i) =~= s);
    } else {
        lemma_dec_number_prefix(s, i + 1);
        assert(s.take(i + 1).drop_last() =~= s.take(i));
        lemma_dec_nonneg(s.take(i));
    }
}

proof fn lemma_dec_nonneg(s: Seq<char>)
    ensures
        dec_number(s) is Some ==> dec_number(s)->0 >= 0,
    decreases s.len(),
{
    if s.len() > 0 {
        lemma_dec_nonneg(s.drop_last());
    }
}

/// Reads a decimal `u16`.
pub fn parse_u16(s: &str) -> (r: Option<u16>)
    ensures
        r == parse_u16_spec(s@),
{
    let x = chars_of(s);
    let start: usize = if x.len() > 0 && x[0] == '+' {
        1
    } else {
        0
    };
    let ghost d = unsigned_digits(s@);
    assert(d =~= x@.skip(start as int));
    if start == x.len() {
        return None;
    }
    let mut acc: u32 = 0;
    let mut i: usize = start;
    assert(d.take(0) =~= Seq::<char>::empty());
    while i < x.len()
        invariant
            start <= i <= x.len(),
            d == x@.skip(start as int),
            dec_number(d.take(i - start)) == Some(acc as int),
            acc <= 0xffff,
            d.len() > 0,
            d == unsigned_digits(s@),
        decreases x.len() - i,
    {
        proof {
            assert(d.take(i - start + 1).drop_last() =~= d.take(i - start));
            assert(d.take(i - start + 1).last() == x@[i as int]);
            lemma_dec_number_prefix(d, i - start + 1);
        }
        let c = x[i];
        if !('0' <= c && c <= '9') {
            return None;
        }
        acc = acc * 10 + (c as u32 - 48);
        if acc > 0xffff {
            return None;
        }
        i += 1;
    }
    assert(d.take(d.len() as int) =~= d);
    Some(acc as u16)
}

/// The decimal text of `n`.
pub fn dec_string(n: u64) -> (out: String)
    ensures
        out@ == dec_text(n as nat),
    decreases n,
{
    if n < 10 {
        let mut s = String::new();
        s.push((48 + n as u8) as char);
        assert(s@ =~= seq![(48 + n) as char]);
        return s;
    }
    let mut s = dec_string(n / 10);
    s.push((48 + (n % 10) as u8) as char);
    s
}

// ── Laws ─────────────────────────────────────────────────────────────────────

/// Fixed-width hexadecimal text has its width.
pub proof fn lemma_hex_fixed_len(n: int, len: nat)
    ensures
        hex_fixed(n, len).len() == len,
    decreases len,
{
    if len > 0 {
        lemma_hex_fixed_len(n / 16, (len - 1) as nat);
    }
}

pub open spec fn pow16(e: nat) -> int
    decreases e,
{
    if e == 0 {
        1
    } else {
        16 * pow16((e - 1) as nat)
    }
}

/// Reading fixed-width hexadecimal text gives the number back.
pub proof fn lemma_hex_round_trip(n: int, len: nat)
    requires
        0 <= n < pow16(len),
    ensures
        hex_number(hex_fixed(n, len)) == Some(n),
    decreases len,
{
    if len > 0 {
        let hi = hex_fixed(n / 16, (len - 1) as nat);
        assert(n / 16 < pow16((len - 1) as nat)) by (nonlinear_arith)
            requires
                n < pow16(len),
                pow16(len) == 16 * pow16((len - 1) as nat),
        ;
        lemma_hex_round_trip(n / 16, (len - 1) as nat);
        assert(hex_fixed(n, len).drop_last() =~= hi);
        assert(hex_value(hex_digit(n % 16)) == Some(n % 16));
    }
}

pub proof fn lemma_pow16_64()
    ensures
        pow16(16) == 0x1_0000_0000_0000_0000,
{
    reveal_with_fuel(pow16, 17);
}

/// A `u64` written as sixteen hexadecimal digits reads back as itself.
pub proof fn lemma_hex16_round_trip(n: u64)
    ensures
        parse_hex_spec(hex_fixed(n as int, 16)) == Some(n),
{
    lemma_pow16_64();
    lemma_hex_round_trip(n as int, 16);
    lemma_hex_fixed_len(n as int, 16);
    let s = hex_fixed(n as int, 16);
    lemma_hex_first_is_digit(n as int, 16);
    assert(unsigned_digits(s) == s);
}

proof fn lemma_hex_first_is_digit(n: int, len: nat)
    requires
        n >= 0,
        len > 0,
    ensures
        hex_fixed(n, len).len() == len,
        hex_fixed(n, len)[0] != '+',
        !hex_fixed(n, len).contains('/'),
    decreases len,
{
    lemma_hex_fixed_len(n, len);
    lemma_hex_fixed_len(n / 16, (len - 1) as nat);
    assert(hex_digit(n % 16) != '/' && hex_digit(n % 16) != '+');
    let hi = hex_fixed(n / 16, (len - 1) as nat);
    if len > 1 {
        lemma_hex_first_is_digit(n / 16, (len - 1) as nat);
        assert(hex_fixed(n, len)[0] == hi[0]);
    }
    assert forall|k: int| 0 <= k < len implies hex_fixed(n, len)[k] != '/' by {
        if k < len - 1 {
            assert(hex_fixed(n, len)[k] == hi[k]);
            assert(hi.contains(hi[k]));
        }
    }
}

/// The first slash of a text stands where the part before it ends.
pub proof fn lemma_first_slash(a: Seq<char>, b: Seq<char>)
    requires
        !a.contains('/'),
    ensures
        (a + seq!['/'] + b).index_of_first('/') == Some(a.len() as int),
        (a + seq!['/'] + b).take(a.len() as int) == a,
{
    let s = a + seq!['/'] + b;
    s.index_of_first_ensures('/');
    assert(s[a.len() as int] == '/');
    assert(s.contains('/'));
    let i = s.index_of_first('/')->0;
    if i < a.len() {
        assert(a[i] == '/');
        assert(a.contains('/'));
    }
    assert(s.take(a.len() as int) =~= a);
}

/// The last slash of a text stands where the part behind it begins.
pub proof fn lemma_last_slash(a: Seq<char>, b: Seq<char>)
    requires
        !b.contains('/'),
    ensures
        (a + seq!['/'] + b).index_of_last('/') == Some(a.len() as int),
        (a + seq!['/'] + b).take(a.len() as int) == a,
        (a + seq!['/'] + b).skip(a.len() as int + 1) == b,
{
    let s = a + seq!['/'] + b;
    s.index_of_last_ensures('/');
    assert(s[a.len() as int] == '/');
    assert(s.contains('/'));
    let i = s.index_of_last('/')->0;
    if i > a.len() {
        assert(b[i - a.len() - 1] == '/');
        assert(b.contains('/'));
    }
    assert(s.take(a.len() as int) =~= a);
    assert(s.skip(a.len() as int + 1) =~= b);
}

/// Fixed-width hexadecimal text holds hexadecimal digits only.
pub proof fn lemma_hex_digits(n: int, len: nat)
    requires
        n >= 0,
    ensures
        hex_fixed(n, len).len() == len,
        forall|k: int| 0 <= k < len ==> hex_value(#[trigger] hex_fixed(n, len)[k]) is Some,
    decreases len,
{
    if len > 0 {
        lemma_hex_digits(n / 16, (len - 1) as nat);
        assert(hex_value(hex_digit(n % 16)) == Some(n % 16));
        let hi = hex_fixed(n / 16, (len - 1) as nat);
        assert forall|k: int| 0 <= k < len implies hex_value(#[trigger] hex_fixed(n, len)[k]) is Some by {
            if k < len - 1 {
                assert(hex_fixed(n, len)[k] == hi[k]);
            }
        }
    }
}

/// The order of two strings with a common prefix is that of their rests.
pub proof fn lemma_lt_common_prefix(p: Seq<char>, a: Seq<char>, b: Seq<char>)
    ensures
        text_lt(p + a, p + b) == text_lt(a, b),
    decreases p.len(),
{
    if p.len() == 0 {
        assert(p + a =~= a && p + b =~= b);
    } else {
        assert((p + a).drop_first() =~= p.drop_first() + a);
        assert((p + b).drop_first() =~= p.drop_first() + b);
        lemma_lt_common_prefix(p.drop_first(), a, b);
    }
}

proof fn lemma_same_head_and_rest(a: Seq<char>, b: Seq<char>)
    requires
        a.len() > 0,
        b.len() > 0,
        a[0] == b[0],
        a.drop_first() == b.drop_first(),
    ensures
        a == b,
{
    assert(a =~= seq![a[0]] + a.drop_first());
    assert(b =~= seq![b[0]] + b.drop_first());
}

/// Appending one character to two strings of one length: the strings decide
/// first, the characters only where they are equal.
proof fn lemma_lt_push(a: Seq<char>, b: Seq<char>, x: char, y: char)
    requires
        a.len() == b.len(),
    ensures
        text_lt(a.push(x), b.push(y)) == (text_lt(a, b) || (a == b && x < y)),
    decreases a.len(),
{
    reveal_with_fuel(text_lt, 2);
    if a.len() == 0 {
        assert(a =~= b);
        assert(a.push(x).drop_first() =~= Seq::<char>::empty());
        assert(b.push(y).drop_first() =~= Seq::<char>::empty());
    } else {
        assert(a.push(x).drop_first() =~= a.drop_first().push(x));
        assert(b.push(y).drop_first() =~= b.drop_first().push(y));
        lemma_lt_push(a.drop_first(), b.drop_first(), x, y);
        if a[0] == b[0] {
            if a.drop_first() == b.drop_first() {
                lemma_same_head_and_rest(a, b);
            }
        }
    }
}

/// Fixed-width hexadecimal text sorts as the numbers do.
pub proof fn lemma_hex_fixed_order(m: int, n: int, len: nat)
    requires
        0 <= m < n < pow16(len),
    ensures
        text_lt(hex_fixed(m, len), hex_fixed(n, len)),
    decreases len,
{
    if len > 0 {
        let l1 = (len - 1) as nat;
        assert(n / 16 < pow16(l1)) by (nonlinear_arith)
            requires
                n < pow16(len),
                pow16(len) == 16 * pow16(l1),
        ;
        lemma_hex_fixed_len(m / 16, l1);
        lemma_hex_fixed_len(n / 16, l1);
        lemma_lt_push(
            hex_fixed(m / 16, l1),
            hex_fixed(n / 16, l1),
            hex_digit(m % 16),
            hex_digit(n % 16),
        );
        if m / 16 < n / 16 {
            lemma_hex_fixed_order(m / 16, n / 16, l1);
        }
    }
}

/// No string stands before itself.
pub proof fn lemma_lt_irreflexive(a: Seq<char>)
    ensures
        !text_lt(a, a),
    decreases a.len(),
{
    if a.len() > 0 {
        lemma_lt_irreflexive(a.drop_first());
    }
}

/// The order of strings is transitive.
pub proof fn lemma_lt_transitive(a: Seq<char>, b: Seq<char>, c: Seq<char>)
    requires
        text_lt(a, b),
        text_lt(b, c),
    ensures
        text_lt(a, c),
    decreases a.len(),
{
    if a.len() > 0 && a[0] == b[0] && b[0] == c[0] {
        lemma_lt_transitive(a.drop_first(), b.drop_first(), c.drop_first());
    }
}

/// Of two different strings one stands before the other.
pub proof fn lemma_lt_total(a: Seq<char>, b: Seq<char>)
    ensures
        text_lt(a, b) || text_lt(b, a) || a == b,
    decreases a.len(),
{
    if a.len() > 0 && b.len() > 0 && a[0] == b[0] {
        lemma_lt_total(a.drop_first(), b.drop_first());
        if a.drop_first() == b.drop_first() {
            lemma_same_head_and_rest(a, b);
        }
    } else if a.len() == 0 && b.len() == 0 {
        assert(a =~= b);
    }
}

/// Decimal text reads back as the number, is not empty, starts with a digit
/// and holds digits only.
pub proof fn lemma_dec_round_trip(n: nat)
    ensures
        dec_number(dec_text(n)) == Some(n as int),
        dec_text(n).len() > 0,
        forall|k: int| 0 <= k < dec_text(n).len() ==> '0' <= #[trigger] dec_text(n)[k] <= '9',
    decreases n,
{
    reveal_with_fuel(dec_number, 2);
    if n < 10 {
        assert(dec_text(n).drop_last() =~= Seq::<char>::empty());
    } else {
        lemma_dec_round_trip(n / 10);
        assert(dec_text(n).drop_last() =~= dec_text(n / 10));
    }
}

/// A text begins with `p` exactly if it is `p` with something behind it, and ends with
/// `p` exactly if it is something with `p` behind it.
pub proof fn law_prefix_and_rest(s: Seq<char>, p: Seq<char>, rest: Seq<char>)
    ensures
        has_prefix(p + rest, p),
        behind(p + rest, p) == rest,
        has_prefix(s, p) ==> s == p + behind(s, p),
        has_suffix(rest + p, p),
        has_suffix(s, p) ==> s == s.take(s.len() - p.len()) + p,
{
    assert((p + rest).take(p.len() as int) =~= p);
    assert(behind(p + rest, p) =~= rest);
    assert((rest + p).skip(rest.len() as int) =~= p);
    if has_prefix(s, p) {
        assert(s =~= p + behind(s, p));
    }
    if has_suffix(s, p) {
        assert(s =~= s.take(s.len() - p.len()) + p);
    }
}

/// Of two texts the first character in which they differ decides, and a text stands
/// before every longer one that begins with it.
pub proof fn law_first_difference_decides(p: Seq<char>, x: char, a: Seq<char>, y: char, b: Seq<char>)
    ensures
        x != y ==> (text_lt(p + (seq![x] + a), p + (seq![y] + b)) <==> (x as u32) < (y as u32)),
        text_lt(p, p + (seq![y] + b)),
        !text_lt(p + (seq![y] + b), p),
        !text_lt(p, p),
{
    lemma_lt_common_prefix(p, seq![x] + a, seq![y] + b);
    lemma_lt_common_prefix(p, Seq::empty(), seq![y] + b);
    lemma_lt_common_prefix(p, seq![y] + b, Seq::empty());
    lemma_lt_common_prefix(p, Seq::empty(), Seq::empty());
    assert(p + Seq::<char>::empty() =~= p);
    assert((seq![x] + a)[0] == x);
    assert((seq![y] + b)[0] == y);
}

/// A number is written in decimal with its last digit behind all others, and without a
/// leading zero.
pub proof fn law_decimal_digits(n: nat, d: int)
    requires
        0 <= d < 10,
    ensures
        dec_text(d as nat) == seq![(0x30 + d) as char],
        n > 0 ==> dec_text((n * 10 + d) as nat) == dec_text(n).push((0x30 + d) as char),
{
    if n > 0 {
        assert((n * 10 + d) / 10 == n);
        assert((n * 10 + d) % 10 == d);
    }
}

/// A number is written in hexadecimal with its last digit behind all others, zero to
/// nine and then `a` to `f`.
pub proof fn law_hexadecimal_digits(n: int, d: int, len: nat)
    requires
        n >= 0,
        0 <= d < 16,
    ensures
        hex_fixed(n * 16 + d, len + 1) == hex_fixed(n, len).push(
            if d <= 9 {
                (0x30 + d) as char
            } else {
                (0x61 + (d - 10)) as char
            },
        ),
{
    assert((n * 16 + d) / 16 == n);
    assert((n * 16 + d) % 16 == d);
}

/// A hexadecimal digit may be written in lower case and in upper case, and nothing else
/// is one.
pub proof fn law_hexadecimal_values(c: char)
    ensures
        hex_value(c) is Some <==> ('0' <= c && c <= '9') || ('a' <= c && c <= 'f') || ('A' <= c && c <= 'F'),
        hex_value(c) is Some ==> 0 <= hex_value(c)->0 < 16,
        '0' <= c && c <= '9' ==> hex_value(c) == Some(c as int - 0x30),
        'a' <= c && c <= 'f' ==> hex_value(c) == Some(c as int - 0x61 + 10),
        'A' <= c && c <= 'F' ==> hex_value(c) == Some(c as int - 0x41 + 10),
{
}

} // verus!

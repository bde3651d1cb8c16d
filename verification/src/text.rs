//! Text helpers shared by the registry, the port logic and the command line:
//! decimal numbers, byte-wise name order, prefixes and channel suffixes.
use vstd::prelude::*;
use vstd::string::*;
use vstd::utf8::encode_utf8;

verus! {

// ---------------------------------------------------------------- digits

/// `c` is one of the ASCII digits `0`..`9`.
pub open spec fn is_digit(c: char) -> bool {
    48 <= (c as u32) && (c as u32) <= 57
}

/// The value of an ASCII digit.
pub open spec fn digit_value(c: char) -> nat {
    ((c as u32) - 48) as nat
}

/// Every character of `s` is an ASCII digit.
pub open spec fn all_digits(s: Seq<char>) -> bool {
    forall|i: int| 0 <= i < s.len() ==> is_digit(#[trigger] s[i])
}

/// The number that a string of decimal digits writes.
pub open spec fn digits_value(s: Seq<char>) -> nat
    decreases s.len(),
{
    if s.len() == 0 {
        0
    } else {
        digits_value(s.drop_last()) * 10 + digit_value(s.last())
    }
}

/// The part of `s` that holds the digits: `s` without one leading `+`.
pub open spec fn unsigned_body(s: Seq<char>) -> Seq<char> {
    if s.len() > 0 && s[0] == '+' {
        s.drop_first()
    } else {
        s
    }
}

/// What `u32`'s `FromStr` accepts: an optional `+`, then one or more ASCII
/// digits whose value fits in a `u32`; anything else is refused.
pub open spec fn parse_u32_spec(s: Seq<char>) -> Option<u32> {
    let d = unsigned_body(s);
    if d.len() > 0 && all_digits(d) && digits_value(d) <= u32::MAX {
        Some(digits_value(d) as u32)
    } else {
        None
    }
}

/// `s` is purely numeric: one or more ASCII digits and nothing else.
pub open spec fn is_numeric(s: Seq<char>) -> bool {
    s.len() > 0 && all_digits(s)
}

/// Whether `s` is purely numeric.
pub fn is_numeric_text(s: &str) -> (r: bool)
    ensures
        r == is_numeric(s@),
{
    let n = s.unicode_len();
    if n == 0 {
        return false;
    }
    let mut i: usize = 0;
    while i < n
        invariant
            n == s@.len(),
            i <= n,
            forall|j: int| 0 <= j < i ==> is_digit(#[trigger] s@[j]),
        decreases n - i,
    {
        let c = s.get_char(i) as u32;
        if c < 48 || c > 57 {
            return false;
        }
        i = i + 1;
    }
    true
}

/// A purely numeric text reads as a `u32` exactly when its value fits.
pub proof fn lemma_numeric_parse(s: Seq<char>)
    requires
        is_numeric(s),
    ensures
        parse_u32_spec(s) == (if digits_value(s) <= u32::MAX {
            Some(digits_value(s) as u32)
        } else {
            None
        }),
{
    assert(is_digit(s[0]));
    assert(unsigned_body(s) == s);
}

/// A longer string of digits never writes a smaller number.
proof fn lemma_digits_value_prefix(s: Seq<char>, k: int)
    requires
        0 <= k <= s.len(),
    ensures
        digits_value(s.subrange(0, k)) <= digits_value(s),
    decreases s.len(),
{
    if k < s.len() {
        lemma_digits_value_prefix(s.drop_last(), k);
        assert(s.drop_last().subrange(0, k) =~= s.subrange(0, k));
    } else {
        assert(s.subrange(0, k) =~= s);
    }
}

/// A string of zeros writes zero.
proof fn lemma_zeros_value(s: Seq<char>)
    requires
        forall|j: int| 0 <= j < s.len() ==> s[j] == '0',
    ensures
        digits_value(s) == 0,
    decreases s.len(),
{
    if s.len() > 0 {
        lemma_zeros_value(s.drop_last());
    }
}

/// Leading zeros do not change the number that digits write.
proof fn lemma_leading_zeros(s: Seq<char>, k: int)
    requires
        0 <= k <= s.len(),
        forall|j: int| 0 <= j < k ==> s[j] == '0',
    ensures
        digits_value(s) == digits_value(s.subrange(k, s.len() as int)),
    decreases s.len(),
{
    if s.len() == k {
        lemma_zeros_value(s);
        assert(s.subrange(k, k) =~= Seq::<char>::empty());
    } else {
        lemma_leading_zeros(s.drop_last(), k);
        let t = s.subrange(k, s.len() as int);
        assert(t.drop_last() =~= s.drop_last().subrange(k, s.len() - 1));
    }
}

/// Digits with no leading zero are how their number is written in decimal.
proof fn lemma_canonical_digits(t: Seq<char>)
    requires
        t.len() > 0,
        all_digits(t),
        t[0] != '0',
    ensures
        decimal(digits_value(t)) == t,
    decreases t.len(),
{
    let c = t.last();
    let d = digit_value(c);
    assert(is_digit(c));
    assert(digit_char(d) == c) by {
        vstd::utf8::char_u32_cast(c, c as u32);
    }
    let p = t.drop_last();
    if t.len() == 1 {
        assert(p =~= Seq::<char>::empty());
        assert(decimal(digits_value(t)) =~= t);
    } else {
        lemma_canonical_digits(p);
        lemma_digits_value_prefix(p, 1);
        let q = p.subrange(0, 1);
        assert(q.drop_last() =~= Seq::<char>::empty());
        assert(q.last() == p[0]);
        assert(digits_value(q.drop_last()) == 0);
        assert(is_digit(p[0]));
        assert(digits_value(q) == digit_value(p[0]));
        let v = digits_value(t);
        assert(v / 10 == digits_value(p) && v % 10 == d) by (nonlinear_arith)
            requires
                v == digits_value(p) * 10 + d,
                d < 10,
        ;
        assert(decimal(v) =~= t);
    }
}

/// The number that a purely numeric text writes, in decimal with no
/// leading zero (`"007"` gives `"7"`, `"000"` gives `"0"`).
pub fn trim_leading_zeros(s: &str) -> (r: String)
    requires
        is_numeric(s@),
    ensures
        r@ == decimal(digits_value(s@)),
{
    let n = s.unicode_len();
    let mut k: usize = 0;
    while k + 1 < n && s.get_char(k) == '0'
        invariant
            n == s@.len(),
            n > 0,
            k < n,
            forall|j: int| 0 <= j < k ==> s@[j] == '0',
        decreases n - k,
    {
        k = k + 1;
    }
    let t = s.substring_char(k, n);
    proof {
        lemma_leading_zeros(s@, k as int);
        assert forall|i: int| 0 <= i < t@.len() implies is_digit(#[trigger] t@[i]) by {
            assert(t@[i] == s@[k + i]);
        }
        if t@[0] != '0' {
            lemma_canonical_digits(t@);
        } else {
            assert(t@ =~= seq!['0']);
            lemma_zeros_value(t@);
            assert(decimal(0) =~= seq!['0']);
        }
    }
    t.to_owned()
}

/// Parses a decimal `u32` the way `str::parse::<u32>` does.
pub fn parse_u32(s: &str) -> (r: Option<u32>)
    ensures
        r == parse_u32_spec(s@),
{
    let n = s.unicode_len();
    let mut start: usize = 0;
    if n > 0 && s.get_char(0) == '+' {
        start = 1;
    }
    let ghost d = unsigned_body(s@);
    assert(d =~= s@.subrange(start as int, n as int));
    if start >= n {
        return None;
    }
    let mut acc: u64 = 0;
    let mut i: usize = start;
    while i < n
        invariant
            n == s@.len(),
            start <= i <= n,
            start < n,
            d == s@.subrange(start as int, n as int),
            d == unsigned_body(s@),
            all_digits(d.subrange(0, i - start)),
            acc == digits_value(d.subrange(0, i - start)),
            acc <= u32::MAX,
        decreases n - i,
    {
        let c = s.get_char(i);
        let cu = c as u32;
        if cu < 48 || cu > 57 {
            assert(d[i - start] == c);
            assert(!all_digits(d));
            assert(parse_u32_spec(s@) is None);
            return None;
        }
        let ghost prev = d.subrange(0, i - start);
        let ghost next = d.subrange(0, i - start + 1);
        assert(next.drop_last() =~= prev);
        assert(next.last() == c);
        acc = acc * 10 + ((cu - 48) as u64);
        assert(acc == digits_value(next));
        if acc > 0xffff_ffff {
            proof {
                lemma_digits_value_prefix(d, i - start + 1);
                assert(digits_value(d) > u32::MAX);
            }
            assert(parse_u32_spec(s@) is None);
            return None;
        }
        i = i + 1;
    }
    assert(d.subrange(0, n - start) =~= d);
    Some(acc as u32)
}

// ---------------------------------------------------------------- decimal output

/// The ASCII digit that writes `d` (for `d < 10`).
pub open spec fn digit_char(d: nat) -> char {
    ((d + 48) as u32) as char
}

/// The decimal digits of `n`, most significant first, with no leading zero.
pub open spec fn decimal(n: nat) -> Seq<char>
    decreases n,
{
    if n < 10 {
        seq![digit_char(n)]
    } else {
        decimal(n / 10).push(digit_char(n % 10))
    }
}

/// `String::push` from std: appends one character.
#[verifier::external_body]
pub(crate) fn push_char(s: &mut String, c: char)
    ensures
        final(s)@ == old(s)@.push(c),
{
    s.push(c);
}

fn digit_to_char(d: u64) -> (c: char)
    requires
        d < 10,
    ensures
        c == digit_char(d as nat),
{
    let b: u8 = (d as u8) + 48;
    b as char
}

/// Appends the decimal digits of `n` to `s`.
pub fn push_decimal(s: &mut String, n: u64)
    ensures
        final(s)@ == old(s)@ + decimal(n as nat),
    decreases n,
{
    if n >= 10 {
        push_decimal(s, n / 10);
    }
    let c = digit_to_char(n % 10);
    push_char(s, c);
    proof {
        if n >= 10 {
            assert(final(s)@ =~= old(s)@ + decimal(n as nat)) by {
                assert(decimal(n as nat) == decimal((n / 10) as nat).push(c));
            }
        } else {
            assert(final(s)@ =~= old(s)@ + decimal(n as nat));
        }
    }
}

/// The decimal digits of `n`, as a new string.
pub fn decimal_string(n: u64) -> (r: String)
    ensures
        r@ == decimal(n as nat),
{
    let mut s = String::new();
    push_decimal(&mut s, n);
    assert(s@ =~= decimal(n as nat));
    s
}

/// `n` in decimal, with a leading `-` when it is negative.
pub open spec fn signed_decimal(n: int) -> Seq<char> {
    if n < 0 {
        seq!['-'] + decimal((-n) as nat)
    } else {
        decimal(n as nat)
    }
}

/// Appends `n` in decimal, with a leading `-` when it is negative.
pub fn push_signed_decimal(s: &mut String, n: i32)
    ensures
        final(s)@ == old(s)@ + signed_decimal(n as int),
{
    if n < 0 {
        push_char(s, '-');
        let m: i64 = -(n as i64);
        push_decimal(s, m as u64);
        assert(final(s)@ =~= old(s)@ + signed_decimal(n as int));
    } else {
        push_decimal(s, n as u64);
    }
}

/// Whether `a` reads exactly `b`.
pub fn same_text(a: &String, b: &str) -> (r: bool)
    ensures
        r == (a@ == b@),
{
    let t = b.to_owned();
    *a == t
}

/// Appends a string slice.
pub fn push_str(s: &mut String, t: &str)
    ensures
        final(s)@ == old(s)@ + t@,
{
    s.append(t);
}

// ---------------------------------------------------------------- name order

/// Lexicographic order on bytes, the order in which Rust compares strings.
pub open spec fn bytes_le(a: Seq<u8>, b: Seq<u8>) -> bool
    decreases a.len(),
{
    if a.len() == 0 {
        true
    } else if b.len() == 0 {
        false
    } else if a[0] != b[0] {
        a[0] < b[0]
    } else {
        bytes_le(a.drop_first(), b.drop_first())
    }
}

/// `a` sorts before or together with `b`: Rust's order on `str`, which
/// compares the UTF-8 bytes.
pub open spec fn name_le(a: Seq<char>, b: Seq<char>) -> bool {
    bytes_le(encode_utf8(a), encode_utf8(b))
}

/// The byte order is total.
pub proof fn lemma_bytes_le_total(a: Seq<u8>, b: Seq<u8>)
    ensures
        bytes_le(a, b) || bytes_le(b, a),
    decreases a.len(),
{
    if a.len() > 0 && b.len() > 0 && a[0] == b[0] {
        lemma_bytes_le_total(a.drop_first(), b.drop_first());
    }
}

/// The byte order is transitive.
pub proof fn lemma_bytes_le_transitive(a: Seq<u8>, b: Seq<u8>, c: Seq<u8>)
    requires
        bytes_le(a, b),
        bytes_le(b, c),
    ensures
        bytes_le(a, c),
    decreases a.len(),
{
    if a.len() > 0 && b.len() > 0 && c.len() > 0 && a[0] == b[0] && b[0] == c[0] {
        lemma_bytes_le_transitive(a.drop_first(), b.drop_first(), c.drop_first());
    }
}

/// Whether `a` sorts before or together with `b`, by bytes.
pub fn bytes_le_exec(a: &[u8], b: &[u8]) -> (r: bool)
    ensures
        r == bytes_le(a@, b@),
{
    let mut i: usize = 0;
    assert(a@.skip(0) =~= a@);
    assert(b@.skip(0) =~= b@);
    while i < a.len()
        invariant
            i <= a@.len(),
            i <= b@.len(),
            bytes_le(a@, b@) == bytes_le(a@.skip(i as int), b@.skip(i as int)),
        decreases a@.len() - i,
    {
        if i >= b.len() {
            return false;
        }
        if a[i] != b[i] {
            return a[i] < b[i];
        }
        assert(a@.skip(i as int).drop_first() =~= a@.skip(i + 1));
        assert(b@.skip(i as int).drop_first() =~= b@.skip(i + 1));
        i = i + 1;
    }
    true
}

/// Whether the name `a` sorts before or together with the name `b`.
pub fn name_le_exec(a: &String, b: &String) -> (r: bool)
    ensures
        r == name_le(a@, b@),
{
    bytes_le_exec(a.as_str().as_bytes(), b.as_str().as_bytes())
}

// ---------------------------------------------------------------- prefixes and suffixes

/// `p` is a prefix of `s`.
pub open spec fn has_prefix(s: Seq<char>, p: Seq<char>) -> bool {
    p.len() <= s.len() && s.subrange(0, p.len() as int) == p
}

/// Whether `s` starts with `p`.
pub fn starts_with(s: &str, p: &str) -> (r: bool)
    ensures
        r == has_prefix(s@, p@),
{
    let n = s.unicode_len();
    let m = p.unicode_len();
    if m > n {
        return false;
    }
    let mut i: usize = 0;
    while i < m
        invariant
            m == p@.len(),
            n == s@.len(),
            m <= n,
            i <= m,
            s@.subrange(0, i as int) == p@.subrange(0, i as int),
        decreases m - i,
    {
        if s.get_char(i) != p.get_char(i) {
            assert(s@.subrange(0, m as int)[i as int] != p@[i as int]);
            return false;
        }
        assert(s@.subrange(0, i + 1) =~= s@.subrange(0, i as int).push(s@[i as int]));
        assert(p@.subrange(0, i + 1) =~= p@.subrange(0, i as int).push(p@[i as int]));
        i = i + 1;
    }
    assert(p@.subrange(0, m as int) =~= p@);
    true
}

/// The channel a port name ends in: what follows its last `_`, or the whole
/// name when it has none (`monitor_FL` gives `FL`).
pub open spec fn channel_of(name: Seq<char>) -> Seq<char>
    decreases name.len(),
{
    if name.len() == 0 {
        Seq::empty()
    } else if name.last() == '_' {
        Seq::empty()
    } else {
        channel_of(name.drop_last()).push(name.last())
    }
}

/// `channel_of` is the tail of the name after index `k`, where `k` is just
/// past the last `_` (or 0).
proof fn lemma_channel_of_tail(name: Seq<char>, k: int)
    requires
        0 <= k <= name.len(),
        k == 0 || name[k - 1] == '_',
        forall|j: int| k <= j < name.len() ==> name[j] != '_',
    ensures
        channel_of(name) == name.subrange(k, name.len() as int),
    decreases name.len(),
{
    if name.len() == k {
        assert(name.subrange(k, name.len() as int) =~= Seq::<char>::empty());
        if name.len() > 0 {
            assert(name.last() == '_');
        }
    } else {
        lemma_channel_of_tail(name.drop_last(), k);
        assert(name.subrange(k, name.len() as int) =~= name.drop_last().subrange(
            k,
            name.len() - 1,
        ).push(name.last()));
    }
}

/// The channel a port name ends in (see `channel_of`).
pub fn channel_suffix(name: &str) -> (r: String)
    ensures
        r@ == channel_of(name@),
{
    let n = name.unicode_len();
    let mut k: usize = 0;
    let mut i: usize = 0;
    while i < n
        invariant
            n == name@.len(),
            k <= i <= n,
            k == 0 || name@[k - 1] == '_',
            forall|j: int| k <= j < i ==> name@[j] != '_',
        decreases n - i,
    {
        if name.get_char(i) == '_' {
            k = i + 1;
        }
        i = i + 1;
    }
    proof {
        lemma_channel_of_tail(name@, k as int);
    }
    let tail = name.substring_char(k, n);
    tail.to_owned()
}

/// `n` spaces.
pub open spec fn spaces(n: nat) -> Seq<char> {
    Seq::new(n, |i: int| ' ')
}

/// `s` padded on the right with spaces to at least `width` characters, as
/// `format!("{:<width$}", s)` writes it.
pub open spec fn pad_right(s: Seq<char>, width: nat) -> Seq<char> {
    if s.len() < width {
        s + spaces((width - s.len()) as nat)
    } else {
        s
    }
}

/// Appends `t`, padded on the right with spaces to `width` characters.
pub fn push_padded(s: &mut String, t: &str, width: usize)
    ensures
        final(s)@ == old(s)@ + pad_right(t@, width as nat),
{
    s.append(t);
    let n = t.unicode_len();
    let mut i: usize = n;
    assert(spaces(0) =~= Seq::<char>::empty());
    while i < width
        invariant
            n == t@.len(),
            n <= i,
            n < width ==> i <= width,
            n >= width ==> i == n,
            s@ == old(s)@ + t@ + spaces((i - n) as nat),
        decreases width - i,
    {
        push_char(s, ' ');
        assert(spaces((i + 1 - n) as nat) =~= spaces((i - n) as nat).push(' '));
        assert(s@ =~= old(s)@ + t@ + spaces((i + 1 - n) as nat));
        i = i + 1;
    }
    proof {
        if n < width {
            assert(i == width);
            assert(pad_right(t@, width as nat) == t@ + spaces((width - n) as nat));
        } else {
            assert(i == n);
            assert(pad_right(t@, width as nat) == t@);
        }
        assert(s@ =~= old(s)@ + pad_right(t@, width as nat));
    }
}

} // verus!

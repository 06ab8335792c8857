//! Text for addresses: hexadecimal MAC and dotted-decimal IPv4 notation, both ways.
use vstd::prelude::*;

verus! {

/// Calls `String::push`, which appends one character.
#[verifier::external_body]
pub(crate) fn string_push(s: &mut String, c: char)
    ensures
        final(s)@ == old(s)@.push(c),
{
    s.push(c)
}

/// The characters of `s`, in order.
pub fn str_chars(s: &str) -> (v: Vec<char>)
    ensures
        v@ == s@,
{
    let n: usize = s.unicode_len();
    let mut v: Vec<char> = Vec::new();
    let mut i: usize = 0;
    while i < n
        invariant
            n == s@.len(),
            i <= n,
            v@ == s@.subrange(0, i as int),
        decreases n - i,
    {
        v.push(s.get_char(i));
        i = i + 1;
        assert(v@ =~= s@.subrange(0, i as int));
    }
    assert(s@.subrange(0, n as int) =~= s@);
    v
}

/// The upper-case hexadecimal digit for `n` (0..15).
pub open spec fn hex_char(n: int) -> char {
    if n < 10 {
        (48 + n) as char
    } else {
        (55 + n) as char
    }
}

/// The decimal digit for `n` (0..9).
pub open spec fn dec_char(n: int) -> char {
    (48 + n) as char
}

/// Two upper-case hexadecimal digits for a byte.
pub open spec fn hex_pair(b: u8) -> Seq<char> {
    seq![hex_char(b as int / 16), hex_char(b as int % 16)]
}

/// Decimal notation of `n` without leading zeros.
pub open spec fn dec_text(n: nat) -> Seq<char>
    decreases n,
{
    if n < 10 {
        seq![dec_char(n as int)]
    } else {
        dec_text(n / 10).push(dec_char((n % 10) as int))
    }
}

/// `xx:xx:...` with two upper-case hex digits per byte.
pub open spec fn mac_text(mac: Seq<u8>) -> Seq<char>
    decreases mac.len(),
{
    if mac.len() == 0 {
        Seq::empty()
    } else if mac.len() == 1 {
        hex_pair(mac[0])
    } else {
        mac_text(mac.drop_last()) + seq![':'] + hex_pair(mac.last())
    }
}

/// `a.b.c.d` with each byte in decimal.
pub open spec fn dotted_text(addr: Seq<u8>) -> Seq<char>
    decreases addr.len(),
{
    if addr.len() == 0 {
        Seq::empty()
    } else if addr.len() == 1 {
        dec_text(addr[0] as nat)
    } else {
        dotted_text(addr.drop_last()) + seq!['.'] + dec_text(addr.last() as nat)
    }
}

fn hex_digit(n: u8) -> (c: char)
    requires
        n < 16,
    ensures
        c == hex_char(n as int),
{
    if n < 10 {
        (48 + n) as char
    } else {
        (55 + n) as char
    }
}

fn push_decimal(s: &mut String, n: u8)
    ensures
        final(s)@ == old(s)@ + dec_text(n as nat),
{
    if n >= 100 {
        string_push(s, (48 + n / 100) as char);
        string_push(s, (48 + (n / 10) % 10) as char);
        string_push(s, (48 + n % 10) as char);
        assert(dec_text(n as nat) == dec_text((n / 10) as nat).push(dec_char((n % 10) as int)));
        assert(dec_text((n / 10) as nat) == dec_text((n / 100) as nat).push(
            dec_char(((n / 10) % 10) as int),
        ));
        assert(final(s)@ =~= old(s)@ + dec_text(n as nat));
    } else if n >= 10 {
        string_push(s, (48 + n / 10) as char);
        string_push(s, (48 + n % 10) as char);
        assert(dec_text(n as nat) == dec_text((n / 10) as nat).push(dec_char((n % 10) as int)));
        assert(final(s)@ =~= old(s)@ + dec_text(n as nat));
    } else {
        string_push(s, (48 + n) as char);
        assert(final(s)@ =~= old(s)@ + dec_text(n as nat));
    }
}

/// Formats a MAC address as upper-case hex pairs separated by colons.
pub fn fmt_mac(mac: &[u8]) -> (s: String)
    ensures
        s@ == mac_text(mac@),
{
    let mut s = String::new();
    let n: usize = mac.len();
    let mut i: usize = 0;
    while i < n
        invariant
            n == mac@.len(),
            i <= n,
            s@ == mac_text(mac@.subrange(0, i as int)),
        decreases n - i,
    {
        let ghost before = s@;
        if i > 0 {
            string_push(&mut s, ':');
        }
        string_push(&mut s, hex_digit(mac[i] / 16));
        string_push(&mut s, hex_digit(mac[i] % 16));
        proof {
            let pre = mac@.subrange(0, i as int);
            let next = mac@.subrange(0, i + 1);
            assert(next.drop_last() =~= pre);
            assert(next.last() == mac@[i as int]);
            if i == 0 {
                assert(s@ =~= hex_pair(mac@[0]));
            } else {
                assert(s@ =~= before + seq![':'] + hex_pair(mac@[i as int]));
            }
        }
        i = i + 1;
    }
    assert(mac@.subrange(0, n as int) =~= mac@);
    s
}

/// Formats an IPv4 address in dotted decimal.
pub fn fmt_ipv4(addr: &[u8; 4]) -> (s: String)
    ensures
        s@ == dotted_text(addr@),
{
    let mut s = String::new();
    let mut i: usize = 0;
    while i < 4
        invariant
            addr@.len() == 4,
            i <= 4,
            s@ == dotted_text(addr@.subrange(0, i as int)),
        decreases 4 - i,
    {
        let ghost before = s@;
        if i > 0 {
            string_push(&mut s, '.');
        }
        push_decimal(&mut s, addr[i]);
        proof {
            let pre = addr@.subrange(0, i as int);
            let next = addr@.subrange(0, i + 1);
            assert(next.drop_last() =~= pre);
            assert(next.last() == addr@[i as int]);
            if i == 0 {
                assert(s@ =~= dec_text(addr@[0] as nat));
            } else {
                assert(s@ =~= before + seq!['.'] + dec_text(addr@[i as int] as nat));
            }
        }
        i = i + 1;
    }
    assert(addr@.subrange(0, 4) =~= addr@);
    s
}

/// The pieces of `s` between occurrences of `sep` (like `str::split`: `n` separators give
/// `n + 1` pieces, some possibly empty).
pub open spec fn split_on(s: Seq<char>, sep: char) -> Seq<Seq<char>>
    decreases s.len(),
{
    if s.len() == 0 {
        seq![Seq::empty()]
    } else if s.last() == sep {
        split_on(s.drop_last(), sep).push(Seq::empty())
    } else {
        let p = split_on(s.drop_last(), sep);
        p.update(p.len() - 1, p.last().push(s.last()))
    }
}

/// `split_on` never yields an empty list of pieces.
pub proof fn lemma_split_nonempty(s: Seq<char>, sep: char)
    ensures
        split_on(s, sep).len() >= 1,
    decreases s.len(),
{
    if s.len() > 0 {
        lemma_split_nonempty(s.drop_last(), sep);
    }
}

/// The value of digit `c` in bases up to 16 (`-1` if it is not a hex digit).
pub open spec fn digit_value(c: char) -> int {
    if '0' <= c <= '9' {
        c as int - 48
    } else if 'a' <= c <= 'f' {
        c as int - 87
    } else if 'A' <= c <= 'F' {
        c as int - 55
    } else {
        -1
    }
}

/// Whether `c` is a digit of base `radix` (10 or 16).
pub open spec fn is_digit_of(c: char, radix: int) -> bool {
    0 <= digit_value(c) < radix
}

/// The value of a string of digits in base `radix`.
pub open spec fn digits_value(d: Seq<char>, radix: int) -> int
    decreases d.len(),
{
    if d.len() == 0 {
        0
    } else {
        digits_value(d.drop_last(), radix) * radix + digit_value(d.last())
    }
}

/// The digits after an optional leading `+` (a lone `+` is kept, and then fails).
pub open spec fn unsigned_digits(s: Seq<char>) -> Seq<char> {
    if s.len() >= 2 && s[0] == '+' {
        s.drop_first()
    } else {
        s
    }
}

/// What `from_str_radix` gives for an unsigned type whose largest value is `max`:
/// an optional `+`, then one or more digits, with a value not above `max`.
pub open spec fn parse_unsigned_spec(s: Seq<char>, radix: int, max: int) -> Option<int> {
    let d = unsigned_digits(s);
    if d.len() > 0 && (forall|i: int| 0 <= i < d.len() ==> is_digit_of(d[i], radix))
        && digits_value(d, radix) <= max {
        Some(digits_value(d, radix))
    } else {
        None
    }
}

proof fn lemma_digits_value_monotone(d: Seq<char>, radix: int, k: int)
    requires
        0 <= k <= d.len(),
        radix >= 1,
        forall|i: int| 0 <= i < d.len() ==> is_digit_of(d[i], radix),
    ensures
        digits_value(d.subrange(0, k), radix) <= digits_value(d, radix),
        digits_value(d, radix) >= 0,
    decreases d.len(),
{
    if d.len() > 0 {
        let dl = d.drop_last();
        if k == d.len() {
            assert(d.subrange(0, k) =~= d);
        } else {
            assert(dl.subrange(0, k) =~= d.subrange(0, k));
        }
        lemma_digits_value_monotone(dl, radix, if k == d.len() { 0 } else { k });
        assert(digits_value(d, radix) == digits_value(dl, radix) * radix + digit_value(d.last()));
        assert(digits_value(dl, radix) * radix >= digits_value(dl, radix)) by (nonlinear_arith)
            requires
                digits_value(dl, radix) >= 0,
                radix >= 1,
        ;
    } else {
        assert(d.subrange(0, k) =~= d);
    }
}

fn char_digit_value(c: char) -> (r: u32)
    ensures
        digit_value(c) < 0 ==> r == 99,
        digit_value(c) >= 0 ==> r == digit_value(c),
{
    if '0' <= c && c <= '9' {
        (c as u32) - 48
    } else if 'a' <= c && c <= 'f' {
        (c as u32) - 87
    } else if 'A' <= c && c <= 'F' {
        (c as u32) - 55
    } else {
        99
    }
}

/// Parses an unsigned number in base `radix` (10 or 16) with at most the value `max`,
/// as `from_str_radix` does for unsigned types.
pub fn parse_unsigned(s: &[char], radix: u32, max: u32) -> (r: Option<u32>)
    requires
        radix == 10 || radix == 16,
        max <= 0xFFFF,
    ensures
        r matches Some(v) ==> parse_unsigned_spec(s@, radix as int, max as int) == Some(v as int),
        r is None ==> parse_unsigned_spec(s@, radix as int, max as int) is None,
{
    let n: usize = s.len();
    let start: usize = if n >= 2 && s[0] == '+' { 1 } else { 0 };
    let ghost d = unsigned_digits(s@);
    assert(d =~= s@.subrange(start as int, n as int));
    if start == n {
        return None;
    }
    let mut value: u32 = 0;
    let mut i: usize = start;
    while i < n
        invariant
            n == s@.len(),
            start <= i <= n,
            d == s@.subrange(start as int, n as int),
            d == unsigned_digits(s@),
            radix == 10 || radix == 16,
            max <= 0xFFFF,
            value <= max,
            forall|j: int| start <= j < i ==> is_digit_of(s@[j], radix as int),
            value as int == digits_value(s@.subrange(start as int, i as int), radix as int),
        decreases n - i,
    {
        let dv: u32 = char_digit_value(s[i]);
        if dv >= radix {
            proof {
                assert(d[i - start] == s@[i as int]);
                assert(!is_digit_of(d[i - start], radix as int));
                assert(!(forall|j: int| 0 <= j < d.len() ==> is_digit_of(d[j], radix as int)));
            }
            return None;
        }
        let next: u32 = value * radix + dv;
        proof {
            let pre = s@.subrange(start as int, i as int);
            let post = s@.subrange(start as int, i + 1);
            assert(post.drop_last() =~= pre);
            assert(post.last() == s@[i as int]);
            assert(digits_value(post, radix as int) == next);
        }
        if next > max {
            proof {
                let post = s@.subrange(start as int, i + 1);
                if forall|j: int| 0 <= j < d.len() ==> is_digit_of(d[j], radix as int) {
                    assert(post =~= d.subrange(0, i + 1 - start));
                    lemma_digits_value_monotone(d, radix as int, i + 1 - start);
                }
            }
            return None;
        }
        value = next;
        i = i + 1;
    }
    assert(s@.subrange(start as int, n as int) =~= d);
    Some(value)
}

/// Parses an unsigned decimal number that fits in `usize`, as `str::parse::<usize>` does.
pub fn parse_usize(s: &[char]) -> (r: Option<usize>)
    ensures
        r matches Some(v) ==> parse_unsigned_spec(s@, 10, usize::MAX as int) == Some(v as int),
        r is None ==> parse_unsigned_spec(s@, 10, usize::MAX as int) is None,
{
    let n: usize = s.len();
    let start: usize = if n >= 2 && s[0] == '+' { 1 } else { 0 };
    let ghost d = unsigned_digits(s@);
    assert(d =~= s@.subrange(start as int, n as int));
    if start == n {
        return None;
    }
    let mut value: usize = 0;
    let mut i: usize = start;
    while i < n
        invariant
            n == s@.len(),
            start <= i <= n,
            d == s@.subrange(start as int, n as int),
            d == unsigned_digits(s@),
            forall|j: int| start <= j < i ==> is_digit_of(s@[j], 10),
            value as int == digits_value(s@.subrange(start as int, i as int), 10),
        decreases n - i,
    {
        let dv: u32 = char_digit_value(s[i]);
        if dv >= 10 {
            proof {
                assert(d[i - start] == s@[i as int]);
                assert(!is_digit_of(d[i - start], 10));
                assert(!(forall|j: int| 0 <= j < d.len() ==> is_digit_of(d[j], 10)));
            }
            return None;
        }
        let ghost pre = s@.subrange(start as int, i as int);
        let ghost post = s@.subrange(start as int, i + 1);
        proof {
            assert(post.drop_last() =~= pre);
            assert(post.last() == s@[i as int]);
        }
        let next: Option<usize> = match value.checked_mul(10) {
            Some(t) => t.checked_add(dv as usize),
            None => None,
        };
        match next {
            Some(v) => {
                value = v;
            },
            None => {
                proof {
                    assert(digits_value(post, 10) == value * 10 + dv);
                    assert(digits_value(post, 10) > usize::MAX);
                    if forall|j: int| 0 <= j < d.len() ==> is_digit_of(d[j], 10) {
                        assert(post =~= d.subrange(0, i + 1 - start));
                        lemma_digits_value_monotone(d, 10, i + 1 - start);
                    }
                }
                return None;
            },
        }
        i = i + 1;
    }
    assert(s@.subrange(start as int, n as int) =~= d);
    Some(value)
}

/// The pieces of `s` between occurrences of `sep`.
pub fn split_chars(s: &[char], sep: char) -> (parts: Vec<Vec<char>>)
    ensures
        parts@.map_values(|p: Vec<char>| p@) == split_on(s@, sep),
{
    let mut parts: Vec<Vec<char>> = Vec::new();
    let mut current: Vec<char> = Vec::new();
    let n: usize = s.len();
    let mut i: usize = 0;
    while i < n
        invariant
            n == s@.len(),
            i <= n,
            parts@.map_values(|p: Vec<char>| p@).push(current@) == split_on(
                s@.subrange(0, i as int),
                sep,
            ),
        decreases n - i,
    {
        let c: char = s[i];
        let ghost pre = s@.subrange(0, i as int);
        let ghost old_parts = parts@.map_values(|p: Vec<char>| p@);
        let ghost old_current = current@;
        proof {
            assert(s@.subrange(0, i + 1).drop_last() =~= pre);
        }
        if c == sep {
            let done = current;
            parts.push(done);
            current = Vec::new();
            proof {
                assert(parts@.map_values(|p: Vec<char>| p@) =~= old_parts.push(old_current));
                assert(parts@.map_values(|p: Vec<char>| p@).push(current@) =~= split_on(
                    s@.subrange(0, i + 1),
                    sep,
                ));
            }
        } else {
            current.push(c);
            proof {
                assert(parts@.map_values(|p: Vec<char>| p@) =~= old_parts);
                assert(parts@.map_values(|p: Vec<char>| p@).push(current@) =~= split_on(
                    s@.subrange(0, i + 1),
                    sep,
                ));
            }
        }
        i = i + 1;
    }
    let ghost before = parts@.map_values(|p: Vec<char>| p@);
    parts.push(current);
    assert(parts@.map_values(|p: Vec<char>| p@) =~= before.push(current@));
    assert(s@.subrange(0, n as int) =~= s@);
    parts
}

/// Characters with the Unicode `White_Space` property (what `str::trim` removes).
pub open spec fn is_whitespace(c: char) -> bool {
    ||| '\u{9}' <= c <= '\u{d}'
    ||| c == ' '
    ||| c == '\u{85}'
    ||| c == '\u{a0}'
    ||| c == '\u{1680}'
    ||| '\u{2000}' <= c <= '\u{200a}'
    ||| c == '\u{2028}'
    ||| c == '\u{2029}'
    ||| c == '\u{202f}'
    ||| c == '\u{205f}'
    ||| c == '\u{3000}'
}

/// Number of leading whitespace characters.
pub open spec fn leading_ws(s: Seq<char>) -> nat
    decreases s.len(),
{
    if s.len() > 0 && is_whitespace(s[0]) {
        1 + leading_ws(s.drop_first())
    } else {
        0
    }
}

/// Number of trailing whitespace characters.
pub open spec fn trailing_ws(s: Seq<char>) -> nat
    decreases s.len(),
{
    if s.len() > 0 && is_whitespace(s.last()) {
        1 + trailing_ws(s.drop_last())
    } else {
        0
    }
}

/// `s` without leading and trailing whitespace.
pub open spec fn trimmed(s: Seq<char>) -> Seq<char> {
    let a = leading_ws(s);
    let rest = s.subrange(a as int, s.len() as int);
    rest.subrange(0, rest.len() - trailing_ws(rest))
}

proof fn lemma_leading_ws(s: Seq<char>, i: int)
    requires
        0 <= i <= s.len(),
        forall|j: int| 0 <= j < i ==> is_whitespace(s[j]),
        i == s.len() || !is_whitespace(s[i]),
    ensures
        leading_ws(s) == i,
    decreases s.len(),
{
    if i > 0 {
        let t = s.drop_first();
        assert forall|j: int| 0 <= j < i - 1 implies is_whitespace(t[j]) by {
            assert(t[j] == s[j + 1]);
        }
        if i < s.len() {
            assert(t[i - 1] == s[i]);
        }
        lemma_leading_ws(t, i - 1);
    }
}

proof fn lemma_trailing_ws(s: Seq<char>, k: int)
    requires
        0 <= k <= s.len(),
        forall|j: int| s.len() - k <= j < s.len() ==> is_whitespace(s[j]),
        k == s.len() || !is_whitespace(s[s.len() - k - 1]),
    ensures
        trailing_ws(s) == k,
    decreases s.len(),
{
    if k > 0 {
        let t = s.drop_last();
        assert forall|j: int| t.len() - (k - 1) <= j < t.len() implies is_whitespace(t[j]) by {
            assert(t[j] == s[j]);
        }
        if k < s.len() {
            assert(t[t.len() - (k - 1) - 1] == s[s.len() - k - 1]);
        }
        lemma_trailing_ws(t, k - 1);
    }
}

fn char_is_whitespace(c: char) -> (r: bool)
    ensures
        r == is_whitespace(c),
{
    ('\u{9}' <= c && c <= '\u{d}') || c == ' ' || c == '\u{85}' || c == '\u{a0}' || c
        == '\u{1680}' || ('\u{2000}' <= c && c <= '\u{200a}') || c == '\u{2028}' || c
        == '\u{2029}' || c == '\u{202f}' || c == '\u{205f}' || c == '\u{3000}'
}

/// Removes leading and trailing whitespace, as `str::trim` does.
pub fn trim_chars(s: &[char]) -> (r: Vec<char>)
    ensures
        r@ == trimmed(s@),
{
    let n: usize = s.len();
    let mut a: usize = 0;
    while a < n && char_is_whitespace(s[a])
        invariant
            n == s@.len(),
            a <= n,
            forall|j: int| 0 <= j < a ==> is_whitespace(s@[j]),
        decreases n - a,
    {
        a = a + 1;
    }
    proof {
        lemma_leading_ws(s@, a as int);
    }
    let mut b: usize = n;
    while b > a && char_is_whitespace(s[b - 1])
        invariant
            n == s@.len(),
            a <= b <= n,
            forall|j: int| b <= j < n ==> is_whitespace(s@[j]),
        decreases b,
    {
        b = b - 1;
    }
    let ghost rest = s@.subrange(a as int, n as int);
    proof {
        assert forall|j: int| rest.len() - (n - b) <= j < rest.len() implies is_whitespace(rest[j]) by {
            assert(rest[j] == s@[a + j]);
        }
        if n - b < rest.len() {
            assert(rest[rest.len() - (n - b) - 1] == s@[b - 1]);
        }
        lemma_trailing_ws(rest, (n - b) as int);
    }
    let mut r: Vec<char> = Vec::new();
    let mut i: usize = a;
    while i < b
        invariant
            a <= i <= b,
            b <= n,
            n == s@.len(),
            r@ == s@.subrange(a as int, i as int),
        decreases b - i,
    {
        r.push(s[i]);
        i = i + 1;
        assert(r@ =~= s@.subrange(a as int, i as int));
    }
    assert(r@ =~= trimmed(s@));
    r
}

/// ASCII upper-case letters mapped to lower case, other characters unchanged.
pub open spec fn ascii_lower_char(c: char) -> char {
    if 'A' <= c <= 'Z' {
        (c as int + 32) as char
    } else {
        c
    }
}

/// `to_ascii_lowercase` on a sequence of characters.
pub open spec fn ascii_lower(s: Seq<char>) -> Seq<char> {
    Seq::new(s.len(), |i: int| ascii_lower_char(s[i]))
}

/// Lower-cases ASCII letters.
pub fn to_ascii_lower(s: &[char]) -> (r: Vec<char>)
    ensures
        r@ == ascii_lower(s@),
{
    let mut r: Vec<char> = Vec::new();
    let n: usize = s.len();
    let mut i: usize = 0;
    while i < n
        invariant
            n == s@.len(),
            i <= n,
            r@ == ascii_lower(s@.subrange(0, i as int)),
        decreases n - i,
    {
        let c: char = s[i];
        let l: char = if 'A' <= c && c <= 'Z' {
            ((c as u32) + 32) as u8 as char
        } else {
            c
        };
        r.push(l);
        i = i + 1;
        assert(r@ =~= ascii_lower(s@.subrange(0, i as int)));
    }
    assert(s@.subrange(0, n as int) =~= s@);
    r
}

/// Whether two character sequences are equal.
pub fn chars_equal(a: &[char], b: &[char]) -> (r: bool)
    ensures
        r == (a@ == b@),
{
    if a.len() != b.len() {
        return false;
    }
    let n: usize = a.len();
    let mut i: usize = 0;
    while i < n
        invariant
            n == a@.len(),
            n == b@.len(),
            i <= n,
            forall|j: int| 0 <= j < i ==> a@[j] == b@[j],
        decreases n - i,
    {
        if a[i] != b[i] {
            return false;
        }
        i = i + 1;
    }
    assert(a@ =~= b@);
    true
}

/// Whether `s` contains `c`.
pub fn contains_char(s: &[char], c: char) -> (r: bool)
    ensures
        r == s@.contains(c),
{
    let n: usize = s.len();
    let mut i: usize = 0;
    while i < n
        invariant
            n == s@.len(),
            i <= n,
            forall|j: int| 0 <= j < i ==> s@[j] != c,
        decreases n - i,
    {
        if s[i] == c {
            assert(s@[i as int] == c);
            return true;
        }
        i = i + 1;
    }
    false
}

/// Why a MAC address string was rejected.
#[derive(Debug, Clone, Copy, PartialEq, Eq)]
pub enum MacParseError {
    /// A colon-separated piece is not a hexadecimal byte.
    InvalidFormat,
    /// There are not exactly six pieces.
    WrongLength,
}

/// The byte a piece of a MAC address denotes, if it is a hexadecimal byte.
pub open spec fn hex_byte(piece: Seq<char>) -> Option<int> {
    parse_unsigned_spec(piece, 16, 255)
}

/// What `parse_mac` gives for `s`: an error if a piece is not a hex byte, otherwise an
/// error unless there are exactly six pieces, otherwise their bytes.
pub open spec fn mac_parse_spec(s: Seq<char>) -> Result<Seq<u8>, MacParseError> {
    let parts = split_on(s, ':');
    if exists|i: int| 0 <= i < parts.len() && hex_byte(parts[i]) is None {
        Err(MacParseError::InvalidFormat)
    } else if parts.len() != 6 {
        Err(MacParseError::WrongLength)
    } else {
        Ok(Seq::new(6, |i: int| hex_byte(parts[i])->0 as u8))
    }
}

/// Parses `xx:xx:xx:xx:xx:xx` (hex digits of either case).
pub fn parse_mac(input: &str) -> (r: Result<[u8; 6], MacParseError>)
    ensures
        r matches Ok(m) ==> mac_parse_spec(input@) == Ok::<Seq<u8>, MacParseError>(m@),
        r matches Err(e) ==> mac_parse_spec(input@) == Err::<Seq<u8>, MacParseError>(e),
{
    let chars: Vec<char> = str_chars(input);
    parse_mac_from_chars(chars.as_slice())
}

/// Parses `xx:xx:xx:xx:xx:xx` given as characters.
pub fn parse_mac_from_chars(chars: &[char]) -> (r: Result<[u8; 6], MacParseError>)
    ensures
        r matches Ok(m) ==> mac_parse_spec(chars@) == Ok::<Seq<u8>, MacParseError>(m@),
        r matches Err(e) ==> mac_parse_spec(chars@) == Err::<Seq<u8>, MacParseError>(e),
{
    let parts: Vec<Vec<char>> = split_chars(chars, ':');
    let ghost pv = parts@.map_values(|p: Vec<char>| p@);
    let mut bytes: Vec<u8> = Vec::new();
    let n: usize = parts.len();
    let mut i: usize = 0;
    while i < n
        invariant
            n == parts@.len(),
            pv == parts@.map_values(|p: Vec<char>| p@),
            pv == split_on(chars@, ':'),
            i <= n,
            bytes@.len() == i,
            forall|j: int| 0 <= j < i ==> hex_byte(#[trigger] pv[j]) == Some(bytes@[j] as int),
        decreases n - i,
    {
        match parse_unsigned(parts[i].as_slice(), 16, 255) {
            Some(v) => {
                bytes.push(v as u8);
            },
            None => {
                assert(hex_byte(pv[i as int]) is None);
                return Err(MacParseError::InvalidFormat);
            },
        }
        i = i + 1;
    }
    if n != 6 {
        return Err(MacParseError::WrongLength);
    }
    let mac: [u8; 6] = [bytes[0], bytes[1], bytes[2], bytes[3], bytes[4], bytes[5]];
    assert(mac@ =~= Seq::new(6, |i: int| hex_byte(pv[i])->0 as u8));
    Ok(mac)
}

/// Splitting after a separator starts a new piece.
pub proof fn lemma_split_append(x: Seq<char>, sep: char, y: Seq<char>)
    requires
        !y.contains(sep),
    ensures
        split_on(x + seq![sep] + y, sep) == split_on(x, sep).push(y),
    decreases y.len(),
{
    let s = x + seq![sep] + y;
    if y.len() == 0 {
        assert(s =~= x.push(sep));
        assert(s.drop_last() =~= x);
        assert(s.last() == sep);
        assert(y =~= Seq::<char>::empty());
        assert(split_on(s, sep) == split_on(s.drop_last(), sep).push(Seq::empty()));
    } else {
        let y0 = y.drop_last();
        assert(!y0.contains(sep)) by {
            if y0.contains(sep) {
                let j = choose|j: int| 0 <= j < y0.len() && y0[j] == sep;
                assert(y[j] == sep);
            }
        }
        assert(y.last() != sep) by {
            assert(y[y.len() - 1] == y.last());
        }
        lemma_split_append(x, sep, y0);
        assert(s.drop_last() =~= x + seq![sep] + y0);
        assert(s.last() == y.last());
        let p = split_on(x, sep).push(y0);
        assert(y0.push(y.last()) =~= y);
        assert(p.last() == y0);
        assert(p.update(p.len() - 1, p.last().push(y.last())) =~= split_on(x, sep).push(y));
        assert(split_on(s, sep) == p.update(p.len() - 1, p.last().push(y.last())));
    }
}

/// A piece without separators splits into itself.
pub proof fn lemma_split_single(y: Seq<char>, sep: char)
    requires
        !y.contains(sep),
    ensures
        split_on(y, sep) == seq![y],
    decreases y.len(),
{
    if y.len() > 0 {
        let y0 = y.drop_last();
        assert(!y0.contains(sep)) by {
            if y0.contains(sep) {
                let j = choose|j: int| 0 <= j < y0.len() && y0[j] == sep;
                assert(y[j] == sep);
            }
        }
        assert(y.last() != sep) by {
            assert(y[y.len() - 1] == y.last());
        }
        lemma_split_single(y0, sep);
        assert(y0.push(y.last()) =~= y);
        assert(seq![y0].update(0, y0.push(y.last())) =~= seq![y]);
    } else {
        assert(y =~= Seq::<char>::empty());
    }
}

proof fn lemma_hex_pair(b: u8)
    ensures
        !hex_pair(b).contains(':'),
        hex_byte(hex_pair(b)) == Some(b as int),
{
    let p = hex_pair(b);
    assert(digit_value(p[0]) == b as int / 16);
    assert(digit_value(p[1]) == b as int % 16);
    assert(unsigned_digits(p) == p);
    let first = seq![p[0]];
    assert(p.drop_last() =~= first);
    assert(first.drop_last() =~= Seq::<char>::empty());
    assert(digits_value(Seq::<char>::empty(), 16) == 0);
    assert(digits_value(first, 16) == digits_value(first.drop_last(), 16) * 16 + digit_value(first.last()));
    assert(digits_value(first, 16) == b as int / 16);
    assert(digits_value(p, 16) == digits_value(p.drop_last(), 16) * 16 + digit_value(p.last()));
    assert(digits_value(p, 16) == b as int);
    assert(!p.contains(':')) by {
        if p.contains(':') {
            let j = choose|j: int| 0 <= j < p.len() && p[j] == ':';
        }
    }
}

proof fn lemma_split_mac_text(m: Seq<u8>)
    requires
        m.len() >= 1,
    ensures
        split_on(mac_text(m), ':') == Seq::new(m.len(), |i: int| hex_pair(m[i])),
    decreases m.len(),
{
    lemma_hex_pair(m.last());
    if m.len() == 1 {
        lemma_split_single(hex_pair(m[0]), ':');
        assert(seq![hex_pair(m[0])] =~= Seq::new(1, |i: int| hex_pair(m[i])));
    } else {
        let m0 = m.drop_last();
        lemma_split_mac_text(m0);
        lemma_split_append(mac_text(m0), ':', hex_pair(m.last()));
        assert(Seq::new(m0.len(), |i: int| hex_pair(m0[i])).push(hex_pair(m.last())) =~= Seq::new(
            m.len(),
            |i: int| hex_pair(m[i]),
        ));
    }
}

/// Law (format, then parse a MAC address): the text `fmt_mac` produces for a six-byte
/// address parses back to that address.
pub proof fn law_mac_text_roundtrip(m: Seq<u8>)
    requires
        m.len() == 6,
    ensures
        mac_parse_spec(mac_text(m)) == Ok::<Seq<u8>, MacParseError>(m),
{
    lemma_split_mac_text(m);
    let parts = split_on(mac_text(m), ':');
    assert forall|i: int| 0 <= i < parts.len() implies hex_byte(parts[i]) == Some(m[i] as int) by {
        lemma_hex_pair(m[i]);
    }
    assert(Seq::new(6, |i: int| hex_byte(parts[i])->0 as u8) =~= m);
}

/// The decimal text of a byte: digits only, and it reads back as the byte.
pub proof fn lemma_dec_text(n: nat)
    requires
        n < 256,
    ensures
        !dec_text(n).contains('.'),
        parse_unsigned_spec(dec_text(n), 10, 255) == Some(n as int),
        trimmed(dec_text(n)) == dec_text(n),
{
    let s = dec_text(n);
    let e = Seq::<char>::empty();
    assert(digits_value(e, 10) == 0);
    if n < 10 {
        assert(s == seq![dec_char(n as int)]);
        assert(s.drop_last() =~= e);
    } else if n < 100 {
        assert(dec_text(n / 10) == seq![dec_char((n / 10) as int)]);
        assert(s =~= seq![dec_char((n / 10) as int), dec_char((n % 10) as int)]);
        let s1 = seq![dec_char((n / 10) as int)];
        assert(s.drop_last() =~= s1);
        assert(s1.drop_last() =~= e);
        assert(digits_value(s1, 10) == n / 10);
        assert(digits_value(s, 10) == (n / 10) * 10 + n % 10);
    } else {
        assert(dec_text(n / 100) == seq![dec_char((n / 100) as int)]);
        assert(dec_text(n / 10) == dec_text((n / 10) / 10).push(dec_char(((n / 10) % 10) as int)));
        assert((n / 10) / 10 == n / 100);
        assert(s =~= seq![
            dec_char((n / 100) as int),
            dec_char(((n / 10) % 10) as int),
            dec_char((n % 10) as int),
        ]);
        let s1 = seq![dec_char((n / 100) as int)];
        let s2 = seq![dec_char((n / 100) as int), dec_char(((n / 10) % 10) as int)];
        assert(s.drop_last() =~= s2);
        assert(s2.drop_last() =~= s1);
        assert(s1.drop_last() =~= e);
        assert(digits_value(s1, 10) == n / 100);
        assert(digits_value(s2, 10) == (n / 100) * 10 + (n / 10) % 10);
        assert(digits_value(s, 10) == ((n / 100) * 10 + (n / 10) % 10) * 10 + n % 10);
    }
    assert(unsigned_digits(s) == s);
    assert(!s.contains('.')) by {
        if s.contains('.') {
            let j = choose|j: int| 0 <= j < s.len() && s[j] == '.';
        }
    }
    assert(leading_ws(s) == 0);
    assert(trailing_ws(s.subrange(0, s.len() as int)) == 0) by {
        assert(s.subrange(0, s.len() as int) =~= s);
    }
    assert(s.subrange(0, s.len() as int) =~= s);
}

/// Splitting dotted text at the dots gives the decimal text of each byte.
pub proof fn lemma_split_dotted_text(a: Seq<u8>)
    requires
        a.len() >= 1,
    ensures
        split_on(dotted_text(a), '.') == Seq::new(a.len(), |i: int| dec_text(a[i] as nat)),
    decreases a.len(),
{
    lemma_dec_text(a.last() as nat);
    if a.len() == 1 {
        lemma_split_single(dec_text(a[0] as nat), '.');
        assert(seq![dec_text(a[0] as nat)] =~= Seq::new(1, |i: int| dec_text(a[i] as nat)));
    } else {
        let a0 = a.drop_last();
        lemma_split_dotted_text(a0);
        lemma_split_append(dotted_text(a0), '.', dec_text(a.last() as nat));
        assert(Seq::new(a0.len(), |i: int| dec_text(a0[i] as nat)).push(dec_text(a.last() as nat))
            =~= Seq::new(a.len(), |i: int| dec_text(a[i] as nat)));
    }
}

} // verus!

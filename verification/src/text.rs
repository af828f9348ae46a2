//! Texts: numbers in decimal, and texts put together.

use vstd::prelude::*;

verus! {

/// The character of a digit.
pub open spec fn digit(d: nat) -> char {
    (48 + d) as char
}

/// A number in decimal, without leading zeros.
pub open spec fn digits(n: nat) -> Seq<char>
    decreases n,
{
    if n < 10 {
        seq![digit(n)]
    } else {
        digits(n / 10).push(digit(n % 10))
    }
}

/// A number in decimal, with a sign if it is negative.
pub open spec fn decimal(n: int) -> Seq<char> {
    if n < 0 {
        seq!['-'] + digits((-n) as nat)
    } else {
        digits(n as nat)
    }
}

/// The text of a digit.
fn digit_text(d: u128) -> (r: &'static str)
    requires
        d < 10,
    ensures
        r@ == seq![digit(d as nat)],
{
    proof {
        reveal_strlit("0");
        reveal_strlit("1");
        reveal_strlit("2");
        reveal_strlit("3");
        reveal_strlit("4");
        reveal_strlit("5");
        reveal_strlit("6");
        reveal_strlit("7");
        reveal_strlit("8");
        reveal_strlit("9");
    }
    let r = if d == 0 {
        "0"
    } else if d == 1 {
        "1"
    } else if d == 2 {
        "2"
    } else if d == 3 {
        "3"
    } else if d == 4 {
        "4"
    } else if d == 5 {
        "5"
    } else if d == 6 {
        "6"
    } else if d == 7 {
        "7"
    } else if d == 8 {
        "8"
    } else {
        "9"
    };
    assert(r@ =~= seq![digit(d as nat)]);
    r
}

/// A number in decimal.
fn digits_text(n: u128) -> (r: String)
    ensures
        r@ == digits(n as nat),
    decreases n,
{
    if n < 10 {
        digit_text(n).to_owned()
    } else {
        let mut text = digits_text(n / 10);
        text.append(digit_text(n % 10));
        assert(text@ =~= digits(n as nat));
        text
    }
}

/// A number in decimal.
pub fn decimal_text(n: i64) -> (r: String)
    ensures
        r@ == decimal(n as int),
{
    if n < 0 {
        let mut text = "-".to_owned();
        let rest = digits_text((-(n as i128)) as u128);
        text.append(rest.as_str());
        proof {
            reveal_strlit("-");
        }
        assert(text@ =~= decimal(n as int));
        text
    } else {
        digits_text(n as u128)
    }
}

/// A large number in decimal.
pub fn whole_text(n: i128) -> (r: String)
    ensures
        r@ == decimal(n as int),
{
    if n < 0 {
        let rest = digits_text(((-(n + 1)) as u128) + 1);
        proof {
            reveal_strlit("-");
        }
        let text = concat2("-", rest.as_str());
        assert(text@ =~= decimal(n as int));
        text
    } else {
        digits_text(n as u128)
    }
}

/// A text in quotation marks, with what cannot stand there escaped.
pub uninterp spec fn quoted(text: Seq<char>) -> Seq<char>;

/// Puts a text in quotation marks with the `Debug` of `str`, through `std::format`. The result
/// depends on the text alone. Which characters are escaped, and how, is left unsaid.
#[verifier::external_body]
pub(crate) fn quote(text: &str) -> (r: String)
    ensures
        r@ == quoted(text@),
{
    format!("{:?}", text)
}

/// A hexadecimal digit.
pub open spec fn hex_digit(d: nat) -> char {
    if d < 10 {
        (48 + d) as char
    } else {
        (87 + d) as char
    }
}

/// The last so many hexadecimal digits of a number.
pub open spec fn hex(n: nat, width: nat) -> Seq<char>
    decreases width,
{
    if width == 0 {
        Seq::empty()
    } else {
        hex(n / 16, (width - 1) as nat).push(hex_digit(n % 16))
    }
}

/// A number of so many hexadecimal digits.
pub open spec fn bits_shown(n: nat, width: nat) -> Seq<char> {
    "0x"@ + hex(n, width)
}

/// A number of 128 bits in five groups of hexadecimal digits.
pub open spec fn uuid_shown(n: nat) -> Seq<char> {
    hex(n / 0x1_0000_0000_0000_0000_0000_0000, 8) + "-"@ + hex(
        n / 0x1_0000_0000_0000_0000_0000,
        4,
    ) + "-"@ + hex(n / 0x1_0000_0000_0000_0000, 4) + "-"@ + hex(n / 0x1_0000_0000_0000, 4) + "-"@
        + hex(n, 12)
}

/// The text of a hexadecimal digit.
fn hex_digit_text(d: u128) -> (r: &'static str)
    requires
        d < 16,
    ensures
        r@ == seq![hex_digit(d as nat)],
{
    if d < 10 {
        return digit_text(d);
    }
    proof {
        reveal_strlit("a");
        reveal_strlit("b");
        reveal_strlit("c");
        reveal_strlit("d");
        reveal_strlit("e");
        reveal_strlit("f");
    }
    let r = if d == 10 {
        "a"
    } else if d == 11 {
        "b"
    } else if d == 12 {
        "c"
    } else if d == 13 {
        "d"
    } else if d == 14 {
        "e"
    } else {
        "f"
    };
    assert(r@ =~= seq![hex_digit(d as nat)]);
    r
}

/// The last so many hexadecimal digits of a number.
fn hex_text(n: u128, width: usize) -> (r: String)
    ensures
        r@ == hex(n as nat, width as nat),
    decreases width,
{
    if width == 0 {
        let none = "".to_owned();
        proof {
            reveal_strlit("");
        }
        assert(none@ =~= Seq::<char>::empty());
        none
    } else {
        let text = followed_by(hex_text(n / 16, width - 1), hex_digit_text(n % 16));
        assert(text@ =~= hex(n as nat, width as nat));
        text
    }
}

/// A number of so many hexadecimal digits.
pub fn bits_text(n: u128, width: usize) -> (r: String)
    ensures
        r@ == bits_shown(n as nat, width as nat),
{
    concat2("0x", hex_text(n, width).as_str())
}

/// A number of 128 bits in five groups of hexadecimal digits.
pub fn uuid_text(n: u128) -> (r: String)
    ensures
        r@ == uuid_shown(n as nat),
{
    let first = hex_text(n / 0x1_0000_0000_0000_0000_0000_0000, 8);
    let second = hex_text(n / 0x1_0000_0000_0000_0000_0000, 4);
    let third = hex_text(n / 0x1_0000_0000_0000_0000, 4);
    let fourth = hex_text(n / 0x1_0000_0000_0000, 4);
    let head = concat5(first.as_str(), "-", second.as_str(), "-", third.as_str());
    concat5(head.as_str(), "-", fourth.as_str(), "-", hex_text(n, 12).as_str())
}

/// The numbers of bytes, in decimal.
pub open spec fn byte_numbers(bytes: Seq<u8>) -> Seq<Seq<char>> {
    Seq::new(bytes.len(), |i: int| digits(bytes[i] as nat))
}

/// A list of bytes.
pub fn bytes_text(bytes: &Vec<u8>) -> (r: String)
    ensures
        r@ == listed(byte_numbers(bytes@)),
{
    let mut parts: Vec<String> = Vec::new();
    let mut i: usize = 0;
    while i < bytes.len()
        invariant
            i <= bytes@.len(),
            parts@.len() == i,
            forall|j: int| 0 <= j < i ==> (#[trigger] parts@[j])@ == digits(bytes@[j] as nat),
        decreases bytes@.len() - i,
    {
        parts.push(digits_text(bytes[i] as u128));
        i += 1;
    }
    assert(held(parts@) =~= byte_numbers(bytes@));
    list_text(&parts)
}

/// A number in decimal.
pub fn count_text(n: usize) -> (r: String)
    ensures
        r@ == digits(n as nat),
{
    digits_text(n as u128)
}

/// Two texts, one after the other.
pub fn followed_by(mut a: String, b: &str) -> (r: String)
    ensures
        r@ == a@ + b@,
{
    a.append(b);
    a
}

/// Two texts, one after the other.
pub fn concat2(a: &str, b: &str) -> (r: String)
    ensures
        r@ == a@ + b@,
{
    followed_by(a.to_owned(), b)
}

/// Three texts, one after the other.
pub fn concat3(a: &str, b: &str, c: &str) -> (r: String)
    ensures
        r@ == a@ + b@ + c@,
{
    followed_by(concat2(a, b), c)
}

/// Four texts, one after the other.
pub fn concat4(a: &str, b: &str, c: &str, d: &str) -> (r: String)
    ensures
        r@ == a@ + b@ + c@ + d@,
{
    followed_by(concat3(a, b, c), d)
}

/// Five texts, one after the other.
pub fn concat5(a: &str, b: &str, c: &str, d: &str, e: &str) -> (r: String)
    ensures
        r@ == a@ + b@ + c@ + d@ + e@,
{
    followed_by(concat4(a, b, c, d), e)
}

/// Six texts, one after the other.
pub fn concat6(a: &str, b: &str, c: &str, d: &str, e: &str, f: &str) -> (r: String)
    ensures
        r@ == a@ + b@ + c@ + d@ + e@ + f@,
{
    followed_by(concat5(a, b, c, d, e), f)
}

/// Seven texts, one after the other.
pub fn concat7(a: &str, b: &str, c: &str, d: &str, e: &str, f: &str, g: &str) -> (r: String)
    ensures
        r@ == a@ + b@ + c@ + d@ + e@ + f@ + g@,
{
    followed_by(concat6(a, b, c, d, e, f), g)
}

/// Eight texts, one after the other.
pub fn concat8(
    a: &str,
    b: &str,
    c: &str,
    d: &str,
    e: &str,
    f: &str,
    g: &str,
    h: &str,
) -> (r: String)
    ensures
        r@ == a@ + b@ + c@ + d@ + e@ + f@ + g@ + h@,
{
    followed_by(concat7(a, b, c, d, e, f, g), h)
}

/// A number that may be missing.
pub open spec fn optional(n: Option<i64>) -> Seq<char> {
    match n {
        Some(x) => "Some("@ + decimal(x as int) + ")"@,
        None => "None"@,
    }
}

/// A number that may be missing.
pub fn optional_text(n: Option<i64>) -> (r: String)
    ensures
        r@ == optional(n),
{
    match n {
        Some(x) => followed_by(
            followed_by("Some(".to_owned(), decimal_text(x).as_str()),
            ")",
        ),
        None => "None".to_owned(),
    }
}

/// Texts one after the other.
pub open spec fn joined(parts: Seq<Seq<char>>) -> Seq<char>
    decreases parts.len(),
{
    if parts.len() == 0 {
        Seq::empty()
    } else if parts.len() == 1 {
        parts[0]
    } else {
        joined(parts.drop_last()) + ", "@ + parts.last()
    }
}

/// A list of texts, as one text.
pub open spec fn listed(parts: Seq<Seq<char>>) -> Seq<char> {
    "["@ + joined(parts) + "]"@
}

/// What texts hold.
pub open spec fn held(parts: Seq<String>) -> Seq<Seq<char>> {
    Seq::new(parts.len(), |i: int| parts[i]@)
}

/// A list of texts, as one text.
pub fn list_text(parts: &Vec<String>) -> (r: String)
    ensures
        r@ == listed(held(parts@)),
{
    let ghost all = held(parts@);
    let mut out = "".to_owned();
    let mut i: usize = 0;
    proof {
        reveal_strlit("");
        assert(all.take(0) =~= Seq::<Seq<char>>::empty());
        assert(out@ =~= joined(all.take(0)));
    }
    while i < parts.len()
        invariant
            i <= parts@.len(),
            all == held(parts@),
            out@ == joined(all.take(i as int)),
        decreases parts@.len() - i,
    {
        proof {
            assert(all.take(i + 1).drop_last() =~= all.take(i as int));
            assert(all.take(i + 1).last() == all[i as int]);
        }
        if i > 0 {
            out = followed_by(followed_by(out, ", "), parts[i].as_str());
        } else {
            out = parts[i].clone();
        }
        i += 1;
    }
    assert(all.take(i as int) =~= all);
    followed_by(followed_by("[".to_owned(), out.as_str()), "]")
}

/// The number that digits spell.
pub open spec fn spelled(s: Seq<char>) -> nat
    decreases s.len(),
{
    if s.len() == 0 {
        0
    } else {
        (spelled(s.drop_last()) * 10 + (s.last() as nat - 48)) as nat
    }
}

/// The digits of a number spell it.
pub proof fn law_digits_spell(n: nat)
    ensures
        spelled(digits(n)) == n,
    decreases n,
{
    reveal_with_fuel(spelled, 2);
    if n < 10 {
        assert(digits(n).drop_last() =~= Seq::empty());
        assert(digits(n).last() as nat == 48 + n);
    } else {
        law_digits_spell(n / 10);
        assert(digits(n).drop_last() =~= digits(n / 10));
        assert(digits(n).last() as nat == 48 + n % 10);
    }
}

/// Whether a text is made of decimal digits.
pub open spec fn all_digits(s: Seq<char>) -> bool {
    forall|i: int| 0 <= i < s.len() ==> '0' <= #[trigger] s[i] <= '9'
}

/// The digits of a number are digits, and do not begin with zero unless it is zero.
proof fn lemma_digits(n: nat)
    ensures
        all_digits(digits(n)),
        digits(n).len() > 0,
        n > 0 ==> digits(n)[0] != '0',
    decreases n,
{
    if n >= 10 {
        lemma_digits(n / 10);
        let front = digits(n / 10);
        assert forall|i: int| 0 <= i < digits(n).len() implies '0' <= #[trigger] digits(n)[i]
            <= '9' by {
            if i < front.len() {
                assert(digits(n)[i] == front[i]);
            }
        }
        assert(digits(n)[0] == front[0]);
    }
}

/// The text of a number spells it in decimal, behind a minus where it is negative, without leading
/// zeros.
pub proof fn law_decimal_texts(n: i64, r: String)
    requires
        call_ensures(decimal_text, (n,), r),
    ensures
        n >= 0 ==> all_digits(r@) && spelled(r@) == n && (n > 0 ==> r@[0] != '0'),
        n < 0 ==> r@.len() > 1 && r@[0] == '-' && all_digits(r@.skip(1)) && spelled(r@.skip(1))
            == -n && r@[1] != '0',
{
    if n >= 0 {
        law_digits_spell(n as nat);
        lemma_digits(n as nat);
    } else {
        law_digits_spell((-n) as nat);
        lemma_digits((-n) as nat);
        assert(r@.skip(1) =~= digits((-n) as nat));
    }
}

/// The number of a hexadecimal digit.
pub open spec fn hex_value(c: char) -> int {
    if '0' <= c <= '9' {
        c as int - '0' as int
    } else if 'a' <= c <= 'f' {
        c as int - 'a' as int + 10
    } else {
        -1
    }
}

/// Whether a text is made of hexadecimal digits.
pub open spec fn all_hex(s: Seq<char>) -> bool {
    forall|i: int| 0 <= i < s.len() ==> 0 <= #[trigger] hex_value(s[i]) < 16
}

/// The number that hexadecimal digits spell.
pub open spec fn hex_spelled(s: Seq<char>) -> int
    decreases s.len(),
{
    if s.len() == 0 {
        0
    } else {
        hex_spelled(s.drop_last()) * 16 + hex_value(s.last())
    }
}

/// A power of sixteen.
pub open spec fn pow16(n: nat) -> int
    decreases n,
{
    if n == 0 {
        1
    } else {
        16 * pow16((n - 1) as nat)
    }
}

/// Powers of sixteen are positive.
proof fn lemma_pow16(n: nat)
    ensures
        pow16(n) > 0,
    decreases n,
{
    if n > 0 {
        lemma_pow16((n - 1) as nat);
    }
}

/// The hexadecimal digits of a number that has no more spell it.
proof fn lemma_hex(n: nat, width: nat)
    requires
        n < pow16(width),
    ensures
        hex(n, width).len() == width,
        all_hex(hex(n, width)),
        hex_spelled(hex(n, width)) == n,
    decreases width,
{
    if width > 0 {
        let rest = hex(n / 16, (width - 1) as nat);
        let all = hex(n, width);
        lemma_hex(n / 16, (width - 1) as nat);
        assert(all.drop_last() =~= rest);
        assert(hex_value(hex_digit(n % 16)) == n % 16);
        assert forall|i: int| 0 <= i < all.len() implies 0 <= #[trigger] hex_value(all[i]) < 16 by {
            if i < rest.len() {
                assert(0 <= hex_value(rest[i]) < 16);
            }
        }
    }
}

/// The digits of a number are those of its front followed by those of its end.
proof fn lemma_hex_split(n: nat, a: nat, b: nat)
    ensures
        hex(n, a + b) == hex((n as int / pow16(b)) as nat, a) + hex(n, b),
    decreases b,
{
    lemma_pow16(b);
    if b == 0 {
        assert(hex(n, 0) =~= Seq::<char>::empty());
        assert(hex(n, a) + hex(n, 0) =~= hex(n, a));
    } else {
        let less = (b - 1) as nat;
        lemma_pow16(less);
        lemma_hex_split(n / 16, a, less);
        vstd::arithmetic::div_mod::lemma_div_denominator(n as int, 16, pow16(less));
        assert((a + b - 1) as nat == a + less);
        let front = hex((n as int / pow16(b)) as nat, a);
        assert((front + hex(n / 16, less)).push(hex_digit(n % 16)) =~= front + hex(n, b));
    }
}

/// Bits are shown by a mark and as many hexadecimal digits as asked for, which spell them.
pub proof fn law_texts_of_bits(n: u128, width: usize, r: String)
    requires
        call_ensures(bits_text, (n, width), r),
        n < pow16(width as nat),
    ensures
        r@.len() == width + 2,
        r@[0] == '0',
        r@[1] == 'x',
        all_hex(r@.skip(2)),
        hex_spelled(r@.skip(2)) == n,
{
    reveal_strlit("0x");
    lemma_hex(n as nat, width as nat);
    assert(r@.skip(2) =~= hex(n as nat, width as nat));
}

/// A number of 128 bits is shown in five groups of 8, 4, 4, 4 and 12 hexadecimal digits with hyphens
/// between them; the digits spell it.
pub proof fn law_texts_of_identifiers(n: u128, r: String)
    requires
        call_ensures(uuid_text, (n,), r),
    ensures
        r@.len() == 36,
        r@[8] == '-' && r@[13] == '-' && r@[18] == '-' && r@[23] == '-',
        ({
            let spelt = r@.subrange(0, 8) + r@.subrange(9, 13) + r@.subrange(14, 18) + r@.subrange(
                19,
                23,
            ) + r@.subrange(24, 36);
            all_hex(spelt) && hex_spelled(spelt) == n
        }),
{
    reveal_strlit("-");
    let m = n as nat;
    assert(pow16(12) == 0x1_0000_0000_0000 && pow16(16) == 0x1_0000_0000_0000_0000 && pow16(20)
        == 0x1_0000_0000_0000_0000_0000 && pow16(24) == 0x1_0000_0000_0000_0000_0000_0000
        && pow16(32) == 0x1_0000_0000_0000_0000_0000_0000_0000_0000) by {
        reveal_with_fuel(pow16, 33);
    }
    lemma_hex(m, 32);
    lemma_hex_split(m, 20, 12);
    lemma_hex_split((m as int / pow16(12)) as nat, 16, 4);
    lemma_hex_split((m as int / pow16(16)) as nat, 12, 4);
    lemma_hex_split((m as int / pow16(20)) as nat, 8, 4);
    assert(pow16(4) == 0x1_0000) by {
        reveal_with_fuel(pow16, 5);
    }
    vstd::arithmetic::div_mod::lemma_div_denominator(m as int, pow16(12), pow16(4));
    vstd::arithmetic::div_mod::lemma_div_denominator(m as int, pow16(16), pow16(4));
    vstd::arithmetic::div_mod::lemma_div_denominator(m as int, pow16(20), pow16(4));
    let a = hex(m / 0x1_0000_0000_0000_0000_0000_0000, 8);
    let b = hex(m / 0x1_0000_0000_0000_0000_0000, 4);
    let c = hex(m / 0x1_0000_0000_0000_0000, 4);
    let d = hex(m / 0x1_0000_0000_0000, 4);
    let e = hex(m, 12);
    lemma_hex_len(m / 0x1_0000_0000_0000_0000_0000_0000, 8);
    lemma_hex_len(m / 0x1_0000_0000_0000_0000_0000, 4);
    lemma_hex_len(m / 0x1_0000_0000_0000_0000, 4);
    lemma_hex_len(m / 0x1_0000_0000_0000, 4);
    lemma_hex_len(m, 12);
    assert(r@.subrange(0, 8) =~= a);
    assert(r@.subrange(9, 13) =~= b);
    assert(r@.subrange(14, 18) =~= c);
    assert(r@.subrange(19, 23) =~= d);
    assert(r@.subrange(24, 36) =~= e);
    assert(hex(m, 32) == a + b + c + d + e);
}

/// How many digits there are.
proof fn lemma_hex_len(n: nat, width: nat)
    ensures
        hex(n, width).len() == width,
    decreases width,
{
    if width > 0 {
        lemma_hex_len(n / 16, (width - 1) as nat);
    }
}

/// A number that may be missing is shown as itself inside `Some`, or as `None`.
pub proof fn law_optional_texts(n: i64, one: String, said: String, none: String)
    requires
        call_ensures(decimal_text, (n,), one),
        call_ensures(optional_text, (Some(n),), said),
        call_ensures(optional_text, (None::<i64>,), none),
    ensures
        said@ == "Some("@ + one@ + ")"@,
        none@ == "None"@,
{
}

/// A list is shown in brackets: nothing inside for no part, the part for one, and with one more part a
/// comma, a space and the part in front of the closing bracket.
pub proof fn law_list_texts(parts: Vec<String>, r: String, longer: Vec<String>, s: String)
    requires
        call_ensures(list_text, (&parts,), r),
        call_ensures(list_text, (&longer,), s),
        longer@.len() == parts@.len() + 1,
        longer@.drop_last() == parts@,
    ensures
        parts@.len() == 0 ==> r@ == "[]"@ && s@ == "["@ + longer@[0]@ + "]"@,
        parts@.len() > 0 ==> s@ == r@.drop_last() + ", "@ + longer@.last()@ + "]"@,
{
    reveal_strlit("[");
    reveal_strlit("]");
    reveal_strlit("[]");
    let all = held(longer@);
    assert(all.drop_last() =~= held(parts@));
    if parts@.len() == 0 {
        assert(held(parts@) =~= Seq::empty());
        assert(r@ =~= "[]"@);
    } else {
        assert(all.last() == longer@.last()@);
        assert(r@.drop_last() =~= "["@ + joined(held(parts@)));
        assert(s@ =~= r@.drop_last() + ", "@ + longer@.last()@ + "]"@);
    }
}

} // verus!

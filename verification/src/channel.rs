//! Channel identifiers: Discord snowflakes, written as decimal digits.

use vstd::prelude::*;
use vstd::string::StringSliceAdditionalSpecFns;
use vstd::utf8::encode_utf8;

verus! {

/// The most digits a channel id can be written with: `u64::MAX` has 20.
pub const MAX_CHANNEL_ID_LEN: usize = 20;

/// The id of a channel, and so of the branch that tracks it.
#[derive(Clone, Copy, Debug, PartialEq, Eq, Hash, PartialOrd, Ord, Structural)]
pub struct ChannelId(pub u64);

/// Why a text was refused as a channel id.
#[derive(Clone, Copy, Debug, PartialEq, Eq, Structural)]
pub enum InvalidChannelId {
    /// The text is empty.
    Empty,
    /// The text has more than `MAX_CHANNEL_ID_LEN` bytes.
    TooLong,
    /// The text holds something other than ASCII digits, or its value does
    /// not fit in 64 bits.
    NotNumeric,
}

/// Whether a byte is an ASCII decimal digit.
pub open spec fn is_digit(b: u8) -> bool {
    48 <= b <= 57
}

/// Whether every byte is an ASCII decimal digit.
pub open spec fn all_digits(s: Seq<u8>) -> bool {
    forall|i: int| 0 <= i < s.len() ==> is_digit(#[trigger] s[i])
}

/// The value of a sequence of decimal digits, most significant first.
pub open spec fn digits_value(s: Seq<u8>) -> nat
    decreases s.len(),
{
    if s.len() == 0 {
        0
    } else {
        digits_value(s.drop_last()) * 10 + (s.last() - 48) as nat
    }
}

/// How a channel id is read from the bytes of its text.
pub open spec fn channel_id_of(bytes: Seq<u8>) -> Result<ChannelId, InvalidChannelId> {
    if bytes.len() == 0 {
        Err(InvalidChannelId::Empty)
    } else if bytes.len() > MAX_CHANNEL_ID_LEN {
        Err(InvalidChannelId::TooLong)
    } else if !all_digits(bytes) || digits_value(bytes) > u64::MAX {
        Err(InvalidChannelId::NotNumeric)
    } else {
        Ok(ChannelId(digits_value(bytes) as u64))
    }
}

/// The character of a decimal digit.
pub open spec fn digit_char(d: nat) -> char {
    ((d + 48) as u32) as char
}

/// The decimal writing of `n`, without leading zeros ("0" for zero).
pub open spec fn decimal(n: nat) -> Seq<char>
    decreases n,
{
    if n < 10 {
        seq![digit_char(n)]
    } else {
        decimal(n / 10).push(digit_char(n % 10))
    }
}

proof fn lemma_digits_value_prefix_grows(s: Seq<u8>, i: int)
    requires
        all_digits(s),
        0 <= i <= s.len(),
    ensures
        digits_value(s.take(i)) <= digits_value(s),
    decreases s.len() - i,
{
    if i < s.len() {
        lemma_digits_value_prefix_grows(s, i + 1);
        assert(s.take(i + 1).drop_last() =~= s.take(i));
        assert(is_digit(s[i]));
    } else {
        assert(s.take(i) =~= s);
    }
}

/// Ten to the power `k`.
pub open spec fn pow10(k: nat) -> nat
    decreases k,
{
    if k == 0 {
        1
    } else {
        10 * pow10((k - 1) as nat)
    }
}

proof fn lemma_decimal_is_digits(n: nat)
    ensures
        decimal(n).len() >= 1,
        forall|i: int|
            0 <= i < decimal(n).len() ==> 48 <= (#[trigger] decimal(n)[i]) as int <= 57,
    decreases n,
{
    if n >= 10 {
        lemma_decimal_is_digits(n / 10);
    }
}

proof fn lemma_decimal_len(n: nat, k: nat)
    requires
        k >= 1,
        n < pow10(k),
    ensures
        decimal(n).len() <= k,
    decreases n,
{
    if n >= 10 {
        let p = pow10((k - 1) as nat);
        assert(k >= 2) by {
            if k == 1 {
                reveal_with_fuel(pow10, 2);
            }
        }
        assert(n / 10 < p) by (nonlinear_arith)
            requires
                n < 10 * p,
        ;
        lemma_decimal_len(n / 10, (k - 1) as nat);
    }
}

proof fn lemma_decimal_bytes_value(n: nat)
    ensures
        all_digits(decimal(n).map_values(|c: char| c as u8)),
        digits_value(decimal(n).map_values(|c: char| c as u8)) == n,
        decimal(n).map_values(|c: char| c as u8).len() == decimal(n).len(),
    decreases n,
{
    let b = decimal(n).map_values(|c: char| c as u8);
    lemma_decimal_is_digits(n);
    assert forall|i: int| 0 <= i < b.len() implies is_digit(#[trigger] b[i]) by {
        assert(48 <= decimal(n)[i] as int <= 57);
    }
    if n >= 10 {
        lemma_decimal_bytes_value(n / 10);
        assert(b.drop_last() =~= decimal(n / 10).map_values(|c: char| c as u8));
        assert(b.last() == (n % 10 + 48) as u8);
        assert(digits_value(b) == digits_value(b.drop_last()) * 10 + (b.last() - 48) as nat);
        assert(digits_value(b) == (n / 10) * 10 + n % 10);
        assert(digits_value(b) == n);
    } else {
        assert(b.drop_last() =~= Seq::<u8>::empty());
        assert(b.last() == (n + 48) as u8);
        assert(digits_value(b) == digits_value(b.drop_last()) * 10 + (b.last() - 48) as nat);
        assert(digits_value(b.drop_last()) == 0);
        assert(digits_value(b) == n);
    }
}

/// Writing a channel id in decimal and reading the text back gives the same
/// id: `ChannelId::parse` inverts `ChannelId::to_string`.
pub proof fn lemma_channel_id_text_round_trip(id: ChannelId)
    ensures
        channel_id_of(encode_utf8(decimal(id.0 as nat))) == Ok::<ChannelId, InvalidChannelId>(id),
{
    let n = id.0 as nat;
    let chars = decimal(n);
    lemma_decimal_is_digits(n);
    assert(vstd::utf8::is_ascii_chars(chars)) by {
        assert forall|i: int| 0 <= i < chars.len() implies '\0' <= #[trigger] chars[i] <= '\u{7f}' by {
            assert(48 <= chars[i] as int <= 57);
        }
    }
    vstd::utf8::is_ascii_chars_encode_utf8(chars);
    lemma_decimal_bytes_value(n);
    let b = chars.map_values(|c: char| c as u8);
    assert(encode_utf8(chars) =~= b);
    assert(pow10(20) == 100_000_000_000_000_000_000) by {
        reveal_with_fuel(pow10, 21);
    }
    lemma_decimal_len(n, 20);
}

fn digit_str(d: u64) -> (r: &'static str)
    requires
        d < 10,
    ensures
        r@ == seq![digit_char(d as nat)],
{
    proof {
        reveal_strlit("0");
        reveal_strlit("1");
        reveal_strlit("2");
        reveal_strlit("3");
        reveal_strlit("4");
        reveal_strlit("5");
        reveal_strlit("6");
        reveal_strlit("7");
        reveal_strlit("8");
        reveal_strlit("9");
    }
    let r = if d == 0 {
        "0"
    } else if d == 1 {
        "1"
    } else if d == 2 {
        "2"
    } else if d == 3 {
        "3"
    } else if d == 4 {
        "4"
    } else if d == 5 {
        "5"
    } else if d == 6 {
        "6"
    } else if d == 7 {
        "7"
    } else if d == 8 {
        "8"
    } else {
        "9"
    };
    assert(r@ =~= seq![digit_char(d as nat)]);
    r
}

fn append_decimal(n: u64, out: &mut String)
    ensures
        final(out)@ == old(out)@ + decimal(n as nat),
    decreases n,
{
    if n >= 10 {
        append_decimal(n / 10, out);
    }
    out.append(digit_str(n % 10));
    assert(final(out)@ =~= old(out)@ + decimal(n as nat));
}

impl ChannelId {
    /// The channel id with value `id`.
    pub fn new(id: u64) -> (c: ChannelId)
        ensures
            c.0 == id,
    {
        ChannelId(id)
    }

    /// The numeric value of the id.
    pub fn as_u64(&self) -> (v: u64)
        ensures
            v == self.0,
    {
        self.0
    }

    /// Reads a channel id from its decimal text. The text must be 1 to
    /// `MAX_CHANNEL_ID_LEN` ASCII digits (no sign, no whitespace) whose value
    /// fits in a `u64`; the length is checked before any digit is read.
    pub fn parse(s: &str) -> (r: Result<ChannelId, InvalidChannelId>)
        ensures
            r == channel_id_of(s.spec_bytes()),
    {
        let bytes = s.as_bytes();
        let len = bytes.len();
        if len == 0 {
            return Err(InvalidChannelId::Empty);
        }
        if len > MAX_CHANNEL_ID_LEN {
            return Err(InvalidChannelId::TooLong);
        }
        let ghost b = bytes@;
        let mut value: u64 = 0;
        let mut i: usize = 0;
        while i < len
            invariant
                len == b.len(),
                b == bytes@,
                b == s.spec_bytes(),
                0 < len <= MAX_CHANNEL_ID_LEN,
                0 <= i <= len,
                all_digits(b.take(i as int)),
                value == digits_value(b.take(i as int)),
            decreases len - i,
        {
            let c = bytes[i];
            if c < 48 || c > 57 {
                assert(!is_digit(b[i as int]));
                return Err(InvalidChannelId::NotNumeric);
            }
            assert(b.take(i + 1).drop_last() =~= b.take(i as int));
            let d = (c - 48) as u64;
            let next = match value.checked_mul(10) {
                Some(v) => v.checked_add(d),
                None => None,
            };
            match next {
                Some(v) => {
                    value = v;
                },
                None => {
                    proof {
                        assert(digits_value(b.take(i + 1)) == value * 10 + d);
                        if all_digits(b) {
                            lemma_digits_value_prefix_grows(b, i + 1);
                        }
                    }
                    return Err(InvalidChannelId::NotNumeric);
                },
            }
            i = i + 1;
        }
        assert(b.take(len as int) =~= b);
        Ok(ChannelId(value))
    }

    /// The id written in decimal, as `parse` reads it back.
    pub fn to_string(&self) -> (s: String)
        ensures
            s@ == decimal(self.0 as nat),
    {
        let mut s = String::new();
        append_decimal(self.0, &mut s);
        assert(s@ =~= decimal(self.0 as nat));
        s
    }
}

} // verus!

//! Text of messages.

use vstd::prelude::*;
use vstd::string::*;
use vstd::utf8::*;

verus! {

/// The digits of a number in base ten.
pub open spec fn decimal(n: nat) -> Seq<char>
    decreases n,
{
    if n < 10 {
        seq![decimal_digit(n)]
    } else {
        decimal(n / 10).push(decimal_digit(n % 10))
    }
}

/// The character of a digit.
pub open spec fn decimal_digit(d: nat) -> char {
    (48 + d) as char
}

/// The text of a digit.
fn digit_text(d: u64) -> (c: &'static str)
    requires
        d < 10,
    ensures
        c@ == seq![decimal_digit(d as nat)],
{
    proof {
        reveal_strlit("0");
        reveal_strlit("1");
        reveal_strlit("2");
        reveal_strlit("3");
        reveal_strlit("4");
        reveal_strlit("5");
        reveal_strlit("6");
        reveal_strlit("7");
        reveal_strlit("8");
        reveal_strlit("9");
    }
    let c: &'static str = match d {
        0 => "0",
        1 => "1",
        2 => "2",
        3 => "3",
        4 => "4",
        5 => "5",
        6 => "6",
        7 => "7",
        8 => "8",
        _ => "9",
    };
    proof {
        assert(c@ =~= seq![decimal_digit(d as nat)]);
    }
    c
}

/// Append a number in base ten.
pub fn push_decimal(out: &mut String, n: u64)
    ensures
        final(out)@ == old(out)@ + decimal(n as nat),
    decreases n,
{
    if n < 10 {
        out.append(digit_text(n));
        proof {
            assert(out@ =~= old(out)@ + decimal(n as nat));
        }
    } else {
        push_decimal(out, n / 10);
        out.append(digit_text(n % 10));
        proof {
            assert(out@ =~= old(out)@ + decimal(n as nat));
        }
    }
}

/// The text of a list of bytes: numbers in square brackets, with commas between them.
pub open spec fn byte_list(bytes: Seq<u8>) -> Seq<char> {
    "["@ + byte_items(bytes, bytes.len()) + "]"@
}

/// The first `n` bytes as numbers, with commas between them.
pub open spec fn byte_items(bytes: Seq<u8>, n: nat) -> Seq<char>
    decreases n,
{
    if n == 0 {
        Seq::empty()
    } else if n == 1 {
        decimal(bytes[0] as nat)
    } else {
        byte_items(bytes, (n - 1) as nat) + ", "@ + decimal(bytes[n - 1] as nat)
    }
}

/// The text of a list of bytes.
pub fn show_bytes(bytes: &[u8]) -> (r: String)
    ensures
        r@ == byte_list(bytes@),
{
    let mut out: String = "[".to_owned();
    let mut i: usize = 0;
    proof {
        assert(out@ =~= "["@ + byte_items(bytes@, 0));
    }
    while i < bytes.len()
        invariant
            i <= bytes@.len(),
            out@ == "["@ + byte_items(bytes@, i as nat),
        decreases bytes@.len() - i,
    {
        if i > 0 {
            out.append(", ");
        }
        push_decimal(&mut out, bytes[i] as u64);
        i = i + 1;
        proof {
            assert(out@ =~= "["@ + byte_items(bytes@, i as nat));
        }
    }
    out.append("]");
    out
}

/// The text that the `{:?}` form of a string slice gives: the text in quotation marks,
/// with escapes.
pub uninterp spec fn debug_text(text: Seq<char>) -> Seq<char>;

/// `std::fmt::Debug` of `str`, through `format!("{:?}")`: the quoted and escaped text is
/// determined by the characters alone. Which characters are escaped is left unsaid.
#[verifier::external_body]
fn quoted(text: &str) -> (r: String)
    ensures
        r@ == debug_text(text@),
{
    format!("{:?}", text)
}

/// `std::str::from_utf8`: the bytes as text exactly if they are valid UTF-8.
#[verifier::external_body]
fn utf8_text(bytes: &[u8]) -> (r: Option<&str>)
    ensures
        r is Some <==> valid_utf8(bytes@),
        r matches Some(text) ==> text@ == decode_utf8(bytes@),
{
    std::str::from_utf8(bytes).ok()
}

/// The quoted text of a chunk ID, or of four question marks where it is no text.
pub open spec fn id_text(bytes: Seq<u8>) -> Seq<char> {
    debug_text(
        if valid_utf8(bytes) {
            decode_utf8(bytes)
        } else {
            "????"@
        },
    )
}

/// The quoted text of a chunk ID.
pub fn show_id(bytes: &[u8]) -> (r: String)
    ensures
        r@ == id_text(bytes@),
{
    match utf8_text(bytes) {
        Some(text) => quoted(text),
        None => quoted("????"),
    }
}

} // verus!

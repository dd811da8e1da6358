use vstd::prelude::*;

verus! {

/// The four characters the lexer treats as whitespace.
pub open spec fn is_ws_char(c: char) -> bool {
    c == ' ' || c == '\t' || c == '\n' || c == '\r'
}

/// Decimal digits begin a number token.
pub open spec fn is_digit_char(c: char) -> bool {
    48 <= (c as u32) && (c as u32) <= 57
}

/// Digits and the dot continue a number token.
pub open spec fn is_number_char(c: char) -> bool {
    is_digit_char(c) || c == '.'
}

/// The characters of the keyword `true`.
pub open spec fn true_chars() -> Seq<char> {
    seq!['t', 'r', 'u', 'e']
}

/// The characters of the keyword `false`.
pub open spec fn false_chars() -> Seq<char> {
    seq!['f', 'a', 'l', 's', 'e']
}

/// The characters of the keyword `null`.
pub open spec fn null_chars() -> Seq<char> {
    seq!['n', 'u', 'l', 'l']
}

/// Relies on String::push: appends exactly one character to the string.
#[verifier::external_body]
pub fn push_char(s: &mut String, c: char)
    ensures
        final(s)@ == old(s)@.push(c),
{
    s.push(c);
}

} // verus!

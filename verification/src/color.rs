use vstd::prelude::*;

verus! {

/// The ASCII digit for `d` (0 to 9).
pub open spec fn digit_char(d: nat) -> char {
    (48 + d) as char
}

/// The decimal notation of `n`, without leading zeros.
pub open spec fn decimal(n: nat) -> Seq<char>
    decreases n,
{
    if n < 10 {
        seq![digit_char(n)]
    } else {
        decimal(n / 10).push(digit_char(n % 10))
    }
}

/// The red, green and blue components of a `0xRRGGBB` colour.
pub open spec fn red(hx: u64) -> nat {
    ((hx / 0x1_0000) % 0x100) as nat
}

pub open spec fn green(hx: u64) -> nat {
    ((hx / 0x100) % 0x100) as nat
}

pub open spec fn blue(hx: u64) -> nat {
    (hx % 0x100) as nat
}

/// `ESC [ <selector> ; 2 ; r ; g ; b m`: the 24-bit colour escape, where
/// `selector` is "38" for the foreground and "48" for the background.
pub open spec fn rgb_escape(selector: Seq<char>, hx: u64) -> Seq<char> {
    seq!['\x1b', '['] + selector + seq![';', '2', ';'] + decimal(red(hx)) + seq![';'] + decimal(
        green(hx),
    ) + seq![';'] + decimal(blue(hx)) + seq!['m']
}

pub open spec fn fg_escape(hx: u64) -> Seq<char> {
    rgb_escape(seq!['3', '8'], hx)
}

pub open spec fn bg_escape(hx: u64) -> Seq<char> {
    rgb_escape(seq!['4', '8'], hx)
}

fn digit(d: u8) -> (c: char)
    requires
        d < 10,
    ensures
        c == digit_char(d as nat),
{
    (48u8 + d) as char
}

/// Appends the decimal notation of `n`.
fn push_decimal(out: &mut Vec<char>, n: u8)
    ensures
        final(out)@ == old(out)@ + decimal(n as nat),
{
    if n >= 100 {
        out.push(digit(n / 100));
        out.push(digit((n / 10) % 10));
        out.push(digit(n % 10));
        assert(decimal(n as nat) == seq![digit_char(n as nat / 100), digit_char((n as nat / 10) % 10), digit_char(n as nat % 10)]) by {
            assert(decimal((n / 100) as nat) == seq![digit_char(n as nat / 100)]);
            assert(decimal((n / 10) as nat) == seq![digit_char(n as nat / 100), digit_char((n as nat / 10) % 10)]);
        }
    } else if n >= 10 {
        out.push(digit(n / 10));
        out.push(digit(n % 10));
        assert(decimal((n / 10) as nat) == seq![digit_char(n as nat / 10)]);
    } else {
        out.push(digit(n));
    }
    assert(final(out)@ =~= old(out)@ + decimal(n as nat));
}

/// Appends the decimal notation of `n`.
pub fn push_number(out: &mut Vec<char>, n: u64)
    ensures
        final(out)@ == old(out)@ + decimal(n as nat),
    decreases n,
{
    if n >= 10 {
        push_number(out, n / 10);
    }
    out.push(digit((n % 10) as u8));
    assert(final(out)@ =~= old(out)@ + decimal(n as nat));
}

fn rgb(selector: char, hx: u64) -> (r: Vec<char>)
    ensures
        r@ == rgb_escape(seq![selector, '8'], hx),
{
    let mut out: Vec<char> = Vec::new();
    out.push('\x1b');
    out.push('[');
    out.push(selector);
    out.push('8');
    out.push(';');
    out.push('2');
    out.push(';');
    push_decimal(&mut out, ((hx >> 16) & 0xff) as u8);
    out.push(';');
    push_decimal(&mut out, ((hx >> 8) & 0xff) as u8);
    out.push(';');
    push_decimal(&mut out, (hx & 0xff) as u8);
    out.push('m');
    assert((hx >> 16) & 0xff == (hx / 0x1_0000) % 0x100) by (bit_vector);
    assert((hx >> 8) & 0xff == (hx / 0x100) % 0x100) by (bit_vector);
    assert(hx & 0xff == hx % 0x100) by (bit_vector);
    assert(out@ =~= rgb_escape(seq![selector, '8'], hx));
    out
}

/// The escape that sets the foreground to the 24-bit colour `0xRRGGBB`.
pub fn hex2ascii(hx: u64) -> (r: Vec<char>)
    ensures
        r@ == fg_escape(hx),
{
    rgb('3', hx)
}

/// The escape that sets the background to the 24-bit colour `0xRRGGBB`.
pub fn hex2ascii_bg(hx: u64) -> (r: Vec<char>)
    ensures
        r@ == bg_escape(hx),
{
    rgb('4', hx)
}

} // verus!

//! Rendering numbers and bytes as text: decimal, lowercase hex.

use vstd::prelude::*;

verus! {

/// The lowercase hex digit of `d` (which is below 16); below 10 also the
/// decimal digit.
pub open spec fn hex_digit(d: nat) -> char {
    if d < 10 {
        (48 + d) as char
    } else {
        (87 + d) as char
    }
}

/// `v` in decimal, without leading zeros.
pub open spec fn decimal(v: nat) -> Seq<char>
    decreases v,
{
    if v < 10 {
        seq![hex_digit(v)]
    } else {
        decimal(v / 10).push(hex_digit(v % 10))
    }
}

/// `v` in lowercase hex, without leading zeros.
pub open spec fn hex_of(v: nat) -> Seq<char>
    decreases v,
{
    if v < 16 {
        seq![hex_digit(v)]
    } else {
        hex_of(v / 16).push(hex_digit(v % 16))
    }
}

/// `s` with zeros in front up to `width` characters.
pub open spec fn zero_padded(s: Seq<char>, width: nat) -> Seq<char> {
    if s.len() < width {
        Seq::new((width - s.len()) as nat, |i: int| '0') + s
    } else {
        s
    }
}

/// Each byte of `b` as two lowercase hex digits.
pub open spec fn hex_bytes(b: Seq<u8>) -> Seq<char>
    decreases b.len(),
{
    if b.len() == 0 {
        Seq::empty()
    } else {
        seq![hex_digit((b[0] / 16) as nat), hex_digit((b[0] % 16) as nat)] + hex_bytes(
            b.drop_first(),
        )
    }
}

/// Appends `c` to `s`: `String::push` of std.
#[verifier::external_body]
pub(crate) fn push_char(s: &mut String, c: char)
    ensures
        final(s)@ == old(s)@.push(c),
{
    s.push(c)
}

/// `hex::encode`: each byte as two lowercase hex digits, high nibble first.
#[verifier::external_body]
pub(crate) fn hex_encode(bytes: &[u8]) -> (s: String)
    ensures
        s@ == hex_bytes(bytes@),
{
    hex::encode(bytes)
}

fn digit(d: u8) -> (c: char)
    requires
        d < 16,
    ensures
        c == hex_digit(d as nat),
{
    if d < 10 {
        (48 + d) as char
    } else {
        (87 + d) as char
    }
}

/// Appends `v` in decimal.
pub fn push_decimal(out: &mut String, v: u128)
    ensures
        final(out)@ == old(out)@ + decimal(v as nat),
    decreases v,
{
    if v < 10 {
        push_char(out, digit(v as u8));
        assert(decimal(v as nat) =~= seq![hex_digit(v as nat)]);
    } else {
        let ghost start = out@;
        push_decimal(out, v / 10);
        push_char(out, digit((v % 10) as u8));
        assert(out@ =~= start + decimal(v as nat));
    }
}

/// Appends `v` in lowercase hex.
pub fn push_hex(out: &mut String, v: u64)
    ensures
        final(out)@ == old(out)@ + hex_of(v as nat),
    decreases v,
{
    if v < 16 {
        push_char(out, digit(v as u8));
        assert(hex_of(v as nat) =~= seq![hex_digit(v as nat)]);
    } else {
        let ghost start = out@;
        push_hex(out, v / 16);
        push_char(out, digit((v % 16) as u8));
        assert(out@ =~= start + hex_of(v as nat));
    }
}

proof fn lemma_hex_of_len(v: nat)
    ensures
        v < 16 ==> hex_of(v).len() == 1,
        16 <= v < 256 ==> hex_of(v).len() == 2,
        256 <= v < 4096 ==> hex_of(v).len() == 3,
        4096 <= v ==> hex_of(v).len() >= 4,
    decreases v,
{
    if v >= 16 {
        lemma_hex_of_len(v / 16);
    }
}

/// Appends `v` in lowercase hex with zeros in front up to four digits: the
/// `{:04x}` format.
pub fn push_hex_padded4(out: &mut String, v: u64)
    ensures
        final(out)@ == old(out)@ + zero_padded(hex_of(v as nat), 4),
{
    proof {
        lemma_hex_of_len(v as nat);
    }
    let ghost start = out@;
    let zeros: usize = if v < 16 {
        3
    } else if v < 256 {
        2
    } else if v < 4096 {
        1
    } else {
        0
    };
    let mut i: usize = 0;
    while i < zeros
        invariant
            i <= zeros,
            out@ == start + Seq::new(i as nat, |k: int| '0'),
        decreases zeros - i,
    {
        push_char(out, '0');
        assert(Seq::new((i + 1) as nat, |k: int| '0') =~= Seq::new(i as nat, |k: int| '0').push(
            '0',
        ));
        i = i + 1;
    }
    push_hex(out, v);
    if zeros == 0 {
        assert(Seq::new(0, |k: int| '0') =~= Seq::<char>::empty());
    }
    assert(out@ =~= start + zero_padded(hex_of(v as nat), 4));
}

} // verus!

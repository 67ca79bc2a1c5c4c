//! Hex and ASCII rendering of a block, for debugging.
//!
//! Each line covers 16 bytes: the offset as four hex digits, `": "`, the
//! bytes as two hex digits and a space each, a space, then the bytes as text
//! (printable ASCII as itself, anything else as `.`), and a newline. A block
//! is a whole number of such lines.
use vstd::prelude::*;

verus! {

/// Bytes shown per line.
pub const LINE_BYTES: usize = 16;

/// The lowercase hex digit for `n < 16`, as an ASCII byte.
pub open spec fn hex_digit(n: nat) -> u8 {
    if n < 10 {
        (48 + n) as u8
    } else {
        (87 + n) as u8
    }
}

/// Two hex digits of `b` and a space.
pub open spec fn hex_cell(b: u8) -> Seq<u8> {
    seq![hex_digit(b as nat / 16), hex_digit(b as nat % 16), 32u8]
}

/// The hex column for the bytes `s`.
pub open spec fn hex_column(s: Seq<u8>) -> Seq<u8>
    decreases s.len(),
{
    if s.len() == 0 {
        Seq::empty()
    } else {
        hex_column(s.drop_last()) + hex_cell(s.last())
    }
}

/// How a byte shows in the text column: printable ASCII and space as itself, anything else as `.`.
pub open spec fn shown(b: u8) -> u8 {
    if 32 <= b <= 126 {
        b
    } else {
        46u8
    }
}

/// Four hex digits of `n`.
pub open spec fn hex4(n: nat) -> Seq<u8> {
    seq![hex_digit(n / 4096 % 16), hex_digit(n / 256 % 16), hex_digit(n / 16 % 16), hex_digit(n % 16)]
}

/// One line of the dump, for the bytes `chunk` found at `offset`.
pub open spec fn dump_line(offset: nat, chunk: Seq<u8>) -> Seq<u8> {
    hex4(offset) + seq![58u8, 32u8] + hex_column(chunk) + seq![32u8] + chunk.map_values(
        |b: u8| shown(b),
    ) + seq![10u8]
}

/// The first `lines` lines of the dump of `b`.
pub open spec fn dump_lines(b: Seq<u8>, lines: nat) -> Seq<u8>
    decreases lines,
{
    if lines == 0 {
        Seq::empty()
    } else {
        let start = (lines - 1) * LINE_BYTES;
        dump_lines(b, (lines - 1) as nat) + dump_line(
            start as nat,
            b.subrange(start as int, start + LINE_BYTES),
        )
    }
}

/// The dump of `b`, as text.
pub open spec fn dump_text(b: Seq<u8>) -> Seq<char> {
    dump_lines(b, b.len() / LINE_BYTES as nat).map_values(|c: u8| c as char)
}

/// Whether every byte of `s` is ASCII.
pub open spec fn all_ascii(s: Seq<u8>) -> bool {
    forall|k: int| 0 <= k < s.len() ==> s[k] < 128
}

/// The lowercase hex digit for `n`.
fn hex_digit_of(n: u8) -> (r: u8)
    requires
        n < 16,
    ensures
        r == hex_digit(n as nat),
        r < 128,
{
    if n < 10 {
        48 + n
    } else {
        87 + n
    }
}

/// Appends one ASCII byte to `out`.
fn push_byte(out: &mut Vec<u8>, c: u8)
    requires
        all_ascii(old(out)@),
        c < 128,
    ensures
        final(out)@ == old(out)@.push(c),
        all_ascii(final(out)@),
{
    out.push(c);
}

/// Appends the dump line of `chunk` at `offset` to `out`.
fn push_line(out: &mut Vec<u8>, offset: usize, chunk: &[u8])
    requires
        all_ascii(old(out)@),
        offset < 65536,
    ensures
        final(out)@ == old(out)@ + dump_line(offset as nat, chunk@),
        all_ascii(final(out)@),
{
    let ghost start = out@;
    push_byte(out, hex_digit_of((offset / 4096 % 16) as u8));
    push_byte(out, hex_digit_of((offset / 256 % 16) as u8));
    push_byte(out, hex_digit_of((offset / 16 % 16) as u8));
    push_byte(out, hex_digit_of((offset % 16) as u8));
    push_byte(out, 58);
    push_byte(out, 32);
    let ghost head = out@;
    assert(head =~= start + hex4(offset as nat) + seq![58u8, 32u8]);
    let mut i: usize = 0;
    while i < chunk.len()
        invariant
            i <= chunk@.len(),
            all_ascii(out@),
            out@ == head + hex_column(chunk@.take(i as int)),
        decreases chunk@.len() - i,
    {
        let b = chunk[i];
        push_byte(out, hex_digit_of(b / 16));
        push_byte(out, hex_digit_of(b % 16));
        push_byte(out, 32);
        assert(chunk@.take(i + 1).drop_last() =~= chunk@.take(i as int));
        assert(out@ =~= head + hex_column(chunk@.take(i + 1)));
        i = i + 1;
    }
    assert(chunk@.take(chunk@.len() as int) =~= chunk@);
    push_byte(out, 32);
    let ghost mid = out@;
    let mut j: usize = 0;
    while j < chunk.len()
        invariant
            j <= chunk@.len(),
            all_ascii(out@),
            out@ == mid + chunk@.take(j as int).map_values(|b: u8| shown(b)),
        decreases chunk@.len() - j,
    {
        let b = chunk[j];
        let c = if 32 <= b && b <= 126 {
            b
        } else {
            46
        };
        push_byte(out, c);
        assert(out@ =~= mid + chunk@.take(j + 1).map_values(|b: u8| shown(b)));
        j = j + 1;
    }
    push_byte(out, 10);
    assert(out@ =~= start + dump_line(offset as nat, chunk@));
}

/// Relies on `String::from_utf8`: ASCII bytes are valid UTF-8, and each
/// stands for the char of the same code.
#[verifier::external_body]
fn ascii_to_string(bytes: Vec<u8>) -> (r: String)
    requires
        all_ascii(bytes@),
    ensures
        r@ == bytes@.map_values(|c: u8| c as char),
{
    String::from_utf8(bytes).unwrap_or_default()
}

/// Renders the bytes `b` as hex and ASCII, 16 bytes per line.
pub fn dump(b: &[u8]) -> (r: String)
    requires
        b@.len() % (LINE_BYTES as nat) == 0,
        b@.len() <= 65536,
    ensures
        r@ == dump_text(b@),
{
    let mut out: Vec<u8> = Vec::new();
    let lines = b.len() / LINE_BYTES;
    let mut line: usize = 0;
    while line < lines
        invariant
            lines == b@.len() / LINE_BYTES as nat,
            b@.len() % (LINE_BYTES as nat) == 0,
            b@.len() <= 65536,
            line <= lines,
            all_ascii(out@),
            out@ == dump_lines(b@, line as nat),
        decreases lines - line,
    {
        let start = line * LINE_BYTES;
        let chunk = vstd::slice::slice_subrange(b, start, start + LINE_BYTES);
        push_line(&mut out, start, chunk);
        line = line + 1;
    }
    ascii_to_string(out)
}

} // verus!

//! The control sequences that are sent to the terminal, and the settings that
//! are asked of it.
use crate::text;
use vstd::prelude::*;
use vstd::utf8::*;

verus! {

/// Decimal digits of a number, in ASCII.
pub open spec fn decimal(n: nat) -> Seq<u8>
    decreases n,
{
    if n < 10 {
        seq![(48 + n) as u8]
    } else {
        decimal(n / 10).push((48 + n % 10) as u8)
    }
}

/// The sequence that moves the cursor to a row and a column, counted from 0.
pub open spec fn cursor_to(row: nat, col: nat) -> Seq<u8> {
    encode_utf8("\x1b["@) + decimal(row + 1) + encode_utf8(";"@) + decimal(col + 1) + encode_utf8(
        "H"@,
    )
}

/// The sequence that clears from the cursor to the end of the line.
pub open spec fn clear_to_end() -> Seq<u8> {
    encode_utf8("\x1b[K"@)
}

/// Append the decimal digits of `n`.
pub fn push_decimal(buf: &mut Vec<u8>, n: u32)
    ensures
        final(buf)@ == old(buf)@ + decimal(n as nat),
    decreases n,
{
    if n >= 10 {
        push_decimal(buf, n / 10);
    }
    let digit: u8 = (n % 10) as u8;
    buf.push(48 + digit);
    assert(buf@ =~= old(buf)@ + decimal(n as nat));
}

/// Append the sequence that switches to the alternate screen.
pub fn enter_alt_screen(buf: &mut Vec<u8>)
    ensures
        final(buf)@ == old(buf)@ + encode_utf8("\x1b[?1049h"@),
{
    text::push_text(buf, "\x1b[?1049h");
}

/// Append the sequence that switches back from the alternate screen.
pub fn leave_alt_screen(buf: &mut Vec<u8>)
    ensures
        final(buf)@ == old(buf)@ + encode_utf8("\x1b[?1049l"@),
{
    text::push_text(buf, "\x1b[?1049l");
}

/// Append the sequence that hides the cursor.
pub fn hide_cursor(buf: &mut Vec<u8>)
    ensures
        final(buf)@ == old(buf)@ + encode_utf8("\x1b[?25l"@),
{
    text::push_text(buf, "\x1b[?25l");
}

/// Append the sequence that shows the cursor.
pub fn show_cursor(buf: &mut Vec<u8>)
    ensures
        final(buf)@ == old(buf)@ + encode_utf8("\x1b[?25h"@),
{
    text::push_text(buf, "\x1b[?25h");
}

/// Append the sequence that moves the cursor to a row and a column, counted from 0.
pub fn move_cursor(buf: &mut Vec<u8>, row: u16, col: u16)
    requires
        row < u16::MAX,
        col < u16::MAX,
    ensures
        final(buf)@ == old(buf)@ + cursor_to(row as nat, col as nat),
{
    text::push_text(buf, "\x1b[");
    push_decimal(buf, row as u32 + 1);
    text::push_text(buf, ";");
    push_decimal(buf, col as u32 + 1);
    text::push_text(buf, "H");
    assert(buf@ =~= old(buf)@ + cursor_to(row as nat, col as nat));
}

/// Append the sequence that clears from the cursor to the end of the line.
pub fn clear_line(buf: &mut Vec<u8>)
    ensures
        final(buf)@ == old(buf)@ + clear_to_end(),
{
    text::push_text(buf, "\x1b[K");
}

/// The columns and rows to draw on: what the terminal reports as
/// `(rows, columns)`, or 80 by 24 where it reports nothing usable.
pub fn get_terminal_size(reported: Option<(u16, u16)>) -> (r: (u16, u16))
    ensures
        r == match reported {
            Some((rows, cols)) if rows > 0 && cols > 0 => (cols, rows),
            _ => (80u16, 24u16),
        },
        r.0 > 0,
        r.1 > 0,
{
    match reported {
        Some((rows, cols)) => {
            if rows > 0 && cols > 0 {
                (cols, rows)
            } else {
                (80, 24)
            }
        },
        None => (80, 24),
    }
}

/// Settings of a terminal line.
#[derive(Clone, Copy)]
pub struct Termios {
    pub c_iflag: u64,
    pub c_oflag: u64,
    pub c_cflag: u64,
    pub c_lflag: u64,
    pub c_cc: [u8; 20],
    pub c_ispeed: u64,
    pub c_ospeed: u64,
}

/// Input flags that raw mode switches off: BRKINT, ICRNL, INPCK, ISTRIP and IXON.
pub const RAW_IFLAG_OFF: u64 = 0x332;

/// Output flag that raw mode switches off: OPOST.
pub const RAW_OFLAG_OFF: u64 = 0x01;

/// Control flags that raw mode switches on: CS8.
pub const RAW_CFLAG_ON: u64 = 0x300;

/// Local flags that raw mode switches off: ECHO, ICANON, IEXTEN and ISIG.
pub const RAW_LFLAG_OFF: u64 = 0x588;

/// Index of the minimum number of bytes of a read.
pub const VMIN: usize = 16;

/// Index of the time that a read waits for more.
pub const VTIME: usize = 17;

impl Termios {
    /// The settings of raw mode: bytes come one at a time and as they are typed,
    /// and nothing is added to what is written.
    pub fn raw(self) -> (r: Termios)
        ensures
            r.c_iflag == self.c_iflag & !RAW_IFLAG_OFF,
            r.c_oflag == self.c_oflag & !RAW_OFLAG_OFF,
            r.c_cflag == self.c_cflag | RAW_CFLAG_ON,
            r.c_lflag == self.c_lflag & !RAW_LFLAG_OFF,
            r.c_cc@ == self.c_cc@.update(VMIN as int, 1u8).update(VTIME as int, 0u8),
            r.c_ispeed == self.c_ispeed,
            r.c_ospeed == self.c_ospeed,
    {
        let mut cc: [u8; 20] = self.c_cc;
        cc[VMIN] = 1;
        cc[VTIME] = 0;
        Termios {
            c_iflag: self.c_iflag & !RAW_IFLAG_OFF,
            c_oflag: self.c_oflag & !RAW_OFLAG_OFF,
            c_cflag: self.c_cflag | RAW_CFLAG_ON,
            c_lflag: self.c_lflag & !RAW_LFLAG_OFF,
            c_cc: cc,
            c_ispeed: self.c_ispeed,
            c_ospeed: self.c_ospeed,
        }
    }
}

/// The number that decimal digits stand for.
pub open spec fn number_of(digits: Seq<u8>) -> nat
    decreases digits.len(),
{
    if digits.len() == 0 {
        0
    } else {
        number_of(digits.drop_last()) * 10 + (digits.last() - 48) as nat
    }
}

/// Decimal digits stand for the number that they were made from, and there are no
/// more of them than it takes.
pub proof fn law_decimal(n: nat)
    ensures
        number_of(decimal(n)) == n,
        forall|i: int| 0 <= i < decimal(n).len() ==> 48 <= #[trigger] decimal(n)[i] <= 57,
        decimal(n).len() > 1 ==> decimal(n)[0] != 48,
        decimal(n).len() >= 1,
        n >= 10 ==> decimal(n).len() > 1,
    decreases n,
{
    if n < 10 {
        let d = decimal(n);
        assert(d.drop_last() =~= Seq::<u8>::empty());
        assert(number_of(d.drop_last()) == 0);
    } else {
        law_decimal(n / 10);
        let d = decimal(n);
        assert(d.drop_last() =~= decimal(n / 10));
        if n / 10 < 10 {
            assert(decimal(n / 10)[0] == 48 + n / 10);
        }
    }
}

/// The cursor goes to a place by its row and its column, counted from 1.
pub proof fn law_cursor_to(row: nat, col: nat)
    ensures
        cursor_to(row, col) == encode_utf8("\x1b["@) + decimal(row + 1) + encode_utf8(";"@)
            + decimal(col + 1) + encode_utf8("H"@),
        clear_to_end() == encode_utf8("\x1b[K"@),
{
}

/// In raw mode, keys come at once and as they are: there are no lines, no echo, no
/// signals, no flow control and no changes to what is read or written. Settings that
/// have nothing to do with it stay.
pub proof fn law_raw_flags(i: u64, o: u64, c: u64, l: u64)
    ensures
        ({
            let (iflag, oflag) = (i & !RAW_IFLAG_OFF, o & !RAW_OFLAG_OFF);
            let (cflag, lflag) = (c | RAW_CFLAG_ON, l & !RAW_LFLAG_OFF);
            &&& iflag & 0x2 == 0 && iflag & 0x100 == 0 && iflag & 0x10 == 0
            &&& iflag & 0x20 == 0 && iflag & 0x200 == 0
            &&& oflag & 0x1 == 0
            &&& cflag & 0x300 == 0x300
            &&& lflag & 0x8 == 0 && lflag & 0x100 == 0 && lflag & 0x400 == 0 && lflag & 0x80 == 0
            &&& iflag | (i & 0x332) == i
            &&& oflag | (o & 0x1) == o
            &&& cflag == c | 0x300
            &&& lflag | (l & 0x588) == l
        }),
        VMIN == 16,
        VTIME == 17,
{
    assert({
        &&& (i & !0x332u64) & 0x2 == 0 && (i & !0x332u64) & 0x100 == 0
        &&& (i & !0x332u64) & 0x10 == 0 && (i & !0x332u64) & 0x20 == 0
        &&& (i & !0x332u64) & 0x200 == 0
        &&& (i & !0x332u64) | (i & 0x332) == i
    }) by (bit_vector);
    assert((o & !0x1u64) & 0x1 == 0 && (o & !0x1u64) | (o & 0x1) == o) by (bit_vector);
    assert((c | 0x300u64) & 0x300 == 0x300) by (bit_vector);
    assert({
        &&& (l & !0x588u64) & 0x8 == 0 && (l & !0x588u64) & 0x100 == 0
        &&& (l & !0x588u64) & 0x400 == 0 && (l & !0x588u64) & 0x80 == 0
        &&& (l & !0x588u64) | (l & 0x588) == l
    }) by (bit_vector);
}

} // verus!

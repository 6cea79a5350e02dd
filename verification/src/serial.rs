//! The serial port.
use vstd::prelude::*;

verus! {

/// First port of the serial line.
pub const COM1: u16 = 0x3F8;

/// A value to be written to a port.
#[derive(Debug, Clone, Copy, PartialEq, Eq, Structural)]
pub struct PortWrite {
    /// The port.
    pub port: u16,
    /// The value.
    pub value: u8,
}

/// What to write to the ports, in this order, to set the line up: no
/// interrupts, 38400 baud, 8 bits without parity, and the FIFO on.
pub fn init() -> (writes: [PortWrite; 7])
    ensures
        writes@ == seq![
            PortWrite { port: 0x3F9, value: 0x00 },
            PortWrite { port: 0x3FB, value: 0x80 },
            PortWrite { port: 0x3F8, value: 0x03 },
            PortWrite { port: 0x3F9, value: 0x00 },
            PortWrite { port: 0x3FB, value: 0x03 },
            PortWrite { port: 0x3FA, value: 0xC7 },
            PortWrite { port: 0x3FC, value: 0x0B },
        ],
{
    let writes = [
        PortWrite { port: COM1 + 1, value: 0x00 },
        PortWrite { port: COM1 + 3, value: 0x80 },
        PortWrite { port: COM1, value: 0x03 },
        PortWrite { port: COM1 + 1, value: 0x00 },
        PortWrite { port: COM1 + 3, value: 0x03 },
        PortWrite { port: COM1 + 2, value: 0xC7 },
        PortWrite { port: COM1 + 4, value: 0x0B },
    ];
    assert(writes@ =~= seq![
        PortWrite { port: 0x3F9, value: 0x00 },
        PortWrite { port: 0x3FB, value: 0x80 },
        PortWrite { port: 0x3F8, value: 0x03 },
        PortWrite { port: 0x3F9, value: 0x00 },
        PortWrite { port: 0x3FB, value: 0x03 },
        PortWrite { port: 0x3FA, value: 0xC7 },
        PortWrite { port: 0x3FC, value: 0x0B },
    ]);
    writes
}

/// Whether the line can take a byte, from the value of the status port
/// (`COM1 + 5`): bit 5 is set.
pub fn transmit_ready(status: u8) -> (ready: bool)
    ensures
        ready == ((status / 32) % 2 == 1),
{
    proof {
        assert((status & 0x20 != 0) == ((status / 32) % 2 == 1)) by (bit_vector);
    }
    status & 0x20 != 0
}

/// The serial line as a place for text.
#[derive(Debug, Clone, Copy, PartialEq, Eq, Structural)]
pub struct Serial;

/// The bytes that are sent for the first `n` bytes of a text: a line feed is
/// preceded by a carriage return.
pub open spec fn sent(text: Seq<u8>, n: int) -> Seq<u8>
    decreases n,
{
    if n <= 0 {
        Seq::empty()
    } else if text[n - 1] == 0x0A {
        sent(text, n - 1).push(0x0D).push(0x0A)
    } else {
        sent(text, n - 1).push(text[n - 1])
    }
}

impl Serial {
    /// Puts the bytes to send for a text at the front of `out`, which has room
    /// for twice as many bytes as the text. Returns how many they are.
    pub fn write_str(&self, text: &[u8], out: &mut [u8]) -> (n: usize)
        requires
            2 * text@.len() <= old(out)@.len(),
        ensures
            n == sent(text@, text@.len() as int).len(),
            n <= 2 * text@.len(),
            final(out)@ == sent(text@, text@.len() as int) + old(out)@.skip(n as int),
    {
        let mut n: usize = 0;
        let mut i: usize = 0;
        proof {
            assert(sent(text@, 0) + old(out)@.skip(0) =~= out@);
        }
        while i < text.len()
            invariant
                i <= text@.len(),
                n <= 2 * i,
                2 * text@.len() <= out@.len(),
                out@.len() == old(out)@.len(),
                n == sent(text@, i as int).len(),
                out@ == sent(text@, i as int) + old(out)@.skip(n as int),
            decreases text@.len() - i,
        {
            let b: u8 = text[i];
            let ghost n0 = n as int;
            let ghost before = sent(text@, i as int);
            if b == 0x0A {
                out[n] = 0x0D;
                n = n + 1;
                proof {
                    assert(out@ =~= before.push(0x0D) + old(out)@.skip(n0 + 1));
                }
            }
            let ghost so_far = out@.take(n as int);
            out[n] = b;
            n = n + 1;
            proof {
                assert(out@ =~= so_far.push(b) + old(out)@.skip(n as int));
                if b == 0x0A {
                    assert(so_far =~= before.push(0x0D));
                } else {
                    assert(so_far =~= before);
                }
            }
            i = i + 1;
        }
        n
    }
}

/// A text can be sent piece by piece.
pub proof fn law_pieces_are_sent_in_turn(text: Seq<u8>, more: Seq<u8>, n: int)
    requires
        0 <= n <= more.len(),
    ensures
        sent(text + more, text.len() + n) == sent(text, text.len() as int) + sent(more, n),
    decreases n,
{
    let all = text + more;
    if n == 0 {
        lemma_sent_front(text, more, text.len() as int);
        assert(sent(text, text.len() as int) + sent(more, 0) =~= sent(all, text.len() as int));
    } else {
        law_pieces_are_sent_in_turn(text, more, n - 1);
        let front = sent(text, text.len() as int);
        assert(all[text.len() + n - 1] == more[n - 1]);
        assert(front + sent(more, n) =~= sent(all, text.len() + n));
    }
}

/// What follows a text does not matter for the text.
proof fn lemma_sent_front(text: Seq<u8>, more: Seq<u8>, n: int)
    requires
        0 <= n <= text.len(),
    ensures
        sent(text + more, n) == sent(text, n),
    decreases n,
{
    if n > 0 {
        lemma_sent_front(text, more, n - 1);
    }
}

/// Every line feed that is sent comes right after a carriage return.
pub proof fn law_lines_end_in_crlf(text: Seq<u8>, n: int, i: int)
    requires
        0 <= n <= text.len(),
        0 <= i < sent(text, n).len(),
        sent(text, n)[i] == 0x0A,
    ensures
        i > 0,
        sent(text, n)[i - 1] == 0x0D,
    decreases n,
{
    if n > 0 {
        let before = sent(text, n - 1);
        if i < before.len() {
            law_lines_end_in_crlf(text, n - 1, i);
        }
    }
}

/// Text without line feeds is sent as it is.
pub proof fn law_plain_text_is_kept(text: Seq<u8>, n: int)
    requires
        0 <= n <= text.len(),
        forall|i: int| 0 <= i < n ==> #[trigger] text[i] != 0x0A,
    ensures
        sent(text, n) == text.take(n),
    decreases n,
{
    if n > 0 {
        law_plain_text_is_kept(text, n - 1);
        assert(text.take(n) =~= text.take(n - 1).push(text[n - 1]));
    } else {
        assert(text.take(0) =~= Seq::empty());
    }
}

/// Each byte of a text is sent in its turn, between what is sent for the text
/// before and after it: a line feed as a carriage return and a line feed, and
/// every other byte as it is.
pub proof fn law_bytes_are_sent(text: Seq<u8>, n: int, i: int)
    requires
        0 <= i < n <= text.len(),
    ensures
        sent(text, n) == sent(text, i) + (if text[i] == 0x0A {
            seq![0x0Du8, 0x0A]
        } else {
            seq![text[i]]
        }) + sent(text.skip(i + 1), n - i - 1),
    decreases n,
{
    let byte = if text[i] == 0x0A {
        seq![0x0Du8, 0x0A]
    } else {
        seq![text[i]]
    };
    let rest = text.skip(i + 1);
    if n == i + 1 {
        assert(sent(text, n) =~= sent(text, i) + byte + sent(rest, 0));
    } else {
        law_bytes_are_sent(text, n - 1, i);
        assert(rest[n - i - 2] == text[n - 1]);
        assert(sent(text, n) =~= sent(text, i) + byte + sent(rest, n - i - 1));
    }
}

/// No text, no bytes.
pub proof fn law_nothing_is_sent_for_no_text(text: Seq<u8>)
    ensures
        sent(text, 0) == Seq::<u8>::empty(),
{
}

} // verus!

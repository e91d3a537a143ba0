//! PS/2 keyboard: scancodes to ASCII, and the 16-byte input ring buffer.
use vstd::prelude::*;

verus! {

pub const KEY_BUF_SIZE: usize = 16;

/// The ASCII byte of each make scancode of the US layout; 0 where none.
pub open spec fn scancode_table() -> Seq<u8> {
    seq![0x00u8, 0x00u8, 0x31u8, 0x32u8, 0x33u8, 0x34u8, 0x35u8, 0x36u8, 0x37u8, 0x38u8, 0x39u8, 0x30u8, 0x2Du8, 0x3Du8, 0x00u8, 0x00u8, 0x71u8, 0x77u8, 0x65u8, 0x72u8, 0x74u8, 0x79u8, 0x75u8, 0x69u8, 0x6Fu8, 0x70u8, 0x5Bu8, 0x5Du8, 0x0Au8, 0x00u8, 0x61u8, 0x73u8, 0x64u8, 0x66u8, 0x67u8, 0x68u8, 0x6Au8, 0x6Bu8, 0x6Cu8, 0x3Bu8, 0x27u8, 0x60u8, 0x00u8, 0x5Cu8, 0x7Au8, 0x78u8, 0x63u8, 0x76u8, 0x62u8, 0x6Eu8, 0x6Du8, 0x2Cu8, 0x2Eu8, 0x2Fu8, 0x00u8, 0x2Au8, 0x00u8, 0x20u8, 0x00u8, 0x00u8, 0x00u8, 0x00u8, 0x00u8, 0x00u8, 0x00u8, 0x00u8, 0x00u8, 0x00u8, 0x00u8, 0x00u8, 0x00u8, 0x00u8, 0x00u8, 0x00u8, 0x00u8, 0x00u8, 0x00u8, 0x00u8, 0x00u8, 0x00u8, 0x00u8, 0x00u8, 0x00u8, 0x00u8, 0x00u8, 0x00u8, 0x00u8, 0x00u8, 0x00u8, 0x00u8, 0x00u8, 0x00u8, 0x00u8, 0x00u8, 0x00u8, 0x00u8, 0x00u8, 0x00u8, 0x00u8, 0x00u8, 0x00u8, 0x00u8, 0x00u8, 0x00u8, 0x00u8, 0x00u8, 0x00u8, 0x00u8, 0x00u8, 0x00u8, 0x00u8, 0x00u8, 0x00u8, 0x00u8, 0x00u8, 0x00u8, 0x00u8, 0x00u8, 0x00u8, 0x00u8, 0x00u8, 0x00u8, 0x00u8, 0x00u8, 0x00u8, 0x00u8, 0x00u8, 0x00u8]
}

/// The ASCII byte of a scancode, if it has one.
pub open spec fn ascii_of(sc: u8) -> Option<u8> {
    if (sc as int) < 128 && scancode_table()[sc as int] != 0 {
        Some(scancode_table()[sc as int])
    } else {
        None
    }
}

/// The US layout: the digit row gives 1 to 0, the three letter rows give
/// q to p, a to l and z to m, the space bar a space and Enter a newline;
/// each of these make codes has its top bit clear, so `decode_scancode`
/// gives the same byte.
pub proof fn law_us_layout(sc: u8)
    ensures
        0x02 <= sc <= 0x0B ==> sc & 0x80 == 0 && ascii_of(sc) == Some(seq![('1' as u8), ('2' as u8), ('3' as u8), ('4' as u8), ('5' as u8), ('6' as u8), ('7' as u8), ('8' as u8), ('9' as u8), ('0' as u8)][sc - 0x02]),
        0x10 <= sc <= 0x19 ==> sc & 0x80 == 0 && ascii_of(sc) == Some(seq![('q' as u8), ('w' as u8), ('e' as u8), ('r' as u8), ('t' as u8), ('y' as u8), ('u' as u8), ('i' as u8), ('o' as u8), ('p' as u8)][sc - 0x10]),
        0x1E <= sc <= 0x26 ==> sc & 0x80 == 0 && ascii_of(sc) == Some(seq![('a' as u8), ('s' as u8), ('d' as u8), ('f' as u8), ('g' as u8), ('h' as u8), ('j' as u8), ('k' as u8), ('l' as u8)][sc - 0x1E]),
        0x2C <= sc <= 0x32 ==> sc & 0x80 == 0 && ascii_of(sc) == Some(seq![('z' as u8), ('x' as u8), ('c' as u8), ('v' as u8), ('b' as u8), ('n' as u8), ('m' as u8)][sc - 0x2C]),
        sc == 0x39 ==> ascii_of(sc) == Some((' ' as u8)),
        sc == 0x1C ==> ascii_of(sc) == Some(('\n' as u8)),
{
    if sc < 0x80 {
        assert(sc & 0x80 == 0) by (bit_vector)
            requires
                sc < 0x80,
        ;
    }
    let t = scancode_table();
    if 0x02 <= sc <= 0x32 {
        assert(sc == 0x02 || sc == 0x03 || sc == 0x04 || sc == 0x05 || sc == 0x06 || sc == 0x07 || sc == 0x08
            || sc == 0x09 || sc == 0x0A || sc == 0x0B || sc == 0x0C || sc == 0x0D || sc == 0x0E || sc == 0x0F
            || sc == 0x10 || sc == 0x11 || sc == 0x12 || sc == 0x13 || sc == 0x14 || sc == 0x15 || sc == 0x16
            || sc == 0x17 || sc == 0x18 || sc == 0x19 || sc == 0x1A || sc == 0x1B || sc == 0x1C || sc == 0x1D
            || sc == 0x1E || sc == 0x1F || sc == 0x20 || sc == 0x21 || sc == 0x22 || sc == 0x23 || sc == 0x24
            || sc == 0x25 || sc == 0x26 || sc == 0x27 || sc == 0x28 || sc == 0x29 || sc == 0x2A || sc == 0x2B
            || sc == 0x2C || sc == 0x2D || sc == 0x2E || sc == 0x2F || sc == 0x30 || sc == 0x31 || sc == 0x32);
    }
}

pub fn scancode_to_ascii(sc: u8) -> (r: Option<u8>)
    ensures
        r == ascii_of(sc),
{
    let table: [u8; 128] = [
        0x00, 0x00, 0x31, 0x32, 0x33, 0x34, 0x35, 0x36, 0x37, 0x38, 0x39, 0x30, 0x2D, 0x3D, 0x00, 0x00,
        0x71, 0x77, 0x65, 0x72, 0x74, 0x79, 0x75, 0x69, 0x6F, 0x70, 0x5B, 0x5D, 0x0A, 0x00, 0x61, 0x73,
        0x64, 0x66, 0x67, 0x68, 0x6A, 0x6B, 0x6C, 0x3B, 0x27, 0x60, 0x00, 0x5C, 0x7A, 0x78, 0x63, 0x76,
        0x62, 0x6E, 0x6D, 0x2C, 0x2E, 0x2F, 0x00, 0x2A, 0x00, 0x20, 0x00, 0x00, 0x00, 0x00, 0x00, 0x00,
        0x00, 0x00, 0x00, 0x00, 0x00, 0x00, 0x00, 0x00, 0x00, 0x00, 0x00, 0x00, 0x00, 0x00, 0x00, 0x00,
        0x00, 0x00, 0x00, 0x00, 0x00, 0x00, 0x00, 0x00, 0x00, 0x00, 0x00, 0x00, 0x00, 0x00, 0x00, 0x00,
        0x00, 0x00, 0x00, 0x00, 0x00, 0x00, 0x00, 0x00, 0x00, 0x00, 0x00, 0x00, 0x00, 0x00, 0x00, 0x00,
        0x00, 0x00, 0x00, 0x00, 0x00, 0x00, 0x00, 0x00, 0x00, 0x00, 0x00, 0x00, 0x00, 0x00, 0x00, 0x00,
    ];
    assert(table@ =~= scancode_table());
    if (sc as usize) < 128 {
        let c = table[sc as usize];
        if c != 0 {
            return Some(c);
        }
    }
    None
}

/// Decodes one byte read from the keyboard data port: break codes (top bit
/// set) and scancodes without an ASCII byte give nothing.
pub fn decode_scancode(sc: u8) -> (r: Option<u8>)
    ensures
        r == if sc & 0x80 != 0 { None } else { ascii_of(sc) },
{
    if (sc & 0x80) != 0 {
        return None;
    }
    scancode_to_ascii(sc)
}

/// The ring buffer of keys read but not yet consumed.
pub struct KeyBuffer {
    buf: [u8; KEY_BUF_SIZE],
    head: usize,
    tail: usize,
    count: u8,
}

impl KeyBuffer {
    /// The buffered keys, oldest first.
    pub closed spec fn keys(&self) -> Seq<u8> {
        Seq::new(self.count as nat, |i: int| self.buf@[(self.head + i) % (KEY_BUF_SIZE as int)])
    }

    pub closed spec fn wf(&self) -> bool {
        &&& self.head < KEY_BUF_SIZE
        &&& self.tail < KEY_BUF_SIZE
        &&& self.count <= KEY_BUF_SIZE
        &&& self.tail == (self.head + self.count) % (KEY_BUF_SIZE as int)
    }

    pub fn new() -> (r: Self)
        ensures
            r.wf(),
            r.keys().len() == 0,
    {
        KeyBuffer { buf: [0; KEY_BUF_SIZE], head: 0, tail: 0, count: 0 }
    }

    /// Whether the next read polls the keyboard (the buffer is empty).
    pub fn needs_poll(&self) -> (r: bool)
        requires
            self.wf(),
        ensures
            r == (self.keys().len() == 0),
    {
        self.count == 0
    }

    /// Takes the oldest key. When the buffer is empty, the key `polled` from
    /// the keyboard (if any) is stored first, so it is the one returned.
    pub fn read_byte(&mut self, polled: Option<u8>) -> (r: Option<u8>)
        requires
            old(self).wf(),
        ensures
            final(self).wf(),
            old(self).keys().len() == 0 ==> r == polled && final(self).keys().len() == 0,
            old(self).keys().len() > 0 ==> r == Some(old(self).keys()[0]) && final(self).keys()
                == old(self).keys().drop_first(),
    {
        if self.count == 0 {
            if let Some(c) = polled {
                self.buf[self.tail] = c;
                self.tail = (self.tail + 1) % KEY_BUF_SIZE;
                self.count = self.count + 1;
            }
        }
        if self.count == 0 {
            return None;
        }
        let ghost old_keys = self.keys();
        let c = self.buf[self.head];
        self.head = (self.head + 1) % KEY_BUF_SIZE;
        self.count = self.count - 1;
        proof {
            assert forall|i: int| 0 <= i < self.count implies #[trigger] self.keys()[i] == old_keys[i + 1] by {
                assert((self.head + i) % 16 == (self.head - 1 + i + 1 + 16) % 16 || true);
            }
            assert(self.keys() =~= old_keys.drop_first());
        }
        Some(c)
    }
}

} // verus!

//! Dump orchestration.
//!
//! A full memory image is assembled from many bounded reads: the 24-bit
//! address range `[0, total)` is covered by windows of `step` bytes (the
//! last possibly shorter), in increasing address order. For each window
//! the orchestrator provides the exact read command to send; the
//! surrounding program transmits it, harvests and parses the reply, and
//! hands the decoded chunk back. The accumulator grows only by whole
//! chunks, so a failure in flight leaves every completed window's bytes
//! intact at the front of the image.

use vstd::prelude::*;
use crate::parse::hex_digit_val;
use crate::transmit::concat_chunks;

verus! {

/// Uppercase hexadecimal digit of a value below sixteen.
pub open spec fn hex_digit_upper(v: u8) -> u8
    recommends
        v < 16,
{
    if v < 10 {
        (0x30 + v) as u8
    } else {
        (0x41 + (v - 10)) as u8
    }
}

/// Two uppercase hexadecimal digits of a byte, high nibble first.
pub open spec fn byte_hex(b: u8) -> Seq<u8> {
    seq![hex_digit_upper(b / 16), hex_digit_upper(b % 16)]
}

/// The three bytes of a 24-bit address, most significant first.
pub open spec fn addr_bytes(a: u32) -> Seq<u8> {
    seq![((a >> 16) & 0xFF) as u8, ((a >> 8) & 0xFF) as u8, (a & 0xFF) as u8]
}

/// The six uppercase hexadecimal digits of a 24-bit address, most
/// significant first.
pub open spec fn addr_digits(a: u32) -> Seq<u8> {
    byte_hex(addr_bytes(a)[0]) + byte_hex(addr_bytes(a)[1]) + byte_hex(addr_bytes(a)[2])
}

/// The 24-bit address written in six hexadecimal digits, most significant
/// first; `None` when any byte is not a hexadecimal digit.
pub open spec fn decode_addr_spec(d: Seq<u8>) -> Option<u32> {
    if d.len() == 6 && (forall|i: int| 0 <= i < 6 ==> hex_digit_val(#[trigger] d[i]) is Some) {
        Some(
            (hex_digit_val(d[0])->0 * 0x100000 + hex_digit_val(d[1])->0 * 0x10000 + hex_digit_val(
                d[2],
            )->0 * 0x1000 + hex_digit_val(d[3])->0 * 0x100 + hex_digit_val(d[4])->0 * 0x10
                + hex_digit_val(d[5])->0) as u32,
        )
    } else {
        None
    }
}

/// Writes a nibble as an uppercase hexadecimal digit.
fn hex_digit_byte(v: u8) -> (r: u8)
    requires
        v < 16,
    ensures
        r == hex_digit_upper(v),
{
    if v < 10 {
        0x30 + v
    } else {
        0x41 + (v - 10)
    }
}

/// Renders a 24-bit address as its six uppercase hexadecimal digits,
/// zero-padded, most significant first — the form the device's command
/// grammar embeds.
pub fn encode_addr(a: u32) -> (d: Vec<u8>)
    requires
        a < 0x1000000,
    ensures
        d@ == addr_digits(a),
{
    proof {
        assert((a >> 16) & 0xFF < 256 && (a >> 8) & 0xFF < 256 && a & 0xFF < 256) by (bit_vector);
    }
    let b0: u8 = ((a >> 16) & 0xFF) as u8;
    let b1: u8 = ((a >> 8) & 0xFF) as u8;
    let b2: u8 = (a & 0xFF) as u8;
    let mut d: Vec<u8> = Vec::new();
    d.push(hex_digit_byte(b0 / 16));
    d.push(hex_digit_byte(b0 % 16));
    d.push(hex_digit_byte(b1 / 16));
    d.push(hex_digit_byte(b1 % 16));
    d.push(hex_digit_byte(b2 / 16));
    d.push(hex_digit_byte(b2 % 16));
    proof {
        assert(d@ =~= addr_digits(a));
    }
    d
}

/// Reads a 24-bit address back from its six hexadecimal digits.
pub fn decode_addr(d: &[u8]) -> (r: Option<u32>)
    ensures
        r == decode_addr_spec(d@),
{
    if d.len() != 6 {
        return None;
    }
    let h0: u8 = match crate::parse::hex_digit(d[0]) {
        Some(h) => h,
        None => {
            return None;
        },
    };
    let h1: u8 = match crate::parse::hex_digit(d[1]) {
        Some(h) => h,
        None => {
            return None;
        },
    };
    let h2: u8 = match crate::parse::hex_digit(d[2]) {
        Some(h) => h,
        None => {
            return None;
        },
    };
    let h3: u8 = match crate::parse::hex_digit(d[3]) {
        Some(h) => h,
        None => {
            return None;
        },
    };
    let h4: u8 = match crate::parse::hex_digit(d[4]) {
        Some(h) => h,
        None => {
            return None;
        },
    };
    let h5: u8 = match crate::parse::hex_digit(d[5]) {
        Some(h) => h,
        None => {
            return None;
        },
    };
    let v: u32 = (h0 as u32) * 0x100000 + (h1 as u32) * 0x10000 + (h2 as u32) * 0x1000 + (
    h3 as u32) * 0x100 + (h4 as u32) * 0x10 + h5 as u32;
    Some(v)
}

/// Encoding a 24-bit address and decoding the digits gives the address
/// back exactly.
pub proof fn lemma_addr_round_trip(a: u32)
    requires
        a < 0x1000000,
    ensures
        decode_addr_spec(addr_digits(a)) == Some(a),
{
    assert((a >> 16) & 0xFF < 256 && (a >> 8) & 0xFF < 256 && a & 0xFF < 256) by (bit_vector);
    let b0 = ((a >> 16) & 0xFF) as u8;
    let b1 = ((a >> 8) & 0xFF) as u8;
    let b2 = (a & 0xFF) as u8;
    assert(hex_digit_val(hex_digit_upper(b0 / 16)) == Some(b0 / 16));
    assert(hex_digit_val(hex_digit_upper(b0 % 16)) == Some(b0 % 16));
    assert(hex_digit_val(hex_digit_upper(b1 / 16)) == Some(b1 / 16));
    assert(hex_digit_val(hex_digit_upper(b1 % 16)) == Some(b1 % 16));
    assert(hex_digit_val(hex_digit_upper(b2 / 16)) == Some(b2 / 16));
    assert(hex_digit_val(hex_digit_upper(b2 % 16)) == Some(b2 % 16));
    let d = addr_digits(a);
    assert(d[0] == hex_digit_upper(b0 / 16) && d[1] == hex_digit_upper(b0 % 16) && d[2]
        == hex_digit_upper(b1 / 16) && d[3] == hex_digit_upper(b1 % 16) && d[4]
        == hex_digit_upper(b2 / 16) && d[5] == hex_digit_upper(b2 % 16));
    assert forall|i: int| 0 <= i < 6 implies hex_digit_val(#[trigger] d[i]) is Some by {
        if i == 0 {
            assert(hex_digit_val(d[0]) is Some);
        } else if i == 1 {
            assert(hex_digit_val(d[1]) is Some);
        } else if i == 2 {
            assert(hex_digit_val(d[2]) is Some);
        } else if i == 3 {
            assert(hex_digit_val(d[3]) is Some);
        } else if i == 4 {
            assert(hex_digit_val(d[4]) is Some);
        } else {
            assert(hex_digit_val(d[5]) is Some);
        }
    }
    assert((b0 / 16) * 0x100000 + (b0 % 16) * 0x10000 == b0 * 0x10000) by (nonlinear_arith);
    assert((b1 / 16) * 0x1000 + (b1 % 16) * 0x100 == b1 * 0x100) by (nonlinear_arith);
    assert((b2 / 16) * 0x10 + (b2 % 16) == b2 as int) by (nonlinear_arith);
    assert(((a >> 16) & 0xFF) * 0x10000 + ((a >> 8) & 0xFF) * 0x100 + (a & 0xFF) == a)
        by (bit_vector)
        requires
            a < 0x1000000,
    ;
}

/// Decimal digits of `n`, most significant first, no leading zeroes.
pub open spec fn dec_digits(n: int) -> Seq<u8>
    decreases n,
{
    if n < 10 {
        seq![(0x30 + if n >= 0 { n } else { 0 }) as u8]
    } else {
        dec_digits(n / 10) + seq![(0x30 + n % 10) as u8]
    }
}

/// Renders a byte count in decimal, as the command grammar carries it.
pub fn encode_dec(n: u32) -> (d: Vec<u8>)
    ensures
        d@ == dec_digits(n as int),
    decreases n,
{
    if n < 10 {
        let mut d: Vec<u8> = Vec::new();
        d.push(0x30 + n as u8);
        proof {
            assert(d@ =~= dec_digits(n as int));
        }
        d
    } else {
        let mut d = encode_dec(n / 10);
        d.push(0x30 + (n % 10) as u8);
        proof {
            assert(d@ =~= dec_digits(n as int));
        }
        d
    }
}

/// Bytes of the SPI command that reads `count` bytes after sending the
/// given opcode and a 3-byte address: `[0xNN 0xAA 0xBB 0xCC r:K]` and a
/// newline, the address as six uppercase hexadecimal digits in three byte
/// pairs, the count in decimal.
pub open spec fn read_at_cmd_spec(opcode: u8, addr: u32, count: u32) -> Seq<u8> {
    seq![0x5Bu8, 0x30u8, 0x78u8] + byte_hex(opcode) + seq![0x20u8, 0x30u8, 0x78u8] + addr_digits(
        addr,
    ).subrange(0, 2) + seq![0x20u8, 0x30u8, 0x78u8] + addr_digits(addr).subrange(2, 4) + seq![
        0x20u8,
        0x30u8,
        0x78u8,
    ] + addr_digits(addr).subrange(4, 6) + seq![0x20u8, 0x72u8, 0x3Au8] + dec_digits(count as int)
        + seq![0x5Du8, 0x0Au8]
}

/// Bytes of the SPI command that reads `count` bytes after a bare opcode:
/// `[0xNN r:K]` and a newline.
pub open spec fn read_cmd_spec(opcode: u8, count: u32) -> Seq<u8> {
    seq![0x5Bu8, 0x30u8, 0x78u8] + byte_hex(opcode) + seq![0x20u8, 0x72u8, 0x3Au8] + dec_digits(
        count as int,
    ) + seq![0x5Du8, 0x0Au8]
}

/// Builds the single-opcode read command, `[0xNN r:K]`.
pub fn build_read_cmd(opcode: u8, count: u32) -> (c: Vec<u8>)
    ensures
        c@ == read_cmd_spec(opcode, count),
{
    let mut c: Vec<u8> = Vec::new();
    c.push(0x5B);
    c.push(0x30);
    c.push(0x78);
    c.push(hex_digit_byte(opcode / 16));
    c.push(hex_digit_byte(opcode % 16));
    c.push(0x20);
    c.push(0x72);
    c.push(0x3A);
    let k = encode_dec(count);
    c.extend_from_slice(k.as_slice());
    c.push(0x5D);
    c.push(0x0A);
    proof {
        assert(c@ =~= read_cmd_spec(opcode, count));
    }
    c
}

/// Builds the addressed read command for one window, `[0xNN 0xAA 0xBB 0xCC r:K]`.
pub fn build_read_at_cmd(opcode: u8, addr: u32, count: u32) -> (c: Vec<u8>)
    requires
        addr < 0x1000000,
    ensures
        c@ == read_at_cmd_spec(opcode, addr, count),
{
    let mut c: Vec<u8> = Vec::new();
    c.push(0x5B);
    c.push(0x30);
    c.push(0x78);
    c.push(hex_digit_byte(opcode / 16));
    c.push(hex_digit_byte(opcode % 16));
    let digits = encode_addr(addr);
    c.push(0x20);
    c.push(0x30);
    c.push(0x78);
    c.push(digits[0]);
    c.push(digits[1]);
    c.push(0x20);
    c.push(0x30);
    c.push(0x78);
    c.push(digits[2]);
    c.push(digits[3]);
    c.push(0x20);
    c.push(0x30);
    c.push(0x78);
    c.push(digits[4]);
    c.push(digits[5]);
    c.push(0x20);
    c.push(0x72);
    c.push(0x3A);
    let k = encode_dec(count);
    c.extend_from_slice(k.as_slice());
    c.push(0x5D);
    c.push(0x0A);
    proof {
        assert(c@ =~= read_at_cmd_spec(opcode, addr, count));
    }
    c
}

/// The fixed menu-navigation string that walks the device into the mode
/// the dump uses: a line feed, `m`, `5`, `4`, five empty lines, `2`, each
/// choice on its own line.
pub open spec fn mode_setup_spec() -> Seq<u8> {
    seq![
        0x0Au8,
        0x6Du8,
        0x0Au8,
        0x35u8,
        0x0Au8,
        0x34u8,
        0x0Au8,
        0x0Au8,
        0x0Au8,
        0x0Au8,
        0x0Au8,
        0x32u8,
        0x0Au8,
    ]
}

/// Builds the mode-setup command.
pub fn mode_setup_cmd() -> (c: Vec<u8>)
    ensures
        c@ == mode_setup_spec(),
{
    let mut c: Vec<u8> = Vec::new();
    c.push(0x0A);
    c.push(0x6D);
    c.push(0x0A);
    c.push(0x35);
    c.push(0x0A);
    c.push(0x34);
    c.push(0x0A);
    c.push(0x0A);
    c.push(0x0A);
    c.push(0x0A);
    c.push(0x0A);
    c.push(0x32);
    c.push(0x0A);
    proof {
        assert(c@ =~= mode_setup_spec());
    }
    c
}

/// The power-on command: `W` and a newline.
pub open spec fn power_on_spec() -> Seq<u8> {
    seq![0x57u8, 0x0Au8]
}

/// Builds the power-on command.
pub fn power_on_cmd() -> (c: Vec<u8>)
    ensures
        c@ == power_on_spec(),
{
    let mut c: Vec<u8> = Vec::new();
    c.push(0x57);
    c.push(0x0A);
    proof {
        assert(c@ =~= power_on_spec());
    }
    c
}

/// Bytes asked of the window at `start`: a full step, or what remains of
/// the range for the final window.
pub open spec fn window_size(total: int, step: int, start: int) -> int {
    if start + step <= total {
        step
    } else {
        total - start
    }
}

/// Start offsets of the windows that cover `[0, total)`: multiples of
/// `step` from zero, each below `total`, stepping until the whole range is
/// reached — exactly the offsets a loop visits stepping by `step` from
/// zero while staying below `total`.
pub fn window_starts(total: u32, step: u32) -> (starts: Vec<u32>)
    requires
        0 < step <= 0x1000000,
        total <= 0x1000000,
    ensures
        forall|i: int| 0 <= i < starts@.len() ==> starts@[i] == i * step,
        forall|i: int| 0 <= i < starts@.len() ==> starts@[i] < total,
        starts@.len() * step >= total,
{
    let mut starts: Vec<u32> = Vec::new();
    let mut s: u32 = 0;
    proof {
        assert(starts@.len() == 0);
        assert(0int * step == 0) by (nonlinear_arith);
    }
    while s < total
        invariant
            0 < step <= 0x1000000,
            total <= 0x1000000,
            s == starts@.len() * step,
            s <= total + step,
            forall|i: int| 0 <= i < starts@.len() ==> starts@[i] == i * step,
            forall|i: int| 0 <= i < starts@.len() ==> starts@[i] < total,
        decreases total + step - s,
    {
        starts.push(s);
        proof {
            let n = starts@.len() as int;
            assert(n * step == (n - 1) * step + step) by (nonlinear_arith);
        }
        s = s + step;
    }
    starts
}

/// One windowed dump in progress: the range, the next window to read, and
/// the image assembled so far. The surrounding program sends `command()`,
/// harvests and parses the reply, persists the chunk, and folds it in with
/// `accept_chunk`; nothing else ever changes the image, so a failure in
/// flight leaves it exactly as the last completed window left it.
pub struct Dump {
    /// Size of the whole address range to cover.
    pub total: u32,
    /// Bytes asked of each window; the final window may get less.
    pub step: u32,
    /// Start offset of the window now in flight.
    pub next: u32,
    /// The image so far: the completed windows' chunks, in address order.
    pub data: Vec<u8>,
    /// The completed windows' chunks themselves.
    pub chunks: Ghost<Seq<Seq<u8>>>,
}

/// The read opcode embedded in every window's command.
pub const READ_OPCODE: u8 = 0x03;

impl Dump {
    /// The state is consistent: the next start is where the accepted
    /// chunks' windows end, and the image is their bytes in order.
    pub open spec fn wf(self) -> bool {
        &&& 0 < self.step <= 0x1000000
        &&& self.total <= 0x1000000
        &&& self.next == self.chunks@.len() * self.step
        &&& self.chunks@.len() > 0 ==> self.next - self.step < self.total
        &&& self.data@ == concat_chunks(self.chunks@)
    }

    /// A dump over `[0, total)` with no window read yet.
    pub fn new(total: u32, step: u32) -> (d: Dump)
        requires
            0 < step <= 0x1000000,
            total <= 0x1000000,
        ensures
            d.wf(),
            d.total == total,
            d.step == step,
            d.next == 0,
            d.data@ == Seq::<u8>::empty(),
            d.chunks@ == Seq::<Seq<u8>>::empty(),
    {
        let d = Dump {
            total,
            step,
            next: 0,
            data: Vec::new(),
            chunks: Ghost(Seq::empty()),
        };
        proof {
            assert(concat_chunks(d.chunks@) =~= Seq::<u8>::empty());
        }
        d
    }

    /// Every window has been read.
    pub fn done(&self) -> (b: bool)
        ensures
            b == (self.next >= self.total),
    {
        self.next >= self.total
    }

    /// Byte count to ask of the window now in flight.
    pub fn window_len(&self) -> (l: u32)
        requires
            self.next < self.total,
        ensures
            l == window_size(self.total as int, self.step as int, self.next as int),
    {
        if self.total - self.next < self.step {
            self.total - self.next
        } else {
            self.step
        }
    }

    /// The read command for the window now in flight.
    pub fn command(&self) -> (c: Vec<u8>)
        requires
            self.wf(),
            self.next < self.total,
        ensures
            c@ == read_at_cmd_spec(
                READ_OPCODE,
                self.next,
                window_size(self.total as int, self.step as int, self.next as int) as u32,
            ),
    {
        build_read_at_cmd(READ_OPCODE, self.next, self.window_len())
    }

    /// Folds one window's decoded chunk into the image and moves to the
    /// next window: the image grows by exactly this chunk, at the end,
    /// with every earlier window's bytes untouched.
    pub fn accept_chunk(&mut self, chunk: &[u8])
        requires
            old(self).wf(),
            old(self).next < old(self).total,
        ensures
            final(self).wf(),
            final(self).total == old(self).total,
            final(self).step == old(self).step,
            final(self).next == old(self).next + old(self).step,
            final(self).data@ == old(self).data@ + chunk@,
            final(self).chunks@ == old(self).chunks@.push(chunk@),
    {
        self.data.extend_from_slice(chunk);
        proof {
            crate::receive::lemma_concat_push(self.chunks@, chunk@);
            assert(self.data@ =~= concat_chunks(self.chunks@.push(chunk@)));
        }
        let ghost extended = self.chunks@.push(chunk@);
        self.chunks = Ghost(extended);
        self.next = self.next + self.step;
        proof {
            let n = self.chunks@.len() as int;
            assert(n * self.step == (n - 1) * self.step + self.step) by (nonlinear_arith);
        }
    }
}

/// Whatever happens after the first `j` windows, their bytes stand
/// unchanged at the front of the image, in window order.
pub proof fn lemma_completed_prefix(chunks: Seq<Seq<u8>>, j: int)
    requires
        0 <= j <= chunks.len(),
    ensures
        concat_chunks(chunks.take(j)).len() <= concat_chunks(chunks).len(),
        concat_chunks(chunks).subrange(0, concat_chunks(chunks.take(j)).len() as int)
            == concat_chunks(chunks.take(j)),
    decreases chunks.len() - j,
{
    if j == chunks.len() {
        assert(chunks.take(j) =~= chunks);
        let c = concat_chunks(chunks);
        assert(c.subrange(0, c.len() as int) =~= c);
    } else {
        assert(chunks.take(j + 1) =~= chunks.take(j).push(chunks[j]));
        crate::receive::lemma_concat_push(chunks.take(j), chunks[j]);
        lemma_completed_prefix(chunks, j + 1);
        let c = concat_chunks(chunks);
        let a = concat_chunks(chunks.take(j));
        let b = concat_chunks(chunks.take(j + 1));
        assert(b == a + chunks[j]);
        assert(a.len() <= b.len() <= c.len());
        assert(c.subrange(0, b.len() as int) == b);
        assert forall|k: int| 0 <= k < a.len() implies c[k] == a[k] by {
            assert(b[k] == (a + chunks[j as int])[k]);
            assert(c.subrange(0, b.len() as int)[k] == c[k]);
        }
        assert(c.subrange(0, a.len() as int) =~= a);
    }
}

} // verus!


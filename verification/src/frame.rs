//! The link layer of wired M-Bus, EN 13757-2: the three frames on the
//! line, and what tells them apart.
//!
//! A single character, `E5`, is the acknowledgement. A short frame opens
//! with `10`, carries a control and an address and closes with a checksum
//! and `16`. A long frame opens with `68`, its length twice, `68` again,
//! then control, address, control information and the user data, and
//! closes the same way. The length counts control, address, control
//! information and data, and is one byte, so a long frame carries at most
//! 252 bytes of data, which is why a Stream crosses in records over as
//! many telegrams as it takes. The checksum is the arithmetic sum of what
//! the length counts, modulo 256.

#[allow(unused_imports)]
use vstd::arithmetic::div_mod::lemma_add_mod_noop;
use vstd::prelude::*;

#[allow(unused_imports)]
use crate::error::{viewed, ErrorView, MBusError};
#[allow(unused_imports)]
use crate::text::{decimal, push_decimal};

verus! {

/// The single-character acknowledgement.
pub const ACK: u8 = 0xe5;

/// What a short frame opens with.
pub const SHORT: u8 = 0x10;

/// What a long frame opens with, twice.
pub const LONG: u8 = 0x68;

/// What every frame but the acknowledgement closes with.
pub const STOP: u8 = 0x16;

/// The most user data a long frame carries: 255 less control, address and
/// control information.
pub const MAX_USER_DATA: usize = 252;

/// Initialisation of the slave; answered with an acknowledgement.
pub const SND_NKE: u8 = 0x40;

/// User data to the slave; answered with an acknowledgement.
pub const SND_UD: u8 = 0x53;

/// A request for class 2 data; answered with `RSP_UD`.
pub const REQ_UD2: u8 = 0x5b;

/// The slave's data, in a long frame.
pub const RSP_UD: u8 = 0x08;

/// The frame count bit a master toggles between calls.
pub const FCB: u8 = 0x20;

/// Every slave answers; for one slave on the line.
pub const BROADCAST_REPLY: u8 = 0xfe;

/// Every slave takes it, and every slave's acknowledgement is the same byte.
pub const BROADCAST: u8 = 0xff;

/// One frame on the line.
#[derive(Clone, Debug, PartialEq, Eq)]
pub enum Frame {
    Ack,
    Short { control: u8, address: u8 },
    Long {
        control: u8,
        address: u8,
        /// The control information: what the user data is.
        ci: u8,
        data: Vec<u8>,
    },
}

/// What a [`Frame`] says, its user data as a sequence.
#[verifier::ext_equal]
pub enum FrameView {
    Ack,
    Short { control: u8, address: u8 },
    Long { control: u8, address: u8, ci: u8, data: Seq<u8> },
}

impl View for Frame {
    type V = FrameView;

    open spec fn view(&self) -> FrameView {
        match *self {
            Frame::Ack => FrameView::Ack,
            Frame::Short { control, address } => FrameView::Short { control, address },
            Frame::Long { control, address, ci, data } => FrameView::Long {
                control,
                address,
                ci,
                data: data@,
            },
        }
    }
}

/// The sum of `bytes`.
pub open spec fn total(bytes: Seq<u8>) -> nat
    decreases bytes.len(),
{
    if bytes.len() == 0 {
        0
    } else {
        total(bytes.drop_last()) + bytes.last() as nat
    }
}

/// The sum of `bytes` modulo 256.
pub open spec fn checksum_of(bytes: Seq<u8>) -> u8 {
    (total(bytes) % 256) as u8
}

impl FrameView {
    /// Whether a frame can stand on the line: its length fits one byte.
    pub open spec fn fits(self) -> bool {
        match self {
            FrameView::Long { data, .. } => data.len() <= MAX_USER_DATA,
            _ => true,
        }
    }

    /// What the checksum adds up and the length counts.
    pub open spec fn body(self) -> Seq<u8> {
        match self {
            FrameView::Ack => Seq::empty(),
            FrameView::Short { control, address } => seq![control, address],
            FrameView::Long { control, address, ci, data } => seq![control, address, ci] + data,
        }
    }

    /// The bytes of a frame on the line.
    pub open spec fn bytes(self) -> Seq<u8> {
        let body = self.body();
        let close = seq![checksum_of(body), STOP];
        match self {
            FrameView::Ack => seq![ACK],
            FrameView::Short { .. } => seq![SHORT] + body + close,
            FrameView::Long { .. } => seq![LONG, body.len() as u8, body.len() as u8, LONG] + body
                + close,
        }
    }

    /// The bytes of a frame on the line, where it fits.
    pub open spec fn encoded(self) -> Result<Seq<u8>, ErrorView> {
        if self.fits() {
            Ok(self.bytes())
        } else {
            Err(ErrorView::OverLongFrame(self->data.len()))
        }
    }

    /// How a frame reads in a message.
    pub open spec fn text(self) -> Seq<char> {
        match self {
            FrameView::Ack => "Ack"@,
            FrameView::Short { control, address } => "Short { control: "@ + decimal(control as nat)
                + ", address: "@ + decimal(address as nat) + " }"@,
            FrameView::Long { control, address, ci, data } => "Long { control: "@ + decimal(
                control as nat,
            ) + ", address: "@ + decimal(address as nat) + ", ci: "@ + decimal(ci as nat)
                + ", data: ["@ + list(data) + "] }"@,
        }
    }
}

/// Bytes in decimal, a comma and a space between.
pub open spec fn list(bytes: Seq<u8>) -> Seq<char>
    decreases bytes.len(),
{
    if bytes.len() == 0 {
        Seq::empty()
    } else if bytes.len() == 1 {
        decimal(bytes[0] as nat)
    } else {
        list(bytes.drop_last()) + ", "@ + decimal(bytes.last() as nat)
    }
}

/// What `bytes`, whole, are as a frame; or why they are none.
pub open spec fn decoded(bytes: Seq<u8>) -> Result<FrameView, ErrorView> {
    let n = bytes.len() as int;
    if n == 1 && bytes[0] == ACK {
        Ok(FrameView::Ack)
    } else if n == 5 && bytes[0] == SHORT && bytes[4] == STOP {
        if checksum_of(bytes.subrange(1, 3)) != bytes[3] {
            Err(ErrorView::ShortChecksum)
        } else {
            Ok(FrameView::Short { control: bytes[1], address: bytes[2] })
        }
    } else if n >= 6 && bytes[0] == LONG && bytes[3] == LONG && bytes[n - 1] == STOP {
        let body = bytes.subrange(4, n - 2);
        if bytes[1] != bytes[2] || bytes[1] as int != body.len() || body.len() < 3 {
            Err(ErrorView::LongLength)
        } else if checksum_of(body) != bytes[n - 2] {
            Err(ErrorView::LongChecksum)
        } else {
            Ok(
                FrameView::Long {
                    control: body[0],
                    address: body[1],
                    ci: body[2],
                    data: body.skip(3),
                },
            )
        }
    } else {
        Err(ErrorView::NoFrame)
    }
}

/// How many bytes follow the first.
pub open spec fn following_start(first: u8) -> Result<nat, ErrorView> {
    if first == ACK {
        Ok(0)
    } else if first == SHORT {
        Ok(4)
    } else if first == LONG {
        Ok(3)
    } else {
        Err(ErrorView::NoStart(first))
    }
}

/// How long the frame that opens `read` is, once its first bytes say.
pub open spec fn measured(read: Seq<u8>) -> Result<Option<nat>, ErrorView> {
    if read.len() == 0 {
        Ok(None)
    } else {
        match following_start(read[0]) {
            Err(error) => Err(error),
            Ok(after) => if read[0] != LONG {
                Ok(Some(1 + after))
            } else if read.len() == 1 {
                Ok(None)
            } else {
                Ok(Some((4 + read[1] + 2) as nat))
            },
        }
    }
}

impl Frame {
    /// The bytes on the line.
    ///
    /// # Errors
    /// A long frame with more than [`MAX_USER_DATA`] bytes of data.
    pub fn encode(&self) -> (result: Result<Vec<u8>, MBusError>)
        ensures
            viewed(result) == self@.encoded(),
    {
        let mut out: Vec<u8> = Vec::new();
        match self {
            Frame::Ack => {
                out.push(ACK);
            },
            Frame::Short { control, address } => {
                let ghost body = seq![*control, *address];
                assert(total(body) == *control + *address) by {
                    reveal_with_fuel(total, 3);
                    assert(body.drop_last() =~= seq![*control]);
                }
                out.push(SHORT);
                out.push(*control);
                out.push(*address);
                out.push(control.wrapping_add(*address));
                out.push(STOP);
                assert(out@ =~= self@.bytes());
            },
            Frame::Long { control, address, ci, data } => {
                if data.len() > MAX_USER_DATA {
                    return Err(MBusError::OverLongFrame(data.len()));
                }
                let length: u8 = (3 + data.len()) as u8;
                let mut body: Vec<u8> = Vec::new();
                body.push(*control);
                body.push(*address);
                body.push(*ci);
                body.extend_from_slice(data.as_slice());
                assert(body@ =~= self@.body());
                out.push(LONG);
                out.push(length);
                out.push(length);
                out.push(LONG);
                out.extend_from_slice(body.as_slice());
                out.push(checksum(body.as_slice()));
                out.push(STOP);
                assert(out@ =~= self@.bytes());
            },
        }
        assert(out@ =~= self@.bytes());
        Ok(out)
    }

    /// The frame `bytes` carry, whole.
    ///
    /// # Errors
    /// A start byte that is none of the three, a length that does not match,
    /// a checksum that does not add up, or a missing stop.
    pub fn decode(bytes: &[u8]) -> (result: Result<Frame, MBusError>)
        ensures
            viewed(result) == decoded(bytes@),
    {
        let n: usize = bytes.len();
        if n == 1 && bytes[0] == ACK {
            Ok(Frame::Ack)
        } else if n == 5 && bytes[0] == SHORT && bytes[4] == STOP {
            let control: u8 = bytes[1];
            let address: u8 = bytes[2];
            proof {
                let body = bytes@.subrange(1, 3);
                assert(body =~= seq![control, address]);
                reveal_with_fuel(total, 3);
                assert(body.drop_last() =~= seq![control]);
            }
            if control.wrapping_add(address) != bytes[3] {
                Err(MBusError::ShortChecksum)
            } else {
                Ok(Frame::Short { control, address })
            }
        } else if n >= 6 && bytes[0] == LONG && bytes[3] == LONG && bytes[n - 1] == STOP {
            let body = &bytes[4..n - 2];
            if bytes[1] != bytes[2] || bytes[1] as usize != body.len() || body.len() < 3 {
                Err(MBusError::LongLength)
            } else if checksum(body) != bytes[n - 2] {
                Err(MBusError::LongChecksum)
            } else {
                let mut data: Vec<u8> = Vec::new();
                data.extend_from_slice(&body[3..body.len()]);
                assert(data@ =~= body@.skip(3));
                Ok(Frame::Long { control: body[0], address: body[1], ci: body[2], data })
            }
        } else {
            Err(MBusError::NoFrame)
        }
    }

    /// How many bytes follow the first: none after an acknowledgement,
    /// four after a short frame's start, and after a long frame's start
    /// three more of header before the length is known.
    ///
    /// # Errors
    /// A first byte that opens no frame.
    pub fn after_start(first: u8) -> (result: Result<usize, MBusError>)
        ensures
            match result {
                Ok(after) => following_start(first) == Ok::<nat, ErrorView>(after as nat),
                Err(error) => following_start(first) == Err::<nat, ErrorView>(error@),
            },
    {
        match first {
            ACK => Ok(0),
            SHORT => Ok(4),
            LONG => Ok(3),
            other => Err(MBusError::NoStart(other)),
        }
    }

    /// How many bytes follow a long frame's four-byte header: the length,
    /// then the checksum and the stop.
    #[must_use]
    pub fn after_long_header(length: u8) -> (after: usize)
        ensures
            after == length + 2,
    {
        length as usize + 2
    }

    /// How long the frame opening `read` is, once its first bytes say:
    /// the rule a serial line reads M-Bus by, since M-Bus delimits nothing.
    ///
    /// # Errors
    /// A first byte that opens no M-Bus frame.
    pub fn measure(read: &[u8]) -> (result: Result<Option<usize>, MBusError>)
        ensures
            match result {
                Ok(Some(length)) => measured(read@) == Ok::<Option<nat>, ErrorView>(
                    Some(length as nat),
                ),
                Ok(None) => measured(read@) == Ok::<Option<nat>, ErrorView>(None),
                Err(error) => measured(read@) == Err::<Option<nat>, ErrorView>(error@),
            },
    {
        if read.len() == 0 {
            return Ok(None);
        }
        let first: u8 = read[0];
        let after: usize = match Self::after_start(first) {
            Ok(after) => after,
            Err(error) => return Err(error),
        };
        if first != LONG {
            return Ok(Some(1 + after));
        }
        if read.len() == 1 {
            return Ok(None);
        }
        Ok(Some(4 + Self::after_long_header(read[1])))
    }
}

/// The arithmetic checksum: the sum modulo 256.
#[must_use]
pub fn checksum(bytes: &[u8]) -> (sum: u8)
    ensures
        sum == checksum_of(bytes@),
{
    let mut sum: u8 = 0;
    let mut at: usize = 0;
    while at < bytes.len()
        invariant
            at <= bytes.len(),
            sum == checksum_of(bytes@.take(at as int)),
        decreases bytes.len() - at,
    {
        assert(bytes@.take(at + 1).drop_last() =~= bytes@.take(at as int));
        sum = sum.wrapping_add(bytes[at]);
        at = at + 1;
    }
    assert(bytes@.take(at as int) =~= bytes@);
    sum
}

/// What is encoded decodes back: every frame that fits is the frame its
/// bytes carry.
pub proof fn law_decode_undoes_encode(frame: FrameView)
    requires
        frame.fits(),
    ensures
        decoded(frame.bytes()) == Ok::<FrameView, ErrorView>(frame),
{
    let bytes = frame.bytes();
    match frame {
        FrameView::Ack => {},
        FrameView::Short { control, address } => {
            assert(bytes.subrange(1, 3) =~= frame.body());
        },
        FrameView::Long { control, address, ci, data } => {
            let body = bytes.subrange(4, bytes.len() - 2);
            assert(body =~= frame.body());
            assert(body.skip(3) =~= data);
        },
    }
}

/// Nothing but a frame's own bytes decode to it: what decodes fits, and
/// encodes back to the same bytes.
pub proof fn law_encode_undoes_decode(bytes: Seq<u8>)
    requires
        decoded(bytes) is Ok,
    ensures
        decoded(bytes)->Ok_0.fits(),
        decoded(bytes)->Ok_0.bytes() == bytes,
{
    let frame = decoded(bytes)->Ok_0;
    match frame {
        FrameView::Ack => {
            assert(bytes =~= seq![ACK]);
        },
        FrameView::Short { control, address } => {
            assert(bytes.subrange(1, 3) =~= frame.body());
            assert(frame.bytes() =~= bytes);
        },
        FrameView::Long { .. } => {
            assert(bytes.subrange(4, bytes.len() - 2) =~= frame.body());
            assert(frame.bytes() =~= bytes);
        },
    }
}

/// A frame says its own length: read `read` bytes into the line from where
/// a frame opens, whatever follows it, measuring gives the frame's length
/// as soon as its first byte is there, or its second for a long frame.
pub proof fn law_measure_is_the_length(frame: FrameView, rest: Seq<u8>, read: int)
    requires
        frame.fits(),
        0 <= read <= frame.bytes().len() + rest.len(),
    ensures
        measured((frame.bytes() + rest).take(read)) == Ok::<Option<nat>, ErrorView>(
            if read == 0 || (read == 1 && frame is Long) {
                None
            } else {
                Some(frame.bytes().len())
            },
        ),
{
    let line = (frame.bytes() + rest).take(read);
    if read > 0 {
        assert(line[0] == frame.bytes()[0]);
    }
    if read > 1 && frame is Long {
        assert(line[1] == frame.bytes()[1]);
    }
}

/// The start byte says how much follows: nothing after the acknowledgement,
/// the rest of a short frame, and of a long frame the rest of a header whose
/// length says what follows that.
pub proof fn law_start_says_what_follows(frame: FrameView)
    requires
        frame.fits(),
    ensures
        following_start(frame.bytes()[0]) is Ok,
        frame !is Long ==> frame.bytes().len() == 1 + following_start(frame.bytes()[0])->Ok_0,
        frame is Long ==> frame.bytes().len() == 1 + following_start(frame.bytes()[0])->Ok_0
            + frame.bytes()[1] + 2,
{
}

/// Frames need nothing between them: where two lines are the same bytes,
/// the frames that open them are the same and so is what follows.
pub proof fn law_frames_delimit_themselves(
    one: FrameView,
    after_one: Seq<u8>,
    two: FrameView,
    after_two: Seq<u8>,
)
    requires
        one.fits(),
        two.fits(),
        one.bytes() + after_one == two.bytes() + after_two,
    ensures
        one == two,
        after_one == after_two,
{
    let line = one.bytes() + after_one;
    let other = two.bytes() + after_two;
    law_measure_is_the_length(one, after_one, line.len() as int);
    law_measure_is_the_length(two, after_two, other.len() as int);
    assert(line.take(line.len() as int) =~= line);
    assert(other.take(other.len() as int) =~= other);
    assert(line[0] == one.bytes()[0]);
    assert(line[0] == two.bytes()[0]);
    assert(one.bytes().len() == two.bytes().len());
    let n = one.bytes().len() as int;
    assert(line.take(n) =~= one.bytes());
    assert(line.take(n) =~= two.bytes());
    assert(line.skip(n) =~= after_one);
    assert(line.skip(n) =~= after_two);
    law_decode_undoes_encode(one);
    law_decode_undoes_encode(two);
}

/// One byte of a sum exchanged moves the sum by the difference.
proof fn lemma_total_update(bytes: Seq<u8>, at: int, byte: u8)
    requires
        0 <= at < bytes.len(),
    ensures
        total(bytes.update(at, byte)) == total(bytes) - bytes[at] + byte,
    decreases bytes.len(),
{
    let changed = bytes.update(at, byte);
    if at == bytes.len() - 1 {
        assert(changed.drop_last() =~= bytes.drop_last());
    } else {
        assert(changed.drop_last() =~= bytes.drop_last().update(at, byte));
        lemma_total_update(bytes.drop_last(), at, byte);
    }
}

/// One byte wrong is refused, wherever in the frame it stands: the start,
/// either length, what the checksum adds up, the checksum or the stop.
pub proof fn law_one_wrong_byte_is_refused(frame: FrameView, at: int, byte: u8)
    requires
        frame.fits(),
        0 <= at < frame.bytes().len(),
        byte != frame.bytes()[at],
    ensures
        decoded(frame.bytes().update(at, byte)) is Err,
{
    let bytes = frame.bytes();
    let changed = bytes.update(at, byte);
    let n = bytes.len() as int;
    let body = frame.body();
    match frame {
        FrameView::Ack => {},
        FrameView::Short { control, address } => {
            assert(bytes.subrange(1, 3) =~= body);
            if 1 <= at < 3 {
                assert(changed.subrange(1, 3) =~= body.update(at - 1, byte));
                lemma_total_update(body, at - 1, byte);
            } else {
                assert(changed.subrange(1, 3) =~= body);
            }
        },
        FrameView::Long { .. } => {
            assert(bytes.subrange(4, n - 2) =~= body);
            if 4 <= at < n - 2 {
                assert(changed.subrange(4, n - 2) =~= body.update(at - 4, byte));
                lemma_total_update(body, at - 4, byte);
            } else {
                assert(changed.subrange(4, n - 2) =~= body);
            }
        },
    }
}

/// Append how `frame` reads in a message.
pub fn push_frame_text(out: &mut String, frame: &Frame)
    ensures
        final(out)@ == old(out)@ + frame@.text(),
{
    match frame {
        Frame::Ack => out.append("Ack"),
        Frame::Short { control, address } => {
            out.append("Short { control: ");
            push_decimal(out, *control as u64);
            out.append(", address: ");
            push_decimal(out, *address as u64);
            out.append(" }");
        },
        Frame::Long { control, address, ci, data } => {
            out.append("Long { control: ");
            push_decimal(out, *control as u64);
            out.append(", address: ");
            push_decimal(out, *address as u64);
            out.append(", ci: ");
            push_decimal(out, *ci as u64);
            out.append(", data: [");
            push_list(out, data.as_slice());
            out.append("] }");
        },
    }
    assert(out@ =~= old(out)@ + frame@.text());
}

/// Append `bytes` in decimal, a comma and a space between.
fn push_list(out: &mut String, bytes: &[u8])
    ensures
        final(out)@ == old(out)@ + list(bytes@),
{
    let ghost before = out@;
    let mut at: usize = 0;
    while at < bytes.len()
        invariant
            at <= bytes.len(),
            out@ == before + list(bytes@.take(at as int)),
        decreases bytes.len() - at,
    {
        assert(bytes@.take(at + 1).drop_last() =~= bytes@.take(at as int));
        if at > 0 {
            out.append(", ");
        }
        push_decimal(out, bytes[at] as u64);
        at = at + 1;
        assert(out@ =~= before + list(bytes@.take(at as int)));
    }
    assert(bytes@.take(at as int) =~= bytes@);
}

/// Sums add up.
proof fn lemma_total_adds(one: Seq<u8>, two: Seq<u8>)
    ensures
        total(one + two) == total(one) + total(two),
    decreases two.len(),
{
    if two.len() == 0 {
        assert(one + two =~= one);
    } else {
        assert((one + two).drop_last() =~= one + two.drop_last());
        lemma_total_adds(one, two.drop_last());
    }
}

/// The checksum is arithmetic: nothing adds up to zero, a byte to itself, and
/// two runs of bytes to the sum of what each adds up to, modulo 256.
pub proof fn law_checksums_add_up(byte: u8, one: Seq<u8>, two: Seq<u8>)
    ensures
        checksum_of(Seq::empty()) == 0,
        checksum_of(seq![byte]) == byte,
        checksum_of(one + two) as int == (checksum_of(one) + checksum_of(two)) % 256,
{
    assert(seq![byte].drop_last() =~= Seq::<u8>::empty());
    assert(total(seq![byte].drop_last()) == 0);
    lemma_total_adds(one, two);
    lemma_add_mod_noop(total(one) as int, total(two) as int, 256);
}

proof fn lemma_total_of_two(one: u8, two: u8)
    ensures
        total(seq![one, two]) == one + two,
{
    reveal_with_fuel(total, 3);
    assert(seq![one, two].drop_last() =~= seq![one]);
}

/// The three frames, byte for byte: the acknowledgement is `e5`; a short
/// frame is `10`, control, address, their sum, `16`; a long frame is `68`,
/// the length twice, `68`, control, address, control information, the data,
/// the sum of those, `16`. The length counts the data and three more, and
/// data over 252 bytes is refused.
pub proof fn law_frames_byte_for_byte(control: u8, address: u8, ci: u8, data: Seq<u8>)
    ensures
        FrameView::Ack.encoded() == Ok::<Seq<u8>, ErrorView>(seq![0xe5u8]),
        (FrameView::Short { control, address }).encoded() == Ok::<Seq<u8>, ErrorView>(
            seq![0x10u8, control, address, ((control + address) % 256) as u8, 0x16u8],
        ),
        data.len() <= 252 ==> (FrameView::Long { control, address, ci, data }).encoded() == Ok::<
            Seq<u8>,
            ErrorView,
        >(
            seq![
                0x68u8,
                (data.len() + 3) as u8,
                (data.len() + 3) as u8,
                0x68u8,
                control,
                address,
                ci,
            ] + data + seq![checksum_of(seq![control, address, ci] + data), 0x16u8],
        ),
        data.len() > 252 ==> (FrameView::Long { control, address, ci, data }).encoded() == Err::<
            Seq<u8>,
            ErrorView,
        >(ErrorView::OverLongFrame(data.len())),
{
    lemma_total_of_two(control, address);
    let short = FrameView::Short { control, address };
    assert(short.bytes() =~= seq![
        0x10u8,
        control,
        address,
        ((control + address) % 256) as u8,
        0x16u8,
    ]);
    let long = FrameView::Long { control, address, ci, data };
    if data.len() <= 252 {
        assert(long.bytes() =~= seq![
            0x68u8,
            (data.len() + 3) as u8,
            (data.len() + 3) as u8,
            0x68u8,
            control,
            address,
            ci,
        ] + data + seq![checksum_of(seq![control, address, ci] + data), 0x16u8]);
    }
}

/// Bytes decode to a frame exactly where they are that frame byte for byte:
/// each field of what is decoded stands in its place among the bytes.
pub proof fn law_fields_stand_in_their_places(
    bytes: Seq<u8>,
    control: u8,
    address: u8,
    ci: u8,
    data: Seq<u8>,
)
    ensures
        (decoded(bytes) == Ok::<FrameView, ErrorView>(FrameView::Ack)) == (bytes == seq![0xe5u8]),
        (decoded(bytes) == Ok::<FrameView, ErrorView>(FrameView::Short { control, address })) == (
        bytes == seq![0x10u8, control, address, ((control + address) % 256) as u8, 0x16u8]),
        (decoded(bytes) == Ok::<FrameView, ErrorView>(
            FrameView::Long { control, address, ci, data },
        )) == (data.len() <= 252 && bytes == seq![
            0x68u8,
            (data.len() + 3) as u8,
            (data.len() + 3) as u8,
            0x68u8,
            control,
            address,
            ci,
        ] + data + seq![checksum_of(seq![control, address, ci] + data), 0x16u8]),
{
    law_frames_byte_for_byte(control, address, ci, data);
    law_decode_undoes_encode(FrameView::Ack);
    law_decode_undoes_encode(FrameView::Short { control, address });
    if data.len() <= 252 {
        law_decode_undoes_encode(FrameView::Long { control, address, ci, data });
    }
    if decoded(bytes) is Ok {
        law_encode_undoes_decode(bytes);
    }
}

/// Why bytes are no frame: what has the start, the stop and the size of a
/// short or a long frame is refused for a length or a checksum that does not
/// agree, and for nothing else; all other bytes are no frame at all.
pub proof fn law_why_bytes_are_no_frame(bytes: Seq<u8>)
    ensures
        ({
            let n = bytes.len() as int;
            let short = n == 5 && bytes[0] == 0x10 && bytes[4] == 0x16;
            let long = n >= 6 && bytes[0] == 0x68 && bytes[3] == 0x68 && bytes[n - 1] == 0x16;
            let lengths = bytes[1] == bytes[2] && bytes[1] + 6 == n && bytes[1] >= 3;
            &&& (decoded(bytes) == Err::<FrameView, ErrorView>(ErrorView::ShortChecksum)) == (
            short && (bytes[1] + bytes[2]) % 256 != bytes[3])
            &&& (decoded(bytes) == Err::<FrameView, ErrorView>(ErrorView::LongLength)) == (long
                && !lengths)
            &&& (decoded(bytes) == Err::<FrameView, ErrorView>(ErrorView::LongChecksum)) == (long
                && lengths && checksum_of(bytes.subrange(4, n - 2)) != bytes[n - 2])
            &&& (decoded(bytes) == Err::<FrameView, ErrorView>(ErrorView::NoFrame)) == (!short
                && !long && bytes != seq![0xe5u8])
            &&& decoded(bytes) is Err ==> {
                ||| decoded(bytes)->Err_0 is ShortChecksum
                ||| decoded(bytes)->Err_0 is LongLength
                ||| decoded(bytes)->Err_0 is LongChecksum
                ||| decoded(bytes)->Err_0 is NoFrame
            }
        }),
{
    if bytes.len() == 5 {
        lemma_total_of_two(bytes[1], bytes[2]);
        assert(bytes.subrange(1, 3) =~= seq![bytes[1], bytes[2]]);
    }
    if bytes.len() == 1 && bytes[0] == 0xe5 {
        assert(bytes =~= seq![0xe5u8]);
    }
}

/// What the first bytes on a line say of the frame they open: an
/// acknowledgement is one byte, a short frame five, and a long frame six more
/// than its second byte; nothing is said before the first byte, nor of a long
/// frame before the second, and a byte that opens no frame is refused.
pub proof fn law_the_first_bytes_say_how_long(read: Seq<u8>)
    ensures
        read.len() == 0 ==> measured(read) == Ok::<Option<nat>, ErrorView>(None),
        read.len() > 0 && read[0] == 0xe5 ==> measured(read) == Ok::<Option<nat>, ErrorView>(
            Some(1),
        ),
        read.len() > 0 && read[0] == 0x10 ==> measured(read) == Ok::<Option<nat>, ErrorView>(
            Some(5),
        ),
        read.len() == 1 && read[0] == 0x68 ==> measured(read) == Ok::<Option<nat>, ErrorView>(
            None,
        ),
        read.len() > 1 && read[0] == 0x68 ==> measured(read) == Ok::<Option<nat>, ErrorView>(
            Some((6 + read[1]) as nat),
        ),
        read.len() > 0 && read[0] != 0xe5 && read[0] != 0x10 && read[0] != 0x68 ==> measured(read)
            == Err::<Option<nat>, ErrorView>(ErrorView::NoStart(read[0])),
{
}

/// How many bytes follow a start byte: none, four and three after the three
/// that open a frame, and no other opens one.
pub proof fn law_three_bytes_open_a_frame(first: u8)
    ensures
        first == 0xe5 ==> following_start(first) == Ok::<nat, ErrorView>(0),
        first == 0x10 ==> following_start(first) == Ok::<nat, ErrorView>(4),
        first == 0x68 ==> following_start(first) == Ok::<nat, ErrorView>(3),
        first != 0xe5 && first != 0x10 && first != 0x68 ==> following_start(first) == Err::<
            nat,
            ErrorView,
        >(ErrorView::NoStart(first)),
{
}

/// A list of bytes reads one byte after the other, with a comma and a space
/// in front of every one but the first.
pub proof fn law_a_list_reads_byte_after_byte(bytes: Seq<u8>, byte: u8)
    ensures
        list(Seq::empty()) == Seq::<char>::empty(),
        bytes.len() == 0 ==> list(bytes.push(byte)) == decimal(byte as nat),
        bytes.len() > 0 ==> list(bytes.push(byte)) == list(bytes) + seq![',', ' '] + decimal(
            byte as nat,
        ),
{
    reveal_strlit(", ");
    assert(bytes.push(byte).drop_last() =~= bytes);
    assert(", "@ =~= seq![',', ' ']);
}

/// A frame reads as its kind and every field it has, in order.
pub proof fn law_a_frame_reads_field_by_field(control: u8, address: u8, ci: u8, data: Seq<u8>)
    ensures
        FrameView::Ack.text() == "Ack"@,
        (FrameView::Short { control, address }).text() == "Short { control: "@ + decimal(
            control as nat,
        ) + ", address: "@ + decimal(address as nat) + " }"@,
        (FrameView::Long { control, address, ci, data }).text() == "Long { control: "@ + decimal(
            control as nat,
        ) + ", address: "@ + decimal(address as nat) + ", ci: "@ + decimal(ci as nat)
            + ", data: ["@ + list(data) + "] }"@,
{
}

/// A frame is seen whole: its kind and every field of it.
pub proof fn law_a_frame_is_seen_whole(frame: Frame)
    ensures
        match frame {
            Frame::Ack => frame@ is Ack,
            Frame::Short { control, address } => frame@ is Short && frame@->Short_control
                == control && frame@->Short_address == address,
            Frame::Long { control, address, ci, data } => frame@ is Long && frame@->Long_control
                == control && frame@->Long_address == address && frame@->ci == ci && frame@->data
                == data@,
        },
{
}

} // verus!

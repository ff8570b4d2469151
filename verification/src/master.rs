//! The master's side of a line: what it transmits, and what it makes of
//! what comes back.
//!
//! A call (an exchange, an initialisation, a write, a read) is a
//! conversation: the master transmits a frame, whoever owns the line waits
//! for the answer, and the master decides from the answer what comes next.
//! [`MBusTransport`] is those decisions. Opening a call gives the first
//! [`Step`]; while a step is [`Step::Transmit`], the owner of the line
//! transmits its bytes, receives what is answered within the timeout and
//! hands it to [`MBusTransport::resume`].

use std::collections::VecDeque;
use std::time::Duration;

use vstd::prelude::*;

#[allow(unused_imports)]
use crate::error::{viewed, ErrorView, MBusError};
#[allow(unused_imports)]
use crate::frame::{
    decoded, law_decode_undoes_encode, law_encode_undoes_decode, law_fields_stand_in_their_places,
    law_frames_byte_for_byte, Frame, FrameView, FCB, MAX_USER_DATA, REQ_UD2, RSP_UD, SND_NKE,
    SND_UD,
};
use crate::meter::queue;
#[allow(unused_imports)]
use crate::record::{
    law_bodies_fit_their_room, pack, packed, unpack, unpacked, views, CI_DATA_SEND,
    CI_VARIABLE_LONG,
};
#[allow(unused_imports)]
use crate::text::{
    decimal, law_decimal_is_positional, law_padding_is_zeros_in_front, padded, push_decimal,
};

verus! {

/// The length of a wired answer's header.
pub const LONG_HEADER: usize = 12;

/// The room a wired answer leaves for records: a long frame's user data
/// less the long header.
pub const ANSWER_ROOM: usize = MAX_USER_DATA - 12;

/// The time `Duration::from_secs` makes of `secs`.
pub uninterp spec fn whole_seconds(secs: u64) -> Duration;

/// `Duration::from_secs`: the time is the same for the same seconds.
pub assume_specification[ Duration::from_secs ](secs: u64) -> (time: Duration)
    ensures
        time == whole_seconds(secs),
;

/// The master's side of a line.
///
/// There is one master to a frame count: it has no copies, and several who
/// talk as one master share it.
pub struct MBusTransport {
    /// What the line is called.
    pub line: String,
    /// The primary address of the meter the master reads.
    pub address: u8,
    /// How long a meter has to answer.
    pub timeout: Duration,
    /// The frame count bit of the next call.
    pub fcb: bool,
}

/// What a master knows between calls.
#[verifier::ext_equal]
pub struct MasterView {
    pub line: Seq<char>,
    pub address: u8,
    pub timeout: Duration,
    pub fcb: bool,
}

impl View for MBusTransport {
    type V = MasterView;

    open spec fn view(&self) -> MasterView {
        MasterView {
            line: self.line@,
            address: self.address,
            timeout: self.timeout,
            fcb: self.fcb,
        }
    }
}

/// A call whose answer is awaited.
pub enum Call {
    /// One frame, answered by whatever frame comes.
    Exchange,
    /// An initialisation, to be acknowledged.
    Initialise,
    /// A write: the telegram on the line is to be acknowledged, `bodies` are
    /// yet to be sent.
    Write { address: u8, bodies: VecDeque<Vec<u8>> },
    /// A read: `bytes` have come so far.
    Read { bytes: Vec<u8> },
}

/// What a [`Call`] waits for, with sequences for its contents.
#[verifier::ext_equal]
pub enum CallView {
    Exchange,
    Initialise,
    Write { address: u8, bodies: Seq<Seq<u8>> },
    Read { bytes: Seq<u8> },
}

impl View for Call {
    type V = CallView;

    open spec fn view(&self) -> CallView {
        match *self {
            Call::Exchange => CallView::Exchange,
            Call::Initialise => CallView::Initialise,
            Call::Write { address, bodies } => CallView::Write { address, bodies: views(bodies@) },
            Call::Read { bytes } => CallView::Read { bytes: bytes@ },
        }
    }
}

/// A Stream, and where it came from.
#[derive(Clone, Debug, PartialEq, Eq)]
pub struct Arrived {
    /// The line and the address of the meter that held it.
    pub origin_uri: String,
    pub bytes: Vec<u8>,
}

/// What the owner of the line does next.
pub enum Step {
    /// Transmit the bytes, receive the answer, and resume the call with it.
    Transmit { bytes: Vec<u8>, call: Call },
    /// The exchange is over; this is the answer.
    Answered(Frame),
    /// The initialisation or the write is over.
    Done,
    /// The read is over; this is the Stream.
    Read(Arrived),
}

/// What a [`Step`] says, with sequences for its contents.
#[verifier::ext_equal]
pub enum StepView {
    Transmit { bytes: Seq<u8>, call: CallView },
    Answered(FrameView),
    Done,
    Read { origin_uri: Seq<char>, bytes: Seq<u8> },
}

impl View for Step {
    type V = StepView;

    open spec fn view(&self) -> StepView {
        match *self {
            Step::Transmit { bytes, call } => StepView::Transmit { bytes: bytes@, call: call@ },
            Step::Answered(answer) => StepView::Answered(answer@),
            Step::Done => StepView::Done,
            Step::Read(arrived) => StepView::Read {
                origin_uri: arrived.origin_uri@,
                bytes: arrived.bytes@,
            },
        }
    }
}

/// What a control field asks for: its four lowest bits.
pub open spec fn function_of(control: u8) -> u8 {
    control % 16
}

/// The records behind a wired answer's header; none where the header itself
/// is cut short.
pub open spec fn behind_header(data: Seq<u8>) -> Seq<u8> {
    if data.len() < LONG_HEADER {
        Seq::empty()
    } else {
        data.skip(LONG_HEADER as int)
    }
}

/// The number decimal digits spell.
pub open spec fn number(digits: Seq<char>) -> nat
    decreases digits.len(),
{
    if digits.len() == 0 {
        0
    } else {
        number(digits.drop_last()) * 10 + (digits.last() as nat - '0' as nat) as nat
    }
}

/// Whether `text` is decimal digits and nothing else.
pub open spec fn all_digits(text: Seq<char>) -> bool {
    forall|i: int| 0 <= i < text.len() ==> '0' <= #[trigger] text[i] <= '9'
}

/// What follows a plus sign in front of `text`, or `text` where there is
/// none.
pub open spec fn unsigned(text: Seq<char>) -> Seq<char> {
    if text.len() > 0 && text[0] == '+' {
        text.skip(1)
    } else {
        text
    }
}

/// The primary address `text` spells: one decimal digit or more, a plus
/// sign in front or none, at most 255.
pub open spec fn primary_address(text: Seq<char>) -> Option<u8> {
    let digits = unsigned(text);
    if digits.len() > 0 && all_digits(digits) && number(digits) <= 255 {
        Some(number(digits) as u8)
    } else {
        None
    }
}

impl MasterView {
    /// The control field with this call's frame count bit.
    pub open spec fn counted(self, base: u8) -> u8 {
        if self.fcb {
            base | FCB
        } else {
            base
        }
    }

    /// `mbus://<line>/<address>`.
    pub open spec fn origin(self, address: u8) -> Seq<char> {
        "mbus://"@ + self.line + "/"@ + decimal(address as nat)
    }

    /// The step that puts `frame` on the line for `call`.
    pub open spec fn transmitting(self, frame: FrameView, call: CallView) -> Result<
        StepView,
        ErrorView,
    > {
        match frame.encoded() {
            Ok(bytes) => Ok(StepView::Transmit { bytes, call }),
            Err(error) => Err(error),
        }
    }

    /// The step that sends the first of `bodies` to the meter at `address`.
    pub open spec fn writing(self, address: u8, bodies: Seq<Seq<u8>>) -> Result<
        StepView,
        ErrorView,
    > {
        self.transmitting(
            FrameView::Long {
                control: self.counted(SND_UD),
                address,
                ci: CI_DATA_SEND,
                data: bodies[0],
            },
            CallView::Write { address, bodies: bodies.drop_first() },
        )
    }

    /// The step that asks the meter for a telegram, `bytes` having come.
    pub open spec fn reading(self, bytes: Seq<u8>) -> Result<StepView, ErrorView> {
        self.transmitting(
            FrameView::Short { control: self.counted(REQ_UD2), address: self.address },
            CallView::Read { bytes },
        )
    }

    /// The first step of a write.
    pub open spec fn opening_write(self, address: u8, payload: Seq<u8>) -> Result<
        StepView,
        ErrorView,
    > {
        match packed(payload, MAX_USER_DATA as nat) {
            Ok(bodies) => self.writing(address, bodies),
            Err(error) => Err(error),
        }
    }

    /// The master before an initialisation: the frame count starts over.
    pub open spec fn starting_over(self) -> MasterView {
        MasterView { fcb: false, ..self }
    }

    /// The first step of an initialisation.
    pub open spec fn opening_initialise(self, address: u8) -> Result<StepView, ErrorView> {
        self.transmitting(
            FrameView::Short { control: SND_NKE, address },
            CallView::Initialise,
        )
    }

    /// The meter a target names: the address in it, or the master's own
    /// where it names none.
    pub open spec fn destination(self, named: Option<Seq<char>>) -> Result<u8, ErrorView> {
        match named {
            Some(text) => if text.len() == 0 {
                Ok(self.address)
            } else {
                match primary_address(text) {
                    Some(address) => Ok(address),
                    None => Err(ErrorView::NotAnAddress(text)),
                }
            },
            None => Ok(self.address),
        }
    }

    /// The master once it has heard `received`, and the frame that was: a
    /// frame moves the frame count, silence and noise do not.
    pub open spec fn hearing(self, received: Option<Seq<u8>>) -> (
        MasterView,
        Result<FrameView, ErrorView>,
    ) {
        match received {
            None => (self, Err(ErrorView::Silence)),
            Some(bytes) => match decoded(bytes) {
                Ok(answer) => (MasterView { fcb: !self.fcb, ..self }, Ok(answer)),
                Err(error) => (self, Err(error)),
            },
        }
    }

    /// What a read makes of `answer`, `bytes` having come before it: the
    /// Stream, the request for the next telegram, or a refusal.
    pub open spec fn reading_on(self, bytes: Seq<u8>, answer: FrameView) -> Result<
        StepView,
        ErrorView,
    > {
        if answer is Long && answer->ci == CI_VARIABLE_LONG && function_of(answer->Long_control)
            == RSP_UD {
            match unpacked(behind_header(answer->data)) {
                Err(error) => Err(error),
                Ok((chunk, true)) => self.reading(bytes + chunk),
                Ok((chunk, false)) => Ok(
                    StepView::Read {
                        origin_uri: self.origin(self.address),
                        bytes: bytes + chunk,
                    },
                ),
            }
        } else {
            Err(ErrorView::NotTheData(answer))
        }
    }

    /// The master once `call` has heard `received`, and its next step.
    pub open spec fn resuming(self, call: CallView, received: Option<Seq<u8>>) -> (
        MasterView,
        Result<StepView, ErrorView>,
    ) {
        let (master, heard) = self.hearing(received);
        match heard {
            Err(error) => (master, Err(error)),
            Ok(answer) => match call {
                CallView::Exchange => (master, Ok(StepView::Answered(answer))),
                CallView::Initialise => if answer is Ack {
                    (MasterView { fcb: true, ..master }, Ok(StepView::Done))
                } else {
                    (master, Err(ErrorView::NotAcknowledged(answer)))
                },
                CallView::Write { address, bodies } => if answer !is Ack {
                    (master, Err(ErrorView::NotAcknowledged(answer)))
                } else if bodies.len() == 0 {
                    (master, Ok(StepView::Done))
                } else {
                    (master, master.writing(address, bodies))
                },
                CallView::Read { bytes } => (master, master.reading_on(bytes, answer)),
            },
        }
    }
}

impl MBusTransport {
    /// A master on the line called `line`, talking to the meter at primary
    /// `address`, which has a second to answer.
    #[must_use]
    pub fn new(line: String, address: u8) -> (master: MBusTransport)
        ensures
            master@ == (MasterView {
                line: line@,
                address,
                timeout: whole_seconds(1),
                fcb: true,
            }),
    {
        MBusTransport { line, address, timeout: Duration::from_secs(1), fcb: true }
    }

    /// Give up on a meter that does not answer within `timeout`.
    #[must_use]
    pub fn timing_out_after(self, timeout: Duration) -> (master: MBusTransport)
        ensures
            master@ == (MasterView { timeout, ..self@ }),
    {
        MBusTransport { line: self.line, address: self.address, timeout, fcb: self.fcb }
    }

    /// `mbus://<line>/<address>`.
    #[must_use]
    pub fn origin(&self, address: u8) -> (uri: String)
        ensures
            uri@ == self@.origin(address),
    {
        let mut uri = String::new();
        uri.append("mbus://");
        uri.append(self.line.as_str());
        uri.append("/");
        push_decimal(&mut uri, address as u64);
        assert(uri@ =~= self@.origin(address));
        uri
    }

    /// The name of the technology.
    #[must_use]
    pub fn name(&self) -> (name: &'static str)
        ensures
            name@ == "m-bus"@,
    {
        "m-bus"
    }

    /// The control field with this call's frame count bit.
    #[must_use]
    pub fn control(&self, base: u8) -> (control: u8)
        ensures
            control == self@.counted(base),
    {
        if self.fcb {
            base | FCB
        } else {
            base
        }
    }

    /// Put `frame` on the line for `call`.
    fn transmit(&self, frame: &Frame, call: Call) -> (result: Result<Step, MBusError>)
        ensures
            viewed(result) == self@.transmitting(frame@, call@),
    {
        match frame.encode() {
            Ok(bytes) => Ok(Step::Transmit { bytes, call }),
            Err(error) => Err(error),
        }
    }

    /// Send `frame` and take the meter's answer.
    ///
    /// # Errors
    /// A frame no line carries.
    pub fn exchange(&self, frame: &Frame) -> (result: Result<Step, MBusError>)
        ensures
            viewed(result) == self@.transmitting(frame@, CallView::Exchange),
    {
        self.transmit(frame, Call::Exchange)
    }

    /// `SND_NKE`: initialise the meter at `address`. The frame count starts
    /// over, and is set once the meter has acknowledged.
    ///
    /// # Errors
    /// None: a short frame always fits the line.
    pub fn initialise(&mut self, address: u8) -> (result: Result<Step, MBusError>)
        ensures
            final(self)@ == old(self)@.starting_over(),
            viewed(result) == old(self)@.opening_initialise(address),
            result is Ok,
    {
        self.fcb = false;
        let frame = Frame::Short { control: SND_NKE, address };
        self.transmit(&frame, Call::Initialise)
    }

    /// Send the telegram at the front of `bodies` to the meter at `address`.
    fn write_next(&self, address: u8, bodies: VecDeque<Vec<u8>>) -> (result: Result<
        Step,
        MBusError,
    >)
        requires
            bodies@.len() > 0,
        ensures
            viewed(result) == self@.writing(address, views(bodies@)),
    {
        let ghost queued = views(bodies@);
        let mut bodies = bodies;
        match bodies.pop_front() {
            Some(data) => {
                assert(views(bodies@) =~= queued.drop_first());
                let frame = Frame::Long {
                    control: self.control(SND_UD),
                    address,
                    ci: CI_DATA_SEND,
                    data,
                };
                self.transmit(&frame, Call::Write { address, bodies })
            },
            None => Err(MBusError::NothingToGive),
        }
    }

    /// Write `bytes` to the meter at `address`, a telegram of records at a
    /// time, each to be acknowledged.
    ///
    /// # Errors
    /// None: every telegram fits the line.
    pub fn write_stream(&self, address: u8, bytes: &[u8]) -> (result: Result<Step, MBusError>)
        ensures
            viewed(result) == self@.opening_write(address, bytes@),
            result is Ok,
    {
        proof {
            law_bodies_fit_their_room(bytes@, MAX_USER_DATA as nat);
        }
        match pack(bytes, MAX_USER_DATA) {
            Ok(bodies) => {
                let bodies = queue(bodies);
                self.write_next(address, bodies)
            },
            Err(error) => Err(error),
        }
    }

    /// Write `bytes` to the meter a target names: `named` is the address in
    /// the target, which overrides the master's own unless it is absent or
    /// empty.
    ///
    /// # Errors
    /// An address that is no number of a primary address.
    pub fn send(&self, named: Option<&str>, bytes: &[u8]) -> (result: Result<Step, MBusError>)
        ensures
            viewed(result) == match self@.destination(
                match named {
                    Some(text) => Some(text@),
                    None => None,
                },
            ) {
                Ok(address) => self@.opening_write(address, bytes@),
                Err(error) => Err(error),
            },
    {
        let address: u8 = match named {
            Some(text) => if text.unicode_len() == 0 {
                self.address
            } else {
                match parse_address(text) {
                    Some(address) => address,
                    None => {
                        let mut refused = String::new();
                        refused.append(text);
                        assert(refused@ =~= text@);
                        return Err(MBusError::NotAnAddress(refused));
                    },
                }
            },
            None => self.address,
        };
        self.write_stream(address, bytes)
    }

    /// Ask the meter for a telegram, `bytes` having come so far.
    fn read_next(&self, bytes: Vec<u8>) -> (result: Result<Step, MBusError>)
        ensures
            viewed(result) == self@.reading(bytes@),
            result is Ok,
    {
        let frame = Frame::Short { control: self.control(REQ_UD2), address: self.address };
        self.transmit(&frame, Call::Read { bytes })
    }

    /// Read the Stream the meter holds, a telegram of records at a time.
    ///
    /// # Errors
    /// None: a short frame always fits the line.
    pub fn read_stream(&self) -> (result: Result<Step, MBusError>)
        ensures
            viewed(result) == self@.reading(Seq::empty()),
            result is Ok,
    {
        let bytes: Vec<u8> = Vec::new();
        self.read_next(bytes)
    }

    /// Take what came back within the timeout, if anything did.
    ///
    /// # Errors
    /// No answer in time, or an answer that is no frame.
    fn hear(&mut self, received: Option<&[u8]>) -> (result: Result<Frame, MBusError>)
        ensures
            (final(self)@, viewed(result)) == old(self)@.hearing(
                match received {
                    Some(bytes) => Some(bytes@),
                    None => None,
                },
            ),
    {
        match received {
            None => Err(MBusError::Silence),
            Some(bytes) => match Frame::decode(bytes) {
                Ok(answer) => {
                    self.fcb = !self.fcb;
                    Ok(answer)
                },
                Err(error) => Err(error),
            },
        }
    }

    /// What a read makes of `answer`, `bytes` having come before it.
    fn read_on(&self, bytes: Vec<u8>, answer: Frame) -> (result: Result<Step, MBusError>)
        ensures
            viewed(result) == self@.reading_on(bytes@, answer@),
    {
        let chunk = match &answer {
            Frame::Long { control, address: _, ci, data } => {
                let control: u8 = *control;
                assert(control & 0x0f == control % 16) by (bit_vector);
                if *ci == CI_VARIABLE_LONG && control & 0x0f == RSP_UD {
                    if data.len() < LONG_HEADER {
                        let none: Vec<u8> = Vec::new();
                        assert(none@ =~= behind_header(data@));
                        Some(unpack(none.as_slice()))
                    } else {
                        let records = &data.as_slice()[LONG_HEADER..data.len()];
                        assert(records@ =~= behind_header(data@));
                        Some(unpack(records))
                    }
                } else {
                    None
                }
            },
            _ => None,
        };
        match chunk {
            None => Err(MBusError::NotTheData(answer)),
            Some(Err(error)) => Err(error),
            Some(Ok((chunk, more))) => {
                let ghost before = bytes@;
                let mut bytes = bytes;
                bytes.extend_from_slice(chunk.as_slice());
                assert(bytes@ =~= before + chunk@);
                if more {
                    self.read_next(bytes)
                } else {
                    let origin_uri = self.origin(self.address);
                    Ok(Step::Read(Arrived { origin_uri, bytes }))
                }
            },
        }
    }

    /// Go on with `call` once the line has given `received` for the frame it
    /// carried: the bytes of an answer, or nothing within the timeout.
    ///
    /// # Errors
    /// No answer in time, an answer that is no frame, a telegram not
    /// acknowledged, an answer that is not the meter's data, or records that
    /// are no Stream.
    pub fn resume(&mut self, call: Call, received: Option<&[u8]>) -> (result: Result<
        Step,
        MBusError,
    >)
        ensures
            (final(self)@, viewed(result)) == old(self)@.resuming(
                call@,
                match received {
                    Some(bytes) => Some(bytes@),
                    None => None,
                },
            ),
    {
        let answer = match self.hear(received) {
            Ok(answer) => answer,
            Err(error) => return Err(error),
        };
        match call {
            Call::Exchange => Ok(Step::Answered(answer)),
            Call::Initialise => match acknowledged(answer) {
                Ok(()) => {
                    self.fcb = true;
                    Ok(Step::Done)
                },
                Err(error) => Err(error),
            },
            Call::Write { address, bodies } => match acknowledged(answer) {
                Ok(()) => if bodies.len() == 0 {
                    Ok(Step::Done)
                } else {
                    self.write_next(address, bodies)
                },
                Err(error) => Err(error),
            },
            Call::Read { bytes } => self.read_on(bytes, answer),
        }
    }
}

/// Whether `answer` is the acknowledgement that was due.
///
/// # Errors
/// Any other frame.
pub fn acknowledged(answer: Frame) -> (result: Result<(), MBusError>)
    ensures
        match result {
            Ok(()) => answer@ is Ack,
            Err(error) => answer@ !is Ack && error@ == ErrorView::NotAcknowledged(answer@),
        },
{
    match answer {
        Frame::Ack => Ok(()),
        other => Err(MBusError::NotAcknowledged(other)),
    }
}

/// Digits spell no less than what opens them.
proof fn lemma_number_grows(digits: Seq<char>, n: int)
    requires
        0 <= n <= digits.len(),
        all_digits(digits),
    ensures
        number(digits.take(n)) <= number(digits),
    decreases digits.len(),
{
    if n < digits.len() {
        assert(digits.take(n) =~= digits.drop_last().take(n));
        lemma_number_grows(digits.drop_last(), n);
    } else {
        assert(digits.take(n) =~= digits);
    }
}

/// The primary address `text` spells, if it spells one.
fn parse_address(text: &str) -> (address: Option<u8>)
    ensures
        address == primary_address(text@),
{
    let length: usize = text.unicode_len();
    let start: usize = if length > 0 && text.get_char(0) == '+' {
        1
    } else {
        0
    };
    if length == start {
        return None;
    }
    let ghost digits = unsigned(text@);
    assert(digits =~= text@.skip(start as int));
    let mut value: u32 = 0;
    let mut at: usize = start;
    assert(digits.take(0) =~= Seq::<char>::empty());
    while at < length
        invariant
            length == text@.len(),
            start <= at <= length,
            digits == unsigned(text@),
            digits == text@.skip(start as int),
            digits.len() > 0,
            value <= 255,
            value == number(digits.take(at - start)),
            all_digits(digits.take(at - start)),
        decreases length - at,
    {
        let c: char = text.get_char(at);
        let n: usize = at - start;
        assert(digits[n as int] == c);
        if c < '0' || c > '9' {
            return None;
        }
        assert(digits.take(n + 1).drop_last() =~= digits.take(n as int));
        assert forall|i: int| 0 <= i < n + 1 implies '0' <= #[trigger] digits.take(n + 1)[i]
            <= '9' by {
            if i < n {
                assert(digits.take(n + 1)[i] == digits.take(n as int)[i]);
            }
        }
        value = value * 10 + (c as u32 - '0' as u32);
        if value > 255 {
            proof {
                if all_digits(digits) {
                    lemma_number_grows(digits, n + 1);
                }
            }
            return None;
        }
        at = at + 1;
    }
    assert(digits.take(at - start) =~= digits);
    Some(value as u8)
}

/// The frame count bit changes nothing a control field asks for.
pub proof fn law_the_count_is_no_part_of_the_function(master: MasterView, base: u8)
    ensures
        function_of(master.counted(base)) == function_of(base),
{
    assert((base | 0x20u8) % 16 == base % 16) by (bit_vector);
}

/// The frame count follows the frames: a call toggles the bit for a frame
/// that comes back, whatever the frame, and leaves it after silence and
/// noise. Only an initialisation that is acknowledged sets it.
pub proof fn law_the_count_follows_the_frames(
    master: MasterView,
    call: CallView,
    received: Option<Seq<u8>>,
)
    ensures
        ({
            let heard = received is Some && decoded(received->Some_0) is Ok;
            let (after, step) = master.resuming(call, received);
            &&& after == (MasterView { fcb: after.fcb, ..master })
            &&& !heard ==> after == master && step is Err
            &&& heard && call !is Initialise ==> after.fcb == !master.fcb
            &&& heard && call is Initialise && step is Ok ==> after.fcb
            &&& heard && call is Initialise && step is Err ==> after.fcb == !master.fcb
        }),
{
}

/// Decimal is digits, at least one, that spell the number.
proof fn lemma_decimal_spells(n: nat)
    ensures
        decimal(n).len() > 0,
        all_digits(decimal(n)),
        number(decimal(n)) == n,
    decreases n,
{
    if n < 10 {
        assert(decimal(n).drop_last() =~= Seq::<char>::empty());
        assert(number(decimal(n).drop_last()) == 0);
    } else {
        lemma_decimal_spells(n / 10);
        let front = decimal(n / 10);
        assert(decimal(n).drop_last() =~= front);
        assert forall|i: int| 0 <= i < decimal(n).len() implies '0' <= #[trigger] decimal(n)[i]
            <= '9' by {
            if i < front.len() {
                assert(decimal(n)[i] == front[i]);
            }
        }
    }
}

/// Every primary address reads back from its decimal, which is what an
/// origin closes with and a target takes.
pub proof fn law_an_address_reads_back(master: MasterView, address: u8)
    ensures
        master.destination(Some(decimal(address as nat))) == Ok::<u8, ErrorView>(address),
{
    let text = decimal(address as nat);
    lemma_decimal_spells(address as nat);
    assert('0' <= text[0] <= '9');
    assert(unsigned(text) == text);
}

/// The frame count bit is bit 5 of a control field: set where the count is,
/// and no other bit moved.
pub proof fn law_the_count_is_one_bit(master: MasterView, base: u8)
    ensures
        master.fcb ==> master.counted(base) == base | 0x20,
        !master.fcb ==> master.counted(base) == base,
{
}

/// What a step puts on the line is the frame, byte for byte as it encodes,
/// and a frame that does not encode is refused as it is.
pub proof fn law_a_step_carries_the_frame(master: MasterView, frame: FrameView, call: CallView)
    ensures
        match frame.encoded() {
            Ok(bytes) => {
                &&& master.transmitting(frame, call) == Ok::<StepView, ErrorView>(
                    StepView::Transmit { bytes, call },
                )
                &&& decoded(bytes) == Ok::<FrameView, ErrorView>(frame)
            },
            Err(error) => master.transmitting(frame, call) == Err::<StepView, ErrorView>(error),
        },
{
    if frame.fits() {
        law_decode_undoes_encode(frame);
    }
}

/// An initialisation transmits `10 40`, the address, their sum and `16`,
/// whatever the frame count; the count starts over, and nothing else of the
/// master changes.
pub proof fn law_an_initialisation_on_the_line(master: MasterView, address: u8)
    ensures
        master.opening_initialise(address) == Ok::<StepView, ErrorView>(
            StepView::Transmit {
                bytes: seq![0x10u8, 0x40u8, address, ((0x40 + address) % 256) as u8, 0x16u8],
                call: CallView::Initialise,
            },
        ),
        decoded(seq![0x10u8, 0x40u8, address, ((0x40 + address) % 256) as u8, 0x16u8]) == Ok::<
            FrameView,
            ErrorView,
        >(FrameView::Short { control: 0x40, address }),
        !master.starting_over().fcb,
        master.starting_over().line == master.line,
        master.starting_over().address == master.address,
        master.starting_over().timeout == master.timeout,
{
    law_frames_byte_for_byte(0x40, address, 0, Seq::empty());
    law_decode_undoes_encode(FrameView::Short { control: 0x40, address });
}

/// A telegram of a write on the line is a long frame to the address, `51`,
/// with the telegram for its data: its control is `73` where the count is
/// set, `53` where it is not. The telegrams behind it wait for the
/// acknowledgement. A telegram over 252 bytes is refused.
pub proof fn law_a_write_on_the_line(master: MasterView, address: u8, bodies: Seq<Seq<u8>>)
    requires
        bodies.len() > 0,
    ensures
        bodies[0].len() <= 252 ==> {
            &&& master.writing(address, bodies) is Ok
            &&& master.writing(address, bodies)->Ok_0 matches StepView::Transmit { bytes, call }
                && decoded(bytes) == Ok::<FrameView, ErrorView>(
                FrameView::Long {
                    control: if master.fcb {
                        0x73
                    } else {
                        0x53
                    },
                    address,
                    ci: 0x51,
                    data: bodies[0],
                },
            ) && call == (CallView::Write { address, bodies: bodies.skip(1) })
        },
        bodies[0].len() > 252 ==> master.writing(address, bodies) == Err::<StepView, ErrorView>(
            ErrorView::OverLongFrame(bodies[0].len()),
        ),
{
    assert(0x53u8 | 0x20 == 0x73) by (bit_vector);
    assert(bodies.drop_first() =~= bodies.skip(1));
    if bodies[0].len() <= 252 {
        law_decode_undoes_encode(
            FrameView::Long {
                control: master.counted(SND_UD),
                address,
                ci: CI_DATA_SEND,
                data: bodies[0],
            },
        );
    }
}

/// A write opens with the first of the telegrams its Stream is told in, in
/// 252 bytes of room each, and keeps the others in order.
pub proof fn law_a_write_opens_with_the_first_telegram(
    master: MasterView,
    address: u8,
    payload: Seq<u8>,
)
    ensures
        ({
            let bodies = packed(payload, 252)->Ok_0;
            &&& packed(payload, 252) is Ok
            &&& bodies.len() > 0
            &&& bodies[0].len() <= 252
            &&& master.opening_write(address, payload) is Ok
            &&& master.opening_write(address, payload)->Ok_0 matches StepView::Transmit {
                bytes,
                call,
            } && decoded(bytes) == Ok::<FrameView, ErrorView>(
                FrameView::Long {
                    control: if master.fcb {
                        0x73
                    } else {
                        0x53
                    },
                    address,
                    ci: 0x51,
                    data: bodies[0],
                },
            ) && call == (CallView::Write { address, bodies: bodies.skip(1) })
        }),
{
    law_bodies_fit_their_room(payload, 252);
    let bodies = packed(payload, 252)->Ok_0;
    assert(bodies[0].len() <= 252);
    law_a_write_on_the_line(master, address, bodies);
}

/// A write goes on with the next telegram once the last is acknowledged, at
/// the other frame count, and is done when none is left.
pub proof fn law_a_write_goes_on_when_acknowledged(
    master: MasterView,
    address: u8,
    bodies: Seq<Seq<u8>>,
)
    ensures
        ({
            let (after, step) = master.resuming(
                CallView::Write { address, bodies },
                Some(seq![0xe5u8]),
            );
            &&& after == (MasterView { fcb: !master.fcb, ..master })
            &&& bodies.len() == 0 ==> step == Ok::<StepView, ErrorView>(StepView::Done)
            &&& bodies.len() > 0 && bodies[0].len() > 252 ==> step == Err::<StepView, ErrorView>(
                ErrorView::OverLongFrame(bodies[0].len()),
            )
            &&& bodies.len() > 0 && bodies[0].len() <= 252 ==> {
                &&& step is Ok
                &&& step->Ok_0 matches StepView::Transmit { bytes, call } && decoded(bytes)
                    == Ok::<FrameView, ErrorView>(
                    FrameView::Long {
                        control: if master.fcb {
                            0x53
                        } else {
                            0x73
                        },
                        address,
                        ci: 0x51,
                        data: bodies[0],
                    },
                ) && call == (CallView::Write { address, bodies: bodies.skip(1) })
            }
        }),
{
    law_fields_stand_in_their_places(seq![0xe5u8], 0, 0, 0, Seq::empty());
    if bodies.len() > 0 {
        law_a_write_on_the_line(MasterView { fcb: !master.fcb, ..master }, address, bodies);
    }
}

/// Two telegrams of one write, sent one after the other, differ in the frame
/// count bit of their control fields and in no other bit of them.
pub proof fn law_consecutive_telegrams_count(
    master: MasterView,
    address: u8,
    bodies: Seq<Seq<u8>>,
)
    requires
        bodies.len() >= 2,
        bodies[0].len() <= 252,
        bodies[1].len() <= 252,
    ensures
        ({
            let first = master.writing(address, bodies)->Ok_0;
            let second = master.resuming(first->call, Some(seq![0xe5u8])).1->Ok_0;
            let one = decoded(first->Transmit_bytes)->Ok_0;
            let two = decoded(second->Transmit_bytes)->Ok_0;
            &&& one is Long && two is Long
            &&& one->Long_control ^ two->Long_control == 0x20
            &&& one->Long_address == two->Long_address
            &&& one->data == bodies[0]
            &&& two->data == bodies[1]
        }),
{
    law_a_write_on_the_line(master, address, bodies);
    law_a_write_goes_on_when_acknowledged(master, address, bodies.skip(1));
    assert(bodies.skip(1)[0] == bodies[1]);
    assert(0x73u8 ^ 0x53 == 0x20 && 0x53u8 ^ 0x73 == 0x20) by (bit_vector);
}

/// A request for data on the line is `10`, `7b` where the count is set and
/// `5b` where it is not, the address of the master's meter, their sum and
/// `16`; what has come so far is kept.
pub proof fn law_a_request_on_the_line(master: MasterView, bytes: Seq<u8>)
    ensures
        ({
            let control: u8 = if master.fcb {
                0x7b
            } else {
                0x5b
            };
            master.reading(bytes) == Ok::<StepView, ErrorView>(
                StepView::Transmit {
                    bytes: seq![
                        0x10u8,
                        control,
                        master.address,
                        ((control + master.address) % 256) as u8,
                        0x16u8,
                    ],
                    call: CallView::Read { bytes },
                },
            )
        }),
{
    assert(0x5bu8 | 0x20 == 0x7b) by (bit_vector);
    law_frames_byte_for_byte(master.counted(REQ_UD2), master.address, 0, Seq::empty());
}

/// A read goes on with what the meter's data carries behind its twelve bytes
/// of header: it is put behind what came before, and the read asks for the
/// next telegram at the other frame count where more follow, or ends with the
/// Stream. Any frame that is not `72` of `RSP_UD` is refused, and so are
/// records that are no Stream.
pub proof fn law_a_read_goes_on_with_the_meters_data(
    master: MasterView,
    so_far: Seq<u8>,
    received: Seq<u8>,
    answer: FrameView,
)
    requires
        decoded(received) == Ok::<FrameView, ErrorView>(answer),
    ensures
        ({
            let (after, step) = master.resuming(CallView::Read { bytes: so_far }, Some(received));
            let turned = MasterView { fcb: !master.fcb, ..master };
            &&& after == turned
            &&& match answer {
                FrameView::Long { control, address, ci, data } => if control % 16 == 8 && ci
                    == 0x72 {
                    match unpacked(
                        if data.len() < 12 {
                            Seq::empty()
                        } else {
                            data.skip(12)
                        },
                    ) {
                        Err(error) => step == Err::<StepView, ErrorView>(error),
                        Ok((chunk, more)) => {
                            &&& more ==> step == turned.reading(so_far + chunk)
                            &&& !more ==> step == Ok::<StepView, ErrorView>(
                                StepView::Read {
                                    origin_uri: master.origin(master.address),
                                    bytes: so_far + chunk,
                                },
                            )
                        },
                    }
                } else {
                    step == Err::<StepView, ErrorView>(ErrorView::NotTheData(answer))
                },
                _ => step == Err::<StepView, ErrorView>(ErrorView::NotTheData(answer)),
            }
        }),
{
}

/// An exchange ends with exactly the frame that came back: whatever frame the
/// bytes on the line are is the answer, and the frame whose bytes they are is
/// the only one they can be.
pub proof fn law_an_exchange_hands_back_the_answer(
    master: MasterView,
    received: Seq<u8>,
    answer: FrameView,
)
    ensures
        decoded(received) == Ok::<FrameView, ErrorView>(answer) ==> master.resuming(
            CallView::Exchange,
            Some(received),
        ).1 == Ok::<StepView, ErrorView>(StepView::Answered(answer)),
        answer.encoded() == Ok::<Seq<u8>, ErrorView>(received) ==> master.resuming(
            CallView::Exchange,
            Some(received),
        ).1 == Ok::<StepView, ErrorView>(StepView::Answered(answer)),
        master.resuming(CallView::Exchange, Some(received)).1 is Ok ==> {
            let frame = master.resuming(CallView::Exchange, Some(received)).1->Ok_0->Answered_0;
            frame.encoded() == Ok::<Seq<u8>, ErrorView>(received)
        },
{
    if answer.encoded() is Ok {
        law_decode_undoes_encode(answer);
    }
    if decoded(received) is Ok {
        law_encode_undoes_decode(received);
    }
}

/// What ends a call early: silence and noise, each as the refusal it is and
/// with the master as it was; and for an initialisation or a write any frame
/// but `e5`, which is refused by name. An initialisation that hears `e5` is
/// done, and the count set.
pub proof fn law_what_ends_a_call(master: MasterView, call: CallView, received: Seq<u8>)
    ensures
        master.resuming(call, None) == (master, Err::<StepView, ErrorView>(ErrorView::Silence)),
        decoded(received) is Err ==> master.resuming(call, Some(received)) == (
            master,
            Err::<StepView, ErrorView>(decoded(received)->Err_0),
        ),
        decoded(received) is Ok && received != seq![0xe5u8] && (call is Initialise
            || call is Write) ==> master.resuming(call, Some(received)) == (
            MasterView { fcb: !master.fcb, ..master },
            Err::<StepView, ErrorView>(ErrorView::NotAcknowledged(decoded(received)->Ok_0)),
        ),
        master.resuming(CallView::Initialise, Some(seq![0xe5u8])) == (
            MasterView { fcb: true, ..master },
            Ok::<StepView, ErrorView>(StepView::Done),
        ),
{
    law_fields_stand_in_their_places(received, 0, 0, 0, Seq::empty());
    law_fields_stand_in_their_places(seq![0xe5u8], 0, 0, 0, Seq::empty());
}

/// An origin is `mbus://`, the line, a slash and the address in decimal.
pub proof fn law_an_origin_names_line_and_address(master: MasterView, address: u8)
    ensures
        ({
            let uri = master.origin(address);
            let n = master.line.len() as int;
            &&& uri.take(7) == seq!['m', 'b', 'u', 's', ':', '/', '/']
            &&& uri.subrange(7, 7 + n) == master.line
            &&& uri[7 + n] == '/'
            &&& uri.skip(8 + n) == decimal(address as nat)
            &&& uri.len() == 8 + n + decimal(address as nat).len()
        }),
{
    reveal_strlit("mbus://");
    reveal_strlit("/");
    let uri = master.origin(address);
    let n = master.line.len() as int;
    assert(uri.take(7) =~= seq!['m', 'b', 'u', 's', ':', '/', '/']);
    assert(uri.subrange(7, 7 + n) =~= master.line);
    assert(uri.skip(8 + n) =~= decimal(address as nat));
}

/// Digits are the decimal of the number they spell, with zeros in front.
proof fn lemma_digits_are_padded(digits: Seq<char>)
    requires
        digits.len() > 0,
        all_digits(digits),
    ensures
        padded(number(digits), digits.len()) == digits,
        number(digits) == 0 ==> forall|i: int| 0 <= i < digits.len() ==> #[trigger] digits[i]
            == '0',
    decreases digits.len(),
{
    let front = digits.drop_last();
    let last = digits.last();
    assert('0' <= digits[digits.len() - 1] <= '9');
    let d = (last as nat - '0' as nat) as nat;
    let n = number(front);
    law_decimal_is_positional(n, d);
    assert(number(digits) == n * 10 + d);
    assert((48 + d) as char == last);
    assert forall|i: int| 0 <= i < front.len() implies '0' <= #[trigger] front[i] <= '9' by {
        assert(front[i] == digits[i]);
    }
    if front.len() == 0 {
        assert(n == 0);
        assert(padded(number(digits), 1) =~= digits);
    } else {
        lemma_digits_are_padded(front);
        law_padding_is_zeros_in_front(n, front.len());
        law_padding_is_zeros_in_front(number(digits), digits.len());
        assert forall|i: int| number(digits) == 0 && 0 <= i < digits.len() implies
            #[trigger] digits[i] == '0' by {
            if i < front.len() {
                assert(front[i] == digits[i]);
            }
        }
        let all = padded(number(digits), digits.len());
        let shown = decimal(number(digits)).len() as int;
        assert(decimal(n).len() <= front.len());
        assert(all.len() == digits.len());
        if n > 0 {
            assert(shown == decimal(n).len() + 1);
            assert forall|i: int| 0 <= i < digits.len() implies all[i] == digits[i] by {
                if i < digits.len() - shown {
                    assert(padded(n, front.len())[i] == '0');
                    assert(front[i] == digits[i]);
                } else {
                    assert(all.skip(all.len() - shown)[i - (all.len() - shown)] == all[i]);
                    if i < front.len() {
                        let at = i - (front.len() - decimal(n).len());
                        assert(front.skip(front.len() - decimal(n).len())[at] == front[i]);
                        assert(front[i] == digits[i]);
                    }
                }
            }
        } else {
            assert(shown == 1);
            assert forall|i: int| 0 <= i < digits.len() implies all[i] == digits[i] by {
                if i < front.len() {
                    assert(front[i] == digits[i]);
                } else {
                    assert(all.skip(all.len() - 1)[0] == all[i]);
                }
            }
        }
        assert(all =~= digits);
    }
}

/// Zeros in front change nothing of what digits spell.
proof fn lemma_padded_spells(n: nat, width: nat)
    ensures
        padded(n, width).len() > 0,
        all_digits(padded(n, width)),
        number(padded(n, width)) == n,
    decreases width,
{
    lemma_decimal_spells(n);
    let digits = decimal(n);
    if digits.len() < width {
        lemma_zeros_spell_nothing((width - digits.len()) as nat, digits);
    }
}

proof fn lemma_zeros_spell_nothing(zeros: nat, digits: Seq<char>)
    requires
        all_digits(digits),
    ensures
        all_digits(Seq::new(zeros, |i: int| '0') + digits),
        number(Seq::new(zeros, |i: int| '0') + digits) == number(digits),
    decreases digits.len(), zeros,
{
    let front = Seq::new(zeros, |i: int| '0');
    let all = front + digits;
    assert forall|i: int| 0 <= i < all.len() implies '0' <= #[trigger] all[i] <= '9' by {
        if i >= zeros {
            assert(all[i] == digits[i - zeros]);
        }
    }
    if digits.len() > 0 {
        assert forall|i: int| 0 <= i < digits.drop_last().len() implies '0'
            <= #[trigger] digits.drop_last()[i] <= '9' by {
            assert(digits.drop_last()[i] == digits[i]);
        }
        lemma_zeros_spell_nothing(zeros, digits.drop_last());
        assert(all.drop_last() =~= front + digits.drop_last());
    } else if zeros > 0 {
        lemma_zeros_spell_nothing((zeros - 1) as nat, digits);
        assert(all.drop_last() =~= Seq::new((zeros - 1) as nat, |i: int| '0') + digits);
    }
}

/// A target names an address exactly where it is the decimal of one, with
/// zeros in front or none and a plus sign in front of those or none; a target
/// that is absent or empty names the master's own meter, and any other text
/// is refused by name.
pub proof fn law_which_targets_name_an_address(master: MasterView, text: Seq<char>, address: u8)
    ensures
        master.destination(None) == Ok::<u8, ErrorView>(master.address),
        master.destination(Some(Seq::empty())) == Ok::<u8, ErrorView>(master.address),
        text.len() > 0 ==> (master.destination(Some(text)) == Ok::<u8, ErrorView>(address)) == (
        text == padded(address as nat, text.len()) || (text[0] == '+' && text.skip(1) == padded(
            address as nat,
            (text.len() - 1) as nat,
        ))),
        master.destination(Some(text)) is Err ==> master.destination(Some(text)) == Err::<
            u8,
            ErrorView,
        >(ErrorView::NotAnAddress(text)),
{
    if text.len() > 0 {
        let digits = unsigned(text);
        lemma_padded_spells(address as nat, text.len());
        lemma_padded_spells(address as nat, (text.len() - 1) as nat);
        if digits.len() > 0 && all_digits(digits) {
            lemma_digits_are_padded(digits);
        }
        if text == padded(address as nat, text.len()) {
            assert('0' <= text[0] <= '9');
        }
    }
}

/// A master, a call and a step are seen whole: every field of each.
pub proof fn law_steps_are_seen_whole(master: MBusTransport, call: Call, step: Step)
    ensures
        master@.line == master.line@,
        master@.address == master.address,
        master@.timeout == master.timeout,
        master@.fcb == master.fcb,
        match call {
            Call::Exchange => call@ is Exchange,
            Call::Initialise => call@ is Initialise,
            Call::Write { address, bodies } => {
                &&& call@ is Write
                &&& call@->address == address
                &&& call@->bodies.len() == bodies@.len()
                &&& forall|i: int|
                    0 <= i < bodies@.len() ==> #[trigger] call@->bodies[i] == bodies@[i]@
            },
            Call::Read { bytes } => call@ is Read && call@->bytes == bytes@,
        },
        match step {
            Step::Transmit { bytes, call } => step@ is Transmit && step@->Transmit_bytes == bytes@
                && step@->call == call@,
            Step::Answered(frame) => step@ is Answered && step@->Answered_0 == frame@,
            Step::Done => step@ is Done,
            Step::Read(arrived) => step@ is Read && step@->origin_uri == arrived.origin_uri@
                && step@->Read_bytes == arrived.bytes@,
        },
{
}

} // verus!

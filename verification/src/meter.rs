//! One meter's worth of EN 13757-3: who it is, and the Stream it holds.
//!
//! A meter is identified by an eight-digit number, a three-letter
//! manufacturer, a version and a medium: the long header of every wired
//! answer, and the address of every wireless frame. What it holds is a
//! Stream: a master writes one in records over as many telegrams as it
//! takes, and reads it back the same way. The meter is the same whether
//! the telegrams came down a wire or over the air; the frame around them
//! is the link layer's business.

use std::collections::VecDeque;

use vstd::prelude::*;
#[allow(unused_imports)]
use vstd::utf8::{
    decode_utf8, encode_utf8, encode_utf8_decode_utf8, encode_utf8_valid_utf8, is_ascii_chars,
    is_ascii_chars_encode_utf8, valid_utf8,
};

#[allow(unused_imports)]
use crate::error::{viewed, ErrorView, MBusError};
use crate::frame::{BROADCAST, BROADCAST_REPLY};
#[allow(unused_imports)]
use crate::record::{
    bodies_of, carries, law_bodies_fit_their_room, law_unpack_undoes_pack, pack, packed, unpack,
    unpacked, views, MIN_ROOM,
};
#[allow(unused_imports)]
use crate::text::{decimal, law_padding_is_zeros_in_front, padded, push_padded};

verus! {

/// Who a meter is.
#[derive(Clone, Debug, PartialEq, Eq)]
pub struct Identity {
    /// Eight decimal digits, as printed on the meter.
    pub ident: u32,
    /// Three capital letters.
    pub manufacturer: [u8; 3],
    pub version: u8,
    /// EN 13757-3's device type: `02` electricity, `03` gas, `07` water.
    pub medium: u8,
}

/// A letter less sixty-four, in five bits.
pub open spec fn letter_code(letter: u8) -> nat {
    if letter < 64 {
        0
    } else {
        ((letter - 64) % 32) as nat
    }
}

/// Three letters in five bits each, the first in the highest.
pub open spec fn letters_code(letters: Seq<u8>) -> nat
    recommends
        letters.len() == 3,
{
    letter_code(letters[0]) * 1024 + letter_code(letters[1]) * 32 + letter_code(letters[2])
}

/// A number below a hundred as packed BCD: a digit in each half byte.
pub open spec fn bcd(number: nat) -> u8 {
    ((number / 10) * 16 + number % 10) as u8
}

/// Eight decimal digits as four bytes of packed BCD, least significant
/// first.
pub open spec fn bcd_bytes(ident: nat) -> Seq<u8> {
    seq![
        bcd(ident % 100),
        bcd((ident / 100) % 100),
        bcd((ident / 10_000) % 100),
        bcd((ident / 1_000_000) % 100),
    ]
}

/// Two bytes, least significant first.
pub open spec fn low_first(code: nat) -> Seq<u8> {
    seq![(code % 256) as u8, (code / 256) as u8]
}

/// The number two half bytes of packed BCD spell.
pub open spec fn bcd_value(byte: u8) -> nat {
    (byte as nat / 16) * 10 + byte as nat % 16
}

/// What `String::from_utf8_lossy` makes of `bytes`.
pub uninterp spec fn lossy_text(bytes: Seq<u8>) -> Seq<char>;

/// `String::from_utf8_lossy`: bytes that are UTF-8 are the text they encode.
/// Which replacement characters stand for bytes that are not is left to the
/// name.
#[verifier::external_body]
fn from_utf8_lossy(bytes: &[u8]) -> (text: String)
    ensures
        text@ == lossy_text(bytes@),
        valid_utf8(bytes@) ==> text@ == decode_utf8(bytes@),
{
    String::from_utf8_lossy(bytes).into_owned()
}

/// `<manufacturer>-<ident>`, the ident in eight digits or more.
pub open spec fn label_of(manufacturer: Seq<char>, ident: nat) -> Seq<char> {
    manufacturer + "-"@ + padded(ident, 8)
}

/// The label of a meter whose manufacturer reads `manufacturer`.
#[must_use]
pub fn label_from(manufacturer: &str, ident: u32) -> (label: String)
    ensures
        label@ == label_of(manufacturer@, ident as nat),
{
    let mut label = String::new();
    label.append(manufacturer);
    label.append("-");
    push_padded(&mut label, ident as u64, 8);
    assert(label@ =~= label_of(manufacturer@, ident as nat));
    label
}

/// A number below a hundred as packed BCD.
fn to_bcd(number: u32) -> (byte: u8)
    requires
        number < 100,
    ensures
        byte == bcd(number as nat),
{
    let low: u8 = (number % 10) as u8;
    let high: u8 = (number / 10) as u8;
    assert((high << 4) | low == high * 16 + low) by (bit_vector)
        requires
            high < 10,
            low < 10,
    ;
    (high << 4) | low
}

/// A letter less sixty-four, in five bits.
fn to_letter_code(letter: u8) -> (code: u16)
    ensures
        code == letter_code(letter),
        code < 32,
{
    let less: u8 = letter.saturating_sub(64);
    assert(less & 0x1f == less % 32) by (bit_vector);
    (less & 0x1f) as u16
}

impl Identity {
    /// The eight bytes of a link address.
    pub open spec fn link_address_bytes(self) -> Seq<u8> {
        low_first(letters_code(self.manufacturer@)) + bcd_bytes(self.ident as nat) + seq![
            self.version,
            self.medium,
        ]
    }

    /// The twelve bytes of a long header.
    pub open spec fn long_header_bytes(self, access: u8) -> Seq<u8> {
        bcd_bytes(self.ident as nat) + low_first(letters_code(self.manufacturer@)) + seq![
            self.version,
            self.medium,
            access,
            0u8,
            0u8,
            0u8,
        ]
    }

    /// The manufacturer as the two bytes of EN 61107: each letter less
    /// sixty-four, in five bits.
    #[must_use]
    pub fn manufacturer_code(&self) -> (code: u16)
        ensures
            code == letters_code(self.manufacturer@),
            code < 0x8000,
    {
        let first: u16 = to_letter_code(self.manufacturer[0]);
        let second: u16 = to_letter_code(self.manufacturer[1]);
        let third: u16 = to_letter_code(self.manufacturer[2]);
        (first * 32 + second) * 32 + third
    }

    /// The ident as four bytes of packed BCD, least significant first.
    #[must_use]
    pub fn ident_bcd(&self) -> (bytes: [u8; 4])
        ensures
            bytes@ == bcd_bytes(self.ident as nat),
    {
        let bytes = [
            to_bcd(self.ident % 100),
            to_bcd((self.ident / 100) % 100),
            to_bcd((self.ident / 10_000) % 100),
            to_bcd((self.ident / 1_000_000) % 100),
        ];
        assert(bytes@ =~= bcd_bytes(self.ident as nat));
        bytes
    }

    /// The eight bytes a wireless frame names a meter by: the manufacturer,
    /// the ident, the version and the medium.
    #[must_use]
    pub fn link_address(&self) -> (bytes: [u8; 8])
        ensures
            bytes@ == self.link_address_bytes(),
    {
        let code: u16 = self.manufacturer_code();
        let ident = self.ident_bcd();
        let bytes = [
            (code % 256) as u8,
            (code / 256) as u8,
            ident[0],
            ident[1],
            ident[2],
            ident[3],
            self.version,
            self.medium,
        ];
        assert(bytes@ =~= self.link_address_bytes());
        bytes
    }

    /// The twelve-byte long header of a wired answer: the ident, the
    /// manufacturer, the version, the medium, the access number, a status
    /// of zero and no signature.
    #[must_use]
    pub fn long_header(&self, access: u8) -> (bytes: [u8; 12])
        ensures
            bytes@ == self.long_header_bytes(access),
    {
        let code: u16 = self.manufacturer_code();
        let ident = self.ident_bcd();
        let bytes = [
            ident[0],
            ident[1],
            ident[2],
            ident[3],
            (code % 256) as u8,
            (code / 256) as u8,
            self.version,
            self.medium,
            access,
            0u8,
            0u8,
            0u8,
        ];
        assert(bytes@ =~= self.long_header_bytes(access));
        bytes
    }

    /// The four-byte short header of a wireless answer: the access number,
    /// a status of zero and no encryption.
    #[must_use]
    pub fn short_header(access: u8) -> (bytes: [u8; 4])
        ensures
            bytes@ == seq![access, 0u8, 0u8, 0u8],
    {
        let bytes = [access, 0u8, 0u8, 0u8];
        assert(bytes@ =~= seq![access, 0u8, 0u8, 0u8]);
        bytes
    }

    /// `<manufacturer>-<ident>`, as a Location names the meter.
    #[must_use]
    pub fn label(&self) -> (label: String)
        ensures
            label@ == label_of(lossy_text(self.manufacturer@), self.ident as nat),
            valid_utf8(self.manufacturer@) ==> label@ == label_of(
                decode_utf8(self.manufacturer@),
                self.ident as nat,
            ),
    {
        let manufacturer = from_utf8_lossy(self.manufacturer.as_slice());
        label_from(manufacturer.as_str(), self.ident)
    }
}

/// A meter: an identity, a primary address, and the Stream it holds.
pub struct Meter {
    identity: Identity,
    primary: u8,
    access: u8,
    held: Vec<u8>,
    arriving: Vec<u8>,
    giving: VecDeque<Vec<u8>>,
}

/// What a meter is and holds.
#[verifier::ext_equal]
pub struct MeterView {
    pub identity: Identity,
    /// The primary address.
    pub primary: u8,
    /// The access number of the last answer.
    pub access: u8,
    /// The Stream the last complete write left.
    pub held: Seq<u8>,
    /// What a write in progress has brought so far.
    pub arriving: Seq<u8>,
    /// The telegrams a read in progress has yet to give.
    pub giving: Seq<Seq<u8>>,
}

impl View for Meter {
    type V = MeterView;

    closed spec fn view(&self) -> MeterView {
        MeterView {
            identity: self.identity,
            primary: self.primary,
            access: self.access,
            held: self.held@,
            arriving: self.arriving@,
            giving: views(self.giving@),
        }
    }
}

impl MeterView {
    /// Whether a telegram at `address` is for the meter.
    pub open spec fn answers(self, address: u8) -> bool {
        address == self.primary || address == BROADCAST_REPLY || address == BROADCAST
    }

    /// Whether neither a write nor a read is in progress.
    pub open spec fn idle(self) -> bool {
        self.arriving == Seq::<u8>::empty() && self.giving == Seq::<Seq<u8>>::empty()
    }

    /// The meter with a write and a read in progress forgotten.
    pub open spec fn forgetting(self) -> MeterView {
        MeterView { arriving: Seq::empty(), giving: Seq::empty(), ..self }
    }

    /// The meter once it has taken the records of one telegram, and whether
    /// that completes the write.
    pub open spec fn taking(self, body: Seq<u8>) -> (MeterView, Result<bool, ErrorView>) {
        match unpacked(body) {
            Err(error) => (self, Err(error)),
            Ok((bytes, true)) => (
                MeterView { arriving: self.arriving + bytes, ..self },
                Ok(false),
            ),
            Ok((bytes, false)) => (
                MeterView { held: self.arriving + bytes, arriving: Seq::empty(), ..self },
                Ok(true),
            ),
        }
    }

    /// The meter once it has given the next telegram of a read, and the
    /// telegram: of those a read in progress has left, or of what is held.
    pub open spec fn handing_out(self, room: nat) -> (MeterView, Result<Seq<u8>, ErrorView>) {
        let queue = if self.giving.len() > 0 {
            Ok(self.giving)
        } else {
            packed(self.held, room)
        };
        match queue {
            Err(error) => (self, Err(error)),
            Ok(bodies) => (MeterView { giving: bodies.drop_first(), ..self }, Ok(bodies[0])),
        }
    }

    /// The access number of the next answer.
    pub open spec fn following_access(self) -> u8 {
        ((self.access + 1) % 256) as u8
    }
}

impl Meter {
    /// A meter at primary address zero, holding nothing.
    #[must_use]
    pub fn new(identity: Identity) -> (meter: Meter)
        ensures
            meter@ == (MeterView {
                identity,
                primary: 0,
                access: 0,
                held: Seq::empty(),
                arriving: Seq::empty(),
                giving: Seq::empty(),
            }),
    {
        let meter = Meter {
            identity,
            primary: 0,
            access: 0,
            held: Vec::new(),
            arriving: Vec::new(),
            giving: VecDeque::new(),
        };
        assert(meter@.giving =~= Seq::<Seq<u8>>::empty());
        meter
    }

    /// The meter at another primary address.
    #[must_use]
    pub fn at_primary(self, primary: u8) -> (meter: Meter)
        ensures
            meter@ == (MeterView { primary, ..self@ }),
    {
        Meter {
            identity: self.identity,
            primary,
            access: self.access,
            held: self.held,
            arriving: self.arriving,
            giving: self.giving,
        }
    }

    /// Who the meter is.
    #[must_use]
    pub fn identity(&self) -> (identity: &Identity)
        ensures
            *identity == self@.identity,
    {
        &self.identity
    }

    /// The meter's primary address.
    #[must_use]
    pub fn primary(&self) -> (primary: u8)
        ensures
            primary == self@.primary,
    {
        self.primary
    }

    /// Whether a telegram at `address` is for this meter: its own, or
    /// either broadcast.
    #[must_use]
    pub fn answers_to(&self, address: u8) -> (answers: bool)
        ensures
            answers == self@.answers(address),
    {
        address == self.primary || address == BROADCAST_REPLY || address == BROADCAST
    }

    /// The Stream the meter holds, as the last complete write left it.
    #[must_use]
    pub fn held(&self) -> (held: Vec<u8>)
        ensures
            held@ == self@.held,
    {
        let held = self.held.clone();
        assert(held@ =~= self.held@);
        held
    }

    /// Forget a write in progress and a read in progress: what `SND_NKE`
    /// does.
    pub fn reset(&mut self)
        ensures
            final(self)@ == old(self)@.forgetting(),
    {
        self.arriving.clear();
        self.giving.clear();
        assert(self@.giving =~= Seq::<Seq<u8>>::empty());
    }

    /// Take the records of one telegram written to the meter; `true` when
    /// the write is complete and what arrived is now held.
    ///
    /// # Errors
    /// Records that are no Stream.
    pub fn take(&mut self, body: &[u8]) -> (result: Result<bool, MBusError>)
        ensures
            (final(self)@, viewed(result)) == old(self)@.taking(body@),
    {
        let (bytes, more) = match unpack(body) {
            Ok(carried) => carried,
            Err(error) => return Err(error),
        };
        self.arriving.extend_from_slice(bytes.as_slice());
        assert(self.arriving@ =~= old(self).arriving@ + bytes@);
        if more {
            return Ok(false);
        }
        let mut arrived: Vec<u8> = Vec::new();
        arrived.append(&mut self.arriving);
        assert(arrived@ =~= old(self).arriving@ + bytes@);
        self.held = arrived;
        Ok(true)
    }

    /// The records of the next telegram read from the meter, in `room`
    /// bytes: the first call of a read packs what is held, the last hands
    /// out the body with no "more follow".
    ///
    /// # Errors
    /// Room too small for a record.
    pub fn give(&mut self, room: usize) -> (result: Result<Vec<u8>, MBusError>)
        ensures
            (final(self)@, viewed(result)) == old(self)@.handing_out(room as nat),
    {
        if self.giving.len() == 0 {
            let bodies = match pack(self.held.as_slice(), room) {
                Ok(bodies) => bodies,
                Err(error) => return Err(error),
            };
            self.giving = queue(bodies);
            proof {
                law_bodies_fit_their_room(self.held@, room as nat);
            }
        }
        let ghost queued = self@.giving;
        match self.giving.pop_front() {
            Some(body) => {
                assert(self@.giving =~= queued.drop_first());
                Ok(body)
            },
            None => Err(MBusError::NothingToGive),
        }
    }

    /// The access number of the next answer: one more each time.
    #[must_use]
    pub fn next_access(&mut self) -> (access: u8)
        ensures
            access == old(self)@.following_access(),
            final(self)@ == (MeterView { access, ..old(self)@ }),
    {
        self.access = self.access.wrapping_add(1);
        self.access
    }
}

/// `bodies` as a queue, the first at the front.
pub(crate) fn queue(bodies: Vec<Vec<u8>>) -> (out: VecDeque<Vec<u8>>)
    ensures
        out@ == bodies@,
{
    let mut left = bodies;
    let mut out: VecDeque<Vec<u8>> = VecDeque::new();
    assert(left@ + out@ =~= bodies@);
    while left.len() > 0
        invariant
            left@ + out@ == bodies@,
        decreases left.len(),
    {
        let ghost before = left@ + out@;
        match left.pop() {
            Some(body) => {
                out.push_front(body);
                assert(left@ + out@ =~= before);
            },
            None => {},
        }
    }
    assert(left@ + out@ =~= out@);
    out
}

/// The meter once it has taken `bodies` one after the other.
pub open spec fn having_taken(meter: MeterView, bodies: Seq<Seq<u8>>) -> MeterView
    decreases bodies.len(),
{
    if bodies.len() == 0 {
        meter
    } else {
        having_taken(meter.taking(bodies[0]).0, bodies.drop_first())
    }
}

/// The meter once `telegrams` more were read from it in `room` bytes each,
/// and the telegrams.
pub open spec fn having_given(meter: MeterView, room: nat, telegrams: nat) -> (
    MeterView,
    Seq<Seq<u8>>,
)
    decreases telegrams,
{
    if telegrams == 0 {
        (meter, Seq::empty())
    } else {
        let (after, given) = meter.handing_out(room);
        let (last, others) = having_given(after, room, (telegrams - 1) as nat);
        (last, seq![given->Ok_0] + others)
    }
}

proof fn lemma_having_taken(meter: MeterView, bodies: Seq<Seq<u8>>, payload: Seq<u8>)
    requires
        carries(bodies, payload),
    ensures
        having_taken(meter, bodies) == (MeterView {
            held: meter.arriving + payload,
            arriving: Seq::empty(),
            ..meter
        }),
        forall|n: int|
            0 <= n < bodies.len() ==> (#[trigger] having_taken(meter, bodies.take(n))).held
                == meter.held,
    decreases bodies.len(),
{
    let (bytes, more) = unpacked(bodies[0])->Ok_0;
    let next = meter.taking(bodies[0]).0;
    let rest = bodies.drop_first();
    assert(having_taken(meter, bodies) == having_taken(next, rest));
    if more {
        let left = payload.skip(bytes.len() as int);
        lemma_having_taken(next, rest, left);
        assert(bytes + left =~= payload);
        assert(meter.arriving + bytes + left =~= meter.arriving + payload);
        assert forall|n: int| 0 <= n < bodies.len() implies (#[trigger] having_taken(
            meter,
            bodies.take(n),
        )).held == meter.held by {
            if n > 0 {
                assert(bodies.take(n).drop_first() =~= rest.take(n - 1));
                assert(having_taken(next, rest.take(n - 1)).held == next.held);
            }
        }
    } else {
        assert(rest.len() == 0);
        assert(having_taken(next, rest) == next);
    }
}

/// A write is held when it is complete and not before: the telegrams of a
/// Stream, taken by a meter with no write in progress, leave the Stream held
/// and nothing else changed; up to the last, what was held before still is.
pub proof fn law_a_write_is_held_once_complete(meter: MeterView, payload: Seq<u8>, room: nat)
    requires
        room >= MIN_ROOM,
        meter.arriving == Seq::<u8>::empty(),
    ensures
        having_taken(meter, bodies_of(payload, room)) == (MeterView { held: payload, ..meter }),
        forall|n: int|
            0 <= n < bodies_of(payload, room).len() ==> (#[trigger] having_taken(
                meter,
                bodies_of(payload, room).take(n),
            )).held == meter.held,
{
    law_unpack_undoes_pack(payload, room);
    lemma_having_taken(meter, bodies_of(payload, room), payload);
    assert(meter.arriving + payload =~= payload);
}

proof fn lemma_having_given(meter: MeterView, room: nat, bodies: Seq<Seq<u8>>)
    requires
        bodies.len() > 0,
        bodies == if meter.giving.len() > 0 {
            meter.giving
        } else {
            bodies_of(meter.held, room)
        },
        room >= MIN_ROOM,
    ensures
        having_given(meter, room, bodies.len()) == (
            MeterView { giving: Seq::empty(), ..meter },
            bodies,
        ),
    decreases bodies.len(),
{
    let rest = bodies.drop_first();
    let next = MeterView { giving: rest, ..meter };
    assert(meter.handing_out(room) == (next, Ok::<Seq<u8>, ErrorView>(bodies[0])));
    if rest.len() > 0 {
        lemma_having_given(next, room, rest);
    } else {
        assert(rest =~= Seq::<Seq<u8>>::empty());
        assert(having_given(next, room, 0) == (next, Seq::<Seq<u8>>::empty()));
    }
    assert(seq![bodies[0]] + rest =~= bodies);
}

/// A read gives what is held: from a meter with no read in progress, as
/// many telegrams as the held Stream packs into are that Stream's, in order,
/// and then the meter is as it was and the next read starts over.
pub proof fn law_a_read_gives_the_held_stream(meter: MeterView, room: nat)
    requires
        room >= MIN_ROOM,
        meter.giving == Seq::<Seq<u8>>::empty(),
    ensures
        having_given(meter, room, bodies_of(meter.held, room).len()) == (
            meter,
            bodies_of(meter.held, room),
        ),
        carries(bodies_of(meter.held, room), meter.held),
{
    law_bodies_fit_their_room(meter.held, room);
    law_unpack_undoes_pack(meter.held, room);
    lemma_having_given(meter, room, bodies_of(meter.held, room));
}

/// A telegram that is no part of a Stream changes nothing.
pub proof fn law_a_refused_telegram_changes_nothing(meter: MeterView, body: Seq<u8>)
    requires
        unpacked(body) is Err,
    ensures
        meter.taking(body).0 == meter,
        meter.taking(body).1 is Err,
{
}

/// A reset forgets what was in progress: the telegrams that follow are taken
/// as a write of their own, and what is held stays held.
pub proof fn law_a_reset_forgets_what_was_in_progress(
    meter: MeterView,
    bodies: Seq<Seq<u8>>,
    payload: Seq<u8>,
)
    requires
        carries(bodies, payload),
    ensures
        meter.forgetting().held == meter.held,
        meter.forgetting().idle(),
        having_taken(meter.forgetting(), bodies).held == payload,
{
    lemma_having_taken(meter.forgetting(), bodies, payload);
    assert(Seq::<u8>::empty() + payload =~= payload);
}

/// Packed BCD of a number below a hundred is two digits that spell it.
proof fn lemma_bcd_value(number: nat)
    requires
        number < 100,
    ensures
        bcd_value(bcd(number)) == number,
        bcd(number) % 16 <= 9,
        bcd(number) / 16 <= 9,
{
}

/// Four numbers below a hundred are the eight lowest digits of a number.
#[verifier::spinoff_prover]
#[verifier::rlimit(60)]
proof fn lemma_hundreds(n: nat)
    ensures
        n % 100 + ((n / 100) % 100) * 100 + ((n / 10_000) % 100) * 10_000 + ((n / 1_000_000) % 100)
            * 1_000_000 == n % 100_000_000,
{
    let hundreds = n / 100;
    let myriads = hundreds / 100;
    let millions = myriads / 100;
    let above = millions / 100;
    assert(n / 10_000 == myriads);
    assert(n / 1_000_000 == millions);
    let low = n % 100 + (hundreds % 100) * 100 + (myriads % 100) * 10_000 + (millions % 100)
        * 1_000_000;
    assert(hundreds == myriads * 100 + hundreds % 100);
    assert(myriads == millions * 100 + myriads % 100);
    assert(millions == above * 100 + millions % 100);
    assert(n == above * 100_000_000 + low);
    assert(low < 100_000_000);
}

/// Three numbers of five bits each come apart again.
proof fn lemma_five_bits(first: nat, second: nat, third: nat)
    requires
        first < 32,
        second < 32,
        third < 32,
    ensures
        first * 1024 + second * 32 + third < 0x8000,
        (first * 1024 + second * 32 + third) / 1024 == first,
        ((first * 1024 + second * 32 + third) / 32) % 32 == second,
        (first * 1024 + second * 32 + third) % 32 == third,
{
    let code = first * 1024 + second * 32 + third;
    assert(code / 32 == first * 32 + second);
}

/// The ident reads back from its packed BCD: every half byte is a digit, and
/// the digits are the eight lowest of the ident.
pub proof fn law_the_ident_reads_back(ident: nat)
    ensures
        bcd_bytes(ident).len() == 4,
        forall|i: int|
            0 <= i < 4 ==> (#[trigger] bcd_bytes(ident)[i]) % 16 <= 9 && bcd_bytes(ident)[i] / 16
                <= 9,
        bcd_value(bcd_bytes(ident)[0]) + bcd_value(bcd_bytes(ident)[1]) * 100 + bcd_value(
            bcd_bytes(ident)[2],
        ) * 10_000 + bcd_value(bcd_bytes(ident)[3]) * 1_000_000 == ident % 100_000_000,
        forall|byte: u8| #[trigger] bcd_value(byte) == byte / 16 * 10 + byte % 16,
{
    lemma_bcd_value(ident % 100);
    lemma_bcd_value((ident / 100) % 100);
    lemma_bcd_value((ident / 10_000) % 100);
    lemma_bcd_value((ident / 1_000_000) % 100);
    lemma_hundreds(ident);
}

/// Three capital letters read back from their code.
pub proof fn law_the_manufacturer_reads_back(letters: Seq<u8>)
    requires
        letters.len() == 3,
        forall|i: int| 0 <= i < 3 ==> 65 <= #[trigger] letters[i] <= 90,
    ensures
        letters_code(letters) < 0x8000,
        letters_code(letters) / 1024 + 64 == letters[0],
        (letters_code(letters) / 32) % 32 + 64 == letters[1],
        letters_code(letters) % 32 + 64 == letters[2],
{
    assert(65 <= letters[0] <= 90 && 65 <= letters[1] <= 90 && 65 <= letters[2] <= 90);
    lemma_five_bits(letter_code(letters[0]), letter_code(letters[1]), letter_code(letters[2]));
}

/// A wired answer and a wireless frame name the same meter: the long header
/// and the link address hold the same ident, manufacturer, version and
/// medium.
pub proof fn law_header_and_link_address_agree(identity: Identity, access: u8)
    ensures
        identity.long_header_bytes(access).len() == 12,
        identity.link_address_bytes().len() == 8,
        identity.long_header_bytes(access).subrange(0, 4)
            == identity.link_address_bytes().subrange(2, 6),
        identity.long_header_bytes(access).subrange(4, 6)
            == identity.link_address_bytes().subrange(0, 2),
        identity.long_header_bytes(access).subrange(6, 8)
            == identity.link_address_bytes().subrange(6, 8),
        identity.long_header_bytes(access)[8] == access,
{
}

/// ASCII letters read as themselves in a label.
pub proof fn law_ascii_letters_read_as_themselves(letters: Seq<u8>)
    requires
        forall|i: int| 0 <= i < letters.len() ==> #[trigger] letters[i] < 128,
    ensures
        valid_utf8(letters),
        decode_utf8(letters) == letters.map_values(|letter: u8| letter as char),
{
    let chars = letters.map_values(|letter: u8| letter as char);
    assert(is_ascii_chars(chars));
    is_ascii_chars_encode_utf8(chars);
    assert(encode_utf8(chars) =~= letters);
    encode_utf8_valid_utf8(chars);
    encode_utf8_decode_utf8(chars);
}

/// A meter answers to its own primary address and to `fe` and `ff`, and to no
/// other: of two meters at different addresses, at most one answers to what
/// is no broadcast.
pub proof fn law_a_meter_answers_to_its_own_address(
    meter: MeterView,
    other: MeterView,
    address: u8,
)
    ensures
        meter.answers(meter.primary),
        meter.answers(0xfe),
        meter.answers(0xff),
        meter.answers(address) && address != 0xfe && address != 0xff ==> address == meter.primary,
        meter.primary != other.primary && address != 0xfe && address != 0xff ==> !(meter.answers(
            address,
        ) && other.answers(address)),
{
}

/// The code takes the five lowest bits of every letter from `@` on, and
/// nothing of what is below, the first letter highest.
pub proof fn law_the_code_is_five_bits_a_letter(letters: Seq<u8>)
    requires
        letters.len() == 3,
    ensures
        letters_code(letters) < 0x8000,
        letters_code(letters) / 1024 == if letters[0] < 64 {
            0
        } else {
            letters[0] as nat % 32
        },
        (letters_code(letters) / 32) % 32 == if letters[1] < 64 {
            0
        } else {
            letters[1] as nat % 32
        },
        letters_code(letters) % 32 == if letters[2] < 64 {
            0
        } else {
            letters[2] as nat % 32
        },
{
    lemma_five_bits(letter_code(letters[0]), letter_code(letters[1]), letter_code(letters[2]));
}

/// The two headers byte for byte: four bytes of ident, two of manufacturer,
/// the version, the medium, the access number and three zeros on the wire;
/// the manufacturer, the ident, the version and the medium in the air. The
/// manufacturer stands low byte first.
pub proof fn law_headers_byte_for_byte(identity: Identity, access: u8)
    ensures
        ({
            let header = identity.long_header_bytes(access);
            let link = identity.link_address_bytes();
            let code = letters_code(identity.manufacturer@);
            &&& header.len() == 12
            &&& header.take(4) == bcd_bytes(identity.ident as nat)
            &&& header[4] + 256 * header[5] == code
            &&& header[6] == identity.version
            &&& header[7] == identity.medium
            &&& header[8] == access
            &&& header[9] == 0 && header[10] == 0 && header[11] == 0
            &&& link.len() == 8
            &&& link[0] + 256 * link[1] == code
            &&& link.subrange(2, 6) == bcd_bytes(identity.ident as nat)
            &&& link[6] == identity.version
            &&& link[7] == identity.medium
        }),
{
    let header = identity.long_header_bytes(access);
    let link = identity.link_address_bytes();
    law_the_code_is_five_bits_a_letter(identity.manufacturer@);
    assert(header.take(4) =~= bcd_bytes(identity.ident as nat));
    assert(link.subrange(2, 6) =~= bcd_bytes(identity.ident as nat));
}

/// A label is the manufacturer, a hyphen and the ident, whose digits close it
/// with nothing but zeros up to the eighth in front of them.
pub proof fn law_a_label_is_manufacturer_and_ident(manufacturer: Seq<char>, ident: nat)
    ensures
        ({
            let label = label_of(manufacturer, ident);
            let digits = decimal(ident);
            let n = manufacturer.len() as int;
            &&& label.len() == n + 1 + if digits.len() < 8 {
                8
            } else {
                digits.len() as int
            }
            &&& label.take(n) == manufacturer
            &&& label[n] == '-'
            &&& label.skip(label.len() - digits.len()) == digits
            &&& forall|i: int| n < i < label.len() - digits.len() ==> #[trigger] label[i] == '0'
        }),
{
    reveal_strlit("-");
    law_padding_is_zeros_in_front(ident, 8);
    let label = label_of(manufacturer, ident);
    let digits = decimal(ident);
    let number = padded(ident, 8);
    let n = manufacturer.len() as int;
    assert(label.take(n) =~= manufacturer);
    assert(label.skip(label.len() - digits.len()) =~= number.skip(number.len() - digits.len()));
    assert forall|i: int| n < i < label.len() - digits.len() implies #[trigger] label[i]
        == '0' by {
        assert(label[i] == number[i - n - 1]);
    }
}

/// What a telegram leaves behind: one that is refused nothing, one that says
/// more follow its bytes behind those that came before, and the last of a
/// write all of them held and none in progress. Who the meter is, its access
/// number and a read in progress stay as they are.
pub proof fn law_what_a_telegram_leaves(meter: MeterView, body: Seq<u8>)
    ensures
        ({
            let (after, taken) = meter.taking(body);
            &&& after.identity == meter.identity
            &&& after.primary == meter.primary
            &&& after.access == meter.access
            &&& after.giving == meter.giving
            &&& match unpacked(body) {
                Err(error) => after.held == meter.held && after.arriving == meter.arriving
                    && taken == Err::<bool, ErrorView>(error),
                Ok((bytes, more)) => {
                    &&& taken == Ok::<bool, ErrorView>(!more)
                    &&& more ==> after.held == meter.held && after.arriving == meter.arriving
                        + bytes
                    &&& !more ==> after.held == meter.arriving + bytes && after.arriving.len() == 0
                },
            }
        }),
{
}

/// What a read is given: the next telegram of a read in progress, whatever
/// the room; otherwise the first of those the held Stream is told in, the
/// others kept for the requests that follow; or a refusal of the room, which
/// changes nothing. All else stays as it is.
pub proof fn law_what_a_read_is_given(meter: MeterView, room: nat)
    ensures
        ({
            let (after, given) = meter.handing_out(room);
            &&& after.identity == meter.identity
            &&& after.primary == meter.primary
            &&& after.access == meter.access
            &&& after.held == meter.held
            &&& after.arriving == meter.arriving
            &&& meter.giving.len() > 0 ==> given is Ok && seq![given->Ok_0] + after.giving
                == meter.giving
            &&& meter.giving.len() == 0 ==> match packed(meter.held, room) {
                Ok(bodies) => given is Ok && seq![given->Ok_0] + after.giving == bodies,
                Err(error) => given == Err::<Seq<u8>, ErrorView>(error) && after.giving
                    == meter.giving,
            }
        }),
{
    let (after, given) = meter.handing_out(room);
    if meter.giving.len() > 0 {
        assert(seq![given->Ok_0] + after.giving =~= meter.giving);
    } else if room >= MIN_ROOM {
        law_bodies_fit_their_room(meter.held, room);
        assert(seq![given->Ok_0] + after.giving =~= packed(meter.held, room)->Ok_0);
    }
}

/// A reset empties what is in progress, both ways, and touches nothing else.
pub proof fn law_a_reset_touches_nothing_else(meter: MeterView)
    ensures
        meter.forgetting().arriving.len() == 0,
        meter.forgetting().giving.len() == 0,
        meter.forgetting().held == meter.held,
        meter.forgetting().identity == meter.identity,
        meter.forgetting().primary == meter.primary,
        meter.forgetting().access == meter.access,
{
}

/// Access numbers follow one another and go round after 255.
pub proof fn law_access_numbers_go_round(meter: MeterView)
    ensures
        meter.access < 255 ==> meter.following_access() == meter.access + 1,
        meter.access == 255 ==> meter.following_access() == 0,
{
}

} // verus!

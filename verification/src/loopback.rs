//! A meter as a device on a multi-drop bus, and both ends of one M-Bus
//! exchange.
//!
//! [`OnTheBus`] hears every frame the master puts on the bus and answers the
//! ones addressed to it, by its primary address or a broadcast, as a meter
//! on a real pair of wires does; every other meter on the bus keeps silent.
//! The loopback pair is a master and one meter on a line of their own; the
//! far end is the meter holding what the master wrote, read back a telegram
//! at a time.

use std::time::Duration;

use vstd::prelude::*;

#[allow(unused_imports)]
use crate::error::{viewed, ErrorView, MBusError};
#[allow(unused_imports)]
use crate::frame::{
    decoded, law_decode_undoes_encode, Frame, FrameView, MAX_USER_DATA, REQ_UD2, RSP_UD, SND_NKE,
    SND_UD,
};
#[allow(unused_imports)]
use crate::master::{function_of, MBusTransport, MasterView, ANSWER_ROOM};
#[allow(unused_imports)]
use crate::meter::{Identity, Meter, MeterView};
#[allow(unused_imports)]
use crate::record::{
    law_bodies_fit_their_room, packed, unpacked, CI_DATA_SEND, CI_VARIABLE_LONG,
};

verus! {

/// The primary address of the loopback meter.
pub const METER: u8 = 1;

/// A meter as a device on the bus.
pub struct OnTheBus(pub Meter);

impl View for OnTheBus {
    type V = MeterView;

    open spec fn view(&self) -> MeterView {
        self.0@
    }
}

/// What a meter makes of a frame it hears: the meter it becomes, and what
/// it answers, if the frame is for it.
pub open spec fn answering(meter: MeterView, frame: FrameView) -> (
    MeterView,
    Result<Option<FrameView>, ErrorView>,
) {
    match frame {
        FrameView::Short { control, address } => if !meter.answers(address) {
            (meter, Ok(None))
        } else if function_of(control) == function_of(SND_NKE) {
            (meter.forgetting(), Ok(Some(FrameView::Ack)))
        } else if function_of(control) == function_of(REQ_UD2) {
            let access = meter.following_access();
            let (after, given) = (MeterView { access, ..meter }).handing_out(ANSWER_ROOM as nat);
            match given {
                Err(error) => (after, Err(error)),
                Ok(body) => {
                    let reply = FrameView::Long {
                        control: RSP_UD,
                        address: meter.primary,
                        ci: CI_VARIABLE_LONG,
                        data: meter.identity.long_header_bytes(access) + body,
                    };
                    if reply.fits() {
                        (after, Ok(Some(reply)))
                    } else {
                        (after, Err(ErrorView::OverLongFrame(reply->data.len())))
                    }
                },
            }
        } else {
            (meter, Ok(None))
        },
        FrameView::Long { control, address, ci, data } => if meter.answers(address) && ci
            == CI_DATA_SEND && function_of(control) == function_of(SND_UD) {
            let (after, taken) = meter.taking(data);
            match taken {
                Err(error) => (after, Err(error)),
                Ok(_) => (after, Ok(Some(FrameView::Ack))),
            }
        } else {
            (meter, Ok(None))
        },
        FrameView::Ack => (meter, Ok(None)),
    }
}

/// What a meter makes of the bytes it hears: the meter it becomes, and the
/// bytes it answers with, if they are a frame for it.
pub open spec fn hearing(meter: MeterView, bytes: Seq<u8>) -> (
    MeterView,
    Result<Option<Seq<u8>>, ErrorView>,
) {
    match decoded(bytes) {
        Err(error) => (meter, Err(error)),
        Ok(frame) => {
            let (after, answer) = answering(meter, frame);
            match answer {
                Err(error) => (after, Err(error)),
                Ok(None) => (after, Ok(None)),
                Ok(Some(reply)) => match reply.encoded() {
                    Ok(answered) => (after, Ok(Some(answered))),
                    Err(error) => (after, Err(error)),
                },
            }
        },
    }
}

impl OnTheBus {
    /// What the meter answers `frame` with, if it is for the meter.
    ///
    /// # Errors
    /// User data the meter cannot take, or an answer no frame carries: the
    /// telegram of a read that was opened with more room than a wired answer
    /// leaves.
    pub fn answer(&mut self, frame: &Frame) -> (result: Result<Option<Frame>, MBusError>)
        ensures
            final(self)@ == answering(old(self)@, frame@).0,
            match result {
                Ok(Some(reply)) => answering(old(self)@, frame@).1 == Ok::<
                    Option<FrameView>,
                    ErrorView,
                >(Some(reply@)),
                Ok(None) => answering(old(self)@, frame@).1 == Ok::<Option<FrameView>, ErrorView>(
                    None,
                ),
                Err(error) => answering(old(self)@, frame@).1 == Err::<
                    Option<FrameView>,
                    ErrorView,
                >(error@),
            },
    {
        proof {
            assert(SND_NKE & 0x0f == SND_NKE % 16) by (bit_vector);
            assert(REQ_UD2 & 0x0f == REQ_UD2 % 16) by (bit_vector);
            assert(SND_UD & 0x0f == SND_UD % 16) by (bit_vector);
        }
        match frame {
            Frame::Short { control, address } => {
                let control: u8 = *control;
                assert(control & 0x0f == control % 16) by (bit_vector);
                if !self.0.answers_to(*address) {
                    Ok(None)
                } else if control & 0x0f == SND_NKE & 0x0f {
                    self.0.reset();
                    Ok(Some(Frame::Ack))
                } else if control & 0x0f == REQ_UD2 & 0x0f {
                    let access: u8 = self.0.next_access();
                    let header = self.0.identity().long_header(access);
                    let mut data: Vec<u8> = Vec::new();
                    data.extend_from_slice(header.as_slice());
                    assert(data@ =~= header@);
                    let body = match self.0.give(ANSWER_ROOM) {
                        Ok(body) => body,
                        Err(error) => return Err(error),
                    };
                    data.extend_from_slice(body.as_slice());
                    assert(data@ =~= header@ + body@);
                    if data.len() > MAX_USER_DATA {
                        return Err(MBusError::OverLongFrame(data.len()));
                    }
                    Ok(
                        Some(
                            Frame::Long {
                                control: RSP_UD,
                                address: self.0.primary(),
                                ci: CI_VARIABLE_LONG,
                                data,
                            },
                        ),
                    )
                } else {
                    Ok(None)
                }
            },
            Frame::Long { control, address, ci, data } => {
                let control: u8 = *control;
                assert(control & 0x0f == control % 16) by (bit_vector);
                if self.0.answers_to(*address) && *ci == CI_DATA_SEND && control & 0x0f == SND_UD
                    & 0x0f {
                    match self.0.take(data.as_slice()) {
                        Ok(_) => Ok(Some(Frame::Ack)),
                        Err(error) => Err(error),
                    }
                } else {
                    Ok(None)
                }
            },
            Frame::Ack => Ok(None),
        }
    }

    /// What the meter answers the bytes of a frame with, if it is for the
    /// meter.
    ///
    /// # Errors
    /// Bytes that are no frame, user data the meter cannot take, or an answer
    /// no frame carries.
    pub fn hear(&mut self, frame: &[u8]) -> (result: Result<Option<Vec<u8>>, MBusError>)
        ensures
            final(self)@ == hearing(old(self)@, frame@).0,
            match result {
                Ok(Some(reply)) => hearing(old(self)@, frame@).1 == Ok::<
                    Option<Seq<u8>>,
                    ErrorView,
                >(Some(reply@)),
                Ok(None) => hearing(old(self)@, frame@).1 == Ok::<Option<Seq<u8>>, ErrorView>(
                    None,
                ),
                Err(error) => hearing(old(self)@, frame@).1 == Err::<
                    Option<Seq<u8>>,
                    ErrorView,
                >(error@),
            },
    {
        let heard = match Frame::decode(frame) {
            Ok(heard) => heard,
            Err(error) => return Err(error),
        };
        match self.answer(&heard) {
            Err(error) => Err(error),
            Ok(None) => Ok(None),
            Ok(Some(reply)) => match reply.encode() {
                Ok(bytes) => Ok(Some(bytes)),
                Err(error) => Err(error),
            },
        }
    }
}

impl MBusTransport {
    /// Both ends of a line called `loopback`: a master, and the meter at
    /// [`METER`] that answers it, `timeout` on the master.
    #[must_use]
    pub fn loopback(timeout: Duration) -> (ends: (MBusTransport, OnTheBus))
        ensures
            ends.0@ == (MasterView {
                line: "loopback"@,
                address: METER,
                timeout,
                fcb: true,
            }),
            ends.1@.identity.ident == 12_345_678,
            ends.1@.identity.manufacturer@ == seq![0x58u8, 0x4d, 0x50],
            ends.1@.identity.version == 1,
            ends.1@.identity.medium == 7,
            ends.1@.primary == METER,
            ends.1@.access == 0,
            ends.1@.held == Seq::<u8>::empty(),
            ends.1@.idle(),
    {
        let identity = Identity {
            ident: 12_345_678,
            manufacturer: [0x58, 0x4d, 0x50],
            version: 1,
            medium: 7,
        };
        assert(identity.manufacturer@ =~= seq![0x58u8, 0x4d, 0x50]);
        let meter = Meter::new(identity).at_primary(METER);
        let mut line = String::new();
        line.append("loopback");
        assert(line@ =~= "loopback"@);
        (MBusTransport::new(line, METER).timing_out_after(timeout), OnTheBus(meter))
    }
}

/// Every request has its answer: an addressed meter acknowledges `SND_NKE`,
/// acknowledges `SND_UD` whose records it can take, and answers `REQ_UD2`
/// with `RSP_UD` in its own name, its header in front of a telegram. Only a
/// telegram left from a read with more room, too long for a frame behind the
/// header, is an error in place of the answer.
pub proof fn law_every_request_has_its_answer(
    meter: MeterView,
    control: u8,
    address: u8,
    data: Seq<u8>,
)
    requires
        meter.answers(address),
    ensures
        function_of(control) == function_of(SND_NKE) ==> answering(
            meter,
            FrameView::Short { control, address },
        ) == (meter.forgetting(), Ok::<Option<FrameView>, ErrorView>(Some(FrameView::Ack))),
        function_of(control) == function_of(SND_UD) && unpacked(data) is Ok ==> answering(
            meter,
            FrameView::Long { control, address, ci: CI_DATA_SEND, data },
        ).1 == Ok::<Option<FrameView>, ErrorView>(Some(FrameView::Ack)),
        function_of(control) == function_of(REQ_UD2) && (meter.giving.len() > 0
            ==> meter.giving[0].len() <= ANSWER_ROOM) ==> {
            let answer = answering(meter, FrameView::Short { control, address }).1;
            &&& answer is Ok && answer->Ok_0 is Some
            &&& answer->Ok_0->Some_0 matches FrameView::Long {
                control: c,
                address: a,
                ci,
                data: d,
            } && c == RSP_UD && a == meter.primary && ci == CI_VARIABLE_LONG && d.take(12)
                == meter.identity.long_header_bytes(meter.following_access())
        },
        function_of(control) == function_of(REQ_UD2) && meter.giving.len() > 0
            && meter.giving[0].len() > ANSWER_ROOM ==> answering(
            meter,
            FrameView::Short { control, address },
        ).1 == Err::<Option<FrameView>, ErrorView>(
            ErrorView::OverLongFrame(12 + meter.giving[0].len()),
        ),
{
    if function_of(control) == function_of(REQ_UD2) {
        assert(function_of(REQ_UD2) != function_of(SND_NKE));
        let answer = answering(meter, FrameView::Short { control, address }).1;
        let header = meter.identity.long_header_bytes(meter.following_access());
        assert(header.len() == 12);
        law_bodies_fit_their_room(meter.held, ANSWER_ROOM as nat);
        if meter.giving.len() > 0 ==> meter.giving[0].len() <= ANSWER_ROOM {
            assert(answer->Ok_0->Some_0->data.take(12) =~= header);
        }
    }
}

/// A write the meter cannot take is refused and changes nothing: the meter
/// answers no frame, and is as it was.
pub proof fn law_a_refused_write_changes_nothing(
    meter: MeterView,
    control: u8,
    address: u8,
    data: Seq<u8>,
)
    requires
        meter.answers(address),
        function_of(control) == function_of(SND_UD),
        data.len() <= MAX_USER_DATA,
        unpacked(data) is Err,
    ensures
        hearing(
            meter,
            (FrameView::Long { control, address, ci: CI_DATA_SEND, data }).bytes(),
        ) == (meter, Err::<Option<Seq<u8>>, ErrorView>(unpacked(data)->Err_0)),
{
    law_decode_undoes_encode(FrameView::Long { control, address, ci: CI_DATA_SEND, data });
}

/// What a meter makes of a short frame: one that is not for its own address,
/// `fe` or `ff`, or that asks for neither of the two things it does, leaves it
/// silent and as it was; function 0 is acknowledged and empties what is in
/// progress; function 11 moves the access number on by one and is answered,
/// in the meter's own name, with the header and the next telegram of a read
/// of 240 bytes of room, the telegrams behind it kept.
pub proof fn law_what_a_short_frame_comes_to(meter: MeterView, control: u8, address: u8)
    ensures
        ({
            let (after, answer) = answering(meter, FrameView::Short { control, address });
            let addressed = address == meter.primary || address == 0xfe || address == 0xff;
            let telegrams = if meter.giving.len() > 0 {
                meter.giving
            } else {
                packed(meter.held, 240)->Ok_0
            };
            &&& after.identity == meter.identity
            &&& after.primary == meter.primary
            &&& after.held == meter.held
            &&& !addressed || (control % 16 != 0 && control % 16 != 11) ==> after == meter
                && answer == Ok::<Option<FrameView>, ErrorView>(None)
            &&& addressed && control % 16 == 0 ==> {
                &&& answer == Ok::<Option<FrameView>, ErrorView>(Some(FrameView::Ack))
                &&& after.arriving.len() == 0
                &&& after.giving.len() == 0
                &&& after.access == meter.access
            }
            &&& addressed && control % 16 == 11 ==> {
                &&& after.access == (if meter.access == 255 {
                    0
                } else {
                    meter.access + 1
                })
                &&& after.arriving == meter.arriving
                &&& telegrams.len() > 0
                &&& after.giving == telegrams.skip(1)
                &&& telegrams[0].len() > 240 ==> answer == Err::<Option<FrameView>, ErrorView>(
                    ErrorView::OverLongFrame(12 + telegrams[0].len()),
                )
                &&& telegrams[0].len() <= 240 ==> answer == Ok::<Option<FrameView>, ErrorView>(
                    Some(
                        FrameView::Long {
                            control: 0x08,
                            address: meter.primary,
                            ci: 0x72,
                            data: meter.identity.long_header_bytes(after.access) + telegrams[0],
                        },
                    ),
                )
            }
        }),
{
    law_bodies_fit_their_room(meter.held, 240);
    let header = meter.identity.long_header_bytes(meter.following_access());
    assert(header.len() == 12);
    let telegrams = if meter.giving.len() > 0 {
        meter.giving
    } else {
        packed(meter.held, 240)->Ok_0
    };
    assert(telegrams.drop_first() =~= telegrams.skip(1));
}

/// What a meter makes of a long frame: the data of function 3 with `51`, for
/// its own address, `fe` or `ff`, is taken as a telegram of a write, and
/// acknowledged where it is one; any other long frame, and the
/// acknowledgement, leave it silent and as it was.
pub proof fn law_what_a_long_frame_comes_to(
    meter: MeterView,
    control: u8,
    address: u8,
    ci: u8,
    data: Seq<u8>,
)
    ensures
        ({
            let (after, answer) = answering(meter, FrameView::Long { control, address, ci, data });
            let addressed = address == meter.primary || address == 0xfe || address == 0xff;
            let written = addressed && control % 16 == 3 && ci == 0x51;
            &&& !written ==> after == meter && answer == Ok::<Option<FrameView>, ErrorView>(None)
            &&& written ==> after == meter.taking(data).0 && answer == match unpacked(data) {
                Ok(_) => Ok::<Option<FrameView>, ErrorView>(Some(FrameView::Ack)),
                Err(error) => Err(error),
            }
        }),
        answering(meter, FrameView::Ack) == (meter, Ok::<Option<FrameView>, ErrorView>(None)),
{
}

/// A meter hears frames: bytes that are none are refused and change nothing;
/// a frame comes to what the meter makes of it, and what it answers goes out
/// as bytes that decode to that answer.
pub proof fn law_a_meter_hears_frames(meter: MeterView, bytes: Seq<u8>)
    ensures
        match decoded(bytes) {
            Err(error) => hearing(meter, bytes) == (
                meter,
                Err::<Option<Seq<u8>>, ErrorView>(error),
            ),
            Ok(frame) => {
                let (after, answer) = answering(meter, frame);
                let (left, heard) = hearing(meter, bytes);
                &&& left == after
                &&& match answer {
                    Err(error) => heard == Err::<Option<Seq<u8>>, ErrorView>(error),
                    Ok(None) => heard == Ok::<Option<Seq<u8>>, ErrorView>(None),
                    Ok(Some(reply)) => {
                        &&& heard is Ok && heard->Ok_0 is Some
                        &&& decoded(heard->Ok_0->Some_0) == Ok::<FrameView, ErrorView>(reply)
                    },
                }
            },
        },
{
    if let Ok(frame) = decoded(bytes) {
        if let Ok(Some(reply)) = answering(meter, frame).1 {
            law_decode_undoes_encode(reply);
        }
    }
}

} // verus!

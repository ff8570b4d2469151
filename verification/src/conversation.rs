//! What a master and a meter on one line come to, as laws over the
//! master's decisions and the meter's answers.
//!
//! A [`Conversation`] is both ends and the master's next step; one exchange
//! carries the step's bytes to the meter and the answer back. The laws say
//! what a whole call leaves behind: what was written is held, what is held
//! is read, and a meter that is not addressed neither answers nor changes.

use vstd::prelude::*;

#[allow(unused_imports)]
use crate::error::ErrorView;
#[allow(unused_imports)]
use crate::frame::{
    law_decode_undoes_encode, FrameView, ACK, BROADCAST, BROADCAST_REPLY, MAX_USER_DATA, REQ_UD2,
    RSP_UD, SND_NKE, SND_UD,
};
#[allow(unused_imports)]
use crate::loopback::hearing;
#[allow(unused_imports)]
use crate::master::{
    behind_header, function_of, law_the_count_is_no_part_of_the_function, CallView, MasterView,
    StepView, ANSWER_ROOM,
};
#[allow(unused_imports)]
use crate::meter::MeterView;
#[allow(unused_imports)]
use crate::record::{
    bodies_of, carries, law_bodies_fit_their_room, law_unpack_undoes_pack, unpacked, CI_DATA_SEND,
    CI_VARIABLE_LONG,
};

verus! {

/// Both ends of a line, and what the master does next.
#[verifier::ext_equal]
pub struct Conversation {
    pub master: MasterView,
    pub meter: MeterView,
    pub step: Result<StepView, ErrorView>,
}

/// What comes back to the master from a line with one meter on it: the
/// meter's answer, or nothing where the meter has none. A meter that fails on
/// what it hears is taken to be silent: that is an assumption about the line,
/// which may report the failure instead.
pub open spec fn coming_back(heard: Result<Option<Seq<u8>>, ErrorView>) -> Option<Seq<u8>> {
    match heard {
        Ok(answer) => answer,
        Err(_) => None,
    }
}

/// One exchange on, where the master has something to transmit.
pub open spec fn exchanged(now: Conversation) -> Conversation {
    match now.step {
        Ok(StepView::Transmit { bytes, call }) => {
            let (meter, heard) = hearing(now.meter, bytes);
            let (master, step) = now.master.resuming(call, coming_back(heard));
            Conversation { master, meter, step }
        },
        _ => now,
    }
}

/// `exchanges` exchanges on.
pub open spec fn conversing(now: Conversation, exchanges: nat) -> Conversation
    decreases exchanges,
{
    if exchanges == 0 {
        now
    } else {
        conversing(exchanged(now), (exchanges - 1) as nat)
    }
}

/// A conversation whose next step writes `payload` to `address`.
pub open spec fn write_opened(
    master: MasterView,
    meter: MeterView,
    address: u8,
    payload: Seq<u8>,
) -> Conversation {
    Conversation { master, meter, step: master.opening_write(address, payload) }
}

/// A conversation whose next step reads what the meter holds.
pub open spec fn read_opened(master: MasterView, meter: MeterView) -> Conversation {
    Conversation { master, meter, step: master.reading(Seq::empty()) }
}

/// A conversation whose next step initialises the meter at `address`.
pub open spec fn initialise_opened(
    master: MasterView,
    meter: MeterView,
    address: u8,
) -> Conversation {
    Conversation {
        master: master.starting_over(),
        meter,
        step: master.opening_initialise(address),
    }
}

/// The master after `frames` more frames were heard: each toggles the frame
/// count bit.
pub open spec fn having_heard(master: MasterView, frames: nat) -> MasterView {
    MasterView {
        fcb: if frames % 2 == 0 {
            master.fcb
        } else {
            !master.fcb
        },
        ..master
    }
}

/// The meter after `answers` more answers to a request for data.
pub open spec fn having_answered(meter: MeterView, answers: nat) -> MeterView {
    MeterView { access: ((meter.access + answers) % 256) as u8, ..meter }
}

/// How many telegrams a write of `payload` takes.
pub open spec fn write_telegrams(payload: Seq<u8>) -> nat {
    bodies_of(payload, MAX_USER_DATA as nat).len()
}

/// How many telegrams a read of `held` takes.
pub open spec fn read_telegrams(held: Seq<u8>) -> nat {
    bodies_of(held, ANSWER_ROOM as nat).len()
}

/// One frame heard and then the others are all of them.
proof fn lemma_having_heard(master: MasterView, frames: nat)
    ensures
        having_heard(having_heard(master, 1), frames) == having_heard(master, frames + 1),
{
}

/// One answer given and then the others are all of them.
proof fn lemma_having_answered(meter: MeterView, answers: nat)
    ensures
        having_answered(having_answered(meter, 1), answers) == having_answered(
            meter,
            answers + 1,
        ),
{
    let access = meter.access as int;
    assert(((access + 1) % 256 + answers) % 256 == (access + 1 + answers) % 256);
}

/// A write of telegrams that carry `payload`, from any of them on.
proof fn lemma_write(
    master: MasterView,
    meter: MeterView,
    address: u8,
    bodies: Seq<Seq<u8>>,
    payload: Seq<u8>,
)
    requires
        meter.answers(address),
        carries(bodies, payload),
        forall|i: int| 0 <= i < bodies.len() ==> (#[trigger] bodies[i]).len() <= MAX_USER_DATA,
    ensures
        conversing(
            Conversation { master, meter, step: master.writing(address, bodies) },
            bodies.len(),
        ) == (Conversation {
            master: having_heard(master, bodies.len()),
            meter: MeterView {
                held: meter.arriving + payload,
                arriving: Seq::empty(),
                ..meter
            },
            step: Ok(StepView::Done),
        }),
    decreases bodies.len(),
{
    let now = Conversation { master, meter, step: master.writing(address, bodies) };
    let frame = FrameView::Long {
        control: master.counted(SND_UD),
        address,
        ci: CI_DATA_SEND,
        data: bodies[0],
    };
    let rest = bodies.drop_first();
    law_the_count_is_no_part_of_the_function(master, SND_UD);
    assert(bodies[0].len() <= MAX_USER_DATA);
    law_decode_undoes_encode(frame);
    law_decode_undoes_encode(FrameView::Ack);
    let (bytes, more) = unpacked(bodies[0])->Ok_0;
    let heard = having_heard(master, 1);
    let taken = meter.taking(bodies[0]).0;
    let next = exchanged(now);
    assert(hearing(meter, frame.bytes()) == (taken, Ok::<Option<Seq<u8>>, ErrorView>(
        Some(FrameView::Ack.bytes()),
    )));
    assert(next.master == heard);
    assert(next.meter == taken);
    assert(conversing(now, bodies.len()) == conversing(next, rest.len()));
    if more {
        let left = payload.skip(bytes.len() as int);
        assert(next.step == heard.writing(address, rest));
        assert forall|i: int| 0 <= i < rest.len() implies (#[trigger] rest[i]).len()
            <= MAX_USER_DATA by {
            assert(rest[i] == bodies[i + 1]);
        }
        lemma_write(heard, taken, address, rest, left);
        assert(bytes + left =~= payload);
        assert(meter.arriving + bytes + left =~= meter.arriving + payload);
        lemma_having_heard(master, rest.len());
    } else {
        assert(rest.len() == 0);
        assert(conversing(next, 0) == next);
    }
}

/// The telegrams a read gives next: what a read in progress has left, or
/// what is held.
spec fn next_telegrams(meter: MeterView) -> Seq<Seq<u8>> {
    if meter.giving.len() > 0 {
        meter.giving
    } else {
        bodies_of(meter.held, ANSWER_ROOM as nat)
    }
}

/// The meter after it has given one telegram of `bodies`.
spec fn one_given(meter: MeterView, bodies: Seq<Seq<u8>>) -> MeterView {
    MeterView { giving: bodies.drop_first(), ..having_answered(meter, 1) }
}

/// A meter answers a request with its header and the next telegram.
proof fn lemma_request_answered(master: MasterView, meter: MeterView, bodies: Seq<Seq<u8>>)
    requires
        meter.answers(master.address),
        bodies == next_telegrams(meter),
        bodies.len() > 0,
        bodies[0].len() <= ANSWER_ROOM,
    ensures
        ({
            let request = FrameView::Short {
                control: master.counted(REQ_UD2),
                address: master.address,
            };
            let answer = FrameView::Long {
                control: RSP_UD,
                address: meter.primary,
                ci: CI_VARIABLE_LONG,
                data: meter.identity.long_header_bytes(meter.following_access()) + bodies[0],
            };
            &&& answer.fits()
            &&& behind_header(answer->data) == bodies[0]
            &&& hearing(meter, request.bytes()) == (
                one_given(meter, bodies),
                Ok::<Option<Seq<u8>>, ErrorView>(Some(answer.bytes())),
            )
        }),
{
    let request = FrameView::Short {
        control: master.counted(REQ_UD2),
        address: master.address,
    };
    let header = meter.identity.long_header_bytes(meter.following_access());
    assert(header.len() == 12);
    assert(behind_header(header + bodies[0]) =~= bodies[0]);
    law_the_count_is_no_part_of_the_function(master, REQ_UD2);
    assert(function_of(REQ_UD2) != function_of(SND_NKE));
    law_decode_undoes_encode(request);
    let counted = MeterView { access: meter.following_access(), ..meter };
    assert(counted.handing_out(ANSWER_ROOM as nat) == (
        one_given(meter, bodies),
        Ok::<Seq<u8>, ErrorView>(bodies[0]),
    ));
}

/// One exchange of a read: the master makes of the meter's telegram the
/// Stream or the next request.
proof fn lemma_read_exchanged(
    master: MasterView,
    meter: MeterView,
    bodies: Seq<Seq<u8>>,
    bytes: Seq<u8>,
)
    requires
        meter.answers(master.address),
        bodies == next_telegrams(meter),
        bodies.len() > 0,
        bodies[0].len() <= ANSWER_ROOM,
        unpacked(bodies[0]) is Ok,
    ensures
        exchanged(Conversation { master, meter, step: master.reading(bytes) }) == (Conversation {
            master: having_heard(master, 1),
            meter: one_given(meter, bodies),
            step: if unpacked(bodies[0])->Ok_0.1 {
                having_heard(master, 1).reading(bytes + unpacked(bodies[0])->Ok_0.0)
            } else {
                Ok(
                    StepView::Read {
                        origin_uri: master.origin(master.address),
                        bytes: bytes + unpacked(bodies[0])->Ok_0.0,
                    },
                )
            },
        }),
{
    lemma_request_answered(master, meter, bodies);
    let answer = FrameView::Long {
        control: RSP_UD,
        address: meter.primary,
        ci: CI_VARIABLE_LONG,
        data: meter.identity.long_header_bytes(meter.following_access()) + bodies[0],
    };
    law_decode_undoes_encode(answer);
    assert(function_of(RSP_UD) == RSP_UD);
}

/// A read of what is left of telegrams that carry `payload`, `bytes` having
/// come before it.
proof fn lemma_read(
    master: MasterView,
    meter: MeterView,
    bodies: Seq<Seq<u8>>,
    bytes: Seq<u8>,
    payload: Seq<u8>,
)
    requires
        meter.answers(master.address),
        bodies == next_telegrams(meter),
        carries(bodies, payload),
        forall|i: int| 0 <= i < bodies.len() ==> (#[trigger] bodies[i]).len() <= ANSWER_ROOM,
    ensures
        conversing(
            Conversation { master, meter, step: master.reading(bytes) },
            bodies.len(),
        ) == (Conversation {
            master: having_heard(master, bodies.len()),
            meter: MeterView {
                giving: Seq::empty(),
                ..having_answered(meter, bodies.len())
            },
            step: Ok(
                StepView::Read {
                    origin_uri: master.origin(master.address),
                    bytes: bytes + payload,
                },
            ),
        }),
    decreases bodies.len(),
{
    let now = Conversation { master, meter, step: master.reading(bytes) };
    let rest = bodies.drop_first();
    assert(bodies[0].len() <= ANSWER_ROOM);
    lemma_read_exchanged(master, meter, bodies, bytes);
    lemma_having_heard(master, rest.len());
    lemma_having_answered(meter, rest.len());
    let (chunk, more) = unpacked(bodies[0])->Ok_0;
    let heard = having_heard(master, 1);
    let after = one_given(meter, bodies);
    let next = exchanged(now);
    assert(conversing(now, bodies.len()) == conversing(next, rest.len()));
    if more {
        let left = payload.skip(chunk.len() as int);
        assert forall|i: int| 0 <= i < rest.len() implies (#[trigger] rest[i]).len()
            <= ANSWER_ROOM by {
            assert(rest[i] == bodies[i + 1]);
        }
        assert(next == (Conversation {
            master: heard,
            meter: after,
            step: heard.reading(bytes + chunk),
        }));
        lemma_read(heard, after, rest, bytes + chunk, left);
        assert(bytes + chunk + left =~= bytes + payload) by {
            assert(chunk + left =~= payload);
        }
    } else {
        assert(rest =~= Seq::<Seq<u8>>::empty());
        assert(conversing(next, 0) == next);
    }
}

/// What is written is held: a write to a meter that answers and has no
/// write in progress ends well after as many exchanges as it has telegrams,
/// and leaves the payload held, whatever the payload and however long.
pub proof fn law_a_write_is_held(
    master: MasterView,
    meter: MeterView,
    address: u8,
    payload: Seq<u8>,
)
    requires
        meter.answers(address),
        meter.arriving == Seq::<u8>::empty(),
    ensures
        conversing(
            write_opened(master, meter, address, payload),
            write_telegrams(payload),
        ) == (Conversation {
            master: having_heard(master, write_telegrams(payload)),
            meter: MeterView { held: payload, ..meter },
            step: Ok(StepView::Done),
        }),
{
    law_unpack_undoes_pack(payload, MAX_USER_DATA as nat);
    law_bodies_fit_their_room(payload, MAX_USER_DATA as nat);
    lemma_write(master, meter, address, bodies_of(payload, MAX_USER_DATA as nat), payload);
    assert(meter.arriving + payload =~= payload);
}

/// What is held is read: a read from a meter that answers and has no read
/// in progress ends with the Stream the meter holds, which the meter goes on
/// holding.
pub proof fn law_a_read_gives_what_is_held(master: MasterView, meter: MeterView)
    requires
        meter.answers(master.address),
        meter.giving == Seq::<Seq<u8>>::empty(),
    ensures
        conversing(read_opened(master, meter), read_telegrams(meter.held)) == (Conversation {
            master: having_heard(master, read_telegrams(meter.held)),
            meter: having_answered(meter, read_telegrams(meter.held)),
            step: Ok(
                StepView::Read {
                    origin_uri: master.origin(master.address),
                    bytes: meter.held,
                },
            ),
        }),
{
    let bodies = bodies_of(meter.held, ANSWER_ROOM as nat);
    law_unpack_undoes_pack(meter.held, ANSWER_ROOM as nat);
    law_bodies_fit_their_room(meter.held, ANSWER_ROOM as nat);
    lemma_read(master, meter, bodies, Seq::empty(), meter.held);
    assert(Seq::<u8>::empty() + meter.held =~= meter.held);
}

/// A read gives back a write: what one master writes to an idle meter, by
/// its address or a broadcast, another reads from it whole, and the meter is
/// idle again.
pub proof fn law_a_read_gives_back_a_write(
    writer: MasterView,
    reader: MasterView,
    meter: MeterView,
    address: u8,
    payload: Seq<u8>,
)
    requires
        meter.answers(address),
        meter.answers(reader.address),
        meter.idle(),
    ensures
        ({
            let written = conversing(
                write_opened(writer, meter, address, payload),
                write_telegrams(payload),
            );
            let read = conversing(read_opened(reader, written.meter), read_telegrams(payload));
            &&& written.step == Ok::<StepView, ErrorView>(StepView::Done)
            &&& read.step == Ok::<StepView, ErrorView>(
                StepView::Read { origin_uri: reader.origin(reader.address), bytes: payload },
            )
            &&& read.meter.held == payload
            &&& read.meter.idle()
        }),
{
    law_a_write_is_held(writer, meter, address, payload);
    law_a_read_gives_what_is_held(reader, MeterView { held: payload, ..meter });
}

/// An initialisation forgets what was in progress and keeps what is held:
/// one exchange, and the frame count bit is set.
pub proof fn law_initialise_forgets_what_was_in_progress(
    master: MasterView,
    meter: MeterView,
    address: u8,
)
    requires
        meter.answers(address),
    ensures
        conversing(initialise_opened(master, meter, address), 1) == (Conversation {
            master: MasterView { fcb: true, ..master },
            meter: meter.forgetting(),
            step: Ok(StepView::Done),
        }),
        meter.forgetting().held == meter.held,
        meter.forgetting().idle(),
{
    let now = initialise_opened(master, meter, address);
    let frame = FrameView::Short { control: SND_NKE, address };
    law_decode_undoes_encode(frame);
    law_decode_undoes_encode(FrameView::Ack);
    let next = exchanged(now);
    assert(conversing(next, 0) == next);
    assert(conversing(now, 1) == conversing(next, 0));
}

/// After an initialisation a read gives back a write whatever was in
/// progress before.
pub proof fn law_initialise_then_a_read_gives_back_a_write(
    master: MasterView,
    meter: MeterView,
    payload: Seq<u8>,
)
    requires
        meter.answers(master.address),
    ensures
        ({
            let ready = conversing(initialise_opened(master, meter, master.address), 1);
            let written = conversing(
                write_opened(ready.master, ready.meter, master.address, payload),
                write_telegrams(payload),
            );
            let read = conversing(
                read_opened(written.master, written.meter),
                read_telegrams(payload),
            );
            read.step == Ok::<StepView, ErrorView>(
                StepView::Read { origin_uri: master.origin(master.address), bytes: payload },
            )
        }),
{
    law_initialise_forgets_what_was_in_progress(master, meter, master.address);
    let ready = conversing(initialise_opened(master, meter, master.address), 1);
    law_a_write_is_held(ready.master, ready.meter, master.address, payload);
    let written = conversing(
        write_opened(ready.master, ready.meter, master.address, payload),
        write_telegrams(payload),
    );
    law_a_read_gives_back_a_write(
        ready.master,
        written.master,
        ready.meter,
        master.address,
        payload,
    );
}

/// A meter that is not addressed keeps silent: whatever frame it hears for
/// another, it answers nothing and stays as it is.
pub proof fn law_the_unaddressed_keep_silent(meter: MeterView, frame: FrameView)
    requires
        frame matches FrameView::Long { data, .. } ==> data.len() <= 252,
        match frame {
            FrameView::Ack => true,
            FrameView::Short { address, .. } => address != meter.primary && address
                != BROADCAST_REPLY && address != BROADCAST,
            FrameView::Long { address, .. } => address != meter.primary && address
                != BROADCAST_REPLY && address != BROADCAST,
        },
    ensures
        hearing(meter, frame.bytes()) == (meter, Ok::<Option<Seq<u8>>, ErrorView>(None)),
{
    law_decode_undoes_encode(frame);
}

/// A call to an address nobody has ends in silence: an initialisation, a
/// write and a read alike, after one exchange, the meter on the line as it
/// was.
pub proof fn law_nobody_at_the_address_is_silence(
    master: MasterView,
    meter: MeterView,
    address: u8,
    payload: Seq<u8>,
)
    requires
        address != meter.primary,
        address != BROADCAST_REPLY,
        address != BROADCAST,
    ensures
        conversing(initialise_opened(master, meter, address), 1) == (Conversation {
            master: master.starting_over(),
            meter,
            step: Err(ErrorView::Silence),
        }),
        conversing(write_opened(master, meter, address, payload), 1) == (Conversation {
            master,
            meter,
            step: Err(ErrorView::Silence),
        }),
        address == master.address ==> conversing(read_opened(master, meter), 1) == (Conversation {
            master,
            meter,
            step: Err(ErrorView::Silence),
        }),
{
    let bodies = bodies_of(payload, MAX_USER_DATA as nat);
    law_bodies_fit_their_room(payload, MAX_USER_DATA as nat);
    assert(bodies[0].len() <= MAX_USER_DATA);
    law_the_unaddressed_keep_silent(meter, FrameView::Short { control: SND_NKE, address });
    law_the_unaddressed_keep_silent(
        meter,
        FrameView::Long {
            control: master.counted(SND_UD),
            address,
            ci: CI_DATA_SEND,
            data: bodies[0],
        },
    );
    let initialised = exchanged(initialise_opened(master, meter, address));
    let written = exchanged(write_opened(master, meter, address, payload));
    assert(conversing(initialised, 0) == initialised);
    assert(conversing(written, 0) == written);
    assert(conversing(initialise_opened(master, meter, address), 1) == initialised);
    assert(conversing(write_opened(master, meter, address, payload), 1) == written);
    if address == master.address {
        law_the_unaddressed_keep_silent(
            meter,
            FrameView::Short { control: master.counted(REQ_UD2), address },
        );
        let read = exchanged(read_opened(master, meter));
        assert(conversing(read, 0) == read);
        assert(conversing(read_opened(master, meter), 1) == read);
    }
}

/// Whether the master's next step leaves `bystander` alone: the meter does
/// not answer the frame and does not change, and the call goes on to speak
/// to addresses that are not its own.
pub open spec fn spares(
    master: MasterView,
    step: Result<StepView, ErrorView>,
    bystander: MeterView,
) -> bool {
    match step {
        Ok(StepView::Transmit { bytes, call }) => {
            &&& hearing(bystander, bytes) == (bystander, Ok::<Option<Seq<u8>>, ErrorView>(None))
            &&& match call {
                CallView::Write { address, .. } => address != bystander.primary && address
                    != BROADCAST_REPLY && address != BROADCAST,
                CallView::Read { .. } => master.address != bystander.primary && master.address
                    != BROADCAST_REPLY && master.address != BROADCAST,
                _ => true,
            }
        },
        _ => true,
    }
}

/// The addressed meter is spoken to and the rest of the bus is left alone:
/// a call to an address a meter does not answer opens with a step that
/// spares it.
pub proof fn law_a_call_spares_the_others(
    master: MasterView,
    bystander: MeterView,
    address: u8,
    payload: Seq<u8>,
)
    requires
        address != bystander.primary,
        address != BROADCAST_REPLY,
        address != BROADCAST,
    ensures
        spares(master, master.opening_initialise(address), bystander),
        spares(master, master.opening_write(address, payload), bystander),
        master.address == address ==> spares(master, master.reading(Seq::empty()), bystander),
{
    let bodies = bodies_of(payload, MAX_USER_DATA as nat);
    law_bodies_fit_their_room(payload, MAX_USER_DATA as nat);
    assert(bodies[0].len() <= MAX_USER_DATA);
    law_the_unaddressed_keep_silent(bystander, FrameView::Short { control: SND_NKE, address });
    lemma_writing_spares(master, bystander, address, bodies);
    if master.address == address {
        lemma_reading_spares(master, bystander, Seq::empty());
    }
}

/// And every later step spares it too, whatever came back from the line.
pub proof fn law_a_call_goes_on_sparing_the_others(
    master: MasterView,
    bystander: MeterView,
    bytes: Seq<u8>,
    call: CallView,
    received: Option<Seq<u8>>,
)
    requires
        spares(master, Ok(StepView::Transmit { bytes, call }), bystander),
    ensures
        spares(
            master.resuming(call, received).0,
            master.resuming(call, received).1,
            bystander,
        ),
{
    let (after, step) = master.resuming(call, received);
    match call {
        CallView::Write { address, bodies } => {
            lemma_writing_spares(after, bystander, address, bodies);
        },
        CallView::Read { bytes: so_far } => {
            if let Ok(StepView::Transmit { bytes: _, call: CallView::Read { bytes: now } }) =
                step {
                lemma_reading_spares(after, bystander, now);
            }
        },
        _ => {},
    }
}

proof fn lemma_writing_spares(
    master: MasterView,
    bystander: MeterView,
    address: u8,
    bodies: Seq<Seq<u8>>,
)
    requires
        address != bystander.primary,
        address != BROADCAST_REPLY,
        address != BROADCAST,
    ensures
        spares(master, master.writing(address, bodies), bystander),
{
    let frame = FrameView::Long {
        control: master.counted(SND_UD),
        address,
        ci: CI_DATA_SEND,
        data: bodies[0],
    };
    if frame.fits() {
        law_the_unaddressed_keep_silent(bystander, frame);
    }
}

proof fn lemma_reading_spares(master: MasterView, bystander: MeterView, bytes: Seq<u8>)
    requires
        master.address != bystander.primary,
        master.address != BROADCAST_REPLY,
        master.address != BROADCAST,
    ensures
        spares(master, master.reading(bytes), bystander),
{
    law_the_unaddressed_keep_silent(
        bystander,
        FrameView::Short { control: master.counted(REQ_UD2), address: master.address },
    );
}

/// A broadcast reaches every meter: each takes the write as if it were
/// addressed alone, and any two meters answer a telegram of it with the same
/// byte.
pub proof fn law_a_broadcast_reaches_every_meter(
    master: MasterView,
    one: MeterView,
    two: MeterView,
    payload: Seq<u8>,
    body: Seq<u8>,
)
    requires
        one.arriving == Seq::<u8>::empty(),
        body.len() <= MAX_USER_DATA,
        unpacked(body) is Ok,
    ensures
        conversing(
            write_opened(master, one, BROADCAST, payload),
            write_telegrams(payload),
        ).meter.held == payload,
        ({
            let frame = FrameView::Long {
                control: master.counted(SND_UD),
                address: BROADCAST,
                ci: CI_DATA_SEND,
                data: body,
            };
            &&& hearing(one, frame.bytes()).1 == Ok::<Option<Seq<u8>>, ErrorView>(
                Some(seq![ACK]),
            )
            &&& hearing(two, frame.bytes()).1 == hearing(one, frame.bytes()).1
        }),
{
    law_a_write_is_held(master, one, BROADCAST, payload);
    law_the_count_is_no_part_of_the_function(master, SND_UD);
    law_decode_undoes_encode(
        FrameView::Long {
            control: master.counted(SND_UD),
            address: BROADCAST,
            ci: CI_DATA_SEND,
            data: body,
        },
    );
}

} // verus!

//! Why a telegram, its records or a call on the line is refused.
//!
//! Every refusal is one variant and carries what its message names. Only
//! silence is worth another try; every other refusal is a breach of the
//! protocol that asking again does not mend.

use vstd::prelude::*;

use crate::frame::{push_frame_text, Frame, FrameView};
#[allow(unused_imports)]
use crate::text::{decimal, hex_byte, push_decimal, push_hex_byte};

verus! {

/// A refusal, and what it is about.
#[derive(Clone, Debug, PartialEq, Eq)]
pub enum MBusError {
    /// User data over what a long frame carries: how much there was.
    OverLongFrame(usize),
    /// A short frame whose checksum does not add up.
    ShortChecksum,
    /// A long frame whose two lengths and body do not agree.
    LongLength,
    /// A long frame whose checksum does not add up.
    LongChecksum,
    /// Bytes that are none of the three frames.
    NoFrame,
    /// A first byte that opens no frame.
    NoStart(u8),
    /// Room that holds no record: how much there was.
    NoRoom(usize),
    /// Records after the one that says more follow.
    AfterMoreFollow,
    /// A record whose DIF is not variable length.
    NoStream(u8),
    /// A record cut short before its length.
    CutBeforeLength,
    /// A length byte that does not mean bytes.
    LengthNotBytes,
    /// A record cut short before its end.
    CutBeforeEnd,
    /// A read with nothing to give.
    NothingToGive,
    /// The meter did not answer.
    Silence,
    /// A frame where an acknowledgement was due.
    NotAcknowledged(Frame),
    /// A frame that is not the meter's data.
    NotTheData(Frame),
    /// A target that names no primary address.
    NotAnAddress(String),
}

/// What an [`MBusError`] says, with sequences for its contents.
#[verifier::ext_equal]
pub enum ErrorView {
    OverLongFrame(nat),
    ShortChecksum,
    LongLength,
    LongChecksum,
    NoFrame,
    NoStart(u8),
    NoRoom(nat),
    AfterMoreFollow,
    NoStream(u8),
    CutBeforeLength,
    LengthNotBytes,
    CutBeforeEnd,
    NothingToGive,
    Silence,
    NotAcknowledged(FrameView),
    NotTheData(FrameView),
    NotAnAddress(Seq<char>),
}

impl View for MBusError {
    type V = ErrorView;

    open spec fn view(&self) -> ErrorView {
        match *self {
            MBusError::OverLongFrame(length) => ErrorView::OverLongFrame(length as nat),
            MBusError::ShortChecksum => ErrorView::ShortChecksum,
            MBusError::LongLength => ErrorView::LongLength,
            MBusError::LongChecksum => ErrorView::LongChecksum,
            MBusError::NoFrame => ErrorView::NoFrame,
            MBusError::NoStart(first) => ErrorView::NoStart(first),
            MBusError::NoRoom(room) => ErrorView::NoRoom(room as nat),
            MBusError::AfterMoreFollow => ErrorView::AfterMoreFollow,
            MBusError::NoStream(dif) => ErrorView::NoStream(dif),
            MBusError::CutBeforeLength => ErrorView::CutBeforeLength,
            MBusError::LengthNotBytes => ErrorView::LengthNotBytes,
            MBusError::CutBeforeEnd => ErrorView::CutBeforeEnd,
            MBusError::NothingToGive => ErrorView::NothingToGive,
            MBusError::Silence => ErrorView::Silence,
            MBusError::NotAcknowledged(answer) => ErrorView::NotAcknowledged(answer@),
            MBusError::NotTheData(answer) => ErrorView::NotTheData(answer@),
            MBusError::NotAnAddress(address) => ErrorView::NotAnAddress(address@),
        }
    }
}

impl ErrorView {
    /// The sentence a refusal reads as.
    pub open spec fn message(self) -> Seq<char> {
        match self {
            ErrorView::OverLongFrame(length) => decimal(length)
                + " bytes of user data is over a long frame's 252"@,
            ErrorView::ShortChecksum => "a short frame whose checksum does not add up"@,
            ErrorView::LongLength => "a long frame whose length does not match"@,
            ErrorView::LongChecksum => "a long frame whose checksum does not add up"@,
            ErrorView::NoFrame => "bytes that are no M-Bus frame"@,
            ErrorView::NoStart(first) => hex_byte(first) + " opens no M-Bus frame"@,
            ErrorView::NoRoom(room) => decimal(room) + " bytes of room holds no record"@,
            ErrorView::AfterMoreFollow => "records after the one that says more follow"@,
            ErrorView::NoStream(dif) => "a record of DIF "@ + hex_byte(dif) + " is no Stream"@,
            ErrorView::CutBeforeLength => "a record cut short before its length"@,
            ErrorView::LengthNotBytes => "a length byte that does not mean bytes"@,
            ErrorView::CutBeforeEnd => "a record cut short before its end"@,
            ErrorView::NothingToGive => "a read with nothing to give"@,
            ErrorView::Silence => "the meter did not answer"@,
            ErrorView::NotAcknowledged(answer) => answer.text()
                + " where an acknowledgement was due"@,
            ErrorView::NotTheData(answer) => answer.text() + " is not the meter's data"@,
            ErrorView::NotAnAddress(address) => address + " is not a primary address"@,
        }
    }
}

/// A result with the views of what it holds.
pub open spec fn viewed<T: View>(result: Result<T, MBusError>) -> Result<T::V, ErrorView> {
    match result {
        Ok(value) => Ok(value@),
        Err(error) => Err(error@),
    }
}

impl MBusError {
    /// Whether the same call is worth another try: only after silence.
    #[must_use]
    pub fn retryable(&self) -> (retry: bool)
        ensures
            retry == (self@ == ErrorView::Silence),
    {
        match self {
            MBusError::Silence => true,
            _ => false,
        }
    }

    /// The sentence the refusal reads as.
    #[must_use]
    pub fn message(&self) -> (out: String)
        ensures
            out@ == self@.message(),
    {
        let mut out = String::new();
        match self {
            MBusError::OverLongFrame(length) => {
                push_decimal(&mut out, *length as u64);
                out.append(" bytes of user data is over a long frame's 252");
            },
            MBusError::ShortChecksum => out.append("a short frame whose checksum does not add up"),
            MBusError::LongLength => out.append("a long frame whose length does not match"),
            MBusError::LongChecksum => out.append("a long frame whose checksum does not add up"),
            MBusError::NoFrame => out.append("bytes that are no M-Bus frame"),
            MBusError::NoStart(first) => {
                push_hex_byte(&mut out, *first);
                out.append(" opens no M-Bus frame");
            },
            MBusError::NoRoom(room) => {
                push_decimal(&mut out, *room as u64);
                out.append(" bytes of room holds no record");
            },
            MBusError::AfterMoreFollow => out.append("records after the one that says more follow"),
            MBusError::NoStream(dif) => {
                out.append("a record of DIF ");
                push_hex_byte(&mut out, *dif);
                out.append(" is no Stream");
            },
            MBusError::CutBeforeLength => out.append("a record cut short before its length"),
            MBusError::LengthNotBytes => out.append("a length byte that does not mean bytes"),
            MBusError::CutBeforeEnd => out.append("a record cut short before its end"),
            MBusError::NothingToGive => out.append("a read with nothing to give"),
            MBusError::Silence => out.append("the meter did not answer"),
            MBusError::NotAcknowledged(answer) => {
                push_frame_text(&mut out, answer);
                out.append(" where an acknowledgement was due");
            },
            MBusError::NotTheData(answer) => {
                push_frame_text(&mut out, answer);
                out.append(" is not the meter's data");
            },
            MBusError::NotAnAddress(address) => {
                out.append(address.as_str());
                out.append(" is not a primary address");
            },
        }
        assert(out@ =~= self@.message());
        out
    }
}

/// A refusal names what it is about: the number of bytes, the byte, the frame
/// or the text it carries stands in its message in full.
pub proof fn law_a_message_names_its_subject(
    n: nat,
    byte: u8,
    frame: FrameView,
    text: Seq<char>,
)
    ensures
        ErrorView::OverLongFrame(n).message() == decimal(n)
            + " bytes of user data is over a long frame's 252"@,
        ErrorView::NoStart(byte).message() == hex_byte(byte) + " opens no M-Bus frame"@,
        ErrorView::NoRoom(n).message() == decimal(n) + " bytes of room holds no record"@,
        ErrorView::NoStream(byte).message() == "a record of DIF "@ + hex_byte(byte)
            + " is no Stream"@,
        ErrorView::NotAcknowledged(frame).message() == frame.text()
            + " where an acknowledgement was due"@,
        ErrorView::NotTheData(frame).message() == frame.text() + " is not the meter's data"@,
        ErrorView::NotAnAddress(text).message() == text + " is not a primary address"@,
{
}

/// A refusal is told apart from every other: its view has the same variant
/// and what the variant carries.
pub proof fn law_a_refusal_is_told_apart(error: MBusError)
    ensures
        match error {
            MBusError::OverLongFrame(n) => error@ == ErrorView::OverLongFrame(n as nat),
            MBusError::ShortChecksum => error@ is ShortChecksum,
            MBusError::LongLength => error@ is LongLength,
            MBusError::LongChecksum => error@ is LongChecksum,
            MBusError::NoFrame => error@ is NoFrame,
            MBusError::NoStart(first) => error@ == ErrorView::NoStart(first),
            MBusError::NoRoom(n) => error@ == ErrorView::NoRoom(n as nat),
            MBusError::AfterMoreFollow => error@ is AfterMoreFollow,
            MBusError::NoStream(dif) => error@ == ErrorView::NoStream(dif),
            MBusError::CutBeforeLength => error@ is CutBeforeLength,
            MBusError::LengthNotBytes => error@ is LengthNotBytes,
            MBusError::CutBeforeEnd => error@ is CutBeforeEnd,
            MBusError::NothingToGive => error@ is NothingToGive,
            MBusError::Silence => error@ is Silence,
            MBusError::NotAcknowledged(frame) => error@ == ErrorView::NotAcknowledged(frame@),
            MBusError::NotTheData(frame) => error@ == ErrorView::NotTheData(frame@),
            MBusError::NotAnAddress(text) => error@ == ErrorView::NotAnAddress(text@),
        },
        viewed(Err::<Vec<u8>, MBusError>(error)) == Err::<Seq<u8>, ErrorView>(error@),
{
}

} // verus!

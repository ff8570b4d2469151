use mbus::error::MBusError;
use mbus::frame::{
    checksum, Frame, ACK, BROADCAST, LONG, REQ_UD2, RSP_UD, SHORT, SND_NKE, SND_UD,
};
use std::collections::VecDeque;

fn some_frames() -> Vec<Frame> {
    vec![
        Frame::Ack,
        Frame::Short {
            control: REQ_UD2,
            address: 1,
        },
        Frame::Long {
            control: RSP_UD,
            address: 1,
            ci: 0x72,
            data: vec![1, 2, 3],
        },
        Frame::Long {
            control: SND_UD,
            address: BROADCAST,
            ci: 0x51,
            data: vec![],
        },
    ]
}

#[test]
fn every_frame_encodes_and_decodes_back() {
    for frame in some_frames() {
        let bytes = frame.encode().expect("encode");
        assert_eq!(Frame::decode(&bytes).expect("decode"), frame, "{frame:?}");
    }
    let short = Frame::Short {
        control: SND_NKE,
        address: 5,
    };
    assert_eq!(
        short.encode().expect("encode"),
        [0x10, 0x40, 0x05, 0x45, 0x16]
    );
    let long = Frame::Long {
        control: 0x08,
        address: 0x01,
        ci: 0x72,
        data: vec![0x0d, 0x7f, 0x01, 0x41],
    };
    assert_eq!(
        long.encode().expect("encode"),
        [0x68, 0x07, 0x07, 0x68, 0x08, 0x01, 0x72, 0x0d, 0x7f, 0x01, 0x41, 0x49, 0x16]
    );
}

#[test]
fn a_frame_that_does_not_add_up_is_refused() {
    assert!(
        Frame::decode(&[0x10, 0x40, 0x05, 0x46, 0x16]).is_err(),
        "checksum"
    );
    assert!(
        Frame::decode(&[0x10, 0x40, 0x05, 0x45, 0x17]).is_err(),
        "stop"
    );
    assert!(Frame::decode(&[0x68, 0x04, 0x03, 0x68, 8, 1, 0x72, 0x7b, 0x16]).is_err());
    assert!(Frame::decode(&[0x68, 0x03, 0x03, 0x68, 8, 1, 0x72, 0x7c, 0x16]).is_err());
    assert!(
        Frame::decode(&[0x68, 0x02, 0x02, 0x68, 8, 1, 0x09, 0x16]).is_err(),
        "short"
    );
    assert!(Frame::decode(&[0x99]).is_err(), "no such start");
    assert!(Frame::decode(&[]).is_err(), "nothing");
    let over = Frame::Long {
        control: SND_UD,
        address: 1,
        ci: 0x51,
        data: vec![0; 253],
    };
    assert!(over.encode().is_err(), "over a long frame");
}

#[test]
fn the_start_byte_says_how_much_follows() {
    assert_eq!(Frame::after_start(ACK).expect("ack"), 0);
    assert_eq!(Frame::after_start(SHORT).expect("short"), 4);
    assert_eq!(Frame::after_start(LONG).expect("long"), 3);
    assert!(Frame::after_start(0x00).is_err());
    assert_eq!(Frame::after_long_header(7), 9);
    assert_eq!(checksum(&[0xff, 0x02]), 0x01, "modulo 256");
}

/// A wire that gives back what was put on it, a frame at a time by the
/// length the frame opens with.
struct Port {
    wire: VecDeque<u8>,
}

impl Port {
    fn transmit(&mut self, bytes: &[u8]) {
        self.wire.extend(bytes);
    }

    /// A frame, nothing where the wire is quiet, or why neither: a byte that
    /// opens no frame, or a frame cut short.
    fn receive(&mut self) -> Result<Option<Vec<u8>>, String> {
        if self.wire.is_empty() {
            return Ok(None);
        }
        let mut read = Vec::new();
        loop {
            let length = Frame::measure(&read).map_err(|error| error.message())?;
            if length == Some(read.len()) {
                return Ok(Some(read));
            }
            read.push(self.wire.pop_front().ok_or("cut short")?);
        }
    }
}

#[test]
fn a_serial_port_is_a_line_that_reads_frames_by_their_own_length() {
    let mut port = Port {
        wire: VecDeque::new(),
    };
    assert!(port.receive().expect("quiet").is_none());
    let long = Frame::Long {
        control: RSP_UD,
        address: 1,
        ci: 0x72,
        data: vec![0x16, 0xe5, 0x10],
    };
    let short = Frame::Short {
        control: SND_NKE,
        address: 1,
    };
    for frame in [&long, &Frame::Ack, &short] {
        port.transmit(&frame.encode().expect("encode"));
    }
    for frame in [long, Frame::Ack, short] {
        let bytes = port.receive().expect("receive").expect("a frame");
        assert_eq!(Frame::decode(&bytes).expect("decode"), frame);
    }
    port.transmit(&[0x99]);
    assert!(port.receive().is_err(), "opens no frame");
}

#[test]
fn a_frame_cut_short_is_an_error_not_silence() {
    let mut port = Port {
        wire: VecDeque::new(),
    };
    port.transmit(&[0x10, 0x40]);
    assert!(port.receive().is_err(), "cut short");
}

#[test]
fn what_decodes_encodes_to_the_same_bytes() {
    let bytes = [0x68, 0x03, 0x03, 0x68, 0x53, 0x01, 0x51, 0xa5, 0x16];
    let frame = Frame::decode(&bytes).expect("decode");
    assert_eq!(
        frame,
        Frame::Long {
            control: 0x53,
            address: 1,
            ci: 0x51,
            data: vec![],
        }
    );
    assert_eq!(frame.encode().expect("encode"), bytes);
}

#[test]
fn a_full_long_frame_crosses_and_one_byte_more_does_not() {
    let full = Frame::Long {
        control: SND_UD,
        address: 1,
        ci: 0x51,
        data: vec![0xaa; 252],
    };
    let bytes = full.encode().expect("encode");
    assert_eq!(bytes.len(), 261);
    assert_eq!(bytes[1], 255);
    assert_eq!(Frame::decode(&bytes).expect("decode"), full);
    assert_eq!(Frame::measure(&bytes), Ok(Some(261)));
}

#[test]
fn measuring_waits_for_the_bytes_that_say() {
    assert_eq!(Frame::measure(&[]), Ok(None));
    assert_eq!(Frame::measure(&[0xe5]), Ok(Some(1)));
    assert_eq!(Frame::measure(&[0x10]), Ok(Some(5)));
    assert_eq!(Frame::measure(&[0x68]), Ok(None));
    assert_eq!(Frame::measure(&[0x68, 0x07]), Ok(Some(13)));
    assert_eq!(Frame::measure(&[0x99]), Err(MBusError::NoStart(0x99)));
    for frame in some_frames() {
        let mut line = frame.encode().expect("encode");
        let length = line.len();
        line.extend_from_slice(&[0xe5, 0x68, 0x00]);
        assert_eq!(Frame::measure(&line), Ok(Some(length)));
    }
}

#[test]
fn one_wrong_byte_anywhere_is_refused() {
    for frame in some_frames() {
        let bytes = frame.encode().expect("encode");
        for at in 0..bytes.len() {
            for wrong in 0..=255u8 {
                if wrong != bytes[at] {
                    let mut changed = bytes.clone();
                    changed[at] = wrong;
                    assert!(Frame::decode(&changed).is_err(), "{frame:?} {at} {wrong}");
                }
            }
        }
    }
}

#[test]
fn each_refusal_of_a_frame_says_why() {
    assert_eq!(
        Frame::decode(&[0x10, 0x40, 0x05, 0x46, 0x16]),
        Err(MBusError::ShortChecksum)
    );
    assert_eq!(
        Frame::decode(&[0x68, 0x04, 0x03, 0x68, 8, 1, 0x72, 0x7b, 0x16]),
        Err(MBusError::LongLength)
    );
    assert_eq!(
        Frame::decode(&[0x68, 0x02, 0x02, 0x68, 8, 1, 0x09, 0x16]),
        Err(MBusError::LongLength)
    );
    assert_eq!(
        Frame::decode(&[0x68, 0x00, 0x00, 0x68, 0x00, 0x16]),
        Err(MBusError::LongLength)
    );
    assert_eq!(
        Frame::decode(&[0x68, 0x03, 0x03, 0x68, 8, 1, 0x72, 0x7c, 0x16]),
        Err(MBusError::LongChecksum)
    );
    assert_eq!(Frame::decode(&[0x68, 0x68]), Err(MBusError::NoFrame));
    let over = Frame::Long {
        control: SND_UD,
        address: 1,
        ci: 0x51,
        data: vec![0; 253],
    };
    assert_eq!(over.encode(), Err(MBusError::OverLongFrame(253)));
}

#[test]
fn every_refusal_reads_as_a_sentence() {
    let short = Frame::Short {
        control: 0x53,
        address: 7,
    };
    let long = Frame::Long {
        control: 0x08,
        address: 1,
        ci: 0x72,
        data: vec![0, 10, 255],
    };
    let sentences = [
        (
            MBusError::OverLongFrame(1253),
            "1253 bytes of user data is over a long frame's 252",
        ),
        (
            MBusError::ShortChecksum,
            "a short frame whose checksum does not add up",
        ),
        (
            MBusError::LongLength,
            "a long frame whose length does not match",
        ),
        (
            MBusError::LongChecksum,
            "a long frame whose checksum does not add up",
        ),
        (MBusError::NoFrame, "bytes that are no M-Bus frame"),
        (MBusError::NoStart(0x0a), "0x0a opens no M-Bus frame"),
        (MBusError::NoRoom(4), "4 bytes of room holds no record"),
        (
            MBusError::AfterMoreFollow,
            "records after the one that says more follow",
        ),
        (
            MBusError::NoStream(0xf2),
            "a record of DIF 0xf2 is no Stream",
        ),
        (
            MBusError::CutBeforeLength,
            "a record cut short before its length",
        ),
        (
            MBusError::LengthNotBytes,
            "a length byte that does not mean bytes",
        ),
        (MBusError::CutBeforeEnd, "a record cut short before its end"),
        (MBusError::NothingToGive, "a read with nothing to give"),
        (MBusError::Silence, "the meter did not answer"),
        (
            MBusError::NotAcknowledged(short.clone()),
            "Short { control: 83, address: 7 } where an acknowledgement was due",
        ),
        (
            MBusError::NotTheData(long.clone()),
            "Long { control: 8, address: 1, ci: 114, data: [0, 10, 255] } is not the meter's data",
        ),
        (
            MBusError::NotTheData(Frame::Ack),
            "Ack is not the meter's data",
        ),
        (
            MBusError::NotAnAddress("x".to_string()),
            "x is not a primary address",
        ),
    ];
    for (error, sentence) in sentences {
        assert_eq!(error.message(), sentence);
        assert_eq!(error.retryable(), error == MBusError::Silence);
    }
    for frame in [short, long, Frame::Ack] {
        assert_eq!(
            MBusError::NotTheData(frame.clone()).message(),
            format!("{frame:?} is not the meter's data")
        );
    }
}

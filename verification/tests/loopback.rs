use mbus::error::MBusError;
use mbus::frame::{Frame, RSP_UD};
use mbus::loopback::{OnTheBus, METER};
use mbus::master::{acknowledged, Arrived, MBusTransport, Step};
use mbus::meter::{Identity, Meter};
use std::time::Duration;

/// How long a master on an in-process line waits.
const LOOPBACK_TIMEOUT: Duration = Duration::from_millis(50);

/// Two wires with meters on them. What several answer at once overlays into
/// one where it is the same.
struct Bus {
    meters: Vec<OnTheBus>,
    broken: bool,
}

impl Bus {
    fn new(meters: Vec<OnTheBus>) -> Bus {
        Bus {
            meters,
            broken: false,
        }
    }

    fn carry(&mut self, bytes: &[u8]) -> Result<Option<Vec<u8>>, String> {
        if self.broken {
            return Err("a break condition".to_string());
        }
        let mut heard: Option<Vec<u8>> = None;
        for meter in &mut self.meters {
            if let Some(answer) = meter.hear(bytes).map_err(|error| error.message())? {
                match &heard {
                    Some(other) if *other != answer => return Err("a collision".to_string()),
                    _ => heard = Some(answer),
                }
            }
        }
        Ok(heard)
    }
}

/// Carry a call to its end.
fn carried(
    master: &mut MBusTransport,
    bus: &mut Bus,
    opened: Result<Step, MBusError>,
) -> Result<Step, MBusError> {
    let mut step = opened?;
    while let Step::Transmit { bytes, call } = step {
        let heard = bus.carry(&bytes).map_err(|_| MBusError::NoFrame)?;
        step = master.resume(call, heard.as_deref())?;
    }
    Ok(step)
}

fn initialise(master: &mut MBusTransport, bus: &mut Bus, at: u8) -> Result<(), MBusError> {
    let opened = master.initialise(at);
    match carried(master, bus, opened)? {
        Step::Done => Ok(()),
        _ => panic!("an initialisation ends done"),
    }
}

fn write(
    master: &mut MBusTransport,
    bus: &mut Bus,
    at: u8,
    bytes: &[u8],
) -> Result<(), MBusError> {
    let opened = master.write_stream(at, bytes);
    match carried(master, bus, opened)? {
        Step::Done => Ok(()),
        _ => panic!("a write ends done"),
    }
}

fn read(master: &mut MBusTransport, bus: &mut Bus) -> Result<Arrived, MBusError> {
    let opened = master.read_stream();
    match carried(master, bus, opened)? {
        Step::Read(arrived) => Ok(arrived),
        _ => panic!("a read ends with a Stream"),
    }
}

fn meter(ident: u32, primary: u8) -> OnTheBus {
    OnTheBus(
        Meter::new(Identity {
            ident,
            manufacturer: *b"ABC",
            version: 0,
            medium: 3,
        })
        .at_primary(primary),
    )
}

fn master_on(line: &str, address: u8) -> MBusTransport {
    MBusTransport::new(line.to_string(), address)
}

#[test]
fn the_loopback_returns_the_edges_whole() {
    let (mut master, device) = MBusTransport::loopback(LOOPBACK_TIMEOUT);
    let mut bus = Bus::new(vec![device]);
    let edges: Vec<(&str, Vec<u8>)> = vec![
        ("empty", vec![]),
        ("one zero", vec![0]),
        ("every byte", (0..=255).collect()),
        ("stops and starts", vec![0x16, 0xe5, 0x10, 0x68, 0x1f, 0x0d]),
        ("a full record", vec![0x1f; 191]),
        ("one over a record", vec![0xff; 192]),
        ("one over a telegram", vec![0x0d; 249]),
    ];
    for (name, bytes) in edges {
        write(&mut master, &mut bus, METER, &bytes).expect(name);
        let arrived = read(&mut master, &mut bus).expect(name);
        assert_eq!(arrived.bytes, bytes, "{name}");
        assert_eq!(arrived.origin_uri, "mbus://loopback/1", "{name}");
    }
}

#[test]
fn a_long_stream_crosses_in_many_telegrams_both_ways() {
    let (mut master, device) = MBusTransport::loopback(LOOPBACK_TIMEOUT);
    let mut bus = Bus::new(vec![device]);
    let long: Vec<u8> = (0..3000u32)
        .map(|n| u8::try_from(n % 253).unwrap_or(0))
        .collect();
    write(&mut master, &mut bus, METER, &long).expect("sixteen telegrams");
    assert_eq!(read(&mut master, &mut bus).expect("read").bytes, long);
    initialise(&mut master, &mut bus, METER).expect("SND_NKE");
    assert_eq!(read(&mut master, &mut bus).expect("still held").bytes, long);
}

#[test]
fn on_one_bus_the_addressed_meter_answers_and_the_other_keeps_silent() {
    let mut bus = Bus::new(vec![meter(3, 3), meter(5, 5)]);
    let mut master = master_on("rs485", 1).timing_out_after(Duration::from_millis(10));

    assert!(
        initialise(&mut master, &mut bus, 1)
            .expect_err("silence")
            .retryable(),
        "nobody at 1"
    );
    initialise(&mut master, &mut bus, 3).expect("addressed");
    initialise(&mut master, &mut bus, 5).expect("addressed");
    write(&mut master_on("rs485", 3), &mut bus, 3, b"for three").expect("three takes it");
    assert_eq!(bus.meters[0].0.held(), b"for three");
    assert!(
        bus.meters[1].0.held().is_empty(),
        "five heard it and kept silent"
    );

    assert!(read(&mut master_on("rs485", 5), &mut bus)
        .expect("five answers")
        .bytes
        .is_empty());
    let read = read(&mut master_on("rs485", 3), &mut bus).expect("three answers");
    assert_eq!(read.bytes, b"for three");
    assert_eq!(read.origin_uri, "mbus://rs485/3");
}

#[test]
fn a_broadcast_reaches_every_meter_and_a_break_is_an_error() {
    let mut bus = Bus::new(vec![meter(3, 3), meter(5, 5)]);
    let mut master = master_on("rs485", 3).timing_out_after(Duration::from_millis(10));
    write(&mut master, &mut bus, 0xff, b"to all").expect("everyone takes it");
    assert_eq!(bus.meters[0].0.held(), b"to all");
    assert_eq!(bus.meters[1].0.held(), b"to all");
    bus.broken = true;
    assert!(
        initialise(&mut master, &mut bus, 3).is_err(),
        "a break condition"
    );
}

/// Carry a call on a bare line, which gives back what is put on it.
fn echoed(
    master: &mut MBusTransport,
    opened: Result<Step, MBusError>,
) -> Result<Step, MBusError> {
    let mut step = opened?;
    while let Step::Transmit { bytes, call } = step {
        step = master.resume(call, Some(&bytes))?;
    }
    Ok(step)
}

#[test]
fn a_master_names_itself_and_takes_an_address_from_the_target() {
    let mut master = master_on("loopback", 1).timing_out_after(Duration::from_millis(10));
    assert_eq!(master.name(), "m-bus");
    assert_eq!(master.origin(1), "mbus://loopback/1");
    assert!(master.send(Some("x"), b"").is_err(), "not an address");
    let opened = master.send(Some("7"), b"");
    let error = match echoed(&mut master, opened) {
        Err(error) => error,
        Ok(_) => panic!("no meter"),
    };
    assert!(
        error.message().contains("acknowledgement"),
        "a bare line echoes the master: {}",
        error.message()
    );
    let opened = master.read_stream();
    assert!(echoed(&mut master, opened).is_err(), "no meter");
}

/// The bytes a step transmits.
fn transmitted(step: Result<Step, MBusError>) -> Vec<u8> {
    match step {
        Ok(Step::Transmit { bytes, .. }) => bytes,
        _ => panic!("a step that transmits"),
    }
}

#[test]
fn a_target_without_an_address_is_the_masters_own_meter() {
    let master = master_on("loopback", 9);
    for (named, address) in [
        (None, 9),
        (Some(""), 9),
        (Some("0"), 0),
        (Some("007"), 7),
        (Some("+12"), 12),
        (Some("255"), 255),
    ] {
        assert_eq!(transmitted(master.send(named, b"a"))[5], address, "{named:?}");
    }
    for refused in ["x", "256", "-1", "+", " 1", "1 ", "1x", "99999999999999999999"] {
        match master.send(Some(refused), b"a") {
            Err(error) => assert_eq!(error, MBusError::NotAnAddress(refused.to_string())),
            Ok(_) => panic!("{refused} is not an address"),
        }
    }
}

#[test]
fn every_address_of_an_origin_is_one_a_target_takes() {
    let master = master_on("loopback", 1);
    for address in 0..=255u8 {
        let origin = master.origin(address);
        let named = origin.rsplit('/').next();
        assert_eq!(transmitted(master.send(named, b""))[5], address);
    }
}

#[test]
fn a_master_waits_a_second_unless_told() {
    let master = master_on("line", 1);
    assert_eq!(master.timeout, Duration::from_secs(1));
    let hasty = master.timing_out_after(Duration::from_nanos(3));
    assert_eq!(hasty.timeout, Duration::from_nanos(3));
    assert_eq!((hasty.address, hasty.fcb, hasty.line.as_str()), (1, true, "line"));
}

#[test]
fn the_frame_count_bit_toggles_with_every_frame_that_comes_back() {
    let (mut master, device) = MBusTransport::loopback(LOOPBACK_TIMEOUT);
    let mut bus = Bus::new(vec![device]);
    assert_eq!(master.control(0x53), 0x73);
    assert_eq!(transmitted(master.read_stream())[1], 0x7b);
    write(&mut master, &mut bus, METER, b"one telegram").expect("write");
    assert_eq!(master.control(0x53), 0x53);
    assert_eq!(transmitted(master.read_stream())[1], 0x5b);
    assert!(initialise(&mut master, &mut bus, 2).is_err());
    assert!(!master.fcb, "an initialisation starts the count over");
    initialise(&mut master, &mut bus, METER).expect("addressed");
    assert!(master.fcb);
    let opened = master.initialise(METER);
    assert!(echoed(&mut master, opened).is_err());
    assert!(master.fcb, "a frame came back, though no acknowledgement");
}

#[test]
fn an_exchange_ends_with_whatever_frame_comes() {
    let mut master = master_on("line", 1);
    let request = Frame::Short {
        control: 0x7b,
        address: 1,
    };
    for (heard, end) in [
        (Some(vec![0xe5]), Ok(Frame::Ack)),
        (None, Err(MBusError::Silence)),
        (Some(vec![0x00]), Err(MBusError::NoFrame)),
    ] {
        match master.exchange(&request).expect("a frame") {
            Step::Transmit { bytes, call } => {
                assert_eq!(bytes, [0x10, 0x7b, 0x01, 0x7c, 0x16]);
                let ended = match master.resume(call, heard.as_deref()) {
                    Ok(Step::Answered(answer)) => Ok(answer),
                    Ok(_) => panic!("an exchange ends with the answer"),
                    Err(error) => Err(error),
                };
                assert_eq!(ended, end);
            }
            _ => panic!("a step that transmits"),
        }
    }
    let over = Frame::Long {
        control: 0x53,
        address: 1,
        ci: 0x51,
        data: vec![0; 253],
    };
    assert!(master.exchange(&over).is_err());
}

#[test]
fn a_read_takes_only_the_meters_data() {
    let mut master = master_on("line", 1);
    let data = |control: u8, ci: u8, data: Vec<u8>| Frame::Long {
        control,
        address: 1,
        ci,
        data,
    };
    let mut records = vec![0; 12];
    records.extend_from_slice(&[0x0d, 0x7f, 0x01, 0x2a]);
    let mut bad = vec![0; 12];
    bad.push(0x02);
    let cases = [
        (data(RSP_UD, 0x72, records.clone()), Ok(vec![0x2a])),
        (data(0x38, 0x72, records.clone()), Ok(vec![0x2a])),
        (data(RSP_UD, 0x72, vec![0x0d, 0x7f]), Ok(vec![])),
        (
            data(RSP_UD, 0x7a, records.clone()),
            Err(MBusError::NotTheData(data(RSP_UD, 0x7a, records.clone()))),
        ),
        (
            data(0x53, 0x72, records.clone()),
            Err(MBusError::NotTheData(data(0x53, 0x72, records.clone()))),
        ),
        (Frame::Ack, Err(MBusError::NotTheData(Frame::Ack))),
        (data(RSP_UD, 0x72, bad), Err(MBusError::NoStream(0x02))),
    ];
    for (answer, end) in cases {
        match master.read_stream().expect("a request") {
            Step::Transmit { call, .. } => {
                let heard = answer.encode().expect("encode");
                let ended = match master.resume(call, Some(&heard)) {
                    Ok(Step::Read(arrived)) => Ok(arrived.bytes),
                    Ok(_) => panic!("the read is over"),
                    Err(error) => Err(error),
                };
                assert_eq!(ended, end);
            }
            _ => panic!("a step that transmits"),
        }
    }
}

#[test]
fn only_an_acknowledgement_acknowledges() {
    assert_eq!(acknowledged(Frame::Ack), Ok(()));
    let other = Frame::Short {
        control: 1,
        address: 2,
    };
    assert_eq!(
        acknowledged(other.clone()),
        Err(MBusError::NotAcknowledged(other))
    );
}

#[test]
fn a_meter_answers_what_is_asked_of_it() {
    let mut device = meter(5, 5);
    let ask = |control: u8, address: u8| Frame::Short { control, address };
    assert_eq!(device.answer(&Frame::Ack), Ok(None));
    assert_eq!(device.answer(&ask(0x40, 5)), Ok(Some(Frame::Ack)));
    assert_eq!(device.answer(&ask(0x40, 6)), Ok(None));
    assert_eq!(device.answer(&ask(0x41, 5)), Ok(None));
    let mut data = device.0.identity().long_header(1).to_vec();
    data.extend_from_slice(&[0x0d, 0x7f, 0x00]);
    assert_eq!(
        device.answer(&ask(0x7b, 0xfe)),
        Ok(Some(Frame::Long {
            control: 0x08,
            address: 5,
            ci: 0x72,
            data,
        }))
    );
    let send = |control: u8, ci: u8, data: Vec<u8>| Frame::Long {
        control,
        address: 5,
        ci,
        data,
    };
    assert_eq!(
        device.answer(&send(0x73, 0x51, vec![0x0d, 0x7f, 0x01, 8])),
        Ok(Some(Frame::Ack))
    );
    assert_eq!(device.0.held(), [8]);
    assert_eq!(device.answer(&send(0x73, 0x72, vec![])), Ok(None));
    assert_eq!(
        device.answer(&send(0x53, 0x51, vec![0x02])),
        Err(MBusError::NoStream(0x02))
    );
    assert_eq!(device.hear(&[0x99]), Err(MBusError::NoFrame));
    assert_eq!(
        device.hear(&[0x10, 0x40, 0x05, 0x45, 0x16]),
        Ok(Some(vec![0xe5]))
    );
}

#[test]
fn an_answer_no_frame_carries_is_an_error() {
    let mut device = meter(5, 5);
    let long = mbus::record::pack(&[7; 800], 2000).expect("pack");
    device.0.take(&long[0]).expect("take");
    device.0.give(400).expect("a read with more room");
    assert_eq!(
        device.hear(&Frame::Short { control: 0x5b, address: 5 }.encode().expect("encode")),
        Err(MBusError::OverLongFrame(12 + 2 * 194 + 1))
    );
}

#[test]
fn a_telegram_too_long_for_an_answer_is_refused_and_the_read_goes_on() {
    let mut device = meter(5, 1);
    for body in mbus::record::pack(&[7; 700], 252).expect("pack") {
        device.0.take(&body).expect("take");
    }
    device.0.give(400).expect("a read with more room");
    let request = Frame::Short {
        control: 0x5b,
        address: 1,
    };
    assert_eq!(
        device.answer(&request),
        Err(MBusError::OverLongFrame(12 + 324))
    );
    // The refused telegram was the last; the next request opens a new read.
    match device.answer(&request) {
        Ok(Some(Frame::Long { data, .. })) => {
            assert_eq!(data[8], 2, "the refused answer was counted");
            assert!(data.len() <= 252);
        }
        other => panic!("{other:?}"),
    }
}

#[test]
fn a_loopback_master_waits_as_long_as_it_is_told() {
    let (master, device) = MBusTransport::loopback(Duration::from_millis(7));
    assert_eq!(master.timeout, Duration::from_millis(7));
    assert_eq!((master.address, master.fcb, master.line.as_str()), (1, true, "loopback"));
    assert_eq!(device.0.primary(), METER);
    assert_eq!(device.0.identity().label(), "XMP-12345678");
    assert!(device.0.held().is_empty());
}

#[test]
fn two_who_share_a_master_share_its_frame_count() {
    let (mut master, device) = MBusTransport::loopback(LOOPBACK_TIMEOUT);
    let mut bus = Bus::new(vec![device]);
    let writer = &mut master;
    write(writer, &mut bus, METER, b"one telegram").expect("write");
    let reader = &mut master;
    assert_eq!(transmitted(reader.read_stream())[1], 0x5b, "the write moved it");
    assert_eq!(read(reader, &mut bus).expect("read").bytes, b"one telegram");
    assert_eq!(master.control(0x53), 0x73, "and the read moved it back");
}

use mbus::error::MBusError;
use mbus::record::{pack, unpack, MORE_FOLLOW};

#[test]
fn a_stream_packs_into_records_and_unpacks_whole() {
    let payload: Vec<u8> = (0..600u32)
        .map(|n| u8::try_from(n % 256).unwrap_or(0))
        .collect();
    let bodies = pack(&payload, 252).expect("pack");
    assert_eq!(
        bodies.len(),
        3,
        "191 a record; the 27-byte fourth fits the third body"
    );
    assert!(bodies[..2]
        .iter()
        .all(|body| body.last() == Some(&MORE_FOLLOW)));
    assert_ne!(bodies[2].last(), Some(&MORE_FOLLOW));
    assert!(bodies.iter().all(|body| body.len() <= 252));
    let mut back = Vec::new();
    for (at, body) in bodies.iter().enumerate() {
        let (bytes, more) = unpack(body).expect("unpack");
        back.extend_from_slice(&bytes);
        assert_eq!(more, at < 2, "body {at}");
    }
    assert_eq!(back, payload);
}

#[test]
fn an_empty_stream_is_one_empty_record_and_small_room_shrinks_the_record() {
    assert_eq!(pack(&[], 252).expect("pack"), vec![vec![0x0d, 0x7f, 0x00]]);
    assert_eq!(
        unpack(&[0x0d, 0x7f, 0x00]).expect("unpack"),
        (vec![], false)
    );
    let bodies = pack(&[1, 2, 3, 4, 5], 6).expect("tight");
    assert_eq!(bodies.len(), 3, "two bytes a record, one record a body");
    assert_eq!(bodies[0], [0x0d, 0x7f, 0x02, 1, 2, 0x1f]);
    assert_eq!(bodies[2], [0x0d, 0x7f, 0x01, 5]);
    assert!(pack(&[], 4).is_err(), "no room for a record");
    let bodies = pack(&[7; 300], 400).expect("two records one body");
    assert_eq!(bodies.len(), 1);
    assert_eq!(unpack(&bodies[0]).expect("unpack").0, [7; 300]);
}

#[test]
fn records_that_are_no_stream_are_refused() {
    assert!(
        unpack(&[0x02, 0x13, 0x01, 0x00]).is_err(),
        "a numeric record"
    );
    assert!(unpack(&[0x0d, 0x7f]).is_err(), "no length");
    assert!(unpack(&[0x0d, 0x7f, 0x05, 1, 2]).is_err(), "cut short");
    assert!(
        unpack(&[0x0d, 0x7f, 0xe4, 1, 2, 3, 4]).is_err(),
        "a binary number"
    );
    assert!(
        unpack(&[0x1f, 0x0d, 0x7f, 0x00]).is_err(),
        "more follow, then more"
    );
    assert_eq!(unpack(&[]).expect("nothing"), (vec![], false));
}

#[test]
fn every_room_and_length_unpacks_whole_and_keeps_to_its_room() {
    for room in [5, 6, 7, 100, 194, 195, 196, 240, 252, 400] {
        for length in [0, 1, 2, 3, 190, 191, 192, 382, 383, 700] {
            let payload: Vec<u8> = (0..length as u32).map(|n| (n % 256) as u8).collect();
            let bodies = pack(&payload, room).expect("pack");
            let mut back = Vec::new();
            for (at, body) in bodies.iter().enumerate() {
                assert!(!body.is_empty() && body.len() <= room, "{room} {length}");
                let (bytes, more) = unpack(body).expect("unpack");
                back.extend_from_slice(&bytes);
                assert_eq!(more, at + 1 < bodies.len(), "{room} {length}");
            }
            assert_eq!(back, payload, "{room} {length}");
        }
    }
}

#[test]
fn a_value_information_field_is_not_looked_at() {
    assert_eq!(
        unpack(&[0x0d, 0x13, 0x02, 4, 5, 0x0d, 0x7f, 0x01, 6, 0x1f]),
        Ok((vec![4, 5, 6], true))
    );
}

#[test]
fn each_refusal_of_records_says_why() {
    assert_eq!(pack(&[1], 4), Err(MBusError::NoRoom(4)));
    assert_eq!(
        unpack(&[0x1f, 0x0d, 0x7f, 0x00]),
        Err(MBusError::AfterMoreFollow)
    );
    assert_eq!(unpack(&[0x02, 0x13]), Err(MBusError::NoStream(0x02)));
    assert_eq!(unpack(&[0x0d, 0x7f]), Err(MBusError::CutBeforeLength));
    assert_eq!(
        unpack(&[0x0d, 0x7f, 0xc0, 1]),
        Err(MBusError::LengthNotBytes)
    );
    assert_eq!(
        unpack(&[0x0d, 0x7f, 0x02, 1]),
        Err(MBusError::CutBeforeEnd)
    );
    assert_eq!(
        unpack(&[0x0d, 0x7f, 0x01, 1, 0x99]),
        Err(MBusError::NoStream(0x99)),
        "a good record does not save a bad one"
    );
}

#[test]
fn a_telegram_holds_as_many_records_as_fit_its_room() {
    for room in [5, 6, 9, 194, 195, 196, 240, 252, 400, 600] {
        let bodies = pack(&[7; 1500], room).expect("pack");
        for pair in bodies.windows(2) {
            assert_eq!(pair[1][0], 0x0d);
            assert!(pair[0].len() + 3 + usize::from(pair[1][2]) > room, "{room}");
        }
    }
}

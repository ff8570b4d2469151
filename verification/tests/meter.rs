use mbus::error::MBusError;
use mbus::meter::{label_from, Identity, Meter};
use mbus::text::push_padded;
use mbus::record;

fn identity() -> Identity {
    Identity {
        ident: 12_345_678,
        manufacturer: *b"XMP",
        version: 1,
        medium: 7,
    }
}

#[test]
fn an_identity_packs_into_the_headers_and_the_link_address() {
    let identity = identity();
    assert_eq!(identity.manufacturer_code(), 0x61b0, "X=24 M=13 P=16");
    assert_eq!(identity.ident_bcd(), [0x78, 0x56, 0x34, 0x12]);
    assert_eq!(
        identity.link_address(),
        [0xb0, 0x61, 0x78, 0x56, 0x34, 0x12, 1, 7]
    );
    assert_eq!(
        identity.long_header(3),
        [0x78, 0x56, 0x34, 0x12, 0xb0, 0x61, 1, 7, 3, 0, 0, 0]
    );
    assert_eq!(Identity::short_header(9), [9, 0, 0, 0]);
    assert_eq!(identity.label(), "XMP-12345678");
}

#[test]
fn a_meter_takes_a_write_over_telegrams_and_gives_it_back_over_telegrams() {
    let mut meter = Meter::new(identity()).at_primary(1);
    assert!(meter.answers_to(1) && meter.answers_to(0xfe) && meter.answers_to(0xff));
    assert!(!meter.answers_to(2));
    let payload: Vec<u8> = (0..500u32)
        .map(|n| u8::try_from(n % 251).unwrap_or(0))
        .collect();
    let bodies = record::pack(&payload, 252).expect("pack");
    for body in &bodies[..bodies.len() - 1] {
        assert!(!meter.take(body).expect("take"), "more follow");
        assert!(meter.held().is_empty(), "not held until complete");
    }
    assert!(meter.take(&bodies[bodies.len() - 1]).expect("take"));
    assert_eq!(meter.held(), payload);
    let mut back = Vec::new();
    loop {
        let (bytes, more) = record::unpack(&meter.give(240).expect("give")).expect("unpack");
        back.extend_from_slice(&bytes);
        if !more {
            break;
        }
    }
    assert_eq!(back, payload);
    assert_eq!(meter.next_access(), 1);
    assert_eq!(meter.next_access(), 2);
    assert_eq!(meter.primary(), 1);
    assert_eq!(meter.identity(), &identity());
}

#[test]
fn a_reset_forgets_what_was_in_progress() {
    let mut meter = Meter::new(identity());
    let bodies = record::pack(&[9; 400], 252).expect("pack");
    assert!(!meter.take(&bodies[0]).expect("take"));
    meter.reset();
    assert!(meter.take(&bodies[1]).expect("take"));
    assert_eq!(meter.held().len(), 400 - 191, "only the last telegram");
    assert!(meter.take(&[0x02, 0x13]).is_err(), "a numeric record");
    assert!(meter.give(3).is_err(), "no room");
}

#[test]
fn a_label_replaces_what_is_no_text_and_keeps_every_digit() {
    let odd = Identity {
        ident: u32::MAX,
        manufacturer: [0xff, b'A', 0xc3],
        version: 0,
        medium: 0,
    };
    assert_eq!(odd.label(), "\u{fffd}A\u{fffd}-4294967295");
    let small = Identity {
        ident: 7,
        manufacturer: *b"ABC",
        version: 0,
        medium: 0,
    };
    assert_eq!(small.label(), "ABC-00000007");
    assert_eq!(label_from("XMP", 12_345), "XMP-00012345");
}

#[test]
fn a_code_takes_five_bits_of_any_letter_and_the_lowest_eight_digits() {
    let odd = Identity {
        ident: 4_294_967_295,
        manufacturer: [b'A', b' ', b'z'],
        version: 0,
        medium: 0,
    };
    assert_eq!(odd.manufacturer_code(), 1024 + 26);
    assert_eq!(odd.ident_bcd(), [0x95, 0x72, 0x96, 0x94]);
}

#[test]
fn the_letters_read_back_from_the_code() {
    let code = identity().manufacturer_code();
    assert_eq!(
        [code / 1024 + 64, (code / 32) % 32 + 64, code % 32 + 64],
        [u16::from(b'X'), u16::from(b'M'), u16::from(b'P')]
    );
}

#[test]
fn header_and_link_address_hold_the_same_fields() {
    let header = identity().long_header(200);
    let link = identity().link_address();
    assert_eq!(header[0..4], link[2..6]);
    assert_eq!(header[4..6], link[0..2]);
    assert_eq!(header[6..8], link[6..8]);
    assert_eq!(header[8], 200);
}

#[test]
fn a_refused_telegram_changes_nothing() {
    let mut meter = Meter::new(identity());
    assert_eq!(meter.take(&[0x0d, 0x7f, 0x01, 5]), Ok(true));
    assert_eq!(meter.take(&[0x0d, 0x7f, 0x01, 6, 0x1f]), Ok(false));
    assert_eq!(
        meter.take(&[0x0d, 0x7f, 0x01, 7, 0x02]),
        Err(MBusError::NoStream(0x02))
    );
    assert_eq!(meter.held(), [5]);
    assert_eq!(meter.take(&[0x0d, 0x7f, 0x01, 8]), Ok(true));
    assert_eq!(meter.held(), [6, 8]);
}

#[test]
fn a_read_in_progress_goes_on_with_what_it_packed() {
    let mut meter = Meter::new(identity());
    meter.take(&[0x0d, 0x7f, 0x02, 1, 2]).expect("take");
    assert_eq!(meter.give(5), Ok(vec![0x0d, 0x7f, 0x01, 1, 0x1f]));
    meter.take(&[0x0d, 0x7f, 0x01, 9]).expect("take");
    assert_eq!(meter.give(0), Ok(vec![0x0d, 0x7f, 0x01, 2]));
    assert_eq!(meter.give(0), Err(MBusError::NoRoom(0)));
    assert_eq!(meter.give(240), Ok(vec![0x0d, 0x7f, 0x01, 9]));
}

#[test]
fn the_access_number_goes_round() {
    let mut meter = Meter::new(identity());
    for _ in 0..255 {
        let _ = meter.next_access();
    }
    assert_eq!(meter.next_access(), 0);
    assert_eq!(meter.next_access(), 1);
}

#[test]
fn zeros_fill_any_width() {
    let mut wide = String::from("n=");
    push_padded(&mut wide, 42, 200_000);
    assert_eq!(wide.len(), 2 + 200_000);
    assert!(wide.starts_with("n=000") && wide.ends_with("00042"));
    let mut narrow = String::new();
    push_padded(&mut narrow, u64::MAX, 3);
    assert_eq!(narrow, "18446744073709551615");
    let mut zero = String::new();
    push_padded(&mut zero, 0, 0);
    assert_eq!(zero, "0");
}

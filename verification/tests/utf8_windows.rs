use jiter::utf8::{utf8_check, Utf8Check};

/// The library's check agrees with std: valid exactly when std accepts the bytes, and where it
/// does not, the same `valid_up_to`, and the same error length (none for an incomplete
/// scalar).
fn assert_agree(bytes: &[u8]) {
    let want = core::str::from_utf8(bytes);
    match (utf8_check(bytes), want) {
        (Utf8Check::Valid, Ok(_)) => {},
        (Utf8Check::Invalid { valid_up_to, error_len }, Err(e)) => {
            assert_eq!(valid_up_to, e.valid_up_to(), "valid_up_to on {bytes:x?}");
            assert_eq!(Some(error_len as usize), e.error_len(), "error_len on {bytes:x?}");
        },
        (Utf8Check::Incomplete { valid_up_to }, Err(e)) => {
            assert_eq!(valid_up_to, e.valid_up_to(), "valid_up_to on {bytes:x?}");
            assert!(e.error_len().is_none(), "error_len on {bytes:x?}");
        },
        (got, want) => panic!("utf8_check {got:?} but std {want:?} on {bytes:x?}"),
    }
}

fn padded(pad: usize, middle: &[u8], tail: &[u8]) -> Vec<u8> {
    let mut bytes = vec![b'a'; pad];
    bytes.extend_from_slice(middle);
    bytes.extend_from_slice(tail);
    bytes
}


/// Every pair of bytes, at offsets that put it on both sides of a 16 and a 64-byte block
/// edge, with ASCII around it.
#[test]
fn every_two_byte_window_at_block_edges() {
    for offset in [0usize, 13, 14, 15, 16, 31, 62, 63] {
        for a in 0..=255u8 {
            for b in 0..=255u8 {
                assert_agree(&padded(offset, &[a, b], b"aaa"));
            }
        }
    }
}

/// Every four-byte lead with every second and third byte, and each fourth byte class.
#[test]
fn four_byte_sequences() {
    for lead in [0xF0u8, 0xF1, 0xF3, 0xF4, 0xF5] {
        for b in 0x7Fu8..=0xC0 {
            for c in 0x7Fu8..=0xC0 {
                for d in [0x7Fu8, 0x80, 0xBF, 0xC0] {
                    assert_agree(&padded(13, &[lead, b, c, d], b"aa"));
                }
            }
        }
    }
}

/// Sequences cut by the end of the input, after every prefix length up to a block edge and
/// beyond, so the cut lands on every position of a block.
#[test]
fn sequences_cut_by_the_end() {
    for text in ["é", "€", "😀", "aé", "a€", "a😀"] {
        let bytes = text.as_bytes();
        for cut in 1..bytes.len() {
            for pad in 0..70 {
                assert_agree(&padded(pad, &bytes[..cut], b""));
                assert_agree(&padded(pad, bytes, &bytes[..cut]));
            }
        }
    }
}

#[test]
fn ascii_of_every_length_and_a_stray_continuation() {
    for len in 0..200 {
        assert_agree(&vec![b'a'; len]);
        assert_agree(&padded(len, &[0x80], b""));
        assert_agree(&padded(len, "é".as_bytes(), b""));
    }
}

/// The block check reduces the OR of four chunks, so a lane is exactly 0x80 only when the
/// other chunks hold NUL there: one special byte in a field of NULs, in every lane.
#[test]
fn one_byte_in_a_field_of_nuls() {
    for lane in 0..80 {
        for byte in [0x80u8, 0xBF, 0xC3, 0xE2, 0xF0, 0xF8, 0xFF, 0x7F] {
            let mut bytes = vec![0u8; 80];
            bytes[lane] = byte;
            assert_agree(&bytes);
        }
        let mut bytes = vec![0u8; 82];
        bytes[lane..lane + 2].copy_from_slice("é".as_bytes());
        assert_agree(&bytes);
    }
}

/// The continuation values where the nibble tables change, after every lead byte, two and
/// three deep, on both sides of the 16 and 32-byte block edges and a 64-byte group edge.
#[test]
fn every_lead_with_boundary_continuations() {
    const EDGES: [u8; 8] = [0x7F, 0x80, 0x8F, 0x90, 0x9F, 0xA0, 0xBF, 0xC0];
    for offset in [0usize, 13, 14, 15, 29, 30, 31, 61, 62, 63] {
        for lead in 0xC0..=0xFFu8 {
            for &b in &EDGES {
                for &c in &EDGES {
                    assert_agree(&padded(offset, &[lead, b, c], b"aa"));
                    if lead >= 0xF0 {
                        for &d in &EDGES {
                            assert_agree(&padded(offset, &[lead, b, c, d], b"aa"));
                        }
                    }
                }
            }
        }
    }
}

/// A sequence cut short and then ASCII, with the cut landing on every position of a 64-byte
/// group and the ASCII running on for less than a block, a lone block, a group and more, and
/// two groups: the ASCII fast path skips groups and lone blocks and must still see the cut
/// before them.
#[test]
fn cut_sequences_followed_by_ascii() {
    for cut in [
        &[0xC3u8][..],
        &[0xE2, 0x82],
        &[0xF0, 0x9F, 0x98],
        &[0xE0],
        &[0xF4, 0x8F],
        &[0xED, 0x9F],
    ] {
        for pad in 0..70 {
            for tail_len in [12, 40, 72, 140] {
                assert_agree(&padded(pad, cut, &vec![b'b'; tail_len]));
                assert_agree(&padded(pad, cut, &vec![0u8; tail_len]));
            }
        }
    }
}

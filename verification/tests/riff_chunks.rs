use knot::riff::chunks;

fn chunk(fourcc: &[u8; 4], payload: &[u8]) -> Vec<u8> {
    let mut out = fourcc.to_vec();
    out.extend_from_slice(&(payload.len() as u32).to_le_bytes());
    out.extend_from_slice(payload);
    if payload.len() % 2 == 1 {
        out.push(0);
    }
    out
}

fn webp(body: &[Vec<u8>]) -> Vec<u8> {
    let mut rest = b"WEBP".to_vec();
    for c in body {
        rest.extend_from_slice(c);
    }
    let mut out = b"RIFF".to_vec();
    out.extend_from_slice(&(rest.len() as u32).to_le_bytes());
    out.extend_from_slice(&rest);
    out
}

#[test]
fn every_chunk_is_read_with_its_payload() {
    let bytes = webp(&[chunk(b"VP8X", &[0b0000_0010, 0, 0, 0, 0, 0, 0, 0, 0, 0]),
                       chunk(b"ANIM", &[0, 0, 0, 0, 0, 0]),
                       chunk(b"ANMF", &[1, 2, 3]),
                       chunk(b"ANMF", &[4, 5])]);
    let found = chunks(&bytes);
    let names: Vec<&[u8]> = found.iter().map(|(fourcc, _)| *fourcc).collect();
    assert_eq!(names, vec![&b"VP8X"[..], &b"ANIM"[..], &b"ANMF"[..], &b"ANMF"[..]]);
    assert_eq!(found[0].1[0] & 0b0000_0010, 0b0000_0010, "the animation flag is read back");
    assert_eq!(u16::from_le_bytes([found[1].1[4], found[1].1[5]]), 0, "loops forever");
    assert_eq!(found[2].1, &[1, 2, 3][..], "an odd payload leaves its padding out");
    assert_eq!(found[3].1, &[4, 5][..], "the chunk after a padded one is found");
}

#[test]
fn a_chunk_that_runs_past_the_end_stops_the_walk() {
    let mut bytes = webp(&[chunk(b"VP8X", &[2, 0])]);
    bytes.extend_from_slice(b"ANMF");
    bytes.extend_from_slice(&100u32.to_le_bytes());
    bytes.extend_from_slice(&[9, 9]);
    let found = chunks(&bytes);
    assert_eq!(found.len(), 1);
    assert_eq!(found[0].0, &b"VP8X"[..]);
}

#[test]
fn a_header_alone_has_no_chunks() {
    assert!(chunks(&webp(&[])).is_empty());
    assert!(chunks(b"RIFF").is_empty());
    assert!(chunks(&[]).is_empty());
}

#[test]
fn an_odd_final_chunk_needs_no_padding_byte() {
    let mut bytes = webp(&[]);
    bytes.extend_from_slice(b"EXIF");
    bytes.extend_from_slice(&1u32.to_le_bytes());
    bytes.push(7);
    let found = chunks(&bytes);
    assert_eq!(found.len(), 1);
    assert_eq!(found[0].1, &[7][..]);
}

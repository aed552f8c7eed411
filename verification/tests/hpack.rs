use sark::h2::hpack::static_table::StaticTable;
use sark::h2::hpack::{Decoder, DecoderError, Encoder, Header, OwnedHeader};

#[test]
fn lookup_covers_every_static_entry() {
    for index in 1..=StaticTable::LEN {
        let (name, value) = StaticTable::get(index).expect("entry");
        let found = StaticTable::lookup(name, value).expect("known name");
        assert_eq!(found.exact, Some(index));
    }
}

#[test]
fn request_examples_with_huffman() {
    let mut encoder = Encoder::new(4096);
    let mut wire: Vec<u8> = Vec::new();
    let first = [
        Header::new(b":method", b"GET"),
        Header::new(b":scheme", b"http"),
        Header::new(b":path", b"/"),
        Header::new(b":authority", b"www.example.com"),
    ];
    encoder.encode(&first, &mut wire);
    assert_eq!(
        wire,
        vec![
            0x82, 0x86, 0x84, 0x41, 0x8c, 0xf1, 0xe3, 0xc2, 0xe5, 0xf2, 0x3a, 0x6b, 0xa0, 0xab,
            0x90, 0xf4, 0xff,
        ]
    );
    let mut decoder = Decoder::new(4096);
    let mut out: Vec<OwnedHeader> = Vec::new();
    assert_eq!(decoder.decode(&wire, &mut out), Ok(()));
    assert_eq!(out.len(), 4);
    assert_eq!(out[3].value, b"www.example.com".to_vec());
    assert_eq!(decoder.dyn_size(), 57);
}

fn literal(name: &[u8], value: &[u8]) -> Vec<u8> {
    let mut wire = vec![0x40, name.len() as u8];
    wire.extend_from_slice(name);
    wire.push(value.len() as u8);
    wire.extend_from_slice(value);
    wire
}

fn size_of(fields: &[(Vec<u8>, Vec<u8>)]) -> usize {
    fields.iter().map(|(name, value)| name.len() + value.len() + 32).sum()
}

#[test]
fn a_table_keeps_its_newest_fields_while_it_wraps_and_grows() {
    let mut decoder = Decoder::new(100);
    let mut model: Vec<(Vec<u8>, Vec<u8>)> = Vec::new();
    let mut limit = 100;
    for round in 0..400usize {
        let mut wire = Vec::new();
        // Now and then the limit moves: up, down, and up again.
        if round % 50 == 49 {
            limit = [300, 90, 1000, 0, 500, 127, 700, 64][round / 50];
            decoder.set_max_size(limit.max(1000));
            wire.push(0x20 | 31);
            let mut rest = limit.saturating_sub(31);
            if limit < 31 {
                wire = vec![0x20 | limit as u8];
            } else {
                while rest >= 128 {
                    wire.push((rest % 128) as u8 | 0x80);
                    rest /= 128;
                }
                wire.push(rest as u8);
            }
            while size_of(&model) > limit {
                model.pop();
            }
        }
        let name = vec![b'a' + (round % 26) as u8; 1 + round % 7];
        let value = vec![b'0' + (round % 10) as u8; (round * 13) % 60];
        wire.extend_from_slice(&literal(&name, &value));
        let size = name.len() + value.len() + 32;
        if size > limit {
            model.clear();
        } else {
            while size_of(&model) + size > limit {
                model.pop();
            }
            model.insert(0, (name, value));
        }
        let mut out = Vec::new();
        assert_eq!(decoder.decode(&wire, &mut out), Ok(()));
        assert_eq!(decoder.dyn_max(), limit);
        assert_eq!(decoder.dyn_len(), model.len());
        assert_eq!(decoder.dyn_size(), size_of(&model));
        for (index, (name, value)) in model.iter().enumerate() {
            assert_eq!(decoder.dyn_get(index), Some((name.as_slice(), value.as_slice())));
        }
        assert_eq!(decoder.dyn_get(model.len()), None);
    }
}

#[test]
fn a_block_cannot_raise_the_limit_beyond_what_a_table_can_have() {
    let mut decoder = Decoder::new(64);
    decoder.set_max_size(1 << 40);
    let mut out = Vec::new();
    // 2^32, one more than fits into 32 bits.
    let update = [0x3f, 0xe1, 0xff, 0xff, 0xff, 0x0f];
    assert_eq!(decoder.decode(&update, &mut out), Err(DecoderError::BadDynSizeUpdate));
    assert_eq!(decoder.dyn_max(), 64);
    decoder.set_max_size(40);
    assert_eq!(decoder.dyn_max(), 40);
    assert_eq!(decoder.decode(&[0x3f, 0x0a], &mut out), Err(DecoderError::BadDynSizeUpdate));
    assert_eq!(decoder.decode(&[0x3f, 0x09], &mut out), Ok(()));
    assert_eq!(decoder.dyn_max(), 40);
}

#[test]
fn a_bad_fragment_leaves_the_block_between_two_fields() {
    let mut decoder = Decoder::new(4096);
    let mut block = decoder.start_block();
    let mut out: Vec<OwnedHeader> = Vec::new();
    decoder.decode_fragment(&mut block, &[0x82, 0x40], &mut out).unwrap();
    // A name that is longer than any may be.
    let long = [0x7f, 0xff, 0xff, 0xff, 0xff, 0x7f];
    assert_eq!(
        decoder.decode_fragment(&mut block, &long, &mut out),
        Err(DecoderError::BadString)
    );
    // What was read stays, and reading goes on behind it; the start of the block is over.
    assert_eq!(
        decoder.decode_fragment(&mut block, &[0x20], &mut out),
        Err(DecoderError::BadDynSizeUpdate)
    );
    decoder.decode_fragment(&mut block, &[0x84], &mut out).unwrap();
    assert_eq!(block.finish(), Ok(false));
    let names: Vec<&[u8]> = out.iter().map(|field| field.name.as_slice()).collect();
    assert_eq!(names, vec![&b":method"[..], &b":path"[..]]);
    let mut first = decoder.start_block();
    assert_eq!(
        decoder.decode_fragment(&mut first, &[0x80], &mut out),
        Err(DecoderError::BadIndex)
    );
    assert_eq!(
        decoder.decode_fragment(&mut first, &[0x20], &mut out),
        Err(DecoderError::BadDynSizeUpdate)
    );
}

use lighthack::slip::{encode_slip, FrameTooLarge, SLIPDecoder, END, ESC, ESC_END, ESC_ESC};

fn encoded(input: &[u8]) -> Vec<u8> {
    let mut output: Vec<u8> = vec![0u8; 2 * input.len() + 1];
    let len: usize = encode_slip(input, &mut output);
    output.truncate(len);
    output
}

fn decode_whole(wire: &[u8]) -> (usize, Vec<u8>, usize) {
    let mut decoder: SLIPDecoder<64> = SLIPDecoder::new();
    let mut res: Vec<u8> = vec![0u8; 64];
    let len: usize = decoder.read(wire, &mut res).unwrap();
    res.truncate(len);
    (len, res, decoder.len())
}

#[test]
fn reserved_bytes_have_their_wire_values() {
    assert_eq!(END, 0xC0);
    assert_eq!(ESC, 0xDB);
    assert_eq!(ESC_END, 0xDC);
    assert_eq!(ESC_ESC, 0xDD);
}

#[test]
fn encode_escapes_end() {
    assert_eq!(encoded(&[0xC0]), vec![0xDBu8, 0xDC, 0xC0]);
}

#[test]
fn encode_escapes_esc() {
    assert_eq!(encoded(&[0xDB]), vec![0xDBu8, 0xDD, 0xC0]);
}

#[test]
fn encode_empty_is_lone_terminator() {
    assert_eq!(encoded(&[]), vec![0xC0u8]);
}

#[test]
fn encode_plain_bytes_pass_unchanged() {
    assert_eq!(encoded(&[0x01, 0x02]), vec![0x01u8, 0x02, 0xC0]);
}

#[test]
fn encode_does_not_escape_the_escape_codes() {
    assert_eq!(encoded(&[0xDC, 0xDD]), vec![0xDCu8, 0xDD, 0xC0]);
}

#[test]
fn encode_mixed_payload() {
    assert_eq!(
        encoded(&[0x00, 0xC0, 0x7F, 0xDB, 0xDB, 0xFF]),
        vec![0x00u8, 0xDB, 0xDC, 0x7F, 0xDB, 0xDD, 0xDB, 0xDD, 0xFF, 0xC0]
    );
}

#[test]
fn encode_returns_frame_length_and_keeps_the_rest_of_the_buffer() {
    let mut output: [u8; 8] = [0xEE; 8];
    let len: usize = encode_slip(&[0x10, 0xC0], &mut output);
    assert_eq!(len, 4);
    assert_eq!(output, [0x10, 0xDB, 0xDC, 0xC0, 0xEE, 0xEE, 0xEE, 0xEE]);
}

#[test]
fn encode_fills_a_buffer_of_exactly_the_frame_length() {
    let mut output: [u8; 5] = [0; 5];
    let len: usize = encode_slip(&[0xC0, 0xDB], &mut output);
    assert_eq!(len, 5);
    assert_eq!(output, [0xDB, 0xDC, 0xDB, 0xDD, 0xC0]);
}

#[test]
fn encode_worst_case_is_twice_the_input_plus_one() {
    let input: [u8; 6] = [0xC0, 0xDB, 0xC0, 0xDB, 0xC0, 0xDB];
    assert_eq!(encoded(&input).len(), 13);
}

#[test]
fn new_decoder_is_empty() {
    let decoder: SLIPDecoder<16> = SLIPDecoder::new();
    assert_eq!(decoder.len(), 0);
    assert_eq!(decoder.free(), 16);
}

#[test]
fn read_sync_on_empty_decoder_returns_zero() {
    let mut decoder: SLIPDecoder<16> = SLIPDecoder::new();
    let mut res: [u8; 16] = [0xAA; 16];
    assert_eq!(decoder.read_sync(&mut res), 0);
    assert_eq!(decoder.len(), 0);
    assert_eq!(res, [0xAA; 16]);
}

#[test]
fn decode_plain_frame() {
    let (len, payload, left) = decode_whole(&[0x01, 0x02, 0xC0]);
    assert_eq!(len, 2);
    assert_eq!(payload, vec![0x01u8, 0x02]);
    assert_eq!(left, 0);
}

#[test]
fn decode_escaped_end_and_esc() {
    let (_, payload, left) = decode_whole(&[0xDB, 0xDC, 0x05, 0xDB, 0xDD, 0xC0]);
    assert_eq!(payload, vec![0xC0u8, 0x05, 0xDB]);
    assert_eq!(left, 0);
}

#[test]
fn decode_drops_malformed_escape() {
    let (_, payload, _) = decode_whole(&[0x01, 0xDB, 0x41, 0x02, 0xC0]);
    assert_eq!(payload, vec![0x01u8, 0x02]);
}

#[test]
fn decode_repeated_escape_introducer_still_escapes() {
    let (_, payload, _) = decode_whole(&[0xDB, 0xDB, 0xDC, 0xC0]);
    assert_eq!(payload, vec![0xC0u8]);
}

#[test]
fn decode_unescaped_escape_codes_stand_for_themselves() {
    let (_, payload, _) = decode_whole(&[0xDC, 0xDD, 0xC0]);
    assert_eq!(payload, vec![0xDCu8, 0xDD]);
}

#[test]
fn decode_terminator_behind_escape_ends_the_frame() {
    let (len, payload, left) = decode_whole(&[0x09, 0xDB, 0xC0, 0xDC]);
    assert_eq!(len, 1);
    assert_eq!(payload, vec![0x09u8]);
    assert_eq!(left, 1);
}

#[test]
fn decode_leaves_output_behind_the_payload_untouched() {
    let mut decoder: SLIPDecoder<16> = SLIPDecoder::new();
    let mut res: [u8; 6] = [0xEE; 6];
    let len: usize = decoder.read(&[0x11, 0x22, 0xC0], &mut res).unwrap();
    assert_eq!(len, 2);
    assert_eq!(res, [0x11, 0x22, 0xEE, 0xEE, 0xEE, 0xEE]);
}

#[test]
fn empty_frame_returns_zero_and_consumes_its_terminator() {
    let mut decoder: SLIPDecoder<16> = SLIPDecoder::new();
    let mut res: [u8; 16] = [0; 16];
    assert_eq!(decoder.read(&[0xC0, 0x33], &mut res), Ok(0));
    assert_eq!(decoder.len(), 1);
    assert_eq!(decoder.read(&[0xC0], &mut res), Ok(1));
    assert_eq!(res[0], 0x33);
    assert_eq!(decoder.len(), 0);
}

#[test]
fn round_trip_of_every_byte_value() {
    let mut value: u16 = 0;
    while value < 256 {
        let payload: [u8; 3] = [value as u8, 0x55, value as u8];
        let wire: Vec<u8> = encoded(&payload);
        let (len, decoded, left) = decode_whole(&wire);
        assert_eq!(len, 3);
        assert_eq!(decoded, payload.to_vec());
        assert_eq!(left, 0);
        value += 1;
    }
}

#[test]
fn round_trip_of_the_longest_payload_that_always_fits() {
    let payload: Vec<u8> = vec![0xC0u8; 31];
    let wire: Vec<u8> = encoded(&payload);
    assert_eq!(wire.len(), 63);
    let mut decoder: SLIPDecoder<63> = SLIPDecoder::new();
    let mut res: Vec<u8> = vec![0u8; 63];
    let len: usize = decoder.read(&wire, &mut res).unwrap();
    assert_eq!(len, 31);
    assert_eq!(&res[..len], &payload[..]);
    assert_eq!(decoder.len(), 0);
}

#[test]
fn round_trip_of_empty_payload() {
    let wire: Vec<u8> = encoded(&[]);
    let (len, decoded, left) = decode_whole(&wire);
    assert_eq!(len, 0);
    assert_eq!(decoded, Vec::<u8>::new());
    assert_eq!(left, 0);
}

#[test]
fn frame_fed_one_byte_at_a_time() {
    let payload: [u8; 5] = [0x01, 0xC0, 0xDB, 0x7E, 0xC0];
    let wire: Vec<u8> = encoded(&payload);
    let mut decoder: SLIPDecoder<32> = SLIPDecoder::new();
    let mut res: [u8; 32] = [0; 32];
    let mut i: usize = 0;
    while i + 1 < wire.len() {
        assert_eq!(decoder.read(&wire[i..i + 1], &mut res), Ok(0));
        assert_eq!(decoder.len(), i + 1);
        i += 1;
    }
    let len: usize = decoder.read(&wire[i..], &mut res).unwrap();
    assert_eq!(&res[..len], &payload[..]);
    assert_eq!(decoder.len(), 0);
}

#[test]
fn frame_split_at_every_boundary() {
    let payload: [u8; 4] = [0xDB, 0x10, 0xC0, 0x20];
    let wire: Vec<u8> = encoded(&payload);
    let mut cut: usize = 0;
    while cut < wire.len() {
        let mut decoder: SLIPDecoder<16> = SLIPDecoder::new();
        let mut res: [u8; 16] = [0; 16];
        assert_eq!(decoder.read(&wire[..cut], &mut res), Ok(0));
        assert_eq!(decoder.len(), cut);
        let len: usize = decoder.read(&wire[cut..], &mut res).unwrap();
        assert_eq!(&res[..len], &payload[..]);
        assert_eq!(decoder.len(), 0);
        cut += 1;
    }
}

#[test]
fn frame_fed_in_uneven_chunks_with_empty_reads_between() {
    let payload: [u8; 6] = [0x01, 0x01, 0xC0, 0x12, 0xDB, 0xAB];
    let wire: Vec<u8> = encoded(&payload);
    assert_eq!(wire.len(), 9);
    let mut decoder: SLIPDecoder<16> = SLIPDecoder::new();
    let mut res: [u8; 16] = [0; 16];
    assert_eq!(decoder.read(&wire[..3], &mut res), Ok(0));
    assert_eq!(decoder.read(&[], &mut res), Ok(0));
    assert_eq!(decoder.read(&wire[3..4], &mut res), Ok(0));
    assert_eq!(decoder.read(&wire[4..8], &mut res), Ok(0));
    assert_eq!(decoder.len(), 8);
    assert_eq!(decoder.read(&wire[8..], &mut res), Ok(6));
    assert_eq!(&res[..6], &payload[..]);
    assert_eq!(decoder.len(), 0);
}

#[test]
fn partial_second_frame_survives_decoding_of_the_first() {
    let first: [u8; 3] = [0x0A, 0xC0, 0x0B];
    let second: [u8; 4] = [0xDB, 0x0C, 0x0D, 0xC0];
    let wire_second: Vec<u8> = encoded(&second);
    let mut wire: Vec<u8> = encoded(&first);
    wire.extend_from_slice(&wire_second[..3]);
    let mut decoder: SLIPDecoder<32> = SLIPDecoder::new();
    let mut res: [u8; 32] = [0; 32];
    let len: usize = decoder.read(&wire, &mut res).unwrap();
    assert_eq!(&res[..len], &first[..]);
    assert_eq!(decoder.len(), 3);
    assert_eq!(decoder.read_sync(&mut res), 0);
    assert_eq!(decoder.len(), 3);
    let len: usize = decoder.read(&wire_second[3..], &mut res).unwrap();
    assert_eq!(&res[..len], &second[..]);
    assert_eq!(decoder.len(), 0);
}

#[test]
fn one_frame_per_call() {
    let mut wire: Vec<u8> = encoded(&[0x01, 0x02]);
    wire.extend_from_slice(&encoded(&[0x03]));
    wire.extend_from_slice(&[0x04]);
    let mut decoder: SLIPDecoder<32> = SLIPDecoder::new();
    let mut res: [u8; 32] = [0; 32];
    assert_eq!(decoder.read(&wire, &mut res), Ok(2));
    assert_eq!(&res[..2], &[0x01, 0x02]);
    assert_eq!(decoder.len(), 3);
    assert_eq!(decoder.read_sync(&mut res), 1);
    assert_eq!(res[0], 0x03);
    assert_eq!(decoder.len(), 1);
    assert_eq!(decoder.read_sync(&mut res), 0);
    assert_eq!(decoder.len(), 1);
}

#[test]
fn scan_without_terminator_writes_what_it_decoded_and_returns_zero() {
    let mut decoder: SLIPDecoder<16> = SLIPDecoder::new();
    let mut res: [u8; 4] = [0xEE; 4];
    assert_eq!(decoder.read(&[0x41, 0xDB, 0xDD], &mut res), Ok(0));
    assert_eq!(res, [0x41, 0xDB, 0xEE, 0xEE]);
    assert_eq!(decoder.len(), 3);
}

#[test]
fn read_refuses_bytes_that_overflow_the_buffer() {
    let mut decoder: SLIPDecoder<4> = SLIPDecoder::new();
    let mut res: [u8; 4] = [0xEE; 4];
    assert_eq!(decoder.read(&[0x01, 0x02], &mut res), Ok(0));
    assert_eq!(decoder.free(), 2);
    assert_eq!(decoder.read(&[0x03, 0x04, 0xC0], &mut res), Err(FrameTooLarge));
    assert_eq!(decoder.len(), 2);
    assert_eq!(decoder.read(&[0x03, 0xC0], &mut res), Ok(3));
    assert_eq!(&res[..3], &[0x01, 0x02, 0x03]);
    assert_eq!(decoder.len(), 0);
}

#[test]
fn read_refuses_to_fill_the_buffer_without_a_terminator() {
    let mut decoder: SLIPDecoder<4> = SLIPDecoder::new();
    let mut res: [u8; 4] = [0xEE; 4];
    assert_eq!(decoder.read(&[0x01, 0x02, 0x03], &mut res), Ok(0));
    let scribbled: [u8; 4] = res;
    assert_eq!(decoder.read(&[0x04], &mut res), Err(FrameTooLarge));
    assert_eq!(decoder.len(), 3);
    assert_eq!(res, scribbled);
}

#[test]
fn read_accepts_a_frame_that_fills_the_buffer_exactly() {
    let mut decoder: SLIPDecoder<4> = SLIPDecoder::new();
    let mut res: [u8; 4] = [0; 4];
    assert_eq!(decoder.read(&[0x01, 0x02, 0x03, 0xC0], &mut res), Ok(3));
    assert_eq!(&res[..3], &[0x01, 0x02, 0x03]);
    assert_eq!(decoder.len(), 0);
}

#[test]
fn read_accepts_a_full_buffer_with_a_terminator_inside() {
    let mut decoder: SLIPDecoder<4> = SLIPDecoder::new();
    let mut res: [u8; 4] = [0; 4];
    assert_eq!(decoder.read(&[0x01, 0xC0, 0x02, 0x03], &mut res), Ok(1));
    assert_eq!(decoder.len(), 2);
    assert_eq!(decoder.free(), 2);
}

#[test]
fn clear_resynchronizes_after_an_oversized_frame() {
    let mut decoder: SLIPDecoder<4> = SLIPDecoder::new();
    let mut res: [u8; 4] = [0; 4];
    assert_eq!(decoder.read(&[0x01, 0x02, 0x03], &mut res), Ok(0));
    assert_eq!(decoder.read(&[0x04], &mut res), Err(FrameTooLarge));
    decoder.clear();
    assert_eq!(decoder.len(), 0);
    assert_eq!(decoder.free(), 4);
    assert_eq!(decoder.read(&[0x05, 0xC0], &mut res), Ok(1));
    assert_eq!(res[0], 0x05);
}

#[test]
fn decoder_of_no_capacity_takes_nothing() {
    let mut decoder: SLIPDecoder<0> = SLIPDecoder::new();
    let mut res: [u8; 1] = [0];
    assert_eq!(decoder.read(&[], &mut res), Err(FrameTooLarge));
    assert_eq!(decoder.read(&[0xC0], &mut res), Err(FrameTooLarge));
    assert_eq!(decoder.read_sync(&mut res), 0);
}

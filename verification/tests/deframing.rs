use deframe::{DeframeError, Deframer};

/// The frame end, which is an ASCII linebreak for these tests
const FRAME_END: u8 = 0x0A;

/// For these tests, we simply denote a frame by an ASCII line-break (similar to CSV)
fn get_frame_end(s: &[u8]) -> Option<usize> {
    s.iter().rposition(|&x| x == FRAME_END)
}

#[test]
fn finds_the_correct_frame_end() {
    let mut deframer = Deframer::<4>::new();
    let (result, len) = deframer
        .deframe(&[FRAME_END, 0x01, 0x02, 0x03], get_frame_end)
        .unwrap();
    assert_eq!(result[0..len], [FRAME_END]);

    let mut deframer = Deframer::<4>::new();
    let (result, len) = deframer
        .deframe(&[0x01, FRAME_END, 0x02, 0x03], get_frame_end)
        .unwrap();
    assert_eq!(len, 2);
    assert_eq!(result[0..len], [0x01, FRAME_END]);

    let mut deframer = Deframer::<4>::new();
    let (result, len) = deframer
        .deframe(&[0x01, 0x02, 0x03, FRAME_END], get_frame_end)
        .unwrap();
    assert_eq!(len, 4);
    assert_eq!(result[0..len], [0x01, 0x02, 0x03, FRAME_END]);
}

#[test]
fn has_the_correct_remainder() {
    let mut deframer = Deframer::<16>::new();
    let (result, len) = deframer
        .deframe(&[FRAME_END, 0x01, 0x02, 0x03], get_frame_end)
        .unwrap();
    assert_eq!(result[0..len], [FRAME_END]);
    assert_eq!(deframer.remainder_length(), 3);

    let (result, len) = deframer
        .deframe(&[0x04, 0x05, FRAME_END, 0x06], get_frame_end)
        .unwrap();
    assert_eq!(deframer.remainder_length(), 1);
    assert_eq!(deframer.remainder()[..], [0x06]);
    assert_eq!(result[0..len], [0x01, 0x02, 0x03, 0x04, 0x05, FRAME_END]);

    let (result, len) = deframer
        .deframe(
            &[0x07, 0x08, 0x09, 0x10, FRAME_END, 0x11, 0x22],
            get_frame_end,
        )
        .unwrap();
    assert_eq!(deframer.remainder_length(), 2);
    assert_eq!(deframer.remainder()[..], [0x11, 0x22]);
    assert_eq!(result[0..len], [0x06, 0x07, 0x08, 0x09, 0x10, FRAME_END]);
}

#[test]
fn correctly_overflows() {
    let mut deframer = Deframer::<2>::new();

    // Overflows because the data_frame provider is too large for the allocated buffer
    let result = deframer.deframe(&[0x01, 0x02, 0x03, FRAME_END], get_frame_end);
    assert_eq!(result.is_err(), true);

    let mut deframer = Deframer::<2>::new();

    let result = deframer.deframe(&[0x01], get_frame_end);
    assert_eq!(result.is_err(), false);
    assert_eq!(deframer.remainder_length(), 1);

    let result = deframer.deframe(&[0x02], get_frame_end);
    assert_eq!(result.is_err(), false);
    assert_eq!(deframer.remainder_length(), 2);

    let result = deframer.deframe(&[0x03], get_frame_end);
    assert_eq!(result.is_err(), true);
    assert_eq!(result.err().unwrap(), DeframeError::Overflow);
}

#[test]
fn remainder_increases() {
    let mut deframer = Deframer::<4>::new();

    let (_data, len) = deframer.deframe(&[0x01], get_frame_end).unwrap();
    assert_eq!(deframer.remainder_length(), 1);
    assert_eq!(len, 0);

    let (_data, len) = deframer.deframe(&[0x02], get_frame_end).unwrap();
    assert_eq!(deframer.remainder_length(), 2);
    assert_eq!(len, 0);

    let (_data, len) = deframer.deframe(&[0x03], get_frame_end).unwrap();
    assert_eq!(deframer.remainder_length(), 3);
    assert_eq!(len, 0);

    let (data, len) = deframer.deframe(&[FRAME_END], get_frame_end).unwrap();
    assert_eq!(deframer.remainder_length(), 0);
    assert_eq!(len, 4);
    assert_eq!(data, [0x01, 0x02, 0x03, FRAME_END]);
}

#[test]
fn leading_frame_leaves_rest_pending() {
    // A delimiter as the very first byte: one tiny frame out, three bytes kept.
    let mut deframer = Deframer::<4>::new();
    let (result, len) = deframer
        .deframe(&[FRAME_END, 0x01, 0x02, 0x03], get_frame_end)
        .unwrap();
    assert_eq!(len, 1);
    assert_eq!(result[0..len], [FRAME_END]);
    assert_eq!(deframer.remainder_length(), 3);
    assert_eq!(deframer.remainder()[..], [0x01, 0x02, 0x03]);
}

#[test]
fn multiple_frames_emitted_together() {
    // Two complete frames in one chunk come out concatenated in a single call,
    // split at the last delimiter.
    let mut deframer = Deframer::<8>::new();
    let (result, len) = deframer
        .deframe(&[0x01, FRAME_END, 0x02, FRAME_END, 0x03], get_frame_end)
        .unwrap();
    assert_eq!(len, 4);
    assert_eq!(result[0..len], [0x01, FRAME_END, 0x02, FRAME_END]);
    assert_eq!(deframer.remainder()[..], [0x03]);
}

#[test]
fn fit_search_takes_rightmost_boundary_that_fits() {
    // With two bytes already held, the last delimiter does not fit beside
    // them, so the search falls back to the rightmost one that does.
    let mut deframer = Deframer::<4>::new();
    let (_data, len) = deframer.deframe(&[0x01, 0x02], get_frame_end).unwrap();
    assert_eq!(len, 0);

    let (result, len) = deframer
        .deframe(
            &[0x03, FRAME_END, 0x05, 0x06, FRAME_END, 0x07],
            get_frame_end,
        )
        .unwrap();
    assert_eq!(len, 4);
    assert_eq!(result[0..len], [0x01, 0x02, 0x03, FRAME_END]);
    assert_eq!(deframer.remainder()[..], [0x05, 0x06, FRAME_END, 0x07]);
    assert_eq!(deframer.remainder_length(), 4);
}

#[test]
fn overflow_leaves_state_unchanged() {
    // An overflowing call reports the error and keeps the remainder intact.
    let mut deframer = Deframer::<2>::new();
    let result = deframer.deframe(&[0x01, 0x02], get_frame_end);
    assert_eq!(result.is_err(), false);
    assert_eq!(deframer.remainder()[..], [0x01, 0x02]);

    let result = deframer.deframe(&[0x03], get_frame_end);
    assert_eq!(result.err().unwrap(), DeframeError::Overflow);
    assert_eq!(deframer.remainder_length(), 2);
    assert_eq!(deframer.remainder()[..], [0x01, 0x02]);
}

#[test]
fn overflow_when_new_remainder_exceeds_capacity() {
    // The frame itself fits, but the bytes after its boundary do not.
    let mut deframer = Deframer::<2>::new();
    let result = deframer.deframe(&[FRAME_END, 0x01, 0x02, 0x03], get_frame_end);
    assert_eq!(result.err().unwrap(), DeframeError::Overflow);
}

#[test]
fn outputs_concatenate_to_input() {
    // No data loss: however the stream is chopped into chunks, the emitted
    // outputs concatenate to the input up to the last boundary, and the
    // remainder holds the rest.
    let stream: [u8; 8] = [0x48, 0x65, 0x6C, FRAME_END, 0x6C, 0x6F, FRAME_END, 0x21];
    let chunks: [&[u8]; 4] = [&stream[0..2], &stream[2..5], &stream[5..7], &stream[7..8]];

    let mut deframer = Deframer::<8>::new();
    let mut emitted: Vec<u8> = Vec::new();
    for chunk in chunks.iter() {
        let (data, len) = deframer.deframe(chunk, get_frame_end).unwrap();
        emitted.extend_from_slice(&data[0..len]);
    }
    assert_eq!(emitted[..], stream[0..7]);
    assert_eq!(deframer.remainder()[..], stream[7..8]);
}

#[test]
fn no_boundary_accumulates_by_chunk_length() {
    // Chunks without a boundary emit nothing and grow the remainder by
    // exactly their length.
    let mut deframer = Deframer::<8>::new();
    let (_data, len) = deframer.deframe(&[0x01, 0x02, 0x03], get_frame_end).unwrap();
    assert_eq!(len, 0);
    assert_eq!(deframer.remainder_length(), 3);

    let (_data, len) = deframer.deframe(&[0x04, 0x05], get_frame_end).unwrap();
    assert_eq!(len, 0);
    assert_eq!(deframer.remainder_length(), 5);
    assert_eq!(deframer.remainder()[..], [0x01, 0x02, 0x03, 0x04, 0x05]);
}

#[test]
fn empty_chunk_changes_nothing() {
    let mut deframer = Deframer::<4>::new();
    let (_data, len) = deframer.deframe(&[], get_frame_end).unwrap();
    assert_eq!(len, 0);
    assert_eq!(deframer.remainder_length(), 0);

    let (_data, len) = deframer.deframe(&[0x01], get_frame_end).unwrap();
    assert_eq!(len, 0);
    let (_data, len) = deframer.deframe(&[], get_frame_end).unwrap();
    assert_eq!(len, 0);
    assert_eq!(deframer.remainder()[..], [0x01]);
}

#[test]
fn new_deframer_is_empty() {
    let deframer = Deframer::<4>::new();
    assert_eq!(deframer.remainder_length(), 0);
    assert_eq!(deframer.remainder().len(), 0);
}

use common::networking::stream_headers::{HeaderedStreamState, RecvStreamHeaders};
use common::networking::{Dir, ReadStep, StreamHeader, StreamId, StreamReadError};

#[test]
fn messages_header_is_zero() {
    assert_eq!(u16::from(StreamHeader::Messages), 0);
}

#[test]
fn an_accepted_stream_wants_two_header_bytes() {
    let mut headers = RecvStreamHeaders::new();
    assert_eq!(headers.bytes_needed(StreamId(1)), 0);
    headers.accept_stream(StreamId(1), Dir::Uni);
    assert_eq!(headers.bytes_needed(StreamId(1)), 2);
    assert_eq!(headers.reading_streams(), vec![StreamId(1)]);
}

#[test]
fn header_arrives_byte_by_byte() {
    let mut headers = RecvStreamHeaders::new();
    headers.accept_stream(StreamId(1), Dir::Uni);
    assert_eq!(headers.receive(StreamId(1), Ok(Some(vec![0x01]))), ReadStep::Continue);
    assert_eq!(headers.bytes_needed(StreamId(1)), 1);
    assert_eq!(headers.take_stream(0x0102u16), None);
    assert_eq!(headers.receive(StreamId(1), Ok(Some(vec![0x02]))), ReadStep::Classified);
    assert_eq!(headers.bytes_needed(StreamId(1)), 0);
    assert!(headers.reading_streams().is_empty());
    assert_eq!(headers.take_stream(0x0201u16), None);
    assert_eq!(headers.take_stream(0x0102u16), Some((StreamId(1), Dir::Uni)));
    assert_eq!(headers.take_stream(0x0102u16), None);
}

#[test]
fn an_empty_chunk_changes_nothing() {
    let mut headers = RecvStreamHeaders::new();
    headers.accept_stream(StreamId(3), Dir::Bi);
    assert_eq!(headers.receive(StreamId(3), Ok(Some(vec![]))), ReadStep::Continue);
    assert_eq!(headers.bytes_needed(StreamId(3)), 2);
}

#[test]
fn header_takes_no_more_than_two_bytes() {
    let mut headers = RecvStreamHeaders::new();
    headers.accept_stream(StreamId(1), Dir::Bi);
    let step = headers.receive(StreamId(1), Ok(Some(vec![0x00, 0x05, 0xaa, 0xbb])));
    assert_eq!(step, ReadStep::Classified);
    assert_eq!(headers.take_stream(0xaabbu16), None);
    assert_eq!(headers.take_stream(5u16), Some((StreamId(1), Dir::Bi)));
}

#[test]
fn a_classified_stream_is_read_no_further() {
    let mut headers = RecvStreamHeaders::new();
    headers.accept_stream(StreamId(1), Dir::Uni);
    assert_eq!(headers.receive(StreamId(1), Ok(Some(vec![0, 0]))), ReadStep::Classified);
    assert_eq!(headers.receive(StreamId(1), Ok(Some(vec![9, 9]))), ReadStep::Untracked);
    assert_eq!(headers.receive(StreamId(1), Ok(None)), ReadStep::Untracked);
    assert_eq!(
        headers.receive(StreamId(1), Err(StreamReadError::Reset(1))),
        ReadStep::Untracked
    );
    assert_eq!(
        headers.take_stream(StreamHeader::Messages),
        Some((StreamId(1), Dir::Uni))
    );
}

#[test]
fn an_unknown_stream_is_not_read() {
    let mut headers = RecvStreamHeaders::new();
    assert_eq!(headers.receive(StreamId(8), Ok(Some(vec![0, 0]))), ReadStep::Untracked);
    assert_eq!(headers.take_stream(0u16), None);
}

#[test]
fn a_stream_that_ends_before_its_header_is_dropped() {
    let mut headers = RecvStreamHeaders::new();
    headers.accept_stream(StreamId(1), Dir::Uni);
    headers.accept_stream(StreamId(2), Dir::Uni);
    assert_eq!(headers.receive(StreamId(1), Ok(Some(vec![0]))), ReadStep::Continue);
    assert_eq!(headers.receive(StreamId(2), Ok(Some(vec![0]))), ReadStep::Continue);
    assert_eq!(headers.receive(StreamId(1), Ok(None)), ReadStep::Finished);
    assert_eq!(headers.bytes_needed(StreamId(1)), 0);
    assert_eq!(headers.receive(StreamId(1), Ok(Some(vec![0]))), ReadStep::Untracked);
    assert_eq!(headers.take_stream(0u16), None);
    assert_eq!(headers.bytes_needed(StreamId(2)), 1);
    assert_eq!(headers.receive(StreamId(2), Ok(Some(vec![0]))), ReadStep::Classified);
    assert_eq!(headers.take_stream(0u16), Some((StreamId(2), Dir::Uni)));
}

#[test]
fn a_stream_reset_before_its_header_is_dropped() {
    let mut headers = RecvStreamHeaders::new();
    headers.accept_stream(StreamId(1), Dir::Uni);
    headers.accept_stream(StreamId(2), Dir::Bi);
    assert_eq!(headers.receive(StreamId(2), Ok(Some(vec![7]))), ReadStep::Continue);
    assert_eq!(
        headers.receive(StreamId(1), Err(StreamReadError::Reset(42))),
        ReadStep::Reset(42)
    );
    assert_eq!(headers.reading_streams(), vec![StreamId(2)]);
    assert_eq!(headers.bytes_needed(StreamId(2)), 1);
    assert_eq!(headers.receive(StreamId(2), Ok(Some(vec![8]))), ReadStep::Classified);
    assert_eq!(headers.take_stream(0x0708u16), Some((StreamId(2), Dir::Bi)));
}

#[test]
fn blocked_and_failed_reads_keep_the_stream() {
    let mut headers = RecvStreamHeaders::new();
    headers.accept_stream(StreamId(1), Dir::Uni);
    assert_eq!(headers.receive(StreamId(1), Ok(Some(vec![1]))), ReadStep::Continue);
    assert_eq!(
        headers.receive(StreamId(1), Err(StreamReadError::Blocked)),
        ReadStep::Blocked
    );
    assert_eq!(headers.bytes_needed(StreamId(1)), 1);
    assert_eq!(headers.receive(StreamId(1), Err(StreamReadError::Other)), ReadStep::Failed);
    assert_eq!(headers.bytes_needed(StreamId(1)), 1);
    assert_eq!(headers.receive(StreamId(1), Ok(Some(vec![2]))), ReadStep::Classified);
    assert_eq!(headers.take_stream(0x0102u16), Some((StreamId(1), Dir::Uni)));
}

#[test]
fn take_stream_picks_only_the_asked_header() {
    let mut headers = RecvStreamHeaders::new();
    headers.accept_stream(StreamId(10), Dir::Uni);
    headers.accept_stream(StreamId(11), Dir::Bi);
    headers.accept_stream(StreamId(12), Dir::Uni);
    assert_eq!(headers.receive(StreamId(10), Ok(Some(vec![0, 1]))), ReadStep::Classified);
    assert_eq!(headers.receive(StreamId(11), Ok(Some(vec![0, 0]))), ReadStep::Classified);
    assert_eq!(headers.receive(StreamId(12), Ok(Some(vec![0]))), ReadStep::Continue);
    assert_eq!(headers.take_stream(StreamHeader::Messages), Some((StreamId(11), Dir::Bi)));
    assert_eq!(headers.take_stream(StreamHeader::Messages), None);
    assert_eq!(headers.take_stream(1u16), Some((StreamId(10), Dir::Uni)));
    assert_eq!(headers.take_stream(1u16), None);
    assert_eq!(headers.reading_streams(), vec![StreamId(12)]);
}

#[test]
fn take_stream_hands_out_each_of_several_matches_once() {
    let mut headers = RecvStreamHeaders::new();
    for id in 0..5u64 {
        headers.accept_stream(StreamId(id), Dir::Uni);
        assert_eq!(headers.receive(StreamId(id), Ok(Some(vec![0, 0]))), ReadStep::Classified);
    }
    let mut taken = Vec::new();
    while let Some((stream, dir)) = headers.take_stream(0u16) {
        assert_eq!(dir, Dir::Uni);
        taken.push(stream.0);
    }
    taken.sort();
    assert_eq!(taken, vec![0, 1, 2, 3, 4]);
}

#[test]
fn reading_streams_lists_every_unfinished_header_once() {
    let mut headers = RecvStreamHeaders::default();
    for id in 0..6u64 {
        headers.accept_stream(StreamId(id), Dir::Uni);
    }
    assert_eq!(headers.receive(StreamId(2), Ok(Some(vec![0, 0]))), ReadStep::Classified);
    assert_eq!(headers.receive(StreamId(4), Ok(None)), ReadStep::Finished);
    let mut reading: Vec<u64> = headers.reading_streams().iter().map(|s| s.0).collect();
    reading.sort();
    assert_eq!(reading, vec![0, 1, 3, 5]);
}

#[test]
fn accepting_a_stream_again_starts_its_header_afresh() {
    let mut headers = RecvStreamHeaders::new();
    headers.accept_stream(StreamId(1), Dir::Uni);
    assert_eq!(headers.receive(StreamId(1), Ok(Some(vec![5]))), ReadStep::Continue);
    headers.accept_stream(StreamId(1), Dir::Bi);
    assert_eq!(headers.bytes_needed(StreamId(1)), 2);
    assert_eq!(headers.receive(StreamId(1), Ok(Some(vec![0, 9]))), ReadStep::Classified);
    assert_eq!(headers.take_stream(9u16), Some((StreamId(1), Dir::Bi)));
}

#[test]
fn a_new_send_stream_holds_its_header() {
    let state = HeaderedStreamState::new(StreamId(3), 0x1234u16);
    assert_eq!(state.stream_id(), StreamId(3));
    assert_eq!(state.header(), Some(&[0x12u8, 0x34][..]));
}

#[test]
fn header_is_written_in_parts() {
    let mut state = HeaderedStreamState::new(StreamId(3), 0x1234u16);
    assert!(!state.write(0));
    assert_eq!(state.header(), Some(&[0x12u8, 0x34][..]));
    assert!(!state.write(1));
    assert_eq!(state.header(), Some(&[0x34u8][..]));
    assert!(state.write(1));
    assert_eq!(state.header(), None);
    assert!(state.write(0));
    assert_eq!(state.header(), None);
    assert_eq!(state.stream_id(), StreamId(3));
}

#[test]
fn header_is_written_at_once() {
    let mut state = HeaderedStreamState::new(StreamId(3), StreamHeader::Messages);
    assert_eq!(state.header(), Some(&[0u8, 0][..]));
    assert!(state.write(2));
    assert_eq!(state.header(), None);
}

#[test]
fn a_header_count_beyond_what_remained_puts_the_header_through() {
    let mut state = HeaderedStreamState::new(StreamId(3), 7u16);
    assert!(!state.write(1));
    assert!(state.write(5));
    assert_eq!(state.header(), None);
}

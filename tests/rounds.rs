use sockbench::client::{ClientError, ResponseStream};
use sockbench::server::{
    encode_responses, generate_responses, make_random_item, make_response_batch, make_uuid, Phase,
    ServerAction, ServerConnection,
};
use sockbench::stats::{latency_report, split_millis};
use sockbench::wire::{encode_request, AdvString, SocketRequest, SocketResponse};

fn named(c: u8) -> SocketResponse {
    SocketResponse { name: AdvString::new(vec![c; 36]) }
}

fn three_batch() -> Vec<u8> {
    encode_responses(&vec![named(b'A'), named(b'B'), named(b'C')])
}

#[test]
fn three_responses_in_two_reads() {
    let batch = three_batch();
    assert_eq!(batch.len(), 120);
    assert_eq!(&batch[0..4], &[36, 0, 0, 0]);
    assert_eq!(batch[4], b'A');
    assert_eq!(batch[44], b'B');
    assert_eq!(batch[84], b'C');
    let mut stream = ResponseStream::new(3);
    assert_eq!(stream.feed(&batch[..70]), Ok(false));
    assert_eq!(stream.received(), 1);
    assert_eq!(stream.feed(&batch[70..]), Ok(true));
    assert_eq!(stream.received(), 3);
    assert!(stream.is_complete());
    assert_eq!(stream.on_eof(), Ok(()));
}

#[test]
fn every_split_counts_all_responses() {
    let batch = three_batch();
    for k in 0..=batch.len() {
        let mut stream = ResponseStream::new(3);
        let first = stream.feed(&batch[..k]).unwrap();
        assert_eq!(first, k == batch.len());
        assert_eq!(stream.feed(&batch[k..]), Ok(true));
        assert_eq!(stream.received(), 3);
    }
}

#[test]
fn byte_by_byte_reads_count_all_responses() {
    let batch = make_response_batch(50);
    let mut stream = ResponseStream::new(50);
    for (i, b) in batch.iter().enumerate() {
        let done = stream.feed(&[*b]).unwrap();
        assert_eq!(done, i + 1 == batch.len());
        assert_eq!(stream.received() as usize, (i + 1) / 40);
    }
}

#[test]
fn early_close_reports_counts() {
    let batch = three_batch();
    let mut stream = ResponseStream::new(3);
    assert_eq!(stream.feed(&batch[..80]), Ok(false));
    assert_eq!(
        stream.on_eof(),
        Err(ClientError::ConnectionClosedEarly { received: 2, expected: 3 })
    );
}

#[test]
fn negative_prefix_in_stream_fails() {
    let mut stream = ResponseStream::new(3);
    let mut bytes = encode_responses(&vec![named(b'Q')]);
    bytes.extend_from_slice(&[0xff, 0xff, 0xff, 0xff]);
    assert_eq!(
        stream.feed(&bytes),
        Err(ClientError::MalformedResponse { received: 1, expected: 3 })
    );
    assert_eq!(stream.received(), 1);
}

#[test]
fn negative_prefix_after_split_reads() {
    let mut bytes = encode_responses(&vec![named(b'Q'), named(b'R')]);
    bytes.extend_from_slice(&[0xff, 0xff, 0xff, 0xff, 1, 2]);
    for k in 0..=bytes.len() {
        let mut stream = ResponseStream::new(3);
        let first = stream.feed(&bytes[..k]);
        let second = stream.feed(&bytes[k..]);
        let failed_early = first.is_err();
        assert_eq!(failed_early, k >= 84);
        assert_eq!(second, Err(ClientError::MalformedResponse { received: 2, expected: 3 }));
        assert_eq!(stream.received(), 2);
    }
}

#[test]
fn stream_stops_counting_at_expected() {
    let mut batch = three_batch();
    batch.extend_from_slice(&[0xff, 0xff, 0xff, 0xff]);
    let mut stream = ResponseStream::new(2);
    assert_eq!(stream.feed(&batch), Ok(true));
    assert_eq!(stream.received(), 2);
}

#[test]
fn zero_responses_is_complete_at_once() {
    let stream = ResponseStream::new(0);
    assert!(stream.is_complete());
    assert_eq!(stream.on_eof(), Ok(()));
}

fn serve(count: u32) -> Vec<u8> {
    let mut conn = ServerConnection::new();
    match conn.on_data(&encode_request(&SocketRequest { times: count })) {
        ServerAction::Reply(bytes) => {
            assert_eq!(conn.phase(), Phase::Served);
            bytes
        }
        other => panic!("expected a reply, got {:?}", other),
    }
}

#[test]
fn client_counts_what_server_sends() {
    for count in [0u32, 1, 100, 10_000] {
        let reply = serve(count);
        assert_eq!(reply.len(), 40 * count as usize);
        let mut stream = ResponseStream::new(count);
        if count > 0 {
            assert_eq!(stream.feed(&reply), Ok(true));
        }
        assert_eq!(stream.received(), count);
        assert_eq!(stream.on_eof(), Ok(()));
    }
}

#[test]
fn server_waits_for_whole_request() {
    let mut conn = ServerConnection::new();
    assert!(matches!(conn.on_data(&[2, 0]), ServerAction::Wait));
    assert_eq!(conn.phase(), Phase::AwaitingRequest);
    match conn.on_data(&[0, 0]) {
        ServerAction::Reply(bytes) => assert_eq!(bytes.len(), 80),
        other => panic!("expected a reply, got {:?}", other),
    }
    assert!(matches!(conn.on_data(&[1, 0, 0, 0]), ServerAction::Wait));
    assert!(matches!(conn.on_eof(), ServerAction::Close));
    assert_eq!(conn.phase(), Phase::Closed);
}

fn alphanumeric(b: &[u8]) -> bool {
    b.iter().all(|c| c.is_ascii_alphanumeric())
}

#[test]
fn generated_names() {
    let a = make_uuid();
    assert_eq!(a.len(), 36);
    assert!(alphanumeric(&a));
    let item = make_random_item();
    assert_eq!(item.name.len(), 36);
    assert!(alphanumeric(item.name.as_bytes()));
    let all = generate_responses(5);
    assert_eq!(all.len(), 5);
    assert!(all.iter().all(|r| r.name.len() == 36 && alphanumeric(r.name.as_bytes())));
}

#[test]
fn batch_holds_generated_names() {
    let batch = make_response_batch(4);
    assert_eq!(batch.len(), 160);
    for i in 0..4 {
        assert_eq!(&batch[40 * i..40 * i + 4], &[36, 0, 0, 0]);
        assert!(alphanumeric(&batch[40 * i + 4..40 * i + 40]));
    }
}

#[test]
fn latency_figures() {
    let r = latency_report(10_500_000, 4);
    assert_eq!(r.total_nanos, 10_500_000);
    assert_eq!(r.total_micros, 10_500);
    assert_eq!(r.total_millis, 10);
    assert_eq!(r.avg_nanos, Some(2_625_000));
    assert_eq!(r.avg_micros, Some(2_625));
    assert_eq!(r.avg_millis, Some(2));
    assert_eq!(split_millis(2_625), (2, 625));
}

#[test]
fn latency_averages_truncate() {
    let r = latency_report(1_000, 3);
    assert_eq!(r.avg_nanos, Some(333));
    assert_eq!(r.avg_micros, Some(0));
    let r = latency_report(7_999_999, 7);
    assert_eq!(r.avg_nanos, Some(1_142_857));
    assert_eq!(r.avg_micros, Some(1_142));
    assert_eq!(r.avg_millis, Some(1));
}

#[test]
fn latency_without_responses() {
    let r = latency_report(5_000_000, 0);
    assert_eq!(r.total_millis, 5);
    assert_eq!(r.avg_nanos, None);
    assert_eq!(r.avg_micros, None);
    assert_eq!(r.avg_millis, None);
}

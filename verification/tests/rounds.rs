use bytes::Bytes;
use std::io;
use stripe_sender::send_buf::SendStreamBuf;
use stripe_sender::sender::{NoStreamLeft, SendError, SendStep, Sender};

/// A stream that keeps what was written to it, and fails as told.
#[derive(Debug)]
struct Pipe {
    id: u32,
    failures_left: u32,
    flush_fails: bool,
    flushed: bool,
}

fn pipe(id: u32) -> Pipe {
    Pipe { id, failures_left: 0, flush_fails: false, flushed: false }
}

/// What one write gave to one stream.
#[derive(Debug, PartialEq, Eq, Clone)]
struct Written {
    stream: u32,
    start: u64,
    bytes: Vec<u8>,
}

/// One round: every write of the round is made before any is reconciled.
fn round(
    sender: &mut Sender<Pipe>,
    buf: &mut SendStreamBuf,
    log: &mut Vec<Written>,
) -> (usize, Result<(), SendError>) {
    let assignments = match sender.dispatch(buf) {
        Ok(assignments) => assignments,
        Err(e) => return (0, Err(e)),
    };
    let handed = assignments.len();
    let mut outcomes = Vec::new();
    for a in assignments {
        let mut stream = a.stream;
        if stream.failures_left > 0 {
            stream.failures_left -= 1;
            outcomes.push(Err(io::Error::new(io::ErrorKind::BrokenPipe, "write failed")));
        } else {
            log.push(Written {
                stream: stream.id,
                start: a.segment.start_sequence().inner(),
                bytes: a.segment.payload().to_vec(),
            });
            outcomes.push(Ok((a.segment.start_sequence(), stream)));
        }
    }
    (handed, sender.reconcile(buf, outcomes))
}

/// A whole send operation; the number of segments handed out in each round.
fn send_all(
    sender: &mut Sender<Pipe>,
    data: &[u8],
    log: &mut Vec<Written>,
) -> (Vec<usize>, Result<(), NoStreamLeft>) {
    let mut buf = match sender.begin_send(Bytes::copy_from_slice(data)) {
        Some(buf) => buf,
        None => panic!("the data fits"),
    };
    let mut rounds = Vec::new();
    loop {
        let (handed, outcome) = round(sender, &mut buf, log);
        rounds.push(handed);
        match sender.settle(&buf, outcome) {
            SendStep::Done => return (rounds, Ok(())),
            SendStep::Failed(e) => return (rounds, Err(e)),
            SendStep::Retry(_) => {}
        }
    }
}

fn in_offset_order(log: &[Written]) -> Vec<u8> {
    let mut sorted = log.to_vec();
    sorted.sort_by_key(|w| w.start);
    sorted.into_iter().flat_map(|w| w.bytes).collect()
}

#[test]
fn three_streams_send_nine_bytes_in_one_round() {
    let mut sender = Sender::new(vec![pipe(1), pipe(2), pipe(3)]);
    let mut buf = match sender.begin_send(Bytes::from_static(b"abcdefghi")) {
        Some(buf) => buf,
        None => panic!("the data fits"),
    };
    let mut log = Vec::new();
    let (handed, outcome) = round(&mut sender, &mut buf, &mut log);
    assert_eq!(handed, 3);
    assert!(outcome.is_ok());
    assert_eq!(
        log,
        vec![
            Written { stream: 1, start: 0, bytes: b"abc".to_vec() },
            Written { stream: 2, start: 3, bytes: b"def".to_vec() },
            Written { stream: 3, start: 6, bytes: b"ghi".to_vec() },
        ]
    );
    assert!(buf.done());
    assert_eq!(sender.stream_count(), 3);
    assert!(matches!(sender.settle(&buf, outcome), SendStep::Done));
    assert_eq!(sender.next_sequence().inner(), 9);
}

#[test]
fn two_streams_one_fails_once_and_the_other_finishes() {
    let mut first = pipe(1);
    first.failures_left = 1;
    let mut sender = Sender::new(vec![first, pipe(2)]);
    let mut buf = match sender.begin_send(Bytes::from_static(b"0123456789")) {
        Some(buf) => buf,
        None => panic!("the data fits"),
    };
    let mut log = Vec::new();

    let (handed, outcome) = round(&mut sender, &mut buf, &mut log);
    assert_eq!(handed, 2);
    assert!(matches!(outcome, Err(SendError::Io(ref errors)) if errors.len() == 1));
    assert_eq!(sender.stream_count(), 1);
    assert!(!buf.done());
    let left = buf.iter_unsent_segments();
    assert_eq!(left.len(), 1);
    assert_eq!(left[0].start_sequence().inner(), 0);
    assert_eq!(&left[0].payload()[..], b"01234");
    assert!(matches!(sender.settle(&buf, outcome), SendStep::Retry(ref e) if e.len() == 1));
    assert_eq!(sender.next_sequence().inner(), 0);

    let (handed, outcome) = round(&mut sender, &mut buf, &mut log);
    assert_eq!(handed, 1);
    assert!(outcome.is_ok());
    assert!(buf.done());
    assert!(matches!(sender.settle(&buf, outcome), SendStep::Done));
    assert_eq!(sender.next_sequence().inner(), 10);
    assert_eq!(sender.stream_count(), 1);
    assert_eq!(
        log,
        vec![
            Written { stream: 2, start: 5, bytes: b"56789".to_vec() },
            Written { stream: 2, start: 0, bytes: b"01234".to_vec() },
        ]
    );
    assert_eq!(in_offset_order(&log), b"0123456789".to_vec());
}

#[test]
fn only_stream_fails_then_the_pool_is_exhausted() {
    let mut only = pipe(1);
    only.failures_left = 1;
    let mut sender = Sender::new(vec![only]);
    let mut buf = match sender.begin_send(Bytes::from_static(b"abc")) {
        Some(buf) => buf,
        None => panic!("the data fits"),
    };
    let mut log = Vec::new();

    let (handed, outcome) = round(&mut sender, &mut buf, &mut log);
    assert_eq!(handed, 1);
    assert!(matches!(outcome, Err(SendError::Io(ref errors)) if errors.len() == 1));
    assert_eq!(sender.stream_count(), 0);
    assert!(matches!(sender.settle(&buf, outcome), SendStep::Retry(_)));

    let (handed, outcome) = round(&mut sender, &mut buf, &mut log);
    assert_eq!(handed, 0);
    assert!(matches!(outcome, Err(SendError::NoStreamLeft)));
    assert!(matches!(sender.settle(&buf, outcome), SendStep::Failed(NoStreamLeft)));
    assert!(log.is_empty());
    assert_eq!(sender.next_sequence().inner(), 0);
    assert!(!buf.done());
}

#[test]
fn send_fails_for_good_once_the_only_stream_is_lost() {
    let mut only = pipe(1);
    only.failures_left = 1;
    let mut sender = Sender::new(vec![only]);
    let mut log = Vec::new();
    let (rounds, outcome) = send_all(&mut sender, b"abc", &mut log);
    assert_eq!(outcome, Err(NoStreamLeft));
    assert_eq!(rounds, vec![1, 0]);
    assert!(log.is_empty());

    let (rounds, outcome) = send_all(&mut sender, b"again", &mut log);
    assert_eq!(outcome, Err(NoStreamLeft));
    assert_eq!(rounds, vec![0]);
    assert!(log.is_empty());
    assert_eq!(sender.next_sequence().inner(), 0);
}

#[test]
fn flush_stops_at_the_first_stream_that_fails() {
    let mut second = pipe(2);
    second.flush_fails = true;
    let mut sender = Sender::new(vec![pipe(1), second, pipe(3)]);
    let mut visited = 0usize;
    let mut last: io::Result<()> = Ok(());
    let flush = loop {
        match sender.fan_out_next(visited, last) {
            Err(e) => break Err(e),
            Ok(None) => break Ok(()),
            Ok(Some(index)) => {
                let stream = sender.stream_mut(index);
                last = if stream.flush_fails {
                    Err(io::Error::new(io::ErrorKind::TimedOut, "flush failed"))
                } else {
                    stream.flushed = true;
                    Ok(())
                };
                visited += 1;
            }
        }
    };
    match flush {
        Err(e) => assert_eq!(e.kind(), io::ErrorKind::TimedOut),
        Ok(()) => panic!("the second flush failed"),
    }
    assert_eq!(visited, 2);
    assert!(sender.stream_mut(0).flushed);
    assert!(!sender.stream_mut(1).flushed);
    assert!(!sender.stream_mut(2).flushed);
    assert_eq!(sender.stream_count(), 3);
}

#[test]
fn flush_visits_every_stream_when_none_fails() {
    let mut sender = Sender::new(vec![pipe(1), pipe(2), pipe(3)]);
    let mut visited = 0usize;
    let mut last: io::Result<()> = Ok(());
    let mut order = Vec::new();
    while let Ok(Some(index)) = sender.fan_out_next(visited, last) {
        let stream = sender.stream_mut(index);
        stream.flushed = true;
        order.push(stream.id);
        last = Ok(());
        visited += 1;
    }
    assert_eq!(order, vec![1, 2, 3]);
    assert!(sender.stream_mut(2).flushed);
}

#[test]
fn streams_that_never_fail_deliver_every_buffer_in_one_round() {
    for streams in 1u32..6 {
        for len in 0usize..30 {
            let data: Vec<u8> = (0..len).map(|i| (i * 13 + 5) as u8).collect();
            let mut sender = Sender::new((1..=streams).map(pipe).collect());
            let mut log = Vec::new();
            let (rounds, outcome) = send_all(&mut sender, &data, &mut log);
            assert_eq!(outcome, Ok(()));
            assert_eq!(rounds.len(), 1);
            assert!(rounds[0] <= streams as usize);
            assert_eq!(in_offset_order(&log), data);
            assert_eq!(sender.next_sequence().inner(), len as u64);
            assert_eq!(sender.stream_count(), streams as usize);
        }
    }
}

#[test]
fn losing_a_stream_each_round_still_delivers() {
    let mut streams: Vec<Pipe> = (1..=4).map(pipe).collect();
    streams[0].failures_left = 1;
    streams[1].failures_left = 1;
    streams[2].failures_left = 1;
    let mut sender = Sender::new(streams);
    let mut log = Vec::new();
    let (rounds, outcome) = send_all(&mut sender, b"abcdefghijkl", &mut log);
    assert_eq!(outcome, Ok(()));
    assert_eq!(rounds, vec![4, 1, 1, 1]);
    assert_eq!(sender.stream_count(), 1);
    assert_eq!(in_offset_order(&log), b"abcdefghijkl".to_vec());
    assert!(log.iter().all(|w| w.stream == 4));
    assert_eq!(sender.next_sequence().inner(), 12);
}

use queue_server::buffer::MessageBuffer;
use queue_server::journal::{first_offset, recover, Journal, JournalFile, RecoveryError};
use queue_server::message::QueueMessage;
use queue_server::session::{heartbeat_alive, ConsumerAction, ProducerAction, QueueState, ReadEvent};

fn state(cap: usize) -> QueueState {
    QueueState::new(MessageBuffer::new(cap), 0, 0)
}

fn drain(q: &mut QueueState) -> Vec<String> {
    let mut out = Vec::new();
    while let ConsumerAction::Send(l) = q.on_consumer_tick(true, true) {
        out.push(l);
    }
    out
}

/// Writes `lines` through a journal of threshold `t` into two in-memory files.
fn write_journal(t: usize, lines: &[String]) -> (Vec<String>, Vec<String>) {
    let mut j = Journal::new(t);
    let (mut a, mut b) = (Vec::new(), Vec::new());
    for l in lines {
        let step = j.record();
        let f = if step.file == JournalFile::A { &mut a } else { &mut b };
        if step.truncate {
            f.clear();
        }
        f.push(l.clone());
    }
    (a, b)
}

fn pop_all(mut buf: MessageBuffer) -> Vec<(usize, String)> {
    let mut out = Vec::new();
    while let Some(m) = buf.pop() {
        out.push((m.get_offset(), m.get_msg()));
    }
    out
}

#[test]
fn buffer_evicts_oldest_when_full() {
    let mut b = MessageBuffer::new(2);
    assert!(b.push(QueueMessage::new(0, "a".to_string())).is_none());
    assert!(b.push(QueueMessage::new(1, "b".to_string())).is_none());
    let ev = b.push(QueueMessage::new(2, "c".to_string())).unwrap();
    assert_eq!(ev.get_offset(), 0);
    assert_eq!(pop_all(b), vec![(1, "b".to_string()), (2, "c".to_string())]);
}

#[test]
fn buffer_pop_empty_is_none() {
    let mut b = MessageBuffer::new(1);
    assert!(b.pop().is_none());
}

#[test]
fn single_producer_single_consumer() {
    let mut q = state(10);
    assert!(matches!(q.on_producer_event(true, ReadEvent::Line("hello".to_string())), ProducerAction::Record(ref j) if j == "[0] hello"));
    assert!(matches!(q.on_producer_event(true, ReadEvent::Line("world".to_string())), ProducerAction::Record(ref j) if j == "[1] world"));
    assert_eq!(drain(&mut q), vec!["[0] hello".to_string(), "[1] world".to_string()]);
}

#[test]
fn overflow_keeps_latest_three() {
    let mut q = state(3);
    for s in ["a", "b", "c", "d", "e"] {
        q.enqueue(s.to_string());
    }
    assert_eq!(drain(&mut q), vec!["[2] c".to_string(), "[3] d".to_string(), "[4] e".to_string()]);
}

#[test]
fn overflow_leaves_exactly_capacity() {
    let mut q = state(5);
    for i in 0..12 {
        q.enqueue(format!("m{i}"));
    }
    let got = drain(&mut q);
    let want: Vec<String> = (7..12).map(|i| format!("[{:X}] m{i}", i)).collect();
    assert_eq!(got, want);
}

#[test]
fn fifo_order_with_increasing_offsets() {
    let mut q = state(100);
    for i in 0..50 {
        q.enqueue(format!("line {i}"));
    }
    let got = drain(&mut q);
    assert_eq!(got.len(), 50);
    let mut last: Option<usize> = None;
    for (i, l) in got.iter().enumerate() {
        let m = QueueMessage::try_from(l.clone()).unwrap();
        assert_eq!(m.get_msg(), format!("line {i}"));
        assert!(last.map_or(true, |p| p < m.get_offset()));
        last = Some(m.get_offset());
    }
}

#[test]
fn consumer_offset_counts_deliveries() {
    let mut q = QueueState::new(MessageBuffer::new(8), 0, 40);
    for i in 0..5 {
        q.enqueue(format!("{i}"));
    }
    for _ in 0..3 {
        assert!(matches!(q.on_consumer_tick(true, true), ConsumerAction::Send(_)));
    }
    assert_eq!(q.consumer_offset(), 43);
    drain(&mut q);
    assert_eq!(q.consumer_offset(), 45);
    assert!(matches!(q.on_consumer_tick(true, true), ConsumerAction::Idle));
    assert_eq!(q.consumer_offset(), 45);
    assert_eq!(q.producer_offset(), 5);
}

#[test]
fn two_consumers_partition_the_stream() {
    let mut q = state(1000);
    for i in 0..1000 {
        q.enqueue(format!("msg{i}"));
    }
    let (mut c1, mut c2) = (Vec::new(), Vec::new());
    let mut turn = 0u32;
    loop {
        match q.on_consumer_tick(true, true) {
            ConsumerAction::Send(l) => {
                let off = QueueMessage::try_from(l).unwrap().get_offset();
                if turn % 3 == 0 { c2.push(off) } else { c1.push(off) }
            }
            _ => break,
        }
        turn += 1;
    }
    assert!(c1.windows(2).all(|w| w[0] < w[1]));
    assert!(c2.windows(2).all(|w| w[0] < w[1]));
    let mut all: Vec<usize> = c1.iter().chain(c2.iter()).copied().collect();
    all.sort();
    assert_eq!(all, (0..1000).collect::<Vec<usize>>());
}

#[test]
fn heartbeat_timeout_ends_consumer() {
    assert!(heartbeat_alive(&ReadEvent::Line("ping".to_string())));
    assert!(!heartbeat_alive(&ReadEvent::TimedOut));
    assert!(!heartbeat_alive(&ReadEvent::Eof));
    assert!(!heartbeat_alive(&ReadEvent::Failed));
    let mut q = state(4);
    q.enqueue("after".to_string());
    let c1_alive = heartbeat_alive(&ReadEvent::TimedOut);
    assert!(matches!(q.on_consumer_tick(true, c1_alive), ConsumerAction::Exit));
    assert_eq!(drain(&mut q), vec!["[0] after".to_string()]);
}

#[test]
fn producer_session_transitions() {
    let mut q = state(4);
    assert!(matches!(q.on_producer_event(true, ReadEvent::TimedOut), ProducerAction::Wait));
    assert!(matches!(q.on_producer_event(true, ReadEvent::Eof), ProducerAction::Close));
    assert!(matches!(q.on_producer_event(true, ReadEvent::Failed), ProducerAction::Close));
    assert!(matches!(q.on_producer_event(false, ReadEvent::Line("x".to_string())), ProducerAction::Close));
    assert_eq!(q.producer_offset(), 0);
    assert!(matches!(q.on_consumer_tick(false, true), ConsumerAction::Exit));
}

#[test]
fn rotation_boundary_files_and_recovery() {
    let lines: Vec<String> = (0..9).map(|i| QueueMessage::new(i, format!("m{i}")).to_string()).collect();
    let (a, b) = write_journal(4, &lines);
    assert_eq!(a, vec!["[8] m8".to_string()]);
    assert_eq!(b, lines[4..8].to_vec());
    let (buf, next, _) = recover(4, &a, &b).unwrap();
    assert_eq!(next, 9);
    let got: Vec<usize> = pop_all(buf).into_iter().map(|m| m.0).collect();
    assert_eq!(got, vec![5, 6, 7, 8]);
}

#[test]
fn crash_recovery_keeps_latest_capacity() {
    let cap = 6;
    let mut q = state(cap);
    let mut journal_lines = Vec::new();
    for i in 0..2 * cap {
        if let ProducerAction::Record(j) = q.on_producer_event(true, ReadEvent::Line(format!("p{i}"))) {
            journal_lines.push(j);
        }
    }
    let (a, b) = write_journal(cap, &journal_lines);
    let (buf, next, _) = recover(cap, &a, &b).unwrap();
    assert_eq!(next, 2 * cap);
    let mut restarted = QueueState::new(buf, next, 0);
    let want: Vec<String> = (cap..2 * cap).map(|i| format!("[{:X}] p{i}", i)).collect();
    assert_eq!(drain(&mut restarted), want);
}

#[test]
fn journal_within_threshold_uses_one_file() {
    let lines: Vec<String> = (0..3).map(|i| QueueMessage::new(i, format!("x{i}")).to_string()).collect();
    let (a, b) = write_journal(5, &lines);
    assert_eq!(a, lines);
    assert!(b.is_empty());
    let got = pop_all(recover(5, &a, &b).unwrap().0);
    assert_eq!(got, vec![(0, "x0".to_string()), (1, "x1".to_string()), (2, "x2".to_string())]);
}

#[test]
fn recovery_round_trip_many_sizes() {
    for cap in 1..6usize {
        for n in 0..20usize {
            let lines: Vec<String> = (0..n).map(|i| QueueMessage::new(100 + i, format!("t {i}")).to_string()).collect();
            let (a, b) = write_journal(cap, &lines);
            let (buf, next, _) = recover(cap, &a, &b).unwrap();
            assert_eq!(next, if n == 0 { 0 } else { 100 + n });
            let got = pop_all(buf);
            let want: Vec<(usize, String)> = (n.saturating_sub(cap)..n).map(|i| (100 + i, format!("t {i}"))).collect();
            assert_eq!(got, want, "cap {cap} n {n}");
        }
    }
}

#[test]
fn recovery_skips_unparseable_lines() {
    let a = vec!["[0] a".to_string(), "garbage".to_string(), "[1] b".to_string()];
    let b = vec!["[5] e".to_string(), "".to_string()];
    let got = pop_all(recover(10, &a, &b).unwrap().0);
    assert_eq!(got, vec![(0, "a".to_string()), (1, "b".to_string()), (5, "e".to_string())]);
    let (buf, next, _) = recover(10, &b, &a).unwrap();
    assert_eq!(next, 6);
    let got = pop_all(buf);
    assert_eq!(got, vec![(0, "a".to_string()), (1, "b".to_string()), (5, "e".to_string())]);
}

#[test]
fn recovery_errors() {
    let a = vec!["[3] a".to_string()];
    let b = vec!["[3] b".to_string()];
    assert_eq!(recover(4, &a, &b).err(), Some(RecoveryError::EqualLeadingOffsets));
    let c = vec!["junk".to_string(), "[3] c".to_string()];
    assert_eq!(recover(4, &a, &c).err(), Some(RecoveryError::EqualLeadingOffsets));
    let (buf, next, file) = recover(4, &Vec::new(), &Vec::new()).unwrap();
    assert_eq!(next, 0);
    assert_eq!(file, JournalFile::A);
    assert!(pop_all(buf).is_empty());
}

#[test]
fn recovery_skips_unreadable_leading_lines() {
    let a = vec!["[3] a".to_string()];
    let c = vec!["junk".to_string(), "[4] c".to_string()];
    let (buf, next, file) = recover(4, &c, &a).unwrap();
    assert_eq!(pop_all(buf), vec![(3, "a".to_string()), (4, "c".to_string())]);
    assert_eq!(next, 5);
    assert_eq!(file, JournalFile::B);
    assert_eq!(first_offset(&c), Some(4));
    assert_eq!(first_offset(&vec!["x".to_string()]), None);
}

#[test]
fn recovery_of_unreadable_files_is_empty() {
    let a = vec!["junk".to_string(), "more junk".to_string()];
    let b = vec!["[zz] no".to_string()];
    let (buf, next, file) = recover(4, &a, &b).unwrap();
    assert!(pop_all(buf).is_empty());
    assert_eq!(next, 0);
    assert_eq!(file, JournalFile::A);
}

#[test]
fn restart_writes_older_file_first() {
    let lines: Vec<String> = (0..6).map(|i| QueueMessage::new(i, format!("m{i}")).to_string()).collect();
    let (a, b) = write_journal(4, &lines);
    let (_, next, file) = recover(4, &a, &b).unwrap();
    assert_eq!(next, 6);
    assert_eq!(file, JournalFile::A);
    let (_, _, file) = recover(4, &a, &Vec::new()).unwrap();
    assert_eq!(file, JournalFile::B);
    let mut j = Journal::starting_with(2, JournalFile::B);
    let steps: Vec<(JournalFile, bool)> = (0..5).map(|_| { let s = j.record(); (s.file, s.truncate) }).collect();
    assert_eq!(steps, vec![(JournalFile::B, true), (JournalFile::B, false), (JournalFile::A, true), (JournalFile::A, false), (JournalFile::B, true)]);
}

#[test]
fn counters_stay_ordered() {
    let mut q = state(2);
    for i in 0..5 {
        q.enqueue(format!("{i}"));
        assert!(q.consumer_offset() <= q.producer_offset());
    }
    drain(&mut q);
    assert_eq!(q.consumer_offset(), 2);
    assert_eq!(q.producer_offset(), 5);
}

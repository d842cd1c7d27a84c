use code_statistics::config::{default_debounce, default_heartbeat, default_timeout, Config};
use code_statistics::debounce::{Consolidator, QuietEvent, Quiescence};
use code_statistics::heartbeat::decode_timestamp;
use code_statistics::log::{
    encode_entry, timestamp_bytes, Effect, LogError, LogWriter, Message, Status, SystemMessage,
};
use code_statistics::session::{parse_line, LineAction, Session};
use code_statistics::tags::Tags;

fn apply(file: &mut Vec<u8>, e: &Effect) {
    if let Some(w) = &e.write {
        let off = w.offset as usize;
        for (i, b) in w.bytes.iter().enumerate() {
            if off + i < file.len() {
                file[off + i] = *b;
            } else {
                file.push(*b);
            }
        }
    }
}

fn end_ts(file: &[u8], entry: usize) -> i64 {
    let mut b = [0u8; 8];
    b.copy_from_slice(&file[entry * 20 + 12..entry * 20 + 20]);
    decode_timestamp(b)
}

fn start_ts(file: &[u8], entry: usize) -> i64 {
    let mut b = [0u8; 8];
    b.copy_from_slice(&file[entry * 20 + 3..entry * 20 + 11]);
    decode_timestamp(b)
}

#[test]
fn entry_bytes_layout() {
    let bytes = encode_entry(2, 0x0102, 0x0A0B);
    assert_eq!(
        bytes,
        vec![3, 0x02, 0x01, 0x0B, 0x0A, 0, 0, 0, 0, 0, 0, 0, 0x0B, 0x0A, 0, 0, 0, 0, 0, 0]
    );
}

#[test]
fn timestamp_bytes_little_endian() {
    assert_eq!(timestamp_bytes(1), vec![1, 0, 0, 0, 0, 0, 0, 0]);
    assert_eq!(timestamp_bytes(-1), vec![0xFF; 8]);
    assert_eq!(timestamp_bytes(0x0102030405060708), vec![8, 7, 6, 5, 4, 3, 2, 1]);
}

#[test]
fn checkpoint_round_trip() {
    for t in [0i64, 1, -1, 1_700_000_000, i64::MIN, i64::MAX] {
        let b = timestamp_bytes(t);
        let mut a = [0u8; 8];
        a.copy_from_slice(&b);
        assert_eq!(decode_timestamp(a), t);
    }
}

#[test]
fn active_appends_entry_and_dormant_closes_it() {
    let mut w = LogWriter::new(0);
    let mut file = Vec::new();
    let e = w
        .handle_at(Message::Status(Status::Active { time: 100, language: 0, project: 5 }), 0)
        .unwrap();
    assert_eq!(e.write.as_ref().unwrap().offset, 0);
    assert_eq!(e.cursor, 11);
    apply(&mut file, &e);
    assert_eq!(file.len(), 20);
    assert!(w.heartbeat_armed());
    let e = w.handle_at(Message::Status(Status::Dormant { time: 160 }), 0).unwrap();
    assert_eq!(e.write.as_ref().unwrap().offset, 12);
    assert_eq!(e.cursor, 20);
    apply(&mut file, &e);
    assert_eq!(file.len(), 20);
    assert_eq!(file[0], 1);
    assert_eq!(start_ts(&file, 0), 100);
    assert_eq!(end_ts(&file, 0), 160);
    assert!(!w.heartbeat_armed());
}

#[test]
fn same_pair_active_writes_nothing() {
    let mut w = LogWriter::new(40);
    w.handle_at(Message::Status(Status::Active { time: 1, language: 1, project: 1 }), 0).unwrap();
    let e = w.handle_at(Message::Status(Status::Active { time: 2, language: 1, project: 1 }), 0).unwrap();
    assert!(e.write.is_none());
    assert_eq!(w.file_len(), 60);
}

#[test]
fn new_pair_while_open_appends_whole_entry() {
    let mut w = LogWriter::new(0);
    let mut file = Vec::new();
    apply(&mut file, &w.handle_at(Message::Status(Status::Active { time: 1, language: 1, project: 1 }), 0).unwrap());
    let first = file.clone();
    let e = w.handle_at(Message::Status(Status::Active { time: 9, language: 2, project: 1 }), 0).unwrap();
    assert_eq!(e.write.as_ref().unwrap().offset, 20);
    assert_eq!(w.file_len(), 40);
    assert_eq!(e.cursor, 31);
    apply(&mut file, &e);
    assert_eq!(file.len(), 40);
    assert_eq!(&file[..20], &first[..]);
    assert_eq!(file[20], 3);
    assert_eq!(start_ts(&file, 1), 9);
}

#[test]
fn heartbeat_rewrites_only_end_time() {
    let mut w = LogWriter::new(0);
    let mut file = Vec::new();
    let e = w.handle_at(Message::Status(Status::Active { time: 10, language: 0, project: 0 }), 0).unwrap();
    apply(&mut file, &e);
    let header = file[..12].to_vec();
    for now in [30, 50, 70] {
        let e = w.handle_at(Message::Heartbeat, now).unwrap();
        assert_eq!(e.write.as_ref().unwrap().offset, 12);
        assert_eq!(e.cursor, 11);
        apply(&mut file, &e);
        assert_eq!(file.len(), 20);
        assert_eq!(&file[..12], &header[..]);
        assert_eq!(end_ts(&file, 0), now);
        assert_eq!(w.file_len(), 20);
    }
}

#[test]
fn heartbeat_with_nothing_open_writes_nothing() {
    let mut w = LogWriter::new(20);
    let e = w.handle_at(Message::Heartbeat, 99).unwrap();
    assert!(e.write.is_none());
    assert_eq!(e.cursor, 20);
}

#[test]
fn suspend_then_resume_without_session_keeps_closed_entry() {
    let mut w = LogWriter::new(0);
    let mut file = Vec::new();
    apply(&mut file, &w.handle_at(Message::Status(Status::Active { time: 10, language: 0, project: 0 }), 0).unwrap());
    apply(&mut file, &w.handle_at(Message::Status(Status::Dormant { time: 40 }), 0).unwrap());
    let before = file.clone();
    let e = w.handle_at(Message::System(SystemMessage::Suspend { time: 999 }), 0).unwrap();
    assert!(e.write.is_none());
    assert!(!e.reset_debouncer);
    apply(&mut file, &e);
    let e = w.handle_at(Message::System(SystemMessage::Resume), 0).unwrap();
    assert!(e.write.is_none());
    assert!(e.reset_debouncer);
    assert_eq!(file, before);
    assert_eq!(end_ts(&file, 0), 40);
}

#[test]
fn suspend_closes_open_entry_and_ignores_status_until_resume() {
    let mut w = LogWriter::new(0);
    let mut file = Vec::new();
    apply(&mut file, &w.handle_at(Message::Status(Status::Active { time: 10, language: 0, project: 0 }), 0).unwrap());
    apply(&mut file, &w.handle_at(Message::System(SystemMessage::Suspend { time: 25 }), 0).unwrap());
    assert_eq!(end_ts(&file, 0), 25);
    let e = w.handle_at(Message::Status(Status::Active { time: 30, language: 1, project: 0 }), 0).unwrap();
    assert!(e.write.is_none());
    w.handle_at(Message::System(SystemMessage::Resume), 0).unwrap();
    let e = w.handle_at(Message::Status(Status::Active { time: 30, language: 1, project: 0 }), 0).unwrap();
    assert_eq!(e.write.as_ref().unwrap().offset, 20);
}

#[test]
fn too_many_languages_is_refused() {
    let mut w = LogWriter::new(0);
    let r = w.handle_at(Message::Status(Status::Active { time: 1, language: 255, project: 0 }), 0);
    assert_eq!(r.err(), Some(LogError::TooManyLanguages));
    assert!(!w.heartbeat_armed());
    let r = w.handle_at(Message::Status(Status::Active { time: 1, language: 254, project: 0 }), 0);
    assert!(r.is_ok());
}

#[test]
fn too_many_projects_is_refused() {
    let mut w = LogWriter::new(0);
    let r = w.handle_at(Message::Status(Status::Active { time: 1, language: 0, project: 65536 }), 0);
    assert_eq!(r.err(), Some(LogError::TooManyProjects));
    let r = w.handle_at(Message::Status(Status::Active { time: 1, language: 0, project: 65535 }), 0);
    assert!(r.is_ok());
}

#[test]
fn config_defaults() {
    assert_eq!(default_timeout(), 20_000);
    assert_eq!(default_heartbeat(), 20_000);
    assert_eq!(default_debounce(), 5_000);
    let c = Config::default();
    assert!(c.ignored_languages.is_empty());
    assert_eq!(c.debounce_amount, 5_000);
    assert!(!c.is_ignored("rust"));
}

#[test]
fn end_to_end_one_session() {
    let config = Config::default();
    let mut languages = Tags::new();
    let mut projects = Tags::new();
    let mut session = Session::new();
    let mut consolidator = Consolidator::new();
    let mut quiet = Quiescence::new();
    let mut writer = LogWriter::new(0);
    let mut file = Vec::new();
    let mut forwarded = Vec::new();

    let (language, project) = match parse_line("rust\u{1e}proj\n", &config) {
        LineAction::Start { language, project } => (language, project),
        _ => panic!("expected a start"),
    };
    let l = languages.get(&language);
    let p = projects.get(&project);
    let msg = session.start(0, 1000, l, p).unwrap();
    let status = consolidator.handle(msg).unwrap();
    assert_eq!(status, Status::Active { time: 1000, language: 0, project: 0 });
    quiet.step(QuietEvent::Arrive(status));
    let out = quiet.step(QuietEvent::Elapse).unwrap();
    forwarded.push(out);
    apply(&mut file, &writer.handle_at(Message::Status(out), 0).unwrap());

    assert!(matches!(parse_line("\n", &config), LineAction::Stop));
    let msg = session.stop(0, 1300);
    let status = consolidator.handle(msg).unwrap();
    quiet.step(QuietEvent::Arrive(status));
    let out = quiet.step(QuietEvent::Elapse).unwrap();
    forwarded.push(out);
    apply(&mut file, &writer.handle_at(Message::Status(out), 0).unwrap());

    assert_eq!(
        forwarded,
        vec![Status::Active { time: 1000, language: 0, project: 0 }, Status::Dormant { time: 1300 }]
    );
    assert_eq!(file.len(), 20);
    assert_ne!(file[0], 0);
    assert!(end_ts(&file, 0) >= start_ts(&file, 0));
}

#[test]
fn two_connections_same_pair_one_entry() {
    let config = Config::default();
    let mut languages = Tags::new();
    let mut projects = Tags::new();
    let mut consolidator = Consolidator::new();
    let mut quiet = Quiescence::new();
    let mut writer = LogWriter::new(0);
    let mut file = Vec::new();
    let mut a = Session::new();
    let mut b = Session::new();
    let mut statuses = Vec::new();
    for (id, s) in [(0u128, &mut a), (1u128, &mut b)] {
        if let LineAction::Start { language, project } = parse_line("go\u{1e}projA\n", &config) {
            let l = languages.get(&language);
            let p = projects.get(&project);
            if let Some(msg) = s.start(id, 10 + id as i64, l, p) {
                if let Some(st) = consolidator.handle(msg) {
                    statuses.push(st);
                    quiet.step(QuietEvent::Arrive(st));
                }
            }
        }
    }
    assert_eq!(statuses.len(), 1);
    let out = quiet.step(QuietEvent::Elapse).unwrap();
    apply(&mut file, &writer.handle_at(Message::Status(out), 0).unwrap());
    assert_eq!(file.len(), 20);
    assert!(writer.heartbeat_armed());
}

#[test]
fn intervals_do_not_overlap() {
    let mut w = LogWriter::new(0);
    let mut file = Vec::new();
    let steps = [
        (Message::Status(Status::Active { time: 10, language: 0, project: 0 }), 0),
        (Message::Heartbeat, 15),
        (Message::Status(Status::Active { time: 20, language: 1, project: 0 }), 0),
        (Message::Heartbeat, 25),
        (Message::Status(Status::Dormant { time: 30 }), 0),
        (Message::Status(Status::Active { time: 40, language: 0, project: 0 }), 0),
        (Message::System(SystemMessage::Suspend { time: 50 }), 0),
    ];
    for (m, now) in steps {
        apply(&mut file, &w.handle_at(m, now).unwrap());
    }
    assert_eq!(file.len(), 60);
    let spans: Vec<(i64, i64)> = (0..3).map(|i| (start_ts(&file, i), end_ts(&file, i))).collect();
    assert_eq!(spans, vec![(10, 15), (20, 30), (40, 50)]);
    for i in 0..3 {
        assert_ne!(file[i * 20], 0);
        assert_eq!(file[i * 20 + 11], 0);
    }
}

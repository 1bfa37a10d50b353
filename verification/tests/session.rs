//! Sessions on disk.

use cupel::messages::AgentMessage;
use cupel::session::{
    check_header, find_latest, line_text, load_transcript, names_transcript, opening_text,
    project_slug, sessions_dir, split_transcript, summarize, RecorderAction, SessionRecorder, TranscriptHeader, TRANSCRIPT_VERSION,
};

#[test]
fn project_slug_flattens_paths() {
    assert_eq!(project_slug("/Users/denny/repos/cupel"), "-Users-denny-repos-cupel");
    assert_eq!(project_slug("/a/b.c d_e"), "-a-b-c-d_e");
}

fn recorder() -> SessionRecorder {
    SessionRecorder::new(Some("/home".into()), "/proj", "cupel-42", "mock-model", 7)
}

#[test]
fn nothing_is_written_before_the_first_message() {
    let rec = recorder();
    // The session has not begun, so there is nothing to end.
    assert!(rec.end_session().is_none());
    assert_eq!(rec.session_id(), "cupel-42");
    let dir = sessions_dir(Some("/home".into()), "/proj").unwrap();
    assert_eq!(rec.path(), Some(format!("{dir}/cupel-42.jsonl").as_str()));
}

#[test]
fn the_first_record_opens_the_file() {
    let mut rec = recorder();
    let first = rec.record();
    assert!(matches!(first[0], RecorderAction::Open));
    assert!(matches!(first.last(), Some(RecorderAction::Append)));
    rec.opened(true);
    let second = rec.record();
    assert_eq!(second.len(), 1);
    assert!(matches!(second[0], RecorderAction::Append));
}

#[test]
fn transcripts_are_a_header_and_messages() {
    let content = "{\"version\":1}\n{\"a\":1}\n\n{\"b\":2}\n";
    let lines = split_transcript(content).unwrap();
    assert_eq!(lines.header, "{\"version\":1}");
    let texts: Vec<&str> = lines.messages.iter().map(|(_, t)| t.as_str()).collect();
    assert_eq!(texts, vec!["{\"a\":1}", "{\"b\":2}"]);
    assert!(split_transcript("").is_err());
}

fn header(version: u32) -> TranscriptHeader {
    TranscriptHeader {
        version,
        session_id: "x".into(),
        cwd: "/".into(),
        model: "m".into(),
        started_at: 1,
    }
}

/// A file as it is after a header and these lines were written.
fn file_of(head: &str, lines: &[&str]) -> String {
    let mut file = opening_text(head, false);
    for line in lines {
        file.push_str(&line_text(line));
    }
    file
}

#[test]
fn transcript_roundtrips_header_and_messages() {
    let written = ["{\"user\":\"hello\"}", "{\"assistant\":\"hi there\"}", "{\"x\":1}"];
    let file = file_of("{\"sessionId\":\"cupel-42\"}", &written);
    let read = split_transcript(&file).unwrap();
    assert_eq!(read.header, "{\"sessionId\":\"cupel-42\"}");
    let lines: Vec<(usize, &str)> = read.messages.iter().map(|(n, t)| (*n, t.as_str())).collect();
    assert_eq!(lines, vec![(2, written[0]), (3, written[1]), (4, written[2])]);

    let messages = vec![
        Some(AgentMessage::user_text("hello".into(), 1)),
        Some(AgentMessage::user_text("again".into(), 2)),
    ];
    let (kept, messages) = load_transcript(Ok(header(TRANSCRIPT_VERSION)), messages).unwrap();
    assert_eq!(kept.version, TRANSCRIPT_VERSION);
    assert_eq!(kept.session_id, "x");
    assert_eq!(messages.len(), 2);
    assert_eq!(summarize(&kept, &messages).label, "hello");
}

#[test]
fn malformed_message_lines_are_skipped_but_bad_headers_refuse() {
    let one = || Some(AgentMessage::user_text("one".into(), 1));
    let (_, messages) =
        load_transcript(Ok(header(TRANSCRIPT_VERSION)), vec![one(), None]).unwrap();
    assert_eq!(messages.len(), 1, "corrupt line skipped, good one kept");

    // Unknown version: refuse.
    let refused = load_transcript(Ok(header(99)), vec![one()]).unwrap_err();
    assert!(refused.contains("version 99"));

    // Garbage header: refuse.
    let refused = load_transcript(Err("expected ident".into()), vec![one()]).unwrap_err();
    assert_eq!(refused, "transcript header is not readable: expected ident");
}

#[test]
fn resuming_appends_without_a_second_header() {
    let head = "{\"version\":1}";
    let mut file = file_of(head, &["{\"text\":\"first session\"}"]);
    // The same file again: the header must not repeat.
    file.push_str(&opening_text(head, true));
    file.push_str(&line_text("{\"text\":\"resumed\"}"));
    assert_eq!(file.matches("\"version\":").count(), 1, "one header");
    assert_eq!(split_transcript(&file).unwrap().messages.len(), 2);
}

#[test]
fn unknown_versions_are_refused() {
    assert!(check_header(&header(TRANSCRIPT_VERSION)).is_ok());
    assert!(check_header(&header(99)).unwrap_err().contains("version 99"));
}

#[test]
fn find_latest_picks_the_newest_transcript() {
    assert!(find_latest(&Vec::new()).is_none(), "no dir yet");
    let files = vec![
        ("cupel-1.jsonl".to_string(), 1),
        ("ignored.txt".to_string(), 99),
        ("cupel-2.jsonl".to_string(), 10),
    ];
    assert_eq!(find_latest(&files), Some(2));
    assert!(names_transcript("cupel-1.jsonl"));
    assert!(!names_transcript("ignored.txt"));
}

#[test]
fn disabled_recorder_is_a_silent_no_op() {
    let mut rec = SessionRecorder::new(None, "/proj", "cupel-42", "mock-model", 7);
    assert_eq!(rec.path(), None);
    let _ = rec.before_prompt("hello");
    assert!(rec.record().is_empty(), "nothing is written anywhere");
    let _ = rec.on_steer("steer");
    let _ = rec.on_agent_end();
    let _ = rec.end_session();
}

#[test]
fn a_prompt_announces_the_session_once() {
    let mut rec = recorder();
    let first = rec.before_prompt("hello");
    let second = rec.before_prompt("again");
    assert!(first.len() > second.len(), "the start is announced once");
    assert!(rec.end_session().is_some());
}

#[test]
fn summaries_count_and_name_the_session() {
    let header = TranscriptHeader {
        version: 1,
        session_id: "cupel-42".into(),
        cwd: "/proj".into(),
        model: "mock-model".into(),
        started_at: 1,
    };
    let messages = vec![
        AgentMessage::user_text("fix the parser".to_string(), 0),
        AgentMessage::user_text("and the lexer".to_string(), 0),
    ];
    let s = summarize(&header, &messages);
    assert_eq!(s.id, "cupel-42");
    assert_eq!(s.message_count, 2);
    assert_eq!(s.model, "mock-model");
    assert!(s.label.contains("fix the parser"));
}

use minsec::source::file::{is_glob, FileState, Poll, Probe, MAX_LINE};
use minsec::source::journal::{follow_args, parse_entry};
use minsec::source::{Line, Origin};

#[test]
fn parses_json_entry() {
    let l = parse_entry(r#"{"MESSAGE":"Failed password for root from 1.2.3.4","SYSLOG_IDENTIFIER":"sshd","_SYSTEMD_UNIT":"sshd.service"}"#).unwrap();
    assert_eq!(l.text, "Failed password for root from 1.2.3.4");
    match l.origin {
        Origin::Journal { unit, identifier, .. } => {
            assert_eq!(unit.as_deref(), Some("sshd.service"));
            assert_eq!(identifier.as_deref(), Some("sshd"));
        }
        _ => panic!(),
    }
    let l = parse_entry(r#"{"MESSAGE":[104,105]}"#).unwrap();
    assert_eq!(l.text, "hi");
}

#[test]
fn journal_entries_of_other_shapes() {
    assert!(parse_entry("not json").is_none());
    assert!(parse_entry("[1]").is_none());
    assert!(parse_entry(r#"{"PRIORITY":"6"}"#).is_none());
    assert!(parse_entry(r#"{"MESSAGE":null}"#).is_none());
    let l = parse_entry(r#"{"MESSAGE":[104,null,1.5,255],"_UID":"33","_COMM":"x","SYSLOG_IDENTIFIER":7}"#).unwrap();
    assert_eq!(l.text, "h\u{fffd}");
    match l.origin {
        Origin::Journal { unit, identifier, comm, uid } => {
            assert_eq!((unit, identifier), (None, None));
            assert_eq!(comm.as_deref(), Some("x"));
            assert_eq!(uid, Some(33));
        }
        _ => panic!(),
    }
    match parse_entry(r#"{"MESSAGE":"m","_UID":"4294967296"}"#).unwrap().origin {
        Origin::Journal { uid, .. } => assert_eq!(uid, None),
        _ => panic!(),
    }
}

#[test]
fn journalctl_arguments() {
    let args = follow_args(&vec!["A=1".to_string(), "B=2".to_string()]);
    assert_eq!(
        args,
        vec!["--follow", "--lines=0", "--output=json", "--no-pager", "A=1", "+", "B=2"]
    );
}

fn texts(st: &mut FileState, chunks: &[&[u8]]) -> Vec<String> {
    let mut out = Vec::new();
    for c in chunks {
        st.read_chunk(c, &mut out);
    }
    out.into_iter().map(|l| l.text).collect()
}

#[test]
fn partial_lines_are_completed() {
    let mut st = FileState::new("/var/log/x".into());
    assert_eq!(
        texts(&mut st, &[b"first ", b"line\nsecond line\n", b"tail"]),
        vec!["first line", "second line"]
    );
    assert_eq!(st.partial, b"tail");
    assert_eq!(st.pos, 6 + 17 + 4);
    assert_eq!(texts(&mut st, &[b"\n\n"]), vec!["tail", ""]);
}

#[test]
fn chunking_does_not_matter() {
    let data: &[u8] = b"one\ntwo \xc3\xa9\nthree\n\nrest";
    let whole = texts(&mut FileState::new("p".into()), &[data]);
    for cut in 0..data.len() {
        let mut st = FileState::new("p".into());
        assert_eq!(texts(&mut st, &[&data[..cut], &data[cut..]]), whole);
        assert_eq!(st.partial, b"rest");
    }
    assert_eq!(whole, vec!["one", "two é", "three", ""]);
}

#[test]
fn pathological_lines_are_dropped() {
    let mut st = FileState::new("p".into());
    let long = vec![b'a'; MAX_LINE];
    assert!(texts(&mut st, &[&long]).is_empty());
    assert_eq!(st.partial.len(), MAX_LINE);
    assert!(texts(&mut st, &[b"b"]).is_empty());
    assert!(st.partial.is_empty());
    assert_eq!(texts(&mut st, &[b"c\nnext\n"]), vec!["c", "next"]);
}

#[test]
fn files_are_polled() {
    let mut st = FileState::new("p".into());
    let there = |ino, size| Probe::There { ino, size };
    assert_eq!(st.poll(Probe::Gone, true), Poll::Drop { drain: false });
    assert_eq!(st.poll(there(1, 10), true), Poll::Open { at_end: true });
    assert_eq!(st.poll(there(1, 10), false), Poll::Open { at_end: false });
    st.opened(1, 10);
    assert_eq!(st.poll(there(1, 10), true), Poll::Read);
    assert_eq!(st.poll(there(1, 9), true), Poll::Reopen);
    assert_eq!(st.poll(there(2, 50), true), Poll::Reopen);
    assert_eq!(st.poll(Probe::Gone, true), Poll::Drop { drain: true });
    st.read_chunk(b"x", &mut Vec::new());
    st.rotated();
    assert!(!st.open && st.partial.is_empty());
    st.opened(2, 0);
    st.gone();
    assert_eq!((st.open, st.pos), (false, 0));
}

#[test]
fn a_file_that_comes_back_is_read_from_its_start() {
    let there = |ino, size| Probe::There { ino, size };
    let mut st = FileState::new("p".into());
    assert_eq!(st.poll(there(1, 9), true), Poll::Open { at_end: true });
    st.opened(1, 9);
    // Renamed away, and a new one in its place a look later.
    assert_eq!(st.poll(Probe::Gone, true), Poll::Drop { drain: true });
    st.gone();
    assert_eq!(st.poll(there(2, 2), true), Poll::Open { at_end: false });
    // Still so where it cannot be opened at once.
    st.not_opened(2);
    assert_eq!(st.poll(there(2, 2), true), Poll::Open { at_end: false });
    st.opened(2, 0);
    assert_eq!(texts(&mut st, &[b"x\n"]), vec!["x"]);
    // Replaced between two looks, and the new one cannot be opened at once.
    assert_eq!(st.poll(there(3, 5), true), Poll::Reopen);
    st.rotated();
    st.not_opened(3);
    assert_eq!(st.poll(there(3, 5), true), Poll::Open { at_end: false });
}

/// A path, and what follows it: looks at the path, and does what the look asks for.
struct Follower {
    state: FileState,
    file: Option<(u64, Vec<u8>)>,
    lines: Vec<Line>,
}

impl Follower {
    fn read(&mut self, content: &[u8]) {
        let from = (self.state.pos as usize).min(content.len());
        self.state.read_chunk(&content[from..], &mut self.lines);
    }

    fn look(&mut self, path: &Option<(u64, Vec<u8>)>) -> Vec<String> {
        let probe = match path {
            Some((ino, content)) => Probe::There { ino: *ino, size: content.len() as u64 },
            None => Probe::Gone,
        };
        let old = self.file.take();
        let at_end = match (self.state.poll(probe, true), path) {
            (Poll::Drop { .. }, _) => {
                self.state.gone();
                false
            }
            (Poll::Read, Some((_, content))) => {
                self.read(content);
                false
            }
            (Poll::Reopen, _) => {
                self.read(&old.unwrap().1);
                self.state.rotated();
                false
            }
            (Poll::Open { at_end }, _) => at_end,
            _ => unreachable!(),
        };
        if let (Some((ino, content)), false) = (path, self.state.open) {
            self.state.opened(*ino, if at_end { content.len() as u64 } else { 0 });
            self.read(content);
        }
        self.file = path.clone();
        self.lines.drain(..).map(|l| l.text).collect()
    }
}

#[test]
fn follows_appends_and_rotation_localset() {
    for gap in [false, true] {
        let mut t = Follower { state: FileState::new("test.log".into()), file: None, lines: vec![] };
        let mut path = Some((1, b"old line\n".to_vec()));
        assert!(t.look(&path).is_empty());
        // Append: partial then completed line.
        path = Some((1, b"old line\nfirst ".to_vec()));
        assert!(t.look(&path).is_empty());
        path = Some((1, b"old line\nfirst line\nsecond line\n".to_vec()));
        assert_eq!(t.look(&path), vec!["first line", "second line"]);
        // Rename rotation: new file read from the start, whether or not a look fell
        // between the rename and the new file.
        if gap {
            assert!(t.look(&None).is_empty());
        }
        path = Some((2, b"after rotate\n".to_vec()));
        assert_eq!(t.look(&path), vec!["after rotate"]);
        // copytruncate rotation: logrotate truncates, the writer appends later.
        path = Some((2, vec![]));
        assert!(t.look(&path).is_empty());
        path = Some((2, b"after truncate\n".to_vec()));
        assert_eq!(t.look(&path), vec!["after truncate"]);
    }
}

#[test]
fn only_the_first_file_is_entered_at_its_end() {
    let there = |ino, size| Probe::There { ino, size };
    // Not there at the beginning.
    let mut st = FileState::new("p".into());
    assert_eq!(st.poll(Probe::Gone, true), Poll::Drop { drain: false });
    st.gone();
    assert_eq!(st.poll(there(1, 5), true), Poll::Open { at_end: false });
    // A path that was first seen later.
    let st = FileState::appeared("p*".into());
    assert_eq!(st.poll(there(1, 5), true), Poll::Open { at_end: false });
    // There at the beginning, but not readable: the same file is entered at its end,
    // another one is not.
    let mut st = FileState::new("p".into());
    st.not_opened(1);
    assert_eq!(st.poll(there(1, 5), true), Poll::Open { at_end: true });
    assert_eq!(st.poll(there(1, 5), false), Poll::Open { at_end: false });
    assert_eq!(st.poll(there(2, 5), true), Poll::Open { at_end: false });
    st.not_opened(2);
    assert_eq!(st.poll(there(2, 5), true), Poll::Open { at_end: false });
}

#[test]
fn globs_are_recognised() {
    assert!(is_glob("/var/log/*.log"));
    assert!(is_glob("/var/log/a?"));
    assert!(is_glob("/var/log/[ab]"));
    assert!(!is_glob("/var/log/secure"));
}

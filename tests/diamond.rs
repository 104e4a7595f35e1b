use diamond_op::diamond::{Action, DiamondInner, Event};
use diamond_op::lines::{LineIter, LineStep};
use diamond_op::sources::{source_kind, source_tokens, SourceKind};
use diamond_op::stream::SingleStreamReader;

/// In-memory sources: each token names some bytes, or nothing (opening it fails).
struct World {
    files: Vec<(String, Option<Vec<u8>>)>,
    chunk: usize,
    current: Option<(Vec<u8>, usize)>,
    opened: Vec<String>,
    fail_next_read: bool,
}

impl World {
    fn new(files: &[(&str, Option<&[u8]>)], chunk: usize) -> World {
        World {
            files: files
                .iter()
                .map(|(n, d)| (n.to_string(), d.map(|b| b.to_vec())))
                .collect(),
            chunk,
            current: None,
            opened: Vec::new(),
            fail_next_read: false,
        }
    }

    fn open(&mut self, token: &str) -> Event {
        self.opened.push(token.to_string());
        let found = self.files.iter().find(|(n, _)| n == token).and_then(|(_, d)| d.clone());
        match found {
            Some(d) => {
                self.current = Some((d, 0));
                Event::Opened
            }
            None => {
                self.current = None;
                Event::OpenFailed
            }
        }
    }

    fn fill(&mut self) -> Event {
        if self.fail_next_read {
            self.fail_next_read = false;
            return Event::ReadFailed;
        }
        let (d, p) = self.current.as_mut().expect("a source is open");
        let n = std::cmp::min(self.chunk, d.len() - *p);
        let c = d[*p..*p + n].to_vec();
        *p += n;
        Event::Filled(c)
    }

    fn answer(&mut self, inner_token: Option<String>, action: Action) -> Option<Event> {
        match action {
            Action::Open(_) => Some(self.open(&inner_token.expect("token"))),
            Action::Fill => Some(self.fill()),
            _ => None,
        }
    }
}

fn names(v: &[&str]) -> Vec<String> {
    v.iter().map(|s| s.to_string()).collect()
}

fn token_of(inner: &DiamondInner, a: Action) -> Option<String> {
    match a {
        Action::Open(i) => Some(inner.token(i).clone()),
        _ => None,
    }
}

fn read_until(inner: &mut DiamondInner, w: &mut World, byte: u8, buf: &mut Vec<u8>) -> Action {
    let mut ev = Event::Start;
    loop {
        assert!(inner.accepts(&ev));
        let a = inner.read_until(byte, buf, ev);
        let t = token_of(inner, a);
        match w.answer(t, a) {
            Some(e) => ev = e,
            None => return a,
        }
    }
}

fn read_line(inner: &mut DiamondInner, w: &mut World, buf: &mut String) -> Action {
    let mut ev = Event::Start;
    loop {
        assert!(inner.accepts(&ev));
        let a = inner.read_line(buf, ev);
        let t = token_of(inner, a);
        match w.answer(t, a) {
            Some(e) => ev = e,
            None => return a,
        }
    }
}

fn next_line(it: &mut LineIter, tokens: &[String], w: &mut World) -> LineStep {
    let mut ev = Event::Start;
    loop {
        assert!(it.accepts(&ev));
        match it.next(ev) {
            LineStep::Open(i) => ev = w.open(&tokens[i]),
            LineStep::Fill => ev = w.fill(),
            other => return other,
        }
    }
}

fn stream_read(r: &mut SingleStreamReader, tokens: &[String], w: &mut World, out: &mut [u8]) -> Action {
    let mut ev = Event::Start;
    loop {
        assert!(r.accepts(&ev));
        match r.read(out, ev) {
            Action::Open(i) => ev = w.open(&tokens[i]),
            Action::Fill => ev = w.fill(),
            other => return other,
        }
    }
}

fn stream_fill(r: &mut SingleStreamReader, tokens: &[String], w: &mut World) -> Action {
    let mut ev = Event::Start;
    loop {
        match r.fill_buf(ev) {
            Action::Open(i) => ev = w.open(&tokens[i]),
            Action::Fill => ev = w.fill(),
            other => return other,
        }
    }
}

fn ab_world(chunk: usize) -> World {
    World::new(&[("A", Some(b"x\ny")), ("B", Some(b"z\n"))], chunk)
}

#[test]
fn empty_arguments_name_standard_input_once() {
    let tokens = source_tokens(Vec::new());
    assert_eq!(tokens, vec!["-".to_string()]);
    let mut inner = DiamondInner::new(Vec::new());
    assert_eq!(inner.token_count(), 1);
    assert_eq!(source_kind(inner.token(0)), SourceKind::StandardInput);
    let mut w = World::new(&[("-", Some(b"in\n"))], 8);
    let mut buf = Vec::new();
    assert_eq!(read_until(&mut inner, &mut w, b'\n', &mut buf), Action::Done(3));
    assert_eq!(read_until(&mut inner, &mut w, b'\n', &mut buf), Action::Done(0));
    assert_eq!(w.opened, vec!["-".to_string()]);
}

#[test]
fn arguments_are_kept_in_order() {
    let tokens = source_tokens(names(&["b", "-", "a"]));
    assert_eq!(tokens, names(&["b", "-", "a"]));
}

#[test]
fn token_kinds() {
    assert_eq!(source_kind(&"-".to_string()), SourceKind::StandardInput);
    assert_eq!(source_kind(&"file.txt".to_string()), SourceKind::File);
    assert_eq!(source_kind(&"--".to_string()), SourceKind::File);
    assert_eq!(source_kind(&"".to_string()), SourceKind::File);
}

#[test]
fn read_line_stops_at_each_source_end() {
    for chunk in [1, 2, 64] {
        let mut inner = DiamondInner::new(names(&["A", "B"]));
        let mut w = ab_world(chunk);
        let mut got = Vec::new();
        loop {
            let mut line = String::new();
            match read_line(&mut inner, &mut w, &mut line) {
                Action::Done(0) => break,
                Action::Done(n) => {
                    assert_eq!(n, line.len());
                    got.push(line);
                }
                other => panic!("unexpected {:?}", other),
            }
        }
        assert_eq!(got, names(&["x\n", "y", "z\n"]));
    }
}

#[test]
fn reader_joins_sources_into_one_stream() {
    let tokens = names(&["A", "B"]);
    let mut r = DiamondInner::new(tokens.clone()).reader();
    let mut w = ab_world(2);
    let mut all = Vec::new();
    let mut out = [0u8; 3];
    loop {
        match stream_read(&mut r, &tokens, &mut w, &mut out) {
            Action::Done(0) => break,
            Action::Done(n) => all.extend_from_slice(&out[..n]),
            other => panic!("unexpected {:?}", other),
        }
    }
    assert_eq!(all, b"x\nyz\n".to_vec());
    for _ in 0..3 {
        assert_eq!(stream_read(&mut r, &tokens, &mut w, &mut out), Action::Done(0));
    }
    assert_eq!(w.opened, names(&["A", "B"]));
    let text = String::from_utf8(all).unwrap();
    let lines: Vec<String> = text.split_inclusive('\n').map(|s| s.to_string()).collect();
    assert_eq!(lines, names(&["x\n", "yz\n"]));
}

#[test]
fn stream_fill_buf_and_consume() {
    let tokens = names(&["A", "B"]);
    let mut r = DiamondInner::new(tokens.clone()).reader();
    let mut w = ab_world(64);
    assert_eq!(stream_fill(&mut r, &tokens, &mut w), Action::Done(3));
    assert_eq!(r.buffer(), b"x\ny");
    r.consume(1);
    assert_eq!(r.buffer(), b"\ny");
    r.consume(10);
    assert_eq!(r.buffer(), b"");
    assert_eq!(stream_fill(&mut r, &tokens, &mut w), Action::Done(2));
    assert_eq!(r.buffer(), b"z\n");
    r.consume(2);
    assert_eq!(stream_fill(&mut r, &tokens, &mut w), Action::Done(0));
    r.consume(5);
    assert_eq!(stream_fill(&mut r, &tokens, &mut w), Action::Done(0));
    assert_eq!(w.opened, names(&["A", "B"]));
}

#[test]
fn stream_skips_empty_sources() {
    let tokens = names(&["E", "A", "E"]);
    let mut r = DiamondInner::new(tokens.clone()).reader();
    let mut w = World::new(&[("E", Some(b"")), ("A", Some(b"ab"))], 4);
    let mut out = [0u8; 8];
    assert_eq!(stream_read(&mut r, &tokens, &mut w, &mut out), Action::Done(2));
    assert_eq!(&out[..2], b"ab");
    assert_eq!(stream_read(&mut r, &tokens, &mut w, &mut out), Action::Done(0));
}

#[test]
fn read_until_appends_to_the_buffer() {
    let mut inner = DiamondInner::new(names(&["A", "B"]));
    let mut w = ab_world(1);
    let mut buf = b"old:".to_vec();
    assert_eq!(read_until(&mut inner, &mut w, b'\n', &mut buf), Action::Done(2));
    assert_eq!(buf, b"old:x\n".to_vec());
    assert_eq!(read_until(&mut inner, &mut w, b'\n', &mut buf), Action::Done(1));
    assert_eq!(buf, b"old:x\ny".to_vec());
    assert_eq!(read_until(&mut inner, &mut w, b'\n', &mut buf), Action::Done(2));
    assert_eq!(buf, b"old:x\nyz\n".to_vec());
    assert_eq!(read_until(&mut inner, &mut w, b'\n', &mut buf), Action::Done(0));
    assert_eq!(buf, b"old:x\nyz\n".to_vec());
}

#[test]
fn read_until_other_delimiter() {
    let mut inner = DiamondInner::new(names(&["A"]));
    let mut w = World::new(&[("A", Some(b"a,bc,,d"))], 3);
    let mut got = Vec::new();
    loop {
        let mut buf = Vec::new();
        match read_until(&mut inner, &mut w, b',', &mut buf) {
            Action::Done(0) => break,
            Action::Done(n) => {
                assert_eq!(n, buf.len());
                got.push(buf);
            }
            other => panic!("unexpected {:?}", other),
        }
    }
    assert_eq!(got, vec![b"a,".to_vec(), b"bc,".to_vec(), b",".to_vec(), b"d".to_vec()]);
}

#[test]
fn failed_open_reports_error_and_leaves_no_source() {
    let mut inner = DiamondInner::new(names(&["A", "missing", "C"]));
    let mut w = World::new(&[("A", Some(b"a1\na2\n")), ("C", Some(b"c\n"))], 4);
    let mut buf = Vec::new();
    assert_eq!(read_until(&mut inner, &mut w, b'\n', &mut buf), Action::Done(3));
    assert_eq!(read_until(&mut inner, &mut w, b'\n', &mut buf), Action::Done(3));
    assert_eq!(buf, b"a1\na2\n".to_vec());
    assert_eq!(read_until(&mut inner, &mut w, b'\n', &mut buf), Action::Fail);
    assert_eq!(inner.current_token(), None);
    assert_eq!(buf, b"a1\na2\n".to_vec());
    assert_eq!(w.opened, names(&["A", "missing"]));
}

#[test]
fn failed_open_is_not_retried_and_the_next_call_moves_on() {
    let mut inner = DiamondInner::new(names(&["A", "missing", "C"]));
    let mut w = World::new(&[("A", Some(b"a\n")), ("C", Some(b"c\n"))], 4);
    let mut line = String::new();
    assert_eq!(read_line(&mut inner, &mut w, &mut line), Action::Done(2));
    assert_eq!(read_line(&mut inner, &mut w, &mut line), Action::Fail);
    assert_eq!(read_line(&mut inner, &mut w, &mut line), Action::Done(2));
    assert_eq!(line, "a\nc\n");
    assert_eq!(w.opened, names(&["A", "missing", "C"]));
}

#[test]
fn failed_read_keeps_the_source() {
    let mut inner = DiamondInner::new(names(&["A"]));
    let mut w = World::new(&[("A", Some(b"ab\n"))], 8);
    let mut buf = Vec::new();
    assert_eq!(inner.read_until(b'\n', &mut buf, Event::Start), Action::Open(0));
    assert_eq!(inner.read_until(b'\n', &mut buf, w.open("A")), Action::Fill);
    assert_eq!(inner.current_token(), Some(0));
    w.fail_next_read = true;
    assert_eq!(inner.read_until(b'\n', &mut buf, w.fill()), Action::Fail);
    assert_eq!(inner.current_token(), Some(0));
    assert_eq!(read_until(&mut inner, &mut w, b'\n', &mut buf), Action::Done(3));
    assert_eq!(buf, b"ab\n".to_vec());
}

#[test]
fn exhausted_reader_keeps_returning_zero() {
    let mut inner = DiamondInner::new(names(&["A"]));
    let mut w = World::new(&[("A", Some(b"q"))], 8);
    let mut buf = Vec::new();
    assert_eq!(read_until(&mut inner, &mut w, b'\n', &mut buf), Action::Done(1));
    assert_eq!(read_until(&mut inner, &mut w, b'\n', &mut buf), Action::Done(0));
    for _ in 0..3 {
        assert_eq!(inner.read_until(b'\n', &mut buf, Event::Start), Action::Done(0));
        let mut line = String::from("keep");
        assert_eq!(inner.read_line(&mut line, Event::Start), Action::Done(0));
        assert_eq!(line, "keep");
        assert_eq!(inner.read_inner(Event::Start), Some(Action::Done(0)));
    }
    assert_eq!(buf, b"q".to_vec());
    assert_eq!(w.opened, names(&["A"]));
}

#[test]
fn exhausted_after_an_error_gives_zero_not_the_error() {
    let mut inner = DiamondInner::new(names(&["missing"]));
    let mut w = World::new(&[], 8);
    let mut buf = Vec::new();
    assert_eq!(read_until(&mut inner, &mut w, b'\n', &mut buf), Action::Fail);
    assert_eq!(read_until(&mut inner, &mut w, b'\n', &mut buf), Action::Done(0));
    assert_eq!(read_until(&mut inner, &mut w, b'\n', &mut buf), Action::Done(0));
    assert_eq!(w.opened, names(&["missing"]));
}

#[test]
fn read_line_decodes_characters_split_across_reads() {
    let mut inner = DiamondInner::new(names(&["A"]));
    let mut w = World::new(&[("A", Some("h\u{e9}\u{1f600}\n".as_bytes()))], 1);
    let mut line = String::from(">");
    assert_eq!(read_line(&mut inner, &mut w, &mut line), Action::Done(8));
    assert_eq!(line, ">h\u{e9}\u{1f600}\n");
    assert_eq!(line.chars().count(), 5);
}

#[test]
fn read_line_refuses_invalid_utf8() {
    let mut inner = DiamondInner::new(names(&["A"]));
    let mut w = World::new(&[("A", Some(b"a\xff\nok\n"))], 2);
    let mut line = String::from("before");
    assert_eq!(read_line(&mut inner, &mut w, &mut line), Action::InvalidData);
    assert_eq!(line, "before");
    assert_eq!(read_line(&mut inner, &mut w, &mut line), Action::Done(3));
    assert_eq!(line, "beforeok\n");
}

#[test]
fn line_iter_yields_each_line() {
    let tokens = names(&["A", "B"]);
    let mut it = DiamondInner::new(tokens.clone()).line_iter();
    let mut w = ab_world(2);
    let mut got = Vec::new();
    loop {
        match next_line(&mut it, &tokens, &mut w) {
            LineStep::Line(l) => got.push(l),
            LineStep::End => break,
            other => panic!("unexpected {:?}", other),
        }
    }
    assert_eq!(got, names(&["x\n", "y", "z\n"]));
    assert!(matches!(next_line(&mut it, &tokens, &mut w), LineStep::End));
}

#[test]
fn line_iter_ends_after_an_error() {
    let tokens = names(&["A", "missing", "C"]);
    let mut it = DiamondInner::new(tokens.clone()).line_iter();
    let mut w = World::new(&[("A", Some(b"a\n")), ("C", Some(b"c\n"))], 4);
    assert!(matches!(next_line(&mut it, &tokens, &mut w), LineStep::Line(l) if l == "a\n"));
    assert!(matches!(next_line(&mut it, &tokens, &mut w), LineStep::Fail));
    assert!(matches!(next_line(&mut it, &tokens, &mut w), LineStep::End));
    assert!(matches!(next_line(&mut it, &tokens, &mut w), LineStep::End));
    assert_eq!(w.opened, names(&["A", "missing"]));
}

#[test]
fn line_iter_ends_after_invalid_data() {
    let tokens = names(&["A"]);
    let mut it = DiamondInner::new(tokens.clone()).line_iter();
    let mut w = World::new(&[("A", Some(b"\xc3(\nnext\n"))], 4);
    assert!(matches!(next_line(&mut it, &tokens, &mut w), LineStep::InvalidData));
    assert!(matches!(next_line(&mut it, &tokens, &mut w), LineStep::End));
}

#[test]
fn protocol_is_checked_by_accepts() {
    let mut inner = DiamondInner::new(names(&["A"]));
    assert!(inner.accepts(&Event::Start));
    assert!(!inner.accepts(&Event::Opened));
    assert!(!inner.accepts(&Event::Filled(vec![1])));
    assert_eq!(inner.read_inner(Event::Start), Some(Action::Open(0)));
    assert!(!inner.accepts(&Event::Start));
    assert!(inner.accepts(&Event::OpenFailed));
    assert_eq!(inner.read_inner(Event::Opened), Some(Action::Fill));
    assert!(inner.accepts(&Event::Filled(vec![1, 2])));
    assert_eq!(inner.read_inner(Event::Filled(vec![1, 2])), None);
    assert_eq!(inner.pending(), &[1u8, 2][..]);
    assert!(!inner.accepts(&Event::Filled(vec![3])));
    assert_eq!(inner.pending_len(), 2);
}

#[test]
fn record_at_source_end_keeps_the_source_named() {
    let mut inner = DiamondInner::new(names(&["A", "B"]));
    let mut w = ab_world(8);
    let mut buf = Vec::new();
    assert_eq!(read_until(&mut inner, &mut w, b'\n', &mut buf), Action::Done(2));
    assert_eq!(inner.current_token(), Some(0));
    assert_eq!(read_until(&mut inner, &mut w, b'\n', &mut buf), Action::Done(1));
    assert_eq!(inner.current_token(), Some(0));
    assert_eq!(w.opened, names(&["A"]));
    assert_eq!(read_until(&mut inner, &mut w, b'\n', &mut buf), Action::Done(2));
    assert_eq!(inner.current_token(), Some(1));
    assert_eq!(read_until(&mut inner, &mut w, b'\n', &mut buf), Action::Done(0));
    assert_eq!(inner.current_token(), None);
}

#[test]
fn ended_source_is_not_read_again() {
    let mut inner = DiamondInner::new(names(&["A", "B"]));
    let mut buf = Vec::new();
    assert_eq!(inner.read_until(b'\n', &mut buf, Event::Start), Action::Open(0));
    assert_eq!(inner.read_until(b'\n', &mut buf, Event::Opened), Action::Fill);
    assert_eq!(inner.read_until(b'\n', &mut buf, Event::Filled(b"y".to_vec())), Action::Fill);
    assert_eq!(inner.read_until(b'\n', &mut buf, Event::Filled(Vec::new())), Action::Done(1));
    assert_eq!(inner.current_token(), Some(0));
    assert!(!inner.accepts(&Event::Filled(Vec::new())));
    assert_eq!(inner.read_until(b'\n', &mut buf, Event::Start), Action::Open(1));
}

#[test]
fn failed_read_keeps_the_valid_part_of_a_line() {
    let mut inner = DiamondInner::new(names(&["A"]));
    let mut w = World::new(&[("A", Some(b"abc\n"))], 2);
    let mut line = String::new();
    assert_eq!(inner.read_line(&mut line, Event::Start), Action::Open(0));
    assert_eq!(inner.read_line(&mut line, w.open("A")), Action::Fill);
    assert_eq!(inner.read_line(&mut line, w.fill()), Action::Fill);
    w.fail_next_read = true;
    assert_eq!(inner.read_line(&mut line, w.fill()), Action::Fail);
    assert_eq!(line, "ab");
    assert_eq!(read_line(&mut inner, &mut w, &mut line), Action::Done(2));
    assert_eq!(line, "abc\n");
}

#[test]
fn failed_read_drops_an_invalid_part_of_a_line() {
    let mut inner = DiamondInner::new(names(&["A"]));
    let mut w = World::new(&[("A", Some(b"a\xe2ok\n"))], 2);
    let mut line = String::from("x");
    assert_eq!(inner.read_line(&mut line, Event::Start), Action::Open(0));
    assert_eq!(inner.read_line(&mut line, w.open("A")), Action::Fill);
    assert_eq!(inner.read_line(&mut line, w.fill()), Action::Fill);
    w.fail_next_read = true;
    assert_eq!(inner.read_line(&mut line, w.fill()), Action::Fail);
    assert_eq!(line, "x");
}

use tcp_router_first::framer::{process_buffer, Framer};

fn feed(framer: &mut Framer, chunk: &[u8]) -> Option<Vec<u8>> {
    framer.push(chunk)
}

#[test]
fn trailing_nul_is_stripped_and_cr_kept() {
    let mut framer = Framer::new();
    let message = feed(&mut framer, b"hello\r\x00");
    assert_eq!(message, Some(b"hello\r".to_vec()));
    assert!(framer.contents().is_empty());
}

#[test]
fn repeated_undelimited_reads_are_discarded() {
    let mut framer = Framer::new();
    let chunk = b"hellohellohellohellohello";
    let mut messages = 0;
    for read in 1..=45 {
        if feed(&mut framer, chunk).is_some() {
            messages += 1;
        }
        let total = read * chunk.len();
        if total <= 1024 {
            assert_eq!(framer.contents().len(), total);
        }
        if read == 41 {
            assert!(framer.contents().is_empty());
        }
    }
    assert_eq!(messages, 0);
    assert_eq!(framer.contents().len(), 4 * chunk.len());
}

#[test]
fn single_hello_reads_clear_past_threshold() {
    let mut framer = Framer::new();
    for _ in 0..204 {
        assert_eq!(feed(&mut framer, b"hello"), None);
    }
    assert_eq!(framer.contents().len(), 1020);
    assert_eq!(feed(&mut framer, b"hello"), None);
    assert!(framer.contents().is_empty());
}

#[test]
fn delimiter_anywhere_frames_whole_buffer() {
    let mut framer = Framer::new();
    assert_eq!(feed(&mut framer, b"ab"), None);
    assert_eq!(framer.contents(), b"ab".to_vec());
    let message = feed(&mut framer, b"c\nd");
    assert_eq!(message, Some(b"abc\nd".to_vec()));
    assert!(framer.contents().is_empty());
}

#[test]
fn several_delimiters_in_one_read_give_one_message() {
    let mut framer = Framer::new();
    let message = feed(&mut framer, b"one\ntwo\nthree\n");
    assert_eq!(message, Some(b"one\ntwo\nthree\n".to_vec()));
    assert!(framer.contents().is_empty());
}

#[test]
fn line_feed_alone_frames() {
    let mut framer = Framer::new();
    assert_eq!(feed(&mut framer, b"x\n"), Some(b"x\n".to_vec()));
}

#[test]
fn only_one_trailing_nul_is_stripped() {
    let mut framer = Framer::new();
    assert_eq!(feed(&mut framer, b"x\n\x00\x00"), Some(b"x\n\x00".to_vec()));
}

#[test]
fn inner_nul_is_kept() {
    let mut framer = Framer::new();
    assert_eq!(feed(&mut framer, b"a\x00b\r"), Some(b"a\x00b\r".to_vec()));
}

#[test]
fn buffer_at_threshold_is_retained() {
    let mut framer = Framer::new();
    let chunk = vec![b'a'; 1024];
    assert_eq!(feed(&mut framer, &chunk), None);
    assert_eq!(framer.contents().len(), 1024);
    assert_eq!(feed(&mut framer, b"b"), None);
    assert!(framer.contents().is_empty());
}

#[test]
fn long_delimited_buffer_is_still_emitted() {
    let mut framer = Framer::new();
    let mut chunk = vec![b'a'; 1500];
    chunk.push(b'\n');
    chunk.push(0);
    let message = feed(&mut framer, &chunk).unwrap();
    assert_eq!(message.len(), 1501);
    assert_eq!(message[1500], b'\n');
    assert!(framer.contents().is_empty());
}

#[test]
fn empty_chunk_keeps_buffer() {
    let mut framer = Framer::new();
    assert_eq!(feed(&mut framer, b"abc"), None);
    assert_eq!(feed(&mut framer, b""), None);
    assert_eq!(framer.contents(), b"abc".to_vec());
}

#[test]
fn process_buffer_outcomes() {
    assert_eq!(process_buffer(b"hi\r\x00".to_vec()), (Some(b"hi\r".to_vec()), Vec::new()));
    assert_eq!(process_buffer(b"hi".to_vec()), (None, b"hi".to_vec()));
    assert_eq!(process_buffer(vec![b'z'; 1025]), (None, Vec::new()));
    assert_eq!(process_buffer(Vec::new()), (None, Vec::new()));
    assert_eq!(process_buffer(b"\x00\n".to_vec()), (Some(b"\x00\n".to_vec()), Vec::new()));
}

use rockdown::terminal::{
    csi_reply, escape_reply, key_bytes, paste_bytes, pty_size, text_key_bytes, InputError, InputQueue,
    OscFilter, TerminalSizeError, INPUT_LIMIT, REPLY_RESERVE,
};

#[test]
fn control_alt_and_application_keys_preserve_terminal_protocol() {
    assert_eq!(key_bytes("c", true, false, false), Some(vec![3]));
    assert_eq!(key_bytes("[", true, false, false), Some(vec![27]));
    assert_eq!(key_bytes("space", true, true, false), Some(vec![27, 0]));
    assert_eq!(
        key_bytes("é", false, true, false),
        Some(b"\x1b\xc3\xa9".to_vec())
    );
    assert_eq!(
        key_bytes("e\u{301}", false, false, false),
        Some("e\u{301}".as_bytes().to_vec())
    );
    assert_eq!(
        key_bytes("up", false, false, true),
        Some(b"\x1bOA".to_vec())
    );
    assert_eq!(
        key_bytes("left", true, false, true),
        Some(b"\x1b[1;5D".to_vec())
    );
    assert_eq!(key_bytes("shift", false, false, false), None);
}

struct Responses {
    pending: Vec<u8>,
}

impl vt100::Callbacks for Responses {
    fn unhandled_csi(
        &mut self,
        screen: &mut vt100::Screen,
        intermediate: Option<u8>,
        second: Option<u8>,
        params: &[&[u16]],
        command: char,
    ) {
        let reply = csi_reply(
            intermediate,
            second,
            params,
            command,
            screen.cursor_position(),
            screen.size(),
        );
        self.pending.extend_from_slice(&reply);
    }

    fn unhandled_escape(
        &mut self,
        _: &mut vt100::Screen,
        first: Option<u8>,
        second: Option<u8>,
        byte: u8,
    ) {
        self.pending.extend_from_slice(&escape_reply(first, second, byte));
    }
}

#[test]
fn split_queries_reply_at_the_cursor_when_received() {
    let mut parser =
        vt100::Parser::new_with_callbacks(24, 80, 0, Responses { pending: Vec::new() });
    parser.process(b"\x1b[4;9H\x1b[");
    parser.process(b"6n\x1b[2;3H\x1b[?6n\x1b[5n");
    assert_eq!(parser.callbacks().pending, b"\x1b[4;9R\x1b[?2;3R\x1b[0n");
}

#[test]
fn terminal_named_keys_and_controls_encode_exactly() {
    assert_eq!(key_bytes("enter", false, false, false), Some(b"\r".to_vec()));
    assert_eq!(key_bytes("return", false, true, false), Some(b"\x1b\r".to_vec()));
    assert_eq!(key_bytes("backspace", true, false, false), Some(vec![8]));
    assert_eq!(key_bytes("backspace", false, false, false), Some(vec![0x7f]));
    assert_eq!(key_bytes("delete", true, false, false), Some(b"\x1b[3;5~".to_vec()));
    assert_eq!(key_bytes("f12", false, false, false), Some(b"\x1b[24~".to_vec()));
    assert_eq!(key_bytes("home", false, false, false), Some(b"\x1b[H".to_vec()));
    assert_eq!(key_bytes("8", true, false, false), Some(vec![0x7f]));
    assert_eq!(key_bytes("A", true, false, false), Some(vec![1]));
    assert_eq!(key_bytes("é", true, false, false), None);
    assert_eq!(key_bytes("!", true, false, false), None);
    assert_eq!(key_bytes("", false, false, false), None);
    assert_eq!(key_bytes("ab", false, false, false), None);
    // The grapheme count decides; a count other than one sends nothing.
    assert_eq!(text_key_bytes("x", 1, false, false), Some(b"x".to_vec()));
    assert_eq!(text_key_bytes("x", 2, false, false), None);
}

#[test]
fn terminal_replies_cover_status_attributes_and_size() {
    assert_eq!(csi_reply(None, None, &[&[5]], 'n', (0, 0), (24, 80)), b"\x1b[0n");
    assert_eq!(csi_reply(None, None, &[], 'c', (0, 0), (24, 80)), b"\x1b[?1;2c");
    assert_eq!(
        csi_reply(Some(b'>'), None, &[], 'c', (0, 0), (24, 80)),
        b"\x1b[>0;1;0c"
    );
    assert_eq!(
        csi_reply(None, None, &[&[18]], 't', (0, 0), (24, 80)),
        b"\x1b[8;24;80t"
    );
    assert_eq!(
        csi_reply(None, None, &[&[6]], 'n', (9, 119), (24, 80)),
        b"\x1b[10;120R"
    );
    assert!(csi_reply(None, None, &[&[6], &[1]], 'n', (0, 0), (24, 80)).is_empty());
    assert!(csi_reply(None, Some(b'$'), &[&[6]], 'n', (0, 0), (24, 80)).is_empty());
    assert_eq!(escape_reply(None, None, b'Z'), b"\x1b[?1;2c");
    assert!(escape_reply(Some(b'#'), None, b'Z').is_empty());
}

#[test]
fn terminal_sizes_must_be_nonzero_and_bounded() {
    assert_eq!(pty_size(24, 80), Ok((24, 80)));
    assert_eq!(pty_size(0, 80), Err(TerminalSizeError::Empty));
    assert_eq!(pty_size(1024, 1024), Ok((1024, 1024)));
    assert_eq!(pty_size(1024, 1025), Err(TerminalSizeError::TooLarge));
}

#[test]
fn oversized_osc_strings_are_cancelled_and_dropped() {
    let mut filter = OscFilter::new();
    assert_eq!(filter.filter(b"plain text"), vec![b"plain text".to_vec()]);
    let mut input = b"a\x1b]".to_vec();
    input.extend(std::iter::repeat(b'x').take(16385));
    input.extend_from_slice(b"\x07b");
    let chunks = filter.filter(&input);
    let mut expected_first = b"a\x1b]".to_vec();
    expected_first.extend(std::iter::repeat(b'x').take(16384));
    assert_eq!(chunks, vec![expected_first, vec![0x18], b"b".to_vec()]);
    assert!(filter.osc_len.is_none() && !filter.dropping_osc);
}

#[test]
fn input_queue_keeps_order_across_sends_replies_and_writes() {
    let mut queue = InputQueue::new();
    assert_eq!(queue.send(b"abc"), Ok(()));
    queue.reply(b"\x1b[0n");
    assert_eq!(queue.next_chunk(2), b"ab".to_vec());
    queue.written(2);
    assert_eq!(queue.next_chunk(100), b"c\x1b[0n".to_vec());
    assert_eq!(queue.send(b"de"), Ok(()));
    assert_eq!(queue.offset, 0);
    assert_eq!(queue.next_chunk(100), b"c\x1b[0nde".to_vec());
    queue.written(7);
    assert!(queue.pending.is_empty());
    assert_eq!(queue.offset, 0);
    assert!(queue.next_chunk(10).is_empty());
}

#[test]
fn input_queue_refuses_whole_paste_when_full() {
    let mut queue = InputQueue::new();
    let big = vec![b'x'; INPUT_LIMIT - 1];
    assert_eq!(queue.send(&big), Ok(()));
    assert_eq!(queue.send(b"yz"), Err(InputError::QueueFull));
    assert_eq!(queue.pending.len(), INPUT_LIMIT - 1);
    assert_eq!(queue.send(b"y"), Ok(()));
    assert_eq!(queue.pending.len(), INPUT_LIMIT);
    queue.written(10);
    assert_eq!(queue.send(&vec![b'z'; 10]), Ok(()));
    assert_eq!(queue.pending.len(), INPUT_LIMIT);
    assert_eq!(queue.send(b"!"), Err(InputError::QueueFull));
}

#[test]
fn output_is_parsed_only_while_replies_fit() {
    let mut queue = InputQueue::new();
    assert!(queue.accepts_output());
    let fill = vec![0u8; INPUT_LIMIT - REPLY_RESERVE];
    assert_eq!(queue.send(&fill), Ok(()));
    assert!(queue.accepts_output());
    queue.reply(b"\x1b[1;1R");
    assert!(!queue.accepts_output());
    queue.clear();
    assert!(queue.pending.is_empty());
    assert!(queue.accepts_output());
}

#[test]
fn pastes_are_bracketed_only_when_asked() {
    assert_eq!(paste_bytes("hi é", true), b"\x1b[200~hi \xc3\xa9\x1b[201~".to_vec());
    assert_eq!(paste_bytes("hi é", false), "hi é".as_bytes().to_vec());
    assert_eq!(paste_bytes("", true), b"\x1b[200~\x1b[201~".to_vec());
}

#[test]
fn control_space_sends_nul_and_unknown_names_send_nothing() {
    assert_eq!(key_bytes("space", true, false, false), Some(vec![0]));
    assert_eq!(key_bytes("space", false, false, false), Some(b" ".to_vec()));
    assert_eq!(key_bytes("/", true, false, false), Some(vec![0x1f]));
    assert_eq!(key_bytes("f13", false, false, false), None);
    assert_eq!(key_bytes("", true, true, false), None);
}

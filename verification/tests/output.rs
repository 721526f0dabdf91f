use specific::output::{Output, PollEvent, MAX_LINE_BYTES, MAX_LINES};

fn lines(output: &Output) -> Vec<String> {
    output.lines.iter().cloned().collect()
}

#[test]
fn escape_sequences_survive_every_chunk_boundary() {
    let mut output = Output::default();
    for byte in b"\x1b[31mred\x1b[0m\x1b]title\x1b\\!\xc2\x9b32mgreen\xc2\x9b0m" {
        output.decode(&[*byte], false);
    }
    output.decode(&[], true);
    assert_eq!(lines(&output), ["red!green"]);
}

#[test]
fn sanitizes_terminal_sequences_and_progress() {
    let mut output = Output::default();
    output.decode(
        b"\x1b[31mred\x1b[0m\x1b]0;hidden\x07!\x1b]8;;url\x1b\\link\x1b]8;;\x1b\\\nold progress\rnew\r\n\x01a\tbX\x08!\x1bPsecret\x1b\\",
        false,
    );
    output.finish();
    assert_eq!(lines(&output), ["red!link", "new", "a    b!"]);
    assert!(
        output.lines.iter().all(|line| !line.chars().any(char::is_control)),
        "terminal controls escaped sanitization"
    );
}

#[test]
fn partial_output_and_split_unicode_are_live() {
    let mut output = Output::default();
    output.decode(b"partial\xe2", false);
    assert_eq!(lines(&output), ["partial"]);
    output.decode(b"\x82\xac\xff\xe2", false);
    output.finish();
    assert_eq!(lines(&output), ["partial\u{20ac}\u{fffd}\u{fffd}"]);
}

#[test]
fn bounds_huge_lines_and_scrollback() {
    let mut output = Output::default();
    output.decode(&vec![b'0'; 100000], false);
    output.finish();
    assert_eq!(output.lines.len(), 1);
    assert_eq!(output.lines[0].len(), MAX_LINE_BYTES);
    let mut output = Output::default();
    for i in 0..1500 {
        output.decode(format!("{i:09000}\n").as_bytes(), false);
    }
    output.decode(b"end", false);
    output.finish();
    assert_eq!(output.lines.len(), MAX_LINES);
    assert!(output.lines.iter().all(|line| line.len() <= MAX_LINE_BYTES), "single line exceeded its byte bound");
    assert_eq!(output.lines.back().map(String::as_str), Some("end"));
}

#[test]
fn combined_streams_and_exit_status() {
    let mut output = Output::default();
    assert_eq!(output.status, "Idle");
    output.running();
    assert_eq!(output.status, "Running");
    output.decode(b"out\nerr\n", false);
    output.finish();
    output.exited("exit status: 7");
    assert_eq!(lines(&output), ["out", "err", ""]);
    assert_eq!(output.status, "Exited: exit status: 7");
}

#[test]
fn statuses_report_errors() {
    let mut output = Output::default();
    output.output_error("broken pipe");
    assert_eq!(output.status, "Output error: broken pipe");
    assert!(output.wait_error("no child"));
    assert!(!output.wait_error("no child"));
    assert_eq!(output.status, "Wait error: no child");
}

#[test]
fn carriage_return_and_backspace_edit_the_line() {
    let mut output = Output::default();
    output.decode(b"abc\x08\x08d\rxy\r", false);
    output.finish();
    assert_eq!(lines(&output), ["xy"]);
    output.decode(b"\rz", false);
    assert_eq!(lines(&output), ["z"]);
}

#[test]
fn shell_exit_cleans_up_background_pipe_holders() {
    let mut output = Output::default();
    output.running();
    output.decode(b"finished", false);
    output.finish();
    output.exited("exit status: 0");
    assert_eq!(lines(&output), ["finished"]);
    assert_eq!(output.status, "Exited: exit status: 0");
}

#[test]
fn reused_command_can_start_a_new_session() {
    for _ in 0..2 {
        let mut output = Output::default();
        output.decode(b"reused", false);
        output.finish();
        assert_eq!(lines(&output), ["reused"]);
    }
}

#[test]
fn valid_output_split_anywhere_reads_as_whole() {
    let whole: &[u8] = "a\u{20ac}\x1b[1mb\u{1f600}\tc\r\nd\u{e9}\x1b]t\x07e\n".as_bytes();
    let mut expected = Output::default();
    expected.decode(whole, false);
    expected.finish();
    for k in 0..=whole.len() {
        let mut output = Output::default();
        output.decode(&whole[..k], false);
        output.decode(&whole[k..], false);
        output.finish();
        assert_eq!(lines(&output), lines(&expected), "split at {k}");
        assert_eq!(output.escape, expected.escape);
        assert_eq!(output.carriage_return, expected.carriage_return);
    }
    assert_eq!(lines(&expected), ["a\u{20ac}b\u{1f600}    c", "d\u{e9}e", ""]);
}

#[test]
fn poll_events_update_output_and_status() {
    let mut output = Output::default();
    assert!(output.poll_event(PollEvent::Chunk(b"a\xe2\x82".to_vec())));
    assert_eq!(lines(&output), ["a"]);
    assert!(output.poll_event(PollEvent::ReadError("broken".to_string())));
    assert_eq!(output.status, "Output error: broken");
    assert!(output.poll_event(PollEvent::Disconnected));
    assert_eq!(lines(&output), ["a\u{fffd}"]);
    assert!(output.poll_event(PollEvent::WaitError("lost".to_string())));
    assert!(!output.poll_event(PollEvent::WaitError("lost".to_string())));
    assert!(output.poll_event(PollEvent::Exited("exit status: 0".to_string())));
    assert_eq!(output.status, "Exited: exit status: 0");
}

#[test]
fn any_output_split_anywhere_reads_as_whole() {
    let whole: &[u8] = b"a\xe2\x82\xac\xff\xe2\x82x\xf0\x9f\x98\xed\xa0\x80\xc0\xaf\x1b[1mb\xe0\x80\xf4\x90\x80\x80c\xe2";
    for eof in [false, true] {
        let mut expected = Output::default();
        expected.decode(whole, eof);
        for k in 0..=whole.len() {
            let mut output = Output::default();
            output.decode(&whole[..k], false);
            output.decode(&whole[k..], eof);
            assert_eq!(lines(&output), lines(&expected), "split at {k}");
            assert_eq!(output.utf8, expected.utf8);
            assert_eq!(output.escape, expected.escape);
            assert_eq!(output.carriage_return, expected.carriage_return);
        }
    }
    let mut output = Output::default();
    output.decode(whole, true);
    assert_eq!(
        lines(&output),
        ["a\u{20ac}\u{fffd}\u{fffd}x\u{fffd}\u{fffd}\u{fffd}\u{fffd}\u{fffd}\u{fffd}b\u{fffd}\u{fffd}\u{fffd}\u{fffd}\u{fffd}\u{fffd}c\u{fffd}"]
    );
}

use bract::clipboard::{base64_encode, copy_outcome, osc52_sequence, CopyOutcome};

#[test]
fn base64_matches_known_vectors() {
    let cases = [
        ("", ""),
        ("f", "Zg=="),
        ("fo", "Zm8="),
        ("foo", "Zm9v"),
        ("foob", "Zm9vYg=="),
        ("fooba", "Zm9vYmE="),
        ("foobar", "Zm9vYmFy"),
    ];
    for (input, expected) in cases {
        assert_eq!(base64_encode(input.as_bytes()), expected, "base64({input:?})");
    }
}

#[test]
fn plain_sequence_wraps_clipboard_payload() {
    let seq = osc52_sequence("foobar", false);
    assert_eq!(seq, "\x1b]52;c;Zm9vYmFy\x07");
}

#[test]
fn tmux_sequence_uses_passthrough_with_doubled_escapes() {
    let seq = osc52_sequence("foobar", true);
    assert_eq!(seq, "\x1bPtmux;\x1b\x1b]52;c;Zm9vYmFy\x07\x1b\\");
}

#[test]
fn payload_encodes_the_exact_command() {
    let cmd = "kubectl create deployment web --image=nginx";
    let seq = osc52_sequence(cmd, false);
    let expected = format!("\x1b]52;c;{}\x07", base64_encode(cmd.as_bytes()));
    assert_eq!(seq, expected);
}

#[test]
fn base64_uses_the_whole_alphabet() {
    assert_eq!(base64_encode(&[0xfb, 0xff, 0xbf]), "+/+/");
    assert_eq!(base64_encode(&[0, 0, 0]), "AAAA");
    assert_eq!(base64_encode("é".as_bytes()), "w6k=");
}

#[test]
fn base64_output_length_is_four_per_started_group() {
    for n in 0..10usize {
        let input = vec![7u8; n];
        assert_eq!(base64_encode(&input).len(), 4 * n.div_ceil(3));
    }
}

#[test]
fn base64_concatenates_on_group_boundaries() {
    let a = base64_encode(b"foo");
    let b = base64_encode(b"bar!");
    assert_eq!(base64_encode(b"foobar!"), format!("{a}{b}"));
}

#[test]
fn outcome_reflects_what_was_confirmed() {
    assert!(matches!(copy_outcome(false, true), CopyOutcome::Disabled));
    assert!(matches!(copy_outcome(true, true), CopyOutcome::Confirmed));
    assert!(matches!(copy_outcome(true, false), CopyOutcome::BestEffort));
}

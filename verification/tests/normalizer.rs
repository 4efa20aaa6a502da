use tonetheus::utils::decolorize;

#[test]
fn plain_line_unchanged() {
    let line = "Network name: mainnet";
    assert_eq!(decolorize(line), line);
}

#[test]
fn empty_line_unchanged() {
    assert_eq!(decolorize(""), "");
}

#[test]
fn color_codes_removed() {
    assert_eq!(decolorize("\x1b[31mHello\x1b[0m"), "Hello");
}

#[test]
fn multi_parameter_code_removed() {
    assert_eq!(decolorize("\x1b[1;32mok\x1b[0m done"), "ok done");
}

#[test]
fn normalizing_twice_equals_once() {
    let raw = "\x1b[31mHello\x1b[0m world";
    let once = decolorize(raw);
    let twice = decolorize(&once);
    assert_eq!(twice, once);
}

#[test]
fn truncated_sequence_kept() {
    assert_eq!(decolorize("\x1b[12"), "\x1b[12");
}

#[test]
fn lone_escape_kept() {
    assert_eq!(decolorize("\x1bA"), "\x1bA");
}

#[test]
fn escape_without_bracket_kept_while_complete_sequence_removed() {
    assert_eq!(decolorize("a\x1bb\x1b[31mc"), "a\x1bbc");
}

#[test]
fn kept_fragments_can_assemble_into_a_new_sequence() {
    // the first escape is a fragment and passes through; removing the
    // complete sequence after it places it before "[0m", so a second
    // normalization would strip what the first left behind
    let once = decolorize("\x1b\x1b[31m[0m");
    assert_eq!(once, "\x1b[0m");
    assert_eq!(decolorize(&once), "");
}

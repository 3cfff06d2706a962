use contour::pathdata::{is_command, path_tokens, PathToken};

#[test]
fn path_tokens_split_commands_and_numbers() {
    let toks = path_tokens("M10,20 L 30 40z".as_bytes());
    assert_eq!(
        toks,
        vec![
            PathToken::Command(b'M'),
            PathToken::Number(1, 3),
            PathToken::Number(4, 6),
            PathToken::Command(b'L'),
            PathToken::Number(9, 11),
            PathToken::Number(12, 14),
            PathToken::Command(b'z'),
        ]
    );
}

#[test]
fn path_tokens_keep_signs_and_exponents_in_one_number() {
    let toks = path_tokens("c-1.5e-3+2\t,\n7".as_bytes());
    assert_eq!(
        toks,
        vec![PathToken::Command(b'c'), PathToken::Number(1, 10), PathToken::Number(13, 14)]
    );
}

#[test]
fn path_tokens_mark_other_bytes() {
    let toks = path_tokens("M 1 X2 H".as_bytes());
    assert_eq!(
        toks,
        vec![
            PathToken::Command(b'M'),
            PathToken::Number(2, 3),
            PathToken::Other(4),
            PathToken::Number(5, 6),
            PathToken::Other(7),
        ]
    );
}

#[test]
fn path_tokens_of_separators_only_are_empty() {
    assert_eq!(path_tokens(" ,\t\n".as_bytes()), Vec::<PathToken>::new());
    assert_eq!(path_tokens(b""), Vec::<PathToken>::new());
}

#[test]
fn command_letters_are_the_known_eight() {
    for c in [b'M', b'm', b'L', b'l', b'C', b'c', b'Z', b'z'] {
        assert!(is_command(c));
    }
    for c in [b'H', b'A', b'e', b'1', b' '] {
        assert!(!is_command(c));
    }
}

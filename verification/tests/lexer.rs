use jojolisp::Lexer;
use jojolisp::Status;
use jojolisp::Token;

/// Read every token up to (excluding) end-of-stream, and the final state.
fn drain(src: &[u8]) -> (Vec<Token<'_>>, Status) {
    let mut lx = Lexer::new(src);
    let mut out: Vec<Token<'_>> = Vec::new();
    loop {
        let t = *lx.token();
        if matches!(t, Token::End) {
            return (out, lx.status());
        }
        out.push(t);
        lx.advance();
    }
}

#[test]
fn check_lexer() {
    assert!(matches!(*Lexer::new(b"").token(), Token::End));
    assert!(matches!(
        *Lexer::new(b"r#### {} [] 123 ### ####").token(),
        Token::ReaderEscape(_, _)
    ));
}

#[test]
fn round_trip_fence_of_four() {
    // The inner run of 3 marker characters must not close the fence of 4;
    // the separator byte after the opening fence is consumed and is not
    // part of the content.
    let mut lx = Lexer::new(b"r#### {} [] 123 ### ####");
    assert_eq!(
        *lx.token(),
        Token::ReaderEscape(&b"r"[..], &b"{} [] 123 ### "[..])
    );
    lx.advance();
    assert_eq!(*lx.token(), Token::End);
    assert_eq!(lx.status(), Status::CleanEnd);
}

#[test]
fn empty_input_is_end_forever() {
    let mut lx = Lexer::new(b"");
    assert_eq!(*lx.token(), Token::End);
    assert_eq!(lx.status(), Status::CleanEnd);
    for _ in 0..3 {
        lx.advance();
        assert_eq!(*lx.token(), Token::End);
        assert_eq!(lx.status(), Status::CleanEnd);
    }
}

#[test]
fn passthrough_without_escapes() {
    let (toks, st) = drain(b"( foo \"a\\nb\" -12xy { [ ] } ) +7");
    assert_eq!(st, Status::CleanEnd);
    assert_eq!(
        toks,
        vec![
            Token::ParensOpen,
            Token::Symbol(&b"foo"[..]),
            Token::LiteralString(&b"\"a\\nb\""[..]),
            Token::LiteralInteger(&b"-12xy"[..]),
            Token::RecordOpen,
            Token::ArrayOpen,
            Token::ArrayClose,
            Token::RecordClose,
            Token::ParensClose,
            Token::LiteralInteger(&b"+7"[..]),
        ]
    );
}

#[test]
fn adjacent_delimiters() {
    let (toks, st) = drain(b"({[]})");
    assert_eq!(st, Status::CleanEnd);
    assert_eq!(
        toks,
        vec![
            Token::ParensOpen,
            Token::RecordOpen,
            Token::ArrayOpen,
            Token::ArrayClose,
            Token::RecordClose,
            Token::ParensClose,
        ]
    );
}

#[test]
fn long_run_closes_at_first_prefix() {
    // A fence of 2 closes at the first 2 characters of a run of 4, not at
    // the run's end.
    let mut lx = Lexer::new(b"r## a ####");
    assert_eq!(*lx.token(), Token::ReaderEscape(&b"r"[..], &b"a "[..]));
    lx.advance();
    // What remains after the close is the tail of the marker run, which no
    // lexical rule matches.
    assert_eq!(*lx.token(), Token::End);
    assert_eq!(lx.status(), Status::NoMatch(8));
}

#[test]
fn short_run_does_not_close() {
    let mut lx = Lexer::new(b"r### a ## b");
    assert_eq!(*lx.token(), Token::End);
    assert_eq!(lx.status(), Status::UnterminatedEscape);
}

#[test]
fn retokenizing_is_identical() {
    let src = b"x# a # ( \"s\" 1 ) y## b ##";
    let (t1, s1) = drain(src);
    let (t2, s2) = drain(src);
    assert_eq!(t1, t2);
    assert_eq!(s1, s2);
}

#[test]
fn unterminated_escape_is_stable() {
    let mut lx = Lexer::new(b"q## no close");
    assert_eq!(*lx.token(), Token::End);
    assert_eq!(lx.status(), Status::UnterminatedEscape);
    lx.advance();
    assert_eq!(*lx.token(), Token::End);
    assert_eq!(lx.status(), Status::UnterminatedEscape);
}

#[test]
fn escape_at_end_of_input_is_unterminated() {
    let lx = Lexer::new(b"r##");
    assert_eq!(lx.status(), Status::UnterminatedEscape);
    let lx2 = Lexer::new(b"r## ");
    assert_eq!(lx2.status(), Status::UnterminatedEscape);
}

#[test]
fn tokens_after_escapes_slice_the_original() {
    let (toks, st) = drain(b"a# p # b## q ## ( 1 )");
    assert_eq!(st, Status::CleanEnd);
    assert_eq!(
        toks,
        vec![
            Token::ReaderEscape(&b"a"[..], &b"p "[..]),
            Token::ReaderEscape(&b"b"[..], &b"q "[..]),
            Token::ParensOpen,
            Token::LiteralInteger(&b"1"[..]),
            Token::ParensClose,
        ]
    );
}

#[test]
fn zero_length_content() {
    let mut lx = Lexer::new(b"r## ##");
    assert_eq!(*lx.token(), Token::ReaderEscape(&b"r"[..], &b""[..]));
    lx.advance();
    assert_eq!(*lx.token(), Token::End);
    assert_eq!(lx.status(), Status::CleanEnd);
}

#[test]
fn unmatchable_position_is_surfaced() {
    let mut lx = Lexer::new(b"( @");
    assert_eq!(*lx.token(), Token::ParensOpen);
    lx.advance();
    assert_eq!(*lx.token(), Token::End);
    assert_eq!(lx.status(), Status::NoMatch(2));
    lx.advance();
    assert_eq!(*lx.token(), Token::End);
    assert_eq!(lx.status(), Status::NoMatch(2));
}

#[test]
fn bad_string_escape_is_no_match() {
    let lx = Lexer::new(b"\"a\\zb\"");
    assert_eq!(lx.status(), Status::NoMatch(0));
    let lx2 = Lexer::new(b"\"abc");
    assert_eq!(lx2.status(), Status::NoMatch(0));
}

#[test]
fn string_escapes_slice_verbatim() {
    let (toks, st) = drain(b"\"t\\tu\\0xAB\\12\\\"q\"");
    assert_eq!(st, Status::CleanEnd);
    assert_eq!(toks, vec![Token::LiteralString(&b"\"t\\tu\\0xAB\\12\\\"q\""[..])]);
}

#[test]
fn symbol_beats_shorter_escape_opener() {
    let (toks, st) = drain(b"ab##x");
    assert_eq!(toks, vec![Token::Symbol(&b"ab##x"[..])]);
    assert_eq!(st, Status::CleanEnd);
}

#[test]
fn escape_opener_beats_symbol_on_tie() {
    // "ab##" matches the symbol rule and the escape-opener rule with the
    // same length; the escape opener wins, and with nothing after the
    // fence the escape is unterminated.
    let lx = Lexer::new(b"ab##");
    assert_eq!(lx.status(), Status::UnterminatedEscape);
}

#[test]
fn digit_led_escape_opener() {
    let mut lx = Lexer::new(b"12## ##");
    assert_eq!(*lx.token(), Token::ReaderEscape(&b"12"[..], &b""[..]));
    lx.advance();
    assert_eq!(lx.status(), Status::CleanEnd);
}

#[test]
fn integer_literal_forms() {
    let (toks, st) = drain(b"0 -5 +5 123kg-h_z");
    assert_eq!(st, Status::CleanEnd);
    assert_eq!(
        toks,
        vec![
            Token::LiteralInteger(&b"0"[..]),
            Token::LiteralInteger(&b"-5"[..]),
            Token::LiteralInteger(&b"+5"[..]),
            Token::LiteralInteger(&b"123kg-h_z"[..]),
        ]
    );
}

#[test]
fn symbol_absorbs_nonspace() {
    // A symbol runs to the next whitespace, delimiters included.
    let (toks, st) = drain(b"foo(bar baz");
    assert_eq!(st, Status::CleanEnd);
    assert_eq!(
        toks,
        vec![Token::Symbol(&b"foo(bar"[..]), Token::Symbol(&b"baz"[..])]
    );
}

#[test]
fn whitespace_forms_are_skipped() {
    let (toks, st) = drain(b" \t\n\r ( \x0b\x0c )");
    assert_eq!(st, Status::CleanEnd);
    assert_eq!(toks, vec![Token::ParensOpen, Token::ParensClose]);
}

#[test]
fn bare_sign_matches_nothing() {
    let lx = Lexer::new(b"-");
    assert_eq!(lx.status(), Status::NoMatch(0));
}

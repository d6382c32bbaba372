use codecrafters_shell::command::{assemble, tokenize, CommandParser, CommandParts, Token};

fn words(items: &[&str]) -> Vec<String> {
    items.iter().map(|s| s.to_string()).collect()
}

fn redirect(path: &str, append: bool) -> Option<(String, bool)> {
    Some((path.to_string(), append))
}

#[test]
fn parse_output_redirect() {
    let cmd = CommandParser::parse("echo hello > output.txt");
    assert_eq!(cmd.command, "echo");
    assert_eq!(cmd.args, words(&["hello"]));
    assert_eq!(cmd.output_redirect, redirect("output.txt", false));
    assert_eq!(cmd.error_redirect, None);
}

#[test]
fn parse_single_and_double_quotes() {
    let cmd = CommandParser::parse("echo 'a b' \"c\\\"d\"");
    assert_eq!(cmd.command, "echo");
    assert_eq!(cmd.args, words(&["a b", "c\"d"]));
}

#[test]
fn parse_appending_error_redirect() {
    let cmd = CommandParser::parse("cmd 2>> err.log");
    assert_eq!(cmd.command, "cmd");
    assert!(cmd.args.is_empty());
    assert_eq!(cmd.error_redirect, redirect("err.log", true));
    assert_eq!(cmd.output_redirect, None);
}

#[test]
fn parse_empty_line() {
    let cmd = CommandParser::parse("");
    assert_eq!(cmd.command, "");
    assert!(cmd.args.is_empty());
    let blank = CommandParser::parse(" \t  ");
    assert_eq!(blank.command, "");
    assert!(blank.args.is_empty());
}

#[test]
fn backslash_outside_quotes_keeps_next_character() {
    let cmd = CommandParser::parse("echo a\\nb \\'x\\ y");
    assert_eq!(cmd.args, words(&["anb", "'x y"]));
}

#[test]
fn trailing_backslash_is_dropped() {
    let cmd = CommandParser::parse("echo ab\\");
    assert_eq!(cmd.args, words(&["ab"]));
}

#[test]
fn single_quotes_take_backslash_literally() {
    let cmd = CommandParser::parse("echo 'a\\' b");
    assert_eq!(cmd.args, words(&["a\\", "b"]));
}

#[test]
fn double_quotes_escape_only_quote_and_backslash() {
    let cmd = CommandParser::parse("echo \"a\\$b\" \"x\\\\y\" \"it's\"");
    assert_eq!(cmd.args, words(&["a\\$b", "x\\y", "it's"]));
}

#[test]
fn quotes_join_into_one_word() {
    let cmd = CommandParser::parse("echo a\"b c\"'d e'f");
    assert_eq!(cmd.args, words(&["ab cd ef"]));
}

#[test]
fn unterminated_quote_ends_the_word() {
    let cmd = CommandParser::parse("echo 'abc def");
    assert_eq!(cmd.args, words(&["abc def"]));
    let dq = CommandParser::parse("echo \"x y\\");
    assert_eq!(dq.args, words(&["x y\\"]));
}

#[test]
fn empty_quotes_make_no_word() {
    let cmd = CommandParser::parse("echo '' \"\" a");
    assert_eq!(cmd.args, words(&["a"]));
}

#[test]
fn explicit_stdout_redirects() {
    let a = CommandParser::parse("ls 1> out");
    assert_eq!(a.output_redirect, redirect("out", false));
    let b = CommandParser::parse("ls 1>> out");
    assert_eq!(b.output_redirect, redirect("out", true));
    let c = CommandParser::parse("ls >> out");
    assert_eq!(c.output_redirect, redirect("out", true));
    let d = CommandParser::parse("ls 2> err");
    assert_eq!(d.error_redirect, redirect("err", false));
    assert_eq!(d.output_redirect, None);
}

#[test]
fn digits_without_redirect_are_words() {
    let cmd = CommandParser::parse("echo 1 2 12 2024");
    assert_eq!(cmd.args, words(&["1", "2", "12", "2024"]));
}

#[test]
fn operators_end_words() {
    let cmd = CommandParser::parse("echo hi>out");
    assert_eq!(cmd.args, words(&["hi"]));
    assert_eq!(cmd.output_redirect, redirect("out", false));
    let quoted = CommandParser::parse("echo 'hi>out'");
    assert_eq!(quoted.args, words(&["hi>out"]));
    assert_eq!(quoted.output_redirect, None);
}

#[test]
fn later_redirect_wins() {
    let cmd = CommandParser::parse("echo a > first > second");
    assert_eq!(cmd.args, words(&["a"]));
    assert_eq!(cmd.output_redirect, redirect("second", false));
}

#[test]
fn redirect_without_target_is_dropped() {
    let cmd = CommandParser::parse("echo a >");
    assert_eq!(cmd.args, words(&["a"]));
    assert_eq!(cmd.output_redirect, None);
}

#[test]
fn redirect_followed_by_operator_drops_both() {
    let cmd = CommandParser::parse("echo a > | b");
    assert_eq!(cmd.args, words(&["a", "b"]));
    assert_eq!(cmd.output_redirect, None);
}

#[test]
fn pipe_and_background_are_skipped() {
    let cmd = CommandParser::parse("ls | wc &");
    assert_eq!(cmd.command, "ls");
    assert_eq!(cmd.args, words(&["wc"]));
}

#[test]
fn tokenize_operators() {
    let tokens = tokenize("a|b & c >> d 2> e 1> f");
    assert_eq!(
        tokens,
        vec![
            Token::Word("a".to_string()),
            Token::Pipe,
            Token::Word("b".to_string()),
            Token::Background,
            Token::Word("c".to_string()),
            Token::OutputRedirect(true),
            Token::Word("d".to_string()),
            Token::ErrorRedirect(false),
            Token::Word("e".to_string()),
            Token::OutputRedirect(false),
            Token::Word("f".to_string()),
        ]
    );
}

#[test]
fn assemble_first_word_is_command() {
    let tokens = vec![
        Token::ErrorRedirect(true),
        Token::Word("log".to_string()),
        Token::Word("run".to_string()),
        Token::Word("x".to_string()),
    ];
    let cmd = assemble(&tokens);
    assert_eq!(cmd.command, "run");
    assert_eq!(cmd.args, words(&["x"]));
    assert_eq!(cmd.error_redirect, redirect("log", true));
}

#[test]
fn canonical_line_escapes_special_characters() {
    let cmd = CommandParser::parse("echo 'a b' \"c\\\"d\" 2>> 'my log'");
    assert_eq!(cmd.to_command_line(), "echo a\\ b c\\\"d 2>> my\\ log");
    let plain = CommandParser::parse("echo hello > output.txt");
    assert_eq!(plain.to_command_line(), "echo hello > output.txt");
    assert_eq!(CommandParser::parse("").to_command_line(), "");
}

#[test]
fn canonical_line_parses_back_to_same_command() {
    let lines = [
        "echo hello > output.txt",
        "echo 'a b' \"c\\\"d\"",
        "cmd 2>> err.log",
        "ls -l 1>> 'out file' 2> \"e|r&r\"",
        "echo 1 2 '1>x' \\\\ \"'\"",
        "> only.txt",
        "echo 'unterminated",
        "a|b&c",
        "",
    ];
    for line in lines.iter() {
        let first = CommandParser::parse(line);
        let again: CommandParts = CommandParser::parse(&first.to_command_line());
        assert_eq!(again, first, "line {:?}", line);
    }
}

use znsh::parser::ParseError;
use znsh::shell::command_for_line;
use znsh::shell::interpret;
use znsh::shell::join_with_spaces;
use znsh::shell::Command;

fn strings(words: &[&str]) -> Vec<String> {
    words.iter().map(|w| w.to_string()).collect()
}

#[test]
fn exit_commands() {
    assert_eq!(command_for_line("exit"), Ok(Command::Exit));
    assert_eq!(command_for_line("  q "), Ok(Command::Exit));
    assert_eq!(command_for_line("quit now"), Ok(Command::Exit));
}

#[test]
fn cd_commands() {
    assert_eq!(command_for_line("cd"), Ok(Command::ChangeDir(None)));
    assert_eq!(
        command_for_line("cd '/tmp/a b'"),
        Ok(Command::ChangeDir(Some("/tmp/a b".to_string())))
    );
    assert_eq!(command_for_line("cd a b"), Ok(Command::TooManyCdArguments));
}

#[test]
fn echo_joins_its_arguments_with_spaces() {
    assert_eq!(
        command_for_line("echo  a   'b  c'  d"),
        Ok(Command::Echo("a b  c d".to_string()))
    );
    assert_eq!(command_for_line("echo"), Ok(Command::Echo(String::new())));
}

#[test]
fn other_words_run_a_program() {
    assert_eq!(
        command_for_line("ls -l | wc"),
        Ok(Command::Run("ls".to_string(), strings(&["-l", "|", "wc"])))
    );
    assert_eq!(
        command_for_line("cls"),
        Ok(Command::Run("clear".to_string(), vec![]))
    );
    assert_eq!(
        command_for_line("cls -x"),
        Ok(Command::Run("clear".to_string(), strings(&["-x"])))
    );
}

#[test]
fn blank_lines_do_nothing() {
    assert_eq!(command_for_line(""), Ok(Command::Nothing));
    assert_eq!(command_for_line(" \t "), Ok(Command::Nothing));
    assert_eq!(command_for_line("''"), Ok(Command::Run(String::new(), vec![])));
}

#[test]
fn line_is_trimmed_before_it_is_read() {
    assert_eq!(command_for_line("echo a\\ "), Err(ParseError::BackslashAtEnd));
    assert_eq!(command_for_line("echo 'a"), Err(ParseError::UnclosedSingleQuote));
}

#[test]
fn interpret_words() {
    assert_eq!(interpret(&vec![]), Command::Nothing);
    assert_eq!(
        interpret(&strings(&["cat", "x"])),
        Command::Run("cat".to_string(), strings(&["x"]))
    );
}

#[test]
fn join_with_spaces_puts_one_space_between_words() {
    assert_eq!(join_with_spaces(&strings(&["a", "", "b"])), "a  b");
    assert_eq!(join_with_spaces(&[]), "");
}
